//! The scenario sequence, its text format, and the driver state machine —
//! up to a whole ring of threads driven through a toggle and an election.

use crossbeam::channel::Receiver;
use crossbeam::channel::Sender;
use crossbeam::channel::bounded;
use ring_election::driver::Driver;
use ring_election::driver::DriverCmd;
use ring_election::driver::DriverPhase;
use ring_election::driver::ScenarioError;
use ring_election::driver::SimSeq;
use ring_election::member::RingMember;
use ring_election::msg::Msg;
use ring_election::msg::SimMsg;
use ring_election::ring::MemberCore;
use ring_election::ring::Ring;
use ring_election::ring::propagate_result;
use ring_election::ring::run_ballot;

#[test]
fn simseq_accepts_equal_lengths() {
    let s = SimSeq::new(vec![0, 2], vec![1, 3]).unwrap();
    assert_eq!(s.toggles, vec![0, 2]);
    assert_eq!(s.waits, vec![1, 3]);
    assert_eq!(s.len(), 2);
}

#[test]
fn simseq_rejects_unequal_lengths() {
    assert!(matches!(
        SimSeq::new(vec![0], vec![]),
        Err(ScenarioError::LengthMismatch)
    ));
}

#[test]
fn default_scenario_toggle_order() {
    // For three members the built-in toggle order is 0 1 1 2 2 0 1 1, one
    // second between steps.
    let s = SimSeq::default();
    assert_eq!(s.toggles, vec![0, 1, 1, 2, 2, 0, 1, 1]);
    assert_eq!(s.waits, vec![1, 1, 1, 1, 1, 1, 1, 1]);
}

#[test]
fn default_scenario_for_two_members() {
    let s = SimSeq::default_for(2);
    assert_eq!(s.toggles, vec![0, 0, 1, 1]);
    assert_eq!(s.waits, vec![1, 1, 1, 1]);
}

#[test]
fn parse_reads_alternating_values() {
    let s = SimSeq::from_bytes(b"1 0\n2 1\n").unwrap();
    assert_eq!(s.waits, vec![1, 2]);
    assert_eq!(s.toggles, vec![0, 1]);
}

#[test]
fn parse_handles_multi_digit_values() {
    let s = SimSeq::from_bytes(b"10 2 007 11").unwrap();
    assert_eq!(s.waits, vec![10, 7]);
    assert_eq!(s.toggles, vec![2, 11]);
}

#[test]
fn parse_accepts_empty_input() {
    let s = SimSeq::from_bytes(b"").unwrap();
    assert_eq!(s.len(), 0);
}

#[test]
fn parse_rejects_foreign_bytes() {
    assert!(matches!(
        SimSeq::from_bytes(b"1 x"),
        Err(ScenarioError::InvalidByte)
    ));
}

#[test]
fn parse_rejects_an_odd_number_of_values() {
    assert!(matches!(
        SimSeq::from_bytes(b"1 2 3"),
        Err(ScenarioError::LengthMismatch)
    ));
}

#[test]
fn parse_rejects_overlong_values() {
    assert!(matches!(
        SimSeq::from_bytes(b"1234567890 0"),
        Err(ScenarioError::ValueTooLarge)
    ));
}

#[test]
fn driver_toggling_the_coordinator_starts_an_election() {
    // The scenario from the built-in default's first step, played against
    // the ring model: toggling member 0 — the coordinator — inactive
    // triggers exactly one election whose winner, member 1, becomes
    // everyone's coordinator.
    let mut ring = Ring {
        members: (0..3)
            .map(|i| MemberCore { id: i, active: true, coord_id: 0 })
            .collect(),
    };
    let seq = SimSeq::new(vec![0], vec![0]).unwrap();
    let mut d = Driver::new(seq, 0);

    match d.next_cmd() {
        DriverCmd::SleepThenToggle { secs, target } => {
            assert_eq!(secs, 0);
            assert_eq!(target, 0);
        },
        other => panic!("unexpected command: {:?}", other),
    }
    ring.members[0].active = false;
    let cmd = d.on_sim_msg(SimMsg::ConfirmToggle { id: 0, active: false });
    assert_eq!(cmd, DriverCmd::StartElection);

    let (winner, announcer) = run_ballot(&ring, 0).unwrap();
    assert_eq!(winner, 1);
    let hops: usize = propagate_result(&mut ring, announcer, winner);
    assert!(hops <= 4);
    for m in &ring.members {
        assert_eq!(m.coord_id, 1);
    }

    let cmd = d.on_sim_msg(SimMsg::ElectionResult { id: winner });
    assert_eq!(cmd, DriverCmd::Proceed);
    assert_eq!(d.coord_id, 1);
    assert_eq!(d.next_cmd(), DriverCmd::Finish);
}

#[test]
fn driver_ignores_a_toggle_of_a_bystander() {
    let seq = SimSeq::new(vec![2], vec![0]).unwrap();
    let mut d = Driver::new(seq, 0);
    d.next_cmd();
    let cmd = d.on_sim_msg(SimMsg::ConfirmToggle { id: 2, active: false });
    assert_eq!(cmd, DriverCmd::Proceed);
    assert_eq!(d.coord_id, 0);
    assert_eq!(d.next_cmd(), DriverCmd::Finish);
}

#[test]
fn driver_ignores_a_toggle_back_to_active() {
    let seq = SimSeq::new(vec![0], vec![0]).unwrap();
    let mut d = Driver::new(seq, 0);
    d.next_cmd();
    let cmd = d.on_sim_msg(SimMsg::ConfirmToggle { id: 0, active: true });
    assert_eq!(cmd, DriverCmd::Proceed);
    assert_eq!(d.coord_id, 0);
}

#[test]
fn ring_of_threads_converges_after_coordinator_failure() {
    // The whole system, as the process runs it: three members on their own
    // threads, the driver toggling member 0 — the initial coordinator —
    // inactive, one election, convergence on member 1, then shutdown.
    let n: usize = 3;
    let mut senders: Vec<Sender<Msg>> = Vec::new();
    let mut receivers: Vec<Receiver<Msg>> = Vec::new();
    for _ in 0..n {
        let (s, r) = bounded(1);
        senders.push(s);
        receivers.push(r);
    }
    let (sim_s, sim_r) = bounded(1);

    crossbeam::thread::scope(|scope| {
        for i in 0..n {
            let ss = senders.clone();
            let r = receivers[i].clone();
            let sim_s = sim_s.clone();
            let next: usize = if i + 1 == n { 0 } else { i + 1 };
            scope.spawn(move |_| {
                let mut m = RingMember::new(i, ss, sim_s, r, next, 0);
                loop {
                    match m.run_step() {
                        Ok(true) => {},
                        _ => break,
                    }
                }
            });
        }

        let first = senders[0].clone();
        let seq = SimSeq::new(vec![0], vec![0]).unwrap();
        let mut d = Driver::new(seq, 0);
        loop {
            match d.next_cmd() {
                DriverCmd::SleepThenToggle { secs: _, target } => {
                    first.send(Msg::SimToggle { id: target }).unwrap();
                    while d.phase == DriverPhase::AwaitConfirm
                        || d.phase == DriverPhase::AwaitResult
                    {
                        let report = sim_r.recv().unwrap();
                        if d.on_sim_msg(report) == DriverCmd::StartElection {
                            first.send(Msg::election(n)).unwrap();
                        }
                    }
                },
                DriverCmd::Finish => {
                    first.send(Msg::SimEnd).unwrap();
                    break;
                },
                other => panic!("unexpected command: {:?}", other),
            }
        }
        assert_eq!(d.coord_id, 1);
    })
    .unwrap();
}
