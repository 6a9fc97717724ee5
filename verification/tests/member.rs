//! The channel-facing member: dispatch, probe, forced relays, over real
//! channels.

use crossbeam::channel::Receiver;
use crossbeam::channel::Sender;
use crossbeam::channel::bounded;
use ring_election::RingError;
use ring_election::member::RingMember;
use ring_election::msg::Msg;
use ring_election::msg::SimMsg;

/// A member wired into a fresh fabric of `n` mailboxes of capacity `cap`:
/// the member, one receiver per mailbox, the driver-side receiver, and a
/// sender for the member's own mailbox.
fn fabric(
    n: usize,
    id: usize,
    cap: usize,
) -> (RingMember, Vec<Receiver<Msg>>, Receiver<SimMsg>, Sender<Msg>) {
    let mut senders: Vec<Sender<Msg>> = Vec::new();
    let mut receivers: Vec<Receiver<Msg>> = Vec::new();
    for _ in 0..n {
        let (s, r) = bounded(cap);
        senders.push(s);
        receivers.push(r);
    }
    let (sim_s, sim_r) = bounded(cap);
    let own_s = senders[id].clone();
    let own_r = receivers[id].clone();
    let next: usize = if id + 1 == n { 0 } else { id + 1 };
    let member = RingMember::new(id, senders, sim_s, own_r, next, 0);
    (member, receivers, sim_r, own_s)
}

#[test]
fn ping_to_active_member_answers_pong() {
    let (mut m, receivers, _sim_r, _own_s) = fabric(3, 0, 8);
    assert_eq!(m.handle_msg(Msg::Ping { s_id: 2 }), Ok(true));
    assert_eq!(receivers[2].try_recv().unwrap(), Msg::Pong);
}

#[test]
fn ping_to_inactive_member_stays_silent() {
    // An inactive member drops pings: that is what makes it invisible to
    // the probe.
    let (mut m, receivers, sim_r, _own_s) = fabric(3, 0, 8);
    m.toggle(0).unwrap();
    assert!(!m.sim_active);
    sim_r.try_recv().unwrap();
    assert_eq!(m.handle_msg(Msg::Ping { s_id: 2 }), Ok(true));
    assert!(receivers[2].try_recv().is_err());
    assert!(receivers[1].try_recv().is_err());
    assert!(sim_r.try_recv().is_err());
}

#[test]
fn toggle_self_flips_and_confirms() {
    let (mut m, receivers, sim_r, _own_s) = fabric(3, 0, 8);
    m.toggle(0).unwrap();
    assert!(!m.sim_active);
    assert_eq!(
        sim_r.try_recv().unwrap(),
        SimMsg::ConfirmToggle { id: 0, active: false }
    );
    m.toggle(0).unwrap();
    assert!(m.sim_active);
    assert_eq!(
        sim_r.try_recv().unwrap(),
        SimMsg::ConfirmToggle { id: 0, active: true }
    );
    assert!(receivers[1].try_recv().is_err());
}

#[test]
fn toggle_other_relays_to_fixed_successor() {
    let (mut m, receivers, sim_r, _own_s) = fabric(3, 0, 8);
    m.toggle(2).unwrap();
    assert!(m.sim_active);
    assert_eq!(receivers[1].try_recv().unwrap(), Msg::SimToggle { id: 2 });
    assert!(sim_r.try_recv().is_err());
}

#[test]
fn update_coord_adopts_and_forwards() {
    let (mut m, receivers, sim_r, _own_s) = fabric(3, 0, 8);
    assert_eq!(m.coord_id, 0);
    m.update_coord(2).unwrap();
    assert_eq!(m.coord_id, 2);
    assert_eq!(receivers[1].try_recv().unwrap(), Msg::ElectionResult { id: 2 });
    assert!(sim_r.try_recv().is_err());
}

#[test]
fn update_coord_already_converged_only_reports() {
    // A result reaching a member that already believes in the winner is
    // reported to the driver and never re-relayed.
    let (mut m, receivers, sim_r, _own_s) = fabric(3, 0, 8);
    m.update_coord(2).unwrap();
    receivers[1].try_recv().unwrap();
    m.update_coord(2).unwrap();
    assert_eq!(m.coord_id, 2);
    assert_eq!(sim_r.try_recv().unwrap(), SimMsg::ElectionResult { id: 2 });
    assert!(receivers[1].try_recv().is_err());
    assert!(receivers[2].try_recv().is_err());
}

#[test]
fn end_relays_once_and_stops_the_loop() {
    let (mut m, receivers, _sim_r, _own_s) = fabric(3, 0, 8);
    assert_eq!(m.handle_msg(Msg::SimEnd), Ok(false));
    assert_eq!(receivers[1].try_recv().unwrap(), Msg::SimEnd);
    assert!(receivers[1].try_recv().is_err());
}

#[test]
fn end_stops_inactive_member_too() {
    // The shutdown signal ignores activity flags.
    let (mut m, receivers, sim_r, _own_s) = fabric(3, 0, 8);
    m.toggle(0).unwrap();
    sim_r.try_recv().unwrap();
    assert_eq!(m.handle_msg(Msg::SimEnd), Ok(false));
    assert_eq!(receivers[1].try_recv().unwrap(), Msg::SimEnd);
}

#[test]
fn run_step_consumes_one_message() {
    let (mut m, receivers, _sim_r, own_s) = fabric(3, 0, 8);
    own_s.send(Msg::Ping { s_id: 1 }).unwrap();
    own_s.send(Msg::SimEnd).unwrap();
    assert_eq!(m.run_step(), Ok(true));
    assert_eq!(receivers[1].try_recv().unwrap(), Msg::Pong);
    assert_eq!(m.run_step(), Ok(false));
    assert_eq!(receivers[1].try_recv().unwrap(), Msg::SimEnd);
}

#[test]
fn probe_delivers_to_ponging_candidate() {
    let (mut m, receivers, _sim_r, own_s) = fabric(3, 0, 8);
    own_s.send(Msg::Pong).unwrap();
    m.send(Msg::ElectionResult { id: 1 }).unwrap();
    assert_eq!(receivers[1].try_recv().unwrap(), Msg::Ping { s_id: 0 });
    assert_eq!(receivers[1].try_recv().unwrap(), Msg::ElectionResult { id: 1 });
    assert!(receivers[2].try_recv().is_err());
}

#[test]
fn probe_exhausts_a_silent_ring() {
    // Nobody answers: every other member is pinged once, then the probe
    // reports routing exhaustion.
    let (mut m, receivers, _sim_r, _own_s) = fabric(3, 0, 8);
    assert_eq!(m.send(Msg::Pong), Err(RingError::NoResponse));
    assert_eq!(receivers[1].try_recv().unwrap(), Msg::Ping { s_id: 0 });
    assert!(receivers[1].try_recv().is_err());
    assert_eq!(receivers[2].try_recv().unwrap(), Msg::Ping { s_id: 0 });
    assert!(receivers[2].try_recv().is_err());
}

#[test]
fn probe_dispatches_interleaved_traffic_and_resumes() {
    // While waiting for a pong the member handles an unrelated toggle
    // through the normal dispatch, then finishes the same probe.
    let (mut m, receivers, sim_r, own_s) = fabric(3, 0, 8);
    own_s.send(Msg::SimToggle { id: 0 }).unwrap();
    own_s.send(Msg::Pong).unwrap();
    m.send(Msg::ElectionResult { id: 1 }).unwrap();
    assert!(!m.sim_active);
    assert_eq!(
        sim_r.try_recv().unwrap(),
        SimMsg::ConfirmToggle { id: 0, active: false }
    );
    assert_eq!(receivers[1].try_recv().unwrap(), Msg::Ping { s_id: 0 });
    assert_eq!(receivers[1].try_recv().unwrap(), Msg::ElectionResult { id: 1 });
}

#[test]
fn vote_marks_self_and_forwards() {
    let (mut m, receivers, _sim_r, own_s) = fabric(3, 0, 8);
    own_s.send(Msg::Pong).unwrap();
    m.vote(vec![false, false, false]).unwrap();
    assert_eq!(receivers[1].try_recv().unwrap(), Msg::Ping { s_id: 0 });
    assert_eq!(
        receivers[1].try_recv().unwrap(),
        Msg::Election { body: vec![true, false, false] }
    );
}

#[test]
fn vote_inactive_forwards_empty_ballot_unmarked() {
    // An inactive member does not participate but must not break
    // circulation.
    let (mut m, receivers, sim_r, own_s) = fabric(3, 0, 8);
    m.toggle(0).unwrap();
    sim_r.try_recv().unwrap();
    own_s.send(Msg::Pong).unwrap();
    m.vote(vec![false, false, false]).unwrap();
    assert_eq!(receivers[1].try_recv().unwrap(), Msg::Ping { s_id: 0 });
    assert_eq!(
        receivers[1].try_recv().unwrap(),
        Msg::Election { body: vec![false, false, false] }
    );
}

#[test]
fn vote_own_mark_present_announces_winner() {
    // The ballot lapped back: the lowest marked id is announced along the
    // fixed successor chain, without any probing.
    let (mut m, receivers, _sim_r, _own_s) = fabric(3, 0, 8);
    m.vote(vec![true, false, true]).unwrap();
    assert_eq!(receivers[1].try_recv().unwrap(), Msg::ElectionResult { id: 0 });
    assert!(receivers[1].try_recv().is_err());
    assert!(receivers[2].try_recv().is_err());
}

#[test]
fn vote_with_silent_ring_announces_own_marks() {
    // Marking succeeded but nobody takes the ballot: the election closes
    // here, with the marks gathered so far.
    let (mut m, receivers, _sim_r, _own_s) = fabric(3, 0, 8);
    m.vote(vec![false, false, false]).unwrap();
    assert_eq!(receivers[1].try_recv().unwrap(), Msg::Ping { s_id: 0 });
    assert_eq!(receivers[2].try_recv().unwrap(), Msg::Ping { s_id: 0 });
    assert_eq!(receivers[1].try_recv().unwrap(), Msg::ElectionResult { id: 0 });
}

#[test]
fn vote_refuses_a_ballot_of_the_wrong_size() {
    let (mut m, receivers, _sim_r, _own_s) = fabric(3, 0, 8);
    assert_eq!(
        m.vote(vec![false, false]),
        Err(RingError::MalformedBallot)
    );
    assert!(receivers[1].try_recv().is_err());
}

#[test]
fn election_message_carries_an_empty_ballot() {
    match Msg::election(3) {
        Msg::Election { body } => assert_eq!(body, vec![false, false, false]),
        other => panic!("not a ballot: {:?}", other),
    }
}

#[test]
fn ping_from_an_unknown_sender_is_an_addressing_error() {
    let (mut m, _receivers, _sim_r, _own_s) = fabric(3, 0, 8);
    assert_eq!(
        m.handle_msg(Msg::Ping { s_id: 9 }),
        Err(RingError::UnknownMember)
    );
}

#[test]
fn ping_claiming_to_come_from_the_member_itself_is_refused() {
    // The fabric addresses every *other* member: a member's own id names
    // no channel, so a self-addressed pong cannot happen.
    let (mut m, receivers, _sim_r, _own_s) = fabric(3, 0, 8);
    assert_eq!(
        m.handle_msg(Msg::Ping { s_id: 0 }),
        Err(RingError::UnknownMember)
    );
    assert!(receivers[0].try_recv().is_err());
}

#[test]
fn relaying_to_a_closed_mailbox_fails() {
    // The successor's mailbox is gone: a peer died unexpectedly.
    let (mut m, mut receivers, _sim_r, _own_s) = fabric(3, 0, 8);
    drop(receivers.remove(1));
    assert_eq!(m.toggle(2), Err(RingError::ChannelClosed));
}

#[test]
fn nested_ballots_beyond_the_budget_are_refused() {
    // Every probe wait is answered by yet another empty ballot, each
    // starting a relay probe of its own: past the reentry budget the
    // member gives up instead of recursing further.
    let (mut m, _receivers, sim_r, own_s) = fabric(3, 0, 128);
    m.toggle(0).unwrap();
    sim_r.try_recv().unwrap();
    for _ in 0..33 {
        own_s
            .send(Msg::Election { body: vec![false, false, false] })
            .unwrap();
    }
    assert_eq!(
        m.vote(vec![false, false, false]),
        Err(RingError::DepthExceeded)
    );
}
