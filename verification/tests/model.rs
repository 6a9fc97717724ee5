//! The ring model: probe routing, ballot circulation, result propagation.

use ring_election::RingError;
use ring_election::ring::MemberCore;
use ring_election::ring::Ring;
use ring_election::ring::first_active_after;
use ring_election::ring::propagate_result;
use ring_election::ring::run_ballot;

fn ring_of(actives: &[bool], coord: usize) -> Ring {
    let members = actives
        .iter()
        .enumerate()
        .map(|(i, a)| MemberCore { id: i, active: *a, coord_id: coord })
        .collect();
    Ring { members }
}

#[test]
fn probe_skips_inactive_member() {
    // The candidate right after the caller is down: the probe reaches the
    // next active member past it.
    let ring = ring_of(&[true, false, true], 0);
    assert_eq!(first_active_after(&ring, 0), Some(2));
}

#[test]
fn probe_wraps_around() {
    let ring = ring_of(&[true, false, false, true], 1);
    assert_eq!(first_active_after(&ring, 3), Some(0));
    assert_eq!(first_active_after(&ring, 0), Some(3));
}

#[test]
fn probe_finds_nobody_when_all_others_down() {
    let ring = ring_of(&[true, false, false], 0);
    assert_eq!(first_active_after(&ring, 0), None);
}

#[test]
fn ballot_all_active_elects_zero() {
    // An election over an all-active ring ends with the lowest id, 0.
    let ring = ring_of(&[true, true, true], 0);
    let (winner, _) = run_ballot(&ring, 0).unwrap();
    assert_eq!(winner, 0);
}

#[test]
fn ballot_single_fault_elects_lowest_active() {
    // Member 0 toggled inactive; ballots injected anywhere elect member 1.
    let ring = ring_of(&[false, true, true], 0);
    for start in 0..3 {
        let (winner, _) = run_ballot(&ring, start).unwrap();
        assert_eq!(winner, 1);
    }
}

#[test]
fn ballot_single_fault_mid_ring() {
    let ring = ring_of(&[true, false, true, true], 0);
    for start in 0..4 {
        let (winner, _) = run_ballot(&ring, start).unwrap();
        assert_eq!(winner, 0);
    }
}

#[test]
fn ballot_lone_active_member_elects_itself() {
    let ring = ring_of(&[false, false, true], 0);
    let (winner, announcer) = run_ballot(&ring, 0).unwrap();
    assert_eq!(winner, 2);
    assert_eq!(announcer, 2);
}

#[test]
fn ballot_dead_ring_exhausts_routing() {
    let ring = ring_of(&[false, false, false], 0);
    assert_eq!(run_ballot(&ring, 0), Err(RingError::NoResponse));
}

#[test]
fn result_converges_in_one_lap() {
    // A fresh winner laps the whole ring once, plus the closing delivery.
    let mut ring = ring_of(&[false, true, true], 0);
    let hops: usize = propagate_result(&mut ring, 1, 1);
    assert_eq!(hops, 4);
    for m in &ring.members {
        assert_eq!(m.coord_id, 1);
    }
}

#[test]
fn result_already_believed_only_reports() {
    // Every member already believes in the winner: the first delivery
    // closes the loop and nothing changes.
    let mut ring = ring_of(&[true, true, true], 2);
    let hops: usize = propagate_result(&mut ring, 0, 2);
    assert_eq!(hops, 1);
    for m in &ring.members {
        assert_eq!(m.coord_id, 2);
    }
}
