//! A ring of member states and the protocol's circulation laws.
//!
//! The functions here walk a ballot, an election result or the shutdown
//! signal around a ring of member states exactly as the channel-facing
//! member logic does, one delivered message per step, and carry the
//! protocol's guarantees in their contracts: a circulating ballot elects
//! the lowest-id active member, a result announcement converges every
//! member's coordinator within one lap, and the shutdown signal visits
//! every member exactly once.

use vstd::prelude::*;

use crate::RingError;
use crate::msg::empty_ballot;
use crate::msg::is_lowest_marked;
use crate::msg::winner;

verus! {

/// The protocol-relevant state of one ring member.
#[derive(Clone, Copy, Debug, PartialEq, Eq, Structural)]
pub struct MemberCore {
    /// The member's fixed identity, its index in the ring.
    pub id: usize,
    /// Whether the member currently simulates being alive.
    pub active: bool,
    /// The member's local belief of the current leader.
    pub coord_id: usize,
}

/// A ring of members, indexed by id.
pub struct Ring {
    /// The members, where `members[i].id == i`.
    pub members: Vec<MemberCore>,
}

/// Forward ring distance from `a` to `b` in a ring of size `n`.
pub open spec fn rdist(n: int, a: int, b: int) -> int {
    if b >= a {
        b - a
    } else {
        b - a + n
    }
}

/// The member reached after `t` forward hops from `a`, for `0 <= t < n`.
pub open spec fn ring_at(n: int, a: int, t: int) -> int {
    if a + t < n {
        a + t
    } else {
        a + t - n
    }
}

/// The hop at which a relay started by `a` reaches `m`: successors come
/// at their ring distance, and `a` itself is reached after a full lap.
pub open spec fn hop_index(n: int, a: int, m: int) -> int {
    if m == a {
        n
    } else {
        rdist(n, a, m)
    }
}

impl Ring {
    /// The number of members.
    pub open spec fn n(self) -> int {
        self.members@.len() as int
    }

    /// Each member sits at the index of its own id and believes in a
    /// coordinator inside the ring.
    pub open spec fn wf(self) -> bool {
        &&& self.n() >= 1
        &&& forall|i: int| 0 <= i < self.n() ==> (#[trigger] self.members@[i]).id == i
        &&& forall|i: int|
            0 <= i < self.n() ==> (#[trigger] self.members@[i]).coord_id < self.n()
    }

    /// Whether member `i` currently simulates being alive.
    pub open spec fn active(self, i: int) -> bool {
        self.members@[i].active
    }

    /// Member `i`'s local belief of the current leader.
    pub open spec fn coord(self, i: int) -> int {
        self.members@[i].coord_id as int
    }

    /// At least one member is active.
    pub open spec fn some_active(self) -> bool {
        exists|i: int| 0 <= i < self.n() && self.active(i)
    }

    /// `w` is the lowest id among the active members.
    pub open spec fn is_lowest_active(self, w: int) -> bool {
        &&& 0 <= w < self.n()
        &&& self.active(w)
        &&& forall|i: int| 0 <= i < w ==> !self.active(i)
    }
}

/// The nearest responsive member ring-wise after `from`: the first active
/// candidate at distances 1 to n-1, every member strictly before it being
/// inactive; `None` when everyone else is inactive.
pub fn first_active_after(ring: &Ring, from: usize) -> (r: Option<usize>)
    requires
        ring.wf(),
        from < ring.n(),
    ensures
        r matches Some(c) ==> {
            &&& c < ring.n()
            &&& c != from
            &&& ring.active(c as int)
            &&& forall|m: int|
                0 <= m < ring.n() && 0 < #[trigger] rdist(ring.n(), from as int, m) < rdist(
                    ring.n(),
                    from as int,
                    c as int,
                ) ==> !ring.active(m)
        },
        r is None ==> forall|m: int| 0 <= m < ring.n() && m != from ==> !ring.active(m),
{
    let n: usize = ring.members.len();
    let mut off: usize = 1;
    while off < n
        invariant
            ring.wf(),
            from < n,
            n == ring.n(),
            1 <= off <= n,
            forall|m: int|
                0 <= m < n && 0 < #[trigger] rdist(n as int, from as int, m) < off
                    ==> !ring.active(m),
        decreases n - off,
    {
        let c: usize = if off < n - from {
            from + off
        } else {
            off - (n - from)
        };
        proof {
            assert(rdist(n as int, from as int, c as int) == off);
        }
        if ring.members[c].active {
            return Some(c);
        }
        off = off + 1;
    }
    proof {
        assert forall|m: int| 0 <= m < ring.n() && m != from implies !ring.active(m) by {
            assert(0 < rdist(n as int, from as int, m) < n);
        }
    }
    None
}

/// Circulates a fresh ballot injected at member `start`, one vote per step:
/// an inactive member relays the still-empty ballot to its nearest
/// responsive successor without marking itself, an active member marks
/// itself and forwards the same way, and the first member that sees its own
/// mark again announces the winner, the lowest id marked. Returns the
/// winner and the announcing member.
///
/// With any active member at all, the lap completes and elects the lowest
/// active id; with none, routing exhausts the ring.
pub fn run_ballot(ring: &Ring, start: usize) -> (r: Result<(usize, usize), RingError>)
    requires
        ring.wf(),
        start < ring.n(),
    ensures
        ring.some_active() ==> (r matches Ok(p) && ring.is_lowest_active(p.0 as int) && p.1
            < ring.n() && ring.active(p.1 as int)),
        !ring.some_active() ==> (r matches Err(e) && e == RingError::NoResponse),
{
    let n: usize = ring.members.len();
    let mut body = empty_ballot(n);
    let mut cur: usize = start;

    if !ring.members[start].active {
        match first_active_after(ring, start) {
            None => {
                proof {
                    assert(forall|i: int| 0 <= i < ring.n() ==> !ring.active(i));
                }
                return Err(RingError::NoResponse);
            },
            Some(c) => {
                cur = c;
            },
        }
    }

    let ghost mut f: int = rdist(n as int, start as int, cur as int);

    loop
        invariant
            ring.wf(),
            start < n,
            n == ring.n(),
            cur < n,
            body@.len() == n,
            ring.active(cur as int),
            0 <= f <= n,
            f < n ==> f == rdist(n as int, start as int, cur as int) && !body@[cur as int],
            f < n ==> forall|m: int|
                0 <= m < n && #[trigger] rdist(n as int, start as int, m) < f ==> body@[m]
                    == ring.active(m),
            f < n ==> forall|m: int|
                0 <= m < n && #[trigger] rdist(n as int, start as int, m) >= f ==> !body@[m],
            f == n ==> body@[cur as int] && forall|m: int|
                0 <= m < n ==> body@[m] == ring.active(m),
        decreases n - f,
    {
        if body[cur] {
            // The ballot has completed its lap: every mark mirrors an
            // activity flag, so the lowest mark is the lowest active id.
            proof {
                assert(f == n);
            }
            match winner(&body) {
                Some(w) => {
                    return Ok((w, cur));
                },
                None => {
                    // The ballot carries at least the current member's mark.
                    proof {
                        assert(false);
                    }
                    return Err(RingError::NoResponse);
                },
            }
        }
        body.set(cur, true);
        match first_active_after(ring, cur) {
            None => {
                // Nobody else answers: the current member alone is marked
                // and alone active, so it announces itself.
                proof {
                    assert forall|m: int| 0 <= m < n implies body@[m] == ring.active(m) by {
                        if m != cur as int {
                            assert(!ring.active(m));
                            // Unmarked on either side of the frontier: below
                            // it the marks mirror the flags, beyond it no
                            // mark was ever set.
                            if rdist(n as int, start as int, m) < f {
                            } else {
                            }
                        }
                    }
                }
                match winner(&body) {
                    Some(w) => {
                        return Ok((w, cur));
                    },
                    None => {
                        proof {
                            assert(body@[cur as int]);
                            assert(false);
                        }
                        return Err(RingError::NoResponse);
                    },
                }
            },
            Some(c) => {
                proof {
                    let pc: int = rdist(n as int, start as int, c as int);
                    assert(pc != f);
                    if pc > f {
                        // The ballot moved forward: everything strictly
                        // between the old and new frontier is inactive.
                        assert forall|m: int|
                            0 <= m < n && #[trigger] rdist(n as int, start as int, m) < pc
                                implies body@[m] == ring.active(m) by {
                            let pm: int = rdist(n as int, start as int, m);
                            if pm < f {
                            } else if pm == f {
                                assert(m == cur as int);
                            } else {
                                assert(0 < rdist(n as int, cur as int, m) < rdist(
                                    n as int,
                                    cur as int,
                                    c as int,
                                ));
                                assert(!ring.active(m));
                            }
                        }
                        f = pc;
                    } else {
                        // The ballot wrapped past the start: everything
                        // beyond the frontier is inactive, so the marks now
                        // mirror the activity flags everywhere.
                        assert forall|m: int| 0 <= m < n implies body@[m] == ring.active(m) by {
                            let pm: int = rdist(n as int, start as int, m);
                            if pm < f {
                            } else if pm == f {
                                assert(m == cur as int);
                            } else {
                                assert(0 < rdist(n as int, cur as int, m) < rdist(
                                    n as int,
                                    cur as int,
                                    c as int,
                                ));
                                assert(!ring.active(m));
                            }
                        }
                        assert(body@[c as int]);
                        f = n as int;
                    }
                }
                cur = c;
            },
        }
    }
}

/// Relays `ElectionResult { id }` along the fixed successor chain from the
/// announcer: each member whose belief differs adopts `id` and forwards,
/// and the member whose belief already equals `id` closes the loop and
/// reports completion instead. Returns the number of deliveries.
///
/// Exactly the last delivery reports completion: every member reached
/// before it still believed differently and relayed onward, and — within
/// the first lap — the closing member already believed in `id`. When no
/// member believed in `id` beforehand, the result laps the whole ring once
/// and every member converges on `id`; when every member already believed
/// in `id`, the first delivery only reports completion and nothing
/// changes.
pub fn propagate_result(ring: &mut Ring, announcer: usize, id: usize) -> (hops: usize)
    requires
        old(ring).wf(),
        old(ring).n() < usize::MAX,
        announcer < old(ring).n(),
        id < old(ring).n(),
    ensures
        final(ring).wf(),
        final(ring).n() == old(ring).n(),
        forall|m: int|
            0 <= m < old(ring).n() ==> (#[trigger] final(ring).members@[m]).active == old(
                ring,
            ).members@[m].active && final(ring).members@[m].id == old(ring).members@[m].id,
        1 <= hops <= old(ring).n() + 1,
        forall|m: int|
            0 <= m < old(ring).n() ==> #[trigger] final(ring).coord(m) == (if hop_index(
                old(ring).n(),
                announcer as int,
                m,
            ) < hops {
                id as int
            } else {
                old(ring).coord(m)
            }),
        forall|m: int|
            0 <= m < old(ring).n() && #[trigger] hop_index(old(ring).n(), announcer as int, m)
                < hops ==> old(ring).coord(m) != id,
        hops <= old(ring).n() ==> forall|m: int|
            0 <= m < old(ring).n() && #[trigger] hop_index(old(ring).n(), announcer as int, m)
                == hops ==> old(ring).coord(m) == id,
        (forall|m: int| 0 <= m < old(ring).n() ==> old(ring).coord(m) != id) ==> hops == old(
            ring,
        ).n() + 1 && forall|m: int| 0 <= m < old(ring).n() ==> final(ring).coord(m) == id,
        (forall|m: int| 0 <= m < old(ring).n() ==> old(ring).coord(m) == id) ==> hops == 1
            && forall|m: int| 0 <= m < old(ring).n() ==> final(ring).coord(m) == old(ring).coord(
            m,
        ),
{
    let ghost ring0: Ring = *ring;
    let n: usize = ring.members.len();
    let mut t: usize = 1;
    let mut cur: usize = if announcer + 1 == n {
        0
    } else {
        announcer + 1
    };

    loop
        invariant
            ring.wf(),
            n == ring.n(),
            n == ring0.n(),
            ring0 == *old(ring),
            announcer < n,
            id < n,
            cur < n,
            n < usize::MAX,
            1 <= t <= n + 1,
            hop_index(n as int, announcer as int, cur as int) == (if t <= n {
                t as int
            } else {
                1int
            }),
            forall|m: int|
                0 <= m < n ==> (#[trigger] ring.members@[m]).active == ring0.members@[m].active && ring.members@[m].id == ring0.members@[m].id,
            forall|m: int|
                0 <= m < n ==> ((#[trigger] ring.members@[m]).coord_id as int) == (if hop_index(
                    n as int,
                    announcer as int,
                    m,
                ) < t {
                    id as int
                } else {
                    ring0.coord(m)
                }),
            forall|m: int|
                0 <= m < n && #[trigger] hop_index(n as int, announcer as int, m) < t ==> ring0.coord(m) != id as int,
        decreases n + 1 - t,
    {
        if ring.members[cur].coord_id == id {
            proof {
                if t <= n {
                    // The member closing the loop was not visited before,
                    // so its belief already equalled the winner going in —
                    // and hop offsets name members uniquely.
                    assert(ring.coord(cur as int) == ring0.coord(cur as int));
                    assert forall|m: int|
                        0 <= m < n && #[trigger] hop_index(n as int, announcer as int, m)
                            == t as int implies ring0.coord(m) == id by {
                        assert(m == cur as int);
                    }
                }
                if t > 1 {
                    let c1: int = ring_at(n as int, announcer as int, 1);
                    assert(hop_index(n as int, announcer as int, c1) == 1);
                    assert(ring0.coord(c1) != id as int);
                }
            }
            return t;
        }
        proof {
            if t == n + 1 {
                assert(hop_index(n as int, announcer as int, cur as int) == 1);
                assert(ring.coord(cur as int) == id as int);
            }
            assert(t <= n);
        }
        let ghost pre: Ring = *ring;
        let mut mc = ring.members[cur];
        mc.coord_id = id;
        ring.members.set(cur, mc);
        proof {
            // Hop indices are distinct for distinct members, so only the
            // current member's belief moved below the new frontier.
            assert forall|m: int|
                0 <= m < n implies ((#[trigger] ring.members@[m]).coord_id as int) == (if hop_index(
                n as int,
                announcer as int,
                m,
            ) < t + 1 {
                id as int
            } else {
                ring0.coord(m)
            }) by {
                if m == cur as int {
                    assert(hop_index(n as int, announcer as int, m) == t as int);
                    assert(ring.members@[m].coord_id == id);
                } else {
                    assert(hop_index(n as int, announcer as int, m) != t as int);
                    assert(ring.members@[m] == pre.members@[m]);
                }
            }
        }
        t = t + 1;
        cur = if cur + 1 == n {
            0
        } else {
            cur + 1
        };
    }
}

/// The shutdown signal is relayed along the fixed successor chain and
/// never consults activity flags: starting anywhere, `n` successive hops
/// visit every member exactly once, whatever each member's activity flag,
/// so every run loop terminates after relaying exactly once.
pub proof fn lemma_end_relay_visits_all(n: int, start: int)
    requires
        n >= 1,
        0 <= start < n,
    ensures
        forall|t1: int, t2: int|
            0 <= t1 < t2 < n ==> ring_at(n, start, t1) != ring_at(n, start, t2),
        forall|m: int|
            0 <= m < n ==> #[trigger] ring_at(n, start, rdist(n, start, m)) == m && 0 <= rdist(
                n,
                start,
                m,
            ) < n,
{
}

/// In a ring whose members are all active, the lowest active id is 0: an
/// election triggered with an empty ballot elects member 0, whoever marks
/// first.
pub proof fn lemma_all_active_elects_zero(ring: Ring)
    requires
        ring.wf(),
        forall|m: int| 0 <= m < ring.n() ==> ring.active(m),
    ensures
        ring.some_active(),
        forall|w: int| ring.is_lowest_active(w) ==> w == 0,
{
    assert(ring.active(0));
}

/// A completed ballot whose marks mirror the activity flags names the
/// lowest active id as its lowest mark: what a member announces after a
/// full lap is the election's rightful winner.
pub proof fn lemma_marks_mirror_flags(ring: Ring, b: Seq<bool>, w: int)
    requires
        ring.wf(),
        b.len() == ring.n(),
        forall|m: int| 0 <= m < ring.n() ==> b[m] == ring.active(m),
        is_lowest_marked(b, w),
    ensures
        ring.is_lowest_active(w),
{
}

/// After the believed coordinator went down, the elected winner is someone
/// else: nobody believes in the winner yet, so relaying the result
/// converges every member's belief within one lap.
pub proof fn lemma_fresh_winner_converges(ring: Ring, c: int, w: int)
    requires
        ring.wf(),
        0 <= c < ring.n(),
        !ring.active(c),
        forall|m: int| 0 <= m < ring.n() ==> ring.coord(m) == c,
        ring.is_lowest_active(w),
    ensures
        w != c,
        forall|m: int| 0 <= m < ring.n() ==> ring.coord(m) != w,
{
    assert(ring.active(w));
}

/// With at least two members of which exactly one is inactive, some member
/// is active, so a circulating ballot elects the lowest-id active member.
pub proof fn lemma_single_fault_some_active(ring: Ring, t: int)
    requires
        ring.wf(),
        ring.n() >= 2,
        0 <= t < ring.n(),
        !ring.active(t),
        forall|m: int| 0 <= m < ring.n() && m != t ==> ring.active(m),
    ensures
        ring.some_active(),
{
    let w: int = if t == 0 {
        1
    } else {
        0
    };
    assert(ring.active(w));
}

} // verus!
