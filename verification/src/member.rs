//! The channel-facing ring member: message dispatch, the liveness probe,
//! and the forced relays.
//!
//! Every message a member hands to the fabric is mirrored in a ghost log,
//! so the contracts can say exactly which messages a call sent where. What
//! arrives on a mailbox depends on the peers; the dispatch logic is
//! verified for every possible arrival.

use vstd::prelude::*;

use crate::RingError;
use crate::chan::chan_recv;
use crate::chan::chan_recv_timeout;
use crate::chan::chan_send;
use crate::msg::Msg;
use crate::msg::SimMsg;
use crate::msg::ballot_empty;
use crate::msg::ballot_is_empty;
use crate::msg::clone_ballot;
use crate::msg::is_lowest_marked;
use crate::msg::winner;
use crate::ring::rdist;

verus! {

/// A record of one message handed to the fabric.
pub enum Outbound {
    /// A message delivered to the mailbox of member `to`.
    Peer { to: usize, msg: Msg },
    /// A report delivered to the scenario driver.
    Sim { msg: SimMsg },
}

/// How long the probe waits for a reply before writing a candidate off,
/// in milliseconds. Generous enough that a live peer's pong is never
/// mistaken for silence under ordinary scheduling.
pub const PROBE_TIMEOUT_MS: u64 = 50;

/// How many probes interleaved ballots may start, one inside the other,
/// before a member refuses to recurse further.
pub const MAX_REENTRY: u64 = 32;

/// How many interleaved messages one probe wait will dispatch before
/// giving the probe up.
pub const MAX_INTERLEAVED: u64 = 64;

/// One ring member and its endpoints of the message fabric.
pub struct RingMember {
    /// The member's fixed identity.
    pub id: usize,
    /// Whether the member simulates being alive.
    pub sim_active: bool,
    /// One outbound handle per member, indexed by id; the own slot is never
    /// used.
    pub ss: Vec<crossbeam::channel::Sender<Msg>>,
    /// The handle for reports to the scenario driver.
    pub sim_s: crossbeam::channel::Sender<SimMsg>,
    /// The member's own mailbox.
    pub r: crossbeam::channel::Receiver<Msg>,
    /// The fixed ring successor.
    pub next_id: usize,
    /// The member's local belief of the current leader.
    pub coord_id: usize,
    /// Everything this member has handed to the fabric, in order.
    pub sent: Ghost<Seq<Outbound>>,
}

/// The fixed parts of a member: its identity, its endpoints and its
/// successor. Handling messages never changes these.
pub open spec fn same_fabric(pre: RingMember, post: RingMember) -> bool {
    &&& post.id == pre.id
    &&& post.ss == pre.ss
    &&& post.sim_s == pre.sim_s
    &&& post.r == pre.r
    &&& post.next_id == pre.next_id
}

/// Nothing changed but the ghost log.
pub open spec fn only_logged(pre: RingMember, post: RingMember) -> bool {
    &&& same_fabric(pre, post)
    &&& post.sim_active == pre.sim_active
    &&& post.coord_id == pre.coord_id
}

impl RingMember {
    /// The number of ring members this member can address.
    pub open spec fn n(self) -> int {
        self.ss@.len() as int
    }

    /// The log of messages handed to the fabric so far.
    pub open spec fn log(self) -> Seq<Outbound> {
        self.sent@
    }

    /// The member sits inside a ring of at least two, and its successor is
    /// the fixed next id ring-wise. A lone member would have nobody to
    /// address: the fabric maps every other member.
    pub open spec fn wf(self) -> bool {
        &&& self.n() >= 2
        &&& self.id < self.n()
        &&& self.next_id == (if self.id + 1 == self.n() {
            0int
        } else {
            self.id + 1
        })
    }

    /// A member as created at startup: alive, with an empty log.
    pub fn new(
        id: usize,
        ss: Vec<crossbeam::channel::Sender<Msg>>,
        sim_s: crossbeam::channel::Sender<SimMsg>,
        r: crossbeam::channel::Receiver<Msg>,
        next_id: usize,
        coord_id: usize,
    ) -> (m: RingMember)
        requires
            2 <= ss@.len(),
            id < ss@.len(),
            next_id == (if id + 1 == ss@.len() {
                0int
            } else {
                id + 1
            }),
        ensures
            m.wf(),
            m.id == id,
            m.sim_active == true,
            m.ss == ss,
            m.sim_s == sim_s,
            m.r == r,
            m.next_id == next_id,
            m.coord_id == coord_id,
            m.log() == Seq::<Outbound>::empty(),
    {
        RingMember {
            id,
            sim_active: true,
            ss,
            sim_s,
            r,
            next_id,
            coord_id,
            sent: Ghost(Seq::empty()),
        }
    }

    /// Hands a message to the mailbox of member `to` and logs it. The
    /// fabric addresses every *other* member: the own id is as unknown to
    /// it as one beyond the ring.
    fn send_to(&mut self, to: usize, msg: Msg) -> (res: Result<(), RingError>)
        ensures
            only_logged(*old(self), *final(self)),
            res is Ok ==> to < old(self).n() && to != old(self).id && final(self).log() == old(
                self,
            ).log().push((Outbound::Peer { to, msg })),
            res matches Err(e) ==> final(self).log() == old(self).log() && (e
                == RingError::UnknownMember || e == RingError::ChannelClosed),
            to >= old(self).n() || to == old(self).id ==> res == Err::<(), RingError>(
                RingError::UnknownMember,
            ),
            res matches Err(e) && e == RingError::UnknownMember ==> to >= old(self).n() || to
                == old(self).id,
    {
        if to >= self.ss.len() || to == self.id {
            return Err(RingError::UnknownMember);
        }
        let ghost logged = msg;
        match chan_send(&self.ss[to], msg) {
            Ok(()) => {
                self.sent = Ghost(self.sent@.push(Outbound::Peer { to, msg: logged }));
                Ok(())
            },
            Err(e) => Err(e),
        }
    }

    /// Hands a report to the scenario driver and logs it.
    fn send_sim(&mut self, msg: SimMsg) -> (res: Result<(), RingError>)
        ensures
            only_logged(*old(self), *final(self)),
            res is Ok ==> final(self).log() == old(self).log().push((Outbound::Sim { msg })),
            res matches Err(e) ==> e == RingError::ChannelClosed && final(self).log() == old(self).log(),
    {
        let ghost logged = msg;
        match chan_send(&self.sim_s, msg) {
            Ok(()) => {
                self.sent = Ghost(self.sent@.push(Outbound::Sim { msg: logged }));
                Ok(())
            },
            Err(e) => Err(e),
        }
    }

    /// Sends to the fixed ring successor, regardless of anyone's liveness.
    pub fn sim_force_send(&mut self, msg: Msg) -> (res: Result<(), RingError>)
        requires
            old(self).wf(),
        ensures
            final(self).wf(),
            only_logged(*old(self), *final(self)),
            res is Ok ==> final(self).log() == old(self).log().push(
                (Outbound::Peer { to: old(self).next_id, msg }),
            ),
            res matches Err(e) ==> e == RingError::ChannelClosed && final(self).log() == old(self).log(),
    {
        let nid: usize = self.next_id;
        self.send_to(nid, msg)
    }

    /// Applies a toggle: when addressed to this member, flips the activity
    /// flag and confirms to the driver; otherwise relays the toggle along
    /// the fixed successor chain, so it reaches its target even through
    /// inactive intermediaries.
    pub fn toggle(&mut self, id: usize) -> (res: Result<(), RingError>)
        requires
            old(self).wf(),
        ensures
            final(self).wf(),
            same_fabric(*old(self), *final(self)),
            final(self).coord_id == old(self).coord_id,
            id != old(self).id ==> final(self).sim_active == old(self).sim_active,
            id != old(self).id && res is Ok ==> final(self).log() == old(self).log().push(
                (Outbound::Peer { to: old(self).next_id, msg: Msg::SimToggle { id } }),
            ),
            id == old(self).id ==> final(self).sim_active == !old(self).sim_active,
            id == old(self).id && res is Ok ==> final(self).log() == old(self).log().push(
                (Outbound::Sim {
                    msg: SimMsg::ConfirmToggle { id, active: !old(self).sim_active },
                }),
            ),
            res matches Err(e) ==> e == RingError::ChannelClosed && final(self).log() == old(self).log(),
    {
        if id != self.id {
            return self.sim_force_send(Msg::SimToggle { id });
        }
        self.sim_active = !self.sim_active;
        let active = self.sim_active;
        self.send_sim(SimMsg::ConfirmToggle { id, active })
    }

    /// Adopts an announced winner and forwards the result along the fixed
    /// successor chain — except when this member already believes in that
    /// winner: then the result has closed its lap, and the member only
    /// reports completion to the driver, never re-relaying.
    pub fn update_coord(&mut self, id: usize) -> (res: Result<(), RingError>)
        requires
            old(self).wf(),
        ensures
            final(self).wf(),
            same_fabric(*old(self), *final(self)),
            final(self).sim_active == old(self).sim_active,
            old(self).coord_id == id ==> final(self).coord_id == old(self).coord_id,
            old(self).coord_id == id && res is Ok ==> final(self).log() == old(self).log().push(
                (Outbound::Sim { msg: SimMsg::ElectionResult { id } }),
            ),
            old(self).coord_id != id && res is Ok ==> final(self).coord_id == id && final(self).log() == old(self).log().push(
                (Outbound::Peer { to: old(self).next_id, msg: Msg::ElectionResult { id } }),
            ),
            res matches Err(e) ==> e == RingError::ChannelClosed && final(self).log() == old(self).log() && final(self).coord_id == old(self).coord_id,
    {
        if self.coord_id == id {
            return self.send_sim(SimMsg::ElectionResult { id });
        }
        match self.sim_force_send(Msg::ElectionResult { id }) {
            Ok(()) => {
                self.coord_id = id;
                Ok(())
            },
            Err(e) => Err(e),
        }
    }
}

/// A log stays a prefix of itself extended by one entry.
proof fn lemma_prefix_push(a: Seq<Outbound>, b: Seq<Outbound>, x: Outbound)
    requires
        a.is_prefix_of(b),
    ensures
        a.is_prefix_of(b.push(x)),
{
    assert(a =~= b.push(x).subrange(0, a.len() as int));
}

/// Being a prefix of a log carries over to any extension of that log.
proof fn lemma_prefix_trans(a: Seq<Outbound>, b: Seq<Outbound>, c: Seq<Outbound>)
    requires
        a.is_prefix_of(b),
        b.is_prefix_of(c),
    ensures
        a.is_prefix_of(c),
{
    assert(a =~= c.subrange(0, a.len() as int));
}

/// What dispatching one message guarantees: the fixed parts survive, the
/// log only grows, the continue flag is false exactly for the shutdown
/// signal, and every message kind other than a ballot leaves exactly the
/// documented trace and state change. A ballot may start a probe, during
/// whose waits interleaved traffic is dispatched too, so for ballots only
/// the voting guarantees of `vote_post` are stated.
pub open spec fn handle_post(
    pre: RingMember,
    post: RingMember,
    msg: Msg,
    res: Result<bool, RingError>,
) -> bool {
    &&& post.wf()
    &&& same_fabric(pre, post)
    &&& pre.log().is_prefix_of(post.log())
    &&& (res matches Ok(b) ==> b == !(msg is SimEnd))
    &&& (msg is Pong ==> res == Ok::<bool, RingError>(true) && post == pre)
    &&& (msg matches Msg::Ping { s_id } ==> (!pre.sim_active ==> res == Ok::<bool, RingError>(true)
        && post == pre) && (pre.sim_active ==> only_logged(pre, post) && (res is Ok ==> post.log()
        == pre.log().push((Outbound::Peer { to: s_id, msg: Msg::Pong }))) && (s_id >= pre.n()
        || s_id == pre.id ==> res == Err::<bool, RingError>(RingError::UnknownMember)) && (s_id
        < pre.n() && s_id != pre.id ==> (res matches Err(e) ==> e == RingError::ChannelClosed))))
    &&& (msg matches Msg::SimToggle { id } ==> post.coord_id == pre.coord_id && (id != pre.id
        ==> post.sim_active == pre.sim_active && (res is Ok ==> post.log() == pre.log().push(
        (Outbound::Peer { to: pre.next_id, msg: Msg::SimToggle { id } }),
    ))) && (id == pre.id ==> post.sim_active == !pre.sim_active && (res is Ok ==> post.log()
        == pre.log().push(
        (Outbound::Sim { msg: SimMsg::ConfirmToggle { id, active: !pre.sim_active } }),
    ))))
    &&& (msg matches Msg::ElectionResult { id } ==> post.sim_active == pre.sim_active && (
    pre.coord_id == id ==> post.coord_id == pre.coord_id && (res is Ok ==> post.log()
        == pre.log().push((Outbound::Sim { msg: SimMsg::ElectionResult { id } })))) && (pre.coord_id
        != id && res is Ok ==> post.coord_id == id && post.log() == pre.log().push(
        (Outbound::Peer { to: pre.next_id, msg: Msg::ElectionResult { id } }),
    )))
    &&& (msg matches Msg::Election { body } ==> vote_post(pre, post, body, strip_continue(res)))
    &&& (msg is SimEnd ==> post.sim_active == pre.sim_active && post.coord_id == pre.coord_id && (
    res is Ok ==> post.log() == pre.log().push(
        (Outbound::Peer { to: pre.next_id, msg: Msg::SimEnd }),
    )))
}

/// The continue flag, dropped from a dispatch result.
pub open spec fn strip_continue(res: Result<bool, RingError>) -> Result<(), RingError> {
    match res {
        Ok(_) => Ok(()),
        Err(e) => Err(e),
    }
}

/// What casting a vote guarantees. A ballot of the wrong size is refused
/// untouched. An inactive member relays a still-empty ballot unmarked to
/// some responsive successor. A member whose mark is absent adds it and
/// either forwards the marked ballot to a responsive successor or — when
/// the whole ring stays silent — announces the winner of the marks
/// gathered so far along the fixed successor chain. A member that finds
/// its own mark present closes the lap and announces the winner, the
/// lowest id marked, sending exactly that one message.
pub open spec fn vote_post(
    pre: RingMember,
    post: RingMember,
    body: Vec<bool>,
    res: Result<(), RingError>,
) -> bool {
    &&& post.wf()
    &&& same_fabric(pre, post)
    &&& pre.log().is_prefix_of(post.log())
    &&& (body@.len() != pre.n() ==> res == Err::<(), RingError>(RingError::MalformedBallot)
        && post == pre)
    &&& (!pre.sim_active && ballot_empty(body@) && body@.len() == pre.n() && res is Ok
        ==> post.log().len() > pre.log().len() && (post.log().last() matches Outbound::Peer {
        to,
        msg,
    } && to < pre.n() && to != pre.id && (msg matches Msg::Election { body: fwd } && fwd@
        == body@)))
    &&& ((pre.sim_active || !ballot_empty(body@)) && body@.len() == pre.n() && !body@[pre.id as int]
        && res is Ok ==> post.log().len() > pre.log().len() && (post.log().last()
        matches Outbound::Peer { to, msg } && ((to < pre.n() && to != pre.id && (msg
        matches Msg::Election { body: fwd } && fwd@ == body@.update(pre.id as int, true))) || (to
        == pre.next_id && (msg matches Msg::ElectionResult { id: w } && is_lowest_marked(
        body@.update(pre.id as int, true),
        w as int,
    ))))))
    &&& ((pre.sim_active || !ballot_empty(body@)) && body@.len() == pre.n()
        && body@[pre.id as int] ==> only_logged(pre, post) && (res is Ok ==> exists|w: usize|
        is_lowest_marked(body@, w as int) && post.log() == pre.log().push(
            (Outbound::Peer { to: pre.next_id, msg: Msg::ElectionResult { id: w } }),
        )))
    &&& ((pre.sim_active || !ballot_empty(body@)) && body@.len() == pre.n() ==> (res matches Err(e)
        ==> e == RingError::ChannelClosed))
}

/// Every member ring-wise nearer to `id` than `bound` hops has been pinged
/// by `id` somewhere in the log region from `base` on.
pub open spec fn pinged_below(
    log: Seq<Outbound>,
    base: int,
    n: int,
    id: usize,
    bound: int,
) -> bool {
    forall|q: int|
        0 <= q < n && 0 < #[trigger] rdist(n, id as int, q) < bound ==> exists|j: int|
            base <= j < log.len() && log[j] == (Outbound::Peer {
                to: q as usize,
                msg: Msg::Ping { s_id: id },
            })
}

/// Pings already in the log survive any extension of it.
proof fn lemma_pings_survive(
    pre: Seq<Outbound>,
    post: Seq<Outbound>,
    base: int,
    n: int,
    id: usize,
    bound: int,
)
    requires
        0 <= base,
        pre.is_prefix_of(post),
        pinged_below(pre, base, n, id, bound),
    ensures
        pinged_below(post, base, n, id, bound),
{
    broadcast use vstd::seq::axiom_seq_subrange_index;

    assert(post.subrange(0, pre.len() as int) == pre);
    assert forall|q: int|
        0 <= q < n && 0 < #[trigger] rdist(n, id as int, q) < bound implies exists|j: int|
            base <= j < post.len() && post[j] == (Outbound::Peer {
                to: q as usize,
                msg: Msg::Ping { s_id: id },
            }) by {
        assert(exists|j: int|
            base <= j < pre.len() && pre[j] == (Outbound::Peer {
                to: q as usize,
                msg: Msg::Ping { s_id: id },
            }));
        let j: int = choose|j: int|
            base <= j < pre.len() && pre[j] == (Outbound::Peer {
                to: q as usize,
                msg: Msg::Ping { s_id: id },
            });
        assert(base <= j < pre.len());
        assert(post.subrange(0, pre.len() as int)[j] == post[j]);
        assert(post[j] == pre[j]);
    }
}

/// What a probe-routed send guarantees: the fixed parts survive, the log
/// only grows, and on success the payload went out last, to a single
/// other member that this very call had pinged before — after pinging, in
/// ring order, every member nearer than it.
pub open spec fn probe_post(
    pre: RingMember,
    post: RingMember,
    msg: Msg,
    res: Result<(), RingError>,
) -> bool {
    &&& post.wf()
    &&& same_fabric(pre, post)
    &&& pre.log().is_prefix_of(post.log())
    &&& (res is Ok ==> post.log().len() > pre.log().len() && (post.log().last()
        matches Outbound::Peer { to, msg: delivered } && to < pre.n() && to != pre.id && delivered
        == msg && (exists|j: int|
        pre.log().len() <= j < post.log().len() - 1 && post.log()[j] == (Outbound::Peer {
            to,
            msg: Msg::Ping { s_id: pre.id },
        })) && pinged_below(
        post.log(),
        pre.log().len() as int,
        pre.n(),
        pre.id,
        rdist(pre.n(), pre.id as int, to as int),
    )))
}

impl RingMember {
    /// Dispatches one received message, bounding nested probes by `depth`.
    fn handle_msg_at(&mut self, msg: Msg, depth: u64) -> (res: Result<bool, RingError>)
        requires
            old(self).wf(),
        ensures
            handle_post(*old(self), *final(self), msg, res),
        decreases depth, 2int,
    {
        match msg {
            Msg::Ping { s_id } => {
                if !self.sim_active {
                    Ok(true)
                } else {
                    match self.send_to(s_id, Msg::Pong) {
                        Ok(()) => {
                            proof {
                                lemma_prefix_push(
                                    old(self).log(),
                                    old(self).log(),
                                    Outbound::Peer { to: s_id, msg: Msg::Pong },
                                );
                            }
                            Ok(true)
                        },
                        Err(e) => Err(e),
                    }
                }
            },
            Msg::Pong => Ok(true),
            Msg::Election { body } => {
                match self.vote_at(body, depth) {
                    Ok(()) => Ok(true),
                    Err(e) => Err(e),
                }
            },
            Msg::ElectionResult { id } => {
                match self.update_coord(id) {
                    Ok(()) => {
                        proof {
                            lemma_prefix_push(
                                old(self).log(),
                                old(self).log(),
                                self.log().last(),
                            );
                        }
                        Ok(true)
                    },
                    Err(e) => Err(e),
                }
            },
            Msg::SimToggle { id } => {
                match self.toggle(id) {
                    Ok(()) => {
                        proof {
                            lemma_prefix_push(
                                old(self).log(),
                                old(self).log(),
                                self.log().last(),
                            );
                        }
                        Ok(true)
                    },
                    Err(e) => Err(e),
                }
            },
            Msg::SimEnd => {
                match self.sim_force_send(Msg::SimEnd) {
                    Ok(()) => {
                        proof {
                            lemma_prefix_push(
                                old(self).log(),
                                old(self).log(),
                                (Outbound::Peer { to: old(self).next_id, msg: Msg::SimEnd }),
                            );
                        }
                        Ok(false)
                    },
                    Err(e) => Err(e),
                }
            },
        }
    }

    /// Casts this member's vote on a ballot, bounding nested probes by
    /// `depth`.
    fn vote_at(&mut self, body: Vec<bool>, depth: u64) -> (res: Result<(), RingError>)
        requires
            old(self).wf(),
        ensures
            vote_post(*old(self), *final(self), body, res),
        decreases depth, 1int,
    {
        if body.len() != self.ss.len() {
            return Err(RingError::MalformedBallot);
        }
        if !self.sim_active && ballot_is_empty(&body) {
            // An inactive member does not participate, but must not break
            // circulation: relay the untouched ballot onward.
            return self.send_at(Msg::Election { body }, depth);
        }
        let my: usize = self.id;
        if !body[my] {
            let mut marked = clone_ballot(&body);
            marked.set(my, true);
            let kept = clone_ballot(&marked);
            let forwarded = self.send_at(Msg::Election { body: marked }, depth);
            if forwarded.is_ok() {
                return Ok(());
            }
            // Nobody responsive took the marked ballot: close the election
            // here, with the marks gathered so far.
            let ghost mid = *self;
            match winner(&kept) {
                Some(w) => {
                    match self.sim_force_send(Msg::ElectionResult { id: w }) {
                        Ok(()) => {
                            proof {
                                lemma_prefix_push(
                                    old(self).log(),
                                    mid.log(),
                                    (Outbound::Peer {
                                        to: mid.next_id,
                                        msg: Msg::ElectionResult { id: w },
                                    }),
                                );
                            }
                            Ok(())
                        },
                        Err(e) => Err(e),
                    }
                },
                None => {
                    proof {
                        assert(kept@[my as int]);
                        assert(false);
                    }
                    Err(RingError::MalformedBallot)
                },
            }
        } else {
            // The member's own mark is already present: the ballot has
            // completed its lap, so announce the lowest id marked.
            match winner(&body) {
                Some(w) => {
                    match self.sim_force_send(Msg::ElectionResult { id: w }) {
                        Ok(()) => {
                            proof {
                                lemma_prefix_push(
                                    old(self).log(),
                                    old(self).log(),
                                    (Outbound::Peer {
                                        to: old(self).next_id,
                                        msg: Msg::ElectionResult { id: w },
                                    }),
                                );
                            }
                            Ok(())
                        },
                        Err(e) => Err(e),
                    }
                },
                None => {
                    proof {
                        assert(body@[my as int]);
                        assert(false);
                    }
                    Err(RingError::MalformedBallot)
                },
            }
        }
    }

    /// Sends a payload to the nearest responsive member ring-wise: pings
    /// each candidate in ring order starting just past this member, waits
    /// briefly for a pong, dispatches interleaved protocol traffic that
    /// arrives on the own mailbox while waiting, and hands the payload to
    /// the first candidate that answers. Fails with `NoResponse` when the
    /// whole ring stays silent; `depth` bounds the probes that interleaved
    /// ballots may nest inside this one.
    fn send_at(&mut self, msg: Msg, depth: u64) -> (res: Result<(), RingError>)
        requires
            old(self).wf(),
        ensures
            probe_post(*old(self), *final(self), msg, res),
        decreases depth, 0int,
    {
        let ghost init = *self;
        let ghost base: int = init.log().len() as int;
        let n: usize = self.ss.len();
        let mut off: usize = 1;
        proof {
            assert(pinged_below(self.log(), base, n as int, init.id, 1));
        }
        while off < n
            invariant
                init == *old(self),
                self.wf(),
                same_fabric(init, *self),
                init.log().is_prefix_of(self.log()),
                init.wf(),
                n == self.n(),
                1 <= off,
                base == init.log().len(),
                pinged_below(self.log(), base, n as int, init.id, off as int),
            decreases n - off,
        {
            let my: usize = self.id;
            let c: usize = if off < n - my {
                my + off
            } else {
                off - (n - my)
            };
            proof {
                assert(rdist(n as int, init.id as int, c as int) == off);
            }
            let ghost pre_ping = *self;
            match self.send_to(c, Msg::Ping { s_id: my }) {
                Ok(()) => {
                    proof {
                        lemma_prefix_push(init.log(), pre_ping.log(), self.log().last());
                    }
                },
                Err(e) => {
                    return Err(e);
                },
            }
            let ghost ping_idx: int = pre_ping.log().len() as int;
            proof {
                // The candidate just pinged completes the coverage one hop
                // further out: hop offsets name members uniquely.
                assert forall|q: int|
                    0 <= q < n && 0 < #[trigger] rdist(n as int, init.id as int, q) < off + 1
                        implies exists|j: int|
                    base <= j < self.log().len() && self.log()[j] == (Outbound::Peer {
                        to: q as usize,
                        msg: Msg::Ping { s_id: init.id },
                    }) by {
                    if rdist(n as int, init.id as int, q) < off {
                        lemma_pings_survive(
                            pre_ping.log(),
                            self.log(),
                            base,
                            n as int,
                            init.id,
                            off as int,
                        );
                    } else {
                        assert(q == c as int);
                        assert(self.log()[ping_idx] == (Outbound::Peer {
                            to: c,
                            msg: Msg::Ping { s_id: init.id },
                        }));
                    }
                }
                assert(pinged_below(self.log(), base, n as int, init.id, off as int + 1));
            }
            let mut waits: u64 = MAX_INTERLEAVED;
            loop
                invariant
                    init == *old(self),
                    self.wf(),
                    same_fabric(init, *self),
                    init.log().is_prefix_of(self.log()),
                    init.wf(),
                    n == self.n(),
                    c < n,
                    c != init.id,
                    off < n,
                    base == init.log().len(),
                    rdist(n as int, init.id as int, c as int) == off,
                    init.log().len() <= ping_idx < self.log().len(),
                    self.log()[ping_idx] == (Outbound::Peer {
                        to: c,
                        msg: Msg::Ping { s_id: init.id },
                    }),
                    pinged_below(self.log(), base, n as int, init.id, off as int + 1),
                decreases waits,
            {
                match chan_recv_timeout(&self.r, PROBE_TIMEOUT_MS) {
                    None => {
                        // Silence: write the candidate off and move on.
                        break;
                    },
                    Some(Msg::Pong) => {
                        // The candidate is alive: hand it the payload.
                        let ghost pre_send = *self;
                        match self.send_to(c, msg) {
                            Ok(()) => {
                                proof {
                                    lemma_prefix_push(
                                        init.log(),
                                        pre_send.log(),
                                        self.log().last(),
                                    );
                                    assert(self.log()[ping_idx] == (Outbound::Peer {
                                        to: c,
                                        msg: Msg::Ping { s_id: init.id },
                                    }));
                                    lemma_pings_survive(
                                        pre_send.log(),
                                        self.log(),
                                        base,
                                        n as int,
                                        init.id,
                                        off as int + 1,
                                    );
                                }
                                return Ok(());
                            },
                            Err(e) => {
                                return Err(e);
                            },
                        }
                    },
                    Some(m) => {
                        // Interleaved protocol traffic: dispatch it through
                        // the normal handler, then resume this same wait.
                        if depth == 0 || waits == 0 {
                            return Err(RingError::DepthExceeded);
                        }
                        let ghost pre_handle = *self;
                        match self.handle_msg_at(m, depth - 1) {
                            Ok(_) => {
                                proof {
                                    lemma_prefix_trans(init.log(), pre_handle.log(), self.log());
                                    assert(self.log()[ping_idx] == pre_handle.log()[ping_idx]);
                                    lemma_pings_survive(
                                        pre_handle.log(),
                                        self.log(),
                                        base,
                                        n as int,
                                        init.id,
                                        off as int + 1,
                                    );
                                }
                            },
                            Err(e) => {
                                proof {
                                    lemma_prefix_trans(init.log(), pre_handle.log(), self.log());
                                }
                                return Err(e);
                            },
                        }
                        waits = waits - 1;
                    },
                }
            }
            off = off + 1;
        }
        Err(RingError::NoResponse)
    }

    /// Dispatches one received message through the protocol logic. The
    /// returned flag says whether the run loop shall go on; it is false
    /// exactly for the shutdown signal.
    pub fn handle_msg(&mut self, msg: Msg) -> (res: Result<bool, RingError>)
        requires
            old(self).wf(),
        ensures
            handle_post(*old(self), *final(self), msg, res),
    {
        self.handle_msg_at(msg, MAX_REENTRY)
    }

    /// Casts this member's vote on a ballot.
    pub fn vote(&mut self, body: Vec<bool>) -> (res: Result<(), RingError>)
        requires
            old(self).wf(),
        ensures
            vote_post(*old(self), *final(self), body, res),
    {
        self.vote_at(body, MAX_REENTRY)
    }

    /// Sends a message to the first responsive member ring-wise.
    pub fn send(&mut self, msg: Msg) -> (res: Result<(), RingError>)
        requires
            old(self).wf(),
        ensures
            probe_post(*old(self), *final(self), msg, res),
    {
        self.send_at(msg, MAX_REENTRY)
    }

    /// One turn of the member's run loop: blocks for the next message and
    /// dispatches it. The caller loops until this returns false or fails;
    /// false comes exactly after the shutdown signal has been relayed once
    /// to the fixed successor, whatever this member's activity flag.
    pub fn run_step(&mut self) -> (res: Result<bool, RingError>)
        requires
            old(self).wf(),
        ensures
            final(self).wf(),
            same_fabric(*old(self), *final(self)),
            old(self).log().is_prefix_of(final(self).log()),
            exists|m: Msg| handle_post(*old(self), *final(self), m, res),
            res matches Ok(b) && !b ==> final(self).log().len() > 0 && final(self).log().last()
                == (Outbound::Peer { to: old(self).next_id, msg: Msg::SimEnd }),
    {
        let m = match chan_recv(&self.r) {
            Ok(m) => m,
            Err(e) => {
                // The mailbox is gone before anything arrived: the state is
                // untouched, as if a shutdown relay had failed outright.
                proof {
                    assert(self.log() =~= self.log().subrange(0, self.log().len() as int));
                    assert(handle_post(*self, *self, Msg::SimEnd, Err::<bool, RingError>(e)));
                }
                return Err(e);
            },
        };
        self.handle_msg(m)
    }
}

} // verus!
