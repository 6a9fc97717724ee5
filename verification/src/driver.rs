//! The scenario: a timed sequence of toggles, and the driver state machine
//! that feeds it into the ring.
//!
//! The driver injects each toggle at member 0, waits for its confirmation,
//! triggers an election exactly when the member just confirmed inactive is
//! the driver's known coordinator, adopts the reported winner, and shuts
//! the ring down once the scenario is exhausted. Sleeping and the channel
//! traffic belong to the surrounding loop; the decisions are all here.

use vstd::prelude::*;

use crate::msg::SimMsg;

verus! {

/// A scenario that cannot be used.
#[derive(Clone, Copy, Debug, PartialEq, Eq, Structural)]
pub enum ScenarioError {
    /// The number of toggles differs from the number of waits.
    LengthMismatch,
    /// A byte that is neither an ASCII digit nor whitespace.
    InvalidByte,
    /// A value of more than nine digits.
    ValueTooLarge,
}

/// A sequence of alternating waits and toggles for the driver: wait
/// `waits[i]` seconds, then toggle member `toggles[i]`, for each `i` in
/// order. Both sequences have the same length.
#[derive(Debug)]
pub struct SimSeq {
    /// Ring member ids to be toggled inactive or active again.
    pub toggles: Vec<usize>,
    /// Seconds to wait before each toggle.
    pub waits: Vec<u64>,
}

/// The climbing toggles 0, 1, ..., k-1 that open the built-in scenario.
pub open spec fn ramp(k: int) -> Seq<usize> {
    Seq::new(k as nat, |j: int| j as usize)
}

/// The closing toggle blocks of the built-in scenario: i, i+1, i+1 for
/// each i from `hi` down to `lo`.
pub open spec fn descent_blocks(hi: int, lo: int) -> Seq<usize>
    decreases hi - lo + 1,
{
    if hi < lo || lo < 0 {
        Seq::empty()
    } else {
        seq![hi as usize, (hi + 1) as usize, (hi + 1) as usize] + descent_blocks(hi - 1, lo)
    }
}

/// Length and bound of the closing blocks: three entries per block, none
/// above `hi + 1`.
proof fn lemma_descent_blocks(hi: int, lo: int)
    requires
        lo >= 0,
    ensures
        descent_blocks(hi, lo).len() == if hi < lo {
            0int
        } else {
            3 * (hi - lo + 1)
        },
        forall|k: int|
            0 <= k < descent_blocks(hi, lo).len() ==> #[trigger] descent_blocks(hi, lo)[k] <= hi
                + 1,
    decreases hi - lo + 1,
{
    if hi >= lo {
        lemma_descent_blocks(hi - 1, lo);
    }
}

/// Shrinking the lower bound by one appends one block at the end.
proof fn lemma_descent_snoc(hi: int, lo: int)
    requires
        0 <= lo <= hi,
    ensures
        descent_blocks(hi, lo) == descent_blocks(hi, lo + 1) + seq![
            lo as usize,
            (lo + 1) as usize,
            (lo + 1) as usize,
        ],
    decreases hi - lo,
{
    if hi == lo {
        assert(descent_blocks(hi, lo + 1) =~= Seq::empty());
        assert(descent_blocks(hi - 1, lo) =~= Seq::empty());
        assert(descent_blocks(hi, lo) =~= descent_blocks(hi, lo + 1) + seq![
            lo as usize,
            (lo + 1) as usize,
            (lo + 1) as usize,
        ]);
    } else {
        lemma_descent_snoc(hi - 1, lo);
        assert(descent_blocks(hi, lo) =~= descent_blocks(hi, lo + 1) + seq![
            lo as usize,
            (lo + 1) as usize,
            (lo + 1) as usize,
        ]);
    }
}

impl SimSeq {
    /// As many toggles as waits.
    pub open spec fn wf(self) -> bool {
        self.toggles@.len() == self.waits@.len()
    }

    /// The number of scenario steps.
    pub fn len(&self) -> (l: usize)
        ensures
            l == self.toggles@.len(),
    {
        self.toggles.len()
    }

    /// Accepts exactly the pairs of sequences of equal length.
    pub fn new(toggles: Vec<usize>, waits: Vec<u64>) -> (r: Result<SimSeq, ScenarioError>)
        ensures
            r is Ok <==> toggles@.len() == waits@.len(),
            r matches Ok(s) ==> s.wf() && s.toggles == toggles && s.waits == waits,
            r matches Err(e) ==> e == ScenarioError::LengthMismatch,
    {
        if toggles.len() != waits.len() {
            return Err(ScenarioError::LengthMismatch);
        }
        Ok(SimSeq { toggles, waits })
    }

    /// The built-in scenario for a ring of `n` members: drive the
    /// coordinator down through 0..n-2, then — climbing back — toggle each
    /// predecessor inactive and its successor back and forth, one second
    /// between steps. For three members the toggle order is
    /// 0 1 1 2 2 0 1 1.
    pub fn default_for(n: usize) -> (s: SimSeq)
        requires
            1 <= n,
        ensures
            s.wf(),
            s.toggles@ == ramp(n - 1) + descent_blocks(n - 2, 0),
            s.toggles@.len() == 4 * (n - 1),
            s.waits@ == Seq::new((4 * (n - 1)) as nat, |i: int| 1u64),
            forall|k: int| 0 <= k < s.toggles@.len() ==> #[trigger] s.toggles@[k] < n,
    {
        let mut toggles: Vec<usize> = Vec::new();
        let mut i: usize = 0;
        while i < n - 1
            invariant
                n >= 1,
                i <= n - 1,
                toggles@ == ramp(i as int),
            decreases n - 1 - i,
        {
            toggles.push(i);
            proof {
                assert(toggles@ =~= ramp(i + 1));
            }
            i = i + 1;
        }
        let mut j: usize = 0;
        while j < n - 1
            invariant
                n >= 1,
                j <= n - 1,
                toggles@ == ramp(n - 1) + descent_blocks(n - 2, n - 1 - j),
            decreases n - 1 - j,
        {
            let i: usize = n - 2 - j;
            toggles.push(i);
            toggles.push(i + 1);
            toggles.push(i + 1);
            proof {
                lemma_descent_snoc(n - 2, i as int);
                assert(toggles@ =~= ramp(n - 1) + descent_blocks(n - 2, n - 2 - j));
            }
            j = j + 1;
        }
        proof {
            lemma_descent_blocks(n - 2, 0);
            assert forall|k: int| 0 <= k < toggles@.len() implies #[trigger] toggles@[k] < n by {
                if k >= n - 1 {
                    assert(descent_blocks(n - 2, 0)[k - (n - 1)] <= n - 1);
                }
            }
        }
        let mut waits: Vec<u64> = Vec::new();
        let mut w: usize = 0;
        let total: usize = toggles.len();
        while w < total
            invariant
                w <= total,
                waits@ == Seq::new(w as nat, |i: int| 1u64),
            decreases total - w,
        {
            waits.push(1);
            proof {
                assert(waits@ =~= Seq::new((w + 1) as nat, |i: int| 1u64));
            }
            w = w + 1;
        }
        SimSeq { toggles, waits }
    }
}

impl Default for SimSeq {
    /// The built-in scenario for a ring of `RING_SIZE` members.
    fn default() -> (s: SimSeq)
        ensures
            s.wf(),
            s.toggles@ == ramp(crate::RING_SIZE - 1) + descent_blocks(crate::RING_SIZE - 2, 0),
            s.waits@ == Seq::new((4 * (crate::RING_SIZE - 1)) as nat, |i: int| 1u64),
    {
        SimSeq::default_for(crate::RING_SIZE)
    }
}

/// Where the driver stands between messages.
#[derive(Clone, Copy, Debug, PartialEq, Eq, Structural)]
pub enum DriverPhase {
    /// Ready to issue the next scenario step, or to finish.
    Idle,
    /// A toggle is out; its confirmation is awaited.
    AwaitConfirm,
    /// An election is out; its result is awaited.
    AwaitResult,
    /// The scenario is exhausted and the shutdown signal issued.
    Done,
}

/// What the loop around the driver shall do next.
#[derive(Debug, PartialEq, Eq, Structural)]
pub enum DriverCmd {
    /// Sleep the given seconds, then inject the toggle at member 0 and
    /// wait for reports.
    SleepThenToggle { secs: u64, target: usize },
    /// Inject a fresh election — an empty ballot — at member 0 and wait
    /// for reports.
    StartElection,
    /// Inject the shutdown signal at member 0; the scenario is over.
    Finish,
    /// Nothing to inject.
    Proceed,
}

/// The scenario driver's state.
pub struct Driver {
    /// The scenario being fed into the ring.
    pub seq: SimSeq,
    /// The current scenario step.
    pub pos: usize,
    /// The driver's own belief of the current leader.
    pub coord_id: usize,
    /// Where the driver stands.
    pub phase: DriverPhase,
}

impl Driver {
    /// The position stays inside the scenario, and strictly so while a
    /// report is awaited.
    pub open spec fn wf(self) -> bool {
        &&& self.seq.wf()
        &&& self.pos <= self.seq.toggles@.len()
        &&& (self.phase is AwaitConfirm || self.phase is AwaitResult ==> self.pos
            < self.seq.toggles@.len())
    }

    /// A driver at the start of its scenario.
    pub fn new(seq: SimSeq, coord_id: usize) -> (d: Driver)
        requires
            seq.wf(),
        ensures
            d.wf(),
            d.seq == seq,
            d.pos == 0,
            d.coord_id == coord_id,
            d.phase is Idle,
    {
        Driver { seq, pos: 0, coord_id, phase: DriverPhase::Idle }
    }

    /// The next thing to inject when idle: the current scenario step, or
    /// the shutdown once the scenario is exhausted.
    pub fn next_cmd(&mut self) -> (c: DriverCmd)
        requires
            old(self).wf(),
            old(self).phase is Idle,
        ensures
            final(self).wf(),
            final(self).seq == old(self).seq,
            final(self).pos == old(self).pos,
            final(self).coord_id == old(self).coord_id,
            old(self).pos < old(self).seq.toggles@.len() ==> c == (DriverCmd::SleepThenToggle {
                secs: old(self).seq.waits@[old(self).pos as int],
                target: old(self).seq.toggles@[old(self).pos as int],
            }) && final(self).phase is AwaitConfirm,
            old(self).pos >= old(self).seq.toggles@.len() ==> c == DriverCmd::Finish && final(self).phase is Done,
    {
        if self.pos < self.seq.toggles.len() {
            self.phase = DriverPhase::AwaitConfirm;
            let secs: u64 = self.seq.waits[self.pos];
            let target: usize = self.seq.toggles[self.pos];
            DriverCmd::SleepThenToggle { secs, target }
        } else {
            self.phase = DriverPhase::Done;
            DriverCmd::Finish
        }
    }

    /// Feeds a report from the ring back into the driver. An election is
    /// started exactly when the member just confirmed inactive is the
    /// driver's known coordinator; a reported winner becomes the known
    /// coordinator; anything unexpected only advances the scenario.
    pub fn on_sim_msg(&mut self, m: SimMsg) -> (c: DriverCmd)
        requires
            old(self).wf(),
            old(self).phase is AwaitConfirm || old(self).phase is AwaitResult,
        ensures
            final(self).wf(),
            final(self).seq == old(self).seq,
            old(self).phase is AwaitConfirm ==> (m matches SimMsg::ConfirmToggle { id, active }
                ==> (id == old(self).coord_id && !active ==> c == DriverCmd::StartElection && final(self).phase is AwaitResult && final(self).pos == old(self).pos && final(self).coord_id
                == old(self).coord_id) && (!(id == old(self).coord_id && !active) ==> c
                == DriverCmd::Proceed && final(self).phase is Idle && final(self).pos == old(self).pos + 1 && final(self).coord_id == old(self).coord_id)),
            old(self).phase is AwaitConfirm && !(m is ConfirmToggle) ==> c == DriverCmd::Proceed
                && final(self).phase is Idle && final(self).pos == old(self).pos + 1 && final(self).coord_id == old(self).coord_id,
            old(self).phase is AwaitResult ==> (m matches SimMsg::ElectionResult { id } ==> c
                == DriverCmd::Proceed && final(self).phase is Idle && final(self).pos == old(self).pos + 1 && final(self).coord_id == id),
            old(self).phase is AwaitResult && !(m is ElectionResult) ==> c == DriverCmd::Proceed
                && final(self).phase is Idle && final(self).pos == old(self).pos + 1 && final(self).coord_id == old(self).coord_id,
    {
        // Fixes the scenario length as a machine word: the step below can
        // then not overflow.
        let _scenario_len: usize = self.seq.toggles.len();
        match self.phase {
            DriverPhase::AwaitConfirm => {
                match m {
                    SimMsg::ConfirmToggle { id, active } => {
                        if id == self.coord_id && !active {
                            // The known coordinator just went down: elect.
                            self.phase = DriverPhase::AwaitResult;
                            return DriverCmd::StartElection;
                        }
                        self.phase = DriverPhase::Idle;
                        self.pos = self.pos + 1;
                        DriverCmd::Proceed
                    },
                    _ => {
                        self.phase = DriverPhase::Idle;
                        self.pos = self.pos + 1;
                        DriverCmd::Proceed
                    },
                }
            },
            _ => {
                match m {
                    SimMsg::ElectionResult { id } => {
                        self.coord_id = id;
                        self.phase = DriverPhase::Idle;
                        self.pos = self.pos + 1;
                        DriverCmd::Proceed
                    },
                    _ => {
                        self.phase = DriverPhase::Idle;
                        self.pos = self.pos + 1;
                        DriverCmd::Proceed
                    },
                }
            },
        }
    }
}

} // verus!

