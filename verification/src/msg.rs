//! Protocol messages and ballot operations.

use vstd::prelude::*;

verus! {

/// A message travelling between ring members.
#[derive(Debug, PartialEq)]
pub enum Msg {
    /// Liveness probe request, carrying the sender's id.
    Ping { s_id: usize },
    /// Liveness probe reply.
    Pong,
    /// An election ballot: one mark per member id.
    Election { body: Vec<bool> },
    /// The announced winner of an election.
    ElectionResult { id: usize },
    /// Flip the activity flag of the member with this id.
    SimToggle { id: usize },
    /// Ring-wide shutdown signal.
    SimEnd,
}

/// A message from a ring member back to the scenario driver.
#[derive(Debug, PartialEq)]
pub enum SimMsg {
    /// A toggle was applied; reports the member's new activity flag.
    ConfirmToggle { id: usize, active: bool },
    /// The new coordinator id has stabilized ring-wide.
    ElectionResult { id: usize },
}

/// No member has marked itself in the ballot.
pub open spec fn ballot_empty(b: Seq<bool>) -> bool {
    forall|i: int| 0 <= i < b.len() ==> !b[i]
}

/// `w` is the lowest id marked in the ballot.
pub open spec fn is_lowest_marked(b: Seq<bool>, w: int) -> bool {
    &&& 0 <= w < b.len()
    &&& b[w]
    &&& forall|i: int| 0 <= i < w ==> !b[i]
}

/// An all-false ballot with one slot per member.
pub fn empty_ballot(n: usize) -> (b: Vec<bool>)
    ensures
        b@ == Seq::new(n as nat, |i: int| false),
{
    let mut b: Vec<bool> = Vec::new();
    let mut i: usize = 0;
    while i < n
        invariant
            i <= n,
            b@ == Seq::new(i as nat, |j: int| false),
        decreases n - i,
    {
        b.push(false);
        proof {
            assert(b@ =~= Seq::new((i + 1) as nat, |j: int| false));
        }
        i = i + 1;
    }
    b
}

impl Msg {
    /// A freshly started election: a ballot with no marks, one slot per member.
    pub fn election(n: usize) -> (m: Msg)
        ensures
            m matches Msg::Election { body } && body@ == Seq::new(n as nat, |i: int| false),
    {
        Msg::Election { body: empty_ballot(n) }
    }
}

/// A copy of a ballot.
pub fn clone_ballot(b: &Vec<bool>) -> (r: Vec<bool>)
    ensures
        r@ == b@,
{
    let mut r: Vec<bool> = Vec::new();
    proof {
        assert(r@ =~= b@.subrange(0, 0));
    }
    let mut i: usize = 0;
    while i < b.len()
        invariant
            i <= b@.len(),
            r@ == b@.subrange(0, i as int),
        decreases b@.len() - i,
    {
        r.push(b[i]);
        proof {
            assert(r@ =~= b@.subrange(0, (i + 1) as int));
        }
        i = i + 1;
    }
    proof {
        assert(r@ =~= b@);
    }
    r
}

/// Whether no member has marked itself in the ballot.
pub fn ballot_is_empty(b: &Vec<bool>) -> (r: bool)
    ensures
        r == ballot_empty(b@),
{
    let mut i: usize = 0;
    while i < b.len()
        invariant
            i <= b@.len(),
            forall|j: int| 0 <= j < i ==> !b@[j],
        decreases b@.len() - i,
    {
        if b[i] {
            return false;
        }
        i = i + 1;
    }
    true
}

/// The lowest id marked in the ballot, if any member is marked.
pub fn winner(b: &Vec<bool>) -> (r: Option<usize>)
    ensures
        r matches Some(w) ==> is_lowest_marked(b@, w as int),
        r is None ==> ballot_empty(b@),
{
    let mut i: usize = 0;
    while i < b.len()
        invariant
            i <= b@.len(),
            forall|j: int| 0 <= j < i ==> !b@[j],
        decreases b@.len() - i,
    {
        if b[i] {
            return Some(i);
        }
        i = i + 1;
    }
    None
}

} // verus!
