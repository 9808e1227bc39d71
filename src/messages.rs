//! The four message shapes exchanged between proposers and acceptors.

use crate::ballot::BallotNum;
use vstd::prelude::*;

verus! {

/// Asks an acceptor to promise the ballot.
#[derive(Clone, Debug)]
pub struct Phase1Request {
    pub ballot: BallotNum,
}

/// An acceptor's state after a Phase1 request: its highest ballot, and what it
/// has accepted so far (an empty value and no ballot when nothing).
#[derive(Clone, Debug)]
pub struct Phase1Reply {
    pub last_ballot: Option<BallotNum>,
    pub v: Vec<u8>,
    pub vbal: Option<BallotNum>,
}

/// Asks an acceptor to accept `v` at `ballot`.
#[derive(Clone, Debug)]
pub struct Phase2Request {
    pub ballot: BallotNum,
    pub v: Vec<u8>,
}

/// Whether the acceptor accepted the Phase2 request.
#[derive(Clone, Debug)]
pub struct Phase2Reply {
    pub ok: bool,
}

/// A copy of an optional ballot, field for field.
pub fn duplicate_opt(o: &Option<BallotNum>) -> (r: Option<BallotNum>)
    ensures
        r == *o,
{
    match o {
        Some(b) => Some(b.duplicate()),
        None => None,
    }
}

impl Phase1Request {
    /// A copy of this request, field for field.
    pub fn duplicate(&self) -> (r: Phase1Request)
        ensures
            r == *self,
    {
        Phase1Request { ballot: self.ballot.duplicate() }
    }
}

impl Phase2Request {
    /// A copy of this request, with the same ballot and value.
    pub fn duplicate(&self) -> (r: Phase2Request)
        ensures
            r.ballot == self.ballot,
            r.v@ == self.v@,
    {
        let v = self.v.clone();
        assert(v@ =~= self.v@);
        Phase2Request { ballot: self.ballot.duplicate(), v }
    }
}

} // verus!
