//! The acceptor: a passive state machine that answers Phase1 and Phase2.

use crate::ballot::{ballot_le, ballot_lt, lemma_opt_order, opt_le, BallotNum};
use crate::messages::{duplicate_opt, Phase1Reply, Phase1Request, Phase2Reply, Phase2Request};
use vstd::prelude::*;

verus! {

/// What an acceptor holds for one decision instance.
pub ghost struct AcceptorView {
    pub last_bal: Option<BallotNum>,
    pub v: Seq<u8>,
    pub vbal: Option<BallotNum>,
}

impl AcceptorView {
    /// A value is accepted exactly when there is an accepted ballot (an empty
    /// value stands for none), and that ballot never exceeds the highest seen.
    pub open spec fn wf(self) -> bool {
        &&& self.vbal is None <==> self.v.len() == 0
        &&& opt_le(self.vbal, self.last_bal)
    }

    /// The state of a new instance.
    pub open spec fn empty() -> AcceptorView {
        AcceptorView { last_bal: None, v: Seq::empty(), vbal: None }
    }
}

/// The state after a Phase1 request at `bal`: `bal` becomes the highest ballot
/// when none was seen yet or it is strictly higher.
pub open spec fn phase1_next(a: AcceptorView, bal: BallotNum) -> AcceptorView {
    if a.last_bal is None || ballot_lt(a.last_bal->0, bal) {
        AcceptorView { last_bal: Some(bal), ..a }
    } else {
        a
    }
}

/// A Phase2 request of `v` at `bal` is accepted iff a ballot was seen, `bal`
/// is at least that ballot, and `v` is a value (an empty one stands for none).
pub open spec fn phase2_accepts(a: AcceptorView, bal: BallotNum, v: Seq<u8>) -> bool {
    a.last_bal is Some && ballot_le(a.last_bal->0, bal) && v.len() > 0
}

/// The state after a Phase2 request: on acceptance, `v` is accepted at `bal`.
pub open spec fn phase2_next(a: AcceptorView, bal: BallotNum, v: Seq<u8>) -> AcceptorView {
    if phase2_accepts(a, bal, v) {
        AcceptorView { last_bal: Some(bal), v, vbal: Some(bal) }
    } else {
        a
    }
}

/// The acceptor state of one decision instance.
#[derive(Debug)]
pub struct Acceptor {
    /// the highest ballot this acceptor has seen
    last_bal: Option<BallotNum>,
    /// the value this acceptor has accepted (empty when none)
    v: Vec<u8>,
    /// the ballot at which `v` was accepted
    vbal: Option<BallotNum>,
}

impl View for Acceptor {
    type V = AcceptorView;

    closed spec fn view(&self) -> AcceptorView {
        AcceptorView { last_bal: self.last_bal, v: self.v@, vbal: self.vbal }
    }
}

impl Acceptor {
    #[verifier::type_invariant]
    closed spec fn inv(self) -> bool {
        self@.wf()
    }

    pub fn new() -> (r: Acceptor)
        ensures
            r@ == AcceptorView::empty(),
    {
        let r = Acceptor { last_bal: None, v: Vec::new(), vbal: None };
        assert(r@.v =~= Seq::<u8>::empty());
        r
    }

    /// Phase1: promise `request.ballot` if it is new or higher, and report the
    /// (possibly updated) highest ballot and what is accepted.
    pub fn handle_phase1(&mut self, request: Phase1Request) -> (r: Phase1Reply)
        ensures
            old(self)@.wf(),
            final(self)@.wf(),
            final(self)@ == phase1_next(old(self)@, request.ballot),
            r.last_ballot == final(self)@.last_bal,
            r.v@ == old(self)@.v,
            r.vbal == old(self)@.vbal,
    {
        proof {
            use_type_invariant(&*self);
            lemma_opt_order(self.vbal, self.last_bal, Some(request.ballot));
        }
        let bal = request.ballot;
        let advance = match &self.last_bal {
            None => true,
            Some(last) => last.less_than(&bal),
        };
        if advance {
            self.last_bal = Some(bal);
        }
        let v = self.v.clone();
        assert(v@ =~= self.v@);
        Phase1Reply { last_ballot: duplicate_opt(&self.last_bal), v, vbal: duplicate_opt(&self.vbal) }
    }

    /// Phase2: accept `request.v` at `request.ballot` iff a ballot was seen,
    /// the request's ballot is at least that ballot, and the value is not empty.
    pub fn handle_phase2(&mut self, request: Phase2Request) -> (r: Phase2Reply)
        ensures
            old(self)@.wf(),
            final(self)@.wf(),
            final(self)@ == phase2_next(old(self)@, request.ballot, request.v@),
            r.ok == phase2_accepts(old(self)@, request.ballot, request.v@),
    {
        proof {
            use_type_invariant(&*self);
            lemma_opt_order(self.last_bal, Some(request.ballot), self.vbal);
        }
        let accepts = match &self.last_bal {
            None => false,
            Some(last) => !request.ballot.less_than(last) && request.v.len() > 0,
        };
        if accepts {
            let bal = request.ballot;
            *self = Acceptor { last_bal: Some(bal.duplicate()), v: request.v, vbal: Some(bal) };
            Phase2Reply { ok: true }
        } else {
            Phase2Reply { ok: false }
        }
    }

    /// The highest ballot seen.
    pub fn last_ballot(&self) -> (r: &Option<BallotNum>)
        ensures
            *r == self@.last_bal,
    {
        &self.last_bal
    }

    /// The accepted value (empty when none).
    pub fn accepted_value(&self) -> (r: &Vec<u8>)
        ensures
            r@ == self@.v,
    {
        &self.v
    }

    /// The ballot of the accepted value.
    pub fn accepted_ballot(&self) -> (r: &Option<BallotNum>)
        ensures
            *r == self@.vbal,
    {
        &self.vbal
    }
}

impl Default for Acceptor {
    fn default() -> (r: Acceptor)
        ensures
            r@ == AcceptorView::empty(),
    {
        Acceptor::new()
    }
}

} // verus!
