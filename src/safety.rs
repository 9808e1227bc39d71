//! The protocol's safety laws, stated over the acceptor and proposer models.

use crate::acceptor::{phase1_next, phase2_accepts, phase2_next, AcceptorView};
use crate::ballot::{lemma_opt_order, opt_le, opt_lt, BallotNum};
use crate::messages::Phase1Reply;
use crate::proposer::{
    carries_value, chosen_value, highest_value, majority, phase1_ok, phase1_value,
};
use vstd::prelude::*;
use vstd::set_lib::{lemma_int_range, lemma_len_subset, lemma_set_intersect_union_lens, set_int_range};

verus! {

/// A request as an acceptor receives it.
pub ghost enum AcceptorRequest {
    Phase1(BallotNum),
    Phase2(BallotNum, Seq<u8>),
}

/// The acceptor state after one request.
pub open spec fn step(a: AcceptorView, req: AcceptorRequest) -> AcceptorView {
    match req {
        AcceptorRequest::Phase1(b) => phase1_next(a, b),
        AcceptorRequest::Phase2(b, v) => phase2_next(a, b, v),
    }
}

/// The acceptor state after the requests `reqs`, in order.
pub open spec fn run(a: AcceptorView, reqs: Seq<AcceptorRequest>) -> AcceptorView
    decreases reqs.len(),
{
    if reqs.len() == 0 {
        a
    } else {
        step(run(a, reqs.drop_last()), reqs.last())
    }
}

/// One request keeps the acceptor well formed and never lowers its highest
/// ballot.
pub proof fn lemma_step_monotone(a: AcceptorView, req: AcceptorRequest)
    requires
        a.wf(),
    ensures
        step(a, req).wf(),
        opt_le(a.last_bal, step(a, req).last_bal),
{
    match req {
        AcceptorRequest::Phase1(b) => {
            lemma_opt_order(a.vbal, a.last_bal, Some(b));
            lemma_opt_order(a.last_bal, a.last_bal, a.last_bal);
        },
        AcceptorRequest::Phase2(b, v) => {
            lemma_opt_order(a.last_bal, Some(b), Some(b));
            lemma_opt_order(a.last_bal, a.last_bal, a.last_bal);
        },
    }
}

/// A run keeps the acceptor well formed.
pub proof fn lemma_run_wf(a: AcceptorView, reqs: Seq<AcceptorRequest>)
    requires
        a.wf(),
    ensures
        run(a, reqs).wf(),
    decreases reqs.len(),
{
    if reqs.len() > 0 {
        lemma_run_wf(a, reqs.drop_last());
        lemma_step_monotone(run(a, reqs.drop_last()), reqs.last());
    }
}

/// Ballot monotonicity: over any run of requests, the highest ballot an
/// acceptor has seen never decreases.
pub proof fn lemma_last_bal_monotone(a: AcceptorView, reqs: Seq<AcceptorRequest>, i: int, j: int)
    requires
        a.wf(),
        0 <= i <= j <= reqs.len(),
    ensures
        opt_le(run(a, reqs.take(i)).last_bal, run(a, reqs.take(j)).last_bal),
    decreases j - i,
{
    if i == j {
        let l = run(a, reqs.take(i)).last_bal;
        lemma_opt_order(l, l, l);
    } else {
        lemma_last_bal_monotone(a, reqs, i, j - 1);
        assert(reqs.take(j).drop_last() =~= reqs.take(j - 1));
        lemma_run_wf(a, reqs.take(j - 1));
        lemma_step_monotone(run(a, reqs.take(j - 1)), reqs[j - 1]);
        lemma_opt_order(
            run(a, reqs.take(i)).last_bal,
            run(a, reqs.take(j - 1)).last_bal,
            run(a, reqs.take(j)).last_bal,
        );
    }
}

/// Phase1 promise: once an acceptor has answered the Phase1 request at index
/// `i` of a run with highest ballot `Some(b)`, it rejects every later Phase2
/// request (at index `j`) whose ballot is below `b`.
pub proof fn lemma_promise_kept(a: AcceptorView, reqs: Seq<AcceptorRequest>, i: int, j: int)
    requires
        a.wf(),
        0 <= i < j < reqs.len(),
        reqs[i] is Phase1,
        reqs[j] is Phase2,
        opt_lt(Some(reqs[j]->Phase2_0), run(a, reqs.take(i + 1)).last_bal),
    ensures
        !phase2_accepts(run(a, reqs.take(j)), reqs[j]->Phase2_0, reqs[j]->Phase2_1),
        run(a, reqs.take(j + 1)) == run(a, reqs.take(j)),
{
    let b = reqs[j]->Phase2_0;
    lemma_last_bal_monotone(a, reqs, i + 1, j);
    let promised = run(a, reqs.take(i + 1)).last_bal;
    let now = run(a, reqs.take(j)).last_bal;
    lemma_opt_order(Some(b), promised, now);
    lemma_opt_order(now, Some(b), now);
    assert(reqs.take(j + 1).drop_last() =~= reqs.take(j));
}

/// The value an acceptor has accepted reaches the proposer: a Phase1 reply
/// built from the acceptor's state carries that value and its ballot.
pub proof fn lemma_reply_surfaces_value(a: AcceptorView, bal: BallotNum, r: Phase1Reply)
    requires
        a.wf(),
        a.v.len() > 0,
        r.last_ballot == phase1_next(a, bal).last_bal,
        r.v@ == a.v,
        r.vbal == a.vbal,
    ensures
        carries_value(r),
        r.v@ == a.v,
        r.vbal == a.vbal,
{
}

/// The Phase1 tally picks its value from a reply that carries one.
pub proof fn lemma_highest_from_reply(rs: Seq<Phase1Reply>)
    ensures
        highest_value(rs) is Some ==> exists|j: int|
            0 <= j < rs.len() && carries_value(#[trigger] rs[j]) && highest_value(rs)->0 == (
                rs[j].vbal,
                rs[j].v@,
            ),
    decreases rs.len(),
{
    if rs.len() > 0 {
        lemma_highest_from_reply(rs.drop_last());
        let prev = highest_value(rs.drop_last());
        if highest_value(rs) is Some && highest_value(rs) == prev {
            let j = choose|j: int|
                0 <= j < rs.drop_last().len() && carries_value(#[trigger] rs.drop_last()[j])
                    && prev->0 == (rs.drop_last()[j].vbal, rs.drop_last()[j].v@);
            assert(rs[j] == rs.drop_last()[j]);
        } else if highest_value(rs) is Some {
            assert(carries_value(rs[rs.len() - 1]));
        }
    }
}

/// Adoption: when reply `k` carries a value at an accepted ballot strictly
/// above that of every other reply that carries one, Phase1 surfaces that
/// value, and a successful Phase1 makes it the value sent in Phase2 in place
/// of the proposer's own `v`.
pub proof fn lemma_adopts_highest(
    bal: BallotNum,
    n: nat,
    rs: Seq<Phase1Reply>,
    k: int,
    v: Seq<u8>,
)
    requires
        0 <= k < rs.len(),
        carries_value(rs[k]),
        forall|j: int|
            0 <= j < rs.len() && j != k && carries_value(#[trigger] rs[j]) ==> opt_lt(
                rs[j].vbal,
                rs[k].vbal,
            ),
    ensures
        phase1_value(rs) == Some(rs[k].v@),
        phase1_ok(bal, n, rs) ==> chosen_value(v, phase1_value(rs)) == rs[k].v@,
{
    lemma_highest_is(rs, k);
}

proof fn lemma_highest_is(rs: Seq<Phase1Reply>, k: int)
    requires
        0 <= k < rs.len(),
        carries_value(rs[k]),
        forall|j: int|
            0 <= j < rs.len() && j != k && carries_value(#[trigger] rs[j]) ==> opt_lt(
                rs[j].vbal,
                rs[k].vbal,
            ),
    ensures
        highest_value(rs) == Some((rs[k].vbal, rs[k].v@)),
    decreases rs.len(),
{
    let pre = rs.drop_last();
    let last = rs.len() - 1;
    if k == last {
        lemma_highest_from_reply(pre);
        if highest_value(pre) is Some {
            let j = choose|j: int|
                0 <= j < pre.len() && carries_value(#[trigger] pre[j]) && highest_value(pre)->0 == (
                    pre[j].vbal,
                    pre[j].v@,
                );
            assert(pre[j] == rs[j]);
        }
    } else {
        assert forall|j: int|
            0 <= j < pre.len() && j != k && carries_value(#[trigger] pre[j]) implies opt_lt(
            pre[j].vbal,
            pre[k].vbal,
        ) by {
            assert(pre[j] == rs[j]);
        }
        lemma_highest_is(pre, k);
        lemma_opt_order(rs[last].vbal, rs[k].vbal, rs[k].vbal);
    }
}

/// Any two majorities of the same quorum of `n` acceptors share a member.
pub proof fn lemma_majorities_intersect(n: nat, s1: Set<int>, s2: Set<int>)
    requires
        s1.subset_of(set_int_range(0, n as int)),
        s2.subset_of(set_int_range(0, n as int)),
        s1.len() >= majority(n),
        s2.len() >= majority(n),
    ensures
        exists|x: int| s1.contains(x) && s2.contains(x),
{
    let all = set_int_range(0, n as int);
    lemma_int_range(0, n as int);
    lemma_len_subset(s1, all);
    lemma_len_subset(s2, all);
    lemma_len_subset(s1 + s2, all);
    lemma_set_intersect_union_lens(s1, s2);
    assert(s1.intersect(s2).len() > 0);
    if forall|x: int| !(s1.contains(x) && s2.contains(x)) {
        assert(s1.intersect(s2) =~= Set::empty());
    }
}

} // verus!
