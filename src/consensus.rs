//! Agreement across a quorum: a model of `n` acceptors driven by any
//! interleaving of Phase1 requests, proposals and Phase2 requests, in which no
//! two values are ever chosen.

use crate::acceptor::{phase1_next, phase2_accepts, phase2_next, AcceptorView};
use crate::ballot::{
    ballot_le, key_le, key_lt, lemma_key_order, lemma_opt_order, opt_le, BallotKey, BallotNum,
};
use crate::messages::Phase1Reply;
use crate::proposer::{
    sent_phase1, sent_phase2, Proposer, Transport, carries_value, chosen_value, highest_value, majority, phase1_ok, phase1_value, promise_count,
    promises, supersedes,
};
use crate::safety::{lemma_highest_from_reply, lemma_majorities_intersect, lemma_step_monotone, step, AcceptorRequest};
use vstd::prelude::*;
use vstd::set_lib::set_int_range;

verus! {

/// The acceptors' states, with what has happened so far: every vote cast
/// (acceptor, ballot, value), every value proposed at a ballot, and every
/// Phase1 promise given (acceptor, ballot, and the accepted ballot and value
/// it reported).
pub ghost struct Consensus {
    pub accs: Seq<AcceptorView>,
    pub votes: Set<(int, BallotKey, Seq<u8>)>,
    pub proposals: Set<(BallotKey, Seq<u8>)>,
    pub promises: Set<(int, BallotKey, Option<BallotKey>, Seq<u8>)>,
}

/// What can happen next. A proposal names the reports it rests on: for each
/// acceptor of a majority, the promise it gave for the proposal's ballot.
pub ghost enum Action {
    Phase1(int, BallotNum),
    Phase2(int, BallotNum, Seq<u8>),
    Propose(BallotNum, Seq<u8>, Map<int, (Option<BallotKey>, Seq<u8>)>),
}

pub open spec fn opt_key(o: Option<BallotNum>) -> Option<BallotKey> {
    match o {
        Some(b) => Some(b.key()),
        None => None,
    }
}

pub open spec fn is_majority(n: nat, q: Set<int>) -> bool {
    q.subset_of(set_int_range(0, n as int)) && q.len() >= majority(n)
}

/// Acceptor `i` has seen a ballot strictly above `c`.
pub open spec fn last_above(s: Consensus, i: int, c: BallotKey) -> bool {
    s.accs[i].last_bal is Some && key_lt(c, s.accs[i].last_bal->0.key())
}

/// Acceptor `i` has seen ballot `c` or a higher one.
pub open spec fn last_at_least(s: Consensus, i: int, c: BallotKey) -> bool {
    s.accs[i].last_bal is Some && key_le(c, s.accs[i].last_bal->0.key())
}

pub open spec fn voted_at(s: Consensus, i: int, c: BallotKey) -> bool {
    exists|w: Seq<u8>| s.votes.contains((i, c, w))
}

/// Every acceptor of `q` voted `w` at `c`, or never did vote at `c` and never
/// will, having seen a higher ballot.
pub open spec fn blocks(s: Consensus, q: Set<int>, c: BallotKey, w: Seq<u8>) -> bool {
    forall|i: int|
        #![trigger q.contains(i)]
        q.contains(i) ==> s.votes.contains((i, c, w)) || (!voted_at(s, i, c) && last_above(s, i, c))
}

/// No value other than `w` can ever be chosen at a ballot below `k`.
pub open spec fn safe_at(s: Consensus, n: nat, k: BallotKey, w: Seq<u8>) -> bool {
    forall|c: BallotKey|
        #![trigger key_lt(c, k)]
        key_lt(c, k) ==> exists|q: Set<int>| is_majority(n, q) && #[trigger] blocks(s, q, c, w)
}

/// A majority voted `v` at `k`: Phase2 of that proposal reached a majority.
pub open spec fn chosen(s: Consensus, n: nat, k: BallotKey, v: Seq<u8>) -> bool {
    exists|q: Set<int>|
        is_majority(n, q) && forall|i: int| #![trigger q.contains(i)] q.contains(i) ==> s.votes.contains((i, k, v))
}

/// The reports of a proposal, promised at ballot `k`, allow the value `v`:
/// when any reported an accepted value, `v` is the one at the highest ballot.
pub open spec fn allows(
    s: Consensus,
    k: BallotKey,
    v: Seq<u8>,
    r: Map<int, (Option<BallotKey>, Seq<u8>)>,
) -> bool {
    &&& forall|i: int|
        #![trigger r.dom().contains(i)]
        r.dom().contains(i) ==> s.promises.contains((i, k, r[i].0, r[i].1))
    &&& (forall|i: int| #![trigger r.dom().contains(i)] r.dom().contains(i) ==> r[i].0 is None)
        || exists|i: int|
        #![trigger r.dom().contains(i)]
        r.dom().contains(i) && r[i].0 is Some && r[i].1 == v && forall|j: int|
            #![trigger r.dom().contains(j)]
            r.dom().contains(j) && r[j].0 is Some ==> key_le(r[j].0->0, r[i].0->0)
}

pub open spec fn enabled(s: Consensus, n: nat, a: Action) -> bool {
    match a {
        Action::Phase1(i, b) => 0 <= i < n,
        Action::Phase2(i, b, v) => 0 <= i < n && s.proposals.contains((b.key(), v)),
        Action::Propose(b, v, r) => {
            &&& is_majority(n, r.dom())
            &&& v.len() > 0
            &&& forall|w: Seq<u8>| !s.proposals.contains((b.key(), w))
            &&& allows(s, b.key(), v, r)
        },
    }
}

pub open spec fn next(s: Consensus, a: Action) -> Consensus {
    match a {
        Action::Phase1(i, b) => {
            let a2 = phase1_next(s.accs[i], b);
            Consensus {
                accs: s.accs.update(i, a2),
                promises: if a2.last_bal is Some && a2.last_bal->0.key() == b.key() {
                    s.promises.insert((i, b.key(), opt_key(s.accs[i].vbal), s.accs[i].v))
                } else {
                    s.promises
                },
                ..s
            }
        },
        Action::Phase2(i, b, v) => Consensus {
            accs: s.accs.update(i, phase2_next(s.accs[i], b, v)),
            votes: if phase2_accepts(s.accs[i], b, v) {
                s.votes.insert((i, b.key(), v))
            } else {
                s.votes
            },
            ..s
        },
        Action::Propose(b, v, r) => Consensus { proposals: s.proposals.insert((b.key(), v)), ..s },
    }
}

pub open spec fn init(n: nat) -> Consensus {
    Consensus {
        accs: Seq::new(n, |i: int| AcceptorView::empty()),
        votes: Set::empty(),
        proposals: Set::empty(),
        promises: Set::empty(),
    }
}

/// Every action of `acts` is allowed in the state that the ones before it
/// reach from a fresh instance of `n` acceptors.
pub open spec fn valid_run(n: nat, acts: Seq<Action>) -> bool
    decreases acts.len(),
{
    acts.len() == 0 || (valid_run(n, acts.drop_last()) && enabled(
        state_after(n, acts.drop_last()),
        n,
        acts.last(),
    ))
}

pub open spec fn state_after(n: nat, acts: Seq<Action>) -> Consensus
    decreases acts.len(),
{
    if acts.len() == 0 {
        init(n)
    } else {
        next(state_after(n, acts.drop_last()), acts.last())
    }
}

/// What holds of every reachable state.
pub open spec fn inv(s: Consensus, n: nat) -> bool {
    &&& s.accs.len() == n
    &&& forall|i: int| 0 <= i < n ==> #[trigger] s.accs[i].wf()
    &&& forall|i: int, k: BallotKey, w: Seq<u8>|
        #[trigger] s.votes.contains((i, k, w)) ==> {
            &&& 0 <= i < n
            &&& s.proposals.contains((k, w))
            &&& last_at_least(s, i, k)
            &&& s.accs[i].vbal is Some
            &&& key_le(k, s.accs[i].vbal->0.key())
        }
    &&& forall|i: int|
        0 <= i < n && #[trigger] s.accs[i].vbal is Some ==> s.votes.contains(
            (i, s.accs[i].vbal->0.key(), s.accs[i].v),
        )
    &&& forall|k: BallotKey, w: Seq<u8>| #[trigger] s.proposals.contains((k, w)) ==> w.len() > 0
    &&& forall|k: BallotKey, w1: Seq<u8>, w2: Seq<u8>|
        #[trigger] s.proposals.contains((k, w1)) && #[trigger] s.proposals.contains((k, w2)) ==> w1
            == w2
    &&& forall|i: int, k: BallotKey, vb: Option<BallotKey>, w: Seq<u8>|
        #[trigger] s.promises.contains((i, k, vb, w)) ==> promise_holds(s, i, k, vb, w)
    &&& forall|k: BallotKey, w: Seq<u8>| #[trigger] s.proposals.contains((k, w)) ==> safe_at(s, n, k, w)
}

/// A promise of `i` at `k` that reported `(vb, w)` still describes `i`'s
/// votes below `k`: they are all at `vb` or lower, and `w` was voted at `vb`.
pub open spec fn promise_holds(
    s: Consensus,
    i: int,
    k: BallotKey,
    vb: Option<BallotKey>,
    w: Seq<u8>,
) -> bool {
    &&& 0 <= i < s.accs.len()
    &&& last_at_least(s, i, k)
    &&& vb is Some ==> s.votes.contains((i, vb->0, w))
    &&& forall|c: BallotKey, x: Seq<u8>|
        #[trigger] s.votes.contains((i, c, x)) && key_lt(c, k) ==> vb is Some && key_le(c, vb->0)
}

proof fn lemma_init(n: nat)
    ensures
        inv(init(n), n),
{
}

/// Agreement holds in every state where the invariant does.
proof fn lemma_inv_agreement(s: Consensus, n: nat, k1: BallotKey, v1: Seq<u8>, k2: BallotKey, v2: Seq<u8>)
    requires
        inv(s, n),
        chosen(s, n, k1, v1),
        chosen(s, n, k2, v2),
        key_le(k1, k2),
    ensures
        v1 == v2,
{
    let q1 = choose|q: Set<int>|
        is_majority(n, q) && forall|i: int| #![trigger q.contains(i)] q.contains(i) ==> s.votes.contains((i, k1, v1));
    let q2 = choose|q: Set<int>|
        is_majority(n, q) && forall|i: int| #![trigger q.contains(i)] q.contains(i) ==> s.votes.contains((i, k2, v2));
    if k1 == k2 {
        lemma_majorities_intersect(n, q1, q2);
        let i = choose|i: int| q1.contains(i) && q2.contains(i);
        assert(s.votes.contains((i, k1, v1)));
        assert(s.votes.contains((i, k1, v2)));
    } else {
        lemma_majorities_intersect(n, q2, q2);
        let i2 = choose|i: int| q2.contains(i) && q2.contains(i);
        assert(s.votes.contains((i2, k2, v2)));
        assert(s.proposals.contains((k2, v2)));
        assert(key_lt(k1, k2));
        let q = choose|q: Set<int>| is_majority(n, q) && #[trigger] blocks(s, q, k1, v2);
        lemma_majorities_intersect(n, q1, q);
        let i = choose|i: int| q1.contains(i) && q.contains(i);
        assert(s.votes.contains((i, k1, v1)));
        if s.votes.contains((i, k1, v2)) {
        } else {
            assert(voted_at(s, i, k1));
        }
    }
}

/// Blocking only grows as acceptors see higher ballots while the votes stay.
proof fn lemma_blocks_kept(s: Consensus, s2: Consensus, n: nat, q: Set<int>, c: BallotKey, w: Seq<u8>)
    requires
        blocks(s, q, c, w),
        is_majority(n, q),
        s2.votes == s.votes,
        s.accs.len() == n,
        s2.accs.len() == n,
        forall|i: int| 0 <= i < n && #[trigger] last_above(s, i, c) ==> last_above(s2, i, c),
    ensures
        blocks(s2, q, c, w),
{
    assert forall|i: int| #[trigger] q.contains(i) implies s2.votes.contains((i, c, w)) || (
    !voted_at(s2, i, c) && last_above(s2, i, c)) by {
        assert(set_int_range(0, n as int).contains(i));
        if !s.votes.contains((i, c, w)) {
            assert(last_above(s, i, c));
        }
    }
}

proof fn lemma_phase1_preserves(s: Consensus, n: nat, i: int, b: BallotNum)
    requires
        inv(s, n),
        enabled(s, n, Action::Phase1(i, b)),
    ensures
        inv(next(s, Action::Phase1(i, b)), n),
{
    let s2 = next(s, Action::Phase1(i, b));
    let old_a = s.accs[i];
    let new_a = s2.accs[i];
    lemma_step_monotone(old_a, AcceptorRequest::Phase1(b));
    assert(new_a == step(old_a, AcceptorRequest::Phase1(b)));
    assert(old_a.vbal == new_a.vbal && old_a.v == new_a.v);
    // the highest ballot of `i` only grows
    assert forall|c: BallotKey| last_at_least(s, i, c) implies last_at_least(s2, i, c) by {
        lemma_key_order(c, old_a.last_bal->0.key(), new_a.last_bal->0.key());
    }
    assert forall|c: BallotKey| last_above(s, i, c) implies last_above(s2, i, c) by {
        lemma_key_order(c, old_a.last_bal->0.key(), new_a.last_bal->0.key());
    }
    assert forall|j: int, c: BallotKey| 0 <= j < n && #[trigger] last_at_least(s, j, c) implies last_at_least(s2, j, c) by {
        if j == i {
            lemma_key_order(c, old_a.last_bal->0.key(), new_a.last_bal->0.key());
        }
    }
    assert forall|j: int, c: BallotKey| 0 <= j < n && #[trigger] last_above(s, j, c) implies last_above(s2, j, c) by {
        if j == i {
            lemma_key_order(c, old_a.last_bal->0.key(), new_a.last_bal->0.key());
        }
    }
    assert forall|j: int| 0 <= j < n implies #[trigger] s2.accs[j].wf() by {
    }
    assert forall|j: int, k: BallotKey, vb: Option<BallotKey>, w: Seq<u8>|
        #[trigger] s2.promises.contains((j, k, vb, w)) implies promise_holds(s2, j, k, vb, w) by {
        if s.promises.contains((j, k, vb, w)) {
            assert(promise_holds(s, j, k, vb, w));
        } else {
            assert(j == i && k == b.key());
            assert(last_at_least(s2, i, k)) by {
                lemma_key_order(k, k, k);
            }
            assert forall|c: BallotKey, x: Seq<u8>|
                #[trigger] s2.votes.contains((i, c, x)) && key_lt(c, k) implies vb is Some && key_le(
                c,
                vb->0,
            ) by {
                assert(s.votes.contains((i, c, x)));
            }
        }
    }
    assert forall|k: BallotKey, w: Seq<u8>| #[trigger] s2.proposals.contains((k, w)) implies safe_at(
        s2,
        n,
        k,
        w,
    ) by {
        assert(safe_at(s, n, k, w));
        assert forall|c: BallotKey| #[trigger] key_lt(c, k) implies exists|q: Set<int>|
            is_majority(n, q) && #[trigger] blocks(s2, q, c, w) by {
            let q = choose|q: Set<int>| is_majority(n, q) && #[trigger] blocks(s, q, c, w);
            lemma_blocks_kept(s, s2, n, q, c, w);
        }
    }
}

proof fn lemma_phase2_preserves(s: Consensus, n: nat, i: int, b: BallotNum, v: Seq<u8>)
    requires
        inv(s, n),
        enabled(s, n, Action::Phase2(i, b, v)),
    ensures
        inv(next(s, Action::Phase2(i, b, v)), n),
{
    let s2 = next(s, Action::Phase2(i, b, v));
    let old_a = s.accs[i];
    let kb = b.key();
    lemma_step_monotone(old_a, AcceptorRequest::Phase2(b, v));
    if !phase2_accepts(old_a, b, v) {
        assert(s2.accs =~= s.accs);
        assert(s2 == s);
        return;
    }
    let lk = old_a.last_bal->0.key();
    assert(key_le(lk, kb));
    assert(s2.accs[i].last_bal == Some(b) && s2.accs[i].vbal == Some(b) && s2.accs[i].v == v);
    assert forall|j: int| 0 <= j < n implies #[trigger] s2.accs[j].wf() by {
        assert(step(old_a, AcceptorRequest::Phase2(b, v)) == s2.accs[i]);
    }
    // every earlier vote of `i` is at or below its old highest ballot, so below `kb`
    assert forall|j: int, k: BallotKey, w: Seq<u8>| #[trigger] s2.votes.contains((j, k, w)) implies {
        &&& 0 <= j < n
        &&& s2.proposals.contains((k, w))
        &&& last_at_least(s2, j, k)
        &&& s2.accs[j].vbal is Some
        &&& key_le(k, s2.accs[j].vbal->0.key())
    } by {
        if s.votes.contains((j, k, w)) && j == i {
            lemma_key_order(k, lk, kb);
        }
        if !s.votes.contains((j, k, w)) {
            lemma_key_order(kb, kb, kb);
        }
    }
    assert forall|j: int, k: BallotKey, vb: Option<BallotKey>, w: Seq<u8>|
        #[trigger] s2.promises.contains((j, k, vb, w)) implies promise_holds(s2, j, k, vb, w) by {
        assert(promise_holds(s, j, k, vb, w));
        if j == i {
            lemma_key_order(k, lk, kb);
            assert forall|c: BallotKey, x: Seq<u8>|
                #[trigger] s2.votes.contains((i, c, x)) && key_lt(c, k) implies vb is Some && key_le(
                c,
                vb->0,
            ) by {
                if !s.votes.contains((i, c, x)) {
                    lemma_key_order(k, kb, c);
                }
            }
        }
    }
    assert forall|k: BallotKey, w: Seq<u8>| #[trigger] s2.proposals.contains((k, w)) implies safe_at(
        s2,
        n,
        k,
        w,
    ) by {
        assert(safe_at(s, n, k, w));
        assert forall|c: BallotKey| #[trigger] key_lt(c, k) implies exists|q: Set<int>|
            is_majority(n, q) && #[trigger] blocks(s2, q, c, w) by {
            let q = choose|q: Set<int>| is_majority(n, q) && #[trigger] blocks(s, q, c, w);
            assert forall|j: int| #[trigger] q.contains(j) implies s2.votes.contains((j, c, w)) || (
            !voted_at(s2, j, c) && last_above(s2, j, c)) by {
                assert(set_int_range(0, n as int).contains(j));
                if !s.votes.contains((j, c, w)) {
                    assert(!voted_at(s, j, c) && last_above(s, j, c));
                    if j == i {
                        lemma_key_order(c, lk, kb);
                    }
                    if voted_at(s2, j, c) {
                        let x = choose|x: Seq<u8>| s2.votes.contains((j, c, x));
                        assert(!s.votes.contains((j, c, x)));
                    }
                }
            }
            assert(blocks(s2, q, c, w));
        }
    }
}

/// A proposal whose reports allow `v` at `kb` is safe: for each lower ballot
/// some majority blocks every other value.
proof fn lemma_proposal_safe(
    s: Consensus,
    n: nat,
    kb: BallotKey,
    v: Seq<u8>,
    r: Map<int, (Option<BallotKey>, Seq<u8>)>,
    c: BallotKey,
)
    requires
        inv(s, n),
        is_majority(n, r.dom()),
        allows(s, kb, v, r),
        key_lt(c, kb),
    ensures
        exists|q: Set<int>| is_majority(n, q) && #[trigger] blocks(s, q, c, v),
{
    let q = r.dom();
    // what the promises of `q` say about their votes below `kb`
    assert forall|i: int| #[trigger] q.contains(i) implies promise_holds(s, i, kb, r[i].0, r[i].1) && last_above(s, i, c) by {
        assert(s.promises.contains((i, kb, r[i].0, r[i].1)));
        lemma_key_order(c, kb, s.accs[i].last_bal->0.key());
    }
    if forall|i: int| #![trigger q.contains(i)] q.contains(i) ==> r[i].0 is None {
        assert forall|i: int| #[trigger] q.contains(i) implies s.votes.contains((i, c, v)) || (!voted_at(s, i, c) && last_above(s, i, c)) by {
            assert(promise_holds(s, i, kb, r[i].0, r[i].1));
            if voted_at(s, i, c) {
                let x = choose|x: Seq<u8>| s.votes.contains((i, c, x));
            }
        }
        assert(blocks(s, q, c, v));
    } else {
        let i0 = choose|i: int|
            #![trigger r.dom().contains(i)]
            r.dom().contains(i) && r[i].0 is Some && r[i].1 == v && forall|j: int|
                #![trigger r.dom().contains(j)]
                r.dom().contains(j) && r[j].0 is Some ==> key_le(r[j].0->0, r[i].0->0);
        let m = r[i0].0->0;
        assert(promise_holds(s, i0, kb, r[i0].0, r[i0].1));
        assert(s.votes.contains((i0, m, v)));
        assert(s.proposals.contains((m, v)));
        lemma_key_order(c, m, kb);
        if key_lt(c, m) {
            assert(safe_at(s, n, m, v));
        } else if c == m {
            assert forall|i: int| #[trigger] q.contains(i) implies s.votes.contains((i, c, v)) || (!voted_at(s, i, c) && last_above(s, i, c)) by {
                if voted_at(s, i, c) {
                    let x = choose|x: Seq<u8>| s.votes.contains((i, c, x));
                    assert(s.proposals.contains((c, x)));
                }
            }
            assert(blocks(s, q, c, v));
        } else {
            assert forall|i: int| #[trigger] q.contains(i) implies s.votes.contains((i, c, v)) || (!voted_at(s, i, c) && last_above(s, i, c)) by {
                assert(promise_holds(s, i, kb, r[i].0, r[i].1));
                if voted_at(s, i, c) {
                    let x = choose|x: Seq<u8>| s.votes.contains((i, c, x));
                    assert(r[i].0 is Some && key_le(c, r[i].0->0));
                    assert(key_le(r[i].0->0, m));
                    lemma_key_order(c, r[i].0->0, m);
                    lemma_key_order(m, c, m);
                }
            }
            assert(blocks(s, q, c, v));
        }
    }
}

proof fn lemma_propose_preserves(
    s: Consensus,
    n: nat,
    b: BallotNum,
    v: Seq<u8>,
    r: Map<int, (Option<BallotKey>, Seq<u8>)>,
)
    requires
        inv(s, n),
        enabled(s, n, Action::Propose(b, v, r)),
    ensures
        inv(next(s, Action::Propose(b, v, r)), n),
{
    let s2 = next(s, Action::Propose(b, v, r));
    let kb = b.key();
    assert forall|j: int, k: BallotKey, vb: Option<BallotKey>, w: Seq<u8>|
        #[trigger] s2.promises.contains((j, k, vb, w)) implies promise_holds(s2, j, k, vb, w) by {
        assert(promise_holds(s, j, k, vb, w));
    }
    assert forall|k: BallotKey, w: Seq<u8>| #[trigger] s2.proposals.contains((k, w)) implies safe_at(
        s2,
        n,
        k,
        w,
    ) by {
        assert forall|c: BallotKey| #[trigger] key_lt(c, k) implies exists|q: Set<int>|
            is_majority(n, q) && #[trigger] blocks(s2, q, c, w) by {
            if s.proposals.contains((k, w)) {
                assert(safe_at(s, n, k, w));
                let q = choose|q: Set<int>| is_majority(n, q) && #[trigger] blocks(s, q, c, w);
                assert(blocks(s2, q, c, w));
            } else {
                lemma_proposal_safe(s, n, kb, v, r, c);
                let q = choose|q: Set<int>| is_majority(n, q) && #[trigger] blocks(s, q, c, v);
                assert(blocks(s2, q, c, v));
            }
        }
    }
}

/// Every state that a valid run reaches satisfies the invariant.
proof fn lemma_run_inv(n: nat, acts: Seq<Action>)
    requires
        valid_run(n, acts),
    ensures
        inv(state_after(n, acts), n),
    decreases acts.len(),
{
    if acts.len() == 0 {
        lemma_init(n);
    } else {
        let pre = acts.drop_last();
        lemma_run_inv(n, pre);
        let s = state_after(n, pre);
        match acts.last() {
            Action::Phase1(i, b) => lemma_phase1_preserves(s, n, i, b),
            Action::Phase2(i, b, v) => lemma_phase2_preserves(s, n, i, b, v),
            Action::Propose(b, v, r) => lemma_propose_preserves(s, n, b, v, r),
        }
    }
}

/// Agreement: after any interleaving of Phase1 requests, proposals and
/// Phase2 requests among `n` acceptors, two proposals whose Phase2 each
/// reached a majority carry the same value.
pub proof fn lemma_agreement(
    n: nat,
    acts: Seq<Action>,
    k1: BallotKey,
    v1: Seq<u8>,
    k2: BallotKey,
    v2: Seq<u8>,
)
    requires
        valid_run(n, acts),
        chosen(state_after(n, acts), n, k1, v1),
        chosen(state_after(n, acts), n, k2, v2),
    ensures
        v1 == v2,
{
    lemma_run_inv(n, acts);
    lemma_key_order(k1, k2, k1);
    if key_le(k1, k2) {
        lemma_inv_agreement(state_after(n, acts), n, k1, v1, k2, v2);
    } else {
        lemma_inv_agreement(state_after(n, acts), n, k2, v2, k1, v1);
    }
}

/// The reports that Phase1 replies give: for each reply that promised `b`,
/// its sender's accepted ballot and value.
pub open spec fn reports(b: BallotNum, rs: Seq<Phase1Reply>, from: Seq<int>) -> Map<
    int,
    (Option<BallotKey>, Seq<u8>),
>
    decreases rs.len(),
{
    if rs.len() == 0 || from.len() != rs.len() {
        Map::empty()
    } else {
        let m = reports(b, rs.drop_last(), from.drop_last());
        if promises(rs.last(), b) {
            m.insert(from.last(), (opt_key(rs.last().vbal), rs.last().v@))
        } else {
            m
        }
    }
}

proof fn lemma_reports(b: BallotNum, rs: Seq<Phase1Reply>, from: Seq<int>)
    requires
        from.len() == rs.len(),
        forall|x: int, y: int| 0 <= x < y < from.len() ==> from[x] != from[y],
    ensures
        reports(b, rs, from).dom().finite(),
        reports(b, rs, from).dom().len() == promise_count(b, rs),
        forall|i: int| #[trigger]
            reports(b, rs, from).dom().contains(i) ==> exists|k: int|
                0 <= k < rs.len() && from[k] == i && #[trigger] promises(rs[k], b)
                    && reports(b, rs, from)[i] == (opt_key(rs[k].vbal), rs[k].v@),
        forall|k: int|
            0 <= k < rs.len() && #[trigger] promises(rs[k], b) ==> reports(b, rs, from).dom().contains(
                from[k],
            ) && reports(b, rs, from)[from[k]] == (opt_key(rs[k].vbal), rs[k].v@),
    decreases rs.len(),
{
    if rs.len() > 0 {
        let pr = rs.drop_last();
        let pf = from.drop_last();
        lemma_reports(b, pr, pf);
        let m = reports(b, pr, pf);
        let last = rs.len() - 1;
        assert forall|i: int| #[trigger] m.dom().contains(i) implies i != from[last] by {
            let k = choose|k: int|
                0 <= k < pr.len() && pf[k] == i && #[trigger] promises(pr[k], b) && m[i] == (
                    opt_key(pr[k].vbal),
                    pr[k].v@,
                );
            assert(from[k] == pf[k]);
        }
        let r = reports(b, rs, from);
        assert forall|i: int| #[trigger] r.dom().contains(i) implies exists|k: int|
            0 <= k < rs.len() && from[k] == i && #[trigger] promises(rs[k], b) && r[i] == (
                opt_key(rs[k].vbal),
                rs[k].v@,
            ) by {
            if i != from[last] || !promises(rs[last], b) {
                let k = choose|k: int|
                    0 <= k < pr.len() && pf[k] == i && #[trigger] promises(pr[k], b) && m[i] == (
                        opt_key(pr[k].vbal),
                        pr[k].v@,
                    );
                assert(rs[k] == pr[k] && from[k] == pf[k]);
            }
        }
        assert forall|k: int| 0 <= k < rs.len() && #[trigger] promises(rs[k], b) implies r.dom().contains(
            from[k],
        ) && r[from[k]] == (opt_key(rs[k].vbal), rs[k].v@) by {
            if k < last {
                assert(rs[k] == pr[k] && from[k] == pf[k]);
            }
        }
    }
}

/// The accepted ballot of the value that the Phase1 tally picks.
pub open spec fn highest_bal(rs: Seq<Phase1Reply>) -> Option<BallotNum> {
    match highest_value(rs) {
        Some(c) => c.0,
        None => None,
    }
}

/// The Phase1 tally picks a value at a ballot no lower than that of any
/// reply that carries a value.
proof fn lemma_highest_is_max(rs: Seq<Phase1Reply>)
    ensures
        highest_value(rs) is Some ==> forall|k: int|
            0 <= k < rs.len() && #[trigger] carries_value(rs[k]) ==> opt_le(
                rs[k].vbal,
                highest_bal(rs),
            ),
        forall|k: int| 0 <= k < rs.len() && #[trigger] carries_value(rs[k]) ==> highest_value(rs) is Some,
    decreases rs.len(),
{
    if rs.len() > 0 {
        let pr = rs.drop_last();
        lemma_highest_is_max(pr);
        let h = highest_value(rs);
        assert forall|k: int| 0 <= k < rs.len() && #[trigger] carries_value(rs[k]) implies h is Some by {
            if k < rs.len() - 1 {
                assert(rs[k] == pr[k]);
            }
        }
        if h is Some {
            assert forall|k: int| 0 <= k < rs.len() && #[trigger] carries_value(rs[k]) implies opt_le(
                rs[k].vbal,
                highest_bal(rs),
            ) by {
                let last = rs.len() - 1;
                if k < last {
                    assert(rs[k] == pr[k]);
                    if highest_value(pr) is Some {
                        lemma_opt_order(rs[k].vbal, highest_bal(pr), highest_bal(rs));
                        lemma_opt_order(highest_bal(pr), rs[last].vbal, highest_bal(rs));
                    }
                } else {
                    lemma_opt_order(rs[k].vbal, highest_bal(rs), highest_bal(rs));
                    if highest_value(pr) is Some {
                        lemma_opt_order(highest_bal(pr), rs[k].vbal, highest_bal(rs));
                    }
                }
            }
        }
    }
}

/// The proposer's decision is a proposal of the model: when Phase1 at a fresh
/// ballot `b` succeeds on replies `rs` from distinct acceptors `from`, each
/// given after that acceptor handled `b` (so it shows `b` or higher), each
/// promise among them recorded, and each reply carrying a value exactly when
/// it reports an accepted ballot, then proposing the value that Phase2 is
/// asked to commit is an allowed action.
pub proof fn lemma_tally_is_proposal(
    s: Consensus,
    n: nat,
    b: BallotNum,
    own: Seq<u8>,
    rs: Seq<Phase1Reply>,
    from: Seq<int>,
)
    requires
        inv(s, n),
        own.len() > 0,
        forall|w: Seq<u8>| !s.proposals.contains((b.key(), w)),
        from.len() == rs.len(),
        forall|x: int, y: int| 0 <= x < y < from.len() ==> from[x] != from[y],
        forall|k: int| 0 <= k < from.len() ==> 0 <= #[trigger] from[k] < n,
        forall|k: int|
            0 <= k < rs.len() ==> #[trigger] rs[k].last_ballot is Some && ballot_le(
                b,
                rs[k].last_ballot->0,
            ),
        forall|k: int|
            0 <= k < rs.len() && #[trigger] promises(rs[k], b) ==> s.promises.contains(
                (from[k], b.key(), opt_key(rs[k].vbal), rs[k].v@),
            ),
        forall|k: int| 0 <= k < rs.len() ==> (#[trigger] rs[k].v@.len() > 0 <==> rs[k].vbal is Some),
        phase1_ok(b, n, rs),
    ensures
        enabled(
            s,
            n,
            Action::Propose(b, chosen_value(own, phase1_value(rs)), reports(b, rs, from)),
        ),
{
    let r = reports(b, rs, from);
    let v = chosen_value(own, phase1_value(rs));
    lemma_reports(b, rs, from);
    // with nobody above `b`, every reply promised `b`
    assert forall|k: int| 0 <= k < rs.len() implies #[trigger] promises(rs[k], b) by {
        assert(!supersedes(rs[k], b));
    }
    assert(r.dom().subset_of(set_int_range(0, n as int))) by {
        assert forall|i: int| #[trigger] r.dom().contains(i) implies set_int_range(0, n as int).contains(i) by {
            let k = choose|k: int|
                0 <= k < rs.len() && from[k] == i && #[trigger] promises(rs[k], b) && r[i] == (
                    opt_key(rs[k].vbal),
                    rs[k].v@,
                );
        }
    }
    lemma_highest_from_reply(rs);
    lemma_highest_is_max(rs);
    if highest_value(rs) is Some {
        let j = choose|j: int|
            0 <= j < rs.len() && carries_value(#[trigger] rs[j]) && highest_value(rs)->0 == (
                rs[j].vbal,
                rs[j].v@,
            );
        assert(promises(rs[j], b));
        let i0 = from[j];
        assert(r.dom().contains(i0) && r[i0].1 == v);
        assert forall|i: int| #[trigger] r.dom().contains(i) && r[i].0 is Some implies key_le(
            r[i].0->0,
            r[i0].0->0,
        ) by {
            let k = choose|k: int|
                0 <= k < rs.len() && from[k] == i && #[trigger] promises(rs[k], b) && r[i] == (
                    opt_key(rs[k].vbal),
                    rs[k].v@,
                );
            assert(carries_value(rs[k]));
        }
    } else {
        assert forall|i: int| #[trigger] r.dom().contains(i) implies r[i].0 is None by {
            let k = choose|k: int|
                0 <= k < rs.len() && from[k] == i && #[trigger] promises(rs[k], b) && r[i] == (
                    opt_key(rs[k].vbal),
                    rs[k].v@,
                );
            if rs[k].vbal is Some {
                assert(carries_value(rs[k]));
            }
        }
    }
}

/// A reply that acceptor `i` gives to Phase1 at `b` (as the acceptor's
/// handler builds it) shows `b` or higher, carries a value exactly when it
/// reports an accepted ballot, and, when it promises `b`, is the promise that
/// the step records.
pub proof fn lemma_reply_recorded(s: Consensus, n: nat, i: int, b: BallotNum, r: Phase1Reply)
    requires
        inv(s, n),
        0 <= i < n,
        r.last_ballot == phase1_next(s.accs[i], b).last_bal,
        r.vbal == s.accs[i].vbal,
        r.v@ == s.accs[i].v,
    ensures
        r.last_ballot is Some && ballot_le(b, r.last_ballot->0),
        r.v@.len() > 0 <==> r.vbal is Some,
        promises(r, b) ==> next(s, Action::Phase1(i, b)).promises.contains(
            (i, b.key(), opt_key(r.vbal), r.v@),
        ),
{
    let a = s.accs[i];
    assert(a.wf());
    if a.last_bal is Some {
        lemma_opt_order(a.last_bal, Some(b), a.last_bal);
    }
    if a.vbal is Some {
        assert(s.votes.contains((i, a.vbal->0.key(), a.v)));
    }
}

/// What `propose_v` sends in Phase2 is a proposal of the model. Take the
/// proposer `p` before the call and the transport before (`net0`) and after
/// (`net1`) it, with Phase1 at `p`'s next ballot logged and successful and
/// Phase2 logged with the value `sent` that the adoption rule gives (as
/// `propose_v` ensures), the Phase1 replies coming from the distinct
/// acceptors `from` as `lemma_tally_is_proposal` asks: proposing `sent` at
/// that ballot is an allowed action.
pub proof fn lemma_sent_value_is_proposal<T: Transport>(
    s: Consensus,
    p: Proposer,
    net0: T,
    net1: T,
    own: Seq<u8>,
    sent: Seq<u8>,
    from: Seq<int>,
)
    requires
        inv(s, p.quorum_size()),
        own.len() > 0,
        forall|w: Seq<u8>| !s.proposals.contains((p.next_ballot().key(), w)),
        sent_phase1(net0.log1(), net1.log1(), p.next_ballot()),
        phase1_ok(p.next_ballot(), p.quorum_size(), net1.log1().last().1),
        sent == chosen_value(own, phase1_value(net1.log1().last().1)),
        sent_phase2(net0.log2(), net1.log2(), p.next_ballot(), sent),
        from.len() == net1.log1().last().1.len(),
        forall|x: int, y: int| 0 <= x < y < from.len() ==> from[x] != from[y],
        forall|k: int| 0 <= k < from.len() ==> 0 <= #[trigger] from[k] < p.quorum_size(),
        forall|k: int|
            0 <= k < from.len() ==> #[trigger] net1.log1().last().1[k].last_ballot is Some
                && ballot_le(p.next_ballot(), net1.log1().last().1[k].last_ballot->0),
        forall|k: int|
            0 <= k < from.len() && #[trigger] promises(net1.log1().last().1[k], p.next_ballot())
                ==> s.promises.contains(
                (
                    from[k],
                    p.next_ballot().key(),
                    opt_key(net1.log1().last().1[k].vbal),
                    net1.log1().last().1[k].v@,
                ),
            ),
        forall|k: int|
            0 <= k < from.len() ==> (#[trigger] net1.log1().last().1[k].v@.len() > 0
                <==> net1.log1().last().1[k].vbal is Some),
    ensures
        net1.log2().last().0.ballot == p.next_ballot(),
        net1.log2().last().0.v@ == sent,
        enabled(
            s,
            p.quorum_size(),
            Action::Propose(
                net1.log2().last().0.ballot,
                net1.log2().last().0.v@,
                reports(p.next_ballot(), net1.log1().last().1, from),
            ),
        ),
{
    lemma_tally_is_proposal(s, p.quorum_size(), p.next_ballot(), own, net1.log1().last().1, from);
}

} // verus!
