//! The proposer: ballot generation, quorum arithmetic, the Phase1 and Phase2
//! tallies, and the two-phase drive over a transport.

use crate::ballot::{ballot_eq, ballot_lt, opt_lt, BallotNum};
use crate::messages::{duplicate_opt, Phase1Reply, Phase1Request, Phase2Reply, Phase2Request};
use vstd::prelude::*;

verus! {

/// How requests reach the acceptors. Each call broadcasts the request to the
/// named members of a quorum and gives back the replies that arrived in
/// time, at most one per member; a request that was not delivered is a
/// missing reply. Every call is logged with its replies.
pub trait Transport {
    /// The Phase1 requests sent so far, each with the replies it got.
    spec fn log1(&self) -> Seq<(Phase1Request, Seq<Phase1Reply>)>;

    /// The Phase2 requests sent so far, each with the replies it got.
    spec fn log2(&self) -> Seq<(Phase2Request, Seq<Phase2Reply>)>;

    fn send_phase1(&mut self, quorum: &Vec<String>, req: &Phase1Request) -> (r: Vec<Phase1Reply>)
        ensures
            final(self).log1() == old(self).log1().push((*req, r@)),
            final(self).log2() == old(self).log2(),
            r@.len() <= quorum@.len(),
    ;

    fn send_phase2(&mut self, quorum: &Vec<String>, req: &Phase2Request) -> (r: Vec<Phase2Reply>)
        ensures
            final(self).log2() == old(self).log2().push((*req, r@)),
            final(self).log1() == old(self).log1(),
            r@.len() <= quorum@.len(),
    ;
}

/// `new_log` is `old_log` with one Phase1 request at `b` added.
pub open spec fn sent_phase1(
    old_log: Seq<(Phase1Request, Seq<Phase1Reply>)>,
    new_log: Seq<(Phase1Request, Seq<Phase1Reply>)>,
    b: BallotNum,
) -> bool {
    &&& new_log.len() == old_log.len() + 1
    &&& new_log.drop_last() == old_log
    &&& new_log.last().0 == (Phase1Request { ballot: b })
}

/// `new_log` is `old_log` with one Phase2 request of `v` at `b` added.
pub open spec fn sent_phase2(
    old_log: Seq<(Phase2Request, Seq<Phase2Reply>)>,
    new_log: Seq<(Phase2Request, Seq<Phase2Reply>)>,
    b: BallotNum,
    v: Seq<u8>,
) -> bool {
    &&& new_log.len() == old_log.len() + 1
    &&& new_log.drop_last() == old_log
    &&& new_log.last().0.ballot == b
    &&& new_log.last().0.v@ == v
}

/// The majority threshold of a quorum of `n` acceptors.
pub open spec fn majority(n: nat) -> nat {
    n / 2 + 1
}

/// The reply shows a ballot strictly higher than `bal`.
pub open spec fn supersedes(r: Phase1Reply, bal: BallotNum) -> bool {
    r.last_ballot is Some && ballot_lt(bal, r.last_ballot->0)
}

/// The reply shows that the acceptor promised `bal` itself.
pub open spec fn promises(r: Phase1Reply, bal: BallotNum) -> bool {
    r.last_ballot is Some && ballot_eq(r.last_ballot->0, bal)
}

/// The reply reports a previously accepted value.
pub open spec fn carries_value(r: Phase1Reply) -> bool {
    r.last_ballot is Some && r.v@.len() > 0
}

/// Some reply shows a ballot strictly higher than `bal`.
pub open spec fn superseded(bal: BallotNum, rs: Seq<Phase1Reply>) -> bool {
    exists|i: int| 0 <= i < rs.len() && #[trigger] supersedes(rs[i], bal)
}

/// The number of replies that promised `bal`.
pub open spec fn promise_count(bal: BallotNum, rs: Seq<Phase1Reply>) -> nat
    decreases rs.len(),
{
    if rs.len() == 0 {
        0
    } else {
        promise_count(bal, rs.drop_last()) + if promises(rs.last(), bal) {
            1nat
        } else {
            0nat
        }
    }
}

/// Among the replies that carry a value, the one with the highest accepted
/// ballot, as (ballot, value); on equal ballots the earliest reply.
pub open spec fn highest_value(rs: Seq<Phase1Reply>) -> Option<(Option<BallotNum>, Seq<u8>)>
    decreases rs.len(),
{
    if rs.len() == 0 {
        None
    } else {
        let prev = highest_value(rs.drop_last());
        let r = rs.last();
        let higher = match prev {
            None => true,
            Some(c) => opt_lt(c.0, r.vbal),
        };
        if carries_value(r) && higher {
            Some((r.vbal, r.v@))
        } else {
            prev
        }
    }
}

/// Phase1 at `bal` succeeds: nobody reported a higher ballot and a majority
/// of a quorum of `n` promised `bal`.
pub open spec fn phase1_ok(bal: BallotNum, n: nat, rs: Seq<Phase1Reply>) -> bool {
    !superseded(bal, rs) && promise_count(bal, rs) >= majority(n)
}

/// The value that Phase1 surfaced, if any: the one of highest ballot.
pub open spec fn phase1_value(rs: Seq<Phase1Reply>) -> Option<Seq<u8>> {
    match highest_value(rs) {
        Some(c) => Some(c.1),
        None => None,
    }
}

pub open spec fn opt_bytes(o: Option<Vec<u8>>) -> Option<Seq<u8>> {
    match o {
        Some(w) => Some(w@),
        None => None,
    }
}

/// `r` is the outcome of Phase1 at `bal` on the replies `rs`.
pub open spec fn phase1_outcome(
    bal: BallotNum,
    n: nat,
    rs: Seq<Phase1Reply>,
    r: (Option<Vec<u8>>, bool),
) -> bool {
    &&& r.1 == phase1_ok(bal, n, rs)
    &&& r.1 ==> opt_bytes(r.0) == phase1_value(rs)
    &&& !r.1 ==> r.0 is None
}

/// The number of replies that accepted.
pub open spec fn ok_count(rs: Seq<Phase2Reply>) -> nat
    decreases rs.len(),
{
    if rs.len() == 0 {
        0
    } else {
        ok_count(rs.drop_last()) + if rs.last().ok {
            1nat
        } else {
            0nat
        }
    }
}

/// Phase2 succeeds: a majority of a quorum of `n` accepted.
pub open spec fn phase2_ok(n: nat, rs: Seq<Phase2Reply>) -> bool {
    ok_count(rs) >= majority(n)
}

/// The value that Phase2 commits: the one Phase1 surfaced, else the caller's.
pub open spec fn chosen_value(v: Seq<u8>, adopted: Option<Seq<u8>>) -> Seq<u8> {
    match adopted {
        Some(w) => w,
        None => v,
    }
}

/// The majority threshold of a quorum of `n` acceptors: `n / 2 + 1`.
pub fn quorum_threshold(n: usize) -> (r: usize)
    ensures
        r == majority(n as nat),
{
    n / 2 + 1
}

/// Decides Phase1 at `bal` for a quorum of `quorum_len` acceptors from the
/// replies that arrived: fails as soon as a reply shows a higher ballot;
/// otherwise succeeds iff a majority promised `bal`, and then gives the value
/// of highest accepted ballot among the replies, if any.
pub fn tally_phase1(bal: &BallotNum, quorum_len: usize, replies: &Vec<Phase1Reply>) -> (r: (
    Option<Vec<u8>>,
    bool,
))
    ensures
        phase1_outcome(*bal, quorum_len as nat, replies@, r),
{
    let threshold = quorum_threshold(quorum_len);
    let mut accepted: usize = 0;
    let mut seen_v: Option<Vec<u8>> = None;
    let mut seen_vbal: Option<BallotNum> = None;
    let mut i: usize = 0;
    while i < replies.len()
        invariant
            i <= replies@.len(),
            accepted <= i,
            !superseded(*bal, replies@.subrange(0, i as int)),
            accepted == promise_count(*bal, replies@.subrange(0, i as int)),
            match highest_value(replies@.subrange(0, i as int)) {
                Some(c) => seen_v is Some && seen_v->0@ == c.1 && seen_vbal == c.0,
                None => seen_v is None,
            },
        decreases replies@.len() - i,
    {
        let reply = &replies[i];
        let ghost pre = replies@.subrange(0, i as int);
        assert(replies@.subrange(0, i + 1).drop_last() =~= pre);
        if let Some(last_ballot) = &reply.last_ballot {
            if bal.less_than(last_ballot) {
                assert(superseded(*bal, replies@)) by {
                    assert(supersedes(replies@[i as int], *bal));
                }
                return (None, false);
            }
            if last_ballot.same_as(bal) {
                accepted = accepted + 1;
            }
            if reply.v.len() > 0 {
                let higher = match &seen_v {
                    None => true,
                    Some(_) => match (&seen_vbal, &reply.vbal) {
                        (None, Some(_)) => true,
                        (Some(s), Some(t)) => s.less_than(t),
                        _ => false,
                    },
                };
                if higher {
                    let w = reply.v.clone();
                    assert(w@ =~= reply.v@);
                    seen_v = Some(w);
                    seen_vbal = duplicate_opt(&reply.vbal);
                }
            }
        }
        assert forall|j: int| 0 <= j < i + 1 implies !supersedes(
            #[trigger] replies@.subrange(0, i + 1)[j],
            *bal,
        ) by {
            if j < i {
                assert(replies@.subrange(0, i + 1)[j] == pre[j]);
            }
        }
        i = i + 1;
    }
    assert(replies@.subrange(0, i as int) =~= replies@);
    if accepted < threshold {
        (None, false)
    } else {
        (seen_v, true)
    }
}

/// Decides Phase2 for a quorum of `quorum_len` acceptors: success iff a
/// majority of the replies that arrived accepted.
pub fn tally_phase2(quorum_len: usize, replies: &Vec<Phase2Reply>) -> (r: bool)
    ensures
        r == phase2_ok(quorum_len as nat, replies@),
{
    let threshold = quorum_threshold(quorum_len);
    let mut accepted: usize = 0;
    let mut i: usize = 0;
    while i < replies.len()
        invariant
            i <= replies@.len(),
            accepted <= i,
            accepted == ok_count(replies@.subrange(0, i as int)),
        decreases replies@.len() - i,
    {
        assert(replies@.subrange(0, i + 1).drop_last() =~= replies@.subrange(0, i as int));
        if replies[i].ok {
            accepted = accepted + 1;
        }
        i = i + 1;
    }
    assert(replies@.subrange(0, i as int) =~= replies@);
    accepted >= threshold
}

/// The value to send in Phase2: the one Phase1 surfaced, which must win over
/// the caller's own, else the caller's.
pub fn value_to_propose(v: Vec<u8>, adopted: Option<Vec<u8>>) -> (r: Vec<u8>)
    ensures
        r@ == chosen_value(v@, opt_bytes(adopted)),
{
    match adopted {
        Some(w) => w,
        None => v,
    }
}

/// The attempt logged at `log1[k]` failed: Phase1 did not succeed, or a
/// Phase2 at its ballot, logged at or after `from2`, did not reach a majority
/// of `n`.
pub open spec fn attempt_failed(
    n: nat,
    log1: Seq<(Phase1Request, Seq<Phase1Reply>)>,
    log2: Seq<(Phase2Request, Seq<Phase2Reply>)>,
    from2: int,
    k: int,
) -> bool {
    !phase1_ok(log1[k].0.ballot, n, log1[k].1) || exists|m: int|
        #![trigger log2[m]]
        from2 <= m < log2.len() && log2[m].0.ballot == log1[k].0.ballot && !phase2_ok(n, log2[m].1)
}

/// The ballot of attempt `k` of a run of attempts from counter `c` on.
pub open spec fn attempt_ballot(c: u64, id: String, k: int) -> BallotNum {
    BallotNum { ballot: (c + k) as u64, node_id: id }
}

/// A proposer: its identity, its fixed quorum, a private counter from which
/// each attempt draws a fresh, strictly higher ballot, and the ballot of the
/// current attempt.
pub struct Proposer {
    quorum: Vec<String>,
    /// the counter of the next ballot to draw
    ts: u64,
    id: String,
    /// the ballot drawn for the current attempt
    bal: Option<BallotNum>,
}

impl Proposer {
    pub closed spec fn counter(self) -> u64 {
        self.ts
    }

    pub closed spec fn identity(self) -> String {
        self.id
    }

    pub closed spec fn quorum(self) -> Seq<String> {
        self.quorum@
    }

    /// The ballot of the current attempt, once one was drawn.
    pub closed spec fn current(self) -> Option<BallotNum> {
        self.bal
    }

    pub open spec fn quorum_size(self) -> nat {
        self.quorum().len()
    }

    /// The ballot that the next draw gives.
    pub open spec fn next_ballot(self) -> BallotNum {
        BallotNum { ballot: self.counter(), node_id: self.identity() }
    }

    /// `next` is `prev` after one draw: with room left, the next ballot became
    /// the current one and the counter moved up by one; else nothing changed.
    pub open spec fn drew(prev: Proposer, next: Proposer) -> bool {
        &&& next.identity() == prev.identity()
        &&& next.quorum() == prev.quorum()
        &&& prev.counter() < u64::MAX ==> next.counter() == prev.counter() + 1 && next.current()
            == Some(prev.next_ballot())
        &&& prev.counter() == u64::MAX ==> next.counter() == prev.counter() && next.current()
            == prev.current()
    }

    pub fn new(id: String, quorum: Vec<String>) -> (r: Proposer)
        ensures
            r.counter() == 0,
            r.identity() == id,
            r.quorum() == quorum@,
            r.current() is None,
    {
        Proposer { quorum, ts: 0, id, bal: None }
    }

    /// The ballot of the current attempt; `None` before the first draw.
    pub fn get_bal(&self) -> (r: Option<BallotNum>)
        ensures
            r == self.current(),
    {
        duplicate_opt(&self.bal)
    }

    /// Draws a fresh ballot: reads the counter, moves it up by one, and
    /// returns the ballot of the value read, which becomes the current one;
    /// `None` once the counter has no room left.
    pub fn get_nextbal(&mut self) -> (r: Option<BallotNum>)
        ensures
            Proposer::drew(*old(self), *final(self)),
            old(self).counter() < u64::MAX ==> r == Some(old(self).next_ballot()),
            old(self).counter() == u64::MAX ==> r is None,
    {
        if self.ts == u64::MAX {
            return None;
        }
        let b = BallotNum { ballot: self.ts, node_id: self.id.clone() };
        self.ts = self.ts + 1;
        self.bal = Some(b.duplicate());
        Some(b)
    }

    /// Phase1 at a fresh ballot: sends it once and tallies the replies. On
    /// success gives the value of highest accepted ballot that was reported.
    pub fn propose_phase1<T: Transport>(&mut self, net: &mut T) -> (r: (Option<Vec<u8>>, bool))
        ensures
            Proposer::drew(*old(self), *final(self)),
            final(net).log2() == old(net).log2(),
            old(self).counter() == u64::MAX ==> r.0 is None && !r.1 && final(net).log1() == old(
                net,
            ).log1(),
            old(self).counter() < u64::MAX ==> sent_phase1(
                old(net).log1(),
                final(net).log1(),
                old(self).next_ballot(),
            ) && phase1_outcome(
                old(self).next_ballot(),
                old(self).quorum_size(),
                final(net).log1().last().1,
                r,
            ),
    {
        let bal = match self.get_nextbal() {
            Some(b) => b,
            None => return (None, false),
        };
        let req = Phase1Request { ballot: bal.duplicate() };
        let ghost before = net.log1();
        let replies = net.send_phase1(&self.quorum, &req);
        assert(net.log1().drop_last() =~= before);
        tally_phase1(&bal, self.quorum.len(), &replies)
    }

    /// Phase2 at the current ballot (the one drawn for Phase1): sends `v` once
    /// and tallies the replies. Sends nothing and fails before any draw.
    pub fn propose_phase2<T: Transport>(&self, v: Vec<u8>, net: &mut T) -> (r: bool)
        ensures
            final(net).log1() == old(net).log1(),
            self.current() is None ==> !r && final(net).log2() == old(net).log2(),
            self.current() is Some ==> sent_phase2(
                old(net).log2(),
                final(net).log2(),
                self.current()->0,
                v@,
            ) && r == phase2_ok(self.quorum_size(), final(net).log2().last().1),
    {
        let ballot = match &self.bal {
            Some(b) => b.duplicate(),
            None => return false,
        };
        let req = Phase2Request { ballot, v };
        let ghost before = net.log2();
        let replies = net.send_phase2(&self.quorum, &req);
        assert(net.log2().drop_last() =~= before);
        tally_phase2(self.quorum.len(), &replies)
    }

    /// Proposes `v`: Phase1 at a fresh ballot; when it succeeds, Phase2 at that
    /// ballot with the value Phase1 surfaced, or else `v`. Returns whether the
    /// value was committed, and the value sent (`v` when Phase1 failed).
    pub fn propose_v<T: Transport>(&mut self, v: Vec<u8>, net: &mut T) -> (r: (bool, Vec<u8>))
        ensures
            Proposer::drew(*old(self), *final(self)),
            old(self).counter() == u64::MAX ==> !r.0 && r.1@ == v@ && final(net).log1() == old(
                net,
            ).log1() && final(net).log2() == old(net).log2(),
            old(self).counter() < u64::MAX ==> sent_phase1(
                old(net).log1(),
                final(net).log1(),
                old(self).next_ballot(),
            ),
            old(self).counter() < u64::MAX && !phase1_ok(
                old(self).next_ballot(),
                old(self).quorum_size(),
                final(net).log1().last().1,
            ) ==> !r.0 && r.1@ == v@ && final(net).log2() == old(net).log2(),
            old(self).counter() < u64::MAX && phase1_ok(
                old(self).next_ballot(),
                old(self).quorum_size(),
                final(net).log1().last().1,
            ) ==> {
                &&& r.1@ == chosen_value(v@, phase1_value(final(net).log1().last().1))
                &&& sent_phase2(old(net).log2(), final(net).log2(), old(self).next_ballot(), r.1@)
                &&& r.0 == phase2_ok(old(self).quorum_size(), final(net).log2().last().1)
            },
    {
        let (adopted, ok) = self.propose_phase1(net);
        if !ok {
            return (false, v);
        }
        let w = value_to_propose(v, adopted);
        let sent = w.clone();
        assert(sent@ =~= w@);
        let committed = self.propose_phase2(sent, net);
        (committed, w)
    }

    /// Proposes `v` up to `1 + max_retries` times, each attempt at a fresh,
    /// higher ballot, and stops at the first that commits. Returns whether a
    /// value was committed, and that value (else `v`).
    pub fn propose_with_retries<T: Transport>(&mut self, v: Vec<u8>, max_retries: u32, net: &mut T) -> (r: (
        bool,
        Vec<u8>,
    ))
        ensures
            final(self).identity() == old(self).identity(),
            final(self).quorum() == old(self).quorum(),
            old(self).counter() <= final(self).counter(),
            final(self).counter() <= old(self).counter() + max_retries + 1,
            old(self).counter() < u64::MAX ==> final(self).counter() > old(self).counter(),
            old(self).counter() == u64::MAX ==> !r.0 && final(self).counter() == old(self).counter()
                && final(net).log1() == old(net).log1() && final(net).log2() == old(net).log2(),
            !r.0 && old(self).counter() + max_retries < u64::MAX ==> {
                &&& final(self).counter() == old(self).counter() + max_retries + 1
                &&& final(net).log1().len() == old(net).log1().len() + max_retries + 1
                &&& forall|k: int|
                    old(net).log1().len() <= k < final(net).log1().len() ==> (#[trigger] final(net).log1()[k]).0.ballot
                        == attempt_ballot(
                        old(self).counter(),
                        old(self).identity(),
                        k - old(net).log1().len(),
                    ) && attempt_failed(
                        old(self).quorum_size(),
                        final(net).log1(),
                        final(net).log2(),
                        old(net).log2().len() as int,
                        k,
                    )
            },
            r.0 ==> {
                &&& final(self).current() is Some
                &&& final(net).log1().len() > 0
                &&& final(net).log1().last().0 == (Phase1Request { ballot: final(self).current()->0 })
                &&& phase1_ok(
                    final(self).current()->0,
                    final(self).quorum_size(),
                    final(net).log1().last().1,
                )
                &&& r.1@ == chosen_value(v@, phase1_value(final(net).log1().last().1))
                &&& final(net).log2().len() > 0
                &&& final(net).log2().last().0.ballot == final(self).current()->0
                &&& final(net).log2().last().0.v@ == r.1@
                &&& phase2_ok(final(self).quorum_size(), final(net).log2().last().1)
            },
            !r.0 ==> r.1@ == v@,
    {
        let ghost start = *self;
        let ghost l1 = net.log1();
        let ghost l2 = net.log2();
        let mut attempt: u32 = 0;
        loop
            invariant
                start == *old(self),
                l1 == old(net).log1(),
                l2 == old(net).log2(),
                net.log1().len() >= l1.len(),
                net.log2().len() >= l2.len(),
                start.counter() == u64::MAX ==> self.counter() == start.counter() && net.log1() == l1
                    && net.log2() == l2,
                start.counter() < u64::MAX && attempt > 0 ==> self.counter() > start.counter(),
                start.counter() + max_retries < u64::MAX ==> {
                    &&& self.counter() == start.counter() + attempt
                    &&& net.log1().len() == l1.len() + attempt
                    &&& forall|k: int|
                        l1.len() <= k < net.log1().len() ==> (#[trigger] net.log1()[k]).0.ballot
                            == attempt_ballot(start.counter(), start.identity(), k - l1.len())
                            && attempt_failed(start.quorum_size(), net.log1(), net.log2(), l2.len() as int, k)
                },
                self.identity() == start.identity(),
                self.quorum() == start.quorum(),
                start.counter() <= self.counter(),
                self.counter() <= start.counter() + attempt,
                attempt <= max_retries,
            decreases max_retries - attempt,
        {
            let attempt_v = v.clone();
            assert(attempt_v@ =~= v@);
            let ghost p0 = *self;
            let ghost m1 = net.log1();
            let ghost m2 = net.log2();
            let (ok, w) = self.propose_v(attempt_v, net);
            if ok {
                return (true, w);
            }
            proof {
                if start.counter() + max_retries < u64::MAX {
                    let n = start.quorum_size();
                    assert forall|k: int|
                        l1.len() <= k < net.log1().len() implies (#[trigger] net.log1()[k]).0.ballot
                            == attempt_ballot(start.counter(), start.identity(), k - l1.len())
                            && attempt_failed(n, net.log1(), net.log2(), l2.len() as int, k) by {
                        if k < m1.len() {
                            assert(net.log1()[k] == m1[k]);
                            assert(attempt_failed(n, m1, m2, l2.len() as int, k));
                            if phase1_ok(m1[k].0.ballot, n, m1[k].1) {
                                let m = choose|m: int|
                                    #![trigger m2[m]]
                                    l2.len() <= m < m2.len() && m2[m].0.ballot == m1[k].0.ballot
                                        && !phase2_ok(n, m2[m].1);
                                assert(net.log2()[m] == m2[m]);
                            }
                        } else {
                            assert(k == m1.len());
                            if phase1_ok(p0.next_ballot(), n, net.log1().last().1) {
                                let m = net.log2().len() - 1;
                                assert(net.log2()[m].0.ballot == net.log1()[k].0.ballot);
                            }
                        }
                    }
                }
            }
            if attempt == max_retries {
                return (false, v);
            }
            attempt = attempt + 1;
        }
    }
}

} // verus!
