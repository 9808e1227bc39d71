//! A transport over named acceptors held in this process, each of which can
//! be marked unreachable; it logs every request with the replies it got.

use crate::acceptor::{phase1_next, phase2_accepts, phase2_next, Acceptor, AcceptorView};
use crate::messages::{Phase1Reply, Phase1Request, Phase2Reply, Phase2Request};
use crate::proposer::Transport;
use vstd::prelude::*;

verus! {

pub struct LocalCluster {
    acceptors: Vec<Acceptor>,
    /// for each acceptor, whether it gets requests, and its name
    peers: Vec<(bool, String)>,
    log1: Ghost<Seq<(Phase1Request, Seq<Phase1Reply>)>>,
    log2: Ghost<Seq<(Phase2Request, Seq<Phase2Reply>)>>,
}

/// `name` is one of the members of `quorum`.
pub open spec fn lists_member(quorum: Seq<String>, name: String) -> bool {
    exists|j: int| 0 <= j < quorum.len() && #[trigger] quorum[j]@ == name@
}

fn named_in(quorum: &Vec<String>, name: &String) -> (r: bool)
    ensures
        r == lists_member(quorum@, *name),
{
    let mut j: usize = 0;
    while j < quorum.len()
        invariant
            j <= quorum@.len(),
            forall|k: int| 0 <= k < j ==> quorum@[k]@ != name@,
        decreases quorum@.len() - j,
    {
        if quorum[j] == *name {
            return true;
        }
        j = j + 1;
    }
    false
}

impl LocalCluster {
    /// The acceptors' states.
    pub closed spec fn states(self) -> Seq<AcceptorView> {
        self.acceptors@.map_values(|a: Acceptor| a@)
    }

    /// Every acceptor has its reachability and its name.
    pub closed spec fn wf(self) -> bool {
        self.acceptors@.len() == self.peers@.len()
    }

    /// Whether acceptor `i` gets requests.
    pub closed spec fn is_reachable(self, i: int) -> bool {
        0 <= i < self.acceptors@.len() && 0 <= i < self.peers@.len() && self.peers@[i].0
    }

    /// Acceptor `i` gets a request sent to `quorum`: it is reachable and its
    /// name is one of the members.
    pub closed spec fn receives(self, quorum: Seq<String>, i: int) -> bool {
        self.is_reachable(i) && lists_member(quorum, self.peers@[i].1)
    }

    /// One new acceptor per name, all reachable, and nothing sent yet.
    pub fn new(names: Vec<String>) -> (r: LocalCluster)
        ensures
            r.states() == Seq::new(names@.len(), |i: int| AcceptorView::empty()),
            r.wf(),
            forall|i: int| 0 <= i < names@.len() ==> r.is_reachable(i),
            forall|q: Seq<String>, i: int|
                0 <= i < names@.len() ==> #[trigger] r.receives(q, i) == lists_member(q, names@[i]),
            r.log1().len() == 0,
            r.log2().len() == 0,
    {
        let mut acceptors: Vec<Acceptor> = Vec::new();
        let mut peers: Vec<(bool, String)> = Vec::new();
        let mut i: usize = 0;
        while i < names.len()
            invariant
                i <= names@.len(),
                acceptors@.len() == i,
                peers@.len() == i,
                forall|j: int| 0 <= j < i ==> #[trigger] acceptors@[j]@ == AcceptorView::empty(),
                forall|j: int| 0 <= j < i ==> #[trigger] peers@[j].0,
                forall|j: int| 0 <= j < i ==> #[trigger] peers@[j].1 == names@[j],
            decreases names@.len() - i,
        {
            let a = Acceptor::new();
            let name = names[i].clone();
            acceptors.push(a);
            peers.push((true, name));
            assert(acceptors@[i as int]@ == AcceptorView::empty());
            assert(peers@[i as int].1 == names@[i as int]);
            i = i + 1;
        }
        let r = LocalCluster { acceptors, peers, log1: Ghost(Seq::empty()), log2: Ghost(Seq::empty()) };

        assert(r.states() =~= Seq::new(names@.len(), |i: int| AcceptorView::empty()));
        r
    }

    /// The number of acceptors.
    pub fn len(&self) -> (r: usize)
        ensures
            r == self.states().len(),
    {
        self.acceptors.len()
    }

    /// Acceptor `i`.
    pub fn acceptor(&self, i: usize) -> (r: &Acceptor)
        requires
            i < self.states().len(),
        ensures
            r@ == self.states()[i as int],
    {
        &self.acceptors[i]
    }

    /// Marks acceptor `i` reachable or not; an index out of range changes
    /// nothing.
    pub fn set_reachable(&mut self, i: usize, up: bool)
        ensures
            final(self).states() == old(self).states(),
            final(self).log1() == old(self).log1(),
            final(self).log2() == old(self).log2(),
            forall|q: Seq<String>, j: int| j != i ==> #[trigger] final(self).receives(q, j) == old(self).receives(q, j),
            forall|j: int| j != i ==> final(self).is_reachable(j) == old(self).is_reachable(j),
            final(self).wf() == old(self).wf(),
            old(self).wf() && i < old(self).states().len() ==> final(self).is_reachable(i as int) == up,
    {
        if i < self.peers.len() {
            self.peers[i].0 = up;
            assert(self.states() =~= old(self).states());
        }
    }

    /// Hands a Phase1 request to acceptor `i` alone, outside the log.
    pub fn deliver_phase1(&mut self, i: usize, req: Phase1Request) -> (r: Phase1Reply)
        requires
            i < old(self).states().len(),
        ensures
            final(self).states() == old(self).states().update(
                i as int,
                phase1_next(old(self).states()[i as int], req.ballot),
            ),
            final(self).log1() == old(self).log1(),
            final(self).log2() == old(self).log2(),
            forall|j: int| #[trigger] final(self).is_reachable(j) == old(self).is_reachable(j),
            forall|q: Seq<String>, j: int| #[trigger] final(self).receives(q, j) == old(self).receives(q, j),
    {
        let r = self.acceptors[i].handle_phase1(req);
        assert(self.states() =~= old(self).states().update(
            i as int,
            phase1_next(old(self).states()[i as int], req.ballot),
        ));
        r
    }

    /// Hands a Phase2 request to acceptor `i` alone, outside the log.
    pub fn deliver_phase2(&mut self, i: usize, req: Phase2Request) -> (r: Phase2Reply)
        requires
            i < old(self).states().len(),
        ensures
            final(self).states() == old(self).states().update(
                i as int,
                phase2_next(old(self).states()[i as int], req.ballot, req.v@),
            ),
            r.ok == phase2_accepts(old(self).states()[i as int], req.ballot, req.v@),
            final(self).log1() == old(self).log1(),
            final(self).log2() == old(self).log2(),
            forall|j: int| #[trigger] final(self).is_reachable(j) == old(self).is_reachable(j),
            forall|q: Seq<String>, j: int| #[trigger] final(self).receives(q, j) == old(self).receives(q, j),
    {
        let ghost rb = req.ballot;
        let ghost rv = req.v@;
        let r = self.acceptors[i].handle_phase2(req);
        assert(self.states() =~= old(self).states().update(
            i as int,
            phase2_next(old(self).states()[i as int], rb, rv),
        ));
        r
    }

    /// Sends a Phase1 request to every reachable acceptor named in `quorum`,
    /// in order, at most one per member. Each acceptor that got it took the
    /// Phase1 step, the others are as they were, and each reply is the one
    /// an acceptor gave.
    pub fn broadcast_phase1(&mut self, quorum: &Vec<String>, req: &Phase1Request) -> (r: Vec<
        Phase1Reply,
    >)
        ensures
            final(self).log1() == old(self).log1().push((*req, r@)),
            final(self).log2() == old(self).log2(),
            r@.len() <= quorum@.len(),
            final(self).states().len() == old(self).states().len(),
            forall|j: int| #[trigger] final(self).is_reachable(j) == old(self).is_reachable(j),
            forall|q: Seq<String>, j: int| #[trigger] final(self).receives(q, j) == old(self).receives(q, j),
            forall|i: int|
                0 <= i < old(self).states().len() ==> #[trigger] final(self).states()[i]
                    == old(self).states()[i] || (old(self).receives(quorum@, i)
                    && final(self).states()[i] == phase1_next(old(self).states()[i], req.ballot)),
            forall|k: int|
                #![trigger r@[k]]
                0 <= k < r@.len() ==> exists|i: int|
                    #![trigger final(self).states()[i]]
                    0 <= i < old(self).states().len() && old(self).receives(quorum@, i)
                        && r@[k].last_ballot == final(self).states()[i].last_bal
                        && r@[k].v@ == old(self).states()[i].v && r@[k].vbal == old(
                        self,
                    ).states()[i].vbal && final(self).states()[i] == phase1_next(
                        old(self).states()[i],
                        req.ballot,
                    ),
    {
        let mut out: Vec<Phase1Reply> = Vec::new();
        let mut i: usize = 0;
        let ghost mut src: Seq<int> = Seq::empty();
        while i < self.acceptors.len()
            invariant
                i <= self.acceptors@.len(),
                self.acceptors@.len() == old(self).acceptors@.len(),
                self.peers == old(self).peers,
                out@.len() <= quorum@.len(),
                self.log1 == old(self).log1,
                self.log2 == old(self).log2,
                forall|j: int| #[trigger] self.is_reachable(j) == old(self).is_reachable(j),
                                forall|j: int| i <= j < self.acceptors@.len() ==> #[trigger] self.states()[j] == old(self).states()[j],
                forall|j: int|
                    0 <= j < old(self).states().len() ==> #[trigger] self.states()[j]
                        == old(self).states()[j] || (old(self).receives(quorum@, j)
                        && self.states()[j] == phase1_next(old(self).states()[j], req.ballot)),
                src.len() == out@.len(),
                forall|k: int|
                    #![trigger out@[k]]
                    0 <= k < out@.len() ==> {
                        let j = src[k];
                        &&& 0 <= j < i
                        &&& old(self).receives(quorum@, j)
                        &&& out@[k].last_ballot == self.states()[j].last_bal
                        &&& out@[k].v@ == old(self).states()[j].v
                        &&& out@[k].vbal == old(self).states()[j].vbal
                        &&& self.states()[j] == phase1_next(old(self).states()[j], req.ballot)
                    },
            decreases self.acceptors@.len() - i,
        {
            if i < self.peers.len() && self.peers[i].0 && out.len() < quorum.len() && named_in(
                quorum,
                &self.peers[i].1,
            ) {
                let ghost before = *self;
                let copy = req.duplicate();
                let reply = self.acceptors[i].handle_phase1(copy);
                assert(self.acceptors@[i as int]@ == phase1_next(before.acceptors@[i as int]@, req.ballot));
                assert(before.states()[i as int] == before.acceptors@[i as int]@);
                assert forall|j: int| 0 <= j < self.acceptors@.len() && j != i implies #[trigger] self.states()[j] == before.states()[j] by {
                }
                assert(self.states()[i as int] == phase1_next(old(self).states()[i as int], req.ballot));
                let ghost prev = out@;
                out.push(reply);
                proof {
                    src = src.push(i as int);
                }
                assert forall|k: int| #![trigger out@[k]] 0 <= k < out@.len() implies {
                    let j = src[k];
                    &&& 0 <= j < i + 1
                    &&& old(self).receives(quorum@, j)
                    &&& out@[k].last_ballot == self.states()[j].last_bal
                    &&& out@[k].v@ == old(self).states()[j].v
                    &&& out@[k].vbal == old(self).states()[j].vbal
                    &&& self.states()[j] == phase1_next(old(self).states()[j], req.ballot)
                } by {
                    if k < prev.len() {
                        assert(out@[k] == prev[k]);
                        assert(self.states()[src[k]] == before.states()[src[k]]);
                    } else {
                        assert(out@[k] == reply);
                        assert(old(self).receives(quorum@, i as int));
                    }
                }
            }
            i = i + 1;
        }
        let ghost st = self.states();
        self.log1 = Ghost(self.log1@.push((*req, out@)));
        assert(self.states() == st);
        assert forall|k: int| #![trigger out@[k]] 0 <= k < out@.len() implies exists|j: int|
            #![trigger self.states()[j]]
            0 <= j < old(self).states().len() && old(self).receives(quorum@, j)
                && out@[k].last_ballot == self.states()[j].last_bal && out@[k].v@ == old(
                self,
            ).states()[j].v && out@[k].vbal == old(self).states()[j].vbal && self.states()[j]
                == phase1_next(old(self).states()[j], req.ballot) by {
            let j = src[k];
            let rk = out@[k];
            assert(0 <= j < i && st[j] == phase1_next(old(self).states()[j], req.ballot));
            assert(old(self).receives(quorum@, j) && rk.last_ballot == st[j].last_bal);
        }
        out
    }

    /// Sends a Phase2 request to every reachable acceptor named in `quorum`,
    /// in order, at most one per member. Each acceptor that got it took the
    /// Phase2 step, the others are as they were.
    pub fn broadcast_phase2(&mut self, quorum: &Vec<String>, req: &Phase2Request) -> (r: Vec<
        Phase2Reply,
    >)
        ensures
            final(self).log2() == old(self).log2().push((*req, r@)),
            final(self).log1() == old(self).log1(),
            r@.len() <= quorum@.len(),
            final(self).states().len() == old(self).states().len(),
            forall|j: int| #[trigger] final(self).is_reachable(j) == old(self).is_reachable(j),
            forall|q: Seq<String>, j: int| #[trigger] final(self).receives(q, j) == old(self).receives(q, j),
            forall|i: int|
                0 <= i < old(self).states().len() ==> #[trigger] final(self).states()[i]
                    == old(self).states()[i] || (old(self).receives(quorum@, i)
                    && final(self).states()[i] == phase2_next(
                    old(self).states()[i],
                    req.ballot,
                    req.v@,
                )),
    {
        let mut out: Vec<Phase2Reply> = Vec::new();
        let mut i: usize = 0;
        while i < self.acceptors.len()
            invariant
                i <= self.acceptors@.len(),
                self.acceptors@.len() == old(self).acceptors@.len(),
                self.peers == old(self).peers,
                out@.len() <= quorum@.len(),
                self.log1 == old(self).log1,
                self.log2 == old(self).log2,
                forall|j: int| #[trigger] self.is_reachable(j) == old(self).is_reachable(j),
                                forall|j: int|
                    0 <= j < old(self).states().len() ==> #[trigger] self.states()[j]
                        == old(self).states()[j] || (old(self).receives(quorum@, j)
                        && self.states()[j] == phase2_next(old(self).states()[j], req.ballot, req.v@)),
                forall|j: int| i <= j < self.acceptors@.len() ==> #[trigger] self.states()[j] == old(self).states()[j],
            decreases self.acceptors@.len() - i,
        {
            if i < self.peers.len() && self.peers[i].0 && out.len() < quorum.len() && named_in(
                quorum,
                &self.peers[i].1,
            ) {
                let ghost before = *self;
                let copy = req.duplicate();
                let reply = self.acceptors[i].handle_phase2(copy);
                assert(self.acceptors@[i as int]@ == phase2_next(before.acceptors@[i as int]@, req.ballot, req.v@));
                assert(before.states()[i as int] == before.acceptors@[i as int]@);
                assert(old(self).receives(quorum@, i as int));
                assert forall|j: int| 0 <= j < self.acceptors@.len() && j != i implies #[trigger] self.states()[j] == before.states()[j] by {
                }
                out.push(reply);
            }
            i = i + 1;
        }
        let ghost st = self.states();
        self.log2 = Ghost(self.log2@.push((*req, out@)));
        assert(self.states() == st);
        out
    }
}

impl Transport for LocalCluster {
    closed spec fn log1(&self) -> Seq<(Phase1Request, Seq<Phase1Reply>)> {
        self.log1@
    }

    closed spec fn log2(&self) -> Seq<(Phase2Request, Seq<Phase2Reply>)> {
        self.log2@
    }

    fn send_phase1(&mut self, quorum: &Vec<String>, req: &Phase1Request) -> (r: Vec<Phase1Reply>) {
        self.broadcast_phase1(quorum, req)
    }

    fn send_phase2(&mut self, quorum: &Vec<String>, req: &Phase2Request) -> (r: Vec<Phase2Reply>) {
        self.broadcast_phase2(quorum, req)
    }
}

} // verus!
