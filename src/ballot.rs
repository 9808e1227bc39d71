//! Ballot numbers: a (counter, identity) pair, ordered lexicographically.

use std::cmp::Ordering;
use vstd::prelude::*;
use vstd::utf8::encode_utf8;

verus! {

/// A proposal round: the proposer's counter, with its identity to break ties.
#[derive(Clone, Debug)]
pub struct BallotNum {
    pub ballot: u64,
    pub node_id: String,
}

/// Strict lexicographic order on byte strings (a proper prefix comes first).
pub open spec fn bytes_lt(a: Seq<u8>, b: Seq<u8>) -> bool
    decreases a.len(),
{
    if a.len() == 0 {
        b.len() > 0
    } else if b.len() == 0 {
        false
    } else if a[0] != b[0] {
        a[0] < b[0]
    } else {
        bytes_lt(a.drop_first(), b.drop_first())
    }
}

impl BallotNum {
    /// The identity as the UTF-8 bytes that the order compares.
    pub open spec fn id_bytes(self) -> Seq<u8> {
        encode_utf8(self.node_id@)
    }
}

/// What the order of ballots looks at: the counter and the identity's bytes.
pub type BallotKey = (u64, Seq<u8>);

impl BallotNum {
    pub open spec fn key(self) -> BallotKey {
        (self.ballot, self.id_bytes())
    }
}

pub open spec fn key_lt(a: BallotKey, b: BallotKey) -> bool {
    a.0 < b.0 || (a.0 == b.0 && bytes_lt(a.1, b.1))
}

pub open spec fn key_le(a: BallotKey, b: BallotKey) -> bool {
    key_lt(a, b) || a == b
}

/// The order on ballot keys is a strict total order.
pub proof fn lemma_key_order(a: BallotKey, b: BallotKey, c: BallotKey)
    ensures
        !key_lt(a, a),
        !(key_lt(a, b) && key_lt(b, a)),
        key_lt(a, b) || key_lt(b, a) || a == b,
        key_lt(a, b) && key_lt(b, c) ==> key_lt(a, c),
        key_le(a, b) && key_le(b, c) ==> key_le(a, c),
        key_le(a, b) && key_lt(b, c) ==> key_lt(a, c),
        key_lt(a, b) && key_le(b, c) ==> key_lt(a, c),
{
    lemma_bytes_lt_irreflexive(a.1);
    lemma_bytes_lt_asymmetric(a.1, b.1);
    lemma_bytes_lt_total(a.1, b.1);
    if bytes_lt(a.1, b.1) && bytes_lt(b.1, c.1) {
        lemma_bytes_lt_transitive(a.1, b.1, c.1);
    }
}

/// `a` comes strictly before `b`: by counter, then by identity.
pub open spec fn ballot_lt(a: BallotNum, b: BallotNum) -> bool {
    a.ballot < b.ballot || (a.ballot == b.ballot && bytes_lt(a.id_bytes(), b.id_bytes()))
}

/// `a` and `b` name the same proposal round.
pub open spec fn ballot_eq(a: BallotNum, b: BallotNum) -> bool {
    a.ballot == b.ballot && a.id_bytes() == b.id_bytes()
}

pub open spec fn ballot_le(a: BallotNum, b: BallotNum) -> bool {
    ballot_lt(a, b) || ballot_eq(a, b)
}

/// Order on optional ballots: no ballot comes before every ballot.
pub open spec fn opt_lt(a: Option<BallotNum>, b: Option<BallotNum>) -> bool {
    match (a, b) {
        (None, Some(_)) => true,
        (Some(x), Some(y)) => ballot_lt(x, y),
        _ => false,
    }
}

pub open spec fn opt_eq(a: Option<BallotNum>, b: Option<BallotNum>) -> bool {
    match (a, b) {
        (None, None) => true,
        (Some(x), Some(y)) => ballot_eq(x, y),
        _ => false,
    }
}

pub open spec fn opt_le(a: Option<BallotNum>, b: Option<BallotNum>) -> bool {
    opt_lt(a, b) || opt_eq(a, b)
}

pub proof fn lemma_bytes_lt_irreflexive(a: Seq<u8>)
    ensures
        !bytes_lt(a, a),
    decreases a.len(),
{
    if a.len() > 0 {
        lemma_bytes_lt_irreflexive(a.drop_first());
    }
}

pub proof fn lemma_bytes_lt_asymmetric(a: Seq<u8>, b: Seq<u8>)
    ensures
        !(bytes_lt(a, b) && bytes_lt(b, a)),
    decreases a.len(),
{
    if a.len() > 0 && b.len() > 0 && a[0] == b[0] {
        lemma_bytes_lt_asymmetric(a.drop_first(), b.drop_first());
    }
}

pub proof fn lemma_bytes_lt_transitive(a: Seq<u8>, b: Seq<u8>, c: Seq<u8>)
    requires
        bytes_lt(a, b),
        bytes_lt(b, c),
    ensures
        bytes_lt(a, c),
    decreases a.len(),
{
    if a.len() > 0 && a[0] == b[0] && b[0] == c[0] {
        lemma_bytes_lt_transitive(a.drop_first(), b.drop_first(), c.drop_first());
    }
}

pub proof fn lemma_bytes_lt_total(a: Seq<u8>, b: Seq<u8>)
    ensures
        bytes_lt(a, b) || bytes_lt(b, a) || a == b,
    decreases a.len(),
{
    if a.len() > 0 && b.len() > 0 && a[0] == b[0] {
        lemma_bytes_lt_total(a.drop_first(), b.drop_first());
        if a.drop_first() == b.drop_first() {
            assert(a.drop_first().len() == b.drop_first().len());
            assert(a.len() == b.len());
            assert forall|i: int| 0 <= i < a.len() implies a[i] == b[i] by {
                if i > 0 {
                    assert(a[i] == a.drop_first()[i - 1]);
                    assert(b[i] == b.drop_first()[i - 1]);
                }
            }
            assert(a =~= b);
        }
    } else if a.len() == 0 && b.len() == 0 {
        assert(a =~= b);
    }
}

/// The order on ballots is a strict total order.
pub proof fn lemma_ballot_order(a: BallotNum, b: BallotNum, c: BallotNum)
    ensures
        !ballot_lt(a, a),
        !(ballot_lt(a, b) && ballot_lt(b, a)),
        !(ballot_lt(a, b) && ballot_eq(a, b)),
        ballot_lt(a, b) || ballot_lt(b, a) || ballot_eq(a, b),
        ballot_lt(a, b) && ballot_lt(b, c) ==> ballot_lt(a, c),
        ballot_le(a, b) && ballot_le(b, c) ==> ballot_le(a, c),
        ballot_le(a, b) && ballot_lt(b, c) ==> ballot_lt(a, c),
        ballot_lt(a, b) && ballot_le(b, c) ==> ballot_lt(a, c),
{
    lemma_bytes_lt_irreflexive(a.id_bytes());
    lemma_bytes_lt_asymmetric(a.id_bytes(), b.id_bytes());
    lemma_bytes_lt_total(a.id_bytes(), b.id_bytes());
    if bytes_lt(a.id_bytes(), b.id_bytes()) && bytes_lt(b.id_bytes(), c.id_bytes()) {
        lemma_bytes_lt_transitive(a.id_bytes(), b.id_bytes(), c.id_bytes());
    }
}

/// The order on optional ballots is a strict total order.
pub proof fn lemma_opt_order(a: Option<BallotNum>, b: Option<BallotNum>, c: Option<BallotNum>)
    ensures
        !opt_lt(a, a),
        !(opt_lt(a, b) && opt_lt(b, a)),
        !(opt_lt(a, b) && opt_eq(a, b)),
        opt_lt(a, b) || opt_lt(b, a) || opt_eq(a, b),
        opt_lt(a, b) && opt_lt(b, c) ==> opt_lt(a, c),
        opt_le(a, b) && opt_le(b, c) ==> opt_le(a, c),
        opt_le(a, b) && opt_lt(b, c) ==> opt_lt(a, c),
        opt_lt(a, b) && opt_le(b, c) ==> opt_lt(a, c),
{
    if a is Some && b is Some && c is Some {
        lemma_ballot_order(a->0, b->0, c->0);
    } else if a is Some && b is Some {
        lemma_ballot_order(a->0, b->0, a->0);
    } else if b is Some && c is Some {
        lemma_ballot_order(b->0, c->0, b->0);
    } else if a is Some && c is Some {
        lemma_ballot_order(a->0, c->0, a->0);
    } else if a is Some {
        lemma_ballot_order(a->0, a->0, a->0);
    } else if b is Some {
        lemma_ballot_order(b->0, b->0, b->0);
    } else if c is Some {
        lemma_ballot_order(c->0, c->0, c->0);
    }
}

/// Compares two byte strings in the order of `bytes_lt`.
fn compare_bytes(a: &[u8], b: &[u8]) -> (r: Ordering)
    ensures
        (r == Ordering::Less) == bytes_lt(a@, b@),
        (r == Ordering::Equal) == (a@ == b@),
        (r == Ordering::Greater) == bytes_lt(b@, a@),
{
    proof {
        lemma_bytes_lt_irreflexive(a@);
        lemma_bytes_lt_asymmetric(a@, b@);
        lemma_bytes_lt_total(a@, b@);
    }
    let mut i: usize = 0;
    assert(a@.skip(0) =~= a@);
    assert(b@.skip(0) =~= b@);
    while i < a.len() && i < b.len()
        invariant
            i <= a@.len(),
            i <= b@.len(),
            a@.subrange(0, i as int) == b@.subrange(0, i as int),
            bytes_lt(a@, b@) == bytes_lt(a@.skip(i as int), b@.skip(i as int)),
            bytes_lt(b@, a@) == bytes_lt(b@.skip(i as int), a@.skip(i as int)),
        decreases a@.len() - i,
    {
        if a[i] != b[i] {
            if a[i] < b[i] {
                return Ordering::Less;
            } else {
                return Ordering::Greater;
            }
        }
        assert(a@.skip(i as int).drop_first() =~= a@.skip(i + 1));
        assert(b@.skip(i as int).drop_first() =~= b@.skip(i + 1));
        assert(a@.subrange(0, i + 1) =~= a@.subrange(0, i as int).push(a@[i as int]));
        assert(b@.subrange(0, i + 1) =~= b@.subrange(0, i as int).push(b@[i as int]));
        i = i + 1;
    }
    if a.len() == b.len() {
        assert(a@ =~= a@.subrange(0, i as int));
        assert(b@ =~= b@.subrange(0, i as int));
        Ordering::Equal
    } else if i == a.len() {
        Ordering::Less
    } else {
        Ordering::Greater
    }
}

impl BallotNum {
    pub fn new(ballot: u64, node_id: String) -> (r: BallotNum)
        ensures
            r.ballot == ballot,
            r.node_id == node_id,
    {
        BallotNum { ballot, node_id }
    }

    /// A copy of this ballot, field for field.
    pub fn duplicate(&self) -> (r: BallotNum)
        ensures
            r == *self,
    {
        BallotNum { ballot: self.ballot, node_id: self.node_id.clone() }
    }

    /// Compares two ballots: first by counter, then by identity.
    pub fn compare(&self, other: &BallotNum) -> (r: Ordering)
        ensures
            (r == Ordering::Less) == ballot_lt(*self, *other),
            (r == Ordering::Equal) == ballot_eq(*self, *other),
            (r == Ordering::Greater) == ballot_lt(*other, *self),
    {
        if self.ballot < other.ballot {
            Ordering::Less
        } else if self.ballot > other.ballot {
            Ordering::Greater
        } else {
            compare_bytes(self.node_id.as_str().as_bytes(), other.node_id.as_str().as_bytes())
        }
    }

    /// Whether this ballot comes strictly before `other`.
    pub fn less_than(&self, other: &BallotNum) -> (r: bool)
        ensures
            r == ballot_lt(*self, *other),
    {
        match self.compare(other) {
            Ordering::Less => true,
            _ => false,
        }
    }

    /// Whether this ballot names the same round as `other`.
    pub fn same_as(&self, other: &BallotNum) -> (r: bool)
        ensures
            r == ballot_eq(*self, *other),
    {
        match self.compare(other) {
            Ordering::Equal => true,
            _ => false,
        }
    }
}

} // verus!
