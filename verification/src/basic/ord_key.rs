//! Keys with a strict total order, as an ordered map needs them.
//!
//! Two kinds of key occur in the store: identifiers, ordered as integers, and
//! raw byte strings, ordered lexicographically.

use vstd::prelude::*;

verus! {

/// Outcome of comparing two keys.
#[derive(Clone, Copy, Debug, PartialEq, Eq, Structural)]
pub enum Rank {
    /// The first key comes before the second.
    Before,
    /// Both keys are the same.
    Same,
    /// The first key comes after the second.
    After,
}

/// A key type whose views carry a strict total order.
pub trait OrdKey: View + Sized {
    /// `a` comes strictly before `b`.
    spec fn before(a: Self::V, b: Self::V) -> bool;

    /// `before` is irreflexive, transitive and total.
    proof fn lemma_order(a: Self::V, b: Self::V, c: Self::V)
        ensures
            !Self::before(a, a),
            Self::before(a, b) && Self::before(b, c) ==> Self::before(a, c),
            Self::before(a, b) || a == b || Self::before(b, a),
    ;

    /// Compares two keys by their views.
    fn rank(&self, other: &Self) -> (r: Rank)
        ensures
            r == Rank::Before <==> Self::before(self@, other@),
            r == Rank::Same <==> self@ == other@,
            r == Rank::After <==> Self::before(other@, self@),
    ;

    /// A second key with the same view.
    fn dup(&self) -> (r: Self)
        ensures
            r@ == self@,
    ;
}

impl OrdKey for u64 {
    open spec fn before(a: u64, b: u64) -> bool {
        a < b
    }

    proof fn lemma_order(a: u64, b: u64, c: u64) {
    }

    fn rank(&self, other: &Self) -> (r: Rank) {
        if *self < *other {
            Rank::Before
        } else if *self == *other {
            Rank::Same
        } else {
            Rank::After
        }
    }

    fn dup(&self) -> (r: Self) {
        *self
    }
}

/// Lexicographic order on byte strings: at the first place where the two differ
/// the smaller byte decides; a proper prefix comes first.
pub open spec fn bytes_lt(a: Seq<u8>, b: Seq<u8>) -> bool {
    exists|i: int| #[trigger] differ_at(a, b, i)
}

/// `a` and `b` agree below `i`, and at `i` the string `a` ends or holds the smaller byte.
pub open spec fn differ_at(a: Seq<u8>, b: Seq<u8>, i: int) -> bool {
    &&& 0 <= i <= a.len()
    &&& i < b.len()
    &&& a.subrange(0, i) == b.subrange(0, i)
    &&& (i == a.len() || a[i] < b[i])
}

/// `bytes_lt` never relates a string to itself.
pub proof fn lemma_bytes_lt_irreflexive(a: Seq<u8>)
    ensures
        !bytes_lt(a, a),
{
}

/// `bytes_lt` is transitive.
pub proof fn lemma_bytes_lt_transitive(a: Seq<u8>, b: Seq<u8>, c: Seq<u8>)
    requires
        bytes_lt(a, b),
        bytes_lt(b, c),
    ensures
        bytes_lt(a, c),
{
    let i = choose|i: int| #[trigger] differ_at(a, b, i);
    let j = choose|j: int| #[trigger] differ_at(b, c, j);
    let m = if i <= j { i } else { j };
    assert forall|k: int| 0 <= k < m implies a[k] == c[k] by {
        assert(a.subrange(0, i)[k] == b.subrange(0, i)[k]);
        assert(b.subrange(0, j)[k] == c.subrange(0, j)[k]);
    }
    assert(a.subrange(0, m) =~= c.subrange(0, m));
    if i < j {
        assert(b.subrange(0, j)[i] == c.subrange(0, j)[i]);
    } else if j < i {
        assert(a.subrange(0, i)[j] == b.subrange(0, i)[j]);
    }
    assert(differ_at(a, c, m));
}

/// `bytes_lt` cannot hold both ways, nor between equal strings.
pub proof fn lemma_bytes_lt_asymmetric(a: Seq<u8>, b: Seq<u8>)
    requires
        bytes_lt(a, b),
    ensures
        !bytes_lt(b, a),
        a != b,
{
    if bytes_lt(b, a) {
        lemma_bytes_lt_transitive(a, b, a);
    }
}

/// Two strings that agree below `i` and are not equal are ordered one way or the other.
proof fn lemma_bytes_lt_from(a: Seq<u8>, b: Seq<u8>, i: int)
    requires
        0 <= i <= a.len(),
        i <= b.len(),
        a.subrange(0, i) == b.subrange(0, i),
        a != b,
    ensures
        bytes_lt(a, b) || bytes_lt(b, a),
    decreases a.len() - i,
{
    if i == a.len() {
        if i == b.len() {
            assert(a.subrange(0, i) =~= a);
            assert(b.subrange(0, i) =~= b);
        } else {
            assert(differ_at(a, b, i));
        }
    } else if i == b.len() {
        assert(differ_at(b, a, i));
    } else if a[i] < b[i] {
        assert(differ_at(a, b, i));
    } else if b[i] < a[i] {
        assert(differ_at(b, a, i));
    } else {
        let n = i + 1;
        assert forall|k: int| 0 <= k < n implies #[trigger] a.subrange(0, n)[k] == b.subrange(
            0,
            n,
        )[k] by {
            if k < i {
                assert(a.subrange(0, i)[k] == b.subrange(0, i)[k]);
            } else {
                assert(a.subrange(0, n)[k] == a[i]);
                assert(b.subrange(0, n)[k] == b[i]);
            }
        }
        assert(a.subrange(0, n) =~= b.subrange(0, n));
        lemma_bytes_lt_from(a, b, i + 1);
    }
}

/// Any two different strings are ordered one way or the other.
pub proof fn lemma_bytes_lt_total(a: Seq<u8>, b: Seq<u8>)
    ensures
        bytes_lt(a, b) || a == b || bytes_lt(b, a),
{
    if a != b {
        assert(a.subrange(0, 0) =~= b.subrange(0, 0));
        lemma_bytes_lt_from(a, b, 0);
    }
}

impl OrdKey for Vec<u8> {
    open spec fn before(a: Seq<u8>, b: Seq<u8>) -> bool {
        bytes_lt(a, b)
    }

    proof fn lemma_order(a: Seq<u8>, b: Seq<u8>, c: Seq<u8>) {
        lemma_bytes_lt_irreflexive(a);
        if bytes_lt(a, b) && bytes_lt(b, c) {
            lemma_bytes_lt_transitive(a, b, c);
        }
        lemma_bytes_lt_total(a, b);
    }

    fn rank(&self, other: &Self) -> (r: Rank) {
        let r = rank_bytes(self.as_slice(), other.as_slice());
        r
    }

    fn dup(&self) -> (r: Self) {
        copy_bytes(self.as_slice())
    }
}

/// Compares two byte strings lexicographically.
pub fn rank_bytes(a: &[u8], b: &[u8]) -> (r: Rank)
    ensures
        r == Rank::Before <==> bytes_lt(a@, b@),
        r == Rank::Same <==> a@ == b@,
        r == Rank::After <==> bytes_lt(b@, a@),
{
    let mut i: usize = 0;
    while i < a.len() && i < b.len()
        invariant
            i <= a.len(),
            i <= b.len(),
            a@.subrange(0, i as int) == b@.subrange(0, i as int),
        decreases a.len() - i,
    {
        if a[i] < b[i] {
            proof {
                assert(differ_at(a@, b@, i as int));
                lemma_bytes_lt_asymmetric(a@, b@);
            }
            return Rank::Before;
        }
        if b[i] < a[i] {
            proof {
                assert(differ_at(b@, a@, i as int));
                lemma_bytes_lt_asymmetric(b@, a@);
            }
            return Rank::After;
        }
        proof {
            assert forall|k: int| 0 <= k < i + 1 implies a@[k] == b@[k] by {
                if k < i {
                    assert(a@.subrange(0, i as int)[k] == b@.subrange(0, i as int)[k]);
                }
            }
            assert(a@.subrange(0, i + 1) =~= b@.subrange(0, i + 1));
        }
        i = i + 1;
    }
    if a.len() == b.len() {
        assert(a@.subrange(0, i as int) =~= a@);
        assert(b@.subrange(0, i as int) =~= b@);
        Rank::Same
    } else if a.len() < b.len() {
        proof {
            assert(differ_at(a@, b@, i as int));
            lemma_bytes_lt_asymmetric(a@, b@);
        }
        Rank::Before
    } else {
        proof {
            assert(differ_at(b@, a@, i as int));
            lemma_bytes_lt_asymmetric(b@, a@);
        }
        Rank::After
    }
}

/// Copies a byte string into a vector of its own.
pub fn copy_bytes(a: &[u8]) -> (r: Vec<u8>)
    ensures
        r@ == a@,
{
    let mut r: Vec<u8> = Vec::new();
    let mut i: usize = 0;
    while i < a.len()
        invariant
            i <= a.len(),
            r@ == a@.subrange(0, i as int),
        decreases a.len() - i,
    {
        r.push(a[i]);
        assert(r@ =~= a@.subrange(0, i + 1));
        i = i + 1;
    }
    assert(a@.subrange(0, i as int) =~= a@);
    r
}

} // verus!
