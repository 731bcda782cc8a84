//! An ordered map kept as two parallel vectors, the keys strictly increasing.
//!
//! The map is described twice: as the sequence of its keys and the sequence of
//! its values, in key order, and as the mathematical map that the two make up.

use vstd::prelude::*;
use crate::basic::ord_key::{OrdKey, Rank};

verus! {

/// The keys of `s` strictly increase.
pub open spec fn sorted<K: OrdKey>(s: Seq<K::V>) -> bool {
    forall|i: int, j: int| 0 <= i < j < s.len() ==> K::before(#[trigger] s[i], #[trigger] s[j])
}

/// The map that sends each key of `ks` to the value at the same place in `vs`.
pub open spec fn seq_map<A, B>(ks: Seq<A>, vs: Seq<B>) -> Map<A, B> {
    Map::new(|k: A| ks.contains(k), |k: A| vs[ks.index_of(k)])
}

/// In a sorted sequence no key occurs twice.
pub proof fn lemma_sorted_distinct<K: OrdKey>(s: Seq<K::V>)
    requires
        sorted::<K>(s),
    ensures
        forall|i: int, j: int| 0 <= i < s.len() && 0 <= j < s.len() && #[trigger] s[i]
            == #[trigger] s[j] ==> i == j,
{
    assert forall|i: int, j: int|
        0 <= i < s.len() && 0 <= j < s.len() && #[trigger] s[i] == #[trigger] s[j] implies i
            == j by {
        K::lemma_order(s[i], s[j], s[i]);
    }
}

/// In a sorted sequence every key is found at its own place.
pub proof fn lemma_sorted_index_of<K: OrdKey>(s: Seq<K::V>, i: int)
    requires
        sorted::<K>(s),
        0 <= i < s.len(),
    ensures
        s.contains(s[i]),
        s.index_of(s[i]) == i,
{
    lemma_sorted_distinct::<K>(s);
    let j = s.index_of(s[i]);
    assert(s[j] == s[i]);
}

/// `i` is the place of `k` in `s`: every key before `i` comes before `k`, and no
/// key from `i` on does.
pub open spec fn is_place<K: OrdKey>(s: Seq<K::V>, k: K::V, i: int) -> bool {
    &&& 0 <= i <= s.len()
    &&& forall|j: int| 0 <= j < i ==> K::before(#[trigger] s[j], k)
    &&& forall|j: int| i <= j < s.len() ==> !K::before(#[trigger] s[j], k)
}

/// The place of `k` in `s`: where `k` stands, or where it would have to be put.
pub open spec fn place<K: OrdKey>(s: Seq<K::V>, k: K::V) -> int {
    choose|i: int| is_place::<K>(s, k, i)
}

/// A key has at most one place.
pub proof fn lemma_place_unique<K: OrdKey>(s: Seq<K::V>, k: K::V, i: int)
    requires
        is_place::<K>(s, k, i),
    ensures
        place::<K>(s, k) == i,
{
    let p = place::<K>(s, k);
    if p < i {
        assert(K::before(s[p], k));
    } else if i < p {
        assert(K::before(s[i], k));
    }
}

/// In a sorted sequence a key stands at its place, if it stands anywhere.
pub proof fn lemma_place_of_member<K: OrdKey>(s: Seq<K::V>, i: int)
    requires
        sorted::<K>(s),
        0 <= i < s.len(),
    ensures
        place::<K>(s, s[i]) == i,
{
    assert forall|j: int| 0 <= j < i implies K::before(#[trigger] s[j], s[i]) by {}
    assert forall|j: int| i <= j < s.len() implies !K::before(#[trigger] s[j], s[i]) by {
        K::lemma_order(s[i], s[j], s[i]);
    }
    lemma_place_unique::<K>(s, s[i], i);
}

/// A key that is not in a sorted sequence comes before everything from its place on.
pub proof fn lemma_place_of_stranger<K: OrdKey>(s: Seq<K::V>, k: K::V, i: int)
    requires
        sorted::<K>(s),
        is_place::<K>(s, k, i),
        i == s.len() || s[i] != k,
    ensures
        !s.contains(k),
        forall|j: int| i <= j < s.len() ==> K::before(k, #[trigger] s[j]),
{
    assert forall|j: int| 0 <= j < s.len() implies #[trigger] s[j] != k by {
        K::lemma_order(k, k, k);
        if j > i {
            K::lemma_order(s[i], s[j], k);
            K::lemma_order(s[i], k, k);
        }
    }
    assert forall|j: int| i <= j < s.len() implies K::before(k, #[trigger] s[j]) by {
        K::lemma_order(s[j], k, k);
    }
}

/// `s` with `k` put at its place, unless `k` is there already.
pub open spec fn insert_key<K: OrdKey>(s: Seq<K::V>, k: K::V) -> Seq<K::V> {
    if s.contains(k) {
        s
    } else {
        s.insert(place::<K>(s, k), k)
    }
}

/// A key that comes after every key of `s` is put at the end.
pub proof fn lemma_insert_key_greatest<K: OrdKey>(s: Seq<K::V>, k: K::V)
    requires
        forall|i: int| 0 <= i < s.len() ==> K::before(#[trigger] s[i], k),
    ensures
        !s.contains(k),
        insert_key::<K>(s, k) == s.push(k),
{
    K::lemma_order(k, k, k);
    lemma_place_unique::<K>(s, k, s.len() as int);
    assert(s.insert(s.len() as int, k) =~= s.push(k));
}

/// `s` without `k`.
pub open spec fn remove_key<K: OrdKey>(s: Seq<K::V>, k: K::V) -> Seq<K::V> {
    if s.contains(k) {
        s.remove(place::<K>(s, k))
    } else {
        s
    }
}

/// Putting a new key at its place keeps the order, and the map gains one entry.
pub proof fn lemma_insert_new<K: OrdKey, V>(ks: Seq<K::V>, vs: Seq<V>, k: K::V, v: V, i: int)
    requires
        ks.len() == vs.len(),
        sorted::<K>(ks),
        is_place::<K>(ks, k, i),
        !ks.contains(k),
    ensures
        sorted::<K>(ks.insert(i, k)),
        seq_map(ks.insert(i, k), vs.insert(i, v)) == seq_map(ks, vs).insert(k, v),
        ks.insert(i, k) == insert_key::<K>(ks, k),
{
    lemma_place_unique::<K>(ks, k, i);
    let ks2 = ks.insert(i, k);
    let vs2 = vs.insert(i, v);
    assert forall|a: int, b: int| 0 <= a < b < ks2.len() implies K::before(
        #[trigger] ks2[a],
        #[trigger] ks2[b],
    ) by {
        if b == i {
            assert(ks2[a] == ks[a]);
        } else if a == i {
            assert(ks2[b] == ks[b - 1]);
            assert(ks[b - 1] != k);
            K::lemma_order(ks[b - 1], k, k);
        } else {
            let a0 = if a < i { a } else { a - 1 };
            let b0 = if b < i { b } else { b - 1 };
            assert(ks2[a] == ks[a0]);
            assert(ks2[b] == ks[b0]);
        }
    }
    let m1 = seq_map(ks2, vs2);
    let m2 = seq_map(ks, vs).insert(k, v);
    assert forall|x: K::V| m1.dom().contains(x) <==> m2.dom().contains(x) by {
        if ks2.contains(x) {
            let j = ks2.index_of(x);
            if j < i {
                assert(ks[j] == x);
            } else if j > i {
                assert(ks[j - 1] == x);
            }
        }
        if ks.contains(x) {
            let j = ks.index_of(x);
            if j < i {
                assert(ks2[j] == x);
            } else {
                assert(ks2[j + 1] == x);
            }
        }
        if x == k {
            assert(ks2[i] == x);
        }
    }
    assert forall|x: K::V| m1.dom().contains(x) implies m1[x] == m2[x] by {
        let j = ks2.index_of(x);
        lemma_sorted_index_of::<K>(ks2, j);
        if j < i {
            lemma_sorted_index_of::<K>(ks, j);
        } else if j > i {
            lemma_sorted_index_of::<K>(ks, j - 1);
        }
    }
    assert(m1 =~= m2);
}

/// Changing the value at one place changes the map at that key only.
pub proof fn lemma_update_value<K: OrdKey, V>(ks: Seq<K::V>, vs: Seq<V>, v: V, i: int)
    requires
        ks.len() == vs.len(),
        sorted::<K>(ks),
        0 <= i < ks.len(),
    ensures
        seq_map(ks, vs.update(i, v)) == seq_map(ks, vs).insert(ks[i], v),
{
    let m1 = seq_map(ks, vs.update(i, v));
    let m2 = seq_map(ks, vs).insert(ks[i], v);
    assert forall|x: K::V| m1.dom().contains(x) implies m1[x] == m2[x] by {
        let j = ks.index_of(x);
        lemma_sorted_index_of::<K>(ks, j);
        lemma_sorted_index_of::<K>(ks, i);
    }
    assert(ks.contains(ks[i]));
    assert(m1 =~= m2);
}

/// Taking one place out keeps the order, and the map loses that entry.
pub proof fn lemma_remove_at<K: OrdKey, V>(ks: Seq<K::V>, vs: Seq<V>, i: int)
    requires
        ks.len() == vs.len(),
        sorted::<K>(ks),
        0 <= i < ks.len(),
    ensures
        sorted::<K>(ks.remove(i)),
        seq_map(ks.remove(i), vs.remove(i)) == seq_map(ks, vs).remove(ks[i]),
        ks.remove(i) == remove_key::<K>(ks, ks[i]),
{
    lemma_place_of_member::<K>(ks, i);
    lemma_sorted_distinct::<K>(ks);
    let ks2 = ks.remove(i);
    let vs2 = vs.remove(i);
    assert forall|a: int, b: int| 0 <= a < b < ks2.len() implies K::before(
        #[trigger] ks2[a],
        #[trigger] ks2[b],
    ) by {
        let a0 = if a < i { a } else { a + 1 };
        let b0 = if b < i { b } else { b + 1 };
        assert(ks2[a] == ks[a0]);
        assert(ks2[b] == ks[b0]);
    }
    let m1 = seq_map(ks2, vs2);
    let m2 = seq_map(ks, vs).remove(ks[i]);
    assert forall|x: K::V| m1.dom().contains(x) <==> m2.dom().contains(x) by {
        if ks2.contains(x) {
            let j = ks2.index_of(x);
            if j < i {
                assert(ks[j] == x);
            } else {
                assert(ks[j + 1] == x);
            }
        }
        if ks.contains(x) && x != ks[i] {
            let j = ks.index_of(x);
            if j < i {
                assert(ks2[j] == x);
            } else {
                assert(ks2[j - 1] == x);
            }
        }
    }
    assert forall|x: K::V| m1.dom().contains(x) implies m1[x] == m2[x] by {
        let j = ks2.index_of(x);
        lemma_sorted_index_of::<K>(ks2, j);
        if j < i {
            lemma_sorted_index_of::<K>(ks, j);
        } else {
            lemma_sorted_index_of::<K>(ks, j + 1);
        }
    }
    assert(m1 =~= m2);
    assert(ks.contains(ks[i]));
}

/// What `insert_key` makes of a sorted sequence.
pub proof fn lemma_insert_key<K: OrdKey>(s: Seq<K::V>, k: K::V)
    requires
        sorted::<K>(s),
        exists|i: int| is_place::<K>(s, k, i),
    ensures
        sorted::<K>(insert_key::<K>(s, k)),
        forall|x: K::V| insert_key::<K>(s, k).contains(x) <==> (x == k || s.contains(x)),
{
    let i = place::<K>(s, k);
    let t = insert_key::<K>(s, k);
    if !s.contains(k) {
        lemma_insert_new::<K, ()>(s, Seq::new(s.len(), |j: int| ()), k, (), i);
        assert forall|x: K::V| t.contains(x) <==> (x == k || s.contains(x)) by {
            if t.contains(x) {
                let j = t.index_of(x);
                if j < i {
                    assert(s[j] == x);
                } else if j > i {
                    assert(s[j - 1] == x);
                }
            }
            if s.contains(x) {
                let j = s.index_of(x);
                if j < i {
                    assert(t[j] == x);
                } else {
                    assert(t[j + 1] == x);
                }
            }
            if x == k {
                assert(t[i] == x);
            }
        }
    }
}

/// What `remove_key` makes of a sorted sequence.
pub proof fn lemma_remove_key<K: OrdKey>(s: Seq<K::V>, k: K::V)
    requires
        sorted::<K>(s),
    ensures
        sorted::<K>(remove_key::<K>(s, k)),
        forall|x: K::V| remove_key::<K>(s, k).contains(x) <==> (x != k && s.contains(x)),
{
    let t = remove_key::<K>(s, k);
    if s.contains(k) {
        let i = s.index_of(k);
        lemma_place_of_member::<K>(s, i);
        lemma_remove_at::<K, ()>(s, Seq::new(s.len(), |j: int| ()), i);
        lemma_sorted_distinct::<K>(s);
        assert forall|x: K::V| t.contains(x) <==> (x != k && s.contains(x)) by {
            if t.contains(x) {
                let j = t.index_of(x);
                if j < i {
                    assert(s[j] == x);
                } else {
                    assert(s[j + 1] == x);
                }
            }
            if s.contains(x) && x != k {
                let j = s.index_of(x);
                if j < i {
                    assert(t[j] == x);
                } else {
                    assert(t[j - 1] == x);
                }
            }
        }
    }
}

/// Two sorted sequences that hold the same keys are the same sequence.
pub proof fn lemma_sorted_same_keys<K: OrdKey>(s: Seq<K::V>, t: Seq<K::V>)
    requires
        sorted::<K>(s),
        sorted::<K>(t),
        forall|k: K::V| s.contains(k) <==> t.contains(k),
    ensures
        s == t,
    decreases s.len(),
{
    if s.len() == 0 {
        if t.len() > 0 {
            assert(t.contains(t[0]));
        }
        assert(s =~= t);
    } else {
        let a = s.last();
        assert(s.contains(a));
        assert(t.len() > 0);
        let b = t.last();
        assert(t.contains(b));
        // the two greatest keys are the same key
        let i = t.index_of(a);
        let j = s.index_of(b);
        assert(t[i] == a && s[j] == b);
        K::lemma_order(a, b, a);
        if i < t.len() - 1 {
            assert(K::before(t[i], t[t.len() - 1]));
        }
        if j < s.len() - 1 {
            assert(K::before(s[j], s[s.len() - 1]));
        }
        assert(a == b);
        let s2 = s.drop_last();
        let t2 = t.drop_last();
        assert forall|k: K::V| s2.contains(k) <==> t2.contains(k) by {
            K::lemma_order(k, a, k);
            if s2.contains(k) {
                let x = s2.index_of(k);
                assert(s[x] == k);
                assert(K::before(s[x], s[s.len() - 1]));
                assert(s.contains(k));
                let y = t.index_of(k);
                assert(t[y] == k);
                assert(t2[y] == k);
            }
            if t2.contains(k) {
                let x = t2.index_of(k);
                assert(t[x] == k);
                assert(K::before(t[x], t[t.len() - 1]));
                assert(t.contains(k));
                let y = s.index_of(k);
                assert(s[y] == k);
                assert(s2[y] == k);
            }
        }
        assert forall|x: int, y: int| 0 <= x < y < s2.len() implies K::before(
            #[trigger] s2[x],
            #[trigger] s2[y],
        ) by {
            assert(K::before(s[x], s[y]));
        }
        assert forall|x: int, y: int| 0 <= x < y < t2.len() implies K::before(
            #[trigger] t2[x],
            #[trigger] t2[y],
        ) by {
            assert(K::before(t[x], t[y]));
        }
        lemma_sorted_same_keys::<K>(s2, t2);
        assert(s =~= s2.push(a));
        assert(t =~= t2.push(b));
    }
}

/// An ordered map from keys of type `K` to values of type `V`.
#[derive(Clone, Debug)]
pub struct MapxOrd<K, V> {
    keys: Vec<K>,
    vals: Vec<V>,
}

impl<K: OrdKey, V> MapxOrd<K, V> {
    /// The keys, in order.
    pub closed spec fn keys(&self) -> Seq<K::V> {
        Seq::new(self.keys@.len(), |i: int| self.keys@[i]@)
    }

    /// The values, each at the place of its key.
    pub closed spec fn vals(&self) -> Seq<V> {
        self.vals@
    }

    /// Keys and values pair up, and the keys strictly increase.
    pub open spec fn wf(&self) -> bool {
        &&& self.keys().len() == self.vals().len()
        &&& sorted::<K>(self.keys())
    }

    /// The map as a mathematical map.
    pub open spec fn view(&self) -> Map<K::V, V> {
        seq_map(self.keys(), self.vals())
    }

    /// The entry at place `i` is an entry of the map.
    pub proof fn lemma_entry(&self, i: int)
        requires
            self.wf(),
            0 <= i < self.keys().len(),
        ensures
            self@.dom().contains(self.keys()[i]),
            self@[self.keys()[i]] == self.vals()[i],
    {
        lemma_sorted_index_of::<K>(self.keys(), i);
    }

    /// An empty map.
    pub fn new() -> (r: Self)
        ensures
            r.wf(),
            r.keys() == Seq::<K::V>::empty(),
            r.vals() == Seq::<V>::empty(),
            r@ == Map::<K::V, V>::empty(),
    {
        let r = MapxOrd { keys: Vec::new(), vals: Vec::new() };
        assert(r.keys() =~= Seq::<K::V>::empty());
        assert(r@ =~= Map::<K::V, V>::empty());
        r
    }

    /// Number of entries.
    pub fn len(&self) -> (n: usize)
        requires
            self.wf(),
        ensures
            n == self.keys().len(),
    {
        self.keys.len()
    }

    /// Whether the map has no entry.
    pub fn is_empty(&self) -> (b: bool)
        requires
            self.wf(),
        ensures
            b == (self.keys().len() == 0),
    {
        self.keys.len() == 0
    }

    /// The key at place `i`.
    pub fn key_at(&self, i: usize) -> (k: &K)
        requires
            self.wf(),
            i < self.keys().len(),
        ensures
            k@ == self.keys()[i as int],
    {
        &self.keys[i]
    }

    /// The value at place `i`.
    pub fn value_at(&self, i: usize) -> (v: &V)
        requires
            self.wf(),
            i < self.keys().len(),
        ensures
            *v == self.vals()[i as int],
    {
        &self.vals[i]
    }

    /// The value at place `i`, to be changed in place.
    pub fn value_mut(&mut self, i: usize) -> (v: &mut V)
        requires
            old(self).wf(),
            i < old(self).keys().len(),
        ensures
            *v == old(self).vals()[i as int],
            final(self).keys() == old(self).keys(),
            final(self).vals() == old(self).vals().update(i as int, *final(v)),
    {
        &mut self.vals[i]
    }

    /// The place of `k`: the number of keys that come before it.
    pub fn lower_bound(&self, k: &K) -> (i: usize)
        requires
            self.wf(),
        ensures
            is_place::<K>(self.keys(), k@, i as int),
            i as int == place::<K>(self.keys(), k@),
    {
        let mut lo: usize = 0;
        let mut hi: usize = self.keys.len();
        while lo < hi
            invariant
                self.wf(),
                0 <= lo <= hi <= self.keys().len(),
                self.keys().len() == self.keys@.len(),
                forall|j: int| 0 <= j < lo ==> K::before(#[trigger] self.keys()[j], k@),
                forall|j: int| hi <= j < self.keys().len() ==> !K::before(#[trigger] self.keys()[j],
                    k@),
            decreases hi - lo,
        {
            let mid: usize = lo + (hi - lo) / 2;
            let r = self.keys[mid].rank(k);
            assert(self.keys@[mid as int]@ == self.keys()[mid as int]);
            match r {
                Rank::Before => {
                    proof {
                        assert forall|j: int| 0 <= j < mid + 1 implies K::before(
                            #[trigger] self.keys()[j],
                            k@,
                        ) by {
                            if j < mid {
                                K::lemma_order(self.keys()[j], self.keys()[mid as int], k@);
                            }
                        }
                    }
                    lo = mid + 1;
                },
                _ => {
                    proof {
                        assert forall|j: int| mid <= j < self.keys().len() implies !K::before(
                            #[trigger] self.keys()[j],
                            k@,
                        ) by {
                            K::lemma_order(self.keys()[mid as int], k@, self.keys()[mid as int]);
                            if j > mid {
                                K::lemma_order(self.keys()[mid as int], self.keys()[j], k@);
                            }
                        }
                    }
                    hi = mid;
                },
            }
        }
        proof {
            lemma_place_unique::<K>(self.keys(), k@, lo as int);
        }
        lo
    }

    /// The number of keys that do not come after `k`.
    pub fn upper_bound(&self, k: &K) -> (i: usize)
        requires
            self.wf(),
        ensures
            i <= self.keys().len(),
            forall|j: int| 0 <= j < i ==> !K::before(k@, #[trigger] self.keys()[j]),
            forall|j: int| i <= j < self.keys().len() ==> K::before(k@, #[trigger] self.keys()[j]),
    {
        let i = self.lower_bound(k);
        if i < self.keys.len() {
            let r = self.keys[i].rank(k);
            assert(self.keys@[i as int]@ == self.keys()[i as int]);
            proof {
                assert forall|j: int| 0 <= j < i implies !K::before(k@,
                    #[trigger] self.keys()[j]) by {
                    K::lemma_order(k@, self.keys()[j], k@);
                }
            }
            match r {
                Rank::Same => {
                    proof {
                        K::lemma_order(k@, k@, k@);
                    }
                    i + 1
                },
                _ => {
                    proof {
                        lemma_place_of_stranger::<K>(self.keys(), k@, i as int);
                    }
                    i
                },
            }
        } else {
            proof {
                assert forall|j: int| 0 <= j < i implies !K::before(k@,
                    #[trigger] self.keys()[j]) by {
                    K::lemma_order(k@, self.keys()[j], k@);
                }
            }
            i
        }
    }

    /// The place at which `k` stands, if it is a key of the map.
    pub fn find(&self, k: &K) -> (r: Option<usize>)
        requires
            self.wf(),
        ensures
            match r {
                Some(i) => i < self.keys().len() && self.keys()[i as int] == k@ && i as int
                    == place::<K>(self.keys(), k@) && self@.dom().contains(k@) && self@[k@]
                    == self.vals()[i as int],
                None => !self.keys().contains(k@) && !self@.dom().contains(k@),
            },
    {
        let i = self.lower_bound(k);
        if i < self.keys.len() {
            let r = self.keys[i].rank(k);
            assert(self.keys@[i as int]@ == self.keys()[i as int]);
            match r {
                Rank::Same => {
                    proof {
                        self.lemma_entry(i as int);
                    }
                    Some(i)
                },
                _ => {
                    proof {
                        lemma_place_of_stranger::<K>(self.keys(), k@, i as int);
                    }
                    None
                },
            }
        } else {
            proof {
                lemma_place_of_stranger::<K>(self.keys(), k@, i as int);
            }
            None
        }
    }

    /// The value that `k` maps to, if any.
    pub fn get(&self, k: &K) -> (r: Option<&V>)
        requires
            self.wf(),
        ensures
            match r {
                Some(v) => self@.dom().contains(k@) && *v == self@[k@],
                None => !self@.dom().contains(k@),
            },
    {
        match self.find(k) {
            Some(i) => Some(&self.vals[i]),
            None => None,
        }
    }

    /// Whether `k` is a key of the map.
    pub fn contains_key(&self, k: &K) -> (b: bool)
        requires
            self.wf(),
        ensures
            b == self@.dom().contains(k@),
            b == self.keys().contains(k@),
    {
        self.find(k).is_some()
    }

    /// Maps `k` to `v`, and returns what `k` mapped to before.
    pub fn insert(&mut self, k: K, v: V) -> (prev: Option<V>)
        requires
            old(self).wf(),
        ensures
            final(self).wf(),
            final(self)@ == old(self)@.insert(k@, v),
            final(self).keys() == insert_key::<K>(old(self).keys(), k@),
            is_place::<K>(old(self).keys(), k@, place::<K>(old(self).keys(), k@)),
            old(self)@.dom().contains(k@) ==> place::<K>(old(self).keys(), k@)
                < old(self).keys().len()
                && old(self).keys()[place::<K>(old(self).keys(), k@)] == k@ && old(self)@[k@]
                == old(self).vals()[place::<K>(old(self).keys(), k@)],
            prev == (if old(self)@.dom().contains(k@) {
                Some(old(self)@[k@])
            } else {
                None
            }),
            old(self)@.dom().contains(k@) ==> final(self).vals() == old(self).vals().update(
                place::<K>(old(self).keys(), k@),
                v,
            ),
            !old(self)@.dom().contains(k@) ==> final(self).vals() == old(self).vals().insert(
                place::<K>(old(self).keys(), k@),
                v,
            ),
    {
        match self.find(&k) {
            Some(i) => {
                proof {
                    lemma_update_value::<K, V>(self.keys(), self.vals(), v, i as int);
                    lemma_place_of_member::<K>(self.keys(), i as int);
                    assert(is_place::<K>(self.keys(), k@, i as int)) by {
                        assert forall|j: int| i <= j < self.keys().len() implies !K::before(
                            #[trigger] self.keys()[j],
                            k@,
                        ) by {
                            K::lemma_order(self.keys()[i as int], self.keys()[j],
                                self.keys()[i as int]);
                        }
                    }
                }
                self.vals.push(v);
                let prev = self.vals.swap_remove(i);
                assert(self.vals@ =~= old(self).vals@.update(i as int, v));
                assert(self.keys() =~= old(self).keys());
                Some(prev)
            },
            None => {
                let i = self.lower_bound(&k);
                proof {
                    lemma_insert_new::<K, V>(self.keys(), self.vals(), k@, v, i as int);
                }
                self.keys.insert(i, k);
                self.vals.insert(i, v);
                assert(self.keys() =~= old(self).keys().insert(i as int, k@));
                None
            },
        }
    }

    /// Takes `k` out of the map, and returns what it mapped to.
    pub fn remove(&mut self, k: &K) -> (prev: Option<V>)
        requires
            old(self).wf(),
        ensures
            final(self).wf(),
            final(self)@ == old(self)@.remove(k@),
            final(self).keys() == remove_key::<K>(old(self).keys(), k@),
            is_place::<K>(old(self).keys(), k@, place::<K>(old(self).keys(), k@)),
            old(self)@.dom().contains(k@) ==> place::<K>(old(self).keys(), k@)
                < old(self).keys().len()
                && old(self).keys()[place::<K>(old(self).keys(), k@)] == k@ && old(self)@[k@]
                == old(self).vals()[place::<K>(old(self).keys(), k@)],
            prev == (if old(self)@.dom().contains(k@) {
                Some(old(self)@[k@])
            } else {
                None
            }),
            old(self)@.dom().contains(k@) ==> final(self).vals() == old(self).vals().remove(
                place::<K>(old(self).keys(), k@),
            ),
            !old(self)@.dom().contains(k@) ==> final(self).vals() == old(self).vals(),
    {
        match self.find(k) {
            Some(i) => {
                proof {
                    lemma_remove_at::<K, V>(self.keys(), self.vals(), i as int);
                    assert(is_place::<K>(self.keys(), k@, i as int)) by {
                        assert forall|j: int| i <= j < self.keys().len() implies !K::before(
                            #[trigger] self.keys()[j],
                            k@,
                        ) by {
                            K::lemma_order(self.keys()[i as int], self.keys()[j],
                                self.keys()[i as int]);
                        }
                    }
                }
                self.keys.remove(i);
                let prev = self.vals.remove(i);
                assert(self.keys() =~= old(self).keys().remove(i as int));
                Some(prev)
            },
            None => {
                let _ = self.lower_bound(k);
                assert(self@ =~= old(self)@.remove(k@));
                None
            },
        }
    }

    /// The keys, in order, in a vector of their own.
    pub fn key_list(&self) -> (r: Vec<K>)
        requires
            self.wf(),
        ensures
            r@.len() == self.keys().len(),
            forall|i: int| 0 <= i < r@.len() ==> (#[trigger] r@[i])@ == self.keys()[i],
    {
        let mut r: Vec<K> = Vec::new();
        let mut i: usize = 0;
        while i < self.keys.len()
            invariant
                i <= self.keys@.len(),
                self.keys@.len() == self.keys().len(),
                r@.len() == i,
                forall|j: int| 0 <= j < i ==> (#[trigger] r@[j])@ == self.keys()[j],
            decreases self.keys@.len() - i,
        {
            let k = self.keys[i].dup();
            assert(self.keys@[i as int]@ == self.keys()[i as int]);
            r.push(k);
            i = i + 1;
        }
        r
    }

    /// Keeps the first `n` entries and drops the rest.
    pub fn truncate(&mut self, n: usize)
        requires
            old(self).wf(),
            n <= old(self).keys().len(),
        ensures
            final(self).wf(),
            final(self).keys() == old(self).keys().subrange(0, n as int),
            final(self).vals() == old(self).vals().subrange(0, n as int),
    {
        self.keys.truncate(n);
        self.vals.truncate(n);
        assert(self.keys() =~= old(self).keys().subrange(0, n as int));
    }

    /// Drops the first `n` entries and keeps the rest.
    pub fn drop_front(&mut self, n: usize)
        requires
            old(self).wf(),
            n <= old(self).keys().len(),
        ensures
            final(self).wf(),
            final(self).keys() == old(self).keys().skip(n as int),
            final(self).vals() == old(self).vals().skip(n as int),
    {
        let ks = self.keys.split_off(n);
        let vs = self.vals.split_off(n);
        self.keys = ks;
        self.vals = vs;
        assert(self.keys() =~= old(self).keys().skip(n as int));
        assert(self.vals() =~= old(self).vals().skip(n as int));
    }

    /// Takes every entry out of the map.
    pub fn clear(&mut self)
        ensures
            final(self).wf(),
            final(self).keys() == Seq::<K::V>::empty(),
            final(self).vals() == Seq::<V>::empty(),
            final(self)@ == Map::<K::V, V>::empty(),
    {
        self.keys.clear();
        self.vals.clear();
        assert(self.keys() =~= Seq::<K::V>::empty());
        assert(self@ =~= Map::<K::V, V>::empty());
    }
}

} // verus!
