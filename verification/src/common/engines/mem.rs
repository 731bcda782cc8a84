//! A backend in memory: eight ordered areas of stored keys, and the meta
//! cells of the allocators.
//!
//! Every map of the backend is told apart by its prefix. The backend keeps a
//! key of a map behind the map's prefix, in the area that the prefix names,
//! and answers for each map as if it were kept alone.

use vstd::prelude::*;
use crate::basic::mapx_ord::{MapxOrd, sorted};
use crate::basic::ord_key::{copy_bytes, lemma_bytes_lt_asymmetric, OrdKey};
use crate::common::ende::{
    be_bytes, be_value, lemma_be_value_of_bytes, u64_from_be_bytes, u64_to_be_bytes,
};
use crate::common::engines::layout::{
    alloc_from_cell, area_idx, DATA_SET_NUM, full_key, high_bytes, initial_cell, INITIAL_ID,
    INITIAL_PREFIX, law_lower_bound, law_upper_bound, law_upper_sentinel, lemma_between_has_prefix,
    lemma_prefix_keeps_order, META_KEY_BRANCH_ID, META_KEY_MAX_KEYLEN, META_KEY_PREFIX_ALLOCATOR,
    META_KEY_VERSION_ID, observe_keylen, range_lower, range_upper, strip_prefix,
};
use crate::common::{KeyBound, PreBytes, within};

verus! {

/// The area that a prefix names.
pub open spec fn area_of(prefix: Seq<u8>) -> int {
    prefix[0] as int % 8
}

/// What stands behind one prefix in an area of stored keys.
pub open spec fn table_of(area: Map<Seq<u8>, Vec<u8>>, prefix: Seq<u8>) -> Map<Seq<u8>, Seq<u8>> {
    Map::new(|k: Seq<u8>| area.dom().contains(prefix + k), |k: Seq<u8>| area[prefix + k]@)
}

/// A key stands behind one prefix only, and behind it once.
pub proof fn lemma_stored_key_parts(p: Seq<u8>, a: Seq<u8>, q: Seq<u8>, b: Seq<u8>)
    requires
        p.len() == q.len(),
        p + a == q + b,
    ensures
        p == q,
        a == b,
{
    assert((p + a).subrange(0, p.len() as int) =~= p);
    assert((q + b).subrange(0, q.len() as int) =~= q);
    assert((p + a).skip(p.len() as int) =~= a);
    assert((q + b).skip(q.len() as int) =~= b);
}

/// A backend in memory.
#[derive(Clone, Debug)]
pub struct MemEngine {
    meta: MapxOrd<Vec<u8>, Vec<u8>>,
    areas: Vec<MapxOrd<Vec<u8>, Vec<u8>>>,
    max_keylen: usize,
}

impl MemEngine {
    /// The map with the given prefix.
    pub closed spec fn table(&self, prefix: Seq<u8>) -> Map<Seq<u8>, Seq<u8>> {
        table_of(self.areas@[area_of(prefix)]@, prefix)
    }

    /// What the meta cell under `key` holds.
    pub closed spec fn meta_cell(&self, key: Seq<u8>) -> Option<Seq<u8>> {
        if self.meta@.dom().contains(key) {
            Some(self.meta@[key]@)
        } else {
            None
        }
    }

    /// The greatest length of a key ever stored.
    pub closed spec fn max_keylen(&self) -> nat {
        self.max_keylen as nat
    }

    /// The number that the counter cell under `key` holds.
    pub open spec fn counter(&self, key: Seq<u8>) -> int {
        be_value(self.meta_cell(key).unwrap())
    }

    /// The next prefix that will be handed out.
    pub open spec fn next_prefix(&self) -> int {
        self.counter(META_KEY_PREFIX_ALLOCATOR@)
    }

    /// The next branch identifier that will be handed out.
    pub open spec fn next_branch_id(&self) -> int {
        self.counter(META_KEY_BRANCH_ID@)
    }

    /// The next version identifier that will be handed out.
    pub open spec fn next_version_id(&self) -> int {
        self.counter(META_KEY_VERSION_ID@)
    }

    /// The areas are in order; every stored key lies in the area of its
    /// prefix, under a prefix that was handed out or is reserved, and is no
    /// longer than the greatest length observed; and the counter cells hold
    /// eight bytes each.
    pub closed spec fn wf(&self) -> bool {
        &&& self.meta.wf()
        &&& self.areas@.len() == DATA_SET_NUM
        &&& forall|i: int| 0 <= i < self.areas@.len() ==> (#[trigger] self.areas@[i]).wf()
        &&& forall|i: int, k: Seq<u8>|
            0 <= i < self.areas@.len() && #[trigger] self.areas@[i]@.dom().contains(k) ==> k.len()
                >= 8 && area_of(k) == i && k.len() - 8 <= self.max_keylen
        &&& forall|i: int, k: Seq<u8>|
            0 <= i < self.areas@.len() && #[trigger] self.areas@[i]@.dom().contains(k) ==> be_value(
                k.subrange(0, 8),
            ) < self.next_prefix()
        &&& forall|k: Seq<u8>| #[trigger]
            self.meta@.dom().contains(k) && k.len() == 8 ==> be_value(k) < self.next_prefix()
        &&& self.is_counter(META_KEY_PREFIX_ALLOCATOR@)
        &&& self.is_counter(META_KEY_BRANCH_ID@)
        &&& self.is_counter(META_KEY_VERSION_ID@)
        &&& self.meta_cell(META_KEY_MAX_KEYLEN@) == Some(be_bytes(self.max_keylen as u64))
    }

    spec fn is_counter(&self, key: Seq<u8>) -> bool {
        self.meta@.dom().contains(key) && self.meta@[key]@.len() == 8
    }

    /// Whether the prefix is in use: handed out already, or reserved.
    pub open spec fn knows(&self, prefix: Seq<u8>) -> bool {
        prefix.len() == 8 && be_value(prefix) < self.next_prefix()
    }

    /// A prefix that is not in use has no entry and no length cell.
    pub proof fn lemma_unknown_prefix_is_empty(&self, prefix: Seq<u8>)
        requires
            self.wf(),
            prefix.len() == 8,
            !self.knows(prefix),
        ensures
            self.table(prefix) == Map::<Seq<u8>, Seq<u8>>::empty(),
            self.meta_cell(prefix).is_none(),
    {
        assert forall|k: Seq<u8>| !self.table(prefix).dom().contains(k) by {
            if self.table(prefix).dom().contains(k) {
                let i = area_of(prefix);
                assert(self.areas@[i]@.dom().contains(prefix + k));
                assert((prefix + k).subrange(0, 8) =~= prefix);
            }
        }
        assert(self.table(prefix) =~= Map::<Seq<u8>, Seq<u8>>::empty());
    }

    /// No key of a map is longer than the greatest length observed.
    pub proof fn lemma_keys_are_short(&self, prefix: Seq<u8>, key: Seq<u8>)
        requires
            self.wf(),
            prefix.len() == 8,
            self.table(prefix).dom().contains(key),
        ensures
            key.len() <= self.max_keylen(),
    {
        let i = area_of(prefix);
        assert(self.areas@[i]@.dom().contains(prefix + key));
    }

    /// A backend that holds no key, with its counters at their first values.
    pub fn new() -> (r: Self)
        ensures
            r.wf(),
            forall|prefix: Seq<u8>| #[trigger] r.table(prefix) == Map::<Seq<u8>, Seq<u8>>::empty(),
            r.next_prefix() == INITIAL_PREFIX,
            r.next_branch_id() == INITIAL_ID,
            r.next_version_id() == INITIAL_ID,
            r.max_keylen() == 0,
    {
        let mut areas: Vec<MapxOrd<Vec<u8>, Vec<u8>>> = Vec::new();
        let mut i: usize = 0;
        while i < DATA_SET_NUM
            invariant
                i <= DATA_SET_NUM,
                areas@.len() == i,
                forall|j: int|
                    0 <= j < i ==> (#[trigger] areas@[j]).wf() && areas@[j]@ == Map::<
                        Seq<u8>,
                        Vec<u8>,
                    >::empty(),
            decreases DATA_SET_NUM - i,
        {
            areas.push(MapxOrd::new());
            i = i + 1;
        }
        let mut meta: MapxOrd<Vec<u8>, Vec<u8>> = MapxOrd::new();
        meta.insert(copy_bytes(META_KEY_MAX_KEYLEN.as_slice()),
            copy_bytes(initial_cell(0).as_slice()));
        meta.insert(
            copy_bytes(META_KEY_BRANCH_ID.as_slice()),
            copy_bytes(initial_cell(INITIAL_ID).as_slice()),
        );
        meta.insert(
            copy_bytes(META_KEY_VERSION_ID.as_slice()),
            copy_bytes(initial_cell(INITIAL_ID).as_slice()),
        );
        meta.insert(
            copy_bytes(META_KEY_PREFIX_ALLOCATOR.as_slice()),
            copy_bytes(initial_cell(INITIAL_PREFIX).as_slice()),
        );
        let r = MemEngine { meta, areas, max_keylen: 0 };
        proof {
            lemma_be_value_of_bytes(INITIAL_ID);
            lemma_be_value_of_bytes(INITIAL_PREFIX);
            assert(META_KEY_MAX_KEYLEN@[0] == 255u8);
            assert(META_KEY_BRANCH_ID@[0] == 254u8);
            assert(META_KEY_VERSION_ID@[0] == 253u8);
            assert(META_KEY_PREFIX_ALLOCATOR@[0] == 0u8);
            assert forall|prefix: Seq<u8>| #[trigger]
                r.table(prefix) == Map::<Seq<u8>, Seq<u8>>::empty() by {
                assert(r.table(prefix) =~= Map::<Seq<u8>, Seq<u8>>::empty());
            }
        }
        r
    }

    /// Whether the prefix is in use: handed out already, or reserved.
    pub fn knows_prefix(&self, prefix: PreBytes) -> (r: bool)
        requires
            self.wf(),
        ensures
            r == self.knows(prefix@),
    {
        let held = self.meta.get(&copy_bytes(META_KEY_PREFIX_ALLOCATOR.as_slice())).unwrap();
        let cell: [u8; 8] = [held[0], held[1], held[2], held[3], held[4], held[5], held[6],
            held[7]];
        assert(cell@ =~= held@);
        u64_from_be_bytes(&prefix) < u64_from_be_bytes(&cell)
    }

    /// Number of areas.
    pub fn area_count(&self) -> (r: usize)
        ensures
            r == DATA_SET_NUM,
    {
        DATA_SET_NUM
    }

    /// Makes what was written last. In memory there is nothing to do.
    pub fn flush(&self) {
    }

    /// What `key` maps to in the map with the given prefix.
    pub fn get(&self, meta_prefix: PreBytes, key: &[u8]) -> (r: Option<Vec<u8>>)
        requires
            self.wf(),
        ensures
            match r {
                Some(v) => self.table(meta_prefix@).dom().contains(key@) && self.table(
                    meta_prefix@,
                )[key@] == v@,
                None => !self.table(meta_prefix@).dom().contains(key@),
            },
    {
        let i = area_idx(&meta_prefix);
        let k = full_key(&meta_prefix, key);
        match self.areas[i].get(&k) {
            Some(v) => Some(copy_bytes(v.as_slice())),
            None => None,
        }
    }

    /// Maps `key` to `value` in the map with the given prefix, and returns
    /// what `key` mapped to before. No other map changes. The prefix has to
    /// be in use.
    pub fn insert(&mut self, meta_prefix: PreBytes, key: &[u8], value: &[u8])
        -> (r: Option<Vec<u8>>)
        requires
            old(self).wf(),
            old(self).knows(meta_prefix@),
        ensures
            final(self).wf(),
            final(self).table(meta_prefix@) == old(self).table(meta_prefix@).insert(key@, value@),
            forall|q: Seq<u8>|
                q.len() == 8 && q != meta_prefix@ ==> #[trigger] final(self).table(q) == old(
                    self,
                ).table(q),
            match r {
                Some(v) => old(self).table(meta_prefix@).dom().contains(key@) && old(self).table(
                    meta_prefix@,
                )[key@] == v@,
                None => !old(self).table(meta_prefix@).dom().contains(key@),
            },
            final(self).max_keylen() == (if key@.len() > old(self).max_keylen() {
                key@.len()
            } else {
                old(self).max_keylen()
            }),
            forall|m: Seq<u8>|
                m != META_KEY_MAX_KEYLEN@ ==> #[trigger] final(self).meta_cell(m)
                    == old(self).meta_cell(m),
            final(self).next_prefix() == old(self).next_prefix(),
            final(self).next_branch_id() == old(self).next_branch_id(),
            final(self).next_version_id() == old(self).next_version_id(),
    {
        let i = area_idx(&meta_prefix);
        let k = full_key(&meta_prefix, key);
        let seen = self.max_keylen;
        let longest = observe_keylen(seen, key.len());
        if longest != seen {
            self.max_keylen = longest;
            self.meta.insert(
                copy_bytes(META_KEY_MAX_KEYLEN.as_slice()),
                copy_bytes(u64_to_be_bytes(longest as u64).as_slice()),
            );
        }
        proof {
            assert(META_KEY_MAX_KEYLEN@[0] == 255u8);
            assert(META_KEY_BRANCH_ID@[0] == 254u8);
            assert(META_KEY_VERSION_ID@[0] == 253u8);
            assert(META_KEY_PREFIX_ALLOCATOR@[0] == 0u8);
        }
        let ghost area0 = self.areas@[i as int]@;
        let area = &mut self.areas[i];
        let r = area.insert(k, copy_bytes(value));
        proof {
            let p = meta_prefix@;
            let area1 = self.areas@[i as int]@;
            assert(area1 == area0.insert(p + key@, self.areas@[i as int]@[p + key@]));
            assert(self.table(p) =~= old(self).table(p).insert(key@, value@)) by {
                assert forall|x: Seq<u8>| x != key@ implies #[trigger] p.add(x) != p + key@ by {
                    if p + x == p + key@ {
                        lemma_stored_key_parts(p, x, p, key@);
                    }
                }
            }
            assert forall|q: Seq<u8>| q.len() == 8 && q != p implies #[trigger] self.table(q)
                == old(self).table(q) by {
                assert forall|x: Seq<u8>| #[trigger] q.add(x) != p + key@ by {
                    if q + x == p + key@ {
                        lemma_stored_key_parts(q, x, p, key@);
                    }
                }
                assert(self.table(q) =~= old(self).table(q));
            }
            assert forall|j: int, x: Seq<u8>|
                0 <= j < self.areas@.len() && #[trigger] self.areas@[j]@.dom().contains(x)
                    implies x.len()
                >= 8 && area_of(x) == j && x.len() - 8 <= self.max_keylen by {
                if j == i && x == p + key@ {
                    assert((p + key@)[0] == p[0]);
                } else {
                    assert(old(self).areas@[j]@.dom().contains(x));
                }
            }
            assert forall|j: int, x: Seq<u8>|
                0 <= j < self.areas@.len() && #[trigger] self.areas@[j]@.dom().contains(x)
                    implies be_value(
                x.subrange(0, 8),
            ) < self.next_prefix() by {
                if j == i && x == p + key@ {
                    assert((p + key@).subrange(0, 8) =~= p);
                } else {
                    assert(old(self).areas@[j]@.dom().contains(x));
                }
            }
            assert forall|k: Seq<u8>| #[trigger]
                self.meta@.dom().contains(k) && k.len() == 8 implies be_value(k)
                < self.next_prefix() by {
                assert(old(self).meta@.dom().contains(k));
            }
        }
        r
    }

    /// Takes `key` out of the map with the given prefix, and returns what it
    /// mapped to. No other map changes.
    pub fn remove(&mut self, meta_prefix: PreBytes, key: &[u8]) -> (r: Option<Vec<u8>>)
        requires
            old(self).wf(),
        ensures
            final(self).wf(),
            final(self).table(meta_prefix@) == old(self).table(meta_prefix@).remove(key@),
            forall|q: Seq<u8>|
                q.len() == 8 && q != meta_prefix@ ==> #[trigger] final(self).table(q) == old(
                    self,
                ).table(q),
            match r {
                Some(v) => old(self).table(meta_prefix@).dom().contains(key@) && old(self).table(
                    meta_prefix@,
                )[key@] == v@,
                None => !old(self).table(meta_prefix@).dom().contains(key@),
            },
            final(self).max_keylen() == old(self).max_keylen(),
            forall|m: Seq<u8>| #[trigger] final(self).meta_cell(m) == old(self).meta_cell(m),
            final(self).next_prefix() == old(self).next_prefix(),
            final(self).next_branch_id() == old(self).next_branch_id(),
            final(self).next_version_id() == old(self).next_version_id(),
    {
        let i = area_idx(&meta_prefix);
        let k = full_key(&meta_prefix, key);
        let area = &mut self.areas[i];
        let r = area.remove(&k);
        proof {
            let p = meta_prefix@;
            assert(self.table(p) =~= old(self).table(p).remove(key@)) by {
                assert forall|x: Seq<u8>| x != key@ implies #[trigger] p.add(x) != p + key@ by {
                    if p + x == p + key@ {
                        lemma_stored_key_parts(p, x, p, key@);
                    }
                }
            }
            assert forall|q: Seq<u8>| q.len() == 8 && q != p implies #[trigger] self.table(q)
                == old(self).table(q) by {
                assert forall|x: Seq<u8>| #[trigger] q.add(x) != p + key@ by {
                    if q + x == p + key@ {
                        lemma_stored_key_parts(q, x, p, key@);
                    }
                }
                assert(self.table(q) =~= old(self).table(q));
            }
            assert forall|j: int, x: Seq<u8>|
                0 <= j < self.areas@.len() && #[trigger] self.areas@[j]@.dom().contains(x)
                    implies x.len()
                >= 8 && area_of(x) == j && x.len() - 8 <= self.max_keylen by {
                assert(old(self).areas@[j]@.dom().contains(x));
            }
            assert forall|j: int, x: Seq<u8>|
                0 <= j < self.areas@.len() && #[trigger] self.areas@[j]@.dom().contains(x)
                    implies be_value(
                x.subrange(0, 8),
            ) < self.next_prefix() by {
                assert(old(self).areas@[j]@.dom().contains(x));
            }
        }
        r
    }

    // One step of the allocator whose counter cell lies under `key`.
    fn step(&mut self, key: &[u8; 1]) -> (r: Option<u64>)
        requires
            old(self).wf(),
            key@ == META_KEY_PREFIX_ALLOCATOR@ || key@ == META_KEY_BRANCH_ID@ || key@
                == META_KEY_VERSION_ID@,
        ensures
            final(self).wf(),
            match r {
                Some(id) => id == old(self).counter(key@) && final(self).counter(key@) == id + 1,
                None => old(self).counter(key@) == u64::MAX && final(self).counter(key@) == old(
                    self,
                ).counter(key@),
            },
            forall|other: Seq<u8>|
                other != key@ ==> #[trigger] final(self).meta_cell(other)
                    == old(self).meta_cell(other),
            forall|q: Seq<u8>| #[trigger] final(self).table(q) == old(self).table(q),
            final(self).max_keylen() == old(self).max_keylen(),
    {
        proof {
            assert(META_KEY_MAX_KEYLEN@[0] == 255u8);
            assert(META_KEY_BRANCH_ID@[0] == 254u8);
            assert(META_KEY_VERSION_ID@[0] == 253u8);
            assert(META_KEY_PREFIX_ALLOCATOR@[0] == 0u8);
        }
        let k = copy_bytes(key.as_slice());
        let held = self.meta.get(&k).unwrap();
        let cell: [u8; 8] = [held[0], held[1], held[2], held[3], held[4], held[5], held[6],
            held[7]];
        assert(cell@ =~= held@);
        match alloc_from_cell(&cell) {
            Some(step) => {
                proof {
                    lemma_be_value_of_bytes((step.0 + 1) as u64);
                }
                self.meta.insert(k, copy_bytes(step.1.as_slice()));
                proof {
                    assert forall|j: int, x: Seq<u8>|
                        0 <= j < self.areas@.len() && #[trigger] self.areas@[j]@.dom().contains(
                            x,
                        ) implies be_value(x.subrange(0, 8)) < self.next_prefix() by {
                        assert(old(self).areas@[j]@.dom().contains(x));
                    }
                    assert forall|m: Seq<u8>| #[trigger]
                        self.meta@.dom().contains(m) && m.len() == 8 implies be_value(m)
                        < self.next_prefix() by {
                        assert(old(self).meta@.dom().contains(m));
                    }
                }
                Some(step.0)
            },
            None => None,
        }
    }

    /// Hands out a prefix that no map has yet; nothing once the prefixes
    /// are used up. Prefixes grow and are not handed out again.
    pub fn alloc_prefix(&mut self) -> (r: Option<u64>)
        requires
            old(self).wf(),
        ensures
            final(self).wf(),
            match r {
                Some(id) => id == old(self).next_prefix() && final(self).next_prefix() == id + 1,
                None => old(self).next_prefix() == u64::MAX && final(self).next_prefix() == old(
                    self,
                ).next_prefix(),
            },
            final(self).next_branch_id() == old(self).next_branch_id(),
            final(self).next_version_id() == old(self).next_version_id(),
            forall|q: Seq<u8>| #[trigger] final(self).table(q) == old(self).table(q),
            forall|m: Seq<u8>|
                m.len() == 8 ==> #[trigger] final(self).meta_cell(m) == old(self).meta_cell(m),
            final(self).max_keylen() == old(self).max_keylen(),
    {
        proof {
            assert(META_KEY_BRANCH_ID@[0] == 254u8);
            assert(META_KEY_VERSION_ID@[0] == 253u8);
            assert(META_KEY_PREFIX_ALLOCATOR@[0] == 0u8);
        }
        self.step(&META_KEY_PREFIX_ALLOCATOR)
    }

    /// Hands out a branch identifier that no branch has yet.
    pub fn alloc_br_id(&mut self) -> (r: Option<u64>)
        requires
            old(self).wf(),
        ensures
            final(self).wf(),
            match r {
                Some(id) => id == old(self).next_branch_id() && final(self).next_branch_id() == id
                    + 1,
                None => old(self).next_branch_id() == u64::MAX && final(self).next_branch_id()
                    == old(self).next_branch_id(),
            },
            final(self).next_prefix() == old(self).next_prefix(),
            final(self).next_version_id() == old(self).next_version_id(),
            forall|q: Seq<u8>| #[trigger] final(self).table(q) == old(self).table(q),
            forall|m: Seq<u8>|
                m.len() == 8 ==> #[trigger] final(self).meta_cell(m) == old(self).meta_cell(m),
            final(self).max_keylen() == old(self).max_keylen(),
    {
        proof {
            assert(META_KEY_BRANCH_ID@[0] == 254u8);
            assert(META_KEY_VERSION_ID@[0] == 253u8);
            assert(META_KEY_PREFIX_ALLOCATOR@[0] == 0u8);
        }
        self.step(&META_KEY_BRANCH_ID)
    }

    /// Hands out a version identifier that no version has yet.
    pub fn alloc_ver_id(&mut self) -> (r: Option<u64>)
        requires
            old(self).wf(),
        ensures
            final(self).wf(),
            match r {
                Some(id) => id == old(self).next_version_id() && final(self).next_version_id()
                    == id + 1,
                None => old(self).next_version_id() == u64::MAX && final(self).next_version_id()
                    == old(self).next_version_id(),
            },
            final(self).next_prefix() == old(self).next_prefix(),
            final(self).next_branch_id() == old(self).next_branch_id(),
            forall|q: Seq<u8>| #[trigger] final(self).table(q) == old(self).table(q),
            forall|m: Seq<u8>|
                m.len() == 8 ==> #[trigger] final(self).meta_cell(m) == old(self).meta_cell(m),
            final(self).max_keylen() == old(self).max_keylen(),
    {
        proof {
            assert(META_KEY_BRANCH_ID@[0] == 254u8);
            assert(META_KEY_VERSION_ID@[0] == 253u8);
            assert(META_KEY_PREFIX_ALLOCATOR@[0] == 0u8);
        }
        self.step(&META_KEY_VERSION_ID)
    }

    /// The entries of the map with the given prefix whose keys lie within
    /// the bounds, in the order of their keys and without the prefix.
    #[verifier::loop_isolation(false)]
    pub fn range(&self, meta_prefix: PreBytes, lower: KeyBound<'_>, upper: KeyBound<'_>) -> (r: Vec<
        (Vec<u8>, Vec<u8>),
    >)
        requires
            self.wf(),
        ensures
            sorted::<Vec<u8>>(entry_keys(r@)),
            forall|j: int|
                0 <= j < r@.len() ==> self.table(meta_prefix@).dom().contains((#[trigger] r@[j]).0@)
                    && self.table(meta_prefix@)[r@[j].0@] == r@[j].1@ && within(
                    r@[j].0@,
                    lower,
                    upper,
                ),
            forall|k: Seq<u8>|
                self.table(meta_prefix@).dom().contains(k) && within(k, lower, upper)
                    ==> entry_keys(
                    r@,
                ).contains(k),
    {
        let i = area_idx(&meta_prefix);
        let area = &self.areas[i];
        let ghost p = meta_prefix@;
        let ghost keys = area.keys();
        let ghost top = high_bytes(self.max_keylen as nat);
        let first = range_lower(&meta_prefix, lower);
        let last = range_upper(&meta_prefix, upper, self.max_keylen);
        let lo = area.lower_bound(&first);
        let hi = match upper {
            KeyBound::Unbounded => area.upper_bound(&last),
            _ => area.lower_bound(&last),
        };
        // every stored key from `lo` up to `hi` is a key of this map within the bounds
        proof {
            assert forall|j: int| lo <= j < hi implies keys[j].len() >= 8 && keys[j].subrange(0, 8)
                == p && self.table(p).dom().contains(#[trigger] keys[j].skip(8)) && within(
                keys[j].skip(8),
                lower,
                upper,
            ) && self.table(p)[keys[j].skip(8)] == area.vals()[j]@ by {
                let sk = keys[j];
                area.lemma_entry(j);
                assert(self.areas@[i as int]@.dom().contains(sk));
                let lo_tail = match lower {
                    KeyBound::Included(l) => l@,
                    KeyBound::Excluded(l) => l@ + seq![0u8],
                    KeyBound::Unbounded => Seq::<u8>::empty(),
                };
                let hi_tail = match upper {
                    KeyBound::Included(h) => h@ + seq![0u8],
                    KeyBound::Excluded(h) => h@,
                    KeyBound::Unbounded => top,
                };
                assert(first@ =~= p + lo_tail);
                assert(last@ =~= p + hi_tail);
                if !(upper is Unbounded) {
                    lemma_bytes_lt_asymmetric(sk, last@);
                }
                lemma_between_has_prefix(p, sk, lo_tail, hi_tail);
                let t = sk.skip(8);
                assert(sk =~= p + t);
                law_lower_bound(p, lower, t);
                if !(upper is Unbounded) {
                    law_upper_bound(p, upper, self.max_keylen as nat, t);
                }
            }
        }
        let mut out: Vec<(Vec<u8>, Vec<u8>)> = Vec::new();
        let mut j: usize = lo;
        while j < hi
            invariant
                lo <= j,
                j <= hi || hi < lo,
                hi <= keys.len(),
                out@.len() == (if hi < lo {
                    0
                } else {
                    j - lo
                }),
                forall|x: int|
                    0 <= x < out@.len() ==> (#[trigger] out@[x]).0@ == keys[lo + x].skip(8)
                        && out@[x].1@ == area.vals()[lo + x]@,
            decreases hi - j,
        {
            let sk = area.key_at(j);
            let v = area.value_at(j);
            proof {
                area.lemma_entry(j as int);
                assert(self.areas@[i as int]@.dom().contains(keys[j as int]));
            }
            out.push((strip_prefix(sk.as_slice()), copy_bytes(v.as_slice())));
            j = j + 1;
        }
        proof {
            let ks = entry_keys(out@);
            assert forall|x: int, y: int| 0 <= x < y < ks.len() implies Vec::<u8>::before(
                #[trigger] ks[x],
                #[trigger] ks[y],
            ) by {
                let a = keys[lo + x];
                let b = keys[lo + y];
                assert(Vec::<u8>::before(a, b));
                assert(a =~= p + a.skip(8));
                assert(b =~= p + b.skip(8));
                assert(ks[x] == out@[x].0@ && ks[y] == out@[y].0@);
                lemma_prefix_keeps_order(p, a.skip(8), b.skip(8));
            }
            assert forall|x: int| 0 <= x < out@.len() implies self.table(p).dom().contains(
                (#[trigger] out@[x]).0@,
            ) && self.table(p)[out@[x].0@] == out@[x].1@ && within(out@[x].0@, lower, upper) by {
                assert(self.table(p).dom().contains(keys[lo + x].skip(8)));
            }
            assert forall|k: Seq<u8>| self.table(p).dom().contains(k) && within(k, lower, upper)
                implies ks.contains(k) by {
                let sk = p + k;
                assert(self.areas@[i as int]@.dom().contains(sk));
                let x = keys.index_of(sk);
                assert(keys[x] == sk);
                law_lower_bound(p, lower, k);
                if upper is Unbounded {
                    law_upper_sentinel(p, p, self.max_keylen as nat, k);
                } else {
                    law_upper_bound(p, upper, self.max_keylen as nat, k);
                }
                assert(lo <= x < hi);
                assert(sk.skip(8) =~= k);
                assert(out@[x - lo].0@ == k);
                assert(ks[x - lo] == k);
            }
        }
        out
    }

    /// All entries of the map with the given prefix, in the order of their
    /// keys and without the prefix.
    pub fn iter(&self, meta_prefix: PreBytes) -> (r: Vec<(Vec<u8>, Vec<u8>)>)
        requires
            self.wf(),
        ensures
            sorted::<Vec<u8>>(entry_keys(r@)),
            forall|j: int|
                0 <= j < r@.len() ==> self.table(meta_prefix@).dom().contains((#[trigger] r@[j]).0@)
                    && self.table(meta_prefix@)[r@[j].0@] == r@[j].1@,
            forall|k: Seq<u8>| self.table(meta_prefix@).dom().contains(k)
                ==> entry_keys(r@).contains(k),
    {
        let r = self.range(meta_prefix, KeyBound::Unbounded, KeyBound::Unbounded);
        proof {
            assert forall|k: Seq<u8>| self.table(meta_prefix@).dom().contains(k) implies entry_keys(
                r@,
            ).contains(k) by {
                assert(within(k, KeyBound::Unbounded, KeyBound::Unbounded));
            }
        }
        r
    }

    /// The number of entries that was last set for the map with the given
    /// prefix; nothing if none was set.
    pub fn get_instance_len(&self, instance_prefix: PreBytes) -> (r: Option<u64>)
        requires
            self.wf(),
        ensures
            r == (match self.meta_cell(instance_prefix@) {
                Some(c) => if c.len() == 8 {
                    Some(be_value(c) as u64)
                } else {
                    None
                },
                None => None,
            }),
    {
        let k = copy_bytes(instance_prefix.as_slice());
        match self.meta.get(&k) {
            Some(held) => {
                if held.len() != 8 {
                    return None;
                }
                let cell: [u8; 8] = [
                    held[0],
                    held[1],
                    held[2],
                    held[3],
                    held[4],
                    held[5],
                    held[6],
                    held[7],
                ];
                assert(cell@ =~= held@);
                Some(u64_from_be_bytes(&cell))
            },
            None => None,
        }
    }

    /// Sets the number of entries of the map with the given prefix. The
    /// prefix has to be in use.
    pub fn set_instance_len(&mut self, instance_prefix: PreBytes, new_len: u64)
        requires
            old(self).wf(),
            old(self).knows(instance_prefix@),
        ensures
            final(self).wf(),
            final(self).meta_cell(instance_prefix@) == Some(be_bytes(new_len)),
            forall|other: Seq<u8>|
                other != instance_prefix@ ==> #[trigger] final(self).meta_cell(other) == old(
                    self,
                ).meta_cell(other),
            forall|q: Seq<u8>| #[trigger] final(self).table(q) == old(self).table(q),
            final(self).max_keylen() == old(self).max_keylen(),
    {
        proof {
            assert(META_KEY_MAX_KEYLEN@.len() == 1);
            assert(META_KEY_BRANCH_ID@.len() == 1);
            assert(META_KEY_VERSION_ID@.len() == 1);
            assert(META_KEY_PREFIX_ALLOCATOR@.len() == 1);
        }
        self.meta.insert(
            copy_bytes(instance_prefix.as_slice()),
            copy_bytes(u64_to_be_bytes(new_len).as_slice()),
        );
    }
}

/// The keys of a sequence of entries.
pub open spec fn entry_keys(entries: Seq<(Vec<u8>, Vec<u8>)>) -> Seq<Seq<u8>> {
    Seq::new(entries.len(), |j: int| entries[j].0@)
}

} // verus!
