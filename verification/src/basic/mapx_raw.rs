//! The raw map: an ordered map from bytes to bytes that lives in a backend.
//!
//! A raw map is a handle: it holds the prefix behind which the backend keeps
//! the entries, and nothing else. Its number of entries is kept in a cell
//! of the backend beside the entries. A handle can be stored as a value of
//! another raw map; read back, it stands for the same entries.

use vstd::prelude::*;
use crate::basic::mapx_ord::sorted;
use crate::basic::ord_key::copy_bytes;
use crate::common::ende::{be_bytes, lemma_be_value_of_bytes, u64_to_be_bytes};
use crate::common::engines::mem::{entry_keys, MemEngine};
use crate::common::{KeyBound, PreBytes, within};

verus! {

/// A handle on one map of a backend.
#[derive(Clone, Copy, Debug)]
pub struct MapxRaw {
    prefix: PreBytes,
}

impl MapxRaw {
    /// The prefix behind which the backend keeps the entries.
    pub closed spec fn prefix(&self) -> Seq<u8> {
        self.prefix@
    }

    /// The entries of the map, as the backend holds them.
    pub open spec fn entries(&self, engine: &MemEngine) -> Map<Seq<u8>, Seq<u8>> {
        engine.table(self.prefix())
    }

    /// The backend knows the map, and its cell holds the number of entries.
    pub open spec fn wf(&self, engine: &MemEngine) -> bool {
        &&& engine.wf()
        &&& self.prefix().len() == 8
        &&& engine.knows(self.prefix())
        &&& self.entries(engine).dom().finite()
        &&& self.entries(engine).dom().len() <= u64::MAX
        &&& engine.meta_cell(self.prefix()) == Some(
            be_bytes(self.entries(engine).dom().len() as u64),
        )
    }

    /// What the backend does to other maps leaves this one as it is.
    pub proof fn lemma_untouched(&self, before: &MemEngine, after: &MemEngine)
        requires
            self.wf(before),
            after.wf(),
            after.table(self.prefix()) == before.table(self.prefix()),
            after.meta_cell(self.prefix()) == before.meta_cell(self.prefix()),
            after.next_prefix() >= before.next_prefix(),
        ensures
            self.wf(after),
            self.entries(after) == self.entries(before),
    {
    }

    /// A new, empty map under a prefix of its own; nothing if the prefixes
    /// are used up. No other map changes.
    pub fn new(engine: &mut MemEngine) -> (r: Option<Self>)
        requires
            old(engine).wf(),
        ensures
            final(engine).wf(),
            forall|q: Seq<u8>| #[trigger] final(engine).table(q) == old(engine).table(q),
            match r {
                Some(m) => {
                    &&& m.wf(final(engine))
                    &&& m.prefix() == be_bytes(old(engine).next_prefix() as u64)
                    &&& !old(engine).knows(m.prefix())
                    &&& m.entries(final(engine)) == Map::<Seq<u8>, Seq<u8>>::empty()
                    &&& final(engine).next_prefix() == old(engine).next_prefix() + 1
                    &&& forall|other: Seq<u8>|
                        other != m.prefix() && other.len() == 8
                            ==> #[trigger] final(engine).meta_cell(other)
                            == old(engine).meta_cell(other)
                },
                None => old(engine).next_prefix() == u64::MAX && final(engine).next_prefix()
                    == old(engine).next_prefix(),
            },
    {
        let id = match engine.alloc_prefix() {
            Some(id) => id,
            None => {
                return None;
            },
        };
        let prefix = u64_to_be_bytes(id);
        proof {
            lemma_be_value_of_bytes(id);
            old(engine).lemma_unknown_prefix_is_empty(prefix@);
        }
        engine.set_instance_len(prefix, 0);
        let m = MapxRaw { prefix };
        proof {
            assert(m.entries(engine) == Map::<Seq<u8>, Seq<u8>>::empty());
            assert(m.entries(engine).dom() =~= Set::<Seq<u8>>::empty());
        }
        Some(m)
    }

    /// Another handle on the same entries.
    pub fn shadow(&self) -> (r: Self)
        ensures
            r.prefix() == self.prefix(),
    {
        MapxRaw { prefix: self.prefix }
    }

    /// The handle as bytes, to be stored as a value.
    pub fn encode(&self) -> (r: Vec<u8>)
        ensures
            r@ == self.prefix(),
    {
        copy_bytes(self.prefix.as_slice())
    }

    /// The handle that the bytes stand for; nothing unless they are eight.
    pub fn decode(bytes: &[u8]) -> (r: Option<Self>)
        ensures
            match r {
                Some(m) => bytes@.len() == 8 && m.prefix() == bytes@,
                None => bytes@.len() != 8,
            },
    {
        if bytes.len() != 8 {
            return None;
        }
        let prefix: [u8; 8] = [
            bytes[0],
            bytes[1],
            bytes[2],
            bytes[3],
            bytes[4],
            bytes[5],
            bytes[6],
            bytes[7],
        ];
        assert(prefix@ =~= bytes@);
        Some(MapxRaw { prefix })
    }

    /// What `key` maps to.
    pub fn get(&self, engine: &MemEngine, key: &[u8]) -> (r: Option<Vec<u8>>)
        requires
            self.wf(engine),
        ensures
            match r {
                Some(v) => self.entries(engine).dom().contains(key@) && self.entries(engine)[key@]
                    == v@,
                None => !self.entries(engine).dom().contains(key@),
            },
    {
        engine.get(self.prefix, key)
    }

    /// Whether `key` is a key of the map.
    pub fn contains_key(&self, engine: &MemEngine, key: &[u8]) -> (r: bool)
        requires
            self.wf(engine),
        ensures
            r == self.entries(engine).dom().contains(key@),
    {
        engine.get(self.prefix, key).is_some()
    }

    /// Number of entries.
    pub fn len(&self, engine: &MemEngine) -> (r: u64)
        requires
            self.wf(engine),
        ensures
            r == self.entries(engine).dom().len(),
    {
        proof {
            lemma_be_value_of_bytes(self.entries(engine).dom().len() as u64);
        }
        engine.get_instance_len(self.prefix).unwrap()
    }

    /// Whether the map has no entry.
    pub fn is_empty(&self, engine: &MemEngine) -> (r: bool)
        requires
            self.wf(engine),
        ensures
            r == (self.entries(engine).dom().len() == 0),
    {
        self.len(engine) == 0
    }

    /// Maps `key` to `value`, and returns what `key` mapped to before. A
    /// new key makes the map one entry longer. No other map changes.
    pub fn insert(&self, engine: &mut MemEngine, key: &[u8], value: &[u8]) -> (r: Option<Vec<u8>>)
        requires
            self.wf(old(engine)),
            old(engine).table(self.prefix()).dom().len() < u64::MAX,
        ensures
            self.wf(final(engine)),
            self.entries(final(engine)) == self.entries(old(engine)).insert(key@, value@),
            match r {
                Some(v) => self.entries(old(engine)).dom().contains(key@) && self.entries(
                    old(engine),
                )[key@] == v@,
                None => !self.entries(old(engine)).dom().contains(key@),
            },
            forall|q: Seq<u8>|
                q.len() == 8 && q != self.prefix() ==> #[trigger] final(engine).table(q)
                    == old(engine).table(q) && final(engine).meta_cell(q)
                    == old(engine).meta_cell(q),
            final(engine).next_prefix() == old(engine).next_prefix(),
    {
        let n = self.len(engine);
        proof {
            assert(crate::common::engines::layout::META_KEY_MAX_KEYLEN@.len() == 1);
        }
        let r = engine.insert(self.prefix, key, value);
        if r.is_none() {
            engine.set_instance_len(self.prefix, n + 1);
        }
        proof {
            let before = self.entries(old(engine));
            assert(self.entries(engine) == before.insert(key@, value@));
            assert(self.entries(engine).dom() =~= before.dom().insert(key@));
            if r.is_some() {
                assert(before.dom().insert(key@) =~= before.dom());
            }
        }
        r
    }

    /// Takes `key` out of the map, and returns what it mapped to. A key that
    /// was there makes the map one entry shorter. No other map changes.
    pub fn remove(&self, engine: &mut MemEngine, key: &[u8]) -> (r: Option<Vec<u8>>)
        requires
            self.wf(old(engine)),
        ensures
            self.wf(final(engine)),
            self.entries(final(engine)) == self.entries(old(engine)).remove(key@),
            match r {
                Some(v) => self.entries(old(engine)).dom().contains(key@) && self.entries(
                    old(engine),
                )[key@] == v@,
                None => !self.entries(old(engine)).dom().contains(key@),
            },
            forall|q: Seq<u8>|
                q.len() == 8 && q != self.prefix() ==> #[trigger] final(engine).table(q)
                    == old(engine).table(q) && final(engine).meta_cell(q)
                    == old(engine).meta_cell(q),
            final(engine).next_prefix() == old(engine).next_prefix(),
    {
        let n = self.len(engine);
        let r = engine.remove(self.prefix, key);
        if r.is_some() {
            engine.set_instance_len(self.prefix, n - 1);
        }
        proof {
            let before = self.entries(old(engine));
            assert(self.entries(engine).dom() =~= before.dom().remove(key@));
            if r.is_none() {
                assert(before.dom().remove(key@) =~= before.dom());
            }
        }
        r
    }

    /// What `key` maps to; if it maps to nothing, it is mapped to `default`
    /// first.
    pub fn or_insert(&self, engine: &mut MemEngine, key: &[u8], default: &[u8]) -> (r: Vec<u8>)
        requires
            self.wf(old(engine)),
            old(engine).table(self.prefix()).dom().len() < u64::MAX,
        ensures
            self.wf(final(engine)),
            self.entries(old(engine)).dom().contains(key@) ==> self.entries(final(engine))
                == self.entries(old(engine)) && r@ == self.entries(old(engine))[key@],
            !self.entries(old(engine)).dom().contains(key@) ==> self.entries(final(engine))
                == self.entries(old(engine)).insert(key@, default@) && r@ == default@,
            forall|q: Seq<u8>|
                q.len() == 8 && q != self.prefix() ==> #[trigger] final(engine).table(q)
                    == old(engine).table(q) && final(engine).meta_cell(q)
                    == old(engine).meta_cell(q),
            final(engine).next_prefix() == old(engine).next_prefix(),
    {
        match self.get(engine, key) {
            Some(v) => v,
            None => {
                self.insert(engine, key, default);
                copy_bytes(default)
            },
        }
    }

    /// The entries whose keys lie within the bounds, in the order of their keys.
    pub fn range(&self, engine: &MemEngine, lower: KeyBound<'_>, upper: KeyBound<'_>) -> (r: Vec<
        (Vec<u8>, Vec<u8>),
    >)
        requires
            self.wf(engine),
        ensures
            sorted::<Vec<u8>>(entry_keys(r@)),
            forall|j: int|
                0 <= j < r@.len() ==> self.entries(engine).dom().contains((#[trigger] r@[j]).0@)
                    && self.entries(engine)[r@[j].0@] == r@[j].1@ && within(r@[j].0@, lower, upper),
            forall|k: Seq<u8>|
                self.entries(engine).dom().contains(k) && within(k, lower, upper) ==> entry_keys(
                    r@,
                ).contains(k),
    {
        engine.range(self.prefix, lower, upper)
    }

    /// All entries, in the order of their keys.
    pub fn iter(&self, engine: &MemEngine) -> (r: Vec<(Vec<u8>, Vec<u8>)>)
        requires
            self.wf(engine),
        ensures
            sorted::<Vec<u8>>(entry_keys(r@)),
            forall|j: int|
                0 <= j < r@.len() ==> self.entries(engine).dom().contains((#[trigger] r@[j]).0@)
                    && self.entries(engine)[r@[j].0@] == r@[j].1@,
            forall|k: Seq<u8>| self.entries(engine).dom().contains(k)
                ==> entry_keys(r@).contains(k),
    {
        engine.iter(self.prefix)
    }

    /// Takes every entry out of the map. No other map changes.
    pub fn clear(&self, engine: &mut MemEngine)
        requires
            self.wf(old(engine)),
        ensures
            self.wf(final(engine)),
            self.entries(final(engine)) == Map::<Seq<u8>, Seq<u8>>::empty(),
            forall|q: Seq<u8>|
                q.len() == 8 && q != self.prefix() ==> #[trigger] final(engine).table(q)
                    == old(engine).table(q) && final(engine).meta_cell(q)
                    == old(engine).meta_cell(q),
            final(engine).next_prefix() == old(engine).next_prefix(),
    {
        let all = self.iter(engine);
        let mut i: usize = 0;
        assert(entry_keys(all@).subrange(0, all@.len() as int) =~= entry_keys(all@));
        while i < all.len()
            invariant
                i <= all.len(),
                self.wf(engine),
                forall|k: Seq<u8>|
                    self.entries(engine).dom().contains(k) ==> entry_keys(all@).subrange(
                        i as int,
                        all@.len() as int,
                    ).contains(k),
                forall|q: Seq<u8>|
                    q.len() == 8 && q != self.prefix() ==> #[trigger] engine.table(q)
                        == old(engine).table(q) && engine.meta_cell(q) == old(engine).meta_cell(q),
                engine.next_prefix() == old(engine).next_prefix(),
            decreases all.len() - i,
        {
            let ghost rest = entry_keys(all@).subrange(i as int, all@.len() as int);
            let ghost rest2 = entry_keys(all@).subrange(i + 1, all@.len() as int);
            let ghost mid = self.entries(engine);
            self.remove(engine, all[i].0.as_slice());
            proof {
                assert forall|k: Seq<u8>| self.entries(engine).dom().contains(k)
                    implies rest2.contains(
                    k,
                ) by {
                    assert(mid.dom().contains(k));
                    let x = rest.index_of(k);
                    assert(rest[x] == k);
                    assert(x > 0);
                    assert(rest2[x - 1] == k);
                }
            }
            i = i + 1;
        }
        proof {
            assert forall|k: Seq<u8>| !self.entries(engine).dom().contains(k) by {
                if self.entries(engine).dom().contains(k) {
                    let rest = entry_keys(all@).subrange(all@.len() as int, all@.len() as int);
                    assert(rest.contains(k));
                    let x = rest.index_of(k);
                }
            }
            assert(self.entries(engine) =~= Map::<Seq<u8>, Seq<u8>>::empty());
        }
    }
}

} // verus!
