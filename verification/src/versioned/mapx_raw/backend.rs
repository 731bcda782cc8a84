//! The store itself: seven ordered tables and the operations on branches,
//! versions and keys, each proved against the model.
//!
//! The store owns its tables and keeps them in memory, nested tables by
//! value. Identifiers are numbers here and are ordered as numbers; written
//! out as eight bytes, most significant first, they are ordered the same way.

use vstd::prelude::*;
use crate::basic::mapx_ord::{
    lemma_insert_key_greatest, lemma_sorted_distinct, lemma_update_value, MapxOrd, place,
    remove_key, sorted,
};
use crate::basic::ord_key::{bytes_lt, copy_bytes, OrdKey};
use crate::common::checksum::{checksum_of, feed_pair, SEED, VerChecksum};
use crate::common::ende::{be_bytes, u64_to_be_bytes};
use crate::common::{
    BranchID, BranchName, BranchNameOwned, INITIAL_BRANCH_ID, initial_branch_name_owned, KeyBound,
    NULL, RESERVED_ID_CNT, RESERVED_VERSION_NUM_DEFAULT, VersionID, VersionName, VersionNameOwned,
    VsError, within,
};
use crate::versioned::mapx_raw::model::{
    fold_layer, fork_at, increasing, insert_all, is_cut, is_newest, Keep, lemma_fork_unique,
    lemma_insert_all, lemma_newest, lemma_up_to, merged, moves, stored, up_to, VsModel,
};

verus! {

/// A versioned map, addressed by branch and version identifiers.
#[derive(Clone, Debug)]
pub struct MapxRawVs {
    default_branch: BranchID,
    branch_name_to_branch_id: MapxOrd<Vec<u8>, BranchID>,
    version_name_to_version_id: MapxOrd<Vec<u8>, VersionID>,
    branch_id_to_branch_name: MapxOrd<BranchID, Vec<u8>>,
    version_id_to_version_name: MapxOrd<VersionID, Vec<u8>>,
    // versions on each branch, created directly by it or taken over when it was created
    branch_to_its_versions: MapxOrd<BranchID, MapxOrd<VersionID, ()>>,
    // keys ever changed within each version; no value is stored here
    version_to_change_set: MapxOrd<VersionID, MapxOrd<Vec<u8>, ()>>,
    // key -> version -> value
    layered_kv: MapxOrd<Vec<u8>, MapxOrd<VersionID, Vec<u8>>>,
    next_branch_id: BranchID,
    next_version_id: VersionID,
}

/// The bytes of each value of a map from identifiers to byte vectors.
pub open spec fn bytes_of(m: Map<u64, Vec<u8>>) -> Map<u64, Seq<u8>> {
    m.map_values(|v: Vec<u8>| v@)
}

impl Default for MapxRawVs {
    fn default() -> (r: Self)
        ensures
            r.wf(),
            r@ == VsModel::initial(),
    {
        Self::new()
    }
}

impl MapxRawVs {
    // The store and its model

    /// The store as the model sees it.
    pub closed spec fn view(&self) -> VsModel {
        VsModel {
            default_branch: self.default_branch,
            branch_ids: self.branch_name_to_branch_id@,
            branch_names: bytes_of(self.branch_id_to_branch_name@),
            version_ids: self.version_name_to_version_id@,
            version_names: bytes_of(self.version_id_to_version_name@),
            visibility: self.branch_to_its_versions@.map_values(
                |m: MapxOrd<VersionID, ()>| m.keys(),
            ),
            change_sets: self.version_to_change_set@.map_values(
                |m: MapxOrd<Vec<u8>, ()>| m@.dom(),
            ),
            layers: self.layered_kv@.map_values(|m: MapxOrd<VersionID, Vec<u8>>| bytes_of(m@)),
            next_branch_id: self.next_branch_id,
            next_version_id: self.next_version_id,
        }
    }

    /// Every table is in order, and the tables agree with each other.
    pub closed spec fn wf(&self) -> bool {
        &&& self.tables_wf()
        &&& self@.wf()
    }

    spec fn tables_wf(&self) -> bool {
        &&& self.branch_name_to_branch_id.wf()
        &&& self.version_name_to_version_id.wf()
        &&& self.branch_id_to_branch_name.wf()
        &&& self.version_id_to_version_name.wf()
        &&& self.branch_to_its_versions.wf()
        &&& self.version_to_change_set.wf()
        &&& self.layered_kv.wf()
        &&& forall|i: int|
            0 <= i < self.branch_to_its_versions.vals().len()
                ==> (#[trigger] self.branch_to_its_versions.vals()[i]).wf()
        &&& forall|i: int|
            0 <= i < self.version_to_change_set.vals().len()
                ==> (#[trigger] self.version_to_change_set.vals()[i]).wf()
        &&& forall|i: int|
            0 <= i < self.layered_kv.vals().len() ==> (#[trigger] self.layered_kv.vals()[i]).wf()
    }

    /// What a well-formed store promises about its model.
    pub proof fn lemma_wf(&self)
        requires
            self.wf(),
        ensures
            self@.wf(),
    {
    }

    /// A store with the initial branch, no version and no key.
    pub fn new() -> (r: Self)
        ensures
            r.wf(),
            r@ == VsModel::initial(),
    {
        let mut r = MapxRawVs {
            default_branch: INITIAL_BRANCH_ID,
            branch_name_to_branch_id: MapxOrd::new(),
            version_name_to_version_id: MapxOrd::new(),
            branch_id_to_branch_name: MapxOrd::new(),
            version_id_to_version_name: MapxOrd::new(),
            branch_to_its_versions: MapxOrd::new(),
            version_to_change_set: MapxOrd::new(),
            layered_kv: MapxOrd::new(),
            next_branch_id: RESERVED_ID_CNT,
            next_version_id: RESERVED_ID_CNT,
        };
        r.init();
        r
    }

    /// A store with the initial branch, no version and no key, whose
    /// counters start at the given values: the values that a backend holds
    /// in its cells. Refused if a counter would hand out the null identifier
    /// or the identifier of the initial branch.
    pub fn starting_at(next_branch_id: BranchID, next_version_id: VersionID) -> (r: Result<
        Self,
        VsError,
    >)
        ensures
            match r {
                Ok(store) => store.wf() && store@ == VsModel::initial().with_counters(
                    next_branch_id,
                    next_version_id,
                ) && next_branch_id > INITIAL_BRANCH_ID && next_version_id > NULL,
                Err(e) => e == VsError::InvalidArg && !(next_branch_id > INITIAL_BRANCH_ID
                    && next_version_id > NULL),
            },
    {
        if next_branch_id <= INITIAL_BRANCH_ID || next_version_id == NULL {
            return Err(VsError::InvalidArg);
        }
        let mut r = Self::new();
        r.next_branch_id = next_branch_id;
        r.next_version_id = next_version_id;
        proof {
            let t = VsModel::initial().with_counters(next_branch_id, next_version_id);
            assert(r@ == t);
            VsModel::lemma_initial_wf();
            assert(t.visibility.dom() =~= t.branch_names.dom());
            assert(t.change_sets.dom() =~= t.version_names.dom());
            assert(t.visibility[INITIAL_BRANCH_ID].len() == 0);
            assert(t.wf());
        }
        Ok(r)
    }

    #[verifier::rlimit(60)]
    fn init(&mut self)
        requires
            old(self).branch_name_to_branch_id@ == Map::<Seq<u8>, u64>::empty(),
            old(self).version_name_to_version_id@ == Map::<Seq<u8>, u64>::empty(),
            old(self).branch_id_to_branch_name@ == Map::<u64, Vec<u8>>::empty(),
            old(self).version_id_to_version_name@ == Map::<u64, Vec<u8>>::empty(),
            old(self).branch_to_its_versions.keys() == Seq::<u64>::empty(),
            old(self).branch_to_its_versions.vals() == Seq::<MapxOrd<VersionID, ()>>::empty(),
            old(self).version_to_change_set.keys() == Seq::<u64>::empty(),
            old(self).version_to_change_set.vals() == Seq::<MapxOrd<Vec<u8>, ()>>::empty(),
            old(self).layered_kv.keys() == Seq::<Seq<u8>>::empty(),
            old(self).layered_kv.vals() == Seq::<MapxOrd<VersionID, Vec<u8>>>::empty(),
            old(self).branch_name_to_branch_id.wf(),
            old(self).version_name_to_version_id.wf(),
            old(self).branch_id_to_branch_name.wf(),
            old(self).version_id_to_version_name.wf(),
            old(self).next_branch_id == RESERVED_ID_CNT,
            old(self).next_version_id == RESERVED_ID_CNT,
        ensures
            final(self).wf(),
            final(self)@ == VsModel::initial(),
    {
        self.default_branch = INITIAL_BRANCH_ID;
        self.branch_name_to_branch_id.insert(initial_branch_name_owned(), INITIAL_BRANCH_ID);
        self.branch_id_to_branch_name.insert(INITIAL_BRANCH_ID, initial_branch_name_owned());
        assert(!self.branch_to_its_versions@.dom().contains(INITIAL_BRANCH_ID));
        self.branch_to_its_versions.insert(INITIAL_BRANCH_ID, MapxOrd::new());
        proof {
            assert(self.branch_to_its_versions.vals().len() == 1);
            assert(self.version_to_change_set.wf());
            assert(self.layered_kv.wf());
            let m = self@;
            let i = VsModel::initial();
            assert(m.branch_ids =~= i.branch_ids);
            assert(m.branch_names =~= i.branch_names);
            assert(m.version_ids =~= i.version_ids);
            assert(m.version_names =~= i.version_names);
            assert(m.visibility =~= i.visibility);
            assert(m.change_sets =~= i.change_sets);
            assert(m.layers =~= i.layers);
            VsModel::lemma_initial_wf();
            assert(self.tables_wf());
        }
    }

    /// Empties the store: afterwards it holds the initial branch and nothing
    /// else. The identifier counters keep their values.
    #[verifier::rlimit(60)]
    pub fn clear(&mut self)
        requires
            old(self).wf(),
        ensures
            final(self).wf(),
            final(self)@ == VsModel::initial().with_counters(
                old(self)@.next_branch_id,
                old(self)@.next_version_id,
            ),
    {
        self.branch_name_to_branch_id.clear();
        self.version_name_to_version_id.clear();
        self.branch_id_to_branch_name.clear();
        self.version_id_to_version_name.clear();
        self.branch_to_its_versions.clear();
        self.version_to_change_set.clear();
        self.layered_kv.clear();
        self.default_branch = INITIAL_BRANCH_ID;
        self.branch_name_to_branch_id.insert(initial_branch_name_owned(), INITIAL_BRANCH_ID);
        self.branch_id_to_branch_name.insert(INITIAL_BRANCH_ID, initial_branch_name_owned());
        self.branch_to_its_versions.insert(INITIAL_BRANCH_ID, MapxOrd::new());
        proof {
            let m = self@;
            let i = VsModel::initial().with_counters(
                old(self)@.next_branch_id,
                old(self)@.next_version_id,
            );
            assert(m.branch_ids =~= i.branch_ids);
            assert(m.branch_names =~= i.branch_names);
            assert(m.version_ids =~= i.version_ids);
            assert(m.version_names =~= i.version_names);
            assert(m.visibility =~= i.visibility);
            assert(m.change_sets =~= i.change_sets);
            assert(m.layers =~= i.layers);
            assert(self.branch_to_its_versions.vals().len() == 1);
            old(self)@.lemma_cleared_wf();
        }
    }

    // Reading

    /// The newest version on a branch.
    pub fn head_of(&self, branch_id: BranchID) -> (r: Result<VersionID, VsError>)
        requires
            self.wf(),
        ensures
            match r {
                Ok(v) => self@.head(branch_id) == Some(v),
                Err(e) => self@.head(branch_id).is_none() && e == (if self@.has_branch(branch_id) {
                    VsError::NoCurrentVersion
                } else {
                    VsError::BranchNotFound
                }),
            },
    {
        match self.branch_to_its_versions.find(&branch_id) {
            None => Err(VsError::BranchNotFound),
            Some(i) => {
                let vers = self.branch_to_its_versions.value_at(i);
                let n = vers.len();
                if n == 0 {
                    Err(VsError::NoCurrentVersion)
                } else {
                    Ok(*vers.key_at(n - 1))
                }
            },
        }
    }

    /// The value of `key` as seen from the head of the default branch.
    pub fn get(&self, key: &[u8]) -> (r: Option<Vec<u8>>)
        requires
            self.wf(),
        ensures
            opt_bytes(r) == self@.get_on(key@, self@.default_branch),
    {
        self.get_by_branch(key, self.default_branch)
    }

    /// The value of `key` as seen from the head of a branch.
    pub fn get_by_branch(&self, key: &[u8], branch_id: BranchID) -> (r: Option<Vec<u8>>)
        requires
            self.wf(),
        ensures
            opt_bytes(r) == self@.get_on(key@, branch_id),
    {
        match self.head_of(branch_id) {
            Ok(version_id) => self.get_by_branch_version(key, branch_id, version_id),
            Err(_) => None,
        }
    }

    /// The value of `key` as seen from one version of a branch: what the newest
    /// version wrote that is visible on the branch, not newer than `version_id`
    /// and a writer of `key`; nothing if there is none or it wrote a tombstone.
    #[verifier::loop_isolation(false)]
    #[verifier::rlimit(60)]
    pub fn get_by_branch_version(
        &self,
        key: &[u8],
        branch_id: BranchID,
        version_id: VersionID,
    ) -> (r: Option<Vec<u8>>)
        requires
            self.wf(),
        ensures
            opt_bytes(r) == self@.get_at(key@, branch_id, version_id),
    {
        let vers = match self.branch_to_its_versions.get(&branch_id) {
            Some(vers) => vers,
            None => {
                proof {
                    self@.lemma_get_at_none(key@, branch_id, version_id);
                }
                return None;
            },
        };
        let k = copy_bytes(key);
        let hist = match self.layered_kv.find(&k) {
            Some(i) => self.layered_kv.value_at(i),
            None => {
                proof {
                    self@.lemma_get_at_none(key@, branch_id, version_id);
                }
                return None;
            },
        };
        let ub = hist.upper_bound(&version_id);
        let mut i: usize = ub;
        assert(self@.visibility[branch_id] == vers.keys());
        assert(self@.layers[key@] == bytes_of(hist@));
        while i > 0
            invariant
                0 <= i <= ub <= hist.keys().len(),
                forall|j: int| i <= j < ub ==> !vers.keys().contains(#[trigger] hist.keys()[j]),
            decreases i,
        {
            i = i - 1;
            let ver = hist.key_at(i);
            if vers.contains_key(ver) {
                let val = hist.value_at(i);
                proof {
                    hist.lemma_entry(i as int);
                    let c = hist.keys()[i as int];
                    assert(self@.candidate(key@, branch_id, version_id, c));
                    assert forall|d: u64| #[trigger]
                        self@.candidate(key@, branch_id, version_id, d) implies d <= c by {
                        let j = hist.keys().index_of(d);
                        assert(hist.keys()[j] == d);
                        if j > i {
                            assert(j < ub);
                        }
                    }
                    self@.lemma_get_at_newest(key@, branch_id, version_id, c);
                }
                if val.len() == 0 {
                    return None;
                } else {
                    return Some(copy_bytes(val.as_slice()));
                }
            }
        }
        proof {
            assert forall|c: u64| !self@.candidate(key@, branch_id, version_id, c) by {
                if self@.candidate(key@, branch_id, version_id, c) {
                    let j = hist.keys().index_of(c);
                    assert(hist.keys()[j] == c);
                }
            }
            self@.lemma_get_at_none(key@, branch_id, version_id);
        }
        None
    }

    // Writing

    /// Writes `value` to `key` at the head of the default branch and returns
    /// what a reader saw there before.
    pub fn insert(&mut self, key: &[u8], value: &[u8]) -> (r: Result<Option<Vec<u8>>, VsError>)
        requires
            old(self).wf(),
        ensures
            final(self).wf(),
            old(self)@.write_on(key@, Some(value@), old(self)@.default_branch) == (
                final(self)@,
                res_opt_bytes(r),
            ),
    {
        let b = self.default_branch;
        self.insert_by_branch(key, value, b)
    }

    /// Writes `value` to `key` at the head of a branch and returns what a
    /// reader saw there before.
    pub fn insert_by_branch(&mut self, key: &[u8], value: &[u8], branch_id: BranchID) -> (r: Result<
        Option<Vec<u8>>,
        VsError,
    >)
        requires
            old(self).wf(),
        ensures
            final(self).wf(),
            old(self)@.write_on(key@, Some(value@), branch_id) == (final(self)@, res_opt_bytes(r)),
    {
        match self.head_of(branch_id) {
            Ok(version_id) => {
                proof {
                    self@.lemma_head_exists(branch_id);
                }
                Ok(self.write_by_branch_version(key, Some(value), branch_id, version_id))
            },
            Err(e) => Err(e),
        }
    }

    /// Deletes `key` at the head of the default branch and returns what a
    /// reader saw there before.
    pub fn remove(&mut self, key: &[u8]) -> (r: Result<Option<Vec<u8>>, VsError>)
        requires
            old(self).wf(),
        ensures
            final(self).wf(),
            old(self)@.write_on(key@, None, old(self)@.default_branch) == (
                final(self)@,
                res_opt_bytes(r),
            ),
    {
        let b = self.default_branch;
        self.remove_by_branch(key, b)
    }

    /// Deletes `key` at the head of a branch and returns what a reader saw
    /// there before.
    pub fn remove_by_branch(&mut self, key: &[u8], branch_id: BranchID) -> (r: Result<
        Option<Vec<u8>>,
        VsError,
    >)
        requires
            old(self).wf(),
        ensures
            final(self).wf(),
            old(self)@.write_on(key@, None, branch_id) == (final(self)@, res_opt_bytes(r)),
    {
        match self.head_of(branch_id) {
            Ok(version_id) => {
                proof {
                    self@.lemma_head_exists(branch_id);
                }
                Ok(self.write_by_branch_version(key, None, branch_id, version_id))
            },
            Err(e) => Err(e),
        }
    }

    // Writes go to the newest version of a branch only: what older versions
    // hold does not change under a reader.
    #[verifier::rlimit(60)]
    fn write_by_branch_version(
        &mut self,
        key: &[u8],
        value: Option<&[u8]>,
        branch_id: BranchID,
        version_id: VersionID,
    ) -> (r: Option<Vec<u8>>)
        requires
            old(self).wf(),
            old(self)@.change_sets.dom().contains(version_id),
        ensures
            final(self).wf(),
            opt_bytes(r) == old(self)@.get_at(key@, branch_id, version_id),
            final(self)@ == old(self)@.write(key@, opt_slice(value), branch_id, version_id),
    {
        let ret = self.get_by_branch_version(key, branch_id, version_id);
        if value.is_none() && ret.is_none() {
            return None;
        }
        let val = match value {
            Some(v) => copy_bytes(v),
            None => Vec::new(),
        };
        let i = self.version_to_change_set.find(&version_id).unwrap();
        let ghost chg_keys = self.version_to_change_set.keys();
        let ghost chg_vals = self.version_to_change_set.vals();
        let chg = self.version_to_change_set.value_mut(i);
        chg.insert(copy_bytes(key), ());
        proof {
            lemma_update_value::<VersionID, MapxOrd<Vec<u8>, ()>>(
                chg_keys,
                chg_vals,
                self.version_to_change_set.vals()[i as int],
                i as int,
            );
        }
        let k = copy_bytes(key);
        match self.layered_kv.find(&k) {
            Some(j) => {
                let ghost kv_keys = self.layered_kv.keys();
                let ghost kv_vals = self.layered_kv.vals();
                let hist = self.layered_kv.value_mut(j);
                hist.insert(version_id, val);
                proof {
                    lemma_update_value::<Vec<u8>, MapxOrd<VersionID, Vec<u8>>>(
                        kv_keys,
                        kv_vals,
                        self.layered_kv.vals()[j as int],
                        j as int,
                    );
                }
            },
            None => {
                let mut hist: MapxOrd<VersionID, Vec<u8>> = MapxOrd::new();
                hist.insert(version_id, val);
                self.layered_kv.insert(k, hist);
            },
        }
        proof {
            let t = old(self)@.write(key@, opt_slice(value), branch_id, version_id);
            assert(opt_slice(value).is_some() || old(self)@.get_at(key@, branch_id,
                version_id).is_some());
            assert(self@.change_sets =~= t.change_sets);
            assert(self@.layers[key@] =~= t.layers[key@]);
            assert(self@.layers =~= t.layers);
            assert(self@ == t);
            old(self)@.lemma_write_wf(key@, opt_slice(value), branch_id, version_id);
        }
        ret
    }

    // Versions

    /// Makes a version on the default branch.
    pub fn version_create(&mut self, version_name: &[u8]) -> (r: Result<(), VsError>)
        requires
            old(self).wf(),
        ensures
            final(self).wf(),
            old(self)@.version_create(version_name@, old(self)@.default_branch) == (final(self)@,
                r),
    {
        let b = self.default_branch;
        self.version_create_by_branch(version_name, b)
    }

    /// Makes a version on a branch. The version gets a fresh identifier, an
    /// empty change-set, and becomes the head of the branch.
    #[verifier::rlimit(60)]
    pub fn version_create_by_branch(&mut self, version_name: &[u8], branch_id: BranchID) -> (r:
        Result<(), VsError>)
        requires
            old(self).wf(),
        ensures
            final(self).wf(),
            old(self)@.version_create(version_name@, branch_id) == (final(self)@, r),
    {
        let name = copy_bytes(version_name);
        if self.version_name_to_version_id.contains_key(&name) {
            return Err(VsError::VersionExists);
        }
        let i = match self.branch_to_its_versions.find(&branch_id) {
            Some(i) => i,
            None => {
                return Err(VsError::BranchNotFound);
            },
        };
        if self.next_version_id == u64::MAX {
            return Err(VsError::BackendFailure);
        }
        let version_id = self.next_version_id;
        self.next_version_id = version_id + 1;
        let ghost br_keys = self.branch_to_its_versions.keys();
        let ghost br_vals = self.branch_to_its_versions.vals();
        let vers = self.branch_to_its_versions.value_mut(i);
        proof {
            assert(vers.keys() == old(self)@.visibility[branch_id]);
            assert forall|j: int| 0 <= j < vers.keys().len() implies u64::before(
                #[trigger] vers.keys()[j],
                version_id,
            ) by {
                assert(old(self)@.version_names.dom().contains(old(
                    self)@.visibility[branch_id][j]));
            }
            lemma_insert_key_greatest::<u64>(vers.keys(), version_id);
        }
        vers.insert(version_id, ());
        proof {
            lemma_update_value::<BranchID, MapxOrd<VersionID, ()>>(
                br_keys,
                br_vals,
                self.branch_to_its_versions.vals()[i as int],
                i as int,
            );
        }
        self.version_name_to_version_id.insert(name, version_id);
        self.version_id_to_version_name.insert(version_id, copy_bytes(version_name));
        self.version_to_change_set.insert(version_id, MapxOrd::new());
        proof {
            let t = old(self)@.with_version(version_name@, branch_id);
            assert(self@.version_ids =~= t.version_ids);
            assert(self@.version_names =~= t.version_names);
            assert(self@.visibility =~= t.visibility);
            assert(self@.change_sets =~= t.change_sets);
            assert(self@.layers =~= t.layers);
            assert(self@.branch_names =~= t.branch_names);
            assert(self@ == t);
            old(self)@.lemma_with_version_wf(version_name@, branch_id);
        }
        Ok(())
    }

    /// Takes the newest version off the default branch.
    pub fn version_pop(&mut self) -> (r: Result<(), VsError>)
        requires
            old(self).wf(),
        ensures
            final(self).wf(),
            old(self)@.version_pop(old(self)@.default_branch) == (final(self)@, r),
    {
        let b = self.default_branch;
        self.version_pop_by_branch(b)
    }

    /// Takes the newest version off a branch. The version itself stays, with
    /// all that it wrote: other branches may show it.
    pub fn version_pop_by_branch(&mut self, branch_id: BranchID) -> (r: Result<(), VsError>)
        requires
            old(self).wf(),
        ensures
            final(self).wf(),
            old(self)@.version_pop(branch_id) == (final(self)@, r),
    {
        match self.branch_to_its_versions.find(&branch_id) {
            None => Err(VsError::BranchNotFound),
            Some(i) => {
                let n = self.branch_to_its_versions.value_at(i).len();
                if n > 0 {
                    self.cut_branch(i, n - 1);
                }
                Ok(())
            },
        }
    }

    /// Whether a version is on the default branch.
    pub fn version_exists(&self, version_id: VersionID) -> (r: bool)
        requires
            self.wf(),
        ensures
            r == self@.on_branch(self@.default_branch, version_id),
    {
        self.version_exists_on_branch(version_id, self.default_branch)
    }

    /// Whether a version exists at all, on a branch or on none.
    pub fn version_exists_globally(&self, version_id: VersionID) -> (r: bool)
        requires
            self.wf(),
        ensures
            r == self@.change_sets.dom().contains(version_id),
    {
        self.version_to_change_set.contains_key(&version_id)
    }

    /// Whether a version is on a branch.
    pub fn version_exists_on_branch(&self, version_id: VersionID, branch_id: BranchID) -> (r: bool)
        requires
            self.wf(),
        ensures
            r == self@.on_branch(branch_id, version_id),
    {
        match self.branch_to_its_versions.get(&branch_id) {
            Some(vers) => vers.contains_key(&version_id),
            None => false,
        }
    }

    /// Whether some branch shows version `v`.
    #[verifier::loop_isolation(false)]
    pub fn version_in_use(&self, v: VersionID) -> (r: bool)
        requires
            self.wf(),
        ensures
            r == self@.in_use(v),
    {
        let n = self.branch_to_its_versions.len();
        let mut i: usize = 0;
        while i < n
            invariant
                i <= n,
                forall|x: int|
                    0 <= x < i ==> !(#[trigger] self.branch_to_its_versions.vals()[x]).keys(
                        ).contains(
                        v,
                    ),
            decreases n - i,
        {
            if self.branch_to_its_versions.value_at(i).contains_key(&v) {
                proof {
                    self.branch_to_its_versions.lemma_entry(i as int);
                    assert(self@.on_branch(self.branch_to_its_versions.keys()[i as int], v));
                }
                return true;
            }
            i = i + 1;
        }
        proof {
            assert forall|b: u64| !self@.on_branch(b, v) by {
                if self@.visibility.dom().contains(b) {
                    let x = self.branch_to_its_versions.keys().index_of(b);
                    self.branch_to_its_versions.lemma_entry(x);
                }
            }
        }
        false
    }

    /// The identifier of the version of that name.
    pub fn version_get_id_by_name(&self, version_name: VersionName<'_>) -> (r: Option<VersionID>)
        requires
            self.wf(),
        ensures
            r == self@.version_id(version_name.0@),
    {
        match self.version_name_to_version_id.get(&copy_bytes(version_name.0)) {
            Some(v) => Some(*v),
            None => None,
        }
    }

    /// The names of the versions on the default branch, oldest first.
    pub fn version_list(&self) -> (r: Result<Vec<VersionNameOwned>, VsError>)
        requires
            self.wf(),
        ensures
            self@.is_version_list(self@.default_branch, names_of(r)),
    {
        self.version_list_by_branch(self.default_branch)
    }

    /// The names of the versions on a branch, oldest first.
    pub fn version_list_by_branch(&self, branch_id: BranchID) -> (r: Result<
        Vec<VersionNameOwned>,
        VsError,
    >)
        requires
            self.wf(),
        ensures
            self@.is_version_list(branch_id, names_of(r)),
    {
        let vers = match self.branch_to_its_versions.get(&branch_id) {
            Some(vers) => vers,
            None => {
                return Err(VsError::BranchNotFound);
            },
        };
        let n = vers.len();
        let mut out: Vec<VersionNameOwned> = Vec::new();
        let mut i: usize = 0;
        while i < n
            invariant
                self.wf(),
                vers.wf(),
                n == vers.keys().len(),
                self@.visibility.dom().contains(branch_id),
                self@.visibility[branch_id] == vers.keys(),
                i <= n,
                out@.len() == i,
                forall|j: int|
                    0 <= j < i ==> (#[trigger] out@[j]).0@ == self@.version_names[vers.keys()[j]],
            decreases n - i,
        {
            let v = vers.key_at(i);
            assert(self@.version_names.dom().contains(self@.visibility[branch_id][i as int]));
            let name = self.version_id_to_version_name.get(v).unwrap();
            out.push(VersionNameOwned(copy_bytes(name.as_slice())));
            i = i + 1;
        }
        proof {
            let l = Seq::new(out@.len(), |j: int| out@[j].0@);
            assert(names_of(Ok(out)) == Ok::<Seq<Seq<u8>>, VsError>(l));
        }
        Ok(out)
    }

    /// The versions that exist, on a branch or on none, oldest first.
    pub closed spec fn version_seq(&self) -> Seq<u64> {
        self.version_to_change_set.keys()
    }

    /// The existing versions strictly increase, and they are the versions of the model.
    pub proof fn lemma_version_seq(&self)
        requires
            self.wf(),
        ensures
            increasing(self.version_seq()),
            forall|v: u64| self.version_seq().contains(v) <==> self@.change_sets.dom().contains(v),
    {
    }

    /// The names of all versions, on a branch or on none, oldest first.
    pub fn version_list_globally(&self) -> (r: Vec<VersionNameOwned>)
        requires
            self.wf(),
        ensures
            r@.len() == self.version_seq().len(),
            forall|j: int|
                0 <= j < r@.len() ==> (#[trigger] r@[j]).0@
                    == self@.version_names[self.version_seq()[j]],
    {
        let n = self.version_to_change_set.len();
        let mut out: Vec<VersionNameOwned> = Vec::new();
        let mut i: usize = 0;
        while i < n
            invariant
                self.wf(),
                n == self.version_seq().len(),
                i <= n,
                out@.len() == i,
                forall|j: int|
                    0 <= j < i ==> (#[trigger] out@[j]).0@
                        == self@.version_names[self.version_seq()[j]],
            decreases n - i,
        {
            let v = self.version_to_change_set.key_at(i);
            proof {
                self.version_to_change_set.lemma_entry(i as int);
                assert(self@.change_sets.dom().contains(v@));
                assert(self@.version_names.dom().contains(v@));
            }
            let name = self.version_id_to_version_name.get(v).unwrap();
            out.push(VersionNameOwned(copy_bytes(name.as_slice())));
            i = i + 1;
        }
        out
    }

    /// Whether a version wrote any key.
    pub fn version_has_change_set(&self, version_id: VersionID) -> (r: Result<bool, VsError>)
        requires
            self.wf(),
        ensures
            r == (if self@.change_sets.dom().contains(version_id) {
                Ok(!(self@.change_sets[version_id] =~= Set::<Seq<u8>>::empty()))
            } else {
                Err(VsError::VersionNotFound)
            }),
    {
        match self.version_to_change_set.get(&version_id) {
            Some(chg) => {
                let e = chg.is_empty();
                proof {
                    if !e {
                        chg.lemma_entry(0);
                    }
                }
                Ok(!e)
            },
            None => Err(VsError::VersionNotFound),
        }
    }

    // Branches

    /// Makes a branch off the head of the default branch, with a first version
    /// of its own.
    pub fn branch_create(&mut self, branch_name: &[u8], version_name: &[u8], force: bool) -> (r:
        Result<(), VsError>)
        requires
            old(self).wf(),
        ensures
            final(self).wf(),
            old(self)@.branch_create_at_head(
                branch_name@,
                Some(version_name@),
                old(self)@.default_branch,
                force,
            ) == (final(self)@, r),
    {
        let b = self.default_branch;
        self.branch_create_by_base_branch(branch_name, version_name, b, force)
    }

    /// Makes a branch off the head of a branch, with a first version of its own.
    pub fn branch_create_by_base_branch(
        &mut self,
        branch_name: &[u8],
        version_name: &[u8],
        base_branch_id: BranchID,
        force: bool,
    ) -> (r: Result<(), VsError>)
        requires
            old(self).wf(),
        ensures
            final(self).wf(),
            old(self)@.branch_create_at_head(branch_name@, Some(version_name@), base_branch_id,
                force)
                == (final(self)@, r),
    {
        let base_version_id = match self.head_of(base_branch_id) {
            Ok(v) => Some(v),
            Err(_) => None,
        };
        self.do_branch_create_by_base_branch_version(
            branch_name,
            Some(version_name),
            base_branch_id,
            base_version_id,
            force,
        )
    }

    /// Makes a branch off one version of a branch, with a first version of
    /// its own.
    pub fn branch_create_by_base_branch_version(
        &mut self,
        branch_name: &[u8],
        version_name: &[u8],
        base_branch_id: BranchID,
        base_version_id: VersionID,
        force: bool,
    ) -> (r: Result<(), VsError>)
        requires
            old(self).wf(),
        ensures
            final(self).wf(),
            old(self)@.branch_create(
                branch_name@,
                Some(version_name@),
                base_branch_id,
                Some(base_version_id),
                force,
            ) == (final(self)@, r),
    {
        self.do_branch_create_by_base_branch_version(
            branch_name,
            Some(version_name),
            base_branch_id,
            Some(base_version_id),
            force,
        )
    }

    /// Makes a branch off the head of the default branch, without a version
    /// of its own: until it gets one, it writes to the version that it took over.
    pub fn branch_create_without_new_version(&mut self, branch_name: &[u8], force: bool) -> (r:
        Result<(), VsError>)
        requires
            old(self).wf(),
        ensures
            final(self).wf(),
            old(self)@.branch_create_at_head(branch_name@, None, old(self)@.default_branch, force)
                == (final(self)@, r),
    {
        let b = self.default_branch;
        self.branch_create_by_base_branch_without_new_version(branch_name, b, force)
    }

    /// Makes a branch off the head of a branch, without a version of its own.
    pub fn branch_create_by_base_branch_without_new_version(
        &mut self,
        branch_name: &[u8],
        base_branch_id: BranchID,
        force: bool,
    ) -> (r: Result<(), VsError>)
        requires
            old(self).wf(),
        ensures
            final(self).wf(),
            old(self)@.branch_create_at_head(branch_name@, None, base_branch_id, force) == (
                final(self)@,
                r,
            ),
    {
        let base_version_id = match self.head_of(base_branch_id) {
            Ok(v) => Some(v),
            Err(_) => None,
        };
        self.do_branch_create_by_base_branch_version(
            branch_name,
            None,
            base_branch_id,
            base_version_id,
            force,
        )
    }

    /// Makes a branch off one version of a branch, without a version of its own.
    pub fn branch_create_by_base_branch_version_without_new_version(
        &mut self,
        branch_name: &[u8],
        base_branch_id: BranchID,
        base_version_id: VersionID,
        force: bool,
    ) -> (r: Result<(), VsError>)
        requires
            old(self).wf(),
        ensures
            final(self).wf(),
            old(self)@.branch_create(branch_name@, None, base_branch_id, Some(base_version_id),
                force)
                == (final(self)@, r),
    {
        self.do_branch_create_by_base_branch_version(
            branch_name,
            None,
            base_branch_id,
            Some(base_version_id),
            force,
        )
    }

    // With `force`, a branch of the same name is removed first.
    #[verifier::rlimit(60)]
    fn do_branch_create_by_base_branch_version(
        &mut self,
        branch_name: &[u8],
        version_name: Option<&[u8]>,
        base_branch_id: BranchID,
        base_version_id: Option<VersionID>,
        force: bool,
    ) -> (r: Result<(), VsError>)
        requires
            old(self).wf(),
        ensures
            final(self).wf(),
            old(self)@.branch_create(
                branch_name@,
                opt_slice(version_name),
                base_branch_id,
                base_version_id,
                force,
            ) == (final(self)@, r),
    {
        let name = copy_bytes(branch_name);
        if force {
            match self.make_room(&name) {
                Ok(()) => {},
                Err(e) => {
                    return Err(e);
                },
            }
        }
        let ghost s0 = self@;
        if self.branch_name_to_branch_id.contains_key(&name) {
            return Err(VsError::BranchExists);
        }
        if let Some(vn) = version_name {
            if self.version_name_to_version_id.contains_key(&copy_bytes(vn)) {
                return Err(VsError::VersionExists);
            }
        }
        let vers_copied = match self.shown_up_to(base_branch_id, base_version_id) {
            Ok(vers) => vers,
            Err(e) => {
                return Err(e);
            },
        };
        if self.next_branch_id == u64::MAX || (version_name.is_some() && self.next_version_id
            == u64::MAX) {
            return Err(VsError::BackendFailure);
        }
        let branch_id = self.next_branch_id;
        self.add_branch(name, vers_copied);
        if let Some(vername) = version_name {
            // the first version of the new branch
            self.version_create_by_branch(vername, branch_id)
        } else {
            Ok(())
        }
    }

    // Removes the branch of that name, if there is one, to make room for a
    // new one; refuses to remove a branch that has to stay.
    #[verifier::rlimit(60)]
    fn make_room(&mut self, name: &Vec<u8>) -> (r: Result<(), VsError>)
        requires
            old(self).wf(),
        ensures
            final(self).wf(),
            match r {
                Ok(()) => final(self)@ == old(self)@.room_for(name@, true) && !(old(
                    self,
                )@.branch_ids.dom().contains(name@) && old(self)@.pinned(
                    old(self)@.branch_ids[name@],
                )),
                Err(e) => e == VsError::InvalidArg && final(self)@ == old(self)@ && old(
                    self,
                )@.branch_ids.dom().contains(name@) && old(self)@.pinned(old(
                    self)@.branch_ids[name@]),
            },
    {
        let found = match self.branch_name_to_branch_id.get(name) {
            Some(b) => Some(*b),
            None => None,
        };
        match found {
            Some(b) => {
                if b == INITIAL_BRANCH_ID || b == self.default_branch {
                    return Err(VsError::InvalidArg);
                }
                proof {
                    assert(self@.branch_names.dom().contains(b));
                    assert(self@.visibility.dom() == self@.branch_names.dom());
                }
                self.drop_branch(b);
                Ok(())
            },
            None => Ok(()),
        }
    }

    // What a new branch off `base` shows: the versions of `base` up to the
    // one given, or nothing.
    #[verifier::rlimit(60)]
    fn shown_up_to(&self, base_branch_id: BranchID, base_version_id: Option<VersionID>) -> (r:
        Result<MapxOrd<VersionID, ()>, VsError>)
        requires
            self.wf(),
        ensures
            match r {
                Ok(vers) => {
                    &&& self@.has_branch(base_branch_id)
                    &&& base_version_id.is_some() ==> self@.visibility[base_branch_id].contains(
                        base_version_id.unwrap(),
                    )
                    &&& vers.wf()
                    &&& vers.keys() == (match base_version_id {
                        Some(v) => up_to(self@.visibility[base_branch_id], v),
                        None => Seq::empty(),
                    })
                    &&& increasing(vers.keys())
                    &&& forall|j: int|
                        0 <= j < vers.keys().len() ==> self@.version_names.dom().contains(
                            #[trigger] vers.keys()[j],
                        )
                },
                Err(e) => if !self@.has_branch(base_branch_id) {
                    e == VsError::BranchNotFound
                } else {
                    e == VsError::VersionNotFound && base_version_id.is_some()
                        && !self@.visibility[base_branch_id].contains(base_version_id.unwrap())
                },
            },
    {
        let bi = match self.branch_to_its_versions.find(&base_branch_id) {
            Some(i) => i,
            None => {
                return Err(VsError::BranchNotFound);
            },
        };
        let vers = self.branch_to_its_versions.value_at(bi);
        match base_version_id {
            Some(bv) => {
                if !vers.contains_key(&bv) {
                    return Err(VsError::VersionNotFound);
                }
                let n = vers.upper_bound(&bv);
                proof {
                    lemma_up_to(vers.keys(), bv, n as int);
                }
                let copied = copy_versions(vers, n);
                proof {
                    let base = self@.visibility[base_branch_id];
                    assert forall|j: int| 0 <= j < copied.keys().len()
                        implies self@.version_names.dom().contains(
                    #[trigger] copied.keys()[j]) by {
                        assert(copied.keys()[j] == base[j]);
                        assert(self@.version_names.dom().contains(
                            self@.visibility[base_branch_id][j]));
                    }
                }
                Ok(copied)
            },
            None => Ok(MapxOrd::new()),
        }
    }

    // Puts a new branch into the three tables of branches.
    #[verifier::rlimit(60)]
    fn add_branch(&mut self, name: Vec<u8>, vers: MapxOrd<VersionID, ()>)
        requires
            old(self).wf(),
            !old(self)@.branch_ids.dom().contains(name@),
            old(self)@.next_branch_id < u64::MAX,
            vers.wf(),
            forall|j: int|
                0 <= j < vers.keys().len() ==> old(self)@.version_names.dom().contains(
                    #[trigger] vers.keys()[j],
                ),
        ensures
            final(self).wf(),
            final(self)@ == old(self)@.with_new_branch(name@, vers.keys()),
    {
        let ghost s0 = self@;
        let ghost shown = vers.keys();
        let ghost name_seq = name@;
        proof {
            s0.lemma_with_new_branch_wf(name@, shown);
        }
        let branch_id = self.next_branch_id;
        self.next_branch_id = branch_id + 1;
        assert(!s0.branch_names.dom().contains(branch_id));
        let twin = name.dup();
        self.branch_name_to_branch_id.insert(name, branch_id);
        self.branch_id_to_branch_name.insert(branch_id, twin);
        self.branch_to_its_versions.insert(branch_id, vers);
        proof {
            let s1 = s0.with_new_branch(name_seq, shown);
            assert(self@.branch_ids =~= s1.branch_ids);
            assert(self@.branch_names =~= s1.branch_names);
            assert(self@.visibility =~= s1.visibility);
            assert(self@ == s1);
            assert(self.tables_wf());
        }
    }

    /// Whether a branch exists.
    pub fn branch_exists(&self, branch_id: BranchID) -> (r: bool)
        requires
            self.wf(),
        ensures
            r == self@.has_branch(branch_id),
    {
        assert(self@.visibility.dom() == self@.branch_names.dom());
        self.branch_id_to_branch_name.contains_key(&branch_id)
    }

    /// Whether a branch exists and shows at least one version.
    pub fn branch_has_versions(&self, branch_id: BranchID) -> (r: bool)
        requires
            self.wf(),
        ensures
            r == self@.has_versions(branch_id),
    {
        match self.branch_to_its_versions.get(&branch_id) {
            Some(vers) => !vers.is_empty(),
            None => false,
        }
    }

    /// The identifier of the branch of that name.
    pub fn branch_get_id_by_name(&self, branch_name: BranchName<'_>) -> (r: Option<BranchID>)
        requires
            self.wf(),
        ensures
            r == self@.branch_id(branch_name.0@),
    {
        match self.branch_name_to_branch_id.get(&copy_bytes(branch_name.0)) {
            Some(b) => Some(*b),
            None => None,
        }
    }

    /// The default branch.
    pub fn branch_get_default(&self) -> (r: BranchID)
        ensures
            r == self@.default_branch,
    {
        self.default_branch
    }

    /// The name of the default branch.
    pub fn branch_get_default_name(&self) -> (r: BranchNameOwned)
        requires
            self.wf(),
        ensures
            r.0@ == self@.branch_names[self@.default_branch],
    {
        assert(self@.visibility.dom() == self@.branch_names.dom());
        let name = self.branch_id_to_branch_name.get(&self.default_branch).unwrap();
        BranchNameOwned(copy_bytes(name.as_slice()))
    }

    /// Makes a branch the default: the one that name-free operations work on.
    #[verifier::rlimit(60)]
    pub fn branch_set_default(&mut self, branch_id: BranchID) -> (r: Result<(), VsError>)
        requires
            old(self).wf(),
        ensures
            final(self).wf(),
            old(self)@.branch_set_default(branch_id) == (final(self)@, r),
    {
        if !self.branch_id_to_branch_name.contains_key(&branch_id) {
            return Err(VsError::BranchNotFound);
        }
        self.default_branch = branch_id;
        proof {
            let t = old(self)@.branch_set_default(branch_id).0;
            assert(self@ == t);
            assert(t.wf());
        }
        Ok(())
    }

    /// Whether no version on a branch wrote any key.
    pub fn branch_is_empty(&self, branch_id: BranchID) -> (r: Result<bool, VsError>)
        requires
            self.wf(),
        ensures
            r == (if self@.has_branch(branch_id) {
                Ok(
                    forall|i: int|
                        0 <= i < self@.visibility[branch_id].len()
                            ==> self@.change_sets[#[trigger] self@.visibility[branch_id][i]]
                            =~= Set::<Seq<u8>>::empty(),
                )
            } else {
                Err(VsError::BranchNotFound)
            }),
    {
        let vers = match self.branch_to_its_versions.get(&branch_id) {
            Some(vers) => vers,
            None => {
                return Err(VsError::BranchNotFound);
            },
        };
        let n = vers.len();
        let mut i: usize = 0;
        while i < n
            invariant
                self.wf(),
                vers.wf(),
                n == vers.keys().len(),
                self@.visibility.dom().contains(branch_id),
                self@.visibility[branch_id] == vers.keys(),
                i <= n,
                forall|j: int|
                    0 <= j < i ==> self@.change_sets[#[trigger] self@.visibility[branch_id][j]]
                        =~= Set::<Seq<u8>>::empty(),
            decreases n - i,
        {
            let v = vers.key_at(i);
            assert(self@.version_names.dom().contains(self@.visibility[branch_id][i as int]));
            assert(self@.change_sets.dom().contains(v@));
            let chg = self.version_to_change_set.get(v).unwrap();
            if !chg.is_empty() {
                proof {
                    chg.lemma_entry(0);
                    assert(self@.change_sets[self@.visibility[branch_id][i as int]].contains(
                        chg.keys()[0],
                    ));
                }
                return Ok(false);
            }
            i = i + 1;
        }
        Ok(true)
    }

    /// The names of the branches, in the order of their bytes.
    pub closed spec fn branch_name_seq(&self) -> Seq<Seq<u8>> {
        self.branch_name_to_branch_id.keys()
    }

    /// The branch names strictly increase, and they are the names of the model.
    pub proof fn lemma_branch_name_seq(&self)
        requires
            self.wf(),
        ensures
            sorted::<Vec<u8>>(self.branch_name_seq()),
            forall|n: Seq<u8>| self.branch_name_seq().contains(n)
                <==> self@.branch_ids.dom().contains(n),
    {
    }

    /// There are as many branch names as branches listed.
    pub proof fn lemma_branch_count(&self)
        requires
            self.wf(),
        ensures
            self@.branch_ids.dom().finite(),
            self@.branch_ids.dom().len() == self.branch_name_seq().len(),
    {
        let s = self.branch_name_seq();
        lemma_sorted_distinct::<Vec<u8>>(s);
        assert(s.no_duplicates());
        s.unique_seq_to_set();
        assert(s.to_set() =~= self@.branch_ids.dom());
    }

    /// The names of all branches, in the order of their bytes.
    pub fn branch_list(&self) -> (r: Vec<BranchNameOwned>)
        requires
            self.wf(),
        ensures
            r@.len() == self.branch_name_seq().len(),
            forall|j: int| 0 <= j < r@.len() ==> (#[trigger] r@[j]).0@ == self.branch_name_seq()[j],
    {
        let n = self.branch_name_to_branch_id.len();
        let mut out: Vec<BranchNameOwned> = Vec::new();
        let mut i: usize = 0;
        while i < n
            invariant
                self.wf(),
                n == self.branch_name_seq().len(),
                i <= n,
                out@.len() == i,
                forall|j: int| 0 <= j < i ==> (#[trigger] out@[j]).0@ == self.branch_name_seq()[j],
            decreases n - i,
        {
            let name = self.branch_name_to_branch_id.key_at(i);
            out.push(BranchNameOwned(copy_bytes(name.as_slice())));
            i = i + 1;
        }
        out
    }

    /// Exchanges the names of two branches: each name comes to stand for what
    /// the other stood for. The default branch keeps its name.
    #[verifier::rlimit(60)]
    pub fn branch_swap(&mut self, branch_1: &[u8], branch_2: &[u8]) -> (r: Result<(), VsError>)
        requires
            old(self).wf(),
        ensures
            final(self).wf(),
            old(self)@.branch_swap(branch_1@, branch_2@) == (final(self)@, r),
    {
        let n1 = copy_bytes(branch_1);
        let n2 = copy_bytes(branch_2);
        let brid_1 = match self.branch_name_to_branch_id.get(&n1) {
            Some(b) => *b,
            None => {
                return Err(VsError::BranchNotFound);
            },
        };
        let brid_2 = match self.branch_name_to_branch_id.get(&n2) {
            Some(b) => *b,
            None => {
                return Err(VsError::BranchNotFound);
            },
        };
        self.branch_name_to_branch_id.insert(n1, brid_2);
        self.branch_name_to_branch_id.insert(n2, brid_1);
        self.branch_id_to_branch_name.insert(brid_1, copy_bytes(branch_2));
        self.branch_id_to_branch_name.insert(brid_2, copy_bytes(branch_1));
        if self.default_branch == brid_1 {
            self.default_branch = brid_2;
        } else if self.default_branch == brid_2 {
            self.default_branch = brid_1;
        }
        proof {
            let t = old(self)@.branch_swap(branch_1@, branch_2@).0;
            assert(self@.branch_ids =~= t.branch_ids);
            assert(self@.branch_names =~= t.branch_names);
            assert(self@ == t);
            old(self)@.lemma_branch_swap_wf(branch_1@, branch_2@);
        }
        Ok(())
    }

    /// Removes a branch. Its versions stay, with all that they wrote. The
    /// initial branch and the default branch are not removed.
    pub fn branch_remove(&mut self, branch_id: BranchID) -> (r: Result<(), VsError>)
        requires
            old(self).wf(),
        ensures
            final(self).wf(),
            old(self)@.branch_remove(branch_id) == (final(self)@, r),
    {
        if !self.branch_to_its_versions.contains_key(&branch_id) {
            return Err(VsError::BranchNotFound);
        }
        if branch_id == INITIAL_BRANCH_ID || branch_id == self.default_branch {
            return Err(VsError::InvalidArg);
        }
        self.drop_branch(branch_id);
        Ok(())
    }

    // Takes a branch that does not have to stay out of the three tables of
    // branches.
    #[verifier::rlimit(60)]
    fn drop_branch(&mut self, branch_id: BranchID)
        requires
            old(self).wf(),
            old(self)@.has_branch(branch_id),
            !old(self)@.pinned(branch_id),
        ensures
            final(self).wf(),
            final(self)@ == old(self)@.without_branches(set![branch_id]),
    {
        let ghost s0 = self@;
        assert(s0.visibility.dom().contains(branch_id));
        assert(s0.branch_names.dom().contains(branch_id));
        self.branch_to_its_versions.remove(&branch_id);
        let name = self.branch_id_to_branch_name.remove(&branch_id).unwrap();
        self.branch_name_to_branch_id.remove(&name);
        proof {
            let t = s0.without_branches(set![branch_id]);
            assert(self@.branch_names =~= t.branch_names);
            assert(self@.visibility =~= t.visibility);
            assert(self@.branch_ids =~= t.branch_ids) by {
                assert forall|q: Seq<u8>|
                    s0.branch_ids.dom().contains(q) && s0.branch_ids[q] == branch_id implies q
                    == name@ by {
                    assert(s0.branch_names[s0.branch_ids[q]] == q);
                }
            }
            assert(self@ == t);
            s0.lemma_without_branches_wf(set![branch_id]);
        }
    }

    /// Removes every branch that is not among `branch_ids`, and then every
    /// version that no branch shows any more. The initial branch and the
    /// default branch stay in any case.
    #[verifier::loop_isolation(false)]
    #[verifier::rlimit(60)]
    pub fn branch_keep_only(&mut self, branch_ids: &[BranchID]) -> (r: Result<(), VsError>)
        requires
            old(self).wf(),
        ensures
            final(self).wf(),
            r.is_ok(),
            final(self)@ == old(self)@.branch_keep_only(Set::new(|b: u64| branch_ids@.contains(b))),
    {
        let ghost s0 = self@;
        let ghost keep = Set::new(|b: u64| branch_ids@.contains(b));
        let all = self.branch_to_its_versions.key_list();
        let ghost all_keys = self.branch_to_its_versions.keys();
        assert(all@ =~= all_keys);
        let mut i: usize = 0;
        proof {
            let gone0 = Set::new(
                |b: u64| all@.subrange(0, 0).contains(b) && !keep.contains(b) && !s0.pinned(b),
            );
            assert(gone0 =~= Set::empty());
            let t = s0.without_branches(gone0);
            assert(t.branch_ids =~= s0.branch_ids);
            assert(t.branch_names =~= s0.branch_names);
            assert(t.visibility =~= s0.visibility);
        }
        while i < all.len()
            invariant
                i <= all.len(),
                self.wf(),
                self@ == s0.without_branches(
                    Set::new(
                        |b: u64|
                            all@.subrange(0, i as int).contains(b) && !keep.contains(b)
                                && !s0.pinned(b),
                    ),
                ),
            decreases all.len() - i,
        {
            let b = all[i];
            let ghost gone = Set::new(
                |b: u64|
                    all@.subrange(0, i as int).contains(b) && !keep.contains(b) && !s0.pinned(b),
            );
            let ghost gone2 = Set::new(
                |b: u64| all@.subrange(0, i + 1).contains(b) && !keep.contains(b) && !s0.pinned(b),
            );
            proof {
                let x = all@.subrange(0, i as int);
                let y = all@.subrange(0, i + 1);
                assert forall|q: u64| y.contains(q) <==> (x.contains(q) || q == b) by {
                    if x.contains(q) {
                        let z = x.index_of(q);
                        assert(y[z] == q);
                    }
                    if q == b {
                        assert(y[i as int] == q);
                    }
                    if y.contains(q) {
                        let z = y.index_of(q);
                        if z < i {
                            assert(x[z] == q);
                        }
                    }
                }
            }
            let stays = b == INITIAL_BRANCH_ID || b == self.default_branch || has_id(branch_ids, b);
            if !stays {
                proof {
                    lemma_sorted_distinct::<u64>(all_keys);
                    assert(!gone.contains(b)) by {
                        if all@.subrange(0, i as int).contains(b) {
                            let z = all@.subrange(0, i as int).index_of(b);
                            assert(all_keys[z] == all_keys[i as int]);
                        }
                    }
                    old(self).branch_to_its_versions.lemma_entry(i as int);
                    assert(self@.has_branch(b));
                    assert(gone2 =~= gone.insert(b));
                    let t1 = s0.without_branches(gone).without_branches(set![b]);
                    let t2 = s0.without_branches(gone2);
                    assert(t1.branch_ids =~= t2.branch_ids);
                    assert(t1.branch_names =~= t2.branch_names);
                    assert(t1.visibility =~= t2.visibility);
                }
                self.drop_branch(b);
            } else {
                proof {
                    assert(gone2 =~= gone);
                }
            }
            i = i + 1;
        }
        proof {
            assert(all@.subrange(0, all@.len() as int) =~= all@);
            let gone = Set::new(|b: u64| all@.contains(b) && !keep.contains(b) && !s0.pinned(b));
            let spec_gone = Set::new(
                |b: u64| s0.has_branch(b) && !keep.contains(b) && !s0.pinned(b),
            );
            assert(gone =~= spec_gone) by {
                assert forall|q: u64| gone.contains(q) <==> spec_gone.contains(q) by {
                    if all@.contains(q) {
                        let z = all_keys.index_of(q);
                        old(self).branch_to_its_versions.lemma_entry(z);
                    }
                    if s0.has_branch(q) {
                        assert(all_keys.contains(q));
                    }
                }
            }
        }
        self.version_clean_up_globally();
        Ok(())
    }

    /// Takes every version off a branch. The branch stays, empty.
    pub fn branch_truncate(&mut self, branch_id: BranchID) -> (r: Result<(), VsError>)
        requires
            old(self).wf(),
        ensures
            final(self).wf(),
            old(self)@.branch_truncate(branch_id) == (final(self)@, r),
    {
        match self.branch_to_its_versions.find(&branch_id) {
            None => Err(VsError::BranchNotFound),
            Some(i) => {
                self.cut_branch(i, 0);
                assert(old(self)@.visibility[branch_id].subrange(0, 0) =~= Seq::<u64>::empty());
                Ok(())
            },
        }
    }

    /// Takes every version newer than `last_version_id` off a branch.
    pub fn branch_truncate_to(&mut self, branch_id: BranchID, last_version_id: VersionID) -> (r:
        Result<(), VsError>)
        requires
            old(self).wf(),
        ensures
            final(self).wf(),
            old(self)@.branch_truncate_to(branch_id, last_version_id) == (final(self)@, r),
    {
        match self.branch_to_its_versions.find(&branch_id) {
            None => Err(VsError::BranchNotFound),
            Some(i) => {
                let n = self.branch_to_its_versions.value_at(i).upper_bound(&last_version_id);
                proof {
                    lemma_up_to(old(self)@.visibility[branch_id], last_version_id, n as int);
                }
                self.cut_branch(i, n);
                Ok(())
            },
        }
    }

    /// Takes the newest version off a branch.
    pub fn branch_pop_version(&mut self, branch_id: BranchID) -> (r: Result<(), VsError>)
        requires
            old(self).wf(),
        ensures
            final(self).wf(),
            old(self)@.version_pop(branch_id) == (final(self)@, r),
    {
        self.version_pop_by_branch(branch_id)
    }

    // Keeps the `n` oldest versions of the branch at place `i` and takes the
    // others off it.
    #[verifier::rlimit(60)]
    fn cut_branch(&mut self, i: usize, n: usize)
        requires
            old(self).wf(),
            i < old(self).branch_to_its_versions.keys().len(),
            n <= old(self).branch_to_its_versions.vals()[i as int].keys().len(),
        ensures
            final(self).wf(),
            final(self)@ == old(self)@.with_branch(
                old(self).branch_to_its_versions.keys()[i as int],
                old(self).branch_to_its_versions.vals()[i as int].keys().subrange(0, n as int),
            ),
    {
        let ghost br_keys = self.branch_to_its_versions.keys();
        let ghost br_vals = self.branch_to_its_versions.vals();
        let ghost b = br_keys[i as int];
        proof {
            self.branch_to_its_versions.lemma_entry(i as int);
            self@.lemma_with_branch_prefix_wf(b, n as int);
        }
        let vers = self.branch_to_its_versions.value_mut(i);
        vers.truncate(n);
        proof {
            lemma_update_value::<BranchID, MapxOrd<VersionID, ()>>(
                br_keys,
                br_vals,
                self.branch_to_its_versions.vals()[i as int],
                i as int,
            );
            let t = old(self)@.with_branch(b, br_vals[i as int].keys().subrange(0, n as int));
            assert(self@.visibility =~= t.visibility);
            assert(self@ == t);
        }
    }

    // Merging

    /// Merges a branch into another: the target comes to show the versions of
    /// the branch that it lacks. Refused if the target has moved on by itself.
    pub fn branch_merge_to(&mut self, branch_id: BranchID, target_branch_id: BranchID) -> (r:
        Result<(), VsError>)
        requires
            old(self).wf(),
        ensures
            final(self).wf(),
            old(self)@.branch_merge(branch_id, target_branch_id, false) == (final(self)@, r),
    {
        self.do_branch_merge_to(branch_id, target_branch_id, false)
    }

    /// Merges a branch into another, even if the target has moved on by itself.
    pub fn branch_merge_to_force(&mut self, branch_id: BranchID, target_branch_id: BranchID) -> (r:
        Result<(), VsError>)
        requires
            old(self).wf(),
        ensures
            final(self).wf(),
            old(self)@.branch_merge(branch_id, target_branch_id, true) == (final(self)@, r),
    {
        self.do_branch_merge_to(branch_id, target_branch_id, true)
    }

    #[verifier::loop_isolation(false)]
    #[verifier::rlimit(60)]
    fn do_branch_merge_to(&mut self, branch_id: BranchID, target_branch_id: BranchID, force: bool)
        -> (r:
        Result<(), VsError>)
        requires
            old(self).wf(),
        ensures
            final(self).wf(),
            old(self)@.branch_merge(branch_id, target_branch_id, force) == (final(self)@, r),
    {
        let ghost s0 = self@;
        let si = match self.branch_to_its_versions.find(&branch_id) {
            Some(i) => i,
            None => {
                return Err(VsError::BranchNotFound);
            },
        };
        let ti = match self.branch_to_its_versions.find(&target_branch_id) {
            Some(i) => i,
            None => {
                return Err(VsError::BranchNotFound);
            },
        };
        let vers = self.branch_to_its_versions.value_at(si);
        let target_vers = self.branch_to_its_versions.value_at(ti);
        let ghost s = vers.keys();
        let ghost t = target_vers.keys();
        let tn = target_vers.len();
        if !force && tn > 0 {
            if !vers.contains_key(target_vers.key_at(tn - 1)) {
                // the target has versions that the branch has never seen
                return Err(VsError::MergeUnsafe);
            }
        }
        let src = vers.key_list();
        assert(src@ =~= s);
        let mut i: usize = 0;
        while i < src.len() && i < tn && src[i] == *target_vers.key_at(i)
            invariant
                i <= src.len(),
                i <= tn,
                forall|j: int| 0 <= j < i ==> s[j] == t[j],
            decreases src.len() - i,
        {
            i = i + 1;
        }
        proof {
            if i < src.len() && i < tn {
                assert(fork_at(s, t, i as int));
                lemma_fork_unique(s, t, i as int);
            } else {
                assert forall|j: int| !fork_at(s, t, j) by {}
            }
        }
        if i == src.len() {
            proof {
                assert(merged(s, t) == t);
                assert(s0.with_branch(target_branch_id, t).visibility =~= s0.visibility);
            }
            return Ok(());
        }
        let ghost br_keys = self.branch_to_its_versions.keys();
        let ghost br_vals = self.branch_to_its_versions.vals();
        let target_vers = self.branch_to_its_versions.value_mut(ti);
        add_versions(target_vers, &src, i);
        proof {
            lemma_update_value::<BranchID, MapxOrd<VersionID, ()>>(
                br_keys,
                br_vals,
                self.branch_to_its_versions.vals()[ti as int],
                ti as int,
            );
            let m = merged(s, t);
            assert(m == insert_all(t, s.skip(i as int)));
            let u = s0.with_branch(target_branch_id, m);
            assert(self@.visibility =~= u.visibility);
            assert(self@ == u);
            lemma_insert_all(t, s.skip(i as int));
            assert forall|j: int| 0 <= j < m.len() implies s0.version_names.dom().contains(
                #[trigger] m[j],
            ) by {
                assert(m.contains(m[j]));
                if t.contains(m[j]) {
                    let y = t.index_of(m[j]);
                    assert(s0.version_names.dom().contains(s0.visibility[target_branch_id][y]));
                } else {
                    let y = s.skip(i as int).index_of(m[j]);
                    assert(s.skip(i as int)[y] == s[y + i]);
                    assert(s0.version_names.dom().contains(s0.visibility[branch_id][y + i]));
                }
            }
            s0.lemma_with_branch_wf(target_branch_id, m);
        }
        Ok(())
    }

    // Taking versions out

    /// Takes out every version that no branch shows, with all that it wrote.
    #[verifier::loop_isolation(false)]
    #[verifier::rlimit(60)]
    pub fn version_clean_up_globally(&mut self)
        requires
            old(self).wf(),
        ensures
            final(self).wf(),
            final(self)@ == old(self)@.clean_up(),
    {
        let ghost s0 = self@;
        let ids = self.version_to_change_set.key_list();
        let ghost all = self.version_to_change_set.keys();
        assert(ids@ =~= all);
        let mut i: usize = 0;
        proof {
            let dead0 = Set::new(|v: u64| ids@.subrange(0, 0).contains(v) && !s0.in_use(v));
            assert(dead0 =~= Set::empty());
            s0.lemma_fold_none(0, Keep::Nothing);
        }
        while i < ids.len()
            invariant
                i <= ids.len(),
                self.wf(),
                self@ == s0.fold(
                    Set::new(|v: u64| ids@.subrange(0, i as int).contains(v) && !s0.in_use(v)),
                    0,
                    Keep::Nothing,
                ),
            decreases ids.len() - i,
        {
            let v = ids[i];
            let ghost dead = Set::new(|v: u64| ids@.subrange(0, i as int).contains(v)
                && !s0.in_use(v));
            let ghost dead2 = Set::new(|v: u64| ids@.subrange(0, i + 1).contains(v)
                && !s0.in_use(v));
            proof {
                assert forall|q: u64| ids@.subrange(0, i + 1).contains(q) <==> (ids@.subrange(
                    0,
                    i as int,
                ).contains(q) || q == v) by {
                    let a = ids@.subrange(0, i as int);
                    let b = ids@.subrange(0, i + 1);
                    if a.contains(q) {
                        let x = a.index_of(q);
                        assert(b[x] == q);
                    }
                    if q == v {
                        assert(b[i as int] == q);
                    }
                    if b.contains(q) {
                        let x = b.index_of(q);
                        if x < i {
                            assert(a[x] == q);
                        }
                    }
                }
                assert forall|a: u64| dead.contains(a) implies a < v by {
                    let x = ids@.subrange(0, i as int).index_of(a);
                    assert(ids@[x] == a);
                    assert(u64::before(all[x], all[i as int]));
                }
                assert(self@.visibility == s0.visibility);
                assert(self@.in_use(v) == s0.in_use(v)) by {
                    if self@.in_use(v) {
                        let b = choose|b: u64| self@.on_branch(b, v);
                        assert(s0.on_branch(b, v));
                    }
                    if s0.in_use(v) {
                        let b = choose|b: u64| s0.on_branch(b, v);
                        assert(self@.on_branch(b, v));
                    }
                }
            }
            if !self.version_in_use(v) {
                proof {
                    old(self).version_to_change_set.lemma_entry(i as int);
                    assert(s0.change_sets.dom().contains(v));
                    assert(self@.change_sets.dom().contains(v));
                    s0.lemma_fold_step(dead, v, 0, Keep::Nothing);
                    assert(dead2 =~= dead.insert(v));
                }
                self.fold_version(v, 0, Keep::Nothing);
            } else {
                proof {
                    assert(dead2 =~= dead);
                }
            }
            i = i + 1;
        }
        proof {
            assert(ids@.subrange(0, ids.len() as int) =~= ids@);
            let dead = Set::new(|v: u64| ids@.contains(v) && !s0.in_use(v));
            assert(dead =~= s0.orphans()) by {
                assert forall|q: u64| dead.contains(q) <==> s0.orphans().contains(q) by {
                    if s0.change_sets.dom().contains(q) {
                        assert(all.contains(q));
                    }
                    if ids@.contains(q) {
                        let x = all.index_of(q);
                        old(self).version_to_change_set.lemma_entry(x);
                    }
                }
            }
        }
    }

    /// Purges a version from the whole store: it leaves every branch, the name
    /// tables, and the history of every key that it wrote.
    #[verifier::loop_isolation(false)]
    #[verifier::rlimit(60)]
    pub fn version_revert_globally(&mut self, version_id: VersionID) -> (r: Result<(), VsError>)
        requires
            old(self).wf(),
        ensures
            final(self).wf(),
            old(self)@.version_revert(version_id) == (final(self)@, r),
    {
        if !self.version_to_change_set.contains_key(&version_id) {
            return Err(VsError::VersionNotFound);
        }
        let ghost s0 = self@;
        let ghost keys0 = self.branch_to_its_versions.keys();
        let ghost vals0 = self.branch_to_its_versions.vals();
        let nb = self.branch_to_its_versions.len();
        let mut x: usize = 0;
        while x < nb
            invariant
                x <= nb,
                self.tables_wf(),
                self.branch_to_its_versions.keys() == keys0,
                self.branch_to_its_versions.vals().len() == nb,
                forall|y: int|
                    0 <= y < x ==> (#[trigger] self.branch_to_its_versions.vals()[y]).keys()
                        == remove_key::<u64>(vals0[y].keys(), version_id),
                forall|y: int|
                    x <= y < nb ==> #[trigger] self.branch_to_its_versions.vals()[y] == vals0[y],
                self@.default_branch == s0.default_branch,
                self@.branch_ids == s0.branch_ids,
                self@.branch_names == s0.branch_names,
                self@.version_ids == s0.version_ids,
                self@.version_names == s0.version_names,
                self@.change_sets == s0.change_sets,
                self@.layers == s0.layers,
                self@.next_branch_id == s0.next_branch_id,
                self@.next_version_id == s0.next_version_id,
            decreases nb - x,
        {
            let vers = self.branch_to_its_versions.value_mut(x);
            vers.remove(&version_id);
            x = x + 1;
        }
        proof {
            let t = s0.without_version(version_id);
            assert(self@.visibility.dom() =~= t.visibility.dom());
            assert forall|b: u64| self@.visibility.dom().contains(b)
                implies #[trigger] self@.visibility[b]
                == t.visibility[b] by {
                let y = keys0.index_of(b);
                self.branch_to_its_versions.lemma_entry(y);
                old(self).branch_to_its_versions.lemma_entry(y);
            }
            assert(self@.visibility =~= t.visibility);
            assert(self@ == t);
            s0.lemma_without_version_wf(version_id);
        }
        self.fold_version(version_id, 0, Keep::Nothing);
        Ok(())
    }

    /// Whether no other branch shows a version of the branch that is newer
    /// than `base_version`: what a rebase of the branch onto it asks for.
    #[verifier::loop_isolation(false)]
    pub fn branch_owns_after(&self, branch_id: BranchID, base_version: VersionID) -> (r: bool)
        requires
            self.wf(),
        ensures
            r == self@.sole_owner_after(branch_id, base_version),
    {
        let vers = match self.branch_to_its_versions.get(&branch_id) {
            Some(vers) => vers,
            None => {
                return true;
            },
        };
        let ghost vis = vers.keys();
        let first = vers.upper_bound(&base_version);
        let n = vers.len();
        let nb = self.branch_to_its_versions.len();
        let mut i: usize = first;
        while i < n
            invariant
                first <= i <= n,
                forall|x: int, c: u64|
                    first <= x < i && c != branch_id ==> !#[trigger] self@.on_branch(c, vis[x]),
            decreases n - i,
        {
            let v = *vers.key_at(i);
            let mut j: usize = 0;
            while j < nb
                invariant
                    j <= nb,
                    forall|y: int|
                        0 <= y < j && self.branch_to_its_versions.keys()[y] != branch_id
                            ==> !(#[trigger] self.branch_to_its_versions.vals()[y]).keys().contains(
                                v),
                decreases nb - j,
            {
                let c = *self.branch_to_its_versions.key_at(j);
                if c != branch_id && self.branch_to_its_versions.value_at(j).contains_key(&v) {
                    proof {
                        self.branch_to_its_versions.lemma_entry(j as int);
                        assert(self@.on_branch(c, v));
                        assert(self@.on_branch(branch_id, v));
                        assert(v > base_version);
                    }
                    return false;
                }
                j = j + 1;
            }
            proof {
                assert forall|c: u64| c != branch_id implies !self@.on_branch(c, v) by {
                    if self@.visibility.dom().contains(c) {
                        let y = self.branch_to_its_versions.keys().index_of(c);
                        self.branch_to_its_versions.lemma_entry(y);
                    }
                }
            }
            i = i + 1;
        }
        proof {
            assert forall|c: u64, v: u64|
                c != branch_id && v > base_version && self@.on_branch(branch_id, v)
                    implies !#[trigger] self@.on_branch(
                c,
                v,
            ) by {
                let x = vis.index_of(v);
                assert(vis[x] == v);
                assert(first <= x);
            }
        }
        true
    }

    /// Folds every version of the default branch that is newer than
    /// `base_version` into `base_version`.
    pub fn version_rebase(&mut self, base_version: VersionID) -> (r: Result<(), VsError>)
        requires
            old(self).wf(),
            old(self)@.sole_owner_after(old(self)@.default_branch, base_version),
        ensures
            final(self).wf(),
            old(self)@.version_rebase(base_version, old(self)@.default_branch) == (final(self)@, r),
    {
        let b = self.default_branch;
        self.version_rebase_by_branch(base_version, b)
    }

    /// Folds every version of a branch that is newer than `base_version` into
    /// `base_version`: the newer versions leave the branch and the store, and
    /// for each key that they wrote, `base_version` holds afterwards what the
    /// newest of them wrote. No other branch may show one of those versions.
    #[verifier::loop_isolation(false)]
    #[verifier::rlimit(60)]
    pub fn version_rebase_by_branch(&mut self, base_version: VersionID, branch_id: BranchID) -> (r:
        Result<(), VsError>)
        requires
            old(self).wf(),
            old(self)@.sole_owner_after(branch_id, base_version),
        ensures
            final(self).wf(),
            old(self)@.version_rebase(base_version, branch_id) == (final(self)@, r),
    {
        let ghost s0 = self@;
        let i = match self.branch_to_its_versions.find(&branch_id) {
            Some(i) => i,
            None => {
                return Err(VsError::BranchNotFound);
            },
        };
        let vers = self.branch_to_its_versions.value_at(i);
        let ghost vis = vers.keys();
        let pos = match vers.find(&base_version) {
            Some(pos) => pos,
            None => {
                return Err(VsError::VersionNotFound);
            },
        };
        let n = vers.len();
        let mut tail: Vec<VersionID> = Vec::new();
        let mut j: usize = pos + 1;
        while j < n
            invariant
                pos < j <= n,
                tail@ == vis.subrange(pos + 1, j as int),
            decreases n - j,
        {
            tail.push(*vers.key_at(j));
            assert(tail@ =~= vis.subrange(pos + 1, j + 1));
            j = j + 1;
        }
        proof {
            assert(is_cut(vis, base_version, pos + 1)) by {
                assert forall|x: int| 0 <= x < pos + 1 implies #[trigger] vis[x]
                    <= base_version by {
                    if x < pos {
                        assert(u64::before(vis[x], vis[pos as int]));
                    }
                }
                assert forall|x: int| pos + 1 <= x < vis.len() implies #[trigger] vis[x]
                    > base_version by {
                    assert(u64::before(vis[pos as int], vis[x]));
                }
            }
            lemma_up_to(vis, base_version, pos + 1);
        }
        self.cut_branch(i, pos + 1);
        let ghost s1 = self@;
        let ghost gone = s0.newer_on(branch_id, base_version);
        proof {
            assert(s0.visibility[branch_id] == vis);
            assert(s0.version_names.dom().contains(s0.visibility[branch_id][pos as int]));
            let dead0 = Set::new(|v: u64| tail@.subrange(0, 0).contains(v));
            assert(dead0 =~= Set::empty());
            s1.lemma_fold_none(base_version, Keep::Always);
        }
        let mut k: usize = 0;
        while k < tail.len()
            invariant
                k <= tail.len(),
                self.wf(),
                self@ == s1.fold(
                    Set::new(|v: u64| tail@.subrange(0, k as int).contains(v)),
                    base_version,
                    Keep::Always,
                ),
            decreases tail.len() - k,
        {
            let v = tail[k];
            let ghost dead = Set::new(|v: u64| tail@.subrange(0, k as int).contains(v));
            let ghost dead2 = Set::new(|v: u64| tail@.subrange(0, k + 1).contains(v));
            proof {
                let a = tail@.subrange(0, k as int);
                let b = tail@.subrange(0, k + 1);
                assert(v == vis[pos + 1 + k]);
                assert forall|q: u64| dead2.contains(q) <==> (dead.contains(q) || q == v) by {
                    if a.contains(q) {
                        let y = a.index_of(q);
                        assert(b[y] == q);
                    }
                    if q == v {
                        assert(b[k as int] == q);
                    }
                    if b.contains(q) {
                        let y = b.index_of(q);
                        if y < k {
                            assert(a[y] == q);
                        }
                    }
                }
                assert(dead2 =~= dead.insert(v));
                assert forall|q: u64| dead.contains(q) implies q < v && q != base_version by {
                    let y = a.index_of(q);
                    assert(tail@[y] == q);
                    assert(q == vis[pos + 1 + y]);
                    assert(u64::before(vis[pos + 1 + y], vis[pos + 1 + k]));
                    assert(u64::before(vis[pos as int], vis[pos + 1 + y]));
                }
                assert(u64::before(vis[pos as int], vis[pos + 1 + k]));
                assert(s0.on_branch(branch_id, v));
                assert(s0.version_names.dom().contains(vis[pos + 1 + k]));
                assert(self@.visibility == s1.visibility);
                assert forall|c: u64| !self@.on_branch(c, v) by {
                    if c != branch_id {
                        assert(!s0.on_branch(c, v));
                    } else if self@.on_branch(c, v) {
                        let y = s1.visibility[c].index_of(v);
                        assert(s1.visibility[c][y] == v);
                        assert(vis[y] == v);
                        if y < pos {
                            assert(u64::before(vis[y], vis[pos as int]));
                        }
                    }
                }
                s1.lemma_fold_step(dead, v, base_version, Keep::Always);
            }
            self.fold_version(v, base_version, Keep::Always);
            k = k + 1;
        }
        proof {
            assert(tail@.subrange(0, tail@.len() as int) =~= tail@);
            let dead = Set::new(|v: u64| tail@.contains(v));
            assert(dead =~= gone) by {
                assert forall|q: u64| dead.contains(q) <==> gone.contains(q) by {
                    if tail@.contains(q) {
                        let y = tail@.index_of(q);
                        assert(tail@[y] == q);
                        assert(vis[pos + 1 + y] == q);
                        assert(u64::before(vis[pos as int], vis[pos + 1 + y]));
                    }
                    if gone.contains(q) {
                        let y = vis.index_of(q);
                        assert(vis[y] == q);
                        if y < pos {
                            assert(u64::before(vis[y], vis[pos as int]));
                        }
                        assert(tail@[y - pos - 1] == q);
                    }
                }
            }
        }
        Ok(())
    }

    /// Cuts the history that all branches share down to its newest versions,
    /// `reserved_ver_num` of them, or the default number. First every version
    /// that no branch shows is taken out. Then the older versions of the
    /// common prefix leave every branch, and for each key the newest value
    /// among them moves to the oldest version kept, unless the key has a value
    /// at or below that version already.
    #[verifier::loop_isolation(false)]
    #[verifier::rlimit(60)]
    pub fn prune(&mut self, reserved_ver_num: Option<usize>) -> (r: Result<(), VsError>)
        requires
            old(self).wf(),
        ensures
            final(self).wf(),
            old(self)@.prune(reserved(reserved_ver_num)) == (final(self)@, r),
    {
        self.version_clean_up_globally();
        let n = match reserved_ver_num {
            Some(n) => n,
            None => RESERVED_VERSION_NUM_DEFAULT,
        };
        if n == 0 {
            return Err(VsError::PruneZero);
        }
        let p = self.common_prefix();
        if p.len() <= n {
            return Ok(());
        }
        let cut = p.len() - n;
        let rewrite = p[cut];
        let ghost s1 = self@;
        proof {
            s1.lemma_drop_oldest_wf(p@, cut as nat);
        }
        self.drop_oldest(cut);
        let ghost s2 = self@;
        let mut i: usize = 0;
        proof {
            let dead0 = Set::new(|v: u64| p@.subrange(0, 0).contains(v));
            assert(dead0 =~= Set::empty());
            s2.lemma_fold_none(rewrite, Keep::IfBare);
        }
        while i < cut
            invariant
                i <= cut,
                self.wf(),
                self@ == s2.fold(
                    Set::new(|v: u64| p@.subrange(0, i as int).contains(v)),
                    rewrite,
                    Keep::IfBare,
                ),
            decreases cut - i,
        {
            let v = p[i];
            let ghost dead = Set::new(|v: u64| p@.subrange(0, i as int).contains(v));
            let ghost dead2 = Set::new(|v: u64| p@.subrange(0, i + 1).contains(v));
            proof {
                let a = p@.subrange(0, i as int);
                let b = p@.subrange(0, i + 1);
                assert(b =~= a.push(v));
                assert forall|q: u64| dead2.contains(q) <==> (dead.contains(q) || q == v) by {
                    if a.contains(q) {
                        let y = a.index_of(q);
                        assert(b[y] == q);
                    }
                    if q == v {
                        assert(b[i as int] == q);
                    }
                    if b.contains(q) {
                        let y = b.index_of(q);
                        if y < i {
                            assert(a[y] == q);
                        }
                    }
                }
                assert(dead2 =~= dead.insert(v));
                assert forall|q: u64| dead.contains(q) implies q < v by {
                    let y = a.index_of(q);
                    assert(p@[y] == q);
                    assert(u64::before(p@[y], p@[i as int]));
                }
                assert(u64::before(p@[i as int], p@[cut as int]));
                assert(!dead.contains(rewrite)) by {
                    if dead.contains(rewrite) {
                        let y = a.index_of(rewrite);
                        assert(u64::before(p@[y], p@[cut as int]));
                    }
                }
                assert(!s2.in_use(v));
                assert(self@.visibility == s2.visibility);
                assert(!self@.in_use(v)) by {
                    if self@.in_use(v) {
                        let b = choose|b: u64| self@.on_branch(b, v);
                        assert(s2.on_branch(b, v));
                    }
                }
                s2.lemma_fold_step(dead, v, rewrite, Keep::IfBare);
            }
            self.fold_version(v, rewrite, Keep::IfBare);
            i = i + 1;
        }
        Ok(())
    }

    // The longest run of versions with which every non-empty branch begins.
    #[verifier::loop_isolation(false)]
    #[verifier::rlimit(60)]
    fn common_prefix(&self) -> (r: Vec<VersionID>)
        requires
            self.wf(),
        ensures
            r@ == self@.common_prefix(),
            r@.len() > 0 ==> self@.longest_shared(r@),
    {
        let tab = &self.branch_to_its_versions;
        let nb = tab.len();
        let mut first: usize = 0;
        while first < nb && tab.value_at(first).is_empty()
            invariant
                first <= nb,
                forall|x: int| 0 <= x < first ==> (#[trigger] tab.vals()[x]).keys().len() == 0,
            decreases nb - first,
        {
            first = first + 1;
        }
        if first == nb {
            proof {
                assert forall|b: u64| !self@.has_versions(b) by {
                    if self@.visibility.dom().contains(b) {
                        let x = tab.keys().index_of(b);
                        tab.lemma_entry(x);
                    }
                }
                self@.lemma_common_prefix_none();
            }
            return Vec::new();
        }
        let base = tab.value_at(first);
        let mut len: usize = base.len();
        let ghost mut wit: int = first as int;
        let mut x: usize = first + 1;
        while x < nb
            invariant
                first < x <= nb,
                len <= base.keys().len(),
                first <= wit < x,
                tab.vals()[wit].keys().len() > 0,
                len == tab.vals()[wit].keys().len() || (len < tab.vals()[wit].keys().len() && len
                    < base.keys().len() && tab.vals()[wit].keys()[len as int]
                    != base.keys()[len as int]),
                forall|y: int|
                    first <= y < x && (#[trigger] tab.vals()[y]).keys().len() > 0
                        ==> base.keys().subrange(0, len as int).is_prefix_of(tab.vals()[y].keys()),
            decreases nb - x,
        {
            let other = tab.value_at(x);
            if !other.is_empty() {
                let mut j: usize = 0;
                while j < len && j < other.len() && *base.key_at(j) == *other.key_at(j)
                    invariant
                        j <= len,
                        j <= other.keys().len(),
                        forall|q: int| 0 <= q < j ==> base.keys()[q] == other.keys()[q],
                    decreases len - j,
                {
                    j = j + 1;
                }
                proof {
                    if j < len {
                        wit = x as int;
                    }
                    assert(base.keys().subrange(0, j as int) =~= other.keys().subrange(0,
                        j as int));
                    assert forall|y: int|
                        first <= y < x + 1 && (#[trigger] tab.vals()[y]).keys().len() > 0
                            implies base.keys().subrange(0, j as int).is_prefix_of(
                            tab.vals()[y].keys(),
                        ) by {
                        if y < x {
                            let pre = base.keys().subrange(0, len as int);
                            assert(pre.is_prefix_of(tab.vals()[y].keys()));
                            assert(base.keys().subrange(0,
                                j as int) =~= tab.vals()[y].keys().subrange(
                                0,
                                j as int,
                            )) by {
                                assert forall|q: int| 0 <= q < j implies base.keys()[q]
                                    == tab.vals()[y].keys()[q] by {
                                    assert(pre[q] == tab.vals()[y].keys().subrange(
                                        0,
                                        len as int,
                                    )[q]);
                                }
                            }
                        }
                    }
                }
                len = j;
            }
            x = x + 1;
        }
        let mut r: Vec<VersionID> = Vec::new();
        let mut i: usize = 0;
        while i < len
            invariant
                i <= len,
                r@ == base.keys().subrange(0, i as int),
            decreases len - i,
        {
            r.push(*base.key_at(i));
            assert(r@ =~= base.keys().subrange(0, i + 1));
            i = i + 1;
        }
        proof {
            let p = r@;
            let m = self@;
            tab.lemma_entry(first as int);
            tab.lemma_entry(wit);
            let b_first = tab.keys()[first as int];
            let b_wit = tab.keys()[wit];
            assert(m.has_versions(b_first));
            assert(m.has_versions(b_wit));
            assert(p.is_prefix_of(base.keys()));
            assert forall|b: u64| #[trigger] m.has_versions(b) implies p.is_prefix_of(
                m.visibility[b],
            ) by {
                let y = tab.keys().index_of(b);
                tab.lemma_entry(y);
            }
            assert forall|q: Seq<u64>| #[trigger] m.shared(q) implies q.len() <= p.len() by {
                assert(q.is_prefix_of(m.visibility[b_first]));
                assert(q.is_prefix_of(m.visibility[b_wit]));
                if q.len() > len {
                    assert(q[len as int] == base.keys()[len as int]);
                    assert(q[len as int] == tab.vals()[wit].keys()[len as int]);
                }
            }
            assert(m.longest_shared(p));
            m.lemma_common_prefix(p);
        }
        r
    }

    // Takes the `cut` oldest versions off every branch that shows that many.
    #[verifier::loop_isolation(false)]
    #[verifier::rlimit(60)]
    fn drop_oldest(&mut self, cut: usize)
        requires
            old(self).tables_wf(),
        ensures
            final(self).tables_wf(),
            final(self)@ == old(self)@.drop_oldest(cut as nat),
    {
        let ghost s0 = self@;
        let ghost keys0 = self.branch_to_its_versions.keys();
        let ghost vals0 = self.branch_to_its_versions.vals();
        let nb = self.branch_to_its_versions.len();
        let mut x: usize = 0;
        while x < nb
            invariant
                x <= nb,
                self.tables_wf(),
                self.branch_to_its_versions.keys() == keys0,
                self.branch_to_its_versions.vals().len() == nb,
                forall|y: int|
                    0 <= y < x ==> (#[trigger] self.branch_to_its_versions.vals()[y]).keys()
                        == (if vals0[y].keys().len()
                        >= cut {
                        vals0[y].keys().skip(cut as int)
                    } else {
                        vals0[y].keys()
                    }),
                forall|y: int|
                    x <= y < nb ==> #[trigger] self.branch_to_its_versions.vals()[y] == vals0[y],
                self@.default_branch == s0.default_branch,
                self@.branch_ids == s0.branch_ids,
                self@.branch_names == s0.branch_names,
                self@.version_ids == s0.version_ids,
                self@.version_names == s0.version_names,
                self@.change_sets == s0.change_sets,
                self@.layers == s0.layers,
                self@.next_branch_id == s0.next_branch_id,
                self@.next_version_id == s0.next_version_id,
            decreases nb - x,
        {
            if self.branch_to_its_versions.value_at(x).len() >= cut {
                let vers = self.branch_to_its_versions.value_mut(x);
                vers.drop_front(cut);
            }
            x = x + 1;
        }
        proof {
            let t = s0.drop_oldest(cut as nat);
            assert(self@.visibility.dom() =~= t.visibility.dom());
            assert forall|b: u64| self@.visibility.dom().contains(b)
                implies #[trigger] self@.visibility[b]
                == t.visibility[b] by {
                let y = keys0.index_of(b);
                self.branch_to_its_versions.lemma_entry(y);
                old(self).branch_to_its_versions.lemma_entry(y);
            }
            assert(self@.visibility =~= t.visibility);
        }
    }

    // Takes one version that no branch shows out of the name tables, the
    // change-sets and the history of every key that it wrote.
    #[verifier::loop_isolation(false)]
    #[verifier::rlimit(60)]
    fn fold_version(&mut self, v: VersionID, into: VersionID, keep: Keep)
        requires
            old(self).wf(),
            old(self)@.change_sets.dom().contains(v),
            !old(self)@.in_use(v),
            keep != Keep::Nothing ==> old(self)@.change_sets.dom().contains(into) && into != v,
        ensures
            final(self).wf(),
            final(self)@ == old(self)@.fold(set![v], into, keep),
    {
        let ghost s0 = self@;
        let ghost dead = set![v];
        let chg = self.version_to_change_set.remove(&v).unwrap();
        let n = chg.len();
        let mut j: usize = 0;
        assert(self@.change_sets =~= s0.change_sets.remove(v));
        while j < n
            invariant
                self.tables_wf(),
                j <= n,
                self@.default_branch == s0.default_branch,
                self@.branch_ids == s0.branch_ids,
                self@.branch_names == s0.branch_names,
                self@.version_ids == s0.version_ids,
                self@.version_names == s0.version_names,
                self@.visibility == s0.visibility,
                self@.next_branch_id == s0.next_branch_id,
                self@.next_version_id == s0.next_version_id,
                self@.layers.dom() == s0.layers.dom(),
                forall|k: Seq<u8>| #[trigger]
                    s0.layers.dom().contains(k) ==> self@.layers[k] == (if chg.keys().subrange(
                        0,
                        j as int,
                    ).contains(k) {
                        fold_layer(s0.layers[k], dead, into, keep)
                    } else {
                        s0.layers[k]
                    }),
                self@.change_sets.dom() == s0.change_sets.dom().remove(v),
                forall|w: u64| #[trigger]
                    self@.change_sets.dom().contains(w) && (w != into || keep == Keep::Nothing)
                        ==> self@.change_sets[w] == s0.change_sets[w],
                keep != Keep::Nothing ==> self@.change_sets[into] == s0.change_sets[into].union(
                    Set::new(
                        |k: Seq<u8>|
                            chg.keys().subrange(0, j as int).contains(k) && moves(
                                s0.layers[k],
                                dead,
                                into,
                                keep,
                            ),
                    ),
                ),
            decreases n - j,
        {
            let k = chg.key_at(j);
            let ghost done = chg.keys().subrange(0, j as int);
            let ghost done2 = chg.keys().subrange(0, j + 1);
            let ghost m = s0.layers[k@];
            proof {
                chg.lemma_entry(j as int);
                assert(s0.change_sets[v].contains(k@));
                assert(s0.layers.dom().contains(k@) && s0.layers[k@].dom().contains(v));
                lemma_sorted_distinct::<Vec<u8>>(chg.keys());
                assert(!done.contains(k@)) by {
                    if done.contains(k@) {
                        let x = done.index_of(k@);
                        assert(chg.keys()[x] == k@);
                    }
                }
                assert(done2 =~= done.push(k@));
                assert forall|q: Seq<u8>| done2.contains(q) <==> (done.contains(q) || q == k@) by {
                    if done.contains(q) {
                        let x = done.index_of(q);
                        assert(done2[x] == q);
                    }
                    if q == k@ {
                        assert(done2[j as int] == q);
                    }
                    if done2.contains(q) {
                        let x = done2.index_of(q);
                        if x < j {
                            assert(done[x] == q);
                        }
                    }
                }
            }
            let idx = self.layered_kv.find(k).unwrap();
            let ghost kv_keys = self.layered_kv.keys();
            let ghost kv_vals = self.layered_kv.vals();
            let hist = self.layered_kv.value_mut(idx);
            let val = hist.remove(&v).unwrap();
            let fill = match keep {
                Keep::Nothing => false,
                Keep::Always => true,
                Keep::IfBare => hist.is_empty() || *hist.key_at(0) > into,
            };
            proof {
                assert(dead.contains(v) && m.dom().contains(v));
                assert(is_newest(m.dom().intersect(dead), v));
                lemma_newest(m.dom().intersect(dead), v);
                assert(bytes_of(hist@) =~= m.remove_keys(dead));
                if keep == Keep::IfBare {
                    if fill {
                        assert forall|e: u64| m.dom().contains(e) && !dead.contains(e) implies e
                            > into by {
                            assert(m.remove_keys(dead).dom().contains(e));
                            assert(hist@.dom().contains(e));
                            let x = hist.keys().index_of(e);
                            assert(hist.keys()[x] == e);
                            if x > 0 {
                                assert(u64::before(hist.keys()[0], hist.keys()[x]));
                            }
                        }
                    } else {
                        hist.lemma_entry(0);
                        let e = hist.keys()[0];
                        assert(hist@.dom().contains(e));
                        assert(m.remove_keys(dead).dom().contains(e));
                        assert(m.dom().contains(e) && !dead.contains(e) && !(e > into));
                    }
                }
                assert(fill == moves(m, dead, into, keep));
            }
            if fill {
                hist.insert(into, val);
            }
            proof {
                assert(bytes_of(hist@) =~= fold_layer(m, dead, into, keep));
                lemma_update_value::<Vec<u8>, MapxOrd<VersionID, Vec<u8>>>(
                    kv_keys,
                    kv_vals,
                    self.layered_kv.vals()[idx as int],
                    idx as int,
                );
            }
            if fill {
                let c = self.version_to_change_set.find(&into).unwrap();
                let ghost cs_keys = self.version_to_change_set.keys();
                let ghost cs_vals = self.version_to_change_set.vals();
                let set = self.version_to_change_set.value_mut(c);
                set.insert(k.dup(), ());
                proof {
                    lemma_update_value::<VersionID, MapxOrd<Vec<u8>, ()>>(
                        cs_keys,
                        cs_vals,
                        self.version_to_change_set.vals()[c as int],
                        c as int,
                    );
                }
            }
            proof {
                if keep != Keep::Nothing {
                    let a = Set::new(
                        |q: Seq<u8>| done.contains(q) && moves(s0.layers[q], dead, into, keep),
                    );
                    let b = Set::new(
                        |q: Seq<u8>| done2.contains(q) && moves(s0.layers[q], dead, into, keep),
                    );
                    if fill {
                        assert(b =~= a.insert(k@));
                        assert(self@.change_sets[into] =~= s0.change_sets[into].union(b));
                    } else {
                        assert(b =~= a);
                    }
                }
                assert(self@.layers.dom() =~= s0.layers.dom());
                assert(self@.change_sets.dom() =~= s0.change_sets.dom().remove(v));
            }
            j = j + 1;
        }
        let name = self.version_id_to_version_name.remove(&v).unwrap();
        self.version_name_to_version_id.remove(&name);
        proof {
            let t = s0.fold(dead, into, keep);
            assert(chg.keys().subrange(0, n as int) =~= chg.keys());
            assert forall|k: Seq<u8>| s0.layers.dom().contains(k) implies #[trigger] self@.layers[k]
                == t.layers[k] by {
                if !chg.keys().contains(k) {
                    assert(!s0.change_sets[v].contains(k));
                    assert(!s0.layers[k].dom().contains(v));
                    assert(s0.layers[k].remove_keys(dead) =~= s0.layers[k]);
                }
            }
            assert(self@.layers =~= t.layers);
            assert(self@.version_names =~= t.version_names);
            assert(self@.version_ids =~= t.version_ids) by {
                assert forall|q: Seq<u8>| s0.version_ids.dom().contains(q) && s0.version_ids[q]
                    == v implies q == name@ by {
                    assert(s0.version_names[s0.version_ids[q]] == q);
                }
            }
            if keep != Keep::Nothing {
                let b = Set::new(
                    |q: Seq<u8>| chg.keys().contains(q) && moves(s0.layers[q], dead, into, keep),
                );
                assert(b =~= s0.moved_keys(dead, into, keep)) by {
                    assert forall|q: Seq<u8>| s0.moved_keys(dead, into, keep).contains(q)
                        implies b.contains(q) by {
                        assert(s0.layers[q].dom().contains(v));
                        assert(s0.change_sets[v].contains(q));
                    }
                    assert forall|q: Seq<u8>| b.contains(q) implies s0.moved_keys(
                        dead,
                        into,
                        keep,
                    ).contains(q) by {
                        assert(s0.change_sets[v].contains(q));
                        assert(s0.layers.dom().contains(q));
                    }
                }
            }
            assert(self@.change_sets =~= t.change_sets);
            assert(self@ == t);
            s0.lemma_fold_one_wf(v, into, keep);
        }
    }

    // Walking the keys

    /// The keys that were ever written, in order.
    pub closed spec fn key_seq(&self) -> Seq<Seq<u8>> {
        self.layered_kv.keys()
    }

    /// The written keys strictly increase, and they are the keys of the model.
    pub proof fn lemma_key_seq(&self)
        requires
            self.wf(),
        ensures
            sorted::<Vec<u8>>(self.key_seq()),
            forall|k: Seq<u8>| self.key_seq().contains(k) <==> self@.layers.dom().contains(k),
    {
    }

    /// Walks all keys, as seen from the head of the default branch.
    pub fn iter<'a>(&'a self) -> (r: MapxRawVsIter<'a>)
        requires
            self.wf(),
        ensures
            r.wf(),
            r.store() == self@,
            r.branch() == self@.default_branch,
            r.version() == (match self@.head(self@.default_branch) {
                Some(v) => v,
                None => NULL,
            }),
            r.remaining() == self.key_seq(),
    {
        self.iter_by_branch(self.default_branch)
    }

    /// Walks all keys, as seen from the head of a branch.
    pub fn iter_by_branch<'a>(&'a self, branch_id: BranchID) -> (r: MapxRawVsIter<'a>)
        requires
            self.wf(),
        ensures
            r.wf(),
            r.store() == self@,
            r.branch() == branch_id,
            r.version() == (match self@.head(branch_id) {
                Some(v) => v,
                None => NULL,
            }),
            r.remaining() == self.key_seq(),
    {
        self.range_by_branch(branch_id, KeyBound::Unbounded, KeyBound::Unbounded)
    }

    /// Walks all keys, as seen from one version of a branch.
    pub fn iter_by_branch_version<'a>(&'a self, branch_id: BranchID, version_id: VersionID) -> (r:
        MapxRawVsIter<'a>)
        requires
            self.wf(),
        ensures
            r.wf(),
            r.store() == self@,
            r.branch() == branch_id,
            r.version() == version_id,
            r.remaining() == self.key_seq(),
    {
        self.range_by_branch_version(branch_id, version_id, KeyBound::Unbounded,
            KeyBound::Unbounded)
    }

    /// Walks the keys within the bounds, as seen from the head of the default branch.
    pub fn range<'a>(&'a self, lower: KeyBound<'_>, upper: KeyBound<'_>) -> (r: MapxRawVsIter<'a>)
        requires
            self.wf(),
        ensures
            r.wf(),
            r.store() == self@,
            r.branch() == self@.default_branch,
            r.version() == (match self@.head(self@.default_branch) {
                Some(v) => v,
                None => NULL,
            }),
            sorted::<Vec<u8>>(r.remaining()),
            forall|k: Seq<u8>|
                r.remaining().contains(k) <==> (self@.layers.dom().contains(k) && within(
                    k,
                    lower,
                    upper,
                )),
            lower is Unbounded && upper is Unbounded ==> r.remaining() == self.key_seq(),
    {
        self.range_by_branch(self.default_branch, lower, upper)
    }

    /// Walks the keys within the bounds, as seen from the head of a branch.
    /// Nothing is seen from a branch that is unknown or has no version.
    pub fn range_by_branch<'a>(&'a self, branch_id: BranchID, lower: KeyBound<'_>,
        upper: KeyBound<'_>) -> (r:
        MapxRawVsIter<'a>)
        requires
            self.wf(),
        ensures
            r.wf(),
            r.store() == self@,
            r.branch() == branch_id,
            r.version() == (match self@.head(branch_id) {
                Some(v) => v,
                None => NULL,
            }),
            sorted::<Vec<u8>>(r.remaining()),
            forall|k: Seq<u8>|
                r.remaining().contains(k) <==> (self@.layers.dom().contains(k) && within(
                    k,
                    lower,
                    upper,
                )),
            lower is Unbounded && upper is Unbounded ==> r.remaining() == self.key_seq(),
    {
        let version_id = match self.head_of(branch_id) {
            Ok(v) => v,
            Err(_) => NULL,
        };
        self.range_by_branch_version(branch_id, version_id, lower, upper)
    }

    /// Walks the keys within the bounds, as seen from one version of a branch.
    pub fn range_by_branch_version<'a>(
        &'a self,
        branch_id: BranchID,
        version_id: VersionID,
        lower: KeyBound<'_>,
        upper: KeyBound<'_>,
    ) -> (r: MapxRawVsIter<'a>)
        requires
            self.wf(),
        ensures
            r.wf(),
            r.store() == self@,
            r.branch() == branch_id,
            r.version() == version_id,
            sorted::<Vec<u8>>(r.remaining()),
            forall|k: Seq<u8>|
                r.remaining().contains(k) <==> (self@.layers.dom().contains(k) && within(
                    k,
                    lower,
                    upper,
                )),
            lower is Unbounded && upper is Unbounded ==> r.remaining() == self.key_seq(),
    {
        let ghost keys = self.layered_kv.keys();
        let lo = match lower {
            KeyBound::Included(l) => self.layered_kv.lower_bound(&copy_bytes(l)),
            KeyBound::Excluded(l) => self.layered_kv.upper_bound(&copy_bytes(l)),
            KeyBound::Unbounded => 0,
        };
        let top = match upper {
            KeyBound::Included(h) => self.layered_kv.upper_bound(&copy_bytes(h)),
            KeyBound::Excluded(h) => self.layered_kv.lower_bound(&copy_bytes(h)),
            KeyBound::Unbounded => self.layered_kv.len(),
        };
        let hi = if top < lo {
            lo
        } else {
            top
        };
        proof {
            let rest = keys.subrange(lo as int, hi as int);
            assert forall|i: int, j: int| 0 <= i < j < rest.len() implies Vec::<u8>::before(
                #[trigger] rest[i],
                #[trigger] rest[j],
            ) by {
                assert(Vec::<u8>::before(keys[lo + i], keys[lo + j]));
            }
            assert forall|j: int| 0 <= j < keys.len() implies ((lo <= j < top) <==> within(
                #[trigger] keys[j],
                lower,
                upper,
            )) by {}
            assert forall|k: Seq<u8>| rest.contains(k) <==> (self@.layers.dom().contains(k)
                && within(k, lower, upper)) by {
                if rest.contains(k) {
                    let i = rest.index_of(k);
                    assert(keys[lo + i] == k);
                }
                if self@.layers.dom().contains(k) && within(k, lower, upper) {
                    let j = keys.index_of(k);
                    assert(keys[j] == k);
                    assert(rest[j - lo] == k);
                }
            }
            if lower is Unbounded && upper is Unbounded {
                assert(rest =~= keys);
            }
        }
        MapxRawVsIter { hdr: self, lo, hi, branch_id, version_id }
    }

    /// The smallest key not below `key` that is visible from the head of the
    /// default branch.
    pub fn get_ge(&self, key: &[u8]) -> (r: Option<(Vec<u8>, Vec<u8>)>)
        requires
            self.wf(),
        ensures
            self@.is_next_from(
                key@,
                self@.default_branch,
                self@.head_or_null(self@.default_branch),
                pair_bytes(r),
            ),
    {
        self.get_ge_by_branch(key, self.default_branch)
    }

    /// The smallest key not below `key` that is visible from the head of a branch.
    pub fn get_ge_by_branch(&self, key: &[u8], branch_id: BranchID) -> (r: Option<(Vec<u8>,
        Vec<u8>)>)
        requires
            self.wf(),
        ensures
            self@.is_next_from(key@, branch_id, self@.head_or_null(branch_id), pair_bytes(r)),
    {
        let version_id = match self.head_of(branch_id) {
            Ok(v) => v,
            Err(_) => NULL,
        };
        self.get_ge_by_branch_version(key, branch_id, version_id)
    }

    /// The smallest key not below `key` that is visible from one version of
    /// a branch, with its value.
    pub fn get_ge_by_branch_version(&self, key: &[u8], branch_id: BranchID, version_id: VersionID)
        -> (r:
        Option<(Vec<u8>, Vec<u8>)>)
        requires
            self.wf(),
        ensures
            self@.is_next_from(key@, branch_id, version_id, pair_bytes(r)),
    {
        let mut it = self.range_by_branch_version(
            branch_id,
            version_id,
            KeyBound::Included(key),
            KeyBound::Unbounded,
        );
        let ghost keys = it.remaining();
        let r = it.next();
        proof {
            self@.lemma_first_visible(keys, branch_id, version_id);
            let i = self@.first_visible(keys, branch_id, version_id);
            let lower = KeyBound::Included(key);
            if i < keys.len() {
                assert(keys.contains(keys[i]));
                assert forall|k: Seq<u8>|
                    self@.layers.dom().contains(k) && !bytes_lt(k, key@) && bytes_lt(
                        k,
                        keys[i],
                    ) implies self@.get_at(k, branch_id, version_id).is_none() by {
                    assert(within(k, lower, KeyBound::Unbounded));
                    let j = keys.index_of(k);
                    assert(keys[j] == k);
                    if j >= i {
                        Vec::<u8>::lemma_order(keys[i], keys[j], keys[i]);
                        if j > i {
                            assert(Vec::<u8>::before(keys[i], keys[j]));
                        }
                    }
                }
            } else {
                assert forall|k: Seq<u8>|
                    self@.layers.dom().contains(k) && !bytes_lt(k, key@) implies self@.get_at(
                    k,
                    branch_id,
                    version_id,
                ).is_none() by {
                    assert(within(k, lower, KeyBound::Unbounded));
                    let j = keys.index_of(k);
                    assert(keys[j] == k);
                }
            }
        }
        r
    }

    /// The greatest key not above `key` that is visible from the head of the
    /// default branch.
    pub fn get_le(&self, key: &[u8]) -> (r: Option<(Vec<u8>, Vec<u8>)>)
        requires
            self.wf(),
        ensures
            self@.is_next_before(
                key@,
                self@.default_branch,
                self@.head_or_null(self@.default_branch),
                pair_bytes(r),
            ),
    {
        self.get_le_by_branch(key, self.default_branch)
    }

    /// The greatest key not above `key` that is visible from the head of a branch.
    pub fn get_le_by_branch(&self, key: &[u8], branch_id: BranchID) -> (r: Option<(Vec<u8>,
        Vec<u8>)>)
        requires
            self.wf(),
        ensures
            self@.is_next_before(key@, branch_id, self@.head_or_null(branch_id), pair_bytes(r)),
    {
        let version_id = match self.head_of(branch_id) {
            Ok(v) => v,
            Err(_) => NULL,
        };
        self.get_le_by_branch_version(key, branch_id, version_id)
    }

    /// The greatest key not above `key` that is visible from one version of
    /// a branch, with its value.
    pub fn get_le_by_branch_version(&self, key: &[u8], branch_id: BranchID, version_id: VersionID)
        -> (r:
        Option<(Vec<u8>, Vec<u8>)>)
        requires
            self.wf(),
        ensures
            self@.is_next_before(key@, branch_id, version_id, pair_bytes(r)),
    {
        let mut it = self.range_by_branch_version(
            branch_id,
            version_id,
            KeyBound::Unbounded,
            KeyBound::Included(key),
        );
        let ghost keys = it.remaining();
        let r = it.next_back();
        proof {
            self@.lemma_last_visible(keys, branch_id, version_id);
            let i = self@.last_visible(keys, branch_id, version_id);
            let upper = KeyBound::Included(key);
            if i >= 0 {
                assert(keys.contains(keys[i]));
                assert forall|k: Seq<u8>|
                    self@.layers.dom().contains(k) && !bytes_lt(key@, k) && bytes_lt(
                        keys[i],
                        k,
                    ) implies self@.get_at(k, branch_id, version_id).is_none() by {
                    assert(within(k, KeyBound::Unbounded, upper));
                    let j = keys.index_of(k);
                    assert(keys[j] == k);
                    if j <= i {
                        Vec::<u8>::lemma_order(keys[i], keys[j], keys[i]);
                        if j < i {
                            assert(Vec::<u8>::before(keys[j], keys[i]));
                        }
                    }
                }
            } else {
                assert forall|k: Seq<u8>|
                    self@.layers.dom().contains(k) && !bytes_lt(key@, k) implies self@.get_at(
                    k,
                    branch_id,
                    version_id,
                ).is_none() by {
                    assert(within(k, KeyBound::Unbounded, upper));
                    let j = keys.index_of(k);
                    assert(keys[j] == k);
                }
            }
        }
        r
    }

    /// The number of keys that are visible from the head of the default branch.
    pub fn len(&self) -> (n: usize)
        requires
            self.wf(),
        ensures
            n == self@.count_visible(
                self.key_seq(),
                self@.default_branch,
                self@.head_or_null(self@.default_branch),
            ),
    {
        self.len_by_branch(self.default_branch)
    }

    /// The number of keys that are visible from the head of a branch.
    pub fn len_by_branch(&self, branch_id: BranchID) -> (n: usize)
        requires
            self.wf(),
        ensures
            n == self@.count_visible(self.key_seq(), branch_id, self@.head_or_null(branch_id)),
    {
        let version_id = match self.head_of(branch_id) {
            Ok(v) => v,
            Err(_) => NULL,
        };
        self.len_by_branch_version(branch_id, version_id)
    }

    /// The number of keys that are visible from one version of a branch.
    pub fn len_by_branch_version(&self, branch_id: BranchID, version_id: VersionID) -> (n: usize)
        requires
            self.wf(),
        ensures
            n == self@.count_visible(self.key_seq(), branch_id, version_id),
    {
        let total = self.layered_kv.len();
        let mut n: usize = 0;
        let mut i: usize = 0;
        assert(self.key_seq().subrange(0, 0) =~= Seq::<Seq<u8>>::empty());
        while i < total
            invariant
                self.wf(),
                i <= total,
                total == self.key_seq().len(),
                n <= i,
                n == self@.count_visible(self.key_seq().subrange(0, i as int), branch_id,
                    version_id),
            decreases total - i,
        {
            let k = self.layered_kv.key_at(i);
            let found = self.get_by_branch_version(k.as_slice(), branch_id, version_id);
            proof {
                let a = self.key_seq().subrange(0, i + 1);
                assert(a.drop_last() =~= self.key_seq().subrange(0, i as int));
                assert(a.last() == k@);
            }
            if found.is_some() {
                n = n + 1;
            }
            i = i + 1;
        }
        assert(self.key_seq().subrange(0, total as int) =~= self.key_seq());
        n
    }

    /// Whether no key is visible from the head of the default branch.
    pub fn is_empty(&self) -> (r: bool)
        requires
            self.wf(),
        ensures
            r == self@.nothing_visible(
                self@.default_branch,
                self@.head_or_null(self@.default_branch),
            ),
    {
        self.is_empty_by_branch(self.default_branch)
    }

    /// Whether no key is visible from the head of a branch.
    pub fn is_empty_by_branch(&self, branch_id: BranchID) -> (r: bool)
        requires
            self.wf(),
        ensures
            r == self@.nothing_visible(branch_id, self@.head_or_null(branch_id)),
    {
        let version_id = match self.head_of(branch_id) {
            Ok(v) => v,
            Err(_) => NULL,
        };
        self.is_empty_by_branch_version(branch_id, version_id)
    }

    /// Whether no key is visible from one version of a branch.
    pub fn is_empty_by_branch_version(&self, branch_id: BranchID, version_id: VersionID)
        -> (r: bool)
        requires
            self.wf(),
        ensures
            r == self@.nothing_visible(branch_id, version_id),
    {
        let mut it = self.iter_by_branch_version(branch_id, version_id);
        let ghost keys = it.remaining();
        let r = it.next().is_none();
        proof {
            self@.lemma_first_visible(keys, branch_id, version_id);
            let i = self@.first_visible(keys, branch_id, version_id);
            if i < keys.len() {
                assert(keys.contains(keys[i]));
            } else {
                assert forall|k: Seq<u8>| self@.layers.dom().contains(k) implies self@.get_at(
                    k,
                    branch_id,
                    version_id,
                ).is_none() by {
                    let j = keys.index_of(k);
                    assert(keys[j] == k);
                }
            }
            self@.lemma_nothing_visible(branch_id, version_id);
        }
        r
    }

    // The signature of what is seen

    /// The signature of what is seen from the head of the default branch.
    pub fn checksum_get(&self) -> (r: Option<VerChecksum>)
        requires
            self.wf(),
        ensures
            signature_bytes(r) == (match self@.head(self@.default_branch) {
                Some(v) => Some(
                    be_bytes(
                        checksum_of(self@.visible_pairs(self.key_seq(), self@.default_branch, v)),
                    ),
                ),
                None => None,
            }),
    {
        self.checksum_get_by_branch(self.default_branch)
    }

    /// The signature of what is seen from the head of a branch; nothing if
    /// the branch is unknown or has no version.
    pub fn checksum_get_by_branch(&self, branch_id: BranchID) -> (r: Option<VerChecksum>)
        requires
            self.wf(),
        ensures
            signature_bytes(r) == (match self@.head(branch_id) {
                Some(v) => Some(
                    be_bytes(checksum_of(self@.visible_pairs(self.key_seq(), branch_id, v))),
                ),
                None => None,
            }),
    {
        match self.head_of(branch_id) {
            Ok(version_id) => {
                proof {
                    self@.lemma_head_exists(branch_id);
                }
                self.checksum_get_by_branch_version(branch_id, version_id)
            },
            Err(_) => None,
        }
    }

    /// The signature of what is seen from one version of a branch; nothing
    /// if the version is not on the branch.
    pub fn checksum_get_by_branch_version(&self, branch_id: BranchID, version_id: VersionID) -> (r:
        Option<VerChecksum>)
        requires
            self.wf(),
        ensures
            signature_bytes(r) == (if self@.on_branch(branch_id, version_id) {
                Some(be_bytes(checksum_of(self@.visible_pairs(self.key_seq(), branch_id,
                    version_id))))
            } else {
                None
            }),
    {
        if !self.version_exists_on_branch(version_id, branch_id) {
            return None;
        }
        let total = self.layered_kv.len();
        let mut h: u64 = SEED;
        let mut i: usize = 0;
        assert(self.key_seq().subrange(0, 0) =~= Seq::<Seq<u8>>::empty());
        while i < total
            invariant
                self.wf(),
                i <= total,
                total == self.key_seq().len(),
                h == checksum_of(
                    self@.visible_pairs(self.key_seq().subrange(0, i as int), branch_id,
                        version_id),
                ),
            decreases total - i,
        {
            let k = self.layered_kv.key_at(i);
            let found = self.get_by_branch_version(k.as_slice(), branch_id, version_id);
            proof {
                let a = self.key_seq().subrange(0, i + 1);
                assert(a.drop_last() =~= self.key_seq().subrange(0, i as int));
                assert(a.last() == k@);
                let rest = self@.visible_pairs(a.drop_last(), branch_id, version_id);
                if found.is_some() {
                    let p = rest.push((k@, found.unwrap()@));
                    assert(p.drop_last() =~= rest);
                }
            }
            if let Some(val) = found {
                h = feed_pair(h, k.as_slice(), val.as_slice());
            }
            i = i + 1;
        }
        assert(self.key_seq().subrange(0, total as int) =~= self.key_seq());
        Some(u64_to_be_bytes(h))
    }
}

/// The bytes of a signature.
pub open spec fn signature_bytes(r: Option<VerChecksum>) -> Option<Seq<u8>> {
    match r {
        Some(c) => Some(c@),
        None => None,
    }
}

/// The bytes of each name of a list.
pub open spec fn names_of(r: Result<Vec<VersionNameOwned>, VsError>) -> Result<Seq<Seq<u8>>,
    VsError> {
    match r {
        Ok(l) => Ok(Seq::new(l@.len(), |j: int| l@[j].0@)),
        Err(e) => Err(e),
    }
}

/// The bytes of a key and its value.
pub open spec fn pair_bytes(r: Option<(Vec<u8>, Vec<u8>)>) -> Option<(Seq<u8>, Seq<u8>)> {
    match r {
        Some(kv) => Some((kv.0@, kv.1@)),
        None => None,
    }
}

/// A walk over the keys of a store, as seen from one version of a branch.
/// It can be advanced from both ends; keys that are not visible are passed over.
pub struct MapxRawVsIter<'a> {
    hdr: &'a MapxRawVs,
    lo: usize,
    hi: usize,
    branch_id: BranchID,
    version_id: VersionID,
}

impl<'a> MapxRawVsIter<'a> {
    /// The store that is walked.
    pub closed spec fn store(&self) -> VsModel {
        self.hdr@
    }

    /// The branch from which the keys are seen.
    pub closed spec fn branch(&self) -> u64 {
        self.branch_id
    }

    /// The version from which the keys are seen.
    pub closed spec fn version(&self) -> u64 {
        self.version_id
    }

    /// The keys that the walk has not passed yet, in order.
    pub closed spec fn remaining(&self) -> Seq<Seq<u8>> {
        self.hdr.key_seq().subrange(self.lo as int, self.hi as int)
    }

    /// The walk stands within the keys of a well-formed store.
    pub closed spec fn wf(&self) -> bool {
        &&& self.hdr.wf()
        &&& self.lo <= self.hi <= self.hdr.key_seq().len()
    }

    /// The next visible key from the front, with its value.
    pub fn next(&mut self) -> (r: Option<(Vec<u8>, Vec<u8>)>)
        requires
            old(self).wf(),
        ensures
            final(self).wf(),
            final(self).store() == old(self).store(),
            final(self).branch() == old(self).branch(),
            final(self).version() == old(self).version(),
            ({
                let keys = old(self).remaining();
                let m = old(self).store();
                let i = m.first_visible(keys, old(self).branch(), old(self).version());
                if i < keys.len() {
                    &&& pair_bytes(r) == Some(
                        (keys[i], m.get_at(keys[i], old(self).branch(),
                            old(self).version()).unwrap()),
                    )
                    &&& final(self).remaining() == keys.skip(i + 1)
                } else {
                    &&& r.is_none()
                    &&& final(self).remaining() == Seq::<Seq<u8>>::empty()
                }
            }),
    {
        let ghost keys = self.remaining();
        let ghost m = self.hdr@;
        let ghost lo0 = self.lo;
        if self.branch_id == NULL || self.version_id == NULL {
            proof {
                assert forall|j: int| 0 <= j < keys.len() implies m.get_at(
                    #[trigger] keys[j],
                    self.branch_id,
                    self.version_id,
                ).is_none() by {
                    m.lemma_null_reads_nothing(keys[j], self.branch_id, self.version_id);
                }
                m.lemma_first_visible_is(keys, self.branch_id, self.version_id, keys.len() as int);
            }
            self.lo = self.hi;
            assert(self.remaining() =~= Seq::<Seq<u8>>::empty());
            return None;
        }
        while self.lo < self.hi
            invariant
                self.wf(),
                self.hdr == old(self).hdr,
                self.hi == old(self).hi,
                self.branch_id == old(self).branch_id,
                self.version_id == old(self).version_id,
                lo0 <= self.lo,
                lo0 == old(self).lo,
                m == self.hdr@,
                keys == self.hdr.key_seq().subrange(lo0 as int, self.hi as int),
                forall|j: int|
                    0 <= j < self.lo - lo0 ==> m.get_at(
                        #[trigger] keys[j],
                        self.branch_id,
                        self.version_id,
                    ).is_none(),
            decreases self.hi - self.lo,
        {
            let k = self.hdr.layered_kv.key_at(self.lo);
            let ghost i = self.lo - lo0;
            assert(keys[i] == k@);
            self.lo = self.lo + 1;
            match self.hdr.get_by_branch_version(k.as_slice(), self.branch_id, self.version_id) {
                Some(v) => {
                    proof {
                        m.lemma_first_visible_is(keys, self.branch_id, self.version_id, i);
                        assert(self.remaining() =~= keys.skip(i + 1));
                    }
                    return Some((k.dup(), v));
                },
                None => {},
            }
        }
        proof {
            m.lemma_first_visible_is(keys, self.branch_id, self.version_id, keys.len() as int);
            assert(self.remaining() =~= Seq::<Seq<u8>>::empty());
        }
        None
    }

    /// The next visible key from the back, with its value.
    pub fn next_back(&mut self) -> (r: Option<(Vec<u8>, Vec<u8>)>)
        requires
            old(self).wf(),
        ensures
            final(self).wf(),
            final(self).store() == old(self).store(),
            final(self).branch() == old(self).branch(),
            final(self).version() == old(self).version(),
            ({
                let keys = old(self).remaining();
                let m = old(self).store();
                let i = m.last_visible(keys, old(self).branch(), old(self).version());
                if i >= 0 {
                    &&& pair_bytes(r) == Some(
                        (keys[i], m.get_at(keys[i], old(self).branch(),
                            old(self).version()).unwrap()),
                    )
                    &&& final(self).remaining() == keys.subrange(0, i)
                } else {
                    &&& r.is_none()
                    &&& final(self).remaining() == Seq::<Seq<u8>>::empty()
                }
            }),
    {
        let ghost keys = self.remaining();
        let ghost m = self.hdr@;
        let ghost lo0 = self.lo;
        let ghost hi0 = self.hi;
        if self.branch_id == NULL || self.version_id == NULL {
            proof {
                assert forall|j: int| 0 <= j < keys.len() implies m.get_at(
                    #[trigger] keys[j],
                    self.branch_id,
                    self.version_id,
                ).is_none() by {
                    m.lemma_null_reads_nothing(keys[j], self.branch_id, self.version_id);
                }
                m.lemma_last_visible_is(keys, self.branch_id, self.version_id, -1);
            }
            self.hi = self.lo;
            assert(self.remaining() =~= Seq::<Seq<u8>>::empty());
            return None;
        }
        while self.lo < self.hi
            invariant
                self.wf(),
                self.hdr == old(self).hdr,
                self.lo == lo0,
                self.branch_id == old(self).branch_id,
                self.version_id == old(self).version_id,
                self.hi <= hi0,
                lo0 <= hi0 <= self.hdr.key_seq().len(),
                hi0 == old(self).hi,
                lo0 == old(self).lo,
                m == self.hdr@,
                keys == self.hdr.key_seq().subrange(lo0 as int, hi0 as int),
                forall|j: int|
                    self.hi - lo0 <= j < keys.len() ==> m.get_at(
                        #[trigger] keys[j],
                        self.branch_id,
                        self.version_id,
                    ).is_none(),
            decreases self.hi - self.lo,
        {
            self.hi = self.hi - 1;
            let k = self.hdr.layered_kv.key_at(self.hi);
            let ghost i = self.hi - lo0;
            assert(keys[i] == k@);
            match self.hdr.get_by_branch_version(k.as_slice(), self.branch_id, self.version_id) {
                Some(v) => {
                    proof {
                        m.lemma_last_visible_is(keys, self.branch_id, self.version_id, i);
                        assert(self.remaining() =~= keys.subrange(0, i));
                    }
                    return Some((k.dup(), v));
                },
                None => {},
            }
        }
        proof {
            m.lemma_last_visible_is(keys, self.branch_id, self.version_id, -1);
            assert(self.remaining() =~= Seq::<Seq<u8>>::empty());
        }
        None
    }
}

/// Whether `b` is among `ids`.
pub fn has_id(ids: &[BranchID], b: BranchID) -> (r: bool)
    ensures
        r == ids@.contains(b),
{
    let mut i: usize = 0;
    while i < ids.len()
        invariant
            i <= ids.len(),
            forall|j: int| 0 <= j < i ==> ids@[j] != b,
        decreases ids.len() - i,
    {
        if ids[i] == b {
            return true;
        }
        i = i + 1;
    }
    false
}

// Puts the versions of `src` from place `from` on into `vers`.
fn add_versions(vers: &mut MapxOrd<VersionID, ()>, src: &Vec<VersionID>, from: usize)
    requires
        old(vers).wf(),
        from <= src@.len(),
    ensures
        final(vers).wf(),
        final(vers).keys() == insert_all(old(vers).keys(), src@.skip(from as int)),
{
    let mut j: usize = from;
    assert(src@.subrange(from as int, from as int) =~= Seq::<u64>::empty());
    while j < src.len()
        invariant
            from <= j <= src@.len(),
            vers.wf(),
            vers.keys() == insert_all(old(vers).keys(), src@.subrange(from as int, j as int)),
        decreases src@.len() - j,
    {
        vers.insert(src[j], ());
        proof {
            let a = src@.subrange(from as int, j + 1);
            assert(a.drop_last() =~= src@.subrange(from as int, j as int));
            assert(a.last() == src@[j as int]);
        }
        j = j + 1;
    }
    assert(src@.subrange(from as int, src@.len() as int) =~= src@.skip(from as int));
}

// A map of its own with the `n` oldest versions of `src`.
fn copy_versions(src: &MapxOrd<VersionID, ()>, n: usize) -> (r: MapxOrd<VersionID, ()>)
    requires
        src.wf(),
        n <= src.keys().len(),
    ensures
        r.wf(),
        r.keys() == src.keys().subrange(0, n as int),
{
    let mut r: MapxOrd<VersionID, ()> = MapxOrd::new();
    let mut j: usize = 0;
    assert(src.keys().subrange(0, 0) =~= Seq::<u64>::empty());
    while j < n
        invariant
            j <= n <= src.keys().len(),
            src.wf(),
            r.wf(),
            r.keys() == src.keys().subrange(0, j as int),
        decreases n - j,
    {
        let v = *src.key_at(j);
        proof {
            assert forall|x: int| 0 <= x < r.keys().len() implies u64::before(
                #[trigger] r.keys()[x],
                v,
            ) by {
                assert(u64::before(src.keys()[x], src.keys()[j as int]));
            }
            lemma_insert_key_greatest::<u64>(r.keys(), v);
        }
        r.insert(v, ());
        assert(r.keys() =~= src.keys().subrange(0, j + 1));
        j = j + 1;
    }
    r
}

/// The number of versions that `prune` keeps.
pub open spec fn reserved(n: Option<usize>) -> nat {
    match n {
        Some(n) => n as nat,
        None => RESERVED_VERSION_NUM_DEFAULT as nat,
    }
}

/// The bytes of an optional byte slice.
pub open spec fn opt_slice(r: Option<&[u8]>) -> Option<Seq<u8>> {
    match r {
        Some(v) => Some(v@),
        None => None,
    }
}

/// The bytes of what a write hands back.
pub open spec fn res_opt_bytes(r: Result<Option<Vec<u8>>, VsError>) -> Result<Option<Seq<u8>>,
    VsError> {
    match r {
        Ok(v) => Ok(opt_bytes(v)),
        Err(e) => Err(e),
    }
}

/// The bytes of an optional byte vector.
pub open spec fn opt_bytes(r: Option<Vec<u8>>) -> Option<Seq<u8>> {
    match r {
        Some(v) => Some(v@),
        None => None,
    }
}

} // verus!
