//! The versioned raw map: an ordered map from bytes to bytes whose every
//! state is kept under a version, on branches that can part and meet again.
//!
//! [`MapxRawVs`] is addressed by the names of branches and versions. It
//! resolves the names and hands the work to the store in [`backend`], which
//! is addressed by identifiers; the contracts of both speak of one model,
//! defined in [`model`], and [`laws`] holds what is proved of that model
//! across calls.

pub mod backend;
pub mod laws;
pub mod model;

use vstd::prelude::*;
use crate::basic::mapx_ord::sorted;
use crate::common::{
    BranchName, BranchNameOwned, INITIAL_BRANCH_ID, KeyBound, NULL, ParentBranchName, VersionName,
    VersionNameOwned, VsError, within,
};
use crate::common::checksum::{checksum_of, VerChecksum};
use crate::common::ende::be_bytes;
use crate::versioned::mapx_raw::backend::{
    MapxRawVsIter, names_of, opt_bytes, pair_bytes, res_opt_bytes, reserved, signature_bytes,
};
use crate::versioned::mapx_raw::model::VsModel;

verus! {

/// A versioned map, addressed by the names of its branches and versions.
#[derive(Clone, Debug)]
pub struct MapxRawVs {
    inner: backend::MapxRawVs,
}

/// What an operation on the branch named `name` makes of store `s`: what `f`
/// says for the branch's identifier, or a refusal if there is no such branch.
pub open spec fn on_branch_named<T>(
    s: VsModel,
    name: Seq<u8>,
    f: spec_fn(u64) -> (VsModel, Result<T, VsError>),
) -> (VsModel, Result<T, VsError>) {
    match s.branch_id(name) {
        Some(b) => f(b),
        None => (s, Err(VsError::BranchNotFound)),
    }
}

/// What an operation on the version named `version` of the branch named
/// `branch` makes of store `s`: a refusal if there is no such branch, then
/// if there is no such version.
pub open spec fn on_version_named<T>(
    s: VsModel,
    branch: Seq<u8>,
    version: Seq<u8>,
    f: spec_fn(u64, u64) -> (VsModel, Result<T, VsError>),
) -> (VsModel, Result<T, VsError>) {
    match s.branch_id(branch) {
        Some(b) => match s.version_id(version) {
            Some(v) => f(b, v),
            None => (s, Err(VsError::VersionNotFound)),
        },
        None => (s, Err(VsError::BranchNotFound)),
    }
}

/// The identifier of the named branch, or the null identifier.
pub open spec fn branch_or_null(s: VsModel, name: Seq<u8>) -> u64 {
    match s.branch_id(name) {
        Some(b) => b,
        None => NULL,
    }
}

/// The identifier of the named version, or the null identifier.
pub open spec fn version_or_null(s: VsModel, name: Seq<u8>) -> u64 {
    match s.version_id(name) {
        Some(v) => v,
        None => NULL,
    }
}

impl Default for MapxRawVs {
    fn default() -> (r: Self)
        ensures
            r.wf(),
            r@ == VsModel::initial(),
    {
        Self::new()
    }
}

impl MapxRawVs {
    // The store and its model

    /// The store as the model sees it.
    pub closed spec fn view(&self) -> VsModel {
        self.inner@
    }

    /// The store is in order.
    pub closed spec fn wf(&self) -> bool {
        self.inner.wf()
    }

    /// The keys that were ever written, in order.
    pub closed spec fn key_seq(&self) -> Seq<Seq<u8>> {
        self.inner.key_seq()
    }

    /// What a well-formed store promises: the invariants of the model, and
    /// written keys that strictly increase and are the keys of the model.
    pub proof fn lemma_wf(&self)
        requires
            self.wf(),
        ensures
            self@.wf(),
            sorted::<Vec<u8>>(self.key_seq()),
            forall|k: Seq<u8>| self.key_seq().contains(k) <==> self@.layers.dom().contains(k),
    {
        self.inner.lemma_wf();
        self.inner.lemma_key_seq();
    }

    /// A store with the initial branch, no version and no key.
    pub fn new() -> (r: Self)
        ensures
            r.wf(),
            r@ == VsModel::initial(),
    {
        MapxRawVs { inner: backend::MapxRawVs::new() }
    }

    /// A store with the initial branch, no version and no key, whose
    /// counters start at the given values: the values that a backend holds
    /// in its cells. Refused if a counter would hand out the null identifier
    /// or the identifier of the initial branch.
    pub fn starting_at(next_branch_id: u64, next_version_id: u64) -> (r: Result<Self, VsError>)
        ensures
            match r {
                Ok(store) => store.wf() && store@ == VsModel::initial().with_counters(
                    next_branch_id,
                    next_version_id,
                ) && next_branch_id > INITIAL_BRANCH_ID && next_version_id > NULL,
                Err(e) => e == VsError::InvalidArg && !(next_branch_id > INITIAL_BRANCH_ID
                    && next_version_id > NULL),
            },
    {
        match backend::MapxRawVs::starting_at(next_branch_id, next_version_id) {
            Ok(inner) => Ok(MapxRawVs { inner }),
            Err(e) => Err(e),
        }
    }

    /// Empties the store: afterwards it holds the initial branch and nothing
    /// else. The identifier counters keep their values.
    pub fn clear(&mut self)
        requires
            old(self).wf(),
        ensures
            final(self).wf(),
            final(self)@ == VsModel::initial().with_counters(
                old(self)@.next_branch_id,
                old(self)@.next_version_id,
            ),
    {
        self.inner.clear();
    }

    fn branch_id_of(&self, branch_name: BranchName<'_>) -> (r: Option<u64>)
        requires
            self.wf(),
        ensures
            r == self@.branch_id(branch_name.0@),
            r.is_some() ==> self@.has_branch(r.unwrap()),
    {
        let r = self.inner.branch_get_id_by_name(branch_name);
        proof {
            self.inner.lemma_wf();
            if r.is_some() {
                self@.lemma_named_branch(branch_name.0@);
            }
        }
        r
    }

    fn version_id_of(&self, version_name: VersionName<'_>) -> (r: Option<u64>)
        requires
            self.wf(),
        ensures
            r == self@.version_id(version_name.0@),
    {
        self.inner.version_get_id_by_name(version_name)
    }

    // Reading

    /// The value of `key` as seen from the head of the default branch.
    pub fn get(&self, key: &[u8]) -> (r: Option<Vec<u8>>)
        requires
            self.wf(),
        ensures
            opt_bytes(r) == self@.get_on(key@, self@.default_branch),
    {
        self.inner.get(key)
    }

    /// The value of `key` as seen from the head of the named branch; nothing
    /// if there is no such branch.
    pub fn get_by_branch(&self, key: &[u8], branch_name: BranchName<'_>) -> (r: Option<Vec<u8>>)
        requires
            self.wf(),
        ensures
            opt_bytes(r) == (match self@.branch_id(branch_name.0@) {
                Some(b) => self@.get_on(key@, b),
                None => None,
            }),
    {
        match self.branch_id_of(branch_name) {
            Some(branch_id) => self.inner.get_by_branch(key, branch_id),
            None => None,
        }
    }

    /// The value of `key` as seen from the named version of the named branch;
    /// nothing if there is no such branch or no such version.
    pub fn get_by_branch_version(
        &self,
        key: &[u8],
        branch_name: BranchName<'_>,
        version_name: VersionName<'_>,
    ) -> (r: Option<Vec<u8>>)
        requires
            self.wf(),
        ensures
            opt_bytes(r) == (match (self@.branch_id(branch_name.0@),
                self@.version_id(version_name.0@)) {
                (Some(b), Some(v)) => self@.get_at(key@, b, v),
                _ => None,
            }),
    {
        let branch_id = match self.branch_id_of(branch_name) {
            Some(b) => b,
            None => {
                return None;
            },
        };
        let version_id = match self.version_id_of(version_name) {
            Some(v) => v,
            None => {
                return None;
            },
        };
        self.inner.get_by_branch_version(key, branch_id, version_id)
    }

    /// Whether `key` is visible from the head of the default branch.
    pub fn contains_key(&self, key: &[u8]) -> (r: bool)
        requires
            self.wf(),
        ensures
            r == self@.get_on(key@, self@.default_branch).is_some(),
    {
        self.get(key).is_some()
    }

    /// Whether `key` is visible from the head of the named branch.
    pub fn contains_key_by_branch(&self, key: &[u8], branch_name: BranchName<'_>) -> (r: bool)
        requires
            self.wf(),
        ensures
            r == (match self@.branch_id(branch_name.0@) {
                Some(b) => self@.get_on(key@, b).is_some(),
                None => false,
            }),
    {
        self.get_by_branch(key, branch_name).is_some()
    }

    /// Whether `key` is visible from the named version of the named branch.
    pub fn contains_key_by_branch_version(
        &self,
        key: &[u8],
        branch_name: BranchName<'_>,
        version_name: VersionName<'_>,
    ) -> (r: bool)
        requires
            self.wf(),
        ensures
            r == (match (self@.branch_id(branch_name.0@), self@.version_id(version_name.0@)) {
                (Some(b), Some(v)) => self@.get_at(key@, b, v).is_some(),
                _ => false,
            }),
    {
        self.get_by_branch_version(key, branch_name, version_name).is_some()
    }

    // Writing

    /// Writes `value` to `key` at the head of the default branch and returns what a
    /// reader saw there before. The empty value deletes.
    pub fn insert(&mut self, key: &[u8], value: &[u8]) -> (r: Result<Option<Vec<u8>>, VsError>)
        requires
            old(self).wf(),
        ensures
            final(self).wf(),
            old(self)@.write_on(key@, Some(value@), old(self)@.default_branch) == (
                final(self)@,
                res_opt_bytes(r),
            ),
    {
        self.inner.insert(key, value)
    }

    /// Writes `value` to `key` at the head of the named branch and returns what a
    /// reader saw there before.
    pub fn insert_by_branch(&mut self, key: &[u8], value: &[u8], branch_name: BranchName<'_>)
        -> (r: Result<Option<Vec<u8>>, VsError>)
        requires
            old(self).wf(),
        ensures
            final(self).wf(),
            on_branch_named(old(self)@, branch_name.0@, |b: u64| old(self)@.write_on(key@,
                Some(value@), b)) == (final(self)@, res_opt_bytes(r)),
    {
        match self.branch_id_of(branch_name) {
            Some(branch_id) => self.inner.insert_by_branch(key, value, branch_id),
            None => Err(VsError::BranchNotFound),
        }
    }

    /// Deletes `key` at the head of the default branch and returns what a reader
    /// saw there before.
    pub fn remove(&mut self, key: &[u8]) -> (r: Result<Option<Vec<u8>>, VsError>)
        requires
            old(self).wf(),
        ensures
            final(self).wf(),
            old(self)@.write_on(key@, None, old(self)@.default_branch) == (final(self)@,
                res_opt_bytes(r)),
    {
        self.inner.remove(key)
    }

    /// Deletes `key` at the head of the named branch and returns what a reader saw
    /// there before.
    pub fn remove_by_branch(&mut self, key: &[u8], branch_name: BranchName<'_>)
        -> (r: Result<Option<Vec<u8>>, VsError>)
        requires
            old(self).wf(),
        ensures
            final(self).wf(),
            on_branch_named(old(self)@, branch_name.0@, |b: u64| old(self)@.write_on(key@, None, b))
                == (final(self)@, res_opt_bytes(r)),
    {
        match self.branch_id_of(branch_name) {
            Some(branch_id) => self.inner.remove_by_branch(key, branch_id),
            None => Err(VsError::BranchNotFound),
        }
    }

    // Versions

    /// Makes a version on the default branch.
    pub fn version_create(&mut self, version_name: VersionName<'_>) -> (r: Result<(), VsError>)
        requires
            old(self).wf(),
        ensures
            final(self).wf(),
            old(self)@.version_create(version_name.0@, old(self)@.default_branch) == (final(self)@,
                r),
    {
        self.inner.version_create(version_name.0)
    }

    /// Makes a version on the named branch: refused if there is no such
    /// branch, then if the version name is taken.
    pub fn version_create_by_branch(&mut self, version_name: VersionName<'_>,
        branch_name: BranchName<'_>) -> (r:
        Result<(), VsError>)
        requires
            old(self).wf(),
        ensures
            final(self).wf(),
            on_branch_named(
                old(self)@,
                branch_name.0@,
                |b: u64| old(self)@.version_create(version_name.0@, b),
            ) == (final(self)@, r),
    {
        match self.branch_id_of(branch_name) {
            Some(branch_id) => self.inner.version_create_by_branch(version_name.0, branch_id),
            None => Err(VsError::BranchNotFound),
        }
    }

    /// Takes the newest version off the default branch.
    pub fn version_pop(&mut self) -> (r: Result<(), VsError>)
        requires
            old(self).wf(),
        ensures
            final(self).wf(),
            old(self)@.version_pop(old(self)@.default_branch) == (final(self)@, r),
    {
        self.inner.version_pop()
    }

    /// Takes the newest version off the named branch.
    pub fn version_pop_by_branch(&mut self, branch_name: BranchName<'_>) -> (r: Result<(), VsError>)
        requires
            old(self).wf(),
        ensures
            final(self).wf(),
            on_branch_named(old(self)@, branch_name.0@, |b: u64| old(self)@.version_pop(b))
                == (final(self)@, r),
    {
        match self.branch_id_of(branch_name) {
            Some(branch_id) => self.inner.version_pop_by_branch(branch_id),
            None => Err(VsError::BranchNotFound),
        }
    }

    /// Whether the named version is on the default branch.
    pub fn version_exists(&self, version_name: VersionName<'_>) -> (r: bool)
        requires
            self.wf(),
        ensures
            r == (match self@.version_id(version_name.0@) {
                Some(v) => self@.on_branch(self@.default_branch, v),
                None => false,
            }),
    {
        match self.version_id_of(version_name) {
            Some(version_id) => self.inner.version_exists(version_id),
            None => false,
        }
    }

    /// Whether the named version exists, on a branch or on none.
    pub fn version_exists_globally(&self, version_name: VersionName<'_>) -> (r: bool)
        requires
            self.wf(),
        ensures
            r == self@.version_id(version_name.0@).is_some(),
    {
        self.version_id_of(version_name).is_some()
    }

    /// Whether the named version is on the named branch.
    pub fn version_exists_on_branch(&self, version_name: VersionName<'_>,
        branch_name: BranchName<'_>) -> (r:
        bool)
        requires
            self.wf(),
        ensures
            r == (match (self@.branch_id(branch_name.0@), self@.version_id(version_name.0@)) {
                (Some(b), Some(v)) => self@.on_branch(b, v),
                _ => false,
            }),
    {
        let version_id = match self.version_id_of(version_name) {
            Some(v) => v,
            None => {
                return false;
            },
        };
        let branch_id = match self.branch_id_of(branch_name) {
            Some(b) => b,
            None => {
                return false;
            },
        };
        self.inner.version_exists_on_branch(version_id, branch_id)
    }

    /// The names of the versions on the default branch, oldest first.
    pub fn version_list(&self) -> (r: Result<Vec<VersionNameOwned>, VsError>)
        requires
            self.wf(),
        ensures
            self@.is_version_list(self@.default_branch, names_of(r)),
    {
        self.inner.version_list()
    }

    /// The names of the versions on the named branch, oldest first.
    pub fn version_list_by_branch(&self, branch_name: BranchName<'_>) -> (r: Result<
        Vec<VersionNameOwned>,
        VsError,
    >)
        requires
            self.wf(),
        ensures
            match self@.branch_id(branch_name.0@) {
                Some(b) => self@.is_version_list(b, names_of(r)),
                None => r == Err::<Vec<VersionNameOwned>, VsError>(VsError::BranchNotFound),
            },
    {
        match self.branch_id_of(branch_name) {
            Some(branch_id) => self.inner.version_list_by_branch(branch_id),
            None => Err(VsError::BranchNotFound),
        }
    }

    /// Whether the named version wrote any key.
    pub fn version_has_change_set(&self, version_name: VersionName<'_>) -> (r: Result<bool,
        VsError>)
        requires
            self.wf(),
        ensures
            r == (match self@.version_id(version_name.0@) {
                Some(v) => Ok(!(self@.change_sets[v] =~= Set::<Seq<u8>>::empty())),
                None => Err(VsError::VersionNotFound),
            }),
    {
        match self.version_id_of(version_name) {
            Some(version_id) => {
                proof {
                    self.inner.lemma_wf();
                    self@.lemma_named_version(version_name.0@);
                }
                self.inner.version_has_change_set(version_id)
            },
            None => Err(VsError::VersionNotFound),
        }
    }

    // Branches

    /// Makes a branch off the head of the default branch. The new branch shows
    /// what the default branch shows, and has no version of its own yet.
    /// Refused if the name is taken, then if no identifier is left.
    pub fn branch_create(&mut self, branch_name: BranchName<'_>) -> (r: Result<(), VsError>)
        requires
            old(self).wf(),
        ensures
            final(self).wf(),
            old(self)@.branch_create_at_head(branch_name.0@, None, old(self)@.default_branch, false)
                == (final(self)@, r),
    {
        self.inner.branch_create_without_new_version(branch_name.0, false)
    }

    /// Makes a branch off the head of the named branch, without a version of
    /// its own. Refused if the name is taken, then if there is no such base
    /// branch, then if no identifier is left.
    pub fn branch_create_by_base_branch(
        &mut self,
        branch_name: BranchName<'_>,
        base_branch_name: ParentBranchName<'_>,
    ) -> (r: Result<(), VsError>)
        requires
            old(self).wf(),
        ensures
            final(self).wf(),
            old(self)@.branch_create_at_head(
                branch_name.0@,
                None,
                branch_or_null(old(self)@, base_branch_name.0@),
                false,
            ) == (final(self)@, r),
    {
        let base_branch_id = match self.branch_id_of(BranchName(base_branch_name.0)) {
            Some(b) => b,
            None => NULL,
        };
        self.inner.branch_create_by_base_branch_without_new_version(
            branch_name.0,
            base_branch_id,
            false,
        )
    }

    /// Makes a branch off the named version of the named branch, without a
    /// version of its own. Refused if the name is taken, then if there is no
    /// such base branch, then if the version is not on it, then if no
    /// identifier is left.
    pub fn branch_create_by_base_branch_version(
        &mut self,
        branch_name: BranchName<'_>,
        base_branch_name: ParentBranchName<'_>,
        base_version_name: VersionName<'_>,
    ) -> (r: Result<(), VsError>)
        requires
            old(self).wf(),
        ensures
            final(self).wf(),
            old(self)@.branch_create(
                branch_name.0@,
                None,
                branch_or_null(old(self)@, base_branch_name.0@),
                Some(version_or_null(old(self)@, base_version_name.0@)),
                false,
            ) == (final(self)@, r),
    {
        let base_branch_id = match self.branch_id_of(BranchName(base_branch_name.0)) {
            Some(b) => b,
            None => NULL,
        };
        let base_version_id = match self.version_id_of(base_version_name) {
            Some(v) => v,
            None => NULL,
        };
        self.inner.branch_create_by_base_branch_version_without_new_version(
            branch_name.0,
            base_branch_id,
            base_version_id,
            false,
        )
    }

    /// Whether a branch of that name exists.
    pub fn branch_exists(&self, branch_name: BranchName<'_>) -> (r: bool)
        requires
            self.wf(),
        ensures
            r == self@.branch_id(branch_name.0@).is_some(),
    {
        match self.branch_id_of(branch_name) {
            Some(branch_id) => self.inner.branch_exists(branch_id),
            None => false,
        }
    }

    /// Whether the named branch exists and shows at least one version.
    pub fn branch_has_versions(&self, branch_name: BranchName<'_>) -> (r: bool)
        requires
            self.wf(),
        ensures
            r == (match self@.branch_id(branch_name.0@) {
                Some(b) => self@.has_versions(b),
                None => false,
            }),
    {
        match self.branch_id_of(branch_name) {
            Some(branch_id) => self.inner.branch_has_versions(branch_id),
            None => false,
        }
    }

    /// The name of the default branch.
    pub fn branch_get_default(&self) -> (r: BranchNameOwned)
        requires
            self.wf(),
        ensures
            r.0@ == self@.branch_names[self@.default_branch],
    {
        self.inner.branch_get_default_name()
    }

    /// Makes the named branch the default: the one that name-free operations
    /// work on.
    pub fn branch_set_default(&mut self, branch_name: BranchName<'_>) -> (r: Result<(), VsError>)
        requires
            old(self).wf(),
        ensures
            final(self).wf(),
            on_branch_named(old(self)@, branch_name.0@, |b: u64| old(self)@.branch_set_default(b))
                == (final(self)@, r),
    {
        match self.branch_id_of(branch_name) {
            Some(branch_id) => self.inner.branch_set_default(branch_id),
            None => Err(VsError::BranchNotFound),
        }
    }

    /// Whether no version on the named branch wrote any key.
    pub fn branch_is_empty(&self, branch_name: BranchName<'_>) -> (r: Result<bool, VsError>)
        requires
            self.wf(),
        ensures
            r == (match self@.branch_id(branch_name.0@) {
                Some(b) => Ok(
                    forall|i: int|
                        0 <= i < self@.visibility[b].len()
                            ==> self@.change_sets[#[trigger] self@.visibility[b][i]]
                            =~= Set::<Seq<u8>>::empty(),
                ),
                None => Err(VsError::BranchNotFound),
            }),
    {
        match self.branch_id_of(branch_name) {
            Some(branch_id) => self.inner.branch_is_empty(branch_id),
            None => Err(VsError::BranchNotFound),
        }
    }

    /// The names of all branches, in the order of their bytes.
    pub fn branch_list(&self) -> (r: Vec<BranchNameOwned>)
        requires
            self.wf(),
        ensures
            r@.len() == self@.branch_ids.dom().len(),
            sorted::<Vec<u8>>(Seq::new(r@.len(), |j: int| r@[j].0@)),
            forall|n: Seq<u8>|
                Seq::new(r@.len(), |j: int| r@[j].0@).contains(n)
                    <==> self@.branch_ids.dom().contains(n),
    {
        let r = self.inner.branch_list();
        proof {
            self.inner.lemma_branch_name_seq();
            let l = Seq::new(r@.len(), |j: int| r@[j].0@);
            assert(l =~= self.inner.branch_name_seq());
            self.inner.lemma_branch_count();
        }
        r
    }

    /// Exchanges the names of two branches: each name comes to stand for what
    /// the other stood for. The default branch keeps its name.
    pub fn branch_swap(&mut self, branch_1: BranchName<'_>, branch_2: BranchName<'_>) -> (r: Result<
        (),
        VsError,
    >)
        requires
            old(self).wf(),
        ensures
            final(self).wf(),
            old(self)@.branch_swap(branch_1.0@, branch_2.0@) == (final(self)@, r),
    {
        self.inner.branch_swap(branch_1.0, branch_2.0)
    }

    /// Removes the named branch. Its versions stay, with all that they wrote.
    /// The initial branch and the default branch are not removed.
    pub fn branch_remove(&mut self, branch_name: BranchName<'_>) -> (r: Result<(), VsError>)
        requires
            old(self).wf(),
        ensures
            final(self).wf(),
            on_branch_named(old(self)@, branch_name.0@, |b: u64| old(self)@.branch_remove(b))
                == (final(self)@, r),
    {
        match self.branch_id_of(branch_name) {
            Some(branch_id) => self.inner.branch_remove(branch_id),
            None => Err(VsError::BranchNotFound),
        }
    }

    /// Removes every branch that is not named in `branch_names`, and then
    /// every version that no branch shows any more. A name that stands for
    /// no branch keeps none. The initial branch and the default branch stay
    /// in any case.
    pub fn branch_keep_only(&mut self, branch_names: &[BranchName<'_>]) -> (r: Result<(), VsError>)
        requires
            old(self).wf(),
        ensures
            final(self).wf(),
            r.is_ok(),
            final(self)@ == old(self)@.branch_keep_only(
                Set::new(
                    |b: u64|
                        exists|i: int|
                            0 <= i < branch_names@.len() && old(self)@.branch_id(
                                (#[trigger] branch_names@[i]).0@,
                            ) == Some(b),
                ),
            ),
    {
        let mut ids: Vec<u64> = Vec::new();
        let mut i: usize = 0;
        while i < branch_names.len()
            invariant
                i <= branch_names@.len(),
                self.wf(),
                self == old(self),
                forall|b: u64|
                    ids@.contains(b) <==> exists|j: int|
                        0 <= j < i && self@.branch_id((#[trigger] branch_names@[j]).0@) == Some(b),
            decreases branch_names@.len() - i,
        {
            let ghost before = ids@;
            match self.branch_id_of(branch_names[i]) {
                Some(b) => {
                    ids.push(b);
                    proof {
                        assert forall|c: u64| ids@.contains(c) <==> exists|j: int|
                            0 <= j < i + 1 && self@.branch_id((#[trigger] branch_names@[j]).0@)
                                == Some(c) by {
                            if ids@.contains(c) {
                                let x = ids@.index_of(c);
                                if x < before.len() {
                                    assert(before[x] == c);
                                    assert(before.contains(c));
                                } else {
                                    assert(self@.branch_id(branch_names@[i as int].0@) == Some(c));
                                }
                            }
                            if exists|j: int|
                                0 <= j < i + 1 && self@.branch_id((#[trigger] branch_names@[j]).0@)
                                    == Some(c) {
                                let j = choose|j: int|
                                    0 <= j < i + 1 && self@.branch_id(
                                        (#[trigger] branch_names@[j]).0@,
                                    ) == Some(c);
                                if j < i {
                                    assert(before.contains(c));
                                    let x = before.index_of(c);
                                    assert(ids@[x] == c);
                                } else {
                                    assert(ids@[before.len() as int] == c);
                                }
                            }
                        }
                    }
                },
                None => {
                    proof {
                        assert forall|c: u64| ids@.contains(c) <==> exists|j: int|
                            0 <= j < i + 1 && self@.branch_id((#[trigger] branch_names@[j]).0@)
                                == Some(c) by {
                            if exists|j: int|
                                0 <= j < i + 1 && self@.branch_id((#[trigger] branch_names@[j]).0@)
                                    == Some(c) {
                                let j = choose|j: int|
                                    0 <= j < i + 1 && self@.branch_id(
                                        (#[trigger] branch_names@[j]).0@,
                                    ) == Some(c);
                                assert(j < i);
                            }
                        }
                    }
                },
            }
            i = i + 1;
        }
        proof {
            let kept = Set::new(|b: u64| ids@.contains(b));
            let named = Set::new(
                |b: u64|
                    exists|i: int|
                        0 <= i < branch_names@.len() && self@.branch_id(
                            (#[trigger] branch_names@[i]).0@,
                        ) == Some(b),
            );
            assert(kept =~= named);
        }
        self.inner.branch_keep_only(ids.as_slice())
    }

    /// Takes every version off the named branch. The branch stays, empty.
    pub fn branch_truncate(&mut self, branch_name: BranchName<'_>) -> (r: Result<(), VsError>)
        requires
            old(self).wf(),
        ensures
            final(self).wf(),
            on_branch_named(old(self)@, branch_name.0@, |b: u64| old(self)@.branch_truncate(b))
                == (final(self)@, r),
    {
        match self.branch_id_of(branch_name) {
            Some(branch_id) => self.inner.branch_truncate(branch_id),
            None => Err(VsError::BranchNotFound),
        }
    }

    /// Takes every version newer than the named one off the named branch:
    /// refused if there is no such branch, then if there is no such version.
    pub fn branch_truncate_to(&mut self, branch_name: BranchName<'_>,
        last_version_name: VersionName<'_>) -> (r:
        Result<(), VsError>)
        requires
            old(self).wf(),
        ensures
            final(self).wf(),
            on_version_named(
                old(self)@,
                branch_name.0@,
                last_version_name.0@,
                |b: u64, v: u64| old(self)@.branch_truncate_to(b, v),
            ) == (final(self)@, r),
    {
        let branch_id = match self.branch_id_of(branch_name) {
            Some(b) => b,
            None => {
                return Err(VsError::BranchNotFound);
            },
        };
        let last_version_id = match self.version_id_of(last_version_name) {
            Some(v) => v,
            None => {
                return Err(VsError::VersionNotFound);
            },
        };
        self.inner.branch_truncate_to(branch_id, last_version_id)
    }

    /// Takes the newest version off the named branch.
    pub fn branch_pop_version(&mut self, branch_name: BranchName<'_>) -> (r: Result<(), VsError>)
        requires
            old(self).wf(),
        ensures
            final(self).wf(),
            on_branch_named(old(self)@, branch_name.0@, |b: u64| old(self)@.version_pop(b))
                == (final(self)@, r),
    {
        match self.branch_id_of(branch_name) {
            Some(branch_id) => self.inner.branch_pop_version(branch_id),
            None => Err(VsError::BranchNotFound),
        }
    }

    // Merging

    /// Merges the named branch into the named target: the target comes to
    /// show the versions of the branch that it lacks. Refused if either branch
    /// is unknown, or if the target has moved on by itself.
    pub fn branch_merge_to(&mut self, branch_name: BranchName<'_>,
        target_branch_name: BranchName<'_>) -> (r:
        Result<(), VsError>)
        requires
            old(self).wf(),
        ensures
            final(self).wf(),
            (match (old(self)@.branch_id(branch_name.0@),
                old(self)@.branch_id(target_branch_name.0@)) {
                (Some(b), Some(t)) => old(self)@.branch_merge(b, t, false),
                _ => (old(self)@, Err(VsError::BranchNotFound)),
            }) == (final(self)@, r),
    {
        let branch_id = match self.branch_id_of(branch_name) {
            Some(b) => b,
            None => {
                return Err(VsError::BranchNotFound);
            },
        };
        let target_branch_id = match self.branch_id_of(target_branch_name) {
            Some(b) => b,
            None => {
                return Err(VsError::BranchNotFound);
            },
        };
        self.inner.branch_merge_to(branch_id, target_branch_id)
    }

    /// Merges the named branch into the named target, even if the target has
    /// moved on by itself.
    pub fn branch_merge_to_force(&mut self, branch_name: BranchName<'_>,
        target_branch_name: BranchName<'_>) -> (r:
        Result<(), VsError>)
        requires
            old(self).wf(),
        ensures
            final(self).wf(),
            (match (old(self)@.branch_id(branch_name.0@),
                old(self)@.branch_id(target_branch_name.0@)) {
                (Some(b), Some(t)) => old(self)@.branch_merge(b, t, true),
                _ => (old(self)@, Err(VsError::BranchNotFound)),
            }) == (final(self)@, r),
    {
        let branch_id = match self.branch_id_of(branch_name) {
            Some(b) => b,
            None => {
                return Err(VsError::BranchNotFound);
            },
        };
        let target_branch_id = match self.branch_id_of(target_branch_name) {
            Some(b) => b,
            None => {
                return Err(VsError::BranchNotFound);
            },
        };
        self.inner.branch_merge_to_force(branch_id, target_branch_id)
    }

    // Taking versions out

    /// Takes out every version that no branch shows, with all that it wrote.
    pub fn version_clean_up_globally(&mut self)
        requires
            old(self).wf(),
        ensures
            final(self).wf(),
            final(self)@ == old(self)@.clean_up(),
    {
        self.inner.version_clean_up_globally();
    }

    /// Purges the named version from the whole store: it leaves every branch,
    /// the name tables, and the history of every key that it wrote.
    pub fn version_revert_globally(&mut self, version_name: VersionName<'_>) -> (r: Result<(),
        VsError>)
        requires
            old(self).wf(),
        ensures
            final(self).wf(),
            (match old(self)@.version_id(version_name.0@) {
                Some(v) => old(self)@.version_revert(v),
                None => (old(self)@, Err(VsError::VersionNotFound)),
            }) == (final(self)@, r),
    {
        match self.version_id_of(version_name) {
            Some(version_id) => self.inner.version_revert_globally(version_id),
            None => Err(VsError::VersionNotFound),
        }
    }

    /// Whether no other branch shows a version of the named branch that is
    /// newer than the named version: what a rebase of the branch onto that
    /// version asks for. True where the branch or the version does not exist.
    pub fn branch_owns_after(&self, branch_name: BranchName<'_>, base_version: VersionName<'_>)
        -> (r:
        bool)
        requires
            self.wf(),
        ensures
            r == (match (self@.branch_id(branch_name.0@), self@.version_id(base_version.0@)) {
                (Some(b), Some(v)) => self@.sole_owner_after(b, v),
                _ => true,
            }),
    {
        let branch_id = match self.branch_id_of(branch_name) {
            Some(b) => b,
            None => {
                return true;
            },
        };
        let version_id = match self.version_id_of(base_version) {
            Some(v) => v,
            None => {
                return true;
            },
        };
        self.inner.branch_owns_after(branch_id, version_id)
    }

    /// Folds every version of the default branch that is newer than the named
    /// version into that version.
    pub fn version_rebase(&mut self, base_version: VersionName<'_>) -> (r: Result<(), VsError>)
        requires
            old(self).wf(),
            old(self)@.version_id(base_version.0@).is_some() ==> old(self)@.sole_owner_after(
                old(self)@.default_branch,
                old(self)@.version_id(base_version.0@).unwrap(),
            ),
        ensures
            final(self).wf(),
            (match old(self)@.version_id(base_version.0@) {
                Some(v) => old(self)@.version_rebase(v, old(self)@.default_branch),
                None => (old(self)@, Err(VsError::VersionNotFound)),
            }) == (final(self)@, r),
    {
        match self.version_id_of(base_version) {
            Some(version_id) => self.inner.version_rebase(version_id),
            None => Err(VsError::VersionNotFound),
        }
    }

    /// Folds every version of the named branch that is newer than the named
    /// version into that version. No other branch may show one of the newer
    /// versions.
    pub fn version_rebase_by_branch(&mut self, base_version: VersionName<'_>,
        branch_name: BranchName<'_>) -> (r:
        Result<(), VsError>)
        requires
            old(self).wf(),
            old(self)@.branch_id(branch_name.0@).is_some() && old(self)@.version_id(
                base_version.0@,
            ).is_some() ==> old(self)@.sole_owner_after(
                old(self)@.branch_id(branch_name.0@).unwrap(),
                old(self)@.version_id(base_version.0@).unwrap(),
            ),
        ensures
            final(self).wf(),
            on_version_named(
                old(self)@,
                branch_name.0@,
                base_version.0@,
                |b: u64, v: u64| old(self)@.version_rebase(v, b),
            ) == (final(self)@, r),
    {
        let branch_id = match self.branch_id_of(branch_name) {
            Some(b) => b,
            None => {
                return Err(VsError::BranchNotFound);
            },
        };
        let version_id = match self.version_id_of(base_version) {
            Some(v) => v,
            None => {
                return Err(VsError::VersionNotFound);
            },
        };
        self.inner.version_rebase_by_branch(version_id, branch_id)
    }

    /// Cuts the history that all branches share down to its newest versions,
    /// `reserved_ver_num` of them, or the default number. Refused, after the
    /// versions that no branch shows were taken out, if the number is zero.
    pub fn prune(&mut self, reserved_ver_num: Option<usize>) -> (r: Result<(), VsError>)
        requires
            old(self).wf(),
        ensures
            final(self).wf(),
            old(self)@.prune(reserved(reserved_ver_num)) == (final(self)@, r),
    {
        self.inner.prune(reserved_ver_num)
    }

    // Walking the keys

    /// Walks all keys, as seen from the head of the default branch.
    pub fn iter<'a>(&'a self) -> (r: MapxRawVsIter<'a>)
        requires
            self.wf(),
        ensures
            r.wf(),
            r.store() == self@,
            r.branch() == self@.default_branch,
            r.version() == self@.head_or_null(self@.default_branch),
            r.remaining() == self.key_seq(),
    {
        self.inner.iter()
    }

    /// Walks all keys, as seen from the head of the named branch. Nothing is
    /// seen from a branch that does not exist.
    pub fn iter_by_branch<'a>(&'a self, branch_name: BranchName<'_>) -> (r: MapxRawVsIter<'a>)
        requires
            self.wf(),
        ensures
            r.wf(),
            r.store() == self@,
            r.branch() == branch_or_null(self@, branch_name.0@),
            r.version() == self@.head_or_null(branch_or_null(self@, branch_name.0@)),
            r.remaining() == self.key_seq(),
    {
        let branch_id = match self.branch_id_of(branch_name) {
            Some(b) => b,
            None => NULL,
        };
        self.inner.iter_by_branch(branch_id)
    }

    /// Walks all keys, as seen from the named version of the named branch.
    /// Nothing is seen where the branch or the version does not exist.
    pub fn iter_by_branch_version<'a>(
        &'a self,
        branch_name: BranchName<'_>,
        version_name: VersionName<'_>,
    ) -> (r: MapxRawVsIter<'a>)
        requires
            self.wf(),
        ensures
            r.wf(),
            r.store() == self@,
            r.branch() == branch_or_null(self@, branch_name.0@),
            r.version() == version_or_null(self@, version_name.0@),
            r.remaining() == self.key_seq(),
    {
        let branch_id = match self.branch_id_of(branch_name) {
            Some(b) => b,
            None => NULL,
        };
        let version_id = match self.version_id_of(version_name) {
            Some(v) => v,
            None => NULL,
        };
        self.inner.iter_by_branch_version(branch_id, version_id)
    }

    /// Walks the keys within the bounds, as seen from the head of the default
    /// branch.
    pub fn range<'a>(&'a self, lower: KeyBound<'_>, upper: KeyBound<'_>) -> (r: MapxRawVsIter<'a>)
        requires
            self.wf(),
        ensures
            r.wf(),
            r.store() == self@,
            r.branch() == self@.default_branch,
            r.version() == self@.head_or_null(self@.default_branch),
            sorted::<Vec<u8>>(r.remaining()),
            forall|k: Seq<u8>|
                r.remaining().contains(k) <==> (self@.layers.dom().contains(k) && within(
                    k,
                    lower,
                    upper,
                )),
    {
        self.inner.range(lower, upper)
    }

    /// Walks the keys within the bounds, as seen from the head of the named
    /// branch.
    pub fn range_by_branch<'a>(
        &'a self,
        branch_name: BranchName<'_>,
        lower: KeyBound<'_>,
        upper: KeyBound<'_>,
    ) -> (r: MapxRawVsIter<'a>)
        requires
            self.wf(),
        ensures
            r.wf(),
            r.store() == self@,
            r.branch() == branch_or_null(self@, branch_name.0@),
            r.version() == self@.head_or_null(branch_or_null(self@, branch_name.0@)),
            sorted::<Vec<u8>>(r.remaining()),
            forall|k: Seq<u8>|
                r.remaining().contains(k) <==> (self@.layers.dom().contains(k) && within(
                    k,
                    lower,
                    upper,
                )),
    {
        let branch_id = match self.branch_id_of(branch_name) {
            Some(b) => b,
            None => NULL,
        };
        self.inner.range_by_branch(branch_id, lower, upper)
    }

    /// Walks the keys within the bounds, as seen from the named version of the
    /// named branch.
    pub fn range_by_branch_version<'a>(
        &'a self,
        branch_name: BranchName<'_>,
        version_name: VersionName<'_>,
        lower: KeyBound<'_>,
        upper: KeyBound<'_>,
    ) -> (r: MapxRawVsIter<'a>)
        requires
            self.wf(),
        ensures
            r.wf(),
            r.store() == self@,
            r.branch() == branch_or_null(self@, branch_name.0@),
            r.version() == version_or_null(self@, version_name.0@),
            sorted::<Vec<u8>>(r.remaining()),
            forall|k: Seq<u8>|
                r.remaining().contains(k) <==> (self@.layers.dom().contains(k) && within(
                    k,
                    lower,
                    upper,
                )),
    {
        let branch_id = match self.branch_id_of(branch_name) {
            Some(b) => b,
            None => NULL,
        };
        let version_id = match self.version_id_of(version_name) {
            Some(v) => v,
            None => NULL,
        };
        self.inner.range_by_branch_version(branch_id, version_id, lower, upper)
    }

    /// Walks the keys within the bounds, as seen from the head of the default
    /// branch. The bounds are borrowed.
    pub fn range_ref<'a>(&'a self, lower: KeyBound<'_>, upper: KeyBound<'_>)
        -> (r: MapxRawVsIter<'a>)
        requires
            self.wf(),
        ensures
            r.wf(),
            r.store() == self@,
            r.branch() == self@.default_branch,
            r.version() == self@.head_or_null(self@.default_branch),
            sorted::<Vec<u8>>(r.remaining()),
            forall|k: Seq<u8>|
                r.remaining().contains(k) <==> (self@.layers.dom().contains(k) && within(
                    k,
                    lower,
                    upper,
                )),
    {
        self.inner.range(lower, upper)
    }

    /// Walks the keys within the bounds, as seen from the head of the named
    /// branch. The bounds are borrowed.
    pub fn range_ref_by_branch<'a>(
        &'a self,
        branch_name: BranchName<'_>,
        lower: KeyBound<'_>,
        upper: KeyBound<'_>,
    ) -> (r: MapxRawVsIter<'a>)
        requires
            self.wf(),
        ensures
            r.wf(),
            r.store() == self@,
            r.branch() == branch_or_null(self@, branch_name.0@),
            r.version() == self@.head_or_null(branch_or_null(self@, branch_name.0@)),
            sorted::<Vec<u8>>(r.remaining()),
            forall|k: Seq<u8>|
                r.remaining().contains(k) <==> (self@.layers.dom().contains(k) && within(
                    k,
                    lower,
                    upper,
                )),
    {
        let branch_id = match self.branch_id_of(branch_name) {
            Some(b) => b,
            None => NULL,
        };
        self.inner.range_by_branch(branch_id, lower, upper)
    }

    /// Walks the keys within the bounds, as seen from the named version of the
    /// named branch. The bounds are borrowed.
    pub fn range_ref_by_branch_version<'a>(
        &'a self,
        branch_name: BranchName<'_>,
        version_name: VersionName<'_>,
        lower: KeyBound<'_>,
        upper: KeyBound<'_>,
    ) -> (r: MapxRawVsIter<'a>)
        requires
            self.wf(),
        ensures
            r.wf(),
            r.store() == self@,
            r.branch() == branch_or_null(self@, branch_name.0@),
            r.version() == version_or_null(self@, version_name.0@),
            sorted::<Vec<u8>>(r.remaining()),
            forall|k: Seq<u8>|
                r.remaining().contains(k) <==> (self@.layers.dom().contains(k) && within(
                    k,
                    lower,
                    upper,
                )),
    {
        let branch_id = match self.branch_id_of(branch_name) {
            Some(b) => b,
            None => NULL,
        };
        let version_id = match self.version_id_of(version_name) {
            Some(v) => v,
            None => NULL,
        };
        self.inner.range_by_branch_version(branch_id, version_id, lower, upper)
    }

    /// The smallest key not below `key` that is visible from the head of the default
    /// branch, with its value.
    pub fn get_ge(&self, key: &[u8]) -> (r: Option<(Vec<u8>, Vec<u8>)>)
        requires
            self.wf(),
        ensures
            self@.is_next_from(
                key@,
                self@.default_branch,
                self@.head_or_null(self@.default_branch),
                pair_bytes(r),
            ),
    {
        self.inner.get_ge(key)
    }

    /// The smallest key not below `key` that is visible from the head of the named
    /// branch, with its value. Nothing is visible from a branch that does not exist.
    pub fn get_ge_by_branch(&self, key: &[u8], branch_name: BranchName<'_>) -> (r: Option<(Vec<u8>,
        Vec<u8>)>)
        requires
            self.wf(),
        ensures
            self@.is_next_from(
                key@,
                branch_or_null(self@, branch_name.0@),
                self@.head_or_null(branch_or_null(self@, branch_name.0@)),
                pair_bytes(r),
            ),
    {
        let branch_id = match self.branch_id_of(branch_name) {
            Some(b) => b,
            None => NULL,
        };
        self.inner.get_ge_by_branch(key, branch_id)
    }

    /// The smallest key not below `key` that is visible from the named version of the
    /// named branch, with its value. Nothing is visible where the branch or the
    /// version does not exist.
    pub fn get_ge_by_branch_version(
        &self,
        key: &[u8],
        branch_name: BranchName<'_>,
        version_name: VersionName<'_>,
    ) -> (r: Option<(Vec<u8>, Vec<u8>)>)
        requires
            self.wf(),
        ensures
            self@.is_next_from(
                key@,
                branch_or_null(self@, branch_name.0@),
                version_or_null(self@, version_name.0@),
                pair_bytes(r),
            ),
    {
        let branch_id = match self.branch_id_of(branch_name) {
            Some(b) => b,
            None => NULL,
        };
        let version_id = match self.version_id_of(version_name) {
            Some(v) => v,
            None => NULL,
        };
        self.inner.get_ge_by_branch_version(key, branch_id, version_id)
    }

    /// The greatest key not above `key` that is visible from the head of the default
    /// branch, with its value.
    pub fn get_le(&self, key: &[u8]) -> (r: Option<(Vec<u8>, Vec<u8>)>)
        requires
            self.wf(),
        ensures
            self@.is_next_before(
                key@,
                self@.default_branch,
                self@.head_or_null(self@.default_branch),
                pair_bytes(r),
            ),
    {
        self.inner.get_le(key)
    }

    /// The greatest key not above `key` that is visible from the head of the named
    /// branch, with its value. Nothing is visible from a branch that does not exist.
    pub fn get_le_by_branch(&self, key: &[u8], branch_name: BranchName<'_>) -> (r: Option<(Vec<u8>,
        Vec<u8>)>)
        requires
            self.wf(),
        ensures
            self@.is_next_before(
                key@,
                branch_or_null(self@, branch_name.0@),
                self@.head_or_null(branch_or_null(self@, branch_name.0@)),
                pair_bytes(r),
            ),
    {
        let branch_id = match self.branch_id_of(branch_name) {
            Some(b) => b,
            None => NULL,
        };
        self.inner.get_le_by_branch(key, branch_id)
    }

    /// The greatest key not above `key` that is visible from the named version of the
    /// named branch, with its value. Nothing is visible where the branch or the
    /// version does not exist.
    pub fn get_le_by_branch_version(
        &self,
        key: &[u8],
        branch_name: BranchName<'_>,
        version_name: VersionName<'_>,
    ) -> (r: Option<(Vec<u8>, Vec<u8>)>)
        requires
            self.wf(),
        ensures
            self@.is_next_before(
                key@,
                branch_or_null(self@, branch_name.0@),
                version_or_null(self@, version_name.0@),
                pair_bytes(r),
            ),
    {
        let branch_id = match self.branch_id_of(branch_name) {
            Some(b) => b,
            None => NULL,
        };
        let version_id = match self.version_id_of(version_name) {
            Some(v) => v,
            None => NULL,
        };
        self.inner.get_le_by_branch_version(key, branch_id, version_id)
    }

    /// The number of keys that are visible from the head of the default branch.
    pub fn len(&self) -> (n: usize)
        requires
            self.wf(),
        ensures
            n == self@.count_visible(
                self.key_seq(),
                self@.default_branch,
                self@.head_or_null(self@.default_branch),
            ),
    {
        self.inner.len()
    }

    /// The number of keys that are visible from the head of the named branch;
    /// zero if there is no such branch.
    pub fn len_by_branch(&self, branch_name: BranchName<'_>) -> (n: usize)
        requires
            self.wf(),
        ensures
            n == (match self@.branch_id(branch_name.0@) {
                Some(b) => self@.count_visible(self.key_seq(), b, self@.head_or_null(b)),
                None => 0,
            }),
    {
        match self.branch_id_of(branch_name) {
            Some(branch_id) => self.inner.len_by_branch(branch_id),
            None => 0,
        }
    }

    /// The number of keys that are visible from the named version of the named
    /// branch; zero if there is no such branch or no such version.
    pub fn len_by_branch_version(&self, branch_name: BranchName<'_>, version_name: VersionName<'_>)
        -> (n:
        usize)
        requires
            self.wf(),
        ensures
            n == (match (self@.branch_id(branch_name.0@), self@.version_id(version_name.0@)) {
                (Some(b), Some(v)) => self@.count_visible(self.key_seq(), b, v),
                _ => 0,
            }),
    {
        let branch_id = match self.branch_id_of(branch_name) {
            Some(b) => b,
            None => {
                return 0;
            },
        };
        let version_id = match self.version_id_of(version_name) {
            Some(v) => v,
            None => {
                return 0;
            },
        };
        self.inner.len_by_branch_version(branch_id, version_id)
    }

    /// Whether no key is visible from the head of the default branch.
    pub fn is_empty(&self) -> (r: bool)
        requires
            self.wf(),
        ensures
            r == self@.nothing_visible(
                self@.default_branch,
                self@.head_or_null(self@.default_branch),
            ),
    {
        self.inner.is_empty()
    }

    /// Whether no key is visible from the head of the named branch.
    pub fn is_empty_by_branch(&self, branch_name: BranchName<'_>) -> (r: bool)
        requires
            self.wf(),
        ensures
            r == self@.nothing_visible(
                branch_or_null(self@, branch_name.0@),
                self@.head_or_null(branch_or_null(self@, branch_name.0@)),
            ),
    {
        let branch_id = match self.branch_id_of(branch_name) {
            Some(b) => b,
            None => NULL,
        };
        self.inner.is_empty_by_branch(branch_id)
    }

    /// Whether no key is visible from the named version of the named branch.
    pub fn is_empty_by_branch_version(
        &self,
        branch_name: BranchName<'_>,
        version_name: VersionName<'_>,
    ) -> (r: bool)
        requires
            self.wf(),
        ensures
            r == self@.nothing_visible(
                branch_or_null(self@, branch_name.0@),
                version_or_null(self@, version_name.0@),
            ),
    {
        let branch_id = match self.branch_id_of(branch_name) {
            Some(b) => b,
            None => NULL,
        };
        let version_id = match self.version_id_of(version_name) {
            Some(v) => v,
            None => NULL,
        };
        self.inner.is_empty_by_branch_version(branch_id, version_id)
    }

    // The signature of what is seen

    /// The signature of what is seen from the head of the default branch;
    /// nothing if the branch has no version.
    pub fn checksum_get(&self) -> (r: Option<VerChecksum>)
        requires
            self.wf(),
        ensures
            signature_bytes(r) == (match self@.head(self@.default_branch) {
                Some(v) => Some(
                    be_bytes(
                        checksum_of(self@.visible_pairs(self.key_seq(), self@.default_branch, v)),
                    ),
                ),
                None => None,
            }),
    {
        self.inner.checksum_get()
    }

    /// The signature of what is seen from the head of the named branch;
    /// nothing if there is no such branch or it has no version.
    pub fn checksum_get_by_branch(&self, branch_name: BranchName<'_>) -> (r: Option<VerChecksum>)
        requires
            self.wf(),
        ensures
            signature_bytes(r) == (match self@.branch_id(branch_name.0@) {
                Some(b) => match self@.head(b) {
                    Some(v) => Some(be_bytes(checksum_of(self@.visible_pairs(self.key_seq(), b,
                        v)))),
                    None => None,
                },
                None => None,
            }),
    {
        match self.branch_id_of(branch_name) {
            Some(branch_id) => self.inner.checksum_get_by_branch(branch_id),
            None => None,
        }
    }

    /// The signature of what is seen from the named version of the named
    /// branch; nothing if the version is not on the branch.
    pub fn checksum_get_by_branch_version(
        &self,
        branch_name: BranchName<'_>,
        version_name: VersionName<'_>,
    ) -> (r: Option<VerChecksum>)
        requires
            self.wf(),
        ensures
            signature_bytes(r) == (match (self@.branch_id(branch_name.0@),
                self@.version_id(version_name.0@)) {
                (Some(b), Some(v)) => if self@.on_branch(b, v) {
                    Some(be_bytes(checksum_of(self@.visible_pairs(self.key_seq(), b, v))))
                } else {
                    None
                },
                _ => None,
            }),
    {
        let branch_id = match self.branch_id_of(branch_name) {
            Some(b) => b,
            None => {
                return None;
            },
        };
        let version_id = match self.version_id_of(version_name) {
            Some(v) => v,
            None => {
                return None;
            },
        };
        self.inner.checksum_get_by_branch_version(branch_id, version_id)
    }
}

} // verus!
