//! The versioned map as a mathematical object: seven tables, and what each
//! operation makes of them.
//!
//! Nothing here is executable. The executable store states its contracts over
//! this model.

use vstd::prelude::*;
use crate::basic::mapx_ord::{
    insert_key, is_place, lemma_insert_key, lemma_remove_key, place, remove_key, sorted,
};
use crate::basic::ord_key::{bytes_lt, OrdKey};
use crate::common::{INITIAL_BRANCH_ID, initial_branch_name, NULL, RESERVED_ID_CNT, VsError};

verus! {

/// The seven tables of a versioned map, the default branch and the two
/// identifier counters.
pub struct VsModel {
    /// The branch that name-free operations work on.
    pub default_branch: u64,
    /// Branch name to branch identifier.
    pub branch_ids: Map<Seq<u8>, u64>,
    /// Branch identifier to branch name.
    pub branch_names: Map<u64, Seq<u8>>,
    /// Version name to version identifier.
    pub version_ids: Map<Seq<u8>, u64>,
    /// Version identifier to version name.
    pub version_names: Map<u64, Seq<u8>>,
    /// For each branch the versions visible on it, oldest first.
    pub visibility: Map<u64, Seq<u64>>,
    /// For each version the keys that it wrote.
    pub change_sets: Map<u64, Set<Seq<u8>>>,
    /// For each key, what each version wrote to it; an empty value is a tombstone.
    pub layers: Map<Seq<u8>, Map<u64, Seq<u8>>>,
    /// The next branch identifier to hand out.
    pub next_branch_id: u64,
    /// The next version identifier to hand out.
    pub next_version_id: u64,
}

/// The versions of `s` strictly increase.
pub open spec fn increasing(s: Seq<u64>) -> bool {
    sorted::<u64>(s)
}

/// What a stored value means to a reader: a tombstone hides the key.
pub open spec fn stored(val: Seq<u8>) -> Option<Seq<u8>> {
    if val.len() == 0 {
        None
    } else {
        Some(val)
    }
}

/// `n` versions of `s` are not newer than `last`, and they come first.
pub open spec fn is_cut(s: Seq<u64>, last: u64, n: int) -> bool {
    &&& 0 <= n <= s.len()
    &&& forall|j: int| 0 <= j < n ==> #[trigger] s[j] <= last
    &&& forall|j: int| n <= j < s.len() ==> #[trigger] s[j] > last
}

/// The versions of `s` that are not newer than `last`.
pub open spec fn up_to(s: Seq<u64>, last: u64) -> Seq<u64> {
    s.subrange(0, choose|n: int| is_cut(s, last, n))
}

/// There is one place only at which a sequence can be cut.
pub proof fn lemma_up_to(s: Seq<u64>, last: u64, n: int)
    requires
        is_cut(s, last, n),
    ensures
        up_to(s, last) == s.subrange(0, n),
{
    let m = choose|m: int| is_cut(s, last, m);
    if m < n {
        assert(s[m] <= last);
    } else if n < m {
        assert(s[n] <= last);
    }
}

/// `t` with every version of `add` put at its place.
pub open spec fn insert_all(t: Seq<u64>, add: Seq<u64>) -> Seq<u64>
    decreases add.len(),
{
    if add.len() == 0 {
        t
    } else {
        insert_key::<u64>(insert_all(t, add.drop_last()), add.last())
    }
}

/// What `insert_all` makes of an increasing sequence.
pub proof fn lemma_insert_all(t: Seq<u64>, add: Seq<u64>)
    requires
        increasing(t),
    ensures
        increasing(insert_all(t, add)),
        forall|x: u64| insert_all(t, add).contains(x) <==> (t.contains(x) || add.contains(x)),
    decreases add.len(),
{
    if add.len() > 0 {
        let a = add.drop_last();
        let r = insert_all(t, a);
        lemma_insert_all(t, a);
        lemma_has_place(r, add.last());
        lemma_insert_key::<u64>(r, add.last());
        assert forall|x: u64| insert_all(t, add).contains(x) <==> (t.contains(x)
            || add.contains(x)) by {
            if a.contains(x) {
                let i = a.index_of(x);
                assert(add[i] == x);
            }
            if add.contains(x) {
                let i = add.index_of(x);
                if i < a.len() {
                    assert(a[i] == x);
                }
            }
            assert(add[add.len() - 1] == add.last());
        }
    }
}

/// Every version has a place in an increasing sequence.
pub proof fn lemma_has_place(s: Seq<u64>, v: u64)
    requires
        increasing(s),
    ensures
        exists|i: int| is_place::<u64>(s, v, i),
    decreases s.len(),
{
    if s.len() == 0 {
        assert(is_place::<u64>(s, v, 0));
    } else if s.last() < v {
        assert forall|j: int| 0 <= j < s.len() implies u64::before(#[trigger] s[j], v) by {
            if j < s.len() - 1 {
                assert(u64::before(s[j], s[s.len() - 1]));
            }
        }
        assert(is_place::<u64>(s, v, s.len() as int));
    } else {
        let a = s.drop_last();
        assert forall|i: int, j: int| 0 <= i < j < a.len() implies u64::before(
            #[trigger] a[i],
            #[trigger] a[j],
        ) by {
            assert(u64::before(s[i], s[j]));
        }
        lemma_has_place(a, v);
        let i = choose|i: int| is_place::<u64>(a, v, i);
        assert forall|j: int| 0 <= j < i implies u64::before(#[trigger] s[j], v) by {
            assert(u64::before(a[j], v));
        }
        assert forall|j: int| i <= j < s.len() implies !u64::before(#[trigger] s[j], v) by {
            if j < a.len() {
                assert(!u64::before(a[j], v));
            }
        }
        assert(is_place::<u64>(s, v, i));
    }
}

/// `i` is the first place at which `s` and `t` both hold a version and the two differ.
pub open spec fn fork_at(s: Seq<u64>, t: Seq<u64>, i: int) -> bool {
    &&& 0 <= i < s.len()
    &&& i < t.len()
    &&& s[i] != t[i]
    &&& forall|j: int| 0 <= j < i ==> s[j] == t[j]
}

/// What a branch that shows `t` shows after a branch that shows `s` was merged
/// into it. Where the two part ways, every version of `s` from there on joins
/// `t`; where they never part, `t` takes over what `s` has beyond it.
pub open spec fn merged(s: Seq<u64>, t: Seq<u64>) -> Seq<u64> {
    if exists|i: int| fork_at(s, t, i) {
        insert_all(t, s.skip(choose|i: int| fork_at(s, t, i)))
    } else if s.len() > t.len() {
        insert_all(t, s.skip(t.len() as int))
    } else {
        t
    }
}

/// Two sequences part ways at one place at most.
pub proof fn lemma_fork_unique(s: Seq<u64>, t: Seq<u64>, i: int)
    requires
        fork_at(s, t, i),
    ensures
        (choose|j: int| fork_at(s, t, j)) == i,
{
    let j = choose|j: int| fork_at(s, t, j);
    assert(fork_at(s, t, j));
}

/// The keys of a sequence of keys with their values.
pub open spec fn pair_keys(p: Seq<(Seq<u8>, Seq<u8>)>) -> Seq<Seq<u8>> {
    Seq::new(p.len(), |i: int| p[i].0)
}

/// What becomes of the values that a version wrote when the version is folded
/// away.
#[derive(Clone, Copy, Debug, PartialEq, Eq, Structural)]
pub enum Keep {
    /// They go with the version.
    Nothing,
    /// The newest moves to the receiving version, for each key that would
    /// otherwise be left with no value at or below the receiving version.
    IfBare,
    /// The newest moves to the receiving version and replaces what that wrote.
    Always,
}

/// `m` is the greatest member of `s`.
pub open spec fn is_newest(s: Set<u64>, m: u64) -> bool {
    s.contains(m) && forall|x: u64| s.contains(x) ==> x <= m
}

/// The greatest member of `s`.
pub open spec fn newest_in(s: Set<u64>) -> u64 {
    choose|m: u64| is_newest(s, m)
}

/// A set has at most one greatest member.
pub proof fn lemma_newest(s: Set<u64>, m: u64)
    requires
        is_newest(s, m),
    ensures
        newest_in(s) == m,
{
    let c = newest_in(s);
    assert(s.contains(c));
}

/// Whether folding the versions `dead` out of the history `m` of one key moves
/// a value to the version `into`.
pub open spec fn moves(m: Map<u64, Seq<u8>>, dead: Set<u64>, into: u64, keep: Keep) -> bool {
    &&& exists|d: u64| dead.contains(d) && m.dom().contains(d)
    &&& match keep {
        Keep::Nothing => false,
        Keep::IfBare => forall|e: u64| m.dom().contains(e) && !dead.contains(e) ==> e > into,
        Keep::Always => true,
    }
}

/// The history of one key after the versions `dead` were folded out of it.
pub open spec fn fold_layer(m: Map<u64, Seq<u8>>, dead: Set<u64>, into: u64, keep: Keep) -> Map<
    u64,
    Seq<u8>,
> {
    let rest = m.remove_keys(dead);
    if moves(m, dead, into, keep) {
        rest.insert(into, m[newest_in(m.dom().intersect(dead))])
    } else {
        rest
    }
}

impl VsModel {
    // The store and its invariants

    /// A store that holds the initial branch and nothing else.
    pub open spec fn initial() -> VsModel {
        VsModel {
            default_branch: INITIAL_BRANCH_ID,
            branch_ids: Map::<Seq<u8>, u64>::empty().insert(initial_branch_name(),
                INITIAL_BRANCH_ID),
            branch_names: Map::<u64, Seq<u8>>::empty().insert(INITIAL_BRANCH_ID,
                initial_branch_name()),
            version_ids: Map::empty(),
            version_names: Map::empty(),
            visibility: Map::<u64, Seq<u64>>::empty().insert(INITIAL_BRANCH_ID, Seq::empty()),
            change_sets: Map::empty(),
            layers: Map::empty(),
            next_branch_id: RESERVED_ID_CNT,
            next_version_id: RESERVED_ID_CNT,
        }
    }

    /// The initial store meets the invariants.
    pub proof fn lemma_initial_wf()
        ensures
            Self::initial().wf(),
    {
        let i = Self::initial();
        assert(i.visibility.dom() =~= i.branch_names.dom());
        assert(i.change_sets.dom() =~= i.version_names.dom());
        assert(i.visibility[INITIAL_BRANCH_ID].len() == 0);
    }

    /// The invariants that hold between the tables after every operation.
    pub open spec fn wf(self) -> bool {
        &&& self.names_match()
        &&& self.visibility.dom() == self.branch_names.dom()
        &&& self.change_sets.dom() == self.version_names.dom()
        &&& self.visibility_sound()
        &&& self.layers_match()
        &&& self.ids_allocated()
        &&& self.has_branch(INITIAL_BRANCH_ID)
        &&& self.has_default()
    }

    /// Names and identifiers are inverse to each other, for branches and for versions.
    pub open spec fn names_match(self) -> bool {
        &&& forall|n: Seq<u8>| #[trigger]
            self.branch_ids.dom().contains(n) ==> self.branch_names.dom().contains(
                self.branch_ids[n],
            ) && self.branch_names[self.branch_ids[n]] == n
        &&& forall|b: u64| #[trigger]
            self.branch_names.dom().contains(b) ==> self.branch_ids.dom().contains(
                self.branch_names[b],
            ) && self.branch_ids[self.branch_names[b]] == b
        &&& forall|n: Seq<u8>| #[trigger]
            self.version_ids.dom().contains(n) ==> self.version_names.dom().contains(
                self.version_ids[n],
            ) && self.version_names[self.version_ids[n]] == n
        &&& forall|v: u64| #[trigger]
            self.version_names.dom().contains(v) ==> self.version_ids.dom().contains(
                self.version_names[v],
            ) && self.version_ids[self.version_names[v]] == v
    }

    /// Every visibility set strictly increases and holds existing versions only.
    pub open spec fn visibility_sound(self) -> bool {
        &&& forall|b: u64| #[trigger]
            self.visibility.dom().contains(b) ==> increasing(self.visibility[b])
        &&& forall|b: u64, i: int|
            self.visibility.dom().contains(b) && 0 <= i < self.visibility[b].len()
                ==> self.version_names.dom().contains(#[trigger] self.visibility[b][i])
    }

    /// A version wrote a key exactly if the key is in the version's change-set.
    pub open spec fn layers_match(self) -> bool {
        &&& forall|k: Seq<u8>, v: u64|
            self.layers.dom().contains(k) && #[trigger] self.layers[k].dom().contains(v)
                ==> self.change_sets.dom().contains(v) && self.change_sets[v].contains(k)
        &&& forall|k: Seq<u8>, v: u64|
            self.change_sets.dom().contains(v) && #[trigger] self.change_sets[v].contains(k)
                ==> self.layers.dom().contains(k) && self.layers[k].dom().contains(v)
    }

    /// Every identifier in use lies below its counter, and none is the null identifier.
    pub open spec fn ids_allocated(self) -> bool {
        &&& forall|b: u64| #[trigger] self.branch_names.dom().contains(b) ==> b
            < self.next_branch_id
        &&& forall|v: u64| #[trigger]
            self.version_names.dom().contains(v) ==> v < self.next_version_id
        &&& !self.branch_names.dom().contains(NULL)
        &&& !self.version_names.dom().contains(NULL)
        &&& self.next_branch_id > INITIAL_BRANCH_ID
        &&& self.next_version_id > NULL
    }

    /// The store with other values in its two identifier counters.
    pub open spec fn with_counters(self, next_branch_id: u64, next_version_id: u64) -> VsModel {
        VsModel { next_branch_id, next_version_id, ..self }
    }

    /// An emptied store meets the invariants.
    pub proof fn lemma_cleared_wf(self)
        requires
            self.wf(),
        ensures
            Self::initial().with_counters(self.next_branch_id, self.next_version_id).wf(),
    {
        let i = Self::initial().with_counters(self.next_branch_id, self.next_version_id);
        assert(i.visibility.dom() =~= i.branch_names.dom());
        assert(i.change_sets.dom() =~= i.version_names.dom());
        assert(i.visibility[INITIAL_BRANCH_ID].len() == 0);
    }

    // Names

    /// The identifier of the branch named `name`.
    pub open spec fn branch_id(self, name: Seq<u8>) -> Option<u64> {
        if self.branch_ids.dom().contains(name) {
            Some(self.branch_ids[name])
        } else {
            None
        }
    }

    /// The identifier of the version named `name`.
    pub open spec fn version_id(self, name: Seq<u8>) -> Option<u64> {
        if self.version_ids.dom().contains(name) {
            Some(self.version_ids[name])
        } else {
            None
        }
    }

    /// A named branch exists.
    pub proof fn lemma_named_branch(self, name: Seq<u8>)
        requires
            self.wf(),
            self.branch_id(name).is_some(),
        ensures
            self.has_branch(self.branch_id(name).unwrap()),
    {
        assert(self.branch_names.dom().contains(self.branch_ids[name]));
    }

    /// A named version exists.
    pub proof fn lemma_named_version(self, name: Seq<u8>)
        requires
            self.wf(),
            self.version_id(name).is_some(),
        ensures
            self.change_sets.dom().contains(self.version_id(name).unwrap()),
    {
        assert(self.version_names.dom().contains(self.version_ids[name]));
    }

    // Branches and what they show

    /// Whether the branch exists.
    pub open spec fn has_branch(self, b: u64) -> bool {
        self.visibility.dom().contains(b)
    }

    /// Whether branch `b` is one that has to stay: the initial branch or the
    /// default branch.
    pub open spec fn pinned(self, b: u64) -> bool {
        b == INITIAL_BRANCH_ID || b == self.default_branch
    }

    /// Whether the default branch exists.
    pub open spec fn has_default(self) -> bool {
        self.has_branch(self.default_branch)
    }

    /// Whether `v` is visible on branch `b`.
    pub open spec fn on_branch(self, b: u64, v: u64) -> bool {
        self.visibility.dom().contains(b) && self.visibility[b].contains(v)
    }

    /// Whether branch `b` exists and shows at least one version.
    pub open spec fn has_versions(self, b: u64) -> bool {
        self.visibility.dom().contains(b) && self.visibility[b].len() > 0
    }

    /// The newest version on branch `b`, if the branch exists and has one.
    pub open spec fn head(self, b: u64) -> Option<u64> {
        if self.visibility.dom().contains(b) && self.visibility[b].len() > 0 {
            Some(self.visibility[b].last())
        } else {
            None
        }
    }

    /// The head of branch `b`, or the null version if it has none.
    pub open spec fn head_or_null(self, b: u64) -> u64 {
        match self.head(b) {
            Some(v) => v,
            None => NULL,
        }
    }

    /// Why a branch has no head: it does not exist, or it has no version yet.
    pub open spec fn no_head(self, b: u64) -> VsError {
        if self.has_branch(b) {
            VsError::NoCurrentVersion
        } else {
            VsError::BranchNotFound
        }
    }

    /// The head of a branch is an existing version.
    pub proof fn lemma_head_exists(self, b: u64)
        requires
            self.wf(),
            self.head(b).is_some(),
        ensures
            self.on_branch(b, self.head(b).unwrap()),
            self.version_names.dom().contains(self.head(b).unwrap()),
            self.change_sets.dom().contains(self.head(b).unwrap()),
            forall|i: int| 0 <= i < self.visibility[b].len() ==> #[trigger] self.visibility[b][i]
                <= self.head(b).unwrap(),
    {
        let s = self.visibility[b];
        assert(s[s.len() - 1] == s.last());
    }

    /// Whether some branch shows version `v`.
    pub open spec fn in_use(self, v: u64) -> bool {
        exists|b: u64| self.on_branch(b, v)
    }

    /// `r` lists the names of the versions on branch `b`, oldest first; an
    /// error if the branch is unknown.
    pub open spec fn is_version_list(self, b: u64, r: Result<Seq<Seq<u8>>, VsError>) -> bool {
        match r {
            Ok(l) => {
                &&& self.has_branch(b)
                &&& l.len() == self.visibility[b].len()
                &&& forall|i: int|
                    0 <= i < l.len() ==> #[trigger] l[i]
                        == self.version_names[self.visibility[b][i]]
            },
            Err(e) => !self.has_branch(b) && e == VsError::BranchNotFound,
        }
    }

    // Reading

    /// `c` is a version that a read of `key` on `(b, v)` may land on: visible
    /// on the branch, not newer than `v`, and a writer of `key`.
    pub open spec fn candidate(self, key: Seq<u8>, b: u64, v: u64, c: u64) -> bool {
        &&& c <= v
        &&& self.on_branch(b, c)
        &&& self.layers.dom().contains(key)
        &&& self.layers[key].dom().contains(c)
    }

    /// `c` is the newest of the candidates.
    pub open spec fn newest_candidate(self, key: Seq<u8>, b: u64, v: u64, c: u64) -> bool {
        &&& self.candidate(key, b, v, c)
        &&& forall|d: u64| #[trigger] self.candidate(key, b, v, d) ==> d <= c
    }

    /// The value of `key` as seen from version `v` of branch `b`: what the
    /// newest candidate wrote, unless that is a tombstone.
    pub open spec fn get_at(self, key: Seq<u8>, b: u64, v: u64) -> Option<Seq<u8>> {
        if exists|c: u64| self.newest_candidate(key, b, v, c) {
            let c = choose|c: u64| self.newest_candidate(key, b, v, c);
            stored(self.layers[key][c])
        } else {
            None
        }
    }

    /// The value of `key` as seen from the head of branch `b`.
    pub open spec fn get_on(self, key: Seq<u8>, b: u64) -> Option<Seq<u8>> {
        match self.head(b) {
            Some(v) => self.get_at(key, b, v),
            None => None,
        }
    }

    /// A read lands on the newest candidate, if there is one.
    pub proof fn lemma_get_at_newest(self, key: Seq<u8>, b: u64, v: u64, c: u64)
        requires
            self.newest_candidate(key, b, v, c),
        ensures
            self.get_at(key, b, v) == stored(self.layers[key][c]),
    {
        let c2 = choose|c: u64| self.newest_candidate(key, b, v, c);
        assert(self.candidate(key, b, v, c));
        assert(self.candidate(key, b, v, c2));
    }

    /// A read with no candidate finds nothing.
    pub proof fn lemma_get_at_none(self, key: Seq<u8>, b: u64, v: u64)
        requires
            forall|c: u64| !self.candidate(key, b, v, c),
        ensures
            self.get_at(key, b, v) == None::<Seq<u8>>,
    {
    }

    /// A read at the null branch or at the null version finds nothing.
    pub proof fn lemma_null_reads_nothing(self, key: Seq<u8>, b: u64, v: u64)
        requires
            self.wf(),
            b == NULL || v == NULL,
        ensures
            self.get_at(key, b, v) == None::<Seq<u8>>,
    {
        assert forall|c: u64| !self.candidate(key, b, v, c) by {
            if self.candidate(key, b, v, c) {
                let i = self.visibility[b].index_of(c);
                assert(self.version_names.dom().contains(self.visibility[b][i]));
                assert(self.branch_names.dom().contains(b));
            }
        }
        self.lemma_get_at_none(key, b, v);
    }

    // Writing

    /// What the versions wrote to `key`; nothing if the key was never written.
    pub open spec fn layer_of(self, key: Seq<u8>) -> Map<u64, Seq<u8>> {
        if self.layers.dom().contains(key) {
            self.layers[key]
        } else {
            Map::empty()
        }
    }

    /// The store after version `v` of branch `b` wrote `value` to `key`; `None`
    /// deletes. Deleting a key that is not visible writes nothing.
    pub open spec fn write(self, key: Seq<u8>, value: Option<Seq<u8>>, b: u64, v: u64) -> VsModel {
        if value.is_none() && self.get_at(key, b, v).is_none() {
            self
        } else {
            VsModel {
                change_sets: self.change_sets.insert(v, self.change_sets[v].insert(key)),
                layers: self.layers.insert(
                    key,
                    self.layer_of(key).insert(
                        v,
                        match value {
                            Some(x) => x,
                            None => Seq::empty(),
                        },
                    ),
                ),
                ..self
            }
        }
    }

    /// A write at the head of branch `b`: the store afterwards, and what the
    /// caller gets back, which is the value that a reader saw before.
    pub open spec fn write_on(self, key: Seq<u8>, value: Option<Seq<u8>>, b: u64) -> (
        VsModel,
        Result<Option<Seq<u8>>, VsError>,
    ) {
        match self.head(b) {
            Some(v) => (self.write(key, value, b, v), Ok(self.get_at(key, b, v))),
            None => (self, Err(self.no_head(b))),
        }
    }

    /// A write by an existing version keeps the invariants.
    pub proof fn lemma_write_wf(self, key: Seq<u8>, value: Option<Seq<u8>>, b: u64, v: u64)
        requires
            self.wf(),
            self.change_sets.dom().contains(v),
        ensures
            self.write(key, value, b, v).wf(),
    {
        let t = self.write(key, value, b, v);
        assert(t.change_sets.dom() =~= self.change_sets.dom());
        assert forall|k: Seq<u8>, w: u64|
            t.layers.dom().contains(k) && #[trigger] t.layers[k].dom().contains(w)
                implies t.change_sets.dom().contains(w) && t.change_sets[w].contains(k) by {
            if !(k == key && w == v) {
                assert(self.layers.dom().contains(k) && self.layers[k].dom().contains(w));
            }
        }
        assert forall|k: Seq<u8>, w: u64|
            t.change_sets.dom().contains(w) && #[trigger] t.change_sets[w].contains(k)
                implies t.layers.dom().contains(k) && t.layers[k].dom().contains(w) by {
            if !(k == key && w == v) {
                assert(self.change_sets.dom().contains(w) && self.change_sets[w].contains(k));
            }
        }
    }

    // Versions

    /// The store after a new version named `name` was made on branch `b`.
    pub open spec fn with_version(self, name: Seq<u8>, b: u64) -> VsModel {
        let v = self.next_version_id;
        VsModel {
            version_ids: self.version_ids.insert(name, v),
            version_names: self.version_names.insert(v, name),
            visibility: self.visibility.insert(b, self.visibility[b].push(v)),
            change_sets: self.change_sets.insert(v, Set::empty()),
            next_version_id: (v + 1) as u64,
            ..self
        }
    }

    /// Making a version on branch `b`: refused if the name is taken, then if
    /// the branch is unknown, then if no version identifier is left.
    pub open spec fn version_create(self, name: Seq<u8>, b: u64) -> (VsModel, Result<(), VsError>) {
        if self.version_ids.dom().contains(name) {
            (self, Err(VsError::VersionExists))
        } else if !self.has_branch(b) {
            (self, Err(VsError::BranchNotFound))
        } else if self.next_version_id == u64::MAX {
            (self, Err(VsError::BackendFailure))
        } else {
            (self.with_version(name, b), Ok(()))
        }
    }

    /// A new version keeps the invariants, and becomes the head of its branch.
    pub proof fn lemma_with_version_wf(self, name: Seq<u8>, b: u64)
        requires
            self.wf(),
            self.has_branch(b),
            !self.version_ids.dom().contains(name),
            self.next_version_id < u64::MAX,
        ensures
            self.with_version(name, b).wf(),
            self.with_version(name, b).head(b) == Some(self.next_version_id),
    {
        let t = self.with_version(name, b);
        let v = self.next_version_id;
        assert(!self.version_names.dom().contains(v));
        assert(t.visibility.dom() =~= t.branch_names.dom());
        assert(t.change_sets.dom() =~= t.version_names.dom());
        assert forall|c: u64| #[trigger] t.visibility.dom().contains(c) implies increasing(
            t.visibility[c],
        ) by {
            if c == b {
                let s = self.visibility[b];
                assert forall|i: int, j: int| 0 <= i < j < s.push(v).len()
                    implies #[trigger] s.push(
                    v,
                )[i] < #[trigger] s.push(v)[j] by {
                    assert(self.version_names.dom().contains(s[i]));
                }
            }
        }
        assert forall|c: u64, i: int|
            t.visibility.dom().contains(c) && 0 <= i < t.visibility[c].len()
                implies t.version_names.dom().contains(#[trigger] t.visibility[c][i]) by {
            if c == b {
                if i < self.visibility[b].len() {
                    assert(self.version_names.dom().contains(self.visibility[b][i]));
                }
            } else {
                assert(self.version_names.dom().contains(self.visibility[c][i]));
            }
        }
        assert forall|n: Seq<u8>| #[trigger] t.version_ids.dom().contains(n) implies
            t.version_names.dom().contains(t.version_ids[n]) && t.version_names[t.version_ids[n]]
                == n by {
            if n != name {
                assert(self.version_ids.dom().contains(n));
            }
        }
        assert forall|w: u64| #[trigger] t.version_names.dom().contains(w) implies
            t.version_ids.dom().contains(t.version_names[w]) && t.version_ids[t.version_names[w]]
                == w by {
            if w != v {
                assert(self.version_names.dom().contains(w));
            }
        }
        assert(t.names_match());
        assert forall|k: Seq<u8>, w: u64|
            t.layers.dom().contains(k) && #[trigger] t.layers[k].dom().contains(w)
                implies t.change_sets.dom().contains(w) && t.change_sets[w].contains(k) by {
            assert(self.layers.dom().contains(k) && self.layers[k].dom().contains(w));
        }
        assert forall|k: Seq<u8>, w: u64|
            t.change_sets.dom().contains(w) && #[trigger] t.change_sets[w].contains(k)
                implies t.layers.dom().contains(k) && t.layers[k].dom().contains(w) by {
            assert(self.change_sets.dom().contains(w) && self.change_sets[w].contains(k));
        }
    }

    /// The store with `s` as what branch `b` shows.
    pub open spec fn with_branch(self, b: u64, s: Seq<u64>) -> VsModel {
        VsModel { visibility: self.visibility.insert(b, s), ..self }
    }

    /// A branch may show any increasing run of existing versions.
    pub proof fn lemma_with_branch_wf(self, b: u64, s: Seq<u64>)
        requires
            self.wf(),
            self.has_branch(b),
            increasing(s),
            forall|i: int| 0 <= i < s.len() ==> self.version_names.dom().contains(#[trigger] s[i]),
        ensures
            self.with_branch(b, s).wf(),
    {
        let t = self.with_branch(b, s);
        assert(t.visibility.dom() =~= self.visibility.dom());
        assert forall|c: u64, i: int|
            t.visibility.dom().contains(c) && 0 <= i < t.visibility[c].len()
                implies t.version_names.dom().contains(#[trigger] t.visibility[c][i]) by {
            if c != b {
                assert(self.version_names.dom().contains(self.visibility[c][i]));
            }
        }
    }

    /// A branch may go back to any of its earlier states.
    pub proof fn lemma_with_branch_prefix_wf(self, b: u64, n: int)
        requires
            self.wf(),
            self.has_branch(b),
            0 <= n <= self.visibility[b].len(),
        ensures
            self.with_branch(b, self.visibility[b].subrange(0, n)).wf(),
    {
        let s = self.visibility[b];
        let p = s.subrange(0, n);
        assert forall|i: int, j: int| 0 <= i < j < p.len() implies u64::before(
            #[trigger] p[i],
            #[trigger] p[j],
        ) by {
            assert(u64::before(s[i], s[j]));
        }
        assert forall|i: int| 0 <= i < p.len() implies self.version_names.dom().contains(
            #[trigger] p[i],
        ) by {
            assert(self.version_names.dom().contains(s[i]));
        }
        self.lemma_with_branch_wf(b, p);
    }

    /// Taking the newest version off branch `b`; the version itself stays.
    pub open spec fn version_pop(self, b: u64) -> (VsModel, Result<(), VsError>) {
        if !self.has_branch(b) {
            (self, Err(VsError::BranchNotFound))
        } else if self.visibility[b].len() == 0 {
            (self, Ok(()))
        } else {
            (self.with_branch(b, self.visibility[b].drop_last()), Ok(()))
        }
    }

    /// The store after version `v` left every branch.
    pub open spec fn without_version(self, v: u64) -> VsModel {
        VsModel {
            visibility: self.visibility.map_values(|s: Seq<u64>| remove_key::<u64>(s, v)),
            ..self
        }
    }

    /// Purging version `v` from the whole store: from every branch, from the
    /// name tables and from the history of every key.
    pub open spec fn version_revert(self, v: u64) -> (VsModel, Result<(), VsError>) {
        if self.change_sets.dom().contains(v) {
            (self.without_version(v).fold(set![v], 0, Keep::Nothing), Ok(()))
        } else {
            (self, Err(VsError::VersionNotFound))
        }
    }

    /// After a version left every branch the invariants hold, and no branch shows it.
    pub proof fn lemma_without_version_wf(self, v: u64)
        requires
            self.wf(),
        ensures
            self.without_version(v).wf(),
            !self.without_version(v).in_use(v),
    {
        let t = self.without_version(v);
        assert(t.visibility.dom() =~= self.visibility.dom());
        assert forall|b: u64| #[trigger] t.visibility.dom().contains(b) implies increasing(
            t.visibility[b],
        ) by {
            lemma_remove_key::<u64>(self.visibility[b], v);
        }
        assert forall|b: u64, i: int|
            t.visibility.dom().contains(b) && 0 <= i < t.visibility[b].len()
                implies t.version_names.dom().contains(#[trigger] t.visibility[b][i]) by {
            lemma_remove_key::<u64>(self.visibility[b], v);
            let w = t.visibility[b][i];
            assert(t.visibility[b] == remove_key::<u64>(self.visibility[b], v));
            assert(remove_key::<u64>(self.visibility[b], v).contains(w));
            assert(self.visibility[b].contains(w));
            let j = self.visibility[b].index_of(w);
            assert(self.visibility[b][j] == w);
            assert(self.version_names.dom().contains(self.visibility[b][j]));
        }
        assert forall|b: u64| !t.on_branch(b, v) by {
            if t.visibility.dom().contains(b) {
                lemma_remove_key::<u64>(self.visibility[b], v);
            }
        }
    }

    // Branches

    /// The store with a new branch named `name` that shows `s`.
    pub open spec fn with_new_branch(self, name: Seq<u8>, s: Seq<u64>) -> VsModel {
        let b = self.next_branch_id;
        VsModel {
            branch_ids: self.branch_ids.insert(name, b),
            branch_names: self.branch_names.insert(b, name),
            visibility: self.visibility.insert(b, s),
            next_branch_id: (b + 1) as u64,
            ..self
        }
    }

    /// A new branch keeps the invariants.
    pub proof fn lemma_with_new_branch_wf(self, name: Seq<u8>, s: Seq<u64>)
        requires
            self.wf(),
            !self.branch_ids.dom().contains(name),
            self.next_branch_id < u64::MAX,
            increasing(s),
            forall|i: int| 0 <= i < s.len() ==> self.version_names.dom().contains(#[trigger] s[i]),
        ensures
            self.with_new_branch(name, s).wf(),
    {
        let t = self.with_new_branch(name, s);
        let b = self.next_branch_id;
        assert(!self.branch_names.dom().contains(b));
        assert(t.visibility.dom() =~= t.branch_names.dom());
        assert forall|n: Seq<u8>| #[trigger] t.branch_ids.dom().contains(n) implies
            t.branch_names.dom().contains(t.branch_ids[n]) && t.branch_names[t.branch_ids[n]]
                == n by {
            if n != name {
                assert(self.branch_ids.dom().contains(n));
            }
        }
        assert forall|c: u64| #[trigger] t.branch_names.dom().contains(c) implies
            t.branch_ids.dom().contains(t.branch_names[c]) && t.branch_ids[t.branch_names[c]]
                == c by {
            if c != b {
                assert(self.branch_names.dom().contains(c));
            }
        }
        assert forall|c: u64, i: int|
            t.visibility.dom().contains(c) && 0 <= i < t.visibility[c].len()
                implies t.version_names.dom().contains(#[trigger] t.visibility[c][i]) by {
            if c != b {
                assert(self.version_names.dom().contains(self.visibility[c][i]));
            }
        }
    }

    /// The store from which a new branch named `name` starts: with `force`, a
    /// branch of that name is removed first, unless it has to stay.
    pub open spec fn room_for(self, name: Seq<u8>, force: bool) -> VsModel {
        if force && self.branch_ids.dom().contains(name) && !self.pinned(self.branch_ids[name]) {
            self.without_branches(set![self.branch_ids[name]])
        } else {
            self
        }
    }

    /// Making a branch named `name` off branch `base`. It shows what `base`
    /// shows up to `base_version`, or nothing if no version is given. With
    /// `version_name`, a first version of its own is made on it. With
    /// `force`, a branch of that name is removed first. Refused, in this
    /// order: if `force` would remove the initial branch or the default
    /// branch; if the name is taken; if the version name is taken; if `base`
    /// is unknown; if `base_version` is not on `base`; if no identifier is
    /// left. But for the first refusal, the forced removal has happened.
    pub open spec fn branch_create(
        self,
        name: Seq<u8>,
        version_name: Option<Seq<u8>>,
        base: u64,
        base_version: Option<u64>,
        force: bool,
    ) -> (VsModel, Result<(), VsError>) {
        let s0 = self.room_for(name, force);
        if force && self.branch_ids.dom().contains(name) && self.pinned(self.branch_ids[name]) {
            (self, Err(VsError::InvalidArg))
        } else if s0.branch_ids.dom().contains(name) {
            (s0, Err(VsError::BranchExists))
        } else if version_name.is_some() && s0.version_ids.dom().contains(version_name.unwrap()) {
            (s0, Err(VsError::VersionExists))
        } else if !s0.has_branch(base) {
            (s0, Err(VsError::BranchNotFound))
        } else if base_version.is_some() && !s0.visibility[base].contains(base_version.unwrap()) {
            (s0, Err(VsError::VersionNotFound))
        } else if s0.next_branch_id == u64::MAX || (version_name.is_some() && s0.next_version_id
            == u64::MAX) {
            (s0, Err(VsError::BackendFailure))
        } else {
            let s1 = s0.with_new_branch(
                name,
                match base_version {
                    Some(v) => up_to(s0.visibility[base], v),
                    None => Seq::empty(),
                },
            );
            match version_name {
                Some(vn) => (s1.with_version(vn, s0.next_branch_id), Ok(())),
                None => (s1, Ok(())),
            }
        }
    }

    /// Making a branch off the head of `base`: the new branch shows all that
    /// `base` shows. Refused as `branch_create` refuses, in the same order.
    pub open spec fn branch_create_at_head(
        self,
        name: Seq<u8>,
        version_name: Option<Seq<u8>>,
        base: u64,
        force: bool,
    ) -> (VsModel, Result<(), VsError>) {
        self.branch_create(name, version_name, base, self.head(base), force)
    }

    /// The store without the branches `gone`. Their versions stay.
    pub open spec fn without_branches(self, gone: Set<u64>) -> VsModel {
        VsModel {
            branch_ids: Map::new(
                |n: Seq<u8>| self.branch_ids.dom().contains(n)
                    && !gone.contains(self.branch_ids[n]),
                |n: Seq<u8>| self.branch_ids[n],
            ),
            branch_names: self.branch_names.remove_keys(gone),
            visibility: self.visibility.remove_keys(gone),
            ..self
        }
    }

    /// Removing branch `b`: refused if the branch is unknown, then if it is
    /// the initial branch or the default branch, which have to stay.
    pub open spec fn branch_remove(self, b: u64) -> (VsModel, Result<(), VsError>) {
        if !self.has_branch(b) {
            (self, Err(VsError::BranchNotFound))
        } else if self.pinned(b) {
            (self, Err(VsError::InvalidArg))
        } else {
            (self.without_branches(set![b]), Ok(()))
        }
    }

    /// Removing every branch that is not among `keep`, and then every version
    /// that no branch shows any more. The initial branch and the default
    /// branch stay in any case.
    pub open spec fn branch_keep_only(self, keep: Set<u64>) -> VsModel {
        self.without_branches(
            Set::new(|b: u64| self.has_branch(b) && !keep.contains(b) && !self.pinned(b)),
        ).clean_up()
    }

    /// Removing branches that do not have to stay keeps the invariants.
    pub proof fn lemma_without_branches_wf(self, gone: Set<u64>)
        requires
            self.wf(),
            forall|b: u64| gone.contains(b) ==> !self.pinned(b),
        ensures
            self.without_branches(gone).wf(),
    {
        let t = self.without_branches(gone);
        assert(t.visibility.dom() =~= t.branch_names.dom());
        assert forall|n: Seq<u8>| #[trigger] t.branch_ids.dom().contains(n) implies
            t.branch_names.dom().contains(t.branch_ids[n]) && t.branch_names[t.branch_ids[n]]
                == n by {
            assert(self.branch_ids.dom().contains(n));
        }
        assert forall|b: u64| #[trigger] t.branch_names.dom().contains(b) implies
            t.branch_ids.dom().contains(t.branch_names[b]) && t.branch_ids[t.branch_names[b]]
                == b by {
            assert(self.branch_names.dom().contains(b));
        }
        assert forall|b: u64, i: int|
            t.visibility.dom().contains(b) && 0 <= i < t.visibility[b].len()
                implies t.version_names.dom().contains(#[trigger] t.visibility[b][i]) by {
            assert(self.version_names.dom().contains(self.visibility[b][i]));
        }
    }

    /// Taking every version off branch `b`; the branch stays.
    pub open spec fn branch_truncate(self, b: u64) -> (VsModel, Result<(), VsError>) {
        if !self.has_branch(b) {
            (self, Err(VsError::BranchNotFound))
        } else {
            (self.with_branch(b, Seq::empty()), Ok(()))
        }
    }

    /// Taking every version newer than `last` off branch `b`.
    pub open spec fn branch_truncate_to(self, b: u64, last: u64) -> (VsModel, Result<(), VsError>) {
        if !self.has_branch(b) {
            (self, Err(VsError::BranchNotFound))
        } else {
            (self.with_branch(b, up_to(self.visibility[b], last)), Ok(()))
        }
    }

    /// Merging branch `b` into branch `target`: refused if either is unknown,
    /// then, unless forced, if the target's newest version is not on `b`.
    /// Only what the target shows changes.
    pub open spec fn branch_merge(self, b: u64, target: u64, force: bool) -> (
        VsModel,
        Result<(), VsError>,
    ) {
        if !self.has_branch(b) || !self.has_branch(target) {
            (self, Err(VsError::BranchNotFound))
        } else if !force && self.visibility[target].len() > 0 && !self.visibility[b].contains(
            self.visibility[target].last(),
        ) {
            (self, Err(VsError::MergeUnsafe))
        } else {
            (self.with_branch(target, merged(self.visibility[b], self.visibility[target])), Ok(()))
        }
    }

    /// Exchanging the names of two branches; the default branch keeps its name.
    pub open spec fn branch_swap(self, n1: Seq<u8>, n2: Seq<u8>) -> (VsModel, Result<(), VsError>) {
        if !self.branch_ids.dom().contains(n1) || !self.branch_ids.dom().contains(n2) {
            (self, Err(VsError::BranchNotFound))
        } else {
            let b1 = self.branch_ids[n1];
            let b2 = self.branch_ids[n2];
            (
                VsModel {
                    branch_ids: self.branch_ids.insert(n1, b2).insert(n2, b1),
                    branch_names: self.branch_names.insert(b1, n2).insert(b2, n1),
                    default_branch: if self.default_branch == b1 {
                        b2
                    } else if self.default_branch == b2 {
                        b1
                    } else {
                        self.default_branch
                    },
                    ..self
                },
                Ok(()),
            )
        }
    }

    /// Exchanging two names keeps the invariants.
    pub proof fn lemma_branch_swap_wf(self, n1: Seq<u8>, n2: Seq<u8>)
        requires
            self.wf(),
        ensures
            self.branch_swap(n1, n2).0.wf(),
    {
        let t = self.branch_swap(n1, n2).0;
        if self.branch_ids.dom().contains(n1) && self.branch_ids.dom().contains(n2) {
            let b1 = self.branch_ids[n1];
            let b2 = self.branch_ids[n2];
            assert(self.branch_names.dom().contains(b1));
            assert(self.branch_names.dom().contains(b2));
            assert(t.branch_names.dom() =~= self.branch_names.dom());
            assert forall|n: Seq<u8>| #[trigger] t.branch_ids.dom().contains(n) implies
                t.branch_names.dom().contains(t.branch_ids[n]) && t.branch_names[t.branch_ids[n]]
                == n by {
                assert(self.branch_ids.dom().contains(n));
            }
            assert forall|b: u64| #[trigger] t.branch_names.dom().contains(b) implies
                t.branch_ids.dom().contains(t.branch_names[b]) && t.branch_ids[t.branch_names[b]]
                == b by {
                assert(self.branch_names.dom().contains(b));
            }
        }
    }

    /// Making branch `b` the default.
    pub open spec fn branch_set_default(self, b: u64) -> (VsModel, Result<(), VsError>) {
        if self.branch_names.dom().contains(b) {
            (VsModel { default_branch: b, ..self }, Ok(()))
        } else {
            (self, Err(VsError::BranchNotFound))
        }
    }

    // Folding versions away

    /// The keys to which folding `dead` moves a value.
    pub open spec fn moved_keys(self, dead: Set<u64>, into: u64, keep: Keep) -> Set<Seq<u8>> {
        Set::new(|k: Seq<u8>| self.layers.dom().contains(k) && moves(self.layers[k], dead, into,
            keep))
    }

    /// The store after the versions `dead` were folded away: they leave the
    /// name tables, the change-sets and every key's history, and `keep` says
    /// which of their values move to the version `into`. Visibility is not
    /// touched.
    pub open spec fn fold(self, dead: Set<u64>, into: u64, keep: Keep) -> VsModel {
        VsModel {
            version_ids: Map::new(
                |n: Seq<u8>| self.version_ids.dom().contains(n)
                    && !dead.contains(self.version_ids[n]),
                |n: Seq<u8>| self.version_ids[n],
            ),
            version_names: self.version_names.remove_keys(dead),
            change_sets: if keep == Keep::Nothing {
                self.change_sets.remove_keys(dead)
            } else {
                self.change_sets.remove_keys(dead).insert(
                    into,
                    self.change_sets[into].union(self.moved_keys(dead, into, keep)),
                )
            },
            layers: self.layers.map_values(|m: Map<u64, Seq<u8>>| fold_layer(m, dead, into, keep)),
            ..self
        }
    }

    /// Folding no version changes nothing.
    pub proof fn lemma_fold_none(self, into: u64, keep: Keep)
        requires
            keep != Keep::Nothing ==> self.change_sets.dom().contains(into),
        ensures
            self.fold(Set::empty(), into, keep) == self,
    {
        let t = self.fold(Set::empty(), into, keep);
        assert(t.version_ids =~= self.version_ids);
        assert(t.version_names =~= self.version_names);
        assert(self.moved_keys(Set::empty(), into, keep) =~= Set::empty());
        assert(self.change_sets.remove_keys(Set::empty()) =~= self.change_sets);
        if keep != Keep::Nothing {
            assert(self.change_sets[into].union(Set::empty()) =~= self.change_sets[into]);
        }
        assert(t.change_sets =~= self.change_sets);
        assert forall|k: Seq<u8>| self.layers.dom().contains(k) implies #[trigger] t.layers[k]
            == self.layers[k] by {
            assert(self.layers[k].remove_keys(Set::empty()) =~= self.layers[k]);
        }
        assert(t.layers =~= self.layers);
    }

    /// Folding versions that no branch shows keeps the invariants.
    pub proof fn lemma_fold_wf(self, dead: Set<u64>, into: u64, keep: Keep)
        requires
            self.wf(),
            forall|d: u64| dead.contains(d) ==> !self.in_use(d),
            keep != Keep::Nothing ==> self.change_sets.dom().contains(into) && !dead.contains(into),
        ensures
            self.fold(dead, into, keep).wf(),
    {
        let t = self.fold(dead, into, keep);
        assert(t.change_sets.dom() =~= t.version_names.dom());
        assert(t.visibility.dom() =~= t.branch_names.dom());
        assert forall|n: Seq<u8>| #[trigger] t.version_ids.dom().contains(n) implies
            t.version_names.dom().contains(t.version_ids[n]) && t.version_names[t.version_ids[n]]
                == n by {
            assert(self.version_ids.dom().contains(n));
        }
        assert forall|w: u64| #[trigger] t.version_names.dom().contains(w) implies
            t.version_ids.dom().contains(t.version_names[w]) && t.version_ids[t.version_names[w]]
                == w by {
            assert(self.version_names.dom().contains(w));
        }
        assert(t.names_match());
        assert forall|b: u64, i: int|
            t.visibility.dom().contains(b) && 0 <= i < t.visibility[b].len()
                implies t.version_names.dom().contains(#[trigger] t.visibility[b][i]) by {
            let w = self.visibility[b][i];
            assert(self.version_names.dom().contains(w));
            assert(self.on_branch(b, w));
        }
        assert forall|k: Seq<u8>, w: u64|
            t.layers.dom().contains(k) && #[trigger] t.layers[k].dom().contains(w)
                implies t.change_sets.dom().contains(w) && t.change_sets[w].contains(k) by {
            let m = self.layers[k];
            if m.dom().contains(w) && !dead.contains(w) {
                assert(self.change_sets[w].contains(k));
            } else {
                assert(moves(m, dead, into, keep));
                assert(w == into);
                assert(self.moved_keys(dead, into, keep).contains(k));
            }
        }
        assert forall|k: Seq<u8>, w: u64|
            t.change_sets.dom().contains(w) && #[trigger] t.change_sets[w].contains(k)
                implies t.layers.dom().contains(k) && t.layers[k].dom().contains(w) by {
            if self.change_sets[w].contains(k) {
                assert(self.layers.dom().contains(k) && self.layers[k].dom().contains(w));
                assert(self.layers[k].remove_keys(dead).dom().contains(w));
            } else {
                assert(self.moved_keys(dead, into, keep).contains(k));
            }
        }
    }

    /// Folding one version that no branch shows keeps the invariants.
    pub proof fn lemma_fold_one_wf(self, v: u64, into: u64, keep: Keep)
        requires
            self.wf(),
            self.change_sets.dom().contains(v),
            !self.in_use(v),
            keep != Keep::Nothing ==> self.change_sets.dom().contains(into) && into != v,
        ensures
            self.fold(set![v], into, keep).wf(),
    {
        self.lemma_fold_wf(set![v], into, keep);
    }

    /// Folding versions one after the other, oldest first, is folding them
    /// together.
    pub proof fn lemma_fold_step(self, dead: Set<u64>, v: u64, into: u64, keep: Keep)
        requires
            forall|a: u64| dead.contains(a) ==> a < v,
            keep != Keep::Nothing ==> !dead.contains(into) && into != v,
            keep == Keep::IfBare ==> v < into,
            keep != Keep::Nothing ==> self.change_sets.dom().contains(into),
        ensures
            self.fold(dead, into, keep).fold(set![v], into, keep) == self.fold(
                dead.insert(v),
                into,
                keep,
            ),
    {
        let one = set![v];
        let both = dead.insert(v);
        let x = self.fold(dead, into, keep);
        let y = x.fold(one, into, keep);
        let z = self.fold(both, into, keep);
        assert(y.version_ids =~= z.version_ids);
        assert(y.version_names =~= z.version_names);
        assert forall|k: Seq<u8>| self.layers.dom().contains(k) implies #[trigger] y.layers[k]
            == z.layers[k] && (moves(self.layers[k], both, into, keep) <==> moves(
            self.layers[k],
            dead,
            into,
            keep,
        ) || moves(x.layers[k], one, into, keep)) by {
            lemma_fold_layer_step(self.layers[k], dead, v, into, keep);
        }
        assert(y.layers =~= z.layers);
        if keep != Keep::Nothing {
            let lhs = self.moved_keys(both, into, keep);
            let rhs = self.moved_keys(dead, into, keep).union(x.moved_keys(one, into, keep));
            assert forall|k: Seq<u8>| lhs.contains(k) <==> rhs.contains(k) by {
                if self.layers.dom().contains(k) {
                    lemma_fold_layer_step(self.layers[k], dead, v, into, keep);
                    assert(x.layers[k] == fold_layer(self.layers[k], dead, into, keep));
                }
            }
            assert(lhs =~= rhs);
            assert(y.change_sets[into] =~= z.change_sets[into]);
        }
        assert(y.change_sets =~= z.change_sets);
    }

    /// The versions that no branch shows.
    pub open spec fn orphans(self) -> Set<u64> {
        Set::new(|v: u64| self.change_sets.dom().contains(v) && !self.in_use(v))
    }

    /// The store after every version that no branch shows was taken out,
    /// together with what it wrote.
    pub open spec fn clean_up(self) -> VsModel {
        self.fold(self.orphans(), 0, Keep::Nothing)
    }

    /// A clean-up keeps the invariants and what every branch shows, and
    /// leaves no version that no branch shows.
    pub proof fn lemma_clean_up(self)
        requires
            self.wf(),
        ensures
            self.clean_up().wf(),
            self.clean_up().visibility == self.visibility,
            self.clean_up().orphans() == Set::<u64>::empty(),
            self.clean_up().clean_up() == self.clean_up(),
    {
        let t = self.clean_up();
        self.lemma_fold_wf(self.orphans(), 0, Keep::Nothing);
        assert forall|v: u64| !t.orphans().contains(v) by {
            if t.change_sets.dom().contains(v) && !t.in_use(v) {
                assert(self.change_sets.dom().contains(v));
                if self.in_use(v) {
                    let b = choose|b: u64| self.on_branch(b, v);
                    assert(t.on_branch(b, v));
                }
            }
        }
        assert(t.orphans() =~= Set::<u64>::empty());
        t.lemma_fold_none(0, Keep::Nothing);
    }

    /// No other branch shows a version of branch `b` that is newer than `base`.
    pub open spec fn sole_owner_after(self, b: u64, base: u64) -> bool {
        forall|c: u64, v: u64|
            c != b && v > base && self.on_branch(b, v) ==> !#[trigger] self.on_branch(c, v)
    }

    /// The versions of branch `b` that are newer than `base`.
    pub open spec fn newer_on(self, b: u64, base: u64) -> Set<u64> {
        Set::new(|v: u64| self.on_branch(b, v) && v > base)
    }

    /// Folding every version of branch `b` that is newer than `base` into
    /// `base`: refused if the branch is unknown, then if `base` is not on it.
    pub open spec fn version_rebase(self, base: u64, b: u64) -> (VsModel, Result<(), VsError>) {
        if !self.has_branch(b) {
            (self, Err(VsError::BranchNotFound))
        } else if !self.visibility[b].contains(base) {
            (self, Err(VsError::VersionNotFound))
        } else {
            (
                self.with_branch(b, up_to(self.visibility[b], base)).fold(
                    self.newer_on(b, base),
                    base,
                    Keep::Always,
                ),
                Ok(()),
            )
        }
    }

    /// `p` is a run of versions with which every non-empty branch begins.
    pub open spec fn shared(self, p: Seq<u64>) -> bool {
        forall|b: u64| #[trigger] self.has_versions(b) ==> p.is_prefix_of(self.visibility[b])
    }

    /// `p` is the longest run of versions with which every non-empty branch begins.
    pub open spec fn longest_shared(self, p: Seq<u64>) -> bool {
        &&& exists|b: u64| self.has_versions(b)
        &&& self.shared(p)
        &&& forall|q: Seq<u64>| #[trigger] self.shared(q) ==> q.len() <= p.len()
    }

    /// The longest run of versions with which every non-empty branch begins;
    /// empty if no branch shows a version.
    pub open spec fn common_prefix(self) -> Seq<u64> {
        if exists|p: Seq<u64>| self.longest_shared(p) {
            choose|p: Seq<u64>| self.longest_shared(p)
        } else {
            Seq::empty()
        }
    }

    /// There is only one longest shared run.
    pub proof fn lemma_common_prefix(self, p: Seq<u64>)
        requires
            self.longest_shared(p),
        ensures
            self.common_prefix() == p,
    {
        let q = self.common_prefix();
        assert(self.longest_shared(q));
        assert(self.shared(p));
        assert(self.shared(q));
        let b = choose|b: u64| self.has_versions(b);
        assert(p.is_prefix_of(self.visibility[b]));
        assert(q.is_prefix_of(self.visibility[b]));
        assert(p =~= q);
    }

    /// Without a non-empty branch the common prefix is empty.
    pub proof fn lemma_common_prefix_none(self)
        requires
            forall|b: u64| !self.has_versions(b),
        ensures
            self.common_prefix() == Seq::<u64>::empty(),
    {
    }

    /// The store after every branch that shows at least `cut` versions lost
    /// its `cut` oldest.
    pub open spec fn drop_oldest(self, cut: nat) -> VsModel {
        VsModel {
            visibility: self.visibility.map_values(
                |s: Seq<u64>|
                    if s.len() >= cut {
                        s.skip(cut as int)
                    } else {
                        s
                    },
            ),
            ..self
        }
    }

    /// Dropping a part of the common prefix keeps the invariants, and no
    /// branch shows a dropped version any more.
    pub proof fn lemma_drop_oldest_wf(self, p: Seq<u64>, cut: nat)
        requires
            self.wf(),
            self.longest_shared(p),
            cut < p.len(),
        ensures
            self.drop_oldest(cut).wf(),
            self.change_sets.dom().contains(p[cut as int]),
            increasing(p),
            forall|i: int| 0 <= i < cut ==> !self.drop_oldest(cut).in_use(#[trigger] p[i]),
            forall|i: int| 0 <= i < cut ==> self.change_sets.dom().contains(#[trigger] p[i]),
    {
        let t = self.drop_oldest(cut);
        let b0 = choose|b: u64| self.has_versions(b);
        assert(self.shared(p));
        assert(p.is_prefix_of(self.visibility[b0]));
        let s0 = self.visibility[b0];
        assert forall|i: int, j: int| 0 <= i < j < p.len() implies u64::before(
            #[trigger] p[i],
            #[trigger] p[j],
        ) by {
            assert(p[i] == s0[i] && p[j] == s0[j]);
        }
        assert forall|i: int| 0 <= i < p.len() implies self.change_sets.dom().contains(
            #[trigger] p[i],
        ) by {
            assert(p[i] == s0[i]);
            assert(self.version_names.dom().contains(s0[i]));
        }
        assert(t.visibility.dom() =~= self.visibility.dom());
        assert forall|b: u64| #[trigger] t.visibility.dom().contains(b) implies increasing(
            t.visibility[b],
        ) by {
            let s = self.visibility[b];
            if s.len() >= cut {
                assert forall|i: int, j: int| 0 <= i < j < s.skip(cut as int).len()
                    implies u64::before(
                    #[trigger] s.skip(cut as int)[i],
                    #[trigger] s.skip(cut as int)[j],
                ) by {
                    assert(u64::before(s[i + cut], s[j + cut]));
                }
            }
        }
        assert forall|b: u64, i: int|
            t.visibility.dom().contains(b) && 0 <= i < t.visibility[b].len()
                implies t.version_names.dom().contains(#[trigger] t.visibility[b][i]) by {
            let s = self.visibility[b];
            if s.len() >= cut {
                assert(self.version_names.dom().contains(s[i + cut]));
            } else {
                assert(self.version_names.dom().contains(s[i]));
            }
        }
        assert forall|i: int| 0 <= i < cut implies !t.in_use(#[trigger] p[i]) by {
            assert forall|b: u64| !t.on_branch(b, p[i]) by {
                if t.on_branch(b, p[i]) {
                    let s = self.visibility[b];
                    let x = t.visibility[b].index_of(p[i]);
                    assert(t.visibility[b][x] == p[i]);
                    assert(self.has_versions(b));
                    assert(p.is_prefix_of(s));
                    assert(s[i] == p[i]);
                    assert(s[x + cut] == p[i]);
                    assert(u64::before(s[i], s[x + cut]));
                }
            }
        }
    }

    /// The store, already cleaned up, after its common prefix was cut down to
    /// its `n` newest versions: the older ones leave every branch, and for
    /// each key the newest value among them moves to the oldest version kept,
    /// unless the key has a value there or in another version not newer than it.
    pub open spec fn trim(self, n: nat) -> VsModel {
        let p = self.common_prefix();
        if p.len() <= n {
            self
        } else {
            let cut = (p.len() - n) as nat;
            self.drop_oldest(cut).fold(
                Set::new(|v: u64| p.subrange(0, cut as int).contains(v)),
                p[cut as int],
                Keep::IfBare,
            )
        }
    }

    /// Pruning down to `n` versions: clean up, then trim. Refused, after the
    /// clean-up, if `n` is zero.
    pub open spec fn prune(self, n: nat) -> (VsModel, Result<(), VsError>) {
        if n == 0 {
            (self.clean_up(), Err(VsError::PruneZero))
        } else {
            (self.clean_up().trim(n), Ok(()))
        }
    }

    // Walking the keys

    /// The place of the first of `keys` that a read at `(b, v)` finds; the
    /// number of keys if it finds none.
    pub open spec fn first_visible(self, keys: Seq<Seq<u8>>, b: u64, v: u64) -> int
        decreases keys.len(),
    {
        if keys.len() == 0 {
            0
        } else if self.get_at(keys[0], b, v).is_some() {
            0
        } else {
            1 + self.first_visible(keys.skip(1), b, v)
        }
    }

    /// The place of the last of `keys` that a read at `(b, v)` finds; `-1` if
    /// it finds none.
    pub open spec fn last_visible(self, keys: Seq<Seq<u8>>, b: u64, v: u64) -> int
        decreases keys.len(),
    {
        if keys.len() == 0 {
            -1
        } else if self.get_at(keys.last(), b, v).is_some() {
            keys.len() - 1
        } else {
            self.last_visible(keys.drop_last(), b, v)
        }
    }

    /// The number of `keys` that a read at `(b, v)` finds.
    pub open spec fn count_visible(self, keys: Seq<Seq<u8>>, b: u64, v: u64) -> nat
        decreases keys.len(),
    {
        if keys.len() == 0 {
            0
        } else {
            self.count_visible(keys.drop_last(), b, v) + if self.get_at(keys.last(), b,
                v).is_some() {
                1nat
            } else {
                0nat
            }
        }
    }

    /// What `first_visible` finds: a key that is visible, behind keys that are not.
    pub proof fn lemma_first_visible(self, keys: Seq<Seq<u8>>, b: u64, v: u64)
        ensures
            0 <= self.first_visible(keys, b, v) <= keys.len(),
            self.first_visible(keys, b, v) < keys.len() ==> self.get_at(
                keys[self.first_visible(keys, b, v)],
                b,
                v,
            ).is_some(),
            forall|j: int|
                0 <= j < self.first_visible(keys, b, v) ==> self.get_at(#[trigger] keys[j], b,
                    v).is_none(),
        decreases keys.len(),
    {
        if keys.len() > 0 && self.get_at(keys[0], b, v).is_none() {
            let rest = keys.skip(1);
            self.lemma_first_visible(rest, b, v);
            assert forall|j: int| 0 <= j < self.first_visible(keys, b, v) implies self.get_at(
                #[trigger] keys[j],
                b,
                v,
            ).is_none() by {
                if j > 0 {
                    assert(keys[j] == rest[j - 1]);
                }
            }
            let i = self.first_visible(rest, b, v);
            if i < rest.len() {
                assert(rest[i] == keys[i + 1]);
            }
        }
    }

    /// The first visible key is the one that stands behind invisible keys only.
    pub proof fn lemma_first_visible_is(self, keys: Seq<Seq<u8>>, b: u64, v: u64, i: int)
        requires
            0 <= i <= keys.len(),
            i < keys.len() ==> self.get_at(keys[i], b, v).is_some(),
            forall|j: int| 0 <= j < i ==> self.get_at(#[trigger] keys[j], b, v).is_none(),
        ensures
            self.first_visible(keys, b, v) == i,
    {
        self.lemma_first_visible(keys, b, v);
        let f = self.first_visible(keys, b, v);
        if f < i {
            assert(self.get_at(keys[f], b, v).is_none());
        }
    }

    /// What `last_visible` finds: a key that is visible, before keys that are not.
    pub proof fn lemma_last_visible(self, keys: Seq<Seq<u8>>, b: u64, v: u64)
        ensures
            -1 <= self.last_visible(keys, b, v) < keys.len(),
            self.last_visible(keys, b, v) >= 0 ==> self.get_at(
                keys[self.last_visible(keys, b, v)],
                b,
                v,
            ).is_some(),
            forall|j: int|
                self.last_visible(keys, b, v) < j < keys.len() ==> self.get_at(
                    #[trigger] keys[j],
                    b,
                    v,
                ).is_none(),
        decreases keys.len(),
    {
        if keys.len() > 0 && self.get_at(keys.last(), b, v).is_none() {
            let rest = keys.drop_last();
            self.lemma_last_visible(rest, b, v);
            assert forall|j: int| self.last_visible(keys, b, v) < j < keys.len()
                implies self.get_at(
                #[trigger] keys[j],
                b,
                v,
            ).is_none() by {
                if j < rest.len() {
                    assert(keys[j] == rest[j]);
                }
            }
            let i = self.last_visible(rest, b, v);
            if i >= 0 {
                assert(rest[i] == keys[i]);
            }
        }
    }

    /// The last visible key is the one that stands before invisible keys only.
    pub proof fn lemma_last_visible_is(self, keys: Seq<Seq<u8>>, b: u64, v: u64, i: int)
        requires
            -1 <= i < keys.len(),
            i >= 0 ==> self.get_at(keys[i], b, v).is_some(),
            forall|j: int| i < j < keys.len() ==> self.get_at(#[trigger] keys[j], b, v).is_none(),
        ensures
            self.last_visible(keys, b, v) == i,
    {
        self.lemma_last_visible(keys, b, v);
        let f = self.last_visible(keys, b, v);
        if f > i {
            assert(self.get_at(keys[f], b, v).is_none());
        }
    }

    /// `r` is the smallest key not below `key` that a read at `(b, v)` finds,
    /// with the value found; `None` if there is no such key.
    pub open spec fn is_next_from(self, key: Seq<u8>, b: u64, v: u64, r: Option<(Seq<u8>, Seq<u8>)>)
        -> bool {
        match r {
            Some(kv) => {
                &&& self.layers.dom().contains(kv.0)
                &&& !bytes_lt(kv.0, key)
                &&& self.get_at(kv.0, b, v) == Some(kv.1)
                &&& forall|k: Seq<u8>|
                    self.layers.dom().contains(k) && !bytes_lt(k, key) && bytes_lt(k, kv.0)
                        ==> self.get_at(k, b, v).is_none()
            },
            None => forall|k: Seq<u8>|
                self.layers.dom().contains(k) && !bytes_lt(k, key) ==> self.get_at(k, b,
                    v).is_none(),
        }
    }

    /// `r` is the greatest key not above `key` that a read at `(b, v)` finds,
    /// with the value found; `None` if there is no such key.
    pub open spec fn is_next_before(self, key: Seq<u8>, b: u64, v: u64, r: Option<(Seq<u8>,
        Seq<u8>)>) -> bool {
        match r {
            Some(kv) => {
                &&& self.layers.dom().contains(kv.0)
                &&& !bytes_lt(key, kv.0)
                &&& self.get_at(kv.0, b, v) == Some(kv.1)
                &&& forall|k: Seq<u8>|
                    self.layers.dom().contains(k) && !bytes_lt(key, k) && bytes_lt(kv.0, k)
                        ==> self.get_at(k, b, v).is_none()
            },
            None => forall|k: Seq<u8>|
                self.layers.dom().contains(k) && !bytes_lt(key, k) ==> self.get_at(k, b,
                    v).is_none(),
        }
    }

    /// A read at `(b, v)` finds no key at all.
    pub open spec fn nothing_visible(self, b: u64, v: u64) -> bool {
        forall|k: Seq<u8>| self.get_at(k, b, v).is_none()
    }

    /// Only keys that were written can be found.
    pub proof fn lemma_nothing_visible(self, b: u64, v: u64)
        ensures
            self.nothing_visible(b, v) <==> (forall|k: Seq<u8>|
                self.layers.dom().contains(k) ==> self.get_at(k, b, v).is_none()),
    {
        if forall|k: Seq<u8>| self.layers.dom().contains(k) ==> self.get_at(k, b, v).is_none() {
            assert forall|k: Seq<u8>| self.get_at(k, b, v).is_none() by {
                if !self.layers.dom().contains(k) {
                    self.lemma_get_at_none(k, b, v);
                }
            }
        }
    }

    /// Those of `keys` that a read at `(b, v)` finds, each with the value
    /// found, in the order of `keys`.
    pub open spec fn visible_pairs(self, keys: Seq<Seq<u8>>, b: u64, v: u64) -> Seq<(Seq<u8>,
        Seq<u8>)>
        decreases keys.len(),
    {
        if keys.len() == 0 {
            Seq::empty()
        } else {
            let rest = self.visible_pairs(keys.drop_last(), b, v);
            match self.get_at(keys.last(), b, v) {
                Some(val) => rest.push((keys.last(), val)),
                None => rest,
            }
        }
    }

    /// What `visible_pairs` holds: the visible keys among `keys`, in order,
    /// each once and with its value.
    pub proof fn lemma_visible_pairs(self, keys: Seq<Seq<u8>>, b: u64, v: u64)
        requires
            sorted::<Vec<u8>>(keys),
        ensures
            sorted::<Vec<u8>>(pair_keys(self.visible_pairs(keys, b, v))),
            forall|i: int|
                0 <= i < self.visible_pairs(keys, b, v).len() ==> keys.contains(
                    (#[trigger] self.visible_pairs(keys, b, v)[i]).0,
                ) && self.get_at(self.visible_pairs(keys, b, v)[i].0, b, v) == Some(
                    self.visible_pairs(keys, b, v)[i].1,
                ),
            forall|k: Seq<u8>|
                keys.contains(k) && self.get_at(k, b, v).is_some() ==> pair_keys(
                    self.visible_pairs(keys, b, v),
                ).contains(k),
        decreases keys.len(),
    {
        let p = self.visible_pairs(keys, b, v);
        if keys.len() > 0 {
            let head = keys.drop_last();
            let last = keys.last();
            let rest = self.visible_pairs(head, b, v);
            assert forall|x: int, y: int| 0 <= x < y < head.len() implies Vec::<u8>::before(
                #[trigger] head[x],
                #[trigger] head[y],
            ) by {
                assert(Vec::<u8>::before(keys[x], keys[y]));
            }
            self.lemma_visible_pairs(head, b, v);
            assert forall|i: int| 0 <= i < p.len() implies keys.contains((#[trigger] p[i]).0)
                && self.get_at(p[i].0, b, v) == Some(p[i].1) by {
                if i < rest.len() {
                    assert(p[i] == rest[i]);
                    let j = head.index_of(rest[i].0);
                    assert(keys[j] == rest[i].0);
                } else {
                    assert(keys[keys.len() - 1] == last);
                }
            }
            assert forall|x: int, y: int| 0 <= x < y < pair_keys(p).len() implies Vec::<u8>::before(
                #[trigger] pair_keys(p)[x],
                #[trigger] pair_keys(p)[y],
            ) by {
                if y < rest.len() {
                    assert(Vec::<u8>::before(pair_keys(rest)[x], pair_keys(rest)[y]));
                } else {
                    assert(p[x] == rest[x]);
                    let j = head.index_of(rest[x].0);
                    assert(Vec::<u8>::before(keys[j], keys[keys.len() - 1]));
                }
            }
            assert forall|k: Seq<u8>| keys.contains(k) && self.get_at(k, b, v).is_some()
                implies pair_keys(p).contains(k) by {
                let j = keys.index_of(k);
                if j < head.len() {
                    assert(head[j] == k);
                    assert(head.contains(k));
                    assert(pair_keys(rest).contains(k));
                    let i = pair_keys(rest).index_of(k);
                    assert(pair_keys(p)[i] == k);
                } else {
                    assert(pair_keys(p)[p.len() - 1] == k);
                }
            }
        }
    }
}

/// The history of one key under two folds in a row and under the two at once.
pub proof fn lemma_fold_layer_step(m: Map<u64, Seq<u8>>, dead: Set<u64>, v: u64, into: u64,
    keep: Keep)
    requires
        forall|a: u64| dead.contains(a) ==> a < v,
        keep != Keep::Nothing ==> !dead.contains(into) && into != v,
        keep == Keep::IfBare ==> v < into,
    ensures
        fold_layer(fold_layer(m, dead, into, keep), set![v], into, keep) == fold_layer(
            m,
            dead.insert(v),
            into,
            keep,
        ),
        moves(m, dead.insert(v), into, keep) <==> moves(m, dead, into, keep) || moves(
            fold_layer(m, dead, into, keep),
            set![v],
            into,
            keep,
        ),
{
    let one = set![v];
    let both = dead.insert(v);
    let x = fold_layer(m, dead, into, keep);
    let y = fold_layer(x, one, into, keep);
    let z = fold_layer(m, both, into, keep);
    if m.dom().contains(v) {
        assert(x.dom().contains(v) && x[v] == m[v]);
        assert(is_newest(x.dom().intersect(one), v));
        lemma_newest(x.dom().intersect(one), v);
        assert(is_newest(m.dom().intersect(both), v));
        lemma_newest(m.dom().intersect(both), v);
        assert(both.contains(v) && m.dom().contains(v));
        assert(one.contains(v) && x.dom().contains(v));
        if keep == Keep::IfBare {
            assert(!moves(m, dead, into, keep));
            assert(x =~= m.remove_keys(dead));
            if moves(m, both, into, keep) {
                assert forall|e: u64| x.dom().contains(e) && !one.contains(e) implies e > into by {
                    assert(m.dom().contains(e) && !both.contains(e));
                }
            }
            if moves(x, one, into, keep) {
                assert forall|e: u64| m.dom().contains(e) && !both.contains(e) implies e > into by {
                    assert(x.dom().contains(e) && !one.contains(e));
                }
            }
        }
        assert(y =~= z);
    } else {
        assert(!x.dom().contains(v));
        assert(!moves(x, one, into, keep));
        assert(m.dom().intersect(both) =~= m.dom().intersect(dead));
        assert(m.remove_keys(both) =~= m.remove_keys(dead));
        assert(x.remove_keys(one) =~= x);
        if moves(m, dead, into, keep) {
            let d = choose|d: u64| dead.contains(d) && m.dom().contains(d);
            assert(both.contains(d) && m.dom().contains(d));
            if keep == Keep::IfBare {
                assert forall|e: u64| m.dom().contains(e) && !both.contains(e) implies e > into by {
                    assert(!dead.contains(e));
                }
            }
            assert(moves(m, both, into, keep));
        }
        if moves(m, both, into, keep) {
            let d = choose|d: u64| both.contains(d) && m.dom().contains(d);
            assert(dead.contains(d) && m.dom().contains(d));
            if keep == Keep::IfBare {
                assert forall|e: u64| m.dom().contains(e) && !dead.contains(e) implies e > into by {
                    assert(!both.contains(e));
                }
            }
            assert(moves(m, dead, into, keep));
        }
        assert(y == x);
        assert(x =~= z);
    }
}

} // verus!
