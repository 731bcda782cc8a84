//! What holds of the store as a whole, across calls: each law is stated over
//! the model and proved from the definitions of the operations.

use vstd::prelude::*;
use crate::common::VsError;
use crate::basic::mapx_ord::{lemma_sorted_same_keys, sorted};
use crate::basic::ord_key::OrdKey;
use crate::common::checksum::checksum_of;
use crate::versioned::mapx_raw::model::{
    fold_layer, is_cut, is_newest, Keep, lemma_newest, lemma_up_to, moves, pair_keys, stored, up_to,
    VsModel,
};

verus! {

/// A read lands on the newest candidate if there is a candidate at all.
pub proof fn lemma_newest_candidate_exists(s: VsModel, key: Seq<u8>, b: u64, v: u64, hi: u64)
    requires
        exists|c: u64| s.candidate(key, b, v, c),
        forall|c: u64| s.candidate(key, b, v, c) ==> c <= hi,
    ensures
        exists|c: u64| s.newest_candidate(key, b, v, c),
    decreases hi,
{
    if s.candidate(key, b, v, hi) {
        assert(s.newest_candidate(key, b, v, hi));
    } else {
        let c = choose|c: u64| s.candidate(key, b, v, c);
        assert(c <= hi && c != hi);
        assert forall|d: u64| s.candidate(key, b, v, d) implies d <= (hi - 1) as u64 by {
            assert(d <= hi && d != hi);
        }
        lemma_newest_candidate_exists(s, key, b, v, (hi - 1) as u64);
    }
}

/// Two stores in which a read has the same candidates with the same values
/// give the same answer to it.
pub proof fn lemma_same_candidates(
    s: VsModel,
    t: VsModel,
    key: Seq<u8>,
    b: u64,
    v: u64,
    c: u64,
    w: u64,
)
    requires
        forall|d: u64| s.candidate(key, b, v, d) <==> t.candidate(key, c, w, d),
        forall|d: u64| s.candidate(key, b, v, d) ==> s.layers[key][d] == t.layers[key][d],
    ensures
        s.get_at(key, b, v) == t.get_at(key, c, w),
{
    if exists|d: u64| s.candidate(key, b, v, d) {
        lemma_newest_candidate_exists(s, key, b, v, v);
        let d = choose|d: u64| s.newest_candidate(key, b, v, d);
        assert(t.newest_candidate(key, c, w, d)) by {
            assert forall|e: u64| #[trigger] t.candidate(key, c, w, e) implies e <= d by {
                assert(s.candidate(key, b, v, e));
            }
        }
        s.lemma_get_at_newest(key, b, v, d);
        t.lemma_get_at_newest(key, c, w, d);
    } else {
        s.lemma_get_at_none(key, b, v);
        t.lemma_get_at_none(key, c, w);
    }
}

/// What was written at the head of a branch is what a read at the head of
/// that branch finds, unless it was the empty value, which deletes.
pub proof fn law_insert_then_get(s: VsModel, key: Seq<u8>, value: Seq<u8>, b: u64)
    requires
        s.wf(),
        s.head(b).is_some(),
        value.len() > 0,
    ensures
        s.write_on(key, Some(value), b).1.is_ok(),
        s.write_on(key, Some(value), b).0.wf(),
        s.write_on(key, Some(value), b).0.get_on(key, b) == Some(value),
{
    let h = s.head(b).unwrap();
    let t = s.write_on(key, Some(value), b).0;
    s.lemma_head_exists(b);
    s.lemma_write_wf(key, Some(value), b, h);
    assert(t.head(b) == Some(h));
    assert(t.newest_candidate(key, b, h, h));
    t.lemma_get_at_newest(key, b, h, h);
}

/// A key that was deleted at the head of a branch is not found at the head
/// of that branch.
pub proof fn law_remove_then_get(s: VsModel, key: Seq<u8>, b: u64)
    requires
        s.wf(),
        s.head(b).is_some(),
    ensures
        s.write_on(key, None, b).1.is_ok(),
        s.write_on(key, None, b).0.wf(),
        s.write_on(key, None, b).0.get_on(key, b) == None::<Seq<u8>>,
{
    let h = s.head(b).unwrap();
    let t = s.write_on(key, None, b).0;
    s.lemma_head_exists(b);
    s.lemma_write_wf(key, None, b, h);
    assert(t.head(b) == Some(h));
    if s.get_at(key, b, h).is_some() {
        assert(t.newest_candidate(key, b, h, h));
        t.lemma_get_at_newest(key, b, h, h);
    }
}

/// After a value was written and then deleted at the same head, a read at
/// the head finds nothing.
pub proof fn law_insert_remove_same_version(s: VsModel, key: Seq<u8>, value: Seq<u8>, b: u64)
    requires
        s.wf(),
        s.head(b).is_some(),
    ensures
        s.write_on(key, Some(value), b).0.write_on(key, None, b).0.get_on(key, b)
            == None::<Seq<u8>>,
{
    let s1 = s.write_on(key, Some(value), b).0;
    let h = s.head(b).unwrap();
    s.lemma_head_exists(b);
    s.lemma_write_wf(key, Some(value), b, h);
    assert(s1.head(b) == Some(h));
    law_remove_then_get(s1, key, b);
}

/// Of two writes to one key at the same head the second wins, and it hands
/// back what the first wrote.
pub proof fn law_second_insert_wins(
    s: VsModel,
    key: Seq<u8>,
    first: Seq<u8>,
    second: Seq<u8>,
    b: u64,
)
    requires
        s.wf(),
        s.head(b).is_some(),
        first.len() > 0,
        second.len() > 0,
    ensures
        ({
            let s1 = s.write_on(key, Some(first), b).0;
            &&& s1.write_on(key, Some(second), b).1 == Ok::<Option<Seq<u8>>, VsError>(Some(first))
            &&& s1.write_on(key, Some(second), b).0.get_on(key, b) == Some(second)
        }),
{
    law_insert_then_get(s, key, first, b);
    let s1 = s.write_on(key, Some(first), b).0;
    assert(s1.head(b) == s.head(b));
    law_insert_then_get(s1, key, second, b);
}

/// A write at the head of a branch leaves every older version of the branch
/// as it was: after a value was written at one version, a new version was
/// made and the key was written or deleted there, a read at the new head
/// sees the second write and a read at the older version still finds the
/// first value.
pub proof fn law_versions_keep_their_values(
    s: VsModel,
    key: Seq<u8>,
    first: Seq<u8>,
    second: Option<Seq<u8>>,
    name: Seq<u8>,
    b: u64,
)
    requires
        s.wf(),
        s.head(b).is_some(),
        first.len() > 0,
        s.write_on(key, Some(first), b).0.version_create(name, b).1.is_ok(),
    ensures
        ({
            let s1 = s.write_on(key, Some(first), b).0;
            let s2 = s1.version_create(name, b).0;
            let s3 = s2.write_on(key, second, b).0;
            &&& s2.write_on(key, second, b).1.is_ok()
            &&& s2.write_on(key, second, b).1 == Ok::<Option<Seq<u8>>, VsError>(Some(first))
            &&& s3.wf()
            &&& s3.head(b) == Some(s.next_version_id)
            &&& s3.get_on(key, b) == (match second {
                Some(x) => stored(x),
                None => None,
            })
            &&& s3.get_at(key, b, s.head(b).unwrap()) == Some(first)
        }),
{
    let h1 = s.head(b).unwrap();
    let h2 = s.next_version_id;
    let s1 = s.write_on(key, Some(first), b).0;
    s.lemma_head_exists(b);
    s.lemma_write_wf(key, Some(first), b, h1);
    let s2 = s1.version_create(name, b).0;
    s1.lemma_with_version_wf(name, b);
    assert(s2 == s1.with_version(name, b));
    assert(s2.head(b) == Some(h2));
    s2.lemma_head_exists(b);
    let s3 = s2.write_on(key, second, b).0;
    s2.lemma_write_wf(key, second, b, h2);
    assert(s3.visibility == s2.visibility);
    assert(h1 < h2);
    // the older version still answers with the first value
    assert(s3.layers.dom().contains(key));
    assert(s1.layers[key].dom().contains(h1) && s1.layers[key][h1] == first);
    assert(s3.layers[key].dom().contains(h1) && s3.layers[key][h1] == first);
    assert(s2.visibility[b] == s.visibility[b].push(h2));
    assert(s2.visibility[b][s.visibility[b].len() - 1] == h1);
    assert(s3.on_branch(b, h1));
    assert(s3.newest_candidate(key, b, h1, h1));
    s3.lemma_get_at_newest(key, b, h1, h1);
    // before the second write the new head still answers with the first
    assert(s2.newest_candidate(key, b, h2, h1)) by {
        assert(s2.candidate(key, b, h2, h1));
        assert forall|d: u64| #[trigger] s2.candidate(key, b, h2, d) implies d <= h1 by {
            if d == h2 {
                assert(s1.layers[key].dom().contains(h2));
                assert(s1.change_sets.dom().contains(h2));
            } else {
                let i = s2.visibility[b].index_of(d);
                assert(s.visibility[b][i] == d);
            }
        }
    }
    s2.lemma_get_at_newest(key, b, h2, h1);
    assert(s2.get_at(key, b, h2) == Some(first));
    // and after it with the second
    assert(s3.newest_candidate(key, b, h2, h2));
    s3.lemma_get_at_newest(key, b, h2, h2);
}

/// A write at the head of one branch changes no read on a branch that does
/// not show that head.
pub proof fn law_write_stays_on_its_branch(
    s: VsModel,
    key: Seq<u8>,
    value: Option<Seq<u8>>,
    writer: u64,
    k: Seq<u8>,
    b: u64,
    v: u64,
)
    requires
        s.wf(),
        s.head(writer).is_some(),
        !s.on_branch(b, s.head(writer).unwrap()),
    ensures
        s.write_on(key, value, writer).0.get_at(k, b, v) == s.get_at(k, b, v),
{
    let t = s.write_on(key, value, writer).0;
    assert forall|d: u64| s.candidate(k, b, v, d) <==> t.candidate(k, b, v, d) by {}
    lemma_same_candidates(s, t, k, b, v, b, v);
}

/// A merge moves no value: where a read on the target lands on the same
/// version after the merge as before, it finds the same value.
pub proof fn law_merge_keeps_values(
    s: VsModel,
    b: u64,
    target: u64,
    force: bool,
    key: Seq<u8>,
    v_before: u64,
    v_after: u64,
    c: u64,
)
    requires
        s.newest_candidate(key, target, v_before, c),
        s.branch_merge(b, target, force).0.newest_candidate(key, target, v_after, c),
    ensures
        s.branch_merge(b, target, force).0.get_at(key, target, v_after) == s.get_at(
            key,
            target,
            v_before,
        ),
        s.branch_merge(b, target, force).0.layers == s.layers,
{
    let t = s.branch_merge(b, target, force).0;
    s.lemma_get_at_newest(key, target, v_before, c);
    t.lemma_get_at_newest(key, target, v_after, c);
}

/// A clean-up changes no read, on any branch at any version.
pub proof fn law_clean_up_keeps_reads(s: VsModel, key: Seq<u8>, b: u64, v: u64)
    requires
        s.wf(),
    ensures
        s.clean_up().wf(),
        s.clean_up().visibility == s.visibility,
        s.clean_up().get_at(key, b, v) == s.get_at(key, b, v),
{
    let t = s.clean_up();
    s.lemma_clean_up();
    assert forall|d: u64| s.candidate(key, b, v, d) implies t.candidate(key, b, v, d)
        && s.layers[key][d] == t.layers[key][d] by {
        assert(s.on_branch(b, d));
        assert(s.in_use(d));
        assert(!s.orphans().contains(d));
    }
    assert forall|d: u64| t.candidate(key, b, v, d) implies s.candidate(key, b, v, d) by {}
    lemma_same_candidates(s, t, key, b, v, b, v);
}

/// Exchanging the names of two branches twice gives back the store as it was.
pub proof fn law_branch_swap_twice(s: VsModel, n1: Seq<u8>, n2: Seq<u8>)
    requires
        s.wf(),
        s.branch_ids.dom().contains(n1),
        s.branch_ids.dom().contains(n2),
    ensures
        s.branch_swap(n1, n2).1.is_ok(),
        s.branch_swap(n1, n2).0.branch_swap(n1, n2) == (s, Ok::<(), VsError>(())),
{
    let t = s.branch_swap(n1, n2).0;
    let u = t.branch_swap(n1, n2).0;
    let b1 = s.branch_ids[n1];
    let b2 = s.branch_ids[n2];
    assert(s.branch_names[b1] == n1);
    assert(s.branch_names[b2] == n2);
    assert(u.branch_ids =~= s.branch_ids);
    assert(u.branch_names =~= s.branch_names);
}

/// A branch can be removed once: the second attempt finds no branch.
pub proof fn law_branch_remove_twice(s: VsModel, b: u64)
    requires
        s.branch_remove(b).1.is_ok(),
    ensures
        s.branch_remove(b).0.branch_remove(b) == (
            s.branch_remove(b).0,
            Err::<(), VsError>(VsError::BranchNotFound),
        ),
{
}

/// A new branch, before anything is written on it, reads at its head what
/// the base branch reads at the version that it was made from.
pub proof fn law_new_branch_reads_as_base(
    s: VsModel,
    name: Seq<u8>,
    version_name: Option<Seq<u8>>,
    base: u64,
    base_version: u64,
    force: bool,
    key: Seq<u8>,
)
    requires
        s.wf(),
        s.branch_create(name, version_name, base, Some(base_version), force).1.is_ok(),
    ensures
        ({
            let t = s.branch_create(name, version_name, base, Some(base_version), force).0;
            let made = s.next_branch_id;
            &&& t.wf()
            &&& t.has_branch(made)
            &&& t.head(made).is_some()
            &&& t.get_on(key, made) == t.get_at(key, base, base_version)
            &&& t.get_at(key, base, base_version) == s.room_for(name, force).get_at(
                key,
                base,
                base_version,
            )
        }),
{
    let s0 = s.room_for(name, force);
    if force && s.branch_ids.dom().contains(name) && !s.pinned(s.branch_ids[name]) {
        s.lemma_without_branches_wf(set![s.branch_ids[name]]);
    }
    let made = s.next_branch_id;
    let vis = s0.visibility[base];
    let shown = up_to(vis, base_version);
    let i = vis.index_of(base_version);
    assert(vis[i] == base_version);
    assert(is_cut(vis, base_version, i + 1)) by {
        assert forall|j: int| 0 <= j < i + 1 implies #[trigger] vis[j] <= base_version by {
            if j < i {
                assert(u64::before(vis[j], vis[i]));
            }
        }
        assert forall|j: int| i + 1 <= j < vis.len() implies #[trigger] vis[j] > base_version by {
            assert(u64::before(vis[i], vis[j]));
        }
    }
    lemma_up_to(vis, base_version, i + 1);
    assert(shown[i] == base_version);
    assert forall|j: int| 0 <= j < shown.len() implies s0.version_names.dom().contains(
        #[trigger] shown[j],
    ) by {
        assert(s0.version_names.dom().contains(s0.visibility[base][j]));
    }
    assert forall|x: int, y: int| 0 <= x < y < shown.len() implies u64::before(
        #[trigger] shown[x],
        #[trigger] shown[y],
    ) by {
        assert(u64::before(vis[x], vis[y]));
    }
    s0.lemma_with_new_branch_wf(name, shown);
    let s1 = s0.with_new_branch(name, shown);
    assert(!s0.has_branch(made));
    assert(base != made);
    let t = s.branch_create(name, version_name, base, Some(base_version), force).0;
    // what the new branch shows up to the version it was made from is what the base shows
    assert forall|d: u64| d <= base_version implies (s1.on_branch(made, d) <==> s0.on_branch(
        base,
        d,
    )) by {
        if shown.contains(d) {
            let j = shown.index_of(d);
            assert(vis[j] == d);
        }
        if vis.contains(d) {
            let j = vis.index_of(d);
            assert(vis[j] == d);
            assert(shown[j] == d);
        }
    }
    match version_name {
        Some(vn) => {
            s1.lemma_with_version_wf(vn, made);
            let h = s0.next_version_id;
            assert(t == s1.with_version(vn, made));
            assert(t.head(made) == Some(h));
            assert(t.visibility[made] == shown.push(h));
            assert forall|d: u64| t.candidate(key, made, h, d) <==> t.candidate(
                key,
                base,
                base_version,
                d,
            ) by {
                if t.candidate(key, made, h, d) {
                    let j = shown.push(h).index_of(d);
                    assert(shown.push(h)[j] == d);
                    if j == shown.len() {
                        assert(s0.change_sets.dom().contains(h));
                    } else {
                        assert(shown[j] == d);
                        assert(vis[j] == d);
                    }
                }
                if t.candidate(key, base, base_version, d) {
                    assert(s0.on_branch(base, d));
                    let j = shown.index_of(d);
                    assert(shown.push(h)[j] == d);
                    assert(s0.version_names.dom().contains(vis[j]));
                }
            }
            lemma_same_candidates(t, t, key, made, h, base, base_version);
        },
        None => {
            assert(t == s1);
            assert(shown.last() == base_version);
            assert(t.head(made) == Some(base_version));
            assert forall|d: u64| t.candidate(key, made, base_version, d) <==> t.candidate(
                key,
                base,
                base_version,
                d,
            ) by {}
            lemma_same_candidates(t, t, key, made, base_version, base, base_version);
        },
    }
    assert forall|d: u64| t.candidate(key, base, base_version, d) <==> s0.candidate(
        key,
        base,
        base_version,
        d,
    ) by {}
    lemma_same_candidates(t, s0, key, base, base_version, base, base_version);
}

/// Trimming the common prefix of a store without orphans changes no read on
/// a non-empty branch at a version that is not older than the oldest
/// version kept.
pub proof fn lemma_trim_keeps_reads(s: VsModel, n: nat, key: Seq<u8>, b: u64, v: u64)
    requires
        s.wf(),
        s.orphans() == Set::<u64>::empty(),
        n > 0,
        s.has_versions(b),
        s.common_prefix().len() > n ==> v >= s.common_prefix()[s.common_prefix().len() - n],
    ensures
        s.trim(n).get_at(key, b, v) == s.get_at(key, b, v),
        s.trim(n).head(b) == s.head(b),
{
    let p = s.common_prefix();
    if p.len() > n {
        assert(s.longest_shared(p));
        assert(s.shared(p));
        let cut = (p.len() - n) as nat;
        let r = p[cut as int];
        let dead = Set::new(|x: u64| p.subrange(0, cut as int).contains(x));
        let s2 = s.drop_oldest(cut);
        let t = s2.fold(dead, r, Keep::IfBare);
        let vis = s.visibility[b];
        assert(p.is_prefix_of(vis));
        assert(t.visibility[b] == vis.skip(cut as int));
        assert(vis.skip(cut as int).last() == vis.last());
        assert(vis[cut as int] == r);
        // every dead version is on the branch and older than the version kept
        assert forall|x: u64| dead.contains(x) implies s.on_branch(b, x) && x < r by {
            let j = p.subrange(0, cut as int).index_of(x);
            assert(p.subrange(0, cut as int)[j] == x);
            assert(vis[j] == x);
            assert(u64::before(vis[j], vis[cut as int]));
        }
        // every version older than the version kept is dead
        assert forall|e: u64| s.change_sets.dom().contains(e) && e < r implies dead.contains(e) by {
            assert(!s.orphans().contains(e));
            assert(s.in_use(e));
            let c = choose|c: u64| s.on_branch(c, e);
            assert(s.has_versions(c));
            assert(p.is_prefix_of(s.visibility[c]));
            let w = s.visibility[c];
            let j = w.index_of(e);
            assert(w[j] == e);
            assert(w[cut as int] == r);
            if j > cut {
                assert(u64::before(w[cut as int], w[j]));
            }
            assert(p.subrange(0, cut as int)[j] == e);
        }
        assert forall|d: u64| t.on_branch(b, d) <==> (s.on_branch(b, d) && d >= r) by {
            if t.on_branch(b, d) {
                let j = vis.skip(cut as int).index_of(d);
                assert(vis[j + cut] == d);
                if j > 0 {
                    assert(u64::before(vis[cut as int], vis[j + cut]));
                }
            }
            if s.on_branch(b, d) && d >= r {
                let j = vis.index_of(d);
                assert(vis[j] == d);
                if j < cut {
                    assert(u64::before(vis[j], vis[cut as int]));
                }
                assert(vis.skip(cut as int)[j - cut] == d);
            }
        }
        if s.layers.dom().contains(key) {
            let m = s.layers[key];
            let m2 = t.layers[key];
            assert(m2 == fold_layer(m, dead, r, Keep::IfBare));
            assert forall|e: u64| m.dom().contains(e) implies s.change_sets.dom().contains(e) by {}
            if exists|c: u64| s.candidate(key, b, v, c) {
                lemma_newest_candidate_exists(s, key, b, v, v);
                let c = choose|c: u64| s.newest_candidate(key, b, v, c);
                s.lemma_get_at_newest(key, b, v, c);
                if c >= r {
                    assert(!dead.contains(c));
                    if c == r {
                        assert(!moves(m, dead, r, Keep::IfBare));
                    }
                    assert(m2.dom().contains(c) && m2[c] == m[c]);
                    assert(t.newest_candidate(key, b, v, c)) by {
                        assert forall|d: u64| #[trigger] t.candidate(key, b, v, d) implies d
                            <= c by {
                            if m.dom().contains(d) {
                                assert(s.candidate(key, b, v, d));
                            }
                        }
                    }
                    t.lemma_get_at_newest(key, b, v, c);
                } else {
                    assert(dead.contains(c));
                    assert(!m.dom().contains(r)) by {
                        if m.dom().contains(r) {
                            assert(s.candidate(key, b, v, r));
                        }
                    }
                    assert(moves(m, dead, r, Keep::IfBare)) by {
                        assert(dead.contains(c) && m.dom().contains(c));
                    }
                    assert(is_newest(m.dom().intersect(dead), c)) by {
                        assert forall|x: u64| m.dom().intersect(dead).contains(x) implies x
                            <= c by {
                            assert(s.candidate(key, b, v, x));
                        }
                    }
                    lemma_newest(m.dom().intersect(dead), c);
                    assert(m2.dom().contains(r) && m2[r] == m[c]);
                    assert(t.newest_candidate(key, b, v, r)) by {
                        assert forall|d: u64| #[trigger] t.candidate(key, b, v, d) implies d
                            <= r by {
                            if d != r {
                                assert(m.dom().contains(d));
                                assert(s.candidate(key, b, v, d));
                            }
                        }
                    }
                    t.lemma_get_at_newest(key, b, v, r);
                }
            } else {
                assert forall|d: u64| !t.candidate(key, b, v, d) by {
                    if t.candidate(key, b, v, d) {
                        if m.dom().contains(d) {
                            assert(s.candidate(key, b, v, d));
                        } else {
                            assert(moves(m, dead, r, Keep::IfBare));
                            let x = choose|x: u64| dead.contains(x) && m.dom().contains(x);
                            assert(s.candidate(key, b, v, x));
                        }
                    }
                }
                s.lemma_get_at_none(key, b, v);
                t.lemma_get_at_none(key, b, v);
            }
        } else {
            s.lemma_get_at_none(key, b, v);
            t.lemma_get_at_none(key, b, v);
        }
    }
}

/// Pruning changes no read at the head of a branch, nor at any version that
/// is not older than the oldest version of the common prefix that is kept.
pub proof fn law_prune_keeps_heads(s: VsModel, n: nat, key: Seq<u8>, b: u64, v: u64)
    requires
        s.wf(),
        n > 0,
        s.has_versions(b),
        s.clean_up().common_prefix().len() > n
            ==> v >= s.clean_up().common_prefix()[s.clean_up().common_prefix().len()
            - n],
    ensures
        s.prune(n).1.is_ok(),
        s.prune(n).0.get_at(key, b, v) == s.get_at(key, b, v),
        s.prune(n).0.head(b) == s.head(b),
        s.prune(n).0.get_on(key, b) == s.get_on(key, b),
{
    let s1 = s.clean_up();
    s.lemma_clean_up();
    law_clean_up_keeps_reads(s, key, b, v);
    lemma_trim_keeps_reads(s1, n, key, b, v);
    // the head of a non-empty branch is not older than any version of the common prefix
    let h = s.head(b).unwrap();
    let p = s1.common_prefix();
    if p.len() > n {
        assert(s1.longest_shared(p));
        assert(s1.shared(p));
        assert(s1.has_versions(b));
        assert(p.is_prefix_of(s1.visibility[b]));
        let vis = s1.visibility[b];
        let cut = p.len() - n;
        assert(vis[cut] == p[cut]);
        if cut < vis.len() - 1 {
            assert(u64::before(vis[cut], vis[vis.len() - 1]));
        }
    }
    law_clean_up_keeps_reads(s, key, b, h);
    lemma_trim_keeps_reads(s1, n, key, b, h);
}

/// Once the common prefix is no longer than the number of versions to keep,
/// pruning again changes nothing.
pub proof fn law_prune_again(s: VsModel, n: nat)
    requires
        s.wf(),
        n > 0,
        s.clean_up().common_prefix().len() <= n,
    ensures
        s.prune(n) == (s.clean_up(), Ok::<(), VsError>(())),
        s.prune(n).0.prune(n) == s.prune(n),
{
    s.lemma_clean_up();
}

/// Pruning twice is pruning once: after a prune the common prefix is no
/// longer than the number of versions to keep, and no version is left that
/// no branch shows.
pub proof fn law_prune_twice(s: VsModel, n: nat)
    requires
        s.wf(),
        n > 0,
    ensures
        s.prune(n).0.wf(),
        s.prune(n).0.common_prefix().len() <= n,
        s.prune(n).0.prune(n) == s.prune(n),
{
    let s1 = s.clean_up();
    s.lemma_clean_up();
    let p = s1.common_prefix();
    if p.len() <= n {
        law_prune_again(s, n);
    } else {
        assert(s1.longest_shared(p));
        assert(s1.shared(p));
        let cut = (p.len() - n) as nat;
        let r = p[cut as int];
        let dead = Set::new(|x: u64| p.subrange(0, cut as int).contains(x));
        let s2 = s1.drop_oldest(cut);
        let t = s2.fold(dead, r, Keep::IfBare);
        s1.lemma_drop_oldest_wf(p, cut);
        assert forall|d: u64| dead.contains(d) implies !s2.in_use(d) && d < r by {
            let j = p.subrange(0, cut as int).index_of(d);
            assert(p.subrange(0, cut as int)[j] == d);
            assert(p[j] == d);
            assert(u64::before(p[j], p[cut as int]));
        }
        s2.lemma_fold_wf(dead, r, Keep::IfBare);
        assert(t.visibility == s2.visibility);
        // a branch shows a version after the prune exactly if it showed it
        // before and the version is not dead
        assert forall|b: u64, v: u64| s1.on_branch(b, v) && !dead.contains(v) implies t.on_branch(
            b,
            v,
        ) by {
            let vis = s1.visibility[b];
            assert(s1.has_versions(b));
            assert(p.is_prefix_of(vis));
            let j = vis.index_of(v);
            assert(vis[j] == v);
            if j < cut {
                assert(p.subrange(0, cut as int)[j] == v);
            }
            assert(vis.skip(cut as int)[j - cut] == v);
        }
        // no version is left that no branch shows
        assert forall|v: u64| !t.orphans().contains(v) by {
            if t.change_sets.dom().contains(v) && !t.in_use(v) {
                assert(s1.change_sets.dom().contains(v));
                assert(!s1.orphans().contains(v));
                assert(s1.in_use(v));
                let b = choose|b: u64| s1.on_branch(b, v);
                assert(t.on_branch(b, v));
            }
        }
        assert(t.orphans() =~= Set::<u64>::empty());
        t.lemma_fold_none(0, Keep::Nothing);
        assert(t.clean_up() == t);
        // what is left of the common prefix is the common prefix
        let q = p.skip(cut as int);
        let b0 = choose|b: u64| s1.has_versions(b);
        assert(p.is_prefix_of(s1.visibility[b0]));
        assert(t.has_versions(b0));
        assert forall|b: u64| #[trigger] t.has_versions(b) implies q.is_prefix_of(
            t.visibility[b]) by {
            let vis = s1.visibility[b];
            if vis.len() >= cut {
                assert(s1.has_versions(b));
                assert(p.is_prefix_of(vis));
                assert(q =~= vis.skip(cut as int).subrange(0, q.len() as int));
            } else {
                assert(s1.has_versions(b));
                assert(p.is_prefix_of(vis));
            }
        }
        assert forall|w: Seq<u64>| #[trigger] t.shared(w) implies w.len() <= q.len() by {
            let longer = p.subrange(0, cut as int) + w;
            assert forall|b: u64| #[trigger] s1.has_versions(b) implies longer.is_prefix_of(
                s1.visibility[b],
            ) by {
                let vis = s1.visibility[b];
                assert(p.is_prefix_of(vis));
                assert(t.has_versions(b));
                assert(w.is_prefix_of(vis.skip(cut as int)));
                assert(longer =~= vis.subrange(0, longer.len() as int)) by {
                    assert forall|j: int| 0 <= j < longer.len() implies longer[j] == vis[j] by {
                        if j >= cut {
                            assert(w[j - cut] == vis.skip(cut as int).subrange(0, w.len() as int)[j
                                - cut]);
                        } else {
                            assert(p[j] == vis.subrange(0, p.len() as int)[j]);
                        }
                    }
                }
            }
            assert(s1.shared(longer));
        }
        assert(t.longest_shared(q));
        t.lemma_common_prefix(q);
    }
}

/// A new version or branch gets an identifier that is greater than every
/// identifier in use, and no operation ever moves a counter back: an
/// identifier, once handed out, is not handed out again.
pub proof fn law_identifiers_are_not_used_again(
    s: VsModel,
    key: Seq<u8>,
    value: Option<Seq<u8>>,
    name: Seq<u8>,
    version_name: Option<Seq<u8>>,
    b: u64,
    c: u64,
    v: u64,
    base_version: Option<u64>,
    force: bool,
    n: nat,
    keep: Set<u64>,
)
    requires
        s.wf(),
    ensures
        forall|w: u64| s.version_names.dom().contains(w) ==> w < s.next_version_id,
        forall|a: u64| s.branch_names.dom().contains(a) ==> a < s.next_branch_id,
        s.version_create(name, b).1.is_ok() ==> s.version_create(name, b).0.on_branch(
            b,
            s.next_version_id,
        ) && s.version_create(name, b).0.next_version_id == s.next_version_id + 1,
        s.branch_create(name, version_name, b, base_version, force).1.is_ok() ==> s.branch_create(
            name,
            version_name,
            b,
            base_version,
            force,
        ).0.has_branch(s.next_branch_id) && s.branch_create(
            name,
            version_name,
            b,
            base_version,
            force,
        ).0.next_branch_id == s.next_branch_id + 1,
        counters_kept(s, s.write_on(key, value, b).0),
        counters_kept(s, s.version_create(name, b).0),
        counters_kept(s, s.version_pop(b).0),
        counters_kept(s, s.version_rebase(v, b).0),
        counters_kept(s, s.version_revert(v).0),
        counters_kept(s, s.clean_up()),
        counters_kept(s, s.branch_create(name, version_name, b, base_version, force).0),
        counters_kept(s, s.branch_remove(b).0),
        counters_kept(s, s.branch_keep_only(keep)),
        counters_kept(s, s.branch_truncate(b).0),
        counters_kept(s, s.branch_truncate_to(b, v).0),
        counters_kept(s, s.branch_merge(b, c, force).0),
        counters_kept(s, s.branch_swap(key, name).0),
        counters_kept(s, s.branch_set_default(b).0),
        counters_kept(s, s.prune(n).0),
{
    let t = s.version_create(name, b).0;
    if s.version_create(name, b).1.is_ok() {
        assert(t.visibility[b] == s.visibility[b].push(s.next_version_id));
        assert(t.visibility[b][s.visibility[b].len() as int] == s.next_version_id);
    }
}

/// No counter of `t` is behind the counter of `s`.
pub open spec fn counters_kept(s: VsModel, t: VsModel) -> bool {
    s.next_branch_id <= t.next_branch_id && s.next_version_id <= t.next_version_id
}

/// What two readers see alike has one signature: if every key reads the
/// same from `(b, v)` of one store as from `(c, w)` of another, the visible
/// keys with their values are the same sequence, whatever else the stores hold.
pub proof fn law_same_sight_same_checksum(
    s: VsModel,
    keys_s: Seq<Seq<u8>>,
    b: u64,
    v: u64,
    t: VsModel,
    keys_t: Seq<Seq<u8>>,
    c: u64,
    w: u64,
)
    requires
        sorted::<Vec<u8>>(keys_s),
        sorted::<Vec<u8>>(keys_t),
        forall|k: Seq<u8>| keys_s.contains(k) <==> s.layers.dom().contains(k),
        forall|k: Seq<u8>| keys_t.contains(k) <==> t.layers.dom().contains(k),
        forall|k: Seq<u8>| s.get_at(k, b, v) == t.get_at(k, c, w),
    ensures
        s.visible_pairs(keys_s, b, v) == t.visible_pairs(keys_t, c, w),
        checksum_of(s.visible_pairs(keys_s, b, v)) == checksum_of(t.visible_pairs(keys_t, c, w)),
{
    let p = s.visible_pairs(keys_s, b, v);
    let q = t.visible_pairs(keys_t, c, w);
    s.lemma_visible_pairs(keys_s, b, v);
    t.lemma_visible_pairs(keys_t, c, w);
    assert forall|k: Seq<u8>| pair_keys(p).contains(k) <==> pair_keys(q).contains(k) by {
        if pair_keys(p).contains(k) {
            let i = pair_keys(p).index_of(k);
            assert(p[i].0 == k);
            assert(s.get_at(k, b, v).is_some());
            if !t.layers.dom().contains(k) {
                t.lemma_get_at_none(k, c, w);
            }
            assert(keys_t.contains(k) && t.get_at(k, c, w).is_some());
        }
        if pair_keys(q).contains(k) {
            let i = pair_keys(q).index_of(k);
            assert(q[i].0 == k);
            assert(t.get_at(k, c, w).is_some());
            if !s.layers.dom().contains(k) {
                s.lemma_get_at_none(k, b, v);
            }
            assert(keys_s.contains(k) && s.get_at(k, b, v).is_some());
        }
    }
    lemma_sorted_same_keys::<Vec<u8>>(pair_keys(p), pair_keys(q));
    assert(p.len() == q.len());
    assert forall|i: int| 0 <= i < p.len() implies p[i] == q[i] by {
        assert(pair_keys(p)[i] == pair_keys(q)[i]);
    }
    assert(p =~= q);
}

} // verus!
