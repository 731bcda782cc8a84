use vsdb::common::{BranchName, KeyBound, VersionName, VsError, INITIAL_BRANCH_ID, NULL};
use vsdb::versioned::mapx_raw::backend::MapxRawVs;

fn vid(db: &MapxRawVs, name: &[u8]) -> u64 {
    db.version_get_id_by_name(VersionName(name)).unwrap()
}

fn bid(db: &MapxRawVs, name: &[u8]) -> u64 {
    db.branch_get_id_by_name(BranchName(name)).unwrap()
}

fn names(db: &MapxRawVs, branch: u64) -> Vec<Vec<u8>> {
    db.version_list_by_branch(branch).unwrap().into_iter().map(|n| n.0).collect()
}

#[test]
fn a_fresh_store() {
    let db = MapxRawVs::new();
    assert_eq!(db.branch_get_default(), INITIAL_BRANCH_ID);
    assert_eq!(db.branch_get_default_name().0, b"main".to_vec());
    assert_eq!(bid(&db, b"main"), 1);
    assert!(db.branch_exists(1));
    assert!(!db.branch_has_versions(1));
    assert_eq!(db.head_of(1), Err(VsError::NoCurrentVersion));
    assert_eq!(db.head_of(2), Err(VsError::BranchNotFound));
    assert_eq!(db.version_list().unwrap().len(), 0);
    assert_eq!(db.version_list_globally().len(), 0);
    assert_eq!(db.branch_is_empty(1), Ok(true));
    assert_eq!(db.len(), 0);
    assert!(db.is_empty());
    assert_eq!(db.checksum_get(), None);
}

#[test]
fn identifiers_grow_and_are_not_used_again() {
    let mut db = MapxRawVs::new();
    db.version_create(b"v1").unwrap();
    db.version_create(b"v2").unwrap();
    let (v1, v2) = (vid(&db, b"v1"), vid(&db, b"v2"));
    assert_eq!(v1, 256);
    assert_eq!(v2, 257);
    db.branch_create(b"a", b"a1", false).unwrap();
    let a = bid(&db, b"a");
    assert_eq!(a, 256);
    db.branch_remove(a).unwrap();
    db.version_clean_up_globally();
    assert!(!db.version_exists_globally(vid_or_null(&db, b"a1")));
    db.branch_create(b"a", b"a1", false).unwrap();
    assert_eq!(bid(&db, b"a"), 257);
    assert_eq!(vid(&db, b"a1"), 259);
}

fn vid_or_null(db: &MapxRawVs, name: &[u8]) -> u64 {
    db.version_get_id_by_name(VersionName(name)).unwrap_or(NULL)
}

#[test]
fn pop_takes_the_head_off_one_branch() {
    let mut db = MapxRawVs::new();
    db.version_create(b"v1").unwrap();
    db.insert(&[1], &[1]).unwrap();
    db.version_create(b"v2").unwrap();
    db.insert(&[1], &[2]).unwrap();
    db.branch_create_without_new_version(b"dev", false).unwrap();
    let dev = bid(&db, b"dev");
    db.version_pop().unwrap();
    assert_eq!(db.get(&[1]), Some(vec![1]));
    assert_eq!(db.get_by_branch(&[1], dev), Some(vec![2]));
    assert!(db.version_exists_globally(vid(&db, b"v2")));
    assert!(db.version_in_use(vid(&db, b"v2")));
    db.version_pop().unwrap();
    db.version_pop().unwrap();
    assert_eq!(names(&db, 1), Vec::<Vec<u8>>::new());
    assert_eq!(db.branch_pop_version(dev), Ok(()));
    assert_eq!(names(&db, dev), vec![b"v1".to_vec()]);
    assert!(!db.version_in_use(vid(&db, b"v2")));
}

#[test]
fn truncate_and_truncate_to() {
    let mut db = MapxRawVs::new();
    for n in [b"v1", b"v2", b"v3", b"v4"] {
        db.version_create(n).unwrap();
    }
    let v2 = vid(&db, b"v2");
    db.branch_truncate_to(1, v2).unwrap();
    assert_eq!(names(&db, 1), vec![b"v1".to_vec(), b"v2".to_vec()]);
    // a version that is not on the branch cuts where it would stand
    db.branch_truncate_to(1, u64::MAX).unwrap();
    assert_eq!(names(&db, 1).len(), 2);
    db.branch_truncate_to(1, 0).unwrap();
    assert_eq!(names(&db, 1).len(), 0);
    assert!(db.branch_exists(1));
    db.version_create(b"v5").unwrap();
    db.branch_truncate(1).unwrap();
    assert!(!db.branch_has_versions(1));
    assert_eq!(db.version_list_globally().len(), 5);
}

#[test]
fn rebase_folds_the_newer_versions_into_the_base() {
    let mut db = MapxRawVs::new();
    db.version_create(b"v1").unwrap();
    db.insert(&[1], &[1]).unwrap();
    db.insert(&[2], &[1]).unwrap();
    db.version_create(b"v2").unwrap();
    db.insert(&[1], &[2]).unwrap();
    db.insert(&[3], &[2]).unwrap();
    db.version_create(b"v3").unwrap();
    db.insert(&[1], &[3]).unwrap();
    db.remove(&[3]).unwrap();
    let v1 = vid(&db, b"v1");
    assert_eq!(db.version_rebase(v1), Ok(()));
    assert_eq!(names(&db, 1), vec![b"v1".to_vec()]);
    assert_eq!(db.version_list_globally().len(), 1);
    assert_eq!(db.get(&[1]), Some(vec![3]));
    assert_eq!(db.get(&[2]), Some(vec![1]));
    assert_eq!(db.get(&[3]), None);
    assert_eq!(db.get_by_branch_version(&[1], 1, v1), Some(vec![3]));
    assert_eq!(db.version_get_id_by_name(VersionName(b"v2")), None);
    assert_eq!(db.version_rebase(999), Err(VsError::VersionNotFound));
    assert_eq!(db.version_rebase_by_branch(v1, 999), Err(VsError::BranchNotFound));
}

#[test]
fn revert_purges_a_version_everywhere() {
    let mut db = MapxRawVs::new();
    db.version_create(b"v1").unwrap();
    db.insert(&[1], &[1]).unwrap();
    db.version_create(b"v2").unwrap();
    db.insert(&[1], &[2]).unwrap();
    db.branch_create(b"dev", b"d1", false).unwrap();
    let dev = bid(&db, b"dev");
    let v2 = vid(&db, b"v2");
    assert_eq!(db.version_revert_globally(v2), Ok(()));
    assert_eq!(db.get(&[1]), Some(vec![1]));
    assert_eq!(db.get_by_branch(&[1], dev), Some(vec![1]));
    assert_eq!(names(&db, dev), vec![b"v1".to_vec(), b"d1".to_vec()]);
    assert!(!db.version_exists_globally(v2));
    assert_eq!(db.version_revert_globally(v2), Err(VsError::VersionNotFound));
}

#[test]
fn keep_only_removes_the_other_branches_and_their_orphans() {
    let mut db = MapxRawVs::new();
    db.version_create(b"v1").unwrap();
    db.insert(&[1], &[1]).unwrap();
    db.branch_create(b"a", b"a1", false).unwrap();
    db.branch_create(b"b", b"b1", false).unwrap();
    let (a, b) = (bid(&db, b"a"), bid(&db, b"b"));
    db.insert_by_branch(&[2], &[2], a).unwrap();
    db.insert_by_branch(&[3], &[3], b).unwrap();
    assert_eq!(db.branch_keep_only(&[a, 12345]), Ok(()));
    assert!(db.branch_exists(a));
    assert!(!db.branch_exists(b));
    // the initial branch stays
    assert!(db.branch_exists(1));
    assert_eq!(db.branch_list().len(), 2);
    assert_eq!(db.version_list_globally().len(), 2);
    assert!(!db.version_exists_globally(vid_or_null(&db, b"b1")));
    assert_eq!(db.get_by_branch(&[1], a), Some(vec![1]));
    assert_eq!(db.get_by_branch(&[2], a), Some(vec![2]));
    assert_eq!(db.get_by_branch(&[3], a), None);
    db.branch_set_default(a).unwrap();
    assert_eq!(db.get(&[2]), Some(vec![2]));
    assert_eq!(db.branch_get_default_name().0, b"a".to_vec());
}

#[test]
fn forced_merge_puts_each_version_at_its_place() {
    let mut db = MapxRawVs::new();
    db.version_create(b"v1").unwrap();
    db.branch_create(b"dev", b"d1", false).unwrap();
    let dev = bid(&db, b"dev");
    db.version_create(b"v2").unwrap();
    db.version_create_by_branch(b"d2", dev).unwrap();
    assert_eq!(db.branch_merge_to(dev, 1), Err(VsError::MergeUnsafe));
    assert_eq!(db.branch_merge_to_force(dev, 1), Ok(()));
    assert_eq!(
        names(&db, 1),
        vec![b"v1".to_vec(), b"d1".to_vec(), b"v2".to_vec(), b"d2".to_vec()]
    );
    assert_eq!(names(&db, dev), vec![b"v1".to_vec(), b"d1".to_vec(), b"d2".to_vec()]);
    // the branch is shorter than the target and agrees with it: nothing to do
    db.branch_create_by_base_branch_version_without_new_version(b"old", 1, vid(&db, b"v1"), false)
        .unwrap();
    let old = bid(&db, b"old");
    assert_eq!(db.branch_merge_to(old, 1), Err(VsError::MergeUnsafe));
    assert_eq!(db.branch_merge_to_force(old, 1), Ok(()));
    assert_eq!(names(&db, 1).len(), 4);
    // the target is behind the branch and agrees with it: it catches up
    assert_eq!(db.branch_merge_to(1, old), Ok(()));
    assert_eq!(names(&db, old), names(&db, 1));
}

#[test]
fn a_branch_without_a_version_of_its_own_writes_to_the_version_it_took_over() {
    let mut db = MapxRawVs::new();
    db.version_create(b"v1").unwrap();
    db.insert(&[1], &[1]).unwrap();
    db.branch_create_by_base_branch_without_new_version(b"dev", 1, false).unwrap();
    let dev = bid(&db, b"dev");
    db.insert_by_branch(&[1], &[2], dev).unwrap();
    // both branches show that version
    assert_eq!(db.get(&[1]), Some(vec![2]));
}

#[test]
fn clear_leaves_the_initial_branch() {
    let mut db = MapxRawVs::new();
    db.version_create(b"v1").unwrap();
    db.insert(&[1], &[1]).unwrap();
    db.branch_create(b"dev", b"d1", false).unwrap();
    db.branch_set_default(bid(&db, b"dev")).unwrap();
    db.clear();
    assert_eq!(db.branch_get_default(), 1);
    assert_eq!(db.branch_list().len(), 1);
    assert_eq!(db.version_list_globally().len(), 0);
    assert_eq!(db.len(), 0);
    assert_eq!(db.get(&[1]), None);
    // the counters go on
    db.version_create(b"v1").unwrap();
    assert_eq!(vid(&db, b"v1"), 258);
}

#[test]
fn null_identifiers_see_nothing() {
    let mut db = MapxRawVs::new();
    db.version_create(b"v1").unwrap();
    db.insert(&[1], &[1]).unwrap();
    assert!(db.iter_by_branch_version(NULL, 256).next().is_none());
    assert!(db.iter_by_branch_version(1, NULL).next().is_none());
    assert!(db.range_by_branch_version(1, NULL, KeyBound::Unbounded, KeyBound::Unbounded).next_back().is_none());
    assert_eq!(db.len_by_branch_version(1, NULL), 0);
    assert_eq!(db.len_by_branch_version(1, 256), 1);
    assert!(db.is_empty_by_branch_version(NULL, 256));
}

#[test]
fn lists_come_in_order() {
    let mut db = MapxRawVs::new();
    db.version_create(b"zz").unwrap();
    db.version_create(b"aa").unwrap();
    db.branch_create_without_new_version(b"b", false).unwrap();
    db.branch_create_without_new_version(b"a", false).unwrap();
    db.branch_create_without_new_version(b"ab", false).unwrap();
    let branches: Vec<Vec<u8>> = db.branch_list().into_iter().map(|n| n.0).collect();
    assert_eq!(branches, vec![b"a".to_vec(), b"ab".to_vec(), b"b".to_vec(), b"main".to_vec()]);
    let versions: Vec<Vec<u8>> = db.version_list_globally().into_iter().map(|n| n.0).collect();
    assert_eq!(versions, vec![b"zz".to_vec(), b"aa".to_vec()]);
    assert_eq!(db.branch_is_empty(1), Ok(true));
    db.insert(&[1], &[1]).unwrap();
    assert_eq!(db.branch_is_empty(1), Ok(false));
    assert_eq!(db.version_has_change_set(vid(&db, b"zz")), Ok(false));
    assert_eq!(db.version_has_change_set(vid(&db, b"aa")), Ok(true));
    assert!(db.version_exists(vid(&db, b"aa")));
    assert!(!db.version_exists_on_branch(vid(&db, b"aa"), 999));
}

#[test]
fn checksum_follows_what_is_seen() {
    let mut a = MapxRawVs::new();
    a.version_create(b"v1").unwrap();
    a.insert(&[1], &[1]).unwrap();
    a.insert(&[2], &[2]).unwrap();
    let first = a.checksum_get().unwrap();
    a.version_create(b"v2").unwrap();
    // a new version with no write shows the same
    assert_eq!(a.checksum_get(), Some(first));
    a.insert(&[2], &[3]).unwrap();
    let second = a.checksum_get().unwrap();
    assert_ne!(first, second);
    assert_eq!(a.checksum_get_by_branch_version(1, 256), Some(first));
    assert_eq!(a.checksum_get_by_branch_version(1, 999), None);
    assert_eq!(a.checksum_get_by_branch(999), None);
    // another store, another history, the same sight
    let mut b = MapxRawVs::new();
    b.version_create(b"x").unwrap();
    b.insert(&[2], &[3]).unwrap();
    b.insert(&[9], &[9]).unwrap();
    b.version_create(b"y").unwrap();
    b.insert(&[1], &[1]).unwrap();
    b.remove(&[9]).unwrap();
    assert_eq!(b.checksum_get(), Some(second));
    // the empty sight
    let mut c = MapxRawVs::new();
    c.version_create(b"v").unwrap();
    assert_eq!(c.checksum_get(), Some([0xcb, 0xf2, 0x9c, 0xe4, 0x84, 0x22, 0x23, 0x25]));
}

#[test]
fn a_rebase_asks_for_versions_that_no_other_branch_shows() {
    let mut db = MapxRawVs::new();
    db.version_create(b"v1").unwrap();
    db.version_create(b"v2").unwrap();
    let (v1, v2) = (vid(&db, b"v1"), vid(&db, b"v2"));
    assert!(db.branch_owns_after(1, v1));
    db.branch_create_without_new_version(b"dev", false).unwrap();
    let dev = bid(&db, b"dev");
    // both branches show v2
    assert!(!db.branch_owns_after(1, v1));
    assert!(!db.branch_owns_after(dev, v1));
    assert!(db.branch_owns_after(1, v2));
    db.version_pop_by_branch(dev).unwrap();
    assert!(db.branch_owns_after(1, v1));
    assert!(db.branch_owns_after(dev, v1));
    assert!(!db.branch_owns_after(dev, 0));
    assert!(!db.branch_owns_after(1, 0));
    assert!(db.branch_owns_after(999, 0));
    let copy = db.clone();
    assert_eq!(copy.version_list_globally().len(), 2);
    assert_eq!(MapxRawVs::default().branch_list().len(), 1);
}

#[test]
fn forced_creation_spares_the_branches_that_stay() {
    let mut db = MapxRawVs::new();
    db.version_create(b"v1").unwrap();
    assert_eq!(db.branch_create(b"main", b"m1", true), Err(VsError::InvalidArg));
    assert!(db.branch_exists(1));
    assert_eq!(db.version_get_id_by_name(VersionName(b"m1")), None);
    db.branch_create(b"dev", b"d1", false).unwrap();
    let dev = bid(&db, b"dev");
    db.branch_set_default(dev).unwrap();
    assert_eq!(db.branch_create_without_new_version(b"dev", true), Err(VsError::InvalidArg));
    assert_eq!(db.branch_remove(dev), Err(VsError::InvalidArg));
    assert_eq!(db.branch_remove(1), Err(VsError::InvalidArg));
    assert_eq!(db.branch_get_default(), dev);
    db.branch_set_default(1).unwrap();
    assert_eq!(db.branch_create_without_new_version(b"dev", true), Ok(()));
    assert!(bid(&db, b"dev") > dev);
    // a taken name is reported before an unknown base
    assert_eq!(db.branch_create_by_base_branch(b"dev", b"x", 999, false), Err(VsError::BranchExists));
    assert_eq!(db.branch_create_by_base_branch(b"new", b"v1", 999, false), Err(VsError::VersionExists));
    assert_eq!(db.branch_create_by_base_branch(b"new", b"x", 999, false), Err(VsError::BranchNotFound));
}

#[test]
fn counters_start_where_the_backend_left_them() {
    assert_eq!(MapxRawVs::starting_at(2, 1).map(|db| db.branch_list().len()), Ok(1));
    assert!(MapxRawVs::starting_at(1, 1).is_err());
    assert!(MapxRawVs::starting_at(2, 0).is_err());
    let mut db = MapxRawVs::starting_at(1000, u64::MAX).unwrap();
    assert_eq!(db.version_create(b"v"), Err(VsError::BackendFailure));
    assert_eq!(db.branch_create(b"b", b"v", false), Err(VsError::BackendFailure));
    assert_eq!(db.branch_create_without_new_version(b"b", false), Ok(()));
    assert_eq!(bid(&db, b"b"), 1000);
}
