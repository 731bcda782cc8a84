use vsdb::common::{BranchName, KeyBound, ParentBranchName, VersionName, VsError};
use vsdb::versioned::mapx_raw::MapxRawVs;

const MAIN: BranchName<'static> = BranchName(b"main");

fn collect_forward(db: &MapxRawVs, branch: BranchName, version: VersionName, lo: &[u8], hi: &[u8]) -> Vec<(Vec<u8>, Vec<u8>)> {
    let mut it = db.range_by_branch_version(branch, version, KeyBound::Included(lo), KeyBound::Included(hi));
    let mut out = Vec::new();
    while let Some(kv) = it.next() {
        out.push(kv);
    }
    out
}

fn collect_backward(db: &MapxRawVs, branch: BranchName, version: VersionName, lo: &[u8], hi: &[u8]) -> Vec<(Vec<u8>, Vec<u8>)> {
    let mut it = db.range_by_branch_version(branch, version, KeyBound::Included(lo), KeyBound::Included(hi));
    let mut out = Vec::new();
    while let Some(kv) = it.next_back() {
        out.push(kv);
    }
    out
}

#[test]
fn write_read_overwrite_delete() {
    let mut db = MapxRawVs::new();
    db.version_create(VersionName(b"v1")).unwrap();
    assert_eq!(db.insert(&[1], &[9]).unwrap(), None);
    assert_eq!(db.get(&[1]), Some(vec![9]));
    assert_eq!(db.insert(&[1], &[10]).unwrap(), Some(vec![9]));
    assert_eq!(db.get(&[1]), Some(vec![10]));
    assert_eq!(db.remove(&[1]).unwrap(), Some(vec![10]));
    assert_eq!(db.get(&[1]), None);
}

fn two_branches() -> MapxRawVs {
    let mut db = MapxRawVs::new();
    db.version_create(VersionName(b"v1")).unwrap();
    db.insert(&[1], &[9]).unwrap();
    db.branch_create_by_base_branch_version(
        BranchName(b"dev"),
        ParentBranchName(b"main"),
        VersionName(b"v1"),
    )
    .unwrap();
    db.version_create_by_branch(VersionName(b"v2"), BranchName(b"dev")).unwrap();
    db.insert_by_branch(&[1], &[10], BranchName(b"dev")).unwrap();
    db
}

#[test]
fn branches_read_their_own_writes() {
    let db = two_branches();
    assert_eq!(db.get_by_branch(&[1], MAIN), Some(vec![9]));
    assert_eq!(db.get_by_branch(&[1], BranchName(b"dev")), Some(vec![10]));
    assert_eq!(db.get(&[1]), Some(vec![9]));
}

#[test]
fn merge_brings_the_branch_into_the_target() {
    let mut db = two_branches();
    assert_eq!(db.branch_merge_to(BranchName(b"dev"), MAIN), Ok(()));
    assert_eq!(db.get_by_branch(&[1], MAIN), Some(vec![10]));
    assert_eq!(db.get_by_branch_version(&[1], MAIN, VersionName(b"v1")), Some(vec![9]));
    assert!(db.version_exists_on_branch(VersionName(b"v2"), MAIN));
}

#[test]
fn merge_is_refused_when_the_target_moved_on() {
    let mut db = two_branches();
    db.version_create(VersionName(b"v3")).unwrap();
    db.insert(&[1], &[11]).unwrap();
    assert_eq!(db.branch_merge_to(BranchName(b"dev"), MAIN), Err(VsError::MergeUnsafe));
    assert_eq!(db.get_by_branch(&[1], MAIN), Some(vec![11]));
    assert!(!db.version_exists_on_branch(VersionName(b"v2"), MAIN));
    // forced, the merge goes through: the target shows v1, v2 and v3
    assert_eq!(db.branch_merge_to_force(BranchName(b"dev"), MAIN), Ok(()));
    assert!(db.version_exists_on_branch(VersionName(b"v2"), MAIN));
    assert_eq!(db.get_by_branch(&[1], MAIN), Some(vec![11]));
    assert_eq!(db.get_by_branch_version(&[1], MAIN, VersionName(b"v2")), Some(vec![10]));
}

#[test]
fn prune_keeps_the_newest_version_of_the_common_prefix() {
    let mut db = MapxRawVs::new();
    db.version_create(VersionName(b"v1")).unwrap();
    db.insert(&[1], &[1]).unwrap();
    db.version_create(VersionName(b"v2")).unwrap();
    db.insert(&[1], &[2]).unwrap();
    db.insert(&[5], &[2]).unwrap();
    db.version_create(VersionName(b"v3")).unwrap();
    db.insert(&[1], &[3]).unwrap();
    assert_eq!(db.prune(Some(1)), Ok(()));
    assert_eq!(db.get_by_branch_version(&[1], MAIN, VersionName(b"v3")), Some(vec![3]));
    assert!(!db.version_exists_globally(VersionName(b"v1")));
    assert!(!db.version_exists_globally(VersionName(b"v2")));
    assert!(db.version_exists(VersionName(b"v3")));
    assert_eq!(db.get_by_branch_version(&[1], MAIN, VersionName(b"v1")), None);
    // the last value that a pruned version wrote is carried over to the version kept
    assert_eq!(db.get_by_branch_version(&[5], MAIN, VersionName(b"v3")), Some(vec![2]));
    assert_eq!(db.get(&[5]), Some(vec![2]));
    assert_eq!(db.get(&[1]), Some(vec![3]));
    let names: Vec<Vec<u8>> = db.version_list().unwrap().into_iter().map(|n| n.0).collect();
    assert_eq!(names, vec![b"v3".to_vec()]);
}

#[test]
fn prune_two_of_three() {
    let mut db = MapxRawVs::new();
    db.version_create(VersionName(b"v1")).unwrap();
    db.insert(&[1], &[1]).unwrap();
    db.version_create(VersionName(b"v2")).unwrap();
    db.insert(&[1], &[2]).unwrap();
    db.version_create(VersionName(b"v3")).unwrap();
    db.insert(&[1], &[3]).unwrap();
    assert_eq!(db.prune(Some(2)), Ok(()));
    assert!(!db.version_exists_globally(VersionName(b"v1")));
    assert!(db.version_exists(VersionName(b"v2")));
    // the oldest version that is left still reads its own value
    assert_eq!(db.get_by_branch_version(&[1], MAIN, VersionName(b"v2")), Some(vec![2]));
    assert_eq!(db.get_by_branch_version(&[1], MAIN, VersionName(b"v3")), Some(vec![3]));
}

#[test]
fn write_without_version_is_refused() {
    let mut db = MapxRawVs::new();
    assert_eq!(db.insert(&[2], &[7]), Err(VsError::NoCurrentVersion));
    assert_eq!(db.remove(&[2]), Err(VsError::NoCurrentVersion));
    assert_eq!(db.get(&[2]), None);
}

#[test]
fn range_sees_one_version() {
    let mut db = MapxRawVs::new();
    db.version_create(VersionName(b"v1")).unwrap();
    db.insert(&[1], &[1]).unwrap();
    db.version_create(VersionName(b"v2")).unwrap();
    db.insert(&[2], &[2]).unwrap();
    db.version_create(VersionName(b"v3")).unwrap();
    db.insert(&[3], &[3]).unwrap();
    let fwd = collect_forward(&db, MAIN, VersionName(b"v2"), &[1], &[3]);
    assert_eq!(fwd, vec![(vec![1], vec![1]), (vec![2], vec![2])]);
    let bwd = collect_backward(&db, MAIN, VersionName(b"v2"), &[1], &[3]);
    assert_eq!(bwd, vec![(vec![2], vec![2]), (vec![1], vec![1])]);
    let all = collect_forward(&db, MAIN, VersionName(b"v3"), &[1], &[3]);
    assert_eq!(all, vec![(vec![1], vec![1]), (vec![2], vec![2]), (vec![3], vec![3])]);
    assert_eq!(db.len_by_branch_version(MAIN, VersionName(b"v2")), 2);
    assert_eq!(db.len(), 3);
}

#[test]
fn keep_only_the_named_branches() {
    let mut db = MapxRawVs::new();
    db.version_create(VersionName(b"v1")).unwrap();
    db.insert(&[1], &[1]).unwrap();
    db.branch_create(BranchName(b"a")).unwrap();
    db.branch_create(BranchName(b"b")).unwrap();
    db.version_create_by_branch(VersionName(b"b1"), BranchName(b"b")).unwrap();
    assert_eq!(db.branch_keep_only(&[BranchName(b"a"), BranchName(b"nobody")]), Ok(()));
    assert!(db.branch_exists(BranchName(b"a")));
    assert!(!db.branch_exists(BranchName(b"b")));
    assert!(!db.version_exists_globally(VersionName(b"b1")));
    assert_eq!(db.get_by_branch(&[1], BranchName(b"a")), Some(vec![1]));
    // the initial branch, which is the default branch, stays though it was not named
    assert!(db.branch_exists(MAIN));
    assert_eq!(db.branch_get_default().0, b"main".to_vec());
    let names: Vec<Vec<u8>> = db.branch_list().into_iter().map(|n| n.0).collect();
    assert_eq!(names, vec![b"a".to_vec(), b"main".to_vec()]);
    // another default branch stays as well
    db.branch_create(BranchName(b"c")).unwrap();
    db.branch_set_default(BranchName(b"c")).unwrap();
    assert_eq!(db.branch_keep_only(&[]), Ok(()));
    let left: Vec<Vec<u8>> = db.branch_list().into_iter().map(|n| n.0).collect();
    assert_eq!(left, vec![b"c".to_vec(), b"main".to_vec()]);
    assert_eq!(db.branch_get_default().0, b"c".to_vec());
}

#[test]
fn the_initial_and_the_default_branch_stay() {
    let mut db = MapxRawVs::new();
    db.version_create(VersionName(b"v1")).unwrap();
    db.insert(&[1], &[1]).unwrap();
    assert_eq!(db.branch_remove(MAIN), Err(VsError::InvalidArg));
    assert!(db.branch_exists(MAIN));
    assert_eq!(db.get(&[1]), Some(vec![1]));
    db.branch_create(BranchName(b"dev")).unwrap();
    db.branch_set_default(BranchName(b"dev")).unwrap();
    assert_eq!(db.branch_remove(BranchName(b"dev")), Err(VsError::InvalidArg));
    // the initial branch stays even when it is not the default
    assert_eq!(db.branch_remove(MAIN), Err(VsError::InvalidArg));
    db.branch_set_default(MAIN).unwrap();
    assert_eq!(db.branch_remove(BranchName(b"dev")), Ok(()));
    assert_eq!(db.branch_remove(BranchName(b"dev")), Err(VsError::BranchNotFound));
    assert_eq!(db.branch_get_default().0, b"main".to_vec());
}

#[test]
fn a_taken_name_is_reported_before_an_unknown_base() {
    let mut db = MapxRawVs::new();
    db.version_create(VersionName(b"v1")).unwrap();
    db.branch_create(BranchName(b"dev")).unwrap();
    assert_eq!(
        db.branch_create_by_base_branch(BranchName(b"dev"), ParentBranchName(b"nobody")),
        Err(VsError::BranchExists)
    );
    assert_eq!(
        db.branch_create_by_base_branch(BranchName(b"new"), ParentBranchName(b"nobody")),
        Err(VsError::BranchNotFound)
    );
    assert_eq!(
        db.branch_create_by_base_branch_version(
            BranchName(b"dev"),
            ParentBranchName(b"nobody"),
            VersionName(b"nothing")
        ),
        Err(VsError::BranchExists)
    );
    assert_eq!(
        db.branch_create_by_base_branch_version(
            BranchName(b"new"),
            ParentBranchName(b"nobody"),
            VersionName(b"v1")
        ),
        Err(VsError::BranchNotFound)
    );
    assert_eq!(
        db.branch_create_by_base_branch_version(
            BranchName(b"new"),
            ParentBranchName(b"main"),
            VersionName(b"nothing")
        ),
        Err(VsError::VersionNotFound)
    );
    assert!(!db.branch_exists(BranchName(b"new")));
}

#[test]
fn identifiers_run_out() {
    assert!(MapxRawVs::starting_at(1, 5).is_err());
    assert!(MapxRawVs::starting_at(5, 0).is_err());
    let mut db = MapxRawVs::starting_at(u64::MAX - 1, u64::MAX - 1).unwrap();
    assert_eq!(db.version_create(VersionName(b"last")), Ok(()));
    assert_eq!(db.version_create(VersionName(b"none")), Err(VsError::BackendFailure));
    assert!(!db.version_exists_globally(VersionName(b"none")));
    assert_eq!(db.branch_create(BranchName(b"last")), Ok(()));
    assert_eq!(db.branch_create(BranchName(b"none")), Err(VsError::BackendFailure));
    assert!(!db.branch_exists(BranchName(b"none")));
    // what is there goes on working
    assert_eq!(db.insert(&[1], &[1]), Ok(None));
    assert_eq!(db.get_by_branch(&[1], BranchName(b"last")), Some(vec![1]));
    // the taken name is still reported first
    assert_eq!(db.version_create(VersionName(b"last")), Err(VsError::VersionExists));
    assert_eq!(db.branch_create(BranchName(b"last")), Err(VsError::BranchExists));
}

#[test]
fn rebase_by_names() {
    let mut db = MapxRawVs::new();
    db.version_create(VersionName(b"v1")).unwrap();
    db.insert(&[1], &[1]).unwrap();
    db.version_create(VersionName(b"v2")).unwrap();
    db.insert(&[1], &[2]).unwrap();
    assert!(db.branch_owns_after(MAIN, VersionName(b"v1")));
    assert!(db.branch_owns_after(BranchName(b"nobody"), VersionName(b"v1")));
    assert_eq!(db.version_rebase_by_branch(VersionName(b"v1"), MAIN), Ok(()));
    assert_eq!(db.get(&[1]), Some(vec![2]));
    assert!(!db.version_exists_globally(VersionName(b"v2")));
    assert_eq!(db.checksum_get(), db.checksum_get_by_branch_version(MAIN, VersionName(b"v1")));
    assert_eq!(db.checksum_get_by_branch(BranchName(b"nobody")), None);
    assert!(db.checksum_get_by_branch(MAIN).is_some());
    assert!(db.branch_has_versions(MAIN));
    assert_eq!(db.branch_is_empty(MAIN), Ok(false));
    let copy = db.clone();
    assert_eq!(copy.get(&[1]), Some(vec![2]));
    assert!(MapxRawVs::default().is_empty());
}
