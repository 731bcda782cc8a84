use vsdb::common::ende::KeyEnDeOrdered;
use vsdb::common::{BranchName, ParentBranchName, VersionName, VsError};
use vsdb::versioned::mapx_raw::backend;
use vsdb::versioned::mapx_raw::MapxRawVs;

const MAIN: BranchName<'static> = BranchName(b"main");

#[test]
fn branch_not_found() {
    let mut db = MapxRawVs::new();
    let nobody = BranchName(b"nobody");
    assert_eq!(db.insert_by_branch(&[1], &[1], nobody), Err(VsError::BranchNotFound));
    assert_eq!(db.remove_by_branch(&[1], nobody), Err(VsError::BranchNotFound));
    assert_eq!(db.version_create_by_branch(VersionName(b"v"), nobody), Err(VsError::BranchNotFound));
    assert_eq!(db.version_pop_by_branch(nobody), Err(VsError::BranchNotFound));
    assert_eq!(db.branch_pop_version(nobody), Err(VsError::BranchNotFound));
    assert_eq!(db.branch_truncate(nobody), Err(VsError::BranchNotFound));
    assert_eq!(db.branch_truncate_to(nobody, VersionName(b"v")), Err(VsError::BranchNotFound));
    assert_eq!(db.branch_remove(nobody), Err(VsError::BranchNotFound));
    assert_eq!(db.branch_set_default(nobody), Err(VsError::BranchNotFound));
    assert_eq!(db.branch_merge_to(nobody, MAIN), Err(VsError::BranchNotFound));
    assert_eq!(db.branch_merge_to(MAIN, nobody), Err(VsError::BranchNotFound));
    assert_eq!(db.branch_swap(MAIN, nobody), Err(VsError::BranchNotFound));
    assert_eq!(
        db.branch_create_by_base_branch(BranchName(b"x"), ParentBranchName(b"nobody")),
        Err(VsError::BranchNotFound)
    );
    assert_eq!(db.branch_is_empty(nobody), Err(VsError::BranchNotFound));
    assert!(db.version_list_by_branch(nobody).is_err());
    assert!(!db.branch_exists(BranchName(b"x")));
}

#[test]
fn version_not_found() {
    let mut db = MapxRawVs::new();
    db.version_create(VersionName(b"v1")).unwrap();
    assert_eq!(db.branch_truncate_to(MAIN, VersionName(b"v9")), Err(VsError::VersionNotFound));
    assert_eq!(db.version_revert_globally(VersionName(b"v9")), Err(VsError::VersionNotFound));
    assert_eq!(db.version_rebase(VersionName(b"v9")), Err(VsError::VersionNotFound));
    assert_eq!(db.version_has_change_set(VersionName(b"v9")), Err(VsError::VersionNotFound));
    assert_eq!(
        db.branch_create_by_base_branch_version(
            BranchName(b"x"),
            ParentBranchName(b"main"),
            VersionName(b"v9")
        ),
        Err(VsError::VersionNotFound)
    );
    // a version that exists, on another branch
    db.branch_create(BranchName(b"dev")).unwrap();
    db.version_create_by_branch(VersionName(b"d1"), BranchName(b"dev")).unwrap();
    assert_eq!(
        db.branch_create_by_base_branch_version(
            BranchName(b"x"),
            ParentBranchName(b"main"),
            VersionName(b"d1")
        ),
        Err(VsError::VersionNotFound)
    );
    assert_eq!(
        db.version_rebase_by_branch(VersionName(b"d1"), MAIN),
        Err(VsError::VersionNotFound)
    );
    assert!(!db.branch_exists(BranchName(b"x")));
}

#[test]
fn branch_exists() {
    let mut db = MapxRawVs::new();
    db.branch_create(BranchName(b"dev")).unwrap();
    assert_eq!(db.branch_create(BranchName(b"dev")), Err(VsError::BranchExists));
    assert_eq!(db.branch_create(MAIN), Err(VsError::BranchExists));
}

#[test]
fn version_exists() {
    let mut db = MapxRawVs::new();
    db.version_create(VersionName(b"v1")).unwrap();
    assert_eq!(db.version_create(VersionName(b"v1")), Err(VsError::VersionExists));
    // version names are unique over all branches
    db.branch_create(BranchName(b"dev")).unwrap();
    assert_eq!(
        db.version_create_by_branch(VersionName(b"v1"), BranchName(b"dev")),
        Err(VsError::VersionExists)
    );
}

#[test]
fn no_current_version() {
    let mut db = MapxRawVs::new();
    assert_eq!(db.insert(&[2], &[7]), Err(VsError::NoCurrentVersion));
    db.branch_create(BranchName(b"dev")).unwrap();
    assert_eq!(
        db.insert_by_branch(&[2], &[7], BranchName(b"dev")),
        Err(VsError::NoCurrentVersion)
    );
}

#[test]
fn merge_unsafe() {
    let mut db = MapxRawVs::new();
    db.version_create(VersionName(b"v1")).unwrap();
    db.branch_create(BranchName(b"dev")).unwrap();
    db.version_create(VersionName(b"v2")).unwrap();
    assert_eq!(db.branch_merge_to(BranchName(b"dev"), MAIN), Err(VsError::MergeUnsafe));
    // the other way round the target has not moved
    assert_eq!(db.branch_merge_to(MAIN, BranchName(b"dev")), Ok(()));
}

#[test]
fn prune_zero() {
    let mut db = MapxRawVs::new();
    db.version_create(VersionName(b"v1")).unwrap();
    db.version_create(VersionName(b"v2")).unwrap();
    db.version_pop().unwrap();
    assert_eq!(db.prune(Some(0)), Err(VsError::PruneZero));
    // the clean-up has run all the same
    assert!(!db.version_exists_globally(VersionName(b"v2")));
    assert!(db.version_exists(VersionName(b"v1")));
}

#[test]
fn backend_failure() {
    let mut db = MapxRawVs::starting_at(u64::MAX, u64::MAX).unwrap();
    assert_eq!(db.version_create(VersionName(b"v")), Err(VsError::BackendFailure));
    assert_eq!(db.branch_create(BranchName(b"b")), Err(VsError::BackendFailure));
    assert_eq!(db.branch_list().len(), 1);
    assert_eq!(db.version_list().unwrap().len(), 0);
}

#[test]
fn invalid_arg() {
    let mut db = MapxRawVs::new();
    assert_eq!(db.branch_remove(MAIN), Err(VsError::InvalidArg));
    assert!(db.branch_exists(MAIN));
    assert!(MapxRawVs::starting_at(0, 0).is_err());
    assert_eq!(<u64 as KeyEnDeOrdered>::from_slice(&[1, 2, 3]), Err(VsError::InvalidArg));
    assert_eq!(<u64 as KeyEnDeOrdered>::from_bytes(vec![0; 9]), Err(VsError::InvalidArg));
    assert_eq!(<u64 as KeyEnDeOrdered>::from_slice(&[0, 0, 0, 0, 0, 0, 1, 2]), Ok(258));
}

#[test]
fn branch_creation_refuses_in_order() {
    let mut db = backend::MapxRawVs::new();
    db.version_create(b"v1").unwrap();
    let main = db.branch_get_default();
    // the name is taken
    assert_eq!(db.branch_create(b"main", b"v2", false), Err(VsError::BranchExists));
    // the version name is taken
    assert_eq!(db.branch_create(b"dev", b"v1", false), Err(VsError::VersionExists));
    // the base is unknown
    assert_eq!(
        db.branch_create_by_base_branch(b"dev", b"v2", 77, false),
        Err(VsError::BranchNotFound)
    );
    // the base version is not on the base
    assert_eq!(
        db.branch_create_by_base_branch_version(b"dev", b"v2", main, 77, false),
        Err(VsError::VersionNotFound)
    );
    assert_eq!(db.branch_list().len(), 1);
    assert_eq!(db.branch_create(b"dev", b"v2", false), Ok(()));
    let dev = db.branch_get_id_by_name(BranchName(b"dev")).unwrap();
    assert!(db.version_exists_on_branch(db.version_get_id_by_name(VersionName(b"v1")).unwrap(), dev));
    assert!(db.version_exists_on_branch(db.version_get_id_by_name(VersionName(b"v2")).unwrap(), dev));
    // forced, a branch of the same name makes room
    assert_eq!(db.branch_create(b"dev", b"v3", true), Ok(()));
    let dev2 = db.branch_get_id_by_name(BranchName(b"dev")).unwrap();
    assert!(dev2 > dev);
    assert!(!db.branch_exists(dev));
    assert!(!db.version_exists_on_branch(db.version_get_id_by_name(VersionName(b"v2")).unwrap(), dev2));
}
