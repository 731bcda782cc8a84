use vsdb::common::{BranchName, KeyBound, ParentBranchName, VersionName, VsError};
use vsdb::versioned::mapx_raw::MapxRawVs;

const MAIN: BranchName<'static> = BranchName(b"main");
const DEV: BranchName<'static> = BranchName(b"dev");

fn all_pairs(db: &MapxRawVs, branch: BranchName) -> Vec<(Vec<u8>, Vec<u8>)> {
    let mut it = db.iter_by_branch(branch);
    let mut out = Vec::new();
    while let Some(kv) = it.next() {
        out.push(kv);
    }
    out
}

#[test]
fn insert_then_get_gives_the_value() {
    let mut db = MapxRawVs::new();
    db.version_create(VersionName(b"v1")).unwrap();
    db.insert(b"key", b"value").unwrap();
    assert_eq!(db.get(b"key"), Some(b"value".to_vec()));
    assert!(db.contains_key(b"key"));
    assert!(!db.contains_key(b"other"));
}

#[test]
fn empty_value_is_a_tombstone() {
    let mut db = MapxRawVs::new();
    db.version_create(VersionName(b"v1")).unwrap();
    db.insert(&[1], &[9]).unwrap();
    assert_eq!(db.insert(&[1], &[]).unwrap(), Some(vec![9]));
    assert_eq!(db.get(&[1]), None);
    assert_eq!(db.len(), 0);
    assert!(db.is_empty());
}

#[test]
fn removing_a_missing_key_writes_nothing() {
    let mut db = MapxRawVs::new();
    db.version_create(VersionName(b"v1")).unwrap();
    assert_eq!(db.remove(&[1]).unwrap(), None);
    assert_eq!(db.version_has_change_set(VersionName(b"v1")), Ok(false));
    db.insert(&[1], &[1]).unwrap();
    assert_eq!(db.version_has_change_set(VersionName(b"v1")), Ok(true));
}

#[test]
fn remove_hides_the_key_and_keeps_the_older_version() {
    let mut db = MapxRawVs::new();
    db.version_create(VersionName(b"v1")).unwrap();
    db.insert(&[1], &[9]).unwrap();
    db.version_create(VersionName(b"v2")).unwrap();
    assert_eq!(db.remove(&[1]).unwrap(), Some(vec![9]));
    assert_eq!(db.get(&[1]), None);
    assert_eq!(db.get_by_branch_version(&[1], MAIN, VersionName(b"v1")), Some(vec![9]));
    assert_eq!(db.get_by_branch_version(&[1], MAIN, VersionName(b"v2")), None);
}

#[test]
fn second_insert_wins_and_first_version_keeps_its_value() {
    let mut db = MapxRawVs::new();
    db.version_create(VersionName(b"v1")).unwrap();
    db.insert(&[7], &[1]).unwrap();
    db.version_create(VersionName(b"v2")).unwrap();
    assert_eq!(db.insert(&[7], &[2]).unwrap(), Some(vec![1]));
    assert_eq!(db.get(&[7]), Some(vec![2]));
    assert_eq!(db.get_by_branch_version(&[7], MAIN, VersionName(b"v1")), Some(vec![1]));
    assert_eq!(db.get_by_branch_version(&[7], MAIN, VersionName(b"v2")), Some(vec![2]));
}

#[test]
fn new_branch_reads_what_its_base_read() {
    let mut db = MapxRawVs::new();
    db.version_create(VersionName(b"v1")).unwrap();
    db.insert(&[1], &[1]).unwrap();
    db.insert(&[2], &[2]).unwrap();
    db.version_create(VersionName(b"v2")).unwrap();
    db.insert(&[1], &[11]).unwrap();
    db.remove(&[2]).unwrap();
    db.branch_create_by_base_branch_version(DEV, ParentBranchName(b"main"), VersionName(b"v1"))
        .unwrap();
    assert_eq!(db.get_by_branch(&[1], DEV), Some(vec![1]));
    assert_eq!(db.get_by_branch(&[2], DEV), Some(vec![2]));
    assert_eq!(all_pairs(&db, DEV), vec![(vec![1], vec![1]), (vec![2], vec![2])]);
    assert_eq!(all_pairs(&db, MAIN), vec![(vec![1], vec![11])]);
    // off the head
    db.branch_create(BranchName(b"head")).unwrap();
    assert_eq!(all_pairs(&db, BranchName(b"head")), all_pairs(&db, MAIN));
}

#[test]
fn writes_on_a_branch_stay_on_it() {
    let mut db = MapxRawVs::new();
    db.version_create(VersionName(b"v1")).unwrap();
    db.insert(&[1], &[1]).unwrap();
    db.branch_create(DEV).unwrap();
    db.version_create_by_branch(VersionName(b"d1"), DEV).unwrap();
    db.insert_by_branch(&[1], &[2], DEV).unwrap();
    db.insert_by_branch(&[3], &[3], DEV).unwrap();
    db.remove_by_branch(&[1], DEV).unwrap();
    assert_eq!(db.get(&[1]), Some(vec![1]));
    assert_eq!(db.get(&[3]), None);
    assert_eq!(all_pairs(&db, MAIN), vec![(vec![1], vec![1])]);
    assert_eq!(all_pairs(&db, DEV), vec![(vec![3], vec![3])]);
    // and the other way round
    db.version_create(VersionName(b"v2")).unwrap();
    db.insert(&[4], &[4]).unwrap();
    assert_eq!(db.get_by_branch(&[4], DEV), None);
}

#[test]
fn merge_moves_no_value() {
    let mut db = MapxRawVs::new();
    db.version_create(VersionName(b"v1")).unwrap();
    db.insert(&[1], &[1]).unwrap();
    db.insert(&[2], &[2]).unwrap();
    db.branch_create(DEV).unwrap();
    db.version_create_by_branch(VersionName(b"d1"), DEV).unwrap();
    db.insert_by_branch(&[1], &[10], DEV).unwrap();
    db.branch_merge_to(DEV, MAIN).unwrap();
    // key 2 still lands on v1
    assert_eq!(db.get(&[2]), Some(vec![2]));
    assert_eq!(db.get(&[1]), Some(vec![10]));
    let names: Vec<Vec<u8>> = db.version_list().unwrap().into_iter().map(|n| n.0).collect();
    assert_eq!(names, vec![b"v1".to_vec(), b"d1".to_vec()]);
    // merging again changes nothing
    db.branch_merge_to(DEV, MAIN).unwrap();
    let again: Vec<Vec<u8>> = db.version_list().unwrap().into_iter().map(|n| n.0).collect();
    assert_eq!(again, names);
}

#[test]
fn merge_into_an_empty_branch_takes_everything() {
    let mut db = MapxRawVs::new();
    db.branch_create(DEV).unwrap();
    db.version_create(VersionName(b"v1")).unwrap();
    db.insert(&[1], &[1]).unwrap();
    db.version_create(VersionName(b"v2")).unwrap();
    db.branch_merge_to(MAIN, DEV).unwrap();
    assert_eq!(db.get_by_branch(&[1], DEV), Some(vec![1]));
    assert!(db.version_exists_on_branch(VersionName(b"v2"), DEV));
}

#[test]
fn prune_keeps_what_the_heads_read() {
    let mut db = MapxRawVs::new();
    db.version_create(VersionName(b"v1")).unwrap();
    db.insert(&[1], &[1]).unwrap();
    db.insert(&[2], &[1]).unwrap();
    db.version_create(VersionName(b"v2")).unwrap();
    db.insert(&[2], &[2]).unwrap();
    db.remove(&[1]).unwrap();
    db.version_create(VersionName(b"v3")).unwrap();
    db.insert(&[3], &[3]).unwrap();
    db.branch_create(DEV).unwrap();
    db.version_create_by_branch(VersionName(b"d1"), DEV).unwrap();
    db.insert_by_branch(&[4], &[4], DEV).unwrap();
    db.version_create(VersionName(b"v4")).unwrap();
    db.insert(&[3], &[33]).unwrap();
    let main_before = all_pairs(&db, MAIN);
    let dev_before = all_pairs(&db, DEV);
    assert_eq!(db.prune(Some(1)), Ok(()));
    assert_eq!(all_pairs(&db, MAIN), main_before);
    assert_eq!(all_pairs(&db, DEV), dev_before);
    assert!(!db.version_exists_globally(VersionName(b"v1")));
    assert!(!db.version_exists_globally(VersionName(b"v2")));
    assert!(db.version_exists_globally(VersionName(b"v3")));
    // key 1 was deleted in a pruned version: the tombstone is carried over
    assert_eq!(db.get_by_branch_version(&[1], MAIN, VersionName(b"v3")), None);
    assert_eq!(db.get_by_branch_version(&[2], MAIN, VersionName(b"v3")), Some(vec![2]));
    // pruning again changes nothing
    assert_eq!(db.prune(Some(1)), Ok(()));
    assert_eq!(all_pairs(&db, MAIN), main_before);
    assert_eq!(all_pairs(&db, DEV), dev_before);
    let names: Vec<Vec<u8>> = db.version_list().unwrap().into_iter().map(|n| n.0).collect();
    assert_eq!(names, vec![b"v3".to_vec(), b"v4".to_vec()]);
}

#[test]
fn prune_with_the_default_number_keeps_ten() {
    let mut db = MapxRawVs::new();
    for i in 0..12u8 {
        db.version_create(VersionName(&[b'v', i])).unwrap();
        db.insert(&[i], &[i + 1]).unwrap();
    }
    assert_eq!(db.prune(None), Ok(()));
    assert_eq!(db.version_list().unwrap().len(), 10);
    assert_eq!(db.len(), 12);
    assert_eq!(db.get(&[0]), Some(vec![1]));
}

#[test]
fn prune_leaves_a_short_prefix_alone() {
    let mut db = MapxRawVs::new();
    db.version_create(VersionName(b"v1")).unwrap();
    db.insert(&[1], &[1]).unwrap();
    db.version_create(VersionName(b"v2")).unwrap();
    assert_eq!(db.prune(Some(2)), Ok(()));
    assert_eq!(db.version_list().unwrap().len(), 2);
    assert_eq!(db.prune(Some(5)), Ok(()));
    assert_eq!(db.version_list().unwrap().len(), 2);
}

#[test]
fn clean_up_takes_orphans_only() {
    let mut db = MapxRawVs::new();
    db.version_create(VersionName(b"v1")).unwrap();
    db.insert(&[1], &[1]).unwrap();
    db.version_create(VersionName(b"v2")).unwrap();
    db.insert(&[1], &[2]).unwrap();
    db.insert(&[2], &[2]).unwrap();
    db.version_pop().unwrap();
    assert!(db.version_exists_globally(VersionName(b"v2")));
    assert!(!db.version_exists(VersionName(b"v2")));
    let before = all_pairs(&db, MAIN);
    assert_eq!(before, vec![(vec![1], vec![1])]);
    db.version_clean_up_globally();
    assert!(!db.version_exists_globally(VersionName(b"v2")));
    assert!(db.version_exists_globally(VersionName(b"v1")));
    assert_eq!(all_pairs(&db, MAIN), before);
    // the name is free again
    db.version_create(VersionName(b"v2")).unwrap();
    assert_eq!(db.get(&[2]), None);
}

#[test]
fn swapping_twice_changes_nothing() {
    let mut db = MapxRawVs::new();
    db.version_create(VersionName(b"v1")).unwrap();
    db.insert(&[1], &[1]).unwrap();
    db.branch_create(DEV).unwrap();
    db.version_create_by_branch(VersionName(b"d1"), DEV).unwrap();
    db.insert_by_branch(&[1], &[2], DEV).unwrap();
    db.branch_swap(MAIN, DEV).unwrap();
    assert_eq!(db.get_by_branch(&[1], MAIN), Some(vec![2]));
    assert_eq!(db.get_by_branch(&[1], DEV), Some(vec![1]));
    // the default branch keeps its name, and with it goes what the name stands for
    assert_eq!(db.branch_get_default().0, b"main".to_vec());
    assert_eq!(db.get(&[1]), Some(vec![2]));
    db.branch_swap(MAIN, DEV).unwrap();
    assert_eq!(db.get_by_branch(&[1], MAIN), Some(vec![1]));
    assert_eq!(db.get_by_branch(&[1], DEV), Some(vec![2]));
    assert_eq!(db.branch_get_default().0, b"main".to_vec());
}

#[test]
fn a_branch_is_removed_once() {
    let mut db = MapxRawVs::new();
    db.branch_create(DEV).unwrap();
    assert_eq!(db.branch_remove(DEV), Ok(()));
    assert_eq!(db.branch_remove(DEV), Err(VsError::BranchNotFound));
    assert!(!db.branch_exists(DEV));
}

#[test]
fn nearest_keys() {
    let mut db = MapxRawVs::new();
    db.version_create(VersionName(b"v1")).unwrap();
    db.insert(&[2], &[20]).unwrap();
    db.insert(&[4], &[40]).unwrap();
    db.insert(&[6], &[60]).unwrap();
    db.remove(&[4]).unwrap();
    assert_eq!(db.get_ge(&[2]), Some((vec![2], vec![20])));
    assert_eq!(db.get_ge(&[3]), Some((vec![6], vec![60])));
    assert_eq!(db.get_ge(&[7]), None);
    assert_eq!(db.get_le(&[6]), Some((vec![6], vec![60])));
    assert_eq!(db.get_le(&[5]), Some((vec![2], vec![20])));
    assert_eq!(db.get_le(&[1]), None);
    assert_eq!(db.get_ge_by_branch(&[0], BranchName(b"nowhere")), None);
    assert_eq!(db.get_le_by_branch_version(&[9], MAIN, VersionName(b"nothing")), None);
}

#[test]
fn bounds_of_a_range() {
    let mut db = MapxRawVs::new();
    db.version_create(VersionName(b"v1")).unwrap();
    for k in [1u8, 2, 3, 4] {
        db.insert(&[k], &[k]).unwrap();
    }
    db.insert(&[2, 0], &[20]).unwrap();
    let keys = |lo: KeyBound, hi: KeyBound| {
        let mut it = db.range(lo, hi);
        let mut out = Vec::new();
        while let Some((k, _)) = it.next() {
            out.push(k);
        }
        out
    };
    assert_eq!(keys(KeyBound::Included(&[2]), KeyBound::Excluded(&[4])), vec![vec![2], vec![2, 0], vec![3]]);
    assert_eq!(keys(KeyBound::Excluded(&[2]), KeyBound::Included(&[4])), vec![vec![2, 0], vec![3], vec![4]]);
    assert_eq!(keys(KeyBound::Unbounded, KeyBound::Included(&[1])), vec![vec![1]]);
    assert_eq!(keys(KeyBound::Excluded(&[4]), KeyBound::Unbounded), Vec::<Vec<u8>>::new());
    assert_eq!(keys(KeyBound::Included(&[3]), KeyBound::Included(&[2])), Vec::<Vec<u8>>::new());
    assert_eq!(keys(KeyBound::Unbounded, KeyBound::Unbounded).len(), 5);
    // from both ends at once
    let mut it = db.range_ref(KeyBound::Unbounded, KeyBound::Unbounded);
    assert_eq!(it.next().unwrap().0, vec![1]);
    assert_eq!(it.next_back().unwrap().0, vec![4]);
    assert_eq!(it.next_back().unwrap().0, vec![3]);
    assert_eq!(it.next().unwrap().0, vec![2]);
    assert_eq!(it.next().unwrap().0, vec![2, 0]);
    assert_eq!(it.next(), None);
    assert_eq!(it.next_back(), None);
}

#[test]
fn unknown_names_see_nothing() {
    let mut db = MapxRawVs::new();
    db.version_create(VersionName(b"v1")).unwrap();
    db.insert(&[1], &[1]).unwrap();
    let nobody = BranchName(b"nobody");
    assert_eq!(db.get_by_branch(&[1], nobody), None);
    assert_eq!(db.get_by_branch_version(&[1], MAIN, VersionName(b"no")), None);
    assert_eq!(db.len_by_branch(nobody), 0);
    assert_eq!(db.len_by_branch_version(MAIN, VersionName(b"no")), 0);
    assert!(db.is_empty_by_branch(nobody));
    assert!(db.is_empty_by_branch_version(MAIN, VersionName(b"no")));
    assert!(!db.is_empty_by_branch_version(MAIN, VersionName(b"v1")));
    assert!(db.iter_by_branch(nobody).next().is_none());
    assert!(db.iter_by_branch_version(MAIN, VersionName(b"no")).next_back().is_none());
    assert!(!db.contains_key_by_branch(&[1], nobody));
    assert!(db.contains_key_by_branch_version(&[1], MAIN, VersionName(b"v1")));
}
