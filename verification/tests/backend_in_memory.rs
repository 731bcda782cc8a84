use vsdb::basic::mapx_raw::MapxRaw;
use vsdb::common::engines::mem::MemEngine;
use vsdb::common::KeyBound;

const FIRST: [u8; 8] = [0, 0, 0, 0, 0, 0, 0, 7];
const SECOND: [u8; 8] = [0, 0, 0, 0, 0, 0, 0, 8];
// lies in another area
const ELSEWHERE: [u8; 8] = [1, 0, 0, 0, 0, 0, 0, 1];

#[test]
fn maps_are_kept_apart_by_their_prefixes() {
    let mut e = MemEngine::new();
    assert_eq!(e.area_count(), 8);
    assert_eq!(e.insert(FIRST, &[1], &[10]), None);
    assert_eq!(e.insert(SECOND, &[1], &[20]), None);
    assert_eq!(e.insert(ELSEWHERE, &[1], &[30]), None);
    assert_eq!(e.insert(FIRST, &[1], &[11]), Some(vec![10]));
    assert_eq!(e.get(FIRST, &[1]), Some(vec![11]));
    assert_eq!(e.get(SECOND, &[1]), Some(vec![20]));
    assert_eq!(e.get(ELSEWHERE, &[1]), Some(vec![30]));
    assert_eq!(e.get(FIRST, &[2]), None);
    assert_eq!(e.remove(SECOND, &[1]), Some(vec![20]));
    assert_eq!(e.remove(SECOND, &[1]), None);
    assert_eq!(e.get(FIRST, &[1]), Some(vec![11]));
    assert_eq!(e.iter(SECOND), vec![]);
    assert_eq!(e.iter(FIRST), vec![(vec![1], vec![11])]);
    e.flush();
}

#[test]
fn range_of_one_map() {
    let mut e = MemEngine::new();
    for k in [vec![1u8], vec![2], vec![2, 0], vec![3], vec![255, 255]] {
        e.insert(FIRST, &k, &k).unwrap_or_default();
    }
    // neighbours on both sides
    e.insert([0, 0, 0, 0, 0, 0, 0, 6], &[9], &[9]);
    e.insert(SECOND, &[0], &[0]);
    e.insert(SECOND, &[], &[1]);
    let keys = |lo: KeyBound, hi: KeyBound| -> Vec<Vec<u8>> {
        e.range(FIRST, lo, hi).into_iter().map(|(k, _)| k).collect()
    };
    assert_eq!(
        keys(KeyBound::Unbounded, KeyBound::Unbounded),
        vec![vec![1], vec![2], vec![2, 0], vec![3], vec![255, 255]]
    );
    assert_eq!(keys(KeyBound::Included(&[2]), KeyBound::Included(&[3])), vec![vec![2], vec![2, 0], vec![3]]);
    assert_eq!(keys(KeyBound::Excluded(&[2]), KeyBound::Excluded(&[3])), vec![vec![2, 0]]);
    assert_eq!(keys(KeyBound::Excluded(&[3]), KeyBound::Unbounded), vec![vec![255, 255]]);
    assert_eq!(keys(KeyBound::Unbounded, KeyBound::Excluded(&[1])), Vec::<Vec<u8>>::new());
    assert_eq!(keys(KeyBound::Included(&[3]), KeyBound::Included(&[2])), Vec::<Vec<u8>>::new());
    let values: Vec<Vec<u8>> = e.iter(SECOND).into_iter().map(|(_, v)| v).collect();
    assert_eq!(values, vec![vec![1], vec![0]]);
}

#[test]
fn allocators_count_up() {
    let mut e = MemEngine::new();
    assert_eq!(e.alloc_prefix(), Some(257));
    assert_eq!(e.alloc_prefix(), Some(258));
    assert_eq!(e.alloc_br_id(), Some(256));
    assert_eq!(e.alloc_ver_id(), Some(256));
    assert_eq!(e.alloc_ver_id(), Some(257));
    assert_eq!(e.alloc_br_id(), Some(257));
    assert_eq!(e.alloc_prefix(), Some(259));
    assert_eq!(e.get_instance_len(FIRST), None);
    e.set_instance_len(FIRST, 5);
    assert_eq!(e.get_instance_len(FIRST), Some(5));
    assert_eq!(e.get_instance_len(SECOND), None);
    // the prefixes handed out are in use, the next one is not yet
    assert!(e.knows_prefix([0, 0, 0, 0, 0, 0, 1, 3]));
    assert!(!e.knows_prefix([0, 0, 0, 0, 0, 0, 1, 4]));
    assert!(e.knows_prefix(FIRST));
}

#[test]
fn raw_map_counts_its_entries() {
    let mut e = MemEngine::new();
    let m = MapxRaw::new(&mut e).unwrap();
    let other = MapxRaw::new(&mut e).unwrap();
    assert_eq!(m.encode(), vec![0, 0, 0, 0, 0, 0, 1, 1]);
    assert_eq!(other.encode(), vec![0, 0, 0, 0, 0, 0, 1, 2]);
    assert!(m.is_empty(&e));
    assert_eq!(m.insert(&mut e, &[1], &[1]), None);
    assert_eq!(m.insert(&mut e, &[2], &[2]), None);
    assert_eq!(m.insert(&mut e, &[1], &[3]), Some(vec![1]));
    assert_eq!(m.len(&e), 2);
    assert_eq!(other.len(&e), 0);
    assert_eq!(m.get(&e, &[1]), Some(vec![3]));
    assert!(m.contains_key(&e, &[2]));
    assert!(!other.contains_key(&e, &[2]));
    assert_eq!(m.remove(&mut e, &[9]), None);
    assert_eq!(m.len(&e), 2);
    assert_eq!(m.remove(&mut e, &[2]), Some(vec![2]));
    assert_eq!(m.len(&e), 1);
    assert_eq!(m.or_insert(&mut e, &[1], &[7]), vec![3]);
    assert_eq!(m.or_insert(&mut e, &[5], &[7]), vec![7]);
    assert_eq!(m.len(&e), 2);
    assert_eq!(m.iter(&e), vec![(vec![1], vec![3]), (vec![5], vec![7])]);
    assert_eq!(m.range(&e, KeyBound::Excluded(&[1]), KeyBound::Unbounded), vec![(vec![5], vec![7])]);
    other.insert(&mut e, &[1], &[1]);
    m.clear(&mut e);
    assert_eq!(m.len(&e), 0);
    assert!(m.is_empty(&e));
    assert_eq!(m.iter(&e), vec![]);
    assert_eq!(other.len(&e), 1);
}

#[test]
fn a_raw_map_stored_as_a_value_stands_for_the_same_entries() {
    let mut e = MemEngine::new();
    let outer = MapxRaw::new(&mut e).unwrap();
    let inner = MapxRaw::new(&mut e).unwrap();
    outer.insert(&mut e, b"inner", &inner.encode());
    inner.insert(&mut e, &[1], &[1]);
    let read_back = MapxRaw::decode(&outer.get(&e, b"inner").unwrap()).unwrap();
    assert_eq!(read_back.get(&e, &[1]), Some(vec![1]));
    // what is written through the handle that was read back is seen through the first
    read_back.insert(&mut e, &[2], &[2]);
    assert_eq!(inner.len(&e), 2);
    assert_eq!(inner.shadow().get(&e, &[2]), Some(vec![2]));
    assert!(MapxRaw::decode(&[1, 2, 3]).is_none());
    assert!(MapxRaw::decode(&[0; 9]).is_none());
}
