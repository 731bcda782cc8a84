use vsdb::basic::mapx_ord::MapxOrd;
use vsdb::basic::ord_key::{copy_bytes, rank_bytes, OrdKey, Rank};
use vsdb::common::checksum::{feed, feed_pair, feed_string, PRIME, SEED};
use vsdb::common::ende::{u64_from_be_bytes, u64_to_be_bytes, KeyEnDeOrdered};
use vsdb::common::engines::layout::{
    alloc_from_cell, area_count, area_idx, cache_capacity, full_key, get_upper_bound_value,
    initial_cell, observe_keylen, range_lower, range_upper, strip_prefix, GB, INITIAL_ID,
    INITIAL_PREFIX,
};
use vsdb::common::{check_bounds, KeyBound, VsError};

#[test]
fn bytes_are_ranked_lexicographically() {
    assert_eq!(rank_bytes(&[], &[]), Rank::Same);
    assert_eq!(rank_bytes(&[], &[0]), Rank::Before);
    assert_eq!(rank_bytes(&[0], &[]), Rank::After);
    assert_eq!(rank_bytes(&[1, 2], &[1, 2]), Rank::Same);
    assert_eq!(rank_bytes(&[1, 2], &[1, 2, 0]), Rank::Before);
    assert_eq!(rank_bytes(&[1, 3], &[1, 2, 9]), Rank::After);
    assert_eq!(rank_bytes(&[0, 255], &[1]), Rank::Before);
    assert_eq!(vec![2u8].rank(&vec![1u8, 9]), Rank::After);
    assert_eq!(7u64.rank(&7), Rank::Same);
    assert_eq!(7u64.rank(&8), Rank::Before);
    assert_eq!(9u64.rank(&8), Rank::After);
    assert_eq!(copy_bytes(&[1, 2, 3]), vec![1, 2, 3]);
    assert_eq!(vec![4u8, 5].dup(), vec![4, 5]);
}

#[test]
fn ordered_map_keeps_its_keys_in_order() {
    let mut m: MapxOrd<Vec<u8>, u32> = MapxOrd::new();
    assert!(m.is_empty());
    assert_eq!(m.insert(vec![2], 20), None);
    assert_eq!(m.insert(vec![1], 10), None);
    assert_eq!(m.insert(vec![3], 30), None);
    assert_eq!(m.insert(vec![1, 0], 100), None);
    assert_eq!(m.insert(vec![2], 21), Some(20));
    assert_eq!(m.len(), 4);
    let keys: Vec<Vec<u8>> = m.key_list();
    assert_eq!(keys, vec![vec![1], vec![1, 0], vec![2], vec![3]]);
    assert_eq!(m.get(&vec![2]), Some(&21));
    assert_eq!(m.get(&vec![4]), None);
    assert!(m.contains_key(&vec![1, 0]));
    assert_eq!(m.find(&vec![3]), Some(3));
    assert_eq!(m.find(&vec![0]), None);
    assert_eq!(m.lower_bound(&vec![2]), 2);
    assert_eq!(m.upper_bound(&vec![2]), 3);
    assert_eq!(m.lower_bound(&vec![1, 5]), 2);
    assert_eq!(m.upper_bound(&vec![1, 5]), 2);
    assert_eq!(m.lower_bound(&vec![9]), 4);
    assert_eq!(m.key_at(1), &vec![1, 0]);
    assert_eq!(m.value_at(1), &100);
    *m.value_mut(1) = 101;
    assert_eq!(m.get(&vec![1, 0]), Some(&101));
    assert_eq!(m.remove(&vec![1]), Some(10));
    assert_eq!(m.remove(&vec![1]), None);
    assert_eq!(m.len(), 3);
    m.drop_front(1);
    assert_eq!(m.key_list(), vec![vec![2], vec![3]]);
    m.truncate(1);
    assert_eq!(m.key_list(), vec![vec![2]]);
    m.clear();
    assert_eq!(m.len(), 0);
}

#[test]
fn big_endian_bytes() {
    assert_eq!(u64_to_be_bytes(0), [0; 8]);
    assert_eq!(u64_to_be_bytes(1), [0, 0, 0, 0, 0, 0, 0, 1]);
    assert_eq!(u64_to_be_bytes(0x0102_0304_0506_0708), [1, 2, 3, 4, 5, 6, 7, 8]);
    assert_eq!(u64_to_be_bytes(u64::MAX), [255; 8]);
    assert_eq!(u64_from_be_bytes(&[1, 2, 3, 4, 5, 6, 7, 8]), 0x0102_0304_0506_0708);
    assert_eq!(u64_from_be_bytes(&[255; 8]), u64::MAX);
    for x in [0u64, 1, 255, 256, 65_535, 65_536, 1 << 40, u64::MAX - 1] {
        assert_eq!(u64_from_be_bytes(&u64_to_be_bytes(x)), x);
        assert_eq!(u64_to_be_bytes(x), x.to_be_bytes());
        // order of the numbers, order of the bytes
        assert_eq!(rank_bytes(&u64_to_be_bytes(x), &u64_to_be_bytes(x + 1)), Rank::Before);
    }
    assert_eq!(300u64.to_bytes(), vec![0, 0, 0, 0, 0, 0, 1, 44]);
    assert_eq!(300u64.into_bytes(), vec![0, 0, 0, 0, 0, 0, 1, 44]);
    assert_eq!(<u64 as KeyEnDeOrdered>::from_bytes(vec![0, 0, 0, 0, 0, 0, 1, 44]), Ok(300));
    assert_eq!(vec![7u8, 8].to_bytes(), vec![7, 8]);
    assert_eq!(vec![7u8, 8].into_bytes(), vec![7, 8]);
    assert_eq!(<Vec<u8> as KeyEnDeOrdered>::from_slice(&[7, 8]), Ok(vec![7, 8]));
    assert_eq!(<Vec<u8> as KeyEnDeOrdered>::from_bytes(vec![]), Ok(vec![]));
}

#[test]
fn keys_in_the_backend() {
    let p = [0, 0, 0, 0, 0, 0, 1, 1];
    assert_eq!(area_count(), 8);
    assert_eq!(area_idx(&p), 0);
    assert_eq!(area_idx(&[13, 0, 0, 0, 0, 0, 0, 0]), 5);
    assert_eq!(area_idx(&[255, 0, 0, 0, 0, 0, 0, 0]), 7);
    assert_eq!(full_key(&p, &[9, 8]), vec![0, 0, 0, 0, 0, 0, 1, 1, 9, 8]);
    assert_eq!(full_key(&p, &[]), p.to_vec());
    assert_eq!(strip_prefix(&[0, 0, 0, 0, 0, 0, 1, 1, 9, 8]), vec![9, 8]);
    assert_eq!(strip_prefix(&p), Vec::<u8>::new());
    assert_eq!(get_upper_bound_value(&p, 0), p.to_vec());
    assert_eq!(get_upper_bound_value(&p, 3), vec![0, 0, 0, 0, 0, 0, 1, 1, 255, 255, 255]);
    assert_eq!(get_upper_bound_value(&p, 600).len(), 608);
}

#[test]
fn ends_of_a_range_in_the_backend() {
    let p = [0, 0, 0, 0, 0, 0, 1, 1];
    let with = |tail: &[u8]| {
        let mut k = p.to_vec();
        k.extend_from_slice(tail);
        k
    };
    assert_eq!(range_lower(&p, KeyBound::Included(&[5])), with(&[5]));
    assert_eq!(range_lower(&p, KeyBound::Excluded(&[5])), with(&[5, 0]));
    assert_eq!(range_lower(&p, KeyBound::Unbounded), with(&[]));
    assert_eq!(range_upper(&p, KeyBound::Included(&[5]), 2), with(&[5, 0]));
    assert_eq!(range_upper(&p, KeyBound::Excluded(&[5]), 2), with(&[5]));
    assert_eq!(range_upper(&p, KeyBound::Unbounded, 2), with(&[255, 255]));
    // what lies between the two ends is what lies within the bounds
    let stored: Vec<Vec<u8>> = vec![with(&[4, 9]), with(&[5]), with(&[5, 0]), with(&[5, 1]), with(&[6])];
    let lo = range_lower(&p, KeyBound::Excluded(&[5]));
    let hi = range_upper(&p, KeyBound::Included(&[5, 1]), 2);
    let hit: Vec<Vec<u8>> =
        stored.iter().filter(|k| **k >= lo && **k < hi).map(|k| strip_prefix(k)).collect();
    assert_eq!(hit, vec![vec![5, 0], vec![5, 1]]);
}

#[test]
fn allocator_steps() {
    assert_eq!(INITIAL_PREFIX, 257);
    assert_eq!(INITIAL_ID, 256);
    assert_eq!(initial_cell(INITIAL_ID), [0, 0, 0, 0, 0, 0, 1, 0]);
    let (id, next) = alloc_from_cell(&initial_cell(INITIAL_PREFIX)).unwrap();
    assert_eq!(id, 257);
    assert_eq!(next, [0, 0, 0, 0, 0, 0, 1, 2]);
    let (id2, next2) = alloc_from_cell(&next).unwrap();
    assert_eq!(id2, 258);
    assert_eq!(u64_from_be_bytes(&next2), 259);
    assert_eq!(alloc_from_cell(&[255; 8]), None);
    let (last, end) = alloc_from_cell(&[255, 255, 255, 255, 255, 255, 255, 254]).unwrap();
    assert_eq!(last, u64::MAX - 1);
    assert_eq!(end, [255; 8]);
    assert_eq!(observe_keylen(3, 5), 5);
    assert_eq!(observe_keylen(5, 3), 5);
    assert_eq!(observe_keylen(0, 0), 0);
}

#[test]
fn cache_capacity_for_parallelism() {
    assert_eq!(cache_capacity(0), GB);
    assert_eq!(cache_capacity(1), GB);
    assert_eq!(cache_capacity(4), GB);
    assert_eq!(cache_capacity(5), GB);
    assert_eq!(cache_capacity(9), GB);
    assert_eq!(cache_capacity(10), 2 * GB);
    assert_eq!(cache_capacity(32), 6 * GB);
    assert_eq!(cache_capacity(60), 12 * GB);
    assert_eq!(cache_capacity(64), 12 * GB);
    assert_eq!(cache_capacity(u32::MAX), 12 * GB);
}

#[test]
fn checksum_steps() {
    assert_eq!(feed(SEED, &[]), SEED);
    assert_eq!(feed(SEED, &[0]), SEED.wrapping_mul(PRIME));
    assert_eq!(feed(SEED, &[b'a']), 0xaf63_dc4c_8601_ec8c);
    assert_eq!(feed(feed(SEED, &[1]), &[2]), feed(SEED, &[1, 2]));
    assert_eq!(feed_string(SEED, &[7]), feed(SEED, &[0, 0, 0, 0, 0, 0, 0, 1, 7]));
    assert_eq!(feed_pair(SEED, &[7], &[]), feed_string(feed_string(SEED, &[7]), &[]));
    // the lengths keep apart what the bytes alone would not
    assert_ne!(feed_pair(SEED, &[1, 2], &[3]), feed_pair(SEED, &[1], &[2, 3]));
}

#[test]
fn malformed_bounds_are_refused() {
    assert_eq!(check_bounds(KeyBound::Included(&[1]), KeyBound::Included(&[2])), Ok(()));
    assert_eq!(check_bounds(KeyBound::Included(&[2]), KeyBound::Included(&[2])), Ok(()));
    assert_eq!(check_bounds(KeyBound::Included(&[2]), KeyBound::Excluded(&[2])), Ok(()));
    assert_eq!(check_bounds(KeyBound::Excluded(&[2]), KeyBound::Included(&[2])), Ok(()));
    assert_eq!(check_bounds(KeyBound::Unbounded, KeyBound::Excluded(&[])), Ok(()));
    assert_eq!(check_bounds(KeyBound::Excluded(&[9]), KeyBound::Unbounded), Ok(()));
    assert_eq!(check_bounds(KeyBound::Unbounded, KeyBound::Unbounded), Ok(()));
    assert_eq!(
        check_bounds(KeyBound::Excluded(&[2]), KeyBound::Excluded(&[2])),
        Err(VsError::InvalidArg)
    );
    assert_eq!(
        check_bounds(KeyBound::Included(&[3]), KeyBound::Included(&[2])),
        Err(VsError::InvalidArg)
    );
    assert_eq!(
        check_bounds(KeyBound::Included(&[2, 0]), KeyBound::Excluded(&[2])),
        Err(VsError::InvalidArg)
    );
    assert_eq!(
        check_bounds(KeyBound::Excluded(&[2, 0]), KeyBound::Included(&[2])),
        Err(VsError::InvalidArg)
    );
}

#[test]
fn integers_as_keys() {
    assert_eq!(7u8.to_bytes(), vec![7]);
    assert_eq!(0x0102u16.to_bytes(), vec![1, 2]);
    assert_eq!(0x0102_0304u32.to_bytes(), vec![1, 2, 3, 4]);
    assert_eq!(u32::MAX.into_bytes(), vec![255; 4]);
    assert_eq!(<u8 as KeyEnDeOrdered>::from_slice(&[200]), Ok(200));
    assert_eq!(<u16 as KeyEnDeOrdered>::from_slice(&[1, 2]), Ok(258));
    assert_eq!(<u32 as KeyEnDeOrdered>::from_bytes(vec![0, 0, 1, 0]), Ok(256));
    assert_eq!(<u32 as KeyEnDeOrdered>::from_slice(&[1, 2]), Err(VsError::InvalidArg));
    assert_eq!(<u16 as KeyEnDeOrdered>::from_slice(&[]), Err(VsError::InvalidArg));
    assert_eq!((-1i8).to_bytes(), vec![255]);
    assert_eq!(i8::MIN.to_bytes(), vec![128]);
    assert_eq!((-2i16).to_bytes(), vec![255, 254]);
    assert_eq!(i32::MIN.to_bytes(), vec![128, 0, 0, 0]);
    assert_eq!(i32::MAX.to_bytes(), vec![127, 255, 255, 255]);
    assert_eq!((-1i64).into_bytes(), vec![255; 8]);
    assert_eq!(i64::MIN.to_bytes(), vec![128, 0, 0, 0, 0, 0, 0, 0]);
    assert_eq!(<i8 as KeyEnDeOrdered>::from_slice(&[128]), Ok(i8::MIN));
    assert_eq!(<i16 as KeyEnDeOrdered>::from_slice(&[255, 254]), Ok(-2));
    assert_eq!(<i32 as KeyEnDeOrdered>::from_slice(&[127, 255, 255, 255]), Ok(i32::MAX));
    assert_eq!(<i64 as KeyEnDeOrdered>::from_bytes(vec![255; 8]), Ok(-1));
    assert_eq!(<i64 as KeyEnDeOrdered>::from_slice(&[0; 7]), Err(VsError::InvalidArg));
    for x in [i32::MIN, -70_000, -1, 0, 1, 70_000, i32::MAX] {
        assert_eq!(x.to_bytes(), x.to_be_bytes().to_vec());
        assert_eq!(<i32 as KeyEnDeOrdered>::from_slice(&x.to_bytes()), Ok(x));
    }
    for x in [i64::MIN, -1, 0, 1 << 40, i64::MAX] {
        assert_eq!(x.to_bytes(), x.to_be_bytes().to_vec());
        assert_eq!(<i64 as KeyEnDeOrdered>::from_slice(&x.to_bytes()), Ok(x));
    }
}

#[test]
fn wide_integers_and_words_as_keys() {
    for x in [0u128, 1, 255, 1 << 64, (1 << 64) + 5, u128::MAX - 1, u128::MAX] {
        assert_eq!(x.to_bytes(), x.to_be_bytes().to_vec());
        assert_eq!(<u128 as KeyEnDeOrdered>::from_slice(&x.to_bytes()), Ok(x));
    }
    for x in [i128::MIN, i128::MIN + 1, -(1 << 64), -1, 0, 1, 1 << 100, i128::MAX] {
        assert_eq!(x.to_bytes(), x.to_be_bytes().to_vec());
        assert_eq!(<i128 as KeyEnDeOrdered>::from_bytes(x.into_bytes()), Ok(x));
    }
    assert_eq!(<u128 as KeyEnDeOrdered>::from_slice(&[0; 15]), Err(VsError::InvalidArg));
    assert_eq!(<i128 as KeyEnDeOrdered>::from_slice(&[0; 17]), Err(VsError::InvalidArg));
    for x in [0usize, 1, 4096, usize::MAX] {
        assert_eq!(x.to_bytes(), x.to_be_bytes().to_vec());
        assert_eq!(<usize as KeyEnDeOrdered>::from_slice(&x.to_bytes()), Ok(x));
    }
    for x in [isize::MIN, -4096, -1, 0, 1, isize::MAX] {
        assert_eq!(x.to_bytes(), x.to_be_bytes().to_vec());
        assert_eq!(<isize as KeyEnDeOrdered>::from_slice(&x.to_bytes()), Ok(x));
    }
    assert_eq!(<usize as KeyEnDeOrdered>::from_slice(&[1]), Err(VsError::InvalidArg));
    assert_eq!(<isize as KeyEnDeOrdered>::from_slice(&[]), Err(VsError::InvalidArg));
}

#[test]
fn strings_as_keys() {
    let s = String::from("key \u{e9}\u{4e16}");
    assert_eq!(s.to_bytes(), s.as_bytes().to_vec());
    assert_eq!(s.clone().into_bytes(), s.as_bytes().to_vec());
    assert_eq!(<String as KeyEnDeOrdered>::from_slice(s.as_bytes()), Ok(s.clone()));
    assert_eq!(<String as KeyEnDeOrdered>::from_bytes(vec![b'a', b'b']), Ok(String::from("ab")));
    assert_eq!(<String as KeyEnDeOrdered>::from_slice(&[]), Ok(String::new()));
    // bytes that are no text are refused
    assert_eq!(<String as KeyEnDeOrdered>::from_slice(&[0xff, 0xfe]), Err(VsError::InvalidArg));
    assert_eq!(<String as KeyEnDeOrdered>::from_bytes(vec![0xc3]), Err(VsError::InvalidArg));
    assert_eq!(
        <String as KeyEnDeOrdered>::from_slice(&[0xed, 0xa0, 0x80]),
        Err(VsError::InvalidArg)
    );
}
