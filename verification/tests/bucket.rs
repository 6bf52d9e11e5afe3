use pentagon_garden::bucket::{digest_of, same_parts, BucketSet, CircleKey, PointKey};

#[test]
fn point_key_keeps_its_buckets() {
    let k = PointKey::new(-3, 17);
    assert_eq!(k.x, -3);
    assert_eq!(k.y, 17);
    assert_eq!(k, PointKey { x: -3, y: 17 });
    assert_ne!(k, PointKey { x: 17, y: -3 });
}

#[test]
fn circle_key_keeps_its_buckets() {
    let k = CircleKey::new(PointKey::new(1, 2), 500_000);
    assert_eq!(k.centre, PointKey::new(1, 2));
    assert_eq!(k.radius, 500_000);
}

#[test]
fn same_parts_compares_whole_keys() {
    assert!(same_parts(&vec![], &vec![]));
    assert!(same_parts(&vec![1, -2, 3], &vec![1, -2, 3]));
    assert!(!same_parts(&vec![1, -2, 3], &vec![1, -2]));
    assert!(!same_parts(&vec![1, -2], &vec![1, -2, 3]));
    assert!(!same_parts(&vec![1, -2, 3], &vec![1, -2, 4]));
    assert!(!same_parts(&vec![0], &vec![]));
}

#[test]
fn digest_is_the_documented_fold() {
    let seed: u64 = 0xcbf2_9ce4_8422_2325;
    let prime: u64 = 0x0100_0000_01b3;
    assert_eq!(digest_of(&vec![]), seed);
    assert_eq!(digest_of(&vec![5]), seed.wrapping_add(5).wrapping_mul(prime));
    assert_eq!(digest_of(&vec![-1]), seed.wrapping_sub(1).wrapping_mul(prime));
    assert_eq!(
        digest_of(&vec![5, -1]),
        seed.wrapping_add(5).wrapping_mul(prime).wrapping_sub(1).wrapping_mul(prime)
    );
    assert_eq!(digest_of(&vec![i64::MIN]), seed.wrapping_add(1 << 63).wrapping_mul(prime));
}

#[test]
fn new_set_is_empty() {
    let set = BucketSet::new();
    assert_eq!(set.len(), 0);
    assert!(!set.contains(&vec![]));
    assert!(!set.contains(&vec![0, 0]));
}

#[test]
fn insert_says_whether_the_key_is_new() {
    let mut set = BucketSet::new();
    assert!(set.insert(vec![1, 2]));
    assert!(set.insert(vec![2, 1]));
    assert!(!set.insert(vec![1, 2]));
    assert!(set.insert(vec![1, 2, 0]));
    assert!(set.insert(vec![]));
    assert!(!set.insert(vec![]));
    assert_eq!(set.len(), 4);
    assert!(set.contains(&vec![1, 2]));
    assert!(set.contains(&vec![2, 1]));
    assert!(set.contains(&vec![1, 2, 0]));
    assert!(set.contains(&vec![]));
    assert!(!set.contains(&vec![1]));
    assert!(!set.contains(&vec![2, 2]));
}

#[test]
fn same_coordinates_probed_twice_give_one_entry() {
    let mut set = BucketSet::new();
    for _ in 0..3 {
        set.insert(vec![123_456, -654_321]);
    }
    assert_eq!(set.len(), 1);
}

#[test]
fn set_tells_many_keys_apart() {
    let mut set = BucketSet::new();
    for x in -40i64..40 {
        for y in -40i64..40 {
            assert!(set.insert(vec![x, y]));
        }
    }
    assert_eq!(set.len(), 6400);
    for x in -40i64..40 {
        for y in -40i64..40 {
            assert!(set.contains(&vec![x, y]));
            assert!(!set.insert(vec![x, y]));
        }
    }
    assert_eq!(set.len(), 6400);
    assert!(!set.contains(&vec![40, 0]));
    assert!(!set.contains(&vec![0, -41]));
}

#[test]
fn keys_with_one_digest_stay_apart() {
    // Two keys that are filed under the same number: the second part undoes
    // what the first part changed.
    let prime: u64 = 0x0100_0000_01b3;
    let a = vec![0i64, 0];
    let shift = prime as i64;
    let b = vec![1i64, -shift];
    assert_eq!(digest_of(&a), digest_of(&b));
    let mut set = BucketSet::new();
    assert!(set.insert(a.clone()));
    assert!(!set.contains(&b));
    assert!(set.insert(b.clone()));
    assert!(set.contains(&a));
    assert!(set.contains(&b));
    assert!(!set.insert(a));
    assert!(!set.insert(b));
    assert_eq!(set.len(), 2);
}
