use std::collections::hash_map::DefaultHasher;
use std::hash::{Hash, Hasher};

use spatter::key::{hash_bucket, key_hash, ShuffleKey};
use spatter::partitioner::HashPartitioner;

fn agrees<K: ShuffleKey + Hash>(key: K) {
    let mut hasher = DefaultHasher::new();
    key.hash(&mut hasher);
    let hash = hasher.finish();
    assert_eq!(key_hash(&key), hash);
    assert!(key.same(&key.dup()));
    for n in [1usize, 2, 7, 100] {
        assert_eq!(hash_bucket(&key, n), hash as usize % n);
        assert_eq!(
            HashPartitioner::new(n).unwrap().get_partition(&key),
            hash as usize % n
        );
    }
    assert_eq!(hash_bucket(&key, 0), 0);
}

#[test]
fn hashes_are_those_of_the_standard_hasher() {
    agrees(7u8);
    agrees(700u16);
    agrees(70_000u32);
    agrees(1u64 << 40);
    agrees(12usize);
    agrees(-7i8);
    agrees(-700i16);
    agrees(-70_000i32);
    agrees(i64::MIN);
    agrees(-12isize);
    agrees(true);
    agrees(false);
    agrees('\u{1f600}');
    agrees(());
    agrees("".to_string());
    agrees("hello".to_string());
    agrees("h\u{e9}llo");
    agrees((1u8, "x".to_string()));
    agrees((("a", 2u32), false));
    agrees(u128::MAX - 5);
    agrees(1u128 << 70);
    agrees(-3i128);
    agrees(i128::MIN);
    agrees(None::<u32>);
    agrees(Some(5u32));
    agrees(Some("x".to_string()));
    agrees(Some(None::<u8>));
    agrees(Vec::<u64>::new());
    agrees(vec![1u8, 2, 3]);
    agrees(vec![-1i32, 7]);
    agrees(vec!["a".to_string(), "bc".to_string()]);
    agrees(vec![vec![Some('x')], vec![]]);
    agrees((1u8, 2u16, 3u32));
    agrees((1u8, "b", 'c', true));
    agrees((1u8, 2u8, 3u8, 4u8, 5u8));
    agrees((1u8, 2u8, 3u8, 4u8, 5u8, "six".to_string()));
}

#[test]
fn keys_are_told_apart() {
    assert!("a".to_string().same(&"a".to_string()));
    assert!(!"a".to_string().same(&"b".to_string()));
    assert!((1u8, "x").same(&(1u8, "x")));
    assert!(!(1u8, "x").same(&(2u8, "x")));
    assert!(!(1u8, "x").same(&(1u8, "y")));
    assert!(!true.same(&false));
    assert!(!'a'.same(&'b'));
    assert!(().same(&()));
    assert!(!Some(1u8).same(&None));
    assert!(!Some(1u8).same(&Some(2)));
    assert!(vec!["a", "b"].same(&vec!["a", "b"]));
    assert!(!vec!["a", "b"].same(&vec!["a"]));
    assert!(!vec!["a", "b"].same(&vec!["a", "c"]));
    assert!(!(1u8, 2u8, 3u8).same(&(1, 2, 4)));
    assert!(!(1u128 << 70).same(&(1u128 << 71)));
}
