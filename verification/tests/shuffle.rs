use std::collections::HashMap;
use std::sync::atomic::{AtomicBool, AtomicUsize, Ordering};
use std::sync::Arc;

use spatter::combine::CombineTable;
use spatter::context::Setup;
use spatter::key::hash_bucket;
use spatter::prelude::{Dependency, Error, SpatterContext};
use spatter::shuffle::{
    combine, parallel_reduce_buckets, reduce_bucket, write_map_combine, write_map_combine_limited,
};

fn sc() -> SpatterContext {
    SpatterContext::builder()
        .master("local[4]")
        .build(Setup::local(4))
        .unwrap()
}

#[test]
fn reduce_by_key_sums() {
    let pairs = vec![
        ("a".to_string(), 1),
        ("b".to_string(), 2),
        ("a".to_string(), 3),
        ("c".to_string(), 4),
        ("b".to_string(), 5),
        ("a".to_string(), 6),
    ];
    let mut got = sc()
        .parallelize(pairs)
        .reduce_by_key(|a, b| a + b)
        .collect()
        .unwrap();
    got.sort();
    assert_eq!(
        got,
        vec![
            ("a".to_string(), 10),
            ("b".to_string(), 7),
            ("c".to_string(), 4)
        ]
    );
}

#[test]
fn reduce_by_key_is_shuffle_dep() {
    let parent = sc().parallelize(vec![("x".to_string(), 1), ("y".to_string(), 2)]);
    let shuffled = parent.clone().reduce_by_key(|a, b| a + b);
    match shuffled.dependencies() {
        [Dependency::Shuffle { parent: p, .. }] => assert_eq!(*p, parent.id()),
        other => panic!("expected shuffle dep, got {other:?}"),
    }
}

#[test]
fn group_by_key_collects_values() {
    let mut got = sc()
        .parallelize(vec![
            ("a".to_string(), 1),
            ("a".to_string(), 2),
            ("b".to_string(), 3),
        ])
        .group_by_key()
        .collect()
        .unwrap();
    got.sort_by(|a, b| a.0.cmp(&b.0));
    for (_, vs) in &mut got {
        vs.sort();
    }
    assert_eq!(
        got,
        vec![("a".to_string(), vec![1, 2]), ("b".to_string(), vec![3])]
    );
}

#[test]
fn reduce_by_key_matches_hashmap() {
    let data: Vec<(i32, i32)> = (0..1000).map(|i| (i % 17, i)).collect();
    let mut expected = HashMap::new();
    for (k, v) in &data {
        *expected.entry(*k).or_insert(0) += v;
    }
    let got = sc()
        .parallelize(data)
        .reduce_by_key(|a, b| a + b)
        .collect()
        .unwrap();
    let got: HashMap<_, _> = got.into_iter().collect();
    assert_eq!(got, expected);
}

#[test]
fn shuffle_recomputes_per_action() {
    let hits = Arc::new(AtomicUsize::new(0));
    let h = Arc::clone(&hits);
    let rdd = sc()
        .parallelize(vec![("a".to_string(), 1), ("a".to_string(), 2)])
        .map(move |x| {
            h.fetch_add(1, Ordering::SeqCst);
            x
        })
        .reduce_by_key(|a, b| a + b);
    assert_eq!(rdd.clone().collect().unwrap().len(), 1);
    assert_eq!(rdd.collect().unwrap().len(), 1);
    assert_eq!(hits.load(Ordering::SeqCst), 4);
}

#[test]
fn combine_by_key_counts() {
    let mut got = sc()
        .parallelize(vec![
            ("a".to_string(), 1),
            ("a".to_string(), 2),
            ("b".to_string(), 3),
        ])
        .combine_by_key(
            |v| (1, v),
            |(n, s), v| (n + 1, s + v),
            |a, b| (a.0 + b.0, a.1 + b.1),
        )
        .collect()
        .unwrap();
    got.sort();
    assert_eq!(
        got,
        vec![("a".to_string(), (2, 3)), ("b".to_string(), (1, 3))]
    );
}

#[test]
fn aggregate_by_key_sum() {
    let mut got = sc()
        .parallelize(vec![
            ("a".to_string(), 1),
            ("a".to_string(), 2),
            ("b".to_string(), 3),
        ])
        .aggregate_by_key(0, |acc, v| acc + v, |a, b| a + b)
        .collect()
        .unwrap();
    got.sort();
    assert_eq!(got, vec![("a".to_string(), 3), ("b".to_string(), 3)]);
}

#[test]
fn map_combine_flushes_partial_combiners() {
    let cancel = AtomicBool::new(false);
    let pairs = vec![("a", 1), ("a", 2), ("b", 3)];
    let buckets =
        write_map_combine_limited(1, pairs, &|v: i32| v, &|a, b| a + b, Some(&cancel), 0).unwrap();
    assert_eq!(buckets.len(), 1);
    assert_eq!(buckets[0].len(), 3);
    let reduced = reduce_bucket(buckets.into_iter().next().unwrap(), &|a, b| a + b);
    let mut reduced = reduced;
    reduced.sort();
    assert_eq!(reduced, vec![("a", 3), ("b", 3)]);
}

#[test]
fn records_go_to_the_bucket_of_their_key() {
    let pairs: Vec<(u64, u64)> = (0..40).map(|i| (i % 9, i)).collect();
    let buckets =
        write_map_combine(4, pairs, &|v: u64| v, &|a: u64, b: u64| a + b, None, None).unwrap();
    assert_eq!(buckets.len(), 4);
    let mut keys = Vec::new();
    for (p, bucket) in buckets.iter().enumerate() {
        for (k, _) in bucket {
            assert_eq!(hash_bucket(k, 4), p);
            keys.push(*k);
        }
    }
    keys.sort();
    assert_eq!(keys, (0..9).collect::<Vec<u64>>());
}

#[test]
fn a_cancelled_map_task_stops() {
    let cancel = AtomicBool::new(true);
    let got = write_map_combine_limited(
        2,
        vec![(1u8, 1u8)],
        &|v: u8| v,
        &|a: u8, _: u8| a,
        Some(&cancel),
        1000,
    );
    assert!(matches!(got, Err(Error::Cancelled)));
    let empty = write_map_combine_limited(
        2,
        Vec::<(u8, u8)>::new(),
        &|v: u8| v,
        &|a: u8, _: u8| a,
        Some(&cancel),
        1000,
    );
    assert_eq!(empty.unwrap(), vec![Vec::new(), Vec::new()]);
}

#[test]
fn combining_keeps_the_first_value_and_merges_the_others() {
    let mut table = CombineTable::new();
    combine(&mut table, "k", vec![1], &|mut a: Vec<i32>, mut b: Vec<i32>| {
        a.append(&mut b);
        a
    });
    combine(&mut table, "l", vec![9], &|a: Vec<i32>, _: Vec<i32>| a);
    combine(&mut table, "k", vec![2], &|mut a: Vec<i32>, mut b: Vec<i32>| {
        a.append(&mut b);
        a
    });
    assert_eq!(table.into_pairs(), vec![("k", vec![1, 2]), ("l", vec![9])]);
}

#[test]
fn buckets_are_reduced_one_by_one() {
    let merged = vec![vec![(1u8, 1), (2, 2), (1, 3)], vec![], vec![(5, 5)]];
    for parallelism in [0, 1, 2, 3, 40] {
        let got = parallel_reduce_buckets(merged.clone(), &|a: i32, b: i32| a + b, parallelism);
        assert_eq!(got, vec![vec![(1, 4), (2, 2)], vec![], vec![(5, 5)]]);
        for (bucket, alone) in got.iter().zip(merged.clone()) {
            assert_eq!(*bucket, reduce_bucket(alone, &|a: i32, b: i32| a + b));
        }
    }
}

#[test]
fn a_reduced_bucket_has_nothing_left_to_merge() {
    let reduced = reduce_bucket(vec![("x", 1), ("y", 2), ("x", 3)], &|a: i32, b: i32| a + b);
    let again = reduce_bucket(reduced.clone(), &|_: i32, _: i32| unreachable!());
    assert_eq!(again, reduced);
}

#[test]
fn limits_do_not_show_in_what_a_map_task_reduces_to() {
    let pairs: Vec<(u8, String)> = (0..60u8).map(|i| (i % 7, i.to_string())).collect();
    let create = |v: String| v;
    let merge = |a: String, b: String| a + &b;
    let reduce = |limit: usize| -> Vec<Vec<(u8, String)>> {
        let out =
            write_map_combine_limited(3, pairs.clone(), &create, &merge, None, limit).unwrap();
        let mut reduced = parallel_reduce_buckets(out, &merge, 2);
        for bucket in &mut reduced {
            bucket.sort();
        }
        reduced
    };
    let all = reduce(usize::MAX);
    for limit in [0, 64, 65, 640, 1 << 20] {
        assert_eq!(reduce(limit), all);
    }
}

#[test]
fn below_the_usual_limit_each_key_is_put_out_once() {
    let pairs: Vec<(u16, u16)> = (0..500).map(|i| (i % 40, i)).collect();
    let out = write_map_combine(
        3,
        pairs.clone(),
        &|v: u16| v,
        &|a: u16, b: u16| a.max(b),
        None,
        None,
    )
    .unwrap();
    let mut keys: Vec<u16> = out.iter().flatten().map(|(k, _)| *k).collect();
    keys.sort();
    assert_eq!(keys, (0..40).collect::<Vec<u16>>());
    let limited = write_map_combine_limited(
        3,
        pairs,
        &|v: u16| v,
        &|a: u16, b: u16| a.max(b),
        None,
        64 * 1024 * 1024,
    )
    .unwrap();
    assert_eq!(out, limited);
}

#[test]
fn a_second_distinct_changes_nothing() {
    let data: Vec<u32> = (0..90).map(|i| i * i % 13).collect();
    let once = sc().parallelize(data).distinct();
    let mut first = once.clone().collect().unwrap();
    let mut second = once.distinct().collect().unwrap();
    first.sort();
    second.sort();
    assert_eq!(first, second);
    assert_eq!(first, vec![0, 1, 3, 4, 9, 10, 12]);
}

#[test]
fn sums_do_not_depend_on_the_number_of_partitions() {
    let data: Vec<(u32, u64)> = (0..300).map(|i| (i % 11, i as u64)).collect();
    let mut expected: Vec<(u32, u64)> = (0..11)
        .map(|k| (k, data.iter().filter(|r| r.0 == k).map(|r| r.1).sum()))
        .collect();
    expected.sort();
    for n in [1, 2, 5, 16] {
        let mut got = sc()
            .parallelize_partitions(data.clone(), n)
            .unwrap()
            .reduce_by_key(|a, b| a + b)
            .collect()
            .unwrap();
        got.sort();
        assert_eq!(got, expected);
    }
}

#[test]
fn each_key_is_in_the_partition_that_the_partitioner_names() {
    let rdd = sc()
        .parallelize_partitions((0..50u16).map(|i| (i, ())).collect(), 6)
        .unwrap()
        .reduce_by_key(|_, _| ());
    let partitioner = rdd.partitioner().unwrap();
    let e = rdd.prepare(None).unwrap();
    for p in 0..6 {
        for (k, _) in e.compute(p, None).unwrap() {
            assert_eq!(partitioner.get_partition(&k), p);
        }
    }
}

#[test]
fn records_are_keyed_by_lists_and_options() {
    let key = |n: i32| (vec![n.to_string()], (n > 1).then_some(n as u128));
    let mut got = sc()
        .parallelize(vec![(key(1), 10), (key(2), 20), (key(1), 5)])
        .reduce_by_key(|a, b| a + b)
        .collect()
        .unwrap();
    got.sort();
    assert_eq!(got, vec![(key(1), 15), (key(2), 20)]);
}
