use std::sync::Arc;

use spatter::cluster::Cluster;
use spatter::context::Setup;
use spatter::prelude::{Error, SpatterContext};

fn context(master: &str) -> SpatterContext {
    SpatterContext::builder()
        .master(master)
        .build(Setup::local(4))
        .unwrap()
}

fn member(rank: usize) -> SpatterContext {
    let mut setup = Setup::local(2);
    setup.cluster = Some(Arc::new(Cluster::new(rank, 3)));
    SpatterContext::builder()
        .master("local[2]")
        .build(setup)
        .unwrap()
}

#[test]
fn local_one_uses_one_partition_and_preserves_order() {
    let sc = context("local[1]");
    let rdd = sc.parallelize(vec![5, 4, 3, 2, 1]);

    assert_eq!(sc.parallelism(), 1);
    assert_eq!(rdd.get_num_partitions(), 1);
    assert_eq!(rdd.collect().unwrap(), vec![5, 4, 3, 2, 1]);
}

#[test]
fn empty_rdd_collects_and_counts() {
    let rdd = context("local[2]").parallelize(Vec::<i32>::new());

    assert_eq!(rdd.collect().unwrap(), Vec::<i32>::new());
    assert_eq!(rdd.count().unwrap(), 0);
}

#[test]
fn take_zero_returns_empty() {
    let rdd = context("local[3]").parallelize((0..20).collect());

    assert_eq!(rdd.take(0).unwrap(), Vec::<i32>::new());
}

#[test]
fn large_map_reduce_matches_iterator() {
    let data = (0_i64..10_000).collect::<Vec<_>>();
    let expected = data.iter().copied().map(|x| x * 3 - 7).sum::<i64>();
    let actual = context("local[4]")
        .parallelize(data)
        .map(|x| x * 3 - 7)
        .reduce(|left, right| left + right)
        .unwrap();

    assert_eq!(actual, expected);
}

#[test]
fn nested_map_filter_pipeline_matches_iterator() {
    let data = (0..100).collect::<Vec<_>>();
    let expected = data
        .iter()
        .copied()
        .map(|x| x + 1)
        .filter(|x| x % 3 == 0)
        .map(|x| x * x)
        .filter(|x| x % 2 == 0)
        .collect::<Vec<_>>();
    let actual = context("local[4]")
        .parallelize(data)
        .map(|x| x + 1)
        .filter(|x| x % 3 == 0)
        .map(|x| x * x)
        .filter(|x| x % 2 == 0)
        .collect()
        .unwrap();

    assert_eq!(actual, expected);
}

#[test]
fn string_rdd_supports_transformations_and_actions() {
    let rdd = context("local[1]")
        .parallelize(vec![
            "rust".to_string(),
            "spark".to_string(),
            "rdd".to_string(),
        ])
        .filter(|value| value.len() > 3)
        .map(|value| value.to_uppercase());

    assert_eq!(rdd.count().unwrap(), 2);
    assert_eq!(
        rdd.collect().unwrap(),
        vec!["RUST".to_string(), "SPARK".to_string()]
    );
}

#[test]
fn a_local_context_is_its_own_driver() {
    let sc = context("local");
    assert_eq!(sc.rank(), 0);
    assert_eq!(sc.world_size(), 1);
    assert!(sc.is_driver());
    assert_eq!(sc.net_bytes(), (0, 0));
    let unused = |_: Vec<u64>| -> Result<Vec<u64>, Error> { Err(Error::Cancelled) };
    assert_eq!(sc.gather_u64(7, &unused).unwrap(), vec![7]);
}

#[test]
fn members_of_a_cluster_gather() {
    let driver = member(0);
    let gather = |mut own: Vec<u64>| -> Result<Vec<u64>, Error> {
        own.push(99);
        Ok(own)
    };
    assert_eq!(driver.gather_u64(98, &gather).unwrap(), vec![98, 99]);
    assert_eq!(driver.world_size(), 3);
    let worker = member(2);
    assert_eq!(worker.rank(), 2);
    assert!(!worker.is_driver());
}

#[test]
fn only_the_driver_of_a_cluster_computes_results() {
    let driver = member(0).parallelize(vec![1, 2, 3]);
    assert_eq!(driver.collect().unwrap(), vec![1, 2, 3]);
    let worker = member(1).parallelize(vec![1, 2, 3]);
    assert_eq!(worker.collect().unwrap(), Vec::<i32>::new());
    assert_eq!(worker.count().unwrap(), 0);
    assert_eq!(worker.take(2).unwrap(), Vec::<i32>::new());
    assert!(matches!(worker.reduce(|a, b| a + b), Err(Error::EmptyRdd)));
    let gather = |mut own: Vec<i32>| -> Result<Vec<i32>, Error> {
        own.push(40);
        Ok(own)
    };
    assert_eq!(driver.collect_to_driver(&gather).unwrap(), vec![1, 2, 3, 40]);
    assert_eq!(worker.collect_to_driver(&gather).unwrap(), vec![40]);
}

#[test]
fn partitions_can_be_given() {
    let sc = context("local[2]");
    let rdd = sc.from_partitions(vec![vec![1], vec![], vec![2, 3]]).unwrap();
    assert_eq!(rdd.get_num_partitions(), 3);
    assert_eq!(rdd.collect().unwrap(), vec![1, 2, 3]);
    assert!(matches!(
        sc.from_partitions(Vec::<Vec<i32>>::new()),
        Err(Error::InvalidParallelism(0))
    ));
}

#[test]
fn reduce_folds_partitions_in_order() {
    let got = context("local[3]")
        .parallelize(vec!["a".to_string(), "b".to_string(), "c".to_string(), "d".to_string()])
        .reduce(|a, b| a + &b)
        .unwrap();
    assert_eq!(got, "abcd");
}

#[test]
fn a_chain_collects_as_a_chain_of_iterators() {
    let data: Vec<i64> = (0..40).collect();
    let expected: Vec<i64> = data
        .iter()
        .map(|x| x * 3)
        .filter(|x| x % 2 == 0)
        .flat_map(|x| vec![x, x + 1])
        .filter(|x| x % 5 != 0)
        .collect();
    for n in [1, 2, 7, 40, 50] {
        for master in ["local[1]", "local[3]"] {
            let rdd = context(master)
                .parallelize_partitions(data.clone(), n)
                .unwrap();
            assert_eq!(rdd.collect().unwrap(), data);
            let chain = rdd
                .map(|x| x * 3)
                .filter(|x| x % 2 == 0)
                .flat_map(|x| vec![x, x + 1])
                .filter(|x| x % 5 != 0);
            assert_eq!(chain.collect().unwrap(), expected);
            for k in [1, 5, 31, 100] {
                let first: Vec<i64> = expected.iter().copied().take(k).collect();
                assert_eq!(chain.take(k).unwrap(), first);
            }
        }
    }
}

#[test]
fn taking_begins_what_collecting_gives() {
    let sc = context("local[3]");
    let left = sc.parallelize((0..10).collect::<Vec<i32>>()).map(|x| (x % 4, x));
    let right = sc.parallelize(vec![(9, 9), (8, 8)]);
    let sums = left.union(right).reduce_by_key(|a, b| a + b);
    let all = sums.collect().unwrap();
    assert_eq!(all.len(), 6);
    for k in 0..8 {
        assert_eq!(sums.take(k).unwrap(), all[..k.min(6)]);
    }
}
