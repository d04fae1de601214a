use spatter::context::Setup;
use spatter::prelude::{
    launch_mode, run_executor, Dependency, Error, HashPartitioner, LaunchMode, RddId, ShuffleId,
    SpatterContext, StageKind,
};

fn sc() -> SpatterContext {
    SpatterContext::builder()
        .master("local[2]")
        .build(Setup::local(4))
        .unwrap()
}

#[test]
fn map_is_single_result_stage() {
    let stages = sc().parallelize(vec![1, 2, 3]).map(|x| x + 1).stages();
    assert_eq!(stages.len(), 1);
    assert!(matches!(stages[0].kind, StageKind::Result));
}

#[test]
fn reduce_by_key_cuts_shuffle_then_result() {
    let stages = sc()
        .parallelize(vec![("a".to_string(), 1), ("a".to_string(), 2)])
        .reduce_by_key(|a, b| a + b)
        .stages();
    assert_eq!(stages.len(), 2);
    assert!(matches!(stages[0].kind, StageKind::ShuffleMap { .. }));
    assert!(matches!(stages[1].kind, StageKind::Result));
}

#[test]
fn shuffled_rdd_has_hash_partitioner() {
    let rdd = sc()
        .parallelize(vec![("a".to_string(), 1), ("b".to_string(), 2)])
        .reduce_by_key(|a, b| a + b);
    let p = rdd.partitioner().expect("partitioner");
    assert_eq!(p.num_partitions(), rdd.get_num_partitions());
}

#[test]
fn union_concatenates() {
    let sc = sc();
    let a = sc.parallelize(vec![1, 2]);
    let b = sc.parallelize(vec![3, 4]);
    let mut got = a.union(b).collect().unwrap();
    got.sort();
    assert_eq!(got, vec![1, 2, 3, 4]);
}

#[test]
fn distinct_drops_duplicates() {
    let mut got = sc()
        .parallelize(vec![1, 1, 2, 2, 3])
        .distinct()
        .collect()
        .unwrap();
    got.sort();
    assert_eq!(got, vec![1, 2, 3]);
}

#[test]
fn diamond_lineage_is_not_exponential() {
    let base = sc().parallelize((0..8).collect());
    let mut left = base.clone();
    let mut right = base;
    for _ in 0..12 {
        left = left.map(|x: i32| x);
        right = right.map(|x: i32| x);
    }
    let stages = left.union(right).stages();
    assert_eq!(stages.len(), 1);
}

#[test]
fn chained_shuffles_do_not_deadlock() {
    let mut got = sc()
        .parallelize(vec![
            ("a".to_string(), 1),
            ("a".to_string(), 2),
            ("b".to_string(), 3),
        ])
        .reduce_by_key(|a, b| a + b)
        .map(|(k, v)| (k, v * 10))
        .reduce_by_key(|a, b| a + b)
        .collect()
        .unwrap();
    got.sort();
    assert_eq!(got, vec![("a".to_string(), 30), ("b".to_string(), 30)]);
}

#[test]
fn executor_entry_requires_cluster_env() {
    let join = || -> Result<Option<u8>, Error> { Ok(Some(1)) };
    let serve = |_: u8| -> Result<(), Error> { Ok(()) };
    assert!(matches!(
        run_executor(None, &join, &serve),
        Err(Error::Cluster(_))
    ));
    assert_eq!(
        launch_mode(&vec!["program".to_string()]),
        LaunchMode::Driver
    );
}

#[test]
fn stages_are_numbered_and_each_shuffle_is_written_once() {
    let pairs = sc().parallelize(vec![(1u8, 1), (2, 2)]);
    let shuffled = pairs.clone().reduce_by_key(|a, b| a + b);
    let parent = pairs.id();
    let middle = shuffled.id();
    let twice = shuffled
        .clone()
        .map(|(k, v)| (k, v + 1))
        .union(shuffled.clone())
        .reduce_by_key(|a, b| a + b);
    let root = twice.id();
    let stages = twice.stages();
    assert_eq!(stages.len(), 3);
    for (i, stage) in stages.iter().enumerate() {
        assert_eq!(stage.id, i);
    }
    assert_eq!(stages[0].rdd_id, parent);
    assert_eq!(stages[0].n_partitions, 2);
    assert_eq!(
        stages[0].kind,
        StageKind::ShuffleMap {
            shuffle: ShuffleId(0)
        }
    );
    assert_eq!(stages[1].n_partitions, 4);
    assert_eq!(
        stages[1].kind,
        StageKind::ShuffleMap {
            shuffle: ShuffleId(1)
        }
    );
    assert_eq!(stages[2].rdd_id, root);
    assert_eq!(stages[2].kind, StageKind::Result);
    assert!(middle.0 < root.0);
}

#[test]
fn a_union_keeps_the_order_of_its_sides() {
    let sc = sc();
    let left = sc.parallelize(vec![1, 2, 3]);
    let right = sc.parallelize(vec![4, 5]);
    let both = left.clone().union(right.clone());
    assert_eq!(both.get_num_partitions(), 4);
    assert_eq!(both.collect().unwrap(), vec![1, 2, 3, 4, 5]);
    assert_eq!(
        both.dependencies(),
        &[
            Dependency::Narrow { parent: left.id() },
            Dependency::Narrow { parent: right.id() }
        ]
    );
}

#[test]
fn dependencies_name_their_parent() {
    assert_eq!(
        Dependency::Narrow { parent: RddId(3) }.parent(),
        RddId(3)
    );
    let shuffled = Dependency::Shuffle {
        parent: RddId(4),
        shuffle: ShuffleId(9),
    };
    assert_eq!(shuffled.parent(), RddId(4));
}

#[test]
fn partitioners_need_a_partition() {
    assert!(matches!(
        HashPartitioner::new(0),
        Err(Error::InvalidParallelism(0))
    ));
    assert_eq!(HashPartitioner::new(5).unwrap().num_partitions(), 5);
}
