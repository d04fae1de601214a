use std::sync::atomic::{AtomicUsize, Ordering};
use std::sync::{Arc, Mutex};

use spatter::actions::take_first;
use spatter::context::Setup;
use spatter::exec::{catch_driver, run_partitions, Outcome, PanicPayload};
use spatter::partition::split_contiguous;
use spatter::prelude::{Dependency, Error, SpatterContext};

fn sc() -> SpatterContext {
    SpatterContext::builder()
        .master("local[4]")
        .build(Setup::local(4))
        .unwrap()
}

#[test]
fn a_panicked_attempt_is_an_error_of_its_partition() {
    let parts = split_contiguous(vec![1, 2, 3], 4).unwrap();
    let attempt = |p: usize, _: u32| -> Outcome<Vec<i32>> {
        if parts[p].contains(&2) {
            return Outcome::Panicked(PanicPayload::Text("boom-map".to_string()));
        }
        Outcome::Finished(Ok(parts[p].clone()))
    };
    let err = run_partitions(4, 4, None, &attempt).unwrap_err();
    match err {
        Error::PartitionPanic { message, .. } => assert!(message.contains("boom-map")),
        other => panic!("expected PartitionPanic, got {other:?}"),
    }
}

#[test]
fn a_panicked_attempt_ends_a_take() {
    let compute = |p: usize, _: usize| -> Outcome<Vec<i32>> {
        if p == 1 {
            return Outcome::Panicked(PanicPayload::Text("boom-take".to_string()));
        }
        Outcome::Finished(Ok(vec![1, 2]))
    };
    match take_first(3, 3, &compute).unwrap_err() {
        Error::PartitionPanic { partition, message } => {
            assert_eq!(partition, 1);
            assert_eq!(message, "boom-take");
        }
        other => panic!("expected PartitionPanic, got {other:?}"),
    }
    assert_eq!(take_first(3, 2, &compute).unwrap(), vec![1, 2]);
}

#[test]
fn a_take_asks_for_what_is_missing() {
    let asked = Mutex::new(Vec::new());
    let compute = |p: usize, need: usize| -> Outcome<Vec<usize>> {
        asked.lock().unwrap().push((p, need));
        Outcome::Finished(Ok(vec![p; p.min(need)]))
    };
    assert_eq!(take_first(9, 5, &compute).unwrap(), vec![1, 2, 2, 3, 3]);
    assert_eq!(
        asked.into_inner().unwrap(),
        vec![(0, 5), (1, 5), (2, 4), (3, 2)]
    );
    let failing = |_: usize, _: usize| -> Outcome<Vec<usize>> {
        Outcome::Finished(Err(Error::Io("gone".to_string())))
    };
    assert!(matches!(take_first(2, 1, &failing), Err(Error::Io(t)) if t == "gone"));
    assert_eq!(take_first(2, 0, &failing).unwrap(), Vec::<usize>::new());
}

#[test]
fn a_panic_on_the_driver_is_an_error() {
    let outcome: Outcome<i32> = Outcome::Panicked(PanicPayload::Text("boom-merge".to_string()));
    let err = catch_driver(outcome).unwrap_err();
    match err {
        Error::Panic { message } => assert!(message.contains("boom-merge")),
        other => panic!("expected Panic, got {other:?}"),
    }
}

#[test]
fn take_skips_empty_partitions() {
    let got = sc()
        .parallelize_partitions(vec![1, 2, 3], 8)
        .unwrap()
        .take(2)
        .unwrap();
    assert_eq!(got, vec![1, 2]);
}

#[test]
fn take_beyond_len_returns_all() {
    let got = sc().parallelize(vec![1, 2]).take(100).unwrap();
    assert_eq!(got, vec![1, 2]);
}

struct Nc;

#[test]
fn clone_without_t_clone() {
    let rdd = sc().parallelize(vec![1, 2, 3]).map(|_| Nc);
    assert_eq!(rdd.clone().count().unwrap(), 3);
    assert_eq!(rdd.count().unwrap(), 3);
}

#[test]
fn lineage_ids_and_narrow_deps() {
    let base = sc().parallelize(vec![1, 2, 3, 4]);
    let mapped = base.clone().map(|x| x + 1);
    assert_ne!(base.id(), mapped.id());
    assert_eq!(
        mapped.dependencies(),
        &[Dependency::Narrow { parent: base.id() }]
    );
    assert!(base.dependencies().is_empty());
    assert_eq!(mapped.get_num_partitions(), base.get_num_partitions());
}

#[test]
fn repeated_action_recomputes() {
    let hits = Arc::new(AtomicUsize::new(0));
    let h = Arc::clone(&hits);
    let rdd = sc().parallelize(vec![1, 2, 3]).map(move |x| {
        h.fetch_add(1, Ordering::SeqCst);
        x
    });
    assert_eq!(rdd.count().unwrap(), 3);
    assert_eq!(rdd.count().unwrap(), 3);
    assert_eq!(hits.load(Ordering::SeqCst), 6);
}

#[test]
fn flat_map_order() {
    let got = sc()
        .parallelize(vec!["ab".to_string(), "c".to_string()])
        .flat_map(|s| s.chars().collect::<Vec<_>>())
        .collect()
        .unwrap();
    assert_eq!(got, vec!['a', 'b', 'c']);
}

#[test]
fn deriving_computes_nothing() {
    let hits = Arc::new(AtomicUsize::new(0));
    let h = Arc::clone(&hits);
    let rdd = sc().parallelize(vec![1, 2, 3]).map(move |x| {
        h.fetch_add(1, Ordering::SeqCst);
        x
    });
    let _ = rdd.stages();
    let _ = rdd.clone().filter(|x| *x > 1);
    assert_eq!(hits.load(Ordering::SeqCst), 0);
}

#[test]
fn take_computes_no_partition_beyond_what_it_needs() {
    let hits = Arc::new(AtomicUsize::new(0));
    let h = Arc::clone(&hits);
    let rdd = sc()
        .parallelize_partitions((0..8).collect(), 4)
        .unwrap()
        .map(move |x: i32| {
            h.fetch_add(1, Ordering::SeqCst);
            x
        });
    assert_eq!(rdd.take(2).unwrap(), vec![0, 1]);
    assert_eq!(hits.load(Ordering::SeqCst), 2);
}

#[test]
fn take_computes_no_item_beyond_what_it_needs() {
    let hits = Arc::new(AtomicUsize::new(0));
    let count = |hits: &Arc<AtomicUsize>| {
        let h = Arc::clone(hits);
        move || {
            h.fetch_add(1, Ordering::SeqCst);
        }
    };
    let seen = |hits: &Arc<AtomicUsize>| hits.swap(0, Ordering::SeqCst);
    let hit = count(&hits);
    let mapped = sc()
        .parallelize_partitions((0..100).collect(), 2)
        .unwrap()
        .map(move |x: u32| {
            hit();
            assert!(x < 53, "beyond what is taken");
            x * 2
        });
    assert_eq!(mapped.take(3).unwrap(), vec![0, 2, 4]);
    assert_eq!(seen(&hits), 3);
    assert_eq!(mapped.take(52).unwrap().len(), 52);
    assert_eq!(seen(&hits), 52);
    let filtered = mapped.filter(|x| x % 3 == 0);
    assert_eq!(filtered.take(2).unwrap(), vec![0, 6]);
    assert_eq!(seen(&hits), 4);
    let hit = count(&hits);
    let words = sc()
        .parallelize_partitions(vec!["a b c".to_string(), "d".to_string()], 1)
        .unwrap()
        .flat_map(|line| {
            line.split(' ')
                .map(|w| w.to_string())
                .collect::<Vec<String>>()
        })
        .map(move |w| {
            hit();
            w + "!"
        });
    assert_eq!(words.take(2).unwrap(), vec!["a!", "b!"]);
    assert_eq!(seen(&hits), 2);
    assert_eq!(words.take(9).unwrap(), vec!["a!", "b!", "c!", "d!"]);
    assert_eq!(seen(&hits), 4);
    let both = words.clone().union(words);
    assert_eq!(both.take(5).unwrap(), vec!["a!", "b!", "c!", "d!", "a!"]);
    assert_eq!(seen(&hits), 5);
}

#[test]
fn the_first_of_distinct_items_are_taken() {
    let rdd = sc()
        .parallelize_partitions(vec![4u32, 4, 7, 4, 7, 9], 3)
        .unwrap()
        .distinct();
    let all = rdd.collect().unwrap();
    for n in 0..5 {
        assert_eq!(rdd.take(n).unwrap(), all[..n.min(3)]);
    }
}
