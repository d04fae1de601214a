use std::sync::atomic::{AtomicBool, AtomicUsize, Ordering};
use std::sync::Arc;

use spatter::actions::{concat_parts, fill, fold_items, fold_partials, total};
use spatter::error::Error;
use spatter::exec::{
    panic_message, run_partitions, run_task, stride, thread_count, OnceCache, Outcome,
    PanicPayload, Slots,
};

#[test]
fn panics_are_tried_again_twice() {
    let tries = AtomicUsize::new(0);
    let attempt = |_: usize, k: u32| -> Outcome<u32> {
        tries.fetch_add(1, Ordering::SeqCst);
        if k < 2 {
            Outcome::Panicked(PanicPayload::Other)
        } else {
            Outcome::Finished(Ok(k))
        }
    };
    assert_eq!(run_task(0, &attempt).unwrap(), 2);
    assert_eq!(tries.load(Ordering::SeqCst), 3);
    let hopeless = |_: usize, k: u32| -> Outcome<u32> {
        Outcome::Panicked(PanicPayload::Text(format!("try {k}")))
    };
    match run_task(5, &hopeless) {
        Err(Error::PartitionPanic { partition, message }) => {
            assert_eq!(partition, 5);
            assert_eq!(message, "try 2");
        }
        other => panic!("{other:?}"),
    }
}

#[test]
fn errors_are_not_tried_again() {
    let tries = AtomicUsize::new(0);
    let attempt = |_: usize, _: u32| -> Outcome<u32> {
        tries.fetch_add(1, Ordering::SeqCst);
        Outcome::Finished(Err(Error::EmptyRdd))
    };
    assert!(matches!(run_task(0, &attempt), Err(Error::EmptyRdd)));
    assert_eq!(tries.load(Ordering::SeqCst), 1);
}

#[test]
fn partitions_come_out_in_order() {
    let attempt = |p: usize, _: u32| -> Outcome<usize> { Outcome::Finished(Ok(p * p)) };
    for parallelism in [0, 1, 3, 50] {
        assert_eq!(
            run_partitions(7, parallelism, None, &attempt).unwrap(),
            vec![0, 1, 4, 9, 16, 25, 36]
        );
    }
    assert_eq!(
        run_partitions(0, 4, None, &attempt).unwrap(),
        Vec::<usize>::new()
    );
}

#[test]
fn cancelled_work_misses_partitions() {
    let cancel = AtomicBool::new(false);
    let attempt = |p: usize, _: u32| -> Outcome<usize> {
        if p == 1 {
            cancel.store(true, Ordering::SeqCst);
        }
        Outcome::Finished(Ok(p))
    };
    assert!(matches!(
        run_partitions(4, 1, Some(&cancel), &attempt),
        Err(Error::MissingPartition(2))
    ));
}

#[test]
fn an_error_cancels_the_other_partitions() {
    let cancel = AtomicBool::new(false);
    let attempt = |p: usize, _: u32| -> Outcome<usize> {
        if p == 1 {
            return Outcome::Finished(Err(Error::EmptyRdd));
        }
        Outcome::Finished(Ok(p))
    };
    assert!(matches!(
        run_partitions(4, 2, Some(&cancel), &attempt),
        Err(Error::EmptyRdd)
    ));
    assert!(cancel.load(Ordering::SeqCst));
    let calm = AtomicBool::new(false);
    let fine = |p: usize, _: u32| -> Outcome<usize> { Outcome::Finished(Ok(p)) };
    assert_eq!(
        run_partitions(3, 2, Some(&calm), &fine).unwrap(),
        vec![0, 1, 2]
    );
    assert!(!calm.load(Ordering::SeqCst));
    assert_eq!(
        run_partitions(0, 2, Some(&cancel), &fine).unwrap(),
        Vec::<usize>::new()
    );
}

#[test]
fn threads_share_the_partitions() {
    assert_eq!(thread_count(10, 4), 4);
    assert_eq!(thread_count(3, 4), 3);
    assert_eq!(thread_count(3, 0), 1);
    assert_eq!(stride(1, 4, 10), vec![1, 5, 9]);
    assert_eq!(stride(3, 4, 3), Vec::<usize>::new());
    assert_eq!(stride(0, 2, usize::MAX / usize::MAX), vec![0]);
    let mut all: Vec<usize> = (0..4).flat_map(|t| stride(t, 4, 10)).collect();
    all.sort();
    assert_eq!(all, (0..10).collect::<Vec<_>>());
}

#[test]
fn slots_wait_for_every_partition() {
    let mut slots = Slots::new(3);
    assert!(slots.put(Ok((2, 'c'))).is_none());
    assert!(slots.put(Ok((0, 'a'))).is_none());
    assert!(matches!(
        slots.put(Err(Error::Cancelled)),
        Some(Error::Cancelled)
    ));
    assert!(slots.put(Ok((1, 'b'))).is_none());
    assert_eq!(slots.finish().unwrap(), vec!['a', 'b', 'c']);
    let mut slots = Slots::new(3);
    slots.put(Ok((0, 'a')));
    assert!(matches!(slots.finish(), Err(Error::MissingPartition(1))));
}

#[test]
fn shared_work_is_done_once() {
    let done = AtomicUsize::new(0);
    let mut cache: OnceCache<u8> = OnceCache::new();
    let work = || -> Outcome<u8> {
        done.fetch_add(1, Ordering::SeqCst);
        Outcome::Finished(Ok(5))
    };
    assert!(cache.get(1).is_none());
    assert_eq!(cache.get_or_do(1, &work).unwrap(), Arc::new(5));
    assert_eq!(cache.get_or_do(1, &work).unwrap(), Arc::new(5));
    assert_eq!(done.load(Ordering::SeqCst), 1);
    let bad = || -> Outcome<u8> { Outcome::Panicked(PanicPayload::Text("x".to_string())) };
    for _ in 0..2 {
        assert!(matches!(
            cache.get_or_do(2, &bad),
            Err(Error::Panic { message }) if message == "x"
        ));
    }
    assert!(matches!(cache.get(2), Some(Err(Error::Panic { .. }))));
}

#[test]
fn panics_say_what_they_carried() {
    assert_eq!(panic_message(PanicPayload::Text("t".to_string())), "t");
    assert_eq!(panic_message(PanicPayload::Other), "Box<dyn Any>");
}

#[test]
fn totals_are_checked() {
    assert_eq!(total(&vec![1, 2, 3]).unwrap(), 6);
    assert!(matches!(
        total(&vec![usize::MAX, 1]),
        Err(Error::CountOverflow)
    ));
}

#[test]
fn folds_keep_the_order() {
    let f = |a: String, b: String| a + &b;
    let items = vec!["a".to_string(), "b".to_string(), "c".to_string()];
    assert_eq!(fold_items(items, &f, None).unwrap(), Some("abc".to_string()));
    assert_eq!(fold_items(Vec::new(), &f, None).unwrap(), None);
    let cancel = AtomicBool::new(true);
    let two = vec!["a".to_string(), "b".to_string()];
    assert!(matches!(
        fold_items(two, &f, Some(&cancel)),
        Err(Error::Cancelled)
    ));
    let partials = vec![None, Some("x".to_string()), None, Some("y".to_string())];
    assert_eq!(fold_partials(partials, &f).unwrap(), "xy");
    assert!(matches!(
        fold_partials(vec![None, None], &f),
        Err(Error::EmptyRdd)
    ));
}

#[test]
fn parts_are_joined_and_filled_up() {
    assert_eq!(concat_parts(vec![vec![1], vec![], vec![2, 3]]), vec![1, 2, 3]);
    let mut out = vec![1, 2];
    fill(&mut out, vec![3, 4, 5], 4);
    assert_eq!(out, vec![1, 2, 3, 4]);
    fill(&mut out, vec![9], 4);
    assert_eq!(out, vec![1, 2, 3, 4]);
}
