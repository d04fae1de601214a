use std::sync::atomic::{AtomicBool, Ordering};
use std::sync::Arc;
use std::time::{Duration, Instant};

use spatter::cluster::Cluster;
use spatter::context::{Setup, DEFAULT_SPILL_LIMIT};
use spatter::exec::{run_partitions, Outcome, PanicPayload};
use spatter::jobs::run_job;
use spatter::metrics::{
    cap_micros, disconnected, event_rank, finished_event, frame_received, frame_sent, listen_line,
    local_task, map_emitted, metrics_port, profile_line, render, request_complete, respond, spill_was_read,
    spill_written, started_event, task, task_finished, task_started, Counters,
};
use spatter::prelude::{Error, SpatterContext};
use spatter::shuffle::map_task;

fn counter(text: &str, name: &str) -> u64 {
    text.lines()
        .find_map(|line| line.strip_prefix(&format!("spatter_{name} ")))
        .unwrap()
        .parse()
        .unwrap()
}

#[test]
fn retries_of_panicked_attempts_are_counted() {
    let counters = Counters::new();
    let before = counter(&render(&counters), "task_retries_total");
    let first = Arc::new(AtomicBool::new(true));
    let attempt = |_: usize, k: u32| -> Outcome<Vec<i32>> {
        counters.add(task_started(k));
        let outcome = if first.swap(false, Ordering::Relaxed) {
            Outcome::Panicked(PanicPayload::Text("transient".to_string()))
        } else {
            Outcome::Finished(Ok(vec![7]))
        };
        counters.add(task_finished(5, matches!(&outcome, Outcome::Finished(Ok(_)))));
        outcome
    };
    let got: Vec<i32> = run_partitions(1, 1, None, &attempt)
        .unwrap()
        .into_iter()
        .flatten()
        .collect();
    assert_eq!(got, vec![7]);
    assert!(counter(&render(&counters), "task_retries_total") > before);
    assert!(counter(&render(&counters), "task_failures_total") > 0);
}

#[test]
fn all_counters_are_rendered_in_order() {
    let counters = Counters::new();
    counters.add(task_started(0));
    counters.add(task_started(1));
    counters.add(task_finished(40, false));
    counters.add(frame_sent(11));
    counters.add(frame_received(12));
    counters.add(spill_written(13));
    counters.add(spill_was_read(14));
    counters.add(disconnected());
    counters.add(map_emitted(16));
    let expected = "# TYPE spatter_task_attempts_total counter\n\
                    spatter_task_attempts_total 2\n\
                    # TYPE spatter_task_failures_total counter\n\
                    spatter_task_failures_total 1\n\
                    # TYPE spatter_task_retries_total counter\n\
                    spatter_task_retries_total 1\n\
                    # TYPE spatter_task_duration_microseconds_total counter\n\
                    spatter_task_duration_microseconds_total 40\n\
                    # TYPE spatter_network_sent_bytes_total counter\n\
                    spatter_network_sent_bytes_total 11\n\
                    # TYPE spatter_network_received_bytes_total counter\n\
                    spatter_network_received_bytes_total 12\n\
                    # TYPE spatter_spill_written_bytes_total counter\n\
                    spatter_spill_written_bytes_total 13\n\
                    # TYPE spatter_spill_read_bytes_total counter\n\
                    spatter_spill_read_bytes_total 14\n\
                    # TYPE spatter_dispatch_disconnects_total counter\n\
                    spatter_dispatch_disconnects_total 1\n\
                    # TYPE spatter_shuffle_map_records_total counter\n\
                    spatter_shuffle_map_records_total 16\n";
    assert_eq!(render(&counters), expected);
}

#[test]
fn jobs_are_numbered_from_one() {
    let counters = Counters::new();
    assert_eq!(counters.job_id(), 1);
    assert_eq!(counters.job_id(), 2);
}

#[test]
fn dispatched_tasks_are_counted() {
    let counters = Counters::new();
    let fine = || -> (Outcome<u8>, u128) { (Outcome::Finished(Ok(3)), 20) };
    assert_eq!(task(&counters, 4, 0, &fine).unwrap(), 3);
    let bad = || -> (Outcome<u8>, u128) { (Outcome::Panicked(PanicPayload::Other), 30) };
    match task(&counters, 4, 1, &bad) {
        Err(Error::PartitionPanic { partition, message }) => {
            assert_eq!(partition, 4);
            assert_eq!(message, "Box<dyn Any>");
        }
        other => panic!("{other:?}"),
    }
    let v = counters.read();
    assert_eq!((v.tasks, v.failures, v.retries, v.task_us), (2, 1, 1, 50));
}

#[test]
fn durations_are_capped() {
    assert_eq!(cap_micros(17), 17);
    assert_eq!(cap_micros(u128::MAX), u64::MAX);
}

#[test]
fn requests_for_metrics_are_answered() {
    let request = b"GET /metrics HTTP/1.1\r\nHost: localhost\r\n\r\n";
    assert!(request_complete(request));
    assert!(!request_complete(b"GET /metrics HTTP/1.1\r\n"));
    assert_eq!(
        respond(request, "abc\n"),
        "HTTP/1.1 200 OK\r\nContent-Type: text/plain; version=0.0.4\r\nContent-Length: 4\r\nConnection: close\r\n\r\nabc\n"
    );
    assert!(respond(b"GET /metrics HTTP/1.0\r\n", "x").starts_with("HTTP/1.1 200 OK\r\n"));
    assert_eq!(
        respond(b"GET /missing HTTP/1.1\r\n\r\n", "abc\n"),
        "HTTP/1.1 404 Not Found\r\nContent-Type: text/plain; version=0.0.4\r\nContent-Length: 10\r\nConnection: close\r\n\r\nnot found\n"
    );
    assert!(respond(b"POST /metrics HTTP/1.1\r\n", "x").starts_with("HTTP/1.1 404"));
}

#[test]
fn events_are_json_lines() {
    assert_eq!(
        started_event("local", 12, 0, 3, 4, 1),
        "{\"event\":\"task_started\",\"scope\":\"local\",\"pid\":12,\"rank\":0,\"job\":3,\"partition\":4,\"attempt\":1}"
    );
    assert_eq!(
        finished_event("dispatch", 12, 2, 3, 4, 0, 55, true),
        "{\"event\":\"task_finished\",\"scope\":\"dispatch\",\"pid\":12,\"rank\":2,\"job\":3,\"partition\":4,\"attempt\":0,\"duration_us\":55,\"success\":true}"
    );
    assert_eq!(event_rank(Some("7")), 7);
    assert_eq!(event_rank(Some("x")), 0);
    assert_eq!(event_rank(None), 0);
    assert_eq!(
        profile_line(9, "1", "encode", 250),
        "PROFILE pid=9 rank=1 stage=encode us=250"
    );
    assert_eq!(
        listen_line(2, "127.0.0.1:19002"),
        "METRICS_LISTEN rank=2 address=127.0.0.1:19002"
    );
}

#[test]
fn each_rank_listens_on_its_own_port() {
    assert_eq!(metrics_port(19000, 2).unwrap(), 19002);
    assert_eq!(metrics_port(0, 2).unwrap(), 0);
    match metrics_port(65535, 1) {
        Err(Error::Io(t)) => assert_eq!(t, "metrics port overflow"),
        other => panic!("{other:?}"),
    }
}

#[test]
fn a_shuffle_counts_its_records() {
    let counters = Arc::new(Counters::new());
    let sc = SpatterContext::builder()
        .master("local[2]")
        .build(Setup {
            available: 2,
            cluster: None,
            spill_limit: DEFAULT_SPILL_LIMIT,
            counters: counters.clone(),
        })
        .unwrap();
    let before = counter(&render(&counters), "shuffle_map_records_total");
    let counts = sc
        .parallelize(vec![
            ("hot".to_owned(), 9u64),
            ("hot".to_owned(), 9),
            ("cold".to_owned(), 1),
        ])
        .reduce_by_key(|a, b| a + b)
        .collect()
        .unwrap();
    assert_eq!(counts.iter().map(|(_, v)| v).sum::<u64>(), 19);
    let after = counter(&render(&counters), "shuffle_map_records_total");
    assert_eq!((before, after), (0, 3));
}

fn counted(master: &str, rank: Option<usize>) -> (SpatterContext, Arc<Counters>) {
    let counters = Arc::new(Counters::new());
    let sc = SpatterContext::builder()
        .master(master)
        .build(Setup {
            available: 2,
            cluster: rank.map(|r| Arc::new(Cluster::new(r, 3))),
            spill_limit: DEFAULT_SPILL_LIMIT,
            counters: counters.clone(),
        })
        .unwrap();
    (sc, counters)
}

#[test]
fn actions_count_their_tasks_and_number_their_jobs() {
    let (sc, counters) = counted("local[2]", None);
    assert_eq!(sc.parallelize(vec![1, 2, 3]).count().unwrap(), 3);
    let v = counters.read();
    assert_eq!((v.tasks, v.failures, v.retries), (2, 0, 0));
    assert_eq!(counters.job_id(), 2);
    let words = sc.parallelize(vec![("a", 1), ("b", 2), ("a", 3)]);
    assert_eq!(words.reduce_by_key(|a, b| a + b).collect().unwrap().len(), 2);
    let v = counters.read();
    assert_eq!((v.tasks, v.failures, v.retries), (2 + 2 + 2, 0, 0));
    assert_eq!(counters.job_id(), 5);
    assert_eq!(sc.parallelize(vec![1, 2, 3]).reduce(|a, b| a + b).unwrap(), 6);
    assert_eq!(counters.read().tasks, 8);
}

#[test]
fn taking_is_no_job() {
    let (sc, counters) = counted("local[2]", None);
    assert_eq!(sc.parallelize(vec![1, 2, 3]).take(2).unwrap(), vec![1, 2]);
    assert_eq!(counters.read().tasks, 0);
    assert_eq!(counters.job_id(), 1);
}

#[test]
fn a_line_that_cannot_be_read_fails_each_attempt() {
    let (sc, counters) = counted("local[1]", None);
    let lines = sc.read_text_file(&vec![b'a', b'\n', 0xff]).unwrap();
    assert!(lines.collect().is_err());
    let v = counters.read();
    assert_eq!((v.tasks, v.failures, v.retries), (3, 3, 2));
    assert_eq!(counters.job_id(), 2);
}

#[test]
fn workers_count_tasks_that_compute_nothing() {
    let (sc, counters) = counted("local[2]", Some(1));
    let calls = Arc::new(AtomicBool::new(false));
    let seen = Arc::clone(&calls);
    let data = sc.parallelize(vec![1, 2, 3]).map(move |x| {
        seen.store(true, Ordering::Relaxed);
        x
    });
    assert!(data.collect().unwrap().is_empty());
    assert!(!calls.load(Ordering::Relaxed));
    let v = counters.read();
    assert_eq!((v.tasks, v.failures, v.retries), (2, 0, 0));
    assert_eq!(counters.job_id(), 2);
}

#[test]
fn a_job_tries_panics_again_and_counts_each_attempt() {
    let counters = Counters::new();
    let first = AtomicBool::new(true);
    let compute = |p: usize| -> Result<usize, Error> {
        if p == 1 && first.swap(false, Ordering::Relaxed) {
            Err(Error::Panic { message: "transient".to_string() })
        } else {
            Ok(p * 10)
        }
    };
    assert_eq!(run_job(3, 2, None, &counters, &compute).unwrap(), vec![0, 10, 20]);
    let v = counters.read();
    assert_eq!((v.tasks, v.failures, v.retries), (4, 1, 1));
    let broken = |p: usize| -> Result<usize, Error> {
        Err(Error::Panic { message: format!("always {p}") })
    };
    match run_job(1, 1, None, &counters, &broken) {
        Err(Error::PartitionPanic { partition, message }) => {
            assert_eq!((partition, message.as_str()), (0, "always 0"))
        }
        other => panic!("{other:?}"),
    }
    let v = counters.read();
    assert_eq!((v.tasks, v.failures, v.retries), (7, 4, 3));
    assert_eq!(counters.job_id(), 3);
    assert!(run_job(0, 1, None, &counters, &broken).unwrap().is_empty());
    assert_eq!(counters.job_id(), 4);
}

#[test]
fn a_cancelled_job_misses_a_partition() {
    let counters = Counters::new();
    let cancel = AtomicBool::new(true);
    let compute = |p: usize| -> Result<usize, Error> { Ok(p) };
    assert!(matches!(
        run_job(2, 1, Some(&cancel), &counters, &compute),
        Err(Error::MissingPartition(0))
    ));
    assert_eq!(counters.read().tasks, 0);
    let (sc, _) = counted("local[2]", None);
    let sums = sc.parallelize(vec![(1u8, 1)]).reduce_by_key(|a, b| a + b);
    assert!(matches!(
        sums.prepare(Some(&cancel)),
        Err(Error::MissingPartition(0))
    ));
}

#[test]
fn the_time_of_a_task_is_counted() {
    let counters = Counters::new();
    let slow = |_: usize| -> Result<(), Error> {
        let start = Instant::now();
        while start.elapsed() < Duration::from_millis(3) {}
        Ok(())
    };
    run_job(2, 1, None, &counters, &slow).unwrap();
    assert!(counters.read().task_us >= 6000);
    let timed = || -> (Outcome<u8>, u128) { (Outcome::Panicked(PanicPayload::Other), 50) };
    assert!(matches!(local_task(&counters, 2, &timed), Outcome::Panicked(_)));
    let v = counters.read();
    assert_eq!((v.tasks, v.failures, v.retries), (3, 1, 1));
}

#[test]
fn a_map_task_counts_what_it_puts_out() {
    let counters = Counters::new();
    let pairs = vec![("a", 1), ("b", 2), ("a", 3)];
    let out = map_task(
        2,
        pairs.clone(),
        &|v: i32| v,
        &|a: i32, b: i32| a + b,
        None,
        DEFAULT_SPILL_LIMIT,
        &counters,
    )
    .unwrap();
    assert_eq!(out.iter().map(|b| b.len()).sum::<usize>(), 2);
    assert_eq!(counters.read().shuffle_records, 2);
    let cancel = AtomicBool::new(true);
    let cancelled = map_task(
        2,
        pairs,
        &|v: i32| v,
        &|a: i32, b: i32| a + b,
        Some(&cancel),
        DEFAULT_SPILL_LIMIT,
        &counters,
    );
    assert!(matches!(cancelled, Err(Error::Cancelled)));
    assert_eq!(counters.read().shuffle_records, 2);
}
