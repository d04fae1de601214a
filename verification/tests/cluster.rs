use spatter::bootstrap::{
    bind_addr, cluster_port, cluster_timeout, join_config, launch_mode, master_addr, no_task,
    parse_rank_host, process_env, run_executor, spawn_request, LaunchMode,
};
use spatter::cluster::{
    frame_cost, frame_header, frame_length, io_err, no_driver, startup_timed_out, Cluster, Roster,
};
use spatter::dispatch::{
    answer, dispatch_windows, on_task, undecodable, worker_threads, OnReply, Submit, Window,
};
use spatter::error::Error;
use spatter::exchange::{gather_answered, gather_payloads, pack_buckets, unpack_parts};
use spatter::wire::{
    decode_numbers, encode_numbers, encode_reply, encode_task, Reply, Task,
};

fn strings(v: &[&str]) -> Vec<String> {
    v.iter().map(|s| s.to_string()).collect()
}

/// A driver and workers in one thread: `worker` answers a frame, or is gone.
fn dispatch_each<W, C, H>(
    n: usize,
    ranks: usize,
    mut worker: W,
    compute: C,
    mut on_ok: H,
) -> Result<(), Error>
where
    W: FnMut(usize, &[u8]) -> Option<Vec<u8>>,
    C: Fn(usize) -> Result<u64, Error>,
    H: FnMut(u64),
{
    for (start, len) in dispatch_windows(n, ranks) {
        let mut w = Window::new(5, start, len, ranks);
        let mut asked = Vec::new();
        loop {
            match w.submit() {
                Submit::Local { partition } => {
                    w.done(compute(start + partition).map(&mut on_ok));
                }
                Submit::Remote { worker, frame, .. } => {
                    asked.push((worker, frame));
                    w.asked(true);
                }
                Submit::Finished => break,
            }
        }
        for r in 0..ranks - 1 {
            assert_eq!(
                w.expected(r),
                asked.iter().filter(|(worker, _)| *worker == r).count()
            );
        }
        for (r, frame) in &asked {
            let Some(reply) = worker(*r, frame) else {
                continue;
            };
            match w.on_reply(*r, &reply) {
                OnReply::Accept { payload, .. } => {
                    let value = decode_numbers(&payload).map_err(|e| undecodable(&e));
                    w.done(value.map(|v| on_ok(v[0])));
                }
                OnReply::Replay { partition } => {
                    w.done(compute(start + partition).map(&mut on_ok));
                }
                OnReply::Ignore => {}
            }
        }
        while let Some(partition) = w.replay() {
            w.done(compute(start + partition).map(&mut on_ok));
        }
        w.finish()?;
    }
    Ok(())
}

fn honest(frame: &[u8]) -> Option<Vec<u8>> {
    let (partition, _, task) = on_task(frame)?;
    Some(answer(partition, Ok(encode_numbers(&vec![task]))))
}

#[test]
fn disconnect_replays_outstanding_partitions() {
    let mut values = Vec::new();
    dispatch_each(4, 2, |_, _| None, |p| Ok(p as u64), |v| values.push(v)).unwrap();
    values.sort();
    assert_eq!(values, vec![0, 1, 2, 3]);
}

#[test]
fn duplicate_and_wrong_owner_replies_are_rejected() {
    for partitions in [[1, 1], [0, 3], [99, 3]] {
        let mut sent = partitions.into_iter();
        let mut values = Vec::new();
        let got = dispatch_each(
            4,
            2,
            |_, _| {
                let p: u32 = sent.next()?;
                Some(encode_reply(&Reply::Computed {
                    partition: p,
                    payload: encode_numbers(&vec![p as u64]),
                }))
            },
            |p| Ok(p as u64),
            |v| values.push(v),
        );
        assert!(got.is_err());
        values.sort();
        assert_eq!(values, vec![0, 1, 2, 3]);
    }
}

#[test]
fn bounded_windows_preserve_repeated_action_alignment() {
    for _ in 0..3 {
        let mut values = Vec::new();
        dispatch_each(
            19,
            2,
            |_, frame| honest(frame),
            |p| Ok(p as u64),
            |v| values.push(v),
        )
        .unwrap();
        values.sort();
        assert_eq!(values, (0..19).collect::<Vec<u64>>());
        let payloads = vec![encode_numbers(&vec![98]), encode_numbers(&vec![99])];
        let decode = |b: &Vec<u8>| decode_numbers(b);
        assert_eq!(gather_payloads(&payloads, &decode).unwrap(), vec![98, 99]);
    }
}

#[test]
fn dispatch_each_replays_on_worker_fail() {
    let mut got = Vec::new();
    dispatch_each(
        2,
        2,
        |_, frame| {
            let (partition, _, _) = on_task(frame)?;
            Some(answer(
                partition,
                Err(Error::Cluster("injected".to_string())),
            ))
        },
        |p| Ok(p as u64 + 100),
        |v| got.push(v),
    )
    .unwrap();
    got.sort();
    assert_eq!(got, vec![100, 101]);
}

#[test]
fn parse_rank_from_pod_hostname() {
    assert_eq!(parse_rank_host("spatter-0"), Some(0));
    assert_eq!(
        parse_rank_host("spatter-12.spatter.svc.cluster.local"),
        Some(12)
    );
    assert_eq!(parse_rank_host("localhost"), None);
}

#[test]
fn master_addr_defaults_localhost() {
    let got = master_addr(18741, None, None);
    assert!(got.contains("18741") || got.contains(':'));
    assert_eq!(got, "127.0.0.1:18741");
}

#[test]
fn masters_are_taken_from_the_settings() {
    assert_eq!(master_addr(1, Some("host:9"), Some("other")), "host:9");
    assert_eq!(master_addr(7, None, Some(" first , second")), "first:7");
    assert_eq!(master_addr(7, None, Some("first:8,second")), "first:8");
    assert_eq!(master_addr(7, None, Some(" ,second")), "127.0.0.1:7");
    assert_eq!(bind_addr(None, 7), "0.0.0.0:7");
    assert_eq!(bind_addr(Some("::1"), 7), "::1:7");
    assert_eq!(cluster_timeout(None), 30000);
    assert_eq!(cluster_timeout(Some("300")), 300);
    assert_eq!(cluster_timeout(Some("soon")), 30000);
    assert_eq!(cluster_port(None), 18741);
    assert_eq!(cluster_port(Some("99999")), 18741);
    assert_eq!(cluster_port(Some("9")), 9);
}

#[test]
fn ranks_of_hosts_follow_the_last_hyphen() {
    assert_eq!(parse_rank_host("7"), Some(7));
    assert_eq!(parse_rank_host("a-b-3.c-4"), Some(4));
    assert_eq!(parse_rank_host("a-"), None);
    assert_eq!(parse_rank_host("a-1x"), None);
}

#[test]
fn clusters_are_spawned_on_request() {
    assert_eq!(spawn_request(&strings(&["p", "--cluster", "3", "in"]), false), Some(3));
    assert_eq!(spawn_request(&strings(&["p", "--cluster", "3"]), true), None);
    assert_eq!(spawn_request(&strings(&["p", "--cluster", "1"]), false), None);
    assert_eq!(spawn_request(&strings(&["p", "--cluster"]), false), None);
    assert_eq!(
        spawn_request(&strings(&["p", "--cluster", "x", "--cluster", "3"]), false),
        None
    );
    assert_eq!(
        process_env(2, 3, 18741),
        vec![
            ("SPATTER_RANK".to_string(), "2".to_string()),
            ("SPATTER_N".to_string(), "3".to_string()),
            ("SPATTER_PORT".to_string(), "18741".to_string()),
            ("SPATTER_MASTER".to_string(), "127.0.0.1:18741".to_string()),
        ]
    );
}

#[test]
fn places_in_a_cluster_come_from_the_settings() {
    assert!(join_config(None, Some("1"), None).unwrap().is_none());
    let place = join_config(Some("3"), Some("1"), Some("9")).unwrap().unwrap();
    assert_eq!((place.rank, place.n, place.port), (1, 3, 9));
    match join_config(Some("three"), Some("1"), None) {
        Err(Error::Cluster(t)) => assert_eq!(t, "invalid digit found in string"),
        other => panic!("{other:?}"),
    }
    match join_config(Some("3"), Some(""), None) {
        Err(Error::Cluster(t)) => {
            assert_eq!(t, "cannot parse integer from empty string")
        }
        other => panic!("{other:?}"),
    }
    match join_config(Some("99999999999999999999999999"), Some("1"), None) {
        Err(Error::Cluster(t)) => {
            assert_eq!(t, "number too large to fit in target type")
        }
        other => panic!("{other:?}"),
    }
    match join_config(Some("3"), None, None) {
        Err(Error::Cluster(t)) => assert_eq!(t, "environment variable not found"),
        other => panic!("{other:?}"),
    }
}

#[test]
fn parse_errors_read_like_those_of_integers() {
    for text in [
        "",
        "x",
        "+",
        "-",
        "-1",
        "1 ",
        "99999999999999999999999",
        "+x",
        "99999999999999999999x",
        "9999999999999999999x",
        "+18446744073709551616 ",
        "+18446744073709551615 ",
    ] {
        let expected = text.parse::<usize>().unwrap_err().to_string();
        match join_config(Some(text), Some("1"), None) {
            Err(Error::Cluster(t)) => assert_eq!(t, expected, "{text:?}"),
            other => panic!("{other:?}"),
        }
    }
}

#[test]
fn executors_serve_what_they_join() {
    let serve = |w: u8| -> Result<(), Error> {
        if w == 7 {
            Err(no_task())
        } else {
            Ok(())
        }
    };
    let joined = || -> Result<Option<u8>, Error> { Ok(Some(7)) };
    match run_executor(Some("1"), &joined, &serve) {
        Err(Error::Cluster(t)) => assert_eq!(t, "executor has no registered task"),
        other => panic!("{other:?}"),
    }
    let alone = || -> Result<Option<u8>, Error> { Ok(None) };
    match run_executor(Some("1"), &alone, &serve) {
        Err(Error::Cluster(t)) => assert_eq!(t, "executor failed to join cluster"),
        other => panic!("{other:?}"),
    }
    let failed = || -> Result<Option<u8>, Error> { Err(startup_timed_out()) };
    match run_executor(Some("1"), &failed, &serve) {
        Err(Error::Cluster(t)) => assert_eq!(t, "startup accept timed out"),
        other => panic!("{other:?}"),
    }
    assert_eq!(
        launch_mode(&strings(&["p", "--spatter-executor"])),
        LaunchMode::Executor
    );
}

#[test]
fn windows_hold_two_partitions_for_each_rank() {
    assert_eq!(
        dispatch_windows(19, 2),
        vec![(0, 4), (4, 4), (8, 4), (12, 4), (16, 3)]
    );
    assert_eq!(dispatch_windows(0, 3), vec![(0, 0)]);
    assert_eq!(dispatch_windows(6, 3), vec![(0, 6)]);
}

#[test]
fn tasks_name_the_job_and_its_partition() {
    let mut w = Window::new(5, 8, 2, 2);
    assert_eq!(w.task_of(1), 9);
    assert!(matches!(w.submit(), Submit::Local { partition: 0 }));
    w.done(Ok(()));
    match w.submit() {
        Submit::Remote {
            partition,
            worker,
            frame,
        } => {
            assert_eq!((partition, worker), (1, 0));
            assert_eq!(on_task(&frame), Some((1, 5, 9)));
        }
        other => panic!("{other:?}"),
    }
    w.asked(false);
    assert!(matches!(w.submit(), Submit::Finished));
    match w.finish() {
        Err(Error::Cluster(t)) => assert_eq!(t, "task write failed"),
        other => panic!("{other:?}"),
    }
}

#[test]
fn the_first_error_of_a_window_counts() {
    let mut w = Window::new(1, 0, 4, 2);
    assert!(matches!(w.submit(), Submit::Local { partition: 0 }));
    w.done(Ok(()));
    assert!(matches!(w.submit(), Submit::Remote { partition: 1, .. }));
    w.asked(true);
    assert!(matches!(w.on_reply(0, &[1, 2]), OnReply::Ignore));
    let stray = answer(3, Ok(Vec::new()));
    assert!(matches!(w.on_reply(0, &stray), OnReply::Ignore));
    assert!(matches!(w.submit(), Submit::Finished));
    assert_eq!(w.replay(), Some(1));
    w.done(Err(Error::EmptyRdd));
    assert_eq!(w.replay(), None);
    assert!(matches!(w.finish(), Err(Error::Cluster(_))));

    let mut w = Window::new(1, 0, 2, 2);
    assert!(matches!(w.submit(), Submit::Local { partition: 0 }));
    w.done(Ok(()));
    assert!(matches!(w.submit(), Submit::Remote { partition: 1, .. }));
    w.asked(true);
    assert!(matches!(w.on_reply(0, &stray), OnReply::Ignore));
    assert_eq!(w.replay(), Some(1));
    w.done(Ok(()));
    match w.finish() {
        Err(Error::Cluster(t)) => assert_eq!(t, "unexpected partition 3 from rank 1"),
        other => panic!("{other:?}"),
    }
}

#[test]
fn workers_stop_at_the_end_of_a_window() {
    assert_eq!(on_task(&encode_task(Task::Done)), None);
    assert_eq!(on_task(&[9, 9]), None);
    assert_eq!(worker_threads(1), 1);
    assert_eq!(worker_threads(2), 2);
    assert_eq!(worker_threads(64), 2);
    match undecodable(&Error::Cluster("x".to_string())) {
        Error::Cluster(t) => assert_eq!(t, "reply decode: cluster error: x"),
        other => panic!("{other:?}"),
    }
}

#[test]
fn ranks_own_every_nth_partition() {
    let c = Cluster::new(1, 3);
    assert!(c.owns(1) && c.owns(4) && !c.owns(0) && !c.owns(2));
    assert!(!c.is_driver());
    assert!(Cluster::new(0, 3).is_driver());
    c.traffic.count_sent(10);
    c.traffic.count_recv(4);
    assert_eq!((c.bytes_sent(), c.bytes_recv()), (10, 4));
    assert!(matches!(io_err("e".to_string()), Error::Cluster(t) if t == "e"));
}

#[test]
fn frames_carry_their_length() {
    assert_eq!(frame_header(258).unwrap(), vec![0, 0, 1, 2]);
    assert_eq!(frame_length(&[0, 0, 1, 2]).unwrap(), 258);
    assert_eq!(frame_length(&[16, 0, 0, 0]).unwrap(), 268435456);
    match frame_length(&[16, 0, 0, 1]) {
        Err(Error::Cluster(t)) => assert_eq!(t, "frame too large: 268435457"),
        other => panic!("{other:?}"),
    }
    match frame_header(268435457) {
        Err(Error::Cluster(t)) => assert_eq!(t, "frame too large to send"),
        other => panic!("{other:?}"),
    }
    assert_eq!(frame_cost(10), 14);
}

#[test]
fn workers_are_seated_by_rank() {
    let mut roster = Roster::new(4).unwrap();
    assert!(!roster.complete());
    roster.welcome(3).unwrap();
    roster.welcome(1).unwrap();
    for bad in [0, 1, 4] {
        match roster.welcome(bad) {
            Err(Error::Cluster(t)) => assert_eq!(t, format!("invalid worker rank {bad}")),
            other => panic!("{other:?}"),
        }
    }
    roster.welcome(2).unwrap();
    assert!(roster.complete());
    assert_eq!(roster.order(), vec![1, 2, 0]);
    match Roster::new(1) {
        Err(Error::Cluster(t)) => assert_eq!(t, "n must be >= 2"),
        other => panic!("{:?}", other.is_ok()),
    }
    match no_driver(2, "h:1") {
        Error::Cluster(t) => assert_eq!(t, "rank 2 could not connect to h:1"),
        other => panic!("{other:?}"),
    }
}

#[test]
fn an_exchange_delivers_each_chunk() {
    let chunk = |from: usize, to: usize| vec![from as u8, to as u8];
    let sent: Vec<Vec<Vec<u8>>> = (0..3)
        .map(|from| (0..3).map(|to| chunk(from, to)).collect())
        .collect();
    let ranks: Vec<Cluster> = (0..3).map(|r| Cluster::new(r, 3)).collect();
    let frames = vec![
        ranks[1].all_to_all_frame(&sent[1]).unwrap(),
        ranks[2].all_to_all_frame(&sent[2]).unwrap(),
    ];
    let done = ranks[0].all_to_all(sent[0].clone(), &frames).unwrap();
    assert_eq!(done.received, vec![chunk(0, 0), chunk(1, 0), chunk(2, 0)]);
    for r in 1..3 {
        let got = ranks[r].all_to_all_received(&done.frames[r - 1]).unwrap();
        assert_eq!(got, vec![chunk(0, r), chunk(1, r), chunk(2, r)]);
    }
}

#[test]
fn exchanges_of_the_wrong_size_are_errors() {
    let c = Cluster::new(0, 2);
    let small = Cluster::new(1, 1);
    let text = |e: Error| match e {
        Error::Cluster(t) => t,
        other => panic!("{other:?}"),
    };
    assert_eq!(
        text(c.all_to_all_frame(&vec![vec![1]]).unwrap_err()),
        "all_to_all chunk count != n"
    );
    let short = small.all_to_all_frame(&vec![vec![1]]).unwrap();
    assert_eq!(
        text(c.all_to_all(vec![vec![1], vec![2]], &vec![short.clone()]).unwrap_err()),
        "all_to_all rank payload size"
    );
    assert_eq!(
        text(c.all_to_all(vec![], &vec![short.clone()]).unwrap_err()),
        "all_to_all chunk count != n"
    );
    assert_eq!(
        text(c.all_to_all_received(&short).unwrap_err()),
        "all_to_all dest payload size"
    );
    assert_eq!(
        text(c.all_to_all_received(&[1, 2]).unwrap_err()),
        "io error: unexpected end of file"
    );
}

#[test]
fn the_first_bad_frame_of_an_exchange_is_the_error() {
    let c = Cluster::new(0, 3);
    let good = Cluster::new(1, 3)
        .all_to_all_frame(&vec![vec![1], vec![2], vec![3]])
        .unwrap();
    let short = Cluster::new(1, 1).all_to_all_frame(&vec![vec![1]]).unwrap();
    let broken = vec![1, 2];
    let sent = || vec![vec![], vec![], vec![]];
    let text = |frames: Vec<Vec<u8>>| match c.all_to_all(sent(), &frames) {
        Err(Error::Cluster(t)) => t,
        other => panic!("{:?}", other.is_ok()),
    };
    let (wrong, cut) = ("all_to_all rank payload size", "io error: unexpected end of file");
    assert_eq!(text(vec![short.clone(), broken.clone()]), wrong);
    assert_eq!(text(vec![broken.clone(), short.clone()]), cut);
    assert_eq!(text(vec![good.clone(), broken]), cut);
    assert_eq!(text(vec![good, short]), wrong);
}

#[test]
fn no_worker_is_asked_for_more_than_two_partitions() {
    for ranks in 2..6 {
        for (start, len) in dispatch_windows(23, ranks) {
            let mut w = Window::new(1, start, len, ranks);
            loop {
                match w.submit() {
                    Submit::Local { .. } => w.done(Ok(())),
                    Submit::Remote { .. } => w.asked(true),
                    Submit::Finished => break,
                }
                assert!((0..ranks - 1).all(|r| w.expected(r) <= 2));
            }
        }
    }
}

#[test]
fn workers_have_nothing_of_a_gather() {
    assert_eq!(gather_answered::<u64>(&[1, 0, 0, 0]).unwrap(), Vec::<u64>::new());
    match gather_answered::<u64>(&[1, 0]) {
        Err(Error::Cluster(t)) => assert_eq!(t, "io error: unexpected end of file"),
        other => panic!("{other:?}"),
    }
}

#[test]
fn a_frame_reads_back_as_its_payload() {
    for len in [0usize, 1, 255, 70_000] {
        let payload = vec![7u8; len];
        let mut stream = frame_header(len).unwrap();
        stream.extend(&payload);
        assert_eq!(stream.len() as u64, frame_cost(len));
        stream.extend([1, 2, 3]);
        let read = frame_length(&stream[..4]).unwrap();
        assert_eq!(stream[4..4 + read], payload[..]);
        assert_eq!(stream[4 + read..], [1, 2, 3]);
    }
}

#[test]
fn buckets_go_to_the_ranks_that_own_them() {
    let packed = pack_buckets(vec![vec!['a'], vec!['b', 'c'], vec!['d'], vec![]], 2);
    assert_eq!(
        packed,
        vec![
            vec![(0, vec!['a']), (2, vec!['d'])],
            vec![(1, vec!['b', 'c']), (3, vec![])]
        ]
    );
    let mut out = vec![vec![], vec!['z'], vec![], vec![]];
    for parts in packed {
        unpack_parts(&mut out, parts).unwrap();
    }
    assert_eq!(out, vec![vec!['a'], vec!['z', 'b', 'c'], vec!['d'], vec![]]);
    match unpack_parts(&mut out, vec![(4, vec!['x'])]) {
        Err(Error::Cluster(t)) => assert_eq!(t, "shuffle bucket 4 >= 4"),
        other => panic!("{other:?}"),
    }
}
