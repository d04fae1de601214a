use spatter::chunks::{chunk_bytes, read_chunks, reduce_spilled};
use spatter::error::Error;
use spatter::spill::{
    count_records, reduce_threads, spill_file_name, spill_limit_bytes, spill_names, store_blocks,
    IncrementalBuckets, ShuffleBlocks, SpillWrite, Stored,
};

type Pair = (String, i32);

fn io<E: ToString>(e: E) -> Error {
    Error::Io(e.to_string())
}

fn size(v: &Vec<Pair>) -> Option<u64> {
    bincode::serialized_size(v).ok()
}

fn encode(v: &Vec<Pair>) -> Result<Vec<u8>, Error> {
    bincode::serialize(v).map_err(io)
}

fn decode(b: &Vec<u8>) -> Result<Vec<Pair>, Error> {
    bincode::deserialize(b).map_err(io)
}

fn apply(files: &mut Vec<Vec<u8>>, writes: Vec<SpillWrite>) {
    for w in writes {
        if w.create {
            files[w.bucket] = w.bytes;
        } else {
            files[w.bucket].extend(w.bytes);
        }
    }
}

fn pair(k: &str, v: i32) -> Pair {
    (k.to_string(), v)
}

#[test]
fn incremental_spill_roundtrip() {
    let limit = spill_limit_bytes(None);
    let mut acc = IncrementalBuckets::new(2, 1, 0);
    let mut files = vec![Vec::new(), Vec::new()];
    acc.bytes = limit.saturating_sub(1);
    let writes = acc
        .push(vec![vec![pair("a", 1)], vec![]], &size, &encode, limit)
        .unwrap();
    apply(&mut files, writes);
    let writes = acc
        .push(
            vec![vec![pair("a", 2)], vec![pair("b", 3)]],
            &size,
            &encode,
            limit,
        )
        .unwrap();
    apply(&mut files, writes);
    let blocks = acc.finish(7);
    let names = match &blocks {
        ShuffleBlocks::Spilled(names) => names.clone(),
        ShuffleBlocks::Memory(_) => panic!("expected spill"),
    };
    assert_eq!(
        names,
        vec!["spatter-spill-7-1-0-0.bin", "spatter-spill-7-1-0-1.bin"]
    );
    let read = |name: &String| {
        let i = names.iter().position(|n| n == name).unwrap();
        read_chunks(&files[i], &decode)
    };
    let p0 = blocks.partition(0, &read).unwrap();
    let p1 = blocks.partition(1, &read).unwrap();
    assert!(p0
        .iter()
        .any(|(k, v)| k == "a" && *v == 1 || k == "a" && *v == 2));
    assert!(p1.iter().any(|(k, _)| k == "b"));
    assert_eq!(p0, vec![pair("a", 1), pair("a", 2)]);
    assert_eq!(p1, vec![pair("b", 3)]);
}

#[test]
fn records_stay_in_memory_below_the_limit() {
    let mut acc = IncrementalBuckets::new(2, 1, 0);
    let writes = acc
        .push(vec![vec![pair("a", 1)], vec![]], &size, &encode, 1000)
        .unwrap();
    assert!(writes.is_empty());
    assert_eq!(acc.bytes, 29);
    acc.push(vec![vec![pair("b", 2)]], &|_| None, &encode, 1000).unwrap();
    assert_eq!(acc.bytes, 29 + 64);
    let blocks = acc.finish(7);
    let unused = |_: &String| -> Result<Vec<Pair>, Error> { Err(Error::Cancelled) };
    assert_eq!(
        blocks.partition(0, &unused).unwrap(),
        vec![pair("a", 1), pair("b", 2)]
    );
    assert_eq!(blocks.partition(1, &unused).unwrap(), vec![]);
}

#[test]
fn a_limit_of_zero_spills_at_once() {
    let mut acc = IncrementalBuckets::new(2, 4, 9);
    let writes = acc.push(vec![vec![], vec![]], &size, &encode, 0).unwrap();
    assert_eq!(writes.len(), 2);
    assert!(writes.iter().all(|w| w.create && w.bytes.is_empty()));
    assert!(acc.spilled);
}

#[test]
fn what_cannot_be_encoded_is_an_error() {
    let broken = |_: &Vec<Pair>| -> Result<Vec<u8>, Error> { Err(io("no")) };
    let mut acc = IncrementalBuckets::new(1, 4, 9);
    let got = acc.push(vec![vec![pair("a", 1)]], &size, &broken, 0);
    let failed = got.unwrap_err();
    assert!(failed.writes.is_empty());
    assert!(matches!(failed.error, Error::Io(t) if t == "no"));
    assert_eq!(acc.memory, vec![vec![pair("a", 1)]]);
    assert!(!acc.spilled);
    let writes = acc.push(vec![vec![pair("b", 2)]], &size, &encode, 0).unwrap();
    let both = encode(&vec![pair("a", 1), pair("b", 2)]).unwrap();
    assert_eq!(writes.len(), 1);
    assert_eq!(writes[0].bytes[4..], both[..]);
    assert!(acc.spilled);
}

#[test]
fn a_chunk_that_is_halved_stays_whole() {
    let sizes = |v: &Vec<u8>| -> Result<Vec<u8>, Error> {
        if v.len() > 1 {
            Ok(vec![0; 33 << 20])
        } else if v[0] == 3 {
            Err(io("three"))
        } else {
            Ok(v.clone())
        }
    };
    let mut chunk = vec![1u8, 2];
    let bytes = chunk_bytes(&mut chunk, &sizes).unwrap();
    assert_eq!(chunk, vec![1, 2]);
    assert_eq!(bytes, vec![0, 0, 0, 1, 1, 0, 0, 0, 1, 2]);
    for (mut broken, written) in [(vec![1u8, 3], vec![0, 0, 0, 1, 1]), (vec![3, 1], vec![])] {
        let before = broken.clone();
        let failed = chunk_bytes(&mut broken, &sizes).unwrap_err();
        assert!(matches!(failed.error, Error::Io(t) if t == "three"));
        assert_eq!(failed.written, written);
        assert_eq!(broken, before);
    }
}

#[test]
fn a_failed_push_keeps_what_went_to_files() {
    let picky = |v: &Vec<Pair>| -> Result<Vec<u8>, Error> {
        if v.iter().any(|(k, _)| k == "bad") {
            Err(io("bad key"))
        } else {
            encode(v)
        }
    };
    let mut acc = IncrementalBuckets::new(4, 1, 0);
    let mut files = vec![Vec::new(); 4];
    apply(&mut files, acc.push(vec![], &size, &picky, 0).unwrap());
    assert!(acc.spilled);
    let pieces = vec![
        vec![pair("a", 1)],
        vec![],
        vec![pair("bad", 2)],
        vec![pair("c", 3)],
    ];
    let failed = acc.push(pieces, &|v: &Vec<Pair>| Some(v.len() as u64), &picky, 0).unwrap_err();
    assert!(matches!(failed.error, Error::Io(t) if t == "bad key"));
    assert_eq!(acc.bytes, 2);
    apply(&mut files, failed.writes);
    assert_eq!(read_chunks(&files[0], &decode).unwrap(), vec![pair("a", 1)]);
    assert!(files[1].is_empty() && files[2].is_empty() && files[3].is_empty());
    apply(
        &mut files,
        acc.push(vec![vec![pair("d", 4)]], &size, &picky, 0).unwrap(),
    );
    assert_eq!(
        read_chunks(&files[0], &decode).unwrap(),
        vec![pair("a", 1), pair("d", 4)]
    );
}

#[test]
fn pushes_read_back_as_their_pieces() {
    for limit in [0, 40, 100, 1000] {
        let mut acc = IncrementalBuckets::new(2, 1, 0);
        let mut files = vec![Vec::new(), Vec::new()];
        for i in 0..4 {
            let pieces = vec![vec![pair("a", i)], vec![pair("b", i), pair("c", i)]];
            apply(&mut files, acc.push(pieces, &size, &encode, limit).unwrap());
        }
        let blocks = acc.finish(7);
        let read = |name: &String| {
            let i = spill_names(7, 1, 0, 2).iter().position(|n| n == name).unwrap();
            read_chunks(&files[i], &decode)
        };
        let first: Vec<Pair> = (0..4).map(|i| pair("a", i)).collect();
        let second: Vec<Pair> = (0..4).flat_map(|i| vec![pair("b", i), pair("c", i)]).collect();
        assert_eq!(blocks.partition(0, &read).unwrap(), first);
        assert_eq!(blocks.partition(1, &read).unwrap(), second);
    }
}

#[test]
fn chunks_carry_their_length() {
    let bytes = chunk_bytes(&mut vec![1u8, 2], &|v: &Vec<u8>| Ok(v.clone())).unwrap();
    assert_eq!(bytes, vec![0, 0, 0, 2, 1, 2]);
    assert_eq!(
        chunk_bytes(&mut Vec::<u8>::new(), &|v: &Vec<u8>| Ok(v.clone())).unwrap(),
        Vec::<u8>::new()
    );
}

#[test]
fn large_chunks_are_halved() {
    let sizes = |v: &Vec<u8>| -> Result<Vec<u8>, Error> {
        Ok(vec![v.len() as u8; v.len() * 20 * 1024 * 1024])
    };
    let bytes = chunk_bytes(&mut vec![1, 2], &sizes).unwrap();
    assert_eq!(bytes.len(), 2 * (4 + 20 * 1024 * 1024));
    let huge = |_: &Vec<u8>| -> Result<Vec<u8>, Error> { Ok(vec![0; 64 * 1024 * 1024 + 1]) };
    match chunk_bytes(&mut vec![1u8, 2], &huge) {
        Err(failed) => {
            assert!(failed.written.is_empty());
            assert!(matches!(failed.error, Error::Io(t) if t == "spill record too large"));
        }
        Ok(_) => panic!("a record of that size is refused"),
    }
}

#[test]
fn damaged_spills_are_errors() {
    let text = |r: Result<Vec<Pair>, Error>| match r {
        Err(Error::Io(t)) => t,
        other => panic!("{other:?}"),
    };
    assert_eq!(
        text(read_chunks(&vec![0, 0], &decode)),
        "truncated spill header"
    );
    assert_eq!(
        text(read_chunks(&vec![4, 0, 0, 1], &decode)),
        "spill chunk too large"
    );
    assert_eq!(
        text(read_chunks(&vec![0, 0, 0, 3, 1], &decode)),
        "failed to fill whole buffer"
    );
    assert_eq!(
        text(read_chunks(&vec![0, 0, 0, 1, 1], &decode)),
        "io error: unexpected end of file"
    );
    assert_eq!(read_chunks(&vec![], &decode).unwrap(), Vec::<Pair>::new());
}

#[test]
fn spilled_records_reduce_by_key() {
    let mut bytes = chunk_bytes(&mut vec![pair("a", 1), pair("b", 2)], &encode).unwrap();
    bytes.extend(chunk_bytes(&mut vec![pair("a", 5)], &encode).unwrap());
    let got = reduce_spilled(&bytes, &decode, &|a: i32, b: i32| a + b).unwrap();
    assert_eq!(got, vec![pair("a", 6), pair("b", 2)]);
    bytes.push(0);
    assert!(reduce_spilled(&bytes, &decode, &|a: i32, b: i32| a + b).is_err());
}

#[test]
fn reduced_buckets_are_stored_by_size() {
    let buckets = vec![vec![pair("a", 1)], vec![pair("b", 2), pair("c", 3)]];
    assert_eq!(count_records(&buckets), 3);
    match store_blocks(buckets.clone(), &encode, 193).unwrap() {
        Stored::Memory(kept) => assert_eq!(kept, buckets),
        Stored::Files(_) => panic!("expected memory"),
    }
    match store_blocks(buckets.clone(), &encode, 192).unwrap() {
        Stored::Memory(_) => panic!("expected files"),
        Stored::Files(writes) => {
            let mut files = vec![Vec::new(), Vec::new()];
            apply(&mut files, writes);
            for (file, bucket) in files.iter().zip(&buckets) {
                assert_eq!(&read_chunks(file, &decode).unwrap(), bucket);
            }
        }
    }
}

#[test]
fn limits_and_threads_come_from_the_settings() {
    assert_eq!(spill_limit_bytes(None), 64 * 1024 * 1024);
    assert_eq!(spill_limit_bytes(Some("0")), 0);
    assert_eq!(spill_limit_bytes(Some("3")), 3 * 1024 * 1024);
    assert_eq!(spill_limit_bytes(Some("many")), 64 * 1024 * 1024);
    assert_eq!(spill_limit_bytes(Some("18446744073709551615")), usize::MAX);
    assert_eq!(reduce_threads(None, 8), 2);
    assert_eq!(reduce_threads(None, 1), 1);
    assert_eq!(reduce_threads(Some("5"), 8), 5);
    assert_eq!(reduce_threads(Some("0"), 8), 1);
}

#[test]
fn spill_files_have_different_names() {
    let mut names = Vec::new();
    for id in 0..12 {
        for seq in 0..12 {
            names.extend(spill_names(1, id, seq, 12));
        }
    }
    let n = names.len();
    names.sort();
    names.dedup();
    assert_eq!(names.len(), n);
    assert_eq!(spill_file_name(10, 11, 12, 13), "spatter-spill-10-11-12-13.bin");
}
