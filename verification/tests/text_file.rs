use spatter::context::Setup;
use spatter::partition::byte_splits;
use spatter::prelude::{Error, SpatterContext};
use spatter::source::{read_range, FileLines};

fn context(master: &str) -> SpatterContext {
    SpatterContext::builder()
        .master(master)
        .build(Setup::local(4))
        .unwrap()
}

#[test]
fn read_text_file_splits_lines() {
    let contents = b"alpha\nbeta gamma\ndelta\n".to_vec();
    let sc = context("local[2]");
    let mut lines = sc.read_text_file(&contents).unwrap().collect().unwrap();
    lines.sort();
    assert_eq!(
        lines,
        vec![
            "alpha".to_string(),
            "beta gamma".to_string(),
            "delta".to_string()
        ]
    );
}

#[test]
fn read_text_file_many_partitions() {
    let contents = b"the cat sat\nthe cat ran\n".to_vec();
    let sc = context("local[8]");
    let mut lines = sc
        .read_text_file_partitions(&contents, 16)
        .unwrap()
        .collect()
        .unwrap();
    lines.sort();
    assert_eq!(
        lines,
        vec!["the cat ran".to_string(), "the cat sat".to_string()]
    );
    assert_eq!(sc.file_partition_opens(), 16);
}

#[test]
fn word_count_of_the_introduction() {
    let contents = b"hello world hello\nfoo bar foo\n".to_vec();
    let counts = context("local[4]")
        .read_text_file(&contents)
        .unwrap()
        .flat_map(|line| {
            line.split_whitespace()
                .map(|w| w.to_string())
                .collect::<Vec<_>>()
        })
        .map(|w| (w, 1usize))
        .reduce_by_key(|a, b| a + b)
        .collect()
        .unwrap();
    assert_eq!(counts.len(), 4);
    assert_eq!(counts.iter().map(|(_, c)| c).sum::<usize>(), 6);
}

#[test]
fn every_line_is_read_once_however_the_file_is_cut() {
    let text = "one\r\ntwo\n\nthree four\nlast without newline";
    let bytes = text.as_bytes().to_vec();
    let expected = vec!["one", "two", "", "three four", "last without newline"];
    for n in 1..60 {
        let rdd = context("local[3]")
            .read_text_file_partitions(&bytes, n)
            .unwrap();
        assert_eq!(rdd.get_num_partitions(), n);
        assert_eq!(rdd.collect().unwrap(), expected);
    }
}

#[test]
fn a_range_holds_the_lines_that_start_in_it() {
    let bytes = b"aa\nbb\ncc\n".to_vec();
    assert_eq!(read_range(&bytes, 0, 3).unwrap(), vec!["aa"]);
    assert_eq!(read_range(&bytes, 0, 4).unwrap(), vec!["aa", "bb"]);
    assert_eq!(read_range(&bytes, 1, 3).unwrap(), Vec::<String>::new());
    assert_eq!(read_range(&bytes, 3, 9).unwrap(), vec!["bb", "cc"]);
    assert_eq!(read_range(&bytes, 5, 5).unwrap(), Vec::<String>::new());
}

#[test]
fn carriage_returns_go_only_with_their_newline() {
    let bytes = b"a\r\nb\rc\nd\r".to_vec();
    assert_eq!(read_range(&bytes, 0, 9).unwrap(), vec!["a", "b\rc", "d\r"]);
}

#[test]
fn text_beyond_ascii_is_read() {
    let bytes = "h\u{e9}llo\nw\u{f6}rld \u{1f600}\n".as_bytes().to_vec();
    let end = bytes.len() as u64;
    assert_eq!(
        read_range(&bytes, 0, end).unwrap(),
        vec!["h\u{e9}llo", "w\u{f6}rld \u{1f600}"]
    );
}

#[test]
fn ranges_beyond_the_file_and_broken_text_are_errors() {
    let bytes = b"ab\n".to_vec();
    match read_range(&bytes, 4, 8) {
        Err(Error::Io(t)) => assert_eq!(t, "failed to fill whole buffer"),
        other => panic!("{other:?}"),
    }
    let broken = vec![b'a', b'\n', 0xff, b'\n'];
    match read_range(&broken, 0, 4) {
        Err(Error::Panic { message }) => assert_eq!(
            message,
            "read_text_file: stream did not contain valid UTF-8"
        ),
        other => panic!("{other:?}"),
    }
    let sc = context("local");
    let rdd = sc.read_text_file_partitions(&broken, 2).unwrap();
    assert_eq!(sc.file_partition_opens(), 0);
    match rdd.collect() {
        Err(Error::PartitionPanic { partition, message }) => {
            assert_eq!(partition, 1);
            assert_eq!(
                message,
                "read_text_file: stream did not contain valid UTF-8"
            );
        }
        other => panic!("{other:?}"),
    }
    assert_eq!(rdd.take(1).unwrap(), vec!["a"]);
    assert!(matches!(
        rdd.take(2),
        Err(Error::PartitionPanic { partition: 1, .. })
    ));
    let lengths = rdd.map(|line| (line.len(), 1)).reduce_by_key(|a, b| a + b);
    assert!(matches!(
        lengths.count(),
        Err(Error::PartitionPanic { partition: 1, .. })
    ));
    assert!(matches!(
        sc.read_text_file_partitions(&bytes, 0),
        Err(Error::InvalidParallelism(0))
    ));
}

#[test]
fn a_cut_within_a_character_does_no_harm() {
    let text = "\u{e9}\n".as_bytes().to_vec();
    assert_eq!(read_range(&text, 0, 1).unwrap(), vec!["\u{e9}"]);
    assert_eq!(read_range(&text, 1, 3).unwrap(), Vec::<String>::new());
    let long = "\u{1f600}\u{e9}\r\nz\u{df}\n\u{1f600}".as_bytes().to_vec();
    for n in 1..30 {
        let lines = context("local[2]")
            .read_text_file_partitions(&text, n)
            .unwrap()
            .collect()
            .unwrap();
        assert_eq!(lines, vec!["\u{e9}"]);
        let lines = context("local[2]")
            .read_text_file_partitions(&long, n)
            .unwrap()
            .collect()
            .unwrap();
        assert_eq!(lines, vec!["\u{1f600}\u{e9}", "z\u{df}", "\u{1f600}"]);
    }
}

#[test]
fn a_file_is_read_whenever_its_dataset_is_evaluated() {
    let sc = context("local[2]");
    let rdd = sc
        .read_text_file_partitions(&b"a\nb\nc\n".to_vec(), 3)
        .unwrap();
    assert_eq!(sc.file_partition_opens(), 0);
    assert_eq!(rdd.count().unwrap(), 3);
    assert_eq!(sc.file_partition_opens(), 3);
    assert_eq!(rdd.take(1).unwrap(), vec!["a"]);
    assert_eq!(sc.file_partition_opens(), 4);
}

#[test]
fn lines_beyond_those_taken_are_not_read() {
    let broken = vec![b'a', b'\n', b'b', b'\r', b'\n', 0xff, b'\n'];
    let rdd = context("local")
        .read_text_file_partitions(&broken, 1)
        .unwrap();
    assert_eq!(rdd.take(2).unwrap(), vec!["a", "b"]);
    assert!(matches!(
        rdd.take(3),
        Err(Error::PartitionPanic { partition: 0, .. })
    ));
}

#[test]
fn a_reader_follows_its_range() {
    assert_eq!(FileLines::seek_to(0), 0);
    assert_eq!(FileLines::seek_to(7), 6);
    let (mut lines, skip) = FileLines::open(3, 6, Some(b'x'));
    assert!(skip);
    assert!(lines.wants_line(Some(5)));
    assert_eq!(
        lines.take_line(b"abc\n".to_vec()).unwrap(),
        Some("abc".to_string())
    );
    assert!(!lines.wants_line(Some(9)));
    assert!(!lines.wants_line(Some(5)));
    let (_, skip) = FileLines::open(3, 6, Some(b'\n'));
    assert!(!skip);
    let (mut empty, skip) = FileLines::open(0, 0, None);
    assert!(!skip);
    assert!(!empty.wants_line(Some(0)));
    let (mut lost, _) = FileLines::open(0, 9, None);
    assert!(!lost.wants_line(None));
    let (mut ended, _) = FileLines::open(0, 9, None);
    assert_eq!(ended.take_line(Vec::new()).unwrap(), None);
    assert!(!ended.wants_line(Some(0)));
}

#[test]
fn ranges_of_a_file_are_its_byte_splits() {
    let bytes = b"a\nbb\nccc\ndddd\n".to_vec();
    let rdd = context("local")
        .read_text_file_partitions(&bytes, 3)
        .unwrap();
    let e = rdd.prepare(None).unwrap();
    let splits = byte_splits(bytes.len() as u64, 3).unwrap();
    for (p, (start, end)) in splits.into_iter().enumerate() {
        assert_eq!(
            e.compute(p, None).unwrap(),
            read_range(&bytes, start, end).unwrap()
        );
    }
}
