use spatter::bytes::{get_be32, put_be32, put_le16, put_le32, put_le64};
use spatter::error::Error;
use spatter::text::{decimal_text, parse_number, parse_usize, push_decimal, str_eq, trim};

#[test]
fn errors_say_what_happened() {
    let cases = vec![
        (
            Error::InvalidMaster("m".to_string()),
            "unsupported master URL: m",
        ),
        (
            Error::InvalidParallelism(0),
            "parallelism must be >= 1, got 0",
        ),
        (Error::EmptyRdd, "RDD is empty"),
        (Error::CountOverflow, "count overflowed usize"),
        (Error::MissingPartition(12), "missing partition 12"),
        (Error::Cancelled, "task cancelled"),
        (
            Error::ExecutorUnimplemented,
            "networked executor not implemented; use local[*]",
        ),
        (Error::Io("x".to_string()), "io error: x"),
        (Error::Cluster("y".to_string()), "cluster error: y"),
        (
            Error::PartitionPanic {
                partition: 3,
                message: "boom".to_string(),
            },
            "partition 3 panicked: boom",
        ),
        (
            Error::Panic {
                message: "boom".to_string(),
            },
            "task panicked: boom",
        ),
    ];
    for (error, text) in cases {
        assert_eq!(error.message(), text);
        assert_eq!(error.clone().message(), text);
    }
}

#[test]
fn numbers_are_written_and_read_in_decimal() {
    for n in [0, 7, 10, 99, 100, 18_446_744_073_709_551_615] {
        assert_eq!(decimal_text(n), n.to_string());
        assert_eq!(parse_number(&decimal_text(n), u64::MAX), Some(n));
    }
    let mut s = "p".to_string();
    push_decimal(&mut s, 42);
    assert_eq!(s, "p42");
    assert_eq!(parse_number("256", 255), None);
    assert_eq!(parse_number("255", 255), Some(255));
    assert_eq!(parse_usize("+007"), Some(7));
    assert_eq!(parse_usize("++7"), None);
    assert_eq!(parse_usize(""), None);
    assert_eq!(parse_usize("\u{0663}"), None);
}

#[test]
fn white_space_is_trimmed_as_the_standard_library_does() {
    for c in (0..0x3100u32).filter_map(char::from_u32) {
        let s = format!("{c}a{c} b{c}");
        assert_eq!(trim(&s), s.trim(), "{:?}", c);
    }
    assert_eq!(trim(" \t\n "), "");
    assert!(str_eq("ab", "ab"));
    assert!(!str_eq("ab", "abc"));
}

#[test]
fn bytes_are_in_the_stated_order() {
    let mut out = Vec::new();
    put_le16(&mut out, 0x0102);
    put_le32(&mut out, 0x0304_0506);
    put_le64(&mut out, 0x0708_090a_0b0c_0d0e);
    assert_eq!(
        out,
        vec![2, 1, 6, 5, 4, 3, 0x0e, 0x0d, 0x0c, 0x0b, 0x0a, 9, 8, 7]
    );
    let mut out = Vec::new();
    put_be32(&mut out, 0x0102_0304);
    assert_eq!(out, vec![1, 2, 3, 4]);
    assert_eq!(get_be32(&[0, 1, 2, 3, 4], 1), 0x0102_0304);
}
