use spatter::error::Error;
use spatter::partition::{byte_splits, parse_local_threads, split_contiguous};

#[test]
fn parse_local_meanings() {
    assert_eq!(parse_local_threads("local", 8).unwrap(), 1);
    assert!(parse_local_threads("local[*]", 8).unwrap() >= 1);
    assert_eq!(parse_local_threads("local[4]", 8).unwrap(), 4);
}

#[test]
fn parse_rejects_cluster() {
    assert!(parse_local_threads("spatter://localhost:7077", 8).is_err());
    assert!(parse_local_threads("local[0]", 8).is_err());
}

#[test]
fn contiguous_splits_like_spark() {
    let parts = split_contiguous(vec![1, 2, 3, 4, 5], 2).unwrap();
    assert_eq!(parts.len(), 2);
    assert_eq!(parts[0], vec![1, 2]);
    assert_eq!(parts[1], vec![3, 4, 5]);
}

#[test]
fn contiguous_rejects_zero() {
    assert!(split_contiguous(vec![1], 0).is_err());
}

#[test]
fn contiguous_empty_and_more_parts_than_items() {
    let empty: Vec<i32> = split_contiguous(Vec::new(), 3)
        .unwrap()
        .into_iter()
        .flatten()
        .collect();
    assert!(empty.is_empty());
    let parts = split_contiguous(vec![1, 2], 5).unwrap();
    assert_eq!(parts.len(), 5);
    let flat: Vec<_> = parts.into_iter().flatten().collect();
    assert_eq!(flat, vec![1, 2]);
}

#[test]
fn parse_malformed() {
    assert!(matches!(
        parse_local_threads("local[]", 8),
        Err(Error::InvalidMaster(_))
    ));
    assert!(matches!(parse_local_threads(" local[4] ", 8), Ok(4)));
}

#[test]
fn byte_splits_cover_file() {
    let splits = byte_splits(10, 3).unwrap();
    assert_eq!(splits, vec![(0, 3), (3, 6), (6, 10)]);
}

#[test]
fn star_means_all_that_is_available() {
    assert_eq!(parse_local_threads("local[*]", 12).unwrap(), 12);
}

#[test]
fn masters_that_are_not_local_are_named_in_the_error() {
    match parse_local_threads("  yarn \n", 8) {
        Err(Error::InvalidMaster(m)) => assert_eq!(m, "yarn"),
        other => panic!("{other:?}"),
    }
    assert!(matches!(
        parse_local_threads("local[0]", 8),
        Err(Error::InvalidParallelism(0))
    ));
    assert!(matches!(
        parse_local_threads("local[99999999999999999999999]", 8),
        Err(Error::InvalidMaster(_))
    ));
    assert!(matches!(
        parse_local_threads("local[-1]", 8),
        Err(Error::InvalidMaster(_))
    ));
    assert!(matches!(parse_local_threads("local[+3]", 8), Ok(3)));
}

#[test]
fn splits_follow_each_other_and_differ_by_at_most_one() {
    for len in [0usize, 1, 2, 7, 100] {
        for n in [1usize, 2, 3, 7, 30] {
            let data: Vec<usize> = (0..len).collect();
            let parts = split_contiguous(data.clone(), n).unwrap();
            assert_eq!(parts.len(), n);
            let least = parts.iter().map(|p| p.len()).min().unwrap();
            let most = parts.iter().map(|p| p.len()).max().unwrap();
            assert!(most - least <= 1);
            let flat: Vec<usize> = parts.into_iter().flatten().collect();
            assert_eq!(flat, data);
        }
    }
}

#[test]
fn byte_splits_of_a_huge_file_do_not_overflow() {
    let splits = byte_splits(u64::MAX, 3).unwrap();
    assert_eq!(splits[0], (0, 6148914691236517205));
    assert_eq!(splits[2].1, u64::MAX);
    assert!(matches!(byte_splits(10, 0), Err(Error::InvalidParallelism(0))));
}
