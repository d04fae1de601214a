use spatter::error::Error;
use spatter::wire::{
    decode_ack, decode_hello, decode_numbers, decode_reply, decode_strings, decode_task,
    encode_ack, encode_hello, encode_numbers, encode_reply, encode_strings, encode_task, Hello,
    Reply, Task,
};

fn text<T>(r: Result<T, Error>) -> String {
    match r {
        Err(Error::Cluster(t)) => t,
        Err(e) => panic!("{e:?}"),
        Ok(_) => panic!("expected an error"),
    }
}

#[test]
fn greetings_and_acknowledgements_are_four_bytes() {
    assert_eq!(encode_hello(Hello { rank: 258 }), vec![2, 1, 0, 0]);
    assert_eq!(decode_hello(&[2, 1, 0, 0]).unwrap().rank, 258);
    assert_eq!(encode_ack(), vec![1, 0, 0, 0]);
    assert_eq!(decode_ack(&[1, 0, 0, 0]).unwrap(), 1);
    assert_eq!(text(decode_hello(&[2, 1])), "io error: unexpected end of file");
    assert_eq!(text(decode_ack(&[])), "io error: unexpected end of file");
}

#[test]
fn tasks_round_trip() {
    let run = Task::Run {
        partition: 3,
        job: 4,
        task: 5,
    };
    let mut expected = vec![0, 0, 0, 0, 3, 0, 0, 0];
    expected.extend([4, 0, 0, 0, 0, 0, 0, 0, 5, 0, 0, 0, 0, 0, 0, 0]);
    assert_eq!(encode_task(run), expected);
    assert_eq!(decode_task(&expected).unwrap(), run);
    assert_eq!(encode_task(Task::Done), vec![1, 0, 0, 0]);
    assert_eq!(decode_task(&[1, 0, 0, 0, 9]).unwrap(), Task::Done);
    assert!(decode_task(&[2, 0, 0, 0]).is_err());
    assert!(decode_task(&expected[..10]).is_err());
}

#[test]
fn replies_round_trip() {
    let computed = Reply::Computed {
        partition: 7,
        payload: vec![8, 9],
    };
    let bytes = encode_reply(&computed);
    assert_eq!(
        bytes,
        vec![0, 0, 0, 0, 7, 0, 0, 0, 2, 0, 0, 0, 0, 0, 0, 0, 8, 9]
    );
    match decode_reply(&bytes).unwrap() {
        Reply::Computed { partition, payload } => {
            assert_eq!((partition, payload), (7, vec![8, 9]))
        }
        other => panic!("{other:?}"),
    }
    let failed = Reply::Failed {
        partition: 1,
        message: "\u{e9}".to_string(),
    };
    assert_eq!(failed.partition(), 1);
    let bytes = encode_reply(&failed);
    assert_eq!(
        bytes,
        vec![1, 0, 0, 0, 1, 0, 0, 0, 2, 0, 0, 0, 0, 0, 0, 0, 0xc3, 0xa9]
    );
    match decode_reply(&bytes).unwrap() {
        Reply::Failed { partition, message } => {
            assert_eq!((partition, message.as_str()), (1, "\u{e9}"))
        }
        other => panic!("{other:?}"),
    }
    assert!(decode_reply(&bytes[..17]).is_err());
    assert!(decode_reply(&[5, 0, 0, 0, 1, 0, 0, 0]).is_err());
    let mut broken = bytes.clone();
    broken[17] = 0xff;
    assert!(decode_reply(&broken).is_err());
}

#[test]
fn lists_round_trip() {
    let bytes = encode_numbers(&vec![1, 256]);
    assert_eq!(
        bytes,
        vec![2, 0, 0, 0, 0, 0, 0, 0, 1, 0, 0, 0, 0, 0, 0, 0, 0, 1, 0, 0, 0, 0, 0, 0]
    );
    assert_eq!(decode_numbers(&bytes).unwrap(), vec![1, 256]);
    assert!(decode_numbers(&bytes[..20]).is_err());
    let strings = vec![vec![1, 2], vec![], vec![3]];
    let bytes = encode_strings(&strings);
    assert_eq!(bytes.len(), 8 + 8 + 2 + 8 + 8 + 1);
    assert_eq!(decode_strings(&bytes).unwrap(), strings);
    assert!(decode_strings(&bytes[..bytes.len() - 1]).is_err());
}

#[test]
fn encodings_are_those_of_the_codec() {
    assert_eq!(
        encode_numbers(&vec![5, 6]),
        bincode::serialize(&vec![5u64, 6]).unwrap()
    );
    assert_eq!(
        encode_strings(&vec![vec![5], vec![6, 7]]),
        bincode::serialize(&vec![vec![5u8], vec![6, 7]]).unwrap()
    );
    assert_eq!(
        encode_reply(&Reply::Failed {
            partition: 2,
            message: "m".to_string()
        }),
        bincode::serialize(&(1u32, 2u32, "m".to_string())).unwrap()
    );
}
