//! Messages between ranks, as bytes.
use vstd::prelude::*;
use vstd::utf8::{encode_utf8, encode_utf8_decode_utf8};

use crate::bytes::{le32, le64, lemma_le32_inj, lemma_le64_inj, lemma_little_endian};
use crate::error::Error;
use crate::seqs::{concat, lemma_concat_first, lemma_concat_flattens};
use crate::text::push_decimal;

verus! {

/// What bincode says went wrong.
#[verifier::external_type_specification]
#[verifier::external_body]
pub struct ExErrorKind(bincode::ErrorKind);

/// The text of an error of bincode. Nothing is claimed of it.
#[verifier::external_body]
fn codec_text(e: &Box<bincode::ErrorKind>) -> (s: String) {
    e.to_string()
}

fn codec_error(e: Box<bincode::ErrorKind>) -> (r: Error)
    ensures
        r is Cluster,
{
    Error::Cluster(codec_text(&e))
}

// ---- layouts

/// `bytes` starts with `head`.
pub open spec fn begins(bytes: Seq<u8>, head: Seq<u8>) -> bool {
    bytes.len() >= head.len() && bytes.take(head.len() as int) == head
}

/// A byte string: its length and then its bytes.
pub open spec fn string_layout(b: Seq<u8>) -> Seq<u8> {
    le64(b.len() as u64) + b
}

/// Four numbers.
pub open spec fn run_layout(tag: u32, partition: u32, job: u64, task: u64) -> Seq<u8> {
    le32(tag) + le32(partition) + le64(job) + le64(task)
}

/// Two numbers and a byte string.
pub open spec fn reply_layout(tag: u32, partition: u32, b: Seq<u8>) -> Seq<u8> {
    le32(tag) + le32(partition) + string_layout(b)
}

/// A list of numbers: how many there are, and then each.
pub open spec fn numbers_layout(v: Seq<u64>) -> Seq<u8> {
    le64(v.len() as u64) + concat(v.map_values(|x: u64| le64(x)))
}

/// A list of byte strings: how many there are, and then each.
pub open spec fn strings_layout(v: Seq<Seq<u8>>) -> Seq<u8> {
    le64(v.len() as u64) + concat(v.map_values(|b: Seq<u8>| string_layout(b)))
}

/// The contents of each vector of a vector.
pub open spec fn contents<A>(v: Seq<Vec<A>>) -> Seq<Seq<A>> {
    v.map_values(|x: Vec<A>| x@)
}

// ---- encoding and decoding

/// `bincode::serialize` of a number: its four bytes, least significant first. Writing numbers,
/// strings and lists into a vector never fails.
#[verifier::external_body]
fn put_u32(x: u32) -> (r: Result<Vec<u8>, Box<bincode::ErrorKind>>)
    ensures
        r is Ok && r->Ok_0@ == le32(x),
{
    bincode::serialize(&x)
}

/// `bincode::deserialize` of a number: succeeds exactly if the bytes begin with a number's layout;
/// what follows is ignored.
#[verifier::external_body]
fn get_u32(bytes: &[u8]) -> (r: Result<u32, Box<bincode::ErrorKind>>)
    ensures
        match r {
            Ok(x) => begins(bytes@, le32(x)),
            Err(_) => bytes@.len() < 4,
        },
{
    bincode::deserialize(bytes)
}

/// `bincode::serialize` of four numbers: one after the other.
#[verifier::external_body]
fn put_run(tag: u32, partition: u32, job: u64, task: u64) -> (r: Result<
    Vec<u8>,
    Box<bincode::ErrorKind>,
>)
    ensures
        r is Ok && r->Ok_0@ == run_layout(tag, partition, job, task),
{
    bincode::serialize(&(tag, partition, job, task))
}

/// `bincode::deserialize` of four numbers: succeeds exactly if there are bytes for all four.
#[verifier::external_body]
fn get_run(bytes: &[u8]) -> (r: Result<(u32, u32, u64, u64), Box<bincode::ErrorKind>>)
    ensures
        match r {
            Ok((tag, partition, job, task)) => begins(
                bytes@,
                run_layout(tag, partition, job, task),
            ),
            Err(_) => bytes@.len() < 24,
        },
{
    bincode::deserialize(bytes)
}

/// `bincode::serialize` of two numbers and a byte vector.
#[verifier::external_body]
fn put_reply(tag: u32, partition: u32, payload: &Vec<u8>) -> (r: Result<
    Vec<u8>,
    Box<bincode::ErrorKind>,
>)
    ensures
        r is Ok && r->Ok_0@ == reply_layout(tag, partition, payload@),
{
    bincode::serialize(&(tag, partition, payload))
}

/// `bincode::deserialize` of two numbers and a byte vector: succeeds exactly if the bytes begin
/// with the layout of some such values.
#[verifier::external_body]
fn get_reply(bytes: &[u8]) -> (r: Result<(u32, u32, Vec<u8>), Box<bincode::ErrorKind>>)
    ensures
        match r {
            Ok((tag, partition, payload)) => begins(
                bytes@,
                reply_layout(tag, partition, payload@),
            ),
            Err(_) => forall|tag: u32, partition: u32, b: Seq<u8>|
                !begins(bytes@, #[trigger] reply_layout(tag, partition, b)),
        },
{
    bincode::deserialize(bytes)
}

/// `bincode::serialize` of two numbers and a string, which is laid out as the bytes of its UTF-8
/// form.
#[verifier::external_body]
fn put_failure(tag: u32, partition: u32, message: &String) -> (r: Result<
    Vec<u8>,
    Box<bincode::ErrorKind>,
>)
    ensures
        r is Ok && r->Ok_0@ == reply_layout(tag, partition, encode_utf8(message@)),
{
    bincode::serialize(&(tag, partition, message))
}

/// `bincode::deserialize` of two numbers and a string: succeeds exactly if the bytes begin with the
/// layout of some such values, so that bytes that are no UTF-8 are refused.
#[verifier::external_body]
fn get_failure(bytes: &[u8]) -> (r: Result<(u32, u32, String), Box<bincode::ErrorKind>>)
    ensures
        match r {
            Ok((tag, partition, message)) => begins(
                bytes@,
                reply_layout(tag, partition, encode_utf8(message@)),
            ),
            Err(_) => forall|tag: u32, partition: u32, text: Seq<char>|
                !begins(bytes@, #[trigger] reply_layout(tag, partition, encode_utf8(text))),
        },
{
    bincode::deserialize(bytes)
}

/// `bincode::serialize` of a vector of numbers.
#[verifier::external_body]
fn put_numbers(v: &Vec<u64>) -> (r: Result<Vec<u8>, Box<bincode::ErrorKind>>)
    ensures
        r is Ok && r->Ok_0@ == numbers_layout(v@),
{
    bincode::serialize(v)
}

/// `bincode::deserialize` of a vector of numbers: succeeds exactly if the bytes begin with the
/// layout of some list.
#[verifier::external_body]
fn get_numbers(bytes: &[u8]) -> (r: Result<Vec<u64>, Box<bincode::ErrorKind>>)
    ensures
        match r {
            Ok(v) => begins(bytes@, numbers_layout(v@)),
            Err(_) => forall|v: Seq<u64>| !begins(bytes@, #[trigger] numbers_layout(v)),
        },
{
    bincode::deserialize(bytes)
}

/// `bincode::serialize` of a vector of byte vectors.
#[verifier::external_body]
fn put_strings(v: &Vec<Vec<u8>>) -> (r: Result<Vec<u8>, Box<bincode::ErrorKind>>)
    ensures
        r is Ok && r->Ok_0@ == strings_layout(contents(v@)),
{
    bincode::serialize(v)
}

/// `bincode::deserialize` of a vector of byte vectors: succeeds exactly if the bytes begin with the
/// layout of some list.
#[verifier::external_body]
fn get_strings(bytes: &[u8]) -> (r: Result<Vec<Vec<u8>>, Box<bincode::ErrorKind>>)
    ensures
        match r {
            Ok(v) => begins(bytes@, strings_layout(contents(v@))),
            Err(_) => forall|v: Seq<Seq<u8>>| !begins(bytes@, #[trigger] strings_layout(v)),
        },
{
    bincode::deserialize(bytes)
}

fn encoded(r: Result<Vec<u8>, Box<bincode::ErrorKind>>) -> (v: Vec<u8>)
    requires
        r is Ok,
    ensures
        v == r->Ok_0,
{
    match r {
        Ok(v) => v,
        Err(_) => vstd::pervasive::unreached(),
    }
}

// ---- messages

/// What a worker says when it connects.
#[derive(Clone, Copy, Debug, PartialEq, Eq, Structural)]
pub struct Hello {
    pub rank: u32,
}

/// What the driver tells a worker to do.
#[derive(Clone, Copy, Debug, PartialEq, Eq, Structural)]
pub enum Task {
    Run { partition: u32, job: u64, task: u64 },
    Done,
}

/// What a worker answers.
#[derive(Debug)]
pub enum Reply {
    Computed { partition: u32, payload: Vec<u8> },
    Failed { partition: u32, message: String },
}

/// The bytes of a task.
pub open spec fn task_layout(t: Task) -> Seq<u8> {
    match t {
        Task::Run { partition, job, task } => run_layout(0, partition, job, task),
        Task::Done => le32(1),
    }
}

/// The bytes of a reply.
pub open spec fn reply_bytes(r: Reply) -> Seq<u8> {
    match r {
        Reply::Computed { partition, payload } => reply_layout(0, partition, payload@),
        Reply::Failed { partition, message } => reply_layout(1, partition, encode_utf8(message@)),
    }
}

/// Two replies that say the same.
pub open spec fn same_reply(a: Reply, b: Reply) -> bool {
    match (a, b) {
        (
            Reply::Computed { partition: p, payload: x },
            Reply::Computed { partition: q, payload: y },
        ) => p == q && x@ == y@,
        (
            Reply::Failed { partition: p, message: x },
            Reply::Failed { partition: q, message: y },
        ) => p == q && x@ == y@,
        _ => false,
    }
}

impl Reply {
    pub fn partition(&self) -> (p: u32)
        ensures
            p == match *self {
                Reply::Computed { partition, payload } => partition,
                Reply::Failed { partition, message } => partition,
            },
    {
        match self {
            Reply::Computed { partition, .. } => *partition,
            Reply::Failed { partition, .. } => *partition,
        }
    }
}

pub fn encode_hello(h: Hello) -> (v: Vec<u8>)
    ensures
        v@ == le32(h.rank),
{
    encoded(put_u32(h.rank))
}

pub fn decode_hello(bytes: &[u8]) -> (r: Result<Hello, Error>)
    ensures
        match r {
            Ok(h) => begins(bytes@, le32(h.rank)),
            Err(e) => e is Cluster && forall|rank: u32| !begins(bytes@, #[trigger] le32(rank)),
        },
{
    match get_u32(bytes) {
        Ok(rank) => Ok(Hello { rank }),
        Err(e) => Err(codec_error(e)),
    }
}

pub fn encode_task(t: Task) -> (v: Vec<u8>)
    ensures
        v@ == task_layout(t),
{
    match t {
        Task::Run { partition, job, task } => encoded(put_run(0, partition, job, task)),
        Task::Done => encoded(put_u32(1)),
    }
}

fn unknown_variant(tag: u32) -> (e: Error)
    ensures
        e is Cluster,
{
    let mut s = "invalid value: integer `".to_string();
    push_decimal(&mut s, tag as u64);
    s.append("`, expected variant index 0 <= i < 2");
    Error::Cluster(s)
}

proof fn lemma_begins_tag(bytes: Seq<u8>, tag: u32, head: Seq<u8>, other: u32, rest: Seq<u8>)
    requires
        begins(bytes, le32(tag)),
        head == le32(other) + rest,
        begins(bytes, head),
    ensures
        tag == other,
{
    assert(bytes.take(4) == le32(tag));
    assert(bytes.take(head.len() as int).take(4) =~= bytes.take(4));
    assert(head.take(4) =~= le32(other));
    lemma_le32_inj(tag, other);
}

pub fn decode_task(bytes: &[u8]) -> (r: Result<Task, Error>)
    ensures
        match r {
            Ok(t) => begins(bytes@, task_layout(t)),
            Err(e) => e is Cluster && forall|t: Task| !begins(bytes@, #[trigger] task_layout(t)),
        },
{
    let tag = match get_u32(bytes) {
        Ok(tag) => tag,
        Err(e) => {
            return Err(codec_error(e));
        },
    };
    proof {
        assert forall|t: Task| begins(bytes@, #[trigger] task_layout(t)) implies (t is Done <==> tag
            == 1) && (t is Run <==> tag == 0) by {
            match t {
                Task::Run { partition, job, task } => {
                    let rest = le32(partition) + le64(job) + le64(task);
                    assert(task_layout(t) =~= le32(0) + rest);
                    lemma_begins_tag(bytes@, tag, task_layout(t), 0, rest);
                },
                Task::Done => {
                    assert(task_layout(t) =~= le32(1) + Seq::<u8>::empty());
                    lemma_begins_tag(bytes@, tag, task_layout(t), 1, Seq::empty());
                },
            }
        }
    }
    if tag == 1 {
        return Ok(Task::Done);
    }
    if tag != 0 {
        return Err(unknown_variant(tag));
    }
    match get_run(bytes) {
        Ok((first, partition, job, task)) => {
            proof {
                let rest = le32(partition) + le64(job) + le64(task);
                assert(run_layout(first, partition, job, task) =~= le32(first) + rest);
                lemma_begins_tag(
                    bytes@,
                    tag,
                    run_layout(first, partition, job, task),
                    first,
                    rest,
                );
            }
            Ok(Task::Run { partition, job, task })
        },
        Err(e) => Err(codec_error(e)),
    }
}

pub fn encode_reply(r: &Reply) -> (v: Vec<u8>)
    ensures
        v@ == reply_bytes(*r),
{
    match r {
        Reply::Computed { partition, payload } => encoded(put_reply(0, *partition, payload)),
        Reply::Failed { partition, message } => encoded(put_failure(1, *partition, message)),
    }
}

pub fn decode_reply(bytes: &[u8]) -> (r: Result<Reply, Error>)
    ensures
        match r {
            Ok(x) => begins(bytes@, reply_bytes(x)),
            Err(e) => e is Cluster && forall|x: Reply| !begins(bytes@, #[trigger] reply_bytes(x)),
        },
{
    let tag = match get_u32(bytes) {
        Ok(tag) => tag,
        Err(e) => {
            return Err(codec_error(e));
        },
    };
    proof {
        assert forall|x: Reply| begins(bytes@, #[trigger] reply_bytes(x)) implies (x is Computed <==> tag
            == 0) && (x is Failed <==> tag == 1) by {
            match x {
                Reply::Computed { partition, payload } => {
                    let rest = le32(partition) + string_layout(payload@);
                    assert(reply_bytes(x) =~= le32(0) + rest);
                    lemma_begins_tag(bytes@, tag, reply_bytes(x), 0, rest);
                },
                Reply::Failed { partition, message } => {
                    let rest = le32(partition) + string_layout(encode_utf8(message@));
                    assert(reply_bytes(x) =~= le32(1) + rest);
                    lemma_begins_tag(bytes@, tag, reply_bytes(x), 1, rest);
                },
            }
        }
    }
    if tag == 0 {
        match get_reply(bytes) {
            Ok((first, partition, payload)) => {
                proof {
                    let rest = le32(partition) + string_layout(payload@);
                    assert(reply_layout(first, partition, payload@) =~= le32(first) + rest);
                    lemma_begins_tag(
                        bytes@,
                        tag,
                        reply_layout(first, partition, payload@),
                        first,
                        rest,
                    );
                }
                Ok(Reply::Computed { partition, payload })
            },
            Err(e) => Err(codec_error(e)),
        }
    } else if tag == 1 {
        match get_failure(bytes) {
            Ok((first, partition, message)) => {
                proof {
                    let b = encode_utf8(message@);
                    let rest = le32(partition) + string_layout(b);
                    assert(reply_layout(first, partition, b) =~= le32(first) + rest);
                    lemma_begins_tag(bytes@, tag, reply_layout(first, partition, b), first, rest);
                }
                Ok(Reply::Failed { partition, message })
            },
            Err(e) => Err(codec_error(e)),
        }
    } else {
        Err(unknown_variant(tag))
    }
}

/// The acknowledgement that ends a gather.
pub fn encode_ack() -> (v: Vec<u8>)
    ensures
        v@ == le32(1),
{
    encoded(put_u32(1))
}

pub fn decode_ack(bytes: &[u8]) -> (r: Result<u32, Error>)
    ensures
        match r {
            Ok(x) => begins(bytes@, le32(x)),
            Err(e) => e is Cluster && forall|x: u32| !begins(bytes@, #[trigger] le32(x)),
        },
{
    match get_u32(bytes) {
        Ok(x) => Ok(x),
        Err(e) => Err(codec_error(e)),
    }
}

pub fn encode_numbers(v: &Vec<u64>) -> (b: Vec<u8>)
    ensures
        b@ == numbers_layout(v@),
{
    encoded(put_numbers(v))
}

pub fn decode_numbers(bytes: &[u8]) -> (r: Result<Vec<u64>, Error>)
    ensures
        match r {
            Ok(v) => begins(bytes@, numbers_layout(v@)),
            Err(e) => e is Cluster && forall|v: Seq<u64>|
                !begins(bytes@, #[trigger] numbers_layout(v)),
        },
{
    match get_numbers(bytes) {
        Ok(v) => Ok(v),
        Err(e) => Err(codec_error(e)),
    }
}

pub fn encode_strings(v: &Vec<Vec<u8>>) -> (b: Vec<u8>)
    ensures
        b@ == strings_layout(contents(v@)),
{
    encoded(put_strings(v))
}

pub fn decode_strings(bytes: &[u8]) -> (r: Result<Vec<Vec<u8>>, Error>)
    ensures
        match r {
            Ok(v) => begins(bytes@, strings_layout(contents(v@))),
            Err(e) => e is Cluster && forall|v: Seq<Seq<u8>>|
                !begins(bytes@, #[trigger] strings_layout(v)),
        },
{
    match get_strings(bytes) {
        Ok(v) => Ok(v),
        Err(e) => Err(codec_error(e)),
    }
}

// ---- laws: bytes begin with at most one message of a kind

proof fn lemma_begins_parts(bytes: Seq<u8>, x: Seq<u8>, y: Seq<u8>)
    requires
        begins(bytes, x + y),
    ensures
        begins(bytes, x),
        begins(bytes.skip(x.len() as int), y),
{
    let whole = bytes.take((x + y).len() as int);
    assert(bytes.take(x.len() as int) =~= whole.take(x.len() as int));
    assert(whole.take(x.len() as int) =~= x);
    assert(bytes.skip(x.len() as int).take(y.len() as int) =~= whole.skip(x.len() as int));
    assert(whole.skip(x.len() as int) =~= y);
}

proof fn lemma_begins_same_length(bytes: Seq<u8>, x: Seq<u8>, y: Seq<u8>)
    requires
        begins(bytes, x),
        begins(bytes, y),
        x.len() == y.len(),
    ensures
        x == y,
{
}

proof fn lemma_string_unique(bytes: Seq<u8>, a: Seq<u8>, b: Seq<u8>)
    requires
        begins(bytes, string_layout(a)),
        begins(bytes, string_layout(b)),
        a.len() <= usize::MAX,
        b.len() <= usize::MAX,
    ensures
        a == b,
{
    lemma_begins_parts(bytes, le64(a.len() as u64), a);
    lemma_begins_parts(bytes, le64(b.len() as u64), b);
    lemma_begins_same_length(bytes, le64(a.len() as u64), le64(b.len() as u64));
    lemma_le64_inj(a.len() as u64, b.len() as u64);
    lemma_begins_same_length(bytes.skip(8), a, b);
}

/// Bytes begin with at most one task, so that decoding a task gives back the one encoded.
pub proof fn lemma_task_unique(bytes: Seq<u8>, t: Task, u: Task)
    requires
        begins(bytes, task_layout(t)),
        begins(bytes, task_layout(u)),
    ensures
        t == u,
{
    match (t, u) {
        (
            Task::Run { partition: p, job: j, task: k },
            Task::Run { partition: q, job: i, task: l },
        ) => {
            let (a, b) = (task_layout(t), task_layout(u));
            lemma_begins_same_length(bytes, a, b);
            assert(a.subrange(4, 8) =~= le32(p));
            assert(b.subrange(4, 8) =~= le32(q));
            lemma_le32_inj(p, q);
            assert(a.subrange(8, 16) =~= le64(j));
            assert(b.subrange(8, 16) =~= le64(i));
            lemma_le64_inj(j, i);
            assert(a.subrange(16, 24) =~= le64(k));
            assert(b.subrange(16, 24) =~= le64(l));
            lemma_le64_inj(k, l);
        },
        (Task::Run { partition, job, task }, Task::Done) => {
            let rest = le32(partition) + le64(job) + le64(task);
            assert(task_layout(t) =~= le32(0) + rest);
            lemma_begins_tag(bytes, 1, task_layout(t), 0, rest);
        },
        (Task::Done, Task::Run { partition, job, task }) => {
            let rest = le32(partition) + le64(job) + le64(task);
            assert(task_layout(u) =~= le32(0) + rest);
            lemma_begins_tag(bytes, 1, task_layout(u), 0, rest);
        },
        (Task::Done, Task::Done) => {},
    }
}

proof fn lemma_reply_layout_unique(
    bytes: Seq<u8>,
    tag: u32,
    p: u32,
    a: Seq<u8>,
    tag2: u32,
    q: u32,
    b: Seq<u8>,
)
    requires
        begins(bytes, reply_layout(tag, p, a)),
        begins(bytes, reply_layout(tag2, q, b)),
        a.len() <= usize::MAX,
        b.len() <= usize::MAX,
    ensures
        tag == tag2,
        p == q,
        a == b,
{
    assert(reply_layout(tag, p, a) =~= le32(tag) + (le32(p) + string_layout(a)));
    assert(reply_layout(tag2, q, b) =~= le32(tag2) + (le32(q) + string_layout(b)));
    lemma_begins_parts(bytes, le32(tag), le32(p) + string_layout(a));
    lemma_begins_parts(bytes, le32(tag2), le32(q) + string_layout(b));
    lemma_begins_same_length(bytes, le32(tag), le32(tag2));
    lemma_le32_inj(tag, tag2);
    let rest = bytes.skip(4);
    lemma_begins_parts(rest, le32(p), string_layout(a));
    lemma_begins_parts(rest, le32(q), string_layout(b));
    lemma_begins_same_length(rest, le32(p), le32(q));
    lemma_le32_inj(p, q);
    lemma_string_unique(rest.skip(4), a, b);
}

/// Bytes begin with at most one reply, so that decoding a reply gives back the one encoded.
pub proof fn lemma_reply_unique(bytes: Seq<u8>, a: Reply, b: Reply)
    requires
        bytes.len() <= usize::MAX,
        begins(bytes, reply_bytes(a)),
        begins(bytes, reply_bytes(b)),
    ensures
        same_reply(a, b),
{
    let (tag, p, x) = match a {
        Reply::Computed { partition, payload } => (0u32, partition, payload@),
        Reply::Failed { partition, message } => (1u32, partition, encode_utf8(message@)),
    };
    let (tag2, q, y) = match b {
        Reply::Computed { partition, payload } => (0u32, partition, payload@),
        Reply::Failed { partition, message } => (1u32, partition, encode_utf8(message@)),
    };
    lemma_reply_layout_unique(bytes, tag, p, x, tag2, q, y);
    match (a, b) {
        (Reply::Failed { message: m, .. }, Reply::Failed { message: n, .. }) => {
            encode_utf8_decode_utf8(m@);
            encode_utf8_decode_utf8(n@);
        },
        _ => {},
    }
}

proof fn lemma_numbers_body_unique(bytes: Seq<u8>, a: Seq<u64>, b: Seq<u64>)
    requires
        a.len() == b.len(),
        begins(bytes, concat(a.map_values(|x: u64| le64(x)))),
        begins(bytes, concat(b.map_values(|x: u64| le64(x)))),
    ensures
        a == b,
    decreases a.len(),
{
    let f = |x: u64| le64(x);
    if a.len() > 0 {
        let (x, y) = (a.map_values(f), b.map_values(f));
        lemma_concat_first(x);
        lemma_concat_first(y);
        let (c, d) = (a.skip(1), b.skip(1));
        assert(x.skip(1) =~= c.map_values(f));
        assert(y.skip(1) =~= d.map_values(f));
        lemma_begins_parts(bytes, le64(a[0]), concat(c.map_values(f)));
        lemma_begins_parts(bytes, le64(b[0]), concat(d.map_values(f)));
        lemma_begins_same_length(bytes, le64(a[0]), le64(b[0]));
        lemma_le64_inj(a[0], b[0]);
        lemma_numbers_body_unique(bytes.skip(8), c, d);
        assert(a =~= seq![a[0]] + c);
        assert(b =~= seq![b[0]] + d);
    } else {
        assert(a =~= b);
    }
}

/// Bytes begin with at most one list of numbers, so that decoding gives back what was encoded.
pub proof fn lemma_numbers_unique(bytes: Seq<u8>, a: Seq<u64>, b: Seq<u64>)
    requires
        a.len() <= usize::MAX,
        b.len() <= usize::MAX,
        begins(bytes, numbers_layout(a)),
        begins(bytes, numbers_layout(b)),
    ensures
        a == b,
{
    let f = |x: u64| le64(x);
    lemma_begins_parts(bytes, le64(a.len() as u64), concat(a.map_values(f)));
    lemma_begins_parts(bytes, le64(b.len() as u64), concat(b.map_values(f)));
    lemma_begins_same_length(bytes, le64(a.len() as u64), le64(b.len() as u64));
    lemma_le64_inj(a.len() as u64, b.len() as u64);
    lemma_numbers_body_unique(bytes.skip(8), a, b);
}

proof fn lemma_strings_body_unique(bytes: Seq<u8>, a: Seq<Seq<u8>>, b: Seq<Seq<u8>>)
    requires
        a.len() == b.len(),
        bytes.len() <= usize::MAX,
        begins(bytes, concat(a.map_values(|x: Seq<u8>| string_layout(x)))),
        begins(bytes, concat(b.map_values(|x: Seq<u8>| string_layout(x)))),
    ensures
        a == b,
    decreases a.len(),
{
    let f = |x: Seq<u8>| string_layout(x);
    if a.len() > 0 {
        let (x, y) = (a.map_values(f), b.map_values(f));
        lemma_concat_first(x);
        lemma_concat_first(y);
        let (c, d) = (a.skip(1), b.skip(1));
        assert(x.skip(1) =~= c.map_values(f));
        assert(y.skip(1) =~= d.map_values(f));
        lemma_begins_parts(bytes, string_layout(a[0]), concat(c.map_values(f)));
        lemma_begins_parts(bytes, string_layout(b[0]), concat(d.map_values(f)));
        lemma_string_unique(bytes, a[0], b[0]);
        lemma_strings_body_unique(bytes.skip(string_layout(a[0]).len() as int), c, d);
        assert(a =~= seq![a[0]] + c);
        assert(b =~= seq![b[0]] + d);
    } else {
        assert(a =~= b);
    }
}

/// Bytes begin with at most one list of byte strings, so that decoding gives back what was
/// encoded.
pub proof fn lemma_strings_unique(bytes: Seq<u8>, a: Seq<Seq<u8>>, b: Seq<Seq<u8>>)
    requires
        a.len() <= usize::MAX,
        b.len() <= usize::MAX,
        bytes.len() <= usize::MAX,
        begins(bytes, strings_layout(a)),
        begins(bytes, strings_layout(b)),
    ensures
        a == b,
{
    let f = |x: Seq<u8>| string_layout(x);
    lemma_begins_parts(bytes, le64(a.len() as u64), concat(a.map_values(f)));
    lemma_begins_parts(bytes, le64(b.len() as u64), concat(b.map_values(f)));
    lemma_begins_same_length(bytes, le64(a.len() as u64), le64(b.len() as u64));
    lemma_le64_inj(a.len() as u64, b.len() as u64);
    lemma_strings_body_unique(bytes.skip(8), a, b);
}

// ---- where things stand

/// A task that says to run a partition takes 24 bytes: a 0, the partition, the job and the task, each
/// with the least significant byte first. The task that ends the work takes four: a 1.
pub proof fn lemma_task_layout(partition: u32, job: u64, task: u64)
    ensures
        ({
            let b = task_layout(Task::Run { partition, job, task });
            &&& b.len() == 24
            &&& b.subrange(0, 4) == seq![0u8, 0, 0, 0]
            &&& b.subrange(4, 8) == le32(partition)
            &&& b.subrange(8, 16) == le64(job)
            &&& b.subrange(16, 24) == le64(task)
        }),
        task_layout(Task::Done) == seq![1u8, 0, 0, 0],
{
    lemma_small_numbers();
    let b = task_layout(Task::Run { partition, job, task });
    assert(b.subrange(0, 4) =~= le32(0));
    assert(b.subrange(4, 8) =~= le32(partition));
    assert(b.subrange(8, 16) =~= le64(job));
    assert(b.subrange(16, 24) =~= le64(task));
}

proof fn lemma_small_numbers()
    ensures
        le32(0) == seq![0u8, 0, 0, 0],
        le32(1) == seq![1u8, 0, 0, 0],
{
    let (a, b) = (0u32, 1u32);
    lemma_little_endian(0, 0, 0);
    lemma_little_endian(0, 1, 0);
    assert(le32(0) =~= seq![0u8, 0, 0, 0]);
    assert(le32(1) =~= seq![1u8, 0, 0, 0]);
}

/// A reply says whether it carries a result or an error, for which partition, and then how many bytes
/// follow, and these.
pub proof fn lemma_reply_layout(partition: u32, payload: Vec<u8>, message: String)
    ensures
        ({
            let b = reply_bytes(Reply::Computed { partition, payload });
            &&& b.len() == 16 + payload@.len()
            &&& b.subrange(0, 4) == seq![0u8, 0, 0, 0]
            &&& b.subrange(4, 8) == le32(partition)
            &&& b.subrange(8, 16) == le64(payload@.len() as u64)
            &&& b.skip(16) == payload@
        }),
        ({
            let b = reply_bytes(Reply::Failed { partition, message });
            &&& b.len() == 16 + encode_utf8(message@).len()
            &&& b.subrange(0, 4) == seq![1u8, 0, 0, 0]
            &&& b.subrange(4, 8) == le32(partition)
            &&& b.subrange(8, 16) == le64(encode_utf8(message@).len() as u64)
            &&& b.skip(16) == encode_utf8(message@)
        }),
{
    lemma_small_numbers();
    let a = reply_bytes(Reply::Computed { partition, payload });
    assert(a.subrange(0, 4) =~= le32(0));
    assert(a.subrange(4, 8) =~= le32(partition));
    assert(a.subrange(8, 16) =~= le64(payload@.len() as u64));
    assert(a.skip(16) =~= payload@);
    let text = encode_utf8(message@);
    let b = reply_bytes(Reply::Failed { partition, message });
    assert(b.subrange(0, 4) =~= le32(1));
    assert(b.subrange(4, 8) =~= le32(partition));
    assert(b.subrange(8, 16) =~= le64(text.len() as u64));
    assert(b.skip(16) =~= text);
}

/// Lists say how many elements they have, and then each: a number in eight bytes, a byte string
/// behind its length.
pub proof fn lemma_list_layouts(numbers: Seq<u64>, strings: Seq<Seq<u8>>)
    ensures
        numbers_layout(numbers) == le64(numbers.len() as u64) + numbers.map_values(
            |x: u64| le64(x),
        ).flatten(),
        strings_layout(strings) == le64(strings.len() as u64) + strings.map_values(
            |b: Seq<u8>| le64(b.len() as u64) + b,
        ).flatten(),
{
    lemma_concat_flattens(numbers.map_values(|x: u64| le64(x)));
    let parts = strings.map_values(|b: Seq<u8>| string_layout(b));
    assert(parts =~= strings.map_values(|b: Seq<u8>| le64(b.len() as u64) + b));
    lemma_concat_flattens(parts);
}

/// Bytes begin with others if those are a prefix of them.
pub proof fn lemma_begins(bytes: Seq<u8>, head: Seq<u8>)
    ensures
        begins(bytes, head) <==> head.is_prefix_of(bytes),
{
    if head.len() <= bytes.len() {
        assert(bytes.take(head.len() as int) =~= bytes.subrange(0, head.len() as int));
    }
}

/// The contents of vectors are those of each.
pub proof fn lemma_contents<A>(v: Seq<Vec<A>>)
    ensures
        contents(v).len() == v.len(),
        forall|i: int| 0 <= i < v.len() ==> #[trigger] contents(v)[i] == v[i]@,
{
}

} // verus!
