//! Errors.
use vstd::prelude::*;

use crate::text::{decimal, push_decimal};

verus! {

#[derive(Debug)]
pub enum Error {
    InvalidMaster(String),
    InvalidParallelism(usize),
    EmptyRdd,
    CountOverflow,
    MissingPartition(usize),
    Cancelled,
    ExecutorUnimplemented,
    Io(String),
    Cluster(String),
    PartitionPanic { partition: usize, message: String },
    Panic { message: String },
}

/// Two errors of the same variant with the same numbers and the same text.
pub open spec fn same_error(a: Error, b: Error) -> bool {
    match (a, b) {
        (Error::InvalidMaster(x), Error::InvalidMaster(y)) => x@ == y@,
        (Error::InvalidParallelism(x), Error::InvalidParallelism(y)) => x == y,
        (Error::EmptyRdd, Error::EmptyRdd) => true,
        (Error::CountOverflow, Error::CountOverflow) => true,
        (Error::MissingPartition(x), Error::MissingPartition(y)) => x == y,
        (Error::Cancelled, Error::Cancelled) => true,
        (Error::ExecutorUnimplemented, Error::ExecutorUnimplemented) => true,
        (Error::Io(x), Error::Io(y)) => x@ == y@,
        (Error::Cluster(x), Error::Cluster(y)) => x@ == y@,
        (
            Error::PartitionPanic { partition: p, message: x },
            Error::PartitionPanic { partition: q, message: y },
        ) => p == q && x@ == y@,
        (Error::Panic { message: x }, Error::Panic { message: y }) => x@ == y@,
        _ => false,
    }
}

/// What an error says.
pub open spec fn error_text(e: Error) -> Seq<char> {
    match e {
        Error::InvalidMaster(m) => "unsupported master URL: "@ + m@,
        Error::InvalidParallelism(n) => "parallelism must be >= 1, got "@ + decimal(n as nat),
        Error::EmptyRdd => "RDD is empty"@,
        Error::CountOverflow => "count overflowed usize"@,
        Error::MissingPartition(p) => "missing partition "@ + decimal(p as nat),
        Error::Cancelled => "task cancelled"@,
        Error::ExecutorUnimplemented => "networked executor not implemented; use local[*]"@,
        Error::Io(m) => "io error: "@ + m@,
        Error::Cluster(m) => "cluster error: "@ + m@,
        Error::PartitionPanic { partition, message } => "partition "@ + decimal(partition as nat)
            + " panicked: "@ + message@,
        Error::Panic { message } => "task panicked: "@ + message@,
    }
}

impl Clone for Error {
    fn clone(&self) -> (e: Self)
        ensures
            same_error(*self, e),
    {
        match self {
            Error::InvalidMaster(m) => Error::InvalidMaster(m.clone()),
            Error::InvalidParallelism(n) => Error::InvalidParallelism(*n),
            Error::EmptyRdd => Error::EmptyRdd,
            Error::CountOverflow => Error::CountOverflow,
            Error::MissingPartition(p) => Error::MissingPartition(*p),
            Error::Cancelled => Error::Cancelled,
            Error::ExecutorUnimplemented => Error::ExecutorUnimplemented,
            Error::Io(m) => Error::Io(m.clone()),
            Error::Cluster(m) => Error::Cluster(m.clone()),
            Error::PartitionPanic { partition, message } => Error::PartitionPanic {
                partition: *partition,
                message: message.clone(),
            },
            Error::Panic { message } => Error::Panic { message: message.clone() },
        }
    }
}

fn labelled(label: &str, rest: &str) -> (s: String)
    ensures
        s@ == label@ + rest@,
{
    let mut s = label.to_string();
    s.append(rest);
    s
}

fn numbered(label: &str, n: usize) -> (s: String)
    ensures
        s@ == label@ + decimal(n as nat),
{
    let mut s = label.to_string();
    push_decimal(&mut s, n as u64);
    s
}

impl Error {
    /// What the error says.
    pub fn message(&self) -> (s: String)
        ensures
            s@ == error_text(*self),
    {
        match self {
            Error::InvalidMaster(m) => labelled("unsupported master URL: ", m.as_str()),
            Error::InvalidParallelism(n) => numbered("parallelism must be >= 1, got ", *n),
            Error::EmptyRdd => "RDD is empty".to_string(),
            Error::CountOverflow => "count overflowed usize".to_string(),
            Error::MissingPartition(p) => numbered("missing partition ", *p),
            Error::Cancelled => "task cancelled".to_string(),
            Error::ExecutorUnimplemented =>
                "networked executor not implemented; use local[*]".to_string(),
            Error::Io(m) => labelled("io error: ", m.as_str()),
            Error::Cluster(m) => labelled("cluster error: ", m.as_str()),
            Error::PartitionPanic { partition, message } => {
                let mut s = numbered("partition ", *partition);
                s.append(" panicked: ");
                s.append(message.as_str());
                s
            },
            Error::Panic { message } => labelled("task panicked: ", message.as_str()),
        }
    }
}

/// What an error says ends in what it was told, and starts with what kind of error it is.
pub proof fn lemma_error_text(m: String, n: usize)
    ensures
        error_text(Error::InvalidMaster(m)) == "unsupported master URL: "@ + m@,
        error_text(Error::Io(m)) == "io error: "@ + m@,
        error_text(Error::Cluster(m)) == "cluster error: "@ + m@,
        error_text(Error::Panic { message: m }) == "task panicked: "@ + m@,
        error_text(Error::PartitionPanic { partition: n, message: m }) == "partition "@ + decimal(
            n as nat,
        ) + " panicked: "@ + m@,
        error_text(Error::MissingPartition(n)) == "missing partition "@ + decimal(n as nat),
        error_text(Error::InvalidParallelism(n)) == "parallelism must be >= 1, got "@ + decimal(
            n as nat,
        ),
        error_text(Error::EmptyRdd) == "RDD is empty"@,
        error_text(Error::CountOverflow) == "count overflowed usize"@,
        error_text(Error::Cancelled) == "task cancelled"@,
        error_text(Error::ExecutorUnimplemented)
            == "networked executor not implemented; use local[*]"@,
{
}

/// Errors that are the same say the same.
pub proof fn lemma_same_text(a: Error, b: Error)
    requires
        same_error(a, b),
    ensures
        error_text(a) == error_text(b),
{
}

} // verus!
