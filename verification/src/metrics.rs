//! Counters, their text form, task events, and the metrics endpoint's answers.
use std::sync::atomic::AtomicU64;

use vstd::prelude::*;
use vstd::utf8::encode_utf8;

use crate::error::Error;
use crate::exec::{catch_compute_result, partition_result, Outcome};
use crate::seqs::{concat, lemma_concat_flattens, lemma_concat_push};
use crate::tally::{advance, advanced, grown, held, look, made, make};
use crate::text::{
    decimal, lemma_decimal, lemma_decimal_prefix, parse_number, parsed_within, push_decimal,
};

verus! {

/// What each counter stands at, or by how much each is to grow.
#[derive(Clone, Copy, Debug, PartialEq, Eq, Structural)]
pub struct CounterValues {
    pub tasks: u64,
    pub failures: u64,
    pub retries: u64,
    pub task_us: u64,
    pub sent: u64,
    pub received: u64,
    pub spilled: u64,
    pub spill_read: u64,
    pub disconnects: u64,
    pub shuffle_records: u64,
}

/// Growth by nothing.
pub open spec fn no_growth() -> CounterValues {
    CounterValues {
        tasks: 0,
        failures: 0,
        retries: 0,
        task_us: 0,
        sent: 0,
        received: 0,
        spilled: 0,
        spill_read: 0,
        disconnects: 0,
        shuffle_records: 0,
    }
}

impl CounterValues {
    pub fn none() -> (d: Self)
        ensures
            d == no_growth(),
    {
        CounterValues {
            tasks: 0,
            failures: 0,
            retries: 0,
            task_us: 0,
            sent: 0,
            received: 0,
            spilled: 0,
            spill_read: 0,
            disconnects: 0,
            shuffle_records: 0,
        }
    }
}

/// What the start of a task attempt counts for: an attempt, and a retry after the first one.
pub open spec fn start_growth(attempt: u32) -> CounterValues {
    CounterValues {
        tasks: 1,
        retries: if attempt > 0 {
            1
        } else {
            0
        },
        ..no_growth()
    }
}

/// What the end of a task attempt counts for: the time it took, and a failure unless it succeeded.
pub open spec fn end_growth(micros: u128, success: bool) -> CounterValues {
    CounterValues {
        task_us: capped_micros(micros),
        failures: if success {
            0
        } else {
            1
        },
        ..no_growth()
    }
}

/// What the output of a map task counts for: its records.
pub open spec fn map_growth(records: u64) -> CounterValues {
    CounterValues { shuffle_records: records, ..no_growth() }
}

/// A task attempt started; attempts after the first are retries.
pub fn task_started(attempt: u32) -> (d: CounterValues)
    ensures
        d == start_growth(attempt),
{
    let mut d = CounterValues::none();
    d.tasks = 1;
    if attempt > 0 {
        d.retries = 1;
    }
    d
}

/// A task attempt ended after `micros` microseconds.
pub fn task_finished(micros: u128, success: bool) -> (d: CounterValues)
    ensures
        d == end_growth(micros, success),
{
    let mut d = CounterValues::none();
    d.task_us = cap_micros(micros);
    if !success {
        d.failures = 1;
    }
    d
}

/// A frame was sent, of so many bytes with its header.
pub fn frame_sent(bytes: u64) -> (d: CounterValues)
    ensures
        d == (CounterValues { sent: bytes, ..no_growth() }),
{
    let mut d = CounterValues::none();
    d.sent = bytes;
    d
}

/// A frame was received, of so many bytes with its header.
pub fn frame_received(bytes: u64) -> (d: CounterValues)
    ensures
        d == (CounterValues { received: bytes, ..no_growth() }),
{
    let mut d = CounterValues::none();
    d.received = bytes;
    d
}

/// Bytes were written to a spill file.
pub fn spill_written(bytes: u64) -> (d: CounterValues)
    ensures
        d == (CounterValues { spilled: bytes, ..no_growth() }),
{
    let mut d = CounterValues::none();
    d.spilled = bytes;
    d
}

/// Bytes were read from a spill file.
pub fn spill_was_read(bytes: u64) -> (d: CounterValues)
    ensures
        d == (CounterValues { spill_read: bytes, ..no_growth() }),
{
    let mut d = CounterValues::none();
    d.spill_read = bytes;
    d
}

/// The stream of a worker's replies broke off.
pub fn disconnected() -> (d: CounterValues)
    ensures
        d == (CounterValues { disconnects: 1, ..no_growth() }),
{
    let mut d = CounterValues::none();
    d.disconnects = 1;
    d
}

/// A map task put out combined records.
pub fn map_emitted(records: u64) -> (d: CounterValues)
    ensures
        d == map_growth(records),
{
    let mut d = CounterValues::none();
    d.shuffle_records = records;
    d
}

/// A duration in microseconds, no more than a counter can hold.
pub open spec fn capped_micros(micros: u128) -> u64 {
    if micros > u64::MAX {
        u64::MAX
    } else {
        micros as u64
    }
}

pub fn cap_micros(micros: u128) -> (us: u64)
    ensures
        us == capped_micros(micros),
{
    if micros > u64::MAX as u128 {
        u64::MAX
    } else {
        micros as u64
    }
}

/// The counters of a process. Threads add to them at any time, so that the values that one read
/// returns need not have stood together.
#[derive(Debug)]
pub struct Counters {
    tasks: AtomicU64,
    failures: AtomicU64,
    retries: AtomicU64,
    task_us: AtomicU64,
    sent: AtomicU64,
    received: AtomicU64,
    spilled: AtomicU64,
    spill_read: AtomicU64,
    disconnects: AtomicU64,
    shuffle_records: AtomicU64,
    jobs: AtomicU64,
    file_opens: AtomicU64,
}

impl Counters {
    /// Every counter stands at 0, and the first job is number 1.
    pub closed spec fn is_new(&self) -> bool {
        &&& made(self.tasks, 0)
        &&& made(self.failures, 0)
        &&& made(self.retries, 0)
        &&& made(self.task_us, 0)
        &&& made(self.sent, 0)
        &&& made(self.received, 0)
        &&& made(self.spilled, 0)
        &&& made(self.spill_read, 0)
        &&& made(self.disconnects, 0)
        &&& made(self.shuffle_records, 0)
        &&& made(self.jobs, 1)
        &&& made(self.file_opens, 0)
    }

    /// Each value of `v` is what a read of its counter may give.
    pub closed spec fn values(&self, v: CounterValues) -> bool {
        &&& held(&self.tasks, v.tasks)
        &&& held(&self.failures, v.failures)
        &&& held(&self.retries, v.retries)
        &&& held(&self.task_us, v.task_us)
        &&& held(&self.sent, v.sent)
        &&& held(&self.received, v.received)
        &&& held(&self.spilled, v.spilled)
        &&& held(&self.spill_read, v.spill_read)
        &&& held(&self.disconnects, v.disconnects)
        &&& held(&self.shuffle_records, v.shuffle_records)
    }

    /// `job` is what the count of jobs may have stood at when it was moved on by one.
    pub closed spec fn numbers_job(&self, job: u64) -> bool {
        advanced(&self.jobs, 1, job)
    }

    /// `n` is what a read of the opened partitions of files may give.
    pub closed spec fn opened(&self, n: u64) -> bool {
        held(&self.file_opens, n)
    }

    pub fn new() -> (c: Self)
        ensures
            c.is_new(),
    {
        Counters {
            tasks: make(0),
            failures: make(0),
            retries: make(0),
            task_us: make(0),
            sent: make(0),
            received: make(0),
            spilled: make(0),
            spill_read: make(0),
            disconnects: make(0),
            shuffle_records: make(0),
            jobs: make(1),
            file_opens: make(0),
        }
    }

    /// Each value of `d` was added to its counter.
    pub closed spec fn grew(&self, d: CounterValues) -> bool {
        &&& grown(&self.tasks, d.tasks)
        &&& grown(&self.failures, d.failures)
        &&& grown(&self.retries, d.retries)
        &&& grown(&self.task_us, d.task_us)
        &&& grown(&self.sent, d.sent)
        &&& grown(&self.received, d.received)
        &&& grown(&self.spilled, d.spilled)
        &&& grown(&self.spill_read, d.spill_read)
        &&& grown(&self.disconnects, d.disconnects)
        &&& grown(&self.shuffle_records, d.shuffle_records)
    }

    /// One more partition of a file was counted.
    pub closed spec fn opened_one(&self) -> bool {
        grown(&self.file_opens, 1)
    }

    /// Lets every counter grow by its value in `d`.
    pub fn add(&self, d: CounterValues)
        ensures
            self.grew(d),
    {
        advance(&self.tasks, d.tasks);
        advance(&self.failures, d.failures);
        advance(&self.retries, d.retries);
        advance(&self.task_us, d.task_us);
        advance(&self.sent, d.sent);
        advance(&self.received, d.received);
        advance(&self.spilled, d.spilled);
        advance(&self.spill_read, d.spill_read);
        advance(&self.disconnects, d.disconnects);
        advance(&self.shuffle_records, d.shuffle_records);
    }

    /// What the counters stand at.
    pub fn read(&self) -> (v: CounterValues)
        ensures
            self.values(v),
    {
        CounterValues {
            tasks: look(&self.tasks),
            failures: look(&self.failures),
            retries: look(&self.retries),
            task_us: look(&self.task_us),
            sent: look(&self.sent),
            received: look(&self.received),
            spilled: look(&self.spilled),
            spill_read: look(&self.spill_read),
            disconnects: look(&self.disconnects),
            shuffle_records: look(&self.shuffle_records),
        }
    }

    /// A number for the next job.
    pub fn job_id(&self) -> (job: u64)
        ensures
            self.numbers_job(job),
    {
        advance(&self.jobs, 1)
    }

    /// A partition of a file was opened.
    pub fn file_opened(&self)
        ensures
            self.opened_one(),
    {
        advance(&self.file_opens, 1);
    }

    /// How often a partition of a file was opened.
    pub fn file_opens(&self) -> (n: u64)
        ensures
            self.opened(n),
    {
        look(&self.file_opens)
    }
}

/// An attempt at a task came to a value.
pub open spec fn succeeded<T>(o: Outcome<T>) -> bool {
    o matches Outcome::Finished(Ok(_))
}

/// Makes an attempt at a local task and counts it: that it started, and how it ended. `compute` also
/// says how many microseconds it took.
pub fn local_task<T, F: Fn() -> (Outcome<T>, u128)>(
    counters: &Counters,
    attempt: u32,
    compute: &F,
) -> (o: Outcome<T>)
    requires
        call_requires(*compute, ()),
    ensures
        exists|micros: u128| #[trigger]
            call_ensures(*compute, (), (o, micros)) && counters.grew(
                end_growth(micros, succeeded(o)),
            ),
        counters.grew(start_growth(attempt)),
{
    counters.add(task_started(attempt));
    let (o, micros) = compute();
    let success = match &o {
        Outcome::Finished(Ok(_)) => true,
        _ => false,
    };
    counters.add(task_finished(micros, success));
    o
}

/// Computes a dispatched partition and counts the attempt: that it started, and how it ended.
/// `compute` also says how many microseconds it took.
pub fn task<T, F: Fn() -> (Outcome<T>, u128)>(
    counters: &Counters,
    partition: usize,
    attempt: u32,
    compute: &F,
) -> (r: Result<T, Error>)
    requires
        call_requires(*compute, ()),
    ensures
        exists|o: Outcome<T>, micros: u128| #[trigger]
            call_ensures(*compute, (), (o, micros)) && partition_result(partition, o, r)
                && counters.grew(end_growth(micros, r is Ok)),
        counters.grew(start_growth(attempt)),
{
    counters.add(task_started(attempt));
    let (outcome, micros) = compute();
    let r = catch_compute_result(partition, outcome);
    counters.add(task_finished(micros, r.is_ok()));
    r
}

// ---- text form

/// The two lines of one counter.
pub open spec fn counter_lines(name: Seq<char>, value: u64) -> Seq<char> {
    "# TYPE spatter_"@ + name + " counter\nspatter_"@ + name + " "@ + decimal(value as nat) + "\n"@
}

/// The text form of counters.
pub open spec fn rendered(v: CounterValues) -> Seq<char> {
    counter_lines("task_attempts_total"@, v.tasks) + counter_lines(
        "task_failures_total"@,
        v.failures,
    ) + counter_lines("task_retries_total"@, v.retries) + counter_lines(
        "task_duration_microseconds_total"@,
        v.task_us,
    ) + counter_lines("network_sent_bytes_total"@, v.sent) + counter_lines(
        "network_received_bytes_total"@,
        v.received,
    ) + counter_lines("spill_written_bytes_total"@, v.spilled) + counter_lines(
        "spill_read_bytes_total"@,
        v.spill_read,
    ) + counter_lines("dispatch_disconnects_total"@, v.disconnects) + counter_lines(
        "shuffle_map_records_total"@,
        v.shuffle_records,
    )
}

fn push_counter(out: &mut String, name: &str, value: u64)
    ensures
        final(out)@ == old(out)@ + counter_lines(name@, value),
{
    out.append("# TYPE spatter_");
    out.append(name);
    out.append(" counter\nspatter_");
    out.append(name);
    out.append(" ");
    push_decimal(out, value);
    out.append("\n");
    assert(out@ =~= old(out)@ + counter_lines(name@, value));
}

/// The text form of given values.
pub fn render_values(v: &CounterValues) -> (out: String)
    ensures
        out@ == rendered(*v),
{
    let mut out = String::new();
    push_counter(&mut out, "task_attempts_total", v.tasks);
    push_counter(&mut out, "task_failures_total", v.failures);
    push_counter(&mut out, "task_retries_total", v.retries);
    push_counter(&mut out, "task_duration_microseconds_total", v.task_us);
    push_counter(&mut out, "network_sent_bytes_total", v.sent);
    push_counter(&mut out, "network_received_bytes_total", v.received);
    push_counter(&mut out, "spill_written_bytes_total", v.spilled);
    push_counter(&mut out, "spill_read_bytes_total", v.spill_read);
    push_counter(&mut out, "dispatch_disconnects_total", v.disconnects);
    push_counter(&mut out, "shuffle_map_records_total", v.shuffle_records);
    assert(out@ =~= rendered(*v));
    out
}

/// The text form of what the counters stand at.
pub fn render(counters: &Counters) -> (out: String)
    ensures
        exists|v: CounterValues| counters.values(v) && out@ == #[trigger] rendered(v),
{
    let v = counters.read();
    render_values(&v)
}

// ---- task events

/// What an event of a task attempt says of the attempt.
pub open spec fn event_body(
    event: Seq<char>,
    scope: Seq<char>,
    pid: u32,
    rank: u64,
    job: u64,
    partition: usize,
    attempt: u32,
) -> Seq<char> {
    "{\"event\":\""@ + event + "\",\"scope\":\""@ + scope + "\",\"pid\":"@ + decimal(pid as nat)
        + ",\"rank\":"@ + decimal(rank as nat) + ",\"job\":"@ + decimal(job as nat)
        + ",\"partition\":"@ + decimal(partition as nat) + ",\"attempt\":"@ + decimal(
        attempt as nat,
    )
}

fn push_event(
    out: &mut String,
    event: &str,
    scope: &str,
    pid: u32,
    rank: u64,
    job: u64,
    partition: usize,
    attempt: u32,
)
    ensures
        final(out)@ == old(out)@ + event_body(event@, scope@, pid, rank, job, partition, attempt),
{
    out.append("{\"event\":\"");
    out.append(event);
    out.append("\",\"scope\":\"");
    out.append(scope);
    out.append("\",\"pid\":");
    push_decimal(out, pid as u64);
    out.append(",\"rank\":");
    push_decimal(out, rank);
    out.append(",\"job\":");
    push_decimal(out, job);
    out.append(",\"partition\":");
    push_decimal(out, partition as u64);
    out.append(",\"attempt\":");
    push_decimal(out, attempt as u64);
    assert(out@ =~= old(out)@ + event_body(event@, scope@, pid, rank, job, partition, attempt));
}

/// The event that an attempt started.
pub fn started_event(
    scope: &str,
    pid: u32,
    rank: u64,
    job: u64,
    partition: usize,
    attempt: u32,
) -> (line: String)
    ensures
        line@ == event_body("task_started"@, scope@, pid, rank, job, partition, attempt) + "}"@,
{
    let mut line = String::new();
    push_event(&mut line, "task_started", scope, pid, rank, job, partition, attempt);
    line.append("}");
    assert(line@ =~= event_body("task_started"@, scope@, pid, rank, job, partition, attempt)
        + "}"@);
    line
}

/// The event that an attempt ended.
pub fn finished_event(
    scope: &str,
    pid: u32,
    rank: u64,
    job: u64,
    partition: usize,
    attempt: u32,
    micros: u128,
    success: bool,
) -> (line: String)
    ensures
        line@ == event_body("task_finished"@, scope@, pid, rank, job, partition, attempt)
            + ",\"duration_us\":"@ + decimal(capped_micros(micros) as nat) + ",\"success\":"@ + (
        if success {
            "true"@
        } else {
            "false"@
        }) + "}"@,
{
    let mut line = String::new();
    push_event(&mut line, "task_finished", scope, pid, rank, job, partition, attempt);
    line.append(",\"duration_us\":");
    push_decimal(&mut line, cap_micros(micros));
    line.append(",\"success\":");
    if success {
        line.append("true");
    } else {
        line.append("false");
    }
    line.append("}");
    assert(line@ =~= event_body("task_finished"@, scope@, pid, rank, job, partition, attempt)
        + ",\"duration_us\":"@ + decimal(capped_micros(micros) as nat) + ",\"success\":"@ + (
    if success {
        "true"@
    } else {
        "false"@
    }) + "}"@);
    line
}

/// The rank to name in events: what the environment says, or 0 where it says no number.
pub fn event_rank(value: Option<&str>) -> (rank: u64)
    ensures
        rank == match value {
            Some(s) => match parsed_within(s@, u64::MAX as nat) {
                Some(n) => n,
                None => 0,
            },
            None => 0,
        },
{
    match value {
        Some(s) => match parse_number(s, u64::MAX) {
            Some(n) => n,
            None => 0,
        },
        None => 0,
    }
}

/// The line that reports a profiling span.
pub fn profile_line(pid: u32, rank: &str, stage: &str, micros: u64) -> (line: String)
    ensures
        line@ == "PROFILE pid="@ + decimal(pid as nat) + " rank="@ + rank@ + " stage="@ + stage@
            + " us="@ + decimal(micros as nat),
{
    let mut line = "PROFILE pid=".to_string();
    push_decimal(&mut line, pid as u64);
    line.append(" rank=");
    line.append(rank);
    line.append(" stage=");
    line.append(stage);
    line.append(" us=");
    push_decimal(&mut line, micros);
    line
}

/// The line that reports where a metrics endpoint listens.
pub fn listen_line(rank: usize, address: &str) -> (line: String)
    ensures
        line@ == "METRICS_LISTEN rank="@ + decimal(rank as nat) + " address="@ + address@,
{
    let mut line = "METRICS_LISTEN rank=".to_string();
    push_decimal(&mut line, rank as u64);
    line.append(" address=");
    line.append(address);
    line
}

// ---- endpoint

/// The port of a rank's endpoint: each rank has its own, counted from the given one; port 0 asks
/// for any free port and stays 0.
pub fn metrics_port(port: u16, rank: usize) -> (r: Result<u16, Error>)
    ensures
        if port == 0 {
            r == Ok::<u16, Error>(0)
        } else if port + rank <= u16::MAX {
            r matches Ok(p) && p == port + rank
        } else {
            r matches Err(Error::Io(t)) && t@ == "metrics port overflow"@
        },
{
    if port == 0 {
        return Ok(0);
    }
    match (port as usize).checked_add(rank) {
        Some(p) => if p <= u16::MAX as usize {
            Ok(p as u16)
        } else {
            Err(Error::Io("metrics port overflow".to_string()))
        },
        None => Err(Error::Io("metrics port overflow".to_string())),
    }
}

/// The longest request that is read.
pub const MAX_REQUEST: usize = 1024;

/// `s` starts with the bytes of `prefix`.
pub open spec fn starts_with(s: Seq<u8>, prefix: Seq<char>) -> bool {
    let p = encode_utf8(prefix);
    s.len() >= p.len() && s.take(p.len() as int) == p
}

/// `s` ends with the bytes of `suffix`.
pub open spec fn ends_with(s: Seq<u8>, suffix: Seq<char>) -> bool {
    let p = encode_utf8(suffix);
    s.len() >= p.len() && s.skip(s.len() - p.len()) == p
}

fn bytes_at(s: &[u8], at: usize, part: &[u8]) -> (b: bool)
    requires
        at <= s@.len(),
    ensures
        b == (at + part@.len() <= s@.len() && s@.subrange(at as int, at + part@.len()) == part@),
{
    let len = s.len();
    if len - at < part.len() {
        return false;
    }
    let mut i: usize = 0;
    while i < part.len()
        invariant
            len == s@.len(),
            at + part@.len() <= len,
            i <= part@.len(),
            forall|j: int| 0 <= j < i ==> s@[at + j] == part@[j],
        decreases part@.len() - i,
    {
        if s[at + i] != part[i] {
            assert(s@.subrange(at as int, at + part@.len())[i as int] != part@[i as int]);
            return false;
        }
        i = i + 1;
    }
    assert(s@.subrange(at as int, at + part@.len()) =~= part@);
    true
}

fn has_prefix(s: &[u8], prefix: &str) -> (b: bool)
    ensures
        b == starts_with(s@, prefix@),
{
    let p = prefix.as_bytes();
    assert(p@.len() <= s@.len() ==> s@.subrange(0, p@.len() as int) =~= s@.take(p@.len() as int));
    bytes_at(s, 0, p)
}

fn has_suffix(s: &[u8], suffix: &str) -> (b: bool)
    ensures
        b == ends_with(s@, suffix@),
{
    let p = suffix.as_bytes();
    if s.len() < p.len() {
        return false;
    }
    assert(s@.subrange(s@.len() - p@.len(), s@.len() as int) =~= s@.skip(s@.len() - p@.len()));
    bytes_at(s, s.len() - p.len(), p)
}

/// Whether a request is complete: it ends with an empty line, or is as long as is ever read.
pub fn request_complete(request: &[u8]) -> (b: bool)
    ensures
        b == (request@.len() >= MAX_REQUEST || ends_with(request@, "\r\n\r\n"@)),
{
    request.len() >= MAX_REQUEST || has_suffix(request, "\r\n\r\n")
}

/// A request for the counters.
pub open spec fn asks_for_metrics(request: Seq<u8>) -> bool {
    starts_with(request, "GET /metrics HTTP/1.1\r\n"@) || starts_with(
        request,
        "GET /metrics HTTP/1.0\r\n"@,
    )
}

/// An answer with a status and a body.
pub open spec fn http_answer(status: Seq<char>, body: Seq<char>) -> Seq<char> {
    "HTTP/1.1 "@ + status
        + "\r\nContent-Type: text/plain; version=0.0.4\r\nContent-Length: "@ + decimal(
        encode_utf8(body).len(),
    ) + "\r\nConnection: close\r\n\r\n"@ + body
}

fn answer_with(status: &str, body: &str) -> (answer: String)
    ensures
        answer@ == http_answer(status@, body@),
{
    let mut answer = "HTTP/1.1 ".to_string();
    answer.append(status);
    answer.append("\r\nContent-Type: text/plain; version=0.0.4\r\nContent-Length: ");
    push_decimal(&mut answer, body.as_bytes().len() as u64);
    answer.append("\r\nConnection: close\r\n\r\n");
    answer.append(body);
    answer
}

/// The answer to a request, where `metrics` is the text form of the counters.
pub fn respond(request: &[u8], metrics: &str) -> (answer: String)
    ensures
        answer@ == if asks_for_metrics(request@) {
            http_answer("200 OK"@, metrics@)
        } else {
            http_answer("404 Not Found"@, "not found\n"@)
        },
{
    if has_prefix(request, "GET /metrics HTTP/1.1\r\n") || has_prefix(
        request,
        "GET /metrics HTTP/1.0\r\n",
    ) {
        answer_with("200 OK", metrics)
    } else {
        answer_with("404 Not Found", "not found\n")
    }
}

// ---- laws

/// An attempt counts as one when it starts, and as a retry if it is not the first.
pub proof fn lemma_start_growth(attempt: u32)
    ensures
        start_growth(attempt).tasks == 1,
        start_growth(attempt).retries == if attempt == 0 {
            0int
        } else {
            1
        },
        (CounterValues { tasks: 0, retries: 0, ..start_growth(attempt) }) == (CounterValues {
            tasks: 0,
            failures: 0,
            retries: 0,
            task_us: 0,
            sent: 0,
            received: 0,
            spilled: 0,
            spill_read: 0,
            disconnects: 0,
            shuffle_records: 0,
        }),
{
}

/// When an attempt ends, its time is added, and one to the failures unless it succeeded.
pub proof fn lemma_end_growth(micros: u128, success: bool)
    ensures
        end_growth(micros, success).failures == if success {
            0int
        } else {
            1
        },
        micros <= 0xffff_ffff_ffff_ffff ==> end_growth(micros, success).task_us == micros,
        micros > 0xffff_ffff_ffff_ffff ==> end_growth(micros, success).task_us
            == 0xffff_ffff_ffff_ffff,
        (CounterValues { failures: 0, task_us: 0, ..end_growth(micros, success) }) == (
        CounterValues {
            tasks: 0,
            failures: 0,
            retries: 0,
            task_us: 0,
            sent: 0,
            received: 0,
            spilled: 0,
            spill_read: 0,
            disconnects: 0,
            shuffle_records: 0,
        }),
{
}

/// The output of a map task adds to the records that were shuffled and to nothing else.
pub proof fn lemma_map_growth(records: u64)
    ensures
        map_growth(records).shuffle_records == records,
        (CounterValues { shuffle_records: 0, ..map_growth(records) }) == (CounterValues {
            tasks: 0,
            failures: 0,
            retries: 0,
            task_us: 0,
            sent: 0,
            received: 0,
            spilled: 0,
            spill_read: 0,
            disconnects: 0,
            shuffle_records: 0,
        }),
{
}

/// A counter has a line that says it is one, and a line with its name and its value.
pub proof fn lemma_counter_lines(name: Seq<char>, value: u64)
    ensures
        counter_lines(name, value) == ("# TYPE spatter_"@ + name + " counter\n"@) + ("spatter_"@
            + name + " "@ + decimal(value as nat) + "\n"@),
{
    reveal_strlit(" counter\nspatter_");
    reveal_strlit(" counter\n");
    reveal_strlit("spatter_");
    assert(" counter\nspatter_"@ =~= " counter\n"@ + "spatter_"@);
    assert(counter_lines(name, value) =~= ("# TYPE spatter_"@ + name + " counter\n"@) + ("spatter_"@
        + name + " "@ + decimal(value as nat) + "\n"@));
}

/// The text form of counters has the lines of each, one counter after the other.
pub proof fn lemma_rendered(v: CounterValues)
    ensures
        rendered(v) == seq![
            counter_lines("task_attempts_total"@, v.tasks),
            counter_lines("task_failures_total"@, v.failures),
            counter_lines("task_retries_total"@, v.retries),
            counter_lines("task_duration_microseconds_total"@, v.task_us),
            counter_lines("network_sent_bytes_total"@, v.sent),
            counter_lines("network_received_bytes_total"@, v.received),
            counter_lines("spill_written_bytes_total"@, v.spilled),
            counter_lines("spill_read_bytes_total"@, v.spill_read),
            counter_lines("dispatch_disconnects_total"@, v.disconnects),
            counter_lines("shuffle_map_records_total"@, v.shuffle_records),
        ].flatten(),
{
    let a = counter_lines("task_attempts_total"@, v.tasks);
    let b = counter_lines("task_failures_total"@, v.failures);
    let c = counter_lines("task_retries_total"@, v.retries);
    let d = counter_lines("task_duration_microseconds_total"@, v.task_us);
    let e = counter_lines("network_sent_bytes_total"@, v.sent);
    let f = counter_lines("network_received_bytes_total"@, v.received);
    let g = counter_lines("spill_written_bytes_total"@, v.spilled);
    let h = counter_lines("spill_read_bytes_total"@, v.spill_read);
    let i = counter_lines("dispatch_disconnects_total"@, v.disconnects);
    let j = counter_lines("shuffle_map_records_total"@, v.shuffle_records);
    let none = Seq::<Seq<char>>::empty();
    let s1 = none.push(a);
    let s2 = s1.push(b);
    let s3 = s2.push(c);
    let s4 = s3.push(d);
    let s5 = s4.push(e);
    let s6 = s5.push(f);
    let s7 = s6.push(g);
    let s8 = s7.push(h);
    let s9 = s8.push(i);
    let s10 = s9.push(j);
    lemma_concat_push(none, a);
    assert(concat(none) + a =~= a);
    lemma_concat_push(s1, b);
    lemma_concat_push(s2, c);
    lemma_concat_push(s3, d);
    lemma_concat_push(s4, e);
    lemma_concat_push(s5, f);
    lemma_concat_push(s6, g);
    lemma_concat_push(s7, h);
    lemma_concat_push(s8, i);
    lemma_concat_push(s9, j);
    assert(s10 =~= seq![a, b, c, d, e, f, g, h, i, j]);
    lemma_concat_flattens(s10);
}

proof fn lemma_regroup(a: Seq<char>, b: Seq<char>, c: Seq<char>)
    ensures
        a + b + c == a + (b + c),
{
    assert(a + b + c =~= a + (b + c));
}

/// What follows the process in an event: a field for each number.
spec fn event_fields(rank: u64, job: u64, partition: usize, attempt: u32) -> Seq<char> {
    ",\"rank\":"@ + (decimal(rank as nat) + (",\"job\":"@ + (decimal(job as nat)
        + (",\"partition\":"@ + (decimal(partition as nat) + (",\"attempt\":"@ + decimal(
        attempt as nat,
    )))))))
}

spec fn event_head(event: Seq<char>, scope: Seq<char>) -> Seq<char> {
    "{\"event\":\""@ + event + "\",\"scope\":\""@ + scope + "\",\"pid\":"@
}

proof fn lemma_event_fields(
    event: Seq<char>,
    scope: Seq<char>,
    pid: u32,
    rank: u64,
    job: u64,
    partition: usize,
    attempt: u32,
)
    ensures
        event_body(event, scope, pid, rank, job, partition, attempt) == event_head(event, scope) + (
        decimal(pid as nat) + event_fields(rank, job, partition, attempt)),
{
    let head = event_head(event, scope);
    let (d0, d1, d2) = (decimal(pid as nat), decimal(rank as nat), decimal(job as nat));
    let (d3, d4) = (decimal(partition as nat), decimal(attempt as nat));
    let (r, j) = (",\"rank\":"@, ",\"job\":"@);
    let (p, t) = (",\"partition\":"@, ",\"attempt\":"@);
    let h1 = head + d0;
    let h2 = h1 + r;
    let h3 = h2 + d1;
    let h4 = h3 + j;
    let h5 = h4 + d2;
    let h6 = h5 + p;
    let h7 = h6 + d3;
    lemma_regroup(h7, t, d4);
    let x4 = t + d4;
    lemma_regroup(h6, d3, x4);
    let x3 = d3 + x4;
    lemma_regroup(h5, p, x3);
    let x2 = p + x3;
    lemma_regroup(h4, d2, x2);
    let x1 = d2 + x2;
    lemma_regroup(h3, j, x1);
    let y3 = j + x1;
    lemma_regroup(h2, d1, y3);
    let y2 = d1 + y3;
    lemma_regroup(h1, r, y2);
    let y1 = r + y2;
    lemma_regroup(head, d0, y1);
}

proof fn lemma_field(name: Seq<char>, a: nat, b: nat, x: Seq<char>, y: Seq<char>)
    requires
        name + (decimal(a) + x) == name + (decimal(b) + y),
        x.len() > 0,
        y.len() > 0,
        !('0' <= x[0] <= '9'),
        !('0' <= y[0] <= '9'),
    ensures
        a == b,
        x == y,
{
    let k = name.len() as int;
    assert((name + (decimal(a) + x)).skip(k) =~= decimal(a) + x);
    assert((name + (decimal(b) + y)).skip(k) =~= decimal(b) + y);
    lemma_decimal_prefix(a, b, x, y);
}

/// Events of the same kind and scope say the same only of the same attempt.
pub proof fn lemma_events_differ(
    event: Seq<char>,
    scope: Seq<char>,
    a: (u32, u64, u64, usize, u32),
    b: (u32, u64, u64, usize, u32),
)
    requires
        event_body(event, scope, a.0, a.1, a.2, a.3, a.4) == event_body(
            event,
            scope,
            b.0,
            b.1,
            b.2,
            b.3,
            b.4,
        ),
    ensures
        a == b,
{
    reveal_strlit(",\"rank\":");
    reveal_strlit(",\"job\":");
    reveal_strlit(",\"partition\":");
    reveal_strlit(",\"attempt\":");
    lemma_event_fields(event, scope, a.0, a.1, a.2, a.3, a.4);
    lemma_event_fields(event, scope, b.0, b.1, b.2, b.3, b.4);
    let (r, j) = (",\"rank\":"@, ",\"job\":"@);
    let (p, t) = (",\"partition\":"@, ",\"attempt\":"@);
    let x3 = t + decimal(a.4 as nat);
    let y3 = t + decimal(b.4 as nat);
    let x2 = p + (decimal(a.3 as nat) + x3);
    let y2 = p + (decimal(b.3 as nat) + y3);
    let x1 = j + (decimal(a.2 as nat) + x2);
    let y1 = j + (decimal(b.2 as nat) + y2);
    let x = event_fields(a.1, a.2, a.3, a.4);
    let y = event_fields(b.1, b.2, b.3, b.4);
    assert(x[0] == ',' && y[0] == ',');
    assert(x1[0] == ',' && y1[0] == ',');
    assert(x2[0] == ',' && y2[0] == ',');
    assert(x3[0] == ',' && y3[0] == ',');
    lemma_field(event_head(event, scope), a.0 as nat, b.0 as nat, x, y);
    lemma_field(r, a.1 as nat, b.1 as nat, x1, y1);
    lemma_field(j, a.2 as nat, b.2 as nat, x2, y2);
    lemma_field(p, a.3 as nat, b.3 as nat, x3, y3);
    assert(x3.skip(t.len() as int) =~= decimal(a.4 as nat));
    assert(y3.skip(t.len() as int) =~= decimal(b.4 as nat));
    lemma_decimal(a.4 as nat, b.4 as nat);
}

/// An answer starts with its status, says how many bytes its body has, and ends with an empty line
/// and the body.
pub proof fn lemma_answer(status: Seq<char>, body: Seq<char>) -> (between: Seq<char>)
    ensures
        http_answer(status, body) == "HTTP/1.1 "@ + status + "\r\n"@ + between
            + "Content-Length: "@ + decimal(encode_utf8(body).len()) + "\r\n"@
            + "Connection: close\r\n"@ + "\r\n"@ + body,
        between == "Content-Type: text/plain; version=0.0.4\r\n"@,
{
    reveal_strlit("\r\nContent-Type: text/plain; version=0.0.4\r\nContent-Length: ");
    reveal_strlit("Content-Type: text/plain; version=0.0.4\r\n");
    reveal_strlit("Content-Length: ");
    reveal_strlit("\r\nConnection: close\r\n\r\n");
    reveal_strlit("Connection: close\r\n");
    reveal_strlit("\r\n");
    let between = "Content-Type: text/plain; version=0.0.4\r\n"@;
    assert("\r\nContent-Type: text/plain; version=0.0.4\r\nContent-Length: "@ =~= "\r\n"@ + between
        + "Content-Length: "@);
    assert("\r\nConnection: close\r\n\r\n"@ =~= "\r\n"@ + "Connection: close\r\n"@ + "\r\n"@);
    assert(http_answer(status, body) =~= "HTTP/1.1 "@ + status + "\r\n"@ + between
        + "Content-Length: "@ + decimal(encode_utf8(body).len()) + "\r\n"@
        + "Connection: close\r\n"@ + "\r\n"@ + body);
    between
}

/// A request asks for the counters if its first line does; it is read until it ends in an empty line
/// or has 1024 bytes.
pub proof fn lemma_request(request: Seq<u8>)
    ensures
        asks_for_metrics(request) <==> encode_utf8("GET /metrics HTTP/1.1\r\n"@).is_prefix_of(
            request,
        ) || encode_utf8("GET /metrics HTTP/1.0\r\n"@).is_prefix_of(request),
        forall|suffix: Seq<char>| #[trigger]
            ends_with(request, suffix) <==> encode_utf8(suffix).is_suffix_of(request),
        MAX_REQUEST == 1024,
{
    lemma_starts_with(request, "GET /metrics HTTP/1.1\r\n"@);
    lemma_starts_with(request, "GET /metrics HTTP/1.0\r\n"@);
    assert forall|suffix: Seq<char>| #[trigger] ends_with(request, suffix) <==> encode_utf8(
        suffix,
    ).is_suffix_of(request) by {
        let p = encode_utf8(suffix);
        if p.len() <= request.len() {
            assert(request.skip(request.len() - p.len()) =~= request.subrange(
                request.len() - p.len(),
                request.len() as int,
            ));
        }
    }
}

proof fn lemma_starts_with(s: Seq<u8>, prefix: Seq<char>)
    ensures
        starts_with(s, prefix) <==> encode_utf8(prefix).is_prefix_of(s),
{
    let p = encode_utf8(prefix);
    if p.len() <= s.len() {
        assert(s.take(p.len() as int) =~= s.subrange(0, p.len() as int));
    }
}

/// What does not grow stays as it is.
pub proof fn lemma_no_growth()
    ensures
        no_growth() == (CounterValues {
            tasks: 0,
            failures: 0,
            retries: 0,
            task_us: 0,
            sent: 0,
            received: 0,
            spilled: 0,
            spill_read: 0,
            disconnects: 0,
            shuffle_records: 0,
        }),
{
}

/// Each counter is one shared number: what is added to the counter is added to it, and what is read of
/// the counter is read from it. A new counter stands at 0; only the count of jobs starts at 1.
pub proof fn lemma_cells(c: Counters) -> (cells: Seq<AtomicU64>)
    ensures
        cells.len() == 12,
        forall|d: CounterValues| #[trigger]
            c.grew(d) <==> grown(&cells[0], d.tasks) && grown(&cells[1], d.failures) && grown(
                &cells[2],
                d.retries,
            ) && grown(&cells[3], d.task_us) && grown(&cells[4], d.sent) && grown(
                &cells[5],
                d.received,
            ) && grown(&cells[6], d.spilled) && grown(&cells[7], d.spill_read) && grown(
                &cells[8],
                d.disconnects,
            ) && grown(&cells[9], d.shuffle_records),
        forall|v: CounterValues| #[trigger]
            c.values(v) <==> held(&cells[0], v.tasks) && held(&cells[1], v.failures) && held(
                &cells[2],
                v.retries,
            ) && held(&cells[3], v.task_us) && held(&cells[4], v.sent) && held(
                &cells[5],
                v.received,
            ) && held(&cells[6], v.spilled) && held(&cells[7], v.spill_read) && held(
                &cells[8],
                v.disconnects,
            ) && held(&cells[9], v.shuffle_records),
        forall|job: u64| #[trigger] c.numbers_job(job) <==> advanced(&cells[10], 1, job),
        forall|n: u64| #[trigger] c.opened(n) <==> held(&cells[11], n),
        c.opened_one() <==> grown(&cells[11], 1),
        c.is_new() ==> made(cells[10], 1) && forall|i: int|
            0 <= i < 12 && i != 10 ==> made(#[trigger] cells[i], 0),
{
    seq![
        c.tasks,
        c.failures,
        c.retries,
        c.task_us,
        c.sent,
        c.received,
        c.spilled,
        c.spill_read,
        c.disconnects,
        c.shuffle_records,
        c.jobs,
        c.file_opens,
    ]
}

/// An attempt succeeds if it finishes with a value: neither a panic nor an error is success.
pub proof fn lemma_succeeded<T>(o: Outcome<T>)
    ensures
        o is Panicked ==> !succeeded(o),
        o matches Outcome::Finished(r) ==> (succeeded(o) <==> r is Ok),
{
}

} // verus!
