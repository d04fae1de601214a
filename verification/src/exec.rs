//! Running the tasks of a job: which thread computes what, retries, and what results come to.
use std::collections::HashMap;
use std::sync::atomic::AtomicBool;
use std::sync::Arc;

use vstd::arithmetic::div_mod::lemma_fundamental_div_mod_converse;
use vstd::prelude::*;

use crate::error::{error_text, lemma_same_text, same_error, Error};
use crate::tally::{is_raised, put, raise, raised};

verus! {

/// A read of the flag found the work cancelled.
pub open spec fn was_cancelled(cancel: Option<&AtomicBool>) -> bool {
    match cancel {
        Some(flag) => raised(flag, true),
        None => false,
    }
}

/// A read of the flag, if there is one, did not find the work cancelled.
pub open spec fn went_on(cancel: Option<&AtomicBool>) -> bool {
    match cancel {
        Some(flag) => raised(flag, false),
        None => true,
    }
}

/// The flag, if there is one, was raised.
pub open spec fn cancelled_all(cancel: Option<&AtomicBool>) -> bool {
    match cancel {
        Some(flag) => put(flag, true),
        None => true,
    }
}

/// Whether the work was cancelled; without a flag it never is.
///
/// The flag may be set by any thread at any time; the answer is what a read of it gives.
pub fn is_cancelled(cancel: Option<&AtomicBool>) -> (c: bool)
    ensures
        match cancel {
            None => !c,
            Some(flag) => raised(flag, c),
        },
{
    match cancel {
        None => false,
        Some(flag) => is_raised(flag),
    }
}

// ---- panics

/// What a panic carried.
#[derive(Debug)]
pub enum PanicPayload {
    Text(String),
    Other,
}

/// What a panic said.
pub open spec fn panic_text(payload: PanicPayload) -> Seq<char> {
    match payload {
        PanicPayload::Text(s) => s@,
        PanicPayload::Other => "Box<dyn Any>"@,
    }
}

/// What a panic said.
pub fn panic_message(payload: PanicPayload) -> (s: String)
    ensures
        s@ == panic_text(payload),
{
    match payload {
        PanicPayload::Text(s) => s,
        PanicPayload::Other => "Box<dyn Any>".to_string(),
    }
}

/// How an attempt at a task ended.
#[derive(Debug)]
pub enum Outcome<T> {
    Finished(Result<T, Error>),
    Panicked(PanicPayload),
}

/// The result of computing a partition; a panic is an error of the partition.
pub open spec fn partition_result<T>(partition: usize, o: Outcome<T>, r: Result<T, Error>) -> bool {
    match o {
        Outcome::Finished(x) => r == x,
        Outcome::Panicked(payload) => r matches Err(
            Error::PartitionPanic { partition: p, message },
        ) && p == partition && message@ == panic_text(payload),
    }
}

/// The result of computing a partition; a panic is an error of the partition.
pub fn catch_compute_result<T>(partition: usize, outcome: Outcome<T>) -> (r: Result<T, Error>)
    ensures
        partition_result(partition, outcome, r),
{
    match outcome {
        Outcome::Finished(r) => r,
        Outcome::Panicked(payload) => Err(
            Error::PartitionPanic { partition, message: panic_message(payload) },
        ),
    }
}

/// The result of work on the driver; a panic is an error.
pub fn catch_driver<T>(outcome: Outcome<T>) -> (r: Result<T, Error>)
    ensures
        match outcome {
            Outcome::Finished(x) => r == x,
            Outcome::Panicked(payload) => r matches Err(Error::Panic { message }) && message@
                == panic_text(payload),
        },
{
    match outcome {
        Outcome::Finished(r) => r,
        Outcome::Panicked(payload) => Err(Error::Panic { message: panic_message(payload) }),
    }
}

// ---- attempts

/// How often a task that panicked is tried again.
pub const MAX_RETRIES: u32 = 2;

/// `tries` may be the attempts at a partition: each but the last panicked, and there are no more
/// than retries allow.
pub open spec fn attempts<T, F: Fn(usize, u32) -> Outcome<T>>(
    f: F,
    partition: usize,
    tries: Seq<Outcome<T>>,
) -> bool {
    &&& 0 < tries.len() <= MAX_RETRIES + 1
    &&& forall|k: int|
        0 <= k < tries.len() ==> call_ensures(f, (partition, k as u32), #[trigger] tries[k])
    &&& forall|k: int| 0 <= k < tries.len() - 1 ==> (#[trigger] tries[k]) is Panicked
    &&& tries.len() <= MAX_RETRIES ==> tries.last() is Finished
}

/// Computing a partition may come to `r`: what the last attempt came to.
pub open spec fn task_result<T, F: Fn(usize, u32) -> Outcome<T>>(
    f: F,
    partition: usize,
    r: Result<T, Error>,
) -> bool {
    exists|tries: Seq<Outcome<T>>| #[trigger]
        attempts(f, partition, tries) && partition_result(partition, tries.last(), r)
}

/// Computes a partition. A panic is tried again, an error is not; what the last attempt came to
/// counts.
pub fn run_task<T, F: Fn(usize, u32) -> Outcome<T>>(partition: usize, attempt: &F) -> (r: Result<
    T,
    Error,
>)
    requires
        forall|k: u32| #[trigger] call_requires(*attempt, (partition, k)),
    ensures
        task_result(*attempt, partition, r),
{
    let ghost mut tries: Seq<Outcome<T>> = Seq::empty();
    let mut k: u32 = 0;
    loop
        invariant
            k <= MAX_RETRIES,
            tries.len() == k,
            forall|j: u32| #[trigger] call_requires(*attempt, (partition, j)),
            forall|j: int|
                0 <= j < k ==> call_ensures(*attempt, (partition, j as u32), #[trigger] tries[j])
                    && tries[j] is Panicked,
        decreases MAX_RETRIES - k,
    {
        let outcome = attempt(partition, k);
        proof {
            tries = tries.push(outcome);
        }
        match outcome {
            Outcome::Panicked(payload) if k < MAX_RETRIES => {
                k = k + 1;
            },
            o => {
                assert(attempts(*attempt, partition, tries));
                return catch_compute_result(partition, o);
            },
        }
    }
}

// ---- threads

/// How many threads compute `n` partitions.
pub open spec fn threads_for(n: usize, parallelism: usize) -> usize {
    if parallelism == 0 {
        if n < 1 {
            n
        } else {
            1
        }
    } else if n < parallelism {
        n
    } else {
        parallelism
    }
}

pub fn thread_count(n: usize, parallelism: usize) -> (threads: usize)
    ensures
        threads == threads_for(n, parallelism),
{
    let most: usize = if parallelism == 0 {
        1
    } else {
        parallelism
    };
    if n < most {
        n
    } else {
        most
    }
}

/// The partitions that thread `t` of `threads` computes, in order.
pub open spec fn stride_from(p: int, threads: int, n: int) -> Seq<usize>
    decreases if p < n { n - p } else { 0 },
{
    if threads <= 0 || p >= n {
        Seq::empty()
    } else {
        seq![p as usize] + stride_from(p + threads, threads, n)
    }
}

/// The partitions that thread `t` of `threads` computes: every partition that leaves `t` when
/// divided by the number of threads.
pub fn stride(t: usize, threads: usize, n: usize) -> (v: Vec<usize>)
    requires
        t < threads,
    ensures
        v@ == stride_from(t as int, threads as int, n as int),
{
    let mut v: Vec<usize> = Vec::new();
    let mut p = t;
    let ghost all = stride_from(t as int, threads as int, n as int);
    assert(v@ + all =~= all);
    if p >= n {
        return v;
    }
    loop
        invariant
            0 < threads,
            p < n,
            all == stride_from(t as int, threads as int, n as int),
            all == v@ + stride_from(p as int, threads as int, n as int),
        decreases n - p,
    {
        let ghost before = v@;
        v.push(p);
        proof {
            let rest = stride_from(p + threads, threads as int, n as int);
            assert(before + (seq![p] + rest) =~= v@ + rest);
        }
        if n - p <= threads {
            assert(v@ + stride_from(p + threads, threads as int, n as int) =~= v@);
            return v;
        }
        p = p + threads;
    }
}

/// Thread `t` computes exactly the partitions that leave `t` when divided by the number of
/// threads, each once; so every partition is computed by exactly one thread.
pub proof fn lemma_stride(p: int, t: int, threads: int, n: int)
    requires
        0 <= t < threads,
        0 <= p,
        p % threads == t,
        0 <= n <= usize::MAX,
    ensures
        stride_from(p, threads, n).no_duplicates(),
        forall|q: usize| #[trigger]
            stride_from(p, threads, n).contains(q) <==> p <= q < n && q as int % threads == t,
    decreases if p < n { n - p } else { 0 },
{
    let all = stride_from(p, threads, n);
    if p < n {
        let d = p / threads;
        vstd::arithmetic::div_mod::lemma_fundamental_div_mod(p, threads);
        assert(p + threads == (d + 1) * threads + t) by (nonlinear_arith)
            requires
                p == threads * d + t,
        ;
        lemma_fundamental_div_mod_converse(p + threads, threads, d + 1, t);
        lemma_stride(p + threads, t, threads, n);
        let rest = stride_from(p + threads, threads, n);
        assert(all =~= seq![p as usize] + rest);
        assert forall|q: usize| #[trigger] all.contains(q) <==> p <= q < n && q as int % threads
            == t by {
            if all.contains(q) {
                let i = choose|i: int| 0 <= i < all.len() && all[i] == q;
                if i > 0 {
                    assert(rest[i - 1] == q);
                    assert(rest.contains(q));
                }
            }
            if p <= q < n && q as int % threads == t {
                if q == p {
                    assert(all[0] == q);
                } else {
                    lemma_next_in_stride(p, q as int, t, threads);
                    assert(rest.contains(q));
                    let i = choose|i: int| 0 <= i < rest.len() && rest[i] == q;
                    assert(all[i + 1] == q);
                }
            }
        }
        assert forall|a: int, b: int| 0 <= a < all.len() && 0 <= b < all.len() && a
            != b implies all[a] != all[b] by {
            if a == 0 {
                assert(rest.contains(rest[b - 1]));
            } else if b == 0 {
                assert(rest.contains(rest[a - 1]));
            } else {
                assert(rest[a - 1] != rest[b - 1]);
            }
        }
    }
}

proof fn lemma_next_in_stride(p: int, q: int, t: int, threads: int)
    requires
        0 <= t < threads,
        0 <= p < q,
        p % threads == t,
        q % threads == t,
    ensures
        q >= p + threads,
{
    vstd::arithmetic::div_mod::lemma_fundamental_div_mod(p, threads);
    vstd::arithmetic::div_mod::lemma_fundamental_div_mod(q, threads);
    let (a, b) = (p / threads, q / threads);
    assert(q >= p + threads) by (nonlinear_arith)
        requires
            p == threads * a + t,
            q == threads * b + t,
            p < q,
            threads > 0,
    ;
}

// ---- results

/// The results of partitions as they come in.
#[derive(Debug)]
pub struct Slots<T> {
    slots: Vec<Option<T>>,
}

impl<T> Slots<T> {
    pub closed spec fn view(&self) -> Seq<Option<T>> {
        self.slots@
    }

    /// Nothing has come in for any of `n` partitions.
    pub fn new(n: usize) -> (s: Self)
        ensures
            s@.len() == n,
            forall|p: int| 0 <= p < n ==> (#[trigger] s@[p]) is None,
    {
        let mut slots: Vec<Option<T>> = Vec::new();
        let mut i: usize = 0;
        while i < n
            invariant
                i <= n,
                slots@.len() == i,
                forall|p: int| 0 <= p < i ==> (#[trigger] slots@[p]) is None,
            decreases n - i,
        {
            slots.push(None);
            i = i + 1;
        }
        Slots { slots }
    }

    /// What has come in for all partitions.
    pub fn all(results: Vec<T>) -> (s: Self)
        ensures
            s@.len() == results@.len(),
            forall|p: int| 0 <= p < results@.len() ==> #[trigger] s@[p] == Some(results@[p]),
    {
        let ghost all = results@;
        let mut slots: Vec<Option<T>> = Vec::new();
        for x in it: results
            invariant
                it.seq() == all,
                slots@.len() == it.index(),
                forall|p: int| 0 <= p < it.index() ==> #[trigger] slots@[p] == Some(all[p]),
        {
            slots.push(Some(x));
        }
        Slots { slots }
    }

    /// Takes out the result of a partition.
    pub fn take(&mut self, p: usize) -> (r: Option<T>)
        requires
            p < old(self)@.len(),
        ensures
            r == old(self)@[p as int],
            final(self)@ == old(self)@.update(p as int, None),
    {
        let mut slot: Option<T> = None;
        std::mem::swap(&mut slot, &mut self.slots[p]);
        slot
    }

    /// Takes in the result of a partition.
    pub fn fill(&mut self, p: usize, v: T)
        requires
            p < old(self)@.len(),
        ensures
            final(self)@ == old(self)@.update(p as int, Some(v)),
    {
        self.slots.set(p, Some(v));
    }

    /// Takes in a result, or gives back the error that came instead.
    pub fn put(&mut self, message: Result<(usize, T), Error>) -> (r: Option<Error>)
        requires
            message matches Ok((p, v)) ==> p < old(self)@.len(),
        ensures
            match message {
                Ok((p, v)) => r is None && final(self)@ == old(self)@.update(p as int, Some(v)),
                Err(e) => r == Some(e) && final(self)@ == old(self)@,
            },
    {
        match message {
            Ok((p, v)) => {
                self.fill(p, v);
                None
            },
            Err(e) => Some(e),
        }
    }

    /// The results of all partitions, if they all came in.
    pub fn finish(self) -> (r: Result<Vec<T>, Error>)
        ensures
            match r {
                Ok(v) => v@.len() == self@.len() && forall|p: int|
                    #![trigger v@[p]]
                    0 <= p < v@.len() ==> self@[p] == Some(v@[p]),
                Err(e) => e matches Error::MissingPartition(p) && p < self@.len() && self@[
                    p as int] is None && forall|q: int|
                    0 <= q < p ==> (#[trigger] self@[q]) is Some,
            },
    {
        let ghost all = self.slots@;
        let n = self.slots.len();
        let mut v: Vec<T> = Vec::new();
        let mut i: usize = 0;
        for slot in it: self.slots
            invariant
                it.seq() == all,
                n == all.len(),
                i == it.index(),
                v@.len() == i,
                forall|p: int| #![trigger v@[p]] 0 <= p < i ==> all[p] == Some(v@[p]),
        {
            match slot {
                Some(x) => v.push(x),
                None => {
                    proof {
                        assert forall|q: int| 0 <= q < i implies (#[trigger] all[q]) is Some by {
                            let _ = v@[q];
                        }
                    }
                    return Err(Error::MissingPartition(i));
                },
            }
            i = i + 1;
        }
        Ok(v)
    }
}

/// The result of a slot that was filled.
spec fn slot_result<T, F: Fn(usize, u32) -> Outcome<T>>(f: F, p: usize, slot: Option<T>) -> bool {
    match slot {
        Some(v) => task_result(f, p, Ok(v)),
        None => true,
    }
}

/// The task of partition `p` came to a value.
pub open spec fn came_in<T, F: Fn(usize, u32) -> Outcome<T>>(f: F, p: usize) -> bool {
    exists|v: T| #[trigger] task_result(f, p, Ok::<T, Error>(v))
}

/// Computes all partitions, as many threads would: each thread takes those of its stride, and the
/// first error ends the work and cancels it. A partition is missing only where the work was found
/// cancelled; it is the first that is.
pub fn run_partitions<T, F: Fn(usize, u32) -> Outcome<T>>(
    n_partitions: usize,
    parallelism: usize,
    cancel: Option<&AtomicBool>,
    attempt: &F,
) -> (r: Result<Vec<T>, Error>)
    requires
        forall|p: usize, k: u32|
            p < n_partitions ==> #[trigger] call_requires(*attempt, (p, k)),
    ensures
        match r {
            Ok(v) => {
                &&& v@.len() == n_partitions
                &&& forall|p: usize|
                    #![trigger v@[p as int]]
                    p < n_partitions ==> task_result(*attempt, p, Ok(v@[p as int]))
                &&& n_partitions > 0 ==> went_on(cancel)
            },
            Err(e) => {
                ||| cancelled_all(cancel) && exists|p: usize|
                    p < n_partitions && #[trigger] task_result(*attempt, p, Err::<T, Error>(e))
                ||| e matches Error::MissingPartition(p) && p < n_partitions && was_cancelled(
                    cancel,
                ) && forall|q: usize| q < p ==> #[trigger] came_in(*attempt, q)
            },
        },
{
    let mut slots: Slots<T> = Slots::new(n_partitions);
    let threads = thread_count(n_partitions, parallelism);
    let mut t: usize = 0;
    while t < threads
        invariant
            t <= threads,
            threads == threads_for(n_partitions, parallelism),
            slots@.len() == n_partitions,
            forall|p: usize, k: u32|
                p < n_partitions ==> #[trigger] call_requires(*attempt, (p, k)),
            forall|p: usize|
                p < n_partitions ==> slot_result(*attempt, p, #[trigger] slots@[p as int]),
            forall|p: usize|
                #![trigger slots@[p as int]]
                !was_cancelled(cancel) && p < n_partitions && p % threads < t ==> slots@[
                    p as int] is Some,
            forall|p: int| 0 <= p < n_partitions && (#[trigger] slots@[p]) is Some ==> went_on(
                cancel,
            ),
        decreases threads - t,
    {
        let mine = stride(t, threads, n_partitions);
        proof {
            assert(t as int % threads as int == t) by (nonlinear_arith)
                requires
                    0 <= t < threads,
            ;
            lemma_stride(t as int, t as int, threads as int, n_partitions as int);
        }
        let mut i: usize = 0;
        let mut stopped = false;
        while i < mine.len() && !stopped
            invariant
                i <= mine@.len(),
                stopped ==> was_cancelled(cancel),
                t < threads,
                threads == threads_for(n_partitions, parallelism),
                mine@ == stride_from(t as int, threads as int, n_partitions as int),
                forall|q: usize| #[trigger]
                    mine@.contains(q) <==> t <= q < n_partitions && q as int % threads as int == t,
                slots@.len() == n_partitions,
                forall|p: usize, k: u32|
                    p < n_partitions ==> #[trigger] call_requires(*attempt, (p, k)),
                forall|p: usize|
                    p < n_partitions ==> slot_result(*attempt, p, #[trigger] slots@[p as int]),
                forall|p: usize|
                    #![trigger slots@[p as int]]
                    !was_cancelled(cancel) && p < n_partitions && p % threads < t ==> slots@[
                        p as int] is Some,
                forall|p: int|
                    0 <= p < n_partitions && (#[trigger] slots@[p]) is Some ==> went_on(cancel),
                forall|j: int| 0 <= j < i && !stopped ==> slots@[#[trigger] mine@[j] as int] is Some,
            decreases mine@.len() - i, if stopped { 0int } else { 1int },
        {
            if is_cancelled(cancel) {
                stopped = true;
            } else {
                let p = mine[i];
                assert(mine@.contains(p));
                let message = match run_task(p, attempt) {
                    Ok(v) => Ok((p, v)),
                    Err(e) => Err(e),
                };
                match slots.put(message) {
                    Some(e) => {
                        assert(task_result(*attempt, p, Err::<T, Error>(e)));
                        if let Some(flag) = cancel {
                            raise(flag);
                        }
                        return Err(e);
                    },
                    None => {},
                }
                proof {
                    assert forall|j: int| 0 <= j < i + 1 implies slots@[
                    #[trigger] mine@[j] as int] is Some by {
                        assert(mine@.contains(mine@[j]));
                    }
                }
                i = i + 1;
            }
        }
        proof {
            assert forall|p: usize|
                #![trigger slots@[p as int]]
                !was_cancelled(cancel) && p < n_partitions && p % threads < t + 1 implies slots@[
                p as int] is Some by {
                if p % threads == t {
                    lemma_remainder_below(p as int, threads as int);
                    assert(mine@.contains(p));
                    let j = choose|j: int| 0 <= j < mine@.len() && mine@[j] == p;
                    let _ = mine@[j];
                }
            }
        }
        t = t + 1;
    }
    let ghost all = slots@;
    let r = slots.finish();
    proof {
        if r is Ok {
            let v = r->Ok_0@;
            assert forall|p: usize| p < n_partitions implies task_result(
                *attempt,
                p,
                Ok(#[trigger] v[p as int]),
            ) by {
                assert(slot_result(*attempt, p, all[p as int]));
            }
            if n_partitions > 0 {
                assert(all[0] == Some(v[0]));
            }
        } else {
            let p = r->Err_0->MissingPartition_0;
            assert forall|q: usize| q < p implies #[trigger] came_in(*attempt, q) by {
                assert(all[q as int] is Some);
                assert(slot_result(*attempt, q, all[q as int]));
            }
        }
        if r is Err && !was_cancelled(cancel) {
            let p = r->Err_0->MissingPartition_0;
            assert(p % threads < threads);
            assert(all[p as int] is Some);
        }
    }
    r
}

pub(crate) proof fn lemma_remainder_below(p: int, d: int)
    requires
        p >= 0,
        d > 0,
    ensures
        p % d <= p,
{
    vstd::arithmetic::div_mod::lemma_mod_decreases(p as nat, d as nat);
}

// ---- work that is done once

/// What work that partitions share came to. Each piece of work is done once; whoever asks later
/// gets what it came to then, be it a value or an error.
#[derive(Debug)]
pub struct OnceCache<T> {
    done: HashMap<u64, Result<Arc<T>, Error>>,
}

/// Two results that say the same.
pub open spec fn same_result<T>(a: Result<Arc<T>, Error>, b: Result<Arc<T>, Error>) -> bool {
    match (a, b) {
        (Ok(x), Ok(y)) => x == y,
        (Err(x), Err(y)) => same_error(x, y),
        _ => false,
    }
}

fn share<T>(r: &Result<Arc<T>, Error>) -> (c: Result<Arc<T>, Error>)
    ensures
        same_result(*r, c),
{
    match r {
        Ok(x) => Ok(x.clone()),
        Err(e) => Err(e.clone()),
    }
}

/// What asking for the work `id` does: where it was done before, nothing changes; else what it came
/// to is kept.
pub open spec fn asked_for<T>(
    before: Map<u64, Result<Arc<T>, Error>>,
    id: u64,
    after: Map<u64, Result<Arc<T>, Error>>,
) -> bool {
    if before.contains_key(id) {
        after == before
    } else {
        after.contains_key(id) && after == before.insert(id, after[id])
    }
}

/// `states` are the states of a cache while the works `ids` are asked for, one after the other.
pub open spec fn asked_in_turn<T>(
    states: Seq<Map<u64, Result<Arc<T>, Error>>>,
    ids: Seq<u64>,
) -> bool {
    &&& states.len() == ids.len() + 1
    &&& forall|i: int|
        #![trigger ids[i]]
        0 <= i < ids.len() ==> asked_for(states[i], ids[i], states[i + 1])
}

/// However often works are asked for, what one came to stays, and each is done at most once.
pub proof fn lemma_done_once<T>(
    states: Seq<Map<u64, Result<Arc<T>, Error>>>,
    ids: Seq<u64>,
    i: int,
    j: int,
    id: u64,
)
    requires
        asked_in_turn(states, ids),
        0 <= i <= j < states.len(),
    ensures
        states[i].contains_key(id) ==> states[j].contains_key(id) && states[j][id] == states[i][id],
        i < j && ids[i] == id ==> states[j].contains_key(id) && states[j][id] == states[i + 1][id],
    decreases j - i,
{
    if i < j {
        let now = ids[i];
        assert(asked_for(states[i], now, states[i + 1]));
        lemma_done_once(states, ids, i + 1, j, id);
    }
}

impl<T> OnceCache<T> {
    pub closed spec fn view(&self) -> Map<u64, Result<Arc<T>, Error>> {
        self.done@
    }

    pub fn new() -> (c: Self)
        ensures
            c@ == Map::<u64, Result<Arc<T>, Error>>::empty(),
    {
        OnceCache { done: HashMap::new() }
    }

    /// What the work `id` came to, if it was done.
    pub fn get(&self, id: u64) -> (r: Option<Result<Arc<T>, Error>>)
        ensures
            match r {
                Some(x) => self@.contains_key(id) && same_result(self@[id], x),
                None => !self@.contains_key(id),
            },
    {
        match self.done.get(&id) {
            Some(r) => Some(share(r)),
            None => None,
        }
    }

    /// Does the work `id` unless it was done before, and says what it came to.
    pub fn get_or_do<F: Fn() -> Outcome<T>>(&mut self, id: u64, work: &F) -> (r: Result<
        Arc<T>,
        Error,
    >)
        requires
            call_requires(*work, ()),
        ensures
            asked_for(old(self)@, id, final(self)@),
            same_result(final(self)@[id], r),
            !old(self)@.contains_key(id) ==> {
                exists|o: Outcome<T>| #[trigger]
                    call_ensures(*work, (), o) && match o {
                        Outcome::Finished(Ok(x)) => final(self)@[id] == Ok::<Arc<T>, Error>(
                            Arc::new(x),
                        ),
                        Outcome::Finished(Err(e)) => final(self)@[id] == Err::<Arc<T>, Error>(e),
                        Outcome::Panicked(payload) => final(self)@[id] matches Err(
                            Error::Panic { message },
                        ) && message@ == panic_text(payload),
                    }
            },
    {
        if let Some(r) = self.done.get(&id) {
            return share(r);
        }
        let outcome = work();
        let stored: Result<Arc<T>, Error> = match catch_driver(outcome) {
            Ok(x) => Ok(Arc::new(x)),
            Err(e) => Err(e),
        };
        let r = share(&stored);
        self.done.insert(id, stored);
        r
    }
}

// ---- laws

/// There are as many threads as may be used, but no more than partitions, and one where none may be
/// used.
pub proof fn lemma_threads(n: usize, parallelism: usize)
    ensures
        threads_for(n, parallelism) <= n,
        parallelism > 0 ==> threads_for(n, parallelism) <= parallelism,
        n > 0 ==> threads_for(n, parallelism) > 0,
        parallelism > 0 && n >= parallelism ==> threads_for(n, parallelism) == parallelism,
        n < parallelism ==> threads_for(n, parallelism) == n,
        threads_for(n, 0) <= 1,
{
}

/// A thread computes its partitions in order: the `i`-th is `i` strides behind the first.
pub proof fn lemma_stride_order(t: int, threads: int, n: int, i: int)
    requires
        0 <= t,
        0 < threads,
        n <= usize::MAX,
        0 <= i < stride_from(t, threads, n).len(),
    ensures
        stride_from(t, threads, n)[i] == t + i * threads,
    decreases i,
{
    if i > 0 {
        lemma_stride_order(t + threads, threads, n, i - 1);
        assert(t + threads + (i - 1) * threads == t + i * threads) by (nonlinear_arith);
        assert(stride_from(t, threads, n)[i] == stride_from(t + threads, threads, n)[i - 1]);
    } else {
        assert(0 * threads == 0) by (nonlinear_arith);
    }
}

/// A task is tried at most three times, the next time only after a panic; the last try counts. A try
/// that panicked is an error that names the partition and says what the panic said.
pub proof fn lemma_tries<T, F: Fn(usize, u32) -> Outcome<T>>(
    f: F,
    partition: usize,
    r: Result<T, Error>,
) -> (tries: Seq<Outcome<T>>)
    requires
        task_result(f, partition, r),
    ensures
        1 <= tries.len() <= 3,
        forall|k: int|
            0 <= k < tries.len() ==> call_ensures(f, (partition, k as u32), #[trigger] tries[k]),
        forall|k: int| 0 <= k < tries.len() - 1 ==> (#[trigger] tries[k]) is Panicked,
        tries.last() is Panicked ==> tries.len() == 3,
        match tries.last() {
            Outcome::Finished(x) => r == x,
            Outcome::Panicked(PanicPayload::Text(s)) => r matches Err(
                Error::PartitionPanic { partition: p, message },
            ) && p == partition && message@ == s@,
            Outcome::Panicked(PanicPayload::Other) => r matches Err(
                Error::PartitionPanic { partition: p, message },
            ) && p == partition && message@ == "Box<dyn Any>"@,
        },
{
    choose|tries: Seq<Outcome<T>>| #[trigger]
        attempts(f, partition, tries) && partition_result(partition, tries.last(), r)
}

/// Work without a flag is never cancelled.
pub proof fn lemma_no_flag()
    ensures
        !was_cancelled(None),
        went_on(None),
{
}

/// Work with a flag is cancelled by raising the flag, and found cancelled by reading it.
pub proof fn lemma_flag(flag: &AtomicBool)
    ensures
        was_cancelled(Some(flag)) <==> raised(flag, true),
        went_on(Some(flag)) <==> raised(flag, false),
        cancelled_all(Some(flag)) <==> put(flag, true),
{
}

/// A partition came in if its task came to a value.
pub proof fn lemma_came_in<T, F: Fn(usize, u32) -> Outcome<T>>(f: F, p: usize) -> (v: T)
    requires
        came_in(f, p),
    ensures
        task_result(f, p, Ok::<T, Error>(v)),
{
    choose|v: T| #[trigger] task_result(f, p, Ok::<T, Error>(v))
}

/// The same result is the same value, or an error that says the same.
pub proof fn lemma_same_result<T>(a: Result<Arc<T>, Error>, b: Result<Arc<T>, Error>)
    requires
        same_result(a, b),
    ensures
        a is Ok <==> b is Ok,
        a is Ok ==> a == b,
        a is Err ==> error_text(a->Err_0) == error_text(b->Err_0),
{
    if a is Err {
        lemma_same_text(a->Err_0, b->Err_0);
    }
}

} // verus!
