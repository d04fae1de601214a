//! Jobs: the tasks of all partitions, numbered and counted.
use std::sync::atomic::AtomicBool;
use std::time::{Duration, Instant};

use vstd::prelude::*;

use crate::clock::{clocked, micros_since, read_clock, since};
use crate::dataset::{as_outcome, outcome_of, task_error};
use crate::error::Error;
use crate::exec::{
    attempts, came_in, cancelled_all, panic_text, partition_result, run_partitions, task_result,
    was_cancelled, went_on, Outcome, MAX_RETRIES,
};
use crate::metrics::{end_growth, local_task, start_growth, succeeded, Counters};

verus! {

/// A job was given the next number.
pub open spec fn numbered(c: Counters) -> bool {
    exists|job: u64| c.numbers_job(job)
}

/// The end of an attempt was counted, with the time that it took.
pub open spec fn ended(c: Counters, success: bool) -> bool {
    exists|micros: u128| clocked(micros) && #[trigger] c.grew(end_growth(micros, success))
}

/// An attempt at a task was counted: that it started, and how it ended.
pub open spec fn attempt_counted(c: Counters, attempt: u32, success: bool) -> bool {
    c.grew(start_growth(attempt)) && ended(c, success)
}

/// The attempts at a task were counted, of which `last` is the last: those before it failed.
pub open spec fn tried(c: Counters, last: u32, success: bool) -> bool {
    &&& last <= MAX_RETRIES
    &&& forall|k: u32| k < last ==> #[trigger] attempt_counted(c, k, false)
    &&& attempt_counted(c, last, success)
}

/// The attempts at a task that came to a value, or failed, were counted.
pub open spec fn task_counted(c: Counters, success: bool) -> bool {
    exists|last: u32| #[trigger] tried(c, last, success)
}

/// An attempt at partition `p` may come to `r`, and it was counted.
spec fn attempt_made<T, F: Fn(usize) -> Result<T, Error>>(
    compute: F,
    c: Counters,
    p: usize,
    attempt: u32,
    o: Outcome<T>,
) -> bool {
    &&& attempt_counted(c, attempt, succeeded(o))
    &&& exists|r: Result<T, Error>| #[trigger]
        call_ensures(compute, (p,), r) && o == outcome_of(r)
}

/// What the task of partition `p` may come to, where computing it is `compute`: a panic that was
/// caught on the way is an error of the partition.
pub open spec fn task_gives<T, F: Fn(usize) -> Result<T, Error>>(
    compute: F,
    p: usize,
    r: Result<T, Error>,
) -> bool {
    match r {
        Ok(v) => call_ensures(compute, (p,), Ok::<T, Error>(v)),
        Err(e) => exists|x: Error| #[trigger]
            call_ensures(compute, (p,), Err::<T, Error>(x)) && task_error(p as int, x, e),
    }
}

proof fn lemma_task_made<T, F: Fn(usize) -> Result<T, Error>, A: Fn(usize, u32) -> Outcome<T>>(
    compute: F,
    c: Counters,
    attempt: A,
    p: usize,
    r: Result<T, Error>,
)
    requires
        forall|k: u32, o: Outcome<T>| #[trigger]
            call_ensures(attempt, (p, k), o) ==> attempt_made(compute, c, p, k, o),
        task_result(attempt, p, r),
    ensures
        task_gives(compute, p, r),
        task_counted(c, r is Ok),
{
    let tries = choose|tries: Seq<Outcome<T>>| #[trigger]
        attempts(attempt, p, tries) && partition_result(p, tries.last(), r);
    let last = (tries.len() - 1) as u32;
    assert forall|k: u32| k < last implies #[trigger] attempt_counted(c, k, false) by {
        assert(call_ensures(attempt, (p, k), tries[k as int]));
        assert(tries[k as int] is Panicked);
    }
    let o = tries[last as int];
    assert(call_ensures(attempt, (p, last), o));
    assert(succeeded(o) == (r is Ok));
    assert(tried(c, last, r is Ok));
    let x = choose|x: Result<T, Error>| #[trigger]
        call_ensures(compute, (p,), x) && o == outcome_of(x);
    if x is Err {
        let y = x->Err_0;
        if y is Panic {
            assert(panic_text(o->Panicked_0) == y->Panic_message@);
        }
        assert(task_error(p as int, y, r->Err_0));
    }
}

/// The task of partition `p` came to a value.
pub open spec fn computed<T, F: Fn(usize) -> Result<T, Error>>(compute: F, p: usize) -> bool {
    exists|v: T| #[trigger] task_gives(compute, p, Ok::<T, Error>(v))
}

/// Computes all partitions as the tasks of a job: the job gets a number, the attempts at each task
/// are counted, and a panic that was caught on the way is tried again. The first error ends the
/// work and cancels it; a partition is missing only where the work was found cancelled.
pub fn run_job<T, F: Fn(usize) -> Result<T, Error>>(
    n: usize,
    parallelism: usize,
    cancel: Option<&AtomicBool>,
    counters: &Counters,
    compute: &F,
) -> (r: Result<Vec<T>, Error>)
    requires
        forall|p: usize| p < n ==> #[trigger] call_requires(*compute, (p,)),
    ensures
        n > 0 ==> numbered(*counters),
        match r {
            Ok(v) => {
                &&& v@.len() == n
                &&& forall|p: usize|
                    #![trigger v@[p as int]]
                    p < n ==> task_gives(*compute, p, Ok(v@[p as int]))
                &&& n > 0 ==> went_on(cancel) && task_counted(*counters, true)
            },
            Err(e) => {
                ||| cancelled_all(cancel) && task_counted(*counters, false) && exists|p: usize|
                    p < n && #[trigger] task_gives(*compute, p, Err::<T, Error>(e))
                ||| e matches Error::MissingPartition(p) && p < n && was_cancelled(cancel)
                    && forall|q: usize| q < p ==> #[trigger] computed(*compute, q)
            },
        },
{
    if n == 0 {
        return Ok(Vec::new());
    }
    let job = counters.job_id();
    assert(numbered(*counters));
    let attempt = |p: usize, k: u32| -> (o: Outcome<T>)
        requires
            p < n,
        ensures
            attempt_made(*compute, *counters, p, k, o),
        {
            let timed = || -> (t: (Outcome<T>, u128))
                ensures
                    clocked(t.1),
                    exists|r: Result<T, Error>| #[trigger]
                        call_ensures(*compute, (p,), r) && t.0 == outcome_of(r),
                {
                    let start = read_clock();
                    let r = compute(p);
                    let micros = micros_since(&start);
                    (as_outcome(r), micros)
                };
            let o = local_task(counters, k, &timed);
            proof {
                let micros = choose|micros: u128| #[trigger]
                    call_ensures(timed, (), (o, micros)) && counters.grew(
                        end_growth(micros, succeeded(o)),
                    );
                assert(clocked(micros));
            }
            o
        };
    let r = run_partitions(n, parallelism, cancel, &attempt);
    proof {
        if r is Ok {
            let v = r->Ok_0;
            assert forall|p: usize| #![trigger v@[p as int]] p < n implies task_gives(
                *compute,
                p,
                Ok(v@[p as int]),
            ) && task_counted(*counters, true) by {
                lemma_task_made(*compute, *counters, attempt, p, Ok(v@[p as int]));
            }
            let _ = v@[0usize as int];
        } else {
            let e = r->Err_0;
            if exists|p: usize| p < n && #[trigger] task_result(attempt, p, Err::<T, Error>(e)) {
                let p = choose|p: usize|
                    p < n && #[trigger] task_result(attempt, p, Err::<T, Error>(e));
                lemma_task_made(*compute, *counters, attempt, p, Err::<T, Error>(e));
            }
            assert forall|q: usize| q < n && came_in(attempt, q) implies #[trigger] computed(
                *compute,
                q,
            ) by {
                let v = choose|v: T| #[trigger] task_result(attempt, q, Ok::<T, Error>(v));
                lemma_task_made(*compute, *counters, attempt, q, Ok::<T, Error>(v));
            }
        }
    }
    r
}

/// The counters tell the attempts at a task: at most three, each but the last failed, and each but the
/// first a retry.
pub proof fn lemma_tried(c: Counters, last: u32, success: bool)
    requires
        tried(c, last, success),
    ensures
        last < 3,
        forall|k: u32| k < last ==> #[trigger] c.grew(start_growth(k)),
        last > 0 ==> ended(c, false),
        c.grew(start_growth(last)),
        ended(c, success),
{
    assert forall|k: u32| k < last implies #[trigger] c.grew(start_growth(k)) by {
        assert(attempt_counted(c, k, false));
    }
    if last > 0 {
        assert(attempt_counted(c, 0, false));
    }
}

/// A task gives what it computes; where that is a panic, an error that names its partition.
pub proof fn lemma_task_gives<T, F: Fn(usize) -> Result<T, Error>>(
    compute: F,
    p: usize,
    r: Result<T, Error>,
) -> (x: Result<T, Error>)
    requires
        task_gives(compute, p, r),
    ensures
        call_ensures(compute, (p,), x),
        match x {
            Err(Error::Panic { message }) => r matches Err(
                Error::PartitionPanic { partition, message: m },
            ) && partition == p && m@ == message@,
            _ => r == x,
        },
{
    match r {
        Ok(v) => r,
        Err(e) => {
            let x = choose|x: Error| #[trigger]
                call_ensures(compute, (p,), Err::<T, Error>(x)) && task_error(p as int, x, e);
            Err(x)
        },
    }
}

/// The end of an attempt is counted with the time that it took: what a clock showed between its start
/// and its end.
pub proof fn lemma_ended(c: Counters, success: bool) -> (r: (Instant, Duration, u128))
    requires
        ended(c, success),
    ensures
        c.grew(end_growth(r.2, success)),
        call_ensures(Instant::now, (), r.0),
        call_ensures(Instant::elapsed, (&r.0,), r.1),
        call_ensures(Duration::as_micros, (&r.1,), r.2),
{
    let micros = choose|micros: u128|
        clocked(micros) && #[trigger] c.grew(end_growth(micros, success));
    let start = choose|start: Instant|
        call_ensures(Instant::now, (), start) && #[trigger] since(start, micros);
    let d = choose|d: Duration| #[trigger]
        call_ensures(Instant::elapsed, (&start,), d) && call_ensures(
            Duration::as_micros,
            (&d,),
            micros,
        );
    (start, d, micros)
}

} // verus!
