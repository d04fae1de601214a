//! Numbers and flags that threads share.
//!
//! Any thread may change them at any time, so what a read returns is not determined by what came
//! before it. What can be said of a number that was read is which number it was read from, and how.
use std::sync::atomic::{AtomicBool, AtomicU64, Ordering};

use vstd::prelude::*;

verus! {

/// `cell` is what making a shared number that stands at `v` gives.
pub open spec fn made(cell: AtomicU64, v: u64) -> bool {
    call_ensures(AtomicU64::new, (v,), cell)
}

/// `v` is what a read of `cell` may give.
pub open spec fn held(cell: &AtomicU64, v: u64) -> bool {
    call_ensures(AtomicU64::load, (cell, Ordering::Relaxed), v)
}

/// `v` is what `cell` may have stood at when `by` was added to it.
pub open spec fn advanced(cell: &AtomicU64, by: u64, v: u64) -> bool {
    call_ensures(AtomicU64::fetch_add, (cell, by, Ordering::Relaxed), v)
}

/// `b` is what a read of `flag` may give.
pub open spec fn raised(flag: &AtomicBool, b: bool) -> bool {
    call_ensures(AtomicBool::load, (flag, Ordering::Relaxed), b)
}

/// `b` was written to `flag`.
pub open spec fn put(flag: &AtomicBool, b: bool) -> bool {
    call_ensures(AtomicBool::store, (flag, b, Ordering::Relaxed), ())
}

/// `by` was added to `cell`.
pub open spec fn grown(cell: &AtomicU64, by: u64) -> bool {
    exists|v: u64| #[trigger] advanced(cell, by, v)
}

pub(crate) fn call_none<R, F: Fn() -> R>(f: F) -> (r: R)
    requires
        call_requires(f, ()),
    ensures
        call_ensures(f, (), r),
{
    f()
}

pub(crate) fn call_one<A, R, F: Fn(A) -> R>(f: F, a: A) -> (r: R)
    requires
        call_requires(f, (a,)),
    ensures
        call_ensures(f, (a,), r),
{
    f(a)
}

fn call_two<A, B, R, F: Fn(A, B) -> R>(f: F, a: A, b: B) -> (r: R)
    requires
        call_requires(f, (a, b)),
    ensures
        call_ensures(f, (a, b), r),
{
    f(a, b)
}

fn call_three<A, B, C, R, F: Fn(A, B, C) -> R>(f: F, a: A, b: B, c: C) -> (r: R)
    requires
        call_requires(f, (a, b, c)),
    ensures
        call_ensures(f, (a, b, c), r),
{
    f(a, b, c)
}

/// A shared number that stands at `v`.
pub(crate) fn make(v: u64) -> (cell: AtomicU64)
    ensures
        made(cell, v),
{
    call_one(AtomicU64::new, v)
}

/// What a shared number stands at.
pub(crate) fn look(cell: &AtomicU64) -> (v: u64)
    ensures
        held(cell, v),
{
    call_two(AtomicU64::load, cell, Ordering::Relaxed)
}

/// Adds to a shared number, and says what it stood at before.
pub(crate) fn advance(cell: &AtomicU64, by: u64) -> (v: u64)
    ensures
        advanced(cell, by, v),
{
    call_three(AtomicU64::fetch_add, cell, by, Ordering::Relaxed)
}

/// Raises a shared flag.
pub(crate) fn raise(flag: &AtomicBool)
    ensures
        put(flag, true),
{
    call_three(AtomicBool::store, flag, true, Ordering::Relaxed)
}

/// Whether a shared flag is raised.
pub(crate) fn is_raised(flag: &AtomicBool) -> (b: bool)
    ensures
        raised(flag, b),
{
    call_two(AtomicBool::load, flag, Ordering::Relaxed)
}

/// Shared numbers and flags are used as the atomic operations of these names do: what is made, read,
/// added and written is what they make, read, add and write.
pub proof fn lemma_shared(cell: AtomicU64, flag: AtomicBool, v: u64, by: u64, b: bool)
    ensures
        made(cell, v) <==> call_ensures(AtomicU64::new, (v,), cell),
        held(&cell, v) <==> call_ensures(AtomicU64::load, (&cell, Ordering::Relaxed), v),
        advanced(&cell, by, v) <==> call_ensures(
            AtomicU64::fetch_add,
            (&cell, by, Ordering::Relaxed),
            v,
        ),
        advanced(&cell, by, v) ==> grown(&cell, by),
        raised(&flag, b) <==> call_ensures(AtomicBool::load, (&flag, Ordering::Relaxed), b),
        put(&flag, b) <==> call_ensures(AtomicBool::store, (&flag, b, Ordering::Relaxed), ()),
{
}

} // verus!
