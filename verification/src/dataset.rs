//! Partitioned datasets that are evaluated on demand.
use std::sync::atomic::AtomicBool;
use std::sync::Arc;

use vstd::prelude::*;

use crate::error::Error;
use crate::exec::{is_cancelled, was_cancelled, Outcome, PanicPayload};
use crate::seqs::{concat, lemma_concat_add, lemma_concat_push, rows};

verus! {

/// A dataset that can be evaluated any number of times.
pub trait Dataset<T>: Send + Sync {
    /// Every function that an evaluation calls accepts what it is called with.
    spec fn wf(&self) -> bool;

    /// The number of partitions.
    spec fn parts(&self) -> nat;

    /// One evaluation may give the partitions in the domain of `out` these contents.
    spec fn yields(&self, out: Map<int, Seq<T>>) -> bool;

    /// One evaluation may give the partitions in the domain of `out` these contents, and let
    /// partition `p` begin with `items`.
    spec fn yields_some(&self, out: Map<int, Seq<T>>, p: int, items: Seq<T>) -> bool;

    /// The work that the partitions of an evaluation share may fail with `e`.
    spec fn jams(&self, e: Error) -> bool;

    /// Computing partition `p` may fail with `e`.
    spec fn breaks(&self, p: int, e: Error) -> bool;

    /// What the work that the partitions of an evaluation share counts for was counted.
    spec fn charges(&self) -> bool;

    /// What starting on partition `p` counts for was counted.
    spec fn part_charges(&self, p: int) -> bool;

    /// Starts an evaluation by doing the work that its partitions share.
    fn open(&self, cancel: Option<&AtomicBool>) -> (r: Result<Arc<Box<dyn Evaluation<T>>>, Error>)
        requires
            self.wf(),
        ensures
            match r {
                Ok(e) => {
                    &&& e.wf()
                    &&& e.parts() == self.parts()
                    &&& forall|out: Map<int, Seq<T>>|
                        (forall|p: int| #[trigger]
                            out.contains_key(p) ==> 0 <= p < e.parts() && e.gives(p, out[p]))
                            ==> #[trigger] self.yields(out)
                    &&& forall|out: Map<int, Seq<T>>, p: int, items: Seq<T>|
                        (forall|q: int| #[trigger]
                            out.contains_key(q) ==> 0 <= q < e.parts() && e.gives(q, out[q])) && 0
                            <= p < e.parts() && e.begins(p, items)
                            ==> #[trigger] self.yields_some(out, p, items)
                    &&& forall|p: int, x: Error|
                        0 <= p < e.parts() && #[trigger] e.breaks(p, x) ==> self.breaks(p, x)
                    &&& self.charges()
                    &&& forall|p: int|
                        0 <= p < e.parts() && #[trigger] e.charges(p) ==> self.part_charges(p)
                },
                Err(x) => cut_short(cancel, x) || self.jams(x),
            },
    ;
}

/// Work that partitions share ended with `e` because it was found cancelled.
pub open spec fn cut_short(cancel: Option<&AtomicBool>, e: Error) -> bool {
    was_cancelled(cancel) && (e is Cancelled || e is MissingPartition)
}

/// One evaluation of a dataset, partition by partition.
pub trait Evaluation<T>: Send + Sync {
    /// Every function that a computation calls accepts what it is called with.
    spec fn wf(&self) -> bool;

    /// The number of partitions.
    spec fn parts(&self) -> nat;

    /// Partition `p` may hold `items`.
    spec fn gives(&self, p: int, items: Seq<T>) -> bool;

    /// Partition `p` may begin with `items`.
    spec fn begins(&self, p: int, items: Seq<T>) -> bool;

    /// Computing partition `p` may fail with `e`.
    spec fn breaks(&self, p: int, e: Error) -> bool;

    /// What starting on partition `p` counts for was counted.
    spec fn charges(&self, p: int) -> bool;

    /// Starts on one partition, to compute no more of it than is asked for.
    fn part(&self, p: usize, cancel: Option<&AtomicBool>) -> (r: Result<
        Own<Box<dyn Part<T>>>,
        Error,
    >)
        requires
            self.wf(),
            p < self.parts(),
        ensures
            match r {
                Ok(q) => {
                    &&& q.it.ready()
                    &&& q.it.had() == Seq::<T>::empty()
                    &&& forall|items: Seq<T>, all: bool| #[trigger]
                        (q.it.may())(items, all) ==> self.begins(p as int, items) && (all
                            ==> self.gives(p as int, items))
                    &&& forall|e: Error| #[trigger] (q.it.breaks())(e) ==> self.breaks(p as int, e)
                    &&& self.charges(p as int)
                },
                Err(e) => e is Cancelled && was_cancelled(cancel) || self.breaks(p as int, e),
            },
    ;

    /// Computes one partition.
    fn compute(&self, p: usize, cancel: Option<&AtomicBool>) -> (r: Result<Vec<T>, Error>)
        requires
            self.wf(),
            p < self.parts(),
        ensures
            match r {
                Ok(v) => self.gives(p as int, v@) && self.charges(p as int),
                Err(e) => e is Cancelled && was_cancelled(cancel) || self.breaks(p as int, e),
            },
    ;
}

/// A value that its holder may change.
pub struct Own<B> {
    pub it: B,
}

pub(crate) fn own<B>(it: B) -> (o: Own<B>)
    ensures
        o.it == it,
{
    Own { it }
}

/// So many items are fewer than those needed; where no number is given, all are needed.
pub open spec fn fewer(n: nat, need: Option<usize>) -> bool {
    match need {
        Some(k) => n < k,
        None => true,
    }
}

fn enough(n: usize, need: Option<usize>) -> (b: bool)
    ensures
        b == !fewer(n as nat, need),
{
    match need {
        Some(k) => n >= k,
        None => false,
    }
}

/// The items of one partition, computed on demand.
pub trait Part<T> {
    /// More items can be asked for.
    spec fn ready(&self) -> bool;

    /// The items so far.
    spec fn had(&self) -> Seq<T>;

    /// What items there may be, and whether they may be all.
    spec fn may(&self) -> spec_fn(Seq<T>, bool) -> bool;

    /// What computing an item may fail with.
    spec fn breaks(&self) -> spec_fn(Error) -> bool;

    /// How many items of the source are left.
    spec fn left(&self) -> nat;

    /// Computes the items that come of the next item of the source, but none beyond the first
    /// `need`. There may be more only where they are fewer than needed.
    fn next(&mut self, need: Option<usize>, cancel: Option<&AtomicBool>) -> (r: Result<
        Option<Vec<T>>,
        Error,
    >)
        requires
            old(self).ready(),
        ensures
            final(self).may() == old(self).may(),
            final(self).breaks() == old(self).breaks(),
            match r {
                Ok(Some(v)) => {
                    &&& final(self).had() == old(self).had() + v@
                    &&& (final(self).may())(final(self).had(), false)
                    &&& final(self).left() < old(self).left()
                    &&& fewer(v@.len(), need) ==> final(self).ready()
                },
                Ok(None) => (old(self).may())(old(self).had(), true),
                Err(e) => e is Cancelled && was_cancelled(cancel) || (old(self).breaks())(e),
            },
    ;
}

/// The first `need` items of a partition, or all where there are fewer. Nothing is computed that
/// these items do not take.
pub fn take_items<T>(
    start: Own<Box<dyn Part<T>>>,
    need: usize,
    cancel: Option<&AtomicBool>,
) -> (r: Result<Vec<T>, Error>)
    requires
        start.it.ready(),
        start.it.had() == Seq::<T>::empty(),
        need > 0,
    ensures
        match r {
            Ok(v) => {
                ||| v@.len() < need && (start.it.may())(v@, true)
                ||| exists|items: Seq<T>| #[trigger]
                    (start.it.may())(items, false) && items.len() >= need && v@ == items.take(
                        need as int,
                    )
            },
            Err(e) => e is Cancelled && was_cancelled(cancel) || (start.it.breaks())(e),
        },
{
    let mut part = start;
    let ghost may = part.it.may();
    let ghost breaks = part.it.breaks();
    let mut out: Vec<T> = Vec::new();
    loop
        invariant
            part.it.ready(),
            part.it.may() == may,
            part.it.breaks() == breaks,
            may == start.it.may(),
            breaks == start.it.breaks(),
            out@ == part.it.had(),
            out@.len() < need,
        decreases part.it.left(),
    {
        let missing = need - out.len();
        match part.it.next(Some(missing), cancel) {
            Ok(Some(items)) => {
                let mut more = items;
                out.append(&mut more);
                if out.len() >= need {
                    let ghost all = out@;
                    assert((start.it.may())(all, false));
                    out.truncate(need);
                    assert(out@ =~= all.take(need as int));
                    return Ok(out);
                }
            },
            Ok(None) => return Ok(out),
            Err(e) => return Err(e),
        }
    }
}

/// The partitions of `out` are among the first `n`.
pub open spec fn within<T>(out: Map<int, Seq<T>>, n: nat) -> bool {
    forall|p: int| #[trigger] out.contains_key(p) ==> 0 <= p < n
}

/// The contents of consecutive partitions, by partition number.
pub open spec fn part_map<T>(parts: Seq<Seq<T>>) -> Map<int, Seq<T>> {
    Map::new(|p: int| 0 <= p < parts.len(), |p: int| parts[p])
}

/// One evaluation of all partitions of `d` may give `parts`.
pub open spec fn evaluates<T>(d: &Box<dyn Dataset<T>>, parts: Seq<Seq<T>>) -> bool {
    parts.len() == d.parts() && d.yields(part_map(parts))
}

// ---- failures

/// What the task of partition `p` fails with where computing the partition failed with `x`: a panic
/// is an error of the partition.
pub open spec fn task_error(p: int, x: Error, e: Error) -> bool {
    match x {
        Error::Panic { message } => e matches Error::PartitionPanic { partition, message: m }
            && partition == p && m@ == message@,
        _ => e == x,
    }
}

/// The task of some partition of `d` may fail with `e`.
pub open spec fn task_fails<T>(d: &Box<dyn Dataset<T>>, e: Error) -> bool {
    exists|p: int, x: Error| 0 <= p < d.parts() && #[trigger] d.breaks(p, x) && task_error(p, x, e)
}

/// An evaluation of all partitions of `d` may fail with `e`.
pub open spec fn fails<T>(d: &Box<dyn Dataset<T>>, e: Error) -> bool {
    d.jams(e) || task_fails(d, e)
}

/// No evaluation of `d` fails.
pub open spec fn never_fails<T>(d: &Box<dyn Dataset<T>>) -> bool {
    &&& forall|e: Error| !#[trigger] d.jams(e)
    &&& forall|p: int, e: Error| !#[trigger] d.breaks(p, e)
}

/// Evaluations of `child` fail where and as those of `parent` do.
pub open spec fn fails_alike<T, U>(
    parent: &Box<dyn Dataset<T>>,
    child: &Box<dyn Dataset<U>>,
) -> bool {
    &&& forall|e: Error| #[trigger] child.jams(e) <==> parent.jams(e)
    &&& forall|p: int, e: Error| #[trigger] child.breaks(p, e) <==> parent.breaks(p, e)
}

/// The work that the partitions of `child` share fails as evaluations of `parent` do, and nothing
/// else fails.
pub open spec fn fails_first<T, U>(
    parent: &Box<dyn Dataset<T>>,
    child: &Box<dyn Dataset<U>>,
) -> bool {
    &&& forall|e: Error| #[trigger] child.jams(e) <==> fails(parent, e)
    &&& forall|p: int, e: Error| !#[trigger] child.breaks(p, e)
}

/// Evaluations of `d` fail where and as those of `left` do, and then those of `right`.
pub open spec fn fails_both<T>(
    left: &Box<dyn Dataset<T>>,
    right: &Box<dyn Dataset<T>>,
    d: &Box<dyn Dataset<T>>,
) -> bool {
    &&& forall|e: Error| #[trigger] d.jams(e) <==> left.jams(e) || right.jams(e)
    &&& forall|p: int, e: Error| #[trigger]
        d.breaks(p, e) <==> if p < left.parts() {
            left.breaks(p, e)
        } else {
            right.breaks(p - left.parts(), e)
        }
}

// ---- what is counted

/// Evaluations of `child` count for what those of `parent` do.
pub open spec fn charges_alike<T, U>(
    parent: &Box<dyn Dataset<T>>,
    child: &Box<dyn Dataset<U>>,
) -> bool {
    &&& child.charges() <==> parent.charges()
    &&& forall|p: int| #[trigger] child.part_charges(p) <==> parent.part_charges(p)
}

/// Evaluations of `d` count for what those of `left` and of `right` do.
pub open spec fn charges_both<T>(
    left: &Box<dyn Dataset<T>>,
    right: &Box<dyn Dataset<T>>,
    d: &Box<dyn Dataset<T>>,
) -> bool {
    &&& d.charges() <==> left.charges() && right.charges()
    &&& forall|p: int| #[trigger]
        d.part_charges(p) <==> if p < left.parts() {
            left.part_charges(p)
        } else {
            right.part_charges(p - left.parts())
        }
}

/// What the first `k` partitions of `d` count for was counted, with the work that they share.
pub open spec fn charged<T>(d: &Box<dyn Dataset<T>>, k: nat) -> bool {
    d.charges() && forall|p: int| 0 <= p < k ==> #[trigger] d.part_charges(p)
}

// ---- tasks

/// How an attempt at a task ended that came to `r`: a panic that was caught on the way counts as
/// one.
pub open spec fn outcome_of<T>(r: Result<T, Error>) -> Outcome<T> {
    match r {
        Err(Error::Panic { message }) => Outcome::Panicked(PanicPayload::Text(message)),
        _ => Outcome::Finished(r),
    }
}

pub(crate) fn as_outcome<T>(r: Result<T, Error>) -> (o: Outcome<T>)
    ensures
        o == outcome_of(r),
{
    match r {
        Err(Error::Panic { message }) => Outcome::Panicked(PanicPayload::Text(message)),
        r => Outcome::Finished(r),
    }
}

/// What computing partition `p` of `e` may come to.
pub open spec fn computes<T>(
    e: &Box<dyn Evaluation<T>>,
    p: int,
    cancel: Option<&AtomicBool>,
    r: Result<Vec<T>, Error>,
) -> bool {
    match r {
        Ok(v) => e.gives(p, v@) && e.charges(p),
        Err(x) => x is Cancelled && was_cancelled(cancel) || e.breaks(p, x),
    }
}

/// `a` and `b` hold the same partitions, and `turns` relates them one by one.
pub open spec fn each_part<T, U>(
    turns: spec_fn(Seq<T>, Seq<U>) -> bool,
    a: Map<int, Seq<T>>,
    b: Map<int, Seq<U>>,
) -> bool {
    &&& a.dom() == b.dom()
    &&& forall|p: int| #[trigger] b.contains_key(p) ==> turns(a[p], b[p])
}

/// An evaluation of a dataset that was derived partition by partition comes from an evaluation of
/// its parent.
pub proof fn lemma_narrow_evaluation<T, U>(
    parent: &Box<dyn Dataset<T>>,
    child: &Box<dyn Dataset<U>>,
    turns: spec_fn(Seq<T>, Seq<U>) -> bool,
    parts: Seq<Seq<U>>,
) -> (inp: Seq<Seq<T>>)
    requires
        child.parts() == parent.parts(),
        forall|out: Map<int, Seq<U>>| #[trigger]
            child.yields(out) <==> exists|a: Map<int, Seq<T>>|
                parent.yields(a) && #[trigger] each_part(turns, a, out),
        evaluates(child, parts),
    ensures
        evaluates(parent, inp),
        inp.len() == parts.len(),
        forall|p: int| 0 <= p < parts.len() ==> turns(#[trigger] inp[p], parts[p]),
{
    let out = part_map(parts);
    assert(child.yields(out));
    let a = choose|a: Map<int, Seq<T>>| parent.yields(a) && #[trigger] each_part(turns, a, out);
    let inp = Seq::new(parts.len(), |p: int| a[p]);
    assert forall|p: int| #[trigger] part_map(inp).dom().contains(p) <==> a.dom().contains(p) by {
        assert(out.dom().contains(p) <==> 0 <= p < parts.len());
    }
    assert(part_map(inp).dom() =~= a.dom());
    assert(part_map(inp) =~= a);
    assert forall|p: int| 0 <= p < parts.len() implies turns(#[trigger] inp[p], parts[p]) by {
        assert(out.contains_key(p));
    }
    inp
}

// ---- in-memory partitions

/// `b` is an element-by-element clone of `a`.
pub open spec fn cloned_all<T: Clone>(a: Seq<T>, b: Seq<T>) -> bool {
    &&& a.len() == b.len()
    &&& forall|i: int| 0 <= i < a.len() ==> cloned(a[i], #[trigger] b[i])
}

/// `items` are the first of `all`.
pub open spec fn starts_with<T>(all: Seq<T>, items: Seq<T>) -> bool {
    items.len() <= all.len() && items == all.take(items.len() as int)
}

/// Partitions of `d` are computed as a whole, and then begin with the first of their items.
pub open spec fn whole_first<T>(d: &Box<dyn Dataset<T>>) -> bool {
    forall|out: Map<int, Seq<T>>, p: int, items: Seq<T>| #[trigger]
        d.yields_some(out, p, items) <==> 0 <= p < d.parts() && exists|all: Seq<T>| #[trigger]
            starts_with(all, items) && d.yields(out.insert(p, all))
}

/// Beginnings of `all`.
pub open spec fn beginnings<T>(all: Seq<T>) -> spec_fn(Seq<T>, bool) -> bool {
    |items: Seq<T>, done: bool| starts_with(all, items) && (done ==> items == all)
}

/// Nothing fails.
pub open spec fn no_failure() -> spec_fn(Error) -> bool {
    |e: Error| false
}

/// Items that are there already.
struct ItemsPart<T> {
    rest: std::collections::VecDeque<T>,
    all: Ghost<Seq<T>>,
}

impl<T> Part<T> for ItemsPart<T> {
    closed spec fn ready(&self) -> bool {
        self.rest@.len() <= self.all@.len() && self.rest@ == self.all@.skip(
            self.all@.len() - self.rest@.len(),
        )
    }

    closed spec fn had(&self) -> Seq<T> {
        self.all@.take(self.all@.len() - self.rest@.len())
    }

    closed spec fn may(&self) -> spec_fn(Seq<T>, bool) -> bool {
        beginnings(self.all@)
    }

    closed spec fn breaks(&self) -> spec_fn(Error) -> bool {
        no_failure()
    }

    closed spec fn left(&self) -> nat {
        self.rest@.len()
    }

    fn next(&mut self, need: Option<usize>, cancel: Option<&AtomicBool>) -> (r: Result<
        Option<Vec<T>>,
        Error,
    >) {
        let ghost before = self.had();
        match self.rest.pop_front() {
            Some(x) => {
                let mut v: Vec<T> = Vec::new();
                v.push(x);
                proof {
                    let k = (self.all@.len() - self.rest@.len()) as int;
                    assert(self.had() =~= before + v@);
                    assert(self.rest@ =~= self.all@.skip(k));
                    assert(starts_with(self.all@, self.had()));
                }
                Ok(Some(v))
            },
            None => {
                assert(before =~= self.all@);
                Ok(None)
            },
        }
    }
}

/// The items of a partition that was computed.
pub(crate) fn computed_part<T: 'static>(items: Vec<T>) -> (q: Own<Box<dyn Part<T>>>)
    ensures
        q.it.ready(),
        q.it.had() == Seq::<T>::empty(),
        q.it.may() == beginnings(items@),
        q.it.breaks() == no_failure(),
{
    let ghost all = items@;
    let mut rest: std::collections::VecDeque<T> = std::collections::VecDeque::new();
    for x in it: items
        invariant
            it.seq() == all,
            rest@ == all.take(it.index()),
    {
        assert(all.take(it.index() + 1) =~= all.take(it.index()).push(x));
        rest.push_back(x);
    }
    assert(rest@ =~= all);
    assert(all.skip(0) =~= all);
    assert(all.take(0) =~= Seq::<T>::empty());
    let boxed: Box<dyn Part<T>> = Box::new(ItemsPart { rest, all: Ghost(all) });
    let q = own(boxed);
    q
}

struct MemoryData<T> {
    parts: Arc<Vec<Vec<T>>>,
}

impl<T: Clone + Send + Sync + 'static> Evaluation<T> for MemoryData<T> {
    closed spec fn wf(&self) -> bool {
        true
    }

    closed spec fn parts(&self) -> nat {
        self.parts@.len()
    }

    closed spec fn gives(&self, p: int, items: Seq<T>) -> bool {
        cloned_all(self.parts@[p]@, items)
    }

    closed spec fn begins(&self, p: int, items: Seq<T>) -> bool {
        exists|all: Seq<T>|
            cloned_all(self.parts@[p]@, all) && #[trigger] starts_with(all, items)
    }

    fn part(&self, p: usize, cancel: Option<&AtomicBool>) -> (r: Result<
        Own<Box<dyn Part<T>>>,
        Error,
    >) {
        let items = self.parts[p].clone();
        let ghost all = items@;
        let q = computed_part(items);
        assert forall|x: Seq<T>, done: bool| #[trigger] (q.it.may())(x, done) implies self.begins(
            p as int,
            x,
        ) && (done ==> self.gives(p as int, x)) by {
            assert(starts_with(all, x));
        }
        Ok(q)
    }

    closed spec fn breaks(&self, p: int, e: Error) -> bool {
        false
    }

    closed spec fn charges(&self, p: int) -> bool {
        true
    }

    fn compute(&self, p: usize, cancel: Option<&AtomicBool>) -> (r: Result<Vec<T>, Error>) {
        Ok(self.parts[p].clone())
    }
}

impl<T: Clone + Send + Sync + 'static> Dataset<T> for MemoryData<T> {
    closed spec fn wf(&self) -> bool {
        true
    }

    closed spec fn parts(&self) -> nat {
        self.parts@.len()
    }

    closed spec fn yields(&self, out: Map<int, Seq<T>>) -> bool {
        &&& within(out, self.parts@.len())
        &&& forall|p: int| #[trigger]
            out.contains_key(p) ==> cloned_all(self.parts@[p]@, out[p])
    }

    closed spec fn yields_some(&self, out: Map<int, Seq<T>>, p: int, items: Seq<T>) -> bool {
        0 <= p < self.parts@.len() && exists|all: Seq<T>| #[trigger]
            starts_with(all, items) && <Self as Dataset<T>>::yields(self, out.insert(p, all))
    }

    closed spec fn jams(&self, e: Error) -> bool {
        false
    }

    closed spec fn breaks(&self, p: int, e: Error) -> bool {
        false
    }

    closed spec fn charges(&self) -> bool {
        true
    }

    closed spec fn part_charges(&self, p: int) -> bool {
        true
    }

    fn open(&self, cancel: Option<&AtomicBool>) -> (r: Result<Arc<Box<dyn Evaluation<T>>>, Error>) {
        let boxed: Box<dyn Evaluation<T>> = Box::new(MemoryData { parts: self.parts.clone() });
        let shared = Arc::new(boxed);
        Ok(shared)
    }
}

/// A dataset of the given partitions; each evaluation clones their items.
pub fn memory<T: Clone + Send + Sync + 'static>(parts: Vec<Vec<T>>) -> (d: Arc<Box<dyn Dataset<T>>>)
    ensures
        d.wf(),
        d.parts() == parts@.len(),
        forall|out: Map<int, Seq<T>>| #[trigger]
            d.yields(out) <==> within(out, parts@.len()) && forall|p: int| #[trigger]
                out.contains_key(p) ==> cloned_all(parts@[p]@, out[p]),
        whole_first(&*d),
        never_fails(&*d),
{
    let boxed: Box<dyn Dataset<T>> = Box::new(MemoryData { parts: Arc::new(parts) });
    let shared = Arc::new(boxed);
    shared
}

// ---- partition-wise functions

/// The first `k` of `from` may be turned into `items`.
pub open spec fn turns_first<T, U>(
    turns: spec_fn(Seq<T>, Seq<U>) -> bool,
    from: Seq<T>,
    k: int,
    items: Seq<U>,
) -> bool {
    0 <= k <= from.len() && turns(from.take(k), items)
}

/// `items` may be what some of the first of `from` are turned into.
pub open spec fn turns_some<T, U>(
    turns: spec_fn(Seq<T>, Seq<U>) -> bool,
    from: Seq<T>,
    items: Seq<U>,
) -> bool {
    exists|k: int| #[trigger] turns_first(turns, from, k, items)
}

/// `items` may be what as many of the first of `from` are turned into as it takes to get those
/// needed.
pub open spec fn turns_needed<T, U>(
    turns: spec_fn(Seq<T>, Seq<U>) -> bool,
    from: Seq<T>,
    need: Option<usize>,
    items: Seq<U>,
) -> bool {
    exists|k: int| #[trigger]
        turns_first(turns, from, k, items) && (k == from.len() || !fewer(items.len(), need))
}

/// A function from the items of one partition to those of another.
pub trait PartFn<T, U>: Send + Sync {
    /// The function can be applied to an item `x`.
    spec fn accepts(&self, x: T) -> bool;

    /// What the function may turn items into.
    spec fn turns(&self) -> spec_fn(Seq<T>, Seq<U>) -> bool;

    /// Applies the function to as many items as it takes to get those needed, in order.
    fn apply(&self, items: Vec<T>, need: Option<usize>, cancel: Option<&AtomicBool>) -> (r: Result<
        Vec<U>,
        Error,
    >)
        requires
            forall|i: int| 0 <= i < items@.len() ==> self.accepts(#[trigger] items@[i]),
        ensures
            match r {
                Ok(v) => turns_needed(self.turns(), items@, need, v@),
                Err(e) => e is Cancelled && was_cancelled(cancel),
            },
    ;

    /// How many items to ask for, where so many are needed of what they are turned into.
    fn asks(&self, need: Option<usize>) -> (r: Option<usize>)
        ensures
            r is Some ==> r == need && forall|a: Seq<T>, b: Seq<U>| #[trigger]
                (self.turns())(a, b) ==> a.len() == b.len(),
    ;

    /// Nothing is turned into nothing, and items that follow each other into what follows each
    /// other.
    proof fn lemma_turns(&self, a: Seq<T>, b: Seq<U>, x: Seq<T>, y: Seq<U>)
        ensures
            (self.turns())(Seq::empty(), Seq::empty()),
            (self.turns())(a, b) && (self.turns())(x, y) ==> (self.turns())(a + x, b + y),
    ;
}

/// `f` may turn the elements of `a` into those of `b`, one by one.
pub open spec fn mapped<T, U, F: Fn(T) -> U>(f: F, a: Seq<T>, b: Seq<U>) -> bool {
    &&& a.len() == b.len()
    &&& forall|i: int| 0 <= i < a.len() ==> call_ensures(f, (a[i],), #[trigger] b[i])
}

/// What mapping with `f` may turn items into.
pub open spec fn mapping<T, U, F: Fn(T) -> U>(f: F) -> spec_fn(Seq<T>, Seq<U>) -> bool {
    |a: Seq<T>, b: Seq<U>| mapped(f, a, b)
}

/// The elements of `a` where `keep` is true.
pub open spec fn kept<T>(a: Seq<T>, keep: Seq<bool>) -> Seq<T>
    decreases a.len(),
{
    if a.len() == 0 {
        Seq::empty()
    } else if keep[a.len() - 1] {
        kept(a.drop_last(), keep).push(a.last())
    } else {
        kept(a.drop_last(), keep)
    }
}

/// `keep` holds what `pred` may say of each element of `a`.
pub open spec fn judged<T, F: Fn(&T) -> bool>(pred: F, a: Seq<T>, keep: Seq<bool>) -> bool {
    &&& keep.len() == a.len()
    &&& forall|i: int| 0 <= i < a.len() ==> call_ensures(pred, (&a[i],), #[trigger] keep[i])
}

/// `b` may be what `pred` leaves of `a`.
pub open spec fn filtered<T, F: Fn(&T) -> bool>(pred: F, a: Seq<T>, b: Seq<T>) -> bool {
    exists|keep: Seq<bool>| #[trigger] judged(pred, a, keep) && b == kept(a, keep)
}

/// What filtering with `pred` may turn items into.
pub open spec fn filtering<T, F: Fn(&T) -> bool>(pred: F) -> spec_fn(Seq<T>, Seq<T>) -> bool {
    |a: Seq<T>, b: Seq<T>| filtered(pred, a, b)
}

/// `groups` holds what `f` may make of each element of `a`.
pub open spec fn expanded<T, U, F: Fn(T) -> Vec<U>>(f: F, a: Seq<T>, groups: Seq<Vec<U>>) -> bool {
    &&& groups.len() == a.len()
    &&& forall|i: int| 0 <= i < a.len() ==> call_ensures(f, (a[i],), #[trigger] groups[i])
}

/// `b` may be what `f` makes of the elements of `a`, one after the other.
pub open spec fn flat_mapped<T, U, F: Fn(T) -> Vec<U>>(f: F, a: Seq<T>, b: Seq<U>) -> bool {
    exists|groups: Seq<Vec<U>>| #[trigger] expanded(f, a, groups) && b == concat(rows(groups))
}

/// What flat-mapping with `f` may turn items into.
pub open spec fn flat_mapping<T, U, F: Fn(T) -> Vec<U>>(f: F) -> spec_fn(Seq<T>, Seq<U>) -> bool {
    |a: Seq<T>, b: Seq<U>| flat_mapped(f, a, b)
}

struct MapFn<F> {
    f: F,
}

impl<T, U, F: Fn(T) -> U + Send + Sync> PartFn<T, U> for MapFn<F> {
    closed spec fn accepts(&self, x: T) -> bool {
        call_requires(self.f, (x,))
    }

    closed spec fn turns(&self) -> spec_fn(Seq<T>, Seq<U>) -> bool {
        mapping(self.f)
    }

    fn apply(&self, items: Vec<T>, need: Option<usize>, cancel: Option<&AtomicBool>) -> (r: Result<
        Vec<U>,
        Error,
    >) {
        let ghost a = items@;
        let mut out: Vec<U> = Vec::new();
        for x in it: items
            invariant
                it.seq() == a,
                a == items@,
                forall|i: int| 0 <= i < a.len() ==> self.accepts(#[trigger] a[i]),
                out@.len() == it.index(),
                forall|i: int|
                    0 <= i < out@.len() ==> call_ensures(self.f, (a[i],), #[trigger] out@[i]),
        {
            if enough(out.len(), need) {
                assert(turns_first(<Self as PartFn<T, U>>::turns(self), a, it.index(), out@));
                assert(turns_needed(<Self as PartFn<T, U>>::turns(self), a, need, out@));
                return Ok(out);
            }
            if is_cancelled(cancel) {
                return Err(Error::Cancelled);
            }
            assert(a[it.index()] == x);
            assert(<Self as PartFn<T, U>>::accepts(self, x));
            out.push((self.f)(x));
        }
        assert(a.take(a.len() as int) =~= a);
        assert(turns_first(<Self as PartFn<T, U>>::turns(self), a, a.len() as int, out@));
        assert(turns_needed(<Self as PartFn<T, U>>::turns(self), a, need, out@));
        Ok(out)
    }

    fn asks(&self, need: Option<usize>) -> (r: Option<usize>) {
        need
    }

    proof fn lemma_turns(&self, a: Seq<T>, b: Seq<U>, x: Seq<T>, y: Seq<U>) {
        if mapped(self.f, a, b) && mapped(self.f, x, y) {
            assert forall|i: int| 0 <= i < (a + x).len() implies call_ensures(
                self.f,
                ((a + x)[i],),
                #[trigger] (b + y)[i],
            ) by {
                if i < a.len() {
                    assert((b + y)[i] == b[i]);
                } else {
                    assert((b + y)[i] == y[i - a.len()]);
                }
            }
        }
    }
}

struct FilterFn<F> {
    pred: F,
}

impl<T, F: Fn(&T) -> bool + Send + Sync> PartFn<T, T> for FilterFn<F> {
    closed spec fn accepts(&self, x: T) -> bool {
        call_requires(self.pred, (&x,))
    }

    closed spec fn turns(&self) -> spec_fn(Seq<T>, Seq<T>) -> bool {
        filtering(self.pred)
    }

    fn apply(&self, items: Vec<T>, need: Option<usize>, cancel: Option<&AtomicBool>) -> (r: Result<
        Vec<T>,
        Error,
    >) {
        let ghost a = items@;
        let ghost mut keep: Seq<bool> = Seq::empty();
        let mut out: Vec<T> = Vec::new();
        for x in it: items
            invariant
                it.seq() == a,
                a == items@,
                forall|i: int| 0 <= i < a.len() ==> self.accepts(#[trigger] a[i]),
                judged(self.pred, a.take(it.index()), keep),
                out@ == kept(a.take(it.index()), keep),
        {
            if enough(out.len(), need) {
                assert(turns_first(self.turns(), a, it.index(), out@));
                return Ok(out);
            }
            if is_cancelled(cancel) {
                return Err(Error::Cancelled);
            }
            let ghost done = a.take(it.index());
            assert(a[it.index()] == x);
            assert(self.accepts(x));
            let k = (self.pred)(&x);
            proof {
                assert(a.take(it.index() + 1) =~= done.push(x));
                assert(done.push(x).drop_last() =~= done);
                let keep2 = keep.push(k);
                assert forall|i: int| 0 <= i < done.push(x).len() implies call_ensures(
                    self.pred,
                    (&done.push(x)[i],),
                    #[trigger] keep2[i],
                ) by {
                    if i < done.len() {
                        assert(keep2[i] == keep[i]);
                    }
                }
                lemma_kept_prefix(done, keep, keep2);
                keep = keep2;
            }
            if k {
                out.push(x);
            }
        }
        assert(turns_first(self.turns(), a, a.len() as int, out@));
        Ok(out)
    }

    fn asks(&self, need: Option<usize>) -> (r: Option<usize>) {
        None
    }

    proof fn lemma_turns(&self, a: Seq<T>, b: Seq<T>, x: Seq<T>, y: Seq<T>) {
        assert(judged(self.pred, Seq::<T>::empty(), Seq::<bool>::empty()));
        if filtered(self.pred, a, b) && filtered(self.pred, x, y) {
            let j = choose|j: Seq<bool>| #[trigger] judged(self.pred, a, j) && b == kept(a, j);
            let k = choose|k: Seq<bool>| #[trigger] judged(self.pred, x, k) && y == kept(x, k);
            assert forall|i: int| 0 <= i < (a + x).len() implies call_ensures(
                self.pred,
                (&(a + x)[i],),
                #[trigger] (j + k)[i],
            ) by {
                if i < a.len() {
                    assert((j + k)[i] == j[i]);
                } else {
                    assert((j + k)[i] == k[i - a.len()]);
                }
            }
            assert(judged(self.pred, a + x, j + k));
            lemma_kept_add(a, j, x, k);
        }
    }
}

pub(crate) proof fn lemma_kept_add<T>(a: Seq<T>, j: Seq<bool>, x: Seq<T>, k: Seq<bool>)
    requires
        j.len() == a.len(),
        k.len() == x.len(),
    ensures
        kept(a + x, j + k) == kept(a, j) + kept(x, k),
    decreases x.len(),
{
    if x.len() == 0 {
        assert(a + x =~= a);
        assert(j + k =~= j);
        assert(kept(a, j) + kept(x, k) =~= kept(a, j));
    } else {
        let (x1, k1) = (x.drop_last(), k.drop_last());
        lemma_kept_add(a, j, x1, k1);
        assert((a + x).drop_last() =~= a + x1);
        lemma_kept_prefix(a + x1, j + k1, j + k);
        lemma_kept_prefix(x1, k1, k);
        assert(kept(a + x, j + k) =~= kept(a, j) + kept(x, k));
    }
}

proof fn lemma_kept_prefix<T>(a: Seq<T>, keep: Seq<bool>, keep2: Seq<bool>)
    requires
        forall|i: int| 0 <= i < a.len() ==> keep[i] == #[trigger] keep2[i],
    ensures
        kept(a, keep) == kept(a, keep2),
    decreases a.len(),
{
    if a.len() > 0 {
        assert(keep2[a.len() - 1] == keep[a.len() - 1]);
        lemma_kept_prefix(a.drop_last(), keep, keep2);
    }
}

struct FlatMapFn<F> {
    f: F,
}

impl<T, U, F: Fn(T) -> Vec<U> + Send + Sync> PartFn<T, U> for FlatMapFn<F> {
    closed spec fn accepts(&self, x: T) -> bool {
        call_requires(self.f, (x,))
    }

    closed spec fn turns(&self) -> spec_fn(Seq<T>, Seq<U>) -> bool {
        flat_mapping(self.f)
    }

    fn apply(&self, items: Vec<T>, need: Option<usize>, cancel: Option<&AtomicBool>) -> (r: Result<
        Vec<U>,
        Error,
    >) {
        let ghost a = items@;
        let ghost mut groups: Seq<Vec<U>> = Seq::empty();
        let mut out: Vec<U> = Vec::new();
        assert(rows(groups) =~= Seq::<Seq<U>>::empty());
        for x in it: items
            invariant
                it.seq() == a,
                a == items@,
                forall|i: int| 0 <= i < a.len() ==> self.accepts(#[trigger] a[i]),
                groups.len() == it.index(),
                forall|i: int|
                    0 <= i < groups.len() ==> call_ensures(self.f, (a[i],), #[trigger] groups[i]),
                out@ == concat(rows(groups)),
        {
            if enough(out.len(), need) {
                assert(expanded(self.f, a.take(it.index()), groups));
                assert(turns_first(<Self as PartFn<T, U>>::turns(self), a, it.index(), out@));
                assert(turns_needed(<Self as PartFn<T, U>>::turns(self), a, need, out@));
                return Ok(out);
            }
            if is_cancelled(cancel) {
                return Err(Error::Cancelled);
            }
            assert(a[it.index()] == x);
            assert(<Self as PartFn<T, U>>::accepts(self, x));
            let mut more = (self.f)(x);
            proof {
                let groups2 = groups.push(more);
                lemma_concat_push(rows(groups), more@);
                assert(rows(groups2) =~= rows(groups).push(more@));
                groups = groups2;
            }
            out.append(&mut more);
        }
        assert(expanded(self.f, a.take(a.len() as int), groups));
        assert(turns_first(<Self as PartFn<T, U>>::turns(self), a, a.len() as int, out@));
        assert(turns_needed(<Self as PartFn<T, U>>::turns(self), a, need, out@));
        Ok(out)
    }

    fn asks(&self, need: Option<usize>) -> (r: Option<usize>) {
        None
    }

    proof fn lemma_turns(&self, a: Seq<T>, b: Seq<U>, x: Seq<T>, y: Seq<U>) {
        let none = Seq::<Vec<U>>::empty();
        assert(expanded(self.f, Seq::<T>::empty(), none));
        assert(rows(none) =~= Seq::<Seq<U>>::empty());
        if flat_mapped(self.f, a, b) && flat_mapped(self.f, x, y) {
            let g = choose|g: Seq<Vec<U>>| #[trigger]
                expanded(self.f, a, g) && b == concat(rows(g));
            let h = choose|h: Seq<Vec<U>>| #[trigger]
                expanded(self.f, x, h) && y == concat(rows(h));
            assert forall|i: int| 0 <= i < (a + x).len() implies call_ensures(
                self.f,
                ((a + x)[i],),
                #[trigger] (g + h)[i],
            ) by {
                if i < a.len() {
                    assert((g + h)[i] == g[i]);
                } else {
                    assert((g + h)[i] == h[i - a.len()]);
                }
            }
            assert(expanded(self.f, a + x, g + h));
            assert(rows(g + h) =~= rows(g) + rows(h));
            lemma_concat_add(rows(g), rows(h));
        }
    }
}

/// What may come of items that `may` be there.
pub open spec fn may_turn<T, U>(
    may: spec_fn(Seq<T>, bool) -> bool,
    turns: spec_fn(Seq<T>, Seq<U>) -> bool,
) -> spec_fn(Seq<U>, bool) -> bool {
    |items: Seq<U>, all: bool|
        exists|a: Seq<T>| #[trigger]
            may(a, all) && turns_some(turns, a, items) && (all ==> turns(a, items))
}

#[verifier::reject_recursive_types(T)]
struct NarrowPart<T, U, P> {
    inner: Own<Box<dyn Part<T>>>,
    f: Arc<P>,
    had: Ghost<Seq<U>>,
}

impl<T: 'static, U: 'static, P: PartFn<T, U> + 'static> Part<U> for NarrowPart<T, U, P> {
    closed spec fn ready(&self) -> bool {
        &&& self.inner.it.ready()
        &&& (self.f.turns())(self.inner.it.had(), self.had@)
        &&& forall|a: Seq<T>, all: bool, i: int|
            #![trigger (self.inner.it.may())(a, all), a[i]]
            (self.inner.it.may())(a, all) && 0 <= i < a.len() ==> self.f.accepts(a[i])
    }

    closed spec fn had(&self) -> Seq<U> {
        self.had@
    }

    closed spec fn may(&self) -> spec_fn(Seq<U>, bool) -> bool {
        may_turn(self.inner.it.may(), self.f.turns())
    }

    closed spec fn breaks(&self) -> spec_fn(Error) -> bool {
        self.inner.it.breaks()
    }

    closed spec fn left(&self) -> nat {
        self.inner.it.left()
    }

    fn next(&mut self, need: Option<usize>, cancel: Option<&AtomicBool>) -> (r: Result<
        Option<Vec<U>>,
        Error,
    >) {
        let ghost before = self.inner.it.had();
        let ghost had = self.had@;
        let ghost turns = self.f.turns();
        let ghost may = self.inner.it.may();
        let ask = self.f.asks(need);
        match self.inner.it.next(ask, cancel) {
            Ok(Some(items)) => {
                let ghost a = before + items@;
                let ghost more = items@;
                assert(may(a, false));
                assert forall|i: int| 0 <= i < items@.len() implies self.f.accepts(
                    #[trigger] items@[i],
                ) by {
                    assert(a[before.len() + i] == items@[i]);
                }
                let v = match self.f.apply(items, need, cancel) {
                    Ok(v) => v,
                    Err(e) => return Err(e),
                };
                proof {
                    let k = choose|k: int| #[trigger]
                        turns_first(turns, more, k, v@) && (k == more.len() || !fewer(
                            v@.len(),
                            need,
                        ));
                    self.f.lemma_turns(before, had, more.take(k), v@);
                    assert(a.take(before.len() + k) =~= before + more.take(k));
                    assert(turns_first(turns, a, before.len() + k, had + v@));
                    if fewer(v@.len(), need) {
                        assert(a.take(before.len() + k) =~= a);
                        assert(more.take(k) =~= more);
                    }
                }
                self.had = Ghost(had + v@);
                Ok(Some(v))
            },
            Ok(None) => {
                proof {
                    assert(may(before, true));
                    assert(before.take(before.len() as int) =~= before);
                    assert(turns_first(turns, before, before.len() as int, had));
                }
                Ok(None)
            },
            Err(e) => Err(e),
        }
    }
}

#[verifier::reject_recursive_types(T)]
struct NarrowData<T, P> {
    parent: Arc<Box<dyn Dataset<T>>>,
    f: Arc<P>,
}

#[verifier::reject_recursive_types(T)]
struct NarrowEvaluation<T, P> {
    inner: Arc<Box<dyn Evaluation<T>>>,
    f: Arc<P>,
}

impl<T: 'static, U: 'static, P: PartFn<T, U> + 'static> Evaluation<U> for NarrowEvaluation<
    T,
    P,
> {
    closed spec fn wf(&self) -> bool {
        &&& self.inner.wf()
        &&& forall|p: int, items: Seq<T>, i: int|
            #![trigger self.inner.gives(p, items), items[i]]
            0 <= p < self.inner.parts() && self.inner.gives(p, items) && 0 <= i < items.len()
                ==> self.f.accepts(items[i])
        &&& forall|p: int, items: Seq<T>, i: int|
            #![trigger self.inner.begins(p, items), items[i]]
            0 <= p < self.inner.parts() && self.inner.begins(p, items) && 0 <= i < items.len()
                ==> self.f.accepts(items[i])
    }

    closed spec fn parts(&self) -> nat {
        self.inner.parts()
    }

    closed spec fn gives(&self, p: int, items: Seq<U>) -> bool {
        exists|a: Seq<T>| self.inner.gives(p, a) && #[trigger] (self.f.turns())(a, items)
    }

    closed spec fn begins(&self, p: int, items: Seq<U>) -> bool {
        exists|a: Seq<T>| #[trigger]
            self.inner.begins(p, a) && turns_some(self.f.turns(), a, items)
    }

    closed spec fn breaks(&self, p: int, e: Error) -> bool {
        self.inner.breaks(p, e)
    }

    closed spec fn charges(&self, p: int) -> bool {
        self.inner.charges(p)
    }

    fn part(&self, p: usize, cancel: Option<&AtomicBool>) -> (r: Result<
        Own<Box<dyn Part<U>>>,
        Error,
    >) {
        let inner = match self.inner.part(p, cancel) {
            Ok(q) => q,
            Err(e) => return Err(e),
        };
        let n: NarrowPart<T, U, P> = NarrowPart {
            inner,
            f: self.f.clone(),
            had: Ghost(Seq::empty()),
        };
        proof {
            self.f.lemma_turns(Seq::empty(), Seq::empty(), Seq::empty(), Seq::empty());
            assert forall|a: Seq<T>, all: bool, i: int|
                #![trigger (n.inner.it.may())(a, all), a[i]]
                (n.inner.it.may())(a, all) && 0 <= i < a.len() implies self.f.accepts(a[i]) by {
                assert(self.inner.begins(p as int, a));
            }
            assert(n.ready());
            assert forall|items: Seq<U>, all: bool| #[trigger]
                (n.may())(items, all) implies <Self as Evaluation<U>>::begins(
                self,
                p as int,
                items,
            ) && (all ==> <Self as Evaluation<U>>::gives(self, p as int, items)) by {
                let a = choose|a: Seq<T>| #[trigger]
                    (n.inner.it.may())(a, all) && turns_some(n.f.turns(), a, items) && (all
                        ==> (n.f.turns())(a, items));
                assert(self.inner.begins(p as int, a));
            }
        }
        let boxed: Box<dyn Part<U>> = Box::new(n);
        let q = own(boxed);
        Ok(q)
    }

    fn compute(&self, p: usize, cancel: Option<&AtomicBool>) -> (r: Result<Vec<U>, Error>) {
        let items = match self.inner.compute(p, cancel) {
            Ok(v) => v,
            Err(e) => return Err(e),
        };
        let ghost a = items@;
        let r = self.f.apply(items, None, cancel);
        assert(a.take(a.len() as int) =~= a);
        r
    }
}

impl<T: 'static, U: 'static, P: PartFn<T, U> + 'static> Dataset<U> for NarrowData<T, P> {
    closed spec fn wf(&self) -> bool {
        &&& self.parent.wf()
        &&& forall|p: int, items: Seq<T>, i: int|
            #![trigger self.parent.yields(map![p => items]), items[i]]
            self.parent.yields(map![p => items]) && 0 <= i < items.len() ==> self.f.accepts(
                items[i],
            )
        &&& forall|p: int, items: Seq<T>, i: int|
            #![trigger self.parent.yields_some(Map::empty(), p, items), items[i]]
            self.parent.yields_some(Map::empty(), p, items) && 0 <= i < items.len()
                ==> self.f.accepts(items[i])
    }

    closed spec fn parts(&self) -> nat {
        self.parent.parts()
    }

    closed spec fn yields(&self, out: Map<int, Seq<U>>) -> bool {
        exists|a: Map<int, Seq<T>>|
            self.parent.yields(a) && #[trigger] each_part(self.f.turns(), a, out)
    }

    closed spec fn yields_some(&self, out: Map<int, Seq<U>>, p: int, items: Seq<U>) -> bool {
        narrows_some(&*self.parent, self.f.turns(), out, p, items)
    }

    closed spec fn jams(&self, e: Error) -> bool {
        self.parent.jams(e)
    }

    closed spec fn breaks(&self, p: int, e: Error) -> bool {
        self.parent.breaks(p, e)
    }

    closed spec fn charges(&self) -> bool {
        self.parent.charges()
    }

    closed spec fn part_charges(&self, p: int) -> bool {
        self.parent.part_charges(p)
    }

    fn open(&self, cancel: Option<&AtomicBool>) -> (r: Result<Arc<Box<dyn Evaluation<U>>>, Error>) {
        let inner = match self.parent.open(cancel) {
            Ok(e) => e,
            Err(e) => return Err(e),
        };
        let e = NarrowEvaluation { inner, f: self.f.clone() };
        proof {
            assert forall|p: int, items: Seq<T>, i: int|
                #![trigger e.inner.gives(p, items), items[i]]
                0 <= p < e.inner.parts() && e.inner.gives(p, items) && 0 <= i
                    < items.len() implies e.f.accepts(items[i]) by {
                assert(self.parent.yields(map![p => items]));
            }
            assert forall|p: int, items: Seq<T>, i: int|
                #![trigger e.inner.begins(p, items), items[i]]
                0 <= p < e.inner.parts() && e.inner.begins(p, items) && 0 <= i
                    < items.len() implies e.f.accepts(items[i]) by {
                assert(self.parent.yields_some(Map::empty(), p, items));
            }
            assert forall|out: Map<int, Seq<U>>|
                (forall|p: int| #[trigger]
                    out.contains_key(p) ==> 0 <= p < e.inner.parts() && <NarrowEvaluation<
                        T,
                        P,
                    > as Evaluation<U>>::gives(
                        &e,
                        p,
                        out[p],
                    )) implies #[trigger] self.yields(out) by {
                let a = Map::new(
                    |p: int| out.contains_key(p),
                    |p: int|
                        choose|x: Seq<T>| e.inner.gives(p, x) && #[trigger] (e.f.turns())(x, out[p]),
                );
                assert(self.parent.yields(a));
                assert(a.dom() =~= out.dom());
                assert(each_part(self.f.turns(), a, out));
            }
            assert forall|out: Map<int, Seq<U>>, p: int, items: Seq<U>|
                (forall|q: int| #[trigger]
                    out.contains_key(q) ==> 0 <= q < e.inner.parts() && <NarrowEvaluation<
                        T,
                        P,
                    > as Evaluation<U>>::gives(&e, q, out[q])) && 0 <= p < e.inner.parts()
                    && <NarrowEvaluation<T, P> as Evaluation<U>>::begins(
                    &e,
                    p,
                    items,
                ) implies #[trigger] self.yields_some(out, p, items) by {
                let a = Map::new(
                    |q: int| out.contains_key(q),
                    |q: int|
                        choose|x: Seq<T>| e.inner.gives(q, x) && #[trigger] (e.f.turns())(x, out[q]),
                );
                let x = choose|x: Seq<T>| #[trigger]
                    e.inner.begins(p, x) && turns_some(e.f.turns(), x, items);
                assert(a.dom() =~= out.dom());
                assert(each_part(self.f.turns(), a, out));
                assert(self.parent.yields_some(a, p, x));
            }
        }
        let boxed: Box<dyn Evaluation<U>> = Box::new(e);
        let shared = Arc::new(boxed);
        Ok(shared)
    }
}

/// One evaluation of a dataset that is derived from `parent` partition by partition may give `out`,
/// and let partition `p` begin with `items`.
pub open spec fn narrows_some<T, U>(
    parent: &Box<dyn Dataset<T>>,
    turns: spec_fn(Seq<T>, Seq<U>) -> bool,
    out: Map<int, Seq<U>>,
    p: int,
    items: Seq<U>,
) -> bool {
    exists|a: Map<int, Seq<T>>, x: Seq<T>| #[trigger]
        parent.yields_some(a, p, x) && each_part(turns, a, out) && turns_some(turns, x, items)
}

fn narrow<T: 'static, U: 'static, P: PartFn<T, U> + 'static>(
    parent: Arc<Box<dyn Dataset<T>>>,
    f: P,
) -> (d: Arc<Box<dyn Dataset<U>>>)
    requires
        parent.wf(),
        forall|p: int, items: Seq<T>, i: int|
            #![trigger parent.yields(map![p => items]), items[i]]
            parent.yields(map![p => items]) && 0 <= i < items.len() ==> f.accepts(items[i]),
        forall|p: int, items: Seq<T>, i: int|
            #![trigger parent.yields_some(Map::empty(), p, items), items[i]]
            parent.yields_some(Map::empty(), p, items) && 0 <= i < items.len() ==> f.accepts(
                items[i],
            ),
    ensures
        d.wf(),
        d.parts() == parent.parts(),
        forall|out: Map<int, Seq<U>>| #[trigger]
            d.yields(out) <==> exists|a: Map<int, Seq<T>>|
                parent.yields(a) && #[trigger] each_part(f.turns(), a, out),
        forall|out: Map<int, Seq<U>>, p: int, items: Seq<U>| #[trigger]
            d.yields_some(out, p, items) <==> narrows_some(&*parent, f.turns(), out, p, items),
        fails_alike(&*parent, &*d),
        charges_alike(&*parent, &*d),
{
    let n = NarrowData { parent, f: Arc::new(f) };
    let ghost n0 = n;
    let boxed: Box<dyn Dataset<U>> = Box::new(n);
    let shared = Arc::new(boxed);
    proof {
        assert forall|out: Map<int, Seq<U>>| #[trigger]
            shared.yields(out) <==> exists|a: Map<int, Seq<T>>|
                parent.yields(a) && #[trigger] each_part(f.turns(), a, out) by {
            assert((*n0.f).turns() == f.turns());
            assert(<NarrowData<T, P> as Dataset<U>>::yields(&n0, out) <==> exists|
                a: Map<int, Seq<T>>,
            |
                parent.yields(a) && #[trigger] each_part(f.turns(), a, out));
        }
        assert forall|out: Map<int, Seq<U>>, p: int, items: Seq<U>| #[trigger]
            shared.yields_some(out, p, items) <==> narrows_some(
                &*parent,
                f.turns(),
                out,
                p,
                items,
            ) by {
            assert((*n0.f).turns() == f.turns());
            assert(<NarrowData<T, P> as Dataset<U>>::yields_some(&n0, out, p, items)
                <==> narrows_some(&*parent, f.turns(), out, p, items));
        }
    }
    shared
}

/// The dataset whose items are what `f` makes of those of `parent`.
pub fn map_items<T: 'static, U: 'static, F: Fn(T) -> U + Send + Sync + 'static>(
    parent: Arc<Box<dyn Dataset<T>>>,
    f: F,
) -> (d: Arc<Box<dyn Dataset<U>>>)
    requires
        parent.wf(),
        forall|p: int, items: Seq<T>, i: int|
            #![trigger parent.yields(map![p => items]), items[i]]
            parent.yields(map![p => items]) && 0 <= i < items.len() ==> call_requires(
                f,
                (items[i],),
            ),
        forall|p: int, items: Seq<T>, i: int|
            #![trigger parent.yields_some(Map::empty(), p, items), items[i]]
            parent.yields_some(Map::empty(), p, items) && 0 <= i < items.len() ==> call_requires(
                f,
                (items[i],),
            ),
    ensures
        d.wf(),
        d.parts() == parent.parts(),
        forall|out: Map<int, Seq<U>>| #[trigger]
            d.yields(out) <==> exists|a: Map<int, Seq<T>>|
                parent.yields(a) && #[trigger] each_part(mapping(f), a, out),
        forall|out: Map<int, Seq<U>>, p: int, items: Seq<U>| #[trigger]
            d.yields_some(out, p, items) <==> narrows_some(&*parent, mapping(f), out, p, items),
        fails_alike(&*parent, &*d),
        charges_alike(&*parent, &*d),
{
    let g = MapFn { f };
    assert(<MapFn<F> as PartFn<T, U>>::turns(&g) == mapping(f));
    narrow(parent, g)
}

/// The dataset of those items of `parent` of which `pred` holds.
pub fn filter_items<T: 'static, F: Fn(&T) -> bool + Send + Sync + 'static>(
    parent: Arc<Box<dyn Dataset<T>>>,
    pred: F,
) -> (d: Arc<Box<dyn Dataset<T>>>)
    requires
        parent.wf(),
        forall|p: int, items: Seq<T>, i: int|
            #![trigger parent.yields(map![p => items]), items[i]]
            parent.yields(map![p => items]) && 0 <= i < items.len() ==> call_requires(
                pred,
                (&items[i],),
            ),
        forall|p: int, items: Seq<T>, i: int|
            #![trigger parent.yields_some(Map::empty(), p, items), items[i]]
            parent.yields_some(Map::empty(), p, items) && 0 <= i < items.len() ==> call_requires(
                pred,
                (&items[i],),
            ),
    ensures
        d.wf(),
        d.parts() == parent.parts(),
        forall|out: Map<int, Seq<T>>| #[trigger]
            d.yields(out) <==> exists|a: Map<int, Seq<T>>|
                parent.yields(a) && #[trigger] each_part(filtering(pred), a, out),
        forall|out: Map<int, Seq<T>>, p: int, items: Seq<T>| #[trigger]
            d.yields_some(out, p, items) <==> narrows_some(&*parent, filtering(pred), out, p, items),
        fails_alike(&*parent, &*d),
        charges_alike(&*parent, &*d),
{
    let g = FilterFn { pred };
    assert(<FilterFn<F> as PartFn<T, T>>::turns(&g) == filtering(pred));
    narrow(parent, g)
}

/// The dataset whose items are those that `f` makes of each item of `parent`, one after the other.
pub fn flat_map_items<T: 'static, U: 'static, F: Fn(T) -> Vec<U> + Send + Sync + 'static>(
    parent: Arc<Box<dyn Dataset<T>>>,
    f: F,
) -> (d: Arc<Box<dyn Dataset<U>>>)
    requires
        parent.wf(),
        forall|p: int, items: Seq<T>, i: int|
            #![trigger parent.yields(map![p => items]), items[i]]
            parent.yields(map![p => items]) && 0 <= i < items.len() ==> call_requires(
                f,
                (items[i],),
            ),
        forall|p: int, items: Seq<T>, i: int|
            #![trigger parent.yields_some(Map::empty(), p, items), items[i]]
            parent.yields_some(Map::empty(), p, items) && 0 <= i < items.len() ==> call_requires(
                f,
                (items[i],),
            ),
    ensures
        d.wf(),
        d.parts() == parent.parts(),
        forall|out: Map<int, Seq<U>>| #[trigger]
            d.yields(out) <==> exists|a: Map<int, Seq<T>>|
                parent.yields(a) && #[trigger] each_part(flat_mapping(f), a, out),
        forall|out: Map<int, Seq<U>>, p: int, items: Seq<U>| #[trigger]
            d.yields_some(out, p, items) <==> narrows_some(&*parent, flat_mapping(f), out, p, items),
        fails_alike(&*parent, &*d),
        charges_alike(&*parent, &*d),
{
    let g = FlatMapFn { f };
    assert(<FlatMapFn<F> as PartFn<T, U>>::turns(&g) == flat_mapping(f));
    narrow(parent, g)
}

// ---- union

/// The partitions of `out` below `n`.
pub open spec fn below<T>(out: Map<int, Seq<T>>, n: nat) -> Map<int, Seq<T>> {
    Map::new(|p: int| out.contains_key(p) && p < n, |p: int| out[p])
}

/// The partitions of `out` from `n` on, counted from `n`.
pub open spec fn from_on<T>(out: Map<int, Seq<T>>, n: nat) -> Map<int, Seq<T>> {
    Map::new(|p: int| 0 <= p && out.contains_key(p + n), |p: int| out[p + n])
}

#[verifier::reject_recursive_types(T)]
struct UnionData<T> {
    left: Arc<Box<dyn Dataset<T>>>,
    right: Arc<Box<dyn Dataset<T>>>,
    n_left: usize,
}

#[verifier::reject_recursive_types(T)]
struct UnionEvaluation<T> {
    left: Arc<Box<dyn Evaluation<T>>>,
    right: Arc<Box<dyn Evaluation<T>>>,
    n_left: usize,
}

impl<T: 'static> Evaluation<T> for UnionEvaluation<T> {
    closed spec fn wf(&self) -> bool {
        self.left.wf() && self.right.wf() && self.n_left == self.left.parts()
    }

    closed spec fn parts(&self) -> nat {
        self.left.parts() + self.right.parts()
    }

    closed spec fn gives(&self, p: int, items: Seq<T>) -> bool {
        if p < self.n_left {
            self.left.gives(p, items)
        } else {
            self.right.gives(p - self.n_left, items)
        }
    }

    closed spec fn begins(&self, p: int, items: Seq<T>) -> bool {
        if p < self.n_left {
            self.left.begins(p, items)
        } else {
            self.right.begins(p - self.n_left, items)
        }
    }

    fn part(&self, p: usize, cancel: Option<&AtomicBool>) -> (r: Result<
        Own<Box<dyn Part<T>>>,
        Error,
    >) {
        if p < self.n_left {
            self.left.part(p, cancel)
        } else {
            self.right.part(p - self.n_left, cancel)
        }
    }

    closed spec fn breaks(&self, p: int, e: Error) -> bool {
        if p < self.n_left {
            self.left.breaks(p, e)
        } else {
            self.right.breaks(p - self.n_left, e)
        }
    }

    closed spec fn charges(&self, p: int) -> bool {
        if p < self.n_left {
            self.left.charges(p)
        } else {
            self.right.charges(p - self.n_left)
        }
    }

    fn compute(&self, p: usize, cancel: Option<&AtomicBool>) -> (r: Result<Vec<T>, Error>) {
        if p < self.n_left {
            self.left.compute(p, cancel)
        } else {
            self.right.compute(p - self.n_left, cancel)
        }
    }
}

impl<T: 'static> Dataset<T> for UnionData<T> {
    closed spec fn wf(&self) -> bool {
        self.left.wf() && self.right.wf() && self.n_left == self.left.parts()
    }

    closed spec fn parts(&self) -> nat {
        self.left.parts() + self.right.parts()
    }

    closed spec fn yields(&self, out: Map<int, Seq<T>>) -> bool {
        &&& within(out, self.left.parts() + self.right.parts())
        &&& self.left.yields(below(out, self.left.parts()))
        &&& self.right.yields(from_on(out, self.left.parts()))
    }

    closed spec fn yields_some(&self, out: Map<int, Seq<T>>, p: int, items: Seq<T>) -> bool {
        joins_some(&*self.left, &*self.right, out, p, items)
    }

    closed spec fn jams(&self, e: Error) -> bool {
        self.left.jams(e) || self.right.jams(e)
    }

    closed spec fn breaks(&self, p: int, e: Error) -> bool {
        if p < self.left.parts() {
            self.left.breaks(p, e)
        } else {
            self.right.breaks(p - self.left.parts(), e)
        }
    }

    closed spec fn charges(&self) -> bool {
        self.left.charges() && self.right.charges()
    }

    closed spec fn part_charges(&self, p: int) -> bool {
        if p < self.left.parts() {
            self.left.part_charges(p)
        } else {
            self.right.part_charges(p - self.left.parts())
        }
    }

    fn open(&self, cancel: Option<&AtomicBool>) -> (r: Result<Arc<Box<dyn Evaluation<T>>>, Error>) {
        let left = match self.left.open(cancel) {
            Ok(e) => e,
            Err(e) => return Err(e),
        };
        let right = match self.right.open(cancel) {
            Ok(e) => e,
            Err(e) => return Err(e),
        };
        let e = UnionEvaluation { left, right, n_left: self.n_left };
        proof {
            assert forall|out: Map<int, Seq<T>>|
                (forall|p: int| #[trigger]
                    out.contains_key(p) ==> 0 <= p < e.parts() && e.gives(
                        p,
                        out[p],
                    )) implies #[trigger] self.yields(out) by {
                let n = self.left.parts();
                let a = below(out, n);
                let b = from_on(out, n);
                assert forall|p: int| #[trigger] a.contains_key(p) implies 0 <= p < e.left.parts()
                    && e.left.gives(p, a[p]) by {
                    assert(out.contains_key(p));
                }
                assert forall|p: int| #[trigger] b.contains_key(p) implies 0 <= p < e.right.parts()
                    && e.right.gives(p, b[p]) by {
                    assert(out.contains_key(p + n));
                }
                assert(self.left.yields(a));
                assert(self.right.yields(b));
            }
            assert forall|out: Map<int, Seq<T>>, p: int, items: Seq<T>|
                (forall|q: int| #[trigger]
                    out.contains_key(q) ==> 0 <= q < e.parts() && e.gives(q, out[q])) && 0 <= p
                    < e.parts() && e.begins(p, items) implies #[trigger] self.yields_some(
                out,
                p,
                items,
            ) by {
                let n = self.left.parts();
                let a = below(out, n);
                let b = from_on(out, n);
                assert forall|q: int| #[trigger] a.contains_key(q) implies 0 <= q < e.left.parts()
                    && e.left.gives(q, a[q]) by {
                    assert(out.contains_key(q));
                }
                assert forall|q: int| #[trigger] b.contains_key(q) implies 0 <= q < e.right.parts()
                    && e.right.gives(q, b[q]) by {
                    assert(out.contains_key(q + n));
                }
                assert(self.left.yields(a));
                assert(self.right.yields(b));
                if p < n {
                    assert(self.left.yields_some(a, p, items));
                } else {
                    assert(self.right.yields_some(b, p - n, items));
                }
            }
        }
        let boxed: Box<dyn Evaluation<T>> = Box::new(e);
        let shared = Arc::new(boxed);
        Ok(shared)
    }
}

/// One evaluation of the partitions of `left` and then those of `right` may give `out`, and let
/// partition `p` begin with `items`.
pub open spec fn joins_some<T>(
    left: &Box<dyn Dataset<T>>,
    right: &Box<dyn Dataset<T>>,
    out: Map<int, Seq<T>>,
    p: int,
    items: Seq<T>,
) -> bool {
    let n = left.parts();
    &&& within(out, n + right.parts())
    &&& if p < n {
        left.yields_some(below(out, n), p, items) && right.yields(from_on(out, n))
    } else {
        left.yields(below(out, n)) && right.yields_some(from_on(out, n), p - n, items)
    }
}

/// The dataset with the partitions of `left` and then those of `right`.
pub fn union<T: 'static>(
    left: Arc<Box<dyn Dataset<T>>>,
    right: Arc<Box<dyn Dataset<T>>>,
    n_left: usize,
) -> (d: Arc<Box<dyn Dataset<T>>>)
    requires
        left.wf(),
        right.wf(),
        n_left == left.parts(),
    ensures
        d.wf(),
        d.parts() == left.parts() + right.parts(),
        forall|out: Map<int, Seq<T>>| #[trigger]
            d.yields(out) <==> within(out, left.parts() + right.parts()) && left.yields(
                below(out, left.parts()),
            ) && right.yields(from_on(out, left.parts())),
        forall|out: Map<int, Seq<T>>, p: int, items: Seq<T>| #[trigger]
            d.yields_some(out, p, items) <==> joins_some(&*left, &*right, out, p, items),
        fails_both(&*left, &*right, &*d),
        charges_both(&*left, &*right, &*d),
{
    let boxed: Box<dyn Dataset<T>> = Box::new(UnionData { left, right, n_left });
    let shared = Arc::new(boxed);
    shared
}

// ---- failures

/// Evaluating a dataset fails because it cannot be started on, or because a partition breaks: then
/// with what the partition broke with, where a panic is told with the partition's number.
pub proof fn lemma_fails<T>(d: &Box<dyn Dataset<T>>, e: Error) -> (r: (int, Error))
    requires
        fails(d, e),
        !d.jams(e),
    ensures
        0 <= r.0 < d.parts(),
        d.breaks(r.0, r.1),
        r.1 matches Error::Panic { message } ==> (e matches Error::PartitionPanic {
            partition,
            message: m,
        } && partition == r.0 && m@ == message@),
        !(r.1 is Panic) ==> e == r.1,
{
    choose|p: int, x: Error| 0 <= p < d.parts() && #[trigger] d.breaks(p, x) && task_error(p, x, e)
}

/// A dataset that is derived partition by partition fails exactly as its parent does.
pub proof fn lemma_fails_alike<T, U>(
    parent: &Box<dyn Dataset<T>>,
    child: &Box<dyn Dataset<U>>,
    e: Error,
)
    requires
        child.parts() == parent.parts(),
        fails_alike(parent, child),
    ensures
        fails(child, e) <==> fails(parent, e),
        never_fails(parent) ==> never_fails(child),
{
    if task_fails(child, e) {
        let (p, x) = choose|p: int, x: Error|
            0 <= p < child.parts() && #[trigger] child.breaks(p, x) && task_error(p, x, e);
        assert(parent.breaks(p, x));
    }
    if task_fails(parent, e) {
        let (p, x) = choose|p: int, x: Error|
            0 <= p < parent.parts() && #[trigger] parent.breaks(p, x) && task_error(p, x, e);
        assert(child.breaks(p, x));
    }
}

/// A dataset that is derived through a shuffle fails exactly as its parent does, before it has
/// partitions.
pub proof fn lemma_fails_first<T, U>(
    parent: &Box<dyn Dataset<T>>,
    child: &Box<dyn Dataset<U>>,
    e: Error,
)
    requires
        fails_first(parent, child),
    ensures
        fails(child, e) <==> fails(parent, e),
        child.jams(e) <==> fails(parent, e),
{
    assert(!task_fails(child, e));
}

/// A union breaks where one of its two parts does: its first partitions are those of the first, and
/// those of the second follow.
pub proof fn lemma_fails_both<T>(
    left: &Box<dyn Dataset<T>>,
    right: &Box<dyn Dataset<T>>,
    both: &Box<dyn Dataset<T>>,
    p: int,
    e: Error,
)
    requires
        both.parts() == left.parts() + right.parts(),
        fails_both(left, right, both),
    ensures
        both.jams(e) <==> left.jams(e) || right.jams(e),
        p < left.parts() ==> (both.breaks(p, e) <==> left.breaks(p, e)),
        p >= left.parts() ==> (both.breaks(p, e) <==> right.breaks(p - left.parts(), e)),
        never_fails(left) && never_fails(right) ==> never_fails(both),
{
}

/// What was computed is an attempt that finished; a panic that was caught on the way is one that
/// panicked.
pub proof fn lemma_outcome_of<T>(r: Result<T, Error>)
    ensures
        r matches Err(Error::Panic { message }) ==> outcome_of(r) == Outcome::<T>::Panicked(
            PanicPayload::Text(message),
        ),
        !(r is Err && r->Err_0 is Panic) ==> outcome_of(r) == Outcome::Finished(r),
{
}

/// Work is cut short only where it can be cancelled.
pub proof fn lemma_cut_short(e: Error)
    ensures
        !cut_short(None, e),
{
}

/// A dataset that never fails fails with no error.
pub proof fn lemma_never_fails<T>(d: &Box<dyn Dataset<T>>, e: Error)
    requires
        never_fails(d),
    ensures
        !fails(d, e),
        !d.jams(e),
        forall|p: int| !#[trigger] d.breaks(p, e),
{
}

/// A dataset that is derived partition by partition counts for what its parent counts for.
pub proof fn lemma_charges_alike<T, U>(
    parent: &Box<dyn Dataset<T>>,
    child: &Box<dyn Dataset<U>>,
    k: nat,
)
    requires
        charges_alike(parent, child),
    ensures
        charged(child, k) <==> charged(parent, k),
        child.charges() <==> parent.charges(),
        forall|p: int| #[trigger] child.part_charges(p) <==> parent.part_charges(p),
{
    assert(forall|p: int| #[trigger] child.part_charges(p) ==> parent.part_charges(p));
    assert forall|p: int| #[trigger] parent.part_charges(p) <==> child.part_charges(p) by {}
}

/// Partitions are within `n` if each of them is one of the first `n`.
pub proof fn lemma_within<T>(out: Map<int, Seq<T>>, n: nat)
    ensures
        within(out, n) ==> forall|p: int| #[trigger] out.contains_key(p) ==> 0 <= p < n,
        (forall|p: int| #[trigger] out.contains_key(p) ==> 0 <= p < n) ==> within(out, n),
{
}

/// A union counts for what its two parts count for.
pub proof fn lemma_charges_both<T>(
    left: &Box<dyn Dataset<T>>,
    right: &Box<dyn Dataset<T>>,
    both: &Box<dyn Dataset<T>>,
    p: int,
)
    requires
        charges_both(left, right, both),
    ensures
        both.charges() <==> left.charges() && right.charges(),
        p < left.parts() ==> (both.part_charges(p) <==> left.part_charges(p)),
        p >= left.parts() ==> (both.part_charges(p) <==> right.part_charges(p - left.parts())),
{
}

/// What is cloned item by item is as long, and each item is a clone of the one in its place.
pub proof fn lemma_cloned_all<T: Clone>(a: Seq<T>, b: Seq<T>)
    requires
        cloned_all(a, b),
    ensures
        a.len() == b.len(),
        forall|i: int| 0 <= i < a.len() ==> cloned(a[i], #[trigger] b[i]),
{
}

} // verus!
