//! Datasets whose records were combined by key.
use std::sync::atomic::AtomicBool;
use std::sync::Arc;

use vstd::prelude::*;

use crate::combine::{
    by_view, combined, creates, creates_on, foldable, foldable_by_key, keeps, keeps_on,
    lemma_combined_weaken, lemma_foldable_narrow, merges, merges_on, values_of,
};
use crate::dataset::{
    charged, computed_part, cut_short, evaluates, fails, fails_first, part_map, starts_with,
    task_error, task_fails, whole_first, within, Dataset, Evaluation, Own, Part,
};
use crate::error::Error;
use crate::exec::was_cancelled;
use crate::jobs::{numbered, run_job, task_counted, task_gives};
use crate::key::ShuffleKey;
use crate::metrics::{map_growth, Counters};
use crate::seqs::{concat, lemma_concat_push};
use crate::shuffle::{
    bucket_views, capped_count, combined_windows, emitted, empty_buckets, extend_each, in_bucket,
    lemma_emitted, map_combined, map_foldable, map_task, parallel_reduce_buckets, window_len,
    windows,
};

verus! {

/// What every map task put into bucket `b`.
pub open spec fn column<A>(outs: Seq<Seq<Seq<A>>>, b: int) -> Seq<Seq<A>> {
    Seq::new(outs.len(), |mp: int| outs[mp][b])
}

/// `outs` holds what the map task of each of the first `outs.len()` partitions may put into its
/// `n` buckets.
pub open spec fn mapped_out<K: ShuffleKey, V, C>(
    create: spec_fn(V, C) -> bool,
    merge: spec_fn(C, V, C) -> bool,
    inp: Seq<Seq<(K, V)>>,
    n: nat,
    m: nat,
    outs: Seq<Seq<Seq<(K::V, C)>>>,
) -> bool {
    forall|mp: int|
        0 <= mp < outs.len() ==> (#[trigger] outs[mp]).len() == n && map_combined::<K, V, C>(
            create,
            merge,
            by_view(inp[mp]),
            m,
            outs[mp],
        )
}

/// What a shuffle may leave in its blocks: every map task combines its records by key into
/// buckets, and the records of each bucket are then combined, map task after map task.
pub open spec fn shuffled<K: ShuffleKey, V, C>(
    create: spec_fn(V, C) -> bool,
    merge_value: spec_fn(C, V, C) -> bool,
    merge_combiners: spec_fn(C, C, C) -> bool,
    inp: Seq<Seq<(K, V)>>,
    n: nat,
    m: nat,
    blocks: Seq<Seq<(K::V, C)>>,
) -> bool {
    exists|outs: Seq<Seq<Seq<(K::V, C)>>>|
        outs.len() == n && blocks.len() == n && #[trigger] mapped_out::<K, V, C>(
            create,
            merge_value,
            inp,
            n,
            m,
            outs,
        ) && forall|b: int|
            #![trigger blocks[b]]
            0 <= b < n ==> combined(keeps(), merge_combiners, concat(column(outs, b)), blocks[b])
}

/// `out` holds a copy of each record of `block`.
pub open spec fn copied<K: DeepView, C: Clone>(block: Seq<(K::V, C)>, out: Seq<(K, C)>) -> bool {
    &&& out.len() == block.len()
    &&& forall|i: int|
        #![trigger out[i]]
        0 <= i < out.len() ==> out[i].0.deep_view() == block[i].0 && cloned(block[i].1, out[i].1)
}

/// Whatever the map tasks put into the buckets, the records of each bucket can be combined.
pub open spec fn reduce_foldable<K: ShuffleKey, V, C>(
    create: spec_fn(V, C) -> bool,
    merge_value: spec_fn(C, V, C) -> bool,
    merge_combiners_on: spec_fn(C, C) -> bool,
    merge_combiners: spec_fn(C, C, C) -> bool,
    inp: Seq<Seq<(K, V)>>,
    n: nat,
    m: nat,
) -> bool {
    forall|outs: Seq<Seq<Seq<(K::V, C)>>>, b: int|
        #![trigger mapped_out::<K, V, C>(create, merge_value, inp, n, m, outs), column(outs, b)]
        outs.len() == n && mapped_out::<K, V, C>(create, merge_value, inp, n, m, outs) && 0 <= b < n
            ==> foldable_by_key(
            keeps_on(),
            keeps(),
            merge_combiners_on,
            merge_combiners,
            concat(column(outs, b)),
        )
}

/// A shuffle of `parent` can make every call that it comes to make.
pub open spec fn shuffle_safe<K: ShuffleKey, V, C>(
    parent: &Box<dyn Dataset<(K, V)>>,
    create_on: spec_fn(V) -> bool,
    create: spec_fn(V, C) -> bool,
    merge_value_on: spec_fn(C, V) -> bool,
    merge_value: spec_fn(C, V, C) -> bool,
    merge_combiners_on: spec_fn(C, C) -> bool,
    merge_combiners: spec_fn(C, C, C) -> bool,
    m: nat,
) -> bool {
    &&& forall|p: int, items: Seq<(K, V)>| #[trigger]
        parent.yields(map![p => items]) ==> map_foldable(
            create_on,
            create,
            merge_value_on,
            merge_value,
            by_view(items),
            m,
        )
    &&& forall|inp: Seq<Seq<(K, V)>>| #[trigger]
        evaluates(parent, inp) ==> reduce_foldable::<K, V, C>(
            create,
            merge_value,
            merge_combiners_on,
            merge_combiners,
            inp,
            parent.parts(),
            m,
        )
}

/// What one evaluation of a shuffle of `parent` may give its partitions: copies of the blocks that
/// one evaluation of all partitions of `parent` leaves.
pub open spec fn shuffle_yields<K: ShuffleKey, V, C: Clone>(
    parent: &Box<dyn Dataset<(K, V)>>,
    create: spec_fn(V, C) -> bool,
    merge_value: spec_fn(C, V, C) -> bool,
    merge_combiners: spec_fn(C, C, C) -> bool,
    m: nat,
    out: Map<int, Seq<(K, C)>>,
) -> bool {
    within(out, parent.parts()) && exists|
        inp: Seq<Seq<(K, V)>>,
        blocks: Seq<Seq<(K::V, C)>>,
    |
        evaluates(parent, inp) && #[trigger] shuffled::<K, V, C>(
            create,
            merge_value,
            merge_combiners,
            inp,
            parent.parts(),
            m,
            blocks,
        ) && forall|p: int| #[trigger] out.contains_key(p) ==> copied(blocks[p], out[p])
}

/// What an evaluation of a shuffle of `parent` counts for: an evaluation of all partitions of
/// `parent`, as the tasks of a job, and the records that each map task puts out.
pub open spec fn shuffle_charges<K: ShuffleKey, V>(
    parent: &Box<dyn Dataset<(K, V)>>,
    m: nat,
    c: Counters,
) -> bool {
    &&& charged(parent, parent.parts())
    &&& numbered(c)
    &&& task_counted(c, true)
    &&& exists|inp: Seq<Seq<(K, V)>>| #[trigger]
        evaluates(parent, inp) && forall|mp: int|
            0 <= mp < inp.len() ==> c.grew(
                map_growth(capped_count(emitted(by_view(#[trigger] inp[mp]), m))),
            )
}

/// A map task may turn the items of a partition into `buckets`, and what it put out was counted.
spec fn map_made<K: ShuffleKey, V, C>(
    inner: &Box<dyn Evaluation<(K, V)>>,
    create: spec_fn(V, C) -> bool,
    merge: spec_fn(C, V, C) -> bool,
    n: nat,
    m: nat,
    c: Counters,
    mp: int,
    buckets: Vec<Vec<(K, C)>>,
    items: Seq<(K, V)>,
) -> bool {
    &&& inner.gives(mp, items)
    &&& buckets@.len() == n
    &&& map_combined::<K, V, C>(create, merge, by_view(items), m, bucket_views(buckets@))
    &&& c.grew(map_growth(capped_count(emitted(by_view(items), m))))
}

/// What the map task of partition `mp` may come to.
spec fn map_gives<K: ShuffleKey, V, C>(
    inner: &Box<dyn Evaluation<(K, V)>>,
    create: spec_fn(V, C) -> bool,
    merge: spec_fn(C, V, C) -> bool,
    n: nat,
    m: nat,
    c: Counters,
    mp: int,
    cancel: Option<&AtomicBool>,
    r: Result<Vec<Vec<(K, C)>>, Error>,
) -> bool {
    match r {
        Ok(b) => inner.charges(mp) && exists|items: Seq<(K, V)>| #[trigger]
            map_made(inner, create, merge, n, m, c, mp, b, items),
        Err(x) => x is Cancelled && was_cancelled(cancel) || inner.breaks(mp, x),
    }
}

/// Joins what map tasks put into each of `n` buckets, task after task.
fn join_buckets<K: ShuffleKey, C>(n: usize, tasks: Vec<Vec<Vec<(K, C)>>>) -> (merged: Vec<
    Vec<(K, C)>,
>)
    requires
        forall|mp: int| 0 <= mp < tasks@.len() ==> (#[trigger] tasks@[mp])@.len() == n,
    ensures
        merged@.len() == n,
        forall|b: int|
            0 <= b < n ==> by_view((#[trigger] merged@[b])@) == concat(
                column(task_views(tasks@), b),
            ),
{
    let ghost all = tasks@;
    let ghost outs = task_views(all);
    let mut merged: Vec<Vec<(K, C)>> = empty_buckets(n);
    proof {
        assert forall|b: int| 0 <= b < n implies by_view((#[trigger] merged@[b])@) == concat(
            column(outs.take(0), b),
        ) by {
            assert(column(outs.take(0), b) =~= Seq::<Seq<(K::V, C)>>::empty());
            assert(by_view(merged@[b]@) =~= Seq::<(K::V, C)>::empty());
        }
    }
    for buckets in it: tasks
        invariant
            it.seq() == all,
            outs == task_views(all),
            forall|mp: int| 0 <= mp < all.len() ==> (#[trigger] all[mp])@.len() == n,
            merged@.len() == n,
            forall|b: int|
                0 <= b < n ==> by_view((#[trigger] merged@[b])@) == concat(
                    column(outs.take(it.index()), b),
                ),
    {
        let ghost before = merged@;
        let ghost chunk = buckets@;
        let ghost i = it.index();
        assert(all[i] == buckets);
        extend_each(&mut merged, buckets);
        proof {
            assert forall|b: int| 0 <= b < n implies by_view((#[trigger] merged@[b])@) == concat(
                column(outs.take(i + 1), b),
            ) by {
                let done = column(outs.take(i), b);
                assert(column(outs.take(i + 1), b) =~= done.push(by_view(chunk[b]@)));
                lemma_concat_push(done, by_view(chunk[b]@));
                assert(by_view(before[b]@) == concat(done));
                assert(by_view(merged@[b]@) =~= by_view(before[b]@) + by_view(chunk[b]@));
            }
        }
    }
    assert(outs.take(all.len() as int) =~= outs);
    merged
}

/// What map tasks put out, with the view of each key in the key's place.
spec fn task_views<K: ShuffleKey, C>(tasks: Seq<Vec<Vec<(K, C)>>>) -> Seq<Seq<Seq<(K::V, C)>>> {
    Seq::new(tasks.len(), |mp: int| bucket_views(tasks[mp]@))
}

struct Blocks<K, C> {
    blocks: Vec<Vec<(K, C)>>,
}

#[verifier::reject_recursive_types(K)]
#[verifier::reject_recursive_types(V)]
struct ShuffleData<K: ShuffleKey, V, Create, MergeV, MergeC> {
    parent: Arc<Box<dyn Dataset<(K, V)>>>,
    create: Arc<Create>,
    merge_value: Arc<MergeV>,
    merge_combiners: Arc<MergeC>,
    n: usize,
    limit: usize,
    threads: usize,
    counters: Arc<Counters>,
}

impl<
    K: ShuffleKey,
    V,
    C,
    Create: Fn(V) -> C,
    MergeV: Fn(C, V) -> C,
    MergeC: Fn(C, C) -> C,
> ShuffleData<K, V, Create, MergeV, MergeC> {
    spec fn created(&self) -> spec_fn(V, C) -> bool {
        creates(*self.create)
    }

    spec fn value_merged(&self) -> spec_fn(C, V, C) -> bool {
        merges(*self.merge_value)
    }

    spec fn combiners_merged(&self) -> spec_fn(C, C, C) -> bool {
        merges(*self.merge_combiners)
    }

    /// What the map task of partition `mp` may come to.
    spec fn maps(
        &self,
        inner: &Box<dyn Evaluation<(K, V)>>,
        mp: int,
        cancel: Option<&AtomicBool>,
        r: Result<Vec<Vec<(K, C)>>, Error>,
    ) -> bool {
        map_gives(
            inner,
            creates(*self.create),
            merges(*self.merge_value),
            self.n as nat,
            window_len(self.limit),
            *self.counters,
            mp,
            cancel,
            r,
        )
    }

    /// Runs a map task: computes a partition, and combines its records into buckets.
    fn map_part(
        &self,
        inner: &Arc<Box<dyn Evaluation<(K, V)>>>,
        mp: usize,
        cancel: Option<&AtomicBool>,
    ) -> (r: Result<Vec<Vec<(K, C)>>, Error>)
        requires
            inner.wf(),
            mp < inner.parts(),
            self.n > 0,
            forall|items: Seq<(K, V)>| #[trigger]
                inner.gives(mp as int, items) ==> map_foldable(
                    creates_on(*self.create),
                    creates(*self.create),
                    merges_on(*self.merge_value),
                    merges(*self.merge_value),
                    by_view(items),
                    window_len(self.limit),
                ),
        ensures
            self.maps(&**inner, mp as int, cancel, r),
    {
        let items = match inner.compute(mp, cancel) {
            Ok(v) => v,
            Err(e) => return Err(e),
        };
        let ghost pairs = items@;
        let r = map_task(
            self.n,
            items,
            &*self.create,
            &*self.merge_value,
            cancel,
            self.limit,
            &self.counters,
        );
        proof {
            if r is Ok {
                let (cr, mv) = (self.created(), self.value_merged());
                let m = window_len(self.limit);
                let b = r->Ok_0;
                lemma_emitted(cr, mv, by_view(pairs), m, b@);
                assert(map_made(
                    &**inner,
                    cr,
                    mv,
                    self.n as nat,
                    m,
                    *self.counters,
                    mp as int,
                    b,
                    pairs,
                ));
            }
        }
        r
    }
}

fn copy_records<K: ShuffleKey, C: Clone>(block: &Vec<(K, C)>) -> (out: Vec<(K, C)>)
    ensures
        copied(by_view(block@), out@),
{
    let mut out: Vec<(K, C)> = Vec::new();
    let mut i: usize = 0;
    while i < block.len()
        invariant
            i <= block@.len(),
            out@.len() == i,
            forall|j: int|
                #![trigger out@[j]]
                0 <= j < i ==> out@[j].0.deep_view() == by_view(block@)[j].0 && cloned(
                    by_view(block@)[j].1,
                    out@[j].1,
                ),
        decreases block@.len() - i,
    {
        out.push((block[i].0.dup(), block[i].1.clone()));
        i = i + 1;
    }
    out
}

impl<K: ShuffleKey + Send + Sync + 'static, C: Clone + Send + Sync + 'static> Evaluation<
    (K, C),
> for Blocks<K, C> {
    closed spec fn wf(&self) -> bool {
        true
    }

    closed spec fn parts(&self) -> nat {
        self.blocks@.len()
    }

    closed spec fn gives(&self, p: int, items: Seq<(K, C)>) -> bool {
        copied(by_view(self.blocks@[p]@), items)
    }

    closed spec fn begins(&self, p: int, items: Seq<(K, C)>) -> bool {
        exists|all: Seq<(K, C)>| #[trigger]
            starts_with(all, items) && copied(by_view(self.blocks@[p]@), all)
    }

    closed spec fn breaks(&self, p: int, e: Error) -> bool {
        false
    }

    closed spec fn charges(&self, p: int) -> bool {
        true
    }

    fn part(&self, p: usize, cancel: Option<&AtomicBool>) -> (r: Result<
        Own<Box<dyn Part<(K, C)>>>,
        Error,
    >) {
        let items = copy_records(&self.blocks[p]);
        let ghost all = items@;
        let q = computed_part(items);
        assert forall|x: Seq<(K, C)>, done: bool| #[trigger]
            (q.it.may())(x, done) implies self.begins(p as int, x) && (done ==> self.gives(
            p as int,
            x,
        )) by {
            assert(starts_with(all, x));
        }
        Ok(q)
    }

    fn compute(&self, p: usize, cancel: Option<&AtomicBool>) -> (r: Result<Vec<(K, C)>, Error>) {
        Ok(copy_records(&self.blocks[p]))
    }
}

impl<
    K: ShuffleKey + Send + Sync + 'static,
    V: Send + Sync + 'static,
    C: Clone + Send + Sync + 'static,
    Create: Fn(V) -> C + Send + Sync + 'static,
    MergeV: Fn(C, V) -> C + Send + Sync + 'static,
    MergeC: Fn(C, C) -> C + Send + Sync + 'static,
> Dataset<(K, C)> for ShuffleData<K, V, Create, MergeV, MergeC> {
    closed spec fn wf(&self) -> bool {
        &&& self.parent.wf()
        &&& self.parent.parts() == self.n
        &&& self.n > 0
        &&& shuffle_safe::<K, V, C>(
            &*self.parent,
            creates_on(*self.create),
            creates(*self.create),
            merges_on(*self.merge_value),
            merges(*self.merge_value),
            merges_on(*self.merge_combiners),
            merges(*self.merge_combiners),
            window_len(self.limit),
        )
    }

    closed spec fn parts(&self) -> nat {
        self.n as nat
    }

    closed spec fn yields(&self, out: Map<int, Seq<(K, C)>>) -> bool {
        shuffle_yields::<K, V, C>(
            &*self.parent,
            creates(*self.create),
            merges(*self.merge_value),
            merges(*self.merge_combiners),
            window_len(self.limit),
            out,
        )
    }

    closed spec fn yields_some(
        &self,
        out: Map<int, Seq<(K, C)>>,
        p: int,
        items: Seq<(K, C)>,
    ) -> bool {
        0 <= p < self.n && exists|all: Seq<(K, C)>| #[trigger]
            starts_with(all, items) && <Self as Dataset<(K, C)>>::yields(self, out.insert(p, all))
    }

    closed spec fn jams(&self, e: Error) -> bool {
        fails(&*self.parent, e)
    }

    closed spec fn breaks(&self, p: int, e: Error) -> bool {
        false
    }

    closed spec fn charges(&self) -> bool {
        shuffle_charges(&*self.parent, window_len(self.limit), *self.counters)
    }

    closed spec fn part_charges(&self, p: int) -> bool {
        true
    }

    fn open(&self, cancel: Option<&AtomicBool>) -> (r: Result<
        Arc<Box<dyn Evaluation<(K, C)>>>,
        Error,
    >) {
        let inner = match self.parent.open(cancel) {
            Ok(e) => e,
            Err(e) => return Err(e),
        };
        let ghost cr = self.created();
        let ghost mv = self.value_merged();
        let ghost mc = self.combiners_merged();
        let ghost n = self.n as nat;
        let ghost m = window_len(self.limit);
        proof {
            assert forall|mp: int, items: Seq<(K, V)>|
                0 <= mp < inner.parts() && #[trigger] inner.gives(mp, items) implies map_foldable(
                creates_on(*self.create),
                creates(*self.create),
                merges_on(*self.merge_value),
                merges(*self.merge_value),
                by_view(items),
                m,
            ) by {
                assert(self.parent.yields(map![mp => items]));
            }
        }
        let task = |mp: usize| -> (r: Result<Vec<Vec<(K, C)>>, Error>)
            requires
                mp < inner.parts(),
            ensures
                self.maps(&*inner, mp as int, cancel, r),
            { self.map_part(&inner, mp, cancel) };
        let tasks = match run_job(self.n, self.threads, cancel, &self.counters, &task) {
            Ok(v) => v,
            Err(e) => {
                proof {
                    if !cut_short(cancel, e) {
                        let p = choose|p: usize|
                            p < n && #[trigger] task_gives(
                                task,
                                p,
                                Err::<Vec<Vec<(K, C)>>, Error>(e),
                            );
                        let x = choose|x: Error| #[trigger]
                            call_ensures(task, (p,), Err::<Vec<Vec<(K, C)>>, Error>(x))
                                && task_error(p as int, x, e);
                        assert(inner.breaks(p as int, x));
                        assert(self.parent.breaks(p as int, x));
                        assert(task_fails(&*self.parent, e));
                    }
                }
                return Err(e);
            },
        };
        let ghost got = tasks@;
        let ghost outs = task_views(got);
        let ghost inp = Seq::new(
            n,
            |mp: int|
                choose|items: Seq<(K, V)>| #[trigger]
                    map_made(&*inner, cr, mv, n, m, *self.counters, mp, got[mp], items),
        );
        proof {
            assert forall|mp: int| 0 <= mp < n implies #[trigger] map_made(
                &*inner,
                cr,
                mv,
                n,
                m,
                *self.counters,
                mp,
                got[mp],
                inp[mp],
            ) && inner.charges(mp) by {
                let p = mp as usize;
                assert(task_gives(task, p, Ok(got[p as int])));
            }
            assert forall|mp: int| 0 <= mp < n implies inner.gives(mp, #[trigger] inp[mp])
                && inner.charges(mp) by {
                assert(map_made(&*inner, cr, mv, n, m, *self.counters, mp, got[mp], inp[mp]));
            }
            assert forall|mp: int| 0 <= mp < got.len() implies (#[trigger] got[mp])@.len() == n by {
                assert(map_made(&*inner, cr, mv, n, m, *self.counters, mp, got[mp], inp[mp]));
            }
            assert forall|mp: int| 0 <= mp < outs.len() implies (#[trigger] outs[mp]).len() == n
                && map_combined::<K, V, C>(cr, mv, by_view(inp[mp]), m, outs[mp]) by {
                assert(map_made(&*inner, cr, mv, n, m, *self.counters, mp, got[mp], inp[mp]));
            }
            assert(mapped_out::<K, V, C>(cr, mv, inp, n, m, outs));
        }
        let merged = join_buckets(self.n, tasks);
        let ghost whole = merged@;
        proof {
            assert(self.parent.yields(part_map(inp)));
            assert(evaluates(&*self.parent, inp));
            assert forall|mp: int| 0 <= mp < inp.len() implies self.counters.grew(
                map_growth(capped_count(emitted(by_view(#[trigger] inp[mp]), m))),
            ) by {
                assert(map_made(&*inner, cr, mv, n, m, *self.counters, mp, got[mp], inp[mp]));
            }
            assert forall|mp: int| 0 <= mp < n implies #[trigger] self.parent.part_charges(mp) by {
                let _ = inp[mp];
            }
            assert(shuffle_charges(&*self.parent, m, *self.counters));
            assert forall|b: int| 0 <= b < merged@.len() implies foldable_by_key(
                keeps_on(),
                keeps(),
                merges_on(*self.merge_combiners),
                merges(*self.merge_combiners),
                by_view((#[trigger] merged@[b])@),
            ) by {
                let _ = column(outs, b);
            }
        }
        let reduced = parallel_reduce_buckets(merged, &*self.merge_combiners, self.threads);
        let ghost views = bucket_views(reduced@);
        let e = Blocks { blocks: reduced };
        proof {
            assert forall|b: int| #![trigger views[b]] 0 <= b < n implies combined(
                keeps(),
                mc,
                concat(column(outs, b)),
                views[b],
            ) by {
                let _ = reduced@[b];
                assert(by_view(whole[b]@) == concat(column(outs, b)));
            }
            assert(shuffled::<K, V, C>(cr, mv, mc, inp, n, m, views));
            assert forall|out: Map<int, Seq<(K, C)>>|
                (forall|p: int| #[trigger]
                    out.contains_key(p) ==> 0 <= p < e.blocks@.len() && e.gives(
                        p,
                        out[p],
                    )) implies #[trigger] self.yields(out) by {
                assert forall|p: int| #[trigger] out.contains_key(p) implies copied(
                    views[p],
                    out[p],
                ) by {}
            }
            assert forall|out: Map<int, Seq<(K, C)>>, p: int, items: Seq<(K, C)>|
                (forall|q: int| #[trigger]
                    out.contains_key(q) ==> 0 <= q < e.blocks@.len() && e.gives(q, out[q])) && 0
                    <= p < e.blocks@.len() && e.begins(p, items) implies #[trigger] self.yields_some(
                out,
                p,
                items,
            ) by {
                let all = choose|all: Seq<(K, C)>| #[trigger]
                    starts_with(all, items) && copied(by_view(e.blocks@[p]@), all);
                let more = out.insert(p, all);
                assert forall|q: int| #[trigger] more.contains_key(q) implies 0 <= q
                    < e.blocks@.len() && e.gives(q, more[q]) by {
                    if q != p {
                        assert(out.contains_key(q));
                    }
                }
                assert(<Self as Dataset<(K, C)>>::yields(self, more));
            }
        }
        let boxed: Box<dyn Evaluation<(K, C)>> = Box::new(e);
        let shared = Arc::new(boxed);
        Ok(shared)
    }
}

/// The dataset of the records of `parent`, combined by key into as many partitions. Map tasks count
/// what they put out, and the buckets are reduced as `threads` threads would.
pub fn combine_records<
    K: ShuffleKey + Send + Sync + 'static,
    V: Send + Sync + 'static,
    C: Clone + Send + Sync + 'static,
    Create: Fn(V) -> C + Send + Sync + 'static,
    MergeV: Fn(C, V) -> C + Send + Sync + 'static,
    MergeC: Fn(C, C) -> C + Send + Sync + 'static,
>(
    parent: Arc<Box<dyn Dataset<(K, V)>>>,
    create: Arc<Create>,
    merge_value: Arc<MergeV>,
    merge_combiners: Arc<MergeC>,
    n: usize,
    limit: usize,
    threads: usize,
    counters: Arc<Counters>,
) -> (d: Arc<Box<dyn Dataset<(K, C)>>>)
    requires
        parent.wf(),
        parent.parts() == n,
        n > 0,
        shuffle_safe::<K, V, C>(
            &*parent,
            creates_on(*create),
            creates(*create),
            merges_on(*merge_value),
            merges(*merge_value),
            merges_on(*merge_combiners),
            merges(*merge_combiners),
            window_len(limit),
        ),
    ensures
        d.wf(),
        d.parts() == n,
        forall|out: Map<int, Seq<(K, C)>>| #[trigger]
            d.yields(out) <==> shuffle_yields::<K, V, C>(
                &*parent,
                creates(*create),
                merges(*merge_value),
                merges(*merge_combiners),
                window_len(limit),
                out,
            ),
        whole_first(&*d),
        fails_first(&*parent, &*d),
        d.charges() <==> shuffle_charges(&*parent, window_len(limit), *counters),
{
    let data = ShuffleData {
        parent,
        create,
        merge_value,
        merge_combiners,
        n,
        limit,
        threads,
        counters,
    };
    let boxed: Box<dyn Dataset<(K, C)>> = Box::new(data);
    let shared = Arc::new(boxed);
    shared
}

// ---- shuffles under narrower relations

proof fn lemma_mapped_out_weaken<K: ShuffleKey, V, C>(
    create: spec_fn(V, C) -> bool,
    merge: spec_fn(C, V, C) -> bool,
    create2: spec_fn(V, C) -> bool,
    merge2: spec_fn(C, V, C) -> bool,
    inp: Seq<Seq<(K, V)>>,
    n: nat,
    m: nat,
    outs: Seq<Seq<Seq<(K::V, C)>>>,
)
    requires
        forall|v: V, r: C| #[trigger] create(v, r) ==> create2(v, r),
        forall|b: C, v: V, r: C| #[trigger] merge(b, v, r) ==> merge2(b, v, r),
        mapped_out::<K, V, C>(create, merge, inp, n, m, outs),
    ensures
        mapped_out::<K, V, C>(create2, merge2, inp, n, m, outs),
{
    assert forall|mp: int| 0 <= mp < outs.len() implies (#[trigger] outs[mp]).len() == n
        && map_combined::<K, V, C>(create2, merge2, by_view(inp[mp]), m, outs[mp]) by {
        let ws = windows(by_view(inp[mp]), m);
        let cs = choose|cs: Seq<Seq<(K::V, C)>>|
            #[trigger] combined_windows(create, merge, ws, cs) && forall|b: int|
                0 <= b < outs[mp].len() ==> #[trigger] outs[mp][b] == in_bucket::<K, C>(
                    concat(cs),
                    outs[mp].len() as usize,
                    b,
                );
        assert forall|w: int| 0 <= w < ws.len() implies combined(
            create2,
            merge2,
            ws[w],
            #[trigger] cs[w],
        ) by {
            lemma_combined_weaken(create, merge, create2, merge2, ws[w], cs[w]);
        }
        assert(combined_windows(create2, merge2, ws, cs));
    }
}

/// What a shuffle may give under some relations it may give under weaker ones.
pub proof fn lemma_shuffle_weaken<K: ShuffleKey, V, C: Clone>(
    parent: &Box<dyn Dataset<(K, V)>>,
    create: spec_fn(V, C) -> bool,
    merge_value: spec_fn(C, V, C) -> bool,
    merge_combiners: spec_fn(C, C, C) -> bool,
    create2: spec_fn(V, C) -> bool,
    merge_value2: spec_fn(C, V, C) -> bool,
    merge_combiners2: spec_fn(C, C, C) -> bool,
    m: nat,
    out: Map<int, Seq<(K, C)>>,
)
    requires
        forall|v: V, r: C| #[trigger] create(v, r) ==> create2(v, r),
        forall|b: C, v: V, r: C| #[trigger] merge_value(b, v, r) ==> merge_value2(b, v, r),
        forall|b: C, v: C, r: C| #[trigger] merge_combiners(b, v, r) ==> merge_combiners2(b, v, r),
        shuffle_yields::<K, V, C>(parent, create, merge_value, merge_combiners, m, out),
    ensures
        shuffle_yields::<K, V, C>(parent, create2, merge_value2, merge_combiners2, m, out),
{
    let n = parent.parts();
    let (inp, blocks) = choose|inp: Seq<Seq<(K, V)>>, blocks: Seq<Seq<(K::V, C)>>|
        evaluates(parent, inp) && #[trigger] shuffled::<K, V, C>(
            create,
            merge_value,
            merge_combiners,
            inp,
            n,
            m,
            blocks,
        ) && forall|p: int| #[trigger] out.contains_key(p) ==> copied(blocks[p], out[p]);
    let outs = choose|outs: Seq<Seq<Seq<(K::V, C)>>>|
        outs.len() == n && blocks.len() == n && #[trigger] mapped_out::<K, V, C>(
            create,
            merge_value,
            inp,
            n,
            m,
            outs,
        ) && forall|b: int|
            #![trigger blocks[b]]
            0 <= b < n ==> combined(keeps(), merge_combiners, concat(column(outs, b)), blocks[b]);
    lemma_mapped_out_weaken::<K, V, C>(
        create,
        merge_value,
        create2,
        merge_value2,
        inp,
        n,
        m,
        outs,
    );
    assert forall|b: int| #![trigger blocks[b]] 0 <= b < n implies combined(
        keeps(),
        merge_combiners2,
        concat(column(outs, b)),
        blocks[b],
    ) by {
        lemma_combined_weaken(
            keeps(),
            merge_combiners,
            keeps(),
            merge_combiners2,
            concat(column(outs, b)),
            blocks[b],
        );
    }
    assert(shuffled::<K, V, C>(create2, merge_value2, merge_combiners2, inp, n, m, blocks));
}

/// A shuffle that is safe under some relations is safe under narrower ones.
pub proof fn lemma_shuffle_safe_narrow<K: ShuffleKey, V, C>(
    parent: &Box<dyn Dataset<(K, V)>>,
    create_on: spec_fn(V) -> bool,
    create: spec_fn(V, C) -> bool,
    merge_value_on: spec_fn(C, V) -> bool,
    merge_value: spec_fn(C, V, C) -> bool,
    merge_combiners_on: spec_fn(C, C) -> bool,
    merge_combiners: spec_fn(C, C, C) -> bool,
    create_on2: spec_fn(V) -> bool,
    create2: spec_fn(V, C) -> bool,
    merge_value_on2: spec_fn(C, V) -> bool,
    merge_value2: spec_fn(C, V, C) -> bool,
    merge_combiners_on2: spec_fn(C, C) -> bool,
    merge_combiners2: spec_fn(C, C, C) -> bool,
    m: nat,
)
    requires
        forall|v: V| #[trigger] create_on2(v) ==> create_on(v),
        forall|v: V, r: C| #[trigger] create(v, r) ==> create2(v, r),
        forall|b: C, v: V| #[trigger] merge_value_on2(b, v) ==> merge_value_on(b, v),
        forall|b: C, v: V, r: C| #[trigger] merge_value(b, v, r) ==> merge_value2(b, v, r),
        forall|b: C, v: C| #[trigger] merge_combiners_on2(b, v) ==> merge_combiners_on(b, v),
        forall|b: C, v: C, r: C| #[trigger] merge_combiners(b, v, r) ==> merge_combiners2(b, v, r),
        shuffle_safe::<K, V, C>(
            parent,
            create_on2,
            create2,
            merge_value_on2,
            merge_value2,
            merge_combiners_on2,
            merge_combiners2,
            m,
        ),
    ensures
        shuffle_safe::<K, V, C>(
            parent,
            create_on,
            create,
            merge_value_on,
            merge_value,
            merge_combiners_on,
            merge_combiners,
            m,
        ),
{
    assert forall|p: int, items: Seq<(K, V)>| #[trigger]
        parent.yields(map![p => items]) implies map_foldable(
        create_on,
        create,
        merge_value_on,
        merge_value,
        by_view(items),
        m,
    ) by {
        let ws = windows(by_view(items), m);
        assert forall|w: int| 0 <= w < ws.len() implies foldable_by_key(
            create_on,
            create,
            merge_value_on,
            merge_value,
            #[trigger] ws[w],
        ) by {
            assert forall|id: K::V|
                foldable(
                    create_on,
                    create,
                    merge_value_on,
                    merge_value,
                    #[trigger] values_of(ws[w], id),
                ) by {
                lemma_foldable_narrow(
                    create_on,
                    create,
                    merge_value_on,
                    merge_value,
                    create_on2,
                    create2,
                    merge_value_on2,
                    merge_value2,
                    values_of(ws[w], id),
                );
            }
        }
    }
    let n = parent.parts();
    assert forall|inp: Seq<Seq<(K, V)>>| #[trigger]
        evaluates(parent, inp) implies reduce_foldable::<K, V, C>(
        create,
        merge_value,
        merge_combiners_on,
        merge_combiners,
        inp,
        n,
        m,
    ) by {
        assert forall|outs: Seq<Seq<Seq<(K::V, C)>>>, b: int|
            #![trigger mapped_out::<K, V, C>(create, merge_value, inp, n, m, outs), column(outs, b)]
            outs.len() == n && mapped_out::<K, V, C>(create, merge_value, inp, n, m, outs) && 0 <= b
                < n implies foldable_by_key(
            keeps_on(),
            keeps(),
            merge_combiners_on,
            merge_combiners,
            concat(column(outs, b)),
        ) by {
            lemma_mapped_out_weaken::<K, V, C>(
                create,
                merge_value,
                create2,
                merge_value2,
                inp,
                n,
                m,
                outs,
            );
            let pairs = concat(column(outs, b));
            assert forall|id: K::V|
                foldable(
                    keeps_on(),
                    keeps(),
                    merge_combiners_on,
                    merge_combiners,
                    #[trigger] values_of(pairs, id),
                ) by {
                lemma_foldable_narrow(
                    keeps_on(),
                    keeps(),
                    merge_combiners_on,
                    merge_combiners,
                    keeps_on(),
                    keeps(),
                    merge_combiners_on2,
                    merge_combiners2,
                    values_of(pairs, id),
                );
            }
        }
    }
}

/// A shuffle with functions that can be called on anything is safe.
pub proof fn lemma_total_shuffle_safe<K: ShuffleKey, V, C>(
    parent: &Box<dyn Dataset<(K, V)>>,
    create_on: spec_fn(V) -> bool,
    create: spec_fn(V, C) -> bool,
    merge_value_on: spec_fn(C, V) -> bool,
    merge_value: spec_fn(C, V, C) -> bool,
    merge_combiners_on: spec_fn(C, C) -> bool,
    merge_combiners: spec_fn(C, C, C) -> bool,
    m: nat,
)
    requires
        forall|v: V| #[trigger] create_on(v),
        forall|b: C, v: V| #[trigger] merge_value_on(b, v),
        forall|b: C, v: C| #[trigger] merge_combiners_on(b, v),
    ensures
        shuffle_safe::<K, V, C>(
            parent,
            create_on,
            create,
            merge_value_on,
            merge_value,
            merge_combiners_on,
            merge_combiners,
            m,
        ),
{
}

} // verus!
