//! Datasets as users see them: derived from each other, evaluated by actions.
use std::sync::atomic::AtomicBool;
use std::sync::Arc;

use vstd::prelude::*;

use crate::actions::{
    computed_first, concat_parts, first, fold_items, fold_partials, lemma_first,
    lemma_sum_of_lengths, somes, take_first, total,
};
use crate::combine::{foldable, folded, keeps, keeps_on, merges, merges_on};
use crate::context::ContextInner;
use crate::dag::{
    behind, cut_stages, lemma_shuffle_stage, only_reader, stages_of, told_apart, Stage, StageKind,
};
use crate::dataset::{
    as_outcome, below, charged, charges_alike, charges_both, computes, cut_short, each_part,
    evaluates, fails, fails_alike, fails_both, fails_first, filter_items, filtering,
    flat_map_items, flat_mapping, from_on, joins_some, map_items, mapping, narrows_some,
    outcome_of, part_map, take_items, task_error, task_fails, union, whole_first, within, Dataset,
    Evaluation,
};
use crate::error::Error;
use crate::exec::{panic_text, partition_result, Outcome};
use crate::ids::{Dependency, RddId, ShuffleId};
use crate::jobs::{
    ended, lemma_tried, numbered, run_job, task_counted, task_gives, tried,
};
use crate::lineage::LineageNode;
use crate::metrics::{start_growth, Counters};
use crate::partitioner::HashPartitioner;
use crate::seqs::{concat, lemma_concat_flattens, lemma_concat_push, rows};

verus! {

/// A partitioned dataset with its lineage. Deriving from it computes nothing; actions do.
#[verifier::reject_recursive_types(T)]
pub struct Rdd<T> {
    ctx: Arc<ContextInner>,
    lineage: Arc<LineageNode>,
    data: Arc<Box<dyn Dataset<T>>>,
}

impl<T> Rdd<T> {
    /// What the datasets of its context share.
    pub closed spec fn shared(&self) -> ContextInner {
        *self.ctx
    }

    /// Its place in the lineage.
    pub closed spec fn node(&self) -> LineageNode {
        *self.lineage
    }

    /// What its evaluations may give.
    pub closed spec fn dataset(&self) -> &Box<dyn Dataset<T>> {
        &*self.data
    }

    #[verifier::type_invariant]
    closed spec fn sound(&self) -> bool {
        &&& self.data.wf()
        &&& self.data.parts() == self.lineage.n_partitions
        &&& self.lineage.n_partitions > 0
    }

    pub(crate) fn new(
        ctx: Arc<ContextInner>,
        n_partitions: usize,
        deps: Vec<Dependency>,
        parents: Vec<Arc<LineageNode>>,
        partitioner: Option<HashPartitioner>,
        data: Arc<Box<dyn Dataset<T>>>,
    ) -> (r: Self)
        requires
            data.wf(),
            data.parts() == n_partitions,
            n_partitions > 0,
        ensures
            r.shared() == *ctx,
            r.dataset() == *data,
            ctx.numbers_rdd(r.node().id),
            r.node().deps == deps,
            r.node().n_partitions == n_partitions,
            r.node().parents == parents,
            r.node().partitioner == partitioner,
    {
        let id = ctx.alloc_id();
        let lineage = Arc::new(LineageNode { id, deps, n_partitions, parents, partitioner });
        Rdd { ctx, lineage, data }
    }

    pub fn id(&self) -> (id: RddId)
        ensures
            id == self.node().id,
    {
        self.lineage.id
    }

    pub fn dependencies(&self) -> (deps: &[Dependency])
        ensures
            deps@ == self.node().deps@,
    {
        self.lineage.deps.as_slice()
    }

    pub fn get_num_partitions(&self) -> (n: usize)
        ensures
            n == self.dataset().parts(),
            n == self.node().n_partitions,
            n > 0,
    {
        proof {
            use_type_invariant(self);
        }
        self.lineage.n_partitions
    }

    pub fn partitioner(&self) -> (p: Option<HashPartitioner>)
        ensures
            p == self.node().partitioner,
    {
        self.lineage.partitioner
    }

    /// The stages that compute this dataset.
    pub fn stages(&self) -> (stages: Vec<Stage>)
        ensures
            stages@ == stages_of(self.node()),
    {
        cut_stages(&self.lineage)
    }
}

impl<T> Clone for Rdd<T> {
    fn clone(&self) -> (r: Self)
        ensures
            r.shared() == self.shared(),
            r.node() == self.node(),
            r.dataset() == self.dataset(),
    {
        proof {
            use_type_invariant(self);
        }
        Rdd { ctx: self.ctx.clone(), lineage: self.lineage.clone(), data: self.data.clone() }
    }
}

/// `f` can be called on every item that an evaluation of `d` may give.
pub open spec fn accepts_items<T, U, F: Fn(T) -> U>(d: &Box<dyn Dataset<T>>, f: F) -> bool {
    &&& forall|p: int, items: Seq<T>, i: int|
        #![trigger d.yields(map![p => items]), items[i]]
        d.yields(map![p => items]) && 0 <= i < items.len() ==> call_requires(f, (items[i],))
    &&& forall|p: int, items: Seq<T>, i: int|
        #![trigger d.yields_some(Map::empty(), p, items), items[i]]
        d.yields_some(Map::empty(), p, items) && 0 <= i < items.len() ==> call_requires(
            f,
            (items[i],),
        )
}

/// `pred` can be called on every item that an evaluation of `d` may give.
pub open spec fn judges_items<T, F: Fn(&T) -> bool>(d: &Box<dyn Dataset<T>>, pred: F) -> bool {
    &&& forall|p: int, items: Seq<T>, i: int|
        #![trigger d.yields(map![p => items]), items[i]]
        d.yields(map![p => items]) && 0 <= i < items.len() ==> call_requires(pred, (&items[i],))
    &&& forall|p: int, items: Seq<T>, i: int|
        #![trigger d.yields_some(Map::empty(), p, items), items[i]]
        d.yields_some(Map::empty(), p, items) && 0 <= i < items.len() ==> call_requires(
            pred,
            (&items[i],),
        )
}

/// `child` was derived from `parent`, partition by partition.
pub open spec fn derived<T, U>(parent: Rdd<T>, child: Rdd<U>) -> bool {
    &&& child.shared() == parent.shared()
    &&& child.dataset().parts() == parent.dataset().parts()
    &&& fails_alike(parent.dataset(), child.dataset())
    &&& charges_alike(parent.dataset(), child.dataset())
    &&& parent.shared().numbers_rdd(child.node().id)
    &&& child.node().deps@ == seq![Dependency::Narrow { parent: parent.node().id }]
    &&& child.node().parents@ == seq![Arc::new(parent.node())]
    &&& child.node().partitioner is None
}

/// `child` was derived from `parent` by a shuffle into as many partitions.
pub open spec fn derived_by_key<T, U>(parent: Rdd<T>, child: Rdd<U>) -> bool {
    &&& child.shared() == parent.shared()
    &&& child.dataset().parts() == parent.dataset().parts()
    &&& whole_first(child.dataset())
    &&& fails_first(parent.dataset(), child.dataset())
    &&& parent.shared().numbers_rdd(child.node().id)
    &&& child.node().deps@.len() == 1
    &&& child.node().deps@[0] matches Dependency::Shuffle { parent: p, shuffle }
    &&& p == parent.node().id
    &&& parent.shared().numbers_shuffle(shuffle)
    &&& child.node().parents@ == seq![Arc::new(parent.node())]
    &&& child.node().partitioner matches Some(h)
    &&& h.partitions() == parent.dataset().parts()
}

fn one<A>(a: A) -> (v: Vec<A>)
    ensures
        v@ == seq![a],
{
    let mut v: Vec<A> = Vec::new();
    v.push(a);
    assert(v@ =~= seq![a]);
    v
}

impl<T: 'static> Rdd<T> {
    fn narrow<U: 'static>(self, data: Arc<Box<dyn Dataset<U>>>) -> (r: Rdd<U>)
        requires
            data.wf(),
            data.parts() == self.dataset().parts(),
            fails_alike(self.dataset(), &*data),
            charges_alike(self.dataset(), &*data),
        ensures
            derived(self, r),
            r.dataset() == *data,
    {
        proof {
            use_type_invariant(&self);
        }
        let n = self.lineage.n_partitions;
        let deps = one(Dependency::Narrow { parent: self.lineage.id });
        let parents = one(self.lineage);
        Rdd::new(self.ctx, n, deps, parents, None, data)
    }

    pub(crate) fn data(&self) -> (d: Arc<Box<dyn Dataset<T>>>)
        ensures
            d.wf(),
            *d == self.dataset(),
    {
        proof {
            use_type_invariant(self);
        }
        self.data.clone()
    }

    pub(crate) fn spill_limit(&self) -> (n: usize)
        ensures
            n == self.shared().limit(),
    {
        self.ctx.spill_limit_bytes()
    }

    pub(crate) fn threads(&self) -> (n: usize)
        ensures
            n == self.shared().threads(),
    {
        self.ctx.thread_limit()
    }

    pub(crate) fn counters(&self) -> (c: Arc<Counters>)
        ensures
            *c == self.shared().tally(),
    {
        self.ctx.counters()
    }

    /// A dataset of which every partition depends on all partitions of `self`.
    pub(crate) fn shuffled<U: 'static>(self, data: Arc<Box<dyn Dataset<U>>>) -> (r: Rdd<U>)
        requires
            data.wf(),
            data.parts() == self.dataset().parts(),
            whole_first(&*data),
            fails_first(self.dataset(), &*data),
        ensures
            derived_by_key(self, r),
            r.dataset() == *data,
    {
        proof {
            use_type_invariant(&self);
        }
        let n = self.lineage.n_partitions;
        let shuffle = self.ctx.alloc_shuffle();
        let partitioner = match HashPartitioner::new(n) {
            Ok(p) => Some(p),
            Err(_) => None,
        };
        let deps = one(Dependency::Shuffle { parent: self.lineage.id, shuffle });
        let parents = one(self.lineage);
        Rdd::new(self.ctx, n, deps, parents, partitioner, data)
    }

    /// The dataset of what `f` makes of each item.
    pub fn map<U: 'static, F: Fn(T) -> U + Send + Sync + 'static>(self, f: F) -> (r: Rdd<U>)
        requires
            accepts_items(self.dataset(), f),
        ensures
            derived(self, r),
            forall|out: Map<int, Seq<U>>| #[trigger]
                r.dataset().yields(out) <==> exists|a: Map<int, Seq<T>>|
                    self.dataset().yields(a) && #[trigger] each_part(mapping(f), a, out),
            forall|out: Map<int, Seq<U>>, p: int, items: Seq<U>| #[trigger]
                r.dataset().yields_some(out, p, items) <==> narrows_some(
                    self.dataset(),
                    mapping(f),
                    out,
                    p,
                    items,
                ),
    {
        proof {
            use_type_invariant(&self);
        }
        let d = map_items(self.data.clone(), f);
        self.narrow(d)
    }

    /// The dataset of those items of which `pred` holds.
    pub fn filter<F: Fn(&T) -> bool + Send + Sync + 'static>(self, pred: F) -> (r: Rdd<T>)
        requires
            judges_items(self.dataset(), pred),
        ensures
            derived(self, r),
            forall|out: Map<int, Seq<T>>| #[trigger]
                r.dataset().yields(out) <==> exists|a: Map<int, Seq<T>>|
                    self.dataset().yields(a) && #[trigger] each_part(filtering(pred), a, out),
            forall|out: Map<int, Seq<T>>, p: int, items: Seq<T>| #[trigger]
                r.dataset().yields_some(out, p, items) <==> narrows_some(
                    self.dataset(),
                    filtering(pred),
                    out,
                    p,
                    items,
                ),
    {
        proof {
            use_type_invariant(&self);
        }
        let d = filter_items(self.data.clone(), pred);
        self.narrow(d)
    }

    /// The dataset of the items that `f` makes of each item, one after the other.
    pub fn flat_map<U: 'static, F: Fn(T) -> Vec<U> + Send + Sync + 'static>(self, f: F) -> (r: Rdd<
        U,
    >)
        requires
            accepts_items(self.dataset(), f),
        ensures
            derived(self, r),
            forall|out: Map<int, Seq<U>>| #[trigger]
                r.dataset().yields(out) <==> exists|a: Map<int, Seq<T>>|
                    self.dataset().yields(a) && #[trigger] each_part(flat_mapping(f), a, out),
            forall|out: Map<int, Seq<U>>, p: int, items: Seq<U>| #[trigger]
                r.dataset().yields_some(out, p, items) <==> narrows_some(
                    self.dataset(),
                    flat_mapping(f),
                    out,
                    p,
                    items,
                ),
    {
        proof {
            use_type_invariant(&self);
        }
        let d = flat_map_items(self.data.clone(), f);
        self.narrow(d)
    }

    /// The dataset with the partitions of `self` and then those of `other`, which must belong to
    /// the same context.
    pub fn union(self, other: Rdd<T>) -> (r: Rdd<T>)
        requires
            self.shared() == other.shared(),
            self.dataset().parts() + other.dataset().parts() <= usize::MAX,
        ensures
            r.shared() == self.shared(),
            r.dataset().parts() == self.dataset().parts() + other.dataset().parts(),
            fails_both(self.dataset(), other.dataset(), r.dataset()),
            charges_both(self.dataset(), other.dataset(), r.dataset()),
            self.shared().numbers_rdd(r.node().id),
            r.node().deps@ == seq![
                Dependency::Narrow { parent: self.node().id },
                Dependency::Narrow { parent: other.node().id },
            ],
            r.node().parents@ == seq![Arc::new(self.node()), Arc::new(other.node())],
            r.node().partitioner is None,
            forall|out: Map<int, Seq<T>>| #[trigger]
                r.dataset().yields(out) <==> within(out, r.dataset().parts())
                    && self.dataset().yields(below(out, self.dataset().parts()))
                    && other.dataset().yields(from_on(out, self.dataset().parts())),
            forall|out: Map<int, Seq<T>>, p: int, items: Seq<T>| #[trigger]
                r.dataset().yields_some(out, p, items) <==> joins_some(
                    self.dataset(),
                    other.dataset(),
                    out,
                    p,
                    items,
                ),
    {
        proof {
            use_type_invariant(&self);
            use_type_invariant(&other);
        }
        let n1 = self.lineage.n_partitions;
        let n2 = other.lineage.n_partitions;
        let mut deps = one(Dependency::Narrow { parent: self.lineage.id });
        deps.push(Dependency::Narrow { parent: other.lineage.id });
        let mut parents = one(self.lineage);
        parents.push(other.lineage);
        let d = union(self.data, other.data, n1);
        Rdd::new(self.ctx, n1 + n2, deps, parents, None, d)
    }
}

/// One evaluation of the first partitions of `d` may give `parts`.
pub open spec fn evaluates_first<T>(d: &Box<dyn Dataset<T>>, parts: Seq<Seq<T>>) -> bool {
    parts.len() <= d.parts() && d.yields(part_map(parts))
}

/// `items` may be the first `n` items of `d`, where its partitions are `parts` up to one of which a
/// beginning is enough.
pub open spec fn takes_last<T>(
    d: &Box<dyn Dataset<T>>,
    parts: Seq<Seq<T>>,
    n: usize,
    items: Seq<T>,
) -> bool {
    exists|last: Seq<T>| #[trigger]
        d.yields_some(part_map(parts), parts.len() as int, last) && concat(parts).len() + last.len()
            >= n && items == first(concat(parts) + last, n as nat)
}

/// What taking `need` items of partition `p` of `e` may come to.
spec fn computes_some<T>(
    e: &Box<dyn Evaluation<T>>,
    p: int,
    need: usize,
    r: Result<Vec<T>, Error>,
) -> bool {
    match r {
        Ok(v) => e.charges(p) && {
            ||| v@.len() < need && e.gives(p, v@)
            ||| exists|items: Seq<T>| #[trigger]
                e.begins(p, items) && items.len() >= need && v@ == items.take(need as int)
        },
        Err(x) => e.breaks(p, x),
    }
}

/// `o` may be how an attempt ends to take `need` items of partition `p` of `e`.
spec fn attempted_some<T>(
    e: &Box<dyn Evaluation<T>>,
    p: int,
    need: usize,
    o: Outcome<Vec<T>>,
) -> bool {
    exists|r: Result<Vec<T>, Error>| #[trigger] computes_some(e, p, need, r) && o == outcome_of(r)
}

proof fn lemma_attempted_some<T>(
    e: &Box<dyn Evaluation<T>>,
    p: int,
    need: usize,
    o: Outcome<Vec<T>>,
    r: Result<Vec<T>, Error>,
)
    requires
        0 <= p <= usize::MAX,
        attempted_some(e, p, need, o),
        partition_result(p as usize, o, r),
    ensures
        match r {
            Ok(v) => computes_some(e, p, need, r),
            Err(x) => exists|y: Error| #[trigger] e.breaks(p, y) && task_error(p, y, x),
        },
{
    let x = choose|x: Result<Vec<T>, Error>| #[trigger]
        computes_some(e, p, need, x) && o == outcome_of(x);
    if x is Err {
        let y = x->Err_0;
        if y is Panic {
            assert(panic_text(o->Panicked_0) == y->Panic_message@);
        }
        assert(task_error(p, y, r->Err_0));
    }
}

proof fn lemma_rows_take<T>(v: Seq<Vec<T>>, k: int)
    requires
        0 <= k <= v.len(),
    ensures
        rows(v.take(k)) == rows(v).take(k),
        k < v.len() ==> concat(rows(v.take(k + 1))) == concat(rows(v.take(k))) + v[k]@,
{
    assert(rows(v.take(k)) =~= rows(v).take(k));
    if k < v.len() {
        assert(rows(v.take(k + 1)) =~= rows(v.take(k)).push(v[k]@));
        lemma_concat_push(rows(v.take(k)), v[k]@);
    }
}

proof fn lemma_concat_grows<T>(parts: Seq<Seq<T>>, a: int, b: int)
    requires
        0 <= a <= b <= parts.len(),
    ensures
        concat(parts.take(a)).len() <= concat(parts.take(b)).len(),
    decreases b - a,
{
    if a < b {
        lemma_concat_grows(parts, a, b - 1);
        assert(parts.take(b) =~= parts.take(b - 1).push(parts[b - 1]));
        lemma_concat_push(parts.take(b - 1), parts[b - 1]);
    }
}

/// `got` may be what is taken of the first partitions of `e`, one after the other.
spec fn taken_parts<T>(e: &Box<dyn Evaluation<T>>, n: usize, got: Seq<Vec<T>>) -> bool {
    forall|q: int|
        #![trigger got[q]]
        0 <= q < got.len() ==> taken_part(e, q, concat(rows(got.take(q))).len(), n, got[q])
}

spec fn taken_part<T>(
    e: &Box<dyn Evaluation<T>>,
    q: int,
    before: nat,
    n: usize,
    v: Vec<T>,
) -> bool {
    before < n && computes_some(e, q, (n - before) as usize, Ok(v))
}

proof fn lemma_taken_parts<T, F: Fn(usize, usize) -> Outcome<Vec<T>>>(
    e: &Box<dyn Evaluation<T>>,
    compute: F,
    n: usize,
    got: Seq<Vec<T>>,
)
    requires
        forall|p: usize, need: usize, o: Outcome<Vec<T>>| #[trigger]
            call_ensures(compute, (p, need), o) ==> attempted_some(e, p as int, need, o),
        computed_first(compute, n, got),
        got.len() <= usize::MAX,
    ensures
        taken_parts(e, n, got),
{
    assert forall|q: int| #![trigger got[q]] 0 <= q < got.len() implies taken_part(
        e,
        q,
        concat(rows(got.take(q))).len(),
        n,
        got[q],
    ) by {
        let before = concat(rows(got.take(q))).len();
        let need = (n - before) as usize;
        let v = got[q];
        assert(call_ensures(compute, (q as usize, need), Outcome::Finished(Ok(v))));
        lemma_attempted_some(e, q, need, Outcome::Finished(Ok(v)), Ok(v));
    }
}

/// What was taken of all partitions but the last was all of them.
proof fn lemma_taken_whole<T>(
    d: &Box<dyn Dataset<T>>,
    e: &Box<dyn Evaluation<T>>,
    n: usize,
    got: Seq<Vec<T>>,
    k: int,
)
    requires
        e.parts() == d.parts(),
        got.len() <= e.parts(),
        forall|out: Map<int, Seq<T>>|
            (forall|p: int| #[trigger]
                out.contains_key(p) ==> 0 <= p < e.parts() && e.gives(p, out[p]))
                ==> #[trigger] d.yields(out),
        taken_parts(e, n, got),
        0 <= k <= got.len(),
        concat(rows(got.take(k))).len() < n,
    ensures
        evaluates_first(d, rows(got.take(k))),
        forall|q: int| #[trigger]
            part_map(rows(got.take(k))).contains_key(q) ==> 0 <= q < e.parts() && e.gives(
                q,
                part_map(rows(got.take(k)))[q],
            ),
{
    let parts = rows(got.take(k));
    let m = part_map(parts);
    assert forall|q: int| #[trigger] m.contains_key(q) implies 0 <= q < e.parts() && e.gives(
        q,
        m[q],
    ) by {
        let v = got[q];
        assert(taken_part(e, q, concat(rows(got.take(q))).len(), n, v));
        lemma_rows_take(got, q);
        lemma_rows_take(got, q + 1);
        lemma_rows_take(got, k);
        lemma_concat_grows(rows(got), q + 1, k);
        assert(m[q] == v@);
    }
}

/// What was taken are the first items.
proof fn lemma_taken<T>(
    d: &Box<dyn Dataset<T>>,
    e: &Box<dyn Evaluation<T>>,
    n: usize,
    got: Seq<Vec<T>>,
    v: Seq<T>,
)
    requires
        n > 0,
        e.parts() == d.parts(),
        got.len() <= e.parts(),
        forall|out: Map<int, Seq<T>>|
            (forall|p: int| #[trigger]
                out.contains_key(p) ==> 0 <= p < e.parts() && e.gives(p, out[p]))
                ==> #[trigger] d.yields(out),
        forall|out: Map<int, Seq<T>>, p: int, items: Seq<T>|
            (forall|q: int| #[trigger]
                out.contains_key(q) ==> 0 <= q < e.parts() && e.gives(q, out[q])) && 0 <= p
                < e.parts() && e.begins(p, items) ==> #[trigger] d.yields_some(out, p, items),
        d.charges(),
        forall|p: int| 0 <= p < e.parts() && #[trigger] e.charges(p) ==> d.part_charges(p),
        taken_parts(e, n, got),
        v == first(concat(rows(got)), n as nat),
        got.len() == e.parts() || concat(rows(got)).len() >= n,
    ensures
        exists|parts: Seq<Seq<T>>| #[trigger]
            evaluates_first(d, parts) && concat(parts).len() < n && ((parts.len() == d.parts() && v
                == concat(parts) && charged(d, parts.len())) || (takes_last(d, parts, n, v)
                && charged(d, parts.len() + 1))),
{
    assert forall|q: int| 0 <= q < got.len() implies #[trigger] d.part_charges(q) by {
        assert(taken_part(e, q, concat(rows(got.take(q))).len(), n, got[q]));
    }
    assert(got.take(got.len() as int) =~= got);
    let all = concat(rows(got));
    if all.len() < n {
        lemma_taken_whole(d, e, n, got, got.len() as int);
        assert(evaluates_first(d, rows(got)));
    } else {
        if got.len() == 0 {
            assert(rows(got) =~= Seq::<Seq<T>>::empty());
        }
        let p = got.len() - 1;
        let parts = rows(got.take(p));
        let w = got[p];
        assert(taken_part(e, p, concat(parts).len(), n, w));
        lemma_rows_take(got, p);
        lemma_taken_whole(d, e, n, got, p);
        let before = concat(parts).len();
        let need = (n - before) as usize;
        assert(all == concat(parts) + w@);
        let items = choose|items: Seq<T>| #[trigger]
            e.begins(p, items) && items.len() >= need && w@ == items.take(need as int);
        assert(d.yields_some(part_map(parts), p, items));
        assert(first(all, n as nat) =~= first(concat(parts) + items, n as nat));
        assert(parts.len() == p);
        assert(takes_last(d, parts, n, v));
    }
}

/// A partition of which nothing could be taken is one that fails.
proof fn lemma_not_taken<T, F: Fn(usize, usize) -> Outcome<Vec<T>>>(
    d: &Box<dyn Dataset<T>>,
    e: &Box<dyn Evaluation<T>>,
    compute: F,
    n: usize,
    got: Seq<Vec<T>>,
    x: Error,
)
    requires
        e.parts() == d.parts(),
        e.parts() <= usize::MAX,
        got.len() < e.parts(),
        forall|p: usize, need: usize, o: Outcome<Vec<T>>| #[trigger]
            call_ensures(compute, (p, need), o) ==> attempted_some(e, p as int, need, o),
        forall|out: Map<int, Seq<T>>|
            (forall|p: int| #[trigger]
                out.contains_key(p) ==> 0 <= p < e.parts() && e.gives(p, out[p]))
                ==> #[trigger] d.yields(out),
        forall|p: int, y: Error|
            0 <= p < e.parts() && #[trigger] e.breaks(p, y) ==> d.breaks(p, y),
        taken_parts(e, n, got),
        concat(rows(got)).len() < n,
        exists|o: Outcome<Vec<T>>|
            #[trigger] call_ensures(
                compute,
                (got.len() as usize, (n - concat(rows(got)).len()) as usize),
                o,
            ) && partition_result(got.len() as usize, o, Err::<Vec<T>, Error>(x)),
    ensures
        evaluates_first(d, rows(got)),
        exists|y: Error| #[trigger]
            d.breaks(got.len() as int, y) && task_error(got.len() as int, y, x),
{
    assert(got.take(got.len() as int) =~= got);
    lemma_taken_whole(d, e, n, got, got.len() as int);
    let p = got.len() as int;
    let need = (n - concat(rows(got)).len()) as usize;
    let o = choose|o: Outcome<Vec<T>>|
        #[trigger] call_ensures(compute, (p as usize, need), o) && partition_result(
            p as usize,
            o,
            Err::<Vec<T>, Error>(x),
        );
    lemma_attempted_some(e, p, need, o, Err::<Vec<T>, Error>(x));
    let y = choose|y: Error| #[trigger] e.breaks(p, y) && task_error(p, y, x);
    assert(d.breaks(p, y));
}

/// What the items of each partition may fold to.
pub open spec fn part_folds<T>(
    merge: spec_fn(T, T, T) -> bool,
    parts: Seq<Seq<T>>,
    partials: Seq<Option<T>>,
) -> bool {
    &&& partials.len() == parts.len()
    &&& forall|p: int|
        0 <= p < parts.len() ==> match #[trigger] partials[p] {
            Some(v) => folded(keeps(), merge, parts[p], v),
            None => parts[p].len() == 0,
        }
}

/// The partitions come to something exactly if one of them holds an item.
pub proof fn lemma_nothing_folded<T>(
    merge: spec_fn(T, T, T) -> bool,
    parts: Seq<Seq<T>>,
    partials: Seq<Option<T>>,
)
    requires
        part_folds(merge, parts, partials),
    ensures
        somes(partials).len() == 0 <==> concat(parts).len() == 0,
    decreases parts.len(),
{
    if parts.len() > 0 {
        let last = parts.len() - 1;
        assert forall|p: int|
            0 <= p < parts.drop_last().len() implies match #[trigger] partials.drop_last()[p] {
            Some(v) => folded(keeps(), merge, parts.drop_last()[p], v),
            None => parts.drop_last()[p].len() == 0,
        } by {
            assert(partials[p] == partials.drop_last()[p]);
        }
        lemma_nothing_folded(merge, parts.drop_last(), partials.drop_last());
        assert(match partials[last] {
            Some(v) => folded(keeps(), merge, parts[last], v),
            None => parts[last].len() == 0,
        });
    }
}

/// `f` can be called whenever the items of `d` are folded: on the items of each partition, and on
/// what the partitions come to.
pub open spec fn folds_items<T, F: Fn(T, T) -> T>(d: &Box<dyn Dataset<T>>, f: F) -> bool {
    &&& forall|p: int, items: Seq<T>| #[trigger]
        d.yields(map![p => items]) ==> foldable(keeps_on(), keeps(), merges_on(f), merges(f), items)
    &&& forall|parts: Seq<Seq<T>>, partials: Seq<Option<T>>|
        evaluates(d, parts) && #[trigger] part_folds(merges(f), parts, partials) ==> foldable(
            keeps_on(),
            keeps(),
            merges_on(f),
            merges(f),
            somes(partials),
        )
}

/// The error of a result.
pub open spec fn failure<A>(r: Result<A, Error>) -> Option<Error> {
    match r {
        Ok(_) => None,
        Err(e) => Some(e),
    }
}

/// A job was numbered, and its tasks were counted: those that came to a value, or one that failed.
pub open spec fn job_counted(c: Counters, success: bool) -> bool {
    numbered(c) && task_counted(c, success)
}

/// What an evaluation of all partitions of `d` counts for, whether or not it fails: unless the work
/// that its partitions share failed, it is a job.
pub open spec fn evaluation_counted<T>(
    d: &Box<dyn Dataset<T>>,
    c: Counters,
    e: Option<Error>,
) -> bool {
    match e {
        None => job_counted(c, true) && charged(d, d.parts()),
        Some(x) => d.jams(x) || job_counted(c, false) && d.charges(),
    }
}

impl<T: 'static> Rdd<T> {
    /// Starts an evaluation by doing the work that its partitions share.
    pub fn prepare(&self, cancel: Option<&AtomicBool>) -> (r: Result<
        Arc<Box<dyn Evaluation<T>>>,
        Error,
    >)
        ensures
            match r {
                Ok(e) => {
                    &&& e.wf()
                    &&& e.parts() == self.dataset().parts()
                    &&& forall|out: Map<int, Seq<T>>|
                        (forall|p: int| #[trigger]
                            out.contains_key(p) ==> 0 <= p < e.parts() && e.gives(p, out[p]))
                            ==> #[trigger] self.dataset().yields(out)
                    &&& forall|out: Map<int, Seq<T>>, p: int, items: Seq<T>|
                        (forall|q: int| #[trigger]
                            out.contains_key(q) ==> 0 <= q < e.parts() && e.gives(q, out[q])) && 0
                            <= p < e.parts() && e.begins(p, items)
                            ==> #[trigger] self.dataset().yields_some(out, p, items)
                    &&& forall|p: int, x: Error|
                        0 <= p < e.parts() && #[trigger] e.breaks(p, x) ==> self.dataset().breaks(
                            p,
                            x,
                        )
                    &&& self.dataset().charges()
                    &&& forall|p: int|
                        0 <= p < e.parts() && #[trigger] e.charges(p)
                            ==> self.dataset().part_charges(p)
                },
                Err(x) => cut_short(cancel, x) || self.dataset().jams(x),
            },
    {
        proof {
            use_type_invariant(self);
        }
        self.data.open(cancel)
    }

    /// Computes all partitions, as the tasks of a job.
    fn evaluate(&self) -> (r: Result<Vec<Vec<T>>, Error>)
        ensures
            match r {
                Ok(parts) => evaluates(self.dataset(), rows(parts@)) && forall|p: int|
                    0 <= p < parts@.len() ==> self.dataset().yields(
                        map![p => (#[trigger] parts@[p])@],
                    ),
                Err(x) => fails(self.dataset(), x),
            },
            evaluation_counted(self.dataset(), self.shared().tally(), failure(r)),
    {
        let n = self.get_num_partitions();
        let e = match self.prepare(None) {
            Ok(e) => e,
            Err(x) => return Err(x),
        };
        let compute = |p: usize| -> (r: Result<Vec<T>, Error>)
            requires
                p < e.parts(),
            ensures
                computes(&*e, p as int, None, r),
            { e.compute(p, None) };
        let counters = self.counters();
        let r = run_job(n, self.threads(), None, &counters, &compute);
        proof {
            if r is Ok {
                let parts = r->Ok_0@;
                assert forall|q: int| 0 <= q < parts.len() implies e.gives(
                    q,
                    (#[trigger] parts[q])@,
                ) && e.charges(q) by {
                    let p = q as usize;
                    assert(task_gives(compute, p, Ok(parts[p as int])));
                }
                let out = part_map(rows(parts));
                assert forall|q: int| #[trigger] out.contains_key(q) implies 0 <= q < e.parts()
                    && e.gives(q, out[q]) by {
                    let _ = parts[q];
                }
                assert forall|q: int| 0 <= q < parts.len() implies self.dataset().yields(
                    map![q => (#[trigger] parts[q])@],
                ) by {
                    let one = map![q => parts[q]@];
                    assert forall|p: int| #[trigger] one.contains_key(p) implies 0 <= p < e.parts()
                        && e.gives(p, one[p]) by {}
                }
                assert forall|q: int| 0 <= q < n implies #[trigger] self.dataset().part_charges(
                    q,
                ) by {
                    let _ = parts[q];
                }
            } else {
                let x = r->Err_0;
                let p = choose|p: usize|
                    p < n && #[trigger] task_gives(compute, p, Err::<Vec<T>, Error>(x));
                let y = choose|y: Error| #[trigger]
                    call_ensures(compute, (p,), Err::<Vec<T>, Error>(y)) && task_error(
                        p as int,
                        y,
                        x,
                    );
                assert(e.breaks(p as int, y));
                assert(self.dataset().breaks(p as int, y));
                assert(task_fails(self.dataset(), x));
            }
        }
        r
    }

    /// Takes part in a job of the driver: the tasks of this rank, which compute nothing, are
    /// counted.
    fn stand_by(&self)
        ensures
            job_counted(self.shared().tally(), true),
    {
        let n = self.get_num_partitions();
        let nothing = |p: usize| -> (r: Result<(), Error>)
            ensures
                r is Ok,
            { Ok(()) };
        let counters = self.counters();
        let r = run_job(n, self.threads(), None, &counters, &nothing);
        proof {
            if r is Err {
                let e = r->Err_0;
                let p = choose|p: usize|
                    p < n && #[trigger] task_gives(nothing, p, Err::<(), Error>(e));
                let y = choose|y: Error| #[trigger]
                    call_ensures(nothing, (p,), Err::<(), Error>(y)) && task_error(p as int, y, e);
            }
        }
    }

    /// What an action that evaluates all partitions counts for, whether or not it fails. Ranks other
    /// than the driver count tasks that compute nothing.
    pub open spec fn counts(&self, e: Option<Error>) -> bool {
        if self.shared().computes() {
            evaluation_counted(self.dataset(), self.shared().tally(), e)
        } else {
            job_counted(self.shared().tally(), true)
        }
    }

    /// All items, partition after partition. Ranks other than the driver get none.
    pub fn collect(&self) -> (r: Result<Vec<T>, Error>)
        ensures
            match r {
                Ok(v) => if self.shared().computes() {
                    exists|parts: Seq<Seq<T>>| #[trigger]
                        evaluates(self.dataset(), parts) && v@ == concat(parts)
                } else {
                    v@.len() == 0
                },
                Err(e) => self.shared().computes() && fails(self.dataset(), e),
            },
            self.counts(failure(r)),
    {
        if !self.ctx.owns() {
            self.stand_by();
            return Ok(Vec::new());
        }
        match self.evaluate() {
            Ok(parts) => Ok(concat_parts(parts)),
            Err(e) => Err(e),
        }
    }

    /// All items, gathered on the driver: `gather` exchanges what the ranks of a cluster have
    /// collected.
    pub fn collect_to_driver<G: Fn(Vec<T>) -> Result<Vec<T>, Error>>(&self, gather: &G) -> (r:
        Result<Vec<T>, Error>)
        requires
            forall|v: Vec<T>| call_requires(*gather, (v,)),
        ensures
            ({
                ||| exists|local: Vec<T>|
                    #![trigger local@]
                    (if self.shared().computes() {
                        exists|parts: Seq<Seq<T>>| #[trigger]
                            evaluates(self.dataset(), parts) && local@ == concat(parts)
                    } else {
                        local@.len() == 0
                    }) && self.counts(None) && if self.shared().place() is None {
                        r matches Ok(v) && v == local
                    } else {
                        call_ensures(*gather, (local,), r)
                    }
                ||| r matches Err(e) && self.shared().computes() && fails(self.dataset(), e)
                    && self.counts(Some(e))
            }),
    {
        let local = match self.collect() {
            Ok(v) => v,
            Err(e) => return Err(e),
        };
        let ghost seen = local@;
        if self.ctx.in_cluster() {
            gather(local)
        } else {
            Ok(local)
        }
    }

    /// The number of items.
    pub fn count(&self) -> (r: Result<usize, Error>)
        ensures
            if self.shared().computes() {
                ||| exists|parts: Seq<Seq<T>>| #[trigger]
                    evaluates(self.dataset(), parts) && self.counts(None) && match r {
                        Ok(n) => n == concat(parts).len(),
                        Err(e) => e is CountOverflow && concat(parts).len() > usize::MAX,
                    }
                ||| r matches Err(e) && fails(self.dataset(), e) && self.counts(Some(e))
            } else {
                r == Ok::<usize, Error>(0) && self.counts(None)
            },
    {
        if !self.ctx.owns() {
            self.stand_by();
            return Ok(0);
        }
        let parts = match self.evaluate() {
            Ok(parts) => parts,
            Err(e) => return Err(e),
        };
        let mut sizes: Vec<usize> = Vec::new();
        let mut p: usize = 0;
        while p < parts.len()
            invariant
                p <= parts@.len(),
                sizes@.len() == p,
                forall|q: int| 0 <= q < p ==> #[trigger] sizes@[q] == parts@[q]@.len(),
            decreases parts@.len() - p,
        {
            sizes.push(parts[p].len());
            p = p + 1;
        }
        proof {
            lemma_sum_of_lengths(rows(parts@), sizes@);
        }
        total(&sizes)
    }

    /// The first `n` items, or all where there are fewer. Partitions are computed one by one, and
    /// no more of them, or of the last one, than it takes; one that fails ends the work with its
    /// error.
    pub fn take(&self, n: usize) -> (r: Result<Vec<T>, Error>)
        ensures
            if n > 0 && self.shared().computes() {
                ||| exists|parts: Seq<Seq<T>>| #[trigger]
                    evaluates_first(self.dataset(), parts) && concat(parts).len() < n && match r {
                        Ok(v) => {
                            ||| parts.len() == self.dataset().parts() && v@ == concat(parts)
                                && charged(self.dataset(), parts.len())
                            ||| takes_last(self.dataset(), parts, n, v@) && charged(
                                self.dataset(),
                                parts.len() + 1,
                            )
                        },
                        Err(e) => parts.len() < self.dataset().parts() && exists|x: Error|
                            #[trigger] self.dataset().breaks(parts.len() as int, x) && task_error(
                                parts.len() as int,
                                x,
                                e,
                            ),
                    }
                ||| r matches Err(e) && self.dataset().jams(e)
            } else {
                r matches Ok(v) && v@.len() == 0
            },
    {
        if n == 0 || !self.ctx.owns() {
            return Ok(Vec::new());
        }
        let n_parts = self.get_num_partitions();
        let e = match self.prepare(None) {
            Ok(e) => e,
            Err(x) => return Err(x),
        };
        let compute = |p: usize, need: usize| -> (o: Outcome<Vec<T>>)
            requires
                p < e.parts(),
                need > 0,
            ensures
                attempted_some(&*e, p as int, need, o),
            {
                let r = match e.part(p, None) {
                    Ok(part) => take_items(part, need, None),
                    Err(x) => Err(x),
                };
                assert(computes_some(&*e, p as int, need, r));
                as_outcome(r)
            };
        let r = take_first(n_parts, n, &compute);
        proof {
            let got = choose|parts: Seq<Vec<T>>|
                parts.len() <= n_parts && #[trigger] computed_first(compute, n, parts) && match r {
                    Ok(v) => v@ == first(concat(rows(parts)), n as nat) && (parts.len() == n_parts
                        || concat(rows(parts)).len() >= n),
                    Err(e) => {
                        let before = concat(rows(parts)).len();
                        parts.len() < n_parts && before < n && exists|o: Outcome<Vec<T>>|
                            #[trigger] call_ensures(
                                compute,
                                (parts.len() as usize, (n - before) as usize),
                                o,
                            ) && partition_result(
                                parts.len() as usize,
                                o,
                                Err::<Vec<T>, Error>(e),
                            )
                    },
                };
            lemma_taken_parts(&*e, compute, n, got);
            if r is Ok {
                lemma_taken(self.dataset(), &*e, n, got, r->Ok_0@);
            } else {
                lemma_not_taken(self.dataset(), &*e, compute, n, got, r->Err_0);
            }
        }
        r
    }

    /// Folds all items with `f`: those of each partition in order, and then what the partitions
    /// came to.
    pub fn reduce<F: Fn(T, T) -> T + Send + Sync + 'static>(&self, f: F) -> (r: Result<T, Error>)
        requires
            folds_items(self.dataset(), f),
        ensures
            if self.shared().computes() {
                ||| exists|parts: Seq<Seq<T>>, partials: Seq<Option<T>>|
                    evaluates(self.dataset(), parts) && #[trigger] part_folds(
                        merges(f),
                        parts,
                        partials,
                    ) && match r {
                        Ok(v) => folded(keeps(), merges(f), somes(partials), v),
                        Err(e) => e is EmptyRdd && concat(parts).len() == 0,
                    } && self.counts(None)
                ||| r matches Err(e) && fails(self.dataset(), e) && self.counts(Some(e))
            } else {
                r matches Err(e) && e is EmptyRdd && self.counts(None)
            },
    {
        if !self.ctx.owns() {
            self.stand_by();
            return Err(Error::EmptyRdd);
        }
        let parts = match self.evaluate() {
            Ok(parts) => parts,
            Err(e) => return Err(e),
        };
        let ghost all = rows(parts@);
        let ghost src = parts@;
        let mut partials: Vec<Option<T>> = Vec::new();
        for items in it: parts
            invariant
                it.seq() == src,
                all == rows(src),
                evaluates(self.dataset(), all),
                self.shared().computes(),
                self.counts(None),
                forall|p: int|
                    0 <= p < src.len() ==> self.dataset().yields(map![p => (#[trigger] src[p])@]),
                folds_items(self.dataset(), f),
                partials@.len() == it.index(),
                forall|p: int|
                    0 <= p < it.index() ==> match #[trigger] partials@[p] {
                        Some(v) => folded(keeps(), merges(f), all[p], v),
                        None => all[p].len() == 0,
                    },
        {
            let ghost p = it.index() as int;
            assert(src[p] == items);
            assert(self.dataset().yields(map![p => items@]));
            match fold_items(items, &f, None) {
                Ok(v) => partials.push(v),
                Err(_) => vstd::pervasive::unreached(),
            }
        }
        proof {
            assert(part_folds(merges(f), all, partials@));
            lemma_nothing_folded(merges(f), all, partials@);
        }
        fold_partials(partials, &f)
    }
}

// ---- lineage

/// A dataset that was derived partition by partition says so: it depends on its parent, by the
/// parent's id, and holds the parent's lineage.
pub proof fn lemma_derived_lineage<T, U>(parent: Rdd<T>, child: Rdd<U>)
    requires
        derived(parent, child),
    ensures
        child.node().deps@.len() == 1,
        child.node().deps@[0] == (Dependency::Narrow { parent: parent.node().id }),
        child.node().parents@.len() == 1,
        *child.node().parents@[0] == parent.node(),
        behind(&child.node(), parent.node()),
        child.node().partitioner is None,
{
    let node = child.node();
    assert(*node.parents@[0] == parent.node());
}

/// A dataset that was derived through a shuffle needs a stage that computes its parent: one task for
/// each partition of the parent, and no other stage writes the shuffle.
pub proof fn lemma_shuffled_lineage<T, U>(parent: Rdd<T>, child: Rdd<U>) -> (r: (ShuffleId, int))
    requires
        derived_by_key(parent, child),
        told_apart(&child.node()),
        child.node().deps@[0] matches Dependency::Shuffle { parent: p, shuffle } && only_reader(
            &child.node(),
            child.node(),
            0,
            shuffle,
        ),
    ensures
        child.node().deps@ == seq![Dependency::Shuffle { parent: parent.node().id, shuffle: r.0 }],
        0 <= r.1 < stages_of(child.node()).len() - 1,
        stages_of(child.node())[r.1].kind == (StageKind::ShuffleMap { shuffle: r.0 }),
        stages_of(child.node())[r.1].rdd_id == parent.node().id,
        stages_of(child.node())[r.1].n_partitions == parent.node().n_partitions,
        child.node().partitioner matches Some(h) && h.partitions() == parent.dataset().parts(),
{
    let node = child.node();
    let id = parent.node().id;
    let shuffle = node.deps@[0]->Shuffle_shuffle;
    let i = lemma_shuffle_stage(node, node, 0, id, shuffle);
    assert(node.parents@[0].id == id);
    assert(node.deps@ =~= seq![Dependency::Shuffle { parent: id, shuffle }]);
    (shuffle, i)
}

/// A job that succeeds is counted: it has a number, its last task was tried at most three times and
/// succeeded, and the dataset was computed from its sources on.
pub proof fn lemma_success_counted<T>(d: &Box<dyn Dataset<T>>, c: Counters) -> (r: (u64, u32))
    requires
        evaluation_counted(d, c, None),
    ensures
        c.numbers_job(r.0),
        r.1 < 3,
        c.grew(start_growth(r.1)),
        ended(c, true),
        d.charges(),
        forall|p: int| 0 <= p < d.parts() ==> #[trigger] d.part_charges(p),
{
    let job = choose|job: u64| c.numbers_job(job);
    let last = choose|last: u32| #[trigger] tried(c, last, true);
    lemma_tried(c, last, true);
    (job, last)
}

/// Where the partitions before the last one do not hold enough items, taking gives `n` of them: all
/// items of these partitions, and then the first of the last one.
pub proof fn lemma_takes_last<T>(
    d: &Box<dyn Dataset<T>>,
    parts: Seq<Seq<T>>,
    n: usize,
    items: Seq<T>,
) -> (last: Seq<T>)
    requires
        takes_last(d, parts, n, items),
        concat(parts).len() < n,
    ensures
        d.yields_some(part_map(parts), parts.len() as int, last),
        items.len() == n,
        parts.flatten().is_prefix_of(items),
        items.is_prefix_of(parts.flatten() + last),
{
    let last = choose|last: Seq<T>| #[trigger]
        d.yields_some(part_map(parts), parts.len() as int, last) && concat(parts).len() + last.len()
            >= n && items == first(concat(parts) + last, n as nat);
    lemma_first(concat(parts) + last, n as nat);
    lemma_concat_flattens(parts);
    assert(concat(parts) =~= items.subrange(0, concat(parts).len() as int));
    last
}

} // verus!
