//! What holds of datasets as a whole.
use vstd::prelude::*;

use crate::actions::somes;
use crate::combine::{by_view, folded, keeps, values_of};
use crate::context::{chunk, holds_chunks};
use crate::dataset::{
    below, cloned_all, each_part, evaluates, expanded, filtered, filtering, flat_mapped,
    flat_mapping, from_on, judged, kept, lemma_kept_add, lemma_narrow_evaluation, mapped, mapping, part_map,
    within, Dataset,
};
use crate::folds::{
    all_records, associative, images, left_fold, lemma_fold_add, lemma_folded_meaning,
    lemma_shuffled_sums, stands_for,
};
use crate::jobs::{attempt_counted, tried};
use crate::key::{bucket_of, ShuffleKey};
use crate::metrics::{map_growth, start_growth, Counters};
use crate::partition::lemma_split_covers;
use crate::rdd::part_folds;
use crate::seqs::{concat, lemma_concat_add, rows};
use crate::shuffle::{capped_count, emitted, lemma_emitted_bounds};
use crate::shuffled::{copied, shuffle_charges, shuffle_yields, shuffled};

verus! {

// ---- sources

/// Collecting what was parallelized gives the data back in its order, cloned item by item.
pub proof fn lemma_parallelize_collect<T: Clone>(
    d: &Box<dyn Dataset<T>>,
    data: Seq<T>,
    n: nat,
    parts: Seq<Seq<T>>,
)
    requires
        n > 0,
        d.parts() == n,
        forall|out: Map<int, Seq<T>>| #[trigger] d.yields(out) <==> holds_chunks(data, n, out),
        evaluates(d, parts),
    ensures
        cloned_all(data, concat(parts)),
{
    let chunks = Seq::new(n, |p: int| chunk(data, n, p));
    assert(holds_chunks(data, n, part_map(parts)));
    assert forall|p: int| 0 <= p < n implies cloned_all(#[trigger] chunks[p], parts[p]) by {
        assert(part_map(parts).contains_key(p));
    }
    lemma_split_covers(data, n, chunks);
    lemma_cloned_concat(chunks, parts);
}

proof fn lemma_cloned_concat<T: Clone>(a: Seq<Seq<T>>, b: Seq<Seq<T>>)
    requires
        a.len() == b.len(),
        forall|p: int| 0 <= p < a.len() ==> cloned_all(#[trigger] a[p], b[p]),
    ensures
        cloned_all(concat(a), concat(b)),
    decreases a.len(),
{
    if a.len() > 0 {
        assert forall|p: int| 0 <= p < a.drop_last().len() implies cloned_all(
            #[trigger] a.drop_last()[p],
            b.drop_last()[p],
        ) by {
            assert(a[p] == a.drop_last()[p]);
        }
        lemma_cloned_concat(a.drop_last(), b.drop_last());
        assert(cloned_all(a[a.len() - 1], b[a.len() - 1]));
    }
}

// ---- transformations

/// Collecting a mapped dataset maps what its parent collects, in the same order.
pub proof fn lemma_map_collect<T, U, F: Fn(T) -> U>(
    parent: &Box<dyn Dataset<T>>,
    child: &Box<dyn Dataset<U>>,
    f: F,
    parts: Seq<Seq<U>>,
) -> (inp: Seq<Seq<T>>)
    requires
        child.parts() == parent.parts(),
        forall|out: Map<int, Seq<U>>| #[trigger]
            child.yields(out) <==> exists|a: Map<int, Seq<T>>|
                parent.yields(a) && #[trigger] each_part(mapping(f), a, out),
        evaluates(child, parts),
    ensures
        evaluates(parent, inp),
        mapped(f, concat(inp), concat(parts)),
{
    let inp = lemma_narrow_evaluation(parent, child, mapping(f), parts);
    assert forall|p: int| 0 <= p < inp.len() implies mapped(f, #[trigger] inp[p], parts[p]) by {
        assert(mapping(f)(inp[p], parts[p]));
    }
    lemma_mapped_concat(f, inp, parts);
    inp
}

proof fn lemma_mapped_concat<T, U, F: Fn(T) -> U>(f: F, a: Seq<Seq<T>>, b: Seq<Seq<U>>)
    requires
        a.len() == b.len(),
        forall|p: int| 0 <= p < a.len() ==> mapped(f, #[trigger] a[p], b[p]),
    ensures
        mapped(f, concat(a), concat(b)),
    decreases a.len(),
{
    if a.len() > 0 {
        assert forall|p: int| 0 <= p < a.drop_last().len() implies mapped(
            f,
            #[trigger] a.drop_last()[p],
            b.drop_last()[p],
        ) by {
            assert(a[p] == a.drop_last()[p]);
        }
        lemma_mapped_concat(f, a.drop_last(), b.drop_last());
        assert(mapped(f, a[a.len() - 1], b[a.len() - 1]));
    }
}

proof fn lemma_filtered_concat<T, F: Fn(&T) -> bool>(pred: F, a: Seq<Seq<T>>, b: Seq<Seq<T>>)
    requires
        a.len() == b.len(),
        forall|p: int| 0 <= p < a.len() ==> filtered(pred, #[trigger] a[p], b[p]),
    ensures
        filtered(pred, concat(a), concat(b)),
    decreases a.len(),
{
    if a.len() > 0 {
        let (c, d) = (a.drop_last(), b.drop_last());
        assert forall|p: int| 0 <= p < c.len() implies filtered(pred, #[trigger] c[p], d[p]) by {
            assert(a[p] == c[p]);
        }
        lemma_filtered_concat(pred, c, d);
        let last = a.len() - 1;
        assert(filtered(pred, a[last], b[last]));
        let k1 = choose|k: Seq<bool>| #[trigger]
            judged(pred, concat(c), k) && concat(d) == kept(concat(c), k);
        let k2 = choose|k: Seq<bool>| #[trigger]
            judged(pred, a[last], k) && b[last] == kept(a[last], k);
        lemma_kept_add(concat(c), k1, a[last], k2);
        let all = concat(c) + a[last];
        assert forall|i: int| 0 <= i < all.len() implies call_ensures(
            pred,
            (&all[i],),
            #[trigger] (k1 + k2)[i],
        ) by {
            if i < k1.len() {
                assert((k1 + k2)[i] == k1[i]);
            } else {
                assert((k1 + k2)[i] == k2[i - k1.len()]);
            }
        }
        assert(judged(pred, concat(a), k1 + k2));
    } else {
        let none = Seq::<bool>::empty();
        assert(judged(pred, concat(a), none));
        assert(concat(b) =~= kept(concat(a), none));
    }
}

/// Collecting a filtered dataset filters what its parent collects, in the same order.
pub proof fn lemma_filter_collect<T, F: Fn(&T) -> bool>(
    parent: &Box<dyn Dataset<T>>,
    child: &Box<dyn Dataset<T>>,
    pred: F,
    parts: Seq<Seq<T>>,
) -> (inp: Seq<Seq<T>>)
    requires
        child.parts() == parent.parts(),
        forall|out: Map<int, Seq<T>>| #[trigger]
            child.yields(out) <==> exists|a: Map<int, Seq<T>>|
                parent.yields(a) && #[trigger] each_part(filtering(pred), a, out),
        evaluates(child, parts),
    ensures
        evaluates(parent, inp),
        filtered(pred, concat(inp), concat(parts)),
{
    let inp = lemma_narrow_evaluation(parent, child, filtering(pred), parts);
    assert forall|p: int| 0 <= p < inp.len() implies filtered(
        pred,
        #[trigger] inp[p],
        parts[p],
    ) by {
        assert(filtering(pred)(inp[p], parts[p]));
    }
    lemma_filtered_concat(pred, inp, parts);
    inp
}

proof fn lemma_flat_mapped_concat<T, U, F: Fn(T) -> Vec<U>>(
    f: F,
    a: Seq<Seq<T>>,
    b: Seq<Seq<U>>,
)
    requires
        a.len() == b.len(),
        forall|p: int| 0 <= p < a.len() ==> flat_mapped(f, #[trigger] a[p], b[p]),
    ensures
        flat_mapped(f, concat(a), concat(b)),
    decreases a.len(),
{
    if a.len() > 0 {
        let (c, d) = (a.drop_last(), b.drop_last());
        assert forall|p: int| 0 <= p < c.len() implies flat_mapped(f, #[trigger] c[p], d[p]) by {
            assert(a[p] == c[p]);
        }
        lemma_flat_mapped_concat(f, c, d);
        let last = a.len() - 1;
        assert(flat_mapped(f, a[last], b[last]));
        let g1 = choose|g: Seq<Vec<U>>| #[trigger]
            expanded(f, concat(c), g) && concat(d) == concat(rows(g));
        let g2 = choose|g: Seq<Vec<U>>| #[trigger]
            expanded(f, a[last], g) && b[last] == concat(rows(g));
        lemma_concat_add(rows(g1), rows(g2));
        assert(rows(g1 + g2) =~= rows(g1) + rows(g2));
        let all = concat(c) + a[last];
        assert forall|i: int| 0 <= i < all.len() implies call_ensures(
            f,
            (all[i],),
            #[trigger] (g1 + g2)[i],
        ) by {
            if i < g1.len() {
                assert((g1 + g2)[i] == g1[i]);
            } else {
                assert((g1 + g2)[i] == g2[i - g1.len()]);
            }
        }
        assert(expanded(f, concat(a), g1 + g2));
    } else {
        let none = Seq::<Vec<U>>::empty();
        assert(expanded(f, concat(a), none));
        assert(rows(none) =~= Seq::<Seq<U>>::empty());
        assert(concat(b) =~= concat(rows(none)));
    }
}

/// Collecting a flat-mapped dataset flat-maps what its parent collects, in the same order.
pub proof fn lemma_flat_map_collect<T, U, F: Fn(T) -> Vec<U>>(
    parent: &Box<dyn Dataset<T>>,
    child: &Box<dyn Dataset<U>>,
    f: F,
    parts: Seq<Seq<U>>,
) -> (inp: Seq<Seq<T>>)
    requires
        child.parts() == parent.parts(),
        forall|out: Map<int, Seq<U>>| #[trigger]
            child.yields(out) <==> exists|a: Map<int, Seq<T>>|
                parent.yields(a) && #[trigger] each_part(flat_mapping(f), a, out),
        evaluates(child, parts),
    ensures
        evaluates(parent, inp),
        flat_mapped(f, concat(inp), concat(parts)),
{
    let inp = lemma_narrow_evaluation(parent, child, flat_mapping(f), parts);
    assert forall|p: int| 0 <= p < inp.len() implies flat_mapped(
        f,
        #[trigger] inp[p],
        parts[p],
    ) by {
        assert(flat_mapping(f)(inp[p], parts[p]));
    }
    lemma_flat_mapped_concat(f, inp, parts);
    inp
}

/// Collecting a union gives what its first part collects and then what its second part collects.
pub proof fn lemma_union_collect<T>(
    left: &Box<dyn Dataset<T>>,
    right: &Box<dyn Dataset<T>>,
    both: &Box<dyn Dataset<T>>,
    parts: Seq<Seq<T>>,
) -> (r: (Seq<Seq<T>>, Seq<Seq<T>>))
    requires
        both.parts() == left.parts() + right.parts(),
        forall|out: Map<int, Seq<T>>| #[trigger]
            both.yields(out) <==> within(out, both.parts()) && left.yields(
                below(out, left.parts()),
            ) && right.yields(from_on(out, left.parts())),
        evaluates(both, parts),
    ensures
        evaluates(left, r.0),
        evaluates(right, r.1),
        concat(parts) == concat(r.0) + concat(r.1),
{
    let n = left.parts() as int;
    let (a, b) = (parts.take(n), parts.skip(n));
    let out = part_map(parts);
    assert(below(out, left.parts()) =~= part_map(a));
    assert(from_on(out, left.parts()) =~= part_map(b));
    assert(parts =~= a + b);
    lemma_concat_add(a, b);
    (a, b)
}

// ---- reduction

/// Reducing with an associative operation gives the fold of all items, however they are
/// partitioned.
pub proof fn lemma_reduce_folds_all<T, A>(
    merge: spec_fn(T, T, T) -> bool,
    op: spec_fn(A, A) -> A,
    meaning: spec_fn(T) -> A,
    parts: Seq<Seq<T>>,
    partials: Seq<Option<T>>,
    v: T,
)
    requires
        associative(op),
        forall|a: T, b: T, c: T| #[trigger]
            merge(a, b, c) ==> meaning(c) == op(meaning(a), meaning(b)),
        part_folds(merge, parts, partials),
        folded(keeps(), merge, somes(partials), v),
    ensures
        concat(parts).len() > 0,
        meaning(v) == left_fold(op, images(meaning, concat(parts))),
{
    lemma_partials_fold(merge, op, meaning, parts, partials);
    lemma_folded_meaning(keeps(), merge, op, meaning, meaning, somes(partials), v);
    crate::rdd::lemma_nothing_folded(merge, parts, partials);
}

proof fn lemma_partials_fold<T, A>(
    merge: spec_fn(T, T, T) -> bool,
    op: spec_fn(A, A) -> A,
    meaning: spec_fn(T) -> A,
    parts: Seq<Seq<T>>,
    partials: Seq<Option<T>>,
)
    requires
        associative(op),
        forall|a: T, b: T, c: T| #[trigger]
            merge(a, b, c) ==> meaning(c) == op(meaning(a), meaning(b)),
        part_folds(merge, parts, partials),
    ensures
        somes(partials).len() == 0 <==> concat(parts).len() == 0,
        somes(partials).len() > 0 ==> left_fold(op, images(meaning, somes(partials))) == left_fold(
            op,
            images(meaning, concat(parts)),
        ),
    decreases parts.len(),
{
    if parts.len() > 0 {
        let last = parts.len() - 1;
        let (a, b) = (parts.drop_last(), partials.drop_last());
        assert forall|p: int| 0 <= p < a.len() implies match #[trigger] b[p] {
            Some(v) => folded(keeps(), merge, a[p], v),
            None => a[p].len() == 0,
        } by {
            assert(partials[p] == b[p]);
        }
        lemma_partials_fold(merge, op, meaning, a, b);
        let x = concat(a);
        let y = parts[last];
        assert(match partials[last] {
            Some(v) => folded(keeps(), merge, parts[last], v),
            None => parts[last].len() == 0,
        });
        match partials[last] {
            Some(v) => {
                lemma_folded_meaning(keeps(), merge, op, meaning, meaning, y, v);
                let s = somes(b);
                assert(images(meaning, s.push(v)) =~= images(meaning, s).push(meaning(v)));
                assert(images(meaning, x + y) =~= images(meaning, x) + images(meaning, y));
                if x.len() > 0 {
                    lemma_fold_add(op, images(meaning, x), images(meaning, y));
                    assert(images(meaning, s).push(meaning(v)).drop_last() =~= images(meaning, s));
                } else {
                    assert(x + y =~= y);
                    assert(s =~= Seq::<T>::empty());
                    assert(images(meaning, s.push(v))[0] == meaning(v));
                }
            },
            None => {
                assert(x + y =~= x);
            },
        }
    }
}

// ---- counters

proof fn lemma_nonempty_part<T>(parts: Seq<Seq<T>>) -> (p: int)
    requires
        concat(parts).len() > 0,
    ensures
        0 <= p < parts.len(),
        parts[p].len() > 0,
    decreases parts.len(),
{
    if parts.last().len() > 0 {
        parts.len() - 1
    } else {
        lemma_nonempty_part(parts.drop_last())
    }
}

/// A shuffle raises the counters: where its parent holds a record in every evaluation, an evaluation
/// of the shuffle counts task attempts and at least one record of map output.
pub proof fn lemma_shuffle_raises_counters<K: ShuffleKey, V>(
    parent: &Box<dyn Dataset<(K, V)>>,
    m: nat,
    c: Counters,
) -> (records: u64)
    requires
        m > 0,
        shuffle_charges(parent, m, c),
        forall|inp: Seq<Seq<(K, V)>>| #[trigger] evaluates(parent, inp) ==> concat(inp).len() > 0,
    ensures
        records > 0,
        c.grew(map_growth(records)),
        c.grew(start_growth(0)),
{
    let last = choose|last: u32| #[trigger] tried(c, last, true);
    if last > 0 {
        assert(attempt_counted(c, 0, false));
    }
    let inp = choose|inp: Seq<Seq<(K, V)>>| #[trigger]
        evaluates(parent, inp) && forall|mp: int|
            0 <= mp < inp.len() ==> c.grew(
                map_growth(capped_count(emitted(by_view(#[trigger] inp[mp]), m))),
            );
    let mp = lemma_nonempty_part(inp);
    lemma_emitted_bounds(by_view(inp[mp]), m);
    capped_count(emitted(by_view(inp[mp]), m))
}

// ---- aggregation by key

/// Partition `p` of `n` of combined records: one record for each key that belongs there, whose
/// combiner is a clone of one that stands for the fold of all values of the key in their order.
pub open spec fn combined_part<K: ShuffleKey, V, C: Clone, A>(
    op: spec_fn(A, A) -> A,
    unit: spec_fn(V) -> A,
    meaning: spec_fn(C) -> A,
    all: Seq<(K::V, V)>,
    n: usize,
    p: int,
    recs: Seq<(K, C)>,
) -> bool {
    &&& forall|i: int|
        #![trigger recs[i]]
        0 <= i < recs.len() ==> {
            let vs = values_of(all, recs[i].0.deep_view());
            &&& bucket_of::<K>(recs[i].0.deep_view(), n) == p
            &&& vs.len() > 0
            &&& exists|c: C| #[trigger]
                cloned(c, recs[i].1) && meaning(c) == left_fold(op, images(unit, vs))
        }
    &&& forall|i: int, j: int|
        0 <= i < j < recs.len() ==> (#[trigger] recs[i]).0.deep_view() != (#[trigger] recs[j]).0.deep_view()
    &&& forall|id: K::V| #[trigger]
        values_of(all, id).len() > 0 && bucket_of::<K>(id, n) == p ==> exists|i: int|
            0 <= i < recs.len() && (#[trigger] recs[i]).0.deep_view() == id
}

/// Aggregating by key gives one record for each key of the input, in the partition of the key.
/// Where combiners stand for values under an associative operation, the record stands for the fold
/// of all values of the key in the order of the input, however the input is partitioned and
/// whenever tasks spill.
pub proof fn lemma_aggregate_by_key<K: ShuffleKey, V, C: Clone, A>(
    parent: &Box<dyn Dataset<(K, V)>>,
    create: spec_fn(V, C) -> bool,
    merge_value: spec_fn(C, V, C) -> bool,
    merge_combiners: spec_fn(C, C, C) -> bool,
    op: spec_fn(A, A) -> A,
    unit: spec_fn(V) -> A,
    meaning: spec_fn(C) -> A,
    m: nat,
    out: Map<int, Seq<(K, C)>>,
) -> (inp: Seq<Seq<(K, V)>>)
    requires
        0 < parent.parts() <= usize::MAX,
        m > 0,
        associative(op),
        stands_for(create, merge_value, merge_combiners, op, unit, meaning),
        shuffle_yields::<K, V, C>(parent, create, merge_value, merge_combiners, m, out),
    ensures
        evaluates(parent, inp),
        forall|p: int| #[trigger]
            out.contains_key(p) ==> combined_part::<K, V, C, A>(
                op,
                unit,
                meaning,
                all_records(inp),
                parent.parts() as usize,
                p,
                out[p],
            ),
{
    let n = parent.parts();
    let nu = n as usize;
    let (inp, blocks) = choose|inp: Seq<Seq<(K, V)>>, blocks: Seq<Seq<(K::V, C)>>|
        evaluates(parent, inp) && #[trigger] shuffled::<K, V, C>(
            create,
            merge_value,
            merge_combiners,
            inp,
            n,
            m,
            blocks,
        ) && forall|p: int| #[trigger] out.contains_key(p) ==> copied(blocks[p], out[p]);
    lemma_shuffled_sums::<K, V, C, A>(
        create,
        merge_value,
        merge_combiners,
        op,
        unit,
        meaning,
        inp,
        n,
        m,
        blocks,
    );
    let all = all_records(inp);
    assert forall|p: int| #[trigger] out.contains_key(p) implies combined_part::<K, V, C, A>(
        op,
        unit,
        meaning,
        all,
        nu,
        p,
        out[p],
    ) by {
        let recs = out[p];
        assert(copied(blocks[p], recs));
        assert(0 <= p < n);
        assert forall|i: int| #![trigger recs[i]] 0 <= i < recs.len() implies {
            let vs = values_of(all, recs[i].0.deep_view());
            &&& bucket_of::<K>(recs[i].0.deep_view(), nu) == p
            &&& vs.len() > 0
            &&& exists|c: C| #[trigger]
                cloned(c, recs[i].1) && meaning(c) == left_fold(op, images(unit, vs))
        } by {
            let c = blocks[p][i].1;
            assert(cloned(c, recs[i].1));
        }
        assert forall|i: int, j: int| 0 <= i < j < recs.len() implies (#[trigger] recs[i]).0.deep_view() != (
        #[trigger] recs[j]).0.deep_view() by {
            assert(blocks[p][i].0 != blocks[p][j].0);
        }
        assert forall|id: K::V| #[trigger]
            values_of(all, id).len() > 0 && bucket_of::<K>(id, nu) == p implies exists|i: int|
            0 <= i < recs.len() && (#[trigger] recs[i]).0.deep_view() == id by {
            let i = choose|i: int| 0 <= i < blocks[p].len() && (#[trigger] blocks[p][i]).0 == id;
            assert(recs[i].0.deep_view() == id);
        }
    }
    inp
}

} // verus!
