//! What shuffles come to: laws of folding the values of a key piece by piece.
use vstd::prelude::*;

use crate::combine::{
    by_view, combined, distinct_keys, foldable, foldable_by_key, folded, keeps, keeps_on,
    lemma_distinct_keys, lemma_values_add, values_of,
};
use crate::context::DEFAULT_SPILL_LIMIT;
use crate::key::{bucket_of, ShuffleKey};
use crate::seqs::{
    concat, lemma_concat_add, lemma_concat_flattens, lemma_concat_push, lemma_same_elements,
};
use crate::shuffle::{
    combined_windows, in_bucket, lemma_in_bucket_add, map_combined, window_len, windows,
};
use crate::shuffled::{column, mapped_out, shuffled};
use crate::spill::spill_limit;

verus! {

/// The fold of a sequence, from its first element on.
pub open spec fn left_fold<A>(op: spec_fn(A, A) -> A, xs: Seq<A>) -> A
    decreases xs.len(),
{
    if xs.len() <= 1 {
        xs[0]
    } else {
        op(left_fold(op, xs.drop_last()), xs.last())
    }
}

pub open spec fn associative<A>(op: spec_fn(A, A) -> A) -> bool {
    forall|a: A, b: A, c: A| #[trigger] op(op(a, b), c) == op(a, op(b, c))
}

/// What `unit` makes of each value.
pub open spec fn images<V, A>(unit: spec_fn(V) -> A, vs: Seq<V>) -> Seq<A> {
    Seq::new(vs.len(), |i: int| unit(vs[i]))
}

/// Combiners stand for values of `A`: a new one for the unit of its value, and merging for `op`.
pub open spec fn stands_for<V, C, A>(
    create: spec_fn(V, C) -> bool,
    merge_value: spec_fn(C, V, C) -> bool,
    merge_combiners: spec_fn(C, C, C) -> bool,
    op: spec_fn(A, A) -> A,
    unit: spec_fn(V) -> A,
    meaning: spec_fn(C) -> A,
) -> bool {
    &&& forall|v: V, c: C| #[trigger] create(v, c) ==> meaning(c) == unit(v)
    &&& forall|b: C, v: V, c: C| #[trigger]
        merge_value(b, v, c) ==> meaning(c) == op(meaning(b), unit(v))
    &&& forall|a: C, b: C, c: C| #[trigger]
        merge_combiners(a, b, c) ==> meaning(c) == op(meaning(a), meaning(b))
}

/// `t` has records of the same keys as `s`, and for each key they fold to the same.
pub open spec fn sums_up<I, V, C, A>(
    op: spec_fn(A, A) -> A,
    unit: spec_fn(V) -> A,
    meaning: spec_fn(C) -> A,
    s: Seq<(I, V)>,
    t: Seq<(I, C)>,
) -> bool {
    forall|id: I|
        #![trigger values_of(s, id)]
        #![trigger values_of(t, id)]
        {
            &&& values_of(s, id).len() == 0 <==> values_of(t, id).len() == 0
            &&& values_of(s, id).len() > 0 ==> left_fold(op, images(meaning, values_of(t, id)))
                == left_fold(op, images(unit, values_of(s, id)))
        }
}

/// The fold of joined sequences is what their folds make together.
pub proof fn lemma_fold_add<A>(op: spec_fn(A, A) -> A, xs: Seq<A>, ys: Seq<A>)
    requires
        associative(op),
        xs.len() > 0,
        ys.len() > 0,
    ensures
        left_fold(op, xs + ys) == op(left_fold(op, xs), left_fold(op, ys)),
    decreases ys.len(),
{
    assert((xs + ys).last() == ys.last());
    if ys.len() == 1 {
        assert((xs + ys).drop_last() =~= xs);
    } else {
        assert((xs + ys).drop_last() =~= xs + ys.drop_last());
        lemma_fold_add(op, xs, ys.drop_last());
        assert(op(op(left_fold(op, xs), left_fold(op, ys.drop_last())), ys.last()) == op(
            left_fold(op, xs),
            op(left_fold(op, ys.drop_last()), ys.last()),
        ));
    }
}

/// A folded combiner stands for the fold of its values.
pub proof fn lemma_folded_meaning<V, C, A>(
    create: spec_fn(V, C) -> bool,
    merge: spec_fn(C, V, C) -> bool,
    op: spec_fn(A, A) -> A,
    unit: spec_fn(V) -> A,
    meaning: spec_fn(C) -> A,
    vs: Seq<V>,
    c: C,
)
    requires
        forall|v: V, c: C| #[trigger] create(v, c) ==> meaning(c) == unit(v),
        forall|b: C, v: V, c: C| #[trigger]
            merge(b, v, c) ==> meaning(c) == op(meaning(b), unit(v)),
        folded(create, merge, vs, c),
    ensures
        meaning(c) == left_fold(op, images(unit, vs)),
    decreases vs.len(),
{
    if vs.len() > 1 {
        let before = choose|before: C|
            #![trigger merge(before, vs.last(), c)]
            folded(create, merge, vs.drop_last(), before) && merge(before, vs.last(), c);
        lemma_folded_meaning(create, merge, op, unit, meaning, vs.drop_last(), before);
        assert(images(unit, vs).drop_last() =~= images(unit, vs.drop_last()));
    }
}

/// Where the keys of records are distinct, a key has the value of its one record.
proof fn lemma_value_of_distinct<I, C>(t: Seq<(I, C)>, i: int)
    requires
        0 <= i < t.len(),
        forall|a: int, b: int| 0 <= a < b < t.len() ==> (#[trigger] t[a]).0 != (#[trigger] t[b]).0,
    ensures
        values_of(t, t[i].0) == seq![t[i].1],
    decreases t.len(),
{
    let id = t[i].0;
    let init = t.drop_last();
    if i == t.len() - 1 {
        assert(values_of(init, id).len() == 0) by {
            lemma_no_value(init, id);
        }
        assert(values_of(t, id) =~= seq![t[i].1]);
    } else {
        assert(t.last().0 != id);
        assert(init[i] == t[i]);
        lemma_value_of_distinct(init, i);
    }
}

/// A key that no record has, has no values.
pub proof fn lemma_no_value<I, C>(t: Seq<(I, C)>, id: I)
    requires
        forall|i: int| 0 <= i < t.len() ==> (#[trigger] t[i]).0 != id,
    ensures
        values_of(t, id).len() == 0,
    decreases t.len(),
{
    if t.len() > 0 {
        assert(t[t.len() - 1].0 != id);
        assert forall|i: int| 0 <= i < t.drop_last().len() implies (#[trigger] t.drop_last()[i]).0
            != id by {
            assert(t[i].0 != id);
        }
        lemma_no_value(t.drop_last(), id);
    }
}

/// A key with a value has a record.
pub proof fn lemma_has_record<I, C>(t: Seq<(I, C)>, id: I)
    requires
        values_of(t, id).len() > 0,
    ensures
        exists|i: int| 0 <= i < t.len() && (#[trigger] t[i]).0 == id,
{
    if forall|i: int| 0 <= i < t.len() ==> (#[trigger] t[i]).0 != id {
        lemma_no_value(t, id);
    }
}

/// The keys of combined records are distinct, and they are the keys of the records combined.
pub proof fn lemma_combined_keys<I, V, C>(
    create: spec_fn(V, C) -> bool,
    merge: spec_fn(C, V, C) -> bool,
    s: Seq<(I, V)>,
    t: Seq<(I, C)>,
)
    requires
        combined(create, merge, s, t),
    ensures
        forall|a: int, b: int| 0 <= a < b < t.len() ==> (#[trigger] t[a]).0 != (#[trigger] t[b]).0,
        forall|id: I| #[trigger]
            values_of(s, id).len() > 0 ==> exists|i: int|
                0 <= i < t.len() && (#[trigger] t[i]).0 == id,
        forall|i: int|
            0 <= i < t.len() ==> values_of(s, (#[trigger] t[i]).0).len() > 0,
{
    lemma_distinct_keys(s);
    let keys = distinct_keys(s);
    assert forall|a: int, b: int| 0 <= a < b < t.len() implies (#[trigger] t[a]).0 != (
    #[trigger] t[b]).0 by {
        assert(keys[a] != keys[b]);
    }
    assert forall|id: I| #[trigger] values_of(s, id).len() > 0 implies exists|i: int|
        0 <= i < t.len() && (#[trigger] t[i]).0 == id by {
        assert(keys.contains(id));
        let i = choose|i: int| 0 <= i < keys.len() && keys[i] == id;
        assert(t[i].0 == id);
    }
    assert forall|i: int| 0 <= i < t.len() implies values_of(s, (#[trigger] t[i]).0).len() > 0 by {
        assert(keys[i] == t[i].0);
        assert(keys.contains(t[i].0));
    }
}

/// Combined records sum up the records combined.
pub proof fn lemma_combined_sums_up<I, V, C, A>(
    create: spec_fn(V, C) -> bool,
    merge: spec_fn(C, V, C) -> bool,
    op: spec_fn(A, A) -> A,
    unit: spec_fn(V) -> A,
    meaning: spec_fn(C) -> A,
    s: Seq<(I, V)>,
    t: Seq<(I, C)>,
)
    requires
        combined(create, merge, s, t),
        forall|v: V, c: C| #[trigger] create(v, c) ==> meaning(c) == unit(v),
        forall|b: C, v: V, c: C| #[trigger]
            merge(b, v, c) ==> meaning(c) == op(meaning(b), unit(v)),
    ensures
        sums_up(op, unit, meaning, s, t),
{
    lemma_combined_keys(create, merge, s, t);
    assert forall|id: I|
        #![trigger values_of(s, id)]
        #![trigger values_of(t, id)]
        {
            &&& values_of(s, id).len() == 0 <==> values_of(t, id).len() == 0
            &&& values_of(s, id).len() > 0 ==> left_fold(op, images(meaning, values_of(t, id)))
                == left_fold(op, images(unit, values_of(s, id)))
        } by {
        if values_of(s, id).len() > 0 {
            let i = choose|i: int| 0 <= i < t.len() && (#[trigger] t[i]).0 == id;
            lemma_value_of_distinct(t, i);
            lemma_folded_meaning(create, merge, op, unit, meaning, values_of(s, id), t[i].1);
            assert(images(meaning, values_of(t, id))[0] == meaning(t[i].1));
        } else if values_of(t, id).len() > 0 {
            lemma_has_record(t, id);
            let i = choose|i: int| 0 <= i < t.len() && (#[trigger] t[i]).0 == id;
            assert(values_of(s, t[i].0).len() > 0);
        }
    }
}

/// Sums of parts, joined, sum up the parts joined.
pub proof fn lemma_sums_up_add<I, V, C, A>(
    op: spec_fn(A, A) -> A,
    unit: spec_fn(V) -> A,
    meaning: spec_fn(C) -> A,
    s1: Seq<(I, V)>,
    t1: Seq<(I, C)>,
    s2: Seq<(I, V)>,
    t2: Seq<(I, C)>,
)
    requires
        associative(op),
        sums_up(op, unit, meaning, s1, t1),
        sums_up(op, unit, meaning, s2, t2),
    ensures
        sums_up(op, unit, meaning, s1 + s2, t1 + t2),
{
    let s = s1 + s2;
    let t = t1 + t2;
    assert forall|id: I|
        #![trigger values_of(s, id)]
        #![trigger values_of(t, id)]
        {
            &&& values_of(s, id).len() == 0 <==> values_of(t, id).len() == 0
            &&& values_of(s, id).len() > 0 ==> left_fold(op, images(meaning, values_of(t, id)))
                == left_fold(op, images(unit, values_of(s, id)))
        } by {
        lemma_values_add(s1, s2, id);
        lemma_values_add(t1, t2, id);
        let (a1, a2) = (values_of(s1, id), values_of(s2, id));
        let (b1, b2) = (values_of(t1, id), values_of(t2, id));
        assert(images(unit, a1 + a2) =~= images(unit, a1) + images(unit, a2));
        assert(images(meaning, b1 + b2) =~= images(meaning, b1) + images(meaning, b2));
        if a1.len() > 0 && a2.len() > 0 {
            lemma_fold_add(op, images(unit, a1), images(unit, a2));
            lemma_fold_add(op, images(meaning, b1), images(meaning, b2));
        } else if a1.len() > 0 {
            assert(a1 + a2 =~= a1);
            assert(b1 + b2 =~= b1);
        } else {
            assert(a1 + a2 =~= a2);
            assert(b1 + b2 =~= b2);
        }
    }
}

/// Sums of each of many parts, joined, sum up the parts joined.
pub proof fn lemma_sums_up_concat<I, V, C, A>(
    op: spec_fn(A, A) -> A,
    unit: spec_fn(V) -> A,
    meaning: spec_fn(C) -> A,
    ss: Seq<Seq<(I, V)>>,
    ts: Seq<Seq<(I, C)>>,
)
    requires
        associative(op),
        ss.len() == ts.len(),
        forall|i: int| 0 <= i < ss.len() ==> sums_up(op, unit, meaning, #[trigger] ss[i], ts[i]),
    ensures
        sums_up(op, unit, meaning, concat(ss), concat(ts)),
    decreases ss.len(),
{
    if ss.len() > 0 {
        assert forall|i: int| 0 <= i < ss.drop_last().len() implies sums_up(
            op,
            unit,
            meaning,
            #[trigger] ss.drop_last()[i],
            ts.drop_last()[i],
        ) by {
            assert(ss[i] == ss.drop_last()[i]);
        }
        lemma_sums_up_concat(op, unit, meaning, ss.drop_last(), ts.drop_last());
        assert(ss[ss.len() - 1] == ss.last());
        lemma_sums_up_add(
            op,
            unit,
            meaning,
            concat(ss.drop_last()),
            concat(ts.drop_last()),
            ss.last(),
            ts.last(),
        );
    }
}

/// The windows of a sequence, one after the other, are the sequence.
pub proof fn lemma_windows_concat<A>(s: Seq<A>, m: nat)
    requires
        m > 0,
    ensures
        concat(windows(s, m)) == s,
    decreases s.len(),
{
    if s.len() == 0 {
    } else if s.len() <= m {
        let none = Seq::<Seq<A>>::empty();
        assert(windows(s, m) =~= none.push(s));
        lemma_concat_push(none, s);
        assert(concat(windows(s, m)) =~= s);
    } else {
        let head = s.take(m as int);
        let none = Seq::<Seq<A>>::empty();
        lemma_windows_concat(s.skip(m as int), m);
        lemma_concat_add(seq![head], windows(s.skip(m as int), m));
        assert(seq![head] =~= none.push(head));
        lemma_concat_push(none, head);
        assert(concat(windows(s, m)) =~= s);
    }
}

/// The bucket of joined parts is the parts' buckets joined.
proof fn lemma_in_bucket_concat<K: ShuffleKey, C>(
    parts: Seq<Seq<(K::V, C)>>,
    cut: Seq<Seq<(K::V, C)>>,
    n: usize,
    b: int,
)
    requires
        cut.len() == parts.len(),
        forall|i: int|
            0 <= i < parts.len() ==> #[trigger] cut[i] == in_bucket::<K, C>(parts[i], n, b),
    ensures
        concat(cut) == in_bucket::<K, C>(concat(parts), n, b),
    decreases parts.len(),
{
    if parts.len() > 0 {
        assert forall|i: int| 0 <= i < parts.drop_last().len() implies #[trigger] cut.drop_last()[i]
            == in_bucket::<K, C>(parts.drop_last()[i], n, b) by {
            assert(cut[i] == cut.drop_last()[i]);
        }
        lemma_in_bucket_concat::<K, C>(parts.drop_last(), cut.drop_last(), n, b);
        lemma_in_bucket_add::<K, C>(concat(parts.drop_last()), parts.last(), n, b);
        assert(cut[parts.len() - 1] == cut.last());
    }
}

/// The values of a key in the bucket of the key are all its values; other buckets have none.
pub proof fn lemma_values_in_bucket<K: ShuffleKey, C>(
    s: Seq<(K::V, C)>,
    n: usize,
    b: int,
    id: K::V,
)
    ensures
        values_of(in_bucket::<K, C>(s, n, b), id) == if bucket_of::<K>(id, n) == b {
            values_of(s, id)
        } else {
            Seq::empty()
        },
    decreases s.len(),
{
    if s.len() > 0 {
        lemma_values_in_bucket::<K, C>(s.drop_last(), n, b, id);
        let init = in_bucket::<K, C>(s.drop_last(), n, b);
        assert(init.push(s.last()).drop_last() =~= init);
    }
}

/// The records of all partitions, with the view of each key in the key's place.
pub open spec fn all_records<K: DeepView, V>(inp: Seq<Seq<(K, V)>>) -> Seq<(K::V, V)> {
    concat(Seq::new(inp.len(), |p: int| by_view(inp[p])))
}

/// What each key of a shuffle comes to: every key of the input has exactly one record, in the
/// block of its bucket, and where combiners stand for values under an associative operation, the
/// record stands for the fold of all values of the key, in the order of the input.
pub proof fn lemma_shuffled_sums<K: ShuffleKey, V, C, A>(
    create: spec_fn(V, C) -> bool,
    merge_value: spec_fn(C, V, C) -> bool,
    merge_combiners: spec_fn(C, C, C) -> bool,
    op: spec_fn(A, A) -> A,
    unit: spec_fn(V) -> A,
    meaning: spec_fn(C) -> A,
    inp: Seq<Seq<(K, V)>>,
    n: nat,
    m: nat,
    blocks: Seq<Seq<(K::V, C)>>,
)
    requires
        shuffled::<K, V, C>(create, merge_value, merge_combiners, inp, n, m, blocks),
        inp.len() == n,
        n <= usize::MAX,
        m > 0,
        associative(op),
        stands_for(create, merge_value, merge_combiners, op, unit, meaning),
    ensures
        blocks.len() == n,
        forall|b: int, i: int|
            #![trigger blocks[b][i]]
            0 <= b < n && 0 <= i < blocks[b].len() ==> {
                let id = blocks[b][i].0;
                let vs = values_of(all_records(inp), id);
                &&& bucket_of::<K>(id, n as usize) == b
                &&& vs.len() > 0
                &&& meaning(blocks[b][i].1) == left_fold(op, images(unit, vs))
            },
        forall|b: int, i: int, j: int|
            #![trigger blocks[b][i], blocks[b][j]]
            0 <= b < n && 0 <= i < j < blocks[b].len() ==> blocks[b][i].0 != blocks[b][j].0,
        forall|id: K::V|
            #![trigger values_of(all_records(inp), id)]
            values_of(all_records(inp), id).len() > 0 && n > 0 ==> exists|i: int|
                0 <= i < blocks[bucket_of::<K>(id, n as usize) as int].len()
                    && (#[trigger] blocks[bucket_of::<K>(id, n as usize) as int][i]).0 == id,
{
    let nu = n as usize;
    let outs = choose|outs: Seq<Seq<Seq<(K::V, C)>>>|
        outs.len() == n && blocks.len() == n && #[trigger] mapped_out::<K, V, C>(
            create,
            merge_value,
            inp,
            n,
            m,
            outs,
        ) && forall|b: int|
            #![trigger blocks[b]]
            0 <= b < n ==> combined(keeps(), merge_combiners, concat(column(outs, b)), blocks[b]);
    let views = Seq::new(inp.len(), |p: int| by_view(inp[p]));
    let combos = Seq::new(
        n,
        |mp: int|
            choose|cs: Seq<Seq<(K::V, C)>>|
                #[trigger] combined_windows(create, merge_value, windows(views[mp], m), cs)
                    && forall|b: int|
                    0 <= b < outs[mp].len() ==> #[trigger] outs[mp][b] == in_bucket::<K, C>(
                        concat(cs),
                        outs[mp].len() as usize,
                        b,
                    ),
    );
    let joined = Seq::new(n, |mp: int| concat(combos[mp]));
    assert forall|mp: int| 0 <= mp < n implies combined_windows(
        create,
        merge_value,
        windows(views[mp], m),
        #[trigger] combos[mp],
    ) && forall|b: int|
        0 <= b < n ==> #[trigger] outs[mp][b] == in_bucket::<K, C>(joined[mp], nu, b) by {
        assert(outs[mp].len() == n);
        assert(map_combined::<K, V, C>(create, merge_value, views[mp], m, outs[mp]));
    }
    assert forall|mp: int| 0 <= mp < n implies sums_up(
        op,
        unit,
        meaning,
        #[trigger] views[mp],
        joined[mp],
    ) by {
        let ws = windows(views[mp], m);
        let cs = combos[mp];
        assert forall|w: int| 0 <= w < ws.len() implies sums_up(
            op,
            unit,
            meaning,
            #[trigger] ws[w],
            cs[w],
        ) by {
            assert(combined(create, merge_value, ws[w], cs[w]));
            lemma_combined_sums_up(create, merge_value, op, unit, meaning, ws[w], cs[w]);
        }
        lemma_sums_up_concat(op, unit, meaning, ws, cs);
        lemma_windows_concat(views[mp], m);
    }
    lemma_sums_up_concat(op, unit, meaning, views, joined);
    let all = all_records(inp);
    let every = concat(joined);
    assert(sums_up(op, unit, meaning, all, every));
    assert forall|b: int| 0 <= b < n implies #[trigger] concat(column(outs, b)) == in_bucket::<
        K,
        C,
    >(every, nu, b) by {
        assert forall|mp: int| 0 <= mp < n implies #[trigger] column(outs, b)[mp] == in_bucket::<
            K,
            C,
        >(joined[mp], nu, b) by {
            let _ = combos[mp];
            assert(outs[mp][b] == in_bucket::<K, C>(joined[mp], nu, b));
        }
        lemma_in_bucket_concat::<K, C>(joined, column(outs, b), nu, b);
    }
    assert forall|b: int, i: int|
        #![trigger blocks[b][i]]
        0 <= b < n && 0 <= i < blocks[b].len() implies {
        let id = blocks[b][i].0;
        let vs = values_of(all, id);
        &&& bucket_of::<K>(id, nu) == b
        &&& vs.len() > 0
        &&& meaning(blocks[b][i].1) == left_fold(op, images(unit, vs))
    } by {
        let r = in_bucket::<K, C>(every, nu, b);
        let id = blocks[b][i].0;
        assert(concat(column(outs, b)) == r);
        assert(combined(keeps(), merge_combiners, r, blocks[b]));
        lemma_combined_keys(keeps(), merge_combiners, r, blocks[b]);
        assert(values_of(r, blocks[b][i].0).len() > 0);
        lemma_values_in_bucket::<K, C>(every, nu, b, id);
        assert(values_of(every, id).len() > 0);
        assert(folded(keeps(), merge_combiners, values_of(r, id), blocks[b][i].1));
        lemma_folded_meaning(
            keeps(),
            merge_combiners,
            op,
            meaning,
            meaning,
            values_of(r, id),
            blocks[b][i].1,
        );
    }
    assert forall|b: int, i: int, j: int|
        #![trigger blocks[b][i], blocks[b][j]]
        0 <= b < n && 0 <= i < j < blocks[b].len() implies blocks[b][i].0 != blocks[b][j].0 by {
        lemma_combined_keys(keeps(), merge_combiners, concat(column(outs, b)), blocks[b]);
    }
    assert forall|id: K::V|
        #![trigger values_of(all_records(inp), id)]
        values_of(all_records(inp), id).len() > 0 && n > 0 implies exists|i: int|
        0 <= i < blocks[bucket_of::<K>(id, nu) as int].len() && (#[trigger] blocks[bucket_of::<
            K,
        >(id, nu) as int][i]).0 == id by {
        let b = bucket_of::<K>(id, nu) as int;
        assert(0 <= b < n);
        let r = in_bucket::<K, C>(every, nu, b);
        assert(values_of(every, id).len() > 0);
        lemma_values_in_bucket::<K, C>(every, nu, b, id);
        assert(concat(column(outs, b)) == r);
        assert(combined(keeps(), merge_combiners, r, blocks[b]));
        lemma_combined_keys(keeps(), merge_combiners, r, blocks[b]);
        assert(values_of(r, id).len() > 0);
    }
}

// ---- records that are combined already

/// Where the keys of records are distinct, they are the keys of the records in order.
proof fn lemma_distinct_keys_in_order<I, C>(t: Seq<(I, C)>)
    requires
        forall|a: int, b: int| 0 <= a < b < t.len() ==> (#[trigger] t[a]).0 != (#[trigger] t[b]).0,
    ensures
        distinct_keys(t).len() == t.len(),
        forall|i: int| 0 <= i < t.len() ==> #[trigger] distinct_keys(t)[i] == t[i].0,
    decreases t.len(),
{
    if t.len() > 0 {
        let init = t.drop_last();
        assert forall|a: int, b: int| 0 <= a < b < init.len() implies (#[trigger] init[a]).0 != (
        #[trigger] init[b]).0 by {
            assert(t[a].0 != t[b].0);
        }
        lemma_distinct_keys_in_order(init);
        lemma_no_value(init, t.last().0);
        lemma_distinct_keys(init);
        assert(!distinct_keys(init).contains(t.last().0));
        assert forall|i: int| 0 <= i < t.len() implies #[trigger] distinct_keys(t)[i] == t[i].0 by {
            if i < init.len() {
                assert(distinct_keys(init)[i] == init[i].0);
            }
        }
    }
}

/// A bucket that was reduced has nothing left to merge: reducing it again, with whatever function,
/// never calls the function and gives the same records.
pub proof fn lemma_reduced_stays<I, V>(
    merge: spec_fn(V, V, V) -> bool,
    s: Seq<(I, V)>,
    t: Seq<(I, V)>,
    merge_on2: spec_fn(V, V) -> bool,
    merge2: spec_fn(V, V, V) -> bool,
)
    requires
        combined(keeps(), merge, s, t),
    ensures
        foldable_by_key(keeps_on(), keeps(), merge_on2, merge2, t),
        forall|u: Seq<(I, V)>| #[trigger] combined(keeps(), merge2, t, u) ==> u == t,
{
    lemma_combined_keys(keeps(), merge, s, t);
    assert forall|id: I|
        foldable(keeps_on(), keeps(), merge_on2, merge2, #[trigger] values_of(t, id)) by {
        if values_of(t, id).len() > 0 {
            lemma_has_record(t, id);
            let i = choose|i: int| 0 <= i < t.len() && (#[trigger] t[i]).0 == id;
            lemma_value_of_distinct(t, i);
        }
    }
    assert forall|u: Seq<(I, V)>| #[trigger] combined(keeps(), merge2, t, u) implies u == t by {
        lemma_distinct_keys_in_order(t);
        assert forall|i: int| 0 <= i < t.len() implies u[i] == t[i] by {
            assert(distinct_keys(t)[i] == t[i].0);
            lemma_value_of_distinct(t, i);
            assert(u[i].0 == t[i].0);
            assert(folded(keeps(), merge2, values_of(t, u[i].0), u[i].1));
        }
        assert(u =~= t);
    }
}

// ---- functions that always give the same

/// At most one result for each argument.
pub open spec fn single<V, C>(create: spec_fn(V, C) -> bool) -> bool {
    forall|v: V, a: C, b: C| #[trigger] create(v, a) && #[trigger] create(v, b) ==> a == b
}

/// At most one result for each pair of arguments.
pub open spec fn single_merge<C, V>(merge: spec_fn(C, V, C) -> bool) -> bool {
    forall|c: C, v: V, a: C, b: C| #[trigger] merge(c, v, a) && #[trigger] merge(c, v, b) ==> a == b
}

proof fn lemma_folded_unique<V, C>(
    create: spec_fn(V, C) -> bool,
    merge: spec_fn(C, V, C) -> bool,
    vs: Seq<V>,
    a: C,
    b: C,
)
    requires
        single(create),
        single_merge(merge),
        folded(create, merge, vs, a),
        folded(create, merge, vs, b),
    ensures
        a == b,
    decreases vs.len(),
{
    if vs.len() > 1 {
        let x = choose|x: C|
            #![trigger merge(x, vs.last(), a)]
            folded(create, merge, vs.drop_last(), x) && merge(x, vs.last(), a);
        let y = choose|y: C|
            #![trigger merge(y, vs.last(), b)]
            folded(create, merge, vs.drop_last(), y) && merge(y, vs.last(), b);
        lemma_folded_unique(create, merge, vs.drop_last(), x, y);
    }
}

/// Functions that always give the same combine the same records to the same. So the buckets of a
/// shuffle come to what reducing each alone does, in however many threads they are reduced.
pub proof fn lemma_combined_unique<I, V, C>(
    create: spec_fn(V, C) -> bool,
    merge: spec_fn(C, V, C) -> bool,
    pairs: Seq<(I, V)>,
    a: Seq<(I, C)>,
    b: Seq<(I, C)>,
)
    requires
        single(create),
        single_merge(merge),
        combined(create, merge, pairs, a),
        combined(create, merge, pairs, b),
    ensures
        a == b,
{
    assert forall|i: int| 0 <= i < a.len() implies a[i] == b[i] by {
        assert(a[i].0 == distinct_keys(pairs)[i]);
        assert(b[i].0 == distinct_keys(pairs)[i]);
        lemma_folded_unique(create, merge, values_of(pairs, a[i].0), a[i].1, b[i].1);
    }
    assert(a =~= b);
}

/// Functions that always give the same let map tasks on the same records and with the same limit
/// put the same into their buckets.
pub proof fn lemma_map_combined_unique<K: ShuffleKey, V, C>(
    create: spec_fn(V, C) -> bool,
    merge: spec_fn(C, V, C) -> bool,
    pairs: Seq<(K::V, V)>,
    m: nat,
    a: Seq<Seq<(K::V, C)>>,
    b: Seq<Seq<(K::V, C)>>,
)
    requires
        single(create),
        single_merge(merge),
        map_combined::<K, V, C>(create, merge, pairs, m, a),
        map_combined::<K, V, C>(create, merge, pairs, m, b),
        a.len() == b.len(),
    ensures
        a == b,
{
    let ws = windows(pairs, m);
    let x = choose|cs: Seq<Seq<(K::V, C)>>|
        #[trigger] combined_windows(create, merge, ws, cs) && forall|i: int|
            0 <= i < a.len() ==> #[trigger] a[i] == in_bucket::<K, C>(
                concat(cs),
                a.len() as usize,
                i,
            );
    let y = choose|cs: Seq<Seq<(K::V, C)>>|
        #[trigger] combined_windows(create, merge, ws, cs) && forall|i: int|
            0 <= i < b.len() ==> #[trigger] b[i] == in_bucket::<K, C>(
                concat(cs),
                b.len() as usize,
                i,
            );
    assert forall|w: int| 0 <= w < ws.len() implies x[w] == y[w] by {
        lemma_combined_unique(create, merge, ws[w], x[w], y[w]);
    }
    assert(x =~= y);
    assert(a =~= b);
}

// ---- how often a map task empties its table

proof fn lemma_bucket_members<K: ShuffleKey, C>(s: Seq<(K::V, C)>, n: usize, b: int)
    requires
        forall|i: int, j: int| 0 <= i < j < s.len() ==> (#[trigger] s[i]).0 != (#[trigger] s[j]).0,
    ensures
        ({
            let t = in_bucket::<K, C>(s, n, b);
            &&& forall|i: int|
                0 <= i < t.len() ==> bucket_of::<K>((#[trigger] t[i]).0, n) == b && s.contains(t[i])
            &&& forall|i: int, j: int|
                0 <= i < j < t.len() ==> (#[trigger] t[i]).0 != (#[trigger] t[j]).0
        }),
    decreases s.len(),
{
    if s.len() > 0 {
        let init = s.drop_last();
        assert forall|i: int, j: int| 0 <= i < j < init.len() implies (#[trigger] init[i]).0 != (
        #[trigger] init[j]).0 by {
            assert(s[i].0 != s[j].0);
        }
        lemma_bucket_members::<K, C>(init, n, b);
        let u = in_bucket::<K, C>(init, n, b);
        let t = in_bucket::<K, C>(s, n, b);
        let last = s.last();
        assert forall|i: int| 0 <= i < t.len() implies bucket_of::<K>((#[trigger] t[i]).0, n) == b
            && s.contains(t[i]) by {
            if i < u.len() {
                assert(t[i] == u[i]);
                let k = choose|k: int| 0 <= k < init.len() && init[k] == u[i];
                assert(s[k] == t[i]);
            } else {
                assert(s[s.len() - 1] == t[i]);
            }
        }
        assert forall|i: int, j: int| 0 <= i < j < t.len() implies (#[trigger] t[i]).0 != (
        #[trigger] t[j]).0 by {
            assert(t[i] == u[i]);
            if j < u.len() {
                assert(t[j] == u[j]);
            } else {
                let k = choose|k: int| 0 <= k < init.len() && init[k] == u[i];
                assert(s[k].0 != s[s.len() - 1].0);
            }
        }
    }
}

/// A map task with no more records than its limit lets it hold puts each key into one record.
pub proof fn lemma_each_key_once<K: ShuffleKey, V, C>(
    create: spec_fn(V, C) -> bool,
    merge: spec_fn(C, V, C) -> bool,
    pairs: Seq<(K::V, V)>,
    m: nat,
    out: Seq<Seq<(K::V, C)>>,
)
    requires
        0 < m,
        pairs.len() <= m,
        map_combined::<K, V, C>(create, merge, pairs, m, out),
        out.len() <= usize::MAX,
    ensures
        forall|a: int, i: int, b: int, j: int|
            #![trigger out[a][i], out[b][j]]
            0 <= a < out.len() && 0 <= i < out[a].len() && 0 <= b < out.len() && 0 <= j
                < out[b].len() && (a != b || i != j) ==> out[a][i].0 != out[b][j].0,
{
    let ws = windows(pairs, m);
    let n = out.len() as usize;
    let cs = choose|cs: Seq<Seq<(K::V, C)>>|
        #[trigger] combined_windows(create, merge, ws, cs) && forall|i: int|
            0 <= i < out.len() ==> #[trigger] out[i] == in_bucket::<K, C>(concat(cs), n, i);
    let s = concat(cs);
    assert forall|i: int, j: int| 0 <= i < j < s.len() implies (#[trigger] s[i]).0 != (
    #[trigger] s[j]).0 by {
        let none = Seq::<Seq<(K::V, C)>>::empty();
        if pairs.len() == 0 {
            assert(cs =~= none);
        } else {
            assert(ws =~= seq![pairs]);
            assert(cs =~= none.push(cs[0]));
            lemma_concat_push(none, cs[0]);
            assert(s =~= cs[0]);
            lemma_combined_keys(create, merge, ws[0], cs[0]);
        }
    }
    assert forall|a: int, i: int, b: int, j: int|
        #![trigger out[a][i], out[b][j]]
        0 <= a < out.len() && 0 <= i < out[a].len() && 0 <= b < out.len() && 0 <= j < out[b].len()
            && (a != b || i != j) implies out[a][i].0 != out[b][j].0 by {
        lemma_bucket_members::<K, C>(s, n, a);
        lemma_bucket_members::<K, C>(s, n, b);
        assert(out[a] == in_bucket::<K, C>(s, n, a));
        assert(out[b] == in_bucket::<K, C>(s, n, b));
        if a == b {
            if i < j {
                assert(out[a][i].0 != out[a][j].0);
            } else {
                assert(out[a][j].0 != out[a][i].0);
            }
        }
    }
}

/// Where no limit is set, a map task with up to 1048576 records puts each key into one record.
pub proof fn lemma_usual_limit<K: ShuffleKey, V, C>(
    create: spec_fn(V, C) -> bool,
    merge: spec_fn(C, V, C) -> bool,
    pairs: Seq<(K::V, V)>,
    out: Seq<Seq<(K::V, C)>>,
)
    requires
        pairs.len() <= 1048576,
        map_combined::<K, V, C>(create, merge, pairs, window_len(spill_limit(None)), out),
        out.len() <= usize::MAX,
    ensures
        forall|a: int, i: int, b: int, j: int|
            #![trigger out[a][i], out[b][j]]
            0 <= a < out.len() && 0 <= i < out[a].len() && 0 <= b < out.len() && 0 <= j
                < out[b].len() && (a != b || i != j) ==> out[a][i].0 != out[b][j].0,
{
    assert(spill_limit(None) == DEFAULT_SPILL_LIMIT);
    assert(window_len(DEFAULT_SPILL_LIMIT) == 1048576);
    lemma_each_key_once::<K, V, C>(create, merge, pairs, 1048576, out);
}

// ---- limits and results

/// Combiners are folds: `fold` says what the values of a key come to, and merging the folds of two
/// runs of values gives the fold of both.
pub open spec fn folds_values<V, C>(
    create: spec_fn(V, C) -> bool,
    merge_value: spec_fn(C, V, C) -> bool,
    merge_combiners: spec_fn(C, C, C) -> bool,
    fold: spec_fn(Seq<V>) -> C,
) -> bool {
    &&& forall|v: V, c: C| #[trigger] create(v, c) ==> c == fold(seq![v])
    &&& forall|xs: Seq<V>, v: V, c: C| #[trigger]
        merge_value(fold(xs), v, c) && xs.len() > 0 ==> c == fold(xs.push(v))
    &&& forall|xs: Seq<V>, ys: Seq<V>, c: C| #[trigger]
        merge_combiners(fold(xs), fold(ys), c) && xs.len() > 0 && ys.len() > 0 ==> c == fold(
            xs + ys,
        )
}

/// `cs` holds the folds of runs of `vs`, one run after the other.
pub open spec fn run_folds<V, C>(
    fold: spec_fn(Seq<V>) -> C,
    runs: Seq<Seq<V>>,
    vs: Seq<V>,
    cs: Seq<C>,
) -> bool {
    &&& concat(runs) == vs
    &&& cs.len() == runs.len()
    &&& forall|i: int| 0 <= i < runs.len() ==> (#[trigger] runs[i]).len() > 0 && cs[i] == fold(runs[i])
}

proof fn lemma_folded_is_fold<V, C>(
    create: spec_fn(V, C) -> bool,
    merge_value: spec_fn(C, V, C) -> bool,
    merge_combiners: spec_fn(C, C, C) -> bool,
    fold: spec_fn(Seq<V>) -> C,
    vs: Seq<V>,
    c: C,
)
    requires
        folds_values(create, merge_value, merge_combiners, fold),
        folded(create, merge_value, vs, c),
    ensures
        c == fold(vs),
    decreases vs.len(),
{
    if vs.len() == 1 {
        assert(vs =~= seq![vs[0]]);
    } else {
        let before = choose|before: C|
            #![trigger merge_value(before, vs.last(), c)]
            folded(create, merge_value, vs.drop_last(), before) && merge_value(
                before,
                vs.last(),
                c,
            );
        lemma_folded_is_fold(
            create,
            merge_value,
            merge_combiners,
            fold,
            vs.drop_last(),
            before,
        );
        assert(vs.drop_last().push(vs.last()) =~= vs);
    }
}

proof fn lemma_runs_fold<V, C>(
    create: spec_fn(V, C) -> bool,
    merge_value: spec_fn(C, V, C) -> bool,
    merge_combiners: spec_fn(C, C, C) -> bool,
    fold: spec_fn(Seq<V>) -> C,
    runs: Seq<Seq<V>>,
    vs: Seq<V>,
    cs: Seq<C>,
    c: C,
)
    requires
        folds_values(create, merge_value, merge_combiners, fold),
        run_folds(fold, runs, vs, cs),
        folded(keeps(), merge_combiners, cs, c),
    ensures
        c == fold(vs),
        vs.len() > 0,
    decreases cs.len(),
{
    let last = runs.len() - 1;
    let init = runs.drop_last();
    assert(runs[last].len() > 0 && cs[last] == fold(runs[last]));
    assert(runs =~= init.push(runs[last]));
    lemma_concat_push(init, runs[last]);
    if cs.len() == 1 {
        assert(init =~= Seq::<Seq<V>>::empty());
        assert(vs =~= runs[last]);
    } else {
        let before = choose|before: C|
            #![trigger merge_combiners(before, cs.last(), c)]
            folded(keeps(), merge_combiners, cs.drop_last(), before) && merge_combiners(
                before,
                cs.last(),
                c,
            );
        assert forall|i: int| 0 <= i < init.len() implies (#[trigger] init[i]).len() > 0
            && cs.drop_last()[i] == fold(init[i]) by {
            assert(init[i] == runs[i]);
        }
        lemma_runs_fold(
            create,
            merge_value,
            merge_combiners,
            fold,
            init,
            concat(init),
            cs.drop_last(),
            before,
        );
        assert(merge_combiners(fold(concat(init)), fold(runs[last]), c));
    }
}

/// The records of a key in combined windows hold the folds of runs of its values.
proof fn lemma_windows_runs<I, V, C>(
    create: spec_fn(V, C) -> bool,
    merge_value: spec_fn(C, V, C) -> bool,
    merge_combiners: spec_fn(C, C, C) -> bool,
    fold: spec_fn(Seq<V>) -> C,
    ws: Seq<Seq<(I, V)>>,
    cs: Seq<Seq<(I, C)>>,
    id: I,
) -> (runs: Seq<Seq<V>>)
    requires
        folds_values(create, merge_value, merge_combiners, fold),
        combined_windows(create, merge_value, ws, cs),
    ensures
        run_folds(fold, runs, values_of(concat(ws), id), values_of(concat(cs), id)),
    decreases ws.len(),
{
    if ws.len() == 0 {
        Seq::empty()
    } else {
        let last = ws.len() - 1;
        let (ws1, cs1) = (ws.drop_last(), cs.drop_last());
        assert forall|w: int| 0 <= w < ws1.len() implies combined(
            create,
            merge_value,
            ws1[w],
            #[trigger] cs1[w],
        ) by {
            assert(cs1[w] == cs[w]);
        }
        let before = lemma_windows_runs(
            create,
            merge_value,
            merge_combiners,
            fold,
            ws1,
            cs1,
            id,
        );
        assert(combined(create, merge_value, ws[last], cs[last]));
        lemma_combined_keys(create, merge_value, ws[last], cs[last]);
        lemma_values_add(concat(ws1), ws[last], id);
        lemma_values_add(concat(cs1), cs[last], id);
        let vs = values_of(ws[last], id);
        if vs.len() == 0 {
            if values_of(cs[last], id).len() > 0 {
                lemma_has_record(cs[last], id);
            }
            assert(values_of(concat(ws), id) =~= values_of(concat(ws1), id));
            assert(values_of(concat(cs), id) =~= values_of(concat(cs1), id));
            before
        } else {
            let i = choose|i: int| 0 <= i < cs[last].len() && (#[trigger] cs[last][i]).0 == id;
            lemma_value_of_distinct(cs[last], i);
            lemma_folded_is_fold(
                create,
                merge_value,
                merge_combiners,
                fold,
                vs,
                cs[last][i].1,
            );
            let runs = before.push(vs);
            lemma_concat_push(before, vs);
            let all = values_of(concat(cs), id);
            let old = values_of(concat(cs1), id);
            assert forall|k: int| 0 <= k < runs.len() implies (#[trigger] runs[k]).len() > 0
                && all[k] == fold(runs[k]) by {
                if k < before.len() {
                    assert(runs[k] == before[k]);
                    assert(all[k] == old[k]);
                }
            }
            runs
        }
    }
}

/// Whatever the limit of a map task, the records of a bucket reduce to the same: one record for
/// each key of the bucket, which holds the fold of all values of the key.
pub proof fn lemma_limit_is_unseen<K: ShuffleKey, V, C>(
    create: spec_fn(V, C) -> bool,
    merge_value: spec_fn(C, V, C) -> bool,
    merge_combiners: spec_fn(C, C, C) -> bool,
    fold: spec_fn(Seq<V>) -> C,
    pairs: Seq<(K::V, V)>,
    m: nat,
    out: Seq<Seq<(K::V, C)>>,
    b: int,
    reduced: Seq<(K::V, C)>,
    id: K::V,
)
    requires
        0 < m,
        out.len() <= usize::MAX,
        0 <= b < out.len(),
        folds_values(create, merge_value, merge_combiners, fold),
        map_combined::<K, V, C>(create, merge_value, pairs, m, out),
        combined(keeps(), merge_combiners, out[b], reduced),
    ensures
        values_of(reduced, id) == if bucket_of::<K>(id, out.len() as usize) == b && values_of(
            pairs,
            id,
        ).len() > 0 {
            seq![fold(values_of(pairs, id))]
        } else {
            Seq::empty()
        },
{
    let ws = windows(pairs, m);
    let n = out.len() as usize;
    let cs = choose|cs: Seq<Seq<(K::V, C)>>|
        #[trigger] combined_windows(create, merge_value, ws, cs) && forall|i: int|
            0 <= i < out.len() ==> #[trigger] out[i] == in_bucket::<K, C>(concat(cs), n, i);
    lemma_windows_concat(pairs, m);
    let runs = lemma_windows_runs(create, merge_value, merge_combiners, fold, ws, cs, id);
    lemma_values_in_bucket::<K, C>(concat(cs), n, b, id);
    lemma_combined_keys(keeps(), merge_combiners, out[b], reduced);
    let part = values_of(out[b], id);
    if part.len() > 0 {
        let i = choose|i: int| 0 <= i < reduced.len() && (#[trigger] reduced[i]).0 == id;
        lemma_value_of_distinct(reduced, i);
        assert(folded(keeps(), merge_combiners, part, reduced[i].1));
        lemma_runs_fold(
            create,
            merge_value,
            merge_combiners,
            fold,
            runs,
            values_of(pairs, id),
            part,
            reduced[i].1,
        );
    } else {
        if values_of(reduced, id).len() > 0 {
            lemma_has_record(reduced, id);
        }
        assert(values_of(reduced, id) =~= Seq::<C>::empty());
        if bucket_of::<K>(id, n) == b {
            assert(runs =~= Seq::<Seq<V>>::empty());
        }
    }
}

/// Two map tasks on the same records with different limits reduce alike: each bucket comes to the
/// same records, whatever their order.
pub proof fn lemma_limits_reduce_alike<K: ShuffleKey, V, C>(
    create: spec_fn(V, C) -> bool,
    merge_value: spec_fn(C, V, C) -> bool,
    merge_combiners: spec_fn(C, C, C) -> bool,
    fold: spec_fn(Seq<V>) -> C,
    pairs: Seq<(K::V, V)>,
    m1: nat,
    out1: Seq<Seq<(K::V, C)>>,
    r1: Seq<(K::V, C)>,
    m2: nat,
    out2: Seq<Seq<(K::V, C)>>,
    r2: Seq<(K::V, C)>,
    b: int,
)
    requires
        0 < m1,
        0 < m2,
        out1.len() == out2.len() <= usize::MAX,
        0 <= b < out1.len(),
        folds_values(create, merge_value, merge_combiners, fold),
        map_combined::<K, V, C>(create, merge_value, pairs, m1, out1),
        map_combined::<K, V, C>(create, merge_value, pairs, m2, out2),
        combined(keeps(), merge_combiners, out1[b], r1),
        combined(keeps(), merge_combiners, out2[b], r2),
    ensures
        r1.to_multiset() == r2.to_multiset(),
{
    lemma_combined_keys(keeps(), merge_combiners, out1[b], r1);
    lemma_combined_keys(keeps(), merge_combiners, out2[b], r2);
    assert forall|e: (K::V, C)| r1.contains(e) <==> #[trigger] r2.contains(e) by {
        lemma_limit_is_unseen::<K, V, C>(
            create,
            merge_value,
            merge_combiners,
            fold,
            pairs,
            m1,
            out1,
            b,
            r1,
            e.0,
        );
        lemma_limit_is_unseen::<K, V, C>(
            create,
            merge_value,
            merge_combiners,
            fold,
            pairs,
            m2,
            out2,
            b,
            r2,
            e.0,
        );
        lemma_record_of_key(r1, e);
        lemma_record_of_key(r2, e);
    }
    lemma_same_elements(r1, r2);
}

/// Where the keys of records are distinct, a record is among them exactly if its value is the one
/// value of its key.
proof fn lemma_record_of_key<I, C>(t: Seq<(I, C)>, e: (I, C))
    requires
        forall|a: int, b: int| 0 <= a < b < t.len() ==> (#[trigger] t[a]).0 != (#[trigger] t[b]).0,
    ensures
        t.contains(e) <==> values_of(t, e.0) == seq![e.1],
{
    if t.contains(e) {
        let i = choose|i: int| 0 <= i < t.len() && t[i] == e;
        lemma_value_of_distinct(t, i);
    }
    if values_of(t, e.0) == seq![e.1] {
        lemma_has_record(t, e.0);
        let i = choose|i: int| 0 <= i < t.len() && (#[trigger] t[i]).0 == e.0;
        lemma_value_of_distinct(t, i);
        assert(seq![e.1][0] == seq![t[i].1][0]);
        assert(t[i] == e);
    }
}

/// A fold starts with the first value and takes in the others, one after the other.
pub proof fn lemma_left_fold<A>(op: spec_fn(A, A) -> A, xs: Seq<A>)
    requires
        xs.len() > 0,
    ensures
        left_fold(op, xs) == xs.skip(1).fold_left(xs[0], op),
    decreases xs.len(),
{
    if xs.len() > 1 {
        lemma_left_fold(op, xs.drop_last());
        assert(xs.skip(1).drop_last() =~= xs.drop_last().skip(1));
        assert(xs.skip(1).last() == xs.last());
    } else {
        assert(xs.skip(1) =~= Seq::empty());
    }
}

/// The images of values are what each of them maps to.
pub proof fn lemma_images<V, A>(unit: spec_fn(V) -> A, vs: Seq<V>)
    ensures
        images(unit, vs) == vs.map_values(unit),
{
    assert(images(unit, vs) =~= vs.map_values(unit));
}

/// All records of an input are those of its partitions, one after the other, with the view of each
/// key in the key's place.
pub proof fn lemma_all_records<K: DeepView, V>(inp: Seq<Seq<(K, V)>>)
    ensures
        all_records(inp) == inp.flatten().map_values(|e: (K, V)| (e.0.deep_view(), e.1)),
    decreases inp.len(),
{
    let view = |e: (K, V)| (e.0.deep_view(), e.1);
    lemma_concat_flattens(inp);
    let parts = Seq::new(inp.len(), |p: int| by_view(inp[p]));
    if inp.len() > 0 {
        lemma_all_records(inp.drop_last());
        lemma_concat_flattens(inp.drop_last());
        assert(parts.drop_last() =~= Seq::new(
            inp.drop_last().len(),
            |p: int| by_view(inp.drop_last()[p]),
        ));
        assert(parts.last() =~= inp.last().map_values(view));
        assert((concat(inp.drop_last()) + inp.last()).map_values(view) =~= concat(
            inp.drop_last(),
        ).map_values(view) + inp.last().map_values(view));
    } else {
        assert(all_records(inp) =~= inp.flatten().map_values(view));
    }
}

/// The windows of a sequence are cut from it one after the other: each but the last has `m`
/// elements, and the last no more.
pub proof fn lemma_windows<A>(s: Seq<A>, m: nat)
    requires
        m > 0,
    ensures
        windows(s, m).flatten() == s,
        forall|w: int| 0 <= w < windows(s, m).len() - 1 ==> (#[trigger] windows(s, m)[w]).len() == m,
        s.len() > 0 ==> windows(s, m).len() > 0 && 0 < windows(s, m).last().len() <= m,
        s.len() == 0 ==> windows(s, m).len() == 0,
    decreases s.len(),
{
    lemma_windows_concat(s, m);
    lemma_concat_flattens(windows(s, m));
    if s.len() > m {
        let rest = s.skip(m as int);
        let ws = windows(s, m);
        lemma_windows(rest, m);
        assert(ws.last() == windows(rest, m).last());
        assert forall|w: int| 0 <= w < ws.len() - 1 implies (#[trigger] ws[w]).len() == m by {
            if w > 0 {
                assert(ws[w] == windows(rest, m)[w - 1]);
            }
        }
    }
}

} // verus!
