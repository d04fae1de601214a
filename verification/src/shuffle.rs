//! Shuffle: combining records on the map side, routing them to buckets, reducing buckets.
use std::sync::atomic::AtomicBool;

use vstd::prelude::*;

use crate::combine::{
    by_view, can_upsert, combined, creates, creates_on, distinct_keys, foldable_by_key, keeps,
    keeps_on, lemma_can_upsert, lemma_keys_in_order, lemma_upserted_combined, merges, merges_on,
    upserted, CombineTable,
};
use crate::error::Error;
use crate::exec::{
    is_cancelled, lemma_remainder_below, lemma_stride, stride, thread_count, threads_for,
    was_cancelled, went_on, Slots,
};
use crate::key::{bucket_of, hash_bucket, ShuffleKey};
use crate::metrics::{map_emitted, map_growth, Counters};
use crate::seqs::{concat, lemma_concat_push};
use crate::spill::{record_count, spill_limit, spill_limit_bytes};
use crate::text::text_of;

verus! {

/// What one combined record is taken to weigh in memory, in bytes.
pub const RECORD_BYTES: usize = 64;

/// How many records a map task combines before it empties its table, for a limit in bytes.
pub open spec fn window_len(limit: usize) -> nat {
    if limit <= RECORD_BYTES {
        1
    } else {
        ((limit + RECORD_BYTES - 1) / RECORD_BYTES as int) as nat
    }
}

/// `s` cut into consecutive windows of `m` elements, the last one perhaps shorter.
pub open spec fn windows<A>(s: Seq<A>, m: nat) -> Seq<Seq<A>>
    decreases s.len(),
{
    if m == 0 || s.len() == 0 {
        Seq::empty()
    } else if s.len() <= m {
        seq![s]
    } else {
        seq![s.take(m as int)] + windows(s.skip(m as int), m)
    }
}

/// The records of `s` whose keys belong to bucket `b` of `n`, in order.
pub open spec fn in_bucket<K: ShuffleKey, C>(s: Seq<(K::V, C)>, n: usize, b: int) -> Seq<(K::V, C)>
    decreases s.len(),
{
    if s.len() == 0 {
        Seq::empty()
    } else {
        let init = in_bucket::<K, C>(s.drop_last(), n, b);
        if bucket_of::<K>(s.last().0, n) == b {
            init.push(s.last())
        } else {
            init
        }
    }
}

/// `cs` holds the combined records of each window of `ws`.
pub open spec fn combined_windows<I, V, C>(
    create: spec_fn(V, C) -> bool,
    merge: spec_fn(C, V, C) -> bool,
    ws: Seq<Seq<(I, V)>>,
    cs: Seq<Seq<(I, C)>>,
) -> bool {
    &&& cs.len() == ws.len()
    &&& forall|w: int| 0 <= w < ws.len() ==> combined(create, merge, ws[w], #[trigger] cs[w])
}

/// What a map task may put into its buckets: the records are combined window by window, and
/// each combined record goes to the bucket of its key.
pub open spec fn map_combined<K: ShuffleKey, V, C>(
    create: spec_fn(V, C) -> bool,
    merge: spec_fn(C, V, C) -> bool,
    pairs: Seq<(K::V, V)>,
    m: nat,
    out: Seq<Seq<(K::V, C)>>,
) -> bool {
    exists|cs: Seq<Seq<(K::V, C)>>|
        #[trigger] combined_windows(create, merge, windows(pairs, m), cs) && forall|b: int|
            0 <= b < out.len() ==> #[trigger] out[b] == in_bucket::<K, C>(
                concat(cs),
                out.len() as usize,
                b,
            )
}

/// A map task can fold the values of every key in each of its windows.
pub open spec fn map_foldable<I, V, C>(
    create_on: spec_fn(V) -> bool,
    create: spec_fn(V, C) -> bool,
    merge_on: spec_fn(C, V) -> bool,
    merge: spec_fn(C, V, C) -> bool,
    pairs: Seq<(I, V)>,
    m: nat,
) -> bool {
    forall|w: int|
        0 <= w < windows(pairs, m).len() ==> foldable_by_key(
            create_on,
            create,
            merge_on,
            merge,
            #[trigger] windows(pairs, m)[w],
        )
}

/// The buckets of a map task, with the view of each key in the key's place.
pub open spec fn bucket_views<K: DeepView, C>(v: Seq<Vec<(K, C)>>) -> Seq<Seq<(K::V, C)>> {
    Seq::new(v.len(), |b: int| by_view(v[b]@))
}

proof fn lemma_in_bucket_push<K: ShuffleKey, C>(s: Seq<(K::V, C)>, e: (K::V, C), n: usize, b: int)
    ensures
        in_bucket::<K, C>(s.push(e), n, b) == if bucket_of::<K>(e.0, n) == b {
            in_bucket::<K, C>(s, n, b).push(e)
        } else {
            in_bucket::<K, C>(s, n, b)
        },
{
    assert(s.push(e).drop_last() =~= s);
}

pub proof fn lemma_in_bucket_add<K: ShuffleKey, C>(
    s: Seq<(K::V, C)>,
    t: Seq<(K::V, C)>,
    n: usize,
    b: int,
)
    ensures
        in_bucket::<K, C>(s + t, n, b) == in_bucket::<K, C>(s, n, b) + in_bucket::<K, C>(t, n, b),
    decreases t.len(),
{
    if t.len() == 0 {
        assert(s + t =~= s);
        assert(in_bucket::<K, C>(s, n, b) + in_bucket::<K, C>(t, n, b) =~= in_bucket::<K, C>(
            s,
            n,
            b,
        ));
    } else {
        lemma_in_bucket_add::<K, C>(s, t.drop_last(), n, b);
        assert((s + t).drop_last() =~= s + t.drop_last());
        assert(in_bucket::<K, C>(s + t, n, b) =~= in_bucket::<K, C>(s, n, b) + in_bucket::<K, C>(
            t,
            n,
            b,
        ));
    }
}

/// Moves records to the buckets of their keys.
fn route<K: ShuffleKey, C>(buckets: &mut Vec<Vec<(K, C)>>, pairs: Vec<(K, C)>)
    requires
        old(buckets)@.len() > 0 || pairs@.len() == 0,
    ensures
        final(buckets)@.len() == old(buckets)@.len(),
        forall|b: int|
            #![trigger final(buckets)@[b]]
            0 <= b < final(buckets)@.len() ==> by_view(final(buckets)@[b]@) == by_view(
                old(buckets)@[b]@,
            ) + in_bucket::<K, C>(by_view(pairs@), old(buckets)@.len() as usize, b),
{
    let n = buckets.len();
    let ghost start = buckets@;
    let ghost all = pairs@;
    for (k, c) in it: pairs
        invariant
            it.seq() == all,
            n == start.len(),
            n > 0 || all.len() == 0,
            buckets@.len() == n,
            forall|b: int|
                #![trigger buckets@[b]]
                0 <= b < n ==> by_view(buckets@[b]@) == by_view(start[b]@) + in_bucket::<K, C>(
                    by_view(all.take(it.index())),
                    n,
                    b,
                ),
    {
        let ghost done = all.take(it.index());
        let ghost before = buckets@;
        let ghost e = (k.deep_view(), c);
        let b = hash_bucket(&k, n);
        buckets[b].push((k, c));
        proof {
            assert(all.take(it.index() + 1) =~= done.push((k, c)));
            assert(by_view(done.push((k, c))) =~= by_view(done).push(e));
            assert forall|j: int| #![trigger buckets@[j]] 0 <= j < n implies by_view(buckets@[j]@)
                == by_view(start[j]@) + in_bucket::<K, C>(
                by_view(all.take(it.index() + 1)),
                n,
                j,
            ) by {
                lemma_in_bucket_push::<K, C>(by_view(done), e, n, j);
                assert(by_view(before[j]@) == by_view(start[j]@) + in_bucket::<K, C>(
                    by_view(done),
                    n,
                    j,
                ));
                if j == b {
                    assert(by_view(buckets@[j]@) =~= by_view(before[j]@).push(e));
                }
                assert(by_view(buckets@[j]@) =~= by_view(start[j]@) + in_bucket::<K, C>(
                    by_view(all.take(it.index() + 1)),
                    n,
                    j,
                ));
            }
        }
    }
    assert(all.take(all.len() as int) =~= all);
}

/// A vector of `n` empty buckets.
pub fn empty_buckets<A>(n: usize) -> (v: Vec<Vec<A>>)
    ensures
        v@.len() == n,
        forall|b: int| 0 <= b < n ==> (#[trigger] v@[b])@ == Seq::<A>::empty(),
{
    let mut v: Vec<Vec<A>> = Vec::with_capacity(n);
    let mut i: usize = 0;
    while i < n
        invariant
            i <= n,
            v@.len() == i,
            forall|b: int| 0 <= b < i ==> (#[trigger] v@[b])@ == Seq::<A>::empty(),
        decreases n - i,
    {
        v.push(Vec::new());
        i = i + 1;
    }
    v
}

/// Empties a table of combined records into the buckets.
fn flush<K: ShuffleKey, C>(table: &mut CombineTable<K, C>, buckets: &mut Vec<Vec<(K, C)>>)
    requires
        old(table).wf(),
        old(buckets)@.len() > 0 || old(table)@.len() == 0,
    ensures
        final(table).wf(),
        final(table)@ == Seq::<(K::V, C)>::empty(),
        final(buckets)@.len() == old(buckets)@.len(),
        forall|b: int|
            #![trigger final(buckets)@[b]]
            0 <= b < final(buckets)@.len() ==> by_view(final(buckets)@[b]@) == by_view(
                old(buckets)@[b]@,
            ) + in_bucket::<K, C>(old(table)@, old(buckets)@.len() as usize, b),
{
    let mut full: CombineTable<K, C> = CombineTable::new();
    std::mem::swap(&mut full, table);
    let pairs = full.into_pairs();
    route(buckets, pairs);
}

/// Combines the records of one map partition and routes them to `n_out` buckets, emptying the
/// table of combined records whenever its estimated size reaches `limit` bytes.
pub fn write_map_combine_limited<K: ShuffleKey, V, C, Create: Fn(V) -> C, MergeV: Fn(C, V) -> C>(
    n_out: usize,
    pairs: Vec<(K, V)>,
    create: &Create,
    merge_value: &MergeV,
    cancel: Option<&AtomicBool>,
    limit: usize,
) -> (r: Result<Vec<Vec<(K, C)>>, Error>)
    requires
        n_out > 0 || pairs@.len() == 0,
        map_foldable(
            creates_on(*create),
            creates(*create),
            merges_on(*merge_value),
            merges(*merge_value),
            by_view(pairs@),
            window_len(limit),
        ),
    ensures
        match r {
            Ok(out) => {
                &&& out@.len() == n_out
                &&& map_combined::<K, V, C>(
                    creates(*create),
                    merges(*merge_value),
                    by_view(pairs@),
                    window_len(limit),
                    bucket_views(out@),
                )
                &&& pairs@.len() > 0 ==> went_on(cancel)
            },
            Err(e) => e is Cancelled && was_cancelled(cancel) && pairs@.len() > 0,
        },
{
    let ghost all = pairs@;
    let ghost pv = by_view(all);
    let ghost m = window_len(limit);
    let ghost cr = creates(*create);
    let ghost mg = merges(*merge_value);
    let ghost mut ws: Seq<Seq<(K::V, V)>> = Seq::empty();
    let ghost mut cs: Seq<Seq<(K::V, C)>> = Seq::empty();
    let ghost mut start: int = 0;
    let mut table: CombineTable<K, C> = CombineTable::new();
    let mut buckets: Vec<Vec<(K, C)>> = empty_buckets(n_out);
    let mut bytes: usize = 0;
    proof {
        assert(pv.skip(0) =~= pv);
        assert(ws + windows(pv, m) =~= windows(pv, m));
        assert(pv.subrange(0, 0) =~= Seq::<(K::V, V)>::empty());
        assert forall|b: int| #![trigger buckets@[b]] 0 <= b < n_out implies by_view(buckets@[b]@)
            == in_bucket::<K, C>(concat(cs), n_out, b) by {
            assert(by_view(buckets@[b]@) =~= Seq::<(K::V, C)>::empty());
        }
    }
    for (k, v) in it: pairs
        invariant
            it.seq() == all,
            pv == by_view(all),
            m == window_len(limit),
            cr == creates(*create),
            mg == merges(*merge_value),
            n_out > 0 || all.len() == 0,
            it.index() > 0 ==> went_on(cancel),
            map_foldable(creates_on(*create), cr, merges_on(*merge_value), mg, pv, m),
            buckets@.len() == n_out,
            table.wf(),
            0 <= start <= it.index(),
            it.index() - start < m,
            combined(cr, mg, pv.subrange(start, it.index()), table@),
            windows(pv, m) == ws + windows(pv.skip(start), m),
            combined_windows(cr, mg, ws, cs),
            bytes == RECORD_BYTES * (it.index() - start),
            forall|b: int|
                #![trigger buckets@[b]]
                0 <= b < n_out ==> by_view(buckets@[b]@) == in_bucket::<K, C>(concat(cs), n_out, b),
    {
        if is_cancelled(cancel) {
            return Err(Error::Cancelled);
        }
        let ghost i = it.index() as int;
        let ghost cur = pv.subrange(start, i);
        let ghost rest = pv.skip(start);
        let ghost before = table@;
        let ghost head = if rest.len() <= m {
            rest
        } else {
            rest.take(m as int)
        };
        let ghost tail = if rest.len() <= m {
            Seq::<Seq<(K::V, V)>>::empty()
        } else {
            windows(rest.skip(m as int), m)
        };
        proof {
            assert(all[i] == (k, v));
            assert(windows(rest, m) =~= seq![head] + tail);
            assert(windows(pv, m)[ws.len() as int] == head);
            assert(head.take(i - start) =~= cur);
            assert(head[i - start] == pv[i]);
            lemma_can_upsert(
                creates_on(*create),
                cr,
                merges_on(*merge_value),
                mg,
                head,
                i - start,
                before,
            );
        }
        table.upsert(k, v, create, merge_value);
        proof {
            lemma_upserted_combined(cr, mg, cur, before, pv[i].0, v, table@);
            assert(pv.subrange(start, i + 1) =~= cur.push(pv[i]));
        }
        bytes = bytes.saturating_add(RECORD_BYTES);
        if bytes >= limit {
            let ghost old_buckets = buckets@;
            let ghost flushed = table@;
            flush(&mut table, &mut buckets);
            bytes = 0;
            proof {
                assert(i + 1 - start == m);
                assert(head =~= pv.subrange(start, i + 1));
                lemma_concat_push(cs, flushed);
                assert forall|b: int| #![trigger buckets@[b]] 0 <= b < n_out implies by_view(
                    buckets@[b]@,
                ) == in_bucket::<K, C>(concat(cs.push(flushed)), n_out, b) by {
                    assert(by_view(old_buckets[b]@) == in_bucket::<K, C>(concat(cs), n_out, b));
                    lemma_in_bucket_add::<K, C>(concat(cs), flushed, n_out, b);
                }
                assert(rest.skip(m as int) =~= pv.skip(i + 1));
                if rest.len() == m {
                    assert(pv.skip(i + 1).len() == 0);
                }
                assert(tail == windows(pv.skip(i + 1), m));
                assert(ws + (seq![head] + tail) =~= ws.push(head) + tail);
                ws = ws.push(head);
                cs = cs.push(flushed);
                start = i + 1;
                assert(pv.subrange(start, start) =~= Seq::<(K::V, V)>::empty());
            }
        }
    }
    let ghost old_buckets = buckets@;
    let ghost flushed = table@;
    flush(&mut table, &mut buckets);
    proof {
        let n = all.len() as int;
        let cs0 = cs;
        let cur = pv.subrange(start, n);
        assert(pv.skip(start) =~= cur);
        lemma_concat_push(cs, flushed);
        if cur.len() > 0 {
            assert(windows(cur, m) =~= seq![cur]);
            assert(ws + seq![cur] =~= ws.push(cur));
            ws = ws.push(cur);
            cs = cs.push(flushed);
        } else {
            assert(ws + windows(cur, m) =~= ws);
            assert(flushed =~= Seq::<(K::V, C)>::empty());
        }
        assert forall|b: int| 0 <= b < bucket_views(buckets@).len() implies #[trigger] bucket_views(
            buckets@,
        )[b] == in_bucket::<K, C>(concat(cs), n_out, b) by {
            let _ = buckets@[b];
            assert(by_view(old_buckets[b]@) == in_bucket::<K, C>(concat(cs0), n_out, b));
            lemma_in_bucket_add::<K, C>(concat(cs0), flushed, n_out, b);
            if cur.len() == 0 {
                assert(concat(cs0) + flushed =~= concat(cs0));
            }
            assert(by_view(buckets@[b]@) =~= in_bucket::<K, C>(concat(cs), n_out, b));
        }
        assert(combined_windows(cr, mg, windows(pv, m), cs));
    }
    Ok(buckets)
}

/// Combines the records of one map partition and routes them to `n_out` buckets, within the limit
/// that a setting in MiB asks for.
pub fn write_map_combine<K: ShuffleKey, V, C, Create: Fn(V) -> C, MergeV: Fn(C, V) -> C>(
    n_out: usize,
    pairs: Vec<(K, V)>,
    create: &Create,
    merge_value: &MergeV,
    cancel: Option<&AtomicBool>,
    setting: Option<&str>,
) -> (r: Result<Vec<Vec<(K, C)>>, Error>)
    requires
        n_out > 0 || pairs@.len() == 0,
        map_foldable(
            creates_on(*create),
            creates(*create),
            merges_on(*merge_value),
            merges(*merge_value),
            by_view(pairs@),
            window_len(spill_limit(text_of(setting))),
        ),
    ensures
        match r {
            Ok(out) => {
                &&& out@.len() == n_out
                &&& map_combined::<K, V, C>(
                    creates(*create),
                    merges(*merge_value),
                    by_view(pairs@),
                    window_len(spill_limit(text_of(setting))),
                    bucket_views(out@),
                )
                &&& pairs@.len() > 0 ==> went_on(cancel)
            },
            Err(e) => e is Cancelled && was_cancelled(cancel) && pairs@.len() > 0,
        },
{
    let limit = spill_limit_bytes(setting);
    write_map_combine_limited(n_out, pairs, create, merge_value, cancel, limit)
}

/// Folds one record into a table with `f`.
pub fn combine<K: ShuffleKey, V, F: Fn(V, V) -> V>(
    map: &mut CombineTable<K, V>,
    key: K,
    val: V,
    f: &F,
)
    requires
        old(map).wf(),
        can_upsert(keeps_on(), merges_on(*f), old(map)@, key.deep_view(), val),
    ensures
        final(map).wf(),
        upserted(keeps(), merges(*f), old(map)@, key.deep_view(), val, final(map)@),
{
    let keep = |v: V| -> (r: V)
        ensures
            r == v,
        { v };
    map.upsert(key, val, &keep, f);
    proof {
        assert forall|v: V, r: V| #[trigger] creates(keep)(v, r) implies keeps()(v, r) by {}
    }
}

/// Reduces the records of one bucket: one record for each key, its values folded with `f`.
pub fn reduce_bucket<K: ShuffleKey, V, F: Fn(V, V) -> V>(pairs: Vec<(K, V)>, f: &F) -> (out: Vec<
    (K, V),
>)
    requires
        foldable_by_key(keeps_on(), keeps(), merges_on(*f), merges(*f), by_view(pairs@)),
    ensures
        combined(keeps(), merges(*f), by_view(pairs@), by_view(out@)),
{
    let ghost all = pairs@;
    let ghost pv = by_view(all);
    let mut map: CombineTable<K, V> = CombineTable::new();
    assert(pv.take(0) =~= Seq::<(K::V, V)>::empty());
    for (k, v) in it: pairs
        invariant
            it.seq() == all,
            pv == by_view(all),
            foldable_by_key(keeps_on(), keeps(), merges_on(*f), merges(*f), pv),
            map.wf(),
            combined(keeps(), merges(*f), pv.take(it.index()), map@),
    {
        let ghost i = it.index() as int;
        let ghost before = map@;
        proof {
            assert(all[i] == (k, v));
            lemma_can_upsert(keeps_on(), keeps(), merges_on(*f), merges(*f), pv, i, before);
        }
        combine(&mut map, k, v, f);
        proof {
            lemma_upserted_combined(keeps(), merges(*f), pv.take(i), before, pv[i].0, v, map@);
            assert(pv.take(i + 1) =~= pv.take(i).push(pv[i]));
        }
    }
    assert(pv.take(all.len() as int) =~= pv);
    map.into_pairs()
}

/// Appends each bucket of `src` to the bucket of the same number.
pub fn extend_each<A>(dst: &mut Vec<Vec<A>>, src: Vec<Vec<A>>)
    requires
        src@.len() <= old(dst)@.len(),
    ensures
        final(dst)@.len() == old(dst)@.len(),
        forall|b: int|
            #![trigger final(dst)@[b]]
            0 <= b < old(dst)@.len() ==> final(dst)@[b]@ == if b < src@.len() {
                old(dst)@[b]@ + src@[b]@
            } else {
                old(dst)@[b]@
            },
{
    let ghost start = dst@;
    let ghost all = src@;
    let n = dst.len();
    let mut i: usize = 0;
    for chunk in it: src
        invariant
            it.seq() == all,
            i == it.index(),
            all.len() <= start.len(),
            start.len() == n,
            dst@.len() == n,
            forall|b: int|
                #![trigger dst@[b]]
                0 <= b < start.len() ==> dst@[b]@ == if b < i {
                    start[b]@ + all[b]@
                } else {
                    start[b]@
                },
    {
        let mut more = chunk;
        dst[i].append(&mut more);
        i = i + 1;
    }
}

/// Reduces every bucket, as many threads would: each thread takes the buckets of its stride. What a
/// bucket comes to does not depend on the number of threads.
pub fn parallel_reduce_buckets<K: ShuffleKey, V, F: Fn(V, V) -> V>(
    merged: Vec<Vec<(K, V)>>,
    f: &F,
    parallelism: usize,
) -> (out: Vec<Vec<(K, V)>>)
    requires
        forall|b: int|
            0 <= b < merged@.len() ==> foldable_by_key(
                keeps_on(),
                keeps(),
                merges_on(*f),
                merges(*f),
                by_view((#[trigger] merged@[b])@),
            ),
    ensures
        out@.len() == merged@.len(),
        forall|b: int|
            #![trigger out@[b]]
            0 <= b < out@.len() ==> combined(
                keeps(),
                merges(*f),
                by_view(merged@[b]@),
                by_view(out@[b]@),
            ),
{
    let ghost all = merged@;
    let n = merged.len();
    let mut left = Slots::all(merged);
    let mut done: Slots<Vec<(K, V)>> = Slots::new(n);
    let threads = thread_count(n, parallelism);
    let mut t: usize = 0;
    while t < threads
        invariant
            t <= threads,
            threads == threads_for(n, parallelism),
            n == all.len(),
            left@.len() == n,
            done@.len() == n,
            forall|b: int|
                0 <= b < all.len() ==> foldable_by_key(
                    keeps_on(),
                    keeps(),
                    merges_on(*f),
                    merges(*f),
                    by_view((#[trigger] all[b])@),
                ),
            forall|b: usize|
                #![trigger left@[b as int]]
                #![trigger done@[b as int]]
                b < n ==> bucket_state(
                    *f,
                    all[b as int],
                    b % threads < t,
                    left@[b as int],
                    done@[b as int],
                ),
        decreases threads - t,
    {
        let mine = stride(t, threads, n);
        proof {
            assert(t as int % threads as int == t) by (nonlinear_arith)
                requires
                    0 <= t < threads,
            ;
            lemma_stride(t as int, t as int, threads as int, n as int);
        }
        let mut i: usize = 0;
        while i < mine.len()
            invariant
                i <= mine@.len(),
                t < threads,
                threads == threads_for(n, parallelism),
                n == all.len(),
                mine@.no_duplicates(),
                forall|q: usize| #[trigger]
                    mine@.contains(q) <==> t <= q < n && q as int % threads as int == t,
                left@.len() == n,
                done@.len() == n,
                forall|b: int|
                    0 <= b < all.len() ==> foldable_by_key(
                        keeps_on(),
                        keeps(),
                        merges_on(*f),
                        merges(*f),
                        by_view((#[trigger] all[b])@),
                    ),
                forall|b: usize|
                    #![trigger left@[b as int]]
                    #![trigger done@[b as int]]
                    b < n ==> bucket_state(
                        *f,
                        all[b as int],
                        b % threads < t || mine@.take(i as int).contains(b),
                        left@[b as int],
                        done@[b as int],
                    ),
            decreases mine@.len() - i,
        {
            let p = mine[i];
            let ghost before = mine@.take(i as int);
            let ghost (left0, done0) = (left@, done@);
            proof {
                assert(mine@.contains(p));
                if before.contains(p) {
                    let j = choose|j: int| 0 <= j < before.len() && before[j] == p;
                    assert(mine@[j] == mine@[i as int]);
                }
                assert(bucket_state(*f, all[p as int], false, left@[p as int], done@[p as int]));
            }
            match left.take(p) {
                Some(bucket) => {
                    let reduced = reduce_bucket(bucket, f);
                    done.fill(p, reduced);
                },
                None => {},
            }
            proof {
                let after = mine@.take(i + 1);
                assert(after =~= before.push(p));
                assert forall|b: usize|
                    #![trigger left@[b as int]]
                    #![trigger done@[b as int]]
                    b < n implies bucket_state(
                    *f,
                    all[b as int],
                    b % threads < t || after.contains(b),
                    left@[b as int],
                    done@[b as int],
                ) by {
                    if b != p {
                        assert(left@[b as int] == left0[b as int]);
                        if before.contains(b) {
                            let j = choose|j: int| 0 <= j < before.len() && before[j] == b;
                            assert(after[j] == b);
                        }
                        if after.contains(b) {
                            let j = choose|j: int| 0 <= j < after.len() && after[j] == b;
                            assert(before[j] == b);
                        }
                    } else {
                        assert(after[i as int] == p);
                    }
                }
            }
            i = i + 1;
        }
        proof {
            assert(mine@.take(mine@.len() as int) =~= mine@);
            assert forall|b: usize|
                #![trigger left@[b as int]]
                #![trigger done@[b as int]]
                b < n implies bucket_state(
                *f,
                all[b as int],
                b % threads < t + 1,
                left@[b as int],
                done@[b as int],
            ) by {
                let _ = left@[b as int];
                if b % threads == t {
                    lemma_remainder_below(b as int, threads as int);
                    assert(mine@.contains(b));
                }
            }
        }
        t = t + 1;
    }
    let ghost slots = done@;
    match done.finish() {
        Ok(out) => {
            proof {
                assert forall|b: int| #![trigger out@[b]] 0 <= b < out@.len() implies combined(
                    keeps(),
                    merges(*f),
                    by_view(all[b]@),
                    by_view(out@[b]@),
                ) by {
                    let q = b as usize;
                    assert(slots[q as int] == Some(out@[b]));
                    assert(q % threads < threads);
                }
            }
            out
        },
        Err(e) => {
            proof {
                let p = e->MissingPartition_0;
                assert(slots[p as int] is None);
                assert(p % threads < threads);
            }
            vstd::pervasive::unreached()
        },
    }
}

/// A bucket before and after it is reduced.
spec fn bucket_state<K: ShuffleKey, V, F: Fn(V, V) -> V>(
    f: F,
    bucket: Vec<(K, V)>,
    is_done: bool,
    left: Option<Vec<(K, V)>>,
    done: Option<Vec<(K, V)>>,
) -> bool {
    if is_done {
        done matches Some(v) && combined(keeps(), merges(f), by_view(bucket@), by_view(v@))
    } else {
        left == Some(bucket)
    }
}

fn count_emitted<A>(buckets: &Vec<Vec<A>>) -> (n: u64)
    ensures
        n == capped_count(record_count(buckets@)),
{
    let mut n: u64 = 0;
    let mut b: usize = 0;
    assert(buckets@.take(0) =~= Seq::<Vec<A>>::empty());
    while b < buckets.len()
        invariant
            b <= buckets@.len(),
            n == capped_count(record_count(buckets@.take(b as int))),
        decreases buckets@.len() - b,
    {
        assert(buckets@.take(b + 1).drop_last() =~= buckets@.take(b as int));
        n = n.saturating_add(buckets[b].len() as u64);
        b = b + 1;
    }
    assert(buckets@.take(buckets@.len() as int) =~= buckets@);
    n
}

/// How many records a map task puts out: one for each key of each window.
pub open spec fn emitted<I, V>(pairs: Seq<(I, V)>, m: nat) -> nat {
    key_total(windows(pairs, m))
}

/// The number of keys of each window, added up.
pub open spec fn key_total<I, V>(ws: Seq<Seq<(I, V)>>) -> nat
    decreases ws.len(),
{
    if ws.len() == 0 {
        0
    } else {
        key_total(ws.drop_last()) + distinct_keys(ws.last()).len()
    }
}

/// A number, or the largest that a counter can hold.
pub open spec fn capped_count(n: nat) -> u64 {
    if n <= u64::MAX {
        n as u64
    } else {
        u64::MAX
    }
}

/// The number of records of `s` in the first `k` of `n` buckets.
spec fn bucket_total<K: ShuffleKey, C>(s: Seq<(K::V, C)>, n: usize, k: nat) -> nat
    decreases k,
{
    if k == 0 {
        0
    } else {
        bucket_total::<K, C>(s, n, (k - 1) as nat) + in_bucket::<K, C>(s, n, k - 1).len()
    }
}

proof fn lemma_bucket_total_last<K: ShuffleKey, C>(s: Seq<(K::V, C)>, n: usize, k: nat)
    requires
        s.len() > 0,
    ensures
        bucket_total::<K, C>(s, n, k) == bucket_total::<K, C>(s.drop_last(), n, k) + (
        if bucket_of::<K>(s.last().0, n) < k {
            1nat
        } else {
            0nat
        }),
    decreases k,
{
    if k > 0 {
        lemma_bucket_total_last::<K, C>(s, n, (k - 1) as nat);
    }
}

proof fn lemma_bucket_total<K: ShuffleKey, C>(s: Seq<(K::V, C)>, n: usize)
    requires
        n > 0,
    ensures
        bucket_total::<K, C>(s, n, n as nat) == s.len(),
    decreases s.len(),
{
    if s.len() > 0 {
        lemma_bucket_total::<K, C>(s.drop_last(), n);
        lemma_bucket_total_last::<K, C>(s, n, n as nat);
    } else {
        lemma_no_bucket_total::<K, C>(s, n, n as nat);
    }
}

proof fn lemma_no_bucket_total<K: ShuffleKey, C>(s: Seq<(K::V, C)>, n: usize, k: nat)
    requires
        s.len() == 0,
    ensures
        bucket_total::<K, C>(s, n, k) == 0,
    decreases k,
{
    if k > 0 {
        lemma_no_bucket_total::<K, C>(s, n, (k - 1) as nat);
    }
}

proof fn lemma_key_total<I, V, C>(
    create: spec_fn(V, C) -> bool,
    merge: spec_fn(C, V, C) -> bool,
    ws: Seq<Seq<(I, V)>>,
    cs: Seq<Seq<(I, C)>>,
)
    requires
        combined_windows(create, merge, ws, cs),
    ensures
        concat(cs).len() == key_total(ws),
    decreases ws.len(),
{
    if ws.len() > 0 {
        let (a, b) = (ws.drop_last(), cs.drop_last());
        assert forall|w: int| 0 <= w < a.len() implies combined(
            create,
            merge,
            a[w],
            #[trigger] b[w],
        ) by {
            assert(cs[w] == b[w]);
        }
        lemma_key_total(create, merge, a, b);
        let _ = cs[ws.len() - 1];
    }
}

proof fn lemma_record_count<K: ShuffleKey, C>(
    out: Seq<Vec<(K, C)>>,
    s: Seq<(K::V, C)>,
    n: usize,
    k: int,
)
    requires
        out.len() == n,
        0 <= k <= n,
        forall|b: int|
            0 <= b < n ==> by_view((#[trigger] out[b])@) == in_bucket::<K, C>(s, n, b),
    ensures
        record_count(out.take(k)) == bucket_total::<K, C>(s, n, k as nat),
    decreases k,
{
    if k > 0 {
        lemma_record_count::<K, C>(out, s, n, k - 1);
        assert(out.take(k).drop_last() =~= out.take(k - 1));
        assert(by_view(out[k - 1]@).len() == out[k - 1]@.len());
    }
}

/// A map task puts out one record for each key of each of its windows, into however many buckets.
pub proof fn lemma_emitted<K: ShuffleKey, V, C>(
    create: spec_fn(V, C) -> bool,
    merge: spec_fn(C, V, C) -> bool,
    pairs: Seq<(K::V, V)>,
    m: nat,
    out: Seq<Vec<(K, C)>>,
)
    requires
        0 < out.len() <= usize::MAX,
        map_combined::<K, V, C>(create, merge, pairs, m, bucket_views(out)),
    ensures
        record_count(out) == emitted(pairs, m),
{
    let n = out.len() as usize;
    let views = bucket_views(out);
    let cs = choose|cs: Seq<Seq<(K::V, C)>>|
        #[trigger] combined_windows(create, merge, windows(pairs, m), cs) && forall|b: int|
            0 <= b < views.len() ==> #[trigger] views[b] == in_bucket::<K, C>(
                concat(cs),
                views.len() as usize,
                b,
            );
    lemma_key_total(create, merge, windows(pairs, m), cs);
    assert forall|b: int| 0 <= b < n implies by_view((#[trigger] out[b])@) == in_bucket::<K, C>(
        concat(cs),
        n,
        b,
    ) by {
        let _ = views[b];
    }
    lemma_record_count::<K, C>(out, concat(cs), n, n as int);
    assert(out.take(n as int) =~= out);
    lemma_bucket_total::<K, C>(concat(cs), n);
}

/// A map task that is given a record puts one out, and no more than it is given.
pub proof fn lemma_emitted_bounds<I, V>(pairs: Seq<(I, V)>, m: nat)
    requires
        m > 0,
    ensures
        emitted(pairs, m) <= pairs.len(),
        pairs.len() > 0 ==> emitted(pairs, m) > 0,
    decreases pairs.len(),
{
    if pairs.len() > 0 {
        let ws = windows(pairs, m);
        if pairs.len() <= m {
            lemma_key_total_first(pairs, Seq::empty());
            assert(ws =~= seq![pairs] + Seq::empty());
            lemma_distinct_bounds(pairs);
        } else {
            let rest = pairs.skip(m as int);
            lemma_emitted_bounds(rest, m);
            lemma_key_total_first(pairs.take(m as int), windows(rest, m));
            lemma_distinct_bounds(pairs.take(m as int));
        }
    }
}

proof fn lemma_key_total_first<I, V>(w: Seq<(I, V)>, ws: Seq<Seq<(I, V)>>)
    ensures
        key_total(seq![w] + ws) == distinct_keys(w).len() + key_total(ws),
    decreases ws.len(),
{
    let all = seq![w] + ws;
    if ws.len() == 0 {
        assert(all.drop_last() =~= Seq::<Seq<(I, V)>>::empty());
        assert(key_total(all.drop_last()) == 0);
        assert(all.last() == w);
    } else {
        lemma_key_total_first(w, ws.drop_last());
        assert(all.drop_last() =~= seq![w] + ws.drop_last());
        assert(all.last() == ws.last());
    }
}

proof fn lemma_distinct_bounds<I, V>(pairs: Seq<(I, V)>)
    ensures
        distinct_keys(pairs).len() <= pairs.len(),
        pairs.len() > 0 ==> distinct_keys(pairs).len() > 0,
    decreases pairs.len(),
{
    if pairs.len() > 0 {
        lemma_distinct_bounds(pairs.drop_last());
    }
}

/// A window holds as many records of 64 bytes as it takes to reach the limit, and at least one.
pub proof fn lemma_window_len(limit: usize)
    ensures
        window_len(limit) >= 1,
        window_len(limit) * 64 >= limit,
        limit > 0 ==> (window_len(limit) - 1) * 64 < limit,
{
}

/// The records of a bucket are those whose keys belong there, in their order.
pub proof fn lemma_in_bucket<K: ShuffleKey, C>(s: Seq<(K::V, C)>, n: usize, b: int)
    ensures
        in_bucket::<K, C>(s, n, b) == s.filter(|e: (K::V, C)| bucket_of::<K>(e.0, n) == b),
    decreases s.len(),
{
    reveal(Seq::filter);
    if s.len() > 0 {
        lemma_in_bucket::<K, C>(s.drop_last(), n, b);
    }
}

proof fn lemma_key_count<I, V>(pairs: Seq<(I, V)>)
    ensures
        distinct_keys(pairs).len() == pairs.map_values(|e: (I, V)| e.0).to_set().len(),
{
    lemma_keys_in_order(pairs);
    let keys = distinct_keys(pairs);
    let all = pairs.map_values(|e: (I, V)| e.0);
    assert forall|id: I| keys.contains(id) <==> all.contains(id) by {
        if keys.contains(id) {
            let j = choose|j: int| 0 <= j < keys.len() && keys[j] == id;
            let p = choose|p: int| 0 <= p < pairs.len() && (#[trigger] pairs[p]).0 == keys[j];
            assert(all[p] == id);
        }
        if all.contains(id) {
            let p = choose|p: int| 0 <= p < all.len() && all[p] == id;
            assert(keys.contains(pairs[p].0));
        }
    }
    assert(keys.to_set() =~= all.to_set());
    keys.unique_seq_to_set();
}

/// What a map task puts out is counted window by window: the different keys of each.
pub proof fn lemma_emitted_keys<I, V>(pairs: Seq<(I, V)>, m: nat)
    ensures
        emitted(pairs, m) == windows(pairs, m).fold_left(
            0nat,
            |acc: nat, w: Seq<(I, V)>| acc + w.map_values(|e: (I, V)| e.0).to_set().len(),
        ),
{
    lemma_key_total_keys(windows(pairs, m));
}

proof fn lemma_key_total_keys<I, V>(ws: Seq<Seq<(I, V)>>)
    ensures
        key_total(ws) == ws.fold_left(
            0nat,
            |acc: nat, w: Seq<(I, V)>| acc + w.map_values(|e: (I, V)| e.0).to_set().len(),
        ),
    decreases ws.len(),
{
    if ws.len() > 0 {
        lemma_key_total_keys(ws.drop_last());
        lemma_key_count(ws.last());
    }
}

/// A count is capped only where sixty-four bits do not hold it.
pub proof fn lemma_capped_count(n: nat)
    ensures
        n <= 0xffff_ffff_ffff_ffff ==> capped_count(n) == n,
        n > 0xffff_ffff_ffff_ffff ==> capped_count(n) == 0xffff_ffff_ffff_ffff,
{
}

/// Runs a map task: combines its records by key into buckets, and counts what it put out.
pub fn map_task<K: ShuffleKey, V, C, Create: Fn(V) -> C, MergeV: Fn(C, V) -> C>(
    n_out: usize,
    pairs: Vec<(K, V)>,
    create: &Create,
    merge_value: &MergeV,
    cancel: Option<&AtomicBool>,
    limit: usize,
    counters: &Counters,
) -> (r: Result<Vec<Vec<(K, C)>>, Error>)
    requires
        n_out > 0 || pairs@.len() == 0,
        map_foldable(
            creates_on(*create),
            creates(*create),
            merges_on(*merge_value),
            merges(*merge_value),
            by_view(pairs@),
            window_len(limit),
        ),
    ensures
        match r {
            Ok(out) => {
                &&& out@.len() == n_out
                &&& map_combined::<K, V, C>(
                    creates(*create),
                    merges(*merge_value),
                    by_view(pairs@),
                    window_len(limit),
                    bucket_views(out@),
                )
                &&& pairs@.len() > 0 ==> went_on(cancel)
                &&& counters.grew(map_growth(capped_count(record_count(out@))))
            },
            Err(e) => e is Cancelled && was_cancelled(cancel) && pairs@.len() > 0,
        },
{
    match write_map_combine_limited(n_out, pairs, create, merge_value, cancel, limit) {
        Ok(out) => {
            counters.add(map_emitted(count_emitted(&out)));
            Ok(out)
        },
        Err(e) => Err(e),
    }
}

} // verus!
