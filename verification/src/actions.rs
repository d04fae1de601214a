//! Putting the results of partitions together.
use std::sync::atomic::AtomicBool;

use vstd::prelude::*;

use crate::combine::{foldable, folded, keeps, keeps_on, merges, merges_on};
use crate::error::Error;
use crate::exec::{
    catch_compute_result, is_cancelled, partition_result, was_cancelled, went_on, Outcome,
};
use crate::seqs::{concat, lemma_concat_flattens, lemma_concat_push, rows};

verus! {

/// The items of all partitions, partition after partition.
pub fn concat_parts<T>(parts: Vec<Vec<T>>) -> (all: Vec<T>)
    ensures
        all@ == concat(rows(parts@)),
{
    let ghost src = parts@;
    let mut all: Vec<T> = Vec::new();
    assert(rows(src.take(0)) =~= Seq::<Seq<T>>::empty());
    for part in it: parts
        invariant
            it.seq() == src,
            all@ == concat(rows(src.take(it.index()))),
    {
        let mut more = part;
        proof {
            let done = src.take(it.index());
            assert(src.take(it.index() + 1) =~= done.push(part));
            assert(rows(done.push(part)) =~= rows(done).push(part@));
            lemma_concat_push(rows(done), part@);
        }
        all.append(&mut more);
    }
    assert(src.take(src.len() as int) =~= src);
    all
}

/// The sum of sizes.
pub open spec fn sum(sizes: Seq<usize>) -> nat
    decreases sizes.len(),
{
    if sizes.len() == 0 {
        0
    } else {
        sum(sizes.drop_last()) + sizes.last() as nat
    }
}

proof fn lemma_sum_grows(sizes: Seq<usize>, k: int)
    requires
        0 <= k <= sizes.len(),
    ensures
        sum(sizes.take(k)) <= sum(sizes),
    decreases sizes.len() - k,
{
    if k < sizes.len() {
        lemma_sum_grows(sizes, k + 1);
        assert(sizes.take(k + 1).drop_last() =~= sizes.take(k));
    } else {
        assert(sizes.take(k) =~= sizes);
    }
}

/// The sum of the sizes of all partitions, if it can be counted.
pub fn total(sizes: &Vec<usize>) -> (r: Result<usize, Error>)
    ensures
        match r {
            Ok(n) => n == sum(sizes@),
            Err(e) => e is CountOverflow && sum(sizes@) > usize::MAX,
        },
{
    let mut n: usize = 0;
    let mut i: usize = 0;
    assert(sizes@.take(0) =~= Seq::<usize>::empty());
    while i < sizes.len()
        invariant
            i <= sizes@.len(),
            n == sum(sizes@.take(i as int)),
        decreases sizes@.len() - i,
    {
        proof {
            assert(sizes@.take(i + 1).drop_last() =~= sizes@.take(i as int));
            lemma_sum_grows(sizes@, i + 1);
        }
        n = match n.checked_add(sizes[i]) {
            Some(m) => m,
            None => return Err(Error::CountOverflow),
        };
        i = i + 1;
    }
    assert(sizes@.take(sizes@.len() as int) =~= sizes@);
    Ok(n)
}

/// The sizes of parts add up to the number of items in all of them.
pub proof fn lemma_sum_of_lengths<T>(parts: Seq<Seq<T>>, sizes: Seq<usize>)
    requires
        sizes.len() == parts.len(),
        forall|p: int| 0 <= p < parts.len() ==> #[trigger] sizes[p] == parts[p].len(),
    ensures
        sum(sizes) == concat(parts).len(),
    decreases parts.len(),
{
    if parts.len() > 0 {
        assert(sizes[parts.len() - 1] == parts[parts.len() - 1].len());
        assert forall|p: int| 0 <= p < parts.drop_last().len() implies #[trigger] sizes.drop_last()[p]
            == parts.drop_last()[p].len() by {
            assert(sizes[p] == parts[p].len());
        }
        lemma_sum_of_lengths(parts.drop_last(), sizes.drop_last());
    }
}

/// Folds the items of a partition, from the first to the last.
pub fn fold_items<T, F: Fn(T, T) -> T>(
    items: Vec<T>,
    f: &F,
    cancel: Option<&AtomicBool>,
) -> (r: Result<Option<T>, Error>)
    requires
        foldable(keeps_on(), keeps(), merges_on(*f), merges(*f), items@),
    ensures
        match r {
            Ok(Some(v)) => folded(keeps(), merges(*f), items@, v) && (items@.len() > 1 ==> went_on(
                cancel,
            )),
            Ok(None) => items@.len() == 0,
            Err(e) => e is Cancelled && was_cancelled(cancel) && items@.len() > 1,
        },
{
    let ghost all = items@;
    let mut acc: Option<T> = None;
    for x in it: items
        invariant
            it.seq() == all,
            foldable(keeps_on(), keeps(), merges_on(*f), merges(*f), all),
            acc is None <==> it.index() == 0,
            it.index() > 1 ==> went_on(cancel),
            it.index() > 0 ==> folded(keeps(), merges(*f), all.take(it.index()), acc->0),
    {
        let ghost i = it.index();
        assert(all[i] == x);
        match acc {
            None => {
                acc = Some(x);
                assert(all.take(1) =~= seq![x]);
            },
            Some(a) => {
                if is_cancelled(cancel) {
                    return Err(Error::Cancelled);
                }
                assert(merges_on(*f)(a, all[i]));
                let c = f(a, x);
                acc = Some(c);
                proof {
                    let next = all.take(i + 1);
                    assert(next.drop_last() =~= all.take(i));
                    assert(next.last() == x);
                    assert(merges(*f)(a, x, c));
                }
            },
        }
    }
    assert(all.take(all.len() as int) =~= all);
    Ok(acc)
}

/// The values that are there, in order.
pub open spec fn somes<T>(s: Seq<Option<T>>) -> Seq<T>
    decreases s.len(),
{
    if s.len() == 0 {
        Seq::empty()
    } else {
        match s.last() {
            Some(v) => somes(s.drop_last()).push(v),
            None => somes(s.drop_last()),
        }
    }
}

/// Folds what the partitions came to; there is nothing to fold where none came to anything.
pub fn fold_partials<T, F: Fn(T, T) -> T>(partials: Vec<Option<T>>, f: &F) -> (r: Result<T, Error>)
    requires
        foldable(keeps_on(), keeps(), merges_on(*f), merges(*f), somes(partials@)),
    ensures
        match r {
            Ok(v) => folded(keeps(), merges(*f), somes(partials@), v),
            Err(e) => e is EmptyRdd && somes(partials@).len() == 0,
        },
{
    let ghost all = partials@;
    let mut there: Vec<T> = Vec::new();
    assert(all.take(0) =~= Seq::<Option<T>>::empty());
    for p in it: partials
        invariant
            it.seq() == all,
            there@ == somes(all.take(it.index())),
    {
        assert(all.take(it.index() + 1).drop_last() =~= all.take(it.index()));
        match p {
            Some(v) => there.push(v),
            None => {},
        }
    }
    assert(all.take(all.len() as int) =~= all);
    match fold_items(there, f, None) {
        Ok(Some(v)) => Ok(v),
        Ok(None) => Err(Error::EmptyRdd),
        Err(e) => Err(e),
    }
}

/// The first `n` elements, or all where there are fewer.
pub open spec fn first<T>(s: Seq<T>, n: nat) -> Seq<T> {
    if s.len() <= n {
        s
    } else {
        s.take(n as int)
    }
}

/// Appends items until there are `n`.
pub fn fill<T>(out: &mut Vec<T>, items: Vec<T>, n: usize)
    requires
        old(out)@.len() <= n,
    ensures
        final(out)@ == first(old(out)@ + items@, n as nat),
{
    let ghost start = out@;
    let ghost all = items@;
    assert(start + all.take(0) =~= start);
    for x in it: items
        invariant
            it.seq() == all,
            start.len() <= n,
            out@ == first(start + all.take(it.index()), n as nat),
    {
        assert(start + all.take(it.index() + 1) =~= (start + all.take(it.index())).push(x));
        if out.len() < n {
            out.push(x);
        }
        assert(out@ =~= first(start + all.take(it.index() + 1), n as nat));
    }
    assert(all.take(all.len() as int) =~= all);
}

/// `parts` may be what `compute` made of the first partitions, one after the other: each is asked
/// for as many items as are still missing.
pub open spec fn computed_first<T, F: Fn(usize, usize) -> Outcome<Vec<T>>>(
    compute: F,
    n: usize,
    parts: Seq<Vec<T>>,
) -> bool {
    forall|p: int|
        0 <= p < parts.len() ==> computed_at(
            compute,
            n,
            concat(rows(parts.take(p))).len(),
            p,
            #[trigger] parts[p],
        )
}

/// `compute` may make `items` of partition `p` where `n` items are needed and there are some before.
pub open spec fn computed_at<T, F: Fn(usize, usize) -> Outcome<Vec<T>>>(
    compute: F,
    n: usize,
    before: nat,
    p: int,
    items: Vec<T>,
) -> bool {
    before < n && call_ensures(
        compute,
        (p as usize, (n - before) as usize),
        Outcome::Finished(Ok(items)),
    )
}

proof fn lemma_computed_more<T, F: Fn(usize, usize) -> Outcome<Vec<T>>>(
    compute: F,
    n: usize,
    parts: Seq<Vec<T>>,
    items: Vec<T>,
)
    requires
        computed_first(compute, n, parts),
        concat(rows(parts)).len() < n,
        call_ensures(
            compute,
            (parts.len() as usize, (n - concat(rows(parts)).len()) as usize),
            Outcome::Finished(Ok(items)),
        ),
    ensures
        computed_first(compute, n, parts.push(items)),
        concat(rows(parts.push(items))) == concat(rows(parts)) + items@,
{
    let more = parts.push(items);
    assert(rows(more) =~= rows(parts).push(items@));
    lemma_concat_push(rows(parts), items@);
    assert forall|q: int| 0 <= q < more.len() implies computed_at(
        compute,
        n,
        concat(rows(more.take(q))).len(),
        q,
        #[trigger] more[q],
    ) by {
        if q < parts.len() {
            assert(more.take(q) =~= parts.take(q));
            assert(computed_at(compute, n, concat(rows(parts.take(q))).len(), q, parts[q]));
        } else {
            assert(more.take(q) =~= parts);
        }
    }
}

/// The first `n` items of partitions that are computed one by one, and no more of them than it
/// takes. A partition that fails ends the work with its error; a panic is an error of the
/// partition.
pub fn take_first<T, F: Fn(usize, usize) -> Outcome<Vec<T>>>(
    n_parts: usize,
    n: usize,
    compute: &F,
) -> (r: Result<Vec<T>, Error>)
    requires
        forall|p: usize, need: usize|
            p < n_parts && 0 < need <= n ==> #[trigger] call_requires(*compute, (p, need)),
    ensures
        exists|parts: Seq<Vec<T>>|
            parts.len() <= n_parts && #[trigger] computed_first(*compute, n, parts) && match r {
                Ok(v) => v@ == first(concat(rows(parts)), n as nat) && (parts.len() == n_parts
                    || concat(rows(parts)).len() >= n),
                Err(e) => {
                    let before = concat(rows(parts)).len();
                    parts.len() < n_parts && before < n && exists|o: Outcome<Vec<T>>|
                        #[trigger] call_ensures(
                            *compute,
                            (parts.len() as usize, (n - before) as usize),
                            o,
                        ) && partition_result(parts.len() as usize, o, Err::<Vec<T>, Error>(e))
                },
            },
{
    let ghost mut parts: Seq<Vec<T>> = Seq::empty();
    let mut out: Vec<T> = Vec::new();
    let mut p: usize = 0;
    assert(rows(parts) =~= Seq::<Seq<T>>::empty());
    while p < n_parts && out.len() < n
        invariant
            p <= n_parts,
            parts.len() == p,
            forall|q: usize, need: usize|
                q < n_parts && 0 < need <= n ==> #[trigger] call_requires(*compute, (q, need)),
            computed_first(*compute, n, parts),
            out@ == first(concat(rows(parts)), n as nat),
        decreases n_parts - p,
    {
        let need = n - out.len();
        let outcome = compute(p, need);
        let ghost o = outcome;
        let items = match catch_compute_result(p, outcome) {
            Ok(v) => v,
            Err(e) => {
                assert(call_ensures(*compute, (p, need), o));
                return Err(e);
            },
        };
        proof {
            lemma_computed_more(*compute, n, parts, items);
            parts = parts.push(items);
        }
        fill(&mut out, items, n);
        p = p + 1;
    }
    Ok(out)
}

// ---- laws

/// The first `n` of some elements are `n`, or all where there are fewer, and each stands where it
/// stood.
pub proof fn lemma_first<T>(s: Seq<T>, n: nat)
    ensures
        first(s, n).len() == if s.len() < n {
            s.len()
        } else {
            n
        },
        first(s, n).is_prefix_of(s),
{
    assert(first(s, n) =~= s.subrange(0, first(s, n).len() as int));
}

/// Taking `n` items of partitions gives all items of the partitions that were computed where they
/// are fewer, and then every partition was computed; otherwise it gives `n`, the first of them.
pub proof fn lemma_taken_items<T>(computed: Seq<Seq<T>>, n_parts: nat, n: nat, items: Seq<T>)
    requires
        items == first(concat(computed), n),
        computed.len() == n_parts || concat(computed).len() >= n,
    ensures
        items.len() <= n,
        items.is_prefix_of(computed.flatten()),
        items.len() < n ==> computed.len() == n_parts && items == computed.flatten(),
{
    lemma_first(concat(computed), n);
    lemma_concat_flattens(computed);
    if items.len() < n {
        assert(items =~= computed.flatten());
    }
}

/// Partitions are computed one after the other, each for as many items as those before it left
/// missing, and none where nothing is missing.
pub proof fn lemma_computed_first<T, F: Fn(usize, usize) -> Outcome<Vec<T>>>(
    compute: F,
    n: usize,
    parts: Seq<Vec<T>>,
    p: int,
)
    requires
        computed_first(compute, n, parts),
        0 <= p < parts.len(),
    ensures
        ({
            let before = rows(parts.take(p)).flatten().len();
            before < n && call_ensures(
                compute,
                (p as usize, (n - before) as usize),
                Outcome::Finished(Ok(parts[p])),
            )
        }),
{
    lemma_concat_flattens(rows(parts.take(p)));
    assert(computed_at(compute, n, concat(rows(parts.take(p))).len(), p, parts[p]));
}

/// The sum of sizes is what adding them up one by one gives.
pub proof fn lemma_sum_adds(sizes: Seq<usize>)
    ensures
        sum(sizes) == sizes.fold_left(0int, |acc: int, size: usize| acc + size),
    decreases sizes.len(),
{
    if sizes.len() > 0 {
        lemma_sum_adds(sizes.drop_last());
    }
}

/// The values that are there are the options without those that are empty.
pub proof fn lemma_somes<T>(s: Seq<Option<T>>)
    ensures
        somes(s) == s.filter(|o: Option<T>| o is Some).map_values(|o: Option<T>| o->0),
    decreases s.len(),
{
    reveal(Seq::filter);
    if s.len() > 0 {
        lemma_somes(s.drop_last());
    }
    assert(somes(s) =~= s.filter(|o: Option<T>| o is Some).map_values(|o: Option<T>| o->0));
}

} // verus!
