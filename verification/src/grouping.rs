//! Grouping by key, and dropping duplicates.
use vstd::prelude::*;

use crate::combine::{by_view, keeps, keeps_on, merges, merges_on, values_of};
use crate::dataset::{
    cloned_all, each_part, evaluates, lemma_narrow_evaluation, mapped, mapping, part_map,
    starts_with, turns_first, turns_some, within, Dataset,
};
use crate::folds::{
    all_records, associative, images, left_fold, lemma_all_records, lemma_has_record,
    lemma_shuffled_sums, stands_for,
};
use crate::key::{bucket_of, lemma_bucket, ShuffleKey};
use crate::rdd::{derived, derived_by_key, Rdd};
use crate::seqs::{concat, lemma_concat_contains, lemma_concat_flattens, lemma_same_elements};
use crate::shuffle::window_len;
use crate::shuffled::{
    copied, lemma_total_shuffle_safe, shuffle_charges, shuffle_yields, shuffled,
};

verus! {

/// Partition `p` of `n` groups: one record for each key that belongs there, with clones of all
/// values of the key in their order.
pub open spec fn grouped_part<K: ShuffleKey, V: Clone>(
    all: Seq<(K::V, V)>,
    n: usize,
    p: int,
    recs: Seq<(K, Vec<V>)>,
) -> bool {
    &&& forall|i: int|
        #![trigger recs[i]]
        0 <= i < recs.len() ==> {
            &&& bucket_of::<K>(recs[i].0.deep_view(), n) == p
            &&& values_of(all, recs[i].0.deep_view()).len() > 0
            &&& cloned_all(values_of(all, recs[i].0.deep_view()), recs[i].1@)
        }
    &&& forall|i: int, j: int|
        0 <= i < j < recs.len() ==> (#[trigger] recs[i]).0.deep_view() != (#[trigger] recs[j]).0.deep_view()
    &&& forall|id: K::V| #[trigger]
        values_of(all, id).len() > 0 && bucket_of::<K>(id, n) == p ==> exists|i: int|
            0 <= i < recs.len() && (#[trigger] recs[i]).0.deep_view() == id
}

/// The partitions of `out` hold the groups of one evaluation of `d`.
pub open spec fn groups<K: ShuffleKey, V: Clone>(
    d: &Box<dyn Dataset<(K, V)>>,
    out: Map<int, Seq<(K, Vec<V>)>>,
) -> bool {
    within(out, d.parts()) && exists|inp: Seq<Seq<(K, V)>>| #[trigger]
        evaluates(d, inp) && forall|p: int| #[trigger]
            out.contains_key(p) ==> grouped_part::<K, V>(
                all_records(inp),
                d.parts() as usize,
                p,
                out[p],
            )
}

/// The views of the items of all partitions.
pub open spec fn all_views<T: DeepView>(inp: Seq<Seq<T>>) -> Seq<T::V> {
    concat(Seq::new(inp.len(), |p: int| inp[p].map_values(|x: T| x.deep_view())))
}

/// Partition `p` of `n` without duplicates: each item that belongs there, once.
pub open spec fn distinct_part<T: ShuffleKey>(
    all: Seq<T::V>,
    n: usize,
    p: int,
    items: Seq<T>,
) -> bool {
    &&& forall|i: int|
        #![trigger items[i]]
        0 <= i < items.len() ==> bucket_of::<T>(items[i].deep_view(), n) == p && all.contains(items[i].deep_view())
    &&& forall|i: int, j: int|
        0 <= i < j < items.len() ==> (#[trigger] items[i]).deep_view() != (#[trigger] items[j]).deep_view()
    &&& forall|id: T::V| #[trigger]
        all.contains(id) && bucket_of::<T>(id, n) == p ==> exists|i: int|
            0 <= i < items.len() && (#[trigger] items[i]).deep_view() == id
}

/// The partitions of `out` hold the items of one evaluation of `d`, each once.
pub open spec fn distinct_items<T: ShuffleKey>(
    d: &Box<dyn Dataset<T>>,
    out: Map<int, Seq<T>>,
) -> bool {
    within(out, d.parts()) && exists|inp: Seq<Seq<T>>| #[trigger]
        evaluates(d, inp) && forall|p: int| #[trigger]
            out.contains_key(p) ==> distinct_part::<T>(
                all_views(inp),
                d.parts() as usize,
                p,
                out[p],
            )
}

/// The partitions of `out` hold the items of one evaluation of `d`, each once, and partition `p`
/// then begins with `items`.
pub open spec fn distinct_some<T: ShuffleKey>(
    d: &Box<dyn Dataset<T>>,
    out: Map<int, Seq<T>>,
    p: int,
    items: Seq<T>,
) -> bool {
    exists|all: Seq<T>| #[trigger]
        starts_with(all, items) && distinct_items(d, out.insert(p, all))
}

// ---- groups

proof fn lemma_parallel_values<I, V>(s: Seq<(I, V)>, t: Seq<(I, Vec<V>)>, id: I)
    requires
        s.len() == t.len(),
        forall|i: int|
            #![trigger s[i]]
            0 <= i < s.len() ==> t[i].0 == s[i].0 && t[i].1@ == seq![s[i].1],
    ensures
        values_of(s, id).len() == values_of(t, id).len(),
        forall|i: int|
            #![trigger values_of(t, id)[i]]
            0 <= i < values_of(t, id).len() ==> values_of(t, id)[i]@ == seq![values_of(s, id)[i]],
    decreases s.len(),
{
    if s.len() > 0 {
        let (a, b) = (s.drop_last(), t.drop_last());
        assert forall|i: int| #![trigger a[i]] 0 <= i < a.len() implies b[i].0 == a[i].0 && b[i].1@
            == seq![a[i].1] by {
            assert(a[i] == s[i]);
        }
        lemma_parallel_values(a, b, id);
        assert(t[s.len() - 1].0 == s[s.len() - 1].0);
    }
}

proof fn lemma_fold_of_singles<V>(op: spec_fn(Seq<V>, Seq<V>) -> Seq<V>, xs: Seq<Seq<V>>, vs: Seq<V>)
    requires
        forall|a: Seq<V>, b: Seq<V>| #[trigger] op(a, b) == a + b,
        xs.len() == vs.len(),
        vs.len() > 0,
        forall|i: int| 0 <= i < vs.len() ==> #[trigger] xs[i] == seq![vs[i]],
    ensures
        left_fold(op, xs) == vs,
    decreases vs.len(),
{
    if vs.len() == 1 {
        assert(xs[0] == seq![vs[0]]);
        assert(vs =~= seq![vs[0]]);
    } else {
        assert forall|i: int| 0 <= i < vs.drop_last().len() implies #[trigger] xs.drop_last()[i]
            == seq![vs.drop_last()[i]] by {
            assert(xs[i] == seq![vs[i]]);
        }
        lemma_fold_of_singles(op, xs.drop_last(), vs.drop_last());
        assert(xs[vs.len() - 1] == seq![vs.last()]);
        assert(vs.drop_last() + seq![vs.last()] =~= vs);
    }
}

spec fn joins<V>() -> spec_fn(Seq<V>, Seq<V>) -> Seq<V> {
    |a: Seq<V>, b: Seq<V>| a + b
}

spec fn contents<V>() -> spec_fn(Vec<V>) -> Seq<V> {
    |v: Vec<V>| v@
}

proof fn lemma_records_parallel<K: DeepView, V>(inp: Seq<Seq<(K, V)>>, mid: Seq<Seq<(K, Vec<V>)>>)
    requires
        inp.len() == mid.len(),
        forall|p: int| 0 <= p < inp.len() ==> (#[trigger] inp[p]).len() == mid[p].len(),
        forall|p: int, i: int|
            #![trigger inp[p][i]]
            0 <= p < inp.len() && 0 <= i < inp[p].len() ==> mid[p][i].0 == inp[p][i].0
                && mid[p][i].1@ == seq![inp[p][i].1],
    ensures
        all_records(inp).len() == all_records(mid).len(),
        forall|i: int|
            #![trigger all_records(inp)[i]]
            0 <= i < all_records(inp).len() ==> all_records(mid)[i].0 == all_records(inp)[i].0
                && all_records(mid)[i].1@ == seq![all_records(inp)[i].1],
    decreases inp.len(),
{
    let vi = Seq::new(inp.len(), |p: int| by_view(inp[p]));
    let vm = Seq::new(mid.len(), |p: int| by_view(mid[p]));
    if inp.len() > 0 {
        let (a, b) = (inp.drop_last(), mid.drop_last());
        assert forall|p: int| 0 <= p < a.len() implies (#[trigger] a[p]).len() == b[p].len() by {
            assert(a[p] == inp[p]);
        }
        assert forall|p: int, i: int|
            #![trigger a[p][i]]
            0 <= p < a.len() && 0 <= i < a[p].len() implies b[p][i].0 == a[p][i].0 && b[p][i].1@
            == seq![a[p][i].1] by {
            assert(a[p][i] == inp[p][i]);
        }
        lemma_records_parallel(a, b);
        let last = inp.len() - 1;
        assert(vi.drop_last() =~= Seq::new(a.len(), |p: int| by_view(a[p])));
        assert(vm.drop_last() =~= Seq::new(b.len(), |p: int| by_view(b[p])));
        assert(inp[last].len() == mid[last].len());
        assert forall|i: int|
            #![trigger all_records(inp)[i]]
            0 <= i < all_records(inp).len() implies all_records(mid)[i].0 == all_records(inp)[i].0
            && all_records(mid)[i].1@ == seq![all_records(inp)[i].1] by {
            let k = all_records(a).len();
            if i < k {
                assert(all_records(inp)[i] == all_records(a)[i]);
                assert(all_records(mid)[i] == all_records(b)[i]);
            } else {
                assert(all_records(inp)[i] == by_view(inp[last])[i - k]);
                assert(all_records(mid)[i] == by_view(mid[last])[i - k]);
                let _ = inp[last][i - k];
            }
        }
    }
}

proof fn lemma_grouped<K: ShuffleKey, V: Clone>(
    merge: spec_fn(Vec<V>, Vec<V>, Vec<V>) -> bool,
    inp: Seq<Seq<(K, V)>>,
    mid: Seq<Seq<(K, Vec<V>)>>,
    n: nat,
    m: nat,
    blocks: Seq<Seq<(K::V, Vec<V>)>>,
    p: int,
    recs: Seq<(K, Vec<V>)>,
)
    requires
        n <= usize::MAX,
        m > 0,
        inp.len() == n,
        mid.len() == n,
        0 <= p < n,
        forall|q: int| 0 <= q < n ==> (#[trigger] inp[q]).len() == mid[q].len(),
        forall|q: int, i: int|
            #![trigger inp[q][i]]
            0 <= q < n && 0 <= i < inp[q].len() ==> mid[q][i].0 == inp[q][i].0 && mid[q][i].1@
                == seq![inp[q][i].1],
        forall|a: Vec<V>, b: Vec<V>, c: Vec<V>| #[trigger] merge(a, b, c) ==> c@ == a@ + b@,
        shuffled::<K, Vec<V>, Vec<V>>(keeps(), merge, merge, mid, n, m, blocks),
        copied(blocks[p], recs),
    ensures
        grouped_part::<K, V>(all_records(inp), n as usize, p, recs),
{
    let all = all_records(inp);
    let nu = n as usize;
    let op = joins::<V>();
    let unit = contents::<V>();
    assert(associative(op)) by {
        assert forall|a: Seq<V>, b: Seq<V>, c: Seq<V>| #[trigger] op(op(a, b), c) == op(
            a,
            op(b, c),
        ) by {
            assert((a + b) + c =~= a + (b + c));
        }
    }
    assert(stands_for(keeps(), merge, merge, op, unit, unit));
    lemma_shuffled_sums::<K, Vec<V>, Vec<V>, Seq<V>>(
        keeps(),
        merge,
        merge,
        op,
        unit,
        unit,
        mid,
        n,
        m,
        blocks,
    );
    lemma_records_parallel(inp, mid);
    let block = blocks[p];
    assert forall|i: int| #![trigger recs[i]] 0 <= i < recs.len() implies {
        &&& bucket_of::<K>(recs[i].0.deep_view(), nu) == p
        &&& values_of(all, recs[i].0.deep_view()).len() > 0
        &&& cloned_all(values_of(all, recs[i].0.deep_view()), recs[i].1@)
    } by {
        let id = block[i].0;
        assert(blocks[p][i] == block[i]);
        let vs = values_of(all, id);
        let ws = values_of(all_records(mid), id);
        lemma_parallel_values(all, all_records(mid), id);
        assert forall|j: int| 0 <= j < vs.len() implies #[trigger] images(unit, ws)[j]
            == seq![vs[j]] by {
            assert(ws[j]@ == seq![vs[j]]);
        }
        lemma_fold_of_singles(op, images(unit, ws), vs);
        assert(block[i].1@ == vs);
        assert(cloned(block[i].1, recs[i].1));
        assert(cloned_all(block[i].1@, recs[i].1@));
    }
    assert forall|i: int, j: int| 0 <= i < j < recs.len() implies (#[trigger] recs[i]).0.deep_view() != (
    #[trigger] recs[j]).0.deep_view() by {
        assert(blocks[p][i].0 != blocks[p][j].0);
    }
    assert forall|id: K::V| #[trigger]
        values_of(all, id).len() > 0 && bucket_of::<K>(id, nu) == p implies exists|i: int|
        0 <= i < recs.len() && (#[trigger] recs[i]).0.deep_view() == id by {
        lemma_parallel_values(all, all_records(mid), id);
        assert(values_of(all_records(mid), id).len() > 0);
        let i = choose|i: int| 0 <= i < blocks[p].len() && (#[trigger] blocks[p][i]).0 == id;
        assert(recs[i].0.deep_view() == id);
    }
}

impl<
    K: ShuffleKey + Send + Sync + 'static,
    V: Clone + Send + Sync + 'static,
> Rdd<(K, V)> {
    /// The dataset with one record for each key, with all values of the key in their order.
    pub fn group_by_key(self) -> (r: Rdd<(K, Vec<V>)>)
        ensures
            exists|mid: Rdd<(K, Vec<V>)>|
                #![trigger derived(self, mid)]
                derived(self, mid) && derived_by_key(mid, r) && (r.dataset().charges()
                    <==> shuffle_charges(
                    mid.dataset(),
                    window_len(self.shared().limit()),
                    self.shared().tally(),
                )),
            forall|out: Map<int, Seq<(K, Vec<V>)>>| #[trigger]
                r.dataset().yields(out) ==> groups(self.dataset(), out),
    {
        let ghost limit = self.shared().limit();
        let ghost m = window_len(limit);
        let ghost parent = self;
        let n = self.get_num_partitions();
        let single = |kv: (K, V)| -> (r: (K, Vec<V>))
            ensures
                r.0 == kv.0,
                r.1@ == seq![kv.1],
            {
                let mut v: Vec<V> = Vec::new();
                v.push(kv.1);
                assert(v@ =~= seq![kv.1]);
                (kv.0, v)
            };
        let mid = self.map(single);
        let join = |a: Vec<V>, b: Vec<V>| -> (r: Vec<V>)
            ensures
                r@ == a@ + b@,
            {
                let mut a = a;
                let mut b = b;
                a.append(&mut b);
                a
            };
        proof {
            lemma_total_shuffle_safe::<K, Vec<V>, Vec<V>>(
                mid.dataset(),
                keeps_on(),
                keeps(),
                merges_on(join),
                merges(join),
                merges_on(join),
                merges(join),
                m,
            );
        }
        let ghost mid0 = mid;
        let r = mid.reduce_by_key(join);
        proof {
            assert forall|out: Map<int, Seq<(K, Vec<V>)>>| #[trigger]
                r.dataset().yields(out) implies groups(parent.dataset(), out) by {
                let (minp, blocks) = choose|
                    inp: Seq<Seq<(K, Vec<V>)>>,
                    blocks: Seq<Seq<(K::V, Vec<V>)>>,
                |
                    evaluates(mid0.dataset(), inp) && #[trigger] shuffled::<K, Vec<V>, Vec<V>>(
                        keeps(),
                        merges(join),
                        merges(join),
                        inp,
                        n as nat,
                        m,
                        blocks,
                    ) && forall|p: int| #[trigger]
                        out.contains_key(p) ==> copied(blocks[p], out[p]);
                let inp = lemma_narrow_evaluation(
                    parent.dataset(),
                    mid0.dataset(),
                    mapping(single),
                    minp,
                );
                assert forall|p: int| #[trigger] out.contains_key(p) implies grouped_part::<K, V>(
                    all_records(inp),
                    n,
                    p,
                    out[p],
                ) by {
                    assert forall|q: int, i: int|
                        #![trigger inp[q][i]]
                        0 <= q < n && 0 <= i < inp[q].len() implies minp[q][i].0 == inp[q][i].0
                        && minp[q][i].1@ == seq![inp[q][i].1] by {
                        assert(mapped(single, inp[q], minp[q]));
                        assert(call_ensures(single, (inp[q][i],), minp[q][i]));
                    }
                    assert forall|q: int| 0 <= q < n implies (#[trigger] inp[q]).len()
                        == minp[q].len() by {
                        assert(mapped(single, inp[q], minp[q]));
                    }
                    lemma_grouped::<K, V>(
                        merges(join),
                        inp,
                        minp,
                        n as nat,
                        m,
                        blocks,
                        p,
                        out[p],
                    );
                }
            }
        }
        r
    }
}

// ---- distinct items

proof fn lemma_keys_parallel<T: DeepView>(inp: Seq<Seq<T>>, mid: Seq<Seq<(T, ())>>)
    requires
        inp.len() == mid.len(),
        forall|p: int| 0 <= p < inp.len() ==> (#[trigger] inp[p]).len() == mid[p].len(),
        forall|p: int, i: int|
            #![trigger inp[p][i]]
            0 <= p < inp.len() && 0 <= i < inp[p].len() ==> mid[p][i].0 == inp[p][i],
    ensures
        all_views(inp).len() == all_records(mid).len(),
        forall|i: int|
            #![trigger all_views(inp)[i]]
            #![trigger all_records(mid)[i]]
            0 <= i < all_views(inp).len() ==> all_records(mid)[i].0 == all_views(inp)[i],
    decreases inp.len(),
{
    let vi = Seq::new(inp.len(), |p: int| inp[p].map_values(|x: T| x.deep_view()));
    let vm = Seq::new(mid.len(), |p: int| by_view(mid[p]));
    if inp.len() > 0 {
        let (a, b) = (inp.drop_last(), mid.drop_last());
        assert forall|p: int| 0 <= p < a.len() implies (#[trigger] a[p]).len() == b[p].len() by {
            assert(a[p] == inp[p]);
        }
        assert forall|p: int, i: int|
            #![trigger a[p][i]]
            0 <= p < a.len() && 0 <= i < a[p].len() implies b[p][i].0 == a[p][i] by {
            assert(a[p][i] == inp[p][i]);
        }
        lemma_keys_parallel(a, b);
        let last = inp.len() - 1;
        assert(vi.drop_last() =~= Seq::new(a.len(), |p: int| a[p].map_values(|x: T| x.deep_view())));
        assert(vm.drop_last() =~= Seq::new(b.len(), |p: int| by_view(b[p])));
        assert(inp[last].len() == mid[last].len());
        assert forall|i: int|
            #![trigger all_views(inp)[i]]
            #![trigger all_records(mid)[i]]
            0 <= i < all_views(inp).len() implies all_records(mid)[i].0 == all_views(inp)[i] by {
            let k = all_views(a).len();
            if i < k {
                assert(all_views(inp)[i] == all_views(a)[i]);
                assert(all_records(mid)[i] == all_records(b)[i]);
            } else {
                assert(all_views(inp)[i] == inp[last][i - k].deep_view());
                assert(all_records(mid)[i] == by_view(mid[last])[i - k]);
            }
        }
    }
}

/// A key has values exactly if a record has the key.
pub proof fn lemma_value_iff_record<I, C>(t: Seq<(I, C)>, id: I)
    ensures
        values_of(t, id).len() > 0 <==> exists|i: int| 0 <= i < t.len() && (#[trigger] t[i]).0 == id,
    decreases t.len(),
{
    if values_of(t, id).len() > 0 {
        lemma_has_record(t, id);
    }
    if exists|i: int| 0 <= i < t.len() && (#[trigger] t[i]).0 == id {
        let i = choose|i: int| 0 <= i < t.len() && (#[trigger] t[i]).0 == id;
        if i < t.len() - 1 {
            lemma_value_iff_record(t.drop_last(), id);
            assert(t.drop_last()[i].0 == id);
        }
    }
}

spec fn forgets() -> spec_fn((), ()) -> () {
    |a: (), b: ()| ()
}

spec fn forgotten() -> spec_fn(()) -> () {
    |a: ()| ()
}

proof fn lemma_distinct_part<T: ShuffleKey>(
    merge: spec_fn((), (), ()) -> bool,
    inp: Seq<Seq<T>>,
    mid: Seq<Seq<(T, ())>>,
    n: nat,
    m: nat,
    blocks: Seq<Seq<(T::V, ())>>,
    p: int,
    recs: Seq<(T, ())>,
    items: Seq<T>,
)
    requires
        n <= usize::MAX,
        m > 0,
        inp.len() == n,
        mid.len() == n,
        0 <= p < n,
        forall|q: int| 0 <= q < n ==> (#[trigger] inp[q]).len() == mid[q].len(),
        forall|q: int, i: int|
            #![trigger inp[q][i]]
            0 <= q < n && 0 <= i < inp[q].len() ==> mid[q][i].0 == inp[q][i],
        shuffled::<T, (), ()>(keeps(), merge, merge, mid, n, m, blocks),
        copied(blocks[p], recs),
        items.len() == recs.len(),
        forall|i: int| 0 <= i < recs.len() ==> #[trigger] items[i] == recs[i].0,
    ensures
        distinct_part::<T>(all_views(inp), n as usize, p, items),
{
    let all = all_views(inp);
    let nu = n as usize;
    let records = all_records(mid);
    assert(associative(forgets()));
    assert(stands_for(keeps(), merge, merge, forgets(), forgotten(), forgotten()));
    lemma_shuffled_sums::<T, (), (), ()>(
        keeps(),
        merge,
        merge,
        forgets(),
        forgotten(),
        forgotten(),
        mid,
        n,
        m,
        blocks,
    );
    lemma_keys_parallel(inp, mid);
    assert forall|id: T::V| values_of(records, id).len() > 0 <==> #[trigger] all.contains(id) by {
        lemma_value_iff_record(records, id);
        if all.contains(id) {
            let i = choose|i: int| 0 <= i < all.len() && all[i] == id;
            assert(records[i].0 == id);
        }
        if exists|i: int| 0 <= i < records.len() && (#[trigger] records[i]).0 == id {
            let i = choose|i: int| 0 <= i < records.len() && (#[trigger] records[i]).0 == id;
            assert(all[i] == id);
        }
    }
    assert forall|i: int| #![trigger items[i]] 0 <= i < items.len() implies bucket_of::<T>(
        items[i].deep_view(),
        nu,
    ) == p && all.contains(items[i].deep_view()) by {
        assert(recs[i].0.deep_view() == blocks[p][i].0);
        assert(values_of(records, items[i].deep_view()).len() > 0);
    }
    assert forall|i: int, j: int| 0 <= i < j < items.len() implies (#[trigger] items[i]).deep_view() != (
    #[trigger] items[j]).deep_view() by {
        assert(recs[i].0.deep_view() == blocks[p][i].0);
        assert(recs[j].0.deep_view() == blocks[p][j].0);
    }
    assert forall|id: T::V| #[trigger]
        all.contains(id) && bucket_of::<T>(id, nu) == p implies exists|i: int|
        0 <= i < items.len() && (#[trigger] items[i]).deep_view() == id by {
        assert(values_of(records, id).len() > 0);
        let i = choose|i: int| 0 <= i < blocks[p].len() && (#[trigger] blocks[p][i]).0 == id;
        assert(recs[i].0.deep_view() == id);
        assert(items[i].deep_view() == id);
    }
}

impl<T: ShuffleKey + Send + Sync + 'static> Rdd<T> {
    /// The dataset of the items without duplicates, each in the partition that its hash assigns.
    pub fn distinct(self) -> (r: Rdd<T>)
        ensures
            exists|tagged: Rdd<(T, ())>, once: Rdd<(T, ())>|
                #![trigger derived_by_key(tagged, once)]
                derived(self, tagged) && derived_by_key(tagged, once) && derived(once, r) && (
                once.dataset().charges() <==> shuffle_charges(
                    tagged.dataset(),
                    window_len(self.shared().limit()),
                    self.shared().tally(),
                )),
            forall|out: Map<int, Seq<T>>| #[trigger]
                r.dataset().yields(out) ==> distinct_items(self.dataset(), out),
            forall|out: Map<int, Seq<T>>, p: int, items: Seq<T>| #[trigger]
                r.dataset().yields_some(out, p, items) ==> distinct_some(
                    self.dataset(),
                    out,
                    p,
                    items,
                ),
    {
        let ghost m = window_len(self.shared().limit());
        let ghost parent = self;
        let n = self.get_num_partitions();
        let tag = |x: T| -> (r: (T, ()))
            ensures
                r.0 == x,
            { (x, ()) };
        let tagged = self.map(tag);
        let forget = |a: (), b: ()| -> (r: ()) { () };
        proof {
            lemma_total_shuffle_safe::<T, (), ()>(
                tagged.dataset(),
                keeps_on(),
                keeps(),
                merges_on(forget),
                merges(forget),
                merges_on(forget),
                merges(forget),
                m,
            );
        }
        let ghost tagged0 = tagged;
        let once = tagged.reduce_by_key(forget);
        let ghost once0 = once;
        let untag = |kv: (T, ())| -> (r: T)
            ensures
                r == kv.0,
            { kv.0 };
        let r = once.map(untag);
        proof {
            assert(derived_by_key(tagged0, once0));
            assert forall|a: Seq<T>, b: Seq<(T, ())>| #[trigger] mapping(tag)(a, b) implies tags(
                a,
                b,
            ) by {
                assert forall|i: int| 0 <= i < a.len() implies (#[trigger] b[i]).0 == a[i] by {
                    assert(call_ensures(tag, (a[i],), b[i]));
                }
            }
            assert forall|a: Seq<(T, ())>, b: Seq<T>| #[trigger] mapping(untag)(a, b) implies tags(
                b,
                a,
            ) by {
                assert forall|i: int| 0 <= i < b.len() implies (#[trigger] a[i]).0 == b[i] by {
                    assert(call_ensures(untag, (a[i],), b[i]));
                }
            }
            assert forall|out: Map<int, Seq<T>>| #[trigger]
                r.dataset().yields(out) implies distinct_items(parent.dataset(), out) by {
                let a = choose|a: Map<int, Seq<(T, ())>>|
                    once0.dataset().yields(a) && #[trigger] each_part(mapping(untag), a, out);
                assert forall|p: int| #[trigger] out.contains_key(p) implies a.contains_key(p)
                    && tags(out[p], a[p]) by {
                    assert(a.dom().contains(p));
                    assert(mapping(untag)(a[p], out[p]));
                }
                lemma_distinct_out(
                    parent.dataset(),
                    tagged0.dataset(),
                    mapping(tag),
                    merges(forget),
                    m,
                    a,
                    out,
                );
            }
            assert forall|out: Map<int, Seq<T>>, p: int, items: Seq<T>| #[trigger]
                r.dataset().yields_some(out, p, items) implies distinct_some(
                parent.dataset(),
                out,
                p,
                items,
            ) by {
                let (a, x) = choose|a: Map<int, Seq<(T, ())>>, x: Seq<(T, ())>| #[trigger]
                    once0.dataset().yields_some(a, p, x) && each_part(mapping(untag), a, out)
                        && turns_some(mapping(untag), x, items);
                let k = choose|k: int| #[trigger] turns_first(mapping(untag), x, k, items);
                assert(tags(items, x.take(k)));
                let whole = choose|whole: Seq<(T, ())>| #[trigger]
                    starts_with(whole, x) && once0.dataset().yields(a.insert(p, whole));
                let all = Seq::new(whole.len(), |i: int| whole[i].0);
                assert(tags(all, whole));
                let (a1, out1) = (a.insert(p, whole), out.insert(p, all));
                assert forall|q: int| #[trigger] out1.contains_key(q) implies a1.contains_key(q)
                    && tags(out1[q], a1[q]) by {
                    if q != p {
                        assert(out.contains_key(q));
                        assert(a.dom().contains(q));
                        assert(mapping(untag)(a[q], out[q]));
                    }
                }
                lemma_distinct_out(
                    parent.dataset(),
                    tagged0.dataset(),
                    mapping(tag),
                    merges(forget),
                    m,
                    a1,
                    out1,
                );
                assert forall|i: int| 0 <= i < items.len() implies items[i] == all[i] by {
                    assert(x.take(k)[i].0 == items[i]);
                }
                assert(items =~= all.take(items.len() as int));
                assert(starts_with(all, items));
            }
        }
        r
    }
}

/// `tagged` holds `items`, each with nothing beside it.
spec fn tags<T>(items: Seq<T>, tagged: Seq<(T, ())>) -> bool {
    &&& tagged.len() == items.len()
    &&& forall|i: int| 0 <= i < items.len() ==> (#[trigger] tagged[i]).0 == items[i]
}

proof fn lemma_distinct_out<T: ShuffleKey>(
    d: &Box<dyn Dataset<T>>,
    tagged: &Box<dyn Dataset<(T, ())>>,
    turns: spec_fn(Seq<T>, Seq<(T, ())>) -> bool,
    merge: spec_fn((), (), ()) -> bool,
    m: nat,
    a: Map<int, Seq<(T, ())>>,
    out: Map<int, Seq<T>>,
)
    requires
        m > 0,
        d.parts() <= usize::MAX,
        tagged.parts() == d.parts(),
        forall|x: Map<int, Seq<(T, ())>>| #[trigger]
            tagged.yields(x) <==> exists|y: Map<int, Seq<T>>|
                d.yields(y) && #[trigger] each_part(turns, y, x),
        forall|x: Seq<T>, y: Seq<(T, ())>| #[trigger] turns(x, y) ==> tags(x, y),
        shuffle_yields::<T, (), ()>(tagged, keeps(), merge, merge, m, a),
        forall|p: int| #[trigger] out.contains_key(p) ==> a.contains_key(p) && tags(out[p], a[p]),
    ensures
        distinct_items(d, out),
{
    let n = d.parts() as usize;
    let (minp, blocks) = choose|inp: Seq<Seq<(T, ())>>, blocks: Seq<Seq<(T::V, ())>>|
        evaluates(tagged, inp) && #[trigger] shuffled::<T, (), ()>(
            keeps(),
            merge,
            merge,
            inp,
            n as nat,
            m,
            blocks,
        ) && forall|p: int| #[trigger] a.contains_key(p) ==> copied(blocks[p], a[p]);
    let inp = lemma_narrow_evaluation(d, tagged, turns, minp);
    assert forall|p: int| #[trigger] out.contains_key(p) implies 0 <= p < n && distinct_part::<T>(
        all_views(inp),
        n,
        p,
        out[p],
    ) by {
        assert(a.contains_key(p));
        assert forall|q: int, i: int|
            #![trigger inp[q][i]]
            0 <= q < n && 0 <= i < inp[q].len() implies minp[q][i].0 == inp[q][i] by {
            assert(tags(inp[q], minp[q]));
        }
        assert forall|q: int| 0 <= q < n implies (#[trigger] inp[q]).len() == minp[q].len() by {
            assert(tags(inp[q], minp[q]));
        }
        assert forall|i: int| 0 <= i < a[p].len() implies #[trigger] out[p][i] == a[p][i].0 by {}
        lemma_distinct_part::<T>(merge, inp, minp, n as nat, m, blocks, p, a[p], out[p]);
    }
}

/// The views of items.
pub open spec fn views_of<T: DeepView>(items: Seq<T>) -> Seq<T::V> {
    items.map_values(|x: T| x.deep_view())
}

/// A second `distinct` changes nothing but the order of items: where the evaluations of `once` hold
/// distinct items of `d`, each partition of a `distinct` of `once` holds the items that this
/// partition has in an evaluation of `once`.
pub proof fn lemma_distinct_twice<T: ShuffleKey>(
    d: &Box<dyn Dataset<T>>,
    once: &Box<dyn Dataset<T>>,
    parts: Seq<Seq<T>>,
) -> (before: Seq<Seq<T>>)
    requires
        once.parts() == d.parts(),
        forall|out: Map<int, Seq<T>>| #[trigger] once.yields(out) ==> distinct_items(d, out),
        parts.len() == once.parts(),
        distinct_items(once, part_map(parts)),
    ensures
        evaluates(once, before),
        forall|p: int|
            #![trigger parts[p]]
            0 <= p < parts.len() ==> views_of(parts[p]).to_multiset() == views_of(
                before[p],
            ).to_multiset(),
{
    let out = part_map(parts);
    let n = d.parts() as usize;
    let inp = choose|inp: Seq<Seq<T>>| #[trigger]
        evaluates(once, inp) && forall|p: int| #[trigger]
            out.contains_key(p) ==> distinct_part::<T>(all_views(inp), n, p, out[p]);
    let mid = part_map(inp);
    assert(distinct_items(d, mid));
    let src = choose|src: Seq<Seq<T>>| #[trigger]
        evaluates(d, src) && forall|p: int| #[trigger]
            mid.contains_key(p) ==> distinct_part::<T>(all_views(src), n, p, mid[p]);
    let lists = Seq::new(inp.len(), |q: int| inp[q].map_values(|x: T| x.deep_view()));
    assert forall|p: int| #![trigger parts[p]] 0 <= p < parts.len() implies views_of(
        parts[p],
    ).to_multiset() == views_of(inp[p]).to_multiset() by {
        assert(out.contains_key(p));
        assert(mid.contains_key(p));
        let (a, b) = (views_of(parts[p]), views_of(inp[p]));
        assert(distinct_part::<T>(all_views(inp), n, p, parts[p]));
        assert(distinct_part::<T>(all_views(src), n, p, inp[p]));
        lemma_views_distinct(all_views(inp), n, p, parts[p]);
        lemma_views_distinct(all_views(src), n, p, inp[p]);
        assert forall|x: T::V| a.contains(x) <==> #[trigger] b.contains(x) by {
            lemma_concat_contains(lists, x);
            if a.contains(x) {
                let i = choose|i: int| 0 <= i < a.len() && a[i] == x;
                assert(parts[p][i].deep_view() == x);
                assert(all_views(inp).contains(x));
                let q = choose|q: int| 0 <= q < lists.len() && (#[trigger] lists[q]).contains(x);
                let j = choose|j: int| 0 <= j < lists[q].len() && lists[q][j] == x;
                assert(mid.contains_key(q));
                assert(inp[q][j].deep_view() == x);
                assert(q == p);
                assert(b[j] == x);
            }
            if b.contains(x) {
                let j = choose|j: int| 0 <= j < b.len() && b[j] == x;
                assert(inp[p][j].deep_view() == x);
                assert(lists[p][j] == x);
                assert(lists[p].contains(x));
                assert(all_views(inp).contains(x));
                let i = choose|i: int| 0 <= i < parts[p].len() && (#[trigger] parts[p][i]).deep_view() == x;
                assert(a[i] == x);
            }
        }
        lemma_same_elements(a, b);
    }
    inp
}

proof fn lemma_views_distinct<T: ShuffleKey>(all: Seq<T::V>, n: usize, p: int, items: Seq<T>)
    requires
        distinct_part::<T>(all, n, p, items),
    ensures
        views_of(items).no_duplicates(),
{
    let v = views_of(items);
    assert forall|i: int, j: int| 0 <= i < v.len() && 0 <= j < v.len() && i != j implies v[i]
        != v[j] by {
        if i < j {
            assert(items[i].deep_view() != items[j].deep_view());
        } else {
            assert(items[j].deep_view() != items[i].deep_view());
        }
    }
}

/// The views of an input are those of the items of its partitions, one partition after the other.
pub proof fn lemma_all_views<T: DeepView>(inp: Seq<Seq<T>>)
    ensures
        all_views(inp) == inp.flatten().map_values(|x: T| x.deep_view()),
    decreases inp.len(),
{
    let view = |x: T| x.deep_view();
    lemma_concat_flattens(inp);
    let parts = Seq::new(inp.len(), |p: int| inp[p].map_values(|x: T| x.deep_view()));
    if inp.len() > 0 {
        let init = inp.drop_last();
        lemma_all_views(init);
        lemma_concat_flattens(init);
        assert(parts.drop_last() =~= Seq::new(
            init.len(),
            |p: int| init[p].map_values(|x: T| x.deep_view()),
        ));
        assert((concat(init) + inp.last()).map_values(view) =~= concat(init).map_values(view)
            + inp.last().map_values(view));
    } else {
        assert(all_views(inp) =~= inp.flatten().map_values(view));
    }
}

/// The distinct items of a dataset are its items, each once, over all partitions.
pub proof fn lemma_distinct_all<T: ShuffleKey>(d: &Box<dyn Dataset<T>>, parts: Seq<Seq<T>>) -> (inp:
    Seq<Seq<T>>)
    requires
        0 < d.parts() <= usize::MAX,
        parts.len() == d.parts(),
        distinct_items(d, part_map(parts)),
    ensures
        evaluates(d, inp),
        parts.flatten().map_values(|x: T| x.deep_view()).no_duplicates(),
        parts.flatten().map_values(|x: T| x.deep_view()).to_set() == inp.flatten().map_values(
            |x: T| x.deep_view(),
        ).to_set(),
{
    let out = part_map(parts);
    let n = d.parts() as usize;
    let inp = choose|inp: Seq<Seq<T>>| #[trigger]
        evaluates(d, inp) && forall|p: int| #[trigger]
            out.contains_key(p) ==> distinct_part::<T>(all_views(inp), n, p, out[p]);
    let all = all_views(inp);
    assert forall|p: int| 0 <= p < parts.len() implies distinct_part::<T>(
        all,
        n,
        p,
        #[trigger] parts[p],
    ) by {
        assert(out.contains_key(p));
    }
    lemma_all_views(inp);
    lemma_all_views(parts);
    let views = all_views(parts);
    lemma_distinct_parts(all, n, parts);
    let lists = Seq::new(parts.len(), |q: int| parts[q].map_values(|x: T| x.deep_view()));
    assert forall|id: T::V| views.contains(id) <==> all.contains(id) by {
        lemma_concat_contains(lists, id);
        if views.contains(id) {
            let q = choose|q: int| 0 <= q < lists.len() && (#[trigger] lists[q]).contains(id);
            let i = choose|i: int| 0 <= i < lists[q].len() && lists[q][i] == id;
            assert(distinct_part::<T>(all, n, q, parts[q]));
            assert(parts[q][i].deep_view() == id);
        }
        if all.contains(id) {
            let p = bucket_of::<T>(id, n) as int;
            lemma_bucket::<T>(id, n);
            assert(distinct_part::<T>(all, n, p, parts[p]));
            let i = choose|i: int|
                0 <= i < parts[p].len() && (#[trigger] parts[p][i]).deep_view() == id;
            assert(lists[p][i] == id);
            assert(lists[p].contains(id));
        }
    }
    assert(views.to_set() =~= all.to_set());
    inp
}

proof fn lemma_distinct_parts<T: ShuffleKey>(all: Seq<T::V>, n: usize, parts: Seq<Seq<T>>)
    requires
        forall|p: int|
            0 <= p < parts.len() ==> distinct_part::<T>(all, n, p, #[trigger] parts[p]),
    ensures
        all_views(parts).no_duplicates(),
    decreases parts.len(),
{
    let lists = Seq::new(parts.len(), |q: int| parts[q].map_values(|x: T| x.deep_view()));
    if parts.len() > 0 {
        let init = parts.drop_last();
        let last = parts.len() - 1;
        assert forall|p: int| 0 <= p < init.len() implies distinct_part::<T>(
            all,
            n,
            p,
            #[trigger] init[p],
        ) by {
            assert(parts[p] == init[p]);
        }
        lemma_distinct_parts(all, n, init);
        let before = Seq::new(init.len(), |q: int| init[q].map_values(|x: T| x.deep_view()));
        assert(lists.drop_last() =~= before);
        let (a, b) = (concat(before), lists[last]);
        assert(distinct_part::<T>(all, n, last, parts[last]));
        assert forall|i: int, j: int| 0 <= i < b.len() && 0 <= j < b.len() && i != j implies b[i]
            != b[j] by {
            assert(parts[last][i].deep_view() == b[i]);
            assert(parts[last][j].deep_view() == b[j]);
        }
        assert forall|i: int, j: int| 0 <= i < a.len() && 0 <= j < b.len() implies a[i] != b[j] by {
            assert(a.contains(a[i]));
            lemma_concat_contains(before, a[i]);
            let q = choose|q: int| 0 <= q < before.len() && (#[trigger] before[q]).contains(a[i]);
            let k = choose|k: int| 0 <= k < before[q].len() && before[q][k] == a[i];
            assert(distinct_part::<T>(all, n, q, parts[q]));
            assert(parts[q][k].deep_view() == a[i]);
            assert(parts[last][j].deep_view() == b[j]);
        }
        assert(all_views(parts) =~= a + b);
        assert forall|i: int, j: int|
            0 <= i < (a + b).len() && 0 <= j < (a + b).len() && i != j implies (a + b)[i] != (a
            + b)[j] by {
            if i < a.len() && j < a.len() {
                assert(all_views(init)[i] != all_views(init)[j]);
            }
        }
    }
}

/// Grouping gives each key of the input one record, which holds clones of the key's values in the
/// order of the input.
pub proof fn lemma_grouped_all<K: ShuffleKey, V: Clone>(
    d: &Box<dyn Dataset<(K, V)>>,
    parts: Seq<Seq<(K, Vec<V>)>>,
    id: K::V,
) -> (r: (Seq<Seq<(K, V)>>, int, int))
    requires
        0 < d.parts() <= usize::MAX,
        parts.len() == d.parts(),
        groups(d, part_map(parts)),
    ensures
        evaluates(d, r.0),
        ({
            let (inp, p, i) = r;
            let values = inp.flatten().filter(
                |e: (K, V)| e.0.deep_view() == id,
            ).map_values(|e: (K, V)| e.1);
            &&& values.len() > 0 ==> 0 <= p < parts.len() && 0 <= i < parts[p].len()
                && parts[p][i].0.deep_view() == id && cloned_all(values, parts[p][i].1@)
            &&& forall|q: int, j: int|
                #![trigger parts[q][j]]
                0 <= q < parts.len() && 0 <= j < parts[q].len() && parts[q][j].0.deep_view() == id
                    ==> values.len() > 0 && q == p && j == i
        }),
{
    let out = part_map(parts);
    let n = d.parts() as usize;
    let inp = choose|inp: Seq<Seq<(K, V)>>| #[trigger]
        evaluates(d, inp) && forall|p: int| #[trigger]
            out.contains_key(p) ==> grouped_part::<K, V>(all_records(inp), n, p, out[p]);
    let all = all_records(inp);
    assert forall|p: int| 0 <= p < parts.len() implies grouped_part::<K, V>(
        all,
        n,
        p,
        #[trigger] parts[p],
    ) by {
        assert(out.contains_key(p));
    }
    let values = inp.flatten().filter(|e: (K, V)| e.0.deep_view() == id).map_values(
        |e: (K, V)| e.1,
    );
    lemma_all_records(inp);
    lemma_viewed_values(inp.flatten(), id);
    assert(values == values_of(all, id));
    let p = bucket_of::<K>(id, n) as int;
    lemma_bucket::<K>(id, n);
    assert(grouped_part::<K, V>(all, n, p, parts[p]));
    let i = choose|i: int| 0 <= i < parts[p].len() && (#[trigger] parts[p][i]).0.deep_view() == id;
    assert forall|q: int, j: int|
        #![trigger parts[q][j]]
        0 <= q < parts.len() && 0 <= j < parts[q].len() && parts[q][j].0.deep_view()
            == id implies values.len() > 0 && q == p && j == i by {
        assert(grouped_part::<K, V>(all, n, q, parts[q]));
        assert(values_of(all, id).len() > 0);
        assert(0 <= i < parts[p].len() && parts[p][i].0.deep_view() == id);
    }
    (inp, p, i)
}

proof fn lemma_viewed_values<K: DeepView, V>(s: Seq<(K, V)>, id: K::V)
    ensures
        s.filter(|e: (K, V)| e.0.deep_view() == id).map_values(|e: (K, V)| e.1) == values_of(
            s.map_values(|e: (K, V)| (e.0.deep_view(), e.1)),
            id,
        ),
    decreases s.len(),
{
    reveal(Seq::filter);
    let view = |e: (K, V)| (e.0.deep_view(), e.1);
    let t = s.map_values(view);
    if s.len() > 0 {
        lemma_viewed_values(s.drop_last(), id);
        assert(t.drop_last() =~= s.drop_last().map_values(view));
    }
    assert(s.filter(|e: (K, V)| e.0.deep_view() == id).map_values(|e: (K, V)| e.1) =~= values_of(
        t,
        id,
    ));
}

/// The first of the distinct items of a partition are the first of what the partition holds as a
/// whole.
pub proof fn lemma_distinct_some<T: ShuffleKey>(
    d: &Box<dyn Dataset<T>>,
    out: Map<int, Seq<T>>,
    p: int,
    items: Seq<T>,
) -> (all: Seq<T>)
    requires
        distinct_some(d, out, p, items),
    ensures
        items.is_prefix_of(all),
        distinct_items(d, out.insert(p, all)),
{
    let all = choose|all: Seq<T>| #[trigger]
        starts_with(all, items) && distinct_items(d, out.insert(p, all));
    assert(items =~= all.subrange(0, items.len() as int));
    all
}

} // verus!
