//! Grouping records by key and folding the values of each key.
use std::collections::HashMap;

use vstd::prelude::*;

use crate::key::{hash_of, key_hash, ShuffleKey};

verus! {

/// The values that `pairs` gives to key `id`, in order.
pub open spec fn values_of<I, V>(pairs: Seq<(I, V)>, id: I) -> Seq<V>
    decreases pairs.len(),
{
    if pairs.len() == 0 {
        Seq::empty()
    } else if pairs.last().0 == id {
        values_of(pairs.drop_last(), id).push(pairs.last().1)
    } else {
        values_of(pairs.drop_last(), id)
    }
}

/// The keys of `pairs`, each once, in the order of their first records.
pub open spec fn distinct_keys<I, V>(pairs: Seq<(I, V)>) -> Seq<I>
    decreases pairs.len(),
{
    if pairs.len() == 0 {
        Seq::empty()
    } else {
        let seen = distinct_keys(pairs.drop_last());
        if seen.contains(pairs.last().0) {
            seen
        } else {
            seen.push(pairs.last().0)
        }
    }
}

/// The results that `f` may give on one argument.
pub open spec fn creates<V, C, F: Fn(V) -> C>(f: F) -> spec_fn(V, C) -> bool {
    |v: V, c: C| call_ensures(f, (v,), c)
}

/// The results that `f` may give on two arguments.
pub open spec fn merges<C, V, F: Fn(C, V) -> C>(f: F) -> spec_fn(C, V, C) -> bool {
    |before: C, v: V, c: C| call_ensures(f, (before, v), c)
}

/// A value stands for itself.
pub open spec fn keeps<V>() -> spec_fn(V, V) -> bool {
    |v: V, c: V| c == v
}

/// The arguments on which `f` can be called.
pub open spec fn creates_on<V, C, F: Fn(V) -> C>(f: F) -> spec_fn(V) -> bool {
    |v: V| call_requires(f, (v,))
}

/// The pairs of arguments on which `f` can be called.
pub open spec fn merges_on<C, V, F: Fn(C, V) -> C>(f: F) -> spec_fn(C, V) -> bool {
    |c: C, v: V| call_requires(f, (c, v))
}

/// Any value can be kept.
pub open spec fn keeps_on<V>() -> spec_fn(V) -> bool {
    |v: V| true
}

/// `c` may come out of folding `vs`: `create` on the first value, `merge` on each later one.
pub open spec fn folded<V, C>(
    create: spec_fn(V, C) -> bool,
    merge: spec_fn(C, V, C) -> bool,
    vs: Seq<V>,
    c: C,
) -> bool
    decreases vs.len(),
{
    if vs.len() == 0 {
        false
    } else if vs.len() == 1 {
        create(vs[0], c)
    } else {
        exists|before: C|
            #![trigger merge(before, vs.last(), c)]
            folded(create, merge, vs.drop_last(), before) && merge(before, vs.last(), c)
    }
}

/// Whatever comes out of folding the values before it, each step of the fold of `vs` can be made.
pub open spec fn foldable<V, C>(
    create_on: spec_fn(V) -> bool,
    create: spec_fn(V, C) -> bool,
    merge_on: spec_fn(C, V) -> bool,
    merge: spec_fn(C, V, C) -> bool,
    vs: Seq<V>,
) -> bool {
    vs.len() > 0 ==> create_on(vs[0]) && forall|k: int, c: C|
        1 <= k < vs.len() && #[trigger] folded(create, merge, vs.take(k), c) ==> merge_on(c, vs[k])
}

/// The values of every key of `pairs` can be folded.
pub open spec fn foldable_by_key<I, V, C>(
    create_on: spec_fn(V) -> bool,
    create: spec_fn(V, C) -> bool,
    merge_on: spec_fn(C, V) -> bool,
    merge: spec_fn(C, V, C) -> bool,
    pairs: Seq<(I, V)>,
) -> bool {
    forall|id: I|
        foldable(create_on, create, merge_on, merge, #[trigger] values_of(pairs, id))
}

/// A record can be folded into a table: by merging where the key is there, else by creating.
pub open spec fn can_upsert<I, V, C>(
    create_on: spec_fn(V) -> bool,
    merge_on: spec_fn(C, V) -> bool,
    table: Seq<(I, C)>,
    id: I,
    v: V,
) -> bool {
    &&& forall|i: int|
        0 <= i < table.len() && (#[trigger] table[i]).0 == id ==> merge_on(table[i].1, v)
    &&& (forall|i: int| 0 <= i < table.len() ==> (#[trigger] table[i]).0 != id) ==> create_on(v)
}

/// `out` has one record for each key of `pairs`, in the order of the keys' first records, and
/// each holds a fold of that key's values.
pub open spec fn combined<I, V, C>(
    create: spec_fn(V, C) -> bool,
    merge: spec_fn(C, V, C) -> bool,
    pairs: Seq<(I, V)>,
    out: Seq<(I, C)>,
) -> bool {
    &&& out.len() == distinct_keys(pairs).len()
    &&& forall|i: int|
        #![trigger out[i]]
        0 <= i < out.len() ==> out[i].0 == distinct_keys(pairs)[i] && folded(
            create,
            merge,
            values_of(pairs, out[i].0),
            out[i].1,
        )
}

/// The records of a vector, with the view of each key in the key's place.
pub open spec fn by_view<K: DeepView, C>(s: Seq<(K, C)>) -> Seq<(K::V, C)> {
    Seq::new(s.len(), |i: int| (s[i].0.deep_view(), s[i].1))
}

/// A record was folded into a table: the record of its key was merged, or a new one appended.
pub open spec fn upserted<I, V, C>(
    create: spec_fn(V, C) -> bool,
    merge: spec_fn(C, V, C) -> bool,
    before: Seq<(I, C)>,
    id: I,
    v: V,
    after: Seq<(I, C)>,
) -> bool {
    ||| exists|i: int, c: C|
        #![trigger before.update(i, (id, c))]
        0 <= i < before.len() && before[i].0 == id && merge(before[i].1, v, c)
            && after == before.update(i, (id, c))
    ||| exists|c: C|
        #![trigger before.push((id, c))]
        (forall|i: int| 0 <= i < before.len() ==> (#[trigger] before[i]).0 != id) && create(v, c)
            && after == before.push((id, c))
}

/// A key occurs among the distinct keys exactly if a record has it; no key occurs there twice.
pub proof fn lemma_distinct_keys<I, V>(pairs: Seq<(I, V)>)
    ensures
        distinct_keys(pairs).no_duplicates(),
        forall|id: I|
            #![trigger distinct_keys(pairs).contains(id)]
            distinct_keys(pairs).contains(id) <==> values_of(pairs, id).len() > 0,
        distinct_keys(pairs).len() <= pairs.len(),
    decreases pairs.len(),
{
    if pairs.len() > 0 {
        lemma_distinct_keys(pairs.drop_last());
        let seen = distinct_keys(pairs.drop_last());
        let last = pairs.last().0;
        assert forall|id: I|
            #![trigger distinct_keys(pairs).contains(id)]
            distinct_keys(pairs).contains(id) <==> values_of(pairs, id).len() > 0 by {
            assert(seen.contains(id) <==> values_of(pairs.drop_last(), id).len() > 0);
            if !seen.contains(last) {
                assert(seen.push(last)[seen.len() as int] == last);
                if seen.contains(id) {
                    let i = choose|i: int| 0 <= i < seen.len() && seen[i] == id;
                    assert(seen.push(last)[i] == id);
                }
            }
        }
    }
}

/// The values of joined records are the values of the first and then those of the second.
pub proof fn lemma_values_add<I, V>(a: Seq<(I, V)>, b: Seq<(I, V)>, id: I)
    ensures
        values_of(a + b, id) == values_of(a, id) + values_of(b, id),
    decreases b.len(),
{
    if b.len() == 0 {
        assert(a + b =~= a);
        assert(values_of(a, id) + values_of(b, id) =~= values_of(a, id));
    } else {
        lemma_values_add(a, b.drop_last(), id);
        assert((a + b).drop_last() =~= a + b.drop_last());
        assert(values_of(a + b, id) =~= values_of(a, id) + values_of(b, id));
    }
}

/// A table of the first `j` records can take in the next one, where all of them can be folded.
pub proof fn lemma_can_upsert<I, V, C>(
    create_on: spec_fn(V) -> bool,
    create: spec_fn(V, C) -> bool,
    merge_on: spec_fn(C, V) -> bool,
    merge: spec_fn(C, V, C) -> bool,
    pairs: Seq<(I, V)>,
    j: int,
    table: Seq<(I, C)>,
)
    requires
        foldable_by_key(create_on, create, merge_on, merge, pairs),
        0 <= j < pairs.len(),
        combined(create, merge, pairs.take(j), table),
    ensures
        can_upsert(create_on, merge_on, table, pairs[j].0, pairs[j].1),
{
    let id = pairs[j].0;
    let v = pairs[j].1;
    let done = pairs.take(j);
    let all = values_of(pairs, id);
    let before = values_of(done, id);
    let k = before.len() as int;
    let rest = pairs.skip(j + 1);
    assert(pairs =~= done.push(pairs[j]) + rest);
    lemma_values_add(done.push(pairs[j]), rest, id);
    assert(done.push(pairs[j]).drop_last() =~= done);
    assert(values_of(done.push(pairs[j]), id) == before.push(v));
    assert(all == before.push(v) + values_of(rest, id));
    assert(all[k] == v);
    assert(all.take(k) =~= before);
    assert(foldable(create_on, create, merge_on, merge, all));
    lemma_distinct_keys(done);
    let keys = distinct_keys(done);
    assert forall|i: int| 0 <= i < table.len() && (#[trigger] table[i]).0 == id implies merge_on(
        table[i].1,
        v,
    ) by {
        assert(folded(create, merge, before, table[i].1));
        assert(before.len() > 0);
        assert(folded(create, merge, all.take(k), table[i].1));
    }
    if forall|i: int| 0 <= i < table.len() ==> (#[trigger] table[i]).0 != id {
        assert(!keys.contains(id)) by {
            if keys.contains(id) {
                let i = choose|i: int| 0 <= i < keys.len() && keys[i] == id;
                assert(table[i].0 == id);
            }
        }
        assert(k == 0);
    }
}

/// Folding one more record keeps a table combined.
pub proof fn lemma_upserted_combined<I, V, C>(
    create: spec_fn(V, C) -> bool,
    merge: spec_fn(C, V, C) -> bool,
    pairs: Seq<(I, V)>,
    before: Seq<(I, C)>,
    id: I,
    v: V,
    after: Seq<(I, C)>,
)
    requires
        combined(create, merge, pairs, before),
        upserted(create, merge, before, id, v, after),
    ensures
        combined(create, merge, pairs.push((id, v)), after),
{
    let next = pairs.push((id, v));
    assert(next.drop_last() =~= pairs);
    lemma_distinct_keys(pairs);
    let keys = distinct_keys(pairs);
    if exists|i: int, c: C|
        #![trigger before.update(i, (id, c))]
        0 <= i < before.len() && before[i].0 == id && merge(before[i].1, v, c)
            && after == before.update(i, (id, c)) {
        let (i, c) = choose|i: int, c: C|
            #![trigger before.update(i, (id, c))]
            0 <= i < before.len() && before[i].0 == id && merge(before[i].1, v, c)
                && after == before.update(i, (id, c));
        assert(keys[i] == id);
        assert(keys.contains(id));
        assert forall|j: int|
            #![trigger after[j]]
            0 <= j < after.len() implies after[j].0 == distinct_keys(next)[j] && folded(
            create,
            merge,
            values_of(next, after[j].0),
            after[j].1,
        ) by {
            assert(before[j].0 == keys[j]);
            assert(distinct_keys(next) == keys);
            if j == i {
                let vs = values_of(pairs, id);
                let all = values_of(next, id);
                assert(all == vs.push(v));
                assert(all.drop_last() =~= vs);
                assert(folded(create, merge, vs, before[i].1));
                assert(vs.len() > 0);
                assert(folded(create, merge, all.drop_last(), before[i].1));
                assert(all.last() == v);
                assert(folded(create, merge, all, c));
                assert(after[j] == (id, c));
            } else {
                assert(keys[i] != keys[j]);
                assert(after[j] == before[j]);
            }
        }
    } else {
        let c = choose|c: C|
            #![trigger before.push((id, c))]
            (forall|i: int| 0 <= i < before.len() ==> (#[trigger] before[i]).0 != id)
                && create(v, c) && after == before.push((id, c));
        assert(!keys.contains(id)) by {
            if keys.contains(id) {
                let j = choose|j: int| 0 <= j < keys.len() && keys[j] == id;
                assert(before[j].0 == id);
            }
        }
        assert forall|j: int|
            #![trigger after[j]]
            0 <= j < after.len() implies after[j].0 == distinct_keys(next)[j] && folded(
            create,
            merge,
            values_of(next, after[j].0),
            after[j].1,
        ) by {
            if j < before.len() {
                assert(after[j] == before[j]);
                assert(before[j].0 != id);
            } else {
                assert(values_of(pairs, id).len() == 0);
                assert(values_of(next, id) =~= seq![v]);
            }
        }
    }
}

/// A fold stays one under weaker relations.
pub proof fn lemma_folded_weaken<V, C>(
    create: spec_fn(V, C) -> bool,
    merge: spec_fn(C, V, C) -> bool,
    create2: spec_fn(V, C) -> bool,
    merge2: spec_fn(C, V, C) -> bool,
    vs: Seq<V>,
    c: C,
)
    requires
        forall|v: V, r: C| #[trigger] create(v, r) ==> create2(v, r),
        forall|b: C, v: V, r: C| #[trigger] merge(b, v, r) ==> merge2(b, v, r),
        folded(create, merge, vs, c),
    ensures
        folded(create2, merge2, vs, c),
    decreases vs.len(),
{
    if vs.len() > 1 {
        let before = choose|before: C|
            #![trigger merge(before, vs.last(), c)]
            folded(create, merge, vs.drop_last(), before) && merge(before, vs.last(), c);
        lemma_folded_weaken(create, merge, create2, merge2, vs.drop_last(), before);
        assert(merge2(before, vs.last(), c));
    }
}

/// Combined records stay combined under weaker relations.
pub proof fn lemma_combined_weaken<I, V, C>(
    create: spec_fn(V, C) -> bool,
    merge: spec_fn(C, V, C) -> bool,
    create2: spec_fn(V, C) -> bool,
    merge2: spec_fn(C, V, C) -> bool,
    pairs: Seq<(I, V)>,
    out: Seq<(I, C)>,
)
    requires
        forall|v: V, r: C| #[trigger] create(v, r) ==> create2(v, r),
        forall|b: C, v: V, r: C| #[trigger] merge(b, v, r) ==> merge2(b, v, r),
        combined(create, merge, pairs, out),
    ensures
        combined(create2, merge2, pairs, out),
{
    assert forall|i: int|
        #![trigger out[i]]
        0 <= i < out.len() implies out[i].0 == distinct_keys(pairs)[i] && folded(
        create2,
        merge2,
        values_of(pairs, out[i].0),
        out[i].1,
    ) by {
        lemma_folded_weaken(
            create,
            merge,
            create2,
            merge2,
            values_of(pairs, out[i].0),
            out[i].1,
        );
    }
}

/// What can be folded under some relations can be folded under narrower ones.
pub proof fn lemma_foldable_narrow<V, C>(
    create_on: spec_fn(V) -> bool,
    create: spec_fn(V, C) -> bool,
    merge_on: spec_fn(C, V) -> bool,
    merge: spec_fn(C, V, C) -> bool,
    create_on2: spec_fn(V) -> bool,
    create2: spec_fn(V, C) -> bool,
    merge_on2: spec_fn(C, V) -> bool,
    merge2: spec_fn(C, V, C) -> bool,
    vs: Seq<V>,
)
    requires
        forall|v: V| #[trigger] create_on2(v) ==> create_on(v),
        forall|v: V, r: C| #[trigger] create(v, r) ==> create2(v, r),
        forall|b: C, v: V| #[trigger] merge_on2(b, v) ==> merge_on(b, v),
        forall|b: C, v: V, r: C| #[trigger] merge(b, v, r) ==> merge2(b, v, r),
        foldable(create_on2, create2, merge_on2, merge2, vs),
    ensures
        foldable(create_on, create, merge_on, merge, vs),
{
    if vs.len() > 0 {
        assert(create_on2(vs[0]));
        assert forall|k: int, c: C|
            1 <= k < vs.len() && #[trigger] folded(create, merge, vs.take(k), c) implies merge_on(
            c,
            vs[k],
        ) by {
            lemma_folded_weaken(create, merge, create2, merge2, vs.take(k), c);
            assert(merge_on2(c, vs[k]));
        }
    }
}

/// Combined records by key, in the order in which their keys first came.
pub struct CombineTable<K, C> {
    entries: Vec<(K, Option<C>)>,
    index: HashMap<u64, Vec<usize>>,
}

impl<K: ShuffleKey, C> CombineTable<K, C> {
    /// Every entry holds a value, keys are distinct, and the index lists each entry under the
    /// hash of its key.
    pub closed spec fn wf(&self) -> bool {
        &&& forall|i: int| 0 <= i < self.entries@.len() ==> (#[trigger] self.entries@[i]).1 is Some
        &&& forall|i: int, j: int|
            0 <= i < j < self.entries@.len() ==> (#[trigger] self.entries@[i]).0.deep_view() != (
            #[trigger] self.entries@[j]).0.deep_view()
        &&& forall|h: u64, j: int|
            self.index@.contains_key(h) && 0 <= j < self.index@[h]@.len() ==> (
            #[trigger] self.index@[h]@[j]) < self.entries@.len()
        &&& forall|i: int|
            0 <= i < self.entries@.len() ==> self.lists(
                hash_of::<K>((#[trigger] self.entries@[i]).0.deep_view()),
                i,
            )
    }

    spec fn lists(&self, h: u64, i: int) -> bool {
        self.index@.contains_key(h) && exists|j: int|
            0 <= j < self.index@[h]@.len() && #[trigger] self.index@[h]@[j] == i
    }
}

impl<K: ShuffleKey, C> View for CombineTable<K, C> {
    type V = Seq<(K::V, C)>;

    closed spec fn view(&self) -> Seq<(K::V, C)> {
        Seq::new(self.entries@.len(), |i: int| (self.entries@[i].0.deep_view(), self.entries@[i].1->0))
    }
}

impl<K: ShuffleKey, C> CombineTable<K, C> {
    /// An empty table.
    pub fn new() -> (t: Self)
        ensures
            t.wf(),
            t@ == Seq::<(K::V, C)>::empty(),
    {
        let t = CombineTable { entries: Vec::new(), index: HashMap::new() };
        assert(t@ =~= Seq::<(K::V, C)>::empty());
        t
    }

    fn find(&self, key: &K, h: u64) -> (r: Option<usize>)
        requires
            self.wf(),
            h == hash_of::<K>(key.deep_view()),
        ensures
            match r {
                Some(i) => i < self@.len() && self@[i as int].0 == key.deep_view(),
                None => forall|i: int| 0 <= i < self@.len() ==> (#[trigger] self@[i]).0 != key.deep_view(),
            },
    {
        match self.index.get(&h) {
            None => {
                assert forall|i: int| 0 <= i < self@.len() implies (#[trigger] self@[i]).0
                    != key.deep_view() by {
                    assert(self.lists(hash_of::<K>(self.entries@[i].0.deep_view()), i));
                }
                None
            },
            Some(list) => {
                let mut j: usize = 0;
                while j < list.len()
                    invariant
                        self.wf(),
                        h == hash_of::<K>(key.deep_view()),
                        self.index@.contains_key(h),
                        *list == self.index@[h],
                        j <= list@.len(),
                        forall|m: int|
                            0 <= m < j ==> self.entries@[(#[trigger] list@[m]) as int].0.deep_view() != key.deep_view(),
                    decreases list@.len() - j,
                {
                    let i = list[j];
                    if self.entries[i].0.same(key) {
                        return Some(i);
                    }
                    j = j + 1;
                }
                assert forall|i: int| 0 <= i < self@.len() implies (#[trigger] self@[i]).0
                    != key.deep_view() by {
                    if self.entries@[i].0.deep_view() == key.deep_view() {
                        assert(self.lists(h, i));
                    }
                }
                None
            },
        }
    }

    /// Folds one record into the table: `merge` where the key is there, `create` where it is new.
    pub fn upsert<V, Create: Fn(V) -> C, Merge: Fn(C, V) -> C>(
        &mut self,
        key: K,
        val: V,
        create: &Create,
        merge: &Merge,
    )
        requires
            old(self).wf(),
            can_upsert(creates_on(*create), merges_on(*merge), old(self)@, key.deep_view(), val),
        ensures
            final(self).wf(),
            upserted(creates(*create), merges(*merge), old(self)@, key.deep_view(), val, final(self)@),
    {
        let ghost before = self@;
        let ghost old_self = *self;
        let h = key_hash(&key);
        match self.find(&key, h) {
            Some(i) => {
                let old_val = self.entries[i].1.take().unwrap();
                assert(merges_on(*merge)(before[i as int].1, val));
                let c = merge(old_val, val);
                self.entries[i].1 = Some(c);
                proof {
                    assert(before[i as int].1 == old_val);
                    assert(self@ =~= before.update(i as int, (key.deep_view(), c)));
                    assert forall|m: int| 0 <= m < self.entries@.len() implies self.lists(
                        hash_of::<K>((#[trigger] self.entries@[m]).0.deep_view()),
                        m,
                    ) by {
                        assert(old_self.lists(hash_of::<K>(old_self.entries@[m].0.deep_view()), m));
                        assert(self.index@ == old_self.index@);
                    }
                }
            },
            None => {
                let i = self.entries.len();
                let mut list: Vec<usize> = match self.index.remove(&h) {
                    Some(l) => l,
                    None => Vec::new(),
                };
                let ghost list0 = list@;
                list.push(i);
                let ghost list1 = list@;
                self.index.insert(h, list);
                assert(creates_on(*create)(val));
                let c = create(val);
                self.entries.push((key, Some(c)));
                proof {
                    assert(self@ =~= before.push((key.deep_view(), c)));
                    assert forall|m: int| 0 <= m < self.entries@.len() implies self.lists(
                        hash_of::<K>((#[trigger] self.entries@[m]).0.deep_view()),
                        m,
                    ) by {
                        let hm = hash_of::<K>(self.entries@[m].0.deep_view());
                        if m == i {
                            assert(self.index@[h]@[list0.len() as int] == i);
                        } else {
                            assert(old_self.lists(hash_of::<K>(old_self.entries@[m].0.deep_view()), m));
                            let j = choose|j: int|
                                0 <= j < old_self.index@[hm]@.len()
                                    && #[trigger] old_self.index@[hm]@[j] == m;
                            assert(self.index@[hm]@[j] == m);
                        }
                    }
                    assert forall|i2: int, j2: int| 0 <= i2 < j2 < self.entries@.len() implies (
                    #[trigger] self.entries@[i2]).0.deep_view() != (#[trigger] self.entries@[j2]).0.deep_view() by {
                        assert(before[i2].0 != key.deep_view());
                    }
                }
            },
        }
    }

    /// The records of the table, in order.
    pub fn into_pairs(self) -> (out: Vec<(K, C)>)
        requires
            self.wf(),
        ensures
            by_view(out@) == self@,
    {
        let ghost table = self@;
        let ghost raw = self.entries@;
        let mut out: Vec<(K, C)> = Vec::new();
        for (k, c) in it: self.entries
            invariant
                it.seq() == raw,
                table == Seq::new(raw.len(), |i: int| (raw[i].0.deep_view(), raw[i].1->0)),
                forall|i: int| 0 <= i < raw.len() ==> (#[trigger] raw[i]).1 is Some,
                out@.len() == it.index(),
                forall|i: int| 0 <= i < out@.len() ==> by_view(out@)[i] == #[trigger] table[i],
        {
            out.push((k, c.unwrap()));
        }
        assert(by_view(out@) =~= table);
        out
    }
}

// ---- laws

/// The values of a key are the values of the records that have it, in the order of the records.
pub proof fn lemma_values_of<I, V>(pairs: Seq<(I, V)>, id: I)
    ensures
        values_of(pairs, id) == pairs.filter(|e: (I, V)| e.0 == id).map_values(|e: (I, V)| e.1),
    decreases pairs.len(),
{
    reveal(Seq::filter);
    if pairs.len() > 0 {
        lemma_values_of(pairs.drop_last(), id);
    }
    assert(values_of(pairs, id) =~= pairs.filter(|e: (I, V)| e.0 == id).map_values(
        |e: (I, V)| e.1,
    ));
}

/// A record before the `q`-th has this key.
pub open spec fn occurs_before<I, V>(pairs: Seq<(I, V)>, q: int, id: I) -> bool {
    exists|p: int| 0 <= p < q && (#[trigger] pairs[p]).0 == id
}

/// The distinct keys are the keys of the records, each once, in the order in which they first
/// occur.
pub proof fn lemma_keys_in_order<I, V>(pairs: Seq<(I, V)>)
    ensures
        distinct_keys(pairs).no_duplicates(),
        forall|p: int|
            0 <= p < pairs.len() ==> distinct_keys(pairs).contains((#[trigger] pairs[p]).0),
        forall|i: int|
            0 <= i < distinct_keys(pairs).len() ==> exists|p: int|
                0 <= p < pairs.len() && (#[trigger] pairs[p]).0 == #[trigger] distinct_keys(
                    pairs,
                )[i],
        forall|i: int, j: int, q: int|
            #![trigger distinct_keys(pairs)[i], distinct_keys(pairs)[j], pairs[q]]
            0 <= i < j < distinct_keys(pairs).len() && 0 <= q < pairs.len() && pairs[q].0
                == distinct_keys(pairs)[j] ==> occurs_before(pairs, q, distinct_keys(pairs)[i]),
    decreases pairs.len(),
{
    if pairs.len() > 0 {
        let init = pairs.drop_last();
        lemma_keys_in_order(init);
        let seen = distinct_keys(init);
        let keys = distinct_keys(pairs);
        let last = pairs.len() - 1;
        assert(pairs[last] == pairs.last());
        if !seen.contains(pairs[last].0) {
            assert(keys[seen.len() as int] == pairs[last].0);
        }
        assert forall|p: int| 0 <= p < pairs.len() implies keys.contains(
            (#[trigger] pairs[p]).0,
        ) by {
            if p < last {
                assert(init[p] == pairs[p]);
                let i = choose|i: int| 0 <= i < seen.len() && seen[i] == init[p].0;
                assert(keys[i] == pairs[p].0);
            }
        }
        assert forall|i: int| 0 <= i < keys.len() implies exists|p: int|
            0 <= p < pairs.len() && (#[trigger] pairs[p]).0 == #[trigger] keys[i] by {
            if i < seen.len() {
                assert(keys[i] == seen[i]);
                let p = choose|p: int| 0 <= p < init.len() && (#[trigger] init[p]).0 == seen[i];
                assert(pairs[p] == init[p]);
            }
        }
        assert forall|i: int, j: int, q: int|
            #![trigger keys[i], keys[j], pairs[q]]
            0 <= i < j < keys.len() && 0 <= q < pairs.len() && pairs[q].0
                == keys[j] implies occurs_before(pairs, q, keys[i]) by {
            assert(keys[i] == seen[i]);
            if q < last {
                assert(init[q] == pairs[q]);
                assert(seen.contains(init[q].0));
                assert(keys[j] == seen[j]) by {
                    if j == seen.len() {
                        assert(seen.contains(keys[j]));
                    }
                }
                assert(occurs_before(init, q, seen[i]));
                let p = choose|p: int| 0 <= p < q && (#[trigger] init[p]).0 == seen[i];
                assert(pairs[p] == init[p]);
            } else {
                let p = choose|p: int| 0 <= p < init.len() && (#[trigger] init[p]).0 == seen[i];
                assert(pairs[p] == init[p]);
            }
        }
    }
}

/// Folding starts with what is created of the first value and merges the others in, one after the
/// other.
pub proof fn lemma_folded_steps<V, C>(
    create: spec_fn(V, C) -> bool,
    merge: spec_fn(C, V, C) -> bool,
    vs: Seq<V>,
    c: C,
) -> (steps: Seq<C>)
    requires
        folded(create, merge, vs, c),
    ensures
        vs.len() > 0,
        steps.len() == vs.len(),
        create(vs[0], steps[0]),
        forall|i: int| 0 < i < vs.len() ==> merge(steps[i - 1], vs[i], #[trigger] steps[i]),
        steps.last() == c,
    decreases vs.len(),
{
    if vs.len() == 1 {
        seq![c]
    } else {
        let before = choose|before: C|
            #![trigger merge(before, vs.last(), c)]
            folded(create, merge, vs.drop_last(), before) && merge(before, vs.last(), c);
        let steps = lemma_folded_steps(create, merge, vs.drop_last(), before);
        let more = steps.push(c);
        assert forall|i: int| 0 < i < vs.len() implies merge(
            more[i - 1],
            vs[i],
            #[trigger] more[i],
        ) by {
            if i < steps.len() {
                assert(more[i] == steps[i]);
                assert(vs.drop_last()[i] == vs[i]);
            }
        }
        more
    }
}

/// Combining records gives one record for each key, in the order in which the keys first occur: the
/// key's values are folded in the order of the records.
pub proof fn lemma_combined<I, V, C>(
    create: spec_fn(V, C) -> bool,
    merge: spec_fn(C, V, C) -> bool,
    pairs: Seq<(I, V)>,
    out: Seq<(I, C)>,
    i: int,
) -> (steps: Seq<C>)
    requires
        combined(create, merge, pairs, out),
        0 <= i < out.len(),
    ensures
        out.map_values(|e: (I, C)| e.0).no_duplicates(),
        out.map_values(|e: (I, C)| e.0).to_set() == pairs.map_values(|e: (I, V)| e.0).to_set(),
        forall|j: int, q: int|
            #![trigger out[j], pairs[q]]
            i < j < out.len() && 0 <= q < pairs.len() && pairs[q].0 == out[j].0
                ==> occurs_before(pairs, q, out[i].0),
        ({
            let vs = pairs.filter(|e: (I, V)| e.0 == out[i].0);
            &&& vs.len() > 0
            &&& steps.len() == vs.len()
            &&& create(vs[0].1, steps[0])
            &&& forall|k: int|
                0 < k < vs.len() ==> merge(steps[k - 1], vs[k].1, #[trigger] steps[k])
            &&& steps.last() == out[i].1
        }),
{
    let keys = out.map_values(|e: (I, C)| e.0);
    assert(keys =~= distinct_keys(pairs));
    lemma_keys_in_order(pairs);
    let all = pairs.map_values(|e: (I, V)| e.0);
    assert forall|id: I| keys.contains(id) <==> all.contains(id) by {
        if keys.contains(id) {
            let j = choose|j: int| 0 <= j < keys.len() && keys[j] == id;
            let p = choose|p: int| 0 <= p < pairs.len() && (#[trigger] pairs[p]).0 == keys[j];
            assert(all[p] == id);
        }
        if all.contains(id) {
            let p = choose|p: int| 0 <= p < all.len() && all[p] == id;
            assert(distinct_keys(pairs).contains(pairs[p].0));
        }
    }
    assert(keys.to_set() =~= all.to_set());
    assert forall|j: int, q: int|
        #![trigger out[j], pairs[q]]
        i < j < out.len() && 0 <= q < pairs.len() && pairs[q].0 == out[j].0 implies occurs_before(
        pairs,
        q,
        out[i].0,
    ) by {
        assert(keys[i] == out[i].0 && keys[j] == out[j].0);
        assert(distinct_keys(pairs)[i] == out[i].0 && distinct_keys(pairs)[j] == out[j].0);
    }
    lemma_values_of(pairs, out[i].0);
    let steps = lemma_folded_steps(create, merge, values_of(pairs, out[i].0), out[i].1);
    let vs = pairs.filter(|e: (I, V)| e.0 == out[i].0);
    assert forall|k: int| 0 < k < vs.len() implies merge(
        steps[k - 1],
        vs[k].1,
        #[trigger] steps[k],
    ) by {
        assert(values_of(pairs, out[i].0)[k] == vs[k].1);
    }
    steps
}

} // verus!
