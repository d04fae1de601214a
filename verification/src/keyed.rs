//! Aggregation by key.
use std::sync::Arc;

use vstd::prelude::*;

use crate::combine::{creates, creates_on, folded, keeps, keeps_on, merges, merges_on};
use crate::key::ShuffleKey;
use crate::rdd::{derived_by_key, Rdd};
use crate::shuffle::window_len;
use crate::shuffled::{
    combine_records, lemma_shuffle_safe_narrow, lemma_shuffle_weaken, shuffle_charges,
    shuffle_safe, shuffle_yields,
};

verus! {

/// What a value may become when it is folded into a clone of `zero`.
pub open spec fn starts_from<U: Clone, V, F: Fn(U, V) -> U>(zero: &U, seq_op: &F) -> spec_fn(
    V,
    U,
) -> bool {
    |v: V, c: U| exists|z: U| cloned(*zero, z) && #[trigger] call_ensures(*seq_op, (z, v), c)
}

/// The values that can be folded into a clone of `zero`.
pub open spec fn starts_from_on<U: Clone, V, F: Fn(U, V) -> U>(zero: &U, seq_op: &F) -> spec_fn(
    V,
) -> bool {
    |v: V| forall|z: U| cloned(*zero, z) ==> #[trigger] call_requires(*seq_op, (z, v))
}

impl<K: ShuffleKey + Send + Sync + 'static, V: Send + Sync + 'static> Rdd<(K, V)> {
    fn combine_with<
        C: Clone + Send + Sync + 'static,
        Create: Fn(V) -> C + Send + Sync + 'static,
        MergeV: Fn(C, V) -> C + Send + Sync + 'static,
        MergeC: Fn(C, C) -> C + Send + Sync + 'static,
    >(self, create: Arc<Create>, merge_value: Arc<MergeV>, merge_combiners: Arc<MergeC>) -> (r: Rdd<
        (K, C),
    >)
        requires
            shuffle_safe::<K, V, C>(
                self.dataset(),
                creates_on(*create),
                creates(*create),
                merges_on(*merge_value),
                merges(*merge_value),
                merges_on(*merge_combiners),
                merges(*merge_combiners),
                window_len(self.shared().limit()),
            ),
        ensures
            derived_by_key(self, r),
            r.dataset().charges() <==> shuffle_charges(
                self.dataset(),
                window_len(self.shared().limit()),
                self.shared().tally(),
            ),
            forall|out: Map<int, Seq<(K, C)>>| #[trigger]
                r.dataset().yields(out) <==> shuffle_yields::<K, V, C>(
                    self.dataset(),
                    creates(*create),
                    merges(*merge_value),
                    merges(*merge_combiners),
                    window_len(self.shared().limit()),
                    out,
                ),
    {
        let n = self.get_num_partitions();
        let limit = self.spill_limit();
        let parent = self.data();
        let (threads, counters) = (self.threads(), self.counters());
        let d = combine_records(
            parent,
            create,
            merge_value,
            merge_combiners,
            n,
            limit,
            threads,
            counters,
        );
        self.shuffled(d)
    }

    /// The dataset with one record for each key, in the partition that the key's hash assigns.
    /// The values of a key are folded: `create` starts a combiner, `merge_value` adds a value to
    /// one, and `merge_combiners` joins those that different partitions came to.
    pub fn combine_by_key<
        C: Clone + Send + Sync + 'static,
        Create: Fn(V) -> C + Send + Sync + 'static,
        MergeV: Fn(C, V) -> C + Send + Sync + 'static,
        MergeC: Fn(C, C) -> C + Send + Sync + 'static,
    >(self, create: Create, merge_value: MergeV, merge_combiners: MergeC) -> (r: Rdd<(K, C)>)
        requires
            shuffle_safe::<K, V, C>(
                self.dataset(),
                creates_on(create),
                creates(create),
                merges_on(merge_value),
                merges(merge_value),
                merges_on(merge_combiners),
                merges(merge_combiners),
                window_len(self.shared().limit()),
            ),
        ensures
            derived_by_key(self, r),
            r.dataset().charges() <==> shuffle_charges(
                self.dataset(),
                window_len(self.shared().limit()),
                self.shared().tally(),
            ),
            forall|out: Map<int, Seq<(K, C)>>| #[trigger]
                r.dataset().yields(out) <==> shuffle_yields::<K, V, C>(
                    self.dataset(),
                    creates(create),
                    merges(merge_value),
                    merges(merge_combiners),
                    window_len(self.shared().limit()),
                    out,
                ),
    {
        self.combine_with(Arc::new(create), Arc::new(merge_value), Arc::new(merge_combiners))
    }

    /// The dataset with one record for each key, whose values are folded with `f`.
    pub fn reduce_by_key<F: Fn(V, V) -> V + Send + Sync + 'static>(self, f: F) -> (r: Rdd<(K, V)>)
        where V: Clone
        requires
            shuffle_safe::<K, V, V>(
                self.dataset(),
                keeps_on(),
                keeps(),
                merges_on(f),
                merges(f),
                merges_on(f),
                merges(f),
                window_len(self.shared().limit()),
            ),
        ensures
            derived_by_key(self, r),
            r.dataset().charges() <==> shuffle_charges(
                self.dataset(),
                window_len(self.shared().limit()),
                self.shared().tally(),
            ),
            forall|out: Map<int, Seq<(K, V)>>| #[trigger]
                r.dataset().yields(out) ==> shuffle_yields::<K, V, V>(
                    self.dataset(),
                    keeps(),
                    merges(f),
                    merges(f),
                    window_len(self.shared().limit()),
                    out,
                ),
    {
        let ghost m = window_len(self.shared().limit());
        let keep = |v: V| -> (r: V)
            ensures
                r == v,
            { v };
        proof {
            lemma_shuffle_safe_narrow::<K, V, V>(
                self.dataset(),
                creates_on(keep),
                creates(keep),
                merges_on(f),
                merges(f),
                merges_on(f),
                merges(f),
                keeps_on(),
                keeps(),
                merges_on(f),
                merges(f),
                merges_on(f),
                merges(f),
                m,
            );
        }
        let merge = Arc::new(f);
        let ghost parent = self;
        let r = self.combine_with(Arc::new(keep), merge.clone(), merge);
        proof {
            assert forall|out: Map<int, Seq<(K, V)>>| #[trigger]
                r.dataset().yields(out) implies shuffle_yields::<K, V, V>(
                parent.dataset(),
                keeps(),
                merges(f),
                merges(f),
                m,
                out,
            ) by {
                lemma_shuffle_weaken::<K, V, V>(
                    parent.dataset(),
                    creates(keep),
                    merges(f),
                    merges(f),
                    keeps(),
                    merges(f),
                    merges(f),
                    m,
                    out,
                );
            }
        }
        r
    }

    /// The dataset with one record for each key, whose values are folded into a clone of `zero`
    /// with `seq_op`; `comb_op` joins what different partitions came to.
    pub fn aggregate_by_key<
        U: Clone + Send + Sync + 'static,
        SeqOp: Fn(U, V) -> U + Send + Sync + 'static,
        Comb: Fn(U, U) -> U + Send + Sync + 'static,
    >(self, zero: U, seq_op: SeqOp, comb_op: Comb) -> (r: Rdd<(K, U)>)
        requires
            shuffle_safe::<K, V, U>(
                self.dataset(),
                starts_from_on(&zero, &seq_op),
                starts_from(&zero, &seq_op),
                merges_on(seq_op),
                merges(seq_op),
                merges_on(comb_op),
                merges(comb_op),
                window_len(self.shared().limit()),
            ),
        ensures
            derived_by_key(self, r),
            r.dataset().charges() <==> shuffle_charges(
                self.dataset(),
                window_len(self.shared().limit()),
                self.shared().tally(),
            ),
            forall|out: Map<int, Seq<(K, U)>>| #[trigger]
                r.dataset().yields(out) ==> shuffle_yields::<K, V, U>(
                    self.dataset(),
                    starts_from(&zero, &seq_op),
                    merges(seq_op),
                    merges(comb_op),
                    window_len(self.shared().limit()),
                    out,
                ),
    {
        let ghost m = window_len(self.shared().limit());
        let seq = Arc::new(seq_op);
        let first = seq.clone();
        let ghost zero0 = zero;
        let create = move |v: V| -> (r: U)
            requires
                starts_from_on(&zero, &*first)(v),
            ensures
                starts_from(&zero, &*first)(v, r),
            {
                let z = zero.clone();
                (*first)(z, v)
            };
        proof {
            lemma_shuffle_safe_narrow::<K, V, U>(
                self.dataset(),
                creates_on(create),
                creates(create),
                merges_on(seq_op),
                merges(seq_op),
                merges_on(comb_op),
                merges(comb_op),
                starts_from_on(&zero0, &seq_op),
                starts_from(&zero0, &seq_op),
                merges_on(seq_op),
                merges(seq_op),
                merges_on(comb_op),
                merges(comb_op),
                m,
            );
        }
        let ghost parent = self;
        let r = self.combine_with(Arc::new(create), seq, Arc::new(comb_op));
        proof {
            assert forall|out: Map<int, Seq<(K, U)>>| #[trigger]
                r.dataset().yields(out) implies shuffle_yields::<K, V, U>(
                parent.dataset(),
                starts_from(&zero0, &seq_op),
                merges(seq_op),
                merges(comb_op),
                m,
                out,
            ) by {
                lemma_shuffle_weaken::<K, V, U>(
                    parent.dataset(),
                    creates(create),
                    merges(seq_op),
                    merges(comb_op),
                    starts_from(&zero0, &seq_op),
                    merges(seq_op),
                    merges(comb_op),
                    m,
                    out,
                );
            }
        }
        r
    }
}

/// Values are folded into a clone of `zero`, from the first to the last: where `seq_op` is a function
/// `g` and a clone is the same, what comes of them is their fold over `g` from `zero` on.
pub proof fn lemma_folds_from_zero<U: Clone, V, F: Fn(U, V) -> U>(
    zero: &U,
    seq_op: &F,
    g: spec_fn(U, V) -> U,
    vs: Seq<V>,
    c: U,
)
    requires
        forall|z: U| cloned(*zero, z) ==> z == *zero,
        forall|a: U, v: V, b: U| #[trigger] call_ensures(*seq_op, (a, v), b) ==> b == g(a, v),
        folded(starts_from(zero, seq_op), merges(*seq_op), vs, c),
    ensures
        vs.len() > 0,
        c == vs.fold_left(*zero, g),
    decreases vs.len(),
{
    if vs.len() == 1 {
        let z = choose|z: U| cloned(*zero, z) && #[trigger] call_ensures(*seq_op, (z, vs[0]), c);
        assert(vs.drop_last().len() == 0);
        assert(vs.drop_last().fold_left(*zero, g) == *zero);
    } else {
        let before = choose|before: U|
            #![trigger merges(*seq_op)(before, vs.last(), c)]
            folded(starts_from(zero, seq_op), merges(*seq_op), vs.drop_last(), before) && merges(
                *seq_op,
            )(before, vs.last(), c);
        lemma_folds_from_zero(zero, seq_op, g, vs.drop_last(), before);
    }
}

} // verus!
