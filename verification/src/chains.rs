//! Datasets whose contents are determined, and what chains of transformations make of them.
//!
//! Items stand for values: a `meaning` says which. What the closures of a chain do is said of these
//! values, so that it also covers items that are known by their views alone.
use vstd::prelude::*;
use vstd::utf8::decode_utf8;

use crate::actions::{first, lemma_first};
use crate::combine::{by_view, combined, keeps};
use crate::context::{chunk, holds_chunks};
use crate::dataset::{
    below, cloned_all, each_part, evaluates, expanded, filtered, filtering, flat_mapped,
    flat_mapping, from_on, joins_some, judged, kept, mapped, mapping, narrows_some, never_fails,
    part_map, starts_with, turns_first, turns_some, whole_first, within, Dataset,
};
use crate::folds::{
    images, lemma_combined_unique, lemma_map_combined_unique, single, single_merge,
};
use crate::key::ShuffleKey;
use crate::partition::lemma_split_covers;
use crate::rdd::{derived, evaluates_first, takes_last, Rdd};
use crate::seqs::{concat, lemma_concat_add, lemma_concat_flattens, lemma_concat_push, rows};
use crate::shuffled::{column, copied, mapped_out, shuffle_yields, shuffled};
use crate::source::{cut_lines, decoded, is_line, text_data, without_newline};

verus! {

/// Whatever an evaluation of `d` gives, the items of each partition stand for those of `cs`, and
/// what a partition begins with stands for what that of `cs` begins with.
pub open spec fn determined<T, A>(
    d: &Box<dyn Dataset<T>>,
    meaning: spec_fn(T) -> A,
    cs: Seq<Seq<A>>,
) -> bool {
    &&& d.parts() == cs.len()
    &&& forall|out: Map<int, Seq<T>>| #[trigger] d.yields(out) ==> agrees(meaning, out, cs)
    &&& forall|out: Map<int, Seq<T>>, p: int, items: Seq<T>| #[trigger]
        d.yields_some(out, p, items) ==> agrees(meaning, out.remove(p), cs) && 0 <= p < cs.len()
            && starts_with(cs[p], images(meaning, items))
}

/// The partitions of `out` stand for those of `cs`.
pub open spec fn agrees<T, A>(
    meaning: spec_fn(T) -> A,
    out: Map<int, Seq<T>>,
    cs: Seq<Seq<A>>,
) -> bool {
    forall|p: int| #[trigger]
        out.contains_key(p) ==> 0 <= p < cs.len() && images(meaning, out[p]) == cs[p]
}

/// `turn` can be applied to a sequence piece by piece.
pub open spec fn piecewise<A, B>(turn: spec_fn(Seq<A>) -> Seq<B>) -> bool {
    &&& turn(Seq::empty()) == Seq::<B>::empty()
    &&& forall|a: Seq<A>, b: Seq<A>| #[trigger] turn(a + b) == turn(a) + turn(b)
}

/// What `turn` makes of each part.
pub open spec fn turn_parts<A, B>(turn: spec_fn(Seq<A>) -> Seq<B>, cs: Seq<Seq<A>>) -> Seq<Seq<B>> {
    Seq::new(cs.len(), |p: int| turn(cs[p]))
}

proof fn lemma_turn_concat<A, B>(turn: spec_fn(Seq<A>) -> Seq<B>, cs: Seq<Seq<A>>)
    requires
        piecewise(turn),
    ensures
        concat(turn_parts(turn, cs)) == turn(concat(cs)),
    decreases cs.len(),
{
    if cs.len() > 0 {
        lemma_turn_concat(turn, cs.drop_last());
        assert(turn_parts(turn, cs).drop_last() =~= turn_parts(turn, cs.drop_last()));
        assert(turn(concat(cs.drop_last()) + cs.last()) == turn(concat(cs.drop_last())) + turn(
            cs.last(),
        ));
    }
}

proof fn lemma_images_concat<T, A>(meaning: spec_fn(T) -> A, parts: Seq<Seq<T>>, cs: Seq<Seq<A>>)
    requires
        parts.len() == cs.len(),
        forall|p: int| 0 <= p < parts.len() ==> images(meaning, #[trigger] parts[p]) == cs[p],
    ensures
        images(meaning, concat(parts)) == concat(cs),
    decreases parts.len(),
{
    if parts.len() > 0 {
        let (a, b) = (parts.drop_last(), cs.drop_last());
        assert forall|p: int| 0 <= p < a.len() implies images(meaning, #[trigger] a[p]) == b[p] by {
            assert(parts[p] == a[p]);
        }
        lemma_images_concat(meaning, a, b);
        let last = parts.len() - 1;
        assert(images(meaning, parts[last]) == cs[last]);
        assert(images(meaning, concat(parts)) =~= images(meaning, concat(a)) + images(
            meaning,
            parts[last],
        ));
    } else {
        assert(images(meaning, concat(parts)) =~= concat(cs));
    }
}

// ---- sources

/// Cloning keeps what an item stands for.
pub open spec fn clones_mean<T: Clone, A>(meaning: spec_fn(T) -> A) -> bool {
    forall|a: T, b: T| #[trigger] cloned(a, b) ==> meaning(a) == meaning(b)
}

proof fn lemma_clones_mean<T: Clone, A>(meaning: spec_fn(T) -> A, a: Seq<T>, b: Seq<T>)
    requires
        clones_mean(meaning),
        cloned_all(a, b),
    ensures
        images(meaning, a) == images(meaning, b),
{
    assert forall|i: int| 0 <= i < a.len() implies images(meaning, a)[i] == images(meaning, b)[i] by {
        assert(cloned(a[i], b[i]));
    }
    assert(images(meaning, a) =~= images(meaning, b));
}

/// Where partitions are computed as a whole, it is enough that their contents are determined.
pub proof fn lemma_whole_determined<T, A>(
    d: &Box<dyn Dataset<T>>,
    meaning: spec_fn(T) -> A,
    cs: Seq<Seq<A>>,
)
    requires
        whole_first(d),
        d.parts() == cs.len(),
        forall|out: Map<int, Seq<T>>| #[trigger] d.yields(out) ==> agrees(meaning, out, cs),
    ensures
        determined(d, meaning, cs),
{
    assert forall|out: Map<int, Seq<T>>, p: int, items: Seq<T>| #[trigger]
        d.yields_some(out, p, items) implies agrees(meaning, out.remove(p), cs) && 0 <= p
        < cs.len() && starts_with(cs[p], images(meaning, items)) by {
        let all = choose|all: Seq<T>| #[trigger]
            starts_with(all, items) && d.yields(out.insert(p, all));
        let more = out.insert(p, all);
        assert(more.contains_key(p));
        assert(images(meaning, items) =~= images(meaning, all).take(items.len() as int));
        assert forall|q: int| #[trigger] out.remove(p).contains_key(q) implies 0 <= q < cs.len()
            && images(meaning, out.remove(p)[q]) == cs[q] by {
            assert(more.contains_key(q));
        }
    }
}

/// What was parallelized is determined, in however many partitions: it stands for the data.
pub proof fn lemma_parallelize_determined<T: Clone, A>(
    d: &Box<dyn Dataset<T>>,
    meaning: spec_fn(T) -> A,
    data: Seq<T>,
    n: nat,
) -> (cs: Seq<Seq<A>>)
    requires
        n > 0,
        d.parts() == n,
        whole_first(d),
        forall|out: Map<int, Seq<T>>| #[trigger] d.yields(out) <==> holds_chunks(data, n, out),
        clones_mean(meaning),
    ensures
        determined(d, meaning, cs),
        concat(cs) == images(meaning, data),
{
    let chunks = Seq::new(n, |p: int| chunk(data, n, p));
    let cs = Seq::new(n, |p: int| images(meaning, chunk(data, n, p)));
    assert forall|out: Map<int, Seq<T>>| #[trigger] d.yields(out) implies agrees(
        meaning,
        out,
        cs,
    ) by {
        assert forall|p: int| #[trigger] out.contains_key(p) implies 0 <= p < cs.len() && images(
            meaning,
            out[p],
        ) == cs[p] by {
            lemma_clones_mean(meaning, chunk(data, n, p), out[p]);
        }
    }
    lemma_whole_determined(d, meaning, cs);
    lemma_split_covers(data, n, chunks);
    lemma_images_concat(meaning, chunks, cs);
    cs
}

/// A line stands for its text.
pub open spec fn line_meaning() -> spec_fn(String) -> Seq<char> {
    |s: String| s@
}

/// The texts of lines with these bytes.
pub open spec fn line_texts(raw: Seq<Seq<u8>>) -> Seq<Seq<char>> {
    Seq::new(raw.len(), |i: int| without_newline(decode_utf8(raw[i])))
}

/// The lines of a file are determined: they stand for their texts.
pub proof fn lemma_text_determined(
    d: &Box<dyn Dataset<String>>,
    contents: Seq<u8>,
    n: nat,
) -> (cs: Seq<Seq<Seq<char>>>)
    requires
        text_data(d, contents, n),
    ensures
        cs == Seq::new(n, |p: int| line_texts(cut_lines(contents, n, p))),
        determined(d, line_meaning(), cs),
{
    let cs = Seq::new(n, |p: int| line_texts(cut_lines(contents, n, p)));
    assert forall|out: Map<int, Seq<String>>| #[trigger] d.yields(out) implies agrees(
        line_meaning(),
        out,
        cs,
    ) by {
        assert forall|p: int| #[trigger] out.contains_key(p) implies 0 <= p < cs.len() && images(
            line_meaning(),
            out[p],
        ) == cs[p] by {
            lemma_decoded_texts(cut_lines(contents, n, p), out[p]);
        }
    }
    assert forall|out: Map<int, Seq<String>>, p: int, items: Seq<String>| #[trigger]
        d.yields_some(out, p, items) implies agrees(line_meaning(), out.remove(p), cs) && 0 <= p
        < cs.len() && starts_with(cs[p], images(line_meaning(), items)) by {
        let raw = cut_lines(contents, n, p);
        let k = items.len() as int;
        lemma_decoded_texts(raw.take(k), items);
        assert(line_texts(raw.take(k)) =~= line_texts(raw).take(k));
        assert forall|q: int| #[trigger] out.remove(p).contains_key(q) implies 0 <= q < cs.len()
            && images(line_meaning(), out.remove(p)[q]) == cs[q] by {
            assert(out.contains_key(q));
        }
    }
    cs
}

proof fn lemma_decoded_texts(raw: Seq<Seq<u8>>, lines: Seq<String>)
    requires
        decoded(raw, lines),
    ensures
        images(line_meaning(), lines) == line_texts(raw),
{
    assert forall|i: int| 0 <= i < raw.len() implies #[trigger] images(line_meaning(), lines)[i]
        == line_texts(raw)[i] by {
        assert(is_line(raw[i], lines[i]@));
    }
    assert(images(line_meaning(), lines) =~= line_texts(raw));
}

// ---- steps

/// `child` is derived from `parent` partition by partition, and `turns` relates their items.
pub open spec fn narrows_by<T, U>(
    parent: &Box<dyn Dataset<T>>,
    child: &Box<dyn Dataset<U>>,
    turns: spec_fn(Seq<T>, Seq<U>) -> bool,
) -> bool {
    &&& child.parts() == parent.parts()
    &&& forall|out: Map<int, Seq<U>>| #[trigger]
        child.yields(out) ==> exists|a: Map<int, Seq<T>>|
            parent.yields(a) && #[trigger] each_part(turns, a, out)
    &&& forall|out: Map<int, Seq<U>>, p: int, items: Seq<U>| #[trigger]
        child.yields_some(out, p, items) ==> narrows_some(parent, turns, out, p, items)
}

/// What `turns` turns items into stands for what `turn` makes of what they stand for.
pub open spec fn turns_as<T, U, A, B>(
    turns: spec_fn(Seq<T>, Seq<U>) -> bool,
    from: spec_fn(T) -> A,
    to: spec_fn(U) -> B,
    turn: spec_fn(Seq<A>) -> Seq<B>,
) -> bool {
    forall|a: Seq<T>, b: Seq<U>| #[trigger] turns(a, b) ==> images(to, b) == turn(images(from, a))
}

/// A dataset that is derived partition by partition from one that is determined is determined.
pub proof fn lemma_narrow_determined<T, U, A, B>(
    parent: &Box<dyn Dataset<T>>,
    child: &Box<dyn Dataset<U>>,
    turns: spec_fn(Seq<T>, Seq<U>) -> bool,
    from: spec_fn(T) -> A,
    to: spec_fn(U) -> B,
    turn: spec_fn(Seq<A>) -> Seq<B>,
    cs: Seq<Seq<A>>,
)
    requires
        narrows_by(parent, child, turns),
        turns_as(turns, from, to, turn),
        piecewise(turn),
        determined(parent, from, cs),
    ensures
        determined(child, to, turn_parts(turn, cs)),
        concat(turn_parts(turn, cs)) == turn(concat(cs)),
{
    let ds = turn_parts(turn, cs);
    lemma_turn_concat(turn, cs);
    assert forall|out: Map<int, Seq<U>>| #[trigger] child.yields(out) implies agrees(
        to,
        out,
        ds,
    ) by {
        let a = choose|a: Map<int, Seq<T>>| parent.yields(a) && #[trigger] each_part(turns, a, out);
        assert forall|p: int| #[trigger] out.contains_key(p) implies 0 <= p < ds.len() && images(
            to,
            out[p],
        ) == ds[p] by {
            assert(a.dom().contains(p));
            assert(a.contains_key(p));
            assert(turns(a[p], out[p]));
        }
    }
    assert forall|out: Map<int, Seq<U>>, p: int, items: Seq<U>| #[trigger]
        child.yields_some(out, p, items) implies agrees(to, out.remove(p), ds) && 0 <= p < ds.len()
        && starts_with(ds[p], images(to, items)) by {
        let (a, x) = choose|a: Map<int, Seq<T>>, x: Seq<T>| #[trigger]
            parent.yields_some(a, p, x) && each_part(turns, a, out) && turns_some(turns, x, items);
        assert forall|q: int| #[trigger] out.remove(p).contains_key(q) implies 0 <= q < ds.len()
            && images(to, out.remove(p)[q]) == ds[q] by {
            assert(out.contains_key(q));
            assert(a.dom().contains(q));
            assert(a.remove(p).contains_key(q));
            assert(turns(a[q], out[q]));
        }
        let k = choose|k: int| #[trigger] turns_first(turns, x, k, items);
        assert(turns(x.take(k), items));
        let y = images(from, x);
        assert(images(from, x.take(k)) =~= y.take(k));
        assert(cs[p].take(k) =~= y.take(k));
        assert(cs[p] =~= cs[p].take(k) + cs[p].skip(k));
        assert(turn(cs[p].take(k) + cs[p].skip(k)) == turn(cs[p].take(k)) + turn(cs[p].skip(k)));
        assert(ds[p].take(images(to, items).len() as int) =~= images(to, items));
    }
}

/// `f` makes of an item what `g` makes of what it stands for.
pub open spec fn maps_as<T, U, F: Fn(T) -> U, A, B>(
    f: F,
    from: spec_fn(T) -> A,
    to: spec_fn(U) -> B,
    g: spec_fn(A) -> B,
) -> bool {
    forall|x: T, y: U| #[trigger] call_ensures(f, (x,), y) ==> to(y) == g(from(x))
}

/// `pred` says of an item what `g` says of what it stands for.
pub open spec fn judges_as<T, F: Fn(&T) -> bool, A>(
    pred: F,
    meaning: spec_fn(T) -> A,
    g: spec_fn(A) -> bool,
) -> bool {
    forall|x: T, b: bool| #[trigger] call_ensures(pred, (&x,), b) ==> b == g(meaning(x))
}

/// `f` makes of an item what `g` makes of what it stands for.
pub open spec fn expands_as<T, U, F: Fn(T) -> Vec<U>, A, B>(
    f: F,
    from: spec_fn(T) -> A,
    to: spec_fn(U) -> B,
    g: spec_fn(A) -> Seq<B>,
) -> bool {
    forall|x: T, v: Vec<U>| #[trigger] call_ensures(f, (x,), v) ==> images(to, v@) == g(from(x))
}

/// What `g` makes of each element.
pub open spec fn mapped_by<A, B>(g: spec_fn(A) -> B) -> spec_fn(Seq<A>) -> Seq<B> {
    |s: Seq<A>| s.map_values(g)
}

/// The elements of which `g` holds.
pub open spec fn filtered_by<A>(g: spec_fn(A) -> bool) -> spec_fn(Seq<A>) -> Seq<A> {
    |s: Seq<A>| s.filter(g)
}

/// What `g` makes of each element, one after the other.
pub open spec fn expanded_by<A, B>(g: spec_fn(A) -> Seq<B>) -> spec_fn(Seq<A>) -> Seq<B> {
    |s: Seq<A>| concat(s.map_values(g))
}

proof fn lemma_mapped_by<A, B>(g: spec_fn(A) -> B)
    ensures
        piecewise(mapped_by(g)),
{
    assert(mapped_by(g)(Seq::empty()) =~= Seq::<B>::empty());
    assert forall|a: Seq<A>, b: Seq<A>| #[trigger] mapped_by(g)(a + b) == mapped_by(g)(a)
        + mapped_by(g)(b) by {
        assert((a + b).map_values(g) =~= a.map_values(g) + b.map_values(g));
    }
}

proof fn lemma_filter_add<A>(g: spec_fn(A) -> bool, a: Seq<A>, b: Seq<A>)
    ensures
        (a + b).filter(g) == a.filter(g) + b.filter(g),
    decreases b.len(),
{
    reveal(Seq::filter);
    if b.len() == 0 {
        assert(a + b =~= a);
        assert(a.filter(g) + b.filter(g) =~= a.filter(g));
    } else {
        lemma_filter_add(g, a, b.drop_last());
        assert((a + b).drop_last() =~= a + b.drop_last());
        assert((a + b).last() == b.last());
        assert((a + b).filter(g) =~= a.filter(g) + b.filter(g));
    }
}

proof fn lemma_filtered_by<A>(g: spec_fn(A) -> bool)
    ensures
        piecewise(filtered_by(g)),
{
    reveal(Seq::filter);
    assert(filtered_by(g)(Seq::empty()) =~= Seq::<A>::empty());
    assert forall|a: Seq<A>, b: Seq<A>| #[trigger] filtered_by(g)(a + b) == filtered_by(g)(a)
        + filtered_by(g)(b) by {
        lemma_filter_add(g, a, b);
    }
}

proof fn lemma_expanded_by<A, B>(g: spec_fn(A) -> Seq<B>)
    ensures
        piecewise(expanded_by(g)),
{
    assert(Seq::<A>::empty().map_values(g) =~= Seq::<Seq<B>>::empty());
    assert forall|a: Seq<A>, b: Seq<A>| #[trigger] expanded_by(g)(a + b) == expanded_by(g)(a)
        + expanded_by(g)(b) by {
        assert((a + b).map_values(g) =~= a.map_values(g) + b.map_values(g));
        lemma_concat_add(a.map_values(g), b.map_values(g));
    }
}

/// Mapping with a function that always gives the same maps what the items stand for.
pub proof fn lemma_map_turns<T, U, F: Fn(T) -> U, A, B>(
    f: F,
    from: spec_fn(T) -> A,
    to: spec_fn(U) -> B,
    g: spec_fn(A) -> B,
)
    requires
        maps_as(f, from, to, g),
    ensures
        turns_as(mapping(f), from, to, mapped_by(g)),
        piecewise(mapped_by(g)),
{
    lemma_mapped_by(g);
    assert forall|a: Seq<T>, b: Seq<U>| #[trigger] mapping(f)(a, b) implies images(to, b)
        == mapped_by(g)(images(from, a)) by {
        assert(mapped(f, a, b));
        assert forall|i: int| 0 <= i < a.len() implies #[trigger] images(to, b)[i] == images(
            from,
            a,
        ).map_values(g)[i] by {
            assert(call_ensures(f, (a[i],), b[i]));
        }
        assert(images(to, b) =~= images(from, a).map_values(g));
    }
}

proof fn lemma_kept_filter<T, F: Fn(&T) -> bool, A>(
    pred: F,
    meaning: spec_fn(T) -> A,
    g: spec_fn(A) -> bool,
    a: Seq<T>,
    keep: Seq<bool>,
)
    requires
        judges_as(pred, meaning, g),
        keep.len() >= a.len(),
        forall|i: int| 0 <= i < a.len() ==> call_ensures(pred, (&a[i],), #[trigger] keep[i]),
    ensures
        images(meaning, kept(a, keep)) == images(meaning, a).filter(g),
    decreases a.len(),
{
    reveal(Seq::filter);
    let y = images(meaning, a);
    if a.len() == 0 {
        assert(images(meaning, kept(a, keep)) =~= y.filter(g));
    } else {
        let init = a.drop_last();
        assert forall|i: int| 0 <= i < init.len() implies call_ensures(
            pred,
            (&init[i],),
            #[trigger] keep[i],
        ) by {
            assert(init[i] == a[i]);
        }
        lemma_kept_filter(pred, meaning, g, init, keep);
        let last = a.len() - 1;
        assert(call_ensures(pred, (&a[last],), keep[last]));
        assert(y.drop_last() =~= images(meaning, init));
        assert(y.last() == meaning(a[last]));
        let before = kept(init, keep);
        assert(images(meaning, before.push(a[last])) =~= images(meaning, before).push(
            meaning(a[last]),
        ));
    }
}

/// Filtering with a predicate that always says the same filters what the items stand for.
pub proof fn lemma_filter_turns<T, F: Fn(&T) -> bool, A>(
    pred: F,
    meaning: spec_fn(T) -> A,
    g: spec_fn(A) -> bool,
)
    requires
        judges_as(pred, meaning, g),
    ensures
        turns_as(filtering(pred), meaning, meaning, filtered_by(g)),
        piecewise(filtered_by(g)),
{
    lemma_filtered_by(g);
    assert forall|a: Seq<T>, b: Seq<T>| #[trigger] filtering(pred)(a, b) implies images(meaning, b)
        == filtered_by(g)(images(meaning, a)) by {
        assert(filtered(pred, a, b));
        let keep = choose|keep: Seq<bool>| #[trigger] judged(pred, a, keep) && b == kept(a, keep);
        lemma_kept_filter(pred, meaning, g, a, keep);
    }
}

/// Flat-mapping with a function that always gives the same flat-maps what the items stand for.
pub proof fn lemma_flat_map_turns<T, U, F: Fn(T) -> Vec<U>, A, B>(
    f: F,
    from: spec_fn(T) -> A,
    to: spec_fn(U) -> B,
    g: spec_fn(A) -> Seq<B>,
)
    requires
        expands_as(f, from, to, g),
    ensures
        turns_as(flat_mapping(f), from, to, expanded_by(g)),
        piecewise(expanded_by(g)),
{
    lemma_expanded_by(g);
    assert forall|a: Seq<T>, b: Seq<U>| #[trigger] flat_mapping(f)(a, b) implies images(to, b)
        == expanded_by(g)(images(from, a)) by {
        assert(flat_mapped(f, a, b));
        let groups = choose|groups: Seq<Vec<U>>| #[trigger]
            expanded(f, a, groups) && b == concat(rows(groups));
        let cs = images(from, a).map_values(g);
        assert forall|i: int| 0 <= i < rows(groups).len() implies images(
            to,
            #[trigger] rows(groups)[i],
        ) == cs[i] by {
            assert(call_ensures(f, (a[i],), groups[i]));
        }
        lemma_images_concat(to, rows(groups), cs);
    }
}

/// The union of datasets that are determined is determined.
pub proof fn lemma_union_determined<T, A>(
    left: &Box<dyn Dataset<T>>,
    right: &Box<dyn Dataset<T>>,
    both: &Box<dyn Dataset<T>>,
    meaning: spec_fn(T) -> A,
    cs: Seq<Seq<A>>,
    ds: Seq<Seq<A>>,
)
    requires
        both.parts() == left.parts() + right.parts(),
        forall|out: Map<int, Seq<T>>| #[trigger]
            both.yields(out) <==> within(out, both.parts()) && left.yields(
                below(out, left.parts()),
            ) && right.yields(from_on(out, left.parts())),
        forall|out: Map<int, Seq<T>>, p: int, items: Seq<T>| #[trigger]
            both.yields_some(out, p, items) <==> joins_some(left, right, out, p, items),
        determined(left, meaning, cs),
        determined(right, meaning, ds),
    ensures
        determined(both, meaning, cs + ds),
        concat(cs + ds) == concat(cs) + concat(ds),
{
    let n = left.parts();
    let all = cs + ds;
    lemma_concat_add(cs, ds);
    assert forall|out: Map<int, Seq<T>>| #[trigger] both.yields(out) implies agrees(
        meaning,
        out,
        all,
    ) by {
        let (a, b) = (below(out, n), from_on(out, n));
        assert forall|p: int| #[trigger] out.contains_key(p) implies 0 <= p < all.len() && images(
            meaning,
            out[p],
        ) == all[p] by {
            if p < n {
                assert(a.contains_key(p));
            } else {
                assert(b.contains_key(p - n));
            }
        }
    }
    assert forall|out: Map<int, Seq<T>>, p: int, items: Seq<T>| #[trigger]
        both.yields_some(out, p, items) implies agrees(meaning, out.remove(p), all) && 0 <= p
        < all.len() && starts_with(all[p], images(meaning, items)) by {
        let (a, b) = (below(out, n), from_on(out, n));
        if p < n {
            assert(left.yields_some(a, p, items));
        } else {
            assert(right.yields_some(b, p - n, items));
            assert(all[p] == ds[p - n]);
        }
        assert forall|q: int| #[trigger] out.remove(p).contains_key(q) implies 0 <= q < all.len()
            && images(meaning, out.remove(p)[q]) == all[q] by {
            assert(out.contains_key(q));
            if q < n {
                assert(a.contains_key(q));
                if p < n {
                    assert(a.remove(p).contains_key(q));
                }
            } else {
                assert(b.contains_key(q - n));
                if p >= n {
                    assert(b.remove(p - n).contains_key(q - n));
                }
            }
        }
    }
}

// ---- shuffles

/// A record stands for the view of its key and its value.
pub open spec fn record_meaning<K: ShuffleKey, V>() -> spec_fn((K, V)) -> (K::V, V) {
    |kv: (K, V)| (kv.0.deep_view(), kv.1)
}

/// Cloning gives an equal value.
pub open spec fn clones_equal<C: Clone>() -> bool {
    forall|a: C, b: C| #[trigger] cloned(a, b) ==> a == b
}

proof fn lemma_shuffled_unique<K: ShuffleKey, V, C>(
    create: spec_fn(V, C) -> bool,
    merge_value: spec_fn(C, V, C) -> bool,
    merge_combiners: spec_fn(C, C, C) -> bool,
    inp: Seq<Seq<(K, V)>>,
    inp2: Seq<Seq<(K, V)>>,
    n: nat,
    m: nat,
    blocks: Seq<Seq<(K::V, C)>>,
    blocks2: Seq<Seq<(K::V, C)>>,
)
    requires
        single(create),
        single_merge(merge_value),
        single_merge(merge_combiners),
        inp.len() == n,
        inp2.len() == n,
        forall|p: int| 0 <= p < n ==> by_view(#[trigger] inp[p]) == by_view(inp2[p]),
        shuffled::<K, V, C>(create, merge_value, merge_combiners, inp, n, m, blocks),
        shuffled::<K, V, C>(create, merge_value, merge_combiners, inp2, n, m, blocks2),
    ensures
        blocks == blocks2,
{
    let a = choose|outs: Seq<Seq<Seq<(K::V, C)>>>|
        outs.len() == n && blocks.len() == n && #[trigger] mapped_out::<K, V, C>(
            create,
            merge_value,
            inp,
            n,
            m,
            outs,
        ) && forall|b: int|
            #![trigger blocks[b]]
            0 <= b < n ==> combined(keeps(), merge_combiners, concat(column(outs, b)), blocks[b]);
    let b = choose|outs: Seq<Seq<Seq<(K::V, C)>>>|
        outs.len() == n && blocks2.len() == n && #[trigger] mapped_out::<K, V, C>(
            create,
            merge_value,
            inp2,
            n,
            m,
            outs,
        ) && forall|b: int|
            #![trigger blocks2[b]]
            0 <= b < n ==> combined(keeps(), merge_combiners, concat(column(outs, b)), blocks2[b]);
    assert forall|p: int| 0 <= p < n implies a[p] == b[p] by {
        assert(by_view(inp[p]) == by_view(inp2[p]));
        lemma_map_combined_unique::<K, V, C>(
            create,
            merge_value,
            by_view(inp[p]),
            m,
            a[p],
            b[p],
        );
    }
    assert(a =~= b);
    assert forall|p: int| 0 <= p < n implies blocks[p] == blocks2[p] by {
        lemma_combined_unique(
            keeps(),
            merge_combiners,
            concat(column(a, p)),
            blocks[p],
            blocks2[p],
        );
    }
    assert(blocks =~= blocks2);
}

/// Some evaluation of `parent` leaves these blocks.
spec fn leaves<K: ShuffleKey, V, C>(
    parent: &Box<dyn Dataset<(K, V)>>,
    create: spec_fn(V, C) -> bool,
    merge_value: spec_fn(C, V, C) -> bool,
    merge_combiners: spec_fn(C, C, C) -> bool,
    m: nat,
    blocks: Seq<Seq<(K::V, C)>>,
) -> bool {
    exists|inp: Seq<Seq<(K, V)>>|
        evaluates(parent, inp) && #[trigger] shuffled::<K, V, C>(
            create,
            merge_value,
            merge_combiners,
            inp,
            parent.parts(),
            m,
            blocks,
        )
}

proof fn lemma_same_views<K: ShuffleKey, V>(
    parent: &Box<dyn Dataset<(K, V)>>,
    cs: Seq<Seq<(K::V, V)>>,
    inp: Seq<Seq<(K, V)>>,
)
    requires
        determined(parent, record_meaning::<K, V>(), cs),
        evaluates(parent, inp),
    ensures
        inp.len() == cs.len(),
        forall|p: int| 0 <= p < inp.len() ==> by_view(#[trigger] inp[p]) == cs[p],
{
    assert forall|p: int| 0 <= p < inp.len() implies by_view(#[trigger] inp[p]) == cs[p] by {
        assert(part_map(inp).contains_key(p));
        assert(by_view(inp[p]) =~= images(record_meaning::<K, V>(), inp[p]));
    }
}

/// A shuffle of a dataset that is determined is determined, where its functions always give the
/// same.
pub proof fn lemma_shuffle_determined<K: ShuffleKey, V, C: Clone>(
    parent: &Box<dyn Dataset<(K, V)>>,
    child: &Box<dyn Dataset<(K, C)>>,
    create: spec_fn(V, C) -> bool,
    merge_value: spec_fn(C, V, C) -> bool,
    merge_combiners: spec_fn(C, C, C) -> bool,
    m: nat,
    cs: Seq<Seq<(K::V, V)>>,
) -> (bs: Seq<Seq<(K::V, C)>>)
    requires
        child.parts() == parent.parts(),
        whole_first(child),
        forall|out: Map<int, Seq<(K, C)>>| #[trigger]
            child.yields(out) ==> shuffle_yields::<K, V, C>(
                parent,
                create,
                merge_value,
                merge_combiners,
                m,
                out,
            ),
        determined(parent, record_meaning::<K, V>(), cs),
        single(create),
        single_merge(merge_value),
        single_merge(merge_combiners),
        clones_equal::<C>(),
    ensures
        determined(child, record_meaning::<K, C>(), bs),
{
    let n = parent.parts();
    let bs = if exists|bs: Seq<Seq<(K::V, C)>>| #[trigger]
        leaves(parent, create, merge_value, merge_combiners, m, bs) {
        choose|bs: Seq<Seq<(K::V, C)>>| #[trigger]
            leaves(parent, create, merge_value, merge_combiners, m, bs)
    } else {
        Seq::new(n, |p: int| Seq::empty())
    };
    assert forall|out: Map<int, Seq<(K, C)>>| #[trigger] child.yields(out) implies agrees(
        record_meaning::<K, C>(),
        out,
        bs,
    ) by {
        let (inp, blocks) = choose|inp: Seq<Seq<(K, V)>>, blocks: Seq<Seq<(K::V, C)>>|
            evaluates(parent, inp) && #[trigger] shuffled::<K, V, C>(
                create,
                merge_value,
                merge_combiners,
                inp,
                n,
                m,
                blocks,
            ) && forall|p: int| #[trigger] out.contains_key(p) ==> copied(blocks[p], out[p]);
        assert(leaves(parent, create, merge_value, merge_combiners, m, blocks));
        let inp2 = choose|inp: Seq<Seq<(K, V)>>|
            evaluates(parent, inp) && #[trigger] shuffled::<K, V, C>(
                create,
                merge_value,
                merge_combiners,
                inp,
                n,
                m,
                bs,
            );
        lemma_same_views(parent, cs, inp);
        lemma_same_views(parent, cs, inp2);
        lemma_shuffled_unique(
            create,
            merge_value,
            merge_combiners,
            inp,
            inp2,
            n,
            m,
            blocks,
            bs,
        );
        assert forall|p: int| #[trigger] out.contains_key(p) implies 0 <= p < bs.len() && images(
            record_meaning::<K, C>(),
            out[p],
        ) == bs[p] by {
            let recs = out[p];
            assert(copied(blocks[p], recs));
            assert forall|i: int| 0 <= i < recs.len() implies #[trigger] images(
                record_meaning::<K, C>(),
                recs,
            )[i] == bs[p][i] by {
                assert(cloned(blocks[p][i].1, recs[i].1));
                assert(recs[i].0.deep_view() == blocks[p][i].0);
            }
            assert(images(record_meaning::<K, C>(), recs) =~= bs[p]);
        }
    }
    if exists|bs: Seq<Seq<(K::V, C)>>| #[trigger]
        leaves(parent, create, merge_value, merge_combiners, m, bs) {
        assert(bs.len() == n);
    }
    lemma_whole_determined(child, record_meaning::<K, C>(), bs);
    bs
}

// ---- actions

/// Collecting a dataset that is determined always gives the same.
pub proof fn lemma_determined_collect<T, A>(
    d: &Box<dyn Dataset<T>>,
    meaning: spec_fn(T) -> A,
    cs: Seq<Seq<A>>,
    parts: Seq<Seq<T>>,
)
    requires
        determined(d, meaning, cs),
        evaluates(d, parts),
    ensures
        images(meaning, concat(parts)) == concat(cs),
{
    let out = part_map(parts);
    assert forall|p: int| 0 <= p < parts.len() implies images(meaning, #[trigger] parts[p])
        == cs[p] by {
        assert(out.contains_key(p));
    }
    lemma_images_concat(meaning, parts, cs);
}

/// What taking the first `n` items of `d` may give, where `parts` are the partitions that were
/// computed as a whole.
pub open spec fn takes<T>(
    d: &Box<dyn Dataset<T>>,
    n: usize,
    parts: Seq<Seq<T>>,
    items: Seq<T>,
) -> bool {
    &&& evaluates_first(d, parts)
    &&& concat(parts).len() < n
    &&& {
        ||| parts.len() == d.parts() && items == concat(parts)
        ||| takes_last(d, parts, n, items)
    }
}

/// Taking of a dataset that is determined gives the first of its items.
pub proof fn lemma_determined_take<T, A>(
    d: &Box<dyn Dataset<T>>,
    meaning: spec_fn(T) -> A,
    cs: Seq<Seq<A>>,
    n: usize,
    parts: Seq<Seq<T>>,
    items: Seq<T>,
)
    requires
        determined(d, meaning, cs),
        takes(d, n, parts, items),
    ensures
        images(meaning, items) == first(concat(cs), n as nat),
        images(meaning, items).is_prefix_of(cs.flatten()),
        items.len() == if cs.flatten().len() < n {
            cs.flatten().len()
        } else {
            n as nat
        },
{
    lemma_concat_flattens(cs);
    lemma_first(concat(cs), n as nat);
    let k = parts.len() as int;
    let out = part_map(parts);
    let head = cs.take(k);
    assert forall|p: int| 0 <= p < parts.len() implies images(meaning, #[trigger] parts[p])
        == head[p] by {
        assert(out.contains_key(p));
    }
    lemma_images_concat(meaning, parts, head);
    assert(cs =~= head + cs.skip(k));
    lemma_concat_add(head, cs.skip(k));
    let a = concat(parts);
    assert(images(meaning, a).len() == a.len());
    if parts.len() == d.parts() && items == a {
        assert(cs =~= head);
    } else {
        let last = choose|last: Seq<T>| #[trigger]
            d.yields_some(out, k, last) && a.len() + last.len() >= n && items == first(
                a + last,
                n as nat,
            );
        let y = images(meaning, last);
        assert(starts_with(cs[k], y));
        let rest = cs.skip(k);
        let none = Seq::<Seq<A>>::empty();
        assert(rest =~= none.push(cs[k]) + rest.skip(1));
        lemma_concat_add(none.push(cs[k]), rest.skip(1));
        lemma_concat_push(none, cs[k]);
        assert(concat(rest) =~= cs[k] + concat(rest.skip(1)));
        let all = concat(cs);
        let m = a.len() + last.len();
        assert(all.take(m as int) =~= images(meaning, a) + y);
        assert(images(meaning, a + last) =~= images(meaning, a) + y);
        assert(items.len() == n);
        assert(images(meaning, items) =~= images(meaning, a + last).take(n as int));
        assert(images(meaning, items) =~= all.take(n as int));
        assert(first(all, n as nat) =~= all.take(n as int));
    }
}

/// Taking gives the first of what collecting gives, where the contents of the dataset are
/// determined.
pub proof fn lemma_take_begins_collect<T, A>(
    d: &Box<dyn Dataset<T>>,
    meaning: spec_fn(T) -> A,
    cs: Seq<Seq<A>>,
    collected: Seq<Seq<T>>,
    n: usize,
    parts: Seq<Seq<T>>,
    taken: Seq<T>,
)
    requires
        determined(d, meaning, cs),
        evaluates(d, collected),
        takes(d, n, parts, taken),
    ensures
        images(meaning, taken) == first(images(meaning, concat(collected)), n as nat),
        taken.map_values(meaning).is_prefix_of(collected.flatten().map_values(meaning)),
        taken.len() == if collected.flatten().len() < n {
            collected.flatten().len()
        } else {
            n as nat
        },
{
    lemma_determined_collect(d, meaning, cs, collected);
    lemma_determined_take(d, meaning, cs, n, parts, taken);
    lemma_concat_flattens(cs);
    lemma_concat_flattens(collected);
    assert(images(meaning, concat(collected)).len() == concat(collected).len());
    assert(taken.map_values(meaning) =~= images(meaning, taken));
    assert(collected.flatten().map_values(meaning) =~= images(meaning, concat(collected)));
}

// ---- chains

/// The transformations are those of sequences: mapping, filtering, and mapping followed by
/// flattening.
pub proof fn lemma_steps<A, B>(
    s: Seq<A>,
    f: spec_fn(A) -> B,
    pred: spec_fn(A) -> bool,
    g: spec_fn(A) -> Seq<B>,
)
    ensures
        mapped_by(f)(s) == s.map_values(f),
        filtered_by(pred)(s) == s.filter(pred),
        expanded_by(g)(s) == s.map_values(g).flatten(),
{
    lemma_concat_flattens(s.map_values(g));
}

/// A chain of transformations is made one transformation after the other, the first one first.
pub proof fn lemma_steps_through<A>(steps: Seq<Step<A>>, step: Step<A>, s: Seq<A>)
    ensures
        stepped_through(Seq::empty(), s) == s,
        stepped_through(steps.push(step), s) == match step {
            Step::Mapping(f) => stepped_through(steps, s).map_values(f),
            Step::Filtering(f) => stepped_through(steps, s).filter(f),
            Step::FlatMapping(f) => stepped_through(steps, s).map_values(f).flatten(),
        },
{
    assert(steps.push(step).drop_last() =~= steps);
    match step {
        Step::FlatMapping(f) => lemma_concat_flattens(stepped_through(steps, s).map_values(f)),
        _ => {},
    }
}

/// A transformation, as iterators have it.
#[verifier::reject_recursive_types(A)]
pub ghost enum Step<A> {
    Mapping(spec_fn(A) -> A),
    Filtering(spec_fn(A) -> bool),
    FlatMapping(spec_fn(A) -> Seq<A>),
}

/// What a transformation makes of elements.
pub open spec fn stepped<A>(step: Step<A>) -> spec_fn(Seq<A>) -> Seq<A> {
    match step {
        Step::Mapping(g) => mapped_by(g),
        Step::Filtering(g) => filtered_by(g),
        Step::FlatMapping(g) => expanded_by(g),
    }
}

/// What transformations make of elements, one after the other.
pub open spec fn stepped_through<A>(steps: Seq<Step<A>>, s: Seq<A>) -> Seq<A>
    decreases steps.len(),
{
    if steps.len() == 0 {
        s
    } else {
        stepped(steps.last())(stepped_through(steps.drop_last(), s))
    }
}

/// `child` is `parent` mapped, filtered or flat-mapped, with a closure that does as `step` says.
pub open spec fn takes_step<T, A>(
    parent: Rdd<T>,
    child: Rdd<T>,
    meaning: spec_fn(T) -> A,
    step: Step<A>,
) -> bool {
    derived(parent, child) && exists|turns: spec_fn(Seq<T>, Seq<T>) -> bool| #[trigger]
        narrows_by(parent.dataset(), child.dataset(), turns) && turns_as(
            turns,
            meaning,
            meaning,
            stepped(step),
        )
}

/// Each of `rdds` behind the first is derived from the one before it by a step of `steps`.
pub open spec fn chained<T, A>(
    rdds: Seq<Rdd<T>>,
    meaning: spec_fn(T) -> A,
    steps: Seq<Step<A>>,
) -> bool {
    &&& rdds.len() == steps.len() + 1
    &&& forall|i: int|
        #![trigger steps[i]]
        0 <= i < steps.len() ==> takes_step(rdds[i], rdds[i + 1], meaning, steps[i])
}

/// Mapping is a step of a chain.
pub proof fn lemma_map_is_step<T, F: Fn(T) -> T, A>(
    parent: Rdd<T>,
    child: Rdd<T>,
    f: F,
    meaning: spec_fn(T) -> A,
    g: spec_fn(A) -> A,
)
    requires
        derived(parent, child),
        narrows_by(parent.dataset(), child.dataset(), mapping(f)),
        maps_as(f, meaning, meaning, g),
    ensures
        takes_step(parent, child, meaning, Step::Mapping(g)),
{
    lemma_map_turns(f, meaning, meaning, g);
}

/// Filtering is a step of a chain.
pub proof fn lemma_filter_is_step<T, F: Fn(&T) -> bool, A>(
    parent: Rdd<T>,
    child: Rdd<T>,
    pred: F,
    meaning: spec_fn(T) -> A,
    g: spec_fn(A) -> bool,
)
    requires
        derived(parent, child),
        narrows_by(parent.dataset(), child.dataset(), filtering(pred)),
        judges_as(pred, meaning, g),
    ensures
        takes_step(parent, child, meaning, Step::Filtering(g)),
{
    lemma_filter_turns(pred, meaning, g);
}

/// Flat-mapping is a step of a chain.
pub proof fn lemma_flat_map_is_step<T, F: Fn(T) -> Vec<T>, A>(
    parent: Rdd<T>,
    child: Rdd<T>,
    f: F,
    meaning: spec_fn(T) -> A,
    g: spec_fn(A) -> Seq<A>,
)
    requires
        derived(parent, child),
        narrows_by(parent.dataset(), child.dataset(), flat_mapping(f)),
        expands_as(f, meaning, meaning, g),
    ensures
        takes_step(parent, child, meaning, Step::FlatMapping(g)),
{
    lemma_flat_map_turns(f, meaning, meaning, g);
}

proof fn lemma_stepped<A>(step: Step<A>)
    ensures
        piecewise(stepped(step)),
{
    match step {
        Step::Mapping(g) => lemma_mapped_by(g),
        Step::Filtering(g) => lemma_filtered_by(g),
        Step::FlatMapping(g) => lemma_expanded_by(g),
    }
}

/// A chain of transformations over a dataset that is determined is determined, however long it is,
/// and it fails no more than the dataset does.
pub proof fn lemma_chain_determined<T, A>(
    rdds: Seq<Rdd<T>>,
    meaning: spec_fn(T) -> A,
    steps: Seq<Step<A>>,
    cs: Seq<Seq<A>>,
) -> (ds: Seq<Seq<A>>)
    requires
        chained(rdds, meaning, steps),
        determined(rdds[0].dataset(), meaning, cs),
    ensures
        determined(rdds.last().dataset(), meaning, ds),
        concat(ds) == stepped_through(steps, concat(cs)),
        never_fails(rdds[0].dataset()) ==> never_fails(rdds.last().dataset()),
    decreases steps.len(),
{
    if steps.len() == 0 {
        cs
    } else {
        let k = steps.len() - 1;
        let (init, before) = (rdds.drop_last(), steps.drop_last());
        assert forall|i: int|
            #![trigger before[i]]
            0 <= i < before.len() implies takes_step(init[i], init[i + 1], meaning, before[i]) by {
            assert(before[i] == steps[i]);
        }
        let es = lemma_chain_determined(init, meaning, before, cs);
        let (parent, child) = (rdds[k], rdds[k + 1]);
        let step = steps[k];
        assert(takes_step(parent, child, meaning, step));
        assert(init.last() == parent);
        let turns = choose|turns: spec_fn(Seq<T>, Seq<T>) -> bool| #[trigger]
            narrows_by(parent.dataset(), child.dataset(), turns) && turns_as(
                turns,
                meaning,
                meaning,
                stepped(step),
            );
        lemma_stepped(step);
        lemma_narrow_determined(
            parent.dataset(),
            child.dataset(),
            turns,
            meaning,
            meaning,
            stepped(step),
            es,
        );
        turn_parts(stepped(step), es)
    }
}

/// Collecting a chain of transformations over data gives what the same chain of iterators makes of
/// the data, in however many partitions and on however many threads, and taking gives the first of
/// it. It never fails. Without a transformation it gives the data.
pub proof fn lemma_chain_of_iterators<T: Clone, A>(
    rdds: Seq<Rdd<T>>,
    meaning: spec_fn(T) -> A,
    steps: Seq<Step<A>>,
    data: Seq<T>,
    n: nat,
)
    requires
        chained(rdds, meaning, steps),
        clones_mean(meaning),
        n > 0,
        rdds[0].dataset().parts() == n,
        whole_first(rdds[0].dataset()),
        never_fails(rdds[0].dataset()),
        forall|out: Map<int, Seq<T>>| #[trigger]
            rdds[0].dataset().yields(out) <==> holds_chunks(data, n, out),
    ensures
        never_fails(rdds.last().dataset()),
        forall|parts: Seq<Seq<T>>| #[trigger]
            evaluates(rdds.last().dataset(), parts) ==> images(meaning, concat(parts))
                == stepped_through(steps, images(meaning, data)),
        forall|k: usize, parts: Seq<Seq<T>>, items: Seq<T>| #[trigger]
            takes(rdds.last().dataset(), k, parts, items) ==> images(meaning, items) == first(
                stepped_through(steps, images(meaning, data)),
                k as nat,
            ),
        forall|k: usize, parts: Seq<Seq<T>>, items: Seq<T>| #[trigger]
            takes(rdds.last().dataset(), k, parts, items) ==> {
                let all = stepped_through(steps, images(meaning, data));
                &&& items.map_values(meaning).is_prefix_of(all)
                &&& items.len() == if all.len() < k {
                    all.len()
                } else {
                    k as nat
                }
            },
        steps.len() == 0 ==> stepped_through(steps, images(meaning, data)) == images(meaning, data),
{
    let cs = lemma_parallelize_determined(rdds[0].dataset(), meaning, data, n);
    let ds = lemma_chain_determined(rdds, meaning, steps, cs);
    let d = rdds.last().dataset();
    assert forall|parts: Seq<Seq<T>>| #[trigger] evaluates(d, parts) implies images(
        meaning,
        concat(parts),
    ) == stepped_through(steps, images(meaning, data)) by {
        lemma_determined_collect(d, meaning, ds, parts);
    }
    assert forall|k: usize, parts: Seq<Seq<T>>, items: Seq<T>| #[trigger]
        takes(d, k, parts, items) implies images(meaning, items) == first(
        stepped_through(steps, images(meaning, data)),
        k as nat,
    ) by {
        lemma_determined_take(d, meaning, ds, k, parts, items);
    }
    assert forall|k: usize, parts: Seq<Seq<T>>, items: Seq<T>| #[trigger]
        takes(d, k, parts, items) implies {
        let all = stepped_through(steps, images(meaning, data));
        &&& items.map_values(meaning).is_prefix_of(all)
        &&& items.len() == if all.len() < k {
            all.len()
        } else {
            k as nat
        }
    } by {
        lemma_determined_take(d, meaning, ds, k, parts, items);
        lemma_concat_flattens(ds);
        assert(items.map_values(meaning) =~= images(meaning, items));
    }
}

} // verus!
