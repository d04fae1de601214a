//! Sequences of sequences.
use vstd::prelude::*;

verus! {

/// The elements of all parts, part after part.
pub open spec fn concat<A>(parts: Seq<Seq<A>>) -> Seq<A>
    decreases parts.len(),
{
    if parts.len() == 0 {
        Seq::empty()
    } else {
        concat(parts.drop_last()) + parts.last()
    }
}

/// The contents of a vector of vectors.
pub open spec fn rows<A>(v: Seq<Vec<A>>) -> Seq<Seq<A>> {
    Seq::new(v.len(), |i: int| v[i]@)
}

/// Appending a part appends its elements.
pub proof fn lemma_concat_push<A>(parts: Seq<Seq<A>>, part: Seq<A>)
    ensures
        concat(parts.push(part)) == concat(parts) + part,
{
    assert(parts.push(part).drop_last() =~= parts);
}

/// Joining two sequences of parts joins their elements.
pub proof fn lemma_concat_add<A>(a: Seq<Seq<A>>, b: Seq<Seq<A>>)
    ensures
        concat(a + b) == concat(a) + concat(b),
    decreases b.len(),
{
    if b.len() == 0 {
        assert(a + b =~= a);
        assert(concat(a) + concat(b) =~= concat(a));
    } else {
        lemma_concat_add(a, b.drop_last());
        assert((a + b).drop_last() =~= a + b.drop_last());
        assert(concat(a + b) =~= concat(a) + concat(b));
    }
}

/// The elements of all parts are those of the first and then those of the others.
pub proof fn lemma_concat_first<A>(parts: Seq<Seq<A>>)
    requires
        parts.len() > 0,
    ensures
        concat(parts) == parts[0] + concat(parts.skip(1)),
{
    let none = Seq::<Seq<A>>::empty();
    assert(parts =~= none.push(parts[0]) + parts.skip(1));
    lemma_concat_add(none.push(parts[0]), parts.skip(1));
    lemma_concat_push(none, parts[0]);
    assert(concat(none.push(parts[0])) =~= parts[0]);
}

/// An element of all parts is an element of one of them.
pub proof fn lemma_concat_contains<A>(parts: Seq<Seq<A>>, x: A)
    ensures
        concat(parts).contains(x) <==> exists|p: int|
            0 <= p < parts.len() && (#[trigger] parts[p]).contains(x),
    decreases parts.len(),
{
    if parts.len() > 0 {
        let init = parts.drop_last();
        let (a, b) = (concat(init), parts.last());
        lemma_concat_contains(init, x);
        if concat(parts).contains(x) {
            let i = choose|i: int| 0 <= i < concat(parts).len() && concat(parts)[i] == x;
            if i < a.len() {
                assert(a[i] == x);
                let p = choose|p: int| 0 <= p < init.len() && (#[trigger] init[p]).contains(x);
                assert(parts[p].contains(x));
            } else {
                assert(b[i - a.len()] == x);
                assert(parts[parts.len() - 1].contains(x));
            }
        }
        if exists|p: int| 0 <= p < parts.len() && (#[trigger] parts[p]).contains(x) {
            let p = choose|p: int| 0 <= p < parts.len() && (#[trigger] parts[p]).contains(x);
            if p < init.len() {
                assert(init[p].contains(x));
                let i = choose|i: int| 0 <= i < a.len() && a[i] == x;
                assert(concat(parts)[i] == x);
            } else {
                let i = choose|i: int| 0 <= i < b.len() && b[i] == x;
                assert(concat(parts)[a.len() + i] == x);
            }
        }
    }
}

/// Sequences without duplicates that hold the same elements differ at most in their order.
pub proof fn lemma_same_elements<A>(a: Seq<A>, b: Seq<A>)
    requires
        a.no_duplicates(),
        b.no_duplicates(),
        forall|x: A| a.contains(x) <==> #[trigger] b.contains(x),
    ensures
        a.to_multiset() == b.to_multiset(),
{
    broadcast use vstd::seq_lib::group_to_multiset_ensures;

    a.lemma_multiset_has_no_duplicates();
    b.lemma_multiset_has_no_duplicates();
    assert forall|x: A| a.to_multiset().count(x) == b.to_multiset().count(x) by {
        assert(a.contains(x) <==> b.contains(x));
        assert(a.to_multiset().contains(x) <==> a.contains(x));
        assert(b.to_multiset().contains(x) <==> b.contains(x));
    }
    assert(a.to_multiset() =~= b.to_multiset());
}

/// The elements of all parts are the parts flattened.
pub proof fn lemma_concat_flattens<A>(parts: Seq<Seq<A>>)
    ensures
        concat(parts) == parts.flatten(),
    decreases parts.len(),
{
    parts.lemma_flatten_and_flatten_alt_are_equivalent();
    if parts.len() > 0 {
        lemma_concat_flattens(parts.drop_last());
        parts.drop_last().lemma_flatten_and_flatten_alt_are_equivalent();
    } else {
        assert(concat(parts) =~= parts.flatten_alt());
    }
}

/// The contents of a vector of vectors are the contents of each.
pub proof fn lemma_rows<A>(v: Seq<Vec<A>>)
    ensures
        rows(v).len() == v.len(),
        forall|i: int| 0 <= i < v.len() ==> #[trigger] rows(v)[i] == v[i]@,
{
}

} // verus!
