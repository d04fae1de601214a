//! Cutting a lineage into stages at its shuffles.
use std::collections::HashSet;
use std::sync::Arc;

use vstd::prelude::*;

use crate::ids::{Dependency, RddId, ShuffleId};
use crate::lineage::LineageNode;

verus! {

#[derive(Clone, Copy, Debug, PartialEq, Eq, Structural)]
pub enum StageKind {
    ShuffleMap { shuffle: ShuffleId },
    Result,
}

/// A set of tasks, one for each partition of a dataset.
#[derive(Clone, Copy, Debug, PartialEq, Eq, Structural)]
pub struct Stage {
    pub id: usize,
    pub rdd_id: RddId,
    pub n_partitions: usize,
    pub kind: StageKind,
}

/// The nodes that a depth-first walk from `node` reaches, parents before children and each id
/// once, leaving out the ids in `seen`; and the ids seen after the walk.
pub open spec fn visit(node: &LineageNode, seen: Set<u64>) -> (Seq<LineageNode>, Set<u64>)
    decreases node,
{
    if seen.contains(node.id.0) {
        (Seq::empty(), seen)
    } else {
        let (order, after) = visit_all(node.parents@, seen.insert(node.id.0));
        (order.push(*node), after)
    }
}

/// The nodes that walks from each of `nodes` reach, one walk after the other.
pub open spec fn visit_all(nodes: Seq<Arc<LineageNode>>, seen: Set<u64>) -> (
    Seq<LineageNode>,
    Set<u64>,
)
    decreases nodes,
{
    if nodes.len() == 0 {
        (Seq::empty(), seen)
    } else {
        let (first, between) = visit_all(nodes.drop_last(), seen);
        let (rest, after) = visit(&*nodes.last(), between);
        (first + rest, after)
    }
}

/// Some stage writes `shuffle`.
pub open spec fn writes(stages: Seq<Stage>, shuffle: ShuffleId) -> bool {
    exists|i: int|
        0 <= i < stages.len() && (#[trigger] stages[i]).kind == StageKind::ShuffleMap { shuffle }
}

/// The partitions of the first parent of `node` that has this id, or else those of `node` itself.
pub open spec fn partitions_of(node: LineageNode, parent: RddId) -> usize {
    partitions_among(node.parents@, parent, node.n_partitions)
}

pub open spec fn partitions_among(
    parents: Seq<Arc<LineageNode>>,
    parent: RddId,
    otherwise: usize,
) -> usize
    decreases parents.len(),
{
    if parents.len() == 0 {
        otherwise
    } else if parents[0].id == parent {
        parents[0].n_partitions
    } else {
        partitions_among(parents.skip(1), parent, otherwise)
    }
}

/// A lineage as far as it is cut into stages.
pub struct Cut {
    pub stages: Seq<Stage>,
    /// The shuffles that need no stage any more.
    pub written: Set<u64>,
}

/// Nothing is cut yet.
pub open spec fn uncut() -> Cut {
    Cut { stages: Seq::empty(), written: Set::empty() }
}

/// A shuffle dependency of `node` adds the stage that writes the shuffle, unless none is needed.
pub open spec fn with_dep(cut: Cut, node: LineageNode, dep: Dependency) -> Cut {
    match dep {
        Dependency::Shuffle { parent, shuffle } => if cut.written.contains(shuffle.0) {
            cut
        } else {
            Cut {
                stages: cut.stages.push(
                    Stage {
                        id: cut.stages.len() as usize,
                        rdd_id: parent,
                        n_partitions: partitions_of(node, parent),
                        kind: StageKind::ShuffleMap { shuffle },
                    },
                ),
                written: cut.written.insert(shuffle.0),
            }
        },
        Dependency::Narrow { parent } => cut,
    }
}

/// The stages after those that the dependencies of `node` add, in order.
pub open spec fn with_deps(cut: Cut, node: LineageNode, deps: Seq<Dependency>) -> Cut
    decreases deps.len(),
{
    if deps.len() == 0 {
        cut
    } else {
        with_dep(with_deps(cut, node, deps.drop_last()), node, deps.last())
    }
}

/// The stages after those that each node adds, in order.
pub open spec fn with_nodes(cut: Cut, order: Seq<LineageNode>) -> Cut
    decreases order.len(),
{
    if order.len() == 0 {
        cut
    } else {
        with_deps(with_nodes(cut, order.drop_last()), order.last(), order.last().deps@)
    }
}

/// The stages that compute `root`: one that writes each shuffle in its lineage, those that a
/// shuffle needs before it, and last the one that computes the result.
pub open spec fn stages_of(root: LineageNode) -> Seq<Stage> {
    let maps = with_nodes(uncut(), visit(&root, Set::empty()).0).stages;
    maps.push(
        Stage {
            id: maps.len() as usize,
            rdd_id: root.id,
            n_partitions: root.n_partitions,
            kind: StageKind::Result,
        },
    )
}

/// `after` has more stages behind those of `before`: each numbered by its place, for a shuffle that
/// was not written before and is written now, and each such shuffle has one.
pub open spec fn cut_further(before: Cut, after: Cut) -> bool {
    let n = before.stages.len();
    &&& n <= after.stages.len()
    &&& after.stages.take(n as int) == before.stages
    &&& before.written.subset_of(after.written)
    &&& forall|i: int|
        n <= i < after.stages.len() ==> {
            &&& (#[trigger] after.stages[i]).id == i as usize
            &&& after.stages[i].kind matches StageKind::ShuffleMap { shuffle }
            &&& after.written.contains(shuffle.0)
            &&& !before.written.contains(shuffle.0)
        }
    &&& forall|i: int, j: int|
        n <= i < j < after.stages.len() ==> (#[trigger] after.stages[i]).kind != (
        #[trigger] after.stages[j]).kind
    &&& forall|s: u64| #[trigger]
        after.written.contains(s) ==> before.written.contains(s) || writes(
            after.stages.skip(n as int),
            ShuffleId(s),
        )
}

proof fn lemma_cut_further_dep(before: Cut, cut: Cut, node: LineageNode, dep: Dependency)
    requires
        cut_further(before, cut),
    ensures
        cut_further(before, with_dep(cut, node, dep)),
{
    let n = before.stages.len() as int;
    let after = with_dep(cut, node, dep);
    if after != cut {
        let last = cut.stages.len() as int;
        assert(after.stages.take(n) =~= cut.stages.take(n));
        assert forall|i: int| n <= i < after.stages.len() implies {
            &&& (#[trigger] after.stages[i]).id == i as usize
            &&& after.stages[i].kind matches StageKind::ShuffleMap { shuffle }
            &&& after.written.contains(shuffle.0)
            &&& !before.written.contains(shuffle.0)
        } by {
            if i < last {
                assert(after.stages[i] == cut.stages[i]);
            }
        }
        assert forall|i: int, j: int| n <= i < j < after.stages.len() implies (
        #[trigger] after.stages[i]).kind != (#[trigger] after.stages[j]).kind by {
            assert(after.stages[i] == cut.stages[i]);
            if j < last {
                assert(after.stages[j] == cut.stages[j]);
            }
        }
        assert forall|s: u64| #[trigger] after.written.contains(s) implies before.written.contains(
            s,
        ) || writes(after.stages.skip(n), ShuffleId(s)) by {
            let stage = after.stages.last();
            assert(after.stages.skip(n) =~= cut.stages.skip(n).push(stage));
            lemma_writes_push(cut.stages.skip(n), stage, ShuffleId(s));
        }
    }
}

proof fn lemma_cut_further_deps(
    before: Cut,
    cut: Cut,
    node: LineageNode,
    deps: Seq<Dependency>,
)
    requires
        cut_further(before, cut),
    ensures
        cut_further(before, with_deps(cut, node, deps)),
    decreases deps.len(),
{
    if deps.len() > 0 {
        lemma_cut_further_deps(before, cut, node, deps.drop_last());
        lemma_cut_further_dep(
            before,
            with_deps(cut, node, deps.drop_last()),
            node,
            deps.last(),
        );
    }
}

/// Cutting more of a lineage only adds stages behind those that are there already: one for each
/// shuffle that it finds and that was not written before.
pub proof fn lemma_cut_further(cut: Cut, order: Seq<LineageNode>)
    ensures
        cut_further(cut, with_nodes(cut, order)),
    decreases order.len(),
{
    if order.len() == 0 {
        assert(cut.stages.take(cut.stages.len() as int) =~= cut.stages);
    } else {
        lemma_cut_further(cut, order.drop_last());
        lemma_cut_further_deps(
            cut,
            with_nodes(cut, order.drop_last()),
            order.last(),
            order.last().deps@,
        );
    }
}

proof fn lemma_with_nodes_add(cut: Cut, a: Seq<LineageNode>, b: Seq<LineageNode>)
    ensures
        with_nodes(cut, a + b) == with_nodes(with_nodes(cut, a), b),
    decreases b.len(),
{
    if b.len() == 0 {
        assert(a + b =~= a);
    } else {
        lemma_with_nodes_add(cut, a, b.drop_last());
        assert((a + b).drop_last() =~= a + b.drop_last());
    }
}

proof fn lemma_visit_next(
    cut: Cut,
    nodes: Seq<Arc<LineageNode>>,
    i: int,
    seen: Set<u64>,
)
    requires
        0 <= i < nodes.len(),
    ensures
        ({
            let (first, between) = visit_all(nodes.take(i), seen);
            let (rest, after) = visit(&*nodes[i], between);
            &&& visit_all(nodes.take(i + 1), seen).1 == after
            &&& with_nodes(cut, visit_all(nodes.take(i + 1), seen).0) == with_nodes(
                with_nodes(cut, first),
                rest,
            )
        }),
{
    let next = nodes.take(i + 1);
    assert(next.drop_last() =~= nodes.take(i));
    assert(next.last() == nodes[i]);
    let (first, between) = visit_all(nodes.take(i), seen);
    lemma_with_nodes_add(cut, first, visit(&*nodes[i], between).0);
}

proof fn lemma_writes_push(stages: Seq<Stage>, stage: Stage, shuffle: ShuffleId)
    ensures
        writes(stages.push(stage), shuffle) <==> writes(stages, shuffle) || stage.kind
            == (StageKind::ShuffleMap { shuffle }),
{
    let next = stages.push(stage);
    if writes(stages, shuffle) {
        let i = choose|i: int|
            0 <= i < stages.len() && (#[trigger] stages[i]).kind == StageKind::ShuffleMap {
                shuffle,
            };
        assert(next[i] == stages[i]);
    }
    assert(next[stages.len() as int] == stage);
    if writes(next, shuffle) {
        let i = choose|i: int|
            0 <= i < next.len() && (#[trigger] next[i]).kind == StageKind::ShuffleMap { shuffle };
        if i < stages.len() {
            assert(stages[i] == next[i]);
        }
    }
}

fn find_partitions(node: &LineageNode, parent: RddId) -> (n: usize)
    ensures
        n == partitions_of(*node, parent),
{
    let mut i: usize = 0;
    assert(node.parents@.skip(0) =~= node.parents@);
    while i < node.parents.len()
        invariant
            i <= node.parents@.len(),
            partitions_of(*node, parent) == partitions_among(
                node.parents@.skip(i as int),
                parent,
                node.n_partitions,
            ),
        decreases node.parents@.len() - i,
    {
        let p = &node.parents[i];
        if p.id == parent {
            return p.n_partitions;
        }
        assert(node.parents@.skip(i as int).skip(1) =~= node.parents@.skip(i + 1));
        i = i + 1;
    }
    node.n_partitions
}

fn walk(
    node: &LineageNode,
    stages: &mut Vec<Stage>,
    seen_shuffle: &mut HashSet<u64>,
    seen_nodes: &mut HashSet<u64>,
)
    ensures
        ({
            let before = Cut { stages: old(stages)@, written: old(seen_shuffle)@ };
            let after = Cut { stages: final(stages)@, written: final(seen_shuffle)@ };
            &&& after == with_nodes(before, visit(node, old(seen_nodes)@).0)
            &&& cut_further(before, after)
            &&& old(seen_nodes)@.contains(node.id.0) ==> after == before
        }),
        final(seen_nodes)@ == visit(node, old(seen_nodes)@).1,
        old(seen_nodes)@.subset_of(final(seen_nodes)@),
        final(seen_nodes)@.contains(node.id.0),
        old(seen_nodes)@.contains(node.id.0) ==> final(seen_nodes)@ == old(seen_nodes)@,
    decreases *node,
{
    let ghost before = Cut { stages: stages@, written: seen_shuffle@ };
    let ghost seen0 = seen_nodes@;
    proof {
        lemma_cut_further(before, visit(node, seen0).0);
        lemma_visit_seen(node, seen0);
    }
    if !seen_nodes.insert(node.id.0) {
        assert(seen0 =~= seen_nodes@);
        return;
    }
    let ghost seen1 = seen_nodes@;
    let mut i: usize = 0;
    assert(node.parents@.take(0) =~= Seq::<Arc<LineageNode>>::empty());
    while i < node.parents.len()
        invariant
            i <= node.parents@.len(),
            (Cut { stages: stages@, written: seen_shuffle@ }) == with_nodes(
                before,
                visit_all(node.parents@.take(i as int), seen1).0,
            ),
            seen_nodes@ == visit_all(node.parents@.take(i as int), seen1).1,
        decreases node.parents@.len() - i,
    {
        let parent = &node.parents[i];
        assert(decreases_to!(*node => node.parents@[i as int]));
        walk(parent, stages, seen_shuffle, seen_nodes);
        proof {
            lemma_visit_next(before, node.parents@, i as int, seen1);
        }
        i = i + 1;
    }
    let ghost order = visit_all(node.parents@, seen1).0;
    assert(node.parents@.take(node.parents@.len() as int) =~= node.parents@);
    let ghost base = Cut { stages: stages@, written: seen_shuffle@ };
    let mut d: usize = 0;
    assert(node.deps@.take(0) =~= Seq::<Dependency>::empty());
    while d < node.deps.len()
        invariant
            d <= node.deps@.len(),
            (Cut { stages: stages@, written: seen_shuffle@ }) == with_deps(
                base,
                *node,
                node.deps@.take(d as int),
            ),
        decreases node.deps@.len() - d,
    {
        proof {
            let next = node.deps@.take(d + 1);
            assert(next.drop_last() =~= node.deps@.take(d as int));
            assert(next.last() == node.deps@[d as int]);
        }
        if let Dependency::Shuffle { parent, shuffle } = node.deps[d] {
            let ghost was_seen = seen_shuffle@;
            if seen_shuffle.insert(shuffle.0) {
                let n = find_partitions(node, parent);
                let stage = Stage {
                    id: stages.len(),
                    rdd_id: parent,
                    n_partitions: n,
                    kind: StageKind::ShuffleMap { shuffle },
                };
                stages.push(stage);
            } else {
                assert(seen_shuffle@ =~= was_seen);
            }
        }
        d = d + 1;
    }
    proof {
        assert(node.deps@.take(node.deps@.len() as int) =~= node.deps@);
        assert(order.push(*node).drop_last() =~= order);
    }
}

/// Cuts the lineage of `root` into stages.
pub fn cut_stages(root: &LineageNode) -> (stages: Vec<Stage>)
    ensures
        stages@ == stages_of(*root),
{
    let mut stages: Vec<Stage> = Vec::new();
    let mut seen_shuffle: HashSet<u64> = HashSet::new();
    let mut seen_nodes: HashSet<u64> = HashSet::new();
    walk(root, &mut stages, &mut seen_shuffle, &mut seen_nodes);
    let id = stages.len();
    stages.push(
        Stage { id, rdd_id: root.id, n_partitions: root.n_partitions, kind: StageKind::Result },
    );
    stages
}

// ---- laws

/// Some node has this id.
pub open spec fn has_id(order: Seq<LineageNode>, id: u64) -> bool {
    exists|i: int| 0 <= i < order.len() && (#[trigger] order[i]).id.0 == id
}

/// The node that is shared.
spec fn at(node: Arc<LineageNode>) -> LineageNode {
    *node
}

/// `a` is among the nodes that `node` was derived from.
pub open spec fn behind(node: &LineageNode, a: LineageNode) -> bool
    decreases node,
{
    exists|k: int|
        #![trigger node.parents@[k]]
        0 <= k < node.parents@.len() && (*node.parents@[k] == a || behind(&*node.parents@[k], a))
}

/// `a` is in the lineage of `node`.
pub open spec fn belongs(node: &LineageNode, a: LineageNode) -> bool {
    a == *node || behind(node, a)
}

/// Nodes of the lineage of `node` that have the same id are the same.
pub open spec fn told_apart(node: &LineageNode) -> bool {
    forall|a: LineageNode, b: LineageNode| #[trigger]
        belongs(node, a) && #[trigger] belongs(node, b) && a.id == b.id ==> a == b
}

proof fn lemma_behind_smaller(node: &LineageNode, a: LineageNode)
    requires
        behind(node, a),
    ensures
        decreases_to!(*node => a),
    decreases node,
{
    let k = choose|k: int|
        #![trigger node.parents@[k]]
        0 <= k < node.parents@.len() && (*node.parents@[k] == a || behind(&*node.parents@[k], a));
    assert(decreases_to!(*node => node.parents@[k]));
    if at(node.parents@[k]) != a {
        lemma_behind_smaller(&*node.parents@[k], a);
    }
}

proof fn lemma_behind_parent(node: &LineageNode, a: LineageNode, k: int)
    requires
        behind(node, a) || a == *node,
        0 <= k < a.parents@.len(),
    ensures
        behind(node, *a.parents@[k]),
    decreases node,
{
    if a != *node {
        let j = choose|j: int|
            #![trigger node.parents@[j]]
            0 <= j < node.parents@.len() && (*node.parents@[j] == a || behind(
                &*node.parents@[j],
                a,
            ));
        lemma_behind_parent(&*node.parents@[j], a, k);
    }
}

/// Every parent of a node in `order` was seen before, or stands earlier in `order`.
pub open spec fn parents_first(order: Seq<LineageNode>, seen: Set<u64>) -> bool {
    forall|i: int, k: int|
        #![trigger order[i].parents@[k]]
        0 <= i < order.len() && 0 <= k < order[i].parents@.len() ==> seen.contains(
            order[i].parents@[k].id.0,
        ) || has_id(order.take(i), order[i].parents@[k].id.0)
}

/// The ids in `order` are distinct, none is in `seen`, and `after` holds those of both.
pub open spec fn newly_seen(order: Seq<LineageNode>, seen: Set<u64>, after: Set<u64>) -> bool {
    &&& forall|i: int, j: int|
        0 <= i < j < order.len() ==> (#[trigger] order[i]).id != (#[trigger] order[j]).id
    &&& forall|i: int| 0 <= i < order.len() ==> !seen.contains((#[trigger] order[i]).id.0)
    &&& forall|id: u64| #[trigger] after.contains(id) <==> seen.contains(id) || has_id(order, id)
}

proof fn lemma_has_id_add(a: Seq<LineageNode>, b: Seq<LineageNode>, id: u64)
    ensures
        has_id(a + b, id) <==> has_id(a, id) || has_id(b, id),
{
    let c = a + b;
    if has_id(a, id) {
        let i = choose|i: int| 0 <= i < a.len() && (#[trigger] a[i]).id.0 == id;
        assert(c[i].id.0 == id);
    }
    if has_id(b, id) {
        let i = choose|i: int| 0 <= i < b.len() && (#[trigger] b[i]).id.0 == id;
        assert(c[a.len() + i].id.0 == id);
    }
    if has_id(c, id) {
        let i = choose|i: int| 0 <= i < c.len() && (#[trigger] c[i]).id.0 == id;
        if i < a.len() {
            assert(a[i].id.0 == id);
        } else {
            assert(b[i - a.len()].id.0 == id);
        }
    }
}

proof fn lemma_visit_seen(node: &LineageNode, seen: Set<u64>)
    ensures
        newly_seen(visit(node, seen).0, seen, visit(node, seen).1),
        visit(node, seen).1.contains(node.id.0),
    decreases node,
{
    if !seen.contains(node.id.0) {
        let start = seen.insert(node.id.0);
        lemma_visit_all_seen(node.parents@, start);
        let (order, after) = visit_all(node.parents@, start);
        let whole = order.push(*node);
        assert forall|id: u64| #[trigger] after.contains(id) <==> seen.contains(id) || has_id(
            whole,
            id,
        ) by {
            assert(whole =~= order + seq![*node]);
            lemma_has_id_add(order, seq![*node], id);
            assert(seq![*node][0].id.0 == node.id.0);
        }
        assert forall|i: int, j: int| 0 <= i < j < whole.len() implies (#[trigger] whole[i]).id != (
        #[trigger] whole[j]).id by {
            if j == order.len() {
                assert(!start.contains(order[i].id.0));
            }
        }
        assert forall|i: int| 0 <= i < whole.len() implies !seen.contains(
            (#[trigger] whole[i]).id.0,
        ) by {
            if i < order.len() {
                assert(!start.contains(order[i].id.0));
            }
        }
        assert(has_id(whole, node.id.0)) by {
            assert(whole[order.len() as int].id.0 == node.id.0);
        }
    } else {
        let none = Seq::<LineageNode>::empty();
        assert forall|id: u64| !has_id(none, id) by {}
    }
}

proof fn lemma_visit_all_seen(nodes: Seq<Arc<LineageNode>>, seen: Set<u64>)
    ensures
        newly_seen(visit_all(nodes, seen).0, seen, visit_all(nodes, seen).1),
        forall|k: int|
            0 <= k < nodes.len() ==> visit_all(nodes, seen).1.contains((#[trigger] nodes[k]).id.0),
    decreases nodes,
{
    if nodes.len() > 0 {
        lemma_visit_all_seen(nodes.drop_last(), seen);
        let (first, between) = visit_all(nodes.drop_last(), seen);
        lemma_visit_seen(&*nodes.last(), between);
        let (rest, after) = visit(&*nodes.last(), between);
        let whole = first + rest;
        assert forall|id: u64| #[trigger] after.contains(id) <==> seen.contains(id) || has_id(
            whole,
            id,
        ) by {
            lemma_has_id_add(first, rest, id);
            assert(between.contains(id) <==> seen.contains(id) || has_id(first, id));
        }
        assert forall|i: int, j: int| 0 <= i < j < whole.len() implies (#[trigger] whole[i]).id != (
        #[trigger] whole[j]).id by {
            if i < first.len() && j >= first.len() {
                assert(has_id(first, first[i].id.0));
                assert(between.contains(first[i].id.0));
                assert(!between.contains(rest[j - first.len()].id.0));
            } else if i >= first.len() {
                assert(rest[i - first.len()].id != rest[j - first.len()].id);
            }
        }
        assert forall|i: int| 0 <= i < whole.len() implies !seen.contains(
            (#[trigger] whole[i]).id.0,
        ) by {
            if i >= first.len() {
                assert(!between.contains(rest[i - first.len()].id.0));
            }
        }
        assert forall|k: int| 0 <= k < nodes.len() implies after.contains(
            (#[trigger] nodes[k]).id.0,
        ) by {
            if k < nodes.len() - 1 {
                assert(nodes.drop_last()[k] == nodes[k]);
                assert(between.contains(nodes[k].id.0));
                lemma_has_id_add(first, rest, nodes[k].id.0);
            }
        }
    } else {
        let none = Seq::<LineageNode>::empty();
        assert forall|id: u64| !has_id(none, id) by {}
    }
}

/// The nodes in `order` belong to the lineage of `root`, but `root` itself is not among them.
spec fn all_behind(order: Seq<LineageNode>, root: &LineageNode) -> bool {
    forall|i: int| 0 <= i < order.len() ==> behind(root, #[trigger] order[i])
}

proof fn lemma_parents_first_weaken(
    order: Seq<LineageNode>,
    seen: Set<u64>,
    root: &LineageNode,
    node: LineageNode,
)
    requires
        told_apart(root),
        belongs(root, node),
        parents_first(order, seen.insert(node.id.0)),
        all_behind(order, &node),
    ensures
        parents_first(order, seen),
{
    assert forall|i: int, k: int|
        #![trigger order[i].parents@[k]]
        0 <= i < order.len() && 0 <= k < order[i].parents@.len() implies seen.contains(
        order[i].parents@[k].id.0,
    ) || has_id(order.take(i), order[i].parents@[k].id.0) by {
        let p = at(order[i].parents@[k]);
        assert(behind(&node, order[i]));
        lemma_behind_parent(&node, order[i], k);
        lemma_ids_differ(root, node, p);
    }
}

proof fn lemma_ids_differ(root: &LineageNode, node: LineageNode, a: LineageNode)
    requires
        told_apart(root),
        belongs(root, node),
        behind(&node, a),
    ensures
        a.id != node.id,
{
    lemma_behind_through(root, node, a);
    lemma_behind_smaller(&node, a);
    if a.id == node.id {
        assert(belongs(root, a) && belongs(root, node));
        assert(a == node);
        assert(decreases_to!(node => a));
    }
}

proof fn lemma_behind_through(root: &LineageNode, node: LineageNode, a: LineageNode)
    requires
        belongs(root, node),
        behind(&node, a),
    ensures
        behind(root, a),
    decreases root,
{
    if node != *root {
        let k = choose|k: int|
            #![trigger root.parents@[k]]
            0 <= k < root.parents@.len() && (*root.parents@[k] == node || behind(
                &*root.parents@[k],
                node,
            ));
        lemma_behind_through(&*root.parents@[k], node, a);
    }
}

proof fn lemma_parents_first_add(
    a: Seq<LineageNode>,
    b: Seq<LineageNode>,
    seen: Set<u64>,
    between: Set<u64>,
)
    requires
        parents_first(a, seen),
        parents_first(b, between),
        newly_seen(a, seen, between),
    ensures
        parents_first(a + b, seen),
{
    let c = a + b;
    assert forall|i: int, k: int|
        #![trigger c[i].parents@[k]]
        0 <= i < c.len() && 0 <= k < c[i].parents@.len() implies seen.contains(
        c[i].parents@[k].id.0,
    ) || has_id(c.take(i), c[i].parents@[k].id.0) by {
        let id = c[i].parents@[k].id.0;
        if i < a.len() {
            assert(c.take(i) =~= a.take(i));
            assert(c[i] == a[i]);
            assert(seen.contains(a[i].parents@[k].id.0) || has_id(a.take(i), a[i].parents@[k].id.0));
        } else {
            let j = i - a.len();
            assert(c[i] == b[j]);
            assert(c.take(i) =~= a + b.take(j));
            lemma_has_id_add(a, b.take(j), id);
            assert(between.contains(b[j].parents@[k].id.0) || has_id(
                b.take(j),
                b[j].parents@[k].id.0,
            ));
        }
    }
}

proof fn lemma_visit_parents(root: &LineageNode, node: &LineageNode, seen: Set<u64>)
    requires
        told_apart(root),
        belongs(root, *node),
    ensures
        parents_first(visit(node, seen).0, seen),
        forall|i: int|
            0 <= i < visit(node, seen).0.len() ==> (#[trigger] visit(node, seen).0[i]) == *node
                || behind(node, visit(node, seen).0[i]),
    decreases node,
{
    if !seen.contains(node.id.0) {
        let start = seen.insert(node.id.0);
        let (order, after) = visit_all(node.parents@, start);
        lemma_visit_all_seen(node.parents@, start);
        let whole = order.push(*node);
        assert forall|k: int| 0 <= k < node.parents@.len() implies behind(
            node,
            *(#[trigger] node.parents@[k]),
        ) by {}
        lemma_visit_all_parents(root, node, node.parents@, start);
        lemma_parents_first_weaken(order, seen, root, *node);
        assert forall|i: int, k: int|
            #![trigger whole[i].parents@[k]]
            0 <= i < whole.len() && 0 <= k < whole[i].parents@.len() implies seen.contains(
            whole[i].parents@[k].id.0,
        ) || has_id(whole.take(i), whole[i].parents@[k].id.0) by {
            if i < order.len() {
                assert(whole.take(i) =~= order.take(i));
                assert(whole[i] == order[i]);
                let _ = order[i].parents@[k];
            } else {
                assert(whole.take(i) =~= order);
                let p = at(node.parents@[k]);
                assert(after.contains(p.id.0));
                lemma_behind_parent(node, *node, k);
                lemma_ids_differ(root, *node, p);
            }
        }
        assert forall|i: int| 0 <= i < whole.len() implies (#[trigger] whole[i]) == *node
            || behind(node, whole[i]) by {
            if i < order.len() {
                assert(behind(node, order[i]));
            }
        }
    }
}

proof fn lemma_visit_all_parents(
    root: &LineageNode,
    node: &LineageNode,
    nodes: Seq<Arc<LineageNode>>,
    seen: Set<u64>,
)
    requires
        told_apart(root),
        belongs(root, *node),
        forall|k: int| 0 <= k < nodes.len() ==> behind(node, *(#[trigger] nodes[k])),
    ensures
        parents_first(visit_all(nodes, seen).0, seen),
        all_behind(visit_all(nodes, seen).0, node),
    decreases nodes,
{
    if nodes.len() > 0 {
        let init = nodes.drop_last();
        assert forall|k: int| 0 <= k < init.len() implies behind(node, *(#[trigger] init[k])) by {
            assert(nodes[k] == init[k]);
        }
        lemma_visit_all_parents(root, node, init, seen);
        lemma_visit_all_seen(init, seen);
        let (first, between) = visit_all(init, seen);
        let last = at(nodes[nodes.len() - 1]);
        assert(behind(node, last));
        lemma_behind_through(root, *node, last);
        lemma_visit_parents(root, &*nodes.last(), between);
        let rest = visit(&*nodes.last(), between).0;
        lemma_parents_first_add(first, rest, seen, between);
        let whole = first + rest;
        assert forall|i: int| 0 <= i < whole.len() implies behind(node, #[trigger] whole[i]) by {
            if i >= first.len() {
                let x = rest[i - first.len()];
                if x != last {
                    lemma_behind_through(node, last, x);
                }
            } else {
                assert(behind(node, first[i]));
            }
        }
    }
}

/// The walk through a lineage visits each dataset once, and every dataset after those that it was
/// derived from; the dataset itself comes last.
pub proof fn lemma_walk(root: LineageNode)
    requires
        told_apart(&root),
    ensures
        ({
            let order = visit(&root, Set::empty()).0;
            &&& order.len() > 0
            &&& order.last() == root
            &&& forall|i: int, j: int|
                0 <= i < j < order.len() ==> (#[trigger] order[i]).id != (#[trigger] order[j]).id
            &&& parents_first(order, Set::empty())
        }),
{
    lemma_visit_seen(&root, Set::empty());
    lemma_visit_parents(&root, &root, Set::empty());
}

/// Map stages: numbered from 0, each writes a shuffle, and no shuffle is written twice.
pub open spec fn map_stages(stages: Seq<Stage>) -> bool {
    &&& forall|i: int| 0 <= i < stages.len() ==> (#[trigger] stages[i]).id == i as usize
    &&& forall|i: int| 0 <= i < stages.len() ==> (#[trigger] stages[i]).kind is ShuffleMap
    &&& forall|i: int, j: int|
        0 <= i < j < stages.len() ==> (#[trigger] stages[i]).kind != (#[trigger] stages[j]).kind
}

/// The shuffles that are written are those that stages write.
spec fn told_by_stages(cut: Cut) -> bool {
    forall|s: u64| #[trigger] cut.written.contains(s) <==> writes(cut.stages, ShuffleId(s))
}

proof fn lemma_with_deps_shape(cut: Cut, node: LineageNode, deps: Seq<Dependency>)
    requires
        map_stages(cut.stages),
        told_by_stages(cut),
    ensures
        map_stages(with_deps(cut, node, deps).stages),
        told_by_stages(with_deps(cut, node, deps)),
        forall|s: ShuffleId| #[trigger]
            writes(with_deps(cut, node, deps).stages, s) <==> writes(cut.stages, s) || needs(
                deps,
                s,
            ),
    decreases deps.len(),
{
    if deps.len() > 0 {
        let cut1 = with_deps(cut, node, deps.drop_last());
        let cut2 = with_deps(cut, node, deps);
        let before = cut1.stages;
        let after = cut2.stages;
        lemma_with_deps_shape(cut, node, deps.drop_last());
        let dep = deps.last();
        assert forall|s: ShuffleId| #[trigger] needs(deps, s) <==> needs(deps.drop_last(), s)
            || shuffles(dep, s) by {
            lemma_needs_last(deps, s);
        }
        match dep {
            Dependency::Shuffle { parent, shuffle } => {
                assert(ShuffleId(shuffle.0) == shuffle);
                if !cut1.written.contains(shuffle.0) {
                    let stage = after.last();
                    assert(!writes(before, shuffle));
                    assert(after =~= before.push(stage));
                    assert forall|s: ShuffleId| #[trigger] writes(after, s) <==> writes(before, s)
                        || s == shuffle by {
                        lemma_writes_push(before, stage, s);
                    }
                    assert forall|s: u64| #[trigger] cut2.written.contains(s) <==> writes(
                        after,
                        ShuffleId(s),
                    ) by {
                        assert(cut1.written.contains(s) <==> writes(before, ShuffleId(s)));
                    }
                    assert forall|i: int, j: int| 0 <= i < j < after.len() implies (
                    #[trigger] after[i]).kind != (#[trigger] after[j]).kind by {
                        if j == before.len() {
                            assert(before[i] == after[i]);
                        } else {
                            assert(before[i] == after[i]);
                            assert(before[j] == after[j]);
                        }
                    }
                    assert forall|i: int| 0 <= i < after.len() implies (
                    #[trigger] after[i]).id == i as usize && after[i].kind is ShuffleMap by {
                        if i < before.len() {
                            assert(before[i] == after[i]);
                        }
                    }
                } else {
                    assert(writes(before, ShuffleId(shuffle.0)));
                }
            },
            Dependency::Narrow { parent } => {},
        }
    } else {
        assert forall|s: ShuffleId| !needs(deps, s) by {}
    }
}

/// A dependency goes through this shuffle.
pub open spec fn shuffles(dep: Dependency, s: ShuffleId) -> bool {
    dep matches Dependency::Shuffle { parent, shuffle } && shuffle == s
}

/// Some dependency goes through this shuffle.
pub open spec fn needs(deps: Seq<Dependency>, s: ShuffleId) -> bool {
    exists|i: int| 0 <= i < deps.len() && shuffles(#[trigger] deps[i], s)
}

proof fn lemma_needs_last(deps: Seq<Dependency>, s: ShuffleId)
    requires
        deps.len() > 0,
    ensures
        needs(deps, s) <==> needs(deps.drop_last(), s) || shuffles(deps.last(), s),
{
    let init = deps.drop_last();
    if needs(init, s) {
        let i = choose|i: int| 0 <= i < init.len() && shuffles(#[trigger] init[i], s);
        assert(shuffles(deps[i], s));
    }
    if shuffles(deps.last(), s) {
        assert(shuffles(deps[deps.len() - 1], s));
    }
    if needs(deps, s) {
        let i = choose|i: int| 0 <= i < deps.len() && shuffles(#[trigger] deps[i], s);
        if i < init.len() {
            assert(shuffles(init[i], s));
        }
    }
}

/// Some dataset in `order` depends on another through this shuffle.
pub open spec fn some_needs(order: Seq<LineageNode>, s: ShuffleId) -> bool {
    exists|i: int| 0 <= i < order.len() && needs((#[trigger] order[i]).deps@, s)
}

proof fn lemma_with_nodes_shape(order: Seq<LineageNode>)
    ensures
        map_stages(with_nodes(uncut(), order).stages),
        told_by_stages(with_nodes(uncut(), order)),
        forall|s: ShuffleId| #[trigger]
            writes(with_nodes(uncut(), order).stages, s) <==> some_needs(order, s),
    decreases order.len(),
{
    if order.len() > 0 {
        let init = order.drop_last();
        lemma_with_nodes_shape(init);
        lemma_with_deps_shape(with_nodes(uncut(), init), order.last(), order.last().deps@);
        assert forall|s: ShuffleId| #[trigger] some_needs(order, s) <==> some_needs(init, s)
            || needs(order.last().deps@, s) by {
            if some_needs(init, s) {
                let i = choose|i: int| 0 <= i < init.len() && needs((#[trigger] init[i]).deps@, s);
                assert(needs(order[i].deps@, s));
            }
            if needs(order.last().deps@, s) {
                assert(needs(order[order.len() - 1].deps@, s));
            }
            if some_needs(order, s) {
                let i = choose|i: int|
                    0 <= i < order.len() && needs((#[trigger] order[i]).deps@, s);
                if i < init.len() {
                    assert(needs(init[i].deps@, s));
                }
            }
        }
    } else {
        let none = Seq::<Stage>::empty();
        assert forall|s: ShuffleId| !writes(none, s) by {}
        assert forall|s: ShuffleId| !some_needs(order, s) by {}
    }
}

/// The stages of a dataset: first one for each shuffle in its lineage, numbered from 0, and then
/// the one that computes the result. Each shuffle that the lineage goes through is written by
/// exactly one stage, and no other is.
pub proof fn lemma_stages(root: LineageNode)
    ensures
        ({
            let stages = stages_of(root);
            let maps = stages.drop_last();
            &&& stages.len() > 0
            &&& stages.last().kind is Result
            &&& stages.last().rdd_id == root.id
            &&& stages.last().n_partitions == root.n_partitions
            &&& forall|i: int| 0 <= i < stages.len() ==> (#[trigger] stages[i]).id == i as usize
            &&& map_stages(maps)
            &&& forall|s: ShuffleId| #[trigger]
                writes(maps, s) <==> some_needs(visit(&root, Set::empty()).0, s)
        }),
{
    let order = visit(&root, Set::empty()).0;
    lemma_with_nodes_shape(order);
    let maps = with_nodes(uncut(), order).stages;
    let stages = stages_of(root);
    assert(stages.drop_last() =~= maps);
    assert forall|i: int| 0 <= i < stages.len() implies (#[trigger] stages[i]).id == i as usize by {
        if i < maps.len() {
            assert(maps[i] == stages[i]);
        }
    }
}

/// Stages come in the order of the datasets that need them: cutting more of a lineage only adds
/// stages behind those that are already there.
pub proof fn lemma_stages_in_order(a: Seq<LineageNode>, b: Seq<LineageNode>)
    ensures
        cut_further(with_nodes(uncut(), a), with_nodes(uncut(), a + b)),
{
    lemma_with_nodes_add(uncut(), a, b);
    lemma_cut_further(with_nodes(uncut(), a), b);
}

/// The stage writes the shuffle of a dependency of `node`: it computes the dataset that the
/// dependency names, one task for each of that dataset's partitions.
spec fn made_for(stage: Stage, node: LineageNode, dep: Dependency) -> bool {
    &&& stage.kind matches StageKind::ShuffleMap { shuffle } && dep == (Dependency::Shuffle {
        parent: stage.rdd_id,
        shuffle,
    })
    &&& stage.n_partitions == partitions_of(node, stage.rdd_id)
}

/// Some dependency of a node in `order` made the stage necessary.
spec fn has_reason(stage: Stage, order: Seq<LineageNode>) -> bool {
    exists|i: int, d: int|
        #![trigger order[i].deps@[d]]
        0 <= i < order.len() && 0 <= d < order[i].deps@.len() && made_for(
            stage,
            order[i],
            order[i].deps@[d],
        )
}

proof fn lemma_with_deps_reason(cut: Cut, order: Seq<LineageNode>, d: int)
    requires
        order.len() > 0,
        0 <= d <= order.last().deps@.len(),
        forall|j: int|
            0 <= j < cut.stages.len() ==> has_reason(#[trigger] cut.stages[j], order),
    ensures
        ({
            let after = with_deps(cut, order.last(), order.last().deps@.take(d)).stages;
            forall|j: int| 0 <= j < after.len() ==> has_reason(#[trigger] after[j], order)
        }),
    decreases d,
{
    let node = order.last();
    let deps = node.deps@;
    if d > 0 {
        lemma_with_deps_reason(cut, order, d - 1);
        assert(deps.take(d).drop_last() =~= deps.take(d - 1));
        let before = with_deps(cut, node, deps.take(d - 1)).stages;
        let after = with_deps(cut, node, deps.take(d)).stages;
        assert forall|j: int| 0 <= j < after.len() implies has_reason(
            #[trigger] after[j],
            order,
        ) by {
            if j < before.len() {
                assert(after[j] == before[j]);
            } else {
                assert(order[order.len() - 1].deps@[d - 1] == deps.take(d).last());
                assert(made_for(after[j], order[order.len() - 1], deps[d - 1]));
            }
        }
    }
}

proof fn lemma_with_nodes_reason(order: Seq<LineageNode>)
    ensures
        ({
            let stages = with_nodes(uncut(), order).stages;
            forall|j: int| 0 <= j < stages.len() ==> has_reason(#[trigger] stages[j], order)
        }),
    decreases order.len(),
{
    if order.len() > 0 {
        let init = order.drop_last();
        lemma_with_nodes_reason(init);
        let cut = with_nodes(uncut(), init);
        assert forall|j: int| 0 <= j < cut.stages.len() implies has_reason(
            #[trigger] cut.stages[j],
            order,
        ) by {
            assert(has_reason(cut.stages[j], init));
            let (i, d) = choose|i: int, d: int|
                #![trigger init[i].deps@[d]]
                0 <= i < init.len() && 0 <= d < init[i].deps@.len() && made_for(
                    cut.stages[j],
                    init[i],
                    init[i].deps@[d],
                );
            assert(order[i].deps@[d] == init[i].deps@[d]);
        }
        let deps = order.last().deps@;
        lemma_with_deps_reason(cut, order, deps.len() as int);
        assert(deps.take(deps.len() as int) =~= deps);
    }
}

proof fn lemma_partitions_among(
    parents: Seq<Arc<LineageNode>>,
    parent: RddId,
    otherwise: usize,
)
    ensures
        ({
            let n = partitions_among(parents, parent, otherwise);
            ||| n == otherwise && forall|k: int|
                0 <= k < parents.len() ==> (#[trigger] parents[k]).id != parent
            ||| exists|k: int|
                #![trigger parents[k]]
                0 <= k < parents.len() && parents[k].id == parent && parents[k].n_partitions == n
                    && forall|j: int| 0 <= j < k ==> (#[trigger] parents[j]).id != parent
        }),
    decreases parents.len(),
{
    if parents.len() > 0 && parents[0].id != parent {
        let rest = parents.skip(1);
        let n = partitions_among(rest, parent, otherwise);
        lemma_partitions_among(rest, parent, otherwise);
        if exists|k: int|
            #![trigger rest[k]]
            0 <= k < rest.len() && rest[k].id == parent && rest[k].n_partitions == n && forall|
                j: int,
            |
                0 <= j < k ==> (#[trigger] rest[j]).id != parent {
            let k = choose|k: int|
                #![trigger rest[k]]
                0 <= k < rest.len() && rest[k].id == parent && rest[k].n_partitions == n
                    && forall|j: int| 0 <= j < k ==> (#[trigger] rest[j]).id != parent;
            assert(parents[k + 1] == rest[k]);
            assert forall|j: int| 0 <= j < k + 1 implies (#[trigger] parents[j]).id != parent by {
                if j > 0 {
                    assert(rest[j - 1] == parents[j]);
                }
            }
        } else {
            assert forall|j: int| 0 <= j < parents.len() implies (#[trigger] parents[j]).id
                != parent by {
                if j > 0 {
                    assert(rest[j - 1] == parents[j]);
                }
            }
        }
    }
}

proof fn lemma_visit_belongs(node: &LineageNode, seen: Set<u64>)
    ensures
        forall|i: int|
            0 <= i < visit(node, seen).0.len() ==> belongs(node, #[trigger] visit(node, seen).0[i]),
    decreases node,
{
    if !seen.contains(node.id.0) {
        let order = visit_all(node.parents@, seen.insert(node.id.0)).0;
        assert forall|k: int| 0 <= k < node.parents@.len() implies behind(
            node,
            *(#[trigger] node.parents@[k]),
        ) by {}
        lemma_visit_all_belongs(node, node.parents@, seen.insert(node.id.0));
        assert forall|i: int| 0 <= i < order.len() + 1 implies belongs(
            node,
            #[trigger] order.push(*node)[i],
        ) by {
            if i < order.len() {
                assert(behind(node, order[i]));
            }
        }
    }
}

proof fn lemma_visit_all_belongs(
    node: &LineageNode,
    nodes: Seq<Arc<LineageNode>>,
    seen: Set<u64>,
)
    requires
        forall|k: int| 0 <= k < nodes.len() ==> behind(node, *(#[trigger] nodes[k])),
    ensures
        all_behind(visit_all(nodes, seen).0, node),
    decreases nodes,
{
    if nodes.len() > 0 {
        let init = nodes.drop_last();
        assert forall|k: int| 0 <= k < init.len() implies behind(node, *(#[trigger] init[k])) by {
            assert(nodes[k] == init[k]);
        }
        lemma_visit_all_belongs(node, init, seen);
        let (first, between) = visit_all(init, seen);
        let last = at(nodes[nodes.len() - 1]);
        assert(behind(node, last));
        lemma_visit_belongs(&*nodes.last(), between);
        let rest = visit(&*nodes.last(), between).0;
        let whole = first + rest;
        assert forall|i: int| 0 <= i < whole.len() implies behind(node, #[trigger] whole[i]) by {
            if i >= first.len() {
                let x = rest[i - first.len()];
                if x != last {
                    lemma_behind_through(node, last, x);
                }
            } else {
                assert(behind(node, first[i]));
            }
        }
    }
}

/// Every stage but the last is there for a shuffle: some dataset in the lineage depends, through
/// that shuffle, on the dataset that the stage computes. The stage has a task for each partition of
/// it, as the first parent with that id tells; where no parent has the id, as many as the dataset
/// that reads the shuffle.
pub proof fn lemma_stage_reason(root: LineageNode, j: int) -> (r: (LineageNode, int))
    requires
        0 <= j < stages_of(root).len() - 1,
    ensures
        ({
            let stage = stages_of(root)[j];
            let (a, d) = r;
            &&& belongs(&root, a)
            &&& 0 <= d < a.deps@.len()
            &&& stage.kind matches StageKind::ShuffleMap { shuffle } && a.deps@[d] == (
            Dependency::Shuffle { parent: stage.rdd_id, shuffle })
            &&& forall|k: int|
                #![trigger a.parents@[k]]
                0 <= k < a.parents@.len() && a.parents@[k].id == stage.rdd_id && (forall|i: int|
                    0 <= i < k ==> (#[trigger] a.parents@[i]).id != stage.rdd_id)
                    ==> stage.n_partitions == a.parents@[k].n_partitions
            &&& (forall|k: int|
                0 <= k < a.parents@.len() ==> (#[trigger] a.parents@[k]).id != stage.rdd_id)
                ==> stage.n_partitions == a.n_partitions
        }),
{
    let order = visit(&root, Set::empty()).0;
    let maps = with_nodes(uncut(), order).stages;
    let stage = stages_of(root)[j];
    assert(stage == maps[j]);
    lemma_with_nodes_reason(order);
    let (i, d) = choose|i: int, d: int|
        #![trigger order[i].deps@[d]]
        0 <= i < order.len() && 0 <= d < order[i].deps@.len() && made_for(
            maps[j],
            order[i],
            order[i].deps@[d],
        );
    lemma_visit_belongs(&root, Set::empty());
    let a = order[i];
    lemma_partitions_among(a.parents@, stage.rdd_id, a.n_partitions);
    (a, d)
}

/// The place in the walk of a dataset that `order[i]` was derived from: before it.
proof fn lemma_visited_before(root: LineageNode, i: int, a: LineageNode) -> (j: int)
    requires
        told_apart(&root),
        0 <= i < visit(&root, Set::empty()).0.len(),
        behind(&visit(&root, Set::empty()).0[i], a),
    ensures
        0 <= j < i,
        visit(&root, Set::empty()).0[j] == a,
    decreases visit(&root, Set::empty()).0[i],
{
    let order = visit(&root, Set::empty()).0;
    let node = order[i];
    let k = choose|k: int|
        #![trigger node.parents@[k]]
        0 <= k < node.parents@.len() && (*node.parents@[k] == a || behind(&*node.parents@[k], a));
    let p = at(node.parents@[k]);
    lemma_walk(root);
    assert(parents_first(order, Set::empty()));
    assert(has_id(order.take(i), order[i].parents@[k].id.0));
    let j = choose|j: int|
        0 <= j < order.take(i).len() && (#[trigger] order.take(i)[j]).id.0
            == order[i].parents@[k].id.0;
    assert(order.take(i)[j] == order[j]);
    lemma_visit_belongs(&root, Set::empty());
    assert(belongs(&root, order[i]));
    assert(belongs(&root, order[j]));
    assert(behind(&node, p));
    lemma_behind_through(&root, node, p);
    assert(belongs(&root, p));
    assert(order[j].id == p.id);
    assert(order[j] == p);
    if p == a {
        j
    } else {
        assert(decreases_to!(node => node.parents@[k]));
        lemma_visited_before(root, j, a)
    }
}

proof fn lemma_visited(root: LineageNode, a: LineageNode) -> (j: int)
    requires
        told_apart(&root),
        belongs(&root, a),
    ensures
        0 <= j < visit(&root, Set::empty()).0.len(),
        visit(&root, Set::empty()).0[j] == a,
{
    let order = visit(&root, Set::empty()).0;
    lemma_walk(root);
    let last = order.len() - 1;
    assert(order[last] == root);
    if a == root {
        last
    } else {
        lemma_visited_before(root, last, a)
    }
}

/// Only one dependency in the lineage of `node` goes through the shuffle: the `d`-th of `a`.
pub open spec fn only_reader(node: &LineageNode, a: LineageNode, d: int, s: ShuffleId) -> bool {
    forall|b: LineageNode, e: int|
        #![trigger belongs(node, b), b.deps@[e]]
        belongs(node, b) && 0 <= e < b.deps@.len() && shuffles(b.deps@[e], s) ==> b == a && e == d
}

/// A shuffle that a dataset in the lineage reads is written by one stage and by no other. That stage
/// computes the dataset before the shuffle, in as many tasks as that dataset has partitions.
pub proof fn lemma_shuffle_stage(
    root: LineageNode,
    a: LineageNode,
    d: int,
    parent: RddId,
    shuffle: ShuffleId,
) -> (i: int)
    requires
        told_apart(&root),
        belongs(&root, a),
        0 <= d < a.deps@.len(),
        a.deps@[d] == (Dependency::Shuffle { parent, shuffle }),
        only_reader(&root, a, d, shuffle),
    ensures
        0 <= i < stages_of(root).len() - 1,
        stages_of(root)[i].kind == (StageKind::ShuffleMap { shuffle }),
        stages_of(root)[i].id == i as usize,
        stages_of(root)[i].rdd_id == parent,
        forall|k: int|
            0 <= k < a.parents@.len() && (#[trigger] a.parents@[k]).id == parent
                ==> stages_of(root)[i].n_partitions == a.parents@[k].n_partitions,
        forall|j: int|
            0 <= j < stages_of(root).len() && j != i ==> (#[trigger] stages_of(root)[j]).kind != (
            StageKind::ShuffleMap { shuffle }),
{
    let order = visit(&root, Set::empty()).0;
    let stages = stages_of(root);
    let maps = stages.drop_last();
    lemma_stages(root);
    let at_a = lemma_visited(root, a);
    assert(shuffles(order[at_a].deps@[d], shuffle));
    assert(needs(order[at_a].deps@, shuffle));
    assert(some_needs(order, shuffle));
    assert(writes(maps, shuffle));
    let i = choose|i: int|
        0 <= i < maps.len() && (#[trigger] maps[i]).kind == StageKind::ShuffleMap { shuffle };
    assert(stages[i] == maps[i]);
    let (b, e) = lemma_stage_reason(root, i);
    assert(belongs(&root, b) && shuffles(b.deps@[e], shuffle));
    assert(b == a && e == d);
    assert forall|k: int|
        0 <= k < a.parents@.len() && (#[trigger] a.parents@[k]).id == parent implies stages[i].n_partitions
        == a.parents@[k].n_partitions by {
        let m = lemma_first_parent(a, parent, k);
        lemma_behind_parent(&root, a, k);
        lemma_behind_parent(&root, a, m);
        let (x, y) = (at(a.parents@[k]), at(a.parents@[m]));
        assert(belongs(&root, x) && belongs(&root, y));
        assert(x == y);
        assert(stages[i].n_partitions == a.parents@[m].n_partitions);
    }
    assert forall|j: int| 0 <= j < stages.len() && j != i implies (#[trigger] stages[j]).kind != (
    StageKind::ShuffleMap { shuffle }) by {
        if j < maps.len() {
            assert(maps[j] == stages[j]);
        }
    }
    i
}

proof fn lemma_first_parent(a: LineageNode, parent: RddId, k: int) -> (m: int)
    requires
        0 <= k < a.parents@.len(),
        a.parents@[k].id == parent,
    ensures
        0 <= m <= k,
        a.parents@[m].id == parent,
        forall|i: int| 0 <= i < m ==> (#[trigger] a.parents@[i]).id != parent,
    decreases k,
{
    if exists|i: int| 0 <= i < k && (#[trigger] a.parents@[i]).id == parent {
        let i = choose|i: int| 0 <= i < k && (#[trigger] a.parents@[i]).id == parent;
        lemma_first_parent(a, parent, i)
    } else {
        k
    }
}

proof fn lemma_with_nodes_prefix(order: Seq<LineageNode>, n: int)
    requires
        0 <= n <= order.len(),
    ensures
        ({
            let before = with_nodes(uncut(), order.take(n)).stages;
            let after = with_nodes(uncut(), order).stages;
            &&& before.len() <= after.len()
            &&& after.take(before.len() as int) == before
        }),
{
    assert(order.take(n) + order.skip(n) =~= order);
    lemma_stages_in_order(order.take(n), order.skip(n));
}

/// A shuffle is written after those that its dataset was derived from: where `a` reads one shuffle,
/// and `b`, derived from `a`, reads another, the stage of the first comes before that of the second.
pub proof fn lemma_stage_order(
    root: LineageNode,
    a: LineageNode,
    d: int,
    b: LineageNode,
    e: int,
    first: ShuffleId,
    second: ShuffleId,
    i: int,
    j: int,
)
    requires
        told_apart(&root),
        belongs(&root, b),
        behind(&b, a),
        0 <= d < a.deps@.len(),
        shuffles(a.deps@[d], first),
        0 <= e < b.deps@.len(),
        shuffles(b.deps@[e], second),
        only_reader(&root, a, d, first),
        only_reader(&root, b, e, second),
        0 <= i < stages_of(root).len(),
        stages_of(root)[i].kind == (StageKind::ShuffleMap { shuffle: first }),
        0 <= j < stages_of(root).len(),
        stages_of(root)[j].kind == (StageKind::ShuffleMap { shuffle: second }),
    ensures
        i < j,
{
    let order = visit(&root, Set::empty()).0;
    let stages = stages_of(root);
    let maps = with_nodes(uncut(), order).stages;
    assert(stages.drop_last() =~= maps);
    lemma_stages(root);
    let at_b = lemma_visited(root, b);
    let at_a = lemma_visited_before(root, at_b, a);
    let part = order.take(at_b);
    let early = with_nodes(uncut(), part).stages;
    lemma_with_nodes_prefix(order, at_b);
    lemma_with_nodes_shape(part);
    assert(part[at_a] == a);
    assert(needs(part[at_a].deps@, first));
    assert(some_needs(part, first));
    assert(writes(early, first));
    let m = choose|m: int|
        0 <= m < early.len() && (#[trigger] early[m]).kind == StageKind::ShuffleMap {
            shuffle: first,
        };
    assert(early[m] == maps[m]);
    assert(maps[m] == stages[m]);
    assert(maps[i] == stages[i]);
    assert(i == m);
    if j < early.len() {
        assert(early[j] == maps[j] && maps[j] == stages[j]);
        assert(writes(early, second));
        assert(some_needs(part, second));
        let x = choose|x: int| 0 <= x < part.len() && needs((#[trigger] part[x]).deps@, second);
        let y = choose|y: int|
            0 <= y < part[x].deps@.len() && shuffles(#[trigger] part[x].deps@[y], second);
        assert(part[x] == order[x]);
        lemma_visit_belongs(&root, Set::empty());
        assert(belongs(&root, order[x]));
        assert(order[x].deps@[y] == part[x].deps@[y]);
        assert(order[x] == b);
        lemma_walk(root);
        assert(order[x].id != order[at_b].id);
    }
}

} // verus!
