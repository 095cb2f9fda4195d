//! Finalization: the shape that the nodes amount to.
use crate::analyze::arena;
use crate::analyze::arena::{ArrayAcc, ArrayView, Node, NodeId, NodeView, ObjectAcc};
use crate::analyze::decide;
use crate::analyze::decide::{ArrayDecision, ObjectDecision};
use crate::analyze::engine;
use crate::analyze::machine::State;
use crate::analyze::shape;
use crate::analyze::sig::{ScalarKind, Sig, SigView};
use crate::node;
use crate::node::{KindView, ShapeField, ShapeFieldView, ShapeKind, ShapeNode, ShapeView};
use crate::sketch;
use crate::stats;
use crate::stats::{Stats, StatsView};
use vstd::prelude::*;

verus! {

// ---------------------------------------------------------------------
// The model
// ---------------------------------------------------------------------

pub open spec fn node_stats(n: NodeView) -> StatsView {
    stats::plain_stats(n.obs, n.first_doc, n.last_doc)
}

/// The shapes of the scalar kinds that were seen, among the first `k`.
pub open spec fn scalar_shapes(n: NodeView, k: int) -> Seq<ShapeView>
    decreases k,
{
    if k <= 0 {
        Seq::empty()
    } else if n.scalar_arms[k - 1] == 0 {
        scalar_shapes(n, k - 1)
    } else {
        scalar_shapes(n, k - 1).push(
            ShapeView {
                kind: KindView::Type(shape::kind_type(ScalarKind::nth(k - 1))),
                stats: stats::plain_stats(n.scalar_arms[k - 1], n.first_doc, n.last_doc),
            },
        )
    }
}

pub open spec fn absent(stats: StatsView) -> ShapeView {
    ShapeView { kind: KindView::Absent, stats }
}

/// One arm is the shape; more are a variant; none is an absence.
pub open spec fn one_of(arms: Seq<ShapeView>, stats: StatsView) -> ShapeView {
    if arms.len() == 0 {
        absent(stats)
    } else if arms.len() == 1 {
        arms[0]
    } else {
        ShapeView { kind: KindView::Variant { arms }, stats }
    }
}

/// The first of the nodes with the most observations, among the first `k`.
pub open spec fn busiest(arena: Seq<NodeView>, ids: Seq<int>, k: int) -> int
    decreases k,
{
    if k <= 1 {
        0
    } else {
        let m = busiest(arena, ids, k - 1);
        if arena[ids[k - 1]].obs > arena[ids[m]].obs {
            k - 1
        } else {
            m
        }
    }
}

/// The signatures that tell of a value.
pub open spec fn telling(entries: Seq<(SigView, u64)>) -> Seq<(SigView, u64)>
    decreases entries.len(),
{
    if entries.len() == 0 {
        entries
    } else if entries.last().0 is Empty {
        telling(entries.drop_last())
    } else {
        telling(entries.drop_last()).push(entries.last())
    }
}

pub open spec fn entry_shapes(entries: Seq<(SigView, u64)>) -> Seq<ShapeView>
    decreases entries.len(),
{
    if entries.len() == 0 {
        Seq::empty()
    } else {
        entry_shapes(entries.drop_last()).push(
            shape::shape_of_sig(entries.last().0, entries.last().1),
        )
    }
}

/// The clusters of an array, highest count first.
pub open spec fn clusters(a: ArrayView) -> Seq<(SigView, u64)> {
    telling(sketch::by_count(a.element_cluster.entries))
}

pub open spec fn child_ids(fields: Seq<(Seq<char>, int)>) -> Seq<int> {
    fields.map_values(|f: (Seq<char>, int)| f.1)
}

/// The shape at a child of node `id`.
pub open spec fn child_shape(arena: Seq<NodeView>, id: int, child: int) -> ShapeView
    decreases arena.len() - id, 0int, 0int,
{
    if id < child < arena.len() {
        shape_at(arena, child)
    } else {
        absent(stats::plain_stats(0, 0, 0))
    }
}

/// The shape at the busiest of the children.
pub open spec fn busiest_shape(arena: Seq<NodeView>, id: int, ids: Seq<int>) -> ShapeView
    decreases arena.len() - id, 1int, 0int,
{
    if ids.len() == 0 {
        absent(stats::plain_stats(0, 0, 0))
    } else {
        child_shape(arena, id, ids[busiest(arena, ids, ids.len() as int)])
    }
}

/// The first `k` fields of the object at a node. A field is nullable where
/// not every object had it, or where a null was seen.
pub open spec fn field_shapes(arena: Seq<NodeView>, id: int, k: int) -> Seq<ShapeFieldView>
    decreases arena.len() - id, 1int, k,
{
    if k <= 0 {
        Seq::empty()
    } else {
        let o = arena[id].object->Some_0;
        let (name, child) = o.fields[k - 1];
        let s = child_shape(arena, id, child);
        field_shapes(arena, id, k - 1).push(
            ShapeFieldView {
                name,
                shape: s,
                nullable: arena[child].obs < o.obs || shape::nullish(s),
            },
        )
    }
}

pub open spec fn position_shapes(arena: Seq<NodeView>, id: int, k: int) -> Seq<ShapeView>
    decreases arena.len() - id, 1int, k,
{
    if k <= 0 {
        Seq::empty()
    } else {
        let a = arena[id].array->Some_0;
        position_shapes(arena, id, k - 1).push(child_shape(arena, id, a.positional[k - 1]))
    }
}

/// The shape of the values of a map: that of the values beyond the record
/// view where there are any, and of the busiest field where there are none.
pub open spec fn value_shape(arena: Seq<NodeView>, id: int) -> ShapeView
    decreases arena.len() - id, 2int, 0int,
{
    let o = arena[id].object->Some_0;
    let direct = child_shape(arena, id, o.map_value);
    if direct.kind is Absent {
        busiest_shape(arena, id, child_ids(o.fields))
    } else {
        direct
    }
}

/// The shape of the elements of a bag: that of the clusters where there are
/// any, of the elements beyond the positional view, or of the busiest
/// position.
pub open spec fn element_shape(arena: Seq<NodeView>, id: int) -> ShapeView
    decreases arena.len() - id, 2int, 0int,
{
    let a = arena[id].array->Some_0;
    let entries = clusters(a);
    if entries.len() > 0 {
        one_of(
            entry_shapes(entries),
            stats::plain_stats(sketch::total(entries) as u64, 0, 0),
        )
    } else {
        let direct = child_shape(arena, id, a.bag_value);
        if direct.kind is Absent {
            busiest_shape(arena, id, a.positional)
        } else {
            direct
        }
    }
}

pub open spec fn object_shape(arena: Seq<NodeView>, id: int) -> ShapeView
    decreases arena.len() - id, 3int, 0int,
{
    let o = arena[id].object->Some_0;
    let stats = node_stats(arena[id]);
    if o.map_reason() is Some {
        let value = value_shape(arena, id);
        shape::map_of(value, shape::nullish(value), stats)
    } else {
        shape::record_of(field_shapes(arena, id, o.fields.len() as int), stats)
    }
}

/// How many positions a tuple has.
pub open spec fn arity(a: ArrayView) -> int {
    if a.mode().0 < a.positional.len() {
        a.mode().0 as int
    } else {
        a.positional.len() as int
    }
}

pub open spec fn array_shape(arena: Seq<NodeView>, id: int) -> ShapeView
    decreases arena.len() - id, 3int, 0int,
{
    let a = arena[id].array->Some_0;
    let stats = node_stats(arena[id]);
    if a.bag_reason() is Some {
        let element = element_shape(arena, id);
        shape::array_of(element, shape::nullish(element), stats)
    } else {
        ShapeView {
            kind: KindView::Tuple { positions: position_shapes(arena, id, arity(a)) },
            stats,
        }
    }
}

/// The shape that was observed at a node.
pub open spec fn shape_at(arena: Seq<NodeView>, id: int) -> ShapeView
    decreases arena.len() - id, 4int, 0int,
{
    let n = arena[id];
    let scalars = scalar_shapes(n, 6);
    let some = if n.object is Some {
        scalars.push(object_shape(arena, id))
    } else {
        scalars
    };
    let arms = if n.array is Some {
        some.push(array_shape(arena, id))
    } else {
        some
    };
    one_of(arms, node_stats(n))
}

// ---------------------------------------------------------------------
// Proofs about the clusters
// ---------------------------------------------------------------------

proof fn lemma_insert_total(s: Seq<(SigView, u64)>, e: (SigView, u64))
    ensures
        sketch::total(sketch::insert_by_count(s, e)) == sketch::total(s) + e.1,
    decreases s.len(),
{
    let r = sketch::insert_by_count(s, e);
    if s.len() > 0 && s.last().1 < e.1 {
        lemma_insert_total(s.drop_last(), e);
        assert(r.drop_last() =~= sketch::insert_by_count(s.drop_last(), e));
    } else {
        assert(s.push(e).drop_last() =~= s);
    }
}

proof fn lemma_ranked_total(s: Seq<(SigView, u64)>)
    ensures
        sketch::total(sketch::by_count(s)) == sketch::total(s),
    decreases s.len(),
{
    if s.len() > 0 {
        lemma_ranked_total(s.drop_last());
        lemma_insert_total(sketch::by_count(s.drop_last()), s.last());
    }
}

proof fn lemma_telling_total(s: Seq<(SigView, u64)>)
    ensures
        0 <= sketch::total(telling(s)) <= sketch::total(s),
    decreases s.len(),
{
    if s.len() > 0 {
        lemma_telling_total(s.drop_last());
        let t = telling(s.drop_last()).push(s.last());
        assert(t.drop_last() =~= telling(s.drop_last()));
    }
}

proof fn lemma_entry_shapes(s: Seq<(SigView, u64)>)
    ensures
        entry_shapes(s).len() == s.len(),
    decreases s.len(),
{
    if s.len() > 0 {
        lemma_entry_shapes(s.drop_last());
    }
}

proof fn lemma_busiest(arena: Seq<NodeView>, ids: Seq<int>, k: int)
    requires
        1 <= k <= ids.len(),
    ensures
        0 <= busiest(arena, ids, k) < k,
    decreases k,
{
    if k > 1 {
        lemma_busiest(arena, ids, k - 1);
    }
}

// ---------------------------------------------------------------------
// Building
// ---------------------------------------------------------------------

/// Children are younger than their parent, and what is counted is counted
/// right.
pub open spec fn linked_node(n: NodeView, id: int, size: int) -> bool {
    &&& n.scalar_arms.len() == 6
    &&& n.object matches Some(o) ==> {
        &&& id < o.map_value < size
        &&& forall|i: int| 0 <= i < o.fields.len() ==> id < (#[trigger] o.fields[i]).1 < size
    }
    &&& n.array matches Some(a) ==> {
        &&& id < a.bag_value < size
        &&& forall|i: int| 0 <= i < a.positional.len() ==> id < #[trigger] a.positional[i] < size
        &&& a.length_histogram.dom().finite()
        &&& a.element_cluster.wf()
    }
}

pub open spec fn linked(arena: Seq<NodeView>) -> bool {
    forall|i: int| 0 <= i < arena.len() ==> linked_node(#[trigger] arena[i], i, arena.len() as int)
}

/// The nodes of an analyzer are linked.
pub proof fn lemma_linked(s: State)
    requires
        s.wf(),
    ensures
        linked(s.arena),
{
    assert forall|i: int| 0 <= i < s.arena.len() implies linked_node(
        #[trigger] s.arena[i],
        i,
        s.arena.len() as int,
    ) by {
        assert(s.arena[i].wf(i, s.arena.len() as int, s.policy.caps(), s.events));
    }
}

fn stats_from(n: &Node) -> (s: Stats)
    ensures
        s@ == node_stats(n@),
{
    Stats::plain(n.obs, n.first_doc, n.last_doc)
}

fn join_arms(arms: Vec<ShapeNode>, stats: Stats) -> (r: ShapeNode)
    ensures
        r@ == one_of(node::shapes_view(arms@), stats@),
{
    proof {
        node::lemma_shapes_view(arms@);
    }
    let mut arms = arms;
    let count: usize = arms.len();
    if count == 0 {
        ShapeNode { kind: ShapeKind::Absent, stats }
    } else if count == 1 {
        assert(node::shapes_view(arms@)[0] == node::shape_view(arms@[0]));
        arms.remove(0)
    } else {
        ShapeNode { kind: ShapeKind::Variant { arms }, stats }
    }
}

fn scalar_arms(n: &Node) -> (arms: Vec<ShapeNode>)
    ensures
        node::shapes_view(arms@) == scalar_shapes(n@, 6),
{
    let mut arms: Vec<ShapeNode> = Vec::new();
    let mut k: usize = 0;
    while k < 6
        invariant
            k <= 6,
            node::shapes_view(arms@) == scalar_shapes(n@, k as int),
        decreases 6 - k,
    {
        let count: u64 = n.scalar_arms[k];
        if count > 0 {
            let ghost before = arms@;
            let arm = ShapeNode {
                kind: ShapeKind::Type(ScalarKind::at(k).to_value_type()),
                stats: Stats::plain(count, n.first_doc, n.last_doc),
            };
            assert(node::shape_view(arm).kind == KindView::Type(
                shape::kind_type(ScalarKind::nth(k as int)),
            ));
            arms.push(arm);
            assert(arms@.drop_last() =~= before);
        }
        k += 1;
    }
    arms
}

/// The clusters that tell of a value, highest count first.
pub(crate) fn told(arr: &ArrayAcc) -> (r: Vec<(Sig, u64)>)
    ensures
        r@.map_values(|e: (Sig, u64)| (e.0@, e.1)) == clusters(arr@),
{
    let entries = arr.element_cluster.entries();
    let ghost all = sketch::by_count(arr@.element_cluster.entries);
    let mut out: Vec<(Sig, u64)> = Vec::new();
    let mut i: usize = 0;
    assert(out@.map_values(|e: (Sig, u64)| (e.0@, e.1)) =~= telling(all.take(0)));
    while i < entries.len()
        invariant
            i <= entries@.len(),
            entries@.map_values(|e: (Sig, u64)| (e.0@, e.1)) == all,
            out@.map_values(|e: (Sig, u64)| (e.0@, e.1)) == telling(all.take(i as int)),
        decreases entries@.len() - i,
    {
        let ghost before = out@.map_values(|e: (Sig, u64)| (e.0@, e.1));
        assert(all[i as int] == (entries@[i as int].0@, entries@[i as int].1));
        let empty: bool = match &entries[i].0 {
            Sig::Empty => true,
            _ => false,
        };
        if !empty {
            out.push((entries[i].0.copied(), entries[i].1));
            assert(out@.map_values(|e: (Sig, u64)| (e.0@, e.1)) =~= before.push(all[i as int]));
        }
        i += 1;
        assert(all.take(i as int).drop_last() =~= all.take(i - 1));
    }
    assert(all.take(i as int) =~= all);
    out
}

/// The sum of the counts of the clusters is within bounds.
pub proof fn lemma_cluster_total(a: ArrayView)
    requires
        a.element_cluster.wf(),
    ensures
        0 <= sketch::total(clusters(a)) <= u64::MAX,
{
    lemma_ranked_total(a.element_cluster.entries);
    lemma_telling_total(sketch::by_count(a.element_cluster.entries));
}

pub(crate) fn sum_of_counts(entries: &Vec<(Sig, u64)>, Ghost(v): Ghost<Seq<(SigView, u64)>>) -> (r: u64)
    requires
        v == entries@.map_values(|e: (Sig, u64)| (e.0@, e.1)),
        sketch::total(v) <= u64::MAX,
    ensures
        r == sketch::total(v),
{
    let mut sum: u64 = 0;
    let mut i: usize = 0;
    assert(v.take(0) =~= Seq::empty());
    while i < entries.len()
        invariant
            i <= entries@.len(),
            v == entries@.map_values(|e: (Sig, u64)| (e.0@, e.1)),
            sketch::total(v) <= u64::MAX,
            sum == sketch::total(v.take(i as int)),
        decreases entries@.len() - i,
    {
        assert(v[i as int] == (entries@[i as int].0@, entries@[i as int].1));
        proof {
            assert(v.take(i + 1).drop_last() =~= v.take(i as int));
            lemma_prefix_total(v, i + 1);
        }
        sum += entries[i].1;
        i += 1;
    }
    assert(v.take(i as int) =~= v);
    sum
}

/// The shape of the clusters.
fn cluster_shape(entries: Vec<(Sig, u64)>, Ghost(v): Ghost<Seq<(SigView, u64)>>) -> (r: ShapeNode)
    requires
        v == entries@.map_values(|e: (Sig, u64)| (e.0@, e.1)),
        sketch::total(v) <= u64::MAX,
    ensures
        r@ == one_of(entry_shapes(v), stats::plain_stats(sketch::total(v) as u64, 0, 0)),
{
    let sum: u64 = sum_of_counts(&entries, Ghost(v));
    let mut arms: Vec<ShapeNode> = Vec::new();
    let mut i: usize = 0;
    assert(v.take(0) =~= Seq::empty());
    while i < entries.len()
        invariant
            i <= entries@.len(),
            v == entries@.map_values(|e: (Sig, u64)| (e.0@, e.1)),
            node::shapes_view(arms@) == entry_shapes(v.take(i as int)),
        decreases entries@.len() - i,
    {
        let ghost before = arms@;
        assert(v[i as int] == (entries@[i as int].0@, entries@[i as int].1));
        assert(v.take(i + 1).drop_last() =~= v.take(i as int));
        arms.push(shape::sig_to_shape(&entries[i].0, entries[i].1));
        i += 1;
        assert(arms@.drop_last() =~= before);
    }
    assert(v.take(i as int) =~= v);
    join_arms(arms, Stats::plain(sum, 0, 0))
}

proof fn lemma_prefix_total(v: Seq<(SigView, u64)>, k: int)
    requires
        0 <= k <= v.len(),
    ensures
        0 <= sketch::total(v.take(k)) <= sketch::total(v),
    decreases v.len(),
{
    if v.len() > 0 {
        if k < v.len() {
            assert(v.take(k) =~= v.drop_last().take(k));
            lemma_prefix_total(v.drop_last(), k);
        } else {
            assert(v.take(k) =~= v);
            lemma_prefix_total(v.drop_last(), k - 1);
        }
    }
}

/// The busiest of the children of node `id`.
fn dominant_child_shape(nodes: &Vec<Node>, id: NodeId, ids: &Vec<NodeId>) -> (r: ShapeNode)
    requires
        linked(engine::nodes(nodes@)),
        id < nodes@.len(),
        forall|i: int| 0 <= i < ids@.len() ==> id < #[trigger] ids@[i] < nodes@.len(),
    ensures
        r@ == busiest_shape(engine::nodes(nodes@), id as int, arena::ids(ids@)),
    decreases nodes@.len() - id, 1int,
{
    let ghost all = engine::nodes(nodes@);
    let ghost kids = arena::ids(ids@);
    if ids.len() == 0 {
        return ShapeNode { kind: ShapeKind::Absent, stats: Stats::default() };
    }
    let mut best: usize = 0;
    let mut i: usize = 1;
    while i < ids.len()
        invariant
            best < i <= ids@.len(),
            best == busiest(all, kids, i as int),
            all == engine::nodes(nodes@),
            kids == arena::ids(ids@),
            forall|i: int| 0 <= i < ids@.len() ==> id < #[trigger] ids@[i] < nodes@.len(),
        decreases ids@.len() - i,
    {
        assert(kids[i as int] == ids@[i as int]);
        assert(kids[best as int] == ids@[best as int]);
        assert(all[ids@[i as int] as int] == nodes@[ids@[i as int] as int]@);
        assert(all[ids@[best as int] as int] == nodes@[ids@[best as int] as int]@);
        if nodes[ids[i]].obs > nodes[ids[best]].obs {
            best = i;
        }
        i += 1;
    }
    let child: usize = ids[best];
    assert(kids[best as int] == child);
    assert(child_shape(all, id as int, child as int) == shape_at(all, child as int));
    build(nodes, child)
}

fn build_array_element_shape(nodes: &Vec<Node>, id: NodeId, arr: &ArrayAcc) -> (r: ShapeNode)
    requires
        linked(engine::nodes(nodes@)),
        id < nodes@.len(),
        nodes@[id as int].array == Some(*arr),
    ensures
        r@ == element_shape(engine::nodes(nodes@), id as int),
    decreases nodes@.len() - id, 2int,
{
    let ghost all = engine::nodes(nodes@);
    let ghost a = arr@;
    proof {
        assert(all[id as int] == nodes@[id as int]@);
        assert(all[id as int].array == Some(a));
        assert(linked_node(all[id as int], id as int, all.len() as int));
        lemma_ranked_total(a.element_cluster.entries);
        lemma_telling_total(sketch::by_count(a.element_cluster.entries));
        lemma_entry_shapes(clusters(a));
    }
    let entries = told(arr);
    if entries.len() > 0 {
        return cluster_shape(entries, Ghost(clusters(a)));
    }
    assert(clusters(a).len() == 0);
    let bag = build(nodes, arr.bag_value);
    let missing: bool = match &bag.kind {
        ShapeKind::Absent => true,
        _ => false,
    };
    assert(missing == (bag@.kind is Absent));
    if !missing {
        return bag;
    }
    assert forall|i: int| 0 <= i < arr.positional@.len() implies id < #[trigger] arr.positional@[i]
        < nodes@.len() by {
        assert(a.positional[i] == arr.positional@[i]);
    }
    dominant_child_shape(nodes, id, &arr.positional)
}

fn build_array(nodes: &Vec<Node>, id: NodeId, arr: &ArrayAcc) -> (r: ShapeNode)
    requires
        linked(engine::nodes(nodes@)),
        id < nodes@.len(),
        nodes@[id as int].array == Some(*arr),
    ensures
        r@ == array_shape(engine::nodes(nodes@), id as int),
    decreases nodes@.len() - id, 3int,
{
    let ghost all = engine::nodes(nodes@);
    let ghost a = arr@;
    proof {
        assert(all[id as int] == nodes@[id as int]@);
        assert(all[id as int].array == Some(a));
        assert(linked_node(all[id as int], id as int, all.len() as int));
    }
    let stats = stats_from(&nodes[id]);
    match decide::decide_array(arr) {
        ArrayDecision::Tuple { mode_len, .. } => {
            let take: usize = if (mode_len as usize) < arr.positional.len() {
                mode_len as usize
            } else {
                arr.positional.len()
            };
            let mut positions: Vec<ShapeNode> = Vec::new();
            let mut i: usize = 0;
            while i < take
                invariant
                    i <= take <= arr.positional@.len(),
                    all == engine::nodes(nodes@),
                    linked(all),
                    id < nodes@.len(),
                    all[id as int].array == Some(arr@),
                    linked_node(all[id as int], id as int, all.len() as int),
                    node::shapes_view(positions@) == position_shapes(all, id as int, i as int),
                decreases take - i,
            {
                let ghost before = positions@;
                let child: usize = arr.positional[i];
                assert(arr@.positional[i as int] == child);
                assert(child_shape(all, id as int, child as int) == shape_at(all, child as int));
                positions.push(build(nodes, child));
                i += 1;
                assert(positions@.drop_last() =~= before);
            }
            ShapeNode { kind: ShapeKind::Tuple { positions }, stats }
        },
        ArrayDecision::Bag { .. } => {
            let element = build_array_element_shape(nodes, id, arr);
            let nullable: bool = shape::contains_null(&element);
            shape::array_shape(element, nullable, stats)
        },
    }
}

fn build_object(nodes: &Vec<Node>, id: NodeId, obj: &ObjectAcc) -> (r: ShapeNode)
    requires
        linked(engine::nodes(nodes@)),
        id < nodes@.len(),
        nodes@[id as int].object == Some(*obj),
    ensures
        r@ == object_shape(engine::nodes(nodes@), id as int),
    decreases nodes@.len() - id, 3int,
{
    let ghost all = engine::nodes(nodes@);
    let ghost o = obj@;
    proof {
        assert(all[id as int] == nodes@[id as int]@);
        assert(all[id as int].object == Some(o));
        assert(linked_node(all[id as int], id as int, all.len() as int));
    }
    let stats = stats_from(&nodes[id]);
    match decide::decide_object(obj) {
        ObjectDecision::Mapping { .. } => {
            let direct = build(nodes, obj.map_value);
            let missing: bool = match &direct.kind {
                ShapeKind::Absent => true,
                _ => false,
            };
            assert(missing == (direct@.kind is Absent));
            let value = if missing {
                let mut ids: Vec<NodeId> = Vec::new();
                let mut i: usize = 0;
                while i < obj.fields.len()
                    invariant
                        i <= obj.fields@.len(),
                        ids@.len() == i,
                        forall|j: int| 0 <= j < i ==> #[trigger] ids@[j] == obj.fields@[j].1,
                    decreases obj.fields@.len() - i,
                {
                    ids.push(obj.fields[i].1);
                    i += 1;
                }
                assert(arena::ids(ids@) =~= child_ids(o.fields));
                assert forall|j: int| 0 <= j < ids@.len() implies id < #[trigger] ids@[j]
                    < nodes@.len() by {
                    assert(o.fields[j].1 == obj.fields@[j].1);
                }
                dominant_child_shape(nodes, id, &ids)
            } else {
                direct
            };
            let nullable: bool = shape::contains_null(&value);
            shape::map_shape(value, nullable, stats)
        },
        ObjectDecision::Record { .. } => {
            let mut fields: Vec<ShapeField> = Vec::new();
            let mut i: usize = 0;
            while i < obj.fields.len()
                invariant
                    i <= obj.fields@.len(),
                    all == engine::nodes(nodes@),
                    linked(all),
                    id < nodes@.len(),
                    all[id as int].object == Some(obj@),
                    linked_node(all[id as int], id as int, all.len() as int),
                    node::shape_fields_view(fields@) == field_shapes(all, id as int, i as int),
                decreases obj.fields@.len() - i,
            {
                let ghost before = fields@;
                let child: usize = obj.fields[i].1;
                assert(obj@.fields[i as int] == (obj.fields@[i as int].0@, child as int));
                assert(all[child as int] == nodes@[child as int]@);
                assert(child_shape(all, id as int, child as int) == shape_at(all, child as int));
                let built = build(nodes, child);
                let nullable: bool = nodes[child].obs < obj.obs || shape::contains_null(&built);
                fields.push(
                    ShapeField { name: obj.fields[i].0.clone(), shape: built, nullable },
                );
                i += 1;
                assert(fields@.drop_last() =~= before);
            }
            shape::record_shape(fields, stats)
        },
    }
}

/// The shape that was observed at a node.
pub fn build(nodes: &Vec<Node>, id: NodeId) -> (r: ShapeNode)
    requires
        linked(engine::nodes(nodes@)),
        id < nodes@.len(),
    ensures
        r@ == shape_at(engine::nodes(nodes@), id as int),
    decreases nodes@.len() - id, 4int,
{
    let ghost all = engine::nodes(nodes@);
    assert(all[id as int] == nodes@[id as int]@);
    let n = &nodes[id];
    let mut arms = scalar_arms(n);
    let ghost scalars = node::shapes_view(arms@);
    if let Some(obj) = &n.object {
        let ghost before = arms@;
        arms.push(build_object(nodes, id, obj));
        assert(arms@.drop_last() =~= before);
        assert(node::shapes_view(arms@) == scalars.push(object_shape(all, id as int)));
    }
    let ghost some = node::shapes_view(arms@);
    if let Some(arr) = &n.array {
        let ghost before = arms@;
        arms.push(build_array(nodes, id, arr));
        assert(arms@.drop_last() =~= before);
        assert(node::shapes_view(arms@) == some.push(array_shape(all, id as int)));
    }
    join_arms(arms, stats_from(n))
}

} // verus!
