//! What the analyzer never takes back: nodes, observations, fields, and the
//! loss of a view.
use crate::analyze::arena;
use crate::analyze::arena::{ArrayView, NodeView, ObjectView};
use crate::analyze::canon;
use crate::analyze::engine::StreamingAnalyzer;
use crate::analyze::machine::{FrameView, State};
use crate::analyze::sig::{ScalarKind, SigView};
use crate::analyze::stats;
use crate::analyze::upkeep;
use crate::ingest;
use crate::ingest::{EventView, JsonEventSink};
use vstd::prelude::*;

verus! {

// ---------------------------------------------------------------------
// Later states
// ---------------------------------------------------------------------

/// `b` is what becomes of object `a`: no field is lost, and a record view
/// that was dropped stays so.
pub open spec fn object_after(a: ObjectView, b: ObjectView) -> bool {
    &&& a.obs <= b.obs
    &&& a.map_value == b.map_value
    &&& a.fields.is_prefix_of(b.fields)
    &&& a.key_count_sum <= b.key_count_sum
    &&& b.record_alive ==> a.record_alive
}

/// `b` is what becomes of array `a`: no position is lost, and a positional
/// view that was dropped stays so.
pub open spec fn array_after(a: ArrayView, b: ArrayView) -> bool {
    &&& a.obs <= b.obs
    &&& a.bag_value == b.bag_value
    &&& a.positional.is_prefix_of(b.positional)
    &&& b.positional_alive ==> a.positional_alive
}

pub open spec fn node_after(a: NodeView, b: NodeView) -> bool {
    &&& a.obs <= b.obs
    &&& a.obs > 0 ==> a.first_doc == b.first_doc
    &&& a.scalar_arms.len() == b.scalar_arms.len()
    &&& forall|i: int|
        0 <= i < a.scalar_arms.len() ==> a.scalar_arms[i] <= #[trigger] b.scalar_arms[i]
    &&& a.object matches Some(o) ==> b.object is Some && object_after(o, b.object->Some_0)
    &&& a.array matches Some(x) ==> b.array is Some && array_after(x, b.array->Some_0)
}

/// Every node of the one arena is there in the other, and has only grown.
pub open spec fn arena_after(a: Seq<NodeView>, b: Seq<NodeView>) -> bool {
    &&& a.len() <= b.len()
    &&& forall|i: int| 0 <= i < a.len() ==> node_after(a[i], #[trigger] b[i])
}

proof fn lemma_object_after(a: ObjectView, b: ObjectView, c: ObjectView)
    requires
        object_after(a, b),
        object_after(b, c),
    ensures
        object_after(a, c),
{
    assert(a.fields =~= c.fields.subrange(0, a.fields.len() as int)) by {
        assert forall|i: int| 0 <= i < a.fields.len() implies a.fields[i] == c.fields[i] by {
            assert(a.fields[i] == b.fields.subrange(0, a.fields.len() as int)[i]);
            assert(b.fields[i] == c.fields.subrange(0, b.fields.len() as int)[i]);
        }
    }
}

proof fn lemma_array_after(a: ArrayView, b: ArrayView, c: ArrayView)
    requires
        array_after(a, b),
        array_after(b, c),
    ensures
        array_after(a, c),
{
    assert(a.positional =~= c.positional.subrange(0, a.positional.len() as int)) by {
        assert forall|i: int| 0 <= i < a.positional.len() implies a.positional[i]
            == c.positional[i] by {
            assert(a.positional[i] == b.positional.subrange(0, a.positional.len() as int)[i]);
            assert(b.positional[i] == c.positional.subrange(0, b.positional.len() as int)[i]);
        }
    }
}

proof fn lemma_node_after(a: NodeView, b: NodeView, c: NodeView)
    requires
        node_after(a, b),
        node_after(b, c),
    ensures
        node_after(a, c),
{
    if let Some(o) = a.object {
        lemma_object_after(o, b.object->Some_0, c.object->Some_0);
    }
    if let Some(x) = a.array {
        lemma_array_after(x, b.array->Some_0, c.array->Some_0);
    }
    assert forall|i: int| 0 <= i < a.scalar_arms.len() implies a.scalar_arms[i]
        <= #[trigger] c.scalar_arms[i] by {
        assert(b.scalar_arms[i] <= c.scalar_arms[i]);
    }
}

pub proof fn lemma_arena_after(a: Seq<NodeView>, b: Seq<NodeView>, c: Seq<NodeView>)
    requires
        arena_after(a, b),
        arena_after(b, c),
    ensures
        arena_after(a, c),
{
    assert forall|i: int| 0 <= i < a.len() implies node_after(a[i], #[trigger] c[i]) by {
        assert(node_after(a[i], b[i]));
        lemma_node_after(a[i], b[i], c[i]);
    }
}

proof fn lemma_node_stays(n: NodeView)
    ensures
        node_after(n, n),
{
    if let Some(o) = n.object {
        assert(o.fields =~= o.fields.subrange(0, o.fields.len() as int));
    }
    if let Some(a) = n.array {
        assert(a.positional =~= a.positional.subrange(0, a.positional.len() as int));
    }
}

pub proof fn lemma_arena_stays(a: Seq<NodeView>)
    ensures
        arena_after(a, a),
{
    assert forall|i: int| 0 <= i < a.len() implies node_after(a[i], #[trigger] a[i]) by {
        lemma_node_stays(a[i]);
    }
}

/// One node is changed.
proof fn lemma_put(a: Seq<NodeView>, id: int, n: NodeView)
    requires
        0 <= id < a.len(),
        node_after(a[id], n),
    ensures
        arena_after(a, a.update(id, n)),
{
    let b = a.update(id, n);
    assert forall|i: int| 0 <= i < a.len() implies node_after(a[i], #[trigger] b[i]) by {
        lemma_node_stays(a[i]);
    }
}

proof fn lemma_put_object(s: State, id: int, o: ObjectView)
    requires
        0 <= id < s.arena.len(),
        s.arena[id].object matches Some(before) ==> object_after(before, o),
    ensures
        arena_after(s.arena, s.put_object(id, o).arena),
{
    lemma_node_stays(s.arena[id]);
    lemma_put(s.arena, id, NodeView { object: Some(o), ..s.arena[id] });
}

proof fn lemma_put_array(s: State, id: int, a: ArrayView)
    requires
        0 <= id < s.arena.len(),
        s.arena[id].array matches Some(before) ==> array_after(before, a),
    ensures
        arena_after(s.arena, s.put_array(id, a).arena),
{
    lemma_node_stays(s.arena[id]);
    lemma_put(s.arena, id, NodeView { array: Some(a), ..s.arena[id] });
}

proof fn lemma_grown(s: State)
    ensures
        arena_after(s.arena, s.grown().arena),
{
    let b = s.grown().arena;
    assert forall|i: int| 0 <= i < s.arena.len() implies node_after(s.arena[i], #[trigger] b[i]) by {
        lemma_node_stays(s.arena[i]);
    }
}

// ---------------------------------------------------------------------
// Steps
// ---------------------------------------------------------------------

proof fn lemma_element_node(s: State, id: int, position: int)
    requires
        0 <= id < s.arena.len(),
        s.arena[id].array is Some,
    ensures
        arena_after(s.arena, s.element_node(id, position).0.arena),
{
    let a = s.array_at(id);
    assert(a.positional =~= a.positional.subrange(0, a.positional.len() as int));
    lemma_arena_stays(s.arena);
    lemma_put_array(s, id, ArrayView { positional_alive: false, ..a });
    let child = s.arena.len() as int;
    let more = ArrayView { positional: a.positional.push(child), ..a };
    assert(a.positional =~= more.positional.subrange(0, a.positional.len() as int));
    let t = s.put_array(id, more);
    lemma_put_array(s, id, more);
    lemma_grown(t);
    lemma_arena_after(s.arena, t.arena, t.grown().arena);
}

proof fn lemma_key_node(s: State, id: int, key: Seq<char>)
    requires
        0 <= id < s.arena.len(),
        s.arena[id].object is Some,
    ensures
        arena_after(s.arena, s.key_node(id, key).0.arena),
        s.key_node(id, key).0.arena[id].object is Some,
        s.key_node(id, key).0.object_at(id).key_count_sum == s.object_at(id).key_count_sum,
{
    let o = s.object_at(id);
    assert(o.fields =~= o.fields.subrange(0, o.fields.len() as int));
    lemma_arena_stays(s.arena);
    lemma_put_object(s, id, ObjectView { record_alive: false, ..o });
    let child = s.arena.len() as int;
    let more = ObjectView { fields: o.fields.push((key, child)), ..o };
    assert(o.fields =~= more.fields.subrange(0, o.fields.len() as int));
    let t = s.put_object(id, more);
    lemma_put_object(s, id, more);
    lemma_grown(t);
    lemma_arena_after(s.arena, t.arena, t.grown().arena);
}

proof fn lemma_target(s: State)
    requires
        s.wf(),
        s.takes_value(),
    ensures
        arena_after(s.arena, s.target().0.arena),
        0 <= s.target().1 < s.target().0.arena.len(),
        s.target().0.arena[s.target().1].balanced(),
        s.target().0.arena[s.target().1].obs <= s.events,
{
    upkeep::lemma_target(s);
    upkeep::lemma_target_node(s);
    lemma_arena_stays(s.arena);
    if s.pending is None {
        let k = s.stack.len() - 1;
        assert(upkeep::frame_ok(s.stack[k], s.arena, false, s.pending));
        if let FrameView::Array { node, position, children } = s.stack.last() {
            let t = State {
                stack: s.stack.drop_last().push(
                    FrameView::Array { node, position: (position + 1) as u32, children },
                ),
                ..s
            };
            lemma_element_node(t, node, position as int);
        }
    }
}

/// A complete value changes the array that it is an element of, if any.
proof fn lemma_emitted(s: State, v: SigView)
    requires
        s.stack.len() > 0 ==> (s.stack.last() matches FrameView::Array { node, .. } ==> {
            &&& 0 <= node < s.arena.len()
            &&& s.arena[node].array is Some
        }),
    ensures
        arena_after(s.arena, s.emitted(v).arena),
{
    lemma_arena_stays(s.arena);
    if s.stack.len() > 0 {
        if let FrameView::Array { node, position, children } = s.stack.last() {
            let a = s.array_at(node);
            assert(a.positional =~= a.positional.subrange(0, a.positional.len() as int));
            lemma_put_array(s, node, a.with_element(v));
        }
    }
}

/// A scalar is seen at its node.
proof fn lemma_seen(n: NodeView, kind: ScalarKind, doc: u64)
    requires
        n.balanced(),
        n.obs < u64::MAX,
    ensures
        node_after(n, n.seen(doc).with_scalar(kind)),
{
    lemma_node_stays(n);
    assert(n.scalar_arms[kind.place()] <= n.obs);
}

/// A scalar becomes `n` at its node, and is complete.
proof fn lemma_scalar(s: State, n: NodeView, v: SigView)
    requires
        s.wf(),
        s.takes_value(),
        node_after(s.target().0.arena[s.target().1], n),
    ensures
        arena_after(s.target().0.arena, s.target().0.put(s.target().1, n).emitted(v).arena),
{
    let (t, id) = s.target();
    lemma_target(s);
    upkeep::lemma_target(s);
    lemma_put(t.arena, id, n);
    let u = t.put(id, n);
    if t.stack.len() > 0 {
        let k = t.stack.len() - 1;
        assert(upkeep::frame_ok(t.stack[k], t.arena, true, t.pending));
        if let FrameView::Array { node, .. } = u.stack.last() {
            assert(node_after(t.arena[node], u.arena[node]));
        }
    }
    lemma_emitted(u, v);
    lemma_arena_after(t.arena, u.arena, u.emitted(v).arena);
}

proof fn lemma_array_begun(s: State)
    requires
        s.wf(),
        s.takes_value(),
        s.events < u64::MAX,
    ensures
        arena_after(s.target().0.arena, s.array_begun().arena),
{
    let (t, id) = s.target();
    lemma_target(s);
    upkeep::lemma_target(s);
    let u = t.with_array(id);
    upkeep::lemma_with_array(t, id, s.events);
    lemma_arena_stays(t.arena);
    if t.arena[id].array is None {
        let a = ArrayView::empty(t.arena.len() as int, t.policy.cluster_cap as int);
        lemma_put_array(t, id, a);
        lemma_grown(t.put_array(id, a));
        lemma_arena_after(t.arena, t.put_array(id, a).arena, u.arena);
    }
    let a = u.array_at(id);
    let m = u.arena[id];
    assert(m.wf(id, u.arena.len() as int, u.policy.caps(), s.events));
    let n = NodeView {
        array: Some(ArrayView { obs: (a.obs + 1) as u64, ..a }),
        ..m.seen(s.current_doc)
    };
    lemma_node_stays(m);
    lemma_put(u.arena, id, n);
    lemma_arena_after(t.arena, u.arena, s.array_begun().arena);
}

proof fn lemma_object_begun(s: State)
    requires
        s.wf(),
        s.takes_value(),
        s.events < u64::MAX,
    ensures
        arena_after(s.target().0.arena, s.object_begun().arena),
{
    let (t, id) = s.target();
    lemma_target(s);
    upkeep::lemma_target(s);
    let u = t.with_object(id);
    upkeep::lemma_with_object(t, id, s.events);
    lemma_arena_stays(t.arena);
    if t.arena[id].object is None {
        let o = ObjectView::empty(t.arena.len() as int);
        lemma_put_object(t, id, o);
        lemma_grown(t.put_object(id, o));
        lemma_arena_after(t.arena, t.put_object(id, o).arena, u.arena);
    }
    let o = u.object_at(id);
    let m = u.arena[id];
    assert(m.wf(id, u.arena.len() as int, u.policy.caps(), s.events));
    let n = NodeView {
        object: Some(ObjectView { obs: (o.obs + 1) as u64, ..o }),
        ..m.seen(s.current_doc)
    };
    lemma_node_stays(m);
    lemma_put(u.arena, id, n);
    lemma_arena_after(t.arena, u.arena, s.object_begun().arena);
}

/// What the container below the one that ends is.
proof fn lemma_below(s: State)
    requires
        s.wf(),
        s.stack.len() > 0,
    ensures
        upkeep::frame_ok(s.stack.last(), s.arena, false, s.pending),
        s.stack.len() > 1 ==> upkeep::frame_ok(
            s.stack.drop_last().last(),
            s.arena,
            true,
            s.pending,
        ),
{
    let k = s.stack.len() - 1;
    assert(upkeep::frame_ok(s.stack[k], s.arena, false, s.pending));
    if k > 0 {
        assert(upkeep::frame_ok(s.stack[k - 1], s.arena, true, s.pending));
        assert(s.stack.drop_last().last() == s.stack[k - 1]);
    }
}

proof fn lemma_array_ended(s: State)
    requires
        s.wf(),
        s.stack.len() > 0,
    ensures
        arena_after(s.arena, s.array_ended().arena),
{
    lemma_arena_stays(s.arena);
    lemma_below(s);
    if let FrameView::Array { node, position, children } = s.stack.last() {
        let below = State { stack: s.stack.drop_last(), ..s };
        let a = s.array_at(node);
        assert(a.positional =~= a.positional.subrange(0, a.positional.len() as int));
        let b = a.with_length(position, s.bounds);
        lemma_put_array(below, node, b);
        let u = below.put_array(node, b);
        let v = SigView::Array(Box::new(canon::homogenized(children)));
        lemma_emitted(u, v);
        lemma_arena_after(s.arena, u.arena, u.emitted(v).arena);
    }
}

proof fn lemma_object_ended(s: State)
    requires
        s.wf(),
        s.stack.len() > 0,
    ensures
        arena_after(s.arena, s.object_ended().arena),
{
    lemma_arena_stays(s.arena);
    lemma_below(s);
    if let FrameView::Object { node, members, .. } = s.stack.last() {
        let below = State { stack: s.stack.drop_last(), ..s };
        let o = s.object_at(node);
        assert(o.fields =~= o.fields.subrange(0, o.fields.len() as int));
        let sketch = o.key_count_sketch.observe(stats::whole(members.len() as int), s.bounds);
        let p = ObjectView { key_count_sketch: sketch, ..o };
        lemma_put_object(below, node, p);
        let u = below.put_object(node, p);
        let v = SigView::Record(canon::sorted_fields(members));
        lemma_emitted(u, v);
        lemma_arena_after(s.arena, u.arena, u.emitted(v).arena);
    }
}

proof fn lemma_key_given(s: State, key: Seq<char>)
    requires
        s.wf(),
        s.stack.len() > 0,
        s.events < u64::MAX,
    ensures
        arena_after(s.arena, s.key_given(key).arena),
{
    lemma_arena_stays(s.arena);
    lemma_below(s);
    if let FrameView::Object { node, pending_key, members } = s.stack.last() {
        let keyed = State {
            stack: s.stack.drop_last().push(
                FrameView::Object { node, pending_key: Some(key), members },
            ),
            ..s
        };
        assert(s.arena[node].wf(node, s.arena.len() as int, s.policy.caps(), s.events));
        lemma_key_node(keyed, node, key);
        let t = keyed.key_node(node, key).0;
        let o = t.object_at(node);
        assert(o.fields =~= o.fields.subrange(0, o.fields.len() as int));
        lemma_put_object(t, node, o.with_key(key, s.bounds));
        lemma_arena_after(s.arena, t.arena, s.key_given(key).arena);
    }
}

/// A value begins, or is there at once.
pub open spec fn is_value(e: EventView) -> bool {
    match e {
        EventView::DocumentBegin(_) | EventView::DocumentEnd | EventView::ArrayEnd
        | EventView::ObjectKey(_) | EventView::ObjectEnd => false,
        _ => true,
    }
}

spec fn kind_of(e: EventView) -> ScalarKind {
    match e {
        EventView::Bool(_) => ScalarKind::Bool,
        EventView::I64(_) => ScalarKind::I64,
        EventView::U64(_) => ScalarKind::U64,
        EventView::F64(_) => ScalarKind::F64,
        EventView::Text(_) => ScalarKind::String,
        _ => ScalarKind::Null,
    }
}

proof fn lemma_value(s: State, e: EventView)
    requires
        s.wf(),
        s.accepts(e),
        is_value(e),
    ensures
        arena_after(s.target().0.arena, s.step(e).arena),
{
    lemma_target(s);
    match e {
        EventView::ArrayBegin => {
            lemma_array_begun(s);
        },
        EventView::ObjectBegin => {
            lemma_object_begun(s);
        },
        _ => {
            let kind = kind_of(e);
            let (t, id) = s.target();
            let n = t.arena[id];
            lemma_seen(n, kind, s.current_doc);
            let v = SigView::Scalar(kind);
            let seen = n.seen(s.current_doc).with_scalar(kind);
            match e {
                EventView::Text(x) => {
                    lemma_scalar(s, seen.with_string(x, s.bounds), v);
                },
                EventView::I64(x) => {
                    lemma_scalar(s, seen.with_number(stats::whole(x as int), true, s.bounds), v);
                },
                EventView::U64(x) => {
                    lemma_scalar(s, seen.with_number(stats::whole(x as int), true, s.bounds), v);
                },
                EventView::F64(x) => {
                    lemma_scalar(s, seen.with_number(x, false, s.bounds), v);
                },
                _ => {
                    lemma_scalar(s, seen, v);
                },
            }
        },
    }
}

// ---------------------------------------------------------------------
// Laws
// ---------------------------------------------------------------------

/// Whatever the analyzer is told, it takes nothing back: every node stays,
/// with the observations that it had and more, with its fields and its
/// positions where they were, and without a view that it has dropped. The
/// documents are counted up.
pub proof fn law_nothing_is_taken_back(s: State, events: Seq<EventView>)
    requires
        s.wf(),
        ingest::accepts_all::<StreamingAnalyzer>(s, events),
    ensures
        ingest::after_all::<StreamingAnalyzer>(s, events).wf(),
        arena_after(s.arena, ingest::after_all::<StreamingAnalyzer>(s, events).arena),
        s.doc_count <= ingest::after_all::<StreamingAnalyzer>(s, events).doc_count,
    decreases events.len(),
{
    lemma_arena_stays(s.arena);
    if events.len() > 0 {
        let front = events.drop_last();
        law_nothing_is_taken_back(s, front);
        let t = ingest::after_all::<StreamingAnalyzer>(s, front);
        lemma_event(t, events.last());
        upkeep::law_events_keep_the_invariant(t, events.last());
        lemma_arena_after(s.arena, t.arena, t.step(events.last()).arena);
    }
}

proof fn lemma_event(s: State, e: EventView)
    requires
        s.wf(),
        s.accepts(e),
    ensures
        arena_after(s.arena, s.step(e).arena),
        s.doc_count <= s.step(e).doc_count,
{
    lemma_arena_stays(s.arena);
    match e {
        EventView::DocumentBegin(_) | EventView::DocumentEnd => {},
        EventView::ArrayEnd => {
            lemma_array_ended(s);
        },
        EventView::ObjectKey(key) => {
            lemma_key_given(s, key);
        },
        EventView::ObjectEnd => {
            lemma_object_ended(s);
        },
        _ => {
            lemma_target(s);
            lemma_value(s, e);
            lemma_arena_after(s.arena, s.target().0.arena, s.step(e).arena);
        },
    }
}

/// One key more than the record view keeps makes a map of an object, whatever
/// comes after.
pub proof fn law_wide_objects_are_maps(s: State, key: Seq<char>, events: Seq<EventView>)
    requires
        s.wf(),
        s.accepts(EventView::ObjectKey(key)),
        !arena::has_field(s.object_at(s.stack.last()->Object_node).fields, key),
        s.object_at(s.stack.last()->Object_node).fields.len() >= s.policy.record_view_cap,
        ingest::accepts_all::<StreamingAnalyzer>(s.step(EventView::ObjectKey(key)), events),
    ensures
        ({
            let t = ingest::after_all::<StreamingAnalyzer>(
                s.step(EventView::ObjectKey(key)),
                events,
            );
            t.object_at(s.stack.last()->Object_node).map_reason() is Some
        }),
{
    let e = EventView::ObjectKey(key);
    let id = s.stack.last()->Object_node;
    lemma_below(s);
    upkeep::law_events_keep_the_invariant(s, e);
    lemma_event(s, e);
    let u = s.step(e);
    assert(u.arena[id].object is Some && !u.object_at(id).record_alive);
    law_nothing_is_taken_back(u, events);
    let t = ingest::after_all::<StreamingAnalyzer>(u, events);
    assert(node_after(u.arena[id], t.arena[id]));
}

/// One element more than the positional view keeps makes a bag of an array,
/// whatever comes after.
pub proof fn law_long_arrays_are_bags(s: State, e: EventView, events: Seq<EventView>)
    requires
        s.wf(),
        s.accepts(e),
        is_value(e),
        s.pending is None,
        s.stack.last()->Array_position >= s.policy.positional_view_cap,
        ingest::accepts_all::<StreamingAnalyzer>(s.step(e), events),
    ensures
        ({
            let t = ingest::after_all::<StreamingAnalyzer>(s.step(e), events);
            t.array_at(s.stack.last()->Array_node).bag_reason() is Some
        }),
{
    let id = s.stack.last()->Array_node;
    lemma_below(s);
    assert(s.arena[id].wf(id, s.arena.len() as int, s.policy.caps(), s.events));
    lemma_target(s);
    upkeep::law_events_keep_the_invariant(s, e);
    lemma_value(s, e);
    let u = s.step(e);
    let begun = s.target().0;
    assert(begun.arena[id].array is Some && !begun.array_at(id).positional_alive);
    assert(node_after(begun.arena[id], u.arena[id]));
    law_nothing_is_taken_back(u, events);
    let t = ingest::after_all::<StreamingAnalyzer>(u, events);
    assert(node_after(u.arena[id], t.arena[id]));
}

} // verus!
