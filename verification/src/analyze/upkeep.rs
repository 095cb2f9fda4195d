//! What holds of the analyzer between events.
use crate::analyze::arena;
use crate::analyze::arena::{ArrayView, Caps, NodeView, ObjectView};
use crate::analyze::canon;
use crate::analyze::dist;
use crate::analyze::machine::{FrameView, PolicyView, State};
use crate::analyze::sig::{ScalarKind, SigView};
use crate::analyze::stats;
use crate::double::Double;
use crate::ingest::EventView;
use crate::sketch;
use vstd::prelude::*;

verus! {

/// How often an element displaced a cluster at a node.
pub open spec fn evictions_at(n: NodeView) -> int {
    match n.array {
        Some(a) => a.element_cluster.evictions as int,
        None => 0,
    }
}

pub open spec fn total_evictions(arena: Seq<NodeView>) -> int
    decreases arena.len(),
{
    if arena.len() == 0 {
        0
    } else {
        total_evictions(arena.drop_last()) + evictions_at(arena.last())
    }
}

/// How many elements are complete in the open arrays of node `id`.
pub open spec fn open_elements(stack: Seq<FrameView>, id: int) -> int
    decreases stack.len(),
{
    if stack.len() == 0 {
        0
    } else {
        open_elements(stack.drop_last(), id) + match stack.last() {
            FrameView::Array { node, children, .. } => if node == id {
                children.len() as int
            } else {
                0
            },
            FrameView::Object { .. } => 0,
        }
    }
}

/// Every element of an array is clustered once: those of the arrays that are
/// closed are in the sum of the lengths, the others are in an open array.
pub open spec fn clustered(n: NodeView, open: int) -> bool {
    n.array matches Some(a) ==> a.length_sum + open == a.element_cluster.observations
}

/// A frame of the stack. An engaged one has a value under way.
pub open spec fn frame_ok(
    f: FrameView,
    arena: Seq<NodeView>,
    engaged: bool,
    pending: Option<int>,
) -> bool {
    match f {
        FrameView::Object { node, pending_key, .. } => {
            &&& 0 <= node < arena.len()
            &&& arena[node].object is Some
            &&& pending_key is Some <==> engaged || pending is Some
        },
        FrameView::Array { node, position, children } => {
            &&& 0 <= node < arena.len()
            &&& arena[node].array is Some
            &&& position == children.len() + (if engaged {
                1int
            } else {
                0
            })
            &&& !engaged ==> pending is None
        },
    }
}

impl State {
    /// Every node is within its bounds after `events` events.
    pub open spec fn sound(self, events: u64) -> bool {
        &&& self.arena.len() >= 1
        &&& forall|i: int|
            0 <= i < self.arena.len() ==> (#[trigger] self.arena[i]).wf(
                i,
                self.arena.len() as int,
                self.policy.caps(),
                events,
            )
        &&& forall|i: int|
            0 <= i < self.arena.len() ==> clustered(
                #[trigger] self.arena[i],
                open_elements(self.stack, i),
            )
        &&& self.doc_count <= events
        &&& self.evictions == total_evictions(self.arena)
        &&& self.evictions <= events
        &&& self.pending matches Some(id) ==> 0 <= id < self.arena.len()
        &&& self.pending matches Some(id) ==> (id == 0 <==> self.stack.len() == 0)
    }

    /// The frames fit what is under way; `busy` says that a value is.
    pub open spec fn frames(self, busy: bool) -> bool {
        &&& forall|k: int|
            0 <= k < self.stack.len() ==> frame_ok(
                #[trigger] self.stack[k],
                self.arena,
                busy || k < self.stack.len() - 1,
                self.pending,
            )
        &&& busy ==> self.pending is None
    }

    pub open spec fn wf(self) -> bool {
        self.sound(self.events) && self.frames(false)
    }

    /// Nothing is under way.
    pub open spec fn idle(self) -> bool {
        self.stack.len() == 0 && self.pending is None
    }
}

// ---------------------------------------------------------------------
// Sums
// ---------------------------------------------------------------------

pub proof fn lemma_evictions_update(arena: Seq<NodeView>, i: int, n: NodeView)
    requires
        0 <= i < arena.len(),
    ensures
        total_evictions(arena.update(i, n)) == total_evictions(arena) - evictions_at(arena[i])
            + evictions_at(n),
    decreases arena.len(),
{
    let after = arena.update(i, n);
    if i == arena.len() - 1 {
        assert(after.drop_last() =~= arena.drop_last());
    } else {
        assert(after.drop_last() =~= arena.drop_last().update(i, n));
        lemma_evictions_update(arena.drop_last(), i, n);
    }
}

pub proof fn lemma_evictions_push(arena: Seq<NodeView>, n: NodeView)
    ensures
        total_evictions(arena.push(n)) == total_evictions(arena) + evictions_at(n),
{
    assert(arena.push(n).drop_last() =~= arena);
}

/// A node without an array has no open one.
proof fn lemma_none_open(stack: Seq<FrameView>, arena: Seq<NodeView>, id: int)
    requires
        0 <= id < arena.len(),
        arena[id].array is None,
        forall|k: int|
            0 <= k < stack.len() ==> ((#[trigger] stack[k]) matches FrameView::Array { node, .. }
                ==> arena[node].array is Some),
    ensures
        open_elements(stack, id) == 0,
    decreases stack.len(),
{
    if stack.len() > 0 {
        let below = stack.drop_last();
        assert forall|k: int| 0 <= k < below.len() implies ((
        #[trigger] below[k]) matches FrameView::Array { node, .. } ==> arena[node].array is Some) by {
            assert(below[k] == stack[k]);
        }
        lemma_none_open(below, arena, id);
        assert(stack[stack.len() - 1] == stack.last());
    }
}

pub proof fn lemma_open_push(stack: Seq<FrameView>, f: FrameView, id: int)
    ensures
        open_elements(stack.push(f), id) == open_elements(stack, id) + match f {
            FrameView::Array { node, children, .. } => if node == id {
                children.len() as int
            } else {
                0
            },
            FrameView::Object { .. } => 0,
        },
{
    assert(stack.push(f).drop_last() =~= stack);
}

// ---------------------------------------------------------------------
// Nodes
// ---------------------------------------------------------------------

proof fn lemma_node_grows(n: NodeView, id: int, size: int, size2: int, caps: Caps, e: u64, e2: u64)
    requires
        n.wf(id, size, caps, e),
        size <= size2,
        e <= e2,
    ensures
        n.wf(id, size2, caps, e2),
{
    if let Some(o) = n.object {
        assert forall|i: int| 0 <= i < o.fields.len() implies id < (#[trigger] o.fields[i]).1
            < size2 by {}
    }
    if let Some(a) = n.array {
        assert forall|i: int| 0 <= i < a.positional.len() implies id < #[trigger] a.positional[i]
            < size2 by {}
    }
}

proof fn lemma_empty_node(id: int, size: int, caps: Caps, e: u64)
    ensures
        NodeView::empty().wf(id, size, caps, e),
{
}

/// Another node in place of one: what else holds stays.
pub proof fn lemma_put(s: State, id: int, n: NodeView, e: u64, e2: u64, busy: bool)
    requires
        s.sound(e),
        s.frames(busy),
        e <= e2,
        0 <= id < s.arena.len(),
        n.wf(id, s.arena.len() as int, s.policy.caps(), e2),
        clustered(n, open_elements(s.stack, id)),
        evictions_at(n) == evictions_at(s.arena[id]),
        s.arena[id].array is Some ==> n.array is Some,
        s.arena[id].object is Some ==> n.object is Some,
    ensures
        s.put(id, n).sound(e2),
        s.put(id, n).frames(busy),
{
    let t = s.put(id, n);
    lemma_evictions_update(s.arena, id, n);
    assert forall|i: int| 0 <= i < t.arena.len() implies (#[trigger] t.arena[i]).wf(
        i,
        t.arena.len() as int,
        t.policy.caps(),
        e2,
    ) && clustered(t.arena[i], open_elements(t.stack, i)) by {
        if i != id {
            assert(t.arena[i] == s.arena[i]);
            lemma_node_grows(
                s.arena[i],
                i,
                s.arena.len() as int,
                s.arena.len() as int,
                s.policy.caps(),
                e,
                e2,
            );
        }
    }
    assert forall|k: int| 0 <= k < t.stack.len() implies frame_ok(
        #[trigger] t.stack[k],
        t.arena,
        busy || k < t.stack.len() - 1,
        t.pending,
    ) by {
        assert(frame_ok(s.stack[k], s.arena, busy || k < s.stack.len() - 1, s.pending));
    }
}

/// One more node.
pub proof fn lemma_grown(s: State, e: u64, busy: bool)
    requires
        s.sound(e),
        s.frames(busy),
    ensures
        s.grown().sound(e),
        s.grown().frames(busy),
{
    let t = s.grown();
    lemma_evictions_push(s.arena, NodeView::empty());
    assert forall|i: int| 0 <= i < t.arena.len() implies (#[trigger] t.arena[i]).wf(
        i,
        t.arena.len() as int,
        t.policy.caps(),
        e,
    ) && clustered(t.arena[i], open_elements(t.stack, i)) by {
        if i < s.arena.len() {
            assert(t.arena[i] == s.arena[i]);
            lemma_node_grows(
                s.arena[i],
                i,
                s.arena.len() as int,
                t.arena.len() as int,
                s.policy.caps(),
                e,
                e,
            );
        } else {
            lemma_empty_node(i, t.arena.len() as int, t.policy.caps(), e);
        }
    }
    assert forall|k: int| 0 <= k < t.stack.len() implies frame_ok(
        #[trigger] t.stack[k],
        t.arena,
        busy || k < t.stack.len() - 1,
        t.pending,
    ) by {
        assert(frame_ok(s.stack[k], s.arena, busy || k < s.stack.len() - 1, s.pending));
    }
}

/// One more node, and another one in place of node `id`.
proof fn lemma_put_grown(s: State, id: int, n: NodeView, e: u64, busy: bool)
    requires
        s.sound(e),
        s.frames(busy),
        0 <= id < s.arena.len(),
        n.wf(id, (s.arena.len() + 1) as int, s.policy.caps(), e),
        clustered(n, open_elements(s.stack, id)),
        evictions_at(n) == evictions_at(s.arena[id]),
        s.arena[id].array is Some ==> n.array is Some,
        s.arena[id].object is Some ==> n.object is Some,
    ensures
        s.put(id, n).grown().sound(e),
        s.put(id, n).grown().frames(busy),
{
    lemma_grown(s, e, busy);
    lemma_put(s.grown(), id, n, e, e, busy);
    assert(s.put(id, n).grown() =~= s.grown().put(id, n));
}

// ---------------------------------------------------------------------
// Events
// ---------------------------------------------------------------------

proof fn lemma_element_node(s: State, id: int, position: int, e: u64)
    requires
        s.sound(e),
        s.frames(true),
        0 <= id < s.arena.len(),
        s.arena[id].array is Some,
        position >= 0,
    ensures
        ({
            let (t, child) = s.element_node(id, position);
            &&& t.sound(e)
            &&& t.frames(true)
            &&& id < child < t.arena.len()
        }),
{
    let a = s.array_at(id);
    let n = s.arena[id];
    let size = s.arena.len() as int;
    assert(n.wf(id, size, s.policy.caps(), e));
    assert(clustered(n, open_elements(s.stack, id)));
    if a.positional_alive && position >= a.positional.len() {
        if position >= s.policy.positional_view_cap {
            let b = ArrayView { positional_alive: false, ..a };
            lemma_put(s, id, NodeView { array: Some(b), ..n }, e, e, true);
        } else {
            let b = ArrayView { positional: a.positional.push(size), ..a };
            lemma_node_grows(n, id, size, size + 1, s.policy.caps(), e, e);
            assert forall|i: int| 0 <= i < b.positional.len() implies id
                < #[trigger] b.positional[i] < size + 1 by {
                if i < a.positional.len() {
                    assert(b.positional[i] == a.positional[i]);
                }
            }
            assert(b.wf(id, size + 1, s.policy.caps(), e));
            lemma_put_grown(s, id, NodeView { array: Some(b), ..n }, e, true);
        }
    }
}

pub proof fn lemma_key_node(s: State, id: int, key: Seq<char>, e: u64)
    requires
        s.sound(e),
        s.frames(true),
        0 <= id < s.arena.len(),
        s.arena[id].object is Some,
    ensures
        ({
            let (t, child) = s.key_node(id, key);
            &&& t.sound(e)
            &&& t.frames(true)
            &&& id < child < t.arena.len()
            &&& t.arena[id].object is Some
            &&& t.object_at(id).key_stats == s.object_at(id).key_stats
            &&& t.object_at(id).key_count_sum == s.object_at(id).key_count_sum
        }),
{
    let o = s.object_at(id);
    let n = s.arena[id];
    let size = s.arena.len() as int;
    assert(n.wf(id, size, s.policy.caps(), e));
    assert(clustered(n, open_elements(s.stack, id)));
    if arena::has_field(o.fields, key) {
        let i = arena::field_of(o.fields, key);
        assert(id < o.fields[i].1 < size);
    } else if o.record_alive && o.fields.len() < s.policy.record_view_cap {
        let p = ObjectView { fields: o.fields.push((key, size)), ..o };
        lemma_node_grows(n, id, size, size + 1, s.policy.caps(), e, e);
        assert forall|i: int| 0 <= i < p.fields.len() implies id < (#[trigger] p.fields[i]).1 < size
            + 1 by {
            if i < o.fields.len() {
                assert(p.fields[i] == o.fields[i]);
            }
        }
        assert forall|i: int, j: int| 0 <= i < j < p.fields.len() implies (#[trigger] p.fields[i]).0
            != (#[trigger] p.fields[j]).0 by {
            assert(p.fields[i] == o.fields[i]);
            if j < o.fields.len() {
                assert(p.fields[j] == o.fields[j]);
            }
        }
        assert(p.wf(id, size + 1, s.policy.caps(), e));
        lemma_put_grown(s, id, NodeView { object: Some(p), ..n }, e, true);
    } else {
        let p = ObjectView { record_alive: false, ..o };
        lemma_put(s, id, NodeView { object: Some(p), ..n }, e, e, true);
    }
}

/// Before a value begins, to where it is under way.
pub proof fn lemma_target(s: State)
    requires
        s.wf(),
        s.takes_value(),
    ensures
        ({
            let (t, id) = s.target();
            &&& t.sound(s.events)
            &&& t.frames(true)
            &&& 0 <= id < t.arena.len()
            &&& id == 0 <==> s.stack.len() == 0
            &&& t.arena[0].obs == s.arena[0].obs
            &&& t.arena.len() >= s.arena.len()
        }),
{
    match s.pending {
        Some(id) => {
            let t = State { pending: None, ..s };
            assert forall|i: int| 0 <= i < t.arena.len() implies (#[trigger] t.arena[i]).wf(
                i,
                t.arena.len() as int,
                t.policy.caps(),
                s.events,
            ) && clustered(t.arena[i], open_elements(t.stack, i)) by {
                assert(s.arena[i] == t.arena[i]);
            }
            assert forall|k: int| 0 <= k < t.stack.len() implies frame_ok(
                #[trigger] t.stack[k],
                t.arena,
                true,
                t.pending,
            ) by {
                assert(frame_ok(s.stack[k], s.arena, k < s.stack.len() - 1, s.pending));
            }
        },
        None => {
            let top = s.stack.last();
            let k = s.stack.len() - 1;
            assert(s.stack[k] == top);
            assert(frame_ok(top, s.arena, false, s.pending));
            if let FrameView::Array { node, position, children } = top {
                let f = FrameView::Array { node, position: (position + 1) as u32, children };
                let below = s.stack.drop_last();
                let t = State { stack: below.push(f), ..s };
                assert forall|i: int| 0 <= i < t.arena.len() implies (#[trigger] t.arena[i]).wf(
                    i,
                    t.arena.len() as int,
                    t.policy.caps(),
                    s.events,
                ) && clustered(t.arena[i], open_elements(t.stack, i)) by {
                    assert(s.arena[i] == t.arena[i]);
                    lemma_open_push(below, f, i);
                    lemma_open_push(below, top, i);
                    assert(below.push(top) =~= s.stack);
                }
                assert forall|k: int| 0 <= k < t.stack.len() implies frame_ok(
                    #[trigger] t.stack[k],
                    t.arena,
                    true,
                    t.pending,
                ) by {
                    assert(frame_ok(s.stack[k], s.arena, k < s.stack.len() - 1, s.pending));
                }
                lemma_element_node(t, node, position as int, s.events);
            }
        },
    }
}

/// The node of the value that begins can count it, and what it holds of it
/// is what it held before.
pub proof fn lemma_target_node(s: State)
    requires
        s.wf(),
        s.takes_value(),
    ensures
        ({
            let (t, id) = s.target();
            &&& t.arena[id].wf(id, t.arena.len() as int, t.policy.caps(), s.events)
            &&& t.policy == s.policy
            &&& t.events == s.events
            &&& t.bounds == s.bounds
            &&& t.current_doc == s.current_doc
        }),
{
    lemma_target(s);
    let (t, id) = s.target();
    assert(t.arena[id] == t.arena[id]);
}

/// Every cluster can count one more element within `e` events.
pub open spec fn roomy(s: State, e: u64) -> bool {
    &&& s.evictions < e
    &&& forall|i: int|
        0 <= i < s.arena.len() ==> ((#[trigger] s.arena[i]).array matches Some(a)
            ==> a.element_cluster.observations < e)
}

/// An element displaces a cluster or none, and there is room to count it.
pub proof fn lemma_element_evictions(s: State, id: int, v: SigView, e: u64)
    requires
        s.sound(e),
        roomy(s, e),
        s.policy.cluster_cap > 0,
        0 <= id < s.arena.len(),
        s.arena[id].array is Some,
    ensures
        ({
            let a = s.array_at(id).element_cluster;
            let b = a.observe(v);
            &&& a.wf()
            &&& a.observations < u64::MAX
            &&& b.evictions == a.evictions || b.evictions == a.evictions + 1
            &&& s.evictions < u64::MAX
        }),
{
    let n = s.arena[id];
    assert(n.wf(id, s.arena.len() as int, s.policy.caps(), e));
    assert(s.arena[id].array is Some);
}

/// A value is complete: what was under way is so no longer.
pub proof fn lemma_emitted(s: State, v: SigView, e: u64)
    requires
        s.sound(e),
        s.frames(true),
        s.clusters(),
        roomy(s, e),
    ensures
        s.emitted(v).sound(e),
        s.emitted(v).frames(false),
{
    if s.stack.len() > 0 {
        let t = s.emitted(v);
        let below = s.stack.drop_last();
        let top = s.stack.last();
        assert(below.push(top) =~= s.stack);
        assert(s.stack[s.stack.len() - 1] == top);
        assert(frame_ok(top, s.arena, true, s.pending));
        match top {
            FrameView::Array { node, position, children } => {
                let n = s.arena[node];
                let a = s.array_at(node);
                let b = a.with_element(v);
                let m = NodeView { array: Some(b), ..n };
                assert(n.wf(node, s.arena.len() as int, s.policy.caps(), e));
                sketch::lemma_observe_wf(a.element_cluster, v);
                assert(a.element_cluster.evictions <= b.element_cluster.evictions
                    <= a.element_cluster.evictions + 1);
                lemma_evictions_update(s.arena, node, m);
                let f = t.stack.last();
                assert forall|i: int| 0 <= i < t.arena.len() implies (#[trigger] t.arena[i]).wf(
                    i,
                    t.arena.len() as int,
                    t.policy.caps(),
                    e,
                ) && clustered(t.arena[i], open_elements(t.stack, i)) by {
                    lemma_open_push(below, f, i);
                    lemma_open_push(below, top, i);
                    assert(s.arena[i].wf(i, s.arena.len() as int, s.policy.caps(), e));
                    assert(clustered(s.arena[i], open_elements(s.stack, i)));
                    if i == node {
                        assert(t.arena[i] == m);
                    } else {
                        assert(t.arena[i] == s.arena[i]);
                    }
                }
            },
            FrameView::Object { node, pending_key, members } => {
                let f = t.stack.last();
                assert forall|i: int| 0 <= i < t.arena.len() implies (#[trigger] t.arena[i]).wf(
                    i,
                    t.arena.len() as int,
                    t.policy.caps(),
                    e,
                ) && clustered(t.arena[i], open_elements(t.stack, i)) by {
                    lemma_open_push(below, f, i);
                    lemma_open_push(below, top, i);
                    assert(s.arena[i].wf(i, s.arena.len() as int, s.policy.caps(), e));
                }
            },
        }
        assert forall|k: int| 0 <= k < t.stack.len() implies frame_ok(
            #[trigger] t.stack[k],
            t.arena,
            k < t.stack.len() - 1,
            t.pending,
        ) by {
            assert(frame_ok(s.stack[k], s.arena, true, s.pending));
            if k < t.stack.len() - 1 {
                assert(t.stack[k] == s.stack[k]);
            }
        }
    }
}

/// A scalar at node `id`, of which `n` is the node with it.
pub proof fn lemma_scalar_done(s: State, id: int, n: NodeView, kind: ScalarKind, e: u64)
    requires
        s.sound(e),
        s.frames(true),
        s.clusters(),
        e < u64::MAX,
        0 <= id < s.arena.len(),
        n.balanced(),
        n.obs == s.arena[id].obs + 1,
        n.object == s.arena[id].object,
        n.array == s.arena[id].array,
    ensures
        s.put(id, n).sound((e + 1) as u64),
        s.put(id, n).frames(true),
        roomy(s.put(id, n), (e + 1) as u64),
        s.put(id, n).emitted(SigView::Scalar(kind)).sound((e + 1) as u64),
        s.put(id, n).emitted(SigView::Scalar(kind)).frames(false),
{
    let e2 = (e + 1) as u64;
    let size = s.arena.len() as int;
    let before = s.arena[id];
    assert(before.wf(id, size, s.policy.caps(), e));
    assert(clustered(before, open_elements(s.stack, id)));
    lemma_node_grows(before, id, size, size, s.policy.caps(), e, e2);
    assert(n.wf(id, size, s.policy.caps(), e2));
    lemma_put(s, id, n, e, e2, true);
    let t = s.put(id, n);
    assert forall|i: int| 0 <= i < t.arena.len() implies ((#[trigger] t.arena[i]).array matches Some(
        a,
    ) ==> a.element_cluster.observations < e2) by {
        assert(s.arena[i].wf(i, size, s.policy.caps(), e));
    }
    lemma_emitted(t, SigView::Scalar(kind), e2);
}

pub proof fn lemma_node_scalar(n: NodeView, doc: u64, kind: ScalarKind)
    requires
        n.balanced(),
        n.obs < u64::MAX,
        !(kind is String),
        kind is Null || kind is Bool,
    ensures
        n.seen(doc).with_scalar(kind).balanced(),
{
}

pub proof fn lemma_node_number(
    n: NodeView,
    doc: u64,
    kind: ScalarKind,
    v: Double,
    exact: bool,
    bounds: Seq<u64>,
)
    requires
        n.balanced(),
        n.obs < u64::MAX,
        kind is I64 || kind is U64 || kind is F64,
    ensures
        n.seen(doc).with_scalar(kind).with_number(v, exact, bounds).balanced(),
        n.numeric_stats matches Some(ns) ==> ns.count < u64::MAX,
{
    let before = match n.numeric_stats {
        Some(ns) => ns,
        None => stats::NumericStatsView::empty(),
    };
    stats::lemma_number_observe_wf(before, v, exact, bounds);
}

pub proof fn lemma_node_text(n: NodeView, doc: u64, t: Seq<char>, bounds: Seq<u64>)
    requires
        n.balanced(),
        n.obs < u64::MAX,
    ensures
        n.seen(doc).with_scalar(ScalarKind::String).with_string(t, bounds).balanced(),
        n.string_stats matches Some(ss) ==> ss.count < u64::MAX,
{
    let before = match n.string_stats {
        Some(ss) => ss,
        None => stats::StringStatsView::empty(),
    };
    assert(stats::StringStatsView::empty().wf());
    stats::lemma_string_observe_wf(before, t, bounds);
}

pub proof fn lemma_scalar(s: State, kind: ScalarKind)
    requires
        s.wf(),
        s.takes_value(),
        s.clusters(),
        s.events < u64::MAX,
        kind is Null || kind is Bool,
    ensures
        s.scalar(kind).sound((s.events + 1) as u64),
        s.scalar(kind).frames(false),
{
    lemma_target(s);
    let (t, id) = s.target();
    assert(t.arena[id].wf(id, t.arena.len() as int, t.policy.caps(), s.events));
    lemma_node_scalar(t.arena[id], s.current_doc, kind);
    lemma_scalar_done(
        t,
        id,
        t.arena[id].seen(s.current_doc).with_scalar(kind),
        kind,
        s.events,
    );
}

pub proof fn lemma_number(s: State, kind: ScalarKind, v: Double)
    requires
        s.wf(),
        s.takes_value(),
        s.clusters(),
        s.events < u64::MAX,
        kind is I64 || kind is U64 || kind is F64,
    ensures
        s.number(kind, v).sound((s.events + 1) as u64),
        s.number(kind, v).frames(false),
{
    lemma_target(s);
    let (t, id) = s.target();
    let exact = kind != ScalarKind::F64;
    assert(t.arena[id].wf(id, t.arena.len() as int, t.policy.caps(), s.events));
    lemma_node_number(t.arena[id], s.current_doc, kind, v, exact, s.bounds);
    lemma_scalar_done(
        t,
        id,
        t.arena[id].seen(s.current_doc).with_scalar(kind).with_number(v, exact, s.bounds),
        kind,
        s.events,
    );
}

pub proof fn lemma_text(s: State, x: Seq<char>)
    requires
        s.wf(),
        s.takes_value(),
        s.clusters(),
        s.events < u64::MAX,
    ensures
        s.text(x).sound((s.events + 1) as u64),
        s.text(x).frames(false),
{
    lemma_target(s);
    let (t, id) = s.target();
    assert(t.arena[id].wf(id, t.arena.len() as int, t.policy.caps(), s.events));
    lemma_node_text(t.arena[id], s.current_doc, x, s.bounds);
    lemma_scalar_done(
        t,
        id,
        t.arena[id].seen(s.current_doc).with_scalar(ScalarKind::String).with_string(x, s.bounds),
        ScalarKind::String,
        s.events,
    );
}

/// A container begins: one more frame, and the frames below are engaged.
proof fn lemma_frame_pushed(s: State, f: FrameView, e: u64)
    requires
        s.sound(e),
        s.frames(true),
        frame_ok(f, s.arena, false, None),
        f matches FrameView::Array { children, .. } ==> children.len() == 0,
    ensures
        (State { stack: s.stack.push(f), ..s }).sound(e),
        (State { stack: s.stack.push(f), ..s }).frames(false),
{
    let t = State { stack: s.stack.push(f), ..s };
    assert forall|i: int| 0 <= i < t.arena.len() implies (#[trigger] t.arena[i]).wf(
        i,
        t.arena.len() as int,
        t.policy.caps(),
        e,
    ) && clustered(t.arena[i], open_elements(t.stack, i)) by {
        assert(s.arena[i] == t.arena[i]);
        lemma_open_push(s.stack, f, i);
    }
    assert forall|k: int| 0 <= k < t.stack.len() implies frame_ok(
        #[trigger] t.stack[k],
        t.arena,
        k < t.stack.len() - 1,
        t.pending,
    ) by {
        if k < s.stack.len() {
            assert(frame_ok(s.stack[k], s.arena, true, s.pending));
        }
    }
}

pub proof fn lemma_with_array(s: State, id: int, e: u64)
    requires
        s.sound(e),
        s.frames(true),
        0 <= id < s.arena.len(),
    ensures
        s.with_array(id).sound(e),
        s.with_array(id).frames(true),
        s.with_array(id).arena.len() >= s.arena.len(),
        s.with_array(id).arena[id].array is Some,
{
    if s.arena[id].array is None {
        let n = s.arena[id];
        let size = s.arena.len() as int;
        let a = ArrayView::empty(size, s.policy.cluster_cap as int);
        assert(n.wf(id, size, s.policy.caps(), e));
        lemma_node_grows(n, id, size, size + 1, s.policy.caps(), e, e);
        assert forall|k: int| 0 <= k < s.stack.len() implies ((
        #[trigger] s.stack[k]) matches FrameView::Array { node, .. } ==> s.arena[node].array is Some) by {
            assert(frame_ok(s.stack[k], s.arena, true, s.pending));
        }
        lemma_none_open(s.stack, s.arena, id);
        let m = NodeView { array: Some(a), ..n };
        assert(a.wf(id, size + 1, s.policy.caps(), e));
        lemma_put_grown(s, id, m, e, true);
    }
}

pub proof fn lemma_with_object(s: State, id: int, e: u64)
    requires
        s.sound(e),
        s.frames(true),
        0 <= id < s.arena.len(),
    ensures
        s.with_object(id).sound(e),
        s.with_object(id).frames(true),
        s.with_object(id).arena.len() >= s.arena.len(),
        s.with_object(id).arena[id].object is Some,
{
    if s.arena[id].object is None {
        let n = s.arena[id];
        let size = s.arena.len() as int;
        let o = ObjectView::empty(size);
        assert(n.wf(id, size, s.policy.caps(), e));
        assert(clustered(n, open_elements(s.stack, id)));
        lemma_node_grows(n, id, size, size + 1, s.policy.caps(), e, e);
        let m = NodeView { object: Some(o), ..n };
        assert(stats::StringStatsView::empty().wf());
        assert(o.wf(id, size + 1, s.policy.caps(), e));
        lemma_put_grown(s, id, m, e, true);
    }
}

pub proof fn lemma_array_begun(s: State)
    requires
        s.wf(),
        s.takes_value(),
        s.events < u64::MAX,
    ensures
        s.array_begun().sound((s.events + 1) as u64),
        s.array_begun().frames(false),
{
    let e = s.events;
    let e2 = (e + 1) as u64;
    lemma_target(s);
    let (r, id) = s.target();
    lemma_with_array(r, id, e);
    let t = r.with_array(id);
    let size = t.arena.len() as int;
    let before = t.arena[id];
    let a = t.array_at(id);
    let n = NodeView {
        array: Some(ArrayView { obs: (a.obs + 1) as u64, ..a }),
        ..before.seen(s.current_doc)
    };
    assert(before.wf(id, size, t.policy.caps(), e));
    assert(clustered(before, open_elements(t.stack, id)));
    lemma_node_grows(before, id, size, size, t.policy.caps(), e, e2);
    assert(n.wf(id, size, t.policy.caps(), e2));
    lemma_put(t, id, n, e, e2, true);
    lemma_frame_pushed(
        t.put(id, n),
        FrameView::Array { node: id, position: 0, children: Seq::empty() },
        e2,
    );
}

pub proof fn lemma_object_begun(s: State)
    requires
        s.wf(),
        s.takes_value(),
        s.events < u64::MAX,
    ensures
        s.object_begun().sound((s.events + 1) as u64),
        s.object_begun().frames(false),
{
    let e = s.events;
    let e2 = (e + 1) as u64;
    lemma_target(s);
    let (r, id) = s.target();
    lemma_with_object(r, id, e);
    let t = r.with_object(id);
    let size = t.arena.len() as int;
    let before = t.arena[id];
    let o = t.object_at(id);
    let n = NodeView {
        object: Some(ObjectView { obs: (o.obs + 1) as u64, ..o }),
        ..before.seen(s.current_doc)
    };
    assert(before.wf(id, size, t.policy.caps(), e));
    assert(clustered(before, open_elements(t.stack, id)));
    lemma_node_grows(before, id, size, size, t.policy.caps(), e, e2);
    assert(n.wf(id, size, t.policy.caps(), e2));
    lemma_put(t, id, n, e, e2, true);
    lemma_frame_pushed(
        t.put(id, n),
        FrameView::Object { node: id, pending_key: None, members: Seq::empty() },
        e2,
    );
}

/// A container ends: its frame goes, and the value under way is the
/// container itself. The elements of an array go to the sum of its lengths.
proof fn lemma_frame_popped(s: State, id: int, n: NodeView, e: u64, e2: u64)
    requires
        s.sound(e),
        s.frames(false),
        s.stack.len() > 0,
        s.pending is None,
        e <= e2,
        0 <= id < s.arena.len(),
        n.wf(id, s.arena.len() as int, s.policy.caps(), e2),
        clustered(n, open_elements(s.stack.drop_last(), id)),
        s.stack.last() matches FrameView::Array { node, .. } ==> node == id,
        evictions_at(n) == evictions_at(s.arena[id]),
        s.arena[id].array is Some ==> n.array is Some,
        s.arena[id].object is Some ==> n.object is Some,
    ensures
        ({
            let t = State { stack: s.stack.drop_last(), ..s };
            &&& t.put(id, n).sound(e2)
            &&& t.put(id, n).frames(true)
        }),
{
    let below = s.stack.drop_last();
    let top = s.stack.last();
    assert(below.push(top) =~= s.stack);
    let t = (State { stack: below, ..s }).put(id, n);
    lemma_evictions_update(s.arena, id, n);
    assert forall|i: int| 0 <= i < t.arena.len() implies (#[trigger] t.arena[i]).wf(
        i,
        t.arena.len() as int,
        t.policy.caps(),
        e2,
    ) && clustered(t.arena[i], open_elements(t.stack, i)) by {
        if i != id {
            assert(t.arena[i] == s.arena[i]);
            lemma_node_grows(
                s.arena[i],
                i,
                s.arena.len() as int,
                s.arena.len() as int,
                s.policy.caps(),
                e,
                e2,
            );
            lemma_open_push(below, top, i);
            assert(clustered(s.arena[i], open_elements(s.stack, i)));
        }
    }
    assert forall|k: int| 0 <= k < t.stack.len() implies frame_ok(
        #[trigger] t.stack[k],
        t.arena,
        true,
        t.pending,
    ) by {
        assert(t.stack[k] == s.stack[k]);
        assert(frame_ok(s.stack[k], s.arena, k < s.stack.len() - 1, s.pending));
    }
}

proof fn lemma_roomy(s: State, t: State, e: u64)
    requires
        s.sound(e),
        e < u64::MAX,
        t.evictions == s.evictions,
        t.arena.len() == s.arena.len(),
        forall|i: int|
            0 <= i < s.arena.len() ==> ((#[trigger] t.arena[i]).array matches Some(a)
                ==> s.arena[i].array is Some && s.arena[i].array->Some_0.element_cluster
                == a.element_cluster),
    ensures
        roomy(t, (e + 1) as u64),
{
    assert forall|i: int| 0 <= i < t.arena.len() implies ((#[trigger] t.arena[i]).array matches Some(
        a,
    ) ==> a.element_cluster.observations < (e + 1) as u64) by {
        assert(s.arena[i].wf(i, s.arena.len() as int, s.policy.caps(), e));
    }
}

/// An array is closed, and is itself the value under way.
pub proof fn lemma_array_ended_under_way(s: State)
    requires
        s.wf(),
        s.events < u64::MAX,
        s.stack.len() > 0,
        s.stack.last() is Array,
    ensures
        s.stack.last() matches FrameView::Array { node, position, .. } ==> ({
            let t = (State { stack: s.stack.drop_last(), ..s }).put_array(
                node,
                s.array_at(node).with_length(position, s.bounds),
            );
            &&& t.sound((s.events + 1) as u64)
            &&& t.frames(true)
            &&& roomy(t, (s.events + 1) as u64)
            &&& s.array_at(node).length_sum + position <= s.array_at(
                node,
            ).element_cluster.observations
        }),
{
    let e = s.events;
    let e2 = (e + 1) as u64;
    let top = s.stack.last();
    let below = s.stack.drop_last();
    assert(s.stack[s.stack.len() - 1] == top);
    assert(frame_ok(top, s.arena, false, s.pending));
    assert(below.push(top) =~= s.stack);
    if let FrameView::Array { node, position, children } = top {
        let n = s.arena[node];
        let size = s.arena.len() as int;
        let a = s.array_at(node);
        assert(n.wf(node, size, s.policy.caps(), e));
        assert(clustered(n, open_elements(s.stack, node)));
        lemma_open_push(below, top, node);
        lemma_open_nonneg(below, node);
        lemma_node_grows(n, node, size, size, s.policy.caps(), e, e2);
        let b = a.with_length(position, s.bounds);
        dist::lemma_observe_wf(a.length_sketch, stats::whole(position as int), s.bounds);
        let m = NodeView { array: Some(b), ..n };
        assert(b.wf(node, size, s.policy.caps(), e2));
        assert(m.wf(node, size, s.policy.caps(), e2));
        lemma_frame_popped(s, node, m, e, e2);
        let t = (State { stack: below, ..s }).put(node, m);
        lemma_roomy(s, t, e);
    }
}

pub proof fn lemma_array_ended(s: State)
    requires
        s.wf(),
        s.events < u64::MAX,
        s.stack.len() > 0,
        s.stack.last() is Array,
        s.closed().clusters(),
    ensures
        s.array_ended().sound((s.events + 1) as u64),
        s.array_ended().frames(false),
        s.stack.last() matches FrameView::Array { node, position, .. } ==> s.array_at(
            node,
        ).length_sum + position <= s.array_at(node).element_cluster.observations,
{
    lemma_array_ended_under_way(s);
    if let FrameView::Array { node, position, children } = s.stack.last() {
        let t = (State { stack: s.stack.drop_last(), ..s }).put_array(
            node,
            s.array_at(node).with_length(position, s.bounds),
        );
        lemma_emitted(
            t,
            SigView::Array(Box::new(canon::homogenized(children))),
            (s.events + 1) as u64,
        );
    }
}

proof fn lemma_open_nonneg(stack: Seq<FrameView>, id: int)
    ensures
        open_elements(stack, id) >= 0,
    decreases stack.len(),
{
    if stack.len() > 0 {
        lemma_open_nonneg(stack.drop_last(), id);
    }
}

/// An object is closed, and is itself the value under way.
pub proof fn lemma_object_ended_under_way(s: State)
    requires
        s.wf(),
        s.events < u64::MAX,
        s.stack.len() > 0,
        s.stack.last() is Object,
        s.pending is None,
    ensures
        s.stack.last() matches FrameView::Object { node, members, .. } ==> ({
            let o = s.object_at(node);
            let sketch = o.key_count_sketch.observe(stats::whole(members.len() as int), s.bounds);
            let t = (State { stack: s.stack.drop_last(), ..s }).put_object(
                node,
                ObjectView { key_count_sketch: sketch, ..o },
            );
            &&& t.sound((s.events + 1) as u64)
            &&& t.frames(true)
            &&& roomy(t, (s.events + 1) as u64)
        }),
{
    let e = s.events;
    let e2 = (e + 1) as u64;
    let top = s.stack.last();
    let below = s.stack.drop_last();
    assert(s.stack[s.stack.len() - 1] == top);
    assert(frame_ok(top, s.arena, false, s.pending));
    assert(below.push(top) =~= s.stack);
    if let FrameView::Object { node, pending_key, members } = top {
        let n = s.arena[node];
        let size = s.arena.len() as int;
        let o = s.object_at(node);
        assert(n.wf(node, size, s.policy.caps(), e));
        assert(clustered(n, open_elements(s.stack, node)));
        lemma_open_push(below, top, node);
        lemma_node_grows(n, node, size, size, s.policy.caps(), e, e2);
        let count = stats::whole(members.len() as int);
        dist::lemma_observe_wf(o.key_count_sketch, count, s.bounds);
        let p = ObjectView { key_count_sketch: o.key_count_sketch.observe(count, s.bounds), ..o };
        let m = NodeView { object: Some(p), ..n };
        assert(p.wf(node, size, s.policy.caps(), e2));
        assert(m.wf(node, size, s.policy.caps(), e2));
        lemma_frame_popped(s, node, m, e, e2);
        let t = (State { stack: below, ..s }).put(node, m);
        lemma_roomy(s, t, e);
    }
}

pub proof fn lemma_object_ended(s: State)
    requires
        s.wf(),
        s.events < u64::MAX,
        s.stack.len() > 0,
        s.stack.last() is Object,
        s.pending is None,
        s.closed().clusters(),
    ensures
        s.object_ended().sound((s.events + 1) as u64),
        s.object_ended().frames(false),
{
    lemma_object_ended_under_way(s);
    if let FrameView::Object { node, pending_key, members } = s.stack.last() {
        let o = s.object_at(node);
        let sketch = o.key_count_sketch.observe(stats::whole(members.len() as int), s.bounds);
        let t = (State { stack: s.stack.drop_last(), ..s }).put_object(
            node,
            ObjectView { key_count_sketch: sketch, ..o },
        );
        lemma_emitted(
            t,
            SigView::Record(canon::sorted_fields(members)),
            (s.events + 1) as u64,
        );
    }
}

/// The state with the key noted, before its node is looked up.
pub proof fn lemma_key_noted(s: State, key: Seq<char>)
    requires
        s.wf(),
        s.stack.len() > 0,
        s.stack.last() is Object,
        s.pending is None,
    ensures
        s.stack.last() matches FrameView::Object { node, members, .. } ==> ({
            let t = State {
                stack: s.stack.drop_last().push(
                    FrameView::Object { node, pending_key: Some(key), members },
                ),
                ..s
            };
            &&& t.sound(s.events)
            &&& t.frames(true)
            &&& 0 <= node < t.arena.len()
            &&& t.arena[node].object is Some
        }),
{
    let top = s.stack.last();
    let below = s.stack.drop_last();
    assert(s.stack[s.stack.len() - 1] == top);
    assert(frame_ok(top, s.arena, false, s.pending));
    assert(below.push(top) =~= s.stack);
    if let FrameView::Object { node, pending_key, members } = top {
        let f = FrameView::Object { node, pending_key: Some(key), members };
        let t = State { stack: below.push(f), ..s };
        assert forall|i: int| 0 <= i < t.arena.len() implies (#[trigger] t.arena[i]).wf(
            i,
            t.arena.len() as int,
            t.policy.caps(),
            s.events,
        ) && clustered(t.arena[i], open_elements(t.stack, i)) by {
            assert(s.arena[i] == t.arena[i]);
            lemma_open_push(below, f, i);
            lemma_open_push(below, top, i);
        }
        assert forall|k: int| 0 <= k < t.stack.len() implies frame_ok(
            #[trigger] t.stack[k],
            t.arena,
            true,
            t.pending,
        ) by {
            assert(frame_ok(s.stack[k], s.arena, k < s.stack.len() - 1, s.pending));
        }
    }
}

pub proof fn lemma_key_given(s: State, key: Seq<char>)
    requires
        s.wf(),
        s.events < u64::MAX,
        s.stack.len() > 0,
        s.stack.last() is Object,
        s.pending is None,
    ensures
        s.key_given(key).sound((s.events + 1) as u64),
        s.key_given(key).frames(false),
{
    let e = s.events;
    let e2 = (e + 1) as u64;
    lemma_key_noted(s, key);
    if let FrameView::Object { node, pending_key, members } = s.stack.last() {
        let f = FrameView::Object { node, pending_key: Some(key), members };
        let r = State { stack: s.stack.drop_last().push(f), ..s };
        lemma_key_node(r, node, key, e);
        let (t, child) = r.key_node(node, key);
        let n = t.arena[node];
        let size = t.arena.len() as int;
        let o = t.object_at(node);
        assert(n.wf(node, size, t.policy.caps(), e));
        assert(clustered(n, open_elements(t.stack, node)));
        lemma_node_grows(n, node, size, size, t.policy.caps(), e, e2);
        stats::lemma_string_observe_wf(o.key_stats, key, s.bounds);
        let p = o.with_key(key, s.bounds);
        let m = NodeView { object: Some(p), ..n };
        assert(p.wf(node, size, t.policy.caps(), e2));
        assert(m.wf(node, size, t.policy.caps(), e2));
        lemma_put(t, node, m, e, e2, true);
        let u = t.put(node, m);
        let v = State { pending: Some(child), ..u };
        assert forall|i: int| 0 <= i < v.arena.len() implies (#[trigger] v.arena[i]).wf(
            i,
            v.arena.len() as int,
            v.policy.caps(),
            e2,
        ) && clustered(v.arena[i], open_elements(v.stack, i)) by {
            assert(u.arena[i] == v.arena[i]);
        }
        assert(u.stack.last() == f);
        assert forall|k: int| 0 <= k < v.stack.len() implies frame_ok(
            #[trigger] v.stack[k],
            v.arena,
            k < v.stack.len() - 1,
            v.pending,
        ) by {
            assert(frame_ok(u.stack[k], u.arena, true, u.pending));
            if k == v.stack.len() - 1 {
                assert(v.stack[k] == f);
            }
        }
    }
}

/// What holds of a state holds of it with the number of events brought up to
/// date.
proof fn lemma_counted(s: State, e: u64, latest: int)
    requires
        s.sound(e),
        s.frames(false),
    ensures
        (State { events: e, latest, ..s }).wf(),
{
    let t = State { events: e, latest, ..s };
    assert forall|i: int| 0 <= i < t.arena.len() implies (#[trigger] t.arena[i]).wf(
        i,
        t.arena.len() as int,
        t.policy.caps(),
        e,
    ) && clustered(t.arena[i], open_elements(t.stack, i)) by {
        assert(s.arena[i] == t.arena[i]);
    }
    assert forall|k: int| 0 <= k < t.stack.len() implies frame_ok(
        #[trigger] t.stack[k],
        t.arena,
        k < t.stack.len() - 1,
        t.pending,
    ) by {
        assert(frame_ok(s.stack[k], s.arena, k < s.stack.len() - 1, s.pending));
    }
}

/// A document begins or ends: only what is pending changes, and the count of
/// the documents.
proof fn lemma_document(s: State, t: State)
    requires
        s.wf(),
        s.events < u64::MAX,
        s.stack.len() == 0,
        t == (State {
            current_doc: t.current_doc,
            doc_count: t.doc_count,
            pending: t.pending,
            ..s
        }),
        t.doc_count <= s.doc_count + 1,
        t.pending matches Some(id) ==> id == 0,
    ensures
        t.sound((s.events + 1) as u64),
        t.frames(false),
{
    let e2 = (s.events + 1) as u64;
    assert forall|i: int| 0 <= i < t.arena.len() implies (#[trigger] t.arena[i]).wf(
        i,
        t.arena.len() as int,
        t.policy.caps(),
        e2,
    ) && clustered(t.arena[i], open_elements(t.stack, i)) by {
        assert(s.arena[i] == t.arena[i]);
        lemma_node_grows(
            s.arena[i],
            i,
            s.arena.len() as int,
            s.arena.len() as int,
            s.policy.caps(),
            s.events,
            e2,
        );
    }
}

/// Every event that the analyzer accepts keeps the invariant: nodes are
/// balanced and within the caps, children are younger than their parents,
/// every array element is clustered once, and the evictions are those of all
/// the clusters.
pub proof fn law_events_keep_the_invariant(s: State, e: EventView)
    requires
        s.wf(),
        s.accepts(e),
    ensures
        s.step(e).wf(),
{
    let e2 = (s.events + 1) as u64;
    match e {
        EventView::DocumentBegin(doc) => {
            let t = State {
                current_doc: doc,
                doc_count: (s.doc_count + 1) as u64,
                pending: Some(0),
                ..s
            };
            lemma_document(s, t);
            lemma_counted(t, e2, s.step(e).latest);
        },
        EventView::DocumentEnd => {
            let t = State { pending: None, ..s };
            lemma_document(s, t);
            lemma_counted(t, e2, s.step(e).latest);
        },
        EventView::Null => {
            lemma_scalar(s, ScalarKind::Null);
            lemma_counted(s.scalar(ScalarKind::Null), e2, s.step(e).latest);
        },
        EventView::Bool(_) => {
            lemma_scalar(s, ScalarKind::Bool);
            lemma_counted(s.scalar(ScalarKind::Bool), e2, s.step(e).latest);
        },
        EventView::I64(v) => {
            lemma_number(s, ScalarKind::I64, stats::whole(v as int));
            lemma_counted(s.number(ScalarKind::I64, stats::whole(v as int)), e2, s.step(e).latest);
        },
        EventView::U64(v) => {
            lemma_number(s, ScalarKind::U64, stats::whole(v as int));
            lemma_counted(s.number(ScalarKind::U64, stats::whole(v as int)), e2, s.step(e).latest);
        },
        EventView::F64(v) => {
            lemma_number(s, ScalarKind::F64, v);
            lemma_counted(s.number(ScalarKind::F64, v), e2, s.step(e).latest);
        },
        EventView::Text(t) => {
            lemma_text(s, t);
            lemma_counted(s.text(t), e2, s.step(e).latest);
        },
        EventView::ArrayBegin => {
            lemma_array_begun(s);
            lemma_counted(s.array_begun(), e2, s.step(e).latest);
        },
        EventView::ArrayEnd => {
            lemma_array_ended(s);
            lemma_counted(s.array_ended(), e2, s.step(e).latest);
        },
        EventView::ObjectBegin => {
            lemma_object_begun(s);
            lemma_counted(s.object_begun(), e2, s.step(e).latest);
        },
        EventView::ObjectKey(key) => {
            lemma_key_given(s, key);
            lemma_counted(s.key_given(key), e2, s.step(e).latest);
        },
        EventView::ObjectEnd => {
            lemma_object_ended(s);
            lemma_counted(s.object_ended(), e2, s.step(e).latest);
        },
    }
}

/// A fresh analyzer keeps the invariant.
pub proof fn law_invariant_holds_at_first(policy: PolicyView, bounds: Seq<u64>)
    ensures
        State::initial(policy, bounds).wf(),
        State::initial(policy, bounds).idle(),
{
    let s = State::initial(policy, bounds);
    lemma_evictions_push(Seq::empty(), NodeView::empty());
    assert(Seq::empty().push(NodeView::empty()) =~= s.arena);
    lemma_empty_node(0, 1, policy.caps(), 0);
}

} // verus!
