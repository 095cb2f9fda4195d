//! The streaming analyzer.
use crate::analyze::arena;
use crate::analyze::arena::{ArrayAcc, ArrayView, Node, NodeId, NodeView, ObjectAcc, ObjectView};
use crate::analyze::canon;
use crate::analyze::dist::Buckets;
use crate::analyze::machine::{AnalyzerPolicy, FrameView, PolicyView, State};
use crate::analyze::sig;
use crate::analyze::sig::{ScalarKind, Sig};
use crate::analyze::outline;
use crate::analyze::summary;
use crate::analyze::tokens;
use crate::analyze::tokens::{Token, TokenView};
use crate::analyze::upkeep;
use crate::double::Double;
use crate::analyze::finish;
use crate::ingest::{Analyzer, EventView, JsonEventSink};
use crate::node::{ShapeNode, ShapeView};
use vstd::prelude::*;

pub mod saved;

verus! {

#[derive(Debug)]
enum Frame {
    /// Object container. As keys arrive and values complete, child
    /// signatures accumulate here.
    Object { node: NodeId, pending_key: Option<String>, members: Vec<(String, Sig)> },
    /// Array container. As elements complete, their signatures feed the array
    /// node's cluster sketch and accumulate here.
    Array { node: NodeId, position: u32, children: Vec<Sig> },
}

spec fn key_view(k: Option<String>) -> Option<Seq<char>> {
    match k {
        Some(k) => Some(k@),
        None => None,
    }
}

spec fn frame_view(f: Frame) -> FrameView {
    match f {
        Frame::Object { node, pending_key, members } => FrameView::Object {
            node: node as int,
            pending_key: key_view(pending_key),
            members: sig::fields_view(members@),
        },
        Frame::Array { node, position, children } => FrameView::Array {
            node: node as int,
            position,
            children: sig::arms_view(children@),
        },
    }
}

spec fn frames_view(v: Seq<Frame>) -> Seq<FrameView> {
    v.map_values(|f: Frame| frame_view(f))
}

spec fn pending_view(p: Option<NodeId>) -> Option<int> {
    match p {
        Some(id) => Some(id as int),
        None => None,
    }
}

/// What is known of the nodes of an arena.
pub open spec fn nodes(v: Seq<Node>) -> Seq<NodeView> {
    v.map_values(|n: Node| n@)
}

#[derive(Debug)]
pub struct StreamingAnalyzer {
    arena: Vec<Node>,
    doc_count: u64,
    current_doc: u64,
    pending: Option<NodeId>,
    stack: Vec<Frame>,
    policy: AnalyzerPolicy,
    /// Sum of the evictions across every cluster sketch in the arena.
    /// Maintained incrementally; consulted by `should_bail`.
    total_cluster_evictions: u64,
    events: u64,
    latest: NodeId,
    buckets: Buckets,
}

impl View for StreamingAnalyzer {
    type V = State;

    closed spec fn view(&self) -> State {
        State {
            arena: nodes(self.arena@),
            doc_count: self.doc_count,
            current_doc: self.current_doc,
            pending: pending_view(self.pending),
            stack: frames_view(self.stack@),
            policy: self.policy@,
            evictions: self.total_cluster_evictions,
            events: self.events,
            latest: self.latest as int,
            bounds: self.buckets@,
        }
    }
}

impl StreamingAnalyzer {
    pub closed spec fn buckets_ok(&self) -> bool {
        self.buckets.wf()
    }

    fn alloc_node(&mut self) -> (id: NodeId)
        ensures
            final(self)@ == old(self)@.grown(),
            id == old(self)@.arena.len(),
            final(self).buckets_ok() == old(self).buckets_ok(),
    {
        let id: usize = self.arena.len();
        self.arena.push(Node::new());
        assert(self@ =~= old(self)@.grown());
        id
    }

    fn take_array(&mut self, node: NodeId) -> (acc: ArrayAcc)
        requires
            node < old(self)@.arena.len(),
            old(self)@.arena[node as int].array is Some,
        ensures
            final(self)@ == old(self)@.put(
                node as int,
                NodeView { array: None, ..old(self)@.arena[node as int] },
            ),
            acc@ == old(self)@.array_at(node as int),
            final(self).buckets_ok() == old(self).buckets_ok(),
    {
        let acc = match self.arena[node].array.take() {
            Some(a) => a,
            None => {
                assert(false);
                ArrayAcc::new(0, 1)
            },
        };
        assert(self@ =~= old(self)@.put(
            node as int,
            NodeView { array: None, ..old(self)@.arena[node as int] },
        ));
        acc
    }

    fn set_array(&mut self, node: NodeId, acc: ArrayAcc)
        requires
            node < old(self)@.arena.len(),
        ensures
            final(self)@ == old(self)@.put_array(node as int, acc@),
            final(self).buckets_ok() == old(self).buckets_ok(),
    {
        self.arena[node].array = Some(acc);
        assert(self@ =~= old(self)@.put_array(node as int, acc@));
    }

    fn take_object(&mut self, node: NodeId) -> (acc: ObjectAcc)
        requires
            node < old(self)@.arena.len(),
            old(self)@.arena[node as int].object is Some,
        ensures
            final(self)@ == old(self)@.put(
                node as int,
                NodeView { object: None, ..old(self)@.arena[node as int] },
            ),
            acc@ == old(self)@.object_at(node as int),
            final(self).buckets_ok() == old(self).buckets_ok(),
    {
        let acc = match self.arena[node].object.take() {
            Some(o) => o,
            None => {
                assert(false);
                ObjectAcc::new(0)
            },
        };
        assert(self@ =~= old(self)@.put(
            node as int,
            NodeView { object: None, ..old(self)@.arena[node as int] },
        ));
        acc
    }

    fn set_object(&mut self, node: NodeId, acc: ObjectAcc)
        requires
            node < old(self)@.arena.len(),
        ensures
            final(self)@ == old(self)@.put_object(node as int, acc@),
            final(self).buckets_ok() == old(self).buckets_ok(),
    {
        self.arena[node].object = Some(acc);
        assert(self@ =~= old(self)@.put_object(node as int, acc@));
    }

    fn array_child(&mut self, node: NodeId, position: u32) -> (id: NodeId)
        requires
            node < old(self)@.arena.len(),
            old(self)@.arena[node as int].array is Some,
        ensures
            (final(self)@, id as int) == old(self)@.element_node(node as int, position as int),
            final(self).buckets_ok() == old(self).buckets_ok(),
    {
        let ghost start = self@;
        let ghost a = start.array_at(node as int);
        let cap: usize = self.policy.positional_view_cap;
        let mut acc = self.take_array(node);
        let bag_value: usize = acc.bag_value;
        let id: usize;
        if !acc.positional_alive {
            id = bag_value;
        } else if (position as usize) < acc.positional.len() {
            id = acc.positional[position as usize];
        } else if (position as usize) >= cap {
            acc.positional_alive = false;
            id = bag_value;
            assert(acc@ =~= ArrayView { positional_alive: false, ..a });
        } else {
            id = self.alloc_node();
            acc.positional.push(id);
            assert(acc@ =~= ArrayView { positional: a.positional.push(id as int), ..a });
        }
        self.set_array(node, acc);
        assert(self@ =~= start.element_node(node as int, position as int).0);
        id
    }

    fn object_child_for_key(&mut self, node: NodeId, key: &String) -> (id: NodeId)
        requires
            node < old(self)@.arena.len(),
            old(self)@.arena[node as int].object is Some,
            arena::distinct_names(old(self)@.object_at(node as int).fields),
        ensures
            (final(self)@, id as int) == old(self)@.key_node(node as int, key@),
            final(self).buckets_ok() == old(self).buckets_ok(),
    {
        let ghost start = self@;
        let ghost o = start.object_at(node as int);
        let cap: usize = self.policy.record_view_cap;
        let mut acc = self.take_object(node);
        let id: usize;
        match acc.find(key) {
            Some(child) => {
                id = child;
            },
            None => {
                if acc.record_alive && acc.fields.len() < cap {
                    id = self.alloc_node();
                    acc.fields.push((key.clone(), id));
                    assert(acc@ =~= ObjectView { fields: o.fields.push((key@, id as int)), ..o });
                } else {
                    acc.record_alive = false;
                    id = acc.map_value;
                    assert(acc@ =~= ObjectView { record_alive: false, ..o });
                }
            },
        }
        self.set_object(node, acc);
        assert(self@ =~= start.key_node(node as int, key@).0);
        id
    }

    fn consume_target(&mut self) -> (id: NodeId)
        requires
            old(self)@.wf(),
            old(self)@.takes_value(),
        ensures
            (final(self)@, id as int) == old(self)@.target(),
            final(self).buckets_ok() == old(self).buckets_ok(),
    {
        let ghost start = self@;
        let pending: Option<usize> = self.pending;
        match pending {
            Some(id) => {
                self.pending = None;
                assert(self@ =~= start.target().0);
                id
            },
            None => {
                assert(start.stack.last() == frame_view(self.stack@.last()));
                assert(upkeep::frame_ok(
                    start.stack[start.stack.len() - 1],
                    start.arena,
                    false,
                    start.pending,
                ));
                match self.stack.pop() {
                    Some(Frame::Array { node, position, children }) => {
                        let next = Frame::Array { node, position: position + 1, children };
                        let ghost f = frame_view(next);
                        self.stack.push(next);
                        assert(self@ =~= State { stack: start.stack.drop_last().push(f), ..start });
                        self.array_child(node, position)
                    },
                    _ => {
                        assert(false);
                        0
                    },
                }
            },
        }
    }

    /// A child value has just completed. Inform the parent frame (the
    /// container we're inside): for arrays, push into the element cluster
    /// sketch and accumulate; for objects, attach to the pending key. If
    /// there's no parent frame, the value was a root document: nothing to
    /// report.
    fn emit_child_sig(&mut self, s: Sig, Ghost(e): Ghost<u64>)
        requires
            old(self)@.sound(e),
            old(self)@.frames(true),
            old(self)@.clusters(),
            upkeep::roomy(old(self)@, e),
        ensures
            final(self)@ == old(self)@.emitted(s@),
            final(self).buckets_ok() == old(self).buckets_ok(),
    {
        let ghost start = self@;
        let ghost v = s@;
        match self.stack.pop() {
            None => {
                assert(self@ =~= start);
            },
            Some(frame) => {
                proof {
                    let k = start.stack.len() - 1;
                    assert(start.stack.last() == frame_view(frame));
                    assert(start.stack[k] == frame_view(frame));
                    assert(upkeep::frame_ok(start.stack[k], start.arena, true, start.pending));
                    assert(frames_view(self.stack@) =~= start.stack.drop_last());
                }
                match frame {
                    Frame::Array { node, position, mut children } => {
                        proof {
                            assert(start.arena[node as int].wf(
                                node as int,
                                start.arena.len() as int,
                                start.policy.caps(),
                                e,
                            ));
                        }
                        let ghost before = children@;
                        children.push(s.copied());
                        assert(children@.drop_last() =~= before);
                        let ghost f = frame_view(Frame::Array { node, position, children });
                        self.stack.push(Frame::Array { node, position, children });
                        let mut acc = self.take_array(node);
                        let evicted = acc.add_element(s);
                        proof {
                            upkeep::lemma_element_evictions(start, node as int, v, e);
                        }
                        if evicted {
                            self.total_cluster_evictions += 1;
                        }
                        self.set_array(node, acc);
                        assert(self@.stack =~= start.stack.drop_last().push(f));
                        assert(self@.arena =~= start.emitted(v).arena);
                        assert(self@ =~= start.emitted(v));
                    },
                    Frame::Object { node, pending_key, mut members } => {
                        let ghost before = members@;
                        match pending_key {
                            Some(key) => {
                                members.push((key, s));
                                assert(members@.drop_last() =~= before);
                                let ghost f = frame_view(
                                    Frame::Object { node, pending_key: None, members },
                                );
                                self.stack.push(Frame::Object { node, pending_key: None, members });
                                assert(self@.stack =~= start.stack.drop_last().push(f));
                                assert(self@ =~= start.emitted(v));
                            },
                            None => {
                                assert(false);
                            },
                        }
                    },
                }
            },
        }
    }

    fn observe_scalar(&mut self, kind: ScalarKind)
        requires
            old(self)@.wf(),
            old(self)@.takes_value(),
            old(self)@.clusters(),
            old(self)@.events < u64::MAX,
            kind is Null || kind is Bool,
        ensures
            final(self)@ == old(self)@.scalar(kind),
            final(self).buckets_ok() == old(self).buckets_ok(),
    {
        let ghost start = self@;
        let ghost e = start.events;
        let doc: u64 = self.current_doc;
        proof {
            upkeep::lemma_target(start);
        }
        let t: usize = self.consume_target();
        let ghost mid = self@;
        let ghost n = mid.arena[t as int].seen(doc).with_scalar(kind);
        proof {
            upkeep::lemma_target_node(start);
            upkeep::lemma_node_scalar(mid.arena[t as int], doc, kind);
            upkeep::lemma_scalar_done(mid, t as int, n, kind, e);
        }
        self.arena[t].see(doc);
        self.arena[t].add_scalar(kind);
        assert(self@ =~= mid.put(t as int, n));
        self.emit_child_sig(Sig::Scalar(kind), Ghost((e + 1) as u64));
    }

    fn observe_number(&mut self, kind: ScalarKind, value: Double) -> (id: NodeId)
        requires
            old(self)@.wf(),
            old(self)@.takes_value(),
            old(self)@.clusters(),
            old(self)@.events < u64::MAX,
            old(self).buckets_ok(),
            kind is I64 || kind is U64 || kind is F64,
        ensures
            final(self)@ == old(self)@.number(kind, value),
            id == old(self)@.target().1,
            final(self).buckets_ok(),
    {
        let ghost start = self@;
        let ghost e = start.events;
        let doc: u64 = self.current_doc;
        let exact: bool = kind != ScalarKind::F64;
        proof {
            upkeep::lemma_target(start);
        }
        let t: usize = self.consume_target();
        let ghost mid = self@;
        let ghost n = mid.arena[t as int].seen(doc).with_scalar(kind).with_number(
            value,
            exact,
            start.bounds,
        );
        proof {
            upkeep::lemma_target_node(start);
            upkeep::lemma_node_number(mid.arena[t as int], doc, kind, value, exact, start.bounds);
            upkeep::lemma_scalar_done(mid, t as int, n, kind, e);
        }
        self.arena[t].see(doc);
        self.arena[t].add_scalar(kind);
        self.arena[t].add_number(value, exact, &self.buckets);
        assert(self@ =~= mid.put(t as int, n));
        self.emit_child_sig(Sig::Scalar(kind), Ghost((e + 1) as u64));
        t
    }

    fn observe_string(&mut self, s: &str)
        requires
            old(self)@.wf(),
            old(self)@.takes_value(),
            old(self)@.clusters(),
            old(self)@.events < u64::MAX,
            old(self).buckets_ok(),
        ensures
            final(self)@ == old(self)@.text(s@),
            final(self).buckets_ok(),
    {
        let ghost start = self@;
        let ghost e = start.events;
        let doc: u64 = self.current_doc;
        proof {
            upkeep::lemma_target(start);
        }
        let t: usize = self.consume_target();
        let ghost mid = self@;
        let ghost n = mid.arena[t as int].seen(doc).with_scalar(ScalarKind::String).with_string(
            s@,
            start.bounds,
        );
        proof {
            upkeep::lemma_target_node(start);
            upkeep::lemma_node_text(mid.arena[t as int], doc, s@, start.bounds);
            upkeep::lemma_scalar_done(mid, t as int, n, ScalarKind::String, e);
        }
        self.arena[t].see(doc);
        self.arena[t].add_scalar(ScalarKind::String);
        self.arena[t].add_string(s, &self.buckets);
        assert(self@ =~= mid.put(t as int, n));
        self.emit_child_sig(Sig::Scalar(ScalarKind::String), Ghost((e + 1) as u64));
    }

    fn ensure_array(&mut self, id: NodeId)
        requires
            id < old(self)@.arena.len(),
        ensures
            final(self)@ == old(self)@.with_array(id as int),
            final(self).buckets_ok() == old(self).buckets_ok(),
    {
        if self.arena[id].array.is_none() {
            let cap: usize = self.policy.cluster_cap;
            let bag_value: usize = self.alloc_node();
            self.set_array(id, ArrayAcc::new(bag_value, cap));
        }
        assert(self@ =~= old(self)@.with_array(id as int));
    }

    fn ensure_object(&mut self, id: NodeId)
        requires
            id < old(self)@.arena.len(),
        ensures
            final(self)@ == old(self)@.with_object(id as int),
            final(self).buckets_ok() == old(self).buckets_ok(),
    {
        if self.arena[id].object.is_none() {
            let map_value: usize = self.alloc_node();
            self.set_object(id, ObjectAcc::new(map_value));
        }
        assert(self@ =~= old(self)@.with_object(id as int));
    }

    fn begin_array(&mut self)
        requires
            old(self)@.wf(),
            old(self)@.takes_value(),
            old(self)@.events < u64::MAX,
        ensures
            final(self)@ == old(self)@.array_begun(),
            final(self).buckets_ok() == old(self).buckets_ok(),
    {
        let ghost start = self@;
        let doc: u64 = self.current_doc;
        proof {
            upkeep::lemma_target(start);
            upkeep::lemma_target_node(start);
        }
        let t: usize = self.consume_target();
        let ghost mid = self@;
        proof {
            upkeep::lemma_with_array(mid, t as int, start.events);
        }
        self.ensure_array(t);
        let ghost made = self@;
        proof {
            assert(made.arena[t as int].wf(
                t as int,
                made.arena.len() as int,
                made.policy.caps(),
                start.events,
            ));
        }
        self.arena[t].see(doc);
        let mut acc = self.take_array(t);
        acc.obs += 1;
        let ghost a = made.array_at(t as int);
        assert(acc@ =~= ArrayView { obs: (a.obs + 1) as u64, ..a });
        self.set_array(t, acc);
        let frame = Frame::Array { node: t, position: 0, children: Vec::new() };
        let ghost f = frame_view(frame);
        self.stack.push(frame);
        assert(self@.stack =~= made.stack.push(f));
        assert(self@.arena =~= start.array_begun().arena);
        assert(self@ =~= start.array_begun());
    }

    fn begin_object(&mut self)
        requires
            old(self)@.wf(),
            old(self)@.takes_value(),
            old(self)@.events < u64::MAX,
        ensures
            final(self)@ == old(self)@.object_begun(),
            final(self).buckets_ok() == old(self).buckets_ok(),
    {
        let ghost start = self@;
        let doc: u64 = self.current_doc;
        proof {
            upkeep::lemma_target(start);
            upkeep::lemma_target_node(start);
        }
        let t: usize = self.consume_target();
        let ghost mid = self@;
        proof {
            upkeep::lemma_with_object(mid, t as int, start.events);
        }
        self.ensure_object(t);
        let ghost made = self@;
        proof {
            assert(made.arena[t as int].wf(
                t as int,
                made.arena.len() as int,
                made.policy.caps(),
                start.events,
            ));
        }
        self.arena[t].see(doc);
        let mut acc = self.take_object(t);
        acc.obs += 1;
        let ghost o = made.object_at(t as int);
        assert(acc@ =~= ObjectView { obs: (o.obs + 1) as u64, ..o });
        self.set_object(t, acc);
        let frame = Frame::Object { node: t, pending_key: None, members: Vec::new() };
        let ghost f = frame_view(frame);
        self.stack.push(frame);
        assert(self@.stack =~= made.stack.push(f));
        assert(self@.arena =~= start.object_begun().arena);
        assert(self@ =~= start.object_begun());
    }

    fn end_array(&mut self)
        requires
            old(self)@.wf(),
            old(self)@.accepts(EventView::ArrayEnd),
            old(self).buckets_ok(),
        ensures
            final(self)@ == old(self)@.array_ended(),
            final(self).buckets_ok(),
    {
        let ghost start = self@;
        let ghost e2 = (start.events + 1) as u64;
        proof {
            upkeep::lemma_array_ended(start);
            let k = start.stack.len() - 1;
            assert(start.stack[k] == frame_view(self.stack@[k]));
            assert(upkeep::frame_ok(start.stack[k], start.arena, false, start.pending));
        }
        match self.stack.pop() {
            Some(Frame::Array { node, position, children }) => {
                let ghost elements = sig::arms_view(children@);
                assert(frames_view(self.stack@) =~= start.stack.drop_last());
                proof {
                    assert(start.arena[node as int].wf(
                        node as int,
                        start.arena.len() as int,
                        start.policy.caps(),
                        start.events,
                    ));
                }
                let mut acc = self.take_array(node);
                acc.add_length(position, &self.buckets);
                self.set_array(node, acc);
                let ghost ended = (State { stack: start.stack.drop_last(), ..start }).put_array(
                    node as int,
                    start.array_at(node as int).with_length(position, start.bounds),
                );
                assert(self@.arena =~= ended.arena);
                assert(self@ =~= ended);
                proof {
                    upkeep::lemma_array_ended_under_way(start);
                }
                let s = Sig::Array(Box::new(canon::homogenize(children)));
                self.emit_child_sig(s, Ghost(e2));
            },
            _ => {
                assert(false);
            },
        }
    }

    fn end_object(&mut self)
        requires
            old(self)@.wf(),
            old(self)@.accepts(EventView::ObjectEnd),
            old(self).buckets_ok(),
        ensures
            final(self)@ == old(self)@.object_ended(),
            final(self).buckets_ok(),
    {
        let ghost start = self@;
        let ghost e2 = (start.events + 1) as u64;
        proof {
            upkeep::lemma_object_ended(start);
            let k = start.stack.len() - 1;
            assert(start.stack[k] == frame_view(self.stack@[k]));
            assert(upkeep::frame_ok(start.stack[k], start.arena, false, start.pending));
        }
        match self.stack.pop() {
            Some(Frame::Object { node, pending_key, members }) => {
                assert(frames_view(self.stack@) =~= start.stack.drop_last());
                proof {
                    sig::lemma_fields_view(members@);
                    assert(start.arena[node as int].wf(
                        node as int,
                        start.arena.len() as int,
                        start.policy.caps(),
                        start.events,
                    ));
                }
                let ghost o = start.object_at(node as int);
                let mut acc = self.take_object(node);
                let count = Double::from_u64(members.len() as u64);
                acc.key_count_sketch.observe(count, &self.buckets);
                let ghost p = ObjectView {
                    key_count_sketch: o.key_count_sketch.observe(count, start.bounds),
                    ..o
                };
                assert(acc@ =~= p);
                self.set_object(node, acc);
                let ghost ended = (State { stack: start.stack.drop_last(), ..start }).put_object(
                    node as int,
                    p,
                );
                assert(self@.arena =~= ended.arena);
                assert(self@ =~= ended);
                proof {
                    upkeep::lemma_object_ended_under_way(start);
                }
                let s = canon::record_sig(members);
                self.emit_child_sig(s, Ghost(e2));
            },
            _ => {
                assert(false);
            },
        }
    }

    fn give_key(&mut self, key: &str)
        requires
            old(self)@.wf(),
            old(self)@.accepts(EventView::ObjectKey(key@)),
            old(self).buckets_ok(),
        ensures
            final(self)@ == old(self)@.key_given(key@),
            final(self).buckets_ok(),
    {
        let ghost start = self@;
        let name: String = key.to_string();
        proof {
            upkeep::lemma_key_noted(start, key@);
            upkeep::lemma_key_given(start, key@);
            let k = start.stack.len() - 1;
            assert(start.stack[k] == frame_view(self.stack@[k]));
            assert(upkeep::frame_ok(start.stack[k], start.arena, false, start.pending));
        }
        match self.stack.pop() {
            Some(Frame::Object { node, pending_key, members }) => {
                let frame = Frame::Object { node, pending_key: Some(name.clone()), members };
                let ghost f = frame_view(frame);
                self.stack.push(frame);
                let ghost noted = State { stack: start.stack.drop_last().push(f), ..start };
                assert(self@.stack =~= noted.stack);
                assert(self@ =~= noted);
                proof {
                    assert(noted.arena[node as int].wf(
                        node as int,
                        noted.arena.len() as int,
                        noted.policy.caps(),
                        start.events,
                    ));
                    upkeep::lemma_key_node(noted, node as int, key@, start.events);
                }
                let child: usize = self.object_child_for_key(node, &name);
                let ghost found = self@;
                proof {
                    assert(found.arena[node as int].wf(
                        node as int,
                        found.arena.len() as int,
                        found.policy.caps(),
                        start.events,
                    ));
                }
                let mut acc = self.take_object(node);
                acc.add_key(key, &self.buckets);
                self.set_object(node, acc);
                self.pending = Some(child);
                assert(self@.arena =~= start.key_given(key@).arena);
                assert(self@ =~= start.key_given(key@));
            },
            _ => {
                assert(false);
            },
        }
    }
}

impl JsonEventSink for StreamingAnalyzer {
    closed spec fn inv(&self) -> bool {
        self@.wf() && self.buckets.wf()
    }

    open spec fn accepts(s: State, e: EventView) -> bool {
        s.accepts(e)
    }

    open spec fn step(s: State, e: EventView) -> State {
        s.step(e)
    }

    fn document_begin(&mut self, doc_ordinal: u64) {
        let ghost start = self@;
        proof {
            upkeep::law_events_keep_the_invariant(start, EventView::DocumentBegin(doc_ordinal));
        }
        self.current_doc = doc_ordinal;
        self.doc_count += 1;
        self.pending = Some(0);
        self.events += 1;
        assert(self@ =~= start.step(EventView::DocumentBegin(doc_ordinal)));
    }

    fn document_end(&mut self) {
        let ghost start = self@;
        proof {
            upkeep::law_events_keep_the_invariant(start, EventView::DocumentEnd);
        }
        self.pending = None;
        self.events += 1;
        assert(self@ =~= start.step(EventView::DocumentEnd));
    }

    fn null(&mut self) {
        let ghost start = self@;
        proof {
            upkeep::law_events_keep_the_invariant(start, EventView::Null);
        }
        self.observe_scalar(ScalarKind::Null);
        self.events += 1;
        assert(self@ =~= start.step(EventView::Null));
    }

    fn bool(&mut self, v: bool) {
        let ghost start = self@;
        proof {
            upkeep::law_events_keep_the_invariant(start, EventView::Bool(v));
        }
        self.observe_scalar(ScalarKind::Bool);
        self.events += 1;
        assert(self@ =~= start.step(EventView::Bool(v)));
    }

    fn i64(&mut self, v: i64) {
        let ghost start = self@;
        proof {
            upkeep::law_events_keep_the_invariant(start, EventView::I64(v));
        }
        let t: usize = self.observe_number(ScalarKind::I64, Double::from_i64(v));
        self.latest = t;
        self.events += 1;
        assert(self@ =~= start.step(EventView::I64(v)));
    }

    fn u64(&mut self, v: u64) {
        let ghost start = self@;
        proof {
            upkeep::law_events_keep_the_invariant(start, EventView::U64(v));
        }
        let t: usize = self.observe_number(ScalarKind::U64, Double::from_u64(v));
        self.latest = t;
        self.events += 1;
        assert(self@ =~= start.step(EventView::U64(v)));
    }

    fn double(&mut self, v: Double) {
        let ghost start = self@;
        proof {
            upkeep::law_events_keep_the_invariant(start, EventView::F64(v));
        }
        let t: usize = self.observe_number(ScalarKind::F64, v);
        self.latest = t;
        self.events += 1;
        assert(self@ =~= start.step(EventView::F64(v)));
    }

    fn string(&mut self, s: &str) {
        let ghost start = self@;
        proof {
            upkeep::law_events_keep_the_invariant(start, EventView::Text(s@));
        }
        self.observe_string(s);
        self.events += 1;
        assert(self@ =~= start.step(EventView::Text(s@)));
    }

    fn array_begin(&mut self) {
        let ghost start = self@;
        proof {
            upkeep::law_events_keep_the_invariant(start, EventView::ArrayBegin);
        }
        self.begin_array();
        self.events += 1;
        assert(self@ =~= start.step(EventView::ArrayBegin));
    }

    fn array_end(&mut self) {
        let ghost start = self@;
        proof {
            upkeep::law_events_keep_the_invariant(start, EventView::ArrayEnd);
        }
        self.end_array();
        self.events += 1;
        assert(self@ =~= start.step(EventView::ArrayEnd));
    }

    fn object_begin(&mut self) {
        let ghost start = self@;
        proof {
            upkeep::law_events_keep_the_invariant(start, EventView::ObjectBegin);
        }
        self.begin_object();
        self.events += 1;
        assert(self@ =~= start.step(EventView::ObjectBegin));
    }

    fn object_key(&mut self, key: &str) {
        let ghost start = self@;
        proof {
            upkeep::law_events_keep_the_invariant(start, EventView::ObjectKey(key@));
        }
        self.give_key(key);
        self.events += 1;
        assert(self@ =~= start.step(EventView::ObjectKey(key@)));
    }

    fn object_end(&mut self) {
        let ghost start = self@;
        proof {
            upkeep::law_events_keep_the_invariant(start, EventView::ObjectEnd);
        }
        self.end_object();
        self.events += 1;
        assert(self@ =~= start.step(EventView::ObjectEnd));
    }
}

/// The shape at the root.
pub open spec fn root_shape(s: State) -> ShapeView {
    finish::shape_at(s.arena, 0)
}

impl Analyzer for StreamingAnalyzer {
    open spec fn shape(s: State) -> ShapeView {
        root_shape(s)
    }

    fn finish(self) -> (r: ShapeNode) {
        self.build_shape()
    }
}

impl Default for AnalyzerPolicy {
    fn default() -> (p: AnalyzerPolicy)
        ensures
            p@ == PolicyView::usual(),
    {
        AnalyzerPolicy {
            record_view_cap: 64,
            positional_view_cap: 32,
            cluster_cap: 16,
            reason: String::new(),
            max_eviction_rate: None,
            max_docs: None,
            min_docs_before_bail: 100,
        }
    }
}

impl State {
    /// Why the policy says to stop: enough documents, or, after the warmup,
    /// too many evictions per document.
    pub open spec fn bail_reason(self) -> Option<Seq<char>> {
        let capped = self.policy.max_docs matches Some(cap) && self.doc_count >= cap;
        let warm = self.doc_count >= self.policy.min_docs_before_bail;
        let churning = self.policy.max_eviction_rate matches Some(rate) && self.evictions
            * rate.den > rate.num * self.doc_count;
        if capped {
            Some("doc count cap reached"@)
        } else if warm && churning {
            Some("cluster eviction rate exceeded threshold"@)
        } else {
            None
        }
    }
}

impl StreamingAnalyzer {
    pub fn new(buckets: Buckets) -> (a: Self)
        requires
            buckets.wf(),
        ensures
            a@ == State::initial(PolicyView::usual(), buckets@),
            a.inv(),
    {
        let policy = AnalyzerPolicy::default();
        Self::with_policy(policy, buckets)
    }

    pub fn with_policy(policy: AnalyzerPolicy, buckets: Buckets) -> (a: Self)
        requires
            buckets.wf(),
        ensures
            a@ == State::initial(policy@, buckets@),
            a.inv(),
    {
        let mut arena: Vec<Node> = Vec::new();
        arena.push(Node::new());
        let a = StreamingAnalyzer {
            arena,
            doc_count: 0,
            current_doc: 0,
            pending: None,
            stack: Vec::new(),
            policy,
            total_cluster_evictions: 0,
            events: 0,
            latest: 0,
            buckets,
        };
        proof {
            assert(a@ =~= State::initial(policy@, buckets@));
            upkeep::law_invariant_holds_at_first(policy@, buckets@);
        }
        a
    }

    pub fn with_caps(
        record_view_cap: usize,
        positional_view_cap: usize,
        buckets: Buckets,
    ) -> (a: Self)
        requires
            buckets.wf(),
        ensures
            a@ == State::initial(
                (PolicyView { record_view_cap, positional_view_cap, ..PolicyView::usual() }),
                buckets@,
            ),
            a.inv(),
    {
        let mut policy = AnalyzerPolicy::default();
        policy.record_view_cap = record_view_cap;
        policy.positional_view_cap = positional_view_cap;
        Self::with_policy(policy, buckets)
    }

    pub fn policy(&self) -> (p: &AnalyzerPolicy)
        ensures
            p@ == self@.policy,
    {
        &self.policy
    }

    /// Total cluster evictions across the entire arena, useful for chaos
    /// detection.
    pub fn total_cluster_evictions(&self) -> (n: u64)
        requires
            self.inv(),
        ensures
            n == self@.evictions,
            n == upkeep::total_evictions(self@.arena),
    {
        self.total_cluster_evictions
    }

    /// Returns Some(reason) when the policy says we should stop. Bailout is
    /// suppressed for the first `policy.min_docs_before_bail` documents
    /// because the sketches need warmup to make the rate meaningful.
    pub fn should_bail(&self) -> (r: Option<&'static str>)
        ensures
            match r {
                Some(reason) => self@.bail_reason() == Some(reason@),
                None => self@.bail_reason() is None,
            },
    {
        if let Some(cap) = self.policy.max_docs {
            if self.doc_count >= cap {
                return Some("doc count cap reached");
            }
        }
        if self.doc_count < self.policy.min_docs_before_bail {
            return None;
        }
        if let Some(rate) = self.policy.max_eviction_rate {
            let e: u64 = self.total_cluster_evictions;
            let d: u64 = self.doc_count;
            assert(e * rate.den <= u64::MAX * u64::MAX) by (nonlinear_arith)
                requires
                    e <= u64::MAX,
                    rate.den <= u64::MAX,
            ;
            assert(rate.num * d <= u64::MAX * u64::MAX) by (nonlinear_arith)
                requires
                    d <= u64::MAX,
                    rate.num <= u64::MAX,
            ;
            if (e as u128) * (rate.den as u128) > (rate.num as u128) * (d as u128) {
                return Some("cluster eviction rate exceeded threshold");
            }
        }
        None
    }

    pub fn doc_count(&self) -> (n: u64)
        ensures
            n == self@.doc_count,
    {
        self.doc_count
    }

    /// How many events were taken.
    pub fn event_count(&self) -> (n: u64)
        ensures
            n == self@.events,
    {
        self.events
    }

    /// The node of the number that was seen last.
    pub fn latest_number(&self) -> (id: NodeId)
        ensures
            id == self@.latest,
    {
        self.latest
    }

    /// The nodes, of which the first is the root.
    pub fn nodes(&self) -> (v: &Vec<Node>)
        ensures
            nodes(v@) == self@.arena,
    {
        &self.arena
    }

    /// The shape of the documents so far.
    pub fn build_shape(&self) -> (r: ShapeNode)
        requires
            self.inv(),
        ensures
            r@ == root_shape(self@),
    {
        proof {
            finish::lemma_linked(self@);
        }
        finish::build(&self.arena, 0)
    }

    /// A human-readable description of the current state: per-path
    /// observation counts, the dual-view accumulators, the decisions that
    /// would be made at finalization, and the element clusters at each array.
    pub fn report(&self) -> (r: Vec<Token>)
        requires
            self.inv(),
        ensures
            tokens::tokens(r@) == report_tokens(self@),
    {
        let mut out: Vec<Token> = Vec::new();
        proof {
            finish::lemma_linked(self@);
            lemma_summable(self@);
        }
        tokens::put_text(&mut out, "shapez analyzer report \u{2014} ");
        tokens::put_int(&mut out, self.doc_count);
        tokens::put_text(&mut out, " documents\n");
        tokens::put_text(&mut out, "\n");
        summary::write_summary(&mut out, &self.arena, self.doc_count);
        tokens::put_text(&mut out, "\n");
        let root: String = ".".to_string();
        let size: usize = self.arena.len();
        assert(outline::room(size as int, 0, 0));
        outline::write_node(&mut out, &self.arena, 0, &root, 0);
        assert(tokens::tokens(out@) =~= report_tokens(self@));
        out
    }

    /// Plain-language paragraph describing the root shape and the decisions
    /// that resolved it. Callable independently of `report()`.
    pub fn summary(&self) -> (r: Vec<Token>)
        requires
            self.inv(),
        ensures
            tokens::tokens(r@) == summary::summary_tokens(self@.arena, self@.doc_count),
    {
        let mut out: Vec<Token> = Vec::new();
        proof {
            finish::lemma_linked(self@);
            lemma_summable(self@);
        }
        summary::write_summary(&mut out, &self.arena, self.doc_count);
        assert(tokens::tokens(out@) =~= summary::summary_tokens(self@.arena, self@.doc_count));
        out
    }

    /// What holds of an analyzer holds of its state.
    pub proof fn lemma_inv(&self)
        requires
            self.inv(),
        ensures
            self@.wf(),
    {
    }
}

/// The whole report: a title, the summary, and the tree.
pub open spec fn report_tokens(s: State) -> Seq<TokenView> {
    seq![
        tokens::lit("shapez analyzer report \u{2014} "),
        tokens::num(s.doc_count as int),
        tokens::lit(" documents\n"),
        tokens::lit("\n"),
    ] + summary::summary_tokens(s.arena, s.doc_count) + seq![tokens::lit("\n")] + outline::outline(
        s.arena,
        0,
        "."@,
        0,
    )
}

/// The counters of an analyzer can be summed up.
proof fn lemma_summable(s: State)
    requires
        s.wf(),
    ensures
        summary::summable(s.arena),
{
    assert forall|i: int| 0 <= i < s.arena.len() implies (#[trigger] s.arena[i]).scalar_arms.len()
        == 6 && s.arena[i].scalar_obs() <= u64::MAX by {
        assert(s.arena[i].wf(i, s.arena.len() as int, s.policy.caps(), s.events));
    }
}

} // verus!
