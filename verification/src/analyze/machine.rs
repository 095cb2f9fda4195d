//! What the events make of the analyzer.
use crate::analyze::arena;
use crate::analyze::arena::{ArrayView, Caps, NodeView, ObjectView};
use crate::analyze::canon;
use crate::analyze::sig::{ScalarKind, SigView};
use crate::analyze::stats;
use crate::double::Double;
use crate::ingest::EventView;
use vstd::prelude::*;

verus! {

/// A threshold for a rate: `num` out of `den`.
#[derive(Clone, Copy, Debug, PartialEq, Eq, Structural)]
pub struct Rate {
    pub num: u64,
    pub den: u64,
}

/// Operator-tunable policy for an analyzer run. Carries the cost knobs plus
/// an audit-reason string and chaos-bailout thresholds. The defaults are the
/// baseline used by streaming ingest; batch runs override them.
#[derive(Clone, Debug)]
pub struct AnalyzerPolicy {
    pub record_view_cap: usize,
    pub positional_view_cap: usize,
    pub cluster_cap: usize,
    /// Optional audit reason carried through to outputs. Empty for routine
    /// streaming ingest; populated when an operator wants to label a batch
    /// run.
    pub reason: String,
    /// Bail out if total cluster evictions per processed document exceeds
    /// this rate. None disables the check.
    pub max_eviction_rate: Option<Rate>,
    /// Bail out after this many documents have been processed.
    pub max_docs: Option<u64>,
    /// No eviction-rate bailout before this many documents have been seen:
    /// sketches need warmup before their rate is meaningful.
    pub min_docs_before_bail: u64,
}

#[verifier::ext_equal]
pub struct PolicyView {
    pub record_view_cap: usize,
    pub positional_view_cap: usize,
    pub cluster_cap: usize,
    pub reason: Seq<char>,
    pub max_eviction_rate: Option<Rate>,
    pub max_docs: Option<u64>,
    pub min_docs_before_bail: u64,
}

impl PolicyView {
    /// The policy where none was chosen.
    pub open spec fn usual() -> PolicyView {
        PolicyView {
            record_view_cap: 64,
            positional_view_cap: 32,
            cluster_cap: 16,
            reason: Seq::empty(),
            max_eviction_rate: None,
            max_docs: None,
            min_docs_before_bail: 100,
        }
    }
}

impl View for AnalyzerPolicy {
    type V = PolicyView;

    open spec fn view(&self) -> PolicyView {
        PolicyView {
            record_view_cap: self.record_view_cap,
            positional_view_cap: self.positional_view_cap,
            cluster_cap: self.cluster_cap,
            reason: self.reason@,
            max_eviction_rate: self.max_eviction_rate,
            max_docs: self.max_docs,
            min_docs_before_bail: self.min_docs_before_bail,
        }
    }
}

impl AnalyzerPolicy {
    /// A policy that says the same.
    pub fn copied(&self) -> (p: AnalyzerPolicy)
        ensures
            p@ == self@,
    {
        AnalyzerPolicy {
            record_view_cap: self.record_view_cap,
            positional_view_cap: self.positional_view_cap,
            cluster_cap: self.cluster_cap,
            reason: self.reason.clone(),
            max_eviction_rate: self.max_eviction_rate,
            max_docs: self.max_docs,
            min_docs_before_bail: self.min_docs_before_bail,
        }
    }
}

pub enum FrameView {
    /// An object that is open: the key that waits for its value, and the
    /// signatures of the values that are complete.
    Object { node: int, pending_key: Option<Seq<char>>, members: Seq<(Seq<char>, SigView)> },
    /// An array that is open: how many elements have begun, and the
    /// signatures of those that are complete.
    Array { node: int, position: u32, children: Seq<SigView> },
}

#[verifier::ext_equal]
pub struct State {
    /// The nodes. The root is the first.
    pub arena: Seq<NodeView>,
    pub doc_count: u64,
    pub current_doc: u64,
    /// The node of the next value, where that is known.
    pub pending: Option<int>,
    pub stack: Seq<FrameView>,
    pub policy: PolicyView,
    /// How many elements displaced a cluster, over all nodes.
    pub evictions: u64,
    pub events: u64,
    /// The node of the number that was seen last.
    pub latest: int,
    /// The bounds of the buckets of the distribution sketches.
    pub bounds: Seq<u64>,
}

// ---------------------------------------------------------------------
// Steps
// ---------------------------------------------------------------------

impl PolicyView {
    pub open spec fn caps(self) -> Caps {
        Caps {
            fields: self.record_view_cap as int,
            positions: self.positional_view_cap as int,
            clusters: self.cluster_cap as int,
        }
    }
}

impl State {
    pub open spec fn initial(policy: PolicyView, bounds: Seq<u64>) -> State {
        State {
            arena: seq![NodeView::empty()],
            doc_count: 0,
            current_doc: 0,
            pending: None,
            stack: Seq::empty(),
            policy,
            evictions: 0,
            events: 0,
            latest: 0,
            bounds,
        }
    }

    pub open spec fn put(self, id: int, n: NodeView) -> State {
        State { arena: self.arena.update(id, n), ..self }
    }

    pub open spec fn put_object(self, id: int, o: ObjectView) -> State {
        self.put(id, NodeView { object: Some(o), ..self.arena[id] })
    }

    pub open spec fn put_array(self, id: int, a: ArrayView) -> State {
        self.put(id, NodeView { array: Some(a), ..self.arena[id] })
    }

    /// One more node, which is the last.
    pub open spec fn grown(self) -> State {
        State { arena: self.arena.push(NodeView::empty()), ..self }
    }

    pub open spec fn array_at(self, id: int) -> ArrayView {
        self.arena[id].array->Some_0
    }

    pub open spec fn object_at(self, id: int) -> ObjectView {
        self.arena[id].object->Some_0
    }

    /// The node of the element at a position of an array. The positional view
    /// has one node for each position, up to the cap; an array that is longer
    /// drops that view.
    pub open spec fn element_node(self, id: int, position: int) -> (State, int) {
        let a = self.array_at(id);
        if !a.positional_alive {
            (self, a.bag_value)
        } else if position < a.positional.len() {
            (self, a.positional[position])
        } else if position >= self.policy.positional_view_cap {
            (self.put_array(id, ArrayView { positional_alive: false, ..a }), a.bag_value)
        } else {
            let child = self.arena.len() as int;
            (
                self.put_array(
                    id,
                    ArrayView { positional: a.positional.push(child), ..a },
                ).grown(),
                child,
            )
        }
    }

    /// The node of the values of a key of an object. The record view has one
    /// node for each key, up to the cap; one key more drops that view.
    pub open spec fn key_node(self, id: int, key: Seq<char>) -> (State, int) {
        let o = self.object_at(id);
        if arena::has_field(o.fields, key) {
            (self, o.fields[arena::field_of(o.fields, key)].1)
        } else if o.record_alive && o.fields.len() < self.policy.record_view_cap {
            let child = self.arena.len() as int;
            (
                self.put_object(id, ObjectView { fields: o.fields.push((key, child)), ..o }).grown(),
                child,
            )
        } else {
            (self.put_object(id, ObjectView { record_alive: false, ..o }), o.map_value)
        }
    }

    /// The node of the value that begins.
    pub open spec fn target(self) -> (State, int) {
        match self.pending {
            Some(id) => (State { pending: None, ..self }, id),
            None => match self.stack.last() {
                FrameView::Array { node, position, children } => State {
                    stack: self.stack.drop_last().push(
                        FrameView::Array { node, position: (position + 1) as u32, children },
                    ),
                    ..self
                }.element_node(node, position as int),
                FrameView::Object { .. } => (self, 0),
            },
        }
    }

    /// A value with signature `s` is complete: the container that it is in,
    /// if there is one, takes note.
    pub open spec fn emitted(self, s: SigView) -> State {
        if self.stack.len() == 0 {
            self
        } else {
            let below = self.stack.drop_last();
            match self.stack.last() {
                FrameView::Array { node, position, children } => {
                    let a = self.array_at(node);
                    let b = a.with_element(s);
                    State {
                        stack: below.push(
                            FrameView::Array { node, position, children: children.push(s) },
                        ),
                        evictions: (self.evictions + b.element_cluster.evictions
                            - a.element_cluster.evictions) as u64,
                        ..self.put_array(node, b)
                    }
                },
                FrameView::Object { node, pending_key, members } => State {
                    stack: below.push(
                        FrameView::Object {
                            node,
                            pending_key: None,
                            members: members.push((pending_key->Some_0, s)),
                        },
                    ),
                    ..self
                },
            }
        }
    }

    pub open spec fn scalar(self, kind: ScalarKind) -> State {
        let (s, id) = self.target();
        s.put(id, s.arena[id].seen(self.current_doc).with_scalar(kind)).emitted(
            SigView::Scalar(kind),
        )
    }

    pub open spec fn number(self, kind: ScalarKind, v: Double) -> State {
        let (s, id) = self.target();
        let n = s.arena[id].seen(self.current_doc).with_scalar(kind).with_number(
            v,
            kind != ScalarKind::F64,
            self.bounds,
        );
        s.put(id, n).emitted(SigView::Scalar(kind))
    }

    pub open spec fn text(self, t: Seq<char>) -> State {
        let (s, id) = self.target();
        let n = s.arena[id].seen(self.current_doc).with_scalar(ScalarKind::String).with_string(
            t,
            self.bounds,
        );
        s.put(id, n).emitted(SigView::Scalar(ScalarKind::String))
    }

    /// The array accumulator of a node, made where there is none.
    pub open spec fn with_array(self, id: int) -> State {
        match self.arena[id].array {
            Some(_) => self,
            None => self.put_array(
                id,
                ArrayView::empty(self.arena.len() as int, self.policy.cluster_cap as int),
            ).grown(),
        }
    }

    pub open spec fn with_object(self, id: int) -> State {
        match self.arena[id].object {
            Some(_) => self,
            None => self.put_object(id, ObjectView::empty(self.arena.len() as int)).grown(),
        }
    }

    pub open spec fn array_begun(self) -> State {
        let (s, id) = self.target();
        let t = s.with_array(id);
        let a = t.array_at(id);
        let n = NodeView {
            array: Some(ArrayView { obs: (a.obs + 1) as u64, ..a }),
            ..t.arena[id].seen(self.current_doc)
        };
        State {
            stack: t.stack.push(
                FrameView::Array { node: id, position: 0, children: Seq::empty() },
            ),
            ..t.put(id, n)
        }
    }

    pub open spec fn object_begun(self) -> State {
        let (s, id) = self.target();
        let t = s.with_object(id);
        let o = t.object_at(id);
        let n = NodeView {
            object: Some(ObjectView { obs: (o.obs + 1) as u64, ..o }),
            ..t.arena[id].seen(self.current_doc)
        };
        State {
            stack: t.stack.push(
                FrameView::Object { node: id, pending_key: None, members: Seq::empty() },
            ),
            ..t.put(id, n)
        }
    }

    pub open spec fn array_ended(self) -> State {
        match self.stack.last() {
            FrameView::Array { node, position, children } => {
                let s = State { stack: self.stack.drop_last(), ..self };
                s.put_array(node, self.array_at(node).with_length(position, self.bounds)).emitted(
                    SigView::Array(Box::new(canon::homogenized(children))),
                )
            },
            FrameView::Object { .. } => self,
        }
    }

    pub open spec fn key_given(self, key: Seq<char>) -> State {
        match self.stack.last() {
            FrameView::Object { node, pending_key, members } => {
                let s = State {
                    stack: self.stack.drop_last().push(
                        FrameView::Object { node, pending_key: Some(key), members },
                    ),
                    ..self
                };
                let (t, child) = s.key_node(node, key);
                State {
                    pending: Some(child),
                    ..t.put_object(node, t.object_at(node).with_key(key, self.bounds))
                }
            },
            FrameView::Array { .. } => self,
        }
    }

    pub open spec fn object_ended(self) -> State {
        match self.stack.last() {
            FrameView::Object { node, pending_key, members } => {
                let s = State { stack: self.stack.drop_last(), ..self };
                let o = self.object_at(node);
                let sketch = o.key_count_sketch.observe(
                    stats::whole(members.len() as int),
                    self.bounds,
                );
                s.put_object(node, ObjectView { key_count_sketch: sketch, ..o }).emitted(
                    SigView::Record(canon::sorted_fields(members)),
                )
            },
            FrameView::Array { .. } => self,
        }
    }

    /// What an event makes of the analyzer.
    pub open spec fn step(self, e: EventView) -> State {
        let s = match e {
            EventView::DocumentBegin(doc) => State {
                current_doc: doc,
                doc_count: (self.doc_count + 1) as u64,
                pending: Some(0),
                ..self
            },
            EventView::DocumentEnd => State { pending: None, ..self },
            EventView::Null => self.scalar(ScalarKind::Null),
            EventView::Bool(_) => self.scalar(ScalarKind::Bool),
            EventView::I64(v) => self.number(ScalarKind::I64, stats::whole(v as int)),
            EventView::U64(v) => self.number(ScalarKind::U64, stats::whole(v as int)),
            EventView::F64(v) => self.number(ScalarKind::F64, v),
            EventView::Text(t) => self.text(t),
            EventView::ArrayBegin => self.array_begun(),
            EventView::ArrayEnd => self.array_ended(),
            EventView::ObjectBegin => self.object_begun(),
            EventView::ObjectKey(key) => self.key_given(key),
            EventView::ObjectEnd => self.object_ended(),
        };
        let latest = match e {
            EventView::I64(_) | EventView::U64(_) | EventView::F64(_) => self.target().1,
            _ => self.latest,
        };
        State { events: (self.events + 1) as u64, latest, ..s }
    }

    // -----------------------------------------------------------------
    // The protocol
    // -----------------------------------------------------------------

    /// A value can begin: the document's, that of a key, or an element.
    pub open spec fn takes_value(self) -> bool {
        match self.pending {
            Some(_) => true,
            None => self.stack.len() > 0 && match self.stack.last() {
                FrameView::Array { position, .. } => position < u32::MAX,
                FrameView::Object { .. } => false,
            },
        }
    }

    /// The container that is open is closed.
    pub open spec fn closed(self) -> State {
        State { stack: self.stack.drop_last(), ..self }
    }

    /// A value that ends now can be counted where it is an element: the sketch
    /// of an array has room for one.
    pub open spec fn clusters(self) -> bool {
        self.stack.len() > 0 && self.stack.last() is Array ==> self.policy.cluster_cap > 0
    }

    pub open spec fn accepts(self, e: EventView) -> bool {
        self.events < u64::MAX && match e {
            EventView::DocumentBegin(_) => self.stack.len() == 0 && self.pending is None,
            EventView::DocumentEnd => self.stack.len() == 0,
            EventView::ArrayEnd => self.stack.len() > 0 && self.stack.last() is Array
                && self.closed().clusters(),
            EventView::ObjectKey(_) => self.stack.len() > 0 && self.stack.last() is Object
                && self.pending is None,
            EventView::ObjectEnd => self.stack.len() > 0 && self.stack.last() is Object
                && self.pending is None && self.closed().clusters(),
            EventView::ArrayBegin | EventView::ObjectBegin => self.takes_value(),
            _ => self.takes_value() && self.clusters(),
        }
    }
}

} // verus!
