//! What is kept of an analyzer between documents: saved, carried elsewhere,
//! and taken up again.
//!
//! Only an analyzer that is between documents can be saved: what is under way
//! is not kept.
use crate::analyze::arena;
use crate::analyze::arena::{ArrayAcc, Node, NodeId, NodeView, ObjectAcc};
use crate::analyze::dist::Buckets;
use crate::analyze::engine;
use crate::analyze::engine::StreamingAnalyzer;
use crate::analyze::machine::{AnalyzerPolicy, State};
use crate::analyze::upkeep;
use crate::ingest::JsonEventSink;
use crate::tally;
use vstd::prelude::*;

verus! {

// ---------------------------------------------------------------------
// Copies
// ---------------------------------------------------------------------

impl ObjectAcc {
    /// An object that says the same.
    pub fn duplicate(&self) -> (r: Self)
        ensures
            r@ == self@,
    {
        let mut fields: Vec<(String, NodeId)> = Vec::new();
        let mut i: usize = 0;
        while i < self.fields.len()
            invariant
                i <= self.fields@.len(),
                fields@.len() == i,
                forall|j: int|
                    0 <= j < i ==> (#[trigger] fields@[j]).0@ == self.fields@[j].0@ && fields@[j].1
                        == self.fields@[j].1,
            decreases self.fields@.len() - i,
        {
            fields.push((self.fields[i].0.clone(), self.fields[i].1));
            i += 1;
        }
        let r = ObjectAcc {
            obs: self.obs,
            fields,
            record_alive: self.record_alive,
            map_value: self.map_value,
            key_count_sum: self.key_count_sum,
            key_stats: self.key_stats.duplicate(),
            key_count_sketch: self.key_count_sketch.duplicate(),
        };
        assert(r@.fields =~= self@.fields);
        r
    }
}

impl ArrayAcc {
    /// An array that says the same.
    pub fn duplicate(&self) -> (r: Self)
        ensures
            r@ == self@,
    {
        let mut positional: Vec<NodeId> = Vec::new();
        let mut i: usize = 0;
        while i < self.positional.len()
            invariant
                i <= self.positional@.len(),
                positional@.len() == i,
                forall|j: int| 0 <= j < i ==> #[trigger] positional@[j] == self.positional@[j],
            decreases self.positional@.len() - i,
        {
            positional.push(self.positional[i]);
            i += 1;
        }
        let r = ArrayAcc {
            obs: self.obs,
            positional,
            positional_alive: self.positional_alive,
            bag_value: self.bag_value,
            length_sum: self.length_sum,
            min_length: self.min_length,
            max_length: self.max_length,
            length_histogram: self.length_histogram.clone(),
            length_sketch: self.length_sketch.duplicate(),
            element_cluster: self.element_cluster.duplicate(),
        };
        assert(r@.positional =~= self@.positional);
        assert(r@ =~= self@);
        r
    }
}

impl Node {
    /// A node that says the same.
    pub fn duplicate(&self) -> (r: Self)
        ensures
            r@ == self@,
    {
        Node {
            obs: self.obs,
            first_doc: self.first_doc,
            last_doc: self.last_doc,
            scalar_arms: self.scalar_arms,
            string_stats: match &self.string_stats {
                Some(s) => Some(s.duplicate()),
                None => None,
            },
            numeric_stats: match &self.numeric_stats {
                Some(n) => Some(n.duplicate()),
                None => None,
            },
            object: match &self.object {
                Some(o) => Some(o.duplicate()),
                None => None,
            },
            array: match &self.array {
                Some(a) => Some(a.duplicate()),
                None => None,
            },
        }
    }
}

// ---------------------------------------------------------------------
// Whether what was kept can be taken up
// ---------------------------------------------------------------------

/// Whether every id is that of a node younger than `id`.
fn are_younger(ids: &Vec<NodeId>, id: NodeId, size: usize) -> (b: bool)
    ensures
        b == (forall|i: int|
            0 <= i < ids@.len() ==> id < #[trigger] arena::ids(ids@)[i] < size),
{
    let mut i: usize = 0;
    while i < ids.len()
        invariant
            i <= ids@.len(),
            forall|j: int| 0 <= j < i ==> id < #[trigger] arena::ids(ids@)[j] < size,
        decreases ids@.len() - i,
    {
        assert(arena::ids(ids@)[i as int] == ids@[i as int]);
        if ids[i] <= id || ids[i] >= size {
            return false;
        }
        i += 1;
    }
    true
}

impl ObjectAcc {
    /// Whether every field has a name of its own and a node younger than `id`.
    fn are_fields_sound(&self, id: NodeId, size: usize) -> (b: bool)
        ensures
            b == (arena::distinct_names(self@.fields) && forall|i: int|
                0 <= i < self@.fields.len() ==> id < (#[trigger] self@.fields[i]).1 < size),
    {
        let ghost fields = self@.fields;
        let mut i: usize = 0;
        while i < self.fields.len()
            invariant
                i <= self.fields@.len(),
                fields == self@.fields,
                fields.len() == self.fields@.len(),
                forall|j: int| 0 <= j < i ==> id < (#[trigger] fields[j]).1 < size,
                forall|j: int, k: int|
                    0 <= j < k < i ==> (#[trigger] fields[j]).0 != (#[trigger] fields[k]).0,
            decreases self.fields@.len() - i,
        {
            assert(fields[i as int] == (self.fields@[i as int].0@, self.fields@[i as int].1 as int));
            if self.fields[i].1 <= id || self.fields[i].1 >= size {
                return false;
            }
            let mut j: usize = 0;
            while j < i
                invariant
                    j <= i < self.fields@.len(),
                    fields == self@.fields,
                    fields.len() == self.fields@.len(),
                    forall|k: int|
                        0 <= k < j ==> (#[trigger] fields[k]).0 != fields[i as int].0,
                decreases i - j,
            {
                assert(fields[j as int].0 == self.fields@[j as int].0@);
                assert(fields[i as int].0 == self.fields@[i as int].0@);
                if self.fields[j].0 == self.fields[i].0 {
                    return false;
                }
                j += 1;
            }
            i += 1;
        }
        true
    }

    /// Whether the object can be that of node `id` in an arena of `size`
    /// nodes, after `events` events.
    pub fn is_sound(&self, id: NodeId, size: usize, policy: &AnalyzerPolicy, events: u64) -> (b: bool)
        ensures
            b == self@.wf(id as int, size as int, policy@.caps(), events),
    {
        id < self.map_value && self.map_value < size && self.fields.len() <= policy.record_view_cap
            && self.are_fields_sound(id, size) && self.key_count_sum <= events
            && self.key_stats.is_sound() && self.key_stats.count == self.key_count_sum
            && self.key_count_sketch.is_sound() && self.key_count_sketch.count() <= events
    }
}

impl ArrayAcc {
    /// Whether the array can be that of node `id` in an arena of `size`
    /// nodes, after `events` events.
    pub fn is_sound(&self, id: NodeId, size: usize, policy: &AnalyzerPolicy, events: u64) -> (b: bool)
        ensures
            b == self@.wf(id as int, size as int, policy@.caps(), events),
    {
        id < self.bag_value && self.bag_value < size && self.positional.len()
            <= policy.positional_view_cap && are_younger(&self.positional, id, size)
            && self.length_sum <= self.element_cluster.observations() && tally::all_between(
            &self.length_histogram,
            1,
            events,
        ) && self.length_sketch.is_sound() && self.length_sketch.count() <= events
            && self.element_cluster.is_sound() && self.element_cluster.cap() == policy.cluster_cap
            && self.element_cluster.observations() <= events
    }
}

impl Node {
    /// Whether every observation is accounted for.
    fn is_balanced(&self) -> (b: bool)
        ensures
            b == self@.balanced(),
    {
        let arms: &[u64; 6] = &self.scalar_arms;
        let mut seen: u128 = arms[0] as u128 + arms[1] as u128 + arms[2] as u128 + arms[3] as u128
            + arms[4] as u128 + arms[5] as u128;
        if let Some(o) = &self.object {
            seen = seen + o.obs as u128;
        }
        if let Some(a) = &self.array {
            seen = seen + a.obs as u128;
        }
        let numbers: u128 = arms[2] as u128 + arms[3] as u128 + arms[4] as u128;
        self.obs as u128 == seen && (match &self.string_stats {
            Some(s) => s.is_sound() && s.count == arms[5],
            None => arms[5] == 0,
        }) && (match &self.numeric_stats {
            Some(n) => n.is_sound() && n.count as u128 == numbers,
            None => numbers == 0,
        })
    }

    /// Whether the node can be the one at `id` in an arena of `size` nodes,
    /// after `events` events.
    pub fn is_sound(&self, id: NodeId, size: usize, policy: &AnalyzerPolicy, events: u64) -> (b: bool)
        ensures
            b == self@.wf(id as int, size as int, policy@.caps(), events),
    {
        self.is_balanced() && self.obs <= events && (match &self.object {
            Some(o) => o.is_sound(id, size, policy, events),
            None => true,
        }) && (match &self.array {
            Some(a) => a.is_sound(id, size, policy, events),
            None => true,
        })
    }

    /// Whether every element of an array is clustered once, where no array is
    /// open.
    fn is_clustered(&self) -> (b: bool)
        ensures
            b == upkeep::clustered(self@, 0),
    {
        match &self.array {
            Some(a) => a.length_sum == a.element_cluster.observations(),
            None => true,
        }
    }

    /// How often an element displaced a cluster.
    fn displaced(&self) -> (n: u64)
        ensures
            n == upkeep::evictions_at(self@),
    {
        match &self.array {
            Some(a) => a.element_cluster.evictions(),
            None => 0,
        }
    }
}

// ---------------------------------------------------------------------
// Saving and taking up again
// ---------------------------------------------------------------------

/// What is kept of an analyzer that is between documents.
#[derive(Debug)]
pub struct AnalyzerState {
    pub policy: AnalyzerPolicy,
    pub doc_count: u64,
    pub current_doc: u64,
    /// How many elements displaced a cluster, over all nodes.
    pub evictions: u64,
    pub events: u64,
    /// The node of the number that was seen last.
    pub latest: NodeId,
    /// The nodes. The root is the first.
    pub nodes: Vec<Node>,
}

impl AnalyzerState {
    /// The analyzer that goes on from here: nothing is under way in it.
    pub open spec fn resumed(self, bounds: Seq<u64>) -> State {
        State {
            arena: engine::nodes(self.nodes@),
            doc_count: self.doc_count,
            current_doc: self.current_doc,
            pending: None,
            stack: Seq::empty(),
            policy: self.policy@,
            evictions: self.evictions,
            events: self.events,
            latest: self.latest as int,
            bounds,
        }
    }

    /// Whether an analyzer could have been saved like this.
    pub fn is_sound(&self) -> (b: bool)
        ensures
            forall|bounds: Seq<u64>| b == #[trigger] self.resumed(bounds).wf(),
    {
        let ghost s = self.resumed(Seq::empty());
        let size: usize = self.nodes.len();
        let b: bool = size >= 1 && self.doc_count <= self.events
            && self.evictions <= self.events && self.are_nodes_sound();
        proof {
            assert forall|bounds: Seq<u64>| b == #[trigger] self.resumed(bounds).wf() by {
                let t = self.resumed(bounds);
                assert(t.arena == s.arena);
                assert(forall|i: int| upkeep::open_elements(t.stack, i) == 0);
            }
        }
        b
    }

    fn are_nodes_sound(&self) -> (b: bool)
        ensures
            b == {
                let arena = engine::nodes(self.nodes@);
                &&& forall|i: int|
                    0 <= i < arena.len() ==> (#[trigger] arena[i]).wf(
                        i,
                        arena.len() as int,
                        self.policy@.caps(),
                        self.events,
                    )
                &&& forall|i: int|
                    0 <= i < arena.len() ==> upkeep::clustered(#[trigger] arena[i], 0)
                &&& self.evictions == upkeep::total_evictions(arena)
            },
    {
        let ghost arena = engine::nodes(self.nodes@);
        let size: usize = self.nodes.len();
        let mut displaced: u64 = 0;
        let mut i: usize = 0;
        assert(arena.take(0) =~= Seq::empty());
        while i < size
            invariant
                i <= size == self.nodes@.len(),
                arena == engine::nodes(self.nodes@),
                arena.len() == size,
                displaced == upkeep::total_evictions(arena.take(i as int)),
                displaced <= self.evictions,
                forall|j: int|
                    0 <= j < i ==> (#[trigger] arena[j]).wf(
                        j,
                        size as int,
                        self.policy@.caps(),
                        self.events,
                    ),
                forall|j: int| 0 <= j < i ==> upkeep::clustered(#[trigger] arena[j], 0),
            decreases size - i,
        {
            let node: &Node = &self.nodes[i];
            proof {
                assert(arena[i as int] == node@);
                let upto = arena.take(i + 1);
                assert(upto.drop_last() =~= arena.take(i as int));
                assert(upto.last() == arena[i as int]);
                lemma_evictions_prefix(arena, i + 1);
            }
            if !node.is_sound(i, size, &self.policy, self.events) || !node.is_clustered()
                || node.displaced() > self.evictions - displaced {
                return false;
            }
            displaced = displaced + node.displaced();
            i += 1;
        }
        assert(arena.take(i as int) =~= arena);
        displaced == self.evictions
    }
}

proof fn lemma_evictions_prefix(arena: Seq<NodeView>, n: int)
    requires
        0 <= n <= arena.len(),
    ensures
        upkeep::total_evictions(arena.take(n)) <= upkeep::total_evictions(arena),
    decreases arena.len(),
{
    if n == arena.len() {
        assert(arena.take(n) =~= arena);
    } else {
        assert(arena.drop_last().take(n) =~= arena.take(n));
        lemma_evictions_prefix(arena.drop_last(), n);
    }
}

impl StreamingAnalyzer {
    /// Whether the analyzer is between documents.
    pub fn is_idle(&self) -> (b: bool)
        ensures
            b == self@.idle(),
    {
        self.stack.len() == 0 && self.pending.is_none()
    }

    /// What there is to save. The analyzer must be quiescent: between
    /// documents.
    pub fn to_state_proto(&self) -> (r: AnalyzerState)
        requires
            self.inv(),
            self@.idle(),
        ensures
            r.resumed(self@.bounds) == self@,
    {
        let mut nodes: Vec<Node> = Vec::new();
        let mut i: usize = 0;
        while i < self.arena.len()
            invariant
                i <= self.arena@.len(),
                nodes@.len() == i,
                forall|j: int| 0 <= j < i ==> (#[trigger] nodes@[j])@ == self.arena@[j]@,
            decreases self.arena@.len() - i,
        {
            nodes.push(self.arena[i].duplicate());
            i += 1;
        }
        let r = AnalyzerState {
            policy: self.policy.copied(),
            doc_count: self.doc_count,
            current_doc: self.current_doc,
            evictions: self.total_cluster_evictions,
            events: self.events,
            latest: self.latest,
            nodes,
        };
        assert(engine::nodes(nodes@) =~= engine::nodes(self.arena@));
        assert(r.resumed(self@.bounds) =~= self@);
        r
    }

    /// The analyzer that goes on from what was saved. It is one that takes
    /// further documents where an analyzer could have been saved like this,
    /// which `AnalyzerState::is_sound` tells of what comes from elsewhere.
    pub fn from_state_proto(state: AnalyzerState, buckets: Buckets) -> (a: Self)
        requires
            buckets.wf(),
        ensures
            a@ == state.resumed(buckets@),
            a.inv() <==> state.resumed(buckets@).wf(),
    {
        let ghost resumed = state.resumed(buckets@);
        let a = StreamingAnalyzer {
            arena: state.nodes,
            doc_count: state.doc_count,
            current_doc: state.current_doc,
            pending: None,
            stack: Vec::new(),
            policy: state.policy,
            total_cluster_evictions: state.evictions,
            events: state.events,
            latest: state.latest,
            buckets,
        };
        assert(a@ =~= resumed);
        a
    }
}

} // verus!
