//! What is known of one path of the documents.
use crate::analyze::dist;
use crate::analyze::dist::{Buckets, DistSketch, DistView};
use crate::analyze::sig::{ScalarKind, Sig, SigView};
use crate::analyze::stats;
use crate::analyze::stats::{NumericStats, NumericStatsView, StringStats, StringStatsView};
use crate::double::Double;
use crate::sketch::{SketchView, SpaceSaving};
use crate::tally;
use std::collections::BTreeMap;
use vstd::prelude::*;

verus! {

pub type NodeId = usize;

// ---------------------------------------------------------------------
// The model
// ---------------------------------------------------------------------

/// The caps that bound a node.
pub struct Caps {
    pub fields: int,
    pub positions: int,
    pub clusters: int,
}

#[verifier::ext_equal]
pub struct ObjectView {
    pub obs: u64,
    /// The fields in the order in which they were first seen, each with the
    /// node of its values.
    pub fields: Seq<(Seq<char>, int)>,
    pub record_alive: bool,
    pub map_value: int,
    pub key_count_sum: u64,
    pub key_stats: StringStatsView,
    pub key_count_sketch: DistView,
}

#[verifier::ext_equal]
pub struct ArrayView {
    pub obs: u64,
    pub positional: Seq<int>,
    pub positional_alive: bool,
    pub bag_value: int,
    pub length_sum: u64,
    pub min_length: u32,
    pub max_length: u32,
    pub length_histogram: Map<u32, u64>,
    pub length_sketch: DistView,
    pub element_cluster: SketchView<SigView>,
}

#[verifier::ext_equal]
pub struct NodeView {
    pub obs: u64,
    pub first_doc: u64,
    pub last_doc: u64,
    /// How often each scalar kind was seen, in the order of the kinds.
    pub scalar_arms: Seq<u64>,
    pub string_stats: Option<StringStatsView>,
    pub numeric_stats: Option<NumericStatsView>,
    pub object: Option<ObjectView>,
    pub array: Option<ArrayView>,
}

pub open spec fn has_field(fields: Seq<(Seq<char>, int)>, key: Seq<char>) -> bool {
    exists|i: int| 0 <= i < fields.len() && (#[trigger] fields[i]).0 == key
}

pub open spec fn field_of(fields: Seq<(Seq<char>, int)>, key: Seq<char>) -> int {
    choose|i: int| 0 <= i < fields.len() && (#[trigger] fields[i]).0 == key
}

pub open spec fn distinct_names(fields: Seq<(Seq<char>, int)>) -> bool {
    forall|i: int, j: int|
        0 <= i < j < fields.len() ==> (#[trigger] fields[i]).0 != (#[trigger] fields[j]).0
}

impl ObjectView {
    pub open spec fn empty(map_value: int) -> ObjectView {
        ObjectView {
            obs: 0,
            fields: Seq::empty(),
            record_alive: true,
            map_value,
            key_count_sum: 0,
            key_stats: StringStatsView::empty(),
            key_count_sketch: DistView::empty(dist::DIST_CAP as int),
        }
    }

    /// One more key, whose values are at `child`.
    pub open spec fn with_key(self, key: Seq<char>, bounds: Seq<u64>) -> ObjectView {
        ObjectView {
            key_count_sum: (self.key_count_sum + 1) as u64,
            key_stats: self.key_stats.observe(key, bounds),
            ..self
        }
    }

    /// The object is of node `id` in an arena of `size` nodes, after
    /// `events` events. Children are younger than their parent.
    pub open spec fn wf(self, id: int, size: int, caps: Caps, events: u64) -> bool {
        &&& id < self.map_value < size
        &&& forall|i: int|
            0 <= i < self.fields.len() ==> id < (#[trigger] self.fields[i]).1 < size
        &&& distinct_names(self.fields)
        &&& self.fields.len() <= caps.fields
        &&& self.key_count_sum <= events
        &&& self.key_stats.wf()
        &&& self.key_stats.count == self.key_count_sum
        &&& self.key_count_sketch.wf()
        &&& self.key_count_sketch.count <= events
    }
}

impl ArrayView {
    pub open spec fn empty(bag_value: int, clusters: int) -> ArrayView {
        ArrayView {
            obs: 0,
            positional: Seq::empty(),
            positional_alive: true,
            bag_value,
            length_sum: 0,
            min_length: u32::MAX,
            max_length: 0,
            length_histogram: Map::empty(),
            length_sketch: DistView::empty(dist::DIST_CAP as int),
            element_cluster: SketchView::empty(clusters),
        }
    }

    /// One more array of the given length has come to its end.
    pub open spec fn with_length(self, length: u32, bounds: Seq<u64>) -> ArrayView {
        ArrayView {
            length_sum: (self.length_sum + length) as u64,
            min_length: if length < self.min_length {
                length
            } else {
                self.min_length
            },
            max_length: if length > self.max_length {
                length
            } else {
                self.max_length
            },
            length_histogram: tally::counted(self.length_histogram, length),
            length_sketch: self.length_sketch.observe(stats::whole(length as int), bounds),
            ..self
        }
    }

    pub open spec fn with_element(self, s: SigView) -> ArrayView {
        ArrayView { element_cluster: self.element_cluster.observe(s), ..self }
    }

    pub open spec fn wf(self, id: int, size: int, caps: Caps, events: u64) -> bool {
        &&& id < self.bag_value < size
        &&& forall|i: int|
            0 <= i < self.positional.len() ==> id < #[trigger] self.positional[i] < size
        &&& self.positional.len() <= caps.positions
        &&& self.length_sum <= self.element_cluster.observations
        &&& self.length_histogram.dom().finite()
        &&& forall|l: u32| #[trigger]
            self.length_histogram.contains_key(l) ==> 1 <= self.length_histogram[l] <= events
        &&& self.length_sketch.wf()
        &&& self.length_sketch.count <= events
        &&& self.element_cluster.wf()
        &&& self.element_cluster.cap == caps.clusters
        &&& self.element_cluster.observations <= events
    }
}

pub open spec fn object_obs(o: Option<ObjectView>) -> int {
    match o {
        Some(o) => o.obs as int,
        None => 0,
    }
}

pub open spec fn array_obs(a: Option<ArrayView>) -> int {
    match a {
        Some(a) => a.obs as int,
        None => 0,
    }
}

impl NodeView {
    pub open spec fn empty() -> NodeView {
        NodeView {
            obs: 0,
            first_doc: 0,
            last_doc: 0,
            scalar_arms: Seq::new(6, |i: int| 0u64),
            string_stats: None,
            numeric_stats: None,
            object: None,
            array: None,
        }
    }

    /// One more value was seen, in document `doc`.
    pub open spec fn seen(self, doc: u64) -> NodeView {
        NodeView {
            obs: (self.obs + 1) as u64,
            first_doc: if self.obs == 0 {
                doc
            } else {
                self.first_doc
            },
            last_doc: doc,
            ..self
        }
    }

    pub open spec fn with_scalar(self, kind: ScalarKind) -> NodeView {
        NodeView { scalar_arms: stats::raised(self.scalar_arms, kind.place()), ..self }
    }

    pub open spec fn with_number(self, v: Double, exact: bool, bounds: Seq<u64>) -> NodeView {
        let before = match self.numeric_stats {
            Some(ns) => ns,
            None => NumericStatsView::empty(),
        };
        NodeView { numeric_stats: Some(before.observe(v, exact, bounds)), ..self }
    }

    pub open spec fn with_string(self, s: Seq<char>, bounds: Seq<u64>) -> NodeView {
        let before = match self.string_stats {
            Some(ss) => ss,
            None => StringStatsView::empty(),
        };
        NodeView { string_stats: Some(before.observe(s, bounds)), ..self }
    }

    pub open spec fn scalar_obs(self) -> int {
        self.scalar_arms[0] + self.scalar_arms[1] + self.scalar_arms[2] + self.scalar_arms[3]
            + self.scalar_arms[4] + self.scalar_arms[5]
    }

    /// Every observation of the node is one of a scalar, of an object or of
    /// an array; every number and every string is in the statistics.
    pub open spec fn balanced(self) -> bool {
        &&& self.scalar_arms.len() == 6
        &&& self.obs == self.scalar_obs() + object_obs(self.object) + array_obs(self.array)
        &&& match self.string_stats {
            Some(ss) => ss.wf() && ss.count == self.scalar_arms[5],
            None => self.scalar_arms[5] == 0,
        }
        &&& match self.numeric_stats {
            Some(ns) => ns.wf() && ns.count == self.scalar_arms[2] + self.scalar_arms[3]
                + self.scalar_arms[4],
            None => self.scalar_arms[2] + self.scalar_arms[3] + self.scalar_arms[4] == 0,
        }
    }

    pub open spec fn wf(self, id: int, size: int, caps: Caps, events: u64) -> bool {
        &&& self.balanced()
        &&& self.obs <= events
        &&& self.object matches Some(o) ==> o.wf(id, size, caps, events)
        &&& self.array matches Some(a) ==> a.wf(id, size, caps, events)
    }

    /// Whether a scalar was seen.
    pub open spec fn has_scalars(self) -> bool {
        self.scalar_obs() > 0
    }
}

// ---------------------------------------------------------------------
// The nodes
// ---------------------------------------------------------------------

#[derive(Debug)]
pub struct ObjectAcc {
    pub obs: u64,
    pub fields: Vec<(String, NodeId)>,
    pub record_alive: bool,
    pub map_value: NodeId,
    pub key_count_sum: u64,
    /// Aggregate string statistics over every key observed at this object.
    /// Drives the map-pattern reporting when the keys turn out to share a
    /// format.
    pub key_stats: StringStats,
    /// Per-document key-count distribution.
    pub key_count_sketch: DistSketch,
}

#[derive(Debug)]
pub struct ArrayAcc {
    pub obs: u64,
    pub positional: Vec<NodeId>,
    pub positional_alive: bool,
    pub bag_value: NodeId,
    pub length_sum: u64,
    pub min_length: u32,
    pub max_length: u32,
    pub length_histogram: BTreeMap<u32, u64>,
    /// Per-document array-length distribution.
    pub length_sketch: DistSketch,
    /// Per-element subtree-signature clustering, across documents.
    pub element_cluster: SpaceSaving<Sig>,
}

#[derive(Debug)]
pub struct Node {
    pub obs: u64,
    pub first_doc: u64,
    pub last_doc: u64,
    pub scalar_arms: [u64; 6],
    pub string_stats: Option<StringStats>,
    pub numeric_stats: Option<NumericStats>,
    pub object: Option<ObjectAcc>,
    pub array: Option<ArrayAcc>,
}

pub open spec fn named(v: Seq<(String, NodeId)>) -> Seq<(Seq<char>, int)> {
    v.map_values(|e: (String, NodeId)| (e.0@, e.1 as int))
}

pub open spec fn ids(v: Seq<NodeId>) -> Seq<int> {
    v.map_values(|id: NodeId| id as int)
}

impl View for ObjectAcc {
    type V = ObjectView;

    open spec fn view(&self) -> ObjectView {
        ObjectView {
            obs: self.obs,
            fields: named(self.fields@),
            record_alive: self.record_alive,
            map_value: self.map_value as int,
            key_count_sum: self.key_count_sum,
            key_stats: self.key_stats@,
            key_count_sketch: self.key_count_sketch@,
        }
    }
}

impl View for ArrayAcc {
    type V = ArrayView;

    open spec fn view(&self) -> ArrayView {
        ArrayView {
            obs: self.obs,
            positional: ids(self.positional@),
            positional_alive: self.positional_alive,
            bag_value: self.bag_value as int,
            length_sum: self.length_sum,
            min_length: self.min_length,
            max_length: self.max_length,
            length_histogram: self.length_histogram@,
            length_sketch: self.length_sketch@,
            element_cluster: self.element_cluster@,
        }
    }
}

pub open spec fn opt_object(o: Option<ObjectAcc>) -> Option<ObjectView> {
    match o {
        Some(o) => Some(o@),
        None => None,
    }
}

pub open spec fn opt_array(a: Option<ArrayAcc>) -> Option<ArrayView> {
    match a {
        Some(a) => Some(a@),
        None => None,
    }
}

pub open spec fn opt_strings(s: Option<StringStats>) -> Option<StringStatsView> {
    match s {
        Some(s) => Some(s@),
        None => None,
    }
}

pub open spec fn opt_numbers(n: Option<NumericStats>) -> Option<NumericStatsView> {
    match n {
        Some(n) => Some(n@),
        None => None,
    }
}

impl View for Node {
    type V = NodeView;

    open spec fn view(&self) -> NodeView {
        NodeView {
            obs: self.obs,
            first_doc: self.first_doc,
            last_doc: self.last_doc,
            scalar_arms: self.scalar_arms@,
            string_stats: opt_strings(self.string_stats),
            numeric_stats: opt_numbers(self.numeric_stats),
            object: opt_object(self.object),
            array: opt_array(self.array),
        }
    }
}

impl ObjectAcc {
    pub fn new(map_value: NodeId) -> (o: ObjectAcc)
        ensures
            o@ == ObjectView::empty(map_value as int),
    {
        let o = ObjectAcc {
            obs: 0,
            fields: Vec::new(),
            record_alive: true,
            map_value,
            key_count_sum: 0,
            key_stats: StringStats::new(),
            key_count_sketch: DistSketch::new(dist::DIST_CAP),
        };
        assert(o@ =~= ObjectView::empty(map_value as int));
        o
    }

    /// The node of the values of `key`, where that is a field.
    pub fn find(&self, key: &String) -> (r: Option<NodeId>)
        requires
            distinct_names(self@.fields),
        ensures
            match r {
                Some(id) => has_field(self@.fields, key@) && id == self@.fields[field_of(
                    self@.fields,
                    key@,
                )].1,
                None => !has_field(self@.fields, key@),
            },
    {
        let mut i: usize = 0;
        while i < self.fields.len()
            invariant
                i <= self.fields@.len(),
                forall|j: int| 0 <= j < i ==> (#[trigger] self@.fields[j]).0 != key@,
                distinct_names(self@.fields),
            decreases self.fields@.len() - i,
        {
            assert(self@.fields[i as int].0 == self.fields@[i as int].0@);
            if self.fields[i].0 == *key {
                proof {
                    let j = field_of(self@.fields, key@);
                    assert(self@.fields[i as int].0 == key@);
                    assert(self@.fields[j].0 == key@);
                    assert(i == j) by {
                        if i < j {
                            assert(self@.fields[i as int].0 != self@.fields[j].0);
                        } else if j < i {
                            assert(self@.fields[j].0 != self@.fields[i as int].0);
                        }
                    }
                }
                return Some(self.fields[i].1);
            }
            i += 1;
        }
        None
    }

    pub fn add_key(&mut self, key: &str, buckets: &Buckets)
        requires
            old(self)@.key_count_sum < u64::MAX,
            old(self)@.key_stats.wf(),
            old(self)@.key_stats.count < u64::MAX,
            buckets.wf(),
        ensures
            final(self)@ == old(self)@.with_key(key@, buckets@),
    {
        self.key_count_sum += 1;
        self.key_stats.observe(key, buckets);
        assert(self@ =~= old(self)@.with_key(key@, buckets@));
    }
}

impl ArrayAcc {
    pub fn new(bag_value: NodeId, clusters: usize) -> (a: ArrayAcc)
        ensures
            a@ == ArrayView::empty(bag_value as int, clusters as int),
    {
        let a = ArrayAcc {
            obs: 0,
            positional: Vec::new(),
            positional_alive: true,
            bag_value,
            length_sum: 0,
            min_length: u32::MAX,
            max_length: 0,
            length_histogram: BTreeMap::new(),
            length_sketch: DistSketch::new(dist::DIST_CAP),
            element_cluster: SpaceSaving::with_cap(clusters),
        };
        assert(a@ =~= ArrayView::empty(bag_value as int, clusters as int));
        a
    }

    pub fn add_length(&mut self, length: u32, buckets: &Buckets)
        requires
            old(self)@.length_sum + length <= u64::MAX,
            old(self)@.length_histogram.contains_key(length)
                ==> old(self)@.length_histogram[length] < u64::MAX,
            old(self)@.length_sketch.wf(),
            old(self)@.length_sketch.count < u64::MAX,
            buckets.wf(),
        ensures
            final(self)@ == old(self)@.with_length(length, buckets@),
    {
        self.length_sum += length as u64;
        if length < self.min_length {
            self.min_length = length;
        }
        if length > self.max_length {
            self.max_length = length;
        }
        tally::count(&mut self.length_histogram, length);
        self.length_sketch.observe(Double::from_u64(length as u64), buckets);
        assert(self@ =~= old(self)@.with_length(length, buckets@));
    }

    /// Clusters one more element; says whether that displaced a cluster.
    pub fn add_element(&mut self, s: Sig) -> (evicted: bool)
        requires
            old(self)@.element_cluster.wf(),
            old(self)@.element_cluster.cap >= 1,
            old(self)@.element_cluster.observations < u64::MAX,
        ensures
            final(self)@ == old(self)@.with_element(s@),
            evicted == (final(self)@.element_cluster.evictions
                != old(self)@.element_cluster.evictions),
    {
        let before: u64 = self.element_cluster.evictions();
        self.element_cluster.observe(s);
        assert(self@ =~= old(self)@.with_element(s@));
        self.element_cluster.evictions() != before
    }
}

fn no_arms() -> (z: [u64; 6])
    ensures
        z@.len() == 6,
        forall|i: int| 0 <= i < 6 ==> z@[i] == 0,
{
    let z: [u64; 6] = [0; 6];
    assert forall|i: int| 0 <= i < 6 implies z@[i] == 0 by {
        vstd::array::axiom_spec_array_fill_for_copy_type::<u64, 6>(0);
    }
    z
}

impl Node {
    pub fn new() -> (n: Node)
        ensures
            n@ == NodeView::empty(),
    {
        let n = Node {
            obs: 0,
            first_doc: 0,
            last_doc: 0,
            scalar_arms: no_arms(),
            string_stats: None,
            numeric_stats: None,
            object: None,
            array: None,
        };
        assert(n@ =~= NodeView::empty());
        n
    }

    pub fn see(&mut self, doc: u64)
        requires
            old(self)@.obs < u64::MAX,
        ensures
            final(self)@ == old(self)@.seen(doc),
    {
        if self.obs == 0 {
            self.first_doc = doc;
        }
        self.obs += 1;
        self.last_doc = doc;
    }

    pub fn add_scalar(&mut self, kind: ScalarKind)
        requires
            old(self)@.scalar_arms[kind.place()] < u64::MAX,
        ensures
            final(self)@ == old(self)@.with_scalar(kind),
    {
        let i: usize = kind.index();
        let c: u64 = self.scalar_arms[i];
        self.scalar_arms[i] = c + 1;
        assert(self@ =~= old(self)@.with_scalar(kind));
    }

    pub fn add_number(&mut self, v: Double, exact: bool, buckets: &Buckets)
        requires
            old(self)@.numeric_stats matches Some(ns) ==> ns.wf() && ns.count < u64::MAX,
            buckets.wf(),
        ensures
            final(self)@ == old(self)@.with_number(v, exact, buckets@),
    {
        let mut ns = match self.numeric_stats.take() {
            Some(ns) => ns,
            None => NumericStats::new(),
        };
        ns.observe(v, exact, buckets);
        self.numeric_stats = Some(ns);
        assert(self@ =~= old(self)@.with_number(v, exact, buckets@));
    }

    pub fn add_string(&mut self, s: &str, buckets: &Buckets)
        requires
            old(self)@.string_stats matches Some(ss) ==> ss.wf() && ss.count < u64::MAX,
            buckets.wf(),
        ensures
            final(self)@ == old(self)@.with_string(s@, buckets@),
    {
        let mut ss = match self.string_stats.take() {
            Some(ss) => ss,
            None => StringStats::new(),
        };
        ss.observe(s, buckets);
        self.string_stats = Some(ss);
        assert(self@ =~= old(self)@.with_string(s@, buckets@));
    }
}

} // verus!
