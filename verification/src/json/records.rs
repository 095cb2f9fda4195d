//! What the analyzer makes of a stream of records with a fixed set of keys.
use crate::analyze::arena;
use crate::analyze::arena::NodeView;
use crate::analyze::engine;
use crate::analyze::engine::StreamingAnalyzer;
use crate::analyze::finish;
use crate::analyze::machine::{FrameView, PolicyView, State};
use crate::analyze::shape;
use crate::analyze::sig::ScalarKind;
use crate::ingest;
use crate::ingest::{EventView, JsonEventSink};
use crate::json::events;
use crate::json::inference;
use crate::json::JsonView;
use crate::node::{KindView, ShapeView};
use crate::stats;
use crate::value::{StructFieldView, TypeView};
use vstd::prelude::*;

verus! {

/// The fields of a record: names, and the kinds of the values.
pub struct Layout {
    pub names: Seq<Seq<char>>,
    pub kinds: Seq<ScalarKind>,
}

impl Layout {
    pub open spec fn wf(self) -> bool {
        &&& self.kinds.len() == self.names.len()
        &&& forall|i: int, j: int|
            0 <= i < j < self.names.len() ==> #[trigger] self.names[i] != #[trigger] self.names[j]
    }

    /// The members have the names and the kinds of the first fields.
    pub open spec fn fits(self, members: Seq<(Seq<char>, JsonView)>) -> bool {
        &&& members.len() <= self.names.len()
        &&& forall|j: int|
            0 <= j < members.len() ==> (#[trigger] members[j]).0 == self.names[j]
                && inference::kind_of(members[j].1) == Some(self.kinds[j])
    }

    /// An object with all the fields.
    pub open spec fn describes(self, v: JsonView) -> bool {
        v matches JsonView::Object(members) && members.len() == self.names.len() && self.fits(
            members,
        )
    }

    /// The first `k` fields as a value type. A field is nullable where its
    /// values are null.
    pub open spec fn fields(self, k: int) -> Seq<StructFieldView>
        decreases k,
    {
        if k <= 0 {
            Seq::empty()
        } else {
            self.fields(k - 1).push(
                StructFieldView {
                    name: self.names[k - 1],
                    human_name: Seq::empty(),
                    value_type: shape::kind_type(self.kinds[k - 1]),
                    nullable: self.kinds[k - 1] == ScalarKind::Null,
                },
            )
        }
    }
}

// ---------------------------------------------------------------------
// The state along the way
// ---------------------------------------------------------------------

/// A node that has seen so many scalars of one kind, and nothing else.
pub open spec fn counts(n: NodeView, kind: ScalarKind, count: int) -> bool {
    &&& n.object is None
    &&& n.array is None
    &&& n.scalar_arms.len() == 6
    &&& n.obs == count
    &&& forall|k: ScalarKind| #[trigger]
        n.scalar_arms[k.place()] == (if k == kind {
            count
        } else {
            0
        })
}

/// After `n` whole records, and `j` fields of one more where `open` says so.
pub open spec fn midway(s: State, l: Layout, n: int, j: int, open: bool) -> bool {
    let known = if n > 0 {
        l.names.len() as int
    } else {
        j
    };
    let objects = if open {
        n + 1
    } else {
        n
    };
    &&& s.arena.len() == 2 + known
    &&& s.arena[0].array is None
    &&& s.arena[0].scalar_arms == Seq::new(6, |i: int| 0u64)
    &&& s.arena[0].obs == objects
    &&& s.arena[0].object matches Some(o) && {
        &&& o.obs == objects
        &&& o.record_alive
        &&& o.map_value == 1
        &&& o.key_count_sum == n * l.names.len() + j
        &&& o.fields.len() == known
        &&& forall|k: int| 0 <= k < known ==> #[trigger] o.fields[k] == (l.names[k], k + 2)
    }
    &&& forall|k: int|
        0 <= k < known ==> counts(
            #[trigger] s.arena[k + 2],
            l.kinds[k],
            if k < j {
                n + 1
            } else {
                n
            },
        )
}

/// Inside the record, between two fields.
pub open spec fn between(s: State) -> bool {
    &&& s.pending is None
    &&& s.stack.len() == 1
    &&& s.stack[0] matches FrameView::Object { node, pending_key, .. } && node == 0
        && pending_key is None
}

pub proof fn lemma_field_index(fields: Seq<(Seq<char>, int)>, l: Layout, j: int)
    requires
        l.wf(),
        0 <= j < fields.len() <= l.names.len(),
        forall|k: int| 0 <= k < fields.len() ==> #[trigger] fields[k] == (l.names[k], k + 2),
    ensures
        arena::has_field(fields, l.names[j]),
        arena::field_of(fields, l.names[j]) == j,
{
    assert(fields[j].0 == l.names[j]);
    let i = arena::field_of(fields, l.names[j]);
    assert(fields[i] == (l.names[i], i + 2));
    if i < j {
        assert(l.names[i] != l.names[j]);
    }
    if j < i {
        assert(l.names[j] != l.names[i]);
    }
}

proof fn lemma_no_field(fields: Seq<(Seq<char>, int)>, l: Layout)
    requires
        l.wf(),
        fields.len() < l.names.len(),
        forall|k: int| 0 <= k < fields.len() ==> #[trigger] fields[k] == (l.names[k], k + 2),
    ensures
        !arena::has_field(fields, l.names[fields.len() as int]),
{
    let key = l.names[fields.len() as int];
    assert forall|i: int| 0 <= i < fields.len() implies (#[trigger] fields[i]).0 != key by {
        assert(fields[i] == (l.names[i], i + 2));
    }
}

/// One key and its value.
proof fn lemma_member(s: State, l: Layout, n: int, j: int, v: JsonView)
    requires
        l.wf(),
        l.names.len() <= s.policy.record_view_cap,
        0 <= j < l.names.len(),
        0 <= n,
        (n + 1) * l.names.len() <= u64::MAX,
        n < u64::MAX,
        midway(s, l, n, j, true),
        between(s),
        inference::kind_of(v) == Some(l.kinds[j]),
    ensures
        ({
            let t = s.step(EventView::ObjectKey(l.names[j])).step(events::events_of(v)[0]);
            &&& midway(t, l, n, j + 1, true)
            &&& between(t)
            &&& t.policy == s.policy
            &&& t.arena[0].first_doc == s.arena[0].first_doc
            &&& t.arena[0].last_doc == s.arena[0].last_doc
        }),
{
    let key = l.names[j];
    let o = s.arena[0].object->Some_0;
    let known = o.fields.len() as int;
    if n > 0 {
        lemma_field_index(o.fields, l, j);
    } else {
        lemma_no_field(o.fields, l);
    }
    let m = s.step(EventView::ObjectKey(key));
    let child = j + 2;
    assert(o.key_count_sum + 1 <= u64::MAX) by (nonlinear_arith)
        requires
            o.key_count_sum == n * l.names.len() + j,
            j < l.names.len(),
            (n + 1) * l.names.len() <= u64::MAX,
    ;
    assert(m.pending == Some(child));
    let mo = m.arena[0].object->Some_0;
    let after = if n > 0 {
        known
    } else {
        known + 1
    };
    assert(m.arena.len() == 2 + after);
    assert(mo.fields.len() == after);
    assert forall|k: int| 0 <= k < after implies #[trigger] mo.fields[k] == (l.names[k], k + 2) by {
        if k < known {
            assert(o.fields[k] == (l.names[k], k + 2));
        }
    }
    assert(mo.key_count_sum == n * l.names.len() + j + 1);
    assert forall|k: int| 0 <= k < after implies counts(
        #[trigger] m.arena[k + 2],
        l.kinds[k],
        if k < j {
            n + 1
        } else {
            n
        },
    ) by {
        if k < known {
            assert(m.arena[k + 2] == s.arena[k + 2]);
        } else {
            assert(m.arena[k + 2] == NodeView::empty());
        }
    }
    let e = events::events_of(v)[0];
    let t = m.step(e);
    let was = m.arena[child];
    assert(counts(was, l.kinds[j], n));
    let now = t.arena[child];
    assert(now.scalar_arms == crate::analyze::stats::raised(was.scalar_arms, l.kinds[j].place()));
    assert(counts(now, l.kinds[j], n + 1)) by {
        assert forall|k: ScalarKind| #[trigger]
            now.scalar_arms[k.place()] == (if k == l.kinds[j] {
                n + 1
            } else {
                0
            }) by {
            assert(was.scalar_arms[k.place()] == (if k == l.kinds[j] {
                n
            } else {
                0
            }));
        }
    }
    assert forall|k: int| 0 <= k < after implies counts(
        #[trigger] t.arena[k + 2],
        l.kinds[k],
        if k < j + 1 {
            n + 1
        } else {
            n
        },
    ) by {
        assert(counts(m.arena[k + 2], l.kinds[k], if k < j {
            n + 1
        } else {
            n
        }));
        if k != j {
            assert(t.arena[k + 2] == m.arena[k + 2]);
        }
    }
    assert(t.arena[0] == m.arena[0]);
}

/// Some members one after the other.
proof fn lemma_members(
    s: State,
    l: Layout,
    n: int,
    members: Seq<(Seq<char>, JsonView)>,
)
    requires
        l.wf(),
        l.names.len() <= s.policy.record_view_cap,
        0 <= n < u64::MAX,
        (n + 1) * l.names.len() <= u64::MAX,
        midway(s, l, n, 0, true),
        between(s),
        l.fits(members),
    ensures
        ({
            let t = ingest::after_all::<StreamingAnalyzer>(s, events::member_events(members));
            &&& midway(t, l, n, members.len() as int, true)
            &&& between(t)
            &&& t.policy == s.policy
            &&& t.arena[0].first_doc == s.arena[0].first_doc
            &&& t.arena[0].last_doc == s.arena[0].last_doc
        }),
    decreases members.len(),
{
    if members.len() > 0 {
        let front = members.drop_last();
        let (key, v) = members.last();
        assert(members[members.len() - 1] == (key, v));
        assert(l.fits(front)) by {
            assert forall|j: int| 0 <= j < front.len() implies (#[trigger] front[j]).0 == l.names[j]
                && inference::kind_of(front[j].1) == Some(l.kinds[j]) by {
                assert(front[j] == members[j]);
            }
        }
        lemma_members(s, l, n, front);
        let m = ingest::after_all::<StreamingAnalyzer>(s, events::member_events(front));
        lemma_member(m, l, n, front.len() as int, v);
        let e = EventView::ObjectKey(key);
        let body = events::events_of(v);
        assert(body =~= seq![body[0]]);
        events::lemma_single::<StreamingAnalyzer>(m, e);
        events::lemma_single::<StreamingAnalyzer>(m.step(e), body[0]);
        events::lemma_split::<StreamingAnalyzer>(s, events::member_events(front), seq![e]);
        events::lemma_split::<StreamingAnalyzer>(
            s,
            events::member_events(front) + seq![e],
            body,
        );
    }
}

/// One document.
proof fn lemma_record(s: State, l: Layout, n: int, ordinal: u64, v: JsonView)
    requires
        l.wf(),
        l.names.len() <= s.policy.record_view_cap,
        0 <= n < u64::MAX,
        (n + 1) * l.names.len() <= u64::MAX,
        s.idle(),
        if n == 0 {
            s.arena == seq![NodeView::empty()]
        } else {
            midway(s, l, n, 0, false)
        },
        l.describes(v),
    ensures
        ({
            let t = ingest::after_all::<StreamingAnalyzer>(
                s,
                events::document_events(ordinal, v),
            );
            &&& midway(t, l, n + 1, 0, false)
            &&& t.idle()
            &&& t.policy == s.policy
            &&& t.arena[0].first_doc == (if n == 0 {
                ordinal
            } else {
                s.arena[0].first_doc
            })
            &&& t.arena[0].last_doc == ordinal
        }),
{
    let members = v->Object_0;
    let open = EventView::DocumentBegin(ordinal);
    let close = EventView::DocumentEnd;
    let begin = EventView::ObjectBegin;
    let end = EventView::ObjectEnd;
    let a = s.step(open);
    let b = a.step(begin);
    assert(b.stack =~= seq![b.stack[0]]);
    assert(midway(b, l, n, 0, true)) by {
        if n > 0 {
            assert forall|k: int| 0 <= k < l.names.len() implies counts(
                #[trigger] b.arena[k + 2],
                l.kinds[k],
                if k < 0 {
                    n + 1
                } else {
                    n
                },
            ) by {
                assert(counts(s.arena[k + 2], l.kinds[k], n));
                assert(b.arena[k + 2] == s.arena[k + 2]);
            }
        } else {
            assert(b.arena.len() == 2);
            assert(0 * l.names.len() == 0);
        }
    }
    lemma_members(b, l, n, members);
    let c = ingest::after_all::<StreamingAnalyzer>(b, events::member_events(members));
    let d = c.step(end);
    let t = d.step(close);
    assert(d.stack.len() == 0);
    assert(midway(t, l, n + 1, 0, false)) by {
        assert((n + 1) * l.names.len() == n * l.names.len() + l.names.len()) by (nonlinear_arith);
        assert forall|k: int| 0 <= k < l.names.len() implies counts(
            #[trigger] t.arena[k + 2],
            l.kinds[k],
            if k < 0 {
                n + 2
            } else {
                n + 1
            },
        ) by {
            assert(counts(c.arena[k + 2], l.kinds[k], n + 1));
            assert(t.arena[k + 2] == c.arena[k + 2]);
        }
    }
    let inner = seq![begin] + events::member_events(members);
    events::lemma_single::<StreamingAnalyzer>(s, open);
    events::lemma_single::<StreamingAnalyzer>(a, begin);
    events::lemma_single::<StreamingAnalyzer>(c, end);
    events::lemma_single::<StreamingAnalyzer>(d, close);
    events::lemma_split::<StreamingAnalyzer>(a, seq![begin], events::member_events(members));
    events::lemma_split::<StreamingAnalyzer>(a, inner, seq![end]);
    events::lemma_split::<StreamingAnalyzer>(s, seq![open], events::events_of(v));
    events::lemma_split::<StreamingAnalyzer>(
        s,
        seq![open] + events::events_of(v),
        seq![close],
    );
}

pub open spec fn all_described(l: Layout, docs: Seq<(u64, JsonView)>) -> bool {
    forall|i: int| 0 <= i < docs.len() ==> l.describes((#[trigger] docs[i]).1)
}

pub proof fn lemma_records(
    policy: PolicyView,
    bounds: Seq<u64>,
    l: Layout,
    docs: Seq<(u64, JsonView)>,
)
    requires
        l.wf(),
        l.names.len() <= policy.record_view_cap,
        docs.len() <= u64::MAX,
        docs.len() * l.names.len() <= u64::MAX,
        all_described(l, docs),
    ensures
        ({
            let s = inference::fed(State::initial(policy, bounds), docs);
            &&& s.idle()
            &&& s.policy == policy
            &&& docs.len() == 0 ==> s == State::initial(policy, bounds)
            &&& docs.len() > 0 ==> midway(s, l, docs.len() as int, 0, false)
                && s.arena[0].first_doc == docs[0].0 && s.arena[0].last_doc == docs.last().0
        }),
    decreases docs.len(),
{
    let start = State::initial(policy, bounds);
    if docs.len() > 0 {
        let front = docs.drop_last();
        assert forall|i: int| 0 <= i < front.len() implies l.describes((#[trigger] front[i]).1) by {
            assert(front[i] == docs[i]);
        }
        assert(front.len() * l.names.len() <= docs.len() * l.names.len()) by (nonlinear_arith)
            requires
                front.len() <= docs.len(),
        ;
        lemma_records(policy, bounds, l, front);
        assert(l.describes(docs[docs.len() - 1].1));
        lemma_record(
            inference::fed(start, front),
            l,
            front.len() as int,
            docs.last().0,
            docs.last().1,
        );
        if front.len() > 0 {
            assert(front[0] == docs[0]);
        }
    }
}

/// The shape at a node that has seen scalars of one kind alone.
pub proof fn lemma_scalar_shape(arena: Seq<NodeView>, id: int, kind: ScalarKind, count: int)
    requires
        0 <= id < arena.len(),
        counts(arena[id], kind, count),
        count > 0,
    ensures
        finish::shape_at(arena, id) == (ShapeView {
            kind: KindView::Type(shape::kind_type(kind)),
            stats: stats::plain_stats(count as u64, arena[id].first_doc, arena[id].last_doc),
        }),
{
    let n = arena[id];
    assert(forall|k: ScalarKind| k != kind ==> #[trigger] n.scalar_arms[k.place()] == 0);
    assert(n.scalar_arms[kind.place()] == count);
    assert(ScalarKind::Null.place() == 0 && ScalarKind::Bool.place() == 1
        && ScalarKind::I64.place() == 2 && ScalarKind::U64.place() == 3
        && ScalarKind::F64.place() == 4 && ScalarKind::String.place() == 5);
    reveal_with_fuel(finish::scalar_shapes, 7);
    assert(ScalarKind::nth(kind.place()) == kind);
    let arm = ShapeView {
        kind: KindView::Type(shape::kind_type(kind)),
        stats: stats::plain_stats(n.scalar_arms[kind.place()], n.first_doc, n.last_doc),
    };
    assert(finish::scalar_shapes(n, 6) =~= seq![arm]);
}

proof fn lemma_field_shapes(s: State, l: Layout, n: int, k: int)
    requires
        midway(s, l, n, 0, false),
        n > 0,
        0 <= k <= l.names.len(),
        l.wf(),
    ensures
        finish::field_shapes(s.arena, 0, k).len() == k,
        shape::flat_fields(finish::field_shapes(s.arena, 0, k)),
        shape::flattened_fields(finish::field_shapes(s.arena, 0, k)) == l.fields(k),
    decreases k,
{
    if k > 0 {
        lemma_field_shapes(s, l, n, k - 1);
        let o = s.arena[0].object->Some_0;
        assert(o.fields[k - 1] == (l.names[k - 1], k + 1));
        assert(counts(s.arena[(k - 1) + 2], l.kinds[k - 1], n));
        lemma_scalar_shape(s.arena, k + 1, l.kinds[k - 1], n);
        assert(finish::child_shape(s.arena, 0, k + 1) == finish::shape_at(s.arena, k + 1));
        let v = finish::field_shapes(s.arena, 0, k);
        assert(v.drop_last() =~= finish::field_shapes(s.arena, 0, k - 1));
        let f = v.last();
        assert(v.len() == k && v[k - 1] == f);
        assert(f.shape.kind == KindView::Type(shape::kind_type(l.kinds[k - 1])));
        assert(shape::flat(f.shape));
        assert(shape::flattened(f.shape) == shape::kind_type(l.kinds[k - 1]));
        assert(f.name == l.names[k - 1]);
        assert(f.nullable == (l.kinds[k - 1] == ScalarKind::Null));
        assert(shape::flat_fields(v));
        assert(shape::flattened_fields(v) == l.fields(k));
    }
}

/// A stream of records that all have the same keys, with scalars of one kind
/// at each, is found to be a record with exactly these fields in their order,
/// none of them missing, and none nullable but the one that is always null.
/// This holds up to as many keys as the record view keeps.
pub proof fn law_stable_records_are_told(
    policy: PolicyView,
    bounds: Seq<u64>,
    l: Layout,
    docs: Seq<(u64, JsonView)>,
)
    requires
        l.wf(),
        l.names.len() <= policy.record_view_cap,
        0 < docs.len() <= u64::MAX,
        docs.len() * l.names.len() <= u64::MAX,
        all_described(l, docs),
    ensures
        engine::root_shape(inference::fed(State::initial(policy, bounds), docs)) == (ShapeView {
            kind: KindView::Type(TypeView::Struct { fields: l.fields(l.names.len() as int) }),
            stats: stats::plain_stats(docs.len() as u64, docs[0].0, docs.last().0),
        }),
{
    lemma_records(policy, bounds, l, docs);
    let s = inference::fed(State::initial(policy, bounds), docs);
    let n = docs.len() as int;
    let m = l.names.len() as int;
    let o = s.arena[0].object->Some_0;
    assert(m * n == n * m) by (nonlinear_arith);
    assert(0 <= n * m) by (nonlinear_arith)
        requires
            n >= 0,
            m >= 0,
    ;
    assert(o.map_reason() is None);
    lemma_field_shapes(s, l, n, m);
    reveal_with_fuel(finish::scalar_shapes, 7);
    assert(finish::scalar_shapes(s.arena[0], 6) =~= Seq::empty());
    let arms = Seq::<ShapeView>::empty().push(finish::object_shape(s.arena, 0));
    assert(arms.len() == 1);
}

} // verus!
