//! What the analyzer makes of a stream of records some of whose keys may be
//! missing.
use crate::analyze::engine;
use crate::analyze::engine::StreamingAnalyzer;
use crate::analyze::finish;
use crate::analyze::machine::{PolicyView, State};
use crate::analyze::shape;
use crate::analyze::sig::ScalarKind;
use crate::ingest;
use crate::ingest::{EventView, JsonEventSink};
use crate::json::events;
use crate::json::inference;
use crate::json::records;
use crate::json::records::Layout;
use crate::json::JsonView;
use crate::node::{KindView, ShapeView};
use crate::stats;
use crate::value::{StructFieldView, TypeView};
use vstd::prelude::*;

verus! {

// ---------------------------------------------------------------------
// How often a key occurs
// ---------------------------------------------------------------------

/// How often a key occurs among the members of an object.
pub open spec fn occurs(members: Seq<(Seq<char>, JsonView)>, key: Seq<char>) -> int
    decreases members.len(),
{
    if members.len() == 0 {
        0
    } else {
        occurs(members.drop_last(), key) + (if members.last().0 == key {
            1int
        } else {
            0
        })
    }
}

/// How often a key occurs in the objects of a stream.
pub open spec fn presence(docs: Seq<(u64, JsonView)>, key: Seq<char>) -> int
    decreases docs.len(),
{
    if docs.len() == 0 {
        0
    } else {
        presence(docs.drop_last(), key) + occurs(docs.last().1->Object_0, key)
    }
}

/// How many keys the objects of a stream have together.
pub open spec fn key_count(docs: Seq<(u64, JsonView)>) -> int
    decreases docs.len(),
{
    if docs.len() == 0 {
        0
    } else {
        key_count(docs.drop_last()) + docs.last().1->Object_0.len()
    }
}

impl Layout {
    /// A member that is one of the fields.
    pub open spec fn knows(self, m: (Seq<char>, JsonView)) -> bool {
        exists|i: int|
            0 <= i < self.names.len() && #[trigger] self.names[i] == m.0 && inference::kind_of(m.1)
                == Some(self.kinds[i])
    }

    pub open spec fn knows_all(self, members: Seq<(Seq<char>, JsonView)>) -> bool {
        forall|j: int| 0 <= j < members.len() ==> self.knows(#[trigger] members[j])
    }

    /// An object with some of the fields, in any order.
    pub open spec fn admits(self, v: JsonView) -> bool {
        v matches JsonView::Object(members) && self.knows_all(members)
    }

    /// How often each field occurs in a stream.
    pub open spec fn tallies(self, docs: Seq<(u64, JsonView)>) -> Seq<int> {
        Seq::new(self.names.len(), |k: int| presence(docs, self.names[k]))
    }

    /// The first `k` fields as a value type. A field is nullable where it
    /// occurs less often than there are documents, or where its values are
    /// null.
    pub open spec fn optional_fields(self, docs: Seq<(u64, JsonView)>, k: int) -> Seq<
        StructFieldView,
    >
        decreases k,
    {
        if k <= 0 {
            Seq::empty()
        } else {
            self.optional_fields(docs, k - 1).push(
                StructFieldView {
                    name: self.names[k - 1],
                    human_name: Seq::empty(),
                    value_type: shape::kind_type(self.kinds[k - 1]),
                    nullable: presence(docs, self.names[k - 1]) < docs.len() || self.kinds[k - 1]
                        == ScalarKind::Null,
                },
            )
        }
    }
}

// ---------------------------------------------------------------------
// The state along the way
// ---------------------------------------------------------------------

/// All fields are known; so many objects and keys were seen, and so many
/// values of each field.
spec fn settled(s: State, l: Layout, objects: int, keys: int, tallies: Seq<int>) -> bool {
    &&& s.arena.len() == 2 + l.names.len()
    &&& s.arena[0].array is None
    &&& s.arena[0].scalar_arms == Seq::new(6, |i: int| 0u64)
    &&& s.arena[0].obs == objects
    &&& s.arena[0].object matches Some(o) && {
        &&& o.obs == objects
        &&& o.record_alive
        &&& o.map_value == 1
        &&& o.key_count_sum == keys
        &&& o.fields.len() == l.names.len()
        &&& forall|k: int| 0 <= k < l.names.len() ==> #[trigger] o.fields[k] == (l.names[k], k + 2)
    }
    &&& tallies.len() == l.names.len()
    &&& forall|k: int|
        0 <= k < l.names.len() ==> records::counts(
            #[trigger] s.arena[k + 2],
            l.kinds[k],
            tallies[k],
        )
}

/// One key and its value.
proof fn lemma_member(
    s: State,
    l: Layout,
    objects: int,
    keys: int,
    tallies: Seq<int>,
    i: int,
    v: JsonView,
)
    requires
        l.wf(),
        0 <= i < l.names.len(),
        0 <= keys < u64::MAX,
        0 <= tallies[i] < u64::MAX,
        settled(s, l, objects, keys, tallies),
        records::between(s),
        inference::kind_of(v) == Some(l.kinds[i]),
    ensures
        ({
            let t = s.step(EventView::ObjectKey(l.names[i])).step(events::events_of(v)[0]);
            &&& settled(t, l, objects, keys + 1, tallies.update(i, tallies[i] + 1))
            &&& records::between(t)
            &&& t.policy == s.policy
            &&& t.arena[0].first_doc == s.arena[0].first_doc
            &&& t.arena[0].last_doc == s.arena[0].last_doc
        }),
{
    let key = l.names[i];
    let o = s.arena[0].object->Some_0;
    records::lemma_field_index(o.fields, l, i);
    let m = s.step(EventView::ObjectKey(key));
    let child = i + 2;
    assert(o.fields[i] == (l.names[i], i + 2));
    assert(m.pending == Some(child));
    let mo = m.arena[0].object->Some_0;
    assert(mo.fields == o.fields);
    assert(mo.key_count_sum == keys + 1);
    let e = events::events_of(v)[0];
    let t = m.step(e);
    let was = m.arena[child];
    assert(was == s.arena[i + 2]);
    let now = t.arena[child];
    assert(now.scalar_arms == crate::analyze::stats::raised(was.scalar_arms, l.kinds[i].place()));
    assert(records::counts(now, l.kinds[i], tallies[i] + 1)) by {
        assert forall|k: ScalarKind| #[trigger]
            now.scalar_arms[k.place()] == (if k == l.kinds[i] {
                tallies[i] + 1
            } else {
                0
            }) by {
            assert(was.scalar_arms[k.place()] == (if k == l.kinds[i] {
                tallies[i]
            } else {
                0
            }));
        }
    }
    let more = tallies.update(i, tallies[i] + 1);
    assert forall|k: int| 0 <= k < l.names.len() implies records::counts(
        #[trigger] t.arena[k + 2],
        l.kinds[k],
        more[k],
    ) by {
        if k != i {
            assert(t.arena[k + 2] == s.arena[k + 2]);
        }
    }
    assert(t.arena[0] == m.arena[0]);
}

/// The tallies after some members.
spec fn raised(tallies: Seq<int>, l: Layout, members: Seq<(Seq<char>, JsonView)>) -> Seq<int> {
    Seq::new(tallies.len(), |k: int| tallies[k] + occurs(members, l.names[k]))
}

proof fn lemma_occurs(members: Seq<(Seq<char>, JsonView)>, key: Seq<char>)
    ensures
        0 <= occurs(members, key) <= members.len(),
    decreases members.len(),
{
    if members.len() > 0 {
        lemma_occurs(members.drop_last(), key);
    }
}

/// Some members one after the other.
proof fn lemma_members(
    s: State,
    l: Layout,
    objects: int,
    keys: int,
    tallies: Seq<int>,
    members: Seq<(Seq<char>, JsonView)>,
)
    requires
        l.wf(),
        0 <= keys,
        keys + members.len() <= u64::MAX,
        tallies.len() == l.names.len(),
        forall|k: int| 0 <= k < tallies.len() ==> 0 <= #[trigger] tallies[k] <= keys,
        settled(s, l, objects, keys, tallies),
        records::between(s),
        l.knows_all(members),
    ensures
        ({
            let t = ingest::after_all::<StreamingAnalyzer>(s, events::member_events(members));
            &&& settled(t, l, objects, keys + members.len(), raised(tallies, l, members))
            &&& records::between(t)
            &&& t.policy == s.policy
            &&& t.arena[0].first_doc == s.arena[0].first_doc
            &&& t.arena[0].last_doc == s.arena[0].last_doc
        }),
    decreases members.len(),
{
    if members.len() == 0 {
        assert(raised(tallies, l, members) =~= tallies);
    } else {
        let front = members.drop_last();
        let (key, v) = members.last();
        assert(l.knows(members[members.len() - 1]));
        let i = choose|i: int|
            0 <= i < l.names.len() && #[trigger] l.names[i] == key && inference::kind_of(v) == Some(
                l.kinds[i],
            );
        assert forall|j: int| 0 <= j < front.len() implies l.knows(#[trigger] front[j]) by {
            assert(front[j] == members[j]);
        }
        lemma_members(s, l, objects, keys, tallies, front);
        let m = ingest::after_all::<StreamingAnalyzer>(s, events::member_events(front));
        let between = raised(tallies, l, front);
        lemma_occurs(front, key);
        assert(between[i] == tallies[i] + occurs(front, key));
        lemma_member(m, l, objects, keys + front.len(), between, i, v);
        assert(raised(tallies, l, members) =~= between.update(i, between[i] + 1)) by {
            assert forall|k: int| 0 <= k < tallies.len() implies #[trigger] raised(
                tallies,
                l,
                members,
            )[k] == between.update(i, between[i] + 1)[k] by {
                if k < i {
                    assert(l.names[k] != l.names[i]);
                } else if i < k {
                    assert(l.names[i] != l.names[k]);
                }
            }
        }
        let e = EventView::ObjectKey(key);
        let body = events::events_of(v);
        assert(body =~= seq![body[0]]);
        events::lemma_single::<StreamingAnalyzer>(m, e);
        events::lemma_single::<StreamingAnalyzer>(m.step(e), body[0]);
        events::lemma_split::<StreamingAnalyzer>(s, events::member_events(front), seq![e]);
        events::lemma_split::<StreamingAnalyzer>(
            s,
            events::member_events(front) + seq![e],
            body,
        );
    }
}

/// One document.
proof fn lemma_record(
    s: State,
    l: Layout,
    objects: int,
    keys: int,
    tallies: Seq<int>,
    ordinal: u64,
    v: JsonView,
)
    requires
        l.wf(),
        0 < objects < u64::MAX,
        0 <= keys,
        keys + v->Object_0.len() <= u64::MAX,
        forall|k: int| 0 <= k < tallies.len() ==> 0 <= #[trigger] tallies[k] <= keys,
        s.idle(),
        settled(s, l, objects, keys, tallies),
        l.admits(v),
    ensures
        ({
            let t = ingest::after_all::<StreamingAnalyzer>(
                s,
                events::document_events(ordinal, v),
            );
            &&& settled(
                t,
                l,
                objects + 1,
                keys + v->Object_0.len(),
                raised(tallies, l, v->Object_0),
            )
            &&& t.idle()
            &&& t.policy == s.policy
            &&& t.arena[0].first_doc == s.arena[0].first_doc
            &&& t.arena[0].last_doc == ordinal
        }),
{
    let members = v->Object_0;
    let open = EventView::DocumentBegin(ordinal);
    let close = EventView::DocumentEnd;
    let begin = EventView::ObjectBegin;
    let end = EventView::ObjectEnd;
    let a = s.step(open);
    let b = a.step(begin);
    assert(b.stack =~= seq![b.stack[0]]);
    assert(settled(b, l, objects + 1, keys, tallies)) by {
        assert forall|k: int| 0 <= k < l.names.len() implies records::counts(
            #[trigger] b.arena[k + 2],
            l.kinds[k],
            tallies[k],
        ) by {
            assert(b.arena[k + 2] == s.arena[k + 2]);
        }
    }
    lemma_members(b, l, objects + 1, keys, tallies, members);
    let c = ingest::after_all::<StreamingAnalyzer>(b, events::member_events(members));
    let d = c.step(end);
    let t = d.step(close);
    assert(d.stack.len() == 0);
    let after = raised(tallies, l, members);
    assert forall|k: int| 0 <= k < l.names.len() implies records::counts(
        #[trigger] t.arena[k + 2],
        l.kinds[k],
        after[k],
    ) by {
        assert(t.arena[k + 2] == c.arena[k + 2]);
    }
    let inner = seq![begin] + events::member_events(members);
    events::lemma_single::<StreamingAnalyzer>(s, open);
    events::lemma_single::<StreamingAnalyzer>(a, begin);
    events::lemma_single::<StreamingAnalyzer>(c, end);
    events::lemma_single::<StreamingAnalyzer>(d, close);
    events::lemma_split::<StreamingAnalyzer>(a, seq![begin], events::member_events(members));
    events::lemma_split::<StreamingAnalyzer>(a, inner, seq![end]);
    events::lemma_split::<StreamingAnalyzer>(s, seq![open], events::events_of(v));
    events::lemma_split::<StreamingAnalyzer>(
        s,
        seq![open] + events::events_of(v),
        seq![close],
    );
}

pub open spec fn all_admitted(l: Layout, docs: Seq<(u64, JsonView)>) -> bool {
    forall|i: int| 0 <= i < docs.len() ==> l.admits((#[trigger] docs[i]).1)
}

/// A field occurs no more often than there are keys.
proof fn lemma_presence(docs: Seq<(u64, JsonView)>, key: Seq<char>)
    ensures
        0 <= presence(docs, key) <= key_count(docs),
    decreases docs.len(),
{
    if docs.len() > 0 {
        lemma_presence(docs.drop_last(), key);
        lemma_occurs(docs.last().1->Object_0, key);
    }
}

/// A field of the layout occurs once in an object that has all of them.
proof fn lemma_full(l: Layout, members: Seq<(Seq<char>, JsonView)>, k: int)
    requires
        l.wf(),
        l.fits(members),
        0 <= k < l.names.len(),
    ensures
        occurs(members, l.names[k]) == (if k < members.len() {
            1int
        } else {
            0
        }),
    decreases members.len(),
{
    if members.len() > 0 {
        let front = members.drop_last();
        let j = members.len() - 1;
        assert(members[j].0 == l.names[j]);
        assert forall|i: int| 0 <= i < front.len() implies (#[trigger] front[i]).0 == l.names[i]
            && inference::kind_of(front[i].1) == Some(l.kinds[i]) by {
            assert(front[i] == members[i]);
        }
        lemma_full(l, front, k);
        if k < j {
            assert(l.names[k] != l.names[j]);
        } else if j < k {
            assert(l.names[j] != l.names[k]);
        }
    }
}

proof fn lemma_stream(
    policy: PolicyView,
    bounds: Seq<u64>,
    l: Layout,
    docs: Seq<(u64, JsonView)>,
)
    requires
        l.wf(),
        l.names.len() <= policy.record_view_cap,
        0 < docs.len() <= u64::MAX,
        key_count(docs) <= u64::MAX,
        l.describes(docs[0].1),
        all_admitted(l, docs),
    ensures
        ({
            let s = inference::fed(State::initial(policy, bounds), docs);
            &&& s.idle()
            &&& s.policy == policy
            &&& settled(s, l, docs.len() as int, key_count(docs), l.tallies(docs))
            &&& s.arena[0].first_doc == docs[0].0
            &&& s.arena[0].last_doc == docs.last().0
        }),
    decreases docs.len(),
{
    let start = State::initial(policy, bounds);
    let front = docs.drop_last();
    if docs.len() == 1 {
        assert forall|i: int| 0 <= i < docs.len() implies l.describes((#[trigger] docs[i]).1) by {}
        assert(key_count(front) == 0);
        assert(docs.last() == docs[0]);
        assert(1 * l.names.len() == l.names.len());
        records::lemma_records(policy, bounds, l, docs);
        let s = inference::fed(start, docs);
        assert(docs.len() as int * l.names.len() == l.names.len());
        assert forall|k: int| 0 <= k < l.names.len() implies l.tallies(docs)[k] == 1 by {
            lemma_full(l, docs[0].1->Object_0, k);
            assert(presence(front, l.names[k]) == 0);
        }
        assert forall|k: int| 0 <= k < l.names.len() implies records::counts(
            #[trigger] s.arena[k + 2],
            l.kinds[k],
            l.tallies(docs)[k],
        ) by {
            assert(l.tallies(docs)[k] == 1);
        }
    } else {
        assert forall|i: int| 0 <= i < front.len() implies l.admits((#[trigger] front[i]).1) by {
            assert(front[i] == docs[i]);
        }
        assert(front[0] == docs[0]);
        lemma_stream(policy, bounds, l, front);
        assert(l.admits(docs[docs.len() - 1].1));
        let before = l.tallies(front);
        assert forall|k: int| 0 <= k < before.len() implies 0 <= #[trigger] before[k] <= key_count(
            front,
        ) by {
            lemma_presence(front, l.names[k]);
        }
        lemma_key_count(front);
        lemma_record(
            inference::fed(start, front),
            l,
            front.len() as int,
            key_count(front),
            before,
            docs.last().0,
            docs.last().1,
        );
        assert(raised(before, l, docs.last().1->Object_0) =~= l.tallies(docs));
    }
}

proof fn lemma_key_count(docs: Seq<(u64, JsonView)>)
    ensures
        key_count(docs) >= 0,
    decreases docs.len(),
{
    if docs.len() > 0 {
        lemma_key_count(docs.drop_last());
    }
}

proof fn lemma_field_shapes(s: State, l: Layout, docs: Seq<(u64, JsonView)>, k: int)
    requires
        settled(s, l, docs.len() as int, key_count(docs), l.tallies(docs)),
        docs.len() > 0,
        0 <= k <= l.names.len(),
        l.wf(),
        forall|i: int| 0 <= i < l.names.len() ==> presence(docs, #[trigger] l.names[i]) > 0,
    ensures
        finish::field_shapes(s.arena, 0, k).len() == k,
        shape::flat_fields(finish::field_shapes(s.arena, 0, k)),
        shape::flattened_fields(finish::field_shapes(s.arena, 0, k)) == l.optional_fields(docs, k),
    decreases k,
{
    if k > 0 {
        lemma_field_shapes(s, l, docs, k - 1);
        let o = s.arena[0].object->Some_0;
        let seen = presence(docs, l.names[k - 1]);
        assert(o.fields[k - 1] == (l.names[k - 1], k + 1));
        assert(l.tallies(docs)[k - 1] == seen);
        assert(records::counts(s.arena[(k - 1) + 2], l.kinds[k - 1], seen));
        records::lemma_scalar_shape(s.arena, k + 1, l.kinds[k - 1], seen);
        assert(finish::child_shape(s.arena, 0, k + 1) == finish::shape_at(s.arena, k + 1));
        let v = finish::field_shapes(s.arena, 0, k);
        assert(v.drop_last() =~= finish::field_shapes(s.arena, 0, k - 1));
        let f = v.last();
        assert(shape::flat(f.shape));
        assert(shape::flattened(f.shape) == shape::kind_type(l.kinds[k - 1]));
        assert(f.nullable == (seen < docs.len() || l.kinds[k - 1] == ScalarKind::Null));
        assert(shape::flattened_fields(v) == l.optional_fields(docs, k));
    }
}

/// A key that a layout starts with is there in every longer stream.
proof fn lemma_present(l: Layout, docs: Seq<(u64, JsonView)>, k: int)
    requires
        l.wf(),
        docs.len() > 0,
        l.describes(docs[0].1),
        0 <= k < l.names.len(),
    ensures
        presence(docs, l.names[k]) > 0,
    decreases docs.len(),
{
    let front = docs.drop_last();
    lemma_occurs(docs.last().1->Object_0, l.names[k]);
    if docs.len() == 1 {
        assert(docs.last() == docs[0]);
        lemma_full(l, docs[0].1->Object_0, k);
        assert(presence(front, l.names[k]) == 0);
    } else {
        assert(front[0] == docs[0]);
        lemma_present(l, front, k);
    }
}

/// A stream of records whose first has all the keys, and whose others have any
/// of them in any order, with scalars of one kind at each, is found to be a
/// record with exactly these fields. A field is nullable where some records
/// lack it, or where it is always null. This holds up to as many keys as the
/// record view keeps, and, from sixteen on, where a record has a quarter of
/// them on average: otherwise the keys are taken for those of a map.
pub proof fn law_optional_fields_are_told(
    policy: PolicyView,
    bounds: Seq<u64>,
    l: Layout,
    docs: Seq<(u64, JsonView)>,
)
    requires
        l.wf(),
        l.names.len() <= policy.record_view_cap,
        0 < docs.len() <= u64::MAX,
        key_count(docs) <= u64::MAX,
        l.describes(docs[0].1),
        all_admitted(l, docs),
        l.names.len() >= 16 ==> l.names.len() * docs.len() <= 4 * key_count(docs),
    ensures
        engine::root_shape(inference::fed(State::initial(policy, bounds), docs)) == (ShapeView {
            kind: KindView::Type(
                TypeView::Struct { fields: l.optional_fields(docs, l.names.len() as int) },
            ),
            stats: stats::plain_stats(docs.len() as u64, docs[0].0, docs.last().0),
        }),
{
    lemma_stream(policy, bounds, l, docs);
    let s = inference::fed(State::initial(policy, bounds), docs);
    let o = s.arena[0].object->Some_0;
    assert(o.map_reason() is None);
    assert forall|k: int| 0 <= k < l.names.len() implies presence(docs, #[trigger] l.names[k])
        > 0 by {
        lemma_present(l, docs, k);
    }
    lemma_field_shapes(s, l, docs, l.names.len() as int);
    reveal_with_fuel(finish::scalar_shapes, 7);
    assert(finish::scalar_shapes(s.arena[0], 6) =~= Seq::empty());
    let arms = Seq::<ShapeView>::empty().push(finish::object_shape(s.arena, 0));
    assert(arms.len() == 1);
}

} // verus!
