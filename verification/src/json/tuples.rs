//! What the analyzer makes of a stream of arrays of a fixed length.
use crate::analyze::arena::{ArrayView, NodeView};
use crate::analyze::decide;
use crate::analyze::engine;
use crate::analyze::engine::StreamingAnalyzer;
use crate::analyze::finish;
use crate::analyze::machine::{FrameView, PolicyView, State};
use crate::analyze::shape;
use crate::analyze::sig::ScalarKind;
use crate::ingest;
use crate::ingest::{EventView, JsonEventSink};
use crate::json::events;
use crate::json::inference;
use crate::json::records;
use crate::json::JsonView;
use crate::node::{KindView, ShapeView};
use crate::stats;
use vstd::prelude::*;

verus! {

/// The items have the kinds of the first positions.
pub open spec fn fits(kinds: Seq<ScalarKind>, items: Seq<JsonView>) -> bool {
    &&& items.len() <= kinds.len()
    &&& forall|j: int|
        0 <= j < items.len() ==> inference::kind_of(#[trigger] items[j]) == Some(kinds[j])
}

/// An array with a scalar of the right kind at every position.
pub open spec fn describes(kinds: Seq<ScalarKind>, v: JsonView) -> bool {
    v matches JsonView::Array(items) && items.len() == kinds.len() && fits(kinds, items)
}

// ---------------------------------------------------------------------
// The state along the way
// ---------------------------------------------------------------------

/// The lengths after `n` arrays of one length.
spec fn lengths(length: int, n: int) -> Map<u32, u64> {
    if n > 0 {
        Map::empty().insert(length as u32, n as u64)
    } else {
        Map::empty()
    }
}

/// After `n` whole arrays, the first in document `first` and the last in
/// `last`, and `j` elements of one more, in document `now`, where `open` says
/// so.
spec fn midway(
    s: State,
    kinds: Seq<ScalarKind>,
    n: int,
    j: int,
    open: bool,
    first: u64,
    last: u64,
    now: u64,
) -> bool {
    let known = if n > 0 {
        kinds.len() as int
    } else {
        j
    };
    let arrays = if open {
        n + 1
    } else {
        n
    };
    &&& s.arena.len() == 2 + known
    &&& s.arena[0].object is None
    &&& s.arena[0].scalar_arms == Seq::new(6, |i: int| 0u64)
    &&& s.arena[0].obs == arrays
    &&& s.arena[0].array matches Some(a) && {
        &&& a.obs == arrays
        &&& a.positional_alive
        &&& a.bag_value == 1
        &&& a.length_histogram == lengths(kinds.len() as int, n)
        &&& a.positional.len() == known
        &&& forall|k: int| 0 <= k < known ==> #[trigger] a.positional[k] == k + 2
    }
    &&& forall|k: int|
        0 <= k < known ==> {
            let m = #[trigger] s.arena[k + 2];
            &&& records::counts(
                m,
                kinds[k],
                if k < j {
                    n + 1
                } else {
                    n
                },
            )
            &&& m.first_doc == first
            &&& m.last_doc == (if k < j {
                now
            } else {
                last
            })
        }
}

/// Inside the array, before the element at position `j`.
spec fn between(s: State, j: int) -> bool {
    &&& s.pending is None
    &&& s.stack.len() == 1
    &&& s.stack[0] matches FrameView::Array { node, position, .. } && node == 0 && position == j
}

/// One element.
proof fn lemma_item(
    s: State,
    kinds: Seq<ScalarKind>,
    n: int,
    j: int,
    first: u64,
    last: u64,
    v: JsonView,
)
    requires
        kinds.len() <= 16,
        kinds.len() <= s.policy.positional_view_cap,
        0 <= j < kinds.len(),
        0 <= n < u64::MAX,
        n == 0 ==> first == s.current_doc,
        midway(s, kinds, n, j, true, first, last, s.current_doc),
        between(s, j),
        inference::kind_of(v) == Some(kinds[j]),
    ensures
        ({
            let t = s.step(events::events_of(v)[0]);
            &&& midway(t, kinds, n, j + 1, true, first, last, s.current_doc)
            &&& between(t, j + 1)
            &&& t.policy == s.policy
            &&& t.current_doc == s.current_doc
            &&& t.arena[0].first_doc == s.arena[0].first_doc
            &&& t.arena[0].last_doc == s.arena[0].last_doc
        }),
{
    let e = events::events_of(v)[0];
    let a = s.arena[0].array->Some_0;
    let known = a.positional.len() as int;
    let child = j + 2;
    if n > 0 {
        assert(a.positional[j] == child);
    }
    let (m, id) = s.target();
    assert(id == child);
    let after = if n > 0 {
        known
    } else {
        known + 1
    };
    assert(m.arena.len() == 2 + after);
    let b = m.arena[0].array->Some_0;
    assert(b.positional.len() == after);
    assert forall|k: int| 0 <= k < after implies #[trigger] b.positional[k] == k + 2 by {
        if k < known {
            assert(a.positional[k] == k + 2);
        }
    }
    let was = m.arena[child];
    if n > 0 {
        assert(m.arena[child] == s.arena[j + 2]);
    } else {
        assert(was == NodeView::empty());
    }
    assert(records::counts(was, kinds[j], n));
    let t = s.step(e);
    let now = t.arena[child];
    assert(now.scalar_arms == crate::analyze::stats::raised(was.scalar_arms, kinds[j].place()));
    assert(records::counts(now, kinds[j], n + 1)) by {
        assert forall|k: ScalarKind| #[trigger]
            now.scalar_arms[k.place()] == (if k == kinds[j] {
                n + 1
            } else {
                0
            }) by {
            assert(was.scalar_arms[k.place()] == (if k == kinds[j] {
                n
            } else {
                0
            }));
        }
    }
    assert(now.first_doc == first);
    assert(now.last_doc == s.current_doc);
    assert forall|k: int| 0 <= k < after implies {
        let x = #[trigger] t.arena[k + 2];
        &&& records::counts(
            x,
            kinds[k],
            if k < j + 1 {
                n + 1
            } else {
                n
            },
        )
        &&& x.first_doc == first
        &&& x.last_doc == (if k < j + 1 {
            s.current_doc
        } else {
            last
        })
    } by {
        if k != j {
            assert(t.arena[k + 2] == s.arena[k + 2]);
        }
    }
    let c = t.arena[0].array->Some_0;
    assert(c.positional == b.positional);
    assert(t.stack =~= seq![t.stack[0]]);
}

/// Some elements one after the other.
proof fn lemma_items(
    s: State,
    kinds: Seq<ScalarKind>,
    n: int,
    first: u64,
    last: u64,
    items: Seq<JsonView>,
)
    requires
        kinds.len() <= 16,
        kinds.len() <= s.policy.positional_view_cap,
        0 <= n < u64::MAX,
        n == 0 ==> first == s.current_doc,
        midway(s, kinds, n, 0, true, first, last, s.current_doc),
        between(s, 0),
        fits(kinds, items),
    ensures
        ({
            let t = ingest::after_all::<StreamingAnalyzer>(s, events::item_events(items));
            &&& midway(t, kinds, n, items.len() as int, true, first, last, s.current_doc)
            &&& between(t, items.len() as int)
            &&& t.policy == s.policy
            &&& t.current_doc == s.current_doc
            &&& t.arena[0].first_doc == s.arena[0].first_doc
            &&& t.arena[0].last_doc == s.arena[0].last_doc
        }),
    decreases items.len(),
{
    if items.len() > 0 {
        let front = items.drop_last();
        let v = items.last();
        assert(items[items.len() - 1] == v);
        assert forall|j: int| 0 <= j < front.len() implies inference::kind_of(#[trigger] front[j])
            == Some(kinds[j]) by {
            assert(front[j] == items[j]);
        }
        lemma_items(s, kinds, n, first, last, front);
        let m = ingest::after_all::<StreamingAnalyzer>(s, events::item_events(front));
        lemma_item(m, kinds, n, front.len() as int, first, last, v);
        let body = events::events_of(v);
        assert(body =~= seq![body[0]]);
        events::lemma_single::<StreamingAnalyzer>(m, body[0]);
        events::lemma_split::<StreamingAnalyzer>(s, events::item_events(front), body);
    }
}

/// One document.
proof fn lemma_array(
    s: State,
    kinds: Seq<ScalarKind>,
    n: int,
    first: u64,
    last: u64,
    ordinal: u64,
    v: JsonView,
)
    requires
        1 <= kinds.len() <= 16,
        kinds.len() <= s.policy.positional_view_cap,
        0 <= n < u64::MAX,
        n == 0 ==> first == ordinal,
        s.idle(),
        if n == 0 {
            s.arena == seq![NodeView::empty()]
        } else {
            midway(s, kinds, n, 0, false, first, last, last) && s.arena[0].first_doc == first
        },
        describes(kinds, v),
    ensures
        ({
            let t = ingest::after_all::<StreamingAnalyzer>(
                s,
                events::document_events(ordinal, v),
            );
            &&& midway(t, kinds, n + 1, 0, false, first, ordinal, ordinal)
            &&& t.idle()
            &&& t.policy == s.policy
            &&& t.arena[0].first_doc == first
            &&& t.arena[0].last_doc == ordinal
        }),
{
    let items = v->Array_0;
    let open = EventView::DocumentBegin(ordinal);
    let close = EventView::DocumentEnd;
    let begin = EventView::ArrayBegin;
    let end = EventView::ArrayEnd;
    let a = s.step(open);
    let b = a.step(begin);
    assert(b.stack =~= seq![b.stack[0]]);
    assert(midway(b, kinds, n, 0, true, first, last, ordinal)) by {
        if n > 0 {
            assert forall|k: int| 0 <= k < kinds.len() implies {
                let m = #[trigger] b.arena[k + 2];
                &&& records::counts(m, kinds[k], n)
                &&& m.first_doc == first
                &&& m.last_doc == last
            } by {
                assert(b.arena[k + 2] == s.arena[k + 2]);
            }
        } else {
            assert(b.arena.len() == 2);
        }
    }
    lemma_items(b, kinds, n, first, last, items);
    let c = ingest::after_all::<StreamingAnalyzer>(b, events::item_events(items));
    let d = c.step(end);
    let t = d.step(close);
    assert(d.stack.len() == 0);
    let x = c.arena[0].array->Some_0;
    let y = t.arena[0].array->Some_0;
    let length = kinds.len() as u32;
    assert(y.length_histogram =~= lengths(kinds.len() as int, n + 1));
    assert(midway(t, kinds, n + 1, 0, false, first, ordinal, ordinal)) by {
        assert(y.positional == x.positional);
        assert forall|k: int| 0 <= k < kinds.len() implies {
            let m = #[trigger] t.arena[k + 2];
            &&& records::counts(m, kinds[k], n + 1)
            &&& m.first_doc == first
            &&& m.last_doc == ordinal
        } by {
            assert(t.arena[k + 2] == c.arena[k + 2]);
        }
    }
    let inner = seq![begin] + events::item_events(items);
    events::lemma_single::<StreamingAnalyzer>(s, open);
    events::lemma_single::<StreamingAnalyzer>(a, begin);
    events::lemma_single::<StreamingAnalyzer>(c, end);
    events::lemma_single::<StreamingAnalyzer>(d, close);
    events::lemma_split::<StreamingAnalyzer>(a, seq![begin], events::item_events(items));
    events::lemma_split::<StreamingAnalyzer>(a, inner, seq![end]);
    events::lemma_split::<StreamingAnalyzer>(s, seq![open], events::events_of(v));
    events::lemma_split::<StreamingAnalyzer>(
        s,
        seq![open] + events::events_of(v),
        seq![close],
    );
}

pub open spec fn all_described(kinds: Seq<ScalarKind>, docs: Seq<(u64, JsonView)>) -> bool {
    forall|i: int| 0 <= i < docs.len() ==> describes(kinds, (#[trigger] docs[i]).1)
}

proof fn lemma_arrays(
    policy: PolicyView,
    bounds: Seq<u64>,
    kinds: Seq<ScalarKind>,
    docs: Seq<(u64, JsonView)>,
)
    requires
        1 <= kinds.len() <= 16,
        kinds.len() <= policy.positional_view_cap,
        docs.len() <= u64::MAX,
        all_described(kinds, docs),
    ensures
        ({
            let s = inference::fed(State::initial(policy, bounds), docs);
            &&& s.idle()
            &&& s.policy == policy
            &&& docs.len() == 0 ==> s == State::initial(policy, bounds)
            &&& docs.len() > 0 ==> midway(
                s,
                kinds,
                docs.len() as int,
                0,
                false,
                docs[0].0,
                docs.last().0,
                docs.last().0,
            ) && s.arena[0].first_doc == docs[0].0 && s.arena[0].last_doc == docs.last().0
        }),
    decreases docs.len(),
{
    let start = State::initial(policy, bounds);
    if docs.len() > 0 {
        let front = docs.drop_last();
        assert forall|i: int| 0 <= i < front.len() implies describes(
            kinds,
            (#[trigger] front[i]).1,
        ) by {
            assert(front[i] == docs[i]);
        }
        lemma_arrays(policy, bounds, kinds, front);
        assert(describes(kinds, docs[docs.len() - 1].1));
        let last = if front.len() > 0 {
            front.last().0
        } else {
            0
        };
        if front.len() > 0 {
            assert(front[0] == docs[0]);
        }
        lemma_array(
            inference::fed(start, front),
            kinds,
            front.len() as int,
            docs[0].0,
            last,
            docs.last().0,
            docs.last().1,
        );
    }
}

/// The positions of a tuple: each with the shape of its scalars, seen once in
/// every document.
pub open spec fn positions(
    kinds: Seq<ScalarKind>,
    count: u64,
    first: u64,
    last: u64,
    k: int,
) -> Seq<ShapeView>
    decreases k,
{
    if k <= 0 {
        Seq::empty()
    } else {
        positions(kinds, count, first, last, k - 1).push(
            ShapeView {
                kind: KindView::Type(shape::kind_type(kinds[k - 1])),
                stats: stats::plain_stats(count, first, last),
            },
        )
    }
}

proof fn lemma_positions(
    s: State,
    kinds: Seq<ScalarKind>,
    n: int,
    first: u64,
    last: u64,
    k: int,
)
    requires
        midway(s, kinds, n, 0, false, first, last, last),
        0 < n <= u64::MAX,
        0 <= k <= kinds.len(),
    ensures
        finish::position_shapes(s.arena, 0, k) == positions(kinds, n as u64, first, last, k),
    decreases k,
{
    if k > 0 {
        lemma_positions(s, kinds, n, first, last, k - 1);
        let a = s.arena[0].array->Some_0;
        assert(a.positional[k - 1] == k + 1);
        assert(records::counts(s.arena[(k - 1) + 2], kinds[k - 1], n));
        records::lemma_scalar_shape(s.arena, k + 1, kinds[k - 1], n);
        assert(finish::child_shape(s.arena, 0, k + 1) == finish::shape_at(s.arena, k + 1));
    }
}

/// The one length is the mode of the lengths.
proof fn lemma_one_length(a: ArrayView, length: int, n: int)
    requires
        a.length_histogram == lengths(length, n),
        0 < n <= u64::MAX,
        0 <= length <= u32::MAX,
    ensures
        a.mode() == (length as u32, n as u64),
{
    let h = a.length_histogram;
    let l = length as u32;
    assert(h.dom() =~= Set::empty().insert(l));
    assert(h.dom().len() == 1);
    assert(decide::is_mode(h, l));
    let m = choose|m: u32| decide::is_mode(h, m);
    assert(decide::is_mode(h, m));
    assert(h.contains_key(m));
}

/// A stream of arrays that all have the same length, with scalars of one kind
/// at each position, is found to be a tuple with exactly these positions. This
/// holds for up to sixteen positions, and as many as the positional view
/// keeps.
pub proof fn law_stable_arrays_are_told(
    policy: PolicyView,
    bounds: Seq<u64>,
    kinds: Seq<ScalarKind>,
    docs: Seq<(u64, JsonView)>,
)
    requires
        1 <= kinds.len() <= 16,
        kinds.len() <= policy.positional_view_cap,
        0 < docs.len() <= u64::MAX,
        all_described(kinds, docs),
    ensures
        engine::root_shape(inference::fed(State::initial(policy, bounds), docs)) == (ShapeView {
            kind: KindView::Tuple {
                positions: positions(
                    kinds,
                    docs.len() as u64,
                    docs[0].0,
                    docs.last().0,
                    kinds.len() as int,
                ),
            },
            stats: stats::plain_stats(docs.len() as u64, docs[0].0, docs.last().0),
        }),
{
    lemma_arrays(policy, bounds, kinds, docs);
    let s = inference::fed(State::initial(policy, bounds), docs);
    let n = docs.len() as int;
    let a = s.arena[0].array->Some_0;
    lemma_one_length(a, kinds.len() as int, n);
    assert(a.bag_reason() is None);
    assert(finish::arity(a) == kinds.len());
    lemma_positions(s, kinds, n, docs[0].0, docs.last().0, kinds.len() as int);
    reveal_with_fuel(finish::scalar_shapes, 7);
    assert(finish::scalar_shapes(s.arena[0], 6) =~= Seq::empty());
    let arms = Seq::<ShapeView>::empty().push(finish::array_shape(s.arena, 0));
    assert(arms.len() == 1);
}

} // verus!
