//! What the analyzer makes of a stream of arrays, whatever is in them.
use crate::analyze::arena::NodeView;
use crate::analyze::decide;
use crate::analyze::engine;
use crate::analyze::engine::StreamingAnalyzer;
use crate::analyze::finish;
use crate::analyze::machine::{FrameView, PolicyView, State};
use crate::analyze::shape;
use crate::analyze::sig::SigView;
use crate::analyze::upkeep;
use crate::ingest;
use crate::ingest::{EventView, JsonEventSink};
use crate::json::events;
use crate::json::inference;
use crate::json::laws;
use crate::json::objects;
use crate::json::JsonView;
use crate::node::{KindView, ShapeView};
use crate::sketch;
use crate::sketch::SketchView;
use crate::tally;
use crate::value::TypeView;
use vstd::prelude::*;

verus! {

// ---------------------------------------------------------------------
// Elements and lengths
// ---------------------------------------------------------------------

/// Every document is an array.
pub open spec fn all_arrays(docs: Seq<(u64, JsonView)>) -> bool {
    forall|i: int| 0 <= i < docs.len() ==> (#[trigger] docs[i]).1 is Array
}

/// The elements of all the arrays, in order.
pub open spec fn elements(docs: Seq<(u64, JsonView)>) -> Seq<JsonView>
    decreases docs.len(),
{
    if docs.len() == 0 {
        Seq::empty()
    } else {
        elements(docs.drop_last()) + docs.last().1->Array_0
    }
}

/// The lengths of the arrays.
pub open spec fn lengths(docs: Seq<(u64, JsonView)>) -> Seq<u32> {
    docs.map_values(|d: (u64, JsonView)| d.1->Array_0.len() as u32)
}

/// The longest of the lengths.
pub open spec fn longest(docs: Seq<(u64, JsonView)>) -> int
    decreases docs.len(),
{
    if docs.len() == 0 {
        0
    } else {
        larger(longest(docs.drop_last()), docs.last().1->Array_0.len() as int)
    }
}

pub open spec fn larger(a: int, b: int) -> int {
    if a < b {
        b
    } else {
        a
    }
}

/// How often each length occurs.
pub open spec fn histogram(lengths: Seq<u32>) -> Map<u32, u64>
    decreases lengths.len(),
{
    if lengths.len() == 0 {
        Map::empty()
    } else {
        tally::counted(histogram(lengths.drop_last()), lengths.last())
    }
}

/// The root after `n` arrays, of the lengths in `told`, with elements of the
/// given signatures, and `most` of them in one.
pub open spec fn root_is(
    root: NodeView,
    policy: PolicyView,
    n: int,
    told: Map<u32, u64>,
    signatures: Seq<SigView>,
    most: int,
) -> bool {
    &&& root.scalar_arms == Seq::new(6, |i: int| 0u64)
    &&& root.object is None
    &&& root.obs == n
    &&& root.array matches Some(a) && {
        &&& a.obs == n
        &&& a.length_histogram == told
        &&& a.element_cluster == SketchView::of(policy.cluster_cap as int, signatures)
        &&& a.positional_alive == (most <= policy.positional_view_cap)
        &&& a.positional_alive ==> a.positional.len() == most
    }
}

/// Inside the array at the root, before the element at `position`.
pub open spec fn inside(s: State, position: int) -> bool {
    &&& s.wf()
    &&& s.pending is None
    &&& s.stack.len() == 1
    &&& s.stack.last() matches FrameView::Array { node, position: p, .. } && node == 0 && p
        == position
}

/// One element of the root.
proof fn lemma_element(
    s: State,
    v: JsonView,
    position: int,
    n: int,
    told: Map<u32, u64>,
    signatures: Seq<SigView>,
    most: int,
)
    requires
        inside(s, position),
        position < u32::MAX,
        s.policy.cluster_cap > 0,
        laws::countable(v, s.policy.cluster_cap),
        s.events + events::events_of(v).len() <= u64::MAX,
        root_is(s.arena[0], s.policy, n, told, signatures, most),
        0 <= position <= most,
    ensures
        ({
            let t = ingest::after_all::<StreamingAnalyzer>(s, events::events_of(v));
            &&& inside(t, position + 1)
            &&& t.policy == s.policy
            &&& t.events == s.events + events::events_of(v).len()
            &&& root_is(
                t.arena[0],
                s.policy,
                n,
                told,
                signatures.push(laws::signature(v)),
                larger(most, position + 1),
            )
            &&& t.arena[0].first_doc == s.arena[0].first_doc
            &&& t.arena[0].last_doc == s.arena[0].last_doc
        }),
{
    laws::lemma_value(s, v);
    let t = ingest::after_all::<StreamingAnalyzer>(s, events::events_of(v));
    let more = signatures.push(laws::signature(v));
    assert(more.drop_last() =~= signatures);
    assert(t.stack.drop_last() =~= Seq::empty());
}

/// The elements of an array at the root, one after the other.
proof fn lemma_elements(
    s: State,
    items: Seq<JsonView>,
    n: int,
    told: Map<u32, u64>,
    signatures: Seq<SigView>,
    most: int,
)
    requires
        inside(s, 0),
        items.len() <= u32::MAX,
        items.len() > 0 ==> s.policy.cluster_cap > 0,
        laws::items_countable(items, s.policy.cluster_cap),
        s.events + events::item_events(items).len() <= u64::MAX,
        root_is(s.arena[0], s.policy, n, told, signatures, most),
        0 <= most,
    ensures
        ({
            let t = ingest::after_all::<StreamingAnalyzer>(s, events::item_events(items));
            &&& inside(t, items.len() as int)
            &&& t.policy == s.policy
            &&& t.events == s.events + events::item_events(items).len()
            &&& root_is(
                t.arena[0],
                s.policy,
                n,
                told,
                signatures + laws::item_signatures(items),
                larger(most, items.len() as int),
            )
            &&& t.arena[0].first_doc == s.arena[0].first_doc
            &&& t.arena[0].last_doc == s.arena[0].last_doc
        }),
    decreases items.len(),
{
    if items.len() > 0 {
        let front = items.drop_last();
        let v = items.last();
        let before = events::item_events(front);
        lemma_elements(s, front, n, told, signatures, most);
        let a = ingest::after_all::<StreamingAnalyzer>(s, before);
        let between = signatures + laws::item_signatures(front);
        lemma_element(
            a,
            v,
            front.len() as int,
            n,
            told,
            between,
            larger(most, front.len() as int),
        );
        events::lemma_split::<StreamingAnalyzer>(s, before, events::events_of(v));
        assert(signatures + laws::item_signatures(items) =~= between.push(laws::signature(v)));
    } else {
        assert(signatures + laws::item_signatures(items) =~= signatures);
    }
}

/// An array opens at the root.
proof fn lemma_opened(
    s: State,
    ordinal: u64,
    n: int,
    told: Map<u32, u64>,
    signatures: Seq<SigView>,
    most: int,
)
    requires
        s.wf(),
        s.idle(),
        s.events + 2 <= u64::MAX,
        if n == 0 {
            s.arena[0] == NodeView::empty() && told == Map::<u32, u64>::empty() && signatures.len()
                == 0 && most == 0
        } else {
            root_is(s.arena[0], s.policy, n, told, signatures, most)
        },
        n >= 0,
    ensures
        ({
            let a = s.step(EventView::DocumentBegin(ordinal));
            let b = a.step(EventView::ArrayBegin);
            &&& inside(b, 0)
            &&& b.policy == s.policy
            &&& b.events == s.events + 2
            &&& root_is(b.arena[0], s.policy, n + 1, told, signatures, most)
            &&& b.arena[0].first_doc == (if n == 0 {
                ordinal
            } else {
                s.arena[0].first_doc
            })
            &&& b.arena[0].last_doc == ordinal
        }),
{
    let open = EventView::DocumentBegin(ordinal);
    let begin = EventView::ArrayBegin;
    upkeep::law_events_keep_the_invariant(s, open);
    assert(s.arena[0].wf(0, s.arena.len() as int, s.policy.caps(), s.events));
    let a = s.step(open);
    laws::lemma_begins(a, begin);
    let b = a.step(begin);
    assert(b.stack.drop_last() =~= Seq::empty());
}

/// The array at the root comes to its end, and the document with it.
proof fn lemma_closed(
    c: State,
    length: int,
    n: int,
    told: Map<u32, u64>,
    signatures: Seq<SigView>,
    most: int,
)
    requires
        inside(c, length),
        root_is(c.arena[0], c.policy, n, told, signatures, most),
    ensures
        ({
            let d = c.step(EventView::ArrayEnd);
            let t = d.step(EventView::DocumentEnd);
            &&& root_is(
                t.arena[0],
                c.policy,
                n,
                tally::counted(told, length as u32),
                signatures,
                most,
            )
            &&& t.arena[0].first_doc == c.arena[0].first_doc
            &&& t.arena[0].last_doc == c.arena[0].last_doc
        }),
{
    let d = c.step(EventView::ArrayEnd);
    assert(d.stack.len() == 0);
}

/// The events of an array as a document, in their order.
#[verifier::spinoff_prover]
proof fn lemma_document_events(s: State, ordinal: u64, items: Seq<JsonView>)
    ensures
        ({
            let all = events::document_events(ordinal, JsonView::Array(items));
            let inner = events::item_events(items);
            let b = s.step(EventView::DocumentBegin(ordinal)).step(EventView::ArrayBegin);
            let c = ingest::after_all::<StreamingAnalyzer>(b, inner);
            &&& ingest::after_all::<StreamingAnalyzer>(s, all) == c.step(EventView::ArrayEnd).step(
                EventView::DocumentEnd,
            )
            &&& all.len() == inner.len() + 4
        }),
{
    events::lemma_framed::<StreamingAnalyzer>(
        s,
        EventView::DocumentBegin(ordinal),
        EventView::ArrayBegin,
        events::item_events(items),
        EventView::ArrayEnd,
        EventView::DocumentEnd,
    );
}

proof fn lemma_item_signatures(a: Seq<JsonView>, b: Seq<JsonView>)
    ensures
        laws::item_signatures(a + b) == laws::item_signatures(a) + laws::item_signatures(b),
    decreases b.len(),
{
    if b.len() == 0 {
        assert(a + b =~= a);
        assert(laws::item_signatures(a) + laws::item_signatures(b) =~= laws::item_signatures(a));
    } else {
        lemma_item_signatures(a, b.drop_last());
        assert((a + b).drop_last() =~= a + b.drop_last());
        assert(laws::item_signatures(a + b) =~= laws::item_signatures(a) + laws::item_signatures(
            b,
        ));
    }
}

/// One array as a document.
proof fn lemma_array_document(
    s: State,
    ordinal: u64,
    items: Seq<JsonView>,
    n: int,
    told: Map<u32, u64>,
    signatures: Seq<SigView>,
    most: int,
)
    requires
        s.wf(),
        s.idle(),
        laws::countable(JsonView::Array(items), s.policy.cluster_cap),
        s.events + events::document_events(ordinal, JsonView::Array(items)).len() <= u64::MAX,
        if n == 0 {
            s.arena[0] == NodeView::empty() && told == Map::<u32, u64>::empty() && signatures.len()
                == 0 && most == 0
        } else {
            root_is(s.arena[0], s.policy, n, told, signatures, most)
        },
        n >= 0,
        0 <= most,
    ensures
        ({
            let t = ingest::after_all::<StreamingAnalyzer>(
                s,
                events::document_events(ordinal, JsonView::Array(items)),
            );
            &&& root_is(
                t.arena[0],
                s.policy,
                n + 1,
                tally::counted(told, items.len() as u32),
                signatures + laws::item_signatures(items),
                larger(most, items.len() as int),
            )
            &&& t.arena[0].first_doc == (if n == 0 {
                ordinal
            } else {
                s.arena[0].first_doc
            })
            &&& t.arena[0].last_doc == ordinal
        }),
{
    lemma_document_events(s, ordinal, items);
    lemma_opened(s, ordinal, n, told, signatures, most);
    let b = s.step(EventView::DocumentBegin(ordinal)).step(EventView::ArrayBegin);
    lemma_elements(b, items, n + 1, told, signatures, most);
    let c = ingest::after_all::<StreamingAnalyzer>(b, events::item_events(items));
    lemma_closed(
        c,
        items.len() as int,
        n + 1,
        told,
        signatures + laws::item_signatures(items),
        larger(most, items.len() as int),
    );
}

/// A stream of arrays.
proof fn lemma_arrays(policy: PolicyView, bounds: Seq<u64>, docs: Seq<(u64, JsonView)>)
    requires
        all_arrays(docs),
        inference::all_countable(docs, policy.cluster_cap),
        inference::event_count(docs) <= u64::MAX,
    ensures
        ({
            let s = inference::fed(State::initial(policy, bounds), docs);
            &&& s.wf()
            &&& s.policy == policy
            &&& docs.len() == 0 ==> s == State::initial(policy, bounds)
            &&& docs.len() > 0 ==> {
                &&& root_is(
                    s.arena[0],
                    policy,
                    docs.len() as int,
                    histogram(lengths(docs)),
                    laws::item_signatures(elements(docs)),
                    longest(docs),
                )
                &&& s.arena[0].first_doc == docs[0].0
                &&& s.arena[0].last_doc == docs.last().0
            }
            &&& longest(docs) >= 0
        }),
    decreases docs.len(),
{
    upkeep::law_invariant_holds_at_first(policy, bounds);
    let start = State::initial(policy, bounds);
    inference::law_streams_are_counted(start, docs);
    if docs.len() > 0 {
        let front = docs.drop_last();
        let (ordinal, v) = docs.last();
        assert(docs[docs.len() - 1] == (ordinal, v));
        assert forall|i: int| 0 <= i < front.len() implies (#[trigger] front[i]).1 is Array by {
            assert(front[i] == docs[i]);
        }
        assert forall|i: int| 0 <= i < front.len() implies laws::countable(
            (#[trigger] front[i]).1,
            policy.cluster_cap,
        ) by {
            assert(front[i] == docs[i]);
        }
        assert(v is Array && laws::countable(v, policy.cluster_cap));
        lemma_arrays(policy, bounds, front);
        inference::law_streams_are_counted(start, front);
        let items = v->Array_0;
        let told = histogram(lengths(front));
        assert(lengths(docs).drop_last() =~= lengths(front));
        assert(lengths(docs).last() == items.len() as u32);
        if front.len() > 0 {
            assert(front[0] == docs[0]);
        } else {
            assert(lengths(front) =~= Seq::empty());
            assert(laws::item_signatures(elements(front)).len() == 0);
        }
        lemma_array_document(
            inference::fed(start, front),
            ordinal,
            items,
            front.len() as int,
            told,
            laws::item_signatures(elements(front)),
            longest(front),
        );
        lemma_item_signatures(elements(front), items);
    }
}

// ---------------------------------------------------------------------
// Tuples and bags
// ---------------------------------------------------------------------

/// How many of the arrays have a length.
pub open spec fn of_length(lengths: Seq<u32>, l: u32) -> nat {
    lengths.to_multiset().count(l)
}

proof fn lemma_histogram(lengths: Seq<u32>)
    requires
        lengths.len() <= u64::MAX,
    ensures
        histogram(lengths).dom().finite(),
        forall|l: u32| #[trigger] histogram(lengths).contains_key(l) <==> of_length(lengths, l) > 0,
        forall|l: u32| #[trigger]
            histogram(lengths).contains_key(l) ==> histogram(lengths)[l] == of_length(lengths, l),
        forall|l: u32| #[trigger] of_length(lengths, l) <= lengths.len(),
    decreases lengths.len(),
{
    broadcast use vstd::seq_lib::group_to_multiset_ensures;

    assert(lengths.to_multiset().len() == lengths.len());
    if lengths.len() > 0 {
        let front = lengths.drop_last();
        lemma_histogram(front);
        assert(front.push(lengths.last()) =~= lengths);
        assert forall|l: u32| #[trigger] of_length(lengths, l) == of_length(front, l) + (if l
            == lengths.last() {
            1nat
        } else {
            0
        }) by {}
    }
}

/// Two lengths are those of no more arrays than there are.
proof fn lemma_two_lengths(lengths: Seq<u32>, a: u32, b: u32)
    requires
        a != b,
    ensures
        of_length(lengths, a) + of_length(lengths, b) <= lengths.len(),
    decreases lengths.len(),
{
    broadcast use vstd::seq_lib::group_to_multiset_ensures;

    assert(lengths.to_multiset().len() == lengths.len());
    if lengths.len() > 0 {
        let front = lengths.drop_last();
        lemma_two_lengths(front, a, b);
        assert(front.push(lengths.last()) =~= lengths);
    }
}

/// A length that nine in ten arrays have is the mode.
proof fn lemma_mode(lengths: Seq<u32>, l: u32)
    requires
        0 < lengths.len() <= u64::MAX,
        10 * of_length(lengths, l) >= 9 * lengths.len(),
    ensures
        decide::mode_of(histogram(lengths)) == (l, of_length(lengths, l) as u64),
{
    lemma_histogram(lengths);
    let h = histogram(lengths);
    assert(h.contains_key(l));
    assert(h.dom().contains(l));
    assert(decide::is_mode(h, l)) by {
        assert forall|j: u32| #[trigger] h.contains_key(j) implies h[j] < h[l] || (h[j] == h[l] && j
            <= l) by {
            if j != l {
                lemma_two_lengths(lengths, j, l);
            }
        }
    }
    let m = choose|m: u32| decide::is_mode(h, m);
    assert(decide::is_mode(h, m));
    assert(h.contains_key(m));
    assert(h.dom().len() > 0) by {
        vstd::set::axiom_set_contains_len(h.dom(), l);
    }
}

/// The root shape of a stream of arrays.
proof fn lemma_root_shape(
    s: State,
    policy: PolicyView,
    n: int,
    told: Map<u32, u64>,
    signatures: Seq<SigView>,
    most: int,
)
    requires
        root_is(s.arena[0], policy, n, told, signatures, most),
    ensures
        engine::root_shape(s) == finish::array_shape(s.arena, 0),
{
    reveal_with_fuel(finish::scalar_shapes, 7);
    assert(finish::scalar_shapes(s.arena[0], 6) =~= Seq::empty());
    let arms = Seq::<ShapeView>::empty().push(finish::array_shape(s.arena, 0));
    assert(arms.len() == 1);
}

proof fn lemma_position_count(arena: Seq<NodeView>, k: int)
    requires
        k >= 0,
    ensures
        finish::position_shapes(arena, 0, k).len() == k,
    decreases k,
{
    if k > 0 {
        lemma_position_count(arena, k - 1);
    }
}

proof fn lemma_longest(docs: Seq<(u64, JsonView)>, i: int)
    requires
        0 <= i < docs.len(),
    ensures
        docs[i].1->Array_0.len() <= longest(docs),
    decreases docs.len(),
{
    if i < docs.len() - 1 {
        assert(docs.drop_last()[i] == docs[i]);
        lemma_longest(docs.drop_last(), i);
    }
}

/// A length that nine in ten of the arrays have, from one to sixteen, and no
/// array longer than the positional view keeps.
pub open spec fn tight(policy: PolicyView, docs: Seq<(u64, JsonView)>, l: u32) -> bool {
    &&& 1 <= l <= 16
    &&& 10 * of_length(lengths(docs), l) >= 9 * docs.len()
    &&& forall|i: int|
        0 <= i < docs.len() ==> (#[trigger] docs[i]).1->Array_0.len() <= policy.positional_view_cap
}

/// A bag: an array of elements of one shape.
pub open spec fn is_bag(s: ShapeView) -> bool {
    match s.kind {
        KindView::Array { .. } => true,
        KindView::Type(t) => t is Array,
        _ => false,
    }
}

proof fn lemma_longest_is_some(docs: Seq<(u64, JsonView)>, cap: int)
    requires
        cap >= 0,
        forall|i: int| 0 <= i < docs.len() ==> (#[trigger] docs[i]).1->Array_0.len() <= cap,
    ensures
        longest(docs) <= cap,
    decreases docs.len(),
{
    if docs.len() > 0 {
        let front = docs.drop_last();
        assert forall|i: int| 0 <= i < front.len() implies (#[trigger] front[i]).1->Array_0.len()
            <= cap by {
            assert(front[i] == docs[i]);
        }
        lemma_longest_is_some(front, cap);
        assert(docs[docs.len() - 1].1->Array_0.len() <= cap);
    }
}

/// A stream of arrays is found to be a tuple, with as many positions as nine
/// in ten arrays have elements, where there is such a length, of one to
/// sixteen, and no array is longer than the positional view keeps; else it is
/// found to be a bag. Every document is counted, from the first to the last.
pub proof fn law_tuples_and_bags_are_told_apart(
    policy: PolicyView,
    bounds: Seq<u64>,
    docs: Seq<(u64, JsonView)>,
)
    requires
        docs.len() > 0,
        all_arrays(docs),
        inference::all_countable(docs, policy.cluster_cap),
        inference::event_count(docs) <= u64::MAX,
    ensures
        ({
            let s = engine::root_shape(inference::fed(State::initial(policy, bounds), docs));
            &&& forall|l: u32| #[trigger]
                tight(policy, docs, l) ==> (s.kind matches KindView::Tuple { positions }
                    && positions.len() == l)
            &&& (forall|l: u32| !#[trigger] tight(policy, docs, l)) ==> is_bag(s)
            &&& s.stats.observation_count == docs.len()
            &&& s.stats.first_doc_ordinal == docs[0].0
            &&& s.stats.last_doc_ordinal == docs.last().0
        }),
{
    upkeep::law_invariant_holds_at_first(policy, bounds);
    inference::law_streams_are_counted(State::initial(policy, bounds), docs);
    lemma_arrays(policy, bounds, docs);
    let t = inference::fed(State::initial(policy, bounds), docs);
    let all = lengths(docs);
    lemma_root_shape(
        t,
        policy,
        docs.len() as int,
        histogram(all),
        laws::item_signatures(elements(docs)),
        longest(docs),
    );
    let s = engine::root_shape(t);
    let a = t.array_at(0);
    lemma_histogram(all);
    assert(docs.len() <= u64::MAX);
    assert forall|l: u32| #[trigger] tight(policy, docs, l) implies (
    s.kind matches KindView::Tuple { positions } && positions.len() == l) by {
        lemma_mode(all, l);
        lemma_longest_is_some(docs, policy.positional_view_cap as int);
        assert(exists|i: int| 0 <= i < docs.len() && #[trigger] all[i] == l) by {
            broadcast use vstd::seq_lib::group_to_multiset_ensures;

            assert(all.contains(l));
            let i = choose|i: int| 0 <= i < all.len() && all[i] == l;
            assert(all[i] == l);
        }
        let i = choose|i: int| 0 <= i < docs.len() && #[trigger] all[i] == l;
        lemma_longest(docs, i);
        assert(laws::countable(docs[i].1, policy.cluster_cap));
        assert(docs[i].1 is Array);
        assert(docs[i].1->Array_0.len() == l);
        assert(a.bag_reason() is None);
        assert(finish::arity(a) == l);
        lemma_position_count(t.arena, l as int);
    }
    if forall|l: u32| !#[trigger] tight(policy, docs, l) {
        if a.bag_reason() is None {
            let l = a.mode().0;
            let h = histogram(all);
            assert(h.dom().len() > 0);
            lemma_some_mode(all);
            assert(h[l] == of_length(all, l));
            assert forall|i: int| 0 <= i < docs.len() implies (#[trigger] docs[i]).1->Array_0.len()
                <= policy.positional_view_cap by {
                lemma_longest(docs, i);
            }
            assert(tight(policy, docs, l));
        }
    }
}

/// There is a mode where there is a length.
proof fn lemma_some_mode(lengths: Seq<u32>)
    requires
        0 < lengths.len() <= u64::MAX,
        histogram(lengths).dom().len() > 0,
    ensures
        decide::is_mode(histogram(lengths), decide::mode_of(histogram(lengths)).0),
{
    lemma_histogram(lengths);
    let h = histogram(lengths);
    lemma_top(h, h.dom());
    let k = choose|k: u32| top_of(h, h.dom(), k);
    assert(decide::is_mode(h, k));
}

/// The key among `keys` with the highest count, and the largest such key.
spec fn top_of(h: Map<u32, u64>, keys: Set<u32>, k: u32) -> bool {
    &&& keys.contains(k)
    &&& forall|j: u32| #[trigger]
        keys.contains(j) ==> h[j] < h[k] || (h[j] == h[k] && j <= k)
}

proof fn lemma_top(h: Map<u32, u64>, keys: Set<u32>)
    requires
        keys.finite(),
        keys.len() > 0,
    ensures
        exists|k: u32| top_of(h, keys, k),
    decreases keys.len(),
{
    let x = keys.choose();
    let rest = keys.remove(x);
    if rest.len() == 0 {
        assert(rest =~= Set::empty());
        assert forall|j: u32| #[trigger] keys.contains(j) implies h[j] < h[x] || (h[j] == h[x] && j
            <= x) by {
            if j != x {
                assert(rest.contains(j));
            }
        }
        assert(top_of(h, keys, x));
    } else {
        lemma_top(h, rest);
        let k = choose|k: u32| top_of(h, rest, k);
        let best = if h[x] < h[k] || (h[x] == h[k] && x <= k) {
            k
        } else {
            x
        };
        assert forall|j: u32| #[trigger] keys.contains(j) implies h[j] < h[best] || (h[j]
            == h[best] && j <= best) by {
            if j != x {
                assert(rest.contains(j));
            }
        }
        assert(top_of(h, keys, best));
    }
}

// ---------------------------------------------------------------------
// The elements of a bag
// ---------------------------------------------------------------------

/// The element shape of a bag.
pub open spec fn element_of(s: ShapeView) -> (KindView, bool) {
    match s.kind {
        KindView::Array { element, elements_nullable } => (element.kind, elements_nullable),
        KindView::Type(TypeView::Array { element_type, elements_nullable }) => (
            KindView::Type(*element_type),
            elements_nullable,
        ),
        _ => (KindView::Absent, false),
    }
}

/// A kind that tells of a value, itself or by an arm of a variant.
pub open spec fn tells(kind: KindView, v: JsonView) -> bool {
    ||| objects::suits(kind, v)
    ||| kind matches KindView::Variant { arms } && exists|i: int|
        0 <= i < arms.len() && objects::suits((#[trigger] arms[i]).kind, v)
}

proof fn lemma_suits(v: JsonView, count: u64)
    ensures
        objects::suits(shape::shape_of_sig(laws::signature(v), count).kind, v),
        !(laws::signature(v) is Empty),
{
}

/// An entry that tells of a value is kept, and has its shape.
proof fn lemma_told(entries: Seq<(SigView, u64)>, i: int)
    requires
        0 <= i < entries.len(),
        !(entries[i].0 is Empty),
    ensures
        ({
            let t = finish::telling(entries);
            let e = finish::entry_shapes(t);
            &&& e.len() == t.len()
            &&& exists|k: int|
                0 <= k < t.len() && t[k] == entries[i] && #[trigger] e[k]
                    == shape::shape_of_sig(entries[i].0, entries[i].1)
        }),
    decreases entries.len(),
{
    let front = entries.drop_last();
    let t = finish::telling(entries);
    let e = finish::entry_shapes(t);
    if i < front.len() {
        assert(front[i] == entries[i]);
        lemma_told(front, i);
        let tf = finish::telling(front);
        let ef = finish::entry_shapes(tf);
        let k = choose|k: int|
            0 <= k < tf.len() && tf[k] == front[i] && #[trigger] ef[k] == shape::shape_of_sig(
                front[i].0,
                front[i].1,
            );
        if !(entries.last().0 is Empty) {
            assert(t.drop_last() =~= tf);
            assert(t[k] == tf[k] && e[k] == ef[k]);
        } else {
            assert(t[k] == entries[i] && e[k] == ef[k]);
        }
    } else {
        let tf = finish::telling(front);
        assert(t.drop_last() =~= tf);
        lemma_entry_shapes(tf);
        let k = tf.len() as int;
        assert(t[k] == entries[i] && e[k] == shape::shape_of_sig(entries[i].0, entries[i].1));
    }
}

proof fn lemma_entry_shapes(s: Seq<(SigView, u64)>)
    ensures
        finish::entry_shapes(s).len() == s.len(),
    decreases s.len(),
{
    if s.len() > 0 {
        lemma_entry_shapes(s.drop_last());
    }
}

proof fn lemma_signature_at(items: Seq<JsonView>, i: int)
    requires
        0 <= i < items.len(),
    ensures
        laws::item_signatures(items).len() == items.len(),
        laws::item_signatures(items)[i] == laws::signature(items[i]),
    decreases items.len(),
{
    let front = items.drop_last();
    if i < front.len() {
        assert(front[i] == items[i]);
        lemma_signature_at(front, i);
    } else if front.len() > 0 {
        lemma_signature_at(front, 0);
    } else {
        assert(laws::item_signatures(front).len() == 0);
    }
}

proof fn lemma_nullish_arms(arms: Seq<ShapeView>, i: int)
    requires
        0 <= i < arms.len(),
        arms[i].kind == KindView::Type(TypeView::Null),
    ensures
        shape::any_nullish(arms),
    decreases arms.len(),
{
    if i < arms.len() - 1 {
        assert(arms.drop_last()[i] == arms[i]);
        lemma_nullish_arms(arms.drop_last(), i);
    } else {
        assert(shape::nullish(arms.last()));
    }
}

/// Whatever was seen as an element of the arrays of a stream is told of the
/// elements, where the arrays are found to be a bag: they are of the kind of
/// that value, or a variant with an arm of that kind. Elements one of which was
/// null are nullable. This holds where there are fewer different signatures of
/// elements than clusters are kept.
pub proof fn law_seen_elements_are_told(
    policy: PolicyView,
    bounds: Seq<u64>,
    docs: Seq<(u64, JsonView)>,
    i: int,
)
    requires
        docs.len() > 0,
        all_arrays(docs),
        inference::all_countable(docs, policy.cluster_cap),
        inference::event_count(docs) <= u64::MAX,
        0 <= i < elements(docs).len() <= u64::MAX,
        laws::item_signatures(elements(docs)).to_set().len() < policy.cluster_cap,
    ensures
        ({
            let s = engine::root_shape(inference::fed(State::initial(policy, bounds), docs));
            let v = elements(docs)[i];
            is_bag(s) ==> tells(element_of(s).0, v) && (v is Null ==> element_of(s).1)
        }),
{
    upkeep::law_invariant_holds_at_first(policy, bounds);
    inference::law_streams_are_counted(State::initial(policy, bounds), docs);
    lemma_arrays(policy, bounds, docs);
    let t = inference::fed(State::initial(policy, bounds), docs);
    let sigs = laws::item_signatures(elements(docs));
    lemma_root_shape(
        t,
        policy,
        docs.len() as int,
        histogram(lengths(docs)),
        sigs,
        longest(docs),
    );
    let s = engine::root_shape(t);
    let a = t.array_at(0);
    let v = elements(docs)[i];
    let sig = laws::signature(v);
    let cap = policy.cluster_cap as int;
    lemma_signature_at(elements(docs), i);
    let entries = SketchView::of(cap, sigs).entries;
    sketch::laws::law_counters_are_capped_distinct_keys(cap, sigs);
    if a.bag_reason() is Some {
        assert(sketch::tracks(entries, sig)) by {
            sketch::laws::law_untracked_keys_occur_not(cap, sigs, sig, i);
        }
        let k = sketch::slot_of(entries, sig);
        let ranked = sketch::by_count(entries);
        sketch::laws::law_entries_are_ranked(entries);
        assert(ranked.contains(entries[k])) by {
            broadcast use vstd::seq_lib::group_to_multiset_ensures;

            assert(entries.contains(entries[k]));
            assert(entries.to_multiset().count(entries[k]) > 0);
            assert(ranked.to_multiset().count(entries[k]) > 0);
        }
        let r = choose|r: int| 0 <= r < ranked.len() && ranked[r] == entries[k];
        lemma_suits(v, entries[k].1);
        lemma_told(ranked, r);
        let told = finish::clusters(a);
        let arms = finish::entry_shapes(told);
        let x = choose|x: int|
            0 <= x < told.len() && told[x] == ranked[r] && #[trigger] arms[x]
                == shape::shape_of_sig(ranked[r].0, ranked[r].1);
        assert(objects::suits(arms[x].kind, v));
        let element = finish::element_shape(t.arena, 0);
        assert(element.kind == arms[0].kind && arms.len() == 1 || element.kind
            == KindView::Variant { arms });
        if v is Null {
            lemma_nullish_arms(arms, x);
        }
        assert(tells(element.kind, v));
        if shape::flat(element) {
            assert(objects::suits(KindView::Type(shape::flattened(element)), v));
        }
    }
}

} // verus!
