//! Driving a document into a sink.
use crate::ingest;
use crate::ingest::{EventView, JsonEventSink};
use crate::json;
use crate::json::{Json, JsonView, Number};
use vstd::prelude::*;

verus! {

/// The event of a number: signed where it fits, unsigned where that fits.
pub open spec fn number_event(n: Number) -> EventView {
    match n.signed() {
        Some(i) => EventView::I64(i),
        None => match n.unsigned() {
            Some(u) => EventView::U64(u),
            None => EventView::F64(n.nearest()),
        },
    }
}

/// The events of a value.
pub open spec fn events_of(v: JsonView) -> Seq<EventView>
    decreases v,
{
    match v {
        JsonView::Null => seq![EventView::Null],
        JsonView::Bool(b) => seq![EventView::Bool(b)],
        JsonView::Number(n) => seq![number_event(n)],
        JsonView::Text(s) => seq![EventView::Text(s)],
        JsonView::Array(items) => seq![EventView::ArrayBegin] + item_events(items)
            + seq![EventView::ArrayEnd],
        JsonView::Object(members) => seq![EventView::ObjectBegin] + member_events(members)
            + seq![EventView::ObjectEnd],
    }
}

pub open spec fn item_events(v: Seq<JsonView>) -> Seq<EventView>
    decreases v,
{
    if v.len() == 0 {
        Seq::empty()
    } else {
        item_events(v.drop_last()) + events_of(v.last())
    }
}

pub open spec fn member_events(v: Seq<(Seq<char>, JsonView)>) -> Seq<EventView>
    decreases v,
{
    if v.len() == 0 {
        Seq::empty()
    } else {
        member_events(v.drop_last()) + seq![EventView::ObjectKey(v.last().0)] + events_of(
            v.last().1,
        )
    }
}

/// The events of a whole document.
pub open spec fn document_events(ordinal: u64, v: JsonView) -> Seq<EventView> {
    seq![EventView::DocumentBegin(ordinal)] + events_of(v) + seq![EventView::DocumentEnd]
}

/// Some events after others: the sink takes the ones, and what they make of
/// it takes the others.
pub proof fn lemma_split<S: JsonEventSink>(s: S::V, a: Seq<EventView>, b: Seq<EventView>)
    ensures
        ingest::after_all::<S>(s, a + b) == ingest::after_all::<S>(
            ingest::after_all::<S>(s, a),
            b,
        ),
        ingest::accepts_all::<S>(s, a + b) == (ingest::accepts_all::<S>(s, a)
            && ingest::accepts_all::<S>(ingest::after_all::<S>(s, a), b)),
    decreases b.len(),
{
    if b.len() == 0 {
        assert(a + b =~= a);
    } else {
        assert((a + b).drop_last() =~= a + b.drop_last());
        lemma_split::<S>(s, a, b.drop_last());
    }
}

pub proof fn lemma_single<S: JsonEventSink>(s: S::V, e: EventView)
    ensures
        ingest::after_all::<S>(s, seq![e]) == S::step(s, e),
        ingest::accepts_all::<S>(s, seq![e]) == S::accepts(s, e),
{
    let one = seq![e];
    assert(one.drop_last() =~= Seq::empty());
    assert(ingest::after_all::<S>(s, one.drop_last()) == s);
    assert(ingest::accepts_all::<S>(s, one.drop_last()));
}

/// The events of a container that is a whole document: one after the other,
/// from the two that open it to the two that close it.
pub proof fn lemma_framed<S: JsonEventSink>(
    s: S::V,
    open: EventView,
    begin: EventView,
    inner: Seq<EventView>,
    end: EventView,
    close: EventView,
)
    ensures
        ({
            let all = seq![open] + (seq![begin] + inner + seq![end]) + seq![close];
            let b = S::step(S::step(s, open), begin);
            let c = ingest::after_all::<S>(b, inner);
            &&& all.len() == inner.len() + 4
            &&& ingest::after_all::<S>(s, all) == S::step(S::step(c, end), close)
            &&& ingest::after_all::<S>(c, seq![end, close]) == S::step(S::step(c, end), close)
            &&& ingest::accepts_all::<S>(c, seq![end, close]) == (S::accepts(c, end) && S::accepts(
                S::step(c, end),
                close,
            ))
            &&& ingest::accepts_all::<S>(s, all) == (S::accepts(s, open) && S::accepts(
                S::step(s, open),
                begin,
            ) && ingest::accepts_all::<S>(b, inner) && S::accepts(c, end) && S::accepts(
                S::step(c, end),
                close,
            ))
        }),
{
    let all = seq![open] + (seq![begin] + inner + seq![end]) + seq![close];
    let opening = seq![open] + seq![begin];
    let a = S::step(s, open);
    let b = S::step(a, begin);
    let c = ingest::after_all::<S>(b, inner);
    assert(all =~= opening + inner + seq![end] + seq![close]);
    lemma_single::<S>(s, open);
    lemma_single::<S>(a, begin);
    lemma_split::<S>(s, seq![open], seq![begin]);
    lemma_split::<S>(s, opening, inner);
    lemma_split::<S>(s, opening + inner, seq![end]);
    lemma_single::<S>(c, end);
    lemma_split::<S>(s, opening + inner + seq![end], seq![close]);
    lemma_single::<S>(S::step(c, end), close);
    assert(seq![end, close] =~= seq![end] + seq![close]);
    lemma_split::<S>(c, seq![end], seq![close]);
}

fn drive_number<S: JsonEventSink>(sink: &mut S, n: &Number)
    requires
        old(sink).inv(),
        S::accepts(old(sink)@, number_event(*n)),
    ensures
        final(sink).inv(),
        final(sink)@ == S::step(old(sink)@, number_event(*n)),
{
    if let Some(i) = n.as_i64() {
        sink.i64(i);
    } else if let Some(u) = n.as_u64() {
        sink.u64(u);
    } else {
        sink.double(n.as_double());
    }
}

fn drive_value<S: JsonEventSink>(sink: &mut S, value: &Json)
    requires
        old(sink).inv(),
        ingest::accepts_all::<S>(old(sink)@, events_of(value@)),
    ensures
        final(sink).inv(),
        final(sink)@ == ingest::after_all::<S>(old(sink)@, events_of(value@)),
    decreases value,
{
    let ghost start = sink@;
    match value {
        Json::Null => {
            proof {
                lemma_single::<S>(start, EventView::Null);
            }
            sink.null();
        },
        Json::Bool(b) => {
            proof {
                lemma_single::<S>(start, EventView::Bool(*b));
            }
            sink.bool(*b);
        },
        Json::Number(n) => {
            proof {
                lemma_single::<S>(start, number_event(*n));
            }
            drive_number(sink, n);
        },
        Json::Text(s) => {
            proof {
                lemma_single::<S>(start, EventView::Text(s@));
            }
            sink.string(s.as_str());
        },
        Json::Array(items) => {
            let ghost all = item_events(json::items_view(items@));
            let ghost opening = seq![EventView::ArrayBegin];
            let ghost closing = seq![EventView::ArrayEnd];
            proof {
                lemma_split::<S>(start, opening + all, closing);
                lemma_split::<S>(start, opening, all);
                lemma_single::<S>(start, EventView::ArrayBegin);
            }
            sink.array_begin();
            let ghost opened = sink@;
            let mut i: usize = 0;
            assert(items@.take(0) =~= Seq::empty());
            while i < items.len()
                invariant
                    i <= items@.len(),
                    *value == Json::Array(*items),
                    sink.inv(),
                    all == item_events(json::items_view(items@)),
                    ingest::accepts_all::<S>(opened, all),
                    sink@ == ingest::after_all::<S>(
                        opened,
                        item_events(json::items_view(items@.take(i as int))),
                    ),
                decreases items@.len() - i,
            {
                assert(decreases_to!(*value => value->Array_0));
                assert(decreases_to!(value->Array_0 => items@[i as int]));
                proof {
                    lemma_next_item::<S>(opened, items@, i as int);
                }
                drive_value(sink, &items[i]);
                i += 1;
            }
            assert(items@.take(i as int) =~= items@);
            proof {
                lemma_single::<S>(sink@, EventView::ArrayEnd);
            }
            sink.array_end();
        },
        Json::Object(members) => {
            let ghost all = member_events(json::members_view(members@));
            let ghost opening = seq![EventView::ObjectBegin];
            let ghost closing = seq![EventView::ObjectEnd];
            proof {
                lemma_split::<S>(start, opening + all, closing);
                lemma_split::<S>(start, opening, all);
                lemma_single::<S>(start, EventView::ObjectBegin);
            }
            sink.object_begin();
            let ghost opened = sink@;
            let mut i: usize = 0;
            assert(members@.take(0) =~= Seq::empty());
            while i < members.len()
                invariant
                    i <= members@.len(),
                    *value == Json::Object(*members),
                    sink.inv(),
                    all == member_events(json::members_view(members@)),
                    ingest::accepts_all::<S>(opened, all),
                    sink@ == ingest::after_all::<S>(
                        opened,
                        member_events(json::members_view(members@.take(i as int))),
                    ),
                decreases members@.len() - i,
            {
                assert(decreases_to!(*value => value->Object_0));
                assert(decreases_to!(value->Object_0 => members@[i as int].1));
                proof {
                    lemma_next_member::<S>(opened, members@, i as int);
                }
                sink.object_key(members[i].0.as_str());
                drive_value(sink, &members[i].1);
                i += 1;
            }
            assert(members@.take(i as int) =~= members@);
            proof {
                lemma_single::<S>(sink@, EventView::ObjectEnd);
            }
            sink.object_end();
        },
    }
}

/// The events of the first items are a beginning of those of all items.
proof fn lemma_items_prefix(v: Seq<JsonView>, k: int)
    requires
        0 <= k <= v.len(),
    ensures
        exists|rest: Seq<EventView>| item_events(v) == item_events(v.take(k)) + rest,
    decreases v.len(),
{
    if k == v.len() {
        assert(v.take(k) =~= v);
        assert(item_events(v) =~= item_events(v.take(k)) + Seq::empty());
    } else {
        let front = v.drop_last();
        lemma_items_prefix(front, k);
        assert(front.take(k) =~= v.take(k));
        let rest = choose|rest: Seq<EventView>|
            item_events(front) == item_events(front.take(k)) + rest;
        assert(item_events(v) =~= item_events(v.take(k)) + (rest + events_of(v.last())));
    }
}

proof fn lemma_members_prefix(v: Seq<(Seq<char>, JsonView)>, k: int)
    requires
        0 <= k <= v.len(),
    ensures
        exists|rest: Seq<EventView>| member_events(v) == member_events(v.take(k)) + rest,
    decreases v.len(),
{
    if k == v.len() {
        assert(v.take(k) =~= v);
        assert(member_events(v) =~= member_events(v.take(k)) + Seq::empty());
    } else {
        let front = v.drop_last();
        lemma_members_prefix(front, k);
        assert(front.take(k) =~= v.take(k));
        let rest = choose|rest: Seq<EventView>|
            member_events(front) == member_events(front.take(k)) + rest;
        assert(member_events(v) =~= member_events(v.take(k)) + (rest + seq![
            EventView::ObjectKey(v.last().0),
        ] + events_of(v.last().1)));
    }
}

proof fn lemma_items_take(v: Seq<Json>, k: int)
    requires
        0 <= k <= v.len(),
    ensures
        json::items_view(v.take(k)) == json::items_view(v).take(k),
{
    json::lemma_items_view(v);
    json::lemma_items_view(v.take(k));
    assert forall|i: int| 0 <= i < k implies json::items_view(v.take(k))[i] == json::items_view(
        v,
    )[i] by {
        assert(json::items_view(v.take(k))[i] == json::json_view(v.take(k)[i]));
        assert(json::items_view(v)[i] == json::json_view(v[i]));
    }
    assert(json::items_view(v.take(k)) =~= json::items_view(v).take(k));
}

proof fn lemma_members_take(v: Seq<(String, Json)>, k: int)
    requires
        0 <= k <= v.len(),
    ensures
        json::members_view(v.take(k)) == json::members_view(v).take(k),
{
    json::lemma_members_view(v);
    json::lemma_members_view(v.take(k));
    assert forall|i: int| 0 <= i < k implies json::members_view(v.take(k))[i]
        == json::members_view(v)[i] by {
        assert(json::members_view(v.take(k))[i] == (v.take(k)[i].0@, json::json_view(
            v.take(k)[i].1,
        )));
        assert(json::members_view(v)[i] == (v[i].0@, json::json_view(v[i].1)));
    }
    assert(json::members_view(v.take(k)) =~= json::members_view(v).take(k));
}

/// A sink that takes all items takes item `k` after those before it.
proof fn lemma_next_item<S: JsonEventSink>(s: S::V, v: Seq<Json>, k: int)
    requires
        0 <= k < v.len(),
        ingest::accepts_all::<S>(s, item_events(json::items_view(v))),
    ensures
        ({
            let now = ingest::after_all::<S>(s, item_events(json::items_view(v.take(k))));
            let next = events_of(json::json_view(v[k]));
            &&& ingest::accepts_all::<S>(now, next)
            &&& ingest::after_all::<S>(s, item_events(json::items_view(v.take(k + 1))))
                == ingest::after_all::<S>(now, next)
        }),
{
    let w = json::items_view(v);
    lemma_items_take(v, k);
    lemma_items_take(v, k + 1);
    json::lemma_items_view(v);
    lemma_items_prefix(w, k + 1);
    let upto = item_events(w.take(k + 1));
    let rest = choose|rest: Seq<EventView>| item_events(w) == upto + rest;
    lemma_split::<S>(s, upto, rest);
    assert(w.take(k + 1).drop_last() =~= w.take(k));
    assert(w[k] == json::json_view(v[k]));
    lemma_split::<S>(s, item_events(w.take(k)), events_of(w[k]));
}

proof fn lemma_next_member<S: JsonEventSink>(s: S::V, v: Seq<(String, Json)>, k: int)
    requires
        0 <= k < v.len(),
        ingest::accepts_all::<S>(s, member_events(json::members_view(v))),
    ensures
        ({
            let now = ingest::after_all::<S>(s, member_events(json::members_view(v.take(k))));
            let key = EventView::ObjectKey(v[k].0@);
            let keyed = S::step(now, key);
            let next = events_of(json::json_view(v[k].1));
            &&& S::accepts(now, key)
            &&& ingest::accepts_all::<S>(keyed, next)
            &&& ingest::after_all::<S>(s, member_events(json::members_view(v.take(k + 1))))
                == ingest::after_all::<S>(keyed, next)
        }),
{
    let w = json::members_view(v);
    lemma_members_take(v, k);
    lemma_members_take(v, k + 1);
    json::lemma_members_view(v);
    lemma_members_prefix(w, k + 1);
    let upto = member_events(w.take(k + 1));
    let rest = choose|rest: Seq<EventView>| member_events(w) == upto + rest;
    lemma_split::<S>(s, upto, rest);
    assert(w.take(k + 1).drop_last() =~= w.take(k));
    assert(w[k] == (v[k].0@, json::json_view(v[k].1)));
    let before = member_events(w.take(k));
    let key = EventView::ObjectKey(v[k].0@);
    lemma_split::<S>(s, before + seq![key], events_of(w[k].1));
    lemma_split::<S>(s, before, seq![key]);
    lemma_single::<S>(ingest::after_all::<S>(s, before), key);
}

/// Drives a single document into a sink. Brackets the walk with
/// `document_begin(doc_ordinal)` and `document_end()`.
pub fn drive_document<S: JsonEventSink>(sink: &mut S, doc_ordinal: u64, value: &Json)
    requires
        old(sink).inv(),
        ingest::accepts_all::<S>(old(sink)@, document_events(doc_ordinal, value@)),
    ensures
        final(sink).inv(),
        final(sink)@ == ingest::after_all::<S>(old(sink)@, document_events(doc_ordinal, value@)),
{
    proof {
        let s = sink@;
        let opening = seq![EventView::DocumentBegin(doc_ordinal)];
        let body = events_of(value@);
        let closing = seq![EventView::DocumentEnd];
        lemma_split::<S>(s, opening + body, closing);
        lemma_split::<S>(s, opening, body);
        lemma_single::<S>(s, EventView::DocumentBegin(doc_ordinal));
        lemma_single::<S>(
            ingest::after_all::<S>(s, opening + body),
            EventView::DocumentEnd,
        );
    }
    sink.document_begin(doc_ordinal);
    drive_value(sink, value);
    sink.document_end();
}

} // verus!
