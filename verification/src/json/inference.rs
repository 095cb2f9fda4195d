//! What the analyzer makes of whole streams of documents.
use crate::analyze::engine;
use crate::analyze::engine::saved::AnalyzerState;
use crate::analyze::engine::StreamingAnalyzer;
use crate::analyze::finish;
use crate::analyze::machine::{PolicyView, State};
use crate::analyze::observed;
use crate::analyze::shape;
use crate::analyze::sig::ScalarKind;
use crate::analyze::stats as figures;
use crate::double::Double;
use crate::ingest;
use crate::ingest::{EventView, JsonEventSink};
use crate::json::events;
use crate::json::laws;
use crate::json::{JsonView, Number};
use crate::node::{KindView, ShapeView};
use crate::stats;
use crate::value::TypeView;
use vstd::prelude::*;

verus! {

/// An analyzer after documents, each with its ordinal.
pub open spec fn fed(s: State, docs: Seq<(u64, JsonView)>) -> State
    decreases docs.len(),
{
    if docs.len() == 0 {
        s
    } else {
        ingest::after_all::<StreamingAnalyzer>(
            fed(s, docs.drop_last()),
            events::document_events(docs.last().0, docs.last().1),
        )
    }
}

/// How many events the documents are.
pub open spec fn event_count(docs: Seq<(u64, JsonView)>) -> int
    decreases docs.len(),
{
    if docs.len() == 0 {
        0
    } else {
        event_count(docs.drop_last()) + events::document_events(
            docs.last().0,
            docs.last().1,
        ).len()
    }
}

pub open spec fn all_countable(docs: Seq<(u64, JsonView)>, cap: usize) -> bool {
    forall|i: int| 0 <= i < docs.len() ==> laws::countable((#[trigger] docs[i]).1, cap)
}

/// Whatever the documents of a stream are, all of them are taken, each is
/// counted once, and the root is observed once for each.
pub proof fn law_streams_are_counted(s: State, docs: Seq<(u64, JsonView)>)
    requires
        s.wf(),
        s.idle(),
        all_countable(docs, s.policy.cluster_cap),
        s.events + event_count(docs) <= u64::MAX,
    ensures
        fed(s, docs).wf(),
        fed(s, docs).idle(),
        fed(s, docs).policy == s.policy,
        fed(s, docs).doc_count == s.doc_count + docs.len(),
        fed(s, docs).arena[0].obs == s.arena[0].obs + docs.len(),
        fed(s, docs).events == s.events + event_count(docs),
    decreases docs.len(),
{
    if docs.len() > 0 {
        let front = docs.drop_last();
        assert forall|i: int| 0 <= i < front.len() implies laws::countable(
            (#[trigger] front[i]).1,
            s.policy.cluster_cap,
        ) by {
            assert(front[i] == docs[i]);
        }
        law_streams_are_counted(s, front);
        assert(laws::countable(docs[docs.len() - 1].1, s.policy.cluster_cap));
        laws::law_documents_are_taken(fed(s, front), docs.last().0, docs.last().1);
    }
}

/// A stream is fed in parts as it is fed in one.
pub proof fn law_streams_are_joined(s: State, front: Seq<(u64, JsonView)>, back: Seq<(u64, JsonView)>)
    ensures
        fed(fed(s, front), back) == fed(s, front + back),
    decreases back.len(),
{
    if back.len() == 0 {
        assert(front + back =~= front);
    } else {
        assert((front + back).drop_last() =~= front + back.drop_last());
        law_streams_are_joined(s, front, back.drop_last());
    }
}

/// An analyzer that is saved between two documents is taken up again, and goes
/// on as one that was never saved: when the rest of the stream is fed, it is
/// where the whole stream leads.
pub proof fn law_a_saved_stream_goes_on(
    s: State,
    front: Seq<(u64, JsonView)>,
    back: Seq<(u64, JsonView)>,
    kept: AnalyzerState,
)
    requires
        s.wf(),
        s.idle(),
        all_countable(front, s.policy.cluster_cap),
        s.events + event_count(front) <= u64::MAX,
        kept.resumed(fed(s, front).bounds) == fed(s, front),
    ensures
        kept.resumed(fed(s, front).bounds).wf(),
        fed(kept.resumed(fed(s, front).bounds), back) == fed(s, front + back),
{
    law_streams_are_counted(s, front);
    law_streams_are_joined(s, front, back);
}

// ---------------------------------------------------------------------
// Scalars
// ---------------------------------------------------------------------

/// The kind of a scalar.
pub open spec fn kind_of(v: JsonView) -> Option<ScalarKind> {
    match v {
        JsonView::Null => Some(ScalarKind::Null),
        JsonView::Bool(_) => Some(ScalarKind::Bool),
        JsonView::Number(n) => Some(
            if n.signed() is Some {
                ScalarKind::I64
            } else if n.unsigned() is Some {
                ScalarKind::U64
            } else {
                ScalarKind::F64
            },
        ),
        JsonView::Text(_) => Some(ScalarKind::String),
        _ => None,
    }
}

/// How many of the documents are scalars of a kind.
pub open spec fn of_kind(docs: Seq<(u64, JsonView)>, kind: ScalarKind) -> int
    decreases docs.len(),
{
    if docs.len() == 0 {
        0
    } else {
        of_kind(docs.drop_last(), kind) + (if kind_of(docs.last().1) == Some(kind) {
            1int
        } else {
            0
        })
    }
}

pub open spec fn all_scalars(docs: Seq<(u64, JsonView)>) -> bool {
    forall|i: int| 0 <= i < docs.len() ==> kind_of((#[trigger] docs[i]).1) is Some
}

/// A lone root that holds nothing but scalars.
pub open spec fn only_scalars(s: State) -> bool {
    &&& s.arena.len() == 1
    &&& s.arena[0].object is None
    &&& s.arena[0].array is None
    &&& s.arena[0].scalar_arms.len() == 6
}

proof fn lemma_of_kind(docs: Seq<(u64, JsonView)>, kind: ScalarKind)
    ensures
        0 <= of_kind(docs, kind) <= docs.len(),
    decreases docs.len(),
{
    if docs.len() > 0 {
        lemma_of_kind(docs.drop_last(), kind);
    }
}

/// One scalar document.
proof fn lemma_scalar_document(s: State, ordinal: u64, v: JsonView)
    requires
        s.idle(),
        only_scalars(s),
        kind_of(v) is Some,
    ensures
        ({
            let t = ingest::after_all::<StreamingAnalyzer>(
                s,
                events::document_events(ordinal, v),
            );
            let n = s.arena[0];
            &&& t.idle()
            &&& only_scalars(t)
            &&& t.arena[0].scalar_arms == crate::analyze::stats::raised(n.scalar_arms, kind_of(v)->Some_0.place())
            &&& t.arena[0].obs == (n.obs + 1) as u64
            &&& t.arena[0].first_doc == (if n.obs == 0 {
                ordinal
            } else {
                n.first_doc
            })
            &&& t.arena[0].last_doc == ordinal
        }),
{
    let open = EventView::DocumentBegin(ordinal);
    let close = EventView::DocumentEnd;
    let body = events::events_of(v);
    let e = body[0];
    assert(body =~= seq![e]);
    let all = events::document_events(ordinal, v);
    events::lemma_single::<StreamingAnalyzer>(s, open);
    let o = s.step(open);
    events::lemma_single::<StreamingAnalyzer>(o, e);
    let m = o.step(e);
    events::lemma_single::<StreamingAnalyzer>(m, close);
    events::lemma_split::<StreamingAnalyzer>(s, seq![open], body);
    events::lemma_split::<StreamingAnalyzer>(s, seq![open] + body, seq![close]);
}

/// What the analyzer finds in a stream of scalars is what is in it: how many
/// of each kind, and, where all are of one kind, that kind, with the number of
/// documents, the first and the last of them.
pub proof fn law_scalar_streams_are_told(
    policy: PolicyView,
    bounds: Seq<u64>,
    docs: Seq<(u64, JsonView)>,
)
    requires
        docs.len() > 0,
        docs.len() <= u64::MAX,
        all_scalars(docs),
    ensures
        ({
            let s = fed(State::initial(policy, bounds), docs);
            &&& only_scalars(s)
            &&& forall|k: ScalarKind| #[trigger]
                s.arena[0].scalar_arms[k.place()] == of_kind(docs, k)
            &&& forall|k: ScalarKind| #[trigger]
                of_kind(docs, k) == docs.len() ==> engine::root_shape(s) == (ShapeView {
                    kind: KindView::Type(shape::kind_type(k)),
                    stats: stats::plain_stats(docs.len() as u64, docs[0].0, docs.last().0),
                })
        }),
{
    lemma_scalar_stream(policy, bounds, docs);
    let s = fed(State::initial(policy, bounds), docs);
    let n = s.arena[0];
    assert forall|k: ScalarKind| #[trigger] of_kind(docs, k) == docs.len() implies engine::root_shape(
        s,
    ) == (ShapeView {
        kind: KindView::Type(shape::kind_type(k)),
        stats: stats::plain_stats(docs.len() as u64, docs[0].0, docs.last().0),
    }) by {
        assert forall|j: ScalarKind| j != k implies of_kind(docs, j) == 0 by {
            lemma_other_kinds(docs, k, j);
        }
        assert(n.scalar_arms[k.place()] == docs.len());
        assert(forall|j: ScalarKind| j != k ==> #[trigger] n.scalar_arms[j.place()] == 0);
        assert(ScalarKind::Null.place() == 0 && ScalarKind::Bool.place() == 1
            && ScalarKind::I64.place() == 2 && ScalarKind::U64.place() == 3
            && ScalarKind::F64.place() == 4 && ScalarKind::String.place() == 5);
        reveal_with_fuel(finish::scalar_shapes, 7);
        let arm = ShapeView {
            kind: KindView::Type(shape::kind_type(k)),
            stats: stats::plain_stats(docs.len() as u64, docs[0].0, docs.last().0),
        };
        assert(ScalarKind::nth(k.place()) == k);
        assert(finish::scalar_shapes(n, 6) =~= seq![arm]);
    }
}

proof fn lemma_other_kinds(docs: Seq<(u64, JsonView)>, k: ScalarKind, j: ScalarKind)
    requires
        of_kind(docs, k) == docs.len(),
        j != k,
    ensures
        of_kind(docs, j) == 0,
    decreases docs.len(),
{
    if docs.len() > 0 {
        lemma_of_kind(docs.drop_last(), k);
        lemma_other_kinds(docs.drop_last(), k, j);
    }
}

proof fn lemma_scalar_stream(
    policy: PolicyView,
    bounds: Seq<u64>,
    docs: Seq<(u64, JsonView)>,
)
    requires
        docs.len() <= u64::MAX,
        all_scalars(docs),
    ensures
        ({
            let s = fed(State::initial(policy, bounds), docs);
            &&& s.idle()
            &&& only_scalars(s)
            &&& s.arena[0].obs == docs.len()
            &&& forall|k: ScalarKind| #[trigger]
                s.arena[0].scalar_arms[k.place()] == of_kind(docs, k)
            &&& docs.len() > 0 ==> s.arena[0].first_doc == docs[0].0 && s.arena[0].last_doc
                == docs.last().0
        }),
    decreases docs.len(),
{
    let start = State::initial(policy, bounds);
    if docs.len() > 0 {
        let front = docs.drop_last();
        assert forall|i: int| 0 <= i < front.len() implies kind_of(
            (#[trigger] front[i]).1,
        ) is Some by {
            assert(front[i] == docs[i]);
        }
        lemma_scalar_stream(policy, bounds, front);
        let s = fed(start, front);
        assert(kind_of(docs[docs.len() - 1].1) is Some);
        lemma_scalar_document(s, docs.last().0, docs.last().1);
        let t = fed(start, docs);
        assert forall|k: ScalarKind| #[trigger]
            t.arena[0].scalar_arms[k.place()] == of_kind(docs, k) by {
            lemma_of_kind(front, k);
            assert(s.arena[0].scalar_arms[k.place()] == of_kind(front, k));
        }
        if front.len() > 0 {
            assert(front[0] == docs[0]);
        }
    }
}

/// The type of a scalar: a whole number is signed where that can hold it, and
/// else unsigned; any other number is a double.
pub open spec fn type_of(v: JsonView) -> Option<TypeView> {
    match v {
        JsonView::Null => Some(TypeView::Null),
        JsonView::Bool(_) => Some(TypeView::Bool),
        JsonView::Number(Number::Negative(_)) => Some(TypeView::I64),
        JsonView::Number(Number::Positive(n)) => if n <= 0x7fff_ffff_ffff_ffff {
            Some(TypeView::I64)
        } else {
            Some(TypeView::U64)
        },
        JsonView::Number(Number::Float(_)) => Some(TypeView::F64),
        JsonView::Text(_) => Some(TypeView::String),
        _ => None,
    }
}

proof fn lemma_all_of_kind(docs: Seq<(u64, JsonView)>, k: ScalarKind)
    requires
        forall|i: int| 0 <= i < docs.len() ==> kind_of((#[trigger] docs[i]).1) == Some(k),
    ensures
        of_kind(docs, k) == docs.len(),
    decreases docs.len(),
{
    if docs.len() > 0 {
        let front = docs.drop_last();
        assert forall|i: int| 0 <= i < front.len() implies kind_of((#[trigger] front[i]).1)
            == Some(k) by {
            assert(front[i] == docs[i]);
        }
        lemma_all_of_kind(front, k);
        assert(kind_of(docs[docs.len() - 1].1) == Some(k));
    }
}

/// Documents that are scalars of one type are found to be of that type, as
/// many as there are, from the first to the last.
pub proof fn law_scalars_have_their_type(
    policy: PolicyView,
    bounds: Seq<u64>,
    docs: Seq<(u64, JsonView)>,
    t: TypeView,
)
    requires
        0 < docs.len() <= u64::MAX,
        forall|i: int| 0 <= i < docs.len() ==> type_of((#[trigger] docs[i]).1) == Some(t),
    ensures
        ({
            let s = engine::root_shape(fed(State::initial(policy, bounds), docs));
            &&& s.kind == KindView::Type(t)
            &&& s.stats.observation_count == docs.len()
            &&& s.stats.first_doc_ordinal == docs[0].0
            &&& s.stats.last_doc_ordinal == docs.last().0
        }),
{
    let k = match t {
        TypeView::Null => ScalarKind::Null,
        TypeView::Bool => ScalarKind::Bool,
        TypeView::I64 => ScalarKind::I64,
        TypeView::U64 => ScalarKind::U64,
        TypeView::F64 => ScalarKind::F64,
        _ => ScalarKind::String,
    };
    assert(type_of(docs[0].1) == Some(t));
    assert forall|i: int| 0 <= i < docs.len() implies kind_of((#[trigger] docs[i]).1) == Some(k) by {
        assert(type_of(docs[i].1) == Some(t));
    }
    lemma_all_of_kind(docs, k);
    law_scalar_streams_are_told(policy, bounds, docs);
    assert(of_kind(docs, k) == docs.len());
}

/// The texts of the documents, in their order.
pub open spec fn texts_of(docs: Seq<(u64, JsonView)>) -> Seq<Seq<char>>
    decreases docs.len(),
{
    if docs.len() == 0 {
        Seq::empty()
    } else {
        match docs.last().1 {
            JsonView::Text(s) => texts_of(docs.drop_last()).push(s),
            _ => texts_of(docs.drop_last()),
        }
    }
}

/// The numbers of the documents, in their order, and whether each is a whole
/// number that is written as one.
pub open spec fn numbers_of(docs: Seq<(u64, JsonView)>) -> Seq<(Double, bool)>
    decreases docs.len(),
{
    if docs.len() == 0 {
        Seq::empty()
    } else {
        let front = numbers_of(docs.drop_last());
        match docs.last().1 {
            JsonView::Number(Number::Positive(n)) => front.push((figures::whole(n as int), true)),
            JsonView::Number(Number::Negative(n)) => front.push((figures::whole(n as int), true)),
            JsonView::Number(Number::Float(d)) => front.push((d, false)),
            _ => front,
        }
    }
}

proof fn lemma_scalar_is_observed(s: State, ordinal: u64, v: JsonView)
    requires
        s.idle(),
        only_scalars(s),
        kind_of(v) is Some,
    ensures
        ({
            let t = ingest::after_all::<StreamingAnalyzer>(
                s,
                events::document_events(ordinal, v),
            );
            let n = s.arena[0];
            &&& t.bounds == s.bounds
            &&& t.arena[0].string_stats == (match v {
                JsonView::Text(x) => n.with_string(x, s.bounds).string_stats,
                _ => n.string_stats,
            })
            &&& t.arena[0].numeric_stats == (match v {
                JsonView::Number(Number::Positive(x)) => n.with_number(
                    figures::whole(x as int),
                    true,
                    s.bounds,
                ).numeric_stats,
                JsonView::Number(Number::Negative(x)) => n.with_number(
                    figures::whole(x as int),
                    true,
                    s.bounds,
                ).numeric_stats,
                JsonView::Number(Number::Float(d)) => n.with_number(
                    d,
                    false,
                    s.bounds,
                ).numeric_stats,
                _ => n.numeric_stats,
            })
        }),
{
    let open = EventView::DocumentBegin(ordinal);
    let close = EventView::DocumentEnd;
    let body = events::events_of(v);
    let e = body[0];
    assert(body =~= seq![e]);
    events::lemma_single::<StreamingAnalyzer>(s, open);
    let o = s.step(open);
    events::lemma_single::<StreamingAnalyzer>(o, e);
    let m = o.step(e);
    events::lemma_single::<StreamingAnalyzer>(m, close);
    events::lemma_split::<StreamingAnalyzer>(s, seq![open], body);
    events::lemma_split::<StreamingAnalyzer>(s, seq![open] + body, seq![close]);
}

/// Every text of a stream of scalars is in the statistics of the strings, and
/// every number in those of the numbers, in their order, and nothing else; a
/// stream without texts has no statistics of strings, and one without numbers
/// none of numbers.
pub proof fn law_texts_and_numbers_are_observed(
    policy: PolicyView,
    bounds: Seq<u64>,
    docs: Seq<(u64, JsonView)>,
)
    requires
        docs.len() <= u64::MAX,
        all_scalars(docs),
    ensures
        ({
            let s = fed(State::initial(policy, bounds), docs);
            &&& s.bounds == bounds
            &&& s.arena[0].string_stats == (if texts_of(docs).len() == 0 {
                None
            } else {
                Some(observed::strings_seen(texts_of(docs), bounds))
            })
            &&& s.arena[0].numeric_stats == (if numbers_of(docs).len() == 0 {
                None
            } else {
                Some(observed::numbers_seen(numbers_of(docs), bounds))
            })
        }),
    decreases docs.len(),
{
    let start = State::initial(policy, bounds);
    if docs.len() > 0 {
        let front = docs.drop_last();
        assert forall|i: int| 0 <= i < front.len() implies kind_of(
            (#[trigger] front[i]).1,
        ) is Some by {
            assert(front[i] == docs[i]);
        }
        law_texts_and_numbers_are_observed(policy, bounds, front);
        lemma_scalar_stream(policy, bounds, front);
        let s = fed(start, front);
        let v = docs.last().1;
        assert(kind_of(docs[docs.len() - 1].1) is Some);
        lemma_scalar_is_observed(s, docs.last().0, v);
        let a = texts_of(front);
        let b = texts_of(docs);
        if v is Text {
            assert(b.drop_last() =~= a);
        }
        let c = numbers_of(front);
        let d = numbers_of(docs);
        if v is Number {
            assert(d.drop_last() =~= c);
        }
    }
}

} // verus!
