//! Line-delimited documents, and the handle that feeds them to an analyzer.
use crate::analyze::dist::Buckets;
use crate::analyze::engine::StreamingAnalyzer;
use crate::analyze::machine::{PolicyView, State};
use crate::analyze::noted;
use crate::analyze::noted::{Noted, NotedView};
use crate::ingest;
use crate::ingest::JsonEventSink;
use crate::json::events;
use crate::json::laws;
use crate::json;
use crate::json::inference;
use crate::json::text;
use crate::json::{Json, JsonView};
use vstd::prelude::*;

verus! {

// ---------------------------------------------------------------------
// Lines
// ---------------------------------------------------------------------

/// The pieces between the newlines of a buffer. There is always one.
pub open spec fn pieces(s: Seq<u8>) -> Seq<Seq<u8>>
    decreases s.len(),
{
    if s.len() == 0 {
        seq![Seq::empty()]
    } else {
        let front = pieces(s.drop_last());
        if s.last() == 10 {
            front.push(Seq::empty())
        } else {
            front.drop_last().push(front.last().push(s.last()))
        }
    }
}

/// A line without the carriage return that ends it.
pub open spec fn stripped(line: Seq<u8>) -> Seq<u8> {
    if line.len() > 0 && line.last() == 13 {
        line.drop_last()
    } else {
        line
    }
}

/// Space, tab, newline, form feed or carriage return.
pub open spec fn is_blank_byte(b: u8) -> bool {
    b == 32 || b == 9 || b == 10 || b == 12 || b == 13
}

pub open spec fn is_blank(line: Seq<u8>) -> bool {
    forall|i: int| 0 <= i < line.len() ==> is_blank_byte(#[trigger] line[i])
}

/// The lines that are not blank.
pub open spec fn kept(v: Seq<Seq<u8>>) -> Seq<Seq<u8>>
    decreases v.len(),
{
    if v.len() == 0 {
        Seq::empty()
    } else {
        let front = kept(v.drop_last());
        let line = stripped(v.last());
        if is_blank(line) {
            front
        } else {
            front.push(line)
        }
    }
}

/// The records of a buffer: its lines, without line ends and without the
/// blank ones.
pub open spec fn records(s: Seq<u8>) -> Seq<Seq<u8>> {
    kept(pieces(s))
}

pub open spec fn lines_view(v: Seq<Vec<u8>>) -> Seq<Seq<u8>> {
    v.map_values(|l: Vec<u8>| l@)
}

proof fn lemma_pieces(s: Seq<u8>)
    ensures
        pieces(s).len() > 0,
    decreases s.len(),
{
    if s.len() > 0 {
        lemma_pieces(s.drop_last());
    }
}

/// Keeps a line, unless it is blank.
fn keep_line(out: &mut Vec<Vec<u8>>, line: Vec<u8>)
    ensures
        lines_view(final(out)@) == (if is_blank(stripped(line@)) {
            lines_view(old(out)@)
        } else {
            lines_view(old(out)@).push(stripped(line@))
        }),
{
    let mut line = line;
    let ghost whole = line@;
    if line.len() > 0 && line[line.len() - 1] == 13 {
        line.pop();
    }
    assert(line@ =~= stripped(whole));
    let mut i: usize = 0;
    while i < line.len()
        invariant
            i <= line@.len(),
            forall|k: int| 0 <= k < i ==> is_blank_byte(#[trigger] line@[k]),
        ensures
            i < line@.len() ==> !is_blank_byte(line@[i as int]),
            i >= line@.len() ==> is_blank(line@),
        decreases line@.len() - i,
    {
        let b: u8 = line[i];
        if !(b == 32 || b == 9 || b == 10 || b == 12 || b == 13) {
            break ;
        }
        i += 1;
    }
    if i < line.len() {
        out.push(line);
        assert(lines_view(out@) =~= lines_view(old(out)@).push(stripped(whole)));
    }
}

/// Splits a buffer into its records.
pub fn split_records(buf: &[u8]) -> (r: Vec<Vec<u8>>)
    ensures
        lines_view(r@) == records(buf@),
{
    let mut out: Vec<Vec<u8>> = Vec::new();
    let mut cur: Vec<u8> = Vec::new();
    let mut i: usize = 0;
    proof {
        assert(buf@.take(0) =~= Seq::empty());
        assert(pieces(buf@.take(0)).drop_last() =~= Seq::empty());
        assert(lines_view(out@) =~= Seq::empty());
    }
    while i < buf.len()
        invariant
            i <= buf@.len(),
            pieces(buf@.take(i as int)).len() > 0,
            cur@ == pieces(buf@.take(i as int)).last(),
            lines_view(out@) == kept(pieces(buf@.take(i as int)).drop_last()),
        decreases buf@.len() - i,
    {
        let ghost front = pieces(buf@.take(i as int));
        proof {
            assert(buf@.take(i + 1).drop_last() =~= buf@.take(i as int));
            lemma_pieces(buf@.take(i + 1));
        }
        if buf[i] == 10 {
            keep_line(&mut out, cur);
            cur = Vec::new();
            proof {
                assert(front.push(Seq::<u8>::empty()).drop_last() =~= front);
                assert(cur@ =~= Seq::<u8>::empty());
            }
        } else {
            cur.push(buf[i]);
            proof {
                let next = front.drop_last().push(front.last().push(buf@[i as int]));
                assert(next.drop_last() =~= front.drop_last());
            }
        }
        i += 1;
    }
    assert(buf@.take(i as int) =~= buf@);
    keep_line(&mut out, cur);
    out
}

/// The documents of a buffer: of its records, those that spell one.
pub fn documents(buf: &[u8]) -> (r: Vec<Json>)
    ensures
        json::items_view(r@) == text::told(records(buf@)),
{
    let lines = split_records(buf);
    assert(lines_view(lines@) =~= lines@.map_values(|l: Vec<u8>| l@));
    text::parse_records(&lines)
}

// ---------------------------------------------------------------------
// The handle
// ---------------------------------------------------------------------

/// The ordinal of the document `i` places on. The ordinals start again after
/// the last one.
pub open spec fn ordinal(start: u64, i: int) -> u64 {
    ((start + i) % 0x1_0000_0000_0000_0000) as u64
}

/// Documents with their ordinals.
pub open spec fn numbered(start: u64, docs: Seq<JsonView>) -> Seq<(u64, JsonView)> {
    Seq::new(docs.len(), |i: int| (ordinal(start, i), docs[i]))
}

/// What an analyzer whose numbers are noted is after documents.
pub open spec fn fed(n: NotedView, docs: Seq<(u64, JsonView)>) -> NotedView
    decreases docs.len(),
{
    if docs.len() == 0 {
        n
    } else {
        ingest::after_all::<Noted>(
            fed(n, docs.drop_last()),
            events::document_events(docs.last().0, docs.last().1),
        )
    }
}

/// Documents that an analyzer can still count.
pub open spec fn fits(s: State, docs: Seq<JsonView>) -> bool {
    let n = numbered(0, docs);
    inference::all_countable(n, s.policy.cluster_cap) && s.events + inference::event_count(n) <= u64::MAX
}

proof fn lemma_ordinal(start: u64, i: int)
    requires
        i >= 0,
    ensures
        ordinal(start, 0) == start,
        ordinal(start, i + 1) == (if ordinal(start, i) == u64::MAX {
            0
        } else {
            ordinal(start, i) + 1
        }),
{
}

/// One more document.
proof fn lemma_fed_step(n: NotedView, docs: Seq<(u64, JsonView)>, k: int)
    requires
        0 <= k < docs.len(),
    ensures
        fed(n, docs.take(k + 1)) == ingest::after_all::<Noted>(
            fed(n, docs.take(k)),
            events::document_events(docs[k].0, docs[k].1),
        ),
        inference::fed(n.state, docs.take(k + 1)) == ingest::after_all::<StreamingAnalyzer>(
            inference::fed(n.state, docs.take(k)),
            events::document_events(docs[k].0, docs[k].1),
        ),
        inference::event_count(docs.take(k + 1)) == inference::event_count(docs.take(k))
            + events::document_events(docs[k].0, docs[k].1).len(),
        inference::event_count(docs.take(k + 1)) <= inference::event_count(docs),
{
    assert(docs.take(k + 1).drop_last() =~= docs.take(k));
    lemma_event_count_upto(docs, k);
}

proof fn lemma_event_count(a: Seq<(u64, JsonView)>, b: Seq<(u64, JsonView)>)
    requires
        a.len() == b.len(),
        forall|i: int| 0 <= i < a.len() ==> (#[trigger] a[i]).1 == b[i].1,
    ensures
        inference::event_count(a) == inference::event_count(b),
        inference::event_count(a) >= 0,
    decreases a.len(),
{
    if a.len() > 0 {
        let i = a.len() - 1;
        assert(a[i].1 == b[i].1);
        assert forall|k: int| 0 <= k < i implies (#[trigger] a.drop_last()[k]).1
            == b.drop_last()[k].1 by {
            assert(a[k].1 == b[k].1);
        }
        lemma_event_count(a.drop_last(), b.drop_last());
    }
}

proof fn lemma_event_count_upto(a: Seq<(u64, JsonView)>, k: int)
    requires
        0 <= k < a.len(),
    ensures
        inference::event_count(a.take(k + 1)) == inference::event_count(a.take(k))
            + events::document_events(a[k].0, a[k].1).len(),
        inference::event_count(a.take(k + 1)) <= inference::event_count(a),
    decreases a.len(),
{
    assert(a.take(k + 1).drop_last() =~= a.take(k));
    if k + 1 == a.len() {
        assert(a.take(k + 1) =~= a);
    } else {
        lemma_event_count_upto(a.drop_last(), k);
        assert(a.drop_last().take(k + 1) =~= a.take(k + 1));
        assert(a.drop_last().take(k) =~= a.take(k));
    }
}

/// An analyzer and the ordinal of the next document.
#[derive(Debug)]
pub struct Handle {
    pub sink: Noted,
    pub next_ordinal: u64,
}

impl Handle {
    pub open spec fn inv(&self) -> bool {
        self.sink.inv() && self.sink@.state.idle()
    }

    pub fn new(buckets: Buckets) -> (h: Handle)
        requires
            buckets.wf(),
        ensures
            h.inv(),
            h.sink@.state == State::initial(PolicyView::usual(), buckets@),
            h.sink@.numbers.len() == 0,
            h.next_ordinal == 0,
    {
        Handle { sink: Noted::new(StreamingAnalyzer::new(buckets)), next_ordinal: 0 }
    }

    /// A handle that goes on with an analyzer: the next document follows those
    /// that it has seen.
    pub fn resume(analyzer: StreamingAnalyzer) -> (h: Handle)
        requires
            analyzer.inv(),
            analyzer@.idle(),
        ensures
            h.inv(),
            h.sink@.state == analyzer@,
            h.sink@.numbers.len() == 0,
            h.next_ordinal == analyzer@.doc_count,
    {
        let next_ordinal: u64 = analyzer.doc_count();
        Handle { sink: Noted::new(analyzer), next_ordinal }
    }

    /// Feeds one document. The ordinals start again after the last one.
    pub fn feed_one(&mut self, value: &Json)
        requires
            old(self).inv(),
            laws::countable(value@, old(self).sink@.state.policy.cluster_cap),
            old(self).sink@.state.events + events::document_events(
                old(self).next_ordinal,
                value@,
            ).len() <= u64::MAX,
        ensures
            final(self).inv(),
            final(self).sink@ == ingest::after_all::<Noted>(
                old(self).sink@,
                events::document_events(old(self).next_ordinal, value@),
            ),
            final(self).sink@.state == ingest::after_all::<StreamingAnalyzer>(
                old(self).sink@.state,
                events::document_events(old(self).next_ordinal, value@),
            ),
            final(self).next_ordinal == (if old(self).next_ordinal == u64::MAX {
                0
            } else {
                old(self).next_ordinal + 1
            }),
    {
        proof {
            self.sink.analyzer.lemma_inv();
            laws::law_documents_are_taken(self.sink@.state, self.next_ordinal, value@);
            noted::law_noting_changes_nothing(
                self.sink@,
                events::document_events(self.next_ordinal, value@),
            );
        }
        events::drive_document(&mut self.sink, self.next_ordinal, value);
        self.next_ordinal = self.next_ordinal.wrapping_add(1);
    }

    /// Whether documents can still be counted.
    pub fn has_room(&self, docs: &Vec<Json>) -> (b: bool)
        requires
            self.inv(),
        ensures
            b == fits(self.sink@.state, json::items_view(docs@)),
    {
        let ghost all = numbered(0, json::items_view(docs@));
        let cap: usize = self.sink.analyzer.policy().cluster_cap;
        let mut left: u64 = u64::MAX - self.sink.analyzer.event_count();
        let mut i: usize = 0;
        proof {
            json::lemma_items_view(docs@);
            assert(all.take(0) =~= Seq::empty());
        }
        while i < docs.len()
            invariant
                i <= docs@.len() == all.len(),
                all == numbered(0, json::items_view(docs@)),
                forall|k: int|
                    0 <= k < all.len() ==> #[trigger] json::items_view(docs@)[k]
                        == json::json_view(docs@[k]),
                json::items_view(docs@).len() == docs@.len(),
                cap == self.sink@.state.policy.cluster_cap,
                forall|k: int| 0 <= k < i ==> laws::countable((#[trigger] all[k]).1, cap),
                left == u64::MAX - self.sink@.state.events - inference::event_count(
                    all.take(i as int),
                ),
            decreases docs@.len() - i,
        {
            proof {
                lemma_event_count_upto(all, i as int);
                assert(all[i as int].1 == json::json_view(docs@[i as int]));
            }
            match laws::measure(&docs[i], cap) {
                None => {
                    proof {
                        lemma_event_count(all.take(i as int), all.take(i as int));
                    }
                    return false;
                },
                Some(n) => {
                    if left < 2 || left - 2 < n {
                        return false;
                    }
                    left = left - 2 - n;
                },
            }
            i += 1;
        }
        assert(all.take(i as int) =~= all);
        true
    }

    /// Feeds documents, one after the other.
    #[verifier::rlimit(40)]
    pub fn feed_all(&mut self, docs: &Vec<Json>)
        requires
            old(self).inv(),
            fits(old(self).sink@.state, json::items_view(docs@)),
        ensures
            final(self).inv(),
            final(self).sink@ == fed(
                old(self).sink@,
                numbered(old(self).next_ordinal, json::items_view(docs@)),
            ),
            final(self).sink@.state == inference::fed(
                old(self).sink@.state,
                numbered(old(self).next_ordinal, json::items_view(docs@)),
            ),
            final(self).next_ordinal == ordinal(old(self).next_ordinal, docs@.len() as int),
    {
        let ghost views = json::items_view(docs@);
        let ghost start = *self;
        let ghost all = numbered(self.next_ordinal, views);
        let mut i: usize = 0;
        proof {
            lemma_ordinal(self.next_ordinal, 0);
            json::lemma_items_view(docs@);
            lemma_event_count(all, numbered(0, views));
            assert(all.take(0) =~= Seq::empty());
            assert forall|k: int| 0 <= k < all.len() implies laws::countable(
                (#[trigger] all[k]).1,
                start.sink@.state.policy.cluster_cap,
            ) by {
                assert(all[k].1 == numbered(0, views)[k].1);
            }
        }
        while i < docs.len()
            invariant
                i <= docs@.len() == all.len(),
                views == json::items_view(docs@),
                views.len() == docs@.len(),
                all == numbered(start.next_ordinal, views),
                forall|k: int| 0 <= k < views.len() ==> #[trigger] views[k] == json::json_view(
                    docs@[k],
                ),
                forall|k: int|
                    0 <= k < all.len() ==> laws::countable(
                        (#[trigger] all[k]).1,
                        start.sink@.state.policy.cluster_cap,
                    ),
                self.sink@.state.policy == start.sink@.state.policy,
                start.sink@.state.events + inference::event_count(all) <= u64::MAX,
                self.inv(),
                self.next_ordinal == ordinal(start.next_ordinal, i as int),
                self.sink@ == fed(start.sink@, all.take(i as int)),
                self.sink@.state == inference::fed(start.sink@.state, all.take(i as int)),
                self.sink@.state.events == start.sink@.state.events + inference::event_count(
                    all.take(i as int),
                ),
            decreases docs@.len() - i,
        {
            proof {
                lemma_fed_step(start.sink@, all, i as int);
                lemma_ordinal(start.next_ordinal, i as int);
                assert(views[i as int] == docs@[i as int]@);
                assert(all[i as int] == (self.next_ordinal, docs@[i as int]@));
                assert(laws::countable(all[i as int].1, start.sink@.state.policy.cluster_cap));
                self.sink.analyzer.lemma_inv();
                laws::law_documents_are_taken(
                    self.sink@.state,
                    self.next_ordinal,
                    docs@[i as int]@,
                );
            }
            self.feed_one(&docs[i]);
            i += 1;
        }
        assert(all.take(i as int) =~= all);
    }

    /// Feeds the records of a buffer that spell a document, and says how many
    /// they are. None where they could no longer be counted; the handle is then
    /// as it was.
    pub fn feed_jsonl(&mut self, buf: &[u8]) -> (n: Option<u64>)
        requires
            old(self).inv(),
        ensures
            final(self).inv(),
            match n {
                Some(accepted) => {
                    let docs = text::told(records(buf@));
                    let all = numbered(old(self).next_ordinal, docs);
                    &&& fits(old(self).sink@.state, docs)
                    &&& accepted == docs.len()
                    &&& final(self).sink@ == fed(old(self).sink@, all)
                    &&& final(self).sink@.state == inference::fed(old(self).sink@.state, all)
                    &&& final(self).next_ordinal == ordinal(
                        old(self).next_ordinal,
                        docs.len() as int,
                    )
                },
                None => {
                    &&& !fits(old(self).sink@.state, text::told(records(buf@)))
                    &&& *final(self) == *old(self)
                },
            },
    {
        let docs = documents(buf);
        proof {
            json::lemma_items_view(docs@);
        }
        if !self.has_room(&docs) {
            return None;
        }
        self.feed_all(&docs);
        Some(docs.len() as u64)
    }

    /// Feeds the document that a text spells, and says how many that are: one,
    /// or none. None where it could no longer be counted; the handle is then as
    /// it was.
    pub fn feed_json_string(&mut self, s: &str) -> (n: Option<u64>)
        requires
            old(self).inv(),
        ensures
            final(self).inv(),
            match text::read(s@) {
                Err(_) => n == Some(0u64) && *final(self) == *old(self),
                Ok(v) => if fits(old(self).sink@.state, seq![v]) {
                    let all = numbered(old(self).next_ordinal, seq![v]);
                    &&& n == Some(1u64)
                    &&& final(self).sink@ == fed(old(self).sink@, all)
                    &&& final(self).sink@.state == inference::fed(old(self).sink@.state, all)
                    &&& final(self).next_ordinal == ordinal(old(self).next_ordinal, 1)
                } else {
                    n is None && *final(self) == *old(self)
                },
            },
    {
        match text::read_json(s) {
            Err(_) => Some(0),
            Ok(v) => {
                let mut docs: Vec<Json> = Vec::new();
                docs.push(v);
                proof {
                    json::lemma_items_view(docs@);
                    assert(json::items_view(docs@) =~= seq![v@]);
                }
                if !self.has_room(&docs) {
                    return None;
                }
                self.feed_all(&docs);
                Some(1)
            },
        }
    }
}

// ---------------------------------------------------------------------
// Laws
// ---------------------------------------------------------------------

proof fn lemma_pieces_join(a: Seq<u8>, b: Seq<u8>)
    ensures
        pieces(a.push(10) + b) == pieces(a) + pieces(b),
    decreases b.len(),
{
    let whole = a.push(10) + b;
    lemma_pieces(b);
    if b.len() == 0 {
        assert(whole =~= a.push(10));
        assert(a.push(10).drop_last() =~= a);
        assert(pieces(a).push(Seq::empty()) =~= pieces(a) + pieces(b));
    } else {
        let front = b.drop_last();
        lemma_pieces_join(a, front);
        lemma_pieces(front);
        assert(whole.drop_last() =~= a.push(10) + front);
        let before = pieces(a) + pieces(front);
        assert(before.drop_last() =~= pieces(a) + pieces(front).drop_last());
        assert(pieces(whole) =~= pieces(a) + pieces(b));
    }
}

proof fn lemma_kept_join(a: Seq<Seq<u8>>, b: Seq<Seq<u8>>)
    ensures
        kept(a + b) == kept(a) + kept(b),
    decreases b.len(),
{
    if b.len() == 0 {
        assert(a + b =~= a);
        assert(kept(a) + kept(b) =~= kept(a));
    } else {
        lemma_kept_join(a, b.drop_last());
        assert((a + b).drop_last() =~= a + b.drop_last());
        assert(kept(a + b) =~= kept(a) + kept(b));
    }
}

proof fn lemma_told_join(a: Seq<Seq<u8>>, b: Seq<Seq<u8>>)
    ensures
        text::told(a + b) == text::told(a) + text::told(b),
    decreases b.len(),
{
    if b.len() == 0 {
        assert(a + b =~= a);
        assert(text::told(a) + text::told(b) =~= text::told(a));
    } else {
        lemma_told_join(a, b.drop_last());
        assert((a + b).drop_last() =~= a + b.drop_last());
        assert(text::told(a + b) =~= text::told(a) + text::told(b));
    }
}

proof fn lemma_fed_join(n: NotedView, a: Seq<(u64, JsonView)>, b: Seq<(u64, JsonView)>)
    ensures
        fed(n, a + b) == fed(fed(n, a), b),
    decreases b.len(),
{
    if b.len() == 0 {
        assert(a + b =~= a);
    } else {
        lemma_fed_join(n, a, b.drop_last());
        assert((a + b).drop_last() =~= a + b.drop_last());
    }
}

proof fn lemma_ordinal_join(start: u64, i: int, j: int)
    requires
        i >= 0,
        j >= 0,
    ensures
        ordinal(ordinal(start, i), j) == ordinal(start, i + j),
{
    let m: int = 0x1_0000_0000_0000_0000;
    vstd::arithmetic::div_mod::lemma_add_mod_noop_right(j, start + i, m);
    assert(ordinal(start, i) == (start + i) % m);
    assert((j + (start + i) % m) % m == (j + (start + i)) % m);
}

proof fn lemma_numbered_join(start: u64, a: Seq<JsonView>, b: Seq<JsonView>)
    ensures
        numbered(start, a + b) == numbered(start, a) + numbered(ordinal(start, a.len() as int), b),
{
    let next = ordinal(start, a.len() as int);
    let whole = numbered(start, a + b);
    let parts = numbered(start, a) + numbered(next, b);
    assert forall|i: int| 0 <= i < whole.len() implies whole[i] == parts[i] by {
        if i >= a.len() {
            lemma_ordinal_join(start, a.len() as int, i - a.len());
        }
    }
    assert(whole =~= parts);
}

/// A buffer may be fed in parts that end where a line does: its records are
/// those of the parts, its documents are theirs, and the analyzer and the next
/// ordinal are afterwards as if it had been fed at once.
pub proof fn law_a_buffer_may_be_fed_in_parts(
    n: NotedView,
    start: u64,
    first: Seq<u8>,
    second: Seq<u8>,
)
    ensures
        records(first.push(10) + second) == records(first) + records(second),
        ({
            let a = text::told(records(first));
            let b = text::told(records(second));
            let whole = text::told(records(first.push(10) + second));
            let next = ordinal(start, a.len() as int);
            &&& whole == a + b
            &&& fed(n, numbered(start, whole)) == fed(
                fed(n, numbered(start, a)),
                numbered(next, b),
            )
            &&& ordinal(start, whole.len() as int) == ordinal(next, b.len() as int)
        }),
{
    lemma_pieces_join(first, second);
    lemma_kept_join(pieces(first), pieces(second));
    lemma_told_join(records(first), records(second));
    let a = text::told(records(first));
    let b = text::told(records(second));
    let next = ordinal(start, a.len() as int);
    lemma_numbered_join(start, a, b);
    lemma_ordinal_join(start, a.len() as int, b.len() as int);
    lemma_fed_join(n, numbered(start, a), numbered(next, b));
}

proof fn lemma_blank(s: Seq<u8>)
    requires
        is_blank(s),
    ensures
        kept(pieces(s)) == Seq::<Seq<u8>>::empty(),
        kept(pieces(s).drop_last()) == Seq::<Seq<u8>>::empty(),
        is_blank(pieces(s).last()),
    decreases s.len(),
{
    lemma_pieces(s);
    let p = pieces(s);
    if s.len() == 0 {
        assert(p.drop_last() =~= Seq::empty());
    } else {
        let front = pieces(s.drop_last());
        assert(is_blank(s.drop_last())) by {
            assert forall|i: int| 0 <= i < s.len() - 1 implies is_blank_byte(
                #[trigger] s.drop_last()[i],
            ) by {
                assert(s.drop_last()[i] == s[i]);
            }
        }
        lemma_blank(s.drop_last());
        lemma_pieces(s.drop_last());
        if s.last() == 10 {
            assert(p.drop_last() =~= front);
        } else {
            assert(p.drop_last() =~= front.drop_last());
            assert(is_blank_byte(s[s.len() - 1]));
        }
    }
    assert(is_blank(stripped(p.last()))) by {
        let line = p.last();
        assert forall|i: int| 0 <= i < stripped(line).len() implies is_blank_byte(
            #[trigger] stripped(line)[i],
        ) by {
            assert(stripped(line)[i] == line[i]);
        }
    }
    assert(kept(p) == kept(p.drop_last()));
}

/// A line end behind a buffer, and blank lines behind that, add no record.
pub proof fn law_blank_lines_hold_no_record(first: Seq<u8>, blank: Seq<u8>)
    requires
        is_blank(blank),
    ensures
        records(blank) == Seq::<Seq<u8>>::empty(),
        records(first.push(10) + blank) == records(first),
{
    lemma_blank(blank);
    lemma_pieces_join(first, blank);
    lemma_kept_join(pieces(first), pieces(blank));
    assert(records(first) + records(blank) =~= records(first));
}

/// The lines, each with its end: a newline, with a carriage return before it
/// or without.
pub open spec fn written(lines: Seq<Seq<u8>>, crlf: bool) -> Seq<u8>
    decreases lines.len(),
{
    if lines.len() == 0 {
        Seq::empty()
    } else if crlf {
        written(lines.drop_last(), crlf) + lines.last().push(13).push(10)
    } else {
        written(lines.drop_last(), crlf) + lines.last().push(10)
    }
}

/// A line with something on it, in which no line ends.
pub open spec fn full_line(line: Seq<u8>) -> bool {
    &&& forall|i: int| 0 <= i < line.len() ==> #[trigger] line[i] != 10
    &&& line.len() > 0 && line.last() != 13
    &&& exists|i: int|
        0 <= i < line.len() && {
            let b = #[trigger] line[i];
            b != 32 && b != 9 && b != 10 && b != 12 && b != 13
        }
}

proof fn lemma_one_piece(s: Seq<u8>)
    requires
        forall|i: int| 0 <= i < s.len() ==> #[trigger] s[i] != 10,
    ensures
        pieces(s) == seq![s],
    decreases s.len(),
{
    if s.len() > 0 {
        let front = s.drop_last();
        assert forall|i: int| 0 <= i < front.len() implies #[trigger] front[i] != 10 by {
            assert(front[i] == s[i]);
        }
        lemma_one_piece(front);
        assert(s[s.len() - 1] != 10);
        assert(front.push(s.last()) =~= s);
        assert(pieces(s) =~= seq![s]);
    } else {
        assert(s =~= Seq::empty());
    }
}

proof fn lemma_record_of_line(line: Seq<u8>)
    requires
        full_line(line),
    ensures
        kept(pieces(line)) == seq![line],
        kept(pieces(line.push(13))) == seq![line],
{
    let ended = line.push(13);
    assert forall|i: int| 0 <= i < ended.len() implies #[trigger] ended[i] != 10 by {
        if i < line.len() {
            assert(ended[i] == line[i]);
        }
    }
    lemma_one_piece(line);
    lemma_one_piece(ended);
    reveal_with_fuel(kept, 2);
    assert(ended.drop_last() =~= line);
    let i = choose|i: int|
        0 <= i < line.len() && {
            let b = #[trigger] line[i];
            b != 32 && b != 9 && b != 10 && b != 12 && b != 13
        };
    assert(!is_blank_byte(line[i]));
    assert(!is_blank(line));
    assert(seq![line].drop_last() =~= Seq::empty());
    assert(seq![ended].drop_last() =~= Seq::empty());
    assert(kept(seq![line]) =~= seq![line]);
    assert(kept(seq![ended]) =~= seq![line]);
}

/// Lines with something on them are read back as they were written, in their
/// order, whether a carriage return stands before each newline or not; and a
/// last line that has no end is read too.
pub proof fn law_lines_are_read_back(lines: Seq<Seq<u8>>, crlf: bool, last: Seq<u8>)
    requires
        forall|i: int| 0 <= i < lines.len() ==> full_line(#[trigger] lines[i]),
        full_line(last),
    ensures
        records(written(lines, crlf)) == lines,
        records(written(lines, crlf) + last) == lines.push(last),
    decreases lines.len(),
{
    let all = written(lines, crlf);
    lemma_record_of_line(last);
    if lines.len() == 0 {
        reveal_with_fuel(kept, 2);
        let none = Seq::<u8>::empty();
        assert(pieces(all) == seq![none]);
        assert(seq![none].drop_last() =~= Seq::empty());
        assert(stripped(none) == none && is_blank(none));
        assert(records(all) =~= lines);
        assert(all + last =~= last);
        assert(records(all + last) =~= lines.push(last));
    } else {
        let front = lines.drop_last();
        let line = lines.last();
        assert(full_line(lines[lines.len() - 1]));
        assert forall|i: int| 0 <= i < front.len() implies full_line(#[trigger] front[i]) by {
            assert(front[i] == lines[i]);
        }
        law_lines_are_read_back(front, crlf, line);
        lemma_record_of_line(line);
        let before = written(front, crlf);
        let body = if crlf {
            line.push(13)
        } else {
            line
        };
        lemma_records_of_two(before, front, body, line);
        let open = before + body;
        assert(all =~= open.push(10));
        lemma_pieces_join(open, last);
        lemma_kept_join(pieces(open), pieces(last));
        let none = Seq::<u8>::empty();
        lemma_pieces_join(open, none);
        assert(open.push(10) + none =~= open.push(10));
        lemma_kept_join(pieces(open), pieces(none));
        assert(kept(pieces(none)) =~= Seq::empty()) by {
            reveal_with_fuel(kept, 2);
            assert(seq![none].drop_last() =~= Seq::empty());
            assert(stripped(none) == none && is_blank(none));
        }
        assert(front.push(line) =~= lines);
        assert(records(all) =~= lines);
        assert(records(all + last) =~= lines.push(last));
    }
}

/// A line behind written lines, whether it ends in a carriage return or not.
proof fn lemma_records_of_two(
    before: Seq<u8>,
    front: Seq<Seq<u8>>,
    body: Seq<u8>,
    line: Seq<u8>,
)
    requires
        records(before) == front,
        before.len() == 0 || before.last() == 10,
        full_line(line),
        body == line || body == line.push(13),
    ensures
        records(before + body) == front.push(line),
{
    lemma_record_of_line(line);
    if before.len() == 0 {
        assert(before =~= Seq::empty());
        assert(before + body =~= body);
        assert(kept(pieces(before)) =~= Seq::empty()) by {
            reveal_with_fuel(kept, 2);
            let none = Seq::<u8>::empty();
            assert(seq![none].drop_last() =~= Seq::empty());
            assert(stripped(none) == none && is_blank(none));
        }
        assert(records(before + body) =~= front.push(line));
    } else {
        let a = before.drop_last();
        let none = Seq::<u8>::empty();
        assert(before =~= a.push(10) + none);
        assert(before + body =~= a.push(10) + body);
        lemma_pieces_join(a, none);
        lemma_pieces_join(a, body);
        lemma_kept_join(pieces(a), pieces(none));
        lemma_kept_join(pieces(a), pieces(body));
        assert(kept(pieces(none)) =~= Seq::empty()) by {
            reveal_with_fuel(kept, 2);
            assert(seq![none].drop_last() =~= Seq::empty());
            assert(stripped(none) == none && is_blank(none));
        }
        assert(records(before + body) =~= front.push(line));
    }
}

/// Spaces, tabs, form feeds and what ends a line make no record, however many
/// there are.
pub proof fn law_white_lines_hold_no_record(first: Seq<u8>, white: Seq<u8>)
    requires
        forall|i: int|
            0 <= i < white.len() ==> {
                let b = #[trigger] white[i];
                b == 32 || b == 9 || b == 10 || b == 12 || b == 13
            },
    ensures
        records(white) == Seq::<Seq<u8>>::empty(),
        records(first.push(10) + white) == records(first),
{
    law_blank_lines_hold_no_record(first, white);
}

/// The documents of a stream are numbered on from the first ordinal, each one
/// more than the one before it, and keep their order.
pub proof fn law_documents_are_numbered(start: u64, docs: Seq<JsonView>, i: int)
    requires
        0 <= i < docs.len(),
        start + docs.len() <= u64::MAX,
    ensures
        numbered(start, docs).len() == docs.len(),
        numbered(start, docs)[i] == ((start + i) as u64, docs[i]),
{
}

/// The documents of some records are those of the first, and behind them those
/// of the others; and of one record there is one, if it spells one.
pub proof fn law_records_become_documents(a: Seq<Seq<u8>>, record: Seq<u8>, b: Seq<Seq<u8>>)
    ensures
        text::told(a + b) == text::told(a) + text::told(b),
        match text::parsed(record) {
            Some(j) => text::told(seq![record]) == seq![j],
            None => text::told(seq![record]) == Seq::<JsonView>::empty(),
        },
{
    lemma_told_join(a, b);
    assert(seq![record].drop_last() =~= Seq::empty());
    assert(text::told(seq![record].drop_last()) =~= Seq::empty());
    if let Some(j) = text::parsed(record) {
        assert(text::told(seq![record]) =~= seq![j]);
    }
}

} // verus!
