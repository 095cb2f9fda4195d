//! What the profile tells of the bytes that were pushed.
use crate::sniff::lines::{CadenceView, LineView, LinesView};
use crate::sniff::profile;
use crate::sniff::profile::BuilderView;
use crate::sniff::scalar;
use vstd::prelude::*;

verus! {

// ---------------------------------------------------------------------
// One line
// ---------------------------------------------------------------------

/// How often a byte occurs.
pub open spec fn count(bytes: Seq<u8>, b: u8) -> nat {
    bytes.to_multiset().count(b)
}

proof fn lemma_count_push(bytes: Seq<u8>, b: u8)
    requires
        bytes.len() > 0,
    ensures
        count(bytes, b) == count(bytes.drop_last(), b) + (if bytes.last() == b {
            1nat
        } else {
            0
        }),
        count(bytes, b) <= bytes.len(),
{
    broadcast use vstd::seq_lib::group_to_multiset_ensures;

    let front = bytes.drop_last();
    assert(front.push(bytes.last()) =~= bytes);
    assert(bytes.to_multiset().len() == bytes.len());
}

proof fn lemma_count_empty(bytes: Seq<u8>, b: u8)
    requires
        bytes.len() == 0,
    ensures
        count(bytes, b) == 0,
{
    broadcast use vstd::seq_lib::group_to_multiset_ensures;

    assert(bytes.to_multiset().len() == 0);
}

/// The bytes of one line, without the end of it.
pub open spec fn one_line(bytes: Seq<u8>) -> bool {
    forall|i: int| 0 <= i < bytes.len() ==> #[trigger] bytes[i] != 0x0a
}

/// No double quote.
pub open spec fn unquoted(bytes: Seq<u8>) -> bool {
    forall|i: int| 0 <= i < bytes.len() ==> #[trigger] bytes[i] != 0x22
}

/// Delimiters are counted outside of quotes: `a` has been read before, no
/// quote is open, and `bytes` has none.
proof fn lemma_delimiters(s: BuilderView, bytes: Seq<u8>)
    requires
        one_line(bytes),
        unquoted(bytes),
        s.line.delims.len() == 4,
        !s.line.in_quote || s.line.quote_pending,
        forall|k: int|
            0 <= k < 4 ==> (#[trigger] s.line.delims[k]) + bytes.len() < 0x1_0000_0000,
    ensures
        ({
            let t = s.run(bytes);
            &&& t.line.delims.len() == 4
            &&& t.line.delims[0] == s.line.delims[0] + count(bytes, 0x2c)
            &&& t.line.delims[1] == s.line.delims[1] + count(bytes, 0x09)
            &&& t.line.delims[2] == s.line.delims[2] + count(bytes, 0x3b)
            &&& t.line.delims[3] == s.line.delims[3] + count(bytes, 0x7c)
            &&& bytes.len() > 0 ==> !t.line.in_quote && !t.line.quote_pending
            &&& t.lines == s.lines
        }),
    decreases bytes.len(),
{
    lemma_bounded_counts(bytes);
    if bytes.len() > 0 {
        let front = bytes.drop_last();
        assert forall|i: int| 0 <= i < front.len() implies #[trigger] front[i] != 0x0a by {
            assert(front[i] == bytes[i]);
        }
        assert forall|i: int| 0 <= i < front.len() implies #[trigger] front[i] != 0x22 by {
            assert(front[i] == bytes[i]);
        }
        lemma_delimiters(s, front);
        lemma_bounded_counts(front);
        assert(bytes[bytes.len() - 1] != 0x0a && bytes[bytes.len() - 1] != 0x22);
        lemma_count_push(bytes, 0x2c);
        lemma_count_push(bytes, 0x09);
        lemma_count_push(bytes, 0x3b);
        lemma_count_push(bytes, 0x7c);
    }
}

proof fn lemma_bounded_counts(bytes: Seq<u8>)
    ensures
        forall|b: u8| #[trigger] count(bytes, b) <= bytes.len(),
        bytes.len() == 0 ==> forall|b: u8| #[trigger] count(bytes, b) == 0,
{
    assert forall|b: u8| #[trigger] count(bytes, b) <= bytes.len() by {
        if bytes.len() > 0 {
            lemma_count_push(bytes, b);
        } else {
            lemma_count_empty(bytes, b);
        }
    }
}

/// On a line without quotes every comma, tab, semicolon and bar is counted as
/// a delimiter, and nothing else is.
pub proof fn law_delimiters_are_counted(s: BuilderView, bytes: Seq<u8>)
    requires
        s.line == LineView::fresh(),
        one_line(bytes),
        unquoted(bytes),
        bytes.len() < 0x1_0000_0000,
    ensures
        s.run(bytes).line.delims == seq![
            count(bytes, 0x2c) as u32,
            count(bytes, 0x09) as u32,
            count(bytes, 0x3b) as u32,
            count(bytes, 0x7c) as u32,
        ],
{
    lemma_delimiters(s, bytes);
    lemma_bounded_counts(bytes);
    assert(s.run(bytes).line.delims =~= seq![
        count(bytes, 0x2c) as u32,
        count(bytes, 0x09) as u32,
        count(bytes, 0x3b) as u32,
        count(bytes, 0x7c) as u32,
    ]);
}

proof fn lemma_inside_quotes(s: BuilderView, bytes: Seq<u8>)
    requires
        one_line(bytes),
        unquoted(bytes),
        s.line.in_quote,
        !s.line.quote_pending,
    ensures
        s.run(bytes).line.delims == s.line.delims,
        s.run(bytes).line.in_quote,
        !s.run(bytes).line.quote_pending,
    decreases bytes.len(),
{
    if bytes.len() > 0 {
        let front = bytes.drop_last();
        assert forall|i: int| 0 <= i < front.len() implies #[trigger] front[i] != 0x0a by {
            assert(front[i] == bytes[i]);
        }
        assert forall|i: int| 0 <= i < front.len() implies #[trigger] front[i] != 0x22 by {
            assert(front[i] == bytes[i]);
        }
        lemma_inside_quotes(s, front);
        assert(bytes[bytes.len() - 1] != 0x0a && bytes[bytes.len() - 1] != 0x22);
    }
}

proof fn lemma_one_byte(s: BuilderView, b: u8)
    ensures
        s.run(seq![b]) == s.step(b),
{
    assert(seq![b].drop_last() =~= Seq::empty());
    assert(s.run(seq![b].drop_last()) == s);
    assert(seq![b].last() == b);
}

/// What stands between two double quotes is no delimiter: those before and
/// those behind are counted alone.
pub proof fn law_quoted_delimiters_are_left_out(
    s: BuilderView,
    before: Seq<u8>,
    quoted: Seq<u8>,
    behind: Seq<u8>,
)
    requires
        s.line == LineView::fresh(),
        one_line(before) && unquoted(before),
        one_line(quoted) && unquoted(quoted),
        one_line(behind) && unquoted(behind),
        before.len() + behind.len() < 0x1_0000_0000,
    ensures
        ({
            let line = before + seq![0x22] + quoted + seq![0x22] + behind;
            let t = s.run(line).line;
            &&& t.delims[0] == count(before, 0x2c) + count(behind, 0x2c)
            &&& t.delims[1] == count(before, 0x09) + count(behind, 0x09)
            &&& t.delims[2] == count(before, 0x3b) + count(behind, 0x3b)
            &&& t.delims[3] == count(before, 0x7c) + count(behind, 0x7c)
        }),
{
    lemma_bounded_counts(before);
    lemma_bounded_counts(behind);
    lemma_delimiters(s, before);
    let a = s.run(before);
    lemma_one_byte(a, 0x22);
    let b = a.step(0x22);
    lemma_inside_quotes(b, quoted);
    let c = b.run(quoted);
    lemma_one_byte(c, 0x22);
    let d = c.step(0x22);
    lemma_delimiters(d, behind);
    profile::law_profile_chunks(s, before, seq![0x22]);
    profile::law_profile_chunks(s, before + seq![0x22], quoted);
    profile::law_profile_chunks(s, before + seq![0x22] + quoted, seq![0x22]);
    profile::law_profile_chunks(s, before + seq![0x22] + quoted + seq![0x22], behind);
}

/// A space or a tab.
pub open spec fn indenting(b: u8) -> bool {
    b == 0x20 || b == 0x09
}

/// A space, a tab, a line feed, a form feed or a carriage return.
pub open spec fn spacing(b: u8) -> bool {
    b == 0x20 || b == 0x09 || b == 0x0a || b == 0x0c || b == 0x0d
}

/// The geometry of a line: its length, how many spaces and tabs it starts with
/// and what comes first behind them, its last two bytes, whether it is more
/// than white space, and its text, up to what is kept of one.
pub proof fn law_lines_are_measured(s: BuilderView, bytes: Seq<u8>, indent: int)
    requires
        s.line == LineView::fresh(),
        one_line(bytes),
        bytes.len() < 0x1_0000_0000,
        0 <= indent <= bytes.len(),
        forall|i: int| 0 <= i < indent ==> indenting(#[trigger] bytes[i]),
        indent < bytes.len() ==> !indenting(bytes[indent]),
    ensures
        ({
            let t = s.run(bytes).line;
            &&& t.len == bytes.len()
            &&& t.indent == indent
            &&& t.lead == (if indent < bytes.len() {
                Some(bytes[indent])
            } else {
                None
            })
            &&& t.last == (if bytes.len() > 0 {
                Some(bytes.last())
            } else {
                None
            })
            &&& t.last_before == (if bytes.len() > 1 {
                Some(bytes[bytes.len() - 2])
            } else {
                None
            })
            &&& t.saw_nonspace <==> exists|i: int|
                0 <= i < bytes.len() && !spacing(#[trigger] bytes[i])
            &&& t.buf_overflow <==> bytes.len() > 4096
            &&& bytes.len() <= 4096 ==> t.buf == bytes
            &&& t.in_indent <==> indent == bytes.len()
            &&& s.run(bytes).lines == s.lines
        }),
    decreases bytes.len(),
{
    let t = s.run(bytes).line;
    if bytes.len() == 0 {
        assert(t.buf =~= bytes);
    } else {
        let front = bytes.drop_last();
        let b = bytes.last();
        assert forall|i: int| 0 <= i < front.len() implies #[trigger] front[i] != 0x0a by {
            assert(front[i] == bytes[i]);
        }
        assert(bytes[bytes.len() - 1] != 0x0a);
        let inner = if indent == bytes.len() {
            indent - 1
        } else {
            indent
        };
        assert forall|i: int| 0 <= i < inner implies indenting(#[trigger] front[i]) by {
            assert(front[i] == bytes[i]);
        }
        if indent == bytes.len() {
            assert(indenting(bytes[indent - 1]));
        }
        if inner < front.len() {
            assert(front[inner] == bytes[inner]);
        }
        law_lines_are_measured(s, front, inner);
        let u = s.run(front).line;
        if u.saw_nonspace {
            let i = choose|i: int| 0 <= i < front.len() && !spacing(#[trigger] front[i]);
            assert(front[i] == bytes[i]);
            assert(!spacing(bytes[i]));
        }
        if !spacing(b) {
            assert(!spacing(bytes[bytes.len() - 1]));
        }
        if t.saw_nonspace && !u.saw_nonspace {
            assert(!spacing(bytes[bytes.len() - 1]));
        }
        if exists|i: int| 0 <= i < bytes.len() && !spacing(#[trigger] bytes[i]) {
            let i = choose|i: int| 0 <= i < bytes.len() && !spacing(#[trigger] bytes[i]);
            if i < front.len() {
                assert(front[i] == bytes[i]);
                assert(!spacing(front[i]));
            }
        }
        if bytes.len() <= 4096 {
            assert(t.buf =~= bytes);
        }
    }
}

// ---------------------------------------------------------------------
// Lines
// ---------------------------------------------------------------------

/// A line that is white space is counted as blank, and changes nothing else
/// that is told of the lines.
pub proof fn law_blank_lines_are_counted(s: BuilderView, bytes: Seq<u8>)
    requires
        s.wf(),
        s.grams.units + s.segments + bytes.len() < i64::MAX,
        s.line == LineView::fresh(),
        bytes.len() < 0x1_0000_0000,
        one_line(bytes),
        forall|i: int| 0 <= i < bytes.len() ==> spacing(#[trigger] bytes[i]),
    ensures
        s.run(bytes.push(0x0a)).line == LineView::fresh(),
        s.run(bytes.push(0x0a)).lines.blank_lines == s.lines.blank_lines + 1,
        s.run(bytes.push(0x0a)).lines == (LinesView {
            blank_lines: s.run(bytes.push(0x0a)).lines.blank_lines,
            ..s.lines
        }),
{
    let k = lemma_indent(bytes);
    law_lines_are_measured(s, bytes, k);
    assert(bytes.push(0x0a).drop_last() =~= bytes);
    profile::law_profile_is_bounded(s, bytes);
}

proof fn lemma_indent(bytes: Seq<u8>) -> (k: int)
    ensures
        0 <= k <= bytes.len(),
        forall|i: int| 0 <= i < k ==> indenting(#[trigger] bytes[i]),
        k < bytes.len() ==> !indenting(bytes[k]),
    decreases bytes.len(),
{
    if bytes.len() == 0 {
        0
    } else {
        let front = bytes.drop_last();
        let k = lemma_indent(front);
        assert forall|i: int| 0 <= i < k implies indenting(#[trigger] bytes[i]) by {
            assert(front[i] == bytes[i]);
        }
        if k < front.len() {
            assert(front[k] == bytes[k]);
            k
        } else if indenting(bytes.last()) {
            k + 1
        } else {
            k
        }
    }
}

/// A histogram with one more of `key`, where there is room for it.
pub open spec fn one_more(before: Map<u32, u64>, after: Map<u32, u64>, key: u32) -> bool {
    &&& after.contains_key(key)
    &&& after[key] == (if before.contains_key(key) {
        before[key] + 1
    } else {
        1
    })
    &&& forall|j: u32| j != key ==> (#[trigger] after.contains_key(j) <==> before.contains_key(j))
    &&& forall|j: u32| j != key && before.contains_key(j) ==> #[trigger] after[j] == before[j]
}

/// A line with something on it, and without quotes, is counted once: with its
/// length, with the byte that it starts with behind its indentation, with the
/// byte that it ends with, and, for each delimiter, with how many of it there
/// are. A carriage return at the end belongs to the end of the line.
pub proof fn law_lines_are_counted(s: BuilderView, bytes: Seq<u8>, indent: int)
    requires
        s.wf(),
        s.grams.units + s.segments + bytes.len() < i64::MAX,
        s.line == LineView::fresh(),
        one_line(bytes),
        unquoted(bytes),
        bytes.len() < 0x1_0000_0000,
        0 <= indent < bytes.len(),
        forall|i: int| 0 <= i < indent ==> indenting(#[trigger] bytes[i]),
        !spacing(bytes[indent]),
        s.lines.indents.len() < 64,
        forall|k: int| 0 <= k < 4 ==> (#[trigger] s.lines.cadence[k]).hist.len() < 128,
    ensures
        ({
            let t = s.run(bytes.push(0x0a));
            let before = s.lines;
            let after = t.lines;
            let text = if bytes.last() == 0x0d {
                bytes.drop_last()
            } else {
                bytes
            };
            &&& t.line == LineView::fresh()
            &&& after.lines == before.lines + 1
            &&& after.blank_lines == before.blank_lines
            &&& after.len_sum == before.len_sum + text.len()
            &&& after.len_sq == before.len_sq + text.len() * text.len()
            &&& after.line_lead == before.line_lead.update(
                bytes[indent] as int,
                (before.line_lead[bytes[indent] as int] + 1) as u64,
            )
            &&& after.line_last == before.line_last.update(
                text.last() as int,
                (before.line_last[text.last() as int] + 1) as u64,
            )
            &&& one_more(before.indents, after.indents, indent as u32)
            &&& after.cadence.len() == 4
            &&& after.cadence[0].delim == 0x2c && one_more(
                before.cadence[0].hist,
                after.cadence[0].hist,
                count(bytes, 0x2c) as u32,
            )
            &&& after.cadence[1].delim == 0x09 && one_more(
                before.cadence[1].hist,
                after.cadence[1].hist,
                count(bytes, 0x09) as u32,
            )
            &&& after.cadence[2].delim == 0x3b && one_more(
                before.cadence[2].hist,
                after.cadence[2].hist,
                count(bytes, 0x3b) as u32,
            )
            &&& after.cadence[3].delim == 0x7c && one_more(
                before.cadence[3].hist,
                after.cadence[3].hist,
                count(bytes, 0x7c) as u32,
            )
            &&& forall|k: int| 0 <= k < 4 ==> (#[trigger] after.cadence[k]).lines == after.lines
        }),
{
    law_lines_are_measured(s, bytes, indent);
    law_delimiters_are_counted(s, bytes);
    assert(bytes.push(0x0a).drop_last() =~= bytes);
    profile::law_profile_is_bounded(s, bytes);
    profile::law_profile_is_bounded(s, bytes.push(0x0a));
    let t = s.run(bytes.push(0x0a));
    let line = s.run(bytes).line;
    assert(line.saw_nonspace) by {
        assert(!spacing(bytes[indent]));
    }
    if bytes.last() == 0x0d {
        assert(bytes[bytes.len() - 1] == 0x0d);
        assert(bytes.drop_last().last() == bytes[bytes.len() - 2]);
    }
    let l = crate::sniff::lines::line_length(line);
    assert(l * l <= 0x1_0000_0000 * 0x1_0000_0000) by (nonlinear_arith)
        requires
            0 <= l <= 0x1_0000_0000,
    ;
    let m = s.lines.len_sum;
    assert(m * m <= i64::MAX * i64::MAX) by (nonlinear_arith)
        requires
            0 <= m <= i64::MAX,
    ;
    assert(t.lines.cadence[0] == s.lines.cadence[0].observe(line.delims[0]));
    assert(t.lines.cadence[1] == s.lines.cadence[1].observe(line.delims[1]));
    assert(t.lines.cadence[2] == s.lines.cadence[2].observe(line.delims[2]));
    assert(t.lines.cadence[3] == s.lines.cadence[3].observe(line.delims[3]));
    lemma_one_more(s.lines.cadence[0], line.delims[0]);
    lemma_one_more(s.lines.cadence[1], line.delims[1]);
    lemma_one_more(s.lines.cadence[2], line.delims[2]);
    lemma_one_more(s.lines.cadence[3], line.delims[3]);
}

proof fn lemma_one_more(c: CadenceView, n: u32)
    requires
        c.wf(),
        c.lines < u64::MAX,
        c.hist.len() < 128,
    ensures
        one_more(c.hist, c.observe(n).hist, n),
{
}

/// What is left of a last line when the bytes end is counted as a line that
/// was ended.
pub proof fn law_a_last_line_needs_no_end(s: BuilderView, bytes: Seq<u8>)
    ensures
        s.run(bytes).boundary().lines == s.run(bytes.push(0x0a)).lines,
        s.run(bytes).profile().lines == s.run(bytes.push(0x0a)).lines,
{
    assert(bytes.push(0x0a).drop_last() =~= bytes);
}

/// A line that is a bare JSON scalar, with white space around it or none, is
/// counted as one; any other line is not, and neither is one of which not all
/// is kept.
pub proof fn law_scalar_lines_are_counted(s: BuilderView, bytes: Seq<u8>, indent: int)
    requires
        s.wf(),
        s.grams.units + s.segments + bytes.len() < i64::MAX,
        s.line == LineView::fresh(),
        one_line(bytes),
        bytes.len() < 0x1_0000_0000,
        0 <= indent < bytes.len(),
        forall|i: int| 0 <= i < indent ==> indenting(#[trigger] bytes[i]),
        !spacing(bytes[indent]),
    ensures
        s.run(bytes.push(0x0a)).lines.scalar_lines == s.lines.scalar_lines + (if bytes.len() <= 4096
            && scalar::json_scalar(scalar::trimmed(bytes)) {
            1int
        } else {
            0
        }),
{
    law_lines_are_measured(s, bytes, indent);
    assert(bytes.push(0x0a).drop_last() =~= bytes);
    profile::law_profile_is_bounded(s, bytes);
    assert(s.run(bytes).line.saw_nonspace) by {
        assert(!spacing(bytes[indent]));
    }
}

/// A doubled quote leaves what is quoted open.
proof fn lemma_doubled(s: BuilderView, first: Seq<u8>, second: Seq<u8>)
    requires
        one_line(first) && unquoted(first),
        one_line(second) && unquoted(second),
        s.line.in_quote,
        !s.line.quote_pending,
    ensures
        ({
            let t = s.run(first + seq![0x22u8] + seq![0x22u8] + second);
            &&& t.line.delims == s.line.delims
            &&& t.line.in_quote
            &&& !t.line.quote_pending
        }),
{
    let q = seq![0x22u8];
    lemma_inside_quotes(s, first);
    let c = s.run(first);
    lemma_one_byte(c, 0x22);
    let d = c.step(0x22);
    assert(d.line.delims == c.line.delims && d.line.in_quote && d.line.quote_pending);
    lemma_one_byte(d, 0x22);
    let e = d.step(0x22);
    assert(e.line.delims == c.line.delims && e.line.in_quote && !e.line.quote_pending);
    lemma_inside_quotes(e, second);
    profile::law_profile_chunks(s, first, q);
    profile::law_profile_chunks(s, first + q, q);
    profile::law_profile_chunks(s, first + q + q, second);
}

/// Two double quotes together do not end what is quoted: what follows them is
/// quoted still.
pub proof fn law_doubled_quotes_are_no_end(
    s: BuilderView,
    before: Seq<u8>,
    first: Seq<u8>,
    second: Seq<u8>,
    behind: Seq<u8>,
)
    requires
        s.line == LineView::fresh(),
        one_line(before) && unquoted(before),
        one_line(first) && unquoted(first),
        one_line(second) && unquoted(second),
        one_line(behind) && unquoted(behind),
        before.len() + behind.len() < 0x1_0000_0000,
    ensures
        ({
            let quoted = first + seq![0x22u8] + seq![0x22u8] + second;
            let line = before + seq![0x22u8] + quoted + seq![0x22u8] + behind;
            let t = s.run(line).line;
            &&& t.delims[0] == count(before, 0x2c) + count(behind, 0x2c)
            &&& t.delims[1] == count(before, 0x09) + count(behind, 0x09)
            &&& t.delims[2] == count(before, 0x3b) + count(behind, 0x3b)
            &&& t.delims[3] == count(before, 0x7c) + count(behind, 0x7c)
        }),
{
    let q = seq![0x22u8];
    let quoted = first + q + q + second;
    lemma_bounded_counts(before);
    lemma_bounded_counts(behind);
    lemma_delimiters(s, before);
    let a = s.run(before);
    lemma_one_byte(a, 0x22);
    let b = a.step(0x22);
    lemma_doubled(b, first, second);
    let c = b.run(quoted);
    lemma_one_byte(c, 0x22);
    let d = c.step(0x22);
    lemma_delimiters(d, behind);
    profile::law_profile_chunks(s, before, q);
    profile::law_profile_chunks(s, before + q, quoted);
    profile::law_profile_chunks(s, before + q + quoted, q);
    profile::law_profile_chunks(s, before + q + quoted + q, behind);
}

} // verus!
