//! What the sniffed figures stand for: brackets, scalars and encodings, told
//! by the bytes that are there.
use crate::sniff::brace::{BraceScan, BraceState};
use crate::sniff::scalar;
use vstd::prelude::*;

verus! {

// ---------------------------------------------------------------------
// Brackets
// ---------------------------------------------------------------------

/// What the scanner has found behind some bytes.
pub open spec fn scanned(s: BraceState, bytes: Seq<u8>) -> BraceState
    decreases bytes.len(),
{
    if bytes.len() == 0 {
        s
    } else {
        scanned(s, bytes.drop_last()).step(bytes.last())
    }
}

/// How often a byte stands among the bytes.
pub open spec fn count(bytes: Seq<u8>, b: u8) -> int {
    bytes.to_multiset().count(b) as int
}

proof fn lemma_count(bytes: Seq<u8>, b: u8)
    requires
        bytes.len() > 0,
    ensures
        count(bytes, b) == count(bytes.drop_last(), b) + (if bytes.last() == b {
            1int
        } else {
            0
        }),
{
    broadcast use vstd::seq_lib::group_to_multiset_ensures;

    assert(bytes.drop_last().push(bytes.last()) =~= bytes);
}

proof fn lemma_count_of_none(b: u8)
    ensures
        count(Seq::<u8>::empty(), b) == 0,
{
    broadcast use vstd::seq_lib::group_to_multiset_ensures;

    assert(Seq::<u8>::empty().to_multiset().len() == 0);
}

/// The brackets that were opened and not closed.
pub open spec fn open_brackets(bytes: Seq<u8>) -> int {
    count(bytes, 0x7b) + count(bytes, 0x5b) - count(bytes, 0x7d) - count(bytes, 0x5d)
}

proof fn lemma_open_brackets(bytes: Seq<u8>)
    ensures
        -bytes.len() <= open_brackets(bytes) <= bytes.len(),
        0 <= count(bytes, 0x7b) <= bytes.len(),
        0 <= count(bytes, 0x7d) <= bytes.len(),
        0 <= count(bytes, 0x5b) <= bytes.len(),
        0 <= count(bytes, 0x5d) <= bytes.len(),
    decreases bytes.len(),
{
    if bytes.len() == 0 {
        assert(bytes =~= Seq::empty());
        lemma_count_of_none(0x7b);
        lemma_count_of_none(0x7d);
        lemma_count_of_none(0x5b);
        lemma_count_of_none(0x5d);
    } else {
        lemma_open_brackets(bytes.drop_last());
        lemma_count(bytes, 0x7b);
        lemma_count(bytes, 0x7d);
        lemma_count(bytes, 0x5b);
        lemma_count(bytes, 0x5d);
    }
}

/// Outside of strings every bracket is counted as what it is, the depth is how
/// many are open, and the greatest depth is that of the deepest place. More
/// were closed than opened just where that holds of some start of the bytes.
pub proof fn law_brackets_are_counted(bytes: Seq<u8>)
    requires
        bytes.len() <= u32::MAX,
        forall|i: int| 0 <= i < bytes.len() ==> #[trigger] bytes[i] != 0x22 && bytes[i] != 0x0a,
    ensures
        ({
            let t = scanned(BraceState::fresh(), bytes);
            &&& t.scan.obj_open == count(bytes, 0x7b)
            &&& t.scan.obj_close == count(bytes, 0x7d)
            &&& t.scan.arr_open == count(bytes, 0x5b)
            &&& t.scan.arr_close == count(bytes, 0x5d)
            &&& t.scan.strings == 0
            &&& !t.in_str
            &&& !t.escaped
            &&& t.depth == open_brackets(bytes)
            &&& t.scan.scanned_lines == 0
            &&& t.scan.depth_zero_lines == 0
            &&& t.line_had_content <==> exists|i: int|
                0 <= i < bytes.len() && {
                    let b = #[trigger] bytes[i];
                    b != 0x20 && b != 0x09 && b != 0x0c && b != 0x0d
                }
            &&& forall|k: int|
                0 <= k <= bytes.len() ==> open_brackets(#[trigger] bytes.take(k))
                    <= t.scan.max_depth
            &&& t.scan.max_depth > 0 ==> exists|k: int|
                0 <= k <= bytes.len() && open_brackets(#[trigger] bytes.take(k))
                    == t.scan.max_depth
            &&& t.scan.went_negative <==> exists|k: int|
                0 <= k <= bytes.len() && open_brackets(#[trigger] bytes.take(k)) < 0
        }),
    decreases bytes.len(),
{
    lemma_open_brackets(bytes);
    let t = scanned(BraceState::fresh(), bytes);
    if bytes.len() == 0 {
        assert(bytes =~= Seq::empty());
        lemma_count_of_none(0x7b);
        lemma_count_of_none(0x7d);
        lemma_count_of_none(0x5b);
        lemma_count_of_none(0x5d);
        assert forall|k: int| 0 <= k <= bytes.len() implies open_brackets(
            #[trigger] bytes.take(k),
        ) == 0 by {
            assert(bytes.take(k) =~= Seq::empty());
        }
    } else {
        let front = bytes.drop_last();
        let b = bytes.last();
        assert(bytes[bytes.len() - 1] == b);
        assert forall|i: int| 0 <= i < front.len() implies #[trigger] front[i] != 0x22 && front[i]
            != 0x0a by {
            assert(front[i] == bytes[i]);
        }
        law_brackets_are_counted(front);
        lemma_open_brackets(front);
        lemma_count(bytes, 0x7b);
        lemma_count(bytes, 0x7d);
        lemma_count(bytes, 0x5b);
        lemma_count(bytes, 0x5d);
        let s = scanned(BraceState::fresh(), front);
        assert(t == s.step(b));
        let n = bytes.len() as int;
        assert(bytes.take(n) =~= bytes);
        assert forall|k: int| 0 <= k < n implies #[trigger] bytes.take(k) == front.take(k) by {
            assert(bytes.take(k) =~= front.take(k));
        }
        assert(t.depth == open_brackets(bytes));
        assert forall|k: int| 0 <= k <= n implies open_brackets(#[trigger] bytes.take(k))
            <= t.scan.max_depth by {
            if k < n {
                assert(bytes.take(k) == front.take(k));
            }
        }
        if t.scan.max_depth > 0 {
            if t.scan.max_depth == s.scan.max_depth {
                let k = choose|k: int|
                    0 <= k <= front.len() && open_brackets(#[trigger] front.take(k))
                        == s.scan.max_depth;
                assert(open_brackets(bytes.take(k)) == t.scan.max_depth);
            } else {
                assert(open_brackets(bytes.take(n)) == t.scan.max_depth);
            }
        }
        if t.scan.went_negative {
            if s.scan.went_negative {
                let k = choose|k: int|
                    0 <= k <= front.len() && open_brackets(#[trigger] front.take(k)) < 0;
                assert(open_brackets(bytes.take(k)) < 0);
            } else {
                assert(open_brackets(bytes.take(n)) < 0);
            }
        }
        if exists|k: int| 0 <= k <= n && open_brackets(#[trigger] bytes.take(k)) < 0 {
            let k = choose|k: int| 0 <= k <= n && open_brackets(#[trigger] bytes.take(k)) < 0;
            if k < n {
                assert(open_brackets(front.take(k)) < 0);
            }
        }
        if t.line_had_content {
            if s.line_had_content {
                let i = choose|i: int|
                    0 <= i < front.len() && {
                        let b = #[trigger] front[i];
                        b != 0x20 && b != 0x09 && b != 0x0c && b != 0x0d
                    };
                assert(bytes[i] == front[i]);
            } else {
                assert(bytes[n - 1] == b);
            }
        }
        if exists|i: int|
            0 <= i < bytes.len() && {
                let b = #[trigger] bytes[i];
                b != 0x20 && b != 0x09 && b != 0x0c && b != 0x0d
            } {
            let i = choose|i: int|
                0 <= i < bytes.len() && {
                    let b = #[trigger] bytes[i];
                    b != 0x20 && b != 0x09 && b != 0x0c && b != 0x0d
                };
            if i < n - 1 {
                assert(front[i] == bytes[i]);
            }
        }
    }
}

proof fn lemma_scanned(s: BraceState, a: Seq<u8>, b: Seq<u8>)
    ensures
        scanned(s, a + b) == scanned(scanned(s, a), b),
    decreases b.len(),
{
    if b.len() == 0 {
        assert(a + b =~= a);
    } else {
        assert((a + b).drop_last() =~= a + b.drop_last());
        lemma_scanned(s, a, b.drop_last());
    }
}

proof fn lemma_scanned_one(s: BraceState, b: u8)
    ensures
        scanned(s, seq![b]) == s.step(b),
{
    let one = seq![b];
    assert(one.drop_last() =~= Seq::empty());
    assert(scanned(s, one.drop_last()) == s);
}

/// What may stand between the quotes of a string: no quote but one behind a
/// backslash, and no backslash at the end that is not itself escaped.
pub open spec fn quoted(body: Seq<u8>) -> bool
    decreases body.len(),
{
    ||| body.len() == 0
    ||| body[0] != 0x22 && body[0] != 0x5c && quoted(body.skip(1))
    ||| body.len() >= 2 && body[0] == 0x5c && quoted(body.skip(2))
}

proof fn lemma_quoted(s: BraceState, body: Seq<u8>)
    requires
        s.in_str,
        !s.escaped,
        s.line_had_content,
        quoted(body),
    ensures
        scanned(s, body) == s,
    decreases body.len(),
{
    if body.len() > 0 {
        let n = if body[0] == 0x5c {
            2int
        } else {
            1
        };
        assert(body =~= body.take(n) + body.skip(n));
        lemma_scanned(s, body.take(n), body.skip(n));
        if n == 1 {
            assert(body.take(1) =~= seq![body[0]]);
            lemma_scanned_one(s, body[0]);
        } else {
            assert(body.take(2) =~= seq![body[0]] + seq![body[1]]);
            lemma_scanned(s, seq![body[0]], seq![body[1]]);
            lemma_scanned_one(s, body[0]);
            lemma_scanned_one(s.step(body[0]), body[1]);
        }
        lemma_quoted(s, body.skip(n));
    }
}

/// A string counts as one string, and nothing in it counts: no bracket, no
/// quote behind a backslash, and no line end. A string that is not closed
/// before a seam is unterminated.
pub proof fn law_strings_hide_what_is_in_them(s: BraceState, body: Seq<u8>)
    requires
        !s.in_str,
        !s.escaped,
        s.scan.strings < u64::MAX,
        0 <= s.depth <= s.scan.max_depth,
        quoted(body),
    ensures
        ({
            let t = scanned(s, seq![0x22u8] + body + seq![0x22u8]);
            &&& t == (BraceState {
                scan: BraceScan { strings: (s.scan.strings + 1) as u64, ..s.scan },
                line_had_content: true,
                ..s
            })
            &&& scanned(s, seq![0x22u8] + body).boundary().scan.unterminated_string
            &&& t.boundary().scan.unterminated_string == s.scan.unterminated_string
        }),
{
    let q = seq![0x22u8];
    lemma_scanned(s, q + body, q);
    lemma_scanned(s, q, body);
    lemma_scanned_one(s, 0x22);
    let a = s.step(0x22);
    lemma_quoted(a, body);
    lemma_scanned_one(a, 0x22);
}

/// A line is counted where there is something on it, and counted among those
/// with no open bracket where all are closed at its end; a blank line is not
/// counted. A seam ends a line as a newline does.
pub proof fn law_lines_end_at_newlines_and_seams(s: BraceState)
    requires
        !s.in_str,
        s.scan.scanned_lines < u64::MAX,
        s.scan.depth_zero_lines < u64::MAX,
        i64::MIN <= s.scan.final_depth + s.depth <= i64::MAX,
    ensures
        ({
            let t = s.step(0x0a);
            let u = s.boundary();
            &&& t.scan.scanned_lines == s.scan.scanned_lines + (if s.line_had_content {
                1int
            } else {
                0
            })
            &&& t.scan.depth_zero_lines == s.scan.depth_zero_lines + (if s.line_had_content
                && s.depth == 0 {
                1int
            } else {
                0
            })
            &&& !t.line_had_content
            &&& t.depth == s.depth
            &&& u.scan.scanned_lines == t.scan.scanned_lines
            &&& u.scan.depth_zero_lines == t.scan.depth_zero_lines
            &&& u.depth == 0
            &&& u.scan.final_depth == s.scan.final_depth + s.depth
            &&& u.scan.obj_open == s.scan.obj_open
            &&& u.scan.obj_close == s.scan.obj_close
            &&& u.scan.arr_open == s.scan.arr_open
            &&& u.scan.arr_close == s.scan.arr_close
        }),
{
}

/// Brackets are balanced where as many braces and as many square brackets were
/// opened as closed, and none was closed before it was opened.
pub proof fn law_balance_is_told(bytes: Seq<u8>)
    requires
        bytes.len() <= u32::MAX,
        forall|i: int| 0 <= i < bytes.len() ==> #[trigger] bytes[i] != 0x22 && bytes[i] != 0x0a,
    ensures
        scanned(BraceState::fresh(), bytes).boundary().scan.spec_balanced() <==> {
            &&& count(bytes, 0x7b) == count(bytes, 0x7d)
            &&& count(bytes, 0x5b) == count(bytes, 0x5d)
            &&& forall|k: int|
                0 <= k <= bytes.len() ==> open_brackets(#[trigger] bytes.take(k)) >= 0
        },
{
    law_brackets_are_counted(bytes);
}

// ---------------------------------------------------------------------
// Scalars
// ---------------------------------------------------------------------

/// Nothing but digits.
pub open spec fn all_digits(b: Seq<u8>) -> bool {
    forall|i: int| 0 <= i < b.len() ==> 0x30 <= #[trigger] b[i] <= 0x39
}

/// A zero alone, or digits of which the first is not zero.
pub open spec fn whole_part(b: Seq<u8>) -> bool {
    b.len() > 0 && all_digits(b) && (b[0] == 0x30 ==> b.len() == 1)
}

/// Nothing, or a point and digits behind it.
pub open spec fn fraction_part(b: Seq<u8>) -> bool {
    b.len() == 0 || (b.len() >= 2 && b[0] == 0x2e && all_digits(b.skip(1)))
}

/// Nothing, or `e` or `E`, a sign or none, and digits.
pub open spec fn exponent_part(b: Seq<u8>) -> bool {
    ||| b.len() == 0
    ||| b.len() >= 2 && (b[0] == 0x65 || b[0] == 0x45) && all_digits(b.skip(1))
    ||| b.len() >= 3 && (b[0] == 0x65 || b[0] == 0x45) && (b[1] == 0x2b || b[1] == 0x2d)
        && all_digits(b.skip(2))
}

/// A number, cut into its sign or none, its whole part, its fraction and its
/// exponent.
pub open spec fn number_parts(
    s: Seq<u8>,
    sign: Seq<u8>,
    whole: Seq<u8>,
    fraction: Seq<u8>,
    exponent: Seq<u8>,
) -> bool {
    &&& s == sign + whole + fraction + exponent
    &&& sign.len() == 0 || sign == seq![0x2du8]
    &&& whole_part(whole)
    &&& fraction_part(fraction)
    &&& exponent_part(exponent)
}

proof fn lemma_run(s: Seq<u8>, i: int, e: int)
    requires
        0 <= i <= e <= s.len(),
        forall|k: int| i <= k < e ==> 0x30 <= #[trigger] s[k] <= 0x39,
        e == s.len() || !(0x30 <= s[e] <= 0x39),
    ensures
        scalar::digits_end(s, i) == e,
    decreases e - i,
{
    if i < e {
        assert(0x30 <= s[i] <= 0x39);
        lemma_run(s, i + 1, e);
    }
}

proof fn lemma_run_of(s: Seq<u8>, i: int)
    requires
        0 <= i <= s.len(),
    ensures
        i <= scalar::digits_end(s, i) <= s.len(),
        forall|k: int| i <= k < scalar::digits_end(s, i) ==> 0x30 <= #[trigger] s[k] <= 0x39,
    decreases s.len() - i,
{
    if i < s.len() && scalar::is_digit(s[i]) {
        lemma_run_of(s, i + 1);
    }
}

/// A number is a sign or none, a whole part, a fraction or none and an
/// exponent or none: whatever is put together of these is one.
pub proof fn law_numbers_are_recognized(
    s: Seq<u8>,
    sign: Seq<u8>,
    whole: Seq<u8>,
    fraction: Seq<u8>,
    exponent: Seq<u8>,
)
    requires
        number_parts(s, sign, whole, fraction, exponent),
    ensures
        scalar::json_number(s),
        scalar::json_scalar(s),
{
    let a = sign.len() as int;
    let b = a + whole.len();
    let c = b + fraction.len();
    let n = s.len() as int;
    assert(whole[0] == s[a]);
    assert(a == 1 ==> s[0] == sign[0]);
    assert forall|k: int| a <= k < b implies 0x30 <= #[trigger] s[k] <= 0x39 by {
        assert(s[k] == whole[k - a]);
    }
    if fraction.len() > 0 {
        assert(s[b] == fraction[0]);
        assert forall|k: int| b + 1 <= k < c implies 0x30 <= #[trigger] s[k] <= 0x39 by {
            assert(s[k] == fraction.skip(1)[k - b - 1]);
        }
    }
    if exponent.len() > 0 {
        assert(s[c] == exponent[0]);
        assert(s[c + 1] == exponent[1]);
    }
    lemma_run(s, a, b);
    assert(scalar::whole(s, a) == Some(b));
    if fraction.len() > 0 {
        lemma_run(s, b + 1, c);
    }
    assert(scalar::fraction(s, b) == Some(c));
    if exponent.len() > 0 {
        if exponent[1] == 0x2b || exponent[1] == 0x2d {
            assert(exponent.skip(1)[0] == exponent[1]);
            assert forall|k: int| c + 2 <= k < n implies 0x30 <= #[trigger] s[k] <= 0x39 by {
                assert(s[k] == exponent.skip(2)[k - c - 2]);
            }
            lemma_run(s, c + 2, n);
        } else {
            assert forall|k: int| c + 1 <= k < n implies 0x30 <= #[trigger] s[k] <= 0x39 by {
                assert(s[k] == exponent.skip(1)[k - c - 1]);
            }
            lemma_run(s, c + 1, n);
        }
    }
    assert(scalar::exponent(s, c) == Some(n));
    assert(s[0] != 0x22);
}

/// And whatever is taken for a number is put together of these.
pub proof fn law_only_numbers_are_recognized(s: Seq<u8>)
    requires
        scalar::json_number(s),
    ensures
        exists|sign: Seq<u8>, whole: Seq<u8>, fraction: Seq<u8>, exponent: Seq<u8>| #[trigger]
            number_parts(s, sign, whole, fraction, exponent),
{
    let n = s.len() as int;
    let a = if s.len() > 0 && s[0] == 0x2d {
        1int
    } else {
        0
    };
    lemma_run_of(s, a);
    let b = scalar::whole(s, a)->Some_0;
    if b < n && s[b] == 0x2e {
        lemma_run_of(s, b + 1);
    }
    let c = scalar::fraction(s, b)->Some_0;
    if c < n && (s[c] == 0x65 || s[c] == 0x45) {
        lemma_run_of(s, c + 1);
        if c + 1 < n {
            lemma_run_of(s, c + 2);
        }
    }
    let sign = s.take(a);
    let whole = s.subrange(a, b);
    let fraction = s.subrange(b, c);
    let exponent = s.skip(c);
    assert(s =~= sign + whole + fraction + exponent);
    if a == 1 {
        assert(sign =~= seq![0x2du8]);
    }
    assert forall|i: int| 0 <= i < whole.len() implies 0x30 <= #[trigger] whole[i] <= 0x39 by {
        assert(whole[i] == s[a + i]);
    }
    assert(whole[0] == s[a]);
    if fraction.len() > 0 {
        assert(fraction[0] == s[b]);
        assert forall|i: int| 0 <= i < fraction.skip(1).len() implies 0x30
            <= #[trigger] fraction.skip(1)[i] <= 0x39 by {
            assert(fraction.skip(1)[i] == s[b + 1 + i]);
        }
    }
    if exponent.len() > 0 {
        assert(exponent[0] == s[c]);
        assert(exponent.len() >= 2);
        assert(exponent[1] == s[c + 1]);
        if s[c + 1] == 0x2b || s[c + 1] == 0x2d {
            assert forall|i: int| 0 <= i < exponent.skip(2).len() implies 0x30
                <= #[trigger] exponent.skip(2)[i] <= 0x39 by {
                assert(exponent.skip(2)[i] == s[c + 2 + i]);
            }
        } else {
            assert forall|i: int| 0 <= i < exponent.skip(1).len() implies 0x30
                <= #[trigger] exponent.skip(1)[i] <= 0x39 by {
                assert(exponent.skip(1)[i] == s[c + 1 + i]);
            }
        }
    }
    assert(number_parts(s, sign, whole, fraction, exponent));
}

proof fn lemma_plain_string(s: Seq<u8>, i: int)
    requires
        1 <= i < s.len(),
        s.last() == 0x22,
        forall|k: int|
            i <= k < s.len() - 1 ==> #[trigger] s[k] != 0x22 && s[k] != 0x5c && s[k] >= 0x20,
    ensures
        scalar::closes(s, i),
    decreases s.len() - i,
{
    if i < s.len() - 1 {
        assert(s[i] != 0x22);
        lemma_plain_string(s, i + 1);
    }
}

proof fn lemma_no_close(s: Seq<u8>, i: int, k: int)
    requires
        1 <= i <= k < s.len(),
        s[k] < 0x20,
        forall|j: int| i <= j < k ==> #[trigger] s[j] != 0x5c,
    ensures
        !scalar::closes(s, i),
    decreases s.len() - i,
{
    if i < k {
        assert(s[i] != 0x5c);
        if s[i] != 0x22 && s[i] >= 0x20 {
            lemma_no_close(s, i + 1, k);
        }
    }
}

/// A text between quotes is a scalar, where no quote, no backslash and no
/// control character stands in it. With a control character it is none, nor
/// is a text whose quotes are not closed.
pub proof fn law_strings_are_recognized(body: Seq<u8>, k: int)
    requires
        forall|i: int| 0 <= i < body.len() ==> #[trigger] body[i] != 0x22 && body[i] != 0x5c,
    ensures
        (forall|i: int| 0 <= i < body.len() ==> #[trigger] body[i] >= 0x20)
            ==> scalar::json_scalar(seq![0x22u8] + body + seq![0x22u8]),
        0 <= k < body.len() && body[k] < 0x20 ==> !scalar::json_scalar(
            seq![0x22u8] + body + seq![0x22u8],
        ),
        !scalar::json_scalar(seq![0x22u8] + body),
{
    let s = seq![0x22u8] + body + seq![0x22u8];
    let t = seq![0x22u8] + body;
    assert(s[0] == 0x22 && s.last() == 0x22 && t[0] == 0x22);
    assert(forall|i: int| 1 <= i < s.len() - 1 ==> #[trigger] s[i] == body[i - 1]);
    assert(forall|i: int| 1 <= i < t.len() ==> #[trigger] t[i] == body[i - 1]);
    if forall|i: int| 0 <= i < body.len() ==> #[trigger] body[i] >= 0x20 {
        assert forall|i: int| 1 <= i < s.len() - 1 implies #[trigger] s[i] != 0x22 && s[i] != 0x5c
            && s[i] >= 0x20 by {
            assert(s[i] == body[i - 1]);
        }
        lemma_plain_string(s, 1);
    }
    if 0 <= k < body.len() && body[k] < 0x20 {
        assert(s[k + 1] == body[k]);
        lemma_no_close(s, 1, k + 1);
    }
    lemma_open_string(t, 1);
    assert(s[0] != 0x74 && s[0] != 0x66 && s[0] != 0x6e);
    lemma_no_word(s);
    lemma_no_word(t);
}

proof fn lemma_open_string(t: Seq<u8>, i: int)
    requires
        1 <= i <= t.len(),
        forall|j: int| 1 <= j < t.len() ==> #[trigger] t[j] != 0x22 && t[j] != 0x5c,
    ensures
        !scalar::closes(t, i),
    decreases t.len() - i,
{
    if i < t.len() {
        assert(t[i] != 0x22);
        lemma_open_string(t, i + 1);
    }
}

/// What starts with a quote is none of the words.
proof fn lemma_no_word(s: Seq<u8>)
    requires
        s.len() > 0,
        s[0] == 0x22,
    ensures
        s != seq![0x74u8, 0x72, 0x75, 0x65],
        s != seq![0x66u8, 0x61, 0x6c, 0x73, 0x65],
        s != seq![0x6eu8, 0x75, 0x6c, 0x6c],
{
    assert(seq![0x74u8, 0x72, 0x75, 0x65][0] == 0x74);
    assert(seq![0x66u8, 0x61, 0x6c, 0x73, 0x65][0] == 0x66);
    assert(seq![0x6eu8, 0x75, 0x6c, 0x6c][0] == 0x6e);
}

/// Space around a text is taken off, and nothing else.
pub proof fn law_space_is_taken_off(before: Seq<u8>, t: Seq<u8>, behind: Seq<u8>)
    requires
        forall|i: int|
            0 <= i < before.len() ==> {
                let b = #[trigger] before[i];
                b == 0x20 || b == 0x09 || b == 0x0a || b == 0x0c || b == 0x0d
            },
        forall|i: int|
            0 <= i < behind.len() ==> {
                let b = #[trigger] behind[i];
                b == 0x20 || b == 0x09 || b == 0x0a || b == 0x0c || b == 0x0d
            },
        t.len() > 0 ==> t[0] > 0x20 && t.last() > 0x20,
    ensures
        scalar::trimmed(before + t + behind) == t,
    decreases before.len() + behind.len(),
{
    let s = before + t + behind;
    if before.len() > 0 {
        assert(s[0] == before[0]);
        assert(s.drop_first() =~= before.drop_first() + t + behind);
        assert forall|i: int| 0 <= i < before.drop_first().len() implies {
            let b = #[trigger] before.drop_first()[i];
            b == 0x20 || b == 0x09 || b == 0x0a || b == 0x0c || b == 0x0d
        } by {
            assert(before.drop_first()[i] == before[i + 1]);
        }
        law_space_is_taken_off(before.drop_first(), t, behind);
    } else if behind.len() > 0 {
        assert(s.last() == behind[behind.len() - 1]);
        if t.len() > 0 {
            assert(s[0] == t[0]);
            assert(s.drop_last() =~= before + t + behind.drop_last());
            assert forall|i: int| 0 <= i < behind.drop_last().len() implies {
                let b = #[trigger] behind.drop_last()[i];
                b == 0x20 || b == 0x09 || b == 0x0a || b == 0x0c || b == 0x0d
            } by {
                assert(behind.drop_last()[i] == behind[i]);
            }
            law_space_is_taken_off(before, t, behind.drop_last());
        } else {
            assert(s[0] == behind[0]);
            assert(s.drop_first() =~= before + t + behind.drop_first());
            assert forall|i: int| 0 <= i < behind.drop_first().len() implies {
                let b = #[trigger] behind.drop_first()[i];
                b == 0x20 || b == 0x09 || b == 0x0a || b == 0x0c || b == 0x0d
            } by {
                assert(behind.drop_first()[i] == behind[i + 1]);
            }
            law_space_is_taken_off(before, t, behind.drop_first());
        }
    } else {
        assert(s =~= t);
    }
}

} // verus!
