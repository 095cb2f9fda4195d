//! Which bytes are taken for which encoding.
use crate::sniff::alphabet;
use crate::sniff::alphabet::{Basis, Encoding};
use crate::sniff::report;
use crate::sniff::report::ByteClass;
use vstd::prelude::*;

verus! {

// ---------------------------------------------------------------------
// Figures
// ---------------------------------------------------------------------

/// How many of the bytes have a property.
pub open spec fn how_many(bytes: Seq<u8>, p: spec_fn(u8) -> bool) -> int
    decreases bytes.len(),
{
    if bytes.len() == 0 {
        0
    } else {
        how_many(bytes.drop_last(), p) + (if p(bytes.last()) {
            1int
        } else {
            0int
        })
    }
}

/// Tab, newline, carriage return, and from the space to the tilde.
pub open spec fn printable(b: u8) -> bool {
    b == 0x09 || b == 0x0a || b == 0x0d || 0x20 <= b <= 0x7e
}

proof fn lemma_occurrences(bytes: Seq<u8>, b: u8)
    ensures
        alphabet::occurrences(bytes, b) == bytes.to_multiset().count(b),
        0 <= alphabet::occurrences(bytes, b) <= bytes.len(),
    decreases bytes.len(),
{
    broadcast use vstd::seq_lib::group_to_multiset_ensures;

    if bytes.len() > 0 {
        lemma_occurrences(bytes.drop_last(), b);
        assert(bytes.drop_last().push(bytes.last()) =~= bytes);
    }
}

pub open spec fn between(lo: int, hi: int) -> spec_fn(u8) -> bool {
    |b: u8| lo <= b < hi
}

/// One byte more in a range of bytes.
proof fn lemma_range_grows(bytes: Seq<u8>, lo: int, hi: int)
    requires
        0 <= lo,
        hi <= 256,
        lo < hi,
    ensures
        how_many(bytes, between(lo, hi)) == how_many(bytes, between(lo, hi - 1))
            + alphabet::occurrences(bytes, (hi - 1) as u8),
    decreases bytes.len(),
{
    if bytes.len() > 0 {
        lemma_range_grows(bytes.drop_last(), lo, hi);
    }
}

proof fn lemma_empty_range(bytes: Seq<u8>, lo: int)
    ensures
        how_many(bytes, between(lo, lo)) == 0,
    decreases bytes.len(),
{
    if bytes.len() > 0 {
        lemma_empty_range(bytes.drop_last(), lo);
    }
}

proof fn lemma_sum_range(bytes: Seq<u8>, lo: int, hi: int)
    requires
        0 <= lo <= hi <= 256,
        bytes.len() <= u64::MAX,
    ensures
        alphabet::sum_range(alphabet::histogram(bytes), lo, hi) == how_many(bytes, between(lo, hi)),
    decreases hi - lo,
{
    if lo == hi {
        lemma_empty_range(bytes, lo);
    } else {
        lemma_sum_range(bytes, lo, hi - 1);
        lemma_range_grows(bytes, lo, hi);
        lemma_occurrences(bytes, (hi - 1) as u8);
    }
}

proof fn lemma_printable(bytes: Seq<u8>)
    ensures
        how_many(bytes, |b: u8| printable(b)) == how_many(bytes, between(0x20, 0x7f))
            + alphabet::occurrences(bytes, 0x09) + alphabet::occurrences(bytes, 0x0a)
            + alphabet::occurrences(bytes, 0x0d),
    decreases bytes.len(),
{
    if bytes.len() > 0 {
        lemma_printable(bytes.drop_last());
    }
}

proof fn lemma_same(bytes: Seq<u8>, p: spec_fn(u8) -> bool, q: spec_fn(u8) -> bool)
    requires
        forall|b: u8| p(b) == #[trigger] q(b),
    ensures
        how_many(bytes, p) == how_many(bytes, q),
    decreases bytes.len(),
{
    if bytes.len() > 0 {
        lemma_same(bytes.drop_last(), p, q);
        assert(p(bytes.last()) == q(bytes.last()));
    }
}

proof fn lemma_high(bytes: Seq<u8>)
    ensures
        alphabet::high_in(bytes) == how_many(bytes, |b: u8| b >= 0x80),
        0 <= alphabet::high_in(bytes) <= bytes.len(),
    decreases bytes.len(),
{
    if bytes.len() > 0 {
        lemma_high(bytes.drop_last());
    }
}

/// The figures of an alphabet are what is in the bytes: the histogram counts
/// each byte; the printable ones, the ones from 0x80 up and the NULs are
/// counted as such.
pub proof fn law_bytes_are_measured(bytes: Seq<u8>, b: u8)
    requires
        bytes.len() <= u64::MAX,
    ensures
        alphabet::histogram(bytes).len() == 256,
        alphabet::histogram(bytes)[b as int] == bytes.to_multiset().count(b),
        alphabet::occurrences(bytes, b) == bytes.to_multiset().count(b),
        alphabet::printable_bytes(bytes) == how_many(bytes, |b: u8| printable(b)),
        alphabet::high_bytes(bytes) == how_many(bytes, |b: u8| b >= 0x80),
        alphabet::high_in(bytes) == how_many(bytes, |b: u8| b >= 0x80),
{
    lemma_occurrences(bytes, b);
    lemma_occurrences(bytes, 0x09);
    lemma_occurrences(bytes, 0x0a);
    lemma_occurrences(bytes, 0x0d);
    lemma_sum_range(bytes, 0x20, 0x7f);
    lemma_sum_range(bytes, 0x80, 0x100);
    lemma_printable(bytes);
    lemma_same(bytes, between(0x80, 0x100), |b: u8| b >= 0x80);
    lemma_high(bytes);
}

// ---------------------------------------------------------------------
// Marks
// ---------------------------------------------------------------------

proof fn lemma_begins(head: Seq<u8>, mark: Seq<u8>)
    ensures
        alphabet::begins_with(head, mark) <==> mark.len() <= head.len() && forall|i: int|
            0 <= i < mark.len() ==> #[trigger] mark[i] == head[i],
{
    if alphabet::begins_with(head, mark) {
        assert(forall|i: int|
            0 <= i < mark.len() ==> head.take(mark.len() as int)[i] == #[trigger] mark[i]);
    } else if mark.len() <= head.len() && forall|i: int|
        0 <= i < mark.len() ==> #[trigger] mark[i] == head[i] {
        assert(head.take(mark.len() as int) =~= mark);
    }
}

/// A byte-order mark at the start decides, whatever follows it: each of the
/// five is known by its bytes, and its length is theirs.
pub proof fn law_marks_decide(bytes: Seq<u8>, rest: Seq<u8>)
    ensures
        ({
            let head = seq![0xefu8, 0xbb, 0xbf] + rest;
            alphabet::verdict(bytes, head) == (Encoding::Utf8, Basis::Bom) && alphabet::bom_len(head)
                == 3
        }),
        ({
            let head = seq![0xfeu8, 0xff] + rest;
            alphabet::verdict(bytes, head) == (Encoding::Utf16Be, Basis::Bom)
                && alphabet::bom_len(head) == 2
        }),
        ({
            let head = seq![0xffu8, 0xfe] + rest;
            !(rest.len() >= 2 && rest[0] == 0 && rest[1] == 0) ==> alphabet::verdict(bytes, head)
                == (Encoding::Utf16Le, Basis::Bom) && alphabet::bom_len(head) == 2
        }),
        ({
            let head = seq![0xffu8, 0xfe, 0x00, 0x00] + rest;
            alphabet::verdict(bytes, head) == (Encoding::Utf32Le, Basis::Bom) && alphabet::bom_len(
                head,
            ) == 4
        }),
        ({
            let head = seq![0x00u8, 0x00, 0xfe, 0xff] + rest;
            alphabet::verdict(bytes, head) == (Encoding::Utf32Be, Basis::Bom) && alphabet::bom_len(
                head,
            ) == 4
        }),
{
    let utf32le = seq![0xffu8, 0xfe, 0x00, 0x00];
    let utf32be = seq![0x00u8, 0x00, 0xfe, 0xff];
    let utf8 = seq![0xefu8, 0xbb, 0xbf];
    let utf16le = seq![0xffu8, 0xfe];
    let utf16be = seq![0xfeu8, 0xff];
    assert(utf32le[0] == 0xff && utf32le[1] == 0xfe && utf32le[2] == 0 && utf32le[3] == 0);
    assert(utf32be[0] == 0 && utf32be[1] == 0 && utf32be[2] == 0xfe && utf32be[3] == 0xff);
    assert(utf8[0] == 0xef && utf8[1] == 0xbb && utf8[2] == 0xbf);
    assert(utf16le[0] == 0xff && utf16le[1] == 0xfe);
    assert(utf16be[0] == 0xfe && utf16be[1] == 0xff);
    lemma_marks(utf8 + rest);
    lemma_marks(utf16be + rest);
    lemma_marks(utf16le + rest);
    lemma_marks(utf32le + rest);
    lemma_marks(utf32be + rest);
    assert((utf16le + rest)[0] == 0xff && (utf16le + rest)[1] == 0xfe);
    if (utf16le + rest).len() >= 4 {
        assert((utf16le + rest)[2] == rest[0] && (utf16le + rest)[3] == rest[1]);
    }
}

proof fn lemma_marks(head: Seq<u8>)
    ensures
        alphabet::bom_of(head) == (if head.len() >= 4 && head[0] == 0xff && head[1] == 0xfe
            && head[2] == 0 && head[3] == 0 {
            Some((Encoding::Utf32Le, 4int))
        } else if head.len() >= 4 && head[0] == 0 && head[1] == 0 && head[2] == 0xfe && head[3]
            == 0xff {
            Some((Encoding::Utf32Be, 4int))
        } else if head.len() >= 3 && head[0] == 0xef && head[1] == 0xbb && head[2] == 0xbf {
            Some((Encoding::Utf8, 3int))
        } else if head.len() >= 2 && head[0] == 0xff && head[1] == 0xfe {
            Some((Encoding::Utf16Le, 2int))
        } else if head.len() >= 2 && head[0] == 0xfe && head[1] == 0xff {
            Some((Encoding::Utf16Be, 2int))
        } else {
            None
        }),
{
    let utf32le = seq![0xffu8, 0xfe, 0x00, 0x00];
    let utf32be = seq![0x00u8, 0x00, 0xfe, 0xff];
    let utf8 = seq![0xefu8, 0xbb, 0xbf];
    let utf16le = seq![0xffu8, 0xfe];
    let utf16be = seq![0xfeu8, 0xff];
    assert(utf32le[0] == 0xff && utf32le[1] == 0xfe && utf32le[2] == 0 && utf32le[3] == 0);
    assert(utf32be[0] == 0 && utf32be[1] == 0 && utf32be[2] == 0xfe && utf32be[3] == 0xff);
    assert(utf8[0] == 0xef && utf8[1] == 0xbb && utf8[2] == 0xbf);
    assert(utf16le[0] == 0xff && utf16le[1] == 0xfe);
    assert(utf16be[0] == 0xfe && utf16be[1] == 0xff);
    lemma_begins(head, utf32le);
    lemma_begins(head, utf32be);
    lemma_begins(head, utf8);
    lemma_begins(head, utf16le);
    lemma_begins(head, utf16be);
}

// ---------------------------------------------------------------------
// Verdicts
// ---------------------------------------------------------------------

/// Plain text: nothing but printable bytes.
pub open spec fn plain(bytes: Seq<u8>) -> bool {
    forall|i: int| 0 <= i < bytes.len() ==> printable(#[trigger] bytes[i])
}

proof fn lemma_plain(bytes: Seq<u8>)
    requires
        plain(bytes),
    ensures
        how_many(bytes, |b: u8| printable(b)) == bytes.len(),
        how_many(bytes, |b: u8| b >= 0x80) == 0,
        alphabet::occurrences(bytes, 0) == 0,
        alphabet::odd_nulls(bytes) == 0,
    decreases bytes.len(),
{
    if bytes.len() > 0 {
        let front = bytes.drop_last();
        assert(printable(bytes[bytes.len() - 1]));
        assert forall|i: int| 0 <= i < front.len() implies printable(#[trigger] front[i]) by {
            assert(front[i] == bytes[i]);
        }
        lemma_plain(front);
    }
}

/// Text of printable ASCII bytes is UTF-8.
pub proof fn law_plain_text_is_utf8(bytes: Seq<u8>, head: Seq<u8>)
    requires
        0 < bytes.len() <= u64::MAX,
        plain(bytes),
        plain(head),
    ensures
        alphabet::verdict(bytes, head) == (Encoding::Utf8, Basis::Plain),
        alphabet::bom_len(head) == 0,
{
    lemma_plain(bytes);
    law_bytes_are_measured(bytes, 0);
    lemma_marks(head);
    if head.len() >= 2 {
        assert(printable(head[0]));
    }
}

/// The bytes of ASCII text in units of two bytes, the byte first or last.
pub open spec fn widened(text: Seq<u8>, first: bool) -> Seq<u8>
    decreases text.len(),
{
    if text.len() == 0 {
        Seq::empty()
    } else if first {
        widened(text.drop_last(), first).push(text.last()).push(0)
    } else {
        widened(text.drop_last(), first).push(0).push(text.last())
    }
}

proof fn lemma_widened(text: Seq<u8>, first: bool)
    requires
        plain(text),
    ensures
        ({
            let w = widened(text, first);
            &&& w.len() == 2 * text.len()
            &&& alphabet::occurrences(w, 0) == text.len()
            &&& alphabet::odd_nulls(w) == (if first {
                text.len() as int
            } else {
                0
            })
            &&& text.len() > 0 ==> w[0] == (if first {
                text[0]
            } else {
                0
            }) && w[1] == (if first {
                0
            } else {
                text[0]
            })
        }),
    decreases text.len(),
{
    if text.len() > 0 {
        let front = text.drop_last();
        assert(printable(text[text.len() - 1]));
        assert forall|i: int| 0 <= i < front.len() implies printable(#[trigger] front[i]) by {
            assert(front[i] == text[i]);
        }
        lemma_widened(front, first);
        let w = widened(text, first);
        let v = widened(front, first);
        let m = w.drop_last();
        assert(m.drop_last() =~= v);
        if text.len() == 1 {
            assert(v.len() == 0);
        }
        assert(w.len() == v.len() + 2 && m.len() == v.len() + 1);
        assert(m.last() == (if first {
            text.last()
        } else {
            0
        }));
        assert(w.last() == (if first {
            0
        } else {
            text.last()
        }));
        assert(alphabet::occurrences(m, 0) == alphabet::occurrences(v, 0) + (if first {
            0int
        } else {
            1
        }));
        assert(alphabet::odd_nulls(m) == alphabet::odd_nulls(v));
        if text.len() > 1 {
            assert(w[0] == v[0] && w[1] == v[1]);
            assert(front[0] == text[0]);
        }
    }
}

/// ASCII text in units of two bytes is UTF-16, and little-endian just where
/// the NUL stands behind its character.
pub proof fn law_wide_text_is_utf16(text: Seq<u8>)
    requires
        text.len() > 0,
        plain(text),
    ensures
        alphabet::verdict(widened(text, true), widened(text, true)) == (
            Encoding::Utf16Le,
            Basis::NullParity,
        ),
        alphabet::verdict(widened(text, false), widened(text, false)) == (
            Encoding::Utf16Be,
            Basis::NullParity,
        ),
{
    lemma_widened(text, true);
    lemma_widened(text, false);
    lemma_marks(widened(text, true));
    lemma_marks(widened(text, false));
    assert(printable(text[0]));
}

/// Bytes that are mostly unprintable, without a mark and almost without NULs,
/// are binary.
pub proof fn law_unprintable_bytes_are_binary(bytes: Seq<u8>, head: Seq<u8>)
    requires
        bytes.len() <= u64::MAX,
        alphabet::bom_of(head) is None,
        200 * bytes.to_multiset().count(0) <= bytes.len(),
        10 * how_many(bytes, |b: u8| printable(b)) < 7 * bytes.len(),
    ensures
        alphabet::verdict(bytes, head) == (Encoding::Binary, Basis::Unprintable),
{
    law_bytes_are_measured(bytes, 0);
    lemma_occurrences(bytes, 0);
}

// ---------------------------------------------------------------------
// Sequences
// ---------------------------------------------------------------------

/// The bytes of one character beyond ASCII, as UTF-8 has them: the shortest
/// form, no surrogate, and nothing beyond the last character.
pub open spec fn one_character(c: Seq<u8>) -> bool {
    ||| c.len() == 2 && 0xc2 <= c[0] <= 0xdf && 0x80 <= c[1] <= 0xbf
    ||| c.len() == 3 && 0x80 <= c[2] <= 0xbf && {
        ||| c[0] == 0xe0 && 0xa0 <= c[1] <= 0xbf
        ||| 0xe1 <= c[0] <= 0xec && 0x80 <= c[1] <= 0xbf
        ||| c[0] == 0xed && 0x80 <= c[1] <= 0x9f
        ||| 0xee <= c[0] <= 0xef && 0x80 <= c[1] <= 0xbf
    }
    ||| c.len() == 4 && 0x80 <= c[2] <= 0xbf && 0x80 <= c[3] <= 0xbf && {
        ||| c[0] == 0xf0 && 0x90 <= c[1] <= 0xbf
        ||| 0xf1 <= c[0] <= 0xf3 && 0x80 <= c[1] <= 0xbf
        ||| c[0] == 0xf4 && 0x80 <= c[1] <= 0x8f
    }
}

/// Where a character beyond ASCII stands, its bytes are counted, and the count
/// goes on behind it. An ASCII byte is not counted, and neither is a byte at
/// which no character begins.
pub proof fn law_characters_are_counted(bytes: Seq<u8>, i: int, n: int)
    requires
        0 <= i < bytes.len(),
        2 <= n <= 4,
    ensures
        i + n <= bytes.len() && one_character(bytes.subrange(i, i + n))
            ==> alphabet::sequenced_bytes(bytes, i) == n + alphabet::sequenced_bytes(bytes, i + n),
        bytes[i] < 0xc2 || bytes[i] > 0xf4 ==> alphabet::sequenced_bytes(bytes, i)
            == alphabet::sequenced_bytes(bytes, i + 1),
        !(i + 2 <= bytes.len() && one_character(bytes.subrange(i, i + 2))) && !(i + 3 <= bytes.len()
            && one_character(bytes.subrange(i, i + 3))) && !(i + 4 <= bytes.len() && one_character(
            bytes.subrange(i, i + 4),
        )) ==> alphabet::sequenced_bytes(bytes, i) == alphabet::sequenced_bytes(bytes, i + 1),
{
    let need = alphabet::continuations(bytes[i]);
    if i + n <= bytes.len() && one_character(bytes.subrange(i, i + n)) {
        let c = bytes.subrange(i, i + n);
        assert(c[0] == bytes[i] && c[1] == bytes[i + 1]);
        assert(n >= 3 ==> c[2] == bytes[i + 2]);
        assert(n >= 4 ==> c[3] == bytes[i + 3]);
        assert(need == n - 1);
        assert forall|k: int| i < k <= i + need implies alphabet::is_continuation(
            #[trigger] bytes[k],
        ) by {
            assert(k == i + 1 || k == i + 2 || k == i + 3);
        }
    }
    if need > 0 && i + need < bytes.len() && alphabet::follows(bytes[i], bytes[i + 1]) && (forall|
        k: int,
    |
        i < k <= i + need ==> alphabet::is_continuation(#[trigger] bytes[k])) {
        let c = bytes.subrange(i, i + 1 + need);
        assert(c[0] == bytes[i] && c[1] == bytes[i + 1]);
        assert(alphabet::is_continuation(bytes[i + 1]));
        if need >= 2 {
            assert(c[2] == bytes[i + 2]);
            assert(alphabet::is_continuation(bytes[i + 2]));
        }
        if need >= 3 {
            assert(c[3] == bytes[i + 3]);
            assert(alphabet::is_continuation(bytes[i + 3]));
        }
        assert(one_character(c));
    }
}

// ---------------------------------------------------------------------
// Classes of bytes
// ---------------------------------------------------------------------

/// The bytes of a class below `n`.
pub open spec fn of_class(class: ByteClass, n: int) -> spec_fn(u8) -> bool {
    |b: u8| class.has(b) && b < n
}

proof fn lemma_class_grows(bytes: Seq<u8>, class: ByteClass, n: int)
    requires
        0 < n <= 256,
    ensures
        how_many(bytes, of_class(class, n)) == how_many(bytes, of_class(class, n - 1)) + (if class.has(
            (n - 1) as u8,
        ) {
            alphabet::occurrences(bytes, (n - 1) as u8)
        } else {
            0
        }),
    decreases bytes.len(),
{
    if bytes.len() > 0 {
        lemma_class_grows(bytes.drop_last(), class, n);
    }
}

proof fn lemma_no_class(bytes: Seq<u8>, class: ByteClass)
    ensures
        how_many(bytes, of_class(class, 0)) == 0,
    decreases bytes.len(),
{
    if bytes.len() > 0 {
        lemma_no_class(bytes.drop_last(), class);
    }
}

proof fn lemma_class_sum(bytes: Seq<u8>, class: ByteClass, n: int)
    requires
        0 <= n <= 256,
        bytes.len() <= u64::MAX,
    ensures
        report::class_sum(alphabet::histogram(bytes), class, n) == how_many(
            bytes,
            of_class(class, n),
        ),
    decreases n,
{
    if n == 0 {
        lemma_no_class(bytes, class);
    } else {
        lemma_class_sum(bytes, class, n - 1);
        lemma_class_grows(bytes, class, n);
        lemma_occurrences(bytes, (n - 1) as u8);
    }
}

/// A class counts the bytes that are in it, and no others.
pub proof fn law_classes_are_counted(bytes: Seq<u8>, class: ByteClass)
    requires
        bytes.len() <= u64::MAX,
    ensures
        report::class_sum(alphabet::histogram(bytes), class, 256) == how_many(
            bytes,
            |b: u8| class.has(b),
        ),
{
    lemma_class_sum(bytes, class, 256);
    lemma_same(bytes, of_class(class, 256), |b: u8| class.has(b));
}

/// Control characters are those below the space but the tab and the line
/// ends; blanks are the space and the tab; the hexadecimal digits are hex, and
/// with white space between them still; base64 has letters, digits, `+`, `/`,
/// `=` and line ends; and of these only the control characters and the blanks
/// have no place in a form-encoded body.
pub proof fn law_classes_hold_their_bytes(b: u8)
    ensures
        ByteClass::Control.has(b) <==> b < 0x20 && b != 9 && b != 10 && b != 13,
        ByteClass::Blank.has(b) <==> b == 0x20 || b == 9,
        ByteClass::Hex.has(b) <==> 0x30 <= b <= 0x39 || 0x41 <= b <= 0x46 || 0x61 <= b <= 0x66,
        ByteClass::HexOrSpace.has(b) <==> ByteClass::Hex.has(b) || b == 0x20 || 9 <= b <= 10 || 12
            <= b <= 13,
        ByteClass::Base64.has(b) <==> 0x30 <= b <= 0x39 || 0x41 <= b <= 0x5a || 0x61 <= b <= 0x7a
            || b == 0x2b || b == 0x2f || b == 0x3d || b == 10 || b == 13,
        ByteClass::Base64.has(b) ==> ByteClass::Url.has(b),
        ByteClass::Url.has(b) ==> !ByteClass::Control.has(b) && !ByteClass::Blank.has(b) && b < 0x7f,
        ByteClass::Url.has(0x25) && ByteClass::Url.has(0x26) && ByteClass::Url.has(0x3d),
{
}

} // verus!
