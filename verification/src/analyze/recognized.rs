//! Which strings have which format: what the detection answers, told by the
//! parts that a string is made of.
use crate::analyze::formats;
use crate::analyze::formats::StringFormat;
use vstd::arithmetic::power2::{lemma_pow2_unfold, pow2};
use vstd::prelude::*;

verus! {

// ---------------------------------------------------------------------
// Parts
// ---------------------------------------------------------------------

/// Nothing but `0` to `9`.
pub open spec fn decimal(b: Seq<u8>) -> bool {
    forall|i: int| 0 <= i < b.len() ==> 0x30 <= #[trigger] b[i] <= 0x39
}

/// Nothing but `0` to `9`, `A` to `F` and `a` to `f`.
pub open spec fn hexadecimal(b: Seq<u8>) -> bool {
    forall|i: int|
        0 <= i < b.len() ==> {
            let c = #[trigger] b[i];
            0x30 <= c <= 0x39 || 0x41 <= c <= 0x46 || 0x61 <= c <= 0x66
        }
}

/// Nothing but `A` to `Z` and `a` to `z`.
pub open spec fn letters(b: Seq<u8>) -> bool {
    forall|i: int|
        0 <= i < b.len() ==> {
            let c = #[trigger] b[i];
            0x41 <= c <= 0x5a || 0x61 <= c <= 0x7a
        }
}

/// A part without a byte.
pub open spec fn lacks(b: Seq<u8>, c: u8) -> bool {
    forall|i: int| 0 <= i < b.len() ==> #[trigger] b[i] != c
}

/// Bytes that follow a template: a digit for each `0` in it, and every other
/// byte as it stands there.
pub open spec fn follows(b: Seq<u8>, template: Seq<u8>) -> bool {
    &&& b.len() == template.len()
    &&& forall|i: int|
        #![trigger b[i]]
        #![trigger template[i]]
        0 <= i < b.len() ==> if template[i] == 0x30 {
            0x30 <= b[i] <= 0x39
        } else {
            b[i] == template[i]
        }
}

/// `0000-00-00`.
pub open spec fn date_template() -> Seq<u8> {
    seq![0x30u8, 0x30, 0x30, 0x30, 0x2d, 0x30, 0x30, 0x2d, 0x30, 0x30]
}

/// `00:00:00`.
pub open spec fn clock_template() -> Seq<u8> {
    seq![0x30u8, 0x30, 0x3a, 0x30, 0x30, 0x3a, 0x30, 0x30]
}

/// Nothing, `Z`, or an offset of hours and minutes with a sign before them,
/// with or without a colon between them.
pub open spec fn zone_tail(b: Seq<u8>) -> bool {
    ||| b.len() == 0
    ||| b == seq![0x5au8]
    ||| follows(b, seq![0x2bu8, 0x30, 0x30, 0x30, 0x30])
    ||| follows(b, seq![0x2du8, 0x30, 0x30, 0x30, 0x30])
    ||| follows(b, seq![0x2bu8, 0x30, 0x30, 0x3a, 0x30, 0x30])
    ||| follows(b, seq![0x2du8, 0x30, 0x30, 0x3a, 0x30, 0x30])
}

/// Nothing, or a point and digits behind it.
pub open spec fn fraction(b: Seq<u8>) -> bool {
    b.len() == 0 || (b.len() >= 2 && b[0] == 0x2e && decimal(b.skip(1)))
}

// ---------------------------------------------------------------------
// Identifiers and times
// ---------------------------------------------------------------------

/// A UUID is five groups of hexadecimal digits, of eight, four, four, four
/// and twelve, with a hyphen between one and the next; and nothing else is.
pub proof fn law_uuids_are_recognized(b: Seq<u8>)
    ensures
        formats::format_of(b) == StringFormat::Uuid <==> {
            &&& b.len() == 36
            &&& hexadecimal(b.subrange(0, 8))
            &&& b[8] == 0x2d
            &&& hexadecimal(b.subrange(9, 13))
            &&& b[13] == 0x2d
            &&& hexadecimal(b.subrange(14, 18))
            &&& b[18] == 0x2d
            &&& hexadecimal(b.subrange(19, 23))
            &&& b[23] == 0x2d
            &&& hexadecimal(b.subrange(24, 36))
        },
{
    if b.len() == 36 {
        assert(forall|i: int| 0 <= i < 8 ==> b.subrange(0, 8)[i] == #[trigger] b[i]);
        assert(forall|i: int| 9 <= i < 13 ==> b.subrange(9, 13)[i - 9] == #[trigger] b[i]);
        assert(forall|i: int| 14 <= i < 18 ==> b.subrange(14, 18)[i - 14] == #[trigger] b[i]);
        assert(forall|i: int| 19 <= i < 23 ==> b.subrange(19, 23)[i - 19] == #[trigger] b[i]);
        assert(forall|i: int| 24 <= i < 36 ==> b.subrange(24, 36)[i - 24] == #[trigger] b[i]);
    }
}

proof fn lemma_date(b: Seq<u8>)
    requires
        b.len() >= 10,
    ensures
        formats::iso_date_prefix(b) == follows(b.take(10), date_template()),
{
    let t = date_template();
    let d = b.take(10);
    if formats::iso_date_prefix(b) {
        assert forall|i: int| 0 <= i < d.len() implies if #[trigger] t[i] == 0x30 {
            0x30 <= d[i] <= 0x39
        } else {
            d[i] == t[i]
        } by {
            assert(d[i] == b[i]);
        }
    }
    if follows(d, t) {
        assert(t[0] == 0x30 && t[1] == 0x30 && t[2] == 0x30 && t[3] == 0x30 && t[4] == 0x2d);
        assert(t[5] == 0x30 && t[6] == 0x30 && t[7] == 0x2d && t[8] == 0x30 && t[9] == 0x30);
        assert(d[0] == b[0] && d[1] == b[1] && d[2] == b[2] && d[3] == b[3] && d[4] == b[4]);
        assert(d[5] == b[5] && d[6] == b[6] && d[7] == b[7] && d[8] == b[8] && d[9] == b[9]);
    }
}

/// A date is `YYYY-MM-DD`, in digits; and nothing else is.
pub proof fn law_dates_are_recognized(b: Seq<u8>)
    ensures
        formats::format_of(b) == StringFormat::IsoDate <==> follows(b, date_template()),
{
    if b.len() >= 10 {
        lemma_date(b);
    }
    if b.len() == 10 {
        assert(b.take(10) =~= b);
    }
}

proof fn lemma_clock(b: Seq<u8>)
    requires
        b.len() >= 19,
    ensures
        follows(b.subrange(11, 19), clock_template()) == (formats::two_digits(b, 11) && b[13] == 0x3a
            && formats::two_digits(b, 14) && b[16] == 0x3a && formats::two_digits(b, 17)),
{
    let t = clock_template();
    let d = b.subrange(11, 19);
    assert(t[0] == 0x30 && t[1] == 0x30 && t[2] == 0x3a && t[3] == 0x30 && t[4] == 0x30);
    assert(t[5] == 0x3a && t[6] == 0x30 && t[7] == 0x30);
    assert(d[0] == b[11] && d[1] == b[12] && d[2] == b[13] && d[3] == b[14] && d[4] == b[15]);
    assert(d[5] == b[16] && d[6] == b[17] && d[7] == b[18]);
}

proof fn lemma_zone(b: Seq<u8>, f: int)
    requires
        0 <= f <= b.len(),
    ensures
        formats::zone(b, f) == zone_tail(b.skip(f)),
{
    let z = b.skip(f);
    let plus = seq![0x2bu8, 0x30, 0x30, 0x30, 0x30];
    let minus = seq![0x2du8, 0x30, 0x30, 0x30, 0x30];
    let plus_colon = seq![0x2bu8, 0x30, 0x30, 0x3a, 0x30, 0x30];
    let minus_colon = seq![0x2du8, 0x30, 0x30, 0x3a, 0x30, 0x30];
    if z.len() == 1 {
        assert(z[0] == b[f]);
        if b[f] == 0x5a {
            assert(z =~= seq![0x5au8]);
        } else {
            assert(seq![0x5au8][0] == 0x5a);
        }
    }
    if z.len() == 5 {
        assert(z[0] == b[f] && z[1] == b[f + 1] && z[2] == b[f + 2] && z[3] == b[f + 3] && z[4]
            == b[f + 4]);
        assert(plus[0] == 0x2b && plus[1] == 0x30 && plus[2] == 0x30 && plus[3] == 0x30 && plus[4]
            == 0x30);
        assert(minus[0] == 0x2d && minus[1] == 0x30 && minus[2] == 0x30 && minus[3] == 0x30
            && minus[4] == 0x30);
    }
    if z.len() == 6 {
        assert(z[0] == b[f] && z[1] == b[f + 1] && z[2] == b[f + 2] && z[3] == b[f + 3] && z[4]
            == b[f + 4] && z[5] == b[f + 5]);
        assert(plus_colon[0] == 0x2b && plus_colon[1] == 0x30 && plus_colon[2] == 0x30
            && plus_colon[3] == 0x3a && plus_colon[4] == 0x30 && plus_colon[5] == 0x30);
        assert(minus_colon[0] == 0x2d && minus_colon[1] == 0x30 && minus_colon[2] == 0x30
            && minus_colon[3] == 0x3a && minus_colon[4] == 0x30 && minus_colon[5] == 0x30);
    }
}

proof fn lemma_digits_end(b: Seq<u8>, i: int, f: int)
    requires
        0 <= i <= f <= b.len(),
        forall|k: int| i <= k < f ==> 0x30 <= #[trigger] b[k] <= 0x39,
        f == b.len() || !(0x30 <= b[f] <= 0x39),
    ensures
        formats::digits_end(b, i) == f,
    decreases f - i,
{
    if i < f {
        assert(0x30 <= b[i] <= 0x39);
        lemma_digits_end(b, i + 1, f);
    }
}

proof fn lemma_digits_run(b: Seq<u8>, i: int)
    requires
        0 <= i <= b.len(),
    ensures
        i <= formats::digits_end(b, i) <= b.len(),
        forall|k: int| i <= k < formats::digits_end(b, i) ==> 0x30 <= #[trigger] b[k] <= 0x39,
    decreases b.len() - i,
{
    if i < b.len() && formats::digit(b[i]) {
        lemma_digits_run(b, i + 1);
    }
}

/// The first byte of a zone is no digit and no point.
proof fn lemma_zone_starts(z: Seq<u8>)
    requires
        zone_tail(z),
        z.len() > 0,
    ensures
        !(0x30 <= z[0] <= 0x39),
        z[0] != 0x2e,
{
    assert(seq![0x5au8][0] == 0x5a);
    assert(seq![0x2bu8, 0x30, 0x30, 0x30, 0x30][0] == 0x2b);
    assert(seq![0x2du8, 0x30, 0x30, 0x30, 0x30][0] == 0x2d);
    assert(seq![0x2bu8, 0x30, 0x30, 0x3a, 0x30, 0x30][0] == 0x2b);
    assert(seq![0x2du8, 0x30, 0x30, 0x3a, 0x30, 0x30][0] == 0x2d);
}

/// What stands behind the seconds, up to `f` a fraction and from there a zone.
pub open spec fn tail_at(b: Seq<u8>, f: int) -> bool {
    19 <= f <= b.len() && fraction(b.subrange(19, f)) && zone_tail(b.skip(f))
}

proof fn lemma_tail(b: Seq<u8>)
    requires
        b.len() >= 19,
    ensures
        (exists|f: int| #[trigger] tail_at(b, f)) == (if b.len() > 19 && b[19] == 0x2e {
            formats::digits_end(b, 20) > 20 && formats::zone(b, formats::digits_end(b, 20))
        } else {
            formats::zone(b, 19)
        }),
{
    let pointed = b.len() > 19 && b[19] == 0x2e;
    if pointed {
        lemma_digits_run(b, 20);
    }
    let e = if pointed {
        formats::digits_end(b, 20)
    } else {
        19
    };
    lemma_zone(b, e);
    if (!pointed || e > 20) && formats::zone(b, e) {
        let part = b.subrange(19, e);
        if pointed {
            assert(part[0] == b[19]);
            assert forall|i: int| 0 <= i < part.skip(1).len() implies 0x30 <= #[trigger] part.skip(
                1,
            )[i] <= 0x39 by {
                assert(part.skip(1)[i] == b[20 + i]);
            }
        }
        assert(tail_at(b, e));
    }
    if exists|f: int| #[trigger] tail_at(b, f) {
        let f = choose|f: int| #[trigger] tail_at(b, f);
        let part = b.subrange(19, f);
        let z = b.skip(f);
        if z.len() > 0 {
            lemma_zone_starts(z);
            assert(z[0] == b[f]);
        }
        if part.len() > 0 {
            assert(part[0] == b[19]);
            assert forall|k: int| 20 <= k < f implies 0x30 <= #[trigger] b[k] <= 0x39 by {
                assert(part.skip(1)[k - 20] == b[k]);
            }
            lemma_digits_end(b, 20, f);
        }
    }
}

/// A timestamp is a date, `T` or a space, `HH:MM:SS`, a fraction of a second
/// or none, and a zone or none; and nothing else is.
pub proof fn law_timestamps_are_recognized(b: Seq<u8>)
    ensures
        formats::format_of(b) == StringFormat::IsoTimestamp <==> {
            &&& b.len() >= 19
            &&& follows(b.take(10), date_template())
            &&& b[10] == 0x54 || b[10] == 0x20
            &&& follows(b.subrange(11, 19), clock_template())
            &&& exists|f: int| #[trigger] tail_at(b, f)
        },
{
    if b.len() >= 19 {
        lemma_date(b);
        lemma_clock(b);
        lemma_tail(b);
    }
}

// ---------------------------------------------------------------------
// Addresses
// ---------------------------------------------------------------------

/// One to three digits, of a number up to 255.
pub open spec fn byte_in_digits(b: Seq<u8>) -> bool {
    &&& decimal(b)
    &&& {
        ||| b.len() == 1
        ||| b.len() == 2
        ||| b.len() == 3 && 100 * (b[0] - 0x30) + 10 * (b[1] - 0x30) + (b[2] - 0x30) <= 255
    }
}

proof fn lemma_octet(b: Seq<u8>)
    ensures
        formats::octet(b) == byte_in_digits(b),
{
    reveal_with_fuel(formats::decimal_value, 4);
    if b.len() == 1 {
        assert(b.drop_last().len() == 0);
        assert(b.last() == b[0]);
    }
    if b.len() == 2 {
        assert(b.drop_last().drop_last().len() == 0);
        assert(b.last() == b[1] && b.drop_last().last() == b[0]);
    }
    if b.len() == 3 {
        assert(b.drop_last().drop_last().drop_last().len() == 0);
        assert(b.last() == b[2] && b.drop_last().last() == b[1]
            && b.drop_last().drop_last().last() == b[0]);
    }
}

/// The parts, with a separator between one and the next.
pub open spec fn joined(parts: Seq<Seq<u8>>, separator: u8) -> Seq<u8>
    decreases parts.len(),
{
    if parts.len() == 0 {
        Seq::empty()
    } else if parts.len() == 1 {
        parts[0]
    } else {
        joined(parts.drop_last(), separator).push(separator) + parts.last()
    }
}

proof fn lemma_joined_grows(parts: Seq<Seq<u8>>, separator: u8, c: u8)
    requires
        parts.len() > 0,
    ensures
        joined(parts.update(parts.len() - 1, parts.last().push(c)), separator) == joined(
            parts,
            separator,
        ).push(c),
{
    let more = parts.update(parts.len() - 1, parts.last().push(c));
    assert(more.drop_last() =~= parts.drop_last());
    assert(more.last() == parts.last().push(c));
    assert(joined(more, separator) =~= joined(parts, separator).push(c));
}

/// The parts of a text hold no separator, and joined they are the text.
proof fn lemma_split(b: Seq<u8>, separator: u8)
    ensures
        formats::split(b, separator).len() > 0,
        joined(formats::split(b, separator), separator) == b,
        forall|k: int|
            0 <= k < formats::split(b, separator).len() ==> lacks(
                #[trigger] formats::split(b, separator)[k],
                separator,
            ),
    decreases b.len(),
{
    let all = formats::split(b, separator);
    if b.len() == 0 {
        assert(joined(all, separator) =~= b);
    } else {
        let p = formats::split(b.drop_last(), separator);
        lemma_split(b.drop_last(), separator);
        if b.last() == separator {
            assert(all.drop_last() =~= p);
            assert(joined(all, separator) =~= joined(p, separator).push(separator));
            assert(b =~= b.drop_last().push(separator));
        } else {
            lemma_joined_grows(p, separator, b.last());
            assert(b =~= b.drop_last().push(b.last()));
            assert forall|k: int| 0 <= k < all.len() implies lacks(
                #[trigger] all[k],
                separator,
            ) by {
                assert(lacks(p[k], separator));
                if k < p.len() - 1 {
                    assert(all[k] == p[k]);
                }
            }
        }
    }
}

/// The parts that were joined come out again.
proof fn lemma_split_joined(parts: Seq<Seq<u8>>, separator: u8)
    requires
        parts.len() > 0,
        forall|k: int| 0 <= k < parts.len() ==> lacks(#[trigger] parts[k], separator),
    ensures
        formats::split(joined(parts, separator), separator) == parts,
    decreases parts.len(), parts.last().len(),
{
    let all = joined(parts, separator);
    let front = parts.drop_last();
    let last = parts.last();
    assert(lacks(parts[parts.len() - 1], separator));
    if last.len() == 0 {
        assert(last =~= Seq::empty());
        if parts.len() == 1 {
            assert(all.len() == 0);
            assert(formats::split(all, separator) =~= parts);
        } else {
            assert forall|k: int| 0 <= k < front.len() implies lacks(
                #[trigger] front[k],
                separator,
            ) by {
                assert(front[k] == parts[k]);
            }
            lemma_split_joined(front, separator);
            assert(all =~= joined(front, separator).push(separator));
            assert(all.drop_last() =~= joined(front, separator));
            assert(formats::split(all, separator) =~= parts);
        }
    } else {
        let less = parts.update(parts.len() - 1, last.drop_last());
        assert forall|k: int| 0 <= k < less.len() implies lacks(#[trigger] less[k], separator) by {
            assert(lacks(parts[k], separator));
            if k == less.len() - 1 {
                assert forall|i: int| 0 <= i < less[k].len() implies #[trigger] less[k][i]
                    != separator by {
                    assert(less[k][i] == last[i]);
                }
            }
        }
        lemma_split_joined(less, separator);
        lemma_joined_grows(less, separator, last.last());
        assert(less.update(less.len() - 1, less.last().push(last.last())) =~= parts) by {
            assert(last.drop_last().push(last.last()) =~= last);
        }
        assert(all.drop_last() =~= joined(less, separator));
        assert(all.last() == last.last());
        assert(last[last.len() - 1] != separator);
        assert(formats::split(all, separator) =~= parts);
    }
}

/// Four numbers up to 255, in one to three digits each.
pub open spec fn four_bytes(parts: Seq<Seq<u8>>) -> bool {
    parts.len() == 4 && forall|k: int| 0 <= k < 4 ==> byte_in_digits(#[trigger] parts[k])
}

proof fn lemma_ipv4(b: Seq<u8>)
    ensures
        formats::ipv4(b) <==> exists|parts: Seq<Seq<u8>>| #[trigger]
            four_bytes(parts) && b == joined(parts, 0x2e),
{
    let parts = formats::split(b, 0x2e);
    lemma_split(b, 0x2e);
    if formats::ipv4(b) {
        assert forall|k: int| 0 <= k < 4 implies byte_in_digits(#[trigger] parts[k]) by {
            lemma_octet(parts[k]);
        }
        assert(four_bytes(parts));
    }
    if exists|p: Seq<Seq<u8>>| #[trigger] four_bytes(p) && b == joined(p, 0x2e) {
        let p = choose|p: Seq<Seq<u8>>| #[trigger] four_bytes(p) && b == joined(p, 0x2e);
        assert forall|k: int| 0 <= k < p.len() implies lacks(#[trigger] p[k], 0x2e) by {
            assert(byte_in_digits(p[k]));
        }
        lemma_split_joined(p, 0x2e);
        assert forall|k: int| 0 <= k < 4 implies formats::octet(#[trigger] p[k]) by {
            lemma_octet(p[k]);
        }
    }
}

/// Digits and points are all there is in an address of four numbers.
proof fn lemma_joined_bytes(parts: Seq<Seq<u8>>)
    requires
        forall|k: int| 0 <= k < parts.len() ==> byte_in_digits(#[trigger] parts[k]),
    ensures
        forall|i: int|
            0 <= i < joined(parts, 0x2e).len() ==> {
                let c = #[trigger] joined(parts, 0x2e)[i];
                c == 0x2e || 0x30 <= c <= 0x39
            },
        joined(parts, 0x2e).len() <= 4 * parts.len(),
        parts.len() >= 2 ==> exists|i: int|
            0 <= i < joined(parts, 0x2e).len() && #[trigger] joined(parts, 0x2e)[i] == 0x2e,
    decreases parts.len(),
{
    if parts.len() == 1 {
        assert(byte_in_digits(parts[0]));
    }
    if parts.len() > 1 {
        let front = parts.drop_last();
        assert forall|k: int| 0 <= k < front.len() implies byte_in_digits(
            #[trigger] front[k],
        ) by {
            assert(front[k] == parts[k]);
        }
        lemma_joined_bytes(front);
        assert(byte_in_digits(parts[parts.len() - 1]));
        let n = joined(front, 0x2e).len() as int;
        assert(joined(parts, 0x2e)[n] == 0x2e);
        assert forall|i: int| 0 <= i < joined(parts, 0x2e).len() implies {
            let c = #[trigger] joined(parts, 0x2e)[i];
            c == 0x2e || 0x30 <= c <= 0x39
        } by {
            if i < n {
                assert(joined(parts, 0x2e)[i] == joined(front, 0x2e)[i]);
            } else if i > n {
                assert(joined(parts, 0x2e)[i] == parts.last()[i - n - 1]);
            }
        }
    }
}

proof fn lemma_ipv4_bytes(b: Seq<u8>)
    requires
        formats::ipv4(b),
    ensures
        forall|i: int| 0 <= i < b.len() ==> #[trigger] b[i] == 0x2e || 0x30 <= b[i] <= 0x39,
        b.len() <= 16,
        exists|i: int| 0 <= i < b.len() && #[trigger] b[i] == 0x2e,
{
    lemma_ipv4(b);
    let parts = choose|parts: Seq<Seq<u8>>| #[trigger]
        four_bytes(parts) && b == joined(parts, 0x2e);
    lemma_joined_bytes(parts);
}

/// An IPv4 address is four numbers up to 255, in one to three digits each,
/// with a point between one and the next; and nothing else is.
pub proof fn law_ipv4_addresses_are_recognized(b: Seq<u8>)
    ensures
        formats::format_of(b) == StringFormat::Ipv4 <==> exists|parts: Seq<Seq<u8>>| #[trigger]
            four_bytes(parts) && b == joined(parts, 0x2e),
{
    lemma_ipv4(b);
    if formats::ipv4(b) {
        lemma_ipv4_bytes(b);
    }
}

proof fn lemma_colons(b: Seq<u8>)
    ensures
        formats::colons(b) == b.to_multiset().count(0x3a),
    decreases b.len(),
{
    broadcast use vstd::seq_lib::group_to_multiset_ensures;

    if b.len() > 0 {
        lemma_colons(b.drop_last());
        assert(b.drop_last().push(b.last()) =~= b);
    }
}

/// An IPv6 address is two to 39 hexadecimal digits and colons, two colons of
/// them or more; and nothing else is.
pub proof fn law_ipv6_addresses_are_recognized(b: Seq<u8>)
    ensures
        formats::format_of(b) == StringFormat::Ipv6 <==> {
            &&& 2 <= b.len() <= 39
            &&& forall|i: int|
                0 <= i < b.len() ==> {
                    let c = #[trigger] b[i];
                    c == 0x3a || 0x30 <= c <= 0x39 || 0x41 <= c <= 0x46 || 0x61 <= c <= 0x66
                }
            &&& b.to_multiset().count(0x3a) >= 2
        },
{
    lemma_colons(b);
    if formats::ipv4(b) {
        lemma_ipv4_bytes(b);
        let i = choose|i: int| 0 <= i < b.len() && #[trigger] b[i] == 0x2e;
        assert(b[i] == 0x2e);
    }
    if formats::uuid(b) {
        assert(b[8] == 0x2d);
    }
    if formats::iso_date_prefix(b) {
        assert(b[4] == 0x2d);
    }
}

// ---------------------------------------------------------------------
// Mail and the web
// ---------------------------------------------------------------------

proof fn lemma_first_at(b: Seq<u8>, i: int)
    requires
        0 <= i <= b.len(),
    ensures
        match formats::first_at(b, i) {
            Some(k) => i <= k < b.len() && b[k] == 0x40 && forall|j: int|
                i <= j < k ==> #[trigger] b[j] != 0x40,
            None => forall|j: int| i <= j < b.len() ==> #[trigger] b[j] != 0x40,
        },
    decreases b.len() - i,
{
    if i < b.len() && b[i] != 0x40 {
        lemma_first_at(b, i + 1);
    }
}

/// Something without `@` before the first `@`, something behind it, and no
/// space.
pub open spec fn mail_address(b: Seq<u8>, local: Seq<u8>, domain: Seq<u8>) -> bool {
    &&& b == local.push(0x40) + domain
    &&& local.len() > 0
    &&& domain.len() > 0
    &&& lacks(local, 0x40)
    &&& lacks(b, 0x20)
}

proof fn lemma_email(b: Seq<u8>)
    ensures
        formats::email(b) <==> exists|local: Seq<u8>, domain: Seq<u8>| #[trigger]
            mail_address(b, local, domain),
{
    lemma_first_at(b, 0);
    if formats::email(b) {
        let i = formats::first_at(b, 0)->Some_0;
        let local = b.take(i);
        let domain = b.skip(i + 1);
        assert(b =~= local.push(0x40) + domain);
        assert forall|j: int| 0 <= j < local.len() implies #[trigger] local[j] != 0x40 by {
            assert(local[j] == b[j]);
        }
        assert(mail_address(b, local, domain));
    }
    if exists|local: Seq<u8>, domain: Seq<u8>| #[trigger] mail_address(b, local, domain) {
        let (local, domain) = choose|local: Seq<u8>, domain: Seq<u8>| #[trigger]
            mail_address(b, local, domain);
        let n = local.len() as int;
        assert(b[n] == 0x40);
        assert forall|j: int| 0 <= j < n implies #[trigger] b[j] != 0x40 by {
            assert(b[j] == local[j]);
        }
        assert(formats::first_at(b, 0) == Some(n));
    }
}

proof fn lemma_email_is_none_before(b: Seq<u8>)
    requires
        formats::email(b),
    ensures
        !formats::uuid(b),
        !formats::iso_timestamp(b),
        !formats::iso_date(b),
        !formats::ipv4(b),
        !formats::ipv6(b),
{
    lemma_first_at(b, 0);
    let i = formats::first_at(b, 0)->Some_0;
    assert(b[i] == 0x40);
    law_uuids_are_recognized(b);
    if formats::ipv4(b) {
        lemma_ipv4_bytes(b);
    }
    if formats::iso_timestamp(b) {
        lemma_tail(b);
        let f = choose|f: int| #[trigger] tail_at(b, f);
        lemma_no_at(b, f, i);
    }
}

/// No `@` stands in a timestamp.
proof fn lemma_no_at(b: Seq<u8>, f: int, i: int)
    requires
        formats::iso_timestamp(b),
        tail_at(b, f),
        0 <= i < b.len(),
    ensures
        b[i] != 0x40,
{
    if 19 <= i < f {
        let part = b.subrange(19, f);
        assert(part[0] == b[19]);
        if i > 19 {
            assert(part.skip(1)[i - 20] == b[i]);
        }
    } else if i >= f {
        lemma_zone(b, f);
        assert(formats::zone(b, f));
    }
}

/// A mail address is something before the first `@` and something behind it,
/// without a space; and nothing else is.
pub proof fn law_mail_addresses_are_recognized(b: Seq<u8>)
    ensures
        formats::format_of(b) == StringFormat::Email <==> exists|local: Seq<u8>, domain: Seq<u8>|
            #[trigger] mail_address(b, local, domain),
{
    lemma_email(b);
    if formats::email(b) {
        lemma_email_is_none_before(b);
    }
}

/// A text that begins with `http://` or `https://`.
pub open spec fn web_address(b: Seq<u8>, rest: Seq<u8>) -> bool {
    ||| b == seq![0x68u8, 0x74, 0x74, 0x70, 0x3a, 0x2f, 0x2f] + rest
    ||| b == seq![0x68u8, 0x74, 0x74, 0x70, 0x73, 0x3a, 0x2f, 0x2f] + rest
}

proof fn lemma_starts(b: Seq<u8>, p: Seq<u8>)
    ensures
        formats::starts(b, p) <==> exists|rest: Seq<u8>| b == #[trigger] (p + rest),
{
    if formats::starts(b, p) {
        assert(b =~= p + b.skip(p.len() as int));
    }
    if exists|rest: Seq<u8>| b == #[trigger] (p + rest) {
        let rest = choose|rest: Seq<u8>| b == #[trigger] (p + rest);
        assert(forall|i: int| 0 <= i < p.len() ==> (p + rest)[i] == #[trigger] p[i]);
    }
}

proof fn lemma_url(b: Seq<u8>)
    ensures
        formats::url_http(b) <==> exists|rest: Seq<u8>| #[trigger] web_address(b, rest),
        formats::url_http(b) ==> b.len() >= 7 && b[0] == 0x68,
{
    let plain = seq![0x68u8, 0x74, 0x74, 0x70, 0x3a, 0x2f, 0x2f];
    let secure = seq![0x68u8, 0x74, 0x74, 0x70, 0x73, 0x3a, 0x2f, 0x2f];
    lemma_starts(b, plain);
    lemma_starts(b, secure);
    if formats::starts(b, plain) {
        let rest = choose|rest: Seq<u8>| b == #[trigger] (plain + rest);
        assert(web_address(b, rest));
        assert(b[0] == plain[0]);
    }
    if formats::starts(b, secure) {
        let rest = choose|rest: Seq<u8>| b == #[trigger] (secure + rest);
        assert(web_address(b, rest));
        assert(b[0] == secure[0]);
    }
}

proof fn lemma_url_is_none_before(b: Seq<u8>)
    requires
        formats::url_http(b),
    ensures
        !formats::uuid(b),
        !formats::iso_timestamp(b),
        !formats::iso_date(b),
        !formats::ipv4(b),
        !formats::ipv6(b),
{
    lemma_url(b);
    assert(b[0] == 0x68);
    if formats::ipv4(b) {
        lemma_ipv4_bytes(b);
    }
}

/// A web address is a text that begins with `http://` or `https://` and is no
/// mail address; and nothing else is.
pub proof fn law_web_addresses_are_recognized(b: Seq<u8>)
    ensures
        formats::format_of(b) == StringFormat::UrlHttp <==> {
            &&& exists|rest: Seq<u8>| #[trigger] web_address(b, rest)
            &&& forall|local: Seq<u8>, domain: Seq<u8>| !#[trigger] mail_address(b, local, domain)
        },
{
    lemma_url(b);
    lemma_email(b);
    if formats::url_http(b) {
        lemma_url_is_none_before(b);
    }
}

// ---------------------------------------------------------------------
// Letters and digits
// ---------------------------------------------------------------------

/// Letters and digits, both or one of them.
pub open spec fn alphanumeric(b: Seq<u8>) -> bool {
    forall|i: int|
        0 <= i < b.len() ==> {
            let c = #[trigger] b[i];
            0x30 <= c <= 0x39 || 0x41 <= c <= 0x5a || 0x61 <= c <= 0x7a
        }
}

/// Letters and digits alone make none of the formats that need a mark.
proof fn lemma_no_marks(b: Seq<u8>)
    requires
        alphanumeric(b),
    ensures
        !formats::uuid(b),
        !formats::iso_timestamp(b),
        !formats::iso_date(b),
        !formats::ipv4(b),
        !formats::ipv6(b),
        !formats::email(b),
        !formats::url_http(b),
{
    if formats::uuid(b) {
        assert(b[8] == 0x2d);
    }
    if formats::ipv4(b) {
        lemma_ipv4_bytes(b);
        let i = choose|i: int| 0 <= i < b.len() && #[trigger] b[i] == 0x2e;
        assert(b[i] == 0x2e);
    }
    if formats::ipv6(b) {
        lemma_colonless(b);
    }
    if formats::email(b) {
        lemma_first_at(b, 0);
    }
    if formats::url_http(b) {
        let plain = seq![0x68u8, 0x74, 0x74, 0x70, 0x3a, 0x2f, 0x2f];
        let secure = seq![0x68u8, 0x74, 0x74, 0x70, 0x73, 0x3a, 0x2f, 0x2f];
        if formats::starts(b, plain) {
            assert(b[4] == plain[4]);
        } else {
            assert(b[5] == secure[5]);
        }
    }
}

proof fn lemma_colonless(b: Seq<u8>)
    requires
        lacks(b, 0x3a),
    ensures
        formats::colons(b) == 0,
    decreases b.len(),
{
    if b.len() > 0 {
        assert(b[b.len() - 1] != 0x3a);
        assert forall|i: int| 0 <= i < b.drop_last().len() implies #[trigger] b.drop_last()[i]
            != 0x3a by {
            assert(b.drop_last()[i] == b[i]);
        }
        lemma_colonless(b.drop_last());
    }
}

/// Digits alone, letters alone, and letters with digits are each recognized
/// as what they are; and nothing else is.
pub proof fn law_words_are_recognized(b: Seq<u8>)
    ensures
        formats::format_of(b) == StringFormat::AllDigits <==> b.len() > 0 && decimal(b),
        formats::format_of(b) == StringFormat::AllAlpha <==> b.len() > 0 && letters(b),
        formats::format_of(b) == StringFormat::AlphaNum <==> alphanumeric(b) && !decimal(b)
            && !letters(b),
        b.len() == 0 ==> formats::format_of(b) == StringFormat::Other,
{
    if alphanumeric(b) {
        lemma_no_marks(b);
    }
    if decimal(b) || letters(b) {
        assert(alphanumeric(b));
    }
    assert(formats::all_digits(b) == (b.len() > 0 && decimal(b)));
    assert(formats::all_alpha(b) == (b.len() > 0 && letters(b)));
    assert(formats::all_alphanum(b) == (b.len() > 0 && alphanumeric(b)));
    if b.len() > 0 && decimal(b) {
        assert(0x30 <= b[0] <= 0x39);
    }
}

// ---------------------------------------------------------------------
// Lengths and skeletons
// ---------------------------------------------------------------------

proof fn lemma_log2(n: int)
    requires
        n >= 1,
    ensures
        formats::log2(n) >= 0,
        pow2(formats::log2(n) as nat) <= n < pow2((formats::log2(n) + 1) as nat),
    decreases n,
{
    vstd::arithmetic::power2::lemma2_to64();
    if n >= 2 {
        lemma_log2(n / 2);
        let k = formats::log2(n / 2);
        lemma_pow2_unfold((k + 1) as nat);
        lemma_pow2_unfold((k + 2) as nat);
    }
}

/// The class of a length is the exponent of the greatest power of two that is
/// not above it, 31 at most; a length of zero is in the first class.
pub proof fn law_lengths_are_classed_by_powers_of_two(len: int)
    requires
        len >= 0,
    ensures
        len == 0 ==> formats::bucket_of(len) == 0,
        0 <= formats::bucket_of(len) <= 31,
        len > 0 ==> pow2(formats::bucket_of(len) as nat) <= len,
        formats::bucket_of(len) < 31 ==> len < pow2((formats::bucket_of(len) + 1) as nat),
{
    vstd::arithmetic::power2::lemma2_to64();
    if len > 0 {
        lemma_log2(len);
        let k = formats::log2(len);
        if k > 31 {
            vstd::arithmetic::power2::lemma_pow2_strictly_increases(31, k as nat);
        }
    }
}

/// No letter, no digit and no white space.
pub open spec fn plain_mark(c: char) -> bool {
    &&& '\u{21}' <= c <= '\u{7e}'
    &&& !('0' <= c <= '9')
    &&& !('A' <= c <= 'Z')
    &&& !('a' <= c <= 'z')
}

proof fn lemma_marks_stay(s: Seq<char>)
    requires
        forall|i: int| 0 <= i < s.len() ==> plain_mark(#[trigger] s[i]),
    ensures
        formats::collapsed(s) == s,
    decreases s.len(),
{
    if s.len() > 0 {
        let front = s.drop_last();
        assert forall|i: int| 0 <= i < front.len() implies plain_mark(#[trigger] front[i]) by {
            assert(front[i] == s[i]);
        }
        lemma_marks_stay(front);
        assert(plain_mark(s[s.len() - 1]));
        assert(front.push(s.last()) =~= s);
    }
}

proof fn lemma_runs(before: Seq<char>, run: Seq<char>, class: char)
    requires
        run.len() > 0,
        class == 'A' || class == '9' || class == ' ',
        forall|i: int| 0 <= i < run.len() ==> formats::class_of(#[trigger] run[i]) == class,
        formats::collapsed(before).len() == 0 || formats::collapsed(before).last() != class,
    ensures
        formats::collapsed(before + run) == formats::collapsed(before).push(class),
    decreases run.len(),
{
    let front = run.drop_last();
    assert((before + run).drop_last() =~= before + front);
    assert((before + run).last() == run[run.len() - 1]);
    if front.len() == 0 {
        assert(before + front =~= before);
    } else {
        assert forall|i: int| 0 <= i < front.len() implies formats::class_of(#[trigger] front[i])
            == class by {
            assert(front[i] == run[i]);
        }
        lemma_runs(before, front, class);
    }
}

/// A word, whatever its letters are, has one and the same skeleton; so has a
/// run of digits and a run of spaces; and up to sixteen marks that are none of
/// these are their own skeleton. A word, a mark and a run of digits make `A`,
/// the mark and `9`.
pub proof fn law_skeletons_forget_letters_and_digits(
    word: Seq<char>,
    number: Seq<char>,
    blanks: Seq<char>,
    marks: Seq<char>,
    mark: char,
)
    requires
        word.len() > 0,
        forall|i: int|
            0 <= i < word.len() ==> 'A' <= #[trigger] word[i] <= 'Z' || 'a' <= word[i] <= 'z',
        number.len() > 0,
        forall|i: int| 0 <= i < number.len() ==> '0' <= #[trigger] number[i] <= '9',
        blanks.len() > 0,
        forall|i: int| 0 <= i < blanks.len() ==> #[trigger] blanks[i] == ' ' || blanks[i] == '\t',
        marks.len() <= 16,
        forall|i: int| 0 <= i < marks.len() ==> plain_mark(#[trigger] marks[i]),
        plain_mark(mark),
    ensures
        formats::skeleton_of(word) == seq!['A'],
        formats::skeleton_of(number) == seq!['9'],
        formats::skeleton_of(blanks) == seq![' '],
        formats::skeleton_of(marks) == marks,
        formats::skeleton_of(word.push(mark) + number) == seq!['A', mark, '9'],
{
    let none = Seq::<char>::empty();
    assert(none + word =~= word && none + number =~= number && none + blanks =~= blanks);
    lemma_runs(none, word, 'A');
    lemma_runs(none, number, '9');
    lemma_runs(none, blanks, ' ');
    lemma_marks_stay(marks);
    assert(word.push(mark).drop_last() =~= word);
    lemma_runs(word.push(mark), number, '9');
    assert(formats::skeleton_of(word) =~= seq!['A']);
    assert(formats::skeleton_of(number) =~= seq!['9']);
    assert(formats::skeleton_of(blanks) =~= seq![' ']);
    assert(formats::skeleton_of(word.push(mark) + number) =~= seq!['A', mark, '9']);
}

} // verus!
