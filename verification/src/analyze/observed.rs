//! What the statistics tell of the strings and the numbers that were observed.
use crate::analyze::arena::ArrayView;
use crate::analyze::formats;
use crate::analyze::formats::StringFormat;
use crate::analyze::recognized;
use crate::analyze::spread;
use crate::analyze::stats;
use crate::analyze::stats::{NumericStatsView, Signs, StringStatsView};
use crate::double::Double;
use crate::sketch;
use crate::sketch::SketchView;
use vstd::prelude::*;
use vstd::utf8::*;

verus! {

// ---------------------------------------------------------------------
// Strings
// ---------------------------------------------------------------------

/// The statistics of strings, one after the other.
pub open spec fn strings_seen(strings: Seq<Seq<char>>, bounds: Seq<u64>) -> StringStatsView
    decreases strings.len(),
{
    if strings.len() == 0 {
        StringStatsView::empty()
    } else {
        strings_seen(strings.drop_last(), bounds).observe(strings.last(), bounds)
    }
}

/// How many bytes the strings have together.
pub open spec fn bytes_of(strings: Seq<Seq<char>>) -> nat
    decreases strings.len(),
{
    if strings.len() == 0 {
        0
    } else {
        bytes_of(strings.drop_last()) + encode_utf8(strings.last()).len()
    }
}

/// Strings whose lengths a statistic can hold.
pub open spec fn short(strings: Seq<Seq<char>>) -> bool {
    &&& strings.len() <= u64::MAX
    &&& forall|i: int|
        0 <= i < strings.len() ==> encode_utf8(#[trigger] strings[i]).len() < 0x1_0000_0000
}

/// How many of the strings have a format.
pub open spec fn of_format(strings: Seq<Seq<char>>, f: StringFormat) -> nat
    decreases strings.len(),
{
    if strings.len() == 0 {
        0
    } else {
        of_format(strings.drop_last(), f) + (if formats::format_of(encode_utf8(strings.last()))
            == f {
            1nat
        } else {
            0
        })
    }
}

proof fn lemma_front(strings: Seq<Seq<char>>)
    requires
        short(strings),
        strings.len() > 0,
    ensures
        short(strings.drop_last()),
        encode_utf8(strings.last()).len() < 0x1_0000_0000,
{
    let front = strings.drop_last();
    assert forall|i: int| 0 <= i < front.len() implies encode_utf8(#[trigger] front[i]).len()
        < 0x1_0000_0000 by {
        assert(front[i] == strings[i]);
    }
    assert(encode_utf8(strings[strings.len() - 1]).len() < 0x1_0000_0000);
}

proof fn lemma_strings_wf(strings: Seq<Seq<char>>, bounds: Seq<u64>)
    requires
        short(strings),
    ensures
        strings_seen(strings, bounds).wf(),
        strings_seen(strings, bounds).count == strings.len(),
        bytes_of(strings) <= strings.len() * 0xffff_ffff,
    decreases strings.len(),
{
    if strings.len() > 0 {
        lemma_front(strings);
        lemma_strings_wf(strings.drop_last(), bounds);
        stats::lemma_string_observe_wf(
            strings_seen(strings.drop_last(), bounds),
            strings.last(),
            bounds,
        );
        assert(strings.len() * 0xffff_ffff == (strings.len() - 1) * 0xffff_ffff + 0xffff_ffff)
            by (nonlinear_arith);
    } else {
        assert(strings.len() * 0xffff_ffff == 0);
    }
}

/// The shortest and the longest length are those of strings that were
/// observed, and no string is shorter or longer; all are counted, and their
/// lengths are summed up.
pub proof fn law_string_lengths_are_told(strings: Seq<Seq<char>>, bounds: Seq<u64>)
    requires
        short(strings),
        strings.len() > 0,
    ensures
        ({
            let s = strings_seen(strings, bounds);
            &&& s.count == strings.len()
            &&& s.sum_len == bytes_of(strings)
            &&& forall|i: int|
                0 <= i < strings.len() ==> s.min_len <= encode_utf8(#[trigger] strings[i]).len()
                    <= s.max_len
            &&& exists|i: int|
                0 <= i < strings.len() && s.min_len == encode_utf8(#[trigger] strings[i]).len()
            &&& exists|i: int|
                0 <= i < strings.len() && s.max_len == encode_utf8(#[trigger] strings[i]).len()
        }),
    decreases strings.len(),
{
    let front = strings.drop_last();
    let last = strings.last();
    let n = strings.len() - 1;
    let s = strings_seen(strings, bounds);
    lemma_front(strings);
    lemma_strings_wf(strings, bounds);
    lemma_strings_wf(front, bounds);
    assert(strings.len() * 0xffff_ffff <= 0xffff_ffff_ffff_ffff * 0xffff_ffff) by (nonlinear_arith)
        requires
            strings.len() <= 0xffff_ffff_ffff_ffff,
    ;
    let len = encode_utf8(last).len();
    assert(stats::byte_len(last) as u32 == len);
    assert(strings[n] == last);
    if front.len() == 0 {
        assert(bytes_of(front) == 0);
    } else {
        law_string_lengths_are_told(front, bounds);
        let a = choose|i: int|
            0 <= i < front.len() && strings_seen(front, bounds).min_len == encode_utf8(
                #[trigger] front[i],
            ).len();
        let b = choose|i: int|
            0 <= i < front.len() && strings_seen(front, bounds).max_len == encode_utf8(
                #[trigger] front[i],
            ).len();
        assert(front[a] == strings[a] && front[b] == strings[b]);
        assert forall|i: int| 0 <= i < strings.len() implies s.min_len <= encode_utf8(
            #[trigger] strings[i],
        ).len() <= s.max_len by {
            if i < n {
                assert(front[i] == strings[i]);
            }
        }
        if s.min_len == len {
            assert(s.min_len == encode_utf8(strings[n]).len());
        } else {
            assert(s.min_len == encode_utf8(strings[a]).len());
        }
        if s.max_len == len {
            assert(s.max_len == encode_utf8(strings[n]).len());
        } else {
            assert(s.max_len == encode_utf8(strings[b]).len());
        }
    }
}

proof fn lemma_of_format(strings: Seq<Seq<char>>, f: StringFormat)
    ensures
        of_format(strings, f) <= strings.len(),
    decreases strings.len(),
{
    if strings.len() > 0 {
        lemma_of_format(strings.drop_last(), f);
    }
}

/// Every string is counted once, under its format, in the order UUID,
/// timestamp, date, IPv4, IPv6, email, URL, digits, letters, both, other.
pub proof fn law_formats_are_counted(strings: Seq<Seq<char>>, bounds: Seq<u64>)
    requires
        short(strings),
    ensures
        ({
            let s = strings_seen(strings, bounds);
            &&& s.formats.len() == 11
            &&& s.formats[0] == of_format(strings, StringFormat::Uuid)
            &&& s.formats[1] == of_format(strings, StringFormat::IsoTimestamp)
            &&& s.formats[2] == of_format(strings, StringFormat::IsoDate)
            &&& s.formats[3] == of_format(strings, StringFormat::Ipv4)
            &&& s.formats[4] == of_format(strings, StringFormat::Ipv6)
            &&& s.formats[5] == of_format(strings, StringFormat::Email)
            &&& s.formats[6] == of_format(strings, StringFormat::UrlHttp)
            &&& s.formats[7] == of_format(strings, StringFormat::AllDigits)
            &&& s.formats[8] == of_format(strings, StringFormat::AllAlpha)
            &&& s.formats[9] == of_format(strings, StringFormat::AlphaNum)
            &&& s.formats[10] == of_format(strings, StringFormat::Other)
            &&& s.other_count == of_format(strings, StringFormat::Other)
            &&& s.skeletons.observations == of_format(strings, StringFormat::Other)
        }),
    decreases strings.len(),
{
    if strings.len() > 0 {
        let front = strings.drop_last();
        lemma_front(strings);
        law_formats_are_counted(front, bounds);
        lemma_strings_wf(front, bounds);
        assert forall|f: StringFormat| #[trigger] of_format(front, f) < u64::MAX by {
            lemma_of_format(front, f);
        }
        let s = strings_seen(front, bounds);
        assert(s.skeletons.observations < u64::MAX);
    }
}

/// The format that is told of strings is one that no other exceeds, and its
/// share is the number of strings that have it; of two that are equally common
/// the later one is told. It is told from the first string on.
pub proof fn law_the_dominant_format_is_the_commonest(
    strings: Seq<Seq<char>>,
    bounds: Seq<u64>,
    f: StringFormat,
)
    requires
        short(strings),
        strings.len() > 0,
    ensures
        strings_seen(strings, bounds).dominant_format() matches Some((top, share)) && {
            &&& share.part == of_format(strings, top)
            &&& share.total == strings.len()
            &&& of_format(strings, f) <= of_format(strings, top)
        },
{
    let s = strings_seen(strings, bounds);
    law_formats_are_counted(strings, bounds);
    lemma_strings_wf(strings, bounds);
    lemma_formats_sum(strings);
    reveal_with_fuel(stats::sum_of, 12);
    stats::lemma_last_highest(s.formats, 11);
    let m = stats::last_highest(s.formats, 11);
    assert(s.formats[f.place()] <= s.formats[m]);
}

proof fn lemma_formats_sum(strings: Seq<Seq<char>>)
    ensures
        of_format(strings, StringFormat::Uuid) + of_format(strings, StringFormat::IsoTimestamp)
            + of_format(strings, StringFormat::IsoDate) + of_format(strings, StringFormat::Ipv4)
            + of_format(strings, StringFormat::Ipv6) + of_format(strings, StringFormat::Email)
            + of_format(strings, StringFormat::UrlHttp) + of_format(
            strings,
            StringFormat::AllDigits,
        ) + of_format(strings, StringFormat::AllAlpha) + of_format(
            strings,
            StringFormat::AlphaNum,
        ) + of_format(strings, StringFormat::Other) == strings.len(),
    decreases strings.len(),
{
    if strings.len() > 0 {
        lemma_formats_sum(strings.drop_last());
    }
}

// ---------------------------------------------------------------------
// Numbers
// ---------------------------------------------------------------------

/// The statistics of numbers, one after the other, each with whether it came
/// as an integer.
pub open spec fn numbers_seen(numbers: Seq<(Double, bool)>, bounds: Seq<u64>) -> NumericStatsView
    decreases numbers.len(),
{
    if numbers.len() == 0 {
        NumericStatsView::empty()
    } else {
        numbers_seen(numbers.drop_last(), bounds).observe(
            numbers.last().0,
            numbers.last().1,
            bounds,
        )
    }
}

pub open spec fn no_nan(numbers: Seq<(Double, bool)>) -> bool {
    forall|i: int| 0 <= i < numbers.len() ==> !(#[trigger] numbers[i]).0.nan()
}

/// Nought.
pub open spec fn nought() -> Double {
    Double { bits: 0 }
}

/// The range of the numbers is that of numbers that were observed, and none is
/// outside of it.
pub proof fn law_number_ranges_are_told(numbers: Seq<(Double, bool)>, bounds: Seq<u64>)
    requires
        no_nan(numbers),
        0 < numbers.len() <= u64::MAX,
    ensures
        ({
            let s = numbers_seen(numbers, bounds);
            &&& s.count == numbers.len()
            &&& forall|i: int|
                0 <= i < numbers.len() ==> s.min.le((#[trigger] numbers[i]).0) && numbers[i].0.le(
                    s.max,
                )
            &&& exists|i: int| 0 <= i < numbers.len() && s.min.le((#[trigger] numbers[i]).0)
                && numbers[i].0.le(s.min)
            &&& exists|i: int| 0 <= i < numbers.len() && s.max.le((#[trigger] numbers[i]).0)
                && numbers[i].0.le(s.max)
        }),
    decreases numbers.len(),
{
    let front = numbers.drop_last();
    let (v, exact) = numbers.last();
    let n = numbers.len() - 1;
    let s = numbers_seen(numbers, bounds);
    let f = numbers_seen(front, bounds);
    assert(numbers[n].0 == v);
    assert forall|i: int| 0 <= i < front.len() implies !(#[trigger] front[i]).0.nan() by {
        assert(front[i] == numbers[i]);
    }
    if front.len() == 0 {
        assert(f == NumericStatsView::empty());
        assert(v.rank() <= 0x7ff0_0000_0000_0000 && v.rank() >= -0x7ff0_0000_0000_0000);
        assert(s.min.le(numbers[n].0) && numbers[n].0.le(s.min));
        assert(s.max.le(numbers[n].0) && numbers[n].0.le(s.max));
    } else {
        law_number_ranges_are_told(front, bounds);
        let a = choose|i: int| 0 <= i < front.len() && f.min.le((#[trigger] front[i]).0)
            && front[i].0.le(f.min);
        let b = choose|i: int| 0 <= i < front.len() && f.max.le((#[trigger] front[i]).0)
            && front[i].0.le(f.max);
        assert(front[a] == numbers[a] && front[b] == numbers[b]);
        assert forall|i: int| 0 <= i < numbers.len() implies s.min.le((#[trigger] numbers[i]).0)
            && numbers[i].0.le(s.max) by {
            if i < n {
                assert(front[i] == numbers[i]);
            }
        }
        if v.lt(f.min) {
            assert(s.min.le(numbers[n].0) && numbers[n].0.le(s.min));
        } else {
            assert(s.min.le(numbers[a].0) && numbers[a].0.le(s.min));
        }
        if f.max.lt(v) {
            assert(s.max.le(numbers[n].0) && numbers[n].0.le(s.max));
        } else {
            assert(s.max.le(numbers[b].0) && numbers[b].0.le(s.max));
        }
    }
}

/// How many of the numbers are below nought.
pub open spec fn below(numbers: Seq<(Double, bool)>) -> nat
    decreases numbers.len(),
{
    if numbers.len() == 0 {
        0
    } else {
        below(numbers.drop_last()) + (if numbers.last().0.lt(nought()) {
            1nat
        } else {
            0
        })
    }
}

/// How many of the numbers are above nought.
pub open spec fn above(numbers: Seq<(Double, bool)>) -> nat
    decreases numbers.len(),
{
    if numbers.len() == 0 {
        0
    } else {
        above(numbers.drop_last()) + (if nought().lt(numbers.last().0) {
            1nat
        } else {
            0
        })
    }
}

proof fn lemma_sides(numbers: Seq<(Double, bool)>)
    ensures
        below(numbers) + above(numbers) <= numbers.len(),
    decreases numbers.len(),
{
    if numbers.len() > 0 {
        lemma_sides(numbers.drop_last());
    }
}

/// Every number is counted once, by its sign; what is told of the signs of all
/// is what holds of all.
pub proof fn law_signs_are_told(numbers: Seq<(Double, bool)>, bounds: Seq<u64>)
    requires
        no_nan(numbers),
        numbers.len() <= u64::MAX,
    ensures
        ({
            let s = numbers_seen(numbers, bounds);
            let n = numbers.len();
            &&& s.count == n
            &&& s.negative == below(numbers)
            &&& s.positive == above(numbers)
            &&& s.zero == n - below(numbers) - above(numbers)
            &&& n > 0 ==> (s.signs() == Signs::Positive <==> above(numbers) == n)
            &&& n > 0 ==> (s.signs() == Signs::NonNegative <==> below(numbers) == 0
                && above(numbers) < n)
            &&& n > 0 ==> (s.signs() == Signs::Negative <==> below(numbers) == n)
        }),
    decreases numbers.len(),
{
    lemma_sides(numbers);
    if numbers.len() > 0 {
        let front = numbers.drop_last();
        assert forall|i: int| 0 <= i < front.len() implies !(#[trigger] front[i]).0.nan() by {
            assert(front[i] == numbers[i]);
        }
        assert(!numbers[numbers.len() - 1].0.nan());
        law_signs_are_told(front, bounds);
        lemma_sides(front);
    }
}

/// How many of the numbers came as integers or are whole.
pub open spec fn whole_ones(numbers: Seq<(Double, bool)>) -> nat
    decreases numbers.len(),
{
    if numbers.len() == 0 {
        0
    } else {
        whole_ones(numbers.drop_last()) + (if numbers.last().1 || numbers.last().0.whole() {
            1nat
        } else {
            0
        })
    }
}

/// Whole numbers are counted, however they came; all are whole where each is.
pub proof fn law_whole_numbers_are_counted(numbers: Seq<(Double, bool)>, bounds: Seq<u64>)
    requires
        numbers.len() <= u64::MAX,
    ensures
        numbers_seen(numbers, bounds).count == numbers.len(),
        numbers_seen(numbers, bounds).integer_valued == whole_ones(numbers),
        whole_ones(numbers) <= numbers.len(),
        numbers_seen(numbers, bounds).all_integer_valued() <==> numbers.len() > 0 && forall|i: int|
            0 <= i < numbers.len() ==> (#[trigger] numbers[i]).1 || numbers[i].0.whole(),
    decreases numbers.len(),
{
    if numbers.len() > 0 {
        let front = numbers.drop_last();
        let n = numbers.len() - 1;
        law_whole_numbers_are_counted(front, bounds);
        if whole_ones(numbers) == numbers.len() {
            assert(whole_ones(front) == front.len());
            if front.len() > 0 {
                assert forall|i: int| 0 <= i < numbers.len() implies (#[trigger] numbers[i]).1
                    || numbers[i].0.whole() by {
                    if i < n {
                        assert(front[i] == numbers[i]);
                    }
                }
            }
        } else if forall|i: int|
            0 <= i < numbers.len() ==> (#[trigger] numbers[i]).1 || numbers[i].0.whole() {
            assert(numbers[n].1 || numbers[n].0.whole());
            assert forall|i: int| 0 <= i < front.len() implies (#[trigger] front[i]).1
                || front[i].0.whole() by {
                assert(front[i] == numbers[i]);
            }
            assert(false);
        }
    }
}

// ---------------------------------------------------------------------
// Lengths of arrays
// ---------------------------------------------------------------------

/// An array accumulator after arrays of these lengths.
pub open spec fn lengths_seen(a: ArrayView, lengths: Seq<u32>, bounds: Seq<u64>) -> ArrayView
    decreases lengths.len(),
{
    if lengths.len() == 0 {
        a
    } else {
        lengths_seen(a, lengths.drop_last(), bounds).with_length(lengths.last(), bounds)
    }
}

/// The shortest and the longest length are those of arrays that were observed,
/// no array is shorter or longer, and every length is counted as often as it
/// occurs.
pub proof fn law_array_lengths_are_told(
    bag_value: int,
    clusters: int,
    lengths: Seq<u32>,
    bounds: Seq<u64>,
)
    requires
        0 < lengths.len() <= u32::MAX,
    ensures
        ({
            let a = lengths_seen(ArrayView::empty(bag_value, clusters), lengths, bounds);
            &&& forall|i: int|
                0 <= i < lengths.len() ==> a.min_length <= #[trigger] lengths[i] <= a.max_length
            &&& lengths.contains(a.min_length)
            &&& lengths.contains(a.max_length)
            &&& forall|l: u32| #[trigger]
                a.length_histogram.contains_key(l) <==> lengths.contains(l)
            &&& forall|l: u32| #[trigger]
                a.length_histogram.contains_key(l) ==> a.length_histogram[l]
                    == lengths.to_multiset().count(l)
            &&& a.length_sum <= lengths.len() * u32::MAX
            &&& a.length_sum == lengths.map_values(|l: u32| l as int).fold_left(
                0,
                |x: int, y: int| x + y,
            )
        }),
    decreases lengths.len(),
{
    broadcast use vstd::seq_lib::group_to_multiset_ensures;

    let front = lengths.drop_last();
    let last = lengths.last();
    let n = lengths.len() - 1;
    let empty = ArrayView::empty(bag_value, clusters);
    let a = lengths_seen(empty, lengths, bounds);
    let f = lengths_seen(empty, front, bounds);
    let add = |x: int, y: int| x + y;
    let all = lengths.map_values(|l: u32| l as int);
    assert(all.drop_last() =~= front.map_values(|l: u32| l as int));
    assert(front.push(last) =~= lengths);
    assert(lengths[n] == last);
    assert(lengths.len() * u32::MAX <= u32::MAX * u32::MAX) by (nonlinear_arith)
        requires
            lengths.len() <= u32::MAX,
    ;
    assert(lengths.len() * u32::MAX == front.len() * u32::MAX + u32::MAX) by (nonlinear_arith)
        requires
            lengths.len() == front.len() + 1,
    ;
    if front.len() == 0 {
        assert(f == empty);
        assert(front.map_values(|l: u32| l as int) =~= Seq::empty());
        assert(all.drop_last().fold_left(0int, add) == 0);
        assert(front.to_multiset().len() == 0);
        assert forall|l: u32| #[trigger] a.length_histogram.contains_key(l) implies
            a.length_histogram[l] == lengths.to_multiset().count(l) by {}
        assert forall|l: u32| lengths.contains(l) implies #[trigger]
            a.length_histogram.contains_key(l) by {}
    } else {
        law_array_lengths_are_told(bag_value, clusters, front, bounds);
        assert(lengths.to_multiset() =~= front.to_multiset().insert(last));
        assert forall|i: int| 0 <= i < lengths.len() implies a.min_length
            <= #[trigger] lengths[i] <= a.max_length by {
            if i < n {
                assert(front[i] == lengths[i]);
            }
        }
        assert forall|l: u32| front.contains(l) implies lengths.contains(l) by {
            let k = choose|k: int| 0 <= k < front.len() && front[k] == l;
            assert(lengths[k] == l);
        }
        assert(lengths.contains(last)) by {
            assert(lengths[n] == last);
        }
        assert forall|l: u32| lengths.contains(l) implies l == last || front.contains(l) by {
            let k = choose|k: int| 0 <= k < lengths.len() && lengths[k] == l;
            if k < n {
                assert(front[k] == l);
            }
        }
        assert(front.to_multiset().count(last) <= front.len()) by {
            assert(front.to_multiset().len() == front.len());
        }
        if !front.contains(last) {
            assert(front.to_multiset().count(last) == 0);
        }
    }
}

// ---------------------------------------------------------------------
// Classes, skeletons and sketches
// ---------------------------------------------------------------------

/// How many of the strings have a length of a class.
pub open spec fn of_class(strings: Seq<Seq<char>>, k: int) -> int
    decreases strings.len(),
{
    if strings.len() == 0 {
        0
    } else {
        of_class(strings.drop_last(), k) + (if formats::bucket_of(
            encode_utf8(strings.last()).len() as int,
        ) == k {
            1int
        } else {
            0
        })
    }
}

/// The skeletons of the strings that have no other format, in their order.
pub open spec fn skeletons_of(strings: Seq<Seq<char>>) -> Seq<Seq<char>>
    decreases strings.len(),
{
    if strings.len() == 0 {
        Seq::empty()
    } else {
        let front = skeletons_of(strings.drop_last());
        if formats::format_of(encode_utf8(strings.last())) == StringFormat::Other {
            front.push(formats::skeleton_of(strings.last()))
        } else {
            front
        }
    }
}

/// The lengths of the strings, as doubles.
pub open spec fn lengths_of(strings: Seq<Seq<char>>) -> Seq<Double> {
    Seq::new(strings.len(), |i: int| stats::whole(encode_utf8(strings[i]).len() as int))
}

proof fn lemma_of_class(strings: Seq<Seq<char>>, k: int)
    ensures
        0 <= of_class(strings, k) <= strings.len(),
    decreases strings.len(),
{
    if strings.len() > 0 {
        lemma_of_class(strings.drop_last(), k);
    }
}

/// Each length is counted in its class; the skeletons of the strings without
/// another format are sketched, and no others; and the lengths are put into a
/// sketch of the distribution.
pub proof fn law_strings_are_classed_and_sketched(strings: Seq<Seq<char>>, bounds: Seq<u64>, k: int)
    requires
        short(strings),
        0 <= k < 32,
    ensures
        ({
            let s = strings_seen(strings, bounds);
            &&& s.length_buckets[k] == of_class(strings, k)
            &&& s.skeletons == SketchView::of(16, skeletons_of(strings))
            &&& s.other_count == skeletons_of(strings).len()
            &&& skeletons_of(strings).len() <= strings.len()
            &&& s.length_sketch == spread::told(256, bounds, lengths_of(strings))
        }),
    decreases strings.len(),
{
    lemma_strings_wf(strings, bounds);
    if strings.len() == 0 {
        assert(lengths_of(strings) =~= Seq::empty());
    } else {
        let front = strings.drop_last();
        let last = strings.last();
        lemma_front(strings);
        law_strings_are_classed_and_sketched(front, bounds, k);
        lemma_strings_wf(front, bounds);
        lemma_of_class(front, k);
        recognized::law_lengths_are_classed_by_powers_of_two(encode_utf8(last).len() as int);
        let s = strings_seen(front, bounds);
        let t = strings_seen(strings, bounds);
        let c = formats::bucket_of(encode_utf8(last).len() as int);
        assert(stats::byte_len(last) == encode_utf8(last).len());
        lemma_class_step(s, t, last, bounds, c);
        let lengths = lengths_of(strings);
        assert(lengths.drop_last() =~= lengths_of(front));
        assert(lengths.last() == stats::whole(encode_utf8(last).len() as int));
        if formats::format_of(encode_utf8(last)) == StringFormat::Other {
            let sk = skeletons_of(strings);
            assert(sk.drop_last() =~= skeletons_of(front));
        }
    }
}

proof fn lemma_class_step(
    s: StringStatsView,
    t: StringStatsView,
    last: Seq<char>,
    bounds: Seq<u64>,
    c: int,
)
    requires
        s.wf(),
        s.count < u64::MAX,
        t == s.observe(last, bounds),
        c == formats::bucket_of(encode_utf8(last).len() as int),
        0 <= c < 32,
        encode_utf8(last).len() < 0x1_0000_0000,
    ensures
        forall|k: int|
            0 <= k < 32 ==> #[trigger] t.length_buckets[k] == s.length_buckets[k] + (if k == c {
                1int
            } else {
                0
            }),
{
    assert(stats::byte_len(last) as int == encode_utf8(last).len());
    assert(s.length_buckets[c] <= s.count);
}

/// The values of numbers, whether they came as integers or not.
pub open spec fn values_of(numbers: Seq<(Double, bool)>) -> Seq<Double> {
    Seq::new(numbers.len(), |i: int| numbers[i].0)
}

/// The values of the numbers are put into a sketch of their distribution.
pub proof fn law_numbers_are_sketched(numbers: Seq<(Double, bool)>, bounds: Seq<u64>)
    ensures
        numbers_seen(numbers, bounds).sketch == spread::told(256, bounds, values_of(numbers)),
    decreases numbers.len(),
{
    let values = values_of(numbers);
    if numbers.len() > 0 {
        law_numbers_are_sketched(numbers.drop_last(), bounds);
        assert(values.drop_last() =~= values_of(numbers.drop_last()));
        assert(values.last() == numbers.last().0);
    }
}

/// The skeleton that is told of strings without another format is one that was
/// counted, none was counted more often, and its share is one of all of them.
pub proof fn law_the_dominant_skeleton_is_the_commonest(s: StringStatsView)
    ensures
        s.dominant_skeleton() matches Some((k, share)) ==> {
            &&& s.skeletons.entries.contains((k, share.part))
            &&& share.total == s.other_count
            &&& forall|i: int|
                0 <= i < s.skeletons.entries.len() ==> (#[trigger] s.skeletons.entries[i]).1
                    <= share.part
        },
        s.dominant_skeleton() is None <==> s.other_count == 0 || s.skeletons.entries.len() == 0,
{
    broadcast use vstd::seq_lib::group_to_multiset_ensures;

    let entries = s.skeletons.entries;
    let ranked = sketch::by_count(entries);
    sketch::laws::law_entries_are_ranked(entries);
    assert(ranked.len() == entries.len()) by {
        assert(ranked.to_multiset().len() == entries.to_multiset().len());
    }
    if ranked.len() > 0 {
        assert(ranked.contains(ranked[0]));
        assert(entries.to_multiset().count(ranked[0]) > 0);
        assert(entries.contains(ranked[0]));
        assert forall|i: int| 0 <= i < entries.len() implies (#[trigger] entries[i]).1
            <= ranked[0].1 by {
            assert(entries.contains(entries[i]));
            assert(ranked.to_multiset().count(entries[i]) > 0);
            assert(ranked.contains(entries[i]));
            let j = choose|j: int| 0 <= j < ranked.len() && ranked[j] == entries[i];
            if j > 0 {
                assert(ranked[0].1 >= ranked[j].1);
            }
        }
    }
}

} // verus!
