//! What reports say of the strings and the numbers at a path.
use crate::analyze::formats::StringFormat;
use crate::analyze::stats::{
    Epoch, NumericStats, NumericStatsView, Signs, StringStats, StringStatsView,
};
use crate::analyze::tokens;
use crate::analyze::tokens::{Token, TokenView};
use crate::sketch;
use vstd::prelude::*;

verus! {

// ---------------------------------------------------------------------
// Strings
// ---------------------------------------------------------------------

/// What was seen, among the first `k`, by its place.
pub open spec fn seen(counts: Seq<u64>, k: int) -> Seq<(u32, u64)>
    decreases k,
{
    if k <= 0 {
        Seq::empty()
    } else if counts[k - 1] == 0 {
        seen(counts, k - 1)
    } else {
        seen(counts, k - 1).push(((k - 1) as u32, counts[k - 1]))
    }
}

/// A separator, but before the first.
pub open spec fn between(k: int, sep: &str) -> Seq<TokenView> {
    if k > 1 {
        seq![tokens::lit(sep)]
    } else {
        Seq::empty()
    }
}

/// The first `k` formats, each with its count and its share.
pub open spec fn format_list(v: Seq<(u32, u64)>, total: u64, k: int) -> Seq<TokenView>
    decreases k,
{
    if k <= 0 {
        Seq::empty()
    } else {
        let (f, c) = v[k - 1];
        format_list(v, total, k - 1) + between(k, ", ") + seq![
            TokenView::Text(tokens::name_of_format(StringFormat::nth(f as int))),
            tokens::lit(" \u{d7}"),
            tokens::num(c as int),
            tokens::lit(" ("),
            TokenView::Percent { part: c as int, total: total as int, decimals: 1 },
            tokens::lit("%)"),
        ]
    }
}

/// Two to the power of `k`.
pub open spec fn doubled(k: int) -> int
    decreases k,
{
    if k <= 0 {
        1
    } else {
        2 * doubled(k - 1)
    }
}

/// The classes of lengths that were seen, among the first `k`.
pub open spec fn bucket_list(b: Seq<u64>, k: int) -> Seq<TokenView>
    decreases k,
{
    if k <= 0 {
        Seq::empty()
    } else {
        let before = bucket_list(b, k - 1);
        if b[k - 1] == 0 {
            before
        } else {
            before + (if before.len() > 0 {
                seq![tokens::lit("  ")]
            } else {
                Seq::empty()
            }) + seq![
                tokens::lit("["),
                tokens::num(
                    if k == 1 {
                        0
                    } else {
                        doubled(k - 1)
                    },
                ),
                tokens::lit(".."),
                tokens::num(doubled(k)),
                tokens::lit(") \u{d7}"),
                tokens::num(b[k - 1] as int),
            ]
        }
    }
}

/// The first `k` skeletons, each with its count and its share.
pub open spec fn skeleton_list(v: Seq<(Seq<char>, u64)>, total: u64, k: int) -> Seq<TokenView>
    decreases k,
{
    if k <= 0 {
        Seq::empty()
    } else {
        let (s, c) = v[k - 1];
        skeleton_list(v, total, k - 1) + between(k, ", ") + seq![
            tokens::lit("`"),
            TokenView::Text(s),
            tokens::lit("` \u{d7}"),
            tokens::num(c as int),
            tokens::lit(" ("),
            TokenView::Percent { part: c as int, total: total as int, decimals: 1 },
            tokens::lit("%)"),
        ]
    }
}

pub open spec fn skeleton_line(ss: StringStatsView, depth: int) -> Seq<TokenView> {
    let v = sketch::by_count(ss.skeletons.entries);
    if ss.other_count == 0 || v.len() == 0 {
        Seq::empty()
    } else {
        let shown = if v.len() > 5 {
            5
        } else {
            v.len() as int
        };
        seq![
            TokenView::Indent(depth),
            tokens::lit("    skeletons (over "),
            tokens::num(ss.other_count as int),
            tokens::lit(" Other strings): "),
        ] + skeleton_list(v, ss.other_count, shown) + (if v.len() > 5 {
            seq![tokens::lit(", +"), tokens::num(v.len() - 5), tokens::lit(" more")]
        } else {
            Seq::empty()
        }) + seq![tokens::lit("\n")]
    }
}

pub open spec fn format_line(ss: StringStatsView, depth: int) -> Seq<TokenView> {
    let v = sketch::by_count(seen(ss.formats, 11));
    seq![TokenView::Indent(depth), tokens::lit("    formats: ")] + format_list(
        v,
        ss.count,
        v.len() as int,
    ) + seq![tokens::lit("\n")]
}

pub open spec fn bucket_line(ss: StringStatsView, depth: int) -> Seq<TokenView> {
    let v = bucket_list(ss.length_buckets, 32);
    if v.len() == 0 {
        v
    } else {
        seq![TokenView::Indent(depth), tokens::lit("    length buckets (log2): ")] + v + seq![
            tokens::lit("\n"),
        ]
    }
}

/// What a report says of the strings at a path.
pub open spec fn string_lines(ss: StringStatsView, depth: int, label: Seq<char>) -> Seq<TokenView> {
    let head = seq![
        TokenView::Indent(depth),
        tokens::lit("  "),
        TokenView::Text(label),
        tokens::lit(" stats: "),
        tokens::num(ss.count as int),
        tokens::lit(" obs, lengths "),
        tokens::num(ss.min_len as int),
        tokens::lit(".."),
        tokens::num(ss.max_len as int),
        tokens::lit(" (mean "),
        TokenView::Mean { sum: ss.sum_len as int, count: ss.count as int },
        tokens::lit(")\n"),
    ];
    if ss.count == 0 {
        head
    } else {
        head + tokens::percentile_line(ss.length_sketch, depth, "    length "@, true)
            + format_line(ss, depth) + bucket_line(ss, depth) + skeleton_line(ss, depth)
    }
}

fn put_formats(out: &mut Vec<Token>, ss: &StringStats, depth: u128)
    ensures
        tokens::tokens(final(out)@) == tokens::tokens(old(out)@) + format_line(ss@, depth as int),
{
    let ghost start = tokens::tokens(out@);
    let v = ranked_counts(&ss.formats);
    let ghost w = sketch::by_count(seen(ss@.formats, 11));
    tokens::put(out, Token::Indent(depth));
    tokens::put_text(out, "    formats: ");
    let ghost head = tokens::tokens(out@);
    let mut i: usize = 0;
    assert(head + format_list(w, ss@.count, 0) =~= head);
    while i < v.len()
        invariant
            i <= v@.len(),
            v@ == w,
            tokens::tokens(out@) == head + format_list(w, ss@.count, i as int),
        decreases v@.len() - i,
    {
        let (f, c) = v[i];
        assert(w[i as int] == (f, c));
        if i > 0 {
            tokens::put_text(out, ", ");
        }
        let place: usize = if f < 10 {
            f as usize
        } else {
            10
        };
        tokens::put_text(out, tokens::format_name(StringFormat::at(place)));
        tokens::put_text(out, " \u{d7}");
        tokens::put_int(out, c);
        tokens::put_text(out, " (");
        tokens::put(out, Token::Percent { part: c, total: ss.count as u128, decimals: 1 });
        tokens::put_text(out, "%)");
        i += 1;
        assert(tokens::tokens(out@) =~= head + format_list(w, ss@.count, i as int));
    }
    tokens::put_text(out, "\n");
    assert(tokens::tokens(out@) =~= start + format_line(ss@, depth as int));
}

/// The places with a count, highest count first.
pub fn ranked_counts<const N: usize>(counts: &[u64; N]) -> (v: Vec<(u32, u64)>)
    requires
        N <= 1000,
    ensures
        v@ == sketch::by_count(seen(counts@, N as int)),
{
    let mut v: Vec<(u32, u64)> = Vec::new();
    let mut k: usize = 0;
    assert(v@ =~= sketch::by_count(seen(counts@, 0)));
    while k < N
        invariant
            k <= N <= 1000,
            v@ == sketch::by_count(seen(counts@, k as int)),
        decreases N - k,
    {
        let c: u64 = counts[k];
        if c > 0 {
            let ghost before = v@;
            assert(sketch::keyed(before) =~= before);
            sketch::insert_entry(&mut v, (k as u32, c));
            assert(sketch::keyed(v@) =~= v@);
            proof {
                let s = seen(counts@, k + 1);
                assert(s.drop_last() =~= seen(counts@, k as int));
                assert(s.last() == (k as u32, c));
            }
        }
        k += 1;
    }
    v
}

fn put_buckets(out: &mut Vec<Token>, ss: &StringStats, depth: u128)
    ensures
        tokens::tokens(final(out)@) == tokens::tokens(old(out)@) + bucket_line(ss@, depth as int),
{
    let ghost start = tokens::tokens(out@);
    let ghost b = ss@.length_buckets;
    let mut lines: Vec<Token> = Vec::new();
    let mut k: usize = 0;
    let mut low: u64 = 1;
    assert(tokens::tokens(lines@) =~= bucket_list(b, 0));
    while k < 32
        invariant
            k <= 32,
            b == ss@.length_buckets,
            low == doubled(k as int),
            low <= 0x1_0000_0000,
            k < 32 ==> low <= 0x8000_0000,
            tokens::tokens(lines@) == bucket_list(b, k as int),
        decreases 32 - k,
    {
        let c: u64 = ss.length_buckets[k];
        let high: u64 = low * 2;
        proof {
            lemma_doubled(k as int);
            lemma_doubled(k + 1);
        }
        if c > 0 {
            if lines.len() > 0 {
                tokens::put_text(&mut lines, "  ");
            }
            tokens::put_text(&mut lines, "[");
            tokens::put_int(
                &mut lines,
                if k == 0 {
                    0
                } else {
                    low
                },
            );
            tokens::put_text(&mut lines, "..");
            tokens::put_int(&mut lines, high);
            tokens::put_text(&mut lines, ") \u{d7}");
            tokens::put_int(&mut lines, c);
        }
        k += 1;
        low = high;
        assert(tokens::tokens(lines@) =~= bucket_list(b, k as int));
    }
    if lines.len() > 0 {
        tokens::put(out, Token::Indent(depth));
        tokens::put_text(out, "    length buckets (log2): ");
        tokens::put_all(out, &mut lines);
        tokens::put_text(out, "\n");
    }
    assert(tokens::tokens(out@) =~= start + bucket_line(ss@, depth as int));
}

proof fn lemma_doubled(k: int)
    requires
        0 <= k <= 32,
    ensures
        1 <= doubled(k) <= 0x1_0000_0000,
        k < 32 ==> doubled(k) <= 0x8000_0000,
        doubled(k + 1) == 2 * doubled(k),
{
    assert(doubled(8) == 0x100) by {
        reveal_with_fuel(doubled, 9);
    }
    assert(doubled(16) == 0x100 * doubled(8)) by {
        reveal_with_fuel(doubled, 9);
    }
    assert(doubled(24) == 0x100 * doubled(16)) by {
        reveal_with_fuel(doubled, 9);
    }
    assert(doubled(31) == 0x80 * doubled(24)) by {
        reveal_with_fuel(doubled, 8);
    }
    assert(doubled(32) == 2 * doubled(31));
    lemma_doubled_grows(k, 32);
    if k < 32 {
        lemma_doubled_grows(k, 31);
    }
}

proof fn lemma_doubled_grows(a: int, b: int)
    requires
        0 <= a <= b,
    ensures
        1 <= doubled(a) <= doubled(b),
    decreases b,
{
    if a < b {
        lemma_doubled_grows(a, b - 1);
    } else if b > 0 {
        lemma_doubled_grows(a - 1, b - 1);
    }
}

fn put_skeletons(out: &mut Vec<Token>, ss: &StringStats, depth: u128)
    ensures
        tokens::tokens(final(out)@) == tokens::tokens(old(out)@) + skeleton_line(ss@, depth as int),
{
    let ghost start = tokens::tokens(out@);
    let ghost v = sketch::by_count(ss@.skeletons.entries);
    let entries = ss.skeletons.entries();
    let n: usize = entries.len();
    if ss.other_count > 0 && n > 0 {
        tokens::put(out, Token::Indent(depth));
        tokens::put_text(out, "    skeletons (over ");
        tokens::put_int(out, ss.other_count);
        tokens::put_text(out, " Other strings): ");
        let shown: usize = if n > 5 {
            5
        } else {
            n
        };
        let ghost head = tokens::tokens(out@);
        let mut i: usize = 0;
        assert(head + skeleton_list(v, ss@.other_count, 0) =~= head);
        while i < shown
            invariant
                i <= shown <= entries@.len(),
                entries@.map_values(|e: (String, u64)| (e.0@, e.1)) == v,
                tokens::tokens(out@) == head + skeleton_list(v, ss@.other_count, i as int),
            decreases shown - i,
        {
            assert(v[i as int] == (entries@[i as int].0@, entries@[i as int].1));
            if i > 0 {
                tokens::put_text(out, ", ");
            }
            tokens::put_text(out, "`");
            tokens::put_text(out, entries[i].0.as_str());
            tokens::put_text(out, "` \u{d7}");
            let c: u64 = entries[i].1;
            tokens::put_int(out, c);
            tokens::put_text(out, " (");
            tokens::put(
                out,
                Token::Percent { part: c, total: ss.other_count as u128, decimals: 1 },
            );
            tokens::put_text(out, "%)");
            i += 1;
            assert(tokens::tokens(out@) =~= head + skeleton_list(v, ss@.other_count, i as int));
        }
        if n > 5 {
            tokens::put_text(out, ", +");
            tokens::put_int(out, (n - 5) as u64);
            tokens::put_text(out, " more");
        }
        tokens::put_text(out, "\n");
    }
    assert(tokens::tokens(out@) =~= start + skeleton_line(ss@, depth as int));
}

pub fn write_string_stats(out: &mut Vec<Token>, ss: &StringStats, depth: u128, label: &str)
    ensures
        tokens::tokens(final(out)@) == tokens::tokens(old(out)@) + string_lines(
            ss@,
            depth as int,
            label@,
        ),
{
    let ghost start = tokens::tokens(out@);
    tokens::put(out, Token::Indent(depth));
    tokens::put_text(out, "  ");
    tokens::put_text(out, label);
    tokens::put_text(out, " stats: ");
    tokens::put_int(out, ss.count);
    tokens::put_text(out, " obs, lengths ");
    tokens::put_int(out, ss.min_len as u64);
    tokens::put_text(out, "..");
    tokens::put_int(out, ss.max_len as u64);
    tokens::put_text(out, " (mean ");
    tokens::put(out, Token::Mean { sum: ss.sum_len, count: ss.count });
    tokens::put_text(out, ")\n");
    if ss.count > 0 {
        tokens::put_percentiles(out, &ss.length_sketch, depth, "    length ", true);
        put_formats(out, ss, depth);
        put_buckets(out, ss, depth);
        put_skeletons(out, ss, depth);
    }
    assert(tokens::tokens(out@) =~= start + string_lines(ss@, depth as int, label@));
}

// ---------------------------------------------------------------------
// Numbers
// ---------------------------------------------------------------------

pub open spec fn name_of_epoch(e: Epoch) -> Seq<char> {
    match e {
        Epoch::Seconds => "epoch seconds"@,
        Epoch::Millis => "epoch millis"@,
        Epoch::Micros => "epoch micros"@,
        Epoch::Nanos => "epoch nanos"@,
    }
}

pub fn epoch_name(e: Epoch) -> (r: &'static str)
    ensures
        r@ == name_of_epoch(e),
{
    match e {
        Epoch::Seconds => "epoch seconds",
        Epoch::Millis => "epoch millis",
        Epoch::Micros => "epoch micros",
        Epoch::Nanos => "epoch nanos",
    }
}

pub open spec fn name_of_signs(s: Signs) -> Seq<char> {
    match s {
        Signs::Positive => "positive"@,
        Signs::NonNegative => "non-negative"@,
        Signs::Negative => "negative"@,
        Signs::Mixed => "mixed-sign"@,
    }
}

fn signs_name(s: Signs) -> (r: &'static str)
    ensures
        r@ == name_of_signs(s),
{
    match s {
        Signs::Positive => "positive",
        Signs::NonNegative => "non-negative",
        Signs::Negative => "negative",
        Signs::Mixed => "mixed-sign",
    }
}

/// The range of the numbers, in words: their signs, whether they are whole,
/// and the lowest and the highest.
pub open spec fn range_words(ns: NumericStatsView) -> Seq<TokenView> {
    let whole = ns.all_integer_valued();
    seq![
        TokenView::Text(name_of_signs(ns.signs())),
        tokens::lit(
            if whole {
                " integers in ["
            } else {
                " numbers in ["
            },
        ),
        TokenView::Bound { value: ns.min, whole },
        tokens::lit(", "),
        TokenView::Bound { value: ns.max, whole },
        tokens::lit("]"),
    ]
}

pub fn range_hint(out: &mut Vec<Token>, ns: &NumericStats)
    ensures
        tokens::tokens(final(out)@) == tokens::tokens(old(out)@) + range_words(ns@),
{
    let whole: bool = ns.all_integer_valued();
    tokens::put_text(out, signs_name(ns.signs()));
    if whole {
        tokens::put_text(out, " integers in [");
    } else {
        tokens::put_text(out, " numbers in [");
    }
    tokens::put(out, Token::Bound { value: ns.min, whole });
    tokens::put_text(out, ", ");
    tokens::put(out, Token::Bound { value: ns.max, whole });
    tokens::put_text(out, "]");
    assert(tokens::tokens(out@) =~= tokens::tokens(old(out)@) + range_words(ns@));
}

pub open spec fn range_line(ns: NumericStatsView, node: int, depth: int) -> Seq<TokenView> {
    let whole = ns.all_integer_valued();
    seq![
        TokenView::Indent(depth),
        tokens::lit("  numeric values stats: "),
        tokens::num(ns.count as int),
        tokens::lit(" obs, range ["),
        TokenView::Number { value: ns.min, whole },
        tokens::lit(", "),
        TokenView::Number { value: ns.max, whole },
        tokens::lit("], mean "),
        TokenView::NodeMean { node },
        tokens::lit("\n"),
    ]
}

pub open spec fn sign_line(ns: NumericStatsView, depth: int) -> Seq<TokenView> {
    seq![
        TokenView::Indent(depth),
        tokens::lit("    signs: "),
        tokens::num(ns.negative as int),
        tokens::lit(" negative, "),
        tokens::num(ns.zero as int),
        tokens::lit(" zero, "),
        tokens::num(ns.positive as int),
        tokens::lit(" positive\n"),
    ]
}

pub open spec fn whole_line(ns: NumericStatsView, depth: int) -> Seq<TokenView> {
    seq![
        TokenView::Indent(depth),
        tokens::lit("    integer-valued: "),
        tokens::num(ns.integer_valued as int),
        tokens::lit(" / "),
        tokens::num(ns.count as int),
        tokens::lit(" ("),
        TokenView::Percent { part: ns.integer_valued as int, total: ns.count as int, decimals: 1 },
        tokens::lit("%)\n"),
    ]
}

pub open spec fn epoch_line(ns: NumericStatsView, depth: int) -> Seq<TokenView> {
    match ns.epoch_guess() {
        Some(e) => seq![
            TokenView::Indent(depth),
            tokens::lit("    looks like: "),
            TokenView::Text(name_of_epoch(e)),
            tokens::lit("\n"),
        ],
        None => Seq::empty(),
    }
}

/// What a report says of the numbers at a node.
pub open spec fn number_lines(ns: NumericStatsView, node: int, depth: int) -> Seq<TokenView> {
    if ns.count == 0 {
        Seq::empty()
    } else {
        range_line(ns, node, depth) + sign_line(ns, depth) + whole_line(ns, depth)
            + tokens::percentile_line(ns.sketch, depth, "    "@, ns.all_integer_valued())
            + epoch_line(ns, depth)
    }
}

fn put_range(out: &mut Vec<Token>, ns: &NumericStats, node: usize, depth: u128)
    ensures
        tokens::tokens(final(out)@) == tokens::tokens(old(out)@) + range_line(
            ns@,
            node as int,
            depth as int,
        ),
{
    let whole: bool = ns.all_integer_valued();
    tokens::put(out, Token::Indent(depth));
    tokens::put_text(out, "  numeric values stats: ");
    tokens::put_int(out, ns.count);
    tokens::put_text(out, " obs, range [");
    tokens::put(out, Token::Number { value: ns.min, whole });
    tokens::put_text(out, ", ");
    tokens::put(out, Token::Number { value: ns.max, whole });
    tokens::put_text(out, "], mean ");
    tokens::put(out, Token::NodeMean { node });
    tokens::put_text(out, "\n");
    assert(tokens::tokens(out@) =~= tokens::tokens(old(out)@) + range_line(
        ns@,
        node as int,
        depth as int,
    ));
}

fn put_signs(out: &mut Vec<Token>, ns: &NumericStats, depth: u128)
    ensures
        tokens::tokens(final(out)@) == tokens::tokens(old(out)@) + sign_line(ns@, depth as int),
{
    tokens::put(out, Token::Indent(depth));
    tokens::put_text(out, "    signs: ");
    tokens::put_int(out, ns.negative);
    tokens::put_text(out, " negative, ");
    tokens::put_int(out, ns.zero);
    tokens::put_text(out, " zero, ");
    tokens::put_int(out, ns.positive);
    tokens::put_text(out, " positive\n");
    assert(tokens::tokens(out@) =~= tokens::tokens(old(out)@) + sign_line(ns@, depth as int));
}

fn put_whole(out: &mut Vec<Token>, ns: &NumericStats, depth: u128)
    ensures
        tokens::tokens(final(out)@) == tokens::tokens(old(out)@) + whole_line(ns@, depth as int),
{
    tokens::put(out, Token::Indent(depth));
    tokens::put_text(out, "    integer-valued: ");
    tokens::put_int(out, ns.integer_valued);
    tokens::put_text(out, " / ");
    tokens::put_int(out, ns.count);
    tokens::put_text(out, " (");
    tokens::put(
        out,
        Token::Percent { part: ns.integer_valued, total: ns.count as u128, decimals: 1 },
    );
    tokens::put_text(out, "%)\n");
    assert(tokens::tokens(out@) =~= tokens::tokens(old(out)@) + whole_line(ns@, depth as int));
}

fn put_epoch(out: &mut Vec<Token>, ns: &NumericStats, depth: u128)
    ensures
        tokens::tokens(final(out)@) == tokens::tokens(old(out)@) + epoch_line(ns@, depth as int),
{
    if let Some(e) = ns.epoch_guess() {
        tokens::put(out, Token::Indent(depth));
        tokens::put_text(out, "    looks like: ");
        tokens::put_text(out, epoch_name(e));
        tokens::put_text(out, "\n");
    }
    assert(tokens::tokens(out@) =~= tokens::tokens(old(out)@) + epoch_line(ns@, depth as int));
}

pub fn write_numeric_stats(out: &mut Vec<Token>, ns: &NumericStats, node: usize, depth: u128)
    ensures
        tokens::tokens(final(out)@) == tokens::tokens(old(out)@) + number_lines(
            ns@,
            node as int,
            depth as int,
        ),
{
    let ghost start = tokens::tokens(out@);
    if ns.count > 0 {
        put_range(out, ns, node, depth);
        put_signs(out, ns, depth);
        put_whole(out, ns, depth);
        tokens::put_percentiles(out, &ns.sketch, depth, "    ", ns.all_integer_valued());
        put_epoch(out, ns, depth);
    }
    assert(tokens::tokens(out@) =~= start + number_lines(ns@, node as int, depth as int));
}

} // verus!
