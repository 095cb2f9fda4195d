//! The pieces that reports are made of. A piece is a text, or a figure that
//! is rendered with so many decimals.
use crate::analyze::dist::{DistSketch, DistView, Quantile};
use crate::analyze::formats::StringFormat;
use crate::analyze::sig;
use crate::analyze::sig::{ScalarKind, Sig, SigView};
use crate::double::Double;
use vstd::prelude::*;

verus! {

/// A piece of a report.
#[derive(Clone, Debug, PartialEq, Eq)]
pub enum Token {
    Text(String),
    /// So many levels of two spaces.
    Indent(u128),
    Int(u64),
    /// A hundred times `part` by `total`, with so many decimals.
    Percent { part: u64, total: u128, decimals: u8 },
    /// A hundred times the share of `part` in `total`, with so many decimals.
    Share { part: u64, total: u128, decimals: u8 },
    /// `sum` by `count`, zero where there are none, with one decimal.
    Mean { sum: u128, count: u64 },
    /// A number: a whole one without decimals, another in full.
    Number { value: Double, whole: bool },
    /// A number: a whole one without decimals, another with three.
    Bound { value: Double, whole: bool },
    /// The mean of the numbers at a node, with three decimals.
    NodeMean { node: usize },
    /// The value of a place in a distribution, of which `largest` is the
    /// largest value; whole values without decimals.
    Place { at: Quantile, largest: Double, whole: bool },
    /// That the distribution is long-tailed, where its upper place is ten
    /// times its middle one or more, and that is positive. Nothing otherwise.
    LongTail { middle: Quantile, upper: Quantile, largest: Double, whole: bool },
}

pub enum TokenView {
    Text(Seq<char>),
    Indent(int),
    Int(int),
    Percent { part: int, total: int, decimals: u8 },
    Share { part: int, total: int, decimals: u8 },
    Mean { sum: int, count: int },
    Number { value: Double, whole: bool },
    Bound { value: Double, whole: bool },
    NodeMean { node: int },
    Place { at: Quantile, largest: Double, whole: bool },
    LongTail { middle: Quantile, upper: Quantile, largest: Double, whole: bool },
}

impl View for Token {
    type V = TokenView;

    open spec fn view(&self) -> TokenView {
        match *self {
            Token::Text(s) => TokenView::Text(s@),
            Token::Indent(n) => TokenView::Indent(n as int),
            Token::Int(n) => TokenView::Int(n as int),
            Token::Percent { part, total, decimals } => TokenView::Percent {
                part: part as int,
                total: total as int,
                decimals,
            },
            Token::Share { part, total, decimals } => TokenView::Share {
                part: part as int,
                total: total as int,
                decimals,
            },
            Token::Mean { sum, count } => TokenView::Mean { sum: sum as int, count: count as int },
            Token::Number { value, whole } => TokenView::Number { value, whole },
            Token::Bound { value, whole } => TokenView::Bound { value, whole },
            Token::NodeMean { node } => TokenView::NodeMean { node: node as int },
            Token::Place { at, largest, whole } => TokenView::Place { at, largest, whole },
            Token::LongTail { middle, upper, largest, whole } => TokenView::LongTail {
                middle,
                upper,
                largest,
                whole,
            },
        }
    }
}

pub open spec fn tokens(v: Seq<Token>) -> Seq<TokenView> {
    v.map_values(|t: Token| t@)
}

/// A literal text.
pub open spec fn lit(s: &str) -> TokenView {
    TokenView::Text(s@)
}

pub open spec fn num(n: int) -> TokenView {
    TokenView::Int(n)
}

pub fn put(out: &mut Vec<Token>, t: Token)
    ensures
        tokens(final(out)@) == tokens(old(out)@).push(t@),
{
    out.push(t);
    assert(tokens(out@) =~= tokens(old(out)@).push(t@));
}

pub fn put_text(out: &mut Vec<Token>, s: &str)
    ensures
        tokens(final(out)@) == tokens(old(out)@).push(TokenView::Text(s@)),
{
    put(out, Token::Text(s.to_string()));
}

pub fn put_int(out: &mut Vec<Token>, n: u64)
    ensures
        tokens(final(out)@) == tokens(old(out)@).push(TokenView::Int(n as int)),
{
    put(out, Token::Int(n));
}

/// Moves all pieces of `more` behind those of `out`.
pub fn put_all(out: &mut Vec<Token>, more: &mut Vec<Token>)
    ensures
        tokens(final(out)@) == tokens(old(out)@) + tokens(old(more)@),
{
    out.append(more);
    assert(tokens(out@) =~= tokens(old(out)@) + tokens(old(more)@));
}

// ---------------------------------------------------------------------
// Names
// ---------------------------------------------------------------------

pub open spec fn name_of_kind(k: ScalarKind) -> Seq<char> {
    match k {
        ScalarKind::Null => "null"@,
        ScalarKind::Bool => "bool"@,
        ScalarKind::I64 => "i64"@,
        ScalarKind::U64 => "u64"@,
        ScalarKind::F64 => "f64"@,
        ScalarKind::String => "string"@,
    }
}

pub fn scalar_name(k: ScalarKind) -> (r: &'static str)
    ensures
        r@ == name_of_kind(k),
{
    match k {
        ScalarKind::Null => "null",
        ScalarKind::Bool => "bool",
        ScalarKind::I64 => "i64",
        ScalarKind::U64 => "u64",
        ScalarKind::F64 => "f64",
        ScalarKind::String => "string",
    }
}

/// The name of the variant of a kind.
pub open spec fn tag_of_kind(k: ScalarKind) -> Seq<char> {
    match k {
        ScalarKind::Null => "Null"@,
        ScalarKind::Bool => "Bool"@,
        ScalarKind::I64 => "I64"@,
        ScalarKind::U64 => "U64"@,
        ScalarKind::F64 => "F64"@,
        ScalarKind::String => "String"@,
    }
}

pub fn scalar_tag(k: ScalarKind) -> (r: &'static str)
    ensures
        r@ == tag_of_kind(k),
{
    match k {
        ScalarKind::Null => "Null",
        ScalarKind::Bool => "Bool",
        ScalarKind::I64 => "I64",
        ScalarKind::U64 => "U64",
        ScalarKind::F64 => "F64",
        ScalarKind::String => "String",
    }
}

pub open spec fn name_of_format(f: StringFormat) -> Seq<char> {
    match f {
        StringFormat::Uuid => "UUID"@,
        StringFormat::IsoTimestamp => "ISO-timestamp"@,
        StringFormat::IsoDate => "ISO-date"@,
        StringFormat::Ipv4 => "IPv4"@,
        StringFormat::Ipv6 => "IPv6"@,
        StringFormat::Email => "email"@,
        StringFormat::UrlHttp => "URL"@,
        StringFormat::AllDigits => "digits"@,
        StringFormat::AllAlpha => "alpha"@,
        StringFormat::AlphaNum => "alphanum"@,
        StringFormat::Other => "other"@,
    }
}

pub fn format_name(f: StringFormat) -> (r: &'static str)
    ensures
        r@ == name_of_format(f),
{
    match f {
        StringFormat::Uuid => "UUID",
        StringFormat::IsoTimestamp => "ISO-timestamp",
        StringFormat::IsoDate => "ISO-date",
        StringFormat::Ipv4 => "IPv4",
        StringFormat::Ipv6 => "IPv6",
        StringFormat::Email => "email",
        StringFormat::UrlHttp => "URL",
        StringFormat::AllDigits => "digits",
        StringFormat::AllAlpha => "alpha",
        StringFormat::AlphaNum => "alphanum",
        StringFormat::Other => "other",
    }
}

/// The first `k` texts, with a separator between them.
pub open spec fn joined(v: Seq<Seq<char>>, sep: Seq<char>, k: int) -> Seq<char>
    decreases k,
{
    if k <= 0 {
        Seq::empty()
    } else if k == 1 {
        v[0]
    } else {
        joined(v, sep, k - 1) + sep + v[k - 1]
    }
}

pub open spec fn texts(v: Seq<String>) -> Seq<Seq<char>> {
    v.map_values(|s: String| s@)
}

/// The first `limit` items, with commas between them, and how many more there
/// are.
pub open spec fn truncated(items: Seq<Seq<char>>, limit: int) -> Seq<TokenView> {
    if items.len() <= limit {
        seq![TokenView::Text(joined(items, ", "@, items.len() as int))]
    } else {
        seq![
            TokenView::Text(joined(items, ", "@, limit)),
            lit(", ... (+"),
            num(items.len() - limit),
            lit(" more)"),
        ]
    }
}

pub fn join(items: &Vec<String>, sep: &str, k: usize) -> (r: String)
    requires
        k <= items@.len(),
    ensures
        r@ == joined(texts(items@), sep@, k as int),
{
    let mut out: String = String::new();
    let mut i: usize = 0;
    assert(out@ =~= joined(texts(items@), sep@, 0));
    while i < k
        invariant
            i <= k <= items@.len(),
            out@ == joined(texts(items@), sep@, i as int),
        decreases k - i,
    {
        assert(texts(items@)[i as int] == items@[i as int]@);
        if i > 0 {
            out.append(sep);
        }
        out.append(items[i].as_str());
        i += 1;
        assert(out@ =~= joined(texts(items@), sep@, i as int));
    }
    out
}

pub fn join_truncated(out: &mut Vec<Token>, items: &Vec<String>, limit: usize)
    ensures
        tokens(final(out)@) == tokens(old(out)@) + truncated(texts(items@), limit as int),
{
    if items.len() <= limit {
        put(out, Token::Text(join(items, ", ", items.len())));
    } else {
        put(out, Token::Text(join(items, ", ", limit)));
        put_text(out, ", ... (+");
        put_int(out, (items.len() - limit) as u64);
        put_text(out, " more)");
    }
    assert(tokens(out@) =~= tokens(old(out)@) + truncated(texts(items@), limit as int));
}

// ---------------------------------------------------------------------
// Signatures
// ---------------------------------------------------------------------

pub open spec fn sig_text(s: SigView) -> Seq<char>
    decreases s,
{
    match s {
        SigView::Empty => "empty"@,
        SigView::Scalar(k) => name_of_kind(k),
        SigView::Array(inner) => "["@ + sig_text(*inner) + "]"@,
        SigView::Record(fields) => "record{"@ + field_names(fields) + "}"@,
        SigView::Variant(arms) => "("@ + arm_texts(arms) + ")"@,
    }
}

pub open spec fn field_names(v: Seq<(Seq<char>, SigView)>) -> Seq<char>
    decreases v.len(),
{
    if v.len() == 0 {
        Seq::empty()
    } else if v.len() == 1 {
        v[0].0
    } else {
        field_names(v.drop_last()) + ", "@ + v.last().0
    }
}

pub open spec fn arm_texts(v: Seq<SigView>) -> Seq<char>
    decreases v,
{
    if v.len() == 0 {
        Seq::empty()
    } else if v.len() == 1 {
        sig_text(v[0])
    } else {
        arm_texts(v.drop_last()) + " | "@ + sig_text(v.last())
    }
}

pub fn write_sig(out: &mut String, s: &Sig)
    ensures
        final(out)@ == old(out)@ + sig_text(s@),
    decreases s,
{
    let ghost start = out@;
    match s {
        Sig::Empty => {
            out.append("empty");
        },
        Sig::Scalar(k) => {
            out.append(scalar_name(*k));
        },
        Sig::Array(inner) => {
            out.append("[");
            write_sig(out, inner);
            out.append("]");
        },
        Sig::Record(fields) => {
            out.append("record{");
            let ghost head = out@;
            let ghost v = sig::fields_view(fields@);
            proof {
                sig::lemma_fields_view(fields@);
            }
            let mut i: usize = 0;
            assert(field_names(v.take(0)) =~= Seq::empty());
            while i < fields.len()
                invariant
                    i <= fields@.len() == v.len(),
                    forall|k: int|
                        0 <= k < v.len() ==> #[trigger] v[k] == (
                            fields@[k].0@,
                            sig::sig_view(fields@[k].1),
                        ),
                    out@ == head + field_names(v.take(i as int)),
                decreases fields@.len() - i,
            {
                assert(v[i as int].0 == fields@[i as int].0@);
                if i > 0 {
                    out.append(", ");
                }
                out.append(fields[i].0.as_str());
                i += 1;
                assert(v.take(i as int).drop_last() =~= v.take(i - 1));
                assert(out@ =~= head + field_names(v.take(i as int)));
            }
            assert(v.take(i as int) =~= v);
            out.append("}");
        },
        Sig::Variant(arms) => {
            out.append("(");
            let ghost head = out@;
            let ghost v = sig::arms_view(arms@);
            proof {
                sig::lemma_arms_view(arms@);
            }
            let mut i: usize = 0;
            assert(arm_texts(v.take(0)) =~= Seq::empty());
            while i < arms.len()
                invariant
                    i <= arms@.len() == v.len(),
                    *s == Sig::Variant(*arms),
                    forall|k: int|
                        0 <= k < v.len() ==> #[trigger] v[k] == sig::sig_view(arms@[k]),
                    out@ == head + arm_texts(v.take(i as int)),
                decreases arms@.len() - i,
            {
                assert(decreases_to!(*s => s->Variant_0));
                assert(decreases_to!(s->Variant_0 => arms@[i as int]));
                assert(v[i as int] == sig::sig_view(arms@[i as int]));
                if i > 0 {
                    out.append(" | ");
                }
                write_sig(out, &arms[i]);
                i += 1;
                assert(v.take(i as int).drop_last() =~= v.take(i - 1));
                assert(out@ =~= head + arm_texts(v.take(i as int)));
            }
            assert(v.take(i as int) =~= v);
            out.append(")");
        },
    }
    assert(out@ =~= start + sig_text(s@));
}

pub fn put_sig(out: &mut Vec<Token>, s: &Sig)
    ensures
        tokens(final(out)@) == tokens(old(out)@).push(TokenView::Text(sig_text(s@))),
{
    let mut t: String = String::new();
    write_sig(&mut t, s);
    assert(t@ =~= sig_text(s@));
    put(out, Token::Text(t));
}

// ---------------------------------------------------------------------
// Percentiles
// ---------------------------------------------------------------------

pub open spec fn place(d: DistView, num: int, den: int, whole: bool) -> TokenView {
    TokenView::Place { at: d.quantile(num, den)->Some_0, largest: d.max, whole }
}

/// The median and the two upper percentiles; nothing of an empty sketch.
pub open spec fn percentiles(d: DistView, whole: bool) -> Option<Seq<TokenView>> {
    if d.count == 0 {
        None
    } else {
        Some(
            seq![
                lit("percentiles: p50\u{2248}"),
                place(d, 1, 2, whole),
                lit(", p90\u{2248}"),
                place(d, 9, 10, whole),
                lit(", p99\u{2248}"),
                place(d, 99, 100, whole),
            ],
        )
    }
}

fn put_place(out: &mut Vec<Token>, d: &DistSketch, num: u64, den: u64, whole: bool)
    requires
        d@.count > 0,
        0 < den <= 1000,
        num <= den,
    ensures
        tokens(final(out)@) == tokens(old(out)@).push(place(d@, num as int, den as int, whole)),
{
    match d.quantile(num, den) {
        Some(at) => {
            put(out, Token::Place { at, largest: d.largest(), whole });
        },
        None => {
            assert(false);
        },
    }
}

/// A line of percentiles: `before` and the percentiles, where there are any.
pub open spec fn percentile_line(
    d: DistView,
    depth: int,
    before: Seq<char>,
    whole: bool,
) -> Seq<TokenView> {
    match percentiles(d, whole) {
        Some(p) => seq![TokenView::Indent(depth), TokenView::Text(before)] + p + seq![lit("\n")],
        None => Seq::empty(),
    }
}

pub fn put_percentiles(
    out: &mut Vec<Token>,
    d: &DistSketch,
    depth: u128,
    before: &str,
    whole: bool,
)
    ensures
        tokens(final(out)@) == tokens(old(out)@) + percentile_line(
            d@,
            depth as int,
            before@,
            whole,
        ),
{
    if d.count() > 0 {
        put(out, Token::Indent(depth));
        put_text(out, before);
        put_text(out, "percentiles: p50\u{2248}");
        put_place(out, d, 1, 2, whole);
        put_text(out, ", p90\u{2248}");
        put_place(out, d, 9, 10, whole);
        put_text(out, ", p99\u{2248}");
        put_place(out, d, 99, 100, whole);
        put_text(out, "\n");
    }
    assert(tokens(out@) =~= tokens(old(out)@) + percentile_line(
        d@,
        depth as int,
        before@,
        whole,
    ));
}

} // verus!
