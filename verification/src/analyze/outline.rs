//! The tree of what was observed, path by path: counts, the dual-view
//! accumulators, the decisions, and the element clusters of the arrays.
use crate::analyze::arena::{ArrayAcc, ArrayView, Node, NodeId, NodeView, ObjectAcc, ObjectView};
use crate::analyze::decide;
use crate::analyze::decide::{ArrayDecision, ObjectDecision};
use crate::analyze::engine;
use crate::analyze::figures;
use crate::analyze::finish;
use crate::analyze::sig::{ScalarKind, Sig, SigView};
use crate::analyze::stats::Share;
use crate::analyze::summary;
use crate::analyze::tokens;
use crate::analyze::tokens::{Token, TokenView};
use crate::sketch;
use crate::tally;
use crate::text;
use vstd::prelude::*;

verus! {

// ---------------------------------------------------------------------
// Paths
// ---------------------------------------------------------------------

/// A path with one part more; at the root, where the path is a dot, `first`
/// stands for it.
pub open spec fn extended(path: Seq<char>, first: Seq<char>, more: Seq<char>) -> Seq<char> {
    if path == "."@ {
        first
    } else {
        path + more
    }
}

fn extend(path: &String, first: &str, more: &str) -> (r: String)
    ensures
        r@ == extended(path@, first@, more@),
{
    let dot: String = ".".to_string();
    if *path == dot {
        first.to_string()
    } else {
        let mut r: String = path.clone();
        r.append(more);
        r
    }
}

/// The path of a field.
pub open spec fn field_path(path: Seq<char>, name: Seq<char>) -> Seq<char> {
    extended(path, "."@ + name, "."@ + name)
}

/// The path of a position of an array.
pub open spec fn index_path(path: Seq<char>, i: int) -> Seq<char> {
    extended(path, ".["@ + text::numeral(i, 10) + "]"@, "["@ + text::numeral(i, 10) + "]"@)
}

fn path_of_field(path: &String, name: &String) -> (r: String)
    ensures
        r@ == field_path(path@, name@),
{
    let mut part: String = ".".to_string();
    part.append(name.as_str());
    extend(path, part.as_str(), part.as_str())
}

fn path_of_index(path: &String, i: usize) -> (r: String)
    ensures
        r@ == index_path(path@, i as int),
{
    let mut part: String = "[".to_string();
    text::push_decimal(&mut part, i as u64);
    part.append("]");
    assert(part@ =~= "["@ + text::numeral(i as int, 10) + "]"@);
    let mut first: String = ".[".to_string();
    text::push_decimal(&mut first, i as u64);
    first.append("]");
    assert(first@ =~= ".["@ + text::numeral(i as int, 10) + "]"@);
    extend(path, first.as_str(), part.as_str())
}

// ---------------------------------------------------------------------
// Lines of a node
// ---------------------------------------------------------------------

pub open spec fn head_line(n: NodeView, path: Seq<char>, depth: int) -> Seq<TokenView> {
    seq![
        TokenView::Indent(depth),
        TokenView::Text(path),
        tokens::lit("  ("),
        tokens::num(n.obs as int),
        tokens::lit(" obs, docs "),
        tokens::num(n.first_doc as int),
        tokens::lit(".."),
        tokens::num(n.last_doc as int),
        tokens::lit(")\n"),
    ]
}

pub open spec fn kinds_line(n: NodeView, depth: int) -> Seq<TokenView> {
    let kinds = summary::kinds_at(n);
    if kinds.len() > 1 {
        seq![
            TokenView::Indent(depth),
            tokens::lit("  variant arms observed: "),
            TokenView::Text(tokens::joined(kinds, ", "@, kinds.len() as int)),
            tokens::lit("\n"),
        ]
    } else {
        Seq::empty()
    }
}

/// The first `k` scalar kinds, those that were seen.
pub open spec fn kind_lines(n: NodeView, depth: int, k: int) -> Seq<TokenView>
    decreases k,
{
    if k <= 0 {
        Seq::empty()
    } else if n.scalar_arms[k - 1] == 0 {
        kind_lines(n, depth, k - 1)
    } else {
        kind_lines(n, depth, k - 1) + seq![
            TokenView::Indent(depth),
            tokens::lit("    "),
            TokenView::Text(tokens::tag_of_kind(ScalarKind::nth(k - 1))),
            tokens::lit("  \u{d7}"),
            tokens::num(n.scalar_arms[k - 1] as int),
            tokens::lit("  ("),
            TokenView::Percent {
                part: n.scalar_arms[k - 1] as int,
                total: decide::at_least_one(n.scalar_obs() as u64),
                decimals: 1,
            },
            tokens::lit("%)\n"),
        ]
    }
}

pub open spec fn scalar_part(n: NodeView, depth: int) -> Seq<TokenView> {
    if n.has_scalars() {
        seq![TokenView::Indent(depth), tokens::lit("  scalar arms:\n")] + kind_lines(n, depth, 6)
    } else {
        Seq::empty()
    }
}

pub open spec fn figure_part(n: NodeView, id: int, depth: int) -> Seq<TokenView> {
    (match n.string_stats {
        Some(ss) => figures::string_lines(ss, depth, "string values"@),
        None => Seq::empty(),
    }) + (match n.numeric_stats {
        Some(ns) => figures::number_lines(ns, id, depth),
        None => Seq::empty(),
    })
}

/// What stands before the containers of a node.
pub open spec fn own_part(n: NodeView, id: int, path: Seq<char>, depth: int) -> Seq<TokenView> {
    head_line(n, path, depth) + kinds_line(n, depth) + scalar_part(n, depth) + figure_part(
        n,
        id,
        depth,
    )
}

fn put_head(out: &mut Vec<Token>, n: &Node, path: &String, depth: u128)
    ensures
        tokens::tokens(final(out)@) == tokens::tokens(old(out)@) + head_line(
            n@,
            path@,
            depth as int,
        ),
{
    tokens::put(out, Token::Indent(depth));
    tokens::put_text(out, path.as_str());
    tokens::put_text(out, "  (");
    tokens::put_int(out, n.obs);
    tokens::put_text(out, " obs, docs ");
    tokens::put_int(out, n.first_doc);
    tokens::put_text(out, "..");
    tokens::put_int(out, n.last_doc);
    tokens::put_text(out, ")\n");
    assert(tokens::tokens(out@) =~= tokens::tokens(old(out)@) + head_line(n@, path@, depth as int));
}

fn put_kinds(out: &mut Vec<Token>, n: &Node, depth: u128)
    requires
        n@.scalar_arms.len() == 6,
        n@.scalar_obs() <= u64::MAX,
    ensures
        tokens::tokens(final(out)@) == tokens::tokens(old(out)@) + kinds_line(n@, depth as int),
{
    let kinds = summary::kinds_of(n);
    if kinds.len() > 1 {
        tokens::put(out, Token::Indent(depth));
        tokens::put_text(out, "  variant arms observed: ");
        tokens::put(out, Token::Text(tokens::join(&kinds, ", ", kinds.len())));
        tokens::put_text(out, "\n");
    }
    assert(tokens::tokens(out@) =~= tokens::tokens(old(out)@) + kinds_line(n@, depth as int));
}

fn put_scalar_arms(out: &mut Vec<Token>, n: &Node, depth: u128)
    requires
        n@.scalar_arms.len() == 6,
        n@.scalar_obs() <= u64::MAX,
    ensures
        tokens::tokens(final(out)@) == tokens::tokens(old(out)@) + scalar_part(n@, depth as int),
{
    let ghost start = tokens::tokens(out@);
    let sum: u64 = summary::scalar_total(n);
    if sum > 0 {
        tokens::put(out, Token::Indent(depth));
        tokens::put_text(out, "  scalar arms:\n");
        let ghost head = tokens::tokens(out@);
        let mut k: usize = 0;
        assert(head + kind_lines(n@, depth as int, 0) =~= head);
        while k < 6
            invariant
                k <= 6,
                sum == n@.scalar_obs(),
                sum > 0,
                tokens::tokens(out@) == head + kind_lines(n@, depth as int, k as int),
            decreases 6 - k,
        {
            let c: u64 = n.scalar_arms[k];
            if c > 0 {
                tokens::put(out, Token::Indent(depth));
                tokens::put_text(out, "    ");
                tokens::put_text(out, tokens::scalar_tag(ScalarKind::at(k)));
                tokens::put_text(out, "  \u{d7}");
                tokens::put_int(out, c);
                tokens::put_text(out, "  (");
                tokens::put(out, Token::Percent { part: c, total: sum as u128, decimals: 1 });
                tokens::put_text(out, "%)\n");
            }
            k += 1;
            assert(tokens::tokens(out@) =~= head + kind_lines(n@, depth as int, k as int));
        }
    }
    assert(tokens::tokens(out@) =~= start + scalar_part(n@, depth as int));
}

fn put_own(out: &mut Vec<Token>, n: &Node, id: NodeId, path: &String, depth: u128)
    requires
        n@.scalar_arms.len() == 6,
        n@.scalar_obs() <= u64::MAX,
    ensures
        tokens::tokens(final(out)@) == tokens::tokens(old(out)@) + own_part(
            n@,
            id as int,
            path@,
            depth as int,
        ),
{
    let ghost start = tokens::tokens(out@);
    put_head(out, n, path, depth);
    put_kinds(out, n, depth);
    put_scalar_arms(out, n, depth);
    let ghost mid = tokens::tokens(out@);
    if let Some(ss) = &n.string_stats {
        figures::write_string_stats(out, ss, depth, "string values");
    }
    if let Some(ns) = &n.numeric_stats {
        figures::write_numeric_stats(out, ns, id, depth);
    }
    assert(tokens::tokens(out@) =~= mid + figure_part(n@, id as int, depth as int));
    assert(tokens::tokens(out@) =~= start + own_part(n@, id as int, path@, depth as int));
}

// ---------------------------------------------------------------------
// Objects
// ---------------------------------------------------------------------

pub open spec fn view_state(alive: bool) -> TokenView {
    TokenView::Text(
        if alive {
            "alive"@
        } else {
            "DROPPED"@
        },
    )
}

fn put_view_state(out: &mut Vec<Token>, alive: bool)
    ensures
        tokens::tokens(final(out)@) == tokens::tokens(old(out)@).push(view_state(alive)),
{
    if alive {
        tokens::put_text(out, "alive");
    } else {
        tokens::put_text(out, "DROPPED");
    }
}

pub open spec fn object_head(o: ObjectView, depth: int) -> Seq<TokenView> {
    seq![
        TokenView::Indent(depth),
        tokens::lit("object: "),
        tokens::num(o.obs as int),
        tokens::lit(" obs, "),
        tokens::num(o.fields.len() as int),
        tokens::lit(" unique field(s), mean "),
        TokenView::Mean { sum: o.key_count_sum as int, count: decide::at_least_one(o.obs) },
        tokens::lit(" keys/doc, record_view "),
        view_state(o.record_alive),
        tokens::lit("\n"),
    ]
}

pub open spec fn object_decision(o: ObjectView, depth: int) -> Seq<TokenView> {
    match o.map_reason() {
        Some(reason) => seq![
            TokenView::Indent(depth),
            tokens::lit("decision: MAP     ("),
            TokenView::Text(reason),
            tokens::lit(")\n"),
        ],
        None => seq![
            TokenView::Indent(depth),
            tokens::lit("decision: RECORD  ("),
            tokens::lit("stable low-cardinality key set"),
            tokens::lit(")\n"),
        ],
    }
}

/// What stands before the fields or the values of an object.
pub open spec fn object_part(o: ObjectView, depth: int) -> Seq<TokenView> {
    object_head(o, depth) + tokens::percentile_line(
        o.key_count_sketch,
        depth,
        "  keys-per-doc "@,
        true,
    ) + object_decision(o, depth) + (if o.key_stats.count > 0 {
        figures::string_lines(o.key_stats, depth, "object keys"@)
    } else {
        Seq::empty()
    })
}

pub open spec fn field_line(o: ObjectView, name: Seq<char>, obs: u64, depth: int) -> Seq<
    TokenView,
> {
    seq![
        TokenView::Indent(depth),
        tokens::lit("  ."),
        TokenView::Text(name),
        tokens::lit("  ("),
        tokens::num(obs as int),
        tokens::lit("/"),
        tokens::num(o.obs as int),
        tokens::lit(" = "),
        TokenView::Percent {
            part: obs as int,
            total: decide::at_least_one(o.obs),
            decimals: 1,
        },
        tokens::lit("%"),
        TokenView::Text(
            if obs < o.obs {
                "  nullable"@
            } else {
                "  required"@
            },
        ),
        tokens::lit(")\n"),
    ]
}

pub open spec fn map_part(o: ObjectView, wildcard: Seq<char>, depth: int) -> Seq<TokenView> {
    seq![
        TokenView::Indent(depth),
        tokens::lit("canonical pattern: "),
        TokenView::Text(wildcard),
        tokens::lit("\n"),
    ] + (if o.record_alive && o.fields.len() > 0 {
        seq![
            TokenView::Indent(depth),
            tokens::lit("(record_view still alive at "),
            tokens::num(o.fields.len() as int),
            tokens::lit(" unique keys \u{2014} kept for reporting)\n"),
        ]
    } else {
        Seq::empty()
    }) + seq![
        TokenView::Indent(depth),
        tokens::lit("map_value @ "),
        TokenView::Text(wildcard),
        tokens::lit("\n"),
    ]
}

fn put_object_head(out: &mut Vec<Token>, obj: &ObjectAcc, depth: u128)
    ensures
        tokens::tokens(final(out)@) == tokens::tokens(old(out)@) + object_head(obj@, depth as int),
{
    let total: u64 = if obj.obs == 0 {
        1
    } else {
        obj.obs
    };
    tokens::put(out, Token::Indent(depth));
    tokens::put_text(out, "object: ");
    tokens::put_int(out, obj.obs);
    tokens::put_text(out, " obs, ");
    tokens::put_int(out, obj.fields.len() as u64);
    tokens::put_text(out, " unique field(s), mean ");
    tokens::put(out, Token::Mean { sum: obj.key_count_sum as u128, count: total });
    tokens::put_text(out, " keys/doc, record_view ");
    put_view_state(out, obj.record_alive);
    tokens::put_text(out, "\n");
    assert(tokens::tokens(out@) =~= tokens::tokens(old(out)@) + object_head(obj@, depth as int));
}

fn put_object_decision(out: &mut Vec<Token>, decision: ObjectDecision, depth: u128, Ghost(o): Ghost<
    ObjectView,
>)
    requires
        match decision {
            ObjectDecision::Record { reason } => o.map_reason() is None && reason@
                == "stable low-cardinality key set"@,
            ObjectDecision::Mapping { reason } => o.map_reason() == Some(reason@),
        },
    ensures
        tokens::tokens(final(out)@) == tokens::tokens(old(out)@) + object_decision(o, depth as int),
{
    tokens::put(out, Token::Indent(depth));
    match decision {
        ObjectDecision::Record { reason } => {
            tokens::put_text(out, "decision: RECORD  (");
            tokens::put_text(out, reason);
        },
        ObjectDecision::Mapping { reason } => {
            tokens::put_text(out, "decision: MAP     (");
            tokens::put_text(out, reason);
        },
    }
    tokens::put_text(out, ")\n");
    assert(tokens::tokens(out@) =~= tokens::tokens(old(out)@) + object_decision(o, depth as int));
}

fn put_object_part(out: &mut Vec<Token>, obj: &ObjectAcc, depth: u128) -> (decision: ObjectDecision)
    ensures
        tokens::tokens(final(out)@) == tokens::tokens(old(out)@) + object_part(obj@, depth as int),
        decision is Mapping <==> obj@.map_reason() is Some,
{
    let ghost start = tokens::tokens(out@);
    let decision = decide::decide_object(obj);
    put_object_head(out, obj, depth);
    tokens::put_percentiles(out, &obj.key_count_sketch, depth, "  keys-per-doc ", true);
    put_object_decision(out, decision, depth, Ghost(obj@));
    if obj.key_stats.count > 0 {
        figures::write_string_stats(out, &obj.key_stats, depth, "object keys");
    }
    assert(tokens::tokens(out@) =~= start + object_part(obj@, depth as int));
    decision
}

fn put_field(out: &mut Vec<Token>, obj: &ObjectAcc, name: &String, obs: u64, depth: u128)
    ensures
        tokens::tokens(final(out)@) == tokens::tokens(old(out)@) + field_line(
            obj@,
            name@,
            obs,
            depth as int,
        ),
{
    let total: u64 = if obj.obs == 0 {
        1
    } else {
        obj.obs
    };
    tokens::put(out, Token::Indent(depth));
    tokens::put_text(out, "  .");
    tokens::put_text(out, name.as_str());
    tokens::put_text(out, "  (");
    tokens::put_int(out, obs);
    tokens::put_text(out, "/");
    tokens::put_int(out, obj.obs);
    tokens::put_text(out, " = ");
    tokens::put(out, Token::Percent { part: obs, total: total as u128, decimals: 1 });
    tokens::put_text(out, "%");
    if obs < obj.obs {
        tokens::put_text(out, "  nullable");
    } else {
        tokens::put_text(out, "  required");
    }
    tokens::put_text(out, ")\n");
    assert(tokens::tokens(out@) =~= tokens::tokens(old(out)@) + field_line(
        obj@,
        name@,
        obs,
        depth as int,
    ));
}

fn put_map_part(out: &mut Vec<Token>, obj: &ObjectAcc, wildcard: &String, depth: u128)
    ensures
        tokens::tokens(final(out)@) == tokens::tokens(old(out)@) + map_part(
            obj@,
            wildcard@,
            depth as int,
        ),
{
    tokens::put(out, Token::Indent(depth));
    tokens::put_text(out, "canonical pattern: ");
    tokens::put_text(out, wildcard.as_str());
    tokens::put_text(out, "\n");
    if obj.record_alive && obj.fields.len() > 0 {
        tokens::put(out, Token::Indent(depth));
        tokens::put_text(out, "(record_view still alive at ");
        tokens::put_int(out, obj.fields.len() as u64);
        tokens::put_text(out, " unique keys \u{2014} kept for reporting)\n");
    }
    tokens::put(out, Token::Indent(depth));
    tokens::put_text(out, "map_value @ ");
    tokens::put_text(out, wildcard.as_str());
    tokens::put_text(out, "\n");
    assert(tokens::tokens(out@) =~= tokens::tokens(old(out)@) + map_part(
        obj@,
        wildcard@,
        depth as int,
    ));
}

// ---------------------------------------------------------------------
// Arrays
// ---------------------------------------------------------------------

pub open spec fn array_head(a: ArrayView, depth: int) -> Seq<TokenView> {
    seq![
        TokenView::Indent(depth),
        tokens::lit("array: "),
        tokens::num(a.obs as int),
        tokens::lit(" obs, lengths "),
        tokens::num(summary::shortest(a)),
        tokens::lit(".."),
        tokens::num(a.max_length as int),
        tokens::lit(", mean "),
        TokenView::Mean { sum: a.length_sum as int, count: decide::at_least_one(a.obs) },
        tokens::lit("/doc, positional_view "),
        view_state(a.positional_alive),
        tokens::lit("\n"),
    ]
}

/// The first `k` lengths.
pub open spec fn length_lines(v: Seq<(u32, u64)>, total: int, depth: int, k: int) -> Seq<TokenView>
    decreases k,
{
    if k <= 0 {
        Seq::empty()
    } else {
        length_lines(v, total, depth, k - 1) + seq![
            TokenView::Indent(depth),
            tokens::lit("  len="),
            tokens::num(v[k - 1].0 as int),
            tokens::lit("  \u{d7}"),
            tokens::num(v[k - 1].1 as int),
            tokens::lit("  ("),
            TokenView::Percent { part: v[k - 1].1 as int, total, decimals: 1 },
            tokens::lit("%)\n"),
        ]
    }
}

pub open spec fn length_part(a: ArrayView, depth: int) -> Seq<TokenView> {
    let v = tally::listed(a.length_histogram);
    seq![TokenView::Indent(depth), tokens::lit("length distribution:\n")] + length_lines(
        v,
        decide::at_least_one(a.obs),
        depth,
        v.len() as int,
    )
}

/// The first `k` clusters.
pub open spec fn cluster_lines(v: Seq<(SigView, u64)>, depth: int, k: int) -> Seq<TokenView>
    decreases k,
{
    if k <= 0 {
        Seq::empty()
    } else {
        cluster_lines(v, depth, k - 1) + seq![
            TokenView::Indent(depth),
            tokens::lit("  \u{d7}"),
            tokens::num(v[k - 1].1 as int),
            tokens::lit("  "),
            TokenView::Text(tokens::sig_text(v[k - 1].0)),
            tokens::lit("\n"),
        ]
    }
}

pub open spec fn cluster_part(a: ArrayView, depth: int) -> Seq<TokenView> {
    let v = sketch::by_count(a.element_cluster.entries);
    seq![
        TokenView::Indent(depth),
        tokens::lit("element cluster (Space-Saving cap="),
        tokens::num(a.element_cluster.cap),
        tokens::lit("): "),
        tokens::num(v.len() as int),
        tokens::lit(" arms, "),
        tokens::num(a.element_cluster.evictions as int),
        tokens::lit(" evictions\n"),
    ] + cluster_lines(v, depth, v.len() as int)
}

/// What stands before the decision on an array.
pub open spec fn array_part(a: ArrayView, depth: int) -> Seq<TokenView> {
    array_head(a, depth) + tokens::percentile_line(a.length_sketch, depth, "  length "@, true)
        + length_part(a, depth) + cluster_part(a, depth)
}

pub open spec fn tuple_head(a: ArrayView, depth: int) -> Seq<TokenView> {
    seq![
        TokenView::Indent(depth),
        tokens::lit("decision: TUPLE  (mode_len="),
        tokens::num(a.mode().0 as int),
        tokens::lit(", mode_share="),
        TokenView::Share {
            part: a.mode_share().part as int,
            total: a.mode_share().total as int,
            decimals: 1,
        },
        tokens::lit("%)\n"),
        TokenView::Indent(depth),
        tokens::lit("positions:\n"),
    ]
}

pub open spec fn bag_head(reason: Seq<char>, wildcard: Seq<char>, depth: int) -> Seq<TokenView> {
    seq![
        TokenView::Indent(depth),
        tokens::lit("decision: BAG    ("),
        TokenView::Text(reason),
        tokens::lit(")\n"),
        TokenView::Indent(depth),
        tokens::lit("canonical pattern: "),
        TokenView::Text(wildcard),
        tokens::lit("\n"),
        TokenView::Indent(depth),
        tokens::lit("bag_value @ "),
        TokenView::Text(wildcard),
        tokens::lit("\n"),
    ]
}

/// The first `k` positions, with what was seen there.
pub open spec fn spare_lines(arena: Seq<NodeView>, a: ArrayView, depth: int, k: int) -> Seq<
    TokenView,
>
    decreases k,
{
    if k <= 0 {
        Seq::empty()
    } else {
        spare_lines(arena, a, depth, k - 1) + seq![
            TokenView::Indent(depth),
            tokens::lit("  ["),
            tokens::num(k - 1),
            tokens::lit("] "),
            tokens::num(arena[a.positional[k - 1]].obs as int),
            tokens::lit(" obs (not used by bag decision)\n"),
        ]
    }
}

pub open spec fn spare_part(arena: Seq<NodeView>, a: ArrayView, depth: int) -> Seq<TokenView> {
    if a.positional_alive && a.positional.len() > 0 {
        seq![
            TokenView::Indent(depth),
            tokens::lit("(positional view also retained at "),
            tokens::num(a.positional.len() as int),
            tokens::lit(" positions \u{2014} for completeness)\n"),
        ] + spare_lines(arena, a, depth, a.positional.len() as int)
    } else {
        Seq::empty()
    }
}

fn put_array_head(out: &mut Vec<Token>, arr: &ArrayAcc, depth: u128)
    ensures
        tokens::tokens(final(out)@) == tokens::tokens(old(out)@) + array_head(arr@, depth as int),
{
    let total: u64 = if arr.obs == 0 {
        1
    } else {
        arr.obs
    };
    let min: u32 = if arr.min_length == u32::MAX {
        0
    } else {
        arr.min_length
    };
    tokens::put(out, Token::Indent(depth));
    tokens::put_text(out, "array: ");
    tokens::put_int(out, arr.obs);
    tokens::put_text(out, " obs, lengths ");
    tokens::put_int(out, min as u64);
    tokens::put_text(out, "..");
    tokens::put_int(out, arr.max_length as u64);
    tokens::put_text(out, ", mean ");
    tokens::put(out, Token::Mean { sum: arr.length_sum as u128, count: total });
    tokens::put_text(out, "/doc, positional_view ");
    put_view_state(out, arr.positional_alive);
    tokens::put_text(out, "\n");
    assert(tokens::tokens(out@) =~= tokens::tokens(old(out)@) + array_head(arr@, depth as int));
}

fn put_lengths(out: &mut Vec<Token>, arr: &ArrayAcc, depth: u128)
    ensures
        tokens::tokens(final(out)@) == tokens::tokens(old(out)@) + length_part(arr@, depth as int),
{
    let ghost start = tokens::tokens(out@);
    let total: u64 = if arr.obs == 0 {
        1
    } else {
        arr.obs
    };
    let v = tally::entries(&arr.length_histogram);
    proof {
        tally::lemma_listed(arr@.length_histogram, v@);
    }
    tokens::put(out, Token::Indent(depth));
    tokens::put_text(out, "length distribution:\n");
    let ghost head = tokens::tokens(out@);
    let mut i: usize = 0;
    assert(head + length_lines(v@, total as int, depth as int, 0) =~= head);
    while i < v.len()
        invariant
            i <= v@.len(),
            tokens::tokens(out@) == head + length_lines(v@, total as int, depth as int, i as int),
        decreases v@.len() - i,
    {
        let (len, c) = v[i];
        tokens::put(out, Token::Indent(depth));
        tokens::put_text(out, "  len=");
        tokens::put_int(out, len as u64);
        tokens::put_text(out, "  \u{d7}");
        tokens::put_int(out, c);
        tokens::put_text(out, "  (");
        tokens::put(out, Token::Percent { part: c, total: total as u128, decimals: 1 });
        tokens::put_text(out, "%)\n");
        i += 1;
        assert(tokens::tokens(out@) =~= head + length_lines(
            v@,
            total as int,
            depth as int,
            i as int,
        ));
    }
    assert(tokens::tokens(out@) =~= start + length_part(arr@, depth as int));
}

fn put_cluster_list(out: &mut Vec<Token>, arr: &ArrayAcc, depth: u128)
    ensures
        tokens::tokens(final(out)@) == tokens::tokens(old(out)@) + cluster_part(arr@, depth as int),
{
    let ghost start = tokens::tokens(out@);
    let ghost v = sketch::by_count(arr@.element_cluster.entries);
    let entries = arr.element_cluster.entries();
    tokens::put(out, Token::Indent(depth));
    tokens::put_text(out, "element cluster (Space-Saving cap=");
    tokens::put_int(out, arr.element_cluster.cap() as u64);
    tokens::put_text(out, "): ");
    tokens::put_int(out, entries.len() as u64);
    tokens::put_text(out, " arms, ");
    tokens::put_int(out, arr.element_cluster.evictions());
    tokens::put_text(out, " evictions\n");
    let ghost head = tokens::tokens(out@);
    let mut i: usize = 0;
    assert(head + cluster_lines(v, depth as int, 0) =~= head);
    while i < entries.len()
        invariant
            i <= entries@.len(),
            entries@.map_values(|e: (Sig, u64)| (e.0@, e.1)) == v,
            tokens::tokens(out@) == head + cluster_lines(v, depth as int, i as int),
        decreases entries@.len() - i,
    {
        assert(v[i as int] == (entries@[i as int].0@, entries@[i as int].1));
        tokens::put(out, Token::Indent(depth));
        tokens::put_text(out, "  \u{d7}");
        tokens::put_int(out, entries[i].1);
        tokens::put_text(out, "  ");
        tokens::put_sig(out, &entries[i].0);
        tokens::put_text(out, "\n");
        i += 1;
        assert(tokens::tokens(out@) =~= head + cluster_lines(v, depth as int, i as int));
    }
    assert(tokens::tokens(out@) =~= start + cluster_part(arr@, depth as int));
}

fn put_array_part(out: &mut Vec<Token>, arr: &ArrayAcc, depth: u128)
    ensures
        tokens::tokens(final(out)@) == tokens::tokens(old(out)@) + array_part(arr@, depth as int),
{
    let ghost start = tokens::tokens(out@);
    put_array_head(out, arr, depth);
    tokens::put_percentiles(out, &arr.length_sketch, depth, "  length ", true);
    put_lengths(out, arr, depth);
    put_cluster_list(out, arr, depth);
    assert(tokens::tokens(out@) =~= start + array_part(arr@, depth as int));
}

fn put_tuple_head(
    out: &mut Vec<Token>,
    mode_len: u32,
    mode_share: Share,
    depth: u128,
    Ghost(a): Ghost<ArrayView>,
)
    requires
        mode_len == a.mode().0,
        mode_share == a.mode_share(),
    ensures
        tokens::tokens(final(out)@) == tokens::tokens(old(out)@) + tuple_head(a, depth as int),
{
    tokens::put(out, Token::Indent(depth));
    tokens::put_text(out, "decision: TUPLE  (mode_len=");
    tokens::put_int(out, mode_len as u64);
    tokens::put_text(out, ", mode_share=");
    tokens::put(out, Token::Share { part: mode_share.part, total: mode_share.total, decimals: 1 });
    tokens::put_text(out, "%)\n");
    tokens::put(out, Token::Indent(depth));
    tokens::put_text(out, "positions:\n");
    assert(tokens::tokens(out@) =~= tokens::tokens(old(out)@) + tuple_head(a, depth as int));
}

fn put_bag_head(out: &mut Vec<Token>, reason: &str, wildcard: &String, depth: u128)
    ensures
        tokens::tokens(final(out)@) == tokens::tokens(old(out)@) + bag_head(
            reason@,
            wildcard@,
            depth as int,
        ),
{
    tokens::put(out, Token::Indent(depth));
    tokens::put_text(out, "decision: BAG    (");
    tokens::put_text(out, reason);
    tokens::put_text(out, ")\n");
    tokens::put(out, Token::Indent(depth));
    tokens::put_text(out, "canonical pattern: ");
    tokens::put_text(out, wildcard.as_str());
    tokens::put_text(out, "\n");
    tokens::put(out, Token::Indent(depth));
    tokens::put_text(out, "bag_value @ ");
    tokens::put_text(out, wildcard.as_str());
    tokens::put_text(out, "\n");
    assert(tokens::tokens(out@) =~= tokens::tokens(old(out)@) + bag_head(
        reason@,
        wildcard@,
        depth as int,
    ));
}

fn put_spare(out: &mut Vec<Token>, nodes: &Vec<Node>, arr: &ArrayAcc, depth: u128)
    requires
        forall|i: int|
            0 <= i < arr.positional@.len() ==> #[trigger] arr.positional@[i] < nodes@.len(),
    ensures
        tokens::tokens(final(out)@) == tokens::tokens(old(out)@) + spare_part(
            engine::nodes(nodes@),
            arr@,
            depth as int,
        ),
{
    let ghost start = tokens::tokens(out@);
    let ghost arena = engine::nodes(nodes@);
    if arr.positional_alive && arr.positional.len() > 0 {
        tokens::put(out, Token::Indent(depth));
        tokens::put_text(out, "(positional view also retained at ");
        tokens::put_int(out, arr.positional.len() as u64);
        tokens::put_text(out, " positions \u{2014} for completeness)\n");
        let ghost head = tokens::tokens(out@);
        let mut i: usize = 0;
        assert(head + spare_lines(arena, arr@, depth as int, 0) =~= head);
        while i < arr.positional.len()
            invariant
                i <= arr.positional@.len(),
                arena == engine::nodes(nodes@),
                forall|i: int|
                    0 <= i < arr.positional@.len() ==> #[trigger] arr.positional@[i] < nodes@.len(),
                tokens::tokens(out@) == head + spare_lines(arena, arr@, depth as int, i as int),
            decreases arr.positional@.len() - i,
        {
            let id: usize = arr.positional[i];
            assert(arr@.positional[i as int] == id);
            assert(arena[id as int] == nodes@[id as int]@);
            tokens::put(out, Token::Indent(depth));
            tokens::put_text(out, "  [");
            tokens::put_int(out, i as u64);
            tokens::put_text(out, "] ");
            tokens::put_int(out, nodes[id].obs);
            tokens::put_text(out, " obs (not used by bag decision)\n");
            i += 1;
            assert(tokens::tokens(out@) =~= head + spare_lines(arena, arr@, depth as int, i as int));
        }
    }
    assert(tokens::tokens(out@) =~= start + spare_part(arena, arr@, depth as int));
}

// ---------------------------------------------------------------------
// The tree
// ---------------------------------------------------------------------

/// The lines of a child of node `id`.
pub open spec fn child_outline(
    arena: Seq<NodeView>,
    id: int,
    child: int,
    path: Seq<char>,
    depth: int,
) -> Seq<TokenView>
    decreases arena.len() - id, 0int, 0int,
{
    if id < child < arena.len() {
        outline(arena, child, path, depth)
    } else {
        Seq::empty()
    }
}

/// The lines of the first `k` fields.
pub open spec fn field_outlines(
    arena: Seq<NodeView>,
    id: int,
    path: Seq<char>,
    depth: int,
    k: int,
) -> Seq<TokenView>
    decreases arena.len() - id, 1int, k,
{
    if k <= 0 {
        Seq::empty()
    } else {
        let o = arena[id].object->Some_0;
        let (name, child) = o.fields[k - 1];
        field_outlines(arena, id, path, depth, k - 1) + field_line(
            o,
            name,
            arena[child].obs,
            depth,
        ) + child_outline(arena, id, child, field_path(path, name), depth + 2)
    }
}

/// The lines of the first `k` positions.
pub open spec fn position_outlines(
    arena: Seq<NodeView>,
    id: int,
    path: Seq<char>,
    depth: int,
    k: int,
) -> Seq<TokenView>
    decreases arena.len() - id, 1int, k,
{
    if k <= 0 {
        Seq::empty()
    } else {
        let a = arena[id].array->Some_0;
        position_outlines(arena, id, path, depth, k - 1) + child_outline(
            arena,
            id,
            a.positional[k - 1],
            index_path(path, k - 1),
            depth + 1,
        )
    }
}

pub open spec fn object_outline(arena: Seq<NodeView>, id: int, path: Seq<char>, depth: int) -> Seq<
    TokenView,
>
    decreases arena.len() - id, 2int, 0int,
{
    let o = arena[id].object->Some_0;
    object_part(o, depth) + (if o.map_reason() is Some {
        let wildcard = extended(path, ".*"@, ".*"@);
        map_part(o, wildcard, depth) + child_outline(arena, id, o.map_value, wildcard, depth + 1)
    } else {
        seq![TokenView::Indent(depth), tokens::lit("fields:\n")] + field_outlines(
            arena,
            id,
            path,
            depth,
            o.fields.len() as int,
        )
    })
}

pub open spec fn array_outline(arena: Seq<NodeView>, id: int, path: Seq<char>, depth: int) -> Seq<
    TokenView,
>
    decreases arena.len() - id, 2int, 0int,
{
    let a = arena[id].array->Some_0;
    array_part(a, depth) + (match a.bag_reason() {
        Some(reason) => {
            let wildcard = extended(path, ".[*]"@, "[*]"@);
            bag_head(reason, wildcard, depth) + child_outline(
                arena,
                id,
                a.bag_value,
                wildcard,
                depth + 1,
            ) + spare_part(arena, a, depth)
        },
        None => tuple_head(a, depth) + position_outlines(arena, id, path, depth, finish::arity(a)),
    })
}

/// The lines of a node and of all that is below it.
pub open spec fn outline(arena: Seq<NodeView>, id: int, path: Seq<char>, depth: int) -> Seq<
    TokenView,
>
    decreases arena.len() - id, 3int, 0int,
{
    let n = arena[id];
    own_part(n, id, path, depth) + (if n.object is Some {
        object_outline(arena, id, path, depth + 1)
    } else {
        Seq::empty()
    }) + (if n.array is Some {
        array_outline(arena, id, path, depth + 1)
    } else {
        Seq::empty()
    })
}

/// There is room to indent: three levels for each node below.
pub open spec fn room(size: int, id: int, depth: int) -> bool {
    depth + 3 * (size - id) <= u128::MAX
}

fn write_object(
    out: &mut Vec<Token>,
    nodes: &Vec<Node>,
    id: NodeId,
    obj: &ObjectAcc,
    path: &String,
    depth: u128,
)
    requires
        finish::linked(engine::nodes(nodes@)),
        summary::summable(engine::nodes(nodes@)),
        id < nodes@.len(),
        nodes@[id as int].object == Some(*obj),
        room(nodes@.len() as int, id as int, depth - 1),
    ensures
        tokens::tokens(final(out)@) == tokens::tokens(old(out)@) + object_outline(
            engine::nodes(nodes@),
            id as int,
            path@,
            depth as int,
        ),
    decreases nodes@.len() - id, 2int,
{
    let ghost start = tokens::tokens(out@);
    let ghost all = engine::nodes(nodes@);
    let ghost o = obj@;
    proof {
        assert(all[id as int] == nodes@[id as int]@);
        assert(all[id as int].object == Some(o));
        assert(finish::linked_node(all[id as int], id as int, all.len() as int));
    }
    let decision = put_object_part(out, obj, depth);
    match decision {
        ObjectDecision::Record { .. } => {
            tokens::put(out, Token::Indent(depth));
            tokens::put_text(out, "fields:\n");
            let ghost head = tokens::tokens(out@);
            assert(head =~= start + (object_part(o, depth as int) + seq![
                TokenView::Indent(depth as int),
                tokens::lit("fields:\n"),
            ]));
            let mut i: usize = 0;
            assert(head + field_outlines(all, id as int, path@, depth as int, 0) =~= head);
            while i < obj.fields.len()
                invariant
                    i <= obj.fields@.len(),
                    all == engine::nodes(nodes@),
                    finish::linked(all),
                    summary::summable(all),
                    id < nodes@.len(),
                    all[id as int].object == Some(obj@),
                    finish::linked_node(all[id as int], id as int, all.len() as int),
                    room(nodes@.len() as int, id as int, depth - 1),
                    tokens::tokens(out@) == head + field_outlines(
                        all,
                        id as int,
                        path@,
                        depth as int,
                        i as int,
                    ),
                decreases obj.fields@.len() - i,
            {
                let ghost before = tokens::tokens(out@);
                let name = &obj.fields[i].0;
                let child: usize = obj.fields[i].1;
                assert(obj@.fields[i as int] == (name@, child as int));
                assert(all[child as int] == nodes@[child as int]@);
                put_field(out, obj, name, nodes[child].obs, depth);
                let below = path_of_field(path, name);
                assert(child_outline(
                    all,
                    id as int,
                    child as int,
                    field_path(path@, name@),
                    depth + 2,
                ) == outline(all, child as int, below@, depth + 2));
                write_node(out, nodes, child, &below, depth + 2);
                i += 1;
                proof {
                    let line = field_line(obj@, name@, nodes@[child as int].obs, depth as int);
                    let more = outline(all, child as int, below@, depth + 2);
                    assert(tokens::tokens(out@) =~= before + line + more);
                    assert(tokens::tokens(out@) =~= head + (field_outlines(
                        all,
                        id as int,
                        path@,
                        depth as int,
                        i - 1,
                    ) + line + more));
                }
            }
            proof {
                let list = field_outlines(
                    all,
                    id as int,
                    path@,
                    depth as int,
                    o.fields.len() as int,
                );
                let label = seq![TokenView::Indent(depth as int), tokens::lit("fields:\n")];
                assert(start + (object_part(o, depth as int) + label) + list =~= start + (
                object_part(o, depth as int) + (label + list)));
            }
        },
        ObjectDecision::Mapping { .. } => {
            let wildcard = extend(path, ".*", ".*");
            put_map_part(out, obj, &wildcard, depth);
            let child: usize = obj.map_value;
            assert(child_outline(all, id as int, child as int, wildcard@, depth + 1) == outline(
                all,
                child as int,
                wildcard@,
                depth + 1,
            ));
            write_node(out, nodes, child, &wildcard, depth + 1);
            proof {
                let part = object_part(o, depth as int);
                let map = map_part(o, wildcard@, depth as int);
                let more = outline(all, child as int, wildcard@, depth + 1);
                assert(start + part + map + more =~= start + (part + (map + more)));
            }
        },
    }
}

fn write_array(
    out: &mut Vec<Token>,
    nodes: &Vec<Node>,
    id: NodeId,
    arr: &ArrayAcc,
    path: &String,
    depth: u128,
)
    requires
        finish::linked(engine::nodes(nodes@)),
        summary::summable(engine::nodes(nodes@)),
        id < nodes@.len(),
        nodes@[id as int].array == Some(*arr),
        room(nodes@.len() as int, id as int, depth - 1),
    ensures
        tokens::tokens(final(out)@) == tokens::tokens(old(out)@) + array_outline(
            engine::nodes(nodes@),
            id as int,
            path@,
            depth as int,
        ),
    decreases nodes@.len() - id, 2int,
{
    let ghost start = tokens::tokens(out@);
    let ghost all = engine::nodes(nodes@);
    let ghost a = arr@;
    proof {
        assert(all[id as int] == nodes@[id as int]@);
        assert(all[id as int].array == Some(a));
        assert(finish::linked_node(all[id as int], id as int, all.len() as int));
    }
    put_array_part(out, arr, depth);
    let ghost part = array_part(a, depth as int);
    match decide::decide_array(arr) {
        ArrayDecision::Tuple { mode_len, mode_share } => {
            put_tuple_head(out, mode_len, mode_share, depth, Ghost(a));
            let ghost head = tokens::tokens(out@);
            assert(head =~= start + (part + tuple_head(a, depth as int)));
            let take: usize = if (mode_len as usize) < arr.positional.len() {
                mode_len as usize
            } else {
                arr.positional.len()
            };
            let mut i: usize = 0;
            assert(head + position_outlines(all, id as int, path@, depth as int, 0) =~= head);
            while i < take
                invariant
                    i <= take <= arr.positional@.len(),
                    all == engine::nodes(nodes@),
                    finish::linked(all),
                    summary::summable(all),
                    id < nodes@.len(),
                    all[id as int].array == Some(arr@),
                    finish::linked_node(all[id as int], id as int, all.len() as int),
                    room(nodes@.len() as int, id as int, depth - 1),
                    tokens::tokens(out@) == head + position_outlines(
                        all,
                        id as int,
                        path@,
                        depth as int,
                        i as int,
                    ),
                decreases take - i,
            {
                let child: usize = arr.positional[i];
                assert(arr@.positional[i as int] == child);
                let below = path_of_index(path, i);
                assert(child_outline(all, id as int, child as int, below@, depth + 1) == outline(
                    all,
                    child as int,
                    below@,
                    depth + 1,
                ));
                write_node(out, nodes, child, &below, depth + 1);
                i += 1;
                assert(tokens::tokens(out@) =~= head + (position_outlines(
                    all,
                    id as int,
                    path@,
                    depth as int,
                    i - 1,
                ) + outline(all, child as int, below@, depth + 1)));
            }
            proof {
                let list = position_outlines(
                    all,
                    id as int,
                    path@,
                    depth as int,
                    finish::arity(a),
                );
                assert(start + (part + tuple_head(a, depth as int)) + list =~= start + (part + (
                tuple_head(a, depth as int) + list)));
            }
        },
        ArrayDecision::Bag { reason } => {
            let wildcard = extend(path, ".[*]", "[*]");
            put_bag_head(out, reason, &wildcard, depth);
            let ghost head = bag_head(reason@, wildcard@, depth as int);
            assert(tokens::tokens(out@) =~= start + part + head);
            let child: usize = arr.bag_value;
            assert(child_outline(all, id as int, child as int, wildcard@, depth + 1) == outline(
                all,
                child as int,
                wildcard@,
                depth + 1,
            ));
            write_node(out, nodes, child, &wildcard, depth + 1);
            assert forall|i: int| 0 <= i < arr.positional@.len() implies #[trigger] arr.positional@[i]
                < nodes@.len() by {
                assert(a.positional[i] == arr.positional@[i]);
            }
            put_spare(out, nodes, arr, depth);
            proof {
                let more = outline(all, child as int, wildcard@, depth + 1);
                let spare = spare_part(all, a, depth as int);
                assert(start + part + head + more + spare =~= start + (part + (head + more
                    + spare)));
            }
        },
    }
}

/// Writes the lines of a node and of all that is below it.
pub fn write_node(
    out: &mut Vec<Token>,
    nodes: &Vec<Node>,
    id: NodeId,
    path: &String,
    depth: u128,
)
    requires
        finish::linked(engine::nodes(nodes@)),
        summary::summable(engine::nodes(nodes@)),
        id < nodes@.len(),
        room(nodes@.len() as int, id as int, depth as int),
    ensures
        tokens::tokens(final(out)@) == tokens::tokens(old(out)@) + outline(
            engine::nodes(nodes@),
            id as int,
            path@,
            depth as int,
        ),
    decreases nodes@.len() - id, 3int,
{
    let ghost start = tokens::tokens(out@);
    let ghost all = engine::nodes(nodes@);
    assert(all[id as int] == nodes@[id as int]@);
    let n = &nodes[id];
    put_own(out, n, id, path, depth);
    let ghost own = own_part(n@, id as int, path@, depth as int);
    if let Some(obj) = &n.object {
        write_object(out, nodes, id, obj, path, depth + 1);
    }
    let ghost some = if n.object is Some {
        object_outline(all, id as int, path@, depth + 1)
    } else {
        Seq::empty()
    };
    assert(tokens::tokens(out@) =~= start + own + some);
    if let Some(arr) = &n.array {
        write_array(out, nodes, id, arr, path, depth + 1);
    }
    proof {
        let last = if n.array is Some {
            array_outline(all, id as int, path@, depth + 1)
        } else {
            Seq::empty()
        };
        assert(tokens::tokens(out@) =~= start + (own + some + last));
    }
}

} // verus!
