//! The plain-language summary of what was observed.
use crate::analyze::arena::{ArrayAcc, ArrayView, Node, NodeView, ObjectAcc, ObjectView};
use crate::analyze::decide;
use crate::analyze::decide::{ArrayDecision, ObjectDecision};
use crate::analyze::engine;
use crate::analyze::figures;
use crate::analyze::finish;
use crate::analyze::formats::StringFormat;
use crate::analyze::sig::ScalarKind;
use crate::analyze::stats::{
    NumericStats, NumericStatsView, Share, StringStats, StringStatsView,
};
use crate::analyze::tokens;
use crate::analyze::tokens::{Token, TokenView};
use crate::sketch;
use vstd::prelude::*;

verus! {

/// The plural of a word that takes an `s`.
pub open spec fn plural(n: int) -> TokenView {
    TokenView::Text(
        if n == 1 {
            ""@
        } else {
            "s"@
        },
    )
}

fn put_plural(out: &mut Vec<Token>, n: usize)
    ensures
        tokens::tokens(final(out)@) == tokens::tokens(old(out)@).push(plural(n as int)),
{
    if n == 1 {
        tokens::put_text(out, "");
    } else {
        tokens::put_text(out, "s");
    }
}

// ---------------------------------------------------------------------
// Scalars
// ---------------------------------------------------------------------

/// The first `k` scalar kinds, each with its share.
pub open spec fn arm_list(v: Seq<(u32, u64)>, total: int, k: int) -> Seq<TokenView>
    decreases k,
{
    if k <= 0 {
        Seq::empty()
    } else {
        let (kind, c) = v[k - 1];
        arm_list(v, total, k - 1) + figures::between(k, ", ") + seq![
            TokenView::Text(tokens::name_of_kind(ScalarKind::nth(kind as int))),
            tokens::lit(" "),
            TokenView::Percent { part: c as int, total, decimals: 0 },
            tokens::lit("%"),
        ]
    }
}

/// The scalar kinds at a node: one by its name, more by their shares.
pub open spec fn scalar_words(n: NodeView) -> Seq<TokenView> {
    let arms = figures::seen(n.scalar_arms, 6);
    let v = sketch::by_count(arms);
    if arms.len() == 1 {
        seq![TokenView::Text(tokens::name_of_kind(ScalarKind::nth(arms[0].0 as int)))]
    } else {
        seq![
            tokens::lit("variant of "),
            tokens::num(v.len() as int),
            tokens::lit(" \u{2014} "),
        ] + arm_list(v, decide::at_least_one(n.scalar_obs() as u64), v.len() as int)
    }
}

fn kind_at(place: u32) -> (k: ScalarKind)
    ensures
        k == ScalarKind::nth(place as int),
{
    if place < 5 {
        ScalarKind::at(place as usize)
    } else {
        ScalarKind::String
    }
}

/// How many scalars were seen at a node.
pub fn scalar_total(n: &Node) -> (r: u64)
    requires
        n@.scalar_arms.len() == 6,
        n@.scalar_obs() <= u64::MAX,
    ensures
        r == n@.scalar_obs(),
{
    n.scalar_arms[0] + n.scalar_arms[1] + n.scalar_arms[2] + n.scalar_arms[3] + n.scalar_arms[4]
        + n.scalar_arms[5]
}

pub fn scalar_arms_summary(out: &mut Vec<Token>, n: &Node)
    requires
        n@.scalar_arms.len() == 6,
        n@.scalar_obs() <= u64::MAX,
    ensures
        tokens::tokens(final(out)@) == tokens::tokens(old(out)@) + scalar_words(n@),
{
    let ghost start = tokens::tokens(out@);
    let ghost arms = figures::seen(n@.scalar_arms, 6);
    let v = figures::ranked_counts(&n.scalar_arms);
    proof {
        lemma_one_arm(arms);
    }
    if v.len() == 1 {
        tokens::put_text(out, tokens::scalar_name(kind_at(v[0].0)));
        assert(tokens::tokens(out@) =~= start + scalar_words(n@));
        return ;
    }
    let sum: u64 = scalar_total(n);
    let total: u64 = if sum == 0 {
        1
    } else {
        sum
    };
    tokens::put_text(out, "variant of ");
    tokens::put_int(out, v.len() as u64);
    tokens::put_text(out, " \u{2014} ");
    let ghost head = tokens::tokens(out@);
    let mut i: usize = 0;
    assert(head + arm_list(v@, total as int, 0) =~= head);
    while i < v.len()
        invariant
            i <= v@.len(),
            tokens::tokens(out@) == head + arm_list(v@, total as int, i as int),
        decreases v@.len() - i,
    {
        let (kind, c) = v[i];
        if i > 0 {
            tokens::put_text(out, ", ");
        }
        tokens::put_text(out, tokens::scalar_name(kind_at(kind)));
        tokens::put_text(out, " ");
        tokens::put(out, Token::Percent { part: c, total: total as u128, decimals: 0 });
        tokens::put_text(out, "%");
        i += 1;
        assert(tokens::tokens(out@) =~= head + arm_list(v@, total as int, i as int));
    }
    assert(tokens::tokens(out@) =~= start + scalar_words(n@));
}

/// Ranking keeps the number of arms, and one arm is itself.
proof fn lemma_one_arm(arms: Seq<(u32, u64)>)
    ensures
        sketch::by_count(arms).len() == arms.len(),
        arms.len() == 1 ==> sketch::by_count(arms)[0] == arms[0],
{
    sketch::laws::law_entries_are_ranked(arms);
    if arms.len() == 1 {
        assert(arms.drop_last() =~= Seq::empty());
        assert(sketch::by_count(arms.drop_last()) =~= Seq::empty());
        assert(sketch::by_count(arms) =~= Seq::empty().push(arms[0]));
    }
}

// ---------------------------------------------------------------------
// Strings
// ---------------------------------------------------------------------

/// What nine in ten strings have in common: a format, or, of those without
/// one, a skeleton.
pub open spec fn pattern_line(ss: StringStatsView, noun: Seq<char>) -> Seq<TokenView> {
    match ss.dominant_format() {
        Some((f, share)) => if !share.dominates() {
            Seq::empty()
        } else if f == StringFormat::Other {
            match ss.dominant_skeleton() {
                Some((sk, sk_share)) => if sk_share.dominates() {
                    seq![
                        tokens::lit("  "),
                        TokenView::Text(noun),
                        tokens::lit(" follow pattern `"),
                        TokenView::Text(sk),
                        tokens::lit("` ("),
                        TokenView::Percent {
                            part: sk_share.part as int,
                            total: sk_share.total as int,
                            decimals: 0,
                        },
                        tokens::lit("% of unrecognized strings; lengths "),
                        tokens::num(ss.min_len as int),
                        tokens::lit(".."),
                        tokens::num(ss.max_len as int),
                        tokens::lit(").\n"),
                    ]
                } else {
                    Seq::empty()
                },
                None => Seq::empty(),
            }
        } else {
            seq![
                tokens::lit("  "),
                TokenView::Text(noun),
                tokens::lit(" are "),
                TokenView::Percent {
                    part: share.part as int,
                    total: share.total as int,
                    decimals: 0,
                },
                tokens::lit("% "),
                TokenView::Text(tokens::name_of_format(f)),
                tokens::lit(" (lengths "),
                tokens::num(ss.min_len as int),
                tokens::lit(".."),
                tokens::num(ss.max_len as int),
                tokens::lit(").\n"),
            ]
        },
        None => Seq::empty(),
    }
}

fn put_share(out: &mut Vec<Token>, share: Share)
    ensures
        tokens::tokens(final(out)@) == tokens::tokens(old(out)@).push(
            TokenView::Percent { part: share.part as int, total: share.total as int, decimals: 0 },
        ),
{
    tokens::put(out, Token::Percent { part: share.part, total: share.total, decimals: 0 });
}

fn put_pattern(out: &mut Vec<Token>, ss: &StringStats, noun: &str)
    ensures
        tokens::tokens(final(out)@) == tokens::tokens(old(out)@) + pattern_line(ss@, noun@),
{
    let ghost start = tokens::tokens(out@);
    if let Some((f, share)) = ss.dominant_format() {
        if share.is_dominant() {
            if f == StringFormat::Other {
                if let Some((sk, sk_share)) = ss.dominant_skeleton() {
                    if sk_share.is_dominant() {
                        tokens::put_text(out, "  ");
                        tokens::put_text(out, noun);
                        tokens::put_text(out, " follow pattern `");
                        tokens::put_text(out, sk.as_str());
                        tokens::put_text(out, "` (");
                        put_share(out, sk_share);
                        tokens::put_text(out, "% of unrecognized strings; lengths ");
                        tokens::put_int(out, ss.min_len as u64);
                        tokens::put_text(out, "..");
                        tokens::put_int(out, ss.max_len as u64);
                        tokens::put_text(out, ").\n");
                    }
                }
            } else {
                tokens::put_text(out, "  ");
                tokens::put_text(out, noun);
                tokens::put_text(out, " are ");
                put_share(out, share);
                tokens::put_text(out, "% ");
                tokens::put_text(out, tokens::format_name(f));
                tokens::put_text(out, " (lengths ");
                tokens::put_int(out, ss.min_len as u64);
                tokens::put_text(out, "..");
                tokens::put_int(out, ss.max_len as u64);
                tokens::put_text(out, ").\n");
            }
        }
    }
    assert(tokens::tokens(out@) =~= start + pattern_line(ss@, noun@));
}

// ---------------------------------------------------------------------
// Numbers
// ---------------------------------------------------------------------

/// The range of the numbers, whether they look like epoch values, and
/// whether they are long-tailed.
pub open spec fn number_line(ns: NumericStatsView) -> Seq<TokenView> {
    if ns.count == 0 {
        Seq::empty()
    } else {
        seq![tokens::lit("  Numbers: ")] + figures::range_words(ns) + (match ns.epoch_guess() {
            Some(e) => seq![
                tokens::lit(" \u{2014} looks like "),
                TokenView::Text(figures::name_of_epoch(e)),
            ],
            None => Seq::empty(),
        }) + (if ns.sketch.count > 0 {
            seq![
                TokenView::LongTail {
                    middle: ns.sketch.quantile(1, 2)->Some_0,
                    upper: ns.sketch.quantile(99, 100)->Some_0,
                    largest: ns.sketch.max,
                    whole: ns.all_integer_valued(),
                },
            ]
        } else {
            Seq::empty()
        }) + seq![tokens::lit(".\n")]
    }
}

fn put_numbers(out: &mut Vec<Token>, ns: &NumericStats)
    ensures
        tokens::tokens(final(out)@) == tokens::tokens(old(out)@) + number_line(ns@),
{
    let ghost start = tokens::tokens(out@);
    if ns.count > 0 {
        tokens::put_text(out, "  Numbers: ");
        figures::range_hint(out, ns);
        if let Some(e) = ns.epoch_guess() {
            tokens::put_text(out, " \u{2014} looks like ");
            tokens::put_text(out, figures::epoch_name(e));
        }
        match (ns.sketch.quantile(1, 2), ns.sketch.quantile(99, 100)) {
            (Some(middle), Some(upper)) => {
                tokens::put(
                    out,
                    Token::LongTail {
                        middle,
                        upper,
                        largest: ns.sketch.largest(),
                        whole: ns.all_integer_valued(),
                    },
                );
            },
            _ => {},
        }
        tokens::put_text(out, ".\n");
    }
    assert(tokens::tokens(out@) =~= start + number_line(ns@));
}

// ---------------------------------------------------------------------
// Objects
// ---------------------------------------------------------------------

/// The names of the first `k` fields that every object has, or of those that
/// some lack.
pub open spec fn names_where(
    arena: Seq<NodeView>,
    o: ObjectView,
    always: bool,
    k: int,
) -> Seq<Seq<char>>
    decreases k,
{
    if k <= 0 {
        Seq::empty()
    } else {
        let before = names_where(arena, o, always, k - 1);
        if (arena[o.fields[k - 1].1].obs >= o.obs) == always {
            before.push(o.fields[k - 1].0)
        } else {
            before
        }
    }
}

pub open spec fn name_line(label: &str, names: Seq<Seq<char>>) -> Seq<TokenView> {
    if names.len() == 0 {
        Seq::empty()
    } else {
        seq![tokens::lit(label)] + tokens::truncated(names, 8) + seq![tokens::lit(".\n")]
    }
}

pub open spec fn record_lines(
    arena: Seq<NodeView>,
    o: ObjectView,
    subject: Seq<char>,
) -> Seq<TokenView> {
    let n = o.fields.len() as int;
    let required = names_where(arena, o, true, n);
    let optional = names_where(arena, o, false, n);
    seq![
        TokenView::Text(subject),
        tokens::lit(" is a record: "),
        tokens::num(required.len() as int),
        tokens::lit(" required field"),
        plural(required.len() as int),
        tokens::lit(", "),
        tokens::num(optional.len() as int),
        tokens::lit(" optional.\n"),
    ] + name_line("  Required: ", required) + name_line("  Optional: ", optional)
}

/// What the values of a map are.
pub open spec fn value_line(v: NodeView) -> Seq<TokenView> {
    match v.object {
        Some(o) => if o.map_reason() is Some {
            seq![tokens::lit("  Map values are themselves maps.\n")]
        } else {
            seq![
                tokens::lit("  Map values are records with "),
                tokens::num(o.fields.len() as int),
                tokens::lit(" field"),
                plural(o.fields.len() as int),
                tokens::lit(" (see report below for the field list).\n"),
            ]
        },
        None => if v.has_scalars() {
            seq![tokens::lit("  Map values are ")] + scalar_words(v) + seq![
                tokens::lit(" (scalar).\n"),
            ]
        } else if v.array is Some {
            seq![tokens::lit("  Map values are arrays.\n")]
        } else {
            Seq::empty()
        },
    }
}

pub open spec fn map_lines(
    arena: Seq<NodeView>,
    o: ObjectView,
    reason: Seq<char>,
    subject: Seq<char>,
) -> Seq<TokenView> {
    seq![
        TokenView::Text(subject),
        tokens::lit(" is a map ("),
        TokenView::Text(reason),
        tokens::lit("; mean "),
        TokenView::Mean { sum: o.key_count_sum as int, count: decide::at_least_one(o.obs) },
        tokens::lit(" keys/doc, "),
        tokens::num(o.fields.len() as int),
        tokens::lit(" unique key"),
        plural(o.fields.len() as int),
        tokens::lit(" captured).\n"),
    ] + pattern_line(o.key_stats, "Keys"@) + value_line(arena[o.map_value])
}

pub open spec fn object_lines(
    arena: Seq<NodeView>,
    o: ObjectView,
    subject: Seq<char>,
) -> Seq<TokenView> {
    match o.map_reason() {
        Some(reason) => map_lines(arena, o, reason, subject),
        None => record_lines(arena, o, subject),
    }
}

/// The counters of the nodes can be summed up.
pub open spec fn summable(arena: Seq<NodeView>) -> bool {
    forall|i: int|
        0 <= i < arena.len() ==> (#[trigger] arena[i]).scalar_arms.len() == 6
            && arena[i].scalar_obs() <= u64::MAX
}

fn find_names(nodes: &Vec<Node>, obj: &ObjectAcc, always: bool) -> (r: Vec<String>)
    requires
        forall|i: int|
            0 <= i < obj.fields@.len() ==> (#[trigger] obj.fields@[i]).1 < nodes@.len(),
    ensures
        tokens::texts(r@) == names_where(
            engine::nodes(nodes@),
            obj@,
            always,
            obj@.fields.len() as int,
        ),
{
    let ghost arena = engine::nodes(nodes@);
    let mut out: Vec<String> = Vec::new();
    let mut i: usize = 0;
    assert(tokens::texts(out@) =~= names_where(arena, obj@, always, 0));
    while i < obj.fields.len()
        invariant
            i <= obj.fields@.len(),
            arena == engine::nodes(nodes@),
            forall|i: int|
                0 <= i < obj.fields@.len() ==> (#[trigger] obj.fields@[i]).1 < nodes@.len(),
            tokens::texts(out@) == names_where(arena, obj@, always, i as int),
        decreases obj.fields@.len() - i,
    {
        let id: usize = obj.fields[i].1;
        assert(obj@.fields[i as int] == (obj.fields@[i as int].0@, id as int));
        assert(arena[id as int] == nodes@[id as int]@);
        let ghost before = tokens::texts(out@);
        if (nodes[id].obs >= obj.obs) == always {
            out.push(obj.fields[i].0.clone());
            assert(tokens::texts(out@) =~= before.push(obj.fields@[i as int].0@));
        }
        i += 1;
    }
    out
}

fn put_names(out: &mut Vec<Token>, label: &str, names: &Vec<String>)
    ensures
        tokens::tokens(final(out)@) == tokens::tokens(old(out)@) + name_line(
            label,
            tokens::texts(names@),
        ),
{
    let ghost start = tokens::tokens(out@);
    if names.len() > 0 {
        tokens::put_text(out, label);
        tokens::join_truncated(out, names, 8);
        tokens::put_text(out, ".\n");
    }
    assert(tokens::tokens(out@) =~= start + name_line(label, tokens::texts(names@)));
}

fn summarize_record(out: &mut Vec<Token>, nodes: &Vec<Node>, obj: &ObjectAcc, subject: &str)
    requires
        forall|i: int|
            0 <= i < obj.fields@.len() ==> (#[trigger] obj.fields@[i]).1 < nodes@.len(),
    ensures
        tokens::tokens(final(out)@) == tokens::tokens(old(out)@) + record_lines(
            engine::nodes(nodes@),
            obj@,
            subject@,
        ),
{
    let ghost start = tokens::tokens(out@);
    let required = find_names(nodes, obj, true);
    let optional = find_names(nodes, obj, false);
    tokens::put_text(out, subject);
    tokens::put_text(out, " is a record: ");
    tokens::put_int(out, required.len() as u64);
    tokens::put_text(out, " required field");
    put_plural(out, required.len());
    tokens::put_text(out, ", ");
    tokens::put_int(out, optional.len() as u64);
    tokens::put_text(out, " optional.\n");
    put_names(out, "  Required: ", &required);
    put_names(out, "  Optional: ", &optional);
    assert(tokens::tokens(out@) =~= start + record_lines(engine::nodes(nodes@), obj@, subject@));
}

fn put_map_values(out: &mut Vec<Token>, v: &Node)
    requires
        v@.scalar_arms.len() == 6,
        v@.scalar_obs() <= u64::MAX,
    ensures
        tokens::tokens(final(out)@) == tokens::tokens(old(out)@) + value_line(v@),
{
    let ghost start = tokens::tokens(out@);
    match &v.object {
        Some(o) => {
            match decide::decide_object(o) {
                ObjectDecision::Record { .. } => {
                    tokens::put_text(out, "  Map values are records with ");
                    tokens::put_int(out, o.fields.len() as u64);
                    tokens::put_text(out, " field");
                    put_plural(out, o.fields.len());
                    tokens::put_text(out, " (see report below for the field list).\n");
                },
                ObjectDecision::Mapping { .. } => {
                    tokens::put_text(out, "  Map values are themselves maps.\n");
                },
            }
        },
        None => {
            if scalar_total(v) > 0 {
                tokens::put_text(out, "  Map values are ");
                scalar_arms_summary(out, v);
                tokens::put_text(out, " (scalar).\n");
            } else if v.array.is_some() {
                tokens::put_text(out, "  Map values are arrays.\n");
            }
        },
    }
    assert(tokens::tokens(out@) =~= start + value_line(v@));
}

pub fn summarize_object(out: &mut Vec<Token>, nodes: &Vec<Node>, obj: &ObjectAcc, subject: &str)
    requires
        summable(engine::nodes(nodes@)),
        obj.map_value < nodes@.len(),
        forall|i: int|
            0 <= i < obj.fields@.len() ==> (#[trigger] obj.fields@[i]).1 < nodes@.len(),
    ensures
        tokens::tokens(final(out)@) == tokens::tokens(old(out)@) + object_lines(
            engine::nodes(nodes@),
            obj@,
            subject@,
        ),
{
    let ghost start = tokens::tokens(out@);
    let ghost arena = engine::nodes(nodes@);
    match decide::decide_object(obj) {
        ObjectDecision::Record { .. } => {
            summarize_record(out, nodes, obj, subject);
        },
        ObjectDecision::Mapping { reason } => {
            let total: u64 = if obj.obs == 0 {
                1
            } else {
                obj.obs
            };
            tokens::put_text(out, subject);
            tokens::put_text(out, " is a map (");
            tokens::put_text(out, reason);
            tokens::put_text(out, "; mean ");
            tokens::put(out, Token::Mean { sum: obj.key_count_sum as u128, count: total });
            tokens::put_text(out, " keys/doc, ");
            tokens::put_int(out, obj.fields.len() as u64);
            tokens::put_text(out, " unique key");
            put_plural(out, obj.fields.len());
            tokens::put_text(out, " captured).\n");
            put_pattern(out, &obj.key_stats, "Keys");
            assert(arena[obj.map_value as int] == nodes@[obj.map_value as int]@);
            put_map_values(out, &nodes[obj.map_value]);
            assert(tokens::tokens(out@) =~= start + map_lines(arena, obj@, reason@, subject@));
        },
    }
}

// ---------------------------------------------------------------------
// Arrays
// ---------------------------------------------------------------------

/// The shortest length, zero where no array has ended.
pub open spec fn shortest(a: ArrayView) -> int {
    if a.min_length == u32::MAX {
        0
    } else {
        a.min_length as int
    }
}

/// The clusters of the elements.
pub open spec fn cluster_line(a: ArrayView) -> Seq<TokenView> {
    let v = finish::clusters(a);
    if v.len() == 0 {
        Seq::empty()
    } else if v.len() == 1 {
        seq![
            tokens::lit("  Element shape is uniform: "),
            TokenView::Text(tokens::sig_text(v[0].0)),
            tokens::lit(" ("),
            tokens::num(v[0].1 as int),
            tokens::lit(" observations).\n"),
        ]
    } else {
        seq![
            tokens::lit("  Element clusters into "),
            tokens::num(v.len() as int),
            tokens::lit(" distinct shape"),
            plural(v.len() as int),
            tokens::lit(" ("),
            tokens::num(a.element_cluster.evictions as int),
            tokens::lit(" evictions); top arm "),
            TokenView::Text(tokens::sig_text(v[0].0)),
            tokens::lit(" covers "),
            TokenView::Percent {
                part: v[0].1 as int,
                total: decide::at_least_one(sketch::total(v) as u64),
                decimals: 1,
            },
            tokens::lit("%.\n"),
        ]
    }
}

pub open spec fn array_lines(a: ArrayView, subject: Seq<char>) -> Seq<TokenView> {
    match a.bag_reason() {
        Some(reason) => seq![
            TokenView::Text(subject),
            tokens::lit(" is an array bag of "),
            tokens::num(shortest(a)),
            tokens::lit(".."),
            tokens::num(a.max_length as int),
            tokens::lit(" elements, mean "),
            TokenView::Mean { sum: a.length_sum as int, count: decide::at_least_one(a.obs) },
            tokens::lit(" ("),
            TokenView::Text(reason),
            tokens::lit(").\n"),
        ] + cluster_line(a),
        None => seq![
            TokenView::Text(subject),
            tokens::lit(" is a "),
            tokens::num(a.mode().0 as int),
            tokens::lit("-tuple (length always "),
            tokens::num(a.mode().0 as int),
            tokens::lit(", "),
            TokenView::Share {
                part: a.mode_share().part as int,
                total: a.mode_share().total as int,
                decimals: 0,
            },
            tokens::lit("% of observations).\n"),
        ],
    }
}

fn put_clusters(out: &mut Vec<Token>, arr: &ArrayAcc)
    requires
        arr@.element_cluster.wf(),
    ensures
        tokens::tokens(final(out)@) == tokens::tokens(old(out)@) + cluster_line(arr@),
{
    let ghost start = tokens::tokens(out@);
    let ghost v = finish::clusters(arr@);
    let entries = finish::told(arr);
    proof {
        finish::lemma_cluster_total(arr@);
    }
    if entries.len() > 0 {
        assert(v[0] == (entries@[0].0@, entries@[0].1));
        if entries.len() == 1 {
            tokens::put_text(out, "  Element shape is uniform: ");
            tokens::put_sig(out, &entries[0].0);
            tokens::put_text(out, " (");
            tokens::put_int(out, entries[0].1);
            tokens::put_text(out, " observations).\n");
        } else {
            let sum: u64 = finish::sum_of_counts(&entries, Ghost(v));
            let total: u64 = if sum == 0 {
                1
            } else {
                sum
            };
            tokens::put_text(out, "  Element clusters into ");
            tokens::put_int(out, entries.len() as u64);
            tokens::put_text(out, " distinct shape");
            put_plural(out, entries.len());
            tokens::put_text(out, " (");
            tokens::put_int(out, arr.element_cluster.evictions());
            tokens::put_text(out, " evictions); top arm ");
            tokens::put_sig(out, &entries[0].0);
            tokens::put_text(out, " covers ");
            tokens::put(
                out,
                Token::Percent { part: entries[0].1, total: total as u128, decimals: 1 },
            );
            tokens::put_text(out, "%.\n");
        }
    }
    assert(tokens::tokens(out@) =~= start + cluster_line(arr@));
}

pub fn summarize_array(out: &mut Vec<Token>, arr: &ArrayAcc, subject: &str)
    requires
        arr@.length_histogram.dom().finite(),
        arr@.element_cluster.wf(),
    ensures
        tokens::tokens(final(out)@) == tokens::tokens(old(out)@) + array_lines(arr@, subject@),
{
    let ghost start = tokens::tokens(out@);
    tokens::put_text(out, subject);
    match decide::decide_array(arr) {
        ArrayDecision::Tuple { mode_len, mode_share } => {
            tokens::put_text(out, " is a ");
            tokens::put_int(out, mode_len as u64);
            tokens::put_text(out, "-tuple (length always ");
            tokens::put_int(out, mode_len as u64);
            tokens::put_text(out, ", ");
            tokens::put(
                out,
                Token::Share { part: mode_share.part, total: mode_share.total, decimals: 0 },
            );
            tokens::put_text(out, "% of observations).\n");
        },
        ArrayDecision::Bag { reason } => {
            let total: u64 = if arr.obs == 0 {
                1
            } else {
                arr.obs
            };
            let min: u32 = if arr.min_length == u32::MAX {
                0
            } else {
                arr.min_length
            };
            tokens::put_text(out, " is an array bag of ");
            tokens::put_int(out, min as u64);
            tokens::put_text(out, "..");
            tokens::put_int(out, arr.max_length as u64);
            tokens::put_text(out, " elements, mean ");
            tokens::put(out, Token::Mean { sum: arr.length_sum as u128, count: total });
            tokens::put_text(out, " (");
            tokens::put_text(out, reason);
            tokens::put_text(out, ").\n");
            put_clusters(out, arr);
        },
    }
    assert(tokens::tokens(out@) =~= start + array_lines(arr@, subject@));
}

// ---------------------------------------------------------------------
// The root
// ---------------------------------------------------------------------

/// The kinds of values that were seen at a node.
pub open spec fn kinds_at(n: NodeView) -> Seq<Seq<char>> {
    let a: Seq<Seq<char>> = if n.has_scalars() {
        seq!["scalar"@]
    } else {
        Seq::empty()
    };
    let b = if n.object is Some {
        a.push("object"@)
    } else {
        a
    };
    if n.array is Some {
        b.push("array"@)
    } else {
        b
    }
}

pub fn kinds_of(n: &Node) -> (r: Vec<String>)
    requires
        n@.scalar_arms.len() == 6,
        n@.scalar_obs() <= u64::MAX,
    ensures
        tokens::texts(r@) == kinds_at(n@),
{
    let mut out: Vec<String> = Vec::new();
    if scalar_total(n) > 0 {
        out.push("scalar".to_string());
    }
    let ghost a = tokens::texts(out@);
    if n.object.is_some() {
        out.push("object".to_string());
    }
    if n.array.is_some() {
        out.push("array".to_string());
    }
    assert(tokens::texts(out@) =~= kinds_at(n@));
    out
}

/// A single scalar in each document.
pub open spec fn scalar_lines(n: NodeView) -> Seq<TokenView> {
    seq![tokens::lit("Each document is a single scalar (")] + scalar_words(n) + seq![
        tokens::lit(").\n"),
    ] + (match n.string_stats {
        Some(ss) => pattern_line(ss, "Strings"@),
        None => Seq::empty(),
    }) + (match n.numeric_stats {
        Some(ns) => number_line(ns),
        None => Seq::empty(),
    })
}

/// Documents of several kinds.
pub open spec fn mixed_lines(arena: Seq<NodeView>, n: NodeView) -> Seq<TokenView> {
    let kinds = kinds_at(n);
    seq![
        tokens::lit("Document shape varies across "),
        tokens::num(kinds.len() as int),
        tokens::lit(" top-level kinds: "),
        TokenView::Text(tokens::joined(kinds, ", "@, kinds.len() as int)),
        tokens::lit(".\n"),
    ] + (if n.has_scalars() {
        seq![tokens::lit("  Scalar arms: ")] + scalar_words(n) + seq![tokens::lit(".\n")]
    } else {
        Seq::empty()
    }) + (match n.object {
        Some(o) => object_lines(arena, o, "When object-shaped, each document"@),
        None => Seq::empty(),
    }) + (match n.array {
        Some(a) => array_lines(a, "When array-shaped, each document"@),
        None => Seq::empty(),
    })
}

/// Documents of one kind, or of none.
pub open spec fn root_lines(arena: Seq<NodeView>, n: NodeView) -> Seq<TokenView> {
    if kinds_at(n).len() == 0 {
        seq![tokens::lit("No root values were observed.\n")]
    } else if kinds_at(n).len() > 1 {
        mixed_lines(arena, n)
    } else if n.has_scalars() {
        scalar_lines(n)
    } else {
        match (n.object, n.array) {
            (Some(o), _) => object_lines(arena, o, "Each document"@),
            (_, Some(a)) => array_lines(a, "Each document"@),
            _ => Seq::empty(),
        }
    }
}

/// The summary of a run: how many documents there were, what each of them is,
/// and an empty line.
pub open spec fn summary_tokens(arena: Seq<NodeView>, doc_count: u64) -> Seq<TokenView> {
    if doc_count == 0 {
        seq![tokens::lit("Summary: no documents observed.\n")]
    } else {
        seq![
            tokens::lit("Summary: "),
            tokens::num(doc_count as int),
            tokens::lit(" document"),
            plural(doc_count as int),
            tokens::lit(" observed.\n"),
        ] + root_lines(arena, arena[0]) + seq![tokens::lit("\n")]
    }
}

fn put_scalars(out: &mut Vec<Token>, n: &Node)
    requires
        n@.scalar_arms.len() == 6,
        n@.scalar_obs() <= u64::MAX,
    ensures
        tokens::tokens(final(out)@) == tokens::tokens(old(out)@) + scalar_lines(n@),
{
    let ghost start = tokens::tokens(out@);
    tokens::put_text(out, "Each document is a single scalar (");
    scalar_arms_summary(out, n);
    tokens::put_text(out, ").\n");
    if let Some(ss) = &n.string_stats {
        put_pattern(out, ss, "Strings");
    }
    if let Some(ns) = &n.numeric_stats {
        put_numbers(out, ns);
    }
    assert(tokens::tokens(out@) =~= start + scalar_lines(n@));
}

fn put_mixed(out: &mut Vec<Token>, nodes: &Vec<Node>, kinds: &Vec<String>)
    requires
        nodes@.len() > 0,
        summable(engine::nodes(nodes@)),
        finish::linked(engine::nodes(nodes@)),
        tokens::texts(kinds@) == kinds_at(nodes@[0]@),
    ensures
        tokens::tokens(final(out)@) == tokens::tokens(old(out)@) + mixed_lines(
            engine::nodes(nodes@),
            nodes@[0]@,
        ),
{
    let ghost start = tokens::tokens(out@);
    let ghost arena = engine::nodes(nodes@);
    let n = &nodes[0];
    proof {
        assert(arena[0] == n@);
        assert(finish::linked_node(arena[0], 0, arena.len() as int));
    }
    tokens::put_text(out, "Document shape varies across ");
    tokens::put_int(out, kinds.len() as u64);
    tokens::put_text(out, " top-level kinds: ");
    tokens::put(out, Token::Text(tokens::join(kinds, ", ", kinds.len())));
    tokens::put_text(out, ".\n");
    if scalar_total(n) > 0 {
        tokens::put_text(out, "  Scalar arms: ");
        scalar_arms_summary(out, n);
        tokens::put_text(out, ".\n");
    }
    if let Some(obj) = &n.object {
        proof {
            lemma_child_ids(obj, 0, arena.len() as int);
        }
        summarize_object(out, nodes, obj, "When object-shaped, each document");
    }
    if let Some(arr) = &n.array {
        summarize_array(out, arr, "When array-shaped, each document");
    }
    assert(tokens::tokens(out@) =~= start + mixed_lines(arena, n@));
}

/// The children of an object are nodes.
pub proof fn lemma_child_ids(obj: &ObjectAcc, id: int, size: int)
    requires
        id < obj@.map_value < size,
        forall|i: int| 0 <= i < obj@.fields.len() ==> id < (#[trigger] obj@.fields[i]).1 < size,
    ensures
        obj.map_value < size,
        forall|i: int| 0 <= i < obj.fields@.len() ==> (#[trigger] obj.fields@[i]).1 < size,
{
    assert forall|i: int| 0 <= i < obj.fields@.len() implies (#[trigger] obj.fields@[i]).1 < size by {
        assert(obj@.fields[i].1 == obj.fields@[i].1);
    }
}

fn put_root(out: &mut Vec<Token>, nodes: &Vec<Node>)
    requires
        nodes@.len() > 0,
        summable(engine::nodes(nodes@)),
        finish::linked(engine::nodes(nodes@)),
    ensures
        tokens::tokens(final(out)@) == tokens::tokens(old(out)@) + root_lines(
            engine::nodes(nodes@),
            nodes@[0]@,
        ),
{
    let ghost start = tokens::tokens(out@);
    let ghost arena = engine::nodes(nodes@);
    let n = &nodes[0];
    proof {
        assert(arena[0] == n@);
        assert(finish::linked_node(arena[0], 0, arena.len() as int));
    }
    let kinds = kinds_of(n);
    if kinds.len() == 0 {
        tokens::put_text(out, "No root values were observed.\n");
    } else if kinds.len() > 1 {
        put_mixed(out, nodes, &kinds);
    } else if scalar_total(n) > 0 {
        put_scalars(out, n);
    } else if let Some(obj) = &n.object {
        proof {
            lemma_child_ids(obj, 0, arena.len() as int);
        }
        summarize_object(out, nodes, obj, "Each document");
    } else if let Some(arr) = &n.array {
        summarize_array(out, arr, "Each document");
    }
    assert(tokens::tokens(out@) =~= start + root_lines(arena, n@));
}

/// The plain-language summary of the root shape and the decisions that
/// resolved it.
pub fn write_summary(out: &mut Vec<Token>, nodes: &Vec<Node>, doc_count: u64)
    requires
        nodes@.len() > 0,
        summable(engine::nodes(nodes@)),
        finish::linked(engine::nodes(nodes@)),
    ensures
        tokens::tokens(final(out)@) == tokens::tokens(old(out)@) + summary_tokens(
            engine::nodes(nodes@),
            doc_count,
        ),
{
    let ghost start = tokens::tokens(out@);
    assert(engine::nodes(nodes@)[0] == nodes@[0]@);
    if doc_count == 0 {
        tokens::put_text(out, "Summary: no documents observed.\n");
    } else {
        tokens::put_text(out, "Summary: ");
        tokens::put_int(out, doc_count);
        tokens::put_text(out, " document");
        if doc_count == 1 {
            tokens::put_text(out, "");
        } else {
            tokens::put_text(out, "s");
        }
        tokens::put_text(out, " observed.\n");
        put_root(out, nodes);
        tokens::put_text(out, "\n");
    }
    assert(tokens::tokens(out@) =~= start + summary_tokens(engine::nodes(nodes@), doc_count));
}

} // verus!
