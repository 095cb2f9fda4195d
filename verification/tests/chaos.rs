use std::collections::BTreeMap;

use rand::rngs::mock::StepRng;
use rand::{rngs::StdRng, Rng, SeedableRng};

use shapez::analyze::dist::{Buckets, Quantile};
use shapez::analyze::tokens::Token;
use shapez::double::Double;
use shapez::json::events::drive_document;
use shapez::json::{Json, Number};
use shapez::node::{ShapeKind, ShapeNode};
use shapez::synth::chaos::{
    array_of, kind_of, nested_array_spine, nested_mixed_spine, object_of, random_array,
    random_object, random_scalar, random_string, random_value, scalar_of, Kind,
};
use shapez::synth::draft::Draft;
use shapez::synth::random::Dice;
use shapez::value::ValueType;
use shapez::{Analyzer, StreamingAnalyzer};

/// The bucket table of a sketch with a relative error of two in a hundred.
fn buckets() -> Buckets {
    let gamma: f64 = (1.0 + 0.02) / (1.0 - 0.02);
    let log_gamma = gamma.ln();
    let index = |bits: u64| (f64::from_bits(bits).ln() / log_gamma).ceil() as i32;
    let last = f64::MAX.to_bits();
    let mut bounds = Vec::new();
    for k in index(1)..index(last) {
        let (mut lo, mut hi) = (1u64, last);
        while lo < hi {
            let mid = lo + (hi - lo + 1) / 2;
            if index(mid) <= k {
                lo = mid;
            } else {
                hi = mid - 1;
            }
        }
        bounds.push(lo);
    }
    Buckets::new(bounds)
}

/// The value that stands for a bucket, or for the largest value.
fn place_value(q: Quantile, largest: Double) -> f64 {
    let gamma: f64 = (1.0 + 0.02) / (1.0 - 0.02);
    let low = (f64::from_bits(1).ln() / gamma.ln()).ceil() as i32;
    let middle = |key: u32| gamma.powf((low + key as i32) as f64 - 0.5);
    match q {
        Quantile::Negative(k) => -middle(k),
        Quantile::Zero => 0.0,
        Quantile::Positive(k) => middle(k),
        Quantile::Largest => f64::from_bits(largest.bits),
    }
}

fn number(v: f64, whole: bool) -> String {
    if whole && v.is_finite() {
        (v as i64).to_string()
    } else {
        format!("{v}")
    }
}

fn render(tokens: &[Token]) -> String {
    let mut out = String::new();
    for t in tokens {
        match t {
            Token::Text(s) => out.push_str(s),
            Token::Indent(n) => out.push_str(&"  ".repeat(*n as usize)),
            Token::Int(n) => out.push_str(&n.to_string()),
            Token::Percent { part, total, decimals } => out.push_str(&format!(
                "{:.*}",
                *decimals as usize,
                100.0 * *part as f64 / *total as f64
            )),
            Token::Share { part, total, decimals } => out.push_str(&format!(
                "{:.*}",
                *decimals as usize,
                100.0 * (*part as f64 / *total as f64)
            )),
            Token::Mean { sum, count } => {
                let mean = if *count == 0 { 0.0 } else { *sum as f64 / *count as f64 };
                out.push_str(&format!("{mean:.1}"));
            }
            Token::Number { value, whole } => {
                out.push_str(&number(f64::from_bits(value.bits), *whole))
            }
            Token::Bound { value, whole } => {
                let v = f64::from_bits(value.bits);
                if *whole {
                    out.push_str(&(v as i64).to_string());
                } else {
                    out.push_str(&format!("{v:.3}"));
                }
            }
            Token::NodeMean { node } => out.push_str(&format!("<mean of {node}>")),
            Token::Place { at, largest, whole } => {
                out.push_str(&number(place_value(*at, *largest), *whole))
            }
            Token::LongTail { middle, upper, largest, whole } => {
                let (p50, p99) = (place_value(*middle, *largest), place_value(*upper, *largest));
                if p50 > 0.0 && p99 / p50 >= 10.0 {
                    out.push_str(&format!(
                        " \u{2014} long-tailed (p50\u{2248}{}, p99\u{2248}{})",
                        number(p50, *whole),
                        number(p99, *whole)
                    ));
                }
            }
        }
    }
    out
}

type Members = BTreeMap<String, Json>;

fn object(members: Members) -> Json {
    Json::Object(members.into_iter().collect())
}

fn whole_number(n: i64) -> Json {
    Json::Number(Number::from_i64(n))
}

/// The document, each double drawn from its word.
fn whole(d: Draft) -> Json {
    let doubles = d
        .words()
        .into_iter()
        .map(|w| Double { bits: StepRng::new(w, 0).gen_range(-1e6..1e6f64).to_bits() })
        .collect();
    d.complete(&doubles)
}

// ---------------------------------------------------------------------------
// Harness
// ---------------------------------------------------------------------------

fn run_chaos(seed: u64, count: usize, depth: u32, branch: u32) -> (ShapeNode, String, u64) {
    let mut dice = Dice::seeded(seed);
    let mut analyzer = StreamingAnalyzer::new(buckets());
    for ord in 0..count {
        let v = whole(random_value(&mut dice, depth, branch));
        drive_document(&mut analyzer, ord as u64, &v);
    }
    let docs = analyzer.doc_count();
    let report = render(&analyzer.report());
    let shape = analyzer.finish();
    (shape, report, docs)
}

fn count_nodes(s: &ShapeNode) -> usize {
    1 + match &s.kind {
        ShapeKind::Type(_) | ShapeKind::Absent => 0,
        ShapeKind::Variant { arms } | ShapeKind::Tuple { positions: arms } => {
            arms.iter().map(count_nodes).sum()
        }
        ShapeKind::Array { element, .. } => count_nodes(element),
        ShapeKind::Record { fields } => fields.iter().map(|f| count_nodes(&f.shape)).sum(),
        ShapeKind::Mapping { key, value, .. } => count_nodes(key) + count_nodes(value),
    }
}

// ---------------------------------------------------------------------------
// Tests
// ---------------------------------------------------------------------------

#[test]
fn chaos_arbitrary_root_survives() {
    // Moderate scale: 1000 docs, depth 6, branching 8. Should exercise
    // every code path in the analyzer at least once.
    let (shape, report, docs) = run_chaos(0x5_4A_9E_2C_4A_05_u64, 1000, 6, 8);
    assert_eq!(docs, 1000);
    assert!(!report.is_empty());
    assert!(count_nodes(&shape) > 0);
}

#[test]
fn chaos_runs_across_many_seeds() {
    // Many short runs across distinct seeds, catching seed-dependent
    // crashes that a single seed would miss.
    for seed in 0..32 {
        let (_shape, report, docs) = run_chaos(seed, 100, 5, 6);
        assert_eq!(docs, 100, "seed {seed}");
        assert!(!report.is_empty(), "seed {seed}");
    }
}

#[test]
fn chaos_deep_nesting_survives() {
    // High depth, low branching → tall narrow trees. Stresses the path
    // stack and the recursive finalizer.
    let (shape, _report, docs) = run_chaos(42, 200, 20, 2);
    assert_eq!(docs, 200);
    assert!(count_nodes(&shape) > 0);
}

#[test]
fn chaos_wide_object_keys_drop_record_view() {
    // Force a single object root with many distinct keys per doc so the
    // record_view (K=64) certainly drops and the finalizer hits the map
    // branch. Verifies the path through MAP decision is panic-free under
    // chaos input.
    let mut dice = Dice::seeded(7);
    let mut analyzer = StreamingAnalyzer::new(buckets());
    for doc in 0..50 {
        let mut map = Members::new();
        // 100 distinct keys per doc, ensuring record_view drops fast.
        for _ in 0..100 {
            let key = random_string(&mut dice, 6, 10);
            map.insert(key, whole(random_value(&mut dice, 3, 4)));
        }
        drive_document(&mut analyzer, doc, &object(map));
    }
    let report = render(&analyzer.report());
    let shape = analyzer.finish();
    assert!(report.contains("MAP"), "expected MAP decision in report");
    match shape.kind {
        ShapeKind::Type(_) | ShapeKind::Mapping { .. } => (),
        other => panic!("expected map/struct root, got {other:?}"),
    }
}

#[test]
fn chaos_wide_arrays_drop_positional_view() {
    // Arrays of length >> positional_view_cap (32). Forces the bag-view
    // path in the finalizer.
    let mut dice = Dice::seeded(11);
    let mut rng = StdRng::seed_from_u64(11);
    let mut analyzer = StreamingAnalyzer::new(buckets());
    for doc in 0..50 {
        let n = rng.gen_range(64..=128);
        let items: Vec<Json> = (0..n).map(|_| whole(random_scalar(&mut dice))).collect();
        drive_document(&mut analyzer, doc, &Json::Array(items));
    }
    let report = render(&analyzer.report());
    let _shape = analyzer.finish();
    assert!(
        report.contains("BAG") || report.contains("positional_view DROPPED"),
        "expected bag decision or positional drop in report, got:\n{report}"
    );
}

#[test]
fn chaos_unsigned_above_i64_max_is_u64() {
    // Pin down that numbers larger than i64::MAX are observed as U64,
    // not coerced to F64 or dropped.
    let big = (i64::MAX as u64) + 17;
    let v = Json::Number(Number::Positive(big));
    let mut analyzer = StreamingAnalyzer::new(buckets());
    for ord in 0..10 {
        drive_document(&mut analyzer, ord, &v);
    }
    let shape = analyzer.finish();
    match shape.kind {
        ShapeKind::Type(ValueType::U64) => (),
        other => panic!("expected U64 root, got {other:?}"),
    }
}

#[test]
fn chaos_extreme_wide_object_500_keys() {
    // 500 stable keys per doc forces record_view (K=64) to drop and
    // map_value to absorb the rest. After 50 docs we have 500 distinct
    // keys × 50 obs each in the map_value's accumulator.
    let mut analyzer = StreamingAnalyzer::new(buckets());
    for doc in 0..50 {
        let mut map = Members::new();
        for k in 0..500 {
            map.insert(format!("k{k:04}"), whole_number((doc as i64)));
        }
        drive_document(&mut analyzer, doc, &object(map));
    }
    let report = render(&analyzer.report());
    let shape = analyzer.finish();
    assert!(report.contains("MAP"), "expected MAP decision\n{report}");
    let value_type = match &shape.kind {
        ShapeKind::Type(ValueType::Mapping { value_type, .. }) => value_type,
        other => panic!("expected Type(Map), got {other:?}"),
    };
    assert_eq!(**value_type, ValueType::I64);
}

#[test]
fn chaos_extreme_wide_array_300_positions() {
    // 300-element arrays for 100 docs (30k total scalar observations).
    // positional_view cap (32) is blown through fast; bag_value absorbs
    // the rest. Tuple decision declines because mode_len=300 exceeds
    // the small-mode threshold.
    let mut analyzer = StreamingAnalyzer::new(buckets());
    for doc in 0..100 {
        let items: Vec<Json> = (0..300).map(|i| whole_number((i as i64))).collect();
        drive_document(&mut analyzer, doc, &Json::Array(items));
    }
    let report = render(&analyzer.report());
    let _shape = analyzer.finish();
    assert!(report.contains("BAG"), "expected BAG decision\n{report}");
    assert!(
        report.contains("positional_view DROPPED"),
        "expected positional drop note\n{report}",
    );
}

#[test]
fn chaos_low_entropy_templates_cluster_correctly() {
    // The load-bearing case for the design: documents are wide+deep but
    // the SHAPE distribution has low entropy — a small number of recurring
    // templates dominate. The Space-Saving cluster sketch should identify
    // each template as its own variant arm, with counts reflecting the
    // skewed distribution. A 5% trickle of one-off noise shapes exercises
    // the eviction path without displacing the heavy hitters.

    fn template_a(dice: &mut Dice, rng: &mut StdRng) -> Json {
        // ~70%: page-view event.
        let mut user = Members::new();
        user.insert("id".into(), Json::Text(random_string(dice, 8, 12)));
        user.insert("tier".into(), Json::Text("paid".into()));
        let mut page = Members::new();
        page.insert("url".into(), Json::Text(random_string(dice, 8, 16)));
        page.insert("load_ms".into(), whole_number((rng.gen_range(50..2000i64))));
        let mut root = Members::new();
        root.insert("evt".into(), Json::Text("view".into()));
        root.insert("user".into(), object(user));
        root.insert("page".into(), object(page));
        object(root)
    }

    fn template_b(dice: &mut Dice, rng: &mut StdRng) -> Json {
        // ~20%: purchase event with an items array.
        let items: Vec<Json> = (0..rng.gen_range(1..4))
            .map(|_| Json::Text(random_string(dice, 4, 8)))
            .collect();
        let mut order = Members::new();
        order.insert("items".into(), Json::Array(items));
        order.insert("total_cents".into(), whole_number((rng.gen_range(100..50_000i64))));
        let mut root = Members::new();
        root.insert("evt".into(), Json::Text("purchase".into()));
        root.insert("order".into(), object(order));
        object(root)
    }

    fn template_c(dice: &mut Dice, rng: &mut StdRng) -> Json {
        // ~10%: system metric.
        let mut metric = Members::new();
        metric.insert("name".into(), Json::Text(random_string(dice, 6, 10)));
        metric.insert(
            "value".into(),
            Json::Number(Number::Float(Double { bits: rng.gen_range(0.0..100.0f64).to_bits() })),
        );
        let mut root = Members::new();
        root.insert("evt".into(), Json::Text("metric".into()));
        root.insert("metric".into(), object(metric));
        object(root)
    }

    let mut dice = Dice::seeded(0xC1_05_7E_27);
    let mut rng = StdRng::seed_from_u64(0xC1_05_7E_27);
    let mut analyzer = StreamingAnalyzer::new(buckets());

    let mut expected: std::collections::HashMap<&'static str, u64> =
        [("view", 0), ("purchase", 0), ("metric", 0), ("noise", 0)].into_iter().collect();

    for doc in 0..100 {
        let mut items = Vec::with_capacity(200);
        for _ in 0..200 {
            let r: f64 = rng.gen();
            if r < 0.70 {
                items.push(template_a(&mut dice, &mut rng));
                *expected.get_mut("view").unwrap() += 1;
            } else if r < 0.90 {
                items.push(template_b(&mut dice, &mut rng));
                *expected.get_mut("purchase").unwrap() += 1;
            } else if r < 0.95 {
                items.push(template_c(&mut dice, &mut rng));
                *expected.get_mut("metric").unwrap() += 1;
            } else {
                // 5% noise: a fresh random shape every time, which the
                // sketch will mostly evict.
                items.push(whole(random_value(&mut dice, 4, 3)));
                *expected.get_mut("noise").unwrap() += 1;
            }
        }
        drive_document(&mut analyzer, doc, &Json::Array(items));
    }
    let report = render(&analyzer.report());
    let shape = analyzer.finish();

    // Root is Array; element is Variant with at least the three template arms.
    let element = match &shape.kind {
        ShapeKind::Array { element, .. } => element.as_ref(),
        other => panic!("expected rich Array root, got {other:?}"),
    };
    let arms = match &element.kind {
        ShapeKind::Variant { arms } => arms,
        other => panic!("expected Variant at element, got {other:?}"),
    };
    assert!(
        arms.len() >= 3,
        "expected at least 3 variant arms, got {}\n{report}",
        arms.len(),
    );

    // Each template's discriminator-bearing record should be present
    // somewhere in the variant. Project arms to their field sets.
    let mut arm_field_sets: Vec<Vec<String>> = arms
        .iter()
        .filter_map(|a| match &a.kind {
            ShapeKind::Type(ValueType::Struct { fields }) => {
                Some(fields.iter().map(|f| f.name.clone()).collect())
            }
            ShapeKind::Record { fields } => Some(fields.iter().map(|f| f.name.clone()).collect()),
            _ => None,
        })
        .collect();
    for set in &mut arm_field_sets {
        set.sort();
    }

    let has_view = arm_field_sets.iter().any(|s| s.contains(&"page".to_string()));
    let has_purchase = arm_field_sets.iter().any(|s| s.contains(&"order".to_string()));
    let has_metric = arm_field_sets
        .iter()
        .any(|s| s.contains(&"metric".to_string()));
    assert!(has_view, "expected page-view arm; arms={arm_field_sets:?}");
    assert!(has_purchase, "expected purchase arm; arms={arm_field_sets:?}");
    assert!(has_metric, "expected metric arm; arms={arm_field_sets:?}");

    // Noise should have produced cluster evictions (it's distributed
    // across many one-off signatures), but the head of the distribution
    // should remain dominant in the report's cluster top-K.
    assert!(
        report.contains("evictions"),
        "report should mention cluster evictions",
    );
    assert!(report.contains("decision: BAG"), "expected BAG decision");
}

#[test]
fn chaos_nested_high_cardinality_keys_pool_via_wildcards() {
    // Documents are `{ uuid_outer: { uuid_inner: bool } }`. Both key
    // levels have high cardinality (unique values per doc and across
    // docs), so each level's record_view should overflow into its own
    // map_value, injecting a wildcard at each level. The leaf bool type
    // must be recovered because all leaf observations pool through the
    // chained map_value accumulators — that's the whole point of
    // wildcard injection: extreme cardinality at intermediate steps
    // does not block analysis at deeper paths.

    let mut dice = Dice::seeded(0xBE_EF_CA_FE);
    let mut rng = StdRng::seed_from_u64(0xBE_EF_CA_FE);
    let mut analyzer = StreamingAnalyzer::new(buckets());
    for doc in 0..100 {
        let mut outer = Members::new();
        for _ in 0..20 {
            let mut inner = Members::new();
            for _ in 0..10 {
                let k = random_string(&mut dice, 16, 20);
                inner.insert(k, Json::Bool(rng.gen()));
            }
            outer.insert(random_string(&mut dice, 16, 20), object(inner));
        }
        drive_document(&mut analyzer, doc, &object(outer));
    }
    let report = render(&analyzer.report());
    let shape = analyzer.finish();

    let value_type = match &shape.kind {
        ShapeKind::Type(ValueType::Mapping { value_type, .. }) => value_type.as_ref(),
        other => panic!("expected outer Map root, got {other:?}"),
    };
    let inner_value_type = match value_type {
        ValueType::Mapping { value_type, .. } => value_type.as_ref(),
        other => panic!("expected nested Map under wildcard, got {other:?}"),
    };
    assert_eq!(
        *inner_value_type,
        ValueType::Bool,
        "leaf type lost in nested-wildcard pooling: got {inner_value_type:?}",
    );

    // Both levels must surface MAP decisions, and the canonical path
    // pattern must show the double wildcard.
    let map_decisions = report.matches("decision: MAP").count();
    assert_eq!(map_decisions, 2, "expected two MAP decisions, got {map_decisions}\n{report}");
    assert!(
        report.contains(".*.*"),
        "expected `.*.*` canonical pattern in report\n{report}",
    );
}

#[test]
fn chaos_empty_containers_survive() {
    let mut analyzer = StreamingAnalyzer::new(buckets());
    for ord in 0..50 {
        drive_document(&mut analyzer, ord, &Json::Array(vec![]));
        drive_document(&mut analyzer, ord + 100, &object(Members::new()));
    }
    let _report = render(&analyzer.report());
    let shape = analyzer.finish();
    // Root is Variant of [array, struct] given the mix.
    match shape.kind {
        ShapeKind::Variant { arms } => assert_eq!(arms.len(), 2),
        other => panic!("expected variant of array+object, got {other:?}"),
    }
}

// ---------------------------------------------------------------------------
// Bounds, spines and draws
// ---------------------------------------------------------------------------

fn depth(j: &Json) -> u32 {
    match j {
        Json::Array(items) => 1 + items.iter().map(depth).max().unwrap_or(0),
        Json::Object(members) => 1 + members.iter().map(|m| depth(&m.1)).max().unwrap_or(0),
        _ => 0,
    }
}

fn widest(j: &Json) -> usize {
    match j {
        Json::Array(items) => items.iter().map(widest).max().unwrap_or(0).max(items.len()),
        Json::Object(members) => {
            members.iter().map(|m| widest(&m.1)).max().unwrap_or(0).max(members.len())
        }
        _ => 0,
    }
}

#[test]
fn random_values_stay_within_their_bounds() {
    let mut dice = Dice::seeded(99);
    let mut deepest = 0;
    for _ in 0..2000 {
        let j = whole(random_value(&mut dice, 4, 5));
        assert!(depth(&j) <= 4);
        assert!(widest(&j) <= 5);
        deepest = deepest.max(depth(&j));
    }
    assert!(deepest >= 2, "containers are drawn too");
    for _ in 0..100 {
        assert_eq!(depth(&whole(random_value(&mut dice, 0, 5))), 0);
    }
}

#[test]
fn containers_of_no_branches_are_empty() {
    let mut dice = Dice::seeded(3);
    assert!(matches!(random_array(&mut dice, 0, 0), Draft::Array(v) if v.is_empty()));
    assert!(matches!(random_object(&mut dice, 0, 0), Draft::Object(v) if v.is_empty()));
}

#[test]
fn scalars_come_in_every_kind() {
    let mut dice = Dice::seeded(5);
    let mut seen = [false; 6];
    for _ in 0..500 {
        match whole(random_scalar(&mut dice)) {
            Json::Null => seen[0] = true,
            Json::Bool(_) => seen[1] = true,
            Json::Number(Number::Positive(n)) if n > i64::MAX as u64 => seen[2] = true,
            Json::Number(Number::Float(d)) => {
                let v = f64::from_bits(d.bits);
                assert!((-1e6..1e6).contains(&v));
                seen[3] = true;
            }
            Json::Number(_) => seen[4] = true,
            Json::Text(s) => {
                assert!(s.len() < 16 && s.bytes().all(|b| b.is_ascii_lowercase()));
                seen[5] = true;
            }
            other => panic!("not a scalar: {other:?}"),
        }
    }
    assert_eq!(seen, [true; 6]);
}

/// The draws of a scalar, made with the generator itself.
fn plain_scalar(rng: &mut StdRng) -> String {
    match rng.gen_range(0..7) {
        0 => "null".to_string(),
        1 => format!("{}", rng.gen::<bool>()),
        2 => format!("{}", rng.gen_range(-100_000i64..=100_000)),
        3 => format!(
            "{}",
            rng.gen_range((i64::MAX as u64 + 1)..=(i64::MAX as u64 + 1_000_000))
        ),
        4 => format!("f{:016x}", rng.gen_range(-1e6..1e6f64).to_bits()),
        5 => {
            let len = rng.gen_range(0..16usize);
            (0..len).map(|_| rng.gen_range(b'a'..=b'z') as char).collect()
        }
        _ => String::new(),
    }
}

#[test]
fn draws_follow_the_generator() {
    let mut a = Dice::seeded(17);
    let mut b = StdRng::seed_from_u64(17);
    for _ in 0..300 {
        let drawn = match whole(random_scalar(&mut a)) {
            Json::Null => "null".to_string(),
            Json::Bool(v) => format!("{v}"),
            Json::Number(Number::Positive(n)) => format!("{n}"),
            Json::Number(Number::Negative(n)) => format!("{n}"),
            Json::Number(Number::Float(d)) => format!("f{:016x}", d.bits),
            Json::Text(s) => s,
            other => panic!("not a scalar: {other:?}"),
        };
        assert_eq!(drawn, plain_scalar(&mut b));
    }
}

#[test]
fn the_odds_of_a_container_follow_the_depth() {
    for budget in [1u32, 2, 3, 6, 20] {
        let mut a = Dice::seeded(23);
        let mut b = StdRng::seed_from_u64(23);
        for _ in 0..200 {
            let container =
                matches!(random_value(&mut a, budget, 0), Draft::Array(_) | Draft::Object(_));
            let odds = 0.5 * (budget as f64 / (budget as f64 + 2.0));
            if b.gen_bool(odds) {
                assert!(container);
                let _ = b.gen_bool(0.5);
                let _ = b.gen_range(0..=0u32);
            } else {
                assert!(!container);
                let _ = plain_scalar(&mut b);
            }
        }
    }
}

/// A document, told as text.
fn told(j: &Json) -> String {
    match j {
        Json::Null => "null".to_string(),
        Json::Bool(v) => format!("{v}"),
        Json::Number(Number::Positive(n)) => format!("{n}"),
        Json::Number(Number::Negative(n)) => format!("{n}"),
        Json::Number(Number::Float(d)) => format!("f{:016x}", d.bits),
        Json::Text(s) => s.clone(),
        Json::Array(items) => {
            format!("[{}]", items.iter().map(told).collect::<Vec<_>>().join(","))
        }
        Json::Object(members) => format!(
            "{{{}}}",
            members.iter().map(|(k, v)| format!("{k}:{}", told(v))).collect::<Vec<_>>().join(",")
        ),
    }
}

/// The draws of a document, made with the generator itself.
fn plain_value(rng: &mut StdRng, budget: u32, branch: u32) -> String {
    let odds = if budget == 0 { 0.0 } else { 0.5 * (budget as f64 / (budget as f64 + 2.0)) };
    if !rng.gen_bool(odds) {
        return plain_scalar(rng);
    }
    if rng.gen_bool(0.5) {
        let n = rng.gen_range(0..=branch);
        let items: Vec<String> = (0..n).map(|_| plain_value(rng, budget - 1, branch)).collect();
        format!("[{}]", items.join(","))
    } else {
        let n = rng.gen_range(0..=branch);
        let mut map = BTreeMap::new();
        for _ in 0..n {
            let len = rng.gen_range(1..8usize);
            let key: String = (0..len).map(|_| rng.gen_range(b'a'..=b'z') as char).collect();
            map.insert(key, plain_value(rng, budget - 1, branch));
        }
        let members: Vec<String> = map.iter().map(|(k, v)| format!("{k}:{v}")).collect();
        format!("{{{}}}", members.join(","))
    }
}

#[test]
fn documents_follow_the_generator() {
    for seed in 0..40 {
        for (budget, branch) in [(0, 4), (2, 3), (5, 4)] {
            let mut a = Dice::seeded(seed);
            let mut b = StdRng::seed_from_u64(seed);
            for _ in 0..10 {
                let drawn = told(&whole(random_value(&mut a, budget, branch)));
                assert_eq!(drawn, plain_value(&mut b, budget, branch));
            }
        }
    }
}

#[test]
fn spines_are_as_deep_as_asked() {
    assert_eq!(depth(&nested_array_spine(40)), 40);
    assert_eq!(widest(&nested_array_spine(40)), 1);
    assert_eq!(depth(&nested_mixed_spine(41)), 41);
    match nested_mixed_spine(2) {
        Json::Object(members) => {
            assert_eq!(members[0].0, "next");
            match &members[0].1 {
                Json::Array(items) => assert!(matches!(items[0], Json::Bool(true))),
                other => panic!("expected an array below, got {other:?}"),
            }
        }
        other => panic!("expected an object at the even level, got {other:?}"),
    }
    assert!(matches!(nested_array_spine(0), Json::Number(Number::Positive(1))));
}

#[test]
fn drawn_values_lead_to_one_scalar() {
    let large = i64::MAX as u64 + 7;
    let drawn = |which: i32| scalar_of(which, true, -5, large, 42, "abc".to_string());
    assert!(matches!(drawn(0), Draft::Value(Json::Null)));
    assert!(matches!(drawn(1), Draft::Value(Json::Bool(true))));
    assert!(matches!(drawn(2), Draft::Value(Json::Number(Number::Negative(-5)))));
    assert!(matches!(drawn(3), Draft::Value(Json::Number(Number::Positive(n))) if n == large));
    assert!(matches!(drawn(4), Draft::Float(42)));
    assert!(matches!(drawn(5), Draft::Value(Json::Text(s)) if s == "abc"));
    assert!(matches!(drawn(6), Draft::Value(Json::Text(s)) if s.is_empty()));
}

#[test]
fn drawn_choices_lead_to_one_kind() {
    assert_eq!(kind_of(false, false), Kind::Scalar);
    assert_eq!(kind_of(false, true), Kind::Scalar);
    assert_eq!(kind_of(true, true), Kind::Array);
    assert_eq!(kind_of(true, false), Kind::Object);
}

#[test]
fn a_drawn_length_is_the_length() {
    let mut dice = Dice::seeded(5);
    for n in [0u32, 1, 7] {
        match array_of(&mut dice, n, 2, 9) {
            Draft::Array(items) => assert_eq!(items.len(), n as usize),
            other => panic!("expected an array, got {other:?}"),
        }
        match object_of(&mut dice, n, 2, 9) {
            Draft::Object(members) => {
                assert!(members.len() <= n as usize);
                assert_eq!(members.is_empty(), n == 0);
                assert!(members.windows(2).all(|w| w[0].0 < w[1].0));
            }
            other => panic!("expected an object, got {other:?}"),
        }
    }
}

// ---------------------------------------------------------------------------
// Fixed shapes
// ---------------------------------------------------------------------------

#[test]
fn deep_mixed_spine_survives() {
    let mut analyzer = StreamingAnalyzer::new(buckets());
    for ord in 0..5 {
        drive_document(&mut analyzer, ord, &nested_mixed_spine(150));
    }
    let names: Vec<String> = match &analyzer.finish().kind {
        ShapeKind::Type(ValueType::Struct { fields }) => {
            fields.iter().map(|f| f.name.clone()).collect()
        }
        ShapeKind::Record { fields } => fields.iter().map(|f| f.name.clone()).collect(),
        other => panic!("expected record root, got {other:?}"),
    };
    assert!(names.iter().any(|n| n == "next"), "fields={names:?}");
}

#[test]
fn wide_object_200_keys_still_drops_record_view() {
    let mut analyzer = StreamingAnalyzer::new(buckets());
    for ord in 0..20u64 {
        let members: Members =
            (0..200).map(|k| (format!("key_{k:03}"), whole_number(k + ord as i64))).collect();
        drive_document(&mut analyzer, ord, &object(members));
    }
    let r = render(&analyzer.report());
    assert!(r.contains("record_view DROPPED"));
    assert!(r.contains("decision: MAP"));
}

#[test]
fn wide_array_200_still_drops_positional_view() {
    let mut analyzer = StreamingAnalyzer::new(buckets());
    for ord in 0..20u64 {
        let items: Vec<Json> = (0..200).map(|k| whole_number(k * ord as i64)).collect();
        drive_document(&mut analyzer, ord, &Json::Array(items));
    }
    let r = render(&analyzer.report());
    assert!(r.contains("positional_view DROPPED"));
    assert!(r.contains("decision: BAG"));
}
