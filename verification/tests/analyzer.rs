use shapez::analyze::dist::{Buckets, DistSketch, Quantile};
use shapez::analyze::formats::{is_iso_timestamp, skeleton};
use shapez::analyze::tokens::Token;
use shapez::double::Double;
use shapez::ingest::{Analyzer, JsonEventSink};
use shapez::node::{ShapeKind, ShapeNode};
use shapez::text::{is_white_space, trim};
use shapez::value::ValueType;
use shapez::StreamingAnalyzer;

/// The bucket table of a sketch with a relative error of two in a hundred.
fn buckets() -> Buckets {
    let gamma: f64 = (1.0 + 0.02) / (1.0 - 0.02);
    let log_gamma = gamma.ln();
    let index = |bits: u64| (f64::from_bits(bits).ln() / log_gamma).ceil() as i32;
    let last = f64::MAX.to_bits();
    let mut bounds = Vec::new();
    for k in index(1)..index(last) {
        let (mut lo, mut hi) = (1u64, last);
        while lo < hi {
            let mid = lo + (hi - lo + 1) / 2;
            if index(mid) <= k {
                lo = mid;
            } else {
                hi = mid - 1;
            }
        }
        bounds.push(lo);
    }
    Buckets::new(bounds)
}

/// The value that stands for a bucket, or for the largest value.
fn place_value(q: Quantile, largest: Double) -> f64 {
    let gamma: f64 = (1.0 + 0.02) / (1.0 - 0.02);
    let low = (f64::from_bits(1).ln() / gamma.ln()).ceil() as i32;
    let middle = |key: u32| gamma.powf((low + key as i32) as f64 - 0.5);
    match q {
        Quantile::Negative(k) => -middle(k),
        Quantile::Zero => 0.0,
        Quantile::Positive(k) => middle(k),
        Quantile::Largest => f64::from_bits(largest.bits),
    }
}

fn number(v: f64, whole: bool) -> String {
    if whole && v.is_finite() {
        (v as i64).to_string()
    } else {
        format!("{v}")
    }
}

fn render(tokens: &[Token]) -> String {
    let mut out = String::new();
    for t in tokens {
        match t {
            Token::Text(s) => out.push_str(s),
            Token::Indent(n) => out.push_str(&"  ".repeat(*n as usize)),
            Token::Int(n) => out.push_str(&n.to_string()),
            Token::Percent { part, total, decimals } => out.push_str(&format!(
                "{:.*}",
                *decimals as usize,
                100.0 * *part as f64 / *total as f64
            )),
            Token::Share { part, total, decimals } => out.push_str(&format!(
                "{:.*}",
                *decimals as usize,
                100.0 * (*part as f64 / *total as f64)
            )),
            Token::Mean { sum, count } => {
                let mean = if *count == 0 { 0.0 } else { *sum as f64 / *count as f64 };
                out.push_str(&format!("{mean:.1}"));
            }
            Token::Number { value, whole } => {
                out.push_str(&number(f64::from_bits(value.bits), *whole))
            }
            Token::Bound { value, whole } => {
                let v = f64::from_bits(value.bits);
                if *whole {
                    out.push_str(&(v as i64).to_string());
                } else {
                    out.push_str(&format!("{v:.3}"));
                }
            }
            Token::NodeMean { node } => out.push_str(&format!("<mean of {node}>")),
            Token::Place { at, largest, whole } => {
                out.push_str(&number(place_value(*at, *largest), *whole))
            }
            Token::LongTail { middle, upper, largest, whole } => {
                let (p50, p99) = (place_value(*middle, *largest), place_value(*upper, *largest));
                if p50 > 0.0 && p99 / p50 >= 10.0 {
                    out.push_str(&format!(
                        " \u{2014} long-tailed (p50\u{2248}{}, p99\u{2248}{})",
                        number(p50, *whole),
                        number(p99, *whole)
                    ));
                }
            }
        }
    }
    out
}

fn double(v: f64) -> Double {
    Double { bits: v.to_bits() }
}

fn value_at(s: &DistSketch, num: u64, den: u64) -> Option<f64> {
    s.quantile(num, den).map(|q| place_value(q, s.largest()))
}

fn analyze<F: FnOnce(&mut StreamingAnalyzer)>(f: F) -> ShapeNode {
    let mut a = StreamingAnalyzer::new(buckets());
    f(&mut a);
    a.finish()
}

#[test]
fn scalar_root_i64() {
    let s = analyze(|a| {
        for i in 0..10 {
            a.document_begin(i);
            a.i64(i as i64);
            a.document_end();
        }
    });
    match s.kind {
        ShapeKind::Type(ValueType::I64) => (),
        other => panic!("expected I64, got {other:?}"),
    }
    assert_eq!(s.stats.observation_count, 10);
}

#[test]
fn record_two_fields_all_required() {
    let s = analyze(|a| {
        for i in 0..5 {
            a.document_begin(i);
            a.object_begin();
            a.object_key("id");
            a.string("u");
            a.object_key("age");
            a.i64(1);
            a.object_end();
            a.document_end();
        }
    });
    match s.kind {
        ShapeKind::Type(ValueType::Struct { fields }) => {
            assert_eq!(fields.len(), 2);
            let id = fields.iter().find(|f| f.name == "id").unwrap();
            assert_eq!(id.value_type, ValueType::String);
            assert!(!id.nullable);
            let age = fields.iter().find(|f| f.name == "age").unwrap();
            assert_eq!(age.value_type, ValueType::I64);
            assert!(!age.nullable);
        }
        other => panic!("expected Struct, got {other:?}"),
    }
}

#[test]
fn record_optional_field_marked_nullable() {
    let s = analyze(|a| {
        for i in 0..10 {
            a.document_begin(i);
            a.object_begin();
            a.object_key("id");
            a.string("u");
            if i % 2 == 0 {
                a.object_key("nick");
                a.string("n");
            }
            a.object_end();
            a.document_end();
        }
    });
    match s.kind {
        ShapeKind::Type(ValueType::Struct { fields }) => {
            let nick = fields.iter().find(|f| f.name == "nick").unwrap();
            assert!(nick.nullable);
            let id = fields.iter().find(|f| f.name == "id").unwrap();
            assert!(!id.nullable);
        }
        other => panic!("expected Struct, got {other:?}"),
    }
}

#[test]
fn map_keys_overflow_to_map() {
    let s = analyze(|a| {
        let mut next = 0;
        for d in 0..50 {
            a.document_begin(d);
            a.object_begin();
            for _ in 0..4 {
                let key = format!("k{}", next);
                next += 1;
                a.object_key(&key);
                a.bool(true);
            }
            a.object_end();
            a.document_end();
        }
    });
    match s.kind {
        ShapeKind::Type(ValueType::Mapping { value_type, .. }) => {
            assert_eq!(*value_type, ValueType::Bool);
        }
        other => panic!("expected Map, got {other:?}"),
    }
}

#[test]
fn tuple_detected_when_length_tight() {
    let s = analyze(|a| {
        for i in 0..10 {
            a.document_begin(i);
            a.array_begin();
            a.double(double(1.0));
            a.double(double(2.0));
            a.double(double(3.0));
            a.array_end();
            a.document_end();
        }
    });
    match s.kind {
        ShapeKind::Tuple { positions } => {
            assert_eq!(positions.len(), 3);
            for p in positions {
                assert!(matches!(p.kind, ShapeKind::Type(ValueType::F64)));
            }
        }
        other => panic!("expected Tuple, got {other:?}"),
    }
}

#[test]
fn array_with_varied_length_is_bag() {
    let s = analyze(|a| {
        for i in 0..20 {
            a.document_begin(i);
            a.array_begin();
            for _ in 0..(2 + i % 4) {
                a.i64(1);
            }
            a.array_end();
            a.document_end();
        }
    });
    match s.kind {
        ShapeKind::Type(ValueType::Array { element_type, .. }) => {
            assert_eq!(*element_type, ValueType::I64);
        }
        other => panic!("expected Array, got {other:?}"),
    }
}

#[test]
fn variant_at_leaf_for_mixed_scalar_types() {
    let s = analyze(|a| {
        for i in 0..10 {
            a.document_begin(i);
            if i % 2 == 0 {
                a.i64(1);
            } else {
                a.string("x");
            }
            a.document_end();
        }
    });
    match s.kind {
        ShapeKind::Variant { arms } => {
            assert_eq!(arms.len(), 2);
            let has_i64 = arms.iter().any(|a| matches!(a.kind, ShapeKind::Type(ValueType::I64)));
            let has_str = arms.iter().any(|a| matches!(a.kind, ShapeKind::Type(ValueType::String)));
            assert!(has_i64 && has_str);
        }
        other => panic!("expected Variant, got {other:?}"),
    }
}

#[test]
fn dist_sketch_quantile_within_relative_error() {
    let table = buckets();
    let mut s = DistSketch::new(256);
    for v in 1..=1000i32 {
        s.observe(double(v as f64), &table);
    }
    let p50 = value_at(&s, 1, 2).unwrap();
    let p90 = value_at(&s, 9, 10).unwrap();
    let p99 = value_at(&s, 99, 100).unwrap();
    // DDSketch ε=2% guarantees |estimate - true| / true <= 0.02 on
    // any quantile. Allow a small slack for the bucket-midpoint
    // representative.
    let tol = 0.04;
    let close = |est: f64, target: f64| (est - target).abs() / target <= tol;
    assert!(close(p50, 500.0), "p50 {p50} not within {tol} of 500");
    assert!(close(p90, 900.0), "p90 {p90} not within {tol} of 900");
    assert!(close(p99, 990.0), "p99 {p99} not within {tol} of 990");
}

#[test]
fn dist_sketch_handles_signed_values_and_zero() {
    let table = buckets();
    let mut s = DistSketch::new(256);
    s.observe(double(-100.0), &table);
    s.observe(double(0.0), &table);
    s.observe(double(100.0), &table);
    // Three values: median is 0.
    assert_eq!(value_at(&s, 1, 2), Some(0.0));
    // 99th percentile sits in the positive bucket near 100.
    let p99 = value_at(&s, 99, 100).unwrap();
    assert!((p99 - 100.0).abs() / 100.0 <= 0.04, "p99 {p99}");
    // 1st percentile near -100.
    let p01 = value_at(&s, 1, 100).unwrap();
    assert!((p01 + 100.0).abs() / 100.0 <= 0.04, "p01 {p01}");
}

#[test]
fn iso_timestamp_accepts_common_variants() {
    // Strict RFC3339 (existing case).
    assert!(is_iso_timestamp("2024-01-15T10:30:00Z"));
    // Space-separator variant.
    assert!(is_iso_timestamp("2024-01-15 10:30:00"));
    // No timezone at all.
    assert!(is_iso_timestamp("2024-01-15T10:30:00"));
    // Fractional seconds.
    assert!(is_iso_timestamp("2024-01-15T10:30:00.123Z"));
    assert!(is_iso_timestamp("2024-01-15T10:30:00.123456789-08:00"));
    // ±HH:MM offset.
    assert!(is_iso_timestamp("2024-01-15T10:30:00+05:30"));
    assert!(is_iso_timestamp("2024-01-15T10:30:00-05:30"));
    // ±HHMM (no colon) offset.
    assert!(is_iso_timestamp("2024-01-15T10:30:00+0530"));

    // Rejects malformed cases.
    assert!(!is_iso_timestamp("2024-01-15"));
    assert!(!is_iso_timestamp("2024-01-15T10:30"));
    assert!(!is_iso_timestamp("hello"));
    assert!(!is_iso_timestamp("2024-01-15T10:30:00."));
    assert!(!is_iso_timestamp("2024-01-15T10:30:00+5"));
}

#[test]
fn numeric_epoch_guess_classifies_known_ranges() {
    let now_sec = 1_705_319_400_i64;
    // Epoch seconds.
    let mut a = StreamingAnalyzer::new(buckets());
    for i in 0..50i64 {
        a.document_begin(i as u64);
        a.i64(now_sec + i);
        a.document_end();
    }
    let summary = render(&a.summary());
    assert!(
        summary.contains("epoch seconds"),
        "expected 'epoch seconds' in summary; got:\n{summary}",
    );

    // Epoch millis.
    let mut a = StreamingAnalyzer::new(buckets());
    for i in 0..50i64 {
        a.document_begin(i as u64);
        a.i64((now_sec as i64) * 1000 + i);
        a.document_end();
    }
    assert!(render(&a.summary()).contains("epoch millis"), "millis: {}", render(&a.summary()));

    // The seconds of 1998 are before the range, those of early 2001 are in it.
    for (start, told) in [(910_000_000i64, false), (978_307_199, false), (978_307_200, true)] {
        let mut a = StreamingAnalyzer::new(buckets());
        for i in 0..8u64 {
            a.document_begin(i);
            a.i64(start);
            a.document_end();
        }
        assert_eq!(render(&a.summary()).contains("epoch seconds"), told, "{start}");
    }

    // Numbers in a small range shouldn't trigger.
    let mut a = StreamingAnalyzer::new(buckets());
    for i in 0..50i64 {
        a.document_begin(i as u64);
        a.i64(i);
        a.document_end();
    }
    assert!(
        !render(&a.summary()).contains("epoch"),
        "small ints shouldn't be flagged as epoch; got:\n{}",
        render(&a.summary()),
    );

    // Negative numbers shouldn't trigger (signed epoch is too wild a
    // claim to make without further evidence).
    let mut a = StreamingAnalyzer::new(buckets());
    for i in 0..50i64 {
        a.document_begin(i as u64);
        a.i64(-(now_sec + i));
        a.document_end();
    }
    assert!(
        !render(&a.summary()).contains("epoch"),
        "negative values shouldn't be flagged as epoch; got:\n{}",
        render(&a.summary()),
    );
}

#[test]
fn skeleton_collapses_alphanumeric_runs_keeps_punct() {
    assert_eq!(skeleton("ORD-2024-001234"), "A-9-9");
    assert_eq!(skeleton("hello world"), "A A");
    assert_eq!(skeleton("Hi!"), "A!");
    assert_eq!(skeleton("foo@bar.com"), "A@A.A");
    assert_eq!(skeleton(""), "");
    assert_eq!(skeleton("..."), "...");
    // Very-many-punctuation strings get truncated with an ellipsis.
    assert!(skeleton("a-b-c-d-e-f-g-h-i-j-k-l-m").ends_with('…'));
}

#[test]
fn white_space_is_that_of_unicode() {
    for c in (0..=0x10ffffu32).filter_map(char::from_u32) {
        assert_eq!(is_white_space(c), c.is_whitespace(), "{c:?}");
    }
    assert_eq!(trim("\u{a0}\u{3000} a b\u{85}\n"), "a b");
}

#[test]
fn a_skeleton_is_its_own_skeleton() {
    for s in ["ORD-2024-001234", "  a\t\u{2003}b ", "a-b-c-d-e-f-g-h-i-j-k-l-m", "\u{e9}1"] {
        let k = skeleton(s);
        assert_eq!(skeleton(&k), k);
        assert!(k.chars().count() <= 17);
    }
    assert_eq!(skeleton("  a\t\u{2003}b "), " A A ");
    assert_eq!(skeleton("\u{e9}1"), "A9");
    assert_eq!(skeleton("a-b-c-d-e-f-g-h-i-j-k-l-m").chars().count(), 17);
}

#[test]
fn numeric_stats_track_range_and_integer_valuedness() {
    let mut a = StreamingAnalyzer::new(buckets());
    for i in 1..=100i64 {
        a.document_begin(i as u64);
        a.i64(i);
        a.document_end();
    }
    let summary = render(&a.summary());
    assert!(
        summary.contains("positive integers in [1, 100]"),
        "expected range hint in summary; got:\n{summary}",
    );
    let report = render(&a.report());
    assert!(
        report.contains("numeric values stats: 100 obs, range [1, 100]"),
        "expected numeric stats line; got:\n{report}",
    );
    assert!(
        report.contains("integer-valued: 100 / 100 (100.0%)"),
        "expected integer-valued line; got:\n{report}",
    );
}

#[test]
fn numeric_stats_detect_mixed_sign() {
    let mut a = StreamingAnalyzer::new(buckets());
    for i in -5..=5i64 {
        a.document_begin((i + 10) as u64);
        a.i64(i);
        a.document_end();
    }
    let summary = render(&a.summary());
    assert!(
        summary.contains("mixed-sign integers in [-5, 5]"),
        "expected mixed-sign hint; got:\n{summary}",
    );
}

#[test]
fn numeric_stats_detect_non_integer_floats() {
    let mut a = StreamingAnalyzer::new(buckets());
    for i in 0..10 {
        a.document_begin(i);
        a.double(double(0.1 * (i as f64 + 1.0)));
        a.document_end();
    }
    let summary = render(&a.summary());
    assert!(
        summary.contains("positive numbers in"),
        "expected positive non-integer hint; got:\n{summary}",
    );
    assert!(
        !summary.contains("integers"),
        "should not call non-integer floats 'integers'; got:\n{summary}",
    );
}

#[test]
fn string_stats_skeleton_dominates_for_structured_ids() {
    let mut a = StreamingAnalyzer::new(buckets());
    for i in 0..1000u64 {
        a.document_begin(i);
        a.string(&format!("ORD-2024-{:06}", i));
        a.document_end();
    }
    let summary = render(&a.summary());
    assert!(
        summary.contains("`A-9-9`"),
        "expected skeleton in summary; got:\n{summary}",
    );
    let report = render(&a.report());
    assert!(
        report.contains("skeletons (over"),
        "expected skeletons line in report; got:\n{report}",
    );
}

#[test]
fn polymorphic_array_emits_variant_element() {
    let s = analyze(|a| {
        for i in 0..30 {
            a.document_begin(i);
            a.array_begin();
            // Varied length so the tuple heuristic doesn't latch on.
            let n = 2 + (i as u64 % 4);
            for j in 0..n {
                a.object_begin();
                a.object_key("type");
                match (i + j) % 3 {
                    0 => {
                        a.string("post");
                        a.object_key("post_id");
                        a.string("uuid");
                    }
                    1 => {
                        a.string("like");
                        a.object_key("like_id");
                        a.string("uuid");
                    }
                    _ => {
                        a.string("follow");
                        a.object_key("follow_id");
                        a.string("uuid");
                    }
                }
                a.object_end();
            }
            a.array_end();
            a.document_end();
        }
    });
    let element = match &s.kind {
        ShapeKind::Array { element, .. } => element.as_ref(),
        other => panic!("expected rich Array, got {other:?}"),
    };
    let arms = match &element.kind {
        ShapeKind::Variant { arms } => arms,
        other => panic!("expected Variant at element, got {other:?}"),
    };
    assert_eq!(arms.len(), 3, "three variant arms expected");
}
