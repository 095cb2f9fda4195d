use std::collections::BTreeMap;

use shapez::analyze::dist::{Buckets, DistSketch};
use shapez::analyze::engine::saved::AnalyzerState;
use shapez::analyze::machine::{AnalyzerPolicy, Rate};
use shapez::batch::lines::Handle;
use shapez::double::Double;
use shapez::ingest::JsonEventSink;
use shapez::json::Json;
use shapez::sketch::SpaceSaving;
use shapez::{analyzer_to_proto, StreamingAnalyzer};

fn buckets() -> Buckets {
    Buckets::new((0..2000u64).map(|k| 0x3ff0_0000_0000_0000 + (k << 47)).collect())
}

fn fresh() -> StreamingAnalyzer {
    StreamingAnalyzer::new(buckets())
}

fn report(a: &StreamingAnalyzer) -> String {
    format!("{:?}", a.report())
}

fn report_proto(a: &StreamingAnalyzer) -> String {
    format!("{:?}", analyzer_to_proto(a))
}

fn round_trip(a: &StreamingAnalyzer) -> StreamingAnalyzer {
    assert!(a.is_idle());
    let state = a.to_state_proto();
    assert!(state.is_sound());
    StreamingAnalyzer::from_state_proto(state, buckets())
}

fn feed_object(a: &mut StreamingAnalyzer, doc: u64, key: &str, val: i64) {
    a.document_begin(doc);
    a.object_begin();
    a.object_key(key);
    a.i64(val);
    a.object_end();
    a.document_end();
}

fn feed_string(a: &mut StreamingAnalyzer, doc: u64, key: &str, val: &str) {
    a.document_begin(doc);
    a.object_begin();
    a.object_key(key);
    a.string(val);
    a.object_end();
    a.document_end();
}

fn feed_mixed_array(a: &mut StreamingAnalyzer, doc: u64) {
    a.document_begin(doc);
    a.object_begin();
    a.object_key("xs");
    a.array_begin();
    a.i64(1);
    a.string("two");
    a.i64(3);
    a.array_end();
    a.object_end();
    a.document_end();
}

#[test]
fn state_empty_analyzer_round_trips() {
    let a = fresh();
    let b = round_trip(&a);
    assert_eq!(a.doc_count(), b.doc_count());
    assert_eq!(report(&a), report(&b));
}

#[test]
fn record_only_data_round_trips_to_identical_report() {
    let mut a = fresh();
    for i in 0..10 {
        feed_object(&mut a, i, "x", i as i64);
    }
    let b = round_trip(&a);
    assert_eq!(a.doc_count(), 10);
    assert_eq!(b.doc_count(), 10);
    assert_eq!(report(&a), report(&b));
    assert_eq!(report_proto(&a), report_proto(&b));
}

#[test]
fn variant_round_trips_with_numeric_and_string_stats() {
    let mut a = fresh();
    for i in 0..5 {
        feed_object(&mut a, i, "k", i as i64);
    }
    for i in 5..10 {
        feed_string(&mut a, i, "k", &format!("v{i}"));
    }
    let b = round_trip(&a);
    assert_eq!(report(&a), report(&b));
    assert_eq!(report_proto(&a), report_proto(&b));
}

#[test]
fn array_with_cluster_sketch_round_trips() {
    let mut a = fresh();
    for i in 0..8 {
        feed_mixed_array(&mut a, i);
    }
    let b = round_trip(&a);
    assert_eq!(report(&a), report(&b));
    assert_eq!(report_proto(&a), report_proto(&b));
}

#[test]
fn continue_feeding_after_round_trip_matches_continuous_run() {
    let mut continuous = fresh();
    for i in 0..20 {
        feed_object(&mut continuous, i, "x", (i % 5) as i64);
    }

    let mut split = fresh();
    for i in 0..10 {
        feed_object(&mut split, i, "x", (i % 5) as i64);
    }
    let mut split = round_trip(&split);
    for i in 10..20 {
        feed_object(&mut split, i, "x", (i % 5) as i64);
    }

    assert_eq!(continuous.doc_count(), split.doc_count());
    assert_eq!(report(&continuous), report(&split));
    assert_eq!(report_proto(&continuous), report_proto(&split));
}

#[test]
fn mid_document_is_not_idle() {
    let mut a = fresh();
    assert!(a.is_idle());
    a.document_begin(0);
    assert!(!a.is_idle());
    a.object_begin();
    a.object_key("k");
    assert!(!a.is_idle());
    a.null();
    a.object_end();
    a.document_end();
    assert!(a.is_idle());
}

#[test]
fn policy_round_trips() {
    let mut a = StreamingAnalyzer::with_policy(
        AnalyzerPolicy {
            record_view_cap: 128,
            positional_view_cap: 96,
            cluster_cap: 32,
            reason: "test-run".to_string(),
            max_eviction_rate: Some(Rate { num: 1, den: 4 }),
            max_docs: Some(1_000_000),
            min_docs_before_bail: 200,
        },
        buckets(),
    );
    feed_object(&mut a, 0, "x", 1);
    let b = round_trip(&a);
    let p = b.policy();
    assert_eq!(p.record_view_cap, 128);
    assert_eq!(p.positional_view_cap, 96);
    assert_eq!(p.cluster_cap, 32);
    assert_eq!(p.reason, "test-run");
    assert_eq!(p.max_eviction_rate, Some(Rate { num: 1, den: 4 }));
    assert_eq!(p.max_docs, Some(1_000_000));
    assert_eq!(p.min_docs_before_bail, 200);
}

fn saved() -> AnalyzerState {
    let mut a = fresh();
    for i in 0..8 {
        feed_mixed_array(&mut a, i);
    }
    feed_string(&mut a, 8, "s", "text");
    a.to_state_proto()
}

fn is_taken(s: AnalyzerState) -> bool {
    s.is_sound()
}

#[test]
fn what_no_analyzer_saved_is_refused() {
    assert!(is_taken(saved()));

    let mut s = saved();
    s.nodes.clear();
    assert!(!is_taken(s));

    let mut s = saved();
    s.policy.cluster_cap = 0;
    assert!(!is_taken(s));

    let mut s = saved();
    s.doc_count = s.events + 1;
    assert!(!is_taken(s));

    let mut s = saved();
    s.evictions += 1;
    assert!(!is_taken(s));

    let mut s = saved();
    s.nodes[0].obs += 1;
    assert!(!is_taken(s));

    let mut s = saved();
    s.nodes[0].object.as_mut().unwrap().map_value = 0;
    assert!(!is_taken(s));

    let mut s = saved();
    let fields = &mut s.nodes[0].object.as_mut().unwrap().fields;
    let again = fields[0].clone();
    fields.push(again);
    assert!(!is_taken(s));

    let mut s = saved();
    let xs = s.nodes.iter_mut().find(|n| n.array.is_some()).unwrap();
    xs.array.as_mut().unwrap().length_sum += 1;
    assert!(!is_taken(s));

    let mut s = saved();
    let text = s.nodes.iter_mut().find(|n| n.string_stats.is_some()).unwrap();
    text.string_stats.as_mut().unwrap().count += 1;
    assert!(!is_taken(s));
}

#[test]
fn sketches_are_put_together_from_their_parts() {
    let mut s: SpaceSaving<u32> = SpaceSaving::new(2);
    for k in [7u32, 7, 8, 9] {
        s.observe(k);
    }
    let t = SpaceSaving::from_parts(s.counters().clone(), s.cap(), s.evictions(), s.observations());
    assert!(t.is_sound());
    assert_eq!(t.entries(), s.entries());
    assert!(!SpaceSaving::from_parts(vec![(1u32, 1), (1, 1)], 2, 0, 2).is_sound());
    assert!(!SpaceSaving::from_parts(vec![(1u32, 1), (2, 1)], 2, 0, 3).is_sound());
    assert!(!SpaceSaving::from_parts(vec![(1u32, 1), (2, 0)], 2, 0, 1).is_sound());
    assert!(!SpaceSaving::from_parts(vec![(1u32, 1), (2, 1)], 1, 0, 2).is_sound());

    let b = buckets();
    let mut d = DistSketch::new(8);
    for v in [1.5f64, -2.0, 0.0, 1.5] {
        d.observe(Double { bits: v.to_bits() }, &b);
    }
    let e = DistSketch::from_parts(
        d.cap(),
        d.positive().clone(),
        d.negative().clone(),
        d.zero_count(),
        d.count(),
        d.smallest(),
        d.largest(),
    );
    assert!(e.is_sound());
    assert_eq!(e.zero_count(), 1);
    assert_eq!(e.count(), 4);
    assert_eq!(f64::from_bits(e.smallest().bits), -2.0);
    assert_eq!(f64::from_bits(e.largest().bits), 1.5);
    assert_eq!(e.quantile(1, 2), d.quantile(1, 2));
    let heavy = BTreeMap::from([(3u32, 9u64)]);
    let zero = Double { bits: 0 };
    assert!(!DistSketch::from_parts(8, heavy, BTreeMap::new(), 0, 4, zero, zero).is_sound());
}

#[test]
fn a_resumed_handle_counts_on() {
    let mut h = Handle::new(buckets());
    for _ in 0..3 {
        h.feed_one(&Json::Bool(true));
    }
    let mut g = Handle::resume(round_trip(&h.sink.analyzer));
    assert_eq!(g.next_ordinal, 3);
    for _ in 0..2 {
        g.feed_one(&Json::Bool(true));
    }
    assert_eq!(g.sink.analyzer.doc_count(), 5);
    assert_eq!(g.next_ordinal, 5);
}

#[test]
fn nothing_is_taken_back() {
    let mut a = StreamingAnalyzer::with_caps(2, 2, buckets());
    a.document_begin(0);
    a.object_begin();
    for key in ["a", "b", "c"] {
        a.object_key(key);
        a.array_begin();
        a.bool(true);
        a.bool(true);
        if key == "a" {
            a.bool(true);
        }
        a.array_end();
    }
    a.object_end();
    a.document_end();
    let before = a.to_state_proto();
    let object = before.nodes[0].object.as_ref().unwrap();
    assert!(!object.record_alive);
    assert_eq!(object.fields.iter().map(|f| f.0.as_str()).collect::<Vec<_>>(), ["a", "b"]);
    let wide = before.nodes[object.fields[0].1].array.as_ref().unwrap();
    let narrow = before.nodes[object.fields[1].1].array.as_ref().unwrap();
    assert!(!wide.positional_alive);
    assert!(narrow.positional_alive);
    assert_eq!(narrow.positional.len(), 2);

    for doc in 1..50 {
        feed_string(&mut a, doc, "a", "text");
    }
    let after = a.to_state_proto();
    let later = after.nodes[0].object.as_ref().unwrap();
    assert!(!later.record_alive);
    assert_eq!(later.fields, object.fields);
    assert_eq!(later.obs, 50);
    assert_eq!(after.nodes[0].first_doc, 0);
    assert_eq!(after.nodes[0].last_doc, 49);
    let first = &after.nodes[later.fields[0].1];
    assert!(!first.array.as_ref().unwrap().positional_alive);
    assert_eq!(first.obs, before.nodes[object.fields[0].1].obs + 49);
}

#[test]
fn state_round_trip_via_jna_layer() {
    let mut h = Handle::new(buckets());
    h.feed_jsonl(b"{\"a\":1}\n{\"a\":2}\n{\"a\":3}\n");
    assert_eq!(h.sink.analyzer.doc_count(), 3);

    // Rebuild from the state; the new handle should agree on doc count + report.
    let mut h2 = Handle::resume(round_trip(&h.sink.analyzer));
    assert_eq!(h2.sink.analyzer.doc_count(), 3);
    assert_eq!(report(&h2.sink.analyzer), report(&h.sink.analyzer));

    // Continue feeding on the rebuilt handle.
    h2.feed_jsonl(b"{\"a\":4}\n{\"a\":5}\n");
    assert_eq!(h2.sink.analyzer.doc_count(), 5);
}

#[test]
fn analyze_jsonl_proto_one_shot() {
    let mut h = Handle::new(buckets());
    h.feed_jsonl(b"{\"x\":\"a\"}\n{\"x\":\"b\"}\n{\"x\":\"c\"}\n");
    assert_eq!(analyzer_to_proto(&h.sink.analyzer).doc_count, 3);
}
