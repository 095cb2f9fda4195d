use shapez::analyze::dist::Buckets;
use shapez::analyze::machine::{AnalyzerPolicy, Rate};
use shapez::analyze::tokens::Token;
use shapez::batch::lines::{split_records, Handle};
use shapez::batch::time::{TimePredicate, UnixTime};
use shapez::batch::{
    analyze, describe_directory, outcome_of, AnalysisOutcome, BatchError, DocumentSource, Driven,
    Feed, JsonlDecoder,
};
use shapez::ingest::{Analyzer, JsonEventSink};
use shapez::json::laws::measure;
use shapez::json::{Json, Number};
use shapez::node::ShapeKind;
use shapez::path::Path;
use shapez::report::{
    analyzer_to_proto, shape_node_to_proto, value_type_to_kind, LeafType, ReportKind,
};
use shapez::value::{StructField, ValueType};
use shapez::StreamingAnalyzer;

/// The bucket table of a sketch with a relative error of two in a hundred.
fn buckets() -> Buckets {
    let gamma: f64 = (1.0 + 0.02) / (1.0 - 0.02);
    let log_gamma = gamma.ln();
    let index = |bits: u64| (f64::from_bits(bits).ln() / log_gamma).ceil() as i32;
    let last = f64::MAX.to_bits();
    let mut bounds = Vec::new();
    for k in index(1)..index(last) {
        let (mut lo, mut hi) = (1u64, last);
        while lo < hi {
            let mid = lo + (hi - lo + 1) / 2;
            if index(mid) <= k {
                lo = mid;
            } else {
                hi = mid - 1;
            }
        }
        bounds.push(lo);
    }
    Buckets::new(bounds)
}

fn whole_number(n: i64) -> Json {
    Json::Number(Number::from_i64(n))
}

fn object(members: Vec<(&str, Json)>) -> Json {
    Json::Object(members.into_iter().map(|(k, v)| (k.to_string(), v)).collect())
}

// --- batch runs ---

#[test]
fn a_capped_run_stops_at_its_cap() {
    let policy = AnalyzerPolicy {
        max_docs: Some(42),
        min_docs_before_bail: 0,
        ..AnalyzerPolicy::default()
    };
    let mut sink = StreamingAnalyzer::with_policy(policy, buckets());
    let mut feed = Feed::new(None);
    for i in 0..500 {
        if !feed.offer(&mut sink, &whole_number(i)) {
            break;
        }
    }
    assert_eq!(feed.count(), 42);
    let driven = feed.driven();
    assert_eq!(driven, Driven { doc_count: 42, exhausted: false });
    let out = outcome_of(sink, driven, "numbers".to_string(), AnalyzerPolicy::default());
    assert_eq!(out.doc_count, 42);
    assert_eq!(out.source, "numbers");
    assert_eq!(out.bailed.as_deref(), Some("doc count cap reached"));
}

/// The numbers below a bound, one document each.
struct Numbers(i64);

impl DocumentSource for Numbers {
    fn drive(self, sink: &mut StreamingAnalyzer) -> Result<Driven, BatchError> {
        if self.0 < 0 {
            return Err(BatchError::Other("no such numbers".to_string()));
        }
        let mut feed = Feed::new(None);
        for i in 0..self.0 {
            if !feed.offer(sink, &whole_number(i)) {
                break;
            }
        }
        Ok(feed.driven())
    }

    fn describe(&self) -> String {
        format!("numbers below {}", self.0)
    }
}

fn capped_at_three(source: Numbers) -> AnalysisOutcome {
    let policy = AnalyzerPolicy {
        max_docs: Some(3),
        min_docs_before_bail: 0,
        ..AnalyzerPolicy::default()
    };
    analyze(source, policy, buckets()).unwrap()
}

#[test]
fn a_source_that_ends_at_the_cap_is_no_bail_out() {
    let out = capped_at_three(Numbers(3));
    assert_eq!(out.doc_count, 3);
    assert_eq!(out.bailed, None);
    assert_eq!(out.source, "numbers below 3");
    let out = capped_at_three(Numbers(2));
    assert_eq!(out.doc_count, 2);
    assert_eq!(out.bailed, None);
}

#[test]
fn a_source_that_is_cut_off_tells_why() {
    let out = capped_at_three(Numbers(4));
    assert_eq!(out.doc_count, 3);
    assert_eq!(out.bailed.as_deref(), Some("doc count cap reached"));
    assert_eq!(out.policy.max_docs, Some(3));
    assert!(matches!(out.shape.kind, ShapeKind::Type(ValueType::I64)));
}

#[test]
fn the_error_of_a_source_is_handed_on() {
    let r = analyze(Numbers(-1), AnalyzerPolicy::default(), buckets());
    assert_eq!(r.unwrap_err().to_string(), "no such numbers");
}

#[test]
fn a_feed_is_asked_between_files() {
    let policy = AnalyzerPolicy {
        max_docs: Some(1),
        min_docs_before_bail: 0,
        ..AnalyzerPolicy::default()
    };
    let mut sink = StreamingAnalyzer::with_policy(policy, buckets());
    let mut feed = Feed::new(None);
    feed.ask(&sink);
    assert!(!feed.is_satisfied());
    assert!(feed.offer(&mut sink, &whole_number(1)));
    feed.ask(&sink);
    assert!(feed.is_satisfied());
    assert_eq!(feed.driven(), Driven { doc_count: 1, exhausted: true });
    feed.cut_short();
    assert_eq!(feed.driven(), Driven { doc_count: 1, exhausted: false });
}

#[test]
fn a_run_without_limits_does_not_bail() {
    let policy = AnalyzerPolicy {
        record_view_cap: 128,
        reason: "investigating widget cardinality alert".into(),
        ..AnalyzerPolicy::default()
    };
    let mut sink = StreamingAnalyzer::with_policy(policy.clone(), buckets());
    let mut feed = Feed::new(None);
    assert!(feed.offer(&mut sink, &whole_number(1)));
    let out = outcome_of(sink, feed.driven(), String::new(), policy);
    assert_eq!(out.policy.record_view_cap, 128);
    assert_eq!(out.policy.reason, "investigating widget cardinality alert");
    assert!(out.bailed.is_none());
}

#[test]
fn too_many_evictions_end_a_run() {
    let policy = AnalyzerPolicy {
        cluster_cap: 1,
        max_eviction_rate: Some(Rate { num: 1, den: 2 }),
        min_docs_before_bail: 10,
        ..AnalyzerPolicy::default()
    };
    let mut sink = StreamingAnalyzer::with_policy(policy, buckets());
    let mut feed = Feed::new(None);
    for i in 0..100 {
        let name = format!("k{i}");
        let doc = Json::Array(vec![
            object(vec![(name.as_str(), whole_number(1))]),
            object(vec![("a", Json::Bool(true))]),
        ]);
        if !feed.offer(&mut sink, &doc) {
            break;
        }
    }
    assert_eq!(feed.count(), 10, "not before the warmup is over");
    assert!(sink.total_cluster_evictions() > 5);
    assert!(sink.should_bail().is_some());
}

#[test]
fn a_path_targets_the_subtree_of_each_document() {
    let mut sink = StreamingAnalyzer::new(buckets());
    let mut feed = Feed::new(Some(Path::parse(".payload").unwrap()));
    for i in 0..3 {
        let doc = object(vec![
            ("event", Json::Text("a".into())),
            ("payload", object(vec![("id", whole_number(i)), ("ok", Json::Bool(i % 2 == 0))])),
        ]);
        assert!(feed.offer(&mut sink, &doc));
    }
    assert!(feed.offer(&mut sink, &object(vec![("event", Json::Text("b".into()))])));
    assert_eq!(feed.count(), 3, "a document without the path is skipped");
    match sink.finish().kind {
        ShapeKind::Type(ValueType::Struct { fields }) => {
            let names: Vec<&str> = fields.iter().map(|f| f.name.as_str()).collect();
            assert_eq!(names, vec!["id", "ok"]);
        }
        other => panic!("expected payload struct, got {other:?}"),
    }
}

#[test]
fn directories_are_described_by_what_narrows_them() {
    let open = TimePredicate { start: None, end: None };
    assert_eq!(describe_directory("jsonl", "/data", false, &open, &None), "jsonl:/data");
    let at = Some(Path::parse(".payload[0]").unwrap());
    let window = TimePredicate { start: Some(UnixTime { nanos: 1_500_000_000 }), end: None };
    assert_eq!(
        describe_directory("jsonl", "/data", true, &window, &at),
        "jsonl:/data (filtered) [start=SystemTime { tv_sec: 1, tv_nsec: 500000000 }] at=.payload[0]"
    );
}

#[test]
fn lines_of_white_space_hold_no_record() {
    assert_eq!(JsonlDecoder.label(), "jsonl");
    assert!(JsonlDecoder.is_record("1"));
    assert!(JsonlDecoder.is_record("  {} "));
    assert!(!JsonlDecoder.is_record(""));
    assert!(!JsonlDecoder.is_record(" \t\u{2003}"));
}

#[test]
fn batch_errors_tell_their_source() {
    assert_eq!(BatchError::Io("gone".into()).to_string(), "io: gone");
    assert_eq!(BatchError::Source("bad line".into()).to_string(), "source: bad line");
    assert_eq!(BatchError::Other("why".into()).to_string(), "why");
}

// --- lines ---

#[test]
fn buffers_split_into_records() {
    let records = split_records(b"{\"a\":1}\r\n\n  \t\n[2]\n3\r");
    assert_eq!(records, vec![b"{\"a\":1}".to_vec(), b"[2]".to_vec(), b"3".to_vec()]);
    assert!(split_records(b"").is_empty());
    assert!(split_records(b"\n\r\n\x0c\n").is_empty());
    assert_eq!(split_records(b"\r\r\nx"), vec![b"x".to_vec()]);
}

#[test]
fn a_handle_counts_its_documents() {
    let mut h = Handle::new(buckets());
    for i in 0..3 {
        h.feed_one(&whole_number(i));
    }
    assert_eq!(h.next_ordinal, 3);
    let noted = h.sink.take_numbers();
    assert_eq!(noted.iter().map(|n| (n.0, n.1.bits)).collect::<Vec<_>>(), vec![
        (0, 0.0f64.to_bits()),
        (0, 1.0f64.to_bits()),
        (0, 2.0f64.to_bits()),
    ]);
    assert!(h.sink.take_numbers().is_empty());
    assert_eq!(h.sink.analyzer.doc_count(), 3);
    h.next_ordinal = u64::MAX;
    h.feed_one(&whole_number(9));
    assert_eq!(h.next_ordinal, 0);
    assert_eq!(h.sink.analyzer.doc_count(), 4);
}

/// The words and the counts of a report.
fn told(tokens: &[Token]) -> String {
    let mut out = String::new();
    for t in tokens {
        match t {
            Token::Text(s) => out.push_str(s),
            Token::Int(n) => out.push_str(&n.to_string()),
            _ => {}
        }
    }
    out
}

#[test]
fn feed_jsonl_round_trip() {
    let mut h = Handle::new(buckets());
    let input = b"{\"a\":1}\n{\"a\":2}\n\n{not json}\n{\"a\":3}\n";
    assert_eq!(h.feed_jsonl(input), Some(3));
    assert_eq!(h.sink.analyzer.doc_count(), 3);
    assert!(told(&h.sink.analyzer.report()).contains("3 documents"));
}

#[test]
fn feed_json_string_one_each() {
    let mut h = Handle::new(buckets());
    assert_eq!(h.feed_json_string(r#"{"x":1}"#), Some(1));
    assert_eq!(h.feed_json_string("not valid"), Some(0));
    assert_eq!(h.sink.analyzer.doc_count(), 1);
}

#[test]
fn analyze_jsonl_one_shot() {
    let mut h = Handle::new(buckets());
    h.feed_jsonl(b"{\"a\":1}\n{\"a\":2}\n");
    assert!(told(&h.sink.analyzer.report()).contains("2 documents"));
}

#[test]
fn a_buffer_is_fed_as_its_documents_are() {
    let mut whole = Handle::new(buckets());
    assert_eq!(whole.feed_jsonl(b"{\"a\":[1,2.5]}\r\n7\n\"x\"\n"), Some(3));
    let mut apart = Handle::new(buckets());
    apart.feed_one(&object(vec![(
        "a",
        Json::Array(vec![
            whole_number(1),
            Json::Number(Number::Float(shapez::double::Double { bits: 2.5f64.to_bits() })),
        ]),
    )]));
    apart.feed_one(&whole_number(7));
    assert_eq!(apart.feed_json_string("\"x\""), Some(1));
    assert_eq!(whole.next_ordinal, 3);
    assert_eq!(apart.next_ordinal, 3);
    assert_eq!(
        format!("{:?}", whole.sink.analyzer.report()),
        format!("{:?}", apart.sink.analyzer.report())
    );
    let numbers = |h: &mut Handle| {
        h.sink.take_numbers().iter().map(|n| (n.0, n.1.bits)).collect::<Vec<_>>()
    };
    assert_eq!(numbers(&mut whole), numbers(&mut apart));
}

#[test]
fn a_buffer_may_be_fed_in_parts() {
    let mut whole = Handle::new(buckets());
    let mut parts = Handle::new(buckets());
    assert_eq!(whole.feed_jsonl(b"{\"a\":1}\nbad\n{\"a\":2}\r\n[3]\n \t\n"), Some(3));
    assert_eq!(parts.feed_jsonl(b"{\"a\":1}\nbad"), Some(1));
    assert_eq!(parts.feed_jsonl(b"{\"a\":2}\r\n[3]"), Some(2));
    assert_eq!(parts.feed_jsonl(b" \t\n"), Some(0));
    assert_eq!(whole.next_ordinal, parts.next_ordinal);
    assert_eq!(
        format!("{:?}", whole.sink.analyzer.report()),
        format!("{:?}", parts.sink.analyzer.report())
    );
}

#[test]
fn without_a_cluster_only_elements_are_refused() {
    let policy = || AnalyzerPolicy { cluster_cap: 0, ..AnalyzerPolicy::default() };
    let sink = StreamingAnalyzer::with_policy(policy(), buckets());
    let mut h = Handle::resume(sink);
    assert_eq!(h.feed_jsonl(b"{\"a\":{\"b\":1}}\n[]\n\"x\"\n"), Some(3));
    assert_eq!(h.sink.analyzer.doc_count(), 3);
    let array = Json::Array(vec![whole_number(1)]);
    assert_eq!(measure(&array, 0), None);
    assert_eq!(measure(&array, 1), Some(3));
    assert_eq!(measure(&Json::Array(vec![]), 0), Some(2));
    assert_eq!(h.feed_jsonl(b"7\n[1]\n"), None);
    assert_eq!(h.feed_json_string("{\"k\":[[]]}"), None);
    assert_eq!(h.sink.analyzer.doc_count(), 3, "the handle is as it was");
    assert_eq!(h.next_ordinal, 3);
}

// --- the structured report ---

fn feed_object(a: &mut StreamingAnalyzer, doc: u64, key: &str, val_i64: i64) {
    a.document_begin(doc);
    a.object_begin();
    a.object_key(key);
    a.i64(val_i64);
    a.object_end();
    a.document_end();
}

#[test]
fn an_empty_analyzer_has_a_report() {
    let a = StreamingAnalyzer::new(buckets());
    let report = analyzer_to_proto(&a);
    assert_eq!(report.doc_count, 0);
    assert!(matches!(report.shape.kind, ReportKind::Absent));
}

#[test]
fn a_simple_record_is_reported() {
    let mut a = StreamingAnalyzer::new(buckets());
    for i in 0..5 {
        feed_object(&mut a, i, "x", i as i64);
    }
    let report = analyzer_to_proto(&a);
    assert_eq!(report.doc_count, 5);
    assert_eq!(report.shape.stats.observation_count, 5);
    // 5 stable rows are compressed, and expanded back to a record.
    let fields = match report.shape.kind {
        ReportKind::Record { fields } => fields,
        other => panic!("expected Record at root, got {other:?}"),
    };
    assert_eq!(fields.len(), 1);
    assert_eq!(fields[0].name, "x");
    assert!(matches!(fields[0].shape.kind, ReportKind::Leaf(LeafType::I64)));
}

#[test]
fn variant_arms_are_reported() {
    let mut a = StreamingAnalyzer::new(buckets());
    for i in 0..3 {
        feed_object(&mut a, i, "k", i as i64);
    }
    a.document_begin(3);
    a.object_begin();
    a.object_key("k");
    a.string("hi");
    a.object_end();
    a.document_end();

    let report = analyzer_to_proto(&a);
    assert_eq!(report.doc_count, 4);
    let fields = match report.shape.kind {
        ReportKind::Record { fields } => fields,
        other => panic!("expected Record at root, got {other:?}"),
    };
    let k_field = fields.iter().find(|f| f.name == "k").expect("k field");
    let arms = match &k_field.shape.kind {
        ReportKind::VariantKind { arms } => arms,
        other => panic!("expected Variant at .k, got {other:?}"),
    };
    let has = |t: LeafType| arms.iter().any(|n| matches!(n.kind, ReportKind::Leaf(l) if l == t));
    assert!(has(LeafType::I64) && has(LeafType::String));
}

#[test]
fn compressed_array_value_type_expands_to_arraykind() {
    // value_type_to_kind is the path that expands Type(Array{...}) back
    // into the rich form. Exercise it directly.
    let kind = value_type_to_kind(&ValueType::Array {
        element_type: Box::new(ValueType::I64),
        elements_nullable: false,
    });
    let (element, elements_nullable) = match kind {
        ReportKind::Array { element, elements_nullable } => (element, elements_nullable),
        other => panic!("expected Array, got {other:?}"),
    };
    assert_eq!(elements_nullable, false);
    let leaf = match element.kind {
        ReportKind::Leaf(l) => l,
        other => panic!("expected Leaf, got {other:?}"),
    };
    assert_eq!(leaf, LeafType::I64);
}

#[test]
fn compressed_struct_value_type_expands_to_recordkind() {
    let kind = value_type_to_kind(&ValueType::Struct {
        fields: vec![
            StructField {
                name: "n".into(),
                human_name: "".into(),
                value_type: ValueType::I64,
                nullable: false,
            },
            StructField {
                name: "s".into(),
                human_name: "".into(),
                value_type: ValueType::String,
                nullable: true,
            },
        ],
    });
    let fields = match kind {
        ReportKind::Record { fields } => fields,
        other => panic!("expected Record, got {other:?}"),
    };
    assert_eq!(fields.len(), 2);
    assert_eq!(fields[0].name, "n");
    assert_eq!(fields[1].name, "s");
    assert_eq!(fields[1].nullable, true);
}

#[test]
fn what_is_below_a_compressed_shape_has_no_statistics() {
    let mut a = StreamingAnalyzer::new(buckets());
    for i in 0..4 {
        feed_object(&mut a, i, "x", 1);
    }
    let report = shape_node_to_proto(&a.build_shape());
    assert_eq!(report.stats.observation_count, 4);
    assert_eq!(report.stats.last_doc_ordinal, 3);
    match report.kind {
        ReportKind::Record { fields } => {
            assert_eq!(fields[0].shape.stats.observation_count, 0)
        }
        other => panic!("expected Record, got {other:?}"),
    }
}
