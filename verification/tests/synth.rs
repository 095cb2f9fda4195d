use rand::rngs::mock::StepRng;
use rand::{rngs::StdRng, Rng, SeedableRng};

use shapez::analyze::formats::{detect_format, StringFormat as Detected};
use shapez::double::Double;
use shapez::json::lowering::{lower, Value};
use shapez::json::{Json, Number};
use shapez::synth::corpus::{read_schema, Corpus, CorpusError, Generator, Manifest, SchemaEntry};
use shapez::synth::draft::Draft;
use shapez::synth::random::Dice;
use shapez::synth::instantiate::{instantiate, is_shown, PRESENT_BELOW};
use shapez::synth::schema::{parse, SchemaError};
use shapez::synth::shape::{ArrayKind, ArraySpec, FieldSpec, ObjectSpec, Shape, StringFormat};
use shapez::synth::words::{
    date_text, date_time_text, email_text, ipv4_text, ipv6_text, url_text, uuid_text,
};

fn whole_number(n: i64) -> Json {
    Json::Number(Number::from_i64(n))
}

fn text(s: &str) -> Json {
    Json::Text(s.to_string())
}

fn object(members: Vec<(&str, Json)>) -> Json {
    Json::Object(members.into_iter().map(|(k, v)| (k.to_string(), v)).collect())
}

fn typed(name: &str) -> Json {
    object(vec![("type", text(name))])
}

fn formatted(name: &str) -> Json {
    object(vec![("format", text(name)), ("type", text("string"))])
}

fn whole(d: &Draft) -> Json {
    let doubles = d
        .words()
        .into_iter()
        .map(|w| Double { bits: StepRng::new(w, 0).gen_range(-1000.0..1000.0f64).to_bits() })
        .collect();
    d.complete(&doubles)
}

fn listing(names: &[&str]) -> Manifest {
    Manifest {
        schemas: names
            .iter()
            .map(|n| SchemaEntry {
                name: n.to_string(),
                shows: String::new(),
                dimensions: vec!["none".into()],
            })
            .collect(),
    }
}

fn files(texts: &[&str]) -> Vec<Result<String, String>> {
    texts.iter().map(|t| Ok(t.to_string())).collect()
}

/// A small corpus that touches every form of a schema.
fn corpus() -> Corpus {
    let record = r#"{
        "type": "object",
        "properties": {
            "id": { "type": "string", "format": "uuid" },
            "score": { "type": "number" },
            "born": { "type": "string", "format": "date" },
            "nick": { "type": "string" }
        },
        "required": ["id", "score"]
    }"#;
    let mapping = r#"{
        "type": "object",
        "propertyNames": { "format": "email" },
        "additionalProperties": { "type": "integer" },
        "minProperties": 1,
        "maxProperties": 4
    }"#;
    let tuple = r#"{
        "type": "array",
        "prefixItems": [{ "type": "number" }, { "type": "boolean" }, { "type": "null" }]
    }"#;
    let choice = r#"{
        "oneOf": [
            { "const": "fixed" },
            { "enum": [1, 2] },
            {
                "type": "array",
                "items": { "type": "string", "format": "ipv6" },
                "minItems": 2,
                "maxItems": 3
            }
        ]
    }"#;
    let texts =
        [record, mapping, tuple, choice, r#"{"type":"integer"}"#, r#"{"type":"string"}"#];
    Corpus::load(listing(&["record", "mapping", "tuple", "choice", "int", "word"]), &files(&texts))
        .unwrap()
}

#[test]
fn corpus_loads_all_schemas() {
    let corpus = corpus();
    assert_eq!(corpus.shapes().len(), corpus.manifest().schemas.len());
    assert!(corpus.shapes().len() >= 6);
    assert!(corpus.shapes().iter().all(|s| s.is_drawable()));
}

fn take(corpus: &Corpus, seed: u64, n: usize) -> Vec<Value> {
    let mut g = Generator::new(corpus, Some(seed));
    assert!(g.is_ready());
    assert_eq!(g.seed(), seed);
    (0..n).map(|_| lower(&whole(&g.next()))).collect()
}

#[test]
fn generator_emits_values() {
    let corpus = corpus();
    assert_eq!(take(&corpus, 42, 50).len(), 50);
}

#[test]
fn seed_is_deterministic() {
    let corpus = corpus();
    assert_eq!(take(&corpus, 7, 20), take(&corpus, 7, 20));
}

#[test]
fn different_seeds_diverge() {
    let corpus = corpus();
    assert_ne!(take(&corpus, 1, 20), take(&corpus, 2, 20));
}

#[test]
fn lower_corpus_stream_without_panic() {
    let corpus = corpus();
    assert_eq!(take(&corpus, 13, 200).len(), 200);
}

#[test]
fn a_generator_without_a_seed_picks_one() {
    let corpus = corpus();
    let seeds: Vec<u64> = (0..8).map(|_| Generator::new(&corpus, None).seed()).collect();
    assert!(seeds.iter().any(|s| *s != seeds[0]));
}

#[test]
fn an_empty_corpus_is_not_ready() {
    let corpus = Corpus::load(listing(&[]), &vec![]).unwrap();
    assert!(!Generator::new(&corpus, Some(1)).is_ready());
}

#[test]
fn a_fault_in_a_schema_is_the_corpus_error() {
    let err = Corpus::load(listing(&["bad"]), &files(&[r#"{"type":"colour"}"#])).unwrap_err();
    assert!(matches!(&err, CorpusError::Schema(SchemaError::InvalidType(t)) if t == "colour"));
    assert_eq!(err.to_string(), "schema: invalid type: colour");
    assert_eq!(CorpusError::Io("gone".into()).to_string(), "io: gone");
    assert_eq!(CorpusError::Json("torn".into()).to_string(), "json: torn");
}

#[test]
fn the_first_fault_of_the_files_is_the_corpus_error() {
    let good = || Ok::<String, String>(r#"{"type":"null"}"#.to_string());
    let torn = || Ok::<String, String>("{".to_string());
    let gone = || Err::<String, String>("gone".to_string());
    let bad = || Ok::<String, String>(r#"{"type":"colour"}"#.to_string());
    let load = |v: Vec<Result<String, String>>| {
        Corpus::load(listing(&["a", "b", "c", "d"]), &v).unwrap_err().to_string()
    };
    assert_eq!(load(vec![good(), gone(), torn(), bad()]), "io: gone");
    assert_eq!(load(vec![good(), bad(), gone(), torn()]), "schema: invalid type: colour");
    let want = serde_json::from_str::<serde_json::Value>("{").unwrap_err().to_string();
    assert_eq!(load(vec![torn(), bad(), gone(), good()]), format!("json: {want}"));
}

#[test]
fn a_schema_is_read_from_its_text() {
    match read_schema(r#" {"type": "array", "items": {"type": "integer"}, "maxItems": 2} "#) {
        Ok(Shape::Array(ArraySpec { kind: ArrayKind::Uniform(item), min_len, max_len })) => {
            assert!(matches!(*item, Shape::Int));
            assert_eq!((min_len, max_len), (0, 2));
        }
        other => panic!("{other:?}"),
    }
    assert!(matches!(read_schema("[1,"), Err(CorpusError::Json(_))));
    assert!(matches!(read_schema("[1]"), Err(CorpusError::Schema(SchemaError::Missing(_)))));
}

#[test]
fn documents_taken_at_once_are_those_taken_one_by_one() {
    let corpus = corpus();
    let mut one = Generator::new(&corpus, Some(9));
    let mut all = Generator::new(&corpus, Some(9));
    let single: Vec<Value> = (0..30).map(|_| lower(&whole(&one.next()))).collect();
    let mut joined = all.take(12);
    joined.extend(all.take(18));
    let joined: Vec<Value> = joined.iter().map(|d| lower(&whole(d))).collect();
    assert_eq!(single, joined);
}

// --- schemas ---

#[test]
fn schema_faults_are_told() {
    let err = |j: &Json| parse(j).unwrap_err().to_string();
    assert_eq!(err(&object(vec![])), "missing key: type");
    assert_eq!(err(&whole_number(3)), "missing key: type");
    assert_eq!(err(&typed("array")), "missing key: items");
    assert_eq!(err(&typed("tree")), "invalid type: tree");
    assert_eq!(SchemaError::Other("odd".into()).to_string(), "odd");
    let nested = object(vec![("oneOf", Json::Array(vec![typed("null"), typed("array")]))]);
    assert_eq!(err(&nested), "missing key: items");
}

#[test]
fn formats_are_read() {
    for (name, want) in [
        ("uuid", Some(StringFormat::Uuid)),
        ("date-time", Some(StringFormat::DateTime)),
        ("date", Some(StringFormat::Date)),
        ("email", Some(StringFormat::Email)),
        ("ipv4", Some(StringFormat::Ipv4)),
        ("ipv6", Some(StringFormat::Ipv6)),
        ("uri", Some(StringFormat::Url)),
        ("url", Some(StringFormat::Url)),
        ("phone", None),
    ] {
        assert!(matches!(parse(&formatted(name)).unwrap(), Shape::String(f) if f == want));
    }
}

#[test]
fn sizes_have_defaults_and_keep_their_low_half() {
    let array = object(vec![("items", typed("null")), ("type", text("array"))]);
    match parse(&array).unwrap() {
        Shape::Array(ArraySpec { kind: ArrayKind::Uniform(_), min_len, max_len }) => {
            assert_eq!((min_len, max_len), (0, 5))
        }
        other => panic!("{other:?}"),
    }
    let wide = object(vec![
        ("items", typed("null")),
        ("maxItems", Json::Number(Number::Positive(0x1_0000_0007))),
        ("minItems", whole_number(-1)),
        ("type", text("array")),
    ]);
    match parse(&wide).unwrap() {
        Shape::Array(spec) => assert_eq!((spec.min_len, spec.max_len), (0, 7)),
        other => panic!("{other:?}"),
    }
    let mapping =
        object(vec![("additionalProperties", typed("null")), ("type", text("object"))]);
    match parse(&mapping).unwrap() {
        Shape::Object(ObjectSpec::Mapping { key_format, min_size, max_size, .. }) => {
            assert_eq!((key_format, min_size, max_size), (None, 2, 6))
        }
        other => panic!("{other:?}"),
    }
}

#[test]
fn a_tuple_is_at_least_as_long_as_its_prefix() {
    let tuple = object(vec![
        ("maxItems", whole_number(1)),
        ("minItems", whole_number(9)),
        ("prefixItems", Json::Array(vec![typed("null"), typed("boolean")])),
        ("type", text("array")),
    ]);
    match parse(&tuple).unwrap() {
        Shape::Array(spec) => assert_eq!((spec.min_len, spec.max_len), (9, 2)),
        other => panic!("{other:?}"),
    }
}

#[test]
fn properties_outweigh_additional_ones() {
    let schema = object(vec![
        ("additionalProperties", typed("null")),
        ("properties", object(vec![("a", typed("null")), ("b", typed("null"))])),
        ("required", Json::Array(vec![whole_number(1), text("b")])),
        ("type", text("object")),
    ]);
    match parse(&schema).unwrap() {
        Shape::Object(ObjectSpec::Record { fields }) => {
            let told: Vec<(&str, bool)> =
                fields.iter().map(|f| (f.name.as_str(), f.required)).collect();
            assert_eq!(told, vec![("a", false), ("b", true)]);
        }
        other => panic!("{other:?}"),
    }
}

// --- texts ---

#[test]
fn texts_have_their_form() {
    assert_eq!(uuid_text(&[0xff; 16]), "ffffffff-ffff-4fff-bfff-ffffffffffff");
    assert_eq!(uuid_text(&[0; 16]), "00000000-0000-4000-8000-000000000000");
    assert_eq!(date_text(2024, 2, 9), "2024-02-09");
    assert_eq!(date_time_text(2026, 12, 28, 3, 4, 5), "2026-12-28T03:04:05Z");
    assert_eq!(ipv4_text(0, 10, 200, 255), "0.10.200.255");
    assert_eq!(ipv6_text(&vec![0, 1, 0xabcd, 0xf]), "0:1:abcd:f");
    assert_eq!(email_text(&"ann".into(), &"host".into()), "ann@host.com");
    assert_eq!(url_text(&"host".into(), &"page".into()), "https://host.com/page");
}

#[test]
fn drawn_texts_are_recognized() {
    let mut rng = Dice::seeded(8);
    for (format, want) in [
        (StringFormat::Uuid, Detected::Uuid),
        (StringFormat::DateTime, Detected::IsoTimestamp),
        (StringFormat::Date, Detected::IsoDate),
        (StringFormat::Email, Detected::Email),
        (StringFormat::Ipv4, Detected::Ipv4),
        (StringFormat::Ipv6, Detected::Ipv6),
        (StringFormat::Url, Detected::UrlHttp),
    ] {
        for _ in 0..50 {
            match whole(&instantiate(&Shape::String(Some(format)), &mut rng)) {
                Json::Text(s) => assert_eq!(detect_format(&s), want, "{s}"),
                other => panic!("{other:?}"),
            }
        }
    }
}

// --- drawing ---

#[test]
fn templates_that_cannot_be_drawn_are_told_apart() {
    let uniform = |min_len, max_len| {
        Shape::Array(ArraySpec {
            kind: ArrayKind::Uniform(Box::new(Shape::Null)),
            min_len,
            max_len,
        })
    };
    assert!(uniform(2, 2).is_drawable());
    assert!(!uniform(3, 2).is_drawable());
    assert!(!Shape::Enum(vec![]).is_drawable());
    assert!(!Shape::Variant(vec![]).is_drawable());
    assert!(!Shape::Variant(vec![Shape::Null, uniform(3, 2)]).is_drawable());
    let record = |shape| {
        Shape::Object(ObjectSpec::Record {
            fields: vec![FieldSpec { name: "a".into(), shape, required: false }],
        })
    };
    assert!(record(Shape::Bool).is_drawable());
    assert!(!record(Shape::Enum(vec![])).is_drawable());
    // A tuple is cut to its positions, so its own bounds may cross.
    assert!(Shape::Array(ArraySpec {
        kind: ArrayKind::Tuple(vec![Shape::Null]),
        min_len: 9,
        max_len: 2,
    })
    .is_drawable());
}

#[test]
fn optional_fields_are_there_seven_times_in_ten() {
    assert!(is_shown(0));
    assert!(is_shown((PRESENT_BELOW - 1) << 11));
    assert!(!is_shown(PRESENT_BELOW << 11));
    for w in [0u64, 1 << 40, (PRESENT_BELOW << 11) - 1, PRESENT_BELOW << 11, u64::MAX] {
        assert_eq!(is_shown(w), StepRng::new(w, 0).gen::<f64>() < 0.7);
    }
}

#[test]
fn required_fields_are_always_there() {
    let corpus = corpus();
    let mut rng = Dice::seeded(4);
    let mut without = 0;
    for _ in 0..200 {
        match whole(&instantiate(&corpus.shapes()[0], &mut rng)) {
            Json::Object(members) => {
                let names: Vec<&str> = members.iter().map(|m| m.0.as_str()).collect();
                assert!(names.contains(&"id") && names.contains(&"score"));
                without += !names.contains(&"nick") as u32;
                for (name, v) in &members {
                    if name == "score" {
                        assert!(matches!(v, Json::Number(Number::Float(_))));
                    }
                }
            }
            other => panic!("{other:?}"),
        }
    }
    assert!((30..=90).contains(&without), "{without} of 200 without the optional field");
}

#[test]
fn completion_fills_in_order_and_drops_what_is_not_finite() {
    let d = Draft::Array(vec![
        Draft::Float(7),
        Draft::Object(vec![("a".into(), Draft::Float(9))]),
        Draft::Value(Json::Bool(true)),
    ]);
    assert_eq!(d.words(), vec![7, 9]);
    let doubles = vec![
        Double { bits: 1.5f64.to_bits() },
        Double { bits: f64::INFINITY.to_bits() },
    ];
    match d.complete(&doubles) {
        Json::Array(items) => {
            assert!(matches!(items[0], Json::Number(Number::Float(x)) if x == doubles[0]));
            match &items[1] {
                Json::Object(m) => assert!(m[0].0 == "a" && matches!(m[0].1, Json::Null)),
                other => panic!("{other:?}"),
            }
        }
        other => panic!("{other:?}"),
    }
}

#[test]
fn draws_are_those_of_the_generator() {
    let mut a = Dice::seeded(31);
    let mut b = StdRng::seed_from_u64(31);
    let shape = Shape::Object(ObjectSpec::Record {
        fields: vec![
            FieldSpec { name: "f".into(), shape: Shape::Float, required: true },
            FieldSpec { name: "i".into(), shape: Shape::Int, required: false },
            FieldSpec { name: "u".into(), shape: Shape::Bool, required: true },
        ],
    });
    for _ in 0..100 {
        let mut want: Vec<(String, String)> = Vec::new();
        want.push(("f".into(), format!("{}", b.gen_range(-1000.0..1000.0f64))));
        if b.gen::<f64>() < 0.7 {
            want.push(("i".into(), format!("{}", b.gen_range(-10_000..=10_000i64))));
        }
        want.push(("u".into(), format!("{}", b.gen::<bool>())));
        let got: Vec<(String, String)> = match whole(&instantiate(&shape, &mut a)) {
            Json::Object(members) => members
                .into_iter()
                .map(|(k, v)| {
                    let told = match v {
                        Json::Bool(b) => format!("{b}"),
                        Json::Number(Number::Positive(n)) => format!("{n}"),
                        Json::Number(Number::Negative(n)) => format!("{n}"),
                        Json::Number(Number::Float(d)) => format!("{}", f64::from_bits(d.bits)),
                        other => panic!("{other:?}"),
                    };
                    (k, told)
                })
                .collect(),
            other => panic!("{other:?}"),
        };
        assert_eq!(got, want);
    }
}

fn plain_lorem(rng: &mut StdRng, low: usize, high: usize) -> String {
    let len = rng.gen_range(low..=high);
    (0..len).map(|_| rng.gen_range(b'a'..=b'z') as char).collect()
}

/// The draws of a text, made with the generator itself.
fn plain_text(rng: &mut StdRng, format: Option<StringFormat>) -> String {
    match format {
        Some(StringFormat::Uuid) => {
            let mut bytes = [0u8; 16];
            rng.fill(&mut bytes[..]);
            uuid_text(&bytes)
        }
        Some(StringFormat::DateTime) => format!(
            "{:04}-{:02}-{:02}T{:02}:{:02}:{:02}Z",
            rng.gen_range(2020..=2026),
            rng.gen_range(1..=12),
            rng.gen_range(1..=28),
            rng.gen_range(0..24),
            rng.gen_range(0..60),
            rng.gen_range(0..60),
        ),
        Some(StringFormat::Date) => format!(
            "{:04}-{:02}-{:02}",
            rng.gen_range(2020..=2026),
            rng.gen_range(1..=12),
            rng.gen_range(1..=28),
        ),
        Some(StringFormat::Email) => {
            format!("{}@{}.com", plain_lorem(rng, 4, 8), plain_lorem(rng, 4, 8))
        }
        Some(StringFormat::Ipv4) => format!(
            "{}.{}.{}.{}",
            rng.gen_range(0..=255),
            rng.gen_range(0..=255),
            rng.gen_range(0..=255),
            rng.gen_range(0..=255),
        ),
        Some(StringFormat::Ipv6) => {
            let parts: Vec<String> =
                (0..8).map(|_| format!("{:x}", rng.gen_range(0u16..=0xffff))).collect();
            parts.join(":")
        }
        Some(StringFormat::Url) => {
            format!("https://{}.com/{}", plain_lorem(rng, 4, 8), plain_lorem(rng, 4, 8))
        }
        None => plain_lorem(rng, 3, 12),
    }
}

#[test]
fn texts_follow_the_generator() {
    let mut a = Dice::seeded(77);
    let mut b = StdRng::seed_from_u64(77);
    for _ in 0..60 {
        for format in [
            None,
            Some(StringFormat::Uuid),
            Some(StringFormat::DateTime),
            Some(StringFormat::Date),
            Some(StringFormat::Email),
            Some(StringFormat::Ipv4),
            Some(StringFormat::Ipv6),
            Some(StringFormat::Url),
        ] {
            match whole(&instantiate(&Shape::String(format), &mut a)) {
                Json::Text(s) => assert_eq!(s, plain_text(&mut b, format)),
                other => panic!("{other:?}"),
            }
        }
    }
}

#[test]
fn lengths_and_choices_follow_the_generator() {
    let mut a = Dice::seeded(78);
    let mut b = StdRng::seed_from_u64(78);
    let array = read_schema(r#"{"type":"array","items":{"type":"boolean"},"minItems":1,"maxItems":9}"#)
        .unwrap();
    let choice = read_schema(r#"{"oneOf":[{"enum":[10,11,12]},{"const":5},{"type":"integer"}]}"#)
        .unwrap();
    let tuple = Shape::Array(ArraySpec {
        kind: ArrayKind::Tuple(vec![Shape::Bool, Shape::Bool, Shape::Bool]),
        min_len: 1,
        max_len: 3,
    });
    let mapping = read_schema(
        r#"{"type":"object","additionalProperties":{"type":"integer"},"maxProperties":5}"#,
    )
    .unwrap();
    let flags = |j: &Json| match j {
        Json::Array(items) => {
            items.iter().map(|i| matches!(i, Json::Bool(true))).collect::<Vec<_>>()
        }
        other => panic!("{other:?}"),
    };
    let number = |j: &Json| match j {
        Json::Number(Number::Positive(n)) => *n as i64,
        Json::Number(Number::Negative(n)) => *n,
        other => panic!("{other:?}"),
    };
    for _ in 0..100 {
        let n = b.gen_range(1..=9u32);
        let want: Vec<bool> = (0..n).map(|_| b.gen()).collect();
        assert_eq!(flags(&whole(&instantiate(&array, &mut a))), want);

        let want = match b.gen_range(0..3usize) {
            0 => [10, 11, 12][b.gen_range(0..3usize)],
            1 => 5,
            _ => b.gen_range(-10_000..=10_000i64),
        };
        assert_eq!(number(&whole(&instantiate(&choice, &mut a))), want);

        let n = b.gen_range(1..=3usize);
        let want: Vec<bool> = (0..n).map(|_| b.gen()).collect();
        assert_eq!(flags(&whole(&instantiate(&tuple, &mut a))), want);

        let n = b.gen_range(2..=5u32);
        let mut want = std::collections::BTreeMap::new();
        for _ in 0..n {
            let key = plain_lorem(&mut b, 3, 12);
            want.insert(key, b.gen_range(-10_000..=10_000i64));
        }
        match whole(&instantiate(&mapping, &mut a)) {
            Json::Object(members) => {
                let got: Vec<(String, i64)> =
                    members.iter().map(|(k, v)| (k.clone(), number(v))).collect();
                assert_eq!(got, want.into_iter().collect::<Vec<_>>());
            }
            other => panic!("{other:?}"),
        }
    }
}

#[test]
fn a_generator_draws_its_template_first() {
    let texts = [r#"{"type":"integer"}"#, r#"{"type":"boolean"}"#, r#"{"type":"string"}"#];
    let corpus = Corpus::load(listing(&["a", "b", "c"]), &files(&texts)).unwrap();
    let mut g = Generator::new(&corpus, Some(5));
    let mut b = StdRng::seed_from_u64(5);
    for _ in 0..100 {
        let got = whole(&g.next());
        match b.gen_range(0..3usize) {
            0 => {
                let want = b.gen_range(-10_000..=10_000i64);
                assert!(matches!(got, Json::Number(n) if n == Number::from_i64(want)));
            }
            1 => {
                let want: bool = b.gen();
                assert!(matches!(got, Json::Bool(v) if v == want));
            }
            _ => {
                let want = plain_text(&mut b, None);
                assert!(matches!(got, Json::Text(s) if s == want));
            }
        }
    }
}
