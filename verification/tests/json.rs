use shapez::double::Double;
use shapez::ingest::record::{Event, Recorder};
use shapez::json::events::drive_document;
use shapez::json::lowering::{lower, MapKey, Value};
use shapez::json::select::navigate;
use shapez::json::{Json, Number};
use shapez::path::Path;

fn whole_number(n: i64) -> Json {
    Json::Number(Number::from_i64(n))
}

fn float(v: f64) -> Json {
    Json::Number(Number::Float(double(v)))
}

fn double(v: f64) -> Double {
    Double { bits: v.to_bits() }
}

fn text(s: &str) -> Json {
    Json::Text(s.to_string())
}

fn object(members: Vec<(&str, Json)>) -> Json {
    Json::Object(members.into_iter().map(|(k, v)| (k.to_string(), v)).collect())
}

fn key(s: &str) -> MapKey {
    MapKey::String(s.to_string())
}

// --- lower ---

#[test]
fn lower_null() {
    assert_eq!(lower(&Json::Null), Value::Null);
}

#[test]
fn lower_bool() {
    assert_eq!(lower(&Json::Bool(true)), Value::Bool(true));
    assert_eq!(lower(&Json::Bool(false)), Value::Bool(false));
}

#[test]
fn lower_signed_integer() {
    assert_eq!(lower(&whole_number(-42)), Value::I64(-42));
    assert_eq!(lower(&whole_number(0)), Value::I64(0));
    assert_eq!(lower(&whole_number(i64::MAX)), Value::I64(i64::MAX));
}

#[test]
fn lower_large_unsigned_uses_u64() {
    let big = (i64::MAX as u64) + 1;
    let v = Json::Number(Number::Positive(big));
    assert_eq!(lower(&v), Value::U64(big));
}

#[test]
fn lower_float() {
    assert_eq!(lower(&float(1.5)), Value::F64(double(1.5)));
    assert_eq!(lower(&float(-2.25)), Value::F64(double(-2.25)));
}

#[test]
fn lower_string_preserves_unicode() {
    assert_eq!(lower(&text("")), Value::String(String::new()));
    assert_eq!(lower(&text("hello")), Value::String("hello".into()));
    assert_eq!(
        lower(&text("\u{1f600}\u{1f44d}")),
        Value::String("\u{1f600}\u{1f44d}".into()),
    );
}

#[test]
fn lower_empty_array() {
    assert_eq!(lower(&Json::Array(vec![])), Value::Array(vec![]));
}

#[test]
fn lower_nested_array() {
    let v = Json::Array(vec![whole_number(1), Json::Array(vec![whole_number(2), whole_number(3)]), text("x")]);
    let expected = Value::Array(vec![
        Value::I64(1),
        Value::Array(vec![Value::I64(2), Value::I64(3)]),
        Value::String("x".into()),
    ]);
    assert_eq!(lower(&v), expected);
}

#[test]
fn lower_empty_object() {
    assert_eq!(lower(&object(vec![])), Value::Mapping(vec![]));
}

#[test]
fn lower_object_keys_become_mapkey_string() {
    let v = object(vec![("a", whole_number(1)), ("b", text("x"))]);
    let expected = vec![(key("a"), Value::I64(1)), (key("b"), Value::String("x".into()))];
    assert_eq!(lower(&v), Value::Mapping(expected));
}

#[test]
fn lower_nested_object() {
    let v = object(vec![("outer", object(vec![("inner", Json::Array(vec![whole_number(1), whole_number(2)]))]))]);
    let inner = vec![(key("inner"), Value::Array(vec![Value::I64(1), Value::I64(2)]))];
    let outer = vec![(key("outer"), Value::Mapping(inner))];
    assert_eq!(lower(&v), Value::Mapping(outer));
}

#[test]
fn lowered_maps_ascend_and_keep_the_last_of_equal_keys() {
    let v = object(vec![("b", whole_number(1)), ("a", whole_number(2)), ("b", whole_number(3))]);
    assert_eq!(
        lower(&v),
        Value::Mapping(vec![(key("a"), Value::I64(2)), (key("b"), Value::I64(3))])
    );
}

// --- drive_document ---

fn record(value: Json) -> Vec<Event> {
    let mut r = Recorder::new();
    drive_document(&mut r, 0, &value);
    r.events
}

#[test]
fn drive_scalar_root() {
    assert_eq!(
        record(whole_number(42)),
        vec![Event::DocumentBegin(0), Event::I64(42), Event::DocumentEnd],
    );
    assert_eq!(
        record(Json::Null),
        vec![Event::DocumentBegin(0), Event::Null, Event::DocumentEnd],
    );
    assert_eq!(
        record(text("hi")),
        vec![Event::DocumentBegin(0), Event::Text("hi".into()), Event::DocumentEnd],
    );
}

#[test]
fn drive_number_split() {
    let big = Json::Number(Number::Positive((i64::MAX as u64) + 1));
    assert_eq!(
        record(big),
        vec![Event::DocumentBegin(0), Event::U64((i64::MAX as u64) + 1), Event::DocumentEnd],
    );
    assert_eq!(
        record(float(1.5)),
        vec![Event::DocumentBegin(0), Event::F64(double(1.5)), Event::DocumentEnd],
    );
}

#[test]
fn drive_array_events() {
    assert_eq!(
        record(Json::Array(vec![whole_number(1), text("x"), Json::Bool(true)])),
        vec![
            Event::DocumentBegin(0),
            Event::ArrayBegin,
            Event::I64(1),
            Event::Text("x".into()),
            Event::Bool(true),
            Event::ArrayEnd,
            Event::DocumentEnd,
        ],
    );
}

#[test]
fn drive_object_events() {
    assert_eq!(
        record(object(vec![("a", whole_number(1)), ("b", Json::Null)])),
        vec![
            Event::DocumentBegin(0),
            Event::ObjectBegin,
            Event::ObjectKey("a".into()),
            Event::I64(1),
            Event::ObjectKey("b".into()),
            Event::Null,
            Event::ObjectEnd,
            Event::DocumentEnd,
        ],
    );
}

#[test]
fn drive_nested() {
    let v = object(vec![
        ("xs", Json::Array(vec![whole_number(1), Json::Array(vec![whole_number(2), whole_number(3)])])),
        ("y", object(vec![("z", text("ok"))])),
    ]);
    let evs = record(v);
    // Spot-check the key sequence and brackets balance.
    let opens = evs.iter().filter(|e| matches!(e, Event::ArrayBegin | Event::ObjectBegin)).count();
    let closes = evs.iter().filter(|e| matches!(e, Event::ArrayEnd | Event::ObjectEnd)).count();
    assert_eq!(opens, closes);
    assert!(evs.contains(&Event::ObjectKey("xs".into())));
    assert!(evs.contains(&Event::ObjectKey("z".into())));
}

#[test]
fn doc_ordinal_propagates() {
    let mut r = Recorder::new();
    drive_document(&mut r, 7, &whole_number(1));
    drive_document(&mut r, 8, &whole_number(2));
    assert_eq!(r.events.first(), Some(&Event::DocumentBegin(7)));
    assert!(r.events.contains(&Event::DocumentBegin(8)));
}

// --- navigate ---

#[test]
fn navigation_follows_fields_and_indexes() {
    let v = object(vec![(
        "users",
        Json::Array(vec![object(vec![("name", text("ann"))]), object(vec![("name", text("bo"))])]),
    )]);
    let found = |p: &str| navigate(&v, &Path::parse(p).unwrap()).map(lower);
    assert_eq!(found(".users[1].name"), Some(Value::String("bo".into())));
    assert_eq!(found("."), Some(lower(&v)));
    assert_eq!(found(".users[2].name"), None);
    assert_eq!(found(".users.name"), None);
    assert_eq!(found(".nobody"), None);
    assert_eq!(found(".users[0].name.first"), None);
}
