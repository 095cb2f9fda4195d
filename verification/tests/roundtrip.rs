//! Documents drawn from a schema lead back to it.

use rand::rngs::mock::StepRng;
use rand::Rng;

use shapez::analyze::dist::Buckets;
use shapez::double::Double;
use shapez::json::events::drive_document;
use shapez::node::{ShapeKind, ShapeNode};
use shapez::synth::corpus::read_schema;
use shapez::synth::instantiate::instantiate;
use shapez::synth::random::Dice;
use shapez::value::ValueType;
use shapez::{Analyzer, StreamingAnalyzer};

fn buckets() -> Buckets {
    Buckets::new((0..2000u64).map(|k| 0x3ff0_0000_0000_0000 + (k << 47)).collect())
}

fn analyze_schema(text: &str, count: usize, seed: u64) -> ShapeNode {
    let shape = read_schema(text).unwrap();
    assert!(shape.is_drawable());
    let mut rng = Dice::seeded(seed);
    let mut analyzer = StreamingAnalyzer::new(buckets());
    for ord in 0..count {
        let draft = instantiate(&shape, &mut rng);
        let doubles = draft
            .words()
            .into_iter()
            .map(|w| Double { bits: StepRng::new(w, 0).gen_range(-1000.0..1000.0f64).to_bits() })
            .collect();
        drive_document(&mut analyzer, ord as u64, &draft.complete(&doubles));
    }
    analyzer.finish()
}

#[test]
fn scalar_root_int_infers_i64() {
    let shape = analyze_schema(r#"{"type": "integer"}"#, 1000, 1);
    match &shape.kind {
        ShapeKind::Type(ValueType::I64) => (),
        other => panic!("expected I64, got {other:?}"),
    }
    assert_eq!(shape.stats.observation_count, 1000);
}

#[test]
fn record_stable_infers_required_struct() {
    let text = r#"{
        "type": "object",
        "properties": {
            "id": { "type": "string", "format": "uuid" },
            "name": { "type": "string" },
            "email": { "type": "string", "format": "email" },
            "created_at": { "type": "string", "format": "date-time" }
        },
        "required": ["id", "name", "email", "created_at"]
    }"#;
    let shape = analyze_schema(text, 1000, 2);
    let fields = match &shape.kind {
        ShapeKind::Type(ValueType::Struct { fields }) => fields,
        other => panic!("expected Struct, got {other:?}"),
    };
    let names: Vec<&str> = fields.iter().map(|f| f.name.as_str()).collect();
    assert_eq!(names, vec!["created_at", "email", "id", "name"], "field order");
    for f in fields {
        assert!(!f.nullable, "field {} should not be nullable", f.name);
        assert!(matches!(f.value_type, ValueType::String), "field {} should be String", f.name);
    }
}

#[test]
fn record_optional_marks_optional_fields_nullable() {
    let text = r#"{
        "type": "object",
        "properties": {
            "id": { "type": "string", "format": "uuid" },
            "nickname": { "type": "string" },
            "bio": { "type": "string" },
            "avatar_url": { "type": "string", "format": "uri" }
        },
        "required": ["id"]
    }"#;
    let shape = analyze_schema(text, 1000, 3);
    let fields = match &shape.kind {
        ShapeKind::Type(ValueType::Struct { fields }) => fields,
        other => panic!("expected Struct, got {other:?}"),
    };
    let id = fields.iter().find(|f| f.name == "id").expect("id");
    assert!(!id.nullable, "id is required");
    for opt in ["nickname", "bio", "avatar_url"] {
        let f = fields.iter().find(|f| f.name == opt).unwrap_or_else(|| panic!("{opt}"));
        assert!(f.nullable, "{opt} should be nullable");
    }
}

#[test]
fn map_uuid_keys_infers_map() {
    let text = r#"{
        "type": "object",
        "propertyNames": { "format": "uuid" },
        "additionalProperties": {
            "type": "object",
            "properties": {
                "enabled": { "type": "boolean" },
                "rollout_pct": { "type": "integer" }
            },
            "required": ["enabled"]
        },
        "minProperties": 2,
        "maxProperties": 8
    }"#;
    let shape = analyze_schema(text, 1000, 4);
    let value_type = match &shape.kind {
        ShapeKind::Type(ValueType::Mapping { key_type, value_type, .. }) => {
            assert!(matches!(**key_type, ValueType::String));
            value_type
        }
        other => panic!("expected Map, got {other:?}"),
    };
    let fields = match value_type.as_ref() {
        ValueType::Struct { fields } => fields,
        other => panic!("expected map value to be Struct, got {other:?}"),
    };
    let enabled = fields.iter().find(|f| f.name == "enabled").expect("enabled");
    assert!(matches!(enabled.value_type, ValueType::Bool));
    let rollout = fields.iter().find(|f| f.name == "rollout_pct").expect("rollout_pct");
    assert!(matches!(rollout.value_type, ValueType::I64));
    assert!(rollout.nullable, "rollout_pct is optional in the schema");
}

#[test]
fn tuple_heterogeneous_infers_tuple() {
    let text = r#"{
        "type": "array",
        "prefixItems": [{ "type": "number" }, { "type": "number" }, { "type": "number" }]
    }"#;
    let shape = analyze_schema(text, 1000, 5);
    let positions = match &shape.kind {
        ShapeKind::Tuple { positions } => positions,
        other => panic!("expected Tuple, got {other:?}"),
    };
    assert_eq!(positions.len(), 3);
    for (i, p) in positions.iter().enumerate() {
        assert!(
            matches!(p.kind, ShapeKind::Type(ValueType::F64)),
            "position {i} should be F64, got {:?}",
            p.kind,
        );
    }
}

#[test]
fn polymorphic_array_infers_variant_arms() {
    // With Space-Saving subtree clustering, the element should be a
    // Variant of three Record arms, one per discriminator value.
    let text = r#"{
        "type": "array",
        "items": {
            "oneOf": [
                {
                    "type": "object",
                    "properties": {
                        "type": { "const": "text" },
                        "body": { "type": "string" }
                    },
                    "required": ["type", "body"]
                },
                {
                    "type": "object",
                    "properties": {
                        "type": { "const": "image" },
                        "url": { "type": "string", "format": "uri" },
                        "width": { "type": "integer" }
                    },
                    "required": ["type", "url", "width"]
                },
                {
                    "type": "object",
                    "properties": {
                        "type": { "const": "toggle" },
                        "on": { "type": "boolean" }
                    },
                    "required": ["type", "on"]
                }
            ]
        },
        "minItems": 1,
        "maxItems": 6
    }"#;
    let shape = analyze_schema(text, 1000, 6);
    let element = match &shape.kind {
        ShapeKind::Array { element, .. } => element.as_ref(),
        other => panic!("expected rich Array root, got {other:?}"),
    };
    let arms = match &element.kind {
        ShapeKind::Variant { arms } => arms,
        other => panic!("expected Variant element, got {other:?}"),
    };
    assert_eq!(arms.len(), 3, "three discriminator arms expected, got {}", arms.len());
    for arm in arms {
        let fields: Vec<&str> = match &arm.kind {
            ShapeKind::Type(ValueType::Struct { fields }) => {
                fields.iter().map(|f| f.name.as_str()).collect()
            }
            ShapeKind::Record { fields } => fields.iter().map(|f| f.name.as_str()).collect(),
            other => panic!("expected each arm to be a record, got {other:?}"),
        };
        assert!(fields.contains(&"type"), "arm missing discriminator: {fields:?}");
    }
}
