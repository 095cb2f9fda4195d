//! What a schema says, and what template it makes.
use crate::json::{JsonView, Number};
use crate::synth::schema;
use crate::synth::schema::FaultView;
use crate::synth::shape::{StringFormat, TemplateView};
use vstd::prelude::*;

verus! {

// ---------------------------------------------------------------------
// Names
// ---------------------------------------------------------------------

proof fn lemma_type_names()
    ensures
        "null"@ != "boolean"@ && "null"@ != "integer"@ && "null"@ != "number"@ && "null"@
            != "string"@ && "null"@ != "array"@ && "null"@ != "object"@,
        "boolean"@ != "integer"@ && "boolean"@ != "number"@ && "boolean"@ != "string"@ && "boolean"@
            != "array"@ && "boolean"@ != "object"@,
        "integer"@ != "number"@ && "integer"@ != "string"@ && "integer"@ != "array"@ && "integer"@
            != "object"@,
        "number"@ != "string"@ && "number"@ != "array"@ && "number"@ != "object"@,
        "string"@ != "array"@ && "string"@ != "object"@,
        "array"@ != "object"@,
{
    reveal_strlit("null");
    reveal_strlit("boolean");
    reveal_strlit("integer");
    reveal_strlit("number");
    reveal_strlit("string");
    reveal_strlit("array");
    reveal_strlit("object");
    assert("null"@.len() == 4 && "boolean"@.len() == 7 && "integer"@.len() == 7);
    assert("number"@.len() == 6 && "string"@.len() == 6 && "array"@.len() == 5);
    assert("object"@.len() == 6);
    assert("boolean"@[0] == 'b' && "integer"@[0] == 'i');
    assert("number"@[0] == 'n' && "string"@[0] == 's' && "object"@[0] == 'o');
}

/// The formats of a schema are known by their names; another name is none.
pub proof fn law_formats_are_known_by_name(s: Seq<char>)
    ensures
        schema::format_of("uuid"@) == Some(StringFormat::Uuid),
        schema::format_of("date-time"@) == Some(StringFormat::DateTime),
        schema::format_of("date"@) == Some(StringFormat::Date),
        schema::format_of("email"@) == Some(StringFormat::Email),
        schema::format_of("ipv4"@) == Some(StringFormat::Ipv4),
        schema::format_of("ipv6"@) == Some(StringFormat::Ipv6),
        schema::format_of("uri"@) == Some(StringFormat::Url),
        schema::format_of("url"@) == Some(StringFormat::Url),
        schema::format_of(s) is None <==> s != "uuid"@ && s != "date-time"@ && s != "date"@ && s
            != "email"@ && s != "ipv4"@ && s != "ipv6"@ && s != "uri"@ && s != "url"@,
{
    reveal_strlit("uuid");
    reveal_strlit("date-time");
    reveal_strlit("date");
    reveal_strlit("email");
    reveal_strlit("ipv4");
    reveal_strlit("ipv6");
    reveal_strlit("uri");
    reveal_strlit("url");
    assert("uuid"@.len() == 4 && "date-time"@.len() == 9 && "date"@.len() == 4);
    assert("email"@.len() == 5 && "ipv4"@.len() == 4 && "ipv6"@.len() == 4);
    assert("uri"@.len() == 3 && "url"@.len() == 3);
    assert("uuid"@[0] == 'u' && "date"@[0] == 'd' && "ipv4"@[0] == 'i' && "ipv6"@[0] == 'i');
    assert("ipv4"@[3] == '4' && "ipv6"@[3] == '6');
}

// ---------------------------------------------------------------------
// Types
// ---------------------------------------------------------------------

/// A schema that names its type and offers no choice.
pub open spec fn of_type(j: JsonView, t: Seq<char>) -> bool {
    &&& schema::member(j, "oneOf"@) is None
    &&& schema::member(j, "anyOf"@) is None
    &&& schema::member(j, "enum"@) is None
    &&& schema::member(j, "const"@) is None
    &&& schema::member(j, "type"@) == Some(JsonView::Text(t))
}

/// The simple types make their templates; a string has the format that the
/// schema names; and a type of another name is a fault, which says the name.
pub proof fn law_simple_types_are_read(j: JsonView, t: Seq<char>)
    requires
        of_type(j, t),
    ensures
        t == "null"@ ==> schema::parsed(j) == Ok::<TemplateView, FaultView>(TemplateView::Null),
        t == "boolean"@ ==> schema::parsed(j) == Ok::<TemplateView, FaultView>(TemplateView::Bool),
        t == "integer"@ ==> schema::parsed(j) == Ok::<TemplateView, FaultView>(TemplateView::Int),
        t == "number"@ ==> schema::parsed(j) == Ok::<TemplateView, FaultView>(TemplateView::Float),
        t == "string"@ ==> match schema::member(j, "format"@) {
            Some(JsonView::Text(f)) => schema::parsed(j) == Ok::<TemplateView, FaultView>(
                TemplateView::Text(schema::format_of(f)),
            ),
            _ => schema::parsed(j) == Ok::<TemplateView, FaultView>(TemplateView::Text(None)),
        },
        (t != "null"@ && t != "boolean"@ && t != "integer"@ && t != "number"@ && t != "string"@ && t
            != "array"@ && t != "object"@) ==> schema::parsed(j) == Err::<TemplateView, FaultView>(
            FaultView::InvalidType(t),
        ),
{
    lemma_type_names();
}

/// A size that a schema gives, or another where it gives none.
pub open spec fn given(j: JsonView, name: Seq<char>, size: u32, default: u32) -> bool {
    match schema::member(j, name) {
        Some(JsonView::Number(Number::Positive(n))) => n <= u32::MAX ==> size == n,
        _ => size == default,
    }
}

/// An array of one kind has the elements that `items` describes, none to five
/// of them where the schema does not say how many. Without `items` it is a
/// fault. Items before the others make a tuple, which is never shorter than
/// they are many.
pub proof fn law_arrays_are_read(j: JsonView)
    requires
        of_type(j, "array"@),
    ensures
        !(schema::member(j, "prefixItems"@) matches Some(JsonView::Array(_))) ==> match schema::member(
            j,
            "items"@,
        ) {
            Some(items) => match schema::parsed(items) {
                Ok(e) => schema::parsed(j) matches Ok(TemplateView::Uniform {
                    element,
                    min_len,
                    max_len,
                }) && *element == e && given(j, "minItems"@, min_len, 0) && given(
                    j,
                    "maxItems"@,
                    max_len,
                    5,
                ),
                Err(f) => schema::parsed(j) == Err::<TemplateView, FaultView>(f),
            },
            None => schema::parsed(j) == Err::<TemplateView, FaultView>(
                FaultView::Missing("items"@),
            ),
        },
        schema::member(j, "prefixItems"@) matches Some(JsonView::Array(items)) ==> match schema::all_parsed(
            items,
        ) {
            Ok(p) => schema::parsed(j) matches Ok(TemplateView::Tuple {
                positions,
                min_len,
                max_len,
            }) && positions == p && (p.len() <= u32::MAX ==> min_len >= p.len() && max_len
                >= p.len()),
            Err(f) => schema::parsed(j) == Err::<TemplateView, FaultView>(f),
        },
{
    lemma_type_names();
}

/// An object with a schema for its additional properties, and none of its own,
/// is a map, of two to six entries where the schema does not say how many. Any
/// other object is a record of its properties.
pub proof fn law_objects_are_read(j: JsonView)
    requires
        of_type(j, "object"@),
    ensures
        match (schema::member(j, "properties"@), schema::member(j, "additionalProperties"@)) {
            (Some(JsonView::Object(members)), more) => if members.len() > 0 || !(
            more matches Some(JsonView::Object(_))) {
                match schema::fields_parsed(j, members) {
                    Ok(f) => schema::parsed(j) == Ok::<TemplateView, FaultView>(
                        TemplateView::Record { fields: f },
                    ),
                    Err(f) => schema::parsed(j) == Err::<TemplateView, FaultView>(f),
                }
            } else {
                map_read(j, more->Some_0)
            },
            (_, Some(JsonView::Object(m))) => map_read(j, JsonView::Object(m)),
            _ => schema::parsed(j) == Ok::<TemplateView, FaultView>(
                TemplateView::Record { fields: Seq::empty() },
            ),
        },
{
    lemma_type_names();
}

/// A map of what a schema describes.
pub open spec fn map_read(j: JsonView, values: JsonView) -> bool {
    match schema::parsed(values) {
        Ok(v) => schema::parsed(j) matches Ok(TemplateView::Mapping {
            key_format,
            value,
            min_size,
            max_size,
        }) && *value == v && given(j, "minProperties"@, min_size, 2) && given(
            j,
            "maxProperties"@,
            max_size,
            6,
        ),
        Err(f) => schema::parsed(j) == Err::<TemplateView, FaultView>(f),
    }
}

/// A choice comes before listed values, those before one fixed value, and that
/// before the type; a schema with none of them is a fault.
pub proof fn law_choices_come_first(j: JsonView)
    ensures
        schema::member(j, "oneOf"@) matches Some(JsonView::Array(arms)) ==> match schema::all_parsed(
            arms,
        ) {
            Ok(t) => schema::parsed(j) == Ok::<TemplateView, FaultView>(TemplateView::Variant(t)),
            Err(f) => schema::parsed(j) == Err::<TemplateView, FaultView>(f),
        },
        (schema::member(j, "oneOf"@) is None && schema::member(j, "anyOf"@) matches Some(
            JsonView::Array(arms),
        )) ==> match schema::all_parsed(schema::member(j, "anyOf"@)->Some_0->Array_0) {
            Ok(t) => schema::parsed(j) == Ok::<TemplateView, FaultView>(TemplateView::Variant(t)),
            Err(f) => schema::parsed(j) == Err::<TemplateView, FaultView>(f),
        },
        (schema::member(j, "oneOf"@) is None && schema::member(j, "anyOf"@) is None) ==> match (
            schema::member(j, "enum"@),
            schema::member(j, "const"@),
        ) {
            (Some(JsonView::Array(values)), _) => schema::parsed(j) == Ok::<
                TemplateView,
                FaultView,
            >(TemplateView::Enum(values)),
            (_, Some(v)) => schema::parsed(j) == Ok::<TemplateView, FaultView>(
                TemplateView::Const(v),
            ),
            (_, None) => !(schema::member(j, "type"@) matches Some(JsonView::Text(_)))
                ==> schema::parsed(j) == Err::<TemplateView, FaultView>(
                FaultView::Missing("type"@),
            ),
        },
{
}

// ---------------------------------------------------------------------
// Lists
// ---------------------------------------------------------------------

/// Several schemas are read one for one, in their order; where one is at
/// fault, the fault is that of the first such.
pub proof fn law_lists_are_read_in_order(v: Seq<JsonView>)
    ensures
        match schema::all_parsed(v) {
            Ok(t) => t.len() == v.len() && forall|i: int|
                0 <= i < v.len() ==> schema::parsed(#[trigger] v[i]) == Ok::<
                    TemplateView,
                    FaultView,
                >(t[i]),
            Err(f) => exists|k: int|
                {
                    &&& 0 <= k < v.len()
                    &&& schema::parsed(#[trigger] v[k]) == Err::<TemplateView, FaultView>(f)
                    &&& forall|i: int| 0 <= i < k ==> schema::parsed(#[trigger] v[i]) is Ok
                },
        },
    decreases v.len(),
{
    if v.len() > 0 {
        let front = v.drop_last();
        let n = v.len() - 1;
        law_lists_are_read_in_order(front);
        assert(forall|i: int| 0 <= i < n ==> #[trigger] front[i] == v[i]);
        assert(v[n] == v.last());
        match schema::all_parsed(front) {
            Ok(t) => {
                assert forall|i: int| 0 <= i < n implies schema::parsed(#[trigger] v[i]) == Ok::<
                    TemplateView,
                    FaultView,
                >(t[i]) by {
                    assert(front[i] == v[i]);
                }
            },
            Err(f) => {
                let k = choose|k: int|
                    {
                        &&& 0 <= k < front.len()
                        &&& schema::parsed(#[trigger] front[k]) == Err::<TemplateView, FaultView>(f)
                        &&& forall|i: int| 0 <= i < k ==> schema::parsed(#[trigger] front[i]) is Ok
                    };
                assert(v[k] == front[k]);
                assert forall|i: int| 0 <= i < k implies schema::parsed(#[trigger] v[i]) is Ok by {
                    assert(front[i] == v[i]);
                }
            },
        }
    }
}

/// The properties of a schema become fields, one for one, in their order and
/// with their names; a field is required just where the schema lists its name
/// as such.
pub proof fn law_properties_become_fields(j: JsonView, v: Seq<(Seq<char>, JsonView)>, i: int)
    requires
        schema::fields_parsed(j, v) is Ok,
        0 <= i < v.len(),
    ensures
        ({
            let fields = schema::fields_parsed(j, v)->Ok_0;
            &&& fields.len() == v.len()
            &&& fields[i].name == v[i].0
            &&& schema::parsed(v[i].1) == Ok::<TemplateView, FaultView>(fields[i].shape)
            &&& fields[i].required <==> (schema::member(j, "required"@) matches Some(
                JsonView::Array(names),
            ) && exists|k: int| 0 <= k < names.len() && #[trigger] names[k] == JsonView::Text(v[i].0))
        }),
    decreases v.len(),
{
    let front = v.drop_last();
    if i < front.len() {
        law_properties_become_fields(j, front, i);
    } else {
        if front.len() > 0 {
            law_properties_become_fields(j, front, 0);
        } else {
            assert(schema::fields_parsed(j, front)->Ok_0.len() == 0);
        }
        if schema::requires_name(j, v[i].0) {
            let names = schema::member(j, "required"@)->Some_0->Array_0;
            let k = choose|k: int| 0 <= k < names.len() && names[k] == JsonView::Text(v[i].0);
            assert(names[k] == JsonView::Text(v[i].0));
        }
    }
}

} // verus!
