//! Reading a template out of a JSON Schema.
use crate::json;
use crate::json::select;
use crate::json::{Json, JsonView, Number};
use crate::synth::shape;
use crate::synth::shape::{
    ArrayKind, ArraySpec, FieldSpec, FieldView, ObjectSpec, Shape, StringFormat, TemplateView,
};
use vstd::prelude::*;

verus! {

#[derive(Debug)]
pub enum SchemaError {
    InvalidType(String),
    Missing(&'static str),
    Other(String),
}

pub enum FaultView {
    InvalidType(Seq<char>),
    Missing(Seq<char>),
    Other(Seq<char>),
}

impl View for SchemaError {
    type V = FaultView;

    open spec fn view(&self) -> FaultView {
        match self {
            SchemaError::InvalidType(s) => FaultView::InvalidType(s@),
            SchemaError::Missing(s) => FaultView::Missing(s@),
            SchemaError::Other(s) => FaultView::Other(s@),
        }
    }
}

impl SchemaError {
    pub open spec fn message(f: FaultView) -> Seq<char> {
        match f {
            FaultView::InvalidType(s) => "invalid type: "@ + s,
            FaultView::Missing(s) => "missing key: "@ + s,
            FaultView::Other(s) => s,
        }
    }

    pub fn to_string(&self) -> (r: String)
        ensures
            r@ == Self::message(self@),
    {
        match self {
            SchemaError::InvalidType(s) => {
                let mut out = "invalid type: ".to_string();
                out.append(s.as_str());
                out
            },
            SchemaError::Missing(s) => {
                let mut out = "missing key: ".to_string();
                out.append(s);
                out
            },
            SchemaError::Other(s) => s.clone(),
        }
    }
}

// ---------------------------------------------------------------------
// The model
// ---------------------------------------------------------------------

/// The value of a member, where the value is an object that has it.
pub open spec fn member(j: JsonView, name: Seq<char>) -> Option<JsonView> {
    match j {
        JsonView::Object(members) => match select::member_index(members, name) {
            Some(i) => Some(members[i].1),
            None => None,
        },
        _ => None,
    }
}

proof fn lemma_member_index(members: Seq<(Seq<char>, JsonView)>, name: Seq<char>)
    ensures
        select::member_index(members, name) matches Some(i) ==> 0 <= i < members.len(),
    decreases members.len(),
{
    if members.len() > 0 {
        lemma_member_index(members.drop_last(), name);
    }
}

/// A member is a part of the value that has it.
pub proof fn lemma_member_is_smaller(j: JsonView, name: Seq<char>)
    ensures
        member(j, name) matches Some(v) ==> decreases_to!(j => v),
{
    if let JsonView::Object(members) = j {
        lemma_member_index(members, name);
        if let Some(i) = select::member_index(members, name) {
            assert(decreases_to!(j => j->Object_0));
            assert(decreases_to!(j->Object_0 => members[i]));
            assert(decreases_to!(members[i] => members[i].1));
        }
    }
}

pub open spec fn format_of(s: Seq<char>) -> Option<StringFormat> {
    if s == "uuid"@ {
        Some(StringFormat::Uuid)
    } else if s == "date-time"@ {
        Some(StringFormat::DateTime)
    } else if s == "date"@ {
        Some(StringFormat::Date)
    } else if s == "email"@ {
        Some(StringFormat::Email)
    } else if s == "ipv4"@ {
        Some(StringFormat::Ipv4)
    } else if s == "ipv6"@ {
        Some(StringFormat::Ipv6)
    } else if s == "uri"@ || s == "url"@ {
        Some(StringFormat::Url)
    } else {
        None
    }
}

/// The format that the member `format` names.
pub open spec fn format_member(j: JsonView) -> Option<StringFormat> {
    match member(j, "format"@) {
        Some(JsonView::Text(s)) => format_of(s),
        _ => None,
    }
}

/// A size that a member gives: its low half, or else a default.
pub open spec fn size_member(j: JsonView, name: Seq<char>, default: u32) -> u32 {
    match member(j, name) {
        Some(JsonView::Number(Number::Positive(n))) => (n % 0x1_0000_0000) as u32,
        _ => default,
    }
}

pub open spec fn larger(a: u32, b: u32) -> u32 {
    if a >= b {
        a
    } else {
        b
    }
}

/// Whether the member `required` lists a name.
pub open spec fn requires_name(j: JsonView, name: Seq<char>) -> bool {
    match member(j, "required"@) {
        Some(JsonView::Array(items)) => items.contains(JsonView::Text(name)),
        _ => false,
    }
}

/// The alternatives that `oneOf`, or else `anyOf`, lists.
pub open spec fn alternatives(j: JsonView) -> Option<Seq<JsonView>> {
    let first = member(j, "oneOf"@);
    let listed = if first is Some {
        first
    } else {
        member(j, "anyOf"@)
    };
    match listed {
        Some(JsonView::Array(arms)) => Some(arms),
        _ => None,
    }
}

pub open spec fn listed_values(j: JsonView) -> Option<Seq<JsonView>> {
    match member(j, "enum"@) {
        Some(JsonView::Array(values)) => Some(values),
        _ => None,
    }
}

pub open spec fn prefix_items(j: JsonView) -> Option<Seq<JsonView>> {
    match member(j, "prefixItems"@) {
        Some(JsonView::Array(items)) => Some(items),
        _ => None,
    }
}

pub open spec fn properties(j: JsonView) -> Seq<(Seq<char>, JsonView)> {
    match member(j, "properties"@) {
        Some(JsonView::Object(members)) => members,
        _ => Seq::empty(),
    }
}

/// An object without properties of its own whose additional ones have a
/// schema.
pub open spec fn is_mapping(j: JsonView) -> bool {
    properties(j).len() == 0 && member(j, "additionalProperties"@) matches Some(JsonView::Object(_))
}

pub open spec fn key_format(j: JsonView) -> Option<StringFormat> {
    match member(j, "propertyNames"@) {
        Some(names) => format_member(names),
        None => None,
    }
}

/// The template that a schema describes, or the first fault in it.
pub open spec fn parsed(j: JsonView) -> Result<TemplateView, FaultView>
    decreases j, 1int,
{
    proof {
        lemma_member_is_smaller(j, "oneOf"@);
        lemma_member_is_smaller(j, "anyOf"@);
    }
    match alternatives(j) {
        Some(arms) => match all_parsed(arms) {
            Ok(arms) => Ok(TemplateView::Variant(arms)),
            Err(e) => Err(e),
        },
        None => match listed_values(j) {
            Some(values) => Ok(TemplateView::Enum(values)),
            None => match member(j, "const"@) {
                Some(v) => Ok(TemplateView::Const(v)),
                None => match member(j, "type"@) {
                    Some(JsonView::Text(t)) => typed(j, t),
                    _ => Err(FaultView::Missing("type"@)),
                },
            },
        },
    }
}

/// The template of a schema whose type is named `t`.
pub open spec fn typed(j: JsonView, t: Seq<char>) -> Result<TemplateView, FaultView>
    decreases j, 0int,
{
    proof {
        lemma_member_is_smaller(j, "prefixItems"@);
        lemma_member_is_smaller(j, "items"@);
        lemma_member_is_smaller(j, "additionalProperties"@);
        lemma_member_is_smaller(j, "properties"@);
    }
    if t == "null"@ {
        Ok(TemplateView::Null)
    } else if t == "boolean"@ {
        Ok(TemplateView::Bool)
    } else if t == "integer"@ {
        Ok(TemplateView::Int)
    } else if t == "number"@ {
        Ok(TemplateView::Float)
    } else if t == "string"@ {
        Ok(TemplateView::Text(format_member(j)))
    } else if t == "array"@ {
        let min_len = size_member(j, "minItems"@, 0);
        let max_len = size_member(j, "maxItems"@, 5);
        match prefix_items(j) {
            Some(items) => match all_parsed(items) {
                Ok(positions) => {
                    let n = (positions.len() % 0x1_0000_0000) as u32;
                    Ok(
                        TemplateView::Tuple {
                            positions,
                            min_len: larger(min_len, n),
                            max_len: larger(max_len, n),
                        },
                    )
                },
                Err(e) => Err(e),
            },
            None => match member(j, "items"@) {
                Some(items) => match parsed(items) {
                    Ok(element) => Ok(
                        TemplateView::Uniform { element: Box::new(element), min_len, max_len },
                    ),
                    Err(e) => Err(e),
                },
                None => Err(FaultView::Missing("items"@)),
            },
        }
    } else if t == "object"@ {
        if is_mapping(j) {
            match parsed(member(j, "additionalProperties"@)->Some_0) {
                Ok(value) => Ok(
                    TemplateView::Mapping {
                        key_format: key_format(j),
                        value: Box::new(value),
                        min_size: size_member(j, "minProperties"@, 2),
                        max_size: size_member(j, "maxProperties"@, 6),
                    },
                ),
                Err(e) => Err(e),
            }
        } else {
            match member(j, "properties"@) {
                Some(JsonView::Object(members)) => match fields_parsed(j, members) {
                    Ok(fields) => Ok(TemplateView::Record { fields }),
                    Err(e) => Err(e),
                },
                _ => Ok(TemplateView::Record { fields: Seq::empty() }),
            }
        }
    } else {
        Err(FaultView::InvalidType(t))
    }
}

pub open spec fn all_parsed(v: Seq<JsonView>) -> Result<Seq<TemplateView>, FaultView>
    decreases v, 2int,
{
    if v.len() == 0 {
        Ok(Seq::empty())
    } else {
        match all_parsed(v.drop_last()) {
            Ok(front) => match parsed(v.last()) {
                Ok(t) => Ok(front.push(t)),
                Err(e) => Err(e),
            },
            Err(e) => Err(e),
        }
    }
}

/// The fields that the properties `v` of the schema `j` describe.
pub open spec fn fields_parsed(j: JsonView, v: Seq<(Seq<char>, JsonView)>) -> Result<
    Seq<FieldView>,
    FaultView,
>
    decreases v, 2int,
{
    if v.len() == 0 {
        Ok(Seq::empty())
    } else {
        match fields_parsed(j, v.drop_last()) {
            Ok(front) => match parsed(v.last().1) {
                Ok(shape) => Ok(
                    front.push(
                        FieldView {
                            name: v.last().0,
                            shape,
                            required: requires_name(j, v.last().0),
                        },
                    ),
                ),
                Err(e) => Err(e),
            },
            Err(e) => Err(e),
        }
    }
}

pub open spec fn outcome(r: Result<Shape, SchemaError>) -> Result<TemplateView, FaultView> {
    match r {
        Ok(s) => Ok(s@),
        Err(e) => Err(e@),
    }
}

/// A fault in the first of the values is the fault of all of them.
proof fn lemma_all_fault(v: Seq<JsonView>, k: int)
    requires
        0 <= k <= v.len(),
        all_parsed(v.take(k)) is Err,
    ensures
        all_parsed(v) == all_parsed(v.take(k)),
    decreases v.len(),
{
    if k == v.len() {
        assert(v.take(k) =~= v);
    } else {
        assert(v.drop_last().take(k) =~= v.take(k));
        lemma_all_fault(v.drop_last(), k);
    }
}

proof fn lemma_fields_fault(j: JsonView, v: Seq<(Seq<char>, JsonView)>, k: int)
    requires
        0 <= k <= v.len(),
        fields_parsed(j, v.take(k)) is Err,
    ensures
        fields_parsed(j, v) == fields_parsed(j, v.take(k)),
    decreases v.len(),
{
    if k == v.len() {
        assert(v.take(k) =~= v);
    } else {
        assert(v.drop_last().take(k) =~= v.take(k));
        lemma_fields_fault(j, v.drop_last(), k);
    }
}

// ---------------------------------------------------------------------
// Parsing
// ---------------------------------------------------------------------

fn get<'a>(j: &'a Json, name: &str) -> (r: Option<&'a Json>)
    ensures
        match r {
            Some(v) => member(j@, name@) == Some(v@),
            None => member(j@, name@) is None,
        },
{
    match j {
        Json::Object(members) => select::find_member(members, &name.to_string()),
        _ => None,
    }
}

fn parse_format(s: &String) -> (r: Option<StringFormat>)
    ensures
        r == format_of(s@),
{
    if *s == "uuid".to_string() {
        Some(StringFormat::Uuid)
    } else if *s == "date-time".to_string() {
        Some(StringFormat::DateTime)
    } else if *s == "date".to_string() {
        Some(StringFormat::Date)
    } else if *s == "email".to_string() {
        Some(StringFormat::Email)
    } else if *s == "ipv4".to_string() {
        Some(StringFormat::Ipv4)
    } else if *s == "ipv6".to_string() {
        Some(StringFormat::Ipv6)
    } else if *s == "uri".to_string() || *s == "url".to_string() {
        Some(StringFormat::Url)
    } else {
        None
    }
}

fn get_format(j: &Json) -> (r: Option<StringFormat>)
    ensures
        r == format_member(j@),
{
    match get(j, "format") {
        Some(Json::Text(s)) => parse_format(s),
        _ => None,
    }
}

fn get_size(j: &Json, name: &str, default: u32) -> (r: u32)
    ensures
        r == size_member(j@, name@, default),
{
    match get(j, name) {
        Some(Json::Number(n)) => match n.as_u64() {
            Some(n) => (n % 0x1_0000_0000) as u32,
            None => default,
        },
        _ => default,
    }
}

fn lists_name(j: &Json, name: &String) -> (b: bool)
    ensures
        b == requires_name(j@, name@),
{
    match get(j, "required") {
        Some(Json::Array(items)) => {
            let ghost all = json::items_view(items@);
            proof {
                json::lemma_items_view(items@);
            }
            let mut i: usize = 0;
            while i < items.len()
                invariant
                    i <= items@.len() == all.len(),
                    all == json::items_view(items@),
                    member(j@, "required"@) == Some(JsonView::Array(all)),
                    forall|k: int|
                        0 <= k < all.len() ==> #[trigger] all[k] == json::json_view(items@[k]),
                    forall|k: int| 0 <= k < i ==> #[trigger] all[k] != JsonView::Text(name@),
                decreases items@.len() - i,
            {
                assert(all[i as int] == json::json_view(items@[i as int]));
                if let Json::Text(s) = &items[i] {
                    if *s == *name {
                        return true;
                    }
                }
                i += 1;
            }
            false
        },
        _ => false,
    }
}

/// Reads the templates that schemas describe, up to the first fault.
pub fn parse_all(items: &Vec<Json>) -> (r: Result<Vec<Shape>, SchemaError>)
    ensures
        match r {
            Ok(shapes) => all_parsed(json::items_view(items@)) == Ok::<_, FaultView>(
                shape::templates_view(shapes@),
            ),
            Err(e) => all_parsed(json::items_view(items@)) == Err::<Seq<TemplateView>, _>(e@),
        },
    decreases json::items_view(items@), 2int,
{
    let ghost all = json::items_view(items@);
    proof {
        json::lemma_items_view(items@);
        assert(all.take(0) =~= Seq::empty());
    }
    let mut out: Vec<Shape> = Vec::new();
    let mut i: usize = 0;
    while i < items.len()
        invariant
            i <= items@.len() == all.len(),
            all == json::items_view(items@),
            forall|k: int| 0 <= k < all.len() ==> #[trigger] all[k] == json::json_view(items@[k]),
            all_parsed(all.take(i as int)) == Ok::<_, FaultView>(shape::templates_view(out@)),
        decreases items@.len() - i,
    {
        let ghost before = out@;
        proof {
            assert(all[i as int] == items@[i as int]@);
            assert(decreases_to!(all => all[i as int]));
            assert(all.take(i + 1).drop_last() =~= all.take(i as int));
        }
        match parse(&items[i]) {
            Ok(s) => {
                out.push(s);
                assert(out@.drop_last() =~= before);
            },
            Err(e) => {
                proof {
                    lemma_all_fault(all, i + 1);
                }
                return Err(e);
            },
        }
        i += 1;
    }
    assert(all.take(i as int) =~= all);
    Ok(out)
}

fn parse_array(j: &Json) -> (r: Result<Shape, SchemaError>)
    ensures
        outcome(r) == typed(j@, "array"@),
    decreases j@, 0int,
{
    proof {
        lemma_type_names();
        lemma_member_is_smaller(j@, "prefixItems"@);
        lemma_member_is_smaller(j@, "items"@);
    }
    let min_len = get_size(j, "minItems", 0);
    let max_len = get_size(j, "maxItems", 5);
    if let Some(Json::Array(items)) = get(j, "prefixItems") {
        return match parse_all(items) {
            Ok(positions) => {
                proof {
                    shape::lemma_templates_view(positions@);
                }
                let n: u32 = (positions.len() as u64 % 0x1_0000_0000) as u32;
                Ok(
                    Shape::Array(
                        ArraySpec {
                            kind: ArrayKind::Tuple(positions),
                            min_len: if min_len >= n {
                                min_len
                            } else {
                                n
                            },
                            max_len: if max_len >= n {
                                max_len
                            } else {
                                n
                            },
                        },
                    ),
                )
            },
            Err(e) => Err(e),
        };
    }
    match get(j, "items") {
        Some(items) => match parse(items) {
            Ok(element) => Ok(
                Shape::Array(
                    ArraySpec { kind: ArrayKind::Uniform(Box::new(element)), min_len, max_len },
                ),
            ),
            Err(e) => Err(e),
        },
        None => Err(SchemaError::Missing("items")),
    }
}

fn parse_fields(j: &Json, members: &Vec<(String, Json)>) -> (r: Result<
    Vec<FieldSpec>,
    SchemaError,
>)
    ensures
        match r {
            Ok(fields) => fields_parsed(j@, json::members_view(members@)) == Ok::<_, FaultView>(
                shape::template_fields_view(fields@),
            ),
            Err(e) => fields_parsed(j@, json::members_view(members@)) == Err::<Seq<FieldView>, _>(
                e@,
            ),
        },
    decreases json::members_view(members@), 2int,
{
    let ghost all = json::members_view(members@);
    proof {
        json::lemma_members_view(members@);
        assert(all.take(0) =~= Seq::empty());
    }
    let mut out: Vec<FieldSpec> = Vec::new();
    let mut i: usize = 0;
    while i < members.len()
        invariant
            i <= members@.len() == all.len(),
            all == json::members_view(members@),
            forall|k: int|
                0 <= k < all.len() ==> #[trigger] all[k] == (
                    members@[k].0@,
                    json::json_view(members@[k].1),
                ),
            fields_parsed(j@, all.take(i as int)) == Ok::<_, FaultView>(
                shape::template_fields_view(out@),
            ),
        decreases members@.len() - i,
    {
        let ghost before = out@;
        proof {
            assert(all[i as int].1 == members@[i as int].1@);
            assert(decreases_to!(all => all[i as int]));
            assert(decreases_to!(all[i as int] => all[i as int].1));
            assert(all.take(i + 1).drop_last() =~= all.take(i as int));
        }
        match parse(&members[i].1) {
            Ok(shape) => {
                let required = lists_name(j, &members[i].0);
                out.push(FieldSpec { name: members[i].0.clone(), shape, required });
                assert(out@.drop_last() =~= before);
            },
            Err(e) => {
                proof {
                    lemma_fields_fault(j@, all, i + 1);
                }
                return Err(e);
            },
        }
        i += 1;
    }
    assert(all.take(i as int) =~= all);
    Ok(out)
}

fn parse_object(j: &Json) -> (r: Result<Shape, SchemaError>)
    ensures
        outcome(r) == typed(j@, "object"@),
    decreases j@, 0int,
{
    proof {
        lemma_type_names();
        lemma_member_is_smaller(j@, "additionalProperties"@);
        lemma_member_is_smaller(j@, "properties"@);
    }
    let properties: Option<&Vec<(String, Json)>> = match get(j, "properties") {
        Some(Json::Object(members)) => {
            proof {
                json::lemma_members_view(members@);
            }
            Some(members)
        },
        _ => None,
    };
    let bare: bool = match properties {
        Some(members) => members.len() == 0,
        None => true,
    };
    let additional = get(j, "additionalProperties");
    if bare {
        if let Some(schema) = additional {
            if let Json::Object(_) = schema {
                return match parse(schema) {
                    Ok(value) => {
                        let key_format: Option<StringFormat> = match get(j, "propertyNames") {
                            Some(names) => get_format(names),
                            None => None,
                        };
                        Ok(
                            Shape::Object(
                                ObjectSpec::Mapping {
                                    key_format,
                                    value: Box::new(value),
                                    min_size: get_size(j, "minProperties", 2),
                                    max_size: get_size(j, "maxProperties", 6),
                                },
                            ),
                        )
                    },
                    Err(e) => Err(e),
                };
            }
        }
    }
    match properties {
        Some(members) => match parse_fields(j, members) {
            Ok(fields) => {
                assert(member(j@, "properties"@) == Some(
                    JsonView::Object(json::members_view(members@)),
                ));
                Ok(Shape::Object(ObjectSpec::Record { fields }))
            },
            Err(e) => Err(e),
        },
        None => {
            let fields: Vec<FieldSpec> = Vec::new();
            assert(shape::template_fields_view(fields@) == Seq::<FieldView>::empty());
            Ok(Shape::Object(ObjectSpec::Record { fields }))
        },
    }
}

/// The names of the two compound types are none of the others.
proof fn lemma_type_names()
    ensures
        "array"@ != "null"@ && "array"@ != "boolean"@ && "array"@ != "integer"@ && "array"@
            != "number"@ && "array"@ != "string"@,
        "object"@ != "null"@ && "object"@ != "boolean"@ && "object"@ != "integer"@ && "object"@
            != "number"@ && "object"@ != "string"@ && "object"@ != "array"@,
{
    reveal_strlit("null");
    reveal_strlit("boolean");
    reveal_strlit("integer");
    reveal_strlit("number");
    reveal_strlit("string");
    reveal_strlit("array");
    reveal_strlit("object");
    assert("array"@[0] == 'a');
    assert("object"@[0] == 'o');
    assert("null"@[0] == 'n');
    assert("boolean"@[0] == 'b');
    assert("integer"@[0] == 'i');
    assert("number"@[0] == 'n');
    assert("string"@[0] == 's');
}

/// Reads the template that a schema describes. The first fault in it, in the
/// order of the text, is the error.
pub fn parse(j: &Json) -> (r: Result<Shape, SchemaError>)
    ensures
        outcome(r) == parsed(j@),
    decreases j@, 1int,
{
    proof {
        lemma_member_is_smaller(j@, "oneOf"@);
        lemma_member_is_smaller(j@, "anyOf"@);
    }
    let first = get(j, "oneOf");
    let listed: Option<&Json> = match first {
        Some(v) => Some(v),
        None => get(j, "anyOf"),
    };
    if let Some(Json::Array(arms)) = listed {
        return match parse_all(arms) {
            Ok(arms) => Ok(Shape::Variant(arms)),
            Err(e) => Err(e),
        };
    }
    if let Some(Json::Array(values)) = get(j, "enum") {
        return Ok(Shape::Enum(shape::copy_values(values)));
    }
    if let Some(value) = get(j, "const") {
        return Ok(Shape::Const(value.copied()));
    }
    match get(j, "type") {
        Some(Json::Text(t)) => {
            if *t == "null".to_string() {
                Ok(Shape::Null)
            } else if *t == "boolean".to_string() {
                Ok(Shape::Bool)
            } else if *t == "integer".to_string() {
                Ok(Shape::Int)
            } else if *t == "number".to_string() {
                Ok(Shape::Float)
            } else if *t == "string".to_string() {
                Ok(Shape::String(get_format(j)))
            } else if *t == "array".to_string() {
                parse_array(j)
            } else if *t == "object".to_string() {
                parse_object(j)
            } else {
                Err(SchemaError::InvalidType(t.clone()))
            }
        },
        _ => Err(SchemaError::Missing("type")),
    }
}

} // verus!
