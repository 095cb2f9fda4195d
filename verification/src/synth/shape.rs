//! Generation templates. Distinct from `ShapeNode`: a template drives
//! generation, not inference.
use crate::json;
use crate::json::{Json, JsonView};
use vstd::prelude::*;

verus! {

#[derive(Debug)]
pub enum Shape {
    Null,
    Bool,
    Int,
    Float,
    String(Option<StringFormat>),
    Enum(Vec<Json>),
    Const(Json),
    Variant(Vec<Shape>),
    Array(ArraySpec),
    Object(ObjectSpec),
}

#[derive(Clone, Copy, Debug, PartialEq, Eq, Structural)]
pub enum StringFormat {
    Uuid,
    DateTime,
    Date,
    Email,
    Ipv4,
    Ipv6,
    Url,
}

#[derive(Debug)]
pub struct ArraySpec {
    pub kind: ArrayKind,
    pub min_len: u32,
    pub max_len: u32,
}

#[derive(Debug)]
pub enum ArrayKind {
    Uniform(Box<Shape>),
    Tuple(Vec<Shape>),
}

#[derive(Debug)]
pub enum ObjectSpec {
    Record { fields: Vec<FieldSpec> },
    Mapping {
        key_format: Option<StringFormat>,
        value: Box<Shape>,
        min_size: u32,
        max_size: u32,
    },
}

#[derive(Debug)]
pub struct FieldSpec {
    pub name: String,
    pub shape: Shape,
    pub required: bool,
}

pub enum TemplateView {
    Null,
    Bool,
    Int,
    Float,
    Text(Option<StringFormat>),
    Enum(Seq<JsonView>),
    Const(JsonView),
    Variant(Seq<TemplateView>),
    Uniform { element: Box<TemplateView>, min_len: u32, max_len: u32 },
    Tuple { positions: Seq<TemplateView>, min_len: u32, max_len: u32 },
    Record { fields: Seq<FieldView> },
    Mapping {
        key_format: Option<StringFormat>,
        value: Box<TemplateView>,
        min_size: u32,
        max_size: u32,
    },
}

pub struct FieldView {
    pub name: Seq<char>,
    pub shape: TemplateView,
    pub required: bool,
}

pub open spec fn template_view(s: Shape) -> TemplateView
    decreases s,
{
    match s {
        Shape::Null => TemplateView::Null,
        Shape::Bool => TemplateView::Bool,
        Shape::Int => TemplateView::Int,
        Shape::Float => TemplateView::Float,
        Shape::String(f) => TemplateView::Text(f),
        Shape::Enum(values) => TemplateView::Enum(json::items_view(values@)),
        Shape::Const(value) => TemplateView::Const(value@),
        Shape::Variant(arms) => TemplateView::Variant(templates_view(arms@)),
        Shape::Array(spec) => match spec.kind {
            ArrayKind::Uniform(element) => TemplateView::Uniform {
                element: Box::new(template_view(*element)),
                min_len: spec.min_len,
                max_len: spec.max_len,
            },
            ArrayKind::Tuple(positions) => TemplateView::Tuple {
                positions: templates_view(positions@),
                min_len: spec.min_len,
                max_len: spec.max_len,
            },
        },
        Shape::Object(spec) => match spec {
            ObjectSpec::Record { fields } => TemplateView::Record {
                fields: template_fields_view(fields@),
            },
            ObjectSpec::Mapping { key_format, value, min_size, max_size } => TemplateView::Mapping {
                key_format,
                value: Box::new(template_view(*value)),
                min_size,
                max_size,
            },
        },
    }
}

pub open spec fn templates_view(v: Seq<Shape>) -> Seq<TemplateView>
    decreases v,
{
    if v.len() == 0 {
        Seq::empty()
    } else {
        templates_view(v.drop_last()).push(template_view(v.last()))
    }
}

pub open spec fn template_fields_view(v: Seq<FieldSpec>) -> Seq<FieldView>
    decreases v,
{
    if v.len() == 0 {
        Seq::empty()
    } else {
        template_fields_view(v.drop_last()).push(
            FieldView {
                name: v.last().name@,
                shape: template_view(v.last().shape),
                required: v.last().required,
            },
        )
    }
}

impl View for Shape {
    type V = TemplateView;

    open spec fn view(&self) -> TemplateView {
        template_view(*self)
    }
}

pub proof fn lemma_templates_view(v: Seq<Shape>)
    ensures
        templates_view(v).len() == v.len(),
        forall|i: int| 0 <= i < v.len() ==> #[trigger] templates_view(v)[i] == template_view(v[i]),
    decreases v.len(),
{
    if v.len() > 0 {
        lemma_templates_view(v.drop_last());
    }
}

pub proof fn lemma_template_fields_view(v: Seq<FieldSpec>)
    ensures
        template_fields_view(v).len() == v.len(),
        forall|i: int|
            0 <= i < v.len() ==> #[trigger] template_fields_view(v)[i] == (FieldView {
                name: v[i].name@,
                shape: template_view(v[i].shape),
                required: v[i].required,
            }),
    decreases v.len(),
{
    if v.len() > 0 {
        lemma_template_fields_view(v.drop_last());
    }
}

// ---------------------------------------------------------------------
// Templates that a document can be drawn from
// ---------------------------------------------------------------------

pub open spec fn least(a: u32, b: nat) -> int {
    if a <= b {
        a as int
    } else {
        b as int
    }
}

/// Every choice has something to choose from, and every range holds a size.
pub open spec fn drawable(t: TemplateView) -> bool
    decreases t,
{
    match t {
        TemplateView::Enum(values) => values.len() > 0,
        TemplateView::Variant(arms) => arms.len() > 0 && all_drawable(arms),
        TemplateView::Uniform { element, min_len, max_len } => min_len <= max_len && drawable(
            *element,
        ),
        TemplateView::Tuple { positions, min_len, max_len } => least(min_len, positions.len())
            <= least(max_len, positions.len()) && all_drawable(positions),
        TemplateView::Record { fields } => fields_drawable(fields),
        TemplateView::Mapping { value, min_size, max_size, .. } => min_size <= max_size
            && drawable(*value),
        _ => true,
    }
}

pub open spec fn all_drawable(v: Seq<TemplateView>) -> bool
    decreases v,
{
    v.len() > 0 ==> all_drawable(v.drop_last()) && drawable(v.last())
}

pub open spec fn fields_drawable(v: Seq<FieldView>) -> bool
    decreases v,
{
    v.len() > 0 ==> fields_drawable(v.drop_last()) && drawable(v.last().shape)
}

pub proof fn lemma_all_drawable(v: Seq<TemplateView>)
    ensures
        all_drawable(v) <==> forall|i: int| 0 <= i < v.len() ==> drawable(#[trigger] v[i]),
    decreases v.len(),
{
    if v.len() > 0 {
        let front = v.drop_last();
        lemma_all_drawable(front);
        if forall|i: int| 0 <= i < v.len() ==> drawable(#[trigger] v[i]) {
            assert forall|i: int| 0 <= i < front.len() implies drawable(#[trigger] front[i]) by {
                assert(front[i] == v[i]);
            }
            assert(drawable(v[v.len() - 1]));
        }
        if all_drawable(v) {
            assert forall|i: int| 0 <= i < v.len() implies drawable(#[trigger] v[i]) by {
                if i < front.len() {
                    assert(front[i] == v[i]);
                }
            }
        }
    }
}

pub proof fn lemma_fields_drawable(v: Seq<FieldView>)
    ensures
        fields_drawable(v) <==> forall|i: int|
            0 <= i < v.len() ==> drawable((#[trigger] v[i]).shape),
    decreases v.len(),
{
    if v.len() > 0 {
        let front = v.drop_last();
        lemma_fields_drawable(front);
        if forall|i: int| 0 <= i < v.len() ==> drawable((#[trigger] v[i]).shape) {
            assert forall|i: int| 0 <= i < front.len() implies drawable(
                (#[trigger] front[i]).shape,
            ) by {
                assert(front[i] == v[i]);
            }
            assert(drawable(v[v.len() - 1].shape));
        }
        if fields_drawable(v) {
            assert forall|i: int| 0 <= i < v.len() implies drawable((#[trigger] v[i]).shape) by {
                if i < front.len() {
                    assert(front[i] == v[i]);
                }
            }
        }
    }
}

/// Whether a document can be drawn from each of the templates.
pub fn all_are_drawable(v: &Vec<Shape>) -> (b: bool)
    ensures
        b == all_drawable(templates_view(v@)),
    decreases v,
{
    proof {
        lemma_templates_view(v@);
        lemma_all_drawable(templates_view(v@));
    }
    let mut i: usize = 0;
    while i < v.len()
        invariant
            i <= v@.len(),
            templates_view(v@).len() == v@.len(),
            forall|k: int|
                0 <= k < v@.len() ==> #[trigger] templates_view(v@)[k] == template_view(v@[k]),
            all_drawable(templates_view(v@)) <==> forall|k: int|
                0 <= k < templates_view(v@).len() ==> drawable(#[trigger] templates_view(v@)[k]),
            forall|k: int| 0 <= k < i ==> drawable(#[trigger] templates_view(v@)[k]),
        decreases v@.len() - i,
    {
        assert(decreases_to!(*v => v@[i as int]));
        assert(templates_view(v@)[i as int] == template_view(v@[i as int]));
        if !v[i].is_drawable() {
            return false;
        }
        i += 1;
    }
    true
}

impl Shape {
    /// Whether a document can be drawn from the template.
    pub fn is_drawable(&self) -> (b: bool)
        ensures
            b == drawable(self@),
        decreases self,
    {
        match self {
            Shape::Enum(values) => {
                proof {
                    json::lemma_items_view(values@);
                }
                values.len() > 0
            },
            Shape::Variant(arms) => {
                proof {
                    lemma_templates_view(arms@);
                }
                arms.len() > 0 && all_are_drawable(arms)
            },
            Shape::Array(spec) => match &spec.kind {
                ArrayKind::Uniform(element) => spec.min_len <= spec.max_len
                    && element.is_drawable(),
                ArrayKind::Tuple(positions) => {
                    proof {
                        lemma_templates_view(positions@);
                    }
                    smaller(spec.min_len, positions.len()) <= smaller(
                        spec.max_len,
                        positions.len(),
                    ) && all_are_drawable(positions)
                },
            },
            Shape::Object(spec) => match spec {
                ObjectSpec::Record { fields } => {
                    proof {
                        lemma_template_fields_view(fields@);
                        lemma_fields_drawable(template_fields_view(fields@));
                    }
                    let mut i: usize = 0;
                    while i < fields.len()
                        invariant
                            i <= fields@.len(),
                            *self == Shape::Object(ObjectSpec::Record { fields: *fields }),
                            template_fields_view(fields@).len() == fields@.len(),
                            forall|k: int|
                                0 <= k < fields@.len() ==> #[trigger] template_fields_view(
                                    fields@,
                                )[k] == (FieldView {
                                    name: fields@[k].name@,
                                    shape: template_view(fields@[k].shape),
                                    required: fields@[k].required,
                                }),
                            fields_drawable(template_fields_view(fields@)) <==> forall|k: int|
                                0 <= k < template_fields_view(fields@).len() ==> drawable(
                                    (#[trigger] template_fields_view(fields@)[k]).shape,
                                ),
                            forall|k: int|
                                0 <= k < i ==> drawable(
                                    (#[trigger] template_fields_view(fields@)[k]).shape,
                                ),
                        decreases fields@.len() - i,
                    {
                        assert(decreases_to!(*self => self->Object_0));
                        assert(decreases_to!(self->Object_0 => self->Object_0->Record_fields));
                        assert(decreases_to!(self->Object_0->Record_fields => fields@[i as int]));
                        assert(decreases_to!(fields@[i as int] => fields@[i as int].shape));
                        assert(template_fields_view(fields@)[i as int].shape == template_view(
                            fields@[i as int].shape,
                        ));
                        if !fields[i].shape.is_drawable() {
                            return false;
                        }
                        i += 1;
                    }
                    true
                },
                ObjectSpec::Mapping { value, min_size, max_size, .. } => *min_size <= *max_size
                    && value.is_drawable(),
            },
            _ => true,
        }
    }
}

/// The smaller of a size and a length.
pub fn smaller(a: u32, b: usize) -> (r: usize)
    ensures
        r == least(a, b as nat),
{
    if a as u64 <= b as u64 {
        a as usize
    } else {
        b
    }
}

// ---------------------------------------------------------------------
// Copies
// ---------------------------------------------------------------------

/// Templates with the same content.
pub fn copy_all(v: &Vec<Shape>) -> (r: Vec<Shape>)
    ensures
        templates_view(r@) == templates_view(v@),
    decreases v,
{
    let mut out: Vec<Shape> = Vec::new();
    let mut i: usize = 0;
    while i < v.len()
        invariant
            i <= v@.len(),
            templates_view(out@) == templates_view(v@.take(i as int)),
        decreases v@.len() - i,
    {
        assert(decreases_to!(*v => v@[i as int]));
        let ghost before = out@;
        out.push(v[i].copied());
        assert(out@.drop_last() =~= before);
        i += 1;
        assert(v@.take(i as int).drop_last() =~= v@.take(i - 1));
    }
    assert(v@.take(i as int) =~= v@);
    out
}

pub fn copy_values(v: &Vec<Json>) -> (r: Vec<Json>)
    ensures
        json::items_view(r@) == json::items_view(v@),
{
    let mut out: Vec<Json> = Vec::new();
    let mut i: usize = 0;
    while i < v.len()
        invariant
            i <= v@.len(),
            json::items_view(out@) == json::items_view(v@.take(i as int)),
        decreases v@.len() - i,
    {
        let ghost before = out@;
        out.push(v[i].copied());
        assert(out@.drop_last() =~= before);
        i += 1;
        assert(v@.take(i as int).drop_last() =~= v@.take(i - 1));
    }
    assert(v@.take(i as int) =~= v@);
    out
}

impl Shape {
    /// A template with the same content.
    pub fn copied(&self) -> (r: Shape)
        ensures
            r@ == self@,
        decreases self,
    {
        match self {
            Shape::Null => Shape::Null,
            Shape::Bool => Shape::Bool,
            Shape::Int => Shape::Int,
            Shape::Float => Shape::Float,
            Shape::String(f) => Shape::String(*f),
            Shape::Enum(values) => Shape::Enum(copy_values(values)),
            Shape::Const(value) => Shape::Const(value.copied()),
            Shape::Variant(arms) => Shape::Variant(copy_all(arms)),
            Shape::Array(spec) => match &spec.kind {
                ArrayKind::Uniform(element) => Shape::Array(
                    ArraySpec {
                        kind: ArrayKind::Uniform(Box::new(element.copied())),
                        min_len: spec.min_len,
                        max_len: spec.max_len,
                    },
                ),
                ArrayKind::Tuple(positions) => Shape::Array(
                    ArraySpec {
                        kind: ArrayKind::Tuple(copy_all(positions)),
                        min_len: spec.min_len,
                        max_len: spec.max_len,
                    },
                ),
            },
            Shape::Object(spec) => match spec {
                ObjectSpec::Record { fields } => {
                    let mut out: Vec<FieldSpec> = Vec::new();
                    let mut i: usize = 0;
                    while i < fields.len()
                        invariant
                            i <= fields@.len(),
                            *self == Shape::Object(ObjectSpec::Record { fields: *fields }),
                            template_fields_view(out@) == template_fields_view(
                                fields@.take(i as int),
                            ),
                        decreases fields@.len() - i,
                    {
                        assert(decreases_to!(*self => self->Object_0));
                        assert(decreases_to!(self->Object_0 => self->Object_0->Record_fields));
                        assert(decreases_to!(self->Object_0->Record_fields => fields@[i as int]));
                        assert(decreases_to!(fields@[i as int] => fields@[i as int].shape));
                        let ghost before = out@;
                        out.push(
                            FieldSpec {
                                name: fields[i].name.clone(),
                                shape: fields[i].shape.copied(),
                                required: fields[i].required,
                            },
                        );
                        assert(out@.drop_last() =~= before);
                        i += 1;
                        assert(fields@.take(i as int).drop_last() =~= fields@.take(i - 1));
                    }
                    assert(fields@.take(i as int) =~= fields@);
                    Shape::Object(ObjectSpec::Record { fields: out })
                },
                ObjectSpec::Mapping { key_format, value, min_size, max_size } => Shape::Object(
                    ObjectSpec::Mapping {
                        key_format: *key_format,
                        value: Box::new(value.copied()),
                        min_size: *min_size,
                        max_size: *max_size,
                    },
                ),
            },
        }
    }
}

impl Clone for Shape {
    fn clone(&self) -> (r: Shape)
        ensures
            r@ == self@,
    {
        self.copied()
    }
}

} // verus!
