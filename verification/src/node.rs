//! The shape tree.
use crate::stats::{Stats, StatsView};
use crate::value;
use crate::value::{TypeView, ValueType};
use vstd::prelude::*;

verus! {

#[derive(Debug)]
pub struct ShapeNode {
    pub kind: ShapeKind,
    pub stats: Stats,
}

/// Identity-bearing shape kind.
///
/// `Type` wraps the closed `ValueType` set; the remaining variants are
/// shape-language-only meta-nodes that `ValueType` cannot represent on its
/// own. The compound variants `Array`, `Record`, and `Map` are emitted
/// instead of `Type(...)` when their children carry shape-language structure
/// that would be lost if flattened.
#[derive(Debug)]
pub enum ShapeKind {
    Type(ValueType),
    Variant { arms: Vec<ShapeNode> },
    Tuple { positions: Vec<ShapeNode> },
    Absent,
    /// Homogeneous array whose element shape is a `ShapeNode`.
    Array { element: Box<ShapeNode>, elements_nullable: bool },
    /// Object inferred as a record (stable, low-cardinality key set).
    Record { fields: Vec<ShapeField> },
    /// Object inferred as a high-cardinality map.
    Mapping { key: Box<ShapeNode>, value: Box<ShapeNode>, values_nullable: bool },
}

#[derive(Debug)]
pub struct ShapeField {
    pub name: String,
    pub shape: ShapeNode,
    pub nullable: bool,
}

pub struct ShapeView {
    pub kind: KindView,
    pub stats: StatsView,
}

pub enum KindView {
    Type(TypeView),
    Variant { arms: Seq<ShapeView> },
    Tuple { positions: Seq<ShapeView> },
    Absent,
    Array { element: Box<ShapeView>, elements_nullable: bool },
    Record { fields: Seq<ShapeFieldView> },
    Mapping { key: Box<ShapeView>, value: Box<ShapeView>, values_nullable: bool },
}

pub struct ShapeFieldView {
    pub name: Seq<char>,
    pub shape: ShapeView,
    pub nullable: bool,
}

pub open spec fn shape_view(n: ShapeNode) -> ShapeView
    decreases n,
{
    ShapeView {
        kind: match n.kind {
            ShapeKind::Type(t) => KindView::Type(t@),
            ShapeKind::Variant { arms } => KindView::Variant { arms: shapes_view(arms@) },
            ShapeKind::Tuple { positions } => KindView::Tuple {
                positions: shapes_view(positions@),
            },
            ShapeKind::Absent => KindView::Absent,
            ShapeKind::Array { element, elements_nullable } => KindView::Array {
                element: Box::new(shape_view(*element)),
                elements_nullable,
            },
            ShapeKind::Record { fields } => KindView::Record {
                fields: shape_fields_view(fields@),
            },
            ShapeKind::Mapping { key, value, values_nullable } => KindView::Mapping {
                key: Box::new(shape_view(*key)),
                value: Box::new(shape_view(*value)),
                values_nullable,
            },
        },
        stats: n.stats@,
    }
}

pub open spec fn shapes_view(v: Seq<ShapeNode>) -> Seq<ShapeView>
    decreases v,
{
    if v.len() == 0 {
        Seq::empty()
    } else {
        shapes_view(v.drop_last()).push(shape_view(v.last()))
    }
}

pub open spec fn shape_field_view(f: ShapeField) -> ShapeFieldView {
    ShapeFieldView { name: f.name@, shape: shape_view(f.shape), nullable: f.nullable }
}

pub open spec fn shape_fields_view(v: Seq<ShapeField>) -> Seq<ShapeFieldView>
    decreases v,
{
    if v.len() == 0 {
        Seq::empty()
    } else {
        shape_fields_view(v.drop_last()).push(
            ShapeFieldView {
                name: v.last().name@,
                shape: shape_view(v.last().shape),
                nullable: v.last().nullable,
            },
        )
    }
}

pub proof fn lemma_shapes_view(v: Seq<ShapeNode>)
    ensures
        shapes_view(v).len() == v.len(),
        forall|i: int| 0 <= i < v.len() ==> #[trigger] shapes_view(v)[i] == shape_view(v[i]),
    decreases v.len(),
{
    if v.len() > 0 {
        lemma_shapes_view(v.drop_last());
    }
}

pub proof fn lemma_shape_fields_view(v: Seq<ShapeField>)
    ensures
        shape_fields_view(v).len() == v.len(),
        forall|i: int|
            0 <= i < v.len() ==> #[trigger] shape_fields_view(v)[i] == shape_field_view(v[i]),
    decreases v.len(),
{
    if v.len() > 0 {
        lemma_shape_fields_view(v.drop_last());
    }
}

impl View for ShapeNode {
    type V = ShapeView;

    open spec fn view(&self) -> ShapeView {
        shape_view(*self)
    }
}

impl ShapeNode {
    /// A shape with the same content.
    pub fn copied(&self) -> (r: ShapeNode)
        ensures
            r@ == self@,
        decreases self,
    {
        let stats = self.stats.clone();
        let kind = match &self.kind {
            ShapeKind::Type(t) => ShapeKind::Type(t.copied()),
            ShapeKind::Variant { arms } => {
                let mut out: Vec<ShapeNode> = Vec::new();
                let mut i: usize = 0;
                while i < arms.len()
                    invariant
                        i <= arms@.len(),
                        self.kind == (ShapeKind::Variant { arms: *arms }),
                        shapes_view(out@) == shapes_view(arms@.take(i as int)),
                    decreases arms@.len() - i,
                {
                    assert(decreases_to!(*self => self.kind));
                    assert(decreases_to!(self.kind => self.kind->Variant_arms));
                    assert(decreases_to!(self.kind->Variant_arms => arms@[i as int]));
                    let ghost before = out@;
                    out.push(arms[i].copied());
                    assert(out@.drop_last() =~= before);
                    i += 1;
                    assert(arms@.take(i as int).drop_last() =~= arms@.take(i - 1));
                }
                assert(arms@.take(i as int) =~= arms@);
                ShapeKind::Variant { arms: out }
            },
            ShapeKind::Tuple { positions } => {
                let mut out: Vec<ShapeNode> = Vec::new();
                let mut i: usize = 0;
                while i < positions.len()
                    invariant
                        i <= positions@.len(),
                        self.kind == (ShapeKind::Tuple { positions: *positions }),
                        shapes_view(out@) == shapes_view(positions@.take(i as int)),
                    decreases positions@.len() - i,
                {
                    assert(decreases_to!(*self => self.kind));
                    assert(decreases_to!(self.kind => self.kind->Tuple_positions));
                    assert(decreases_to!(self.kind->Tuple_positions => positions@[i as int]));
                    let ghost before = out@;
                    out.push(positions[i].copied());
                    assert(out@.drop_last() =~= before);
                    i += 1;
                    assert(positions@.take(i as int).drop_last() =~= positions@.take(i - 1));
                }
                assert(positions@.take(i as int) =~= positions@);
                ShapeKind::Tuple { positions: out }
            },
            ShapeKind::Absent => ShapeKind::Absent,
            ShapeKind::Array { element, elements_nullable } => ShapeKind::Array {
                element: Box::new(element.copied()),
                elements_nullable: *elements_nullable,
            },
            ShapeKind::Record { fields } => {
                let mut out: Vec<ShapeField> = Vec::new();
                let mut i: usize = 0;
                while i < fields.len()
                    invariant
                        i <= fields@.len(),
                        self.kind == (ShapeKind::Record { fields: *fields }),
                        shape_fields_view(out@) == shape_fields_view(fields@.take(i as int)),
                    decreases fields@.len() - i,
                {
                    assert(decreases_to!(*self => self.kind));
                    assert(decreases_to!(self.kind => self.kind->Record_fields));
                    assert(decreases_to!(self.kind->Record_fields => fields@[i as int].shape));
                    let ghost before = out@;
                    out.push(
                        ShapeField {
                            name: fields[i].name.clone(),
                            shape: fields[i].shape.copied(),
                            nullable: fields[i].nullable,
                        },
                    );
                    assert(out@.drop_last() =~= before);
                    i += 1;
                    assert(fields@.take(i as int).drop_last() =~= fields@.take(i - 1));
                }
                assert(fields@.take(i as int) =~= fields@);
                ShapeKind::Record { fields: out }
            },
            ShapeKind::Mapping { key, value, values_nullable } => ShapeKind::Mapping {
                key: Box::new(key.copied()),
                value: Box::new(value.copied()),
                values_nullable: *values_nullable,
            },
        };
        ShapeNode { kind, stats }
    }
}

impl Clone for ShapeNode {
    fn clone(&self) -> (r: ShapeNode)
        ensures
            r@ == self@,
    {
        self.copied()
    }
}

} // verus!
