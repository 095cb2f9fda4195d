//! Shapes and flat value types: which shapes a value type can express, and
//! what it makes of the others.
use crate::analyze::sig;
use crate::analyze::sig::{ScalarKind, Sig, SigView};
use crate::node;
use crate::node::{KindView, ShapeField, ShapeFieldView, ShapeKind, ShapeNode, ShapeView};
use crate::stats;
use crate::stats::{Stats, StatsView};
use crate::value;
use crate::value::{StructField, StructFieldView, TypeView, ValueType};
use vstd::prelude::*;

verus! {

/// A shape that a value type expresses without loss.
pub open spec fn flat(s: ShapeView) -> bool
    decreases s,
{
    match s.kind {
        KindView::Type(_) => true,
        KindView::Variant { .. } => false,
        KindView::Tuple { .. } => false,
        KindView::Absent => false,
        KindView::Array { element, .. } => flat(*element),
        KindView::Record { fields } => flat_fields(fields),
        KindView::Mapping { key, value, .. } => flat(*key) && flat(*value),
    }
}

pub open spec fn flat_fields(v: Seq<ShapeFieldView>) -> bool
    decreases v,
{
    if v.len() == 0 {
        true
    } else {
        flat_fields(v.drop_last()) && flat(v.last().shape)
    }
}

/// An arm that says more than that a value was missing or null.
pub open spec fn telling(s: ShapeView) -> bool {
    match s.kind {
        KindView::Absent => false,
        KindView::Type(t) => !(t is Null),
        _ => true,
    }
}

/// The last of the telling arms with the most observations, among the first
/// `n`.
pub open spec fn best_arm(arms: Seq<ShapeView>, n: int) -> Option<int>
    decreases n,
{
    if n <= 0 {
        None
    } else {
        let before = best_arm(arms, n - 1);
        if !telling(arms[n - 1]) {
            before
        } else {
            match before {
                None => Some(n - 1),
                Some(m) => if arms[n - 1].stats.observation_count
                    >= arms[m].stats.observation_count {
                    Some(n - 1)
                } else {
                    Some(m)
                },
            }
        }
    }
}

pub proof fn lemma_best_arm(arms: Seq<ShapeView>, n: int)
    requires
        0 <= n <= arms.len(),
    ensures
        best_arm(arms, n) matches Some(m) ==> 0 <= m < n && telling(arms[m]),
    decreases n,
{
    if n > 0 {
        lemma_best_arm(arms, n - 1);
    }
}

/// The value type that stands for a shape: exact for flat shapes, the
/// dominant arm for variants, the first position for tuples.
pub open spec fn flattened(s: ShapeView) -> TypeView
    decreases s,
{
    match s.kind {
        KindView::Type(t) => t,
        KindView::Variant { arms } => match best_arm(arms, arms.len() as int) {
            Some(m) => if 0 <= m < arms.len() {
                flattened(arms[m])
            } else {
                TypeView::Null
            },
            None => TypeView::Null,
        },
        KindView::Tuple { positions } => TypeView::Array {
            element_type: Box::new(
                if positions.len() > 0 {
                    flattened(positions[0])
                } else {
                    TypeView::Null
                },
            ),
            elements_nullable: false,
        },
        KindView::Absent => TypeView::Null,
        KindView::Array { element, elements_nullable } => TypeView::Array {
            element_type: Box::new(flattened(*element)),
            elements_nullable,
        },
        KindView::Record { fields } => TypeView::Struct { fields: flattened_fields(fields) },
        KindView::Mapping { key, value, values_nullable } => TypeView::Mapping {
            key_type: Box::new(flattened(*key)),
            value_type: Box::new(flattened(*value)),
            values_nullable,
        },
    }
}

pub open spec fn flattened_fields(v: Seq<ShapeFieldView>) -> Seq<StructFieldView>
    decreases v,
{
    if v.len() == 0 {
        Seq::empty()
    } else {
        flattened_fields(v.drop_last()).push(
            StructFieldView {
                name: v.last().name,
                human_name: Seq::empty(),
                value_type: flattened(v.last().shape),
                nullable: v.last().nullable,
            },
        )
    }
}

/// A shape that a null was observed at: the null type, or a variant with an
/// arm of that kind.
pub open spec fn nullish(s: ShapeView) -> bool
    decreases s,
{
    match s.kind {
        KindView::Type(t) => t is Null,
        KindView::Variant { arms } => any_nullish(arms),
        _ => false,
    }
}

pub open spec fn any_nullish(v: Seq<ShapeView>) -> bool
    decreases v,
{
    if v.len() == 0 {
        false
    } else {
        any_nullish(v.drop_last()) || nullish(v.last())
    }
}

/// True if a shape can be losslessly represented as a value type.
pub fn shape_is_value_type_only(s: &ShapeNode) -> (b: bool)
    ensures
        b == flat(s@),
    decreases s,
{
    match &s.kind {
        ShapeKind::Type(_) => true,
        ShapeKind::Variant { .. } => false,
        ShapeKind::Tuple { .. } => false,
        ShapeKind::Absent => false,
        ShapeKind::Array { element, .. } => shape_is_value_type_only(element),
        ShapeKind::Record { fields } => {
            let mut i: usize = 0;
            let mut all: bool = true;
            while i < fields.len()
                invariant
                    i <= fields@.len(),
                    s.kind == (ShapeKind::Record { fields: *fields }),
                    all == flat_fields(node::shape_fields_view(fields@.take(i as int))),
                decreases fields@.len() - i,
            {
                assert(decreases_to!(*s => s.kind));
                assert(decreases_to!(s.kind => s.kind->Record_fields));
                assert(decreases_to!(s.kind->Record_fields => fields@[i as int].shape));
                let one: bool = shape_is_value_type_only(&fields[i].shape);
                all = all && one;
                i += 1;
                proof {
                    let upto = fields@.take(i as int);
                    assert(upto.drop_last() =~= fields@.take(i - 1));
                    let v = node::shape_fields_view(upto);
                    assert(v.drop_last() =~= node::shape_fields_view(upto.drop_last()));
                }
            }
            assert(fields@.take(i as int) =~= fields@);
            all
        },
        ShapeKind::Mapping { key, value, .. } => {
            let a: bool = shape_is_value_type_only(key);
            let b: bool = shape_is_value_type_only(value);
            a && b
        },
    }
}

fn is_telling(s: &ShapeNode) -> (b: bool)
    ensures
        b == telling(s@),
{
    match &s.kind {
        ShapeKind::Absent => false,
        ShapeKind::Type(ValueType::Null) => false,
        _ => true,
    }
}

pub fn shape_to_value_type(s: &ShapeNode) -> (r: ValueType)
    ensures
        r@ == flattened(s@),
    decreases s,
{
    match &s.kind {
        ShapeKind::Type(t) => t.copied(),
        ShapeKind::Variant { arms } => {
            let ghost v = node::shapes_view(arms@);
            proof {
                node::lemma_shapes_view(arms@);
            }
            let mut best: Option<usize> = None;
            let mut i: usize = 0;
            while i < arms.len()
                invariant
                    i <= arms@.len() == v.len(),
                    forall|k: int|
                        0 <= k < arms@.len() ==> #[trigger] v[k] == node::shape_view(arms@[k]),
                    match best {
                        Some(m) => best_arm(v, i as int) == Some(m as int) && m < i,
                        None => best_arm(v, i as int) is None,
                    },
                decreases arms@.len() - i,
            {
                assert(v[i as int] == node::shape_view(arms@[i as int]));
                if is_telling(&arms[i]) {
                    match best {
                        None => {
                            best = Some(i);
                        },
                        Some(m) => {
                            assert(v[m as int] == node::shape_view(arms@[m as int]));
                            if arms[i].stats.observation_count >= arms[m].stats.observation_count {
                                best = Some(i);
                            }
                        },
                    }
                }
                i += 1;
            }
            match best {
                Some(m) => {
                    assert(decreases_to!(*s => s.kind));
                    assert(decreases_to!(s.kind => s.kind->Variant_arms));
                    assert(decreases_to!(s.kind->Variant_arms => arms@[m as int]));
                    assert(v[m as int] == node::shape_view(arms@[m as int]));
                    shape_to_value_type(&arms[m])
                },
                None => ValueType::Null,
            }
        },
        ShapeKind::Tuple { positions } => {
            proof {
                node::lemma_shapes_view(positions@);
            }
            let elem = if positions.len() > 0 {
                assert(decreases_to!(*s => s.kind));
                assert(decreases_to!(s.kind => s.kind->Tuple_positions));
                assert(decreases_to!(s.kind->Tuple_positions => positions@[0]));
                assert(node::shapes_view(positions@)[0] == node::shape_view(positions@[0]));
                shape_to_value_type(&positions[0])
            } else {
                ValueType::Null
            };
            ValueType::Array { element_type: Box::new(elem), elements_nullable: false }
        },
        ShapeKind::Absent => ValueType::Null,
        ShapeKind::Array { element, elements_nullable } => ValueType::Array {
            element_type: Box::new(shape_to_value_type(element)),
            elements_nullable: *elements_nullable,
        },
        ShapeKind::Record { fields } => {
            let mut out: Vec<StructField> = Vec::new();
            let mut i: usize = 0;
            while i < fields.len()
                invariant
                    i <= fields@.len(),
                    s.kind == (ShapeKind::Record { fields: *fields }),
                    value::struct_fields_view(out@) == flattened_fields(
                        node::shape_fields_view(fields@.take(i as int)),
                    ),
                decreases fields@.len() - i,
            {
                assert(decreases_to!(*s => s.kind));
                assert(decreases_to!(s.kind => s.kind->Record_fields));
                assert(decreases_to!(s.kind->Record_fields => fields@[i as int].shape));
                let ghost before = out@;
                let t = shape_to_value_type(&fields[i].shape);
                out.push(
                    StructField {
                        name: fields[i].name.clone(),
                        human_name: String::new(),
                        value_type: t,
                        nullable: fields[i].nullable,
                    },
                );
                i += 1;
                proof {
                    assert(out@.drop_last() =~= before);
                    let upto = fields@.take(i as int);
                    assert(upto.drop_last() =~= fields@.take(i - 1));
                    let v = node::shape_fields_view(upto);
                    assert(v.drop_last() =~= node::shape_fields_view(upto.drop_last()));
                }
            }
            assert(fields@.take(i as int) =~= fields@);
            ValueType::Struct { fields: out }
        },
        ShapeKind::Mapping { key, value, values_nullable } => ValueType::Mapping {
            key_type: Box::new(shape_to_value_type(key)),
            value_type: Box::new(shape_to_value_type(value)),
            values_nullable: *values_nullable,
        },
    }
}

pub fn contains_null(s: &ShapeNode) -> (b: bool)
    ensures
        b == nullish(s@),
    decreases s,
{
    match &s.kind {
        ShapeKind::Type(ValueType::Null) => true,
        ShapeKind::Variant { arms } => {
            let mut i: usize = 0;
            let mut any: bool = false;
            while i < arms.len()
                invariant
                    i <= arms@.len(),
                    s.kind == (ShapeKind::Variant { arms: *arms }),
                    any == any_nullish(node::shapes_view(arms@.take(i as int))),
                decreases arms@.len() - i,
            {
                assert(decreases_to!(*s => s.kind));
                assert(decreases_to!(s.kind => s.kind->Variant_arms));
                assert(decreases_to!(s.kind->Variant_arms => arms@[i as int]));
                let one: bool = contains_null(&arms[i]);
                any = any || one;
                i += 1;
                proof {
                    let upto = arms@.take(i as int);
                    assert(upto.drop_last() =~= arms@.take(i - 1));
                    let v = node::shapes_view(upto);
                    assert(v.drop_last() =~= node::shapes_view(upto.drop_last()));
                }
            }
            assert(arms@.take(i as int) =~= arms@);
            any
        },
        _ => false,
    }
}

// ---------------------------------------------------------------------
// Containers
// ---------------------------------------------------------------------

/// An array of elements of one shape: a value type where that is enough.
pub open spec fn array_of(element: ShapeView, nullable: bool, stats: StatsView) -> ShapeView {
    ShapeView {
        kind: if flat(element) {
            KindView::Type(
                TypeView::Array {
                    element_type: Box::new(flattened(element)),
                    elements_nullable: nullable,
                },
            )
        } else {
            KindView::Array { element: Box::new(element), elements_nullable: nullable }
        },
        stats,
    }
}

/// A record with the given fields: a value type where that is enough.
pub open spec fn record_of(fields: Seq<ShapeFieldView>, stats: StatsView) -> ShapeView {
    ShapeView {
        kind: if flat_fields(fields) {
            KindView::Type(TypeView::Struct { fields: flattened_fields(fields) })
        } else {
            KindView::Record { fields }
        },
        stats,
    }
}

/// A map from strings to values of one shape: a value type where that is
/// enough.
pub open spec fn map_of(value: ShapeView, nullable: bool, stats: StatsView) -> ShapeView {
    ShapeView {
        kind: if flat(value) {
            KindView::Type(
                TypeView::Mapping {
                    key_type: Box::new(TypeView::String),
                    value_type: Box::new(flattened(value)),
                    values_nullable: nullable,
                },
            )
        } else {
            KindView::Mapping {
                key: Box::new(
                    ShapeView {
                        kind: KindView::Type(TypeView::String),
                        stats: stats::plain_stats(0, 0, 0),
                    },
                ),
                value: Box::new(value),
                values_nullable: nullable,
            }
        },
        stats,
    }
}

pub fn array_shape(element: ShapeNode, nullable: bool, stats: Stats) -> (r: ShapeNode)
    ensures
        r@ == array_of(element@, nullable, stats@),
{
    if shape_is_value_type_only(&element) {
        ShapeNode {
            kind: ShapeKind::Type(
                ValueType::Array {
                    element_type: Box::new(shape_to_value_type(&element)),
                    elements_nullable: nullable,
                },
            ),
            stats,
        }
    } else {
        ShapeNode {
            kind: ShapeKind::Array { element: Box::new(element), elements_nullable: nullable },
            stats,
        }
    }
}

pub fn record_shape(fields: Vec<ShapeField>, stats: Stats) -> (r: ShapeNode)
    ensures
        r@ == record_of(node::shape_fields_view(fields@), stats@),
{
    let rich = ShapeNode { kind: ShapeKind::Record { fields }, stats };
    if shape_is_value_type_only(&rich) {
        ShapeNode { kind: ShapeKind::Type(shape_to_value_type(&rich)), stats: rich.stats }
    } else {
        rich
    }
}

pub fn map_shape(value: ShapeNode, nullable: bool, stats: Stats) -> (r: ShapeNode)
    ensures
        r@ == map_of(value@, nullable, stats@),
{
    if shape_is_value_type_only(&value) {
        ShapeNode {
            kind: ShapeKind::Type(
                ValueType::Mapping {
                    key_type: Box::new(ValueType::String),
                    value_type: Box::new(shape_to_value_type(&value)),
                    values_nullable: nullable,
                },
            ),
            stats,
        }
    } else {
        let key = ShapeNode { kind: ShapeKind::Type(ValueType::String), stats: Stats::default() };
        assert(node::shape_view(key).kind == KindView::Type(TypeView::String));
        ShapeNode {
            kind: ShapeKind::Mapping {
                key: Box::new(key),
                value: Box::new(value),
                values_nullable: nullable,
            },
            stats,
        }
    }
}

// ---------------------------------------------------------------------
// Signatures
// ---------------------------------------------------------------------

/// The value type of a scalar kind.
pub open spec fn kind_type(k: ScalarKind) -> TypeView {
    match k {
        ScalarKind::Null => TypeView::Null,
        ScalarKind::Bool => TypeView::Bool,
        ScalarKind::I64 => TypeView::I64,
        ScalarKind::U64 => TypeView::U64,
        ScalarKind::F64 => TypeView::F64,
        ScalarKind::String => TypeView::String,
    }
}

impl ScalarKind {
    pub fn to_value_type(self) -> (t: ValueType)
        ensures
            t@ == kind_type(self),
    {
        match self {
            ScalarKind::Null => ValueType::Null,
            ScalarKind::Bool => ValueType::Bool,
            ScalarKind::I64 => ValueType::I64,
            ScalarKind::U64 => ValueType::U64,
            ScalarKind::F64 => ValueType::F64,
            ScalarKind::String => ValueType::String,
        }
    }
}

/// The shape of the values with a signature that was counted `count` times.
pub open spec fn shape_of_sig(s: SigView, count: u64) -> ShapeView
    decreases s,
{
    let stats = stats::plain_stats(count, 0, 0);
    match s {
        SigView::Empty => ShapeView { kind: KindView::Absent, stats },
        SigView::Scalar(k) => ShapeView { kind: KindView::Type(kind_type(k)), stats },
        SigView::Array(element) => array_of(shape_of_sig(*element, count), false, stats),
        SigView::Record(fields) => record_of(shapes_of_fields(fields, count), stats),
        SigView::Variant(arms) => ShapeView {
            kind: KindView::Variant { arms: shapes_of_arms(arms, count) },
            stats,
        },
    }
}

pub open spec fn shapes_of_fields(v: Seq<(Seq<char>, SigView)>, count: u64) -> Seq<ShapeFieldView>
    decreases v,
{
    if v.len() == 0 {
        Seq::empty()
    } else {
        shapes_of_fields(v.drop_last(), count).push(
            ShapeFieldView {
                name: v.last().0,
                shape: shape_of_sig(v.last().1, count),
                nullable: false,
            },
        )
    }
}

pub open spec fn shapes_of_arms(v: Seq<SigView>, count: u64) -> Seq<ShapeView>
    decreases v,
{
    if v.len() == 0 {
        Seq::empty()
    } else {
        shapes_of_arms(v.drop_last(), count).push(shape_of_sig(v.last(), count))
    }
}

/// Builds a shape from a single subtree signature observed by the cluster
/// sketch. The statistics carry the observed count for that cluster.
pub fn sig_to_shape(s: &Sig, count: u64) -> (r: ShapeNode)
    ensures
        r@ == shape_of_sig(s@, count),
    decreases s,
{
    let stats = Stats::plain(count, 0, 0);
    match s {
        Sig::Empty => ShapeNode { kind: ShapeKind::Absent, stats },
        Sig::Scalar(k) => ShapeNode { kind: ShapeKind::Type(k.to_value_type()), stats },
        Sig::Array(element) => array_shape(sig_to_shape(element, count), false, stats),
        Sig::Record(fields) => {
            let mut out: Vec<ShapeField> = Vec::new();
            let mut i: usize = 0;
            while i < fields.len()
                invariant
                    i <= fields@.len(),
                    *s == Sig::Record(*fields),
                    node::shape_fields_view(out@) == shapes_of_fields(
                        sig::fields_view(fields@.take(i as int)),
                        count,
                    ),
                decreases fields@.len() - i,
            {
                assert(decreases_to!(*s => s->Record_0));
                assert(decreases_to!(s->Record_0 => fields@[i as int].1));
                let ghost before = out@;
                let shape = sig_to_shape(&fields[i].1, count);
                out.push(ShapeField { name: fields[i].0.clone(), shape, nullable: false });
                i += 1;
                proof {
                    assert(out@.drop_last() =~= before);
                    let upto = fields@.take(i as int);
                    assert(upto.drop_last() =~= fields@.take(i - 1));
                    let v = sig::fields_view(upto);
                    assert(v.drop_last() =~= sig::fields_view(upto.drop_last()));
                }
            }
            assert(fields@.take(i as int) =~= fields@);
            record_shape(out, stats)
        },
        Sig::Variant(arms) => {
            let mut out: Vec<ShapeNode> = Vec::new();
            let mut i: usize = 0;
            while i < arms.len()
                invariant
                    i <= arms@.len(),
                    *s == Sig::Variant(*arms),
                    node::shapes_view(out@) == shapes_of_arms(
                        sig::arms_view(arms@.take(i as int)),
                        count,
                    ),
                decreases arms@.len() - i,
            {
                assert(decreases_to!(*s => s->Variant_0));
                assert(decreases_to!(s->Variant_0 => arms@[i as int]));
                let ghost before = out@;
                let shape = sig_to_shape(&arms[i], count);
                out.push(shape);
                i += 1;
                proof {
                    assert(out@.drop_last() =~= before);
                    let upto = arms@.take(i as int);
                    assert(upto.drop_last() =~= arms@.take(i - 1));
                    let v = sig::arms_view(upto);
                    assert(v.drop_last() =~= sig::arms_view(upto.drop_last()));
                }
            }
            assert(arms@.take(i as int) =~= arms@);
            ShapeNode { kind: ShapeKind::Variant { arms: out }, stats }
        },
    }
}

} // verus!
