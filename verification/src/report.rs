//! The structured analysis report.
//!
//! Only the leaf categories that the analyzer emits appear in it, and compound
//! shapes are always spelled out. Where the analyzer compressed a uniform
//! subtree to a value type, the report expands it back into the equivalent
//! rich form.
use crate::analyze::engine;
use crate::analyze::engine::StreamingAnalyzer;
use crate::analyze::shape;
use crate::ingest::JsonEventSink;
use crate::node;
use crate::node::{KindView, ShapeFieldView, ShapeKind, ShapeNode, ShapeView};
use crate::stats::{Stats, StatsView};
use crate::value;
use crate::value::{StructFieldView, TypeView, ValueType};
use vstd::prelude::*;

verus! {

#[derive(Clone, Copy, Debug, PartialEq, Eq, Structural)]
pub enum LeafType {
    Null,
    Bool,
    I64,
    U64,
    F64,
    String,
}

#[derive(Clone, Copy, Debug, PartialEq, Eq, Structural)]
pub struct ReportStats {
    pub observation_count: u64,
    pub first_doc_ordinal: u64,
    pub last_doc_ordinal: u64,
}

#[derive(Debug)]
pub struct ReportNode {
    pub stats: ReportStats,
    pub kind: ReportKind,
}

#[derive(Debug)]
pub enum ReportKind {
    Leaf(LeafType),
    Array { element: Box<ReportNode>, elements_nullable: bool },
    Mapping { key: Box<ReportNode>, value: Box<ReportNode>, values_nullable: bool },
    Record { fields: Vec<ReportField> },
    Tuple { positions: Vec<ReportNode> },
    VariantKind { arms: Vec<ReportNode> },
    Absent,
}

#[derive(Debug)]
pub struct ReportField {
    pub name: String,
    pub shape: ReportNode,
    pub nullable: bool,
}

#[derive(Debug)]
pub struct AnalysisReport {
    pub doc_count: u64,
    pub shape: ReportNode,
}

pub struct ReportView {
    pub stats: ReportStats,
    pub kind: ReportKindView,
}

pub enum ReportKindView {
    Leaf(LeafType),
    Array { element: Box<ReportView>, elements_nullable: bool },
    Mapping { key: Box<ReportView>, value: Box<ReportView>, values_nullable: bool },
    Record { fields: Seq<ReportFieldView> },
    Tuple { positions: Seq<ReportView> },
    VariantKind { arms: Seq<ReportView> },
    Absent,
}

pub struct ReportFieldView {
    pub name: Seq<char>,
    pub shape: ReportView,
    pub nullable: bool,
}

pub open spec fn report_view(n: ReportNode) -> ReportView
    decreases n,
{
    ReportView {
        stats: n.stats,
        kind: match n.kind {
            ReportKind::Leaf(t) => ReportKindView::Leaf(t),
            ReportKind::Array { element, elements_nullable } => ReportKindView::Array {
                element: Box::new(report_view(*element)),
                elements_nullable,
            },
            ReportKind::Mapping { key, value, values_nullable } => ReportKindView::Mapping {
                key: Box::new(report_view(*key)),
                value: Box::new(report_view(*value)),
                values_nullable,
            },
            ReportKind::Record { fields } => ReportKindView::Record {
                fields: report_fields_view(fields@),
            },
            ReportKind::Tuple { positions } => ReportKindView::Tuple {
                positions: reports_view(positions@),
            },
            ReportKind::VariantKind { arms } => ReportKindView::VariantKind {
                arms: reports_view(arms@),
            },
            ReportKind::Absent => ReportKindView::Absent,
        },
    }
}

pub open spec fn reports_view(v: Seq<ReportNode>) -> Seq<ReportView>
    decreases v,
{
    if v.len() == 0 {
        Seq::empty()
    } else {
        reports_view(v.drop_last()).push(report_view(v.last()))
    }
}

pub open spec fn report_fields_view(v: Seq<ReportField>) -> Seq<ReportFieldView>
    decreases v,
{
    if v.len() == 0 {
        Seq::empty()
    } else {
        report_fields_view(v.drop_last()).push(
            ReportFieldView {
                name: v.last().name@,
                shape: report_view(v.last().shape),
                nullable: v.last().nullable,
            },
        )
    }
}

impl View for ReportNode {
    type V = ReportView;

    open spec fn view(&self) -> ReportView {
        report_view(*self)
    }
}

// ---------------------------------------------------------------------
// The model
// ---------------------------------------------------------------------

pub open spec fn no_stats() -> ReportStats {
    ReportStats { observation_count: 0, first_doc_ordinal: 0, last_doc_ordinal: 0 }
}

pub open spec fn reported_stats(s: StatsView) -> ReportStats {
    ReportStats {
        observation_count: s.observation_count,
        first_doc_ordinal: s.first_doc_ordinal,
        last_doc_ordinal: s.last_doc_ordinal,
    }
}

/// A value type, spelled out. What is below it has no statistics of its own.
pub open spec fn expanded(t: TypeView) -> ReportKindView
    decreases t,
{
    match t {
        TypeView::Null => ReportKindView::Leaf(LeafType::Null),
        TypeView::Bool => ReportKindView::Leaf(LeafType::Bool),
        TypeView::I64 => ReportKindView::Leaf(LeafType::I64),
        TypeView::U64 => ReportKindView::Leaf(LeafType::U64),
        TypeView::F64 => ReportKindView::Leaf(LeafType::F64),
        TypeView::String => ReportKindView::Leaf(LeafType::String),
        TypeView::Array { element_type, elements_nullable } => ReportKindView::Array {
            element: Box::new(ReportView { stats: no_stats(), kind: expanded(*element_type) }),
            elements_nullable,
        },
        TypeView::Struct { fields } => ReportKindView::Record { fields: expanded_fields(fields) },
        TypeView::Mapping { key_type, value_type, values_nullable } => ReportKindView::Mapping {
            key: Box::new(ReportView { stats: no_stats(), kind: expanded(*key_type) }),
            value: Box::new(ReportView { stats: no_stats(), kind: expanded(*value_type) }),
            values_nullable,
        },
    }
}

pub open spec fn expanded_fields(v: Seq<StructFieldView>) -> Seq<ReportFieldView>
    decreases v,
{
    if v.len() == 0 {
        Seq::empty()
    } else {
        expanded_fields(v.drop_last()).push(
            ReportFieldView {
                name: v.last().name,
                shape: ReportView { stats: no_stats(), kind: expanded(v.last().value_type) },
                nullable: v.last().nullable,
            },
        )
    }
}

/// What is reported of a shape.
pub open spec fn reported(s: ShapeView) -> ReportView
    decreases s,
{
    ReportView {
        stats: reported_stats(s.stats),
        kind: match s.kind {
            KindView::Type(t) => expanded(t),
            KindView::Variant { arms } => ReportKindView::VariantKind { arms: all_reported(arms) },
            KindView::Tuple { positions } => ReportKindView::Tuple {
                positions: all_reported(positions),
            },
            KindView::Absent => ReportKindView::Absent,
            KindView::Array { element, elements_nullable } => ReportKindView::Array {
                element: Box::new(reported(*element)),
                elements_nullable,
            },
            KindView::Record { fields } => ReportKindView::Record {
                fields: fields_reported(fields),
            },
            KindView::Mapping { key, value, values_nullable } => ReportKindView::Mapping {
                key: Box::new(reported(*key)),
                value: Box::new(reported(*value)),
                values_nullable,
            },
        },
    }
}

pub open spec fn all_reported(v: Seq<ShapeView>) -> Seq<ReportView>
    decreases v,
{
    if v.len() == 0 {
        Seq::empty()
    } else {
        all_reported(v.drop_last()).push(reported(v.last()))
    }
}

pub open spec fn fields_reported(v: Seq<ShapeFieldView>) -> Seq<ReportFieldView>
    decreases v,
{
    if v.len() == 0 {
        Seq::empty()
    } else {
        fields_reported(v.drop_last()).push(
            ReportFieldView {
                name: v.last().name,
                shape: reported(v.last().shape),
                nullable: v.last().nullable,
            },
        )
    }
}

// ---------------------------------------------------------------------
// Building
// ---------------------------------------------------------------------

/// A value type in the rich form, with no statistics.
fn leaf_shape_node(t: &ValueType) -> (r: ReportNode)
    ensures
        r@ == (ReportView { stats: no_stats(), kind: expanded(t@) }),
    decreases t, 1int,
{
    ReportNode {
        stats: ReportStats { observation_count: 0, first_doc_ordinal: 0, last_doc_ordinal: 0 },
        kind: value_type_to_kind(t),
    }
}

pub open spec fn kind_view(k: ReportKind) -> ReportKindView {
    report_view(ReportNode { stats: no_stats(), kind: k }).kind
}

/// Spells a value type out. Leaf categories become leaves; compressed compound
/// types are expanded into the equivalent rich form.
pub fn value_type_to_kind(t: &ValueType) -> (r: ReportKind)
    ensures
        kind_view(r) == expanded(t@),
    decreases t, 0int,
{
    match t {
        ValueType::Null => ReportKind::Leaf(LeafType::Null),
        ValueType::Bool => ReportKind::Leaf(LeafType::Bool),
        ValueType::I64 => ReportKind::Leaf(LeafType::I64),
        ValueType::U64 => ReportKind::Leaf(LeafType::U64),
        ValueType::F64 => ReportKind::Leaf(LeafType::F64),
        ValueType::String => ReportKind::Leaf(LeafType::String),
        ValueType::Array { element_type, elements_nullable } => ReportKind::Array {
            element: Box::new(leaf_shape_node(element_type)),
            elements_nullable: *elements_nullable,
        },
        ValueType::Mapping { key_type, value_type, values_nullable } => ReportKind::Mapping {
            key: Box::new(leaf_shape_node(key_type)),
            value: Box::new(leaf_shape_node(value_type)),
            values_nullable: *values_nullable,
        },
        ValueType::Struct { fields } => {
            let mut out: Vec<ReportField> = Vec::new();
            let mut i: usize = 0;
            while i < fields.len()
                invariant
                    i <= fields@.len(),
                    *t == (ValueType::Struct { fields: *fields }),
                    report_fields_view(out@) == expanded_fields(
                        value::struct_fields_view(fields@.take(i as int)),
                    ),
                decreases fields@.len() - i,
            {
                assert(decreases_to!(*t => t->Struct_fields));
                assert(decreases_to!(t->Struct_fields => fields@[i as int].value_type));
                let ghost before = out@;
                let shape = leaf_shape_node(&fields[i].value_type);
                out.push(
                    ReportField {
                        name: fields[i].name.clone(),
                        shape,
                        nullable: fields[i].nullable,
                    },
                );
                i += 1;
                proof {
                    assert(out@.drop_last() =~= before);
                    let upto = fields@.take(i as int);
                    assert(upto.drop_last() =~= fields@.take(i - 1));
                    let v = value::struct_fields_view(upto);
                    assert(v.drop_last() =~= value::struct_fields_view(upto.drop_last()));
                }
            }
            assert(fields@.take(i as int) =~= fields@);
            ReportKind::Record { fields: out }
        },
    }
}

fn stats_to_report(s: &Stats) -> (r: ReportStats)
    ensures
        r == reported_stats(s@),
{
    ReportStats {
        observation_count: s.observation_count,
        first_doc_ordinal: s.first_doc_ordinal,
        last_doc_ordinal: s.last_doc_ordinal,
    }
}

fn report_all(v: &Vec<ShapeNode>) -> (out: Vec<ReportNode>)
    ensures
        reports_view(out@) == all_reported(node::shapes_view(v@)),
    decreases v,
{
    let mut out: Vec<ReportNode> = Vec::new();
    let mut i: usize = 0;
    while i < v.len()
        invariant
            i <= v@.len(),
            reports_view(out@) == all_reported(node::shapes_view(v@.take(i as int))),
        decreases v@.len() - i,
    {
        assert(decreases_to!(*v => v@[i as int]));
        let ghost before = out@;
        out.push(shape_node_to_proto(&v[i]));
        i += 1;
        proof {
            assert(out@.drop_last() =~= before);
            let upto = v@.take(i as int);
            assert(upto.drop_last() =~= v@.take(i - 1));
            let w = node::shapes_view(upto);
            assert(w.drop_last() =~= node::shapes_view(upto.drop_last()));
        }
    }
    assert(v@.take(i as int) =~= v@);
    out
}

/// Converts a shape into its reported form.
pub fn shape_node_to_proto(s: &ShapeNode) -> (r: ReportNode)
    ensures
        r@ == reported(s@),
    decreases s,
{
    let stats = stats_to_report(&s.stats);
    let kind = match &s.kind {
        ShapeKind::Type(t) => value_type_to_kind(t),
        ShapeKind::Variant { arms } => {
            assert(decreases_to!(*s => s.kind));
            assert(decreases_to!(s.kind => s.kind->Variant_arms));
            ReportKind::VariantKind { arms: report_all(arms) }
        },
        ShapeKind::Tuple { positions } => {
            assert(decreases_to!(*s => s.kind));
            assert(decreases_to!(s.kind => s.kind->Tuple_positions));
            ReportKind::Tuple { positions: report_all(positions) }
        },
        ShapeKind::Absent => ReportKind::Absent,
        ShapeKind::Array { element, elements_nullable } => ReportKind::Array {
            element: Box::new(shape_node_to_proto(element)),
            elements_nullable: *elements_nullable,
        },
        ShapeKind::Record { fields } => {
            let mut out: Vec<ReportField> = Vec::new();
            let mut i: usize = 0;
            while i < fields.len()
                invariant
                    i <= fields@.len(),
                    s.kind == (ShapeKind::Record { fields: *fields }),
                    report_fields_view(out@) == fields_reported(
                        node::shape_fields_view(fields@.take(i as int)),
                    ),
                decreases fields@.len() - i,
            {
                assert(decreases_to!(*s => s.kind));
                assert(decreases_to!(s.kind => s.kind->Record_fields));
                assert(decreases_to!(s.kind->Record_fields => fields@[i as int].shape));
                let ghost before = out@;
                let shape = shape_node_to_proto(&fields[i].shape);
                out.push(
                    ReportField {
                        name: fields[i].name.clone(),
                        shape,
                        nullable: fields[i].nullable,
                    },
                );
                i += 1;
                proof {
                    assert(out@.drop_last() =~= before);
                    let upto = fields@.take(i as int);
                    assert(upto.drop_last() =~= fields@.take(i - 1));
                    let v = node::shape_fields_view(upto);
                    assert(v.drop_last() =~= node::shape_fields_view(upto.drop_last()));
                }
            }
            assert(fields@.take(i as int) =~= fields@);
            ReportKind::Record { fields: out }
        },
        ShapeKind::Mapping { key, value, values_nullable } => ReportKind::Mapping {
            key: Box::new(shape_node_to_proto(key)),
            value: Box::new(shape_node_to_proto(value)),
            values_nullable: *values_nullable,
        },
    };
    let r = ReportNode { stats, kind };
    assert(kind_view(r.kind) == report_view(r).kind);
    r
}

/// Builds the structured report of an analyzer's current state. The analyzer
/// can keep ingesting after.
pub fn analyzer_to_proto(analyzer: &StreamingAnalyzer) -> (r: AnalysisReport)
    requires
        analyzer.inv(),
    ensures
        r.doc_count == analyzer@.doc_count,
        r.shape@ == reported(engine::root_shape(analyzer@)),
{
    let shape = analyzer.build_shape();
    AnalysisReport { doc_count: analyzer.doc_count(), shape: shape_node_to_proto(&shape) }
}

// ---------------------------------------------------------------------
// Laws
// ---------------------------------------------------------------------

/// A report without its statistics.
pub open spec fn bare(r: ReportView) -> ReportView
    decreases r,
{
    ReportView {
        stats: no_stats(),
        kind: match r.kind {
            ReportKindView::Leaf(t) => ReportKindView::Leaf(t),
            ReportKindView::Array { element, elements_nullable } => ReportKindView::Array {
                element: Box::new(bare(*element)),
                elements_nullable,
            },
            ReportKindView::Mapping { key, value, values_nullable } => ReportKindView::Mapping {
                key: Box::new(bare(*key)),
                value: Box::new(bare(*value)),
                values_nullable,
            },
            ReportKindView::Record { fields } => ReportKindView::Record {
                fields: bare_fields(fields),
            },
            ReportKindView::Tuple { positions } => ReportKindView::Tuple {
                positions: all_bare(positions),
            },
            ReportKindView::VariantKind { arms } => ReportKindView::VariantKind {
                arms: all_bare(arms),
            },
            ReportKindView::Absent => ReportKindView::Absent,
        },
    }
}

pub open spec fn all_bare(v: Seq<ReportView>) -> Seq<ReportView>
    decreases v,
{
    if v.len() == 0 {
        Seq::empty()
    } else {
        all_bare(v.drop_last()).push(bare(v.last()))
    }
}

pub open spec fn bare_fields(v: Seq<ReportFieldView>) -> Seq<ReportFieldView>
    decreases v,
{
    if v.len() == 0 {
        Seq::empty()
    } else {
        bare_fields(v.drop_last()).push(
            ReportFieldView {
                name: v.last().name,
                shape: bare(v.last().shape),
                nullable: v.last().nullable,
            },
        )
    }
}

/// Compression loses nothing but statistics: a shape that a value type can
/// express is reported with the same structure whether it was compressed or
/// not.
pub proof fn law_compression_keeps_the_structure(s: ShapeView)
    requires
        shape::flat(s),
    ensures
        bare(reported(s)) == bare(
            ReportView { stats: no_stats(), kind: expanded(shape::flattened(s)) },
        ),
    decreases s,
{
    match s.kind {
        KindView::Array { element, .. } => {
            law_compression_keeps_the_structure(*element);
        },
        KindView::Record { fields } => {
            lemma_fields_keep_the_structure(fields);
        },
        KindView::Mapping { key, value, .. } => {
            law_compression_keeps_the_structure(*key);
            law_compression_keeps_the_structure(*value);
        },
        _ => {},
    }
}

proof fn lemma_fields_keep_the_structure(v: Seq<ShapeFieldView>)
    requires
        shape::flat_fields(v),
    ensures
        bare_fields(fields_reported(v)) == bare_fields(
            expanded_fields(shape::flattened_fields(v)),
        ),
    decreases v,
{
    if v.len() > 0 {
        lemma_fields_keep_the_structure(v.drop_last());
        law_compression_keeps_the_structure(v.last().shape);
        let a = fields_reported(v);
        assert(a.drop_last() =~= fields_reported(v.drop_last()));
        let f = shape::flattened_fields(v);
        assert(f.drop_last() =~= shape::flattened_fields(v.drop_last()));
        let b = expanded_fields(f);
        assert(b.drop_last() =~= expanded_fields(f.drop_last()));
    }
}

/// A report that spells out a value type: leaves by their names, containers by
/// their parts, fields by their names and in their order, nullable where the
/// type has it so.
pub open spec fn spells(k: ReportKindView, t: TypeView) -> bool
    decreases t,
{
    match (k, t) {
        (ReportKindView::Leaf(LeafType::Null), TypeView::Null) => true,
        (ReportKindView::Leaf(LeafType::Bool), TypeView::Bool) => true,
        (ReportKindView::Leaf(LeafType::I64), TypeView::I64) => true,
        (ReportKindView::Leaf(LeafType::U64), TypeView::U64) => true,
        (ReportKindView::Leaf(LeafType::F64), TypeView::F64) => true,
        (ReportKindView::Leaf(LeafType::String), TypeView::String) => true,
        (
            ReportKindView::Array { element, elements_nullable },
            TypeView::Array { element_type, elements_nullable: n },
        ) => elements_nullable == n && spells(element.kind, *element_type),
        (
            ReportKindView::Mapping { key, value, values_nullable },
            TypeView::Mapping { key_type, value_type, values_nullable: n },
        ) => values_nullable == n && spells(key.kind, *key_type) && spells(value.kind, *value_type),
        (ReportKindView::Record { fields }, TypeView::Struct { fields: types }) => all_spell(
            fields,
            types,
        ),
        _ => false,
    }
}

pub open spec fn all_spell(fields: Seq<ReportFieldView>, types: Seq<StructFieldView>) -> bool
    decreases types,
{
    if types.len() == 0 {
        fields.len() == 0
    } else {
        &&& fields.len() == types.len()
        &&& fields.last().name == types.last().name
        &&& fields.last().nullable == types.last().nullable
        &&& spells(fields.last().shape.kind, types.last().value_type)
        &&& all_spell(fields.drop_last(), types.drop_last())
    }
}

/// A report that mirrors a shape: the same counts, the same containers of the
/// same parts, in their order.
pub open spec fn mirrors(r: ReportView, s: ShapeView) -> bool
    decreases s,
{
    &&& r.stats.observation_count == s.stats.observation_count
    &&& r.stats.first_doc_ordinal == s.stats.first_doc_ordinal
    &&& r.stats.last_doc_ordinal == s.stats.last_doc_ordinal
    &&& match (r.kind, s.kind) {
        (k, KindView::Type(t)) => spells(k, t),
        (ReportKindView::Absent, KindView::Absent) => true,
        (ReportKindView::VariantKind { arms }, KindView::Variant { arms: v }) => all_mirror(arms, v),
        (ReportKindView::Tuple { positions }, KindView::Tuple { positions: v }) => all_mirror(
            positions,
            v,
        ),
        (
            ReportKindView::Array { element, elements_nullable },
            KindView::Array { element: e, elements_nullable: n },
        ) => elements_nullable == n && mirrors(*element, *e),
        (
            ReportKindView::Mapping { key, value, values_nullable },
            KindView::Mapping { key: k, value: v, values_nullable: n },
        ) => values_nullable == n && mirrors(*key, *k) && mirrors(*value, *v),
        (ReportKindView::Record { fields }, KindView::Record { fields: v }) => fields_mirror(
            fields,
            v,
        ),
        _ => false,
    }
}

pub open spec fn all_mirror(r: Seq<ReportView>, v: Seq<ShapeView>) -> bool
    decreases v,
{
    if v.len() == 0 {
        r.len() == 0
    } else {
        r.len() == v.len() && mirrors(r.last(), v.last()) && all_mirror(
            r.drop_last(),
            v.drop_last(),
        )
    }
}

pub open spec fn fields_mirror(r: Seq<ReportFieldView>, v: Seq<ShapeFieldView>) -> bool
    decreases v,
{
    if v.len() == 0 {
        r.len() == 0
    } else {
        &&& r.len() == v.len()
        &&& r.last().name == v.last().name
        &&& r.last().nullable == v.last().nullable
        &&& mirrors(r.last().shape, v.last().shape)
        &&& fields_mirror(r.drop_last(), v.drop_last())
    }
}

/// A value type is spelled out as it is.
pub proof fn law_types_are_spelled_out(t: TypeView)
    ensures
        spells(expanded(t), t),
    decreases t,
{
    match t {
        TypeView::Array { element_type, .. } => {
            law_types_are_spelled_out(*element_type);
        },
        TypeView::Mapping { key_type, value_type, .. } => {
            law_types_are_spelled_out(*key_type);
            law_types_are_spelled_out(*value_type);
        },
        TypeView::Struct { fields } => {
            lemma_all_spell(fields);
        },
        _ => {},
    }
}

proof fn lemma_all_spell(v: Seq<StructFieldView>)
    ensures
        all_spell(expanded_fields(v), v),
        expanded_fields(v).len() == v.len(),
    decreases v,
{
    if v.len() > 0 {
        lemma_all_spell(v.drop_last());
        assert(decreases_to!(v => v[v.len() - 1]));
        law_types_are_spelled_out(v.last().value_type);
        assert(expanded_fields(v).drop_last() =~= expanded_fields(v.drop_last()));
    }
}

/// What is reported of a shape mirrors it, with all of its counts.
pub proof fn law_reports_mirror_shapes(s: ShapeView)
    ensures
        mirrors(reported(s), s),
    decreases s,
{
    match s.kind {
        KindView::Type(t) => {
            law_types_are_spelled_out(t);
        },
        KindView::Variant { arms } => {
            lemma_all_mirror(arms);
        },
        KindView::Tuple { positions } => {
            lemma_all_mirror(positions);
        },
        KindView::Absent => {},
        KindView::Array { element, .. } => {
            law_reports_mirror_shapes(*element);
        },
        KindView::Record { fields } => {
            lemma_fields_mirror(fields);
        },
        KindView::Mapping { key, value, .. } => {
            law_reports_mirror_shapes(*key);
            law_reports_mirror_shapes(*value);
        },
    }
}

proof fn lemma_all_mirror(v: Seq<ShapeView>)
    ensures
        all_mirror(all_reported(v), v),
        all_reported(v).len() == v.len(),
    decreases v,
{
    if v.len() > 0 {
        lemma_all_mirror(v.drop_last());
        assert(decreases_to!(v => v[v.len() - 1]));
        law_reports_mirror_shapes(v.last());
        assert(all_reported(v).drop_last() =~= all_reported(v.drop_last()));
    }
}

proof fn lemma_fields_mirror(v: Seq<ShapeFieldView>)
    ensures
        fields_mirror(fields_reported(v), v),
        fields_reported(v).len() == v.len(),
    decreases v,
{
    if v.len() > 0 {
        lemma_fields_mirror(v.drop_last());
        assert(decreases_to!(v => v[v.len() - 1]));
        law_reports_mirror_shapes(v.last().shape);
        assert(fields_reported(v).drop_last() =~= fields_reported(v.drop_last()));
    }
}

} // verus!
