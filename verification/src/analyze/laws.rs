//! What holds of every shape that the analyzer finds.
use crate::analyze::arena::NodeView;
use crate::analyze::finish;
use crate::analyze::shape;
use crate::analyze::sig::{ScalarKind, SigView};
use crate::node::{KindView, ShapeFieldView, ShapeView};
use crate::sketch;
use crate::stats;
use crate::stats::StatsView;
use vstd::prelude::*;

verus! {

/// No part of the shape spells out what a value type expresses.
pub open spec fn tidy(s: ShapeView) -> bool
    decreases s,
{
    &&& shape::flat(s) ==> s.kind is Type
    &&& match s.kind {
        KindView::Type(_) => true,
        KindView::Variant { arms } => all_tidy(arms),
        KindView::Tuple { positions } => all_tidy(positions),
        KindView::Absent => true,
        KindView::Array { element, .. } => tidy(*element),
        KindView::Record { fields } => fields_tidy(fields),
        KindView::Mapping { key, value, .. } => tidy(*key) && tidy(*value),
    }
}

pub open spec fn all_tidy(v: Seq<ShapeView>) -> bool
    decreases v,
{
    v.len() == 0 || (all_tidy(v.drop_last()) && tidy(v.last()))
}

pub open spec fn fields_tidy(v: Seq<ShapeFieldView>) -> bool
    decreases v,
{
    v.len() == 0 || (fields_tidy(v.drop_last()) && tidy(v.last().shape))
}

proof fn lemma_all_tidy_push(v: Seq<ShapeView>, s: ShapeView)
    requires
        all_tidy(v),
        tidy(s),
    ensures
        all_tidy(v.push(s)),
{
    assert(v.push(s).drop_last() =~= v);
}

proof fn lemma_fields_tidy_push(v: Seq<ShapeFieldView>, f: ShapeFieldView)
    requires
        fields_tidy(v),
        tidy(f.shape),
    ensures
        fields_tidy(v.push(f)),
{
    assert(v.push(f).drop_last() =~= v);
}

proof fn lemma_one_of_tidy(arms: Seq<ShapeView>, stats: StatsView)
    requires
        all_tidy(arms),
    ensures
        tidy(finish::one_of(arms, stats)),
{
    if arms.len() == 1 {
        assert(arms.last() == arms[0]);
    }
}

proof fn lemma_map_tidy(value: ShapeView, nullable: bool, stats: StatsView)
    requires
        tidy(value),
    ensures
        tidy(shape::map_of(value, nullable, stats)),
{
    let key = ShapeView {
        kind: KindView::Type(crate::value::TypeView::String),
        stats: stats::plain_stats(0, 0, 0),
    };
    assert(tidy(key));
}

proof fn lemma_sig_tidy(s: SigView, count: u64)
    ensures
        tidy(shape::shape_of_sig(s, count)),
    decreases s,
{
    match s {
        SigView::Array(element) => {
            lemma_sig_tidy(*element, count);
        },
        SigView::Record(fields) => {
            lemma_sig_fields_tidy(fields, count);
        },
        SigView::Variant(arms) => {
            lemma_sig_arms_tidy(arms, count);
        },
        _ => {},
    }
}

proof fn lemma_sig_fields_tidy(v: Seq<(Seq<char>, SigView)>, count: u64)
    ensures
        fields_tidy(shape::shapes_of_fields(v, count)),
    decreases v,
{
    if v.len() > 0 {
        lemma_sig_fields_tidy(v.drop_last(), count);
        lemma_sig_tidy(v.last().1, count);
        lemma_fields_tidy_push(
            shape::shapes_of_fields(v.drop_last(), count),
            ShapeFieldView {
                name: v.last().0,
                shape: shape::shape_of_sig(v.last().1, count),
                nullable: false,
            },
        );
    }
}

proof fn lemma_sig_arms_tidy(v: Seq<SigView>, count: u64)
    ensures
        all_tidy(shape::shapes_of_arms(v, count)),
    decreases v,
{
    if v.len() > 0 {
        lemma_sig_arms_tidy(v.drop_last(), count);
        lemma_sig_tidy(v.last(), count);
        lemma_all_tidy_push(
            shape::shapes_of_arms(v.drop_last(), count),
            shape::shape_of_sig(v.last(), count),
        );
    }
}

proof fn lemma_entries_tidy(v: Seq<(SigView, u64)>)
    ensures
        all_tidy(finish::entry_shapes(v)),
    decreases v.len(),
{
    if v.len() > 0 {
        lemma_entries_tidy(v.drop_last());
        lemma_sig_tidy(v.last().0, v.last().1);
        lemma_all_tidy_push(
            finish::entry_shapes(v.drop_last()),
            shape::shape_of_sig(v.last().0, v.last().1),
        );
    }
}

proof fn lemma_scalars_tidy(n: NodeView, k: int)
    ensures
        all_tidy(finish::scalar_shapes(n, k)),
    decreases k,
{
    if k > 0 {
        lemma_scalars_tidy(n, k - 1);
        let s = ShapeView {
            kind: KindView::Type(shape::kind_type(ScalarKind::nth(k - 1))),
            stats: stats::plain_stats(n.scalar_arms[k - 1], n.first_doc, n.last_doc),
        };
        assert(tidy(s));
        lemma_all_tidy_push(finish::scalar_shapes(n, k - 1), s);
    }
}

proof fn lemma_child_tidy(arena: Seq<NodeView>, id: int, child: int)
    ensures
        tidy(finish::child_shape(arena, id, child)),
    decreases arena.len() - id, 0int, 0int,
{
    if id < child < arena.len() {
        law_shapes_are_flattened(arena, child);
    }
}

proof fn lemma_busiest_tidy(arena: Seq<NodeView>, id: int, ids: Seq<int>)
    ensures
        tidy(finish::busiest_shape(arena, id, ids)),
    decreases arena.len() - id, 1int, 0int,
{
    if ids.len() > 0 {
        lemma_child_tidy(arena, id, ids[finish::busiest(arena, ids, ids.len() as int)]);
    }
}

proof fn lemma_field_shapes_tidy(arena: Seq<NodeView>, id: int, k: int)
    ensures
        fields_tidy(finish::field_shapes(arena, id, k)),
    decreases arena.len() - id, 1int, k,
{
    if k > 0 {
        lemma_field_shapes_tidy(arena, id, k - 1);
        let o = arena[id].object->Some_0;
        let (name, child) = o.fields[k - 1];
        let s = finish::child_shape(arena, id, child);
        lemma_child_tidy(arena, id, child);
        lemma_fields_tidy_push(
            finish::field_shapes(arena, id, k - 1),
            ShapeFieldView {
                name,
                shape: s,
                nullable: arena[child].obs < o.obs || shape::nullish(s),
            },
        );
    }
}

proof fn lemma_positions_tidy(arena: Seq<NodeView>, id: int, k: int)
    ensures
        all_tidy(finish::position_shapes(arena, id, k)),
    decreases arena.len() - id, 1int, k,
{
    if k > 0 {
        lemma_positions_tidy(arena, id, k - 1);
        let a = arena[id].array->Some_0;
        lemma_child_tidy(arena, id, a.positional[k - 1]);
        lemma_all_tidy_push(
            finish::position_shapes(arena, id, k - 1),
            finish::child_shape(arena, id, a.positional[k - 1]),
        );
    }
}

/// A shape that a value type can express is given as that value type, in
/// every part of what the analyzer finds: the richer forms of arrays, records
/// and maps are kept for what would be lost.
pub proof fn law_shapes_are_flattened(arena: Seq<NodeView>, id: int)
    ensures
        tidy(finish::shape_at(arena, id)),
    decreases arena.len() - id, 4int, 0int,
{
    let n = arena[id];
    let scalars = finish::scalar_shapes(n, 6);
    lemma_scalars_tidy(n, 6);
    let some = if n.object is Some {
        let o = n.object->Some_0;
        if o.map_reason() is Some {
            lemma_child_tidy(arena, id, o.map_value);
            lemma_busiest_tidy(arena, id, finish::child_ids(o.fields));
            let value = finish::value_shape(arena, id);
            lemma_map_tidy(value, shape::nullish(value), finish::node_stats(n));
        } else {
            lemma_field_shapes_tidy(arena, id, o.fields.len() as int);
        }
        lemma_all_tidy_push(scalars, finish::object_shape(arena, id));
        scalars.push(finish::object_shape(arena, id))
    } else {
        scalars
    };
    let arms = if n.array is Some {
        let a = n.array->Some_0;
        if a.bag_reason() is Some {
            lemma_entries_tidy(finish::clusters(a));
            lemma_one_of_tidy(
                finish::entry_shapes(finish::clusters(a)),
                stats::plain_stats(sketch::total(finish::clusters(a)) as u64, 0, 0),
            );
            lemma_child_tidy(arena, id, a.bag_value);
            lemma_busiest_tidy(arena, id, a.positional);
            assert(tidy(finish::element_shape(arena, id)));
        } else {
            lemma_positions_tidy(arena, id, finish::arity(a));
        }
        lemma_all_tidy_push(some, finish::array_shape(arena, id));
        some.push(finish::array_shape(arena, id))
    } else {
        some
    };
    lemma_one_of_tidy(arms, finish::node_stats(n));
}

} // verus!
