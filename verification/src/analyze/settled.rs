//! What the shapes of nodes say, and what becomes of them as value types.
use crate::analyze::arena::NodeView;
use crate::analyze::finish;
use crate::analyze::shape;
use crate::node::{KindView, ShapeFieldView, ShapeView};
use crate::value::{StructFieldView, TypeView};
use vstd::prelude::*;

verus! {

// ---------------------------------------------------------------------
// Nulls
// ---------------------------------------------------------------------

/// Null, or a choice one of which is null.
pub open spec fn may_be_null(kind: KindView) -> bool {
    ||| kind == KindView::Type(TypeView::Null)
    ||| kind matches KindView::Variant { arms } && exists|i: int|
        0 <= i < arms.len() && (#[trigger] arms[i]).kind == KindView::Type(TypeView::Null)
}

/// A choice in which no arm is a choice itself.
pub open spec fn simple(kind: KindView) -> bool {
    kind matches KindView::Variant { arms } ==> forall|i: int|
        0 <= i < arms.len() ==> !((#[trigger] arms[i]).kind is Variant)
}

proof fn lemma_any_nullish(arms: Seq<ShapeView>)
    ensures
        (exists|i: int|
            0 <= i < arms.len() && (#[trigger] arms[i]).kind == KindView::Type(TypeView::Null))
            ==> shape::any_nullish(arms),
        shape::any_nullish(arms) && (forall|i: int|
            0 <= i < arms.len() ==> !((#[trigger] arms[i]).kind is Variant)) ==> exists|i: int|
            0 <= i < arms.len() && (#[trigger] arms[i]).kind == KindView::Type(TypeView::Null),
    decreases arms.len(),
{
    if arms.len() > 0 {
        let front = arms.drop_last();
        lemma_any_nullish(front);
        let n = arms.len() - 1;
        if exists|i: int|
            0 <= i < arms.len() && (#[trigger] arms[i]).kind == KindView::Type(TypeView::Null) {
            let i = choose|i: int|
                0 <= i < arms.len() && (#[trigger] arms[i]).kind == KindView::Type(TypeView::Null);
            if i < n {
                assert(front[i].kind == KindView::Type(TypeView::Null));
            } else {
                assert(shape::nullish(arms.last()));
            }
        }
        if shape::any_nullish(arms) && (forall|i: int|
            0 <= i < arms.len() ==> !((#[trigger] arms[i]).kind is Variant)) {
            assert(forall|i: int| 0 <= i < front.len() ==> #[trigger] front[i] == arms[i]);
            if shape::any_nullish(front) {
                let i = choose|i: int|
                    0 <= i < front.len() && (#[trigger] front[i]).kind == KindView::Type(
                        TypeView::Null,
                    );
                assert(arms[i].kind == KindView::Type(TypeView::Null));
            } else {
                assert(!(arms[n].kind is Variant));
                assert(shape::nullish(arms[n]));
                assert(arms[n].kind == KindView::Type(TypeView::Null));
            }
        }
    }
}

proof fn lemma_nullish(s: ShapeView)
    ensures
        may_be_null(s.kind) ==> shape::nullish(s),
        simple(s.kind) && shape::nullish(s) ==> may_be_null(s.kind),
{
    if let KindView::Variant { arms } = s.kind {
        lemma_any_nullish(arms);
    }
}

/// The values of a map are nullable where a null is among what the map holds,
/// and not where none is; and so are the elements of a bag. The names of a map
/// are strings.
pub proof fn law_maps_and_bags_tell_of_nulls(arena: Seq<NodeView>, id: int)
    ensures
        (arena[id].object matches Some(o) && o.map_reason() is Some) ==> ({
            let value = finish::value_shape(arena, id);
            match finish::object_shape(arena, id).kind {
                KindView::Mapping { key, value: v, values_nullable } => {
                    &&& key.kind == KindView::Type(TypeView::String)
                    &&& *v == value
                    &&& may_be_null(value.kind) ==> values_nullable
                    &&& simple(value.kind) && values_nullable ==> may_be_null(value.kind)
                },
                KindView::Type(TypeView::Mapping { key_type, value_type, values_nullable }) => {
                    &&& *key_type == TypeView::String
                    &&& faithful(value, *value_type)
                    &&& may_be_null(value.kind) ==> values_nullable
                    &&& simple(value.kind) && values_nullable ==> may_be_null(value.kind)
                },
                _ => false,
            }
        }),
        (arena[id].array matches Some(a) && a.bag_reason() is Some) ==> ({
            let element = finish::element_shape(arena, id);
            match finish::array_shape(arena, id).kind {
                KindView::Array { element: e, elements_nullable } => {
                    &&& *e == element
                    &&& may_be_null(element.kind) ==> elements_nullable
                    &&& simple(element.kind) && elements_nullable ==> may_be_null(element.kind)
                },
                KindView::Type(TypeView::Array { element_type, elements_nullable }) => {
                    &&& faithful(element, *element_type)
                    &&& may_be_null(element.kind) ==> elements_nullable
                    &&& simple(element.kind) && elements_nullable ==> may_be_null(element.kind)
                },
                _ => false,
            }
        }),
{
    let value = finish::value_shape(arena, id);
    let element = finish::element_shape(arena, id);
    lemma_nullish(value);
    lemma_nullish(element);
    if shape::flat(value) {
        law_flat_shapes_lose_nothing(value);
    }
    if shape::flat(element) {
        law_flat_shapes_lose_nothing(element);
    }
}

proof fn lemma_field_shapes(arena: Seq<NodeView>, id: int, k: int, i: int)
    requires
        0 <= i < k,
    ensures
        finish::field_shapes(arena, id, k).len() == k,
        ({
            let o = arena[id].object->Some_0;
            let child = o.fields[i].1;
            let s = finish::child_shape(arena, id, child);
            finish::field_shapes(arena, id, k)[i] == (ShapeFieldView {
                name: o.fields[i].0,
                shape: s,
                nullable: arena[child].obs < o.obs || shape::nullish(s),
            })
        }),
    decreases k,
{
    if i < k - 1 {
        lemma_field_shapes(arena, id, k - 1, i);
    } else if k > 1 {
        lemma_field_shapes(arena, id, k - 1, 0);
    } else {
        assert(finish::field_shapes(arena, id, 0).len() == 0);
    }
}

/// A field of an object is nullable where some objects had it not, or where a
/// null was among its values; and for no other reason. There is a field for
/// every name, in their order.
pub proof fn law_fields_tell_of_gaps_and_nulls(arena: Seq<NodeView>, id: int, i: int)
    requires
        arena[id].object is Some,
        0 <= i < arena[id].object->Some_0.fields.len(),
    ensures
        ({
            let o = arena[id].object->Some_0;
            let fields = finish::field_shapes(arena, id, o.fields.len() as int);
            let (name, child) = o.fields[i];
            let s = finish::child_shape(arena, id, child);
            &&& fields.len() == o.fields.len()
            &&& fields[i].name == name
            &&& fields[i].shape == s
            &&& arena[child].obs < o.obs ==> fields[i].nullable
            &&& may_be_null(s.kind) ==> fields[i].nullable
            &&& fields[i].nullable && simple(s.kind) ==> arena[child].obs < o.obs || may_be_null(
                s.kind,
            )
        }),
{
    let o = arena[id].object->Some_0;
    lemma_field_shapes(arena, id, o.fields.len() as int, i);
    lemma_nullish(finish::child_shape(arena, id, o.fields[i].1));
}

// ---------------------------------------------------------------------
// The busiest
// ---------------------------------------------------------------------

proof fn lemma_busiest(arena: Seq<NodeView>, ids: Seq<int>, k: int)
    requires
        1 <= k <= ids.len(),
    ensures
        0 <= finish::busiest(arena, ids, k) < k,
        forall|j: int|
            0 <= j < k ==> arena[#[trigger] ids[j]].obs <= arena[ids[finish::busiest(
                arena,
                ids,
                k,
            )]].obs,
        forall|j: int|
            0 <= j < finish::busiest(arena, ids, k) ==> arena[#[trigger] ids[j]].obs
                < arena[ids[finish::busiest(arena, ids, k)]].obs,
    decreases k,
{
    if k > 1 {
        lemma_busiest(arena, ids, k - 1);
    }
}

/// Of several nodes the one with the most observations stands for all, and of
/// equals the first.
pub proof fn law_the_busiest_stands_for_all(arena: Seq<NodeView>, id: int, ids: Seq<int>)
    requires
        ids.len() > 0,
    ensures
        exists|m: int|
            {
                &&& 0 <= m < ids.len()
                &&& finish::busiest_shape(arena, id, ids) == finish::child_shape(
                    arena,
                    id,
                    #[trigger] ids[m],
                )
                &&& forall|j: int|
                    0 <= j < ids.len() ==> arena[#[trigger] ids[j]].obs <= arena[ids[m]].obs
                &&& forall|j: int|
                    0 <= j < m ==> arena[#[trigger] ids[j]].obs < arena[ids[m]].obs
            },
{
    lemma_busiest(arena, ids, ids.len() as int);
    let m = finish::busiest(arena, ids, ids.len() as int);
    assert(finish::busiest_shape(arena, id, ids) == finish::child_shape(arena, id, ids[m]));
}

// ---------------------------------------------------------------------
// Value types
// ---------------------------------------------------------------------

/// A value type that says all that a shape says: the same containers, of the
/// same parts, with the same names, nullable where the shape has it so.
pub open spec fn faithful(s: ShapeView, t: TypeView) -> bool
    decreases s,
{
    match (s.kind, t) {
        (KindView::Type(u), _) => u == t,
        (
            KindView::Array { element, elements_nullable },
            TypeView::Array { element_type, elements_nullable: n },
        ) => elements_nullable == n && faithful(*element, *element_type),
        (KindView::Record { fields }, TypeView::Struct { fields: types }) => all_faithful(
            fields,
            types,
        ),
        (
            KindView::Mapping { key, value, values_nullable },
            TypeView::Mapping { key_type, value_type, values_nullable: n },
        ) => values_nullable == n && faithful(*key, *key_type) && faithful(*value, *value_type),
        _ => false,
    }
}

pub open spec fn all_faithful(fields: Seq<ShapeFieldView>, types: Seq<StructFieldView>) -> bool
    decreases fields,
{
    if fields.len() == 0 {
        types.len() == 0
    } else {
        &&& types.len() == fields.len()
        &&& types.last().name == fields.last().name
        &&& types.last().nullable == fields.last().nullable
        &&& faithful(fields.last().shape, types.last().value_type)
        &&& all_faithful(fields.drop_last(), types.drop_last())
    }
}

/// A shape without choices, tuples and absences loses nothing as a value type;
/// and only such a shape is taken for one that loses nothing.
pub proof fn law_flat_shapes_lose_nothing(s: ShapeView)
    ensures
        shape::flat(s) ==> faithful(s, shape::flattened(s)),
        s.kind is Variant || s.kind is Tuple || s.kind is Absent ==> !shape::flat(s),
    decreases s,
{
    match s.kind {
        KindView::Array { element, .. } => {
            law_flat_shapes_lose_nothing(*element);
        },
        KindView::Record { fields } => {
            lemma_flat_fields(fields);
        },
        KindView::Mapping { key, value, .. } => {
            law_flat_shapes_lose_nothing(*key);
            law_flat_shapes_lose_nothing(*value);
        },
        _ => {},
    }
}

proof fn lemma_flat_fields(fields: Seq<ShapeFieldView>)
    ensures
        shape::flat_fields(fields) ==> all_faithful(fields, shape::flattened_fields(fields)),
        shape::flattened_fields(fields).len() == fields.len(),
    decreases fields,
{
    if fields.len() > 0 {
        lemma_flat_fields(fields.drop_last());
        assert(decreases_to!(fields => fields[fields.len() - 1]));
        law_flat_shapes_lose_nothing(fields.last().shape);
        assert(shape::flattened_fields(fields).drop_last() =~= shape::flattened_fields(
            fields.drop_last(),
        ));
    }
}

/// More than an absence or a null.
pub open spec fn says_something(s: ShapeView) -> bool {
    !(s.kind is Absent) && s.kind != KindView::Type(TypeView::Null)
}

/// The arm that stands for a choice: none that says something was seen more
/// often, and no later one as often.
pub open spec fn dominant(arms: Seq<ShapeView>, m: int) -> bool {
    &&& 0 <= m < arms.len()
    &&& says_something(arms[m])
    &&& forall|j: int|
        0 <= j < arms.len() && says_something(#[trigger] arms[j])
            ==> arms[j].stats.observation_count <= arms[m].stats.observation_count
    &&& forall|j: int|
        m < j < arms.len() && says_something(#[trigger] arms[j])
            ==> arms[j].stats.observation_count < arms[m].stats.observation_count
}

proof fn lemma_best(arms: Seq<ShapeView>, n: int)
    requires
        0 <= n <= arms.len(),
    ensures
        match shape::best_arm(arms, n) {
            Some(m) => dominant(arms.take(n), m),
            None => forall|j: int| 0 <= j < n ==> !says_something(#[trigger] arms[j]),
        },
    decreases n,
{
    if n > 0 {
        lemma_best(arms, n - 1);
        let front = arms.take(n - 1);
        let all = arms.take(n);
        assert(forall|j: int| 0 <= j < n - 1 ==> #[trigger] front[j] == arms[j]);
        assert(forall|j: int| 0 <= j < n ==> #[trigger] all[j] == arms[j]);
        assert(shape::telling(arms[n - 1]) == says_something(arms[n - 1]));
        if let Some(m) = shape::best_arm(arms, n) {
            assert forall|j: int| 0 <= j < all.len() && says_something(#[trigger] all[j]) implies {
                &&& all[j].stats.observation_count <= all[m].stats.observation_count
                &&& j > m ==> all[j].stats.observation_count < all[m].stats.observation_count
            } by {
                if j < n - 1 {
                    assert(front[j] == arms[j]);
                }
            }
        }
    }
}

/// A choice becomes the value type of the arm that was seen most often, and of
/// equals the last, where absences and nulls do not count; if there is nothing
/// else, it becomes null. A tuple becomes an array of what its first position
/// is.
pub proof fn law_the_dominant_arm_stands_for_the_choice(s: ShapeView, arms: Seq<ShapeView>, m: int)
    ensures
        s.kind == (KindView::Variant { arms }) && dominant(arms, m) ==> shape::flattened(s)
            == shape::flattened(arms[m]),
        s.kind == (KindView::Variant { arms }) && (forall|j: int|
            0 <= j < arms.len() ==> !says_something(#[trigger] arms[j])) ==> shape::flattened(s)
            == TypeView::Null,
        s.kind == (KindView::Tuple { positions: arms }) && arms.len() > 0 ==> shape::flattened(s)
            == (TypeView::Array {
            element_type: Box::new(shape::flattened(arms[0])),
            elements_nullable: false,
        }),
        s.kind is Absent ==> shape::flattened(s) == TypeView::Null,
{
    lemma_best(arms, arms.len() as int);
    assert(arms.take(arms.len() as int) =~= arms);
    if let Some(k) = shape::best_arm(arms, arms.len() as int) {
        assert(dominant(arms, k));
        if dominant(arms, m) && k != m {
            assert(says_something(arms[k]) && says_something(arms[m]));
        }
    }
}

} // verus!
