//! Drawing a document from a template.
use crate::analyze::order;
use crate::double;
use crate::double::Double;
use crate::json;
use crate::json::entries;
use crate::json::{Json, JsonView, Number};
use crate::synth::draft;
use crate::synth::draft::{Draft, DraftView};
use crate::synth::random::{Dice, Rolls};
use crate::synth::shape;
use crate::synth::shape::{
    ArrayKind, FieldSpec, FieldView, ObjectSpec, Shape, StringFormat, TemplateView,
};
use crate::synth::words;
use vstd::prelude::*;

verus! {

/// An optional field is there where the top 53 bits of a random word are
/// below this: seven times in ten.
pub const PRESENT_BELOW: u64 = 6_305_039_478_318_694;

// ---------------------------------------------------------------------
// The model
// ---------------------------------------------------------------------

/// A number from minus a thousand up to a thousand, which is left out.
pub open spec fn spread(d: Double) -> bool {
    (Double { bits: 0xc08f_4000_0000_0000 }).le(d) && d.lt(Double { bits: 0x408f_4000_0000_0000 })
}

pub open spec fn all_spread(doubles: Seq<Double>) -> bool {
    forall|i: int| 0 <= i < doubles.len() ==> spread(#[trigger] doubles[i])
}

/// A document that the template describes.
pub open spec fn conforms(j: JsonView, t: TemplateView) -> bool
    decreases t,
{
    match t {
        TemplateView::Null => j == JsonView::Null,
        TemplateView::Bool => j is Bool,
        TemplateView::Int => exists|n: i64|
            -10_000 <= n <= 10_000 && j == JsonView::Number(#[trigger] Number::of_signed(n)),
        TemplateView::Float => j matches JsonView::Number(Number::Float(d)) && spread(d),
        TemplateView::Text(format) => j matches JsonView::Text(s) && words::formatted(format, s),
        TemplateView::Enum(values) => values.contains(j),
        TemplateView::Const(value) => j == value,
        TemplateView::Variant(arms) => exists|i: int|
            0 <= i < arms.len() && conforms(j, #[trigger] arms[i]),
        TemplateView::Uniform { element, min_len, max_len } => {
            &&& j matches JsonView::Array(items)
            &&& min_len <= items.len() <= max_len
            &&& forall|i: int| 0 <= i < items.len() ==> conforms(#[trigger] items[i], *element)
        },
        TemplateView::Tuple { positions, min_len, max_len } => {
            &&& j matches JsonView::Array(items)
            &&& shape::least(min_len, positions.len()) <= items.len() <= shape::least(
                max_len,
                positions.len(),
            )
            &&& forall|i: int|
                0 <= i < items.len() && i < positions.len() ==> conforms(
                    #[trigger] items[i],
                    positions[i],
                )
        },
        TemplateView::Record { fields } => {
            &&& j matches JsonView::Object(members)
            &&& entries::ascending(members)
            &&& forall|k: int|
                0 <= k < members.len() ==> is_field_of(#[trigger] members[k], fields)
            &&& forall|f: int|
                0 <= f < fields.len() && (#[trigger] fields[f]).required ==> named(
                    members,
                    fields[f].name,
                )
        },
        TemplateView::Mapping { key_format, value, min_size, max_size } => {
            &&& j matches JsonView::Object(members)
            &&& entries::ascending(members)
            &&& members.len() <= max_size
            &&& min_size > 0 ==> members.len() > 0
            &&& forall|k: int|
                0 <= k < members.len() ==> words::formatted(key_format, (#[trigger] members[k]).0)
                    && conforms(members[k].1, *value)
        },
    }
}

/// A member that one of the fields describes.
pub open spec fn is_field_of(m: (Seq<char>, JsonView), fields: Seq<FieldView>) -> bool
    decreases fields,
{
    exists|f: int|
        0 <= f < fields.len() && (#[trigger] fields[f]).name == m.0 && conforms(
            m.1,
            fields[f].shape,
        )
}

pub open spec fn named<T>(members: Seq<(Seq<char>, T)>, name: Seq<char>) -> bool {
    exists|k: int| 0 <= k < members.len() && (#[trigger] members[k]).0 == name
}

/// A draft that the template describes, whichever doubles in the range of a
/// drawn number complete it.
pub open spec fn drafted(d: DraftView, t: TemplateView) -> bool {
    forall|doubles: Seq<Double>, at: int|
        all_spread(doubles) ==> conforms(#[trigger] draft::completed(d, doubles, at), t)
}

/// Whether an optional field is there, by the word that was drawn for it.
pub open spec fn shown(w: u64) -> bool {
    w / 2048 < PRESENT_BELOW
}

pub fn is_shown(w: u64) -> (b: bool)
    ensures
        b == shown(w),
{
    w / 2048 < PRESENT_BELOW
}

/// The document that is drawn from a template, and where it leaves the
/// generator.
pub open spec fn drawn(t: TemplateView, r: Rolls) -> (DraftView, Rolls)
    decreases t, 0nat,
{
    match t {
        TemplateView::Null => (DraftView::Value(JsonView::Null), r),
        TemplateView::Bool => {
            let (b, r) = r.flip();
            (DraftView::Value(JsonView::Bool(b)), r)
        },
        TemplateView::Int => {
            let (n, r) = r.i64((-10_000) as i64, 10_000);
            (DraftView::Value(JsonView::Number(Number::of_signed(n))), r)
        },
        TemplateView::Float => {
            let (w, r) = r.word();
            (DraftView::Float(w), r)
        },
        TemplateView::Text(format) => {
            let (s, r) = words::text_drawn(format, r);
            (DraftView::Value(JsonView::Text(s)), r)
        },
        TemplateView::Enum(values) => {
            let (i, r) = r.u64(0, (values.len() - 1) as u64);
            (DraftView::Value(values[i as int]), r)
        },
        TemplateView::Const(value) => (DraftView::Value(value), r),
        TemplateView::Variant(arms) => {
            let (i, r) = r.u64(0, (arms.len() - 1) as u64);
            if i < arms.len() {
                drawn(arms[i as int], r)
            } else {
                (DraftView::Value(JsonView::Null), r)
            }
        },
        TemplateView::Uniform { element, min_len, max_len } => {
            let (n, r) = r.u32(min_len, max_len);
            let (items, r) = copies_drawn(*element, n as nat, r);
            (DraftView::Array(items), r)
        },
        TemplateView::Tuple { positions, min_len, max_len } => {
            let least = shape::least(min_len, positions.len());
            let most = shape::least(max_len, positions.len());
            let (n, r) = if least == most {
                (least as u64, r)
            } else {
                r.u64(least as u64, most as u64)
            };
            let (items, r) = each_drawn(positions, n as nat, r);
            (DraftView::Array(items), r)
        },
        TemplateView::Record { fields } => {
            let (members, r) = fields_drawn(fields, fields.len(), r);
            (DraftView::Object(members), r)
        },
        TemplateView::Mapping { key_format, value, min_size, max_size } => {
            let (n, r) = r.u32(min_size, max_size);
            let (members, r) = mapping_drawn(key_format, *value, n as nat, r);
            (DraftView::Object(members), r)
        },
    }
}

/// Documents of one template, one after the other.
pub open spec fn copies_drawn(t: TemplateView, n: nat, r: Rolls) -> (Seq<DraftView>, Rolls)
    decreases t, n + 1,
{
    if n == 0 {
        (Seq::empty(), r)
    } else {
        let (front, r) = copies_drawn(t, (n - 1) as nat, r);
        let (d, r) = drawn(t, r);
        (front.push(d), r)
    }
}

/// A document of each of the first `n` templates.
pub open spec fn each_drawn(v: Seq<TemplateView>, n: nat, r: Rolls) -> (Seq<DraftView>, Rolls)
    decreases v, n + 1,
{
    if n == 0 || n > v.len() {
        (Seq::empty(), r)
    } else {
        let (front, r) = each_drawn(v, (n - 1) as nat, r);
        let (d, r) = drawn(v[n - 1], r);
        (front.push(d), r)
    }
}

/// The members of the first `n` fields. For one that is not required it is
/// drawn first whether it is there.
pub open spec fn fields_drawn(v: Seq<FieldView>, n: nat, r: Rolls) -> (
    Seq<(Seq<char>, DraftView)>,
    Rolls,
)
    decreases v, n + 1,
{
    if n == 0 || n > v.len() {
        (Seq::empty(), r)
    } else {
        let (front, r) = fields_drawn(v, (n - 1) as nat, r);
        let f = v[n - 1];
        let (present, r) = if f.required {
            (true, r)
        } else {
            let (w, r) = r.word();
            (shown(w), r)
        };
        if present {
            let (d, r) = drawn(f.shape, r);
            (entries::put(front, f.name, d), r)
        } else {
            (front, r)
        }
    }
}

/// Members with drawn names, put in one after the other.
pub open spec fn mapping_drawn(
    key_format: Option<StringFormat>,
    value: TemplateView,
    n: nat,
    r: Rolls,
) -> (Seq<(Seq<char>, DraftView)>, Rolls)
    decreases value, n + 1,
{
    if n == 0 {
        (Seq::empty(), r)
    } else {
        let (front, r) = mapping_drawn(key_format, value, (n - 1) as nat, r);
        let (key, r) = words::text_drawn(key_format, r);
        let (d, r) = drawn(value, r);
        (entries::put(front, key, d), r)
    }
}

// ---------------------------------------------------------------------
// Parts of the proof
// ---------------------------------------------------------------------

proof fn lemma_array_drafted(items: Seq<DraftView>, t: TemplateView)
    requires
        match t {
            TemplateView::Uniform { element, min_len, max_len } => min_len <= items.len()
                <= max_len && forall|i: int|
                0 <= i < items.len() ==> drafted(#[trigger] items[i], *element),
            TemplateView::Tuple { positions, min_len, max_len } => shape::least(
                min_len,
                positions.len(),
            ) <= items.len() <= shape::least(max_len, positions.len()) && forall|i: int|
                0 <= i < items.len() ==> drafted(#[trigger] items[i], positions[i]),
            _ => false,
        },
    ensures
        drafted(DraftView::Array(items), t),
{
    assert forall|doubles: Seq<Double>, at: int| all_spread(doubles) implies conforms(
        #[trigger] draft::completed(DraftView::Array(items), doubles, at),
        t,
    ) by {
        draft::lemma_all_completed(items, doubles, at);
        let out = draft::all_completed(items, doubles, at);
        match t {
            TemplateView::Uniform { element, .. } => {
                assert forall|i: int| 0 <= i < out.len() implies conforms(
                    #[trigger] out[i],
                    *element,
                ) by {
                    assert(drafted(items[i], *element));
                }
            },
            TemplateView::Tuple { positions, .. } => {
                assert forall|i: int| 0 <= i < out.len() && i < positions.len() implies conforms(
                    #[trigger] out[i],
                    positions[i],
                ) by {
                    assert(drafted(items[i], positions[i]));
                }
            },
            _ => {},
        }
    }
}

proof fn lemma_completed_members(
    members: Seq<(Seq<char>, DraftView)>,
    doubles: Seq<Double>,
    at: int,
)
    requires
        entries::ascending(members),
    ensures
        ({
            let out = draft::members_completed(members, doubles, at);
            &&& out.len() == members.len()
            &&& entries::ascending(out)
            &&& forall|k: int| 0 <= k < out.len() ==> (#[trigger] out[k]).0 == members[k].0
        }),
{
    draft::lemma_members_completed(members, doubles, at);
    let out = draft::members_completed(members, doubles, at);
    assert forall|i: int, j: int| 0 <= i < j < out.len() implies order::chars_order(
        (#[trigger] out[i]).0,
        (#[trigger] out[j]).0,
    ) == order::Order::Less by {
        assert(out[i].0 == members[i].0 && out[j].0 == members[j].0);
    }
}

/// A member that one of the fields describes, whichever doubles complete it.
spec fn drafted_field(m: (Seq<char>, DraftView), fields: Seq<FieldView>) -> bool {
    exists|f: int|
        0 <= f < fields.len() && (#[trigger] fields[f]).name == m.0 && drafted(
            m.1,
            fields[f].shape,
        )
}

proof fn lemma_record_drafted(members: Seq<(Seq<char>, DraftView)>, fields: Seq<FieldView>)
    requires
        entries::ascending(members),
        forall|k: int| 0 <= k < members.len() ==> drafted_field(#[trigger] members[k], fields),
        forall|f: int|
            0 <= f < fields.len() && (#[trigger] fields[f]).required ==> named(
                members,
                fields[f].name,
            ),
    ensures
        drafted(DraftView::Object(members), TemplateView::Record { fields }),
{
    let t = TemplateView::Record { fields };
    assert forall|doubles: Seq<Double>, at: int| all_spread(doubles) implies conforms(
        #[trigger] draft::completed(DraftView::Object(members), doubles, at),
        t,
    ) by {
        draft::lemma_members_completed(members, doubles, at);
        lemma_completed_members(members, doubles, at);
        let out = draft::members_completed(members, doubles, at);
        assert forall|k: int| 0 <= k < out.len() implies is_field_of(#[trigger] out[k], fields) by {
            assert(drafted_field(members[k], fields));
            let f = choose|f: int|
                0 <= f < fields.len() && (#[trigger] fields[f]).name == members[k].0 && drafted(
                    members[k].1,
                    fields[f].shape,
                );
            assert(fields[f].name == out[k].0 && conforms(out[k].1, fields[f].shape));
        }
        assert forall|f: int| 0 <= f < fields.len() && (#[trigger] fields[f]).required implies named(
            out,
            fields[f].name,
        ) by {
            let k = choose|k: int|
                0 <= k < members.len() && (#[trigger] members[k]).0 == fields[f].name;
            assert(out[k].0 == fields[f].name);
        }
    }
}

proof fn lemma_mapping_drafted(members: Seq<(Seq<char>, DraftView)>, t: TemplateView)
    requires
        t matches TemplateView::Mapping { key_format, value, min_size, max_size }
            && members.len() <= max_size && (min_size > 0 ==> members.len() > 0) && forall|k: int|
            0 <= k < members.len() ==> words::formatted(key_format, (#[trigger] members[k]).0)
                && drafted(members[k].1, *value),
        entries::ascending(members),
    ensures
        drafted(DraftView::Object(members), t),
{
    if let TemplateView::Mapping { key_format, value, .. } = t {
        assert forall|doubles: Seq<Double>, at: int| all_spread(doubles) implies conforms(
            #[trigger] draft::completed(DraftView::Object(members), doubles, at),
            t,
        ) by {
            draft::lemma_members_completed(members, doubles, at);
            lemma_completed_members(members, doubles, at);
            let out = draft::members_completed(members, doubles, at);
            assert forall|k: int| 0 <= k < out.len() implies words::formatted(
                key_format,
                (#[trigger] out[k]).0,
            ) && conforms(out[k].1, *value) by {
                assert(words::formatted(key_format, members[k].0));
                assert(drafted(members[k].1, *value));
            }
        }
    }
}

// ---------------------------------------------------------------------
// Drawing
// ---------------------------------------------------------------------

fn instantiate_some(shapes: &Vec<Shape>, n: usize, rng: &mut Dice) -> (r: Vec<Draft>)
    requires
        n <= shapes@.len(),
        shape::all_drawable(shape::templates_view(shapes@)),
    ensures
        r@.len() == n,
        (draft::drafts_view(r@), final(rng)@) == each_drawn(
            shape::templates_view(shapes@),
            n as nat,
            old(rng)@,
        ),
        forall|i: int|
            0 <= i < n ==> drafted(
                #[trigger] draft::drafts_view(r@)[i],
                shape::templates_view(shapes@)[i],
            ),
    decreases shapes,
{
    proof {
        shape::lemma_templates_view(shapes@);
        shape::lemma_all_drawable(shape::templates_view(shapes@));
    }
    let ghost all = shape::templates_view(shapes@);
    let ghost start = rng@;
    let mut out: Vec<Draft> = Vec::new();
    let mut i: usize = 0;
    while i < n
        invariant
            i <= n <= shapes@.len() == all.len(),
            out@.len() == i,
            (draft::drafts_view(out@), rng@) == each_drawn(all, i as nat, start),
            all == shape::templates_view(shapes@),
            forall|k: int|
                0 <= k < all.len() ==> #[trigger] all[k] == shape::template_view(shapes@[k]),
            forall|k: int| 0 <= k < all.len() ==> shape::drawable(#[trigger] all[k]),
            forall|k: int| 0 <= k < i ==> drafted(#[trigger] draft::drafts_view(out@)[k], all[k]),
        decreases n - i,
    {
        let ghost before = out@;
        assert(decreases_to!(*shapes => shapes@[i as int]));
        assert(all[i as int] == shapes@[i as int]@);
        out.push(instantiate(&shapes[i], rng));
        proof {
            assert(out@.drop_last() =~= before);
            draft::lemma_drafts_view(before);
        }
        i += 1;
    }
    out
}

fn instantiate_record(fields: &Vec<FieldSpec>, rng: &mut Dice) -> (r: Vec<(String, Draft)>)
    requires
        shape::fields_drawable(shape::template_fields_view(fields@)),
    ensures
        (draft::draft_members_view(r@), final(rng)@) == fields_drawn(
            shape::template_fields_view(fields@),
            fields@.len(),
            old(rng)@,
        ),
        drafted(
            DraftView::Object(draft::draft_members_view(r@)),
            TemplateView::Record { fields: shape::template_fields_view(fields@) },
        ),
    decreases fields,
{
    let ghost all = shape::template_fields_view(fields@);
    proof {
        shape::lemma_template_fields_view(fields@);
        shape::lemma_fields_drawable(all);
    }
    let ghost start = rng@;
    let mut out: Vec<(String, Draft)> = Vec::new();
    let mut i: usize = 0;
    assert(entries::listed(out@) =~= Seq::empty());
    while i < fields.len()
        invariant
            i <= fields@.len() == all.len(),
            (entries::listed(out@), rng@) == fields_drawn(all, i as nat, start),
            all == shape::template_fields_view(fields@),
            forall|k: int|
                0 <= k < all.len() ==> #[trigger] all[k] == (FieldView {
                    name: fields@[k].name@,
                    shape: shape::template_view(fields@[k].shape),
                    required: fields@[k].required,
                }),
            forall|k: int| 0 <= k < all.len() ==> shape::drawable((#[trigger] all[k]).shape),
            entries::ascending(entries::listed(out@)),
            forall|k: int|
                0 <= k < out@.len() ==> drafted_field(#[trigger] entries::listed(out@)[k], all),
            forall|f: int|
                0 <= f < i && (#[trigger] all[f]).required ==> named(
                    entries::listed(out@),
                    all[f].name,
                ),
        decreases fields@.len() - i,
    {
        assert(decreases_to!(*fields => fields@[i as int]));
        assert(decreases_to!(fields@[i as int] => fields@[i as int].shape));
        assert(all[i as int].shape == fields@[i as int].shape@);
        let present: bool = if fields[i].required {
            true
        } else {
            let w: u64 = rng.word();
            is_shown(w)
        };
        if present {
            let d = instantiate(&fields[i].shape, rng);
            let ghost before = entries::listed(out@);
            let ghost entry = (fields@[i as int].name@, d@);
            entries::put_entry(&mut out, fields[i].name.clone(), d);
            proof {
                let after = entries::listed(out@);
                entries::law_entries_stay_ascending(before, entry.0, entry.1);
                entries::lemma_put_adds_one(before, entry.0, entry.1);
                assert(drafted_field(entry, all)) by {
                    assert(all[i as int].name == entry.0);
                }
                assert forall|k: int| 0 <= k < after.len() implies drafted_field(
                    #[trigger] after[k],
                    all,
                ) by {
                    if after[k] != entry {
                        let j = choose|j: int| 0 <= j < before.len() && before[j] == after[k];
                        assert(drafted_field(before[j], all));
                    }
                }
                assert forall|f: int| 0 <= f < i + 1 && (#[trigger] all[f]).required implies named(
                    after,
                    all[f].name,
                ) by {
                    if f < i && all[f].name != entry.0 {
                        let k = choose|k: int|
                            0 <= k < before.len() && (#[trigger] before[k]).0 == all[f].name;
                        assert(after.contains(before[k]));
                        let m = choose|m: int| 0 <= m < after.len() && after[m] == before[k];
                        assert(after[m].0 == all[f].name);
                    } else {
                        assert(after.contains(entry));
                        let m = choose|m: int| 0 <= m < after.len() && after[m] == entry;
                        assert(after[m].0 == all[f].name);
                    }
                }
            }
        }
        i += 1;
    }
    proof {
        draft::lemma_draft_members_view(out@);
        lemma_record_drafted(entries::listed(out@), all);
    }
    out
}

/// Draws a document from a template. Whichever it is conforms to the template.
pub fn instantiate(shape: &Shape, rng: &mut Dice) -> (r: Draft)
    requires
        shape::drawable(shape@),
    ensures
        (r@, final(rng)@) == drawn(shape@, old(rng)@),
        drafted(r@, shape@),
    decreases shape,
{
    match shape {
        Shape::Null => Draft::Value(Json::Null),
        Shape::Bool => Draft::Value(Json::Bool(rng.flip())),
        Shape::Int => {
            let n: i64 = rng.between_i64(-10_000, 10_000);
            Draft::Value(Json::Number(Number::from_i64(n)))
        },
        Shape::Float => {
            assert(spread(Double { bits: 0 }));
            Draft::Float(rng.word())
        },
        Shape::String(format) => Draft::Value(Json::Text(words::gen_string(*format, rng))),
        Shape::Enum(values) => {
            proof {
                json::lemma_items_view(values@);
            }
            let i: usize = rng.between(0, values.len() - 1);
            assert(json::items_view(values@)[i as int] == values@[i as int]@);
            Draft::Value(values[i].copied())
        },
        Shape::Const(value) => Draft::Value(value.copied()),
        Shape::Variant(arms) => {
            proof {
                shape::lemma_templates_view(arms@);
                shape::lemma_all_drawable(shape::templates_view(arms@));
            }
            let i: usize = rng.between(0, arms.len() - 1);
            let ghost t = shape::templates_view(arms@)[i as int];
            assert(t == arms@[i as int]@);
            assert(decreases_to!(*shape => shape->Variant_0));
            assert(decreases_to!(shape->Variant_0 => arms@[i as int]));
            let d = instantiate(&arms[i], rng);
            assert forall|doubles: Seq<Double>, at: int| all_spread(doubles) implies conforms(
                #[trigger] draft::completed(d@, doubles, at),
                shape@,
            ) by {
                assert(conforms(draft::completed(d@, doubles, at), t));
            }
            d
        },
        Shape::Array(spec) => match &spec.kind {
            ArrayKind::Uniform(element) => {
                let n: u32 = rng.between_u32(spec.min_len, spec.max_len);
                let ghost start = rng@;
                let mut items: Vec<Draft> = Vec::new();
                let mut i: u32 = 0;
                while i < n
                    invariant
                        i <= n,
                        items@.len() == i,
                        (draft::drafts_view(items@), rng@) == copies_drawn(
                            element@,
                            i as nat,
                            start,
                        ),
                        shape::drawable(element@),
                        decreases_to!(*shape => **element),
                        forall|k: int|
                            0 <= k < i ==> drafted(
                                #[trigger] draft::drafts_view(items@)[k],
                                element@,
                            ),
                    decreases n - i,
                {
                    let ghost before = items@;
                    items.push(instantiate(element, rng));
                    proof {
                        assert(items@.drop_last() =~= before);
                        draft::lemma_drafts_view(before);
                    }
                    i += 1;
                }
                proof {
                    draft::lemma_drafts_view(items@);
                    lemma_array_drafted(draft::drafts_view(items@), shape@);
                }
                Draft::Array(items)
            },
            ArrayKind::Tuple(positions) => {
                proof {
                    shape::lemma_templates_view(positions@);
                }
                let max_n: usize = shape::smaller(spec.max_len, positions.len());
                let min_n: usize = shape::smaller(spec.min_len, positions.len());
                let n: usize = if min_n == max_n {
                    min_n
                } else {
                    rng.between(min_n, max_n)
                };
                let items = instantiate_some(positions, n, rng);
                proof {
                    draft::lemma_drafts_view(items@);
                    lemma_array_drafted(draft::drafts_view(items@), shape@);
                }
                Draft::Array(items)
            },
        },
        Shape::Object(spec) => match spec {
            ObjectSpec::Record { fields } => {
                proof {
                    shape::lemma_template_fields_view(fields@);
                }
                Draft::Object(instantiate_record(fields, rng))
            },
            ObjectSpec::Mapping { key_format, value, min_size, max_size } => {
                let n: u32 = rng.between_u32(*min_size, *max_size);
                let ghost start = rng@;
                let mut out: Vec<(String, Draft)> = Vec::new();
                let mut i: u32 = 0;
                assert(entries::listed(out@) =~= Seq::empty());
                while i < n
                    invariant
                        i <= n,
                        (entries::listed(out@), rng@) == mapping_drawn(
                            *key_format,
                            value@,
                            i as nat,
                            start,
                        ),
                        shape::drawable(value@),
                        decreases_to!(*shape => **value),
                        entries::ascending(entries::listed(out@)),
                        out@.len() <= i,
                        i > 0 ==> out@.len() > 0,
                        forall|k: int|
                            0 <= k < out@.len() ==> words::formatted(
                                *key_format,
                                (#[trigger] entries::listed(out@)[k]).0,
                            ) && drafted(entries::listed(out@)[k].1, value@),
                    decreases n - i,
                {
                    let key = words::gen_string(*key_format, rng);
                    let d = instantiate(value, rng);
                    let ghost before = entries::listed(out@);
                    let ghost entry = (key@, d@);
                    entries::put_entry(&mut out, key, d);
                    proof {
                        let after = entries::listed(out@);
                        entries::law_entries_stay_ascending(before, entry.0, entry.1);
                        entries::lemma_put_adds_one(before, entry.0, entry.1);
                        assert forall|k: int| 0 <= k < after.len() implies words::formatted(
                            *key_format,
                            (#[trigger] after[k]).0,
                        ) && drafted(after[k].1, value@) by {
                            if after[k] != entry {
                                let j = choose|j: int|
                                    0 <= j < before.len() && before[j] == after[k];
                                assert(words::formatted(*key_format, before[j].0));
                            }
                        }
                    }
                    i += 1;
                }
                proof {
                    draft::lemma_draft_members_view(out@);
                    lemma_mapping_drafted(entries::listed(out@), shape@);
                }
                Draft::Object(out)
            },
        },
    }
}

/// An optional field is there seven times in ten: for every ten values that
/// the top bits of a word can have, it is there with seven, up to one value.
pub proof fn law_optional_fields_are_there_seven_times_in_ten(w: u64)
    ensures
        shown(w) ==> 10 * (w as int / 2048) < 7 * 0x20_0000_0000_0000,
        10 * (w as int / 2048 + 1) < 7 * 0x20_0000_0000_0000 ==> shown(w),
{
}

/// A drawn number lies between minus a thousand and a thousand, the first of
/// which it can be, and the second of which it cannot.
pub proof fn law_numbers_lie_within_a_thousand(d: Double)
    ensures
        spread(d) ==> d.finite(),
        spread(Double { bits: (0x8000_0000_0000_0000 + double::bits_of_whole(1000)) as u64 }),
        !spread(Double { bits: double::bits_of_whole(1000) as u64 }),
        spread(Double { bits: double::bits_of_whole(999) as u64 }),
        spread(Double { bits: 0 }),
{
    reveal_with_fuel(double::shifted_up, 50);
    assert(double::bits_of_whole(1000) == 0x408f_4000_0000_0000);
    assert(double::bits_of_whole(999) == 0x408f_3800_0000_0000);
}

} // verus!
