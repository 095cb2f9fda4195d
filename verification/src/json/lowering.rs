//! Documents as typed values.
use crate::analyze::order;
use crate::analyze::order::Order;
use crate::double::Double;
use crate::json;
use crate::json::entries;
use crate::json::entries::EntryKey;
use crate::json::{Json, JsonView, Number};
use vstd::prelude::*;

verus! {

#[derive(Debug, PartialEq, Eq)]
pub enum MapKey {
    String(String),
}

/// A typed value. The entries of a map ascend by key.
#[derive(Debug, PartialEq, Eq)]
pub enum Value {
    Null,
    Bool(bool),
    I64(i64),
    U64(u64),
    F64(Double),
    String(String),
    Array(Vec<Value>),
    Mapping(Vec<(MapKey, Value)>),
}

pub enum ValueView {
    Null,
    Bool(bool),
    I64(i64),
    U64(u64),
    F64(Double),
    String(Seq<char>),
    Array(Seq<ValueView>),
    Mapping(Seq<(Seq<char>, ValueView)>),
}

impl EntryKey for MapKey {
    open spec fn name(&self) -> Seq<char> {
        match *self {
            MapKey::String(s) => s@,
        }
    }

    fn text(&self) -> (r: &String) {
        match self {
            MapKey::String(s) => s,
        }
    }
}

pub open spec fn value_view(v: Value) -> ValueView
    decreases v,
{
    match v {
        Value::Null => ValueView::Null,
        Value::Bool(b) => ValueView::Bool(b),
        Value::I64(n) => ValueView::I64(n),
        Value::U64(n) => ValueView::U64(n),
        Value::F64(d) => ValueView::F64(d),
        Value::String(s) => ValueView::String(s@),
        Value::Array(items) => ValueView::Array(values_view(items@)),
        Value::Mapping(m) => ValueView::Mapping(pairs_view(m@)),
    }
}

pub open spec fn values_view(v: Seq<Value>) -> Seq<ValueView>
    decreases v,
{
    if v.len() == 0 {
        Seq::empty()
    } else {
        values_view(v.drop_last()).push(value_view(v.last()))
    }
}

pub open spec fn pairs_view(v: Seq<(MapKey, Value)>) -> Seq<(Seq<char>, ValueView)>
    decreases v,
{
    if v.len() == 0 {
        Seq::empty()
    } else {
        pairs_view(v.drop_last()).push((v.last().0.name(), value_view(v.last().1)))
    }
}

impl View for Value {
    type V = ValueView;

    open spec fn view(&self) -> ValueView {
        value_view(*self)
    }
}

proof fn lemma_pairs_view(v: Seq<(MapKey, Value)>)
    ensures
        pairs_view(v) == entries::listed(v),
    decreases v.len(),
{
    if v.len() > 0 {
        lemma_pairs_view(v.drop_last());
        let front = v.drop_last();
        assert(entries::listed(v) =~= entries::listed(front).push(
            (v.last().0.name(), v.last().1@),
        ));
    } else {
        assert(pairs_view(v) =~= entries::listed(v));
    }
}

impl Value {
    /// A value with the same content.
    pub fn copied(&self) -> (r: Value)
        ensures
            r@ == self@,
        decreases self,
    {
        match self {
            Value::Null => Value::Null,
            Value::Bool(b) => Value::Bool(*b),
            Value::I64(n) => Value::I64(*n),
            Value::U64(n) => Value::U64(*n),
            Value::F64(d) => Value::F64(*d),
            Value::String(s) => Value::String(s.clone()),
            Value::Array(items) => {
                let mut out: Vec<Value> = Vec::new();
                let mut i: usize = 0;
                while i < items.len()
                    invariant
                        i <= items@.len(),
                        *self == Value::Array(*items),
                        values_view(out@) == values_view(items@.take(i as int)),
                    decreases items@.len() - i,
                {
                    assert(decreases_to!(*self => self->Array_0));
                    assert(decreases_to!(self->Array_0 => items@[i as int]));
                    let ghost before = out@;
                    out.push(items[i].copied());
                    assert(out@.drop_last() =~= before);
                    i += 1;
                    assert(items@.take(i as int).drop_last() =~= items@.take(i - 1));
                }
                assert(items@.take(i as int) =~= items@);
                Value::Array(out)
            },
            Value::Mapping(pairs) => {
                let mut out: Vec<(MapKey, Value)> = Vec::new();
                let mut i: usize = 0;
                while i < pairs.len()
                    invariant
                        i <= pairs@.len(),
                        *self == Value::Mapping(*pairs),
                        pairs_view(out@) == pairs_view(pairs@.take(i as int)),
                    decreases pairs@.len() - i,
                {
                    assert(decreases_to!(*self => self->Mapping_0));
                    assert(decreases_to!(self->Mapping_0 => pairs@[i as int].1));
                    let ghost before = out@;
                    let key = MapKey::String(pairs[i].0.text().clone());
                    assert(key.name() == pairs@[i as int].0.name());
                    out.push((key, pairs[i].1.copied()));
                    assert(out@.drop_last() =~= before);
                    i += 1;
                    assert(pairs@.take(i as int).drop_last() =~= pairs@.take(i - 1));
                }
                assert(pairs@.take(i as int) =~= pairs@);
                Value::Mapping(out)
            },
        }
    }
}

impl Clone for Value {
    fn clone(&self) -> (r: Value)
        ensures
            r@ == self@,
    {
        self.copied()
    }
}

/// The value of a number: signed where it fits, unsigned where that fits.
pub open spec fn number_value(n: Number) -> ValueView {
    match n.signed() {
        Some(i) => ValueView::I64(i),
        None => match n.unsigned() {
            Some(u) => ValueView::U64(u),
            None => ValueView::F64(n.nearest()),
        },
    }
}

pub open spec fn lowered(v: JsonView) -> ValueView
    decreases v,
{
    match v {
        JsonView::Null => ValueView::Null,
        JsonView::Bool(b) => ValueView::Bool(b),
        JsonView::Number(n) => number_value(n),
        JsonView::Text(s) => ValueView::String(s),
        JsonView::Array(items) => ValueView::Array(lowered_items(items)),
        JsonView::Object(members) => ValueView::Mapping(lowered_members(members)),
    }
}

pub open spec fn lowered_items(v: Seq<JsonView>) -> Seq<ValueView>
    decreases v,
{
    if v.len() == 0 {
        Seq::empty()
    } else {
        lowered_items(v.drop_last()).push(lowered(v.last()))
    }
}

pub open spec fn lowered_members(v: Seq<(Seq<char>, JsonView)>) -> Seq<(Seq<char>, ValueView)>
    decreases v,
{
    if v.len() == 0 {
        Seq::empty()
    } else {
        entries::put(lowered_members(v.drop_last()), v.last().0, lowered(v.last().1))
    }
}

fn lower_number(n: &Number) -> (r: Value)
    ensures
        r@ == number_value(*n),
{
    if let Some(i) = n.as_i64() {
        Value::I64(i)
    } else if let Some(u) = n.as_u64() {
        Value::U64(u)
    } else {
        Value::F64(n.as_double())
    }
}

/// Materializes a document as a typed value.
pub fn lower(j: &Json) -> (r: Value)
    ensures
        r@ == lowered(j@),
    decreases j,
{
    match j {
        Json::Null => Value::Null,
        Json::Bool(b) => Value::Bool(*b),
        Json::Number(n) => lower_number(n),
        Json::Text(s) => Value::String(s.clone()),
        Json::Array(items) => {
            let mut out: Vec<Value> = Vec::new();
            let mut i: usize = 0;
            while i < items.len()
                invariant
                    i <= items@.len(),
                    *j == Json::Array(*items),
                    values_view(out@) == lowered_items(json::items_view(items@.take(i as int))),
                decreases items@.len() - i,
            {
                assert(decreases_to!(*j => j->Array_0));
                assert(decreases_to!(j->Array_0 => items@[i as int]));
                let ghost before = out@;
                out.push(lower(&items[i]));
                i += 1;
                proof {
                    assert(out@.drop_last() =~= before);
                    let upto = items@.take(i as int);
                    assert(upto.drop_last() =~= items@.take(i - 1));
                    let v = json::items_view(upto);
                    assert(v.drop_last() =~= json::items_view(upto.drop_last()));
                }
            }
            assert(items@.take(i as int) =~= items@);
            Value::Array(out)
        },
        Json::Object(members) => {
            let mut out: Vec<(MapKey, Value)> = Vec::new();
            let mut i: usize = 0;
            while i < members.len()
                invariant
                    i <= members@.len(),
                    *j == Json::Object(*members),
                    pairs_view(out@) == lowered_members(
                        json::members_view(members@.take(i as int)),
                    ),
                decreases members@.len() - i,
            {
                assert(decreases_to!(*j => j->Object_0));
                assert(decreases_to!(j->Object_0 => members@[i as int].1));
                let ghost before = out@;
                let value = lower(&members[i].1);
                let ghost v = value@;
                let key = MapKey::String(members[i].0.clone());
                assert(key.name() == members@[i as int].0@);
                entries::put_entry(&mut out, key, value);
                i += 1;
                proof {
                    lemma_pairs_view(before);
                    lemma_pairs_view(out@);
                    let upto = members@.take(i as int);
                    assert(upto.drop_last() =~= members@.take(i - 1));
                    let w = json::members_view(upto);
                    assert(w.drop_last() =~= json::members_view(upto.drop_last()));
                    assert(w.last() == (members@[i - 1].0@, json::json_view(members@[i - 1].1)));
                    assert(v == lowered(json::json_view(members@[i - 1].1)));
                }
            }
            assert(members@.take(i as int) =~= members@);
            Value::Mapping(out)
        },
    }
}

/// The members of an object whose names ascend are lowered one for one, in
/// their order.
pub proof fn law_objects_keep_their_members(v: Seq<(Seq<char>, JsonView)>)
    requires
        entries::ascending(v),
    ensures
        lowered_members(v).len() == v.len(),
        forall|i: int|
            0 <= i < v.len() ==> #[trigger] lowered_members(v)[i] == (v[i].0, lowered(v[i].1)),
    decreases v.len(),
{
    if v.len() > 0 {
        let front = v.drop_last();
        let n = front.len() as int;
        assert forall|i: int, j: int| 0 <= i < j < front.len() implies order::chars_order(
            (#[trigger] front[i]).0,
            (#[trigger] front[j]).0,
        ) == Order::Less by {
            assert(front[i] == v[i] && front[j] == v[j]);
        }
        law_objects_keep_their_members(front);
        let s = lowered_members(front);
        assert forall|i: int| 0 <= i < n implies order::chars_order(
            (#[trigger] s[i]).0,
            v.last().0,
        ) == Order::Less by {
            assert(s[i] == (front[i].0, lowered(front[i].1)));
            assert(front[i] == v[i]);
            assert(v[n] == v.last());
        }
        entries::lemma_place_is(s, v.last().0, n);
        assert forall|i: int| 0 <= i < v.len() implies #[trigger] lowered_members(v)[i] == (
            v[i].0,
            lowered(v[i].1),
        ) by {
            if i < n {
                assert(s[i] == (front[i].0, lowered(front[i].1)));
            }
        }
    }
}

/// A whole number that a signed 64-bit number holds is lowered to that number,
/// a greater one to an unsigned number, and a double to itself. What is no
/// container is lowered to what it holds.
pub proof fn law_scalars_keep_their_value(b: bool, s: Seq<char>, positive: u64, negative: i64, d: Double)
    ensures
        lowered(JsonView::Null) == ValueView::Null,
        lowered(JsonView::Bool(b)) == ValueView::Bool(b),
        lowered(JsonView::Text(s)) == ValueView::String(s),
        lowered(JsonView::Number(Number::Positive(positive))) == (if positive
            <= 0x7fff_ffff_ffff_ffff {
            ValueView::I64(positive as i64)
        } else {
            ValueView::U64(positive)
        }),
        lowered(JsonView::Number(Number::Negative(negative))) == ValueView::I64(negative),
        lowered(JsonView::Number(Number::Float(d))) == ValueView::F64(d),
{
}

/// The items of an array are lowered one for one, in their order.
pub proof fn law_arrays_keep_their_items(items: Seq<JsonView>, i: int)
    requires
        0 <= i < items.len(),
    ensures
        lowered(JsonView::Array(items)) == ValueView::Array(lowered_items(items)),
        lowered_items(items).len() == items.len(),
        lowered_items(items)[i] == lowered(items[i]),
    decreases items.len(),
{
    let front = items.drop_last();
    if front.len() == 0 {
        assert(lowered_items(front).len() == 0);
    } else {
        if i < front.len() {
            law_arrays_keep_their_items(front, i);
            assert(front[i] == items[i]);
        } else {
            law_arrays_keep_their_items(front, 0);
        }
    }
}

} // verus!
