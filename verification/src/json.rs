//! JSON feedstock: documents as trees, and what a sink is told of them.
use crate::analyze::stats;
use crate::double::Double;
use vstd::prelude::*;

pub mod arrays;
pub mod entries;
pub mod events;
pub mod inference;
pub mod laws;
pub mod lowering;
pub mod objects;
pub mod optional;
pub mod records;
pub mod tuples;
pub mod select;
pub mod text;

verus! {

/// A number of a document: a whole one of either sign, or a double.
#[derive(Clone, Copy, Debug, PartialEq, Eq, Structural)]
pub enum Number {
    Positive(u64),
    Negative(i64),
    Float(Double),
}

impl Number {
    pub open spec fn signed(self) -> Option<i64> {
        match self {
            Number::Positive(n) => if n <= i64::MAX {
                Some(n as i64)
            } else {
                None
            },
            Number::Negative(n) => Some(n),
            Number::Float(_) => None,
        }
    }

    pub open spec fn unsigned(self) -> Option<u64> {
        match self {
            Number::Positive(n) => Some(n),
            _ => None,
        }
    }

    pub fn as_i64(&self) -> (r: Option<i64>)
        ensures
            r == self.signed(),
    {
        match *self {
            Number::Positive(n) => if n <= i64::MAX as u64 {
                Some(n as i64)
            } else {
                None
            },
            Number::Negative(n) => Some(n),
            Number::Float(_) => None,
        }
    }

    pub fn as_u64(&self) -> (r: Option<u64>)
        ensures
            r == self.unsigned(),
    {
        match *self {
            Number::Positive(n) => Some(n),
            _ => None,
        }
    }

    /// The double that is nearest to the number.
    pub open spec fn nearest(self) -> Double {
        match self {
            Number::Positive(n) => stats::whole(n as int),
            Number::Negative(n) => stats::whole(n as int),
            Number::Float(d) => d,
        }
    }

    pub fn as_double(&self) -> (r: Double)
        ensures
            r == self.nearest(),
    {
        match *self {
            Number::Positive(n) => Double::from_u64(n),
            Number::Negative(n) => Double::from_i64(n),
            Number::Float(d) => d,
        }
    }

    pub open spec fn of_signed(n: i64) -> Number {
        if n >= 0 {
            Number::Positive(n as u64)
        } else {
            Number::Negative(n)
        }
    }

    pub fn from_i64(n: i64) -> (r: Number)
        ensures
            r == Number::of_signed(n),
            r.signed() == Some(n),
    {
        if n >= 0 {
            Number::Positive(n as u64)
        } else {
            Number::Negative(n)
        }
    }
}

/// A document, or a part of one. The members of an object ascend by name.
#[derive(Debug)]
pub enum Json {
    Null,
    Bool(bool),
    Number(Number),
    Text(String),
    Array(Vec<Json>),
    Object(Vec<(String, Json)>),
}

pub enum JsonView {
    Null,
    Bool(bool),
    Number(Number),
    Text(Seq<char>),
    Array(Seq<JsonView>),
    Object(Seq<(Seq<char>, JsonView)>),
}

pub open spec fn json_view(j: Json) -> JsonView
    decreases j,
{
    match j {
        Json::Null => JsonView::Null,
        Json::Bool(b) => JsonView::Bool(b),
        Json::Number(n) => JsonView::Number(n),
        Json::Text(s) => JsonView::Text(s@),
        Json::Array(items) => JsonView::Array(items_view(items@)),
        Json::Object(members) => JsonView::Object(members_view(members@)),
    }
}

pub open spec fn items_view(v: Seq<Json>) -> Seq<JsonView>
    decreases v,
{
    if v.len() == 0 {
        Seq::empty()
    } else {
        items_view(v.drop_last()).push(json_view(v.last()))
    }
}

pub open spec fn members_view(v: Seq<(String, Json)>) -> Seq<(Seq<char>, JsonView)>
    decreases v,
{
    if v.len() == 0 {
        Seq::empty()
    } else {
        members_view(v.drop_last()).push((v.last().0@, json_view(v.last().1)))
    }
}

impl View for Json {
    type V = JsonView;

    open spec fn view(&self) -> JsonView {
        json_view(*self)
    }
}

pub proof fn lemma_items_view(v: Seq<Json>)
    ensures
        items_view(v).len() == v.len(),
        forall|i: int| 0 <= i < v.len() ==> #[trigger] items_view(v)[i] == json_view(v[i]),
    decreases v.len(),
{
    if v.len() > 0 {
        lemma_items_view(v.drop_last());
    }
}

pub proof fn lemma_members_view(v: Seq<(String, Json)>)
    ensures
        members_view(v).len() == v.len(),
        forall|i: int|
            0 <= i < v.len() ==> #[trigger] members_view(v)[i] == (v[i].0@, json_view(v[i].1)),
    decreases v.len(),
{
    if v.len() > 0 {
        lemma_members_view(v.drop_last());
    }
}

impl Json {
    /// A document with the same content.
    pub fn copied(&self) -> (r: Json)
        ensures
            r@ == self@,
        decreases self,
    {
        match self {
            Json::Null => Json::Null,
            Json::Bool(b) => Json::Bool(*b),
            Json::Number(n) => Json::Number(*n),
            Json::Text(s) => Json::Text(s.clone()),
            Json::Array(items) => {
                let mut out: Vec<Json> = Vec::new();
                let mut i: usize = 0;
                while i < items.len()
                    invariant
                        i <= items@.len(),
                        *self == Json::Array(*items),
                        items_view(out@) == items_view(items@.take(i as int)),
                    decreases items@.len() - i,
                {
                    assert(decreases_to!(*self => self->Array_0));
                    assert(decreases_to!(self->Array_0 => items@[i as int]));
                    let ghost before = out@;
                    out.push(items[i].copied());
                    assert(out@.drop_last() =~= before);
                    i += 1;
                    assert(items@.take(i as int).drop_last() =~= items@.take(i - 1));
                }
                assert(items@.take(i as int) =~= items@);
                Json::Array(out)
            },
            Json::Object(members) => {
                let mut out: Vec<(String, Json)> = Vec::new();
                let mut i: usize = 0;
                while i < members.len()
                    invariant
                        i <= members@.len(),
                        *self == Json::Object(*members),
                        members_view(out@) == members_view(members@.take(i as int)),
                    decreases members@.len() - i,
                {
                    assert(decreases_to!(*self => self->Object_0));
                    assert(decreases_to!(self->Object_0 => members@[i as int].1));
                    let ghost before = out@;
                    out.push((members[i].0.clone(), members[i].1.copied()));
                    assert(out@.drop_last() =~= before);
                    i += 1;
                    assert(members@.take(i as int).drop_last() =~= members@.take(i - 1));
                }
                assert(members@.take(i as int) =~= members@);
                Json::Object(out)
            },
        }
    }
}

impl Clone for Json {
    fn clone(&self) -> (r: Json)
        ensures
            r@ == self@,
    {
        self.copied()
    }
}

} // verus!
