//! Drawn documents in which the doubles are still open.
//!
//! A draft keeps, for each double, the random word that it comes from. Once
//! the doubles are known the draft is completed to a document.
use crate::double::Double;
use crate::json;
use crate::json::entries;
use crate::json::{Json, JsonView, Number};
use vstd::prelude::*;

verus! {

#[derive(Debug)]
pub enum Draft {
    Value(Json),
    Float(u64),
    Array(Vec<Draft>),
    Object(Vec<(String, Draft)>),
}

pub enum DraftView {
    Value(JsonView),
    Float(u64),
    Array(Seq<DraftView>),
    Object(Seq<(Seq<char>, DraftView)>),
}

pub open spec fn draft_view(d: Draft) -> DraftView
    decreases d,
{
    match d {
        Draft::Value(j) => DraftView::Value(j@),
        Draft::Float(w) => DraftView::Float(w),
        Draft::Array(items) => DraftView::Array(drafts_view(items@)),
        Draft::Object(members) => DraftView::Object(draft_members_view(members@)),
    }
}

pub open spec fn drafts_view(v: Seq<Draft>) -> Seq<DraftView>
    decreases v,
{
    if v.len() == 0 {
        Seq::empty()
    } else {
        drafts_view(v.drop_last()).push(draft_view(v.last()))
    }
}

pub open spec fn draft_members_view(v: Seq<(String, Draft)>) -> Seq<(Seq<char>, DraftView)>
    decreases v,
{
    if v.len() == 0 {
        Seq::empty()
    } else {
        draft_members_view(v.drop_last()).push((v.last().0@, draft_view(v.last().1)))
    }
}

impl View for Draft {
    type V = DraftView;

    open spec fn view(&self) -> DraftView {
        draft_view(*self)
    }
}

pub proof fn lemma_drafts_view(v: Seq<Draft>)
    ensures
        drafts_view(v).len() == v.len(),
        forall|i: int| 0 <= i < v.len() ==> #[trigger] drafts_view(v)[i] == draft_view(v[i]),
    decreases v.len(),
{
    if v.len() > 0 {
        lemma_drafts_view(v.drop_last());
    }
}

pub proof fn lemma_draft_members_view(v: Seq<(String, Draft)>)
    ensures
        draft_members_view(v) == entries::listed(v),
    decreases v.len(),
{
    if v.len() > 0 {
        let front = v.drop_last();
        lemma_draft_members_view(front);
        assert(entries::listed(v) =~= entries::listed(front).push((v.last().0@, v.last().1@)));
    } else {
        assert(draft_members_view(v) =~= entries::listed(v));
    }
}

// ---------------------------------------------------------------------
// The random words of a draft
// ---------------------------------------------------------------------

/// The words of a draft, in the order of the text.
pub open spec fn words_of(d: DraftView) -> Seq<u64>
    decreases d,
{
    match d {
        DraftView::Value(_) => Seq::empty(),
        DraftView::Float(w) => seq![w],
        DraftView::Array(items) => words_of_all(items),
        DraftView::Object(members) => words_of_members(members),
    }
}

pub open spec fn words_of_all(v: Seq<DraftView>) -> Seq<u64>
    decreases v,
{
    if v.len() == 0 {
        Seq::empty()
    } else {
        words_of_all(v.drop_last()) + words_of(v.last())
    }
}

pub open spec fn words_of_members(v: Seq<(Seq<char>, DraftView)>) -> Seq<u64>
    decreases v,
{
    if v.len() == 0 {
        Seq::empty()
    } else {
        words_of_members(v.drop_last()) + words_of(v.last().1)
    }
}

// ---------------------------------------------------------------------
// Completion
// ---------------------------------------------------------------------

/// What a double becomes in a document. One that is not finite has no place
/// there.
pub open spec fn double_value(d: Double) -> JsonView {
    if d.finite() {
        JsonView::Number(Number::Float(d))
    } else {
        JsonView::Null
    }
}

/// The double at an index, or zero past the end.
pub open spec fn double_at(doubles: Seq<Double>, at: int) -> Double {
    if 0 <= at < doubles.len() {
        doubles[at]
    } else {
        Double { bits: 0 }
    }
}

/// The document that a draft becomes, the doubles taken from `at` on.
pub open spec fn completed(d: DraftView, doubles: Seq<Double>, at: int) -> JsonView
    decreases d,
{
    match d {
        DraftView::Value(j) => j,
        DraftView::Float(_) => double_value(double_at(doubles, at)),
        DraftView::Array(items) => JsonView::Array(all_completed(items, doubles, at)),
        DraftView::Object(members) => JsonView::Object(members_completed(members, doubles, at)),
    }
}

pub open spec fn all_completed(v: Seq<DraftView>, doubles: Seq<Double>, at: int) -> Seq<JsonView>
    decreases v,
{
    if v.len() == 0 {
        Seq::empty()
    } else {
        let front = v.drop_last();
        all_completed(front, doubles, at).push(
            completed(v.last(), doubles, at + words_of_all(front).len()),
        )
    }
}

pub open spec fn members_completed(
    v: Seq<(Seq<char>, DraftView)>,
    doubles: Seq<Double>,
    at: int,
) -> Seq<(Seq<char>, JsonView)>
    decreases v,
{
    if v.len() == 0 {
        Seq::empty()
    } else {
        let front = v.drop_last();
        members_completed(front, doubles, at).push(
            (
                v.last().0,
                completed(v.last().1, doubles, at + words_of_members(front).len()),
            ),
        )
    }
}

/// Each item is completed with doubles of its own.
pub proof fn lemma_all_completed(v: Seq<DraftView>, doubles: Seq<Double>, at: int)
    ensures
        all_completed(v, doubles, at).len() == v.len(),
        forall|i: int|
            #![trigger all_completed(v, doubles, at)[i]]
            0 <= i < v.len() ==> all_completed(v, doubles, at)[i] == completed(
                v[i],
                doubles,
                at + words_of_all(v.take(i)).len(),
            ),
    decreases v.len(),
{
    if v.len() > 0 {
        let front = v.drop_last();
        lemma_all_completed(front, doubles, at);
        assert forall|i: int|
            #![trigger all_completed(v, doubles, at)[i]]
            0 <= i < v.len() implies all_completed(v, doubles, at)[i] == completed(
            v[i],
            doubles,
            at + words_of_all(v.take(i)).len(),
        ) by {
            if i < front.len() {
                assert(all_completed(front, doubles, at)[i] == all_completed(v, doubles, at)[i]);
                assert(front.take(i) =~= v.take(i));
            } else {
                assert(v.take(i) =~= front);
            }
        }
    }
}

/// Each member is completed under its own name.
pub proof fn lemma_members_completed(
    v: Seq<(Seq<char>, DraftView)>,
    doubles: Seq<Double>,
    at: int,
)
    ensures
        members_completed(v, doubles, at).len() == v.len(),
        forall|i: int|
            #![trigger members_completed(v, doubles, at)[i]]
            0 <= i < v.len() ==> members_completed(v, doubles, at)[i] == (
                v[i].0,
                completed(v[i].1, doubles, at + words_of_members(v.take(i)).len()),
            ),
    decreases v.len(),
{
    if v.len() > 0 {
        let front = v.drop_last();
        lemma_members_completed(front, doubles, at);
        assert forall|i: int|
            #![trigger members_completed(v, doubles, at)[i]]
            0 <= i < v.len() implies members_completed(v, doubles, at)[i] == (
            v[i].0,
            completed(v[i].1, doubles, at + words_of_members(v.take(i)).len()),
        ) by {
            if i < front.len() {
                assert(members_completed(front, doubles, at)[i] == members_completed(
                    v,
                    doubles,
                    at,
                )[i]);
                assert(front.take(i) =~= v.take(i));
            } else {
                assert(v.take(i) =~= front);
            }
        }
    }
}

proof fn lemma_words_upto(v: Seq<DraftView>, k: int)
    requires
        0 <= k < v.len(),
    ensures
        words_of_all(v.take(k + 1)) == words_of_all(v.take(k)) + words_of(v[k]),
        words_of_all(v.take(k)).len() + words_of(v[k]).len() <= words_of_all(v).len(),
    decreases v.len(),
{
    assert(v.take(k + 1).drop_last() =~= v.take(k));
    if k + 1 == v.len() {
        assert(v.take(k + 1) =~= v);
    } else {
        let front = v.drop_last();
        lemma_words_upto(front, k);
        assert(front.take(k) =~= v.take(k));
        assert(front.take(k + 1) =~= v.take(k + 1));
    }
}

proof fn lemma_member_words_upto(v: Seq<(Seq<char>, DraftView)>, k: int)
    requires
        0 <= k < v.len(),
    ensures
        words_of_members(v.take(k + 1)) == words_of_members(v.take(k)) + words_of(v[k].1),
        words_of_members(v.take(k)).len() + words_of(v[k].1).len() <= words_of_members(v).len(),
    decreases v.len(),
{
    assert(v.take(k + 1).drop_last() =~= v.take(k));
    if k + 1 == v.len() {
        assert(v.take(k + 1) =~= v);
    } else {
        let front = v.drop_last();
        lemma_member_words_upto(front, k);
        assert(front.take(k) =~= v.take(k));
        assert(front.take(k + 1) =~= v.take(k + 1));
    }
}

impl Draft {
    fn add_words(&self, out: &mut Vec<u64>)
        ensures
            final(out)@ == old(out)@ + words_of(self@),
        decreases self,
    {
        match self {
            Draft::Value(_) => {
                assert(out@ =~= old(out)@ + words_of(self@));
            },
            Draft::Float(w) => {
                out.push(*w);
                assert(out@ =~= old(out)@ + words_of(self@));
            },
            Draft::Array(items) => {
                let ghost all = drafts_view(items@);
                proof {
                    lemma_drafts_view(items@);
                    assert(all.take(0) =~= Seq::empty());
                    assert(out@ =~= old(out)@ + words_of_all(all.take(0)));
                }
                let mut i: usize = 0;
                while i < items.len()
                    invariant
                        i <= items@.len() == all.len(),
                        *self == Draft::Array(*items),
                        all == drafts_view(items@),
                        forall|k: int|
                            0 <= k < all.len() ==> #[trigger] all[k] == draft_view(items@[k]),
                        out@ == old(out)@ + words_of_all(all.take(i as int)),
                    decreases items@.len() - i,
                {
                    assert(decreases_to!(*self => self->Array_0));
                    assert(decreases_to!(self->Array_0 => items@[i as int]));
                    assert(all[i as int] == items@[i as int]@);
                    items[i].add_words(out);
                    proof {
                        lemma_words_upto(all, i as int);
                        assert(out@ =~= old(out)@ + words_of_all(all.take(i + 1)));
                    }
                    i += 1;
                }
                assert(all.take(i as int) =~= all);
            },
            Draft::Object(members) => {
                let ghost all = draft_members_view(members@);
                proof {
                    lemma_draft_members_view(members@);
                    assert(all.take(0) =~= Seq::empty());
                    assert(out@ =~= old(out)@ + words_of_members(all.take(0)));
                }
                let mut i: usize = 0;
                while i < members.len()
                    invariant
                        i <= members@.len() == all.len(),
                        *self == Draft::Object(*members),
                        all == draft_members_view(members@),
                        all == entries::listed(members@),
                        out@ == old(out)@ + words_of_members(all.take(i as int)),
                    decreases members@.len() - i,
                {
                    assert(decreases_to!(*self => self->Object_0));
                    assert(decreases_to!(self->Object_0 => members@[i as int].1));
                    assert(all[i as int] == (members@[i as int].0@, members@[i as int].1@));
                    members[i].1.add_words(out);
                    proof {
                        lemma_member_words_upto(all, i as int);
                        assert(out@ =~= old(out)@ + words_of_members(all.take(i + 1)));
                    }
                    i += 1;
                }
                assert(all.take(i as int) =~= all);
            },
        }
    }

    /// The random words of the doubles, in the order of the text.
    pub fn words(&self) -> (r: Vec<u64>)
        ensures
            r@ == words_of(self@),
    {
        let mut out: Vec<u64> = Vec::new();
        self.add_words(&mut out);
        assert(out@ =~= words_of(self@));
        out
    }

    fn complete_from(&self, doubles: &Vec<Double>, at: usize) -> (r: (Json, usize))
        requires
            at + words_of(self@).len() <= doubles@.len(),
        ensures
            r.0@ == completed(self@, doubles@, at as int),
            r.1 == at + words_of(self@).len(),
        decreases self,
    {
        match self {
            Draft::Value(j) => (j.copied(), at),
            Draft::Float(_) => {
                assert(at < doubles.len());
                let d = doubles[at];
                if d.is_finite() {
                    (Json::Number(Number::Float(d)), at + 1)
                } else {
                    (Json::Null, at + 1)
                }
            },
            Draft::Array(items) => {
                let ghost all = drafts_view(items@);
                proof {
                    lemma_drafts_view(items@);
                    lemma_all_completed(all, doubles@, at as int);
                    assert(all.take(0) =~= Seq::empty());
                }
                let mut out: Vec<Json> = Vec::new();
                let mut next: usize = at;
                let mut i: usize = 0;
                while i < items.len()
                    invariant
                        i <= items@.len() == all.len(),
                        *self == Draft::Array(*items),
                        all == drafts_view(items@),
                        forall|k: int|
                            0 <= k < all.len() ==> #[trigger] all[k] == draft_view(items@[k]),
                        at + words_of_all(all).len() <= doubles@.len(),
                        next == at + words_of_all(all.take(i as int)).len(),
                        json::items_view(out@) == all_completed(
                            all.take(i as int),
                            doubles@,
                            at as int,
                        ),
                    decreases items@.len() - i,
                {
                    let ghost before = out@;
                    proof {
                        assert(decreases_to!(*self => self->Array_0));
                        assert(decreases_to!(self->Array_0 => items@[i as int]));
                        assert(all[i as int] == items@[i as int]@);
                        lemma_words_upto(all, i as int);
                        assert(all.take(i + 1).drop_last() =~= all.take(i as int));
                    }
                    let (j, after) = items[i].complete_from(doubles, next);
                    out.push(j);
                    assert(out@.drop_last() =~= before);
                    next = after;
                    i += 1;
                }
                assert(all.take(i as int) =~= all);
                (Json::Array(out), next)
            },
            Draft::Object(members) => {
                let ghost all = draft_members_view(members@);
                proof {
                    lemma_draft_members_view(members@);
                    lemma_members_completed(all, doubles@, at as int);
                    assert(all.take(0) =~= Seq::empty());
                }
                let mut out: Vec<(String, Json)> = Vec::new();
                let mut next: usize = at;
                let mut i: usize = 0;
                while i < members.len()
                    invariant
                        i <= members@.len() == all.len(),
                        *self == Draft::Object(*members),
                        all == draft_members_view(members@),
                        all == entries::listed(members@),
                        at + words_of_members(all).len() <= doubles@.len(),
                        next == at + words_of_members(all.take(i as int)).len(),
                        json::members_view(out@) == members_completed(
                            all.take(i as int),
                            doubles@,
                            at as int,
                        ),
                    decreases members@.len() - i,
                {
                    let ghost before = out@;
                    proof {
                        assert(decreases_to!(*self => self->Object_0));
                        assert(decreases_to!(self->Object_0 => members@[i as int].1));
                        assert(all[i as int] == (members@[i as int].0@, members@[i as int].1@));
                        lemma_member_words_upto(all, i as int);
                        assert(all.take(i + 1).drop_last() =~= all.take(i as int));
                    }
                    let (j, after) = members[i].1.complete_from(doubles, next);
                    out.push((members[i].0.clone(), j));
                    assert(out@.drop_last() =~= before);
                    next = after;
                    i += 1;
                }
                assert(all.take(i as int) =~= all);
                (Json::Object(out), next)
            },
        }
    }

    /// The document with the given doubles, one for each word.
    pub fn complete(&self, doubles: &Vec<Double>) -> (r: Json)
        requires
            doubles@.len() == words_of(self@).len(),
        ensures
            r@ == completed(self@, doubles@, 0),
    {
        let (j, _) = self.complete_from(doubles, 0);
        j
    }
}

} // verus!
