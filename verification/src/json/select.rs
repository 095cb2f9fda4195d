//! Walking into a document along a path.
use crate::json;
use crate::json::{Json, JsonView};
use crate::path::syntax::StepView;
use crate::path::{Path, PathStep};
use vstd::prelude::*;

verus! {

/// The index of the first member of that name.
pub open spec fn member_index(members: Seq<(Seq<char>, JsonView)>, name: Seq<char>) -> Option<int>
    decreases members.len(),
{
    if members.len() == 0 {
        None
    } else {
        match member_index(members.drop_last(), name) {
            Some(i) => Some(i),
            None => if members.last().0 == name {
                Some(members.len() - 1)
            } else {
                None
            },
        }
    }
}

/// One step into a value.
pub open spec fn stepped(v: JsonView, step: StepView) -> Option<JsonView> {
    match (v, step) {
        (JsonView::Object(members), StepView::Field(name)) => match member_index(members, name) {
            Some(i) => Some(members[i].1),
            None => None,
        },
        (JsonView::Array(items), StepView::Index(i)) => if i < items.len() {
            Some(items[i as int])
        } else {
            None
        },
        _ => None,
    }
}

/// The part of a value that a path leads to.
pub open spec fn resolved(v: JsonView, steps: Seq<StepView>) -> Option<JsonView>
    decreases steps.len(),
{
    if steps.len() == 0 {
        Some(v)
    } else {
        match resolved(v, steps.drop_last()) {
            Some(w) => stepped(w, steps.last()),
            None => None,
        }
    }
}

/// A path that leads nowhere leads nowhere when it goes on.
proof fn lemma_unresolved(v: JsonView, steps: Seq<StepView>, k: int)
    requires
        0 <= k <= steps.len(),
        resolved(v, steps.take(k)) is None,
    ensures
        resolved(v, steps) is None,
    decreases steps.len(),
{
    if k == steps.len() {
        assert(steps.take(k) =~= steps);
    } else {
        assert(steps.drop_last().take(k) =~= steps.take(k));
        lemma_unresolved(v, steps.drop_last(), k);
    }
}

/// The value of the first member of that name.
pub fn find_member<'a>(members: &'a Vec<(String, Json)>, name: &String) -> (r: Option<&'a Json>)
    ensures
        match r {
            Some(j) => ({
                let i = member_index(json::members_view(members@), name@);
                i is Some && 0 <= i->Some_0 < members@.len() && json::members_view(
                    members@,
                )[i->Some_0].1 == j@
            }),
            None => member_index(json::members_view(members@), name@) is None,
        },
{
    let ghost all = json::members_view(members@);
    proof {
        json::lemma_members_view(members@);
    }
    let mut i: usize = 0;
    while i < members.len()
        invariant
            i <= members@.len() == all.len(),
            all == json::members_view(members@),
            forall|k: int|
                0 <= k < all.len() ==> #[trigger] all[k] == (
                    members@[k].0@,
                    json::json_view(members@[k].1),
                ),
            member_index(all.take(i as int), name@) is None,
        decreases members@.len() - i,
    {
        assert(all.take(i + 1).drop_last() =~= all.take(i as int));
        assert(all[i as int] == (members@[i as int].0@, json::json_view(members@[i as int].1)));
        if members[i].0 == *name {
            proof {
                lemma_first_member(all, name@, i as int);
            }
            return Some(&members[i].1);
        }
        i += 1;
    }
    assert(all.take(i as int) =~= all);
    None
}

proof fn lemma_first_member(all: Seq<(Seq<char>, JsonView)>, name: Seq<char>, i: int)
    requires
        0 <= i < all.len(),
        member_index(all.take(i), name) is None,
        all[i].0 == name,
    ensures
        member_index(all, name) == Some(i),
    decreases all.len(),
{
    let front = all.drop_last();
    if i == all.len() - 1 {
        assert(all.take(i) =~= front);
    } else {
        assert(front.take(i) =~= all.take(i));
        lemma_first_member(front, name, i);
    }
}

/// Walks into a document along a path. None if any step doesn't resolve:
/// missing field, out-of-bounds index, non-matching kind.
pub fn navigate<'a>(v: &'a Json, path: &Path) -> (r: Option<&'a Json>)
    ensures
        match r {
            Some(j) => resolved(v@, path@) == Some(j@),
            None => resolved(v@, path@) is None,
        },
{
    let ghost steps = path@;
    let mut cur: &'a Json = v;
    let mut i: usize = 0;
    assert(steps.take(0) =~= Seq::empty());
    while i < path.0.len()
        invariant
            i <= path.0@.len(),
            steps == path@,
            resolved(v@, steps.take(i as int)) == Some(cur@),
        decreases path.0@.len() - i,
    {
        proof {
            assert(steps.take(i + 1).drop_last() =~= steps.take(i as int));
            assert(steps[i as int] == path.0@[i as int]@);
        }
        match (cur, &path.0[i]) {
            (Json::Object(members), PathStep::Field(name)) => {
                match find_member(members, name) {
                    Some(j) => {
                        cur = j;
                    },
                    None => {
                        proof {
                            lemma_unresolved(v@, steps, i + 1);
                        }
                        return None;
                    },
                }
            },
            (Json::Array(items), PathStep::Index(k)) => {
                proof {
                    json::lemma_items_view(items@);
                }
                if (*k as usize) < items.len() {
                    assert(json::items_view(items@)[*k as int] == json::json_view(items@[*k as int]));
                    cur = &items[*k as usize];
                } else {
                    proof {
                        lemma_unresolved(v@, steps, i + 1);
                    }
                    return None;
                }
            },
            _ => {
                proof {
                    lemma_unresolved(v@, steps, i + 1);
                }
                return None;
            },
        }
        i += 1;
    }
    assert(steps.take(i as int) =~= steps);
    Some(cur)
}

// ---------------------------------------------------------------------
// Laws
// ---------------------------------------------------------------------

/// An index leads to the element at that place, counted from nothing, and
/// nowhere past the end: the elements that the indexes lead to, in order, are
/// the array.
pub proof fn law_an_index_leads_to_its_element(items: Seq<JsonView>, i: u32)
    ensures
        i < items.len() ==> resolved(JsonView::Array(items), seq![StepView::Index(i)]) == Some(
            items[i as int],
        ),
        i >= items.len() ==> resolved(JsonView::Array(items), seq![StepView::Index(i)]) is None,
        items.len() <= u32::MAX ==> items == Seq::new(
            items.len(),
            |k: int|
                resolved(JsonView::Array(items), seq![StepView::Index(k as u32)])->Some_0,
        ),
{
    lemma_one_step(JsonView::Array(items), StepView::Index(i));
    if items.len() <= u32::MAX {
        let all = Seq::new(
            items.len(),
            |k: int|
                resolved(JsonView::Array(items), seq![StepView::Index(k as u32)])->Some_0,
        );
        assert forall|k: int| 0 <= k < items.len() implies items[k] == all[k] by {
            lemma_one_step(JsonView::Array(items), StepView::Index(k as u32));
        }
        assert(items =~= all);
    }
}

/// A name leads to the value of the first member that has it, and nowhere
/// where none has.
pub proof fn law_a_name_leads_to_its_member(
    members: Seq<(Seq<char>, JsonView)>,
    name: Seq<char>,
    i: int,
)
    ensures
        0 <= i < members.len() && members[i].0 == name && (forall|j: int|
            0 <= j < i ==> (#[trigger] members[j]).0 != name) ==> resolved(
            JsonView::Object(members),
            seq![StepView::Field(name)],
        ) == Some(members[i].1),
        (forall|j: int| 0 <= j < members.len() ==> (#[trigger] members[j]).0 != name)
            ==> resolved(JsonView::Object(members), seq![StepView::Field(name)]) is None,
{
    lemma_one_step(JsonView::Object(members), StepView::Field(name));
    if forall|j: int| 0 <= j < members.len() ==> (#[trigger] members[j]).0 != name {
        lemma_no_member(members, name);
    }
    if 0 <= i < members.len() && members[i].0 == name && forall|j: int|
        0 <= j < i ==> (#[trigger] members[j]).0 != name {
        let front = members.take(i);
        assert forall|j: int| 0 <= j < front.len() implies (#[trigger] front[j]).0 != name by {
            assert(front[j] == members[j]);
        }
        lemma_no_member(front, name);
        lemma_first_member(members, name, i);
    }
}

/// A path goes on where its front leads to; the empty path leads to the value
/// itself. A name leads into objects alone, an index into arrays alone, and a
/// wildcard nowhere.
pub proof fn law_paths_are_followed_step_by_step(
    v: JsonView,
    front: Seq<StepView>,
    back: Seq<StepView>,
)
    ensures
        resolved(v, Seq::empty()) == Some(v),
        resolved(v, front + back) == (match resolved(v, front) {
            Some(w) => resolved(w, back),
            None => None,
        }),
        forall|name: Seq<char>|
            !(v is Object) ==> (#[trigger] resolved(v, seq![StepView::Field(name)])) is None,
        forall|i: u32|
            !(v is Array) ==> (#[trigger] resolved(v, seq![StepView::Index(i)])) is None,
        resolved(v, seq![StepView::AnyField]) is None,
        resolved(v, seq![StepView::AnyIndex]) is None,
    decreases back.len(),
{
    assert forall|name: Seq<char>| !(v is Object) implies (#[trigger] resolved(
        v,
        seq![StepView::Field(name)],
    )) is None by {
        lemma_one_step(v, StepView::Field(name));
    }
    assert forall|i: u32| !(v is Array) implies (#[trigger] resolved(
        v,
        seq![StepView::Index(i)],
    )) is None by {
        lemma_one_step(v, StepView::Index(i));
    }
    lemma_one_step(v, StepView::AnyField);
    lemma_one_step(v, StepView::AnyIndex);
    if back.len() == 0 {
        assert(front + back =~= front);
        match resolved(v, front) {
            Some(w) => {
                assert(resolved(w, back) == Some(w));
            },
            None => {},
        }
    } else {
        law_paths_are_followed_step_by_step(v, front, back.drop_last());
        assert((front + back).drop_last() =~= front + back.drop_last());
        assert((front + back).last() == back.last());
    }
}

proof fn lemma_one_step(v: JsonView, step: StepView)
    ensures
        resolved(v, seq![step]) == stepped(v, step),
{
    assert(seq![step].drop_last() =~= Seq::empty());
    assert(resolved(v, seq![step].drop_last()) == Some(v));
    assert(seq![step].last() == step);
}

proof fn lemma_no_member(members: Seq<(Seq<char>, JsonView)>, name: Seq<char>)
    requires
        forall|j: int| 0 <= j < members.len() ==> (#[trigger] members[j]).0 != name,
    ensures
        member_index(members, name) is None,
    decreases members.len(),
{
    if members.len() > 0 {
        let front = members.drop_last();
        assert forall|j: int| 0 <= j < front.len() implies (#[trigger] front[j]).0 != name by {
            assert(front[j] == members[j]);
        }
        lemma_no_member(front, name);
        assert(members[members.len() - 1].0 != name);
    }
}

} // verus!
