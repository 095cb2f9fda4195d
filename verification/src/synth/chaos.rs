//! Random documents for adversarial-shape testing.
//!
//! These have an arbitrary root type, mixed scalar distributions and bounded
//! nesting. The two spines cover the deep-but-thin shapes that the recursive
//! generator effectively never produces.
use crate::json;
use crate::json::entries;
use crate::json::{Json, JsonView, Number};
use crate::synth::draft;
use crate::synth::draft::{Draft, DraftView};
use crate::synth::random::{Dice, Rolls};
use crate::synth::words;
use vstd::prelude::*;

verus! {

/// From here on the odds of a container no longer grow with the depth.
pub const DEEPEST_ODDS: u32 = 0x7fff_fffd;

// ---------------------------------------------------------------------
// The model
// ---------------------------------------------------------------------

/// A scalar that can be drawn, other than a double.
pub open spec fn a_scalar(j: JsonView) -> bool {
    match j {
        JsonView::Null => true,
        JsonView::Bool(_) => true,
        JsonView::Number(Number::Positive(n)) => n <= 100_000 || i64::MAX < n <= i64::MAX
            + 1_000_000,
        JsonView::Number(Number::Negative(n)) => -100_000 <= n < 0,
        JsonView::Number(Number::Float(_)) => false,
        JsonView::Text(s) => words::lower_case(s) && s.len() < 16,
        JsonView::Array(_) => false,
        JsonView::Object(_) => false,
    }
}

/// A document of at most `depth` levels of nesting, with at most `branch`
/// children per container.
pub open spec fn bounded(d: DraftView, depth: int, branch: int) -> bool
    decreases d,
{
    match d {
        DraftView::Value(j) => a_scalar(j),
        DraftView::Float(_) => true,
        DraftView::Array(items) => {
            &&& depth > 0
            &&& items.len() <= branch
            &&& forall|i: int|
                0 <= i < items.len() ==> bounded(#[trigger] items[i], depth - 1, branch)
        },
        DraftView::Object(members) => {
            &&& depth > 0
            &&& members.len() <= branch
            &&& entries::ascending(members)
            &&& forall|i: int|
                0 <= i < members.len() ==> {
                    &&& words::lower_case((#[trigger] members[i]).0)
                    &&& 1 <= members[i].0.len() < 8
                    &&& bounded(members[i].1, depth - 1, branch)
                }
        },
    }
}

/// What draws lead to: null, a bool, a small whole number, one above the signed
/// range, a double, a short text, or the empty text.
pub open spec fn scalar_from(
    which: int,
    flag: bool,
    small: i64,
    large: u64,
    word: u64,
    text: Seq<char>,
) -> DraftView {
    if which == 0 {
        DraftView::Value(JsonView::Null)
    } else if which == 1 {
        DraftView::Value(JsonView::Bool(flag))
    } else if which == 2 {
        DraftView::Value(JsonView::Number(Number::of_signed(small)))
    } else if which == 3 {
        DraftView::Value(JsonView::Number(Number::Positive(large)))
    } else if which == 4 {
        DraftView::Float(word)
    } else if which == 5 {
        DraftView::Value(JsonView::Text(text))
    } else {
        DraftView::Value(JsonView::Text(Seq::empty()))
    }
}

/// What kind of document is drawn.
#[derive(Clone, Copy, Debug, PartialEq, Eq, Structural)]
pub enum Kind {
    Scalar,
    Array,
    Object,
}

/// The chance of a container is `odds` in twice `odds` and four.
pub open spec fn odds_at(depth: u32) -> u32 {
    if depth < DEEPEST_ODDS {
        depth
    } else {
        DEEPEST_ODDS
    }
}

/// The scalar that is drawn, and where it leaves the generator. Only what the
/// choice needs is drawn.
pub open spec fn scalar_drawn(r: Rolls) -> (DraftView, Rolls) {
    let least = 0x8000_0000_0000_0000u64;
    let (which, r) = r.i32(0, 6);
    let (flag, r) = if which == 1 {
        r.flip()
    } else {
        (false, r)
    };
    let (small, r) = if which == 2 {
        r.i64((-100_000) as i64, 100_000)
    } else {
        (0, r)
    };
    let (large, r) = if which == 3 {
        r.u64(least, 0x8000_0000_000f_423f)
    } else {
        (least, r)
    };
    let (word, r) = if which == 4 {
        r.word()
    } else {
        (0, r)
    };
    let (text, r) = if which == 5 {
        words::lorem(r, 0, 15)
    } else {
        (Seq::empty(), r)
    };
    (scalar_from(which as int, flag, small, large, word, text), r)
}

/// The document that is drawn, and where it leaves the generator.
pub open spec fn value_drawn(depth: u32, branch: u32, r: Rolls) -> (DraftView, Rolls)
    decreases depth, 2nat, 0nat,
{
    let odds = odds_at(depth);
    let (nested, r) = r.chance(odds, (2 * odds + 4) as u32);
    if !nested || depth == 0 {
        scalar_drawn(r)
    } else {
        let (listed, r) = r.chance(1, 2);
        if listed {
            array_drawn(depth, branch, r)
        } else {
            object_drawn(depth, branch, r)
        }
    }
}

pub open spec fn array_drawn(depth: u32, branch: u32, r: Rolls) -> (DraftView, Rolls)
    decreases depth, 1nat, 0nat,
{
    let (n, r) = r.u32(0, branch);
    let (items, r) = items_drawn(depth, branch, n as nat, r);
    (DraftView::Array(items), r)
}

pub open spec fn object_drawn(depth: u32, branch: u32, r: Rolls) -> (DraftView, Rolls)
    decreases depth, 1nat, 0nat,
{
    let (n, r) = r.u32(0, branch);
    let (members, r) = members_drawn(depth, branch, n as nat, r);
    (DraftView::Object(members), r)
}

/// Items, each a level less deep.
pub open spec fn items_drawn(depth: u32, branch: u32, n: nat, r: Rolls) -> (Seq<DraftView>, Rolls)
    decreases depth, 0nat, n,
{
    if n == 0 || depth == 0 {
        (Seq::empty(), r)
    } else {
        let (front, r) = items_drawn(depth, branch, (n - 1) as nat, r);
        let (d, r) = value_drawn((depth - 1) as u32, branch, r);
        (front.push(d), r)
    }
}

/// Names and values, each value a level less deep, put in one after the other.
pub open spec fn members_drawn(depth: u32, branch: u32, n: nat, r: Rolls) -> (
    Seq<(Seq<char>, DraftView)>,
    Rolls,
)
    decreases depth, 0nat, n,
{
    if n == 0 || depth == 0 {
        (Seq::empty(), r)
    } else {
        let (front, r) = members_drawn(depth, branch, (n - 1) as nat, r);
        let (name, r) = words::lorem(r, 1, 7);
        let (d, r) = value_drawn((depth - 1) as u32, branch, r);
        (entries::put(front, name, d), r)
    }
}

// ---------------------------------------------------------------------
// Drawing
// ---------------------------------------------------------------------

/// The kind of a document: a scalar where it is not nested, else an array
/// where it is listed.
pub fn kind_of(nested: bool, listed: bool) -> (kind: Kind)
    ensures
        kind == (if !nested {
            Kind::Scalar
        } else if listed {
            Kind::Array
        } else {
            Kind::Object
        }),
{
    if !nested {
        Kind::Scalar
    } else if listed {
        Kind::Array
    } else {
        Kind::Object
    }
}

/// Draws a document bounded by `depth_budget` levels of nesting and
/// `max_branch` children per container. Always a scalar when the budget is
/// zero. The chance of a container decays toward the leaves.
pub fn random_value(rng: &mut Dice, depth_budget: u32, max_branch: u32) -> (d: Draft)
    ensures
        (d@, final(rng)@) == value_drawn(depth_budget, max_branch, old(rng)@),
        bounded(d@, depth_budget as int, max_branch as int),
        depth_budget == 0 ==> !(d@ is Array) && !(d@ is Object),
    decreases depth_budget, 2int,
{
    let odds: u32 = if depth_budget < DEEPEST_ODDS {
        depth_budget
    } else {
        DEEPEST_ODDS
    };
    let nested: bool = rng.chance(odds, 2 * odds + 4);
    let listed: bool = nested && rng.chance(1, 2);
    match kind_of(nested, listed) {
        Kind::Scalar => random_scalar(rng),
        Kind::Array => random_array(rng, depth_budget, max_branch),
        Kind::Object => random_object(rng, depth_budget, max_branch),
    }
}

/// The scalar that drawn values lead to.
pub fn scalar_of(
    which: i32,
    flag: bool,
    small: i64,
    large: u64,
    word: u64,
    text: String,
) -> (d: Draft)
    requires
        0 <= which <= 6,
        -100_000 <= small <= 100_000,
        i64::MAX < large <= i64::MAX + 1_000_000,
    ensures
        d@ == scalar_from(which as int, flag, small, large, word, text@),
{
    if which == 0 {
        Draft::Value(Json::Null)
    } else if which == 1 {
        Draft::Value(Json::Bool(flag))
    } else if which == 2 {
        Draft::Value(Json::Number(Number::from_i64(small)))
    } else if which == 3 {
        Draft::Value(Json::Number(Number::Positive(large)))
    } else if which == 4 {
        Draft::Float(word)
    } else if which == 5 {
        Draft::Value(Json::Text(text))
    } else {
        Draft::Value(Json::Text(String::new()))
    }
}

/// Draws null, a bool, a small whole number, one above the signed range, a
/// double, a short text of lower-case letters, or the empty text.
pub fn random_scalar(rng: &mut Dice) -> (d: Draft)
    ensures
        (d@, final(rng)@) == scalar_drawn(old(rng)@),
        d@ is Float || (d@ matches DraftView::Value(j) && a_scalar(j)),
{
    let least: u64 = 0x8000_0000_0000_0000;
    let which: i32 = rng.between_i32(0, 6);
    let flag: bool = which == 1 && rng.flip();
    let small: i64 = if which == 2 {
        rng.between_i64(-100_000, 100_000)
    } else {
        0
    };
    let large: u64 = if which == 3 {
        rng.between_u64(least, 0x8000_0000_000f_423f)
    } else {
        least
    };
    let word: u64 = if which == 4 {
        rng.word()
    } else {
        0
    };
    let text = if which == 5 {
        random_string(rng, 0, 16)
    } else {
        String::new()
    };
    assert(which != 5 ==> text@ =~= Seq::empty());
    scalar_of(which, flag, small, large, word, text)
}

/// Draws an array with at most `max_branch` items, each a level less deep.
pub fn random_array(rng: &mut Dice, depth_budget: u32, max_branch: u32) -> (d: Draft)
    requires
        depth_budget > 0 || max_branch == 0,
    ensures
        (d@, final(rng)@) == array_drawn(depth_budget, max_branch, old(rng)@),
        d@ matches DraftView::Array(items) && items.len() <= max_branch && forall|i: int|
            0 <= i < items.len() ==> bounded(
                #[trigger] items[i],
                depth_budget - 1,
                max_branch as int,
            ),
    decreases depth_budget, 1int,
{
    let n: u32 = rng.between_u32(0, max_branch);
    array_of(rng, n, depth_budget, max_branch)
}

/// Draws an array with `n` items, each a level less deep.
pub fn array_of(rng: &mut Dice, n: u32, depth_budget: u32, max_branch: u32) -> (d: Draft)
    requires
        depth_budget > 0 || n == 0,
    ensures
        d@ == DraftView::Array(items_drawn(depth_budget, max_branch, n as nat, old(rng)@).0),
        final(rng)@ == items_drawn(depth_budget, max_branch, n as nat, old(rng)@).1,
        d@ matches DraftView::Array(items) && items.len() == n && forall|i: int|
            0 <= i < n ==> bounded(#[trigger] items[i], depth_budget - 1, max_branch as int),
    decreases depth_budget, 0int,
{
    let ghost start = rng@;
    let mut items: Vec<Draft> = Vec::new();
    let mut i: u32 = 0;
    while i < n
        invariant
            i <= n,
            depth_budget > 0 || n == 0,
            items@.len() == i,
            (draft::drafts_view(items@), rng@) == items_drawn(
                depth_budget,
                max_branch,
                i as nat,
                start,
            ),
            forall|k: int|
                0 <= k < i ==> bounded(
                    #[trigger] draft::drafts_view(items@)[k],
                    depth_budget - 1,
                    max_branch as int,
                ),
        decreases n - i,
    {
        let ghost before = items@;
        items.push(random_value(rng, depth_budget - 1, max_branch));
        proof {
            assert(items@.drop_last() =~= before);
            draft::lemma_drafts_view(before);
        }
        i += 1;
    }
    proof {
        draft::lemma_drafts_view(items@);
    }
    Draft::Array(items)
}

/// Draws an object with at most `max_branch` members, each a level less deep.
/// A name that is drawn again replaces the member that had it.
pub fn random_object(rng: &mut Dice, depth_budget: u32, max_branch: u32) -> (d: Draft)
    requires
        depth_budget > 0 || max_branch == 0,
    ensures
        (d@, final(rng)@) == object_drawn(depth_budget, max_branch, old(rng)@),
        bounded_object(d@, max_branch as int, depth_budget as int, max_branch as int),
    decreases depth_budget, 1int,
{
    let n: u32 = rng.between_u32(0, max_branch);
    object_of(rng, n, depth_budget, max_branch)
}

/// An object of at most `n` members, each within a level less.
pub open spec fn bounded_object(d: DraftView, n: int, depth: int, branch: int) -> bool {
    d matches DraftView::Object(members) && members.len() <= n && entries::ascending(members)
        && forall|i: int|
        0 <= i < members.len() ==> {
            &&& words::lower_case((#[trigger] members[i]).0)
            &&& 1 <= members[i].0.len() < 8
            &&& bounded(members[i].1, depth - 1, branch)
        }
}

/// Draws `n` names and values, each value a level less deep, and makes an
/// object of them.
pub fn object_of(rng: &mut Dice, n: u32, depth_budget: u32, max_branch: u32) -> (d: Draft)
    requires
        depth_budget > 0 || n == 0,
    ensures
        d@ == DraftView::Object(members_drawn(depth_budget, max_branch, n as nat, old(rng)@).0),
        final(rng)@ == members_drawn(depth_budget, max_branch, n as nat, old(rng)@).1,
        bounded_object(d@, n as int, depth_budget as int, max_branch as int),
    decreases depth_budget, 0int,
{
    let ghost start = rng@;
    let mut out: Vec<(String, Draft)> = Vec::new();
    let mut i: u32 = 0;
    assert(entries::listed(out@) =~= Seq::empty());
    while i < n
        invariant
            i <= n,
            depth_budget > 0 || n == 0,
            (entries::listed(out@), rng@) == members_drawn(
                depth_budget,
                max_branch,
                i as nat,
                start,
            ),
            bounded_object(
                DraftView::Object(entries::listed(out@)),
                i as int,
                depth_budget as int,
                max_branch as int,
            ),
        decreases n - i,
    {
        let key = random_string(rng, 1, 8);
        let d = random_value(rng, depth_budget - 1, max_branch);
        let ghost before = entries::listed(out@);
        let ghost entry = (key@, d@);
        entries::put_entry(&mut out, key, d);
        proof {
            let after = entries::listed(out@);
            entries::law_entries_stay_ascending(before, entry.0, entry.1);
            entries::lemma_put_adds_one(before, entry.0, entry.1);
            assert forall|k: int| 0 <= k < after.len() implies {
                &&& words::lower_case((#[trigger] after[k]).0)
                &&& 1 <= after[k].0.len() < 8
                &&& bounded(after[k].1, depth_budget - 1, max_branch as int)
            } by {
                if after[k] != entry {
                    let j = choose|j: int| 0 <= j < before.len() && before[j] == after[k];
                    assert(words::lower_case(before[j].0));
                }
            }
        }
        i += 1;
    }
    proof {
        draft::lemma_draft_members_view(out@);
    }
    Draft::Object(out)
}

/// Draws a text of lower-case letters, at least `low` and fewer than `high`.
pub fn random_string(rng: &mut Dice, low: usize, high: usize) -> (s: String)
    requires
        low < high,
    ensures
        (s@, final(rng)@) == words::lorem(old(rng)@, low as u64, (high - 1) as u64),
        words::lower_case(s@),
        low <= s@.len() < high,
{
    words::gen_lorem(rng, low, high - 1)
}

// ---------------------------------------------------------------------
// Spines
// ---------------------------------------------------------------------

pub open spec fn array_spine(depth: nat) -> JsonView
    decreases depth,
{
    if depth == 0 {
        JsonView::Number(Number::Positive(1))
    } else {
        JsonView::Array(seq![array_spine((depth - 1) as nat)])
    }
}

/// Objects at the even levels, arrays at the odd ones.
pub open spec fn mixed_spine(depth: nat) -> JsonView
    decreases depth,
{
    if depth == 0 {
        JsonView::Bool(true)
    } else if depth % 2 == 0 {
        JsonView::Object(seq![("next"@, mixed_spine((depth - 1) as nat))])
    } else {
        JsonView::Array(seq![mixed_spine((depth - 1) as nat)])
    }
}

/// A chain of nested arrays that ends in a scalar at the bottom.
pub fn nested_array_spine(depth: u32) -> (j: Json)
    ensures
        j@ == array_spine(depth as nat),
    decreases depth,
{
    if depth == 0 {
        Json::Number(Number::Positive(1))
    } else {
        let mut items: Vec<Json> = Vec::new();
        items.push(nested_array_spine(depth - 1));
        proof {
            json::lemma_items_view(items@);
            assert(json::items_view(items@) =~= seq![array_spine((depth - 1) as nat)]);
        }
        Json::Array(items)
    }
}

/// A chain of nested objects and arrays in turn. Objects have the one key
/// `"next"`.
pub fn nested_mixed_spine(depth: u32) -> (j: Json)
    ensures
        j@ == mixed_spine(depth as nat),
    decreases depth,
{
    if depth == 0 {
        Json::Bool(true)
    } else if depth % 2 == 0 {
        let mut members: Vec<(String, Json)> = Vec::new();
        members.push(("next".to_string(), nested_mixed_spine(depth - 1)));
        proof {
            json::lemma_members_view(members@);
            assert(json::members_view(members@) =~= seq![
                ("next"@, mixed_spine((depth - 1) as nat)),
            ]);
        }
        Json::Object(members)
    } else {
        let mut items: Vec<Json> = Vec::new();
        items.push(nested_mixed_spine(depth - 1));
        proof {
            json::lemma_items_view(items@);
            assert(json::items_view(items@) =~= seq![mixed_spine((depth - 1) as nat)]);
        }
        Json::Array(items)
    }
}

/// How many containers stand around the one thing that a value holds.
pub open spec fn depth_of(j: JsonView) -> nat
    decreases j,
{
    match j {
        JsonView::Array(items) => if items.len() == 1 {
            1 + depth_of(items[0])
        } else {
            0
        },
        JsonView::Object(members) => if members.len() == 1 {
            1 + depth_of(members[0].1)
        } else {
            0
        },
        _ => 0,
    }
}

/// A spine is as deep as it was asked to be. One of arrays is of arrays alone;
/// in a mixed one, an object stands around an array, and an array around an
/// object.
pub proof fn law_spines_are_as_deep_as_asked(depth: nat)
    ensures
        depth_of(array_spine(depth)) == depth,
        depth_of(mixed_spine(depth)) == depth,
        depth > 0 ==> array_spine(depth) is Array,
        depth > 0 ==> (mixed_spine(depth) is Object <==> depth % 2 == 0),
        depth > 1 ==> (mixed_spine(depth) is Object <==> mixed_spine((depth - 1) as nat) is Array),
    decreases depth,
{
    if depth > 0 {
        law_spines_are_as_deep_as_asked((depth - 1) as nat);
    }
}

} // verus!
