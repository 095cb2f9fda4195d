//! What a summary and a run tell: names, lists, kinds and reasons to stop.
use crate::analyze::arena::{NodeView, ObjectView};
use crate::analyze::figures;
use crate::analyze::machine::State;
use crate::analyze::summary;
use crate::analyze::tokens;
use crate::analyze::tokens::TokenView;
use vstd::arithmetic::power2::pow2;
use vstd::prelude::*;

verus! {

// ---------------------------------------------------------------------
// Names
// ---------------------------------------------------------------------

proof fn lemma_names(arena: Seq<NodeView>, o: ObjectView, always: bool, k: int)
    requires
        0 <= k <= o.fields.len(),
    ensures
        forall|i: int|
            0 <= i < k && (arena[(#[trigger] o.fields[i]).1].obs >= o.obs) == always
                ==> summary::names_where(arena, o, always, k).contains(o.fields[i].0),
        forall|j: int|
            0 <= j < summary::names_where(arena, o, always, k).len() ==> exists|i: int|
                0 <= i < k && (#[trigger] o.fields[i]).0 == #[trigger] summary::names_where(
                    arena,
                    o,
                    always,
                    k,
                )[j] && (arena[o.fields[i].1].obs >= o.obs) == always,
        summary::names_where(arena, o, true, k).len() + summary::names_where(arena, o, false, k).len()
            == k,
    decreases k,
{
    if k > 0 {
        lemma_names(arena, o, always, k - 1);
        let before = summary::names_where(arena, o, always, k - 1);
        let all = summary::names_where(arena, o, always, k);
        let n = before.len() as int;
        assert forall|i: int|
            0 <= i < k && (arena[(#[trigger] o.fields[i]).1].obs >= o.obs) == always implies all.contains(
            o.fields[i].0,
        ) by {
            if i < k - 1 {
                let j = choose|j: int| 0 <= j < before.len() && before[j] == o.fields[i].0;
                assert(all[j] == o.fields[i].0);
            } else {
                assert(all[n] == o.fields[i].0);
            }
        }
        assert forall|j: int| 0 <= j < all.len() implies exists|i: int|
            0 <= i < k && (#[trigger] o.fields[i]).0 == #[trigger] all[j] && (
            arena[o.fields[i].1].obs >= o.obs) == always by {
            if j < n {
                assert(before[j] == all[j]);
                let i = choose|i: int|
                    0 <= i < k - 1 && (#[trigger] o.fields[i]).0 == before[j] && (
                    arena[o.fields[i].1].obs >= o.obs) == always;
                assert(o.fields[i].0 == all[j]);
            } else {
                assert(o.fields[k - 1].0 == all[j]);
            }
        }
    }
}

/// Every field of a record is named once, among the required ones where all
/// the objects had it, and among the optional ones where some had it not.
pub proof fn law_fields_are_required_or_optional(arena: Seq<NodeView>, o: ObjectView, i: int)
    requires
        0 <= i < o.fields.len(),
    ensures
        ({
            let n = o.fields.len() as int;
            let required = summary::names_where(arena, o, true, n);
            let optional = summary::names_where(arena, o, false, n);
            let (name, child) = o.fields[i];
            &&& required.len() + optional.len() == n
            &&& arena[child].obs >= o.obs ==> required.contains(name)
            &&& arena[child].obs < o.obs ==> optional.contains(name)
        }),
{
    let n = o.fields.len() as int;
    lemma_names(arena, o, true, n);
    lemma_names(arena, o, false, n);
}

// ---------------------------------------------------------------------
// Lists
// ---------------------------------------------------------------------

proof fn lemma_joined_prefix(v: Seq<Seq<char>>, w: Seq<Seq<char>>, sep: Seq<char>, k: int)
    requires
        0 <= k <= v.len(),
        k <= w.len(),
        forall|i: int| 0 <= i < k ==> v[i] == #[trigger] w[i],
    ensures
        tokens::joined(v, sep, k) == tokens::joined(w, sep, k),
    decreases k,
{
    if k > 1 {
        lemma_joined_prefix(v, w, sep, k - 1);
        assert(v[k - 1] == w[k - 1]);
    } else if k == 1 {
        assert(v[0] == w[0]);
    }
}

/// A list of one is its item. A longer list is what it starts with, a
/// separator, and what it ends with.
pub proof fn law_lists_are_joined(a: Seq<Seq<char>>, b: Seq<Seq<char>>, sep: Seq<char>)
    requires
        a.len() > 0,
        b.len() > 0,
    ensures
        a.len() == 1 ==> tokens::joined(a, sep, 1) == a[0],
        tokens::joined(a + b, sep, (a + b).len() as int) == tokens::joined(a, sep, a.len() as int)
            + sep + tokens::joined(b, sep, b.len() as int),
    decreases b.len(),
{
    let all = a + b;
    let n = all.len() as int;
    let m = b.len() as int;
    assert(all[n - 1] == b[m - 1]);
    if m == 1 {
        lemma_joined_prefix(all, a, sep, a.len() as int);
        assert(b[0] == b[m - 1]);
    } else {
        let front = b.drop_last();
        law_lists_are_joined(a, front, sep);
        lemma_joined_prefix(all, a + front, sep, n - 1);
        lemma_joined_prefix(b, front, sep, m - 1);
        assert(tokens::joined(all, sep, n) =~= tokens::joined(a, sep, a.len() as int) + sep
            + tokens::joined(b, sep, m));
    }
}

/// A list that is not too long is told whole; of a longer one, as many items
/// as there may be are told, and how many more there are.
pub proof fn law_long_lists_say_how_many_more(items: Seq<Seq<char>>, limit: int)
    requires
        limit >= 0,
    ensures
        items.len() <= limit ==> tokens::truncated(items, limit) == seq![
            TokenView::Text(tokens::joined(items, ", "@, items.len() as int)),
        ],
        items.len() > limit ==> ({
            let t = tokens::truncated(items, limit);
            &&& t[0] == TokenView::Text(tokens::joined(items, ", "@, limit))
            &&& exists|i: int|
                0 < i < t.len() && #[trigger] t[i] == tokens::num(items.len() - limit)
        }),
{
    if items.len() > limit {
        let t = tokens::truncated(items, limit);
        assert(t[2] == tokens::num(items.len() - limit));
    }
}

/// A summary says how many documents there were.
pub proof fn law_summaries_say_how_many_documents(arena: Seq<NodeView>, doc_count: u64)
    ensures
        doc_count > 0 ==> summary::summary_tokens(arena, doc_count)[1] == tokens::num(
            doc_count as int,
        ),
{
}

// ---------------------------------------------------------------------
// Kinds
// ---------------------------------------------------------------------

/// What was seen at a node is named by its kinds: scalars, objects and
/// arrays, those that were seen and no other.
pub proof fn law_kinds_are_named(n: NodeView)
    ensures
        summary::kinds_at(n).contains("scalar"@) <==> n.has_scalars(),
        summary::kinds_at(n).contains("object"@) <==> n.object is Some,
        summary::kinds_at(n).contains("array"@) <==> n.array is Some,
        summary::kinds_at(n).len() <= 3,
{
    reveal_strlit("scalar");
    reveal_strlit("object");
    reveal_strlit("array");
    assert("scalar"@.len() == 6 && "object"@.len() == 6 && "array"@.len() == 5);
    assert("scalar"@[0] == 's' && "object"@[0] == 'o');
    let k = summary::kinds_at(n);
    if n.has_scalars() {
        assert(k[0] == "scalar"@);
    }
    if n.object is Some {
        assert(k[if n.has_scalars() {
            1int
        } else {
            0
        }] == "object"@);
    }
    if n.array is Some {
        assert(k[k.len() - 1] == "array"@);
    }
}

// ---------------------------------------------------------------------
// Reasons to stop
// ---------------------------------------------------------------------

/// A run is to stop where it has had as many documents as the policy allows;
/// and, once it has had as many as the policy waits for, where more clusters
/// were evicted for each document than the policy allows. It is to stop for no
/// other reason.
pub proof fn law_runs_stop_as_the_policy_says(s: State)
    ensures
        s.bail_reason() is Some <==> {
            ||| s.policy.max_docs matches Some(most) && s.doc_count >= most
            ||| s.policy.max_eviction_rate matches Some(rate) && s.doc_count
                >= s.policy.min_docs_before_bail && s.evictions * rate.den > rate.num * s.doc_count
        },
        (s.policy.max_docs is None && s.policy.max_eviction_rate is None) ==> s.bail_reason() is None,
{
}

// ---------------------------------------------------------------------
// Figures
// ---------------------------------------------------------------------

/// What was seen is listed with its count, in the order of its place, and what
/// was not seen is left out.
pub proof fn law_what_was_seen_is_listed(counts: Seq<u64>, k: int, i: int)
    requires
        0 <= i < k <= counts.len() <= u32::MAX,
    ensures
        counts[i] > 0 ==> figures::seen(counts, k).contains((i as u32, counts[i])),
        forall|j: int|
            0 <= j < figures::seen(counts, k).len() ==> {
                let (place, count) = #[trigger] figures::seen(counts, k)[j];
                place < k && count > 0 && count == counts[place as int]
            },
        forall|a: int, b: int|
            0 <= a < b < figures::seen(counts, k).len() ==> (#[trigger] figures::seen(
                counts,
                k,
            )[a]).0 < (#[trigger] figures::seen(counts, k)[b]).0,
    decreases k,
{
    let all = figures::seen(counts, k);
    let before = figures::seen(counts, k - 1);
    if k == 1 {
        assert(before.len() == 0);
        if counts[0] > 0 {
            assert(all[0] == (0u32, counts[0]));
        }
    } else {
        let m = if i < k - 1 {
            i
        } else {
            0
        };
        law_what_was_seen_is_listed(counts, k - 1, m);
        if counts[i] > 0 {
            if i < k - 1 {
                let j = choose|j: int| 0 <= j < before.len() && before[j] == (i as u32, counts[i]);
                assert(all[j] == (i as u32, counts[i]));
            } else {
                assert(all[before.len() as int] == (i as u32, counts[i]));
            }
        }
    }
}

/// The classes of lengths are told by the powers of two that bound them.
pub proof fn law_classes_are_bounded_by_powers_of_two(k: nat)
    ensures
        figures::doubled(k as int) == pow2(k),
    decreases k,
{
    vstd::arithmetic::power2::lemma2_to64();
    if k > 0 {
        law_classes_are_bounded_by_powers_of_two((k - 1) as nat);
        vstd::arithmetic::power2::lemma_pow2_unfold(k);
    }
}

} // verus!
