//! What a Space-Saving sketch promises about the stream it has seen.
use crate::sketch;
use crate::sketch::SketchView;
use vstd::prelude::*;

verus! {

/// How often `key` occurs in a stream.
pub open spec fn frequency<V>(stream: Seq<V>, key: V) -> int
    decreases stream.len(),
{
    if stream.len() == 0 {
        0
    } else {
        frequency(stream.drop_last(), key) + (if stream.last() == key {
            1int
        } else {
            0int
        })
    }
}

proof fn lemma_frequency_nonneg<V>(stream: Seq<V>, key: V)
    ensures
        frequency(stream, key) >= 0,
    decreases stream.len(),
{
    if stream.len() > 0 {
        lemma_frequency_nonneg(stream.drop_last(), key);
    }
}

/// The memory of a sketch is bounded by its cap, no key has two counters,
/// and the counters add up to the length of the stream.
pub proof fn law_sketch_is_well_formed<V>(cap: int, stream: Seq<V>)
    requires
        cap >= 1,
        stream.len() <= u64::MAX,
    ensures
        SketchView::of(cap, stream).wf(),
        SketchView::of(cap, stream).cap == cap,
        SketchView::of(cap, stream).observations == stream.len(),
        sketch::total(SketchView::of(cap, stream).entries) == stream.len(),
    decreases stream.len(),
{
    if stream.len() > 0 {
        law_sketch_is_well_formed(cap, stream.drop_last());
        sketch::lemma_observe_wf(SketchView::of(cap, stream.drop_last()), stream.last());
    }
}

/// No counter is below the frequency of its key.
pub open spec fn not_below<V>(s: SketchView<V>, stream: Seq<V>) -> bool {
    forall|i: int|
        0 <= i < s.entries.len() ==> frequency(stream, (#[trigger] s.entries[i]).0)
            <= s.entries[i].1
}

/// No counter misses the frequency of its key by more than a counter holds;
/// while there are free slots, none misses it at all.
pub open spec fn not_far_above<V>(s: SketchView<V>, stream: Seq<V>) -> bool {
    &&& forall|i: int, j: int|
        0 <= i < s.entries.len() && 0 <= j < s.entries.len() ==> (#[trigger] s.entries[i]).1
            <= frequency(stream, s.entries[i].0) + (#[trigger] s.entries[j]).1
    &&& s.entries.len() < s.cap ==> forall|i: int|
        0 <= i < s.entries.len() ==> frequency(stream, (#[trigger] s.entries[i]).0)
            == s.entries[i].1
}

/// A key without a counter occurs no more often than any counter says; while
/// there are free slots, it does not occur.
pub open spec fn rest_is_rare<V>(s: SketchView<V>, stream: Seq<V>) -> bool {
    forall|k: V| #[trigger]
        sketch::tracks(s.entries, k) || {
            &&& s.entries.len() < s.cap ==> frequency(stream, k) == 0
            &&& forall|j: int|
                0 <= j < s.entries.len() ==> frequency(stream, k) <= (#[trigger] s.entries[j]).1
        }
}

pub open spec fn bounds_frequencies<V>(s: SketchView<V>, stream: Seq<V>) -> bool {
    not_below(s, stream) && not_far_above(s, stream) && rest_is_rare(s, stream)
}

proof fn lemma_frequency_push<V>(stream: Seq<V>, key: V, k: V)
    ensures
        frequency(stream.push(key), k) == frequency(stream, k) + (if k == key {
            1int
        } else {
            0int
        }),
        frequency(stream, k) >= 0,
{
    assert(stream.push(key).drop_last() =~= stream);
    lemma_frequency_nonneg(stream, k);
}

/// Counting up a key that has a counter.
proof fn lemma_bounds_raise<V>(s: SketchView<V>, stream: Seq<V>, key: V)
    requires
        s.wf(),
        s.cap >= 1,
        s.observations < u64::MAX,
        bounds_frequencies(s, stream),
        sketch::tracks(s.entries, key),
    ensures
        bounds_frequencies(s.observe(key), stream.push(key)),
{
    let a = s.observe(key).entries;
    let e = s.entries;
    let m = sketch::slot_of(e, key);
    sketch::lemma_total_bound(e, m);
    assert(forall|i: int| 0 <= i < e.len() && i != m ==> a[i] == #[trigger] e[i] && e[i].0 != key);
    assert(a[m].0 == key && a[m].1 == e[m].1 + 1);
    assert forall|i: int| 0 <= i < a.len() implies frequency(
        stream.push(key),
        (#[trigger] a[i]).0,
    ) == frequency(stream, e[i].0) + (a[i].1 - e[i].1) by {
        lemma_frequency_push(stream, key, a[i].0);
    }
    assert forall|i: int, j: int| 0 <= i < a.len() && 0 <= j < a.len() implies (
    #[trigger] a[i]).1 <= frequency(stream.push(key), a[i].0) + (#[trigger] a[j]).1 by {
        assert(e[i].1 <= frequency(stream, e[i].0) + e[j].1);
    }
    assert forall|k: V| #[trigger] sketch::tracks(a, k) || {
        &&& a.len() < s.cap ==> frequency(stream.push(key), k) == 0
        &&& forall|j: int|
            0 <= j < a.len() ==> frequency(stream.push(key), k) <= (#[trigger] a[j]).1
    } by {
        if !sketch::tracks(a, k) {
            if sketch::tracks(e, k) {
                assert(a[sketch::slot_of(e, k)].0 == k);
            }
            lemma_frequency_push(stream, key, k);
            assert(k != key) by {
                assert(a[m].0 == key);
            }
            assert forall|j: int| 0 <= j < a.len() implies frequency(stream.push(key), k) <= (
            #[trigger] a[j]).1 by {
                assert(frequency(stream, k) <= e[j].1);
            }
        }
    }
}

/// Giving a free slot to a new key.
proof fn lemma_bounds_insert<V>(s: SketchView<V>, stream: Seq<V>, key: V)
    requires
        s.wf(),
        bounds_frequencies(s, stream),
        !sketch::tracks(s.entries, key),
        s.entries.len() < s.cap,
    ensures
        bounds_frequencies(s.observe(key), stream.push(key)),
{
    let e = s.entries;
    let a = s.observe(key).entries;
    let n = e.len() as int;
    assert(a[n] == (key, 1u64));
    lemma_frequency_push(stream, key, key);
    assert forall|i: int| 0 <= i < a.len() implies frequency(
        stream.push(key),
        (#[trigger] a[i]).0,
    ) == a[i].1 by {
        lemma_frequency_push(stream, key, a[i].0);
        if i < n {
            assert(a[i] == e[i]);
            assert(e[i].0 != key);
        }
    }
    assert forall|k: V| #[trigger] sketch::tracks(a, k) || {
        &&& a.len() < s.cap ==> frequency(stream.push(key), k) == 0
        &&& forall|j: int|
            0 <= j < a.len() ==> frequency(stream.push(key), k) <= (#[trigger] a[j]).1
    } by {
        if !sketch::tracks(a, k) {
            if sketch::tracks(e, k) {
                assert(a[sketch::slot_of(e, k)].0 == k);
            }
            assert(k != key) by {
                assert(a[n].0 == key);
            }
            lemma_frequency_push(stream, key, k);
        }
    }
}

/// Giving the slot with the lowest count to a new key.
proof fn lemma_bounds_evict<V>(s: SketchView<V>, stream: Seq<V>, key: V)
    requires
        s.wf(),
        s.cap >= 1,
        s.observations < u64::MAX,
        bounds_frequencies(s, stream),
        !sketch::tracks(s.entries, key),
        s.entries.len() == s.cap,
    ensures
        bounds_frequencies(s.observe(key), stream.push(key)),
{
    let e = s.entries;
    let a = s.observe(key).entries;
    let m = sketch::lowest_slot(e, e.len() as int);
    sketch::lemma_lowest_slot(e, e.len() as int);
    sketch::lemma_total_bound(e, m);
    assert(a[m].0 == key && a[m].1 == e[m].1 + 1);
    assert(forall|i: int| 0 <= i < e.len() && i != m ==> a[i] == #[trigger] e[i] && e[i].0 != key);
    assert forall|j: int| 0 <= j < a.len() implies e[m].1 <= (#[trigger] a[j]).1 by {
        assert(e[m].1 <= e[j].1);
    }
    lemma_frequency_push(stream, key, key);
    assert(frequency(stream, key) <= e[m].1);
    assert forall|i: int| 0 <= i < a.len() implies frequency(
        stream.push(key),
        (#[trigger] a[i]).0,
    ) <= a[i].1 by {
        lemma_frequency_push(stream, key, a[i].0);
        assert(frequency(stream, e[i].0) <= e[i].1);
    }
    assert forall|i: int, j: int| 0 <= i < a.len() && 0 <= j < a.len() implies (
    #[trigger] a[i]).1 <= frequency(stream.push(key), a[i].0) + (#[trigger] a[j]).1 by {
        lemma_frequency_push(stream, key, a[i].0);
        assert(e[i].1 <= frequency(stream, e[i].0) + e[m].1);
    }
    assert forall|k: V| #[trigger] sketch::tracks(a, k) || {
        &&& a.len() < s.cap ==> frequency(stream.push(key), k) == 0
        &&& forall|j: int|
            0 <= j < a.len() ==> frequency(stream.push(key), k) <= (#[trigger] a[j]).1
    } by {
        if !sketch::tracks(a, k) {
            assert(k != key) by {
                assert(a[m].0 == key);
            }
            lemma_frequency_push(stream, key, k);
            if sketch::tracks(e, k) {
                let i = sketch::slot_of(e, k);
                assert(i == m) by {
                    if i != m {
                        assert(a[i].0 == k);
                    }
                }
                assert(frequency(stream, e[m].0) <= e[m].1);
            } else {
                assert(frequency(stream, k) <= e[m].1);
            }
        }
    }
}

proof fn lemma_bounds_step<V>(s: SketchView<V>, stream: Seq<V>, key: V)
    requires
        s.wf(),
        s.cap >= 1,
        s.observations < u64::MAX,
        bounds_frequencies(s, stream),
    ensures
        bounds_frequencies(s.observe(key), stream.push(key)),
{
    if sketch::tracks(s.entries, key) {
        lemma_bounds_raise(s, stream, key);
    } else if s.entries.len() < s.cap {
        lemma_bounds_insert(s, stream, key);
    } else {
        lemma_bounds_evict(s, stream, key);
    }
}

proof fn lemma_bounds<V>(cap: int, stream: Seq<V>)
    requires
        cap >= 1,
        stream.len() <= u64::MAX,
    ensures
        bounds_frequencies(SketchView::of(cap, stream), stream),
    decreases stream.len(),
{
    if stream.len() > 0 {
        law_sketch_is_well_formed(cap, stream.drop_last());
        lemma_bounds(cap, stream.drop_last());
        lemma_bounds_step(SketchView::of(cap, stream.drop_last()), stream.drop_last(), stream.last());
        assert(stream.drop_last().push(stream.last()) =~= stream);
    }
}

/// A key that is counted is never under-estimated, and over-estimated by no
/// more than any other counter holds.
pub proof fn law_survivors_are_not_underestimated<V>(cap: int, stream: Seq<V>, key: V, j: int)
    requires
        cap >= 1,
        stream.len() <= u64::MAX,
        sketch::tracks(SketchView::of(cap, stream).entries, key),
        0 <= j < SketchView::of(cap, stream).entries.len(),
    ensures
        frequency(stream, key) <= SketchView::of(cap, stream).count(key),
        SketchView::of(cap, stream).count(key) <= frequency(stream, key) + SketchView::of(
            cap,
            stream,
        ).entries[j].1,
{
    lemma_bounds(cap, stream);
    let s = SketchView::of(cap, stream);
    let i = sketch::slot_of(s.entries, key);
    assert(s.entries[i].0 == key);
}

/// A key without a counter occurs no more often than any counter says; while
/// there are free slots, it has not occurred.
pub proof fn law_untracked_keys_are_rare<V>(cap: int, stream: Seq<V>, key: V, j: int)
    requires
        cap >= 1,
        stream.len() <= u64::MAX,
        !sketch::tracks(SketchView::of(cap, stream).entries, key),
    ensures
        0 <= j < SketchView::of(cap, stream).entries.len() ==> frequency(stream, key)
            <= SketchView::of(cap, stream).entries[j].1,
        SketchView::of(cap, stream).entries.len() < cap ==> frequency(stream, key) == 0,
{
    law_sketch_is_well_formed(cap, stream);
    lemma_bounds(cap, stream);
}

proof fn lemma_tracked_keys_occur<V>(cap: int, stream: Seq<V>)
    requires
        cap >= 1,
        stream.len() <= u64::MAX,
    ensures
        forall|i: int|
            0 <= i < SketchView::of(cap, stream).entries.len() ==> stream.contains(
                (#[trigger] SketchView::of(cap, stream).entries[i]).0,
            ),
    decreases stream.len(),
{
    if stream.len() > 0 {
        let front = stream.drop_last();
        let before = SketchView::of(cap, front).entries;
        let after = SketchView::of(cap, stream).entries;
        law_sketch_is_well_formed(cap, front);
        lemma_tracked_keys_occur(cap, front);
        let key = stream.last();
        if sketch::tracks(before, key) {
            assert(0 <= sketch::slot_of(before, key) < before.len());
        } else if before.len() >= cap {
            sketch::lemma_lowest_slot(before, before.len() as int);
        }
        assert forall|i: int| 0 <= i < after.len() implies stream.contains(
            (#[trigger] after[i]).0,
        ) by {
            if after[i].0 == stream.last() {
                assert(stream[stream.len() - 1] == after[i].0);
            } else {
                assert(i < before.len() && after[i].0 == before[i].0);
                let k = choose|k: int| 0 <= k < front.len() && front[k] == before[i].0;
                assert(stream[k] == after[i].0);
            }
        }
    }
}

proof fn lemma_frequency_of_absent<V>(stream: Seq<V>, key: V)
    requires
        frequency(stream, key) == 0,
    ensures
        !stream.contains(key),
    decreases stream.len(),
{
    if stream.len() > 0 {
        lemma_frequency_nonneg(stream.drop_last(), key);
        lemma_frequency_of_absent(stream.drop_last(), key);
        assert forall|k: int| 0 <= k < stream.len() implies stream[k] != key by {
            if k < stream.len() - 1 {
                assert(stream.drop_last()[k] == stream[k]);
            }
        }
    }
}

/// A sketch has a counter for each distinct key of the stream, or as many as
/// its cap where there are more.
pub proof fn law_counters_are_capped_distinct_keys<V>(cap: int, stream: Seq<V>)
    requires
        cap >= 1,
        stream.len() <= u64::MAX,
    ensures
        SketchView::of(cap, stream).entries.len() == if stream.to_set().len() < cap {
            stream.to_set().len() as int
        } else {
            cap
        },
{
    let entries = SketchView::of(cap, stream).entries;
    let keys = Seq::new(entries.len(), |i: int| entries[i].0);
    law_sketch_is_well_formed(cap, stream);
    lemma_tracked_keys_occur(cap, stream);
    keys.unique_seq_to_set();
    vstd::seq_lib::seq_to_set_is_finite(stream);
    assert forall|k: V| keys.to_set().contains(k) implies stream.to_set().contains(k) by {
        let i = choose|i: int| 0 <= i < keys.len() && keys[i] == k;
        assert(entries[i].0 == k);
    }
    vstd::set_lib::lemma_len_subset(keys.to_set(), stream.to_set());
    if entries.len() < cap {
        assert forall|k: V| stream.to_set().contains(k) implies keys.to_set().contains(k) by {
            if !sketch::tracks(entries, k) {
                law_untracked_keys_are_rare(cap, stream, k, 0);
                lemma_frequency_of_absent(stream, k);
            }
            let i = sketch::slot_of(entries, k);
            assert(keys[i] == k);
        }
        assert(keys.to_set() =~= stream.to_set());
    }
}

/// As long as there are no more distinct keys than counters, the counts are
/// exact.
pub proof fn law_counts_are_exact_below_the_cap<V>(cap: int, stream: Seq<V>, key: V)
    requires
        cap >= 1,
        stream.len() <= u64::MAX,
        SketchView::of(cap, stream).entries.len() < cap,
    ensures
        SketchView::of(cap, stream).count(key) == frequency(stream, key),
{
    lemma_bounds(cap, stream);
    law_sketch_is_well_formed(cap, stream);
    let s = SketchView::of(cap, stream);
    if sketch::tracks(s.entries, key) {
        let i = sketch::slot_of(s.entries, key);
        assert(s.entries[i].0 == key);
    }
}

proof fn lemma_total_at_least<V>(entries: Seq<(V, u64)>, least: int)
    requires
        forall|j: int| 0 <= j < entries.len() ==> least <= (#[trigger] entries[j]).1,
    ensures
        sketch::total(entries) >= least * entries.len(),
    decreases entries.len(),
{
    if entries.len() > 0 {
        let front = entries.drop_last();
        assert forall|j: int| 0 <= j < front.len() implies least <= (#[trigger] front[j]).1 by {
            assert(front[j] == entries[j]);
        }
        lemma_total_at_least(front, least);
        let n = front.len() as int;
        assert(entries[entries.len() - 1].1 >= least);
        assert(least * (n + 1) == least * n + least) by (nonlinear_arith);
    } else {
        assert(least * 0 == 0);
    }
}

/// The heavy hitters survive: a key that makes up more than one part in
/// `cap` of the stream has a counter.
pub proof fn law_heavy_hitters_survive<V>(cap: int, stream: Seq<V>, key: V)
    requires
        cap >= 1,
        stream.len() <= u64::MAX,
        frequency(stream, key) * cap > stream.len(),
    ensures
        sketch::tracks(SketchView::of(cap, stream).entries, key),
{
    lemma_bounds(cap, stream);
    law_sketch_is_well_formed(cap, stream);
    let s = SketchView::of(cap, stream);
    let f = frequency(stream, key);
    if !sketch::tracks(s.entries, key) {
        if s.entries.len() < cap {
            assert(f == 0);
            assert(0 * cap == 0);
        } else {
            assert forall|j: int| 0 <= j < s.entries.len() implies f <= (#[trigger] s.entries[j]).1 by {
                assert(frequency(stream, key) <= s.entries[j].1);
            }
            lemma_total_at_least(s.entries, f);
        }
    }
}

/// What `by_count` does to the order: nothing is lost or added, and the
/// counts fall.
pub proof fn law_entries_are_ranked<V>(s: Seq<(V, u64)>)
    ensures
        sketch::by_count(s).to_multiset() == s.to_multiset(),
        forall|i: int, j: int|
            0 <= i < j < s.len() ==> (#[trigger] sketch::by_count(s)[i]).1 >= (
            #[trigger] sketch::by_count(s)[j]).1,
        sketch::by_count(s).len() == s.len(),
    decreases s.len(),
{
    if s.len() > 0 {
        law_entries_are_ranked(s.drop_last());
        lemma_insert_ranked(sketch::by_count(s.drop_last()), s.last());
        assert(s =~= s.drop_last().push(s.last()));
        s.drop_last().to_multiset_ensures();
    }
}

proof fn lemma_insert_ranked<V>(s: Seq<(V, u64)>, e: (V, u64))
    requires
        forall|i: int, j: int| 0 <= i < j < s.len() ==> (#[trigger] s[i]).1 >= (#[trigger] s[j]).1,
    ensures
        sketch::insert_by_count(s, e).len() == s.len() + 1,
        sketch::insert_by_count(s, e).to_multiset() == s.to_multiset().insert(e),
        forall|i: int, j: int|
            0 <= i < j <= s.len() ==> (#[trigger] sketch::insert_by_count(s, e)[i]).1 >= (
            #[trigger] sketch::insert_by_count(s, e)[j]).1,
        forall|i: int|
            0 <= i <= s.len() ==> (#[trigger] sketch::insert_by_count(s, e)[i]).1 == e.1 || exists|
                k: int,
            |
                0 <= k < s.len() && s[k] == sketch::insert_by_count(s, e)[i],
    decreases s.len(),
{
    s.to_multiset_ensures();
    if s.len() > 0 && s.last().1 < e.1 {
        let front = s.drop_last();
        lemma_insert_ranked(front, e);
        let t = sketch::insert_by_count(front, e);
        t.to_multiset_ensures();
        front.to_multiset_ensures();
        assert(s =~= front.push(s.last()));
        assert(t.push(s.last()).to_multiset() =~= s.to_multiset().insert(e));
        assert forall|i: int| 0 <= i < t.len() implies (#[trigger] t[i]).1 >= s.last().1 by {
            if t[i].1 != e.1 {
                let k = choose|k: int| 0 <= k < front.len() && front[k] == t[i];
                assert(s[k].1 >= s[s.len() - 1].1);
            }
        }
        assert forall|i: int| 0 <= i <= s.len() implies (#[trigger] t.push(s.last())[i]).1 == e.1
            || exists|k: int| 0 <= k < s.len() && s[k] == t.push(s.last())[i] by {
            if i < t.len() {
                if t[i].1 != e.1 {
                    let k = choose|k: int| 0 <= k < front.len() && front[k] == t[i];
                    assert(s[k] == t.push(s.last())[i]);
                }
            } else {
                assert(s[s.len() - 1] == t.push(s.last())[i]);
            }
        }
    } else {
        assert forall|i: int| 0 <= i <= s.len() implies (#[trigger] s.push(e)[i]).1 == e.1 || exists|
            k: int,
        |
            0 <= k < s.len() && s[k] == s.push(e)[i] by {
            if i < s.len() {
                assert(s[i] == s.push(e)[i]);
            }
        }
    }
}

/// While there are free counters, every key that occurs has one.
pub proof fn law_untracked_keys_occur_not<V>(cap: int, stream: Seq<V>, key: V, i: int)
    requires
        cap >= 1,
        stream.len() <= u64::MAX,
        SketchView::of(cap, stream).entries.len() < cap,
        0 <= i < stream.len(),
        stream[i] == key,
    ensures
        sketch::tracks(SketchView::of(cap, stream).entries, key),
{
    if !sketch::tracks(SketchView::of(cap, stream).entries, key) {
        law_untracked_keys_are_rare(cap, stream, key, 0);
        lemma_frequency_of_absent(stream, key);
    }
}

} // verus!
