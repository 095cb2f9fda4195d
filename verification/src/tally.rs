//! Counts by key, in ordered maps.
use std::collections::BTreeMap;
use vstd::prelude::*;

verus! {

/// What a map holds after one more observation of `key`, where no more than
/// `cap` keys are kept.
pub open spec fn bumped(m: Map<u32, u64>, key: u32, cap: int) -> Map<u32, u64> {
    if m.contains_key(key) {
        m.insert(key, (m[key] + 1) as u64)
    } else if m.len() < cap {
        m.insert(key, 1)
    } else {
        m
    }
}

/// The entries of a map as a sequence that ascends by key.
pub open spec fn ascending_entries(m: Map<u32, u64>, v: Seq<(u32, u64)>) -> bool {
    &&& forall|i: int, j: int| 0 <= i < j < v.len() ==> #[trigger] v[i].0 < #[trigger] v[j].0
    &&& forall|i: int|
        0 <= i < v.len() ==> m.contains_key((#[trigger] v[i]).0) && m[v[i].0] == v[i].1
    &&& forall|k: u32| #[trigger]
        m.contains_key(k) ==> exists|i: int| 0 <= i < v.len() && (#[trigger] v[i]).0 == k
}

pub proof fn lemma_bumped(m: Map<u32, u64>, key: u32, cap: int)
    requires
        m.dom().finite(),
    ensures
        bumped(m, key, cap).dom().finite(),
        m.len() <= bumped(m, key, cap).len() <= m.len() + 1,
        bumped(m, key, cap).len() <= m.len() || m.len() < cap,
{
    if m.contains_key(key) {
        assert(bumped(m, key, cap).dom() =~= m.dom());
    }
}

/// There are no more keys than there are 32-bit numbers.
pub proof fn lemma_entries_len(v: Seq<(u32, u64)>)
    requires
        forall|i: int, j: int| 0 <= i < j < v.len() ==> #[trigger] v[i].0 < #[trigger] v[j].0,
    ensures
        v.len() <= 0x1_0000_0000,
        v.len() > 0 ==> v.len() <= v.last().0 + 1,
    decreases v.len(),
{
    if v.len() > 0 {
        let front = v.drop_last();
        assert forall|i: int, j: int| 0 <= i < j < front.len() implies #[trigger] front[i].0
            < #[trigger] front[j].0 by {
            assert(v[i].0 < v[j].0);
        }
        lemma_entries_len(front);
        if front.len() > 0 {
            assert(v[v.len() - 2].0 < v[v.len() - 1].0);
        }
    }
}

/// Counts one more observation of `key`. A new key is dropped where `cap`
/// keys are there already.
pub fn bump(m: &mut BTreeMap<u32, u64>, key: u32, cap: usize)
    requires
        old(m)@.contains_key(key) ==> old(m)@[key] < u64::MAX,
    ensures
        final(m)@ == bumped(old(m)@, key, cap as int),
{
    let found: Option<u64> = match m.get(&key) {
        Some(c) => Some(*c),
        None => None,
    };
    match found {
        Some(c) => {
            m.insert(key, c + 1);
        },
        None => {
            if m.len() < cap {
                m.insert(key, 1);
            }
        },
    }
}

/// What a map holds after one more observation of `key`.
pub open spec fn counted(m: Map<u32, u64>, key: u32) -> Map<u32, u64> {
    if m.contains_key(key) {
        m.insert(key, (m[key] + 1) as u64)
    } else {
        m.insert(key, 1)
    }
}

/// Counts one more observation of `key`.
pub fn count(m: &mut BTreeMap<u32, u64>, key: u32)
    requires
        old(m)@.contains_key(key) ==> old(m)@[key] < u64::MAX,
    ensures
        final(m)@ == counted(old(m)@, key),
{
    let found: u64 = match m.get(&key) {
        Some(c) => *c,
        None => 0,
    };
    m.insert(key, found + 1);
}

/// The entries of the map, ascending by key.
pub fn entries(m: &BTreeMap<u32, u64>) -> (v: Vec<(u32, u64)>)
    ensures
        ascending_entries(m@, v@),
        v@.len() == m@.len(),
        v@.len() <= 0x1_0000_0000,
{
    let mut v: Vec<(u32, u64)> = Vec::new();
    for (k, c) in it: m.iter()
        invariant
            v@.len() == it.index(),
            forall|i: int|
                0 <= i < v@.len() ==> (#[trigger] v@[i]).0 == *it.seq()[i].0 && v@[i].1
                    == *it.seq()[i].1,
    {
        v.push((*k, *c));
    }
    proof {
        let s = vstd::std_specs::iter::IteratorSpec::remaining(
            &vstd::std_specs::btree::spec_btree_map_iter(m),
        );
        let keys = s.map_values(|kv: (&u32, &u64)| *kv.0);
        assert forall|i: int, j: int| 0 <= i < j < v@.len() implies #[trigger] v@[i].0
            < #[trigger] v@[j].0 by {
            assert(vstd::std_specs::cmp::OrdSpec::cmp_spec(&keys[i], &keys[j]) is Less);
        }
        lemma_entries_len(v@);
        assert forall|k: u32| #[trigger] m@.contains_key(k) implies exists|i: int|
            0 <= i < v@.len() && (#[trigger] v@[i]).0 == k by {
            assert(s.contains((&k, &m@[k])));
            let i = choose|i: int| 0 <= i < s.len() && s[i] == (&k, &m@[k]);
            assert(v@[i].0 == k);
        }
    }
    v
}

/// Whether every count is at least `low` and at most `high`.
pub fn all_between(m: &BTreeMap<u32, u64>, low: u64, high: u64) -> (b: bool)
    ensures
        b == (forall|k: u32| #[trigger] m@.contains_key(k) ==> low <= m@[k] <= high),
{
    let v: Vec<(u32, u64)> = entries(m);
    let mut i: usize = 0;
    while i < v.len()
        invariant
            i <= v@.len(),
            ascending_entries(m@, v@),
            forall|j: int| 0 <= j < i ==> low <= (#[trigger] v@[j]).1 <= high,
        decreases v@.len() - i,
    {
        if v[i].1 < low || v[i].1 > high {
            assert(m@.contains_key(v@[i as int].0));
            return false;
        }
        i += 1;
    }
    true
}

/// The entries of a map, ascending by key.
pub open spec fn listed(m: Map<u32, u64>) -> Seq<(u32, u64)> {
    choose|v: Seq<(u32, u64)>| ascending_entries(m, v)
}

/// The entries of a map ascend in one way only.
pub proof fn law_entries_are_unique(m: Map<u32, u64>, v: Seq<(u32, u64)>, w: Seq<(u32, u64)>)
    requires
        ascending_entries(m, v),
        ascending_entries(m, w),
    ensures
        v == w,
    decreases v.len(),
{
    if v.len() == 0 {
        if w.len() > 0 {
            assert(m.contains_key(w[0].0));
        }
        assert(v =~= w);
    } else {
        assert(m.contains_key(v[0].0));
        assert(w.len() > 0);
        let a = v.last();
        let b = w.last();
        assert(m.contains_key(v[v.len() - 1].0));
        assert(m.contains_key(w[w.len() - 1].0));
        let i = choose|i: int| 0 <= i < w.len() && (#[trigger] w[i]).0 == a.0;
        let j = choose|j: int| 0 <= j < v.len() && (#[trigger] v[j]).0 == b.0;
        assert(a.0 == b.0) by {
            if i < w.len() - 1 {
                assert(w[i].0 < w[w.len() - 1].0);
            }
            if j < v.len() - 1 {
                assert(v[j].0 < v[v.len() - 1].0);
            }
        }
        let rest = m.remove(a.0);
        lemma_entries_front(m, v);
        lemma_entries_front(m, w);
        law_entries_are_unique(rest, v.drop_last(), w.drop_last());
        assert(v =~= v.drop_last().push(a));
        assert(w =~= w.drop_last().push(b));
    }
}

/// Without its last entry, the list is that of the map without its key.
proof fn lemma_entries_front(m: Map<u32, u64>, v: Seq<(u32, u64)>)
    requires
        ascending_entries(m, v),
        v.len() > 0,
    ensures
        ascending_entries(m.remove(v.last().0), v.drop_last()),
{
    let front = v.drop_last();
    let k = v.last().0;
    let rest = m.remove(k);
    assert forall|i: int, j: int| 0 <= i < j < front.len() implies #[trigger] front[i].0
        < #[trigger] front[j].0 by {
        assert(front[i] == v[i] && front[j] == v[j]);
    }
    assert forall|i: int| 0 <= i < front.len() implies rest.contains_key((#[trigger] front[i]).0)
        && rest[front[i].0] == front[i].1 by {
        assert(front[i] == v[i]);
        assert(v[i].0 < v[v.len() - 1].0);
    }
    assert forall|x: u32| #[trigger] rest.contains_key(x) implies exists|i: int|
        0 <= i < front.len() && (#[trigger] front[i]).0 == x by {
        assert(m.contains_key(x));
        let i = choose|i: int| 0 <= i < v.len() && (#[trigger] v[i]).0 == x;
        assert(front[i] == v[i]);
    }
}

/// The list of the entries is what `listed` says.
pub proof fn lemma_listed(m: Map<u32, u64>, v: Seq<(u32, u64)>)
    requires
        ascending_entries(m, v),
    ensures
        v == listed(m),
{
    law_entries_are_unique(m, v, listed(m));
}

} // verus!
