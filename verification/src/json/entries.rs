//! Entries that ascend by name, at most one of each name.
use crate::analyze::canon::laws;
use crate::analyze::order;
use crate::analyze::order::Order;
use vstd::prelude::*;

verus! {

/// How many of the first entries have a name before `key`.
pub open spec fn place<T>(s: Seq<(Seq<char>, T)>, key: Seq<char>) -> int
    decreases s.len(),
{
    if s.len() == 0 || order::chars_order(s[0].0, key) != Order::Less {
        0
    } else {
        1 + place(s.drop_first(), key)
    }
}

/// The entries with one more, which takes the place of one with its name.
pub open spec fn put<T>(s: Seq<(Seq<char>, T)>, key: Seq<char>, value: T) -> Seq<(Seq<char>, T)> {
    let i = place(s, key);
    if i < s.len() && s[i].0 == key {
        s.update(i, (key, value))
    } else {
        s.insert(i, (key, value))
    }
}

pub open spec fn ascending<T>(s: Seq<(Seq<char>, T)>) -> bool {
    forall|i: int, j: int|
        0 <= i < j < s.len() ==> order::chars_order(
            (#[trigger] s[i]).0,
            (#[trigger] s[j]).0,
        ) == Order::Less
}

pub proof fn lemma_place<T>(s: Seq<(Seq<char>, T)>, key: Seq<char>)
    ensures
        0 <= place(s, key) <= s.len(),
        forall|i: int|
            0 <= i < place(s, key) ==> order::chars_order((#[trigger] s[i]).0, key) == Order::Less,
        place(s, key) < s.len() ==> order::chars_order(s[place(s, key)].0, key) != Order::Less,
    decreases s.len(),
{
    if s.len() > 0 && order::chars_order(s[0].0, key) == Order::Less {
        let rest = s.drop_first();
        lemma_place(rest, key);
        assert forall|i: int| 0 <= i < place(s, key) implies order::chars_order(
            (#[trigger] s[i]).0,
            key,
        ) == Order::Less by {
            if i > 0 {
                assert(rest[i - 1] == s[i]);
            }
        }
        if place(s, key) < s.len() {
            assert(rest[place(rest, key)] == s[place(s, key)]);
        }
    }
}

/// The place is the first index whose name is not before `key`.
pub proof fn lemma_place_is<T>(s: Seq<(Seq<char>, T)>, key: Seq<char>, p: int)
    requires
        0 <= p <= s.len(),
        forall|i: int|
            0 <= i < p ==> order::chars_order((#[trigger] s[i]).0, key) == Order::Less,
        p < s.len() ==> order::chars_order(s[p].0, key) != Order::Less,
    ensures
        place(s, key) == p,
{
    lemma_place(s, key);
    let q = place(s, key);
    if q < p {
        assert(order::chars_order(s[q].0, key) == Order::Less);
    }
    if p < q {
        assert(order::chars_order(s[p].0, key) == Order::Less);
    }
}

/// Entries that ascend stay so.
pub proof fn law_entries_stay_ascending<T>(s: Seq<(Seq<char>, T)>, key: Seq<char>, value: T)
    requires
        ascending(s),
    ensures
        ascending(put(s, key, value)),
        forall|i: int|
            0 <= i < s.len() && (#[trigger] s[i]).0 != key ==> put(s, key, value).contains(s[i]),
        put(s, key, value).contains((key, value)),
{
    lemma_place(s, key);
    let p = place(s, key);
    let t = put(s, key, value);
    if p < s.len() {
        laws::lemma_chars_flip(s[p].0, key);
    }
    let replaced = p < s.len() && s[p].0 == key;
    assert(t[p] == (key, value));
    assert forall|i: int| 0 <= i < s.len() && (#[trigger] s[i]).0 != key implies t.contains(s[i]) by {
        if i < p || replaced {
            assert(t[i] == s[i]);
        } else {
            assert(t[i + 1] == s[i]);
        }
    }
    assert forall|i: int, j: int| 0 <= i < j < t.len() implies order::chars_order(
        (#[trigger] t[i]).0,
        (#[trigger] t[j]).0,
    ) == Order::Less by {
        if replaced {
            if i != p && j != p {
                assert(t[i] == s[i] && t[j] == s[j]);
            } else if i == p {
                assert(t[j] == s[j]);
                assert(order::chars_order(s[p].0, s[j].0) == Order::Less);
            } else {
                assert(t[i] == s[i]);
            }
        } else if j < p {
            assert(t[i] == s[i] && t[j] == s[j]);
        } else if j == p {
            assert(t[i] == s[i]);
        } else if i < p {
            assert(t[i] == s[i] && t[j] == s[j - 1]);
        } else if i == p {
            assert(t[j] == s[j - 1]);
            if j - 1 > p {
                assert(order::chars_order(s[p].0, s[j - 1].0) == Order::Less);
                laws::lemma_chars_transitive(key, s[p].0, s[j - 1].0);
            }
        } else {
            assert(t[i] == s[i - 1] && t[j] == s[j - 1]);
        }
    }
}

/// Nothing but the new entry comes in.
pub proof fn lemma_put_adds_one<T>(s: Seq<(Seq<char>, T)>, key: Seq<char>, value: T)
    ensures
        put(s, key, value).len() == s.len() || put(s, key, value).len() == s.len() + 1,
        put(s, key, value).len() > 0,
        forall|k: int|
            0 <= k < put(s, key, value).len() && #[trigger] put(s, key, value)[k] != (key, value)
                ==> s.contains(put(s, key, value)[k]),
{
    lemma_place(s, key);
    let p = place(s, key);
    let t = put(s, key, value);
    assert forall|k: int| 0 <= k < t.len() && #[trigger] t[k] != (key, value) implies s.contains(
        t[k],
    ) by {
        if t.len() == s.len() || k < p {
            assert(t[k] == s[k]);
        } else {
            assert(t[k] == s[k - 1]);
        }
    }
}

/// What an entry is found by.
pub trait EntryKey: Sized {
    spec fn name(&self) -> Seq<char>;

    fn text(&self) -> (r: &String)
        ensures
            r@ == self.name(),
    ;
}

impl EntryKey for String {
    open spec fn name(&self) -> Seq<char> {
        self@
    }

    fn text(&self) -> (r: &String) {
        self
    }
}

pub open spec fn listed<K: EntryKey, T: View>(v: Seq<(K, T)>) -> Seq<(Seq<char>, T::V)> {
    v.map_values(|e: (K, T)| (e.0.name(), e.1@))
}

/// Puts an entry in its place, which may be that of one with the same name.
pub fn put_entry<K: EntryKey, T: View>(v: &mut Vec<(K, T)>, key: K, value: T)
    ensures
        listed(final(v)@) == put(listed(old(v)@), key.name(), value@),
{
    let ghost start = listed(v@);
    let mut p: usize = 0;
    while p < v.len()
        invariant
            p <= v@.len(),
            start == listed(v@),
            forall|i: int|
                0 <= i < p ==> order::chars_order((#[trigger] start[i]).0, key.name())
                    == Order::Less,
        ensures
            p < v@.len() ==> order::chars_order(start[p as int].0, key.name()) != Order::Less,
        decreases v@.len() - p,
    {
        assert(start[p as int] == (v@[p as int].0.name(), v@[p as int].1@));
        if order::order_of_texts(v[p].0.text(), key.text()) != Order::Less {
            break ;
        }
        p += 1;
    }
    proof {
        lemma_place_is(start, key.name(), p as int);
        if p < v@.len() {
            laws::lemma_chars_flip(start[p as int].0, key.name());
            assert(start[p as int] == (v@[p as int].0.name(), v@[p as int].1@));
        }
    }
    let same: bool = p < v.len() && order::order_of_texts(v[p].0.text(), key.text())
        == Order::Equal;
    if same {
        v[p] = (key, value);
    } else {
        v.insert(p, (key, value));
    }
    assert(listed(v@) =~= put(start, key.name(), value@));
}

} // verus!
