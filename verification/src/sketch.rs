//! Space-Saving (Metwally-Agrawal-Abbadi): the heavy hitters of a stream, in
//! a bounded number of counters.
use vstd::prelude::*;

pub mod laws;

verus! {

/// A key that the sketch can compare and keep a copy of.
pub trait SketchKey: View + Sized {
    fn same(&self, other: &Self) -> (b: bool)
        ensures
            b == (self@ == other@),
    ;

    fn duplicate(&self) -> (r: Self)
        ensures
            r@ == self@,
    ;
}

impl SketchKey for u32 {
    fn same(&self, other: &Self) -> (b: bool) {
        *self == *other
    }

    fn duplicate(&self) -> (r: Self) {
        *self
    }
}

impl SketchKey for [u8; 2] {
    fn same(&self, other: &Self) -> (b: bool) {
        let b: bool = self[0] == other[0] && self[1] == other[1];
        assert(b ==> self@ =~= other@);
        b
    }

    fn duplicate(&self) -> (r: Self) {
        *self
    }
}

impl SketchKey for [u8; 3] {
    fn same(&self, other: &Self) -> (b: bool) {
        let b: bool = self[0] == other[0] && self[1] == other[1] && self[2] == other[2];
        assert(b ==> self@ =~= other@);
        b
    }

    fn duplicate(&self) -> (r: Self) {
        *self
    }
}

impl SketchKey for String {
    fn same(&self, other: &Self) -> (b: bool) {
        *self == *other
    }

    fn duplicate(&self) -> (r: Self) {
        self.clone()
    }
}

/// The counters of a sketch, in the order of their slots.
#[verifier::ext_equal]
pub struct SketchView<V> {
    pub entries: Seq<(V, u64)>,
    pub cap: int,
    pub evictions: u64,
    pub observations: u64,
}

pub open spec fn tracks<V>(entries: Seq<(V, u64)>, key: V) -> bool {
    exists|i: int| 0 <= i < entries.len() && (#[trigger] entries[i]).0 == key
}

/// The slot that counts `key`.
pub open spec fn slot_of<V>(entries: Seq<(V, u64)>, key: V) -> int {
    choose|i: int| 0 <= i < entries.len() && (#[trigger] entries[i]).0 == key
}

/// The first of the slots with the lowest count, among the first `n`.
pub open spec fn lowest_slot<V>(entries: Seq<(V, u64)>, n: int) -> int
    decreases n,
{
    if n <= 1 {
        0
    } else {
        let m = lowest_slot(entries, n - 1);
        if entries[n - 1].1 < entries[m].1 {
            n - 1
        } else {
            m
        }
    }
}

pub open spec fn total<V>(entries: Seq<(V, u64)>) -> int
    decreases entries.len(),
{
    if entries.len() == 0 {
        0
    } else {
        total(entries.drop_last()) + entries.last().1
    }
}

pub open spec fn distinct_keys<V>(entries: Seq<(V, u64)>) -> bool {
    forall|i: int, j: int|
        0 <= i < j < entries.len() ==> #[trigger] entries[i].0 != #[trigger] entries[j].0
}

impl<V> SketchView<V> {
    pub open spec fn empty(cap: int) -> SketchView<V> {
        SketchView { entries: Seq::empty(), cap, evictions: 0, observations: 0 }
    }

    /// One counter per key, no more counters than the cap allows, and every
    /// observation in exactly one of them.
    pub open spec fn wf(self) -> bool {
        &&& self.cap >= 0
        &&& self.entries.len() <= self.cap
        &&& distinct_keys(self.entries)
        &&& total(self.entries) == self.observations
        &&& self.evictions <= self.observations
        &&& forall|i: int| 0 <= i < self.entries.len() ==> (#[trigger] self.entries[i]).1 >= 1
    }

    /// One more observation. A key that is counted is counted up; a new key
    /// gets a free slot; where there is none it takes over the slot with the
    /// lowest count, and inherits that count.
    pub open spec fn observe(self, key: V) -> SketchView<V> {
        let observations = (self.observations + 1) as u64;
        if tracks(self.entries, key) {
            let i = slot_of(self.entries, key);
            SketchView {
                entries: self.entries.update(i, (key, (self.entries[i].1 + 1) as u64)),
                observations,
                ..self
            }
        } else if self.entries.len() < self.cap {
            SketchView { entries: self.entries.push((key, 1)), observations, ..self }
        } else {
            let i = lowest_slot(self.entries, self.entries.len() as int);
            SketchView {
                entries: self.entries.update(i, (key, (self.entries[i].1 + 1) as u64)),
                evictions: (self.evictions + 1) as u64,
                observations,
                ..self
            }
        }
    }

    /// The sketch of a whole stream.
    pub open spec fn of(cap: int, stream: Seq<V>) -> SketchView<V>
        decreases stream.len(),
    {
        if stream.len() == 0 {
            SketchView::empty(cap)
        } else {
            SketchView::of(cap, stream.drop_last()).observe(stream.last())
        }
    }

    /// The estimated count of a key, zero where it is not counted.
    pub open spec fn count(self, key: V) -> u64 {
        if tracks(self.entries, key) {
            self.entries[slot_of(self.entries, key)].1
        } else {
            0
        }
    }
}

pub proof fn lemma_lowest_slot<V>(entries: Seq<(V, u64)>, n: int)
    requires
        1 <= n <= entries.len(),
    ensures
        0 <= lowest_slot(entries, n) < n,
        forall|j: int|
            0 <= j < n ==> entries[lowest_slot(entries, n)].1 <= (#[trigger] entries[j]).1,
    decreases n,
{
    if n > 1 {
        lemma_lowest_slot(entries, n - 1);
    }
}

pub proof fn lemma_slot_of<V>(entries: Seq<(V, u64)>, i: int)
    requires
        distinct_keys(entries),
        0 <= i < entries.len(),
    ensures
        tracks(entries, entries[i].0),
        slot_of(entries, entries[i].0) == i,
{
}

proof fn lemma_total_push<V>(entries: Seq<(V, u64)>, e: (V, u64))
    ensures
        total(entries.push(e)) == total(entries) + e.1,
{
    assert(entries.push(e).drop_last() =~= entries);
}

proof fn lemma_total_update<V>(entries: Seq<(V, u64)>, i: int, e: (V, u64))
    requires
        0 <= i < entries.len(),
    ensures
        total(entries.update(i, e)) == total(entries) - entries[i].1 + e.1,
    decreases entries.len(),
{
    let after = entries.update(i, e);
    if i == entries.len() - 1 {
        assert(after.drop_last() =~= entries.drop_last());
    } else {
        assert(after.drop_last() =~= entries.drop_last().update(i, e));
        lemma_total_update(entries.drop_last(), i, e);
    }
}

/// No counter exceeds the sum of all.
pub proof fn lemma_total_bound<V>(entries: Seq<(V, u64)>, i: int)
    requires
        0 <= i < entries.len(),
    ensures
        entries[i].1 <= total(entries),
    decreases entries.len(),
{
    lemma_total_nonneg(entries.drop_last());
    if i < entries.len() - 1 {
        lemma_total_bound(entries.drop_last(), i);
    }
}

proof fn lemma_total_nonneg<V>(entries: Seq<(V, u64)>)
    ensures
        total(entries) >= 0,
    decreases entries.len(),
{
    if entries.len() > 0 {
        lemma_total_nonneg(entries.drop_last());
    }
}

proof fn lemma_total_prefix<V>(entries: Seq<(V, u64)>, n: int)
    requires
        0 <= n <= entries.len(),
    ensures
        total(entries.take(n)) <= total(entries),
    decreases entries.len(),
{
    if n == entries.len() {
        assert(entries.take(n) =~= entries);
    } else {
        assert(entries.drop_last().take(n) =~= entries.take(n));
        lemma_total_prefix(entries.drop_last(), n);
    }
}

/// Every observation keeps the sketch well formed.
pub proof fn lemma_observe_wf<V>(s: SketchView<V>, key: V)
    requires
        s.wf(),
        s.cap >= 1,
        s.observations < u64::MAX,
    ensures
        s.observe(key).wf(),
        s.observe(key).observations == s.observations + 1,
{
    if tracks(s.entries, key) {
        let i = slot_of(s.entries, key);
        lemma_total_bound(s.entries, i);
        lemma_total_update(s.entries, i, (key, (s.entries[i].1 + 1) as u64));
    } else if s.entries.len() < s.cap {
        lemma_total_push(s.entries, (key, 1u64));
    } else {
        let i = lowest_slot(s.entries, s.entries.len() as int);
        lemma_lowest_slot(s.entries, s.entries.len() as int);
        lemma_total_bound(s.entries, i);
        lemma_total_update(s.entries, i, (key, (s.entries[i].1 + 1) as u64));
        let after = s.observe(key).entries;
        assert forall|a: int, b: int| 0 <= a < b < after.len() implies #[trigger] after[a].0
            != #[trigger] after[b].0 by {
            if a == i {
                assert(s.entries[b].0 != key);
            } else if b == i {
                assert(s.entries[a].0 != key);
            }
        }
    }
}

/// Bounded counters; on overflow the newcomer takes the place of a key with
/// the lowest count and inherits that count.
#[derive(Debug)]
pub struct SpaceSaving<K: SketchKey> {
    counters: Vec<(K, u64)>,
    cap: usize,
    evictions: u64,
    observations: u64,
}

impl<K: SketchKey> View for SpaceSaving<K> {
    type V = SketchView<K::V>;

    closed spec fn view(&self) -> SketchView<K::V> {
        SketchView {
            entries: self.counters@.map_values(|e: (K, u64)| (e.0@, e.1)),
            cap: self.cap as int,
            evictions: self.evictions,
            observations: self.observations,
        }
    }
}

impl<K: SketchKey> SpaceSaving<K> {
    /// An empty sketch. It keeps at least one counter.
    pub fn new(cap: usize) -> (s: Self)
        ensures
            s@ == SketchView::<K::V>::empty(
                if cap == 0 {
                    1
                } else {
                    cap as int
                },
            ),
            s@.wf(),
    {
        SpaceSaving::with_cap(
            if cap == 0 {
                1
            } else {
                cap
            },
        )
    }

    /// An empty sketch with exactly that many counters. Nothing can be observed
    /// where that is none.
    pub fn with_cap(cap: usize) -> (s: Self)
        ensures
            s@ == SketchView::<K::V>::empty(cap as int),
            s@.wf(),
    {
        let counters: Vec<(K, u64)> = Vec::new();
        assert(counters@.map_values(|e: (K, u64)| (e.0@, e.1)) =~= Seq::empty());
        SpaceSaving { counters, cap, evictions: 0, observations: 0 }
    }

    /// The slot that counts `key`.
    fn find(&self, key: &K) -> (r: Option<usize>)
        requires
            self@.wf(),
        ensures
            match r {
                Some(i) => {
                    &&& i < self@.entries.len()
                    &&& self@.entries[i as int].0 == key@
                    &&& tracks(self@.entries, key@)
                    &&& slot_of(self@.entries, key@) == i
                },
                None => !tracks(self@.entries, key@),
            },
    {
        let mut i: usize = 0;
        while i < self.counters.len()
            invariant
                i <= self.counters@.len(),
                self@.wf(),
                forall|j: int| 0 <= j < i ==> (#[trigger] self@.entries[j]).0 != key@,
            decreases self.counters@.len() - i,
        {
            if self.counters[i].0.same(key) {
                proof {
                    lemma_slot_of(self@.entries, i as int);
                }
                return Some(i);
            }
            i += 1;
        }
        None
    }

    /// The first slot with the lowest count.
    fn lowest(&self) -> (r: usize)
        requires
            self@.entries.len() >= 1,
        ensures
            r < self@.entries.len(),
            r == lowest_slot(self@.entries, self@.entries.len() as int),
    {
        let mut m: usize = 0;
        let mut i: usize = 1;
        while i < self.counters.len()
            invariant
                1 <= i <= self.counters@.len(),
                m < i,
                m == lowest_slot(self@.entries, i as int),
            decreases self.counters@.len() - i,
        {
            assert(self@.entries[i as int].1 == self.counters@[i as int].1);
            assert(self@.entries[m as int].1 == self.counters@[m as int].1);
            if self.counters[i].1 < self.counters[m].1 {
                m = i;
            }
            i += 1;
        }
        m
    }

    pub fn observe(&mut self, key: K)
        requires
            old(self)@.wf(),
            old(self)@.cap >= 1,
            old(self)@.observations < u64::MAX,
        ensures
            final(self)@ == old(self)@.observe(key@),
            final(self)@.wf(),
    {
        let ghost before = self@;
        proof {
            lemma_observe_wf(before, key@);
        }
        let found = self.find(&key);
        if let Some(i) = found {
            proof {
                lemma_total_bound(self@.entries, i as int);
            }
            self.raise(i, key);
        } else if self.counters.len() < self.cap {
            let ghost k = key@;
            self.counters.push((key, 1));
            assert(self@.entries =~= before.entries.push((k, 1u64)));
        } else {
            let i: usize = self.lowest();
            proof {
                lemma_total_bound(self@.entries, i as int);
            }
            self.raise(i, key);
            self.evictions += 1;
        }
        self.observations += 1;
        assert(self@ =~= before.observe(key@));
    }

    /// Gives slot `i` to `key` and counts it up by one.
    fn raise(&mut self, i: usize, key: K)
        requires
            i < old(self)@.entries.len(),
            old(self)@.entries[i as int].1 < u64::MAX,
        ensures
            final(self)@ == (SketchView {
                entries: old(self)@.entries.update(
                    i as int,
                    (key@, (old(self)@.entries[i as int].1 + 1) as u64),
                ),
                ..old(self)@
            }),
    {
        let n: u64 = self.counters[i].1;
        self.counters[i] = (key, n + 1);
        assert(self@.entries =~= old(self)@.entries.update(
            i as int,
            (key@, (old(self)@.entries[i as int].1 + 1) as u64),
        ));
    }

    /// Estimated count. Zero for a key that was never seen *or* was evicted:
    /// the sketch over-estimates survivors and forgets the tail.
    pub fn count(&self, key: &K) -> (r: u64)
        requires
            self@.wf(),
        ensures
            r == self@.count(key@),
    {
        match self.find(key) {
            Some(i) => self.counters[i].1,
            None => 0,
        }
    }

    /// How many keys were counted, with the ones that were displaced since.
    pub fn observations(&self) -> (r: u64)
        ensures
            r == self@.observations,
    {
        self.observations
    }

    /// How many counters there are at most.
    pub fn cap(&self) -> (r: usize)
        ensures
            r == self@.cap,
    {
        self.cap
    }

    /// How many observations displaced an entry.
    pub fn evictions(&self) -> (r: u64)
        ensures
            r == self@.evictions,
    {
        self.evictions
    }

    /// The counters, highest count first; of equal counts, the earlier slot
    /// first.
    pub fn entries(&self) -> (r: Vec<(K, u64)>)
        ensures
            r@.map_values(|e: (K, u64)| (e.0@, e.1)) == by_count(self@.entries),
    {
        let mut out: Vec<(K, u64)> = Vec::new();
        let mut i: usize = 0;
        assert(out@.map_values(|e: (K, u64)| (e.0@, e.1)) =~= by_count(self@.entries.take(0)));
        while i < self.counters.len()
            invariant
                i <= self.counters@.len(),
                out@.map_values(|e: (K, u64)| (e.0@, e.1)) == by_count(
                    self@.entries.take(i as int),
                ),
            decreases self.counters@.len() - i,
        {
            let key: K = self.counters[i].0.duplicate();
            insert_entry(&mut out, (key, self.counters[i].1));
            i += 1;
            let ghost upto = self@.entries.take(i as int);
            assert(upto.drop_last() =~= self@.entries.take(i - 1));
            assert(upto.last() == (self.counters@[i - 1].0@, self.counters@[i - 1].1));
        }
        assert(self@.entries.take(i as int) =~= self@.entries);
        out
    }

    /// A sketch with the same counters.
    pub fn duplicate(&self) -> (r: Self)
        ensures
            r@ == self@,
    {
        let mut counters: Vec<(K, u64)> = Vec::new();
        let mut i: usize = 0;
        while i < self.counters.len()
            invariant
                i <= self.counters@.len(),
                counters@.len() == i,
                forall|j: int|
                    0 <= j < i ==> (#[trigger] counters@[j]).0@ == self.counters@[j].0@
                        && counters@[j].1 == self.counters@[j].1,
            decreases self.counters@.len() - i,
        {
            counters.push((self.counters[i].0.duplicate(), self.counters[i].1));
            i += 1;
        }
        let r = SpaceSaving {
            counters,
            cap: self.cap,
            evictions: self.evictions,
            observations: self.observations,
        };
        assert(r@.entries =~= self@.entries);
        r
    }

    /// The counters, in the order of their slots.
    pub fn counters(&self) -> (r: &Vec<(K, u64)>)
        ensures
            keyed(r@) == self@.entries,
    {
        &self.counters
    }

    /// A sketch with the given counters, in the order of their slots.
    pub fn from_parts(
        counters: Vec<(K, u64)>,
        cap: usize,
        evictions: u64,
        observations: u64,
    ) -> (r: Self)
        ensures
            r@ == (SketchView {
                entries: keyed(counters@),
                cap: cap as int,
                evictions,
                observations,
            }),
    {
        SpaceSaving { counters, cap, evictions, observations }
    }

    /// Whether the counters are such as a stream can leave.
    pub fn is_sound(&self) -> (b: bool)
        ensures
            b == self@.wf(),
    {
        let ghost entries = self@.entries;
        if self.counters.len() > self.cap || self.evictions > self.observations {
            return false;
        }
        let mut seen: u64 = 0;
        let mut i: usize = 0;
        assert(entries.take(0) =~= Seq::empty());
        while i < self.counters.len()
            invariant
                i <= self.counters@.len(),
                entries == self@.entries,
                entries.len() == self.counters@.len(),
                seen == total(entries.take(i as int)),
                seen <= self.observations,
                forall|k: int| 0 <= k < i ==> (#[trigger] entries[k]).1 >= 1,
                forall|k: int, j: int|
                    0 <= k < j < i ==> #[trigger] entries[k].0 != #[trigger] entries[j].0,
            decreases self.counters@.len() - i,
        {
            let count: u64 = self.counters[i].1;
            proof {
                assert(entries[i as int] == (self.counters@[i as int].0@, count));
                let upto = entries.take(i + 1);
                assert(upto.drop_last() =~= entries.take(i as int));
                assert(upto.last() == entries[i as int]);
                lemma_total_prefix(entries, i + 1);
            }
            if count == 0 || count > self.observations - seen {
                return false;
            }
            let mut j: usize = 0;
            while j < i
                invariant
                    j <= i < self.counters@.len(),
                    entries == self@.entries,
                    entries.len() == self.counters@.len(),
                    forall|k: int| 0 <= k < j ==> #[trigger] entries[k].0 != entries[i as int].0,
                decreases i - j,
            {
                assert(entries[j as int].0 == self.counters@[j as int].0@);
                assert(entries[i as int].0 == self.counters@[i as int].0@);
                if self.counters[j].0.same(&self.counters[i].0) {
                    return false;
                }
                j += 1;
            }
            seen = seen + count;
            i += 1;
        }
        assert(entries.take(i as int) =~= entries);
        seen == self.observations
    }
}

/// The sequence with `e` put behind every entry whose count is no lower.
pub open spec fn insert_by_count<V>(s: Seq<(V, u64)>, e: (V, u64)) -> Seq<(V, u64)>
    decreases s.len(),
{
    if s.len() > 0 && s.last().1 < e.1 {
        insert_by_count(s.drop_last(), e).push(s.last())
    } else {
        s.push(e)
    }
}

/// The entries by falling count; entries of equal count keep their order.
pub open spec fn by_count<V>(s: Seq<(V, u64)>) -> Seq<(V, u64)>
    decreases s.len(),
{
    if s.len() == 0 {
        s
    } else {
        insert_by_count(by_count(s.drop_last()), s.last())
    }
}

/// Counters by what their keys are.
pub open spec fn keyed<K: SketchKey>(v: Seq<(K, u64)>) -> Seq<(K::V, u64)> {
    v.map_values(|e: (K, u64)| (e.0@, e.1))
}

/// Puts a counter in its place, highest count first.
pub fn insert_entry<K: SketchKey>(v: &mut Vec<(K, u64)>, e: (K, u64))
    ensures
        keyed(final(v)@) == insert_by_count(keyed(old(v)@), (e.0@, e.1)),
{
    let mut p: usize = v.len();
    let ghost s = v@.map_values(|e: (K, u64)| (e.0@, e.1));
    let ghost g = (e.0@, e.1);
    assert(s.take(p as int) =~= s);
    assert(s.skip(p as int) =~= Seq::empty());
    assert(insert_by_count(s, g) =~= insert_by_count(s.take(p as int), g) + s.skip(p as int));
    while p > 0 && v[p - 1].1 < e.1
        invariant
            p <= v@.len(),
            v@ == old(v)@,
            s == v@.map_values(|e: (K, u64)| (e.0@, e.1)),
            g == (e.0@, e.1),
            insert_by_count(s, g) == insert_by_count(s.take(p as int), g) + s.skip(p as int),
        decreases p,
    {
        let ghost upto = s.take(p as int);
        assert(upto.drop_last() =~= s.take(p - 1));
        assert(upto.last() == s[p - 1]);
        assert(insert_by_count(upto.drop_last(), g).push(upto.last()) + s.skip(p as int)
            =~= insert_by_count(upto.drop_last(), g) + s.skip(p - 1));
        p -= 1;
    }
    let ghost upto = s.take(p as int);
    assert(p > 0 ==> upto.last() == s[p - 1]);
    v.insert(p, e);
    assert(v@.map_values(|e: (K, u64)| (e.0@, e.1)) =~= upto.push(g) + s.skip(p as int));
}

} // verus!
