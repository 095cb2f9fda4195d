//! Distribution sketches: a relative-error log-bucket sketch of numbers.
//!
//! Positive, zero and negative values are recorded separately, in buckets
//! that grow with the magnitude. Memory is bounded by `cap` buckets across
//! both halves; on overflow the bucket with the lowest count is evicted,
//! which trades tail fidelity for bounded space.
use crate::double::Double;
use crate::tally;
use std::collections::BTreeMap;
use vstd::prelude::*;

verus! {

pub const DIST_CAP: usize = 256;

// ---------------------------------------------------------------------
// Buckets
// ---------------------------------------------------------------------

/// How many of the bounds are below a magnitude.
pub open spec fn bounds_below(bounds: Seq<u64>, m: int) -> int
    decreases bounds.len(),
{
    if bounds.len() == 0 {
        0
    } else {
        bounds_below(bounds.drop_last(), m) + (if bounds.last() < m {
            1int
        } else {
            0int
        })
    }
}

/// The upper bounds of the buckets, as magnitudes, ascending. A magnitude is
/// in the bucket whose bound is the first that it does not exceed.
#[derive(Debug)]
pub struct Buckets {
    bounds: Vec<u64>,
}

impl View for Buckets {
    type V = Seq<u64>;

    closed spec fn view(&self) -> Seq<u64> {
        self.bounds@
    }
}

pub open spec fn ascending(s: Seq<u64>) -> bool {
    forall|i: int, j: int| 0 <= i < j < s.len() ==> #[trigger] s[i] <= #[trigger] s[j]
}

impl Buckets {
    pub open spec fn wf(self) -> bool {
        ascending(self@) && self@.len() <= u32::MAX
    }

    pub fn new(bounds: Vec<u64>) -> (b: Buckets)
        requires
            ascending(bounds@),
            bounds@.len() <= u32::MAX,
        ensures
            b@ == bounds@,
            b.wf(),
    {
        Buckets { bounds }
    }

    /// The number of the bucket of a magnitude.
    pub fn index(&self, m: u64) -> (k: u32)
        requires
            self.wf(),
        ensures
            k == bounds_below(self@, m as int),
    {
        let mut lo: usize = 0;
        let mut hi: usize = self.bounds.len();
        while lo < hi
            invariant
                lo <= hi <= self.bounds@.len(),
                ascending(self.bounds@),
                forall|i: int| 0 <= i < lo ==> #[trigger] self.bounds@[i] < m,
                forall|i: int| hi <= i < self.bounds@.len() ==> #[trigger] self.bounds@[i] >= m,
            decreases hi - lo,
        {
            let mid: usize = lo + (hi - lo) / 2;
            if self.bounds[mid] < m {
                lo = mid + 1;
            } else {
                hi = mid;
            }
        }
        proof {
            lemma_bounds_below(self.bounds@, m as int, lo as int);
        }
        lo as u32
    }
}

proof fn lemma_bounds_below(s: Seq<u64>, m: int, p: int)
    requires
        0 <= p <= s.len(),
        forall|i: int| 0 <= i < p ==> #[trigger] s[i] < m,
        forall|i: int| p <= i < s.len() ==> #[trigger] s[i] >= m,
    ensures
        bounds_below(s, m) == p,
    decreases s.len(),
{
    if s.len() > 0 {
        if p == s.len() {
            assert(s[p - 1] < m);
            lemma_bounds_below(s.drop_last(), m, p - 1);
        } else {
            assert(s[s.len() - 1] >= m);
            lemma_bounds_below(s.drop_last(), m, p);
        }
    }
}

// ---------------------------------------------------------------------
// The sketch
// ---------------------------------------------------------------------

#[verifier::ext_equal]
pub struct DistView {
    pub cap: int,
    pub pos: Map<u32, u64>,
    pub neg: Map<u32, u64>,
    pub zero_count: u64,
    pub count: u64,
    pub min: Double,
    pub max: Double,
}

/// `k` has the lowest count, and is the smallest such key.
pub open spec fn is_least(m: Map<u32, u64>, k: u32) -> bool {
    &&& m.contains_key(k)
    &&& forall|j: u32| #[trigger]
        m.contains_key(j) ==> m[k] < m[j] || (m[k] == m[j] && k <= j)
}

pub open spec fn least_of(m: Map<u32, u64>) -> u32 {
    choose|k: u32| is_least(m, k)
}

pub open spec fn positive_infinity() -> Double {
    Double { bits: 0x7ff0_0000_0000_0000 }
}

pub open spec fn negative_infinity() -> Double {
    Double { bits: 0xfff0_0000_0000_0000 }
}

pub open spec fn lower(a: Double, b: Double) -> Double {
    if a.lt(b) {
        a
    } else {
        b
    }
}

pub open spec fn higher(a: Double, b: Double) -> Double {
    if b.lt(a) {
        a
    } else {
        b
    }
}

impl DistView {
    pub open spec fn empty(cap: int) -> DistView {
        DistView {
            cap,
            pos: Map::empty(),
            neg: Map::empty(),
            zero_count: 0,
            count: 0,
            min: positive_infinity(),
            max: negative_infinity(),
        }
    }

    /// The sketch with one bucket fewer: of the two halves' lowest buckets
    /// the lower one goes, and of equals the positive one.
    pub open spec fn evicted(self) -> DistView {
        let p = least_of(self.pos);
        let n = least_of(self.neg);
        if self.pos.len() > 0 && (self.neg.len() == 0 || self.pos[p] <= self.neg[n]) {
            DistView { pos: self.pos.remove(p), ..self }
        } else if self.neg.len() > 0 {
            DistView { neg: self.neg.remove(n), ..self }
        } else {
            self
        }
    }

    /// The sketch with one more value.
    pub open spec fn observe(self, v: Double, bounds: Seq<u64>) -> DistView {
        if !v.finite() {
            self
        } else {
            let s = DistView {
                count: (self.count + 1) as u64,
                min: lower(v, self.min),
                max: higher(v, self.max),
                ..self
            };
            let key = bounds_below(bounds, v.magnitude()) as u32;
            if v.rank() == 0 {
                DistView { zero_count: (s.zero_count + 1) as u64, ..s }
            } else {
                let t = if v.rank() > 0 {
                    DistView { pos: tally::bumped(s.pos, key, self.cap + 1), ..s }
                } else {
                    DistView { neg: tally::bumped(s.neg, key, self.cap + 1), ..s }
                };
                if t.pos.len() + t.neg.len() > t.cap {
                    t.evicted()
                } else {
                    t
                }
            }
        }
    }

    pub open spec fn wf(self) -> bool {
        &&& 0 <= self.cap < usize::MAX / 2
        &&& self.pos.dom().finite()
        &&& self.neg.dom().finite()
        &&& self.pos.len() + self.neg.len() <= self.cap
        &&& self.zero_count <= self.count
        &&& forall|k: u32| #[trigger] self.pos.contains_key(k) ==> self.pos[k] <= self.count
        &&& forall|k: u32| #[trigger] self.neg.contains_key(k) ==> self.neg[k] <= self.count
    }
}

/// The sum of the counts of the keys from `lo` up to `hi`.
pub open spec fn mass(m: Map<u32, u64>, lo: int, hi: int) -> int
    decreases hi - lo,
{
    if hi <= lo {
        0
    } else {
        mass(m, lo, hi - 1) + (if m.contains_key((hi - 1) as u32) {
            m[(hi - 1) as u32] as int
        } else {
            0
        })
    }
}

pub const KEYS: u64 = 0x1_0000_0000;

pub open spec fn total_mass(m: Map<u32, u64>) -> int {
    mass(m, 0, KEYS as int)
}

/// Where a quantile lies.
#[derive(Clone, Copy, Debug, PartialEq, Eq, Structural)]
pub enum Quantile {
    /// In a bucket of negative values.
    Negative(u32),
    Zero,
    /// In a bucket of positive values.
    Positive(u32),
    /// Behind every bucket: the largest value stands for it.
    Largest,
}

impl DistView {
    /// `q` is where the value of the given rank lies, counted from the lowest
    /// value up.
    pub open spec fn holds_rank(self, rank: int, q: Quantile) -> bool {
        let below_zero = total_mass(self.neg);
        match q {
            Quantile::Negative(k) => {
                let before = mass(self.neg, k + 1, KEYS as int);
                self.neg.contains_key(k) && before < rank <= before + self.neg[k]
            },
            Quantile::Zero => below_zero < rank <= below_zero + self.zero_count,
            Quantile::Positive(k) => {
                let before = below_zero + self.zero_count + mass(self.pos, 0, k as int);
                self.pos.contains_key(k) && before < rank <= before + self.pos[k]
            },
            Quantile::Largest => below_zero + self.zero_count + total_mass(self.pos) < rank,
        }
    }
}

impl DistView {
    /// Where the quantile `num / den` lies: at the value of its rank. There is
    /// none where there are no values.
    pub open spec fn quantile(self, num: int, den: int) -> Option<Quantile> {
        if self.count == 0 {
            None
        } else {
            let rank = quantile_rank(self.count as int, num, den);
            Some(choose|p: Quantile| #[trigger] self.holds_rank(rank, p))
        }
    }
}

/// The rank of a quantile among `count` values: the share `num / den` of
/// them, rounded up, but at least one.
pub open spec fn quantile_rank(count: int, num: int, den: int) -> int {
    let r = (num * count + den - 1) / den;
    if r < 1 {
        1
    } else {
        r
    }
}

proof fn lemma_mass_gap(m: Map<u32, u64>, lo: int, hi: int)
    requires
        0 <= lo <= hi <= KEYS,
        forall|k: u32| lo <= k < hi ==> !#[trigger] m.contains_key(k),
    ensures
        mass(m, lo, hi) == 0,
    decreases hi - lo,
{
    if lo < hi {
        assert(!m.contains_key((hi - 1) as u32));
        lemma_mass_gap(m, lo, hi - 1);
    }
}

pub proof fn lemma_mass_split(m: Map<u32, u64>, lo: int, mid: int, hi: int)
    requires
        lo <= mid <= hi,
    ensures
        mass(m, lo, hi) == mass(m, lo, mid) + mass(m, mid, hi),
    decreases hi - mid,
{
    if mid < hi {
        lemma_mass_split(m, lo, mid, hi - 1);
    }
}

/// From one key to the next, the mass grows by the count of the first.
proof fn lemma_mass_next(m: Map<u32, u64>, lo: int, k: u32, next: int)
    requires
        0 <= lo <= k < next <= KEYS,
        m.contains_key(k),
        forall|j: u32| k < j < next ==> !#[trigger] m.contains_key(j),
    ensures
        mass(m, lo, next) == mass(m, lo, k as int) + m[k],
{
    lemma_mass_split(m, lo, k + 1, next);
    lemma_mass_gap(m, k + 1, next);
}

proof fn lemma_mass_nonneg(m: Map<u32, u64>, lo: int, hi: int)
    ensures
        mass(m, lo, hi) >= 0,
    decreases hi - lo,
{
    if hi > lo {
        lemma_mass_nonneg(m, lo, hi - 1);
    }
}

/// The counts from a key on are its own and those behind it.
pub proof fn lemma_mass_from(m: Map<u32, u64>, k: u32, hi: int)
    requires
        m.contains_key(k),
        k < hi,
    ensures
        mass(m, k as int, hi) == m[k] + mass(m, k + 1, hi),
{
    lemma_mass_split(m, k as int, k + 1, hi);
    assert(mass(m, k as int, k + 1) == m[k]) by {
        reveal_with_fuel(mass, 2);
    }
}

/// The value of a rank is in one place only.
pub proof fn law_rank_is_in_one_place(d: DistView, rank: int, p: Quantile, q: Quantile)
    requires
        d.holds_rank(rank, p),
        d.holds_rank(rank, q),
    ensures
        p == q,
{
    lemma_rank_order(d, rank, p, q);
    lemma_rank_order(d, rank, q, p);
}

proof fn lemma_rank_order(d: DistView, rank: int, p: Quantile, q: Quantile)
    requires
        d.holds_rank(rank, p),
        d.holds_rank(rank, q),
    ensures
        match (p, q) {
            (Quantile::Negative(j), Quantile::Negative(k)) => j >= k,
            (Quantile::Negative(_), _) => false,
            (Quantile::Zero, Quantile::Positive(_)) => false,
            (Quantile::Zero, Quantile::Largest) => false,
            (Quantile::Positive(j), Quantile::Positive(k)) => j >= k,
            (Quantile::Positive(_), Quantile::Largest) => false,
            _ => true,
        },
{
    lemma_mass_nonneg(d.pos, 0, KEYS as int);
    match p {
        Quantile::Negative(j) => {
            lemma_mass_from(d.neg, j, KEYS as int);
            lemma_mass_split(d.neg, 0, j as int, KEYS as int);
            lemma_mass_nonneg(d.neg, 0, j as int);
            match q {
                Quantile::Negative(k) => {
                    if j < k {
                        lemma_mass_from(d.neg, k, KEYS as int);
                        lemma_mass_split(d.neg, j + 1, k as int, KEYS as int);
                        lemma_mass_nonneg(d.neg, j + 1, k as int);
                    }
                },
                Quantile::Positive(k) => {
                    lemma_mass_nonneg(d.pos, 0, k as int);
                },
                _ => {},
            }
        },
        Quantile::Zero => {
            if let Quantile::Positive(k) = q {
                lemma_mass_nonneg(d.pos, 0, k as int);
            }
        },
        Quantile::Positive(j) => {
            lemma_mass_split(d.pos, 0, j as int, KEYS as int);
            lemma_mass_from(d.pos, j, KEYS as int);
            lemma_mass_nonneg(d.pos, j + 1, KEYS as int);
            if let Quantile::Positive(k) = q {
                if j < k {
                    lemma_mass_split(d.pos, 0, j as int, k as int);
                    lemma_mass_from(d.pos, j, k as int);
                    lemma_mass_nonneg(d.pos, j + 1, k as int);
                }
            }
        },
        Quantile::Largest => {},
    }
}

proof fn lemma_least(m: Map<u32, u64>, k: u32)
    requires
        is_least(m, k),
    ensures
        least_of(m) == k,
{
    let j = least_of(m);
    assert(is_least(m, j));
}

/// Where there are keys, one of them has the lowest count.
pub proof fn lemma_least_exists(m: Map<u32, u64>)
    requires
        m.dom().finite(),
        m.len() > 0,
    ensures
        is_least(m, least_of(m)),
    decreases m.len(),
{
    let k = m.dom().choose();
    assert(m.dom().contains(k));
    let rest = m.remove(k);
    if rest.len() == 0 {
        assert forall|j: u32| #[trigger] m.contains_key(j) implies m[k] < m[j] || (m[k] == m[j]
            && k <= j) by {
            if j != k {
                assert(rest.dom().contains(j));
            }
        }
        assert(is_least(m, k));
    } else {
        lemma_least_exists(rest);
        let j = least_of(rest);
        assert(rest.contains_key(j));
        let best = if m[j] < m[k] || (m[j] == m[k] && j <= k) {
            j
        } else {
            k
        };
        assert forall|i: u32| #[trigger] m.contains_key(i) implies m[best] < m[i] || (m[best]
            == m[i] && best <= i) by {
            if i != k {
                assert(rest.contains_key(i));
            }
        }
        assert(is_least(m, best));
    }
}

/// What is bounded stays within its bounds.
pub proof fn lemma_observe_wf(d: DistView, v: Double, bounds: Seq<u64>)
    requires
        d.wf(),
        d.count < u64::MAX,
    ensures
        d.observe(v, bounds).wf(),
        d.count <= d.observe(v, bounds).count <= d.count + 1,
{
    if v.finite() && v.rank() != 0 {
        let key = bounds_below(bounds, v.magnitude()) as u32;
        let t = if v.rank() > 0 {
            tally::lemma_bumped(d.pos, key, d.cap + 1);
            DistView { pos: tally::bumped(d.pos, key, d.cap + 1), ..d }
        } else {
            tally::lemma_bumped(d.neg, key, d.cap + 1);
            DistView { neg: tally::bumped(d.neg, key, d.cap + 1), ..d }
        };
        if t.pos.len() > 0 {
            lemma_least_exists(t.pos);
        }
        if t.neg.len() > 0 {
            lemma_least_exists(t.neg);
        }
    }
}

/// The key with the lowest count.
fn find_least(m: &BTreeMap<u32, u64>) -> (r: Option<(u32, u64)>)
    ensures
        match r {
            Some((k, c)) => m@.len() > 0 && is_least(m@, k) && least_of(m@) == k && c == m@[k],
            None => m@.len() == 0,
        },
{
    let v = tally::entries(m);
    if v.len() == 0 {
        return None;
    }
    let mut best: usize = 0;
    let mut i: usize = 1;
    while i < v.len()
        invariant
            best < i <= v@.len(),
            tally::ascending_entries(m@, v@),
            forall|j: int|
                0 <= j < i ==> v@[best as int].1 < (#[trigger] v@[j]).1 || (v@[best as int].1
                    == v@[j].1 && v@[best as int].0 <= v@[j].0),
        decreases v@.len() - i,
    {
        if v[i].1 < v[best].1 {
            best = i;
        }
        i += 1;
    }
    let (k, c) = v[best];
    proof {
        assert forall|j: u32| #[trigger] m@.contains_key(j) implies m@[k] < m@[j] || (m@[k]
            == m@[j] && k <= j) by {
            let t = choose|t: int| 0 <= t < v@.len() && (#[trigger] v@[t]).0 == j;
            assert(v@[t].1 == m@[j]);
        }
        assert(is_least(m@, k));
        lemma_least(m@, k);
    }
    Some((k, c))
}

#[derive(Debug)]
pub struct DistSketch {
    cap: usize,
    pos: BTreeMap<u32, u64>,
    neg: BTreeMap<u32, u64>,
    zero_count: u64,
    count: u64,
    min: Double,
    max: Double,
}

impl View for DistSketch {
    type V = DistView;

    closed spec fn view(&self) -> DistView {
        DistView {
            cap: self.cap as int,
            pos: self.pos@,
            neg: self.neg@,
            zero_count: self.zero_count,
            count: self.count,
            min: self.min,
            max: self.max,
        }
    }
}

impl DistSketch {
    pub fn new(cap: usize) -> (s: Self)
        requires
            cap < usize::MAX / 2,
        ensures
            s@ == DistView::empty(cap as int),
            s@.wf(),
    {
        DistSketch {
            cap,
            pos: BTreeMap::new(),
            neg: BTreeMap::new(),
            zero_count: 0,
            count: 0,
            min: Double { bits: 0x7ff0_0000_0000_0000 },
            max: Double { bits: 0xfff0_0000_0000_0000 },
        }
    }

    pub fn from_parts(
        cap: usize,
        pos: BTreeMap<u32, u64>,
        neg: BTreeMap<u32, u64>,
        zero_count: u64,
        count: u64,
        min: Double,
        max: Double,
    ) -> (s: Self)
        ensures
            s@ == (DistView {
                cap: cap as int,
                pos: pos@,
                neg: neg@,
                zero_count,
                count,
                min,
                max,
            }),
    {
        DistSketch { cap, pos, neg, zero_count, count, min, max }
    }

    /// A sketch with the same counts.
    pub fn duplicate(&self) -> (r: Self)
        ensures
            r@ == self@,
    {
        let r = DistSketch {
            cap: self.cap,
            pos: self.pos.clone(),
            neg: self.neg.clone(),
            zero_count: self.zero_count,
            count: self.count,
            min: self.min,
            max: self.max,
        };
        assert(r@ =~= self@);
        r
    }

    /// Whether the counts are such as a stream can leave.
    pub fn is_sound(&self) -> (b: bool)
        ensures
            b == self@.wf(),
    {
        self.cap < usize::MAX / 2 && self.pos.len() <= self.cap && self.neg.len() <= self.cap
            - self.pos.len() && self.zero_count <= self.count && tally::all_between(
            &self.pos,
            0,
            self.count,
        ) && tally::all_between(&self.neg, 0, self.count)
    }

    pub fn cap(&self) -> (n: usize)
        ensures
            n == self@.cap,
    {
        self.cap
    }

    /// The counts of the buckets of positive numbers.
    pub fn positive(&self) -> (m: &BTreeMap<u32, u64>)
        ensures
            m@ == self@.pos,
    {
        &self.pos
    }

    /// The counts of the buckets of negative numbers.
    pub fn negative(&self) -> (m: &BTreeMap<u32, u64>)
        ensures
            m@ == self@.neg,
    {
        &self.neg
    }

    pub fn zero_count(&self) -> (n: u64)
        ensures
            n == self@.zero_count,
    {
        self.zero_count
    }

    pub fn smallest(&self) -> (d: Double)
        ensures
            d == self@.min,
    {
        self.min
    }

    pub fn observe(&mut self, v: Double, buckets: &Buckets)
        requires
            old(self)@.wf(),
            buckets.wf(),
            old(self)@.count < u64::MAX,
        ensures
            final(self)@ == old(self)@.observe(v, buckets@),
            final(self)@.wf(),
            final(self)@.count <= old(self)@.count + 1,
    {
        if !v.is_finite() {
            return ;
        }
        let ghost start = self@;
        self.count += 1;
        if v.less_than(self.min) {
            self.min = v;
        }
        if self.max.less_than(v) {
            self.max = v;
        }
        if v.is_zero() {
            self.zero_count += 1;
            return ;
        }
        let key: u32 = buckets.index(v.magnitude_bits());
        let zero = Double { bits: 0 };
        if zero.less_than(v) {
            proof {
                tally::lemma_bumped(self.pos@, key, start.cap + 1);
            }
            tally::bump(&mut self.pos, key, self.cap + 1);
        } else {
            proof {
                tally::lemma_bumped(self.neg@, key, start.cap + 1);
            }
            tally::bump(&mut self.neg, key, self.cap + 1);
        }
        if self.pos.len() + self.neg.len() > self.cap {
            self.evict_smallest();
        }
    }

    fn evict_smallest(&mut self)
        requires
            old(self)@.pos.dom().finite(),
            old(self)@.neg.dom().finite(),
        ensures
            final(self)@ == old(self)@.evicted(),
            final(self)@.pos.dom().finite(),
            final(self)@.neg.dom().finite(),
            old(self)@.pos.len() + old(self)@.neg.len() > 0 ==> final(self)@.pos.len()
                + final(self)@.neg.len() == old(self)@.pos.len() + old(self)@.neg.len() - 1,
    {
        let p = find_least(&self.pos);
        let n = find_least(&self.neg);
        match (p, n) {
            (Some((pk, pc)), Some((nk, nc))) => {
                if pc <= nc {
                    self.pos.remove(&pk);
                } else {
                    self.neg.remove(&nk);
                }
            },
            (Some((pk, _)), None) => {
                self.pos.remove(&pk);
            },
            (None, Some((nk, _))) => {
                self.neg.remove(&nk);
            },
            (None, None) => {},
        }
    }

    pub fn count(&self) -> (n: u64)
        ensures
            n == self@.count,
    {
        self.count
    }

    pub fn largest(&self) -> (d: Double)
        ensures
            d == self@.max,
    {
        self.max
    }

    /// Where the quantile `num / den` lies. `None` when no values have been
    /// recorded.
    pub fn quantile(&self, num: u64, den: u64) -> (r: Option<Quantile>)
        requires
            0 < den <= 1000,
            num <= den,
        ensures
            r == self@.quantile(num as int, den as int),
    {
        if self.count == 0 {
            return None;
        }
        let ghost product = num as int * self.count as int;
        assert(0 <= product <= 1000 * u64::MAX) by (nonlinear_arith)
            requires
                num <= 1000,
                product == num as int * self.count as int,
                0 <= self.count <= u64::MAX,
        ;
        let scaled: u128 = (num as u128 * self.count as u128 + den as u128 - 1) / den as u128;
        let target: u128 = if scaled < 1 {
            1
        } else {
            scaled
        };
        assert(target == quantile_rank(self.count as int, num as int, den as int));
        let q = self.locate(target);
        proof {
            law_rank_is_in_one_place(
                self@,
                target as int,
                q,
                choose|p: Quantile| #[trigger] self@.holds_rank(target as int, p),
            );
        }
        Some(q)
    }

    fn locate(&self, target: u128) -> (q: Quantile)
        requires
            target >= 1,
        ensures
            self@.holds_rank(target as int, q),
    {
        let neg = tally::entries(&self.neg);
        let ghost m = self.neg@;
        let mut cum: u128 = 0;
        let mut i: usize = neg.len();
        proof {
            if neg@.len() > 0 {
                let last = neg@[neg@.len() - 1].0;
                assert forall|k: u32| last < k < KEYS implies !#[trigger] m.contains_key(k) by {
                    if m.contains_key(k) {
                        let t = choose|t: int| 0 <= t < neg@.len() && (#[trigger] neg@[t]).0 == k;
                    }
                }
                lemma_mass_gap(m, last + 1, KEYS as int);
            } else {
                assert forall|k: u32| !#[trigger] m.contains_key(k) by {
                    if m.contains_key(k) {
                        let t = choose|t: int| 0 <= t < neg@.len() && (#[trigger] neg@[t]).0 == k;
                    }
                }
                lemma_mass_gap(m, 0, KEYS as int);
            }
        }
        while i > 0
            invariant
                i <= neg@.len(),
                m == self.neg@,
                tally::ascending_entries(m, neg@),
                cum < target,
                cum <= (neg@.len() - i) * u64::MAX,
                neg@.len() <= KEYS,
                i > 0 ==> cum == mass(m, neg@[i - 1].0 + 1, KEYS as int),
                i == 0 ==> cum == total_mass(m),
            decreases i,
        {
            let (k, c) = neg[i - 1];
            let ghost before = cum;
            assert((neg@.len() - i) * u64::MAX + u64::MAX == (neg@.len() - i + 1) * u64::MAX)
                by (nonlinear_arith);
            cum += c as u128;
            if cum >= target {
                return Quantile::Negative(k);
            }
            proof {
                let next: int = if i >= 2 {
                    neg@[i - 2].0 + 1
                } else {
                    0
                };
                assert forall|j: u32| next <= j < k implies !#[trigger] m.contains_key(j) by {
                    if m.contains_key(j) {
                        let t = choose|t: int| 0 <= t < neg@.len() && (#[trigger] neg@[t]).0 == j;
                        assert(neg@[i - 1].0 == k);
                        if i >= 2 {
                            assert(neg@[i - 2].0 < j);
                        }
                    }
                }
                lemma_mass_gap(m, next, k as int);
                lemma_mass_split(m, next, k as int, KEYS as int);
                lemma_mass_split(m, k as int, k + 1, KEYS as int);
                assert(mass(m, k as int, k + 1) == m[k]) by {
                    reveal_with_fuel(mass, 2);
                }
            }
            i -= 1;
        }
        cum += self.zero_count as u128;
        if cum >= target {
            return Quantile::Zero;
        }
        let ghost base = cum;
        let pos = tally::entries(&self.pos);
        let ghost p = self.pos@;
        let mut j: usize = 0;
        proof {
            let first: int = if pos@.len() > 0 {
                pos@[0].0 as int
            } else {
                KEYS as int
            };
            assert forall|k: u32| 0 <= k < first implies !#[trigger] p.contains_key(k) by {
                if p.contains_key(k) {
                    let t = choose|t: int| 0 <= t < pos@.len() && (#[trigger] pos@[t]).0 == k;
                    assert(pos@[0].0 <= pos@[t].0);
                }
            }
            lemma_mass_gap(p, 0, first);
        }
        while j < pos.len()
            invariant
                j <= pos@.len(),
                p == self.pos@,
                m == self.neg@,
                tally::ascending_entries(p, pos@),
                cum < target,
                base == total_mass(m) + self.zero_count,
                base <= (KEYS + 1) * u64::MAX,
                cum <= base + j * u64::MAX,
                pos@.len() <= KEYS,
                cum == base + mass(
                    p,
                    0,
                    if j < pos@.len() {
                        pos@[j as int].0 as int
                    } else {
                        KEYS as int
                    },
                ),
            decreases pos@.len() - j,
        {
            let (k, c) = pos[j];
            assert(j * u64::MAX + u64::MAX == (j + 1) * u64::MAX) by (nonlinear_arith);
            cum += c as u128;
            if cum >= target {
                return Quantile::Positive(k);
            }
            proof {
                let next: int = if j + 1 < pos@.len() {
                    pos@[j + 1].0 as int
                } else {
                    KEYS as int
                };
                assert forall|t: u32| k < t < next implies !#[trigger] p.contains_key(t) by {
                    if p.contains_key(t) {
                        let s = choose|s: int| 0 <= s < pos@.len() && (#[trigger] pos@[s]).0 == t;
                        assert(pos@[j as int].0 == k);
                        if j + 1 < pos@.len() {
                            assert(pos@[j + 1].0 <= pos@[s].0 || s <= j);
                        }
                    }
                }
                lemma_mass_next(p, 0, k, next);
            }
            j += 1;
        }
        Quantile::Largest
    }
}

} // verus!
