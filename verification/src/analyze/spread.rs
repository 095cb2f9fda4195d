//! What a distribution sketch tells of the numbers that it has seen.
use crate::analyze::dist;
use crate::analyze::dist::{DistView, Quantile};
use crate::double::Double;
use crate::tally;
use vstd::prelude::*;

verus! {

// ---------------------------------------------------------------------
// Numbers, by their bits
// ---------------------------------------------------------------------

/// A number above zero, and no infinity.
pub open spec fn above(v: Double) -> bool {
    0 < v.bits < 0x7ff0_0000_0000_0000
}

/// A number below zero, and no infinity.
pub open spec fn below(v: Double) -> bool {
    0x8000_0000_0000_0000 < v.bits < 0xfff0_0000_0000_0000
}

/// Zero, with either sign.
pub open spec fn zero(v: Double) -> bool {
    v.bits == 0 || v.bits == 0x8000_0000_0000_0000
}

pub open spec fn number(v: Double) -> bool {
    above(v) || below(v) || zero(v)
}

/// Where a number stands among the numbers.
pub open spec fn place(v: Double) -> int {
    if v.bits < 0x8000_0000_0000_0000 {
        v.bits as int
    } else {
        0x8000_0000_0000_0000 - v.bits
    }
}

/// How many of the values have a property.
pub open spec fn how_many(values: Seq<Double>, p: spec_fn(Double) -> bool) -> int
    decreases values.len(),
{
    if values.len() == 0 {
        0
    } else {
        how_many(values.drop_last(), p) + (if p(values.last()) {
            1int
        } else {
            0int
        })
    }
}

/// What a sketch holds after the values, one after the other.
pub open spec fn told(cap: int, bounds: Seq<u64>, values: Seq<Double>) -> DistView
    decreases values.len(),
{
    if values.len() == 0 {
        DistView::empty(cap)
    } else {
        told(cap, bounds, values.drop_last()).observe(values.last(), bounds)
    }
}

proof fn lemma_how_many(values: Seq<Double>, p: spec_fn(Double) -> bool)
    ensures
        0 <= how_many(values, p) <= values.len(),
    decreases values.len(),
{
    if values.len() > 0 {
        lemma_how_many(values.drop_last(), p);
    }
}

proof fn lemma_evicted(d: DistView)
    ensures
        d.evicted().count == d.count,
        d.evicted().zero_count == d.zero_count,
        d.evicted().min == d.min,
        d.evicted().max == d.max,
        d.evicted().cap == d.cap,
{
}

/// The smallest number of the values.
pub open spec fn smallest(values: Seq<Double>, m: Double) -> bool {
    &&& values.contains(m)
    &&& number(m)
    &&& forall|i: int|
        0 <= i < values.len() && number(#[trigger] values[i]) ==> place(m) <= place(values[i])
}

/// The largest number of the values.
pub open spec fn largest(values: Seq<Double>, m: Double) -> bool {
    &&& values.contains(m)
    &&& number(m)
    &&& forall|i: int|
        0 <= i < values.len() && number(#[trigger] values[i]) ==> place(values[i]) <= place(m)
}

/// A sketch counts every number that it has seen, and the zeros among them;
/// infinities and what is no number leave it as it was. It keeps the smallest
/// number and the largest.
pub proof fn law_numbers_are_counted(cap: int, bounds: Seq<u64>, values: Seq<Double>)
    requires
        0 <= cap < usize::MAX / 2,
        values.len() <= u64::MAX,
    ensures
        ({
            let d = told(cap, bounds, values);
            &&& d.wf()
            &&& d.cap == cap
            &&& d.count == how_many(values, |v: Double| number(v))
            &&& d.zero_count == how_many(values, |v: Double| zero(v))
            &&& d.count > 0 ==> smallest(values, d.min)
            &&& d.count > 0 ==> largest(values, d.max)
        }),
    decreases values.len(),
{
    let d = told(cap, bounds, values);
    if values.len() == 0 {
        assert(d.pos.dom() =~= Set::empty());
        assert(d.neg.dom() =~= Set::empty());
    } else {
        let front = values.drop_last();
        let v = values.last();
        law_numbers_are_counted(cap, bounds, front);
        let e = told(cap, bounds, front);
        lemma_how_many(front, |v: Double| number(v));
        lemma_how_many(front, |v: Double| zero(v));
        dist::lemma_observe_wf(e, v, bounds);
        assert(v.finite() == number(v));
        assert((v.finite() && v.rank() == 0) == zero(v));
        assert(number(v) ==> v.rank() == place(v));
        if v.finite() {
            let s = DistView {
                count: (e.count + 1) as u64,
                min: dist::lower(v, e.min),
                max: dist::higher(v, e.max),
                ..e
            };
            let key = dist::bounds_below(bounds, v.magnitude()) as u32;
            lemma_evicted(DistView { pos: tally::bumped(s.pos, key, e.cap + 1), ..s });
            lemma_evicted(DistView { neg: tally::bumped(s.neg, key, e.cap + 1), ..s });
            assert(values[values.len() - 1] == v);
            assert(values.contains(v));
            if e.count > 0 {
                let i = choose|i: int| 0 <= i < front.len() && front[i] == e.min;
                assert(values[i] == e.min);
                let j = choose|j: int| 0 <= j < front.len() && front[j] == e.max;
                assert(values[j] == e.max);
            } else {
                assert forall|i: int| 0 <= i < front.len() implies !number(
                    #[trigger] front[i],
                ) by {
                    lemma_none(front, i);
                }
                lemma_first(e, cap, bounds, front);
            }
            assert forall|i: int| 0 <= i < values.len() && number(#[trigger] values[i]) implies place(
                d.min,
            ) <= place(values[i]) && place(values[i]) <= place(d.max) by {
                if i < front.len() {
                    assert(front[i] == values[i]);
                }
            }
        } else if e.count > 0 {
            let i = choose|i: int| 0 <= i < front.len() && front[i] == e.min;
            assert(values[i] == e.min);
            let j = choose|j: int| 0 <= j < front.len() && front[j] == e.max;
            assert(values[j] == e.max);
            assert forall|i: int| 0 <= i < values.len() && number(#[trigger] values[i]) implies place(
                d.min,
            ) <= place(values[i]) && place(values[i]) <= place(d.max) by {
                if i < front.len() {
                    assert(front[i] == values[i]);
                }
            }
        }
    }
}

proof fn lemma_none(values: Seq<Double>, i: int)
    requires
        0 <= i < values.len(),
        how_many(values, |v: Double| number(v)) == 0,
    ensures
        !number(values[i]),
    decreases values.len(),
{
    lemma_how_many(values.drop_last(), |v: Double| number(v));
    if i < values.len() - 1 {
        lemma_none(values.drop_last(), i);
    }
}

/// As long as there was no number, the limits are infinite.
proof fn lemma_first(d: DistView, cap: int, bounds: Seq<u64>, values: Seq<Double>)
    requires
        d == told(cap, bounds, values),
        forall|i: int| 0 <= i < values.len() ==> !number(#[trigger] values[i]),
    ensures
        d == DistView::empty(cap),
    decreases values.len(),
{
    if values.len() > 0 {
        let front = values.drop_last();
        assert forall|i: int| 0 <= i < front.len() implies !number(#[trigger] front[i]) by {
            assert(front[i] == values[i]);
        }
        lemma_first(told(cap, bounds, front), cap, bounds, front);
        assert(!number(values[values.len() - 1]));
        assert(!values.last().finite());
    }
}

// ---------------------------------------------------------------------
// Buckets
// ---------------------------------------------------------------------

/// The bits of a number without its sign.
pub open spec fn size(v: Double) -> int {
    if v.bits < 0x8000_0000_0000_0000 {
        v.bits as int
    } else {
        v.bits - 0x8000_0000_0000_0000
    }
}

/// A magnitude lies in a bucket: above the bound of the bucket before, and not
/// above its own. The first bucket has no lower bound, and the last no upper
/// one.
pub open spec fn lies_in(bounds: Seq<u64>, k: int, m: int) -> bool {
    &&& 0 <= k <= bounds.len()
    &&& k > 0 ==> bounds[k - 1] < m
    &&& k < bounds.len() ==> m <= bounds[k]
}

proof fn lemma_bounds(bounds: Seq<u64>, m: int)
    requires
        dist::ascending(bounds),
    ensures
        0 <= dist::bounds_below(bounds, m) <= bounds.len(),
        forall|i: int| 0 <= i < dist::bounds_below(bounds, m) ==> #[trigger] bounds[i] < m,
        forall|i: int|
            dist::bounds_below(bounds, m) <= i < bounds.len() ==> #[trigger] bounds[i] >= m,
    decreases bounds.len(),
{
    if bounds.len() > 0 {
        let front = bounds.drop_last();
        assert forall|i: int, j: int| 0 <= i < j < front.len() implies #[trigger] front[i]
            <= #[trigger] front[j] by {
            assert(bounds[i] <= bounds[j]);
        }
        lemma_bounds(front, m);
        let p = dist::bounds_below(front, m);
        let last = bounds.len() - 1;
        if bounds.last() < m {
            if p < last {
                assert(front[p] >= m);
                assert(bounds[p] <= bounds[last]);
            }
        }
        assert forall|i: int| 0 <= i < dist::bounds_below(bounds, m) implies #[trigger] bounds[i]
            < m by {
            if i < last {
                assert(front[i] == bounds[i]);
            }
        }
        assert forall|i: int| dist::bounds_below(bounds, m) <= i < bounds.len() implies
            #[trigger] bounds[i] >= m by {
            if i < last {
                assert(front[i] == bounds[i]);
            }
        }
    }
}

/// Every magnitude lies in one bucket, the one that its index names.
pub proof fn law_every_magnitude_has_its_bucket(bounds: Seq<u64>, k: int, m: int)
    requires
        dist::ascending(bounds),
    ensures
        lies_in(bounds, k, m) <==> k == dist::bounds_below(bounds, m),
{
    lemma_bounds(bounds, m);
    let p = dist::bounds_below(bounds, m);
    if lies_in(bounds, k, m) {
        if k < p {
            assert(bounds[k] < m);
        }
        if k > p {
            assert(bounds[k - 1] >= m);
        }
    }
    if k == p {
        if k > 0 {
            assert(bounds[k - 1] < m);
        }
        if k < bounds.len() {
            assert(bounds[k] >= m);
        }
    }
}

pub open spec fn in_upper(bounds: Seq<u64>, k: u32) -> spec_fn(Double) -> bool {
    |v: Double| above(v) && lies_in(bounds, k as int, size(v))
}

pub open spec fn in_lower(bounds: Seq<u64>, k: u32) -> spec_fn(Double) -> bool {
    |v: Double| below(v) && lies_in(bounds, k as int, size(v))
}

proof fn lemma_bump(m: Map<u32, u64>, key: u32, cap: int, k: u32)
    requires
        m.dom().finite(),
        m.len() < cap,
        m.contains_key(key) ==> m[key] < u64::MAX,
    ensures
        ({
            let b = tally::bumped(m, key, cap);
            &&& b.contains_key(k) == (m.contains_key(k) || k == key)
            &&& b.contains_key(k) ==> b[k] == (if m.contains_key(k) {
                m[k] as int
            } else {
                0
            }) + (if k == key {
                1int
            } else {
                0
            })
        }),
{
}

/// As long as there are no more values than buckets, every number is counted
/// in its bucket: above zero and below zero apart, by its magnitude; and no
/// bucket counts anything else.
pub proof fn law_numbers_are_put_into_buckets(cap: int, bounds: Seq<u64>, values: Seq<Double>, k: u32)
    requires
        values.len() <= cap < usize::MAX / 2,
        values.len() <= u64::MAX,
        dist::ascending(bounds),
        bounds.len() <= u32::MAX,
    ensures
        ({
            let d = told(cap, bounds, values);
            let upper = how_many(values, in_upper(bounds, k));
            let lower = how_many(values, in_lower(bounds, k));
            &&& d.pos.len() + d.neg.len() <= values.len()
            &&& d.pos.contains_key(k) <==> upper > 0
            &&& d.pos.contains_key(k) ==> d.pos[k] == upper
            &&& d.neg.contains_key(k) <==> lower > 0
            &&& d.neg.contains_key(k) ==> d.neg[k] == lower
        }),
    decreases values.len(),
{
    law_numbers_are_counted(cap, bounds, values);
    let d = told(cap, bounds, values);
    if values.len() == 0 {
        assert(d.pos.dom() =~= Set::empty());
        assert(d.neg.dom() =~= Set::empty());
    } else {
        let front = values.drop_last();
        let v = values.last();
        let e = told(cap, bounds, front);
        law_numbers_are_put_into_buckets(cap, bounds, front, k);
        law_numbers_are_counted(cap, bounds, front);
        lemma_how_many(front, in_upper(bounds, k));
        lemma_how_many(front, in_lower(bounds, k));
        assert(v.finite() == number(v));
        if number(v) {
            let m = v.magnitude();
            assert(m == size(v));
            law_every_magnitude_has_its_bucket(bounds, k as int, m);
            lemma_bounds(bounds, m);
            let key = dist::bounds_below(bounds, m) as u32;
            assert(e.pos.len() + e.neg.len() <= cap);
            if above(v) {
                assert(v.rank() > 0);
                law_numbers_are_put_into_buckets(cap, bounds, front, key);
                lemma_how_many(front, in_upper(bounds, key));
                lemma_bump(e.pos, key, cap + 1, k);
                tally::lemma_bumped(e.pos, key, cap + 1);
                assert(d.pos == tally::bumped(e.pos, key, cap + 1));
                assert(d.neg == e.neg);
            } else if below(v) {
                assert(v.rank() < 0);
                law_numbers_are_put_into_buckets(cap, bounds, front, key);
                lemma_how_many(front, in_lower(bounds, key));
                lemma_bump(e.neg, key, cap + 1, k);
                tally::lemma_bumped(e.neg, key, cap + 1);
                assert(d.neg == tally::bumped(e.neg, key, cap + 1));
                assert(d.pos == e.pos);
            } else {
                assert(d.pos == e.pos && d.neg == e.neg);
            }
        }
    }
}

/// A full sketch gives up the bucket with the lowest count to a new one: no
/// bucket that stays has a lower count than the one that goes. What stays
/// counts no less than before.
pub proof fn law_the_smallest_bucket_goes(d: DistView, v: Double, bounds: Seq<u64>, k: u32, j: u32)
    requires
        d.wf(),
        d.count < u64::MAX,
    ensures
        ({
            let e = d.observe(v, bounds);
            &&& e.pos.len() + e.neg.len() <= d.cap
            &&& d.pos.contains_key(k) && e.pos.contains_key(k) ==> d.pos[k] <= e.pos[k]
            &&& d.neg.contains_key(k) && e.neg.contains_key(k) ==> d.neg[k] <= e.neg[k]
            &&& d.pos.contains_key(k) && !e.pos.contains_key(k) ==> {
                &&& e.pos.contains_key(j) ==> d.pos[k] <= e.pos[j]
                &&& e.neg.contains_key(j) ==> d.pos[k] <= e.neg[j]
            }
            &&& d.neg.contains_key(k) && !e.neg.contains_key(k) ==> {
                &&& e.pos.contains_key(j) ==> d.neg[k] <= e.pos[j]
                &&& e.neg.contains_key(j) ==> d.neg[k] <= e.neg[j]
            }
        }),
{
    dist::lemma_observe_wf(d, v, bounds);
    if v.finite() && v.rank() != 0 {
        let key = dist::bounds_below(bounds, v.magnitude()) as u32;
        let s = DistView {
            count: (d.count + 1) as u64,
            min: dist::lower(v, d.min),
            max: dist::higher(v, d.max),
            ..d
        };
        let t = if v.rank() > 0 {
            tally::lemma_bumped(d.pos, key, d.cap + 1);
            DistView { pos: tally::bumped(s.pos, key, d.cap + 1), ..s }
        } else {
            tally::lemma_bumped(d.neg, key, d.cap + 1);
            DistView { neg: tally::bumped(s.neg, key, d.cap + 1), ..s }
        };
        if t.pos.len() > 0 {
            dist::lemma_least_exists(t.pos);
        }
        if t.neg.len() > 0 {
            dist::lemma_least_exists(t.neg);
        }
        lemma_nonempty(t.pos, j);
        lemma_nonempty(t.neg, j);
        lemma_nonempty(t.pos, k);
        lemma_nonempty(t.neg, k);
    }
}

proof fn lemma_nonempty(m: Map<u32, u64>, k: u32)
    requires
        m.dom().finite(),
    ensures
        m.contains_key(k) ==> m.len() > 0,
{
    if m.contains_key(k) {
        vstd::set::axiom_set_contains_len(m.dom(), k);
    }
}

// ---------------------------------------------------------------------
// Quantiles
// ---------------------------------------------------------------------

/// A rank that is not above the sum of the counts has its key.
proof fn lemma_find(m: Map<u32, u64>, hi: int, r: int) -> (k: u32)
    requires
        0 <= hi <= dist::KEYS,
        0 < r <= dist::mass(m, 0, hi),
    ensures
        k < hi,
        m.contains_key(k),
        dist::mass(m, 0, k as int) < r <= dist::mass(m, 0, k as int) + m[k],
    decreases hi,
{
    if r <= dist::mass(m, 0, hi - 1) {
        lemma_find(m, hi - 1, r)
    } else {
        (hi - 1) as u32
    }
}

/// Every rank lies somewhere.
proof fn lemma_every_rank(d: DistView, rank: int)
    requires
        rank >= 1,
    ensures
        exists|p: Quantile| #[trigger] d.holds_rank(rank, p),
{
    let all = dist::KEYS as int;
    let negatives = dist::total_mass(d.neg);
    let positives = dist::total_mass(d.pos);
    if rank <= negatives {
        let k = lemma_find(d.neg, all, negatives - rank + 1);
        dist::lemma_mass_split(d.neg, 0, k as int, all);
        dist::lemma_mass_from(d.neg, k, all);
        assert(d.holds_rank(rank, Quantile::Negative(k)));
    } else if rank <= negatives + d.zero_count {
        assert(d.holds_rank(rank, Quantile::Zero));
    } else if rank <= negatives + d.zero_count + positives {
        let k = lemma_find(d.pos, all, rank - negatives - d.zero_count);
        assert(d.holds_rank(rank, Quantile::Positive(k)));
    } else {
        assert(d.holds_rank(rank, Quantile::Largest));
    }
}

/// How many of the counted numbers lie in buckets below a place.
pub open spec fn counted_below(d: DistView, q: Quantile) -> int {
    let all = dist::KEYS as int;
    match q {
        Quantile::Negative(k) => dist::mass(d.neg, k + 1, all),
        Quantile::Zero => dist::mass(d.neg, 0, all),
        Quantile::Positive(k) => dist::mass(d.neg, 0, all) + d.zero_count + dist::mass(
            d.pos,
            0,
            k as int,
        ),
        Quantile::Largest => dist::mass(d.neg, 0, all) + d.zero_count + dist::mass(d.pos, 0, all),
    }
}

/// How many of the counted numbers lie in a place.
pub open spec fn counted_in(d: DistView, q: Quantile) -> int {
    match q {
        Quantile::Negative(k) => d.neg[k] as int,
        Quantile::Zero => d.zero_count as int,
        Quantile::Positive(k) => d.pos[k] as int,
        Quantile::Largest => 0,
    }
}

/// There is a quantile where there are numbers. At least the share that it
/// asks for lies up to its place, unless that is behind every bucket; and less
/// than that share, or nothing, lies below it.
pub proof fn law_quantiles_part_the_numbers(d: DistView, num: int, den: int)
    requires
        0 <= num <= den,
        0 < den,
    ensures
        d.count == 0 <==> d.quantile(num, den) is None,
        d.quantile(num, den) matches Some(q) ==> {
            &&& q != Quantile::Largest ==> den * (counted_below(d, q) + counted_in(d, q)) >= num
                * d.count
            &&& counted_below(d, q) <= 0 || den * counted_below(d, q) < num * d.count
        },
{
    if d.count > 0 {
        let count = d.count as int;
        let rank = dist::quantile_rank(count, num, den);
        lemma_every_rank(d, rank);
        let q = d.quantile(num, den)->Some_0;
        assert(d.holds_rank(rank, q));
        let share = num * count;
        let low = counted_below(d, q);
        let high = low + counted_in(d, q);
        assert(share >= 0) by (nonlinear_arith)
            requires
                share == num * count,
                num >= 0,
                count >= 0,
        ;
        let r = (share + den - 1) / den;
        assert(den * r >= share && den * (r - 1) < share) by (nonlinear_arith)
            requires
                r == (share + den - 1) / den,
                den > 0,
        ;
        assert(rank >= r);
        assert(den * rank >= share) by (nonlinear_arith)
            requires
                den * r >= share,
                rank >= r,
                den > 0,
        ;
        if q != Quantile::Largest {
            assert(den * high >= share) by (nonlinear_arith)
                requires
                    den * rank >= share,
                    high >= rank,
                    den > 0,
            ;
        }
        if q != Quantile::Largest || low < rank {
            if low > 0 {
                assert(rank == r);
                assert(den * low < share) by (nonlinear_arith)
                    requires
                        den * (r - 1) < share,
                        low <= r - 1,
                        den > 0,
                ;
            }
        }
    }
}

} // verus!
