//! Record or map, tuple or bag: the decisions shared by finalization and the
//! reports.
use crate::analyze::arena::{ArrayAcc, ArrayView, ObjectAcc, ObjectView};
use crate::analyze::stats::Share;
use crate::tally;
use std::collections::BTreeMap;
use vstd::prelude::*;

verus! {

#[derive(Clone, Copy, Debug)]
pub enum ObjectDecision {
    Record { reason: &'static str },
    Mapping { reason: &'static str },
}

#[derive(Clone, Copy, Debug)]
pub enum ArrayDecision {
    Tuple { mode_len: u32, mode_share: Share },
    Bag { reason: &'static str },
}

pub open spec fn at_least_one(n: u64) -> int {
    if n == 0 {
        1
    } else {
        n as int
    }
}

impl ObjectView {
    /// Why the object is a map rather than a record: the record view
    /// overflowed, or there are sixteen keys or more, and more than four times
    /// as many as the mean document has.
    pub open spec fn map_reason(self) -> Option<Seq<char>> {
        let unique = self.fields.len();
        if !self.record_alive {
            Some("record_view OVERFLOWED at cap"@)
        } else if unique >= 16 && unique * at_least_one(self.obs) > 4 * self.key_count_sum {
            Some("unique key count >> typical per-doc keys"@)
        } else {
            None
        }
    }
}

/// `l` is the length with the highest count, and the largest such length.
pub open spec fn is_mode(histogram: Map<u32, u64>, l: u32) -> bool {
    &&& histogram.contains_key(l)
    &&& forall|j: u32| #[trigger]
        histogram.contains_key(j) ==> histogram[j] < histogram[l] || (histogram[j] == histogram[l]
            && j <= l)
}

/// The mode of the lengths and its count; no length has zero of both.
pub open spec fn mode_of(histogram: Map<u32, u64>) -> (u32, u64) {
    if histogram.dom().len() == 0 {
        (0, 0)
    } else {
        let l = choose|l: u32| is_mode(histogram, l);
        (l, histogram[l])
    }
}

impl ArrayView {
    pub open spec fn mode(self) -> (u32, u64) {
        mode_of(self.length_histogram)
    }

    pub open spec fn mode_share(self) -> Share {
        Share { part: self.mode().1, total: at_least_one(self.obs) as u128 }
    }

    /// Why the array is a bag rather than a tuple. A tuple has a positional
    /// view, and a length of sixteen or less that nine in ten arrays have.
    pub open spec fn bag_reason(self) -> Option<Seq<char>> {
        if !self.positional_alive || self.positional.len() == 0 {
            Some("positional view unusable"@)
        } else if self.mode().0 == 0 || self.mode().0 > 16 {
            Some("mode length too large for tuple"@)
        } else if !self.mode_share().dominates() {
            Some("arity not tight enough"@)
        } else {
            None
        }
    }
}

/// The mode is one length.
proof fn lemma_mode(histogram: Map<u32, u64>, l: u32)
    requires
        is_mode(histogram, l),
        histogram.dom().finite(),
    ensures
        mode_of(histogram) == (l, histogram[l]),
{
    assert(histogram.dom().contains(l));
    let m = choose|m: u32| is_mode(histogram, m);
    assert(is_mode(histogram, m));
}

fn find_mode(histogram: &BTreeMap<u32, u64>) -> (r: (u32, u64))
    requires
        histogram@.dom().finite(),
    ensures
        r == mode_of(histogram@),
{
    let v = tally::entries(histogram);
    if v.len() == 0 {
        return (0, 0);
    }
    let mut best: usize = 0;
    let mut i: usize = 1;
    while i < v.len()
        invariant
            best < i <= v@.len(),
            tally::ascending_entries(histogram@, v@),
            forall|j: int|
                0 <= j < i ==> (#[trigger] v@[j]).1 < v@[best as int].1 || (v@[j].1
                    == v@[best as int].1 && v@[j].0 <= v@[best as int].0),
        decreases v@.len() - i,
    {
        if v[i].1 >= v[best].1 {
            assert forall|j: int| 0 <= j < i implies (#[trigger] v@[j]).0 <= v@[i as int].0 by {}
            best = i;
        }
        i += 1;
    }
    let (l, c) = v[best];
    proof {
        assert forall|j: u32| #[trigger] histogram@.contains_key(j) implies histogram@[j]
            < histogram@[l] || (histogram@[j] == histogram@[l] && j <= l) by {
            let t = choose|t: int| 0 <= t < v@.len() && (#[trigger] v@[t]).0 == j;
            assert(v@[t].1 == histogram@[j]);
        }
        assert(is_mode(histogram@, l));
        lemma_mode(histogram@, l);
    }
    (l, c)
}

pub fn decide_object(obj: &ObjectAcc) -> (r: ObjectDecision)
    ensures
        match r {
            ObjectDecision::Record { reason } => obj@.map_reason() is None && reason@
                == "stable low-cardinality key set"@,
            ObjectDecision::Mapping { reason } => obj@.map_reason() == Some(reason@),
        },
{
    let total: u64 = if obj.obs == 0 {
        1
    } else {
        obj.obs
    };
    let unique: usize = obj.fields.len();
    if !obj.record_alive {
        return ObjectDecision::Mapping { reason: "record_view OVERFLOWED at cap" };
    }
    assert(unique * total <= 0xffff_ffff_ffff_ffff * 0xffff_ffff_ffff_ffff) by (nonlinear_arith)
        requires
            unique <= 0xffff_ffff_ffff_ffff,
            total <= 0xffff_ffff_ffff_ffff,
    ;
    if unique >= 16 && (unique as u128) * (total as u128) > 4 * (obj.key_count_sum as u128) {
        return ObjectDecision::Mapping { reason: "unique key count >> typical per-doc keys" };
    }
    ObjectDecision::Record { reason: "stable low-cardinality key set" }
}

pub fn decide_array(arr: &ArrayAcc) -> (r: ArrayDecision)
    requires
        arr@.length_histogram.dom().finite(),
    ensures
        match r {
            ArrayDecision::Tuple { mode_len, mode_share } => arr@.bag_reason() is None && mode_len
                == arr@.mode().0 && mode_share == arr@.mode_share(),
            ArrayDecision::Bag { reason } => arr@.bag_reason() == Some(reason@),
        },
{
    let total: u64 = if arr.obs == 0 {
        1
    } else {
        arr.obs
    };
    let (mode_len, mode_count) = find_mode(&arr.length_histogram);
    let mode_share = Share { part: mode_count, total: total as u128 };
    let positional_useful: bool = arr.positional_alive && arr.positional.len() > 0;
    let small_mode: bool = mode_len > 0 && mode_len <= 16;
    let tight: bool = mode_share.is_dominant();
    if positional_useful && small_mode && tight {
        return ArrayDecision::Tuple { mode_len, mode_share };
    }
    let reason = if !positional_useful {
        "positional view unusable"
    } else if !small_mode {
        "mode length too large for tuple"
    } else {
        "arity not tight enough"
    };
    ArrayDecision::Bag { reason }
}

} // verus!
