//! The order of signatures, and the canonical forms that rest on it.
use crate::analyze::sig;
use crate::analyze::sig::{Sig, SigView};
use crate::text;
use vstd::prelude::*;

verus! {

#[derive(Clone, Copy, Debug, PartialEq, Eq, Structural)]
pub enum Order {
    Less,
    Equal,
    Greater,
}

/// The lexicographic order of texts.
pub open spec fn chars_order(a: Seq<char>, b: Seq<char>) -> Order
    decreases a.len(),
{
    if a.len() == 0 {
        if b.len() == 0 {
            Order::Equal
        } else {
            Order::Less
        }
    } else if b.len() == 0 {
        Order::Greater
    } else if a[0] == b[0] {
        chars_order(a.drop_first(), b.drop_first())
    } else if a[0] < b[0] {
        Order::Less
    } else {
        Order::Greater
    }
}

/// The order of the kinds of signatures.
pub open spec fn kind_of(s: SigView) -> int {
    match s {
        SigView::Scalar(_) => 0,
        SigView::Array(_) => 1,
        SigView::Record(_) => 2,
        SigView::Variant(_) => 3,
        SigView::Empty => 4,
    }
}

pub open spec fn int_order(a: int, b: int) -> Order {
    if a < b {
        Order::Less
    } else if a == b {
        Order::Equal
    } else {
        Order::Greater
    }
}

/// Signatures are ordered by kind; of one kind, scalars by their type,
/// arrays by their element, and records and variants lexicographically.
pub open spec fn sig_order(a: SigView, b: SigView) -> Order
    decreases a,
{
    match (a, b) {
        (SigView::Scalar(x), SigView::Scalar(y)) => int_order(x.place(), y.place()),
        (SigView::Array(x), SigView::Array(y)) => sig_order(*x, *y),
        (SigView::Record(x), SigView::Record(y)) => fields_order(x, y),
        (SigView::Variant(x), SigView::Variant(y)) => arms_order(x, y),
        _ => int_order(kind_of(a), kind_of(b)),
    }
}

pub open spec fn fields_order(
    a: Seq<(Seq<char>, SigView)>,
    b: Seq<(Seq<char>, SigView)>,
) -> Order
    decreases a,
{
    if a.len() == 0 {
        if b.len() == 0 {
            Order::Equal
        } else {
            Order::Less
        }
    } else if b.len() == 0 {
        Order::Greater
    } else {
        let names = chars_order(a[0].0, b[0].0);
        let first = if names == Order::Equal {
            sig_order(a[0].1, b[0].1)
        } else {
            names
        };
        if first == Order::Equal {
            fields_order(a.drop_first(), b.drop_first())
        } else {
            first
        }
    }
}

pub open spec fn arms_order(a: Seq<SigView>, b: Seq<SigView>) -> Order
    decreases a,
{
    if a.len() == 0 {
        if b.len() == 0 {
            Order::Equal
        } else {
            Order::Less
        }
    } else if b.len() == 0 {
        Order::Greater
    } else {
        let first = sig_order(a[0], b[0]);
        if first == Order::Equal {
            arms_order(a.drop_first(), b.drop_first())
        } else {
            first
        }
    }
}

pub fn order_of_texts(a: &String, b: &String) -> (r: Order)
    ensures
        r == chars_order(a@, b@),
{
    let x = text::chars_of(a.as_str());
    let y = text::chars_of(b.as_str());
    let mut i: usize = 0;
    assert(x@.skip(0) =~= x@);
    assert(y@.skip(0) =~= y@);
    loop
        invariant
            x@ == a@,
            y@ == b@,
            i <= x@.len(),
            i <= y@.len(),
            chars_order(a@, b@) == chars_order(x@.skip(i as int), y@.skip(i as int)),
        decreases x@.len() - i,
    {
        if i == x.len() {
            return if i == y.len() {
                Order::Equal
            } else {
                Order::Less
            };
        }
        if i == y.len() {
            return Order::Greater;
        }
        let ghost s = x@.skip(i as int);
        let ghost t = y@.skip(i as int);
        assert(s.drop_first() =~= x@.skip(i + 1));
        assert(t.drop_first() =~= y@.skip(i + 1));
        if x[i] != y[i] {
            return if x[i] < y[i] {
                Order::Less
            } else {
                Order::Greater
            };
        }
        i += 1;
    }
}

fn order_of_places(a: usize, b: usize) -> (r: Order)
    ensures
        r == int_order(a as int, b as int),
{
    if a < b {
        Order::Less
    } else if a == b {
        Order::Equal
    } else {
        Order::Greater
    }
}

fn kind_index(s: &Sig) -> (k: usize)
    ensures
        k == kind_of(s@),
{
    match s {
        Sig::Scalar(_) => 0,
        Sig::Array(_) => 1,
        Sig::Record(_) => 2,
        Sig::Variant(_) => 3,
        Sig::Empty => 4,
    }
}

pub fn order_of_sigs(a: &Sig, b: &Sig) -> (r: Order)
    ensures
        r == sig_order(a@, b@),
    decreases a,
{
    match (a, b) {
        (Sig::Scalar(x), Sig::Scalar(y)) => order_of_places(x.index(), y.index()),
        (Sig::Array(x), Sig::Array(y)) => order_of_sigs(x, y),
        (Sig::Record(x), Sig::Record(y)) => {
            let ghost s = sig::fields_view(x@);
            let ghost t = sig::fields_view(y@);
            proof {
                sig::lemma_fields_view(x@);
                sig::lemma_fields_view(y@);
                assert(s.skip(0) =~= s);
                assert(t.skip(0) =~= t);
            }
            let mut i: usize = 0;
            loop
                invariant
                    *a == Sig::Record(*x),
                    i <= x@.len() == s.len(),
                    i <= y@.len() == t.len(),
                    forall|k: int|
                        0 <= k < x@.len() ==> #[trigger] s[k] == (x@[k].0@, sig::sig_view(x@[k].1)),
                    forall|k: int|
                        0 <= k < y@.len() ==> #[trigger] t[k] == (y@[k].0@, sig::sig_view(y@[k].1)),
                    sig_order(a@, b@) == fields_order(s.skip(i as int), t.skip(i as int)),
                decreases x@.len() - i,
            {
                if i == x.len() {
                    return if i == y.len() {
                        Order::Equal
                    } else {
                        Order::Less
                    };
                }
                if i == y.len() {
                    return Order::Greater;
                }
                assert(decreases_to!(*a => a->Record_0));
                assert(decreases_to!(a->Record_0 => x@[i as int].1));
                assert(s.skip(i as int)[0] == s[i as int]);
                assert(t.skip(i as int)[0] == t[i as int]);
                assert(s.skip(i as int).drop_first() =~= s.skip(i + 1));
                assert(t.skip(i as int).drop_first() =~= t.skip(i + 1));
                let names = order_of_texts(&x[i].0, &y[i].0);
                if names != Order::Equal {
                    return names;
                }
                let first = order_of_sigs(&x[i].1, &y[i].1);
                if first != Order::Equal {
                    return first;
                }
                i += 1;
            }
        },
        (Sig::Variant(x), Sig::Variant(y)) => {
            let ghost s = sig::arms_view(x@);
            let ghost t = sig::arms_view(y@);
            proof {
                sig::lemma_arms_view(x@);
                sig::lemma_arms_view(y@);
                assert(s.skip(0) =~= s);
                assert(t.skip(0) =~= t);
            }
            let mut i: usize = 0;
            loop
                invariant
                    *a == Sig::Variant(*x),
                    i <= x@.len() == s.len(),
                    i <= y@.len() == t.len(),
                    forall|k: int| 0 <= k < x@.len() ==> #[trigger] s[k] == sig::sig_view(x@[k]),
                    forall|k: int| 0 <= k < y@.len() ==> #[trigger] t[k] == sig::sig_view(y@[k]),
                    sig_order(a@, b@) == arms_order(s.skip(i as int), t.skip(i as int)),
                decreases x@.len() - i,
            {
                if i == x.len() {
                    return if i == y.len() {
                        Order::Equal
                    } else {
                        Order::Less
                    };
                }
                if i == y.len() {
                    return Order::Greater;
                }
                assert(decreases_to!(*a => a->Variant_0));
                assert(decreases_to!(a->Variant_0 => x@[i as int]));
                assert(s.skip(i as int)[0] == s[i as int]);
                assert(t.skip(i as int)[0] == t[i as int]);
                assert(s.skip(i as int).drop_first() =~= s.skip(i + 1));
                assert(t.skip(i as int).drop_first() =~= t.skip(i + 1));
                let first = order_of_sigs(&x[i], &y[i]);
                if first != Order::Equal {
                    return first;
                }
                i += 1;
            }
        },
        _ => order_of_places(kind_index(a), kind_index(b)),
    }
}

} // verus!
