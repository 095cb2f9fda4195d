//! Signatures are canonical: they do not depend on the order in which the
//! parts of a value came.
use crate::analyze::canon;
use crate::analyze::order;
use crate::analyze::order::Order;
use crate::analyze::sig::{ScalarKind, SigView};
use vstd::prelude::*;

verus! {

pub open spec fn flipped(o: Order) -> Order {
    match o {
        Order::Less => Order::Greater,
        Order::Equal => Order::Equal,
        Order::Greater => Order::Less,
    }
}

pub proof fn lemma_chars_flip(a: Seq<char>, b: Seq<char>)
    ensures
        order::chars_order(b, a) == flipped(order::chars_order(a, b)),
        order::chars_order(a, b) == Order::Equal <==> a == b,
    decreases a.len(),
{
    if a.len() > 0 && b.len() > 0 {
        if a[0] == b[0] {
            lemma_chars_flip(a.drop_first(), b.drop_first());
        }
        assert(a =~= seq![a[0]] + a.drop_first());
        assert(b =~= seq![b[0]] + b.drop_first());
    } else if a.len() == 0 && b.len() == 0 {
        assert(a =~= b);
    }
}

pub proof fn lemma_chars_transitive(a: Seq<char>, b: Seq<char>, c: Seq<char>)
    requires
        order::chars_order(a, b) == Order::Less,
        order::chars_order(b, c) == Order::Less,
    ensures
        order::chars_order(a, c) == Order::Less,
    decreases a.len(),
{
    if a.len() > 0 && b.len() > 0 && c.len() > 0 && a[0] == b[0] && b[0] == c[0] {
        lemma_chars_transitive(a.drop_first(), b.drop_first(), c.drop_first());
    }
}

/// The order is antisymmetric, and equals are equal.
proof fn lemma_sig_flip(a: SigView, b: SigView)
    ensures
        order::sig_order(b, a) == flipped(order::sig_order(a, b)),
        order::sig_order(a, b) == Order::Equal <==> a == b,
    decreases a,
{
    match (a, b) {
        (SigView::Array(x), SigView::Array(y)) => {
            lemma_sig_flip(*x, *y);
        },
        (SigView::Record(x), SigView::Record(y)) => {
            lemma_fields_flip(x, y);
        },
        (SigView::Variant(x), SigView::Variant(y)) => {
            lemma_arms_flip(x, y);
        },
        (SigView::Scalar(x), SigView::Scalar(y)) => {
            assert(x.place() == y.place() ==> x == y);
        },
        _ => {},
    }
}

proof fn lemma_fields_flip(a: Seq<(Seq<char>, SigView)>, b: Seq<(Seq<char>, SigView)>)
    ensures
        order::fields_order(b, a) == flipped(order::fields_order(a, b)),
        order::fields_order(a, b) == Order::Equal <==> a == b,
    decreases a,
{
    if a.len() > 0 && b.len() > 0 {
        lemma_chars_flip(a[0].0, b[0].0);
        lemma_sig_flip(a[0].1, b[0].1);
        lemma_fields_flip(a.drop_first(), b.drop_first());
        assert(a =~= seq![a[0]] + a.drop_first());
        assert(b =~= seq![b[0]] + b.drop_first());
    } else if a.len() == 0 && b.len() == 0 {
        assert(a =~= b);
    }
}

proof fn lemma_arms_flip(a: Seq<SigView>, b: Seq<SigView>)
    ensures
        order::arms_order(b, a) == flipped(order::arms_order(a, b)),
        order::arms_order(a, b) == Order::Equal <==> a == b,
    decreases a,
{
    if a.len() > 0 && b.len() > 0 {
        lemma_sig_flip(a[0], b[0]);
        lemma_arms_flip(a.drop_first(), b.drop_first());
        assert(a =~= seq![a[0]] + a.drop_first());
        assert(b =~= seq![b[0]] + b.drop_first());
    } else if a.len() == 0 && b.len() == 0 {
        assert(a =~= b);
    }
}

proof fn lemma_sig_transitive(a: SigView, b: SigView, c: SigView)
    requires
        order::sig_order(a, b) == Order::Less,
        order::sig_order(b, c) == Order::Less,
    ensures
        order::sig_order(a, c) == Order::Less,
    decreases a,
{
    match (a, b, c) {
        (SigView::Array(x), SigView::Array(y), SigView::Array(z)) => {
            lemma_sig_transitive(*x, *y, *z);
        },
        (SigView::Record(x), SigView::Record(y), SigView::Record(z)) => {
            lemma_fields_transitive(x, y, z);
        },
        (SigView::Variant(x), SigView::Variant(y), SigView::Variant(z)) => {
            lemma_arms_transitive(x, y, z);
        },
        _ => {},
    }
}

proof fn lemma_fields_transitive(
    a: Seq<(Seq<char>, SigView)>,
    b: Seq<(Seq<char>, SigView)>,
    c: Seq<(Seq<char>, SigView)>,
)
    requires
        order::fields_order(a, b) == Order::Less,
        order::fields_order(b, c) == Order::Less,
    ensures
        order::fields_order(a, c) == Order::Less,
    decreases a,
{
    if a.len() > 0 && b.len() > 0 && c.len() > 0 {
        let ab = order::chars_order(a[0].0, b[0].0);
        let bc = order::chars_order(b[0].0, c[0].0);
        lemma_chars_flip(a[0].0, b[0].0);
        lemma_chars_flip(b[0].0, c[0].0);
        lemma_chars_flip(a[0].0, c[0].0);
        if ab == Order::Less && bc == Order::Less {
            lemma_chars_transitive(a[0].0, b[0].0, c[0].0);
        } else if ab == Order::Equal && bc == Order::Equal {
            let sab = order::sig_order(a[0].1, b[0].1);
            let sbc = order::sig_order(b[0].1, c[0].1);
            lemma_sig_flip(a[0].1, b[0].1);
            lemma_sig_flip(b[0].1, c[0].1);
            lemma_sig_flip(a[0].1, c[0].1);
            if sab == Order::Less && sbc == Order::Less {
                lemma_sig_transitive(a[0].1, b[0].1, c[0].1);
            } else if sab == Order::Equal && sbc == Order::Equal {
                lemma_fields_transitive(a.drop_first(), b.drop_first(), c.drop_first());
            }
        }
    }
}

proof fn lemma_arms_transitive(a: Seq<SigView>, b: Seq<SigView>, c: Seq<SigView>)
    requires
        order::arms_order(a, b) == Order::Less,
        order::arms_order(b, c) == Order::Less,
    ensures
        order::arms_order(a, c) == Order::Less,
    decreases a,
{
    if a.len() > 0 && b.len() > 0 && c.len() > 0 {
        let ab = order::sig_order(a[0], b[0]);
        let bc = order::sig_order(b[0], c[0]);
        lemma_sig_flip(a[0], b[0]);
        lemma_sig_flip(b[0], c[0]);
        lemma_sig_flip(a[0], c[0]);
        if ab == Order::Less && bc == Order::Less {
            lemma_sig_transitive(a[0], b[0], c[0]);
        } else if ab == Order::Equal && bc == Order::Equal {
            lemma_arms_transitive(a.drop_first(), b.drop_first(), c.drop_first());
        }
    }
}

/// The order of signatures is a total order: any two are comparable in one
/// way only, equals are equal, and it is transitive.
pub proof fn law_sigs_are_totally_ordered(a: SigView, b: SigView, c: SigView)
    ensures
        order::sig_order(b, a) == flipped(order::sig_order(a, b)),
        order::sig_order(a, b) == Order::Equal <==> a == b,
        order::sig_order(a, b) == Order::Less && order::sig_order(b, c) == Order::Less
            ==> order::sig_order(a, c) == Order::Less,
{
    lemma_sig_flip(a, b);
    if order::sig_order(a, b) == Order::Less && order::sig_order(b, c) == Order::Less {
        lemma_sig_transitive(a, b, c);
    }
}

/// The signatures ascend, without repetition.
pub open spec fn ascending(s: Seq<SigView>) -> bool {
    forall|i: int, j: int|
        0 <= i < j < s.len() ==> order::sig_order(#[trigger] s[i], #[trigger] s[j]) == Order::Less
}

proof fn lemma_insert(s: Seq<SigView>, e: SigView)
    requires
        ascending(s),
        !s.contains(e),
    ensures
        ascending(canon::insert_sig(s, e)),
        forall|x: SigView| #[trigger]
            canon::insert_sig(s, e).contains(x) <==> s.contains(x) || x == e,
    decreases s.len(),
{
    let r = canon::insert_sig(s, e);
    if s.len() > 0 {
        lemma_sig_flip(s.last(), e);
        assert(s[s.len() - 1] != e);
    }
    if s.len() > 0 && order::sig_order(s.last(), e) == Order::Greater {
        let front = s.drop_last();
        assert(ascending(front)) by {
            assert forall|i: int, j: int| 0 <= i < j < front.len() implies order::sig_order(
                #[trigger] front[i],
                #[trigger] front[j],
            ) == Order::Less by {
                assert(front[i] == s[i] && front[j] == s[j]);
            }
        }
        assert(!front.contains(e)) by {
            if front.contains(e) {
                let k = choose|k: int| 0 <= k < front.len() && front[k] == e;
                assert(s[k] == e);
            }
        }
        lemma_insert(front, e);
        let t = canon::insert_sig(front, e);
        assert forall|i: int, j: int| 0 <= i < j < r.len() implies order::sig_order(
            #[trigger] r[i],
            #[trigger] r[j],
        ) == Order::Less by {
            if j == r.len() - 1 {
                assert(t.contains(t[i]));
                if front.contains(t[i]) {
                    let k = choose|k: int| 0 <= k < front.len() && front[k] == t[i];
                    assert(s[k] == t[i]);
                    assert(order::sig_order(s[k], s[s.len() - 1]) == Order::Less);
                }
            }
        }
        assert forall|x: SigView| #[trigger] r.contains(x) <==> s.contains(x) || x == e by {
            if r.contains(x) {
                let k = choose|k: int| 0 <= k < r.len() && r[k] == x;
                if k < t.len() {
                    assert(t[k] == x);
                    assert(t.contains(x));
                    if front.contains(x) {
                        let m = choose|m: int| 0 <= m < front.len() && front[m] == x;
                        assert(s[m] == x);
                    }
                } else {
                    assert(s[s.len() - 1] == x);
                }
            }
            if s.contains(x) {
                let k = choose|k: int| 0 <= k < s.len() && s[k] == x;
                if k < s.len() - 1 {
                    assert(front[k] == x);
                    assert(front.contains(x));
                    assert(t.contains(x));
                    let m = choose|m: int| 0 <= m < t.len() && t[m] == x;
                    assert(r[m] == x);
                } else {
                    assert(r[r.len() - 1] == x);
                }
            }
            if x == e {
                assert(t.contains(e));
                let m = choose|m: int| 0 <= m < t.len() && t[m] == e;
                assert(r[m] == e);
            }
        }
    } else {
        assert forall|i: int, j: int| 0 <= i < j < r.len() implies order::sig_order(
            #[trigger] r[i],
            #[trigger] r[j],
        ) == Order::Less by {
            if j == r.len() - 1 {
                if i < s.len() - 1 {
                    assert(order::sig_order(s[i], s[s.len() - 1]) == Order::Less);
                    lemma_sig_transitive(s[i], s[s.len() - 1], e);
                }
            } else {
                assert(r[i] == s[i] && r[j] == s[j]);
            }
        }
        assert forall|x: SigView| #[trigger] r.contains(x) <==> s.contains(x) || x == e by {
            if r.contains(x) {
                let k = choose|k: int| 0 <= k < r.len() && r[k] == x;
                if k < s.len() {
                    assert(s[k] == x);
                }
            }
            if s.contains(x) {
                let k = choose|k: int| 0 <= k < s.len() && s[k] == x;
                assert(r[k] == x);
            }
            assert(r[s.len() as int] == e);
        }
    }
}

proof fn lemma_distinct(s: Seq<SigView>)
    ensures
        canon::distinct(s).no_duplicates(),
        forall|x: SigView| #[trigger] canon::distinct(s).contains(x) <==> s.contains(x),
    decreases s.len(),
{
    if s.len() > 0 {
        let front = s.drop_last();
        lemma_distinct(front);
        let d = canon::distinct(front);
        let r = canon::distinct(s);
        assert forall|x: SigView| #[trigger] r.contains(x) <==> s.contains(x) by {
            if r.contains(x) {
                let k = choose|k: int| 0 <= k < r.len() && r[k] == x;
                if k < d.len() {
                    assert(d[k] == x);
                    assert(d.contains(x));
                    let m = choose|m: int| 0 <= m < front.len() && front[m] == x;
                    assert(s[m] == x);
                } else {
                    assert(s[s.len() - 1] == x);
                }
            }
            if s.contains(x) {
                let k = choose|k: int| 0 <= k < s.len() && s[k] == x;
                if k < front.len() {
                    assert(front[k] == x);
                    assert(front.contains(x));
                    assert(d.contains(x));
                    let m = choose|m: int| 0 <= m < d.len() && d[m] == x;
                    assert(r[m] == x);
                } else if d.contains(x) {
                    let m = choose|m: int| 0 <= m < d.len() && d[m] == x;
                    assert(r[m] == x);
                } else {
                    assert(r[d.len() as int] == x);
                }
            }
        }
    }
}

proof fn lemma_sorted(s: Seq<SigView>)
    requires
        s.no_duplicates(),
    ensures
        ascending(canon::sorted_sigs(s)),
        forall|x: SigView| #[trigger] canon::sorted_sigs(s).contains(x) <==> s.contains(x),
    decreases s.len(),
{
    if s.len() > 0 {
        let front = s.drop_last();
        lemma_sorted(front);
        let t = canon::sorted_sigs(front);
        assert(!t.contains(s.last())) by {
            if front.contains(s.last()) {
                let k = choose|k: int| 0 <= k < front.len() && front[k] == s.last();
                assert(s[k] == s[s.len() - 1]);
            }
        }
        lemma_insert(t, s.last());
        assert forall|x: SigView| #[trigger] canon::sorted_sigs(s).contains(x) <==> s.contains(
            x,
        ) by {
            if s.contains(x) {
                let k = choose|k: int| 0 <= k < s.len() && s[k] == x;
                if k < front.len() {
                    assert(front[k] == x);
                    assert(front.contains(x));
                }
            }
            if front.contains(x) {
                let k = choose|k: int| 0 <= k < front.len() && front[k] == x;
                assert(s[k] == x);
            }
            assert(s[s.len() - 1] == s.last());
        }
    }
}

proof fn lemma_ascending_front(a: Seq<SigView>)
    requires
        ascending(a),
        a.len() > 0,
    ensures
        ascending(a.drop_last()),
{
    let f = a.drop_last();
    assert forall|i: int, j: int| 0 <= i < j < f.len() implies order::sig_order(
        #[trigger] f[i],
        #[trigger] f[j],
    ) == Order::Less by {
        assert(f[i] == a[i] && f[j] == a[j]);
    }
}

/// What is in front of the last of an ascending sequence is not the last.
proof fn lemma_front_contains(a: Seq<SigView>, x: SigView)
    requires
        ascending(a),
        a.len() > 0,
    ensures
        a.drop_last().contains(x) <==> a.contains(x) && x != a.last(),
{
    let f = a.drop_last();
    lemma_sig_flip(x, x);
    if f.contains(x) {
        let i = choose|i: int| 0 <= i < f.len() && f[i] == x;
        assert(a[i] == x);
        assert(order::sig_order(a[i], a[a.len() - 1]) == Order::Less);
    }
    if a.contains(x) && x != a.last() {
        let i = choose|i: int| 0 <= i < a.len() && a[i] == x;
        assert(f[i] == x);
    }
}

proof fn lemma_same_last(a: Seq<SigView>, b: Seq<SigView>)
    requires
        ascending(a),
        ascending(b),
        a.len() > 0,
        b.len() > 0,
        a.contains(b.last()),
        b.contains(a.last()),
    ensures
        a.last() == b.last(),
{
    let i = choose|i: int| 0 <= i < a.len() && a[i] == b.last();
    let j = choose|j: int| 0 <= j < b.len() && b[j] == a.last();
    lemma_sig_flip(a.last(), b.last());
    if i < a.len() - 1 && j < b.len() - 1 {
        assert(order::sig_order(a[i], a[a.len() - 1]) == Order::Less);
        assert(order::sig_order(b[j], b[b.len() - 1]) == Order::Less);
    }
}

/// An ascending sequence is determined by what it holds.
proof fn lemma_ascending_unique(a: Seq<SigView>, b: Seq<SigView>)
    requires
        ascending(a),
        ascending(b),
        forall|x: SigView| #[trigger] a.contains(x) <==> b.contains(x),
    ensures
        a == b,
    decreases a.len(),
{
    if a.len() == 0 || b.len() == 0 {
        if b.len() > 0 {
            assert(b.contains(b[0]));
            assert(a.contains(b[0]));
        }
        if a.len() > 0 {
            assert(a.contains(a[0]));
        }
        assert(a =~= b);
    } else {
        assert(a[a.len() - 1] == a.last());
        assert(a.contains(a.last()));
        assert(b[b.len() - 1] == b.last());
        assert(b.contains(b.last()));
        assert(a.contains(b.last()));
        lemma_same_last(a, b);
        lemma_ascending_front(a);
        lemma_ascending_front(b);
        assert forall|x: SigView| #[trigger] a.drop_last().contains(x) <==> b.drop_last().contains(
            x,
        ) by {
            lemma_front_contains(a, x);
            lemma_front_contains(b, x);
            assert(a.contains(x) <==> b.contains(x));
        }
        lemma_ascending_unique(a.drop_last(), b.drop_last());
        assert(a =~= a.drop_last().push(a.last()));
        assert(b =~= b.drop_last().push(b.last()));
    }
}

/// The arms of a signature of mixed elements ascend, and are the distinct
/// signatures of the elements, two or more. A single kind of element stands for
/// itself, and no element is an empty container.
pub proof fn law_arms_are_the_distinct_signatures(s: Seq<SigView>)
    ensures
        s.len() == 0 ==> canon::homogenized(s) == SigView::Empty,
        ({
            let arms = canon::sorted_sigs(canon::distinct(s));
            &&& ascending(arms)
            &&& arms.no_duplicates()
            &&& forall|x: SigView| #[trigger] arms.contains(x) <==> s.contains(x)
            &&& s.len() > 0 ==> arms.len() > 0 && canon::homogenized(s) == (if arms.len() == 1 {
                arms[0]
            } else {
                SigView::Variant(arms)
            })
        }),
{
    lemma_distinct(s);
    let d = canon::distinct(s);
    let arms = canon::sorted_sigs(d);
    lemma_sorted(d);
    assert forall|i: int, j: int| 0 <= i < arms.len() && 0 <= j < arms.len() && i != j implies arms[i]
        != arms[j] by {
        lemma_sig_flip(arms[i], arms[j]);
        if i < j {
            assert(order::sig_order(arms[i], arms[j]) == Order::Less);
        } else {
            assert(order::sig_order(arms[j], arms[i]) == Order::Less);
        }
    }
    assert forall|x: SigView| #[trigger] arms.contains(x) <==> s.contains(x) by {
        assert(arms.contains(x) <==> d.contains(x));
        assert(d.contains(x) <==> s.contains(x));
    }
    if s.len() > 0 {
        assert(s.contains(s[0]));
        assert(arms.contains(s[0]));
    }
}

/// The signature of an array does not depend on the order of its elements,
/// nor on how often each kind of element occurs.
pub proof fn law_homogenized_is_canonical(a: Seq<SigView>, b: Seq<SigView>)
    requires
        forall|x: SigView| #[trigger] a.contains(x) <==> b.contains(x),
    ensures
        canon::homogenized(a) == canon::homogenized(b),
{
    lemma_distinct(a);
    lemma_distinct(b);
    let u = canon::sorted_sigs(canon::distinct(a));
    let v = canon::sorted_sigs(canon::distinct(b));
    lemma_sorted(canon::distinct(a));
    lemma_sorted(canon::distinct(b));
    assert forall|x: SigView| #[trigger] u.contains(x) <==> v.contains(x) by {
        assert(u.contains(x) <==> canon::distinct(a).contains(x));
        assert(v.contains(x) <==> canon::distinct(b).contains(x));
        assert(canon::distinct(a).contains(x) <==> a.contains(x));
        assert(canon::distinct(b).contains(x) <==> b.contains(x));
    }
    lemma_ascending_unique(u, v);
    if a.len() > 0 {
        assert(a.contains(a[0]));
        assert(b.contains(a[0]));
    }
    if b.len() > 0 {
        assert(b.contains(b[0]));
        assert(a.contains(b[0]));
    }
}

/// Texts are ordered as in a dictionary: the first character in which they
/// differ decides, and where there is none, the shorter text comes first.
pub proof fn law_texts_are_ordered_as_in_a_dictionary(
    p: Seq<char>,
    x: char,
    y: char,
    a: Seq<char>,
    b: Seq<char>,
)
    ensures
        order::chars_order(p, p) == Order::Equal,
        order::chars_order(p, p.push(x) + a) == Order::Less,
        order::chars_order(p.push(x) + a, p) == Order::Greater,
        x < y ==> order::chars_order(p.push(x) + a, p.push(y) + b) == Order::Less,
        x > y ==> order::chars_order(p.push(x) + a, p.push(y) + b) == Order::Greater,
    decreases p.len(),
{
    let s = p.push(x) + a;
    let t = p.push(y) + b;
    if p.len() > 0 {
        let rest = p.drop_first();
        law_texts_are_ordered_as_in_a_dictionary(rest, x, y, a, b);
        assert(s.drop_first() =~= rest.push(x) + a);
        assert(t.drop_first() =~= rest.push(y) + b);
        assert(s[0] == p[0] && t[0] == p[0]);
    } else {
        assert(s[0] == x && t[0] == y);
    }
}

/// Scalars come before arrays, these before records, these before choices, and
/// the empty signature comes last. Scalars are ordered from null to strings.
pub proof fn law_kinds_of_signatures_are_ordered(
    k: ScalarKind,
    e: SigView,
    fields: Seq<(Seq<char>, SigView)>,
    arms: Seq<SigView>,
)
    ensures
        order::sig_order(SigView::Scalar(k), SigView::Array(Box::new(e))) == Order::Less,
        order::sig_order(SigView::Array(Box::new(e)), SigView::Record(fields)) == Order::Less,
        order::sig_order(SigView::Record(fields), SigView::Variant(arms)) == Order::Less,
        order::sig_order(SigView::Variant(arms), SigView::Empty) == Order::Less,
        order::sig_order(SigView::Scalar(ScalarKind::Null), SigView::Scalar(ScalarKind::Bool))
            == Order::Less,
        order::sig_order(SigView::Scalar(ScalarKind::Bool), SigView::Scalar(ScalarKind::I64))
            == Order::Less,
        order::sig_order(SigView::Scalar(ScalarKind::I64), SigView::Scalar(ScalarKind::U64))
            == Order::Less,
        order::sig_order(SigView::Scalar(ScalarKind::U64), SigView::Scalar(ScalarKind::F64))
            == Order::Less,
        order::sig_order(SigView::Scalar(ScalarKind::F64), SigView::Scalar(ScalarKind::String))
            == Order::Less,
{
}

/// No field comes before one with a smaller name.
pub open spec fn by_name(s: Seq<(Seq<char>, SigView)>) -> bool {
    forall|i: int, j: int|
        0 <= i < j < s.len() ==> order::chars_order((#[trigger] s[i]).0, (#[trigger] s[j]).0)
            != Order::Greater
}

proof fn lemma_not_greater(a: Seq<char>, b: Seq<char>, c: Seq<char>)
    requires
        order::chars_order(a, b) != Order::Greater,
        order::chars_order(b, c) != Order::Greater,
    ensures
        order::chars_order(a, c) != Order::Greater,
{
    lemma_chars_flip(a, b);
    lemma_chars_flip(b, c);
    if order::chars_order(a, b) == Order::Less && order::chars_order(b, c) == Order::Less {
        lemma_chars_transitive(a, b, c);
    }
}

proof fn lemma_insert_field(s: Seq<(Seq<char>, SigView)>, e: (Seq<char>, SigView))
    requires
        by_name(s),
    ensures
        by_name(canon::insert_field(s, e)),
        canon::insert_field(s, e).to_multiset() =~= s.to_multiset().insert(e),
        canon::insert_field(s, e).len() == s.len() + 1,
    decreases s.len(),
{
    broadcast use vstd::seq_lib::group_to_multiset_ensures;

    let t = canon::insert_field(s, e);
    if s.len() > 0 && order::chars_order(s.last().0, e.0) == Order::Greater {
        let front = s.drop_last();
        let last = s.last();
        assert(by_name(front)) by {
            assert forall|i: int, j: int| 0 <= i < j < front.len() implies order::chars_order(
                (#[trigger] front[i]).0,
                (#[trigger] front[j]).0,
            ) != Order::Greater by {
                assert(front[i] == s[i] && front[j] == s[j]);
            }
        }
        lemma_insert_field(front, e);
        let u = canon::insert_field(front, e);
        assert(front.push(last) =~= s);
        assert forall|i: int, j: int| 0 <= i < j < t.len() implies order::chars_order(
            (#[trigger] t[i]).0,
            (#[trigger] t[j]).0,
        ) != Order::Greater by {
            if j < u.len() {
                assert(u[i] == t[i] && u[j] == t[j]);
            } else {
                assert(t[j] == last);
                assert(t[i] == u[i]);
                assert(u.to_multiset().contains(u[i]));
                assert(front.to_multiset().insert(e).contains(u[i]));
                lemma_chars_flip(last.0, e.0);
                if u[i] != e {
                    assert(front.to_multiset().contains(u[i]));
                    assert(front.contains(u[i]));
                    let k = choose|k: int| 0 <= k < front.len() && front[k] == u[i];
                    assert(s[k] == u[i] && s[s.len() - 1] == last);
                }
            }
        }
    } else {
        assert forall|i: int, j: int| 0 <= i < j < t.len() implies order::chars_order(
            (#[trigger] t[i]).0,
            (#[trigger] t[j]).0,
        ) != Order::Greater by {
            if j == s.len() && i < s.len() - 1 {
                assert(s[i] == t[i]);
                assert(s[s.len() - 1] == s.last());
                lemma_not_greater(s[i].0, s.last().0, e.0);
            } else if j < s.len() {
                assert(s[i] == t[i] && s[j] == t[j]);
            }
        }
    }
}

/// The fields of a record are put in the order of their names: all of them, and
/// nothing else.
pub proof fn law_fields_are_sorted_by_name(s: Seq<(Seq<char>, SigView)>)
    ensures
        by_name(canon::sorted_fields(s)),
        canon::sorted_fields(s).to_multiset() =~= s.to_multiset(),
    decreases s.len(),
{
    broadcast use vstd::seq_lib::group_to_multiset_ensures;

    if s.len() > 0 {
        law_fields_are_sorted_by_name(s.drop_last());
        lemma_insert_field(canon::sorted_fields(s.drop_last()), s.last());
        assert(s.drop_last().push(s.last()) =~= s);
    }
}

} // verus!
