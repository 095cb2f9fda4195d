//! Canonical signatures of containers.
use crate::analyze::order;
use crate::analyze::order::Order;
use crate::analyze::sig;
use crate::analyze::sig::{Sig, SigView};
use vstd::prelude::*;

pub mod laws;

verus! {

/// Each signature once, in the order in which they first came.
pub open spec fn distinct(s: Seq<SigView>) -> Seq<SigView>
    decreases s.len(),
{
    if s.len() == 0 {
        s
    } else {
        let before = distinct(s.drop_last());
        if before.contains(s.last()) {
            before
        } else {
            before.push(s.last())
        }
    }
}

/// The sequence with `e` put behind every signature that is not greater.
pub open spec fn insert_sig(s: Seq<SigView>, e: SigView) -> Seq<SigView>
    decreases s.len(),
{
    if s.len() > 0 && order::sig_order(s.last(), e) == Order::Greater {
        insert_sig(s.drop_last(), e).push(s.last())
    } else {
        s.push(e)
    }
}

pub open spec fn sorted_sigs(s: Seq<SigView>) -> Seq<SigView>
    decreases s.len(),
{
    if s.len() == 0 {
        s
    } else {
        insert_sig(sorted_sigs(s.drop_last()), s.last())
    }
}

/// One signature for a number of them: the empty one for none, the signature
/// itself where they are all the same, and else the variant of them.
pub open spec fn homogenized(s: Seq<SigView>) -> SigView {
    let u = sorted_sigs(distinct(s));
    if s.len() == 0 {
        SigView::Empty
    } else if u.len() == 1 {
        u[0]
    } else {
        SigView::Variant(u)
    }
}

/// The sequence with `e` put behind every field whose name is not greater.
pub open spec fn insert_field(
    s: Seq<(Seq<char>, SigView)>,
    e: (Seq<char>, SigView),
) -> Seq<(Seq<char>, SigView)>
    decreases s.len(),
{
    if s.len() > 0 && order::chars_order(s.last().0, e.0) == Order::Greater {
        insert_field(s.drop_last(), e).push(s.last())
    } else {
        s.push(e)
    }
}

/// The fields by name; fields of one name keep their order.
pub open spec fn sorted_fields(s: Seq<(Seq<char>, SigView)>) -> Seq<(Seq<char>, SigView)>
    decreases s.len(),
{
    if s.len() == 0 {
        s
    } else {
        insert_field(sorted_fields(s.drop_last()), s.last())
    }
}

fn contains_sig(v: &Vec<Sig>, e: &Sig) -> (b: bool)
    ensures
        b == sig::arms_view(v@).contains(e@),
{
    proof {
        sig::lemma_arms_view(v@);
    }
    let ghost s = sig::arms_view(v@);
    let mut i: usize = 0;
    while i < v.len()
        invariant
            i <= v@.len() == s.len(),
            forall|k: int| 0 <= k < v@.len() ==> #[trigger] s[k] == sig::sig_view(v@[k]),
            forall|k: int| 0 <= k < i ==> #[trigger] s[k] != e@,
            s == sig::arms_view(v@),
        decreases v@.len() - i,
    {
        assert(s[i as int] == sig::sig_view(v@[i as int]));
        if v[i].equals(e) {
            return true;
        }
        i += 1;
    }
    false
}

fn insert_into(v: &mut Vec<Sig>, e: Sig)
    ensures
        sig::arms_view(final(v)@) == insert_sig(sig::arms_view(old(v)@), e@),
{
    let ghost s = sig::arms_view(v@);
    proof {
        sig::lemma_arms_view(v@);
    }
    let mut p: usize = v.len();
    assert(s.take(p as int) =~= s);
    assert(s.skip(p as int) =~= Seq::empty());
    assert(insert_sig(s, e@) =~= insert_sig(s.take(p as int), e@) + s.skip(p as int));
    while p > 0 && order::order_of_sigs(&v[p - 1], &e) == Order::Greater
        invariant
            p <= v@.len() == s.len(),
            v@ == old(v)@,
            s == sig::arms_view(v@),
            forall|k: int| 0 <= k < v@.len() ==> #[trigger] s[k] == sig::sig_view(v@[k]),
            insert_sig(s, e@) == insert_sig(s.take(p as int), e@) + s.skip(p as int),
        decreases p,
    {
        let ghost upto = s.take(p as int);
        assert(upto.drop_last() =~= s.take(p - 1));
        assert(upto.last() == s[p - 1]);
        assert(insert_sig(upto.drop_last(), e@).push(upto.last()) + s.skip(p as int)
            =~= insert_sig(upto.drop_last(), e@) + s.skip(p - 1));
        p -= 1;
    }
    let ghost upto = s.take(p as int);
    assert(p > 0 ==> upto.last() == s[p - 1]);
    let ghost g = e@;
    v.insert(p, e);
    proof {
        sig::lemma_arms_view(v@);
        assert(sig::arms_view(v@) =~= upto.push(g) + s.skip(p as int));
    }
}

/// One signature for the children of a container.
pub fn homogenize(sigs: Vec<Sig>) -> (r: Sig)
    ensures
        r@ == homogenized(sig::arms_view(sigs@)),
{
    if sigs.len() == 0 {
        return Sig::Empty;
    }
    let ghost s = sig::arms_view(sigs@);
    proof {
        sig::lemma_arms_view(sigs@);
    }
    let mut unique: Vec<Sig> = Vec::new();
    let mut i: usize = 0;
    assert(s.take(0) =~= Seq::<SigView>::empty());
    while i < sigs.len()
        invariant
            i <= sigs@.len() == s.len(),
            forall|k: int| 0 <= k < s.len() ==> #[trigger] s[k] == sig::sig_view(sigs@[k]),
            sig::arms_view(unique@) == distinct(s.take(i as int)),
        decreases sigs@.len() - i,
    {
        let ghost upto = s.take(i + 1);
        assert(upto.drop_last() =~= s.take(i as int));
        assert(upto.last() == s[i as int]);
        if !contains_sig(&unique, &sigs[i]) {
            let ghost before = unique@;
            unique.push(sigs[i].copied());
            assert(unique@.drop_last() =~= before);
        }
        i += 1;
    }
    assert(s.take(i as int) =~= s);
    let ghost d = sig::arms_view(unique@);
    proof {
        sig::lemma_arms_view(unique@);
    }
    let mut out: Vec<Sig> = Vec::new();
    let mut j: usize = 0;
    assert(d.take(0) =~= Seq::<SigView>::empty());
    while j < unique.len()
        invariant
            j <= unique@.len() == d.len(),
            forall|k: int| 0 <= k < d.len() ==> #[trigger] d[k] == sig::sig_view(unique@[k]),
            sig::arms_view(out@) == sorted_sigs(d.take(j as int)),
        decreases unique@.len() - j,
    {
        let ghost upto = d.take(j + 1);
        assert(upto.drop_last() =~= d.take(j as int));
        assert(upto.last() == d[j as int]);
        let e = unique[j].copied();
        insert_into(&mut out, e);
        j += 1;
    }
    assert(d.take(j as int) =~= d);
    proof {
        sig::lemma_arms_view(out@);
    }
    if out.len() == 1 {
        let r = out.remove(0);
        r
    } else {
        Sig::Variant(out)
    }
}

fn insert_named(v: &mut Vec<(String, Sig)>, e: (String, Sig))
    ensures
        sig::fields_view(final(v)@) == insert_field(
            sig::fields_view(old(v)@),
            (e.0@, sig::sig_view(e.1)),
        ),
{
    let ghost s = sig::fields_view(v@);
    let ghost g = (e.0@, sig::sig_view(e.1));
    proof {
        sig::lemma_fields_view(v@);
    }
    let mut p: usize = v.len();
    assert(s.take(p as int) =~= s);
    assert(s.skip(p as int) =~= Seq::empty());
    assert(insert_field(s, g) =~= insert_field(s.take(p as int), g) + s.skip(p as int));
    while p > 0 && order::order_of_texts(&v[p - 1].0, &e.0) == Order::Greater
        invariant
            p <= v@.len() == s.len(),
            v@ == old(v)@,
            s == sig::fields_view(v@),
            g == (e.0@, sig::sig_view(e.1)),
            forall|k: int|
                0 <= k < v@.len() ==> #[trigger] s[k] == (v@[k].0@, sig::sig_view(v@[k].1)),
            insert_field(s, g) == insert_field(s.take(p as int), g) + s.skip(p as int),
        decreases p,
    {
        let ghost upto = s.take(p as int);
        assert(upto.drop_last() =~= s.take(p - 1));
        assert(upto.last() == s[p - 1]);
        assert(insert_field(upto.drop_last(), g).push(upto.last()) + s.skip(p as int)
            =~= insert_field(upto.drop_last(), g) + s.skip(p - 1));
        p -= 1;
    }
    let ghost upto = s.take(p as int);
    assert(p > 0 ==> upto.last() == s[p - 1]);
    v.insert(p, e);
    proof {
        sig::lemma_fields_view(v@);
        assert(sig::fields_view(v@) =~= upto.push(g) + s.skip(p as int));
    }
}

/// The signature of an object from the signatures of its values.
pub fn record_sig(children: Vec<(String, Sig)>) -> (r: Sig)
    ensures
        r@ == SigView::Record(sorted_fields(sig::fields_view(children@))),
{
    let ghost s = sig::fields_view(children@);
    proof {
        sig::lemma_fields_view(children@);
    }
    let mut rest = children;
    let mut out: Vec<(String, Sig)> = Vec::new();
    let n: usize = rest.len();
    let mut i: usize = 0;
    assert(s.take(0) =~= Seq::empty());
    assert(children@.skip(0) =~= children@);
    while i < n
        invariant
            i <= n == children@.len() == s.len(),
            rest@ == children@.skip(i as int),
            forall|k: int|
                0 <= k < s.len() ==> #[trigger] s[k] == (
                    children@[k].0@,
                    sig::sig_view(children@[k].1),
                ),
            sig::fields_view(out@) == sorted_fields(s.take(i as int)),
        decreases n - i,
    {
        let ghost upto = s.take(i + 1);
        assert(upto.drop_last() =~= s.take(i as int));
        assert(upto.last() == s[i as int]);
        let e = rest.remove(0);
        insert_named(&mut out, e);
        assert(rest@ =~= children@.skip(i + 1));
        i += 1;
    }
    assert(s.take(i as int) =~= s);
    Sig::Record(out)
}

} // verus!
