//! Structural signatures of observed values, by which array elements are
//! clustered.
use crate::sketch::SketchKey;
use vstd::prelude::*;

verus! {

#[derive(Clone, Copy, Debug, Eq, Hash, PartialEq, Ord, PartialOrd, Structural)]
pub enum ScalarKind {
    Null,
    Bool,
    I64,
    U64,
    F64,
    String,
}

impl ScalarKind {
    pub open spec fn place(self) -> int {
        match self {
            ScalarKind::Null => 0,
            ScalarKind::Bool => 1,
            ScalarKind::I64 => 2,
            ScalarKind::U64 => 3,
            ScalarKind::F64 => 4,
            ScalarKind::String => 5,
        }
    }

    pub fn index(self) -> (i: usize)
        ensures
            i == self.place(),
            i < 6,
    {
        match self {
            ScalarKind::Null => 0,
            ScalarKind::Bool => 1,
            ScalarKind::I64 => 2,
            ScalarKind::U64 => 3,
            ScalarKind::F64 => 4,
            ScalarKind::String => 5,
        }
    }

    pub open spec fn nth(i: int) -> ScalarKind {
        if i == 0 {
            ScalarKind::Null
        } else if i == 1 {
            ScalarKind::Bool
        } else if i == 2 {
            ScalarKind::I64
        } else if i == 3 {
            ScalarKind::U64
        } else if i == 4 {
            ScalarKind::F64
        } else {
            ScalarKind::String
        }
    }

    pub fn at(i: usize) -> (k: ScalarKind)
        ensures
            k == ScalarKind::nth(i as int),
    {
        match i {
            0 => ScalarKind::Null,
            1 => ScalarKind::Bool,
            2 => ScalarKind::I64,
            3 => ScalarKind::U64,
            4 => ScalarKind::F64,
            _ => ScalarKind::String,
        }
    }
}

/// Canonicalized structural signature of a single observed value. Record
/// fields are sorted by name; variant arms are sorted by their own order.
#[derive(Debug)]
pub enum Sig {
    Scalar(ScalarKind),
    Array(Box<Sig>),
    Record(Vec<(String, Sig)>),
    /// Heterogeneous element/value within a single container. Arms are
    /// deduped and sorted.
    Variant(Vec<Sig>),
    /// Container with no children observed (empty array/object).
    Empty,
}

pub enum SigView {
    Scalar(ScalarKind),
    Array(Box<SigView>),
    Record(Seq<(Seq<char>, SigView)>),
    Variant(Seq<SigView>),
    Empty,
}

pub open spec fn sig_view(s: Sig) -> SigView
    decreases s,
{
    match s {
        Sig::Scalar(k) => SigView::Scalar(k),
        Sig::Array(inner) => SigView::Array(Box::new(sig_view(*inner))),
        Sig::Record(fields) => SigView::Record(fields_view(fields@)),
        Sig::Variant(arms) => SigView::Variant(arms_view(arms@)),
        Sig::Empty => SigView::Empty,
    }
}

pub open spec fn fields_view(v: Seq<(String, Sig)>) -> Seq<(Seq<char>, SigView)>
    decreases v,
{
    if v.len() == 0 {
        Seq::empty()
    } else {
        fields_view(v.drop_last()).push((v.last().0@, sig_view(v.last().1)))
    }
}

pub open spec fn arms_view(v: Seq<Sig>) -> Seq<SigView>
    decreases v,
{
    if v.len() == 0 {
        Seq::empty()
    } else {
        arms_view(v.drop_last()).push(sig_view(v.last()))
    }
}

impl View for Sig {
    type V = SigView;

    open spec fn view(&self) -> SigView {
        sig_view(*self)
    }
}

pub proof fn lemma_fields_view(v: Seq<(String, Sig)>)
    ensures
        fields_view(v).len() == v.len(),
        forall|i: int|
            0 <= i < v.len() ==> #[trigger] fields_view(v)[i] == (v[i].0@, sig_view(v[i].1)),
    decreases v.len(),
{
    if v.len() > 0 {
        lemma_fields_view(v.drop_last());
    }
}

pub proof fn lemma_arms_view(v: Seq<Sig>)
    ensures
        arms_view(v).len() == v.len(),
        forall|i: int| 0 <= i < v.len() ==> #[trigger] arms_view(v)[i] == sig_view(v[i]),
    decreases v.len(),
{
    if v.len() > 0 {
        lemma_arms_view(v.drop_last());
    }
}

impl Sig {
    /// Whether two signatures are the same.
    pub fn equals(&self, other: &Sig) -> (b: bool)
        ensures
            b == (self@ == other@),
        decreases self,
    {
        match (self, other) {
            (Sig::Scalar(a), Sig::Scalar(b)) => *a == *b,
            (Sig::Array(a), Sig::Array(b)) => a.equals(b),
            (Sig::Record(a), Sig::Record(b)) => {
                proof {
                    lemma_fields_view(a@);
                    lemma_fields_view(b@);
                }
                if a.len() != b.len() {
                    return false;
                }
                let mut i: usize = 0;
                while i < a.len()
                    invariant
                        i <= a@.len() == b@.len(),
                        *self == Sig::Record(*a),
                        fields_view(a@).len() == a@.len(),
                        fields_view(b@).len() == b@.len(),
                        forall|k: int|
                            0 <= k < a@.len() ==> #[trigger] fields_view(a@)[k] == (
                                a@[k].0@,
                                sig_view(a@[k].1),
                            ),
                        forall|k: int|
                            0 <= k < b@.len() ==> #[trigger] fields_view(b@)[k] == (
                                b@[k].0@,
                                sig_view(b@[k].1),
                            ),
                        forall|k: int|
                            0 <= k < i ==> #[trigger] fields_view(a@)[k] == fields_view(b@)[k],
                        sig_view(*self) == SigView::Record(fields_view(a@)),
                        sig_view(*other) == SigView::Record(fields_view(b@)),
                    decreases a@.len() - i,
                {
                    assert(fields_view(a@)[i as int] == (a@[i as int].0@, sig_view(a@[i as int].1)));
                    assert(fields_view(b@)[i as int] == (b@[i as int].0@, sig_view(b@[i as int].1)));
                    assert(decreases_to!(*self => a@[i as int].1));
                    if a[i].0 != b[i].0 || !a[i].1.equals(&b[i].1) {
                        return false;
                    }
                    i += 1;
                }
                assert(fields_view(a@) =~= fields_view(b@));
                true
            },
            (Sig::Variant(a), Sig::Variant(b)) => {
                proof {
                    lemma_arms_view(a@);
                    lemma_arms_view(b@);
                }
                if a.len() != b.len() {
                    return false;
                }
                let mut i: usize = 0;
                while i < a.len()
                    invariant
                        i <= a@.len() == b@.len(),
                        *self == Sig::Variant(*a),
                        arms_view(a@).len() == a@.len(),
                        arms_view(b@).len() == b@.len(),
                        forall|k: int|
                            0 <= k < a@.len() ==> #[trigger] arms_view(a@)[k] == sig_view(a@[k]),
                        forall|k: int|
                            0 <= k < b@.len() ==> #[trigger] arms_view(b@)[k] == sig_view(b@[k]),
                        forall|k: int|
                            0 <= k < i ==> #[trigger] arms_view(a@)[k] == arms_view(b@)[k],
                        sig_view(*self) == SigView::Variant(arms_view(a@)),
                        sig_view(*other) == SigView::Variant(arms_view(b@)),
                    decreases a@.len() - i,
                {
                    assert(arms_view(a@)[i as int] == sig_view(a@[i as int]));
                    assert(arms_view(b@)[i as int] == sig_view(b@[i as int]));
                    assert(decreases_to!(*self => a@[i as int]));
                    if !a[i].equals(&b[i]) {
                        return false;
                    }
                    i += 1;
                }
                assert(arms_view(a@) =~= arms_view(b@));
                true
            },
            (Sig::Empty, Sig::Empty) => true,
            _ => false,
        }
    }

    /// A signature with the same content.
    pub fn copied(&self) -> (r: Sig)
        ensures
            r@ == self@,
        decreases self,
    {
        match self {
            Sig::Scalar(k) => Sig::Scalar(*k),
            Sig::Array(inner) => Sig::Array(Box::new(inner.copied())),
            Sig::Record(fields) => {
                let mut out: Vec<(String, Sig)> = Vec::new();
                let mut i: usize = 0;
                while i < fields.len()
                    invariant
                        i <= fields@.len(),
                        *self == Sig::Record(*fields),
                        fields_view(out@) == fields_view(fields@.take(i as int)),
                    decreases fields@.len() - i,
                {
                    assert(decreases_to!(*self => self->Record_0));
                    assert(decreases_to!(self->Record_0 => fields@[i as int].1));
                    let ghost before = out@;
                    out.push((fields[i].0.clone(), fields[i].1.copied()));
                    assert(out@.drop_last() =~= before);
                    i += 1;
                    assert(fields@.take(i as int).drop_last() =~= fields@.take(i - 1));
                }
                assert(fields@.take(i as int) =~= fields@);
                Sig::Record(out)
            },
            Sig::Variant(arms) => {
                let mut out: Vec<Sig> = Vec::new();
                let mut i: usize = 0;
                while i < arms.len()
                    invariant
                        i <= arms@.len(),
                        *self == Sig::Variant(*arms),
                        arms_view(out@) == arms_view(arms@.take(i as int)),
                    decreases arms@.len() - i,
                {
                    assert(decreases_to!(*self => self->Variant_0));
                    assert(decreases_to!(self->Variant_0 => arms@[i as int]));
                    let ghost before = out@;
                    out.push(arms[i].copied());
                    assert(out@.drop_last() =~= before);
                    i += 1;
                    assert(arms@.take(i as int).drop_last() =~= arms@.take(i - 1));
                }
                assert(arms@.take(i as int) =~= arms@);
                Sig::Variant(out)
            },
            Sig::Empty => Sig::Empty,
        }
    }
}

impl SketchKey for Sig {
    fn same(&self, other: &Self) -> (b: bool) {
        self.equals(other)
    }

    fn duplicate(&self) -> (r: Self) {
        self.copied()
    }
}

} // verus!
