//! Ngram sketches as the universal front end.
//!
//! Unigrams are exact. Bigrams and trigrams go through Space-Saving with a
//! small cap. Line geometry and bracket accounting live in the same pass
//! because they need the same bytes.
use crate::sketch::{SketchView, SpaceSaving};
use crate::sniff::brace;
use vstd::prelude::*;

verus! {

// ---------------------------------------------------------------------
// Grams
// ---------------------------------------------------------------------

#[verifier::ext_equal]
pub struct GramsView {
    pub units: u64,
    pub unigram: Seq<u64>,
    pub first_nonspace: Option<u8>,
    /// The last three bytes, or fewer where there were fewer since the last
    /// discontinuity.
    pub recent: Seq<u8>,
    pub bigram: SketchView<Seq<u8>>,
    pub trigram: Option<SketchView<Seq<u8>>>,
}

/// The last `n` of the bytes.
pub open spec fn tail(s: Seq<u8>, n: int) -> Seq<u8> {
    if s.len() <= n {
        s
    } else {
        s.skip(s.len() - n)
    }
}

/// A cap of zero keeps one counter all the same.
pub open spec fn at_least_one(cap: int) -> int {
    if cap == 0 {
        1
    } else {
        cap
    }
}

impl GramsView {
    pub open spec fn empty(bigram_cap: int, trigram_cap: Option<int>) -> GramsView {
        GramsView {
            units: 0,
            unigram: Seq::new(256, |i: int| 0u64),
            first_nonspace: None,
            recent: Seq::empty(),
            bigram: SketchView::empty(at_least_one(bigram_cap)),
            trigram: match trigram_cap {
                Some(cap) => Some(SketchView::empty(at_least_one(cap))),
                None => None,
            },
        }
    }

    pub open spec fn step(self, b: u8) -> GramsView {
        let recent = tail(self.recent.push(b), 3);
        GramsView {
            units: (self.units + 1) as u64,
            unigram: self.unigram.update(b as int, (self.unigram[b as int] + 1) as u64),
            first_nonspace: if self.first_nonspace is None && !brace::spec_is_space(b) {
                Some(b)
            } else {
                self.first_nonspace
            },
            recent,
            bigram: if recent.len() >= 2 {
                self.bigram.observe(tail(recent, 2))
            } else {
                self.bigram
            },
            trigram: match self.trigram {
                Some(t) => Some(
                    if recent.len() >= 3 {
                        t.observe(recent)
                    } else {
                        t
                    },
                ),
                None => None,
            },
        }
    }

    pub open spec fn wf(self) -> bool {
        &&& self.unigram.len() == 256
        &&& forall|i: int| 0 <= i < 256 ==> #[trigger] self.unigram[i] <= self.units
        &&& self.recent.len() <= 3
        &&& self.bigram.wf()
        &&& self.bigram.cap >= 1
        &&& self.bigram.observations <= self.units
        &&& self.trigram matches Some(t) ==> t.wf() && t.cap >= 1 && t.observations
            <= self.units
    }
}

pub proof fn lemma_grams_step(g: GramsView, b: u8)
    requires
        g.wf(),
        g.units < u64::MAX,
    ensures
        g.step(b).wf(),
        g.step(b).units == g.units + 1,
{
    let recent = tail(g.recent.push(b), 3);
    crate::sketch::lemma_observe_wf(g.bigram, tail(recent, 2));
    if let Some(t) = g.trigram {
        crate::sketch::lemma_observe_wf(t, recent);
    }
}

#[derive(Debug)]
pub struct Grams {
    units: u64,
    unigram: [u64; 256],
    first_nonspace: Option<u8>,
    /// Shift register for gram extraction; survives chunk edges.
    reg: [u8; 3],
    reg_len: usize,
    bigram: SpaceSaving<[u8; 2]>,
    trigram: Option<SpaceSaving<[u8; 3]>>,
}

impl Grams {
    pub closed spec fn reg_wf(self) -> bool {
        self.reg_len <= 3
    }
}

impl View for Grams {
    type V = GramsView;

    closed spec fn view(&self) -> GramsView {
        GramsView {
            units: self.units,
            unigram: self.unigram@,
            first_nonspace: self.first_nonspace,
            recent: tail(self.reg@, self.reg_len as int),
            bigram: self.bigram@,
            trigram: match self.trigram {
                Some(t) => Some(t@),
                None => None,
            },
        }
    }
}

impl Grams {
    pub fn new(bigram_cap: usize, trigram_cap: Option<usize>) -> (g: Self)
        ensures
            g.reg_wf(),
            g@ == GramsView::empty(
                bigram_cap as int,
                match trigram_cap {
                    Some(cap) => Some(cap as int),
                    None => None,
                },
            ),
            g@.wf(),
    {
        let g = Grams {
            units: 0,
            unigram: [0; 256],
            first_nonspace: None,
            reg: [0, 0, 0],
            reg_len: 0,
            bigram: SpaceSaving::new(bigram_cap),
            trigram: match trigram_cap {
                Some(cap) => Some(SpaceSaving::new(cap)),
                None => None,
            },
        };
        assert(g@.unigram =~= Seq::new(256, |i: int| 0u64));
        assert(g@.recent =~= Seq::empty());
        g
    }

    pub fn see(&mut self, b: u8)
        requires
            old(self).reg_wf(),
            old(self)@.wf(),
            old(self)@.units < u64::MAX,
        ensures
            final(self).reg_wf(),
            final(self)@ == old(self)@.step(b),
            final(self)@.wf(),
    {
        proof {
            lemma_grams_step(self@, b);
        }
        self.units += 1;
        let n: u64 = self.unigram[b as usize];
        self.unigram[b as usize] = n + 1;
        if self.first_nonspace.is_none() && !brace::is_space(b) {
            self.first_nonspace = Some(b);
        }
        let ghost before = tail(self.reg@, self.reg_len as int);
        self.reg = [self.reg[1], self.reg[2], b];
        if self.reg_len < 3 {
            self.reg_len += 1;
        }
        let ghost recent = tail(before.push(b), 3);
        assert(tail(self.reg@, self.reg_len as int) =~= recent);
        if self.reg_len >= 2 {
            let pair: [u8; 2] = [self.reg[1], self.reg[2]];
            assert(pair@ =~= tail(recent, 2));
            self.bigram.observe(pair);
        }
        if self.reg_len >= 3 {
            let triple: [u8; 3] = self.reg;
            assert(triple@ =~= recent);
            if let Some(t) = &mut self.trigram {
                t.observe(triple);
            }
        }
        assert(self@ =~= old(self)@.step(b));
    }

    /// Stops grams from spanning a seam.
    pub fn cut(&mut self)
        requires
            old(self)@.wf(),
        ensures
            final(self).reg_wf(),
            final(self)@ == (GramsView { recent: Seq::empty(), ..old(self)@ }),
            final(self)@.wf(),
    {
        self.reg_len = 0;
        assert(self@.recent =~= Seq::empty());
    }

    /// The counts, out of the builder.
    pub fn into_counts(self) -> (r: (
        u64,
        [u64; 256],
        Option<u8>,
        SpaceSaving<[u8; 2]>,
        Option<SpaceSaving<[u8; 3]>>,
    ))
        ensures
            r.0 == self@.units,
            r.1@ == self@.unigram,
            r.2 == self@.first_nonspace,
            r.3@ == self@.bigram,
            self@.trigram == (match r.4 {
                Some(t) => Some(t@),
                None => None,
            }),
    {
        (self.units, self.unigram, self.first_nonspace, self.bigram, self.trigram)
    }

    pub fn duplicate(&self) -> (r: Self)
        requires
            self.reg_wf(),
        ensures
            r.reg_wf(),
            r@ == self@,
    {
        Grams {
            units: self.units,
            unigram: self.unigram,
            first_nonspace: self.first_nonspace,
            reg: self.reg,
            reg_len: self.reg_len,
            bigram: self.bigram.duplicate(),
            trigram: match &self.trigram {
                Some(t) => Some(t.duplicate()),
                None => None,
            },
        }
    }
}

} // verus!
