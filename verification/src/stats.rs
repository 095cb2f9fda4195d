//! Where and how often a shape was observed.
use crate::path::syntax::StepView;
use crate::path::Path;
use vstd::prelude::*;

verus! {

#[derive(Debug)]
pub struct Stats {
    pub observation_count: u64,
    pub first_doc_ordinal: u64,
    pub last_doc_ordinal: u64,
    pub exemplars: Vec<Exemplar>,
}

/// A back-pointer into the input stream.
#[derive(Debug)]
pub struct Exemplar {
    pub doc_ordinal: u64,
    pub full_path: Path,
}

#[verifier::ext_equal]
pub struct StatsView {
    pub observation_count: u64,
    pub first_doc_ordinal: u64,
    pub last_doc_ordinal: u64,
    pub exemplars: Seq<(u64, Seq<StepView>)>,
}

impl View for Stats {
    type V = StatsView;

    open spec fn view(&self) -> StatsView {
        StatsView {
            observation_count: self.observation_count,
            first_doc_ordinal: self.first_doc_ordinal,
            last_doc_ordinal: self.last_doc_ordinal,
            exemplars: self.exemplars@.map_values(|e: Exemplar| (e.doc_ordinal, e.full_path@)),
        }
    }
}

/// Statistics without exemplars.
pub open spec fn plain_stats(count: u64, first: u64, last: u64) -> StatsView {
    StatsView {
        observation_count: count,
        first_doc_ordinal: first,
        last_doc_ordinal: last,
        exemplars: Seq::empty(),
    }
}

impl Stats {
    pub fn plain(count: u64, first: u64, last: u64) -> (s: Stats)
        ensures
            s@ == plain_stats(count, first, last),
    {
        let s = Stats {
            observation_count: count,
            first_doc_ordinal: first,
            last_doc_ordinal: last,
            exemplars: Vec::new(),
        };
        assert(s@ =~= plain_stats(count, first, last));
        s
    }
}

impl Clone for Exemplar {
    fn clone(&self) -> (r: Exemplar)
        ensures
            r.doc_ordinal == self.doc_ordinal,
            r.full_path@ == self.full_path@,
    {
        Exemplar { doc_ordinal: self.doc_ordinal, full_path: self.full_path.copied() }
    }
}

impl Clone for Stats {
    fn clone(&self) -> (r: Stats)
        ensures
            r@ == self@,
    {
        let mut exemplars: Vec<Exemplar> = Vec::new();
        let mut i: usize = 0;
        while i < self.exemplars.len()
            invariant
                i <= self.exemplars@.len(),
                exemplars@.len() == i,
                forall|k: int|
                    0 <= k < i ==> (#[trigger] exemplars@[k]).doc_ordinal
                        == self.exemplars@[k].doc_ordinal && exemplars@[k].full_path@
                        == self.exemplars@[k].full_path@,
            decreases self.exemplars@.len() - i,
        {
            exemplars.push(self.exemplars[i].clone());
            i += 1;
        }
        let r = Stats {
            observation_count: self.observation_count,
            first_doc_ordinal: self.first_doc_ordinal,
            last_doc_ordinal: self.last_doc_ordinal,
            exemplars,
        };
        assert(r@ =~= self@);
        r
    }
}

impl Default for Stats {
    fn default() -> (s: Stats)
        ensures
            s@ == plain_stats(0, 0, 0),
    {
        Stats::plain(0, 0, 0)
    }
}

} // verus!
