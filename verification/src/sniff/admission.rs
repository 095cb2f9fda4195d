//! Sampling without seeking: which bytes of a stream are profiled.
//!
//! A contiguous prefix is admitted, then a window, a skip, a window, a skip,
//! with the skip doubling each time, for at most `budget.windows` windows.
use crate::sniff::profile::{BuilderView, ProfileBuilder};
use crate::sniff::sample::Budget;
use vstd::prelude::*;

verus! {

#[derive(Clone, Copy, Debug, Eq, PartialEq, Structural)]
pub enum Phase {
    /// Contiguous profiling from byte zero.
    Prefix,
    /// Discarding bytes between windows.
    Skip,
    /// Discarding up to the next newline so the window opens on a line
    /// boundary.
    Align,
    /// Profiling a sampled window.
    Window,
    /// Budget exhausted; nothing further is profiled.
    Done,
}

#[derive(Clone, Copy, Debug)]
pub struct Admission {
    pub budget: Budget,
    pub phase: Phase,
    pub left: u64,
    pub skip: u64,
    pub windows_taken: u64,
    pub profiled: u64,
    /// A discontinuity is pending: the next admitted byte does not follow
    /// the previous admitted byte.
    pub seam: bool,
}

pub open spec fn doubled(n: u64) -> u64 {
    if n * 2 <= u64::MAX {
        (n * 2) as u64
    } else {
        u64::MAX
    }
}

impl Admission {
    pub open spec fn fresh(budget: Budget) -> Admission {
        let skip: u64 = if budget.window == 0 {
            1
        } else {
            budget.window as u64
        };
        Admission {
            budget,
            phase: if budget.prefix == 0 {
                Phase::Skip
            } else {
                Phase::Prefix
            },
            left: if budget.prefix == 0 {
                skip
            } else {
                budget.prefix as u64
            },
            skip,
            windows_taken: 0,
            profiled: 0,
            seam: false,
        }
    }

    /// The next phase.
    pub open spec fn advanced(self) -> Admission {
        match self.phase {
            Phase::Prefix => if self.budget.windows == 0 {
                Admission { left: 0, phase: Phase::Done, ..self }
            } else {
                Admission { left: self.skip, phase: Phase::Skip, ..self }
            },
            Phase::Skip => Admission {
                left: self.budget.window as u64,
                phase: Phase::Align,
                ..self
            },
            Phase::Align => if self.windows_taken >= self.budget.windows {
                Admission { left: 0, phase: Phase::Done, ..self }
            } else {
                Admission {
                    left: self.budget.window as u64,
                    windows_taken: (self.windows_taken + 1) as u64,
                    seam: true,
                    phase: Phase::Window,
                    ..self
                }
            },
            Phase::Window => Admission {
                skip: doubled(self.skip),
                left: doubled(self.skip),
                phase: Phase::Skip,
                ..self
            },
            Phase::Done => self,
        }
    }

    pub open spec fn phases_to_go(self) -> int {
        if self.left > 0 {
            0
        } else {
            match self.phase {
                Phase::Skip => 3,
                Phase::Align => 2,
                Phase::Window => 1,
                Phase::Prefix => 1,
                Phase::Done => 0,
            }
        }
    }

    /// The state in which the next byte is met: phases that have nothing
    /// left are over, and so is the sampling once the budget is spent.
    pub open spec fn settled(self) -> Admission
        decreases self.phases_to_go(),
        when self.skip > 0
    {
        if self.phase == Phase::Done {
            self
        } else if self.profiled >= self.budget.max_bytes {
            Admission { phase: Phase::Done, ..self }
        } else if self.left == 0 {
            self.advanced().settled()
        } else {
            self
        }
    }

    /// The state behind a byte that is met in this, settled, state.
    pub open spec fn taken(self, b: u8) -> Admission {
        match self.phase {
            Phase::Prefix | Phase::Window => Admission {
                seam: false,
                profiled: (self.profiled + 1) as u64,
                left: (self.left - 1) as u64,
                ..self
            },
            Phase::Skip => Admission { left: (self.left - 1) as u64, ..self },
            Phase::Align => Admission {
                left: if b == 0x0a {
                    0
                } else {
                    (self.left - 1) as u64
                },
                ..self
            },
            Phase::Done => self,
        }
    }

    /// Whether a byte that is met in this, settled, state is profiled.
    pub open spec fn admits(self) -> bool {
        self.phase == Phase::Prefix || self.phase == Phase::Window
    }

    /// The state behind a run of bytes.
    pub open spec fn run(self, bytes: Seq<u8>) -> Admission
        decreases bytes.len(),
    {
        if bytes.len() == 0 {
            self
        } else {
            self.run(bytes.drop_last()).settled().taken(bytes.last())
        }
    }

    /// The bytes of a run that are profiled, each with whether a
    /// discontinuity precedes it.
    pub open spec fn admitted(self, bytes: Seq<u8>) -> Seq<(u8, bool)>
        decreases bytes.len(),
    {
        if bytes.len() == 0 {
            Seq::empty()
        } else {
            let before = self.admitted(bytes.drop_last());
            let s = self.run(bytes.drop_last()).settled();
            if s.admits() {
                before.push((bytes.last(), s.seam))
            } else {
                before
            }
        }
    }

    /// How many discontinuities can still come.
    pub open spec fn seams_to_go(self) -> int {
        self.budget.windows - self.windows_taken + (if self.seam {
            1int
        } else {
            0int
        })
    }

    pub open spec fn wf(self) -> bool {
        &&& self.skip > 0
        &&& self.profiled <= self.budget.max_bytes
        &&& self.windows_taken <= self.budget.windows
    }
}

/// The profile behind a sequence of admitted bytes.
pub open spec fn profiled(s: BuilderView, events: Seq<(u8, bool)>) -> BuilderView
    decreases events.len(),
{
    if events.len() == 0 {
        s
    } else {
        let before = profiled(s, events.drop_last());
        let (b, seam) = events.last();
        (if seam {
            before.boundary()
        } else {
            before
        }).step(b)
    }
}

pub proof fn lemma_settled(s: Admission)
    requires
        s.wf(),
    ensures
        s.settled().wf(),
        s.settled().settled() == s.settled(),
        s.settled().phase == Phase::Done || (s.settled().left > 0 && s.settled().profiled
            < s.settled().budget.max_bytes),
        s.settled().budget == s.budget,
        s.settled().profiled == s.profiled,
        s.settled().seams_to_go() <= s.seams_to_go(),
    decreases s.phases_to_go(),
{
    if s.phase != Phase::Done && s.profiled < s.budget.max_bytes && s.left == 0 {
        lemma_settled(s.advanced());
    }
}

pub proof fn lemma_taken(s: Admission, b: u8)
    requires
        s.wf(),
        s.phase == Phase::Done || (s.left > 0 && s.profiled < s.budget.max_bytes),
    ensures
        s.taken(b).wf(),
        s.taken(b).budget == s.budget,
        s.taken(b).seams_to_go() == s.seams_to_go() - (if s.admits() && s.seam {
            1int
        } else {
            0int
        }),
        s.taken(b).profiled == s.profiled + (if s.admits() {
            1int
        } else {
            0int
        }),
{
}

/// Whether a state was settled before a run does not matter.
pub proof fn lemma_run_settled(s: Admission, bytes: Seq<u8>)
    requires
        s.wf(),
    ensures
        s.settled().run(bytes).settled() == s.run(bytes).settled(),
        s.settled().admitted(bytes) == s.admitted(bytes),
    decreases bytes.len(),
{
    lemma_settled(s);
    if bytes.len() > 0 {
        lemma_run_settled(s, bytes.drop_last());
    }
}

/// A run of bytes keeps the budget: each byte that is admitted is counted, and
/// no more than `max_bytes` are.
pub proof fn law_admission_keeps_the_budget(s: Admission, bytes: Seq<u8>)
    requires
        s.wf(),
    ensures
        s.run(bytes).wf(),
        s.run(bytes).budget == s.budget,
        s.run(bytes).profiled == s.profiled + s.admitted(bytes).len(),
        s.profiled + s.admitted(bytes).len() <= s.budget.max_bytes,
        s.admitted(bytes).len() <= bytes.len(),
    decreases bytes.len(),
{
    if bytes.len() > 0 {
        let front = bytes.drop_last();
        law_admission_keeps_the_budget(s, front);
        lemma_settled(s.run(front));
        lemma_taken(s.run(front).settled(), bytes.last());
    }
}

/// How many of a sequence of admitted bytes a discontinuity precedes.
pub open spec fn seams(events: Seq<(u8, bool)>) -> int
    decreases events.len(),
{
    if events.len() == 0 {
        0
    } else {
        seams(events.drop_last()) + (if events.last().1 {
            1int
        } else {
            0int
        })
    }
}

impl Admission {
    /// What has been profiled lies in the prefix and in the windows that were
    /// opened, and a discontinuity is pending exactly where a window has just
    /// been opened (without a meaning where windows are empty).
    pub open spec fn in_step(self) -> bool {
        let window = self.budget.window as int;
        &&& self.profiled <= self.budget.prefix + self.windows_taken * window - (
        match self.phase {
            Phase::Prefix | Phase::Window => self.left as int,
            _ => 0,
        })
        &&& self.phase == Phase::Prefix ==> self.windows_taken == 0 && !self.seam
        &&& self.phase == Phase::Window ==> self.left <= window
        &&& self.phase == Phase::Window && window > 0 ==> (self.seam <==> self.left == window)
        &&& (self.phase == Phase::Skip || self.phase == Phase::Align) && window > 0 ==> !self.seam
    }
}

proof fn lemma_settled_in_step(s: Admission)
    requires
        s.wf(),
        s.in_step(),
    ensures
        s.settled().in_step(),
        s.settled().phase != Phase::Done ==> s.settled().left > 0,
    decreases s.phases_to_go(),
{
    if s.phase != Phase::Done && s.profiled < s.budget.max_bytes && s.left == 0 {
        let window = s.budget.window as int;
        assert((s.windows_taken + 1) * window == s.windows_taken * window + window)
            by (nonlinear_arith);
        lemma_settled_in_step(s.advanced());
    }
}

proof fn lemma_run_in_step(budget: Budget, bytes: Seq<u8>)
    ensures
        Admission::fresh(budget).run(bytes).wf(),
        Admission::fresh(budget).run(bytes).budget == budget,
        Admission::fresh(budget).run(bytes).in_step(),
        seams(Admission::fresh(budget).admitted(bytes)) + Admission::fresh(budget).run(
            bytes,
        ).seams_to_go() <= budget.windows,
    decreases bytes.len(),
{
    let s = Admission::fresh(budget);
    law_admission_keeps_the_budget(s, bytes);
    if bytes.len() > 0 {
        let front = bytes.drop_last();
        lemma_run_in_step(budget, front);
        let before = s.run(front);
        lemma_settled(before);
        lemma_settled_in_step(before);
        lemma_taken(before.settled(), bytes.last());
        if before.settled().admits() {
            assert(s.admitted(bytes).drop_last() =~= s.admitted(front));
        }
    }
}

/// From the start of a stream on, no more bytes are admitted than the prefix
/// and all windows hold, and no more discontinuities come than there are
/// windows.
pub proof fn law_admission_fits_prefix_and_windows(budget: Budget, bytes: Seq<u8>)
    ensures
        Admission::fresh(budget).admitted(bytes).len() <= budget.prefix + budget.windows
            * budget.window,
        seams(Admission::fresh(budget).admitted(bytes)) <= budget.windows,
{
    let s = Admission::fresh(budget);
    let end = s.run(bytes);
    lemma_run_in_step(budget, bytes);
    law_admission_keeps_the_budget(s, bytes);
    let taken = end.windows_taken as int;
    let windows = budget.windows as int;
    let window = budget.window as int;
    assert(taken * window <= windows * window) by (nonlinear_arith)
        requires
            taken <= windows,
            window >= 0,
    ;
}

/// A discontinuity precedes the first byte of each window, and no other byte
/// that is admitted: `n` bytes into a stream, the next byte is met in the
/// state `s`.
pub proof fn law_seams_open_windows(budget: Budget, bytes: Seq<u8>, n: int)
    requires
        0 <= n < bytes.len(),
        Admission::fresh(budget).run(bytes.take(n)).settled().admits(),
    ensures
        ({
            let start = Admission::fresh(budget);
            let s = start.run(bytes.take(n)).settled();
            &&& start.admitted(bytes.take(n + 1)) == start.admitted(bytes.take(n)).push(
                (bytes[n], s.seam),
            )
            &&& s.seam <==> s.phase == Phase::Window && s.left == budget.window
        }),
{
    let start = Admission::fresh(budget);
    lemma_run_in_step(budget, bytes.take(n));
    lemma_settled(start.run(bytes.take(n)));
    lemma_settled_in_step(start.run(bytes.take(n)));
    assert(bytes.take(n + 1).drop_last() =~= bytes.take(n));
    assert(bytes.take(n + 1).last() == bytes[n]);
}

/// A chunk edge is invisible to the sampling.
pub proof fn law_admission_chunks(s: Admission, a: Seq<u8>, b: Seq<u8>)
    requires
        s.wf(),
    ensures
        s.run(a + b) == s.run(a).run(b),
        s.admitted(a + b) == s.admitted(a) + s.run(a).admitted(b),
    decreases b.len(),
{
    if b.len() == 0 {
        assert(a + b =~= a);
        assert(s.admitted(a) + Seq::empty() =~= s.admitted(a));
    } else {
        assert((a + b).drop_last() =~= a + b.drop_last());
        law_admission_chunks(s, a, b.drop_last());
        assert(s.admitted(a + b) =~= s.admitted(a) + s.run(a).admitted(b));
    }
}

pub proof fn lemma_profiled_concat(s: BuilderView, a: Seq<(u8, bool)>, b: Seq<(u8, bool)>)
    ensures
        profiled(s, a + b) == profiled(profiled(s, a), b),
    decreases b.len(),
{
    if b.len() == 0 {
        assert(a + b =~= a);
    } else {
        assert((a + b).drop_last() =~= a + b.drop_last());
        lemma_profiled_concat(s, a, b.drop_last());
    }
}

impl Admission {
    pub fn new(budget: Budget) -> (a: Self)
        ensures
            a == Admission::fresh(budget),
            a.wf(),
    {
        let skip: u64 = if budget.window == 0 {
            1
        } else {
            budget.window as u64
        };
        Admission {
            budget,
            phase: if budget.prefix == 0 {
                Phase::Skip
            } else {
                Phase::Prefix
            },
            left: if budget.prefix == 0 {
                skip
            } else {
                budget.prefix as u64
            },
            skip,
            windows_taken: 0,
            profiled: 0,
            seam: false,
        }
    }

    fn advance(&mut self)
        requires
            old(self).wf(),
        ensures
            *final(self) == old(self).advanced(),
    {
        match self.phase {
            Phase::Prefix => {
                if self.budget.windows == 0 {
                    self.left = 0;
                    self.phase = Phase::Done;
                } else {
                    self.left = self.skip;
                    self.phase = Phase::Skip;
                }
            },
            Phase::Skip => {
                self.left = self.budget.window as u64;
                self.phase = Phase::Align;
            },
            Phase::Align => {
                if self.windows_taken >= self.budget.windows as u64 {
                    self.left = 0;
                    self.phase = Phase::Done;
                } else {
                    self.left = self.budget.window as u64;
                    self.windows_taken += 1;
                    self.seam = true;
                    self.phase = Phase::Window;
                }
            },
            Phase::Window => {
                self.skip = if self.skip <= u64::MAX / 2 {
                    self.skip * 2
                } else {
                    u64::MAX
                };
                self.left = self.skip;
                self.phase = Phase::Skip;
            },
            Phase::Done => {},
        }
    }

    fn settle(&mut self)
        requires
            old(self).wf(),
        ensures
            *final(self) == old(self).settled(),
            final(self).wf(),
    {
        proof {
            lemma_settled(*self);
        }
        while self.phase != Phase::Done && self.profiled < self.budget.max_bytes as u64
            && self.left == 0
            invariant
                self.wf(),
                self.settled() == old(self).settled(),
            decreases self.phases_to_go(),
        {
            self.advance();
        }
        if self.phase != Phase::Done && self.profiled >= self.budget.max_bytes as u64 {
            self.phase = Phase::Done;
        }
    }

    pub fn done(&self) -> (b: bool)
        ensures
            b == (self.phase == Phase::Done),
    {
        self.phase == Phase::Done
    }

    /// Walks a chunk and profiles what is admitted.
    pub fn feed(&mut self, chunk: &Vec<u8>, builder: &mut ProfileBuilder)
        requires
            old(self).wf(),
            old(builder).wf(),
            old(builder)@.grams.units + old(builder)@.segments + 2 * chunk@.len() < i64::MAX,
        ensures
            *final(self) == old(self).run(chunk@).settled(),
            final(self).wf(),
            final(builder).wf(),
            final(builder)@ == profiled(old(builder)@, old(self).admitted(chunk@)),
            final(builder)@.grams.units <= old(builder)@.grams.units + chunk@.len(),
            final(builder)@.segments <= old(builder)@.segments + chunk@.len(),
            final(builder)@.segments + final(self).seams_to_go() <= old(builder)@.segments + old(
                self,
            ).seams_to_go(),
            final(self).budget == old(self).budget,
    {
        let mut i: usize = 0;
        let ghost events = old(self).admitted(chunk@.take(0));
        proof {
            assert(chunk@.take(0) =~= Seq::<u8>::empty());
            lemma_settled(*self);
        }
        self.settle();
        while i < chunk.len()
            invariant
                i <= chunk@.len(),
                old(self).wf(),
                *self == old(self).run(chunk@.take(i as int)).settled(),
                old(self).run(chunk@.take(i as int)).wf(),
                self.wf(),
                builder.wf(),
                builder@ == profiled(old(builder)@, old(self).admitted(chunk@.take(i as int))),
                builder@.grams.units <= old(builder)@.grams.units + i,
                builder@.segments <= old(builder)@.segments + i,
                old(builder)@.grams.units + old(builder)@.segments + 2 * chunk@.len() < i64::MAX,
                builder@.segments + self.seams_to_go() <= old(builder)@.segments + old(
                    self,
                ).seams_to_go(),
                self.budget == old(self).budget,
            decreases chunk@.len() - i,
        {
            let b: u8 = chunk[i];
            let ghost upto = chunk@.take(i + 1);
            let ghost before = old(self).admitted(chunk@.take(i as int));
            proof {
                assert(upto.drop_last() =~= chunk@.take(i as int));
                assert(upto.last() == b);
                lemma_settled(old(self).run(chunk@.take(i as int)));
                lemma_taken(*self, b);
            }
            match self.phase {
                Phase::Prefix | Phase::Window => {
                    let seam: bool = self.seam;
                    proof {
                        assert(before.push((b, seam)).drop_last() =~= before);
                    }
                    if seam {
                        builder.boundary();
                    }
                    builder.push_byte(b);
                    self.seam = false;
                    self.profiled += 1;
                    self.left -= 1;
                },
                Phase::Skip => {
                    self.left -= 1;
                },
                Phase::Align => {
                    if b == 0x0a {
                        self.left = 0;
                    } else {
                        self.left -= 1;
                    }
                },
                Phase::Done => {},
            }
            i += 1;
            proof {
                assert(*self == old(self).run(chunk@.take(i as int)));
                lemma_settled(*self);
            }
            self.settle();
        }
        assert(chunk@.take(i as int) =~= chunk@);
    }
}

} // verus!
