//! Draws from a random number generator that a seed determines.
use rand::rngs::StdRng;
use rand::{Rng, RngCore, SeedableRng};
use vstd::prelude::*;

verus! {

/// The generator behind the draws.
#[verifier::external_type_specification]
#[verifier::external_body]
pub struct ExStdRng(rand::rngs::StdRng);

/// Where a generator stands: the seed that it started from, and what it was
/// asked for since, each time what kind of draw, and between which bounds.
pub struct Rolls {
    pub seed: u64,
    pub asked: Seq<(int, int, int)>,
}

/// A generator that starts from a seed.
pub struct Dice {
    rng: StdRng,
    rolls: Ghost<Rolls>,
}

impl View for Dice {
    type V = Rolls;

    closed spec fn view(&self) -> Rolls {
        self.rolls@
    }
}

/// The `bool` that `Rng::gen` draws from a `StdRng`.
pub uninterp spec fn rolled_flip(seed: u64, asked: Seq<(int, int, int)>) -> bool;

/// The number that `RngCore::next_u64` draws from a `StdRng`.
pub uninterp spec fn rolled_word(seed: u64, asked: Seq<(int, int, int)>) -> u64;

/// The sixteen bytes that `Rng::fill` draws from a `StdRng`.
pub uninterp spec fn rolled_bytes(seed: u64, asked: Seq<(int, int, int)>) -> Seq<u8>;

/// What `Rng::gen_ratio` draws from a `StdRng`.
pub uninterp spec fn rolled_chance(
    seed: u64,
    asked: Seq<(int, int, int)>,
    numerator: u32,
    denominator: u32,
) -> bool;

/// What `Rng::gen_range` draws from a `StdRng`, for a `u8`.
pub uninterp spec fn rolled_u8(seed: u64, asked: Seq<(int, int, int)>, low: u8, high: u8) -> u8;

/// What `Rng::gen_range` draws from a `StdRng`, for a `u16`.
pub uninterp spec fn rolled_u16(seed: u64, asked: Seq<(int, int, int)>, low: u16, high: u16) -> u16;

/// What `Rng::gen_range` draws from a `StdRng`, for an `i32`.
pub uninterp spec fn rolled_i32(seed: u64, asked: Seq<(int, int, int)>, low: i32, high: i32) -> i32;

/// What `Rng::gen_range` draws from a `StdRng`, for a `u32`.
pub uninterp spec fn rolled_u32(seed: u64, asked: Seq<(int, int, int)>, low: u32, high: u32) -> u32;

/// What `Rng::gen_range` draws from a `StdRng`, for an `i64`.
pub uninterp spec fn rolled_i64(seed: u64, asked: Seq<(int, int, int)>, low: i64, high: i64) -> i64;

/// What `Rng::gen_range` draws from a `StdRng`, for a `u64`.
pub uninterp spec fn rolled_u64(seed: u64, asked: Seq<(int, int, int)>, low: u64, high: u64) -> u64;

impl Rolls {
    /// A generator that was asked for nothing yet.
    pub open spec fn start(seed: u64) -> Rolls {
        Rolls { seed, asked: Seq::empty() }
    }

    pub open spec fn after(self, kind: int, low: int, high: int) -> Rolls {
        Rolls { asked: self.asked.push((kind, low, high)), ..self }
    }

    /// A draw, and where it leaves the generator.
    pub open spec fn flip(self) -> (bool, Rolls) {
        (rolled_flip(self.seed, self.asked), self.after(0, 0, 1))
    }

    pub open spec fn word(self) -> (u64, Rolls) {
        (rolled_word(self.seed, self.asked), self.after(1, 0, 0))
    }

    pub open spec fn bytes(self) -> (Seq<u8>, Rolls) {
        (rolled_bytes(self.seed, self.asked), self.after(2, 0, 16))
    }

    pub open spec fn chance(self, numerator: u32, denominator: u32) -> (bool, Rolls) {
        (
            rolled_chance(self.seed, self.asked, numerator, denominator),
            self.after(3, numerator as int, denominator as int),
        )
    }

    pub open spec fn u8(self, low: u8, high: u8) -> (u8, Rolls) {
        (rolled_u8(self.seed, self.asked, low, high), self.after(4, low as int, high as int))
    }

    pub open spec fn u16(self, low: u16, high: u16) -> (u16, Rolls) {
        (rolled_u16(self.seed, self.asked, low, high), self.after(5, low as int, high as int))
    }

    pub open spec fn i32(self, low: i32, high: i32) -> (i32, Rolls) {
        (rolled_i32(self.seed, self.asked, low, high), self.after(6, low as int, high as int))
    }

    pub open spec fn u32(self, low: u32, high: u32) -> (u32, Rolls) {
        (rolled_u32(self.seed, self.asked, low, high), self.after(7, low as int, high as int))
    }

    pub open spec fn i64(self, low: i64, high: i64) -> (i64, Rolls) {
        (rolled_i64(self.seed, self.asked, low, high), self.after(8, low as int, high as int))
    }

    pub open spec fn u64(self, low: u64, high: u64) -> (u64, Rolls) {
        (rolled_u64(self.seed, self.asked, low, high), self.after(9, low as int, high as int))
    }
}

impl Dice {
    /// `SeedableRng::seed_from_u64`: a generator made from a seed, which
    /// determines all its draws.
    #[verifier::external_body]
    fn from_seed(seed: u64) -> (d: Dice)
        ensures
            d@ == Rolls::start(seed),
    {
        Dice { rng: StdRng::seed_from_u64(seed), rolls: Ghost(Rolls::start(seed)) }
    }

    /// A generator that starts from a seed.
    pub fn seeded(seed: u64) -> (d: Dice)
        ensures
            d@ == Rolls::start(seed),
    {
        Dice::from_seed(seed)
    }

    /// `Rng::gen` for a `bool`.
    #[verifier::external_body]
    pub(crate) fn flip(&mut self) -> (b: bool)
        ensures
            b == rolled_flip(old(self)@.seed, old(self)@.asked),
            final(self)@ == old(self)@.after(0, 0, 1),
    {
        self.rng.gen()
    }

    /// `RngCore::next_u64`.
    #[verifier::external_body]
    pub(crate) fn word(&mut self) -> (w: u64)
        ensures
            w == rolled_word(old(self)@.seed, old(self)@.asked),
            final(self)@ == old(self)@.after(1, 0, 0),
    {
        self.rng.next_u64()
    }

    /// `Rng::fill` on sixteen bytes.
    #[verifier::external_body]
    pub(crate) fn sixteen_bytes(&mut self) -> (b: [u8; 16])
        ensures
            b@ == rolled_bytes(old(self)@.seed, old(self)@.asked),
            final(self)@ == old(self)@.after(2, 0, 16),
    {
        let mut bytes = [0u8; 16];
        self.rng.fill(&mut bytes[..]);
        bytes
    }

    /// `Rng::gen_ratio` is true with the chance `numerator / denominator`: never
    /// for zero, always for one. It panics where that is no chance.
    #[verifier::external_body]
    pub(crate) fn chance(&mut self, numerator: u32, denominator: u32) -> (b: bool)
        requires
            0 < denominator,
            numerator <= denominator,
        ensures
            b == rolled_chance(old(self)@.seed, old(self)@.asked, numerator, denominator),
            final(self)@ == old(self)@.after(3, numerator as int, denominator as int),
            numerator == 0 ==> !b,
            numerator == denominator ==> b,
    {
        self.rng.gen_ratio(numerator, denominator)
    }

    /// `Rng::gen_range` on `low..=high`, for a `u8`: a number in the range. It
    /// panics where the range is empty.
    #[verifier::external_body]
    pub(crate) fn between_u8(&mut self, low: u8, high: u8) -> (n: u8)
        requires
            low <= high,
        ensures
            n == rolled_u8(old(self)@.seed, old(self)@.asked, low, high),
            final(self)@ == old(self)@.after(4, low as int, high as int),
            low <= n <= high,
    {
        self.rng.gen_range(low..=high)
    }

    /// `Rng::gen_range` on `low..=high`, for a `u16`.
    #[verifier::external_body]
    pub(crate) fn between_u16(&mut self, low: u16, high: u16) -> (n: u16)
        requires
            low <= high,
        ensures
            n == rolled_u16(old(self)@.seed, old(self)@.asked, low, high),
            final(self)@ == old(self)@.after(5, low as int, high as int),
            low <= n <= high,
    {
        self.rng.gen_range(low..=high)
    }

    /// `Rng::gen_range` on `low..=high`, for an `i32`.
    #[verifier::external_body]
    pub(crate) fn between_i32(&mut self, low: i32, high: i32) -> (n: i32)
        requires
            low <= high,
        ensures
            n == rolled_i32(old(self)@.seed, old(self)@.asked, low, high),
            final(self)@ == old(self)@.after(6, low as int, high as int),
            low <= n <= high,
    {
        self.rng.gen_range(low..=high)
    }

    /// `Rng::gen_range` on `low..=high`, for a `u32`.
    #[verifier::external_body]
    pub(crate) fn between_u32(&mut self, low: u32, high: u32) -> (n: u32)
        requires
            low <= high,
        ensures
            n == rolled_u32(old(self)@.seed, old(self)@.asked, low, high),
            final(self)@ == old(self)@.after(7, low as int, high as int),
            low <= n <= high,
    {
        self.rng.gen_range(low..=high)
    }

    /// `Rng::gen_range` on `low..=high`, for an `i64`.
    #[verifier::external_body]
    pub(crate) fn between_i64(&mut self, low: i64, high: i64) -> (n: i64)
        requires
            low <= high,
        ensures
            n == rolled_i64(old(self)@.seed, old(self)@.asked, low, high),
            final(self)@ == old(self)@.after(8, low as int, high as int),
            low <= n <= high,
    {
        self.rng.gen_range(low..=high)
    }

    /// `Rng::gen_range` on `low..=high`, for a `u64`.
    #[verifier::external_body]
    pub(crate) fn between_u64(&mut self, low: u64, high: u64) -> (n: u64)
        requires
            low <= high,
        ensures
            n == rolled_u64(old(self)@.seed, old(self)@.asked, low, high),
            final(self)@ == old(self)@.after(9, low as int, high as int),
            low <= n <= high,
    {
        self.rng.gen_range(low..=high)
    }

    /// A size or a place, drawn as a `u64` whatever the width of a pointer.
    pub(crate) fn between(&mut self, low: usize, high: usize) -> (n: usize)
        requires
            low <= high,
        ensures
            (n as u64, final(self)@) == old(self)@.u64(low as u64, high as u64),
            low <= n <= high,
    {
        let n: u64 = self.between_u64(low as u64, high as u64);
        n as usize
    }
}

/// `rand::thread_rng` and `Rng::gen`: a seed that no one chose.
#[verifier::external_body]
pub(crate) fn fresh_seed() -> (seed: u64) {
    rand::thread_rng().gen()
}

} // verus!
