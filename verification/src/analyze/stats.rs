//! Aggregate statistics over the strings and the numbers at a path.
use crate::analyze::dist;
use crate::analyze::dist::{Buckets, DistSketch, DistView};
use crate::analyze::formats;
use crate::analyze::formats::StringFormat;
use crate::double;
use crate::double::Double;
use crate::sketch;
use crate::sketch::{SketchView, SpaceSaving};
use vstd::prelude::*;
use vstd::string::*;
use vstd::utf8::*;

verus! {

/// The double that stands for a whole number.
pub open spec fn whole(n: int) -> Double {
    if n < 0 {
        Double { bits: (double::SIGN + double::bits_of_whole(-n)) as u64 }
    } else {
        Double { bits: double::bits_of_whole(n) as u64 }
    }
}

// ---------------------------------------------------------------------
// Strings
// ---------------------------------------------------------------------

impl StringFormat {
    /// The place of the format in the order of the formats.
    pub open spec fn place(self) -> int {
        match self {
            StringFormat::Uuid => 0,
            StringFormat::IsoTimestamp => 1,
            StringFormat::IsoDate => 2,
            StringFormat::Ipv4 => 3,
            StringFormat::Ipv6 => 4,
            StringFormat::Email => 5,
            StringFormat::UrlHttp => 6,
            StringFormat::AllDigits => 7,
            StringFormat::AllAlpha => 8,
            StringFormat::AlphaNum => 9,
            StringFormat::Other => 10,
        }
    }

    pub fn index(self) -> (i: usize)
        ensures
            i == self.place(),
            i < 11,
    {
        match self {
            StringFormat::Uuid => 0,
            StringFormat::IsoTimestamp => 1,
            StringFormat::IsoDate => 2,
            StringFormat::Ipv4 => 3,
            StringFormat::Ipv6 => 4,
            StringFormat::Email => 5,
            StringFormat::UrlHttp => 6,
            StringFormat::AllDigits => 7,
            StringFormat::AllAlpha => 8,
            StringFormat::AlphaNum => 9,
            StringFormat::Other => 10,
        }
    }

    /// The format at a place.
    pub open spec fn nth(i: int) -> StringFormat {
        if i == 0 {
            StringFormat::Uuid
        } else if i == 1 {
            StringFormat::IsoTimestamp
        } else if i == 2 {
            StringFormat::IsoDate
        } else if i == 3 {
            StringFormat::Ipv4
        } else if i == 4 {
            StringFormat::Ipv6
        } else if i == 5 {
            StringFormat::Email
        } else if i == 6 {
            StringFormat::UrlHttp
        } else if i == 7 {
            StringFormat::AllDigits
        } else if i == 8 {
            StringFormat::AllAlpha
        } else if i == 9 {
            StringFormat::AlphaNum
        } else {
            StringFormat::Other
        }
    }

    pub fn at(i: usize) -> (f: StringFormat)
        requires
            i < 11,
        ensures
            f.place() == i,
            f == StringFormat::nth(i as int),
    {
        match i {
            0 => StringFormat::Uuid,
            1 => StringFormat::IsoTimestamp,
            2 => StringFormat::IsoDate,
            3 => StringFormat::Ipv4,
            4 => StringFormat::Ipv6,
            5 => StringFormat::Email,
            6 => StringFormat::UrlHttp,
            7 => StringFormat::AllDigits,
            8 => StringFormat::AllAlpha,
            9 => StringFormat::AlphaNum,
            _ => StringFormat::Other,
        }
    }
}

#[verifier::ext_equal]
pub struct StringStatsView {
    pub count: u64,
    pub min_len: u32,
    pub max_len: u32,
    pub sum_len: u128,
    /// How often each format was seen, in the order of the formats.
    pub formats: Seq<u64>,
    pub length_buckets: Seq<u64>,
    pub length_sketch: DistView,
    pub skeletons: SketchView<Seq<char>>,
    pub other_count: u64,
}

pub open spec fn raised(counts: Seq<u64>, i: int) -> Seq<u64> {
    counts.update(i, (counts[i] + 1) as u64)
}

/// The length of a string in bytes.
pub open spec fn byte_len(s: Seq<char>) -> usize {
    encode_utf8(s).len() as usize
}

pub const SKELETON_SLOTS: usize = 16;

impl StringStatsView {
    pub open spec fn empty() -> StringStatsView {
        StringStatsView {
            count: 0,
            min_len: 0,
            max_len: 0,
            sum_len: 0,
            formats: Seq::new(11, |i: int| 0u64),
            length_buckets: Seq::new(32, |i: int| 0u64),
            length_sketch: DistView::empty(dist::DIST_CAP as int),
            skeletons: SketchView::empty(SKELETON_SLOTS as int),
            other_count: 0,
        }
    }

    pub open spec fn observe(self, s: Seq<char>, bounds: Seq<u64>) -> StringStatsView {
        let len: u32 = byte_len(s) as u32;
        let format = formats::format_of(encode_utf8(s));
        let other = format == StringFormat::Other;
        StringStatsView {
            count: (self.count + 1) as u64,
            min_len: if self.count == 0 || len < self.min_len {
                len
            } else {
                self.min_len
            },
            max_len: if self.count == 0 || len > self.max_len {
                len
            } else {
                self.max_len
            },
            sum_len: (self.sum_len + len) as u128,
            formats: raised(self.formats, format.place()),
            length_buckets: raised(self.length_buckets, formats::bucket_of(byte_len(s) as int)),
            length_sketch: self.length_sketch.observe(whole(len as int), bounds),
            skeletons: if other {
                self.skeletons.observe(formats::skeleton_of(s))
            } else {
                self.skeletons
            },
            other_count: if other {
                (self.other_count + 1) as u64
            } else {
                self.other_count
            },
        }
    }

    /// Every count is the count of something that was seen `count` times or
    /// fewer, and what is bounded is within its bounds.
    pub open spec fn wf(self) -> bool {
        &&& self.formats.len() == 11
        &&& forall|i: int| 0 <= i < 11 ==> #[trigger] self.formats[i] <= self.count
        &&& self.length_buckets.len() == 32
        &&& forall|i: int| 0 <= i < 32 ==> #[trigger] self.length_buckets[i] <= self.count
        &&& self.sum_len <= self.count * u32::MAX
        &&& self.length_sketch.wf()
        &&& self.length_sketch.count <= self.count
        &&& self.skeletons.wf()
        &&& self.skeletons.cap >= 1
        &&& self.skeletons.observations <= self.count
        &&& self.other_count <= self.count
    }
}

pub proof fn lemma_string_observe_wf(ss: StringStatsView, s: Seq<char>, bounds: Seq<u64>)
    requires
        ss.wf(),
        ss.count < u64::MAX,
    ensures
        ss.observe(s, bounds).wf(),
        ss.observe(s, bounds).count == ss.count + 1,
{
    let len: u32 = byte_len(s) as u32;
    dist::lemma_observe_wf(ss.length_sketch, whole(len as int), bounds);
    formats::lemma_log2_nonneg(byte_len(s) as int);
    sketch::lemma_observe_wf(ss.skeletons, formats::skeleton_of(s));
    assert((ss.count + 1) * u32::MAX == ss.count * u32::MAX + u32::MAX) by (nonlinear_arith);
    assert((ss.count + 1) * u32::MAX <= u64::MAX * u32::MAX) by (nonlinear_arith)
        requires
            ss.count < u64::MAX,
    ;
}

#[derive(Debug)]
pub struct StringStats {
    pub count: u64,
    pub min_len: u32,
    pub max_len: u32,
    pub sum_len: u128,
    pub formats: [u64; 11],
    pub length_buckets: [u64; 32],
    /// Length distribution sketch for percentile estimation.
    pub length_sketch: DistSketch,
    /// Top-K shape skeletons. Only fed for strings of no known format.
    pub skeletons: SpaceSaving<String>,
    pub other_count: u64,
}

impl View for StringStats {
    type V = StringStatsView;

    open spec fn view(&self) -> StringStatsView {
        StringStatsView {
            count: self.count,
            min_len: self.min_len,
            max_len: self.max_len,
            sum_len: self.sum_len,
            formats: self.formats@,
            length_buckets: self.length_buckets@,
            length_sketch: self.length_sketch@,
            skeletons: self.skeletons@,
            other_count: self.other_count,
        }
    }
}

fn no_formats() -> (z: [u64; 11])
    ensures
        z@.len() == 11,
        forall|i: int| 0 <= i < 11 ==> z@[i] == 0,
{
    let z: [u64; 11] = [0; 11];
    assert forall|i: int| 0 <= i < 11 implies z@[i] == 0 by {
        vstd::array::axiom_spec_array_fill_for_copy_type::<u64, 11>(0);
    }
    z
}

fn no_lengths() -> (z: [u64; 32])
    ensures
        z@.len() == 32,
        forall|i: int| 0 <= i < 32 ==> z@[i] == 0,
{
    let z: [u64; 32] = [0; 32];
    assert forall|i: int| 0 <= i < 32 implies z@[i] == 0 by {
        vstd::array::axiom_spec_array_fill_for_copy_type::<u64, 32>(0);
    }
    z
}

impl StringStats {
    pub fn new() -> (s: Self)
        ensures
            s@ == StringStatsView::empty(),
            s@.wf(),
    {
        let s = StringStats {
            count: 0,
            min_len: 0,
            max_len: 0,
            sum_len: 0,
            formats: no_formats(),
            length_buckets: no_lengths(),
            length_sketch: DistSketch::new(dist::DIST_CAP),
            skeletons: SpaceSaving::new(SKELETON_SLOTS),
            other_count: 0,
        };
        assert(s@.formats =~= Seq::new(11, |i: int| 0u64));
        assert(s@.length_buckets =~= Seq::new(32, |i: int| 0u64));
        s
    }

    /// Statistics that say the same.
    pub fn duplicate(&self) -> (r: Self)
        ensures
            r@ == self@,
    {
        StringStats {
            count: self.count,
            min_len: self.min_len,
            max_len: self.max_len,
            sum_len: self.sum_len,
            formats: self.formats,
            length_buckets: self.length_buckets,
            length_sketch: self.length_sketch.duplicate(),
            skeletons: self.skeletons.duplicate(),
            other_count: self.other_count,
        }
    }

    /// Whether the counts are such as strings can leave.
    pub fn is_sound(&self) -> (b: bool)
        ensures
            b == self@.wf(),
    {
        let mut i: usize = 0;
        while i < 11
            invariant
                i <= 11,
                forall|j: int| 0 <= j < i ==> #[trigger] self.formats@[j] <= self.count,
            decreases 11 - i,
        {
            if self.formats[i] > self.count {
                return false;
            }
            i += 1;
        }
        let mut k: usize = 0;
        while k < 32
            invariant
                k <= 32,
                forall|j: int| 0 <= j < k ==> #[trigger] self.length_buckets@[j] <= self.count,
            decreases 32 - k,
        {
            if self.length_buckets[k] > self.count {
                return false;
            }
            k += 1;
        }
        assert(self.count * u32::MAX <= u64::MAX * u32::MAX) by (nonlinear_arith)
            requires
                self.count <= u64::MAX,
        ;
        self.sum_len <= self.count as u128 * u32::MAX as u128 && self.length_sketch.is_sound()
            && self.length_sketch.count() <= self.count && self.skeletons.is_sound()
            && self.skeletons.cap() >= 1
            && self.skeletons.observations() <= self.count && self.other_count <= self.count
    }

    pub fn observe(&mut self, s: &str, buckets: &Buckets)
        requires
            old(self)@.wf(),
            buckets.wf(),
            old(self)@.count < u64::MAX,
        ensures
            final(self)@ == old(self)@.observe(s@, buckets@),
            final(self)@.wf(),
            final(self)@.count == old(self)@.count + 1,
    {
        let ghost start = self@;
        let bytes = s.as_bytes();
        let n: usize = bytes.len();
        assert(n == byte_len(s@));
        let len: u32 = n as u32;
        if self.count == 0 || len < self.min_len {
            self.min_len = len;
        }
        if self.count == 0 || len > self.max_len {
            self.max_len = len;
        }
        self.count += 1;
        assert(start.count * u32::MAX + u32::MAX == (start.count + 1) * u32::MAX)
            by (nonlinear_arith);
        assert((start.count + 1) * u32::MAX <= u64::MAX * u32::MAX) by (nonlinear_arith)
            requires
                start.count < u64::MAX,
        ;
        self.sum_len += len as u128;
        let b: usize = formats::len_bucket(n);
        let c: u64 = self.length_buckets[b];
        self.length_buckets[b] = c + 1;
        let d = Double::from_u64(len as u64);
        assert(d == whole(len as int));
        self.length_sketch.observe(d, buckets);
        let format = formats::detect_format(s);
        let f: usize = format.index();
        let k: u64 = self.formats[f];
        self.formats[f] = k + 1;
        if format == StringFormat::Other {
            self.other_count += 1;
            proof {
                sketch::lemma_observe_wf(self.skeletons@, formats::skeleton_of(s@));
            }
            self.skeletons.observe(formats::skeleton(s));
        }
        assert(self@ =~= start.observe(s@, buckets@));
    }
}

/// The sum of the counts of the first `n` formats.
pub open spec fn sum_of(counts: Seq<u64>, n: int) -> int
    decreases n,
{
    if n <= 0 {
        0
    } else {
        sum_of(counts, n - 1) + counts[n - 1]
    }
}

/// The last of the places with the highest count, among the first `n`.
pub open spec fn last_highest(counts: Seq<u64>, n: int) -> int
    decreases n,
{
    if n <= 1 {
        0
    } else {
        let m = last_highest(counts, n - 1);
        if counts[n - 1] >= counts[m] {
            n - 1
        } else {
            m
        }
    }
}

pub proof fn lemma_last_highest(counts: Seq<u64>, n: int)
    requires
        1 <= n <= counts.len(),
    ensures
        0 <= last_highest(counts, n) < n,
        forall|j: int| 0 <= j < n ==> #[trigger] counts[j] <= counts[last_highest(counts, n)],
    decreases n,
{
    if n > 1 {
        lemma_last_highest(counts, n - 1);
    }
}

/// A share of a total.
#[derive(Clone, Copy, Debug, PartialEq, Eq, Structural)]
pub struct Share {
    pub part: u64,
    pub total: u128,
}

impl Share {
    /// Nine tenths or more.
    pub open spec fn dominates(self) -> bool {
        10 * self.part >= 9 * self.total
    }

    pub fn is_dominant(self) -> (b: bool)
        requires
            self.total <= 0xffff_ffff_ffff_ffff_ffff,
        ensures
            b == self.dominates(),
    {
        10 * (self.part as u128) >= 9 * self.total
    }
}

impl StringStatsView {
    /// The format that was seen most often, and its share; of equals the
    /// last one in the order of the formats.
    pub open spec fn dominant_format(self) -> Option<(StringFormat, Share)> {
        let total = sum_of(self.formats, 11);
        if total == 0 {
            None
        } else {
            let i = last_highest(self.formats, 11);
            Some((StringFormat::nth(i), Share { part: self.formats[i], total: total as u128 }))
        }
    }

    /// The most common skeleton of the strings of no known format, and its
    /// share of them.
    pub open spec fn dominant_skeleton(self) -> Option<(Seq<char>, Share)> {
        let entries = sketch::by_count(self.skeletons.entries);
        if self.other_count == 0 || entries.len() == 0 {
            None
        } else {
            Some((entries[0].0, Share { part: entries[0].1, total: self.other_count as u128 }))
        }
    }
}

/// The sum of the counts in an array of format counts.
pub fn sum_counts(counts: &[u64; 11]) -> (r: u128)
    ensures
        r == sum_of(counts@, 11),
        r <= 11 * u64::MAX,
{
    let mut sum: u128 = 0;
    let mut i: usize = 0;
    while i < 11
        invariant
            i <= 11,
            sum == sum_of(counts@, i as int),
            sum <= i * u64::MAX,
        decreases 11 - i,
    {
        sum += counts[i] as u128;
        i += 1;
    }
    sum
}

impl StringStats {
    pub fn dominant_format(&self) -> (r: Option<(StringFormat, Share)>)
        ensures
            r == self@.dominant_format(),
            r matches Some((_, share)) ==> share.total <= 0xffff_ffff_ffff_ffff_ffff,
    {
        let total: u128 = sum_counts(&self.formats);
        if total == 0 {
            return None;
        }
        let mut m: usize = 0;
        let mut i: usize = 1;
        while i < 11
            invariant
                1 <= i <= 11,
                m < i,
                m == last_highest(self.formats@, i as int),
            decreases 11 - i,
        {
            if self.formats[i] >= self.formats[m] {
                m = i;
            }
            i += 1;
        }
        let f = StringFormat::at(m);
        Some((f, Share { part: self.formats[m], total }))
    }

    pub fn dominant_skeleton(&self) -> (r: Option<(String, Share)>)
        ensures
            match r {
                Some((s, share)) => self@.dominant_skeleton() == Some((s@, share)),
                None => self@.dominant_skeleton() is None,
            },
            r matches Some((_, share)) ==> share.total <= 0xffff_ffff_ffff_ffff_ffff,
    {
        if self.other_count == 0 {
            return None;
        }
        let mut entries = self.skeletons.entries();
        let ghost ranked = sketch::by_count(self.skeletons@.entries);
        if entries.len() == 0 {
            return None;
        }
        assert(entries@.map_values(|e: (String, u64)| (e.0@, e.1))[0] == ranked[0]);
        let (s, c) = entries.remove(0);
        Some((s, Share { part: c, total: self.other_count as u128 }))
    }
}

// ---------------------------------------------------------------------
// Numbers
// ---------------------------------------------------------------------

#[verifier::ext_equal]
pub struct NumericStatsView {
    pub count: u64,
    pub min: Double,
    pub max: Double,
    pub negative: u64,
    pub zero: u64,
    pub positive: u64,
    pub integer_valued: u64,
    pub sketch: DistView,
}

/// What the values of an epoch timestamp count.
#[derive(Clone, Copy, Debug, PartialEq, Eq, Structural)]
pub enum Epoch {
    Seconds,
    Millis,
    Micros,
    Nanos,
}

/// The signs of all values.
#[derive(Clone, Copy, Debug, PartialEq, Eq, Structural)]
pub enum Signs {
    Positive,
    NonNegative,
    Negative,
    Mixed,
}

/// The canonical window of a precision: from the start of 2001, 978,307,200
/// seconds, up to early 2065, 3,000,000,000 seconds.
pub open spec fn epoch_window(e: Epoch) -> (Double, Double) {
    match e {
        Epoch::Seconds => (
            Double { bits: 0x41cd_27e4_4000_0000 },
            Double { bits: 0x41e6_5a0b_c000_0000 },
        ),
        Epoch::Millis => (
            Double { bits: 0x426c_78f4_e680_0000 },
            Double { bits: 0x4285_d3ef_7980_0000 },
        ),
        Epoch::Micros => (
            Double { bits: 0x430b_ce1f_2919_0000 },
            Double { bits: 0x4325_50f7_dca7_0000 },
        ),
        Epoch::Nanos => (
            Double { bits: 0x43ab_274a_6e22_6a00 },
            Double { bits: 0x43c4_d112_0d7b_1600 },
        ),
    }
}

fn window_of(e: Epoch) -> (r: (Double, Double))
    ensures
        r == epoch_window(e),
{
    match e {
        Epoch::Seconds => (
            Double { bits: 0x41cd_27e4_4000_0000 },
            Double { bits: 0x41e6_5a0b_c000_0000 },
        ),
        Epoch::Millis => (
            Double { bits: 0x426c_78f4_e680_0000 },
            Double { bits: 0x4285_d3ef_7980_0000 },
        ),
        Epoch::Micros => (
            Double { bits: 0x430b_ce1f_2919_0000 },
            Double { bits: 0x4325_50f7_dca7_0000 },
        ),
        Epoch::Nanos => (
            Double { bits: 0x43ab_274a_6e22_6a00 },
            Double { bits: 0x43c4_d112_0d7b_1600 },
        ),
    }
}

impl NumericStatsView {
    pub open spec fn empty() -> NumericStatsView {
        NumericStatsView {
            count: 0,
            min: dist::positive_infinity(),
            max: dist::negative_infinity(),
            negative: 0,
            zero: 0,
            positive: 0,
            integer_valued: 0,
            sketch: DistView::empty(dist::DIST_CAP as int),
        }
    }

    /// One more number; `exact` says that it came as an integer.
    pub open spec fn observe(self, v: Double, exact: bool, bounds: Seq<u64>) -> NumericStatsView {
        let below = !v.nan() && v.rank() < 0;
        let zero = !v.nan() && v.rank() == 0;
        NumericStatsView {
            count: (self.count + 1) as u64,
            min: dist::lower(v, self.min),
            max: dist::higher(v, self.max),
            negative: if below {
                (self.negative + 1) as u64
            } else {
                self.negative
            },
            zero: if zero {
                (self.zero + 1) as u64
            } else {
                self.zero
            },
            positive: if !below && !zero {
                (self.positive + 1) as u64
            } else {
                self.positive
            },
            integer_valued: if exact || v.whole() {
                (self.integer_valued + 1) as u64
            } else {
                self.integer_valued
            },
            sketch: self.sketch.observe(v, bounds),
        }
    }

    pub open spec fn wf(self) -> bool {
        &&& self.negative + self.zero + self.positive == self.count
        &&& self.integer_valued <= self.count
        &&& self.sketch.wf()
        &&& self.sketch.count <= self.count
    }

    pub open spec fn all_integer_valued(self) -> bool {
        self.count > 0 && self.integer_valued == self.count
    }

    pub open spec fn within(self, e: Epoch) -> bool {
        epoch_window(e).0.le(self.min) && self.max.le(epoch_window(e).1)
    }

    /// Eight or more observations, all of them non-negative whole numbers in
    /// the window of one precision.
    pub open spec fn epoch_guess(self) -> Option<Epoch> {
        if self.count < 8 || !self.all_integer_valued() || self.negative != 0 {
            None
        } else if self.within(Epoch::Seconds) {
            Some(Epoch::Seconds)
        } else if self.within(Epoch::Millis) {
            Some(Epoch::Millis)
        } else if self.within(Epoch::Micros) {
            Some(Epoch::Micros)
        } else if self.within(Epoch::Nanos) {
            Some(Epoch::Nanos)
        } else {
            None
        }
    }

    pub open spec fn signs(self) -> Signs {
        if self.count > 0 && self.positive == self.count {
            Signs::Positive
        } else if self.count > 0 && self.negative == 0 {
            Signs::NonNegative
        } else if self.negative == self.count {
            Signs::Negative
        } else {
            Signs::Mixed
        }
    }
}

pub proof fn lemma_number_observe_wf(
    ns: NumericStatsView,
    v: Double,
    exact: bool,
    bounds: Seq<u64>,
)
    requires
        ns.wf(),
        ns.count < u64::MAX,
    ensures
        ns.observe(v, exact, bounds).wf(),
        ns.observe(v, exact, bounds).count == ns.count + 1,
{
    dist::lemma_observe_wf(ns.sketch, v, bounds);
}

/// Aggregate range/sign/integer-valued statistics over observed numbers. All
/// values are taken as doubles.
#[derive(Debug)]
pub struct NumericStats {
    pub count: u64,
    pub min: Double,
    pub max: Double,
    pub negative: u64,
    pub zero: u64,
    pub positive: u64,
    /// Number of observations that were whole-number-valued.
    pub integer_valued: u64,
    /// Value distribution sketch for percentile estimation.
    pub sketch: DistSketch,
}

impl View for NumericStats {
    type V = NumericStatsView;

    open spec fn view(&self) -> NumericStatsView {
        NumericStatsView {
            count: self.count,
            min: self.min,
            max: self.max,
            negative: self.negative,
            zero: self.zero,
            positive: self.positive,
            integer_valued: self.integer_valued,
            sketch: self.sketch@,
        }
    }
}

impl NumericStats {
    pub fn new() -> (s: Self)
        ensures
            s@ == NumericStatsView::empty(),
            s@.wf(),
    {
        NumericStats {
            count: 0,
            min: Double { bits: 0x7ff0_0000_0000_0000 },
            max: Double { bits: 0xfff0_0000_0000_0000 },
            negative: 0,
            zero: 0,
            positive: 0,
            integer_valued: 0,
            sketch: DistSketch::new(dist::DIST_CAP),
        }
    }

    /// Statistics that say the same.
    pub fn duplicate(&self) -> (r: Self)
        ensures
            r@ == self@,
    {
        NumericStats {
            count: self.count,
            min: self.min,
            max: self.max,
            negative: self.negative,
            zero: self.zero,
            positive: self.positive,
            integer_valued: self.integer_valued,
            sketch: self.sketch.duplicate(),
        }
    }

    /// Whether the counts are such as numbers can leave.
    pub fn is_sound(&self) -> (b: bool)
        ensures
            b == self@.wf(),
    {
        self.negative as u128 + self.zero as u128 + self.positive as u128 == self.count as u128
            && self.integer_valued <= self.count && self.sketch.is_sound() && self.sketch.count()
            <= self.count
    }

    pub fn observe(&mut self, v: Double, exact: bool, buckets: &Buckets)
        requires
            old(self)@.wf(),
            buckets.wf(),
            old(self)@.count < u64::MAX,
        ensures
            final(self)@ == old(self)@.observe(v, exact, buckets@),
            final(self)@.wf(),
            final(self)@.count == old(self)@.count + 1,
    {
        let zero = Double { bits: 0 };
        self.count += 1;
        if v.less_than(self.min) {
            self.min = v;
        }
        if self.max.less_than(v) {
            self.max = v;
        }
        if v.less_than(zero) {
            self.negative += 1;
        } else if v.is_zero() {
            self.zero += 1;
        } else {
            self.positive += 1;
        }
        if exact || v.is_whole() {
            self.integer_valued += 1;
        }
        self.sketch.observe(v, buckets);
        assert(self@ =~= old(self)@.observe(v, exact, buckets@));
    }

    pub fn all_integer_valued(&self) -> (b: bool)
        ensures
            b == self@.all_integer_valued(),
    {
        self.count > 0 && self.integer_valued == self.count
    }

    fn is_within(&self, e: Epoch) -> (b: bool)
        ensures
            b == self@.within(e),
    {
        let (lo, hi) = window_of(e);
        lo.at_most(self.min) && self.max.at_most(hi)
    }

    /// Guesses whether the observed values look like an epoch timestamp.
    pub fn epoch_guess(&self) -> (r: Option<Epoch>)
        ensures
            r == self@.epoch_guess(),
    {
        if self.count < 8 || !self.all_integer_valued() || self.negative != 0 {
            None
        } else if self.is_within(Epoch::Seconds) {
            Some(Epoch::Seconds)
        } else if self.is_within(Epoch::Millis) {
            Some(Epoch::Millis)
        } else if self.is_within(Epoch::Micros) {
            Some(Epoch::Micros)
        } else if self.is_within(Epoch::Nanos) {
            Some(Epoch::Nanos)
        } else {
            None
        }
    }

    /// The signs of the observed values.
    pub fn signs(&self) -> (r: Signs)
        ensures
            r == self@.signs(),
    {
        if self.count > 0 && self.positive == self.count {
            Signs::Positive
        } else if self.count > 0 && self.negative == 0 {
            Signs::NonNegative
        } else if self.negative == self.count {
            Signs::Negative
        } else {
            Signs::Mixed
        }
    }
}

/// The precisions exclude each other: what lies in one window lies in no
/// other.
pub proof fn law_epoch_windows_are_disjoint(s: NumericStatsView, a: Epoch, b: Epoch)
    requires
        s.within(a),
        s.within(b),
        s.min.le(s.max),
    ensures
        a == b,
{
}

} // verus!
