//! Is it text, and in what code unit?
//!
//! Before an ngram means anything you have to know what a *gram* is. This
//! module decides the code unit, then produces a normalized byte view, so
//! that a UTF-16LE document is profiled like its UTF-8 twin.
use vstd::prelude::*;

verus! {

#[derive(Clone, Copy, Debug, Eq, PartialEq, Structural)]
pub enum Encoding {
    /// ASCII or UTF-8. The overwhelmingly common answer for text.
    Utf8,
    Utf16Le,
    Utf16Be,
    Utf32Le,
    Utf32Be,
    /// Text-shaped, but the high bytes don't form valid UTF-8.
    Latin1,
    /// Not text: the grams are bytes, not characters.
    Binary,
}

impl Encoding {
    pub open spec fn spec_name(self) -> Seq<char> {
        match self {
            Encoding::Utf8 => "UTF-8"@,
            Encoding::Utf16Le => "UTF-16LE"@,
            Encoding::Utf16Be => "UTF-16BE"@,
            Encoding::Utf32Le => "UTF-32LE"@,
            Encoding::Utf32Be => "UTF-32BE"@,
            Encoding::Latin1 => "Latin-1"@,
            Encoding::Binary => "binary"@,
        }
    }

    pub fn is_text(self) -> (b: bool)
        ensures
            b == (self != Encoding::Binary),
    {
        !matches!(self, Encoding::Binary)
    }

    pub fn name(self) -> (s: &'static str)
        ensures
            s@ == self.spec_name(),
    {
        match self {
            Encoding::Utf8 => "UTF-8",
            Encoding::Utf16Le => "UTF-16LE",
            Encoding::Utf16Be => "UTF-16BE",
            Encoding::Utf32Le => "UTF-32LE",
            Encoding::Utf32Be => "UTF-32BE",
            Encoding::Latin1 => "Latin-1",
            Encoding::Binary => "binary",
        }
    }
}

// ---------------------------------------------------------------------
// Raw statistics
// ---------------------------------------------------------------------

/// How often a byte occurs.
pub open spec fn occurrences(bytes: Seq<u8>, b: u8) -> int
    decreases bytes.len(),
{
    if bytes.len() == 0 {
        0
    } else {
        occurrences(bytes.drop_last(), b) + (if bytes.last() == b {
            1int
        } else {
            0int
        })
    }
}

/// How many NUL bytes stand at an odd offset.
pub open spec fn odd_nulls(bytes: Seq<u8>) -> int
    decreases bytes.len(),
{
    if bytes.len() == 0 {
        0
    } else {
        odd_nulls(bytes.drop_last()) + (if bytes.last() == 0 && bytes.len() % 2 == 0 {
            1int
        } else {
            0int
        })
    }
}

/// The sum of the counts of the bytes from `lo` up to `hi`.
pub open spec fn sum_range(hist: Seq<u64>, lo: int, hi: int) -> int
    decreases hi - lo,
{
    if hi <= lo {
        0
    } else {
        sum_range(hist, lo, hi - 1) + hist[hi - 1]
    }
}

proof fn lemma_occurrences_bound(bytes: Seq<u8>, b: u8)
    ensures
        0 <= occurrences(bytes, b) <= bytes.len(),
        0 <= odd_nulls(bytes) <= occurrences(bytes, 0),
    decreases bytes.len(),
{
    if bytes.len() > 0 {
        lemma_occurrences_bound(bytes.drop_last(), b);
        lemma_occurrences_bound(bytes.drop_last(), 0);
    }
}

proof fn lemma_all_occurrences_bound(bytes: Seq<u8>)
    ensures
        forall|b: u8| 0 <= #[trigger] occurrences(bytes, b) <= bytes.len(),
{
    assert forall|b: u8| 0 <= #[trigger] occurrences(bytes, b) <= bytes.len() by {
        lemma_occurrences_bound(bytes, b);
    }
}

pub open spec fn histogram(bytes: Seq<u8>) -> Seq<u64> {
    Seq::new(256, |i: int| occurrences(bytes, i as u8) as u64)
}

proof fn lemma_sum_range_update(hist: Seq<u64>, lo: int, hi: int, b: int, v: u64)
    requires
        0 <= lo <= hi <= hist.len(),
        0 <= b < hist.len(),
    ensures
        sum_range(hist.update(b, v), lo, hi) == sum_range(hist, lo, hi) + (if lo <= b < hi {
            v - hist[b]
        } else {
            0
        }),
    decreases hi - lo,
{
    if hi > lo {
        lemma_sum_range_update(hist, lo, hi - 1, b, v);
    }
}

proof fn lemma_sum_range_zero(hist: Seq<u64>, lo: int, hi: int)
    requires
        0 <= lo,
        hi <= hist.len(),
        forall|i: int| 0 <= i < hist.len() ==> hist[i] == 0,
    ensures
        sum_range(hist, lo, hi) == 0,
    decreases hi - lo,
{
    if hi > lo {
        lemma_sum_range_zero(hist, lo, hi - 1);
    }
}

/// The counts of all bytes add up to the length.
proof fn lemma_histogram_sum(bytes: Seq<u8>)
    requires
        bytes.len() <= u64::MAX,
    ensures
        sum_range(histogram(bytes), 0, 256) == bytes.len(),
    decreases bytes.len(),
{
    if bytes.len() == 0 {
        lemma_sum_range_zero(histogram(bytes), 0, 256);
    } else {
        let front = bytes.drop_last();
        let b = bytes.last();
        lemma_histogram_sum(front);
        lemma_occurrences_bound(front, b);
        lemma_all_occurrences_bound(front);
        assert(histogram(bytes) =~= histogram(front).update(
            b as int,
            (histogram(front)[b as int] + 1) as u64,
        ));
        lemma_sum_range_update(
            histogram(front),
            0,
            256,
            b as int,
            (histogram(front)[b as int] + 1) as u64,
        );
    }
}

proof fn lemma_sum_range_split(hist: Seq<u64>, lo: int, mid: int, hi: int)
    requires
        lo <= mid <= hi,
    ensures
        sum_range(hist, lo, hi) == sum_range(hist, lo, mid) + sum_range(hist, mid, hi),
        sum_range(hist, lo, hi) >= 0,
        sum_range(hist, mid, hi) >= 0,
        sum_range(hist, lo, mid) >= 0,
    decreases hi - lo,
{
    if hi > mid {
        lemma_sum_range_split(hist, lo, mid, hi - 1);
    } else if mid > lo {
        lemma_sum_range_split(hist, lo, mid - 1, mid - 1);
    }
}

/// Raw-byte measurements, accumulated incrementally so they can be fed a
/// chunk at a time.
#[derive(Clone, Copy, Debug)]
pub struct RawStats {
    hist: [u64; 256],
    len: u64,
    odd_nulls: u64,
}

impl RawStats {
    /// The statistics are those of exactly these bytes.
    pub closed spec fn measures(self, bytes: Seq<u8>) -> bool {
        &&& bytes.len() <= u64::MAX
        &&& self.hist@ == histogram(bytes)
        &&& self.len == bytes.len()
        &&& self.odd_nulls == odd_nulls(bytes)
    }

    pub open spec fn wf(self) -> bool {
        exists|bytes: Seq<u8>| self.measures(bytes)
    }

    pub closed spec fn spec_bytes(self) -> u64 {
        self.len
    }

    /// The statistics of no bytes.
    pub fn new() -> (s: Self)
        ensures
            s.measures(Seq::empty()),
            s.wf(),
            s.spec_bytes() == 0,
    {
        let s = RawStats { hist: [0; 256], len: 0, odd_nulls: 0 };
        assert(s.hist@ =~= histogram(Seq::empty()));
        assert(s.measures(Seq::empty()));
        s
    }

    /// Parity is measured against the absolute offset in the stream, not the
    /// offset in this chunk.
    pub fn push(&mut self, chunk: &[u8])
        requires
            old(self).wf(),
            old(self).spec_bytes() + chunk@.len() <= u64::MAX,
        ensures
            forall|prior: Seq<u8>| #[trigger]
                old(self).measures(prior) ==> final(self).measures(prior + chunk@),
            final(self).wf(),
            final(self).spec_bytes() == old(self).spec_bytes() + chunk@.len(),
    {
        let ghost prior = choose|b: Seq<u8>| self.measures(b);
        let ghost all = prior + chunk@;
        let mut i: usize = 0;
        assert(prior + chunk@.take(0) =~= prior);
        while i < chunk.len()
            invariant
                i <= chunk@.len(),
                self.measures(prior + chunk@.take(i as int)),
                prior.len() + chunk@.len() <= u64::MAX,
            decreases chunk@.len() - i,
        {
            let b: u8 = chunk[i];
            let ghost before = prior + chunk@.take(i as int);
            let ghost after = prior + chunk@.take(i + 1);
            proof {
                assert(after.drop_last() =~= before);
                assert(after.last() == b);
                lemma_occurrences_bound(before, b);
                lemma_all_occurrences_bound(before);
            }
            let n: u64 = self.hist[b as usize];
            self.hist[b as usize] = n + 1;
            if b == 0 && self.len % 2 == 1 {
                self.odd_nulls += 1;
            }
            self.len += 1;
            i += 1;
            assert(self.hist@ =~= histogram(after));
        }
        assert(chunk@.take(i as int) =~= chunk@);
        assert forall|p: Seq<u8>| #[trigger] old(self).measures(p) implies self.measures(
            p + chunk@,
        ) by {
            law_measures_extend(*old(self), p, prior, chunk@);
        }
    }

    /// Raw bytes accumulated so far.
    pub fn bytes(&self) -> (n: u64)
        ensures
            n == self.spec_bytes(),
            forall|bytes: Seq<u8>| #[trigger] self.measures(bytes) ==> n == bytes.len(),
    {
        self.len
    }

    /// How often each byte occurs.
    pub fn histogram(&self) -> (h: [u64; 256])
        ensures
            forall|bytes: Seq<u8>| #[trigger] self.measures(bytes) ==> h@ == histogram(bytes),
    {
        self.hist
    }
}

pub proof fn lemma_measured_len(s: RawStats, bytes: Seq<u8>)
    requires
        s.measures(bytes),
    ensures
        s.spec_bytes() == bytes.len(),
{
}

/// Two inputs that measure alike measure alike after a common continuation.
proof fn law_measures_extend(s: RawStats, a: Seq<u8>, b: Seq<u8>, chunk: Seq<u8>)
    requires
        s.measures(a),
        s.measures(b),
        a.len() + chunk.len() <= u64::MAX,
    ensures
        histogram(a + chunk) == histogram(b + chunk),
        odd_nulls(a + chunk) == odd_nulls(b + chunk),
    decreases chunk.len(),
{
    if chunk.len() == 0 {
        assert(a + chunk =~= a);
        assert(b + chunk =~= b);
    } else {
        let front = chunk.drop_last();
        law_measures_extend(s, a, b, front);
        assert((a + chunk).drop_last() =~= a + front);
        assert((b + chunk).drop_last() =~= b + front);
        assert((a + chunk).last() == chunk.last());
        assert((b + chunk).last() == chunk.last());
        let ha = histogram(a + front);
        let hb = histogram(b + front);
        assert forall|i: int| 0 <= i < 256 implies histogram(a + chunk)[i] == histogram(
            b + chunk,
        )[i] by {
            lemma_occurrences_bound(a + front, i as u8);
            lemma_occurrences_bound(b + front, i as u8);
            assert(ha[i] == hb[i]);
        }
        assert(histogram(a + chunk) =~= histogram(b + chunk));
    }
}

impl Default for RawStats {
    fn default() -> (s: Self)
        ensures
            s.measures(Seq::empty()),
    {
        RawStats::new()
    }
}

// ---------------------------------------------------------------------
// The decision
// ---------------------------------------------------------------------

/// What the verdict rests on.
#[derive(Clone, Copy, Debug, Eq, PartialEq, Structural)]
pub enum Basis {
    /// A byte-order mark.
    Bom,
    /// Many NUL bytes, nearly all at offsets of one parity.
    NullParity,
    /// NUL bytes without parity structure.
    InteriorNulls,
    /// Too few printable bytes.
    Unprintable,
    /// High bytes that do not form UTF-8 sequences.
    BrokenSequences,
    /// Nothing speaks against UTF-8.
    Plain,
}

/// The verdict on the code unit, with every count that fed it.
#[derive(Clone, Copy, Debug)]
pub struct Alphabet {
    pub encoding: Encoding,
    /// Bytes of byte-order mark to skip. Zero when absent.
    pub bom_len: usize,
    pub basis: Basis,
    /// Bytes measured.
    pub len: u64,
    /// Bytes that are printable ASCII, tab, line feed or carriage return.
    pub printable: u64,
    pub nulls: u64,
    /// NUL bytes at an odd offset.
    pub odd_nulls: u64,
    /// Bytes from 0x80 up.
    pub high_bits: u64,
    /// Bytes from 0x80 up in the head.
    pub head_high: u64,
    /// Those of them that stand in a well-formed UTF-8 sequence.
    pub utf8_valid: u64,
    /// How often each byte was measured.
    pub hist: [u64; 256],
}

pub open spec fn begins_with(head: Seq<u8>, mark: Seq<u8>) -> bool {
    mark.len() <= head.len() && head.take(mark.len() as int) == mark
}

/// The byte-order mark at the start: what it says, and its length. The
/// UTF-32LE mark comes before the UTF-16LE mark, which begins like it.
pub open spec fn bom_of(head: Seq<u8>) -> Option<(Encoding, int)> {
    if begins_with(head, seq![0xffu8, 0xfe, 0x00, 0x00]) {
        Some((Encoding::Utf32Le, 4))
    } else if begins_with(head, seq![0x00u8, 0x00, 0xfe, 0xff]) {
        Some((Encoding::Utf32Be, 4))
    } else if begins_with(head, seq![0xefu8, 0xbb, 0xbf]) {
        Some((Encoding::Utf8, 3))
    } else if begins_with(head, seq![0xffu8, 0xfe]) {
        Some((Encoding::Utf16Le, 2))
    } else if begins_with(head, seq![0xfeu8, 0xff]) {
        Some((Encoding::Utf16Be, 2))
    } else {
        None
    }
}

pub open spec fn printable_bytes(bytes: Seq<u8>) -> int {
    let h = histogram(bytes);
    h[0x09] + h[0x0a] + h[0x0d] + sum_range(h, 0x20, 0x7f)
}

pub open spec fn high_bytes(bytes: Seq<u8>) -> int {
    sum_range(histogram(bytes), 0x80, 0x100)
}

pub open spec fn is_continuation(b: u8) -> bool {
    0x80 <= b <= 0xbf
}

/// How many continuation bytes a lead byte asks for; zero where the byte
/// cannot begin a sequence.
pub open spec fn continuations(b: u8) -> int {
    if 0xc2 <= b <= 0xdf {
        1
    } else if 0xe0 <= b <= 0xef {
        2
    } else if 0xf0 <= b <= 0xf4 {
        3
    } else {
        0
    }
}

/// Whether a byte can follow a lead byte: some leads narrow the range, so that
/// no character has a longer form than it needs, none is a surrogate, and none
/// lies beyond the last character.
pub open spec fn follows(lead: u8, b: u8) -> bool {
    &&& lead == 0xe0 ==> b >= 0xa0
    &&& lead == 0xed ==> b <= 0x9f
    &&& lead == 0xf0 ==> b >= 0x90
    &&& lead == 0xf4 ==> b <= 0x8f
}

/// How many bytes from `i` on stand in a well-formed multi-byte sequence.
pub open spec fn sequenced_bytes(bytes: Seq<u8>, i: int) -> int
    decreases bytes.len() - i,
{
    if i < 0 || i >= bytes.len() {
        0
    } else {
        let need = continuations(bytes[i]);
        if need > 0 && i + need < bytes.len() && follows(bytes[i], bytes[i + 1]) && (forall|k: int|
            i < k <= i + need ==> is_continuation(#[trigger] bytes[k])) {
            1 + need + sequenced_bytes(bytes, i + 1 + need)
        } else {
            sequenced_bytes(bytes, i + 1)
        }
    }
}

pub open spec fn high_in(bytes: Seq<u8>) -> int
    decreases bytes.len(),
{
    if bytes.len() == 0 {
        0
    } else {
        high_in(bytes.drop_last()) + (if bytes.last() >= 0x80 {
            1int
        } else {
            0int
        })
    }
}

/// The NUL bytes stand so one-sidedly that they are the high halves of
/// 16-bit units: at odd offsets, or at even ones.
pub open spec fn nulls_odd(nulls: int, odd: int) -> bool {
    40 * odd >= 37 * nulls
}

pub open spec fn nulls_even(nulls: int, odd: int) -> bool {
    40 * odd < 3 * nulls
}

/// The verdict from the statistics of `bytes` and the buffered head.
pub open spec fn verdict(bytes: Seq<u8>, head: Seq<u8>) -> (Encoding, Basis) {
    let n = bytes.len() as int;
    let nulls = occurrences(bytes, 0);
    let odd = odd_nulls(bytes);
    if bom_of(head) is Some {
        ((bom_of(head)->Some_0).0, Basis::Bom)
    } else if 5 * nulls > n && nulls_odd(nulls, odd) {
        (Encoding::Utf16Le, Basis::NullParity)
    } else if 5 * nulls > n && nulls_even(nulls, odd) {
        (Encoding::Utf16Be, Basis::NullParity)
    } else if 200 * nulls > n {
        (Encoding::Binary, Basis::InteriorNulls)
    } else if n == 0 || 10 * printable_bytes(bytes) < 7 * n {
        (Encoding::Binary, Basis::Unprintable)
    } else if high_bytes(bytes) > 0 && 10 * sequenced_bytes(head, 0) < 9 * high_in(head) {
        (Encoding::Latin1, Basis::BrokenSequences)
    } else {
        (Encoding::Utf8, Basis::Plain)
    }
}

/// The length of the byte-order mark, zero where there is none.
pub open spec fn bom_len(head: Seq<u8>) -> int {
    match bom_of(head) {
        Some((_, n)) => n,
        None => 0,
    }
}

impl Alphabet {
    /// The alphabet is the verdict on these bytes and this head.
    pub open spec fn judges(self, bytes: Seq<u8>, head: Seq<u8>) -> bool {
        &&& self.encoding == verdict(bytes, head).0
        &&& self.basis == verdict(bytes, head).1
        &&& self.bom_len == bom_len(head)
        &&& self.len == bytes.len()
        &&& self.printable == printable_bytes(bytes)
        &&& self.nulls == occurrences(bytes, 0)
        &&& self.odd_nulls == odd_nulls(bytes)
        &&& self.high_bits == high_bytes(bytes)
        &&& self.head_high == high_in(head)
        &&& self.utf8_valid == sequenced_bytes(head, 0)
        &&& self.hist@ == histogram(bytes)
    }
}

fn starts_with(head: &[u8], mark: &[u8]) -> (b: bool)
    ensures
        b == begins_with(head@, mark@),
{
    if mark.len() > head.len() {
        return false;
    }
    let mut i: usize = 0;
    while i < mark.len()
        invariant
            i <= mark@.len() <= head@.len(),
            forall|k: int| 0 <= k < i ==> head@[k] == #[trigger] mark@[k],
        decreases mark@.len() - i,
    {
        if head[i] != mark[i] {
            assert(head@.take(mark@.len() as int)[i as int] != mark@[i as int]);
            return false;
        }
        i += 1;
    }
    assert(head@.take(mark@.len() as int) =~= mark@);
    true
}

/// The byte-order mark that the head begins with.
fn find_bom(head: &[u8]) -> (r: Option<(Encoding, usize)>)
    ensures
        match r {
            Some((e, n)) => bom_of(head@) == Some((e, n as int)),
            None => bom_of(head@) is None,
        },
{
    let utf32le: [u8; 4] = [0xff, 0xfe, 0x00, 0x00];
    let utf32be: [u8; 4] = [0x00, 0x00, 0xfe, 0xff];
    let utf8: [u8; 3] = [0xef, 0xbb, 0xbf];
    let utf16le: [u8; 2] = [0xff, 0xfe];
    let utf16be: [u8; 2] = [0xfe, 0xff];
    assert(utf32le@ =~= seq![0xffu8, 0xfe, 0x00, 0x00]);
    assert(utf32be@ =~= seq![0x00u8, 0x00, 0xfe, 0xff]);
    assert(utf8@ =~= seq![0xefu8, 0xbb, 0xbf]);
    assert(utf16le@ =~= seq![0xffu8, 0xfe]);
    assert(utf16be@ =~= seq![0xfeu8, 0xff]);
    if starts_with(head, utf32le.as_slice()) {
        Some((Encoding::Utf32Le, 4))
    } else if starts_with(head, utf32be.as_slice()) {
        Some((Encoding::Utf32Be, 4))
    } else if starts_with(head, utf8.as_slice()) {
        Some((Encoding::Utf8, 3))
    } else if starts_with(head, utf16le.as_slice()) {
        Some((Encoding::Utf16Le, 2))
    } else if starts_with(head, utf16be.as_slice()) {
        Some((Encoding::Utf16Be, 2))
    } else {
        None
    }
}

fn sum_counts(hist: &[u64; 256], lo: usize, hi: usize) -> (r: u64)
    requires
        lo <= hi <= 256,
        sum_range(hist@, 0, 256) <= u64::MAX,
    ensures
        r == sum_range(hist@, lo as int, hi as int),
{
    let mut sum: u64 = 0;
    let mut i: usize = lo;
    while i < hi
        invariant
            lo <= i <= hi <= 256,
            sum_range(hist@, 0, 256) <= u64::MAX,
            sum == sum_range(hist@, lo as int, i as int),
        decreases hi - i,
    {
        proof {
            lemma_sum_range_split(hist@, 0, i + 1, 256);
            lemma_sum_range_split(hist@, 0, lo as int, i + 1);
        }
        sum += hist[i];
        i += 1;
    }
    sum
}

fn count_high(bytes: &[u8]) -> (r: u64)
    requires
        bytes@.len() <= u64::MAX,
    ensures
        r == high_in(bytes@),
{
    let mut n: u64 = 0;
    let mut i: usize = 0;
    while i < bytes.len()
        invariant
            i <= bytes@.len() <= u64::MAX,
            n == high_in(bytes@.take(i as int)),
            n <= i,
        decreases bytes@.len() - i,
    {
        let ghost upto = bytes@.take(i + 1);
        assert(upto.drop_last() =~= bytes@.take(i as int));
        assert(upto.last() == bytes@[i as int]);
        if bytes[i] >= 0x80 {
            n += 1;
        }
        i += 1;
    }
    assert(bytes@.take(i as int) =~= bytes@);
    n
}

/// The bytes that sit in a well-formed UTF-8 multi-byte sequence.
fn utf8_sequence_validity(bytes: &[u8]) -> (r: u64)
    requires
        bytes@.len() <= u64::MAX,
    ensures
        r == sequenced_bytes(bytes@, 0),
{
    let mut ok: u64 = 0;
    let mut i: usize = 0;
    while i < bytes.len()
        invariant
            i <= bytes@.len() <= u64::MAX,
            ok + sequenced_bytes(bytes@, i as int) == sequenced_bytes(bytes@, 0),
            ok <= i,
        decreases bytes@.len() - i,
    {
        let b: u8 = bytes[i];
        let need: usize = if 0xc2 <= b && b <= 0xdf {
            1
        } else if 0xe0 <= b && b <= 0xef {
            2
        } else if 0xf0 <= b && b <= 0xf4 {
            3
        } else {
            0
        };
        if need > 0 && need < bytes.len() - i && can_follow(b, bytes[i + 1]) && all_continuations(
            bytes,
            i,
            need,
        ) {
            ok += 1 + need as u64;
            i += 1 + need;
        } else {
            i += 1;
        }
    }
    ok
}

fn can_follow(lead: u8, b: u8) -> (r: bool)
    ensures
        r == follows(lead, b),
{
    if lead == 0xe0 {
        b >= 0xa0
    } else if lead == 0xed {
        b <= 0x9f
    } else if lead == 0xf0 {
        b >= 0x90
    } else if lead == 0xf4 {
        b <= 0x8f
    } else {
        true
    }
}

fn all_continuations(bytes: &[u8], i: usize, need: usize) -> (b: bool)
    requires
        need <= 3,
        i + need < bytes@.len(),
    ensures
        b == forall|k: int| i < k <= i + need ==> is_continuation(#[trigger] bytes@[k]),
{
    let n: usize = bytes.len();
    let mut k: usize = 1;
    while k <= need
        invariant
            n == bytes@.len(),
            1 <= k <= need + 1,
            need <= 3,
            i + need < bytes@.len(),
            forall|j: int| i < j < i + k ==> is_continuation(#[trigger] bytes@[j]),
        decreases need + 1 - k,
    {
        let b: u8 = bytes[i + k];
        if !(0x80 <= b && b <= 0xbf) {
            assert(!is_continuation(bytes@[i + k]));
            return false;
        }
        k += 1;
    }
    true
}

/// Decides the alphabet of a whole input.
pub fn detect(bytes: &[u8]) -> (a: Alphabet)
    requires
        bytes@.len() <= u64::MAX,
    ensures
        a.judges(bytes@, bytes@),
{
    let mut stats = RawStats::new();
    stats.push(bytes);
    assert(Seq::<u8>::empty() + bytes@ =~= bytes@);
    decide(&stats, bytes)
}

/// Decides the alphabet from accumulated statistics plus a buffered head. The
/// byte-order mark and the UTF-8 sequence check read the head only; both are
/// prefix properties by nature.
pub fn decide(stats: &RawStats, head: &[u8]) -> (a: Alphabet)
    requires
        stats.wf(),
        head@.len() <= u64::MAX,
    ensures
        forall|bytes: Seq<u8>| #[trigger] stats.measures(bytes) ==> a.judges(bytes, head@),
{
    let ghost bytes = choose|b: Seq<u8>| stats.measures(b);
    let hist = stats.hist;
    let n: u64 = stats.len;
    proof {
        lemma_histogram_sum(bytes);
        lemma_occurrences_bound(bytes, 0);
        lemma_sum_range_split(hist@, 0, 0x20, 0x7f);
        lemma_sum_range_split(hist@, 0, 0x7f, 256);
        lemma_sum_range_split(hist@, 0, 0x0e, 0x20);
        lemma_sum_range_split(hist@, 0, 0x0d, 0x0e);
        lemma_sum_range_split(hist@, 0, 0x0b, 0x0d);
        lemma_sum_range_split(hist@, 0, 0x0a, 0x0b);
        lemma_sum_range_split(hist@, 0, 0x09, 0x0a);
        reveal_with_fuel(sum_range, 2);
    }
    let ghost h = histogram(bytes);
    assert(sum_range(h, 0x0d, 0x0e) == h[0x0d]);
    assert(sum_range(h, 0x0a, 0x0b) == h[0x0a]);
    assert(sum_range(h, 0x09, 0x0a) == h[0x09]);
    let visible: u64 = sum_counts(&hist, 0x20, 0x7f);
    let printable: u64 = hist[0x09] + hist[0x0a] + hist[0x0d] + visible;
    let nulls: u64 = hist[0];
    let odd: u64 = stats.odd_nulls;
    let high_bits: u64 = sum_counts(&hist, 0x80, 0x100);
    let head_high: u64 = count_high(head);
    let utf8_valid: u64 = utf8_sequence_validity(head);
    let bom = find_bom(head);
    assert(h[0] == occurrences(bytes, 0));
    let many: bool = 5 * (nulls as u128) > n as u128;
    let (encoding, basis) = if let Some((enc, _)) = bom {
        (enc, Basis::Bom)
    } else if many && 40 * (odd as u128) >= 37 * (nulls as u128) {
        (Encoding::Utf16Le, Basis::NullParity)
    } else if many && 40 * (odd as u128) < 3 * (nulls as u128) {
        (Encoding::Utf16Be, Basis::NullParity)
    } else if 200 * (nulls as u128) > n as u128 {
        (Encoding::Binary, Basis::InteriorNulls)
    } else if n == 0 || 10 * (printable as u128) < 7 * (n as u128) {
        (Encoding::Binary, Basis::Unprintable)
    } else if high_bits > 0 && 10 * (utf8_valid as u128) < 9 * (head_high as u128) {
        (Encoding::Latin1, Basis::BrokenSequences)
    } else {
        (Encoding::Utf8, Basis::Plain)
    };
    let bom_len: usize = match bom {
        Some((_, m)) => m,
        None => 0,
    };
    let a = Alphabet {
        encoding,
        bom_len,
        basis,
        len: n,
        printable,
        nulls,
        odd_nulls: odd,
        high_bits,
        head_high,
        utf8_valid,
        hist,
    };
    assert forall|b: Seq<u8>| #[trigger] stats.measures(b) implies a.judges(b, head@) by {
        lemma_occurrences_bound(b, 0);
        assert(histogram(b)[0] == occurrences(b, 0));
    }
    a
}

} // verus!
