//! The normalized byte view: byte-order mark stripped, and wide code units
//! folded down to their ASCII plane.
//!
//! The fold is lossy on purpose. Non-ASCII code units become a single
//! placeholder byte; the profile cares about punctuation cadence.
use crate::sniff::alphabet::{Alphabet, Encoding};
use vstd::prelude::*;

verus! {

pub const PLACEHOLDER: u8 = 0x1a;

/// Which byte of a code unit carries the ASCII plane, and how wide the unit
/// is. `None` for encodings that need no folding.
pub open spec fn layout_of(e: Encoding) -> Option<(int, int)> {
    match e {
        Encoding::Utf8 | Encoding::Latin1 | Encoding::Binary => None,
        Encoding::Utf16Le => Some((2, 0)),
        Encoding::Utf16Be => Some((2, 1)),
        Encoding::Utf32Le => Some((4, 0)),
        Encoding::Utf32Be => Some((4, 3)),
    }
}

/// The ASCII character of a code unit, or the placeholder.
pub open spec fn folded_unit(unit: Seq<u8>, lo: int) -> u8 {
    if unit[lo] < 0x80 && forall|i: int| 0 <= i < unit.len() && i != lo ==> #[trigger] unit[i] == 0 {
        unit[lo]
    } else {
        PLACEHOLDER
    }
}

/// The whole code units of `body`, folded; what is left of a last unit is
/// dropped.
pub open spec fn folded(body: Seq<u8>, width: int, lo: int) -> Seq<u8>
    decreases body.len(),
{
    if width <= 0 || body.len() < width {
        Seq::empty()
    } else {
        seq![folded_unit(body.take(width), lo)] + folded(body.skip(width), width, lo)
    }
}

/// What is left of a last, incomplete code unit.
pub open spec fn leftover(body: Seq<u8>, width: int) -> Seq<u8>
    decreases body.len(),
{
    if width <= 0 || body.len() < width {
        body
    } else {
        leftover(body.skip(width), width)
    }
}

pub open spec fn smaller(a: int, b: int) -> int {
    if a <= b {
        a
    } else {
        b
    }
}

/// The normalized view of a whole input.
pub open spec fn normalized(e: Encoding, bom_len: int, bytes: Seq<u8>) -> Seq<u8> {
    let body = bytes.skip(smaller(bom_len, bytes.len() as int));
    match layout_of(e) {
        None => body,
        Some((width, lo)) => folded(body, width, lo),
    }
}

/// What a folder remembers between chunks.
#[verifier::ext_equal]
pub struct FolderView {
    pub layout: Option<(int, int)>,
    pub bom_left: int,
    pub carry: Seq<u8>,
}

impl FolderView {
    pub open spec fn fresh(e: Encoding, bom_len: int) -> FolderView {
        FolderView { layout: layout_of(e), bom_left: bom_len, carry: Seq::empty() }
    }

    pub open spec fn wf(self) -> bool {
        &&& self.bom_left >= 0
        &&& self.bom_left > 0 ==> self.carry.len() == 0
        &&& match self.layout {
            None => self.carry.len() == 0,
            Some((width, lo)) => (width == 2 || width == 4) && 0 <= lo < width && self.carry.len()
                < width,
        }
    }

    /// The bytes of a chunk behind the byte-order mark, after what was
    /// carried over.
    pub open spec fn pending(self, chunk: Seq<u8>) -> Seq<u8> {
        self.carry + chunk.skip(smaller(self.bom_left, chunk.len() as int))
    }

    /// What a chunk is normalized to.
    pub open spec fn out(self, chunk: Seq<u8>) -> Seq<u8> {
        match self.layout {
            None => self.pending(chunk),
            Some((width, lo)) => folded(self.pending(chunk), width, lo),
        }
    }

    /// What is remembered after a chunk.
    pub open spec fn next(self, chunk: Seq<u8>) -> FolderView {
        FolderView {
            layout: self.layout,
            bom_left: self.bom_left - smaller(self.bom_left, chunk.len() as int),
            carry: match self.layout {
                None => Seq::empty(),
                Some((width, lo)) => leftover(self.pending(chunk), width),
            },
        }
    }
}

/// Folding a concatenation: the leftover of the front goes before the back.
proof fn lemma_folded_concat(a: Seq<u8>, b: Seq<u8>, width: int, lo: int)
    requires
        width > 0,
    ensures
        folded(a + b, width, lo) == folded(a, width, lo) + folded(leftover(a, width) + b, width, lo),
        leftover(a + b, width) == leftover(leftover(a, width) + b, width),
        leftover(a, width).len() < width,
        leftover(a, width).len() <= a.len(),
    decreases a.len(),
{
    if a.len() >= width {
        lemma_folded_concat(a.skip(width), b, width, lo);
        assert((a + b).skip(width) =~= a.skip(width) + b);
        assert((a + b).take(width) =~= a.take(width));
        assert(folded(a + b, width, lo) =~= folded(a, width, lo) + folded(
            leftover(a, width) + b,
            width,
            lo,
        ));
    } else {
        assert(folded(a, width, lo) + folded(a + b, width, lo) =~= folded(a + b, width, lo));
    }
}

/// A chunk edge is invisible: pushing two chunks gives the same bytes, and
/// leaves the same state, as pushing their concatenation.
pub proof fn law_fold_chunks(s: FolderView, a: Seq<u8>, b: Seq<u8>)
    requires
        s.wf(),
    ensures
        s.out(a + b) == s.out(a) + s.next(a).out(b),
        s.next(a + b) == s.next(a).next(b),
        s.next(a).wf(),
{
    let skip_a = smaller(s.bom_left, a.len() as int);
    let rest_a = a.skip(skip_a);
    if s.bom_left <= a.len() {
        assert((a + b).skip(smaller(s.bom_left, (a + b).len() as int)) =~= rest_a + b);
        assert(s.pending(a + b) =~= s.pending(a) + b);
        assert(b.skip(0) =~= b);
    } else {
        assert(rest_a =~= Seq::<u8>::empty());
        assert(s.pending(a) =~= s.carry);
        let left = s.bom_left - a.len();
        assert((a + b).skip(smaller(s.bom_left, (a + b).len() as int)) =~= b.skip(
            smaller(left, b.len() as int),
        ));
    }
    match s.layout {
        None => {
            assert(s.out(a + b) =~= s.out(a) + s.next(a).out(b));
        },
        Some((width, lo)) => {
            if s.bom_left <= a.len() {
                lemma_folded_concat(s.pending(a), b, width, lo);
            } else {
                lemma_folded_concat(s.carry, Seq::empty(), width, lo);
                assert(s.next(a).pending(b) =~= s.pending(a + b));
                assert(s.out(a) =~= Seq::<u8>::empty());
                assert(s.out(a + b) =~= s.out(a) + s.next(a).out(b));
            }
        },
    }
    assert(s.next(a + b) =~= s.next(a).next(b));
}

/// A stream that is fed all at once is normalized like the whole input.
pub proof fn law_fold_whole(e: Encoding, bom_len: int, bytes: Seq<u8>)
    requires
        bom_len >= 0,
    ensures
        FolderView::fresh(e, bom_len).wf(),
        FolderView::fresh(e, bom_len).out(bytes) == normalized(e, bom_len, bytes),
{
    let s = FolderView::fresh(e, bom_len);
    assert(s.pending(bytes) =~= bytes.skip(smaller(bom_len, bytes.len() as int)));
}

fn unit_layout(e: Encoding) -> (r: Option<(usize, usize)>)
    ensures
        match r {
            Some((w, l)) => layout_of(e) == Some((w as int, l as int)),
            None => layout_of(e) is None,
        },
{
    match e {
        Encoding::Utf8 | Encoding::Latin1 | Encoding::Binary => None,
        Encoding::Utf16Le => Some((2, 0)),
        Encoding::Utf16Be => Some((2, 1)),
        Encoding::Utf32Le => Some((4, 0)),
        Encoding::Utf32Be => Some((4, 3)),
    }
}

/// Takes the ASCII-plane byte out of one code unit.
fn fold_unit(bytes: &Vec<u8>, at: usize, width: usize, lo: usize) -> (r: u8)
    requires
        lo < width,
        at + width <= bytes@.len(),
    ensures
        r == folded_unit(bytes@.subrange(at as int, at + width), lo as int),
{
    let ghost unit = bytes@.subrange(at as int, at + width);
    let n: usize = bytes.len();
    let mut i: usize = 0;
    while i < width
        invariant
            n == bytes@.len(),
            i <= width,
            at + width <= bytes@.len(),
            unit == bytes@.subrange(at as int, at + width),
            forall|k: int| 0 <= k < i && k != lo ==> #[trigger] unit[k] == 0,
        decreases width - i,
    {
        if i != lo && bytes[at + i] != 0 {
            assert(unit[i as int] != 0);
            return PLACEHOLDER;
        }
        i += 1;
    }
    assert(unit[lo as int] == bytes@[at + lo]);
    if bytes[at + lo] < 0x80 {
        bytes[at + lo]
    } else {
        PLACEHOLDER
    }
}

/// Folds the whole units of `body`, and tells where they end.
fn fold(body: &Vec<u8>, width: usize, lo: usize) -> (r: (Vec<u8>, usize))
    requires
        lo < width,
    ensures
        r.0@ == folded(body@, width as int, lo as int),
        r.1 <= body@.len(),
        body@.skip(r.1 as int) == leftover(body@, width as int),
{
    let mut out: Vec<u8> = Vec::new();
    let mut at: usize = 0;
    assert(body@.skip(0) =~= body@);
    assert(out@ + folded(body@, width as int, lo as int) =~= folded(body@, width as int, lo as int));
    while body.len() - at >= width
        invariant
            lo < width,
            at <= body@.len(),
            folded(body@, width as int, lo as int) == out@ + folded(
                body@.skip(at as int),
                width as int,
                lo as int,
            ),
            leftover(body@, width as int) == leftover(body@.skip(at as int), width as int),
        decreases body@.len() - at,
    {
        let ghost rest = body@.skip(at as int);
        let u: u8 = fold_unit(body, at, width, lo);
        assert(rest.take(width as int) =~= body@.subrange(at as int, at + width));
        assert(rest.skip(width as int) =~= body@.skip(at + width));
        assert(out@ + (seq![u] + folded(rest.skip(width as int), width as int, lo as int))
            =~= out@.push(u) + folded(rest.skip(width as int), width as int, lo as int));
        out.push(u);
        at += width;
    }
    assert(out@ + Seq::<u8>::empty() =~= out@);
    (out, at)
}

impl Alphabet {
    /// The byte view that is profiled.
    pub fn normalize(&self, bytes: &[u8]) -> (r: Vec<u8>)
        ensures
            r@ == normalized(self.encoding, self.bom_len as int, bytes@),
    {
        let start: usize = if self.bom_len <= bytes.len() {
            self.bom_len
        } else {
            bytes.len()
        };
        let body = vstd::slice::slice_to_vec(
            vstd::slice::slice_subrange(bytes, start, bytes.len()),
        );
        assert(body@ =~= bytes@.skip(start as int));
        match unit_layout(self.encoding) {
            None => body,
            Some((width, lo)) => fold(&body, width, lo).0,
        }
    }
}

/// Stateful normalizer for streamed input: strips the byte-order mark and
/// folds wide code units down to their ASCII plane a chunk at a time,
/// carrying a partial code unit, or a partial byte-order mark, across chunk
/// edges.
#[derive(Debug)]
pub struct Folder {
    layout: Option<(usize, usize)>,
    bom_left: usize,
    carry: Vec<u8>,
}

impl View for Folder {
    type V = FolderView;

    closed spec fn view(&self) -> FolderView {
        FolderView {
            layout: match self.layout {
                Some((w, l)) => Some((w as int, l as int)),
                None => None,
            },
            bom_left: self.bom_left as int,
            carry: self.carry@,
        }
    }
}

impl Folder {
    pub fn new(encoding: Encoding, bom_len: usize) -> (f: Self)
        ensures
            f@ == FolderView::fresh(encoding, bom_len as int),
            f@.wf(),
    {
        let f = Folder { layout: unit_layout(encoding), bom_left: bom_len, carry: Vec::new() };
        assert(f@ =~= FolderView::fresh(encoding, bom_len as int));
        f
    }

    /// Normalizes the next chunk.
    pub fn push(&mut self, chunk: &[u8]) -> (r: Vec<u8>)
        requires
            old(self)@.wf(),
        ensures
            r@ == old(self)@.out(chunk@),
            final(self)@ == old(self)@.next(chunk@),
            final(self)@.wf(),
    {
        let n: usize = if self.bom_left <= chunk.len() {
            self.bom_left
        } else {
            chunk.len()
        };
        proof {
            law_fold_chunks(self@, chunk@, Seq::empty());
        }
        let mut body: Vec<u8> = Vec::new();
        std::mem::swap(&mut body, &mut self.carry);
        let mut tail = vstd::slice::slice_to_vec(
            vstd::slice::slice_subrange(chunk, n, chunk.len()),
        );
        body.append(&mut tail);
        assert(body@ =~= old(self)@.pending(chunk@));
        self.bom_left -= n;
        let r = match self.layout {
            None => {
                self.carry = Vec::new();
                body
            },
            Some((width, lo)) => {
                let (out, at) = fold(&body, width, lo);
                self.carry = vstd::slice::slice_to_vec(
                    vstd::slice::slice_subrange(body.as_slice(), at, body.len()),
                );
                assert(self.carry@ =~= body@.skip(at as int));
                out
            },
        };
        assert(self@ =~= old(self)@.next(chunk@));
        r
    }
}

/// The bytes of a text in code units of `width` bytes, each character at the
/// place `lo` of its unit, and zeros around it.
pub open spec fn widened(text: Seq<u8>, width: int, lo: int) -> Seq<u8>
    decreases text.len(),
{
    if text.len() == 0 {
        Seq::empty()
    } else {
        Seq::new(
            width as nat,
            |i: int|
                if i == lo {
                    text[0]
                } else {
                    0u8
                },
        ) + widened(text.skip(1), width, lo)
    }
}

proof fn lemma_widened(text: Seq<u8>, width: int, lo: int)
    requires
        0 <= lo < width,
        forall|i: int| 0 <= i < text.len() ==> #[trigger] text[i] < 0x80,
    ensures
        folded(widened(text, width, lo), width, lo) == text,
    decreases text.len(),
{
    let w = widened(text, width, lo);
    if text.len() > 0 {
        let unit = Seq::new(
            width as nat,
            |i: int|
                if i == lo {
                    text[0]
                } else {
                    0u8
                },
        );
        let rest = text.skip(1);
        assert(w.take(width) =~= unit);
        assert(w.skip(width) =~= widened(rest, width, lo));
        assert forall|i: int| 0 <= i < rest.len() implies #[trigger] rest[i] < 0x80 by {
            assert(rest[i] == text[i + 1]);
        }
        lemma_widened(rest, width, lo);
        assert(folded_unit(unit, lo) == text[0]);
        assert(folded(w, width, lo) =~= text);
    } else {
        assert(folded(w, width, lo) =~= text);
    }
}

/// ASCII text in any of the wide encodings is normalized to the text itself,
/// with the byte-order mark before it taken off: it is profiled like its
/// narrow twin.
pub proof fn law_wide_text_is_normalized_to_its_twin(text: Seq<u8>, mark: Seq<u8>)
    requires
        forall|i: int| 0 <= i < text.len() ==> #[trigger] text[i] < 0x80,
    ensures
        normalized(Encoding::Utf16Le, mark.len() as int, mark + widened(text, 2, 0)) == text,
        normalized(Encoding::Utf16Be, mark.len() as int, mark + widened(text, 2, 1)) == text,
        normalized(Encoding::Utf32Le, mark.len() as int, mark + widened(text, 4, 0)) == text,
        normalized(Encoding::Utf32Be, mark.len() as int, mark + widened(text, 4, 3)) == text,
        normalized(Encoding::Utf8, mark.len() as int, mark + text) == text,
{
    let n = mark.len() as int;
    lemma_widened(text, 2, 0);
    lemma_widened(text, 2, 1);
    lemma_widened(text, 4, 0);
    lemma_widened(text, 4, 3);
    assert((mark + widened(text, 2, 0)).skip(n) =~= widened(text, 2, 0));
    assert((mark + widened(text, 2, 1)).skip(n) =~= widened(text, 2, 1));
    assert((mark + widened(text, 4, 0)).skip(n) =~= widened(text, 4, 0));
    assert((mark + widened(text, 4, 3)).skip(n) =~= widened(text, 4, 3));
    assert((mark + text).skip(n) =~= text);
}

/// Every whole code unit becomes one byte, whatever it holds; one that is no
/// ASCII character becomes the placeholder.
pub proof fn law_every_unit_is_one_byte(body: Seq<u8>, width: int, lo: int, k: int)
    requires
        0 <= lo < width,
        0 <= k,
        (k + 1) * width <= body.len(),
    ensures
        folded(body, width, lo).len() == body.len() as int / width,
        ({
            let unit = body.subrange(k * width, (k + 1) * width);
            folded(body, width, lo)[k] == (if unit[lo] < 0x80 && forall|i: int|
                0 <= i < width && i != lo ==> #[trigger] unit[i] == 0 {
                unit[lo]
            } else {
                PLACEHOLDER
            })
        }),
    decreases body.len(),
{
    let rest = body.skip(width);
    assert((k + 1) * width == k * width + width) by (nonlinear_arith);
    assert(k * width >= 0) by (nonlinear_arith)
        requires
            k >= 0,
            width > 0,
    ;
    lemma_units(rest, width, lo);
    assert(body.len() as int / width == 1 + rest.len() as int / width) by {
        vstd::arithmetic::div_mod::lemma_div_plus_one(rest.len() as int, width);
    }
    let f = folded(body, width, lo);
    assert(body.len() >= width);
    assert(f == seq![folded_unit(body.take(width), lo)] + folded(rest, width, lo));
    if k > 0 {
        assert((k - 1 + 1) * width <= rest.len());
        law_every_unit_is_one_byte(rest, width, lo, k - 1);
        assert((k - 1) * width == k * width - width) by (nonlinear_arith);
        assert(rest.subrange((k - 1) * width, k * width) =~= body.subrange(
            k * width,
            (k + 1) * width,
        ));
        vstd::arithmetic::div_mod::lemma_div_is_ordered(k * width, rest.len() as int, width);
        vstd::arithmetic::div_mod::lemma_div_by_multiple(k, width);
        assert(k <= rest.len() as int / width);
        assert(f[k] == folded(rest, width, lo)[k - 1]);
    } else {
        assert(k * width == 0 && (k + 1) * width == width);
        assert(body.subrange(0, width) =~= body.take(width));
        assert(f[0] == folded_unit(body.take(width), lo));
    }
}

proof fn lemma_units(body: Seq<u8>, width: int, lo: int)
    requires
        0 < width,
    ensures
        folded(body, width, lo).len() == body.len() as int / width,
    decreases body.len(),
{
    if body.len() < width {
        assert(body.len() as int / width == 0) by {
            vstd::arithmetic::div_mod::lemma_basic_div(body.len() as int, width);
        }
    } else {
        lemma_units(body.skip(width), width, lo);
        vstd::arithmetic::div_mod::lemma_div_plus_one(body.skip(width).len() as int, width);
    }
}

} // verus!
