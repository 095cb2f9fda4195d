//! Sampling: which bytes of an input that is too large are profiled.
use vstd::prelude::*;

verus! {

/// Byte budget for a sniff. A naive prefix is biased, so the sampler takes a
/// prefix *plus* newline-aligned windows from further in.
#[derive(Clone, Copy, Debug)]
pub struct Budget {
    pub prefix: usize,
    pub window: usize,
    pub windows: usize,
    pub max_bytes: usize,
}

impl Default for Budget {
    fn default() -> (b: Self)
        ensures
            b == (Budget { prefix: 65536, window: 32768, windows: 8, max_bytes: 1048576 }),
    {
        Budget { prefix: 65536, window: 32768, windows: 8, max_bytes: 1048576 }
    }
}

/// The position of the first line feed in `[from, to)`.
pub open spec fn first_newline(bytes: Seq<u8>, from: int, to: int) -> Option<int>
    decreases to - from,
{
    if from >= to {
        None
    } else if bytes[from] == 0x0a {
        Some(from)
    } else {
        first_newline(bytes, from + 1, to)
    }
}

/// Where a window that is due at `nominal` opens: behind the next line feed
/// within a stride, or at `nominal` where there is none.
pub open spec fn aligned(bytes: Seq<u8>, nominal: int, stride: int) -> int {
    match first_newline(
        bytes,
        nominal,
        if nominal + stride <= bytes.len() {
            nominal + stride
        } else {
            bytes.len() as int
        },
    ) {
        Some(p) => p + 1,
        None => nominal,
    }
}

/// Where window `k` is due.
pub open spec fn due(b: Budget, stride: int, k: int) -> int {
    b.prefix + k * stride
}

/// The first `n` windows, as ranges. A window that would be empty is left
/// out.
pub open spec fn windows(bytes: Seq<u8>, b: Budget, stride: int, n: int) -> Seq<(int, int)>
    decreases n,
{
    if n <= 0 {
        Seq::empty()
    } else {
        let before = windows(bytes, b, stride, n - 1);
        let from = aligned(bytes, due(b, stride, n - 1), stride);
        let to = if from + b.window <= bytes.len() {
            from + b.window
        } else {
            bytes.len() as int
        };
        if from < to {
            before.push((from, to))
        } else {
            before
        }
    }
}

/// The ranges that are profiled: everything where it fits the budget, and
/// otherwise the prefix and the windows.
pub open spec fn sampled(bytes: Seq<u8>, b: Budget) -> Seq<(int, int)> {
    if bytes.len() <= b.max_bytes || bytes.len() <= b.prefix {
        seq![(0, bytes.len() as int)]
    } else {
        let stride = if b.windows == 0 {
            0
        } else {
            (bytes.len() - b.prefix) / b.windows as int
        };
        if b.windows == 0 || b.window == 0 || stride == 0 {
            seq![(0, b.prefix as int)]
        } else {
            seq![(0, b.prefix as int)] + windows(bytes, b, stride, b.windows as int)
        }
    }
}

/// No line feed in a range.
pub open spec fn unbroken(bytes: Seq<u8>, from: int, to: int) -> bool {
    forall|p: int| from <= p < to ==> #[trigger] bytes[p] != 0x0a
}

/// A window opens at its due place, and the stride from there on holds no line
/// feed.
pub open spec fn opens_at_due(bytes: Seq<u8>, b: Budget, stride: int, at: int, k: int) -> bool {
    at == due(b, stride, k) && unbroken(bytes, at, at + stride)
}

proof fn lemma_first_newline(bytes: Seq<u8>, from: int, to: int)
    requires
        0 <= from,
        to <= bytes.len(),
    ensures
        match first_newline(bytes, from, to) {
            Some(p) => from <= p < to && bytes[p] == 0x0a,
            None => unbroken(bytes, from, to),
        },
    decreases to - from,
{
    if from < to && bytes[from] != 0x0a {
        lemma_first_newline(bytes, from + 1, to);
    }
}

/// Where the next line feed is.
fn find_newline(bytes: &[u8], from: usize, to: usize) -> (r: Option<usize>)
    requires
        from <= to <= bytes@.len(),
    ensures
        match r {
            Some(p) => first_newline(bytes@, from as int, to as int) == Some(p as int) && p < to,
            None => first_newline(bytes@, from as int, to as int) is None,
        },
{
    let mut i: usize = from;
    while i < to
        invariant
            from <= i <= to <= bytes@.len(),
            first_newline(bytes@, from as int, to as int) == first_newline(
                bytes@,
                i as int,
                to as int,
            ),
        decreases to - i,
    {
        if bytes[i] == 0x0a {
            return Some(i);
        }
        i += 1;
    }
    None
}

/// The segments are the given ranges of the input.
pub open spec fn cut_out(bytes: Seq<u8>, ranges: Seq<(int, int)>, segs: Seq<&[u8]>) -> bool {
    &&& segs.len() == ranges.len()
    &&& forall|i: int|
        0 <= i < segs.len() ==> (#[trigger] segs[i])@ == bytes.subrange(ranges[i].0, ranges[i].1)
}

/// Splits the input into the segments to profile. Returns the whole slice
/// when it fits the budget.
pub fn segments<'a>(bytes: &'a [u8], b: &Budget) -> (r: Vec<&'a [u8]>)
    ensures
        cut_out(bytes@, sampled(bytes@, *b), r@),
{
    let mut out: Vec<&'a [u8]> = Vec::new();
    let len: usize = bytes.len();
    if len <= b.max_bytes || len <= b.prefix {
        out.push(bytes);
        assert(bytes@ =~= bytes@.subrange(0, len as int));
        return out;
    }
    out.push(vstd::slice::slice_subrange(bytes, 0, b.prefix));
    if b.windows == 0 || b.window == 0 {
        return out;
    }
    let stride: usize = (len - b.prefix) / b.windows;
    if stride == 0 {
        return out;
    }
    let ghost rest = windows(bytes@, *b, stride as int, b.windows as int);
    let mut i: usize = 0;
    while i < b.windows
        invariant
            i <= b.windows,
            len == bytes@.len(),
            b.prefix < len,
            b.windows > 0,
            stride == (len - b.prefix) / b.windows as int,
            cut_out(
                bytes@,
                seq![(0int, b.prefix as int)] + windows(bytes@, *b, stride as int, i as int),
                out@,
            ),
        decreases b.windows - i,
    {
        assert(b.windows * stride <= len - b.prefix) by (nonlinear_arith)
            requires
                stride == (len - b.prefix) / b.windows as int,
                b.windows > 0,
                len > b.prefix,
        ;
        assert(i * stride + stride <= b.windows * stride) by (nonlinear_arith)
            requires
                i + 1 <= b.windows,
                stride >= 0,
        ;
        let nominal: usize = b.prefix + i * stride;
        let from: usize = match find_newline(bytes, nominal, nominal + stride) {
            Some(p) => p + 1,
            None => nominal,
        };
        let to: usize = if b.window <= len - from {
            from + b.window
        } else {
            len
        };
        let ghost before = seq![(0int, b.prefix as int)] + windows(
            bytes@,
            *b,
            stride as int,
            i as int,
        );
        let ghost after = seq![(0int, b.prefix as int)] + windows(
            bytes@,
            *b,
            stride as int,
            i + 1,
        );
        assert(from == aligned(bytes@, nominal as int, stride as int));
        if from < to {
            out.push(vstd::slice::slice_subrange(bytes, from, to));
            assert(after =~= before.push((from as int, to as int)));
        } else {
            assert(after =~= before);
        }
        i += 1;
    }
    out
}

proof fn lemma_windows(bytes: Seq<u8>, b: Budget, stride: int, n: int)
    requires
        b.prefix < bytes.len(),
        b.windows > 0,
        stride == (bytes.len() - b.prefix) / b.windows as int,
        stride > 0,
        0 <= n <= b.windows,
    ensures
        windows(bytes, b, stride, n).len() <= n,
        forall|i: int|
            0 <= i < windows(bytes, b, stride, n).len() ==> {
                let w = #[trigger] windows(bytes, b, stride, n)[i];
                &&& b.prefix <= w.0 < w.1 <= bytes.len()
                &&& w.1 - w.0 <= b.window
                &&& (exists|k: int| 0 <= k < n && #[trigger] opens_at_due(bytes, b, stride, w.0, k))
                    || bytes[w.0 - 1] == 0x0a
            },
    decreases n,
{
    if n > 0 {
        lemma_windows(bytes, b, stride, n - 1);
        assert(b.windows * stride <= bytes.len() - b.prefix) by (nonlinear_arith)
            requires
                stride == (bytes.len() - b.prefix) / b.windows as int,
                b.windows > 0,
                bytes.len() > b.prefix,
        ;
        assert(0 <= (n - 1) * stride && (n - 1) * stride + stride <= b.windows * stride)
            by (nonlinear_arith)
            requires
                1 <= n <= b.windows,
                stride >= 0,
        ;
        let nominal = b.prefix + (n - 1) * stride;
        lemma_first_newline(bytes, nominal, nominal + stride);
        let from = aligned(bytes, nominal, stride);
        let before = windows(bytes, b, stride, n - 1);
        let after = windows(bytes, b, stride, n);
        assert forall|i: int| 0 <= i < after.len() implies ({
            let w = #[trigger] after[i];
            &&& b.prefix <= w.0 < w.1 <= bytes.len()
            &&& w.1 - w.0 <= b.window
            &&& (exists|k: int| 0 <= k < n && #[trigger] opens_at_due(bytes, b, stride, w.0, k))
                || bytes[w.0 - 1] == 0x0a
        }) by {
            if i < before.len() {
                assert(after[i] == before[i]);
                let w = before[i];
                if exists|k: int|
                    0 <= k < n - 1 && #[trigger] opens_at_due(bytes, b, stride, w.0, k) {
                    let k = choose|k: int|
                        0 <= k < n - 1 && #[trigger] opens_at_due(bytes, b, stride, w.0, k);
                    assert(0 <= k < n && opens_at_due(bytes, b, stride, w.0, k));
                }
            } else if first_newline(bytes, nominal, nominal + stride) is None {
                assert(opens_at_due(bytes, b, stride, from, n - 1));
            }
        }
    }
}

/// How much ranges weigh: their bytes, and one for each of them.
pub open spec fn weight(ranges: Seq<(int, int)>) -> int
    decreases ranges.len(),
{
    if ranges.len() == 0 {
        0
    } else {
        weight(ranges.drop_last()) + (ranges.last().1 - ranges.last().0) + 1
    }
}

proof fn lemma_windows_weight(bytes: Seq<u8>, b: Budget, stride: int, n: int)
    ensures
        weight(windows(bytes, b, stride, n)) <= if n > 0 {
            n * (b.window + 1)
        } else {
            0
        },
    decreases n,
{
    if n > 0 {
        lemma_windows_weight(bytes, b, stride, n - 1);
        let before = windows(bytes, b, stride, n - 1);
        let after = windows(bytes, b, stride, n);
        if after != before {
            assert(after.drop_last() =~= before);
        }
        assert((n - 1) * (b.window + 1) + (b.window + 1) == n * (b.window + 1))
            by (nonlinear_arith);
    }
}

proof fn lemma_weight_after(head: (int, int), rest: Seq<(int, int)>)
    ensures
        weight(seq![head] + rest) == head.1 - head.0 + 1 + weight(rest),
    decreases rest.len(),
{
    let all = seq![head] + rest;
    if rest.len() == 0 {
        let none = Seq::<(int, int)>::empty();
        assert(all.drop_last() =~= none);
        assert(all.last() == head);
        assert(weight(none) == 0 && weight(rest) == 0);
    } else {
        assert(all.drop_last() =~= seq![head] + rest.drop_last());
        assert(all.last() == rest.last());
        lemma_weight_after(head, rest.drop_last());
    }
}

/// The usual budget is met by any input.
pub proof fn lemma_usual_weight(bytes: Seq<u8>)
    ensures
        weight(
            sampled(
                bytes,
                Budget { prefix: 65536, window: 32768, windows: 8, max_bytes: 1048576 },
            ),
        ) < i64::MAX,
{
    let b = Budget { prefix: 65536, window: 32768, windows: 8, max_bytes: 1048576 };
    let none = Seq::<(int, int)>::empty();
    if bytes.len() <= b.max_bytes {
        assert(seq![(0int, bytes.len() as int)] + none =~= seq![(0int, bytes.len() as int)]);
        lemma_weight_after((0, bytes.len() as int), none);
    } else {
        let stride = (bytes.len() - b.prefix) / b.windows as int;
        assert(seq![(0int, b.prefix as int)] + none =~= seq![(0int, b.prefix as int)]);
        lemma_weight_after((0, b.prefix as int), none);
        lemma_weight_after((0, b.prefix as int), windows(bytes, b, stride, 8));
        lemma_windows_weight(bytes, b, stride, 8);
    }
}

/// What is sampled lies within the input: first the prefix (or everything),
/// then at most as many windows as the budget has, none longer than a window,
/// each open behind a line feed or, where a stride holds no line feed, at its
/// due place.
pub proof fn law_samples_are_within_budget(bytes: Seq<u8>, b: Budget)
    ensures
        ({
            let r = sampled(bytes, b);
            &&& 1 <= r.len() <= b.windows + 1
            &&& r[0] == (if bytes.len() <= b.max_bytes || bytes.len() <= b.prefix {
                (0int, bytes.len() as int)
            } else {
                (0int, b.prefix as int)
            })
            &&& r.len() > 1 ==> forall|i: int|
                1 <= i < r.len() ==> {
                    let w = #[trigger] r[i];
                    &&& b.prefix <= w.0 < w.1 <= bytes.len()
                    &&& w.1 - w.0 <= b.window
                    &&& bytes[w.0 - 1] == 0x0a || exists|k: int|
                        0 <= k < b.windows && #[trigger] opens_at_due(
                            bytes,
                            b,
                            (bytes.len() - b.prefix) / b.windows as int,
                            w.0,
                            k,
                        )
                }
        }),
{
    let r = sampled(bytes, b);
    if bytes.len() > b.max_bytes && bytes.len() > b.prefix && b.windows > 0 {
        let stride = (bytes.len() - b.prefix) / b.windows as int;
        if b.window > 0 && stride != 0 {
            assert(stride > 0) by (nonlinear_arith)
                requires
                    stride == (bytes.len() - b.prefix) / b.windows as int,
                    stride != 0,
                    b.windows > 0,
                    bytes.len() > b.prefix,
            ;
            let w = windows(bytes, b, stride, b.windows as int);
            lemma_windows(bytes, b, stride, b.windows as int);
            assert forall|i: int| 1 <= i < r.len() implies ({
                let x = #[trigger] r[i];
                &&& b.prefix <= x.0 < x.1 <= bytes.len()
                &&& x.1 - x.0 <= b.window
                &&& bytes[x.0 - 1] == 0x0a || exists|k: int|
                    0 <= k < b.windows && #[trigger] opens_at_due(
                        bytes,
                        b,
                        (bytes.len() - b.prefix) / b.windows as int,
                        x.0,
                        k,
                    )
            }) by {
                assert(r[i] == w[i - 1]);
            }
        }
    }
}

proof fn lemma_next_newline(bytes: Seq<u8>, from: int, to: int, p: int)
    requires
        0 <= from <= p < to <= bytes.len(),
        bytes[p] == 0x0a,
        unbroken(bytes, from, p),
    ensures
        first_newline(bytes, from, to) == Some(p),
    decreases p - from,
{
    if from < p {
        assert(bytes[from] != 0x0a);
        lemma_next_newline(bytes, from + 1, to, p);
    }
}

proof fn lemma_window_is_there(bytes: Seq<u8>, b: Budget, stride: int, n: int, k: int)
    requires
        0 <= k < n,
    ensures
        ({
            let from = aligned(bytes, due(b, stride, k), stride);
            let to = if from + b.window <= bytes.len() {
                from + b.window
            } else {
                bytes.len() as int
            };
            from < to ==> windows(bytes, b, stride, n).contains((from, to))
        }),
    decreases n,
{
    let from = aligned(bytes, due(b, stride, k), stride);
    let to = if from + b.window <= bytes.len() {
        from + b.window
    } else {
        bytes.len() as int
    };
    let all = windows(bytes, b, stride, n);
    if from < to {
        if k == n - 1 {
            assert(all.last() == (from, to));
            assert(all[all.len() - 1] == (from, to));
        } else {
            lemma_window_is_there(bytes, b, stride, n - 1, k);
            let before = windows(bytes, b, stride, n - 1);
            let i = choose|i: int| 0 <= i < before.len() && before[i] == (from, to);
            assert(all[i] == (from, to));
        }
    }
}

/// Of an input that is beyond the budget, a window is taken from each stride
/// behind the prefix: from the first line feed in the stride on, or from its
/// start where it has none; as long as a window is, or up to the end.
pub proof fn law_every_stride_has_its_window(bytes: Seq<u8>, b: Budget, k: int, p: int)
    requires
        bytes.len() > b.max_bytes,
        bytes.len() > b.prefix,
        b.window > 0,
        0 <= k < b.windows,
        (bytes.len() - b.prefix) / b.windows as int > 0,
        ({
            let stride = (bytes.len() - b.prefix) / b.windows as int;
            let start = b.prefix + k * stride;
            ||| p == start && unbroken(bytes, start, start + stride)
            ||| start < p <= start + stride && p < bytes.len() && bytes[p - 1] == 0x0a && unbroken(
                bytes,
                start,
                p - 1,
            )
        }),
    ensures
        sampled(bytes, b).contains(
            (
                p,
                if p + b.window <= bytes.len() {
                    p + b.window
                } else {
                    bytes.len() as int
                },
            ),
        ),
{
    let count = b.windows as int;
    let stride = (bytes.len() - b.prefix) / count;
    let start = b.prefix + k * stride;
    assert(start == due(b, stride, k));
    let room = bytes.len() - b.prefix;
    assert((k + 1) * stride <= room) by (nonlinear_arith)
        requires
            stride == room / count,
            0 < count,
            0 <= k < count,
            0 <= stride,
            0 <= room,
    ;
    assert((k + 1) * stride == k * stride + stride) by (nonlinear_arith);
    assert(k * stride >= 0) by (nonlinear_arith)
        requires
            k >= 0,
            stride >= 0,
    ;
    assert(start + stride <= bytes.len());
    if p == start && unbroken(bytes, start, start + stride) {
        lemma_first_newline(bytes, start, start + stride);
        if let Some(q) = first_newline(bytes, start, start + stride) {
            assert(bytes[q] != 0x0a);
        }
    } else {
        lemma_next_newline(bytes, start, start + stride, p - 1);
    }
    assert(aligned(bytes, start, stride) == p);
    lemma_window_is_there(bytes, b, stride, count, k);
    let to = if p + b.window <= bytes.len() {
        p + b.window
    } else {
        bytes.len() as int
    };
    let w = windows(bytes, b, stride, count);
    let i = choose|i: int| 0 <= i < w.len() && w[i] == (p, to);
    assert(sampled(bytes, b)[i + 1] == (p, to));
}

} // verus!
