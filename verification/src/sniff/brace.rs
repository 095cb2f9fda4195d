//! JSON-aware bracket accounting: braces inside string literals do not count,
//! and backslash escapes are honored.
use vstd::prelude::*;

verus! {

/// ASCII whitespace: space, tab, line feed, form feed, carriage return.
pub open spec fn spec_is_space(b: u8) -> bool {
    b == 0x20 || b == 0x09 || b == 0x0a || b == 0x0c || b == 0x0d
}

pub fn is_space(b: u8) -> (r: bool)
    ensures
        r == spec_is_space(b),
{
    b == 0x20 || b == 0x09 || b == 0x0a || b == 0x0c || b == 0x0d
}

#[derive(Clone, Copy, Debug)]
pub struct BraceScan {
    pub obj_open: u64,
    pub obj_close: u64,
    pub arr_open: u64,
    pub arr_close: u64,
    /// Number of string literals opened.
    pub strings: u64,
    pub max_depth: u32,
    /// Non-empty lines at whose end the bracket depth was zero. The
    /// JSON-Lines signal.
    pub depth_zero_lines: u64,
    pub scanned_lines: u64,
    /// A string literal was still open at end of segment.
    pub unterminated_string: bool,
    /// Depth went below zero: more closers than openers at some point.
    pub went_negative: bool,
    pub final_depth: i64,
}

impl BraceScan {
    pub open spec fn empty() -> BraceScan {
        BraceScan {
            obj_open: 0,
            obj_close: 0,
            arr_open: 0,
            arr_close: 0,
            strings: 0,
            max_depth: 0,
            depth_zero_lines: 0,
            scanned_lines: 0,
            unterminated_string: false,
            went_negative: false,
            final_depth: 0,
        }
    }

    pub open spec fn spec_balanced(self) -> bool {
        self.obj_open == self.obj_close && self.arr_open == self.arr_close && !self.went_negative
    }

    pub fn balanced(&self) -> (b: bool)
        ensures
            b == self.spec_balanced(),
    {
        self.obj_open == self.obj_close && self.arr_open == self.arr_close && !self.went_negative
    }
}

impl Default for BraceScan {
    fn default() -> (s: Self)
        ensures
            s == BraceScan::empty(),
    {
        BraceScan {
            obj_open: 0,
            obj_close: 0,
            arr_open: 0,
            arr_close: 0,
            strings: 0,
            max_depth: 0,
            depth_zero_lines: 0,
            scanned_lines: 0,
            unterminated_string: false,
            went_negative: false,
            final_depth: 0,
        }
    }
}

/// The scanner between two bytes.
#[derive(Clone, Copy, Debug)]
pub struct BraceState {
    pub scan: BraceScan,
    pub depth: i64,
    pub in_str: bool,
    pub escaped: bool,
    pub line_had_content: bool,
}

/// A line ends: one that had content is counted, and counted again where
/// every bracket was closed.
pub open spec fn closed_line(s: BraceState) -> BraceScan {
    if s.line_had_content {
        BraceScan {
            scanned_lines: (s.scan.scanned_lines + 1) as u64,
            depth_zero_lines: if s.depth == 0 {
                (s.scan.depth_zero_lines + 1) as u64
            } else {
                s.scan.depth_zero_lines
            },
            ..s.scan
        }
    } else {
        s.scan
    }
}

/// What a byte outside of strings counts as, and the depth behind it.
pub open spec fn counted(scan: BraceScan, depth: i64, b: u8) -> (BraceScan, i64) {
    if b == 0x22 {
        (BraceScan { strings: (scan.strings + 1) as u64, ..scan }, depth)
    } else if b == 0x7b {
        (BraceScan { obj_open: (scan.obj_open + 1) as u64, ..scan }, (depth + 1) as i64)
    } else if b == 0x7d {
        (BraceScan { obj_close: (scan.obj_close + 1) as u64, ..scan }, (depth - 1) as i64)
    } else if b == 0x5b {
        (BraceScan { arr_open: (scan.arr_open + 1) as u64, ..scan }, (depth + 1) as i64)
    } else if b == 0x5d {
        (BraceScan { arr_close: (scan.arr_close + 1) as u64, ..scan }, (depth - 1) as i64)
    } else {
        (scan, depth)
    }
}

pub open spec fn deeper(scan: BraceScan, depth: i64) -> u32 {
    let d: u32 = (if depth < 0 {
        0
    } else {
        depth
    }) as u32;
    if d > scan.max_depth {
        d
    } else {
        scan.max_depth
    }
}

impl BraceState {
    pub open spec fn fresh() -> BraceState {
        BraceState {
            scan: BraceScan::empty(),
            depth: 0,
            in_str: false,
            escaped: false,
            line_had_content: false,
        }
    }

    /// The scanner behind one more byte.
    pub open spec fn step(self, b: u8) -> BraceState {
        if self.in_str {
            BraceState {
                escaped: !self.escaped && b == 0x5c,
                in_str: self.escaped || b != 0x22,
                line_had_content: self.line_had_content || b != 0x0a,
                ..self
            }
        } else if b == 0x0a {
            BraceState { scan: closed_line(self), line_had_content: false, ..self }
        } else {
            let (scan, depth) = counted(self.scan, self.depth, b);
            BraceState {
                scan: BraceScan {
                    went_negative: scan.went_negative || depth < 0,
                    max_depth: deeper(scan, depth),
                    ..scan
                },
                depth,
                in_str: b == 0x22,
                escaped: self.escaped,
                line_had_content: self.line_had_content || !spec_is_space(b),
            }
        }
    }

    /// The scanner behind a discontinuity.
    pub open spec fn boundary(self) -> BraceState {
        let scan = closed_line(self);
        BraceState {
            scan: BraceScan {
                unterminated_string: scan.unterminated_string || self.in_str,
                final_depth: (scan.final_depth + self.depth) as i64,
                ..scan
            },
            depth: 0,
            in_str: false,
            escaped: false,
            line_had_content: false,
        }
    }

    /// No count exceeds `n`, the number of bytes scanned.
    pub open spec fn bounded(self, n: int) -> bool {
        &&& self.scan.obj_open <= n
        &&& self.scan.obj_close <= n
        &&& self.scan.arr_open <= n
        &&& self.scan.arr_close <= n
        &&& self.scan.strings <= n
        &&& self.scan.depth_zero_lines <= self.scan.scanned_lines
        &&& self.scan.scanned_lines + (if self.line_had_content {
            1int
        } else {
            0int
        }) <= n
        &&& -n <= self.scan.final_depth - (if self.depth < 0 {
            -self.depth
        } else {
            self.depth as int
        })
        &&& self.scan.final_depth + (if self.depth < 0 {
            -self.depth
        } else {
            self.depth as int
        }) <= n
    }

    pub fn new() -> (s: Self)
        ensures
            s == BraceState::fresh(),
    {
        BraceState {
            scan: BraceScan::default(),
            depth: 0,
            in_str: false,
            escaped: false,
            line_had_content: false,
        }
    }

    fn close_line(&mut self)
        requires
            old(self).scan.scanned_lines < u64::MAX,
            old(self).scan.depth_zero_lines < u64::MAX,
        ensures
            *final(self) == (BraceState { scan: closed_line(*old(self)), ..*old(self) }),
    {
        if self.line_had_content {
            self.scan.scanned_lines += 1;
            if self.depth == 0 {
                self.scan.depth_zero_lines += 1;
            }
        }
    }

    /// Scans one byte, the one after `n` others.
    pub(crate) fn brace_byte(&mut self, b: u8, Ghost(n): Ghost<int>)
        requires
            0 <= n < i64::MAX,
            old(self).bounded(n),
        ensures
            *final(self) == old(self).step(b),
            final(self).bounded(n + 1),
    {
        if self.in_str {
            if self.escaped {
                self.escaped = false;
            } else if b == 0x5c {
                self.escaped = true;
            } else if b == 0x22 {
                self.in_str = false;
            }
            if b != 0x0a {
                self.line_had_content = true;
            }
            return ;
        }
        if b == 0x0a {
            self.close_line();
            self.line_had_content = false;
            return ;
        }
        if b == 0x22 {
            self.in_str = true;
            self.scan.strings += 1;
        } else if b == 0x7b {
            self.scan.obj_open += 1;
            self.depth += 1;
        } else if b == 0x7d {
            self.scan.obj_close += 1;
            self.depth -= 1;
        } else if b == 0x5b {
            self.scan.arr_open += 1;
            self.depth += 1;
        } else if b == 0x5d {
            self.scan.arr_close += 1;
            self.depth -= 1;
        }
        if !is_space(b) {
            self.line_had_content = true;
        }
        if self.depth < 0 {
            self.scan.went_negative = true;
        }
        let d: u32 = (if self.depth < 0 {
            0
        } else {
            self.depth
        }) as u32;
        if d > self.scan.max_depth {
            self.scan.max_depth = d;
        }
    }

    /// Closes out a segment of `n` bytes.
    pub(crate) fn close(&mut self, Ghost(n): Ghost<int>)
        requires
            0 <= n <= i64::MAX,
            old(self).bounded(n),
        ensures
            *final(self) == old(self).boundary(),
            final(self).bounded(n),
    {
        self.close_line();
        if self.in_str {
            self.scan.unterminated_string = true;
        }
        self.scan.final_depth += self.depth;
        self.depth = 0;
        self.in_str = false;
        self.escaped = false;
        self.line_had_content = false;
    }
}

pub proof fn lemma_step_bounded(s: BraceState, b: u8, n: int)
    requires
        0 <= n < i64::MAX,
        s.bounded(n),
    ensures
        s.step(b).bounded(n + 1),
{
}

pub proof fn lemma_boundary_bounded(s: BraceState, n: int)
    requires
        0 <= n <= i64::MAX,
        s.bounded(n),
    ensures
        s.boundary().bounded(n),
{
}

} // verus!
