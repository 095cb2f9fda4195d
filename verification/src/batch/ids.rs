//! Timestamps that are embedded in identifiers: UUIDv7 and ULID.
use vstd::prelude::*;

verus! {

// ---------------------------------------------------------------------
// Digits
// ---------------------------------------------------------------------

/// The value of a hexadecimal digit.
pub open spec fn hex_value(b: u8) -> Option<int> {
    if 0x30 <= b <= 0x39 {
        Some(b - 0x30)
    } else if 0x61 <= b <= 0x66 {
        Some(b - 0x61 + 10)
    } else if 0x41 <= b <= 0x46 {
        Some(b - 0x41 + 10)
    } else {
        None
    }
}

pub fn hex_digit(b: u8) -> (r: Option<u8>)
    ensures
        match r {
            Some(v) => hex_value(b) == Some(v as int) && v < 16,
            None => hex_value(b) is None,
        },
{
    if 0x30 <= b && b <= 0x39 {
        Some(b - 0x30)
    } else if 0x61 <= b && b <= 0x66 {
        Some(b - 0x61 + 10)
    } else if 0x41 <= b && b <= 0x46 {
        Some(b - 0x41 + 10)
    } else {
        None
    }
}

/// A letter in upper case.
pub open spec fn upper(b: u8) -> u8 {
    if 0x61 <= b <= 0x7a {
        (b - 0x20) as u8
    } else {
        b
    }
}

/// The place of an upper-case letter of the Crockford alphabet among the
/// letters that it has: all but I, L, O and U.
pub open spec fn crockford_letter(b: u8) -> Option<int> {
    if b < 0x41 || b > 0x5a || b == 0x49 || b == 0x4c || b == 0x4f || b == 0x55 {
        None
    } else if b < 0x49 {
        Some(b - 0x41)
    } else if b < 0x4c {
        Some(b - 0x41 - 1)
    } else if b < 0x4f {
        Some(b - 0x41 - 2)
    } else if b < 0x55 {
        Some(b - 0x41 - 3)
    } else {
        Some(b - 0x41 - 4)
    }
}

/// The value of a Crockford base-32 digit: ten decimal digits, then the
/// letters, without regard to case.
pub open spec fn crockford_value(b: u8) -> Option<int> {
    if 0x30 <= b <= 0x39 {
        Some(b - 0x30)
    } else {
        match crockford_letter(upper(b)) {
            Some(k) => Some(10 + k),
            None => None,
        }
    }
}

pub fn crockford_base32(b: u8) -> (r: Option<u8>)
    ensures
        match r {
            Some(v) => crockford_value(b) == Some(v as int) && v < 32,
            None => crockford_value(b) is None,
        },
{
    match b {
        0x30 | 0x31 | 0x32 | 0x33 | 0x34 | 0x35 | 0x36 | 0x37 | 0x38 | 0x39 => Some(b - 0x30),
        0x41 | 0x61 => Some(10),
        0x42 | 0x62 => Some(11),
        0x43 | 0x63 => Some(12),
        0x44 | 0x64 => Some(13),
        0x45 | 0x65 => Some(14),
        0x46 | 0x66 => Some(15),
        0x47 | 0x67 => Some(16),
        0x48 | 0x68 => Some(17),
        0x4a | 0x6a => Some(18),
        0x4b | 0x6b => Some(19),
        0x4d | 0x6d => Some(20),
        0x4e | 0x6e => Some(21),
        0x50 | 0x70 => Some(22),
        0x51 | 0x71 => Some(23),
        0x52 | 0x72 => Some(24),
        0x53 | 0x73 => Some(25),
        0x54 | 0x74 => Some(26),
        0x56 | 0x76 => Some(27),
        0x57 | 0x77 => Some(28),
        0x58 | 0x78 => Some(29),
        0x59 | 0x79 => Some(30),
        0x5a | 0x7a => Some(31),
        _ => None,
    }
}

// ---------------------------------------------------------------------
// Numbers
// ---------------------------------------------------------------------

/// The number that hexadecimal digits spell.
pub open spec fn hex_number(s: Seq<u8>) -> int
    decreases s.len(),
{
    if s.len() == 0 {
        0
    } else {
        hex_number(s.drop_last()) * 16 + hex_value(s.last())->Some_0
    }
}

/// The number that Crockford digits spell.
pub open spec fn crockford_number(s: Seq<u8>) -> int
    decreases s.len(),
{
    if s.len() == 0 {
        0
    } else {
        crockford_number(s.drop_last()) * 32 + crockford_value(s.last())->Some_0
    }
}

pub open spec fn power(base: int, k: int) -> int
    decreases k,
{
    if k <= 0 {
        1
    } else {
        base * power(base, k - 1)
    }
}

/// The bytes that are no hyphen.
pub open spec fn unhyphenated(b: Seq<u8>) -> Seq<u8>
    decreases b.len(),
{
    if b.len() == 0 {
        b
    } else if b.last() == 0x2d {
        unhyphenated(b.drop_last())
    } else {
        unhyphenated(b.drop_last()).push(b.last())
    }
}

// ---------------------------------------------------------------------
// UUIDv7
// ---------------------------------------------------------------------

/// Where the hyphenated form, 8-4-4-4-12, has its hyphens.
pub open spec fn hyphen_place(i: int) -> bool {
    i == 8 || i == 13 || i == 18 || i == 23
}

/// The form of a UUID: thirty-two bytes without a hyphen, or thirty-six with a
/// hyphen in its four places and nowhere else.
pub open spec fn uuid_form(b: Seq<u8>) -> bool {
    if b.len() == 32 {
        forall|i: int| 0 <= i < 32 ==> #[trigger] b[i] != 0x2d
    } else {
        b.len() == 36 && forall|i: int|
            0 <= i < 36 ==> (#[trigger] b[i] == 0x2d <==> hyphen_place(i))
    }
}

/// The milliseconds that a UUIDv7 starts with: twelve hexadecimal digits,
/// and the version digit 7 behind them. Hyphenated or not.
pub open spec fn uuid_millis(b: Seq<u8>) -> Option<int> {
    let d = unhyphenated(b);
    if uuid_form(b) && d.len() >= 13 && (forall|i: int|
        0 <= i < 13 ==> hex_value(#[trigger] d[i]) is Some) && hex_value(d[12]) == Some(7int) {
        Some(hex_number(d.take(12)))
    } else {
        None
    }
}

/// What is left out of a beginning is left out of the whole.
proof fn lemma_unhyphenated_prefix(b: Seq<u8>, k: int)
    requires
        0 <= k <= b.len(),
    ensures
        unhyphenated(b.take(k)).len() <= unhyphenated(b).len(),
        forall|i: int|
            0 <= i < unhyphenated(b.take(k)).len() ==> #[trigger] unhyphenated(b)[i]
                == unhyphenated(b.take(k))[i],
    decreases b.len() - k,
{
    if k < b.len() {
        lemma_unhyphenated_prefix(b, k + 1);
        assert(b.take(k + 1).drop_last() =~= b.take(k));
        let u = unhyphenated(b.take(k));
        let v = unhyphenated(b.take(k + 1));
        assert forall|i: int| 0 <= i < u.len() implies #[trigger] unhyphenated(b)[i] == u[i] by {
            assert(v[i] == u[i]);
            assert(unhyphenated(b)[i] == v[i]);
        }
    } else {
        assert(b.take(k) =~= b);
    }
}

proof fn lemma_hex_number(s: Seq<u8>)
    requires
        forall|i: int| 0 <= i < s.len() ==> hex_value(#[trigger] s[i]) is Some,
    ensures
        0 <= hex_number(s) < power(16, s.len() as int),
    decreases s.len(),
{
    if s.len() > 0 {
        let front = s.drop_last();
        assert forall|i: int| 0 <= i < front.len() implies hex_value(#[trigger] front[i]) is Some by {
            assert(front[i] == s[i]);
        }
        lemma_hex_number(front);
        assert(hex_value(s[s.len() - 1]) is Some);
    }
}

proof fn lemma_power(base: int, a: int, b: int)
    requires
        base >= 1,
        0 <= a <= b,
    ensures
        1 <= power(base, a) <= power(base, b),
    decreases b,
{
    if a < b {
        lemma_power(base, a, b - 1);
        let p = power(base, b - 1);
        assert(base * p >= p) by (nonlinear_arith)
            requires
                base >= 1,
                p >= 1,
        ;
    } else if b > 0 {
        lemma_power(base, a - 1, b - 1);
        let p = power(base, b - 1);
        assert(base * p >= 1) by (nonlinear_arith)
            requires
                base >= 1,
                p >= 1,
        ;
    }
}

fn has_uuid_form(b: &[u8]) -> (r: bool)
    ensures
        r == uuid_form(b@),
{
    let n: usize = b.len();
    if n != 36 && n != 32 {
        return false;
    }
    let mut i: usize = 0;
    while i < n
        invariant
            i <= n == b@.len(),
            n == 32 || n == 36,
            forall|k: int|
                0 <= k < i ==> (#[trigger] b@[k] == 0x2d <==> n == 36 && hyphen_place(k)),
        decreases n - i,
    {
        let due: bool = n == 36 && (i == 8 || i == 13 || i == 18 || i == 23);
        if (b[i] == 0x2d) != due {
            return false;
        }
        i += 1;
    }
    true
}

/// The milliseconds embedded in the first twelve hexadecimal digits of a
/// UUIDv7. The thirteenth must be the version, 7.
pub fn uuidv7_millis(b: &[u8]) -> (r: Option<u64>)
    ensures
        match r {
            Some(m) => uuid_millis(b@) == Some(m as int) && m < 0x1_0000_0000_0000,
            None => uuid_millis(b@) is None,
        },
{
    let n: usize = b.len();
    if !has_uuid_form(b) {
        return None;
    }
    let mut millis: u64 = 0;
    let mut count: usize = 0;
    let mut i: usize = 0;
    assert(b@.take(0) =~= Seq::empty());
    while i < n
        invariant
            i <= n == b@.len(),
            uuid_form(b@),
            count <= 12,
            count == unhyphenated(b@.take(i as int)).len(),
            forall|k: int|
                0 <= k < count ==> hex_value(#[trigger] unhyphenated(b@.take(i as int))[k]) is Some,
            millis == hex_number(unhyphenated(b@.take(i as int))),
            millis < power(16, count as int),
        decreases n - i,
    {
        let c: u8 = b[i];
        let ghost before = unhyphenated(b@.take(i as int));
        let ghost after = unhyphenated(b@.take(i + 1));
        proof {
            assert(b@.take(i + 1).drop_last() =~= b@.take(i as int));
            assert(b@.take(i + 1).last() == c);
            lemma_unhyphenated_prefix(b@, i + 1);
            if count < 12 {
                lemma_power(16, count as int, 11);
            }
            assert(power(16, 11) == 0x1000_0000_0000) by {
                reveal_with_fuel(power, 12);
            }
        }
        if c != 0x2d {
            assert(after =~= before.push(c));
            assert(unhyphenated(b@)[count as int] == after[count as int]);
            match hex_digit(c) {
                None => {
                    assert(hex_value(unhyphenated(b@)[count as int]) is None);
                    return None;
                },
                Some(v) => {
                    if count == 12 {
                        proof {
                            let d = unhyphenated(b@);
                            assert forall|k: int| 0 <= k < 13 implies hex_value(
                                #[trigger] d[k],
                            ) is Some by {
                                assert(d[k] == after[k]);
                                if k < 12 {
                                    assert(after[k] == before[k]);
                                }
                            }
                            assert(d.take(12) =~= before);
                            assert(power(16, 12) == 0x1_0000_0000_0000) by {
                                reveal_with_fuel(power, 13);
                            }
                        }
                        return if v == 7 {
                            Some(millis)
                        } else {
                            None
                        };
                    }
                    millis = millis * 16 + v as u64;
                    count += 1;
                    assert(after.drop_last() =~= before);
                    assert forall|k: int| 0 <= k < count implies hex_value(
                        #[trigger] after[k],
                    ) is Some by {
                        if k < count - 1 {
                            assert(after[k] == before[k]);
                        }
                    }
                },
            }
        }
        i += 1;
    }
    assert(b@.take(i as int) =~= b@);
    None
}

// ---------------------------------------------------------------------
// ULID
// ---------------------------------------------------------------------

/// The milliseconds that a ULID starts with: ten Crockford digits, of which
/// the value fits in 48 bits; all twenty-six are Crockford digits.
pub open spec fn ulid_millis_of(b: Seq<u8>) -> Option<int> {
    if b.len() == 26 && (forall|i: int| 0 <= i < 26 ==> crockford_value(#[trigger] b[i]) is Some)
        && crockford_number(b.take(10)) < 0x1_0000_0000_0000 {
        Some(crockford_number(b.take(10)))
    } else {
        None
    }
}

/// The milliseconds embedded in the first ten characters of a ULID.
pub fn ulid_millis(b: &[u8]) -> (r: Option<u64>)
    ensures
        match r {
            Some(m) => ulid_millis_of(b@) == Some(m as int) && m < 0x1_0000_0000_0000,
            None => ulid_millis_of(b@) is None,
        },
{
    if b.len() != 26 {
        return None;
    }
    let mut millis: u64 = 0;
    let mut i: usize = 0;
    assert(b@.take(0) =~= Seq::empty());
    while i < 26
        invariant
            i <= 26 == b@.len(),
            forall|k: int| 0 <= k < i ==> crockford_value(#[trigger] b@[k]) is Some,
            i <= 10 ==> millis == crockford_number(b@.take(i as int)) && millis < power(
                32,
                i as int,
            ),
            i >= 10 ==> millis == crockford_number(b@.take(10)),
        decreases 26 - i,
    {
        match crockford_base32(b[i]) {
            None => {
                assert(crockford_value(b@[i as int]) is None);
                return None;
            },
            Some(v) => {
                if i < 10 {
                    proof {
                        lemma_power(32, i as int, 9);
                        assert(power(32, 9) == 0x2000_0000_0000) by {
                            reveal_with_fuel(power, 10);
                        }
                        assert(b@.take(i + 1).drop_last() =~= b@.take(i as int));
                    }
                    millis = millis * 32 + v as u64;
                }
            },
        }
        i += 1;
    }
    if millis >= 0x1_0000_0000_0000 {
        return None;
    }
    Some(millis)
}

// ---------------------------------------------------------------------
// Laws
// ---------------------------------------------------------------------

/// The last `k` digits of `n` in base sixteen, as lower-case digits.
pub open spec fn hex_digits(n: int, k: int) -> Seq<u8>
    decreases k,
{
    if k <= 0 {
        Seq::empty()
    } else {
        let d = n % 16;
        hex_digits(n / 16, k - 1).push(
            (if d < 10 {
                0x30 + d
            } else {
                0x61 + d - 10
            }) as u8,
        )
    }
}

proof fn lemma_hex_digits(n: int, k: int)
    requires
        0 <= n < power(16, k),
        0 <= k,
    ensures
        hex_digits(n, k).len() == k,
        forall|i: int| 0 <= i < k ==> hex_value(#[trigger] hex_digits(n, k)[i]) is Some,
        forall|i: int| 0 <= i < k ==> #[trigger] hex_digits(n, k)[i] != 0x2d,
        hex_number(hex_digits(n, k)) == n,
    decreases k,
{
    if k > 0 {
        assert(n / 16 < power(16, k - 1)) by {
            assert(power(16, k) == 16 * power(16, k - 1));
        }
        lemma_hex_digits(n / 16, k - 1);
        let s = hex_digits(n, k);
        assert(s.drop_last() =~= hex_digits(n / 16, k - 1));
        assert(n == (n / 16) * 16 + n % 16);
    } else {
        assert(power(16, k) == 1);
    }
}

proof fn lemma_no_hyphens(b: Seq<u8>)
    requires
        forall|i: int| 0 <= i < b.len() ==> #[trigger] b[i] != 0x2d,
    ensures
        unhyphenated(b) == b,
    decreases b.len(),
{
    if b.len() > 0 {
        let front = b.drop_last();
        assert forall|i: int| 0 <= i < front.len() implies #[trigger] front[i] != 0x2d by {
            assert(front[i] == b[i]);
        }
        lemma_no_hyphens(front);
        assert(b.last() == b[b.len() - 1]);
        assert(front.push(b.last()) =~= b);
    }
}

proof fn lemma_unhyphenated_sum(a: Seq<u8>, b: Seq<u8>)
    ensures
        unhyphenated(a + b) == unhyphenated(a) + unhyphenated(b),
    decreases b.len(),
{
    if b.len() == 0 {
        assert(a + b =~= a);
        assert(unhyphenated(a) + unhyphenated(b) =~= unhyphenated(a));
    } else {
        assert((a + b).drop_last() =~= a + b.drop_last());
        lemma_unhyphenated_sum(a, b.drop_last());
        assert(unhyphenated(a) + unhyphenated(b.drop_last()).push(b.last()) =~= (unhyphenated(a)
            + unhyphenated(b.drop_last())).push(b.last()));
    }
}

/// Twelve hexadecimal digits, in upper or lower case, that spell a number.
pub open spec fn spells(digits: Seq<u8>, n: int) -> bool {
    &&& digits.len() == 12
    &&& forall|i: int| 0 <= i < 12 ==> hex_value(#[trigger] digits[i]) is Some
    &&& hex_number(digits) == n
}

/// Every 48-bit time has digits that spell it.
pub proof fn law_times_can_be_spelled(millis: int)
    requires
        0 <= millis < 0x1_0000_0000_0000,
    ensures
        spells(hex_digits(millis, 12), millis),
{
    assert(power(16, 12) == 0x1_0000_0000_0000) by {
        reveal_with_fuel(power, 13);
    }
    lemma_hex_digits(millis, 12);
}

/// A 48-bit time comes back from a UUIDv7 that it is written into, in digits
/// of either case: unhyphenated, whatever but a hyphen stands behind the version
/// digit.
pub proof fn law_uuidv7_gives_back_its_time(millis: int, digits: Seq<u8>, tail: Seq<u8>)
    requires
        spells(digits, millis),
        tail.len() == 19,
        forall|i: int| 0 <= i < 19 ==> #[trigger] tail[i] != 0x2d,
    ensures
        uuid_millis(digits + seq![0x37u8] + tail) == Some(millis),
{
    let head = digits + seq![0x37u8];
    let b = head + tail;
    assert(digits + seq![0x37u8] + tail =~= b);
    lemma_unhyphenated_sum(head, tail);
    assert forall|i: int| 0 <= i < head.len() implies #[trigger] head[i] != 0x2d by {
        if i < 12 {
            assert(head[i] == digits[i]);
        }
    }
    lemma_no_hyphens(head);
    assert forall|i: int| 0 <= i < 32 implies #[trigger] b[i] != 0x2d by {
        if i < 13 {
            assert(b[i] == head[i]);
        } else {
            assert(b[i] == tail[i - 13]);
        }
    }
    let d = unhyphenated(b);
    assert forall|i: int| 0 <= i < 13 implies hex_value(#[trigger] d[i]) is Some by {
        assert(d[i] == head[i]);
        if i < 12 {
            assert(head[i] == digits[i]);
        }
    }
    assert(d[12] == head[12]);
    assert(d.take(12) =~= digits);
}

/// A 48-bit time comes back from a hyphenated UUIDv7 that it is written into,
/// in digits of either case.
pub proof fn law_hyphenated_uuidv7_gives_back_its_time(millis: int, d: Seq<u8>, tail: Seq<u8>)
    requires
        spells(d, millis),
        tail.len() == 21,
        forall|i: int| 0 <= i < 21 ==> (#[trigger] tail[i] == 0x2d <==> i == 3 || i == 8),
    ensures
        uuid_millis(d.take(8) + seq![0x2du8] + d.skip(8) + seq![0x2du8, 0x37u8] + tail) == Some(
            millis,
        ),
{
    let a = d.take(8);
    let c = d.skip(8);
    let hyphen = seq![0x2du8];
    let mark = seq![0x2du8, 0x37u8];
    let b = a + hyphen + c + mark + tail;
    assert forall|i: int| 0 <= i < a.len() implies #[trigger] a[i] != 0x2d by {
        assert(a[i] == d[i]);
    }
    assert forall|i: int| 0 <= i < c.len() implies #[trigger] c[i] != 0x2d by {
        assert(c[i] == d[i + 8]);
    }
    lemma_no_hyphens(a);
    lemma_no_hyphens(c);
    lemma_unhyphenated_sum(a + hyphen + c + mark, tail);
    lemma_unhyphenated_sum(a + hyphen + c, mark);
    lemma_unhyphenated_sum(a + hyphen, c);
    lemma_unhyphenated_sum(a, hyphen);
    assert(unhyphenated(hyphen) =~= Seq::empty()) by {
        assert(hyphen.drop_last() =~= Seq::empty());
        assert(hyphen.last() == 0x2d);
        assert(unhyphenated(hyphen.drop_last()) =~= Seq::empty());
    }
    assert(unhyphenated(mark) =~= seq![0x37u8]) by {
        assert(mark.drop_last() =~= hyphen);
        assert(unhyphenated(hyphen) =~= Seq::empty());
    }
    let u = unhyphenated(b);
    assert(u =~= d + seq![0x37u8] + unhyphenated(tail)) by {
        assert(a + c =~= d);
    }
    assert forall|i: int| 0 <= i < 13 implies hex_value(#[trigger] u[i]) is Some by {
        if i < 12 {
            assert(u[i] == d[i]);
        }
    }
    assert(u.take(12) =~= d);
    assert forall|i: int| 0 <= i < 36 implies (#[trigger] b[i] == 0x2d <==> hyphen_place(i)) by {
        if i < 8 {
            assert(b[i] == a[i]);
        } else if 9 <= i < 13 {
            assert(b[i] == c[i - 9]);
        } else if i >= 15 {
            assert(b[i] == tail[i - 15]);
        }
    }
}

/// A Crockford digit of the given value, in upper case.
pub open spec fn crockford_digit(v: int) -> u8 {
    (if v < 10 {
        0x30 + v
    } else if v < 18 {
        0x41 + v - 10
    } else if v < 20 {
        0x4a + v - 18
    } else if v < 22 {
        0x4d + v - 20
    } else if v < 27 {
        0x50 + v - 22
    } else {
        0x56 + v - 27
    }) as u8
}

pub open spec fn crockford_digits(n: int, k: int) -> Seq<u8>
    decreases k,
{
    if k <= 0 {
        Seq::empty()
    } else {
        crockford_digits(n / 32, k - 1).push(crockford_digit(n % 32))
    }
}

proof fn lemma_crockford_digits(n: int, k: int)
    requires
        0 <= n < power(32, k),
        0 <= k,
    ensures
        crockford_digits(n, k).len() == k,
        forall|i: int| 0 <= i < k ==> crockford_value(#[trigger] crockford_digits(n, k)[i]) is Some,
        crockford_number(crockford_digits(n, k)) == n,
    decreases k,
{
    if k > 0 {
        assert(n / 32 < power(32, k - 1)) by {
            assert(power(32, k) == 32 * power(32, k - 1));
        }
        lemma_crockford_digits(n / 32, k - 1);
        let s = crockford_digits(n, k);
        assert(s.drop_last() =~= crockford_digits(n / 32, k - 1));
        let v = n % 32;
        assert(crockford_value(crockford_digit(v)) == Some(v));
        assert(n == (n / 32) * 32 + n % 32);
    } else {
        assert(power(32, k) == 1);
    }
}

/// Ten Crockford digits, in upper or lower case, that spell a number.
pub open spec fn spells_base32(digits: Seq<u8>, n: int) -> bool {
    &&& digits.len() == 10
    &&& forall|i: int| 0 <= i < 10 ==> crockford_value(#[trigger] digits[i]) is Some
    &&& crockford_number(digits) == n
}

/// Every 48-bit time has Crockford digits that spell it.
pub proof fn law_times_can_be_spelled_in_base32(millis: int)
    requires
        0 <= millis < 0x1_0000_0000_0000,
    ensures
        spells_base32(crockford_digits(millis, 10), millis),
{
    assert(power(32, 10) == 0x4_0000_0000_0000) by {
        reveal_with_fuel(power, 11);
    }
    lemma_crockford_digits(millis, 10);
}

/// A 48-bit time comes back from a ULID that it is written into, in digits of
/// either case, whatever Crockford digits stand behind it.
pub proof fn law_ulid_gives_back_its_time(millis: int, head: Seq<u8>, tail: Seq<u8>)
    requires
        0 <= millis < 0x1_0000_0000_0000,
        spells_base32(head, millis),
        tail.len() == 16,
        forall|i: int| 0 <= i < 16 ==> crockford_value(#[trigger] tail[i]) is Some,
    ensures
        ulid_millis_of(head + tail) == Some(millis),
{
    let b = head + tail;
    assert(b.take(10) =~= head);
    assert forall|i: int| 0 <= i < 26 implies crockford_value(#[trigger] b[i]) is Some by {
        if i < 10 {
            assert(b[i] == head[i]);
        } else {
            assert(b[i] == tail[i - 10]);
        }
    }
}

} // verus!
