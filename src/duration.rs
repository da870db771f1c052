//! Elapsed time at nanosecond resolution, and decimal numerals.

use vstd::prelude::*;

verus! {

/// One second, in nanoseconds.
pub const NANOS_PER_SEC: u32 = 1_000_000_000;

/// A non-negative span of time: whole seconds and the nanoseconds beyond them.
#[derive(Clone, Copy, Debug, PartialEq, Eq, PartialOrd, Structural)]
pub struct Duration {
    pub secs: u64,
    pub nanos: u32,
}

impl Duration {
    /// The nanoseconds part is below one second.
    pub open spec fn wf(self) -> bool {
        self.nanos < NANOS_PER_SEC
    }

    /// The whole span, in nanoseconds.
    pub open spec fn total_nanos(self) -> int {
        self.secs * NANOS_PER_SEC + self.nanos
    }

    /// `secs` seconds and `nanos` nanoseconds; whole seconds in `nanos`
    /// are carried into the seconds.
    pub fn new(secs: u64, nanos: u32) -> (r: Duration)
        requires
            secs + nanos / NANOS_PER_SEC <= u64::MAX,
        ensures
            r.wf(),
            r.secs == secs + nanos / NANOS_PER_SEC,
            r.nanos == nanos % NANOS_PER_SEC,
    {
        Duration { secs: secs + (nanos / NANOS_PER_SEC) as u64, nanos: nanos % NANOS_PER_SEC }
    }

    /// The whole seconds.
    pub fn as_secs(&self) -> (r: u64)
        ensures
            r == self.secs,
    {
        self.secs
    }

    /// The nanoseconds beyond the whole seconds.
    pub fn subsec_nanos(&self) -> (r: u32)
        ensures
            r == self.nanos,
    {
        self.nanos
    }
}

/// `c` is one of the ASCII digits `0` to `9`.
pub open spec fn is_digit(c: char) -> bool {
    48 <= c as u32 <= 57
}

/// The value of the ASCII digit `c`.
pub open spec fn digit_value(c: char) -> nat {
    (c as u32 - 48) as nat
}

/// The value of the digit string `s`, read in base ten.
pub open spec fn digits_value(s: Seq<char>) -> nat
    decreases s.len(),
{
    if s.len() == 0 {
        0
    } else {
        digits_value(s.drop_last()) * 10 + digit_value(s.last())
    }
}

/// `s` without one leading `+`, if it has one.
pub open spec fn unsigned_digits(s: Seq<char>) -> Seq<char> {
    if s.len() > 0 && s[0] == '+' {
        s.drop_first()
    } else {
        s
    }
}

/// `s` is an unsigned decimal numeral: an optional `+`, then one or more digits.
pub open spec fn is_numeral(s: Seq<char>) -> bool {
    let d = unsigned_digits(s);
    d.len() > 0 && forall|i: int| 0 <= i < d.len() ==> is_digit(#[trigger] d[i])
}

/// The value of the numeral `s`.
pub open spec fn numeral_value(s: Seq<char>) -> nat {
    digits_value(unsigned_digits(s))
}

/// Ten to the power `e`.
pub open spec fn pow10(e: nat) -> nat
    decreases e,
{
    if e == 0 {
        1
    } else {
        10 * pow10((e - 1) as nat)
    }
}

/// A digit string of length `n` is worth less than ten to the `n`.
pub proof fn lemma_digits_value_bound(s: Seq<char>)
    requires
        forall|i: int| 0 <= i < s.len() ==> is_digit(#[trigger] s[i]),
    ensures
        digits_value(s) < pow10(s.len()),
    decreases s.len(),
{
    if s.len() > 0 {
        lemma_digits_value_bound(s.drop_last());
        assert(is_digit(s[s.len() - 1]));
    }
}

/// Reading more digits never lowers the value.
pub proof fn lemma_digits_value_prefix(s: Seq<char>, k: int)
    requires
        0 <= k <= s.len(),
    ensures
        digits_value(s.subrange(0, k)) <= digits_value(s),
    decreases s.len(),
{
    if k < s.len() {
        lemma_digits_value_prefix(s.drop_last(), k);
        assert(s.drop_last().subrange(0, k) =~= s.subrange(0, k));
    } else {
        assert(s.subrange(0, k) =~= s);
    }
}

/// Ten to a larger power is larger.
pub proof fn lemma_pow10_increases(a: nat, b: nat)
    requires
        a <= b,
    ensures
        pow10(a) <= pow10(b),
    decreases b,
{
    if a < b {
        lemma_pow10_increases(a, (b - 1) as nat);
    }
}

/// Powers of ten add their exponents when multiplied.
pub proof fn lemma_pow10_adds(a: nat, b: nat)
    ensures
        pow10(a) * pow10(b) == pow10(a + b),
    decreases a,
{
    if a > 0 {
        let a1 = (a - 1) as nat;
        lemma_pow10_adds(a1, b);
        let p = pow10(a1) * pow10(b);
        assert(pow10(a1 + b) == p);
        assert(pow10(a) == 10 * pow10(a1));
        assert(a + b == (a1 + b) + 1);
        assert(pow10(a + b) == 10 * pow10(a1 + b));
        assert(pow10(a) * pow10(b) == 10 * p) by (nonlinear_arith)
            requires
                pow10(a) == 10 * pow10(a1),
                p == pow10(a1) * pow10(b),
        ;
    } else {
        assert(pow10(a) == 1);
        assert(a + b == b);
    }
}

/// A digit string is worth its first `j` digits shifted left past the rest,
/// plus the rest.
pub proof fn lemma_digits_split(d: Seq<char>, j: int)
    requires
        0 <= j <= d.len(),
    ensures
        digits_value(d) == digits_value(d.subrange(0, j)) * pow10((d.len() - j) as nat)
            + digits_value(d.subrange(j, d.len() as int)),
    decreases d.len(),
{
    if j == d.len() {
        assert(d.subrange(0, j) =~= d);
        assert(d.subrange(j, d.len() as int) =~= Seq::<char>::empty());
        assert(pow10(0) == 1);
        assert(digits_value(d) * 1 == digits_value(d));
    } else {
        let dl = d.drop_last();
        lemma_digits_split(dl, j);
        assert(dl.subrange(0, j) =~= d.subrange(0, j));
        let tail = d.subrange(j, d.len() as int);
        assert(tail.drop_last() =~= dl.subrange(j, dl.len() as int));
        assert(tail.last() == d.last());
        let a = digits_value(d.subrange(0, j));
        let p = pow10((dl.len() - j) as nat);
        let t = digits_value(dl.subrange(j, dl.len() as int));
        assert(pow10((d.len() - j) as nat) == 10 * p);
        assert(digits_value(dl) == a * p + t);
        assert(digits_value(d) == digits_value(dl) * 10 + digit_value(d.last()));
        assert(digits_value(tail) == t * 10 + digit_value(d.last()));
        assert((a * p + t) * 10 + digit_value(d.last()) == a * (10 * p) + (t * 10 + digit_value(
            d.last(),
        ))) by (nonlinear_arith);
    }
}

/// Nanoseconds for a fraction of a second written with `len` characters
/// after the dot and worth `value` in them: scaled up to nine places, or
/// cut down to nine places (the further digits are dropped, not rounded).
pub open spec fn scale_fraction(value: nat, len: nat) -> nat {
    if len < 9 {
        value * pow10((9 - len) as nat)
    } else {
        value / pow10((len - 9) as nat)
    }
}

/// Reads the fraction numeral `f` (the characters after the dot) as
/// nanoseconds: `None` where `f` is no numeral. Only the first nine places
/// are read; the further characters need only be digits.
pub fn fraction_nanos(f: &Vec<char>) -> (r: Option<u32>)
    ensures
        r == (if is_numeral(f@) {
            Some(scale_fraction(numeral_value(f@), f@.len()) as u32)
        } else {
            None::<u32>
        }),
        r matches Some(x) ==> x < NANOS_PER_SEC && x == scale_fraction(numeral_value(f@), f@.len()),
{
    let n = f.len();
    let mut start: usize = 0;
    if n > 0 && f[0] == '+' {
        start = 1;
    }
    let ghost d = unsigned_digits(f@);
    assert(d =~= f@.subrange(start as int, n as int));
    if start >= n {
        return None;
    }
    let keep: usize = if n < 9 {
        n - start
    } else {
        9 - start
    };
    proof {
        reveal_with_fuel(pow10, 10);
        assert(pow10(9) == 1_000_000_000);
    }
    let mut v: u64 = 0;
    let mut i: usize = start;
    assert(d.subrange(0, 0) =~= Seq::<char>::empty());
    while i < n
        invariant
            start < n == f@.len(),
            start <= i <= n,
            keep <= n - start,
            keep <= 9,
            d == unsigned_digits(f@),
            d == f@.subrange(start as int, n as int),
            pow10(9) == 1_000_000_000,
            forall|j: int| 0 <= j < i - start ==> is_digit(#[trigger] d[j]),
            v == digits_value(d.subrange(0, if i - start < keep { i - start } else { keep as int })),
        decreases n - i,
    {
        let c = f[i];
        let code = c as u32;
        assert(d[i - start] == c);
        if code < 48 || code > 57 {
            assert(!is_digit(d[i - start]));
            return None;
        }
        if i - start < keep {
            let digit = (code - 48) as u64;
            let ghost pre = d.subrange(0, i - start);
            proof {
                assert forall|j: int| 0 <= j < pre.len() implies is_digit(#[trigger] pre[j]) by {
                    assert(pre[j] == d[j]);
                }
                lemma_digits_value_bound(pre);
                lemma_pow10_increases(pre.len(), 8);
                reveal_with_fuel(pow10, 9);
            }
            assert(d.subrange(0, i - start + 1).drop_last() =~= pre);
            v = v * 10 + digit;
        }
        i += 1;
    }
    let ghost m = d.len();
    let ghost kept = d.subrange(0, keep as int);
    proof {
        assert forall|j: int| 0 <= j < kept.len() implies is_digit(#[trigger] kept[j]) by {
            assert(kept[j] == d[j]);
        }
        lemma_digits_value_bound(kept);
        lemma_pow10_increases(keep as nat, 9);
        lemma_digits_split(d, keep as int);
    }
    if n < 9 {
        assert(kept =~= d);
        let p = exec_pow10((9 - n) as u32);
        proof {
            lemma_pow10_increases(0, (9 - n) as nat);
            lemma_pow10_increases(keep as nat, n as nat);
            lemma_pow10_adds(n as nat, (9 - n) as nat);
            assert(v * p < pow10(9)) by (nonlinear_arith)
                requires
                    v < pow10(n as nat),
                    p >= 1,
                    pow10(n as nat) * p == pow10(9),
            ;
        }
        Some((v * p) as u32)
    } else {
        let ghost k = (n - 9) as nat;
        let ghost rest = d.subrange(keep as int, m as int);
        proof {
            assert(m - keep == k);
            assert forall|j: int| 0 <= j < rest.len() implies is_digit(#[trigger] rest[j]) by {
                assert(rest[j] == d[keep + j]);
            }
            lemma_digits_value_bound(rest);
            lemma_pow10_increases(0, k);
            vstd::arithmetic::div_mod::lemma_fundamental_div_mod_converse_div(
                digits_value(d) as int,
                pow10(k) as int,
                v as int,
                digits_value(rest) as int,
            );
        }
        Some(v as u32)
    }
}

/// Ten to the power `e`, for an `e` whose power fits in a `u64`.
pub fn exec_pow10(e: u32) -> (r: u64)
    requires
        e <= 19,
    ensures
        r == pow10(e as nat),
{
    let mut r: u64 = 1;
    let mut i: u32 = 0;
    while i < e
        invariant
            i <= e <= 19,
            r == pow10(i as nat),
        decreases e - i,
    {
        proof {
            lemma_pow10_increases((i + 1) as nat, 19);
            reveal_with_fuel(pow10, 20);
            assert(pow10(19) == 10_000_000_000_000_000_000);
        }
        r = r * 10;
        i += 1;
    }
    r
}

/// Reads the numeral `s` as a `u64`: `None` where `s` is no numeral or its
/// value does not fit.
pub fn parse_u64(s: &Vec<char>) -> (r: Option<u64>)
    ensures
        r == (if is_numeral(s@) && numeral_value(s@) <= u64::MAX {
            Some(numeral_value(s@) as u64)
        } else {
            None::<u64>
        }),
{
    let n = s.len();
    let mut start: usize = 0;
    if n > 0 && s[0] == '+' {
        start = 1;
    }
    let ghost d = unsigned_digits(s@);
    assert(d =~= s@.subrange(start as int, n as int));
    if start >= n {
        return None;
    }
    let mut v: u64 = 0;
    let mut i: usize = start;
    assert(d.subrange(0, 0) =~= Seq::<char>::empty());
    while i < n
        invariant
            start < n == s@.len(),
            start <= i <= n,
            d == unsigned_digits(s@),
            d == s@.subrange(start as int, n as int),
            forall|j: int| 0 <= j < i - start ==> is_digit(#[trigger] d[j]),
            v == digits_value(d.subrange(0, i - start)),
        decreases n - i,
    {
        let c = s[i];
        let code = c as u32;
        assert(d[i - start] == c);
        if code < 48 || code > 57 {
            assert(!is_digit(d[i - start]));
            return None;
        }
        let digit = (code - 48) as u64;
        assert(d.subrange(0, i - start + 1).drop_last() =~= d.subrange(0, i - start));
        assert(digits_value(d.subrange(0, i - start + 1)) == v * 10 + digit);
        if v > (u64::MAX - digit) / 10 {
            proof {
                lemma_digits_value_prefix(d, i - start + 1);
                assert(v * 10 + digit > u64::MAX) by (nonlinear_arith)
                    requires
                        v > (u64::MAX - digit) / 10,
                        digit <= 9,
                ;
            }
            return None;
        }
        v = v * 10 + digit;
        i += 1;
    }
    assert(d.subrange(0, n - start) =~= d);
    Some(v)
}

} // verus!
