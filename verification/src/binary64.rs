//! Quotients rounded the way IEEE 754 binary64 arithmetic rounds them, computed with integers.
//!
//! Rates and averages are quotients of counters. Each operand is first rounded to 53
//! significant bits, then the quotient is, and only then is the result rounded to an integer.
use vstd::arithmetic::div_mod::lemma_fundamental_div_mod;
use vstd::arithmetic::power2::{
    lemma2_to64, lemma_pow2_adds, lemma_pow2_pos, lemma_pow2_strictly_increases, lemma_pow2_unfold,
    pow2,
};
use vstd::prelude::*;

verus! {

/// The non-negative number `mantissa * 2^exponent`.
#[derive(Debug, Clone, Copy)]
pub struct Binary64 {
    pub mantissa: u64,
    pub exponent: i32,
}

/// `num / den` rounded to the nearest integer, to the even one where two are equally near.
pub open spec fn nearest_even(num: nat, den: nat) -> nat {
    let q = num / den;
    let r = num % den;
    if 2 * r < den || (2 * r == den && q % 2 == 0) {
        q
    } else {
        q + 1
    }
}

/// How often `den` has to be doubled until `num / den` has at most 53 bits before the point.
pub open spec fn halvings(num: nat, den: nat) -> nat
    decreases
            if num < 0x20_0000_0000_0000 * den {
                0
            } else {
                num - 0x20_0000_0000_0000 * den + 1
            },
{
    if den == 0 || num < 0x20_0000_0000_0000 * den {
        0
    } else {
        1 + halvings(num, 2 * den)
    }
}

/// How often `num` has to be doubled until `num / den` has at least 53 bits before the point.
pub open spec fn doublings(num: nat, den: nat) -> nat
    decreases
            if num >= 0x10_0000_0000_0000 * den {
                0
            } else {
                0x10_0000_0000_0000 * den - num
            },
{
    if num == 0 || num >= 0x10_0000_0000_0000 * den {
        0
    } else {
        1 + doublings(2 * num, den)
    }
}

/// The mantissa and exponent of `num / den` rounded to 53 significant bits.
pub open spec fn rounded(num: nat, den: nat) -> (nat, int) {
    if num >= 0x20_0000_0000_0000 * den {
        let k = halvings(num, den);
        (nearest_even(num, den * pow2(k)), k as int)
    } else {
        let k = doublings(num, den);
        (nearest_even(num * pow2(k), den), -(k as int))
    }
}

/// The binary64 number nearest to `n`.
pub open spec fn of_int(n: nat) -> (nat, int) {
    if n == 0 {
        (0, 0)
    } else {
        rounded(n, 1)
    }
}

/// The binary64 quotient of two binary64 numbers, the second of which is not zero.
pub open spec fn quotient(a: (nat, int), b: (nat, int)) -> (nat, int) {
    if a.0 == 0 {
        (0, 0)
    } else {
        let r = rounded(a.0, b.0);
        (r.0, r.1 + a.1 - b.1)
    }
}

/// The integer nearest to `m * 2^e`, the larger one where two are equally near, as far as 64
/// bits reach.
pub open spec fn to_int(a: (nat, int)) -> u64 {
    let v: nat = if a.1 >= 0 {
        a.0 * pow2(a.1 as nat)
    } else {
        (2 * a.0 + pow2((-a.1) as nat)) / (2 * pow2((-a.1) as nat))
    };
    if v > u64::MAX {
        u64::MAX
    } else {
        v as u64
    }
}

proof fn lemma_scaled_bounds(n: nat, d: nat)
    requires
        d > 0,
        0x10_0000_0000_0000 * d <= n,
        n < 0x20_0000_0000_0000 * d,
    ensures
        0x10_0000_0000_0000 <= n / d < 0x20_0000_0000_0000,
        0x10_0000_0000_0000 <= nearest_even(n, d) <= 0x20_0000_0000_0000,
{
    assert(0x10_0000_0000_0000 <= n / d < 0x20_0000_0000_0000) by (nonlinear_arith)
        requires
            d > 0,
            0x10_0000_0000_0000 * d <= n,
            n < 0x20_0000_0000_0000 * d,
    ;
}

/// `num / den` rounded to 53 significant bits.
fn round_quotient(num: u64, den: u64) -> (r: Binary64)
    requires
        num > 0,
        0 < den <= 0x20_0000_0000_0000,
        num < 0x20_0000_0000_0000 * den || den == 1,
    ensures
        rounded(num as nat, den as nat) == (r.mantissa as nat, r.exponent as int),
        0x10_0000_0000_0000 <= r.mantissa <= 0x20_0000_0000_0000,
        -110 <= r.exponent <= 12,
{
    let mut n: u128 = num as u128;
    let mut d: u128 = den as u128;
    let mut e: i32 = 0;
    proof {
        lemma2_to64();
    }
    if n >= 0x20_0000_0000_0000 * d {
        while n >= 0x20_0000_0000_0000 * d
            invariant
                0 <= e <= 12,
                n == num,
                num <= u64::MAX,
                den == 1,
                d == pow2(e as nat),
                0 < d <= 0x1000,
                0x10_0000_0000_0000 * d <= n,
                halvings(num as nat, 1) == e + halvings(num as nat, d as nat),
            decreases 12 - e,
        {
            proof {
                lemma_pow2_unfold((e + 1) as nat);
                lemma2_to64();
            }
            d = d * 2;
            e = e + 1;
        }
        assert(halvings(num as nat, 1) == e);
    } else {
        assert(num * pow2(0) == num);
        while n < 0x10_0000_0000_0000 * d
            invariant
                -106 <= e <= 0,
                d == den,
                0 < den <= 0x20_0000_0000_0000,
                n > 0,
                num > 0,
                n == num * pow2((-e) as nat),
                n < 0x20_0000_0000_0000 * d,
                doublings(num as nat, den as nat) == doublings(n as nat, den as nat) - e,
            decreases 0x20_0000_0000_0000 * d - n,
        {
            proof {
                lemma_pow2_unfold((1 - e) as nat);
                assert(num * pow2((1 - e) as nat) == 2 * (num * pow2((-e) as nat)))
                    by (nonlinear_arith)
                    requires
                        pow2((1 - e) as nat) == 2 * pow2((-e) as nat),
                ;
                if e == -106 {
                    lemma2_to64();
                    vstd::arithmetic::power2::lemma2_to64_rest();
                    vstd::arithmetic::power2::lemma_pow2_adds(53, 53);
                    assert(num * pow2(106) >= pow2(106)) by (nonlinear_arith)
                        requires
                            num >= 1,
                    ;
                }
            }
            n = n * 2;
            e = e - 1;
        }
        assert(doublings(num as nat, den as nat) == -e);
    }
    proof {
        lemma_scaled_bounds(n as nat, d as nat);
    }
    let q = n / d;
    let r = n % d;
    let m = if 2 * r < d || (2 * r == d && q % 2 == 0) {
        q
    } else {
        q + 1
    };
    Binary64 { mantissa: m as u64, exponent: e }
}

impl Binary64 {
    /// The number as a mantissa and an exponent.
    pub open spec fn parts(self) -> (nat, int) {
        (self.mantissa as nat, self.exponent as int)
    }

    /// Zero, or a mantissa of 53 bits with an exponent far from the ends of its range.
    pub open spec fn wf(self) -> bool {
        &&& self.mantissa == 0 || 0x10_0000_0000_0000 <= self.mantissa <= 0x20_0000_0000_0000
        &&& -1000 <= self.exponent <= 1000
    }

    /// The binary64 number nearest to `n`.
    pub fn from_u64(n: u64) -> (r: Binary64)
        ensures
            r.parts() == of_int(n as nat),
            r.wf(),
            n > 0 ==> r.mantissa > 0,
            -110 <= r.exponent <= 12,
    {
        if n == 0 {
            Binary64 { mantissa: 0, exponent: 0 }
        } else {
            round_quotient(n, 1)
        }
    }

    /// The binary64 quotient.
    pub fn divide(self, by: Binary64) -> (r: Binary64)
        requires
            self.wf(),
            by.wf(),
            by.mantissa > 0,
            -300 <= self.exponent <= 300,
            -300 <= by.exponent <= 300,
        ensures
            r.parts() == quotient(self.parts(), by.parts()),
            r.wf(),
            self.mantissa > 0 ==> r.mantissa > 0,
            -110 + self.exponent - by.exponent <= r.exponent || self.mantissa == 0,
            r.exponent <= 12 + self.exponent - by.exponent || self.mantissa == 0,
    {
        if self.mantissa == 0 {
            return Binary64 { mantissa: 0, exponent: 0 };
        }
        let q = round_quotient(self.mantissa, by.mantissa);
        Binary64 { mantissa: q.mantissa, exponent: q.exponent + self.exponent - by.exponent }
    }

    /// The nearest integer, halves rounded up, as far as 64 bits reach.
    pub fn round_to_u64(self) -> (v: u64)
        requires
            self.wf(),
        ensures
            v == to_int(self.parts()),
    {
        let mut p: u128 = 1;
        let mut i: i32 = 0;
        proof {
            lemma2_to64();
        }
        if self.mantissa == 0 {
            proof {
                if self.exponent < 0 {
                    let t = pow2((-self.exponent) as nat);
                    lemma_pow2_pos((-self.exponent) as nat);
                    assert(t / (2 * t) == 0) by (nonlinear_arith)
                        requires
                            t > 0,
                    ;
                }
                assert(0 * pow2(self.exponent as nat) == 0);
            }
            return 0;
        }
        if self.exponent >= 0 {
            while i < self.exponent && i < 64
                invariant
                    0 <= i <= 64,
                    i <= self.exponent,
                    p == pow2(i as nat),
                    p <= 0x1_0000_0000_0000_0000,
                decreases 64 - i,
            {
                proof {
                    lemma_pow2_unfold((i + 1) as nat);
                    if i < 63 {
                        vstd::arithmetic::power2::lemma_pow2_strictly_increases(
                            (i + 1) as nat,
                            64,
                        );
                    }
                    lemma2_to64();
                }
                p = p * 2;
                i += 1;
            }
            proof {
                if i < self.exponent {
                    vstd::arithmetic::power2::lemma_pow2_strictly_increases(
                        64,
                        self.exponent as nat,
                    );
                }
                assert(self.mantissa * pow2(self.exponent as nat) >= self.mantissa * p)
                    by (nonlinear_arith)
                    requires
                        pow2(self.exponent as nat) >= p,
                ;
                assert(self.mantissa * p <= 0x20_0000_0000_0000 * 0x1_0000_0000_0000_0000)
                    by (nonlinear_arith)
                    requires
                        self.mantissa <= 0x20_0000_0000_0000,
                        p <= 0x1_0000_0000_0000_0000,
                ;
            }
            let v = (self.mantissa as u128) * p;
            if v > u64::MAX as u128 || i < self.exponent {
                proof {
                    if i < self.exponent {
                        assert(self.mantissa * p >= p) by (nonlinear_arith)
                            requires
                                self.mantissa >= 1,
                        ;
                    }
                }
                u64::MAX
            } else {
                v as u64
            }
        } else {
            let e: i32 = -self.exponent;
            while i < e && i < 64
                invariant
                    0 <= i <= 64,
                    i <= e,
                    p == pow2(i as nat),
                    1 <= p <= 0x1_0000_0000_0000_0000,
                decreases 64 - i,
            {
                proof {
                    lemma_pow2_unfold((i + 1) as nat);
                    if i < 63 {
                        vstd::arithmetic::power2::lemma_pow2_strictly_increases(
                            (i + 1) as nat,
                            64,
                        );
                    }
                    lemma2_to64();
                }
                p = p * 2;
                i += 1;
            }
            if i < e {
                proof {
                    vstd::arithmetic::power2::lemma_pow2_strictly_increases(64, e as nat);
                    let t = pow2(e as nat) as int;
                    assert((2 * self.mantissa + t) / (2 * t) == 0) by (nonlinear_arith)
                        requires
                            2 * self.mantissa < t,
                    ;
                }
                return 0;
            }
            let v = (2 * (self.mantissa as u128) + p) / (2 * p);
            proof {
                let m2 = 2 * self.mantissa + p;
                assert(m2 / (2 * p as int) <= self.mantissa + 1) by (nonlinear_arith)
                    requires
                        p >= 1,
                        m2 == 2 * self.mantissa + p,
                ;
            }
            v as u64
        }
    }
}

/// `a / b` rounded to binary64, then to an integer.
pub open spec fn rounded_ratio(a: nat, b: nat) -> u64 {
    to_int(quotient(of_int(a), of_int(b)))
}

/// `a / b`, computed in binary64 and rounded to an integer.
pub fn round_ratio(a: u64, b: u64) -> (v: u64)
    requires
        b > 0,
    ensures
        v == rounded_ratio(a as nat, b as nat),
{
    Binary64::from_u64(a).divide(Binary64::from_u64(b)).round_to_u64()
}

/// The rate in bits per second of `bytes` in `elapsed_ms`, computed in binary64 and rounded to
/// an integer. No time at all makes the rate of any bytes unbounded, and that of none zero.
pub open spec fn rate_of(bytes: u64, elapsed_ms: u64) -> u64 {
    if elapsed_ms == 0 {
        if bytes == 0 {
            0
        } else {
            u64::MAX
        }
    } else {
        let b = of_int(bytes as nat);
        let seconds = quotient(of_int(elapsed_ms as nat), of_int(1000));
        to_int(quotient((b.0, b.1 + 3), seconds))
    }
}

/// The rate in bits per second of `bytes` in `elapsed_ms`.
pub fn bits_per_second(bytes: u64, elapsed_ms: u64) -> (bps: u64)
    ensures
        bps == rate_of(bytes, elapsed_ms),
{
    if elapsed_ms == 0 {
        return if bytes == 0 {
            0
        } else {
            u64::MAX
        };
    }
    let b = Binary64::from_u64(bytes);
    let bits = Binary64 { mantissa: b.mantissa, exponent: b.exponent + 3 };
    let seconds = Binary64::from_u64(elapsed_ms).divide(Binary64::from_u64(1000));
    bits.divide(seconds).round_to_u64()
}

proof fn lemma_doublings(num: nat, den: nat)
    requires
        num > 0,
        den > 0,
        num < 0x20_0000_0000_0000 * den,
    ensures
        0x10_0000_0000_0000 * den <= num * pow2(doublings(num, den)) < 0x20_0000_0000_0000 * den,
    decreases 0x20_0000_0000_0000 * den - num,
{
    if num >= 0x10_0000_0000_0000 * den {
        lemma2_to64();
        assert(num * pow2(0) == num);
    } else {
        lemma_doublings(2 * num, den);
        let k = doublings(2 * num, den);
        lemma_pow2_unfold(k + 1);
        assert(num * pow2(k + 1) == 2 * num * pow2(k)) by (nonlinear_arith)
            requires
                pow2(k + 1) == 2 * pow2(k),
        ;
    }
}

proof fn lemma_of_small_int(n: nat)
    requires
        0 < n < 0x20_0000_0000_0000,
    ensures
        of_int(n) == (n * pow2(doublings(n, 1)), -(doublings(n, 1) as int)),
        0x10_0000_0000_0000 <= n * pow2(doublings(n, 1)) < 0x20_0000_0000_0000,
{
    lemma_doublings(n, 1);
    let m = n * pow2(doublings(n, 1));
    assert(m / 1 == m && m % 1 == 0);
}

/// The integer of ordinary rounding, halves up, of a quotient that lies near a binary64 number.
proof fn lemma_rounds_the_same(x: nat, y: nat, m: nat, p: nat, a: nat, b: nat)
    requires
        y > 0,
        b > 0,
        p >= 2,
        p % 2 == 0,
        p > b,
        m == nearest_even(x, y),
        x * b == a * p * y,
    ensures
        (2 * m + p) / (2 * p) == (2 * a + b) / (2 * b),
{
    let n = (2 * a + b) / (2 * b);
    let h = p / 2;
    assert(2 * b * n <= 2 * a + b < 2 * b * (n + 1)) by (nonlinear_arith)
        requires
            n == (2 * a + b) / (2 * b),
            b > 0,
    ;
    // x / y lies from (2 n - 1) h to below (2 n + 1) h, by more than a half.
    assert((2 * n - 1) * h * y <= x) by (nonlinear_arith)
        requires
            2 * b * n <= 2 * a + b,
            x * b == a * p * y,
            p == 2 * h,
            b > 0,
            y > 0,
            h >= 1,
    {
        assert((2 * n - 1) * b <= 2 * a);
        assert((2 * n - 1) * b * (h * y) <= 2 * a * (h * y));
        assert(2 * a * (h * y) == x * b);
        assert((2 * n - 1) * h * y * b == (2 * n - 1) * b * (h * y));
    }
    assert(2 * x + y < 2 * ((2 * n + 1) * h * y)) by (nonlinear_arith)
        requires
            2 * a + b < 2 * b * (n + 1),
            x * b == a * p * y,
            p == 2 * h,
            p > b,
            b > 0,
            y > 0,
            h >= 1,
    {
        assert(2 * a + 1 <= (2 * n + 1) * b);
        assert((2 * a + 1) * (h * y) <= (2 * n + 1) * b * (h * y));
        assert(2 * a * (h * y) == x * b);
        assert((2 * n + 1) * h * y * b == (2 * n + 1) * b * (h * y));
        assert(2 * h * y > b * y);
        assert((2 * x + y) * b < 2 * ((2 * n + 1) * h * y) * b);
    }
    let low = (2 * n - 1) * h;
    let high = (2 * n + 1) * h;
    let q = x / y;
    let r = x % y;
    lemma_fundamental_div_mod(x as int, y as int);
    assert(low <= q) by (nonlinear_arith)
        requires
            low * y <= x,
            x == y * q + r,
            r < y,
            y > 0,
    ;
    assert(m < high) by (nonlinear_arith)
        requires
            2 * x + y < 2 * (high * y),
            x == y * q + r,
            0 <= r < y,
            y > 0,
            m == q || (m == q + 1 && 2 * r >= y),
    ;
    assert(low <= m);
    assert((2 * m + p) / (2 * p) == n) by (nonlinear_arith)
        requires
            low == (2 * n - 1) * h,
            high == (2 * n + 1) * h,
            low <= m < high,
            p == 2 * h,
            h >= 1,
    {
        assert(2 * p * n <= 2 * m + p < 2 * p * (n + 1));
    }
}

/// The quotient of two numbers that 53 bits hold is `x / y` rounded, over `2^e`, where
/// `x / y` is exactly `a / b` times `2^e` and has 53 bits before the point.
proof fn lemma_quotient_scaled(a: nat, b: nat) -> (r: (nat, nat, nat))
    requires
        0 < a < 0x20_0000_0000_0000,
        0 < b < 0x20_0000_0000_0000,
    ensures
        quotient(of_int(a), of_int(b)) == (nearest_even(r.0, r.1), -(r.2 as int)),
        r.1 > 0,
        r.0 * b == a * pow2(r.2) * r.1,
        0x10_0000_0000_0000 * b <= a * pow2(r.2) < 0x20_0000_0000_0000 * b,
{
    lemma_of_small_int(a);
    lemma_of_small_int(b);
    let ka = doublings(a, 1);
    let kb = doublings(b, 1);
    let x0 = a * pow2(ka);
    let y = b * pow2(kb);
    lemma_doublings(x0, y);
    let k = doublings(x0, y);
    let x = x0 * pow2(k);
    assert(quotient(of_int(a), of_int(b)) == (nearest_even(x, y), -(k as int) - ka + kb));
    lemma_pow2_pos(kb);
    lemma_pow2_adds(ka, k);
    assert(x == a * pow2(ka + k)) by (nonlinear_arith)
        requires
            x == a * pow2(ka) * pow2(k),
            pow2(ka + k) == pow2(ka) * pow2(k),
    ;
    // x / y is at least 2^52, and a below 2^53, so the point stands within or behind the mantissa.
    assert(2 * pow2(ka + k) > pow2(kb)) by (nonlinear_arith)
        requires
            a * pow2(ka + k) >= 0x10_0000_0000_0000 * (b * pow2(kb)),
            0 < a < 0x20_0000_0000_0000,
            b >= 1,
            pow2(kb) > 0,
    {
        assert(b * pow2(kb) >= pow2(kb));
        assert(0x20_0000_0000_0000 * pow2(ka + k) > 0x10_0000_0000_0000 * pow2(kb));
    }
    lemma_pow2_unfold(ka + k + 1);
    if ka + k + 1 < kb {
        lemma_pow2_strictly_increases(ka + k + 1, kb);
    }
    let e = (ka + k - kb) as nat;
    lemma_pow2_adds(e, kb);
    assert(x * b == a * pow2(e) * y && a * pow2(e) >= 0x10_0000_0000_0000 * b)
        by (nonlinear_arith)
        requires
            x == a * pow2(ka + k),
            x >= 0x10_0000_0000_0000 * y,
            pow2(ka + k) == pow2(e) * pow2(kb),
            y == b * pow2(kb),
            pow2(kb) > 0,
    {
        assert(x == a * pow2(e) * pow2(kb));
        assert(a * pow2(e) * pow2(kb) >= 0x10_0000_0000_0000 * b * pow2(kb));
    }
    assert(a * pow2(e) < 0x20_0000_0000_0000 * b) by (nonlinear_arith)
        requires
            x * b == a * pow2(e) * y,
            x < 0x20_0000_0000_0000 * y,
            y > 0,
            b > 0,
    ;
    (x, y, e)
}

/// The quotient of numbers that are not too large for it is rounded as in ordinary arithmetic,
/// halves up.
pub proof fn law_ratio_rounds_half_up(a: nat, b: nat)
    requires
        a < 0x10_0000_0000_0000,
        0 < b < 0x20_0000_0000_0000,
    ensures
        rounded_ratio(a, b) == (2 * a + b) / (2 * b),
{
    if a == 0 {
        assert(b / (2 * b) == 0) by (nonlinear_arith)
            requires
                b > 0,
        ;
        lemma2_to64();
        assert(to_int((0, 0)) == 0);
    } else {
        let (x, y, e) = lemma_quotient_scaled(a, b);
        let p = pow2(e);
        assert(p > b) by (nonlinear_arith)
            requires
                a * p >= 0x10_0000_0000_0000 * b,
                0 < a < 0x10_0000_0000_0000,
                b > 0,
        ;
        lemma2_to64();
        lemma_pow2_unfold(e);
        lemma_rounds_the_same(x, y, nearest_even(x, y), p, a, b);
        assert((2 * a + b) / (2 * b) <= a + 1) by (nonlinear_arith)
            requires
                b > 0,
        ;
    }
}

/// The rounded quotient of two numbers that 53 bits hold leaves no range of integers that the
/// exact quotient lies in.
pub proof fn law_ratio_within(a: nat, b: nat, low: u64, high: u64)
    requires
        a < 0x20_0000_0000_0000,
        0 < b < 0x20_0000_0000_0000,
        low * b <= a <= high * b,
    ensures
        low <= rounded_ratio(a, b) <= high,
{
    lemma2_to64();
    if a == 0 {
        assert(low == 0) by (nonlinear_arith)
            requires
                low * b <= 0,
                b > 0,
                low >= 0,
        ;
        assert(to_int((0, 0)) == 0);
    } else {
        let (x, y, e) = lemma_quotient_scaled(a, b);
        let p = pow2(e);
        let m = nearest_even(x, y);
        lemma_pow2_pos(e);
        assert(low * p * y <= x <= high * p * y) by (nonlinear_arith)
            requires
                low * b <= a <= high * b,
                x * b == a * p * y,
                b > 0,
                p > 0,
                y > 0,
        {
            assert(low * b * (p * y) <= a * (p * y) <= high * b * (p * y));
            assert(a * (p * y) == x * b);
            assert(low * b * (p * y) == low * p * y * b);
            assert(high * b * (p * y) == high * p * y * b);
        }
        lemma_nearest_within(x, y, low as nat * p, high as nat * p);
        assert(low <= (2 * m + p) / (2 * p) <= high) by (nonlinear_arith)
            requires
                low * p <= m <= high * p,
                p > 0,
        {
            assert(low * (2 * p) <= 2 * m + p);
            assert(2 * m + p < (high + 1) * (2 * p));
        }
        if e == 0 {
            assert(low * p == low && high * p == high && m * p == m) by (nonlinear_arith)
                requires
                    p == 1,
            ;
        }
    }
}

proof fn lemma_nearest_within(x: nat, y: nat, low: nat, high: nat)
    requires
        y > 0,
        low * y <= x <= high * y,
    ensures
        low <= nearest_even(x, y) <= high,
{
    let q = x / y;
    let r = x % y;
    lemma_fundamental_div_mod(x as int, y as int);
    assert(low <= q && (q < high || (q == high && r == 0))) by (nonlinear_arith)
        requires
            low * y <= x <= high * y,
            x == y * q + r,
            0 <= r < y,
    ;
}

proof fn lemma_one_scale(n: nat, j: nat, k: nat)
    requires
        n > 0,
        0x10_0000_0000_0000 <= n * pow2(j) < 0x20_0000_0000_0000,
        0x10_0000_0000_0000 <= n * pow2(k) < 0x20_0000_0000_0000,
    ensures
        j == k,
{
    if j < k {
        lemma_one_scale_below(n, j, k);
    } else if k < j {
        lemma_one_scale_below(n, k, j);
    }
}

proof fn lemma_one_scale_below(n: nat, j: nat, k: nat)
    requires
        n > 0,
        j < k,
        0x10_0000_0000_0000 <= n * pow2(j),
    ensures
        n * pow2(k) >= 0x20_0000_0000_0000,
{
    lemma_pow2_unfold(j + 1);
    if j + 1 < k {
        lemma_pow2_strictly_increases(j + 1, k);
    }
    assert(n * pow2(k) >= 2 * (n * pow2(j))) by (nonlinear_arith)
        requires
            pow2(k) >= 2 * pow2(j),
            n > 0,
    ;
}

proof fn lemma_eightfold(n: nat)
    requires
        n < 0x2_0000_0000_0000,
    ensures
        n > 0 ==> of_int(8 * n) == (of_int(n).0, of_int(n).1 + 3),
{
    if n > 0 {
        lemma_of_small_int(n);
        lemma_of_small_int(8 * n);
        let k = doublings(n, 1);
        let j = doublings(8 * n, 1);
        lemma2_to64();
        lemma_pow2_adds(j, 3);
        assert(8 * n * pow2(j) == n * pow2(j + 3)) by (nonlinear_arith)
            requires
                pow2(j + 3) == pow2(j) * 8,
        ;
        lemma_one_scale(n, j + 3, k);
    }
}

proof fn lemma_whole_seconds(seconds: nat)
    requires
        0 < seconds,
        1000 * seconds < 0x20_0000_0000_0000,
    ensures
        quotient(of_int(1000 * seconds), of_int(1000)) == of_int(seconds),
{
    let (x, y, e) = lemma_quotient_scaled(1000 * seconds, 1000);
    lemma_of_small_int(seconds);
    let m = seconds * pow2(e);
    assert(x == m * y) by (nonlinear_arith)
        requires
            x * 1000 == 1000 * seconds * pow2(e) * y,
            m == seconds * pow2(e),
    ;
    assert(x / y == m && x % y == 0) by (nonlinear_arith)
        requires
            x == m * y,
            y > 0,
    ;
    assert(0x10_0000_0000_0000 <= m < 0x20_0000_0000_0000) by (nonlinear_arith)
        requires
            0x10_0000_0000_0000 * 1000 <= 1000 * seconds * pow2(e) < 0x20_0000_0000_0000 * 1000,
            m == seconds * pow2(e),
    ;
    lemma_one_scale(seconds, e, doublings(seconds, 1));
}

/// Over whole seconds the rate is eight times the bytes over the seconds, rounded as in ordinary
/// arithmetic, halves up.
pub proof fn law_rate_by_seconds(bytes: u64, seconds: u64, elapsed_ms: u64)
    requires
        bytes < 0x2_0000_0000_0000,
        seconds > 0,
        elapsed_ms == 1000 * seconds,
        elapsed_ms < 0x20_0000_0000_0000,
    ensures
        rate_of(bytes, elapsed_ms) == (16 * bytes + seconds) / (2 * seconds),
{
    lemma_whole_seconds(seconds as nat);
    lemma_eightfold(bytes as nat);
    law_ratio_rounds_half_up(8 * bytes as nat, seconds as nat);
    assert(2 * (8 * bytes) + seconds == 16 * bytes + seconds);
    if bytes == 0 {
        lemma2_to64();
        assert(of_int(0) == (0nat, 0int));
    }
}

/// No bytes have no rate, however short the time, and over no time any bytes have the highest.
pub proof fn law_rate_at_the_edges(bytes: u64, elapsed_ms: u64)
    ensures
        rate_of(0, elapsed_ms) == 0,
        bytes > 0 ==> rate_of(bytes, 0) == u64::MAX,
{
    lemma2_to64();
    assert(of_int(0) == (0nat, 0int));
    assert(to_int((0, 0)) == 0);
}


proof fn lemma_nearest_is_near(num: nat, den: nat)
    requires
        den > 0,
    ensures
        2 * (nearest_even(num, den) * den - num) <= den,
        2 * (num - nearest_even(num, den) * den) <= den,
{
    let q = num / den;
    let r = num % den;
    lemma_fundamental_div_mod(num as int, den as int);
    assert(q * den == den * q && (q + 1) * den == den * q + den) by (nonlinear_arith);
}

/// The seconds of `elapsed_ms`, as a mantissa of 53 bits over a power of two.
proof fn lemma_seconds_are_near(elapsed_ms: nat) -> (r: (nat, nat))
    requires
        0 < elapsed_ms < 0x20_0000_0000_0000,
    ensures
        quotient(of_int(elapsed_ms), of_int(1000)) == (r.0, -(r.1 as int)),
        r.0 >= 0x10_0000_0000_0000,
        2 * (1000 * r.0 - elapsed_ms * pow2(r.1)) <= 1000,
        2 * (elapsed_ms * pow2(r.1) - 1000 * r.0) <= 1000,
{
    let (x, y, e) = lemma_quotient_scaled(elapsed_ms, 1000);
    let m = nearest_even(x, y);
    let z = elapsed_ms * pow2(e);
    lemma_nearest_is_near(x, y);
    assert(0x10_0000_0000_0000 * y <= x) by (nonlinear_arith)
        requires
            x * 1000 == z * y,
            0x10_0000_0000_0000 * 1000 <= z,
            y > 0,
    ;
    assert(x <= x * y) by (nonlinear_arith)
        requires
            y > 0,
    ;
    lemma_nearest_within(x, y, 0x10_0000_0000_0000, x);
    assert(2 * (1000 * m - z) <= 1000) by (nonlinear_arith)
        requires
            2 * (m * y - x) <= y,
            x * 1000 == z * y,
            y > 0,
    {
        assert(2 * (1000 * m - z) * y <= 1000 * y);
    }
    assert(2 * (z - 1000 * m) <= 1000) by (nonlinear_arith)
        requires
            2 * (x - m * y) <= y,
            x * 1000 == z * y,
            y > 0,
    {
        assert(2 * (z - 1000 * m) * y <= 1000 * y);
    }
    (m, e)
}

/// The rate as a mantissa over a power of two, where the mantissa is that of the quotient of bits
/// and seconds.
proof fn lemma_rate_is_near(bytes: nat, m: nat, e: nat) -> (r: (nat, int))
    requires
        0 < bytes < 0x20_0000_0000_0000,
        m >= 0x10_0000_0000_0000,
    ensures
        ({
            let b = of_int(bytes);
            quotient((b.0, b.1 + 3), (m, -(e as int))) == (r.0, -r.1)
        }),
        r.0 >= 0x10_0000_0000_0000,
        r.1 >= 0 ==> 2 * (r.0 * m - 8 * bytes * (pow2(e) * pow2(r.1 as nat))) <= m && 2 * (8 * bytes * (
        pow2(e) * pow2(r.1 as nat)) - r.0 * m) <= m,
        r.1 < 0 ==> r.0 * m <= 16 * bytes * pow2(e),
{
    lemma_of_small_int(bytes);
    let kb = doublings(bytes, 1);
    let b0 = bytes * pow2(kb);
    assert(b0 < 0x20_0000_0000_0000 * m) by (nonlinear_arith)
        requires
            b0 < 0x20_0000_0000_0000,
            m >= 1,
    ;
    lemma_doublings(b0, m);
    let k = doublings(b0, m);
    let num = b0 * pow2(k);
    let r = nearest_even(num, m);
    lemma_nearest_is_near(num, m);
    assert(num <= num * m) by (nonlinear_arith)
        requires
            m >= 1,
    ;
    lemma_nearest_within(num, m, 0x10_0000_0000_0000, num);
    let f = kb + k - 3 - e;
    lemma_pow2_adds(kb, k);
    assert(num == bytes * pow2(kb + k)) by (nonlinear_arith)
        requires
            num == bytes * pow2(kb) * pow2(k),
            pow2(kb + k) == pow2(kb) * pow2(k),
    ;
    lemma2_to64();
    if f >= 0 {
        lemma_pow2_adds(3, e);
        lemma_pow2_adds(3 + e, f as nat);
        assert(3 + e + f == kb + k);
        assert(num == 8 * bytes * (pow2(e) * pow2(f as nat))) by (nonlinear_arith)
            requires
                num == bytes * pow2(kb + k),
                pow2(kb + k) == pow2(3 + e) * pow2(f as nat),
                pow2(3 + e) == 8 * pow2(e),
        ;
    } else {
        lemma_pow2_adds(3, e);
        if kb + k < 3 + e {
            lemma_pow2_strictly_increases(kb + k, 3 + e);
        }
        assert(num <= 8 * bytes * pow2(e)) by (nonlinear_arith)
            requires
                num == bytes * pow2(kb + k),
                pow2(kb + k) <= pow2(3 + e),
                pow2(3 + e) == 8 * pow2(e),
        ;
        assert(r * m <= 2 * num) by (nonlinear_arith)
            requires
                2 * (r * m - num) <= m,
                0x10_0000_0000_0000 * m <= num,
        ;
        assert(2 * (8 * bytes * pow2(e)) == 16 * bytes * pow2(e)) by (nonlinear_arith);
    }
    (r, f)
}

/// The rate in bits per second leaves no range of integers that eight times the bytes over the
/// seconds lies in, for any time in milliseconds: `8 * bytes * 1000 / elapsed_ms` is rounded to an
/// integer next to it.
pub proof fn law_rate_within(bytes: u64, elapsed_ms: u64, low: u64, high: u64)
    requires
        bytes < 0x20_0000_0000_0000,
        0 < elapsed_ms < 0x20_0000_0000_0000,
        low * elapsed_ms <= 8000 * bytes <= high * elapsed_ms,
        high <= 0x4_0000_0000_0000,
    ensures
        low <= rate_of(bytes, elapsed_ms) <= high,
{
    if bytes == 0 {
        law_rate_at_the_edges(bytes, elapsed_ms);
        assert(low == 0) by (nonlinear_arith)
            requires
                low * elapsed_ms <= 0,
                elapsed_ms > 0,
                low >= 0,
        ;
    } else {
        let (m, e) = lemma_seconds_are_near(elapsed_ms as nat);
        let (r, f) = lemma_rate_is_near(bytes as nat, m, e);
        let z = elapsed_ms as nat * pow2(e);
        let big = pow2(e);
        lemma_pow2_pos(e);
        assert(8000 * bytes * big <= high * z && low * z <= 8000 * bytes * big) by (nonlinear_arith)
            requires
                low * elapsed_ms <= 8000 * bytes <= high * elapsed_ms,
                z == elapsed_ms * big,
                big > 0,
        {
            assert(low * elapsed_ms * big <= 8000 * bytes * big <= high * elapsed_ms * big);
            assert(high * elapsed_ms * big == high * z && low * elapsed_ms * big == low * z);
        }
        assert(low <= high) by (nonlinear_arith)
            requires
                low * elapsed_ms <= high * elapsed_ms,
                elapsed_ms > 0,
        ;
        lemma_rate_has_fraction(bytes as nat, m, r, big, z, high as nat, f);
        lemma_rate_rounds(bytes as nat, m, r, big, pow2(f as nat), z, low as nat, high as nat, f);
    }
}

proof fn lemma_rate_has_fraction(
    bytes: nat,
    m: nat,
    r: nat,
    big: nat,
    z: nat,
    high: nat,
    f: int,
)
    requires
        m >= 0x10_0000_0000_0000,
        r >= 0x10_0000_0000_0000,
        2 * (z - 1000 * m) <= 1000,
        8000 * bytes * big <= high * z,
        high <= 0x4_0000_0000_0000,
        f < 0 ==> r * m <= 16 * bytes * big,
        f == 0 ==> 2 * (r * m - 8 * bytes * (big * pow2(0))) <= m,
    ensures
        f > 0,
{
    lemma2_to64();
    let bits = 8 * bytes * big;
    if f == 0 {
        assert(8 * bytes * (big * 1) == bits) by (nonlinear_arith)
            requires
                bits == 8 * bytes * big,
        ;
        assert(r * m <= 2 * bits) by (nonlinear_arith)
            requires
                2 * (r * m - bits) <= m,
                r >= 0x10_0000_0000_0000,
                m > 0,
        {
            assert(r * m >= 0x10_0000_0000_0000 * m);
        }
    }
    assert(2 * bits == 16 * bytes * big) by (nonlinear_arith)
        requires
            bits == 8 * bytes * big,
    ;
    assert(1000 * bits == 8000 * bytes * big) by (nonlinear_arith)
        requires
            bits == 8 * bytes * big,
    ;
    assert(f > 0) by (nonlinear_arith)
        requires
            f <= 0 ==> r * m <= 2 * bits,
            1000 * bits <= high * z,
            high <= 0x4_0000_0000_0000,
            2 * (z - 1000 * m) <= 1000,
            m >= 0x10_0000_0000_0000,
            r >= 0x10_0000_0000_0000,
    {
        assert(r * m >= 0x10_0000_0000_0000 * m);
        assert(high * z <= 0x4_0000_0000_0000 * z);
        assert(z <= 1000 * m + 500);
    }
}

proof fn lemma_rate_rounds(
    bytes: nat,
    m: nat,
    r: nat,
    big: nat,
    p: nat,
    z: nat,
    low: nat,
    high: nat,
    f: int,
)
    requires
        m >= 0x10_0000_0000_0000,
        r >= 0x10_0000_0000_0000,
        2 * (z - 1000 * m) <= 1000,
        2 * (1000 * m - z) <= 1000,
        low * z <= 8000 * bytes * big <= high * z,
        low <= high <= 0x4_0000_0000_0000,
        f > 0,
        p == pow2(f as nat),
        2 * (r * m - 8 * bytes * (big * p)) <= m,
        2 * (8 * bytes * (big * p) - r * m) <= m,
    ensures
        low <= to_int((r, -f)) <= high,
{
    lemma_pow2_pos((f - 1) as nat);
    lemma_pow2_unfold(f as nat);
    let bits = 8 * bytes * (big * p);
    assert(1000 * bits == 8000 * bytes * big * p) by (nonlinear_arith)
        requires
            bits == 8 * bytes * (big * p),
    ;
    assert(low * z * p <= 1000 * bits <= high * z * p) by (nonlinear_arith)
        requires
            low * z <= 8000 * bytes * big <= high * z,
            1000 * bits == 8000 * bytes * big * p,
            p > 0,
    ;
    lemma_rate_low(m, r, p, z, low, bits);
    lemma_rate_high(m, r, p, z, high, bits);
    let v = (2 * r + p) / (2 * p);
    assert(low <= v <= high) by (nonlinear_arith)
        requires
            2 * p * low <= 2 * r + p,
            2 * r + p < 2 * p * (high + 1),
            v == (2 * r + p) / (2 * p),
            p > 0,
    ;
}

proof fn lemma_rate_low(m: nat, r: nat, p: nat, z: nat, low: nat, bits: nat)
    requires
        m >= 0x10_0000_0000_0000,
        p >= 2,
        2 * (1000 * m - z) <= 1000,
        low <= 0x4_0000_0000_0000,
        low * z * p <= 1000 * bits,
        2 * (bits - r * m) <= m,
    ensures
        2 * p * low <= 2 * r + p,
{
    let t = low * p;
    assert(low * z * p == t * z) by (nonlinear_arith)
        requires
            t == low * p,
    ;
    assert(t * z >= t * (1000 * m) - 500 * t) by (nonlinear_arith)
        requires
            z >= 1000 * m - 500,
            t >= 0,
    ;
    // 1000 r m >= 1000 t m - 500 t - 500 m, and t is at most a quarter of p m.
    assert(4 * t <= p * m) by (nonlinear_arith)
        requires
            t == low * p,
            4 * low <= m,
            p > 0,
    ;
    assert(2 * r * m >= 2 * t * m - t - m) by (nonlinear_arith)
        requires
            1000 * bits >= t * (1000 * m) - 500 * t,
            2 * (bits - r * m) <= m,
    ;
    assert(2 * t <= 2 * r + p) by (nonlinear_arith)
        requires
            2 * r * m >= 2 * t * m - t - m,
            4 * t <= p * m,
            p >= 2,
            m > 0,
    {
        if 2 * t > 2 * r + p {
            assert(2 * t * m >= (2 * r + p + 1) * m);
            assert((2 * r + p + 1) * m == 2 * r * m + p * m + m);
            assert(p * m >= 2 * m);
        }
    }
    assert(2 * p * low == 2 * t) by (nonlinear_arith)
        requires
            t == low * p,
    ;
}

proof fn lemma_rate_high(m: nat, r: nat, p: nat, z: nat, high: nat, bits: nat)
    requires
        m >= 0x10_0000_0000_0000,
        p >= 2,
        2 * (z - 1000 * m) <= 1000,
        high <= 0x4_0000_0000_0000,
        1000 * bits <= high * z * p,
        2 * (r * m - bits) <= m,
    ensures
        2 * r + p < 2 * p * (high + 1),
{
    let t = high * p;
    assert(high * z * p == t * z) by (nonlinear_arith)
        requires
            t == high * p,
    ;
    assert(t * z <= t * (1000 * m) + 500 * t) by (nonlinear_arith)
        requires
            z <= 1000 * m + 500,
            t >= 0,
    ;
    assert(4 * t <= p * m) by (nonlinear_arith)
        requires
            t == high * p,
            4 * high <= m,
            p > 0,
    ;
    assert(2 * r * m <= 2 * t * m + t + m) by (nonlinear_arith)
        requires
            1000 * bits <= t * (1000 * m) + 500 * t,
            2 * (r * m - bits) <= m,
    ;
    assert(2 * r < 2 * t + p) by (nonlinear_arith)
        requires
            2 * r * m <= 2 * t * m + t + m,
            4 * t <= p * m,
            p >= 2,
            m > 0,
    {
        if 2 * r >= 2 * t + p {
            assert(2 * r * m >= (2 * t + p) * m);
            assert((2 * t + p) * m == 2 * t * m + p * m);
            assert(p * m >= 2 * m);
        }
    }
    assert(2 * p * (high + 1) == 2 * t + 2 * p) by (nonlinear_arith)
        requires
            t == high * p,
    ;
}


} // verus!
