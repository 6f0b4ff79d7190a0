//! Exact arithmetic on binary floating-point values.
//!
//! Probabilities and hyperparameters reach the library as double-precision
//! numbers. Here such a number is what it is exactly: an integer mantissa times a
//! power of two. The few operations that training needs round to 53 significant
//! bits, half to even, and a probability is finally used as a [`Chance`]: a bound
//! for the 53-bit fraction that a generator draws.
use vstd::arithmetic::power2::{
    lemma_pow2_adds, lemma_pow2_pos, lemma_pow2_strictly_increases, lemma2_to64, lemma2_to64_rest,
    pow2,
};
use vstd::prelude::*;

verus! {

/// 2^53, the number of values that a drawn fraction can take.
pub const FRACTIONS: u64 = 0x20_0000_0000_0000;

/// 2^52, the smallest mantissa of a normal double-precision number.
pub const HALF_FRACTIONS: u64 = 0x10_0000_0000_0000;

/// The bit pattern of infinity; every pattern below it is a finite double.
pub const INFINITY_BITS: u64 = 0x7FF0_0000_0000_0000;

/// The bit pattern of minus zero.
pub const SIGN_BIT: u64 = 0x8000_0000_0000_0000;

/// A nonnegative number `mant * 2^exp`. What is infinite is held as `2^1024`, which no double
/// reaches.
#[derive(Clone, Copy, Debug, PartialEq, Eq, Structural)]
pub struct Dyadic {
    pub mant: u64,
    pub exp: i32,
}

/// A probability as a draw sees it: the fraction `floor / 2^53`, and whether that
/// is the probability itself or only the largest such fraction below it.
#[derive(Clone, Copy, Debug, PartialEq, Eq, Structural)]
pub struct Chance {
    pub floor: u64,
    pub exact: bool,
}

pub proof fn lemma_pow2_consts()
    ensures
        pow2(0) == 1,
        pow2(1) == 2,
        pow2(11) == 2048,
        pow2(52) == HALF_FRACTIONS,
        pow2(53) == FRACTIONS,
        pow2(63) == 0x8000_0000_0000_0000,
        pow2(64) == 0x1_0000_0000_0000_0000,
{
    lemma2_to64();
    lemma2_to64_rest();
}

/// The value of the double with the bit pattern `bits`.
pub open spec fn f64_value(bits: u64) -> Dyadic {
    let field = bits / HALF_FRACTIONS;
    let frac = bits % HALF_FRACTIONS;
    if field == 0 {
        Dyadic { mant: frac, exp: -1074i32 }
    } else {
        Dyadic { mant: (HALF_FRACTIONS + frac) as u64, exp: (field - 1075) as i32 }
    }
}

/// `n / d` rounded to an integer, half to even.
pub open spec fn round_half_even(n: int, d: int) -> int {
    let q = n / d;
    let r = n % d;
    if 2 * r > d || (2 * r == d && q % 2 == 1) {
        q + 1
    } else {
        q
    }
}

/// Scaling `a / b` by `2^k` leaves a 53-bit integer part.
pub open spec fn is_ratio_shift(a: int, b: int, k: nat) -> bool {
    pow2(52) * b <= a * pow2(k) < pow2(53) * b
}

/// The power of two by which `a / b` is scaled before it is rounded.
pub open spec fn ratio_shift(a: int, b: int) -> nat {
    choose|k: nat| is_ratio_shift(a, b, k)
}

/// The quotient `a / b` rounded to 53 significant bits, for `0 <= a <= b`, `0 < b`.
pub open spec fn ratio_of(a: int, b: int) -> (int, int) {
    if a == 0 {
        (0int, 0int)
    } else {
        let k = ratio_shift(a, b);
        (round_half_even(a * pow2(k), b), -k)
    }
}

/// Dropping the low `k` bits of `n` leaves a 53-bit integer.
pub open spec fn is_trim_shift(n: int, k: nat) -> bool {
    pow2(52) * pow2(k) <= n < pow2(53) * pow2(k)
}

/// The number of bits of `n` beyond its 53 most significant ones.
pub open spec fn trim_shift(n: int) -> nat {
    choose|k: nat| is_trim_shift(n, k)
}

/// `n * 2^e` rounded to 53 significant bits, for `n >= 0`.
pub open spec fn trim_of(n: int, e: int) -> (int, int) {
    if n < pow2(53) {
        (n, e)
    } else {
        let k = trim_shift(n);
        (round_half_even(n, pow2(k) as int), e + k)
    }
}

/// The largest integer that is at most `m * 2^e * 2^53`, and at most `2^53`.
pub open spec fn scaled_floor(m: int, e: int) -> int {
    let v = if e + 53 >= 0 {
        m * pow2((e + 53) as nat)
    } else {
        m / (pow2((-e - 53) as nat) as int)
    };
    if v <= FRACTIONS {
        v
    } else {
        FRACTIONS as int
    }
}

/// Whether `m * 2^e * 2^53` is an integer.
pub open spec fn scaled_exact(m: int, e: int) -> bool {
    e + 53 >= 0 || m % (pow2((-e - 53) as nat) as int) == 0
}

/// The next power of two is the double.
pub proof fn lemma_pow2_step(k: nat)
    ensures
        pow2(k + 1) == 2 * pow2(k),
        pow2(k) > 0,
{
    lemma_pow2_adds(k, 1);
    lemma_pow2_pos(k);
    lemma_pow2_consts();
    assert(pow2(k + 1) == pow2(k) * 2);
}

/// `a / b` has only one scale.
pub proof fn lemma_ratio_shift_unique(a: int, b: int, k1: nat, k2: nat)
    requires
        a > 0,
        b > 0,
        is_ratio_shift(a, b, k1),
        is_ratio_shift(a, b, k2),
    ensures
        k1 == k2,
{
    lemma_pow2_consts();
    if k1 < k2 {
        lemma_two_shifts(a, b, k1, k2);
    } else if k2 < k1 {
        lemma_two_shifts(a, b, k2, k1);
    }
}

proof fn lemma_two_shifts(a: int, b: int, k1: nat, k2: nat)
    requires
        a > 0,
        b > 0,
        k1 < k2,
        pow2(52) * b <= a * pow2(k1),
        pow2(52) == HALF_FRACTIONS,
        pow2(53) == FRACTIONS,
    ensures
        a * pow2(k2) >= pow2(53) * b,
{
    lemma_pow2_step(k1);
    if k1 + 1 < k2 {
        lemma_pow2_strictly_increases(k1 + 1, k2);
    }
    let p1 = pow2(k1) as int;
    let p2 = pow2(k2) as int;
    assert(p2 >= 2 * p1);
    assert(a * p2 >= 2 * (a * p1)) by (nonlinear_arith)
        requires
            p2 >= 2 * p1,
            a > 0,
    ;
}

/// `n` has only one number of excess bits.
pub proof fn lemma_trim_shift_unique(n: int, k1: nat, k2: nat)
    requires
        is_trim_shift(n, k1),
        is_trim_shift(n, k2),
    ensures
        k1 == k2,
{
    lemma_pow2_consts();
    if k1 < k2 {
        lemma_pow2_step(k1);
        if k1 + 1 < k2 {
            lemma_pow2_strictly_increases(k1 + 1, k2);
        }
    } else if k2 < k1 {
        lemma_pow2_step(k2);
        if k2 + 1 < k1 {
            lemma_pow2_strictly_increases(k2 + 1, k1);
        }
    }
}

/// `2^k` as a machine integer.
pub fn power_of_two(k: u32) -> (r: u128)
    requires
        k < 128,
    ensures
        r == pow2(k as nat),
{
    let mut r: u128 = 1;
    let mut i: u32 = 0;
    proof {
        lemma_pow2_consts();
    }
    while i < k
        invariant
            i <= k < 128,
            r == pow2(i as nat),
        decreases k - i,
    {
        proof {
            lemma_pow2_step(i as nat);
            lemma_pow2_consts();
            lemma_pow2_adds(64, 64);
            assert(pow2(128) == 0x1_0000_0000_0000_0000_0000_0000_0000_0000) by (nonlinear_arith)
                requires
                    pow2(128) == pow2(64) * pow2(64),
                    pow2(64) == 0x1_0000_0000_0000_0000,
            ;
            if i + 1 < 128 {
                lemma_pow2_strictly_increases((i + 1) as nat, 128);
            }
        }
        r = r * 2;
        i = i + 1;
    }
    r
}

/// `n / d` rounded to an integer, half to even.
fn divide_half_even(n: u128, d: u128) -> (r: u128)
    requires
        0 < d < 0x4000_0000_0000_0000_0000_0000_0000_0000,
        n < 0x4000_0000_0000_0000_0000_0000_0000_0000,
    ensures
        r == round_half_even(n as int, d as int),
{
    let q: u128 = n / d;
    let r: u128 = n % d;
    proof {
        assert(n as int / d as int <= n) by (nonlinear_arith)
            requires
                d > 0,
                n >= 0,
        ;
    }
    if 2 * r > d || (2 * r == d && q % 2 == 1) {
        q + 1
    } else {
        q
    }
}

/// `1 - m * 2^e` rounded to 53 significant bits, for `m * 2^e <= 1`, `m <= 2^53`.
/// What is subtracted below `2^-57` is rounded away.
pub open spec fn one_minus_of(m: int, e: int) -> (int, int) {
    if m == 0 || e < -110 {
        (1int, 0int)
    } else {
        trim_of(pow2((-e) as nat) - m, e)
    }
}

/// `1 / s` rounded to 53 significant bits, for `s >= 1`.
pub open spec fn recip_of(s: Dyadic) -> (int, int) {
    let q = ratio_of(1, s.mant as int);
    (q.0, q.1 - s.exp)
}

/// `(s - 1) / s`, both operations rounded to 53 significant bits, for `s > 1`.
///
/// Up to `2^53` the difference is exact. Between `2^53` and `2^54` it lies halfway
/// between two doubles, and beyond that it is rounded back to `s`. Of an infinite `s` there is no
/// such quotient, and nothing is at most that: it counts as zero.
pub open spec fn keep_of(s: Dyadic) -> (int, int) {
    if s.is_infinite() {
        (0int, 0int)
    } else if s.exp <= 0 {
        ratio_of(s.mant - pow2((-s.exp) as nat), s.mant as int)
    } else if s.exp == 1 && s.mant == HALF_FRACTIONS {
        ratio_of(FRACTIONS - 1, FRACTIONS as int)
    } else if s.exp == 1 && s.mant % 2 == 1 {
        ratio_of(s.mant - 1, s.mant as int)
    } else {
        (1int, 0int)
    }
}

/// The bound on a drawn fraction for the probability `min(u / span * w, 1)`, quotient
/// and product rounded to 53 significant bits. An infinite `w` makes it certain, whatever `u` is.
pub open spec fn weighted_bound(u: int, span: int, w: Dyadic) -> int {
    if w.is_infinite() {
        FRACTIONS as int
    } else {
        let q = ratio_of(u, span);
        let p = trim_of(q.0 * w.mant, q.1 + w.exp);
        scaled_floor(p.0, p.1)
    }
}

/// The bound on a drawn fraction for the probability `u / span`, rounded to 53
/// significant bits.
pub open spec fn plain_bound(u: int, span: int) -> int {
    let q = ratio_of(u, span);
    scaled_floor(q.0, q.1)
}

/// The chance that stands for the probability `m * 2^e`.
pub open spec fn chance_of(m: int, e: int) -> Chance {
    Chance { floor: scaled_floor(m, e) as u64, exact: scaled_exact(m, e) }
}

/// A drawn fraction is at most the probability.
pub open spec fn at_most(c: Chance, k: u64) -> bool {
    k <= c.floor
}

/// A drawn fraction is below the probability.
pub open spec fn below_chance(c: Chance, k: u64) -> bool {
    k < c.floor || (k == c.floor && !c.exact)
}

/// The probability is not zero.
pub open spec fn is_positive(c: Chance) -> bool {
    c.floor > 0 || !c.exact
}

/// Digit `i` after the binary point of a probability (certainty is `0.111...`).
pub open spec fn binary_digit(c: Chance, i: int) -> u8 {
    if c.floor >= FRACTIONS {
        1
    } else {
        ((c.floor as int / (pow2((52 - i) as nat) as int)) % 2) as u8
    }
}

/// The first `n` digits after the binary point of a probability.
pub open spec fn binary_digits(c: Chance, n: nat) -> Seq<u8> {
    Seq::new(n, |i: int| binary_digit(c, i))
}

/// `a / b` rounded to 53 significant bits.
pub fn ratio(a: u64, b: u64) -> (r: Dyadic)
    requires
        a <= b,
        0 < b,
    ensures
        (r.mant as int, r.exp as int) == ratio_of(a as int, b as int),
        r.mant <= FRACTIONS,
        -116 <= r.exp <= 0,
        a > 0 ==> is_ratio_shift(a as int, b as int, (-r.exp) as nat),
        a > 0 ==> r.mant >= HALF_FRACTIONS && r.exp <= -52,
{
    if a == 0 {
        return Dyadic { mant: 0, exp: 0 };
    }
    proof {
        lemma_pow2_consts();
    }
    let scaled: u128 = b as u128 * 0x10_0000_0000_0000u128;
    let mut n: u128 = a as u128 * 0x10_0000_0000_0000u128;
    let mut k: i32 = 52;
    while n < scaled
        invariant
            0 < a <= b,
            52 <= k <= 116,
            pow2(52) == HALF_FRACTIONS,
            scaled == b * pow2(52),
            n == a * pow2(k as nat),
            n < 2 * scaled,
        decreases 116 - k,
    {
        proof {
            lemma_pow2_step(k as nat);
            lemma_pow2_consts();
            lemma_pow2_adds(64, 52);
            let p = pow2(k as nat) as int;
            assert(p <= a * p) by (nonlinear_arith)
                requires
                    a >= 1,
                    p > 0,
            ;
            assert(b * pow2(52) < pow2(116)) by (nonlinear_arith)
                requires
                    b < pow2(64),
                    pow2(116) == pow2(64) * pow2(52),
                    pow2(52) > 0,
            ;
            if k >= 116 {
                assert(pow2(k as nat) >= pow2(116));
            }
            assert(a * pow2((k + 1) as nat) == 2 * (a * p)) by (nonlinear_arith)
                requires
                    pow2((k + 1) as nat) == 2 * p,
            ;
        }
        n = n * 2;
        k = k + 1;
    }
    proof {
        lemma_pow2_consts();
        assert(is_ratio_shift(a as int, b as int, k as nat));
        lemma_ratio_shift_unique(a as int, b as int, k as nat, ratio_shift(a as int, b as int));
        let m = a * pow2(k as nat);
        assert(m / (b as int) < pow2(53)) by (nonlinear_arith)
            requires
                m < pow2(53) * b,
                b > 0,
        ;
        lemma_ratio_full(a as int, b as int, k as nat);
    }
    let q: u128 = divide_half_even(n, b as u128);
    Dyadic { mant: q as u64, exp: -k }
}

/// `n * 2^e` rounded to 53 significant bits.
fn trim(n: u128, e: i32) -> (r: Dyadic)
    requires
        n < 0x1000_0000_0000_0000_0000_0000_0000_0000,
        -0x1000_0000 <= e <= 0x1000_0000,
    ensures
        (r.mant as int, r.exp as int) == trim_of(n as int, e as int),
        r.mant <= FRACTIONS,
        e <= r.exp <= e + 80,
        n < FRACTIONS ==> r.exp == e,
        n >= FRACTIONS ==> is_trim_shift(n as int, (r.exp - e) as nat),
{
    proof {
        lemma_pow2_consts();
    }
    if n < FRACTIONS as u128 {
        return Dyadic { mant: n as u64, exp: e };
    }
    let mut d: u128 = 1;
    let mut k: i32 = 0;
    while n >= 0x20_0000_0000_0000u128 * d
        invariant
            FRACTIONS <= n < 0x1000_0000_0000_0000_0000_0000_0000_0000,
            0 <= k <= 80,
            d == pow2(k as nat),
            pow2(52) == HALF_FRACTIONS,
            pow2(53) == FRACTIONS,
            n >= 0x10_0000_0000_0000 * d,
            d * 0x10_0000_0000_0000 < 0x1000_0000_0000_0000_0000_0000_0000_0000,
        decreases 80 - k,
    {
        proof {
            lemma_pow2_step(k as nat);
            lemma_pow2_consts();
            lemma_pow2_adds(64, 16);
            lemma2_to64();
            if k >= 80 {
                assert(pow2(80) == pow2(64) * pow2(16));
            }
        }
        d = d * 2;
        k = k + 1;
    }
    proof {
        assert(is_trim_shift(n as int, k as nat));
        lemma_trim_shift_unique(n as int, k as nat, trim_shift(n as int));
        assert((n as int) / (d as int) < (FRACTIONS as int)) by (nonlinear_arith)
            requires
                n < 0x20_0000_0000_0000 * d,
                d > 0,
        ;
    }
    let q: u128 = divide_half_even(n, d);
    Dyadic { mant: q as u64, exp: e + k }
}

impl Chance {
    /// A chance of zero.
    pub fn never() -> (r: Chance)
        ensures
            r == (Chance { floor: 0, exact: true }),
    {
        Chance { floor: 0, exact: true }
    }

    /// Whether the probability is not zero.
    pub fn positive(&self) -> (r: bool)
        ensures
            r == is_positive(*self),
    {
        self.floor > 0 || !self.exact
    }

    /// Whether the drawn fraction `k` is at most the probability.
    pub fn admits(&self, k: u64) -> (r: bool)
        ensures
            r == at_most(*self, k),
    {
        k <= self.floor
    }

    /// Whether the drawn fraction `k` is below the probability.
    pub fn exceeds(&self, k: u64) -> (r: bool)
        ensures
            r == below_chance(*self, k),
    {
        k < self.floor || (k == self.floor && !self.exact)
    }
}

/// Encodes a probability as the first `n` digits of its binary expansion.
pub fn digits_of(p: Chance, n: usize) -> (r: Vec<u8>)
    requires
        n <= 53,
    ensures
        r@ == binary_digits(p, n as nat),
{
    let mut d: Vec<u8> = Vec::new();
    let mut i: usize = 0;
    while i < n
        invariant
            i <= n <= 53,
            d@ == binary_digits(p, i as nat),
        decreases n - i,
    {
        let digit: u8 = if p.floor >= FRACTIONS {
            1
        } else {
            let place: u128 = power_of_two(52 - i as u32);
            proof {
                lemma_pow2_pos((52 - i) as nat);
            }
            ((p.floor as u128 / place) % 2) as u8
        };
        d.push(digit);
        i = i + 1;
    }
    d
}

/// The bit pattern of a number as a double.
pub open spec fn f64_bits(d: Dyadic) -> u64 {
    if d.mant < HALF_FRACTIONS {
        d.mant
    } else {
        ((d.exp + 1075) * HALF_FRACTIONS + (d.mant - HALF_FRACTIONS)) as u64
    }
}

impl Dyadic {
    /// The number one.
    pub fn one() -> (r: Dyadic)
        ensures
            r.mant == HALF_FRACTIONS,
            r.exp == -52,
    {
        Dyadic { mant: HALF_FRACTIONS, exp: -52 }
    }

    /// The form in which finite double-precision numbers are held: a full mantissa, or the
    /// smallest exponent.
    pub open spec fn is_finite(self) -> bool {
        &&& self.mant < FRACTIONS
        &&& -1074 <= self.exp <= 971
        &&& self.mant >= HALF_FRACTIONS || self.exp == -1074
    }

    /// The form in which what is infinite is held.
    pub open spec fn is_infinite(self) -> bool {
        self.mant == HALF_FRACTIONS && self.exp == 972
    }

    /// The number is one of double precision.
    pub open spec fn wf(self) -> bool {
        self.is_finite() || self.is_infinite()
    }

    /// Whether the number is infinite.
    pub fn infinite(&self) -> (r: bool)
        ensures
            r == self.is_infinite(),
    {
        self.mant == HALF_FRACTIONS && self.exp == 972
    }

    /// The number is greater than one.
    pub open spec fn above_one(self) -> bool {
        self.exp > -52 || (self.exp == -52 && self.mant > HALF_FRACTIONS)
    }

    /// The number is less than one.
    pub open spec fn below_one(self) -> bool {
        self.exp < -52
    }

    /// The number with the bit pattern `bits`, where that is a double that is not negative
    /// (minus zero counts as zero).
    pub fn from_bits(bits: u64) -> (r: Option<Dyadic>)
        ensures
            (r is Some) == (bits <= INFINITY_BITS || bits == SIGN_BIT),
            bits <= INFINITY_BITS ==> r == Some(f64_value(bits)),
            bits == SIGN_BIT ==> r == Some(f64_value(0)),
            r matches Some(d) ==> d.wf(),
    {
        if bits == SIGN_BIT {
            return Some(Dyadic { mant: 0, exp: -1074 });
        }
        if bits > INFINITY_BITS {
            return None;
        }
        let field: u64 = bits / HALF_FRACTIONS;
        let frac: u64 = bits % HALF_FRACTIONS;
        if field == 0 {
            Some(Dyadic { mant: frac, exp: -1074 })
        } else {
            Some(Dyadic { mant: HALF_FRACTIONS + frac, exp: field as i32 - 1075 })
        }
    }

    /// The bit pattern of the number as a double.
    pub fn to_bits(&self) -> (r: u64)
        requires
            self.wf(),
        ensures
            r == f64_bits(*self),
            r <= INFINITY_BITS,
            f64_value(r) == *self,
    {
        if self.mant < HALF_FRACTIONS {
            self.mant
        } else {
            (self.exp + 1075) as u64 * HALF_FRACTIONS + (self.mant - HALF_FRACTIONS)
        }
    }

    /// Whether the number is greater than one.
    pub fn is_above_one(&self) -> (r: bool)
        ensures
            r == self.above_one(),
    {
        self.exp > -52 || (self.exp == -52 && self.mant > HALF_FRACTIONS)
    }

    /// The chance that stands for this number as a probability.
    pub fn chance(&self) -> (r: Chance)
        requires
            self.mant <= FRACTIONS,
            -0x1000_0000 <= self.exp <= 0x1000_0000,
        ensures
            r == chance_of(self.mant as int, self.exp as int),
            r.floor == scaled_floor(self.mant as int, self.exp as int),
            r.floor <= FRACTIONS,
    {
        let e: i32 = self.exp + 53;
        proof {
            lemma_pow2_consts();
        }
        if e >= 0 {
            proof {
                lemma_pow2_pos(e as nat);
            }
            if self.mant == 0 {
                proof {
                    let p = pow2(e as nat) as int;
                    assert(0 * p == 0) by (nonlinear_arith);
                }
                return Chance { floor: 0, exact: true };
            }
            if e >= 54 {
                proof {
                    lemma_pow2_strictly_increases(53, e as nat);
                    let p = pow2(e as nat) as int;
                    assert(self.mant * p >= p) by (nonlinear_arith)
                        requires
                            self.mant >= 1,
                            p > 0,
                    ;
                }
                return Chance { floor: FRACTIONS, exact: true };
            }
            let place: u128 = power_of_two(e as u32);
            proof {
                if e < 54 {
                    lemma_pow2_strictly_increases(e as nat, 54);
                }
                lemma_pow2_step(53);
                assert(self.mant * pow2(e as nat) < 0x1000_0000_0000_0000_0000_0000_0000_0000)
                    by (nonlinear_arith)
                    requires
                        self.mant <= 0x20_0000_0000_0000,
                        pow2(e as nat) <= 0x40_0000_0000_0000,
                ;
            }
            let v: u128 = self.mant as u128 * place;
            if v <= FRACTIONS as u128 {
                Chance { floor: v as u64, exact: true }
            } else {
                Chance { floor: FRACTIONS, exact: true }
            }
        } else {
            let s: i32 = -e;
            if s >= 54 {
                proof {
                    lemma_pow2_strictly_increases(53, s as nat);
                    vstd::arithmetic::div_mod::lemma_small_mod(self.mant as nat, pow2(s as nat));
                    vstd::arithmetic::div_mod::lemma_basic_div(self.mant as int, pow2(s as nat) as int);
                }
                return Chance { floor: 0, exact: self.mant == 0 };
            }
            let place: u128 = power_of_two(s as u32);
            proof {
                lemma_pow2_pos(s as nat);
                let p = pow2(s as nat) as int;
                assert(self.mant as int / p <= self.mant) by (nonlinear_arith)
                    requires
                        p >= 1,
                        self.mant >= 0,
                ;
            }
            Chance {
                floor: (self.mant as u128 / place) as u64,
                exact: self.mant as u128 % place == 0,
            }
        }
    }

    /// One minus this number, rounded to 53 significant bits.
    pub fn one_minus(&self) -> (r: Dyadic)
        requires
            self.mant <= FRACTIONS,
            -3000 <= self.exp <= -53,
        ensures
            (r.mant as int, r.exp as int) == one_minus_of(self.mant as int, self.exp as int),
            r.mant <= FRACTIONS,
            -110 <= r.exp <= 80,
    {
        if self.mant == 0 || self.exp < -110 {
            return Dyadic { mant: 1, exp: 0 };
        }
        let place: u128 = power_of_two((-self.exp) as u32);
        proof {
            lemma_pow2_consts();
            let e = (-self.exp) as nat;
            if e > 53 {
                lemma_pow2_strictly_increases(53, e);
            }
            lemma_pow2_adds(64, 47);
            lemma2_to64();
            lemma2_to64_rest();
            lemma_pow2_strictly_increases(e, 111);
            assert(pow2(111) < 0x1000_0000_0000_0000_0000_0000_0000_0000);
        }
        trim(place - self.mant as u128, self.exp)
    }

    /// The reciprocal, rounded to 53 significant bits.
    pub fn recip(&self) -> (r: Dyadic)
        requires
            self.wf(),
            self.above_one(),
        ensures
            (r.mant as int, r.exp as int) == recip_of(*self),
            r.mant <= FRACTIONS,
            -2000 <= r.exp <= -53,
    {
        let q: Dyadic = ratio(1, self.mant);
        proof {
            lemma_pow2_consts();
            lemma_pow2_adds(52, 52);
            let k = (-q.exp) as nat;
            let m = self.mant as int;
            assert(1 * pow2(k) == pow2(k));
            assert(HALF_FRACTIONS * HALF_FRACTIONS == pow2(104));
            assert(HALF_FRACTIONS * m >= HALF_FRACTIONS * HALF_FRACTIONS) by (nonlinear_arith)
                requires
                    m >= HALF_FRACTIONS,
            ;
            if m > HALF_FRACTIONS {
                assert(HALF_FRACTIONS * m > HALF_FRACTIONS * HALF_FRACTIONS) by (nonlinear_arith)
                    requires
                        m > HALF_FRACTIONS,
                        HALF_FRACTIONS > 0,
                ;
            }
            if k < 104 {
                lemma_pow2_strictly_increases(k, 104);
            }
        }
        Dyadic { mant: q.mant, exp: q.exp - self.exp }
    }

    /// `(s - 1) / s` for this number `s`, each operation rounded to 53 significant bits.
    pub fn keep(&self) -> (r: Dyadic)
        requires
            self.wf(),
            self.above_one(),
        ensures
            (r.mant as int, r.exp as int) == keep_of(*self),
            r.mant <= FRACTIONS,
            -116 <= r.exp <= 0,
    {
        if self.infinite() {
            return Dyadic { mant: 0, exp: 0 };
        }
        if self.exp <= 0 {
            let place: u128 = power_of_two((-self.exp) as u32);
            proof {
                lemma_pow2_consts();
                let e = (-self.exp) as nat;
                if e < 52 {
                    lemma_pow2_strictly_increases(e, 52);
                }
            }
            ratio(self.mant - place as u64, self.mant)
        } else if self.exp == 1 && self.mant == HALF_FRACTIONS {
            ratio(FRACTIONS - 1, FRACTIONS)
        } else if self.exp == 1 && self.mant % 2 == 1 {
            ratio(self.mant - 1, self.mant)
        } else {
            Dyadic { mant: 1, exp: 0 }
        }
    }
}

/// The bound on a drawn fraction for the probability `min(u / span * w, 1)`.
pub fn weighted_gate(u: u64, span: u64, w: Dyadic) -> (r: u64)
    requires
        u <= span,
        0 < span,
        w.wf(),
    ensures
        r == weighted_bound(u as int, span as int, w),
        r <= FRACTIONS,
{
    if w.infinite() {
        return FRACTIONS;
    }
    let q: Dyadic = ratio(u, span);
    proof {
        assert(q.mant * w.mant < 0x1000_0000_0000_0000_0000_0000_0000_0000) by (nonlinear_arith)
            requires
                q.mant <= 0x20_0000_0000_0000,
                w.mant <= 0x20_0000_0000_0000,
        ;
    }
    let p: Dyadic = trim(q.mant as u128 * w.mant as u128, q.exp + w.exp);
    p.chance().floor
}

/// The bound on a drawn fraction for the probability `u / span`.
pub fn plain_gate(u: u64, span: u64) -> (r: u64)
    requires
        u <= span,
        0 < span,
    ensures
        r == plain_bound(u as int, span as int),
        r <= FRACTIONS,
{
    ratio(u, span).chance().floor
}

/// Scaling `m` by `2^k` gives a full mantissa.
pub open spec fn is_normal_shift(m: int, k: nat) -> bool {
    pow2(52) <= m * pow2(k) < pow2(53)
}

/// The power of two by which `m` is scaled to a full mantissa.
pub open spec fn normal_shift(m: int) -> nat {
    choose|k: nat| is_normal_shift(m, k)
}

/// The number `m * 2^e` with a full mantissa, for `0 <= m <= 2^53`; zero is `(0, 0)`.
pub open spec fn normal_of(v: (int, int)) -> (int, int) {
    if v.0 == 0 {
        (0int, 0int)
    } else if v.0 >= pow2(53) {
        (pow2(52) as int, v.1 + 1)
    } else {
        let k = normal_shift(v.0);
        (v.0 * pow2(k), v.1 - k)
    }
}

/// `a + b` rounded to 53 significant bits, for numbers with full mantissas. The smaller
/// summand is rounded away where it is far below the last place of the larger one.
pub open spec fn plus_of(a: (int, int), b: (int, int)) -> (int, int) {
    if a.0 == 0 {
        b
    } else if b.0 == 0 {
        a
    } else {
        let (hi, lo) = if a.1 >= b.1 {
            (a, b)
        } else {
            (b, a)
        };
        if hi.1 - lo.1 > 70 {
            hi
        } else {
            normal_of(trim_of(hi.0 * pow2((hi.1 - lo.1) as nat) + lo.0, lo.1))
        }
    }
}

/// `a <= b`, for numbers with full mantissas.
pub open spec fn at_most_of(a: (int, int), b: (int, int)) -> bool {
    a.0 == 0 || (b.0 != 0 && (a.1 < b.1 || (a.1 == b.1 && a.0 <= b.0)))
}

/// `a - b` rounded to 53 significant bits, for numbers `a > b` with full mantissas.
pub open spec fn minus_of(a: (int, int), b: (int, int)) -> (int, int) {
    if b.0 == 0 || a.1 - b.1 > 70 {
        a
    } else {
        normal_of(trim_of(a.0 * pow2((a.1 - b.1) as nat) - b.0, b.1))
    }
}

/// The drawn fraction `k / 2^53` times `a`, rounded to 53 significant bits.
pub open spec fn portion_of(k: int, a: (int, int)) -> (int, int) {
    normal_of(trim_of(k * a.0, a.1 - 53))
}

/// `m` has only one scale.
pub proof fn lemma_normal_shift_unique(m: int, k1: nat, k2: nat)
    requires
        m > 0,
        is_normal_shift(m, k1),
        is_normal_shift(m, k2),
    ensures
        k1 == k2,
{
    lemma_pow2_consts();
    assert(pow2(52) * 1 == pow2(52) && pow2(53) * 1 == pow2(53));
    assert(is_ratio_shift(m, 1, k1));
    assert(is_ratio_shift(m, 1, k2));
    lemma_ratio_shift_unique(m, 1, k1, k2);
}

impl Dyadic {
    /// The number as a pair of mantissa and exponent.
    pub open spec fn pair(self) -> (int, int) {
        (self.mant as int, self.exp as int)
    }

    /// The number has a full mantissa or is zero.
    pub open spec fn full(self) -> bool {
        (self.mant == 0 && self.exp == 0) || HALF_FRACTIONS <= self.mant < FRACTIONS
    }

    /// The number with a full mantissa.
    pub fn normal(&self) -> (r: Dyadic)
        requires
            self.mant <= FRACTIONS,
            -0x100_0000 <= self.exp <= 0x100_0000,
        ensures
            r.pair() == normal_of(self.pair()),
            r.full(),
            self.mant > 0 ==> r.mant > 0 && self.exp - 52 <= r.exp <= self.exp + 1,
            self.mant >= HALF_FRACTIONS ==> r.exp >= self.exp,
            0 < self.mant < FRACTIONS ==> r.exp <= self.exp,
    {
        proof {
            lemma_pow2_consts();
        }
        if self.mant == 0 {
            return Dyadic { mant: 0, exp: 0 };
        }
        if self.mant >= FRACTIONS {
            return Dyadic { mant: HALF_FRACTIONS, exp: self.exp + 1 };
        }
        let mut m: u64 = self.mant;
        let mut k: i32 = 0;
        proof {
            assert(self.mant * pow2(0) == self.mant);
        }
        while m < HALF_FRACTIONS
            invariant
                0 < self.mant < FRACTIONS,
                0 < m < FRACTIONS,
                0 <= k <= 52,
                k > 0 ==> self.mant < HALF_FRACTIONS,
                m == self.mant * pow2(k as nat),
                m >= pow2(k as nat),
                pow2(52) == HALF_FRACTIONS,
                pow2(53) == FRACTIONS,
            decreases 52 - k,
        {
            proof {
                lemma_pow2_step(k as nat);
                let p = pow2(k as nat) as int;
                assert(self.mant * (2 * p) == 2 * (self.mant * p)) by (nonlinear_arith);
                if k == 0 {
                    lemma_pow2_consts();
                    assert(self.mant * p == self.mant);
                }
                if k >= 52 {
                    assert(pow2(k as nat) >= pow2(52));
                }
            }
            m = m * 2;
            k = k + 1;
        }
        proof {
            assert(is_normal_shift(self.mant as int, k as nat));
            lemma_normal_shift_unique(self.mant as int, k as nat, normal_shift(self.mant as int));
        }
        Dyadic { mant: m, exp: self.exp - k }
    }

    /// The sum, rounded to 53 significant bits.
    pub fn plus(&self, other: &Dyadic) -> (r: Dyadic)
        requires
            self.full(),
            other.full(),
            -0x1000 <= self.exp <= 0x1000,
            -0x1000 <= other.exp <= 0x1000,
        ensures
            r.pair() == plus_of(self.pair(), other.pair()),
            r.full(),
            self.mant == 0 ==> r == *other,
            other.mant == 0 ==> r == *self,
            self.mant > 0 && other.mant > 0 ==> {
                let hi = if self.exp >= other.exp {
                    self.exp
                } else {
                    other.exp
                };
                let lo = if self.exp >= other.exp {
                    other.exp
                } else {
                    self.exp
                };
                &&& r.mant > 0
                &&& lo <= r.exp <= hi + 3
                &&& hi - lo > 70 ==> r.exp == hi
            },
    {
        if self.mant == 0 {
            return *other;
        }
        if other.mant == 0 {
            return *self;
        }
        let (hi, lo): (Dyadic, Dyadic) = if self.exp >= other.exp {
            (*self, *other)
        } else {
            (*other, *self)
        };
        if hi.exp - lo.exp > 70 {
            return hi;
        }
        let place: u128 = power_of_two((hi.exp - lo.exp) as u32);
        let ghost d = (hi.exp - lo.exp) as nat;
        proof {
            lemma_place_bound(d);
            assert(hi.mant * place <= 0x20_0000_0000_0000 * place) by (nonlinear_arith)
                requires
                    hi.mant <= 0x20_0000_0000_0000,
                    place >= 0,
            ;
            assert(hi.mant * place >= hi.mant) by (nonlinear_arith)
                requires
                    place >= 1,
                    hi.mant >= 0,
            ;
        }
        let n: u128 = hi.mant as u128 * place + lo.mant as u128;
        let t: Dyadic = trim(n, lo.exp);
        proof {
            lemma_pow2_consts();
            lemma_pow2_step(d);
            lemma_pow2_step(d + 1);
            let wide = pow2(d + 2) as int;
            assert(n < pow2(53) * wide) by (nonlinear_arith)
                requires
                    n <= 0x20_0000_0000_0000 * place + 0x20_0000_0000_0000,
                    place >= 1,
                    wide == 4 * place,
                    pow2(53) == 0x20_0000_0000_0000,
            ;
            if n >= FRACTIONS {
                lemma_shift_below(n as int, (t.exp - lo.exp) as nat, d, 2);
                assert(is_trim_shift(n as int, (t.exp - lo.exp) as nat));
            }
            lemma_trim_full(n as int, lo.exp as int);
        }
        t.normal()
    }

    /// Whether the number is at most `other`.
    pub fn is_at_most(&self, other: &Dyadic) -> (r: bool)
        ensures
            r == at_most_of(self.pair(), other.pair()),
    {
        self.mant == 0 || (other.mant != 0 && (self.exp < other.exp || (self.exp == other.exp
            && self.mant <= other.mant)))
    }

    /// The difference to a smaller number, rounded to 53 significant bits.
    pub fn minus(&self, other: &Dyadic) -> (r: Dyadic)
        requires
            self.full(),
            other.full(),
            -0x1000 <= self.exp <= 0x1000,
            -0x1000 <= other.exp <= 0x1000,
            !at_most_of(self.pair(), other.pair()),
        ensures
            r.pair() == minus_of(self.pair(), other.pair()),
            r.full(),
            r == *self || r.mant == 0 || other.exp - 52 <= r.exp <= self.exp,
    {
        if other.mant == 0 || self.exp - other.exp > 70 {
            return *self;
        }
        let place: u128 = power_of_two((self.exp - other.exp) as u32);
        proof {
            lemma_pow2_consts();
            lemma_place_bound((self.exp - other.exp) as nat);
            assert(self.mant * place <= 0x20_0000_0000_0000 * place) by (nonlinear_arith)
                requires
                    self.mant <= 0x20_0000_0000_0000,
                    place >= 0,
            ;
            if self.exp > other.exp {
                lemma_pow2_step((self.exp - other.exp - 1) as nat);
                assert(self.mant * place >= 2 * self.mant) by (nonlinear_arith)
                    requires
                        place >= 2,
                        self.mant >= 0,
                ;
            } else {
                assert(self.mant * 1 == self.mant);
            }
        }
        let n: u128 = self.mant as u128 * place - other.mant as u128;
        let t: Dyadic = trim(n, other.exp);
        proof {
            let d = (self.exp - other.exp) as nat;
            let p = place as int;
            assert(n < pow2(53) * p && n < self.mant * p) by (nonlinear_arith)
                requires
                    n == self.mant * p - other.mant,
                    self.mant < 0x20_0000_0000_0000,
                    other.mant > 0,
                    p >= 1,
                    pow2(53) == 0x20_0000_0000_0000,
            ;
            if n >= FRACTIONS {
                let k = (t.exp - other.exp) as nat;
                lemma_shift_below(n as int, k, d, 0);
                if k == d {
                    lemma_trim_shift_unique(n as int, k, trim_shift(n as int));
                    assert((n as int) / p < self.mant) by (nonlinear_arith)
                        requires
                            n < self.mant * p,
                            p >= 1,
                            n >= 0,
                    ;
                }
            }
        }
        t.normal()
    }

    /// The drawn fraction `k / 2^53` of this number, rounded to 53 significant bits.
    pub fn portion(&self, k: u64) -> (r: Dyadic)
        requires
            self.full(),
            -0x1000 <= self.exp <= 0x1000,
            k < FRACTIONS,
        ensures
            r.pair() == portion_of(k as int, self.pair()),
            r.full(),
            r.mant == 0 || self.exp - 105 <= r.exp <= self.exp + 28,
    {
        proof {
            assert(k * self.mant < 0x1000_0000_0000_0000_0000_0000_0000_0000) by (nonlinear_arith)
                requires
                    k <= 0x20_0000_0000_0000,
                    self.mant <= 0x20_0000_0000_0000,
            ;
        }
        let t: Dyadic = trim(k as u128 * self.mant as u128, self.exp - 53);
        t.normal()
    }
}

/// A number with a full mantissa divided by `t`, rounded to 53 significant bits.
pub fn quotient(d: &Dyadic, t: u64) -> (r: Dyadic)
    requires
        HALF_FRACTIONS <= d.mant < FRACTIONS,
        -0x2000 <= d.exp <= 0x2000,
        1 <= t <= 0x8000_0000,
    ensures
        r.pair() == (ratio_of(d.mant as int, t as int).0, ratio_of(d.mant as int, t as int).1 + d.exp),
        0 < r.mant <= FRACTIONS,
        d.exp - 32 <= r.exp <= d.exp,
{
    proof {
        lemma_pow2_consts();
        lemma2_to64();
    }
    let scaled: u128 = t as u128 * 0x10_0000_0000_0000u128;
    let mut n: u128 = d.mant as u128;
    let mut k: i32 = 0;
    proof {
        assert(d.mant * pow2(0) == d.mant);
    }
    while n < scaled
        invariant
            HALF_FRACTIONS <= d.mant < FRACTIONS,
            1 <= t <= 0x8000_0000,
            0 <= k <= 31,
            pow2(31) == 0x8000_0000,
            scaled == t * 0x10_0000_0000_0000,
            n == d.mant * pow2(k as nat),
            n < 2 * scaled,
        decreases 31 - k,
    {
        proof {
            lemma_pow2_step(k as nat);
            let p = pow2(k as nat) as int;
            assert(d.mant * (2 * p) == 2 * (d.mant * p)) by (nonlinear_arith);
            if k >= 31 {
                assert(d.mant * p >= 0x10_0000_0000_0000 * p) by (nonlinear_arith)
                    requires
                        d.mant >= 0x10_0000_0000_0000,
                        p >= 0,
                ;
            }
        }
        n = n * 2;
        k = k + 1;
    }
    proof {
        lemma_pow2_consts();
        let a = d.mant as int;
        let b = t as int;
        assert(pow2(52) * b == 0x10_0000_0000_0000 * b);
        assert(pow2(53) * b == 0x20_0000_0000_0000 * b);
        assert(is_ratio_shift(a, b, k as nat));
        lemma_ratio_shift_unique(a, b, k as nat, ratio_shift(a, b));
        let m = a * pow2(k as nat);
        assert(m / b < 0x20_0000_0000_0000) by (nonlinear_arith)
            requires
                m < 0x20_0000_0000_0000 * b,
                b > 0,
        ;
        assert(m / b >= 0x10_0000_0000_0000) by (nonlinear_arith)
            requires
                m >= 0x10_0000_0000_0000 * b,
                b > 0,
        ;
    }
    let q: u128 = divide_half_even(n, t as u128);
    Dyadic { mant: q as u64, exp: d.exp - k }
}

/// The square of a number, rounded to 53 significant bits.
pub fn square(e: &Dyadic) -> (r: Dyadic)
    requires
        e.mant <= FRACTIONS,
        -0x10000 <= e.exp <= 0x10000,
    ensures
        r.pair() == trim_of(e.mant * e.mant, 2 * e.exp),
        r.mant <= FRACTIONS,
        2 * e.exp <= r.exp <= 2 * e.exp + 80,
{
    proof {
        assert(e.mant * e.mant < 0x1000_0000_0000_0000_0000_0000_0000_0000) by (nonlinear_arith)
            requires
                e.mant <= 0x20_0000_0000_0000,
        ;
    }
    trim(e.mant as u128 * e.mant as u128, 2 * e.exp)
}

/// A number below `2^53 * 2^d * 2^c` has fewer than `d + c + 1` excess bits.
proof fn lemma_shift_below(n: int, k: nat, d: nat, c: nat)
    requires
        is_trim_shift(n, k),
        n < pow2(53) * pow2(d + c),
    ensures
        k <= d + c,
{
    lemma_pow2_consts();
    if k > d + c {
        lemma_pow2_step(d + c);
        if k > d + c + 1 {
            lemma_pow2_strictly_increases(d + c + 1, k);
        }
        let p = pow2(k) as int;
        let q = pow2(d + c) as int;
        assert(pow2(52) * p >= pow2(53) * q) by (nonlinear_arith)
            requires
                pow2(52) == 0x10_0000_0000_0000,
                pow2(53) == 0x20_0000_0000_0000,
                p >= 2 * q,
        ;
    }
}

/// Rounding a number of at least 53 bits leaves a full mantissa.
proof fn lemma_trim_full(n: int, e: int)
    requires
        n >= pow2(52),
        n < pow2(53) || is_trim_shift(n, trim_shift(n)),
    ensures
        trim_of(n, e).0 >= pow2(52),
{
    lemma_pow2_consts();
    if n >= pow2(53) {
        let k = trim_shift(n);
        let p = pow2(k) as int;
        lemma_pow2_pos(k);
        assert(n / p >= pow2(52)) by (nonlinear_arith)
            requires
                n >= pow2(52) * p,
                p > 0,
        ;
    }
}

proof fn lemma_place_bound(d: nat)
    requires
        d <= 70,
    ensures
        0x20_0000_0000_0000 * pow2(d) + 0x20_0000_0000_0000 < 0x1000_0000_0000_0000_0000_0000_0000_0000,
        pow2(d) > 0,
{
    lemma_pow2_pos(d);
    if d < 70 {
        lemma_pow2_strictly_increases(d, 70);
    }
    lemma_pow2_adds(64, 6);
    lemma2_to64();
}

/// A rounded quotient that is not zero has a full mantissa, and at most 1 an exponent that
/// says so.
proof fn lemma_ratio_full(a: int, b: int, k: nat)
    requires
        0 < a <= b,
        is_ratio_shift(a, b, k),
    ensures
        pow2(52) <= round_half_even(a * pow2(k), b),
        k >= 52,
{
    lemma_pow2_consts();
    let n = a * pow2(k);
    assert(n / b >= pow2(52)) by (nonlinear_arith)
        requires
            n >= pow2(52) * b,
            b > 0,
    ;
    if k < 52 {
        lemma_pow2_strictly_increases(k, 52);
        let p = pow2(k) as int;
        assert(a * p < pow2(52) * b) by (nonlinear_arith)
            requires
                0 < a <= b,
                0 <= p < pow2(52),
        ;
    }
}

/// A probability of zero is no chance at all.
pub proof fn lemma_zero_chance(e: int)
    ensures
        chance_of(0, e) == (Chance { floor: 0, exact: true }),
        !is_positive(chance_of(0, e)),
{
    if e + 53 >= 0 {
        let p = pow2((e + 53) as nat) as int;
        assert(0 * p == 0) by (nonlinear_arith);
    } else {
        let p = pow2((-e - 53) as nat) as int;
        lemma_pow2_pos((-e - 53) as nat);
        assert(0int / p == 0 && 0int % p == 0) by (nonlinear_arith)
            requires
                p > 0,
        ;
    }
}

/// A number and its bit pattern as a double determine each other.
pub proof fn lemma_f64_bits(d: Dyadic, bits: u64)
    ensures
        d.wf() ==> f64_bits(d) <= INFINITY_BITS && f64_value(f64_bits(d)) == d,
        bits <= INFINITY_BITS ==> f64_value(bits).wf() && f64_bits(f64_value(bits)) == bits,
{
}

} // verus!
