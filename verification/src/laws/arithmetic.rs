//! Exact statements of rounded arithmetic: results are nearest, and chances compare as fractions.
use crate::dyadic::{
    at_most, below_chance, binary_digit, binary_digits, chance_of, is_normal_shift, is_ratio_shift,
    is_trim_shift, keep_of, lemma_pow2_consts, lemma_pow2_step, lemma_ratio_shift_unique,
    lemma_trim_shift_unique, normal_of, normal_shift, plain_bound, ratio_of, ratio_shift, recip_of,
    round_half_even, scaled_floor, trim_of, trim_shift, weighted_bound, Chance, Dyadic, FRACTIONS,
};
use crate::models::classification::vanilla_classifier::is_one;
use vstd::arithmetic::div_mod::{
    lemma_div_denominator, lemma_fundamental_div_mod, lemma_mod_bound,
};
use vstd::arithmetic::power2::{
    lemma_pow2_adds, lemma_pow2_pos, lemma_pow2_strictly_increases, pow2,
};
use vstd::prelude::*;

verus! {

/// A quotient is rounded to the nearest integer, and to the even one where two are equally near.
pub proof fn lemma_rounding_is_nearest(n: int, d: int)
    requires
        n >= 0,
        d > 0,
    ensures
        -d <= 2 * (n - d * round_half_even(n, d)) <= d,
        2 * (n - d * round_half_even(n, d)) == d ==> round_half_even(n, d) % 2 == 0,
        2 * (n - d * round_half_even(n, d)) == -d ==> round_half_even(n, d) % 2 == 0,
        round_half_even(n, d) >= 0,
{
    let q = n / d;
    lemma_fundamental_div_mod(n, d);
    lemma_mod_bound(n, d);
    assert(d * (q + 1) == d * q + d) by (nonlinear_arith);
    assert(q >= 0) by (nonlinear_arith)
        requires
            q == n / d,
            n >= 0,
            d > 0,
    ;
}

proof fn lemma_ratio_shift_found(a: int, b: int, k: nat)
    requires
        a > 0,
        b > 0,
        a * pow2(k) < pow2(53) * b,
    ensures
        exists|j: nat| is_ratio_shift(a, b, j),
    decreases pow2(53) * b - a * pow2(k),
{
    lemma_pow2_consts();
    if pow2(52) * b <= a * pow2(k) {
        assert(is_ratio_shift(a, b, k));
    } else {
        lemma_pow2_step(k);
        let p = pow2(k) as int;
        assert(a * (2 * p) < 2 * (pow2(52) * b) && a * (2 * p) > a * p) by (nonlinear_arith)
            requires
                a * p < pow2(52) * b,
                a > 0,
                p > 0,
        ;
        assert(2 * (pow2(52) * b) == pow2(53) * b) by (nonlinear_arith)
            requires
                pow2(53) == 2 * pow2(52),
        ;
        lemma_ratio_shift_found(a, b, k + 1);
    }
}

proof fn lemma_rounded_in_range(n: int, d: int, lo: int, hi: int)
    requires
        d > 0,
        lo >= 0,
        lo * d <= n < hi * d,
    ensures
        lo <= round_half_even(n, d) <= hi,
{
    lemma_fundamental_div_mod(n, d);
    lemma_mod_bound(n, d);
    let q = n / d;
    assert(lo <= q < hi) by (nonlinear_arith)
        requires
            n == d * q + n % d,
            0 <= n % d < d,
            lo * d <= n < hi * d,
            d > 0,
    ;
}

/// The quotient of two numbers, as a mantissa of 53 bits and a scale, is the nearest there is.
pub proof fn lemma_ratio_is_nearest(a: int, b: int)
    requires
        0 < a,
        0 < b,
        a < pow2(53) * b,
    ensures
        ({
            let (m, e) = ratio_of(a, b);
            &&& e <= 0
            &&& pow2(52) <= m <= pow2(53)
            &&& -b <= 2 * (a * pow2((-e) as nat) - b * m) <= b
        }),
        ratio_of(0, b) == (0int, 0int),
{
    assert(pow2(0) == 1) by {
        lemma_pow2_consts();
    }
    assert(a * pow2(0) == a);
    lemma_ratio_shift_found(a, b, 0);
    let k = ratio_shift(a, b);
    assert(is_ratio_shift(a, b, k));
    let n = a * pow2(k);
    lemma_pow2_pos(k);
    assert(n >= 0) by (nonlinear_arith)
        requires
            n == a * pow2(k),
            a > 0,
            pow2(k) > 0,
    ;
    lemma_rounding_is_nearest(n, b);
    lemma_rounded_in_range(n, b, pow2(52) as int, pow2(53) as int);
}

proof fn lemma_trim_shift_found(n: int, k: nat)
    requires
        pow2(52) * pow2(k) <= n,
    ensures
        exists|j: nat| k <= j && is_trim_shift(n, j),
    decreases n - pow2(52) * pow2(k),
{
    lemma_pow2_consts();
    lemma_pow2_step(k);
    let p = pow2(k) as int;
    if n < pow2(53) * p {
        assert(is_trim_shift(n, k));
    } else {
        assert(pow2(52) * (2 * p) == pow2(53) * p && pow2(52) * (2 * p) > pow2(52) * p)
            by (nonlinear_arith)
            requires
                pow2(53) == 2 * pow2(52),
                pow2(52) > 0,
                p > 0,
        ;
        lemma_trim_shift_found(n, k + 1);
    }
}

/// A number is kept as it is while it fits in 53 bits, and is else cut to the nearest that does.
pub proof fn lemma_trimming_is_nearest(n: int, e: int)
    requires
        n >= 0,
    ensures
        ({
            let (m, f) = trim_of(n, e);
            &&& f >= e
            &&& n < pow2(53) ==> m == n && f == e
            &&& n >= pow2(53) ==> pow2(52) <= m <= pow2(53)
            &&& n >= pow2(53) ==> -pow2((f - e) as nat) <= 2 * (n - pow2((f - e) as nat) * m)
                <= pow2((f - e) as nat)
        }),
{
    if n >= pow2(53) {
        lemma_pow2_consts();
        assert(pow2(52) * pow2(1) == pow2(53));
        lemma_trim_shift_found(n, 1);
        let k = trim_shift(n);
        assert(is_trim_shift(n, k));
        lemma_pow2_pos(k);
        lemma_rounding_is_nearest(n, pow2(k) as int);
        lemma_rounded_in_range(n, pow2(k) as int, pow2(52) as int, pow2(53) as int);
    }
}

/// Filling up a mantissa does not change the number.
pub proof fn lemma_filling_keeps_value(m: int, e: int)
    requires
        0 < m <= pow2(53),
    ensures
        ({
            let (w, f) = normal_of((m, e));
            &&& pow2(52) <= w < pow2(53)
            &&& m < pow2(53) ==> f <= e && w == m * pow2((e - f) as nat)
            &&& m == pow2(53) ==> f == e + 1 && 2 * w == m
        }),
        normal_of((0int, e)) == (0int, 0int),
{
    lemma_pow2_consts();
    if m < pow2(53) {
        assert(m * pow2(0) == m);
        assert(pow2(53) * 1 == pow2(53) && pow2(52) * 1 == pow2(52));
        lemma_ratio_shift_found(m, 1, 0);
        let j = choose|j: nat| is_ratio_shift(m, 1, j);
        assert(is_normal_shift(m, j));
        assert(is_normal_shift(m, normal_shift(m)));
    }
}

/// A drawn fraction is compared with a chance as numbers are: of `k / 2^53` and `m * 2^e` it is
/// told exactly which is larger.
pub proof fn lemma_chances_compare(m: int, e: int, k: u64)
    requires
        m >= 0,
        k < FRACTIONS,
    ensures
        e + 53 >= 0 ==> (below_chance(chance_of(m, e), k) <==> k < m * pow2((e + 53) as nat)),
        e + 53 < 0 ==> (below_chance(chance_of(m, e), k) <==> k * pow2((-e - 53) as nat) < m),
        e + 53 >= 0 ==> (at_most(chance_of(m, e), k) <==> k <= m * pow2((e + 53) as nat)),
        e + 53 < 0 ==> (at_most(chance_of(m, e), k) <==> k * pow2((-e - 53) as nat) <= m),
{
    lemma_pow2_consts();
    if e + 53 >= 0 {
        let p = pow2((e + 53) as nat) as int;
        lemma_pow2_pos((e + 53) as nat);
        assert(m * p >= 0) by (nonlinear_arith)
            requires
                m >= 0,
                p > 0,
        ;
    } else {
        let p = pow2((-e - 53) as nat) as int;
        lemma_pow2_pos((-e - 53) as nat);
        lemma_fundamental_div_mod(m, p);
        lemma_mod_bound(m, p);
        let q = m / p;
        assert(q >= 0) by (nonlinear_arith)
            requires
                q == m / p,
                m >= 0,
                p > 0,
        ;
        let v = k as int;
        assert(v < q ==> v * p < m) by (nonlinear_arith)
            requires
                m == p * q + m % p,
                0 <= m % p < p,
                p > 0,
        ;
        assert(v > q ==> v * p > m) by (nonlinear_arith)
            requires
                m == p * q + m % p,
                0 <= m % p < p,
                p > 0,
        ;
        assert(v == q ==> v * p == p * q) by (nonlinear_arith);
        assert(scaled_floor(m, e) <= FRACTIONS);
    }
}

/// The binary digits of a chance are those of its fraction, the first being that of one half.
pub proof fn lemma_digits_make_chance(c: Chance, n: nat)
    requires
        c.floor < FRACTIONS,
        n <= 53,
    ensures
        binary_digits(c, n).fold_left(0, |a: int, d: u8| 2 * a + d) == c.floor as int / (pow2(
            (53 - n) as nat,
        ) as int),
        forall|i: int| 0 <= i < n ==> #[trigger] binary_digits(c, n)[i] <= 1,
    decreases n,
{
    let digits = binary_digits(c, n);
    let step = |a: int, d: u8| 2 * a + d;
    lemma_pow2_consts();
    let v = c.floor as int;
    assert forall|i: int| 0 <= i < n implies #[trigger] digits[i] <= 1 by {
        let p = pow2((52 - i) as nat) as int;
        assert(0 <= (v / p) % 2 < 2);
    }
    if n == 0 {
        assert(digits.fold_left(0, step) == 0);
        assert(v / (FRACTIONS as int) == 0);
    } else {
        lemma_digits_make_chance(c, (n - 1) as nat);
        assert(digits.drop_last() =~= binary_digits(c, (n - 1) as nat));
        assert(digits.last() == binary_digit(c, n - 1));
        let p = pow2((53 - n) as nat) as int;
        lemma_pow2_pos((53 - n) as nat);
        lemma_pow2_step((53 - n) as nat);
        assert(((53 - n) as nat) + 1 == (53 - (n - 1)) as nat);
        assert((52 - (n - 1)) as nat == (53 - n) as nat);
        lemma_div_denominator(v, p, 2);
        let q = v / p;
        assert(p * 2 == 2 * p);
        assert(v / (2 * p) == q / 2);
        assert(digits.last() == q % 2);
    }
}

/// A gate lets the part `u / span` of all drawn fractions pass, up to rounding: none but the
/// fraction 0 where `u` is 0, and all where it is the whole span.
pub proof fn lemma_gate_is_proportional(u: int, span: int)
    requires
        0 <= u <= span,
        0 < span,
    ensures
        0 <= plain_bound(u, span) <= FRACTIONS,
        u == 0 ==> plain_bound(u, span) == 0,
        u == span ==> plain_bound(u, span) == FRACTIONS,
        2 * span * plain_bound(u, span) <= 2 * u * FRACTIONS + span,
        2 * span * (plain_bound(u, span) + 1) > 2 * u * FRACTIONS - span,
{
    lemma_pow2_consts();
    let f = FRACTIONS as int;
    let v = plain_bound(u, span);
    if u == 0 {
        let p = pow2(53) as int;
        assert(0 * p == 0) by (nonlinear_arith);
        assert(v == 0);
        assert(2 * span * 0 == 0 && 2 * 0 * f == 0) by (nonlinear_arith);
        assert(2 * span * (0 + 1) == 2 * span) by (nonlinear_arith);
    } else if u == span {
        let half = pow2(52) as int;
        assert(half * span <= span * half && span * half < (2 * half) * span) by (nonlinear_arith)
            requires
                span > 0,
                half > 0,
        ;
        assert(is_ratio_shift(span, span, 52));
        assert(is_ratio_shift(span, span, ratio_shift(span, span)));
        lemma_ratio_shift_unique(span, span, 52, ratio_shift(span, span));
        let q = pow2(52) as int;
        assert((span * q) / span == q && (span * q) % span == 0) by (nonlinear_arith)
            requires
                span > 0,
        ;
        assert(ratio_of(u, span) == (q, -52int));
        assert(q * pow2(1) == f);
        assert(v == f);
        assert(2 * span * f <= 2 * u * f + span) by (nonlinear_arith)
            requires
                u == span,
                span > 0,
        ;
        assert(2 * span * (f + 1) > 2 * u * f - span) by (nonlinear_arith)
            requires
                u == span,
                span > 0,
        ;
    } else {
        assert(u < pow2(53) * span) by (nonlinear_arith)
            requires
                u < span,
                pow2(53) >= 1,
                span > 0,
        ;
        lemma_ratio_is_nearest(u, span);
        let (m, e) = ratio_of(u, span);
        let k = (-e) as nat;
        let p = pow2(k) as int;
        assert(u * pow2(0) == u);
        lemma_ratio_shift_found(u, span, 0);
        assert(is_ratio_shift(u, span, ratio_shift(u, span)));
        lemma_gate_shift(u, span, k);
        let j = (k - 53) as nat;
        lemma_pow2_adds(53, j);
        let r = pow2(j) as int;
        lemma_pow2_pos(j);
        assert(p == f * r);
        let w = m / r;
        lemma_fundamental_div_mod(m, r);
        lemma_mod_bound(m, r);
        if k == 53 {
            assert(r == 1);
            assert(m * pow2(0) == m);
            assert(w == m) by (nonlinear_arith)
                requires
                    w == m / r,
                    r == 1,
            ;
        }
        assert(w >= 0) by (nonlinear_arith)
            requires
                w == m / r,
                m >= 0,
                r >= 1,
        ;
        assert(w <= r * w) by (nonlinear_arith)
            requires
                w >= 0,
                r >= 1,
        ;
        assert(v == w);
        assert(2 * span * w <= 2 * u * f + span) by (nonlinear_arith)
            requires
                m == r * w + m % r,
                0 <= m % r < r,
                2 * (u * p - span * m) >= -span,
                p == f * r,
                span > 0,
                r >= 1,
        ;
        assert(2 * span * (w + 1) > 2 * u * f - span) by (nonlinear_arith)
            requires
                m == r * w + m % r,
                0 <= m % r < r,
                2 * (u * p - span * m) <= span,
                p == f * r,
                span > 0,
                r >= 1,
        ;
    }
}

proof fn lemma_gate_shift(u: int, span: int, k: nat)
    requires
        0 < u < span,
        pow2(52) * span <= u * pow2(k),
    ensures
        k >= 53,
{
    if k <= 52 {
        if k < 52 {
            lemma_pow2_strictly_increases(k, 52);
        }
        let p = pow2(k) as int;
        let q = pow2(52) as int;
        lemma_pow2_pos(52);
        assert(u * p < q * span) by (nonlinear_arith)
            requires
                0 < u < span,
                0 <= p <= q,
                q > 0,
        ;
    }
}

/// The chances that follow from a specificity `s` are the nearest there are to `1 / s` and to
/// `(s - 1) / s`.
pub proof fn lemma_specificity_makes_chances(s: Dyadic)
    requires
        s.is_finite(),
        s.above_one(),
        s.exp <= 0,
    ensures
        ({
            let (m, e) = recip_of(s);
            &&& e + s.exp <= 0
            &&& pow2(52) <= m <= pow2(53)
            &&& -s.mant <= 2 * (pow2((-(e + s.exp)) as nat) - s.mant * m) <= s.mant
        }),
        ({
            let (m, e) = keep_of(s);
            let rest = s.mant - pow2((-s.exp) as nat);
            &&& 0 < rest < s.mant
            &&& e <= 0
            &&& pow2(52) <= m <= pow2(53)
            &&& -s.mant <= 2 * (rest * pow2((-e) as nat) - s.mant * m) <= s.mant
        }),
{
    lemma_pow2_consts();
    let b = s.mant as int;
    let one = pow2((-s.exp) as nat) as int;
    lemma_pow2_pos((-s.exp) as nat);
    assert(b > one) by {
        if s.exp > -52 {
            lemma_pow2_strictly_increases((-s.exp) as nat, 52);
        }
    }
    assert(1 < pow2(53) * b) by (nonlinear_arith)
        requires
            pow2(53) > 1,
            b >= 1,
    ;
    lemma_ratio_is_nearest(1, b);
    let q = ratio_of(1, b);
    assert(1 * pow2((-q.1) as nat) == pow2((-q.1) as nat));
    let rest = b - one;
    assert(rest < pow2(53) * b) by (nonlinear_arith)
        requires
            rest < b,
            pow2(53) >= 1,
            b >= 1,
    ;
    lemma_ratio_is_nearest(rest, b);
}

proof fn lemma_exact_rounding(m: int, d: int)
    requires
        d > 0,
    ensures
        round_half_even(m * d, d) == m,
{
    assert((m * d) / d == m && (m * d) % d == 0) by (nonlinear_arith)
        requires
            d > 0,
    ;
}

proof fn lemma_scaled_twice(e: int)
    ensures
        scaled_floor(pow2(52) as int, e + 1) == scaled_floor(pow2(53) as int, e),
{
    lemma_pow2_consts();
    let a = pow2(52) as int;
    if e + 53 >= 0 {
        let p = pow2((e + 53) as nat) as int;
        lemma_pow2_step((e + 53) as nat);
        assert((e + 1 + 53) as nat == (e + 53) as nat + 1);
        assert(a * (2 * p) == (2 * a) * p) by (nonlinear_arith);
    } else {
        let p = pow2((-e - 54) as nat) as int;
        lemma_pow2_pos((-e - 54) as nat);
        lemma_pow2_step((-e - 54) as nat);
        assert((-e - 53) as nat == (-e - 54) as nat + 1);
        assert((2 * a) / (2 * p) == a / p) by (nonlinear_arith)
            requires
                p > 0,
                a >= 0,
        ;
        if e == -54 {
            assert(pow2(0) == 1);
            assert(a * 1 == a && a / 1 == a);
        } else {
            assert((-(e + 1) - 53) as nat == (-e - 54) as nat);
        }
    }
}

/// A class weight of 1 leaves the feedback as it is.
pub proof fn lemma_unit_weight_changes_nothing(u: int, span: int, w: Dyadic)
    requires
        0 <= u <= span,
        0 < span,
        is_one(w),
    ensures
        weighted_bound(u, span, w) == plain_bound(u, span),
{
    lemma_pow2_consts();
    let q = ratio_of(u, span);
    let one = pow2(52) as int;
    let n = q.0 * w.mant;
    if u == 0 {
        assert(0 * one == 0);
        assert(trim_of(0, -52) == (0int, -52int));
        assert(0 * pow2(1) == 0 && 0 * pow2(53) == 0) by (nonlinear_arith);
    } else {
        assert(u < pow2(53) * span) by (nonlinear_arith)
            requires
                u <= span,
                pow2(53) > 1,
                span > 0,
        ;
        lemma_ratio_is_nearest(u, span);
        assert(n == q.0 * one);
        assert(n >= one * one) by (nonlinear_arith)
            requires
                n == q.0 * one,
                q.0 >= one,
                one > 0,
        ;
        assert(one * one >= 2 * one) by (nonlinear_arith)
            requires
                one >= 2,
        ;
        if q.0 < pow2(53) {
            assert(n < (2 * one) * one) by (nonlinear_arith)
                requires
                    n == q.0 * one,
                    q.0 < 2 * one,
                    one > 0,
            ;
            assert(is_trim_shift(n, 52));
            assert(is_trim_shift(n, trim_shift(n)));
            lemma_trim_shift_unique(n, 52, trim_shift(n));
            lemma_exact_rounding(q.0, one);
        } else {
            let two = pow2(53) as int;
            assert(n == one * two && one * two < two * two) by (nonlinear_arith)
                requires
                    n == two * one,
                    two == 2 * one,
                    one > 0,
            ;
            assert(is_trim_shift(n, 53));
            assert(is_trim_shift(n, trim_shift(n)));
            lemma_trim_shift_unique(n, 53, trim_shift(n));
            lemma_exact_rounding(one, two);
            lemma_scaled_twice(q.1);
        }
    }
}

} // verus!
