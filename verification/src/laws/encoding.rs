//! What the bits of an encoded sample mean.
use crate::bits::{bit_at, bits_of, literal, literals_of, words_needed};
use crate::booleanizer::{
    cut_rank, feature_values, has_rank, lemma_fitted_bits, lemma_rank_exists, ranked, ranked_below,
    ranks_before, Booleanizer, Number,
};
use crate::clause_bank::automata::half_of;
use crate::dyadic::{f64_value, HALF_FRACTIONS, INFINITY_BITS, SIGN_BIT};
use crate::encoder::{batch_encodes, encodes, EncodedBatch};
use vstd::arithmetic::div_mod::{lemma_fundamental_div_mod, lemma_mod_bound};
use vstd::arithmetic::power2::{
    lemma2_to64, lemma_pow2_pos, lemma_pow2_strictly_increases, lemma_pow2_unfold, pow2,
};
use vstd::prelude::*;
use vstd::set_lib::{lemma_int_range, lemma_len_subset, set_int_range};

verus! {

/// An encoded sample holds the literals of its features, and nothing behind them.
pub proof fn lemma_encoding_is_literals(ws: Seq<u64>, x: Seq<u8>, n_features: nat)
    requires
        encodes(ws, x, n_features as int),
    ensures
        bits_of(ws, 2 * n_features) == literals_of(x, n_features as int),
        forall|l: int| 2 * n_features <= l < 64 * ws.len() ==> !#[trigger] bit_at(ws, l),
        2 * n_features <= 64 * ws.len(),
        64 * ws.len() < 2 * n_features + 64,
{
    assert(ws.len() == words_needed(2 * n_features as int));
    assert forall|l: int| 0 <= l < 2 * n_features implies bits_of(ws, 2 * n_features)[l]
        == literals_of(x, n_features as int)[l] by {
        assert(bit_at(ws, l) == literal(x, n_features as int, l));
    }
    assert(bits_of(ws, 2 * n_features) =~= literals_of(x, n_features as int));
}

/// Sample `i` of an encoded batch holds the literals of row `i`.
pub proof fn lemma_batch_is_rows(batch: &EncodedBatch, rows: Seq<Seq<u8>>, n_features: nat, i: int)
    requires
        batch_encodes(batch, rows, n_features as int),
        0 <= i < rows.len(),
    ensures
        batch.n == rows.len(),
        bits_of(batch.sample(i), 2 * n_features) == literals_of(rows[i], n_features as int),
{
    assert(encodes(batch.sample(i), rows[i], n_features as int));
    lemma_encoding_is_literals(batch.sample(i), rows[i], n_features);
}

/// The words of a batch are those of its samples, one after the other.
pub proof fn lemma_samples_follow(batch: &EncodedBatch, i: int, k: int)
    requires
        batch.wf(),
        0 <= i < batch.n,
        0 <= k < batch.words,
    ensures
        batch.sample(i).len() == batch.words,
        batch.sample(i)[k] == batch.data@[batch.words * i + k],
{
    let w = batch.words as int;
    assert((i + 1) * w == i * w + w) by (nonlinear_arith);
    assert(i * w == w * i) by (nonlinear_arith);
    assert(0 <= i * w && (i + 1) * w <= batch.n * w) by (nonlinear_arith)
        requires
            0 <= i < batch.n,
            w >= 0,
    ;
}

/// Of the values that a cut point was chosen from, those below it are at most its part of all
/// values, and with those equal to it they are more: the cut points divide the values evenly.
pub proof fn lemma_cut_points_divide(
    b: &Booleanizer,
    xs: Seq<&[Number]>,
    n_features: nat,
    n_thresholds: nat,
    k: int,
)
    requires
        b.fitted(xs, n_features, n_thresholds),
        xs.len() >= 1,
        n_features <= usize::MAX,
        0 <= k < b.bits().len(),
    ensures
        ({
            let f = k / n_thresholds as int;
            let t = k % n_thresholds as int;
            let cut = b.bits()[k].1;
            let below = Set::new(
                |i: int| 0 <= i < xs.len() && xs[i]@[f].key() < cut.key(),
            );
            let upto = Set::new(
                |i: int| 0 <= i < xs.len() && xs[i]@[f].key() <= cut.key(),
            );
            &&& b.bits()[k].0 == f
            &&& below.finite() && upto.finite()
            &&& (n_thresholds + 1) * below.len() <= (xs.len() - 1) * (t + 1)
            &&& (xs.len() - 1) * (t + 1) < (n_thresholds + 1) * upto.len()
        }),
{
    lemma_fitted_bits(b, xs, n_features, n_thresholds, k);
    let f = k / n_thresholds as int;
    let t = k % n_thresholds as int;
    let d = n_thresholds as int;
    assert(d >= 1) by {
        if n_thresholds == 0 {
            assert(n_features * 0 == 0) by (nonlinear_arith);
        }
    }
    lemma_mod_bound(k, d);
    let m = xs.len() - 1;
    let p = cut_rank(xs.len() as int, t, d);
    lemma_fundamental_div_mod(m * (t + 1), d + 1);
    lemma_mod_bound(m * (t + 1), d + 1);
    assert(0 <= m * (t + 1) < (m + 1) * (d + 1)) by (nonlinear_arith)
        requires
            m >= 0,
            0 <= t < d,
    ;
    assert(0 <= p < m + 1) by (nonlinear_arith)
        requires
            p == (m * (t + 1)) / (d + 1),
            0 <= m * (t + 1) < (m + 1) * (d + 1),
            d >= 1,
    ;
    let vals = feature_values(xs, f);
    let place: nat = p as nat;
    lemma_rank_exists(vals, place);
    let i0 = choose|i: int| has_rank(vals, i, place);
    let cut = ranked(vals, place);
    assert(cut == vals[i0]);
    let below = Set::new(|i: int| 0 <= i < xs.len() && xs[i]@[f].key() < cut.key());
    let upto = Set::new(|i: int| 0 <= i < xs.len() && xs[i]@[f].key() <= cut.key());
    let ranks = ranked_below(vals, i0);
    lemma_int_range(0, xs.len() as int);
    assert(below.subset_of(set_int_range(0, xs.len() as int)));
    assert(upto.subset_of(set_int_range(0, xs.len() as int)));
    lemma_len_subset(below, set_int_range(0, xs.len() as int));
    lemma_len_subset(upto, set_int_range(0, xs.len() as int));
    assert(below.subset_of(ranks)) by {
        assert forall|i: int| below.contains(i) implies ranks.contains(i) by {
            assert(vals[i] == xs[i]@[f]);
            assert(ranks_before(vals, i, i0));
        }
    }
    lemma_len_subset(below, ranks);
    assert(!ranks.contains(i0));
    assert(ranks.insert(i0).subset_of(upto)) by {
        assert forall|i: int| ranks.insert(i0).contains(i) implies upto.contains(i) by {
            assert(vals[i] == xs[i]@[f]);
        }
    }
    lemma_len_subset(ranks.insert(i0), upto);
    let lo = below.len() as int;
    let hi = upto.len() as int;
    assert((d + 1) * lo <= (d + 1) * p) by (nonlinear_arith)
        requires
            lo <= p,
            d >= 1,
    ;
    assert((d + 1) * (p + 1) <= (d + 1) * hi) by (nonlinear_arith)
        requires
            p + 1 <= hi,
            d >= 1,
    ;
    assert((d + 1) * (p + 1) == (d + 1) * p + (d + 1)) by (nonlinear_arith);
}

/// The size of a finite double, in units of the smallest one.
pub open spec fn magnitude(bits: u64) -> int {
    f64_value(bits).mant * pow2((f64_value(bits).exp + 1074) as nat)
}

/// A finite double, in units of the smallest one.
pub open spec fn units(v: Number) -> int {
    if v.0 < SIGN_BIT {
        magnitude(v.0)
    } else {
        -magnitude((v.0 - SIGN_BIT) as u64)
    }
}

proof fn lemma_field_bounds(bits: u64)
    requires
        bits < INFINITY_BITS,
    ensures
        ({
            let field = (bits / HALF_FRACTIONS) as nat;
            let h = HALF_FRACTIONS as int;
            &&& field < 0x7FF
            &&& field == 0 ==> magnitude(bits) == bits % HALF_FRACTIONS
            &&& field > 0 ==> magnitude(bits) == (h + bits % HALF_FRACTIONS) * pow2(
                (field - 1) as nat,
            )
            &&& 0 <= bits % HALF_FRACTIONS < h
            &&& bits == h * field + bits % HALF_FRACTIONS
        }),
{
    let field = bits / HALF_FRACTIONS;
    let frac = bits % HALF_FRACTIONS;
    lemma_fundamental_div_mod(bits as int, HALF_FRACTIONS as int);
    lemma_mod_bound(bits as int, HALF_FRACTIONS as int);
    assert(field < 0x7FF);
    lemma2_to64();
    if field == 0 {
        assert((f64_value(bits).exp + 1074) as nat == 0);
        assert(pow2(0) == 1);
        assert(frac * 1 == frac);
        assert(magnitude(bits) == frac * pow2(0));
    } else {
        assert(f64_value(bits).exp == field - 1075);
        assert((f64_value(bits).exp + 1074) as nat == (field - 1) as nat);
        assert(f64_value(bits).mant == HALF_FRACTIONS + frac);
        assert(magnitude(bits) == (HALF_FRACTIONS + frac) * pow2((field - 1) as nat));
    }
}

proof fn lemma_magnitude_grows(a: u64, b: u64)
    requires
        a < b < INFINITY_BITS,
    ensures
        0 <= magnitude(a) < magnitude(b),
{
    lemma_field_bounds(a);
    lemma_field_bounds(b);
    let h = HALF_FRACTIONS as int;
    let fa = (a / HALF_FRACTIONS) as nat;
    let fb = (b / HALF_FRACTIONS) as nat;
    let ra = (a % HALF_FRACTIONS) as int;
    let rb = (b % HALF_FRACTIONS) as int;
    assert(fa <= fb);
    if fa == fb {
        assert(ra < rb);
        if fa > 0 {
            let q = pow2((fa - 1) as nat) as int;
            lemma_pow2_pos((fa - 1) as nat);
            assert(0 <= (h + ra) * q < (h + rb) * q) by (nonlinear_arith)
                requires
                    0 <= ra < rb,
                    h > 0,
                    q > 0,
            ;
        }
    } else {
        let qb = pow2((fb - 1) as nat) as int;
        lemma_pow2_pos((fb - 1) as nat);
        assert((h + rb) * qb >= h * qb) by (nonlinear_arith)
            requires
                rb >= 0,
                qb > 0,
        ;
        if fa == 0 {
            assert(h * qb >= h) by (nonlinear_arith)
                requires
                    qb >= 1,
                    h > 0,
            ;
        } else {
            let qa = pow2((fa - 1) as nat) as int;
            lemma_pow2_pos((fa - 1) as nat);
            lemma_pow2_unfold(fa);
            if fa < fb - 1 {
                lemma_pow2_strictly_increases(fa, (fb - 1) as nat);
            }
            assert(pow2(fa) as int == 2 * qa);
            assert(2 * qa <= qb);
            assert(0 <= (h + ra) * qa < (2 * h) * qa) by (nonlinear_arith)
                requires
                    0 <= ra < h,
                    qa > 0,
            ;
            assert((2 * h) * qa <= h * qb) by (nonlinear_arith)
                requires
                    2 * qa <= qb,
                    h > 0,
            ;
        }
    }
}

/// A number is above another exactly if its value is larger; both zeros are the same.
pub proof fn lemma_numbers_are_ordered(a: Number, b: Number)
    requires
        a.0 < INFINITY_BITS || SIGN_BIT <= a.0 < SIGN_BIT + INFINITY_BITS,
        b.0 < INFINITY_BITS || SIGN_BIT <= b.0 < SIGN_BIT + INFINITY_BITS,
    ensures
        a.is_above(b) <==> units(a) > units(b),
{
    let x = if a.0 < SIGN_BIT {
        a.0
    } else {
        (a.0 - SIGN_BIT) as u64
    };
    let y = if b.0 < SIGN_BIT {
        b.0
    } else {
        (b.0 - SIGN_BIT) as u64
    };
    assert(a.0 as int % SIGN_BIT as int == x);
    assert(b.0 as int % SIGN_BIT as int == y);
    assert(magnitude(0) == 0) by {
        lemma_field_bounds(0);
    }
    if x < y {
        lemma_magnitude_grows(x, y);
    }
    if y < x {
        lemma_magnitude_grows(y, x);
    }
    if 0 < x {
        lemma_magnitude_grows(0, x);
    }
    if 0 < y {
        lemma_magnitude_grows(0, y);
    }
}

/// Counters of `bits` bits change sides in the middle of their range.
pub proof fn lemma_half_is_middle(bits: u8)
    requires
        2 <= bits <= 8,
    ensures
        2 * half_of(bits) == pow2(bits as nat),
{
    lemma2_to64();
}

/// The infinities lie above and below all finite numbers, and what is no number is neither above nor
/// below anything.
pub proof fn lemma_infinities_are_ordered(a: Number, b: Number)
    ensures
        a.is_nan() || b.is_nan() ==> !a.is_above(b),
        a.0 == INFINITY_BITS && b.0 < INFINITY_BITS ==> a.is_above(b) && !b.is_above(a),
        a.0 == INFINITY_BITS && b.0 >= SIGN_BIT && !b.is_nan() ==> a.is_above(b) && !b.is_above(a),
        a.0 == SIGN_BIT + INFINITY_BITS && b.0 < SIGN_BIT + INFINITY_BITS && !b.is_nan()
            ==> b.is_above(a) && !a.is_above(b),
        !a.is_above(a),
        a.is_nan() <==> INFINITY_BITS < a.0 < SIGN_BIT || a.0 > SIGN_BIT + INFINITY_BITS,
{
    let x = if a.0 < SIGN_BIT {
        a.0 as int
    } else {
        a.0 - SIGN_BIT
    };
    let y = if b.0 < SIGN_BIT {
        b.0 as int
    } else {
        b.0 - SIGN_BIT
    };
    assert(a.0 as int % SIGN_BIT as int == x);
    assert(b.0 as int % SIGN_BIT as int == y);
}

} // verus!
