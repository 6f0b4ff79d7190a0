//! Bit-level behaviour of dense clauses.
use tmu_rs::bits::{expand_bits_to_bytes, get_bit, pack, words_for};
use tmu_rs::clause_bank::automata::{half_from_bits, Automata, Geometry};
use tmu_rs::clause_bank::dense::{
    clause_fire, clause_type_i_bytes, clause_type_ii_bytes, fire_predict, first_false_literal, rebuild_include,
    type_i_update_bytes, type_ii_update_bytes, type_iii_update, under_include_limit, use_parallel,
    PARALLEL_MIN,
};
use tmu_rs::clause_bank::feedback::{grow_dense_state, Clause};
use tmu_rs::dyadic::Dyadic;
use tmu_rs::rng::Rng;

const WORD_BITS: usize = 64;

fn number(x: f64) -> Dyadic {
    Dyadic::from_bits(x.to_bits()).unwrap()
}

/// The bound on a drawn fraction for an indicator to gain with strength `d`.
fn indicator_gate(d: f64) -> u64 {
    number(d).recip().one_minus().chance().floor
}

/// The bound on a drawn fraction for the probability `p`.
fn gate(p: f64) -> u64 {
    number(p).chance().floor
}

#[test]
fn use_parallel_thresholds() {
    assert!(use_parallel(PARALLEL_MIN, 1));
    assert!(!use_parallel(PARALLEL_MIN - 1, 1));
    assert!(use_parallel(4, 64));
    assert!(use_parallel(2, 200));
    assert!(!use_parallel(4, 32));
    assert!(!use_parallel(4, 1));
    assert!(use_parallel(usize::MAX, usize::MAX));
}

#[test]
fn grow_dense_state_relayouts_across_word_boundary() {
    // 40 features take 2 words and 70 take 3: the change of width and the shift of the negated
    // block both cross word boundaries.
    let n_clauses = 2usize;
    let (old_nf, new_nf) = (40usize, 70usize);
    let old_nl = 2 * old_nf;
    let half = 128u8;
    let narrow = Geometry::new(old_nl, 8);
    let wide = Geometry::new(2 * new_nf, 8);

    let cat_bits = [0usize, 7, 39, 40, 63, 64, 79];
    let mut clauses: Vec<Clause> = Vec::new();
    for j in 0..n_clauses {
        let ta: Vec<u8> = (0..old_nl).map(|l| ((j * 89 + l * 3) % 256) as u8).collect();
        let mut auto = Automata::from_counters(&narrow, ta);
        for l in 0..old_nl {
            auto.ind[l] = ((j * 53 + l * 7 + 11) % 256) as u8;
        }
        for (i, l) in cat_bits.iter().enumerate() {
            if i % n_clauses == j {
                auto.cat[l / WORD_BITS] |= 1u64 << (l % WORD_BITS);
            }
        }
        clauses.push(Clause { auto, weight: 1, rng: Rng::new(j as u64) });
    }
    let old = clauses.clone();

    grow_dense_state(&mut clauses, &narrow, &wide, old_nf, new_nf);
    let new_nl = wide.n_literals;
    let new_words = wide.words;
    assert_eq!(new_nl, 2 * new_nf);
    assert_eq!(new_words, words_for(2 * new_nf));

    let remap = |l: usize| if l < old_nf { l } else { l + (new_nf - old_nf) };
    let is_old_slot = |l: usize| l < old_nf || (new_nf..new_nf + old_nf).contains(&l);

    for j in 0..n_clauses {
        let a = &clauses[j].auto;
        let b = &old[j].auto;
        for l in 0..old_nl {
            assert_eq!(a.ta[remap(l)], b.ta[l], "ta j={j} l={l}");
            assert_eq!(a.ind[remap(l)], b.ind[l], "ind j={j} l={l}");
        }
        for l in 0..new_nl {
            if !is_old_slot(l) {
                assert_eq!(a.ta[l], half - 1, "new ta slot j={j} l={l}");
                assert_eq!(a.ind[l], half, "new ind slot j={j} l={l}");
            }
            let inc_bit = a.inc[l / WORD_BITS] >> (l % WORD_BITS) & 1;
            assert_eq!(inc_bit == 1, a.ta[l] >= half, "include j={j} l={l}");
            let cat_bit = a.cat[l / WORD_BITS] >> (l % WORD_BITS) & 1;
            let expected = if is_old_slot(l) {
                let ol = if l < old_nf { l } else { l - (new_nf - old_nf) };
                b.cat[ol / WORD_BITS] >> (ol % WORD_BITS) & 1
            } else {
                0
            };
            assert_eq!(cat_bit, expected, "cat j={j} l={l}");
        }
        assert_eq!(clauses[j].weight, old[j].weight);
    }

    for l in 0..new_words * WORD_BITS {
        let bit = wide.valid[l / WORD_BITS] >> (l % WORD_BITS) & 1;
        assert_eq!(bit == 1, l < new_nl, "valid bit {l}");
    }
    for clause in &clauses {
        for l in new_nl..new_words * WORD_BITS {
            assert_eq!(clause.auto.inc[l / WORD_BITS] >> (l % WORD_BITS) & 1, 0);
        }
    }
}

#[test]
fn clause_fire_empty_returns_true() {
    let words = 2usize;
    let inc = vec![0u64; words];
    let lit = vec![0u64; words];
    let valid = vec![!0u64; words];
    let lit_active = vec![!0u64; words];
    assert!(clause_fire(&inc, &lit, &valid, words, &lit_active));
}

#[test]
fn fire_predict_and_clause_fire_differ_on_empty() {
    let words = 1usize;
    let inc = vec![0u64];
    let lit = vec![!0u64];
    let valid = vec![!0u64];
    let lit_active = vec![!0u64];
    assert!(!fire_predict(&inc, &lit, &valid, words), "inference: empty clause must not vote");
    assert!(clause_fire(&inc, &lit, &valid, words, &lit_active), "training: empty clause must fire");
}

#[test]
fn expand_bits_to_bytes_round_trips_pack() {
    let n_features = 6usize;
    let x: Vec<u8> = vec![1, 0, 1, 1, 0, 0];
    let n_literals = 2 * n_features;
    let words = words_for(n_literals);
    let mut lit = vec![0u64; words];
    pack(&x, n_features, &mut lit);

    let bytes = expand_bits_to_bytes(&lit, n_literals);
    assert_eq!(bytes.len(), n_literals);
    for i in 0..n_features {
        assert_eq!(bytes[i], x[i], "positive literal {i}");
        assert_eq!(bytes[n_features + i], 1 - x[i], "negated literal {i}");
    }
}

#[test]
fn rebuild_include_boundary_at_half() {
    let half = 128u8;
    let n_literals = 2usize;
    let words = 1usize;
    let ta = vec![half - 1, half];
    let valid = vec![0b11u64];
    let mut inc = vec![0u64];
    rebuild_include(&ta, &mut inc, &valid, words, n_literals, half);
    assert_eq!(inc[0] & 1, 0, "ta = half-1 must be excluded");
    assert_eq!((inc[0] >> 1) & 1, 1, "ta = half must be included");
}

#[test]
fn rebuild_include_all_excluded() {
    let half = 4u8;
    let n_literals = 8usize;
    let words = 1usize;
    let ta = vec![0u8, 1, 2, 3, 0, 1, 2, 3];
    let valid = vec![0xFFu64];
    let mut inc = vec![!0u64];
    rebuild_include(&ta, &mut inc, &valid, words, n_literals, half);
    assert_eq!(inc[0], 0, "all ta < half must produce an empty include bitset");
}

#[test]
fn rebuild_include_non_multiple_of_32() {
    for &n in &[31usize, 33, 63, 65] {
        let half = 128u8;
        let words = words_for(n);
        let ta: Vec<u8> = (0..n).map(|l| if l % 2 == 0 { half } else { half - 1 }).collect();
        let mut valid = vec![0u64; words];
        for l in 0..n {
            valid[l / WORD_BITS] |= 1u64 << (l % WORD_BITS);
        }
        let mut inc = vec![0u64; words];
        rebuild_include(&ta, &mut inc, &valid, words, n, half);

        for l in 0..n {
            let got: u64 = (inc[l / WORD_BITS] >> (l % WORD_BITS)) & 1;
            let expected: u64 = if l % 2 == 0 { 1 } else { 0 };
            assert_eq!(got, expected, "n={n} literal {l}: expected {expected} got {got}");
        }
    }
}

#[test]
fn state_bits_2_min_constants() {
    let state_bits: usize = 2;
    let half = 1u8 << (state_bits - 1);
    let max_state = ((1u16 << state_bits) - 1) as u8;
    assert_eq!(half, 2u8);
    assert_eq!(max_state, 3u8);
    assert_eq!(3u8.saturating_add(1).min(max_state), 3u8, "saturate at 3");
    assert_eq!(0u8.saturating_sub(1), 0u8, "saturate at 0");
    let g = Geometry::new(4, 2);
    assert_eq!((g.half, g.max_state), (half, max_state));
    assert_eq!(half_from_bits(2), half);
}

#[test]
fn state_bits_8_max_no_overflow() {
    let state_bits: usize = 8;
    let half = 1u8 << (state_bits - 1);
    let max_state = ((1u16 << state_bits) - 1) as u8;
    assert_eq!(half, 128u8);
    assert_eq!(max_state, 255u8);
    assert_eq!(255u8.saturating_add(1).min(max_state), 255u8);
    let g = Geometry::new(4, 8);
    assert_eq!((g.half, g.max_state), (half, max_state));
}

#[test]
fn thresholds_of_all_counter_widths() {
    for bits in 2..=8u8 {
        let g = Geometry::new(10, bits);
        assert_eq!(g.half as u32, 1u32 << (bits - 1));
        assert_eq!(g.max_state as u32, (1u32 << bits) - 1);
    }
}

#[test]
fn type_i_ib_decrements_absent_non_max() {
    let n_literals = 4usize;
    let max_state = 15u8;
    let mut ta = vec![5u8, 1, 0, max_state];
    let lit_b = vec![0u8; 4];
    let inv_b = vec![1u8; 4];
    let keep_b = vec![0u8; 4];
    let active_b = vec![1u8; 4];
    type_i_update_bytes(&mut ta, n_literals, false, false, &lit_b, &inv_b, &keep_b, &active_b, max_state);
    assert_eq!(ta[0], 4, "5 - 1 = 4");
    assert_eq!(ta[1], 0, "1 - 1 = 0");
    assert_eq!(ta[2], 0, "0 - 1 saturates at 0");
    assert_eq!(ta[3], max_state, "max_state is immune to Ib decrement");
}

#[test]
fn type_i_ia_rewards_present_literals() {
    let max_state = 15u8;
    let lit_b = vec![1u8, 1, 0, 1, 1];
    let inv_b = vec![1u8, 1, 1, 1, 1];
    let keep_b = vec![1u8, 0, 1, 1, 1];
    let active_b = vec![1u8, 1, 1, 0, 1];
    // Present and kept, present and not kept, absent and penalised, inactive, at the top.
    let mut ta = vec![5u8, 5, 5, 5, max_state];
    type_i_update_bytes(&mut ta, 5, true, false, &lit_b, &inv_b, &keep_b, &active_b, max_state);
    assert_eq!(ta, vec![6, 5, 4, 5, max_state]);
    // Boosting rewards every present literal.
    let mut boosted = vec![5u8, 5, 5, 5, max_state];
    type_i_update_bytes(&mut boosted, 5, true, true, &lit_b, &inv_b, &keep_b, &active_b, max_state);
    assert_eq!(boosted, vec![6, 6, 4, 5, max_state]);
}

#[test]
fn type_ii_increments_absent_excluded_nonzero() {
    let half = 8u8;
    let max_state = 15u8;
    let n_literals = 5usize;
    let mut ta = vec![3u8, 3, half, 0, half - 1];
    let lit_b = vec![0u8, 1, 0, 0, 0];
    let active_b = vec![1u8; 5];
    type_ii_update_bytes(&mut ta, n_literals, &lit_b, &active_b, half, max_state);
    assert_eq!(ta[0], 4, "absent excluded non-zero → incremented");
    assert_eq!(ta[1], 3, "present → unchanged");
    assert_eq!(ta[2], half, "included (ta≥half) → unchanged");
    assert_eq!(ta[3], 0, "ta=0 (absorbing exclude) → stays at 0");
    assert_eq!(ta[4], half, "absent excluded non-zero incremented to half");
}

#[test]
fn first_false_literal_returns_none_when_fires() {
    let words = 1usize;
    let inc = vec![0b0001u64];
    let lit = vec![0b0111u64];
    let valid = vec![0xFu64];
    let lit_active = vec![!0u64];
    assert_eq!(first_false_literal(&inc, &lit, &valid, &lit_active, words), None);
}

#[test]
fn first_false_literal_finds_blocking_literal() {
    let words = 1usize;
    let inc = vec![0b0101u64];
    let lit = vec![0b0001u64];
    let valid = vec![0xFu64];
    let lit_active = vec![!0u64];
    assert_eq!(first_false_literal(&inc, &lit, &valid, &lit_active, words), Some(2));
}

#[test]
fn first_false_literal_respects_lit_active() {
    let words = 1usize;
    let inc = vec![0b0101u64];
    let lit = vec![0b0001u64];
    let valid = vec![0xFu64];
    let lit_active = vec![0b0001u64];
    assert_eq!(first_false_literal(&inc, &lit, &valid, &lit_active, words), None);
}

#[test]
fn type_iii_update_inverts_cat_on_target_fire() {
    let words = 1usize;
    let n_literals = 4usize;
    let valid = vec![0xFu64];
    let mut ta = vec![0u8; n_literals];
    let mut ind = vec![0u8; n_literals];
    let mut cat = vec![0u64; words];
    let inc = vec![0u64; words];
    let lit = vec![0b0011u64];
    let lit_active = vec![!0u64];
    let mut rng = Rng::new(42);

    let active_b = expand_bits_to_bytes(&lit_active, n_literals);
    type_iii_update(
        &mut ta, &mut ind, &mut cat, &inc, &lit, &valid, &lit_active, &active_b, words, n_literals,
        indicator_gate(200.0), gate(0.0), true, &mut rng, 128, 255,
    );
    assert_eq!(cat[0] & 0xF, 0xF, "cat should be bitwise-NOT of original (all-valid)");
}

#[test]
fn type_iii_update_sets_cat_to_valid_on_non_target_fire() {
    let words = 1usize;
    let n_literals = 4usize;
    let valid = vec![0xFu64];
    let mut ta = vec![0u8; n_literals];
    let mut ind = vec![0u8; n_literals];
    let mut cat = vec![0b0011u64];
    let inc = vec![0u64; words];
    let lit = vec![0b0011u64];
    let lit_active = vec![!0u64];
    let mut rng = Rng::new(42);

    let active_b = expand_bits_to_bytes(&lit_active, n_literals);
    type_iii_update(
        &mut ta, &mut ind, &mut cat, &inc, &lit, &valid, &lit_active, &active_b, words, n_literals,
        indicator_gate(200.0), gate(0.0), false, &mut rng, 128, 255,
    );
    assert_eq!(cat[0] & 0xF, 0xF);
}

#[test]
fn type_iii_update_toggles_cat_on_non_fire() {
    let words = 1usize;
    let n_literals = 4usize;
    let valid = vec![0xFu64];
    let mut ta = vec![128u8; n_literals];
    let mut ind = vec![0u8; n_literals];
    let mut cat = vec![0u64; words];
    let mut inc = vec![0u64; words];
    rebuild_include(&ta, &mut inc, &valid, words, n_literals, 128);

    let lit = vec![0b0000u64];
    let lit_active = vec![!0u64];
    let mut rng = Rng::new(42);

    let active_b = expand_bits_to_bytes(&lit_active, n_literals);
    type_iii_update(
        &mut ta, &mut ind, &mut cat, &inc, &lit, &valid, &lit_active, &active_b, words, n_literals,
        indicator_gate(200.0), gate(0.0), true, &mut rng, 128, 255,
    );
    assert_eq!((cat[0]) & 1, 1, "blocking literal cat bit should be set");
}

#[test]
fn type_iii_update_ta_decrement_removes_low_ind_literals() {
    let words = 1usize;
    let n_literals = 2usize;
    let valid = vec![0x3u64];
    let mut ta = vec![5u8, 5u8];
    let mut ind = vec![6u8, 2u8];
    let mut cat = vec![0u64; words];
    let inc = vec![0u64; words];
    let lit = vec![0u64];
    let lit_active = vec![!0u64];
    let mut rng = Rng::new(0);

    let active_b = expand_bits_to_bytes(&lit_active, n_literals);
    let changed = type_iii_update(
        &mut ta, &mut ind, &mut cat, &inc, &lit, &valid, &lit_active, &active_b, words, n_literals,
        indicator_gate(200.0), gate(1.0), false, &mut rng, 4, 7,
    );
    assert!(changed, "TA state should have been modified");
    assert_eq!(ta[0], 5, "ind[0] >= half_ind → ta[0] unchanged");
    assert_eq!(ta[1], 4, "ind[1] < half_ind → ta[1] decremented");
}

#[test]
fn padding_bits_never_block_a_clause() {
    let valid = vec![0b1111u64];
    // Bits beyond the valid ones are set in the clause, and absent from the sample.
    let inc = vec![0b1_0000u64 | 0b0001];
    let lit = vec![0b0001u64];
    assert!(fire_predict(&inc, &lit, &valid, 1));
    assert!(clause_fire(&inc, &lit, &valid, 1, &[!0u64]));
    assert_eq!(first_false_literal(&inc, &lit, &valid, &[!0u64], 1), None);
}

#[test]
fn literals_come_in_complementary_pairs() {
    let n = 70usize;
    let x: Vec<u8> = (0..n).map(|i| (i % 3 == 0) as u8).collect();
    let mut lit = vec![0u64; words_for(2 * n)];
    pack(&x, n, &mut lit);
    for i in 0..n {
        assert_eq!(get_bit(&lit, i), x[i] != 0);
        assert_eq!(get_bit(&lit, n + i), !get_bit(&lit, i));
    }
}

#[test]
fn inclusion_limit_counts_valid_bits_only() {
    let valid = vec![0b1111u64];
    assert!(under_include_limit(&[0b11_0011u64], &valid, 1, 3));
    assert!(!under_include_limit(&[0b11_0011u64], &valid, 1, 2));
    assert!(under_include_limit(&[0b1111u64], &valid, 1, usize::MAX));
}

#[test]
fn clause_type_ii_blocks_a_false_positive() {
    // Two features: the sample is (1, 0), so literals 0 and 3 are present.
    let half = 4u8;
    let max_state = 7u8;
    let valid = vec![0b1111u64];
    let lit = vec![0b1001u64];
    let mut ta = vec![half, 3, 3, 3];
    let mut inc = vec![0u64; 1];
    rebuild_include(&ta, &mut inc, &valid, 1, 4, half);
    let mut weight = 3i32;
    clause_type_ii_bytes(&mut ta, &mut inc, &mut weight, &lit, &valid, 1, 4, &[!0u64], half, max_state);
    assert_eq!(ta, vec![half, 4, 4, 3]);
    assert_eq!(weight, 2);
    assert!(!clause_fire(&inc, &lit, &valid, 1, &[!0u64]));
}

#[test]
fn clause_type_i_strengthens_a_true_positive() {
    let half = 4u8;
    let max_state = 7u8;
    let valid = vec![0b1111u64];
    let lit = vec![0b1001u64];
    let mut ta = vec![half, 3, 3, 3];
    let mut inc = vec![0u64; 1];
    rebuild_include(&ta, &mut inc, &valid, 1, 4, half);
    let mut weight = 1i32;
    clause_type_i_bytes(
        &mut ta, &mut inc, &mut weight, &lit, &valid, 1, 4, true, &[!0u64], &[0u64], 10, usize::MAX,
        &[!0u64], half, max_state,
    );
    assert_eq!(ta, vec![half + 1, 2, 2, half]);
    assert_eq!(inc[0], 0b1001);
    assert_eq!(weight, 2);
}

#[test]
fn type_ib_leaves_present_literals_alone() {
    let mut ta = vec![5u8, 5];
    type_i_update_bytes(&mut ta, 2, false, false, &[1, 0], &[1, 1], &[0, 0], &[1, 1], 15);
    assert_eq!(ta, vec![5, 4]);
}

#[test]
fn included_words_beyond_the_literals_stay() {
    let ta = [200u8, 3, 128, 255];
    let mut inc = [!0u64, 7, 9];
    rebuild_include(&ta, &mut inc, &[!0u64, !0u64], 1, 3, 128);
    assert_eq!(inc, [0b101, 7, 9]);
}

#[test]
fn type_iii_feedback_leaves_what_lies_beyond_the_literals() {
    // A clause without literals fires; every draw is below the gates.
    let (mut ta, mut ind, mut cat) = ([9u8, 9, 9], [1u8, 3, 5], [0b10u64, 77]);
    let mut rng = Rng::new(5);
    let all = [!0u64, !0u64];
    let changed = type_iii_update(
        &mut ta, &mut ind, &mut cat, &[0, 0], &[0b11, 0], &[0b11, 0], &all, &[1, 1, 1], 1, 2,
        u64::MAX, u64::MAX, true, &mut rng, 4, 7,
    );
    assert!(changed);
    assert_eq!(ind, [0, 4, 5]);
    assert_eq!(ta, [8, 9, 9]);
    assert_eq!(cat, [0b01, 77]);
}

#[test]
fn growing_leaves_no_record_beyond_the_literals() {
    let (narrow, wide) = (Geometry::new(2, 2), Geometry::new(4, 2));
    let mut auto = Automata::from_counters(&narrow, vec![3, 0]);
    assert_eq!(auto.inc, vec![0b01]);
    auto.ind = vec![1, 3];
    auto.cat = vec![0b10];
    let mut clauses = vec![Clause { auto, weight: 1, rng: Rng::new(1) }];
    grow_dense_state(&mut clauses, &narrow, &wide, 1, 2);
    let a = &clauses[0].auto;
    assert_eq!((wide.n_literals, wide.words), (4, 1));
    assert_eq!(a.ta, vec![3, 1, 0, 1]);
    assert_eq!(a.inc, vec![0b0001]);
    assert_eq!(a.ind, vec![1, 2, 3, 2]);
    assert_eq!(a.cat, vec![0b0100]);
    assert_eq!(wide.valid, vec![0b1111]);
}

#[test]
fn a_clause_that_does_not_fire_forgets_without_a_look_at_the_sample() {
    let g = Geometry::new(4, 4);
    let mut auto = Automata::from_counters(&g, vec![5, 5, 9, 15]);
    auto.type_i(&g, false, true, &[1, 0, 1, 0], &[1; 4], &[1; 4], &[1; 4]);
    assert_eq!(auto.ta, vec![4, 4, 8, 15]);
    auto.type_i(&g, true, true, &[1, 0, 1, 0], &[1; 4], &[0; 4], &[1; 4]);
    assert_eq!(auto.ta, vec![5, 3, 9, 15]);
}
