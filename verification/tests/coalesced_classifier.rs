//! The coalesced machine.
use tmu_rs::dyadic::Dyadic;
use tmu_rs::serial::{write_header, TAG_VANILLA};
use tmu_rs::{ClauseInspect, CoalescedTsetlinMachine, Encoder, Rng, SaveLoad};

fn f(x: f64) -> Dyadic {
    Dyadic::from_bits(x.to_bits()).unwrap()
}

#[allow(dead_code)]
fn share(part: (usize, usize)) -> f64 {
    part.0 as f64 / part.1 as f64
}

#[allow(dead_code)]
fn next_f64(rng: &mut Rng) -> f64 {
    rng.next_fraction() as f64 / (1u64 << 53) as f64
}

fn ta(tm: &CoalescedTsetlinMachine) -> Vec<u8> {
    tm.clauses.iter().flat_map(|k| k.auto.ta.iter().copied()).collect()
}

fn included(tm: &CoalescedTsetlinMachine) -> Vec<u64> {
    tm.clauses.iter().flat_map(|k| k.auto.inc.iter().copied()).collect()
}

fn weights(tm: &CoalescedTsetlinMachine) -> Vec<Vec<i32>> {
    tm.weights.clone()
}

fn enc(n_features: usize) -> Encoder {
    Encoder::for_binary(n_features)
}

/// Generate `n` XOR samples (12 random bits, label = bit0 XOR bit1) with optional noise.
fn make_xor(n: usize, noise: f64, seed: u64) -> (Vec<Vec<u8>>, Vec<usize>) {
    let mut rng = Rng::new(seed);
    let mut xs = Vec::with_capacity(n);
    let mut ys = Vec::with_capacity(n);
    for _ in 0..n {
        let f: Vec<u8> = (0..12).map(|_| (rng.next_u64() & 1) as u8).collect();
        let mut y = (f[0] ^ f[1]) as usize;
        if next_f64(&mut rng) < noise {
            y = 1 - y;
        }
        xs.push(f);
        ys.push(y);
    }
    (xs, ys)
}

/// Generate a 4-class problem: y = 2*(b0^b1) + (b2^b3) over 8 bits.
fn make_4class(n: usize, seed: u64) -> (Vec<Vec<u8>>, Vec<usize>) {
    let mut rng = Rng::new(seed);
    let mut xs = Vec::with_capacity(n);
    let mut ys = Vec::with_capacity(n);
    for _ in 0..n {
        let f: Vec<u8> = (0..8).map(|_| (rng.next_u64() & 1) as u8).collect();
        let y = ((f[0] ^ f[1]) as usize) * 2 + (f[2] ^ f[3]) as usize;
        xs.push(f);
        ys.push(y);
    }
    (xs, ys)
}

fn as_slices(xs: &[Vec<u8>]) -> Vec<&[u8]> {
    xs.iter().map(|v| v.as_slice()).collect()
}

#[test]
fn coalesced_learns_xor() {
    let (xtr, ytr) = make_xor(5000, 0.25, 1);
    let (xte, yte) = make_xor(2000, 0.0, 2);
    let e = enc(12);
    let btr = e.encode_batch(&as_slices(&xtr));
    let bte = e.encode_batch(&as_slices(&xte));

    // A small shared bank generalises best on noisy XOR; too many low-T clauses
    // overfit the label noise.
    let mut tm = CoalescedTsetlinMachine::with_config(2, 12, 16, 15, f(3.9), 8, true, 7);
    for _ in 0..40 {
        tm.fit_epoch(&btr, &ytr);
    }
    let acc = share(tm.accuracy(&bte, &yte));
    assert!(acc > 0.95, "expected >0.95, got {acc}");
}

#[test]
fn coalesced_multiclass_4_class_learns() {
    let (xs, ys) = make_4class(3000, 50);
    let (xte, yte) = make_4class(500, 51);
    let e = enc(8);
    let btr = e.encode_batch(&as_slices(&xs));
    let bte = e.encode_batch(&as_slices(&xte));
    // Far fewer clauses than vanilla's n_classes * clauses_per_class would use.
    let mut tm = CoalescedTsetlinMachine::with_config(4, 8, 40, 30, f(3.9), 8, true, 42);
    for _ in 0..40 {
        tm.fit_epoch(&btr, &ys);
    }
    let acc = share(tm.accuracy(&bte, &yte));
    assert!(
        acc > 0.85,
        "4-class coalesced should reach >0.85, got {acc}"
    );
}

#[test]
fn coalesced_classifier_same_seed_same_result() {
    let (xtr, ytr) = make_xor(500, 0.0, 14);
    let e = enc(12);
    let btr = e.encode_batch(&as_slices(&xtr));

    let mut tm1 = CoalescedTsetlinMachine::with_config(2, 12, 16, 10, f(3.0), 8, true, 99);
    let mut tm2 = CoalescedTsetlinMachine::with_config(2, 12, 16, 10, f(3.0), 8, true, 99);
    for _ in 0..5 {
        tm1.fit_epoch(&btr, &ytr);
        tm2.fit_epoch(&btr, &ytr);
    }

    let (xte, yte) = make_xor(200, 0.0, 24);
    let bte = e.encode_batch(&as_slices(&xte));
    assert_eq!(
        share(tm1.accuracy(&bte, &yte)),
        share(tm2.accuracy(&bte, &yte)),
        "same seed must produce identical results"
    );
    for c in 0..2 {
        for j in 0..tm1.n_clauses() {
            assert_eq!(tm1.clause_weight(c, j), tm2.clause_weight(c, j));
        }
    }
}

#[test]
fn coalesced_classifier_predict_batch_matches_single() {
    let (xtr, ytr) = make_xor(300, 0.0, 12);
    let e = enc(12);
    let mut tm = CoalescedTsetlinMachine::with_config(2, 12, 16, 10, f(3.0), 8, true, 42);
    for _ in 0..5 {
        tm.fit_epoch(&e.encode_batch(&as_slices(&xtr)), &ytr);
    }

    let (xte, _) = make_xor(100, 0.0, 22);
    let batch = e.encode_batch(&as_slices(&xte));
    let n = xte.len();
    let w = tm.words_per_sample();

    let from_batch = tm.predict_batch(&batch);
    let from_single: Vec<usize> = (0..n)
        .map(|i| tm.predict_lit(&batch.data[i * w..(i + 1) * w]))
        .collect();
    assert_eq!(from_batch, from_single);
}

#[test]
fn scores_argmax_matches_predict() {
    let (xtr, ytr) = make_4class(2000, 30);
    let e = enc(8);
    let mut tm = CoalescedTsetlinMachine::with_config(4, 8, 40, 30, f(3.9), 8, true, 42);
    for _ in 0..20 {
        tm.fit_epoch(&e.encode_batch(&as_slices(&xtr)), &ytr);
    }
    let (xte, _) = make_4class(200, 31);
    for x in &xte {
        let sample = e.encode_one(x);
        let pred = tm.predict(&sample);
        let mut s = vec![0i32; 4];
        tm.scores(&sample, &mut s);
        // Clamped scores must put the predicted class at (one of) the maxima.
        let max = *s.iter().max().unwrap();
        assert_eq!(
            s[pred], max,
            "predict must agree with a maximal clamped score"
        );
    }
}

#[test]
fn weights_can_go_negative() {
    // Coalesced weights are signed and unbounded; after training both signs
    // must appear across the (class, clause) matrix.
    let (xtr, ytr) = make_4class(3000, 17);
    let btr = enc(8).encode_batch(&as_slices(&xtr));
    let mut tm = CoalescedTsetlinMachine::with_config(4, 8, 40, 30, f(3.9), 8, true, 42);
    for _ in 0..30 {
        tm.fit_epoch(&btr, &ytr);
    }
    let mut any_neg = false;
    let mut any_pos = false;
    for c in 0..tm.n_classes() {
        for j in 0..tm.n_clauses() {
            let w = tm.clause_weight(c, j);
            any_neg |= w < 0;
            any_pos |= w >= 0;
        }
    }
    assert!(any_neg, "some coalesced weights should become negative");
    assert!(any_pos, "some coalesced weights should remain non-negative");
}

#[test]
fn coalesced_classifier_clause_drop_p_one_leaves_state_unchanged() {
    let (xtr, ytr) = make_xor(200, 0.0, 15);
    let btr = enc(12).encode_batch(&as_slices(&xtr));
    let mut tm = CoalescedTsetlinMachine::with_config(2, 12, 16, 10, f(3.0), 8, true, 42)
        .clause_drop_p(f(0.9999));
    let ta_before = ta(&tm).clone();
    tm.fit_epoch(&btr, &ytr);
    let ta_changed = ta(&tm).iter().zip(&ta_before).filter(|(a, b)| a != b).count();
    let total = ta(&tm).len();
    assert!(
        ta_changed < total / 100,
        "drop_p≈1 should leave >99% of state unchanged, but {ta_changed}/{total} changed"
    );
}

#[test]
fn focused_vs_uniform_both_converge() {
    let (xtr, ytr) = make_4class(3000, 18);
    let (xte, yte) = make_4class(500, 28);
    let e = enc(8);
    let btr = e.encode_batch(&as_slices(&xtr));
    let bte = e.encode_batch(&as_slices(&xte));

    let mut tm_uniform = CoalescedTsetlinMachine::with_config(4, 8, 40, 30, f(3.9), 8, true, 42);
    let mut tm_focused = CoalescedTsetlinMachine::with_config(4, 8, 40, 30, f(3.9), 8, true, 42)
        .focused_negative_sampling(true);
    for _ in 0..40 {
        tm_uniform.fit_epoch(&btr, &ytr);
        tm_focused.fit_epoch(&btr, &ytr);
    }
    assert!(
        share(tm_uniform.accuracy(&bte, &yte)) > 0.85,
        "uniform should converge"
    );
    assert!(
        share(tm_focused.accuracy(&bte, &yte)) > 0.85,
        "focused should converge"
    );
}

#[test]
fn coalesced_classifier_clause_rule_consistent_with_include_bitset() {
    let (xtr, ytr) = make_xor(500, 0.0, 65);
    let e = enc(12);
    let btr = e.encode_batch(&as_slices(&xtr));
    let mut tm = CoalescedTsetlinMachine::with_config(2, 12, 16, 10, f(3.0), 8, true, 42);
    tm.fit_epoch(&btr, &ytr);

    let n_literals = 2 * tm.n_features();
    let words = tm.words_per_sample();
    for clause in 0..tm.n_clauses() {
        let rule = tm.clause_rule(clause);
        let bits = included(&tm);
        let inc = &bits[clause * words..(clause + 1) * words];
        let bitset_count: usize = (0..n_literals)
            .filter(|&l| (inc[l / 64] >> (l % 64)) & 1 != 0)
            .count();
        assert_eq!(rule.len(), bitset_count);
    }
}

#[test]
fn large_shared_bank_learns() {
    let (xtr, ytr) = make_4class(3000, 33);
    let (xte, yte) = make_4class(500, 34);
    let e = enc(8);
    let btr = e.encode_batch(&as_slices(&xtr));
    let bte = e.encode_batch(&as_slices(&xte));
    let mut tm = CoalescedTsetlinMachine::with_config(4, 8, 160, 40, f(3.9), 8, true, 42);
    for _ in 0..20 {
        tm.fit_epoch(&btr, &ytr);
    }
    let acc = share(tm.accuracy(&bte, &yte));
    assert!(
        acc > 0.85,
        "large shared bank should reach >0.85, got {acc}"
    );
}

#[test]
fn weights_init_pm_one() {
    let tm = CoalescedTsetlinMachine::with_config(3, 4, 10, 10, f(3.0), 8, true, 1);
    for c in 0..3 {
        for j in 0..10 {
            let w = tm.clause_weight(c, j);
            assert!(w == 1 || w == -1, "initial weight must be ±1, got {w}");
        }
    }
}

#[test]
fn coalesced_classifier_save_load_roundtrip_predicts_identically() {
    let (xtr, ytr) = make_4class(2000, 1);
    let (xte, yte) = make_4class(1000, 2);
    let e = enc(8);
    let btr = e.encode_batch(&as_slices(&xtr));
    let bte = e.encode_batch(&as_slices(&xte));

    let mut tm = CoalescedTsetlinMachine::with_config(4, 8, 24, 20, f(3.9), 8, true, 7)
        .focused_negative_sampling(true);
    for _ in 0..20 {
        tm.fit_epoch(&btr, &ytr);
    }

    let mut buf = Vec::new();
    tm.write_to(&mut buf);
    let loaded = CoalescedTsetlinMachine::read_from(buf.as_slice()).unwrap();

    assert_eq!(tm.predict_batch(&bte), loaded.predict_batch(&bte));
    assert_eq!(share(tm.accuracy(&bte, &yte)), share(loaded.accuracy(&bte, &yte)));
}

#[test]
fn coalesced_classifier_save_load_resumes_training_without_reinit() {
    let (xtr, ytr) = make_4class(2000, 3);
    let (xte, yte) = make_4class(1000, 4);
    let e = enc(8);
    let btr = e.encode_batch(&as_slices(&xtr));
    let bte = e.encode_batch(&as_slices(&xte));

    let mut tm = CoalescedTsetlinMachine::with_config(4, 8, 24, 20, f(3.9), 8, true, 7);
    for _ in 0..15 {
        tm.fit_epoch(&btr, &ytr);
    }

    let mut buf = Vec::new();
    tm.write_to(&mut buf);
    let mut loaded = CoalescedTsetlinMachine::read_from(buf.as_slice()).unwrap();

    for _ in 0..15 {
        tm.fit_epoch(&btr, &ytr);
        loaded.fit_epoch(&btr, &ytr);
    }

    assert_eq!(ta(&tm), ta(&loaded), "TA counters diverged after resume");
    assert_eq!(weights(&tm), weights(&loaded), "weights diverged after resume");
    assert_eq!(share(tm.accuracy(&bte, &yte)), share(loaded.accuracy(&bte, &yte)));
}

#[test]
fn coalesced_classifier_load_rejects_corrupt_data() {
    assert!(CoalescedTsetlinMachine::read_from(&[]).is_err());
    assert!(CoalescedTsetlinMachine::read_from(b"XXXXjunkjunk".as_slice()).is_err());
    // Right magic, wrong type tag (vanilla tag on a coalesced read).
    let mut buf = Vec::new();
    write_header(&mut buf, TAG_VANILLA);
    assert!(CoalescedTsetlinMachine::read_from(buf.as_slice()).is_err());
}

#[test]
fn coalesced_classifier_type_iii_constructs_without_panic() {
    let _tm = CoalescedTsetlinMachine::with_config(2, 12, 16, 15, f(3.9), 8, true, 42)
        .type_iii_feedback(f(200.0));
}

#[test]
fn coalesced_classifier_type_iii_trains_without_panic() {
    let (xtr, ytr) = make_xor(300, 0.0, 7);
    let e = enc(12);
    let btr = e.encode_batch(&as_slices(&xtr));
    let mut tm = CoalescedTsetlinMachine::with_config(2, 12, 16, 15, f(3.9), 8, true, 42)
        .type_iii_feedback(f(200.0));
    for _ in 0..5 {
        tm.fit_epoch(&btr, &ytr);
    }
}

#[test]
fn prediction_ranks_the_unclamped_sums() {
    let (xtr, ytr) = make_4class(500, 3);
    let e = enc(8);
    let mut tm = CoalescedTsetlinMachine::with_config(4, 8, 20, 3, f(3.9), 8, true, 7);
    for _ in 0..5 {
        tm.fit_epoch(&e.encode_batch(&as_slices(&xtr)), &ytr);
    }
    for x in xtr.iter().take(60) {
        let s = e.encode_one(x);
        let fires = |j: usize| {
            let rule = tm.clause_rule(j);
            !rule.is_empty() && rule.iter().all(|&(i, negated)| (x[i] != 0) != negated)
        };
        let sums: Vec<i32> =
            (0..4).map(|c| (0..20).filter(|&j| fires(j)).map(|j| tm.clause_weight(c, j)).sum()).collect();
        let best = sums.iter().max().unwrap();
        assert_eq!(tm.predict(&s), sums.iter().position(|v| v == best).unwrap());
        let mut out = [0i32; 4];
        tm.scores(&s, &mut out);
        for c in 0..4 {
            assert_eq!(out[c], sums[c].clamp(-3, 3));
        }
    }
}

#[test]
fn weights_decide_what_a_clause_speaks_for() {
    let tm = CoalescedTsetlinMachine::with_config(3, 4, 10, 10, f(3.0), 8, true, 1);
    for c in 0..3 {
        for j in 0..10 {
            assert_eq!(tm.clause_is_positive(c, j), tm.clause_weight(c, j) >= 0);
        }
    }
    assert_eq!(ClauseInspect::n_clauses(&tm), 10);
    assert_eq!(ClauseInspect::n_outputs(&tm), 3);
    assert_eq!(ClauseInspect::clause_rule(&tm, 2, 5), tm.clause_rule(5));
}

#[test]
fn coalesced_settings_survive_saving() {
    let (xtr, ytr) = make_4class(300, 3);
    let b = enc(8).encode_batch(&as_slices(&xtr));
    let mut tm = CoalescedTsetlinMachine::with_config(4, 8, 12, 9, f(3.9), 5, false, 7)
        .clause_drop_p(f(0.2))
        .literal_drop_p(f(0.1))
        .max_included_literals(6)
        .type_iii_feedback(f(50.0))
        .focused_negative_sampling(true);
    tm.fit_epoch(&b, &ytr);
    let mut buf = Vec::new();
    tm.write_to(&mut buf);
    let mut loaded = CoalescedTsetlinMachine::read_from(&buf).unwrap();
    for _ in 0..3 {
        tm.fit_epoch(&b, &ytr);
        loaded.fit_epoch(&b, &ytr);
    }
    let (mut x, mut y) = (Vec::new(), Vec::new());
    tm.write_to(&mut x);
    loaded.write_to(&mut y);
    assert_eq!(x, y);
}

#[test]
fn absorbed_shares_of_a_coalesced_machine_start_at_zero() {
    let tm = CoalescedTsetlinMachine::with_config(3, 4, 10, 10, f(3.0), 8, true, 1);
    assert_eq!(tm.absorbed_include_fraction(), (0, 80));
    assert_eq!(tm.absorbed_exclude_fraction(), (0, 80));
}
