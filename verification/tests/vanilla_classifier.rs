//! The weighted multiclass machine.
use tmu_rs::bits::{pack, words_for};
use tmu_rs::clause_bank::dense::{clause_type_i_bytes, clause_type_ii_bytes, fire_predict};
use tmu_rs::dyadic::Dyadic;
use tmu_rs::serial::{write_header, SerialError, TAG_COALESCED, TAG_VANILLA};
use tmu_rs::{ClauseInspect, Encoder, Rng, SaveLoad, TsetlinMachine};

fn f(x: f64) -> Dyadic {
    Dyadic::from_bits(x.to_bits()).unwrap()
}

#[allow(dead_code)]
fn share(part: (usize, usize)) -> f64 {
    part.0 as f64 / part.1 as f64
}

#[allow(dead_code)]
fn next_f64(rng: &mut Rng) -> f64 {
    rng.next_fraction() as f64 / (1u64 << 53) as f64
}

fn scales(w: Vec<f64>) -> Vec<Dyadic> {
    w.into_iter().map(f).collect()
}

fn ta(tm: &TsetlinMachine) -> Vec<u8> {
    tm.state.classes.iter().flat_map(|c| c.clauses.iter()).flat_map(|k| k.auto.ta.iter().copied()).collect()
}

fn included(tm: &TsetlinMachine) -> Vec<u64> {
    tm.state.classes.iter().flat_map(|c| c.clauses.iter()).flat_map(|k| k.auto.inc.iter().copied()).collect()
}

fn ind(tm: &TsetlinMachine) -> Vec<u8> {
    tm.state.classes.iter().flat_map(|c| c.clauses.iter()).flat_map(|k| k.auto.ind.iter().copied()).collect()
}

fn cat(tm: &TsetlinMachine) -> Vec<u64> {
    tm.state.classes.iter().flat_map(|c| c.clauses.iter()).flat_map(|k| k.auto.cat.iter().copied()).collect()
}

fn weights(tm: &TsetlinMachine) -> Vec<i32> {
    tm.state.classes.iter().flat_map(|c| c.clauses.iter()).map(|k| k.weight).collect()
}

fn enc(n_features: usize) -> Encoder {
    Encoder::for_binary(n_features)
}

/// Generate `n` XOR samples (12 random bits, label = bit0 XOR bit1) with optional label noise.
fn make_xor(n: usize, noise: f64, seed: u64) -> (Vec<Vec<u8>>, Vec<usize>) {
    let mut rng = Rng::new(seed);
    let mut xs = Vec::with_capacity(n);
    let mut ys = Vec::with_capacity(n);
    for _ in 0..n {
        let f: Vec<u8> = (0..12).map(|_| (rng.next_u64() & 1) as u8).collect();
        let mut y = (f[0] ^ f[1]) as usize;
        if next_f64(&mut rng) < noise {
            y = 1 - y;
        }
        xs.push(f);
        ys.push(y);
    }
    (xs, ys)
}

/// Convert a slice of owned vectors to a slice of byte slices for API calls.
fn as_slices(xs: &[Vec<u8>]) -> Vec<&[u8]> {
    xs.iter().map(|v| v.as_slice()).collect()
}

/// Zero-pad every sample from its current length up to `n`.
fn pad_to(xs: &[Vec<u8>], n: usize) -> Vec<Vec<u8>> {
    xs.iter()
        .map(|x| {
            let mut p = x.clone();
            p.resize(n, 0);
            p
        })
        .collect()
}

#[test]
fn weighted_learns_xor_with_few_clauses() {
    let (xtr, ytr) = make_xor(5000, 0.25, 1);
    let (xte, yte) = make_xor(2000, 0.0, 2);
    let e = enc(12);
    let btr = e.encode_batch(&as_slices(&xtr));
    let bte = e.encode_batch(&as_slices(&xte));

    let mut tm = TsetlinMachine::with_config(2, 12, 8, 15, f(3.9), 8, true, 7);
    for _ in 0..15 {
        tm.fit_epoch(&btr, &ytr);
    }
    let acc = share(tm.accuracy(&bte, &yte));
    assert!(acc > 0.95, "expected >0.95, got {acc}");
    for c in 0..2 {
        for j in 0..tm.clauses_per_class() {
            assert!((1..=15).contains(&tm.clause_weight(c, j)));
        }
    }
}

#[test]
fn inc_dec_saturate() {
    let tm = TsetlinMachine::with_config(2, 1, 2, 5, f(3.0), 8, true, 1);
    let max_state = tm.config.train.geom.max_state;

    // Saturating increment: adding 1 to max_state stays at max_state.
    assert_eq!(max_state.saturating_add(1).min(max_state), max_state);
    // Saturating decrement: subtracting 1 from 0 stays at 0.
    assert_eq!(0u8.saturating_sub(1), 0);

    // Check the full range for a representative value.
    let mut v = 0u8;
    for _ in 0..1000 {
        v = v.saturating_add(1).min(max_state);
    }
    assert_eq!(v, max_state);
    for _ in 0..1000 {
        v = v.saturating_sub(1);
    }
    assert_eq!(v, 0);
}

#[test]
fn encode_predict_roundtrip_agrees() {
    let (xtr, ytr) = make_xor(500, 0.0, 10);
    let e = enc(12);
    let mut tm = TsetlinMachine::with_config(2, 12, 8, 10, f(3.0), 8, true, 42);
    tm.fit_epoch(&e.encode_batch(&as_slices(&xtr)), &ytr);

    let (xte, _) = make_xor(200, 0.0, 20);
    for x in &xte {
        let s = e.encode_one(x);
        let by_predict = tm.predict(&s);
        let by_lit = tm.predict_lit(&s.0);
        assert_eq!(
            by_predict, by_lit,
            "predict and predict_lit disagree for {x:?}"
        );
    }
}

#[test]
fn vanilla_classifier_accuracy_matches_manual_loop() {
    let (xtr, ytr) = make_xor(500, 0.0, 11);
    let e = enc(12);
    let mut tm = TsetlinMachine::with_config(2, 12, 8, 10, f(3.0), 8, true, 42);
    tm.fit_epoch(&e.encode_batch(&as_slices(&xtr)), &ytr);

    let (xte, yte) = make_xor(300, 0.0, 21);
    let batch = e.encode_batch(&as_slices(&xte));
    let n = xte.len();
    let w = tm.words_per_sample();

    let api_acc = share(tm.accuracy(&batch, &yte));
    let manual_correct = (0..n)
        .filter(|&i| tm.predict_lit(&batch.data[i * w..(i + 1) * w]) == yte[i])
        .count();
    let manual_acc = manual_correct as f64 / n as f64;

    assert!((api_acc - manual_acc).abs() < 1e-12);
}

#[test]
fn vanilla_classifier_predict_batch_matches_single() {
    let (xtr, ytr) = make_xor(300, 0.0, 12);
    let e = enc(12);
    let mut tm = TsetlinMachine::with_config(2, 12, 8, 10, f(3.0), 8, true, 42);
    tm.fit_epoch(&e.encode_batch(&as_slices(&xtr)), &ytr);

    let (xte, _) = make_xor(100, 0.0, 22);
    let batch = e.encode_batch(&as_slices(&xte));
    let n = xte.len();
    let w = tm.words_per_sample();

    let from_batch = tm.predict_batch(&batch);
    let from_single: Vec<usize> = (0..n)
        .map(|i| tm.predict_lit(&batch.data[i * w..(i + 1) * w]))
        .collect();

    assert_eq!(from_batch, from_single);
}

#[test]
fn scores_correct_class_wins_after_training() {
    let (xtr, ytr) = make_xor(2000, 0.0, 13);
    let e = enc(12);
    let mut tm = TsetlinMachine::with_config(2, 12, 10, 15, f(3.9), 8, true, 42);
    for _ in 0..10 {
        tm.fit_epoch(&e.encode_batch(&as_slices(&xtr)), &ytr);
    }

    let (xte, yte) = make_xor(100, 0.0, 23);
    let mut correct = 0usize;
    for (x, &y) in xte.iter().zip(&yte) {
        let sample = e.encode_one(x);
        let mut s = vec![0i32; 2];
        tm.scores(&sample, &mut s);
        let pred = if s[0] >= s[1] { 0 } else { 1 };
        if pred == y {
            correct += 1;
        }
    }
    let acc = correct as f64 / 100.0;
    assert!(acc > 0.90, "scores acc {acc} too low");
}

#[test]
fn vanilla_classifier_clause_is_positive_matches_index_parity() {
    let tm = TsetlinMachine::with_config(3, 4, 6, 10, f(3.0), 8, true, 1);
    for j in 0..tm.clauses_per_class() {
        assert_eq!(tm.clause_is_positive(j), j & 1 == 0);
    }
}

#[test]
fn vanilla_classifier_same_seed_same_result() {
    let (xtr, ytr) = make_xor(500, 0.0, 14);
    let e = enc(12);
    let btr = e.encode_batch(&as_slices(&xtr));

    let mut tm1 = TsetlinMachine::with_config(2, 12, 8, 10, f(3.0), 8, true, 99);
    let mut tm2 = TsetlinMachine::with_config(2, 12, 8, 10, f(3.0), 8, true, 99);
    for _ in 0..5 {
        tm1.fit_epoch(&btr, &ytr);
        tm2.fit_epoch(&btr, &ytr);
    }

    let (xte, yte) = make_xor(200, 0.0, 24);
    let bte = e.encode_batch(&as_slices(&xte));
    assert_eq!(
        share(tm1.accuracy(&bte, &yte)),
        share(tm2.accuracy(&bte, &yte)),
        "same seed must produce identical results"
    );
}

#[test]
fn vanilla_classifier_clause_drop_p_one_leaves_state_unchanged() {
    let (xtr, ytr) = make_xor(200, 0.0, 15);
    let btr = enc(12).encode_batch(&as_slices(&xtr));
    let mut tm =
        TsetlinMachine::with_config(2, 12, 8, 10, f(3.0), 8, true, 42).clause_drop_p(f(0.9999));
    let ta_before = ta(&tm).clone();
    tm.fit_epoch(&btr, &ytr);
    let ta_changed = ta(&tm).iter().zip(&ta_before).filter(|(a, b)| a != b).count();
    let total = ta(&tm).len();
    assert!(
        ta_changed < total / 100,
        "drop_p≈1 should leave >99% of state unchanged, but {ta_changed}/{total} changed"
    );
}

#[test]
fn clause_drop_p_zero_trains_normally() {
    let (xtr, ytr) = make_xor(2000, 0.0, 16);
    let (xte, yte) = make_xor(500, 0.0, 26);
    let e = enc(12);
    let btr = e.encode_batch(&as_slices(&xtr));
    let bte = e.encode_batch(&as_slices(&xte));
    let mut tm =
        TsetlinMachine::with_config(2, 12, 10, 15, f(3.9), 8, true, 42).clause_drop_p(f(0.0));
    for _ in 0..10 {
        tm.fit_epoch(&btr, &ytr);
    }
    let acc = share(tm.accuracy(&bte, &yte));
    assert!(acc > 0.90, "drop_p=0 should still converge, got {acc}");
}

#[test]
fn clause_type_i_stops_including_at_limit() {
    let n_literals = 8usize;
    let words = 1usize;
    let half = 128u8;
    let max_state = 255u8;
    let max_included = 2usize;

    // 2 literals already included (bits 0 and 1 at half=included threshold).
    let mut ta = vec![0u8; n_literals];
    ta[0] = half;
    ta[1] = half;
    let valid = vec![0b1111_1111u64];
    let mut inc = vec![0b11u64]; // bits 0 and 1 set
    let lit = vec![0b1111_1111u64]; // all present
    let inv_mask = vec![!0u64];
    let keep_mask = vec![!0u64];
    let all_active = vec![!0u64];
    let mut weight = 5i32;

    clause_type_i_bytes(
        &mut ta,
        &mut inc,
        &mut weight,
        &lit,
        &valid,
        words,
        n_literals,
        false,
        &inv_mask,
        &keep_mask,
        10,
        max_included,
        &all_active,
        half,
        max_state,
    );

    let n_after = (inc[0] & valid[0]).count_ones() as usize;
    assert!(
        n_after <= max_included,
        "Type Ia added literals beyond limit: {n_after} > {max_included}"
    );
}

#[test]
fn vanilla_classifier_max_included_literals_reduces_clause_size() {
    let (xtr, ytr) = make_xor(2000, 0.0, 17);
    let btr = enc(12).encode_batch(&as_slices(&xtr));

    let mut tm_tight =
        TsetlinMachine::with_config(2, 12, 10, 15, f(3.9), 8, true, 42).max_included_literals(2);
    let mut tm_free = TsetlinMachine::with_config(2, 12, 10, 15, f(3.9), 8, true, 42);
    for _ in 0..10 {
        tm_tight.fit_epoch(&btr, &ytr);
        tm_free.fit_epoch(&btr, &ytr);
    }

    let avg = |tm: &TsetlinMachine| {
        let total: usize = (0..2)
            .flat_map(|c| (0..tm.clauses_per_class()).map(move |j| (c, j)))
            .map(|(c, j)| tm.clause_rule(c, j).len())
            .sum();
        total as f64 / (2 * tm.clauses_per_class()) as f64
    };

    let tight_avg = avg(&tm_tight);
    let free_avg = avg(&tm_free);
    assert!(
        tight_avg < free_avg,
        "max_included_literals=2 should produce smaller clauses: {tight_avg:.2} vs {free_avg:.2}"
    );
}

#[test]
fn multiclass_4_class_learns() {
    let mut rng = Rng::new(50);
    let n = 3000usize;
    let mut xs = Vec::with_capacity(n);
    let mut ys = Vec::with_capacity(n);
    for _ in 0..n {
        let f: Vec<u8> = (0..8).map(|_| (rng.next_u64() & 1) as u8).collect();
        let y = ((f[0] ^ f[1]) as usize) * 2 + (f[2] ^ f[3]) as usize;
        xs.push(f);
        ys.push(y);
    }
    let mut rng2 = Rng::new(51);
    let nte = 500usize;
    let mut xte = Vec::with_capacity(nte);
    let mut yte = Vec::with_capacity(nte);
    for _ in 0..nte {
        let f: Vec<u8> = (0..8).map(|_| (rng2.next_u64() & 1) as u8).collect();
        let y = ((f[0] ^ f[1]) as usize) * 2 + (f[2] ^ f[3]) as usize;
        xte.push(f);
        yte.push(y);
    }

    let e = enc(8);
    let btr = e.encode_batch(&as_slices(&xs));
    let bte = e.encode_batch(&as_slices(&xte));
    let mut tm = TsetlinMachine::with_config(4, 8, 20, 30, f(3.9), 8, true, 42);
    for _ in 0..20 {
        tm.fit_epoch(&btr, &ys);
    }
    let acc = share(tm.accuracy(&bte, &yte));
    assert!(acc > 0.85, "4-class XOR should reach >0.85, got {acc}");
}

#[test]
fn vanilla_classifier_weights_stay_in_1_to_threshold() {
    let threshold = 20i32;
    let (xtr, ytr) = make_xor(1000, 0.1, 18);
    let btr = enc(12).encode_batch(&as_slices(&xtr));
    let mut tm = TsetlinMachine::with_config(2, 12, 12, threshold, f(3.9), 8, true, 42);
    for _ in 0..10 {
        tm.fit_epoch(&btr, &ytr);
    }
    for c in 0..2 {
        for j in 0..tm.clauses_per_class() {
            let w = tm.clause_weight(c, j);
            assert!(
                (1..=threshold).contains(&w),
                "weight {w} out of [1, {threshold}] for clause ({c},{j})"
            );
        }
    }
}

#[test]
fn vanilla_classifier_words_per_sample_correct() {
    for &nf in &[1usize, 32, 63, 64, 65, 100, 128, 784] {
        let tm = TsetlinMachine::with_config(2, nf, 2, 5, f(2.0), 8, true, 1);
        let expected = (2 * nf).div_ceil(64);
        assert_eq!(
            tm.words_per_sample(),
            expected,
            "n_features={nf}: expected {expected} words, got {}",
            tm.words_per_sample()
        );
    }
}

#[test]
fn pack_sets_positive_and_negated_bits() {
    let nf = 4usize;
    let x: Vec<u8> = vec![1, 0, 1, 0];
    let words = (2 * nf).div_ceil(64);
    let mut lit = vec![0u64; words];
    pack(&x, nf, &mut lit);
    let bits = lit[0];
    assert_eq!(bits & 1, 1, "x[0]=1: positive bit should be set");
    assert_eq!((bits >> 1) & 1, 0, "x[1]=0: positive bit should be clear");
    assert_eq!((bits >> 2) & 1, 1, "x[2]=1: positive bit should be set");
    assert_eq!((bits >> 3) & 1, 0, "x[3]=0: positive bit should be clear");
    assert_eq!((bits >> nf) & 1, 0, "x[0]=1: negated bit should be clear");
    assert_eq!(
        (bits >> (nf + 1)) & 1,
        1,
        "x[1]=0: negated bit should be set"
    );
    assert_eq!(
        (bits >> (nf + 2)) & 1,
        0,
        "x[2]=1: negated bit should be clear"
    );
    assert_eq!(
        (bits >> (nf + 3)) & 1,
        1,
        "x[3]=0: negated bit should be set"
    );
}

#[test]
fn fire_predict_empty_clause_returns_false() {
    let words = 2usize;
    let inc = vec![0u64; words];
    let lit = vec![0u64; words];
    let valid = vec![!0u64; words];
    assert!(!fire_predict(&inc, &lit, &valid, words));
}

#[test]
fn fire_predict_satisfied_clause_returns_true() {
    let words = 1usize;
    let inc = vec![1u64]; // bit 0 included
    let lit = vec![1u64]; // bit 0 present
    let valid = vec![1u64];
    assert!(fire_predict(&inc, &lit, &valid, words));
}

#[test]
fn fire_predict_violated_clause_returns_false() {
    let words = 1usize;
    let inc = vec![1u64]; // bit 0 included
    let lit = vec![0u64]; // bit 0 absent → violation
    let valid = vec![1u64];
    assert!(!fire_predict(&inc, &lit, &valid, words));
}

#[test]
fn vanilla_classifier_literal_drop_p_one_leaves_state_unchanged() {
    let (xtr, ytr) = make_xor(200, 0.0, 30);
    let btr = enc(12).encode_batch(&as_slices(&xtr));
    let mut tm =
        TsetlinMachine::with_config(2, 12, 8, 10, f(3.0), 8, true, 42).literal_drop_p(f(0.9999));
    let ta_before = ta(&tm).clone();
    tm.fit_epoch(&btr, &ytr);
    let ta_changed = ta(&tm).iter().zip(&ta_before).filter(|(a, b)| a != b).count();
    let total = ta(&tm).len();
    assert!(
        ta_changed < total / 100,
        "literal_drop_p≈1 should leave >99% of state unchanged, but {ta_changed}/{total} changed"
    );
}

#[test]
fn literal_drop_p_zero_trains_normally() {
    let (xtr, ytr) = make_xor(2000, 0.0, 31);
    let (xte, yte) = make_xor(500, 0.0, 41);
    let e = enc(12);
    let btr = e.encode_batch(&as_slices(&xtr));
    let bte = e.encode_batch(&as_slices(&xte));
    let mut tm =
        TsetlinMachine::with_config(2, 12, 10, 15, f(3.9), 8, true, 42).literal_drop_p(f(0.0));
    for _ in 0..10 {
        tm.fit_epoch(&btr, &ytr);
    }
    let acc = share(tm.accuracy(&bte, &yte));
    assert!(
        acc > 0.90,
        "literal_drop_p=0 should still converge, got {acc}"
    );
}

#[test]
fn absorbing_include_at_max_resists_ib() {
    // A literal at the maximum TA state must survive 1 000 rounds of Type Ib
    // "exclude absent" feedback completely unchanged.
    let n_literals = 1usize;
    let words = 1usize;
    let half = 8u8; // sb=4 → half=8
    let max_state = 15u8; // (1<<4)-1
    // Literal 0 at max state (included); absent from x → violation → Ib path.
    let mut ta = vec![max_state];
    let mut inc = vec![1u64]; // bit 0 included
    let lit = vec![0u64]; // absent
    let valid = vec![1u64];
    let inv_mask = vec![!0u64];
    let keep_mask = vec![!0u64];
    let all_active = vec![!0u64];
    let mut weight = 1i32;

    for _ in 0..1_000 {
        clause_type_i_bytes(
            &mut ta,
            &mut inc,
            &mut weight,
            &lit,
            &valid,
            words,
            n_literals,
            false,
            &inv_mask,
            &keep_mask,
            100,
            usize::MAX,
            &all_active,
            half,
            max_state,
        );
    }

    assert_eq!(
        ta[0], max_state,
        "absorbing max-state literal must resist all Ib decrement pressure"
    );
}

#[test]
fn non_max_include_is_decremented_by_ib() {
    // A literal one step below max (still included: 14 >= half=8) must be
    // decremented by a single Ib round.
    let n_literals = 1usize;
    let words = 1usize;
    let half = 8u8;
    let max_state = 15u8;
    let below_max = max_state - 1; // 14, still included
    let mut ta = vec![below_max];
    let mut inc = vec![1u64]; // included
    let before = ta[0];

    let lit = vec![0u64]; // absent → violation on included literal → Ib path
    let valid = vec![1u64];
    let inv_mask = vec![!0u64];
    let keep_mask = vec![!0u64];
    let all_active = vec![!0u64];
    let mut weight = 1i32;

    clause_type_i_bytes(
        &mut ta,
        &mut inc,
        &mut weight,
        &lit,
        &valid,
        words,
        n_literals,
        false,
        &inv_mask,
        &keep_mask,
        100,
        usize::MAX,
        &all_active,
        half,
        max_state,
    );

    assert_ne!(
        ta[0], before,
        "non-max literal must be decremented by Ib feedback"
    );
}

#[test]
fn absorbing_exclude_at_min_resists_type_ii() {
    // A literal at state 0 (absorbing exclude) must survive 1 000 rounds of
    // Type II "include absent excluded" feedback unchanged.
    let n_literals = 1usize;
    let words = 1usize;
    let half = 8u8;
    let max_state = 15u8;
    // All-zero: every literal at min state; empty clause fires (no violations).
    let mut ta = vec![0u8];
    let mut inc = vec![0u64]; // excluded
    let lit = vec![0u64]; // literal 0 absent from x
    let valid = vec![1u64];
    let all_active = vec![!0u64];
    let mut weight = 5i32;

    for _ in 0..1_000 {
        clause_type_ii_bytes(
            &mut ta,
            &mut inc,
            &mut weight,
            &lit,
            &valid,
            words,
            n_literals,
            &all_active,
            half,
            max_state,
        );
    }

    assert_eq!(
        ta[0], 0,
        "absorbing min-state literal must resist all Type II increment pressure"
    );
}

#[test]
fn absorbing_stabilizes_clause_at_literal_limit() {
    // Two included literals, max_included_literals = 1 (over the limit → always Ib).
    //   literal 0: max state (absorbing) — should survive
    //   literal 1: half (just included, not absorbing) — should be expelled
    // After enough rounds the clause should settle to exactly literal 0.
    let n_literals = 2usize;
    let words = 1usize;
    let half = 8u8;
    let max_state = 15u8;
    let mut ta = vec![max_state, half]; // literal 0 absorbing, literal 1 just included
    let mut inc = vec![0b11u64]; // both included
    let lit = vec![0u64]; // both absent → violations on both → Ib path
    let valid = vec![0b11u64];
    let inv_mask = vec![!0u64];
    let keep_mask = vec![!0u64];
    let all_active = vec![!0u64];
    let mut weight = 1i32;

    for _ in 0..500 {
        clause_type_i_bytes(
            &mut ta,
            &mut inc,
            &mut weight,
            &lit,
            &valid,
            words,
            n_literals,
            false,
            &inv_mask,
            &keep_mask,
            5,
            1,
            &all_active,
            half,
            max_state,
        );
    }

    assert_eq!(inc[0] & 1, 1, "absorbing literal 0 must stay included");
    assert_eq!(
        (inc[0] >> 1) & 1,
        0,
        "non-absorbing literal 1 must be expelled"
    );
}

#[test]
fn state_bits_2_tm_trains_without_panic() {
    // state_bits=2 is the minimum allowed; max_state=3, half=2.
    // This test verifies no panics, no overflows, and a valid accuracy value.
    let (xtr, ytr) = make_xor(500, 0.0, 60);
    let (xte, yte) = make_xor(200, 0.0, 61);
    let e = enc(12);
    let btr = e.encode_batch(&as_slices(&xtr));
    let bte = e.encode_batch(&as_slices(&xte));
    let mut tm = TsetlinMachine::with_config(2, 12, 8, 10, f(3.0), 2, true, 42);
    for _ in 0..5 {
        tm.fit_epoch(&btr, &ytr);
    }
    let acc = share(tm.accuracy(&bte, &yte));
    assert!(
        (0.0..=1.0).contains(&acc),
        "state_bits=2 accuracy out of range: {acc}"
    );
}

#[test]
fn vanilla_classifier_state_bits_8_max_state_is_255() {
    // state_bits=8 is the maximum; max_state must be 255 (computed via u16
    // intermediate to avoid `1u8 << 8` overflow), half must be 128.
    let tm = TsetlinMachine::with_config(2, 4, 2, 5, f(2.0), 8, true, 1);
    assert_eq!(tm.config.train.geom.max_state, 255u8, "state_bits=8 → max_state must be 255");
    assert_eq!(tm.config.train.geom.half, 128u8, "state_bits=8 → half must be 128");
}

#[test]
fn vanilla_classifier_absorbed_fractions_start_at_zero() {
    // Fresh TM: every counter is initialised to half-1 or half, never 0 or
    // max_state, so both absorbing fractions must be exactly 0.
    let tm = TsetlinMachine::with_config(2, 12, 10, 15, f(3.9), 8, true, 42);
    assert_eq!(
        share(tm.absorbed_include_fraction()),
        0.0,
        "fresh TM must have no include-absorbed states"
    );
    assert_eq!(
        share(tm.absorbed_exclude_fraction()),
        0.0,
        "fresh TM must have no exclude-absorbed states"
    );
}

#[test]
fn vanilla_classifier_absorbed_fractions_increase_with_training() {
    // After sufficient training the combined absorbing fraction should be
    // strictly larger than at initialisation (which is 0.0).
    // Use state_bits=4 (max_state=15, half=8) so absorbing states are reachable
    // within a modest number of epochs — state_bits=8 would require 127 increments.
    let (xtr, ytr) = make_xor(3000, 0.0, 62);
    let e = enc(12);
    let btr = e.encode_batch(&as_slices(&xtr));
    let mut tm = TsetlinMachine::with_config(2, 12, 10, 15, f(3.9), 4, true, 42);
    let before = share(tm.absorbed_include_fraction()) + share(tm.absorbed_exclude_fraction());
    for _ in 0..50 {
        tm.fit_epoch(&btr, &ytr);
    }
    let after = share(tm.absorbed_include_fraction()) + share(tm.absorbed_exclude_fraction());
    assert!(
        after > before,
        "absorbing states must grow during training: before={before:.4}, after={after:.4}"
    );
}

#[test]
fn class_weights_unit_same_as_default() {
    // class_weights([1.0, 1.0]) must produce results identical to no weighting.
    let (xtr, ytr) = make_xor(500, 0.0, 70);
    let (xte, yte) = make_xor(200, 0.0, 71);
    let e = enc(12);
    let btr = e.encode_batch(&as_slices(&xtr));
    let bte = e.encode_batch(&as_slices(&xte));

    let mut tm_default = TsetlinMachine::with_config(2, 12, 8, 10, f(3.0), 8, true, 42);
    let mut tm_unit = TsetlinMachine::with_config(2, 12, 8, 10, f(3.0), 8, true, 42)
        .class_weights(scales(vec![1.0, 1.0]));
    for _ in 0..5 {
        tm_default.fit_epoch(&btr, &ytr);
        tm_unit.fit_epoch(&btr, &ytr);
    }
    assert_eq!(
        share(tm_default.accuracy(&bte, &yte)),
        share(tm_unit.accuracy(&bte, &yte)),
        "unit class weights must produce the same result as no weighting"
    );
}

#[test]
fn class_weights_accessor_roundtrip() {
    let tm = TsetlinMachine::with_config(3, 4, 4, 10, f(3.0), 8, true, 1)
        .class_weights(scales(vec![1.0, 2.0, 0.5]));
    assert!((f64::from_bits(tm.class_weight(0).to_bits()) - 1.0).abs() < 1e-12);
    assert!((f64::from_bits(tm.class_weight(1).to_bits()) - 2.0).abs() < 1e-12);
    assert!((f64::from_bits(tm.class_weight(2).to_bits()) - 0.5).abs() < 1e-12);
}

#[test]
fn class_weights_high_weight_increases_minority_recall() {
    // Build an imbalanced 2-class dataset: class 0 has 9x more samples.
    // With matching inverse-frequency weights the minority class (1) recall
    // should improve relative to uniform-weight training.
    let mut rng = Rng::new(80);
    let n = 2000usize;
    let mut xs = Vec::with_capacity(n);
    let mut ys = Vec::with_capacity(n);
    for _ in 0..n {
        let f: Vec<u8> = (0..8).map(|_| (rng.next_u64() & 1) as u8).collect();
        // Class 1 only when both f[0] and f[1] are 1 (~25% natural freq).
        // Then downsample class 1 to ~10% by rejection.
        let natural_y = (f[0] & f[1]) as usize;
        let y = if natural_y == 1 && next_f64(&mut rng) > 0.4 {
            0
        } else {
            natural_y
        };
        xs.push(f);
        ys.push(y);
    }
    let class1_count = ys.iter().filter(|&&y| y == 1).count();
    let class0_count = n - class1_count;

    let e = enc(8);
    let btr = e.encode_batch(&as_slices(&xs));

    // Inverse-frequency weights: weight[c] = n / (n_classes * count[c]).
    let w0 = n as f64 / (2.0 * class0_count as f64);
    let w1 = n as f64 / (2.0 * class1_count as f64);

    let mut tm_balanced =
        TsetlinMachine::with_config(2, 8, 20, 20, f(3.0), 8, true, 42).class_weights(scales(vec![w0, w1]));
    let mut tm_uniform = TsetlinMachine::with_config(2, 8, 20, 20, f(3.0), 8, true, 42);
    for _ in 0..15 {
        tm_balanced.fit_epoch(&btr, &ys);
        tm_uniform.fit_epoch(&btr, &ys);
    }

    // Measure per-class recall on training set.
    let recall_c1 = |tm: &TsetlinMachine| -> f64 {
        let w = tm.words_per_sample();
        let data = btr.data.as_slice();
        let (correct, total) =
            (0..n)
                .filter(|&i| ys[i] == 1)
                .fold((0usize, 0usize), |(c, t), i| {
                    let pred = tm.predict_lit(&data[i * w..(i + 1) * w]);
                    (c + (pred == 1) as usize, t + 1)
                });
        if total == 0 {
            0.0
        } else {
            correct as f64 / total as f64
        }
    };

    let recall_balanced = recall_c1(&tm_balanced);
    let recall_uniform = recall_c1(&tm_uniform);
    assert!(
        recall_balanced >= recall_uniform,
        "inverse-frequency weights should improve minority-class recall: \
         balanced={recall_balanced:.3} uniform={recall_uniform:.3}"
    );
}

#[test]
fn class_weights_very_high_clamped_safe() {
    // Weights >> 1 saturate p at 1.0 (clamp); must not panic and clause
    // weights must remain in [1, threshold].
    let (xtr, ytr) = make_xor(300, 0.0, 90);
    let btr = enc(12).encode_batch(&as_slices(&xtr));
    let threshold = 10i32;
    let mut tm = TsetlinMachine::with_config(2, 12, 8, threshold, f(3.0), 8, true, 42)
        .class_weights(scales(vec![1000.0, 1000.0]));
    for _ in 0..5 {
        tm.fit_epoch(&btr, &ytr);
    }
    for c in 0..2 {
        for j in 0..tm.clauses_per_class() {
            let w = tm.clause_weight(c, j);
            assert!(
                (1..=threshold).contains(&w),
                "clause ({c},{j}) weight {w} out of [1, {threshold}] with very high class weight"
            );
        }
    }
}

#[test]
fn class_weights_near_zero_suppresses_clause_updates() {
    // A weight of 1e-9 multiplies p by ~0; over 1000 training steps the
    // probability of any single clause receiving Type Ia feedback is ~1e-6.
    // All clause weights for the suppressed class must remain at the initial
    // value of 1; class 1 (weight 1.0) must evolve normally.
    let (xtr, ytr) = make_xor(200, 0.0, 91);
    let btr = enc(12).encode_batch(&as_slices(&xtr));
    let cps = 12usize;
    let mut tm = TsetlinMachine::with_config(2, 12, cps, 10, f(3.0), 8, true, 42)
        .class_weights(scales(vec![1e-9, 1.0]));
    for _ in 0..5 {
        tm.fit_epoch(&btr, &ytr);
    }
    let all_frozen = (0..cps).all(|j| tm.clause_weight(0, j) == 1);
    assert!(
        all_frozen,
        "near-zero class weight should keep all clause weights at initial value 1"
    );
    let any_evolved = (0..cps).any(|j| tm.clause_weight(1, j) > 1);
    assert!(
        any_evolved,
        "class 1 with weight 1.0 should evolve normally"
    );
}

#[test]
fn class_weights_same_seed_same_result() {
    // Same seed + same asymmetric weights must produce bit-identical outcomes.
    let (xtr, ytr) = make_xor(500, 0.0, 92);
    let (xte, yte) = make_xor(200, 0.0, 93);
    let e = enc(12);
    let btr = e.encode_batch(&as_slices(&xtr));
    let bte = e.encode_batch(&as_slices(&xte));

    let weights = vec![2.0, 0.5];
    let mut tm1 = TsetlinMachine::with_config(2, 12, 8, 10, f(3.0), 8, true, 99)
        .class_weights(scales(weights.clone()));
    let mut tm2 =
        TsetlinMachine::with_config(2, 12, 8, 10, f(3.0), 8, true, 99).class_weights(scales(weights));
    for _ in 0..5 {
        tm1.fit_epoch(&btr, &ytr);
        tm2.fit_epoch(&btr, &ytr);
    }
    assert_eq!(
        share(tm1.accuracy(&bte, &yte)),
        share(tm2.accuracy(&bte, &yte)),
        "class_weights must not break determinism for the same seed"
    );
    for c in 0..2 {
        for j in 0..tm1.clauses_per_class() {
            assert_eq!(
                tm1.clause_weight(c, j),
                tm2.clause_weight(c, j),
                "clause ({c},{j}) weight differs between identical runs"
            );
        }
    }
}

#[test]
fn class_weights_multiclass_independent_per_class() {
    // 4-class problem: freeze classes 0 and 2 (weight ≈ 0), train 1 and 3
    // normally (weight 1.0). Frozen classes must have all clause weights at 1;
    // active classes must have at least one clause weight above 1.
    let mut rng = Rng::new(94);
    let n = 1000usize;
    let mut xs = Vec::with_capacity(n);
    let mut ys = Vec::with_capacity(n);
    for _ in 0..n {
        let f: Vec<u8> = (0..8).map(|_| (rng.next_u64() & 1) as u8).collect();
        let y = ((f[0] ^ f[1]) as usize) * 2 + (f[2] ^ f[3]) as usize;
        xs.push(f);
        ys.push(y);
    }
    let btr = enc(8).encode_batch(&as_slices(&xs));
    let cps = 10usize;

    let mut tm = TsetlinMachine::with_config(4, 8, cps, 15, f(3.0), 8, true, 42)
        .class_weights(scales(vec![1e-9, 1.0, 1e-9, 1.0]));
    for _ in 0..10 {
        tm.fit_epoch(&btr, &ys);
    }

    for &frozen in &[0usize, 2usize] {
        let all_at_one = (0..cps).all(|j| tm.clause_weight(frozen, j) == 1);
        assert!(
            all_at_one,
            "frozen class {frozen} should have all clause weights at initial 1"
        );
    }
    for &active in &[1usize, 3usize] {
        let any_evolved = (0..cps).any(|j| tm.clause_weight(active, j) > 1);
        assert!(
            any_evolved,
            "active class {active} should have some clause weights > 1 after training"
        );
    }
}

#[test]
fn scores_are_clamped_to_threshold() {
    let threshold = 10i32;
    let (xtr, ytr) = make_xor(500, 0.0, 63);
    let e = enc(12);
    let btr = e.encode_batch(&as_slices(&xtr));
    let mut tm = TsetlinMachine::with_config(2, 12, 8, threshold, f(3.0), 8, true, 42);
    for _ in 0..5 {
        tm.fit_epoch(&btr, &ytr);
    }
    let (xte, _) = make_xor(50, 0.0, 64);
    for x in &xte {
        let sample = e.encode_one(x);
        let mut s = vec![0i32; 2];
        tm.scores(&sample, &mut s);
        for (c, &sc) in s.iter().enumerate() {
            assert!(
                sc >= -threshold && sc <= threshold,
                "class {c} score {sc} is outside [-{threshold}, {threshold}]"
            );
        }
    }
}

#[test]
fn vanilla_classifier_clause_rule_consistent_with_include_bitset() {
    // clause_rule() must report exactly the same set of included literals
    // as a direct popcount of the include bitset.
    let (xtr, ytr) = make_xor(500, 0.0, 65);
    let e = enc(12);
    let btr = e.encode_batch(&as_slices(&xtr));
    let mut tm = TsetlinMachine::with_config(2, 12, 8, 10, f(3.0), 8, true, 42);
    tm.fit_epoch(&btr, &ytr);

    let n_literals = 2 * tm.n_features();
    let words = tm.words_per_sample();
    for class in 0..tm.n_classes() {
        for clause in 0..tm.clauses_per_class() {
            let rule = tm.clause_rule(class, clause);
            let cj = class * tm.clauses_per_class() + clause;
            let bits = included(&tm);
            let inc = &bits[cj * words..(cj + 1) * words];
            let bitset_count: usize = (0..n_literals)
                .filter(|&l| (inc[l / 64] >> (l % 64)) & 1 != 0)
                .count();
            assert_eq!(
                rule.len(),
                bitset_count,
                "clause ({class},{clause}): rule has {} literals but bitset has {}",
                rule.len(),
                bitset_count
            );
        }
    }
}

#[test]
fn vanilla_classifier_save_load_roundtrip_predicts_identically() {
    let (xtr, ytr) = make_xor(2000, 0.1, 1);
    let (xte, yte) = make_xor(1000, 0.0, 2);
    let e = enc(12);
    let btr = e.encode_batch(&as_slices(&xtr));
    let bte = e.encode_batch(&as_slices(&xte));

    let mut tm = TsetlinMachine::with_config(2, 12, 8, 15, f(3.9), 8, true, 7)
        .clause_drop_p(f(0.1))
        .literal_drop_p(f(0.1))
        .class_weights(scales(vec![1.0, 2.0]));
    for _ in 0..10 {
        tm.fit_epoch(&btr, &ytr);
    }

    // Round-trip through an in-memory buffer.
    let mut buf = Vec::new();
    tm.write_to(&mut buf);
    let loaded = TsetlinMachine::read_from(buf.as_slice()).unwrap();

    // Predictions must be bit-identical.
    assert_eq!(tm.predict_batch(&bte), loaded.predict_batch(&bte));
    assert_eq!(share(tm.accuracy(&bte, &yte)), share(loaded.accuracy(&bte, &yte)));
}

#[test]
fn vanilla_classifier_save_load_resumes_training_without_reinit() {
    let (xtr, ytr) = make_xor(2000, 0.1, 3);
    let (xte, yte) = make_xor(1000, 0.0, 4);
    let e = enc(12);
    let btr = e.encode_batch(&as_slices(&xtr));
    let bte = e.encode_batch(&as_slices(&xte));

    let mut tm = TsetlinMachine::with_config(2, 12, 8, 15, f(3.9), 8, true, 7);
    for _ in 0..8 {
        tm.fit_epoch(&btr, &ytr);
    }

    // Save, reload, and keep training both copies in lockstep.
    let mut buf = Vec::new();
    tm.write_to(&mut buf);
    let mut loaded = TsetlinMachine::read_from(buf.as_slice()).unwrap();

    for _ in 0..8 {
        tm.fit_epoch(&btr, &ytr);
        loaded.fit_epoch(&btr, &ytr);
    }

    // Resumed training must follow the exact same RNG streams.
    assert_eq!(ta(&tm), ta(&loaded), "TA counters diverged after resume");
    assert_eq!(weights(&tm), weights(&loaded), "weights diverged after resume");
    assert_eq!(share(tm.accuracy(&bte, &yte)), share(loaded.accuracy(&bte, &yte)));
}

#[test]
fn vanilla_classifier_load_rejects_corrupt_data() {
    // Empty / truncated input.
    assert!(TsetlinMachine::read_from(&[]).is_err());
    // Bad magic.
    assert!(TsetlinMachine::read_from(b"XXXXjunkjunk".as_slice()).is_err());
    // Right magic, wrong type tag (coalesced tag on a vanilla read).
    let mut buf = Vec::new();
    write_header(&mut buf, TAG_COALESCED);
    assert!(TsetlinMachine::read_from(buf.as_slice()).is_err());
}

#[test]
fn vanilla_classifier_type_iii_constructs_without_panic() {
    let _tm =
        TsetlinMachine::with_config(2, 12, 8, 10, f(3.0), 8, true, 42).type_iii_feedback(f(200.0));
}

#[test]
fn vanilla_classifier_type_iii_trains_without_panic() {
    let (xtr, ytr) = make_xor(200, 0.0, 7);
    let e = enc(12);
    let btr = e.encode_batch(&as_slices(&xtr));
    let mut tm =
        TsetlinMachine::with_config(2, 12, 8, 10, f(3.0), 8, true, 42).type_iii_feedback(f(200.0));
    for _ in 0..5 {
        tm.fit_epoch(&btr, &ytr);
    }
}

#[test]
fn type_iii_learns_xor() {
    let (xtr, ytr) = make_xor(1000, 0.0, 9);
    let (xte, yte) = make_xor(500, 0.0, 10);
    let e = enc(12);
    let btr = e.encode_batch(&as_slices(&xtr));
    let bte = e.encode_batch(&as_slices(&xte));
    let mut tm =
        TsetlinMachine::with_config(2, 12, 20, 10, f(3.0), 8, true, 42).type_iii_feedback(f(200.0));
    for _ in 0..20 {
        tm.fit_epoch(&btr, &ytr);
    }
    let acc = share(tm.accuracy(&bte, &yte));
    assert!(acc > 0.70, "Type III XOR accuracy too low: {acc:.3}");
}

#[test]
fn type_iii_ind_and_cat_same_size_as_ta_and_include() {
    let tm =
        TsetlinMachine::with_config(2, 12, 8, 10, f(3.0), 8, true, 42).type_iii_feedback(f(100.0));
    assert_eq!(ind(&tm).len(), ta(&tm).len());
    assert_eq!(cat(&tm).len(), included(&tm).len());
}

#[test]
fn use_parallel_wide_few_clauses_inference() {
    // 32 clauses per class of 8 words each: predictions of a batch must be those of its samples, and
    // the machine must learn.
    let nf = 256;
    let mut rng = Rng::new(5);
    let mut gen_batch = |n: usize| -> (Vec<Vec<u8>>, Vec<usize>) {
        let mut xs = Vec::new();
        let mut ys = Vec::new();
        for _ in 0..n {
            let f: Vec<u8> = (0..nf).map(|_| (rng.next_u64() & 1) as u8).collect();
            ys.push((f[0] ^ f[1]) as usize);
            xs.push(f);
        }
        (xs, ys)
    };
    let (xtr, ytr) = gen_batch(2000);
    let (xte, yte) = gen_batch(500);
    let e = enc(nf);
    let btr = e.encode_batch(&as_slices(&xtr));
    let bte = e.encode_batch(&as_slices(&xte));
    let mut tm = TsetlinMachine::with_config(2, nf, 32, 15, f(3.9), 8, true, 7);
    for _ in 0..20 {
        tm.fit_epoch(&btr, &ytr);
    }
    let w = tm.words_per_sample();
    let batch = tm.predict_batch(&bte);
    for (i, &p) in batch.iter().enumerate() {
        assert_eq!(p, tm.predict_lit(&bte.data[i * w..(i + 1) * w]));
    }
    assert!(
        share(tm.accuracy(&bte, &yte)) > 0.9,
        "wide/few-clause model failed to learn"
    );
}

#[test]
fn data_parallel_learns_xor() {
    // With data_parallel(true), fit_epoch uses the approximate data-parallel
    // path when large enough; it must still learn noisy XOR to high accuracy.
    let (xtr, ytr) = make_xor(6000, 0.1, 1);
    let (xte, yte) = make_xor(2000, 0.0, 2);
    let e = enc(12);
    let btr = e.encode_batch(&as_slices(&xtr));
    let bte = e.encode_batch(&as_slices(&xte));
    let mut tm =
        TsetlinMachine::with_config(2, 12, 40, 15, f(3.9), 8, true, 7).data_parallel(true);
    for _ in 0..30 {
        tm.fit_epoch_threads(&btr, &ytr, 4);
    }
    let acc = share(tm.accuracy(&bte, &yte));
    assert!(acc > 0.95, "data_parallel XOR accuracy too low: {acc}");
}

#[test]
fn vanilla_classifier_grow_preserves_predictions() {
    let (xtr, ytr) = make_xor(3000, 0.1, 5);
    let (xte, _) = make_xor(500, 0.0, 6);
    let e12 = enc(12);
    let btr = e12.encode_batch(&as_slices(&xtr));

    let mut tm = TsetlinMachine::with_config(2, 12, 8, 15, f(3.9), 8, true, 7);
    for _ in 0..20 {
        tm.fit_epoch(&btr, &ytr);
    }

    let bte12 = e12.encode_batch(&as_slices(&xte));
    let preds_before = tm.predict_batch(&bte12);
    let scores_before: Vec<[i32; 2]> = xte
        .iter()
        .map(|x| {
            let mut out = [0i32; 2];
            tm.scores(&e12.encode_one(x), &mut out);
            out
        })
        .collect();

    tm.grow_features(20);
    assert_eq!(tm.n_features(), 20);
    assert_eq!(tm.words_per_sample(), words_for(40));

    // Same rows, zero-padded to the new width: predictions and per-class
    // scores must be bit-identical (new literals are all excluded).
    let e20 = enc(20);
    let xte20 = pad_to(&xte, 20);
    let bte20 = e20.encode_batch(&as_slices(&xte20));
    assert_eq!(tm.predict_batch(&bte20), preds_before);
    for (x, before) in xte20.iter().zip(&scores_before) {
        let mut out = [0i32; 2];
        tm.scores(&e20.encode_one(x), &mut out);
        assert_eq!(&out, before, "scores changed after grow for {x:?}");
    }
}

#[test]
fn vanilla_classifier_grow_noop_when_equal() {
    let (xtr, ytr) = make_xor(500, 0.0, 8);
    let e = enc(12);
    let btr = e.encode_batch(&as_slices(&xtr));
    let mut tm = TsetlinMachine::with_config(2, 12, 8, 10, f(3.0), 8, true, 42);
    tm.fit_epoch(&btr, &ytr);

    let (ta0, inc0) = (ta(&tm).clone(), included(&tm).clone());
    tm.grow_features(12);
    assert_eq!(tm.n_features(), 12);
    assert_eq!(ta(&tm), ta0);
    assert_eq!(included(&tm), inc0);
}

#[test]
fn vanilla_classifier_grow_preserves_clause_rules() {
    let (xtr, ytr) = make_xor(2000, 0.1, 9);
    let e = enc(12);
    let btr = e.encode_batch(&as_slices(&xtr));
    let mut tm = TsetlinMachine::with_config(2, 12, 8, 15, f(3.9), 8, true, 7);
    for _ in 0..10 {
        tm.fit_epoch(&btr, &ytr);
    }

    let rules_before: Vec<Vec<(usize, bool)>> = (0..2)
        .flat_map(|c| (0..tm.clauses_per_class()).map(move |j| (c, j)))
        .map(|(c, j)| tm.clause_rule(c, j))
        .collect();

    tm.grow_features(30);

    // Feature indices and negation flags are stable across the grow, so the
    // interpretability mapping must be unchanged.
    let rules_after: Vec<Vec<(usize, bool)>> = (0..2)
        .flat_map(|c| (0..tm.clauses_per_class()).map(move |j| (c, j)))
        .map(|(c, j)| tm.clause_rule(c, j))
        .collect();
    assert_eq!(rules_before, rules_after);
}

#[test]
fn vanilla_classifier_grow_then_learns_new_feature() {
    // Pre-train on XOR over the first 12 features.
    let (xtr, ytr) = make_xor(2000, 0.1, 10);
    let e12 = enc(12);
    let mut tm = TsetlinMachine::with_config(2, 12, 8, 15, f(3.9), 8, true, 7);
    let btr = e12.encode_batch(&as_slices(&xtr));
    for _ in 0..10 {
        tm.fit_epoch(&btr, &ytr);
    }

    tm.grow_features(16);

    // New task determined solely by an appended feature: label = bit 14.
    let mut rng = Rng::new(99);
    let make = |rng: &mut Rng, n: usize| -> (Vec<Vec<u8>>, Vec<usize>) {
        let mut xs = Vec::with_capacity(n);
        let mut ys = Vec::with_capacity(n);
        for _ in 0..n {
            let f: Vec<u8> = (0..16).map(|_| (rng.next_u64() & 1) as u8).collect();
            ys.push(f[14] as usize);
            xs.push(f);
        }
        (xs, ys)
    };
    let (xtr2, ytr2) = make(&mut rng, 3000);
    let (xte2, yte2) = make(&mut rng, 1000);

    let e16 = enc(16);
    let btr2 = e16.encode_batch(&as_slices(&xtr2));
    let bte2 = e16.encode_batch(&as_slices(&xte2));
    for _ in 0..15 {
        tm.fit_epoch(&btr2, &ytr2);
    }
    let acc = share(tm.accuracy(&bte2, &yte2));
    assert!(acc >= 0.95, "grown TM failed to learn new feature: {acc}");
}

#[test]
fn grow_with_type_iii_continues_training() {
    let (xtr, ytr) = make_xor(1000, 0.1, 11);
    let e12 = enc(12);
    let btr = e12.encode_batch(&as_slices(&xtr));
    let mut tm =
        TsetlinMachine::with_config(2, 12, 8, 15, f(3.9), 8, true, 7).type_iii_feedback(f(200.0));
    for _ in 0..5 {
        tm.fit_epoch(&btr, &ytr);
    }

    tm.grow_features(18);
    assert_eq!(ind(&tm).len(), ta(&tm).len());
    assert_eq!(cat(&tm).len(), included(&tm).len());

    let e18 = enc(18);
    let xtr18 = pad_to(&xtr, 18);
    let btr18 = e18.encode_batch(&as_slices(&xtr18));
    for _ in 0..5 {
        tm.fit_epoch(&btr18, &ytr);
    }

    // clause_rule must stay consistent with the include bitset after growing.
    for class in 0..2 {
        for clause in 0..tm.clauses_per_class() {
            let rule = tm.clause_rule(class, clause);
            let cj = class * tm.clauses_per_class() + clause;
            let bits = included(&tm);
            let inc = &bits[cj * tm.words_per_sample()..(cj + 1) * tm.words_per_sample()];
            let bitset_count: u32 = inc.iter().map(|w| w.count_ones()).sum();
            assert_eq!(rule.len(), bitset_count as usize);
        }
    }
}

#[test]
fn vanilla_classifier_grown_model_serde_roundtrip() {
    let (xtr, ytr) = make_xor(2000, 0.1, 12);
    let (xte, _) = make_xor(500, 0.0, 13);
    let e12 = enc(12);
    let btr = e12.encode_batch(&as_slices(&xtr));
    let mut tm = TsetlinMachine::with_config(2, 12, 8, 15, f(3.9), 8, true, 7);
    for _ in 0..8 {
        tm.fit_epoch(&btr, &ytr);
    }

    tm.grow_features(20);
    let e20 = enc(20);
    let xtr20 = pad_to(&xtr, 20);
    let btr20 = e20.encode_batch(&as_slices(&xtr20));
    for _ in 0..4 {
        tm.fit_epoch(&btr20, &ytr);
    }

    let mut buf = Vec::new();
    tm.write_to(&mut buf);
    let loaded = TsetlinMachine::read_from(buf.as_slice()).unwrap();

    let bte20 = e20.encode_batch(&as_slices(&pad_to(&xte, 20)));
    assert_eq!(tm.predict_batch(&bte20), loaded.predict_batch(&bte20));
}

#[test]
fn a_new_machine_has_the_documented_defaults() {
    let tm = TsetlinMachine::new(3, 7, 4, 9, f(3.9));
    assert_eq!((tm.n_classes(), tm.n_features(), tm.clauses_per_class()), (3, 7, 4));
    assert_eq!(tm.s().to_bits(), 3.9f64.to_bits());
    let same = TsetlinMachine::with_config(3, 7, 4, 9, f(3.9), 8, true, 42);
    assert_eq!(ta(&tm), ta(&same));
    assert!(weights(&tm).iter().all(|&w| w == 1));
    assert!(ta(&tm).iter().all(|&t| t == 127 || t == 128));
}

#[test]
fn first_counters_follow_the_stream() {
    let tm = TsetlinMachine::with_config(2, 3, 2, 5, f(2.0), 4, true, 11);
    let mut rng = Rng::new(11);
    let want: Vec<u8> = (0..2 * 2 * 6).map(|_| if rng.next_u64() & 1 == 0 { 7 } else { 8 }).collect();
    assert_eq!(ta(&tm), want);
}

#[test]
fn ties_go_to_the_first_class() {
    // No clause of a blank sample fires in a machine whose clauses include nothing.
    let mut tm = TsetlinMachine::with_config(3, 4, 2, 5, f(2.0), 8, true, 1);
    let e = enc(4);
    let b = e.encode_batch(&[&[0u8, 0, 0, 0]]);
    for class in tm.state.classes.iter_mut() {
        for clause in class.clauses.iter_mut() {
            clause.auto.ta.iter_mut().for_each(|t| *t = 0);
            clause.auto.inc.iter_mut().for_each(|w| *w = 0);
        }
    }
    assert_eq!(tm.predict_batch(&b), vec![0]);
    let mut out = [7i32; 3];
    tm.scores(&e.encode_one(&[1, 1, 0, 0]), &mut out);
    assert_eq!(out, [0, 0, 0]);
    assert!(tm.fired_clauses(&e.encode_one(&[1, 1, 0, 0]), 1).is_empty());
}

#[test]
fn scores_are_signed_sums_of_fired_weights() {
    let (xtr, ytr) = make_xor(500, 0.1, 77);
    let e = enc(12);
    let mut tm = TsetlinMachine::with_config(2, 12, 10, 9, f(3.9), 8, true, 5);
    for _ in 0..5 {
        tm.fit_epoch(&e.encode_batch(&as_slices(&xtr)), &ytr);
    }
    for x in xtr.iter().take(50) {
        let s = e.encode_one(x);
        let mut out = [0i32; 2];
        tm.scores(&s, &mut out);
        for class in 0..2 {
            let sum: i32 = tm
                .fired_clauses(&s, class)
                .iter()
                .map(|&j| if tm.clause_is_positive(j) { tm.clause_weight(class, j) } else { -tm.clause_weight(class, j) })
                .sum();
            assert_eq!(out[class], sum.clamp(-9, 9));
        }
    }
}

#[test]
fn dropped_literals_keep_their_counters() {
    let (xtr, ytr) = make_xor(50, 0.0, 3);
    let e = enc(12);
    let mut tm = TsetlinMachine::with_config(2, 12, 4, 9, f(3.9), 8, true, 5).literal_drop_p(f(0.5));
    let digits = tmu_rs::dyadic::digits_of(f(0.5).one_minus().chance(), tmu_rs::clause_bank::dense::MASK_BITS);
    let start = ta(&tm);
    for i in 0..50 {
        // The mask that the step draws, from a copy of the stream.
        let mut stream = tm.state.literal_rng.clone();
        let active = tmu_rs::sampling::bernoulli_mask(&mut stream, &digits, 1)[0];
        let before = ta(&tm);
        tm.fit_one(&e.encode_one(&xtr[i]), ytr[i]);
        let after = ta(&tm);
        for l in 0..before.len() {
            if active >> (l % 24) & 1 == 0 {
                assert_eq!(before[l], after[l]);
            }
        }
        assert_eq!(tm.state.literal_rng.raw(), stream.raw());
    }
    assert_ne!(ta(&tm), start);
}

#[test]
fn replicas_that_agree_merge_to_themselves() {
    let (xtr, ytr) = make_xor(100, 0.0, 3);
    let mut tm = TsetlinMachine::with_config(2, 12, 4, 9, f(3.9), 8, true, 5);
    tm.fit_epoch(&enc(12).encode_batch(&as_slices(&xtr)), &ytr);
    let (before, w) = (ta(&tm), weights(&tm));
    let reps = vec![tm.state.clone(), tm.state.clone(), tm.state.clone()];
    let config = tm.config.clone();
    tm.state.merge(&config, &reps);
    assert_eq!(ta(&tm), before);
    assert_eq!(weights(&tm), w);
}

#[test]
fn merging_takes_rounded_means() {
    let mut tm = TsetlinMachine::with_config(2, 1, 2, 9, f(3.9), 8, true, 5);
    let mut reps = vec![tm.state.clone(), tm.state.clone()];
    for (r, v) in [(0usize, 10u8), (1, 13)] {
        reps[r].classes[0].clauses[0].auto.ta = vec![v, 200];
        reps[r].classes[0].clauses[0].weight = 2 + r as i32;
    }
    let config = tm.config.clone();
    tm.state.merge(&config, &reps);
    let c = &tm.state.classes[0].clauses[0];
    assert_eq!(c.auto.ta, vec![12, 200]);
    assert_eq!(c.weight, 3);
    assert_eq!(c.auto.inc, vec![0b10]);
}

#[test]
fn data_parallel_is_deterministic_and_small_work_stays_exact() {
    let (xtr, ytr) = make_xor(3000, 0.1, 1);
    let b = enc(12).encode_batch(&as_slices(&xtr));
    let make = || TsetlinMachine::with_config(2, 12, 40, 15, f(3.9), 8, true, 7).data_parallel(true);
    let (mut a, mut c) = (make(), make());
    a.fit_epoch_threads(&b, &ytr, 3);
    c.fit_epoch_threads(&b, &ytr, 3);
    assert_eq!(ta(&a), ta(&c));
    // A few samples are trained exactly, whatever was asked for.
    let few = enc(12).encode_batch(&as_slices(&xtr[..20]));
    let (mut d, mut x) = (make(), make());
    d.fit_epoch_threads(&few, &ytr[..20], 8);
    x.fit_epoch(&few, &ytr[..20]);
    assert_eq!(ta(&d), ta(&x));
}

#[test]
fn inspection_agrees_with_the_machine() {
    let tm = TsetlinMachine::with_config(3, 5, 4, 9, f(3.9), 8, true, 5);
    assert_eq!(ClauseInspect::n_clauses(&tm), 4);
    assert_eq!(ClauseInspect::n_outputs(&tm), 3);
    for c in 0..3 {
        for j in 0..4 {
            assert_eq!(ClauseInspect::clause_rule(&tm, c, j), tm.clause_rule(c, j));
            assert_eq!(ClauseInspect::clause_weight(&tm, c, j), tm.clause_weight(c, j));
        }
    }
}

#[test]
fn machine_load_says_what_is_wrong() {
    let refused = |b: &[u8]| match TsetlinMachine::read_from(b) {
        Ok(_) => panic!("accepted"),
        Err(e) => e,
    };
    let tm = TsetlinMachine::with_config(2, 3, 2, 5, f(2.0), 4, true, 11);
    let mut buf = Vec::new();
    tm.write_to(&mut buf);
    assert_eq!(&buf[..9], b"TMRS\x01\x00\x00\x00\x01");
    assert!(TsetlinMachine::read_from(&buf).is_ok());
    for cut in [0usize, 3, 8, 9, 40, buf.len() - 1] {
        assert_eq!(refused(&buf[..cut]), SerialError::Truncated, "{cut}");
    }
    let mut other = buf.clone();
    other[4] = 2;
    assert_eq!(refused(&other), SerialError::BadVersion { found: 2 });
    let mut other = buf.clone();
    other[8] = TAG_COALESCED;
    assert_eq!(refused(&other), SerialError::WrongTag { found: TAG_COALESCED, expected: TAG_VANILLA });
    // The largest counter of four bits is 15: the first counter of the first clause is too large.
    let mut other = buf.clone();
    let at = 9 + (8 + 18 * 8) + (8 + 12) + (8 + 2 * 8) + 8 + 8 + 8;
    assert!(other[at] == 7 || other[at] == 8);
    other[at] = 16;
    assert_eq!(refused(&other), SerialError::Inconsistent);
}

#[test]
fn every_setting_survives_saving() {
    let (xtr, ytr) = make_xor(300, 0.1, 33);
    let b = enc(12).encode_batch(&as_slices(&xtr));
    let mut tm = TsetlinMachine::with_config(2, 12, 6, 9, f(3.9), 5, false, 7)
        .clause_drop_p(f(0.2))
        .literal_drop_p(f(0.3))
        .max_included_literals(5)
        .class_weights(scales(vec![0.5, 2.5]))
        .type_iii_feedback(f(100.0));
    tm.fit_epoch(&b, &ytr);
    let mut buf = Vec::new();
    tm.write_to(&mut buf);
    let mut loaded = TsetlinMachine::read_from(&buf).unwrap();
    for _ in 0..3 {
        tm.fit_epoch(&b, &ytr);
        loaded.fit_epoch(&b, &ytr);
    }
    assert_eq!(ta(&tm), ta(&loaded));
    assert_eq!(included(&tm), included(&loaded));
    assert_eq!(ind(&tm), ind(&loaded));
    assert_eq!(weights(&tm), weights(&loaded));
    let mut again = Vec::new();
    loaded.write_to(&mut again);
    let mut buf2 = Vec::new();
    tm.write_to(&mut buf2);
    assert_eq!(buf2, again);
}

#[test]
fn the_hint_is_given_once_for_large_work_only() {
    let mut tm = TsetlinMachine::with_config(2, 12, 40, 15, f(3.9), 8, true, 7);
    assert!(!tm.maybe_hint_data_parallel(100_000, 1));
    assert!(!tm.maybe_hint_data_parallel(10, 8));
    let first = tm.maybe_hint_data_parallel(100_000, 8);
    assert!(!(first && tm.maybe_hint_data_parallel(100_000, 8)));
}

#[test]
fn infinite_settings_are_accepted_and_saved() {
    let (xtr, ytr) = make_xor(100, 0.1, 33);
    let b = enc(12).encode_batch(&as_slices(&xtr));
    let mut tm = TsetlinMachine::with_config(2, 12, 6, 9, f(f64::INFINITY), 8, false, 7)
        .class_weights(scales(vec![f64::INFINITY, 1.0]));
    let before = ta(&tm);
    tm.fit_epoch(&b, &ytr);
    // Without penalties and rewards, only Type II feedback moves counters, and only upwards.
    assert!(before.iter().zip(ta(&tm)).all(|(&x, y)| x <= y));
    let mut buf = Vec::new();
    tm.write_to(&mut buf);
    let loaded = TsetlinMachine::read_from(&buf).unwrap();
    assert_eq!(ta(&tm), ta(&loaded));
    assert_eq!(loaded.s().to_bits(), f64::INFINITY.to_bits());
}

#[test]
fn the_wish_to_train_in_parallel_is_not_saved() {
    let mut tm = TsetlinMachine::with_config(2, 12, 600, 15, f(3.9), 8, true, 7);
    tm.hint_shown = true;
    let plain = {
        let mut w = Vec::new();
        tm.write_to(&mut w);
        w
    };
    let tm = tm.data_parallel(true);
    let mut w = Vec::new();
    tm.write_to(&mut w);
    assert_eq!(w, plain);
    let loaded = TsetlinMachine::read_from(&w).unwrap();
    assert!(!loaded.config.data_parallel);
    assert!(!loaded.hint_shown);
}
