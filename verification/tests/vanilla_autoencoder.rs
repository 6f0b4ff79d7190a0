//! The autoencoder.
use tmu_rs::dyadic::Dyadic;
use tmu_rs::serial::{write_header, TAG_VANILLA};
use tmu_rs::{Encoder, Rng, SaveLoad, TMAutoEncoder};

fn f(x: f64) -> Dyadic {
    Dyadic::from_bits(x.to_bits()).unwrap()
}

#[allow(dead_code)]
fn share(part: (usize, usize)) -> f64 {
    part.0 as f64 / part.1 as f64
}

#[allow(dead_code)]
fn next_f64(rng: &mut Rng) -> f64 {
    rng.next_fraction() as f64 / (1u64 << 53) as f64
}

fn ta(tm: &TMAutoEncoder) -> Vec<u8> {
    tm.outputs.iter().flat_map(|c| c.clauses.iter()).flat_map(|k| k.auto.ta.iter().copied()).collect()
}

fn weights(tm: &TMAutoEncoder) -> Vec<i32> {
    tm.outputs.iter().flat_map(|c| c.clauses.iter()).map(|k| k.weight).collect()
}

fn enc(n_features: usize) -> Encoder {
    Encoder::for_binary(n_features)
}

fn make_bits(n: usize, seed: u64) -> Vec<Vec<u8>> {
    let mut rng = Rng::new(seed);
    (0..n)
        .map(|_| (0..12).map(|_| (rng.next_u64() & 1) as u8).collect())
        .collect()
}

fn as_slices(xs: &[Vec<u8>]) -> Vec<&[u8]> {
    xs.iter().map(|v| v.as_slice()).collect()
}

fn make_mirror(n: usize, seed: u64) -> Vec<Vec<u8>> {
    let mut rng = Rng::new(seed);
    (0..n)
        .map(|_| {
            let half: Vec<u8> = (0..6).map(|_| (rng.next_u64() & 1) as u8).collect();
            let mut f = half.clone();
            f.extend_from_slice(&half);
            f
        })
        .collect()
}

#[test]
fn autoencoder_reconstructs_above_chance() {
    // Use structured data: bits 6-11 are copies of bits 0-5.
    // The autoencoder can learn bit 6+i from bit i (and vice versa).
    // Random i.i.d. data can't exceed ~0.5 (nothing to learn per feature).
    let mut rng = Rng::new(1);
    let xs: Vec<Vec<u8>> = (0..2000)
        .map(|_| {
            let half: Vec<u8> = (0..6).map(|_| (rng.next_u64() & 1) as u8).collect();
            let mut f = half.clone();
            f.extend_from_slice(&half);
            f
        })
        .collect();
    let e = enc(12);
    let batch = e.encode_batch(&as_slices(&xs));

    let mut ae = TMAutoEncoder::with_config(12, 20, 15, f(3.9), 8, true, 42);
    for _ in 0..20 {
        ae.fit_epoch(&batch);
    }
    let acc = share(ae.reconstruction_accuracy(&batch));
    assert!(
        acc > 0.8,
        "expected reconstruction accuracy > 0.80, got {acc:.4}"
    );
}

#[test]
fn autoencoder_learns_structured_input() {
    // Data: bits 6-11 mirror bits 0-5. Every output bit can be predicted
    // from its mirror counterpart.
    let mut rng = Rng::new(7);
    let n = 3000usize;
    let xs: Vec<Vec<u8>> = (0..n)
        .map(|_| {
            let half: Vec<u8> = (0..6).map(|_| (rng.next_u64() & 1) as u8).collect();
            let mut f = half.clone();
            f.extend_from_slice(&half);
            f
        })
        .collect();
    let e = enc(12);
    let batch = e.encode_batch(&as_slices(&xs));

    let mut ae = TMAutoEncoder::with_config(12, 20, 15, f(3.9), 8, true, 42);
    for _ in 0..25 {
        ae.fit_epoch(&batch);
    }
    let acc = share(ae.reconstruction_accuracy(&batch));
    assert!(
        acc > 0.80,
        "expected structured-input accuracy > 0.80, got {acc:.4}"
    );
}

#[test]
fn vanilla_autoencoder_same_seed_same_result() {
    let xs = make_bits(500, 10);
    let e = enc(12);
    let batch = e.encode_batch(&as_slices(&xs));

    let mut ae1 = TMAutoEncoder::with_config(12, 8, 10, f(3.0), 8, true, 99);
    let mut ae2 = TMAutoEncoder::with_config(12, 8, 10, f(3.0), 8, true, 99);
    for _ in 0..5 {
        ae1.fit_epoch(&batch);
        ae2.fit_epoch(&batch);
    }

    let xs_te = make_bits(100, 20);
    let bte = e.encode_batch(&as_slices(&xs_te));
    assert_eq!(
        share(ae1.reconstruction_accuracy(&bte)),
        share(ae2.reconstruction_accuracy(&bte)),
        "same seed must produce identical results"
    );
}

#[test]
fn vanilla_autoencoder_weights_stay_in_1_to_threshold() {
    let threshold = 20i32;
    let xs = make_bits(1000, 11);
    let batch = enc(12).encode_batch(&as_slices(&xs));
    let mut ae = TMAutoEncoder::with_config(12, 12, threshold, f(3.9), 8, true, 42);
    for _ in 0..10 {
        ae.fit_epoch(&batch);
    }
    for o in 0..12 {
        for j in 0..ae.clauses_per_output() {
            let w = ae.clause_weight(o, j);
            assert!(
                (1..=threshold).contains(&w),
                "weight {w} out of [1, {threshold}] for output ({o},{j})"
            );
        }
    }
}

#[test]
fn reconstruct_batch_matches_single() {
    let xs = make_bits(300, 12);
    let e = enc(12);
    let mut ae = TMAutoEncoder::with_config(12, 8, 10, f(3.0), 8, true, 42);
    ae.fit_epoch(&e.encode_batch(&as_slices(&xs)));

    let xs_te = make_bits(100, 22);
    let batch = e.encode_batch(&as_slices(&xs_te));
    let n = xs_te.len();
    let w = ae.words_per_sample();

    let from_batch = ae.reconstruct_batch(&batch);
    let from_single: Vec<Vec<u8>> = (0..n)
        .map(|i| ae.reconstruct_lit(&batch.data[i * w..(i + 1) * w]))
        .collect();

    assert_eq!(from_batch, from_single);
}

#[test]
fn reconstruction_accuracy_matches_manual() {
    let xs = make_bits(500, 13);
    let e = enc(12);
    let mut ae = TMAutoEncoder::with_config(12, 8, 10, f(3.0), 8, true, 42);
    ae.fit_epoch(&e.encode_batch(&as_slices(&xs)));

    let xs_te = make_bits(200, 23);
    let batch = e.encode_batch(&as_slices(&xs_te));
    let n = xs_te.len();
    let w = ae.words_per_sample();
    let nf = ae.n_features();

    let api_acc = share(ae.reconstruction_accuracy(&batch));
    let mut manual_correct = 0usize;
    for i in 0..n {
        let lit = &batch.data[i * w..(i + 1) * w];
        let recon = ae.reconstruct_lit(lit);
        for o in 0..nf {
            let actual = ((lit[o / 64] >> (o % 64)) & 1) as u8;
            manual_correct += (recon[o] == actual) as usize;
        }
    }
    let manual_acc = manual_correct as f64 / (n * nf) as f64;
    assert!((api_acc - manual_acc).abs() < 1e-12);
}

#[test]
fn reconstruct_scores_threshold_matches_reconstruct() {
    let xs = make_bits(500, 14);
    let e = enc(12);
    let mut ae = TMAutoEncoder::with_config(12, 8, 10, f(3.0), 8, true, 42);
    ae.fit_epoch(&e.encode_batch(&as_slices(&xs)));

    let xs_te = make_bits(50, 24);
    for x in &xs_te {
        let sample = e.encode_one(x);
        let recon = ae.reconstruct(&sample);
        let mut scores = vec![0i32; 12];
        ae.reconstruct_scores(&sample, &mut scores);
        for o in 0..12 {
            let expected = (scores[o] > 0) as u8;
            assert_eq!(
                recon[o], expected,
                "output {o}: reconstruct={} but scores[{o}]={} implies {}",
                recon[o], scores[o], expected
            );
        }
    }
}

#[test]
fn vanilla_autoencoder_clause_drop_p_one_leaves_state_unchanged() {
    let xs = make_bits(200, 15);
    let batch = enc(12).encode_batch(&as_slices(&xs));
    let mut ae = TMAutoEncoder::with_config(12, 8, 10, f(3.0), 8, true, 42).clause_drop_p(f(0.9999));
    let ta_before = ta(&ae).clone();
    ae.fit_epoch(&batch);
    let ta_changed = ta(&ae).iter().zip(&ta_before).filter(|(a, b)| a != b).count();
    let total = ta(&ae).len();
    assert!(
        ta_changed < total / 100,
        "drop_p≈1 should leave >99% of state unchanged, but {ta_changed}/{total} changed"
    );
}

#[test]
fn vanilla_autoencoder_literal_drop_p_one_leaves_state_unchanged() {
    let xs = make_bits(200, 30);
    let batch = enc(12).encode_batch(&as_slices(&xs));
    let mut ae = TMAutoEncoder::with_config(12, 8, 10, f(3.0), 8, true, 42).literal_drop_p(f(0.9999));
    let ta_before = ta(&ae).clone();
    ae.fit_epoch(&batch);
    let ta_changed = ta(&ae).iter().zip(&ta_before).filter(|(a, b)| a != b).count();
    let total = ta(&ae).len();
    assert!(
        ta_changed < total / 100,
        "literal_drop_p≈1 should leave >99% of state unchanged, but {ta_changed}/{total} changed"
    );
}

#[test]
fn vanilla_autoencoder_max_included_literals_reduces_clause_size() {
    let xs = make_bits(2000, 17);
    let batch = enc(12).encode_batch(&as_slices(&xs));

    let mut ae_tight =
        TMAutoEncoder::with_config(12, 10, 15, f(3.9), 8, true, 42).max_included_literals(2);
    let mut ae_free = TMAutoEncoder::with_config(12, 10, 15, f(3.9), 8, true, 42);
    for _ in 0..10 {
        ae_tight.fit_epoch(&batch);
        ae_free.fit_epoch(&batch);
    }

    let avg = |ae: &TMAutoEncoder| {
        let total: usize = (0..ae.n_features())
            .flat_map(|o| (0..ae.clauses_per_output()).map(move |j| (o, j)))
            .map(|(o, j)| ae.clause_rule(o, j).len())
            .sum();
        total as f64 / (ae.n_features() * ae.clauses_per_output()) as f64
    };
    let tight_avg = avg(&ae_tight);
    let free_avg = avg(&ae_free);
    assert!(
        tight_avg < free_avg,
        "max_included_literals=2 should produce smaller clauses: {tight_avg:.2} vs {free_avg:.2}"
    );
}

#[test]
fn vanilla_autoencoder_clause_is_positive_matches_index_parity() {
    let ae = TMAutoEncoder::with_config(4, 6, 10, f(3.0), 8, true, 1);
    for j in 0..ae.clauses_per_output() {
        assert_eq!(ae.clause_is_positive(j), j & 1 == 0);
    }
}

#[test]
fn vanilla_autoencoder_words_per_sample_correct() {
    for &nf in &[1usize, 32, 63, 64, 65, 100, 128, 784] {
        let ae = TMAutoEncoder::with_config(nf, 2, 5, f(2.0), 8, true, 1);
        let expected = (2 * nf).div_ceil(64);
        assert_eq!(
            ae.words_per_sample(),
            expected,
            "n_features={nf}: expected {expected} words"
        );
    }
}

#[test]
fn vanilla_autoencoder_absorbed_fractions_start_at_zero() {
    let ae = TMAutoEncoder::with_config(12, 10, 15, f(3.9), 8, true, 42);
    assert_eq!(share(ae.absorbed_include_fraction()), 0.0);
    assert_eq!(share(ae.absorbed_exclude_fraction()), 0.0);
}

#[test]
fn vanilla_autoencoder_absorbed_fractions_increase_with_training() {
    let xs = make_bits(3000, 62);
    let batch = enc(12).encode_batch(&as_slices(&xs));
    let mut ae = TMAutoEncoder::with_config(12, 10, 15, f(3.9), 4, true, 42);
    let before = share(ae.absorbed_include_fraction()) + share(ae.absorbed_exclude_fraction());
    for _ in 0..50 {
        ae.fit_epoch(&batch);
    }
    let after = share(ae.absorbed_include_fraction()) + share(ae.absorbed_exclude_fraction());
    assert!(
        after > before,
        "absorbing states must grow during training: before={before:.4}, after={after:.4}"
    );
}

#[test]
fn state_bits_2_trains_without_panic() {
    let xs = make_bits(500, 60);
    let xs_te = make_bits(200, 61);
    let e = enc(12);
    let btr = e.encode_batch(&as_slices(&xs));
    let bte = e.encode_batch(&as_slices(&xs_te));
    let mut ae = TMAutoEncoder::with_config(12, 8, 10, f(3.0), 2, true, 42);
    for _ in 0..5 {
        ae.fit_epoch(&btr);
    }
    let acc = share(ae.reconstruction_accuracy(&bte));
    assert!(
        (0.0..=1.0).contains(&acc),
        "state_bits=2 accuracy out of range: {acc}"
    );
}

#[test]
fn vanilla_autoencoder_state_bits_8_max_state_is_255() {
    let ae = TMAutoEncoder::with_config(4, 2, 5, f(2.0), 8, true, 1);
    assert_eq!(ae.config.train.geom.max_state, 255u8, "state_bits=8 → max_state must be 255");
    assert_eq!(ae.config.train.geom.half, 128u8, "state_bits=8 → half must be 128");
}

#[test]
fn vanilla_autoencoder_save_load_roundtrip_reconstructs_identically() {
    let xs = make_mirror(2000, 1);
    let e = enc(12);
    let btr = e.encode_batch(&as_slices(&xs));

    let mut ae = TMAutoEncoder::with_config(12, 8, 15, f(3.9), 8, true, 7);
    for _ in 0..15 {
        ae.fit_epoch(&btr);
    }

    let mut buf = Vec::new();
    ae.write_to(&mut buf);
    let loaded = TMAutoEncoder::read_from(buf.as_slice()).unwrap();

    let xte = make_mirror(500, 2);
    let bte = e.encode_batch(&as_slices(&xte));
    assert_eq!(ae.reconstruct_batch(&bte), loaded.reconstruct_batch(&bte));
    assert_eq!(
        share(ae.reconstruction_accuracy(&bte)),
        share(loaded.reconstruction_accuracy(&bte))
    );
}

#[test]
fn vanilla_autoencoder_save_load_resumes_training_without_reinit() {
    let xs = make_mirror(2000, 3);
    let e = enc(12);
    let btr = e.encode_batch(&as_slices(&xs));

    let mut ae = TMAutoEncoder::with_config(12, 8, 15, f(3.9), 8, true, 7);
    for _ in 0..10 {
        ae.fit_epoch(&btr);
    }

    let mut buf = Vec::new();
    ae.write_to(&mut buf);
    let mut loaded = TMAutoEncoder::read_from(buf.as_slice()).unwrap();

    for _ in 0..10 {
        ae.fit_epoch(&btr);
        loaded.fit_epoch(&btr);
    }

    assert_eq!(ta(&ae), ta(&loaded), "TA counters diverged after resume");
    assert_eq!(weights(&ae), weights(&loaded), "weights diverged after resume");
}

#[test]
fn vanilla_autoencoder_load_rejects_corrupt_data() {
    assert!(TMAutoEncoder::read_from(&[]).is_err());
    assert!(TMAutoEncoder::read_from(b"XXXXjunkjunk".as_slice()).is_err());
    let mut buf = Vec::new();
    write_header(&mut buf, TAG_VANILLA);
    assert!(TMAutoEncoder::read_from(buf.as_slice()).is_err());
}

#[test]
fn vanilla_autoencoder_type_iii_constructs_without_panic() {
    let _ae = TMAutoEncoder::with_config(12, 20, 15, f(3.9), 8, true, 42)
        .type_iii_feedback(f(200.0));
}

#[test]
fn vanilla_autoencoder_type_iii_trains_without_panic() {
    let xs = make_bits(300, 7);
    let e = enc(12);
    let batch = e.encode_batch(&as_slices(&xs));
    let mut ae = TMAutoEncoder::with_config(12, 20, 15, f(3.9), 8, true, 42)
        .type_iii_feedback(f(200.0));
    for _ in 0..5 {
        ae.fit_epoch(&batch);
    }
}

#[test]
fn an_output_never_learns_from_its_own_feature() {
    let xs = make_bits(200, 5);
    let batch = enc(12).encode_batch(&as_slices(&xs));
    let mut ae = TMAutoEncoder::with_config(12, 6, 10, f(3.9), 8, true, 42);
    let before = ae.clone();
    for _ in 0..3 {
        ae.fit_epoch(&batch);
    }
    for o in 0..12 {
        for j in 0..6 {
            let (a, b) = (&before.outputs[o].clauses[j].auto.ta, &ae.outputs[o].clauses[j].auto.ta);
            assert_eq!(a[o], b[o]);
            assert_eq!(a[12 + o], b[12 + o]);
        }
    }
    assert_ne!(ta(&before), ta(&ae));
}

#[test]
fn a_saved_autoencoder_keeps_every_setting() {
    let xs = make_mirror(200, 5);
    let batch = enc(12).encode_batch(&as_slices(&xs));
    let mut ae = TMAutoEncoder::with_config(12, 6, 10, f(3.9), 4, false, 42)
        .clause_drop_p(f(0.1))
        .literal_drop_p(f(0.2))
        .max_included_literals(7)
        .type_iii_feedback(f(30.0));
    ae.fit_epoch(&batch);
    let mut buf = Vec::new();
    ae.write_to(&mut buf);
    let mut loaded = TMAutoEncoder::read_from(&buf).unwrap();
    ae.fit_epoch(&batch);
    loaded.fit_epoch(&batch);
    assert_eq!(ta(&ae), ta(&loaded));
    assert_eq!(weights(&ae), weights(&loaded));
}

#[test]
fn fired_clauses_of_an_output_make_its_score() {
    let xs = make_mirror(300, 6);
    let e = enc(12);
    let mut ae = TMAutoEncoder::with_config(12, 6, 10, f(3.9), 8, true, 42);
    ae.fit_epoch(&e.encode_batch(&as_slices(&xs)));
    let s = e.encode_one(&xs[0]);
    let mut out = vec![0i32; 12];
    ae.reconstruct_scores(&s, &mut out);
    for o in 0..12 {
        let sum: i32 = ae
            .fired_clauses(&s, o)
            .iter()
            .map(|&j| if j % 2 == 0 { ae.clause_weight(o, j) } else { -ae.clause_weight(o, j) })
            .sum();
        assert_eq!(out[o], sum.clamp(-10, 10));
    }
}
