//! The coalesced autoencoder.
use tmu_rs::dyadic::Dyadic;
use tmu_rs::serial::{write_header, TAG_VANILLA};
use tmu_rs::{Encoder, Rng, SaveLoad, TMAutoEncoder, TMCoalescedAutoEncoder};

fn f(x: f64) -> Dyadic {
    Dyadic::from_bits(x.to_bits()).unwrap()
}

#[allow(dead_code)]
fn share(part: (usize, usize)) -> f64 {
    part.0 as f64 / part.1 as f64
}

#[allow(dead_code)]
fn next_f64(rng: &mut Rng) -> f64 {
    rng.next_fraction() as f64 / (1u64 << 53) as f64
}

fn ta(tm: &TMCoalescedAutoEncoder) -> Vec<u8> {
    tm.clauses.iter().flat_map(|k| k.auto.ta.iter().copied()).collect()
}

fn weights(tm: &TMCoalescedAutoEncoder) -> Vec<Vec<i32>> {
    tm.weights.clone()
}

fn enc(n_features: usize) -> Encoder {
    Encoder::for_binary(n_features)
}

fn make_mirrored(n: usize, half_n: usize, seed: u64) -> Vec<Vec<u8>> {
    let mut rng = Rng::new(seed);
    (0..n)
        .map(|_| {
            let half: Vec<u8> = (0..half_n).map(|_| (rng.next_u64() & 1) as u8).collect();
            let mut f = half.clone();
            f.extend_from_slice(&half);
            f
        })
        .collect()
}

fn as_slices(xs: &[Vec<u8>]) -> Vec<&[u8]> {
    xs.iter().map(|v| v.as_slice()).collect()
}

#[test]
fn coalesced_ae_reconstructs_above_chance() {
    // Structured mirrored-half data: bits 6-11 = bits 0-5.
    // Each output can be predicted from its mirror; convergence verifies
    // feature masking and signed-weight training work correctly.
    let xs = make_mirrored(2000, 6, 1);
    let e = enc(12);
    let batch = e.encode_batch(&as_slices(&xs));

    let mut ae = TMCoalescedAutoEncoder::with_config(12, 20, 15, f(3.9), 8, true, 42);
    for _ in 0..20 {
        ae.fit_epoch(&batch);
    }
    let acc = share(ae.reconstruction_accuracy(&batch));
    assert!(
        acc > 0.80,
        "expected reconstruction accuracy > 0.80, got {acc:.4}"
    );
}

#[test]
fn coalesced_ae_weights_become_signed() {
    let xs = make_mirrored(2000, 6, 2);
    let e = enc(12);
    let batch = e.encode_batch(&as_slices(&xs));

    let mut ae = TMCoalescedAutoEncoder::with_config(12, 20, 15, f(3.9), 8, true, 42);
    for _ in 0..10 {
        ae.fit_epoch(&batch);
    }

    let mut any_neg = false;
    let mut any_pos = false;
    for o in 0..12 {
        for j in 0..ae.n_clauses() {
            let w = ae.clause_weight(o, j);
            any_neg |= w < 0;
            any_pos |= w >= 0;
        }
    }
    assert!(any_neg, "some coalesced weights should become negative");
    assert!(any_pos, "some coalesced weights should remain non-negative");
}

#[test]
fn coalesced_ae_matches_vanilla_on_reconstruction_shape() {
    let xs = make_mirrored(500, 6, 3);
    let e = enc(12);
    let batch = e.encode_batch(&as_slices(&xs));

    let mut ae = TMCoalescedAutoEncoder::with_config(12, 10, 10, f(3.0), 8, true, 42);
    ae.fit_epoch(&batch);

    let recon_batch = ae.reconstruct_batch(&batch);
    assert_eq!(recon_batch.len(), 500);
    for r in &recon_batch {
        assert_eq!(r.len(), 12, "reconstruction must have n_features bits");
        for &b in r {
            assert!(b == 0 || b == 1, "reconstruction bits must be 0 or 1");
        }
    }
}

#[test]
fn coalesced_autoencoder_save_load_roundtrip_reconstructs_identically() {
    let xs = make_mirrored(2000, 6, 1);
    let e = enc(12);
    let batch = e.encode_batch(&as_slices(&xs));

    let mut ae = TMCoalescedAutoEncoder::with_config(12, 20, 15, f(3.9), 8, true, 42);
    for _ in 0..15 {
        ae.fit_epoch(&batch);
    }

    let mut buf = Vec::new();
    ae.write_to(&mut buf);
    let loaded = TMCoalescedAutoEncoder::read_from(buf.as_slice()).unwrap();

    let test = e.encode_batch(&as_slices(&make_mirrored(500, 6, 2)));
    assert_eq!(ae.reconstruct_batch(&test), loaded.reconstruct_batch(&test));
    assert_eq!(
        share(ae.reconstruction_accuracy(&test)),
        share(loaded.reconstruction_accuracy(&test))
    );
}

#[test]
fn coalesced_autoencoder_save_load_resumes_training_without_reinit() {
    let xs = make_mirrored(2000, 6, 3);
    let e = enc(12);
    let batch = e.encode_batch(&as_slices(&xs));

    let mut ae = TMCoalescedAutoEncoder::with_config(12, 20, 15, f(3.9), 8, true, 42);
    for _ in 0..10 {
        ae.fit_epoch(&batch);
    }

    let mut buf = Vec::new();
    ae.write_to(&mut buf);
    let mut loaded = TMCoalescedAutoEncoder::read_from(buf.as_slice()).unwrap();

    for _ in 0..10 {
        ae.fit_epoch(&batch);
        loaded.fit_epoch(&batch);
    }

    assert_eq!(ta(&ae), ta(&loaded), "TA counters diverged after resume");
    assert_eq!(weights(&ae), weights(&loaded), "weights diverged after resume");
}

#[test]
fn coalesced_autoencoder_load_rejects_corrupt_data() {
    assert!(TMCoalescedAutoEncoder::read_from(&[]).is_err());
    assert!(TMCoalescedAutoEncoder::read_from(b"XXXXjunkjunk".as_slice()).is_err());
    // Right magic/version but the wrong artifact type.
    let mut buf = Vec::new();
    write_header(&mut buf, TAG_VANILLA);
    assert!(TMCoalescedAutoEncoder::read_from(buf.as_slice()).is_err());
}

#[test]
fn coalesced_autoencoder_type_iii_constructs_without_panic() {
    let _ae = TMCoalescedAutoEncoder::with_config(12, 10, 10, f(3.0), 8, true, 42)
        .type_iii_feedback(f(200.0));
}

#[test]
fn coalesced_autoencoder_type_iii_trains_without_panic() {
    let xs = make_mirrored(300, 6, 7);
    let e = enc(12);
    let batch = e.encode_batch(&as_slices(&xs));
    let mut ae = TMCoalescedAutoEncoder::with_config(12, 10, 10, f(3.0), 8, true, 42)
        .type_iii_feedback(f(200.0));
    for _ in 0..5 {
        ae.fit_epoch(&batch);
    }
}

#[test]
fn shared_clauses_reconstruct_by_signed_sums() {
    let xs = make_mirrored(300, 6, 9);
    let e = enc(12);
    let mut ae = TMCoalescedAutoEncoder::with_config(12, 14, 10, f(3.0), 8, true, 42);
    for _ in 0..3 {
        ae.fit_epoch(&e.encode_batch(&as_slices(&xs)));
    }
    for x in xs.iter().take(30) {
        let s = e.encode_one(x);
        let fired = ae.fired_clauses(&s, 0);
        let mut out = vec![0i32; 12];
        ae.reconstruct_scores(&s, &mut out);
        let recon = ae.reconstruct(&s);
        for o in 0..12 {
            let sum: i32 = fired.iter().map(|&j| ae.clause_weight(o, j)).sum();
            assert_eq!(out[o], sum.clamp(-10, 10));
            assert_eq!(recon[o], (sum > 0) as u8);
        }
    }
}

#[test]
fn a_coalesced_autoencoder_beside_a_plain_one_has_fewer_clauses() {
    let a = TMCoalescedAutoEncoder::new(6, 8, 10, f(3.0));
    let b = TMAutoEncoder::new(6, 8, 10, f(3.0));
    assert_eq!(a.clauses.len(), 8);
    assert_eq!(b.outputs.len() * b.clauses_per_output(), 48);
    assert_eq!(a.absorbed_include_fraction(), (0, 8 * 12));
    assert_eq!(a.absorbed_exclude_fraction(), (0, 8 * 12));
}
