//! The sparse machine.
use tmu_rs::dyadic::Dyadic;
use tmu_rs::serial::{SerialError, TAG_SPARSE, TAG_VANILLA};
use tmu_rs::{EncodedBatch, Encoder, Rng, SaveLoad, TMSparseClassifier, TsetlinMachine};

const N_FEATURES: usize = 12;

fn f(x: f64) -> Dyadic {
    Dyadic::from_bits(x.to_bits()).unwrap()
}

#[allow(dead_code)]
fn share(part: (usize, usize)) -> f64 {
    part.0 as f64 / part.1 as f64
}

#[allow(dead_code)]
fn next_f64(rng: &mut Rng) -> f64 {
    rng.next_fraction() as f64 / (1u64 << 53) as f64
}
fn scales(w: Vec<f64>) -> Vec<Dyadic> {
    w.into_iter().map(f).collect()
}

fn weights(tm: &TMSparseClassifier) -> Vec<i32> {
    tm.classes.iter().flat_map(|c| c.weights.iter().copied()).collect()
}

fn make_xor(n: usize, noise: f64, seed: u64) -> (Vec<Vec<u8>>, Vec<usize>) {
    let mut rng = Rng::new(seed);
    let mut xs = Vec::with_capacity(n);
    let mut ys = Vec::with_capacity(n);
    for _ in 0..n {
        let f: Vec<u8> = (0..N_FEATURES)
            .map(|_| (rng.next_u64() & 1) as u8)
            .collect();
        let mut y = (f[0] ^ f[1]) as usize;
        if next_f64(&mut rng) <= noise {
            y = 1 - y;
        }
        xs.push(f);
        ys.push(y);
    }
    (xs, ys)
}

fn encode(xs: &[Vec<u8>], enc: &Encoder) -> EncodedBatch {
    let rows: Vec<&[u8]> = xs.iter().map(|v| v.as_slice()).collect();
    enc.encode_batch(&rows)
}

fn train_sparse(seed: u64, epochs: usize) -> (TMSparseClassifier, EncodedBatch, Vec<usize>) {
    let (xtr, ytr) = make_xor(4000, 0.1, seed);
    let (xte, yte) = make_xor(2000, 0.0, seed ^ 0xABCD);
    let enc = Encoder::for_binary(N_FEATURES);
    let tr = encode(&xtr, &enc);
    let te = encode(&xte, &enc);
    let mut tm = TMSparseClassifier::with_config(2, N_FEATURES, 10, 15, f(3.9), 8, true, seed)
        .max_included_literals(8);
    for _ in 0..epochs {
        tm.fit_epoch(&tr, &ytr);
    }
    (tm, te, yte)
}

/// Zero-pad every sample from its current length up to `n`.
fn pad_to(xs: &[Vec<u8>], n: usize) -> Vec<Vec<u8>> {
    xs.iter()
        .map(|x| {
            let mut p = x.clone();
            p.resize(n, 0);
            p
        })
        .collect()
}

#[test]
fn sparse_learns_xor() {
    let (tm, te, yte) = train_sparse(7, 30);
    let acc = share(tm.accuracy(&te, &yte));
    assert!(acc > 0.95, "sparse XOR accuracy too low: {acc}");
}

#[test]
fn parallel_path_learns_xor() {
    let (xtr, ytr) = make_xor(4000, 0.1, 23);
    let (xte, yte) = make_xor(2000, 0.0, 77);
    let enc = Encoder::for_binary(N_FEATURES);
    let tr = encode(&xtr, &enc);
    let te = encode(&xte, &enc);
    let mut tm = TMSparseClassifier::with_config(2, N_FEATURES, 130, 20, f(3.9), 8, true, 23)
        .max_included_literals(8);
    for _ in 0..15 {
        tm.fit_epoch(&tr, &ytr);
    }
    let acc = share(tm.accuracy(&te, &yte));
    assert!(acc > 0.95, "parallel-path XOR accuracy too low: {acc}");
    // predict_batch must agree with per-sample predict.
    let batch = tm.predict_batch(&te);
    let w = tm.words_per_sample();
    for (i, &p) in batch.iter().enumerate() {
        assert_eq!(p, tm.predict_lit(&te.data[i * w..(i + 1) * w]));
    }
}

#[test]
fn sparse_classifier_same_seed_same_result() {
    let (tm_a, te, yte) = train_sparse(11, 10);
    let (tm_b, _, _) = train_sparse(11, 10);
    assert_eq!(share(tm_a.accuracy(&te, &yte)), share(tm_b.accuracy(&te, &yte)));
    assert_eq!(weights(&tm_a), weights(&tm_b));
}

#[test]
fn sparse_classifier_predict_batch_matches_single() {
    let (tm, te, _) = train_sparse(5, 10);
    let batch = tm.predict_batch(&te);
    let n = te.len();
    let w = tm.words_per_sample();
    let data = te.data.as_slice();
    for i in 0..n {
        let single = tm.predict_lit(&data[i * w..(i + 1) * w]);
        assert_eq!(batch[i], single);
    }
}

#[test]
fn sparse_classifier_accuracy_matches_manual_loop() {
    let (tm, te, yte) = train_sparse(5, 10);
    let preds = tm.predict_batch(&te);
    let manual =
        preds.iter().zip(&yte).filter(|(p, y)| p == y).count() as f64 / yte.len() as f64;
    assert_eq!(manual, share(tm.accuracy(&te, &yte)));
}

#[test]
fn sparse_classifier_weights_stay_in_1_to_threshold() {
    let (tm, _, _) = train_sparse(9, 15);
    assert!(weights(&tm).iter().all(|&w| (1..=tm.config.threshold).contains(&w)));
}

#[test]
fn sparse_classifier_max_included_literals_reduces_clause_size() {
    let (xtr, ytr) = make_xor(3000, 0.1, 21);
    let enc = Encoder::for_binary(N_FEATURES);
    let tr = encode(&xtr, &enc);

    let mut unbounded =
        TMSparseClassifier::with_config(2, N_FEATURES, 10, 15, f(3.9), 8, true, 21);
    let mut bounded = TMSparseClassifier::with_config(2, N_FEATURES, 10, 15, f(3.9), 8, true, 21)
        .max_included_literals(2);
    for _ in 0..20 {
        unbounded.fit_epoch(&tr, &ytr);
        bounded.fit_epoch(&tr, &ytr);
    }
    let avg = |tm: &TMSparseClassifier| -> f64 {
        let cps = tm.clauses_per_class();
        let mut total = 0usize;
        for c in 0..tm.n_classes() {
            for j in 0..cps {
                total += tm.clause_rule(c, j).len();
            }
        }
        total as f64 / (tm.n_classes() * cps) as f64
    };
    // `max_included_literals` is a soft Type Ia growth guard (Type II can still
    // promote a literal past it, exactly as in the dense model), so the bound is
    // not a hard cap — the meaningful property is that it yields smaller clauses.
    let bounded_avg = avg(&bounded);
    let unbounded_avg = avg(&unbounded);
    assert!(
        bounded_avg < unbounded_avg,
        "bounded avg {bounded_avg} should be smaller than unbounded {unbounded_avg}"
    );
}

#[test]
fn sparse_classifier_clause_is_positive_matches_index_parity() {
    let tm = TMSparseClassifier::new(2, N_FEATURES, 10, 15, f(3.9));
    for j in 0..tm.clauses_per_class() {
        assert_eq!(tm.clause_is_positive(j), j % 2 == 0);
    }
}

#[test]
fn sparse_matches_dense_accuracy() {
    let (xtr, ytr) = make_xor(4000, 0.1, 33);
    let (xte, yte) = make_xor(2000, 0.0, 99);
    let enc = Encoder::for_binary(N_FEATURES);
    let tr = encode(&xtr, &enc);
    let te = encode(&xte, &enc);

    let mut dense = TsetlinMachine::with_config(2, N_FEATURES, 10, 15, f(3.9), 8, true, 33);
    let mut sparse = TMSparseClassifier::with_config(2, N_FEATURES, 10, 15, f(3.9), 8, true, 33);
    for _ in 0..30 {
        dense.fit_epoch(&tr, &ytr);
        sparse.fit_epoch(&tr, &ytr);
    }
    let dense_acc = share(dense.accuracy(&te, &yte));
    let sparse_acc = share(sparse.accuracy(&te, &yte));
    assert!(
        sparse_acc >= dense_acc - 0.05,
        "sparse {sparse_acc} lags dense {dense_acc} by more than 0.05"
    );
}

#[test]
fn sparse_classifier_grow_preserves_predictions() {
    let (xtr, ytr) = make_xor(4000, 0.1, 5);
    let (xte, _) = make_xor(1000, 0.0, 6);
    let e12 = Encoder::for_binary(N_FEATURES);
    let mut tm = TMSparseClassifier::with_config(2, N_FEATURES, 10, 15, f(3.9), 8, true, 7)
        .max_included_literals(8);
    for _ in 0..30 {
        tm.fit_epoch(&encode(&xtr, &e12), &ytr);
    }

    let bte12 = encode(&xte, &e12);
    let preds_before = tm.predict_batch(&bte12);
    let scores_before: Vec<[i32; 2]> = xte
        .iter()
        .map(|x| {
            let mut out = [0i32; 2];
            tm.scores(&e12.encode_one(x), &mut out);
            out
        })
        .collect();

    tm.grow_features(20);
    assert_eq!(tm.n_features(), 20);

    // Same rows, zero-padded to 20 features: predictions and per-class scores
    // must be identical (new literals are all just-excluded, never included).
    let e20 = Encoder::for_binary(20);
    let xte20 = pad_to(&xte, 20);
    let bte20 = encode(&xte20, &e20);
    assert_eq!(tm.predict_batch(&bte20), preds_before);
    for (x, before) in xte20.iter().zip(&scores_before) {
        let mut out = [0i32; 2];
        tm.scores(&e20.encode_one(x), &mut out);
        assert_eq!(&out, before, "scores changed after grow for {x:?}");
    }
}

#[test]
fn sparse_classifier_grow_noop_when_equal() {
    let (tm0, _, _) = train_sparse(8, 10);
    let mut tm = tm0.clone();
    let rules_before: Vec<Vec<(usize, bool)>> = (0..2)
        .flat_map(|c| (0..tm.clauses_per_class()).map(move |j| (c, j)))
        .map(|(c, j)| tm.clause_rule(c, j))
        .collect();
    tm.grow_features(N_FEATURES);
    assert_eq!(tm.n_features(), N_FEATURES);
    let rules_after: Vec<Vec<(usize, bool)>> = (0..2)
        .flat_map(|c| (0..tm.clauses_per_class()).map(move |j| (c, j)))
        .map(|(c, j)| tm.clause_rule(c, j))
        .collect();
    assert_eq!(rules_before, rules_after);
}

#[test]
fn sparse_classifier_grow_preserves_clause_rules() {
    let (tm0, _, _) = train_sparse(9, 20);
    let mut tm = tm0.clone();
    let rules_before: Vec<Vec<(usize, bool)>> = (0..2)
        .flat_map(|c| (0..tm.clauses_per_class()).map(move |j| (c, j)))
        .map(|(c, j)| tm.clause_rule(c, j))
        .collect();

    tm.grow_features(40);

    // Feature indices and negation flags are stable across the grow.
    let rules_after: Vec<Vec<(usize, bool)>> = (0..2)
        .flat_map(|c| (0..tm.clauses_per_class()).map(move |j| (c, j)))
        .map(|(c, j)| tm.clause_rule(c, j))
        .collect();
    assert_eq!(rules_before, rules_after);
}

#[test]
fn sparse_classifier_grow_then_learns_new_feature() {
    // Pre-train on XOR over the first 12 features.
    let (xtr, ytr) = make_xor(3000, 0.1, 10);
    let e12 = Encoder::for_binary(N_FEATURES);
    let mut tm = TMSparseClassifier::with_config(2, N_FEATURES, 20, 15, f(3.9), 8, true, 7)
        .max_included_literals(8);
    for _ in 0..20 {
        tm.fit_epoch(&encode(&xtr, &e12), &ytr);
    }

    tm.grow_features(16);

    // New task determined solely by an appended feature: label = bit 14.
    let mut rng = Rng::new(99);
    let make = |rng: &mut Rng, n: usize| -> (Vec<Vec<u8>>, Vec<usize>) {
        let mut xs = Vec::with_capacity(n);
        let mut ys = Vec::with_capacity(n);
        for _ in 0..n {
            let f: Vec<u8> = (0..16).map(|_| (rng.next_u64() & 1) as u8).collect();
            ys.push(f[14] as usize);
            xs.push(f);
        }
        (xs, ys)
    };
    let (xtr2, ytr2) = make(&mut rng, 4000);
    let (xte2, yte2) = make(&mut rng, 1000);

    let e16 = Encoder::for_binary(16);
    for _ in 0..30 {
        tm.fit_epoch(&encode(&xtr2, &e16), &ytr2);
    }
    let acc = share(tm.accuracy(&encode(&xte2, &e16), &yte2));
    assert!(acc >= 0.95, "grown sparse TM failed to learn new feature: {acc}");
}

#[test]
fn sparse_classifier_grown_model_serde_roundtrip() {
    let (xtr, ytr) = make_xor(3000, 0.1, 12);
    let (xte, _) = make_xor(500, 0.0, 13);
    let e12 = Encoder::for_binary(N_FEATURES);
    let mut tm = TMSparseClassifier::with_config(2, N_FEATURES, 10, 15, f(3.9), 8, true, 7)
        .max_included_literals(8);
    for _ in 0..15 {
        tm.fit_epoch(&encode(&xtr, &e12), &ytr);
    }

    tm.grow_features(20);
    let e20 = Encoder::for_binary(20);
    let xtr20 = pad_to(&xtr, 20);
    for _ in 0..5 {
        tm.fit_epoch(&encode(&xtr20, &e20), &ytr);
    }

    let mut buf = Vec::new();
    tm.write_to(&mut buf);
    let loaded = TMSparseClassifier::read_from(buf.as_slice()).unwrap();

    let bte20 = encode(&pad_to(&xte, 20), &e20);
    assert_eq!(tm.predict_batch(&bte20), loaded.predict_batch(&bte20));
}

#[test]
fn serde_round_trip() {
    let (tm, te, _) = train_sparse(3, 8);
    let mut buf = Vec::new();
    tm.write_to(&mut buf);
    let loaded = TMSparseClassifier::read_from(buf.as_slice()).unwrap();
    assert_eq!(tm.predict_batch(&te), loaded.predict_batch(&te));

    // Wrong-tag load must fail cleanly.
    let mut bad = buf.clone();
    bad[8] = 0xFE; // corrupt the type tag byte (after 4 magic + 4 version).
    assert!(TMSparseClassifier::read_from(bad.as_slice()).is_err());
}

#[test]
fn every_literal_is_in_exactly_one_pool() {
    let (tm, _, _) = train_sparse(4, 10);
    for class in &tm.classes {
        for c in &class.bank.clauses {
            let mut all: Vec<u32> = c.included.iter().chain(&c.excluded).chain(&c.unallocated).copied().collect();
            all.sort();
            assert_eq!(all, (0..2 * N_FEATURES as u32).collect::<Vec<u32>>());
        }
    }
}

#[test]
fn absorbed_literals_never_come_back() {
    let (xtr, ytr) = make_xor(1000, 0.1, 5);
    let enc = Encoder::for_binary(N_FEATURES);
    let b = encode(&xtr, &enc);
    let mut tm = TMSparseClassifier::with_config(2, N_FEATURES, 6, 15, f(3.9), 4, true, 7);
    let mut gone: Vec<Vec<u32>> = vec![Vec::new(); 12];
    for _ in 0..10 {
        tm.fit_epoch(&b, &ytr);
        for (j, before) in gone.iter_mut().enumerate() {
            let now = &tm.classes[j / 6].bank.clauses[j % 6].unallocated;
            assert_eq!(&now[..before.len()], &before[..]);
            *before = now.clone();
        }
    }
    assert!(gone.iter().any(|g| !g.is_empty()));
    let (n, all) = tm.absorbed_exclude_fraction();
    assert_eq!(n, gone.iter().map(|g| g.len()).sum::<usize>());
    assert_eq!(all, 2 * 6 * 2 * N_FEATURES);
}

#[test]
fn scores_of_a_sparse_machine_are_signed_sums() {
    let (tm, te, _) = train_sparse(6, 10);
    let w = tm.words_per_sample();
    for i in 0..40 {
        let s = tmu_rs::EncodedSample(te.data[i * w..(i + 1) * w].to_vec());
        let mut out = [0i32; 2];
        tm.scores(&s, &mut out);
        for c in 0..2 {
            let sum: i32 = tm
                .fired_clauses(&s, c)
                .iter()
                .map(|&j| if j % 2 == 0 { tm.clause_weight(c, j) } else { -tm.clause_weight(c, j) })
                .sum();
            assert_eq!(out[c], sum.clamp(-15, 15));
        }
        assert_eq!(tm.predict(&s), if out[1] > out[0] { 1 } else { 0 });
    }
}

#[test]
fn a_saved_sparse_machine_trains_on_alike() {
    let (xtr, ytr) = make_xor(500, 0.1, 5);
    let enc = Encoder::for_binary(N_FEATURES);
    let b = encode(&xtr, &enc);
    let mut tm = TMSparseClassifier::with_config(2, N_FEATURES, 6, 15, f(3.9), 6, false, 7)
        .clause_drop_p(f(0.2))
        .literal_drop_p(f(0.1))
        .class_weights(scales(vec![0.7, 1.9]));
    tm.fit_epoch(&b, &ytr);
    let mut buf = Vec::new();
    tm.write_to(&mut buf);
    let mut loaded = TMSparseClassifier::read_from(&buf).unwrap();
    for _ in 0..4 {
        tm.fit_epoch(&b, &ytr);
        loaded.fit_epoch(&b, &ytr);
    }
    assert_eq!(weights(&tm), weights(&loaded));
    let (mut x, mut y) = (Vec::new(), Vec::new());
    tm.write_to(&mut x);
    loaded.write_to(&mut y);
    assert_eq!(x, y);
}

#[test]
fn pools_that_do_not_split_the_literals_are_refused() {
    let tm = TMSparseClassifier::with_config(2, 2, 2, 5, f(2.0), 4, true, 1);
    let mut buf = Vec::new();
    tm.write_to(&mut buf);
    assert!(TMSparseClassifier::read_from(&buf).is_ok());
    // The first excluded literal of the first clause becomes the same as the second.
    let at = 9 + (8 + 14 * 8) + 8 + (8 + 2 * 8) + 8 + 8 + 8 + 8 + 8;
    assert_eq!(buf[at..at + 8], [0, 0, 0, 0, 1, 0, 0, 0]);
    let mut bad = buf.clone();
    bad[at] = 1;
    assert_eq!(TMSparseClassifier::read_from(&bad).err(), Some(SerialError::Inconsistent));
    let mut other = buf.clone();
    other[8] = TAG_VANILLA;
    assert_eq!(
        TMSparseClassifier::read_from(&other).err(),
        Some(SerialError::WrongTag { found: TAG_VANILLA, expected: TAG_SPARSE })
    );
}
