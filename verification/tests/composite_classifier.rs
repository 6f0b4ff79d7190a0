//! Ensembles of machines.
use tmu_rs::dyadic::Dyadic;
use tmu_rs::{EncodedSample, Encoder, Rng, SaveLoad, TMCompositeClassifier, TsetlinMachine};

fn f(x: f64) -> Dyadic {
    Dyadic::from_bits(x.to_bits()).unwrap()
}

#[allow(dead_code)]
fn share(part: (usize, usize)) -> f64 {
    part.0 as f64 / part.1 as f64
}

#[allow(dead_code)]
fn next_f64(rng: &mut Rng) -> f64 {
    rng.next_fraction() as f64 / (1u64 << 53) as f64
}

fn make_xor(n: usize, seed: u64) -> (Vec<Vec<u8>>, Vec<usize>) {
    let mut rng = Rng::new(seed);
    let mut xs = Vec::with_capacity(n);
    let mut ys = Vec::with_capacity(n);
    for _ in 0..n {
        let f: Vec<u8> = (0..12).map(|_| (rng.next_u64() & 1) as u8).collect();
        let y = (f[0] ^ f[1]) as usize;
        xs.push(f);
        ys.push(y);
    }
    (xs, ys)
}

fn as_slices(xs: &[Vec<u8>]) -> Vec<&[u8]> {
    xs.iter().map(|v| v.as_slice()).collect()
}

#[test]
fn composite_empty() {
    let c = TMCompositeClassifier::new();
    assert!(c.is_empty());
    assert_eq!(c.n_classes(), 0);
}

#[test]
fn composite_add_returns_self() {
    let mut c = TMCompositeClassifier::new();
    c.add(TsetlinMachine::new(2, 12, 8, 15, f(3.9)));
    assert_eq!(c.len(), 1);
    assert_eq!(c.n_classes(), 2);
}

#[test]
fn composite_predict_valid_class() {
    let (xs, _) = make_xor(10, 1);
    let enc = Encoder::for_binary(12);
    let rows: Vec<&[u8]> = xs.iter().map(|v| v.as_slice()).collect();
    let batch = enc.encode_batch(&rows);

    let mut c = TMCompositeClassifier::new();
    c.add(TsetlinMachine::new(2, 12, 8, 15, f(3.9)));
    c.add(TsetlinMachine::new(2, 12, 8, 15, f(3.9)));

    let preds = c.predict_batch(&batch);
    assert!(preds.iter().all(|&p| p < 2));
}

#[test]
fn composite_learns_xor() {
    let (xtr, ytr) = make_xor(3000, 1);
    let (xte, yte) = make_xor(1000, 2);
    let enc = Encoder::for_binary(12);
    let btr = enc.encode_batch(&as_slices(&xtr));
    let bte = enc.encode_batch(&as_slices(&xte));

    let mut composite = TMCompositeClassifier::new();
    // Three small models that together can solve XOR
    for seed in [10u64, 20, 30] {
        composite.add(TsetlinMachine::with_config(2, 12, 6, 10, f(3.9), 8, true, seed));
    }

    for _ in 0..20 {
        composite.fit_epoch(&btr, &ytr);
    }
    let acc = share(composite.accuracy(&bte, &yte));
    assert!(acc > 0.75, "ensemble accuracy {acc:.3} should beat chance significantly");
}

#[test]
fn composite_scores_argmax_matches_predict() {
    let (xs, _) = make_xor(50, 4);
    let enc = Encoder::for_binary(12);
    let rows: Vec<&[u8]> = xs.iter().map(|v| v.as_slice()).collect();
    let batch = enc.encode_batch(&rows);

    let mut c = TMCompositeClassifier::new();
    c.add(TsetlinMachine::with_config(2, 12, 8, 10, f(3.0), 8, true, 1));
    c.add(TsetlinMachine::with_config(2, 12, 8, 10, f(3.0), 8, true, 2));

    let words = batch.words;
    let mut buf = vec![0i32; 2];
    for (i, &_y) in (0..xs.len()).zip(vec![0usize; xs.len()].iter()) {
        let sample = EncodedSample(batch.data[i * words..(i + 1) * words].to_vec());
        c.scores(&sample, &mut buf);
        let argmax = buf.iter().enumerate().max_by_key(|&(_, &v)| v).map(|(j, _)| j).unwrap();
        assert_eq!(argmax, c.predict(&sample));
    }
}

#[test]
fn composite_save_load_roundtrip() {
    let (xs, ys) = make_xor(500, 7);
    let enc = Encoder::for_binary(12);
    let rows: Vec<&[u8]> = xs.iter().map(|v| v.as_slice()).collect();
    let batch = enc.encode_batch(&rows);

    let mut c = TMCompositeClassifier::new();
    c.add(TsetlinMachine::with_config(2, 12, 6, 10, f(3.9), 8, true, 1));
    c.add(TsetlinMachine::with_config(2, 12, 6, 10, f(3.9), 8, true, 2));
    for _ in 0..5 {
        c.fit_epoch(&batch, &ys);
    }

    let mut buf = Vec::new();
    c.write_to(&mut buf);
    let loaded = TMCompositeClassifier::read_from(&buf).unwrap();

    let preds_orig = c.predict_batch(&batch);
    let preds_loaded = loaded.predict_batch(&batch);
    assert_eq!(preds_orig, preds_loaded);
}

#[test]
fn summed_scores_are_sums_of_the_members_scores() {
    let (xs, ys) = make_xor(100, 4);
    let enc = Encoder::for_binary(12);
    let batch = enc.encode_batch(&as_slices(&xs));
    let mut c = TMCompositeClassifier::new();
    for seed in [1u64, 2, 3] {
        c.add(TsetlinMachine::with_config(2, 12, 8, 10, f(3.0), 8, true, seed));
    }
    c.fit_epoch(&batch, &ys);
    for x in xs.iter().take(20) {
        let s = enc.encode_one(x);
        let mut all = [0i32; 2];
        c.scores(&s, &mut all);
        let mut want = [0i32; 2];
        for m in c.classifiers() {
            let mut one = [0i32; 2];
            m.scores(&s, &mut one);
            want[0] += one[0];
            want[1] += one[1];
        }
        assert_eq!(all, want);
    }
}

#[test]
fn members_train_as_they_would_alone() {
    let (xs, ys) = make_xor(100, 4);
    let batch = Encoder::for_binary(12).encode_batch(&as_slices(&xs));
    let mut alone = TsetlinMachine::with_config(2, 12, 8, 10, f(3.0), 8, true, 9);
    let mut c = TMCompositeClassifier::default();
    c.add(alone.clone());
    c.fit_epoch(&batch, &ys);
    alone.fit_epoch(&batch, &ys);
    let (mut x, mut y) = (Vec::new(), Vec::new());
    alone.write_to(&mut x);
    c.classifiers_mut()[0].write_to(&mut y);
    assert_eq!(x, y);
}

#[test]
fn members_train_with_threads_as_they_ask_for() {
    let (xs, ys) = make_xor(200, 3);
    let batch = Encoder::for_binary(12).encode_batch(&as_slices(&xs));
    let exact = TsetlinMachine::with_config(2, 12, 80, 15, f(3.9), 8, true, 1);
    let quick = TsetlinMachine::with_config(2, 12, 80, 15, f(3.9), 8, true, 2).data_parallel(true);
    let mut c = TMCompositeClassifier::new();
    c.add(exact.clone());
    c.add(quick.clone());
    c.fit_epoch_threads(&batch, &ys, 4);
    let (mut a, mut b) = (exact, quick);
    a.fit_epoch(&batch, &ys);
    b.fit_epoch_data_parallel(&batch, &ys, 4);
    for (member, alone) in c.classifiers.iter().zip([&a, &b]) {
        let (mut u, mut v) = (Vec::new(), Vec::new());
        member.write_to(&mut u);
        alone.write_to(&mut v);
        assert_eq!(u, v);
    }
    let mut w = Vec::new();
    c.write_to(&mut w);
    let loaded = TMCompositeClassifier::read_from(&w).unwrap();
    assert!(loaded.classifiers.iter().all(|m| !m.config.data_parallel));
}
