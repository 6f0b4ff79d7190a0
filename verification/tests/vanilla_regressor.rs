//! The regressor.
use tmu_rs::dyadic::Dyadic;
use tmu_rs::models::regression::target::Target;
use tmu_rs::{ClauseInspect, Encoder, Rng, SaveLoad, TMRegressor};

fn f(x: f64) -> Dyadic {
    Dyadic::from_bits(x.to_bits()).unwrap()
}

#[allow(dead_code)]
fn share(part: (usize, usize)) -> f64 {
    part.0 as f64 / part.1 as f64
}

#[allow(dead_code)]
fn next_f64(rng: &mut Rng) -> f64 {
    rng.next_fraction() as f64 / (1u64 << 53) as f64
}

fn targets(ys: &[f64]) -> Vec<Target> {
    ys.iter().map(|y| Target::from_bits(y.to_bits())).collect()
}

fn make_count_dataset(
    n: usize,
    n_features: usize,
    threshold: i32,
    seed: u64,
) -> (Vec<Vec<u8>>, Vec<f64>) {
    let mut rng = Rng::new(seed);
    let mut xs = Vec::with_capacity(n);
    let mut ys = Vec::with_capacity(n);
    let scale = threshold as f64 / n_features as f64;
    for _ in 0..n {
        let f: Vec<u8> = (0..n_features)
            .map(|_| (rng.next_u64() & 1) as u8)
            .collect();
        let count = f.iter().map(|&b| b as usize).sum::<usize>();
        ys.push(count as f64 * scale);
        xs.push(f);
    }
    (xs, ys)
}

fn as_slices(xs: &[Vec<u8>]) -> Vec<&[u8]> {
    xs.iter().map(|v| v.as_slice()).collect()
}

#[test]
fn regressor_constructs() {
    let tm = TMRegressor::new(12, 20, 100, f(3.9));
    assert_eq!(tm.n_features(), 12);
    assert_eq!(tm.n_clauses(), 20);
    assert_eq!(tm.threshold(), 100);
}

#[test]
fn regressor_predict_in_range() {
    let tm = TMRegressor::new(12, 20, 100, f(3.9));
    let enc = Encoder::for_binary(12);
    let sample = enc.encode_one(&[0u8, 1, 0, 1, 1, 0, 0, 1, 0, 0, 1, 1]);
    let v = tm.predict(&sample);
    assert!((0..=100).contains(&v));
}

#[test]
fn regressor_trains_without_panic() {
    let (xs, ys) = make_count_dataset(500, 10, 100, 1);
    let enc = Encoder::for_binary(10);
    let rows: Vec<&[u8]> = xs.iter().map(|v| v.as_slice()).collect();
    let batch = enc.encode_batch(&rows);
    let mut tm = TMRegressor::new(10, 40, 100, f(3.0));
    for _ in 0..5 {
        tm.fit_epoch(&batch, &targets(&ys));
    }
    let mae = mae(&tm, &batch, &ys);
    assert!(
        mae < 50.0,
        "MAE {mae} should improve beyond random baseline"
    );
}

#[test]
fn regressor_learns_count_function() {
    let (xtr, ytr) = make_count_dataset(2000, 10, 100, 1);
    let (xte, yte) = make_count_dataset(500, 10, 100, 2);
    let enc = Encoder::for_binary(10);
    let btr = enc.encode_batch(&as_slices(&xtr));
    let bte = enc.encode_batch(&as_slices(&xte));
    let mut tm = TMRegressor::new(10, 80, 100, f(3.0));
    for _ in 0..30 {
        tm.fit_epoch(&btr, &targets(&ytr));
    }
    let mae = mae(&tm, &bte, &yte);
    // Loose bound: the count function is learnable; random baseline ≈ T/3 ≈ 33
    assert!(
        mae < 25.0,
        "MAE {mae:.2} should be well below random baseline"
    );
}

#[test]
fn regressor_clause_rule_returns_vec() {
    let tm = TMRegressor::new(8, 10, 50, f(3.0));
    let rule = tm.clause_rule(0);
    assert!(rule.iter().all(|&(f, _)| f < 8));
}

#[test]
fn regressor_clause_polarity() {
    let tm = TMRegressor::new(4, 6, 10, f(2.0));
    assert!(tm.clause_is_positive(0));
    assert!(!tm.clause_is_positive(1));
    assert!(tm.clause_is_positive(2));
}

#[test]
fn regressor_save_load_roundtrip() {
    let (xs, ys) = make_count_dataset(500, 8, 50, 3);
    let enc = Encoder::for_binary(8);
    let rows: Vec<&[u8]> = xs.iter().map(|v| v.as_slice()).collect();
    let batch = enc.encode_batch(&rows);
    let mut tm = TMRegressor::new(8, 20, 50, f(3.0));
    for _ in 0..5 {
        tm.fit_epoch(&batch, &targets(&ys));
    }
    let mut buf = Vec::new();
    tm.write_to(&mut buf);
    let loaded = TMRegressor::read_from(&buf).unwrap();
    let preds_orig = tm.predict_batch(&batch);
    let preds_loaded = loaded.predict_batch(&batch);
    assert_eq!(preds_orig, preds_loaded);
}

fn mae(tm: &TMRegressor, batch: &tmu_rs::EncodedBatch, ys: &[f64]) -> f64 {
    let preds = tm.predict_batch(batch);
    preds.iter().zip(ys).map(|(&p, &y)| (p as f64 - y).abs()).sum::<f64>() / ys.len() as f64
}

#[test]
fn error_gates_are_squared_relative_errors() {
    let scale = (1u64 << 53) as f64;
    for t in [10i32, 50, 100] {
        for v in [0i32, 3, 10] {
            for y in [0.0f64, 0.5, 3.0, 9.99, 10.0, -4.0, 250.0] {
                let e = (v as f64 - y) / t as f64;
                let p = (e * e).min(1.0);
                let gate = Target::from_bits(y.to_bits()).error_gate(v, t);
                for k in [gate.saturating_sub(1), gate, gate + 1] {
                    if k < (1u64 << 53) {
                        assert_eq!(k as f64 / scale <= p, k <= gate, "T={t} v={v} y={y}");
                    }
                }
                assert_eq!(Target::from_bits(y.to_bits()).above(v), (v as f64) < y);
            }
        }
    }
}

#[test]
fn an_exact_prediction_changes_nothing() {
    let enc = Encoder::for_binary(4);
    let mut tm = TMRegressor::new(4, 6, 10, f(2.0));
    let s = enc.encode_one(&[1, 0, 1, 0]);
    let y = tm.predict(&s) as f64;
    let before: Vec<Vec<u8>> = tm.clauses.iter().map(|c| c.auto.ta.clone()).collect();
    tm.fit_one(&s, Target::from_bits(y.to_bits()));
    let after: Vec<Vec<u8>> = tm.clauses.iter().map(|c| c.auto.ta.clone()).collect();
    assert_eq!(before, after);
}

#[test]
fn a_saved_regressor_trains_on_alike() {
    let (xs, ys) = make_count_dataset(200, 8, 50, 3);
    let batch = Encoder::for_binary(8).encode_batch(&as_slices(&xs));
    let mut a = TMRegressor::with_config(8, 20, 50, f(3.0), 6, false, 3)
        .clause_drop_p(f(0.1))
        .literal_drop_p(f(0.1))
        .max_included_literals(5);
    a.fit_epoch(&batch, &targets(&ys));
    let mut buf = Vec::new();
    a.write_to(&mut buf);
    let mut b = TMRegressor::read_from(&buf).unwrap();
    a.fit_epoch(&batch, &targets(&ys));
    b.fit_epoch(&batch, &targets(&ys));
    assert_eq!(a.predict_batch(&batch), b.predict_batch(&batch));
    assert_eq!(ClauseInspect::n_outputs(&a), 1);
    for j in 0..20 {
        assert_eq!(a.clause_weight(j), b.clause_weight(j));
        assert!((0..=50).contains(&a.clause_weight(j)));
    }
}
