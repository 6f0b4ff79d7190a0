//! The convolutional machine.
use tmu_rs::dyadic::Dyadic;
use tmu_rs::models::classification::patches::PatchGrid;
use tmu_rs::{ConvolutionalTsetlinMachine, Rng, SaveLoad};

fn f(x: f64) -> Dyadic {
    Dyadic::from_bits(x.to_bits()).unwrap()
}

#[allow(dead_code)]
fn share(part: (usize, usize)) -> f64 {
    part.0 as f64 / part.1 as f64
}

#[allow(dead_code)]
fn next_f64(rng: &mut Rng) -> f64 {
    rng.next_fraction() as f64 / (1u64 << 53) as f64
}

fn make_xor_sequence(n: usize, n_features: usize, seed: u64) -> (Vec<Vec<u8>>, Vec<usize>) {
    let mut rng = Rng::new(seed);
    let mut xs = Vec::with_capacity(n);
    let mut ys = Vec::with_capacity(n);
    for _ in 0..n {
        let f: Vec<u8> = (0..n_features)
            .map(|_| (rng.next_u64() & 1) as u8)
            .collect();
        let y = (f[0] ^ f[1]) as usize;
        ys.push(y);
        xs.push(f);
    }
    (xs, ys)
}

fn as_slices(xs: &[Vec<u8>]) -> Vec<&[u8]> {
    xs.iter().map(|v| v.as_slice()).collect()
}

#[test]
fn convolutional_constructs() {
    let ctm = ConvolutionalTsetlinMachine::new(2, 16, 4, 2, 20, 100, f(3.9));
    assert_eq!(ctm.n_classes(), 2);
    assert_eq!(ctm.kernel_size(), 4);
    assert_eq!(ctm.n_patches(), 7); // (16 - 4) / 2 + 1 = 7
}

#[test]
fn convolutional_stride_1_n_patches() {
    let ctm = ConvolutionalTsetlinMachine::new(2, 10, 3, 1, 4, 10, f(2.0));
    assert_eq!(ctm.n_patches(), 8); // (10 - 3) / 1 + 1 = 8
}

#[test]
fn convolutional_full_kernel_one_patch() {
    let ctm = ConvolutionalTsetlinMachine::new(2, 8, 8, 1, 4, 10, f(2.0));
    assert_eq!(ctm.n_patches(), 1);
}

#[test]
fn convolutional_predict_returns_valid_class() {
    let ctm = ConvolutionalTsetlinMachine::new(3, 12, 4, 2, 8, 20, f(3.0));
    let x = vec![0u8, 1, 0, 1, 1, 0, 0, 1, 0, 0, 1, 1];
    let pred = ctm.predict(&x);
    assert!(pred < 3);
}

#[test]
fn convolutional_trains_without_panic() {
    let (xs, ys) = make_xor_sequence(200, 12, 1);
    let slices = as_slices(&xs);
    let mut ctm = ConvolutionalTsetlinMachine::new(2, 12, 4, 2, 10, 20, f(3.0));
    for _ in 0..3 {
        ctm.fit_epoch(&slices, &ys);
    }
    let acc = share(ctm.accuracy(&slices, &ys));
    assert!((0.0..=1.0).contains(&acc));
}

#[test]
fn convolutional_learns_xor_in_first_features() {
    // 4 features, kernel=2, stride=1 → 3 patches ([0,1], [1,2], [2,3]).
    // XOR of features 0,1 lives in patch 0; patches 1,2 add noise (2 features
    // irrelevant).  60 clauses and 40 epochs are sufficient to learn through
    // the signal dilution from the two irrelevant patches.
    let (xtr, ytr) = make_xor_sequence(3000, 4, 1);
    let (xte, yte) = make_xor_sequence(800, 4, 2);
    let tr = as_slices(&xtr);
    let te = as_slices(&xte);
    let mut ctm =
        ConvolutionalTsetlinMachine::with_config(2, 4, 2, 1, 60, 50, f(3.5), 8, true, 42);
    for _ in 0..40 {
        ctm.fit_epoch(&tr, &ytr);
    }
    let acc = share(ctm.accuracy(&te, &yte));
    assert!(
        acc > 0.65,
        "accuracy {acc:.3} should exceed 65% for learnable XOR in 3-patch setup"
    );
}

#[test]
fn convolutional_clause_rule_feature_indices_in_range() {
    let ctm = ConvolutionalTsetlinMachine::new(2, 12, 4, 2, 8, 20, f(3.0));
    for rule_feat in ctm.clause_rule(0, 0).iter().map(|&(f, _)| f) {
        assert!(
            rule_feat < ctm.kernel_size(),
            "feature index out of patch range"
        );
    }
}

#[test]
fn convolutional_scores_argmax_matches_predict() {
    let (xs, ys) = make_xor_sequence(200, 8, 3);
    let slices = as_slices(&xs);
    let mut ctm = ConvolutionalTsetlinMachine::new(2, 8, 2, 1, 10, 20, f(3.0));
    for _ in 0..5 {
        ctm.fit_epoch(&slices, &ys);
    }
    let mut out = vec![0i32; 2];
    for x in &xs[..20] {
        ctm.scores(x, &mut out);
        let argmax = out
            .iter()
            .enumerate()
            .max_by_key(|&(_, &v)| v)
            .map(|(i, _)| i)
            .unwrap();
        assert_eq!(argmax, ctm.predict(x));
    }
}

#[test]
fn convolutional_save_load_roundtrip() {
    let (xs, ys) = make_xor_sequence(300, 8, 5);
    let slices = as_slices(&xs);
    let mut ctm = ConvolutionalTsetlinMachine::new(2, 8, 2, 1, 10, 20, f(3.0));
    for _ in 0..5 {
        ctm.fit_epoch(&slices, &ys);
    }
    let mut buf = Vec::new();
    ctm.write_to(&mut buf);
    let loaded = ConvolutionalTsetlinMachine::read_from(&buf).unwrap();
    for x in &xs[..50] {
        assert_eq!(ctm.predict(x), loaded.predict(x));
    }
}

#[test]
fn convolutional_classifier_type_iii_constructs_without_panic() {
    let _ctm = ConvolutionalTsetlinMachine::new(2, 8, 2, 1, 10, 20, f(3.0))
        .type_iii_feedback(f(200.0));
}

#[test]
fn convolutional_classifier_type_iii_trains_without_panic() {
    let (xs, ys) = make_xor_sequence(300, 8, 7);
    let slices = as_slices(&xs);
    let mut ctm = ConvolutionalTsetlinMachine::new(2, 8, 2, 1, 10, 20, f(3.0))
        .type_iii_feedback(f(200.0));
    for _ in 0..5 {
        ctm.fit_epoch(&slices, &ys);
    }
}

#[test]
fn patches_of_a_grid_are_counted_in_both_directions() {
    let ctm = ConvolutionalTsetlinMachine::new_2d(2, 6, 5, 3, 2, 1, 4, 10, f(3.0));
    assert_eq!(ctm.n_patches(), (6 - 3 + 1) * (5 - 2 + 1));
    assert_eq!((ctm.patch_rows(), ctm.patch_cols()), (3, 2));
    assert_eq!((ctm.input_rows(), ctm.input_cols()), (6, 5));
    assert_eq!(ctm.kernel_size(), 2);
    assert_eq!(ctm.n_input_features(), 30);
    let strided = ConvolutionalTsetlinMachine::new_2d(2, 6, 6, 2, 2, 2, 4, 10, f(3.0));
    assert_eq!(strided.n_patches(), 9);
}

#[test]
fn a_clause_fires_where_one_of_the_patches_satisfies_it() {
    let mut ctm = ConvolutionalTsetlinMachine::with_config(2, 6, 2, 1, 2, 10, f(3.0), 8, true, 1);
    // Clause 0 of class 1 wants the pattern 1, 0; no other clause votes.
    for class in ctm.classes.iter_mut() {
        for clause in class.clauses.iter_mut() {
            clause.auto.ta.iter_mut().for_each(|t| *t = 0);
            clause.auto.inc.iter_mut().for_each(|w| *w = 0);
        }
    }
    let c = &mut ctm.classes[1].clauses[0];
    c.auto.ta[0] = 200;
    c.auto.ta[3] = 200;
    c.auto.inc[0] = 0b1001;
    let mut out = [0i32; 2];
    ctm.scores(&[0, 0, 0, 1, 0, 0], &mut out);
    assert_eq!(out, [0, 1]);
    ctm.scores(&[0, 1, 1, 1, 1, 1], &mut out);
    assert_eq!(out, [0, 0]);
    // Two places that match count once.
    ctm.scores(&[1, 0, 1, 0, 1, 0], &mut out);
    assert_eq!(out, [0, 1]);
    // Ties go to the last class.
    assert_eq!(ctm.predict(&[0, 0, 0, 0, 0, 0]), 1);
}

#[test]
fn a_grid_of_one_row_is_a_sequence() {
    let (xs, ys) = make_xor_sequence(100, 9, 3);
    let slices = as_slices(&xs);
    let mut a = ConvolutionalTsetlinMachine::with_config(2, 9, 3, 2, 6, 10, f(3.0), 8, true, 5);
    let mut b = ConvolutionalTsetlinMachine::with_config_2d(2, 1, 9, 1, 3, 2, 6, 10, f(3.0), 8, true, 5);
    for _ in 0..3 {
        a.fit_epoch(&slices, &ys);
        b.fit_epoch(&slices, &ys);
    }
    assert_eq!(a.predict_batch(&slices), b.predict_batch(&slices));
    assert_eq!(a.n_patches(), b.n_patches());
}

#[test]
fn a_saved_convolutional_machine_trains_on_alike() {
    let (xs, ys) = make_xor_sequence(100, 12, 3);
    let slices = as_slices(&xs);
    let mut a = ConvolutionalTsetlinMachine::with_config_2d(2, 3, 4, 2, 2, 1, 6, 10, f(3.0), 6, false, 5)
        .clause_drop_p(f(0.1))
        .literal_drop_p(f(0.1))
        .max_included_literals(4);
    a.fit_epoch(&slices, &ys);
    let mut buf = Vec::new();
    a.write_to(&mut buf);
    let mut b = ConvolutionalTsetlinMachine::read_from(&buf).unwrap();
    a.fit_epoch(&slices, &ys);
    b.fit_epoch(&slices, &ys);
    let (mut x, mut y) = (Vec::new(), Vec::new());
    a.write_to(&mut x);
    b.write_to(&mut y);
    assert_eq!(x, y);
}

#[test]
fn one_row_patches_do_not_cross_the_border_of_a_row() {
    let m = ConvolutionalTsetlinMachine::with_config_2d(2, 2, 3, 1, 2, 1, 2, 10, f(3.0), 8, true, 1);
    assert_eq!(m.n_patches(), 4);
    let grid = PatchGrid::new(2, 3, 1, 2, 1);
    let x = [0u8, 0, 0, 1, 1, 0];
    // Patches of two features each: the positive literals, then the negated ones.
    let packed: Vec<Vec<u64>> = (0..4).map(|p| grid.pack_patch(&x, p)).collect();
    assert_eq!(packed, vec![vec![0b1100], vec![0b1100], vec![0b0011], vec![0b1001]]);
    assert_eq!(grid.pack_all_patches(&x), packed);
    assert_eq!(m.pack_all_patches(&x), packed);
    assert_eq!(m.pack_patch(&x, 2), vec![0b0011]);
}

#[test]
fn the_patches_of_a_sequence_follow_its_stride() {
    let grid = PatchGrid::new(1, 6, 1, 2, 2);
    let x = [1u8, 0, 0, 1, 1, 1];
    assert_eq!(grid.pack_all_patches(&x), vec![vec![0b1001], vec![0b0110], vec![0b0011]]);
}
