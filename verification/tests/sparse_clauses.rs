//! Sparse clauses and their absorbing states.
use tmu_rs::bits::{pack, words_for};
use tmu_rs::clause_bank::sparse::SparseClauseBank;
use tmu_rs::dyadic::Dyadic;
use tmu_rs::rng::Rng;

/// A bank over 8-bit counters.
fn bank(n_clauses: usize, n_features: usize) -> SparseClauseBank {
    SparseClauseBank::new(n_clauses, 2 * n_features, 8)
}

fn pack_feats(feats: &[u8]) -> Vec<u64> {
    let mut out = vec![0u64; words_for(2 * feats.len())];
    pack(feats, feats.len(), &mut out);
    out
}

fn all_active(words: usize) -> Vec<u64> {
    vec![!0u64; words]
}

fn force_include(b: &mut SparseClauseBank, cj: usize, l: u32, state: u8) {
    let c = &mut b.clauses[cj];
    if let Some(pos) = c.excluded.iter().position(|&x| x == l) {
        c.excluded.swap_remove(pos);
        c.excluded_state.swap_remove(pos);
    }
    c.included.push(l);
    c.included_state.push(state);
}

fn gate(p: f64) -> u64 {
    Dyadic::from_bits(p.to_bits()).unwrap().chance().floor
}

#[allow(clippy::too_many_arguments)]
fn type_i(
    b: &mut SparseClauseBank,
    cj: usize,
    lit: &[u64],
    act: &[u64],
    fired: bool,
    boost: bool,
    rng: &mut Rng,
    inv_p: f64,
    keep_p: f64,
    max_included: usize,
) {
    let (half, max_state) = b.dims();
    let n = b.n_literals;
    let clauses = b.clauses_mut();
    clauses[cj].type_i(lit, act, fired, boost, rng, gate(inv_p), gate(keep_p) + 1, max_included, half, max_state, n);
}

fn type_ii(b: &mut SparseClauseBank, cj: usize, lit: &[u64], act: &[u64]) {
    let (half, max_state) = b.dims();
    let n = b.n_literals;
    b.clauses_mut()[cj].type_ii(lit, act, half, max_state, n);
}

#[test]
fn fire_predict_empty_is_false() {
    let b = bank(1, 4);
    let lit = pack_feats(&[1, 0, 1, 0]);
    assert!(!b.fire_predict(0, &lit));
}

#[test]
fn fire_train_empty_is_true() {
    let b = bank(1, 4);
    let lit = pack_feats(&[1, 0, 1, 0]);
    let act = all_active(lit.len());
    assert!(b.fire_train(0, &lit, &act));
}

#[test]
fn fire_predict_all_included_present_true_else_false() {
    let mut b = bank(1, 4);
    force_include(&mut b, 0, 0, 200);
    force_include(&mut b, 0, 4 + 1, 200);
    let good = pack_feats(&[1, 0, 0, 0]);
    assert!(b.fire_predict(0, &good));
    let bad = pack_feats(&[1, 1, 0, 0]);
    assert!(!b.fire_predict(0, &bad));
}

#[test]
fn type_i_promotes_excluded_present_to_included() {
    let mut b = bank(1, 4);
    let half = b.half;
    let c = &mut b.clauses[0];
    let pos = c.excluded.iter().position(|&x| x == 0).unwrap();
    c.excluded_state[pos] = half - 1;

    let lit = pack_feats(&[1, 0, 0, 0]);
    let act = all_active(lit.len());
    let mut rng = Rng::new(7);
    type_i(&mut b, 0, &lit, &act, true, true, &mut rng, 1.0, 1.0, usize::MAX);
    assert!(
        b.included_literals(0).contains(&0),
        "present literal at boundary should be promoted to included"
    );
}

#[test]
fn type_i_demotes_included_absent_below_half() {
    let mut b = bank(1, 4);
    let half = b.half;
    force_include(&mut b, 0, 0, half);
    let lit = pack_feats(&[0, 0, 0, 0]);
    let act = all_active(lit.len());
    let mut rng = Rng::new(3);
    type_i(&mut b, 0, &lit, &act, true, true, &mut rng, 1.0, 1.0, usize::MAX);
    assert!(
        !b.included_literals(0).contains(&0),
        "included literal that fell below half should be demoted"
    );
}

#[test]
fn absorbing_exclude_removes_from_pool_permanently() {
    let mut b = bank(1, 4);
    let c = &mut b.clauses[0];
    let pos = c.excluded.iter().position(|&x| x == 0).unwrap();
    c.excluded_state[pos] = 1;

    let lit = pack_feats(&[0, 0, 0, 0]);
    let act = all_active(lit.len());
    let mut rng = Rng::new(11);

    let before = b.clauses[0].excluded.len();
    type_i(&mut b, 0, &lit, &act, false, false, &mut rng, 1.0, 1.0, usize::MAX);
    let after = b.clauses[0].excluded.len();
    assert_eq!(after, before - 1, "literal should leave the excluded pool");
    assert!(b.clauses[0].unallocated.contains(&0));

    for _ in 0..1000 {
        type_i(&mut b, 0, &lit, &act, false, false, &mut rng, 1.0, 1.0, usize::MAX);
    }
    assert!(b.clauses[0].unallocated.contains(&0));
    assert!(!b.clauses[0].excluded.contains(&0));
}

#[test]
fn absorbing_include_locks() {
    let mut b = bank(1, 4);
    let max_state = b.max_state;
    force_include(&mut b, 0, 0, max_state);
    let lit = pack_feats(&[0, 0, 0, 0]);
    let act = all_active(lit.len());
    let mut rng = Rng::new(5);
    for _ in 0..1000 {
        type_i(&mut b, 0, &lit, &act, false, false, &mut rng, 1.0, 1.0, usize::MAX);
    }
    assert!(
        b.included_literals(0).contains(&0),
        "max_state literal must survive 1000 Ib decrement rounds"
    );
}

#[test]
fn max_included_blocks_promotion() {
    let mut b = bank(1, 4);
    let max_state = b.max_state;
    let half = b.half;
    force_include(&mut b, 0, 0, max_state);
    let c = &mut b.clauses[0];
    let pos = c.excluded.iter().position(|&x| x == 1).unwrap();
    c.excluded_state[pos] = half - 1;

    let lit = pack_feats(&[1, 1, 0, 0]);
    let act = all_active(lit.len());
    let mut rng = Rng::new(9);
    type_i(&mut b, 0, &lit, &act, true, true, &mut rng, 1.0, 1.0, 1);
    assert_eq!(b.n_included(0), 1, "at the include limit, no new literal should be promoted");
}

#[test]
fn grow_remaps_negated_indices_and_adds_excluded() {
    let mut b = bank(1, 4);
    let half = b.half;
    force_include(&mut b, 0, 1, 200);
    force_include(&mut b, 0, 6, 200);
    {
        let c = &mut b.clauses[0];
        let pos = c.excluded.iter().position(|&x| x == 5).unwrap();
        c.excluded.swap_remove(pos);
        c.excluded_state.swap_remove(pos);
        c.unallocated.push(5);
    }

    b.grow(14);

    let c = &b.clauses[0];
    assert!(c.included.contains(&1), "positive index must be unchanged");
    assert!(c.included.contains(&(6 + 3)), "negated index must shift by 3");
    assert!(c.unallocated.contains(&(5 + 3)), "unallocated negated index must shift");
    for l in [4u32, 5, 6, 11, 12, 13] {
        let pos = c.excluded.iter().position(|&x| x == l);
        assert!(pos.is_some(), "new literal {l} must be in excluded");
        assert_eq!(c.excluded_state[pos.unwrap()], half - 1);
    }
    assert_eq!(b.n_literals, 14);
}

#[test]
fn sparse_grow_noop_when_equal() {
    let mut b = bank(1, 4);
    force_include(&mut b, 0, 2, 200);
    let before = b.clauses[0].clone();
    b.grow(8);
    assert_eq!(b.n_literals, 8);
    assert_eq!(b.clauses[0].included, before.included);
    assert_eq!(b.clauses[0].excluded, before.excluded);
}

#[test]
fn determinism_same_seed_same_lists() {
    let run = || {
        let mut b = bank(2, 4);
        let lit = pack_feats(&[1, 0, 1, 1]);
        let act = all_active(lit.len());
        let mut rng = Rng::new(42);
        for _ in 0..50 {
            type_i(&mut b, 0, &lit, &act, true, false, &mut rng, 0.3, 0.7, usize::MAX);
            type_ii(&mut b, 1, &lit, &act);
        }
        (b.included_literals(0).to_vec(), b.included_literals(1).to_vec())
    };
    assert_eq!(run(), run());
}

#[test]
fn type_ii_raises_absent_candidates_only() {
    let mut b = bank(1, 2);
    let half = b.half;
    let lit = pack_feats(&[1, 0]);
    let act = all_active(lit.len());
    type_ii(&mut b, 0, &lit, &act);
    // Literals 1 and 2 are absent and reach the threshold; 0 and 3 are present and stay.
    let mut now = b.included_literals(0).to_vec();
    now.sort();
    assert_eq!(now, vec![1, 2]);
    assert!(b.clauses[0].included_state.iter().all(|&s| s == half));
    assert!(b.clauses[0].excluded_state.iter().all(|&s| s == half - 1));
    assert!(!b.fire_train(0, &lit, &act));
}

#[test]
fn inactive_literals_are_left_alone() {
    let mut b = bank(1, 4);
    let lit = pack_feats(&[0, 1, 0, 1]);
    let none = vec![0u64; lit.len()];
    let before = b.clauses[0].clone();
    let mut rng = Rng::new(2);
    type_i(&mut b, 0, &lit, &none, true, true, &mut rng, 1.0, 1.0, usize::MAX);
    type_ii(&mut b, 0, &lit, &none);
    assert_eq!(b.clauses[0].excluded, before.excluded);
    assert_eq!(b.clauses[0].excluded_state, before.excluded_state);
    assert!(b.fire_train(0, &lit, &none));
}

#[test]
fn absorption_is_counted() {
    let mut b = bank(2, 3);
    assert_eq!(b.total_literals(), 12);
    assert_eq!(b.count_absorbed_exclude(), 0);
    assert_eq!(b.count_absorbing_include(), (0, 12));
    let max_state = b.max_state;
    force_include(&mut b, 0, 0, max_state);
    let c = &mut b.clauses[1];
    let pos = c.excluded.iter().position(|&x| x == 4).unwrap();
    c.excluded.swap_remove(pos);
    c.excluded_state.swap_remove(pos);
    c.unallocated.push(4);
    assert_eq!(b.count_absorbing_include(), (1, 11));
    assert_eq!(b.count_absorbed_exclude(), 1);
}

#[test]
fn counts_of_literals_add_up() {
    let mut b = bank(3, 4);
    assert_eq!(b.count_absorbing_include(), (0, 24));
    assert_eq!(b.count_absorbed_exclude(), 0);
    let lit = pack_feats(&[1, 0, 1, 0]);
    let act = all_active(lit.len());
    let mut rng = Rng::new(3);
    for i in 0..900 {
        type_i(&mut b, i % 3, &lit, &act, i % 2 == 0, true, &mut rng, 0.5, 0.5, 8);
        let (at_max, total) = b.count_absorbing_include();
        assert_eq!(total + b.count_absorbed_exclude(), b.total_literals());
        assert!(at_max <= total);
    }
    assert!(b.count_absorbed_exclude() > 0);
}

#[test]
fn firing_needs_only_the_words_of_included_literals() {
    let mut b = bank(1, 60);
    force_include(&mut b, 0, 3, 200);
    let lit = [0b1000u64];
    assert!(b.fire_predict(0, &lit));
    assert!(b.fire_train(0, &lit, &[!0u64, !0u64]));
    assert!(!b.fire_train(0, &[0, 0], &[!0u64]));
    assert!(b.fire_train(0, &[0], &[0, 0]));
}
