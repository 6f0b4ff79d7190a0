//! What is handed to a device, and what comes back.
use tmu_rs::dyadic::Dyadic;
use tmu_rs::gpu::buffers::{build_prob_table, literal_bytes, pack_digits, read_words, Dims, GpuObstacle};
use tmu_rs::gpu::dispatch::{blocks, groups, infer_params, sample_params, PARAM_STRIDE};
use tmu_rs::sampling::bernoulli_mask;
use tmu_rs::{Encoder, Rng, TsetlinMachine};

fn f(x: f64) -> Dyadic {
    Dyadic::from_bits(x.to_bits()).unwrap()
}

fn make_xor(n: usize, bits: usize, seed: u64) -> (Vec<Vec<u8>>, Vec<usize>) {
    let mut rng = Rng::new(seed);
    let mut xs = Vec::with_capacity(n);
    let mut ys = Vec::with_capacity(n);
    for _ in 0..n {
        let x: Vec<u8> = (0..bits).map(|_| (rng.next_u64() & 1) as u8).collect();
        ys.push((x[0] ^ x[1]) as usize);
        xs.push(x);
    }
    (xs, ys)
}

fn encode(e: &Encoder, xs: &[Vec<u8>]) -> tmu_rs::EncodedBatch {
    let refs: Vec<&[u8]> = xs.iter().map(|v| v.as_slice()).collect();
    e.encode_batch(&refs)
}

#[test]
fn to_gpu_rejects_unsupported_options() {
    let encoder = Encoder::for_binary(8);

    let t3 = TsetlinMachine::with_config(2, encoder.n_features(), 8, 15, f(3.9), 8, true, 1)
        .type_iii_feedback(f(200.0));
    assert_eq!(t3.gpu_obstacle(u64::MAX), Some(GpuObstacle::TypeIii));

    let cd = TsetlinMachine::with_config(2, encoder.n_features(), 8, 15, f(3.9), 8, true, 1)
        .clause_drop_p(f(0.3));
    assert_eq!(cd.gpu_obstacle(u64::MAX), Some(GpuObstacle::ClauseDrop));

    let (xte, _) = make_xor(50, 8, 1);
    let test = encode(&encoder, &xte);
    let _ = t3.predict_batch(&test);
}

#[test]
fn machines_that_do_not_fit_a_binding_are_told() {
    let tm = TsetlinMachine::with_config(2, 8, 8, 15, f(3.9), 8, true, 1);
    assert_eq!(tm.gpu_obstacle(u64::MAX), None);
    // 16 clauses of 16 counters of 4 bytes.
    assert_eq!(tm.gpu_obstacle(1024), None);
    assert_eq!(tm.gpu_obstacle(1023), Some(GpuObstacle::CountersTooLarge { needed: 1024, max: 1023 }));
    // What is too large stays where it is; what is not offered is refused.
    assert_eq!(tm.goes_to_device(1024), Ok(true));
    assert_eq!(tm.goes_to_device(1023), Ok(false));
    let t3 = TsetlinMachine::with_config(2, 8, 8, 15, f(3.9), 8, true, 1).type_iii_feedback(f(5.0));
    assert_eq!(t3.goes_to_device(1), Err(GpuObstacle::TypeIii));
}

#[test]
fn plans_draw_what_training_draws() {
    let (xs, ys) = make_xor(60, 10, 4);
    let e = Encoder::for_binary(10);
    let b = encode(&e, &xs);
    for drop in [0.0, 0.3] {
        let make = || TsetlinMachine::with_config(3, 10, 6, 15, f(3.9), 8, true, 1).literal_drop_p(f(drop));
        let mut trained = make();
        let mut planned = make();
        trained.fit_epoch(&b, &ys);
        let plan = planned.gpu_epoch_plan(60, &ys);
        assert_eq!(trained.state.rng.raw(), planned.state.rng.raw());
        assert_eq!(trained.state.literal_rng.raw(), planned.state.literal_rng.raw());
        assert_eq!(plan.order.len(), 60);
        assert_eq!(plan.negs.len(), 60);
        for (k, &i) in plan.order.iter().enumerate() {
            assert_ne!(plan.negs[k], ys[i]);
        }
        if drop == 0.0 {
            assert!(plan.lit_active.is_empty());
        } else {
            let mut stream = make().state.literal_rng;
            let digits = tmu_rs::dyadic::digits_of(f(drop).one_minus().chance(), 12);
            let want: Vec<u64> = (0..60).flat_map(|_| bernoulli_mask(&mut stream, &digits, 1)).collect();
            assert_eq!(plan.lit_active, want);
        }
    }
}

#[test]
fn plans_for_replicas_cut_the_order_into_shards() {
    let ys: Vec<usize> = (0..10).map(|i| i % 2).collect();
    let mut tm = TsetlinMachine::with_config(2, 4, 4, 15, f(3.9), 8, true, 1);
    let p = tm.dp_epoch_plan(10, &ys, 3);
    assert_eq!(p.shard_len, 4);
    assert_eq!(p.seeds.len(), 3);
    assert_eq!(p.negs.len(), 12);
    let mut order = p.order.clone();
    order.sort();
    assert_eq!(order, (0..10).collect::<Vec<usize>>());
    for r in 0..3 {
        for s in 0..4 {
            let k = r * 4 + s;
            if k < 10 {
                assert_eq!(p.negs[k], 1 - ys[p.order[k]]);
            } else {
                assert_eq!(p.negs[k], 0);
            }
        }
    }
}

#[test]
fn images_go_to_the_device_and_come_back() {
    let (xs, ys) = make_xor(60, 10, 4);
    let b = encode(&Encoder::for_binary(10), &xs);
    let mut tm = TsetlinMachine::with_config(2, 10, 6, 15, f(3.9), 8, true, 1);
    tm.fit_epoch(&b, &ys);
    let image = tm.device_image(false, 1);
    let bytes = image.to_bytes();
    // Numbers lie in memory as this machine holds them.
    let ta: Vec<u8> = tm
        .state
        .classes
        .iter()
        .flat_map(|c| c.clauses.iter())
        .flat_map(|k| k.auto.ta.iter())
        .flat_map(|&t| (t as u32).to_ne_bytes())
        .collect();
    assert_eq!(bytes.ta, ta);
    let weights: Vec<u8> = tm
        .state
        .classes
        .iter()
        .flat_map(|c| c.clauses.iter())
        .flat_map(|k| k.weight.to_ne_bytes())
        .collect();
    assert_eq!(bytes.weights, weights);
    let inc: Vec<u8> = tm
        .state
        .classes
        .iter()
        .flat_map(|c| c.clauses.iter())
        .flat_map(|k| k.auto.inc.iter())
        .flat_map(|w| w.to_ne_bytes())
        .collect();
    assert_eq!(bytes.include_words, inc);

    let words = |b: &[u8]| -> Vec<u32> {
        b.chunks(4).map(|c| u32::from_ne_bytes([c[0], c[1], c[2], c[3]])).collect()
    };
    let old = TsetlinMachine::with_config(2, 10, 6, 15, f(3.9), 8, true, 99);
    let back = old
        .state
        .downloaded(&tm.config, &words(&bytes.ta), &words(&bytes.weights), &words(&bytes.rngs), &words(&bytes.class_rngs))
        .unwrap();
    for (c, d) in back.classes.iter().zip(&tm.state.classes) {
        assert_eq!(c.rng.raw(), d.rng.raw());
        for (j, k) in c.clauses.iter().zip(&d.clauses) {
            assert_eq!(j.auto.ta, k.auto.ta);
            assert_eq!(j.auto.inc, k.auto.inc);
            assert_eq!(j.weight, k.weight);
            assert_eq!(j.rng.raw(), k.rng.raw());
        }
    }
    // A counter that is too large is refused, and so is a weight out of range.
    let mut bad = words(&bytes.ta);
    bad[3] = 256;
    assert!(old
        .state
        .downloaded(&tm.config, &bad, &words(&bytes.weights), &words(&bytes.rngs), &words(&bytes.class_rngs))
        .is_none());
    let mut bad = words(&bytes.weights);
    bad[0] = u32::MAX;
    assert!(old
        .state
        .downloaded(&tm.config, &words(&bytes.ta), &bad, &words(&bytes.rngs), &words(&bytes.class_rngs))
        .is_none());
}

#[test]
fn the_table_of_bounds_holds_every_gate() {
    let weights = [1.0f64, 2.5];
    let t = 7i32;
    let table = build_prob_table(t, &[f(weights[0]), f(weights[1])]);
    let scale = (1u64 << 53) as f64;
    let mut want = Vec::new();
    for target in 0..2 {
        for w in weights {
            for v in -t..=t {
                let u = if target == 1 { t - v } else { t + v };
                let p = (u as f64 / (2 * t) as f64 * w).min(1.0);
                want.push((p * scale) as u64);
            }
        }
    }
    assert_eq!(table, want);
}

#[test]
fn digits_are_packed_from_the_lowest_bit() {
    assert_eq!(pack_digits(&[1, 0, 1, 1]), 0b1101);
    assert_eq!(pack_digits(&[]), 0);
}

#[test]
fn dimensions_count_words_of_32_bits() {
    let tm = TsetlinMachine::with_config(3, 40, 4, 15, f(3.9), 8, true, 1);
    let d = Dims::from(&tm);
    assert_eq!((d.n_classes, d.cps, d.n_literals, d.n_clauses, d.threshold), (3, 4, 80, 12, 15));
    assert_eq!(d.w32, 2 * tm.words_per_sample());
}

#[test]
fn work_is_cut_into_dispatches() {
    assert_eq!(blocks(10, 4), vec![(0, 4), (4, 4), (8, 2)]);
    assert_eq!(blocks(0, 4), vec![]);
    assert_eq!(groups(0, 64), 0);
    assert_eq!(groups(64, 64), 1);
    assert_eq!(groups(65, 64), 2);
}

#[test]
fn parameters_are_words_in_memory_order() {
    let p = infer_params(3, 500);
    let mut want = 3u32.to_ne_bytes().to_vec();
    want.extend_from_slice(&500u32.to_ne_bytes());
    assert_eq!(p, want);
    let s = sample_params(&[2, 0], &[5, 6, 7], &[1, 3]);
    assert_eq!(s.len(), 2 * PARAM_STRIDE);
    let word = |i: usize| u32::from_ne_bytes([s[i], s[i + 1], s[i + 2], s[i + 3]]);
    assert_eq!((word(0), word(4), word(8), word(12)), (2, 0, 7, 1));
    let next = PARAM_STRIDE;
    assert_eq!((word(next), word(next + 4), word(next + 8), word(next + 12)), (0, 1, 5, 3));
    assert_eq!(literal_bytes(&[0x0102_0304_0506_0708]), 0x0102_0304_0506_0708u64.to_ne_bytes().to_vec());
}

#[test]
fn words_are_read_back_from_memory() {
    let words = [1u32, 0xFFFF_FFFF, 0x0102_0304];
    let bytes: &[u8] = bytemuck::cast_slice(&words);
    assert_eq!(read_words(bytes), Some(words.to_vec()));
    assert_eq!(read_words(&bytes[..5]), None);
    assert_eq!(read_words(&[]), Some(vec![]));
    let mut shifted = vec![0u8];
    shifted.extend_from_slice(bytes);
    assert_eq!(read_words(&shifted[1..]), Some(words.to_vec()));
}
