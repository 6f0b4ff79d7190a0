//! Random streams, masks and probabilities.
use tmu_rs::clause_bank::dense::MASK_BITS;
use tmu_rs::dyadic::{digits_of, plain_gate, weighted_gate, Chance, Dyadic};
use tmu_rs::rng::Rng;
use tmu_rs::sampling::{bernoulli_mask, bmask_word, draw_drops, epoch_order, sample_other};

fn number(x: f64) -> Dyadic {
    Dyadic::from_bits(x.to_bits()).unwrap()
}

/// One step of the generator, written independently.
fn splitmix(state: &mut u64) -> u64 {
    *state = state.wrapping_add(0x9E37_79B9_7F4A_7C15);
    let mut z = *state;
    z = (z ^ (z >> 30)).wrapping_mul(0xBF58_476D_1CE4_E5B9);
    z = (z ^ (z >> 27)).wrapping_mul(0x94D0_49BB_1331_11EB);
    z ^ (z >> 31)
}

#[test]
fn splitmix_stream_bit_exact() {
    let seeds: Vec<u64> = vec![
        0, 1, 2, 42, 12345, u64::MAX, u64::MAX - 1, 0x9E3779B97F4A7C15, 0xDEADBEEF, 0xFFFF_0000_FFFF_0000, 7,
        99999999,
    ];
    let n_out = 4096;
    let raw: Vec<u64> = seeds.iter().map(|&s| Rng::new(s).raw()).collect();

    for (si, &seed) in seeds.iter().enumerate() {
        let mut r = Rng::new(seed);
        let mut state = raw[si];
        for i in 0..n_out {
            let got = r.next_u64();
            let want = splitmix(&mut state);
            assert_eq!(got, want, "seed {seed} output {i}: {got:#x} != {want:#x}");
        }
        assert_eq!(r.raw(), state);
    }
}

#[test]
fn bmask_stream_bit_exact() {
    let seeds: Vec<u64> = vec![0, 1, 42, u64::MAX, 0xABCDEF, 555];
    let n_out = 512;

    for &s_param in &[3.9_f64, 10.0, 2.0, 100.0] {
        let digits = digits_of(number(1.0 / s_param).chance(), MASK_BITS);
        for &seed in seeds.iter() {
            let mut r = Rng::new(seed);
            let mut state = Rng::new(seed).raw();
            for i in 0..n_out {
                let got = bmask_word(&mut r, &digits);
                let mut want = 0u64;
                for &d in digits.iter().rev() {
                    let w = splitmix(&mut state);
                    want = if d != 0 { want | w } else { want & w };
                }
                assert_eq!(got, want, "s={s_param} seed={seed} i={i}: {got:#x} != {want:#x}");
            }
        }
    }
}

#[test]
fn generators_resume_where_they_stood() {
    let mut a = Rng::new(77);
    for _ in 0..10 {
        a.next_u64();
    }
    let mut b = Rng::from_raw(a.raw());
    for _ in 0..10 {
        assert_eq!(a.next_u64(), b.next_u64());
    }
}

#[test]
fn fractions_are_the_high_bits() {
    let mut a = Rng::new(5);
    let mut b = Rng::new(5);
    for _ in 0..100 {
        assert_eq!(a.next_fraction(), b.next_u64() >> 11);
    }
}

#[test]
fn bounded_draws_are_words_modulo_the_bound() {
    let mut a = Rng::new(9);
    let mut b = Rng::new(9);
    for n in 1..200usize {
        assert_eq!(a.below(n), (b.next_u64() % n as u64) as usize);
    }
}

#[test]
fn digits_are_those_of_the_double() {
    for &p in &[0.5f64, 0.25, 0.75, 1.0 / 3.9, 2.9 / 3.9, 0.1, 0.0] {
        let mut q = p;
        let mut want = Vec::new();
        for _ in 0..MASK_BITS {
            q *= 2.0;
            if q >= 1.0 {
                want.push(1u8);
                q -= 1.0;
            } else {
                want.push(0);
            }
        }
        assert_eq!(digits_of(number(p).chance(), MASK_BITS), want, "{p}");
    }
}

#[test]
fn dyadic_arithmetic_rounds_as_doubles_do() {
    for &s in &[1.0001f64, 1.5, 2.0, 3.0, 3.9, 5.0, 10.0, 25.0, 1e6, 1e300] {
        let d = number(s);
        assert_eq!(d.to_bits(), s.to_bits());
        assert_eq!(d.recip().to_bits(), (1.0 / s).to_bits(), "1/{s}");
        assert_eq!(d.keep().normal().to_bits(), ((s - 1.0) / s).to_bits(), "({s} - 1)/{s}");
        assert_eq!(d.recip().one_minus().normal().to_bits(), (1.0 - 1.0 / s).to_bits(), "1 - 1/{s}");
    }
}

#[test]
fn gates_bound_drawn_fractions_as_doubles_do() {
    let scale = (1u64 << 53) as f64;
    for t in [1i64, 3, 10, 15, 50] {
        for v in -t..=t {
            let p = (t - v) as f64 / (2 * t) as f64;
            let gate = plain_gate((t - v) as u64, (2 * t) as u64);
            for k in [gate.saturating_sub(1), gate, gate + 1] {
                if k < (1u64 << 53) {
                    assert_eq!(k as f64 / scale <= p, k <= gate, "T={t} v={v}");
                }
            }
            for w in [0.5f64, 1.0, 2.0, 7.3, 1000.0] {
                let q = (w * p).min(1.0);
                let gate = weighted_gate((t - v) as u64, (2 * t) as u64, number(w));
                for k in [gate.saturating_sub(1), gate, gate + 1] {
                    if k < (1u64 << 53) {
                        assert_eq!(k as f64 / scale <= q, k <= gate, "T={t} v={v} w={w}");
                    }
                }
            }
        }
    }
}

#[test]
fn chances_compare_with_fractions_as_doubles_do() {
    let scale = (1u64 << 53) as f64;
    for &p in &[0.0f64, 0.1, 0.25, 0.3, 0.999, 1e-17, 1.0] {
        let c = number(p).chance();
        let edge = (p * scale) as u64;
        for k in [edge.saturating_sub(1), edge, edge + 1] {
            if k < (1u64 << 53) {
                assert_eq!(c.admits(k), (k as f64 / scale) <= p, "{p} {k}");
                assert_eq!(c.exceeds(k), (k as f64 / scale) < p, "{p} {k}");
            }
        }
        assert_eq!(c.positive(), p > 0.0);
    }
    assert!(!Chance::never().positive());
    assert!(!Chance::never().exceeds(0));
}

#[test]
fn masks_are_words_drawn_in_order() {
    let digits = digits_of(number(0.3).chance(), MASK_BITS);
    let mut a = Rng::new(4);
    let mut b = Rng::new(4);
    let mask = bernoulli_mask(&mut a, &digits, 5);
    let want: Vec<u64> = (0..5).map(|_| bmask_word(&mut b, &digits)).collect();
    assert_eq!(mask, want);
    assert_eq!(a.raw(), b.raw());
}

#[test]
fn mask_density_follows_the_probability() {
    let digits = digits_of(number(0.3).chance(), MASK_BITS);
    let mut rng = Rng::new(4);
    let ones: u32 = bernoulli_mask(&mut rng, &digits, 2000).iter().map(|w| w.count_ones()).sum();
    let share = ones as f64 / (2000.0 * 64.0);
    assert!((share - 0.3).abs() < 0.01, "{share}");
}

#[test]
fn an_epoch_visits_every_sample_once() {
    for n in [0usize, 1, 2, 7, 100] {
        let mut rng = Rng::new(n as u64);
        let mut order = epoch_order(&mut rng, n);
        order.sort();
        assert_eq!(order, (0..n).collect::<Vec<usize>>());
    }
}

#[test]
fn an_epoch_is_shuffled_from_the_back() {
    let mut rng = Rng::new(31);
    let order = epoch_order(&mut rng, 9);
    let mut other = Rng::new(31);
    let mut want: Vec<usize> = (0..9).collect();
    for i in (1..9).rev() {
        let j = (other.next_u64() % (i as u64 + 1)) as usize;
        want.swap(i, j);
    }
    assert_eq!(order, want);
}

#[test]
fn the_other_class_is_never_the_same() {
    let mut rng = Rng::new(3);
    let mut seen = [0usize; 4];
    for _ in 0..400 {
        let c = sample_other(&mut rng, 4, 2);
        assert_ne!(c, 2);
        seen[c] += 1;
    }
    assert!(seen[0] > 0 && seen[1] > 0 && seen[3] > 0);
}

#[test]
fn drops_compare_fractions_with_the_chance() {
    let p = number(0.25).chance();
    let mut a = Rng::new(6);
    let mut b = Rng::new(6);
    let drops = draw_drops(&mut a, p, 50);
    for d in drops {
        assert_eq!(d, (b.next_fraction() as f64 / (1u64 << 53) as f64) < 0.25);
    }
}

#[test]
fn infinite_settings_behave_as_doubles_do() {
    let s = f64::INFINITY;
    let d = number(s);
    assert!(d.infinite() && d.is_above_one());
    assert_eq!(d.to_bits(), s.to_bits());
    // 1 / s is zero, and (s - 1) / s is not a number: neither has a digit.
    assert_eq!(digits_of(d.recip().chance(), MASK_BITS), vec![0; MASK_BITS]);
    assert_eq!(digits_of(d.keep().chance(), MASK_BITS), vec![0; MASK_BITS]);
    assert_eq!(d.recip().chance().floor, 0);
    // 1 - 1 / s is one.
    assert_eq!(d.recip().one_minus().chance().floor, 1u64 << 53);
    for u in 0..=10u64 {
        let p = (u as f64 / 10.0 * s).min(1.0);
        assert_eq!(weighted_gate(u, 10, d), (p * (1u64 << 53) as f64) as u64);
    }
    assert!(Dyadic::from_bits(f64::NAN.to_bits()).is_none());
    assert!(Dyadic::from_bits((-1.0f64).to_bits()).is_none());
}
