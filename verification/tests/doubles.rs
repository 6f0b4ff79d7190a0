//! Training steps beside plain reckonings with doubles.
use tmu_rs::bits::get_bit;
use tmu_rs::clause_bank::automata::Automata;
use tmu_rs::clause_bank::feedback::Clause;
use tmu_rs::clause_bank::sparse::SparseClause;
use tmu_rs::dyadic::Dyadic;
use tmu_rs::models::regression::target::Target;
use tmu_rs::{
    CoalescedTsetlinMachine, ConvolutionalTsetlinMachine, Encoder, Rng, TMAutoEncoder, TMCoalescedAutoEncoder,
    TMRegressor, TMSparseClassifier, TsetlinMachine,
};

fn f(x: f64) -> Dyadic {
    Dyadic::from_bits(x.to_bits()).unwrap()
}

fn uniform(rng: &mut Rng) -> f64 {
    (rng.next_u64() >> 11) as f64 * (1.0 / (1u64 << 53) as f64)
}

fn rows(n: usize, bits: usize, seed: u64) -> Vec<Vec<u8>> {
    let mut rng = Rng::new(seed);
    (0..n).map(|_| (0..bits).map(|_| (rng.next_u64() & 1) as u8).collect()).collect()
}

fn literals(x: &[u8]) -> Vec<bool> {
    x.iter().map(|&v| v != 0).chain(x.iter().map(|&v| v == 0)).collect()
}

/// Settings as doubles.
#[derive(Clone)]
struct Settings {
    t: i32,
    s: f64,
    bits: u8,
    boost: bool,
    max_inc: usize,
    drop: f64,
    lit_drop: f64,
    third: Option<f64>,
    seed: u64,
}

impl Settings {
    fn half(&self) -> u8 {
        1 << (self.bits - 1)
    }

    fn max(&self) -> u8 {
        ((1u16 << self.bits) - 1) as u8
    }
}

fn variants() -> Vec<Settings> {
    let plain = Settings {
        t: 9,
        s: 3.9,
        bits: 5,
        boost: true,
        max_inc: usize::MAX,
        drop: 0.0,
        lit_drop: 0.0,
        third: None,
        seed: 11,
    };
    vec![
        plain.clone(),
        Settings { boost: false, s: 2.0, bits: 3, seed: 5, ..plain.clone() },
        Settings { max_inc: 4, t: 25, s: 7.5, bits: 8, seed: 6, ..plain.clone() },
        Settings { drop: 0.3, lit_drop: 0.2, seed: 7, ..plain.clone() },
        Settings { third: Some(4.0), bits: 4, boost: false, seed: 8, ..plain.clone() },
        Settings { third: Some(150.0), drop: 0.1, lit_drop: 0.4, max_inc: 6, seed: 9, ..plain },
    ]
}

fn digits(p: f64) -> Vec<bool> {
    let mut x = p;
    (0..12)
        .map(|_| {
            x *= 2.0;
            let one = x >= 1.0;
            if one {
                x -= 1.0;
            }
            one
        })
        .collect()
}

fn mask(rng: &mut Rng, p: f64, n: usize) -> Vec<bool> {
    let d = digits(p);
    let mut out = Vec::new();
    for _ in 0..n.div_ceil(64) {
        let mut word = 0u64;
        for &one in d.iter().rev() {
            let r = rng.next_u64();
            word = if one { r | word } else { r & word };
        }
        out.extend((0..64).map(|b| word >> b & 1 == 1));
    }
    out.truncate(n);
    out
}

/// A clause as plain values.
#[derive(Clone)]
struct Plain {
    ta: Vec<u8>,
    ind: Vec<u8>,
    cat: Vec<bool>,
    w: i32,
    rng: Rng,
}

fn plain(a: &Automata, w: i32, rng: &Rng) -> Plain {
    let cat = (0..a.ta.len()).map(|l| get_bit(&a.cat, l)).collect();
    Plain { ta: a.ta.clone(), ind: a.ind.clone(), cat, w, rng: rng.clone() }
}

fn dense(c: &Clause) -> Plain {
    plain(&c.auto, c.weight, &c.rng)
}

fn same(c: &Plain, a: &Automata, rng: &Rng) {
    assert_eq!(c.ta, a.ta);
    assert_eq!(c.ind, a.ind);
    for l in 0..c.cat.len() {
        assert_eq!(c.cat[l], get_bit(&a.cat, l));
    }
    assert_eq!(c.rng.raw(), rng.raw());
}

impl Plain {
    fn fires(&self, half: u8, lit: &[bool], act: &[bool]) -> bool {
        (0..lit.len()).all(|l| self.ta[l] < half || !act[l] || lit[l])
    }

    fn votes(&self, half: u8, lit: &[bool]) -> bool {
        self.ta.iter().any(|&t| t >= half) && (0..lit.len()).all(|l| self.ta[l] < half || lit[l])
    }

    fn type_i(&mut self, p: &Settings, grows: bool, lit: &[bool], act: &[bool], inv: &[bool], keep: &[bool]) {
        for l in 0..lit.len() {
            if !act[l] {
                continue;
            }
            let t = self.ta[l];
            if grows && lit[l] {
                if p.boost || keep[l] {
                    self.ta[l] = t.saturating_add(1).min(p.max());
                }
            } else if inv[l] && t < p.max() {
                self.ta[l] = t.saturating_sub(1);
            }
        }
    }

    fn type_ii(&mut self, p: &Settings, lit: &[bool], act: &[bool]) {
        for l in 0..lit.len() {
            if act[l] && !lit[l] && self.ta[l] < p.half() && self.ta[l] > 0 {
                self.ta[l] += 1;
            }
        }
    }

    fn type_iii(&mut self, p: &Settings, d: f64, chance: f64, target: bool, lit: &[bool], act: &[bool]) {
        let n = lit.len();
        let fires = self.fires(p.half(), lit, act);
        if fires {
            let gain = target && uniform(&mut self.rng) <= 1.0 - 1.0 / d;
            for l in 0..n {
                if act[l] && lit[l] {
                    if self.cat[l] {
                        if gain {
                            self.ind[l] = self.ind[l].saturating_add(1).min(p.max());
                        }
                    } else {
                        self.ind[l] = self.ind[l].saturating_sub(1);
                    }
                }
            }
            for l in 0..n {
                self.cat[l] = if target { !self.cat[l] } else { true };
            }
        } else {
            let first = (0..n).find(|&l| self.ta[l] >= p.half() && act[l] && !lit[l]).unwrap();
            if !self.cat[first] {
                self.cat[first] = true;
            } else if target {
                self.cat[first] = false;
            }
        }
        if uniform(&mut self.rng) <= chance {
            for l in 0..n {
                if act[l] && self.ind[l] < p.half() {
                    self.ta[l] = self.ta[l].saturating_sub(1);
                }
            }
        }
    }

    fn may_grow(&self, p: &Settings) -> bool {
        p.max_inc == usize::MAX || self.ta.iter().filter(|&&t| t >= p.half()).count() < p.max_inc
    }
}

fn drops(rng: &mut Rng, p: f64, n: usize) -> Vec<bool> {
    if p > 0.0 {
        (0..n).map(|_| uniform(rng) < p).collect()
    } else {
        vec![false; n]
    }
}

fn active(rng: &mut Rng, p: f64, n: usize) -> Vec<bool> {
    if p > 0.0 {
        mask(rng, 1.0 - p, n)
    } else {
        vec![true; n]
    }
}

fn polar(cs: &[Plain], fired: &[bool], t: i32) -> i32 {
    let sum: i32 = (0..cs.len()).map(|j| if !fired[j] { 0 } else if j % 2 == 0 { cs[j].w } else { -cs[j].w }).sum();
    sum.clamp(-t, t)
}

fn chance(t: i32, v: i32, target: bool, w: f64) -> f64 {
    let (t, v) = (t as f64, v as f64);
    let p = if target { (t - v) / (2.0 * t) * w } else { (t + v) / (2.0 * t) * w };
    p.min(1.0)
}

/// One update of a dense class on a sample.
fn update(cs: &mut [Plain], crng: &mut Rng, p: &Settings, target: bool, w: f64, lit: &[bool], act: &[bool]) {
    let n = lit.len();
    let fired: Vec<bool> = cs.iter().map(|c| c.fires(p.half(), lit, act)).collect();
    let q = chance(p.t, polar(cs, &fired, p.t), target, w);
    let dropped = drops(crng, p.drop, cs.len());
    let inv = mask(crng, 1.0 / p.s, n);
    let keep = mask(crng, (p.s - 1.0) / p.s, n);
    for j in 0..cs.len() {
        if dropped[j] {
            continue;
        }
        let c = &mut cs[j];
        if uniform(&mut c.rng) <= q {
            if target == (j % 2 == 0) {
                let grows = fired[j] && c.may_grow(p);
                if grows {
                    c.w = (c.w + 1).min(p.t);
                }
                c.type_i(p, grows, lit, act, &inv, &keep);
            } else if fired[j] {
                c.w = (c.w - 1).max(1);
                c.type_ii(p, lit, act);
            }
        }
        if let Some(d) = p.third {
            c.type_iii(p, d, q, target, lit, act);
        }
    }
}

fn other(rng: &mut Rng, n: usize, y: usize) -> usize {
    loop {
        let c = (rng.next_u64() % n as u64) as usize;
        if c != y {
            return c;
        }
    }
}

#[test]
fn a_machine_trains_as_doubles_say() {
    let weights = [1.0, 0.4, 3.0];
    for p in variants() {
        let nf = 37;
        let e = Encoder::for_binary(nf);
        let mut tm = TsetlinMachine::with_config(3, nf, 6, p.t, f(p.s), p.bits, p.boost, p.seed)
            .max_included_literals(p.max_inc)
            .clause_drop_p(f(p.drop))
            .literal_drop_p(f(p.lit_drop))
            .class_weights(weights.iter().map(|&w| f(w)).collect());
        if let Some(d) = p.third {
            tm = tm.type_iii_feedback(f(d));
        }
        let mut classes: Vec<Vec<Plain>> =
            tm.state.classes.iter().map(|c| c.clauses.iter().map(dense).collect()).collect();
        let mut crngs: Vec<Rng> = tm.state.classes.iter().map(|c| c.rng.clone()).collect();
        let mut rng = tm.state.rng.clone();
        let mut lrng = tm.state.literal_rng.clone();
        for (i, x) in rows(60, nf, 3).iter().enumerate() {
            let y = i % 3;
            let lit = literals(x);
            let neg = other(&mut rng, 3, y);
            let act = active(&mut lrng, p.lit_drop, 2 * nf);
            update(&mut classes[y], &mut crngs[y], &p, true, weights[y], &lit, &act);
            update(&mut classes[neg], &mut crngs[neg], &p, false, weights[neg], &lit, &act);
            tm.fit_one(&e.encode_one(x), y);
            for c in 0..3 {
                for j in 0..6 {
                    let got = &tm.state.classes[c].clauses[j];
                    same(&classes[c][j], &got.auto, &got.rng);
                    assert_eq!(classes[c][j].w, got.weight);
                }
                assert_eq!(crngs[c].raw(), tm.state.classes[c].rng.raw());
            }
            assert_eq!(rng.raw(), tm.state.rng.raw());
            assert_eq!(lrng.raw(), tm.state.literal_rng.raw());
        }
        for x in rows(20, nf, 4) {
            let lit = literals(&x);
            let scores: Vec<i32> = classes
                .iter()
                .map(|cs| {
                    let fired: Vec<bool> = cs.iter().map(|c| c.votes(p.half(), &lit)).collect();
                    polar(cs, &fired, p.t)
                })
                .collect();
            let mut got = [0i32; 3];
            tm.scores(&e.encode_one(&x), &mut got);
            assert_eq!(got.to_vec(), scores);
        }
    }
}

#[test]
fn an_autoencoder_trains_as_doubles_say() {
    for p in variants() {
        let nf = 9;
        let e = Encoder::for_binary(nf);
        let mut tm = TMAutoEncoder::with_config(nf, 4, p.t, f(p.s), p.bits, p.boost, p.seed)
            .max_included_literals(p.max_inc)
            .clause_drop_p(f(p.drop))
            .literal_drop_p(f(p.lit_drop));
        if let Some(d) = p.third {
            tm = tm.type_iii_feedback(f(d));
        }
        let mut outputs: Vec<Vec<Plain>> =
            tm.outputs.iter().map(|c| c.clauses.iter().map(dense).collect()).collect();
        let mut orngs: Vec<Rng> = tm.outputs.iter().map(|c| c.rng.clone()).collect();
        let mut lrng = tm.literal_rng.clone();
        for x in rows(40, nf, 13) {
            let lit = literals(&x);
            let act = active(&mut lrng, p.lit_drop, 2 * nf);
            for o in 0..nf {
                let mut seen = act.clone();
                seen[o] = false;
                seen[o + nf] = false;
                update(&mut outputs[o], &mut orngs[o], &p, x[o] != 0, 1.0, &lit, &seen);
            }
            tm.fit_one(&e.encode_one(&x));
            for o in 0..nf {
                for j in 0..4 {
                    let got = &tm.outputs[o].clauses[j];
                    same(&outputs[o][j], &got.auto, &got.rng);
                    assert_eq!(outputs[o][j].w, got.weight);
                }
                assert_eq!(orngs[o].raw(), tm.outputs[o].rng.raw());
            }
            assert_eq!(lrng.raw(), tm.literal_rng.raw());
        }
    }
}

/// One update of shared clauses for one output.
#[allow(clippy::too_many_arguments)]
fn update_shared(
    cs: &mut [Plain],
    ws: &mut [i32],
    crng: &mut Rng,
    p: &Settings,
    target: bool,
    q: f64,
    outs: &[bool],
    on: &[bool],
    lit: &[bool],
    act: &[bool],
) {
    let n = lit.len();
    let inv = mask(crng, 1.0 / p.s, n);
    let keep = mask(crng, (p.s - 1.0) / p.s, n);
    for j in 0..cs.len() {
        if !on[j] {
            continue;
        }
        let c = &mut cs[j];
        let first_kind = target == (ws[j] >= 0);
        if uniform(&mut c.rng) <= q {
            if first_kind {
                let grows = outs[j] && c.may_grow(p);
                c.type_i(p, grows, lit, act, &inv, &keep);
            } else if outs[j] {
                c.type_ii(p, lit, act);
            }
        }
        if outs[j] && uniform(&mut c.rng) <= q {
            ws[j] = if target { ws[j].saturating_add(1) } else { ws[j].saturating_sub(1) };
        }
        if let Some(d) = p.third {
            c.type_iii(p, d, q, target, lit, act);
        }
    }
}

fn signed(ws: &[i32], outs: &[bool], on: &[bool], t: i32) -> i32 {
    let sum: i32 = (0..ws.len()).filter(|&j| outs[j] && on[j]).map(|j| ws[j]).sum();
    sum.clamp(-t, t)
}

#[test]
fn a_coalesced_machine_trains_as_doubles_say() {
    for (k, p) in variants().into_iter().enumerate() {
        let nf = 20;
        let focused = k % 2 == 0;
        let e = Encoder::for_binary(nf);
        let mut tm = CoalescedTsetlinMachine::with_config(4, nf, 8, p.t, f(p.s), p.bits, p.boost, p.seed)
            .max_included_literals(p.max_inc)
            .clause_drop_p(f(p.drop))
            .literal_drop_p(f(p.lit_drop))
            .focused_negative_sampling(focused);
        if let Some(d) = p.third {
            tm = tm.type_iii_feedback(f(d));
        }
        let mut cs: Vec<Plain> = tm.clauses.iter().map(|c| plain(&c.auto, 0, &c.rng)).collect();
        let mut ws = tm.weights.clone();
        let mut crngs = tm.class_rngs.clone();
        let mut rng = tm.rng.clone();
        let mut lrng = tm.literal_rng.clone();
        for (i, x) in rows(60, nf, 23).iter().enumerate() {
            let y = (i * 7) % 4;
            let lit = literals(x);
            let act = active(&mut lrng, p.lit_drop, 2 * nf);
            let on: Vec<bool> = drops(&mut rng, p.drop, 8).iter().map(|d| !d).collect();
            let outs: Vec<bool> = cs.iter().map(|c| c.fires(p.half(), &lit, &act)).collect();
            let mut neg = None;
            if focused {
                let t = p.t as f64;
                let probs: Vec<f64> = (0..4)
                    .map(|c| {
                        if c == y {
                            0.0
                        } else {
                            ((t + signed(&ws[c], &outs, &on, p.t) as f64) / (2.0 * t)).clamp(0.0, 1.0)
                        }
                    })
                    .collect();
                let mut total = 0.0;
                for (c, q) in probs.iter().enumerate() {
                    if c != y {
                        total += q;
                    }
                }
                if total > 0.0 {
                    let mut r = uniform(&mut rng) * total;
                    for (c, q) in probs.iter().enumerate() {
                        if c != y {
                            r -= q;
                            if r <= 0.0 {
                                neg = Some(c);
                                break;
                            }
                        }
                    }
                }
            }
            let neg = match neg {
                Some(c) => c,
                None => other(&mut rng, 4, y),
            };
            for (c, target) in [(y, true), (neg, false)] {
                let q = chance(p.t, signed(&ws[c], &outs, &on, p.t), target, 1.0);
                update_shared(&mut cs, &mut ws[c], &mut crngs[c], &p, target, q, &outs, &on, &lit, &act);
            }
            tm.fit_one(&e.encode_one(x), y);
            for j in 0..8 {
                same(&cs[j], &tm.clauses[j].auto, &tm.clauses[j].rng);
            }
            assert_eq!(ws, tm.weights);
            for c in 0..4 {
                assert_eq!(crngs[c].raw(), tm.class_rngs[c].raw());
            }
            assert_eq!(rng.raw(), tm.rng.raw());
            assert_eq!(lrng.raw(), tm.literal_rng.raw());
        }
    }
}

#[test]
fn a_coalesced_autoencoder_trains_as_doubles_say() {
    for p in variants() {
        let nf = 7;
        let e = Encoder::for_binary(nf);
        let mut tm = TMCoalescedAutoEncoder::with_config(nf, 6, p.t, f(p.s), p.bits, p.boost, p.seed)
            .max_included_literals(p.max_inc)
            .clause_drop_p(f(p.drop))
            .literal_drop_p(f(p.lit_drop));
        if let Some(d) = p.third {
            tm = tm.type_iii_feedback(f(d));
        }
        let mut cs: Vec<Plain> = tm.clauses.iter().map(|c| plain(&c.auto, 0, &c.rng)).collect();
        let mut ws = tm.weights.clone();
        let mut orngs = tm.output_rngs.clone();
        let mut lrng = tm.literal_rng.clone();
        let every = vec![true; 6];
        for x in rows(40, nf, 31) {
            let lit = literals(&x);
            let act = active(&mut lrng, p.lit_drop, 2 * nf);
            for o in 0..nf {
                let mut seen = act.clone();
                seen[o] = false;
                seen[o + nf] = false;
                let outs: Vec<bool> = cs.iter().map(|c| c.fires(p.half(), &lit, &seen)).collect();
                let target = x[o] != 0;
                let q = chance(p.t, signed(&ws[o], &outs, &every, p.t), target, 1.0);
                let on: Vec<bool> = drops(&mut orngs[o], p.drop, 6).iter().map(|d| !d).collect();
                update_shared(&mut cs, &mut ws[o], &mut orngs[o], &p, target, q, &outs, &on, &lit, &seen);
            }
            tm.fit_one(&e.encode_one(&x));
            for j in 0..6 {
                same(&cs[j], &tm.clauses[j].auto, &tm.clauses[j].rng);
            }
            assert_eq!(ws, tm.weights);
            for o in 0..nf {
                assert_eq!(orngs[o].raw(), tm.output_rngs[o].raw());
            }
            assert_eq!(lrng.raw(), tm.literal_rng.raw());
        }
    }
}

#[test]
fn a_convolutional_machine_trains_as_doubles_say() {
    convolve((5, 6, 3, 2, 2));
}

#[test]
fn one_row_patches_of_a_grid_train_as_doubles_say() {
    convolve((3, 5, 1, 2, 1));
}

fn convolve((ir, ic, pr, pc, stride): (usize, usize, usize, usize, usize)) {
    for p in variants() {
        let mut tm = ConvolutionalTsetlinMachine::with_config_2d(
            3, ir, ic, pr, pc, stride, 6, p.t, f(p.s), p.bits, p.boost, p.seed,
        )
        .max_included_literals(p.max_inc)
        .clause_drop_p(f(p.drop))
        .literal_drop_p(f(p.lit_drop));
        if let Some(d) = p.third {
            tm = tm.type_iii_feedback(f(d));
        }
        let n = 2 * pr * pc;
        let mut classes: Vec<Vec<Plain>> =
            tm.classes.iter().map(|c| c.clauses.iter().map(dense).collect()).collect();
        let mut crngs: Vec<Rng> = tm.classes.iter().map(|c| c.rng.clone()).collect();
        let mut rng = tm.rng.clone();
        let mut lrng = tm.literal_rng.clone();
        let patches_of = |x: &[u8]| -> Vec<Vec<bool>> {
            let mut out = Vec::new();
            for r in (0..=ir - pr).step_by(stride) {
                for c in (0..=ic - pc).step_by(stride) {
                    let flat: Vec<u8> =
                        (0..pr * pc).map(|k| x[(r + k / pc) * ic + c + k % pc]).collect();
                    out.push(literals(&flat));
                }
            }
            out
        };
        for (i, x) in rows(50, ir * ic, 41).iter().enumerate() {
            let y = i % 3;
            let patches = patches_of(x);
            assert_eq!(patches.len(), tm.n_patches());
            let neg = other(&mut rng, 3, y);
            let act = active(&mut lrng, p.lit_drop, n);
            for (c, target) in [(y, true), (neg, false)] {
                let cs = &mut classes[c];
                let some: Vec<bool> =
                    cs.iter().map(|k| patches.iter().any(|l| k.fires(p.half(), l, &act))).collect();
                let q = chance(p.t, polar(cs, &some, p.t), target, 1.0);
                let dropped = drops(&mut crngs[c], p.drop, 6);
                let inv = mask(&mut crngs[c], 1.0 / p.s, n);
                let keep = mask(&mut crngs[c], (p.s - 1.0) / p.s, n);
                for j in 0..6 {
                    let k = &mut cs[j];
                    let firing: Vec<usize> =
                        (0..patches.len()).filter(|&q| k.fires(p.half(), &patches[q], &act)).collect();
                    let fires = !firing.is_empty();
                    let at = if fires { firing[k.rng.below(firing.len())] } else { 0 };
                    let lit = &patches[at];
                    if dropped[j] {
                        continue;
                    }
                    if uniform(&mut k.rng) <= q {
                        if target == (j % 2 == 0) {
                            let grows = fires && k.may_grow(&p);
                            if grows {
                                k.w = (k.w + 1).min(p.t);
                            }
                            k.type_i(&p, grows, lit, &act, &inv, &keep);
                        } else if fires {
                            k.w = (k.w - 1).max(1);
                            k.type_ii(&p, lit, &act);
                        }
                    }
                    if let Some(d) = p.third {
                        k.type_iii(&p, d, q, target, lit, &act);
                    }
                }
            }
            tm.fit_one(x, y);
            for c in 0..3 {
                for j in 0..6 {
                    let got = &tm.classes[c].clauses[j];
                    same(&classes[c][j], &got.auto, &got.rng);
                    assert_eq!(classes[c][j].w, got.weight);
                }
                assert_eq!(crngs[c].raw(), tm.classes[c].rng.raw());
            }
            assert_eq!(rng.raw(), tm.rng.raw());
        }
    }
}

#[test]
fn a_regressor_trains_as_doubles_say() {
    for p in variants().into_iter().filter(|p| p.third.is_none()) {
        let nf = 18;
        let e = Encoder::for_binary(nf);
        let mut tm = TMRegressor::with_config(nf, 10, p.t, f(p.s), p.bits, p.boost, p.seed)
            .max_included_literals(p.max_inc)
            .clause_drop_p(f(p.drop))
            .literal_drop_p(f(p.lit_drop));
        let mut cs: Vec<Plain> = tm.clauses.iter().map(dense).collect();
        let mut rng = tm.rng.clone();
        let mut lrng = tm.literal_rng.clone();
        for (i, x) in rows(200, nf, 51).iter().enumerate() {
            let y = x.iter().map(|&b| b as f64).sum::<f64>() * p.t as f64 / nf as f64
                + if i % 17 == 0 { f64::INFINITY } else { 0.0 };
            let lit = literals(x);
            let sum: i32 = cs.iter().filter(|c| c.votes(p.half(), &lit)).map(|c| c.w).sum();
            let v = sum.clamp(0, p.t) as f64;
            assert_eq!(tm.predict(&e.encode_one(x)) as f64, v);
            let err = (v - y) / p.t as f64;
            let q = (err * err).min(1.0);
            if q >= f64::EPSILON {
                let act = active(&mut lrng, p.lit_drop, 2 * nf);
                let inv = mask(&mut rng, 1.0 / p.s, 2 * nf);
                let keep = mask(&mut rng, (p.s - 1.0) / p.s, 2 * nf);
                let dropped = drops(&mut rng, p.drop, 10);
                for j in 0..10 {
                    let c = &mut cs[j];
                    if dropped[j] || uniform(&mut c.rng) > q {
                        continue;
                    }
                    let fired = c.fires(p.half(), &lit, &act);
                    if y > v {
                        let grows = fired && c.may_grow(&p);
                        if grows {
                            c.w = (c.w + 1).min(p.t);
                        }
                        c.type_i(&p, grows, &lit, &act, &inv, &keep);
                    } else if fired {
                        c.w = (c.w - 1).max(0);
                        c.type_ii(&p, &lit, &act);
                    }
                }
            }
            tm.fit_one(&e.encode_one(x), Target::from_bits(y.to_bits()));
            for j in 0..10 {
                same(&cs[j], &tm.clauses[j].auto, &tm.clauses[j].rng);
                assert_eq!(cs[j].w, tm.clauses[j].weight);
            }
            assert_eq!(rng.raw(), tm.rng.raw());
            assert_eq!(lrng.raw(), tm.literal_rng.raw());
        }
    }
}

fn sparse_type_i(c: &mut SparseClause, p: &Settings, rng: &mut Rng, grows: bool, lit: &[bool], act: &[bool]) {
    let (inv, keep) = (1.0 / p.s, (p.s - 1.0) / p.s);
    let mut i = 0;
    while i < c.included.len() {
        let l = c.included[i] as usize;
        let s = c.included_state[i];
        if act[l] && lit[l] {
            if grows && s < p.max() && (p.boost || uniform(rng) <= keep) {
                c.included_state[i] = s + 1;
            }
        } else if act[l] && s < p.max() && uniform(rng) <= inv {
            if s - 1 < p.half() {
                c.included.swap_remove(i);
                c.included_state.swap_remove(i);
                c.excluded.push(l as u32);
                c.excluded_state.push(s - 1);
                continue;
            }
            c.included_state[i] = s - 1;
        }
        i += 1;
    }
    let mut i = 0;
    while i < c.excluded.len() {
        let l = c.excluded[i] as usize;
        let s = c.excluded_state[i];
        if act[l] && lit[l] {
            if grows && c.included.len() < p.max_inc && (p.boost || uniform(rng) <= keep) {
                if s + 1 >= p.half() {
                    c.excluded.swap_remove(i);
                    c.excluded_state.swap_remove(i);
                    c.included.push(l as u32);
                    c.included_state.push(s + 1);
                    continue;
                }
                c.excluded_state[i] = s + 1;
            }
        } else if act[l] && uniform(rng) <= inv {
            if s <= 1 {
                c.excluded.swap_remove(i);
                c.excluded_state.swap_remove(i);
                c.unallocated.push(l as u32);
                continue;
            }
            c.excluded_state[i] = s - 1;
        }
        i += 1;
    }
}

fn sparse_type_ii(c: &mut SparseClause, p: &Settings, lit: &[bool], act: &[bool]) {
    let mut i = 0;
    while i < c.excluded.len() {
        let l = c.excluded[i] as usize;
        let s = c.excluded_state[i];
        if act[l] && !lit[l] && s > 0 {
            if s + 1 >= p.half() {
                c.excluded.swap_remove(i);
                c.excluded_state.swap_remove(i);
                c.included.push(l as u32);
                c.included_state.push(s + 1);
                continue;
            }
            c.excluded_state[i] = s + 1;
        }
        i += 1;
    }
}

#[test]
fn a_sparse_machine_trains_as_doubles_say() {
    let weights = [1.0, 0.4, 3.0];
    for p in variants().into_iter().filter(|p| p.third.is_none()) {
        let nf = 24;
        let e = Encoder::for_binary(nf);
        let mut tm = TMSparseClassifier::with_config(3, nf, 6, p.t, f(p.s), p.bits, p.boost, p.seed)
            .max_included_literals(p.max_inc)
            .clause_drop_p(f(p.drop))
            .literal_drop_p(f(p.lit_drop))
            .class_weights(weights.iter().map(|&w| f(w)).collect());
        let mut cs: Vec<Vec<SparseClause>> = tm.classes.iter().map(|c| c.bank.clauses.clone()).collect();
        let mut ws: Vec<Vec<i32>> = tm.classes.iter().map(|c| c.weights.clone()).collect();
        let mut rngs: Vec<Vec<Rng>> = tm.classes.iter().map(|c| c.rngs.clone()).collect();
        let mut crngs: Vec<Rng> = tm.classes.iter().map(|c| c.rng.clone()).collect();
        let mut rng = tm.rng.clone();
        let mut lrng = tm.literal_rng.clone();
        for (i, x) in rows(150, nf, 61).iter().enumerate() {
            let y = i % 3;
            let lit = literals(x);
            let neg = other(&mut rng, 3, y);
            let act: Vec<bool> = if p.lit_drop > 0.0 {
                let keep = 1.0 - p.lit_drop;
                (0..2 * nf).map(|_| uniform(&mut lrng) < keep).collect()
            } else {
                vec![true; 2 * nf]
            };
            for (c, target) in [(y, true), (neg, false)] {
                let fires = |k: &SparseClause| {
                    k.included.iter().all(|&l| !act[l as usize] || lit[l as usize])
                };
                let sum: i32 = (0..6)
                    .map(|j| if !fires(&cs[c][j]) { 0 } else if j % 2 == 0 { ws[c][j] } else { -ws[c][j] })
                    .sum();
                let q = chance(p.t, sum.clamp(-p.t, p.t), target, weights[c]);
                let dropped = drops(&mut crngs[c], p.drop, 6);
                for j in 0..6 {
                    let r = &mut rngs[c][j];
                    if dropped[j] || uniform(r) > q {
                        continue;
                    }
                    let fired = fires(&cs[c][j]);
                    if target == (j % 2 == 0) {
                        let grows = fired && cs[c][j].included.len() < p.max_inc;
                        if grows {
                            ws[c][j] = (ws[c][j] + 1).min(p.t);
                        }
                        sparse_type_i(&mut cs[c][j], &p, r, grows, &lit, &act);
                    } else if fired {
                        ws[c][j] = (ws[c][j] - 1).max(1);
                        sparse_type_ii(&mut cs[c][j], &p, &lit, &act);
                    }
                }
            }
            tm.fit_one(&e.encode_one(x), y);
            for c in 0..3 {
                assert_eq!(ws[c], tm.classes[c].weights);
                assert_eq!(crngs[c].raw(), tm.classes[c].rng.raw());
                for j in 0..6 {
                    let got = &tm.classes[c].bank.clauses[j];
                    assert_eq!(cs[c][j].included, got.included);
                    assert_eq!(cs[c][j].included_state, got.included_state);
                    assert_eq!(cs[c][j].excluded, got.excluded);
                    assert_eq!(cs[c][j].excluded_state, got.excluded_state);
                    assert_eq!(cs[c][j].unallocated, got.unallocated);
                    assert_eq!(rngs[c][j].raw(), tm.classes[c].rngs[j].raw());
                }
            }
            assert_eq!(rng.raw(), tm.rng.raw());
            assert_eq!(lrng.raw(), tm.literal_rng.raw());
        }
    }
}

const GOLDEN: u64 = 0x9E37_79B9_7F4A_7C15;

fn clause_stream(seed: u64, i: usize) -> u64 {
    Rng::new(seed ^ (i as u64).wrapping_add(1).wrapping_mul(GOLDEN)).raw()
}

fn class_stream(seed: u64, c: usize, n_clauses: usize) -> u64 {
    Rng::new(seed ^ (c as u64 + n_clauses as u64 + 1).wrapping_mul(GOLDEN)).raw()
}

fn literal_stream(seed: u64) -> u64 {
    Rng::new(seed ^ 0x4C49_5445_5241_4C21).raw()
}

fn counters(rng: &mut Rng, n: usize, half: u8) -> Vec<u8> {
    (0..n).map(|_| if rng.next_u64() & 1 == 0 { half - 1 } else { half }).collect()
}

fn check_new(groups: &[tmu_rs::clause_bank::feedback::ClassBank], seed: u64, n: usize, half: u8, rng: &Rng) {
    let mut stream = Rng::new(seed);
    let per = groups[0].clauses.len();
    for (c, g) in groups.iter().enumerate() {
        for (j, k) in g.clauses.iter().enumerate() {
            assert_eq!(k.auto.ta, counters(&mut stream, n, half));
            assert_eq!(k.auto.ind, vec![half; n]);
            assert!(k.auto.cat.iter().all(|&w| w == 0));
            assert_eq!(k.weight, 1);
            assert_eq!(k.rng.raw(), clause_stream(seed, c * per + j));
        }
        assert_eq!(g.rng.raw(), class_stream(seed, c, groups.len() * per));
    }
    assert_eq!(rng.raw(), stream.raw());
}

#[test]
fn new_models_draw_from_their_seeds() {
    for seed in [0u64, 42, u64::MAX, 0x1234_5678_9ABC] {
        let tm = TsetlinMachine::with_config(3, 5, 4, 9, f(3.9), 4, true, seed);
        check_new(&tm.state.classes, seed, 10, 8, &tm.state.rng);
        assert_eq!(tm.state.literal_rng.raw(), literal_stream(seed));

        let ae = TMAutoEncoder::with_config(5, 4, 9, f(3.9), 8, true, seed);
        check_new(&ae.outputs, seed, 10, 128, &ae.rng);
        assert_eq!(ae.literal_rng.raw(), literal_stream(seed));

        let cv = ConvolutionalTsetlinMachine::with_config_2d(2, 4, 4, 2, 3, 1, 4, 9, f(3.9), 2, true, seed);
        check_new(&cv.classes, seed, 12, 2, &cv.rng);
        assert_eq!(cv.literal_rng.raw(), literal_stream(seed));

        let co = CoalescedTsetlinMachine::with_config(3, 5, 7, 9, f(3.9), 8, true, seed);
        let ca = TMCoalescedAutoEncoder::with_config(5, 7, 9, f(3.9), 8, true, seed);
        for (clauses, weights, rngs, rng, outputs) in [
            (&co.clauses, &co.weights, &co.class_rngs, &co.rng, 3usize),
            (&ca.clauses, &ca.weights, &ca.output_rngs, &ca.rng, 5),
        ] {
            let mut stream = Rng::new(seed);
            for (j, k) in clauses.iter().enumerate() {
                assert_eq!(k.auto.ta, counters(&mut stream, 10, 128));
                assert_eq!(k.rng.raw(), clause_stream(seed, j));
            }
            assert_eq!(rng.raw(), stream.raw());
            let mut signs = Rng::new(seed ^ 0x5747_4854_5F49_4E49);
            for row in weights {
                for &w in row {
                    assert_eq!(w, if signs.next_u64() & 1 == 0 { 1 } else { -1 });
                }
            }
            assert_eq!(weights.len(), outputs);
            for (o, r) in rngs.iter().enumerate() {
                assert_eq!(r.raw(), class_stream(seed, o, 7));
            }
        }

        let re = TMRegressor::with_config(5, 6, 9, f(3.9), 8, true, seed);
        for (j, k) in re.clauses.iter().enumerate() {
            assert_eq!(k.auto.ta, vec![127; 10]);
            assert_eq!(k.weight, 1);
            assert_eq!(k.rng.raw(), clause_stream(seed, j));
        }
        assert_eq!(re.rng.raw(), Rng::new(seed).raw());

        let sp = TMSparseClassifier::with_config(3, 5, 4, 9, f(3.9), 8, true, seed);
        for (c, k) in sp.classes.iter().enumerate() {
            assert_eq!(k.weights, vec![1; 4]);
            assert_eq!(k.rng.raw(), class_stream(seed, c, 12));
            for j in 0..4 {
                assert_eq!(k.rngs[j].raw(), clause_stream(seed, c * 4 + j));
                assert!(k.bank.clauses[j].included.is_empty());
                assert_eq!(k.bank.clauses[j].excluded, (0..10).collect::<Vec<u32>>());
                assert_eq!(k.bank.clauses[j].excluded_state, vec![127; 10]);
            }
        }
        assert_eq!(sp.rng.raw(), Rng::new(seed).raw());
    }
}

#[test]
fn replicas_train_shards_and_are_averaged() {
    let nf = 6;
    let xs = rows(50, nf, 71);
    let ys: Vec<usize> = (0..50).map(|i| i % 2).collect();
    let refs: Vec<&[u8]> = xs.iter().map(|v| v.as_slice()).collect();
    let batch = Encoder::for_binary(nf).encode_batch(&refs);
    let k = 4usize;
    let mut tm = TsetlinMachine::with_config(2, nf, 6, 9, f(3.9), 8, true, 3);
    let before = tm.clone();

    let mut rng = before.state.rng.clone();
    let mut order: Vec<usize> = (0..50).collect();
    for i in (1..50).rev() {
        let j = rng.below(i + 1);
        order.swap(i, j);
    }
    let seeds: Vec<u64> = (0..k).map(|_| rng.next_u64()).collect();
    let reps: Vec<TsetlinMachine> = (0..k)
        .map(|r| {
            let mut rep = before.clone();
            let sd = seeds[r];
            rep.state.rng = Rng::new(sd);
            rep.state.literal_rng = Rng::from_raw(literal_stream(sd));
            for c in 0..2 {
                rep.state.classes[c].rng = Rng::from_raw(class_stream(sd, c, 12));
                for j in 0..6 {
                    rep.state.classes[c].clauses[j].rng = Rng::from_raw(clause_stream(sd, c * 6 + j));
                }
            }
            for &i in order.iter().skip(r * 13).take(13) {
                rep.fit_one(&tmu_rs::EncodedSample(batch.row(i).to_vec()), ys[i]);
            }
            rep
        })
        .collect();

    tm.fit_epoch_data_parallel(&batch, &ys, k);
    for c in 0..2 {
        for j in 0..6 {
            let got = &tm.state.classes[c].clauses[j];
            for l in 0..2 * nf {
                let sum: u32 = reps.iter().map(|r| r.state.classes[c].clauses[j].auto.ta[l] as u32).sum();
                assert_eq!(got.auto.ta[l] as u32, (sum + 2) / 4);
            }
            let sum: i64 = reps.iter().map(|r| r.state.classes[c].clauses[j].weight as i64).sum();
            assert_eq!(got.weight as i64, ((sum + 2) / 4).clamp(1, 9));
            assert_eq!(got.rng.raw(), before.state.classes[c].clauses[j].rng.raw());
        }
    }
    assert_eq!(tm.state.rng.raw(), rng.raw());
    assert_eq!(tm.state.literal_rng.raw(), before.state.literal_rng.raw());
}

#[test]
fn one_replica_trains_exactly() {
    let nf = 6;
    let xs = rows(30, nf, 81);
    let ys: Vec<usize> = (0..30).map(|i| i % 2).collect();
    let refs: Vec<&[u8]> = xs.iter().map(|v| v.as_slice()).collect();
    let batch = Encoder::for_binary(nf).encode_batch(&refs);
    let mut a = TsetlinMachine::with_config(2, nf, 6, 9, f(3.9), 8, true, 3);
    let mut b = a.clone();
    a.fit_epoch_data_parallel(&batch, &ys, 1);
    b.fit_epoch(&batch, &ys);
    for (x, y) in a.state.classes.iter().zip(&b.state.classes) {
        for (j, k) in x.clauses.iter().zip(&y.clauses) {
            assert_eq!(j.auto.ta, k.auto.ta);
            assert_eq!(j.weight, k.weight);
            assert_eq!(j.rng.raw(), k.rng.raw());
        }
    }
    assert_eq!(a.state.rng.raw(), b.state.rng.raw());
}
