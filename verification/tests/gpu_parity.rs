//! Training and inference on a device, which a kernel written independently here stands for: it sees
//! nothing but the bytes that are handed over.
use tmu_rs::dyadic::Dyadic;
use tmu_rs::gpu::buffers::DeviceBytes;
use tmu_rs::gpu::dispatch::PARAM_STRIDE;
use tmu_rs::gpu::replicas::Reading;
use tmu_rs::gpu::session::{EpochWork, PredictWork, Session, AUTO_REPLICAS};
use tmu_rs::{EncodedBatch, Encoder, Rng, SaveLoad, TsetlinMachine};

fn f(x: f64) -> Dyadic {
    Dyadic::from_bits(x.to_bits()).unwrap()
}

fn next_f64(rng: &mut Rng) -> f64 {
    rng.next_fraction() as f64 / (1u64 << 53) as f64
}

fn words(b: &[u8]) -> Vec<u32> {
    b.chunks(4).map(|c| u32::from_ne_bytes([c[0], c[1], c[2], c[3]])).collect()
}

fn longs(b: &[u8]) -> Vec<u64> {
    b.chunks(8).map(|c| u64::from_ne_bytes([c[0], c[1], c[2], c[3], c[4], c[5], c[6], c[7]])).collect()
}

fn joined(v: &[u32]) -> Vec<u64> {
    v.chunks(2).map(|c| c[0] as u64 | (c[1] as u64) << 32).collect()
}

fn halves(v: &[u64]) -> Vec<u32> {
    v.iter().flat_map(|&x| [x as u32, (x >> 32) as u32]).collect()
}

fn draw(s: &mut u64) -> u64 {
    *s = s.wrapping_add(0x9E37_79B9_7F4A_7C15);
    let mut z = *s;
    z = (z ^ (z >> 30)).wrapping_mul(0xBF58_476D_1CE4_E5B9);
    z = (z ^ (z >> 27)).wrapping_mul(0x94D0_49BB_1331_11EB);
    z ^ (z >> 31)
}

fn mask(s: &mut u64, digits: u32, n: usize) -> Vec<u64> {
    (0..n)
        .map(|_| {
            let mut w = 0u64;
            for i in (0..12).rev() {
                let r = draw(s);
                w = if digits >> i & 1 == 1 { r | w } else { r & w };
            }
            w
        })
        .collect()
}

/// The memory of a device.
struct Device {
    config: Vec<u32>,
    ta: Vec<u32>,
    inc: Vec<u64>,
    weights: Vec<i32>,
    rngs: Vec<u64>,
    class_rngs: Vec<u64>,
    valid: Vec<u64>,
    table: Vec<u64>,
}

impl Device {
    fn new(b: &DeviceBytes) -> Self {
        Device {
            config: words(&b.config),
            ta: words(&b.ta),
            inc: longs(&b.include_words),
            weights: words(&b.weights).iter().map(|&w| w as i32).collect(),
            rngs: joined(&words(&b.rngs)),
            class_rngs: joined(&words(&b.class_rngs)),
            valid: longs(&b.valid),
            table: joined(&words(&b.prob_table)),
        }
    }

    fn reading(&self) -> Reading {
        Reading {
            ta: self.ta.clone(),
            weights: self.weights.iter().map(|&w| w as u32).collect(),
            rngs: halves(&self.rngs),
            class_rngs: halves(&self.class_rngs),
        }
    }

    fn train(
        &mut self,
        lits: &[u64],
        masks: &Option<Vec<u64>>,
        params: &[u8],
        blocks: &[(usize, usize)],
        w: usize,
    ) -> usize {
        let ones = vec![!0u64; w];
        let mut seen = 0;
        for &(start, len) in blocks {
            assert_eq!(start, seen);
            for step in start..start + len {
                let p = words(&params[step * PARAM_STRIDE..step * PARAM_STRIDE + 16]);
                assert_eq!(p[1] as usize, step);
                let i = p[0] as usize;
                let lit = &lits[i * w..(i + 1) * w];
                let act = match masks {
                    Some(m) => &m[step * w..(step + 1) * w],
                    None => &ones[..],
                };
                self.step(lit, act, p[2] as usize, true);
                self.step(lit, act, p[3] as usize, false);
            }
            seen += len;
        }
        seen
    }

    fn step(&mut self, lit: &[u64], act: &[u64], class: usize, target: bool) {
        let (n_classes, cps, n) = (self.config[0] as usize, self.config[1] as usize, self.config[2] as usize);
        let w = self.config[3] as usize / 2;
        let t = self.config[4] as i64;
        let (half, max) = (self.config[5], self.config[6]);
        let (boost, max_inc) = (self.config[7] == 1, self.config[8]);
        let fires: Vec<bool> = (0..cps)
            .map(|j| {
                let inc = &self.inc[(class * cps + j) * w..(class * cps + j + 1) * w];
                (0..w).all(|k| inc[k] & self.valid[k] & act[k] & !lit[k] == 0)
            })
            .collect();
        let mut sum = 0i64;
        for j in 0..cps {
            if fires[j] {
                let v = self.weights[class * cps + j] as i64;
                sum += if j % 2 == 0 { v } else { -v };
            }
        }
        let sum = sum.clamp(-t, t);
        let row = target as usize * n_classes + class;
        let gate = self.table[row * (2 * t as usize + 1) + (sum + t) as usize];
        let s = &mut self.class_rngs[class];
        let inv = mask(s, self.config[9], w);
        let keep = mask(s, self.config[10], w);
        for j in 0..cps {
            let c = class * cps + j;
            if draw(&mut self.rngs[c]) >> 11 > gate {
                continue;
            }
            let bit = |v: &[u64], l: usize| v[l / 64] >> (l % 64) & 1 == 1;
            let inc = &self.inc[c * w..(c + 1) * w];
            let count: u32 = (0..w).map(|k| (inc[k] & self.valid[k]).count_ones()).sum();
            if target == (j % 2 == 0) {
                let grows = fires[j] && (max_inc == u32::MAX || count < max_inc);
                for l in 0..n {
                    let x = &mut self.ta[c * n + l];
                    if !bit(act, l) {
                        continue;
                    }
                    if grows && bit(lit, l) {
                        if (boost || bit(&keep, l)) && *x < max {
                            *x += 1;
                        }
                    } else if bit(&inv, l) && !(bit(lit, l) && grows) && *x > 0 && *x < max {
                        *x -= 1;
                    }
                }
                if grows && self.weights[c] < t as i32 {
                    self.weights[c] += 1;
                }
            } else if fires[j] {
                for l in 0..n {
                    let x = &mut self.ta[c * n + l];
                    if bit(act, l) && !bit(lit, l) && *x < half && *x > 0 {
                        *x += 1;
                    }
                }
                if self.weights[c] > 1 {
                    self.weights[c] -= 1;
                }
            }
            for k in 0..w {
                self.inc[c * w + k] = 0;
            }
            for l in 0..n {
                if self.ta[c * n + l] >= half {
                    self.inc[c * w + l / 64] |= 1 << (l % 64);
                }
            }
        }
    }

    fn predict(&self, lit: &[u64]) -> usize {
        let (n_classes, cps) = (self.config[0] as usize, self.config[1] as usize);
        let w = self.config[3] as usize / 2;
        let t = self.config[4] as i64;
        let scores: Vec<i64> = (0..n_classes)
            .map(|class| {
                let mut sum = 0i64;
                for j in 0..cps {
                    let inc = &self.inc[(class * cps + j) * w..(class * cps + j + 1) * w];
                    let some = (0..w).any(|k| inc[k] & self.valid[k] != 0);
                    if some && (0..w).all(|k| inc[k] & self.valid[k] & !lit[k] == 0) {
                        let v = self.weights[class * cps + j] as i64;
                        sum += if j % 2 == 0 { v } else { -v };
                    }
                }
                sum.clamp(-t, t)
            })
            .collect();
        let best = scores.iter().max().unwrap();
        scores.iter().position(|v| v == best).unwrap()
    }
}

/// A session with the device that it runs on.
struct Gpu {
    session: Session,
    device: Device,
}

fn to_gpu(tm: &TsetlinMachine) -> Gpu {
    let session = Session::open(tm.clone(), u64::MAX).unwrap_or_else(|e| panic!("{:?}", e));
    assert!(session.resident && !session.dirty);
    let device = Device::new(&tm.device_image(session.has_lit_active, 1).to_bytes());
    Gpu { session, device }
}

impl Gpu {
    fn fit_epoch(&mut self, batch: &EncodedBatch, ys: &[usize]) {
        if self.session.dirty && self.session.count_replicas(batch.n) > 1 {
            self.sync();
        }
        match self.session.begin_epoch(batch, ys, 1) {
            EpochWork::OnDevice { epoch } => {
                if let Some(b) = &epoch.config {
                    self.device.config = words(b);
                }
                let lits = longs(&epoch.literals);
                let masks = epoch.masks.as_ref().map(|b| longs(b));
                let seen = self.device.train(&lits, &masks, &epoch.params, &epoch.blocks, batch.words);
                assert_eq!(seen, batch.n);
            }
            EpochWork::OnReplicas { literals, replicas } => {
                let lits = longs(&literals);
                let mut seen = 0;
                let mut readings = Vec::new();
                for r in &replicas {
                    let mut device = Device::new(&r.image);
                    let masks = r.masks.as_ref().map(|b| longs(b));
                    seen += device.train(&lits, &masks, &r.params, &r.blocks, batch.words);
                    readings.push(device.reading());
                }
                assert_eq!(seen, batch.n);
                assert!(self.session.merge_replicas(&readings));
                self.device = Device::new(&self.session.host.device_bytes(self.session.has_lit_active));
            }
            _ => panic!("nothing for the device"),
        }
    }

    fn predict_batch(&self, batch: &EncodedBatch) -> Vec<usize> {
        match self.session.begin_predict(batch) {
            PredictWork::Done { .. } => panic!("nothing for the device"),
            PredictWork::OnDevice { literals, blocks } => {
                let lits = longs(&literals);
                let mut out = Vec::new();
                for b in &blocks {
                    assert_eq!(words(&b.params), vec![batch.n as u32, b.start as u32]);
                    assert_eq!(b.groups, b.len.div_ceil(128));
                    for i in b.start..b.start + b.len {
                        out.push(self.device.predict(&lits[i * batch.words..(i + 1) * batch.words]));
                    }
                }
                out
            }
        }
    }

    fn accuracy(&self, batch: &EncodedBatch, ys: &[usize]) -> f64 {
        let right = self.predict_batch(batch).iter().zip(ys).filter(|(p, y)| p == y).count();
        right as f64 / ys.len() as f64
    }

    fn sync(&mut self) {
        let r = self.device.reading();
        assert!(self.session.sync(&r.ta, &r.weights, &r.rngs, &r.class_rngs));
        assert!(!self.session.dirty);
    }

    fn into_cpu(mut self) -> TsetlinMachine {
        self.sync();
        self.session.host
    }
}

/// Noisy XOR on `bits` binary features.
fn make_xor(n: usize, bits: usize, noise: f64, seed: u64) -> (Vec<Vec<u8>>, Vec<usize>) {
    let mut rng = Rng::new(seed);
    let mut xs = Vec::with_capacity(n);
    let mut ys = Vec::with_capacity(n);
    for _ in 0..n {
        let x: Vec<u8> = (0..bits).map(|_| (rng.next_u64() & 1) as u8).collect();
        let mut y = (x[0] ^ x[1]) as usize;
        if next_f64(&mut rng) < noise {
            y ^= 1;
        }
        xs.push(x);
        ys.push(y);
    }
    (xs, ys)
}

/// A label of `(2 * x[0] + x[1]) % n_classes`.
fn make_multiclass(n: usize, bits: usize, n_classes: usize, seed: u64) -> (Vec<Vec<u8>>, Vec<usize>) {
    let mut rng = Rng::new(seed);
    let mut xs = Vec::with_capacity(n);
    let mut ys = Vec::with_capacity(n);
    for _ in 0..n {
        let x: Vec<u8> = (0..bits).map(|_| (rng.next_u64() & 1) as u8).collect();
        let y = (x[0] as usize * 2 + x[1] as usize) % n_classes;
        xs.push(x);
        ys.push(y);
    }
    (xs, ys)
}

fn encode(encoder: &Encoder, xs: &[Vec<u8>]) -> EncodedBatch {
    let refs: Vec<&[u8]> = xs.iter().map(|v| v.as_slice()).collect();
    encoder.encode_batch(&refs)
}

fn assert_predict_parity(bits: usize, n_classes: usize, cpc: usize, epochs: usize, seed: u64) {
    let (xtr, ytr) = make_multiclass(800, bits, n_classes, seed);
    let (xte, _) = make_multiclass(1500, bits, n_classes, seed + 1);
    let encoder = Encoder::for_binary(bits);
    let train = encode(&encoder, &xtr);
    let test = encode(&encoder, &xte);

    let mut tm = TsetlinMachine::with_config(n_classes, encoder.n_features(), cpc, 20, f(5.0), 8, true, seed)
        .max_included_literals(32);
    for _ in 0..epochs {
        tm.fit_epoch(&train, &ytr);
    }

    let cpu_pred = tm.predict_batch(&test);
    let gpu_pred = to_gpu(&tm).predict_batch(&test);

    assert_eq!(cpu_pred.len(), gpu_pred.len());
    let mism = cpu_pred.iter().zip(&gpu_pred).filter(|(a, b)| a != b).count();
    assert_eq!(mism, 0, "bits={bits} n_classes={n_classes}: {mism} prediction mismatches");
}

#[test]
fn predict_parity_binary_2class() {
    assert_predict_parity(12, 2, 40, 10, 7);
}

#[test]
fn predict_parity_multiword_padding() {
    assert_predict_parity(100, 2, 40, 8, 11);
}

#[test]
fn predict_parity_4class() {
    assert_predict_parity(13, 4, 32, 8, 21);
}

/// All of the state of a machine as one value.
fn state_bytes(tm: &TsetlinMachine) -> Vec<u8> {
    let mut buf = Vec::new();
    tm.write_to(&mut buf);
    buf
}

struct Cfg {
    bits: usize,
    n_classes: usize,
    cpc: usize,
    threshold: i32,
    s: f64,
    state_bits: u8,
    boost: bool,
    max_inc: usize,
    literal_drop_p: f64,
    class_weights: Option<Vec<f64>>,
    seed: u64,
}

impl Cfg {
    fn build(&self) -> (TsetlinMachine, Encoder) {
        let enc = Encoder::for_binary(self.bits);
        let mut tm = TsetlinMachine::with_config(
            self.n_classes,
            enc.n_features(),
            self.cpc,
            self.threshold,
            f(self.s),
            self.state_bits,
            self.boost,
            self.seed,
        )
        .max_included_literals(self.max_inc)
        .literal_drop_p(f(self.literal_drop_p));
        if let Some(cw) = &self.class_weights {
            tm = tm.class_weights(cw.iter().map(|&w| f(w)).collect());
        }
        (tm, enc)
    }
}

fn assert_train_parity(cfg: Cfg, epochs: usize) {
    let (xtr, ytr) = make_multiclass(600, cfg.bits, cfg.n_classes, cfg.seed);
    let (mut cpu_tm, enc) = cfg.build();
    let (gpu_seed_tm, _) = cfg.build();
    let train = encode(&enc, &xtr);

    for _ in 0..epochs {
        cpu_tm.fit_epoch(&train, &ytr);
    }

    let mut gpu = to_gpu(&gpu_seed_tm);
    for _ in 0..epochs {
        gpu.fit_epoch(&train, &ytr);
    }
    let gpu_tm = gpu.into_cpu();

    assert_eq!(
        state_bytes(&cpu_tm),
        state_bytes(&gpu_tm),
        "GPU-trained state differs from CPU-trained state (bitwise)"
    );
}

#[test]
fn train_parity_default() {
    assert_train_parity(
        Cfg {
            bits: 12,
            n_classes: 2,
            cpc: 32,
            threshold: 15,
            s: 3.9,
            state_bits: 8,
            boost: true,
            max_inc: usize::MAX,
            literal_drop_p: 0.0,
            class_weights: None,
            seed: 42,
        },
        5,
    );
}

#[test]
fn train_parity_no_boost_low_statebits() {
    assert_train_parity(
        Cfg {
            bits: 20,
            n_classes: 3,
            cpc: 24,
            threshold: 12,
            s: 6.0,
            state_bits: 4,
            boost: false,
            max_inc: usize::MAX,
            literal_drop_p: 0.0,
            class_weights: None,
            seed: 7,
        },
        5,
    );
}

#[test]
fn train_parity_max_included_literals() {
    assert_train_parity(
        Cfg {
            bits: 16,
            n_classes: 2,
            cpc: 40,
            threshold: 15,
            s: 3.9,
            state_bits: 8,
            boost: true,
            max_inc: 8,
            literal_drop_p: 0.0,
            class_weights: None,
            seed: 99,
        },
        6,
    );
}

#[test]
fn train_parity_literal_dropout() {
    assert_train_parity(
        Cfg {
            bits: 100,
            n_classes: 4,
            cpc: 24,
            threshold: 20,
            s: 5.0,
            state_bits: 8,
            boost: true,
            max_inc: usize::MAX,
            literal_drop_p: 0.3,
            class_weights: None,
            seed: 123,
        },
        5,
    );
}

#[test]
fn train_parity_class_weights() {
    assert_train_parity(
        Cfg {
            bits: 14,
            n_classes: 3,
            cpc: 32,
            threshold: 15,
            s: 3.9,
            state_bits: 8,
            boost: true,
            max_inc: usize::MAX,
            literal_drop_p: 0.0,
            class_weights: Some(vec![1.0, 1.5, 0.7]),
            seed: 321,
        },
        5,
    );
}

#[test]
fn predict_parity_untrained_empty_clauses() {
    let (xte, _) = make_xor(500, 16, 0.0, 3);
    let encoder = Encoder::for_binary(16);
    let test = encode(&encoder, &xte);

    let tm = TsetlinMachine::with_config(2, encoder.n_features(), 20, 15, f(3.9), 8, true, 5);
    let cpu = tm.predict_batch(&test);
    let g = to_gpu(&tm).predict_batch(&test);
    assert_eq!(cpu, g);
}

#[test]
fn gpu_train_converges_on_noisy_xor() {
    let (xtr, ytr) = make_xor(2000, 12, 0.1, 1);
    let (xte, yte) = make_xor(2000, 12, 0.0, 2);
    let encoder = Encoder::for_binary(12);
    let train = encode(&encoder, &xtr);
    let test = encode(&encoder, &xte);

    let tm = TsetlinMachine::with_config(2, encoder.n_features(), 40, 15, f(3.9), 8, true, 42)
        .max_included_literals(32);
    let mut gpu = to_gpu(&tm);
    for _ in 0..30 {
        gpu.fit_epoch(&train, &ytr);
    }
    let acc = gpu.accuracy(&test, &yte);
    assert!(acc > 0.95, "GPU-trained noisy-XOR accuracy too low: {acc}");
}

#[test]
fn gpu_train_save_load_cpu_roundtrip() {
    let (xtr, ytr) = make_xor(1500, 12, 0.05, 1);
    let (xte, _) = make_xor(1500, 12, 0.0, 2);
    let encoder = Encoder::for_binary(12);
    let train = encode(&encoder, &xtr);
    let test = encode(&encoder, &xte);

    let tm = TsetlinMachine::with_config(2, encoder.n_features(), 40, 15, f(3.9), 8, true, 42)
        .max_included_literals(32);
    let mut gpu = to_gpu(&tm);
    for _ in 0..12 {
        gpu.fit_epoch(&train, &ytr);
    }
    let gpu_pred = gpu.predict_batch(&test);

    let host = gpu.into_cpu();
    let mut buf = Vec::new();
    host.write_to(&mut buf);
    let loaded = TsetlinMachine::read_from(buf.as_slice()).unwrap();
    let cpu_pred = loaded.predict_batch(&test);
    assert_eq!(gpu_pred, cpu_pred, "GPU vs reloaded-CPU predictions differ");

    let mut pure_cpu = TsetlinMachine::with_config(2, encoder.n_features(), 40, 15, f(3.9), 8, true, 42)
        .max_included_literals(32);
    for _ in 0..12 {
        pure_cpu.fit_epoch(&train, &ytr);
    }
    let mut a = loaded;
    a.fit_epoch(&train, &ytr);
    pure_cpu.fit_epoch(&train, &ytr);
    assert_eq!(state_bytes(&a), state_bytes(&pure_cpu), "resumed CPU training diverged from pure-CPU");
}

#[test]
fn interleaved_cpu_gpu_cpu_matches_pure_cpu() {
    let (xtr, ytr) = make_multiclass(700, 16, 3, 5);
    let encoder = Encoder::for_binary(16);
    let train = encode(&encoder, &xtr);

    let mut cpu = TsetlinMachine::with_config(3, encoder.n_features(), 24, 15, f(3.9), 8, true, 9);
    for _ in 0..6 {
        cpu.fit_epoch(&train, &ytr);
    }

    let mut m = TsetlinMachine::with_config(3, encoder.n_features(), 24, 15, f(3.9), 8, true, 9);
    m.fit_epoch(&train, &ytr);
    m.fit_epoch(&train, &ytr);
    let mut g = to_gpu(&m);
    g.fit_epoch(&train, &ytr);
    g.fit_epoch(&train, &ytr);
    let mut m = g.into_cpu();
    m.fit_epoch(&train, &ytr);
    m.fit_epoch(&train, &ytr);

    assert_eq!(
        state_bytes(&cpu),
        state_bytes(&m),
        "interleaved CPU/GPU/CPU training diverged from pure CPU"
    );
}

#[test]
fn a_machine_that_is_too_large_trains_on_the_host() {
    let (xtr, ytr) = make_multiclass(100, 16, 3, 5);
    let train = encode(&Encoder::for_binary(16), &xtr);
    let mut cpu = TsetlinMachine::with_config(3, 16, 24, 15, f(3.9), 8, true, 9);
    let mut session = Session::open(cpu.clone(), 100).unwrap_or_else(|e| panic!("{:?}", e));
    assert!(!session.resident);
    assert!(matches!(session.begin_epoch(&train, &ytr, 1), EpochWork::OnHost));
    cpu.fit_epoch(&train, &ytr);
    assert_eq!(state_bytes(&cpu), state_bytes(&session.host));
    match session.begin_predict(&train) {
        PredictWork::Done { classes } => assert_eq!(classes, cpu.predict_batch(&train)),
        _ => panic!("nothing for the host"),
    }
    let none = encode(&Encoder::for_binary(16), &[]);
    assert!(matches!(session.begin_epoch(&none, &[], 1), EpochWork::Nothing));
}

#[test]
fn what_a_device_returns_out_of_range_is_refused() {
    let (xtr, ytr) = make_multiclass(50, 8, 2, 5);
    let train = encode(&Encoder::for_binary(8), &xtr);
    let tm = TsetlinMachine::with_config(2, 8, 4, 15, f(3.9), 4, true, 9);
    let mut gpu = to_gpu(&tm);
    gpu.fit_epoch(&train, &ytr);
    let before = state_bytes(&gpu.session.host);
    let weights: Vec<u32> = gpu.device.weights.iter().map(|&w| w as u32).collect();
    let mut ta = gpu.device.ta.clone();
    ta[5] = 16;
    assert!(!gpu.session.sync(&ta, &weights, &halves(&gpu.device.rngs), &halves(&gpu.device.class_rngs)));
    assert!(gpu.session.dirty);
    assert_eq!(before, state_bytes(&gpu.session.host));
}

#[test]
fn replicas_on_a_device_are_threads_on_the_host() {
    let (xs, ys) = make_multiclass(37, 20, 3, 5);
    for drop in [0.0, 0.25] {
        let encoder = Encoder::for_binary(20);
        let batch = encode(&encoder, &xs);
        let tm = TsetlinMachine::with_config(3, 20, 6, 15, f(3.9), 6, true, 11)
            .literal_drop_p(f(drop))
            .data_parallel(true);
        let (mut cpu, mut gpu) = (tm.clone(), to_gpu(&tm));
        for k in [4usize, 1, 10] {
            gpu.session.set_replicas(Some(k));
            assert_eq!(gpu.session.count_replicas(batch.n), k);
            gpu.fit_epoch(&batch, &ys);
            cpu.fit_epoch_data_parallel(&batch, &ys, k);
        }
        gpu.session.set_replicas(None);
        gpu.fit_epoch(&batch, &ys);
        cpu.fit_epoch_data_parallel(&batch, &ys, AUTO_REPLICAS);
        assert_eq!(gpu.predict_batch(&batch), cpu.predict_batch(&batch));
        assert_eq!(state_bytes(&gpu.into_cpu()), state_bytes(&cpu));
    }
}

#[test]
fn replicas_are_cut_down_to_what_fits() {
    // 2 classes of 4 clauses with 16 literals: 512 bytes of counters, 64 of included literals.
    let tm = TsetlinMachine::with_config(2, 8, 4, 15, f(3.9), 4, true, 9);
    let open = |tm: &TsetlinMachine, room: u64| Session::open(tm.clone(), room).unwrap();
    let dp = tm.clone().data_parallel(true);
    assert_eq!(open(&tm, u64::MAX).count_replicas(100), 1);
    assert_eq!(open(&dp, u64::MAX).count_replicas(100), 16);
    assert_eq!(open(&dp, u64::MAX).count_replicas(3), 3);
    assert_eq!(open(&dp, 5 * 512 + 511).count_replicas(100), 5);
    assert_eq!(open(&dp, 512).count_replicas(100), 1);
    let mut s = open(&dp, 5 * 512);
    s.set_replicas(Some(40));
    assert_eq!(s.count_replicas(100), 5);
    s.set_replicas(Some(2));
    assert_eq!(s.count_replicas(100), 2);
    s.set_replicas(Some(0));
    assert_eq!(s.count_replicas(100), 1);
}

#[test]
fn replicas_out_of_range_are_refused() {
    let (xs, ys) = make_multiclass(50, 8, 2, 5);
    let batch = encode(&Encoder::for_binary(8), &xs);
    let tm = TsetlinMachine::with_config(2, 8, 4, 15, f(3.9), 4, true, 9).data_parallel(true);
    let mut session = Session::open(tm, u64::MAX).unwrap();
    session.set_replicas(Some(2));
    let replicas = match session.begin_epoch(&batch, &ys, 8) {
        EpochWork::OnReplicas { replicas, .. } => replicas,
        _ => panic!("no replicas"),
    };
    let mut readings: Vec<Reading> = replicas.iter().map(|r| Device::new(&r.image).reading()).collect();
    let before = state_bytes(&session.host);
    readings[1].weights[3] = 0;
    assert!(!session.merge_replicas(&readings));
    assert_eq!(before, state_bytes(&session.host));
    // Replicas that learned nothing change nothing.
    readings[1].weights[3] = 1;
    assert!(session.merge_replicas(&readings));
    assert_eq!(before, state_bytes(&session.host));
}

#[test]
fn a_machine_on_the_host_trains_with_its_threads() {
    let (xs, ys) = make_multiclass(200, 80, 2, 5);
    let batch = encode(&Encoder::for_binary(80), &xs);
    let mut cpu = TsetlinMachine::with_config(2, 80, 64, 15, f(3.9), 8, true, 9).data_parallel(true);
    let mut session = Session::open(cpu.clone(), 100).unwrap();
    assert!(cpu.takes_data_parallel(batch.n, 4));
    assert!(matches!(session.begin_epoch(&batch, &ys, 4), EpochWork::OnHost));
    cpu.fit_epoch_threads(&batch, &ys, 4);
    assert_eq!(state_bytes(&cpu), state_bytes(&session.host));
}
