//! What the dense models have in common: geometry, feedback rules and masks.
use crate::bits::{all_bits, bit_at, bits_of};
use crate::clause_bank::automata::{fresh_state, half_of, Automata, Geometry};
use crate::clause_bank::dense::MASK_BITS;
use crate::clause_bank::feedback::{
    after_mask, literal_mask, Clause, ClassBank, ClassModel, ClauseModel, Rules,
};
use crate::dyadic::{
    binary_digits, chance_of, digits_of, is_positive, keep_of, one_minus_of, recip_of, Chance,
    Dyadic, FRACTIONS,
};
use crate::rng::{lemma_skip_adds, rng_next, rng_skip, Rng, GOLDEN};
use crate::sampling::bernoulli_mask;
use vstd::prelude::*;

verus! {

/// The configuration of a dense model.
#[derive(Clone, Debug)]
pub struct TrainConfig {
    pub geom: Geometry,
    pub rules: Rules,
    /// The bound of vote sums.
    pub threshold: i32,
    /// The specificity.
    pub s: Dyadic,
    /// The digits of `1 / s`, with which Type I feedback penalises.
    pub dig_inv: Vec<u8>,
    /// The digits of `(s - 1) / s`, with which Type I feedback rewards.
    pub dig_keep: Vec<u8>,
    /// The probability with which a literal is left out of a training step.
    pub literal_drop: Chance,
    /// The digits of one minus that probability.
    pub dig_lit_active: Vec<u8>,
}

/// The digits of the probability `1 / s`.
pub open spec fn inv_digits(s: Dyadic) -> Seq<u8> {
    binary_digits(chance_of(recip_of(s).0, recip_of(s).1), MASK_BITS as nat)
}

/// The digits of the probability `(s - 1) / s`.
pub open spec fn keep_digits(s: Dyadic) -> Seq<u8> {
    binary_digits(chance_of(keep_of(s).0, keep_of(s).1), MASK_BITS as nat)
}

/// The digits of the probability `1 - p`.
pub open spec fn active_digits(p: Dyadic) -> Seq<u8> {
    let q = one_minus_of(p.mant as int, p.exp as int);
    binary_digits(chance_of(q.0, q.1), MASK_BITS as nat)
}

/// The digits of a probability of one.
pub open spec fn certain_digits() -> Seq<u8> {
    binary_digits(Chance { floor: FRACTIONS, exact: true }, MASK_BITS as nat)
}

/// The bound on a drawn fraction for the probability `1 - 1 / d`.
pub open spec fn indicator_gate(d: Dyadic) -> u64 {
    let inv = recip_of(d);
    let q = one_minus_of(inv.0, inv.1);
    chance_of(q.0, q.1).floor
}

/// The stream position of the generator of clause `i` in a model seeded with `seed`.
pub open spec fn clause_seed(seed: u64, i: int) -> u64 {
    rng_next(seed ^ (((i + 1) as u64).wrapping_mul(GOLDEN)))
}

/// The stream position of the generator that decides which literals are active.
pub open spec fn literal_seed(seed: u64) -> u64 {
    rng_next(seed ^ LITERAL_XOR)
}

/// What tells the stream of active literals from the stream of samples.
pub const LITERAL_XOR: u64 = 0x4C49_5445_5241_4C21;

/// What tells the stream of initial weights from the stream of samples.
pub const WEIGHT_XOR: u64 = 0x5747_4854_5F49_4E49;

/// The generator of clause `i`; those of the classes follow after the last clause.
pub fn stream_rng(seed: u64, i: u64) -> (r: Rng)
    requires
        i < u64::MAX,
    ensures
        r@ == clause_seed(seed, i as int),
{
    Rng::new(seed ^ ((i + 1).wrapping_mul(GOLDEN)))
}

impl TrainConfig {
    pub open spec fn wf(&self) -> bool {
        &&& self.geom.wf()
        &&& self.threshold >= 1
        &&& self.rules.wmax == self.threshold
        &&& self.rules.wmin <= 1
        &&& self.s.wf() && self.s.above_one()
        &&& self.dig_inv@ == inv_digits(self.s)
        &&& self.dig_keep@ == keep_digits(self.s)
    }

    /// The number of literals.
    pub open spec fn n(&self) -> nat {
        self.geom.n_literals as nat
    }

    /// The literals that are active in a step whose literal stream is at `s`.
    pub open spec fn active_of(&self, s: u64) -> Seq<bool> {
        if is_positive(self.literal_drop) {
            literal_mask(s, self.dig_lit_active@, self.n())
        } else {
            Seq::new(self.n(), |l: int| true)
        }
    }

    /// The position of the literal stream after a step.
    pub open spec fn after_active(&self, s: u64) -> u64 {
        if is_positive(self.literal_drop) {
            after_mask(s, self.dig_lit_active@, self.n())
        } else {
            s
        }
    }

    /// The configuration without limits, dropout and Type III feedback.
    pub fn new(
        n_literals: usize,
        threshold: i32,
        s: Dyadic,
        state_bits: u8,
        boost: bool,
        wmin: i32,
    ) -> (r: Self)
        requires
            n_literals + 64 <= usize::MAX,
            threshold >= 1,
            s.wf(),
            s.above_one(),
            2 <= state_bits <= 8,
            wmin <= 1,
        ensures
            r.wf(),
            r.geom.n_literals == n_literals,
            r.geom.half == half_of(state_bits),
            r.threshold == threshold,
            r.s == s,
            r.rules == (Rules {
                boost,
                max_included: usize::MAX,
                wmin,
                wmax: threshold,
                type_iii: false,
                d_gate: 0,
                drop: Chance { floor: 0, exact: true },
            }),
            r.literal_drop == (Chance { floor: 0, exact: true }),
            r.dig_lit_active@ == certain_digits(),
    {
        let dig_inv: Vec<u8> = digits_of(s.recip().chance(), MASK_BITS);
        let dig_keep: Vec<u8> = digits_of(s.keep().chance(), MASK_BITS);
        let dig_lit_active: Vec<u8> = digits_of(Chance { floor: FRACTIONS, exact: true }, MASK_BITS);
        TrainConfig {
            geom: Geometry::new(n_literals, state_bits),
            rules: Rules {
                boost,
                max_included: usize::MAX,
                wmin,
                wmax: threshold,
                type_iii: false,
                d_gate: 0,
                drop: Chance::never(),
            },
            threshold,
            s,
            dig_inv,
            dig_keep,
            literal_drop: Chance::never(),
            dig_lit_active,
        }
    }

    /// Limits how many literals a clause may include.
    pub fn set_max_included(&mut self, max: usize)
        requires
            old(self).wf(),
        ensures
            final(self).wf(),
            *final(self) == (TrainConfig {
                rules: Rules { max_included: max, ..old(self).rules },
                ..*old(self)
            }),
    {
        self.rules.max_included = max;
    }

    /// Sets the probability with which a clause is dropped from an update.
    pub fn set_clause_drop(&mut self, p: Dyadic)
        requires
            old(self).wf(),
            p.wf(),
            p.below_one(),
        ensures
            final(self).wf(),
            *final(self) == (TrainConfig {
                rules: Rules { drop: chance_of(p.mant as int, p.exp as int), ..old(self).rules },
                ..*old(self)
            }),
    {
        self.rules.drop = p.chance();
    }

    /// Sets the probability with which a literal is left out of a training step.
    pub fn set_literal_drop(&mut self, p: Dyadic)
        requires
            old(self).wf(),
            p.wf(),
            p.below_one(),
        ensures
            final(self).wf(),
            final(self).dig_lit_active@ == active_digits(p),
            *final(self) == (TrainConfig {
                literal_drop: chance_of(p.mant as int, p.exp as int),
                dig_lit_active: final(self).dig_lit_active,
                ..*old(self)
            }),
    {
        self.literal_drop = p.chance();
        self.dig_lit_active = digits_of(p.one_minus().chance(), MASK_BITS);
    }

    /// Turns Type III feedback on, with strength `d`.
    pub fn set_type_iii(&mut self, d: Dyadic)
        requires
            old(self).wf(),
            d.wf(),
            d.above_one(),
        ensures
            final(self).wf(),
            *final(self) == (TrainConfig {
                rules: Rules { type_iii: true, d_gate: indicator_gate(d), ..old(self).rules },
                ..*old(self)
            }),
    {
        let inv: Dyadic = d.recip();
        self.rules.d_gate = inv.one_minus().chance().floor;
        self.rules.type_iii = true;
    }

    /// Draws which literals are active in a training step.
    pub fn draw_active(&self, rng: &mut Rng) -> (r: Vec<u64>)
        requires
            self.wf(),
        ensures
            r@.len() == self.geom.words,
            bits_of(r@, self.n()) == self.active_of(old(rng)@),
            final(rng)@ == self.after_active(old(rng)@),
    {
        if self.literal_drop.positive() {
            bernoulli_mask(rng, &self.dig_lit_active, self.geom.words)
        } else {
            let r: Vec<u64> = all_bits(self.geom.words);
            proof {
                assert forall|l: int| 0 <= l < self.n() implies #[trigger] bit_at(r@, l) by {}
                assert(bits_of(r@, self.n()) =~= self.active_of(rng@));
            }
            r
        }
    }
}

/// Clause `i` of a new model: random counters, weight 1.
pub open spec fn initial_clause(seed: u64, i: int, n: nat, half: u8) -> ClauseModel {
    ClauseModel {
        auto: fresh_state(rng_skip(rng_next(seed), (i * n) as nat), n, half),
        weight: 1,
        rng: clause_seed(seed, i),
    }
}

/// Class `c` of a new model in which every class has `per_class` clauses.
pub open spec fn initial_class(
    seed: u64,
    c: int,
    per_class: nat,
    n_clauses: int,
    n: nat,
    half: u8,
) -> ClassModel {
    ClassModel {
        clauses: Seq::new(per_class, |j: int| initial_clause(seed, c * per_class + j, n, half)),
        rng: clause_seed(seed, c + n_clauses),
    }
}

/// New classes of `per_class` clauses each. The counters are drawn from `rng` clause by
/// clause; every clause and every class gets a stream of its own.
pub fn fresh_classes(
    g: &Geometry,
    rng: &mut Rng,
    seed: u64,
    n_classes: usize,
    per_class: usize,
) -> (r: Vec<ClassBank>)
    requires
        g.wf(),
        old(rng)@ == rng_next(seed),
        per_class >= 1,
        n_classes * per_class + n_classes < usize::MAX,
    ensures
        r@.len() == n_classes,
        forall|c: int|
            0 <= c < n_classes ==> (#[trigger] r@[c])@ == initial_class(
                seed,
                c,
                per_class as nat,
                n_classes * per_class,
                g.n_literals as nat,
                g.half,
            ),
        forall|c: int| 0 <= c < n_classes ==> (#[trigger] r@[c]).clauses@.len() == per_class,
        forall|c: int, wmax: i32|
            0 <= c < n_classes && wmax >= 1 ==> #[trigger] r@[c].wf(g, 1, wmax),
        final(rng)@ == rng_skip(rng_next(seed), (n_classes * per_class * g.n_literals) as nat),
{
    let ghost s0 = rng_next(seed);
    let ghost n = g.n_literals as int;
    let total: usize = n_classes * per_class;
    let mut r: Vec<ClassBank> = Vec::with_capacity(n_classes);
    let mut c: usize = 0;
    let mut i: usize = 0;
    proof {
        assert(0 * per_class == 0 && 0 * n == 0) by (nonlinear_arith);
    }
    while c < n_classes
        invariant
            g.wf(),
            n == g.n_literals,
            s0 == rng_next(seed),
            c <= n_classes,
            i == c * per_class,
            total == n_classes * per_class,
            total + n_classes < usize::MAX,
            rng@ == rng_skip(s0, (i * n) as nat),
            r@.len() == c,
            forall|k: int|
                0 <= k < c ==> (#[trigger] r@[k])@ == initial_class(
                    seed,
                    k,
                    per_class as nat,
                    total as int,
                    n as nat,
                    g.half,
                ),
            forall|k: int| 0 <= k < c ==> (#[trigger] r@[k]).clauses@.len() == per_class,
            forall|k: int, wmax: i32|
                0 <= k < c && wmax >= 1 ==> #[trigger] r@[k].wf(g, 1, wmax),
        decreases n_classes - c,
    {
        let mut clauses: Vec<Clause> = Vec::with_capacity(per_class);
        let mut j: usize = 0;
        proof {
            assert((c + 1) * per_class <= n_classes * per_class && (c + 1) * per_class == c * per_class
                + per_class) by (nonlinear_arith)
                requires
                    c + 1 <= n_classes,
            ;
        }
        while j < per_class
            invariant
                g.wf(),
                n == g.n_literals,
                s0 == rng_next(seed),
                j <= per_class,
                i == c * per_class + j,
                c * per_class + per_class <= total,
                total < usize::MAX,
                rng@ == rng_skip(s0, (i * n) as nat),
                clauses@.len() == j,
                forall|k: int|
                    0 <= k < j ==> (#[trigger] clauses@[k])@ == initial_clause(
                        seed,
                        c * per_class + k,
                        n as nat,
                        g.half,
                    ),
                forall|k: int| 0 <= k < j ==> (#[trigger] clauses@[k]).auto.wf(g),
            decreases per_class - j,
        {
            proof {
                assert((i + 1) * n == i * n + n && i * n >= 0) by (nonlinear_arith)
                    requires
                        i >= 0,
                        n >= 0,
                ;
                lemma_skip_adds(s0, (i * n) as nat, n as nat);
            }
            let auto: Automata = Automata::fresh(g, rng);
            clauses.push(Clause { auto, weight: 1, rng: stream_rng(seed, i as u64) });
            i = i + 1;
            j = j + 1;
        }
        let bank: ClassBank = ClassBank { clauses, rng: stream_rng(seed, c as u64 + total as u64) };
        proof {
            assert(bank@.clauses =~= initial_class(
                seed,
                c as int,
                per_class as nat,
                total as int,
                n as nat,
                g.half,
            ).clauses);
        }
        r.push(bank);
        c = c + 1;
    }
    r
}

} // verus!
