//! Clauses shared by several outputs, each of which weighs them with signed weights.
use crate::bits::{bits_of, expand_bits_to_bytes};
use crate::clause_bank::automata::{
    count_at, flags, fresh_state, holds, lemma_flags, may_grow, type_i_of, type_ii_of, votes,
    Automata, ClauseState, Geometry,
};
use crate::clause_bank::feedback::{
    after_drops, after_mask, literal_mask, third_of, ClauseModel, Inputs, Rules,
};
use crate::dyadic::{is_positive, Chance};
use crate::models::config::{clause_seed, stream_rng};
use crate::rng::{lemma_skip_adds, rng_frac, rng_next, rng_skip, rng_word, Rng};
use crate::sampling::{bernoulli_mask, draw_drops, drops_of};
use vstd::prelude::*;

verus! {

/// A shared clause and its random stream.
#[derive(Clone, Debug)]
pub struct SharedClause {
    pub auto: Automata,
    pub rng: Rng,
}

/// The automata and streams of shared clauses, as values.
#[verifier::ext_equal]
pub struct SharedModel {
    pub autos: Seq<ClauseState>,
    pub rngs: Seq<u64>,
}

/// The values of shared clauses.
pub open spec fn shared_model(cs: Seq<SharedClause>) -> SharedModel {
    SharedModel {
        autos: Seq::new(cs.len(), |j: int| cs[j].auto@),
        rngs: Seq::new(cs.len(), |j: int| cs[j].rng@),
    }
}

/// All automata are well-formed.
pub open spec fn shared_wf(cs: Seq<SharedClause>, g: &Geometry) -> bool {
    forall|j: int| 0 <= j < cs.len() ==> (#[trigger] cs[j]).auto.wf(g)
}

/// A clause as one output sees it, after Type I or Type II feedback and the update of the
/// weight. A clause whose weight agrees with the target gets Type I feedback; the weight of
/// a clause that fired (`out`) moves towards the target.
pub open spec fn coalesced_of(
    c: ClauseModel,
    target: bool,
    gate: u64,
    out: bool,
    r: Rules,
    x: Seq<bool>,
    act: Seq<bool>,
    inv: Seq<bool>,
    keep: Seq<bool>,
    half: u8,
    max: u8,
) -> ClauseModel {
    let reward = target == (c.weight >= 0);
    let ta = if rng_frac(c.rng) > gate {
        c.auto.ta
    } else if reward {
        type_i_of(
            c.auto.ta,
            out && may_grow(c.auto.ta, half, r.max_included),
            r.boost,
            x,
            inv,
            keep,
            act,
            max,
        )
    } else if out {
        type_ii_of(c.auto.ta, x, act, half, max)
    } else {
        c.auto.ta
    };
    let s1 = rng_next(c.rng);
    ClauseModel {
        auto: ClauseState { ta, ..c.auto },
        weight: if out && rng_frac(s1) <= gate {
            if target {
                if c.weight < i32::MAX {
                    (c.weight + 1) as i32
                } else {
                    c.weight
                }
            } else {
                if c.weight > i32::MIN {
                    (c.weight - 1) as i32
                } else {
                    c.weight
                }
            }
        } else {
            c.weight
        },
        rng: if out {
            rng_next(s1)
        } else {
            s1
        },
    }
}

/// A clause as one output sees it, after one update of that output.
pub open spec fn shared_step(
    c: ClauseModel,
    active: bool,
    target: bool,
    gate: u64,
    out: bool,
    r: Rules,
    x: Seq<bool>,
    act: Seq<bool>,
    inv: Seq<bool>,
    keep: Seq<bool>,
    half: u8,
    max: u8,
) -> ClauseModel {
    if !active {
        c
    } else {
        let c1 = coalesced_of(c, target, gate, out, r, x, act, inv, keep, half, max);
        if r.type_iii {
            third_of(c1, target, gate, r.d_gate, x, act, half, max)
        } else {
            c1
        }
    }
}

/// Clause `j` with the weight that one output gives it.
pub open spec fn unit_of(m: SharedModel, weights: Seq<i32>, j: int) -> ClauseModel {
    ClauseModel { auto: m.autos[j], weight: weights[j], rng: m.rngs[j] }
}

/// The shared clauses, the weights of one output and its stream, as values.
#[verifier::ext_equal]
pub struct SharedUpdate {
    pub clauses: SharedModel,
    pub weights: Seq<i32>,
    pub rng: u64,
}

/// The shared clauses and one output after an update of that output, whose stream draws
/// the two masks of Type I feedback. `outs` says which clauses fired.
pub open spec fn shared_update_of(
    u: SharedUpdate,
    active: Seq<bool>,
    target: bool,
    gate: u64,
    outs: Seq<bool>,
    r: Rules,
    dig_inv: Seq<u8>,
    dig_keep: Seq<u8>,
    x: Seq<bool>,
    act: Seq<bool>,
    half: u8,
    max: u8,
) -> SharedUpdate {
    let n = u.clauses.autos.len();
    let inv = literal_mask(u.rng, dig_inv, x.len());
    let s2 = after_mask(u.rng, dig_inv, x.len());
    let keep = literal_mask(s2, dig_keep, x.len());
    let units = Seq::new(
        n,
        |j: int|
            shared_step(
                unit_of(u.clauses, u.weights, j),
                active[j],
                target,
                gate,
                outs[j],
                r,
                x,
                act,
                inv,
                keep,
                half,
                max,
            ),
    );
    SharedUpdate {
        clauses: SharedModel {
            autos: Seq::new(n, |j: int| units[j].auto),
            rngs: Seq::new(n, |j: int| units[j].rng),
        },
        weights: Seq::new(n, |j: int| units[j].weight),
        rng: after_mask(s2, dig_keep, x.len()),
    }
}

/// Which shared clauses fire in training.
pub open spec fn shared_fired(m: SharedModel, half: u8, x: Seq<bool>, act: Seq<bool>) -> Seq<bool> {
    Seq::new(m.autos.len(), |j: int| holds(m.autos[j].ta, half, x, act))
}

/// Which shared clauses fire in inference.
pub open spec fn shared_votes(m: SharedModel, half: u8, x: Seq<bool>) -> Seq<bool> {
    Seq::new(m.autos.len(), |j: int| votes(m.autos[j].ta, half, x))
}

/// The sum of the weights of the first `n` clauses that are both in `fired` and in `active`.
pub open spec fn signed_sum(fired: Seq<bool>, active: Seq<bool>, weights: Seq<i32>, n: nat) -> int
    decreases n,
{
    if n == 0 {
        0
    } else {
        signed_sum(fired, active, weights, (n - 1) as nat) + if fired[n - 1] && active[n - 1] {
            weights[n - 1] as int
        } else {
            0
        }
    }
}

/// All clauses take part.
pub open spec fn all_active(n: nat) -> Seq<bool> {
    Seq::new(n, |j: int| true)
}

/// Which clauses take part in a step: each is dropped with probability `drop`.
pub open spec fn active_clauses(s: u64, drop: Chance, n: nat) -> Seq<bool> {
    if is_positive(drop) {
        Seq::new(n, |j: int| !drops_of(s, drop, n)[j])
    } else {
        all_active(n)
    }
}

/// The sum of the weights of the clauses that fired and take part.
pub fn sum_signed(fired: &[bool], active: &[bool], weights: &[i32]) -> (r: i128)
    requires
        fired@.len() == weights@.len(),
        active@.len() == weights@.len(),
    ensures
        r == signed_sum(fired@, active@, weights@, weights@.len()),
{
    let mut sum: i128 = 0;
    let mut j: usize = 0;
    while j < weights.len()
        invariant
            fired@.len() == weights@.len(),
            active@.len() == weights@.len(),
            j <= weights@.len(),
            sum == signed_sum(fired@, active@, weights@, j as nat),
            -0x8000_0000 * j <= sum <= 0x8000_0000 * j,
        decreases weights@.len() - j,
    {
        if fired[j] && active[j] {
            sum = sum + weights[j] as i128;
        }
        j = j + 1;
    }
    sum
}

/// Decides which clauses take part in a step.
pub fn draw_active_clauses(rng: &mut Rng, drop: Chance, n: usize) -> (r: Vec<bool>)
    ensures
        r@ == active_clauses(old(rng)@, drop, n as nat),
        final(rng)@ == after_drops(old(rng)@, drop, n as nat),
{
    if drop.positive() {
        let ghost s = rng@;
        let dropped: Vec<bool> = draw_drops(rng, drop, n);
        let mut r: Vec<bool> = Vec::with_capacity(n);
        let mut j: usize = 0;
        while j < n
            invariant
                j <= n,
                dropped@ == drops_of(s, drop, n as nat),
                r@.len() == j,
                forall|k: int| 0 <= k < j ==> #[trigger] r@[k] == !dropped@[k],
            decreases n - j,
        {
            r.push(!dropped[j]);
            j = j + 1;
        }
        proof {
            assert(r@ =~= active_clauses(s, drop, n as nat));
        }
        r
    } else {
        let r: Vec<bool> = vec![true; n];
        proof {
            assert(r@ =~= all_active(n as nat));
        }
        r
    }
}

/// Which clauses fire in training.
pub fn fire_shared(clauses: &Vec<SharedClause>, g: &Geometry, lit: &[u64], active: &[u64]) -> (r: Vec<bool>)
    requires
        g.wf(),
        shared_wf(clauses@, g),
        lit@.len() == g.words,
        active@.len() == g.words,
    ensures
        r@ == shared_fired(
            shared_model(clauses@),
            g.half,
            bits_of(lit@, g.n_literals as nat),
            bits_of(active@, g.n_literals as nat),
        ),
{
    let ghost x = bits_of(lit@, g.n_literals as nat);
    let ghost act = bits_of(active@, g.n_literals as nat);
    let mut r: Vec<bool> = Vec::with_capacity(clauses.len());
    let mut j: usize = 0;
    while j < clauses.len()
        invariant
            shared_wf(clauses@, g),
            lit@.len() == g.words,
            active@.len() == g.words,
            x == bits_of(lit@, g.n_literals as nat),
            act == bits_of(active@, g.n_literals as nat),
            j <= clauses@.len(),
            r@.len() == j,
            forall|k: int|
                0 <= k < j ==> #[trigger] r@[k] == holds(clauses@[k].auto@.ta, g.half, x, act),
        decreases clauses@.len() - j,
    {
        r.push(clauses[j].auto.fires(g, lit, active));
        j = j + 1;
    }
    proof {
        assert(r@ =~= shared_fired(shared_model(clauses@), g.half, x, act));
    }
    r
}

/// Which clauses fire in inference.
pub fn vote_shared(clauses: &Vec<SharedClause>, g: &Geometry, lit: &[u64]) -> (r: Vec<bool>)
    requires
        g.wf(),
        shared_wf(clauses@, g),
        lit@.len() == g.words,
    ensures
        r@ == shared_votes(shared_model(clauses@), g.half, bits_of(lit@, g.n_literals as nat)),
{
    let ghost x = bits_of(lit@, g.n_literals as nat);
    let mut r: Vec<bool> = Vec::with_capacity(clauses.len());
    let mut j: usize = 0;
    while j < clauses.len()
        invariant
            shared_wf(clauses@, g),
            lit@.len() == g.words,
            x == bits_of(lit@, g.n_literals as nat),
            j <= clauses@.len(),
            r@.len() == j,
            forall|k: int| 0 <= k < j ==> #[trigger] r@[k] == votes(clauses@[k].auto@.ta, g.half, x),
        decreases clauses@.len() - j,
    {
        r.push(clauses[j].auto.matches(g, lit));
        j = j + 1;
    }
    proof {
        assert(r@ =~= shared_votes(shared_model(clauses@), g.half, x));
    }
    r
}

impl SharedClause {
    /// Gives feedback to the clause for one output, and updates the weight of that output.
    pub fn apply_one_clause_coalesced(
        &mut self,
        w: i32,
        g: &Geometry,
        r: &Rules,
        target: bool,
        gate: u64,
        out: bool,
        lit_b: &[u8],
        inv_b: &[u8],
        keep_b: &[u8],
        active_b: &[u8],
    ) -> (weight: i32)
        requires
            old(self).auto.wf(g),
            lit_b@.len() == g.n_literals,
            inv_b@.len() == g.n_literals,
            keep_b@.len() == g.n_literals,
            active_b@.len() == g.n_literals,
            forall|l: int| 0 <= l < g.n_literals ==> #[trigger] lit_b@[l] <= 1,
        ensures
            final(self).auto.wf(g),
            (ClauseModel { auto: final(self).auto@, weight, rng: final(self).rng@ }) == coalesced_of(
                (ClauseModel { auto: old(self).auto@, weight: w, rng: old(self).rng@ }),
                target,
                gate,
                out,
                *r,
                flags(lit_b@),
                flags(active_b@),
                flags(inv_b@),
                flags(keep_b@),
                g.half,
                g.max_state,
            ),
    {
        let reward: bool = target == (w >= 0);
        if self.rng.next_fraction() <= gate {
            if reward {
                let grows: bool = out && self.auto.can_grow(g, r.max_included);
                self.auto.type_i(g, grows, r.boost, lit_b, inv_b, keep_b, active_b);
            } else if out {
                self.auto.type_ii(g, lit_b, active_b);
            }
        }
        if out && self.rng.next_fraction() <= gate {
            if target {
                if w < i32::MAX {
                    w + 1
                } else {
                    w
                }
            } else if w > i32::MIN {
                w - 1
            } else {
                w
            }
        } else {
            w
        }
    }
}

/// Gives one update of feedback to all shared clauses for one output.
pub fn update_shared(
    clauses: &mut Vec<SharedClause>,
    weights: &mut Vec<i32>,
    rng: &mut Rng,
    g: &Geometry,
    r: &Rules,
    dig_inv: &[u8],
    dig_keep: &[u8],
    active: &[bool],
    target: bool,
    gate: u64,
    outs: &[bool],
    inp: &Inputs,
)
    requires
        g.wf(),
        shared_wf(old(clauses)@, g),
        old(weights)@.len() == old(clauses)@.len(),
        active@.len() == old(clauses)@.len(),
        outs@.len() == old(clauses)@.len(),
        inp.wf(g),
    ensures
        shared_wf(final(clauses)@, g),
        final(clauses)@.len() == old(clauses)@.len(),
        final(weights)@.len() == old(weights)@.len(),
        (SharedUpdate {
            clauses: shared_model(final(clauses)@),
            weights: final(weights)@,
            rng: final(rng)@,
        }) == shared_update_of(
            (SharedUpdate {
                clauses: shared_model(old(clauses)@),
                weights: old(weights)@,
                rng: old(rng)@,
            }),
            active@,
            target,
            gate,
            outs@,
            *r,
            dig_inv@,
            dig_keep@,
            inp.x(g),
            inp.act(g),
            g.half,
            g.max_state,
        ),
{
    let n: usize = clauses.len();
    let ghost m = shared_model(clauses@);
    let ghost w0 = weights@;
    let ghost x = inp.x(g);
    let ghost act = inp.act(g);
    let ghost want = shared_update_of(
        SharedUpdate { clauses: m, weights: w0, rng: rng@ },
        active@,
        target,
        gate,
        outs@,
        *r,
        dig_inv@,
        dig_keep@,
        x,
        act,
        g.half,
        g.max_state,
    );
    let inv_mask: Vec<u64> = bernoulli_mask(rng, dig_inv, g.words);
    let keep_mask: Vec<u64> = bernoulli_mask(rng, dig_keep, g.words);
    let inv_b: Vec<u8> = expand_bits_to_bytes(&inv_mask, g.n_literals);
    let keep_b: Vec<u8> = expand_bits_to_bytes(&keep_mask, g.n_literals);
    let ghost inv = bits_of(inv_mask@, g.n_literals as nat);
    let ghost keep = bits_of(keep_mask@, g.n_literals as nat);
    proof {
        lemma_flags(inv_b@, inv_mask@, g.n_literals as nat);
        lemma_flags(keep_b@, keep_mask@, g.n_literals as nat);
        lemma_flags(inp.lit_b@, inp.lit@, g.n_literals as nat);
        lemma_flags(inp.active_b@, inp.active@, g.n_literals as nat);
    }
    let mut j: usize = 0;
    while j < n
        invariant
            g.wf(),
            inp.wf(g),
            j <= n,
            n == clauses@.len(),
            n == weights@.len(),
            n == m.autos.len(),
            n == m.rngs.len(),
            n == w0.len(),
            n == active@.len(),
            n == outs@.len(),
            shared_wf(clauses@, g),
            forall|i: int|
                0 <= i < j ==> (#[trigger] clauses@[i]).auto@ == want.clauses.autos[i]
                    && clauses@[i].rng@ == want.clauses.rngs[i],
            forall|i: int| 0 <= i < j ==> #[trigger] weights@[i] == want.weights[i],
            forall|i: int|
                j <= i < n ==> (#[trigger] clauses@[i]).auto@ == m.autos[i] && clauses@[i].rng@
                    == m.rngs[i],
            forall|i: int| j <= i < n ==> #[trigger] weights@[i] == w0[i],
            forall|i: int|
                0 <= i < n ==> {
                    let u = shared_step(
                        unit_of(m, w0, i),
                        active@[i],
                        target,
                        gate,
                        outs@[i],
                        *r,
                        x,
                        act,
                        inv,
                        keep,
                        g.half,
                        g.max_state,
                    );
                    #[trigger] want.clauses.autos[i] == u.auto && want.clauses.rngs[i] == u.rng
                        && want.weights[i] == u.weight
                },
            x == inp.x(g),
            act == inp.act(g),
            flags(inp.lit_b@) == x,
            flags(inp.active_b@) == act,
            flags(inv_b@) == inv,
            flags(keep_b@) == keep,
            inv_b@.len() == g.n_literals,
            keep_b@.len() == g.n_literals,
            forall|l: int| 0 <= l < g.n_literals ==> #[trigger] inp.lit_b@[l] <= 1,
        decreases n - j,
    {
        proof {
            assert(want.clauses.autos[j as int] == want.clauses.autos[j as int]);
        }
        if active[j] {
            let w: i32 = weights[j];
            let c: &mut SharedClause = &mut clauses[j];
            let next: i32 = c.apply_one_clause_coalesced(
                w,
                g,
                r,
                target,
                gate,
                outs[j],
                inp.lit_b,
                &inv_b,
                &keep_b,
                inp.active_b,
            );
            if r.type_iii {
                c.auto.type_iii(
                    g,
                    inp.lit,
                    inp.active,
                    inp.active_b,
                    r.d_gate,
                    gate,
                    target,
                    &mut c.rng,
                );
            }
            weights.set(j, next);
        }
        proof {
            assert(clauses@[j as int].auto@ == want.clauses.autos[j as int]);
            assert(clauses@[j as int].rng@ == want.clauses.rngs[j as int]);
            assert(weights@[j as int] == want.weights[j as int]);
        }
        j = j + 1;
    }
    proof {
        assert(shared_model(clauses@).autos =~= want.clauses.autos);
        assert(shared_model(clauses@).rngs =~= want.clauses.rngs);
        assert(weights@ =~= want.weights);
    }
}

/// New shared clauses of a model seeded with `seed`.
pub open spec fn initial_shared(seed: u64, n_clauses: nat, n: nat, half: u8) -> SharedModel {
    SharedModel {
        autos: Seq::new(
            n_clauses,
            |j: int| fresh_state(rng_skip(rng_next(seed), (j * n) as nat), n, half),
        ),
        rngs: Seq::new(n_clauses, |j: int| clause_seed(seed, j)),
    }
}

/// New shared clauses, their counters drawn from `rng`.
pub fn fresh_shared(g: &Geometry, rng: &mut Rng, seed: u64, n_clauses: usize) -> (r: Vec<SharedClause>)
    requires
        g.wf(),
        old(rng)@ == rng_next(seed),
        n_clauses < usize::MAX,
    ensures
        r@.len() == n_clauses,
        shared_wf(r@, g),
        shared_model(r@) == initial_shared(seed, n_clauses as nat, g.n_literals as nat, g.half),
        final(rng)@ == rng_skip(rng_next(seed), (n_clauses * g.n_literals) as nat),
{
    let ghost s0 = rng_next(seed);
    let ghost n = g.n_literals as int;
    let mut r: Vec<SharedClause> = Vec::with_capacity(n_clauses);
    let mut j: usize = 0;
    proof {
        assert(0 * n == 0) by (nonlinear_arith);
    }
    while j < n_clauses
        invariant
            g.wf(),
            n == g.n_literals,
            s0 == rng_next(seed),
            j <= n_clauses < usize::MAX,
            r@.len() == j,
            shared_wf(r@, g),
            forall|k: int|
                0 <= k < j ==> (#[trigger] r@[k]).auto@ == fresh_state(
                    rng_skip(s0, (k * n) as nat),
                    n as nat,
                    g.half,
                ) && r@[k].rng@ == clause_seed(seed, k),
            rng@ == rng_skip(s0, (j * n) as nat),
        decreases n_clauses - j,
    {
        proof {
            assert((j + 1) * n == j * n + n && j * n >= 0) by (nonlinear_arith)
                requires
                    j >= 0,
                    n >= 0,
            ;
            lemma_skip_adds(s0, (j * n) as nat, n as nat);
        }
        let auto: Automata = Automata::fresh(g, rng);
        r.push(SharedClause { auto, rng: stream_rng(seed, j as u64) });
        j = j + 1;
    }
    proof {
        let want = initial_shared(seed, n_clauses as nat, g.n_literals as nat, g.half);
        assert(shared_model(r@).autos =~= want.autos);
        assert(shared_model(r@).rngs =~= want.rngs);
    }
    r
}

/// The first weight that is decided by a word drawn at stream position `s`.
pub open spec fn first_weight(s: u64) -> i32 {
    if rng_word(s) & 1 == 0 {
        1
    } else {
        -1i32
    }
}

/// The first weights of `n_outputs` outputs, drawn output by output.
pub open spec fn initial_weights(s: u64, n_outputs: nat, n_clauses: nat) -> Seq<Seq<i32>> {
    Seq::new(
        n_outputs,
        |o: int|
            Seq::new(n_clauses, |j: int| first_weight(rng_skip(s, (o * n_clauses + j) as nat))),
    )
}

/// The values of the weights of all outputs.
pub open spec fn weight_rows(w: Seq<Vec<i32>>) -> Seq<Seq<i32>> {
    Seq::new(w.len(), |o: int| w[o]@)
}

/// Draws the first weights of all outputs, each 1 or -1.
pub fn fresh_weights(rng: &mut Rng, n_outputs: usize, n_clauses: usize) -> (r: Vec<Vec<i32>>)
    ensures
        weight_rows(r@) == initial_weights(old(rng)@, n_outputs as nat, n_clauses as nat),
        r@.len() == n_outputs,
        forall|o: int| 0 <= o < n_outputs ==> (#[trigger] r@[o])@.len() == n_clauses,
{
    let ghost s = rng@;
    let mut r: Vec<Vec<i32>> = Vec::with_capacity(n_outputs);
    let mut o: usize = 0;
    proof {
        assert(0 * n_clauses == 0) by (nonlinear_arith);
    }
    while o < n_outputs
        invariant
            o <= n_outputs,
            r@.len() == o,
            rng@ == rng_skip(s, (o * n_clauses) as nat),
            forall|k: int|
                0 <= k < o ==> (#[trigger] r@[k])@ == Seq::new(
                    n_clauses as nat,
                    |j: int| first_weight(rng_skip(s, (k * n_clauses + j) as nat)),
                ),
        decreases n_outputs - o,
    {
        let ghost base = (o * n_clauses) as int;
        proof {
            assert(base >= 0) by (nonlinear_arith)
                requires
                    base == o * n_clauses,
            ;
            assert((o + 1) * n_clauses == base + n_clauses) by (nonlinear_arith)
                requires
                    base == o * n_clauses,
            ;
        }
        let mut row: Vec<i32> = Vec::with_capacity(n_clauses);
        let mut j: usize = 0;
        while j < n_clauses
            invariant
                j <= n_clauses,
                base >= 0,
                base == o * n_clauses,
                row@.len() == j,
                rng@ == rng_skip(s, (base + j) as nat),
                forall|k: int|
                    0 <= k < j ==> #[trigger] row@[k] == first_weight(rng_skip(s, (base + k) as nat)),
            decreases n_clauses - j,
        {
            let word: u64 = rng.next_u64();
            row.push(if word & 1 == 0 {
                1i32
            } else {
                -1i32
            });
            j = j + 1;
        }
        proof {
            assert(row@ =~= Seq::new(
                n_clauses as nat,
                |k: int| first_weight(rng_skip(s, (o * n_clauses + k) as nat)),
            ));
        }
        r.push(row);
        o = o + 1;
    }
    proof {
        assert(weight_rows(r@) =~= initial_weights(s, n_outputs as nat, n_clauses as nat));
    }
    r
}

/// How many counters of the first `n` shared clauses are `v`.
pub open spec fn shared_count_at(m: SharedModel, v: u8, n: nat) -> nat
    decreases n,
{
    if n == 0 {
        0
    } else {
        shared_count_at(m, v, (n - 1) as nat) + count_at(m.autos[n - 1].ta, v, m.autos[n - 1].ta.len())
    }
}

/// How many counters of the shared clauses are `v`.
pub fn count_shared(clauses: &Vec<SharedClause>, g: &Geometry, v: u8) -> (r: usize)
    requires
        shared_wf(clauses@, g),
        clauses@.len() * g.n_literals <= usize::MAX,
    ensures
        r == shared_count_at(shared_model(clauses@), v, clauses@.len()),
{
    let ghost m = shared_model(clauses@);
    let mut r: usize = 0;
    let mut j: usize = 0;
    proof {
        assert(0 * g.n_literals == 0) by (nonlinear_arith);
    }
    while j < clauses.len()
        invariant
            j <= clauses@.len(),
            shared_wf(clauses@, g),
            clauses@.len() * g.n_literals <= usize::MAX,
            m == shared_model(clauses@),
            r == shared_count_at(m, v, j as nat),
            r <= j * g.n_literals,
        decreases clauses@.len() - j,
    {
        let k: usize = clauses[j].auto.count_state(v);
        proof {
            let n = g.n_literals as int;
            let len = clauses@.len() as int;
            assert((j + 1) * n == j * n + n) by (nonlinear_arith);
            assert((j + 1) * n <= len * n) by (nonlinear_arith)
                requires
                    j + 1 <= len,
                    n >= 0,
            ;
            assert(m.autos[j as int].ta.len() == n);
        }
        r = r + k;
        j = j + 1;
    }
    r
}

} // verus!
