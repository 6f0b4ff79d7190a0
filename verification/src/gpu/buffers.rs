//! Images of a machine in device memory, and machines from such images.
use crate::clause_bank::automata::Automata;
use crate::clause_bank::feedback::{
    clause_models, weights_of, Clause, ClassBank, ClassModel, ClauseModel,
};
use crate::dyadic::{is_positive, weighted_bound, weighted_gate, Dyadic};
use crate::models::classification::vanilla_classifier::{
    class_models, lemma_clause_counts, MachineConfig, MachineState, TsetlinMachine,
};
use crate::rng::Rng;
use crate::serial::{le_of, wrapped};
use vstd::arithmetic::power2::pow2;
use vstd::prelude::*;

verus! {

/// The dimensions of a machine as a device sees them.
#[derive(Clone, Copy, Debug)]
pub struct Dims {
    pub n_classes: usize,
    pub cps: usize,
    pub n_literals: usize,
    /// Words of 32 bits per packed array.
    pub w32: usize,
    pub n_clauses: usize,
    pub threshold: i32,
}

impl Dims {
    /// The dimensions of a machine.
    pub fn from(host: &TsetlinMachine) -> (r: Self)
        requires
            host.wf(),
        ensures
            r.n_classes == host.config.n_classes,
            r.cps == host.config.clauses_per_class,
            r.n_literals == host.config.train.geom.n_literals,
            r.w32 == 2 * host.config.train.geom.words,
            r.n_clauses == host.config.n_classes * host.config.clauses_per_class,
            r.threshold == host.config.train.threshold,
    {
        proof {
            lemma_clause_counts(
                host.config.n_classes as int,
                host.config.clauses_per_class as int,
                host.config.train.geom.n_literals as int,
            );
        }
        Dims {
            n_classes: host.config.n_classes,
            cps: host.config.clauses_per_class,
            n_literals: host.config.train.geom.n_literals,
            w32: host.config.train.geom.words * 2,
            n_clauses: host.config.n_classes * host.config.clauses_per_class,
            threshold: host.config.train.threshold,
        }
    }
}

/// The settings of a machine as a device sees them. Sizes keep their low 32 bits.
#[derive(Clone, Copy, Debug)]
pub struct GpuConfig {
    pub n_classes: u32,
    pub cps: u32,
    pub n_literals: u32,
    pub w32: u32,
    pub threshold: u32,
    pub half: u32,
    pub max_state: u32,
    pub boost: u32,
    pub max_inc: u32,
    pub dig_inv: u32,
    pub dig_keep: u32,
    pub has_lit_active: u32,
    pub n_replicas: u32,
}

/// The number whose binary digit `i` is set where `digits[i]` is not 0, for the first `n`.
pub open spec fn packed_digits(digits: Seq<u8>, n: nat) -> int
    decreases n,
{
    if n == 0 {
        0
    } else {
        packed_digits(digits, (n - 1) as nat) + if digits[n - 1] != 0 {
            pow2((n - 1) as nat) as int
        } else {
            0
        }
    }
}

/// Packs digits into one word.
pub fn pack_digits(digits: &[u8]) -> (r: u32)
    requires
        digits@.len() <= 32,
    ensures
        r == packed_digits(digits@, digits@.len()),
{
    let mut m: u64 = 0;
    let mut place: u64 = 1;
    let mut i: usize = 0;
    proof {
        vstd::arithmetic::power2::lemma2_to64();
    }
    while i < digits.len()
        invariant
            i <= digits@.len() <= 32,
            place == pow2(i as nat),
            place <= 0x1_0000_0000,
            m == packed_digits(digits@, i as nat),
            m < place,
        decreases digits@.len() - i,
    {
        proof {
            crate::dyadic::lemma_pow2_step(i as nat);
            vstd::arithmetic::power2::lemma2_to64();
            if i + 1 < 32 {
                vstd::arithmetic::power2::lemma_pow2_strictly_increases((i + 1) as nat, 32);
            }
        }
        if digits[i] != 0 {
            m = m + place;
        }
        place = place * 2;
        i = i + 1;
    }
    m as u32
}

/// 1 for true, 0 for false.
pub open spec fn flag(b: bool) -> u32 {
    if b {
        1
    } else {
        0
    }
}

impl GpuConfig {
    /// The settings of a machine.
    pub fn build(host: &TsetlinMachine, dims: &Dims, has_lit_active: bool, n_replicas: u32) -> (r: Self)
        requires
            host.wf(),
        ensures
            r.n_classes == dims.n_classes as u32,
            r.cps == dims.cps as u32,
            r.n_literals == dims.n_literals as u32,
            r.w32 == dims.w32 as u32,
            r.threshold == dims.threshold as u32,
            r.half == host.config.train.geom.half,
            r.max_state == host.config.train.geom.max_state,
            r.boost == flag(host.config.train.rules.boost),
            r.max_inc == if host.config.train.rules.max_included == usize::MAX {
                0xFFFF_FFFFu32
            } else {
                host.config.train.rules.max_included as u32
            },
            r.dig_inv == packed_digits(
                host.config.train.dig_inv@,
                host.config.train.dig_inv@.len(),
            ),
            r.dig_keep == packed_digits(
                host.config.train.dig_keep@,
                host.config.train.dig_keep@.len(),
            ),
            r.has_lit_active == flag(has_lit_active),
            r.n_replicas == n_replicas,
    {
        let max: usize = host.config.train.rules.max_included;
        GpuConfig {
            n_classes: dims.n_classes as u32,
            cps: dims.cps as u32,
            n_literals: dims.n_literals as u32,
            w32: dims.w32 as u32,
            threshold: dims.threshold as u32,
            half: host.config.train.geom.half as u32,
            max_state: host.config.train.geom.max_state as u32,
            boost: if host.config.train.rules.boost {
                1
            } else {
                0
            },
            max_inc: if max == usize::MAX {
                0xFFFF_FFFFu32
            } else {
                max as u32
            },
            dig_inv: pack_digits(&host.config.train.dig_inv),
            dig_keep: pack_digits(&host.config.train.dig_keep),
            has_lit_active: if has_lit_active {
                1
            } else {
                0
            },
            n_replicas,
        }
    }

    /// The settings as words, in the order in which a device reads them, filled up to sixteen.
    pub open spec fn words_of(&self) -> Seq<u32> {
        seq![
            self.n_classes,
            self.cps,
            self.n_literals,
            self.w32,
            self.threshold,
            self.half,
            self.max_state,
            self.boost,
            self.max_inc,
            self.dig_inv,
            self.dig_keep,
            self.has_lit_active,
            self.n_replicas,
            0u32,
            0u32,
            0u32,
        ]
    }

    /// The settings as words.
    pub fn to_words(&self) -> (r: Vec<u32>)
        ensures
            r@ == self.words_of(),
    {
        let r: Vec<u32> = vec![
            self.n_classes,
            self.cps,
            self.n_literals,
            self.w32,
            self.threshold,
            self.half,
            self.max_state,
            self.boost,
            self.max_inc,
            self.dig_inv,
            self.dig_keep,
            self.has_lit_active,
            self.n_replicas,
            0u32,
            0u32,
            0u32,
        ];
        proof {
            assert(r@ =~= self.words_of());
        }
        r
    }
}

/// The low and the high half of a number.
pub open spec fn halves(v: u64) -> Seq<u32> {
    seq![(v as int % 0x1_0000_0000) as u32, (v as int / 0x1_0000_0000) as u32]
}

/// The halves of the first `n` numbers, one after the other.
pub open spec fn halves_of(s: Seq<u64>, n: nat) -> Seq<u32>
    decreases n,
{
    if n == 0 {
        seq![]
    } else {
        halves_of(s, (n - 1) as nat) + halves(s[n - 1])
    }
}

/// Appends the halves of a number.
fn push_halves(v: &mut Vec<u32>, x: u64)
    ensures
        final(v)@ == old(v)@ + halves(x),
{
    let ghost before = v@;
    v.push((x % 0x1_0000_0000) as u32);
    v.push((x / 0x1_0000_0000) as u32);
    proof {
        assert(v@ =~= before + halves(x));
    }
}

/// The bounds on a drawn fraction for feedback to a class with weight `w`, for every vote sum from
/// minus to plus the threshold.
pub open spec fn bounds_of(threshold: int, w: Dyadic, target: bool) -> Seq<u64> {
    Seq::new(
        (2 * threshold + 1) as nat,
        |i: int|
            weighted_bound(
                if target {
                    2 * threshold - i
                } else {
                    i
                },
                2 * threshold,
                w,
            ) as u64,
    )
}

/// The bounds for the first `n` classes.
pub open spec fn bound_rows(threshold: int, ws: Seq<Dyadic>, target: bool, n: nat) -> Seq<u64>
    decreases n,
{
    if n == 0 {
        seq![]
    } else {
        bound_rows(threshold, ws, target, (n - 1) as nat) + bounds_of(threshold, ws[n - 1], target)
    }
}

/// The bounds on a drawn fraction for feedback: those for negatives first, and then those for
/// targets, class by class, for every vote sum from minus to plus the threshold.
pub fn build_prob_table(threshold: i32, class_weights: &[Dyadic]) -> (r: Vec<u64>)
    requires
        threshold >= 1,
        2 * threshold + 1 <= i32::MAX,
        forall|c: int| 0 <= c < class_weights@.len() ==> (#[trigger] class_weights@[c]).wf(),
    ensures
        r@ == bound_rows(threshold as int, class_weights@, false, class_weights@.len()) + bound_rows(
            threshold as int,
            class_weights@,
            true,
            class_weights@.len(),
        ),
{
    let mut table: Vec<u64> = Vec::new();
    push_bounds(&mut table, threshold, class_weights, false);
    let ghost first = table@;
    push_bounds(&mut table, threshold, class_weights, true);
    proof {
        let rows = bound_rows(threshold as int, class_weights@, false, class_weights@.len());
        assert(first =~= rows);
    }
    table
}

/// Appends the bounds of all classes.
fn push_bounds(table: &mut Vec<u64>, threshold: i32, class_weights: &[Dyadic], target: bool)
    requires
        threshold >= 1,
        2 * threshold + 1 <= i32::MAX,
        forall|c: int| 0 <= c < class_weights@.len() ==> (#[trigger] class_weights@[c]).wf(),
    ensures
        final(table)@ == old(table)@ + bound_rows(
            threshold as int,
            class_weights@,
            target,
            class_weights@.len(),
        ),
{
    let ghost start = table@;
    let t: i64 = threshold as i64;
    let span: u64 = (2 * t) as u64;
    let mut c: usize = 0;
    proof {
        assert(table@ =~= start + bound_rows(threshold as int, class_weights@, target, 0));
    }
    while c < class_weights.len()
        invariant
            threshold >= 1,
            2 * threshold + 1 <= i32::MAX,
            span == 2 * threshold,
            forall|c: int| 0 <= c < class_weights@.len() ==> (#[trigger] class_weights@[c]).wf(),
            c <= class_weights@.len(),
            table@ == start + bound_rows(threshold as int, class_weights@, target, c as nat),
        decreases class_weights@.len() - c,
    {
        let w: Dyadic = class_weights[c];
        let ghost before = table@;
        let ghost row = bounds_of(threshold as int, w, target);
        let mut i: u64 = 0;
        proof {
            assert(table@ =~= before + row.take(0));
        }
        while i <= span
            invariant
                threshold >= 1,
                span == 2 * threshold,
                span < 0x8000_0000,
                w.wf(),
                i <= span + 1,
                row == bounds_of(threshold as int, w, target),
                table@ == before + row.take(i as int),
            decreases span + 1 - i,
        {
            let u: u64 = if target {
                span - i
            } else {
                i
            };
            table.push(weighted_gate(u, span, w));
            proof {
                assert(row.take(i + 1) =~= row.take(i as int).push(table@[table@.len() - 1]));
                assert(table@ =~= before + row.take(i + 1));
            }
            i = i + 1;
        }
        proof {
            assert(row.take(row.len() as int) =~= row);
            assert(table@ =~= start + bound_rows(
                threshold as int,
                class_weights@,
                target,
                (c + 1) as nat,
            ));
        }
        c = c + 1;
    }
}

impl MachineConfig {
    /// The bound that the table holds for a class and a vote sum is the one that training uses.
    pub proof fn lemma_table_is_gate(&self, c: int, v: int, target: bool)
        requires
            self.wf(),
            0 <= c < self.n_classes,
            -self.train.threshold <= v <= self.train.threshold,
        ensures
            bounds_of(self.train.threshold as int, self.class_weights@[c], target)[v
                + self.train.threshold] == self.gate_of(c, v, target),
    {
    }
}

/// The counters of the first `n` clauses, one after the other.
pub open spec fn counters_of(cs: Seq<ClauseModel>, n: nat) -> Seq<u8>
    decreases n,
{
    if n == 0 {
        seq![]
    } else {
        counters_of(cs, (n - 1) as nat) + cs[n - 1].auto.ta
    }
}

/// The counters of the first `n` classes.
pub open spec fn machine_counters(ms: Seq<ClassModel>, n: nat) -> Seq<u8>
    decreases n,
{
    if n == 0 {
        seq![]
    } else {
        machine_counters(ms, (n - 1) as nat) + counters_of(ms[n - 1].clauses, ms[n - 1].clauses.len())
    }
}

/// The weights of the first `n` classes.
pub open spec fn machine_weights(ms: Seq<ClassModel>, n: nat) -> Seq<i32>
    decreases n,
{
    if n == 0 {
        seq![]
    } else {
        machine_weights(ms, (n - 1) as nat) + weights_of(ms[n - 1].clauses)
    }
}

/// The streams of clauses.
pub open spec fn streams_of(cs: Seq<ClauseModel>) -> Seq<u64> {
    Seq::new(cs.len(), |j: int| cs[j].rng)
}

/// The streams of the clauses of the first `n` classes.
pub open spec fn machine_streams(ms: Seq<ClassModel>, n: nat) -> Seq<u64>
    decreases n,
{
    if n == 0 {
        seq![]
    } else {
        machine_streams(ms, (n - 1) as nat) + streams_of(ms[n - 1].clauses)
    }
}

/// The streams of classes.
pub open spec fn class_streams(ms: Seq<ClassModel>) -> Seq<u64> {
    Seq::new(ms.len(), |c: int| ms[c].rng)
}

/// Bytes as words.
pub open spec fn widened(s: Seq<u8>) -> Seq<u32> {
    Seq::new(s.len(), |i: int| s[i] as u32)
}

/// Counters as words.
pub fn ta_to_u32(ta: &[u8]) -> (r: Vec<u32>)
    ensures
        r@ == widened(ta@),
{
    let mut r: Vec<u32> = Vec::with_capacity(ta.len());
    let mut i: usize = 0;
    while i < ta.len()
        invariant
            i <= ta@.len(),
            r@.len() == i,
            forall|k: int| 0 <= k < i ==> #[trigger] r@[k] == ta@[k],
        decreases ta@.len() - i,
    {
        r.push(ta[i] as u32);
        i = i + 1;
    }
    proof {
        assert(r@ =~= widened(ta@));
    }
    r
}

/// The positions of generators.
pub open spec fn positions_of(rngs: Seq<Rng>) -> Seq<u64> {
    Seq::new(rngs.len(), |i: int| rngs[i]@)
}

/// The positions of generators as pairs of words, the low half first.
pub fn rngs_to_u32(rngs: &[Rng]) -> (r: Vec<u32>)
    ensures
        r@ == halves_of(positions_of(rngs@), rngs@.len()),
{
    let ghost ps = positions_of(rngs@);
    let mut r: Vec<u32> = Vec::new();
    let mut i: usize = 0;
    while i < rngs.len()
        invariant
            i <= rngs@.len(),
            ps == positions_of(rngs@),
            r@ == halves_of(ps, i as nat),
        decreases rngs@.len() - i,
    {
        push_halves(&mut r, rngs[i].raw());
        i = i + 1;
    }
    r
}

/// What a device holds of a machine, as plain numbers.
pub struct DeviceImage {
    pub config: Vec<u32>,
    pub ta: Vec<u32>,
    pub include_words: Vec<u64>,
    pub weights: Vec<i32>,
    pub rngs: Vec<u32>,
    pub class_rngs: Vec<u32>,
    pub valid: Vec<u64>,
    pub prob_table: Vec<u32>,
    pub ones: Vec<u32>,
}

/// The packed included literals of the first `n` clauses.
pub open spec fn included_words(cs: Seq<Clause>, n: nat) -> Seq<u64>
    decreases n,
{
    if n == 0 {
        seq![]
    } else {
        included_words(cs, (n - 1) as nat) + cs[n - 1].auto.inc@
    }
}

/// The packed included literals of the first `n` classes.
pub open spec fn machine_included(bs: Seq<ClassBank>, n: nat) -> Seq<u64>
    decreases n,
{
    if n == 0 {
        seq![]
    } else {
        machine_included(bs, (n - 1) as nat) + included_words(
            bs[n - 1].clauses@,
            bs[n - 1].clauses@.len(),
        )
    }
}

/// Appends a copy of `more`.
fn extend_words(v: &mut Vec<u64>, more: &[u64])
    ensures
        final(v)@ == old(v)@ + more@,
{
    let ghost start = v@;
    let mut i: usize = 0;
    while i < more.len()
        invariant
            i <= more@.len(),
            v@ == start + more@.take(i as int),
        decreases more@.len() - i,
    {
        v.push(more[i]);
        proof {
            assert(more@.take(i + 1) =~= more@.take(i as int).push(more@[i as int]));
            assert(v@ =~= start + more@.take(i + 1));
        }
        i = i + 1;
    }
    proof {
        assert(more@.take(more@.len() as int) =~= more@);
    }
}

/// Appends a copy of `more`.
fn extend_bytes(v: &mut Vec<u8>, more: &[u8])
    ensures
        final(v)@ == old(v)@ + more@,
{
    let ghost start = v@;
    let mut i: usize = 0;
    while i < more.len()
        invariant
            i <= more@.len(),
            v@ == start + more@.take(i as int),
        decreases more@.len() - i,
    {
        v.push(more[i]);
        proof {
            assert(more@.take(i + 1) =~= more@.take(i as int).push(more@[i as int]));
            assert(v@ =~= start + more@.take(i + 1));
        }
        i = i + 1;
    }
    proof {
        assert(more@.take(more@.len() as int) =~= more@);
    }
}

impl ClassBank {
    /// Appends the counters, included literals, weights and streams of the clauses.
    fn image(
        &self,
        ta: &mut Vec<u8>,
        inc: &mut Vec<u64>,
        weights: &mut Vec<i32>,
        rngs: &mut Vec<Rng>,
    )
        ensures
            final(ta)@ == old(ta)@ + counters_of(self@.clauses, self@.clauses.len()),
            final(inc)@ == old(inc)@ + included_words(self.clauses@, self.clauses@.len()),
            final(weights)@ == old(weights)@ + weights_of(self@.clauses),
            positions_of(final(rngs)@) == positions_of(old(rngs)@) + streams_of(self@.clauses),
    {
        let ghost ta0 = ta@;
        let ghost inc0 = inc@;
        let ghost w0 = weights@;
        let ghost r0 = positions_of(rngs@);
        let ghost m = self@.clauses;
        let mut j: usize = 0;
        proof {
            assert(ta@ =~= ta0 + counters_of(m, 0));
            assert(inc@ =~= inc0 + included_words(self.clauses@, 0));
            assert(weights@ =~= w0 + weights_of(m).take(0));
            assert(positions_of(rngs@) =~= r0 + streams_of(m).take(0));
        }
        while j < self.clauses.len()
            invariant
                j <= self.clauses@.len(),
                m == self@.clauses,
                ta@ == ta0 + counters_of(m, j as nat),
                inc@ == inc0 + included_words(self.clauses@, j as nat),
                weights@ == w0 + weights_of(m).take(j as int),
                positions_of(rngs@) == r0 + streams_of(m).take(j as int),
            decreases self.clauses@.len() - j,
        {
            let c: &Clause = &self.clauses[j];
            let ghost r1 = positions_of(rngs@);
            extend_bytes(ta, &c.auto.ta);
            extend_words(inc, &c.auto.inc);
            weights.push(c.weight);
            rngs.push(c.rng);
            proof {
                assert(m[j as int] == c@);
                assert(ta@ =~= ta0 + counters_of(m, (j + 1) as nat));
                assert(inc@ =~= inc0 + included_words(self.clauses@, (j + 1) as nat));
                assert(weights_of(m).take(j + 1) =~= weights_of(m).take(j as int).push(c.weight));
                assert(weights@ =~= w0 + weights_of(m).take(j + 1));
                assert(streams_of(m).take(j + 1) =~= streams_of(m).take(j as int).push(c.rng@));
                assert(positions_of(rngs@) =~= r1.push(c.rng@));
                assert(positions_of(rngs@) =~= r0 + streams_of(m).take(j + 1));
            }
            j = j + 1;
        }
        proof {
            assert(weights_of(m).take(m.len() as int) =~= weights_of(m));
            assert(streams_of(m).take(m.len() as int) =~= streams_of(m));
        }
    }
}

impl TsetlinMachine {
    /// Why a device cannot hold the machine, if it cannot.
    pub open spec fn obstacle(&self, max_binding: u64) -> Option<GpuObstacle> {
        let n_clauses = self.config.n_classes * self.config.clauses_per_class;
        let ta = n_clauses * self.config.train.geom.n_literals * 4;
        let inc = n_clauses * (2 * self.config.train.geom.words) * 4;
        if self.config.train.rules.type_iii {
            Some(GpuObstacle::TypeIii)
        } else if is_positive(self.config.train.rules.drop) {
            Some(GpuObstacle::ClauseDrop)
        } else if ta > max_binding {
            Some(GpuObstacle::CountersTooLarge { needed: ta as u64, max: max_binding })
        } else if inc > max_binding {
            Some(GpuObstacle::IncludedTooLarge { needed: inc as u64, max: max_binding })
        } else {
            None
        }
    }

    /// Why a device whose bindings hold at most `max_binding` bytes cannot hold the machine, if it
    /// cannot.
    pub fn gpu_obstacle(&self, max_binding: u64) -> (r: Option<GpuObstacle>)
        requires
            self.wf(),
            self.config.n_classes * self.config.clauses_per_class
                * self.config.train.geom.n_literals * 4 <= usize::MAX,
            self.config.n_classes * self.config.clauses_per_class * (2
                * self.config.train.geom.words) * 4 <= usize::MAX,
        ensures
            r == self.obstacle(max_binding),
    {
        if self.config.train.rules.type_iii {
            return Some(GpuObstacle::TypeIii);
        }
        if self.config.train.rules.drop.positive() {
            return Some(GpuObstacle::ClauseDrop);
        }
        let dims: Dims = Dims::from(self);
        proof {
            let n = dims.n_clauses as int;
            assert(n * dims.n_literals >= 0) by (nonlinear_arith)
                requires
                    n >= 0,
                    dims.n_literals >= 0,
            ;
            assert(n * dims.w32 >= 0) by (nonlinear_arith)
                requires
                    n >= 0,
                    dims.w32 >= 0,
            ;
        }
        let ta: u64 = (dims.n_clauses * dims.n_literals * 4) as u64;
        let inc: u64 = (dims.n_clauses * dims.w32 * 4) as u64;
        if ta > max_binding {
            return Some(GpuObstacle::CountersTooLarge { needed: ta, max: max_binding });
        }
        if inc > max_binding {
            return Some(GpuObstacle::IncludedTooLarge { needed: inc, max: max_binding });
        }
        None
    }

    /// Whether the machine goes to a device: a machine that is too large for it stays where it is,
    /// and only one that uses what a device does not offer is refused.
    pub open spec fn placement(&self, max_binding: u64) -> Result<bool, GpuObstacle> {
        match self.obstacle(max_binding) {
            Some(GpuObstacle::TypeIii) => Err(GpuObstacle::TypeIii),
            Some(GpuObstacle::ClauseDrop) => Err(GpuObstacle::ClauseDrop),
            Some(_) => Ok(false),
            None => Ok(true),
        }
    }

    /// Decides whether the machine goes to a device whose bindings hold at most `max_binding` bytes.
    pub fn goes_to_device(&self, max_binding: u64) -> (r: Result<bool, GpuObstacle>)
        requires
            self.wf(),
            self.config.n_classes * self.config.clauses_per_class
                * self.config.train.geom.n_literals * 4 <= usize::MAX,
            self.config.n_classes * self.config.clauses_per_class * (2
                * self.config.train.geom.words) * 4 <= usize::MAX,
        ensures
            r == self.placement(max_binding),
    {
        match self.gpu_obstacle(max_binding) {
            Some(GpuObstacle::TypeIii) => Err(GpuObstacle::TypeIii),
            Some(GpuObstacle::ClauseDrop) => Err(GpuObstacle::ClauseDrop),
            Some(_) => Ok(false),
            None => Ok(true),
        }
    }

    /// The image of the machine in device memory.
    pub fn device_image(&self, has_lit_active: bool, n_replicas: u32) -> (r: DeviceImage)
        requires
            self.wf(),
            2 * self.config.train.threshold + 1 <= i32::MAX,
        ensures
            r.ta@ == widened(machine_counters(self@.classes, self@.classes.len())),
            r.include_words@ == machine_included(
                self.state.classes@,
                self.state.classes@.len(),
            ),
            r.weights@ == machine_weights(self@.classes, self@.classes.len()),
            r.rngs@ == halves_of(
                machine_streams(self@.classes, self@.classes.len()),
                machine_streams(self@.classes, self@.classes.len()).len(),
            ),
            r.class_rngs@ == halves_of(class_streams(self@.classes), self@.classes.len()),
            r.valid@ == self.config.train.geom.valid@,
            ({
                let t = self.config.train.threshold as int;
                let ws = self.config.class_weights@;
                let table = bound_rows(t, ws, false, ws.len()) + bound_rows(t, ws, true, ws.len());
                r.prob_table@ == halves_of(table, table.len())
            }),
            r.ones@ == Seq::new((2 * self.config.train.geom.words) as nat, |i: int| 0xFFFF_FFFFu32),
            exists|cfg: GpuConfig| r.config@ == #[trigger] cfg.words_of() && self.configures(
                cfg,
                has_lit_active,
                n_replicas,
            ),
    {
        let dims: Dims = Dims::from(self);
        let cfg: GpuConfig = GpuConfig::build(self, &dims, has_lit_active, n_replicas);
        let ghost ms = self@.classes;
        let mut ta: Vec<u8> = Vec::new();
        let mut inc: Vec<u64> = Vec::new();
        let mut weights: Vec<i32> = Vec::new();
        let mut rngs: Vec<Rng> = Vec::new();
        let mut class_rngs: Vec<Rng> = Vec::new();
        let mut c: usize = 0;
        proof {
            assert(positions_of(rngs@) =~= machine_streams(ms, 0));
            assert(positions_of(class_rngs@) =~= class_streams(ms).take(0));
        }
        while c < self.state.classes.len()
            invariant
                c <= self.state.classes@.len(),
                ms == class_models(self.state.classes@),
                ta@ == machine_counters(ms, c as nat),
                inc@ == machine_included(self.state.classes@, c as nat),
                weights@ == machine_weights(ms, c as nat),
                positions_of(rngs@) == machine_streams(ms, c as nat),
                positions_of(class_rngs@) == class_streams(ms).take(c as int),
            decreases self.state.classes@.len() - c,
        {
            let bank: &ClassBank = &self.state.classes[c];
            let ghost before = positions_of(class_rngs@);
            bank.image(&mut ta, &mut inc, &mut weights, &mut rngs);
            class_rngs.push(bank.rng);
            proof {
                assert(ms[c as int] == bank@);
                assert(positions_of(class_rngs@) =~= before.push(bank.rng@));
                assert(class_streams(ms).take(c + 1) =~= class_streams(ms).take(c as int).push(
                    bank.rng@,
                ));
            }
            c = c + 1;
        }
        proof {
            assert(class_streams(ms).take(ms.len() as int) =~= class_streams(ms));
        }
        let table: Vec<u64> = build_prob_table(
            self.config.train.threshold,
            &self.config.class_weights,
        );
        let mut prob_table: Vec<u32> = Vec::new();
        let mut k: usize = 0;
        while k < table.len()
            invariant
                k <= table@.len(),
                prob_table@ == halves_of(table@, k as nat),
            decreases table@.len() - k,
        {
            push_halves(&mut prob_table, table[k]);
            k = k + 1;
        }
        let mut valid: Vec<u64> = Vec::new();
        extend_words(&mut valid, &self.config.train.geom.valid);
        proof {
            assert(valid@ =~= self.config.train.geom.valid@);
        }
        let ones: Vec<u32> = vec![0xFFFF_FFFFu32; dims.w32];
        proof {
            assert(ones@ =~= Seq::new(
                (2 * self.config.train.geom.words) as nat,
                |i: int| 0xFFFF_FFFFu32,
            ));
            assert(self.configures(cfg, has_lit_active, n_replicas));
        }
        DeviceImage {
            config: cfg.to_words(),
            ta: ta_to_u32(&ta),
            include_words: inc,
            weights,
            rngs: rngs_to_u32(&rngs),
            class_rngs: rngs_to_u32(&class_rngs),
            valid,
            prob_table,
            ones,
        }
    }

    /// `cfg` holds the settings of the machine.
    pub open spec fn configures(&self, cfg: GpuConfig, has_lit_active: bool, n_replicas: u32) -> bool {
        let train = self.config.train;
        &&& cfg.n_classes == self.config.n_classes as u32
        &&& cfg.cps == self.config.clauses_per_class as u32
        &&& cfg.n_literals == train.geom.n_literals as u32
        &&& cfg.w32 == (2 * train.geom.words) as u32
        &&& cfg.threshold == train.threshold as u32
        &&& cfg.half == train.geom.half
        &&& cfg.max_state == train.geom.max_state
        &&& cfg.boost == flag(train.rules.boost)
        &&& cfg.max_inc == if train.rules.max_included == usize::MAX {
            0xFFFF_FFFFu32
        } else {
            train.rules.max_included as u32
        }
        &&& cfg.dig_inv == packed_digits(train.dig_inv@, train.dig_inv@.len())
        &&& cfg.dig_keep == packed_digits(train.dig_keep@, train.dig_keep@.len())
        &&& cfg.has_lit_active == flag(has_lit_active)
        &&& cfg.n_replicas == n_replicas
    }
}

/// Why a device cannot hold a machine.
#[derive(Clone, Copy, Debug, PartialEq, Eq, Structural)]
pub enum GpuObstacle {
    /// Type III feedback is on.
    TypeIii,
    /// Clauses are dropped from updates.
    ClauseDrop,
    /// The counters do not fit into one binding.
    CountersTooLarge { needed: u64, max: u64 },
    /// The included literals do not fit into one binding.
    IncludedTooLarge { needed: u64, max: u64 },
}

/// Words as signed numbers with the same bits.
///
/// Calls `bytemuck::cast_slice` from `u32` to `i32`, which reinterprets every element in place: the
/// two types have the same size and alignment, so the cast never panics and each result has the
/// bits of its argument.
#[verifier::external_body]
fn signed_words(v: &[u32]) -> (r: Vec<i32>)
    ensures
        r@.len() == v@.len(),
        forall|i: int| 0 <= i < v@.len() ==> wrapped(#[trigger] r@[i]) == v@[i],
{
    bytemuck::cast_slice::<u32, i32>(v).to_vec()
}

/// The bytes of a word in memory: lowest first on a little-endian machine, highest first on a
/// big-endian one.
pub open spec fn memory_bytes(v: int, n: nat, little: bool) -> Seq<u8> {
    if little {
        le_of(v, n)
    } else {
        le_of(v, n).reverse()
    }
}

/// The bytes of the first `k` words of `n` bytes in memory.
pub open spec fn memory_image(vs: Seq<int>, n: nat, k: nat, little: bool) -> Seq<u8>
    decreases k,
{
    if k == 0 {
        seq![]
    } else {
        memory_image(vs, n, (k - 1) as nat, little) + memory_bytes(vs[k - 1], n, little)
    }
}

/// `b` holds the words `vs` of `n` bytes each as they lie in the memory of this machine.
pub open spec fn lies_in_memory(b: Seq<u8>, vs: Seq<int>, n: nat) -> bool {
    exists|little: bool| b == #[trigger] memory_image(vs, n, vs.len(), little)
}

/// Words as numbers.
pub open spec fn words_as_ints(v: Seq<u32>) -> Seq<int> {
    Seq::new(v.len(), |i: int| v[i] as int)
}

/// Long words as numbers.
pub open spec fn longs_as_ints(v: Seq<u64>) -> Seq<int> {
    Seq::new(v.len(), |i: int| v[i] as int)
}

/// Signed words as numbers with the same bits.
pub open spec fn signed_as_ints(v: Seq<i32>) -> Seq<int> {
    Seq::new(v.len(), |i: int| wrapped(v[i]))
}

/// The bytes of words in memory.
///
/// Calls `bytemuck::cast_slice` from `u32` to `u8`, which reinterprets the slice in place: a byte
/// needs no alignment and divides every size, so the cast never panics, and it yields the bytes of
/// every word in the order of the machine.
#[verifier::external_body]
pub(crate) fn word_bytes(v: &[u32]) -> (r: Vec<u8>)
    ensures
        lies_in_memory(r@, words_as_ints(v@), 4),
{
    bytemuck::cast_slice::<u32, u8>(v).to_vec()
}

/// The bytes of long words in memory.
///
/// Calls `bytemuck::cast_slice` from `u64` to `u8`, which reinterprets the slice in place, never
/// panics, and yields the bytes of every word in the order of the machine.
#[verifier::external_body]
fn long_bytes(v: &[u64]) -> (r: Vec<u8>)
    ensures
        lies_in_memory(r@, longs_as_ints(v@), 8),
{
    bytemuck::cast_slice::<u64, u8>(v).to_vec()
}

/// The bytes of signed words in memory.
///
/// Calls `bytemuck::cast_slice` from `i32` to `u8`, which reinterprets the slice in place, never
/// panics, and yields the bytes of every word in the order of the machine.
#[verifier::external_body]
fn signed_bytes(v: &[i32]) -> (r: Vec<u8>)
    ensures
        lies_in_memory(r@, signed_as_ints(v@), 4),
{
    bytemuck::cast_slice::<i32, u8>(v).to_vec()
}

/// The contents of the buffers that hold a machine on a device.
pub struct DeviceBytes {
    pub config: Vec<u8>,
    pub ta: Vec<u8>,
    pub include_words: Vec<u8>,
    pub weights: Vec<u8>,
    pub rngs: Vec<u8>,
    pub class_rngs: Vec<u8>,
    pub valid: Vec<u8>,
    pub prob_table: Vec<u8>,
    pub ones: Vec<u8>,
}

impl DeviceImage {
    /// The image as the contents of buffers.
    pub fn to_bytes(&self) -> (r: DeviceBytes)
        ensures
            lies_in_memory(r.config@, words_as_ints(self.config@), 4),
            lies_in_memory(r.ta@, words_as_ints(self.ta@), 4),
            lies_in_memory(r.include_words@, longs_as_ints(self.include_words@), 8),
            lies_in_memory(r.weights@, signed_as_ints(self.weights@), 4),
            lies_in_memory(r.rngs@, words_as_ints(self.rngs@), 4),
            lies_in_memory(r.class_rngs@, words_as_ints(self.class_rngs@), 4),
            lies_in_memory(r.valid@, longs_as_ints(self.valid@), 8),
            lies_in_memory(r.prob_table@, words_as_ints(self.prob_table@), 4),
            lies_in_memory(r.ones@, words_as_ints(self.ones@), 4),
    {
        DeviceBytes {
            config: word_bytes(&self.config),
            ta: word_bytes(&self.ta),
            include_words: long_bytes(&self.include_words),
            weights: signed_bytes(&self.weights),
            rngs: word_bytes(&self.rngs),
            class_rngs: word_bytes(&self.class_rngs),
            valid: long_bytes(&self.valid),
            prob_table: word_bytes(&self.prob_table),
            ones: word_bytes(&self.ones),
        }
    }
}

impl DeviceBytes {
    /// The buffers hold a machine, and are told whether literals are left out.
    pub open spec fn mirror(&self, tm: &TsetlinMachine, has_lit_active: bool) -> bool {
        let ms = tm@.classes;
        let streams = machine_streams(ms, ms.len());
        let t = tm.config.train.threshold as int;
        let ws = tm.config.class_weights@;
        let table = bound_rows(t, ws, false, ws.len()) + bound_rows(t, ws, true, ws.len());
        let ones = Seq::new((2 * tm.config.train.geom.words) as nat, |i: int| 0xFFFF_FFFFu32);
        &&& exists|c: GpuConfig|
            lies_in_memory(self.config@, words_as_ints(#[trigger] c.words_of()), 4) && tm.configures(
                c,
                has_lit_active,
                1,
            )
        &&& lies_in_memory(self.ta@, words_as_ints(widened(machine_counters(ms, ms.len()))), 4)
        &&& lies_in_memory(
            self.include_words@,
            longs_as_ints(machine_included(tm.state.classes@, tm.state.classes@.len())),
            8,
        )
        &&& lies_in_memory(self.weights@, signed_as_ints(machine_weights(ms, ms.len())), 4)
        &&& lies_in_memory(self.rngs@, words_as_ints(halves_of(streams, streams.len())), 4)
        &&& lies_in_memory(
            self.class_rngs@,
            words_as_ints(halves_of(class_streams(ms), ms.len())),
            4,
        )
        &&& lies_in_memory(self.valid@, longs_as_ints(tm.config.train.geom.valid@), 8)
        &&& lies_in_memory(self.prob_table@, words_as_ints(halves_of(table, table.len())), 4)
        &&& lies_in_memory(self.ones@, words_as_ints(ones), 4)
    }
}

impl TsetlinMachine {
    /// The machine as the contents of buffers.
    pub fn device_bytes(&self, has_lit_active: bool) -> (r: DeviceBytes)
        requires
            self.wf(),
            2 * self.config.train.threshold + 1 <= i32::MAX,
        ensures
            r.mirror(self, has_lit_active),
    {
        let image: DeviceImage = self.device_image(has_lit_active, 1);
        image.to_bytes()
    }
}

/// The words that bytes in memory hold.
///
/// Calls `bytemuck::pod_collect_to_vec` from `u8` to `u32`, which copies the bytes into fresh words,
/// wherever they lie in memory. It fails on no slice; bytes that end within a word, which it would
/// fill up with zeros, are left out. The result is the words whose bytes, in the order of the
/// machine, these are.
#[verifier::external_body]
fn collect_words(b: &[u8]) -> (r: Vec<u32>)
    requires
        b@.len() % 4 == 0,
    ensures
        lies_in_memory(b@, words_as_ints(r@), 4),
{
    bytemuck::pod_collect_to_vec::<u8, u32>(b)
}

/// The words of a buffer that was read back, if it holds whole words.
pub fn read_words(b: &[u8]) -> (r: Option<Vec<u32>>)
    ensures
        (r is Some) == (b@.len() % 4 == 0),
        r matches Some(v) ==> lies_in_memory(b@, words_as_ints(v@), 4) && 4 * v@.len() == b@.len(),
{
    if b.len() % 4 != 0 {
        return None;
    }
    let v: Vec<u32> = collect_words(b);
    proof {
        let ints = words_as_ints(v@);
        let little = choose|little: bool| b@ == #[trigger] memory_image(ints, 4, ints.len(), little);
        lemma_image_len(ints, ints.len(), little);
    }
    Some(v)
}

/// An image of words has four bytes for each.
pub proof fn lemma_image_len(v: Seq<int>, k: nat, little: bool)
    ensures
        memory_image(v, 4, k, little).len() == 4 * k,
    decreases k,
{
    if k > 0 {
        lemma_image_len(v, (k - 1) as nat, little);
        reveal_with_fuel(le_of, 5);
    }
}

/// The packed literals of samples as the contents of a buffer.
pub fn literal_bytes(data: &[u64]) -> (r: Vec<u8>)
    ensures
        lies_in_memory(r@, longs_as_ints(data@), 8),
{
    long_bytes(data)
}

/// The number with the given halves.
pub open spec fn joined(lo: u32, hi: u32) -> int {
    lo + 0x1_0000_0000 * hi
}

/// The generator whose position has the halves at `2 * i` and behind it.
fn stream_at(words: &[u32], i: usize) -> (r: Rng)
    requires
        2 * i + 1 < words.len(),
    ensures
        r@ == joined(words@[2 * i], words@[2 * i + 1]),
{
    Rng::from_raw(words[2 * i] as u64 + 0x1_0000_0000 * words[2 * i + 1] as u64)
}

/// The halves of the position that `stream_at` reads.
proof fn lemma_joined_halves(lo: u32, hi: u32)
    ensures
        0 <= joined(lo, hi) <= u64::MAX,
        halves(joined(lo, hi) as u64) == seq![lo, hi],
{
    let v = joined(lo, hi);
    assert(v % 0x1_0000_0000 == lo && v / 0x1_0000_0000 == hi);
    assert(halves(v as u64) =~= seq![lo, hi]);
}

impl MachineState {
    /// What a device holds fits the machine: counters and weights are in range.
    pub open spec fn device_fits(cfg: &MachineConfig, ta: Seq<u32>, weights: Seq<u32>) -> bool {
        &&& forall|i: int| 0 <= i < ta.len() ==> #[trigger] ta[i] <= cfg.train.geom.max_state
        &&& forall|i: int|
            0 <= i < weights.len() ==> 1 <= #[trigger] weights[i] <= cfg.train.threshold
    }

    /// Everything but counters, weights and streams of clauses and classes is as before.
    pub open spec fn device_keeps(&self, other: &Self) -> bool {
        &&& self@.rng == other@.rng
        &&& self@.literal_rng == other@.literal_rng
        &&& forall|c: int, j: int|
            0 <= c < self.classes@.len() && 0 <= j < self.classes@[c].clauses@.len() ==> {
                let a = (#[trigger] self@.classes[c].clauses[j]).auto;
                let b = other@.classes[c].clauses[j].auto;
                a.ind == b.ind && a.cat == b.cat
            }
    }

    /// The machine with the counters, weights and streams that a device holds, if they are in
    /// range. Which literals are included follows from the counters.
    pub fn downloaded(
        &self,
        cfg: &MachineConfig,
        ta: &[u32],
        weights: &[u32],
        rngs: &[u32],
        class_rngs: &[u32],
    ) -> (r: Option<MachineState>)
        requires
            self.wf(cfg),
            ta@.len() == cfg.n_classes * cfg.clauses_per_class * cfg.train.geom.n_literals,
            weights@.len() == cfg.n_classes * cfg.clauses_per_class,
            rngs@.len() == 2 * (cfg.n_classes * cfg.clauses_per_class),
            class_rngs@.len() == 2 * cfg.n_classes,
        ensures
            (r is Some) == Self::device_fits(cfg, ta@, weights@),
            r matches Some(s) ==> {
                &&& s.wf(cfg)
                &&& s.device_keeps(self)
                &&& widened(machine_counters(s@.classes, s@.classes.len())) == ta@
                &&& signed_as_ints(machine_weights(s@.classes, s@.classes.len())) == words_as_ints(
                    weights@,
                )
                &&& halves_of(
                    machine_streams(s@.classes, s@.classes.len()),
                    weights@.len(),
                ) == rngs@
                &&& halves_of(class_streams(s@.classes), s@.classes.len()) == class_rngs@
            },
    {
        let n: usize = cfg.train.geom.n_literals;
        let per: usize = cfg.clauses_per_class;
        let signed: Vec<i32> = signed_words(weights);
        let ghost total = cfg.n_classes * cfg.clauses_per_class;
        proof {
            lemma_clause_counts(cfg.n_classes as int, per as int, n as int);
        }
        let mut classes: Vec<ClassBank> = Vec::with_capacity(cfg.n_classes);
        let mut at: usize = 0;
        let mut pos: usize = 0;
        let mut c: usize = 0;
        proof {
            assert(0 * per == 0) by (nonlinear_arith);
            assert(0 * n == 0) by (nonlinear_arith);
            assert(widened(machine_counters(class_models(classes@), 0)) =~= ta@.take(0));
            assert(machine_weights(class_models(classes@), 0) =~= signed@.take(0));
            assert(halves_of(machine_streams(class_models(classes@), 0), 0) =~= rngs@.take(0));
            assert(halves_of(class_streams(class_models(classes@)), 0) =~= class_rngs@.take(0));
        }
        while c < cfg.n_classes
            invariant
                self.wf(cfg),
                n == cfg.train.geom.n_literals,
                per == cfg.clauses_per_class,
                total == cfg.n_classes * per,
                ta.len() == total * n,
                weights.len() == total,
                signed@.len() == total,
                forall|i: int| 0 <= i < weights@.len() ==> wrapped(#[trigger] signed@[i]) == weights@[i],
                rngs@.len() == 2 * total,
                class_rngs@.len() == 2 * cfg.n_classes,
                c <= cfg.n_classes,
                at == c * per,
                pos == at * n,
                classes@.len() == c,
                forall|k: int|
                    0 <= k < c ==> (#[trigger] classes@[k]).wf(
                        &cfg.train.geom,
                        1,
                        cfg.train.threshold,
                    ) && classes@[k].clauses@.len() == per,
                forall|k: int, j: int|
                    0 <= k < c && 0 <= j < per ==> {
                        let a = (#[trigger] classes@[k].clauses@[j]).auto;
                        let b = self.classes@[k].clauses@[j].auto;
                        a@.ind == b@.ind && a@.cat == b@.cat
                    },
                widened(machine_counters(class_models(classes@), c as nat)) == ta@.take(pos as int),
                machine_weights(class_models(classes@), c as nat) == signed@.take(at as int),
                machine_streams(class_models(classes@), c as nat).len() == at,
                halves_of(machine_streams(class_models(classes@), c as nat), at as nat)
                    == rngs@.take(2 * at),
                halves_of(class_streams(class_models(classes@)), c as nat) == class_rngs@.take(2 * c),
                forall|i: int| 0 <= i < pos ==> #[trigger] ta@[i] <= cfg.train.geom.max_state,
                forall|i: int| 0 <= i < at ==> 1 <= #[trigger] weights@[i] <= cfg.train.threshold,
            decreases cfg.n_classes - c,
        {
            let bank: &ClassBank = &self.classes[c];
            proof {
                assert(bank.wf(&cfg.train.geom, 1, cfg.train.threshold));
                lemma_class_place(cfg.n_classes as int, per as int, n as int, c as int);
            }
            let got: Option<ClassBank> = download_class(
                cfg,
                bank,
                ta,
                &signed,
                rngs,
                stream_at(class_rngs, c),
                at,
                pos,
            );
            match got {
                None => {
                    proof {
                        if Self::device_fits(cfg, ta@, weights@) {
                            assert forall|i: int| at <= i < at + per implies 1 <= #[trigger] signed@[i]
                                <= cfg.train.threshold by {
                                assert(wrapped(signed@[i]) == weights@[i]);
                            }
                        }
                    }
                    return None;
                },
                Some(next) => {
                    let ghost before = class_models(classes@);
                    let ghost added = next@;
                    classes.push(next);
                    proof {
                        let now = class_models(classes@);
                        assert(now =~= before.push(added));
                        lemma_flat_prefix(before, now, c as nat);
                        let k = (c + 1) as nat;
                        assert(widened(machine_counters(now, k)) =~= widened(
                            machine_counters(before, c as nat),
                        ) + widened(counters_of(added.clauses, added.clauses.len())));
                        assert(ta@.take(pos + per * n) =~= ta@.take(pos as int) + ta@.subrange(
                            pos as int,
                            pos + per * n,
                        ));
                        assert(signed@.take(at + per) =~= signed@.take(at as int) + signed@.subrange(
                            at as int,
                            at + per,
                        ));
                        lemma_halves_concat(
                            machine_streams(before, c as nat),
                            streams_of(added.clauses),
                        );
                        assert(rngs@.take(2 * (at + per)) =~= rngs@.take(2 * at) + rngs@.subrange(
                            2 * at,
                            2 * (at + per),
                        ));
                        lemma_joined_halves(class_rngs@[2 * c], class_rngs@[2 * c + 1]);
                        lemma_halves_prefix(class_streams(before), class_streams(now), c as nat);
                        assert(class_rngs@.take(2 * c + 2) =~= class_rngs@.take(2 * c) + seq![
                            class_rngs@[2 * c],
                            class_rngs@[2 * c + 1],
                        ]);
                        assert forall|i: int| at <= i < at + per implies 1 <= #[trigger] weights@[i]
                            <= cfg.train.threshold by {
                            assert(wrapped(signed@[i]) == weights@[i]);
                        }
                    }
                },
            }
            at = at + per;
            pos = pos + per * n;
            c = c + 1;
        }
        let r: MachineState = MachineState { classes, rng: self.rng, literal_rng: self.literal_rng };
        proof {
            assert(ta@.take(ta@.len() as int) =~= ta@);
            assert(signed@.take(total as int) =~= signed@);
            assert(rngs@.take(2 * total) =~= rngs@);
            assert(class_rngs@.take(2 * cfg.n_classes) =~= class_rngs@);
            assert(signed_as_ints(signed@) =~= words_as_ints(weights@));
            assert forall|k: int, j: int|
                0 <= k < r.classes@.len() && 0 <= j < r.classes@[k].clauses@.len() implies {
                let a = (#[trigger] r@.classes[k].clauses[j]).auto;
                let b = self@.classes[k].clauses[j].auto;
                a.ind == b.ind && a.cat == b.cat
            } by {
                let a = r.classes@[k].clauses@[j].auto;
                let b = self.classes@[k].clauses@[j].auto;
                assert(a@.ind == b@.ind && a@.cat == b@.cat);
            }
        }
        Some(r)
    }
}

/// Where the clauses of class `c` lie.
proof fn lemma_class_place(n_classes: int, per: int, n: int, c: int)
    requires
        0 <= c < n_classes,
        per >= 1,
        n >= 1,
    ensures
        (c + 1) * per == c * per + per,
        (c + 1) * per <= n_classes * per,
        0 <= c * per,
        (c * per + per) * n == c * per * n + per * n,
        (c * per + per) * n <= n_classes * per * n,
        0 <= c * per * n,
        0 <= per * n,
{
    assert((c + 1) * per == c * per + per) by (nonlinear_arith);
    assert((c + 1) * per <= n_classes * per) by (nonlinear_arith)
        requires
            c + 1 <= n_classes,
            per >= 1,
    ;
    assert(0 <= c * per) by (nonlinear_arith)
        requires
            c >= 0,
            per >= 1,
    ;
    let a = c * per;
    let t = n_classes * per;
    assert((a + per) * n == a * n + per * n) by (nonlinear_arith);
    assert((a + per) * n <= t * n) by (nonlinear_arith)
        requires
            a + per <= t,
            n >= 1,
    ;
    assert(0 <= a * n && 0 <= per * n) by (nonlinear_arith)
        requires
            a >= 0,
            per >= 1,
            n >= 1,
    ;
}

/// Classes that are not looked at change nothing.
proof fn lemma_flat_prefix(a: Seq<ClassModel>, b: Seq<ClassModel>, n: nat)
    requires
        n <= a.len(),
        n <= b.len(),
        forall|c: int| 0 <= c < n ==> #[trigger] a[c] == b[c],
    ensures
        machine_counters(a, n) == machine_counters(b, n),
        machine_weights(a, n) == machine_weights(b, n),
        machine_streams(a, n) == machine_streams(b, n),
    decreases n,
{
    if n > 0 {
        lemma_flat_prefix(a, b, (n - 1) as nat);
    }
}

/// Numbers that are not looked at change nothing.
proof fn lemma_halves_prefix(a: Seq<u64>, b: Seq<u64>, n: nat)
    requires
        n <= a.len(),
        n <= b.len(),
        forall|i: int| 0 <= i < n ==> #[trigger] a[i] == b[i],
    ensures
        halves_of(a, n) == halves_of(b, n),
    decreases n,
{
    if n > 0 {
        lemma_halves_prefix(a, b, (n - 1) as nat);
    }
}

/// The halves of two lists are the halves of the one behind those of the other.
proof fn lemma_halves_concat(a: Seq<u64>, b: Seq<u64>)
    ensures
        halves_of(a + b, a.len() + b.len()) == halves_of(a, a.len()) + halves_of(b, b.len()),
    decreases b.len(),
{
    if b.len() == 0 {
        assert(a + b =~= a);
        assert(halves_of(a, a.len()) + halves_of(b, 0) =~= halves_of(a, a.len()));
    } else {
        let init = b.drop_last();
        lemma_halves_concat(a, init);
        lemma_halves_prefix(a + b, a + init, a.len() + init.len());
        lemma_halves_prefix(b, init, init.len());
        assert((a + b)[a.len() + b.len() - 1] == b[b.len() - 1]);
        assert(halves_of(a + b, a.len() + b.len()) =~= halves_of(a, a.len()) + halves_of(b, b.len()));
    }
}

/// A class with the counters, weights and streams that lie at clause `at` and counter `pos`.
fn download_class(
    cfg: &MachineConfig,
    bank: &ClassBank,
    ta: &[u32],
    weights: &[i32],
    rngs: &[u32],
    rng: Rng,
    at: usize,
    pos: usize,
) -> (r: Option<ClassBank>)
    requires
        cfg.wf(),
        bank.wf(&cfg.train.geom, 1, cfg.train.threshold),
        bank.clauses@.len() == cfg.clauses_per_class,
        at + cfg.clauses_per_class <= weights@.len(),
        rngs@.len() == 2 * weights@.len(),
        pos + cfg.clauses_per_class * cfg.train.geom.n_literals <= ta@.len(),
    ensures
        (r is Some) == ((forall|i: int|
            pos <= i < pos + cfg.clauses_per_class * cfg.train.geom.n_literals ==> #[trigger] ta@[i]
                <= cfg.train.geom.max_state) && (forall|i: int|
            at <= i < at + cfg.clauses_per_class ==> 1 <= #[trigger] weights@[i]
                <= cfg.train.threshold)),
        r matches Some(b) ==> {
            &&& b.wf(&cfg.train.geom, 1, cfg.train.threshold)
            &&& b.clauses@.len() == cfg.clauses_per_class
            &&& b.rng == rng
            &&& widened(counters_of(b@.clauses, b@.clauses.len())) == ta@.subrange(
                pos as int,
                pos + cfg.clauses_per_class * cfg.train.geom.n_literals,
            )
            &&& weights_of(b@.clauses) == weights@.subrange(
                at as int,
                at + cfg.clauses_per_class,
            )
            &&& halves_of(streams_of(b@.clauses), b@.clauses.len()) == rngs@.subrange(
                2 * at,
                2 * (at + cfg.clauses_per_class),
            )
            &&& forall|j: int|
                0 <= j < b.clauses@.len() ==> (#[trigger] b.clauses@[j]).auto@.ind
                    == bank.clauses@[j].auto@.ind && b.clauses@[j].auto@.cat
                    == bank.clauses@[j].auto@.cat
        },
{
    let n: usize = cfg.train.geom.n_literals;
    let per: usize = cfg.clauses_per_class;
    let ghost size = per * n;
    let mut clauses: Vec<Clause> = Vec::with_capacity(per);
    let mut p: usize = pos;
    let mut j: usize = 0;
    proof {
        assert(0 * n == 0) by (nonlinear_arith);
        assert(widened(counters_of(clause_models(clauses@), 0)) =~= ta@.subrange(
            pos as int,
            pos as int,
        ));
        assert(weights_of(clause_models(clauses@)) =~= weights@.subrange(at as int, at as int));
        assert(halves_of(streams_of(clause_models(clauses@)), 0) =~= rngs@.subrange(2 * at, 2 * at));
    }
    while j < per
        invariant
            cfg.wf(),
            bank.wf(&cfg.train.geom, 1, cfg.train.threshold),
            bank.clauses@.len() == per,
            n == cfg.train.geom.n_literals,
            per == cfg.clauses_per_class,
            size == per * n,
            at + per <= weights@.len(),
            rngs@.len() == 2 * weights@.len(),
            pos + size <= ta.len(),
            j <= per,
            p == pos + j * n,
            clauses@.len() == j,
            forall|k: int|
                0 <= k < j ==> (#[trigger] clauses@[k]).wf(&cfg.train.geom, 1, cfg.train.threshold)
                    && clauses@[k].auto@.ind == bank.clauses@[k].auto@.ind && clauses@[k].auto@.cat
                    == bank.clauses@[k].auto@.cat,
            widened(counters_of(clause_models(clauses@), j as nat)) == ta@.subrange(
                pos as int,
                p as int,
            ),
            weights_of(clause_models(clauses@)) == weights@.subrange(at as int, at + j),
            halves_of(streams_of(clause_models(clauses@)), j as nat) == rngs@.subrange(
                2 * at,
                2 * (at + j),
            ),
            forall|i: int| pos <= i < p ==> #[trigger] ta@[i] <= cfg.train.geom.max_state,
            forall|i: int| at <= i < at + j ==> 1 <= #[trigger] weights@[i] <= cfg.train.threshold,
        decreases per - j,
    {
        proof {
            let jj = j as int;
            let nn = n as int;
            assert((jj + 1) * nn == jj * nn + nn) by (nonlinear_arith);
            assert((jj + 1) * nn <= size) by (nonlinear_arith)
                requires
                    jj + 1 <= per,
                    nn >= 0,
                    size == per * nn,
            ;
            assert(weights@.len() == weights.len() && rngs@.len() == rngs.len());
        }
        let w: i32 = weights[at + j];
        if w < 1 || w > cfg.train.threshold {
            return None;
        }
        let mut counters: Vec<u8> = Vec::with_capacity(n);
        let mut l: usize = 0;
        while l < n
            invariant
                n == cfg.train.geom.n_literals,
                l <= n,
                p + n <= pos + size,
                pos <= p,
                pos + size <= ta.len(),
                size == cfg.clauses_per_class * cfg.train.geom.n_literals,
                counters@.len() == l,
                forall|i: int|
                    0 <= i < l ==> #[trigger] counters@[i] == ta@[p + i] && counters@[i]
                        <= cfg.train.geom.max_state,
            decreases n - l,
        {
            let v: u32 = ta[p + l];
            if v > cfg.train.geom.max_state as u32 {
                proof {
                    assert(ta@[p + l] > cfg.train.geom.max_state);
                }
                return None;
            }
            counters.push(v as u8);
            l = l + 1;
        }
        let old_clause: &Clause = &bank.clauses[j];
        proof {
            assert(bank.clauses@[j as int].wf(&cfg.train.geom, 1, cfg.train.threshold));
        }
        let ghost got = counters@;
        let auto: Automata = old_clause.auto.with_counters(&cfg.train.geom, counters);
        let stream: Rng = stream_at(rngs, at + j);
        let ghost before = clause_models(clauses@);
        clauses.push(Clause { auto, weight: w, rng: stream });
        proof {
            let now = clause_models(clauses@);
            let added = clauses@[j as int]@;
            assert(now =~= before.push(added));
            lemma_counters_prefix(before, now, j as nat);
            assert(widened(counters_of(now, (j + 1) as nat)) =~= widened(
                counters_of(before, j as nat),
            ) + widened(got));
            assert(widened(got) =~= ta@.subrange(p as int, p + n));
            assert(ta@.subrange(pos as int, p + n) =~= ta@.subrange(pos as int, p as int)
                + ta@.subrange(p as int, p + n));
            assert(weights_of(now) =~= weights@.subrange(at as int, at + j + 1));
            lemma_halves_prefix(streams_of(before), streams_of(now), j as nat);
            lemma_joined_halves(rngs@[2 * (at + j)], rngs@[2 * (at + j) + 1]);
            assert(rngs@.subrange(2 * at, 2 * (at + j + 1)) =~= rngs@.subrange(2 * at, 2 * (at + j))
                + seq![rngs@[2 * (at + j)], rngs@[2 * (at + j) + 1]]);
            assert forall|i: int| pos <= i < p + n implies #[trigger] ta@[i]
                <= cfg.train.geom.max_state by {
                if i >= p {
                    assert(got[i - p] == ta@[p + (i - p)]);
                }
            }
        }
        p = p + n;
        j = j + 1;
    }
    Some(ClassBank { clauses, rng })
}

/// Clauses that are not looked at change nothing.
proof fn lemma_counters_prefix(a: Seq<ClauseModel>, b: Seq<ClauseModel>, n: nat)
    requires
        n <= a.len(),
        n <= b.len(),
        forall|j: int| 0 <= j < n ==> #[trigger] a[j] == b[j],
    ensures
        counters_of(a, n) == counters_of(b, n),
    decreases n,
{
    if n > 0 {
        lemma_counters_prefix(a, b, (n - 1) as nat);
    }
}

/// Two concatenations whose second parts are equally long are equal part by part.
proof fn lemma_concat_parts<T>(a: Seq<T>, b: Seq<T>, x: Seq<T>, y: Seq<T>)
    requires
        a + x == b + y,
        x.len() == y.len(),
    ensures
        a == b,
        x == y,
{
    assert((a + x).len() == a.len() + x.len() && (b + y).len() == b.len() + y.len());
    assert(a.len() == b.len());
    assert(a =~= b) by {
        assert forall|i: int| 0 <= i < a.len() implies a[i] == b[i] by {
            assert((a + x)[i] == a[i] && (b + y)[i] == b[i]);
        }
    }
    assert(x =~= y) by {
        assert forall|i: int| 0 <= i < x.len() implies x[i] == y[i] by {
            assert((a + x)[a.len() + i] == x[i] && (b + y)[b.len() + i] == y[i]);
        }
    }
}

/// All clauses have `n` counters.
spec fn has_width(cs: Seq<ClauseModel>, n: nat) -> bool {
    forall|j: int| 0 <= j < cs.len() ==> (#[trigger] cs[j]).auto.ta.len() == n
}

proof fn lemma_counters_len(a: Seq<ClauseModel>, b: Seq<ClauseModel>, k: nat, n: nat)
    requires
        k <= a.len(),
        k <= b.len(),
        has_width(a, n),
        has_width(b, n),
    ensures
        counters_of(a, k).len() == counters_of(b, k).len(),
    decreases k,
{
    if k > 0 {
        lemma_counters_len(a, b, (k - 1) as nat, n);
    }
}

proof fn lemma_counters_same(a: Seq<ClauseModel>, b: Seq<ClauseModel>, k: nat, n: nat)
    requires
        k <= a.len(),
        k <= b.len(),
        has_width(a, n),
        has_width(b, n),
        counters_of(a, k) == counters_of(b, k),
    ensures
        forall|j: int| 0 <= j < k ==> (#[trigger] a[j]).auto.ta == b[j].auto.ta,
    decreases k,
{
    if k > 0 {
        lemma_concat_parts(
            counters_of(a, (k - 1) as nat),
            counters_of(b, (k - 1) as nat),
            a[k - 1].auto.ta,
            b[k - 1].auto.ta,
        );
        lemma_counters_same(a, b, (k - 1) as nat, n);
    }
}

proof fn lemma_halves_same(a: Seq<u64>, b: Seq<u64>, k: nat)
    requires
        k <= a.len(),
        k <= b.len(),
        halves_of(a, k) == halves_of(b, k),
    ensures
        forall|i: int| 0 <= i < k ==> #[trigger] a[i] == b[i],
    decreases k,
{
    if k > 0 {
        lemma_concat_parts(
            halves_of(a, (k - 1) as nat),
            halves_of(b, (k - 1) as nat),
            halves(a[k - 1]),
            halves(b[k - 1]),
        );
        let x = a[k - 1] as int;
        let y = b[k - 1] as int;
        assert(halves(a[k - 1])[0] == halves(b[k - 1])[0]);
        assert(halves(a[k - 1])[1] == halves(b[k - 1])[1]);
        assert(x == 0x1_0000_0000 * (x / 0x1_0000_0000) + x % 0x1_0000_0000);
        assert(y == 0x1_0000_0000 * (y / 0x1_0000_0000) + y % 0x1_0000_0000);
        lemma_halves_same(a, b, (k - 1) as nat);
    }
}

/// Classes with equally many clauses, each with `n` counters, are equal in their counters, weights
/// and streams where these are equal one after the other.
proof fn lemma_classes_same(a: Seq<ClassModel>, b: Seq<ClassModel>, k: nat, per: nat, n: nat)
    requires
        k <= a.len(),
        k <= b.len(),
        forall|c: int| 0 <= c < k ==> (#[trigger] a[c]).clauses.len() == per,
        forall|c: int| 0 <= c < k ==> (#[trigger] b[c]).clauses.len() == per,
        forall|c: int, j: int|
            0 <= c < k && 0 <= j < per ==> (#[trigger] a[c].clauses[j]).auto.ta.len() == n,
        forall|c: int, j: int|
            0 <= c < k && 0 <= j < per ==> (#[trigger] b[c].clauses[j]).auto.ta.len() == n,
        machine_counters(a, k) == machine_counters(b, k),
        machine_weights(a, k) == machine_weights(b, k),
        machine_streams(a, k) == machine_streams(b, k),
    ensures
        forall|c: int, j: int|
            0 <= c < k && 0 <= j < per ==> {
                let x = #[trigger] a[c].clauses[j];
                let y = b[c].clauses[j];
                x.auto.ta == y.auto.ta && x.weight == y.weight && x.rng == y.rng
            },
    decreases k,
{
    if k > 0 {
        let x = a[k - 1].clauses;
        let y = b[k - 1].clauses;
        assert(x.len() == per && y.len() == per);
        assert forall|j: int| 0 <= j < x.len() implies (#[trigger] x[j]).auto.ta.len() == n by {
            assert(a[k - 1].clauses[j].auto.ta.len() == n);
        }
        assert forall|j: int| 0 <= j < y.len() implies (#[trigger] y[j]).auto.ta.len() == n by {
            assert(b[k - 1].clauses[j].auto.ta.len() == n);
        }
        lemma_counters_len(x, y, per, n);
        lemma_concat_parts(
            machine_counters(a, (k - 1) as nat),
            machine_counters(b, (k - 1) as nat),
            counters_of(x, per),
            counters_of(y, per),
        );
        lemma_concat_parts(
            machine_weights(a, (k - 1) as nat),
            machine_weights(b, (k - 1) as nat),
            weights_of(x),
            weights_of(y),
        );
        lemma_concat_parts(
            machine_streams(a, (k - 1) as nat),
            machine_streams(b, (k - 1) as nat),
            streams_of(x),
            streams_of(y),
        );
        lemma_counters_same(x, y, per, n);
        lemma_classes_same(a, b, (k - 1) as nat, per, n);
        assert forall|j: int| 0 <= j < per implies x[j].auto.ta == (#[trigger] y[j]).auto.ta
            && x[j].weight == y[j].weight && x[j].rng == y[j].rng by {
            assert(x[j].auto.ta == y[j].auto.ta);
            assert(weights_of(x)[j] == weights_of(y)[j]);
            assert(streams_of(x)[j] == streams_of(y)[j]);
        }
    }
}

/// `k` classes of `per` clauses, each with `n` counters.
pub open spec fn shaped(ms: Seq<ClassModel>, k: nat, per: nat, n: nat) -> bool {
    &&& ms.len() == k
    &&& forall|c: int| 0 <= c < k ==> (#[trigger] ms[c]).clauses.len() == per
    &&& forall|c: int, j: int|
        0 <= c < k && 0 <= j < per ==> (#[trigger] ms[c].clauses[j]).auto.ta.len() == n
}

/// What a device does not hold of clauses is the same.
pub open spec fn same_marks(a: Seq<ClassModel>, b: Seq<ClassModel>, k: nat, per: nat) -> bool {
    forall|c: int, j: int|
        0 <= c < k && 0 <= j < per ==> {
            let x = (#[trigger] a[c].clauses[j]).auto;
            let y = b[c].clauses[j].auto;
            x.ind == y.ind && x.cat == y.cat
        }
}

/// What a device holds of classes is the same: counters, weights and streams.
pub open spec fn same_image(a: Seq<ClassModel>, b: Seq<ClassModel>) -> bool {
    &&& widened(machine_counters(a, a.len())) == widened(machine_counters(b, b.len()))
    &&& machine_weights(a, a.len()) == machine_weights(b, b.len())
    &&& halves_of(machine_streams(a, a.len()), machine_streams(a, a.len()).len()) == halves_of(
        machine_streams(b, b.len()),
        machine_streams(b, b.len()).len(),
    )
    &&& halves_of(class_streams(a), a.len()) == halves_of(class_streams(b), b.len())
}

/// Classes are what a device holds of them and what it does not.
pub proof fn lemma_same_image(a: Seq<ClassModel>, b: Seq<ClassModel>, k: nat, per: nat, n: nat)
    requires
        shaped(a, k, per, n),
        shaped(b, k, per, n),
        same_marks(a, b, k, per),
        same_image(a, b),
    ensures
        a == b,
{
    let ca = machine_counters(a, k);
    let cb = machine_counters(b, k);
    assert(ca =~= cb) by {
        assert(widened(ca).len() == widened(cb).len());
        assert forall|i: int| 0 <= i < ca.len() implies ca[i] == cb[i] by {
            assert(widened(ca)[i] == widened(cb)[i]);
        }
    }
    let sa = machine_streams(a, k);
    let sb = machine_streams(b, k);
    lemma_halves_len(sa, sa.len());
    lemma_halves_len(sb, sb.len());
    lemma_halves_same(sa, sb, sa.len());
    assert(sa =~= sb);
    lemma_classes_same(a, b, k, per, n);
    lemma_halves_same(class_streams(a), class_streams(b), k);
    assert forall|c: int| 0 <= c < k implies a[c] == b[c] by {
        assert(class_streams(a)[c] == class_streams(b)[c]);
        assert forall|j: int| 0 <= j < per implies a[c].clauses[j] == b[c].clauses[j] by {
            let x = a[c].clauses[j];
            let y = b[c].clauses[j];
            assert(x.auto.ta == y.auto.ta && x.weight == y.weight && x.rng == y.rng);
            assert(x.auto.ind == y.auto.ind && x.auto.cat == y.auto.cat);
            assert(x.auto =~= y.auto);
        }
        assert(a[c].clauses =~= b[c].clauses);
    }
    assert(a =~= b);
}

impl MachineState {
    /// The classes of a valid machine have the shape that its configuration gives.
    pub proof fn lemma_shaped(&self, cfg: &MachineConfig)
        requires
            self.wf(cfg),
        ensures
            shaped(
                self@.classes,
                cfg.n_classes as nat,
                cfg.clauses_per_class as nat,
                cfg.train.geom.n_literals as nat,
            ),
    {
        let a = self@.classes;
        assert forall|c: int| 0 <= c < cfg.n_classes implies (#[trigger] a[c]).clauses.len()
            == cfg.clauses_per_class by {
            assert(self.classes@[c].clauses@.len() == cfg.clauses_per_class);
        }
        assert forall|c: int, j: int|
            0 <= c < cfg.n_classes && 0 <= j < cfg.clauses_per_class implies (
        #[trigger] a[c].clauses[j]).auto.ta.len() == cfg.train.geom.n_literals by {
            assert(self.classes@[c].wf(&cfg.train.geom, 1, cfg.train.threshold));
            assert(self.classes@[c].clauses@[j].wf(&cfg.train.geom, 1, cfg.train.threshold));
        }
    }

    /// A machine is what a device holds of it: the machine that comes back from an image with the
    /// counters, weights and streams of `self` is `self`.
    pub proof fn lemma_image_determines(&self, other: &Self, cfg: &MachineConfig)
        requires
            self.wf(cfg),
            other.wf(cfg),
            self.device_keeps(other),
            same_image(self@.classes, other@.classes),
        ensures
            self@ == other@,
    {
        self.lemma_shaped(cfg);
        other.lemma_shaped(cfg);
        let (a, b) = (self@.classes, other@.classes);
        let (k, per) = (cfg.n_classes as nat, cfg.clauses_per_class as nat);
        assert(same_marks(a, b, k, per));
        lemma_same_image(a, b, k, per, cfg.train.geom.n_literals as nat);
    }
}

proof fn lemma_halves_len(s: Seq<u64>, n: nat)
    requires
        n <= s.len(),
    ensures
        halves_of(s, n).len() == 2 * n,
    decreases n,
{
    if n > 0 {
        lemma_halves_len(s, (n - 1) as nat);
    }
}

} // verus!
