//! Sparse automata: per clause, the literals are split into three pools.
//!
//! `included` holds the literals of the conjunction, `excluded` the candidates, and
//! `unallocated` the literals that were absorbed out of candidacy. A clause fires when its
//! included literals are present, so its cost follows the size of that pool.
use crate::bits::{bit_at, bits_of, get_bit, literals_of};
use crate::clause_bank::automata::{count_at, half_from_bits, half_of};
use crate::rng::{rng_frac, rng_next, Rng};
use vstd::prelude::*;

verus! {

/// The counter at which an excluded literal is absorbed out of candidacy.
pub const ABSORB_EXCLUDE: u8 = 0;

/// The pools of one clause, as values.
#[verifier::ext_equal]
pub struct SparseModel {
    pub included: Seq<u32>,
    pub included_state: Seq<u8>,
    pub excluded: Seq<u32>,
    pub excluded_state: Seq<u8>,
    pub unallocated: Seq<u32>,
}

/// The pools of one clause; each state belongs to the literal at the same index.
#[derive(Clone, Debug)]
pub struct SparseClause {
    pub included: Vec<u32>,
    pub included_state: Vec<u8>,
    pub excluded: Vec<u32>,
    pub excluded_state: Vec<u8>,
    pub unallocated: Vec<u32>,
}

impl View for SparseClause {
    type V = SparseModel;

    open spec fn view(&self) -> SparseModel {
        SparseModel {
            included: self.included@,
            included_state: self.included_state@,
            excluded: self.excluded@,
            excluded_state: self.excluded_state@,
            unallocated: self.unallocated@,
        }
    }
}

/// No literal occurs twice.
pub open spec fn distinct(a: Seq<u32>) -> bool {
    forall|i: int, j: int| 0 <= i < j < a.len() ==> #[trigger] a[i] != #[trigger] a[j]
}

/// No literal occurs in both.
pub open spec fn disjoint(a: Seq<u32>, b: Seq<u32>) -> bool {
    forall|i: int, j: int|
        0 <= i < a.len() && 0 <= j < b.len() ==> #[trigger] a[i] != #[trigger] b[j]
}

/// All literals are below `n`.
pub open spec fn within(a: Seq<u32>, n: nat) -> bool {
    forall|i: int| 0 <= i < a.len() ==> #[trigger] a[i] < n
}

/// The pools split the `n` literals: each is in exactly one of them.
pub open spec fn splits(m: SparseModel, n: nat) -> bool {
    &&& distinct(m.included)
    &&& distinct(m.excluded)
    &&& distinct(m.unallocated)
    &&& disjoint(m.included, m.excluded)
    &&& disjoint(m.included, m.unallocated)
    &&& disjoint(m.excluded, m.unallocated)
    &&& within(m.included, n)
    &&& within(m.excluded, n)
    &&& within(m.unallocated, n)
    &&& m.included.len() + m.excluded.len() + m.unallocated.len() == n
}

/// The states fit the pools: included literals have reached `half`, excluded ones have not
/// and are above the absorbing state.
pub open spec fn states_fit(m: SparseModel, half: u8, max: u8) -> bool {
    &&& m.included_state.len() == m.included.len()
    &&& m.excluded_state.len() == m.excluded.len()
    &&& forall|i: int| 0 <= i < m.included_state.len() ==> half <= #[trigger] m.included_state[i] <= max
    &&& forall|i: int|
        0 <= i < m.excluded_state.len() ==> ABSORB_EXCLUDE < #[trigger] m.excluded_state[i] < half
}

/// The sequence without entry `i`, whose place the last entry takes.
pub open spec fn without<T>(s: Seq<T>, i: int) -> Seq<T> {
    s.update(i, s.last()).drop_last()
}

/// Included literal `i` becomes a candidate with counter `state`.
pub open spec fn demoted(m: SparseModel, i: int, state: u8) -> SparseModel {
    SparseModel {
        included: without(m.included, i),
        included_state: without(m.included_state, i),
        excluded: m.excluded.push(m.included[i]),
        excluded_state: m.excluded_state.push(state),
        ..m
    }
}

/// Candidate `i` is included with counter `state`.
pub open spec fn promoted(m: SparseModel, i: int, state: u8) -> SparseModel {
    SparseModel {
        excluded: without(m.excluded, i),
        excluded_state: without(m.excluded_state, i),
        included: m.included.push(m.excluded[i]),
        included_state: m.included_state.push(state),
        ..m
    }
}

/// Candidate `i` is absorbed out.
pub open spec fn absorbed(m: SparseModel, i: int) -> SparseModel {
    SparseModel {
        excluded: without(m.excluded, i),
        excluded_state: without(m.excluded_state, i),
        unallocated: m.unallocated.push(m.excluded[i]),
        ..m
    }
}

/// Moving a literal from one pool to another keeps the pools apart.
proof fn lemma_move(a: Seq<u32>, b: Seq<u32>, c: Seq<u32>, i: int, n: nat)
    requires
        0 <= i < a.len(),
        distinct(a),
        distinct(b),
        disjoint(a, b),
        disjoint(a, c),
        disjoint(b, c),
        within(a, n),
        within(b, n),
    ensures
        distinct(without(a, i)),
        distinct(b.push(a[i])),
        disjoint(without(a, i), b.push(a[i])),
        disjoint(without(a, i), c),
        disjoint(b.push(a[i]), c),
        within(without(a, i), n),
        within(b.push(a[i]), n),
{
    let w = without(a, i);
    let last = a.len() - 1;
    assert forall|k: int| 0 <= k < w.len() implies #[trigger] w[k] == a[if k == i {
        last
    } else {
        k
    }] by {}
    assert forall|p: int, q: int| 0 <= p < q < w.len() implies #[trigger] w[p] != #[trigger] w[q] by {
        let pp = if p == i {
            last
        } else {
            p
        };
        let qq = if q == i {
            last
        } else {
            q
        };
        if pp < qq {
            assert(a[pp] != a[qq]);
        } else {
            assert(a[qq] != a[pp]);
        }
    }
    assert forall|p: int, q: int|
        0 <= p < w.len() && 0 <= q < b.push(a[i]).len() implies #[trigger] w[p] != #[trigger] b.push(
        a[i],
    )[q] by {
        let pp = if p == i {
            last
        } else {
            p
        };
        if q < b.len() {
            assert(a[pp] != b[q]);
        } else if pp < i {
            assert(a[pp] != a[i]);
        } else {
            assert(a[i] != a[pp]);
        }
    }
    assert forall|p: int, q: int| 0 <= p < w.len() && 0 <= q < c.len() implies #[trigger] w[p]
        != #[trigger] c[q] by {
        let pp = if p == i {
            last
        } else {
            p
        };
        assert(a[pp] != c[q]);
    }
    assert forall|p: int, q: int|
        0 <= p < q < b.push(a[i]).len() implies #[trigger] b.push(a[i])[p] != #[trigger] b.push(a[i])[q] by {
        if q == b.len() {
            assert(a[i] != b[p]);
        }
    }
    assert forall|p: int, q: int|
        0 <= p < b.push(a[i]).len() && 0 <= q < c.len() implies #[trigger] b.push(a[i])[p]
        != #[trigger] c[q] by {
        if p == b.len() {
            assert(a[i] != c[q]);
        }
    }
}

proof fn lemma_disjoint_symmetric(a: Seq<u32>, b: Seq<u32>)
    requires
        disjoint(a, b),
    ensures
        disjoint(b, a),
{
    assert forall|i: int, j: int| 0 <= i < b.len() && 0 <= j < a.len() implies #[trigger] b[i]
        != #[trigger] a[j] by {
        assert(a[j] != b[i]);
    }
}

/// Every move between pools keeps the split and the states.
pub proof fn lemma_moves(m: SparseModel, n: nat, half: u8, max: u8, i: int, state: u8)
    requires
        splits(m, n),
        states_fit(m, half, max),
    ensures
        0 <= i < m.included.len() && ABSORB_EXCLUDE < state < half ==> splits(demoted(m, i, state), n)
            && states_fit(demoted(m, i, state), half, max),
        0 <= i < m.excluded.len() && half <= state <= max ==> splits(promoted(m, i, state), n)
            && states_fit(promoted(m, i, state), half, max),
        0 <= i < m.excluded.len() ==> splits(absorbed(m, i), n) && states_fit(
            absorbed(m, i),
            half,
            max,
        ),
{
    lemma_disjoint_symmetric(m.included, m.excluded);
    lemma_disjoint_symmetric(m.included, m.unallocated);
    lemma_disjoint_symmetric(m.excluded, m.unallocated);
    if 0 <= i < m.included.len() {
        lemma_move(m.included, m.excluded, m.unallocated, i, n);
    }
    if 0 <= i < m.excluded.len() {
        lemma_move(m.excluded, m.included, m.unallocated, i, n);
        lemma_move(m.excluded, m.unallocated, m.included, i, n);
        lemma_disjoint_symmetric(without(m.excluded, i), m.included.push(m.excluded[i]));
        lemma_disjoint_symmetric(m.unallocated.push(m.excluded[i]), m.included);
        lemma_disjoint_symmetric(without(m.excluded, i), m.included);
    }
}

/// What a scan over the pools depends on, besides the pools and the stream.
pub struct Scan {
    /// The literals of the sample.
    pub x: Seq<bool>,
    /// The literals that are active.
    pub act: Seq<bool>,
    /// The clause fires and may still grow.
    pub fired: bool,
    pub boost: bool,
    /// The largest drawn fraction for a penalty.
    pub inv: u64,
    /// The bound that drawn fractions for a reward stay below.
    pub keep: u64,
    pub max_included: usize,
    pub half: u8,
    pub max: u8,
}

/// The pools and the stream after Type I feedback to the included literals from index `i`.
///
/// A present literal is rewarded, up to `max`; an absent one is penalised, unless it is at
/// `max`, and becomes a candidate when it falls below `half`. The literal that takes its
/// place is visited next.
pub open spec fn included_scan(m: SparseModel, s: u64, i: nat, p: Scan) -> (SparseModel, u64)
    decreases m.included.len() - i,
{
    if i >= m.included.len() {
        (m, s)
    } else {
        let l = m.included[i as int] as int;
        let state = m.included_state[i as int];
        if !p.act[l] {
            included_scan(m, s, i + 1, p)
        } else if p.x[l] {
            if p.fired && state < p.max {
                let rewarded = SparseModel {
                    included_state: m.included_state.update(i as int, (state + 1) as u8),
                    ..m
                };
                if p.boost {
                    included_scan(rewarded, s, i + 1, p)
                } else if rng_frac(s) < p.keep {
                    included_scan(rewarded, rng_next(s), i + 1, p)
                } else {
                    included_scan(m, rng_next(s), i + 1, p)
                }
            } else {
                included_scan(m, s, i + 1, p)
            }
        } else if state < p.max {
            if rng_frac(s) <= p.inv {
                let lower = (state - 1) as u8;
                if lower < p.half {
                    included_scan(demoted(m, i as int, lower), rng_next(s), i, p)
                } else {
                    included_scan(
                        SparseModel {
                            included_state: m.included_state.update(i as int, lower),
                            ..m
                        },
                        rng_next(s),
                        i + 1,
                        p,
                    )
                }
            } else {
                included_scan(m, rng_next(s), i + 1, p)
            }
        } else {
            included_scan(m, s, i + 1, p)
        }
    }
}

/// The pools and the stream after Type I feedback to the candidates from index `i`.
///
/// A present candidate is rewarded while the clause may grow, and included when it reaches
/// `half`; an absent one is penalised, and absorbed out when it would reach the floor.
pub open spec fn excluded_scan(m: SparseModel, s: u64, i: nat, p: Scan) -> (SparseModel, u64)
    decreases m.excluded.len() - i,
{
    if i >= m.excluded.len() {
        (m, s)
    } else {
        let l = m.excluded[i as int] as int;
        let state = m.excluded_state[i as int];
        if !p.act[l] {
            excluded_scan(m, s, i + 1, p)
        } else if p.x[l] {
            if p.fired && m.included.len() < p.max_included {
                let after = if p.boost {
                    s
                } else {
                    rng_next(s)
                };
                if p.boost || rng_frac(s) < p.keep {
                    let higher = if state < p.max {
                        (state + 1) as u8
                    } else {
                        p.max
                    };
                    if higher >= p.half {
                        excluded_scan(promoted(m, i as int, higher), after, i, p)
                    } else {
                        excluded_scan(
                            SparseModel {
                                excluded_state: m.excluded_state.update(i as int, higher),
                                ..m
                            },
                            after,
                            i + 1,
                            p,
                        )
                    }
                } else {
                    excluded_scan(m, after, i + 1, p)
                }
            } else {
                excluded_scan(m, s, i + 1, p)
            }
        } else if rng_frac(s) <= p.inv {
            if state <= ABSORB_EXCLUDE + 1 {
                excluded_scan(absorbed(m, i as int), rng_next(s), i, p)
            } else {
                excluded_scan(
                    SparseModel {
                        excluded_state: m.excluded_state.update(i as int, (state - 1) as u8),
                        ..m
                    },
                    rng_next(s),
                    i + 1,
                    p,
                )
            }
        } else {
            excluded_scan(m, rng_next(s), i + 1, p)
        }
    }
}

/// The pools and the stream after Type I feedback.
pub open spec fn sparse_type_i(m: SparseModel, s: u64, p: Scan) -> (SparseModel, u64) {
    let (m1, s1) = included_scan(m, s, 0, p);
    excluded_scan(m1, s1, 0, p)
}

/// The pools after Type II feedback to the candidates from index `i`: an absent, active
/// candidate above the absorbing state moves towards inclusion.
pub open spec fn sparse_type_ii(m: SparseModel, i: nat, x: Seq<bool>, act: Seq<bool>, half: u8, max: u8) -> SparseModel
    decreases m.excluded.len() - i,
{
    if i >= m.excluded.len() {
        m
    } else {
        let l = m.excluded[i as int] as int;
        let state = m.excluded_state[i as int];
        if act[l] && !x[l] && state > ABSORB_EXCLUDE {
            let higher = if state < max {
                (state + 1) as u8
            } else {
                max
            };
            if higher >= half {
                sparse_type_ii(promoted(m, i as int, higher), i, x, act, half, max)
            } else {
                sparse_type_ii(
                    SparseModel {
                        excluded_state: m.excluded_state.update(i as int, higher),
                        ..m
                    },
                    i + 1,
                    x,
                    act,
                    half,
                    max,
                )
            }
        } else {
            sparse_type_ii(m, i + 1, x, act, half, max)
        }
    }
}

/// In inference a clause fires when it includes a literal and every included one is present.
pub open spec fn sparse_votes(m: SparseModel, x: Seq<bool>) -> bool {
    m.included.len() > 0 && forall|i: int| 0 <= i < m.included.len() ==> x[#[trigger] m.included[i] as int]
}

/// In training a clause fires when every included literal that is active is present.
pub open spec fn sparse_holds(m: SparseModel, x: Seq<bool>, act: Seq<bool>) -> bool {
    forall|i: int|
        0 <= i < m.included.len() && act[#[trigger] m.included[i] as int] ==> x[m.included[i] as int]
}

/// Firing only looks at the literals that a clause includes.
proof fn lemma_fires(m: SparseModel, lit: Seq<u64>, active: Seq<u64>)
    ensures
        forall|n: nat|
            within(m.included, n) ==> sparse_votes(m, #[trigger] bits_of(lit, n)) == (m.included.len() > 0
                && forall|i: int| 0 <= i < m.included.len() ==> bit_at(lit, #[trigger] m.included[i] as int)),
        forall|n: nat|
            within(m.included, n) ==> sparse_holds(m, #[trigger] bits_of(lit, n), bits_of(active, n)) == (
            forall|i: int|
                0 <= i < m.included.len() && bit_at(active, #[trigger] m.included[i] as int) ==> bit_at(
                    lit,
                    m.included[i] as int,
                )),
{
    assert forall|n: nat| within(m.included, n) implies sparse_votes(m, #[trigger] bits_of(lit, n)) == (
    m.included.len() > 0 && forall|i: int|
        0 <= i < m.included.len() ==> bit_at(lit, #[trigger] m.included[i] as int)) by {
        let x = bits_of(lit, n);
        assert(forall|i: int|
            0 <= i < m.included.len() ==> x[#[trigger] m.included[i] as int] == bit_at(
                lit,
                m.included[i] as int,
            ));
    }
    assert forall|n: nat| within(m.included, n) implies sparse_holds(
        m,
        #[trigger] bits_of(lit, n),
        bits_of(active, n),
    ) == (forall|i: int|
        0 <= i < m.included.len() && bit_at(active, #[trigger] m.included[i] as int) ==> bit_at(
            lit,
            m.included[i] as int,
        )) by {
        let x = bits_of(lit, n);
        let act = bits_of(active, n);
        assert(forall|i: int|
            0 <= i < m.included.len() ==> x[#[trigger] m.included[i] as int] == bit_at(
                lit,
                m.included[i] as int,
            ) && act[m.included[i] as int] == bit_at(active, m.included[i] as int));
    }
}

/// Whether literal `l` is present in a packed sample.
pub fn lit_present(lit: &[u64], l: u32) -> (r: bool)
    requires
        l < 64 * lit@.len(),
    ensures
        r == bit_at(lit@, l as int),
{
    get_bit(lit, l as usize)
}

/// Whether literal `l` is active.
pub fn lit_active(mask: &[u64], l: u32) -> (r: bool)
    requires
        l < 64 * mask@.len(),
    ensures
        r == bit_at(mask@, l as int),
{
    get_bit(mask, l as usize)
}

/// Absorbs candidate `idx` out.
fn absorb_remove_excluded(c: &mut SparseClause, idx: usize)
    requires
        idx < old(c).excluded@.len(),
        old(c).excluded_state@.len() == old(c).excluded@.len(),
    ensures
        final(c)@ == absorbed(old(c)@, idx as int),
{
    let l: u32 = c.excluded.swap_remove(idx);
    c.excluded_state.swap_remove(idx);
    c.unallocated.push(l);
}

/// Makes included literal `idx` a candidate with counter `state`.
fn demote_to_excluded(c: &mut SparseClause, idx: usize, state: u8)
    requires
        idx < old(c).included@.len(),
        old(c).included_state@.len() == old(c).included@.len(),
    ensures
        final(c)@ == demoted(old(c)@, idx as int, state),
{
    let l: u32 = c.included.swap_remove(idx);
    c.included_state.swap_remove(idx);
    c.excluded.push(l);
    c.excluded_state.push(state);
}

/// Includes candidate `idx` with counter `state`.
fn promote_to_included(c: &mut SparseClause, idx: usize, state: u8)
    requires
        idx < old(c).excluded@.len(),
        old(c).excluded_state@.len() == old(c).excluded@.len(),
    ensures
        final(c)@ == promoted(old(c)@, idx as int, state),
{
    let l: u32 = c.excluded.swap_remove(idx);
    c.excluded_state.swap_remove(idx);
    c.included.push(l);
    c.included_state.push(state);
}

impl SparseClause {
    pub open spec fn wf(&self, n: nat, half: u8, max: u8) -> bool {
        splits(self@, n) && states_fit(self@, half, max)
    }

    /// Whether the clause fires in inference.
    pub fn fire_predict(&self, lit: &[u64]) -> (r: bool)
        requires
            within(self@.included, 64 * lit@.len()),
        ensures
            forall|n: nat|
                within(self@.included, n) ==> r == sparse_votes(self@, #[trigger] bits_of(lit@, n)),
    {
        proof {
            lemma_fires(self@, lit@, lit@);
        }
        if self.included.len() == 0 {
            return false;
        }
        let mut i: usize = 0;
        while i < self.included.len()
            invariant
                i <= self.included@.len(),
                within(self@.included, 64 * lit@.len()),
                forall|k: int| 0 <= k < i ==> bit_at(lit@, #[trigger] self@.included[k] as int),
            decreases self.included@.len() - i,
        {
            let l: u32 = self.included[i];
            assert(self@.included[i as int] == l);
            if !lit_present(lit, l) {
                return false;
            }
            i = i + 1;
        }
        true
    }

    /// Whether the clause fires in training.
    pub fn fire_train(&self, lit: &[u64], lit_active_mask: &[u64]) -> (r: bool)
        requires
            within(self@.included, 64 * lit@.len()),
            within(self@.included, 64 * lit_active_mask@.len()),
        ensures
            forall|n: nat|
                within(self@.included, n) ==> r == sparse_holds(
                    self@,
                    #[trigger] bits_of(lit@, n),
                    bits_of(lit_active_mask@, n),
                ),
    {
        proof {
            lemma_fires(self@, lit@, lit_active_mask@);
        }
        let mut i: usize = 0;
        while i < self.included.len()
            invariant
                i <= self.included@.len(),
                within(self@.included, 64 * lit@.len()),
                within(self@.included, 64 * lit_active_mask@.len()),
                forall|k: int|
                    0 <= k < i && bit_at(lit_active_mask@, #[trigger] self@.included[k] as int) ==> bit_at(
                        lit@,
                        self@.included[k] as int,
                    ),
            decreases self.included@.len() - i,
        {
            let l: u32 = self.included[i];
            assert(self@.included[i as int] == l);
            if lit_active(lit_active_mask, l) && !lit_present(lit, l) {
                return false;
            }
            i = i + 1;
        }
        true
    }

    /// The number of included literals.
    pub fn n_included(&self) -> (r: usize)
        ensures
            r == self@.included.len(),
    {
        self.included.len()
    }

    /// Applies Type I feedback. A fraction drawn for a penalty is at most `inv`, and one drawn for a
    /// reward is below `keep`.
    pub fn type_i(
        &mut self,
        lit: &[u64],
        lit_active_mask: &[u64],
        fired_under_limit: bool,
        boost: bool,
        rng: &mut Rng,
        inv: u64,
        keep: u64,
        max_included: usize,
        half: u8,
        max_state: u8,
        n_literals: usize,
    )
        requires
            old(self).wf(n_literals as nat, half, max_state),
            n_literals <= 64 * lit@.len(),
            n_literals <= 64 * lit_active_mask@.len(),
            2 <= half <= max_state,
        ensures
            final(self).wf(n_literals as nat, half, max_state),
            (final(self)@, final(rng)@) == sparse_type_i(
                old(self)@,
                old(rng)@,
                (Scan {
                    x: bits_of(lit@, n_literals as nat),
                    act: bits_of(lit_active_mask@, n_literals as nat),
                    fired: fired_under_limit,
                    boost,
                    inv,
                    keep,
                    max_included,
                    half,
                    max: max_state,
                }),
            ),
    {
        let ghost n = n_literals as nat;
        let ghost p = Scan {
            x: bits_of(lit@, n),
            act: bits_of(lit_active_mask@, n),
            fired: fired_under_limit,
            boost,
            inv,
            keep,
            max_included,
            half,
            max: max_state,
        };
        let ghost m0 = self@;
        let ghost s0 = rng@;
        let mut i: usize = 0;
        while i < self.included.len()
            invariant
                i <= self.included@.len(),
                n == n_literals,
                self.wf(n, half, max_state),
                n <= 64 * lit@.len(),
                n <= 64 * lit_active_mask@.len(),
                2 <= half <= max_state,
                p == (Scan {
                    x: bits_of(lit@, n),
                    act: bits_of(lit_active_mask@, n),
                    fired: fired_under_limit,
                    boost,
                    inv,
                    keep,
                    max_included,
                    half,
                    max: max_state,
                }),
                included_scan(self@, rng@, i as nat, p) == included_scan(m0, s0, 0, p),
            decreases self.included@.len() - i,
        {
            let ghost m = self@;
            let l: u32 = self.included[i];
            if lit_active(lit_active_mask, l) {
                let state: u8 = self.included_state[i];
                if lit_present(lit, l) {
                    if fired_under_limit && state < max_state && (boost || rng.next_fraction()
                        < keep) {
                        self.included_state.set(i, state + 1);
                        proof {
                            assert(self@ =~= (SparseModel {
                                included_state: m.included_state.update(i as int, (state + 1) as u8),
                                ..m
                            }));
                        }
                    }
                    i = i + 1;
                } else if state < max_state && rng.next_fraction() <= inv {
                    let lower: u8 = state - 1;
                    if lower < half {
                        proof {
                            lemma_moves(m, n, half, max_state, i as int, lower);
                        }
                        demote_to_excluded(self, i, lower);
                    } else {
                        self.included_state.set(i, lower);
                        proof {
                            assert(self@ =~= (SparseModel {
                                included_state: m.included_state.update(i as int, lower),
                                ..m
                            }));
                        }
                        i = i + 1;
                    }
                } else {
                    i = i + 1;
                }
            } else {
                i = i + 1;
            }
        }
        let ghost m1 = self@;
        let ghost s1 = rng@;
        let mut i: usize = 0;
        while i < self.excluded.len()
            invariant
                i <= self.excluded@.len(),
                n == n_literals,
                self.wf(n, half, max_state),
                n <= 64 * lit@.len(),
                n <= 64 * lit_active_mask@.len(),
                2 <= half <= max_state,
                p == (Scan {
                    x: bits_of(lit@, n),
                    act: bits_of(lit_active_mask@, n),
                    fired: fired_under_limit,
                    boost,
                    inv,
                    keep,
                    max_included,
                    half,
                    max: max_state,
                }),
                excluded_scan(self@, rng@, i as nat, p) == excluded_scan(m1, s1, 0, p),
            decreases self.excluded@.len() - i,
        {
            let ghost m = self@;
            let l: u32 = self.excluded[i];
            if lit_active(lit_active_mask, l) {
                let state: u8 = self.excluded_state[i];
                if lit_present(lit, l) {
                    if fired_under_limit && self.included.len() < max_included && (boost
                        || rng.next_fraction() < keep) {
                        let higher: u8 = if state < max_state {
                            state + 1
                        } else {
                            max_state
                        };
                        if higher >= half {
                            proof {
                                lemma_moves(m, n, half, max_state, i as int, higher);
                            }
                            promote_to_included(self, i, higher);
                        } else {
                            self.excluded_state.set(i, higher);
                            proof {
                                assert(self@ =~= (SparseModel {
                                    excluded_state: m.excluded_state.update(i as int, higher),
                                    ..m
                                }));
                            }
                            i = i + 1;
                        }
                    } else {
                        i = i + 1;
                    }
                } else if rng.next_fraction() <= inv {
                    if state <= ABSORB_EXCLUDE + 1 {
                        proof {
                            lemma_moves(m, n, half, max_state, i as int, 0);
                        }
                        absorb_remove_excluded(self, i);
                    } else {
                        self.excluded_state.set(i, state - 1);
                        proof {
                            assert(self@ =~= (SparseModel {
                                excluded_state: m.excluded_state.update(i as int, (state - 1) as u8),
                                ..m
                            }));
                        }
                        i = i + 1;
                    }
                } else {
                    i = i + 1;
                }
            } else {
                i = i + 1;
            }
        }
    }

    /// Applies Type II feedback.
    pub fn type_ii(
        &mut self,
        lit: &[u64],
        lit_active_mask: &[u64],
        half: u8,
        max_state: u8,
        n_literals: usize,
    )
        requires
            old(self).wf(n_literals as nat, half, max_state),
            n_literals <= 64 * lit@.len(),
            n_literals <= 64 * lit_active_mask@.len(),
            2 <= half <= max_state,
        ensures
            final(self).wf(n_literals as nat, half, max_state),
            final(self)@ == sparse_type_ii(
                old(self)@,
                0,
                bits_of(lit@, n_literals as nat),
                bits_of(lit_active_mask@, n_literals as nat),
                half,
                max_state,
            ),
    {
        let ghost n = n_literals as nat;
        let ghost x = bits_of(lit@, n);
        let ghost act = bits_of(lit_active_mask@, n);
        let ghost m0 = self@;
        let mut i: usize = 0;
        while i < self.excluded.len()
            invariant
                i <= self.excluded@.len(),
                n == n_literals,
                self.wf(n, half, max_state),
                n <= 64 * lit@.len(),
                n <= 64 * lit_active_mask@.len(),
                2 <= half <= max_state,
                x == bits_of(lit@, n),
                act == bits_of(lit_active_mask@, n),
                sparse_type_ii(self@, i as nat, x, act, half, max_state) == sparse_type_ii(
                    m0,
                    0,
                    x,
                    act,
                    half,
                    max_state,
                ),
            decreases self.excluded@.len() - i,
        {
            let ghost m = self@;
            let l: u32 = self.excluded[i];
            let state: u8 = self.excluded_state[i];
            if lit_active(lit_active_mask, l) && !lit_present(lit, l) && state > ABSORB_EXCLUDE {
                let higher: u8 = if state < max_state {
                    state + 1
                } else {
                    max_state
                };
                if higher >= half {
                    proof {
                        lemma_moves(m, n, half, max_state, i as int, higher);
                    }
                    promote_to_included(self, i, higher);
                } else {
                    self.excluded_state.set(i, higher);
                    proof {
                        assert(self@ =~= (SparseModel {
                            excluded_state: m.excluded_state.update(i as int, higher),
                            ..m
                        }));
                    }
                    i = i + 1;
                }
            } else {
                i = i + 1;
            }
        }
    }
}

/// A bank of sparse clauses over the same literals.
#[derive(Clone, Debug)]
pub struct SparseClauseBank {
    pub n_clauses: usize,
    pub n_literals: usize,
    /// The counter from which a literal is included.
    pub half: u8,
    /// The largest counter, at which an included literal is locked.
    pub max_state: u8,
    pub clauses: Vec<SparseClause>,
}

/// A new clause: every literal is a candidate just below inclusion.
pub open spec fn fresh_sparse(n: nat, half: u8) -> SparseModel {
    SparseModel {
        included: seq![],
        included_state: seq![],
        excluded: Seq::new(n, |l: int| l as u32),
        excluded_state: Seq::new(n, |l: int| (half - 1) as u8),
        unallocated: seq![],
    }
}

/// Where a literal moves when the number of features grows.
pub open spec fn remapped(l: u32, old_nf: int, new_nf: int) -> u32 {
    if l >= old_nf {
        (l + (new_nf - old_nf)) as u32
    } else {
        l
    }
}

/// The literals of a pool after the number of features grew.
pub open spec fn remapped_all(a: Seq<u32>, old_nf: int, new_nf: int) -> Seq<u32> {
    Seq::new(a.len(), |i: int| remapped(a[i], old_nf, new_nf))
}

/// The literals that are new when the number of features grows: the new features, then
/// their negations.
pub open spec fn new_literals(old_nf: int, new_nf: int) -> Seq<u32> {
    Seq::new(
        (2 * (new_nf - old_nf)) as nat,
        |i: int|
            if i < new_nf - old_nf {
                (old_nf + i) as u32
            } else {
                (2 * old_nf + i) as u32
            },
    )
}

/// The pools after the number of features grew: the new literals become candidates.
pub open spec fn grown_sparse(m: SparseModel, old_nf: int, new_nf: int, half: u8) -> SparseModel {
    SparseModel {
        included: remapped_all(m.included, old_nf, new_nf),
        included_state: m.included_state,
        excluded: remapped_all(m.excluded, old_nf, new_nf) + new_literals(old_nf, new_nf),
        excluded_state: m.excluded_state + Seq::new(
            (2 * (new_nf - old_nf)) as nat,
            |i: int| (half - 1) as u8,
        ),
        unallocated: remapped_all(m.unallocated, old_nf, new_nf),
    }
}

/// Growing keeps the pools a split, now of the literals of all features.
pub proof fn lemma_grow_splits(m: SparseModel, old_nf: nat, new_nf: nat, half: u8, max: u8)
    requires
        splits(m, 2 * old_nf),
        states_fit(m, half, max),
        old_nf <= new_nf,
        2 * new_nf <= u32::MAX,
        half >= 2,
    ensures
        splits(grown_sparse(m, old_nf as int, new_nf as int, half), 2 * new_nf),
        states_fit(grown_sparse(m, old_nf as int, new_nf as int, half), half, max),
{
    let (o, w) = (old_nf as int, new_nf as int);
    let g = grown_sparse(m, o, w, half);
    lemma_remap_pools(m.included, m.excluded, old_nf, new_nf);
    lemma_remap_pools(m.included, m.unallocated, old_nf, new_nf);
    lemma_remap_pools(m.excluded, m.unallocated, old_nf, new_nf);
    let e = remapped_all(m.excluded, o, w);
    let fresh = new_literals(o, w);
    lemma_fresh_disjoint(m.included, old_nf, new_nf);
    lemma_fresh_disjoint(m.excluded, old_nf, new_nf);
    lemma_fresh_disjoint(m.unallocated, old_nf, new_nf);
    assert forall|i: int, j: int| 0 <= i < j < g.excluded.len() implies #[trigger] g.excluded[i]
        != #[trigger] g.excluded[j] by {
        if j < e.len() {
            assert(e[i] != e[j]);
        } else if i < e.len() {
            assert(e[i] != fresh[j - e.len()]);
        } else {
            assert(fresh[i - e.len()] != fresh[j - e.len()]);
        }
    }
    assert forall|i: int, j: int|
        0 <= i < g.included.len() && 0 <= j < g.excluded.len() implies #[trigger] g.included[i]
        != #[trigger] g.excluded[j] by {
        if j < e.len() {
            assert(g.included[i] != e[j]);
        } else {
            assert(g.included[i] != fresh[j - e.len()]);
        }
    }
    assert forall|i: int, j: int|
        0 <= i < g.excluded.len() && 0 <= j < g.unallocated.len() implies #[trigger] g.excluded[i]
        != #[trigger] g.unallocated[j] by {
        if i < e.len() {
            assert(e[i] != g.unallocated[j]);
        } else {
            assert(g.unallocated[j] != fresh[i - e.len()]);
        }
    }
    assert forall|i: int| 0 <= i < g.excluded.len() implies #[trigger] g.excluded[i] < 2 * new_nf by {
        if i < e.len() {
            assert(e[i] < 2 * new_nf);
        } else {
            assert(fresh[i - e.len()] < 2 * new_nf);
        }
    }
    assert forall|i: int| 0 <= i < g.excluded_state.len() implies ABSORB_EXCLUDE
        < #[trigger] g.excluded_state[i] < half by {
        if i < m.excluded_state.len() {
            assert(g.excluded_state[i] == m.excluded_state[i]);
        }
    }
}

proof fn lemma_remap_pools(a: Seq<u32>, b: Seq<u32>, old_nf: nat, new_nf: nat)
    requires
        distinct(a),
        distinct(b),
        disjoint(a, b),
        within(a, 2 * old_nf),
        within(b, 2 * old_nf),
        old_nf <= new_nf,
        2 * new_nf <= u32::MAX,
    ensures
        distinct(remapped_all(a, old_nf as int, new_nf as int)),
        distinct(remapped_all(b, old_nf as int, new_nf as int)),
        disjoint(
            remapped_all(a, old_nf as int, new_nf as int),
            remapped_all(b, old_nf as int, new_nf as int),
        ),
        within(remapped_all(a, old_nf as int, new_nf as int), 2 * new_nf),
        within(remapped_all(b, old_nf as int, new_nf as int), 2 * new_nf),
{
    let (o, w) = (old_nf as int, new_nf as int);
    let ra = remapped_all(a, o, w);
    let rb = remapped_all(b, o, w);
    assert forall|i: int, j: int| 0 <= i < j < ra.len() implies #[trigger] ra[i] != #[trigger] ra[j] by {
        assert(a[i] != a[j]);
    }
    assert forall|i: int, j: int| 0 <= i < j < rb.len() implies #[trigger] rb[i] != #[trigger] rb[j] by {
        assert(b[i] != b[j]);
    }
    assert forall|i: int, j: int| 0 <= i < ra.len() && 0 <= j < rb.len() implies #[trigger] ra[i]
        != #[trigger] rb[j] by {
        assert(a[i] != b[j]);
    }
    assert forall|i: int| 0 <= i < ra.len() implies #[trigger] ra[i] < 2 * new_nf by {
        assert(a[i] < 2 * old_nf);
    }
    assert forall|i: int| 0 <= i < rb.len() implies #[trigger] rb[i] < 2 * new_nf by {
        assert(b[i] < 2 * old_nf);
    }
}

proof fn lemma_fresh_disjoint(a: Seq<u32>, old_nf: nat, new_nf: nat)
    requires
        within(a, 2 * old_nf),
        old_nf <= new_nf,
        2 * new_nf <= u32::MAX,
    ensures
        disjoint(
            remapped_all(a, old_nf as int, new_nf as int),
            new_literals(old_nf as int, new_nf as int),
        ),
        distinct(new_literals(old_nf as int, new_nf as int)),
        within(new_literals(old_nf as int, new_nf as int), 2 * new_nf),
{
    let (o, w) = (old_nf as int, new_nf as int);
    let ra = remapped_all(a, o, w);
    let fresh = new_literals(o, w);
    assert forall|i: int, j: int| 0 <= i < ra.len() && 0 <= j < fresh.len() implies #[trigger] ra[i]
        != #[trigger] fresh[j] by {
        assert(a[i] < 2 * old_nf);
    }
}

/// Moves the literals of a pool when the number of features grows.
fn remap_pool(pool: &mut Vec<u32>, old_nf: u32, new_nf: u32)
    requires
        within(old(pool)@, (2 * old_nf) as nat),
        old_nf <= new_nf,
        2 * new_nf <= u32::MAX,
    ensures
        final(pool)@ == remapped_all(old(pool)@, old_nf as int, new_nf as int),
{
    let ghost before = pool@;
    let mut i: usize = 0;
    while i < pool.len()
        invariant
            i <= pool@.len(),
            pool@.len() == before.len(),
            within(before, (2 * old_nf) as nat),
            old_nf <= new_nf,
            2 * new_nf <= u32::MAX,
            forall|k: int|
                0 <= k < i ==> #[trigger] pool@[k] == remapped(before[k], old_nf as int, new_nf as int),
            forall|k: int| i <= k < before.len() ==> #[trigger] pool@[k] == before[k],
        decreases pool@.len() - i,
    {
        let l: u32 = pool[i];
        proof {
            assert(before[i as int] < 2 * old_nf);
        }
        if l >= old_nf {
            pool.set(i, l + (new_nf - old_nf));
        }
        i = i + 1;
    }
    proof {
        assert(pool@ =~= remapped_all(before, old_nf as int, new_nf as int));
    }
}

impl SparseClause {
    /// A new clause: every literal is a candidate just below inclusion.
    fn fresh(n_literals: usize, half: u8, max_state: u8) -> (r: Self)
        requires
            n_literals <= u32::MAX,
            2 <= half <= max_state,
        ensures
            r@ == fresh_sparse(n_literals as nat, half),
            r.wf(n_literals as nat, half, max_state),
    {
        let mut excluded: Vec<u32> = Vec::with_capacity(n_literals);
        let mut l: usize = 0;
        while l < n_literals
            invariant
                l <= n_literals <= u32::MAX,
                excluded@ == Seq::new(l as nat, |i: int| i as u32),
            decreases n_literals - l,
        {
            excluded.push(l as u32);
            l = l + 1;
        }
        let r: SparseClause = SparseClause {
            included: Vec::new(),
            included_state: Vec::new(),
            excluded,
            excluded_state: vec![half - 1; n_literals],
            unallocated: Vec::new(),
        };
        proof {
            assert(r@ =~= fresh_sparse(n_literals as nat, half));
        }
        r
    }

    /// Grows the clause to more features.
    fn grow(&mut self, old_nf: u32, new_nf: u32, half: u8, max_state: u8)
        requires
            old(self).wf((2 * old_nf) as nat, half, max_state),
            old_nf <= new_nf,
            2 * new_nf <= u32::MAX,
            2 <= half <= max_state,
        ensures
            final(self).wf((2 * new_nf) as nat, half, max_state),
            final(self)@ == grown_sparse(old(self)@, old_nf as int, new_nf as int, half),
    {
        let ghost m = self@;
        let ghost (o, w) = (old_nf as int, new_nf as int);
        remap_pool(&mut self.included, old_nf, new_nf);
        remap_pool(&mut self.excluded, old_nf, new_nf);
        remap_pool(&mut self.unallocated, old_nf, new_nf);
        let ghost e = self.excluded@;
        let mut i: u32 = 0;
        let total: u32 = 2 * (new_nf - old_nf);
        while i < total
            invariant
                i <= total,
                total == 2 * (new_nf - old_nf),
                old_nf <= new_nf,
                2 * new_nf <= u32::MAX,
                2 <= half,
                o == old_nf,
                w == new_nf,
                self.included@ == remapped_all(m.included, o, w),
                self.included_state@ == m.included_state,
                self.unallocated@ == remapped_all(m.unallocated, o, w),
                self.excluded@ == e + new_literals(o, w).subrange(0, i as int),
                self.excluded_state@ == m.excluded_state + Seq::new(i as nat, |k: int| (half - 1) as u8),
            decreases total - i,
        {
            let l: u32 = if i < new_nf - old_nf {
                old_nf + i
            } else {
                2 * old_nf + i
            };
            self.excluded.push(l);
            self.excluded_state.push(half - 1);
            i = i + 1;
            proof {
                let fresh = new_literals(o, w);
                assert(fresh.subrange(0, i as int) =~= fresh.subrange(0, i - 1).push(fresh[i - 1]));
                assert(Seq::new(i as nat, |k: int| (half - 1) as u8) =~= Seq::new(
                    (i - 1) as nat,
                    |k: int| (half - 1) as u8,
                ).push((half - 1) as u8));
            }
        }
        proof {
            assert(new_literals(o, w).subrange(0, total as int) =~= new_literals(o, w));
            assert(self@ =~= grown_sparse(m, o, w, half));
            lemma_grow_splits(m, old_nf as nat, new_nf as nat, half, max_state);
        }
    }
}

/// The values of the clauses of a bank.
pub open spec fn sparse_models(cs: Seq<SparseClause>) -> Seq<SparseModel> {
    Seq::new(cs.len(), |j: int| cs[j]@)
}

/// How many of the first `n` clauses' included literals are at `max`.
pub open spec fn locked_count(cs: Seq<SparseModel>, max: u8, n: nat) -> nat
    decreases n,
{
    if n == 0 {
        0
    } else {
        locked_count(cs, max, (n - 1) as nat) + count_at(
            cs[n - 1].included_state,
            max,
            cs[n - 1].included_state.len(),
        )
    }
}

/// How many literals the first `n` clauses still track.
pub open spec fn tracked_count(cs: Seq<SparseModel>, n: nat) -> nat
    decreases n,
{
    if n == 0 {
        0
    } else {
        tracked_count(cs, (n - 1) as nat) + cs[n - 1].included.len() + cs[n - 1].excluded.len()
    }
}

/// How many literals the first `n` clauses have absorbed out.
pub open spec fn absorbed_count(cs: Seq<SparseModel>, n: nat) -> nat
    decreases n,
{
    if n == 0 {
        0
    } else {
        absorbed_count(cs, (n - 1) as nat) + cs[n - 1].unallocated.len()
    }
}

impl SparseClauseBank {
    pub open spec fn wf(&self) -> bool {
        &&& self.clauses@.len() == self.n_clauses
        &&& self.n_literals <= u32::MAX
        &&& 2 <= self.half <= 128
        &&& self.max_state == 2 * self.half - 1
        &&& self.n_clauses * self.n_literals <= usize::MAX
        &&& forall|j: int|
            0 <= j < self.n_clauses ==> (#[trigger] self.clauses@[j]).wf(
                self.n_literals as nat,
                self.half,
                self.max_state,
            )
    }

    /// The clauses as values.
    pub open spec fn models(&self) -> Seq<SparseModel> {
        sparse_models(self.clauses@)
    }

    /// A bank of `n_clauses` new clauses.
    pub fn new(n_clauses: usize, n_literals: usize, state_bits: u8) -> (r: Self)
        requires
            n_literals <= u32::MAX,
            2 <= state_bits <= 8,
            n_clauses * n_literals <= usize::MAX,
        ensures
            r.wf(),
            r.n_clauses == n_clauses,
            r.n_literals == n_literals,
            r.half == half_of(state_bits),
            forall|j: int|
                0 <= j < n_clauses ==> #[trigger] r.models()[j] == fresh_sparse(
                    n_literals as nat,
                    half_of(state_bits),
                ),
    {
        let half: u8 = half_from_bits(state_bits);
        let max_state: u8 = half - 1 + half;
        let mut clauses: Vec<SparseClause> = Vec::with_capacity(n_clauses);
        let mut j: usize = 0;
        while j < n_clauses
            invariant
                j <= n_clauses,
                n_literals <= u32::MAX,
                2 <= half <= 128,
                max_state == 2 * half - 1,
                clauses@.len() == j,
                forall|k: int|
                    0 <= k < j ==> (#[trigger] clauses@[k]).wf(n_literals as nat, half, max_state)
                        && clauses@[k]@ == fresh_sparse(n_literals as nat, half),
            decreases n_clauses - j,
        {
            clauses.push(SparseClause::fresh(n_literals, half, max_state));
            j = j + 1;
        }
        SparseClauseBank { n_clauses, n_literals, half, max_state, clauses }
    }

    /// Grows every clause to `new_n_literals` literals, keeping everything learned.
    pub fn grow(&mut self, new_n_literals: usize)
        requires
            old(self).wf(),
            old(self).n_literals <= new_n_literals <= u32::MAX,
            old(self).n_literals % 2 == 0,
            new_n_literals % 2 == 0,
            old(self).n_clauses * new_n_literals <= usize::MAX,
        ensures
            final(self).wf(),
            final(self).n_clauses == old(self).n_clauses,
            final(self).n_literals == new_n_literals,
            final(self).half == old(self).half,
            final(self).max_state == old(self).max_state,
            new_n_literals == old(self).n_literals ==> *final(self) == *old(self),
            new_n_literals > old(self).n_literals ==> forall|j: int|
                0 <= j < final(self).n_clauses ==> #[trigger] final(self).models()[j] == grown_sparse(
                    old(self).models()[j],
                    old(self).n_literals as int / 2,
                    new_n_literals as int / 2,
                    old(self).half,
                ),
    {
        if new_n_literals == self.n_literals {
            return ;
        }
        let ghost before = *self;
        let old_nf: u32 = (self.n_literals / 2) as u32;
        let new_nf: u32 = (new_n_literals / 2) as u32;
        let half: u8 = self.half;
        let max_state: u8 = self.max_state;
        let n: usize = self.clauses.len();
        let mut j: usize = 0;
        while j < n
            invariant
                j <= n,
                before.wf(),
                n == before.n_clauses,
                self.clauses@.len() == n,
                self.n_clauses == before.n_clauses,
                self.n_literals == before.n_literals,
                self.half == half,
                self.max_state == max_state,
                half == before.half,
                max_state == before.max_state,
                2 * old_nf == before.n_literals,
                2 * new_nf == new_n_literals,
                old_nf <= new_nf,
                2 * new_nf <= u32::MAX,
                forall|k: int| j <= k < n ==> #[trigger] self.clauses@[k] == before.clauses@[k],
                forall|k: int|
                    0 <= k < j ==> (#[trigger] self.clauses@[k]).wf(
                        new_n_literals as nat,
                        half,
                        max_state,
                    ) && self.clauses@[k]@ == grown_sparse(
                        before.clauses@[k]@,
                        old_nf as int,
                        new_nf as int,
                        half,
                    ),
            decreases n - j,
        {
            proof {
                assert(before.clauses@[j as int].wf(before.n_literals as nat, half, max_state));
            }
            let c: &mut SparseClause = &mut self.clauses[j];
            c.grow(old_nf, new_nf, half, max_state);
            j = j + 1;
        }
        self.n_literals = new_n_literals;
    }

    /// The inclusion threshold and the largest counter.
    pub fn dims(&self) -> (r: (u8, u8))
        ensures
            r == (self.half, self.max_state),
    {
        (self.half, self.max_state)
    }

    /// The clauses, to be trained one by one.
    pub fn clauses_mut(&mut self) -> (r: &mut Vec<SparseClause>)
        ensures
            r@ == old(self).clauses@,
            final(self).clauses@ == final(r)@,
            final(self).n_clauses == old(self).n_clauses,
            final(self).n_literals == old(self).n_literals,
            final(self).half == old(self).half,
            final(self).max_state == old(self).max_state,
    {
        &mut self.clauses
    }

    /// Whether clause `cj` fires in inference.
    pub fn fire_predict(&self, cj: usize, lit: &[u64]) -> (r: bool)
        requires
            self.wf(),
            cj < self.n_clauses,
            within(self.models()[cj as int].included, 64 * lit@.len()),
        ensures
            r == sparse_votes(self.models()[cj as int], bits_of(lit@, self.n_literals as nat)),
    {
        proof {
            let c = self.clauses@[cj as int];
            assert(c.wf(self.n_literals as nat, self.half, self.max_state));
        }
        self.clauses[cj].fire_predict(lit)
    }

    /// Whether clause `cj` fires in training.
    pub fn fire_train(&self, cj: usize, lit: &[u64], lit_active_mask: &[u64]) -> (r: bool)
        requires
            self.wf(),
            cj < self.n_clauses,
            within(self.models()[cj as int].included, 64 * lit@.len()),
            within(self.models()[cj as int].included, 64 * lit_active_mask@.len()),
        ensures
            r == sparse_holds(
                self.models()[cj as int],
                bits_of(lit@, self.n_literals as nat),
                bits_of(lit_active_mask@, self.n_literals as nat),
            ),
    {
        proof {
            let c = self.clauses@[cj as int];
            assert(c.wf(self.n_literals as nat, self.half, self.max_state));
        }
        self.clauses[cj].fire_train(lit, lit_active_mask)
    }

    /// The included literals of clause `cj`.
    pub fn included_literals(&self, cj: usize) -> (r: &Vec<u32>)
        requires
            self.wf(),
            cj < self.n_clauses,
        ensures
            r@ == self.models()[cj as int].included,
    {
        &self.clauses[cj].included
    }

    /// The number of included literals of clause `cj`.
    pub fn n_included(&self, cj: usize) -> (r: usize)
        requires
            self.wf(),
            cj < self.n_clauses,
        ensures
            r == self.models()[cj as int].included.len(),
    {
        self.clauses[cj].included.len()
    }

    /// The number of counters, over all clauses.
    pub fn total_literals(&self) -> (r: usize)
        requires
            self.wf(),
        ensures
            r == self.n_clauses * self.n_literals,
    {
        self.n_clauses * self.n_literals
    }

    /// How many included literals are locked, and how many literals are still tracked.
    pub fn count_absorbing_include(&self) -> (r: (usize, usize))
        requires
            self.wf(),
        ensures
            r.0 == locked_count(self.models(), self.max_state, self.n_clauses as nat),
            r.1 == tracked_count(self.models(), self.n_clauses as nat),
    {
        let ghost m = self.models();
        let mut at_max: usize = 0;
        let mut total: usize = 0;
        let mut j: usize = 0;
        proof {
            assert(0 * self.n_literals == 0) by (nonlinear_arith);
        }
        while j < self.clauses.len()
            invariant
                self.wf(),
                m == self.models(),
                j <= self.clauses@.len(),
                at_max == locked_count(m, self.max_state, j as nat),
                total == tracked_count(m, j as nat),
                at_max <= total <= j * self.n_literals,
            decreases self.clauses@.len() - j,
        {
            let c: &SparseClause = &self.clauses[j];
            proof {
                let n = self.n_literals as int;
                let k = self.n_clauses as int;
                assert(self.clauses@[j as int].wf(self.n_literals as nat, self.half, self.max_state));
                assert((j + 1) * n == j * n + n) by (nonlinear_arith);
                assert((j + 1) * n <= k * n) by (nonlinear_arith)
                    requires
                        j + 1 <= k,
                        n >= 0,
                ;
            }
            let mut at: usize = 0;
            let mut i: usize = 0;
            while i < c.included_state.len()
                invariant
                    i <= c.included_state@.len(),
                    at <= i,
                    at == count_at(
                        c.included_state@,
                        self.max_state,
                        i as nat,
                    ),
                decreases c.included_state@.len() - i,
            {
                if c.included_state[i] == self.max_state {
                    at = at + 1;
                }
                i = i + 1;
            }
            at_max = at_max + at;
            total = total + (c.included.len() + c.excluded.len());
            j = j + 1;
        }
        (at_max, total)
    }

    /// How many literals have been absorbed out.
    pub fn count_absorbed_exclude(&self) -> (r: usize)
        requires
            self.wf(),
        ensures
            r == absorbed_count(self.models(), self.n_clauses as nat),
    {
        let ghost m = self.models();
        let mut total: usize = 0;
        let mut j: usize = 0;
        proof {
            assert(0 * self.n_literals == 0) by (nonlinear_arith);
        }
        while j < self.clauses.len()
            invariant
                self.wf(),
                m == self.models(),
                j <= self.clauses@.len(),
                total == absorbed_count(m, j as nat),
                total <= j * self.n_literals,
            decreases self.clauses@.len() - j,
        {
            proof {
                let n = self.n_literals as int;
                let k = self.n_clauses as int;
                assert(self.clauses@[j as int].wf(self.n_literals as nat, self.half, self.max_state));
                assert((j + 1) * n == j * n + n) by (nonlinear_arith);
                assert((j + 1) * n <= k * n) by (nonlinear_arith)
                    requires
                        j + 1 <= k,
                        n >= 0,
                ;
            }
            total = total + self.clauses[j].unallocated.len();
            j = j + 1;
        }
        total
    }
}

/// `b` begins with `a`.
pub open spec fn begins_with(b: Seq<u32>, a: Seq<u32>) -> bool {
    a.len() <= b.len() && forall|k: int| 0 <= k < a.len() ==> #[trigger] b[k] == a[k]
}

proof fn lemma_included_scan_keeps(m: SparseModel, s: u64, i: nat, p: Scan)
    ensures
        included_scan(m, s, i, p).0.unallocated == m.unallocated,
    decreases m.included.len() - i,
{
    if i < m.included.len() {
        let l = m.included[i as int] as int;
        let state = m.included_state[i as int];
        let up = SparseModel {
            included_state: m.included_state.update(i as int, (state + 1) as u8),
            ..m
        };
        let down = SparseModel {
            included_state: m.included_state.update(i as int, (state - 1) as u8),
            ..m
        };
        lemma_included_scan_keeps(m, s, i + 1, p);
        lemma_included_scan_keeps(m, rng_next(s), i + 1, p);
        lemma_included_scan_keeps(up, s, i + 1, p);
        lemma_included_scan_keeps(up, rng_next(s), i + 1, p);
        lemma_included_scan_keeps(down, rng_next(s), i + 1, p);
        lemma_included_scan_keeps(demoted(m, i as int, (state - 1) as u8), rng_next(s), i, p);
    }
}

proof fn lemma_excluded_scan_absorbs(m: SparseModel, s: u64, i: nat, p: Scan)
    ensures
        begins_with(excluded_scan(m, s, i, p).0.unallocated, m.unallocated),
    decreases m.excluded.len() - i,
{
    if i < m.excluded.len() {
        let state = m.excluded_state[i as int];
        let higher = if state < p.max {
            (state + 1) as u8
        } else {
            p.max
        };
        let up = SparseModel { excluded_state: m.excluded_state.update(i as int, higher), ..m };
        let down = SparseModel {
            excluded_state: m.excluded_state.update(i as int, (state - 1) as u8),
            ..m
        };
        lemma_excluded_scan_absorbs(m, s, i + 1, p);
        lemma_excluded_scan_absorbs(m, rng_next(s), i + 1, p);
        lemma_excluded_scan_absorbs(up, s, i + 1, p);
        lemma_excluded_scan_absorbs(up, rng_next(s), i + 1, p);
        lemma_excluded_scan_absorbs(down, rng_next(s), i + 1, p);
        lemma_excluded_scan_absorbs(promoted(m, i as int, higher), s, i, p);
        lemma_excluded_scan_absorbs(promoted(m, i as int, higher), rng_next(s), i, p);
        lemma_excluded_scan_absorbs(absorbed(m, i as int), rng_next(s), i, p);
        let a = excluded_scan(absorbed(m, i as int), rng_next(s), i, p).0.unallocated;
        assert forall|k: int| begins_with(a, absorbed(m, i as int).unallocated) && 0 <= k
            < m.unallocated.len() implies #[trigger] a[k] == m.unallocated[k] by {
            assert(a[k] == absorbed(m, i as int).unallocated[k]);
        }
    }
}

proof fn lemma_type_ii_keeps(m: SparseModel, i: nat, x: Seq<bool>, act: Seq<bool>, half: u8, max: u8)
    ensures
        sparse_type_ii(m, i, x, act, half, max).unallocated == m.unallocated,
    decreases m.excluded.len() - i,
{
    if i < m.excluded.len() {
        let state = m.excluded_state[i as int];
        let higher = if state < max {
            (state + 1) as u8
        } else {
            max
        };
        let up = SparseModel { excluded_state: m.excluded_state.update(i as int, higher), ..m };
        lemma_type_ii_keeps(m, i + 1, x, act, half, max);
        lemma_type_ii_keeps(up, i + 1, x, act, half, max);
        lemma_type_ii_keeps(promoted(m, i as int, higher), i, x, act, half, max);
    }
}

/// Literals that were absorbed out of a clause never come back: Type I feedback may only add to
/// them, and Type II feedback leaves them as they are.
pub proof fn lemma_absorbed_stay(m: SparseModel, s: u64, p: Scan, x: Seq<bool>, act: Seq<bool>, half: u8, max: u8)
    ensures
        begins_with(sparse_type_i(m, s, p).0.unallocated, m.unallocated),
        sparse_type_ii(m, 0, x, act, half, max).unallocated == m.unallocated,
{
    lemma_included_scan_keeps(m, s, 0, p);
    let (m1, s1) = included_scan(m, s, 0, p);
    lemma_excluded_scan_absorbs(m1, s1, 0, p);
    lemma_type_ii_keeps(m, 0, x, act, half, max);
}

/// Growing does not change how a clause votes: the new literals are not included, and the old ones
/// keep their features.
pub proof fn lemma_grow_keeps_sparse_votes(m: SparseModel, old_nf: nat, new_nf: nat, half: u8, x: Seq<u8>, wide: Seq<u8>)
    requires
        within(m.included, 2 * old_nf),
        old_nf <= new_nf,
        2 * new_nf <= u32::MAX,
        x.len() == old_nf,
        wide.len() == new_nf,
        forall|i: int| 0 <= i < old_nf ==> #[trigger] wide[i] == x[i],
    ensures
        sparse_votes(
            grown_sparse(m, old_nf as int, new_nf as int, half),
            literals_of(wide, new_nf as int),
        ) == sparse_votes(m, literals_of(x, old_nf as int)),
{
    let g = grown_sparse(m, old_nf as int, new_nf as int, half);
    let gx = literals_of(wide, new_nf as int);
    let ox = literals_of(x, old_nf as int);
    assert forall|i: int| 0 <= i < m.included.len() implies gx[#[trigger] g.included[i] as int]
        == ox[m.included[i] as int] by {
        let l = m.included[i] as int;
        assert(l < 2 * old_nf);
        if l < old_nf {
            assert(wide[l] == x[l]);
        } else {
            assert(wide[l - old_nf] == x[l - old_nf]);
        }
    }
    if sparse_votes(m, ox) {
        assert forall|i: int| 0 <= i < g.included.len() implies gx[#[trigger] g.included[i] as int] by {
            assert(ox[m.included[i] as int]);
        }
    }
    if sparse_votes(g, gx) {
        assert forall|i: int| 0 <= i < m.included.len() implies ox[#[trigger] m.included[i] as int] by {
            assert(gx[g.included[i] as int]);
        }
    }
}

/// Literal `l` is in the pool.
pub open spec fn pooled(a: Seq<u32>, l: int) -> bool {
    exists|i: int| 0 <= i < a.len() && #[trigger] a[i] == l
}

/// Every literal of a clause is in exactly one of its pools.
pub proof fn lemma_pools_cover(m: SparseModel, n: nat, l: int)
    requires
        splits(m, n),
        0 <= l < n,
    ensures
        pooled(m.included, l) || pooled(m.excluded, l) || pooled(m.unallocated, l),
        !(pooled(m.included, l) && pooled(m.excluded, l)),
        !(pooled(m.included, l) && pooled(m.unallocated, l)),
        !(pooled(m.excluded, l) && pooled(m.unallocated, l)),
{
    let a = m.included.len() as int;
    let b = a + m.excluded.len();
    let all = Seq::new(
        n,
        |i: int|
            if i < a {
                m.included[i] as int
            } else if i < b {
                m.excluded[i - a] as int
            } else {
                m.unallocated[i - b] as int
            },
    );
    let range = vstd::set_lib::set_int_range(0, n as int);
    vstd::set_lib::lemma_int_range(0, n as int);
    assert(all.no_duplicates());
    all.unique_seq_to_set();
    assert(all.to_set().subset_of(range)) by {
        assert forall|k: int| #[trigger] all.to_set().contains(k) implies range.contains(k) by {
            let i = choose|i: int| 0 <= i < all.len() && all[i] == k;
            assert(0 <= all[i] < n);
        }
    }
    vstd::set_lib::lemma_subset_equality(all.to_set(), range);
    assert(all.to_set().contains(l));
    let i = choose|i: int| 0 <= i < all.len() && all[i] == l;
    if i < a {
        assert(m.included[i] == l);
    } else if i < b {
        assert(m.excluded[i - a] == l);
    } else {
        assert(m.unallocated[i - b] == l);
    }
}

proof fn lemma_counts_to(b: &SparseClauseBank, k: nat)
    requires
        b.wf(),
        k <= b.n_clauses,
    ensures
        tracked_count(b.models(), k) + absorbed_count(b.models(), k) == k * b.n_literals,
        locked_count(b.models(), b.max_state, k) <= tracked_count(b.models(), k),
    decreases k,
{
    let n = b.n_literals as int;
    if k > 0 {
        lemma_counts_to(b, (k - 1) as nat);
        assert(b.clauses@[k - 1].wf(b.n_literals as nat, b.half, b.max_state));
        let c = b.models()[k - 1];
        lemma_count_at_most(c.included_state, b.max_state, c.included_state.len());
        assert(k * n == (k - 1) * n + n) by (nonlinear_arith);
    } else {
        assert(0 * n == 0) by (nonlinear_arith);
    }
}

proof fn lemma_count_at_most(s: Seq<u8>, v: u8, n: nat)
    ensures
        count_at(s, v, n) <= n,
    decreases n,
{
    if n > 0 {
        lemma_count_at_most(s, v, (n - 1) as nat);
    }
}

/// The literals that a bank still tracks and those it has absorbed out are all its literals, and
/// the locked ones are among the tracked.
pub proof fn lemma_counts_add_up(b: &SparseClauseBank)
    requires
        b.wf(),
    ensures
        tracked_count(b.models(), b.n_clauses as nat) + absorbed_count(b.models(), b.n_clauses as nat)
            == b.n_clauses * b.n_literals,
        locked_count(b.models(), b.max_state, b.n_clauses as nat) <= tracked_count(
            b.models(),
            b.n_clauses as nat,
        ),
{
    lemma_counts_to(b, b.n_clauses as nat);
}

/// New clauses track all their literals; none is locked and none is absorbed out.
pub proof fn lemma_fresh_counts(cs: Seq<SparseModel>, n_literals: nat, half: u8, max: u8, k: nat)
    requires
        k <= cs.len(),
        forall|j: int| 0 <= j < k ==> #[trigger] cs[j] == fresh_sparse(n_literals, half),
    ensures
        locked_count(cs, max, k) == 0,
        tracked_count(cs, k) == k * n_literals,
        absorbed_count(cs, k) == 0,
    decreases k,
{
    if k > 0 {
        lemma_fresh_counts(cs, n_literals, half, max, (k - 1) as nat);
        assert(cs[k - 1] == fresh_sparse(n_literals, half));
        assert(k * n_literals == (k - 1) * n_literals + n_literals) by (nonlinear_arith);
    } else {
        assert(0 * n_literals == 0) by (nonlinear_arith);
    }
}

/// A bank that grew from `b` to `w` votes on every sample as before, whatever its new features
/// are, and includes only what it included.
pub proof fn lemma_bank_grow_keeps_votes(b: &SparseClauseBank, w: &SparseClauseBank, cj: int, x: Seq<u8>, wide: Seq<u8>)
    requires
        b.wf(),
        w.wf(),
        0 <= cj < b.n_clauses,
        w.n_clauses == b.n_clauses,
        b.n_literals == 2 * x.len(),
        w.n_literals == 2 * wide.len(),
        x.len() <= wide.len(),
        forall|i: int| 0 <= i < x.len() ==> #[trigger] wide[i] == x[i],
        w.models()[cj] == if w.n_literals == b.n_literals {
            b.models()[cj]
        } else {
            grown_sparse(
                b.models()[cj],
                b.n_literals as int / 2,
                w.n_literals as int / 2,
                b.half,
            )
        },
    ensures
        sparse_votes(w.models()[cj], literals_of(wide, wide.len() as int)) == sparse_votes(
            b.models()[cj],
            literals_of(x, x.len() as int),
        ),
        w.models()[cj].included.len() == b.models()[cj].included.len(),
        splits(w.models()[cj], w.n_literals as nat),
{
    assert(b.clauses@[cj].wf(b.n_literals as nat, b.half, b.max_state));
    assert(w.clauses@[cj].wf(w.n_literals as nat, w.half, w.max_state));
    if w.n_literals == b.n_literals {
        assert(wide =~= x);
    } else {
        lemma_grow_keeps_sparse_votes(b.models()[cj], x.len(), wide.len(), b.half, x, wide);
    }
}

} // verus!
