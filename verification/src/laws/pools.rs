//! A sparse clause learns as a dense one does.
use crate::clause_bank::dense::type_ii_counter;
use crate::clause_bank::sparse::{
    absorbed, demoted, excluded_scan, included_scan, promoted, sparse_type_i, sparse_type_ii,
    states_fit, Scan, SparseModel, ABSORB_EXCLUDE,
};
use crate::rng::{rng_frac, rng_next, rng_word};
use vstd::prelude::*;

verus! {

/// Literal `l` stands at state `v` in the pools of a clause; a literal that was given up is at
/// state 0.
pub open spec fn stands_at(m: SparseModel, l: u32, v: u8) -> bool {
    ||| exists|i: int|
        0 <= i < m.included.len() && #[trigger] m.included[i] == l && m.included_state[i] == v
    ||| exists|i: int|
        0 <= i < m.excluded.len() && #[trigger] m.excluded[i] == l && m.excluded_state[i] == v
    ||| v == 0 && m.unallocated.contains(l)
}

spec fn matched(m: SparseModel) -> bool {
    m.included_state.len() == m.included.len() && m.excluded_state.len() == m.excluded.len()
}

spec fn raised(state: u8, max: u8) -> u8 {
    if state < max {
        (state + 1) as u8
    } else {
        max
    }
}

proof fn lemma_promoted(m: SparseModel, i: int, state: u8)
    requires
        matched(m),
        0 <= i < m.excluded.len(),
    ensures
        ({
            let w = promoted(m, i, state);
            &&& matched(w)
            &&& w.excluded.len() == m.excluded.len() - 1
            &&& w.included.len() == m.included.len() + 1
            &&& w.included[m.included.len() as int] == m.excluded[i]
            &&& w.included_state[m.included.len() as int] == state
            &&& forall|q: int|
                0 <= q < m.included.len() ==> #[trigger] w.included[q] == m.included[q]
                    && w.included_state[q] == m.included_state[q]
            &&& forall|q: int|
                0 <= q < w.excluded.len() ==> #[trigger] w.excluded[q] == if q == i {
                    m.excluded[m.excluded.len() - 1]
                } else {
                    m.excluded[q]
                }
            &&& forall|q: int|
                0 <= q < w.excluded.len() ==> #[trigger] w.excluded_state[q] == if q == i {
                    m.excluded_state[m.excluded.len() - 1]
                } else {
                    m.excluded_state[q]
                }
        }),
{
}

proof fn lemma_included_stays(
    m: SparseModel,
    i: nat,
    x: Seq<bool>,
    act: Seq<bool>,
    half: u8,
    max: u8,
    q: int,
)
    requires
        matched(m),
        0 <= q < m.included.len(),
    ensures
        ({
            let r = sparse_type_ii(m, i, x, act, half, max);
            &&& q < r.included.len()
            &&& r.included[q] == m.included[q]
            &&& r.included_state[q] == m.included_state[q]
        }),
    decreases m.excluded.len() - i,
{
    if i < m.excluded.len() {
        let l = m.excluded[i as int] as int;
        let state = m.excluded_state[i as int];
        let higher = raised(state, max);
        if act[l] && !x[l] && state > ABSORB_EXCLUDE {
            if higher >= half {
                lemma_promoted(m, i as int, higher);
                lemma_included_stays(promoted(m, i as int, higher), i, x, act, half, max, q);
            } else {
                let w = SparseModel {
                    excluded_state: m.excluded_state.update(i as int, higher),
                    ..m
                };
                lemma_included_stays(w, i + 1, x, act, half, max, q);
            }
        } else {
            lemma_included_stays(m, i + 1, x, act, half, max, q);
        }
    }
}

proof fn lemma_passed_stays(
    m: SparseModel,
    i: nat,
    x: Seq<bool>,
    act: Seq<bool>,
    half: u8,
    max: u8,
    j: int,
)
    requires
        matched(m),
        0 <= j < i,
        j < m.excluded.len(),
    ensures
        ({
            let r = sparse_type_ii(m, i, x, act, half, max);
            &&& j < r.excluded.len()
            &&& r.excluded[j] == m.excluded[j]
            &&& r.excluded_state[j] == m.excluded_state[j]
        }),
    decreases m.excluded.len() - i,
{
    if i < m.excluded.len() {
        let l = m.excluded[i as int] as int;
        let state = m.excluded_state[i as int];
        let higher = raised(state, max);
        if act[l] && !x[l] && state > ABSORB_EXCLUDE {
            if higher >= half {
                lemma_promoted(m, i as int, higher);
                let w = promoted(m, i as int, higher);
                assert(w.excluded[j] == m.excluded[j]);
                assert(w.excluded_state[j] == m.excluded_state[j]);
                lemma_passed_stays(w, i, x, act, half, max, j);
            } else {
                let w = SparseModel {
                    excluded_state: m.excluded_state.update(i as int, higher),
                    ..m
                };
                lemma_passed_stays(w, i + 1, x, act, half, max, j);
            }
        } else {
            lemma_passed_stays(m, i + 1, x, act, half, max, j);
        }
    }
}

proof fn lemma_ahead_moves(
    m: SparseModel,
    i: nat,
    x: Seq<bool>,
    act: Seq<bool>,
    half: u8,
    max: u8,
    j: int,
)
    requires
        matched(m),
        i <= j < m.excluded.len(),
        0 < m.excluded_state[j] < half,
        half <= max,
    ensures
        stands_at(
            sparse_type_ii(m, i, x, act, half, max),
            m.excluded[j],
            type_ii_counter(
                m.excluded_state[j],
                x[m.excluded[j] as int],
                act[m.excluded[j] as int],
                half,
                max,
            ),
        ),
    decreases m.excluded.len() - i,
{
    let r = sparse_type_ii(m, i, x, act, half, max);
    let l = m.excluded[i as int] as int;
    let state = m.excluded_state[i as int];
    let higher = raised(state, max);
    if act[l] && !x[l] && state > ABSORB_EXCLUDE {
        if higher >= half {
            lemma_promoted(m, i as int, higher);
            let w = promoted(m, i as int, higher);
            if j == i {
                let q = m.included.len() as int;
                lemma_included_stays(w, i, x, act, half, max, q);
                assert(r.included[q] == m.excluded[j]);
            } else {
                let k = if j == m.excluded.len() - 1 {
                    i as int
                } else {
                    j
                };
                assert(w.excluded[k] == m.excluded[j]);
                assert(w.excluded_state[k] == m.excluded_state[j]);
                lemma_ahead_moves(w, i, x, act, half, max, k);
            }
        } else {
            let w = SparseModel {
                excluded_state: m.excluded_state.update(i as int, higher),
                ..m
            };
            if j == i {
                lemma_passed_stays(w, i + 1, x, act, half, max, j);
                assert(r.excluded[j] == m.excluded[j]);
            } else {
                lemma_ahead_moves(w, i + 1, x, act, half, max, j);
            }
        }
    } else {
        if j == i {
            lemma_passed_stays(m, i + 1, x, act, half, max, j);
            assert(r.excluded[j] == m.excluded[j]);
        } else {
            lemma_ahead_moves(m, i + 1, x, act, half, max, j);
        }
    }
}

proof fn lemma_given_up_stays(
    m: SparseModel,
    i: nat,
    x: Seq<bool>,
    act: Seq<bool>,
    half: u8,
    max: u8,
)
    ensures
        sparse_type_ii(m, i, x, act, half, max).unallocated == m.unallocated,
    decreases m.excluded.len() - i,
{
    if i < m.excluded.len() {
        let higher = raised(m.excluded_state[i as int], max);
        let w = SparseModel { excluded_state: m.excluded_state.update(i as int, higher), ..m };
        lemma_given_up_stays(m, i + 1, x, act, half, max);
        lemma_given_up_stays(w, i + 1, x, act, half, max);
        lemma_given_up_stays(promoted(m, i as int, higher), i, x, act, half, max);
    }
}

/// Type II feedback to a sparse clause moves every literal as it moves the counter of a dense one,
/// in whichever pool and at whichever place the literal stands.
pub proof fn lemma_sparse_moves_as_dense(
    m: SparseModel,
    x: Seq<bool>,
    act: Seq<bool>,
    half: u8,
    max: u8,
    l: u32,
    v: u8,
)
    requires
        states_fit(m, half, max),
        1 <= half <= max,
        stands_at(m, l, v),
    ensures
        stands_at(
            sparse_type_ii(m, 0, x, act, half, max),
            l,
            type_ii_counter(v, x[l as int], act[l as int], half, max),
        ),
{
    let r = sparse_type_ii(m, 0, x, act, half, max);
    if exists|i: int|
        0 <= i < m.included.len() && #[trigger] m.included[i] == l && m.included_state[i] == v {
        let i = choose|i: int|
            0 <= i < m.included.len() && #[trigger] m.included[i] == l && m.included_state[i] == v;
        assert(half <= m.included_state[i] <= max);
        lemma_included_stays(m, 0, x, act, half, max, i);
        assert(r.included[i] == l);
    } else if exists|i: int|
        0 <= i < m.excluded.len() && #[trigger] m.excluded[i] == l && m.excluded_state[i] == v {
        let i = choose|i: int|
            0 <= i < m.excluded.len() && #[trigger] m.excluded[i] == l && m.excluded_state[i] == v;
        assert(ABSORB_EXCLUDE < m.excluded_state[i] < half);
        lemma_ahead_moves(m, 0, x, act, half, max, i);
    } else {
        lemma_given_up_stays(m, 0, x, act, half, max);
    }
}

/// Nothing is left to chance: present literals are always rewarded, absent ones always penalised,
/// and the number of included literals is not limited.
pub open spec fn certain(p: Scan, literals: nat) -> bool {
    p.boost && p.inv >= 0x1F_FFFF_FFFF_FFFF && literals <= p.max_included && 2 <= p.half < p.max
}

proof fn lemma_fraction_small(s: u64)
    ensures
        rng_frac(s) <= 0x1F_FFFF_FFFF_FFFF,
{
    let w = rng_word(s);
    assert(w >> 11u64 <= 0x1F_FFFF_FFFF_FFFFu64) by (bit_vector);
}

proof fn lemma_demoted(m: SparseModel, i: int, state: u8)
    requires
        matched(m),
        0 <= i < m.included.len(),
    ensures
        ({
            let w = demoted(m, i, state);
            &&& matched(w)
            &&& w.included.len() == m.included.len() - 1
            &&& w.excluded.len() == m.excluded.len() + 1
            &&& w.excluded[m.excluded.len() as int] == m.included[i]
            &&& w.excluded_state[m.excluded.len() as int] == state
            &&& forall|q: int|
                0 <= q < m.excluded.len() ==> #[trigger] w.excluded[q] == m.excluded[q]
                    && w.excluded_state[q] == m.excluded_state[q]
            &&& forall|q: int|
                0 <= q < w.included.len() ==> #[trigger] w.included[q] == if q == i {
                    m.included[m.included.len() - 1]
                } else {
                    m.included[q]
                }
            &&& forall|q: int|
                0 <= q < w.included.len() ==> #[trigger] w.included_state[q] == if q == i {
                    m.included_state[m.included.len() - 1]
                } else {
                    m.included_state[q]
                }
        }),
{
}

proof fn lemma_absorbed(m: SparseModel, i: int)
    requires
        matched(m),
        0 <= i < m.excluded.len(),
    ensures
        ({
            let w = absorbed(m, i);
            &&& matched(w)
            &&& w.excluded.len() == m.excluded.len() - 1
            &&& w.included == m.included && w.included_state == m.included_state
            &&& w.unallocated == m.unallocated.push(m.excluded[i])
            &&& forall|q: int|
                0 <= q < w.excluded.len() ==> #[trigger] w.excluded[q] == if q == i {
                    m.excluded[m.excluded.len() - 1]
                } else {
                    m.excluded[q]
                }
            &&& forall|q: int|
                0 <= q < w.excluded.len() ==> #[trigger] w.excluded_state[q] == if q == i {
                    m.excluded_state[m.excluded.len() - 1]
                } else {
                    m.excluded_state[q]
                }
        }),
{
}

spec fn extends<A>(b: Seq<A>, a: Seq<A>) -> bool {
    a.len() <= b.len() && forall|q: int| 0 <= q < a.len() ==> #[trigger] b[q] == a[q]
}

proof fn lemma_included_scan_rest(m: SparseModel, s: u64, i: nat, p: Scan)
    requires
        matched(m),
        certain(p, m.included.len() + m.excluded.len()),
    ensures
        ({
            let r = included_scan(m, s, i, p).0;
            &&& matched(r)
            &&& extends(r.excluded, m.excluded)
            &&& extends(r.excluded_state, m.excluded_state)
            &&& r.unallocated == m.unallocated
            &&& r.included.len() + r.excluded.len() == m.included.len() + m.excluded.len()
            &&& i <= m.included.len() ==> i <= r.included.len()
            &&& i > m.included.len() ==> m.included.len() == r.included.len()
            &&& forall|q: int|
                0 <= q < i && q < m.included.len() ==> #[trigger] r.included[q] == m.included[q]
            &&& forall|q: int|
                0 <= q < i && q < m.included.len() ==> #[trigger] r.included_state[q]
                    == m.included_state[q]
        }),
    decreases m.included.len() - i,
{
    if i < m.included.len() {
        lemma_fraction_small(s);
        let at = i as int;
        let l = m.included[at] as int;
        let state = m.included_state[at];
        let s1 = rng_next(s);
        if !p.act[l] {
            lemma_included_scan_rest(m, s, i + 1, p);
        } else if p.x[l] {
            if p.fired && state < p.max {
                let w = SparseModel {
                    included_state: m.included_state.update(at, (state + 1) as u8),
                    ..m
                };
                lemma_included_scan_rest(w, s, i + 1, p);
            } else {
                lemma_included_scan_rest(m, s, i + 1, p);
            }
        } else if state < p.max {
            let lower = (state - 1) as u8;
            if lower < p.half {
                let w = demoted(m, at, lower);
                lemma_demoted(m, at, lower);
                lemma_included_scan_rest(w, s1, i, p);
                let r = included_scan(m, s, i, p).0;
                assert forall|q: int| 0 <= q < m.excluded.len() implies #[trigger] r.excluded[q]
                    == m.excluded[q] && r.excluded_state[q] == m.excluded_state[q] by {
                    assert(w.excluded[q] == m.excluded[q]);
                    assert(r.excluded[q] == w.excluded[q]);
                    assert(r.excluded_state[q] == w.excluded_state[q]);
                }
                assert forall|q: int| 0 <= q < m.excluded.len() implies #[trigger] r.excluded_state[q]
                    == m.excluded_state[q] by {
                    assert(r.excluded[q] == m.excluded[q]);
                }
                assert forall|q: int| 0 <= q < i && q < m.included.len() implies
                    #[trigger] r.included[q] == m.included[q] && r.included_state[q]
                    == m.included_state[q] by {
                    assert(w.included[q] == m.included[q]);
                    assert(w.included_state[q] == m.included_state[q]);
                    assert(r.included[q] == w.included[q]);
                    assert(r.included_state[q] == w.included_state[q]);
                }
                assert forall|q: int| 0 <= q < i && q < m.included.len() implies
                    #[trigger] r.included_state[q] == m.included_state[q] by {
                    assert(r.included[q] == m.included[q]);
                }
            } else {
                let w = SparseModel { included_state: m.included_state.update(at, lower), ..m };
                lemma_included_scan_rest(w, s1, i + 1, p);
            }
        } else {
            lemma_included_scan_rest(m, s, i + 1, p);
        }
    }
}

spec fn included_after(v: u8, present: bool, active: bool, p: Scan) -> u8 {
    if !active || v >= p.max {
        v
    } else if present {
        if p.fired {
            (v + 1) as u8
        } else {
            v
        }
    } else {
        (v - 1) as u8
    }
}

proof fn lemma_included_scan_ahead(m: SparseModel, s: u64, i: nat, p: Scan, q: int)
    requires
        matched(m),
        certain(p, m.included.len() + m.excluded.len()),
        i <= q < m.included.len(),
        p.half <= m.included_state[q] <= p.max,
    ensures
        ({
            let r = included_scan(m, s, i, p).0;
            let l = m.included[q];
            let v = included_after(
                m.included_state[q],
                p.x[l as int],
                p.act[l as int],
                p,
            );
            if v >= p.half {
                exists|k: int|
                    0 <= k < r.included.len() && #[trigger] r.included[k] == l && r.included_state[k]
                        == v
            } else {
                exists|k: int|
                    0 <= k < r.excluded.len() && #[trigger] r.excluded[k] == l && r.excluded_state[k]
                        == v
            }
        }),
    decreases m.included.len() - i,
{
    lemma_fraction_small(s);
    let r = included_scan(m, s, i, p).0;
    let at = i as int;
    let l = m.included[at] as int;
    let state = m.included_state[at];
    let s1 = rng_next(s);
    if !p.act[l] {
        if q == at {
            lemma_included_scan_rest(m, s, i + 1, p);
            assert(r.included[q] == m.included[q]);
            assert(r.included_state[q] == m.included_state[q]);
        } else {
            lemma_included_scan_ahead(m, s, i + 1, p, q);
        }
    } else if p.x[l] {
        if p.fired && state < p.max {
            let w = SparseModel {
                included_state: m.included_state.update(at, (state + 1) as u8),
                ..m
            };
            if q == at {
                lemma_included_scan_rest(w, s, i + 1, p);
                assert(r.included[q] == w.included[q]);
                assert(r.included_state[q] == w.included_state[q]);
            } else {
                lemma_included_scan_ahead(w, s, i + 1, p, q);
            }
        } else {
            if q == at {
                lemma_included_scan_rest(m, s, i + 1, p);
                assert(r.included[q] == m.included[q]);
                assert(r.included_state[q] == m.included_state[q]);
            } else {
                lemma_included_scan_ahead(m, s, i + 1, p, q);
            }
        }
    } else if state < p.max {
        let lower = (state - 1) as u8;
        if lower < p.half {
            let w = demoted(m, at, lower);
            lemma_demoted(m, at, lower);
            if q == at {
                lemma_included_scan_rest(w, s1, i, p);
                let k = m.excluded.len() as int;
                assert(w.excluded[k] == m.included[q]);
                assert(r.excluded[k] == w.excluded[k]);
                assert(r.excluded_state[k] == w.excluded_state[k]);
            } else {
                let k = if q == m.included.len() - 1 {
                    at
                } else {
                    q
                };
                assert(w.included[k] == m.included[q]);
                assert(w.included_state[k] == m.included_state[q]);
                lemma_included_scan_ahead(w, s1, i, p, k);
            }
        } else {
            let w = SparseModel { included_state: m.included_state.update(at, lower), ..m };
            if q == at {
                lemma_included_scan_rest(w, s1, i + 1, p);
                assert(r.included[q] == w.included[q]);
                assert(r.included_state[q] == w.included_state[q]);
            } else {
                lemma_included_scan_ahead(w, s1, i + 1, p, q);
            }
        }
    } else {
        if q == at {
            lemma_included_scan_rest(m, s, i + 1, p);
            assert(r.included[q] == m.included[q]);
            assert(r.included_state[q] == m.included_state[q]);
        } else {
            lemma_included_scan_ahead(m, s, i + 1, p, q);
        }
    }
}

proof fn lemma_excluded_scan_rest(m: SparseModel, s: u64, i: nat, p: Scan)
    requires
        matched(m),
        certain(p, m.included.len() + m.excluded.len()),
    ensures
        ({
            let r = excluded_scan(m, s, i, p).0;
            &&& matched(r)
            &&& extends(r.included, m.included)
            &&& extends(r.included_state, m.included_state)
            &&& extends(r.unallocated, m.unallocated)
            &&& i <= m.excluded.len() ==> i <= r.excluded.len()
            &&& i > m.excluded.len() ==> m.excluded.len() == r.excluded.len()
            &&& forall|q: int|
                0 <= q < i && q < m.excluded.len() ==> #[trigger] r.excluded[q] == m.excluded[q]
            &&& forall|q: int|
                0 <= q < i && q < m.excluded.len() ==> #[trigger] r.excluded_state[q]
                    == m.excluded_state[q]
        }),
    decreases m.excluded.len() - i,
{
    if i < m.excluded.len() {
        lemma_fraction_small(s);
        let at = i as int;
        let l = m.excluded[at] as int;
        let state = m.excluded_state[at];
        let s1 = rng_next(s);
        let r = excluded_scan(m, s, i, p).0;
        if !p.act[l] {
            lemma_excluded_scan_rest(m, s, i + 1, p);
        } else if p.x[l] {
            if p.fired {
                let higher = raised(state, p.max);
                if higher >= p.half {
                    let w = promoted(m, at, higher);
                    lemma_promoted(m, at, higher);
                    lemma_excluded_scan_rest(w, s, i, p);
                    assert forall|q: int| 0 <= q < m.included.len() implies #[trigger] r.included[q]
                        == m.included[q] && r.included_state[q] == m.included_state[q] by {
                        assert(w.included[q] == m.included[q]);
                        assert(r.included[q] == w.included[q]);
                        assert(r.included_state[q] == w.included_state[q]);
                    }
                    assert forall|q: int| 0 <= q < m.included.len() implies #[trigger] r.included_state[q]
                        == m.included_state[q] by {
                        assert(r.included[q] == m.included[q]);
                    }
                    assert forall|q: int| 0 <= q < i && q < m.excluded.len() implies
                        #[trigger] r.excluded[q] == m.excluded[q] && r.excluded_state[q]
                        == m.excluded_state[q] by {
                        assert(w.excluded[q] == m.excluded[q]);
                        assert(w.excluded_state[q] == m.excluded_state[q]);
                        assert(r.excluded[q] == w.excluded[q]);
                        assert(r.excluded_state[q] == w.excluded_state[q]);
                    }
                    assert forall|q: int| 0 <= q < i && q < m.excluded.len() implies
                        #[trigger] r.excluded_state[q] == m.excluded_state[q] by {
                        assert(r.excluded[q] == m.excluded[q]);
                    }
                } else {
                    let w = SparseModel { excluded_state: m.excluded_state.update(at, higher), ..m };
                    lemma_excluded_scan_rest(w, s, i + 1, p);
                }
            } else {
                lemma_excluded_scan_rest(m, s, i + 1, p);
            }
        } else if state <= ABSORB_EXCLUDE + 1 {
            let w = absorbed(m, at);
            lemma_absorbed(m, at);
            lemma_excluded_scan_rest(w, s1, i, p);
            assert forall|q: int| 0 <= q < m.unallocated.len() implies #[trigger] r.unallocated[q]
                == m.unallocated[q] by {
                assert(r.unallocated[q] == w.unallocated[q]);
            }
            assert forall|q: int| 0 <= q < i && q < m.excluded.len() implies
                #[trigger] r.excluded[q] == m.excluded[q] && r.excluded_state[q]
                == m.excluded_state[q] by {
                assert(w.excluded[q] == m.excluded[q]);
                assert(w.excluded_state[q] == m.excluded_state[q]);
                assert(r.excluded[q] == w.excluded[q]);
                assert(r.excluded_state[q] == w.excluded_state[q]);
            }
            assert forall|q: int| 0 <= q < i && q < m.excluded.len() implies
                #[trigger] r.excluded_state[q] == m.excluded_state[q] by {
                assert(r.excluded[q] == m.excluded[q]);
            }
        } else {
            let w = SparseModel {
                excluded_state: m.excluded_state.update(at, (state - 1) as u8),
                ..m
            };
            lemma_excluded_scan_rest(w, s1, i + 1, p);
        }
    }
}

spec fn excluded_after(v: u8, present: bool, active: bool, p: Scan) -> u8 {
    if !active {
        v
    } else if present {
        if p.fired {
            (v + 1) as u8
        } else {
            v
        }
    } else {
        (v - 1) as u8
    }
}

proof fn lemma_excluded_scan_ahead(m: SparseModel, s: u64, i: nat, p: Scan, j: int)
    requires
        matched(m),
        certain(p, m.included.len() + m.excluded.len()),
        i <= j < m.excluded.len(),
        0 < m.excluded_state[j] < p.half,
    ensures
        stands_at(
            excluded_scan(m, s, i, p).0,
            m.excluded[j],
            excluded_after(
                m.excluded_state[j],
                p.x[m.excluded[j] as int],
                p.act[m.excluded[j] as int],
                p,
            ),
        ),
    decreases m.excluded.len() - i,
{
    lemma_fraction_small(s);
    let r = excluded_scan(m, s, i, p).0;
    let at = i as int;
    let l = m.excluded[at] as int;
    let state = m.excluded_state[at];
    let s1 = rng_next(s);
    let moved = if j == m.excluded.len() - 1 {
        at
    } else {
        j
    };
    if !p.act[l] || (p.x[l] && !p.fired) {
        if j == at {
            lemma_excluded_scan_rest(m, s, i + 1, p);
            assert(r.excluded[j] == m.excluded[j]);
            assert(r.excluded_state[j] == m.excluded_state[j]);
        } else {
            lemma_excluded_scan_ahead(m, s, i + 1, p, j);
        }
    } else if p.x[l] {
        let higher = raised(state, p.max);
        if higher >= p.half {
            let w = promoted(m, at, higher);
            lemma_promoted(m, at, higher);
            if j == at {
                lemma_excluded_scan_rest(w, s, i, p);
                let q = m.included.len() as int;
                assert(w.included[q] == m.excluded[j]);
                assert(r.included[q] == w.included[q]);
                assert(r.included_state[q] == w.included_state[q]);
            } else {
                assert(w.excluded[moved] == m.excluded[j]);
                assert(w.excluded_state[moved] == m.excluded_state[j]);
                lemma_excluded_scan_ahead(w, s, i, p, moved);
            }
        } else {
            let w = SparseModel { excluded_state: m.excluded_state.update(at, higher), ..m };
            if j == at {
                lemma_excluded_scan_rest(w, s, i + 1, p);
                assert(r.excluded[j] == w.excluded[j]);
                assert(r.excluded_state[j] == w.excluded_state[j]);
            } else {
                lemma_excluded_scan_ahead(w, s, i + 1, p, j);
            }
        }
    } else if state <= ABSORB_EXCLUDE + 1 {
        let w = absorbed(m, at);
        lemma_absorbed(m, at);
        if j == at {
            lemma_excluded_scan_rest(w, s1, i, p);
            let q = m.unallocated.len() as int;
            assert(w.unallocated[q] == m.excluded[j]);
            assert(r.unallocated[q] == w.unallocated[q]);
            assert(r.unallocated.contains(m.excluded[j]));
        } else {
            assert(w.excluded[moved] == m.excluded[j]);
            assert(w.excluded_state[moved] == m.excluded_state[j]);
            lemma_excluded_scan_ahead(w, s1, i, p, moved);
        }
    } else {
        let w = SparseModel {
            excluded_state: m.excluded_state.update(at, (state - 1) as u8),
            ..m
        };
        if j == at {
            lemma_excluded_scan_rest(w, s1, i + 1, p);
            assert(r.excluded[j] == w.excluded[j]);
            assert(r.excluded_state[j] == w.excluded_state[j]);
        } else {
            lemma_excluded_scan_ahead(w, s1, i + 1, p, j);
        }
    }
}

/// Type I feedback reaches every literal: where nothing is left to chance, an active present literal
/// of a clause that fires rises by one, and an active absent one falls by one, unless it is at its
/// last state or given up. One that falls out of the included literals is met again among the
/// excluded ones, and falls twice.
pub proof fn lemma_feedback_reaches_all(m: SparseModel, s: u64, p: Scan, l: u32, v: u8)
    requires
        states_fit(m, p.half, p.max),
        certain(p, m.included.len() + m.excluded.len()),
        stands_at(m, l, v),
    ensures
        ({
            let present = p.x[l as int];
            let after = if !p.act[l as int] || v == 0 || v == p.max || (present && !p.fired) {
                v as int
            } else if present {
                v + 1
            } else if v == p.half {
                v - 2
            } else {
                v - 1
            };
            0 <= after <= p.max && stands_at(sparse_type_i(m, s, p).0, l, after as u8)
        }),
{
    let (m1, s1) = included_scan(m, s, 0, p);
    let r = excluded_scan(m1, s1, 0, p).0;
    lemma_included_scan_rest(m, s, 0, p);
    lemma_excluded_scan_rest(m1, s1, 0, p);
    if exists|i: int|
        0 <= i < m.included.len() && #[trigger] m.included[i] == l && m.included_state[i] == v {
        let i = choose|i: int|
            0 <= i < m.included.len() && #[trigger] m.included[i] == l && m.included_state[i] == v;
        assert(p.half <= m.included_state[i] <= p.max);
        lemma_included_scan_ahead(m, s, 0, p, i);
        let w = included_after(v, p.x[l as int], p.act[l as int], p);
        if w >= p.half {
            let k = choose|k: int|
                0 <= k < m1.included.len() && #[trigger] m1.included[k] == l && m1.included_state[k]
                    == w;
            assert(r.included[k] == m1.included[k]);
            assert(r.included_state[k] == m1.included_state[k]);
        } else {
            let k = choose|k: int|
                0 <= k < m1.excluded.len() && #[trigger] m1.excluded[k] == l && m1.excluded_state[k]
                    == w;
            lemma_excluded_scan_ahead(m1, s1, 0, p, k);
        }
    } else if exists|i: int|
        0 <= i < m.excluded.len() && #[trigger] m.excluded[i] == l && m.excluded_state[i] == v {
        let i = choose|i: int|
            0 <= i < m.excluded.len() && #[trigger] m.excluded[i] == l && m.excluded_state[i] == v;
        assert(ABSORB_EXCLUDE < m.excluded_state[i] < p.half);
        assert(m1.excluded[i] == m.excluded[i]);
        assert(m1.excluded_state[i] == m.excluded_state[i]);
        lemma_excluded_scan_ahead(m1, s1, 0, p, i);
    } else {
        let i = choose|i: int| 0 <= i < m.unallocated.len() && m.unallocated[i] == l;
        assert(r.unallocated[i] == m1.unallocated[i]);
        assert(r.unallocated.contains(l));
    }
}

} // verus!
