//! Quantile thresholds that turn numeric features into bits.
use crate::bits::byte_of;
use crate::dyadic::{INFINITY_BITS, SIGN_BIT};
use vstd::prelude::*;

verus! {

/// A double-precision number, held as its bit pattern.
#[derive(Clone, Copy, Debug)]
pub struct Number(pub u64);

impl Number {
    /// What is not a number compares with nothing.
    pub open spec fn is_nan(self) -> bool {
        (self.0 as int % SIGN_BIT as int) > INFINITY_BITS
    }

    /// A key that orders numbers as their values are ordered; the two zeros share one.
    pub open spec fn key(self) -> int {
        if self.0 < SIGN_BIT {
            self.0 as int
        } else {
            SIGN_BIT - self.0
        }
    }

    /// Whether the number is above `other`.
    pub open spec fn is_above(self, other: Number) -> bool {
        !self.is_nan() && !other.is_nan() && self.key() > other.key()
    }

    /// Whether this is not a number.
    pub fn nan(&self) -> (r: bool)
        ensures
            r == self.is_nan(),
    {
        self.0 % SIGN_BIT > INFINITY_BITS
    }

    /// A key that orders numbers.
    fn order_key(&self) -> (r: i128)
        ensures
            r == self.key(),
    {
        if self.0 < SIGN_BIT {
            self.0 as i128
        } else {
            SIGN_BIT as i128 - self.0 as i128
        }
    }

    /// Whether the number is above `other`.
    pub fn above(&self, other: &Number) -> (r: bool)
        ensures
            r == self.is_above(*other),
    {
        !self.nan() && !other.nan() && self.order_key() > other.order_key()
    }
}

/// Value `i` comes before value `j` in increasing order; equal values keep their order.
pub open spec fn ranks_before(vals: Seq<Number>, i: int, j: int) -> bool {
    vals[i].key() < vals[j].key() || (vals[i].key() == vals[j].key() && i < j)
}

/// The values that come before value `i` in increasing order.
pub open spec fn ranked_below(vals: Seq<Number>, i: int) -> Set<int> {
    Set::new(|j: int| 0 <= j < vals.len() && ranks_before(vals, j, i))
}

/// Value `i` has exactly `p` values before it in increasing order.
pub open spec fn has_rank(vals: Seq<Number>, i: int, p: nat) -> bool {
    0 <= i < vals.len() && ranked_below(vals, i).finite() && ranked_below(vals, i).len() == p
}

/// The value with exactly `p` values before it in increasing order.
pub open spec fn ranked(vals: Seq<Number>, p: nat) -> Number {
    vals[choose|i: int| has_rank(vals, i, p)]
}

/// Which rank the `t`-th of `n_thresholds` cut points among `n` values has.
pub open spec fn cut_rank(n: int, t: int, n_thresholds: int) -> int {
    ((n - 1) * (t + 1)) / (n_thresholds + 1)
}

/// Numbers in an order in which none is above a later one.
pub open spec fn rising(s: Seq<Number>) -> bool {
    &&& forall|a: int| 0 <= a < s.len() ==> !(#[trigger] s[a]).is_nan()
    &&& forall|a: int, b: int| 0 <= a <= b < s.len() ==> (#[trigger] s[a]).key() <= (#[trigger] s[b]).key()
}

/// The values of feature `f` in the rows `xs`.
pub open spec fn feature_values(xs: Seq<&[Number]>, f: int) -> Seq<Number> {
    Seq::new(xs.len(), |i: int| xs[i]@[f])
}

/// Two values have different ranks.
pub proof fn lemma_rank_unique(vals: Seq<Number>, i: int, j: int, p: nat)
    requires
        has_rank(vals, i, p),
        has_rank(vals, j, p),
    ensures
        i == j,
{
    if i != j {
        if ranks_before(vals, i, j) {
            lemma_rank_grows(vals, i, j);
        } else {
            lemma_rank_grows(vals, j, i);
        }
    }
}

proof fn lemma_rank_grows(vals: Seq<Number>, i: int, j: int)
    requires
        0 <= i < vals.len(),
        0 <= j < vals.len(),
        ranks_before(vals, i, j),
        ranked_below(vals, i).finite(),
        ranked_below(vals, j).finite(),
    ensures
        ranked_below(vals, i).len() < ranked_below(vals, j).len(),
{
    let a = ranked_below(vals, i);
    let b = ranked_below(vals, j);
    assert(!a.contains(i));
    assert(a.insert(i).subset_of(b));
    vstd::set_lib::lemma_len_subset(a.insert(i), b);
}

/// Index `j` is in `r`.
pub open spec fn occurs(r: Seq<usize>, j: int) -> bool {
    exists|a: int| 0 <= a < r.len() && #[trigger] r[a] == j
}

/// `r` holds indices of values in increasing order: exactly those from `lo` to `hi`.
pub open spec fn sorts(r: Seq<usize>, vals: Seq<Number>, lo: int, hi: int) -> bool {
    &&& r.len() == hi - lo
    &&& forall|a: int| 0 <= a < r.len() ==> lo <= #[trigger] r[a] < hi
    &&& forall|a: int, b: int|
        0 <= a < b < r.len() ==> ranks_before(vals, #[trigger] r[a] as int, #[trigger] r[b] as int)
    &&& forall|j: int| lo <= j < hi ==> #[trigger] occurs(r, j)
}

/// The ranks of sorted indices are their places.
proof fn lemma_sorts_ranks(r: Seq<usize>, vals: Seq<Number>, p: int)
    requires
        sorts(r, vals, 0, vals.len() as int),
        0 <= p < r.len(),
    ensures
        has_rank(vals, r[p] as int, p as nat),
{
    let firsts = Seq::new(p as nat, |a: int| r[a] as int);
    let below = ranked_below(vals, r[p] as int);
    assert forall|a: int, b: int| 0 <= a < firsts.len() && 0 <= b < firsts.len() && a != b implies #[trigger] firsts[a]
        != #[trigger] firsts[b] by {
        if a < b {
            assert(ranks_before(vals, r[a] as int, r[b] as int));
        } else {
            assert(ranks_before(vals, r[b] as int, r[a] as int));
        }
    }
    assert(firsts.no_duplicates());
    firsts.unique_seq_to_set();
    assert forall|j: int| #[trigger] firsts.to_set().contains(j) <==> below.contains(j) by {
        if firsts.contains(j) {
            let a = choose|a: int| 0 <= a < firsts.len() && firsts[a] == j;
            assert(ranks_before(vals, r[a] as int, r[p] as int));
        }
        if below.contains(j) {
            assert(occurs(r, j));
            let a = choose|a: int| 0 <= a < r.len() && #[trigger] r[a] == j;
            if a > p {
                assert(ranks_before(vals, r[p] as int, r[a] as int));
            }
            assert(firsts[a] == j);
        }
    }
    assert(firsts.to_set() =~= below);
}

/// Merges the sorted indices of two neighbouring ranges.
fn merge(vals: &Vec<Number>, x: &Vec<usize>, y: &Vec<usize>, Ghost(lo): Ghost<int>, Ghost(mid): Ghost<int>, Ghost(hi): Ghost<int>) -> (r:
    Vec<usize>)
    requires
        0 <= lo <= mid <= hi <= vals@.len(),
        sorts(x@, vals@, lo, mid),
        sorts(y@, vals@, mid, hi),
    ensures
        sorts(r@, vals@, lo, hi),
{
    let mut r: Vec<usize> = Vec::with_capacity(x.len());
    let mut i: usize = 0;
    let mut j: usize = 0;
    while i < x.len() || j < y.len()
        invariant
            0 <= lo <= mid <= hi <= vals@.len(),
            sorts(x@, vals@, lo, mid),
            sorts(y@, vals@, mid, hi),
            i <= x@.len(),
            j <= y@.len(),
            r@.len() == i + j,
            forall|a: int| 0 <= a < r@.len() ==> lo <= #[trigger] r@[a] < hi,
            forall|a: int, b: int|
                0 <= a < b < r@.len() ==> ranks_before(
                    vals@,
                    #[trigger] r@[a] as int,
                    #[trigger] r@[b] as int,
                ),
            forall|a: int, b: int|
                0 <= a < r@.len() && i <= b < x@.len() ==> ranks_before(
                    vals@,
                    #[trigger] r@[a] as int,
                    #[trigger] x@[b] as int,
                ),
            forall|a: int, b: int|
                0 <= a < r@.len() && j <= b < y@.len() ==> ranks_before(
                    vals@,
                    #[trigger] r@[a] as int,
                    #[trigger] y@[b] as int,
                ),
            forall|b: int| 0 <= b < i ==> occurs(r@, #[trigger] x@[b] as int),
            forall|b: int| 0 <= b < j ==> occurs(r@, #[trigger] y@[b] as int),
        decreases x@.len() - i + y@.len() - j,
    {
        let ghost before = r@;
        let left: bool = if i == x.len() {
            false
        } else if j == y.len() {
            true
        } else {
            vals[x[i]].order_key() <= vals[y[j]].order_key()
        };
        let next: usize = if left {
            x[i]
        } else {
            y[j]
        };
        proof {
            assert forall|b: int| i <= b < x@.len() && (left ==> i < b) implies ranks_before(
                vals@,
                next as int,
                #[trigger] x@[b] as int,
            ) by {
                if left {
                    assert(ranks_before(vals@, x@[i as int] as int, x@[b] as int));
                } else {
                    assert(ranks_before(vals@, y@[j as int] as int, x@[i as int] as int));
                    if i < b {
                        assert(ranks_before(vals@, x@[i as int] as int, x@[b] as int));
                    }
                }
            }
            assert forall|b: int| j <= b < y@.len() && (!left ==> j < b) implies ranks_before(
                vals@,
                next as int,
                #[trigger] y@[b] as int,
            ) by {
                if !left {
                    assert(ranks_before(vals@, y@[j as int] as int, y@[b] as int));
                } else {
                    assert(ranks_before(vals@, x@[i as int] as int, y@[j as int] as int));
                    if j < b {
                        assert(ranks_before(vals@, y@[j as int] as int, y@[b] as int));
                    }
                }
            }
        }
        r.push(next);
        if left {
            i = i + 1;
        } else {
            j = j + 1;
        }
        proof {
            assert(r@[before.len() as int] == next);
            assert forall|b: int| 0 <= b < i implies occurs(r@, #[trigger] x@[b] as int) by {
                if left && b == i - 1 {
                    assert(r@[before.len() as int] == x@[b]);
                } else {
                    assert(occurs(before, x@[b] as int));
                    let a = choose|a: int| 0 <= a < before.len() && #[trigger] before[a] == x@[b];
                    assert(r@[a] == x@[b]);
                }
            }
            assert forall|b: int| 0 <= b < j implies occurs(r@, #[trigger] y@[b] as int) by {
                if !left && b == j - 1 {
                    assert(r@[before.len() as int] == y@[b]);
                } else {
                    assert(occurs(before, y@[b] as int));
                    let a = choose|a: int| 0 <= a < before.len() && #[trigger] before[a] == y@[b];
                    assert(r@[a] == y@[b]);
                }
            }
        }
    }
    proof {
        assert forall|k: int| lo <= k < hi implies #[trigger] occurs(r@, k) by {
            if k < mid {
                assert(occurs(x@, k));
                let b = choose|b: int| 0 <= b < x@.len() && #[trigger] x@[b] == k;
                assert(occurs(r@, x@[b] as int));
            } else {
                assert(occurs(y@, k));
                let b = choose|b: int| 0 <= b < y@.len() && #[trigger] y@[b] == k;
                assert(occurs(r@, y@[b] as int));
            }
        }
    }
    r
}

/// The indices from `lo` to `hi` in increasing order of their values.
fn sort_indices(vals: &Vec<Number>, lo: usize, hi: usize) -> (r: Vec<usize>)
    requires
        lo <= hi <= vals@.len(),
    ensures
        sorts(r@, vals@, lo as int, hi as int),
    decreases hi - lo,
{
    if hi - lo == 0 {
        return Vec::new();
    }
    if hi - lo == 1 {
        let r: Vec<usize> = vec![lo; 1];
        proof {
            assert(r@[0] == lo);
        }
        return r;
    }
    let mid: usize = lo + (hi - lo) / 2;
    let x: Vec<usize> = sort_indices(vals, lo, mid);
    let y: Vec<usize> = sort_indices(vals, mid, hi);
    merge(vals, &x, &y, Ghost(lo as int), Ghost(mid as int), Ghost(hi as int))
}

/// The cut points of one feature.
fn cut_points(vals: &Vec<Number>, n_thresholds: usize) -> (r: Vec<Number>)
    requires
        vals@.len() >= 1 || n_thresholds == 0,
        n_thresholds < usize::MAX,
        (vals@.len() - 1) * n_thresholds <= usize::MAX,
    ensures
        r@.len() == n_thresholds,
        forall|t: int|
            0 <= t < n_thresholds ==> #[trigger] r@[t] == ranked(
                vals@,
                cut_rank(vals@.len() as int, t, n_thresholds as int) as nat,
            ),
        (forall|i: int| 0 <= i < vals@.len() ==> !(#[trigger] vals@[i]).is_nan()) ==> rising(r@),
{
    let n: usize = vals.len();
    let order: Vec<usize> = sort_indices(vals, 0, n);
    let mut r: Vec<Number> = Vec::with_capacity(n_thresholds);
    let mut t: usize = 0;
    while t < n_thresholds
        invariant
            n == vals@.len(),
            n >= 1 || n_thresholds == 0,
            n_thresholds < usize::MAX,
            (n - 1) * n_thresholds <= usize::MAX,
            sorts(order@, vals@, 0, n as int),
            t <= n_thresholds,
            r@.len() == t,
            forall|k: int|
                0 <= k < t ==> #[trigger] r@[k] == ranked(
                    vals@,
                    cut_rank(n as int, k, n_thresholds as int) as nat,
                ),
            forall|k: int| 0 <= k < t ==> 0 <= #[trigger] cut_rank(n as int, k, n_thresholds as int) < n,
            forall|k: int|
                0 <= k < t ==> #[trigger] r@[k] == vals@[order@[cut_rank(
                    n as int,
                    k,
                    n_thresholds as int,
                )] as int],
        decreases n_thresholds - t,
    {
        proof {
            let m = n - 1;
            let d = n_thresholds + 1;
            assert(m * (t + 1) <= m * n_thresholds) by (nonlinear_arith)
                requires
                    m >= 0,
                    t + 1 <= n_thresholds,
            ;
            assert(0 <= m * (t + 1)) by (nonlinear_arith)
                requires
                    m >= 0,
                    t >= 0,
            ;
            assert(m * (t + 1) / d <= m) by (nonlinear_arith)
                requires
                    m * (t + 1) <= m * n_thresholds,
                    d == n_thresholds + 1,
                    m >= 0,
            ;
            assert(0 <= m * (t + 1) / d) by (nonlinear_arith)
                requires
                    0 <= m * (t + 1),
                    d >= 1,
            ;
        }
        let p: usize = ((n - 1) * (t + 1)) / (n_thresholds + 1);
        proof {
            lemma_sorts_ranks(order@, vals@, p as int);
            let i = choose|i: int| has_rank(vals@, i, p as nat);
            lemma_rank_unique(vals@, i, order@[p as int] as int, p as nat);
            assert(vals@[order@[p as int] as int] == ranked(vals@, p as nat));
            assert(cut_rank(n as int, t as int, n_thresholds as int) == p);
        }
        r.push(vals[order[p]]);
        t = t + 1;
    }
    proof {
        let d = n_thresholds as int;
        assert forall|a: int, b: int| 0 <= a <= b < r@.len() implies (#[trigger] r@[a]).key() <= (
        #[trigger] r@[b]).key() by {
            lemma_cut_ranks(n as int, a, b, d);
            let (p, q) = (cut_rank(n as int, a, d), cut_rank(n as int, b, d));
            if p < q {
                assert(ranks_before(vals@, order@[p] as int, order@[q] as int));
            }
        }
    }
    r
}

/// Later cut points have ranks at least as high.
proof fn lemma_cut_ranks(n: int, a: int, b: int, d: int)
    requires
        n >= 1,
        0 <= a <= b < d,
    ensures
        cut_rank(n, a, d) <= cut_rank(n, b, d),
{
    assert((n - 1) * (a + 1) <= (n - 1) * (b + 1)) by (nonlinear_arith)
        requires
            n >= 1,
            a <= b,
    ;
    vstd::arithmetic::div_mod::lemma_div_is_ordered((n - 1) * (a + 1), (n - 1) * (b + 1), d + 1);
}

/// Thresholds per feature; a bit says whether its feature is above its threshold.
#[derive(Clone, Debug)]
pub struct Booleanizer {
    pub thresholds: Vec<Vec<Number>>,
}

/// The feature and the threshold of every bit, for the first `n` features.
pub open spec fn origins(thresholds: Seq<Vec<Number>>, n: nat) -> Seq<(usize, Number)>
    decreases n,
{
    if n == 0 {
        seq![]
    } else {
        origins(thresholds, (n - 1) as nat) + Seq::new(
            thresholds[n - 1]@.len(),
            |t: int| ((n - 1) as usize, thresholds[n - 1]@[t]),
        )
    }
}

/// More features have at least as many bits, and the first are the same.
proof fn lemma_origins_grow(thresholds: Seq<Vec<Number>>, k: nat, n: nat)
    requires
        k <= n <= thresholds.len(),
    ensures
        origins(thresholds, k).len() <= origins(thresholds, n).len(),
        forall|b: int|
            0 <= b < origins(thresholds, k).len() ==> #[trigger] origins(thresholds, k)[b] == origins(
                thresholds,
                n,
            )[b],
    decreases n,
{
    if k < n {
        lemma_origins_grow(thresholds, k, (n - 1) as nat);
    }
}

/// With `k` thresholds for each of `n` features there are `n * k` bits.
pub proof fn lemma_origins_len(thresholds: Seq<Vec<Number>>, n: nat, k: nat)
    requires
        n <= thresholds.len(),
        forall|f: int| 0 <= f < n ==> (#[trigger] thresholds[f])@.len() == k,
    ensures
        origins(thresholds, n).len() == n * k,
    decreases n,
{
    if n > 0 {
        lemma_origins_len(thresholds, (n - 1) as nat, k);
        assert(n * k == (n - 1) * k + k) by (nonlinear_arith);
        assert(thresholds[n - 1]@.len() == k);
    } else {
        assert(0 * k == 0) by (nonlinear_arith);
    }
}

impl Booleanizer {
    /// The feature and the threshold of every bit.
    pub open spec fn bits(&self) -> Seq<(usize, Number)> {
        origins(self.thresholds@, self.thresholds@.len())
    }

    /// The thresholds of every feature rise.
    pub open spec fn rises(&self) -> bool {
        forall|f: int| 0 <= f < self.thresholds@.len() ==> rising((#[trigger] self.thresholds@[f])@)
    }

    /// The thresholds are the `n_thresholds` cut points of each feature of the rows `xs`.
    pub open spec fn fitted(&self, xs: Seq<&[Number]>, n_features: nat, n_thresholds: nat) -> bool {
        &&& self.thresholds@.len() == n_features
        &&& forall|f: int|
            0 <= f < n_features ==> (#[trigger] self.thresholds@[f])@ == Seq::new(
                n_thresholds,
                |t: int|
                    ranked(
                        feature_values(xs, f),
                        cut_rank(xs.len() as int, t, n_thresholds as int) as nat,
                    ),
            )
    }

    /// A row has a value for every feature that has thresholds.
    pub open spec fn takes(&self, row: Seq<Number>) -> bool {
        forall|f: int|
            0 <= f < self.thresholds@.len() && (#[trigger] self.thresholds@[f])@.len() > 0 ==> f < row.len()
    }

    /// The bits of a row.
    pub open spec fn bits_of_row(&self, row: Seq<Number>) -> Seq<u8> {
        Seq::new(
            self.bits().len(),
            |b: int| byte_of(row[self.bits()[b].0 as int].is_above(self.bits()[b].1)),
        )
    }

    /// Finds `n_thresholds` evenly spaced cut points in the values of each feature.
    pub fn fit(xs: &[&[Number]], n_features: usize, n_thresholds: usize) -> (r: Self)
        requires
            xs@.len() >= 1 || n_thresholds == 0 || n_features == 0,
            n_thresholds < usize::MAX,
            (xs@.len() - 1) * n_thresholds <= usize::MAX,
            forall|i: int| 0 <= i < xs@.len() ==> n_features <= (#[trigger] xs@[i])@.len(),
            forall|i: int, f: int|
                0 <= i < xs@.len() && 0 <= f < n_features ==> !(#[trigger] xs@[i]@[f]).is_nan(),
        ensures
            r.fitted(xs@, n_features as nat, n_thresholds as nat),
            r.rises(),
    {
        let n: usize = xs.len();
        let mut thresholds: Vec<Vec<Number>> = Vec::with_capacity(n_features);
        let mut f: usize = 0;
        while f < n_features
            invariant
                n == xs@.len(),
                n >= 1 || n_thresholds == 0 || n_features == 0,
                n_thresholds < usize::MAX,
                (n - 1) * n_thresholds <= usize::MAX,
                forall|i: int| 0 <= i < xs@.len() ==> n_features <= (#[trigger] xs@[i])@.len(),
                forall|i: int, f: int|
                    0 <= i < xs@.len() && 0 <= f < n_features ==> !(#[trigger] xs@[i]@[f]).is_nan(),
                f <= n_features,
                thresholds@.len() == f,
                forall|k: int| 0 <= k < f ==> rising((#[trigger] thresholds@[k])@),
                forall|k: int|
                    0 <= k < f ==> (#[trigger] thresholds@[k])@ == Seq::new(
                        n_thresholds as nat,
                        |t: int|
                            ranked(
                                feature_values(xs@, k),
                                cut_rank(n as int, t, n_thresholds as int) as nat,
                            ),
                    ),
            decreases n_features - f,
        {
            let mut vals: Vec<Number> = Vec::with_capacity(n);
            let mut i: usize = 0;
            while i < n
                invariant
                    n == xs@.len(),
                    f < n_features,
                    forall|i: int| 0 <= i < xs@.len() ==> n_features <= (#[trigger] xs@[i])@.len(),
                    i <= n,
                    vals@ == feature_values(xs@, f as int).take(i as int),
                decreases n - i,
            {
                vals.push(xs[i][f]);
                proof {
                    assert(feature_values(xs@, f as int).take(i + 1) =~= feature_values(
                        xs@,
                        f as int,
                    ).take(i as int).push(xs@[i as int]@[f as int]));
                }
                i = i + 1;
            }
            proof {
                assert(vals@ =~= feature_values(xs@, f as int));
            }
            let thr: Vec<Number> = cut_points(&vals, n_thresholds);
            proof {
                assert(thr@ =~= Seq::new(
                    n_thresholds as nat,
                    |t: int|
                        ranked(
                            feature_values(xs@, f as int),
                            cut_rank(n as int, t, n_thresholds as int) as nat,
                        ),
                ));
            }
            thresholds.push(thr);
            f = f + 1;
        }
        Booleanizer { thresholds }
    }

    /// The number of bits of a row.
    pub fn n_output_features(&self) -> (r: usize)
        requires
            self.bits().len() <= usize::MAX,
        ensures
            r == self.bits().len(),
    {
        let mut total: usize = 0;
        let mut f: usize = 0;
        while f < self.thresholds.len()
            invariant
                f <= self.thresholds@.len(),
                self.bits().len() <= usize::MAX,
                total == origins(self.thresholds@, f as nat).len(),
            decreases self.thresholds@.len() - f,
        {
            proof {
                lemma_origins_grow(self.thresholds@, (f + 1) as nat, self.thresholds@.len());
            }
            total = total + self.thresholds[f].len();
            f = f + 1;
        }
        total
    }

    /// Writes the bits of a row: 1 where a feature is above the threshold.
    pub fn transform_row(&self, row: &[Number], out: &mut [u8])
        requires
            self.takes(row@),
            self.bits().len() <= old(out)@.len(),
        ensures
            final(out)@.len() == old(out)@.len(),
            forall|b: int|
                0 <= b < self.bits().len() ==> #[trigger] final(out)@[b] == self.bits_of_row(row@)[b],
            forall|b: int|
                self.bits().len() <= b < old(out)@.len() ==> #[trigger] final(out)@[b] == old(out)@[b],
    {
        let ghost before = out@;
        let ghost want = self.bits_of_row(row@);
        let mut bit: usize = 0;
        let mut f: usize = 0;
        while f < self.thresholds.len()
            invariant
                self.takes(row@),
                f <= self.thresholds@.len(),
                out@.len() == before.len(),
                self.bits().len() <= out@.len(),
                bit == origins(self.thresholds@, f as nat).len(),
                want == self.bits_of_row(row@),
                forall|b: int| 0 <= b < bit ==> #[trigger] out@[b] == want[b],
                forall|b: int| bit <= b < before.len() ==> #[trigger] out@[b] == before[b],
            decreases self.thresholds@.len() - f,
        {
            proof {
                lemma_origins_grow(self.thresholds@, (f + 1) as nat, self.thresholds@.len());
            }
            let thrs: &Vec<Number> = &self.thresholds[f];
            let ghost start = bit as int;
            let mut t: usize = 0;
            while t < thrs.len()
                invariant
                    self.takes(row@),
                    f < self.thresholds@.len(),
                    *thrs == self.thresholds@[f as int],
                    t <= thrs@.len(),
                    start == origins(self.thresholds@, f as nat).len(),
                    start + thrs@.len() <= self.bits().len() <= out@.len(),
                    bit == start + t,
                    out@.len() == before.len(),
                    want == self.bits_of_row(row@),
                    forall|b: int|
                        0 <= b < origins(self.thresholds@, (f + 1) as nat).len() ==> #[trigger] origins(
                            self.thresholds@,
                            (f + 1) as nat,
                        )[b] == self.bits()[b],
                    forall|b: int| 0 <= b < bit ==> #[trigger] out@[b] == want[b],
                    forall|b: int| bit <= b < before.len() ==> #[trigger] out@[b] == before[b],
                decreases thrs@.len() - t,
            {
                proof {
                    let o = origins(self.thresholds@, (f + 1) as nat);
                    assert(o[bit as int] == (f, thrs@[t as int]));
                    assert(self.bits()[bit as int] == o[bit as int]);
                }
                out[bit] = if row[f].above(&thrs[t]) {
                    1
                } else {
                    0
                };
                bit = bit + 1;
                t = t + 1;
            }
            f = f + 1;
        }
    }

    /// The feature and the threshold of a bit.
    pub fn bit_origin(&self, bit: usize) -> (r: (usize, Number))
        requires
            bit < self.bits().len(),
        ensures
            r == self.bits()[bit as int],
    {
        let mut remaining: usize = bit;
        let mut f: usize = 0;
        proof {
            lemma_origins_grow(self.thresholds@, 0, self.thresholds@.len());
        }
        while remaining >= self.thresholds[f].len()
            invariant
                f < self.thresholds.len(),
                bit < self.bits().len(),
                remaining + origins(self.thresholds@, f as nat).len() == bit,
            decreases self.thresholds@.len() - f,
        {
            proof {
                lemma_origins_grow(self.thresholds@, (f + 1) as nat, self.thresholds@.len());
            }
            remaining = remaining - self.thresholds[f].len();
            f = f + 1;
        }
        proof {
            lemma_origins_grow(self.thresholds@, (f + 1) as nat, self.thresholds@.len());
            let o = origins(self.thresholds@, (f + 1) as nat);
            assert(o[bit as int] == (f, self.thresholds@[f as int]@[remaining as int]));
            assert(self.bits()[bit as int] == o[bit as int]);
        }
        (f, self.thresholds[f][remaining])
    }
}

/// Two bits of one feature stand for two of its thresholds, in the same order.
proof fn lemma_origins_ordered(thresholds: Seq<Vec<Number>>, n: nat, i: int, j: int)
    requires
        n <= thresholds.len(),
        n <= usize::MAX,
        0 <= i < j < origins(thresholds, n).len(),
        origins(thresholds, n)[i].0 == origins(thresholds, n)[j].0,
        forall|f: int| 0 <= f < n ==> rising((#[trigger] thresholds[f])@),
    ensures
        origins(thresholds, n)[i].1.key() <= origins(thresholds, n)[j].1.key(),
        !origins(thresholds, n)[i].1.is_nan(),
    decreases n,
{
    if n > 0 {
        let before = origins(thresholds, (n - 1) as nat);
        let last = thresholds[n - 1]@;
        lemma_origins_features(thresholds, (n - 1) as nat);
        assert(rising(thresholds[n - 1]@));
        if j < before.len() {
            lemma_origins_ordered(thresholds, (n - 1) as nat, i, j);
        } else if i >= before.len() {
            assert(last[i - before.len()].key() <= last[j - before.len()].key());
        } else {
            assert(before[i].0 < n - 1);
        }
    }
}

proof fn lemma_origins_features(thresholds: Seq<Vec<Number>>, n: nat)
    requires
        n <= thresholds.len(),
        n <= usize::MAX,
    ensures
        forall|i: int| 0 <= i < origins(thresholds, n).len() ==> (#[trigger] origins(thresholds, n)[i]).0 < n,
    decreases n,
{
    if n > 0 {
        lemma_origins_features(thresholds, (n - 1) as nat);
        let before = origins(thresholds, (n - 1) as nat);
        assert forall|i: int| 0 <= i < origins(thresholds, n).len() implies (
        #[trigger] origins(thresholds, n)[i]).0 < n by {
            if i < before.len() {
                assert(origins(thresholds, n)[i] == before[i]);
            }
        }
    }
}

/// Every rank below their number is that of one of the values.
pub proof fn lemma_rank_exists(vals: Seq<Number>, p: nat)
    requires
        p < vals.len(),
    ensures
        exists|i: int| has_rank(vals, i, p),
{
    let n = vals.len() as int;
    let places = vstd::set_lib::set_int_range(0, n);
    let rank = |i: int| ranked_below(vals, i).len() as int;
    vstd::set_lib::lemma_int_range(0, n);
    assert forall|i: int| 0 <= i < n implies #[trigger] ranked_below(vals, i).finite() && 0 <= rank(i) < n by {
        let below = ranked_below(vals, i);
        assert(below.insert(i).subset_of(places));
        vstd::set_lib::lemma_set_subset_finite(places, below.insert(i));
        assert(below.subset_of(below.insert(i)));
        vstd::set_lib::lemma_set_subset_finite(below.insert(i), below);
        vstd::set_lib::lemma_len_subset(below.insert(i), places);
        assert(!below.contains(i));
    }
    let ranks = places.map(rank);
    assert(vstd::relations::injective_on(rank, places)) by {
        assert forall|i: int, j: int|
            places.contains(i) && places.contains(j) && #[trigger] rank(i) == #[trigger] rank(j) implies i
            == j by {
            lemma_rank_unique(vals, i, j, ranked_below(vals, i).len());
        }
    }
    vstd::set_lib::lemma_map_size(places, ranks, rank);
    assert forall|r: int| ranks.contains(r) implies #[trigger] places.contains(r) by {
        let i = choose|i: int| places.contains(i) && rank(i) == r;
        assert(ranked_below(vals, i).finite());
    }
    vstd::set_lib::lemma_subset_equality(ranks, places);
    assert(ranks.contains(p as int));
    let i = choose|i: int| places.contains(i) && rank(i) == p as int;
    assert(has_rank(vals, i, p));
}

/// With `k` thresholds for each feature, bit `b` is that of threshold `b % k` of feature `b / k`.
proof fn lemma_origins_at(thresholds: Seq<Vec<Number>>, n: nat, k: nat, b: int)
    requires
        n <= thresholds.len(),
        n <= usize::MAX,
        k >= 1,
        forall|f: int| 0 <= f < n ==> (#[trigger] thresholds[f])@.len() == k,
        0 <= b < origins(thresholds, n).len(),
    ensures
        0 <= b / k as int,
        b / (k as int) < n,
        origins(thresholds, n)[b] == ((b / k as int) as usize, thresholds[b / k as int]@[b % k as int]),
    decreases n,
{
    if n > 0 {
        let m = (n - 1) as nat;
        lemma_origins_len(thresholds, m, k);
        lemma_origins_len(thresholds, n, k);
        if b < m * k {
            lemma_origins_at(thresholds, m, k, b);
        } else {
            assert(thresholds[n - 1]@.len() == k);
            let t = b - m * k;
            vstd::arithmetic::div_mod::lemma_fundamental_div_mod_converse(b, k as int, m as int, t);
        }
    }
}

/// Bit `k` of a fitted booleanizer belongs to feature `k / n_thresholds`, and its threshold is a
/// value of that feature in the rows: the one with the rank of cut point `k % n_thresholds`.
pub proof fn lemma_fitted_bits(
    b: &Booleanizer,
    xs: Seq<&[Number]>,
    n_features: nat,
    n_thresholds: nat,
    k: int,
)
    requires
        b.fitted(xs, n_features, n_thresholds),
        xs.len() >= 1,
        n_features <= usize::MAX,
        0 <= k < b.bits().len(),
    ensures
        b.bits().len() == n_features * n_thresholds,
        0 <= k / n_thresholds as int,
        k / (n_thresholds as int) < n_features,
        b.bits()[k].0 == k / n_thresholds as int,
        b.bits()[k].1 == ranked(
            feature_values(xs, k / n_thresholds as int),
            cut_rank(xs.len() as int, k % n_thresholds as int, n_thresholds as int) as nat,
        ),
        exists|i: int|
            0 <= i < xs.len() && b.bits()[k].1 == #[trigger] xs[i]@[k / n_thresholds as int],
{
    assert forall|f: int| 0 <= f < n_features implies (#[trigger] b.thresholds@[f])@.len()
        == n_thresholds by {}
    lemma_origins_len(b.thresholds@, n_features, n_thresholds);
    assert(n_thresholds >= 1) by {
        if n_thresholds == 0 {
            assert(n_features * 0 == 0) by (nonlinear_arith);
        }
    }
    lemma_origins_at(b.thresholds@, n_features, n_thresholds, k);
    let f = k / n_thresholds as int;
    let t = k % n_thresholds as int;
    let d = n_thresholds as int;
    vstd::arithmetic::div_mod::lemma_mod_bound(k, d);
    let vals = feature_values(xs, f);
    let m = xs.len() - 1;
    assert(0 <= m * (t + 1) < (m + 1) * (d + 1)) by (nonlinear_arith)
        requires
            m >= 0,
            0 <= t < d,
    ;
    let p = cut_rank(xs.len() as int, t, d);
    assert(0 <= p < m + 1) by (nonlinear_arith)
        requires
            p == (m * (t + 1)) / (d + 1),
            0 <= m * (t + 1) < (m + 1) * (d + 1),
            d >= 1,
    ;
    let place: nat = p as nat;
    lemma_rank_exists(vals, place);
    let i = choose|i: int| has_rank(vals, i, place);
    assert(vals[i] == xs[i]@[f]);
    assert(b.thresholds@[f]@[t] == ranked(vals, place));
}

/// The thresholds of the bits of one feature never fall.
pub proof fn lemma_thresholds_rise(b: &Booleanizer, i: int, j: int)
    requires
        b.rises(),
        b.thresholds@.len() <= usize::MAX,
        0 <= i <= j < b.bits().len(),
        b.bits()[i].0 == b.bits()[j].0,
    ensures
        b.bits()[i].1.key() <= b.bits()[j].1.key(),
{
    if i < j {
        lemma_origins_ordered(b.thresholds@, b.thresholds@.len(), i, j);
    }
}

/// The bits of a feature are a thermometer: where the bit of a threshold is set, those of the
/// thresholds before it are set too.
pub proof fn lemma_thermometer(b: &Booleanizer, row: Seq<Number>, i: int, j: int)
    requires
        b.rises(),
        b.thresholds@.len() <= usize::MAX,
        0 <= i < j < b.bits().len(),
        b.bits()[i].0 == b.bits()[j].0,
        b.bits_of_row(row)[j] == 1,
    ensures
        b.bits_of_row(row)[i] == 1,
{
    lemma_origins_ordered(b.thresholds@, b.thresholds@.len(), i, j);
}

} // verus!
