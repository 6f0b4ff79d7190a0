//! Where the draws of a model come from, and that no two of its streams are the same.
use crate::clause_bank::automata::{first_counter, ClauseState};
use crate::clause_bank::feedback::{ClassModel, ClauseModel};
use crate::clause_bank::shared::first_weight;
use crate::dyadic::Chance;
use crate::models::classification::coalesced_classifier::initial_coalesced;
use crate::models::classification::data_parallel::seeds_of;
use crate::models::classification::sparse_classifier::{initial_sparse_machine, SparseClassModel};
use crate::models::classification::vanilla_classifier::initial_machine;
use crate::models::config::{clause_seed, WEIGHT_XOR};
use crate::models::regression::vanilla_regressor::initial_regressor;
use crate::rng::{lemma_skip_adds, rng_index, rng_next, rng_skip, rng_word, GOLDEN};
use crate::sampling::{
    drops_of, epoch_order_of, lemma_epoch_order_permutes, lemma_shuffle_permutes, mask_words,
    shuffle_from, swapped,
};
use vstd::arithmetic::div_mod::lemma_fundamental_div_mod;
use vstd::prelude::*;

verus! {

proof fn lemma_spread_is_injective(x: int, y: int)
    requires
        0 <= x < 0x1_0000_0000_0000_0000,
        0 <= y < 0x1_0000_0000_0000_0000,
        (x * 0x9E37_79B9_7F4A_7C15) % 0x1_0000_0000_0000_0000 == (y * 0x9E37_79B9_7F4A_7C15)
            % 0x1_0000_0000_0000_0000,
    ensures
        x == y,
{
    let m = 0x1_0000_0000_0000_0000int;
    let g = 0x9E37_79B9_7F4A_7C15int;
    let inverse = 0xF1DE_83E1_9937_733Dint;
    let excess = 0x957B_BF35_006E_D677int;
    assert(g * inverse == 1 + m * excess);
    lemma_fundamental_div_mod(x * g, m);
    lemma_fundamental_div_mod(y * g, m);
    let p = (x * g) / m;
    let q = (y * g) / m;
    let d = x - y;
    assert(d * g == m * (p - q)) by (nonlinear_arith)
        requires
            x * g == m * p + (x * g) % m,
            y * g == m * q + (y * g) % m,
            (x * g) % m == (y * g) % m,
            d == x - y,
    ;
    let k = (p - q) * inverse - d * excess;
    assert(d == m * k) by (nonlinear_arith)
        requires
            d * g == m * (p - q),
            g * inverse == 1 + m * excess,
            k == (p - q) * inverse - d * excess,
    ;
    assert(k == 0) by (nonlinear_arith)
        requires
            d == m * k,
            -m < d < m,
            m > 0,
    ;
}

/// No two of the streams that are made from a seed are at the same position.
pub proof fn lemma_streams_differ(seed: u64, i: int, j: int)
    requires
        0 <= i < j < u64::MAX,
    ensures
        clause_seed(seed, i) != clause_seed(seed, j),
{
    if clause_seed(seed, i) == clause_seed(seed, j) {
        let a = ((i + 1) as u64).wrapping_mul(GOLDEN);
        let b = ((j + 1) as u64).wrapping_mul(GOLDEN);
        let u = seed ^ a;
        let v = seed ^ b;
        assert(u == v) by {
            assert(rng_next(u) == rng_next(v));
        }
        assert(a == b) by (bit_vector)
            requires
                u == v,
                u == seed ^ a,
                v == seed ^ b,
        ;
        lemma_spread_is_injective(i + 1, j + 1);
    }
}

proof fn lemma_flat_alike<A>(s: Seq<Seq<A>>, len: nat, f: spec_fn(int) -> A)
    requires
        forall|i: int| 0 <= i < s.len() ==> (#[trigger] s[i]).len() == len,
        forall|i: int, l: int|
            0 <= i < s.len() && 0 <= l < len ==> #[trigger] s[i][l] == f(i * len + l),
    ensures
        s.flatten() == Seq::new(s.len() * len, f),
    decreases s.len(),
{
    s.lemma_flatten_and_flatten_alt_are_equivalent();
    if s.len() == 0 {
        assert(0 * len == 0) by (nonlinear_arith);
        assert(s.flatten() =~= Seq::new(0, f));
    } else {
        let head = s.drop_last();
        assert forall|i: int| 0 <= i < head.len() implies (#[trigger] head[i]).len() == len by {
            assert(head[i] == s[i]);
        }
        assert forall|i: int, l: int| 0 <= i < head.len() && 0 <= l < len implies #[trigger] head[i][l]
            == f(i * len + l) by {
            assert(s[i][l] == head[i][l]);
        }
        lemma_flat_alike(head, len, f);
        head.lemma_flatten_and_flatten_alt_are_equivalent();
        let n = head.len();
        assert(s.len() * len == n * len + len) by (nonlinear_arith)
            requires
                s.len() == n + 1,
        ;
        assert(s.last() == s[n as int]);
        assert(s.flatten() == head.flatten() + s.last());
        assert forall|q: int| 0 <= q < s.len() * len implies s.flatten()[q] == f(q) by {
            if q >= n * len {
                assert(s[n as int][q - n * len] == f(n * len + (q - n * len)));
            }
        }
        assert(s.flatten() =~= Seq::new(s.len() * len, f));
    }
}

/// A new machine draws its counters one after the other, clause by clause and class by class, and
/// gives each clause and then each class a stream of its own.
pub proof fn lemma_new_machine_draws_in_order(seed: u64, k: nat, per: nat, n: nat, half: u8)
    ensures
        ({
            let new = initial_machine(seed, k, per, n, half);
            &&& new.classes.map_values(
                |c: ClassModel| c.clauses.map_values(|j: ClauseModel| j.auto.ta).flatten(),
            ).flatten() == Seq::new(
                k * (per * n),
                |i: int| first_counter(rng_skip(rng_next(seed), i as nat), half),
            )
            &&& new.classes.map_values(
                |c: ClassModel| c.clauses.map_values(|j: ClauseModel| j.rng),
            ).flatten() + new.classes.map_values(|c: ClassModel| c.rng) == Seq::new(
                k * per + k,
                |i: int| clause_seed(seed, i),
            )
            &&& new.rng == rng_skip(rng_next(seed), k * (per * n))
        }),
{
    let new = initial_machine(seed, k, per, n, half);
    let s = rng_next(seed);
    let draw = |i: int| first_counter(rng_skip(s, i as nat), half);
    let stream = |i: int| clause_seed(seed, i);
    let counters = new.classes.map_values(
        |c: ClassModel| c.clauses.map_values(|j: ClauseModel| j.auto.ta).flatten(),
    );
    let streams = new.classes.map_values(|c: ClassModel| c.clauses.map_values(|j: ClauseModel| j.rng));
    assert forall|c: int| 0 <= c < k implies (#[trigger] counters[c]) == Seq::new(
        per * n,
        |q: int| draw(c * (per * n) + q),
    ) by {
        let rows = new.classes[c].clauses.map_values(|j: ClauseModel| j.auto.ta);
        let own = |q: int| draw(c * (per * n) + q);
        assert forall|j: int, l: int| 0 <= j < rows.len() && 0 <= l < n implies #[trigger] rows[j][l]
            == own(j * n + l) by {
            let i = c * per + j;
            assert(i * n == c * (per * n) + j * n) by (nonlinear_arith)
                requires
                    i == c * per + j,
            ;
            assert(i * n >= 0) by (nonlinear_arith)
                requires
                    i == c * per + j,
                    c >= 0,
                    j >= 0,
            ;
            lemma_skip_adds(s, (i * n) as nat, l as nat);
        }
        lemma_flat_alike(rows, n, own);
        assert(rows.len() == per);
    }
    assert forall|c: int, q: int| 0 <= c < k && 0 <= q < per * n implies #[trigger] counters[c][q]
        == draw(c * (per * n) + q) by {
        assert(counters[c] == Seq::new(per * n, |q: int| draw(c * (per * n) + q)));
    }
    lemma_flat_alike(counters, per * n, draw);
    assert forall|c: int, j: int| 0 <= c < k && 0 <= j < per implies #[trigger] streams[c][j] == stream(
        c * per + j,
    ) by {}
    lemma_flat_alike(streams, per, stream);
    let all = streams.flatten() + new.classes.map_values(|c: ClassModel| c.rng);
    assert(all =~= Seq::new(k * per + k, stream));
    assert(k * per * n == k * (per * n)) by (nonlinear_arith);
}

/// A new coalesced model draws its counters one after the other, clause by clause, and its weights
/// output by output; each clause and then each output has a stream of its own.
pub proof fn lemma_new_coalesced_draws_in_order(seed: u64, k: nat, n_clauses: nat, n: nat, half: u8)
    ensures
        ({
            let new = initial_coalesced(seed, k, n_clauses, n, half);
            &&& new.clauses.autos.map_values(|a: ClauseState| a.ta).flatten() == Seq::new(
                n_clauses * n,
                |i: int| first_counter(rng_skip(rng_next(seed), i as nat), half),
            )
            &&& new.weights.flatten() == Seq::new(
                k * n_clauses,
                |i: int| first_weight(rng_skip(rng_next(seed ^ WEIGHT_XOR), i as nat)),
            )
            &&& new.clauses.rngs + new.class_rngs == Seq::new(
                n_clauses + k,
                |i: int| clause_seed(seed, i),
            )
            &&& new.rng == rng_skip(rng_next(seed), n_clauses * n)
        }),
{
    let new = initial_coalesced(seed, k, n_clauses, n, half);
    let s = rng_next(seed);
    let draw = |i: int| first_counter(rng_skip(s, i as nat), half);
    let sign = |i: int| first_weight(rng_skip(rng_next(seed ^ WEIGHT_XOR), i as nat));
    let rows = new.clauses.autos.map_values(|a: ClauseState| a.ta);
    assert forall|j: int, l: int| 0 <= j < rows.len() && 0 <= l < n implies #[trigger] rows[j][l] == draw(
        j * n + l,
    ) by {
        assert(j * n >= 0) by (nonlinear_arith)
            requires
                j >= 0,
        ;
        lemma_skip_adds(s, (j * n) as nat, l as nat);
    }
    lemma_flat_alike(rows, n, draw);
    lemma_flat_alike(new.weights, n_clauses, sign);
    assert(new.clauses.rngs + new.class_rngs =~= Seq::new(
        n_clauses + k,
        |i: int| clause_seed(seed, i),
    ));
}

/// The clauses and then the classes of a new sparse machine, and the clauses of a new regressor,
/// have each a stream of their own.
pub proof fn lemma_new_streams_in_order(seed: u64, k: nat, per: nat, n: nat, half: u8)
    ensures
        ({
            let sparse = initial_sparse_machine(seed, k, per, n, half);
            sparse.classes.map_values(|c: SparseClassModel| c.rngs).flatten()
                + sparse.classes.map_values(|c: SparseClassModel| c.rng) == Seq::new(
                k * per + k,
                |i: int| clause_seed(seed, i),
            )
        }),
        initial_regressor(seed, k, n, half).clauses.map_values(|c: ClauseModel| c.rng) == Seq::new(
            k,
            |i: int| clause_seed(seed, i),
        ),
{
    let sparse = initial_sparse_machine(seed, k, per, n, half);
    let stream = |i: int| clause_seed(seed, i);
    let streams = sparse.classes.map_values(|c: SparseClassModel| c.rngs);
    lemma_flat_alike(streams, per, stream);
    let all = streams.flatten() + sparse.classes.map_values(|c: SparseClassModel| c.rng);
    assert(all =~= Seq::new(k * per + k, stream));
    assert(initial_regressor(seed, k, n, half).clauses.map_values(|c: ClauseModel| c.rng)
        =~= Seq::new(k, stream));
}

/// What is drawn together is what is drawn one part after the other: masks, dropped clauses and
/// the seeds of replicas.
pub proof fn lemma_draws_follow(s: u64, digits: Seq<u8>, p: Chance, a: nat, b: nat)
    ensures
        mask_words(s, digits, a + b) == mask_words(s, digits, a) + mask_words(
            rng_skip(s, a * digits.len()),
            digits,
            b,
        ),
        drops_of(s, p, a + b) == drops_of(s, p, a) + drops_of(rng_skip(s, a), p, b),
        seeds_of(s, a + b) == seeds_of(s, a) + seeds_of(rng_skip(s, a), b),
        seeds_of(s, 1) == seq![rng_word(s)],
{
    let n = digits.len();
    let later = rng_skip(s, a * n);
    assert forall|k: int| 0 <= k < b implies mask_words(s, digits, a + b)[a + k] == mask_words(
        later,
        digits,
        b,
    )[k] by {
        assert((a + k) * n == a * n + k * n) by (nonlinear_arith);
        assert(k * n >= 0) by (nonlinear_arith)
            requires
                k >= 0,
        ;
        lemma_skip_adds(s, a * n, (k * n) as nat);
    }
    assert(mask_words(s, digits, a + b) =~= mask_words(s, digits, a) + mask_words(
        later,
        digits,
        b,
    ));
    assert forall|k: int| 0 <= k < b implies rng_skip(s, (a + k) as nat) == #[trigger] rng_skip(
        rng_skip(s, a),
        k as nat,
    ) by {
        lemma_skip_adds(s, a, k as nat);
    }
    assert forall|k: int| 0 <= k < b implies drops_of(s, p, a + b)[a + k] == drops_of(
        rng_skip(s, a),
        p,
        b,
    )[k] && seeds_of(s, a + b)[a + k] == seeds_of(rng_skip(s, a), b)[k] by {
        lemma_skip_adds(s, a, k as nat);
    }
    assert(drops_of(s, p, a + b) =~= drops_of(s, p, a) + drops_of(rng_skip(s, a), p, b));
    assert(seeds_of(s, a + b) =~= seeds_of(s, a) + seeds_of(rng_skip(s, a), b));
    assert(rng_skip(s, 0) == s);
    assert(seeds_of(s, 1) =~= seq![rng_word(s)]);
}

proof fn lemma_shuffle_moves(order: Seq<usize>, identity: Seq<usize>, s: u64, i: nat)
    requires
        i < order.len(),
        order.len() <= usize::MAX,
        identity == Seq::new(order.len(), |j: int| j as usize),
    ensures
        forall|j: int|
            0 <= j < order.len() ==> 0 <= (#[trigger] shuffle_from(identity, s, i)[j]) < order.len()
                && shuffle_from(order, s, i)[j] == order[shuffle_from(identity, s, i)[j] as int],
        shuffle_from(order, s, i).len() == order.len(),
        forall|j: int| i < j < order.len() ==> #[trigger] shuffle_from(order, s, i)[j] == order[j],
    decreases i,
{
    lemma_shuffle_permutes(order, s, i);
    if i > 0 {
        let k = rng_index(s, i as int + 1);
        assert(0 <= k < i + 1) by (nonlinear_arith)
            requires
                k == rng_word(s) as int % (i as int + 1),
                i >= 0,
        ;
        let next = swapped(order, i as int, k);
        let next_id = swapped(identity, i as int, k);
        let s1 = rng_next(s);
        let below = (i - 1) as nat;
        lemma_shuffle_moves(next, identity, s1, below);
        lemma_shuffle_moves(next_id, identity, s1, below);
        assert forall|j: int| 0 <= j < order.len() implies 0 <= (#[trigger] shuffle_from(
            identity,
            s,
            i,
        )[j]) < order.len() && shuffle_from(order, s, i)[j] == order[shuffle_from(
            identity,
            s,
            i,
        )[j] as int] by {
            let x = shuffle_from(identity, s1, below)[j] as int;
            assert(shuffle_from(next, s1, below)[j] == next[x]);
            assert(shuffle_from(next_id, s1, below)[j] == next_id[x]);
        }
        assert forall|j: int| i < j < order.len() implies #[trigger] shuffle_from(order, s, i)[j]
            == order[j] by {
            assert(shuffle_from(next, s1, below)[j] == next[j]);
        }
    }
}

proof fn lemma_shuffle_prefix(a: Seq<usize>, b: Seq<usize>, s: u64, i: nat)
    requires
        i < a.len() <= b.len(),
        forall|j: int| 0 <= j < a.len() ==> #[trigger] a[j] == b[j],
    ensures
        shuffle_from(a, s, i).len() == a.len(),
        shuffle_from(b, s, i).len() == b.len(),
        forall|j: int|
            0 <= j < a.len() ==> #[trigger] shuffle_from(a, s, i)[j] == shuffle_from(b, s, i)[j],
    decreases i,
{
    lemma_shuffle_permutes(a, s, i);
    lemma_shuffle_permutes(b, s, i);
    if i > 0 {
        let k = rng_index(s, i as int + 1);
        assert(0 <= k < i + 1) by (nonlinear_arith)
            requires
                k == rng_word(s) as int % (i as int + 1),
                i >= 0,
        ;
        lemma_shuffle_prefix(
            swapped(a, i as int, k),
            swapped(b, i as int, k),
            rng_next(s),
            (i - 1) as nat,
        );
    }
}

/// The sample that an epoch visits last is drawn first, among all of them; the samples before it
/// are in the order that is drawn next for one sample less, with the very last sample in the place
/// of the one that was taken.
pub proof fn lemma_order_is_drawn_from_the_back(s: u64, n: nat)
    requires
        1 <= n < usize::MAX,
    ensures
        ({
            let order = epoch_order_of(s, n + 1);
            let rest = epoch_order_of(rng_next(s), n);
            let last = rng_word(s) as int % (n + 1) as int;
            &&& order.len() == n + 1
            &&& order[n as int] == last
            &&& forall|j: int|
                0 <= j < n ==> #[trigger] order[j] == if rest[j] == last {
                    n as usize
                } else {
                    rest[j]
                }
        }),
{
    let identity = Seq::new(n + 1, |i: int| i as usize);
    let shorter = Seq::new(n, |i: int| i as usize);
    let k = rng_index(s, n as int + 1);
    assert(0 <= k < n + 1) by (nonlinear_arith)
        requires
            k == rng_word(s) as int % (n as int + 1),
            n >= 0,
    ;
    let next = swapped(identity, n as int, k);
    let s1 = rng_next(s);
    let order = epoch_order_of(s, n + 1);
    let rest = epoch_order_of(s1, n);
    lemma_epoch_order_permutes(s, n + 1);
    lemma_epoch_order_permutes(s1, n);
    assert(order == shuffle_from(next, s1, (n - 1) as nat));
    lemma_shuffle_moves(next, identity, s1, (n - 1) as nat);
    lemma_shuffle_prefix(shorter, identity, s1, (n - 1) as nat);
    assert(order[n as int] == next[n as int]);
    assert forall|j: int| 0 <= j < n implies #[trigger] order[j] == if rest[j] == k {
        n as usize
    } else {
        rest[j]
    } by {
        assert(rest[j] == shuffle_from(identity, s1, (n - 1) as nat)[j]);
        assert(rest[j] < n);
        assert(order[j] == next[rest[j] as int]);
    }
}

/// A new clause has weight 1 and no record of what it has seen. The clauses of a new regressor and
/// of a new sparse machine include nothing: all their literals are one step below the middle.
pub proof fn lemma_new_clauses_know_nothing(
    seed: u64,
    k: nat,
    per: nat,
    n: nat,
    half: u8,
    c: int,
    j: int,
    l: int,
)
    requires
        0 <= c < k,
        0 <= j < per,
        0 <= l < n,
        1 <= half,
        n <= u32::MAX,
    ensures
        ({
            let a = initial_machine(seed, k, per, n, half).classes[c].clauses[j];
            &&& a.weight == 1 && a.auto.ind[l] == half && !a.auto.cat[l]
            &&& a.auto.ta.len() == n && (a.auto.ta[l] == half || a.auto.ta[l] == half - 1)
        }),
        ({
            let a = initial_regressor(seed, per, n, half).clauses[j];
            &&& a.weight == 1 && a.auto.ind[l] == half && !a.auto.cat[l]
            &&& a.auto.ta.len() == n && a.auto.ta[l] == half - 1
        }),
        ({
            let a = initial_sparse_machine(seed, k, per, n, half).classes[c];
            let pools = a.pools[j];
            &&& a.weights[j] == 1
            &&& pools.included.len() == 0 && pools.unallocated.len() == 0
            &&& pools.excluded.len() == n && pools.excluded[l] == l
            &&& pools.excluded_state.len() == n && pools.excluded_state[l] == half - 1
        }),
        ({
            let a = initial_coalesced(seed, k, per, n, half);
            &&& a.clauses.autos[j].ind[l] == half && !a.clauses.autos[j].cat[l]
            &&& a.clauses.autos[j].ta[l] == half || a.clauses.autos[j].ta[l] == half - 1
            &&& a.weights[c][j] == 1 || a.weights[c][j] == -1
        }),
{
}

} // verus!
