//! What the counts count.
use crate::bits::bit_at;
use crate::clause_bank::automata::{count_at, may_grow, ClauseState};
use crate::clause_bank::dense::{count_common, count_included};
use crate::clause_bank::feedback::{class_count_at, ClassModel, ClauseModel};
use crate::clause_bank::shared::{shared_count_at, SharedModel};
use crate::clause_bank::sparse::{absorbed_count, locked_count, tracked_count, SparseModel};
use crate::models::autoencoder::vanilla_autoencoder::{right_features, right_total};
use crate::models::classification::sparse_classifier::{
    machine_absorbed, machine_locked, SparseClassModel,
};
use crate::models::classification::vanilla_classifier::machine_count_at;
use crate::models::ranking::count_correct;
use vstd::prelude::*;

verus! {

proof fn lemma_filter_step<A>(s: Seq<A>, f: spec_fn(A) -> bool, n: nat)
    requires
        n < s.len(),
    ensures
        s.take(n as int + 1).filter(f).len() == s.take(n as int).filter(f).len() + if f(s[n as int]) {
            1nat
        } else {
            0
        },
{
    reveal(Seq::filter);
    let t = s.take(n as int + 1);
    assert(t.drop_last() =~= s.take(n as int));
    assert(t.last() == s[n as int]);
}

proof fn lemma_filter_none<A>(s: Seq<A>, f: spec_fn(A) -> bool)
    ensures
        s.take(0).filter(f).len() == 0,
{
    reveal(Seq::filter);
}

/// One more list is laid behind those before it.
pub proof fn lemma_flatten_step<A>(s: Seq<Seq<A>>, n: nat)
    requires
        n < s.len(),
    ensures
        s.take(n as int + 1).flatten() == s.take(n as int).flatten() + s[n as int],
{
    assert(s.take(n as int + 1) =~= s.take(n as int).push(s[n as int]));
    s.take(n as int).lemma_flatten_push(s[n as int]);
}

proof fn lemma_count_joins<A>(a: Seq<A>, b: Seq<A>, v: A)
    ensures
        (a + b).to_multiset().count(v) == a.to_multiset().count(v) + b.to_multiset().count(v),
{
    vstd::seq_lib::lemma_multiset_commutative(a, b);
}

proof fn lemma_count_none<A>(s: Seq<Seq<A>>, v: A)
    ensures
        s.take(0).flatten().to_multiset().count(v) == 0,
        s.take(0).flatten().len() == 0,
{
    broadcast use vstd::seq_lib::group_to_multiset_ensures;
    let none = s.take(0).flatten();
    assert(none =~= Seq::empty());
    assert(!none.contains(v));
    assert(none.to_multiset().count(v) == 0);
}

/// The counters in a state are those of the clause that have that value.
pub proof fn lemma_states_counted(ta: Seq<u8>, v: u8, n: nat)
    requires
        n <= ta.len(),
    ensures
        count_at(ta, v, n) == ta.take(n as int).to_multiset().count(v),
    decreases n,
{
    broadcast use vstd::seq_lib::group_to_multiset_ensures;
    if n > 0 {
        lemma_states_counted(ta, v, (n - 1) as nat);
        assert(ta.take(n as int) =~= ta.take(n - 1).push(ta[n - 1]));
        vstd::seq_lib::to_multiset_build(ta.take(n - 1), ta[n - 1]);
    } else {
        let none = ta.take(0);
        assert(!none.contains(v));
    }
}

/// The included literals are those whose counter has reached the middle.
pub proof fn lemma_included_counted(ta: Seq<u8>, half: u8, n: nat)
    requires
        n <= ta.len(),
    ensures
        count_included(ta, half, n) == ta.take(n as int).filter(|t: u8| t >= half).len(),
    decreases n,
{
    let f = |t: u8| t >= half;
    if n > 0 {
        lemma_included_counted(ta, half, (n - 1) as nat);
        lemma_filter_step(ta, f, (n - 1) as nat);
    } else {
        lemma_filter_none(ta, f);
    }
}

/// The bits that two words' worth of flags have in common.
pub proof fn lemma_common_counted(inc: Seq<u64>, valid: Seq<u64>, n: nat)
    ensures
        count_common(inc, valid, n) == Seq::new(
            n,
            |l: int| bit_at(inc, l) && bit_at(valid, l),
        ).filter(|b: bool| b).len(),
    decreases n,
{
    let f = |b: bool| b;
    let s = Seq::new(n, |l: int| bit_at(inc, l) && bit_at(valid, l));
    assert(s.take(n as int) =~= s);
    if n > 0 {
        lemma_common_counted(inc, valid, (n - 1) as nat);
        lemma_filter_step(s, f, (n - 1) as nat);
        assert(s.take(n - 1) =~= Seq::new(
            (n - 1) as nat,
            |l: int| bit_at(inc, l) && bit_at(valid, l),
        ));
    } else {
        lemma_filter_none(s, f);
    }
}

/// The counters of a class in a state: all counters of all its clauses are looked at.
pub proof fn lemma_class_states_counted(cs: Seq<ClauseModel>, v: u8, n: nat)
    requires
        n <= cs.len(),
    ensures
        class_count_at(cs, v, n) == cs.map_values(|c: ClauseModel| c.auto.ta).take(
            n as int,
        ).flatten().to_multiset().count(v),
    decreases n,
{
    let all = cs.map_values(|c: ClauseModel| c.auto.ta);
    if n > 0 {
        lemma_class_states_counted(cs, v, (n - 1) as nat);
        let ta = cs[n - 1].auto.ta;
        lemma_states_counted(ta, v, ta.len());
        assert(ta.take(ta.len() as int) =~= ta);
        lemma_flatten_step(all, (n - 1) as nat);
        lemma_count_joins(all.take(n - 1).flatten(), ta, v);
    } else {
        lemma_count_none(all, v);
    }
}

/// The counters of a machine in a state: all counters of all clauses of all classes are looked at.
pub proof fn lemma_machine_states_counted(cs: Seq<ClassModel>, v: u8, n: nat)
    requires
        n <= cs.len(),
    ensures
        machine_count_at(cs, v, n) == cs.map_values(
            |c: ClassModel| c.clauses.map_values(|k: ClauseModel| k.auto.ta).flatten(),
        ).take(n as int).flatten().to_multiset().count(v),
    decreases n,
{
    let all = cs.map_values(
        |c: ClassModel| c.clauses.map_values(|k: ClauseModel| k.auto.ta).flatten(),
    );
    if n > 0 {
        lemma_machine_states_counted(cs, v, (n - 1) as nat);
        let clauses = cs[n - 1].clauses;
        let own = clauses.map_values(|k: ClauseModel| k.auto.ta);
        lemma_class_states_counted(clauses, v, clauses.len());
        assert(own.take(clauses.len() as int) =~= own);
        lemma_flatten_step(all, (n - 1) as nat);
        lemma_count_joins(all.take(n - 1).flatten(), own.flatten(), v);
    } else {
        lemma_count_none(all, v);
    }
}

/// The counters of shared clauses in a state: all counters of all clauses are looked at.
pub proof fn lemma_shared_states_counted(m: SharedModel, v: u8, n: nat)
    requires
        n <= m.autos.len(),
    ensures
        shared_count_at(m, v, n) == m.autos.map_values(|a: ClauseState| a.ta).take(
            n as int,
        ).flatten().to_multiset().count(v),
    decreases n,
{
    let all = m.autos.map_values(|a: ClauseState| a.ta);
    if n > 0 {
        lemma_shared_states_counted(m, v, (n - 1) as nat);
        let ta = m.autos[n - 1].ta;
        lemma_states_counted(ta, v, ta.len());
        assert(ta.take(ta.len() as int) =~= ta);
        lemma_flatten_step(all, (n - 1) as nat);
        lemma_count_joins(all.take(n - 1).flatten(), ta, v);
    } else {
        lemma_count_none(all, v);
    }
}

/// Of the literals in the pools of sparse clauses: how many included ones are at the last state,
/// how many are tracked, and how many have been given up.
pub proof fn lemma_pools_counted(cs: Seq<SparseModel>, max: u8, n: nat)
    requires
        n <= cs.len(),
    ensures
        locked_count(cs, max, n) == cs.map_values(|c: SparseModel| c.included_state).take(
            n as int,
        ).flatten().to_multiset().count(max),
        tracked_count(cs, n) == cs.map_values(|c: SparseModel| c.included + c.excluded).take(
            n as int,
        ).flatten().len(),
        absorbed_count(cs, n) == cs.map_values(|c: SparseModel| c.unallocated).take(
            n as int,
        ).flatten().len(),
    decreases n,
{
    let states = cs.map_values(|c: SparseModel| c.included_state);
    let kept = cs.map_values(|c: SparseModel| c.included + c.excluded);
    let gone = cs.map_values(|c: SparseModel| c.unallocated);
    if n > 0 {
        lemma_pools_counted(cs, max, (n - 1) as nat);
        let own = cs[n - 1].included_state;
        lemma_states_counted(own, max, own.len());
        assert(own.take(own.len() as int) =~= own);
        lemma_flatten_step(states, (n - 1) as nat);
        lemma_flatten_step(kept, (n - 1) as nat);
        lemma_flatten_step(gone, (n - 1) as nat);
        lemma_count_joins(states.take(n - 1).flatten(), own, max);
    } else {
        lemma_count_none(states, max);
        lemma_count_none(kept, 0);
        lemma_count_none(gone, 0);
    }
}

/// Of the literals in the pools of a sparse machine: how many included ones are at the last
/// state, and how many have been given up, over all clauses of all classes.
pub proof fn lemma_machine_pools_counted(cs: Seq<SparseClassModel>, max: u8, n: nat)
    requires
        n <= cs.len(),
    ensures
        machine_locked(cs, max, n) == cs.map_values(
            |c: SparseClassModel| c.pools.map_values(|p: SparseModel| p.included_state).flatten(),
        ).take(n as int).flatten().to_multiset().count(max),
        machine_absorbed(cs, n) == cs.map_values(
            |c: SparseClassModel| c.pools.map_values(|p: SparseModel| p.unallocated).flatten(),
        ).take(n as int).flatten().len(),
    decreases n,
{
    let states = cs.map_values(
        |c: SparseClassModel| c.pools.map_values(|p: SparseModel| p.included_state).flatten(),
    );
    let gone = cs.map_values(
        |c: SparseClassModel| c.pools.map_values(|p: SparseModel| p.unallocated).flatten(),
    );
    if n > 0 {
        lemma_machine_pools_counted(cs, max, (n - 1) as nat);
        let pools = cs[n - 1].pools;
        let own = pools.map_values(|p: SparseModel| p.included_state);
        let own_gone = pools.map_values(|p: SparseModel| p.unallocated);
        lemma_pools_counted(pools, max, pools.len());
        assert(own.take(pools.len() as int) =~= own);
        assert(own_gone.take(pools.len() as int) =~= own_gone);
        lemma_flatten_step(states, (n - 1) as nat);
        lemma_flatten_step(gone, (n - 1) as nat);
        lemma_count_joins(states.take(n - 1).flatten(), own.flatten(), max);
    } else {
        lemma_count_none(states, max);
        lemma_count_none(gone, 0);
    }
}

/// The samples that are predicted rightly are those whose predicted class is their own.
pub proof fn lemma_correct_counted(predicted: Seq<int>, ys: Seq<usize>, n: nat)
    ensures
        count_correct(predicted, ys, n) == Seq::new(n, |i: int| i).filter(
            |i: int| predicted[i] == ys[i],
        ).len(),
    decreases n,
{
    let f = |i: int| predicted[i] == ys[i];
    let s = Seq::new(n, |i: int| i);
    assert(s.take(n as int) =~= s);
    if n > 0 {
        lemma_correct_counted(predicted, ys, (n - 1) as nat);
        lemma_filter_step(s, f, (n - 1) as nat);
        assert(s.take(n - 1) =~= Seq::new((n - 1) as nat, |i: int| i));
    } else {
        lemma_filter_none(s, f);
    }
}

/// The features that are reconstructed rightly are those that are set where the sample has them
/// and clear where it does not.
pub proof fn lemma_right_features_counted(recon: Seq<u8>, x: Seq<bool>, n: nat)
    ensures
        right_features(recon, x, n) == Seq::new(n, |f: int| f).filter(
            |f: int| (recon[f] == 1 && x[f]) || (recon[f] != 1 && !x[f]),
        ).len(),
    decreases n,
{
    let p = |f: int| (recon[f] == 1 && x[f]) || (recon[f] != 1 && !x[f]);
    let s = Seq::new(n, |f: int| f);
    assert(s.take(n as int) =~= s);
    if n > 0 {
        lemma_right_features_counted(recon, x, (n - 1) as nat);
        lemma_filter_step(s, p, (n - 1) as nat);
        assert(s.take(n - 1) =~= Seq::new((n - 1) as nat, |f: int| f));
    } else {
        lemma_filter_none(s, p);
    }
}

/// The features that are reconstructed rightly in a batch: those of all its samples, each compared
/// with its own reconstruction.
pub proof fn lemma_right_total_counted(
    recons: Seq<Seq<u8>>,
    xs: Seq<Seq<bool>>,
    n_features: nat,
    n: nat,
)
    ensures
        right_total(recons, xs, n_features, n) == Seq::new(
            n,
            |i: int|
                Seq::new(n_features, |f: int| f).filter(
                    |f: int| (recons[i][f] == 1 && xs[i][f]) || (recons[i][f] != 1 && !xs[i][f]),
                ),
        ).flatten().len(),
    decreases n,
{
    let lists = Seq::new(
        n,
        |i: int|
            Seq::new(n_features, |f: int| f).filter(
                |f: int| (recons[i][f] == 1 && xs[i][f]) || (recons[i][f] != 1 && !xs[i][f]),
            ),
    );
    assert(lists.take(n as int) =~= lists);
    if n > 0 {
        lemma_right_total_counted(recons, xs, n_features, (n - 1) as nat);
        lemma_right_features_counted(recons[n - 1], xs[n - 1], n_features);
        lemma_flatten_step(lists, (n - 1) as nat);
        assert(lists.take(n - 1) =~= Seq::new(
            (n - 1) as nat,
            |i: int|
                Seq::new(n_features, |f: int| f).filter(
                    |f: int| (recons[i][f] == 1 && xs[i][f]) || (recons[i][f] != 1 && !xs[i][f]),
                ),
        ));
    } else {
        lemma_count_none(lists, 0);
    }
}

/// A clause may include further literals while it includes fewer than the limit.
pub proof fn lemma_growth_is_limited(ta: Seq<u8>, half: u8, max_included: usize)
    requires
        ta.len() < usize::MAX,
    ensures
        may_grow(ta, half, max_included) <==> ta.filter(|t: u8| t >= half).len() < max_included,
{
    lemma_included_counted(ta, half, ta.len());
    assert(ta.take(ta.len() as int) =~= ta);
    lemma_filter_short(ta, |t: u8| t >= half);
}

proof fn lemma_filter_short<A>(s: Seq<A>, f: spec_fn(A) -> bool)
    ensures
        s.filter(f).len() <= s.len(),
    decreases s.len(),
{
    reveal(Seq::filter);
    if s.len() > 0 {
        lemma_filter_short(s.drop_last(), f);
    }
}

} // verus!
