//! The rule of a clause says when the clause votes.
use crate::bits::{literal, literals_of};
use crate::clause_bank::automata::{
    is_pair_below, lemma_rule_lists_included, literal_pair, rule_of, votes,
};
use crate::clause_bank::sparse::{sparse_votes, within, SparseModel};
use crate::clause_inspect::ClauseInspect;
use crate::models::autoencoder::coalesced_autoencoder::TMCoalescedAutoEncoder;
use crate::models::autoencoder::vanilla_autoencoder::TMAutoEncoder;
use crate::models::classification::coalesced_classifier::CoalescedTsetlinMachine;
use crate::models::classification::sparse_classifier::sparse_rule_of;
use crate::models::classification::vanilla_classifier::TsetlinMachine;
use crate::models::regression::vanilla_regressor::TMRegressor;
use vstd::prelude::*;

verus! {

/// A sample agrees with a rule: it has every feature that the rule names plainly, and lacks every
/// feature that the rule names negated.
pub open spec fn agrees(x: Seq<u8>, rule: Seq<(usize, bool)>) -> bool {
    forall|k: int|
        0 <= k < rule.len() ==> {
            let (feature, negated) = #[trigger] rule[k];
            if negated {
                x[feature as int] == 0
            } else {
                x[feature as int] != 0
            }
        }
}

/// A clause votes for the samples that agree with its rule, if the rule is not empty. A rule names
/// features that there are, and no literal twice.
pub proof fn lemma_rule_decides(ta: Seq<u8>, half: u8, n_features: nat, x: Seq<u8>)
    requires
        ta.len() == 2 * n_features,
        2 * n_features <= usize::MAX,
    ensures
        ({
            let rule = rule_of(ta, half, n_features as int, 2 * n_features);
            &&& votes(ta, half, literals_of(x, n_features as int)) <==> rule.len() > 0 && agrees(
                x,
                rule,
            )
            &&& forall|k: int| 0 <= k < rule.len() ==> (#[trigger] rule[k]).0 < n_features
            &&& rule.no_duplicates()
        }),
{
    let nf = n_features as int;
    let rule = rule_of(ta, half, nf, 2 * n_features);
    let lits = literals_of(x, nf);
    lemma_rule_lists_included(ta, half, n_features, 2 * n_features);
    lemma_rule_distinct(ta, half, n_features, 2 * n_features);
    assert forall|k: int| #![trigger rule[k]] 0 <= k < rule.len() implies exists|l: int|
        0 <= l < ta.len() && ta[l] >= half && rule[k] == #[trigger] literal_pair(l, nf) by {
        assert(is_pair_below(rule[k], nf, 2 * nf));
        let l = choose|l: int| 0 <= l < 2 * nf && rule[k] == #[trigger] literal_pair(l, nf);
        assert(rule.contains(literal_pair(l, nf)));
    }
    if votes(ta, half, lits) {
        let l = choose|l: int| 0 <= l < ta.len() && #[trigger] ta[l] >= half;
        assert(rule.contains(literal_pair(l, nf)));
        assert forall|k: int| 0 <= k < rule.len() implies {
            let (feature, negated) = #[trigger] rule[k];
            if negated {
                x[feature as int] == 0
            } else {
                x[feature as int] != 0
            }
        } by {
            let i = choose|i: int|
                0 <= i < ta.len() && ta[i] >= half && rule[k] == #[trigger] literal_pair(i, nf);
            assert(ta[i] >= half);
            assert(lits[i]);
            assert(literal(x, nf, i));
        }
    }
    if rule.len() > 0 && agrees(x, rule) {
        let l = choose|l: int|
            0 <= l < ta.len() && ta[l] >= half && rule[0] == #[trigger] literal_pair(l, nf);
        assert(ta[l] >= half);
        assert forall|i: int| 0 <= i < ta.len() && #[trigger] ta[i] >= half implies lits[i] by {
            let pair = literal_pair(i, nf);
            assert(rule.contains(pair));
            let k = choose|k: int| 0 <= k < rule.len() && rule[k] == pair;
            assert(rule[k] == pair);
            assert(literal(x, nf, i));
        }
    }
}

proof fn lemma_rule_distinct(ta: Seq<u8>, half: u8, n_features: nat, n: nat)
    requires
        n <= 2 * n_features <= usize::MAX,
    ensures
        rule_of(ta, half, n_features as int, n).no_duplicates(),
    decreases n,
{
    if n > 0 {
        let nf = n_features as int;
        let k = (n - 1) as nat;
        lemma_rule_distinct(ta, half, n_features, k);
        lemma_rule_lists_included(ta, half, n_features, k);
        let before = rule_of(ta, half, nf, k);
        let after = rule_of(ta, half, nf, n);
        assert forall|i: int, j: int| 0 <= i < j < after.len() implies after[i] != after[j] by {
            assert(after[i] == before[i]);
            if j < before.len() {
                assert(after[j] == before[j]);
            } else {
                assert(is_pair_below(before[i], nf, k as int));
                assert(after[j] == literal_pair(k as int, nf));
            }
        }
    }
}

/// The rule and the weight that a classifier reports of a clause are those with which the clause
/// votes for its own class.
pub proof fn lemma_machine_rule_decides(tm: &TsetlinMachine, c: int, j: int, x: Seq<u8>)
    requires
        tm.wf(),
        0 <= c < tm.config.n_classes,
        0 <= j < tm.config.clauses_per_class,
    ensures
        ({
            let clause = tm@.classes[c].clauses[j];
            let rule = tm.literals_of_clause(c, j);
            &&& votes(
                clause.auto.ta,
                tm.config.train.geom.half,
                literals_of(x, tm.config.n_features as int),
            ) <==> rule.len() > 0 && agrees(x, rule)
            &&& tm.weight_of(c, j) == clause.weight
            &&& tm.weighs(c) && tm.has_rules(c)
            &&& tm.clause_count() == tm.config.clauses_per_class
            &&& tm.output_count() == tm.config.n_classes
        }),
{
    let bank = tm.state.classes@[c];
    assert(bank.wf(&tm.config.train.geom, 1, tm.config.train.threshold));
    assert(bank.clauses@[j].wf(&tm.config.train.geom, 1, tm.config.train.threshold));
    lemma_rule_decides(
        tm@.classes[c].clauses[j].auto.ta,
        tm.config.train.geom.half,
        tm.config.n_features as nat,
        x,
    );
}

/// The rule and the weight that an autoencoder reports of a clause are those with which the clause
/// votes for its own output.
pub proof fn lemma_autoencoder_rule_decides(tm: &TMAutoEncoder, o: int, j: int, x: Seq<u8>)
    requires
        tm.wf(),
        0 <= o < tm.config.n_features,
        0 <= j < tm.config.clauses_per_output,
    ensures
        ({
            let clause = tm@.classes[o].clauses[j];
            let rule = tm.literals_of_clause(o, j);
            &&& votes(
                clause.auto.ta,
                tm.config.train.geom.half,
                literals_of(x, tm.config.n_features as int),
            ) <==> rule.len() > 0 && agrees(x, rule)
            &&& tm.weight_of(o, j) == clause.weight
            &&& tm.weighs(o) && tm.has_rules(o)
            &&& tm.clause_count() == tm.config.clauses_per_output
            &&& tm.output_count() == tm.config.n_features
        }),
{
    let bank = tm.outputs@[o];
    assert(bank.wf(&tm.config.train.geom, 1, tm.config.train.threshold));
    assert(bank.clauses@[j].wf(&tm.config.train.geom, 1, tm.config.train.threshold));
    lemma_rule_decides(
        tm@.classes[o].clauses[j].auto.ta,
        tm.config.train.geom.half,
        tm.config.n_features as nat,
        x,
    );
}

/// The rule that a coalesced classifier reports of a clause is that by which the clause votes, for
/// every class, and the weight is that of the clause for the class.
pub proof fn lemma_coalesced_rule_decides(tm: &CoalescedTsetlinMachine, c: int, j: int, x: Seq<u8>)
    requires
        tm.wf(),
        0 <= c < tm.config.n_classes,
        0 <= j < tm.config.n_clauses,
    ensures
        ({
            let rule = tm.literals_of_clause(c, j);
            &&& votes(
                tm@.clauses.autos[j].ta,
                tm.config.train.geom.half,
                literals_of(x, tm.config.n_features as int),
            ) <==> rule.len() > 0 && agrees(x, rule)
            &&& tm.weight_of(c, j) == tm@.weights[c][j]
            &&& tm.weighs(c) && tm.has_rules(c)
            &&& tm.clause_count() == tm.config.n_clauses
            &&& tm.output_count() == tm.config.n_classes
        }),
{
    assert(tm.clauses@[j].auto.wf(&tm.config.train.geom));
    lemma_rule_decides(
        tm@.clauses.autos[j].ta,
        tm.config.train.geom.half,
        tm.config.n_features as nat,
        x,
    );
}

/// The rule that a coalesced autoencoder reports of a clause is that by which the clause votes, for
/// every output, and the weight is that of the clause for the output.
pub proof fn lemma_coalesced_autoencoder_rule_decides(
    tm: &TMCoalescedAutoEncoder,
    o: int,
    j: int,
    x: Seq<u8>,
)
    requires
        tm.wf(),
        0 <= o < tm.config.n_features,
        0 <= j < tm.config.n_clauses,
    ensures
        ({
            let rule = tm.literals_of_clause(o, j);
            &&& votes(
                tm@.clauses.autos[j].ta,
                tm.config.train.geom.half,
                literals_of(x, tm.config.n_features as int),
            ) <==> rule.len() > 0 && agrees(x, rule)
            &&& tm.weight_of(o, j) == tm@.weights[o][j]
            &&& tm.weighs(o) && tm.has_rules(o)
            &&& tm.clause_count() == tm.config.n_clauses
            &&& tm.output_count() == tm.config.n_features
        }),
{
    assert(tm.clauses@[j].auto.wf(&tm.config.train.geom));
    lemma_rule_decides(
        tm@.clauses.autos[j].ta,
        tm.config.train.geom.half,
        tm.config.n_features as nat,
        x,
    );
}

/// The rule and the weight that a regressor reports of a clause are those with which the clause
/// votes.
pub proof fn lemma_regressor_rule_decides(tm: &TMRegressor, o: int, j: int, x: Seq<u8>)
    requires
        tm.wf(),
        0 <= j < tm.config.n_clauses,
    ensures
        ({
            let rule = tm.literals_of_clause(o, j);
            &&& votes(
                tm@.clauses[j].auto.ta,
                tm.config.train.geom.half,
                literals_of(x, tm.config.n_features as int),
            ) <==> rule.len() > 0 && agrees(x, rule)
            &&& tm.weight_of(o, j) == tm@.clauses[j].weight
            &&& tm.clause_count() == tm.config.n_clauses
            &&& tm.output_count() == 1
        }),
{
    assert(tm.clauses@[j].wf(&tm.config.train.geom, 0, tm.config.train.threshold));
    lemma_rule_decides(
        tm@.clauses[j].auto.ta,
        tm.config.train.geom.half,
        tm.config.n_features as nat,
        x,
    );
}

proof fn lemma_sparse_rule_lists(included: Seq<u32>, nf: int, k: nat)
    requires
        k <= nf,
        2 * nf <= u32::MAX,
    ensures
        forall|f: int|
            #![trigger sparse_rule_of(included, nf, k).contains((f as usize, false))]
            0 <= f < k ==> (sparse_rule_of(included, nf, k).contains((f as usize, false))
                <==> included.contains(f as u32)),
        forall|f: int|
            #![trigger sparse_rule_of(included, nf, k).contains((f as usize, true))]
            0 <= f < k ==> (sparse_rule_of(included, nf, k).contains((f as usize, true))
                <==> included.contains((f + nf) as u32)),
        forall|i: int|
            0 <= i < sparse_rule_of(included, nf, k).len() ==> (#[trigger] sparse_rule_of(
                included,
                nf,
                k,
            )[i]).0 < k,
        sparse_rule_of(included, nf, k).no_duplicates(),
    decreases k,
{
    let list = sparse_rule_of(included, nf, k);
    if k > 0 {
        let last = k - 1;
        lemma_sparse_rule_lists(included, nf, (k - 1) as nat);
        let rest = sparse_rule_of(included, nf, (k - 1) as nat);
        let plain = (last as usize, false);
        let negated = (last as usize, true);
        let pos = if included.contains(last as u32) {
            rest.push(plain)
        } else {
            rest
        };
        assert(list == if included.contains((last + nf) as u32) {
            pos.push(negated)
        } else {
            pos
        });
        assert forall|p: (usize, bool)| p.0 < last implies (#[trigger] list.contains(p)
            <==> rest.contains(p)) by {
            if rest.contains(p) {
                let i = choose|i: int| 0 <= i < rest.len() && rest[i] == p;
                assert(list[i] == p);
            }
            if list.contains(p) {
                let i = choose|i: int| 0 <= i < list.len() && list[i] == p;
                assert(i < rest.len());
                assert(rest[i] == p);
            }
        }
        if included.contains(last as u32) {
            assert(list[rest.len() as int] == plain);
        }
        if included.contains((last + nf) as u32) {
            assert(list[pos.len() as int] == negated);
        }
        if list.contains(plain) {
            let i = choose|i: int| 0 <= i < list.len() && list[i] == plain;
            if i < rest.len() {
                assert(rest[i] == plain);
            }
        }
        if list.contains(negated) {
            let i = choose|i: int| 0 <= i < list.len() && list[i] == negated;
            if i < rest.len() {
                assert(rest[i] == negated);
            }
        }
        assert forall|f: int|
            #![trigger list.contains((f as usize, false))]
            0 <= f < k implies (list.contains((f as usize, false)) <==> included.contains(
            f as u32,
        )) by {
            if f < last {
                assert(rest.contains((f as usize, false)) <==> included.contains(f as u32));
            }
        }
        assert forall|f: int|
            #![trigger list.contains((f as usize, true))]
            0 <= f < k implies (list.contains((f as usize, true)) <==> included.contains(
            (f + nf) as u32,
        )) by {
            if f < last {
                assert(rest.contains((f as usize, true)) <==> included.contains((f + nf) as u32));
            }
        }
        assert forall|i: int, j: int| 0 <= i < j < list.len() implies list[i] != list[j] by {
            if j < rest.len() {
                assert(list[i] == rest[i] && list[j] == rest[j]);
            } else if i < rest.len() {
                assert(list[i] == rest[i]);
            }
        }
    }
}

/// A sparse clause votes for the samples that agree with its rule, if the rule is not empty. A rule
/// names features that there are, and no literal twice.
pub proof fn lemma_sparse_rule_decides(m: SparseModel, n_features: nat, x: Seq<u8>)
    requires
        within(m.included, 2 * n_features),
        2 * n_features <= u32::MAX,
    ensures
        ({
            let rule = sparse_rule_of(m.included, n_features as int, n_features);
            &&& sparse_votes(m, literals_of(x, n_features as int)) <==> rule.len() > 0 && agrees(
                x,
                rule,
            )
            &&& forall|k: int| 0 <= k < rule.len() ==> (#[trigger] rule[k]).0 < n_features
            &&& rule.no_duplicates()
        }),
{
    let nf = n_features as int;
    let rule = sparse_rule_of(m.included, nf, n_features);
    let lits = literals_of(x, nf);
    lemma_sparse_rule_lists(m.included, nf, n_features);
    assert forall|i: int| 0 <= i < m.included.len() implies rule.contains(
        #[trigger] literal_pair(m.included[i] as int, nf),
    ) by {
        let l = m.included[i] as int;
        assert(m.included[i] < 2 * n_features);
        assert(m.included.contains(m.included[i]));
        if l < nf {
            assert(rule.contains((l as usize, false)) <==> m.included.contains(l as u32));
        } else {
            let f = l - nf;
            assert(rule.contains((f as usize, true)) <==> m.included.contains((f + nf) as u32));
        }
    }
    assert forall|k: int| #![trigger rule[k]] 0 <= k < rule.len() implies exists|i: int|
        0 <= i < m.included.len() && rule[k] == #[trigger] literal_pair(m.included[i] as int, nf) by {
        let f = rule[k].0 as int;
        assert(rule.contains(rule[k]));
        assert(f < nf);
        let l = if rule[k].1 {
            f + nf
        } else {
            f
        };
        if rule[k].1 {
            assert(rule.contains((f as usize, true)));
        } else {
            assert(rule.contains((f as usize, false)));
        }
        assert(m.included.contains(l as u32));
        let i = choose|i: int| 0 <= i < m.included.len() && m.included[i] == l as u32;
        assert(rule[k] == literal_pair(m.included[i] as int, nf));
    }
    if sparse_votes(m, lits) {
        assert(rule.contains(literal_pair(m.included[0] as int, nf)));
        assert forall|k: int| 0 <= k < rule.len() implies {
            let (feature, negated) = #[trigger] rule[k];
            if negated {
                x[feature as int] == 0
            } else {
                x[feature as int] != 0
            }
        } by {
            let i = choose|i: int|
                0 <= i < m.included.len() && rule[k] == #[trigger] literal_pair(
                    m.included[i] as int,
                    nf,
                );
            assert(m.included[i] < 2 * n_features);
            assert(lits[m.included[i] as int]);
            assert(literal(x, nf, m.included[i] as int));
        }
    }
    if rule.len() > 0 && agrees(x, rule) {
        let i0 = choose|i: int|
            0 <= i < m.included.len() && rule[0] == #[trigger] literal_pair(
                m.included[i] as int,
                nf,
            );
        assert forall|i: int| 0 <= i < m.included.len() implies lits[#[trigger] m.included[i] as int] by {
            let l = m.included[i] as int;
            assert(m.included[i] < 2 * n_features);
            let pair = literal_pair(l, nf);
            assert(rule.contains(pair));
            let k = choose|k: int| 0 <= k < rule.len() && rule[k] == pair;
            assert(rule[k] == pair);
            assert(literal(x, nf, l));
        }
    }
}

} // verus!
