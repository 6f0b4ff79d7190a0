//! One way to look at the clauses of all models.
use crate::clause_bank::automata::rule_of;
use crate::models::autoencoder::coalesced_autoencoder::TMCoalescedAutoEncoder;
use crate::models::autoencoder::vanilla_autoencoder::TMAutoEncoder;
use crate::models::classification::coalesced_classifier::CoalescedTsetlinMachine;
use crate::models::classification::vanilla_classifier::TsetlinMachine;
use crate::models::regression::vanilla_regressor::TMRegressor;
use vstd::prelude::*;

verus! {

/// A model whose clauses can be looked at, whatever its kind. An output is a class of a
/// classifier and a feature of an autoencoder; a regressor has one. Clauses are counted per
/// output; models with shared clauses show the same clauses for every output.
pub trait ClauseInspect {
    /// The model is well-formed.
    spec fn valid(&self) -> bool;

    /// The number of clauses of an output.
    spec fn clause_count(&self) -> nat;

    /// The number of outputs.
    spec fn output_count(&self) -> nat;

    /// Clauses have weights for `output`.
    spec fn weighs(&self, output: int) -> bool;

    /// Clauses have rules for `output`.
    spec fn has_rules(&self, output: int) -> bool;

    /// The weight of a clause for an output.
    spec fn weight_of(&self, output: int, clause: int) -> int;

    /// The included literals of a clause.
    spec fn literals_of_clause(&self, output: int, clause: int) -> Seq<(usize, bool)>;

    /// The number of clauses of an output.
    fn n_clauses(&self) -> (r: usize)
        ensures
            r == self.clause_count(),
    ;

    /// The number of outputs.
    fn n_outputs(&self) -> (r: usize)
        ensures
            r == self.output_count(),
    ;

    /// The weight of a clause for an output.
    fn clause_weight(&self, output: usize, clause: usize) -> (r: i32)
        requires
            self.valid(),
            self.weighs(output as int),
            clause < self.clause_count(),
        ensures
            r == self.weight_of(output as int, clause as int),
    ;

    /// The included literals of a clause, as pairs of a feature and whether it is negated.
    fn clause_rule(&self, output: usize, clause: usize) -> (r: Vec<(usize, bool)>)
        requires
            self.valid(),
            self.has_rules(output as int),
            clause < self.clause_count(),
        ensures
            r@ == self.literals_of_clause(output as int, clause as int),
    ;
}

impl ClauseInspect for CoalescedTsetlinMachine {
    open spec fn valid(&self) -> bool {
        self.wf()
    }

    open spec fn clause_count(&self) -> nat {
        self.config.n_clauses as nat
    }

    open spec fn output_count(&self) -> nat {
        self.config.n_classes as nat
    }

    open spec fn weighs(&self, output: int) -> bool {
        0 <= output < self.config.n_classes
    }

    open spec fn has_rules(&self, output: int) -> bool {
        true
    }

    open spec fn weight_of(&self, output: int, clause: int) -> int {
        self@.weights[output][clause] as int
    }

    open spec fn literals_of_clause(&self, output: int, clause: int) -> Seq<(usize, bool)> {
        rule_of(
            self@.clauses.autos[clause].ta,
            self.config.train.geom.half,
            self.config.n_features as int,
            self.config.train.n(),
        )
    }

    fn n_clauses(&self) -> (r: usize) {
        self.n_clauses()
    }

    fn n_outputs(&self) -> (r: usize) {
        self.n_classes()
    }

    fn clause_weight(&self, output: usize, clause: usize) -> (r: i32) {
        self.clause_weight(output, clause)
    }

    fn clause_rule(&self, _output: usize, clause: usize) -> (r: Vec<(usize, bool)>) {
        self.clause_rule(clause)
    }
}

impl ClauseInspect for TsetlinMachine {
    open spec fn valid(&self) -> bool {
        self.wf()
    }

    open spec fn clause_count(&self) -> nat {
        self.config.clauses_per_class as nat
    }

    open spec fn output_count(&self) -> nat {
        self.config.n_classes as nat
    }

    open spec fn weighs(&self, output: int) -> bool {
        0 <= output < self.config.n_classes
    }

    open spec fn has_rules(&self, output: int) -> bool {
        0 <= output < self.config.n_classes
    }

    open spec fn weight_of(&self, output: int, clause: int) -> int {
        self@.classes[output].clauses[clause].weight as int
    }

    open spec fn literals_of_clause(&self, output: int, clause: int) -> Seq<(usize, bool)> {
        rule_of(
            self@.classes[output].clauses[clause].auto.ta,
            self.config.train.geom.half,
            self.config.n_features as int,
            self.config.train.n(),
        )
    }

    fn n_clauses(&self) -> (r: usize) {
        self.clauses_per_class()
    }

    fn n_outputs(&self) -> (r: usize) {
        self.n_classes()
    }

    fn clause_weight(&self, output: usize, clause: usize) -> (r: i32) {
        self.clause_weight(output, clause)
    }

    fn clause_rule(&self, output: usize, clause: usize) -> (r: Vec<(usize, bool)>) {
        self.clause_rule(output, clause)
    }
}

impl ClauseInspect for TMAutoEncoder {
    open spec fn valid(&self) -> bool {
        self.wf()
    }

    open spec fn clause_count(&self) -> nat {
        self.config.clauses_per_output as nat
    }

    open spec fn output_count(&self) -> nat {
        self.config.n_features as nat
    }

    open spec fn weighs(&self, output: int) -> bool {
        0 <= output < self.config.n_features
    }

    open spec fn has_rules(&self, output: int) -> bool {
        0 <= output < self.config.n_features
    }

    open spec fn weight_of(&self, output: int, clause: int) -> int {
        self@.classes[output].clauses[clause].weight as int
    }

    open spec fn literals_of_clause(&self, output: int, clause: int) -> Seq<(usize, bool)> {
        rule_of(
            self@.classes[output].clauses[clause].auto.ta,
            self.config.train.geom.half,
            self.config.n_features as int,
            self.config.train.n(),
        )
    }

    fn n_clauses(&self) -> (r: usize) {
        self.clauses_per_output()
    }

    fn n_outputs(&self) -> (r: usize) {
        self.n_features()
    }

    fn clause_weight(&self, output: usize, clause: usize) -> (r: i32) {
        self.clause_weight(output, clause)
    }

    fn clause_rule(&self, output: usize, clause: usize) -> (r: Vec<(usize, bool)>) {
        self.clause_rule(output, clause)
    }
}

impl ClauseInspect for TMCoalescedAutoEncoder {
    open spec fn valid(&self) -> bool {
        self.wf()
    }

    open spec fn clause_count(&self) -> nat {
        self.config.n_clauses as nat
    }

    open spec fn output_count(&self) -> nat {
        self.config.n_features as nat
    }

    open spec fn weighs(&self, output: int) -> bool {
        0 <= output < self.config.n_features
    }

    open spec fn has_rules(&self, output: int) -> bool {
        true
    }

    open spec fn weight_of(&self, output: int, clause: int) -> int {
        self@.weights[output][clause] as int
    }

    open spec fn literals_of_clause(&self, output: int, clause: int) -> Seq<(usize, bool)> {
        rule_of(
            self@.clauses.autos[clause].ta,
            self.config.train.geom.half,
            self.config.n_features as int,
            self.config.train.n(),
        )
    }

    fn n_clauses(&self) -> (r: usize) {
        self.n_clauses()
    }

    fn n_outputs(&self) -> (r: usize) {
        self.n_features()
    }

    fn clause_weight(&self, output: usize, clause: usize) -> (r: i32) {
        self.clause_weight(output, clause)
    }

    fn clause_rule(&self, _output: usize, clause: usize) -> (r: Vec<(usize, bool)>) {
        self.clause_rule(clause)
    }
}

impl ClauseInspect for TMRegressor {
    open spec fn valid(&self) -> bool {
        self.wf()
    }

    open spec fn clause_count(&self) -> nat {
        self.config.n_clauses as nat
    }

    open spec fn output_count(&self) -> nat {
        1
    }

    open spec fn weighs(&self, output: int) -> bool {
        true
    }

    open spec fn has_rules(&self, output: int) -> bool {
        true
    }

    open spec fn weight_of(&self, output: int, clause: int) -> int {
        self@.clauses[clause].weight as int
    }

    open spec fn literals_of_clause(&self, output: int, clause: int) -> Seq<(usize, bool)> {
        rule_of(
            self@.clauses[clause].auto.ta,
            self.config.train.geom.half,
            self.config.n_features as int,
            self.config.train.n(),
        )
    }

    fn n_clauses(&self) -> (r: usize) {
        self.n_clauses()
    }

    fn n_outputs(&self) -> (r: usize) {
        1
    }

    fn clause_weight(&self, _output: usize, clause: usize) -> (r: i32) {
        self.clause_weight(clause)
    }

    fn clause_rule(&self, _output: usize, clause: usize) -> (r: Vec<(usize, bool)>) {
        self.clause_rule(clause)
    }
}

} // verus!
