use std::collections::HashMap;
use vstd::prelude::*;
use vstd::std_specs::iter::IteratorSpec;

verus! {

broadcast use vstd::std_specs::hash::group_hash_axioms;

/// One disjunction of a CNF formula: each literal index is mapped to the
/// polarity that satisfies the clause through it.
#[derive(Debug, PartialEq)]
pub struct Clause {
    pub literals: HashMap<usize, bool>,
}

impl View for Clause {
    type V = Map<usize, bool>;

    open spec fn view(&self) -> Map<usize, bool> {
        self.literals@
    }
}

/// A clause is satisfied by an assignment when some literal of it has, in
/// the assignment, the polarity that the clause requires.
pub open spec fn clause_satisfied(clause: Map<usize, bool>, assignment: Seq<bool>) -> bool {
    exists|k: usize|
        #![trigger clause.contains_key(k)]
        clause.contains_key(k) && (k as int) < assignment.len() && assignment[k as int] == clause[k]
}

/// Every literal index of the clause has a value in the assignment.
pub open spec fn clause_fits(clause: Map<usize, bool>, width: nat) -> bool {
    forall|k: usize| #[trigger] clause.contains_key(k) ==> (k as int) < width
}

/// A CNF formula: its clauses in order, and the number of distinct literal
/// indices that occur in them.
#[derive(Debug, PartialEq)]
pub struct Formula {
    pub clauses: Vec<Clause>,
    pub number_of_literals: usize,
}

impl Formula {
    pub open spec fn clauses_view(&self) -> Seq<Map<usize, bool>> {
        self.clauses@.map_values(|c: Clause| c@)
    }

    /// Every clause only names literals below `number_of_literals`, so an
    /// assignment of that width can be evaluated against it.
    pub open spec fn well_formed(&self) -> bool {
        forall|i: int|
            0 <= i < self.clauses@.len() ==> clause_fits(
                #[trigger] self.clauses@[i]@,
                self.number_of_literals as nat,
            )
    }

    /// True when every clause only names literals below
    /// `number_of_literals`.
    pub fn is_well_formed(&self) -> (r: bool)
        ensures
            r == self.well_formed(),
    {
        let mut i: usize = 0;
        while i < self.clauses.len()
            invariant
                i <= self.clauses@.len(),
                forall|j: int|
                    0 <= j < i ==> clause_fits(#[trigger] self.clauses@[j]@, self.number_of_literals as nat),
            decreases self.clauses@.len() - i,
        {
            let clause = &self.clauses[i];
            let entries = clause.literals.iter();
            proof {
                broadcast use vstd::std_specs::hash::axiom_spec_hash_map_iter;
            }
            let ghost pairs = entries.remaining();
            for (literal_number, literal_value) in it: entries
                invariant
                    it.seq() == pairs,
                    i < self.clauses@.len(),
                    clause@ == self.clauses@[i as int]@,
                    forall|k: usize|
                        #[trigger] clause@.contains_key(k) ==> pairs.contains((&k, &clause@[k])),
                    forall|t: int|
                        0 <= t < pairs.len() ==> clause@.contains_key(*(#[trigger] pairs[t]).0),
                    forall|t: int|
                        0 <= t < it.index() ==> *(#[trigger] pairs[t]).0 < self.number_of_literals,
            {
                if *literal_number >= self.number_of_literals {
                    assert(clause@.contains_key(*literal_number));
                    assert(self.clauses@[i as int]@ == clause@);
                    assert(!clause_fits(clause@, self.number_of_literals as nat));
                    return false;
                }
            }
            assert forall|k: usize| #[trigger] clause@.contains_key(k) implies (k as int) < self.number_of_literals by {
                assert(pairs.contains((&k, &clause@[k])));
                let t = choose|t: int| 0 <= t < pairs.len() && pairs[t] == (&k, &clause@[k]);
                assert(*pairs[t].0 == k);
            }
            i = i + 1;
        }
        true
    }
}

/// How many of `clauses` the assignment satisfies.
pub open spec fn satisfied_count(clauses: Seq<Map<usize, bool>>, assignment: Seq<bool>) -> nat
    decreases clauses.len(),
{
    if clauses.len() == 0 {
        0
    } else {
        satisfied_count(clauses.drop_last(), assignment) + if clause_satisfied(
            clauses.last(),
            assignment,
        ) {
            1nat
        } else {
            0nat
        }
    }
}

/// The fraction `satisfied / total` of the clauses of a formula that an
/// assignment satisfies, kept exact.
#[derive(Debug, Clone, Copy, PartialEq, Eq)]
pub struct Fitness {
    pub satisfied: usize,
    pub total: usize,
}

/// The score of an assignment against a list of clauses.
pub open spec fn fitness_of(clauses: Seq<Map<usize, bool>>, assignment: Seq<bool>) -> Fitness {
    Fitness { satisfied: satisfied_count(clauses, assignment) as usize, total: clauses.len() as usize }
}

/// The fitness of an assignment that satisfies no clause.
pub open spec fn zero_fitness() -> Fitness {
    Fitness { satisfied: 0, total: 1 }
}

/// `a` is at least as fit as `b` (compared as fractions).
pub open spec fn fitness_ge(a: Fitness, b: Fitness) -> bool {
    a.satisfied * b.total >= b.satisfied * a.total
}

/// A fitness in [0, 1] with a positive denominator.
pub open spec fn fitness_valid(f: Fitness) -> bool {
    0 < f.total && f.satisfied <= f.total
}

pub proof fn lemma_satisfied_count_bounded(clauses: Seq<Map<usize, bool>>, assignment: Seq<bool>)
    ensures
        satisfied_count(clauses, assignment) <= clauses.len(),
    decreases clauses.len(),
{
    if clauses.len() > 0 {
        lemma_satisfied_count_bounded(clauses.drop_last(), assignment);
    }
}

/// A fitness always lies between 0 and 1: the number of satisfied clauses
/// never exceeds the number of clauses, which is positive.
pub proof fn fitness_bounds(formula: Formula, solution: Seq<bool>)
    requires
        formula.clauses@.len() >= 1,
        formula.well_formed(),
        solution.len() == formula.number_of_literals,
    ensures
        0 <= satisfied_count(formula.clauses_view(), solution) <= formula.clauses_view().len(),
        formula.clauses_view().len() >= 1,
{
    lemma_satisfied_count_bounded(formula.clauses_view(), solution);
}

impl Fitness {
    /// The fitness of an assignment that satisfies nothing.
    pub fn zero() -> (r: Fitness)
        ensures
            r == zero_fitness(),
    {
        Fitness { satisfied: 0, total: 1 }
    }

    /// True when no clause is satisfied.
    pub fn is_zero(&self) -> (r: bool)
        ensures
            r == (self.satisfied == 0),
    {
        self.satisfied == 0
    }

    /// True when every clause is satisfied (the fitness is exactly 1).
    pub fn is_perfect(&self) -> (r: bool)
        ensures
            r == (self.satisfied == self.total),
    {
        self.satisfied == self.total
    }

    /// True when this fitness is strictly greater than `other`.
    pub fn exceeds(&self, other: &Fitness) -> (r: bool)
        ensures
            r == !fitness_ge(*other, *self),
    {
        proof {
            lemma_product_fits(self.satisfied, other.total);
            lemma_product_fits(other.satisfied, self.total);
        }
        let lhs: u128 = (self.satisfied as u128) * (other.total as u128);
        let rhs: u128 = (other.satisfied as u128) * (self.total as u128);
        lhs > rhs
    }
}

proof fn lemma_product_fits(a: usize, b: usize)
    ensures
        (a as u128) * (b as u128) <= u128::MAX,
{
    assert((a as int) * (b as int) <= (usize::MAX as int) * (usize::MAX as int)) by (nonlinear_arith)
        requires
            0 <= a <= usize::MAX,
            0 <= b <= usize::MAX,
    ;
}

/// A candidate assignment: position `i` holds the value of literal `i`.
#[derive(Debug, Clone, PartialEq)]
pub struct Solution {
    pub literals: Vec<bool>,
}

impl View for Solution {
    type V = Seq<bool>;

    open spec fn view(&self) -> Seq<bool> {
        self.literals@
    }
}

impl Solution {
    /// True when at least one literal of `clause` has the same value as the
    /// matching literal of this solution.
    pub fn satisfies_clause(&self, clause: &Clause) -> (r: bool)
        requires
            clause_fits(clause@, self@.len()),
        ensures
            r == clause_satisfied(clause@, self@),
    {
        let entries = clause.literals.iter();
        proof {
            broadcast use vstd::std_specs::hash::axiom_spec_hash_map_iter;
        }
        let ghost pairs = entries.remaining();
        for (literal_number, literal_value) in it: entries
            invariant
                it.seq() == pairs,
                clause_fits(clause@, self@.len()),
                forall|j: int|
                    0 <= j < it.seq().len() ==> clause@.contains_key(*(#[trigger] it.seq()[j]).0)
                        && clause@[*it.seq()[j].0] == *it.seq()[j].1,
                forall|k: usize|
                    #[trigger] clause@.contains_key(k) ==> it.seq().contains((&k, &clause@[k])),
                forall|j: int|
                    0 <= j < it.index() ==> !(self@[*(#[trigger] pairs[j]).0 as int] == *pairs[j].1),
        {
            if *literal_value == self.literals[*literal_number] {
                return true;
            }
        }
        assert(!clause_satisfied(clause@, self@)) by {
            if clause_satisfied(clause@, self@) {
                let k = choose|k: usize|
                    #![trigger clause@.contains_key(k)]
                    clause@.contains_key(k) && (k as int) < self@.len() && self@[k as int]
                        == clause@[k];
                assert(pairs.contains((&k, &clause@[k])));
            }
        }
        false
    }

    /// The fraction of the clauses of `formula` that this solution satisfies.
    pub fn evaluate(&self, formula: &Formula) -> (r: Fitness)
        requires
            formula.well_formed(),
            self@.len() == formula.number_of_literals,
        ensures
            r == fitness_of(formula.clauses_view(), self@),
            r.satisfied <= r.total,
            r.total == formula.clauses@.len(),
    {
        let mut count: usize = 0;
        let mut i: usize = 0;
        while i < formula.clauses.len()
            invariant
                formula.well_formed(),
                self@.len() == formula.number_of_literals,
                i <= formula.clauses@.len(),
                count == satisfied_count(formula.clauses_view().take(i as int), self@),
                count <= i,
            decreases formula.clauses@.len() - i,
        {
            let ghost cs = formula.clauses_view();
            assert(cs.take(i + 1).drop_last() == cs.take(i as int));
            assert(formula.clauses@[i as int]@ == cs[i as int]);
            if self.satisfies_clause(&formula.clauses[i]) {
                count = count + 1;
            }
            i = i + 1;
        }
        assert(formula.clauses_view().take(i as int) == formula.clauses_view());
        Fitness { satisfied: count, total: formula.clauses.len() }
    }
}

} // verus!
