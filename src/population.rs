use crate::random::{random_bool, random_index, random_ratio, shuffle_indices, choose_weighted};
use crate::sat::{Fitness, Formula, Solution, fitness_ge, fitness_of, zero_fitness};
use vstd::prelude::*;

verus! {

/// The views of a sequence of solutions.
pub open spec fn views(s: Seq<Solution>) -> Seq<Seq<bool>> {
    s.map_values(|x: Solution| x@)
}

/// Every assignment of `s` has `width` values.
pub open spec fn uniform_width(s: Seq<Seq<bool>>, width: nat) -> bool {
    forall|i: int| 0 <= i < s.len() ==> (#[trigger] s[i]).len() == width
}

/// The greatest fitness of a list, or the zero fitness when it is empty;
/// of equal values the earlier one is kept.
pub open spec fn max_fitness(fits: Seq<Fitness>) -> Fitness
    decreases fits.len(),
{
    if fits.len() == 0 {
        zero_fitness()
    } else {
        let m = max_fitness(fits.drop_last());
        if fitness_ge(m, fits.last()) {
            m
        } else {
            fits.last()
        }
    }
}

/// All fitnesses of the list have the denominator `total` (they were
/// computed against one formula).
pub open spec fn same_total(fits: Seq<Fitness>, total: usize) -> bool {
    forall|j: int| 0 <= j < fits.len() ==> (#[trigger] fits[j]).total == total
}

/// `i` is the first position of the list whose fitness is not exceeded by
/// any other (the fitnesses sharing one denominator).
pub open spec fn is_first_best(fits: Seq<Fitness>, i: int) -> bool {
    &&& 0 <= i < fits.len()
    &&& forall|j: int| 0 <= j < fits.len() ==> (#[trigger] fits[j]).satisfied <= fits[i].satisfied
    &&& forall|j: int| 0 <= j < i ==> (#[trigger] fits[j]).satisfied < fits[i].satisfied
}

/// The individuals of nonzero fitness, each paired with its fitness, in
/// their original order.
pub open spec fn survivors(individuals: Seq<Seq<bool>>, fits: Seq<Fitness>) -> Seq<(Seq<bool>, Fitness)>
    decreases individuals.len(),
{
    if individuals.len() == 0 {
        seq![]
    } else {
        let rest = survivors(individuals.drop_last(), fits);
        let i = individuals.len() - 1;
        if fits[i].satisfied == 0 {
            rest
        } else {
            rest.push((individuals[i], fits[i]))
        }
    }
}

/// The view of a list of (solution, fitness) pairs.
pub open spec fn pair_views(s: Seq<(Solution, Fitness)>) -> Seq<(Seq<bool>, Fitness)> {
    s.map_values(|p: (Solution, Fitness)| (p.0@, p.1))
}

/// `c` takes each gene from `a` or from `b`, at the same position, and is as
/// long as the shorter of them.
pub open spec fn child_of(c: Seq<bool>, a: Seq<bool>, b: Seq<bool>) -> bool {
    &&& c.len() == if a.len() <= b.len() { a.len() } else { b.len() }
    &&& forall|g: int| 0 <= g < c.len() ==> #[trigger] c[g] == a[g] || c[g] == b[g]
}

/// `c` is a child of two different members of `pool`.
pub open spec fn bred_from(c: Seq<bool>, pool: Seq<Seq<bool>>) -> bool {
    exists|i: int, j: int|
        0 <= i < pool.len() && 0 <= j < pool.len() && i != j && #[trigger] child_of(
            c,
            pool[i],
            pool[j],
        )
}

/// `e` with the value at position `k` negated.
pub open spec fn flip_at(e: Seq<bool>, k: int) -> Seq<bool> {
    e.update(k, !e[k])
}

/// `m` is `e` with exactly one value negated.
pub open spec fn flipped_once(m: Seq<bool>, e: Seq<bool>) -> bool {
    exists|k: int| 0 <= k < e.len() && m == #[trigger] flip_at(e, k)
}

/// `m` is `e`, or `e` with exactly one value negated.
pub open spec fn mutant_of(m: Seq<bool>, e: Seq<bool>) -> bool {
    m == e || flipped_once(m, e)
}

/// `idx` names, for each entry of `r`, a distinct position of `pool` that
/// holds it.
pub open spec fn drawn_at(r: Seq<Seq<bool>>, pool: Seq<Seq<bool>>, idx: Seq<int>) -> bool {
    &&& idx.len() == r.len()
    &&& idx.no_duplicates()
    &&& forall|i: int|
        0 <= i < idx.len() ==> 0 <= #[trigger] idx[i] < pool.len() && r[i] == pool[idx[i]]
}

/// `r` is drawn without replacement from the positions of `pool`.
pub open spec fn drawn_from(r: Seq<Seq<bool>>, pool: Seq<Seq<bool>>) -> bool {
    exists|idx: Seq<int>| #[trigger] drawn_at(r, pool, idx)
}

/// The assignments of a list of (solution, fitness) pairs.
pub open spec fn pair_solutions(s: Seq<(Solution, Fitness)>) -> Seq<Seq<bool>> {
    s.map_values(|p: (Solution, Fitness)| p.0@)
}

/// `0, 1, ..., n - 1`.
pub open spec fn index_range(n: nat) -> Seq<usize> {
    Seq::new(n, |i: int| i as usize)
}

proof fn lemma_views_push(s: Seq<Solution>, x: Solution)
    ensures
        views(s.push(x)) == views(s).push(x@),
{
    assert(views(s.push(x)) =~= views(s).push(x@));
}

/// A reordering of `0..n` holds each of its values once.
proof fn lemma_permuted_range(order: Seq<usize>, n: nat)
    requires
        order.to_multiset() == index_range(n).to_multiset(),
        n <= usize::MAX,
    ensures
        order.len() == n,
        order.no_duplicates(),
        forall|i: int| 0 <= i < order.len() ==> (#[trigger] order[i] as int) < n,
{
    let r = index_range(n);
    order.to_multiset_ensures();
    r.to_multiset_ensures();
    assert(r.no_duplicates());
    r.lemma_multiset_has_no_duplicates();
    order.lemma_multiset_has_no_duplicates_conv();
    assert forall|i: int| 0 <= i < order.len() implies (#[trigger] order[i] as int) < n by {
        assert(order.contains(order[i]));
        assert(order.to_multiset().count(order[i]) > 0);
        assert(r.to_multiset().count(order[i]) > 0);
        assert(r.contains(order[i]));
        let k = choose|k: int| 0 <= k < r.len() && r[k] == order[i];
        assert(r[k] == k as usize);
    }
}

/// One drawn from a draw of `pool`: a child of two members of the draw is a
/// child of two members of `pool`.
proof fn lemma_bred_from_draw(c: Seq<bool>, draw: Seq<Seq<bool>>, pool: Seq<Seq<bool>>)
    requires
        drawn_from(draw, pool),
        bred_from(c, draw),
    ensures
        bred_from(c, pool),
{
    let idx = choose|idx: Seq<int>| #[trigger] drawn_at(draw, pool, idx);
    let (i, j) = choose|i: int, j: int|
        0 <= i < draw.len() && 0 <= j < draw.len() && i != j && #[trigger] child_of(
            c,
            draw[i],
            draw[j],
        );
    assert(idx[i] != idx[j]);
    assert(child_of(c, pool[idx[i]], pool[idx[j]]));
}

/// The assignments of the individuals of nonzero fitness.
pub open spec fn survivor_solutions(individuals: Seq<Seq<bool>>, fits: Seq<Fitness>) -> Seq<Seq<bool>> {
    survivors(individuals, fits).map_values(|p: (Seq<bool>, Fitness)| p.0)
}

/// `c` is a possibly mutated child of two different members of `pool`.
pub open spec fn offspring_of(c: Seq<bool>, pool: Seq<Seq<bool>>) -> bool {
    exists|e: Seq<bool>| #[trigger] mutant_of(c, e) && bred_from(e, pool)
}

/// Each survivor is an individual with its own fitness.
proof fn lemma_survivors_from(individuals: Seq<Seq<bool>>, fits: Seq<Fitness>)
    requires
        fits.len() == individuals.len(),
    ensures
        forall|k: int|
            0 <= k < survivors(individuals, fits).len() ==> exists|j: int|
                0 <= j < individuals.len() && #[trigger] survivors(individuals, fits)[k] == (
                    individuals[j],
                    fits[j],
                ),
    decreases individuals.len(),
{
    if individuals.len() > 0 {
        let rest = individuals.drop_last();
        let shorter = fits.take(rest.len() as int);
        lemma_survivors_from(rest, shorter);
        lemma_survivors_prefix(rest, fits, shorter);
        let rs = survivors(rest, fits);
        let all = survivors(individuals, fits);
        assert forall|k: int| 0 <= k < all.len() implies exists|j: int|
            0 <= j < individuals.len() && #[trigger] all[k] == (individuals[j], fits[j]) by {
            if k < rs.len() {
                assert(all[k] == rs[k]);
                let j = choose|j: int|
                    0 <= j < rest.len() && #[trigger] survivors(rest, shorter)[k] == (
                        rest[j],
                        shorter[j],
                    );
                assert(individuals[j] == rest[j]);
                assert(all[k] == (individuals[j], fits[j]));
            } else {
                let last = individuals.len() - 1;
                assert(all[k] == (individuals[last], fits[last]));
            }
        }
    }
}

/// Only the first `individuals.len()` fitnesses matter.
proof fn lemma_survivors_prefix(individuals: Seq<Seq<bool>>, fits: Seq<Fitness>, other: Seq<Fitness>)
    requires
        fits.len() >= individuals.len(),
        other.len() >= individuals.len(),
        forall|j: int| 0 <= j < individuals.len() ==> fits[j] == other[j],
    ensures
        survivors(individuals, fits) == survivors(individuals, other),
    decreases individuals.len(),
{
    if individuals.len() > 0 {
        lemma_survivors_prefix(individuals.drop_last(), fits, other);
    }
}

/// `c` is a possible individual of a bred generation: a possibly mutated
/// child of two different members of `pool`, unmutated at rate 0, and with
/// exactly one value negated at rate 1 (when it has values).
pub open spec fn offspring_at_rate(c: Seq<bool>, pool: Seq<Seq<bool>>, numerator: u32, denominator: u32) -> bool {
    &&& offspring_of(c, pool)
    &&& numerator == 0 ==> bred_from(c, pool)
    &&& numerator == denominator && c.len() > 0 ==> exists|e: Seq<bool>|
        #[trigger] flipped_once(c, e) && bred_from(e, pool)
}

/// `next` is a possible result of `next_generation` on `individuals` with
/// their fitnesses `fits`: all of the first individual's width; when fewer
/// than two individuals can breed, exactly `target` fresh ones; else at
/// least `target` and fewer than `target` plus half the number of breeders,
/// each a possible offspring of two survivors at the given mutation rate.
pub open spec fn next_generation_outcome(
    individuals: Seq<Seq<bool>>,
    fits: Seq<Fitness>,
    max_breeders: nat,
    target: nat,
    numerator: u32,
    denominator: u32,
    next: Seq<Seq<bool>>,
) -> bool {
    let surviving = survivor_solutions(individuals, fits);
    let breeders = if max_breeders <= surviving.len() { max_breeders } else { surviving.len() };
    &&& uniform_width(next, individuals[0].len())
    &&& if surviving.len() <= 1 || max_breeders < 2 {
        next.len() == target
    } else {
        &&& target <= next.len() < target + breeders / 2
        &&& forall|c: int|
            0 <= c < next.len() ==> offspring_at_rate(#[trigger] next[c], surviving, numerator, denominator)
    }
}

/// One generation of candidate assignments.
pub struct Population {
    pub individuals: Vec<Solution>,
    pub best_fitness: Fitness,
}

impl Solution {
    /// A copy of this solution.
    pub fn duplicate(&self) -> (r: Solution)
        ensures
            r@ == self@,
    {
        let mut literals: Vec<bool> = Vec::new();
        let mut i: usize = 0;
        while i < self.literals.len()
            invariant
                i <= self@.len(),
                literals@ == self@.take(i as int),
            decreases self@.len() - i,
        {
            literals.push(self.literals[i]);
            i = i + 1;
        }
        assert(self@.take(i as int) == self@);
        Solution { literals }
    }
}

/// Under one positive denominator, comparing fractions is comparing their
/// numerators.
proof fn lemma_scaled_order(a: usize, b: usize, m: usize)
    requires
        m > 0,
    ensures
        (a * m > b * m) <==> (a > b),
        (a * m >= b * m) <==> (a >= b),
{
    assert((a * m > b * m) <==> (a > b)) by (nonlinear_arith)
        requires
            m > 0,
    ;
    assert((a * m >= b * m) <==> (a >= b)) by (nonlinear_arith)
        requires
            m > 0,
    ;
}

/// When the greatest fitness of a list is perfect, some entry is perfect.
pub(crate) proof fn lemma_perfect_max_is_attained(fits: Seq<Fitness>)
    requires
        max_fitness(fits).satisfied == max_fitness(fits).total,
    ensures
        exists|j: int| 0 <= j < fits.len() && (#[trigger] fits[j]).satisfied == fits[j].total,
    decreases fits.len(),
{
    if fits.len() > 0 {
        let m = max_fitness(fits.drop_last());
        if fitness_ge(m, fits.last()) {
            lemma_perfect_max_is_attained(fits.drop_last());
            let j = choose|j: int|
                0 <= j < fits.drop_last().len() && (#[trigger] fits.drop_last()[j]).satisfied
                    == fits.drop_last()[j].total;
            assert(fits[j] == fits.drop_last()[j]);
        } else {
            assert(fits[fits.len() - 1] == fits.last());
        }
    }
}

impl Population {
    pub open spec fn individuals_view(&self) -> Seq<Seq<bool>> {
        views(self.individuals@)
    }

    /// A population of the given individuals, with no fitness recorded yet.
    pub fn new(individuals: Vec<Solution>) -> (r: Population)
        ensures
            r.individuals@ == individuals@,
            r.best_fitness == zero_fitness(),
    {
        Population { individuals, best_fitness: Fitness::zero() }
    }

    /// The fitness of every individual, in order; the greatest of them is
    /// recorded as the generation's best fitness.
    pub fn evaluate(&mut self, formula: &Formula) -> (r: Vec<Fitness>)
        requires
            formula.well_formed(),
            uniform_width(old(self).individuals_view(), formula.number_of_literals as nat),
        ensures
            final(self).individuals == old(self).individuals,
            r@.len() == old(self).individuals@.len(),
            forall|i: int|
                0 <= i < r@.len() ==> #[trigger] r@[i] == fitness_of(
                    formula.clauses_view(),
                    old(self).individuals_view()[i],
                ),
            final(self).best_fitness == max_fitness(r@),
    {
        let mut population_fitness: Vec<Fitness> = Vec::new();
        let mut i: usize = 0;
        while i < self.individuals.len()
            invariant
                formula.well_formed(),
                uniform_width(self.individuals_view(), formula.number_of_literals as nat),
                i <= self.individuals@.len(),
                population_fitness@.len() == i,
                forall|j: int|
                    0 <= j < i ==> #[trigger] population_fitness@[j] == fitness_of(
                        formula.clauses_view(),
                        self.individuals_view()[j],
                    ),
            decreases self.individuals@.len() - i,
        {
            assert(self.individuals_view()[i as int] == self.individuals@[i as int]@);
            let f = self.individuals[i].evaluate(formula);
            population_fitness.push(f);
            i = i + 1;
        }
        self.best_fitness = Population::best_fitness(&population_fitness);
        population_fitness
    }

    /// The greatest fitness of the list, or zero when it is empty.
    pub fn best_fitness(population_fitness: &Vec<Fitness>) -> (r: Fitness)
        ensures
            r == max_fitness(population_fitness@),
    {
        let mut current_max = Fitness::zero();
        let mut i: usize = 0;
        while i < population_fitness.len()
            invariant
                i <= population_fitness@.len(),
                current_max == max_fitness(population_fitness@.take(i as int)),
            decreases population_fitness@.len() - i,
        {
            assert(population_fitness@.take(i + 1).drop_last() == population_fitness@.take(i as int));
            let value = population_fitness[i];
            if !value.exceeds(&current_max) {
            } else {
                current_max = value;
            }
            i = i + 1;
        }
        assert(population_fitness@.take(i as int) == population_fitness@);
        current_max
    }

    /// The position of the first fitness that no other exceeds.
    pub fn first_best_index(population_fitness: &Vec<Fitness>, total: usize) -> (r: usize)
        requires
            population_fitness@.len() > 0,
            total > 0,
            same_total(population_fitness@, total),
        ensures
            is_first_best(population_fitness@, r as int),
    {
        let mut best = Fitness::zero();
        let mut index: usize = 0;
        let mut i: usize = 0;
        while i < population_fitness.len()
            invariant
                total > 0,
                same_total(population_fitness@, total),
                i <= population_fitness@.len(),
                index < population_fitness@.len(),
                index == 0 || index < i,
                best == zero_fitness() || best == population_fitness@[index as int],
                best == zero_fitness() ==> index == 0,
                i > 0 ==> best.satisfied == population_fitness@[index as int].satisfied,
                forall|j: int| 0 <= j < i ==> (#[trigger] population_fitness@[j]).satisfied <= best.satisfied,
                forall|j: int| 0 <= j < index ==> (#[trigger] population_fitness@[j]).satisfied < best.satisfied,
            decreases population_fitness@.len() - i,
        {
            let value = population_fitness[i];
            proof {
                lemma_scaled_order(best.satisfied, value.satisfied, total);
                assert(value.total == total);
                if best == zero_fitness() {
                    assert(best.satisfied * value.total == 0) by (nonlinear_arith)
                        requires
                            best.satisfied == 0,
                    ;
                    assert(value.satisfied * best.total == value.satisfied);
                }
                assert(fitness_ge(best, value) <==> best.satisfied >= value.satisfied);
            }
            if value.exceeds(&best) {
                best = value;
                index = i;
            }
            i = i + 1;
        }
        index
    }

    /// A copy of the first individual whose fitness no other individual
    /// exceeds.
    pub fn best_individual(&self, formula: &Formula) -> (r: Solution)
        requires
            self.individuals@.len() > 0,
            formula.clauses@.len() > 0,
            formula.well_formed(),
            uniform_width(self.individuals_view(), formula.number_of_literals as nat),
        ensures
            exists|i: int|
                is_first_best(
                    Seq::new(
                        self.individuals@.len(),
                        |j: int| fitness_of(formula.clauses_view(), self.individuals_view()[j]),
                    ),
                    i,
                ) && r@ == self.individuals_view()[i],
    {
        let mut scratch = Population::new(Vec::new());
        let mut fits: Vec<Fitness> = Vec::new();
        let mut i: usize = 0;
        while i < self.individuals.len()
            invariant
                formula.well_formed(),
                uniform_width(self.individuals_view(), formula.number_of_literals as nat),
                i <= self.individuals@.len(),
                fits@.len() == i,
                forall|j: int|
                    0 <= j < i ==> #[trigger] fits@[j] == fitness_of(
                        formula.clauses_view(),
                        self.individuals_view()[j],
                    ),
            decreases self.individuals@.len() - i,
        {
            assert(self.individuals_view()[i as int] == self.individuals@[i as int]@);
            let f = self.individuals[i].evaluate(formula);
            fits.push(f);
            i = i + 1;
        }
        let ghost expected = Seq::new(
            self.individuals@.len(),
            |j: int| fitness_of(formula.clauses_view(), self.individuals_view()[j]),
        );
        assert(fits@ == expected);
        let index = Population::first_best_index(&fits, formula.clauses.len());
        assert(self.individuals_view()[index as int] == self.individuals@[index as int]@);
        self.individuals[index].duplicate()
    }
}

impl Population {
    /// `number_of_individuals` assignments of `individual_size` random values
    /// each.
    pub fn generate_random_individuals(individual_size: usize, number_of_individuals: usize) -> (r: Vec<Solution>)
        ensures
            r@.len() == number_of_individuals,
            uniform_width(views(r@), individual_size as nat),
    {
        let mut individuals: Vec<Solution> = Vec::new();
        let mut n: usize = 0;
        while n < number_of_individuals
            invariant
                n <= number_of_individuals,
                individuals@.len() == n,
                uniform_width(views(individuals@), individual_size as nat),
            decreases number_of_individuals - n,
        {
            let mut literals: Vec<bool> = Vec::new();
            let mut i: usize = 0;
            while i < individual_size
                invariant
                    i <= individual_size,
                    literals@.len() == i,
                decreases individual_size - i,
            {
                literals.push(random_bool());
                i = i + 1;
            }
            let ghost before = individuals@;
            let individual = Solution { literals };
            proof {
                lemma_views_push(before, individual);
            }
            individuals.push(individual);
            n = n + 1;
        }
        individuals
    }

    /// A fresh population of `population_size` random assignments of
    /// `individual_size` values each.
    pub fn genesis(individual_size: usize, population_size: usize) -> (r: Population)
        ensures
            r.individuals@.len() == population_size,
            uniform_width(r.individuals_view(), individual_size as nat),
            r.best_fitness == zero_fitness(),
    {
        let individuals = Population::generate_random_individuals(individual_size, population_size);
        Population::new(individuals)
    }

    /// Each individual paired with its fitness, leaving out those that
    /// satisfy no clause.
    pub fn map_fitness_to_individuals(&self, population_fitness: &Vec<Fitness>) -> (r: Vec<(Solution, Fitness)>)
        requires
            population_fitness@.len() == self.individuals@.len(),
        ensures
            pair_views(r@) == survivors(self.individuals_view(), population_fitness@),
    {
        let mut individual_fitness_map: Vec<(Solution, Fitness)> = Vec::new();
        let mut i: usize = 0;
        while i < self.individuals.len()
            invariant
                population_fitness@.len() == self.individuals@.len(),
                i <= self.individuals@.len(),
                pair_views(individual_fitness_map@) == survivors(
                    self.individuals_view().take(i as int),
                    population_fitness@,
                ),
            decreases self.individuals@.len() - i,
        {
            let ghost before = individual_fitness_map@;
            assert(self.individuals_view().take(i + 1).drop_last() == self.individuals_view().take(i as int));
            assert(self.individuals_view().take(i + 1)[i as int] == self.individuals@[i as int]@);
            let individual_fitness = population_fitness[i];
            if !individual_fitness.is_zero() {
                let copy = self.individuals[i].duplicate();
                individual_fitness_map.push((copy, individual_fitness));
                assert(pair_views(individual_fitness_map@) == pair_views(before).push((copy@, individual_fitness)));
            }
            i = i + 1;
        }
        assert(self.individuals_view().take(i as int) == self.individuals_view());
        individual_fitness_map
    }

    /// Draws up to `number_of_breeding_individuals` individuals of the map
    /// without replacement, each with a chance that grows with its fitness;
    /// all of them when the map holds fewer.
    pub fn select_breeding_population(
        individual_fitness_map: &Vec<(Solution, Fitness)>,
        number_of_breeding_individuals: usize,
    ) -> (r: Vec<Solution>)
        requires
            forall|j: int|
                0 <= j < individual_fitness_map@.len() ==> #[trigger] individual_fitness_map@[j].1.total
                    == individual_fitness_map@[0].1.total,
            forall|j: int|
                0 <= j < individual_fitness_map@.len() ==> (#[trigger] individual_fitness_map@[j]).1.satisfied
                    <= u32::MAX,
        ensures
            r@.len() == if number_of_breeding_individuals <= individual_fitness_map@.len() {
                number_of_breeding_individuals as int
            } else {
                individual_fitness_map@.len() as int
            },
            drawn_from(views(r@), pair_solutions(individual_fitness_map@)),
    {
        let mut pool: Vec<(usize, u32)> = Vec::new();
        let mut j: usize = 0;
        while j < individual_fitness_map.len()
            invariant
                j <= individual_fitness_map@.len(),
                pool@.len() == j,
                forall|k: int| 0 <= k < j ==> #[trigger] pool@[k].0 == k,
                forall|k: int|
                    0 <= k < individual_fitness_map@.len() ==> (#[trigger] individual_fitness_map@[k]).1.satisfied
                        <= u32::MAX,
            decreases individual_fitness_map@.len() - j,
        {
            let weight = individual_fitness_map[j].1.satisfied as u32;
            pool.push((j, weight));
            j = j + 1;
        }
        let chosen = choose_weighted(&pool, number_of_breeding_individuals);
        let mut breeders: Vec<Solution> = Vec::new();
        let mut i: usize = 0;
        let ghost pool_view = pair_solutions(individual_fitness_map@);
        while i < chosen.len()
            invariant
                i <= chosen@.len(),
                pool@.len() == individual_fitness_map@.len(),
                forall|k: int| 0 <= k < chosen@.len() ==> #[trigger] chosen@[k] < pool@.len(),
                pool_view == pair_solutions(individual_fitness_map@),
                breeders@.len() == i,
                forall|k: int|
                    0 <= k < i ==> (#[trigger] views(breeders@)[k]) == pool_view[chosen@[k] as int],
            decreases chosen@.len() - i,
        {
            let copy = individual_fitness_map[chosen[i]].0.duplicate();
            proof {
                lemma_views_push(breeders@, copy);
                assert(pool_view[chosen@[i as int] as int] == individual_fitness_map@[chosen@[i as int] as int].0@);
            }
            breeders.push(copy);
            i = i + 1;
        }
        let ghost idx = chosen@.map_values(|c: usize| c as int);
        assert(idx.no_duplicates()) by {
            assert forall|a: int, b: int| 0 <= a < idx.len() && 0 <= b < idx.len() && a != b implies idx[a] != idx[b] by {
                assert(chosen@[a] != chosen@[b]);
            }
        }
        assert(drawn_at(views(breeders@), pool_view, idx));
        breeders
    }

    /// The solution with its value at `index` negated.
    pub fn flip_literal(individual: Solution, index: usize) -> (r: Solution)
        requires
            index < individual@.len(),
        ensures
            r@ == flip_at(individual@, index as int),
    {
        let mut individual = individual;
        let value = individual.literals[index];
        individual.literals.set(index, !value);
        individual
    }

    /// The solution with one value, chosen at random, negated.
    pub fn flip_random_literal(individual: Solution) -> (r: Solution)
        requires
            individual@.len() > 0,
        ensures
            flipped_once(r@, individual@),
    {
        match random_index(individual.literals.len()) {
            Some(literal_index_to_flip) => {
                let r = Population::flip_literal(individual, literal_index_to_flip);
                assert(flip_at(individual@, literal_index_to_flip as int) == r@);
                r
            },
            None => individual,
        }
    }

    /// The child that takes each value from `first` where `choices` holds
    /// at that position and from `second` elsewhere; it is as long as the
    /// shorter parent.
    pub fn uniform_crossover(first: &Solution, second: &Solution, choices: &Vec<bool>) -> (r: Solution)
        requires
            choices@.len() >= first@.len() || choices@.len() >= second@.len(),
        ensures
            r@.len() == if first@.len() <= second@.len() { first@.len() } else { second@.len() },
            forall|g: int|
                0 <= g < r@.len() ==> #[trigger] r@[g] == if choices@[g] {
                    first@[g]
                } else {
                    second@[g]
                },
    {
        let len = if first.literals.len() <= second.literals.len() {
            first.literals.len()
        } else {
            second.literals.len()
        };
        let mut literals: Vec<bool> = Vec::new();
        let mut g: usize = 0;
        while g < len
            invariant
                g <= len,
                len <= first@.len(),
                len <= second@.len(),
                len <= choices@.len(),
                literals@.len() == g,
                forall|h: int|
                    0 <= h < g ==> #[trigger] literals@[h] == if choices@[h] {
                        first@[h]
                    } else {
                        second@[h]
                    },
            decreases len - g,
        {
            if choices[g] {
                literals.push(first.literals[g]);
            } else {
                literals.push(second.literals[g]);
            }
            g = g + 1;
        }
        Solution { literals }
    }

    /// One child for each couple `(order[2k], order[2k + 1])` of the pool:
    /// each of its values is copied from one parent or the other, chosen
    /// independently with equal chance. A last unpaired position is left out.
    pub fn coupling(pool: &Vec<Solution>, order: &Vec<usize>) -> (r: Vec<Solution>)
        requires
            forall|i: int| 0 <= i < order@.len() ==> #[trigger] order@[i] < pool@.len(),
        ensures
            r@.len() == order@.len() / 2,
            forall|k: int|
                0 <= k < r@.len() ==> child_of(
                    #[trigger] views(r@)[k],
                    views(pool@)[order@[2 * k] as int],
                    views(pool@)[order@[2 * k + 1] as int],
                ),
    {
        let mut embrios: Vec<Solution> = Vec::new();
        let mut k: usize = 0;
        while k < order.len() / 2
            invariant
                forall|i: int| 0 <= i < order@.len() ==> #[trigger] order@[i] < pool@.len(),
                k <= order@.len() / 2,
                embrios@.len() == k,
                forall|c: int|
                    0 <= c < k ==> child_of(
                        #[trigger] views(embrios@)[c],
                        views(pool@)[order@[2 * c] as int],
                        views(pool@)[order@[2 * c + 1] as int],
                    ),
            decreases order@.len() / 2 - k,
        {
            let first_parent = &pool[order[2 * k]];
            let second_parent = &pool[order[2 * k + 1]];
            let len = if first_parent.literals.len() <= second_parent.literals.len() {
                first_parent.literals.len()
            } else {
                second_parent.literals.len()
            };
            let mut choices: Vec<bool> = Vec::new();
            let mut g: usize = 0;
            while g < len
                invariant
                    g <= len,
                    choices@.len() == g,
                decreases len - g,
            {
                choices.push(random_bool());
                g = g + 1;
            }
            let embrio = Population::uniform_crossover(first_parent, second_parent, &choices);
            proof {
                lemma_views_push(embrios@, embrio);
                assert(views(pool@)[order@[2 * k] as int] == first_parent@);
                assert(views(pool@)[order@[2 * k + 1] as int] == second_parent@);
                assert(child_of(embrio@, first_parent@, second_parent@));
            }
            embrios.push(embrio);
            k = k + 1;
        }
        embrios
    }
}

/// Child `c` of round `t` when every round makes `h` children.
pub open spec fn round_child(r: Seq<Seq<bool>>, h: int, t: int, c: int) -> Seq<bool> {
    r[t * h + c]
}

/// `r` is made of `orders.len()` rounds of `pool.len() / 2` children. Each
/// order is a shuffle of the pool's positions, and child `c` of round `t` is
/// a child of the couple at positions `2c` and `2c + 1` of that round's
/// order, so each breeder is a parent at most once per round.
pub open spec fn bred_in_rounds(r: Seq<Seq<bool>>, pool: Seq<Seq<bool>>, orders: Seq<Seq<usize>>) -> bool {
    let h = pool.len() / 2;
    &&& r.len() == orders.len() * h
    &&& forall|t: int|
        0 <= t < orders.len() ==> (#[trigger] orders[t]).to_multiset() == index_range(
            pool.len(),
        ).to_multiset()
    &&& forall|t: int, c: int|
        0 <= t < orders.len() && 0 <= c < h ==> child_of(
            #[trigger] round_child(r, h as int, t, c),
            pool[orders[t][2 * c] as int],
            pool[orders[t][2 * c + 1] as int],
        )
}

proof fn lemma_round_index(s: int, t: int, c: int, h: int)
    requires
        0 <= s < t,
        0 <= c < h,
    ensures
        0 <= s * h + c < t * h,
        t * h + h == (t + 1) * h,
{
    assert(0 <= s * h + c < t * h) by (nonlinear_arith)
        requires
            0 <= s < t,
            0 <= c < h,
    ;
    assert(t * h + h == (t + 1) * h) by (nonlinear_arith);
}

impl Population {
    /// Offspring of the breeding individuals, in rounds of `n / 2` children
    /// (`n` breeders) until there are at least `number_of_individuals`: each
    /// round shuffles the breeders, pairs them up in order (a last odd one
    /// sits the round out) and makes one child per couple. All the children
    /// made are returned.
    pub fn binary_crossover(breeding_individuals: Vec<Solution>, number_of_individuals: usize) -> (r: Vec<Solution>)
        requires
            breeding_individuals@.len() >= 2,
        ensures
            number_of_individuals <= r@.len() < number_of_individuals + breeding_individuals@.len() / 2,
            exists|orders: Seq<Seq<usize>>|
                #[trigger] bred_in_rounds(views(r@), views(breeding_individuals@), orders),
            forall|c: int|
                0 <= c < r@.len() ==> bred_from(#[trigger] views(r@)[c], views(breeding_individuals@)),
    {
        let n = breeding_individuals.len();
        let h = n / 2;
        let ghost pool = views(breeding_individuals@);
        let ghost mut orders: Seq<Seq<usize>> = seq![];
        let mut embrios: Vec<Solution> = Vec::new();
        while embrios.len() < number_of_individuals
            invariant
                n == breeding_individuals@.len(),
                n >= 2,
                h == n / 2,
                pool == views(breeding_individuals@),
                embrios@.len() < number_of_individuals + h,
                bred_in_rounds(views(embrios@), pool, orders),
                forall|c: int| 0 <= c < embrios@.len() ==> bred_from(#[trigger] views(embrios@)[c], pool),
            decreases (if embrios@.len() < number_of_individuals {
                number_of_individuals - embrios@.len()
            } else {
                0
            }),
        {
            let mut order: Vec<usize> = Vec::new();
            let mut j: usize = 0;
            while j < n
                invariant
                    j <= n,
                    order@ == index_range(j as nat),
                decreases n - j,
            {
                order.push(j);
                j = j + 1;
                assert(order@ =~= index_range(j as nat));
            }
            shuffle_indices(&mut order);
            proof {
                lemma_permuted_range(order@, n as nat);
            }
            let couples = Population::coupling(&breeding_individuals, &order);
            let ghost start = embrios@.len();
            let ghost t = orders.len() as int;
            let mut k: usize = 0;
            while k < couples.len()
                invariant
                    k <= couples@.len(),
                    couples@.len() == h,
                    h == n / 2,
                    n == breeding_individuals@.len(),
                    order@.len() == n,
                    order@.no_duplicates(),
                    pool == views(breeding_individuals@),
                    pool.len() == n,
                    t == orders.len(),
                    start == t * h,
                    forall|i: int| 0 <= i < order@.len() ==> (#[trigger] order@[i] as int) < n,
                    forall|c: int|
                        0 <= c < couples@.len() ==> child_of(
                            #[trigger] views(couples@)[c],
                            views(breeding_individuals@)[order@[2 * c] as int],
                            views(breeding_individuals@)[order@[2 * c + 1] as int],
                        ),
                    forall|c: int| 0 <= c < embrios@.len() ==> bred_from(#[trigger] views(embrios@)[c], pool),
                    embrios@.len() == start + k,
                    forall|s: int, c: int|
                        0 <= s < orders.len() && 0 <= c < h ==> child_of(
                            #[trigger] round_child(views(embrios@), h as int, s, c),
                            pool[orders[s][2 * c] as int],
                            pool[orders[s][2 * c + 1] as int],
                        ),
                    forall|c: int|
                        0 <= c < k ==> child_of(
                            #[trigger] round_child(views(embrios@), h as int, t, c),
                            pool[order@[2 * c] as int],
                            pool[order@[2 * c + 1] as int],
                        ),
                decreases couples@.len() - k,
            {
                let child = couples[k].duplicate();
                proof {
                    assert(2 * k + 1 < order@.len());
                    let a = order@[2 * k] as int;
                    let b = order@[2 * k + 1] as int;
                    assert(0 <= a < n && 0 <= b < n);
                    assert(views(couples@)[k as int] == couples@[k as int]@);
                    assert(a != b);
                    assert(child_of(child@, pool[a], pool[b]));
                    assert(bred_from(child@, pool));
                    lemma_views_push(embrios@, child);
                }
                let ghost before = views(embrios@);
                embrios.push(child);
                k = k + 1;
                proof {
                    let after = views(embrios@);
                    assert forall|c: int| 0 <= c < embrios@.len() implies bred_from(#[trigger] views(embrios@)[c], pool) by {
                        if c < before.len() {
                            assert(after[c] == before[c]);
                        }
                    }
                    assert forall|s: int, c: int|
                        0 <= s < orders.len() && 0 <= c < h implies child_of(
                            #[trigger] round_child(after, h as int, s, c),
                            pool[orders[s][2 * c] as int],
                            pool[orders[s][2 * c + 1] as int],
                        ) by {
                        lemma_round_index(s, t, c, h as int);
                        assert(round_child(after, h as int, s, c) == round_child(before, h as int, s, c));
                    }
                    assert forall|c: int|
                        0 <= c < k implies child_of(
                            #[trigger] round_child(after, h as int, t, c),
                            pool[order@[2 * c] as int],
                            pool[order@[2 * c + 1] as int],
                        ) by {
                        if c < k - 1 {
                            assert(round_child(after, h as int, t, c) == round_child(before, h as int, t, c));
                        } else {
                            assert(round_child(after, h as int, t, c) == child@);
                        }
                    }
                }
            }
            proof {
                let old_orders = orders;
                orders = orders.push(order@);
                lemma_round_index(0, 1, 0, h as int);
                assert(t * h + h == (t + 1) * h) by (nonlinear_arith);
                assert forall|s: int, c: int|
                    0 <= s < orders.len() && 0 <= c < h implies child_of(
                        #[trigger] round_child(views(embrios@), h as int, s, c),
                        pool[orders[s][2 * c] as int],
                        pool[orders[s][2 * c + 1] as int],
                    ) by {
                    assert(orders[s] == if s < t { old_orders[s] } else { order@ });
                }
                assert forall|s: int| 0 <= s < orders.len() implies (#[trigger] orders[s]).to_multiset()
                    == index_range(pool.len()).to_multiset() by {
                    if s < t {
                        assert(orders[s] == old_orders[s]);
                    }
                }
                assert(bred_in_rounds(views(embrios@), pool, orders));
            }
        }
        embrios
    }
}

impl Population {
    /// Each individual is mutated with probability
    /// `mutation_numerator / mutation_denominator`, drawn once per individual:
    /// a mutation negates exactly one of its values, chosen at random. An
    /// individual without values is passed through.
    pub fn mutation(embrios: Vec<Solution>, mutation_numerator: u32, mutation_denominator: u32) -> (r: Vec<Solution>)
        requires
            0 < mutation_denominator,
            mutation_numerator <= mutation_denominator,
        ensures
            r@.len() == embrios@.len(),
            forall|i: int|
                0 <= i < r@.len() ==> mutant_of(#[trigger] views(r@)[i], views(embrios@)[i]),
            mutation_numerator == 0 ==> views(r@) == views(embrios@),
            mutation_numerator == mutation_denominator ==> forall|i: int|
                0 <= i < r@.len() && embrios@[i]@.len() > 0 ==> flipped_once(
                    #[trigger] views(r@)[i],
                    views(embrios@)[i],
                ),
    {
        let mut children: Vec<Solution> = Vec::new();
        let mut i: usize = 0;
        while i < embrios.len()
            invariant
                0 < mutation_denominator,
                mutation_numerator <= mutation_denominator,
                i <= embrios@.len(),
                children@.len() == i,
                forall|j: int|
                    0 <= j < i ==> mutant_of(#[trigger] views(children@)[j], views(embrios@)[j]),
                mutation_numerator == 0 ==> forall|j: int|
                    0 <= j < i ==> #[trigger] views(children@)[j] == views(embrios@)[j],
                mutation_numerator == mutation_denominator ==> forall|j: int|
                    0 <= j < i && embrios@[j]@.len() > 0 ==> flipped_once(
                        #[trigger] views(children@)[j],
                        views(embrios@)[j],
                    ),
            decreases embrios@.len() - i,
        {
            let embrio = embrios[i].duplicate();
            let mutate = random_ratio(mutation_numerator, mutation_denominator);
            let child = if mutate && embrio.literals.len() > 0 {
                Population::flip_random_literal(embrio)
            } else {
                embrio
            };
            proof {
                assert(views(embrios@)[i as int] == embrios@[i as int]@);
                lemma_views_push(children@, child);
            }
            children.push(child);
            i = i + 1;
        }
        proof {
            if mutation_numerator == 0 {
                assert(views(children@) =~= views(embrios@));
            }
        }
        children
    }

    /// The population that follows this one. The individuals of nonzero
    /// fitness survive; when fewer than two of them can breed (at most one
    /// survivor, or a breeding bound under two) the population died out and
    /// a fresh random one of `number_of_individuals_in_generation`
    /// individuals of the same width replaces it. Else up to
    /// `maximum_number_of_breeding_individuals` survivors are drawn by
    /// fitness, recombined into at least that many children, and mutated.
    pub fn next_generation(
        &self,
        population_fitness: &Vec<Fitness>,
        maximum_number_of_breeding_individuals: usize,
        number_of_individuals_in_generation: usize,
        mutation_numerator: u32,
        mutation_denominator: u32,
    ) -> (r: Population)
        requires
            self.individuals@.len() > 0,
            population_fitness@.len() == self.individuals@.len(),
            uniform_width(self.individuals_view(), self.individuals@[0]@.len()),
            forall|j: int|
                0 <= j < population_fitness@.len() ==> #[trigger] population_fitness@[j].total
                    == population_fitness@[0].total,
            forall|j: int|
                0 <= j < population_fitness@.len() ==> (#[trigger] population_fitness@[j]).satisfied
                    <= u32::MAX,
            0 < mutation_denominator,
            mutation_numerator <= mutation_denominator,
        ensures
            r.best_fitness == zero_fitness(),
            next_generation_outcome(
                self.individuals_view(),
                population_fitness@,
                maximum_number_of_breeding_individuals as nat,
                number_of_individuals_in_generation as nat,
                mutation_numerator,
                mutation_denominator,
                r.individuals_view(),
            ),
    {
        let ghost width = self.individuals@[0]@.len();
        let ghost surviving = survivor_solutions(self.individuals_view(), population_fitness@);
        let individual_fitness_map = self.map_fitness_to_individuals(population_fitness);
        proof {
            lemma_survivors_from(self.individuals_view(), population_fitness@);
            assert(pair_solutions(individual_fitness_map@) =~= surviving);
        }
        if individual_fitness_map.len() <= 1 || maximum_number_of_breeding_individuals < 2 {
            return Population::genesis(
                self.individuals[0].literals.len(),
                number_of_individuals_in_generation,
            );
        }
        proof {
            let sv = survivors(self.individuals_view(), population_fitness@);
            assert forall|j: int| 0 <= j < individual_fitness_map@.len() implies
                (#[trigger] individual_fitness_map@[j]).1.total == individual_fitness_map@[0].1.total
                && individual_fitness_map@[j].1.satisfied <= u32::MAX by {
                assert(pair_views(individual_fitness_map@)[j] == sv[j]);
                assert(pair_views(individual_fitness_map@)[0] == sv[0]);
                let a = choose|a: int| 0 <= a < self.individuals_view().len() && #[trigger] sv[j] == (self.individuals_view()[a], population_fitness@[a]);
                let b = choose|b: int| 0 <= b < self.individuals_view().len() && #[trigger] sv[0] == (self.individuals_view()[b], population_fitness@[b]);
                assert(sv[j].1 == population_fitness@[a]);
                assert(sv[0].1 == population_fitness@[b]);
            }
        }
        let breeding_population = Population::select_breeding_population(
            &individual_fitness_map,
            maximum_number_of_breeding_individuals,
        );
        let ghost breeders = views(breeding_population@);
        let embrios = Population::binary_crossover(breeding_population, number_of_individuals_in_generation);
        let next_gen_individuals = Population::mutation(embrios, mutation_numerator, mutation_denominator);
        proof {
            let sv = survivors(self.individuals_view(), population_fitness@);
            assert forall|k: int| 0 <= k < surviving.len() implies (#[trigger] surviving[k]).len() == width by {
                let a = choose|a: int| 0 <= a < self.individuals_view().len() && #[trigger] sv[k] == (self.individuals_view()[a], population_fitness@[a]);
                assert(surviving[k] == sv[k].0);
            }
            assert(self.individuals_view()[0] == self.individuals@[0]@);
            assert(individual_fitness_map@.len() == surviving.len());
            assert forall|c: int| 0 <= c < next_gen_individuals@.len() implies
                offspring_at_rate(#[trigger] views(next_gen_individuals@)[c], surviving, mutation_numerator, mutation_denominator)
                && views(next_gen_individuals@)[c].len() == width by {
                let e = views(embrios@)[c];
                lemma_bred_from_draw(e, breeders, surviving);
                assert(mutant_of(views(next_gen_individuals@)[c], e));
                assert(views(embrios@)[c] == embrios@[c]@);
                let (i, j) = choose|i: int, j: int|
                    0 <= i < surviving.len() && 0 <= j < surviving.len() && i != j && #[trigger] child_of(
                        e,
                        surviving[i],
                        surviving[j],
                    );
                assert(e.len() == width);
                if views(next_gen_individuals@)[c] != e {
                    let k = choose|k: int| 0 <= k < e.len() && views(next_gen_individuals@)[c] == #[trigger] flip_at(e, k);
                }
                if mutation_numerator == mutation_denominator && views(next_gen_individuals@)[c].len() > 0 {
                    assert(flipped_once(views(next_gen_individuals@)[c], e));
                }
                if mutation_numerator == 0 {
                    assert(views(next_gen_individuals@)[c] == e);
                }
            }
            assert(uniform_width(views(next_gen_individuals@), width));
        }
        Population::new(next_gen_individuals)
    }
}

} // verus!
