use crate::population::{
    Population, next_generation_outcome, is_first_best, max_fitness, uniform_width, lemma_perfect_max_is_attained,
};
use crate::sat::{
    Fitness, Formula, Solution, fitness_ge, fitness_of, lemma_satisfied_count_bounded, zero_fitness,
};
use vstd::prelude::*;

verus! {

/// The best assignment seen over the generations so far, with its fitness.
pub struct Record {
    pub individual: Solution,
    pub fitness: Fitness,
}

/// The fitness of each individual of a generation, in order.
pub open spec fn generation_fitness(formula: Formula, individuals: Seq<Seq<bool>>) -> Seq<Fitness> {
    Seq::new(individuals.len(), |j: int| fitness_of(formula.clauses_view(), individuals[j]))
}

/// A fitness of exactly 1.
pub open spec fn is_perfect(f: Fitness) -> bool {
    f.satisfied == f.total
}

/// The greatest fitness of a generation.
pub open spec fn generation_max(formula: Formula, individuals: Seq<Seq<bool>>) -> Fitness {
    max_fitness(generation_fitness(formula, individuals))
}

/// The first individual of a generation whose fitness no other exceeds.
pub open spec fn first_best_individual(formula: Formula, individuals: Seq<Seq<bool>>) -> Seq<bool> {
    individuals[choose|i: int| is_first_best(generation_fitness(formula, individuals), i)]
}

/// The record kept over the generations `history`, starting from `start`
/// with fitness zero: a generation whose best fitness is 1, or exceeds the
/// recorded one, replaces the record by its first best individual and that
/// fitness.
pub open spec fn record_after(formula: Formula, history: Seq<Seq<Seq<bool>>>, start: Seq<bool>) -> (
    Seq<bool>,
    Fitness,
)
    decreases history.len(),
{
    if history.len() == 0 {
        (start, zero_fitness())
    } else {
        let (individual, fitness) = record_after(formula, history.drop_last(), start);
        let best = generation_max(formula, history.last());
        if is_perfect(best) || !fitness_ge(fitness, best) {
            (first_best_individual(formula, history.last()), best)
        } else {
            (individual, fitness)
        }
    }
}

/// `history` is the list of generations that a run evaluated, in order, and
/// `start` the individual it recorded first: the first generation has
/// `population_size` individuals and `start` is its first; every generation
/// is a non-empty list of assignments of the formula's width; each
/// generation after the first is a possible result of `next_generation` on
/// the one before it, with that one's fitnesses; no generation but the last
/// has a best fitness of 1; at most `maximum_number_of_generations - 1` were
/// evaluated, and fewer only when the last one's best fitness is 1.
pub open spec fn is_run(
    formula: Formula,
    history: Seq<Seq<Seq<bool>>>,
    start: Seq<bool>,
    population_size: nat,
    maximum_number_of_generations: nat,
    maximum_number_of_breeding_individuals: nat,
    mutation_numerator: u32,
    mutation_denominator: u32,
) -> bool {
    &&& start.len() == formula.number_of_literals
    &&& history.len() == 0 || history.len() < maximum_number_of_generations
    &&& history.len() > 0 ==> history[0].len() == population_size && start == history[0][0]
    &&& forall|g: int|
        0 <= g < history.len() ==> (#[trigger] history[g]).len() > 0 && uniform_width(
            history[g],
            formula.number_of_literals as nat,
        )
    &&& forall|g: int|
        0 <= g < history.len() - 1 ==> !is_perfect(#[trigger] generation_max(formula, history[g]))
    &&& forall|g: int|
        #![trigger history[g]]
        0 <= g < history.len() - 1 ==> next_generation_outcome(
            history[g],
            generation_fitness(formula, history[g]),
            maximum_number_of_breeding_individuals,
            population_size,
            mutation_numerator,
            mutation_denominator,
            history[g + 1],
        )
    &&& history.len() + 1 < maximum_number_of_generations ==> history.len() > 0 && is_perfect(
        generation_max(formula, history.last()),
    )
}

/// At most one position of a list is its first best.
proof fn lemma_first_best_unique(fits: Seq<Fitness>, i: int, j: int)
    requires
        is_first_best(fits, i),
        is_first_best(fits, j),
    ensures
        i == j,
{
    if i < j {
        assert(fits[i].satisfied < fits[j].satisfied);
    } else if j < i {
        assert(fits[j].satisfied < fits[i].satisfied);
    }
}

/// Evaluates one generation and updates the record. The generation has
/// converged when its best fitness is exactly 1: the record then holds the
/// first individual of the generation with that fitness, which satisfies
/// every clause. Else, when the generation's best fitness exceeds the
/// recorded one, the record takes the generation's first best individual and
/// its fitness; otherwise it is left as it was. The fitnesses are returned
/// with the verdict.
pub fn track_generation(population: &mut Population, formula: &Formula, record: &mut Record) -> (r: (
    bool,
    Vec<Fitness>,
))
    requires
        formula.well_formed(),
        formula.clauses@.len() >= 1,
        old(population).individuals@.len() > 0,
        uniform_width(old(population).individuals_view(), formula.number_of_literals as nat),
    ensures
        final(population).individuals == old(population).individuals,
        r.1@ == generation_fitness(*formula, old(population).individuals_view()),
        final(population).best_fitness == max_fitness(r.1@),
        r.0 == (max_fitness(r.1@).satisfied == max_fitness(r.1@).total),
        r.0 ==> exists|i: int|
            is_first_best(r.1@, i) && final(record).individual@ == old(population).individuals_view()[i],
        r.0 ==> final(record).fitness == max_fitness(r.1@),
        r.0 ==> fitness_of(formula.clauses_view(), final(record).individual@).satisfied
            == fitness_of(formula.clauses_view(), final(record).individual@).total,
        !r.0 && !fitness_ge(old(record).fitness, max_fitness(r.1@)) ==> {
            &&& final(record).fitness == max_fitness(r.1@)
            &&& exists|i: int|
                is_first_best(r.1@, i) && final(record).individual@
                    == old(population).individuals_view()[i]
        },
        !r.0 && fitness_ge(old(record).fitness, max_fitness(r.1@)) ==> {
            &&& final(record).fitness == old(record).fitness
            &&& final(record).individual@ == old(record).individual@
        },
{
    let population_fitness = population.evaluate(formula);
    let ghost fits = population_fitness@;
    assert(fits == generation_fitness(*formula, population.individuals_view()));
    let generation_best_fitness = population.best_fitness;
    if generation_best_fitness.is_perfect() {
        let clause_count = formula.clauses.len();
        let best = population.best_individual(formula);
        proof {
            lemma_perfect_max_is_attained(fits);
            let j = choose|j: int| 0 <= j < fits.len() && (#[trigger] fits[j]).satisfied == fits[j].total;
            let i = choose|i: int| is_first_best(fits, i) && best@ == population.individuals_view()[i];
            lemma_satisfied_count_bounded(formula.clauses_view(), population.individuals_view()[i]);
            assert(fits[i] == fitness_of(formula.clauses_view(), population.individuals_view()[i]));
            assert(fits[j] == fitness_of(formula.clauses_view(), population.individuals_view()[j]));
            assert(fits[j].total == fits[i].total);
            assert(formula.clauses_view().len() == clause_count);
            assert(fits[i].satisfied >= fits[j].satisfied);
            assert(fits[i].satisfied == fits[i].total);
        }
        record.individual = best;
        record.fitness = generation_best_fitness;
        return (true, population_fitness);
    }
    if generation_best_fitness.exceeds(&record.fitness) {
        record.individual = population.best_individual(formula);
        record.fitness = generation_best_fitness;
    }
    (false, population_fitness)
}

/// Searches for an assignment that satisfies as many clauses of `formula`
/// as it can. It starts from a random population of `population_size`
/// individuals and runs up to `maximum_number_of_generations - 1`
/// generations; it stops at the first generation whose best fitness is 1 and
/// returns that generation's first perfect individual, and else returns the
/// best individual recorded over all generations (an individual of the first
/// generation when none had a fitness above zero). The generations it
/// evaluated are stated by `is_run`, and the result by `record_after`.
/// Mutation happens with probability `mutation_numerator /
/// mutation_denominator`.
pub fn optimize(
    formula: &Formula,
    population_size: usize,
    maximum_number_of_generations: usize,
    maximum_number_of_breeding_individuals: usize,
    mutation_numerator: u32,
    mutation_denominator: u32,
) -> (r: Solution)
    requires
        formula.well_formed(),
        1 <= formula.clauses@.len() <= u32::MAX,
        population_size >= 1,
        0 < mutation_denominator,
        mutation_numerator <= mutation_denominator,
    ensures
        r@.len() == formula.number_of_literals,
        exists|history: Seq<Seq<Seq<bool>>>, start: Seq<bool>|
            #[trigger] is_run(
                *formula,
                history,
                start,
                population_size as nat,
                maximum_number_of_generations as nat,
                maximum_number_of_breeding_individuals as nat,
                mutation_numerator,
                mutation_denominator,
            ) && r@ == record_after(*formula, history, start).0,
{
    let mut population = Population::genesis(formula.number_of_literals, population_size);
    assert(population.individuals_view()[0] == population.individuals@[0]@);
    let first = population.individuals[0].duplicate();
    let ghost start = first@;
    let ghost mut history: Seq<Seq<Seq<bool>>> = seq![];
    let mut record = Record { individual: first, fitness: Fitness::zero() };
    let mut generation: usize = 1;
    let mut converged = false;
    while generation < maximum_number_of_generations && !converged
        invariant
            history.len() == generation - 1,
            1 <= generation,
            generation <= maximum_number_of_generations || history.len() == 0,
            start.len() == formula.number_of_literals,
            history.len() == 0 ==> population.individuals@.len() == population_size
                && population.individuals_view()[0] == start,
            history.len() > 0 ==> history[0].len() == population_size && start == history[0][0],
            forall|g: int|
                0 <= g < history.len() ==> (#[trigger] history[g]).len() > 0 && uniform_width(
                    history[g],
                    formula.number_of_literals as nat,
                ),
            forall|g: int|
                0 <= g < history.len() - 1 ==> !is_perfect(#[trigger] generation_max(*formula, history[g])),
            converged ==> history.len() > 0 && is_perfect(generation_max(*formula, history.last())),
            !converged && history.len() > 0 ==> !is_perfect(generation_max(*formula, history.last())),
            record.individual@ == record_after(*formula, history, start).0,
            forall|g: int|
                #![trigger history[g]]
                0 <= g < history.len() - 1 ==> next_generation_outcome(
                    history[g],
                    generation_fitness(*formula, history[g]),
                    maximum_number_of_breeding_individuals as nat,
                    population_size as nat,
                    mutation_numerator,
                    mutation_denominator,
                    history[g + 1],
                ),
            !converged && history.len() > 0 ==> next_generation_outcome(
                history.last(),
                generation_fitness(*formula, history.last()),
                maximum_number_of_breeding_individuals as nat,
                population_size as nat,
                mutation_numerator,
                mutation_denominator,
                population.individuals_view(),
            ),
            record.fitness == record_after(*formula, history, start).1,
            formula.well_formed(),
            1 <= formula.clauses@.len() <= u32::MAX,
            population_size >= 1,
            0 < mutation_denominator,
            mutation_numerator <= mutation_denominator,
            population.individuals@.len() >= 1,
            uniform_width(population.individuals_view(), formula.number_of_literals as nat),
            record.individual@.len() == formula.number_of_literals,
        decreases maximum_number_of_generations - generation,
    {
        let ghost individuals = population.individuals_view();
        let ghost previous = history;
        let (perfect, population_fitness) = track_generation(&mut population, formula, &mut record);
        proof {
            history = history.push(individuals);
            assert(history.drop_last() == previous);
            assert(history.last() == individuals);
            assert(population_fitness@ == generation_fitness(*formula, individuals));
            let fits = population_fitness@;
            let c = choose|i: int| is_first_best(generation_fitness(*formula, individuals), i);
            let best = generation_max(*formula, individuals);
            let (ri, rf) = record_after(*formula, previous, start);
            if perfect || !fitness_ge(rf, best) {
                let i = choose|i: int| is_first_best(fits, i) && record.individual@ == individuals[i];
                lemma_first_best_unique(fits, i, c);
            }
            assert forall|g: int| 0 <= g < history.len() - 1 implies !is_perfect(
                #[trigger] generation_max(*formula, history[g]),
            ) by {
                assert(history[g] == previous[g]);
            }
            assert forall|g: int|
                #![trigger history[g]]
                0 <= g < history.len() - 1 implies next_generation_outcome(
                    history[g],
                    generation_fitness(*formula, history[g]),
                    maximum_number_of_breeding_individuals as nat,
                    population_size as nat,
                    mutation_numerator,
                    mutation_denominator,
                    history[g + 1],
                ) by {
                assert(history[g] == previous[g]);
                if g + 1 < previous.len() {
                    assert(history[g + 1] == previous[g + 1]);
                } else {
                    assert(previous[g] == previous.last());
                }
            }
            assert forall|g: int| 0 <= g < history.len() implies (#[trigger] history[g]).len() > 0
                && uniform_width(history[g], formula.number_of_literals as nat) by {
                if g < previous.len() {
                    assert(history[g] == previous[g]);
                }
            }
            if previous.len() == 0 {
                assert(history[0] == individuals);
            } else {
                assert(history[0] == previous[0]);
            }
        }
        if perfect {
            converged = true;
        } else {
            proof {
                assert(population.individuals_view()[0] == population.individuals@[0]@);
                assert forall|j: int| 0 <= j < population_fitness@.len() implies
                    (#[trigger] population_fitness@[j]).total == population_fitness@[0].total
                    && population_fitness@[j].satisfied <= u32::MAX by {
                    lemma_satisfied_count_bounded(formula.clauses_view(), individuals[j]);
                }
            }
            population = population.next_generation(
                &population_fitness,
                maximum_number_of_breeding_individuals,
                population_size,
                mutation_numerator,
                mutation_denominator,
            );
        }
        generation = generation + 1;
    }
    assert(is_run(
        *formula,
        history,
        start,
        population_size as nat,
        maximum_number_of_generations as nat,
        maximum_number_of_breeding_individuals as nat,
        mutation_numerator,
        mutation_denominator,
    ));
    record.individual
}

} // verus!
