use cugen::population::Population;
use cugen::sat::{Fitness, Solution};

fn solution(literals: &[bool]) -> Solution {
    Solution { literals: literals.to_vec() }
}

#[test]
fn test_map_fitness_to_individual_creates_a_map_of_each_individual_and_its_fitness() {
    let indivudials = vec![solution(&[true, false]), solution(&[false, true])];
    let population = Population::new(indivudials);
    // 0.1 and 0.9
    let population_fitness = vec![Fitness { satisfied: 1, total: 10 }, Fitness { satisfied: 9, total: 10 }];

    let expected_individual_fitness_map = vec![
        (solution(&[true, false]), Fitness { satisfied: 1, total: 10 }),
        (solution(&[false, true]), Fitness { satisfied: 9, total: 10 }),
    ];

    let individual_fitness_map = population.map_fitness_to_individuals(&population_fitness);

    assert_eq!(individual_fitness_map.len(), expected_individual_fitness_map.len());
    for tuple_index in 0..individual_fitness_map.len() {
        assert_eq!(
            individual_fitness_map.get(tuple_index).unwrap().0,
            expected_individual_fitness_map.get(tuple_index).unwrap().0
        );
        assert_eq!(
            individual_fitness_map.get(tuple_index).unwrap().1,
            expected_individual_fitness_map.get(tuple_index).unwrap().1
        );
    }
}

#[test]
fn test_map_fitness_to_individual_should_drop_indivudials_with_0_fitness() {
    let individuals = vec![solution(&[true, false]), solution(&[false, true])];
    let population = Population::new(individuals);
    // 0.0 and 0.5
    let population_fitness = vec![Fitness { satisfied: 0, total: 2 }, Fitness { satisfied: 1, total: 2 }];

    let expected_individual_fitness_map = vec![(solution(&[false, true]), Fitness { satisfied: 1, total: 2 })];

    let individual_fitness_map = population.map_fitness_to_individuals(&population_fitness);

    assert_eq!(individual_fitness_map.len(), expected_individual_fitness_map.len());
}

#[test]
fn map_fitness_keeps_the_survivor_and_its_fitness() {
    let population = Population::new(vec![solution(&[true, false]), solution(&[false, true])]);
    let map = population.map_fitness_to_individuals(&vec![
        Fitness { satisfied: 0, total: 2 },
        Fitness { satisfied: 1, total: 2 },
    ]);
    assert_eq!(map.len(), 1);
    assert_eq!(map[0].0, solution(&[false, true]));
    assert_eq!(map[0].1, Fitness { satisfied: 1, total: 2 });
}

#[test]
fn test_choose_individuals_to_breed_returns_the_whole_input_population_when_number_of_bredding_indivudials_equals_population_size() {
    let individuals = vec![solution(&[true, false]), solution(&[false, true])];
    // 0.5 each
    let individual_fitness_map = vec![
        (individuals[0].clone(), Fitness { satisfied: 1, total: 2 }),
        (individuals[1].clone(), Fitness { satisfied: 1, total: 2 }),
    ];
    let number_of_breeding_individuals = 2;

    let breeding_population =
        Population::select_breeding_population(&individual_fitness_map, number_of_breeding_individuals);

    assert!(breeding_population[0] == individuals[0] || breeding_population[0] == individuals[1]);
    assert!(breeding_population[1] == individuals[0] || breeding_population[1] == individuals[1]);
}

#[test]
fn selection_with_equal_weights_takes_both_individuals() {
    let individuals = vec![solution(&[true, false]), solution(&[false, true])];
    let map = vec![
        (individuals[0].clone(), Fitness { satisfied: 1, total: 2 }),
        (individuals[1].clone(), Fitness { satisfied: 1, total: 2 }),
    ];
    let breeding_population = Population::select_breeding_population(&map, 2);
    assert_eq!(breeding_population.len(), 2);
    assert!(breeding_population.contains(&individuals[0]));
    assert!(breeding_population.contains(&individuals[1]));
}

#[test]
fn test_choose_individuals_to_breed_returns_a_vector_of_individuals_with_a_len_equal_to_number_of_breeding_individual() {
    // 0.5, 0.5 and 0.4
    let individual_fitness_map = vec![
        (solution(&[true, false]), Fitness { satisfied: 5, total: 10 }),
        (solution(&[false, true]), Fitness { satisfied: 5, total: 10 }),
        (solution(&[true, true]), Fitness { satisfied: 4, total: 10 }),
    ];
    let number_of_breeding_individuals = 2;

    let breeding_population =
        Population::select_breeding_population(&individual_fitness_map, number_of_breeding_individuals);

    assert_eq!(breeding_population.len(), number_of_breeding_individuals as usize);
}

#[test]
fn selection_draws_distinct_members_of_the_map() {
    let map = vec![
        (solution(&[true, false, false]), Fitness { satisfied: 5, total: 10 }),
        (solution(&[false, true, false]), Fitness { satisfied: 1, total: 10 }),
        (solution(&[false, false, true]), Fitness { satisfied: 9, total: 10 }),
        (solution(&[true, true, true]), Fitness { satisfied: 4, total: 10 }),
    ];
    let breeding_population = Population::select_breeding_population(&map, 3);
    assert_eq!(breeding_population.len(), 3);
    for (i, chosen) in breeding_population.iter().enumerate() {
        assert!(map.iter().any(|entry| entry.0 == *chosen));
        for other in breeding_population.iter().skip(i + 1) {
            assert_ne!(chosen, other);
        }
    }
}

#[test]
fn test_choose_individuals_to_breed_returns_an_empty_vector_when_individual_fitness_map_is_empty() {
    let individual_fitness_map: Vec<(Solution, Fitness)> = Vec::new();
    let number_of_breeding_indivuduals = 1;

    let breeding_population =
        Population::select_breeding_population(&individual_fitness_map, number_of_breeding_indivuduals);

    assert_eq!(breeding_population.len(), 0);
}

#[test]
fn test_choose_individuals_to_breed_returns_an_individual_vector_with_the_same_length_as_individual_fitness_map_when_it_is_smaller_than_number_of_breeding_population() {
    let individual_fitness_map = vec![(solution(&[true, false]), Fitness { satisfied: 1, total: 2 })];
    let number_of_breeding_individuals = 2;

    let breeding_population =
        Population::select_breeding_population(&individual_fitness_map, number_of_breeding_individuals);

    assert_eq!(breeding_population.len(), individual_fitness_map.len());
}

#[test]
fn extinction_restarts_with_a_fresh_population_of_the_target_size() {
    let population = Population::new(vec![solution(&[true, false, true]), solution(&[false, true, true])]);
    let fitness = vec![Fitness { satisfied: 0, total: 2 }, Fitness { satisfied: 1, total: 2 }];
    let next = population.next_generation(&fitness, 10, 7, 1, 2);
    assert_eq!(next.individuals.len(), 7);
    assert!(next.individuals.iter().all(|s| s.literals.len() == 3));
    assert_eq!(next.best_fitness, Fitness { satisfied: 0, total: 1 });
}

#[test]
fn extinction_when_nobody_survives() {
    let population = Population::new(vec![solution(&[true]), solution(&[false])]);
    let fitness = vec![Fitness { satisfied: 0, total: 1 }, Fitness { satisfied: 0, total: 1 }];
    let next = population.next_generation(&fitness, 10, 4, 0, 1);
    assert_eq!(next.individuals.len(), 4);
    assert!(next.individuals.iter().all(|s| s.literals.len() == 1));
}

#[test]
fn next_generation_breeds_children_of_the_survivors() {
    let a = solution(&[true, true, true, true]);
    let b = solution(&[true, true, false, false]);
    let c = solution(&[false, false, false, false]);
    let population = Population::new(vec![a.clone(), b.clone(), c.clone()]);
    let fitness = vec![
        Fitness { satisfied: 2, total: 3 },
        Fitness { satisfied: 1, total: 3 },
        Fitness { satisfied: 0, total: 3 },
    ];
    let next = population.next_generation(&fitness, 10, 5, 0, 1);
    assert!(next.individuals.len() >= 5);
    for child in &next.individuals {
        // without mutation, every child is made of genes of `a` and `b` only
        assert_eq!(child.literals.len(), 4);
        assert!(child.literals[0]);
        assert!(child.literals[1]);
    }
}

#[test]
fn flip_literal_negates_one_value() {
    let flipped = Population::flip_literal(solution(&[true, false, true]), 1);
    assert_eq!(flipped, solution(&[true, true, true]));
}

#[test]
fn flip_random_literal_changes_exactly_one_value() {
    let original = solution(&[true, false, true, false, true]);
    let flipped = Population::flip_random_literal(original.clone());
    let changes = original.literals.iter().zip(flipped.literals.iter()).filter(|(a, b)| a != b).count();
    assert_eq!(changes, 1);
}

#[test]
fn mutation_never_happens_at_rate_zero() {
    let embrios = vec![solution(&[true, false]), solution(&[false, false]), solution(&[true])];
    let children = Population::mutation(embrios.clone(), 0, 10);
    assert_eq!(children, embrios);
}

#[test]
fn mutation_always_happens_at_rate_one() {
    let embrios = vec![solution(&[true, false, true]), solution(&[false, false]), solution(&[])];
    let children = Population::mutation(embrios.clone(), 10, 10);
    assert_eq!(children.len(), 3);
    for (child, embrio) in children.iter().zip(embrios.iter()).take(2) {
        let changes = child.literals.iter().zip(embrio.literals.iter()).filter(|(a, b)| a != b).count();
        assert_eq!(changes, 1);
    }
    assert_eq!(children[2], solution(&[]));
}

#[test]
fn coupling_pairs_positions_in_order() {
    let pool = vec![solution(&[true, true]), solution(&[false, false]), solution(&[true, true]), solution(&[true, true])];
    let children = Population::coupling(&pool, &vec![2, 3, 1, 1, 0]);
    assert_eq!(children.len(), 2);
    assert_eq!(children[0], solution(&[true, true]));
    assert_eq!(children[1], solution(&[false, false]));
}

#[test]
fn coupling_copies_each_gene_from_a_parent() {
    let pool = vec![solution(&[true, true, true, true, true, true]), solution(&[false, false, false])];
    let children = Population::coupling(&pool, &vec![0, 1]);
    assert_eq!(children.len(), 1);
    assert_eq!(children[0].literals.len(), 3);
}

#[test]
fn binary_crossover_returns_the_offspring() {
    let pool = vec![solution(&[true, true, true]), solution(&[true, true, true]), solution(&[true, true, true])];
    let offspring = Population::binary_crossover(pool, 5);
    // rounds of one child each: exactly five
    assert_eq!(offspring.len(), 5);
    assert!(offspring.iter().all(|c| *c == solution(&[true, true, true])));
}

#[test]
fn binary_crossover_mixes_only_parent_genes() {
    let pool = vec![solution(&[true, false, true]), solution(&[true, true, true])];
    let offspring = Population::binary_crossover(pool, 4);
    assert_eq!(offspring.len(), 4);
    assert!(offspring.iter().all(|c| c.literals[0] && c.literals[2]));
}

#[test]
fn genesis_builds_the_requested_shape() {
    let population = Population::genesis(6, 9);
    assert_eq!(population.individuals.len(), 9);
    assert!(population.individuals.iter().all(|s| s.literals.len() == 6));
    let none = Population::generate_random_individuals(3, 0);
    assert!(none.is_empty());
}

#[test]
fn best_fitness_is_the_maximum() {
    let fits = vec![
        Fitness { satisfied: 1, total: 4 },
        Fitness { satisfied: 3, total: 4 },
        Fitness { satisfied: 2, total: 4 },
    ];
    assert_eq!(Population::best_fitness(&fits), Fitness { satisfied: 3, total: 4 });
    assert_eq!(Population::best_fitness(&Vec::new()), Fitness { satisfied: 0, total: 1 });
}

#[test]
fn first_best_index_keeps_the_first_of_equals() {
    let fits = vec![
        Fitness { satisfied: 1, total: 4 },
        Fitness { satisfied: 3, total: 4 },
        Fitness { satisfied: 3, total: 4 },
    ];
    assert_eq!(Population::first_best_index(&fits, 4), 1);
    let zeros = vec![Fitness { satisfied: 0, total: 4 }, Fitness { satisfied: 0, total: 4 }];
    assert_eq!(Population::first_best_index(&zeros, 4), 0);
}

#[test]
fn binary_crossover_returns_whole_rounds() {
    let pool = vec![
        solution(&[true, false]),
        solution(&[true, false]),
        solution(&[true, false]),
        solution(&[true, false]),
        solution(&[true, false]),
    ];
    // five breeders make two children per round
    assert_eq!(Population::binary_crossover(pool.clone(), 5).len(), 6);
    assert_eq!(Population::binary_crossover(pool.clone(), 4).len(), 4);
    assert_eq!(Population::binary_crossover(pool, 0).len(), 0);
}

#[test]
fn uniform_crossover_follows_the_choices() {
    let first = solution(&[true, true, true, true]);
    let second = solution(&[false, false, false]);
    let child = Population::uniform_crossover(&first, &second, &vec![true, false, true, false]);
    assert_eq!(child, solution(&[true, false, true]));
    let all_second = Population::uniform_crossover(&first, &second, &vec![false, false, false]);
    assert_eq!(all_second, second);
}
