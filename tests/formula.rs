use std::collections::HashMap;

use cugen::dimacs::{parse_clause, parse_dimacs_formula};
use cugen::evolution::{optimize, track_generation, Record};
use cugen::population::Population;
use cugen::sat::{Clause, Fitness, Formula, Solution};

fn clause(entries: &[(usize, bool)]) -> Clause {
    let mut literals = HashMap::new();
    for (k, v) in entries {
        literals.insert(*k, *v);
    }
    Clause { literals }
}

fn solution(literals: &[bool]) -> Solution {
    Solution { literals: literals.to_vec() }
}

fn lines(text: &str) -> Vec<String> {
    text.lines().map(|l| l.to_string()).collect()
}

fn small_formula() -> Formula {
    Formula { clauses: vec![clause(&[(0, true), (1, true)]), clause(&[(0, false)])], number_of_literals: 2 }
}

#[test]
fn test_parse_clause_offsets_literals_by_minus_1() {
    let clause_as_string_slice = "1 -2 -3";

    let mut expected_literals = HashMap::new();
    expected_literals.insert(0, true);
    expected_literals.insert(1, false);
    expected_literals.insert(2, false);
    let expected_clause = Clause { literals: expected_literals };

    let clause = parse_clause(clause_as_string_slice);

    assert_eq!(clause, Some(expected_clause));
}

#[test]
fn test_parse_clause_ignores_0() {
    let clause_as_string_slice = "1 0";

    let mut expected_literals = HashMap::new();
    expected_literals.insert(0, true);
    let expected_clause = Clause { literals: expected_literals };

    let clause = parse_clause(clause_as_string_slice);

    assert_eq!(clause, Some(expected_clause));
}

#[test]
fn test_parse_clause_ignores_space_at_the_begining_of_the_clause() {
    let clause_as_string_slice = " 21 4";

    let mut expected_literals = HashMap::new();
    expected_literals.insert(20, true);
    expected_literals.insert(3, true);
    let expected_clause = Clause { literals: expected_literals };

    let clause = parse_clause(clause_as_string_slice);

    assert_eq!(clause, Some(expected_clause));
}

#[test]
fn parse_clause_accepts_a_plus_sign_and_tabs() {
    assert_eq!(parse_clause("+3\t-1\r"), Some(clause(&[(2, true), (0, false)])));
    assert_eq!(parse_clause(""), Some(clause(&[])));
    assert_eq!(parse_clause("2147483647"), Some(clause(&[(2147483646, true)])));
}

#[test]
fn parse_clause_splits_on_unicode_whitespace() {
    assert_eq!(parse_clause("\u{a0}"), Some(clause(&[])));
    assert_eq!(parse_clause("1\u{3000}-2\u{85}3\u{2028}0"), Some(clause(&[(0, true), (1, false), (2, true)])));
    assert_eq!(parse_clause("\u{200b}1"), None);
    assert_eq!(parse_clause("1\u{ff11}"), None);
}

#[test]
fn parse_clause_rejects_malformed_lines() {
    assert_eq!(parse_clause("1 x"), None);
    assert_eq!(parse_clause("-"), None);
    assert_eq!(parse_clause("1 - 2"), None);
    assert_eq!(parse_clause("1-2"), None);
    assert_eq!(parse_clause("--1"), None);
    assert_eq!(parse_clause("2147483648"), None);
}

#[test]
fn test_parse_dimacs_formula_from_file() {
    let text = "\
c This formula has been created to test cugen
c
c    horn? no
c    forced? no
c    mixed sat? no
c    clause length = 3
c
p cnf 4  5
 1 -2 3 4 0
3 0
-2 0
1 0
4 0
%
0
";
    let expected_formula = Formula {
        clauses: vec![
            clause(&[(0, true), (1, false), (2, true), (3, true)]),
            clause(&[(2, true)]),
            clause(&[(1, false)]),
            clause(&[(0, true)]),
            clause(&[(3, true)]),
        ],
        number_of_literals: 4,
    };

    let formula = parse_dimacs_formula(&lines(text));

    assert_eq!(formula, Some(expected_formula));
}

#[test]
fn parse_dimacs_formula_from_file_should_fill_assign_the_number_of_literals_in_the_formula() {
    let text = "\
c This formula has been created to test cugen
c
c    horn? no
c    forced? no
c    mixed sat? no
c    clause length = 3
c
p cnf 4  5
 1 -2 3 4 0
3 0
-2 0
1 0
4 0
%
0
";
    let expected_number_of_literals = 4;

    let formula = parse_dimacs_formula(&lines(text)).unwrap();

    assert_eq!(formula.number_of_literals, expected_number_of_literals);
}

#[test]
fn parse_dimacs_formula_counts_distinct_literals_once() {
    let text = "\
c This formula has been created to test cugen
c
c    horn? no
p cnf 3 2
 1 -2 0
-2 3 0
%
0
";
    let formula = parse_dimacs_formula(&lines(text)).unwrap();

    assert_eq!(formula.number_of_literals, 3);
}

#[test]
fn parse_dimacs_formula_reads_unicode_whitespace() {
    let formula = parse_dimacs_formula(&lines("1\u{a0}-2 0\n\u{3000}2\u{2003}0\n")).unwrap();
    assert_eq!(formula.clauses, vec![clause(&[(0, true), (1, false)]), clause(&[(1, true)])]);
    assert_eq!(formula.number_of_literals, 2);
}

#[test]
fn parse_dimacs_formula_rejects_a_bad_clause_line() {
    assert_eq!(parse_dimacs_formula(&lines("p cnf 1 1\n1 a 0\n")), None);
    let stopped = parse_dimacs_formula(&lines("1 0\n%\n1 a 0\n")).unwrap();
    assert_eq!(stopped.clauses.len(), 1);
}

#[test]
fn evaluate_scores_the_fraction_of_satisfied_clauses() {
    let formula = small_formula();
    assert_eq!(solution(&[false, true]).evaluate(&formula), Fitness { satisfied: 2, total: 2 });
    assert_eq!(solution(&[false, false]).evaluate(&formula), Fitness { satisfied: 1, total: 2 });
    assert_eq!(solution(&[true, false]).evaluate(&formula), Fitness { satisfied: 1, total: 2 });
    assert_eq!(solution(&[true, true]).evaluate(&formula), Fitness { satisfied: 1, total: 2 });
}

#[test]
fn fitness_stays_between_zero_and_one() {
    let formula = small_formula();
    for bits in [[false, false], [false, true], [true, false], [true, true]] {
        let f = solution(&bits).evaluate(&formula);
        assert!(f.satisfied <= f.total);
        assert_eq!(f.total, 2);
    }
}

#[test]
fn satisfies_clause_needs_a_matching_polarity() {
    let c = clause(&[(0, true), (2, false)]);
    assert!(solution(&[true, true, true]).satisfies_clause(&c));
    assert!(solution(&[false, true, false]).satisfies_clause(&c));
    assert!(!solution(&[false, true, true]).satisfies_clause(&c));
    assert!(!solution(&[false]).satisfies_clause(&clause(&[])));
}

#[test]
fn fitness_comparisons() {
    let half = Fitness { satisfied: 1, total: 2 };
    let two_thirds = Fitness { satisfied: 2, total: 3 };
    assert!(two_thirds.exceeds(&half));
    assert!(!half.exceeds(&two_thirds));
    assert!(!half.exceeds(&Fitness { satisfied: 2, total: 4 }));
    assert!(Fitness { satisfied: 3, total: 3 }.is_perfect());
    assert!(Fitness::zero().is_zero());
}

#[test]
fn well_formedness_checks_literal_indices() {
    assert!(small_formula().is_well_formed());
    let too_wide = Formula { clauses: vec![clause(&[(0, true), (2, true)])], number_of_literals: 2 };
    assert!(!too_wide.is_well_formed());
}

#[test]
fn best_individual_keeps_the_first_of_the_best() {
    let formula = small_formula();
    let population =
        Population::new(vec![solution(&[true, true]), solution(&[false, true]), solution(&[false, true])]);
    assert_eq!(population.best_individual(&formula), solution(&[false, true]));
    let flat = Population::new(vec![solution(&[true, false]), solution(&[false, false])]);
    assert_eq!(flat.best_individual(&formula), solution(&[true, false]));
}

#[test]
fn evaluate_records_the_generation_best() {
    let formula = small_formula();
    let mut population = Population::new(vec![solution(&[true, true]), solution(&[false, true])]);
    let fits = population.evaluate(&formula);
    assert_eq!(fits, vec![Fitness { satisfied: 1, total: 2 }, Fitness { satisfied: 2, total: 2 }]);
    assert_eq!(population.best_fitness, Fitness { satisfied: 2, total: 2 });
}

#[test]
fn a_perfect_generation_converges_on_its_first_perfect_individual() {
    let formula = small_formula();
    let mut population =
        Population::new(vec![solution(&[true, true]), solution(&[false, true]), solution(&[false, false])]);
    let mut record = Record { individual: solution(&[true, true]), fitness: Fitness::zero() };
    let (converged, fits) = track_generation(&mut population, &formula, &mut record);
    assert!(converged);
    assert_eq!(fits.len(), 3);
    assert_eq!(record.individual, solution(&[false, true]));
}

#[test]
fn an_improving_generation_updates_the_record() {
    let formula = small_formula();
    let mut population = Population::new(vec![solution(&[true, true]), solution(&[false, false])]);
    let mut record = Record { individual: solution(&[true, false]), fitness: Fitness::zero() };
    let (converged, _) = track_generation(&mut population, &formula, &mut record);
    assert!(!converged);
    assert_eq!(record.individual, solution(&[true, true]));
    assert_eq!(record.fitness, Fitness { satisfied: 1, total: 2 });

    let mut worse = Population::new(vec![solution(&[true, false])]);
    let (converged, _) = track_generation(&mut worse, &formula, &mut record);
    assert!(!converged);
    assert_eq!(record.individual, solution(&[true, true]));
}

#[test]
fn optimize_finds_a_satisfying_assignment() {
    let formula = small_formula();
    let best = optimize(&formula, 20, 500, 10, 1, 10);
    assert_eq!(best.literals.len(), 2);
    assert_eq!(best.evaluate(&formula), Fitness { satisfied: 2, total: 2 });
}

#[test]
fn optimize_with_a_single_generation_returns_an_initial_individual() {
    let formula = small_formula();
    let best = optimize(&formula, 3, 1, 2, 0, 1);
    assert_eq!(best.literals.len(), 2);
}

#[test]
fn optimize_returns_the_all_time_best_when_nothing_is_perfect() {
    // one variable; the best any assignment can do is two clauses of three
    let formula = Formula {
        clauses: vec![clause(&[(0, false)]), clause(&[(0, true)]), clause(&[(0, true)])],
        number_of_literals: 1,
    };
    for _ in 0..20 {
        let best = optimize(&formula, 2, 3, 2, 1, 1);
        assert_eq!(best, solution(&[true]));
    }
}
