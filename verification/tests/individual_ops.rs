use stackgp::individual::{Individual, Score};
use stackgp::instruction::Instruction;
use tinyrand::{Rand, Seeded, StdRand};

#[test]
fn test_fitness() {
    let dataset: Vec<Vec<i32>> = (0..100).into_iter().map(|i| vec![i, i * i + i * i]).collect();
    let stack = vec![
        Instruction::Duplicate,
        Instruction::Sum,
        Instruction::Multiply,
    ];
    let mut individual = Individual::new_from_stack(&stack);
    individual.compute_fitness(&dataset);
    let f_1 = individual.fitness();
    // a seed whose next draw picks the negation instruction, so the
    // mutated program computes a different output on this dataset
    let mut seed: u64 = 0;
    while StdRand::seed(seed).next_lim_u64(4) != 0 {
        seed += 1;
    }
    let mut rng = StdRand::seed(seed);
    individual.mutate_add(&mut rng);
    individual.compute_fitness(&dataset);
    let f_2 = individual.fitness();
    assert_ne!(f_1, f_2);
}

#[test]
fn test_fitness_exact_score() {
    let dataset: Vec<Vec<i32>> = (0..100).into_iter().map(|i| vec![i, i * i + i * i]).collect();
    let stack = vec![
        Instruction::Duplicate,
        Instruction::Sum,
        Instruction::Multiply,
    ];
    let mut individual = Individual::new_from_stack(&stack);
    individual.compute_fitness(&dataset);
    assert_eq!(
        individual.fitness(),
        Some(Score::Ratio { examples: 100, error: 646800 })
    );
}

#[test]
fn test_fitness_perfect_and_unratable() {
    // duplication leaves the input at the bottom, a perfect fit on (i, i)
    let dataset: Vec<Vec<i32>> = (0..10).into_iter().map(|i| vec![i, i]).collect();
    let mut ind = Individual::new_from_stack(&vec![Instruction::Duplicate]);
    ind.compute_fitness(&dataset);
    assert_eq!(ind.fitness(), Some(Score::Ratio { examples: 10, error: 0 }));
    // a program that consumes the whole stack rates as unratable
    let mut bad = Individual::new_from_stack(&vec![Instruction::Sum]);
    bad.compute_fitness(&vec![vec![5]]);
    assert_eq!(bad.fitness(), Some(Score::Unratable));
}

#[test]
fn test_fitness_cache_not_recomputed_when_fresh() {
    let dataset_a: Vec<Vec<i32>> = vec![vec![1, 2], vec![2, 4]];
    let dataset_b: Vec<Vec<i32>> = vec![vec![1, 9], vec![2, 9]];
    let mut ind = Individual::new_from_stack(&vec![Instruction::Duplicate, Instruction::Sum]);
    ind.compute_fitness(&dataset_a);
    let first = ind.fitness();
    // the program is unchanged, so the cache stays as it is
    ind.compute_fitness(&dataset_b);
    assert_eq!(ind.fitness(), first);
}

#[test]
fn test_mutate_remove_short_noop() {
    let stack = vec![Instruction::Neg, Instruction::Sum, Instruction::Multiply];
    let mut ind = Individual::new_from_stack(&stack);
    ind.mutate_remove();
    assert_eq!(ind.program().len(), 3);
    assert_eq!(ind.program(), &stack);
}

#[test]
fn test_mutate_remove_long_drops_one() {
    let stack = vec![
        Instruction::Neg,
        Instruction::Sum,
        Instruction::Multiply,
        Instruction::Duplicate,
    ];
    let mut ind = Individual::new_from_stack(&stack);
    ind.mutate_remove();
    assert_eq!(ind.program().len(), 3);
    assert_eq!(
        ind.program(),
        &vec![Instruction::Neg, Instruction::Sum, Instruction::Multiply]
    );
}

#[test]
fn test_mutate_add_appends_one() {
    let stack = vec![Instruction::Neg];
    let mut ind = Individual::new_from_stack(&stack);
    let mut rng = StdRand::default();
    ind.mutate_add(&mut rng);
    assert_eq!(ind.program().len(), 2);
    assert_eq!(ind.program()[0], Instruction::Neg);
    let added = ind.program()[1];
    assert!(
        added == Instruction::Neg
            || added == Instruction::Sum
            || added == Instruction::Duplicate
            || added == Instruction::Multiply
    );
}

#[test]
fn test_crossover_preserves_length() {
    let a = Individual::new_from_stack(&vec![
        Instruction::Neg,
        Instruction::Sum,
        Instruction::Multiply,
        Instruction::Duplicate,
        Instruction::Integer(3),
    ]);
    let b = Individual::new_from_stack(&vec![Instruction::Swap, Instruction::Sum]);
    let mut rng = StdRand::default();
    for _ in 0..20 {
        let (c0, c1) = a.crossover(&b, &mut rng);
        assert_eq!(c0.program().len() + c1.program().len(), 7);
        assert!(c0.program().len() >= 1);
        assert!(c1.program().len() >= 1);
    }
}

#[test]
fn test_reproduce_is_exact_copy() {
    let dataset: Vec<Vec<i32>> = vec![vec![3, 6], vec![4, 8]];
    let mut ind = Individual::new_from_stack(&vec![Instruction::Duplicate, Instruction::Sum]);
    ind.compute_fitness(&dataset);
    let copy = ind.reproduce();
    assert_eq!(copy.program(), ind.program());
    assert_eq!(copy.fitness(), ind.fitness());
}

#[test]
fn test_new_length_in_range() {
    let mut rng = StdRand::default();
    for _ in 0..50 {
        let ind = Individual::new(7, 2, &mut rng);
        assert!(ind.program().len() >= 2 && ind.program().len() < 7);
        assert_eq!(ind.fitness(), None);
    }
}

#[test]
fn test_eval_runs_program() {
    let ind = Individual::new_from_stack(&vec![Instruction::Duplicate, Instruction::Multiply]);
    assert_eq!(ind.eval(vec![5]), Ok(25));
}
