use stackgp::genetic::{opt_score_le_exec, ConfigError, Genetic, GeneticProperties, Rate};
use stackgp::individual::Individual;
use stackgp::instruction::Instruction;
use tinyrand::StdRand;

fn demo_props() -> GeneticProperties {
    GeneticProperties {
        range_up: 7,
        range_down: 2,
        population_size: 20,
        removal_mutation_rate: Rate { num: 1, den: 100 },
        addition_mutation_rate: Rate { num: 1, den: 100 },
        cross_over_rate: Rate { num: 9, den: 10 },
        reproduction_rate: Rate { num: 1, den: 20 },
    }
}

fn demo_dataset() -> Vec<Vec<i32>> {
    (0..30).into_iter().map(|i| vec![i, i * i + i * i]).collect()
}

#[test]
fn test_new_rejects_zero_population() {
    let mut props = demo_props();
    props.population_size = 0;
    let mut rng = StdRand::default();
    match Genetic::new(props, &mut rng) {
        Err(e) => assert_eq!(e, ConfigError::ZeroPopulation),
        Ok(_) => panic!("a zero population size must be rejected"),
    }
}

#[test]
fn test_new_rejects_invalid_rate() {
    let mut props = demo_props();
    props.cross_over_rate = Rate { num: 11, den: 10 };
    let mut rng = StdRand::default();
    match Genetic::new(props, &mut rng) {
        Err(e) => assert_eq!(e, ConfigError::InvalidRate),
        Ok(_) => panic!("a rate above one must be rejected"),
    }
}

#[test]
fn test_new_rejects_invalid_range() {
    let mut props = demo_props();
    props.range_down = 0;
    let mut rng = StdRand::default();
    match Genetic::new(props, &mut rng) {
        Err(e) => assert_eq!(e, ConfigError::InvalidRange),
        Ok(_) => panic!("an empty or zero-admitting length range must be rejected"),
    }
}

#[test]
fn test_new_builds_population() {
    let mut rng = StdRand::default();
    let g = Genetic::new(demo_props(), &mut rng).unwrap();
    assert_eq!(g.population.len(), 20);
    for ind in &g.population {
        assert!(ind.program().len() >= 2 && ind.program().len() < 7);
        assert_eq!(ind.fitness(), None);
    }
}

#[test]
fn test_sort_by_fitness_orders_scores() {
    let mut rng = StdRand::default();
    let dataset = demo_dataset();
    let mut g = Genetic::new(demo_props(), &mut rng).unwrap();
    g.sort_population_by_fitness(&dataset);
    for w in g.population.windows(2) {
        assert!(opt_score_le_exec(w[0].fitness(), w[1].fitness()));
    }
}

#[test]
fn test_sort_by_fitness_reorders() {
    let dataset: Vec<Vec<i32>> = vec![vec![1, 2], vec![3, 6]];
    // duplication then summing doubles the input: a perfect fit; negation is far off
    let mut good = Individual::new_from_stack(&vec![Instruction::Duplicate, Instruction::Sum]);
    let mut bad = Individual::new_from_stack(&vec![Instruction::Neg]);
    good.compute_fitness(&dataset);
    bad.compute_fitness(&dataset);
    let mut props = demo_props();
    props.population_size = 2;
    let mut g = Genetic::new(props, &mut StdRand::default()).unwrap();
    g.population = vec![good, bad];
    g.sort_population_by_fitness(&dataset);
    // ascending order: the worst rating first, the perfect fit last
    assert_eq!(g.population[0].program(), &vec![Instruction::Neg]);
    assert_eq!(
        g.population[1].program(),
        &vec![Instruction::Duplicate, Instruction::Sum]
    );
}

#[test]
fn test_sort_by_fitness_idempotent() {
    let mut rng = StdRand::default();
    let dataset = demo_dataset();
    let mut g = Genetic::new(demo_props(), &mut rng).unwrap();
    g.sort_population_by_fitness(&dataset);
    let first: Vec<_> = g.population.iter().map(|ind| ind.fitness()).collect();
    g.sort_population_by_fitness(&dataset);
    let second: Vec<_> = g.population.iter().map(|ind| ind.fitness()).collect();
    assert_eq!(first, second);
}

#[test]
fn test_sort_by_complexity_orders_lengths() {
    let mut rng = StdRand::default();
    let mut g = Genetic::new(demo_props(), &mut rng).unwrap();
    g.sort_population_by_complexity();
    for w in g.population.windows(2) {
        assert!(w[0].program().len() <= w[1].program().len());
    }
}

#[test]
fn test_sort_by_complexity_reorders() {
    let long = Individual::new_from_stack(&vec![
        Instruction::Neg,
        Instruction::Sum,
        Instruction::Duplicate,
    ]);
    let short = Individual::new_from_stack(&vec![Instruction::Neg]);
    let mut props = demo_props();
    props.population_size = 2;
    let mut g = Genetic::new(props, &mut StdRand::default()).unwrap();
    g.population = vec![long, short];
    g.sort_population_by_complexity();
    assert_eq!(g.population[0].program().len(), 1);
    assert_eq!(g.population[1].program().len(), 3);
}

#[test]
fn test_sort_by_complexity_idempotent() {
    let mut rng = StdRand::default();
    let mut g = Genetic::new(demo_props(), &mut rng).unwrap();
    g.sort_population_by_complexity();
    let first: Vec<usize> = g.population.iter().map(|ind| ind.program().len()).collect();
    g.sort_population_by_complexity();
    let second: Vec<usize> = g.population.iter().map(|ind| ind.program().len()).collect();
    assert_eq!(first, second);
}

#[test]
fn test_default_properties() {
    let props = GeneticProperties::default();
    assert_eq!(props.range_up, 7);
    assert_eq!(props.range_down, 2);
    assert_eq!(props.population_size, 1000);
    assert_eq!(props.removal_mutation_rate, Rate { num: 1, den: 100 });
    assert_eq!(props.addition_mutation_rate, Rate { num: 1, den: 100 });
    assert_eq!(props.cross_over_rate, Rate { num: 9, den: 10 });
    assert_eq!(props.reproduction_rate, Rate { num: 1, den: 20 });
    let mut rng = StdRand::default();
    assert!(Genetic::new(props, &mut rng).is_ok());
}

#[test]
fn test_run_never_shrinks_population() {
    let mut rng = StdRand::default();
    let dataset = demo_dataset();
    let mut g = Genetic::new(demo_props(), &mut rng).unwrap();
    let mut last = g.population.len();
    g.run(0, &dataset, &mut rng);
    assert_eq!(g.population.len(), last);
    for _ in 0..3 {
        g.run(1, &dataset, &mut rng);
        assert!(g.population.len() >= last);
        last = g.population.len();
    }
}
