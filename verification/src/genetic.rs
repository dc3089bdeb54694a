use vstd::prelude::*;

use core::cmp::Ordering;
use rayon::slice::ParallelSliceMut;

use crate::individual::{
    cache_stale, model_wf, score_le, score_le_exec, score_of, IndModel, Individual, Score,
};
use crate::rng::draw_below;

verus! {

/// A fraction in `[0, 1]`, written as `num / den`; rates of the
/// configuration are such fractions of the population size.
#[derive(Clone, Copy, Debug, PartialEq, Eq, Structural)]
pub struct Rate {
    pub num: u32,
    pub den: u32,
}

impl Rate {
    /// A valid rate has a positive denominator and lies in `[0, 1]`.
    pub open spec fn valid(self) -> bool {
        self.den > 0 && self.num <= self.den
    }

    /// The whole-number count this rate yields of `whole`, truncated.
    pub open spec fn count_of(self, whole: int) -> int {
        self.num * whole / (self.den as int)
    }

    /// Computes the truncated count this rate yields of `whole`.
    pub fn count(self, whole: usize) -> (r: usize)
        requires
            self.valid(),
        ensures
            r == self.count_of(whole as int),
            r <= whole,
    {
        proof {
            assert((self.num as int) * (whole as int) <= 0xFFFF_FFFF * 0xFFFF_FFFF_FFFF_FFFF)
                by (nonlinear_arith)
                requires
                    self.num <= 0xFFFF_FFFF,
                    whole <= 0xFFFF_FFFF_FFFF_FFFF,
            ;
        }
        let p: u128 = (self.num as u128) * (whole as u128);
        let q: u128 = p / (self.den as u128);
        proof {
            vstd::arithmetic::mul::lemma_mul_inequality(
                self.num as int,
                self.den as int,
                whole as int,
            );
            vstd::arithmetic::div_mod::lemma_div_is_ordered(
                (self.num as int) * (whole as int),
                (self.den as int) * (whole as int),
                self.den as int,
            );
            vstd::arithmetic::div_mod::lemma_div_multiples_vanish(whole as int, self.den as int);
        }
        q as usize
    }
}

/// The run configuration: initial program length bounds (a half-open
/// range), the configured population size, and the operator rates, each a
/// fraction of the population size.
#[derive(Clone, Copy, Debug, PartialEq, Eq, Structural)]
pub struct GeneticProperties {
    pub range_up: usize,
    pub range_down: usize,
    pub population_size: usize,
    pub removal_mutation_rate: Rate,
    pub addition_mutation_rate: Rate,
    pub cross_over_rate: Rate,
    pub reproduction_rate: Rate,
}

impl Default for GeneticProperties {
    /// The stock configuration: length range `[2, 7)`, a thousand
    /// individuals, and the usual operator rates.
    fn default() -> (r: GeneticProperties)
        ensures
            r == (GeneticProperties {
                range_up: 7,
                range_down: 2,
                population_size: 1000,
                removal_mutation_rate: Rate { num: 1, den: 100 },
                addition_mutation_rate: Rate { num: 1, den: 100 },
                cross_over_rate: Rate { num: 9, den: 10 },
                reproduction_rate: Rate { num: 1, den: 20 },
            }),
            props_check(r) is None,
    {
        GeneticProperties {
            range_up: 7,
            range_down: 2,
            population_size: 1000,
            removal_mutation_rate: Rate { num: 1, den: 100 },
            addition_mutation_rate: Rate { num: 1, den: 100 },
            cross_over_rate: Rate { num: 9, den: 10 },
            reproduction_rate: Rate { num: 1, den: 20 },
        }
    }
}

/// Why a configuration was rejected at construction time.
#[derive(Clone, Copy, Debug, PartialEq, Eq, Structural)]
pub enum ConfigError {
    /// The configured population size is zero.
    ZeroPopulation,
    /// Some rate lies outside `[0, 1]` or has a zero denominator.
    InvalidRate,
    /// The initial length range is empty or admits empty programs.
    InvalidRange,
}

/// A configuration the engine accepts.
pub open spec fn props_ok(p: GeneticProperties) -> bool {
    &&& p.population_size >= 1
    &&& p.removal_mutation_rate.valid()
    &&& p.addition_mutation_rate.valid()
    &&& p.cross_over_rate.valid()
    &&& p.reproduction_rate.valid()
    &&& 1 <= p.range_down < p.range_up
}

/// The error a configuration is rejected with, if any: a zero population
/// size first, then an invalid rate, then an invalid length range.
pub open spec fn props_check(p: GeneticProperties) -> Option<ConfigError> {
    if p.population_size == 0 {
        Some(ConfigError::ZeroPopulation)
    } else if !(p.removal_mutation_rate.valid() && p.addition_mutation_rate.valid()
        && p.cross_over_rate.valid() && p.reproduction_rate.valid()) {
        Some(ConfigError::InvalidRate)
    } else if !(1 <= p.range_down && p.range_down < p.range_up) {
        Some(ConfigError::InvalidRange)
    } else {
        None
    }
}

/// The state an individual is left in by a score refresh against `ds`: a
/// stale cache is recomputed from the current program, a fresh one kept.
pub open spec fn refreshed_model(m: IndModel, ds: Seq<Seq<i32>>) -> IndModel {
    if cache_stale(m) {
        IndModel { prog: m.prog, cached: Some(score_of(m.prog, ds)), snapshot: m.prog, dataset: ds }
    } else {
        m
    }
}

/// The abstract states of a population, element by element.
pub open spec fn models(s: Seq<Individual>) -> Seq<IndModel> {
    s.map_values(|ind: Individual| ind.model())
}

/// The rating order lifted to cache contents: an unevaluated cache ranks
/// below every computed score.
pub open spec fn opt_score_le(a: Option<Score>, b: Option<Score>) -> bool {
    match (a, b) {
        (None, _) => true,
        (Some(_), None) => false,
        (Some(x), Some(y)) => score_le(x, y),
    }
}

/// Decides the lifted rating order on two cache contents.
pub fn opt_score_le_exec(a: Option<Score>, b: Option<Score>) -> (r: bool)
    ensures
        r == opt_score_le(a, b),
{
    match (a, b) {
        (Option::None, _) => true,
        (Option::Some(_), Option::None) => false,
        (Option::Some(x), Option::Some(y)) => score_le_exec(x, y),
    }
}

/// The fitness order on individual states: by cached score.
pub open spec fn fitness_le(a: IndModel, b: IndModel) -> bool {
    opt_score_le(a.cached, b.cached)
}

/// The complexity order on individual states: by program length.
pub open spec fn complexity_le(a: IndModel, b: IndModel) -> bool {
    a.prog.len() <= b.prog.len()
}

/// The fitness order as a relation value.
pub open spec fn fitness_order() -> spec_fn(IndModel, IndModel) -> bool {
    |a: IndModel, b: IndModel| fitness_le(a, b)
}

/// The complexity order as a relation value.
pub open spec fn complexity_order() -> spec_fn(IndModel, IndModel) -> bool {
    |a: IndModel, b: IndModel| complexity_le(a, b)
}

/// The sequence is non-decreasing under `leq`.
pub open spec fn sorted_models(s: Seq<IndModel>, leq: spec_fn(IndModel, IndModel) -> bool) -> bool {
    forall|i: int, j: int| #![trigger s[i], s[j]] 0 <= i <= j < s.len() ==> leq(s[i], s[j])
}

/// Compares two individuals by cached score, for sorting.
fn compare_by_fitness(a: &Individual, b: &Individual) -> (r: Ordering)
    ensures
        r == Ordering::Less <==> (fitness_le(a.model(), b.model()) && !fitness_le(
            b.model(),
            a.model(),
        )),
        r == Ordering::Equal <==> (fitness_le(a.model(), b.model()) && fitness_le(
            b.model(),
            a.model(),
        )),
        r == Ordering::Greater <==> !fitness_le(a.model(), b.model()),
{
    let ab = opt_score_le_exec(a.fitness(), b.fitness());
    let ba = opt_score_le_exec(b.fitness(), a.fitness());
    if ab && ba {
        Ordering::Equal
    } else if ab {
        Ordering::Less
    } else {
        Ordering::Greater
    }
}

/// Compares two individuals by program length, for sorting.
fn compare_by_complexity(a: &Individual, b: &Individual) -> (r: Ordering)
    ensures
        r == Ordering::Less <==> a.model().prog.len() < b.model().prog.len(),
        r == Ordering::Equal <==> a.model().prog.len() == b.model().prog.len(),
        r == Ordering::Greater <==> a.model().prog.len() > b.model().prog.len(),
{
    let la = a.program().len();
    let lb = b.program().len();
    if la < lb {
        Ordering::Less
    } else if la == lb {
        Ordering::Equal
    } else {
        Ordering::Greater
    }
}

/// Relies on rayon's `par_sort_unstable_by`: it reorders the slice in
/// place into a permutation of itself that is sorted by the comparator;
/// the order of elements the comparator calls equal is unspecified.
#[verifier::external_body]
fn par_sort_by_fitness(pop: &mut Vec<Individual>)
    ensures
        final(pop)@.len() == old(pop)@.len(),
        models(final(pop)@).to_multiset() == models(old(pop)@).to_multiset(),
        forall|k: int|
            0 <= k < final(pop)@.len() ==> exists|j: int|
                0 <= j < old(pop)@.len() && (#[trigger] final(pop)@[k]).model() == old(
                    pop,
                )@[j].model(),
        sorted_models(models(final(pop)@), fitness_order()),
{
    pop.as_mut_slice().par_sort_unstable_by(compare_by_fitness)
}

/// Relies on rayon's `par_sort_unstable_by`: it reorders the slice in
/// place into a permutation of itself that is sorted by the comparator;
/// the order of elements the comparator calls equal is unspecified.
#[verifier::external_body]
fn par_sort_by_complexity(pop: &mut Vec<Individual>)
    ensures
        final(pop)@.len() == old(pop)@.len(),
        models(final(pop)@).to_multiset() == models(old(pop)@).to_multiset(),
        forall|k: int|
            0 <= k < final(pop)@.len() ==> exists|j: int|
                0 <= j < old(pop)@.len() && (#[trigger] final(pop)@[k]).model() == old(
                    pop,
                )@[j].model(),
        sorted_models(models(final(pop)@), complexity_order()),
{
    pop.as_mut_slice().par_sort_unstable_by(compare_by_complexity)
}

/// The lifted rating order is total.
proof fn lemma_opt_score_le_total(a: Option<Score>, b: Option<Score>)
    ensures
        opt_score_le(a, b) || opt_score_le(b, a),
{
    if let (Some(x), Some(y)) = (a, b) {
        crate::individual::lemma_score_le_total(x, y);
    }
}

/// The lifted rating order is transitive.
proof fn lemma_opt_score_le_trans(a: Option<Score>, b: Option<Score>, c: Option<Score>)
    requires
        opt_score_le(a, b),
        opt_score_le(b, c),
    ensures
        opt_score_le(a, c),
{
    if let (Some(x), Some(y), Some(z)) = (a, b, c) {
        crate::individual::lemma_score_le_trans(x, y, z);
    }
}

/// Two orderings of the same multiset of individual states that are both
/// sorted under a total, transitive relation agree position by position,
/// up to ties of that relation.
pub proof fn lemma_sorted_agree(
    a: Seq<IndModel>,
    b: Seq<IndModel>,
    leq: spec_fn(IndModel, IndModel) -> bool,
)
    requires
        sorted_models(a, leq),
        sorted_models(b, leq),
        a.to_multiset() == b.to_multiset(),
        forall|x: IndModel, y: IndModel| #![trigger leq(x, y)] leq(x, y) || leq(y, x),
        forall|x: IndModel, y: IndModel, z: IndModel|
            #![trigger leq(x, y), leq(y, z)]
            leq(x, y) && leq(y, z) ==> leq(x, z),
    ensures
        a.len() == b.len(),
        forall|i: int| #![trigger a[i], b[i]] 0 <= i < a.len() ==> leq(a[i], b[i]) && leq(b[i], a[i]),
    decreases a.len(),
{
    broadcast use vstd::seq_lib::group_to_multiset_ensures;
    broadcast use vstd::multiset::group_multiset_axioms;

    assert(a.len() == a.to_multiset().len());
    assert(b.len() == b.to_multiset().len());
    if a.len() > 0 {
        assert(a.contains(a[0])) by {
            assert(a[0] == a[0]);
        }
        assert(b.to_multiset().contains(a[0]));
        assert(b.contains(a[0]));
        let j = choose|j: int| 0 <= j < b.len() && b[j] == a[0];
        assert(leq(b[0], a[0])) by {
            assert(leq(b[0], b[j]));
        }
        assert(b.contains(b[0])) by {
            assert(b[0] == b[0]);
        }
        assert(a.to_multiset().contains(b[0]));
        assert(a.contains(b[0]));
        let i0 = choose|i0: int| 0 <= i0 < a.len() && a[i0] == b[0];
        assert(leq(a[0], b[0])) by {
            assert(leq(a[0], a[i0]));
        }
        let a2 = a.drop_first();
        let b2 = b.remove(j);
        assert(sorted_models(a2, leq)) by {
            assert forall|p: int, q: int| 0 <= p <= q < a2.len() implies leq(a2[p], a2[q]) by {
                assert(a2[p] == a[p + 1]);
                assert(a2[q] == a[q + 1]);
            }
        }
        assert(sorted_models(b2, leq)) by {
            assert forall|p: int, q: int| 0 <= p <= q < b2.len() implies leq(b2[p], b2[q]) by {
                let p0: int = if p < j { p } else { p + 1 };
                let q0: int = if q < j { q } else { q + 1 };
                assert(b2[p] == b[p0]);
                assert(b2[q] == b[q0]);
                assert(leq(b[p0], b[q0]));
            }
        }
        assert(a2.to_multiset() == a.to_multiset().remove(a[0])) by {
            assert(a.remove(0) =~= a2);
            assert(a.remove(0).to_multiset() =~= a.to_multiset().remove(a[0]));
        }
        assert(b2.to_multiset() == b.to_multiset().remove(a[0])) by {
            assert(b.remove(j).to_multiset() =~= b.to_multiset().remove(b[j]));
        }
        lemma_sorted_agree(a2, b2, leq);
        assert forall|i: int| #![trigger a[i], b[i]] 0 <= i < a.len() implies leq(a[i], b[i])
            && leq(b[i], a[i]) by {
            if i > 0 {
                assert(a2[i - 1] == a[i]);
                assert(leq(a2[i - 1], b2[i - 1]) && leq(b2[i - 1], a2[i - 1]));
                if i - 1 >= j {
                    assert(b2[i - 1] == b[i]);
                } else {
                    assert(b2[i - 1] == b[i - 1]);
                    assert(leq(b[i], b[j]));
                    assert(leq(a[0], a[i]));
                    assert(leq(b[i], a[i]));
                    assert(leq(a[i], b[i - 1]));
                    assert(leq(b[i - 1], b[i]));
                    assert(leq(a[i], b[i]));
                }
            }
        }
    }
}

/// Sorting by fitness settles the rating sequence: any two orderings of
/// the same individual states that are both sorted by fitness carry,
/// position by position, caches that rate equal. Re-sorting an already
/// sorted population therefore never changes the rating at any position.
pub proof fn lemma_fitness_order_determined(a: Seq<IndModel>, b: Seq<IndModel>)
    requires
        sorted_models(a, fitness_order()),
        sorted_models(b, fitness_order()),
        a.to_multiset() == b.to_multiset(),
    ensures
        a.len() == b.len(),
        forall|i: int|
            0 <= i < a.len() ==> opt_score_le(#[trigger] a[i].cached, b[i].cached) && opt_score_le(
                b[i].cached,
                a[i].cached,
            ),
{
    let leq = fitness_order();
    assert forall|x: IndModel, y: IndModel| #[trigger] leq(x, y) || leq(y, x) by {
        lemma_opt_score_le_total(x.cached, y.cached);
    }
    assert forall|x: IndModel, y: IndModel, z: IndModel|
        #![trigger leq(x, y), leq(y, z)]
        leq(x, y) && leq(y, z) implies leq(x, z) by {
        if leq(x, y) && leq(y, z) {
            lemma_opt_score_le_trans(x.cached, y.cached, z.cached);
        }
    }
    lemma_sorted_agree(a, b, leq);
    assert forall|i: int|
        0 <= i < a.len() implies opt_score_le(#[trigger] a[i].cached, b[i].cached) && opt_score_le(
        b[i].cached,
        a[i].cached,
    ) by {
        assert(leq(a[i], b[i]) && leq(b[i], a[i]));
    }
}

/// Sorting by complexity settles the length sequence: any two orderings
/// of the same individual states that are both sorted by program length
/// carry, position by position, programs of equal length.
pub proof fn lemma_complexity_order_determined(a: Seq<IndModel>, b: Seq<IndModel>)
    requires
        sorted_models(a, complexity_order()),
        sorted_models(b, complexity_order()),
        a.to_multiset() == b.to_multiset(),
    ensures
        a.len() == b.len(),
        forall|i: int|
            0 <= i < a.len() ==> (#[trigger] a[i]).prog.len() == b[i].prog.len(),
{
    let leq = complexity_order();
    lemma_sorted_agree(a, b, leq);
    assert forall|i: int| 0 <= i < a.len() implies (#[trigger] a[i]).prog.len()
        == b[i].prog.len() by {
        assert(leq(a[i], b[i]) && leq(b[i], a[i]));
    }
}

/// A refresh leaves an already fresh population untouched: with no stale
/// cache, refreshing is the identity on individual states.
pub proof fn lemma_refresh_keeps_fresh(s: Seq<IndModel>, ds: Seq<Seq<i32>>)
    requires
        forall|i: int| 0 <= i < s.len() ==> !cache_stale(#[trigger] s[i]),
    ensures
        s.map_values(|m: IndModel| refreshed_model(m, ds)) == s,
{
    assert(s.map_values(|m: IndModel| refreshed_model(m, ds)) =~= s);
}

/// The evolutionary engine: the population it owns and the configuration
/// of the run.
pub struct Genetic {
    pub population: Vec<Individual>,
    pub props: GeneticProperties,
}

impl Genetic {
    /// A well-formed engine: an accepted configuration, a population never
    /// smaller than the configured size, and well-formed individuals.
    pub open spec fn wf(self) -> bool {
        &&& props_ok(self.props)
        &&& self.population@.len() >= self.props.population_size
        &&& forall|i: int| 0 <= i < self.population@.len() ==> (#[trigger] self.population@[i]).wf()
    }

    /// Validates the configuration and, when it is accepted, builds the
    /// initial population of `population_size` random individuals.
    pub fn new(props: GeneticProperties, rng: &mut tinyrand::StdRand) -> (r: Result<
        Genetic,
        ConfigError,
    >)
        ensures
            r is Ok <==> props_check(props) is None,
            r matches Err(e) ==> props_check(props) == Some(e),
            r matches Ok(g) ==> {
                &&& g.wf()
                &&& g.props == props
                &&& g.population@.len() == props.population_size
                &&& forall|i: int|
                    0 <= i < g.population@.len() ==> (#[trigger] g.population@[i]).model().cached
                        is None
            },
    {
        if props.population_size == 0 {
            return Err(ConfigError::ZeroPopulation);
        }
        if props.removal_mutation_rate.den == 0 || props.removal_mutation_rate.num
            > props.removal_mutation_rate.den || props.addition_mutation_rate.den == 0
            || props.addition_mutation_rate.num > props.addition_mutation_rate.den
            || props.cross_over_rate.den == 0 || props.cross_over_rate.num
            > props.cross_over_rate.den || props.reproduction_rate.den == 0
            || props.reproduction_rate.num > props.reproduction_rate.den {
            return Err(ConfigError::InvalidRate);
        }
        if props.range_down < 1 || props.range_down >= props.range_up {
            return Err(ConfigError::InvalidRange);
        }
        let mut population: Vec<Individual> = Vec::new();
        let n = props.population_size;
        for i in 0..n
            invariant
                1 <= props.range_down < props.range_up,
                population@.len() == i,
                forall|j: int| 0 <= j < i ==> (#[trigger] population@[j]).wf(),
                forall|j: int| 0 <= j < i ==> (#[trigger] population@[j]).model().cached is None,
        {
            population.push(Individual::new(props.range_up, props.range_down, rng));
        }
        Ok(Genetic { population, props })
    }

    /// Refreshes every stale score cache against the dataset and reorders
    /// the population ascending by cached score, lowest rating first.
    pub fn sort_population_by_fitness(&mut self, dataset: &Vec<Vec<i32>>)
        requires
            old(self).wf(),
            dataset@.len() <= 0xFFFF_FFFF,
        ensures
            final(self).wf(),
            final(self).props == old(self).props,
            final(self).population@.len() == old(self).population@.len(),
            sorted_models(models(final(self).population@), fitness_order()),
            forall|k: int|
                0 <= k < final(self).population@.len() ==> !cache_stale(
                    (#[trigger] final(self).population@[k]).model(),
                ),
            models(final(self).population@).to_multiset() == models(
                old(self).population@,
            ).map_values(
                |m: IndModel| refreshed_model(m, dataset.deep_view()),
            ).to_multiset(),
    {
        let ghost dv = dataset.deep_view();
        let ghost orig = self.population@;
        let n = self.population.len();
        for i in 0..n
            invariant
                self.props == old(self).props,
                self.population@.len() == n,
                n == orig.len(),
                dv == dataset.deep_view(),
                dataset@.len() <= 0xFFFF_FFFF,
                forall|j: int| 0 <= j < n ==> (#[trigger] self.population@[j]).wf(),
                forall|j: int|
                    0 <= j < i ==> (#[trigger] self.population@[j]).model() == refreshed_model(
                        orig[j].model(),
                        dv,
                    ),
                forall|j: int| i <= j < n ==> #[trigger] self.population@[j] == orig[j],
        {
            let ind = &mut self.population[i];
            ind.compute_fitness(dataset);
        }
        proof {
            assert(models(self.population@) =~= models(orig).map_values(
                |m: IndModel| refreshed_model(m, dv),
            ));
        }
        let ghost pre_sort = self.population@;
        par_sort_by_fitness(&mut self.population);
        proof {
            assert forall|k: int| 0 <= k < self.population@.len() implies (
            #[trigger] self.population@[k]).wf() && !cache_stale(self.population@[k].model()) by {
                let j = choose|j: int|
                    0 <= j < pre_sort.len() && self.population@[k].model() == pre_sort[j].model();
                assert(pre_sort[j].wf());
                assert(!cache_stale(pre_sort[j].model()));
            }
        }
    }

    /// One generation: crossover offspring are bred from random pairs and
    /// appended, a window of the population is mutated, the grown
    /// population is re-sorted ascending by fitness, and copies of its
    /// front are appended. The population never shrinks.
    fn step_generation(&mut self, dataset: &Vec<Vec<i32>>, rng: &mut tinyrand::StdRand)
        requires
            old(self).wf(),
            old(self).props.population_size >= 4,
            dataset@.len() <= 0xFFFF_FFFF,
        ensures
            final(self).wf(),
            final(self).props == old(self).props,
            final(self).population@.len() >= old(self).population@.len()
                + old(self).props.cross_over_rate.count_of(old(self).props.population_size as int)
                + old(self).props.reproduction_rate.count_of(
                old(self).props.population_size as int,
            ) + 1,
    {
        let ghost props0 = self.props;
        let ghost len0 = self.population@.len();
        let cross_over_pop = self.props.cross_over_rate.count(self.props.population_size);
        let reproduction_pop = self.props.reproduction_rate.count(self.props.population_size);
        let addition_mutation_pop = self.props.addition_mutation_rate.count(
            self.props.population_size,
        );
        let removal_mutation_pop = self.props.removal_mutation_rate.count(
            self.props.population_size,
        );
        let mut cross_over_offsprings: Vec<Individual> = Vec::new();
        while cross_over_offsprings.len() <= cross_over_pop
            invariant
                self.wf(),
                self.props == props0,
                self.population@.len() == len0,
                forall|j: int|
                    0 <= j < cross_over_offsprings@.len() ==> (
                    #[trigger] cross_over_offsprings@[j]).wf(),
            decreases cross_over_pop + 2 - cross_over_offsprings.len(),
        {
            let r1 = draw_below(rng, self.population.len() as u64) as usize;
            let r2 = draw_below(rng, self.population.len() as u64) as usize;
            let offsprings = self.population[r1].crossover(&self.population[r2], rng);
            cross_over_offsprings.push(offsprings.0);
            cross_over_offsprings.push(offsprings.1);
        }
        let mut i: usize = 0;
        while i < addition_mutation_pop
            invariant
                self.wf(),
                self.props == props0,
                self.population@.len() == len0,
                addition_mutation_pop <= self.props.population_size,
                i <= addition_mutation_pop,
            decreases addition_mutation_pop - i,
        {
            let ind = &mut self.population[i];
            ind.mutate_add(rng);
            i += 1;
        }
        let quarter = self.props.population_size / 4;
        let offset = draw_below(rng, quarter as u64) as usize;
        let start = if addition_mutation_pop <= usize::MAX - offset {
            addition_mutation_pop + offset
        } else {
            self.population.len()
        };
        let mut idx = start;
        let mut done: usize = 0;
        while done < removal_mutation_pop && idx < self.population.len()
            invariant
                self.wf(),
                self.props == props0,
                self.population@.len() == len0,
                done <= removal_mutation_pop,
            decreases removal_mutation_pop - done,
        {
            let ind = &mut self.population[idx];
            ind.mutate_remove();
            idx += 1;
            done += 1;
        }
        self.population.append(&mut cross_over_offsprings);
        proof {
            assert forall|j: int| 0 <= j < self.population@.len() implies (
            #[trigger] self.population@[j]).wf() by {}
        }
        self.sort_population_by_fitness(dataset);
        let ghost sorted_len = self.population@.len();
        let mut k: usize = 0;
        while k < reproduction_pop
            invariant
                self.wf(),
                self.props == props0,
                reproduction_pop <= self.props.population_size,
                self.props.population_size <= sorted_len,
                self.population@.len() == sorted_len + k,
                k <= reproduction_pop,
            decreases reproduction_pop - k,
        {
            let copy = self.population[k].reproduce();
            self.population.push(copy);
            k += 1;
        }
    }

    /// Runs the generational loop the given number of times. The
    /// population size never decreases, generation over generation.
    pub fn run(&mut self, generations: usize, dataset: &Vec<Vec<i32>>, rng: &mut tinyrand::StdRand)
        requires
            old(self).wf(),
            old(self).props.population_size >= 4,
            dataset@.len() <= 0xFFFF_FFFF,
        ensures
            final(self).wf(),
            final(self).props == old(self).props,
            final(self).population@.len() >= old(self).population@.len() + generations * (
            old(self).props.cross_over_rate.count_of(old(self).props.population_size as int)
                + old(self).props.reproduction_rate.count_of(
                old(self).props.population_size as int,
            ) + 1),
            generations == 0 ==> *final(self) == *old(self),
    {
        let ghost grow = old(self).props.cross_over_rate.count_of(
            old(self).props.population_size as int,
        ) + old(self).props.reproduction_rate.count_of(old(self).props.population_size as int) + 1;
        proof {
            assert(0int * grow == 0) by (nonlinear_arith);
        }
        for g in 0..generations
            invariant
                grow == old(self).props.cross_over_rate.count_of(
                    old(self).props.population_size as int,
                ) + old(self).props.reproduction_rate.count_of(
                    old(self).props.population_size as int,
                ) + 1,
                self.wf(),
                self.props == old(self).props,
                self.props.population_size >= 4,
                self.population@.len() >= old(self).population@.len() + g * grow,
                g == 0 ==> *self == *old(self),
                dataset@.len() <= 0xFFFF_FFFF,
        {
            let ghost len_before = self.population@.len();
            self.step_generation(dataset, rng);
            proof {
                let gi = g as int;
                assert((gi + 1) * grow == gi * grow + grow) by (nonlinear_arith);
                assert(self.population@.len() >= len_before + grow);
                assert(len_before >= old(self).population@.len() + gi * grow);
            }
        }
    }

    /// Reorders the population ascending by program length.
    pub fn sort_population_by_complexity(&mut self)
        requires
            old(self).wf(),
        ensures
            final(self).wf(),
            final(self).props == old(self).props,
            final(self).population@.len() == old(self).population@.len(),
            sorted_models(models(final(self).population@), complexity_order()),
            models(final(self).population@).to_multiset() == models(
                old(self).population@,
            ).to_multiset(),
    {
        let ghost pre_sort = self.population@;
        par_sort_by_complexity(&mut self.population);
        proof {
            assert forall|k: int| 0 <= k < self.population@.len() implies (
            #[trigger] self.population@[k]).wf() by {
                let j = choose|j: int|
                    0 <= j < pre_sort.len() && self.population@[k].model() == pre_sort[j].model();
                assert(pre_sort[j].wf());
            }
        }
    }
}

} // verus!

