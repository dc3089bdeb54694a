use vstd::prelude::*;

use crate::instruction::{run_stack, EvalError, Instruction, evaluate_stack};
use crate::rng::draw_below;

verus! {

/// The rating of a program against a dataset.
///
/// `Ratio { examples, error }` stands for the quotient `examples / error`:
/// the number of rated examples over the summed absolute prediction error.
/// An error of zero means a perfect, maximal rating. `Unratable` marks a
/// program whose evaluation ended on an empty stack for some example; it
/// ranks below every ratio.
#[derive(Clone, Copy, Debug, PartialEq, Eq, Structural)]
pub enum Score {
    Unratable,
    Ratio { examples: u64, error: u64 },
}

/// The rating order: `a` rates no higher than `b`. Ratios compare as the
/// quotients they stand for, by cross-multiplication.
pub open spec fn score_le(a: Score, b: Score) -> bool {
    match (a, b) {
        (Score::Unratable, _) => true,
        (_, Score::Unratable) => false,
        (
            Score::Ratio { examples: n1, error: e1 },
            Score::Ratio { examples: n2, error: e2 },
        ) => {
            if e1 == 0 {
                e2 == 0
            } else if e2 == 0 {
                true
            } else {
                n1 * e2 <= n2 * e1
            }
        },
    }
}

/// Decides the rating order on two scores.
pub fn score_le_exec(a: Score, b: Score) -> (r: bool)
    ensures
        r == score_le(a, b),
{
    match (a, b) {
        (Score::Unratable, _) => true,
        (_, Score::Unratable) => false,
        (
            Score::Ratio { examples: n1, error: e1 },
            Score::Ratio { examples: n2, error: e2 },
        ) => {
            if e1 == 0 {
                e2 == 0
            } else if e2 == 0 {
                true
            } else {
                proof {
                    lemma_u64_mul_fits(n1, e2);
                    lemma_u64_mul_fits(n2, e1);
                }
                (n1 as u128) * (e2 as u128) <= (n2 as u128) * (e1 as u128)
            }
        },
    }
}

/// The rating order is total: of any two scores, one rates no higher
/// than the other.
pub proof fn lemma_score_le_total(a: Score, b: Score)
    ensures
        score_le(a, b) || score_le(b, a),
{
}

/// The rating order is transitive.
pub proof fn lemma_score_le_trans(a: Score, b: Score, c: Score)
    requires
        score_le(a, b),
        score_le(b, c),
    ensures
        score_le(a, c),
{
    if let (
        Score::Ratio { examples: n1, error: e1 },
        Score::Ratio { examples: n2, error: e2 },
        Score::Ratio { examples: n3, error: e3 },
    ) = (a, b, c) {
        if e1 > 0 && e2 > 0 && e3 > 0 {
            assert((n1 as int) * (e3 as int) <= (n3 as int) * (e1 as int)) by (nonlinear_arith)
                requires
                    e1 > 0,
                    e2 > 0,
                    e3 > 0,
                    (n1 as int) * (e2 as int) <= (n2 as int) * (e1 as int),
                    (n2 as int) * (e3 as int) <= (n3 as int) * (e2 as int),
            ;
        }
    }
}

/// The product of two 64-bit values fits in 128 bits.
proof fn lemma_u64_mul_fits(x: u64, y: u64)
    ensures
        x * y <= 0xFFFF_FFFF_FFFF_FFFF * 0xFFFF_FFFF_FFFF_FFFF,
{
    assert(x * y <= 0xFFFF_FFFF_FFFF_FFFF * 0xFFFF_FFFF_FFFF_FFFF) by (nonlinear_arith)
        requires
            x <= 0xFFFF_FFFF_FFFF_FFFF,
            y <= 0xFFFF_FFFF_FFFF_FFFF,
    ;
}

/// The absolute difference of two machine integers.
pub open spec fn abs_diff_spec(a: i32, b: i32) -> int {
    if a >= b {
        a - b
    } else {
        b - a
    }
}

/// Computes the absolute difference of two machine integers.
pub fn abs_diff_i32(a: i32, b: i32) -> (r: u64)
    ensures
        r == abs_diff_spec(a, b),
{
    let wide_a = a as i64;
    let wide_b = b as i64;
    if wide_a >= wide_b {
        (wide_a - wide_b) as u64
    } else {
        (wide_b - wide_a) as u64
    }
}

/// The inputs of one dataset example: every element but the last.
pub open spec fn example_inputs(dp: Seq<i32>) -> Seq<i32> {
    dp.take(dp.len() - 1)
}

/// The expected output of one dataset example: its last element.
pub open spec fn example_target(dp: Seq<i32>) -> i32 {
    dp.last()
}

/// The count of rated examples and the summed absolute error of `prog`
/// over `dataset`, or `None` if some evaluation ended on an empty stack.
/// An example without elements has no target and contributes nothing.
pub open spec fn rating_parts(prog: Seq<Instruction>, dataset: Seq<Seq<i32>>) -> Option<(int, int)>
    decreases dataset.len(),
{
    if dataset.len() == 0 {
        Some((0, 0))
    } else {
        let rest = rating_parts(prog, dataset.drop_last());
        let dp = dataset.last();
        if dp.len() == 0 {
            rest
        } else {
            let fin = run_stack(prog, example_inputs(dp));
            if fin.len() == 0 {
                None
            } else {
                match rest {
                    None => None,
                    Some((c, e)) => Some((c + 1, e + abs_diff_spec(fin[0], example_target(dp)))),
                }
            }
        }
    }
}

/// The score of `prog` on `dataset`: rated examples over summed error.
pub open spec fn score_of(prog: Seq<Instruction>, dataset: Seq<Seq<i32>>) -> Score {
    match rating_parts(prog, dataset) {
        None => Score::Unratable,
        Some((c, e)) => Score::Ratio { examples: c as u64, error: e as u64 },
    }
}

/// Copies the first `k` elements of an example into a fresh vector.
fn head_vec(v: &Vec<i32>, k: usize) -> (r: Vec<i32>)
    requires
        k <= v@.len(),
    ensures
        r@ == v@.take(k as int),
{
    let mut r: Vec<i32> = Vec::new();
    for i in 0..k
        invariant
            k <= v@.len(),
            r@ == v@.take(i as int),
    {
        r.push(v[i]);
        proof {
            assert(r@ =~= v@.take(i + 1));
        }
    }
    r
}

/// Computes the score of `prog` on `dataset`: the count of rated examples
/// over the summed absolute prediction error.
pub fn score_program(prog: &Vec<Instruction>, dataset: &Vec<Vec<i32>>) -> (r: Score)
    requires
        dataset@.len() <= 0xFFFF_FFFF,
    ensures
        r == score_of(prog@, dataset.deep_view()),
{
    let ghost dv = dataset.deep_view();
    let mut failed: bool = false;
    let mut count: u64 = 0;
    let mut err: u64 = 0;
    let n = dataset.len();
    proof {
        assert(dv.len() == dataset@.len());
    }
    for i in 0..n
        invariant
            n == dataset@.len(),
            n <= 0xFFFF_FFFF,
            dv == dataset.deep_view(),
            dv.len() == n,
            failed ==> rating_parts(prog@, dv.take(i as int)) is None,
            !failed ==> rating_parts(prog@, dv.take(i as int)) == Some((count as int, err as int)),
            count <= i,
            err <= i * 0xFFFF_FFFFi64,
    {
        let ghost prefix = dv.take(i as int);
        proof {
            assert(dv.take(i + 1).drop_last() =~= prefix);
            assert(dv.take(i + 1).last() == dv[i as int]);
            assert(dv[i as int] =~= dataset@[i as int]@);
        }
        let dp = &dataset[i];
        if dp.len() > 0 {
            if !failed {
                let inputs = head_vec(dp, dp.len() - 1);
                proof {
                    assert(inputs@ =~= example_inputs(dv[i as int]));
                }
                match evaluate_stack(prog, inputs) {
                    Ok(predicted) => {
                        let target = dp[dp.len() - 1];
                        proof {
                            assert(target == example_target(dv[i as int]));
                        }
                        let diff = abs_diff_i32(predicted, target);
                        count = count + 1;
                        err = err + diff;
                    },
                    Err(_) => {
                        failed = true;
                    },
                }
            } else {
                proof {
                    assert(rating_parts(prog@, dv.take(i + 1)) is None);
                }
            }
        }
    }
    proof {
        assert(dv.take(n as int) =~= dv);
    }
    if failed {
        Score::Unratable
    } else {
        Score::Ratio { examples: count, error: err }
    }
}

/// The instructions that random generation and addition mutation draw from.
/// `Integer` and `Swap` arise only through crossover or manual construction.
pub open spec fn random_alphabet(ins: Instruction) -> bool {
    ||| ins == Instruction::Neg
    ||| ins == Instruction::Sum
    ||| ins == Instruction::Duplicate
    ||| ins == Instruction::Multiply
}

/// Draws one instruction uniformly from the four-symbol alphabet.
fn select_random_instruction(rng: &mut tinyrand::StdRand) -> (r: Instruction)
    ensures
        random_alphabet(r),
{
    let d = draw_below(rng, 4);
    if d == 0 {
        Instruction::Neg
    } else if d == 1 {
        Instruction::Sum
    } else if d == 2 {
        Instruction::Duplicate
    } else {
        Instruction::Multiply
    }
}

/// Copies a program into a fresh vector.
fn clone_program(v: &Vec<Instruction>) -> (r: Vec<Instruction>)
    ensures
        r@ == v@,
{
    let mut r: Vec<Instruction> = Vec::new();
    let n = v.len();
    for i in 0..n
        invariant
            n == v@.len(),
            r@ == v@.take(i as int),
    {
        r.push(v[i]);
        proof {
            assert(r@ =~= v@.take(i + 1));
        }
    }
    proof {
        assert(v@.take(n as int) =~= v@);
    }
    r
}

/// Decides structural equality of two programs.
fn programs_equal(a: &Vec<Instruction>, b: &Vec<Instruction>) -> (r: bool)
    ensures
        r <==> a@ == b@,
{
    if a.len() != b.len() {
        proof {
            assert(a@ != b@);
        }
        return false;
    }
    let n = a.len();
    for i in 0..n
        invariant
            n == a@.len() && n == b@.len(),
            forall|j: int| 0 <= j < i ==> a@[j] == b@[j],
    {
        if a[i] != b[i] {
            return false;
        }
    }
    proof {
        assert(a@ =~= b@);
    }
    true
}

/// Chains the tail of one program, from `cut_tail` on, with the head of
/// another, up to `cut_head`, into a fresh vector.
fn concat_parts(tail_src: &Vec<Instruction>, cut_tail: usize, head_src: &Vec<Instruction>, cut_head: usize) -> (r: Vec<Instruction>)
    requires
        cut_tail <= tail_src@.len(),
        cut_head <= head_src@.len(),
    ensures
        r@ == tail_src@.skip(cut_tail as int) + head_src@.take(cut_head as int),
{
    let mut r: Vec<Instruction> = Vec::new();
    let n = tail_src.len();
    for i in cut_tail..n
        invariant
            n == tail_src@.len(),
            cut_tail <= n,
            r@ == tail_src@.subrange(cut_tail as int, i as int),
    {
        r.push(tail_src[i]);
        proof {
            assert(r@ =~= tail_src@.subrange(cut_tail as int, i + 1));
        }
    }
    for i in 0..cut_head
        invariant
            cut_head <= head_src@.len(),
            r@ == tail_src@.skip(cut_tail as int) + head_src@.take(i as int),
    {
        r.push(head_src[i]);
        proof {
            assert(r@ =~= tail_src@.skip(cut_tail as int) + head_src@.take(i + 1));
        }
    }
    r
}

/// The memoized score of a program: the score last computed, the program
/// snapshot it was computed against, and (in ghost state) the dataset it
/// was computed against.
struct Fitness {
    cached: Option<Score>,
    snapshot: Vec<Instruction>,
    dataset: Ghost<Seq<Seq<i32>>>,
}

/// The abstract state of an individual: its program and its score cache.
pub ghost struct IndModel {
    pub prog: Seq<Instruction>,
    pub cached: Option<Score>,
    pub snapshot: Seq<Instruction>,
    pub dataset: Seq<Seq<i32>>,
}

/// The cache holds no score yet, or one computed against another program.
pub open spec fn cache_stale(m: IndModel) -> bool {
    m.cached is None || m.snapshot != m.prog
}

/// A well-formed individual state: its program is never empty, and whatever
/// score the cache holds is the score of the snapshot on the dataset that
/// the cache was filled from.
pub open spec fn model_wf(m: IndModel) -> bool {
    &&& m.prog.len() >= 1
    &&& (m.cached matches Some(s) ==> s == score_of(m.snapshot, m.dataset))
}

/// `ch0` and `ch1` recombine `a` and `b` at the cut points `c0` and `c1`:
/// each child chains the tail of one parent with the head of the other.
pub open spec fn crossover_children(
    a: Seq<Instruction>,
    b: Seq<Instruction>,
    c0: int,
    c1: int,
    ch0: Seq<Instruction>,
    ch1: Seq<Instruction>,
) -> bool {
    &&& 0 <= c0 < a.len()
    &&& 0 <= c1 < b.len()
    &&& ch0 == b.skip(c1) + a.take(c0)
    &&& ch1 == a.skip(c0) + b.take(c1)
}

/// One candidate of the population: a program together with its lazily
/// computed, memoized score.
pub struct Individual {
    pub stack: Vec<Instruction>,
    fitness: Fitness,
}

impl Individual {
    /// The abstract state of this individual.
    pub closed spec fn model(self) -> IndModel {
        IndModel {
            prog: self.stack@,
            cached: self.fitness.cached,
            snapshot: self.fitness.snapshot@,
            dataset: self.fitness.dataset@,
        }
    }

    /// A well-formed individual: its program is never empty, and whatever
    /// score the cache holds is the score of the snapshot on the dataset
    /// that the cache was filled from.
    pub open spec fn wf(self) -> bool {
        model_wf(self.model())
    }

    /// The program this individual carries.
    pub fn program(&self) -> (r: &Vec<Instruction>)
        ensures
            r@ == self.model().prog,
    {
        &self.stack
    }

    /// Generates a random individual: a program of a length drawn from
    /// `[range_down, range_up)`, filled from the four-symbol alphabet,
    /// with an unevaluated score cache.
    pub fn new(range_up: usize, range_down: usize, rng: &mut tinyrand::StdRand) -> (r: Individual)
        requires
            1 <= range_down < range_up,
        ensures
            r.wf(),
            range_down <= r.model().prog.len() < range_up,
            forall|i: int| 0 <= i < r.model().prog.len() ==> random_alphabet(#[trigger] r.model().prog[i]),
            r.model().cached is None,
    {
        let span = (range_up - range_down) as u64;
        let extra = draw_below(rng, span);
        let len = range_down + (extra as usize);
        let mut stack: Vec<Instruction> = Vec::new();
        for i in 0..len
            invariant
                stack@.len() == i,
                forall|j: int| 0 <= j < i ==> random_alphabet(#[trigger] stack@[j]),
        {
            stack.push(select_random_instruction(rng));
        }
        let snapshot = clone_program(&stack);
        Individual {
            stack,
            fitness: Fitness { cached: None, snapshot, dataset: Ghost(Seq::empty()) },
        }
    }

    /// Builds an individual over a copy of the given program, with an
    /// unevaluated score cache.
    pub fn new_from_stack(stack: &Vec<Instruction>) -> (r: Individual)
        requires
            stack@.len() >= 1,
        ensures
            r.wf(),
            r.model().prog == stack@,
            r.model().cached is None,
    {
        let owned = clone_program(stack);
        let snapshot = clone_program(stack);
        Individual {
            stack: owned,
            fitness: Fitness { cached: None, snapshot, dataset: Ghost(Seq::empty()) },
        }
    }

    /// Returns an exact copy: the program and the current score cache,
    /// snapshot included.
    pub fn reproduce(&self) -> (r: Individual)
        ensures
            r.model() == self.model(),
    {
        Individual {
            stack: clone_program(&self.stack),
            fitness: Fitness {
                cached: self.fitness.cached,
                snapshot: clone_program(&self.fitness.snapshot),
                dataset: Ghost(self.fitness.dataset@),
            },
        }
    }

    /// Single-point crossover at cut points drawn independently into each
    /// parent: the two children split the parents' instructions between
    /// them, none created and none lost, and start with unevaluated caches.
    pub fn crossover(&self, other: &Individual, rng: &mut tinyrand::StdRand) -> (r: (
        Individual,
        Individual,
    ))
        requires
            self.model().prog.len() >= 1,
            other.model().prog.len() >= 1,
        ensures
            exists|c0: int, c1: int|
                #[trigger] crossover_children(
                    self.model().prog,
                    other.model().prog,
                    c0,
                    c1,
                    r.0.model().prog,
                    r.1.model().prog,
                ),
            r.0.model().prog.len() + r.1.model().prog.len() == self.model().prog.len()
                + other.model().prog.len(),
            r.0.wf() && r.1.wf(),
            r.0.model().cached is None && r.1.model().cached is None,
    {
        let c0 = draw_below(rng, self.stack.len() as u64) as usize;
        let c1 = draw_below(rng, other.stack.len() as u64) as usize;
        let child0 = concat_parts(&other.stack, c1, &self.stack, c0);
        let child1 = concat_parts(&self.stack, c0, &other.stack, c1);
        let new0 = Individual::new_from_stack(&child0);
        let new1 = Individual::new_from_stack(&child1);
        proof {
            assert(crossover_children(
                self.stack@,
                other.stack@,
                c0 as int,
                c1 as int,
                new0.model().prog,
                new1.model().prog,
            ));
        }
        (new0, new1)
    }

    /// Appends one instruction drawn from the four-symbol alphabet. The
    /// cache keeps its old snapshot and so turns stale.
    pub fn mutate_add(&mut self, rng: &mut tinyrand::StdRand)
        ensures
            final(self).model().prog.len() == old(self).model().prog.len() + 1,
            final(self).model().prog == old(self).model().prog.push(final(self).model().prog.last()),
            random_alphabet(final(self).model().prog.last()),
            final(self).model().cached == old(self).model().cached,
            final(self).model().snapshot == old(self).model().snapshot,
            final(self).model().dataset == old(self).model().dataset,
            old(self).wf() ==> final(self).wf(),
    {
        let ins = select_random_instruction(rng);
        self.stack.push(ins);
    }

    /// Removes the last instruction, but only from a program longer than
    /// three instructions; otherwise it changes nothing at all.
    pub fn mutate_remove(&mut self)
        ensures
            old(self).model().prog.len() <= 3 ==> *final(self) == *old(self),
            old(self).model().prog.len() > 3 ==> {
                &&& final(self).model().prog == old(self).model().prog.take(
                    old(self).model().prog.len() - 1,
                )
                &&& final(self).model().cached == old(self).model().cached
                &&& final(self).model().snapshot == old(self).model().snapshot
                &&& final(self).model().dataset == old(self).model().dataset
            },
            old(self).wf() ==> final(self).wf(),
    {
        if self.stack.len() > 3 {
            self.stack.pop();
            proof {
                assert(self.stack@ =~= old(self).stack@.take(old(self).stack@.len() - 1));
            }
        }
    }

    /// Runs this individual's program over the given initial values.
    pub fn eval(&self, args: Vec<i32>) -> (r: Result<i32, EvalError>)
        ensures
            run_stack(self.model().prog, args@).len() > 0 ==> r == Ok::<i32, EvalError>(
                run_stack(self.model().prog, args@)[0],
            ),
            run_stack(self.model().prog, args@).len() == 0 ==> r == Err::<i32, EvalError>(
                EvalError::EmptyStack,
            ),
    {
        evaluate_stack(&self.stack, args)
    }

    /// Fills the score cache from the dataset, but only when the cache is
    /// stale: unevaluated, or computed against another program. A fresh
    /// cache is left untouched, whatever dataset it came from.
    pub fn compute_fitness(&mut self, dataset: &Vec<Vec<i32>>)
        requires
            dataset@.len() <= 0xFFFF_FFFF,
        ensures
            cache_stale(old(self).model()) ==> final(self).model() == (IndModel {
                prog: old(self).model().prog,
                cached: Some(score_of(old(self).model().prog, dataset.deep_view())),
                snapshot: old(self).model().prog,
                dataset: dataset.deep_view(),
            }),
            !cache_stale(old(self).model()) ==> *final(self) == *old(self),
            !cache_stale(final(self).model()),
            old(self).wf() ==> final(self).wf(),
    {
        let stale = self.fitness.cached.is_none() || !programs_equal(&self.fitness.snapshot, &self.stack);
        if stale {
            self.fitness.snapshot = clone_program(&self.stack);
            self.fitness.cached = Some(score_program(&self.stack, dataset));
            self.fitness.dataset = Ghost(dataset.deep_view());
        }
    }

    /// Returns the cached score without recomputation; `None` when no
    /// score was ever computed.
    pub fn fitness(&self) -> (r: Option<Score>)
        ensures
            r == self.model().cached,
    {
        self.fitness.cached
    }
}

} // verus!
