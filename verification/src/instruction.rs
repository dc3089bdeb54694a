use vstd::prelude::*;

verus! {

/// One operation of the stack machine.
///
/// `Integer(x)` pushes the literal `x`; the other operations rewrite the top
/// of the evaluation stack, and are no-ops when the stack holds fewer values
/// than they need. All arithmetic wraps modulo `2^32`.
#[derive(Clone, Copy, Debug, PartialEq, Eq, Structural)]
pub enum Instruction {
    Integer(i32),
    Neg,
    Sum,
    Multiply,
    Duplicate,
    Swap,
}

/// Why a program evaluation produced no result.
#[derive(Clone, Copy, Debug, PartialEq, Eq, Structural)]
pub enum EvalError {
    /// The stack was empty when the program ended, so there is no output.
    EmptyStack,
}

/// The stack left after running one instruction on `s`.
///
/// The top of the stack is the last element of the sequence.
pub open spec fn step(s: Seq<i32>, ins: Instruction) -> Seq<i32> {
    match ins {
        Instruction::Integer(x) => s.push(x),
        Instruction::Neg => if s.len() >= 1 {
            s.update(s.len() - 1, (0i32).wrapping_sub(s.last()))
        } else {
            s
        },
        Instruction::Sum => if s.len() >= 2 {
            s.take(s.len() - 2).push(s.last().wrapping_add(s[s.len() - 2]))
        } else {
            s
        },
        Instruction::Multiply => if s.len() >= 2 {
            s.take(s.len() - 2).push(s.last().wrapping_mul(s[s.len() - 2]))
        } else {
            s
        },
        Instruction::Duplicate => if s.len() >= 1 {
            s.push(s.last())
        } else {
            s
        },
        Instruction::Swap => if s.len() >= 2 {
            s.update(s.len() - 1, s[s.len() - 2]).update(s.len() - 2, s.last())
        } else {
            s
        },
    }
}

/// The stack left after running the whole program `prog` on the initial
/// stack `s`, instruction by instruction, front to back.
pub open spec fn run_stack(prog: Seq<Instruction>, s: Seq<i32>) -> Seq<i32>
    decreases prog.len(),
{
    if prog.len() == 0 {
        s
    } else {
        run_stack(prog.drop_first(), step(s, prog.first()))
    }
}

/// Running a program extended by one instruction runs the program and then
/// the instruction.
pub proof fn lemma_run_stack_snoc(prog: Seq<Instruction>, ins: Instruction, s: Seq<i32>)
    ensures
        run_stack(prog.push(ins), s) == step(run_stack(prog, s), ins),
    decreases prog.len(),
{
    if prog.len() == 0 {
        assert(prog.push(ins).drop_first() =~= prog);
        assert(prog.push(ins).first() == ins);
        assert(run_stack(prog.push(ins), s) == run_stack(prog, step(s, ins)));
    } else {
        assert(prog.push(ins).first() == prog.first());
        assert(prog.push(ins).drop_first() =~= prog.drop_first().push(ins));
        lemma_run_stack_snoc(prog.drop_first(), ins, step(s, prog.first()));
        assert(run_stack(prog.push(ins), s) == run_stack(prog.drop_first().push(ins), step(
            s,
            prog.first(),
        )));
    }
}

/// Runs `stack` as a program over the initial values `args` (pushed in
/// order, so the last of `args` starts on top) and returns the bottom
/// element of the final stack. An empty final stack is reported as an
/// error, never as a default value.
pub fn evaluate_stack(stack: &Vec<Instruction>, args: Vec<i32>) -> (r: Result<i32, EvalError>)
    ensures
        run_stack(stack@, args@).len() > 0 ==> r == Ok::<i32, EvalError>(run_stack(stack@, args@)[0]),
        run_stack(stack@, args@).len() == 0 ==> r == Err::<i32, EvalError>(EvalError::EmptyStack),
{
    let ghost init = args@;
    let mut vals = args;
    let n = stack.len();
    for i in 0..n
        invariant
            n == stack@.len(),
            vals@ == run_stack(stack@.take(i as int), init),
    {
        let ghost pre = vals@;
        let ins = stack[i];
        match ins {
            Instruction::Integer(x) => {
                vals.push(x);
            },
            Instruction::Neg => {
                if vals.len() >= 1 {
                    let x = vals.pop().unwrap();
                    vals.push((0i32).wrapping_sub(x));
                }
            },
            Instruction::Sum => {
                if vals.len() >= 2 {
                    let a = vals.pop().unwrap();
                    let b = vals.pop().unwrap();
                    vals.push(a.wrapping_add(b));
                }
            },
            Instruction::Multiply => {
                if vals.len() >= 2 {
                    let a = vals.pop().unwrap();
                    let b = vals.pop().unwrap();
                    vals.push(a.wrapping_mul(b));
                }
            },
            Instruction::Duplicate => {
                if vals.len() >= 1 {
                    let x = vals.pop().unwrap();
                    vals.push(x);
                    vals.push(x);
                }
            },
            Instruction::Swap => {
                if vals.len() >= 2 {
                    let a = vals.pop().unwrap();
                    let b = vals.pop().unwrap();
                    vals.push(a);
                    vals.push(b);
                }
            },
        }
        proof {
            assert(vals@ =~= step(pre, ins));
            lemma_run_stack_snoc(stack@.take(i as int), ins, init);
            assert(stack@.take(i as int).push(ins) =~= stack@.take(i + 1));
        }
    }
    proof {
        assert(stack@.take(n as int) =~= stack@);
    }
    if vals.len() > 0 {
        Ok(vals[0])
    } else {
        Err(EvalError::EmptyStack)
    }
}

} // verus!
