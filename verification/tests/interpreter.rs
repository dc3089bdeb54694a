use stackgp::instruction::{evaluate_stack, EvalError, Instruction};

#[test]
fn test_evaluate_chain() {
    let mut stack = vec![
        Instruction::Integer(2),
        Instruction::Integer(3),
        Instruction::Sum,
        Instruction::Integer(2),
        Instruction::Neg,
        Instruction::Multiply,
    ];
    assert_eq!(evaluate_stack(&stack, vec![]), Ok(-10));
    stack.push(Instruction::Duplicate);
    stack.push(Instruction::Multiply);
    assert_eq!(evaluate_stack(&stack, vec![]), Ok(100));
    stack.push(Instruction::Integer(-1));
    stack.push(Instruction::Sum);
    stack.push(Instruction::Swap);
    assert_eq!(evaluate_stack(&stack, vec![]), Ok(99));
}

#[test]
fn test_evaluate_initial_inputs() {
    let stack = vec![Instruction::Sum];
    assert_eq!(evaluate_stack(&stack, vec![2, -2]), Ok(0));
}

#[test]
fn test_evaluate_returns_bottom() {
    let stack = vec![Instruction::Integer(7)];
    assert_eq!(evaluate_stack(&stack, vec![1, 2]), Ok(1));
}

#[test]
fn test_evaluate_empty_stack_error() {
    assert_eq!(evaluate_stack(&vec![], vec![]), Err(EvalError::EmptyStack));
    let stack = vec![Instruction::Sum, Instruction::Neg, Instruction::Swap];
    assert_eq!(evaluate_stack(&stack, vec![]), Err(EvalError::EmptyStack));
}

#[test]
fn test_evaluate_wrapping_overflow() {
    let stack = vec![
        Instruction::Integer(i32::MAX),
        Instruction::Integer(1),
        Instruction::Sum,
    ];
    assert_eq!(evaluate_stack(&stack, vec![]), Ok(i32::MIN));
    let stack = vec![Instruction::Integer(i32::MIN), Instruction::Neg];
    assert_eq!(evaluate_stack(&stack, vec![]), Ok(i32::MIN));
    let stack = vec![
        Instruction::Integer(i32::MIN),
        Instruction::Duplicate,
        Instruction::Multiply,
    ];
    assert_eq!(evaluate_stack(&stack, vec![]), Ok(0));
}

#[test]
fn test_evaluate_swap_reorders() {
    let stack = vec![
        Instruction::Integer(1),
        Instruction::Integer(5),
        Instruction::Swap,
    ];
    assert_eq!(evaluate_stack(&stack, vec![]), Ok(5));
}
