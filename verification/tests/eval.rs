use rpn_calc::{can_eval, eval, lex, EvalError, Operator, Token};

fn run(line: &str, stack: &mut Vec<i32>) -> Result<Option<i32>, EvalError> {
    let tokens = lex(line).unwrap();
    assert!(can_eval(&tokens, stack));
    eval(&tokens, stack)
}

#[test]
fn eval_addition() {
    let mut stack: Vec<i32> = Vec::new();
    assert_eq!(run("3 4 +", &mut stack), Ok(Some(7)));
    assert_eq!(stack, vec![7]);
}

#[test]
fn eval_longer_expression() {
    let mut stack: Vec<i32> = Vec::new();
    assert_eq!(run("5 1 2 + 4 * + 3 -", &mut stack), Ok(Some(14)));
    assert_eq!(stack, vec![14]);
}

#[test]
fn eval_division() {
    let mut stack: Vec<i32> = Vec::new();
    assert_eq!(run("10 2 /", &mut stack), Ok(Some(5)));
    assert_eq!(stack, vec![5]);
}

#[test]
fn eval_underflow_on_empty_stack() {
    let mut stack: Vec<i32> = Vec::new();
    assert_eq!(run("+", &mut stack), Err(EvalError::StackUnderflow));
    assert!(stack.is_empty());
}

#[test]
fn eval_lone_operator_with_one_value_underflows() {
    for op in [Operator::Add, Operator::Sub, Operator::Mul, Operator::Div] {
        let mut stack = vec![9];
        let tokens = [Token::Operator(op)];
        assert!(can_eval(&tokens, &stack));
        assert_eq!(eval(&tokens, &mut stack), Err(EvalError::StackUnderflow));
        assert_eq!(stack, vec![9]);
    }
}

#[test]
fn eval_lone_operator_with_no_value_underflows() {
    for op in [Operator::Add, Operator::Sub, Operator::Mul, Operator::Div] {
        let mut stack: Vec<i32> = Vec::new();
        let tokens = [Token::Operator(op)];
        assert!(can_eval(&tokens, &stack));
        assert_eq!(eval(&tokens, &mut stack), Err(EvalError::StackUnderflow));
        assert!(stack.is_empty());
    }
}

#[test]
fn eval_lone_operator_with_two_values_applies() {
    let mut stack = vec![9, 4];
    assert_eq!(eval(&[Token::Operator(Operator::Sub)], &mut stack), Ok(Some(5)));
    assert_eq!(stack, vec![5]);
    let mut deeper = vec![1, 2, 3];
    assert_eq!(eval(&[Token::Operator(Operator::Mul)], &mut deeper), Ok(Some(6)));
    assert_eq!(deeper, vec![1, 6]);
}

#[test]
fn eval_no_tokens_changes_nothing() {
    let mut stack = vec![1, 2, 3];
    assert_eq!(eval(&[], &mut stack), Ok(None));
    assert_eq!(stack, vec![1, 2, 3]);
    let mut empty: Vec<i32> = Vec::new();
    assert_eq!(eval(&[], &mut empty), Ok(None));
    assert!(empty.is_empty());
}

#[test]
fn eval_numbers_only_gives_no_result() {
    let mut stack = vec![7];
    assert_eq!(run("1 2 3", &mut stack), Ok(None));
    assert_eq!(stack, vec![7, 1, 2, 3]);
}

#[test]
fn eval_result_is_the_last_operator_not_the_top() {
    let mut stack: Vec<i32> = Vec::new();
    assert_eq!(run("1 2 + 10 20", &mut stack), Ok(Some(3)));
    assert_eq!(stack, vec![3, 10, 20]);
}

#[test]
fn eval_later_operator_overwrites_the_result() {
    let mut stack: Vec<i32> = Vec::new();
    assert_eq!(run("1 2 + 5 6 *", &mut stack), Ok(Some(30)));
    assert_eq!(stack, vec![3, 30]);
}

#[test]
fn eval_stack_persists_between_calls() {
    let mut stack: Vec<i32> = Vec::new();
    assert_eq!(run("3 4", &mut stack), Ok(None));
    assert_eq!(run("+", &mut stack), Ok(Some(7)));
    assert_eq!(run("2 *", &mut stack), Ok(Some(14)));
    assert_eq!(stack, vec![14]);
}

#[test]
fn eval_underflow_keeps_what_was_done_before() {
    let mut stack: Vec<i32> = Vec::new();
    assert_eq!(run("1 2 + + 9", &mut stack), Err(EvalError::StackUnderflow));
    assert_eq!(stack, vec![3]);
    let mut other: Vec<i32> = Vec::new();
    assert_eq!(run("4 -", &mut other), Err(EvalError::StackUnderflow));
    assert_eq!(other, vec![4]);
}

#[test]
fn eval_later_operand_is_the_right_hand_one() {
    let mut stack: Vec<i32> = Vec::new();
    assert_eq!(run("10 3 -", &mut stack), Ok(Some(7)));
    assert_eq!(run("3 10 -", &mut stack), Ok(Some(-7)));
    assert_eq!(run("7 2 /", &mut stack), Ok(Some(3)));
    assert_eq!(run("2 7 /", &mut stack), Ok(Some(0)));
    assert_eq!(stack, vec![7, -7, 3, 0]);
}

#[test]
fn eval_division_rounds_toward_zero() {
    let mut stack: Vec<i32> = Vec::new();
    assert_eq!(run("-7 2 /", &mut stack), Ok(Some(-3)));
    assert_eq!(run("7 -2 /", &mut stack), Ok(Some(-3)));
    assert_eq!(run("-7 -2 /", &mut stack), Ok(Some(3)));
    assert_eq!(run("0 -5 /", &mut stack), Ok(Some(0)));
    assert_eq!(run("-2147483648 2 /", &mut stack), Ok(Some(-1073741824)));
    assert_eq!(run("-2147483648 -2147483648 /", &mut stack), Ok(Some(1)));
}

#[test]
fn eval_at_the_limits_of_the_range() {
    let mut stack: Vec<i32> = Vec::new();
    assert_eq!(run("2147483646 1 +", &mut stack), Ok(Some(i32::MAX)));
    assert_eq!(run("-2147483647 1 -", &mut stack), Ok(Some(i32::MIN)));
    assert_eq!(run("-1073741824 2 *", &mut stack), Ok(Some(i32::MIN)));
    assert_eq!(run("46341 46340 *", &mut stack), Ok(Some(2147441940)));
    assert_eq!(run("-2147483648 1 /", &mut stack), Ok(Some(i32::MIN)));
    assert_eq!(run("-2147483647 -1 /", &mut stack), Ok(Some(i32::MAX)));
}

#[test]
fn can_eval_refuses_division_by_zero() {
    let tokens = lex("1 0 /").unwrap();
    assert!(!can_eval(&tokens, &Vec::new()));
    let divide = lex("/").unwrap();
    assert!(!can_eval(&divide, &vec![5, 0]));
    assert!(can_eval(&divide, &vec![0, 5]));
}

#[test]
fn can_eval_refuses_values_out_of_range() {
    let stack: Vec<i32> = Vec::new();
    assert!(!can_eval(&lex("2147483647 1 +").unwrap(), &stack));
    assert!(!can_eval(&lex("-2147483648 1 -").unwrap(), &stack));
    assert!(!can_eval(&lex("-2147483648 -1 +").unwrap(), &stack));
    assert!(!can_eval(&lex("65536 32768 *").unwrap(), &stack));
    assert!(!can_eval(&lex("46341 46341 *").unwrap(), &stack));
    assert!(!can_eval(&lex("-2147483648 -1 *").unwrap(), &stack));
    assert!(!can_eval(&lex("-2147483648 -1 /").unwrap(), &stack));
    assert!(!can_eval(&lex("1 2 + 2147483647 +").unwrap(), &stack));
}

#[test]
fn can_eval_depends_on_the_stack() {
    let add = lex("+").unwrap();
    assert!(can_eval(&add, &vec![i32::MAX, 0]));
    assert!(!can_eval(&add, &vec![i32::MAX, 1]));
    assert!(can_eval(&add, &vec![i32::MAX]));
}

#[test]
fn can_eval_accepts_underflow_before_a_fault() {
    let tokens = lex("+ 1 0 /").unwrap();
    let mut stack: Vec<i32> = Vec::new();
    assert!(can_eval(&tokens, &stack));
    assert_eq!(eval(&tokens, &mut stack), Err(EvalError::StackUnderflow));
    assert!(stack.is_empty());
}

#[test]
fn can_eval_only_reads_the_stack() {
    let stack = vec![1, 2];
    assert!(can_eval(&lex("+ 5 *").unwrap(), &stack));
    assert!(!can_eval(&lex("+ 0 /").unwrap(), &stack));
    assert_eq!(stack, vec![1, 2]);
}

#[test]
fn eval_error_message() {
    assert_eq!(EvalError::StackUnderflow.message(), "Not enough numbers in stack");
}

#[test]
fn lex_then_eval_is_repeatable() {
    let line = "8 3 - 2 * 100";
    let mut first = vec![4, 5];
    let mut second = vec![4, 5];
    let a = run(line, &mut first);
    let b = run(line, &mut second);
    assert_eq!(a, Ok(Some(10)));
    assert_eq!(a, b);
    assert_eq!(first, vec![4, 5, 10, 100]);
    assert_eq!(first, second);
}
