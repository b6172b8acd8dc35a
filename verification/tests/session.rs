use rpn_calc::{can_respond, is_exit_command, respond, Reply};

fn print(text: &str) -> Reply {
    Reply::Print(text.to_string())
}

fn answer(line: &str, stack: &mut Vec<i32>) -> Reply {
    assert!(can_respond(line, stack));
    respond(line, stack)
}

#[test]
fn session_addition() {
    let mut stack: Vec<i32> = Vec::new();
    assert_eq!(answer("3 4 +\n", &mut stack), print("< 7"));
    assert_eq!(stack, vec![7]);
}

#[test]
fn session_longer_expression() {
    let mut stack: Vec<i32> = Vec::new();
    assert_eq!(answer("5 1 2 + 4 * + 3 -\n", &mut stack), print("< 14"));
    assert_eq!(stack, vec![14]);
}

#[test]
fn session_division() {
    let mut stack: Vec<i32> = Vec::new();
    assert_eq!(answer("10 2 /\n", &mut stack), print("< 5"));
    assert_eq!(stack, vec![5]);
}

#[test]
fn session_underflow() {
    let mut stack: Vec<i32> = Vec::new();
    assert_eq!(answer("+\n", &mut stack), print("Error: Not enough numbers in stack"));
    assert!(stack.is_empty());
}

#[test]
fn session_invalid_token_leaves_the_stack() {
    let mut stack = vec![8, 9];
    assert_eq!(answer("3 abc +\n", &mut stack), print("Error: Invalid token abc"));
    assert_eq!(stack, vec![8, 9]);
    let mut empty: Vec<i32> = Vec::new();
    assert_eq!(answer("3 abc +\n", &mut empty), print("Error: Invalid token abc"));
    assert!(empty.is_empty());
}

#[test]
fn session_exit() {
    let mut stack = vec![1, 2, 3];
    assert_eq!(answer("exit\n", &mut stack), Reply::Exit);
    assert_eq!(stack, vec![1, 2, 3]);
    let mut empty: Vec<i32> = Vec::new();
    assert_eq!(answer("exit", &mut empty), Reply::Exit);
    assert!(empty.is_empty());
}

#[test]
fn session_exit_with_whitespace_around() {
    let mut stack: Vec<i32> = Vec::new();
    assert_eq!(answer("  \texit \r\n", &mut stack), Reply::Exit);
    assert_eq!(answer("\u{3000}exit\u{a0}", &mut stack), Reply::Exit);
}

#[test]
fn session_exit_among_other_words_is_a_token() {
    let mut stack = vec![4];
    assert_eq!(answer("exit now\n", &mut stack), print("Error: Invalid token exit"));
    assert_eq!(answer("1 exit\n", &mut stack), print("Error: Invalid token exit"));
    assert_eq!(answer("EXIT\n", &mut stack), print("Error: Invalid token EXIT"));
    assert_eq!(answer("exit1\n", &mut stack), print("Error: Invalid token exit1"));
    assert_eq!(answer("ex it\n", &mut stack), print("Error: Invalid token ex"));
    assert_eq!(stack, vec![4]);
}

#[test]
fn session_blank_line_is_silent() {
    let mut stack = vec![4];
    assert_eq!(answer("\n", &mut stack), Reply::Silent);
    assert_eq!(answer("", &mut stack), Reply::Silent);
    assert_eq!(answer("   \t\n", &mut stack), Reply::Silent);
    assert_eq!(stack, vec![4]);
}

#[test]
fn session_numbers_only_are_silent() {
    let mut stack: Vec<i32> = Vec::new();
    assert_eq!(answer("1 2\n", &mut stack), Reply::Silent);
    assert_eq!(stack, vec![1, 2]);
}

#[test]
fn session_keeps_the_stack_between_lines() {
    let mut stack: Vec<i32> = Vec::new();
    assert_eq!(answer("3 4\n", &mut stack), Reply::Silent);
    assert_eq!(answer("+\n", &mut stack), print("< 7"));
    assert_eq!(answer("oops\n", &mut stack), print("Error: Invalid token oops"));
    assert_eq!(answer("10 *\n", &mut stack), print("< 70"));
    assert_eq!(answer("-\n", &mut stack), print("Error: Not enough numbers in stack"));
    assert_eq!(stack, vec![70]);
}

#[test]
fn session_underflow_keeps_earlier_pushes() {
    let mut stack: Vec<i32> = Vec::new();
    assert_eq!(answer("5 + 6\n", &mut stack), print("Error: Not enough numbers in stack"));
    assert_eq!(stack, vec![5]);
}

#[test]
fn session_shows_the_last_operator_value() {
    let mut stack: Vec<i32> = Vec::new();
    assert_eq!(answer("1 2 + 50\n", &mut stack), print("< 3"));
    assert_eq!(stack, vec![3, 50]);
}

#[test]
fn session_shows_negative_and_extreme_values() {
    let mut stack: Vec<i32> = Vec::new();
    assert_eq!(answer("3 10 -\n", &mut stack), print("< -7"));
    assert_eq!(answer("0 0 *\n", &mut stack), print("< 0"));
    assert_eq!(answer("-2147483647 1 -\n", &mut stack), print("< -2147483648"));
    assert_eq!(answer("2147483646 1 +\n", &mut stack), print("< 2147483647"));
}

#[test]
fn can_respond_refuses_faulting_lines() {
    let stack: Vec<i32> = Vec::new();
    assert!(!can_respond("1 0 /\n", &stack));
    assert!(!can_respond("2147483647 1 +\n", &stack));
    assert!(!can_respond("+\n", &vec![i32::MIN, -1]));
    assert!(can_respond("+\n", &vec![i32::MIN, 1]));
}

#[test]
fn can_respond_accepts_lines_that_are_not_run() {
    let stack = vec![1, 0];
    assert!(can_respond("exit\n", &stack));
    assert!(can_respond("1 0 / abc\n", &stack));
    assert!(can_respond("\n", &stack));
    assert!(!can_respond("/\n", &stack));
}

#[test]
fn exit_command_is_recognised_after_trimming() {
    assert!(is_exit_command("exit"));
    assert!(is_exit_command("exit\n"));
    assert!(is_exit_command(" \t exit\u{2003}\r\n"));
    assert!(!is_exit_command(""));
    assert!(!is_exit_command("   "));
    assert!(!is_exit_command("exi"));
    assert!(!is_exit_command("exit exit"));
    assert!(!is_exit_command("e xit"));
    assert!(!is_exit_command("quit"));
    assert!(!is_exit_command("Exit"));
    assert!(!is_exit_command("exit\u{200b}"));
}

#[test]
fn respond_is_repeatable() {
    let mut first = vec![2, 3];
    let mut second = vec![2, 3];
    let a = answer("* 4 + 1\n", &mut first);
    let b = answer("* 4 + 1\n", &mut second);
    assert_eq!(a, print("< 10"));
    assert_eq!(a, b);
    assert_eq!(first, vec![10, 1]);
    assert_eq!(first, second);
}
