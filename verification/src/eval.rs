//! The stack evaluator.
//!
//! Tokens are processed strictly from left to right. A number is pushed. An
//! operator pops the right-hand operand, then the left-hand one, and pushes
//! what it computes. The stack outlives the call: whatever a run leaves on it
//! is there for the next run.

use crate::token::{Operator, Token};
use vstd::prelude::*;

verus! {

/// Why a run stopped before the end of its tokens.
#[derive(Clone, Copy, Debug, PartialEq, Eq, Structural)]
pub enum EvalError {
    /// An operator found fewer than two values on the stack.
    StackUnderflow,
}

impl EvalError {
    /// The words that describe the error.
    pub open spec fn text(self) -> Seq<char> {
        "Not enough numbers in stack"@
    }

    /// The error in words.
    pub fn message(&self) -> (message: String)
        ensures
            message@ == self.text(),
    {
        "Not enough numbers in stack".to_owned()
    }
}

/// The quotient of `a` by `b`, rounded toward zero. Meaningful for `b != 0`.
pub open spec fn trunc_div(a: int, b: int) -> int {
    let magnitude = (if a < 0 { -a } else { a }) / (if b < 0 { -b } else { b });
    if (a < 0) == (b < 0) {
        magnitude
    } else {
        -magnitude
    }
}

/// What `a op b` is over the mathematical integers.
pub open spec fn apply(op: Operator, a: int, b: int) -> int {
    match op {
        Operator::Add => a + b,
        Operator::Sub => a - b,
        Operator::Mul => a * b,
        Operator::Div => trunc_div(a, b),
    }
}

/// Whether `a op b` has no 32-bit result: a division by zero, or a value
/// outside the range of `i32`.
pub open spec fn op_faults(op: Operator, a: i32, b: i32) -> bool {
    ||| op == Operator::Div && b == 0
    ||| apply(op, a as int, b as int) < i32::MIN
    ||| apply(op, a as int, b as int) > i32::MAX
}

/// How a run over a sequence of tokens ended.
pub enum Ending {
    /// Every token was processed.
    Completed,
    /// An operator found fewer than two values; the tokens after it were not read.
    Underflow,
    /// An operator had no 32-bit result; the tokens after it were not read.
    Fault,
}

/// What a run has produced: the stack, the value of the last operator that was
/// applied, and how the run ended.
pub struct Run {
    pub stack: Seq<i32>,
    pub pending: Option<i32>,
    pub ending: Ending,
}

/// One token further. A run that has stopped stays as it is.
pub open spec fn step(run: Run, token: Token) -> Run {
    if !(run.ending is Completed) {
        run
    } else {
        match token {
            Token::Number(n) => Run { stack: run.stack.push(n), ..run },
            Token::Operator(op) => {
                let len = run.stack.len() as int;
                if len < 2 {
                    Run { ending: Ending::Underflow, ..run }
                } else {
                    let a = run.stack[len - 2];
                    let b = run.stack[len - 1];
                    if op_faults(op, a, b) {
                        Run { ending: Ending::Fault, ..run }
                    } else {
                        let value = apply(op, a as int, b as int) as i32;
                        Run {
                            stack: run.stack.take(len - 2).push(value),
                            pending: Some(value),
                            ending: Ending::Completed,
                        }
                    }
                }
            },
        }
    }
}

/// The run over `tokens`, from left to right, that starts on `stack`.
pub open spec fn run(tokens: Seq<Token>, stack: Seq<i32>) -> Run
    decreases tokens.len(),
{
    if tokens.len() == 0 {
        Run { stack, pending: None, ending: Ending::Completed }
    } else {
        step(run(tokens.drop_last(), stack), tokens.last())
    }
}

/// Whether the run over `tokens` from `stack` meets an operation without a
/// 32-bit result before anything else stops it.
pub open spec fn faults(tokens: Seq<Token>, stack: Seq<i32>) -> bool {
    run(tokens, stack).ending is Fault
}

/// What a run that did not fault hands back: the value of its last operator, if
/// it applied one, or the underflow that stopped it.
pub open spec fn outcome(run: Run) -> Result<Option<i32>, EvalError> {
    if run.ending is Underflow {
        Err(EvalError::StackUnderflow)
    } else {
        Ok(run.pending)
    }
}

/// The run over the first `k + 1` tokens is one step beyond the run over the
/// first `k`.
pub proof fn lemma_run_extend(tokens: Seq<Token>, stack: Seq<i32>, k: int)
    requires
        0 <= k < tokens.len(),
    ensures
        run(tokens.take(k + 1), stack) == step(run(tokens.take(k), stack), tokens[k]),
{
    assert(tokens.take(k + 1).drop_last() =~= tokens.take(k));
}

/// A run that has stopped after `k` tokens is the run over all of them.
pub proof fn lemma_run_stopped(tokens: Seq<Token>, stack: Seq<i32>, k: int)
    requires
        0 <= k <= tokens.len(),
        !(run(tokens.take(k), stack).ending is Completed),
    ensures
        run(tokens, stack) == run(tokens.take(k), stack),
    decreases tokens.len() - k,
{
    if k == tokens.len() {
        assert(tokens.take(k) =~= tokens);
    } else {
        lemma_run_extend(tokens, stack, k);
        lemma_run_stopped(tokens, stack, k + 1);
    }
}

/// Dividing by a negative number gives the negated quotient by its magnitude.
proof fn lemma_div_by_negative(x: int, d: int)
    requires
        0 <= x,
        d < 0,
    ensures
        x / d == -(x / (-d)),
{
    assert(x / d == -(x / (-d))) by (nonlinear_arith)
        requires
            0 <= x,
            d < 0,
    ;
}

/// Applies `op` to `a` and `b`.
fn compute(op: Operator, a: i32, b: i32) -> (value: i32)
    requires
        !op_faults(op, a, b),
    ensures
        value == apply(op, a as int, b as int),
{
    match op {
        Operator::Add => a + b,
        Operator::Sub => a - b,
        Operator::Mul => a * b,
        Operator::Div => {
            proof {
                if b < 0 {
                    lemma_div_by_negative(if a < 0 { -a } else { a as int }, b as int);
                }
            }
            a / b
        },
    }
}

/// Runs `tokens` against `stack`.
///
/// The stack is left as the run left it, also where the run stopped at an
/// operator that found fewer than two values: what the tokens before it pushed
/// stays. The value handed back is that of the last operator applied, which is
/// not the top of the stack where numbers follow it.
pub fn eval(tokens: &[Token], stack: &mut Vec<i32>) -> (result: Result<Option<i32>, EvalError>)
    requires
        !faults(tokens@, old(stack)@),
    ensures
        final(stack)@ == run(tokens@, old(stack)@).stack,
        result == outcome(run(tokens@, old(stack)@)),
{
    let ghost start = stack@;
    let mut pending: Option<i32> = None;
    let mut i: usize = 0;
    while i < tokens.len()
        invariant
            i <= tokens.len(),
            start == old(stack)@,
            !faults(tokens@, start),
            run(tokens@.take(i as int), start) == (Run {
                stack: stack@,
                pending,
                ending: Ending::Completed,
            }),
        decreases tokens.len() - i,
    {
        proof {
            lemma_run_extend(tokens@, start, i as int);
        }
        match tokens[i] {
            Token::Number(n) => {
                stack.push(n);
            },
            Token::Operator(op) => {
                if stack.len() < 2 {
                    proof {
                        lemma_run_stopped(tokens@, start, i + 1);
                    }
                    return Err(EvalError::StackUnderflow);
                }
                let ghost before = stack@;
                let b = stack.pop().unwrap();
                let a = stack.pop().unwrap();
                proof {
                    if op_faults(op, a, b) {
                        lemma_run_stopped(tokens@, start, i + 1);
                    }
                    assert(stack@ =~= before.take(before.len() - 2));
                }
                let value = compute(op, a, b);
                stack.push(value);
                pending = Some(value);
            },
        }
        i += 1;
    }
    proof {
        assert(tokens@.take(i as int) =~= tokens@);
    }
    Ok(pending)
}

/// Applies `op` to `a` and `b` where that has a 32-bit result.
fn checked(op: Operator, a: i32, b: i32) -> (value: Option<i32>)
    ensures
        value == if op_faults(op, a, b) {
            None
        } else {
            Some(apply(op, a as int, b as int) as i32)
        },
{
    match op {
        Operator::Add => a.checked_add(b),
        Operator::Sub => a.checked_sub(b),
        Operator::Mul => a.checked_mul(b),
        Operator::Div => a.checked_div(b),
    }
}

/// Tells whether `tokens` can be run against `stack`, that is, whether the run
/// meets no division by zero and no value outside the 32-bit range. The stack
/// is only read.
pub fn can_eval(tokens: &[Token], stack: &Vec<i32>) -> (ok: bool)
    ensures
        ok == !faults(tokens@, stack@),
{
    let mut scratch: Vec<i32> = stack.clone();
    assert(scratch@ =~= stack@);
    let mut i: usize = 0;
    while i < tokens.len()
        invariant
            i <= tokens.len(),
            run(tokens@.take(i as int), stack@).ending is Completed,
            run(tokens@.take(i as int), stack@).stack == scratch@,
        decreases tokens.len() - i,
    {
        proof {
            lemma_run_extend(tokens@, stack@, i as int);
        }
        match tokens[i] {
            Token::Number(n) => {
                scratch.push(n);
            },
            Token::Operator(op) => {
                if scratch.len() < 2 {
                    proof {
                        lemma_run_stopped(tokens@, stack@, i + 1);
                    }
                    return true;
                }
                let ghost before = scratch@;
                let b = scratch.pop().unwrap();
                let a = scratch.pop().unwrap();
                assert(scratch@ =~= before.take(before.len() - 2));
                match checked(op, a, b) {
                    Some(value) => {
                        scratch.push(value);
                    },
                    None => {
                        proof {
                            lemma_run_stopped(tokens@, stack@, i + 1);
                        }
                        return false;
                    },
                }
            },
        }
        i += 1;
    }
    assert(tokens@.take(i as int) =~= tokens@);
    true
}

/// A run over no tokens completes at once: the stack is as it was, and no
/// value is pending, so evaluation hands back `Ok(None)`.
pub proof fn lemma_eval_nothing(stack: Seq<i32>)
    ensures
        !faults(Seq::empty(), stack),
        run(Seq::empty(), stack).stack == stack,
        outcome(run(Seq::empty(), stack)) == Ok::<Option<i32>, EvalError>(None),
{
}

/// A lone operator against fewer than two values underflows: the stack is as
/// it was, nothing is pushed, and evaluation hands back the underflow.
pub proof fn lemma_eval_lone_operator(op: Operator, stack: Seq<i32>)
    requires
        stack.len() < 2,
    ensures
        !faults(seq![Token::Operator(op)], stack),
        run(seq![Token::Operator(op)], stack).stack == stack,
        outcome(run(seq![Token::Operator(op)], stack)) == Err::<Option<i32>, EvalError>(
            EvalError::StackUnderflow,
        ),
{
    let tokens = seq![Token::Operator(op)];
    assert(tokens.drop_last() =~= Seq::<Token>::empty());
    assert(run(tokens, stack) == step(run(Seq::empty(), stack), tokens.last()));
}

/// A run over numbers alone pushes them in their order and leaves no value
/// pending, so evaluation hands back `Ok(None)`.
pub proof fn lemma_eval_numbers(tokens: Seq<Token>, stack: Seq<i32>)
    requires
        forall|i: int| 0 <= i < tokens.len() ==> #[trigger] tokens[i] is Number,
    ensures
        run(tokens, stack).ending is Completed,
        run(tokens, stack).pending is None,
        run(tokens, stack).stack == stack + Seq::new(tokens.len(), |i: int| tokens[i]->Number_0),
    decreases tokens.len(),
{
    let pushed = Seq::new(tokens.len(), |i: int| tokens[i]->Number_0);
    if tokens.len() == 0 {
        assert(stack + pushed =~= stack);
    } else {
        let front = tokens.drop_last();
        lemma_eval_numbers(front, stack);
        let pushed_front = Seq::new(front.len(), |i: int| front[i]->Number_0);
        assert(tokens.last() is Number);
        assert((stack + pushed_front).push(tokens.last()->Number_0) =~= stack + pushed);
    }
}

} // verus!
