//! One turn of a calculator session: from a line that was read to what is to
//! be shown for it.
//!
//! The caller owns the stack and the terminal. It reads a line, asks
//! [`respond`] what the line amounts to, and shows the answer or leaves.

use crate::eval::{can_eval, eval, faults, outcome, run, EvalError};
use crate::lexer::{invalid_token_text, lex, lexed};
use crate::text::{decimal, is_whitespace, push_decimal, to_chars, whitespace};
use crate::token::Token;
use vstd::prelude::*;

verus! {

/// `s` without the whitespace it starts with.
pub open spec fn trim_start(s: Seq<char>) -> Seq<char>
    decreases s.len(),
{
    if s.len() > 0 && is_whitespace(s[0]) {
        trim_start(s.drop_first())
    } else {
        s
    }
}

/// `s` without the whitespace it ends with.
pub open spec fn trim_end(s: Seq<char>) -> Seq<char>
    decreases s.len(),
{
    if s.len() > 0 && is_whitespace(s.last()) {
        trim_end(s.drop_last())
    } else {
        s
    }
}

/// `s` without the whitespace around it.
pub open spec fn trimmed(s: Seq<char>) -> Seq<char> {
    trim_end(trim_start(s))
}

/// Whether `line` is the command that ends the session: the word `exit`, with
/// nothing but whitespace around it.
pub open spec fn is_exit(line: Seq<char>) -> bool {
    trimmed(line) == "exit"@
}

/// Tells whether `line` is the command that ends the session.
pub fn is_exit_command(line: &str) -> (exit: bool)
    ensures
        exit == is_exit(line@),
{
    let chars = to_chars(line);
    let mut lo: usize = 0;
    assert(chars@.skip(0) =~= chars@);
    while lo < chars.len() && whitespace(chars[lo])
        invariant
            lo <= chars.len(),
            trim_start(chars@) == trim_start(chars@.skip(lo as int)),
        decreases chars.len() - lo,
    {
        assert(chars@.skip(lo as int).drop_first() =~= chars@.skip(lo + 1));
        lo += 1;
    }
    let mut hi: usize = chars.len();
    assert(chars@.skip(lo as int) =~= chars@.subrange(lo as int, hi as int));
    while hi > lo && whitespace(chars[hi - 1])
        invariant
            lo <= hi <= chars.len(),
            trimmed(chars@) == trim_end(chars@.subrange(lo as int, hi as int)),
        decreases hi,
    {
        assert(chars@.subrange(lo as int, hi as int).drop_last() =~= chars@.subrange(
            lo as int,
            hi - 1,
        ));
        hi -= 1;
    }
    let ghost core = chars@.subrange(lo as int, hi as int);
    assert(trimmed(chars@) == core);
    proof {
        reveal_strlit("exit");
    }
    let exit = hi - lo == 4 && chars[lo] == 'e' && chars[lo + 1] == 'x' && chars[lo + 2] == 'i'
        && chars[lo + 3] == 't';
    proof {
        if exit {
            assert(core =~= "exit"@);
        } else if core.len() == 4 {
            assert(core[0] == chars[lo as int]);
            assert(core[1] == chars[lo + 1]);
            assert(core[2] == chars[lo + 2]);
            assert(core[3] == chars[lo + 3]);
        }
    }
    exit
}

/// What the caller is to do after a line.
#[derive(Debug, PartialEq, Eq)]
pub enum Reply {
    /// Leave the session and show nothing.
    Exit,
    /// Show nothing and read on.
    Silent,
    /// Show this line and read on.
    Print(String),
}

/// A reply with its text as a sequence of characters.
pub enum ReplyView {
    Exit,
    Silent,
    Print(Seq<char>),
}

impl View for Reply {
    type V = ReplyView;

    open spec fn view(&self) -> ReplyView {
        match self {
            Reply::Exit => ReplyView::Exit,
            Reply::Silent => ReplyView::Silent,
            Reply::Print(text) => ReplyView::Print(text@),
        }
    }
}

/// The line that shows a result.
pub open spec fn result_line(value: i32) -> Seq<char> {
    "< "@ + decimal(value as int)
}

/// The line that shows an error described by `message`.
pub open spec fn error_line(message: Seq<char>) -> Seq<char> {
    "Error: "@ + message
}

/// Whether `line` cannot be answered from `stack`: it is an expression whose
/// run meets a division by zero or a value outside the 32-bit range.
pub open spec fn line_faults(line: Seq<char>, stack: Seq<i32>) -> bool {
    !is_exit(line) && lexed(line) is Ok && faults(lexed(line)->Ok_0, stack)
}

/// The reply to `line` when the stack holds `stack`.
///
/// The exit command ends the session. A line with an invalid fragment is
/// answered with the lexical error. Any other line is run: the value of its
/// last operator is shown, or the underflow that stopped it, or nothing where
/// no operator was applied.
pub open spec fn reply_to(line: Seq<char>, stack: Seq<i32>) -> ReplyView {
    if is_exit(line) {
        ReplyView::Exit
    } else {
        match lexed(line) {
            Err(fragment) => ReplyView::Print(error_line(invalid_token_text(fragment))),
            Ok(tokens) => match outcome(run(tokens, stack)) {
                Ok(Some(value)) => ReplyView::Print(result_line(value)),
                Ok(None) => ReplyView::Silent,
                Err(error) => ReplyView::Print(error_line(error.text())),
            },
        }
    }
}

/// The stack after `line` was answered: as it was for the exit command and for
/// a line with an invalid fragment, else as the run left it.
pub open spec fn stack_after(line: Seq<char>, stack: Seq<i32>) -> Seq<i32> {
    if is_exit(line) {
        stack
    } else {
        match lexed(line) {
            Err(_) => stack,
            Ok(tokens) => run(tokens, stack).stack,
        }
    }
}

/// The line that shows the error described by `message`.
fn print_error(message: String) -> (reply: Reply)
    ensures
        reply@ == ReplyView::Print(error_line(message@)),
{
    let mut text = "Error: ".to_owned();
    text.append(message.as_str());
    Reply::Print(text)
}

/// Answers one line of a session and updates the stack.
pub fn respond(line: &str, stack: &mut Vec<i32>) -> (reply: Reply)
    requires
        !line_faults(line@, old(stack)@),
    ensures
        reply@ == reply_to(line@, old(stack)@),
        final(stack)@ == stack_after(line@, old(stack)@),
{
    if is_exit_command(line) {
        return Reply::Exit;
    }
    match lex(line) {
        Err(error) => print_error(error.message()),
        Ok(tokens) => match eval(tokens.as_slice(), stack) {
            Ok(Some(value)) => {
                let mut text = "< ".to_owned();
                push_decimal(&mut text, value);
                Reply::Print(text)
            },
            Ok(None) => Reply::Silent,
            Err(error) => print_error(error.message()),
        },
    }
}

/// Tells whether `line` can be answered from `stack`, that is, whether
/// [`respond`] may be called on them. The stack is only read.
pub fn can_respond(line: &str, stack: &Vec<i32>) -> (ok: bool)
    ensures
        ok == !line_faults(line@, stack@),
{
    if is_exit_command(line) {
        return true;
    }
    match lex(line) {
        Err(_) => true,
        Ok(tokens) => can_eval(tokens.as_slice(), stack),
    }
}

/// Lexing and then evaluating is a function of the line and of the stack it
/// starts on. Take two passes over the same line from the same stack, each
/// with the tokens that lexing gave it and with the result and the stack that
/// evaluation left: the tokens, the results and the stacks are the same.
pub proof fn lemma_lex_eval_deterministic(
    line: Seq<char>,
    stack: Seq<i32>,
    tokens1: Seq<Token>,
    result1: Result<Option<i32>, EvalError>,
    stack1: Seq<i32>,
    tokens2: Seq<Token>,
    result2: Result<Option<i32>, EvalError>,
    stack2: Seq<i32>,
)
    requires
        lexed(line) == Ok::<Seq<Token>, Seq<char>>(tokens1),
        result1 == outcome(run(tokens1, stack)),
        stack1 == run(tokens1, stack).stack,
        lexed(line) == Ok::<Seq<Token>, Seq<char>>(tokens2),
        result2 == outcome(run(tokens2, stack)),
        stack2 == run(tokens2, stack).stack,
    ensures
        tokens1 == tokens2,
        result1 == result2,
        stack1 == stack2,
{
}

} // verus!
