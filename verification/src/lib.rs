//! A calculator for postfix (reverse Polish) expressions over 32-bit integers.
//!
//! A line of text is cut into tokens by [`lex`], and the tokens are run by
//! [`eval`] against a stack that the caller keeps between lines. [`respond`]
//! does both for one line of a session and says what is to be shown for it.

pub mod eval;
pub mod lexer;
pub mod render;
pub mod session;
pub mod text;
pub mod token;

pub use eval::{can_eval, eval, EvalError};
pub use lexer::{lex, LexError};
pub use render::render;
pub use session::{can_respond, is_exit_command, respond, Reply};
pub use token::{Operator, Token};
