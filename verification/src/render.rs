//! Tokens written back as text, and the law that ties the writing to the
//! lexer.

use crate::lexer::{
    fragments, is_literal, is_word, lexed, literal_value, token_of, unsigned_part, word_len,
};
use crate::text::{decimal, is_digit, is_whitespace, lemma_numeral, numeral, push_decimal};
use crate::token::{Operator, Token};
use vstd::prelude::*;

verus! {

/// The symbol of an operator.
pub open spec fn symbol(op: Operator) -> char {
    match op {
        Operator::Add => '+',
        Operator::Sub => '-',
        Operator::Mul => '*',
        Operator::Div => '/',
    }
}

/// How a token is written: an operator as its symbol, a number in decimal.
pub open spec fn token_text(token: Token) -> Seq<char> {
    match token {
        Token::Operator(op) => seq![symbol(op)],
        Token::Number(n) => decimal(n as int),
    }
}

/// How a sequence of tokens is written: each token's text, one space between
/// neighbours.
pub open spec fn rendered(tokens: Seq<Token>) -> Seq<char>
    decreases tokens.len(),
{
    if tokens.len() == 0 {
        Seq::empty()
    } else if tokens.len() == 1 {
        token_text(tokens[0])
    } else {
        token_text(tokens[0]) + seq![' '] + rendered(tokens.drop_first())
    }
}

/// The text of a token is a word, not empty, and the lexer reads it as that
/// token.
pub proof fn lemma_token_text(token: Token)
    ensures
        token_text(token).len() > 0,
        is_word(token_text(token)),
        token_of(token_text(token)) == Some(token),
{
    match token {
        Token::Operator(op) => {},
        Token::Number(n) => {
            let text = decimal(n as int);
            let magnitude = (if n < 0 { -n } else { n as int }) as nat;
            lemma_numeral(magnitude);
            assert(is_digit(numeral(magnitude)[0]));
            if n < 0 {
                assert(text.drop_first() =~= numeral(magnitude));
            }
            assert(unsigned_part(text) == numeral(magnitude));
            assert(is_literal(text));
            assert(literal_value(text) == n);
            assert forall|i: int| 0 <= i < text.len() implies !is_whitespace(#[trigger] text[i]) by {
                if n < 0 && i > 0 {
                    assert(text[i] == numeral(magnitude)[i - 1]);
                    assert(is_digit(numeral(magnitude)[i - 1]));
                } else if n >= 0 {
                    assert(is_digit(numeral(magnitude)[i]));
                }
            }
        },
    }
}

/// A word that ends the text, or that whitespace follows, is the text's first
/// word.
pub proof fn lemma_word_len_of_word(word: Seq<char>, tail: Seq<char>)
    requires
        is_word(word),
        tail.len() == 0 || is_whitespace(tail[0]),
    ensures
        word_len(word + tail) == word.len(),
    decreases word.len(),
{
    if word.len() == 0 {
        assert(word + tail =~= tail);
    } else {
        assert(!is_whitespace(word[0]));
        assert((word + tail).drop_first() =~= word.drop_first() + tail);
        assert forall|i: int| 0 <= i < word.drop_first().len() implies !is_whitespace(
            #[trigger] word.drop_first()[i],
        ) by {
            assert(word.drop_first()[i] == word[i + 1]);
        }
        lemma_word_len_of_word(word.drop_first(), tail);
    }
}

/// Writing tokens and lexing what was written gives the tokens back, in their
/// order: the lexer accepts every text that `rendered` produces and reads it as
/// the tokens it was written from. So a line that lexes to some tokens, written
/// back from them, lexes to the same tokens again, whatever whitespace it had.
pub proof fn lemma_lex_rendered(tokens: Seq<Token>)
    ensures
        lexed(rendered(tokens)) == Ok::<Seq<Token>, Seq<char>>(tokens),
    decreases tokens.len(),
{
    if tokens.len() == 0 {
        assert(tokens =~= Seq::empty());
    } else {
        let word = token_text(tokens[0]);
        lemma_token_text(tokens[0]);
        assert(!is_whitespace(word[0]));
        if tokens.len() == 1 {
            let text = rendered(tokens);
            let nothing = Seq::<char>::empty();
            assert(text =~= word + nothing);
            lemma_word_len_of_word(word, nothing);
            assert(text.take(word.len() as int) =~= word);
            assert(text.skip(word.len() as int) =~= nothing);
            assert(fragments(nothing) =~= Seq::<Seq<char>>::empty());
            assert(fragments(text) =~= seq![word]);
            assert(fragments(text).drop_first() =~= Seq::<Seq<char>>::empty());
            assert(seq![tokens[0]] + Seq::<Token>::empty() =~= tokens);
        } else {
            let rest = rendered(tokens.drop_first());
            let tail = seq![' '] + rest;
            let text = rendered(tokens);
            assert(text =~= word + tail);
            lemma_word_len_of_word(word, tail);
            assert(text.take(word.len() as int) =~= word);
            assert(text.skip(word.len() as int) =~= tail);
            assert(tail.drop_first() =~= rest);
            assert(fragments(tail) == fragments(rest));
            assert(fragments(text)[0] == word);
            assert(fragments(text).drop_first() =~= fragments(rest));
            lemma_lex_rendered(tokens.drop_first());
            assert(seq![tokens[0]] + tokens.drop_first() =~= tokens);
        }
    }
}

/// A line that lexes, written back from its tokens, lexes to the same tokens in
/// the same order. The whitespace of the line and the spelling of its numbers
/// may differ from what is written back.
pub proof fn lemma_round_trip(line: Seq<char>)
    requires
        lexed(line) is Ok,
    ensures
        lexed(rendered(lexed(line)->Ok_0)) == lexed(line),
{
    lemma_lex_rendered(lexed(line)->Ok_0);
}

/// One more token at the end is written after what was there, with a space
/// between them if anything was there.
pub proof fn lemma_rendered_push(tokens: Seq<Token>, token: Token)
    ensures
        rendered(tokens.push(token)) == if tokens.len() == 0 {
            token_text(token)
        } else {
            rendered(tokens) + seq![' '] + token_text(token)
        },
    decreases tokens.len(),
{
    let longer = tokens.push(token);
    if tokens.len() > 0 {
        assert(longer.drop_first() =~= tokens.drop_first().push(token));
        lemma_rendered_push(tokens.drop_first(), token);
        if tokens.len() == 1 {
            assert(tokens.drop_first().len() == 0);
        } else {
            assert(rendered(longer) =~= rendered(tokens) + seq![' '] + token_text(token));
        }
    }
}

/// Appends the text of `token` to `out`.
fn push_token(out: &mut String, token: Token)
    ensures
        final(out)@ == old(out)@ + token_text(token),
{
    match token {
        Token::Number(n) => push_decimal(out, n),
        Token::Operator(op) => {
            proof {
                reveal_strlit("+");
                reveal_strlit("-");
                reveal_strlit("*");
                reveal_strlit("/");
            }
            let text = match op {
                Operator::Add => "+",
                Operator::Sub => "-",
                Operator::Mul => "*",
                Operator::Div => "/",
            };
            assert(text@ =~= token_text(token));
            out.append(text);
        },
    }
}

/// Writes `tokens` as a line of text: numbers in decimal, operators as their
/// symbols, one space between neighbours.
pub fn render(tokens: &[Token]) -> (text: String)
    ensures
        text@ == rendered(tokens@),
{
    let mut text = String::new();
    let mut i: usize = 0;
    while i < tokens.len()
        invariant
            i <= tokens.len(),
            text@ == rendered(tokens@.take(i as int)),
        decreases tokens.len() - i,
    {
        proof {
            lemma_rendered_push(tokens@.take(i as int), tokens@[i as int]);
            assert(tokens@.take(i + 1) =~= tokens@.take(i as int).push(tokens@[i as int]));
        }
        if i > 0 {
            proof {
                reveal_strlit(" ");
            }
            text.append(" ");
            assert(" "@ =~= seq![' ']);
        }
        push_token(&mut text, tokens[i]);
        i += 1;
    }
    assert(tokens@.take(i as int) =~= tokens@);
    text
}

} // verus!
