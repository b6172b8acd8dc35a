//! The lexer: from a line of text to its tokens.
//!
//! A line is cut at runs of whitespace. Each piece between them, a fragment,
//! is an operator symbol, an integer literal, or invalid. The first invalid
//! fragment rejects the whole line.

use crate::text::{
    all_digits, digits_value, is_whitespace, lemma_digits_value_grows, to_chars, whitespace,
};
use crate::token::{Operator, Token};
use vstd::prelude::*;

verus! {

/// Why a line has no tokens.
#[derive(Debug, PartialEq, Eq)]
pub enum LexError {
    /// The fragment is neither an operator symbol nor an integer literal.
    InvalidToken(String),
}

/// The words that describe the refusal of `fragment`.
pub open spec fn invalid_token_text(fragment: Seq<char>) -> Seq<char> {
    "Invalid token "@ + fragment
}

impl LexError {
    /// The fragment that was refused.
    pub open spec fn fragment(self) -> Seq<char> {
        match self {
            LexError::InvalidToken(fragment) => fragment@,
        }
    }

    /// The words that describe the error.
    pub open spec fn text(self) -> Seq<char> {
        invalid_token_text(self.fragment())
    }

    /// The error in words.
    pub fn message(&self) -> (message: String)
        ensures
            message@ == self.text(),
    {
        match self {
            LexError::InvalidToken(fragment) => {
                let mut message = "Invalid token ".to_owned();
                message.append(fragment.as_str());
                message
            },
        }
    }
}

/// Whether `s` holds no whitespace.
pub open spec fn is_word(s: Seq<char>) -> bool {
    forall|i: int| 0 <= i < s.len() ==> !is_whitespace(#[trigger] s[i])
}

/// The length of the longest prefix of `s` that holds no whitespace.
pub open spec fn word_len(s: Seq<char>) -> nat
    decreases s.len(),
{
    if s.len() == 0 || is_whitespace(s[0]) {
        0
    } else {
        1 + word_len(s.drop_first())
    }
}

/// A word is no longer than the text it starts.
pub proof fn lemma_word_len_bound(s: Seq<char>)
    ensures
        word_len(s) <= s.len(),
    decreases s.len(),
{
    if s.len() > 0 && !is_whitespace(s[0]) {
        lemma_word_len_bound(s.drop_first());
    }
}

/// The fragments of `s`: its maximal runs of characters other than whitespace,
/// from left to right.
pub open spec fn fragments(s: Seq<char>) -> Seq<Seq<char>>
    decreases s.len(),
{
    if s.len() == 0 {
        Seq::empty()
    } else if is_whitespace(s[0]) {
        fragments(s.drop_first())
    } else {
        proof {
            lemma_word_len_bound(s);
        }
        let n = word_len(s) as int;
        seq![s.take(n)] + fragments(s.skip(n))
    }
}

/// The operator that `s` is the symbol of.
pub open spec fn operator_of(s: Seq<char>) -> Option<Operator> {
    if s.len() != 1 {
        None
    } else if s[0] == '+' {
        Some(Operator::Add)
    } else if s[0] == '-' {
        Some(Operator::Sub)
    } else if s[0] == '*' {
        Some(Operator::Mul)
    } else if s[0] == '/' {
        Some(Operator::Div)
    } else {
        None
    }
}

/// Whether `s` starts with the sign `-`.
pub open spec fn is_negative(s: Seq<char>) -> bool {
    s.len() > 0 && s[0] == '-'
}

/// What is left of `s` without its sign.
pub open spec fn unsigned_part(s: Seq<char>) -> Seq<char> {
    if is_negative(s) {
        s.drop_first()
    } else {
        s
    }
}

/// Whether `s` is written as an integer literal: an optional `-`, then one or
/// more decimal digits.
pub open spec fn is_literal(s: Seq<char>) -> bool {
    unsigned_part(s).len() > 0 && all_digits(unsigned_part(s))
}

/// The integer that the literal `s` stands for.
pub open spec fn literal_value(s: Seq<char>) -> int {
    if is_negative(s) {
        -digits_value(unsigned_part(s))
    } else {
        digits_value(unsigned_part(s))
    }
}

/// The number that `s` is a literal of, if it is one and its value fits in
/// 32 bits.
pub open spec fn number_of(s: Seq<char>) -> Option<i32> {
    if is_literal(s) && i32::MIN <= literal_value(s) <= i32::MAX {
        Some(literal_value(s) as i32)
    } else {
        None
    }
}

/// The token that the fragment `s` stands for. An operator symbol is tried
/// first, so `-` alone is the subtraction.
pub open spec fn token_of(s: Seq<char>) -> Option<Token> {
    match operator_of(s) {
        Some(op) => Some(Token::Operator(op)),
        None => match number_of(s) {
            Some(n) => Some(Token::Number(n)),
            None => None,
        },
    }
}

/// The tokens of a sequence of fragments, in their order, or the first
/// fragment that stands for no token.
pub open spec fn tokens_of(fragments: Seq<Seq<char>>) -> Result<Seq<Token>, Seq<char>>
    decreases fragments.len(),
{
    if fragments.len() == 0 {
        Ok(Seq::empty())
    } else {
        match token_of(fragments[0]) {
            None => Err(fragments[0]),
            Some(token) => match tokens_of(fragments.drop_first()) {
                Ok(rest) => Ok(seq![token] + rest),
                Err(fragment) => Err(fragment),
            },
        }
    }
}

/// What lexing `text` gives: its tokens, or its first invalid fragment.
pub open spec fn lexed(text: Seq<char>) -> Result<Seq<Token>, Seq<char>> {
    tokens_of(fragments(text))
}

/// Where the word that starts at `start` ends.
fn word_end(chars: &Vec<char>, start: usize) -> (end: usize)
    requires
        start <= chars.len(),
    ensures
        end == start + word_len(chars@.skip(start as int)),
        end <= chars.len(),
{
    let mut end = start;
    while end < chars.len() && !whitespace(chars[end])
        invariant
            start <= end <= chars.len(),
            word_len(chars@.skip(start as int)) == (end - start) + word_len(
                chars@.skip(end as int),
            ),
        decreases chars.len() - end,
    {
        assert(chars@.skip(end as int).drop_first() =~= chars@.skip(end + 1));
        end += 1;
    }
    end
}

/// Reads the fragment `chars[start..end]` as an integer literal.
fn parse_number(chars: &Vec<char>, start: usize, end: usize) -> (number: Option<i32>)
    requires
        start < end <= chars.len(),
    ensures
        number == number_of(chars@.subrange(start as int, end as int)),
{
    let ghost fragment = chars@.subrange(start as int, end as int);
    let negative = chars[start] == '-';
    let first = if negative {
        start + 1
    } else {
        start
    };
    let ghost digits = chars@.subrange(first as int, end as int);
    assert(unsigned_part(fragment) =~= digits);
    if first == end {
        return None;
    }
    let mut value: i64 = 0;
    let mut i = first;
    while i < end
        invariant
            start <= first <= i <= end <= chars.len(),
            fragment == chars@.subrange(start as int, end as int),
            digits == chars@.subrange(first as int, end as int),
            digits == unsigned_part(fragment),
            negative == is_negative(fragment),
            all_digits(digits.take(i - first)),
            value == digits_value(digits.take(i - first)),
            0 <= value <= 0x8000_0000,
        decreases end - i,
    {
        let c = chars[i];
        if !('0' <= c && c <= '9') {
            assert(digits[i - first] == c);
            return None;
        }
        assert(digits.take(i + 1 - first).drop_last() =~= digits.take(i - first));
        value = value * 10 + (c as u32 - '0' as u32) as i64;
        if value > 0x8000_0000 {
            proof {
                if all_digits(digits) {
                    lemma_digits_value_grows(digits, i + 1 - first);
                }
            }
            return None;
        }
        i += 1;
    }
    assert(digits.take(i - first) =~= digits);
    if negative {
        Some((-value) as i32)
    } else if value > 0x7FFF_FFFF {
        None
    } else {
        Some(value as i32)
    }
}

/// Reads the fragment `chars[start..end]` as a token.
fn read_token(chars: &Vec<char>, start: usize, end: usize) -> (token: Option<Token>)
    requires
        start < end <= chars.len(),
    ensures
        token == token_of(chars@.subrange(start as int, end as int)),
{
    if end - start == 1 {
        let c = chars[start];
        if c == '+' {
            return Some(Token::Operator(Operator::Add));
        } else if c == '-' {
            return Some(Token::Operator(Operator::Sub));
        } else if c == '*' {
            return Some(Token::Operator(Operator::Mul));
        } else if c == '/' {
            return Some(Token::Operator(Operator::Div));
        }
    }
    match parse_number(chars, start, end) {
        Some(n) => Some(Token::Number(n)),
        None => None,
    }
}

/// The tokens found so far, followed by what the rest of the line gives.
spec fn followed_by(found: Seq<Token>, rest: Result<Seq<Token>, Seq<char>>) -> Result<
    Seq<Token>,
    Seq<char>,
> {
    match rest {
        Ok(tokens) => Ok(found + tokens),
        Err(fragment) => Err(fragment),
    }
}

/// Cuts `text` into tokens.
///
/// The tokens come in the order of their fragments. A line without fragments
/// has no tokens, which is no error. The first fragment that is neither an
/// operator symbol nor an integer literal of 32 bits is handed back as the
/// error, and nothing of the line is kept.
pub fn lex(text: &str) -> (result: Result<Vec<Token>, LexError>)
    ensures
        match result {
            Ok(tokens) => lexed(text@) == Ok::<Seq<Token>, Seq<char>>(tokens@),
            Err(error) => lexed(text@) == Err::<Seq<Token>, Seq<char>>(error.fragment()),
        },
{
    let chars = to_chars(text);
    let mut tokens: Vec<Token> = Vec::new();
    let mut pos: usize = 0;
    assert(chars@.skip(0) =~= chars@);
    assert(Seq::<Token>::empty() + lexed(chars@)->Ok_0 =~= lexed(chars@)->Ok_0);
    while pos < chars.len()
        invariant
            pos <= chars.len(),
            chars@ == text@,
            lexed(chars@) == followed_by(tokens@, lexed(chars@.skip(pos as int))),
        decreases chars.len() - pos,
    {
        let ghost rest = chars@.skip(pos as int);
        if whitespace(chars[pos]) {
            assert(rest.drop_first() =~= chars@.skip(pos + 1));
            pos += 1;
        } else {
            let end = word_end(&chars, pos);
            let ghost n = word_len(rest) as int;
            assert(rest.take(n) =~= chars@.subrange(pos as int, end as int));
            assert(rest.skip(n) =~= chars@.skip(end as int));
            assert(fragments(rest).drop_first() =~= fragments(rest.skip(n)));
            match read_token(&chars, pos, end) {
                Some(token) => {
                    proof {
                        let after = lexed(chars@.skip(end as int));
                        if after is Ok {
                            assert(tokens@ + (seq![token] + after->Ok_0) =~= tokens@.push(token)
                                + after->Ok_0);
                        }
                    }
                    tokens.push(token);
                    pos = end;
                },
                None => {
                    let fragment = text.substring_char(pos, end);
                    return Err(LexError::InvalidToken(fragment.to_owned()));
                },
            }
        }
    }
    Ok(tokens)
}

/// A line of nothing but whitespace has no fragments, and so no tokens: it is
/// lexed to the empty sequence, not refused.
pub proof fn lemma_lex_blank(text: Seq<char>)
    requires
        forall|i: int| 0 <= i < text.len() ==> is_whitespace(#[trigger] text[i]),
    ensures
        fragments(text) == Seq::<Seq<char>>::empty(),
        lexed(text) == Ok::<Seq<Token>, Seq<char>>(Seq::empty()),
    decreases text.len(),
{
    if text.len() > 0 {
        assert(is_whitespace(text[0]));
        assert forall|i: int| 0 <= i < text.drop_first().len() implies is_whitespace(
            #[trigger] text.drop_first()[i],
        ) by {
            assert(text.drop_first()[i] == text[i + 1]);
        }
        lemma_lex_blank(text.drop_first());
    }
}

/// What `tokens_of` gives, said without recursion. It succeeds exactly when
/// every fragment stands for a token, and then with one token for each
/// fragment, in the fragments' order. Otherwise it gives the first fragment
/// that stands for none.
pub proof fn lemma_tokens_of(fragments: Seq<Seq<char>>)
    ensures
        match tokens_of(fragments) {
            Ok(tokens) => {
                &&& tokens.len() == fragments.len()
                &&& forall|i: int|
                    0 <= i < fragments.len() ==> token_of(#[trigger] fragments[i]) == Some(
                        tokens[i],
                    )
            },
            Err(fragment) => exists|k: int|
                {
                    &&& 0 <= k < fragments.len()
                    &&& fragment == #[trigger] fragments[k]
                    &&& token_of(fragment) is None
                    &&& forall|i: int| 0 <= i < k ==> token_of(#[trigger] fragments[i]) is Some
                },
        },
    decreases fragments.len(),
{
    if fragments.len() > 0 {
        let rest = fragments.drop_first();
        lemma_tokens_of(rest);
        match token_of(fragments[0]) {
            None => {
                assert(fragments[0] == fragments[0]);
            },
            Some(token) => match tokens_of(rest) {
                Ok(tokens) => {
                    let all = seq![token] + tokens;
                    assert forall|i: int| 0 <= i < fragments.len() implies token_of(
                        #[trigger] fragments[i],
                    ) == Some(all[i]) by {
                        if i > 0 {
                            assert(fragments[i] == rest[i - 1]);
                        }
                    }
                },
                Err(fragment) => {
                    let k = choose|k: int|
                        {
                            &&& 0 <= k < rest.len()
                            &&& fragment == #[trigger] rest[k]
                            &&& token_of(fragment) is None
                            &&& forall|i: int| 0 <= i < k ==> token_of(#[trigger] rest[i]) is Some
                        };
                    assert(fragment == fragments[k + 1]);
                    assert forall|i: int| 0 <= i < k + 1 implies token_of(
                        #[trigger] fragments[i],
                    ) is Some by {
                        if i > 0 {
                            assert(fragments[i] == rest[i - 1]);
                        }
                    }
                },
            },
        }
    }
}

/// The first word of a text holds no whitespace.
pub proof fn lemma_first_word(s: Seq<char>)
    ensures
        is_word(s.take(word_len(s) as int)),
    decreases s.len(),
{
    let n = word_len(s) as int;
    lemma_word_len_bound(s);
    if n > 0 {
        let rest = s.drop_first();
        lemma_first_word(rest);
        lemma_word_len_bound(rest);
        assert forall|i: int| 0 <= i < n implies !is_whitespace(#[trigger] s.take(n)[i]) by {
            if i > 0 {
                assert(s.take(n)[i] == rest.take(n - 1)[i - 1]);
            }
        }
    }
}

/// Every fragment is a word, and none is empty.
pub proof fn lemma_fragments_are_words(s: Seq<char>)
    ensures
        forall|i: int|
            0 <= i < fragments(s).len() ==> {
                &&& (#[trigger] fragments(s)[i]).len() > 0
                &&& is_word(fragments(s)[i])
            },
    decreases s.len(),
{
    if s.len() == 0 {
        assert(fragments(s).len() == 0);
    } else if is_whitespace(s[0]) {
        lemma_fragments_are_words(s.drop_first());
        assert(fragments(s) == fragments(s.drop_first()));
    } else {
        let n = word_len(s) as int;
        lemma_word_len_bound(s);
        lemma_first_word(s);
        lemma_fragments_are_words(s.skip(n));
        assert(fragments(s) == seq![s.take(n)] + fragments(s.skip(n)));
        assert forall|i: int| 0 <= i < fragments(s).len() implies {
            &&& (#[trigger] fragments(s)[i]).len() > 0
            &&& is_word(fragments(s)[i])
        } by {
            if i > 0 {
                assert(fragments(s)[i] == fragments(s.skip(n))[i - 1]);
            } else {
                assert(fragments(s)[0] == s.take(n));
            }
        }
    }
}

} // verus!
