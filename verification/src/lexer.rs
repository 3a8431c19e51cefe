//! The arithmetic tokenizer: an independent building block that turns a
//! character sequence into a stream of tokens, one call at a time.
//!
//! Whitespace between tokens is skipped.  A maximal run of digits and
//! periods yields a number token when it forms a valid decimal literal (at
//! least one digit, at most one period); an invalid run, or any character
//! that is no digit, period or symbol, yields no token, though the position
//! still moves past it.  The evaluator does not use this component.
use vstd::prelude::*;

use crate::chars::{is_ascii_digit, is_digit_char, is_whitespace, is_ws_char};

verus! {

/// A token as contracts see it: a number's literal characters, or one of
/// the six symbols.
pub ghost enum TokenView {
    Number(Seq<char>),
    Plus,
    Minus,
    Asterisk,
    Slash,
    LParen,
    RParen,
}

/// An arithmetic token.  A number carries its literal characters; its
/// numeric interpretation is left to the caller.
#[derive(Debug, Clone)]
pub enum Token {
    Number(Vec<char>),
    Plus,
    Minus,
    Asterisk,
    Slash,
    LParen,
    RParen,
}

impl View for Token {
    type V = TokenView;

    open spec fn view(&self) -> TokenView {
        match self {
            Token::Number(v) => TokenView::Number(v@),
            Token::Plus => TokenView::Plus,
            Token::Minus => TokenView::Minus,
            Token::Asterisk => TokenView::Asterisk,
            Token::Slash => TokenView::Slash,
            Token::LParen => TokenView::LParen,
            Token::RParen => TokenView::RParen,
        }
    }
}

/// A character a number run is made of: a digit or a period.
pub open spec fn is_num_char(c: char) -> bool {
    is_digit_char(c) || c == '.'
}

/// The first position at or after `i` that holds no whitespace.
pub open spec fn skip_ws(s: Seq<char>, i: int) -> int
    decreases s.len() - i,
{
    if i < s.len() && is_ws_char(s[i]) {
        skip_ws(s, i + 1)
    } else {
        i
    }
}

/// The first position at or after `i` that holds no digit or period.
pub open spec fn run_end(s: Seq<char>, i: int) -> int
    decreases s.len() - i,
{
    if i < s.len() && is_num_char(s[i]) {
        run_end(s, i + 1)
    } else {
        i
    }
}

/// How many periods a run holds.
pub open spec fn count_dots(s: Seq<char>) -> int
    decreases s.len(),
{
    if s.len() == 0 {
        0
    } else {
        count_dots(s.drop_last()) + if s.last() == '.' {
            1int
        } else {
            0int
        }
    }
}

/// A run of digits and periods that is a valid decimal literal: at least
/// one digit, at most one period.
pub open spec fn valid_number(run: Seq<char>) -> bool {
    count_dots(run) <= 1 && exists|i: int| 0 <= i < run.len() && is_digit_char(run[i])
}

/// The token starting at position `p0` of `s`, after skipping whitespace:
/// a number token for a valid maximal digit/period run, a symbol token for
/// one of the six symbols, and none at the end of the input, for an invalid
/// run, or for any other character.
pub open spec fn token_at(s: Seq<char>, p0: int) -> Option<TokenView> {
    let p = skip_ws(s, p0);
    if p >= s.len() {
        None
    } else if is_num_char(s[p]) {
        let run = s.subrange(p, run_end(s, p + 1));
        if valid_number(run) {
            Some(TokenView::Number(run))
        } else {
            None
        }
    } else if s[p] == '+' {
        Some(TokenView::Plus)
    } else if s[p] == '-' {
        Some(TokenView::Minus)
    } else if s[p] == '*' {
        Some(TokenView::Asterisk)
    } else if s[p] == '/' {
        Some(TokenView::Slash)
    } else if s[p] == '(' {
        Some(TokenView::LParen)
    } else if s[p] == ')' {
        Some(TokenView::RParen)
    } else {
        None
    }
}

/// Where the next call continues: past the consumed run or symbol, or at
/// the end of the whitespace when the input is exhausted.
pub open spec fn pos_after(s: Seq<char>, p0: int) -> int {
    let p = skip_ws(s, p0);
    if p >= s.len() {
        p
    } else if is_num_char(s[p]) {
        run_end(s, p + 1)
    } else {
        p + 1
    }
}

/// The view of a produced token, if any.
pub open spec fn opt_token_view(t: Option<Token>) -> Option<TokenView> {
    match t {
        Some(tok) => Some(tok@),
        None => None,
    }
}

/// The tokenizer: the input characters and the current position.
pub struct Lexer {
    pub input: Vec<char>,
    pub position: usize,
}

impl Lexer {
    /// A tokenizer at the start of the given input.
    pub fn new(input: Vec<char>) -> (l: Lexer)
        ensures
            l.input == input,
            l.position == 0,
    {
        Lexer { input, position: 0 }
    }

    /// Produces the next token, if one starts at the current position, and
    /// moves the position past what was consumed.
    pub fn token(&mut self) -> (t: Option<Token>)
        ensures
            final(self).input@ == old(self).input@,
            final(self).position == pos_after(old(self).input@, old(self).position as int),
            opt_token_view(t) == token_at(old(self).input@, old(self).position as int),
    {
        let ghost s = self.input@;
        let ghost p0 = self.position as int;
        while self.position < self.input.len() && is_whitespace(self.input[self.position])
            invariant
                self.input@ == s,
                p0 <= self.position as int,
                skip_ws(s, p0) == skip_ws(s, self.position as int),
            decreases s.len() - self.position,
        {
            self.position = self.position + 1;
        }
        let ghost p = self.position as int;
        proof {
            assert(skip_ws(s, p) == p);
        }
        if self.position >= self.input.len() {
            return None;
        }
        let c = self.input[self.position];
        let token: Option<Token> = if is_ascii_digit(c) || c == '.' {
            let mut number: Vec<char> = Vec::new();
            number.push(c);
            proof {
                assert(number@ =~= s.subrange(p, p + 1));
            }
            while self.position + 1 < self.input.len() && Self::is_number(
                &self.input[self.position + 1],
            )
                invariant
                    self.input@ == s,
                    0 <= p,
                    p <= self.position < s.len(),
                    self.position < usize::MAX,
                    number@ == s.subrange(p, self.position + 1),
                    run_end(s, p + 1) == run_end(s, self.position + 1),
                decreases s.len() - self.position,
            {
                let ghost q = self.position as int;
                proof {
                    assert(q + 1 < s.len());
                    assert(is_num_char(s[q + 1]));
                    assert(number@ == s.subrange(p, q + 1));
                }
                self.position = self.position + 1;
                let cc = self.input[self.position];
                number.push(cc);
                proof {
                    assert(cc == s[q + 1]);
                    assert(number@ =~= s.subrange(p, q + 2));
                    assert(run_end(s, q + 1) == run_end(s, q + 2));
                }
            }
            proof {
                assert(run_end(s, self.position + 1) == self.position + 1);
                assert(number@ == s.subrange(p, run_end(s, p + 1)));
            }
            let mut dots: usize = 0;
            let mut has_digit = false;
            let mut k: usize = 0;
            while k < number.len()
                invariant
                    0 <= p <= run_end(s, p + 1) <= s.len(),
                    number@ == s.subrange(p, run_end(s, p + 1)),
                    k <= number@.len(),
                    dots as int == count_dots(number@.take(k as int)),
                    dots <= k,
                    has_digit == exists|x: int| 0 <= x < k && is_digit_char(number@[x]),
                decreases number@.len() - k,
            {
                let nc = number[k];
                proof {
                    assert(number@.take(k + 1).drop_last() =~= number@.take(k as int));
                    assert(number@.take(k + 1).last() == number@[k as int]);
                }
                if nc == '.' {
                    dots = dots + 1;
                } else {
                    proof {
                        assert(number@.take(k + 1).last() != '.');
                    }
                }
                if is_ascii_digit(nc) {
                    has_digit = true;
                }
                k = k + 1;
            }
            proof {
                assert(number@.take(number@.len() as int) =~= number@);
            }
            if dots <= 1 && has_digit {
                Some(Token::Number(number))
            } else {
                None
            }
        } else if c == '+' {
            Some(Token::Plus)
        } else if c == '-' {
            Some(Token::Minus)
        } else if c == '*' {
            Some(Token::Asterisk)
        } else if c == '/' {
            Some(Token::Slash)
        } else if c == '(' {
            Some(Token::LParen)
        } else if c == ')' {
            Some(Token::RParen)
        } else {
            None
        };
        self.position = self.position + 1;
        token
    }

    /// Moves one position ahead.
    pub fn next(&mut self)
        requires
            old(self).position < usize::MAX,
        ensures
            final(self).input == old(self).input,
            final(self).position == old(self).position + 1,
    {
        self.position = self.position + 1;
    }

    /// The character at the current position, if any.
    pub fn curr(&self) -> (c: Option<char>)
        ensures
            c == if (self.position as int) < self.input@.len() {
                Some(self.input@[self.position as int])
            } else {
                None::<char>
            },
    {
        if self.position < self.input.len() {
            Some(self.input[self.position])
        } else {
            None
        }
    }

    /// The character one past the current position, if any.
    pub fn peek(&self) -> (c: Option<char>)
        requires
            self.position < usize::MAX,
        ensures
            c == if self.position + 1 < self.input@.len() {
                Some(self.input@[self.position + 1])
            } else {
                None::<char>
            },
    {
        if self.position + 1 < self.input.len() {
            Some(self.input[self.position + 1])
        } else {
            None
        }
    }

    /// Whether a character can be part of a number run.
    pub fn is_number(c: &char) -> (r: bool)
        ensures
            r == is_num_char(*c),
    {
        is_ascii_digit(*c) || *c == '.'
    }
}

} // verus!
