//! The token alphabet shared by the lexer, the converter and the evaluator.

use vstd::prelude::*;

verus! {

/// The two ways a calculation can fail: an empty (or all-whitespace) input,
/// and everything else that makes the input meaningless.
#[derive(Debug, Clone, Copy, PartialEq, Eq, Structural)]
pub enum PostfixError {
    ParseError,
    EmptyString,
}

/// One lexical token. A `Number` keeps the numeral exactly as it was spelled
/// in the input (an optional leading minus, digits, an optional fraction).
#[derive(Debug)]
pub enum Token {
    Add,
    Sub,
    Mul,
    Div,
    Exp,
    OpenParen,
    CloseParen,
    Number(String),
}

/// The mathematical image of a `Token`: the numeral becomes a character
/// sequence.
pub enum SpecToken {
    Add,
    Sub,
    Mul,
    Div,
    Exp,
    OpenParen,
    CloseParen,
    Number(Seq<char>),
}

impl View for Token {
    type V = SpecToken;

    open spec fn view(&self) -> SpecToken {
        match self {
            Token::Add => SpecToken::Add,
            Token::Sub => SpecToken::Sub,
            Token::Mul => SpecToken::Mul,
            Token::Div => SpecToken::Div,
            Token::Exp => SpecToken::Exp,
            Token::OpenParen => SpecToken::OpenParen,
            Token::CloseParen => SpecToken::CloseParen,
            Token::Number(n) => SpecToken::Number(n@),
        }
    }
}

impl DeepView for Token {
    type V = SpecToken;

    open spec fn deep_view(&self) -> SpecToken {
        self.view()
    }
}

/// Operator precedence: additive operators bind loosest, the power operator
/// tightest. Structural tokens rank zero, a sentinel that never wins a
/// comparison against a real operator.
pub open spec fn spec_prio(t: SpecToken) -> int {
    match t {
        SpecToken::Add => 1,
        SpecToken::Sub => 1,
        SpecToken::Mul => 2,
        SpecToken::Div => 2,
        SpecToken::Exp => 3,
        _ => 0,
    }
}

impl Clone for Token {
    fn clone(&self) -> (r: Token)
        ensures
            r == self,
    {
        match self {
            Token::Add => Token::Add,
            Token::Sub => Token::Sub,
            Token::Mul => Token::Mul,
            Token::Div => Token::Div,
            Token::Exp => Token::Exp,
            Token::OpenParen => Token::OpenParen,
            Token::CloseParen => Token::CloseParen,
            Token::Number(n) => Token::Number(n.clone()),
        }
    }
}

impl Token {
    /// Operator precedence of this token.
    pub fn prio(&self) -> (p: usize)
        ensures
            p == spec_prio(self@),
    {
        match self {
            Token::Add => 1,
            Token::Sub => 1,
            Token::Mul => 2,
            Token::Div => 2,
            Token::Exp => 3,
            _ => 0,
        }
    }
}

/// The canonical text of one token: operators and parentheses print as
/// themselves, a numeral is wrapped in square brackets.
pub open spec fn spec_token_text(t: SpecToken) -> Seq<char> {
    match t {
        SpecToken::Add => seq!['+'],
        SpecToken::Sub => seq!['-'],
        SpecToken::Mul => seq!['*'],
        SpecToken::Div => seq!['/'],
        SpecToken::Exp => seq!['^'],
        SpecToken::OpenParen => seq!['('],
        SpecToken::CloseParen => seq![')'],
        SpecToken::Number(n) => seq!['['] + n + seq![']'],
    }
}

} // verus!
