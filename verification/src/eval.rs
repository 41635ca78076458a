//! Evaluation of a postfix sequence.
//!
//! The walk keeps a stack of operands. A number is pushed; a binary operator
//! pops its right operand, then its left one — failing with a parse error
//! when either pop underflows — and pushes the combination. A structural
//! token that reached the evaluator (an opening parenthesis drained out of an
//! unmatched expression) also pops two operands but pushes nothing. At the
//! end the top of the stack is the result, anything beneath it is silently
//! discarded, and an empty stack is a parse error.
//!
//! The operands are expression trees, not machine numbers: the numeric fold
//! over floating-point values is the caller's, outside the verified core.

use vstd::prelude::*;

use crate::postfix::convert_model;
use crate::postfix::Postfix;
use crate::token::PostfixError;
use crate::token::SpecToken;
use crate::token::Token;

verus! {

/// A binary arithmetic operation.
#[derive(Debug, Clone, Copy, PartialEq, Eq, Structural)]
pub enum BinOp {
    Add,
    Sub,
    Mul,
    Div,
    Exp,
}

/// The expression tree built by evaluating a postfix sequence. A leaf keeps
/// the numeral text of the number token it came from.
#[derive(Debug)]
pub enum Expr {
    Num(String),
    Bin(BinOp, Box<Expr>, Box<Expr>),
}

/// The mathematical image of an expression tree.
pub enum SpecExpr {
    Num(Seq<char>),
    Bin(BinOp, Box<SpecExpr>, Box<SpecExpr>),
}

/// The image of one tree.
pub open spec fn expr_model(e: Expr) -> SpecExpr
    decreases e,
{
    match e {
        Expr::Num(n) => SpecExpr::Num(n@),
        Expr::Bin(op, l, r) => SpecExpr::Bin(
            op,
            Box::new(expr_model(*l)),
            Box::new(expr_model(*r)),
        ),
    }
}

impl View for Expr {
    type V = SpecExpr;

    open spec fn view(&self) -> SpecExpr {
        expr_model(*self)
    }
}

/// The image of an operand stack.
pub open spec fn dve(es: Seq<Expr>) -> Seq<SpecExpr> {
    Seq::new(es.len(), |i: int| es[i]@)
}

/// The operation a token stands for; `None` for numbers and parentheses.
pub open spec fn op_of(t: SpecToken) -> Option<BinOp> {
    match t {
        SpecToken::Add => Some(BinOp::Add),
        SpecToken::Sub => Some(BinOp::Sub),
        SpecToken::Mul => Some(BinOp::Mul),
        SpecToken::Div => Some(BinOp::Div),
        SpecToken::Exp => Some(BinOp::Exp),
        _ => None,
    }
}

/// The operation a token stands for.
pub(crate) fn token_op(t: &Token) -> (o: Option<BinOp>)
    ensures
        o == op_of(t@),
{
    match t {
        Token::Add => Some(BinOp::Add),
        Token::Sub => Some(BinOp::Sub),
        Token::Mul => Some(BinOp::Mul),
        Token::Div => Some(BinOp::Div),
        Token::Exp => Some(BinOp::Exp),
        _ => None,
    }
}

/// One step at a time over the remaining tokens `ts`, with the operand stack
/// so far: the tree the walk ends with, or `None` on underflow or an empty
/// final stack.
pub open spec fn eval_seq(ts: Seq<SpecToken>, stack: Seq<SpecExpr>) -> Option<SpecExpr>
    decreases ts.len(),
{
    if ts.len() == 0 {
        if stack.len() > 0 {
            Some(stack.last())
        } else {
            None
        }
    } else {
        match ts[0] {
            SpecToken::Number(n) => eval_seq(ts.skip(1), stack.push(SpecExpr::Num(n))),
            t => {
                if stack.len() < 2 {
                    None
                } else {
                    let rhs = stack[stack.len() - 1];
                    let lhs = stack[stack.len() - 2];
                    let rest = stack.take(stack.len() - 2);
                    match op_of(t) {
                        Some(op) => eval_seq(
                            ts.skip(1),
                            rest.push(SpecExpr::Bin(op, Box::new(lhs), Box::new(rhs))),
                        ),
                        None => eval_seq(ts.skip(1), rest),
                    }
                }
            },
        }
    }
}

/// What evaluating a postfix sequence must give.
pub open spec fn eval_model(ts: Seq<SpecToken>) -> Option<SpecExpr> {
    eval_seq(ts, Seq::empty())
}

/// What the whole pipeline — convert, then evaluate — must give.
pub open spec fn parse_eval_model(s: Seq<char>) -> Result<SpecExpr, PostfixError> {
    match convert_model(s) {
        Err(e) => Err(e),
        Ok(ts) => match eval_model(ts) {
            None => Err(PostfixError::ParseError),
            Some(v) => Ok(v),
        },
    }
}

/// The single entry point a caller needs: converts the text to postfix form
/// and evaluates that to an expression tree.
pub fn parse_and_evaluate(text: &str) -> (r: Result<Expr, PostfixError>)
    ensures
        match r {
            Ok(e) => parse_eval_model(text@) == Ok::<SpecExpr, PostfixError>(e@),
            Err(err) => parse_eval_model(text@) == Err::<SpecExpr, PostfixError>(err),
        },
{
    match Postfix::from_infix(text) {
        Ok(p) => p.evaluate(),
        Err(e) => Err(e),
    }
}

} // verus!
