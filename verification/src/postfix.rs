//! Infix-to-postfix conversion by the shunting-yard algorithm, and the
//! canonical rendering of a postfix sequence.
//!
//! The converter walks the token stream once, keeping an operator stack.
//! Numbers go straight to the output. An opening parenthesis is pushed (after
//! synthesizing a multiplication when a number directly precedes it); a
//! closing parenthesis pops operators into the output until the matching
//! opening parenthesis is found and discarded, and fails when there is none.
//! A binary operator first pops every stacked token of precedence greater
//! than or equal to its own — which makes operators of one precedence level,
//! the power operator included, associate to the left — and is then pushed.
//! After the scan the whole stack is drained into the output in pop order;
//! an opening parenthesis still on the stack is drained too, not reported.

use vstd::prelude::*;
use vstd::string::StrSliceExecFns;
use vstd::string::StringExecFns;

use crate::eval::dve;
use crate::eval::eval_model;
use crate::eval::eval_seq;
use crate::eval::token_op;
use crate::eval::Expr;
use crate::eval::SpecExpr;
use crate::lexer::is_space;
use crate::lexer::lex;
use crate::lexer::space_char;
use crate::lexer::spec_lex;
use crate::token::spec_prio;
use crate::token::spec_token_text;
use crate::token::PostfixError;
use crate::token::SpecToken;
use crate::token::Token;

verus! {

/// The mathematical image of a token sequence.
pub open spec fn dv(ts: Seq<Token>) -> Seq<SpecToken> {
    Seq::new(ts.len(), |i: int| ts[i].deep_view())
}

/// What a binary operator pops before it is pushed: the longest run of
/// stacked tokens, top first, whose precedence is at least `p`. Returns the
/// run in pop order and the stack that is left.
pub open spec fn pop_ge(stack: Seq<SpecToken>, p: int) -> (Seq<SpecToken>, Seq<SpecToken>)
    decreases stack.len(),
{
    if stack.len() > 0 && spec_prio(stack.last()) >= p {
        let r = pop_ge(stack.drop_last(), p);
        (seq![stack.last()] + r.0, r.1)
    } else {
        (Seq::empty(), stack)
    }
}

/// What a closing parenthesis pops: the stacked tokens above the nearest
/// opening parenthesis, in pop order, and the stack left after that
/// parenthesis is discarded; `None` when no opening parenthesis is on the
/// stack.
pub open spec fn pop_to_open(stack: Seq<SpecToken>) -> Option<(Seq<SpecToken>, Seq<SpecToken>)>
    decreases stack.len(),
{
    if stack.len() == 0 {
        None
    } else if stack.last() is OpenParen {
        Some((Seq::empty(), stack.drop_last()))
    } else {
        match pop_to_open(stack.drop_last()) {
            None => None,
            Some(r) => Some((seq![stack.last()] + r.0, r.1)),
        }
    }
}

/// The shunting-yard scan itself: the output emitted from the remaining
/// tokens `ts`, given the current operator stack and whether the token just
/// before was a number.
pub open spec fn sy(ts: Seq<SpecToken>, stack: Seq<SpecToken>, last_num: bool) -> Option<
    Seq<SpecToken>,
>
    decreases ts.len(),
{
    if ts.len() == 0 {
        Some(stack.reverse())
    } else {
        let t = ts[0];
        let rest = ts.skip(1);
        match t {
            SpecToken::Number(_) => match sy(rest, stack, true) {
                Some(out) => Some(seq![t] + out),
                None => None,
            },
            SpecToken::OpenParen => {
                let st = if last_num {
                    stack.push(SpecToken::Mul)
                } else {
                    stack
                };
                sy(rest, st.push(SpecToken::OpenParen), false)
            },
            SpecToken::CloseParen => match pop_to_open(stack) {
                None => None,
                Some(r) => match sy(rest, r.1, false) {
                    Some(out) => Some(r.0 + out),
                    None => None,
                },
            },
            _ => {
                let r = pop_ge(stack, spec_prio(t));
                match sy(rest, r.1.push(t), false) {
                    Some(out) => Some(r.0 + out),
                    None => None,
                }
            },
        }
    }
}

/// The postfix form of a token sequence, when the parentheses allow one.
pub open spec fn sy_model(ts: Seq<SpecToken>) -> Option<Seq<SpecToken>> {
    sy(ts, Seq::empty(), false)
}

/// True of a string with nothing but whitespace in it.
pub open spec fn spec_blank(s: Seq<char>) -> bool {
    forall|i: int| 0 <= i < s.len() ==> is_space(#[trigger] s[i])
}

/// What converting a string must give: the empty-input error on blank input,
/// a parse error when the text does not scan or a closing parenthesis is
/// unmatched, and otherwise the postfix token sequence.
pub open spec fn convert_model(s: Seq<char>) -> Result<Seq<SpecToken>, PostfixError> {
    if spec_blank(s) {
        Err(PostfixError::EmptyString)
    } else {
        match spec_lex(s) {
            None => Err(PostfixError::ParseError),
            Some(ts) => match sy_model(ts) {
                None => Err(PostfixError::ParseError),
                Some(out) => Ok(out),
            },
        }
    }
}

/// The canonical text of a postfix sequence: the tokens' texts, concatenated
/// with nothing in between.
pub open spec fn spec_render(ts: Seq<SpecToken>) -> Seq<char>
    decreases ts.len(),
{
    if ts.len() == 0 {
        Seq::empty()
    } else {
        spec_token_text(ts[0]) + spec_render(ts.skip(1))
    }
}

proof fn lemma_push_dv(v1: Seq<Token>, v2: Seq<Token>, t: Token)
    requires
        v2 == v1.push(t),
    ensures
        dv(v2) == dv(v1).push(t.deep_view()),
{
    assert(dv(v2) =~= dv(v1).push(t.deep_view()));
}

proof fn lemma_pop_dv(v1: Seq<Token>, v2: Seq<Token>)
    requires
        v1.len() > 0,
        v2 == v1.drop_last(),
    ensures
        dv(v2) == dv(v1).drop_last(),
        dv(v1).len() == v1.len(),
        dv(v1).last() == v1.last().deep_view(),
{
    assert(dv(v2) =~= dv(v1).drop_last());
}

/// Pops every stacked token of precedence at least `p` into `out`.
fn drain_ge(stack: &mut Vec<Token>, out: &mut Vec<Token>, p: usize)
    ensures
        dv(final(stack)@) == pop_ge(dv(old(stack)@), p as int).1,
        dv(final(out)@) == dv(old(out)@) + pop_ge(dv(old(stack)@), p as int).0,
{
    let ghost stack0 = dv(stack@);
    let ghost out0 = dv(out@);
    while stack.len() > 0 && stack[stack.len() - 1].prio() >= p
        invariant
            dv(out@).len() >= out0.len(),
            dv(out@).take(out0.len() as int) == out0,
            pop_ge(stack0, p as int).0 == dv(out@).skip(out0.len() as int) + pop_ge(
                dv(stack@),
                p as int,
            ).0,
            pop_ge(stack0, p as int).1 == pop_ge(dv(stack@), p as int).1,
        decreases stack.len(),
    {
        let ghost pre = stack@;
        let ghost pre_out = out@;
        let top = stack.pop().unwrap();
        proof {
            lemma_pop_dv(pre, stack@);
        }
        let ghost mid_out = dv(out@);
        out.push(top);
        proof {
            lemma_push_dv(pre_out, out@, pre.last());
            assert(dv(pre) == dv(stack@).push(pre.last().deep_view()));
            assert(pop_ge(dv(pre), p as int).0 == seq![pre.last().deep_view()] + pop_ge(
                dv(stack@),
                p as int,
            ).0);
            assert(dv(out@).skip(out0.len() as int) =~= mid_out.skip(out0.len() as int) + seq![
                pre.last().deep_view(),
            ]);
            assert(mid_out.skip(out0.len() as int) + (seq![pre.last().deep_view()] + pop_ge(
                dv(stack@),
                p as int,
            ).0) =~= dv(out@).skip(out0.len() as int) + pop_ge(dv(stack@), p as int).0);
            assert(dv(out@).take(out0.len() as int) =~= out0);
        }
    }
    proof {
        assert(pop_ge(dv(stack@), p as int).0 =~= Seq::<SpecToken>::empty());
        assert(pop_ge(dv(stack@), p as int).1 =~= dv(stack@));
        assert(dv(out@) =~= out0 + dv(out@).skip(out0.len() as int));
        assert(dv(out@).skip(out0.len() as int) + Seq::<SpecToken>::empty() =~= dv(out@).skip(
            out0.len() as int,
        ));
    }
}

/// Pops stacked tokens into `out` until an opening parenthesis is popped and
/// discarded; reports whether one was found.
fn drain_to_open(stack: &mut Vec<Token>, out: &mut Vec<Token>) -> (found: bool)
    ensures
        match pop_to_open(dv(old(stack)@)) {
            Some(r) => found && dv(final(stack)@) == r.1 && dv(final(out)@) == dv(old(out)@)
                + r.0,
            None => !found,
        },
{
    let ghost stack0 = dv(stack@);
    let ghost out0 = dv(out@);
    loop
        invariant
            stack0 == dv(old(stack)@),
            out0 == dv(old(out)@),
            dv(out@).len() >= out0.len(),
            dv(out@).take(out0.len() as int) == out0,
            pop_to_open(stack0) == (match pop_to_open(dv(stack@)) {
                Some(r) => Some((dv(out@).skip(out0.len() as int) + r.0, r.1)),
                None => None::<(Seq<SpecToken>, Seq<SpecToken>)>,
            }),
        decreases stack.len(),
    {
        let ghost pre = stack@;
        let ghost pre_out = out@;
        match stack.pop() {
            None => {
                return false;
            },
            Some(top) => {
                proof {
                    lemma_pop_dv(pre, stack@);
                }
                if matches!(top, Token::OpenParen) {
                    proof {
                        assert(pre.last().deep_view() is OpenParen);
                        assert(pop_to_open(dv(pre)) == Some(
                            (Seq::<SpecToken>::empty(), dv(stack@)),
                        ));
                        assert(dv(out@).skip(out0.len() as int) + Seq::<SpecToken>::empty()
                            =~= dv(out@).skip(out0.len() as int));
                        assert(dv(out@) =~= out0 + dv(out@).skip(out0.len() as int));
                    }
                    return true;
                }
                let ghost mid_out = dv(out@);
                out.push(top);
                proof {
                    lemma_push_dv(pre_out, out@, pre.last());
                    assert(!(pre.last().deep_view() is OpenParen));
                    match pop_to_open(dv(stack@)) {
                        Some(r) => {
                            assert(pop_to_open(dv(pre)) == Some(
                                (seq![pre.last().deep_view()] + r.0, r.1),
                            ));
                            assert(mid_out.skip(out0.len() as int) + (seq![
                                pre.last().deep_view(),
                            ] + r.0) =~= dv(out@).skip(out0.len() as int) + r.0);
                        },
                        None => {
                            assert(pop_to_open(dv(pre)) is None);
                        },
                    }
                    assert(dv(out@).take(out0.len() as int) =~= out0);
                }
            },
        }
    }
}

/// Pops the whole stack into `out`, in pop order.
fn drain_all(stack: &mut Vec<Token>, out: &mut Vec<Token>)
    ensures
        dv(final(out)@) == dv(old(out)@) + dv(old(stack)@).reverse(),
{
    let ghost stack0 = dv(stack@);
    let ghost out0 = dv(out@);
    proof {
        assert(stack0.take(stack@.len() as int) =~= stack0);
        assert(stack0.reverse().take(0) =~= Seq::<SpecToken>::empty());
        assert(out0 + Seq::<SpecToken>::empty() =~= out0);
    }
    while stack.len() > 0
        invariant
            stack@.len() <= stack0.len(),
            dv(stack@) == stack0.take(stack.len() as int),
            dv(out@) == out0 + stack0.reverse().take(stack0.len() - stack.len()),
        decreases stack.len(),
    {
        let ghost pre = stack@;
        let ghost pre_out = out@;
        let top = stack.pop().unwrap();
        out.push(top);
        proof {
            lemma_pop_dv(pre, stack@);
            lemma_push_dv(pre_out, out@, pre.last());
            assert(dv(stack@) =~= stack0.take(stack.len() as int));
            assert(dv(pre).last() == stack0[stack.len() as int]);
            assert(stack0.reverse()[stack0.len() - stack.len() - 1] == stack0[stack.len() as int]);
            assert(dv(out@) =~= out0 + stack0.reverse().take(stack0.len() - stack.len()));
        }
    }
    proof {
        assert(stack0.reverse().take(stack0.len() as int) =~= stack0.reverse());
    }
}

/// An expression in postfix (reverse Polish) form: the token sequence that
/// the converter emitted. It is created once by `from_infix` and never
/// changed; it can be rendered and evaluated any number of times.
#[derive(Debug)]
pub struct Postfix {
    tokens: Vec<Token>,
}

impl View for Postfix {
    type V = Seq<SpecToken>;

    closed spec fn view(&self) -> Seq<SpecToken> {
        dv(self.tokens@)
    }
}

impl Postfix {
    /// Converts an infix expression to its postfix form: blank input is the
    /// empty-input error; text that does not scan, or an unmatched closing
    /// parenthesis, is a parse error; everything else converts by the
    /// shunting-yard scan.
    pub fn from_infix(infix: &str) -> (r: Result<Postfix, PostfixError>)
        ensures
            match r {
                Ok(p) => convert_model(infix@) == Ok::<Seq<SpecToken>, PostfixError>(p@),
                Err(e) => convert_model(infix@) == Err::<Seq<SpecToken>, PostfixError>(e),
            },
    {
        let len = infix.unicode_len();
        let mut i: usize = 0;
        let mut blank = true;
        while i < len
            invariant
                i <= len,
                len == infix@.len(),
                blank <==> (forall|k: int| 0 <= k < i ==> is_space(#[trigger] infix@[k])),
            decreases len - i,
        {
            if !space_char(infix.get_char(i)) {
                blank = false;
            }
            i = i + 1;
        }
        if blank {
            return Err(PostfixError::EmptyString);
        }
        let toks = match lex(infix) {
            Ok(t) => t,
            Err(_) => {
                return Err(PostfixError::ParseError);
            },
        };
        let ghost full = dv(toks@);
        proof {
            assert(toks.deep_view() =~= full);
        }
        let mut stack: Vec<Token> = Vec::new();
        let mut out: Vec<Token> = Vec::new();
        let mut last_num = false;
        let mut idx: usize = 0;
        proof {
            assert(full.skip(0) =~= full);
            assert(dv(stack@) =~= Seq::<SpecToken>::empty());
            assert(dv(out@) =~= Seq::<SpecToken>::empty());
            match sy(full, Seq::empty(), false) {
                Some(o) => {
                    assert(dv(out@) + o =~= o);
                },
                None => {},
            }
        }
        while idx < toks.len()
            invariant
                idx <= toks@.len(),
                full == dv(toks@),
                !spec_blank(infix@),
                spec_lex(infix@) == Some(full),
                sy_model(full) == (match sy(full.skip(idx as int), dv(stack@), last_num) {
                    Some(o) => Some(dv(out@) + o),
                    None => None::<Seq<SpecToken>>,
                }),
            decreases toks@.len() - idx,
        {
            let ghost suffix = full.skip(idx as int);
            proof {
                assert(suffix[0] == full[idx as int]);
                assert(suffix.skip(1) =~= full.skip(idx as int + 1));
            }
            match &toks[idx] {
                Token::Number(n) => {
                    let ghost pre_out = out@;
                    out.push(Token::Number(n.clone()));
                    proof {
                        lemma_push_dv(pre_out, out@, toks@[idx as int]);
                        match sy(full.skip(idx as int + 1), dv(stack@), true) {
                            Some(o) => {
                                assert(dv(pre_out) + (seq![suffix[0]] + o) =~= dv(out@) + o);
                            },
                            None => {},
                        }
                    }
                    last_num = true;
                },
                Token::OpenParen => {
                    if last_num {
                        let ghost pre = stack@;
                        stack.push(Token::Mul);
                        proof {
                            lemma_push_dv(pre, stack@, Token::Mul);
                        }
                    }
                    let ghost pre = stack@;
                    stack.push(Token::OpenParen);
                    proof {
                        lemma_push_dv(pre, stack@, Token::OpenParen);
                    }
                    last_num = false;
                },
                Token::CloseParen => {
                    let ghost pre_stack = dv(stack@);
                    let ghost pre_out = dv(out@);
                    let found = drain_to_open(&mut stack, &mut out);
                    if !found {
                        proof {
                            assert(pop_to_open(pre_stack) is None);
                            assert(sy_model(full) is None);
                        }
                        return Err(PostfixError::ParseError);
                    }
                    proof {
                        match pop_to_open(pre_stack) {
                            Some(r) => {
                                match sy(full.skip(idx as int + 1), r.1, false) {
                                    Some(o) => {
                                        assert(pre_out + (r.0 + o) =~= dv(out@) + o);
                                    },
                                    None => {},
                                }
                            },
                            None => {},
                        }
                    }
                    last_num = false;
                },
                other => {
                    let t = other.clone();
                    let p = t.prio();
                    let ghost pre_out = dv(out@);
                    let ghost pre_stack = dv(stack@);
                    drain_ge(&mut stack, &mut out, p);
                    let ghost mid = stack@;
                    stack.push(t);
                    proof {
                        lemma_push_dv(mid, stack@, toks@[idx as int]);
                        let r = pop_ge(pre_stack, spec_prio(suffix[0]));
                        match sy(full.skip(idx as int + 1), r.1.push(suffix[0]), false) {
                            Some(o) => {
                                assert(pre_out + (r.0 + o) =~= dv(out@) + o);
                            },
                            None => {},
                        }
                    }
                    last_num = false;
                },
            }
            idx = idx + 1;
        }
        let ghost st_end = dv(stack@);
        let ghost out_end = dv(out@);
        proof {
            assert(full.skip(toks@.len() as int) =~= Seq::<SpecToken>::empty());
            assert(sy(full.skip(toks@.len() as int), st_end, last_num) == Some(
                st_end.reverse(),
            ));
        }
        drain_all(&mut stack, &mut out);
        proof {
            assert(sy_model(full) == Some(dv(out@)));
        }
        Ok(Postfix { tokens: out })
    }

    /// Evaluates the sequence with an operand stack, building the expression
    /// tree that a numeric fold then follows. Fails exactly when an operator
    /// finds fewer than two operands or the final stack is empty.
    pub fn evaluate(&self) -> (r: Result<Expr, PostfixError>)
        ensures
            match r {
                Ok(e) => eval_model(self@) == Some(e@),
                Err(err) => err == PostfixError::ParseError && eval_model(self@) is None,
            },
    {
        let mut stack: Vec<Expr> = Vec::new();
        let mut idx: usize = 0;
        proof {
            assert(self@.skip(0) =~= self@);
            assert(dve(stack@) =~= Seq::<SpecExpr>::empty());
        }
        while idx < self.tokens.len()
            invariant
                idx <= self.tokens@.len(),
                self@.len() == self.tokens@.len(),
                eval_model(self@) == eval_seq(self@.skip(idx as int), dve(stack@)),
            decreases self.tokens@.len() - idx,
        {
            let ghost suffix = self@.skip(idx as int);
            proof {
                assert(suffix[0] == self@[idx as int]);
                assert(suffix.skip(1) =~= self@.skip(idx as int + 1));
            }
            match &self.tokens[idx] {
                Token::Number(n) => {
                    let ghost pre = stack@;
                    stack.push(Expr::Num(n.clone()));
                    proof {
                        assert(dve(stack@) =~= dve(pre).push(SpecExpr::Num(n@)));
                    }
                },
                other => {
                    let ghost pre = stack@;
                    proof {
                        assert(!(suffix[0] is Number));
                    }
                    let rhs = match stack.pop() {
                        Some(v) => v,
                        None => {
                            proof {
                                assert(dve(pre).len() == 0);
                            }
                            return Err(PostfixError::ParseError);
                        },
                    };
                    let lhs = match stack.pop() {
                        Some(v) => v,
                        None => {
                            proof {
                                assert(dve(pre).len() == 1);
                            }
                            return Err(PostfixError::ParseError);
                        },
                    };
                    proof {
                        assert(stack@ == pre.drop_last().drop_last());
                        assert(dve(stack@) =~= dve(pre).take(pre.len() - 2));
                        assert(rhs@ == dve(pre)[pre.len() - 1]);
                        assert(lhs@ == dve(pre)[pre.len() - 2]);
                    }
                    match token_op(other) {
                        Some(op) => {
                            let ghost rest = stack@;
                            stack.push(Expr::Bin(op, Box::new(lhs), Box::new(rhs)));
                            proof {
                                assert(dve(stack@) =~= dve(rest).push(
                                    SpecExpr::Bin(op, Box::new(lhs@), Box::new(rhs@)),
                                ));
                            }
                        },
                        None => {},
                    }
                },
            }
            idx = idx + 1;
        }
        proof {
            assert(self@.skip(self.tokens@.len() as int) =~= Seq::<SpecToken>::empty());
        }
        let ghost fin = stack@;
        match stack.pop() {
            Some(v) => {
                proof {
                    assert(v@ == dve(fin).last());
                }
                Ok(v)
            },
            None => {
                proof {
                    assert(dve(fin).len() == 0);
                }
                Err(PostfixError::ParseError)
            },
        }
    }

    /// The canonical text of the sequence: each token in order, with a
    /// numeral wrapped in square brackets and nothing in between.
    pub fn render(&self) -> (r: String)
        ensures
            r@ == spec_render(self@),
    {
        let mut acc = String::new();
        let mut idx: usize = 0;
        proof {
            assert(self@.skip(0) =~= self@);
            assert(acc@ + spec_render(self@) =~= spec_render(self@));
        }
        while idx < self.tokens.len()
            invariant
                idx <= self.tokens@.len(),
                self@.len() == self.tokens@.len(),
                acc@ + spec_render(self@.skip(idx as int)) == spec_render(self@),
            decreases self.tokens@.len() - idx,
        {
            let ghost suffix = self@.skip(idx as int);
            let ghost pre = acc@;
            proof {
                assert(suffix[0] == self@[idx as int]);
                assert(suffix.skip(1) =~= self@.skip(idx as int + 1));
            }
            match &self.tokens[idx] {
                Token::Add => {
                    acc.append("+");
                    proof {
                        reveal_strlit("+");
                        assert("+"@ =~= spec_token_text(suffix[0]));
                    }
                },
                Token::Sub => {
                    acc.append("-");
                    proof {
                        reveal_strlit("-");
                        assert("-"@ =~= spec_token_text(suffix[0]));
                    }
                },
                Token::Mul => {
                    acc.append("*");
                    proof {
                        reveal_strlit("*");
                        assert("*"@ =~= spec_token_text(suffix[0]));
                    }
                },
                Token::Div => {
                    acc.append("/");
                    proof {
                        reveal_strlit("/");
                        assert("/"@ =~= spec_token_text(suffix[0]));
                    }
                },
                Token::Exp => {
                    acc.append("^");
                    proof {
                        reveal_strlit("^");
                        assert("^"@ =~= spec_token_text(suffix[0]));
                    }
                },
                Token::OpenParen => {
                    acc.append("(");
                    proof {
                        reveal_strlit("(");
                        assert("("@ =~= spec_token_text(suffix[0]));
                    }
                },
                Token::CloseParen => {
                    acc.append(")");
                    proof {
                        reveal_strlit(")");
                        assert(")"@ =~= spec_token_text(suffix[0]));
                    }
                },
                Token::Number(n) => {
                    acc.append("[");
                    acc.append(n.as_str());
                    acc.append("]");
                    proof {
                        reveal_strlit("[");
                        reveal_strlit("]");
                        assert(pre + ("["@ + n@ + "]"@) =~= acc@);
                        assert("["@ + n@ + "]"@ =~= spec_token_text(suffix[0]));
                    }
                },
            }
            proof {
                assert(acc@ =~= pre + spec_token_text(suffix[0]));
                assert(acc@ + spec_render(self@.skip(idx as int + 1)) =~= pre + spec_render(
                    suffix,
                ));
            }
            idx = idx + 1;
        }
        proof {
            assert(self@.skip(self.tokens@.len() as int) =~= Seq::<SpecToken>::empty());
            assert(acc@ + spec_render(Seq::<SpecToken>::empty()) =~= acc@);
        }
        acc
    }
}

} // verus!
