//! General properties of the converter, proved once for all inputs.

use vstd::prelude::*;

use crate::eval::eval_model;
use crate::eval::eval_seq;
use crate::eval::op_of;
use crate::eval::BinOp;
use crate::eval::SpecExpr;
use crate::lexer::digits_len;
use crate::lexer::is_digit;
use crate::lexer::is_op_char;
use crate::lexer::is_space;
use crate::lexer::lemma_digits_len_le;
use crate::lexer::lemma_numeral_len_bounds;
use crate::lexer::numeral_len;
use crate::lexer::op_token;
use crate::lexer::spec_lex;
use crate::lexer::starts_number;
use crate::lexer::wf_numeral;
use crate::postfix::convert_model;
use crate::postfix::pop_ge;
use crate::postfix::pop_to_open;
use crate::postfix::spec_blank;
use crate::postfix::spec_render;
use crate::postfix::sy;
use crate::postfix::sy_model;
use crate::token::spec_prio;
use crate::token::spec_token_text;
use crate::token::SpecToken;

verus! {

/// A sequence with no parenthesis token in it.
pub open spec fn paren_free(ts: Seq<SpecToken>) -> bool {
    forall|i: int|
        0 <= i < ts.len() ==> !((#[trigger] ts[i]) is OpenParen) && !(ts[i] is CloseParen)
}

/// How many opening parentheses a sequence holds.
pub open spec fn count_open(ts: Seq<SpecToken>) -> int
    decreases ts.len(),
{
    if ts.len() == 0 {
        0
    } else {
        (if ts[0] is OpenParen {
            1int
        } else {
            0int
        }) + count_open(ts.skip(1))
    }
}

/// How many closing parentheses a sequence holds.
pub open spec fn count_close(ts: Seq<SpecToken>) -> int
    decreases ts.len(),
{
    if ts.len() == 0 {
        0
    } else {
        (if ts[0] is CloseParen {
            1int
        } else {
            0int
        }) + count_close(ts.skip(1))
    }
}

/// Balanced parentheses: no prefix closes more than was opened, and the whole
/// sequence closes everything it opens.
pub open spec fn balanced(ts: Seq<SpecToken>) -> bool {
    &&& forall|i: int|
        0 <= i <= ts.len() ==> count_close(#[trigger] ts.take(i)) <= count_open(ts.take(i))
    &&& count_open(ts) == count_close(ts)
}

spec fn no_close(ts: Seq<SpecToken>) -> bool {
    forall|i: int| 0 <= i < ts.len() ==> !((#[trigger] ts[i]) is CloseParen)
}

proof fn lemma_count_concat(a: Seq<SpecToken>, b: Seq<SpecToken>)
    ensures
        count_open(a + b) == count_open(a) + count_open(b),
        count_close(a + b) == count_close(a) + count_close(b),
    decreases a.len(),
{
    if a.len() == 0 {
        assert(a + b =~= b);
    } else {
        assert((a + b).skip(1) =~= a.skip(1) + b);
        assert((a + b)[0] == a[0]);
        lemma_count_concat(a.skip(1), b);
    }
}

proof fn lemma_count_single(t: SpecToken)
    ensures
        count_open(seq![t]) == (if t is OpenParen {
            1int
        } else {
            0int
        }),
        count_close(seq![t]) == (if t is CloseParen {
            1int
        } else {
            0int
        }),
{
    assert(seq![t].skip(1) =~= Seq::<SpecToken>::empty());
    assert(count_open(Seq::<SpecToken>::empty()) == 0);
    assert(count_close(Seq::<SpecToken>::empty()) == 0);
    assert(seq![t][0] == t);
}

proof fn lemma_count_push(ts: Seq<SpecToken>, t: SpecToken)
    ensures
        count_open(ts.push(t)) == count_open(ts) + (if t is OpenParen {
            1int
        } else {
            0int
        }),
        count_close(ts.push(t)) == count_close(ts) + (if t is CloseParen {
            1int
        } else {
            0int
        }),
{
    assert(ts.push(t) =~= ts + seq![t]);
    lemma_count_concat(ts, seq![t]);
    lemma_count_single(t);
}

proof fn lemma_count_drop_last(ts: Seq<SpecToken>)
    requires
        ts.len() > 0,
    ensures
        count_open(ts) == count_open(ts.drop_last()) + (if ts.last() is OpenParen {
            1int
        } else {
            0int
        }),
{
    assert(ts =~= ts.drop_last().push(ts.last()));
    lemma_count_push(ts.drop_last(), ts.last());
}

proof fn lemma_count_open_zero(ts: Seq<SpecToken>)
    requires
        count_open(ts) == 0,
    ensures
        forall|i: int| 0 <= i < ts.len() ==> !((#[trigger] ts[i]) is OpenParen),
    decreases ts.len(),
{
    if ts.len() > 0 {
        lemma_count_nonneg(ts.skip(1));
        lemma_count_open_zero(ts.skip(1));
        assert forall|i: int| 0 <= i < ts.len() implies !((#[trigger] ts[i]) is OpenParen) by {
            if i > 0 {
                assert(ts[i] == ts.skip(1)[i - 1]);
            }
        }
    }
}

proof fn lemma_count_nonneg(ts: Seq<SpecToken>)
    ensures
        count_open(ts) >= 0,
        count_close(ts) >= 0,
    decreases ts.len(),
{
    if ts.len() > 0 {
        lemma_count_nonneg(ts.skip(1));
    }
}

/// `pop_to_open` succeeds exactly when an opening parenthesis is on the
/// stack, pops nothing structural into the output, and removes exactly one
/// opening parenthesis.
proof fn lemma_pop_to_open_props(stack: Seq<SpecToken>)
    requires
        no_close(stack),
    ensures
        pop_to_open(stack) is Some <==> count_open(stack) > 0,
        pop_to_open(stack) matches Some(r) ==> paren_free(r.0) && no_close(r.1) && count_open(
            r.1,
        ) == count_open(stack) - 1,
    decreases stack.len(),
{
    lemma_count_nonneg(stack);
    if stack.len() == 0 {
    } else {
        lemma_count_drop_last(stack);
        assert(forall|i: int|
            0 <= i < stack.drop_last().len() ==> stack.drop_last()[i] == stack[i]);
        lemma_count_nonneg(stack.drop_last());
        if stack.last() is OpenParen {
        } else {
            lemma_pop_to_open_props(stack.drop_last());
            match pop_to_open(stack.drop_last()) {
                Some(r) => {
                    assert forall|i: int|
                        0 <= i < (seq![stack.last()] + r.0).len() implies !((#[trigger] (seq![
                        stack.last(),
                    ] + r.0)[i]) is OpenParen) && !((seq![stack.last()] + r.0)[i] is CloseParen)
                    by {
                        if i == 0 {
                            assert((seq![stack.last()] + r.0)[0] == stack.last());
                            assert(!(stack.last() is CloseParen));
                        } else {
                            assert((seq![stack.last()] + r.0)[i] == r.0[i - 1]);
                        }
                    }
                },
                None => {},
            }
        }
    }
}

/// A binary operator pops only operators — never a parenthesis — and leaves
/// every parenthesis on the stack.
proof fn lemma_pop_ge_props(stack: Seq<SpecToken>, p: int)
    requires
        p >= 1,
        no_close(stack),
    ensures
        paren_free(pop_ge(stack, p).0),
        no_close(pop_ge(stack, p).1),
        count_open(pop_ge(stack, p).1) == count_open(stack),
    decreases stack.len(),
{
    if stack.len() > 0 && spec_prio(stack.last()) >= p {
        assert(forall|i: int|
            0 <= i < stack.drop_last().len() ==> stack.drop_last()[i] == stack[i]);
        lemma_pop_ge_props(stack.drop_last(), p);
        lemma_count_drop_last(stack);
        let r = pop_ge(stack.drop_last(), p);
        assert(!(stack.last() is OpenParen) && !(stack.last() is CloseParen));
        assert forall|i: int|
            0 <= i < (seq![stack.last()] + r.0).len() implies !((#[trigger] (seq![stack.last()]
            + r.0)[i]) is OpenParen) && !((seq![stack.last()] + r.0)[i] is CloseParen) by {
            if i == 0 {
                assert((seq![stack.last()] + r.0)[0] == stack.last());
            } else {
                assert((seq![stack.last()] + r.0)[i] == r.0[i - 1]);
            }
        }
    }
}

proof fn lemma_paren_free_concat(a: Seq<SpecToken>, b: Seq<SpecToken>)
    requires
        paren_free(a),
        paren_free(b),
    ensures
        paren_free(a + b),
{
    assert forall|i: int|
        0 <= i < (a + b).len() implies !((#[trigger] (a + b)[i]) is OpenParen) && !((a
        + b)[i] is CloseParen) by {
        if i < a.len() {
            assert((a + b)[i] == a[i]);
        } else {
            assert((a + b)[i] == b[i - a.len()]);
        }
    }
}

proof fn lemma_sy_balanced(ts: Seq<SpecToken>, stack: Seq<SpecToken>, last_num: bool)
    requires
        no_close(stack),
        forall|i: int|
            0 <= i <= ts.len() ==> count_close(#[trigger] ts.take(i)) <= count_open(stack)
                + count_open(ts.take(i)),
        count_open(stack) + count_open(ts) == count_close(ts),
    ensures
        sy(ts, stack, last_num) matches Some(out) && paren_free(out),
    decreases ts.len(),
{
    lemma_count_nonneg(stack);
    lemma_count_nonneg(ts);
    if ts.len() == 0 {
        assert(ts.take(0) =~= Seq::<SpecToken>::empty());
        lemma_count_open_zero(stack);
        let out = stack.reverse();
        assert forall|i: int|
            0 <= i < out.len() implies !((#[trigger] out[i]) is OpenParen) && !(
        out[i] is CloseParen) by {
            assert(out[i] == stack[stack.len() - 1 - i]);
        }
    } else {
        let t = ts[0];
        let rest = ts.skip(1);
        lemma_count_single(t);
        assert(ts =~= seq![t] + rest);
        lemma_count_concat(seq![t], rest);
        assert forall|i: int| 0 <= i <= rest.len() implies ts.take(i + 1) =~= seq![t]
            + rest.take(i) by {}
        assert forall|i: int|
            0 <= i <= rest.len() implies count_close(#[trigger] rest.take(i)) <= count_open(
            seq![t],
        ) - count_close(seq![t]) + count_open(stack) + count_open(rest.take(i)) by {
            assert(ts.take(i + 1) =~= seq![t] + rest.take(i));
            lemma_count_concat(seq![t], rest.take(i));
            assert(count_close(ts.take(i + 1)) <= count_open(stack) + count_open(ts.take(i + 1)));
        }
        match t {
            SpecToken::Number(_) => {
                lemma_sy_balanced(rest, stack, true);
                match sy(rest, stack, true) {
                    Some(out) => {
                        assert(paren_free(seq![t]));
                        lemma_paren_free_concat(seq![t], out);
                    },
                    None => {},
                }
            },
            SpecToken::OpenParen => {
                let st = if last_num {
                    stack.push(SpecToken::Mul)
                } else {
                    stack
                };
                lemma_count_push(stack, SpecToken::Mul);
                let st2 = st.push(SpecToken::OpenParen);
                lemma_count_push(st, SpecToken::OpenParen);
                assert(no_close(st2)) by {
                    assert forall|i: int|
                        0 <= i < st2.len() implies !((#[trigger] st2[i]) is CloseParen) by {
                        if i < stack.len() {
                            assert(st2[i] == stack[i]);
                        }
                    }
                }
                assert(count_open(st2) == count_open(stack) + 1);
                lemma_sy_balanced(rest, st2, false);
            },
            SpecToken::CloseParen => {
                assert(ts.take(1) =~= seq![t]);
                assert(count_close(ts.take(1)) <= count_open(stack) + count_open(ts.take(1)));
                assert(count_open(stack) >= 1);
                lemma_pop_to_open_props(stack);
                let r = pop_to_open(stack).unwrap();
                lemma_sy_balanced(rest, r.1, false);
                match sy(rest, r.1, false) {
                    Some(out) => {
                        lemma_paren_free_concat(r.0, out);
                    },
                    None => {},
                }
            },
            _ => {
                lemma_pop_ge_props(stack, spec_prio(t));
                let r = pop_ge(stack, spec_prio(t));
                let st2 = r.1.push(t);
                lemma_count_push(r.1, t);
                assert(no_close(st2)) by {
                    assert forall|i: int|
                        0 <= i < st2.len() implies !((#[trigger] st2[i]) is CloseParen) by {
                        if i < r.1.len() {
                            assert(st2[i] == r.1[i]);
                        }
                    }
                }
                lemma_sy_balanced(rest, st2, false);
                match sy(rest, st2, false) {
                    Some(out) => {
                        lemma_paren_free_concat(r.0, out);
                    },
                    None => {},
                }
            },
        }
    }
}

/// On any token sequence whose parentheses balance, conversion succeeds and
/// its postfix output holds no parenthesis at all.
pub proof fn lemma_balanced_converts_paren_free(ts: Seq<SpecToken>)
    requires
        balanced(ts),
    ensures
        sy_model(ts) matches Some(out) && paren_free(out),
{
    assert(Seq::<SpecToken>::empty().len() == 0);
    assert forall|i: int|
        0 <= i <= ts.len() implies count_close(#[trigger] ts.take(i)) <= count_open(
        Seq::<SpecToken>::empty(),
    ) + count_open(ts.take(i)) by {
        assert(count_close(ts.take(i)) <= count_open(ts.take(i)));
    }
    assert(ts.take(ts.len() as int) =~= ts);
    lemma_sy_balanced(ts, Seq::empty(), false);
}

/// The plain lexeme of one token, as it is written in an infix expression:
/// the bare numeral for a number, the character itself for everything else.
pub open spec fn token_lexeme(t: SpecToken) -> Seq<char> {
    match t {
        SpecToken::Add => seq!['+'],
        SpecToken::Sub => seq!['-'],
        SpecToken::Mul => seq!['*'],
        SpecToken::Div => seq!['/'],
        SpecToken::Exp => seq!['^'],
        SpecToken::OpenParen => seq!['('],
        SpecToken::CloseParen => seq![')'],
        SpecToken::Number(n) => n,
    }
}

/// Whitespace only.
pub open spec fn all_space(g: Seq<char>) -> bool {
    forall|i: int| 0 <= i < g.len() ==> is_space(#[trigger] g[i])
}

/// Every number token holds a well-formed numeral.
pub open spec fn wf_tokens(ts: Seq<SpecToken>) -> bool {
    forall|i: int|
        0 <= i < ts.len() ==> ((#[trigger] ts[i]) matches SpecToken::Number(n) ==> wf_numeral(n))
}

proof fn lemma_digits_len_concat(u: Seq<char>, r: Seq<char>)
    ensures
        digits_len(u + r) == if digits_len(u) < u.len() {
            digits_len(u) as int
        } else {
            u.len() + digits_len(r) as int
        },
    decreases u.len(),
{
    lemma_digits_len_le(u);
    if u.len() == 0 {
        assert(u + r =~= r);
    } else {
        assert((u + r)[0] == u[0]);
        if is_digit(u[0]) {
            assert((u + r).skip(1) =~= u.skip(1) + r);
            lemma_digits_len_concat(u.skip(1), r);
            lemma_digits_len_le(u.skip(1));
        }
    }
}

proof fn lemma_lex_space_prefix(g: Seq<char>, r: Seq<char>)
    requires
        all_space(g),
    ensures
        spec_lex(g + r) == spec_lex(r),
    decreases g.len(),
{
    if g.len() == 0 {
        assert(g + r =~= r);
    } else {
        assert((g + r)[0] == g[0]);
        assert((g + r).skip(1) =~= g.skip(1) + r);
        lemma_lex_space_prefix(g.skip(1), r);
    }
}

proof fn lemma_lex_blank(s: Seq<char>)
    requires
        all_space(s),
    ensures
        spec_lex(s) == Some(Seq::<SpecToken>::empty()),
{
    assert(s + Seq::<char>::empty() =~= s);
    lemma_lex_space_prefix(s, Seq::empty());
}

proof fn lemma_lex_numeral_step(x: Seq<char>, r: Seq<char>)
    requires
        wf_numeral(x),
        r.len() == 0 || (!is_digit(r[0]) && !(r[0] == '.' && r.len() > 1 && is_digit(r[1]))),
    ensures
        numeral_len(x + r) == x.len(),
        spec_lex(x + r) == (match spec_lex(r) {
            Some(ts) => Some(seq![SpecToken::Number(x)] + ts),
            None => None::<Seq<SpecToken>>,
        }),
{
    let u = x + r;
    let sign: int = if x[0] == '-' {
        1int
    } else {
        0int
    };
    assert(u[0] == x[0]);
    if x[0] == '-' {
        assert(u[1] == x[1]);
    }
    assert(starts_number(u));
    assert(u.skip(sign) =~= x.skip(sign) + r);
    lemma_digits_len_concat(x.skip(sign), r);
    let d = digits_len(x.skip(sign)) as int;
    lemma_digits_len_le(x.skip(sign));
    if r.len() > 0 {
        assert(digits_len(r) == 0);
    }
    let j = sign + d;
    if j < x.len() && x[j] == '.' && digits_len(x.skip(j + 1)) > 0 {
        assert(d < x.skip(sign).len());
        assert(digits_len(u.skip(sign)) == d);
        assert(u[j] == x[j]);
        assert(numeral_len(x) == j + 1 + digits_len(x.skip(j + 1)));
        assert(digits_len(x.skip(j + 1)) == x.len() - j - 1);
        assert(digits_len(x.skip(j + 1)) == x.skip(j + 1).len());
        assert(u.skip(j + 1) =~= x.skip(j + 1) + r);
        lemma_digits_len_concat(x.skip(j + 1), r);
        assert(digits_len(u.skip(j + 1)) == x.len() - j - 1 + digits_len(r));
        assert(numeral_len(u) == x.len());
    } else {
        assert(numeral_len(x) == j);
        assert(j == x.len());
        assert(d == x.skip(sign).len());
        assert(digits_len(u.skip(sign)) == x.skip(sign).len() + digits_len(r));
        if j < u.len() {
            assert(u[j] == r[0]);
            if u[j] == '.' {
                assert(u.skip(j + 1) =~= r.skip(1));
                if r.len() > 1 {
                    assert(r.skip(1)[0] == r[1]);
                }
                assert(digits_len(r.skip(1)) == 0);
            }
        }
        assert(numeral_len(u) == x.len());
    }
    assert(!is_space(u[0]));
    assert(u.take(x.len() as int) =~= x);
    assert(u.skip(x.len() as int) =~= r);
}

proof fn lemma_lex_op_step(c: char, r: Seq<char>)
    requires
        is_op_char(c),
        c == '-' ==> r.len() == 0 || !is_digit(r[0]),
    ensures
        spec_lex(seq![c] + r) == (match spec_lex(r) {
            Some(ts) => Some(seq![op_token(c)] + ts),
            None => None::<Seq<SpecToken>>,
        }),
{
    let u = seq![c] + r;
    assert(u[0] == c);
    assert(!is_space(c));
    assert(!is_digit(c));
    if c == '-' && u.len() > 1 {
        assert(u[1] == r[0]);
    }
    assert(!starts_number(u));
    assert(u.skip(1) =~= r);
}

/// A token list written out in infix order, with whitespace of the writer's
/// choice around every token: `gaps[i]` comes before the `i`-th token, and
/// the last gap ends the text.
pub open spec fn join_spaced(ts: Seq<SpecToken>, gaps: Seq<Seq<char>>) -> Seq<char>
    decreases ts.len(),
{
    if gaps.len() == 0 {
        Seq::empty()
    } else if ts.len() == 0 {
        gaps[0]
    } else {
        gaps[0] + token_lexeme(ts[0]) + join_spaced(ts.skip(1), gaps.skip(1))
    }
}

/// Whitespace between tokens never affects what is lexed: however the gaps
/// are written — any whitespace characters, in any number, with at least one
/// between two neighbouring tokens — the text lexes back to exactly the
/// tokens it was written from.
pub proof fn lemma_whitespace_immaterial(ts: Seq<SpecToken>, gaps: Seq<Seq<char>>)
    requires
        gaps.len() == ts.len() + 1,
        forall|i: int| 0 <= i < gaps.len() ==> all_space(#[trigger] gaps[i]),
        forall|i: int| 1 <= i < ts.len() ==> (#[trigger] gaps[i]).len() > 0,
        wf_tokens(ts),
    ensures
        spec_lex(join_spaced(ts, gaps)) == Some(ts),
    decreases ts.len(),
{
    if ts.len() == 0 {
        lemma_lex_blank(gaps[0]);
        assert(join_spaced(ts, gaps) == gaps[0]);
    } else {
        let rest = ts.skip(1);
        let grest = gaps.skip(1);
        assert forall|i: int| 0 <= i < grest.len() implies all_space(#[trigger] grest[i]) by {
            assert(grest[i] == gaps[i + 1]);
        }
        assert forall|i: int| 1 <= i < rest.len() implies (#[trigger] grest[i]).len() > 0 by {
            assert(grest[i] == gaps[i + 1]);
        }
        assert forall|i: int|
            0 <= i < rest.len() implies ((#[trigger] rest[i]) matches SpecToken::Number(n)
            ==> wf_numeral(n)) by {
            assert(rest[i] == ts[i + 1]);
        }
        lemma_whitespace_immaterial(rest, grest);
        let tail = join_spaced(rest, grest);
        assert(tail.len() == 0 || is_space(tail[0])) by {
            if rest.len() == 0 {
                assert(tail == grest[0]);
                if tail.len() > 0 {
                    assert(is_space(tail[0]));
                }
            } else {
                assert(grest[0] == gaps[1]);
                assert(gaps[1].len() > 0);
                assert(tail == grest[0] + token_lexeme(rest[0]) + join_spaced(
                    rest.skip(1),
                    grest.skip(1),
                ));
                assert(tail[0] == grest[0][0]);
                assert(is_space(tail[0]));
            }
        }
        assert(join_spaced(ts, gaps) =~= gaps[0] + (token_lexeme(ts[0]) + tail));
        lemma_lex_space_prefix(gaps[0], token_lexeme(ts[0]) + tail);
        match ts[0] {
            SpecToken::Number(n) => {
                assert(wf_numeral(n));
                lemma_lex_numeral_step(n, tail);
                assert(seq![ts[0]] + rest =~= ts);
            },
            t => {
                let c = token_lexeme(t)[0];
                assert(token_lexeme(t) =~= seq![c]);
                lemma_lex_op_step(c, tail);
                assert(op_token(c) == t);
                assert(seq![ts[0]] + rest =~= ts);
            },
        }
    }
}

/// The converter's whole result — error or postfix sequence — is the same
/// however the whitespace around the tokens is chosen.
pub proof fn lemma_whitespace_never_affects_result(
    ts: Seq<SpecToken>,
    gaps1: Seq<Seq<char>>,
    gaps2: Seq<Seq<char>>,
)
    requires
        ts.len() > 0,
        gaps1.len() == ts.len() + 1,
        gaps2.len() == ts.len() + 1,
        forall|i: int| 0 <= i < gaps1.len() ==> all_space(#[trigger] gaps1[i]),
        forall|i: int| 0 <= i < gaps2.len() ==> all_space(#[trigger] gaps2[i]),
        forall|i: int| 1 <= i < ts.len() ==> (#[trigger] gaps1[i]).len() > 0,
        forall|i: int| 1 <= i < ts.len() ==> (#[trigger] gaps2[i]).len() > 0,
        wf_tokens(ts),
    ensures
        convert_model(join_spaced(ts, gaps1)) == convert_model(join_spaced(ts, gaps2)),
{
    lemma_whitespace_immaterial(ts, gaps1);
    lemma_whitespace_immaterial(ts, gaps2);
    if spec_blank(join_spaced(ts, gaps1)) {
        lemma_lex_blank(join_spaced(ts, gaps1));
    }
    if spec_blank(join_spaced(ts, gaps2)) {
        lemma_lex_blank(join_spaced(ts, gaps2));
    }
}

/// The canonical text with the structural brackets turned into spaces.
pub open spec fn blank_brackets(s: Seq<char>) -> Seq<char> {
    Seq::new(
        s.len(),
        |i: int|
            if s[i] == '[' || s[i] == ']' {
                ' '
            } else {
                s[i]
            },
    )
}

proof fn lemma_digits_are_digits(s: Seq<char>)
    ensures
        forall|i: int| 0 <= i < digits_len(s) ==> is_digit(#[trigger] s[i]),
    decreases s.len(),
{
    lemma_digits_len_le(s);
    if s.len() > 0 && is_digit(s[0]) {
        lemma_digits_are_digits(s.skip(1));
        lemma_digits_len_le(s.skip(1));
        assert forall|i: int| 0 <= i < digits_len(s) implies is_digit(#[trigger] s[i]) by {
            if i > 0 {
                assert(s[i] == s.skip(1)[i - 1]);
            }
        }
    }
}

proof fn lemma_numeral_chars(n: Seq<char>)
    requires
        wf_numeral(n),
    ensures
        forall|i: int| 0 <= i < n.len() ==> is_digit(#[trigger] n[i]) || n[i] == '-' || n[i] == '.',
{
    let sign: int = if n[0] == '-' {
        1int
    } else {
        0int
    };
    let d = digits_len(n.skip(sign)) as int;
    let j = sign + d;
    lemma_digits_are_digits(n.skip(sign));
    lemma_digits_len_le(n.skip(sign));
    if j < n.len() && n[j] == '.' && digits_len(n.skip(j + 1)) > 0 {
        lemma_digits_are_digits(n.skip(j + 1));
        lemma_digits_len_le(n.skip(j + 1));
        assert(numeral_len(n) == j + 1 + digits_len(n.skip(j + 1)));
        assert forall|i: int|
            0 <= i < n.len() implies is_digit(#[trigger] n[i]) || n[i] == '-' || n[i]
            == '.' by {
            if sign <= i < j {
                assert(n[i] == n.skip(sign)[i - sign]);
            } else if j + 1 <= i {
                assert(n[i] == n.skip(j + 1)[i - j - 1]);
            }
        }
    } else {
        assert(numeral_len(n) == j);
        assert forall|i: int|
            0 <= i < n.len() implies is_digit(#[trigger] n[i]) || n[i] == '-' || n[i]
            == '.' by {
            if sign <= i {
                assert(n[i] == n.skip(sign)[i - sign]);
            }
        }
    }
}

/// Rendering, then reading the text back — with the structural brackets
/// ignored — reproduces exactly the operator and operand ordering that was
/// rendered.
pub proof fn lemma_render_relex(ts: Seq<SpecToken>)
    requires
        wf_tokens(ts),
    ensures
        spec_lex(blank_brackets(spec_render(ts))) == Some(ts),
    decreases ts.len(),
{
    if ts.len() == 0 {
        assert(blank_brackets(spec_render(ts)) =~= Seq::<char>::empty());
        assert(spec_lex(Seq::<char>::empty()) == Some(Seq::<SpecToken>::empty()));
        assert(ts =~= Seq::<SpecToken>::empty());
    } else {
        let rest = ts.skip(1);
        assert forall|i: int|
            0 <= i < rest.len() implies ((#[trigger] rest[i]) matches SpecToken::Number(n)
            ==> wf_numeral(n)) by {
            assert(rest[i] == ts[i + 1]);
        }
        lemma_render_relex(rest);
        let tail = blank_brackets(spec_render(rest));
        assert(tail.len() == 0 || (!is_digit(tail[0]) && tail[0] != '.')) by {
            if rest.len() > 0 {
                assert(spec_render(rest) == spec_token_text(rest[0]) + spec_render(
                    rest.skip(1),
                ));
                assert(spec_token_text(rest[0]).len() > 0) by {
                    match rest[0] {
                        SpecToken::Number(m) => {},
                        _ => {},
                    }
                }
                assert(spec_render(rest)[0] == spec_token_text(rest[0])[0]);
                assert(tail[0] == (if spec_render(rest)[0] == '[' || spec_render(rest)[0]
                    == ']' {
                    ' '
                } else {
                    spec_render(rest)[0]
                }));
                match rest[0] {
                    SpecToken::Number(m) => {
                        assert(spec_token_text(rest[0])[0] == '[');
                    },
                    _ => {},
                }
            }
        }
        match ts[0] {
            SpecToken::Number(n) => {
                assert(wf_numeral(n));
                lemma_numeral_chars(n);
                assert(blank_brackets(spec_render(ts)) =~= seq![' '] + (n + (seq![' ']
                    + tail))) by {
                    assert(spec_render(ts) == spec_token_text(ts[0]) + spec_render(rest));
                    assert(spec_token_text(ts[0]) == seq!['['] + n + seq![']']);
                }
                assert(all_space(seq![' ']));
                lemma_lex_space_prefix(seq![' '], n + (seq![' '] + tail));
                assert((seq![' '] + tail)[0] == ' ');
                lemma_lex_numeral_step(n, seq![' '] + tail);
                lemma_lex_space_prefix(seq![' '], tail);
                assert(seq![SpecToken::Number(n)] + rest =~= ts);
            },
            t => {
                let c = token_lexeme(t)[0];
                assert(token_lexeme(t) =~= seq![c]);
                assert(spec_token_text(ts[0]) == seq![c]);
                assert(c != '[' && c != ']');
                assert(blank_brackets(spec_render(ts)) =~= seq![c] + tail) by {
                    assert(spec_render(ts) == spec_token_text(ts[0]) + spec_render(rest));
                }
                lemma_lex_op_step(c, tail);
                assert(op_token(c) == t);
                assert(seq![ts[0]] + rest =~= ts);
            },
        }
    }
}

proof fn lemma_take_numeral_wf(s: Seq<char>)
    requires
        starts_number(s),
    ensures
        wf_numeral(s.take(numeral_len(s) as int)),
{
    lemma_numeral_len_bounds(s);
    let nl = numeral_len(s) as int;
    let x = s.take(nl);
    let r = s.skip(nl);
    assert(s =~= x + r);
    let sign: int = if s[0] == '-' {
        1int
    } else {
        0int
    };
    assert(x[0] == s[0]);
    let du = digits_len(s.skip(sign)) as int;
    let j = sign + du;
    lemma_digits_len_le(s.skip(sign));
    if sign == 1 {
        assert(s.skip(1)[0] == s[1]);
        assert(digits_len(s.skip(1)) >= 1);
        assert(x[1] == s[1]);
    }
    assert(starts_number(x));
    assert(x.skip(sign) + r =~= s.skip(sign));
    lemma_digits_len_concat(x.skip(sign), r);
    let dx = digits_len(x.skip(sign)) as int;
    lemma_digits_len_le(x.skip(sign));
    if j < s.len() && s[j] == '.' && digits_len(s.skip(j + 1)) > 0 {
        let f = digits_len(s.skip(j + 1)) as int;
        assert(nl == j + 1 + f);
        if dx < x.skip(sign).len() {
            assert(du == dx);
        } else {
            assert(du == x.skip(sign).len() + digits_len(r));
            assert(false);
        }
        assert(x[j] == s[j]);
        assert(x.skip(j + 1) + r =~= s.skip(j + 1));
        lemma_digits_len_concat(x.skip(j + 1), r);
        let fx = digits_len(x.skip(j + 1)) as int;
        lemma_digits_len_le(x.skip(j + 1));
        if fx < x.skip(j + 1).len() {
            assert(f == fx);
            assert(false);
        } else {
            assert(fx == f);
        }
        assert(numeral_len(x) == j + 1 + fx);
        assert(numeral_len(x) == x.len());
    } else {
        assert(nl == j);
        if dx < du {
            assert(du == dx);
            assert(false);
        } else {
            assert(dx == du);
        }
        assert(numeral_len(x) == x.len());
    }
}

/// Whatever the lexer accepts holds only well-formed numerals.
pub proof fn lemma_lex_wf(s: Seq<char>)
    ensures
        spec_lex(s) matches Some(ts) ==> wf_tokens(ts),
    decreases s.len(),
{
    if s.len() == 0 {
    } else if is_space(s[0]) {
        lemma_lex_wf(s.skip(1));
    } else if starts_number(s) {
        let nl = numeral_len(s) as int;
        lemma_numeral_len_bounds(s);
        lemma_lex_wf(s.skip(nl));
        lemma_take_numeral_wf(s);
        match spec_lex(s.skip(nl)) {
            Some(rest) => {
                let out = seq![SpecToken::Number(s.take(nl))] + rest;
                assert forall|i: int|
                    0 <= i < out.len() implies ((#[trigger] out[i]) matches SpecToken::Number(n)
                    ==> wf_numeral(n)) by {
                    if i == 0 {
                        assert(out[0] == SpecToken::Number(s.take(nl)));
                    } else {
                        assert(out[i] == rest[i - 1]);
                    }
                }
            },
            None => {},
        }
    } else if is_op_char(s[0]) {
        lemma_lex_wf(s.skip(1));
        match spec_lex(s.skip(1)) {
            Some(rest) => {
                let out = seq![op_token(s[0])] + rest;
                assert forall|i: int|
                    0 <= i < out.len() implies ((#[trigger] out[i]) matches SpecToken::Number(n)
                    ==> wf_numeral(n)) by {
                    if i == 0 {
                        assert(out[0] == op_token(s[0]));
                    } else {
                        assert(out[i] == rest[i - 1]);
                    }
                }
            },
            None => {},
        }
    }
}

spec fn no_number(ts: Seq<SpecToken>) -> bool {
    forall|i: int| 0 <= i < ts.len() ==> !((#[trigger] ts[i]) is Number)
}

proof fn lemma_pop_to_open_no_number(stack: Seq<SpecToken>)
    requires
        no_number(stack),
    ensures
        pop_to_open(stack) matches Some(r) ==> no_number(r.0) && no_number(r.1),
    decreases stack.len(),
{
    if stack.len() == 0 {
    } else if stack.last() is OpenParen {
        assert(forall|i: int|
            0 <= i < stack.drop_last().len() ==> stack.drop_last()[i] == stack[i]);
    } else {
        assert(forall|i: int|
            0 <= i < stack.drop_last().len() ==> stack.drop_last()[i] == stack[i]);
        lemma_pop_to_open_no_number(stack.drop_last());
        match pop_to_open(stack.drop_last()) {
            Some(r) => {
                let em = seq![stack.last()] + r.0;
                assert forall|i: int|
                    0 <= i < em.len() implies !((#[trigger] em[i]) is Number) by {
                    if i == 0 {
                        assert(em[0] == stack.last());
                    } else {
                        assert(em[i] == r.0[i - 1]);
                    }
                }
            },
            None => {},
        }
    }
}

proof fn lemma_pop_ge_no_number(stack: Seq<SpecToken>, p: int)
    requires
        no_number(stack),
    ensures
        no_number(pop_ge(stack, p).0),
        no_number(pop_ge(stack, p).1),
    decreases stack.len(),
{
    if stack.len() > 0 && spec_prio(stack.last()) >= p {
        assert(forall|i: int|
            0 <= i < stack.drop_last().len() ==> stack.drop_last()[i] == stack[i]);
        lemma_pop_ge_no_number(stack.drop_last(), p);
        let r = pop_ge(stack.drop_last(), p);
        let em = seq![stack.last()] + r.0;
        assert forall|i: int| 0 <= i < em.len() implies !((#[trigger] em[i]) is Number) by {
            if i == 0 {
                assert(em[0] == stack.last());
            } else {
                assert(em[i] == r.0[i - 1]);
            }
        }
    }
}

proof fn lemma_wf_concat(a: Seq<SpecToken>, b: Seq<SpecToken>)
    requires
        wf_tokens(a),
        wf_tokens(b),
    ensures
        wf_tokens(a + b),
{
    assert forall|i: int|
        0 <= i < (a + b).len() implies ((#[trigger] (a + b)[i]) matches SpecToken::Number(n)
        ==> wf_numeral(n)) by {
        if i < a.len() {
            assert((a + b)[i] == a[i]);
        } else {
            assert((a + b)[i] == b[i - a.len()]);
        }
    }
}

proof fn lemma_sy_wf(ts: Seq<SpecToken>, stack: Seq<SpecToken>, last_num: bool)
    requires
        wf_tokens(ts),
        no_number(stack),
    ensures
        sy(ts, stack, last_num) matches Some(out) ==> wf_tokens(out),
    decreases ts.len(),
{
    if ts.len() == 0 {
        let out = stack.reverse();
        assert forall|i: int|
            0 <= i < out.len() implies ((#[trigger] out[i]) matches SpecToken::Number(n)
            ==> wf_numeral(n)) by {
            assert(out[i] == stack[stack.len() - 1 - i]);
        }
    } else {
        let t = ts[0];
        let rest = ts.skip(1);
        assert forall|i: int|
            0 <= i < rest.len() implies ((#[trigger] rest[i]) matches SpecToken::Number(n)
            ==> wf_numeral(n)) by {
            assert(rest[i] == ts[i + 1]);
        }
        match t {
            SpecToken::Number(_) => {
                lemma_sy_wf(rest, stack, true);
                match sy(rest, stack, true) {
                    Some(out) => {
                        assert(wf_tokens(seq![t])) by {
                            assert(seq![t][0] == ts[0]);
                        }
                        lemma_wf_concat(seq![t], out);
                    },
                    None => {},
                }
            },
            SpecToken::OpenParen => {
                let st = if last_num {
                    stack.push(SpecToken::Mul)
                } else {
                    stack
                };
                let st2 = st.push(SpecToken::OpenParen);
                assert(no_number(st2)) by {
                    assert forall|i: int|
                        0 <= i < st2.len() implies !((#[trigger] st2[i]) is Number) by {
                        if i < stack.len() {
                            assert(st2[i] == stack[i]);
                        }
                    }
                }
                lemma_sy_wf(rest, st2, false);
            },
            SpecToken::CloseParen => {
                lemma_pop_to_open_no_number(stack);
                match pop_to_open(stack) {
                    Some(r) => {
                        lemma_sy_wf(rest, r.1, false);
                        match sy(rest, r.1, false) {
                            Some(out) => {
                                assert(wf_tokens(r.0));
                                lemma_wf_concat(r.0, out);
                            },
                            None => {},
                        }
                    },
                    None => {},
                }
            },
            _ => {
                lemma_pop_ge_no_number(stack, spec_prio(t));
                let r = pop_ge(stack, spec_prio(t));
                let st2 = r.1.push(t);
                assert(no_number(st2)) by {
                    assert forall|i: int|
                        0 <= i < st2.len() implies !((#[trigger] st2[i]) is Number) by {
                        if i < r.1.len() {
                            assert(st2[i] == r.1[i]);
                        }
                    }
                }
                lemma_sy_wf(rest, st2, false);
                match sy(rest, st2, false) {
                    Some(out) => {
                        assert(wf_tokens(r.0));
                        lemma_wf_concat(r.0, out);
                    },
                    None => {},
                }
            },
        }
    }
}

/// The token a binary operation is written with.
pub open spec fn token_of_op(op: BinOp) -> SpecToken {
    match op {
        BinOp::Add => SpecToken::Add,
        BinOp::Sub => SpecToken::Sub,
        BinOp::Mul => SpecToken::Mul,
        BinOp::Div => SpecToken::Div,
        BinOp::Exp => SpecToken::Exp,
    }
}

/// The fully parenthesized infix spelling of an expression tree: every
/// binary operation wrapped in its own pair of parentheses.
pub open spec fn fp_tokens(e: SpecExpr) -> Seq<SpecToken>
    decreases e,
{
    match e {
        SpecExpr::Num(n) => seq![SpecToken::Number(n)],
        SpecExpr::Bin(op, l, r) => seq![SpecToken::OpenParen] + fp_tokens(*l) + seq![
            token_of_op(op),
        ] + fp_tokens(*r) + seq![SpecToken::CloseParen],
    }
}

/// The postfix spelling of the same tree.
pub open spec fn postfix_of(e: SpecExpr) -> Seq<SpecToken>
    decreases e,
{
    match e {
        SpecExpr::Num(n) => seq![SpecToken::Number(n)],
        SpecExpr::Bin(op, l, r) => postfix_of(*l) + postfix_of(*r) + seq![token_of_op(op)],
    }
}

spec fn fp_last_num(e: SpecExpr) -> bool {
    e is Num
}

proof fn lemma_sy_ln(ts: Seq<SpecToken>, stack: Seq<SpecToken>, a: bool, b: bool)
    requires
        ts.len() == 0 || !(ts[0] is OpenParen),
    ensures
        sy(ts, stack, a) == sy(ts, stack, b),
{
}

#[verifier::rlimit(100)]
proof fn lemma_sy_fp(e: SpecExpr, rest: Seq<SpecToken>, stack: Seq<SpecToken>)
    requires
        rest.len() > 0 ==> !(rest[0] is OpenParen),
    ensures
        sy(fp_tokens(e) + rest, stack, false) == (match sy(rest, stack, fp_last_num(e)) {
            Some(o) => Some(postfix_of(e) + o),
            None => None::<Seq<SpecToken>>,
        }),
    decreases e,
{
    match e {
        SpecExpr::Num(n) => {
            let u = fp_tokens(e) + rest;
            assert(u[0] == SpecToken::Number(n));
            assert(u.skip(1) =~= rest);
            match sy(rest, stack, true) {
                Some(o) => {
                    assert(seq![SpecToken::Number(n)] + o =~= postfix_of(e) + o);
                },
                None => {},
            }
        },
        SpecExpr::Bin(op, l, r) => {
            let u = fp_tokens(e) + rest;
            let rest1 = seq![token_of_op(op)] + fp_tokens(*r) + seq![SpecToken::CloseParen]
                + rest;
            let rest3 = seq![SpecToken::CloseParen] + rest;
            assert(u[0] == SpecToken::OpenParen);
            assert(u.skip(1) =~= fp_tokens(*l) + rest1);
            let st1 = stack.push(SpecToken::OpenParen);
            assert(sy(u, stack, false) == sy(fp_tokens(*l) + rest1, st1, false));
            assert(rest1[0] == token_of_op(op));
            lemma_sy_fp(*l, rest1, st1);
            // the operator pops nothing past the open parenthesis
            assert(spec_prio(st1.last()) == 0);
            assert(spec_prio(rest1[0]) >= 1);
            assert(pop_ge(st1, spec_prio(rest1[0])) == (Seq::<SpecToken>::empty(), st1));
            let st2 = st1.push(token_of_op(op));
            assert(rest1.skip(1) =~= fp_tokens(*r) + rest3);
            lemma_sy_ln(rest1, st1, fp_last_num(*l), false);
            assert(sy(rest1, st1, false) == (match sy(fp_tokens(*r) + rest3, st2, false) {
                Some(o) => Some(Seq::<SpecToken>::empty() + o),
                None => None::<Seq<SpecToken>>,
            }));
            assert(rest3[0] == SpecToken::CloseParen);
            lemma_sy_fp(*r, rest3, st2);
            // the closing parenthesis pops the operator and the parenthesis
            assert(pop_to_open(st2) == Some((seq![token_of_op(op)], stack))) by {
                assert(st2.last() == token_of_op(op));
                assert(!(st2.last() is OpenParen));
                assert(st2.drop_last() =~= st1);
                assert(st1.last() == SpecToken::OpenParen);
                assert(st1.drop_last() =~= stack);
                assert(seq![st2.last()] + Seq::<SpecToken>::empty() =~= seq![token_of_op(op)]);
            }
            assert(rest3.skip(1) =~= rest);
            lemma_sy_ln(rest3, st2, fp_last_num(*r), false);
            assert(sy(rest3, st2, false) == (match sy(rest, stack, false) {
                Some(o) => Some(seq![token_of_op(op)] + o),
                None => None::<Seq<SpecToken>>,
            }));
            match sy(rest, stack, false) {
                Some(o) => {
                    assert(postfix_of(*l) + (Seq::<SpecToken>::empty() + (postfix_of(*r) + (seq![
                        token_of_op(op),
                    ] + o))) =~= postfix_of(e) + o);
                },
                None => {},
            }
        },
    }
}

/// The postfix spelling of a tree is self-contained under evaluation: walked
/// in any context, it consumes no operand already on the stack — every
/// operator in it takes exactly the two operands the tree gave it — and
/// leaves exactly one new value, the tree itself.
pub proof fn lemma_eval_fp(e: SpecExpr, rest: Seq<SpecToken>, stack: Seq<SpecExpr>)
    ensures
        eval_seq(postfix_of(e) + rest, stack) == eval_seq(rest, stack.push(e)),
    decreases e,
{
    match e {
        SpecExpr::Num(n) => {
            let u = postfix_of(e) + rest;
            assert(u[0] == SpecToken::Number(n));
            assert(u.skip(1) =~= rest);
            assert(SpecExpr::Num(n) == e);
        },
        SpecExpr::Bin(op, l, r) => {
            assert(postfix_of(e) + rest =~= postfix_of(*l) + (postfix_of(*r) + (seq![
                token_of_op(op),
            ] + rest)));
            lemma_eval_fp(*l, postfix_of(*r) + (seq![token_of_op(op)] + rest), stack);
            lemma_eval_fp(*r, seq![token_of_op(op)] + rest, stack.push(*l));
            let st2 = stack.push(*l).push(*r);
            let u = seq![token_of_op(op)] + rest;
            assert(u[0] == token_of_op(op));
            assert(u.skip(1) =~= rest);
            assert(st2.len() >= 2);
            assert(st2[st2.len() - 1] == *r);
            assert(st2[st2.len() - 2] == *l);
            assert(st2.take(st2.len() - 2) =~= stack);
            assert(op_of(token_of_op(op)) == Some(op));
            assert(SpecExpr::Bin(op, Box::new(*l), Box::new(*r)) == e);
        },
    }
}

proof fn lemma_postfix_of_paren_free(e: SpecExpr)
    ensures
        paren_free(postfix_of(e)),
    decreases e,
{
    match e {
        SpecExpr::Num(n) => {
            assert(postfix_of(e)[0] == SpecToken::Number(n));
        },
        SpecExpr::Bin(op, l, r) => {
            lemma_postfix_of_paren_free(*l);
            lemma_postfix_of_paren_free(*r);
            lemma_paren_free_concat(postfix_of(*l), postfix_of(*r));
            assert(paren_free(seq![token_of_op(op)])) by {
                assert(seq![token_of_op(op)][0] == token_of_op(op));
            }
            lemma_paren_free_concat(postfix_of(*l) + postfix_of(*r), seq![token_of_op(op)]);
            assert(postfix_of(*l) + postfix_of(*r) + seq![token_of_op(op)] =~= (postfix_of(*l)
                + postfix_of(*r)) + seq![token_of_op(op)]);
        },
    }
}

/// A valid fully-parenthesized expression converts to the postfix spelling
/// of its own tree, with every parenthesis removed, and evaluating that
/// postfix sequence gives back exactly the tree that was written — the value
/// the expression was meant to have.
pub proof fn lemma_fully_parenthesized_round_trip(e: SpecExpr)
    ensures
        sy_model(fp_tokens(e)) == Some(postfix_of(e)),
        paren_free(postfix_of(e)),
        eval_model(postfix_of(e)) == Some(e),
{
    assert(fp_tokens(e) + Seq::<SpecToken>::empty() =~= fp_tokens(e));
    lemma_sy_fp(e, Seq::empty(), Seq::empty());
    assert(sy(Seq::<SpecToken>::empty(), Seq::<SpecToken>::empty(), fp_last_num(e)) == Some(
        Seq::<SpecToken>::empty().reverse(),
    ));
    assert(Seq::<SpecToken>::empty().reverse() =~= Seq::<SpecToken>::empty());
    assert(postfix_of(e) + Seq::<SpecToken>::empty() =~= postfix_of(e));
    lemma_postfix_of_paren_free(e);
    lemma_eval_fp(e, Seq::empty(), Seq::empty());
    assert(eval_seq(Seq::<SpecToken>::empty(), seq![e]) == Some(e)) by {
        assert(seq![e].last() == e);
    }
}

/// Every postfix sequence the converter hands out holds only well-formed
/// numerals, so the render/re-lex law applies to it.
pub proof fn lemma_convert_wf(s: Seq<char>)
    ensures
        convert_model(s) matches Ok(out) ==> wf_tokens(out),
{
    if !spec_blank(s) {
        match spec_lex(s) {
            Some(ts) => {
                lemma_lex_wf(s);
                lemma_sy_wf(ts, Seq::empty(), false);
            },
            None => {},
        }
    }
}

/// Rendering any postfix sequence the converter produced, then reading the
/// text back with the brackets ignored, reproduces that very sequence.
pub proof fn lemma_convert_render_relex(s: Seq<char>)
    ensures
        convert_model(s) matches Ok(out) ==> spec_lex(blank_brackets(spec_render(out)))
            == Some(out),
{
    lemma_convert_wf(s);
    match convert_model(s) {
        Ok(out) => {
            lemma_render_relex(out);
        },
        Err(_) => {},
    }
}

} // verus!
