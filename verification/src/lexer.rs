//! Lexical scanning of an infix expression.
//!
//! The grammar is scanned left to right. At every non-whitespace position a
//! token must begin: either a numeral — an optional minus sign that directly
//! precedes digits, the digits, and an optional fraction (a dot directly
//! followed by more digits) — or one of the single characters `+ - * / ^ ( )`.
//! A `-` is taken as the sign of a numeral exactly when a digit follows it
//! immediately; otherwise it is the subtraction operator. Anything else is a
//! lexical error.

use vstd::prelude::*;

use crate::token::PostfixError;
use crate::token::SpecToken;
use crate::token::Token;

verus! {

/// The whitespace characters that may separate tokens: the Unicode
/// White_Space set, the same characters `char::is_whitespace` accepts.
pub open spec fn is_space(c: char) -> bool {
    c == ' ' || c == '\t' || c == '\n' || c == '\u{b}' || c == '\u{c}' || c == '\r' || c
        == '\u{85}' || c == '\u{a0}' || c == '\u{1680}' || c == '\u{2000}' || c == '\u{2001}'
        || c == '\u{2002}' || c == '\u{2003}' || c == '\u{2004}' || c == '\u{2005}' || c
        == '\u{2006}' || c == '\u{2007}' || c == '\u{2008}' || c == '\u{2009}' || c
        == '\u{200a}' || c == '\u{2028}' || c == '\u{2029}' || c == '\u{202f}' || c
        == '\u{205f}' || c == '\u{3000}'
}

/// The ten decimal digits.
pub open spec fn is_digit(c: char) -> bool {
    '0' <= c && c <= '9'
}

/// The characters that form one-character tokens.
pub open spec fn is_op_char(c: char) -> bool {
    c == '+' || c == '-' || c == '*' || c == '/' || c == '^' || c == '(' || c == ')'
}

/// The token spelled by a one-character lexeme.
pub open spec fn op_token(c: char) -> SpecToken {
    if c == '+' {
        SpecToken::Add
    } else if c == '-' {
        SpecToken::Sub
    } else if c == '*' {
        SpecToken::Mul
    } else if c == '/' {
        SpecToken::Div
    } else if c == '^' {
        SpecToken::Exp
    } else if c == '(' {
        SpecToken::OpenParen
    } else {
        SpecToken::CloseParen
    }
}

/// How many digits stand at the front of `s`.
pub open spec fn digits_len(s: Seq<char>) -> nat
    decreases s.len(),
{
    if s.len() > 0 && is_digit(s[0]) {
        (1 + digits_len(s.skip(1))) as nat
    } else {
        0
    }
}

/// True when a numeral begins at the front of `s`: a digit, or a minus sign
/// immediately followed by a digit.
pub open spec fn starts_number(s: Seq<char>) -> bool {
    s.len() > 0 && (is_digit(s[0]) || (s[0] == '-' && s.len() > 1 && is_digit(s[1])))
}

/// The length of the numeral at the front of `s` (meaningful when
/// `starts_number(s)` holds): the optional sign, the integer digits, and a
/// fraction when a dot directly followed by a digit comes next.
pub open spec fn numeral_len(s: Seq<char>) -> nat {
    let sign: nat = if s.len() > 0 && s[0] == '-' {
        1
    } else {
        0
    };
    let j: nat = (sign + digits_len(s.skip(sign as int))) as nat;
    if j < s.len() && s[j as int] == '.' && digits_len(s.skip(j as int + 1)) > 0 {
        (j + 1 + digits_len(s.skip(j as int + 1))) as nat
    } else {
        j
    }
}

/// A well-formed numeral: it starts a number and nothing is left over after
/// the numeral itself.
pub open spec fn wf_numeral(n: Seq<char>) -> bool {
    starts_number(n) && numeral_len(n) == n.len()
}

pub proof fn lemma_digits_len_le(s: Seq<char>)
    ensures
        digits_len(s) <= s.len(),
    decreases s.len(),
{
    if s.len() > 0 && is_digit(s[0]) {
        lemma_digits_len_le(s.skip(1));
    }
}

pub proof fn lemma_numeral_len_bounds(s: Seq<char>)
    requires
        starts_number(s),
    ensures
        1 <= numeral_len(s) <= s.len(),
{
    let sign: nat = if s[0] == '-' {
        1
    } else {
        0
    };
    lemma_digits_len_le(s.skip(sign as int));
    let j: nat = (sign + digits_len(s.skip(sign as int))) as nat;
    if j < s.len() && s[j as int] == '.' && digits_len(s.skip(j as int + 1)) > 0 {
        lemma_digits_len_le(s.skip(j as int + 1));
    }
    if sign == 0 {
        assert(is_digit(s[0]));
        assert(digits_len(s) > 0);
    } else {
        assert(is_digit(s.skip(1)[0]));
        assert(digits_len(s.skip(1)) > 0);
    }
}

/// The token sequence of `s`, or `None` when some non-whitespace content is
/// not part of any token.
pub open spec fn spec_lex(s: Seq<char>) -> Option<Seq<SpecToken>>
    decreases s.len(),
    via spec_lex_decreases
{
    if s.len() == 0 {
        Some(Seq::empty())
    } else if is_space(s[0]) {
        spec_lex(s.skip(1))
    } else if starts_number(s) {
        let n = numeral_len(s);
        match spec_lex(s.skip(n as int)) {
            Some(rest) => Some(seq![SpecToken::Number(s.take(n as int))] + rest),
            None => None,
        }
    } else if is_op_char(s[0]) {
        match spec_lex(s.skip(1)) {
            Some(rest) => Some(seq![op_token(s[0])] + rest),
            None => None,
        }
    } else {
        None
    }
}

#[via_fn]
proof fn spec_lex_decreases(s: Seq<char>) {
    if s.len() > 0 && !is_space(s[0]) && starts_number(s) {
        lemma_numeral_len_bounds(s);
    }
}

/// When the first `k` characters of `s` are digits and the character after
/// them (if any) is not, the digit run has length exactly `k`.
pub proof fn lemma_digits_len_exact(s: Seq<char>, k: int)
    requires
        0 <= k <= s.len(),
        forall|j: int| 0 <= j < k ==> is_digit(#[trigger] s[j]),
        k == s.len() || !is_digit(s[k]),
    ensures
        digits_len(s) == k,
    decreases k,
{
    if k == 0 {
        if s.len() > 0 && is_digit(s[0]) {
            assert(false);
        }
    } else {
        assert(is_digit(s[0]));
        lemma_digits_len_exact(s.skip(1), k - 1);
    }
}

pub(crate) fn space_char(c: char) -> (b: bool)
    ensures
        b == is_space(c),
{
    c == ' ' || c == '\t' || c == '\n' || c == '\u{b}' || c == '\u{c}' || c == '\r' || c
        == '\u{85}' || c == '\u{a0}' || c == '\u{1680}' || c == '\u{2000}' || c == '\u{2001}'
        || c == '\u{2002}' || c == '\u{2003}' || c == '\u{2004}' || c == '\u{2005}' || c
        == '\u{2006}' || c == '\u{2007}' || c == '\u{2008}' || c == '\u{2009}' || c
        == '\u{200a}' || c == '\u{2028}' || c == '\u{2029}' || c == '\u{202f}' || c
        == '\u{205f}' || c == '\u{3000}'
}

fn digit_char(c: char) -> (b: bool)
    ensures
        b == is_digit(c),
{
    '0' <= c && c <= '9'
}

/// Finds where the numeral that begins at position `i` ends.
fn numeral_end(s: &str, i: usize, len: usize) -> (end: usize)
    requires
        len == s@.len(),
        i < len,
        starts_number(s@.skip(i as int)),
    ensures
        i < end <= len,
        numeral_len(s@.skip(i as int)) == end - i,
{
    let ghost suffix = s@.skip(i as int);
    let sign: usize = if s.get_char(i) == '-' {
        1
    } else {
        0
    };
    proof {
        assert(suffix[0] == s@[i as int]);
    }
    let mut j: usize = i + sign;
    while j < len && digit_char(s.get_char(j))
        invariant
            i + sign <= j <= len,
            len == s@.len(),
            forall|k: int| i + sign <= k < j ==> is_digit(#[trigger] s@[k]),
        decreases len - j,
    {
        j = j + 1;
    }
    proof {
        let run = s@.skip(i as int + sign as int);
        assert forall|k: int| 0 <= k < j - i - sign implies is_digit(#[trigger] run[k]) by {
            assert(run[k] == s@[k + i + sign]);
        }
        if j < len {
            assert(run[j - i - sign] == s@[j as int]);
        }
        lemma_digits_len_exact(run, j - i - sign);
        assert(suffix.skip(sign as int) =~= run);
    }
    let mut end: usize = j;
    if j < len && s.get_char(j) == '.' && j + 1 < len && digit_char(s.get_char(j + 1)) {
        let mut k: usize = j + 1;
        while k < len && digit_char(s.get_char(k))
            invariant
                j + 1 <= k <= len,
                len == s@.len(),
                forall|m: int| j + 1 <= m < k ==> is_digit(#[trigger] s@[m]),
            decreases len - k,
        {
            k = k + 1;
        }
        proof {
            let frac = s@.skip(j as int + 1);
            assert forall|m: int| 0 <= m < k - j - 1 implies is_digit(#[trigger] frac[m]) by {
                assert(frac[m] == s@[m + j + 1]);
            }
            if k < len {
                assert(frac[k - j - 1] == s@[k as int]);
            }
            lemma_digits_len_exact(frac, k - j - 1);
            assert(frac[0] == s@[j as int + 1]);
            assert(suffix[j - i] == s@[j as int]);
            assert(suffix.skip(j - i + 1) =~= frac);
        }
        end = k;
    } else {
        proof {
            if j < len {
                assert(suffix[j - i] == s@[j as int]);
                assert(suffix.skip(j - i + 1) =~= s@.skip(j as int + 1));
                if s@[j as int] == '.' {
                    let frac = s@.skip(j as int + 1);
                    if frac.len() > 0 {
                        assert(frac[0] == s@[j as int + 1]);
                    }
                    assert(digits_len(frac) == 0);
                }
            }
        }
    }
    proof {
        assert(numeral_len(suffix) == end - i);
    }
    end
}

/// Scans `s` into its tokens. Fails exactly when the text holds something
/// that is neither whitespace nor part of a token.
pub fn lex(s: &str) -> (r: Result<Vec<Token>, PostfixError>)
    ensures
        match r {
            Ok(ts) => spec_lex(s@) == Some(ts.deep_view()),
            Err(e) => e == PostfixError::ParseError && spec_lex(s@) is None,
        },
{
    let len = s.unicode_len();
    let mut toks: Vec<Token> = Vec::new();
    let mut i: usize = 0;
    proof {
        assert(s@.skip(0) =~= s@);
        assert(toks.deep_view() =~= Seq::<SpecToken>::empty());
        match spec_lex(s@) {
            Some(rest) => {
                assert(toks.deep_view() + rest =~= rest);
            },
            None => {},
        }
    }
    while i < len
        invariant
            i <= len,
            len == s@.len(),
            spec_lex(s@) == (match spec_lex(s@.skip(i as int)) {
                Some(rest) => Some(toks.deep_view() + rest),
                None => None::<Seq<SpecToken>>,
            }),
        decreases len - i,
    {
        let ghost suffix = s@.skip(i as int);
        let c = s.get_char(i);
        assert(suffix[0] == c);
        if space_char(c) {
            proof {
                assert(s@.skip(i as int).skip(1) =~= s@.skip(i as int + 1));
            }
            i = i + 1;
        } else {
            let number_here = if digit_char(c) {
                true
            } else if c == '-' && i + 1 < len {
                digit_char(s.get_char(i + 1))
            } else {
                false
            };
            proof {
                if i + 1 < len {
                    assert(suffix[1] == s@[i as int + 1]);
                }
                assert(number_here == starts_number(suffix));
            }
            if number_here {
                let end = numeral_end(s, i, len);
                let piece = s.substring_char(i, end);
                let text = piece.to_owned();
                proof {
                    assert(suffix.take(end - i) =~= s@.subrange(i as int, end as int));
                    assert(suffix.skip(end - i) =~= s@.skip(end as int));
                }
                let ghost old_dv = toks.deep_view();
                toks.push(Token::Number(text));
                proof {
                    assert(toks.deep_view() =~= old_dv.push(
                        SpecToken::Number(s@.subrange(i as int, end as int)),
                    ));
                    match spec_lex(s@.skip(end as int)) {
                        Some(rest) => {
                            assert(old_dv + (seq![
                                SpecToken::Number(suffix.take(end - i)),
                            ] + rest) =~= toks.deep_view() + rest);
                        },
                        None => {},
                    }
                }
                i = end;
            } else {
                let tok = match c {
                    '+' => Token::Add,
                    '-' => Token::Sub,
                    '*' => Token::Mul,
                    '/' => Token::Div,
                    '^' => Token::Exp,
                    '(' => Token::OpenParen,
                    ')' => Token::CloseParen,
                    _ => {
                        proof {
                            assert(!is_op_char(suffix[0]));
                            assert(spec_lex(suffix) is None);
                        }
                        return Err(PostfixError::ParseError);
                    },
                };
                proof {
                    assert(is_op_char(c));
                    assert(tok@ == op_token(c));
                    assert(suffix.skip(1) =~= s@.skip(i as int + 1));
                }
                let ghost old_dv = toks.deep_view();
                toks.push(tok);
                proof {
                    assert(toks.deep_view() =~= old_dv.push(op_token(c)));
                    match spec_lex(s@.skip(i as int + 1)) {
                        Some(rest) => {
                            assert(old_dv + (seq![op_token(c)] + rest) =~= toks.deep_view()
                                + rest);
                        },
                        None => {},
                    }
                }
                i = i + 1;
            }
        }
    }
    proof {
        assert(s@.skip(len as int) =~= Seq::<char>::empty());
        assert(spec_lex(s@.skip(len as int)) == Some(Seq::<SpecToken>::empty()));
        assert(toks.deep_view() + Seq::<SpecToken>::empty() =~= toks.deep_view());
    }
    Ok(toks)
}

} // verus!
