//! The tokenizer: characters to a flat sequence of tokens.
//!
//! Scanning runs left to right. Whitespace is skipped; each operator or
//! bracket character yields one token; a numeral begins at a digit and
//! greedily consumes digits and at most one decimal point; any other
//! character is an invalid token at its character index.

use vstd::prelude::*;
use vstd::string::*;
use crate::parser::ParseError;
use crate::value::{Value, spec_zero, spec_add, spec_mul};

verus! {

/// A lexical unit: an operator, a bracket delimiter, or a number.
#[derive(Clone, Copy, Debug, PartialEq, Eq, Structural)]
pub enum Token {
    Plus,
    Minus,
    Mul,
    Div,
    OBrkt,
    CBrkt,
    Number(Value),
}

/// Every number token holds a well-formed value.
pub open spec fn wf_toks(ts: Seq<Token>) -> bool {
    forall|k: int|
        0 <= k < ts.len() ==> (match #[trigger] ts[k] {
            Token::Number(v) => v.wf(),
            _ => true,
        })
}

pub open spec fn is_digit_char(c: char) -> bool {
    48 <= c as u32 && c as u32 <= 57
}

pub open spec fn digit_of(c: char) -> int {
    c as u32 - 48
}

pub open spec fn is_space_char(c: char) -> bool {
    c == ' ' || c == '\t' || c == '\n'
}

/// The token produced by a single non-numeral, non-whitespace character.
pub open spec fn single_token(c: char) -> Option<Token> {
    if c == '+' {
        Some(Token::Plus)
    } else if c == '-' {
        Some(Token::Minus)
    } else if c == '*' {
        Some(Token::Mul)
    } else if c == '/' {
        Some(Token::Div)
    } else if c == '(' {
        Some(Token::OBrkt)
    } else if c == ')' {
        Some(Token::CBrkt)
    } else {
        None
    }
}

/// First position at or after `i` that does not hold a digit.
pub open spec fn digits_end(s: Seq<char>, i: int) -> int
    decreases s.len() - i,
{
    if i < 0 || i >= s.len() {
        i
    } else if is_digit_char(s[i]) {
        digits_end(s, i + 1)
    } else {
        i
    }
}

pub proof fn lemma_digits_end(s: Seq<char>, i: int)
    requires
        0 <= i <= s.len(),
    ensures
        i <= digits_end(s, i) <= s.len(),
    decreases s.len() - i,
{
    if i < s.len() && is_digit_char(s[i]) {
        lemma_digits_end(s, i + 1);
    }
}

/// End of the numeral starting at `i`: its digits, then at most one decimal
/// point with the digits that follow it.
pub open spec fn numeral_end(s: Seq<char>, i: int) -> int {
    let j1 = digits_end(s, i);
    if j1 < s.len() && s[j1] == '.' {
        digits_end(s, j1 + 1)
    } else {
        j1
    }
}

/// Fractional digits are kept down to this scale; finer digits are dropped,
/// as a double-precision parse would round them away.
pub open spec fn scale_cap() -> int {
    1000000000000000000
}

/// Accumulate the integer digits `s[i..j]` onto `acc`, most significant
/// first: each digit multiplies the accumulator by ten and adds itself.
pub open spec fn int_fold(s: Seq<char>, i: int, j: int, acc: Value) -> Value
    decreases j - i,
{
    if i >= j {
        acc
    } else {
        int_fold(
            s,
            i + 1,
            j,
            spec_add(
                spec_mul(acc, Value::Finite { num: 10, den: 1 }),
                Value::Finite { num: digit_of(s[i]) as i64, den: 1 },
            ),
        )
    }
}

/// Accumulate the fractional digits `s[i..j]` onto `acc`; the digit at
/// `scale` contributes `digit / scale`, and digits past `scale_cap` are
/// dropped.
pub open spec fn frac_fold(s: Seq<char>, i: int, j: int, acc: Value, scale: int) -> Value
    decreases j - i,
{
    if i >= j {
        acc
    } else {
        let acc2 = if scale <= scale_cap() {
            spec_add(acc, Value::Finite { num: digit_of(s[i]) as i64, den: scale as i64 })
        } else {
            acc
        };
        frac_fold(s, i + 1, j, acc2, scale * 10)
    }
}

/// The value of the numeral starting at `i`.
pub open spec fn numeral_value(s: Seq<char>, i: int) -> Value {
    let j1 = digits_end(s, i);
    let v1 = int_fold(s, i, j1, spec_zero());
    if j1 < s.len() && s[j1] == '.' {
        frac_fold(s, j1 + 1, digits_end(s, j1 + 1), v1, 10)
    } else {
        v1
    }
}

/// The token sequence produced from `s[i..]`, or the first failure.
pub open spec fn spec_tokenize_from(s: Seq<char>, i: int) -> Result<Seq<Token>, ParseError>
    decreases s.len() - i,
    via spec_tokenize_from_decreases
{
    if i < 0 || i >= s.len() {
        Ok(Seq::empty())
    } else {
        let c = s[i];
        if is_space_char(c) {
            spec_tokenize_from(s, i + 1)
        } else {
            match single_token(c) {
                Some(t) => match spec_tokenize_from(s, i + 1) {
                    Ok(rest) => Ok(seq![t] + rest),
                    Err(e) => Err(e),
                },
                None => {
                    if is_digit_char(c) {
                        match spec_tokenize_from(s, numeral_end(s, i)) {
                            Ok(rest) => Ok(seq![Token::Number(numeral_value(s, i))] + rest),
                            Err(e) => Err(e),
                        }
                    } else {
                        Err(ParseError::InvalidToken(i as usize))
                    }
                },
            }
        }
    }
}

#[via_fn]
proof fn spec_tokenize_from_decreases(s: Seq<char>, i: int) {
    if 0 <= i < s.len() && is_digit_char(s[i]) {
        lemma_digits_end(s, i + 1);
        let j1 = digits_end(s, i);
        if j1 < s.len() && s[j1] == '.' {
            lemma_digits_end(s, j1 + 1);
        }
    }
}

/// The tokenization of a whole character sequence.
pub open spec fn spec_tokenize(s: Seq<char>) -> Result<Seq<Token>, ParseError> {
    spec_tokenize_from(s, 0)
}

fn is_digit(c: char) -> (b: bool)
    ensures
        b == is_digit_char(c),
{
    let u = c as u32;
    48 <= u && u <= 57
}

/// Tokenize a character sequence.
pub fn tokenize_chars(s: &Vec<char>) -> (r: Result<Vec<Token>, ParseError>)
    ensures
        spec_tokenize(s@) == (match r {
            Ok(toks) => Ok::<Seq<Token>, ParseError>(toks@),
            Err(e) => Err::<Seq<Token>, ParseError>(e),
        }),
        match r {
            Ok(toks) => wf_toks(toks@),
            Err(_) => true,
        },
{
    let n = s.len();
    let mut toks: Vec<Token> = Vec::new();
    let mut i: usize = 0;
    while i < n
        invariant
            n == s@.len(),
            i <= n,
            wf_toks(toks@),
            spec_tokenize(s@) == (match spec_tokenize_from(s@, i as int) {
                Ok(rest) => Ok::<Seq<Token>, ParseError>(toks@ + rest),
                Err(e) => Err::<Seq<Token>, ParseError>(e),
            }),
        decreases n - i,
    {
        let c = s[i];
        let cu = c as u32;
        if c == ' ' || c == '\t' || c == '\n' {
            i += 1;
        } else if c == '+' || c == '-' || c == '*' || c == '/' || c == '(' || c == ')' {
            let t = if c == '+' {
                Token::Plus
            } else if c == '-' {
                Token::Minus
            } else if c == '*' {
                Token::Mul
            } else if c == '/' {
                Token::Div
            } else if c == '(' {
                Token::OBrkt
            } else {
                Token::CBrkt
            };
            proof {
                assert(single_token(s@[i as int]) == Some(t));
            }
            let ghost toks0 = toks@;
            toks.push(t);
            i += 1;
            proof {
                assert(toks@ =~= toks0 + seq![t]);
                match spec_tokenize_from(s@, i as int) {
                    Ok(rest) => {
                        assert(toks0 + (seq![t] + rest) =~= toks@ + rest);
                    },
                    Err(_) => {},
                }
            }
        } else if 48 <= cu && cu <= 57 {
            let ghost i0 = i as int;
            let ghost j1 = digits_end(s@, i0);
            proof {
                lemma_digits_end(s@, i0);
            }
            let mut v = Value::zero();
            let mut j = i;
            while j < n && is_digit(s[j])
                invariant
                    n == s@.len(),
                    i0 <= j <= n,
                    v.wf(),
                    digits_end(s@, i0) == digits_end(s@, j as int),
                    int_fold(s@, i0, digits_end(s@, i0), spec_zero()) == int_fold(
                        s@,
                        j as int,
                        digits_end(s@, j as int),
                        v,
                    ),
                decreases n - j,
            {
                proof {
                    lemma_digits_end(s@, j as int + 1);
                }
                let d = s[j] as u32 - 48;
                v = v.mul(Value::Finite { num: 10, den: 1 }).add(
                    Value::Finite { num: d as i64, den: 1 },
                );
                j += 1;
            }
            // j is now the end of the integer digits.
            let ghost v0 = v;
            if j < n && s[j] == '.' {
                j += 1;
                let ghost fs = j as int;
                proof {
                    lemma_digits_end(s@, fs);
                }
                let mut scale: i64 = 10;
                let ghost mut true_scale: int = 10;
                let mut dropped = false;
                while j < n && is_digit(s[j])
                    invariant
                        n == s@.len(),
                        fs <= j <= n,
                        v.wf(),
                        digits_end(s@, fs) == digits_end(s@, j as int),
                        dropped ==> true_scale > scale_cap(),
                        !dropped ==> true_scale == scale as int && 10 <= scale
                            <= 1000000000000000000i64,
                        frac_fold(s@, fs, digits_end(s@, fs), v0, 10) == frac_fold(
                            s@,
                            j as int,
                            digits_end(s@, j as int),
                            v,
                            true_scale,
                        ),
                    decreases n - j,
                {
                    proof {
                        lemma_digits_end(s@, j as int + 1);
                    }
                    if !dropped {
                        let d = s[j] as u32 - 48;
                        v = v.add(Value::Finite { num: d as i64, den: scale });
                        if scale <= 100000000000000000i64 {
                            scale = scale * 10;
                            proof {
                                true_scale = true_scale * 10;
                            }
                        } else {
                            dropped = true;
                            proof {
                                true_scale = true_scale * 10;
                            }
                        }
                    } else {
                        proof {
                            true_scale = true_scale * 10;
                        }
                    }
                    j += 1;
                }
                proof {
                    assert(j as int == digits_end(s@, fs));
                    assert(numeral_end(s@, i0) == j as int);
                    assert(numeral_value(s@, i0) == v);
                }
            } else {
                proof {
                    assert(j as int == digits_end(s@, i0));
                    assert(numeral_end(s@, i0) == j as int);
                    assert(numeral_value(s@, i0) == v);
                }
            }
            proof {
                assert(single_token(s@[i0]) is None);
            }
            let ghost toks0 = toks@;
            toks.push(Token::Number(v));
            i = j;
            proof {
                assert(toks@ =~= toks0 + seq![Token::Number(v)]);
                match spec_tokenize_from(s@, i as int) {
                    Ok(rest) => {
                        assert(toks0 + (seq![Token::Number(v)] + rest) =~= toks@ + rest);
                    },
                    Err(_) => {},
                }
            }
        } else {
            proof {
                assert(single_token(s@[i as int]) is None);
            }
            return Err(ParseError::InvalidToken(i));
        }
    }
    proof {
        assert(toks@ + Seq::<Token>::empty() =~= toks@);
    }
    Ok(toks)
}

/// The characters of a string, in order.
pub fn str_to_chars(s: &str) -> (r: Vec<char>)
    ensures
        r@ == s@,
{
    let n = s.unicode_len();
    let mut out: Vec<char> = Vec::new();
    let mut i: usize = 0;
    while i < n
        invariant
            n == s@.len(),
            i <= n,
            out@ =~= s@.subrange(0, i as int),
        decreases n - i,
    {
        out.push(s.get_char(i));
        i += 1;
    }
    proof {
        assert(out@ =~= s@);
    }
    out
}

/// Holds the text to scan and the tokens produced from it.
#[derive(Debug, Clone)]
pub struct Lexer {
    pub input: String,
    pub toks: Vec<Token>,
}

impl Lexer {
    /// A lexer over `input`, with no tokens produced yet.
    pub fn from_string(input: String) -> (l: Lexer)
        ensures
            l.input@ == input@,
            l.toks@ =~= Seq::<Token>::empty(),
    {
        Lexer { input, toks: Vec::new() }
    }

    /// Scan the held text, appending its tokens to `toks`; fails with
    /// `InvalidToken` at the character index of the first unrecognized
    /// character.
    pub fn lex(&mut self) -> (r: Result<(), ParseError>)
        ensures
            final(self).input@ == old(self).input@,
            match spec_tokenize(old(self).input@) {
                Ok(ts) => r is Ok && final(self).toks@ == old(self).toks@ + ts,
                Err(e) => r == Err::<(), ParseError>(e) && final(self).toks@ == old(self).toks@,
            },
            wf_toks(old(self).toks@) ==> wf_toks(final(self).toks@),
    {
        let chars = str_to_chars(self.input.as_str());
        match tokenize_chars(&chars) {
            Ok(mut ts) => {
                let ghost t0 = self.toks@;
                let ghost t1 = ts@;
                self.toks.append(&mut ts);
                proof {
                    if wf_toks(t0) {
                        assert forall|k: int| 0 <= k < self.toks@.len() implies (
                        match #[trigger] self.toks@[k] {
                            Token::Number(v) => v.wf(),
                            _ => true,
                        }) by {
                            if k < t0.len() {
                                assert(self.toks@[k] == t0[k]);
                            } else {
                                assert(self.toks@[k] == t1[k - t0.len()]);
                            }
                        }
                    }
                }
                Ok(())
            },
            Err(e) => Err(e),
        }
    }
}

} // verus!
