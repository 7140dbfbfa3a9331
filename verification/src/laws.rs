//! Laws the evaluator obeys, stated over its specification functions and
//! proved once for all values.

use vstd::prelude::*;
use crate::lexer::{
    Token, spec_tokenize, spec_tokenize_from, is_digit_char, digit_of, digits_end, int_fold,
};
use crate::parser::{
    ParseError, GNode, char_of_op, spec_nodes, spec_resolve, spec_pairs,
    spec_pass1, spec_pass2, spec_evaluate, spec_evaluate_text, apply_op,
    find_close,
};
use crate::value::{
    Value, spec_zero, spec_add, spec_sub, spec_mul, spec_div, spec_neg, spec_norm, val_sim,
    lemma_norm_exact, comp_max, gcd,
};

verus! {

/// The ghost node a bracket-free token maps to.
pub open spec fn flat_gnode(t: Token) -> GNode {
    match t {
        Token::Number(v) => GNode::Num(v),
        _ => GNode::Op(char_of_op(t)),
    }
}

/// The operator token an operator character maps to.
pub open spec fn op_token(c: char) -> Token {
    if c == '+' {
        Token::Plus
    } else if c == '-' {
        Token::Minus
    } else if c == '*' {
        Token::Mul
    } else {
        Token::Div
    }
}

/// A token sequence without brackets becomes one node per token, each at
/// its own position.
pub proof fn lemma_nodes_flat(toks: Seq<Token>, off: int)
    requires
        forall|k: int|
            0 <= k < toks.len() ==> !((#[trigger] toks[k]) is OBrkt) && !(toks[k] is CBrkt),
    ensures
        spec_nodes(toks, off) == Ok::<Seq<(GNode, int)>, ParseError>(
            Seq::new(toks.len(), |k: int| (flat_gnode(toks[k]), off + k)),
        ),
    decreases toks.len(),
{
    let expect = Seq::new(toks.len(), |k: int| (flat_gnode(toks[k]), off + k));
    if toks.len() == 0 {
        assert(expect =~= Seq::<(GNode, int)>::empty());
    } else {
        let tl = toks.subrange(1, toks.len() as int);
        assert forall|k: int| 0 <= k < tl.len() implies !((#[trigger] tl[k]) is OBrkt) && !(tl[k]
            is CBrkt) by {
            assert(tl[k] == toks[k + 1]);
        }
        lemma_nodes_flat(tl, off + 1);
        let rest = Seq::new(tl.len(), |k: int| (flat_gnode(tl[k]), off + 1 + k));
        assert(seq![(flat_gnode(toks[0]), off)] + rest =~= expect);
    }
}

/// Resolution leaves a node sequence without groups unchanged.
pub proof fn lemma_resolve_flat(ns: Seq<(GNode, int)>, bound: nat)
    requires
        forall|k: int| 0 <= k < ns.len() ==> !((#[trigger] ns[k]).0 is Group),
    ensures
        spec_resolve(ns, bound) == Ok::<Seq<(GNode, int)>, ParseError>(ns),
    decreases ns.len(),
{
    if ns.len() == 0 {
        assert(ns =~= Seq::<(GNode, int)>::empty());
    } else {
        let tl = ns.subrange(1, ns.len() as int);
        assert forall|k: int| 0 <= k < tl.len() implies !((#[trigger] tl[k]).0 is Group) by {
            assert(tl[k] == ns[k + 1]);
        }
        lemma_resolve_flat(tl, bound);
        assert((ns[0].0, ns[0].1) == ns[0]);
        assert(seq![(ns[0].0, ns[0].1)] + tl =~= ns);
    }
}

/// A lone number evaluates to exactly itself.
pub proof fn lemma_eval_single(v: Value, off: int)
    ensures
        spec_evaluate(seq![Token::Number(v)], off) == Ok::<Value, ParseError>(v),
{
    let toks = seq![Token::Number(v)];
    lemma_nodes_flat(toks, off);
    let ns = Seq::new(toks.len(), |k: int| (flat_gnode(toks[k]), off + k));
    assert(ns =~= seq![(GNode::Num(v), off)]);
    lemma_resolve_flat(ns, toks.len());
    assert(spec_pairs(ns, 1) == Ok::<Seq<(char, Value)>, ParseError>(Seq::empty()));
    assert(spec_pass1(v, Seq::empty()) == ((v, Seq::<(char, Value)>::empty())));
    assert(spec_pass2(v, Seq::empty()) == v);
}

/// An operator between two numbers evaluates to that operation applied to
/// them, wherever the three tokens sit.
pub proof fn lemma_eval_binop(a: Value, c: char, b: Value, off: int)
    requires
        c == '+' || c == '-' || c == '*' || c == '/',
    ensures
        spec_evaluate(seq![Token::Number(a), op_token(c), Token::Number(b)], off) == Ok::<
            Value,
            ParseError,
        >(apply_op(c, a, b)),
{
    let toks = seq![Token::Number(a), op_token(c), Token::Number(b)];
    lemma_nodes_flat(toks, off);
    let ns = Seq::new(toks.len(), |k: int| (flat_gnode(toks[k]), off + k));
    assert(ns =~= seq![(GNode::Num(a), off), (GNode::Op(c), off + 1), (GNode::Num(b), off + 2)]);
    lemma_resolve_flat(ns, toks.len());
    assert(spec_pairs(ns, 3) == Ok::<Seq<(char, Value)>, ParseError>(Seq::empty()));
    assert(spec_pairs(ns, 1) == Ok::<Seq<(char, Value)>, ParseError>(seq![(c, b)] + Seq::empty()));
    let ps = seq![(c, b)];
    assert(seq![(c, b)] + Seq::<(char, Value)>::empty() =~= ps);
    assert(ps.subrange(1, 1) =~= Seq::<(char, Value)>::empty());
    let r = apply_op(c, a, b);
    if c == '*' || c == '/' {
        assert(spec_pass1(r, Seq::empty()) == ((r, Seq::<(char, Value)>::empty())));
        assert(spec_pass1(a, ps) == ((r, Seq::<(char, Value)>::empty())));
        assert(spec_pass2(r, Seq::empty()) == r);
    } else {
        assert(spec_pass1(b, Seq::empty()) == ((b, Seq::<(char, Value)>::empty())));
        assert(seq![(c, b)] + Seq::<(char, Value)>::empty() =~= ps);
        assert(spec_pass1(a, ps) == ((a, ps)));
        assert(spec_pass2(r, Seq::empty()) == r);
        assert(spec_pass2(a, ps) == r);
    }
}

/// Multiplication and division bind before addition and subtraction:
/// `a + b * c` is `a + (b * c)`, for every choice of values.
pub proof fn lemma_precedence(a: Value, b: Value, c: Value, off: int)
    ensures
        spec_evaluate(
            seq![
                Token::Number(a),
                Token::Plus,
                Token::Number(b),
                Token::Mul,
                Token::Number(c),
            ],
            off,
        ) == Ok::<Value, ParseError>(spec_add(a, spec_mul(b, c))),
{
    let toks = seq![
        Token::Number(a),
        Token::Plus,
        Token::Number(b),
        Token::Mul,
        Token::Number(c),
    ];
    lemma_nodes_flat(toks, off);
    let ns = Seq::new(toks.len(), |k: int| (flat_gnode(toks[k]), off + k));
    assert(ns =~= seq![
        (GNode::Num(a), off),
        (GNode::Op('+'), off + 1),
        (GNode::Num(b), off + 2),
        (GNode::Op('*'), off + 3),
        (GNode::Num(c), off + 4),
    ]);
    lemma_resolve_flat(ns, toks.len());
    assert(spec_pairs(ns, 5) == Ok::<Seq<(char, Value)>, ParseError>(Seq::empty()));
    assert(spec_pairs(ns, 3) == Ok::<Seq<(char, Value)>, ParseError>(
        seq![('*', c)] + Seq::empty(),
    ));
    assert(seq![('*', c)] + Seq::<(char, Value)>::empty() =~= seq![('*', c)]);
    assert(spec_pairs(ns, 1) == Ok::<Seq<(char, Value)>, ParseError>(
        seq![('+', b)] + seq![('*', c)],
    ));
    let ps = seq![('+', b), ('*', c)];
    assert(seq![('+', b)] + seq![('*', c)] =~= ps);
    assert(ps.subrange(1, 2) =~= seq![('*', c)]);
    assert(seq![('*', c)].subrange(1, 1) =~= Seq::<(char, Value)>::empty());
    let m = spec_mul(b, c);
    assert(spec_pass1(m, Seq::empty()) == ((m, Seq::<(char, Value)>::empty())));
    assert(spec_pass1(b, seq![('*', c)]) == ((m, Seq::<(char, Value)>::empty())));
    assert(spec_pass1(a, ps) == ((a, seq![('+', m)] + Seq::empty())));
    assert(seq![('+', m)] + Seq::<(char, Value)>::empty() =~= seq![('+', m)]);
    assert(seq![('+', m)].subrange(1, 1) =~= Seq::<(char, Value)>::empty());
    assert(spec_pass2(spec_add(a, m), Seq::empty()) == spec_add(a, m));
    assert(spec_pass2(a, seq![('+', m)]) == spec_add(a, m));
}

/// Operators of one precedence level fold left to right: `a / b / c` is
/// `(a / b) / c`, for every choice of values.
pub proof fn lemma_left_assoc(a: Value, b: Value, c: Value, off: int)
    ensures
        spec_evaluate(
            seq![
                Token::Number(a),
                Token::Div,
                Token::Number(b),
                Token::Div,
                Token::Number(c),
            ],
            off,
        ) == Ok::<Value, ParseError>(spec_div(spec_div(a, b), c)),
{
    let toks = seq![
        Token::Number(a),
        Token::Div,
        Token::Number(b),
        Token::Div,
        Token::Number(c),
    ];
    lemma_nodes_flat(toks, off);
    let ns = Seq::new(toks.len(), |k: int| (flat_gnode(toks[k]), off + k));
    assert(ns =~= seq![
        (GNode::Num(a), off),
        (GNode::Op('/'), off + 1),
        (GNode::Num(b), off + 2),
        (GNode::Op('/'), off + 3),
        (GNode::Num(c), off + 4),
    ]);
    lemma_resolve_flat(ns, toks.len());
    assert(spec_pairs(ns, 5) == Ok::<Seq<(char, Value)>, ParseError>(Seq::empty()));
    assert(spec_pairs(ns, 3) == Ok::<Seq<(char, Value)>, ParseError>(
        seq![('/', c)] + Seq::empty(),
    ));
    assert(seq![('/', c)] + Seq::<(char, Value)>::empty() =~= seq![('/', c)]);
    assert(spec_pairs(ns, 1) == Ok::<Seq<(char, Value)>, ParseError>(
        seq![('/', b)] + seq![('/', c)],
    ));
    let ps = seq![('/', b), ('/', c)];
    assert(seq![('/', b)] + seq![('/', c)] =~= ps);
    assert(ps.subrange(1, 2) =~= seq![('/', c)]);
    assert(seq![('/', c)].subrange(1, 1) =~= Seq::<(char, Value)>::empty());
    let q = spec_div(spec_div(a, b), c);
    assert(spec_pass1(q, Seq::empty()) == ((q, Seq::<(char, Value)>::empty())));
    assert(spec_pass1(spec_div(a, b), seq![('/', c)]) == ((q, Seq::<(char, Value)>::empty())));
    assert(spec_pass1(a, ps) == ((q, Seq::<(char, Value)>::empty())));
    assert(spec_pass2(q, Seq::empty()) == q);
}

/// A leading minus is a sign: `- a` evaluates as `0 - a`.
pub proof fn lemma_unary_minus(a: Value, off: int)
    ensures
        spec_evaluate(seq![Token::Minus, Token::Number(a)], off) == Ok::<Value, ParseError>(
            spec_sub(spec_zero(), a),
        ),
{
    let toks = seq![Token::Minus, Token::Number(a)];
    lemma_nodes_flat(toks, off);
    let ns = Seq::new(toks.len(), |k: int| (flat_gnode(toks[k]), off + k));
    assert(ns =~= seq![(GNode::Op('-'), off), (GNode::Num(a), off + 1)]);
    lemma_resolve_flat(ns, toks.len());
    assert(spec_pairs(ns, 2) == Ok::<Seq<(char, Value)>, ParseError>(Seq::empty()));
    assert(spec_pairs(ns, 0) == Ok::<Seq<(char, Value)>, ParseError>(
        seq![('-', a)] + Seq::empty(),
    ));
    let ps = seq![('-', a)];
    assert(seq![('-', a)] + Seq::<(char, Value)>::empty() =~= ps);
    assert(ps.subrange(1, 1) =~= Seq::<(char, Value)>::empty());
    assert(spec_pass1(a, Seq::empty()) == ((a, Seq::<(char, Value)>::empty())));
    assert(spec_pass1(spec_zero(), ps) == ((spec_zero(), ps)));
    assert(spec_pass2(spec_sub(spec_zero(), a), Seq::empty()) == spec_sub(spec_zero(), a));
    assert(spec_pass2(spec_zero(), ps) == spec_sub(spec_zero(), a));
}

/// A leading plus is a sign: `+ a` evaluates as `0 + a`.
pub proof fn lemma_unary_plus(a: Value, off: int)
    ensures
        spec_evaluate(seq![Token::Plus, Token::Number(a)], off) == Ok::<Value, ParseError>(
            spec_add(spec_zero(), a),
        ),
{
    let toks = seq![Token::Plus, Token::Number(a)];
    lemma_nodes_flat(toks, off);
    let ns = Seq::new(toks.len(), |k: int| (flat_gnode(toks[k]), off + k));
    assert(ns =~= seq![(GNode::Op('+'), off), (GNode::Num(a), off + 1)]);
    lemma_resolve_flat(ns, toks.len());
    assert(spec_pairs(ns, 2) == Ok::<Seq<(char, Value)>, ParseError>(Seq::empty()));
    assert(spec_pairs(ns, 0) == Ok::<Seq<(char, Value)>, ParseError>(
        seq![('+', a)] + Seq::empty(),
    ));
    let ps = seq![('+', a)];
    assert(seq![('+', a)] + Seq::<(char, Value)>::empty() =~= ps);
    assert(ps.subrange(1, 1) =~= Seq::<(char, Value)>::empty());
    assert(spec_pass1(a, Seq::empty()) == ((a, Seq::<(char, Value)>::empty())));
    assert(spec_pass1(spec_zero(), ps) == ((spec_zero(), ps)));
    assert(spec_pass2(spec_add(spec_zero(), a), Seq::empty()) == spec_add(spec_zero(), a));
    assert(spec_pass2(spec_zero(), ps) == spec_add(spec_zero(), a));
}

/// Negating through the synthesized zero is exact: `0 - a` denotes the same
/// quantity as the negation of `a`.
pub proof fn lemma_sign_exact(a: Value)
    requires
        a.wf(),
    ensures
        val_sim(spec_sub(spec_zero(), a), spec_neg(a)),
{
    match a {
        Value::Finite { num, den } => {
            assert(spec_sub(spec_zero(), a) == crate::value::spec_norm(
                0 * den + (-num) * 1,
                1 * den,
            ));
            assert(0 * den + (-num) * 1 == -num && 1 * den == den) by (nonlinear_arith);
            lemma_norm_exact(-num as int, den as int);
        },
        _ => {},
    }
}

/// A parenthesized sub-expression reduces as one unit before the operator
/// outside it: `(a + b) * c` multiplies the sum, for every choice of
/// values.
pub proof fn lemma_bracket_groups(a: Value, b: Value, c: Value, off: int)
    ensures
        spec_evaluate(
            seq![
                Token::OBrkt,
                Token::Number(a),
                Token::Plus,
                Token::Number(b),
                Token::CBrkt,
                Token::Mul,
                Token::Number(c),
            ],
            off,
        ) == Ok::<Value, ParseError>(spec_mul(spec_add(a, b), c)),
{
    let toks = seq![
        Token::OBrkt,
        Token::Number(a),
        Token::Plus,
        Token::Number(b),
        Token::CBrkt,
        Token::Mul,
        Token::Number(c),
    ];
    assert(find_close(toks, 4, 0) == Some(4int));
    assert(find_close(toks, 3, 0) == Some(4int));
    assert(find_close(toks, 2, 0) == Some(4int));
    assert(find_close(toks, 1, 0) == Some(4int));
    let grp = toks.subrange(1, 4);
    assert(grp =~= seq![Token::Number(a), Token::Plus, Token::Number(b)]);
    let tail = toks.subrange(5, 7);
    assert(tail =~= seq![Token::Mul, Token::Number(c)]);
    lemma_nodes_flat(tail, off + 5);
    let tail_ns = Seq::new(tail.len(), |k: int| (flat_gnode(tail[k]), off + 5 + k));
    assert(tail_ns =~= seq![(GNode::Op('*'), off + 5), (GNode::Num(c), off + 6)]);
    let ns = seq![(GNode::Group(grp), off), (GNode::Op('*'), off + 5), (GNode::Num(c), off + 6)];
    assert(seq![(GNode::Group(toks.subrange(1, 4)), off)] + tail_ns =~= ns);
    assert(spec_nodes(toks, off) == Ok::<Seq<(GNode, int)>, ParseError>(ns));
    lemma_eval_binop(a, '+', b, off + 1);
    let s = spec_add(a, b);
    assert(seq![Token::Number(a), op_token('+'), Token::Number(b)] =~= grp);
    assert(spec_evaluate(grp, off + 1) == Ok::<Value, ParseError>(s));
    let tl = ns.subrange(1, 3);
    assert(tl =~= tail_ns);
    assert forall|k: int| 0 <= k < tl.len() implies !((#[trigger] tl[k]).0 is Group) by {}
    lemma_resolve_flat(tl, toks.len());
    let rs = seq![(GNode::Num(s), off), (GNode::Op('*'), off + 5), (GNode::Num(c), off + 6)];
    assert(seq![(GNode::Num(s), off)] + tl =~= rs);
    assert(spec_resolve(ns, toks.len()) == Ok::<Seq<(GNode, int)>, ParseError>(rs));
    assert(spec_pairs(rs, 3) == Ok::<Seq<(char, Value)>, ParseError>(Seq::empty()));
    assert(spec_pairs(rs, 1) == Ok::<Seq<(char, Value)>, ParseError>(
        seq![('*', c)] + Seq::empty(),
    ));
    assert(seq![('*', c)] + Seq::<(char, Value)>::empty() =~= seq![('*', c)]);
    assert(seq![('*', c)].subrange(1, 1) =~= Seq::<(char, Value)>::empty());
    let q = spec_mul(s, c);
    assert(spec_pass1(q, Seq::empty()) == ((q, Seq::<(char, Value)>::empty())));
    assert(spec_pass1(s, seq![('*', c)]) == ((q, Seq::<(char, Value)>::empty())));
    assert(spec_pass2(q, Seq::empty()) == q);
}

/// Nested brackets resolve innermost first: wrapping the whole of
/// `(a + b) * c` in one more bracket pair changes nothing.
pub proof fn lemma_nested_brackets(a: Value, b: Value, c: Value, off: int)
    ensures
        spec_evaluate(
            seq![
                Token::OBrkt,
                Token::OBrkt,
                Token::Number(a),
                Token::Plus,
                Token::Number(b),
                Token::CBrkt,
                Token::Mul,
                Token::Number(c),
                Token::CBrkt,
            ],
            off,
        ) == Ok::<Value, ParseError>(spec_mul(spec_add(a, b), c)),
{
    let toks = seq![
        Token::OBrkt,
        Token::OBrkt,
        Token::Number(a),
        Token::Plus,
        Token::Number(b),
        Token::CBrkt,
        Token::Mul,
        Token::Number(c),
        Token::CBrkt,
    ];
    assert(find_close(toks, 8, 0) == Some(8int));
    assert(find_close(toks, 7, 0) == Some(8int));
    assert(find_close(toks, 6, 0) == Some(8int));
    assert(find_close(toks, 5, 1) == Some(8int));
    assert(find_close(toks, 4, 1) == Some(8int));
    assert(find_close(toks, 3, 1) == Some(8int));
    assert(find_close(toks, 2, 1) == Some(8int));
    assert(find_close(toks, 1, 0) == Some(8int));
    let grp = toks.subrange(1, 8);
    assert(grp =~= seq![
        Token::OBrkt,
        Token::Number(a),
        Token::Plus,
        Token::Number(b),
        Token::CBrkt,
        Token::Mul,
        Token::Number(c),
    ]);
    assert(toks.subrange(9, 9) =~= Seq::<Token>::empty());
    assert(spec_nodes(toks.subrange(9, 9), off + 9) == Ok::<Seq<(GNode, int)>, ParseError>(
        Seq::empty(),
    ));
    let ns = seq![(GNode::Group(grp), off)];
    assert(seq![(GNode::Group(toks.subrange(1, 8)), off)] + Seq::<(GNode, int)>::empty() =~= ns);
    assert(spec_nodes(toks, off) == Ok::<Seq<(GNode, int)>, ParseError>(ns));
    lemma_bracket_groups(a, b, c, off + 1);
    let q = spec_mul(spec_add(a, b), c);
    assert(spec_evaluate(grp, off + 1) == Ok::<Value, ParseError>(q));
    assert(ns.subrange(1, 1) =~= Seq::<(GNode, int)>::empty());
    assert(spec_resolve(Seq::<(GNode, int)>::empty(), toks.len()) == Ok::<
        Seq<(GNode, int)>,
        ParseError,
    >(Seq::empty()));
    let rs = seq![(GNode::Num(q), off)];
    assert(seq![(GNode::Num(q), off)] + Seq::<(GNode, int)>::empty() =~= rs);
    assert(spec_resolve(ns, toks.len()) == Ok::<Seq<(GNode, int)>, ParseError>(rs));
    assert(spec_pairs(rs, 1) == Ok::<Seq<(char, Value)>, ParseError>(Seq::empty()));
    assert(spec_pass1(q, Seq::empty()) == ((q, Seq::<(char, Value)>::empty())));
    assert(spec_pass2(q, Seq::empty()) == q);
}

/// No closing bracket anywhere means an opening bracket never matches.
proof fn lemma_find_close_none(toks: Seq<Token>, i: int, depth: int)
    requires
        0 <= i,
        forall|k: int| 0 <= k < toks.len() ==> !((#[trigger] toks[k]) is CBrkt),
    ensures
        find_close(toks, i, depth) is None,
    decreases toks.len() - i,
{
    if i < toks.len() {
        lemma_find_close_none(toks, i + 1, depth);
        lemma_find_close_none(toks, i + 1, depth + 1);
    }
}

/// A sequence that opens a bracket and never closes one fails with
/// `UnclosedBracket` at the opening bracket's position.
pub proof fn lemma_unclosed_bracket(toks: Seq<Token>, off: int)
    requires
        0 <= off,
        toks.len() > 0,
        toks[0] is OBrkt,
        forall|k: int| 0 <= k < toks.len() ==> !((#[trigger] toks[k]) is CBrkt),
    ensures
        spec_evaluate(toks, off) == Err::<Value, ParseError>(
            ParseError::UnclosedBracket(off as usize),
        ),
{
    lemma_find_close_none(toks, 1, 0);
}

/// Ten to the `n`.
pub open spec fn pow10(n: nat) -> int
    decreases n,
{
    if n == 0 {
        1
    } else {
        10 * pow10((n - 1) as nat)
    }
}

proof fn lemma_pow10_pos(n: nat)
    ensures
        pow10(n) >= 1,
    decreases n,
{
    if n > 0 {
        lemma_pow10_pos((n - 1) as nat);
    }
}

/// The decimal value of the digits `s[i..j)`, most significant first.
pub open spec fn digits_int(s: Seq<char>, i: int, j: int) -> int
    decreases j - i,
{
    if i >= j {
        0
    } else {
        digit_of(s[i]) * pow10((j - i - 1) as nat) + digits_int(s, i + 1, j)
    }
}

proof fn lemma_digits_int_nonneg(s: Seq<char>, i: int, j: int)
    requires
        0 <= i,
        j <= s.len(),
        forall|k: int| i <= k < j ==> is_digit_char(#[trigger] s[k]),
    ensures
        digits_int(s, i, j) >= 0,
    decreases j - i,
{
    if i < j {
        lemma_digits_int_nonneg(s, i + 1, j);
        lemma_pow10_pos((j - i - 1) as nat);
        assert(digit_of(s[i]) * pow10((j - i - 1) as nat) >= 0) by (nonlinear_arith)
            requires
                digit_of(s[i]) >= 0,
                pow10((j - i - 1) as nat) >= 1,
        ;
    }
}

/// Normalizing a whole number is the identity.
proof fn lemma_norm_int(x: int)
    requires
        0 <= x <= comp_max(),
    ensures
        spec_norm(x, 1) == (Value::Finite { num: x as i64, den: 1 }),
{
    if x != 0 {
        assert(x % 1 == 0int);
        assert(gcd(x as nat, 1) == gcd(1, 0));
        assert(gcd(1nat, 0nat) == 1);
        assert(x / 1 == x);
    }
}

/// The tokenizer's digit fold computes the decimal value of the digits,
/// exactly, whenever that value fits a component.
proof fn lemma_int_fold_exact(s: Seq<char>, i: int, j: int, v: int)
    requires
        0 <= i <= j <= s.len(),
        forall|k: int| i <= k < j ==> is_digit_char(#[trigger] s[k]),
        0 <= v,
        v * pow10((j - i) as nat) + digits_int(s, i, j) <= comp_max(),
    ensures
        int_fold(s, i, j, Value::Finite { num: v as i64, den: 1 }) == (Value::Finite {
            num: (v * pow10((j - i) as nat) + digits_int(s, i, j)) as i64,
            den: 1,
        }),
    decreases j - i,
{
    if i >= j {
        assert(pow10(0) == 1);
    } else {
        let d = digit_of(s[i]);
        let p1 = pow10((j - i - 1) as nat);
        let v2 = v * 10 + d;
        lemma_pow10_pos((j - i - 1) as nat);
        lemma_digits_int_nonneg(s, i + 1, j);
        lemma_digits_int_nonneg(s, i, j);
        assert(pow10((j - i) as nat) == 10 * p1);
        // The whole value dominates each stage of the accumulator.
        assert(v2 * p1 + digits_int(s, i + 1, j) == v * (10 * p1) + digits_int(s, i, j))
            by (nonlinear_arith)
            requires
                v2 == v * 10 + d,
                digits_int(s, i, j) == d * p1 + digits_int(s, i + 1, j),
        ;
        assert(v2 <= v2 * p1) by (nonlinear_arith)
            requires
                0 <= v2,
                1 <= p1,
        ;
        assert(0 <= v2 * p1) by (nonlinear_arith)
            requires
                0 <= v2,
                1 <= p1,
        ;
        assert(v2 * p1 <= comp_max());
        assert(v2 <= comp_max());
        assert(v * 10 <= v2 && 0 <= v * 10);
        assert(v <= comp_max());
        assert((v as i64) as int == v);
        assert(((v * 10) as i64) as int == v * 10);
        assert((v2 as i64) as int == v2);
        // The accumulator after this digit: multiply by ten, add the digit.
        lemma_norm_int(v * 10);
        assert(spec_mul(
            Value::Finite { num: v as i64, den: 1 },
            Value::Finite { num: 10, den: 1 },
        ) == spec_norm((v as i64) * 10, 1int * 1));
        assert((v as i64) * 10 == v * 10);
        assert(spec_norm((v as i64) * 10, 1int * 1) == spec_norm(v * 10, 1));
        assert(spec_norm(v * 10, 1) == (Value::Finite { num: (v * 10) as i64, den: 1 }));
        assert(spec_mul(
            Value::Finite { num: v as i64, den: 1 },
            Value::Finite { num: 10, den: 1 },
        ) == (Value::Finite { num: (v * 10) as i64, den: 1 }));
        lemma_norm_int(v2);
        assert((d as i64) as int == d);
        assert(spec_add(
            Value::Finite { num: (v * 10) as i64, den: 1 },
            Value::Finite { num: d as i64, den: 1 },
        ) == spec_norm(((v * 10) as i64) * 1 + (d as i64) * 1, 1int * 1));
        assert(((v * 10) as i64) * 1 + (d as i64) * 1 == v2);
        assert(spec_norm(((v * 10) as i64) * 1 + (d as i64) * 1, 1int * 1) == spec_norm(v2, 1));
        assert(spec_norm(v2, 1) == (Value::Finite { num: v2 as i64, den: 1 }));
        assert(spec_add(
            Value::Finite { num: (v * 10) as i64, den: 1 },
            Value::Finite { num: d as i64, den: 1 },
        ) == (Value::Finite { num: v2 as i64, den: 1 }));
        lemma_int_fold_exact(s, i + 1, j, v2);
    }
}

proof fn lemma_digits_end_all(s: Seq<char>, i: int)
    requires
        0 <= i <= s.len(),
        forall|k: int| i <= k < s.len() ==> is_digit_char(#[trigger] s[k]),
    ensures
        digits_end(s, i) == s.len(),
    decreases s.len() - i,
{
    if i < s.len() {
        lemma_digits_end_all(s, i + 1);
    }
}

/// A text that is one unbroken run of decimal digits evaluates to exactly
/// the whole number those digits write, whenever it fits a component.
pub proof fn lemma_integer_text_exact(s: Seq<char>)
    requires
        s.len() >= 1,
        forall|k: int| 0 <= k < s.len() ==> is_digit_char(#[trigger] s[k]),
        digits_int(s, 0, s.len() as int) <= comp_max(),
    ensures
        spec_evaluate_text(s) == Ok::<Value, ParseError>(
            Value::Finite { num: digits_int(s, 0, s.len() as int) as i64, den: 1 },
        ),
{
    let n = s.len() as int;
    lemma_digits_end_all(s, 0);
    lemma_digits_int_nonneg(s, 0, n);
    assert(pow10(0) == 1);
    lemma_int_fold_exact(s, 0, n, 0);
    let nv = Value::Finite { num: digits_int(s, 0, n) as i64, den: 1 };
    assert(int_fold(s, 0, n, spec_zero()) == nv);
    assert(spec_tokenize_from(s, n) == Ok::<Seq<Token>, ParseError>(Seq::empty()));
    assert(spec_tokenize_from(s, 0) == Ok::<Seq<Token>, ParseError>(
        seq![Token::Number(nv)] + Seq::empty(),
    ));
    assert(seq![Token::Number(nv)] + Seq::<Token>::empty() =~= seq![Token::Number(nv)]);
    lemma_eval_single(nv, 0);
}

/// Evaluation is a pure function of the input text: equal texts give equal
/// results, with no hidden state to consult.
pub proof fn lemma_evaluation_pure(s1: Seq<char>, s2: Seq<char>)
    requires
        s1 == s2,
    ensures
        spec_evaluate_text(s1) == spec_evaluate_text(s2),
{
}

/// A text that tokenizes to a single numeral evaluates to exactly that
/// numeral's value.
pub proof fn lemma_single_numeral_text(s: Seq<char>, v: Value)
    requires
        spec_tokenize(s) == Ok::<Seq<Token>, ParseError>(seq![Token::Number(v)]),
    ensures
        spec_evaluate_text(s) == Ok::<Value, ParseError>(v),
{
    lemma_eval_single(v, 0);
}

/// A text that tokenizes to a sign followed by a numeral evaluates to the
/// signed value, exactly.
pub proof fn lemma_signed_numeral_text(s: Seq<char>, v: Value)
    requires
        v.wf(),
        spec_tokenize(s) == Ok::<Seq<Token>, ParseError>(seq![Token::Minus, Token::Number(v)]),
    ensures
        spec_evaluate_text(s) == Ok::<Value, ParseError>(spec_sub(spec_zero(), v)),
        match spec_evaluate_text(s) {
            Ok(r) => val_sim(r, spec_neg(v)),
            Err(_) => false,
        },
{
    lemma_unary_minus(v, 0);
    lemma_sign_exact(v);
}

} // verus!
