//! The evaluator: token sequence to a single numeric value.
//!
//! Evaluation proceeds in phases: tokens become a flat node sequence (with
//! each parenthesized span captured verbatim as one group node), group nodes
//! are resolved by evaluating their token span recursively, the node
//! sequence is validated against the shape `Number (Operator Number)*` (with
//! a leading `+` or `-` read as a sign against a synthesized zero), and two
//! left-to-right reduction passes apply first `*` and `/`, then `+` and `-`.
//! Positions reported by errors always refer to the outermost token
//! sequence: a group's nodes carry their original token indices.

use vstd::prelude::*;
use crate::lexer::{Token, wf_toks, spec_tokenize, str_to_chars, tokenize_chars};
use crate::value::{Value, spec_zero, spec_add, spec_sub, spec_mul, spec_div};

verus! {

/// Why parsing failed, with the zero-based position (a character index for
/// tokenization, a token index for evaluation) at which the failure was
/// detected.
#[derive(Debug, Clone, PartialEq, Eq, Structural)]
pub enum ParseError {
    InvalidToken(usize),
    UnclosedBracket(usize),
    UnexpectedEndOfInput(usize),
}

/// Ghost counterpart of a parse node: a group's captured tokens are a
/// sequence, so this shape exists only in specifications.
pub enum GNode {
    Num(Value),
    Op(char),
    Group(Seq<Token>),
}

/// The operator character of an operator token; a placeholder otherwise.
pub open spec fn char_of_op(t: Token) -> char {
    match t {
        Token::Plus => '+',
        Token::Minus => '-',
        Token::Mul => '*',
        Token::Div => '/',
        _ => '?',
    }
}

/// Position of the closing bracket matching depth `depth`, scanning from
/// `i`: inner bracket pairs raise and lower the depth so they are skipped.
pub open spec fn find_close(toks: Seq<Token>, i: int, depth: int) -> Option<int>
    decreases toks.len() - i,
{
    if i < 0 || i >= toks.len() {
        None
    } else {
        match toks[i] {
            Token::CBrkt => if depth == 0 {
                Some(i)
            } else {
                find_close(toks, i + 1, depth - 1)
            },
            Token::OBrkt => find_close(toks, i + 1, depth + 1),
            _ => find_close(toks, i + 1, depth),
        }
    }
}

pub proof fn lemma_find_close_bounds(toks: Seq<Token>, i: int, depth: int)
    requires
        0 <= i,
    ensures
        match find_close(toks, i, depth) {
            Some(j) => i <= j < toks.len(),
            None => true,
        },
    decreases toks.len() - i,
{
    if 0 <= i < toks.len() {
        lemma_find_close_bounds(toks, i + 1, depth - 1);
        lemma_find_close_bounds(toks, i + 1, depth + 1);
        lemma_find_close_bounds(toks, i + 1, depth);
    }
}

/// The node sequence built from `toks`, each node paired with the position
/// (offset by `off`) of the token it began at. A parenthesized span becomes
/// one group node; a stray closing bracket is an invalid token; an open
/// bracket with no matching close fails at the open bracket's position.
pub open spec fn spec_nodes(toks: Seq<Token>, off: int) -> Result<Seq<(GNode, int)>, ParseError>
    decreases toks.len(),
    via spec_nodes_decreases
{
    if toks.len() == 0 {
        Ok(Seq::empty())
    } else {
        match toks[0] {
            Token::Number(v) => match spec_nodes(toks.subrange(1, toks.len() as int), off + 1) {
                Ok(rest) => Ok(seq![(GNode::Num(v), off)] + rest),
                Err(e) => Err(e),
            },
            Token::OBrkt => match find_close(toks, 1, 0) {
                None => Err(ParseError::UnclosedBracket(off as usize)),
                Some(j) => match spec_nodes(
                    toks.subrange(j + 1, toks.len() as int),
                    off + j + 1,
                ) {
                    Ok(rest) => Ok(seq![(GNode::Group(toks.subrange(1, j)), off)] + rest),
                    Err(e) => Err(e),
                },
            },
            Token::CBrkt => Err(ParseError::InvalidToken(off as usize)),
            _ => match spec_nodes(toks.subrange(1, toks.len() as int), off + 1) {
                Ok(rest) => Ok(seq![(GNode::Op(char_of_op(toks[0])), off)] + rest),
                Err(e) => Err(e),
            },
        }
    }
}

#[via_fn]
proof fn spec_nodes_decreases(toks: Seq<Token>, off: int) {
    if toks.len() > 0 && toks[0] is OBrkt {
        lemma_find_close_bounds(toks, 1, 0);
    }
}

/// Replace every group node by the number its token span evaluates to,
/// failing as the recursive evaluation fails. `bound` carries the length of
/// the enclosing token sequence, which every captured span is shorter than.
pub open spec fn spec_resolve(ns: Seq<(GNode, int)>, bound: nat) -> Result<
    Seq<(GNode, int)>,
    ParseError,
>
    decreases bound, 0nat, ns.len(),
{
    if ns.len() == 0 {
        Ok(Seq::empty())
    } else {
        let (n0, p0) = ns[0];
        match n0 {
            GNode::Group(ts) => if ts.len() < bound {
                match spec_evaluate(ts, p0 + 1) {
                    Ok(v) => match spec_resolve(ns.subrange(1, ns.len() as int), bound) {
                        Ok(rest) => Ok(seq![(GNode::Num(v), p0)] + rest),
                        Err(e) => Err(e),
                    },
                    Err(e) => Err(e),
                }
            } else {
                Err(ParseError::InvalidToken(p0 as usize))
            },
            _ => match spec_resolve(ns.subrange(1, ns.len() as int), bound) {
                Ok(rest) => Ok(seq![(n0, p0)] + rest),
                Err(e) => Err(e),
            },
        }
    }
}

/// The operator/operand pairs from position `i` on: the tail of the shape
/// `Number (Operator Number)*`. A number where an operator is due is an
/// invalid token at its position (adjacent numbers carry no implicit
/// operator); an operator missing its right operand fails at the operator's
/// position.
pub open spec fn spec_pairs(ns: Seq<(GNode, int)>, i: int) -> Result<
    Seq<(char, Value)>,
    ParseError,
>
    decreases ns.len() - i,
{
    if i < 0 || i >= ns.len() {
        Ok(Seq::empty())
    } else {
        let (n0, p0) = ns[i];
        match n0 {
            GNode::Op(c) => if i + 1 >= ns.len() {
                Err(ParseError::UnexpectedEndOfInput(p0 as usize))
            } else {
                let (n1, p1) = ns[i + 1];
                match n1 {
                    GNode::Num(v) => match spec_pairs(ns, i + 2) {
                        Ok(rest) => Ok(seq![(c, v)] + rest),
                        Err(e) => Err(e),
                    },
                    _ => Err(ParseError::UnexpectedEndOfInput(p0 as usize)),
                }
            },
            _ => Err(ParseError::InvalidToken(p0 as usize)),
        }
    }
}

/// Validate a resolved node sequence against `Number (Operator Number)*`,
/// yielding the leading value and the operator/operand pairs. A leading `+`
/// or `-` is a sign: a zero is synthesized before it. An empty sequence
/// cannot reduce to a value and is an invalid token at `end_pos`.
pub open spec fn spec_validate(ns: Seq<(GNode, int)>, end_pos: int) -> Result<
    (Value, Seq<(char, Value)>),
    ParseError,
> {
    if ns.len() == 0 {
        Err(ParseError::InvalidToken(end_pos as usize))
    } else {
        let (n0, p0) = ns[0];
        match n0 {
            GNode::Num(v) => match spec_pairs(ns, 1) {
                Ok(ps) => Ok((v, ps)),
                Err(e) => Err(e),
            },
            GNode::Op(c) => if c == '+' || c == '-' {
                match spec_pairs(ns, 0) {
                    Ok(ps) => Ok((spec_zero(), ps)),
                    Err(e) => Err(e),
                }
            } else {
                Err(ParseError::UnexpectedEndOfInput(p0 as usize))
            },
            GNode::Group(_) => Err(ParseError::InvalidToken(p0 as usize)),
        }
    }
}

/// The operation an operator character denotes.
pub open spec fn apply_op(c: char, a: Value, b: Value) -> Value {
    if c == '*' {
        spec_mul(a, b)
    } else if c == '/' {
        spec_div(a, b)
    } else if c == '+' {
        spec_add(a, b)
    } else {
        spec_sub(a, b)
    }
}

pub open spec fn is_muldiv(c: char) -> bool {
    c == '*' || c == '/'
}

/// First reduction pass: fold every `*`/`/` onto the value to its left,
/// left to right, leaving only `+`/`-` pairs.
pub open spec fn spec_pass1(acc: Value, rest: Seq<(char, Value)>) -> (Value, Seq<(char, Value)>)
    decreases rest.len(),
{
    if rest.len() == 0 {
        (acc, Seq::empty())
    } else {
        let (c, v) = rest[0];
        if is_muldiv(c) {
            spec_pass1(apply_op(c, acc, v), rest.subrange(1, rest.len() as int))
        } else {
            let p = spec_pass1(v, rest.subrange(1, rest.len() as int));
            (acc, seq![(c, p.0)] + p.1)
        }
    }
}

/// Second reduction pass: fold the remaining operators onto the
/// accumulator, left to right.
pub open spec fn spec_pass2(acc: Value, rest: Seq<(char, Value)>) -> Value
    decreases rest.len(),
{
    if rest.len() == 0 {
        acc
    } else {
        let (c, v) = rest[0];
        spec_pass2(apply_op(c, acc, v), rest.subrange(1, rest.len() as int))
    }
}

/// The result of evaluating `toks`, whose first token sits at position
/// `off` of the outermost token sequence.
pub open spec fn spec_evaluate(toks: Seq<Token>, off: int) -> Result<Value, ParseError>
    decreases toks.len(), 1nat, 0nat,
{
    match spec_nodes(toks, off) {
        Err(e) => Err(e),
        Ok(ns) => match spec_resolve(ns, toks.len()) {
            Err(e) => Err(e),
            Ok(rs) => match spec_validate(rs, off + toks.len()) {
                Err(e) => Err(e),
                Ok((first, rest)) => {
                    let p = spec_pass1(first, rest);
                    Ok(spec_pass2(p.0, p.1))
                },
            },
        },
    }
}

/// An intermediate evaluation unit: a resolved number, an operator awaiting
/// its numeric neighbors, or an unresolved parenthesized token span.
#[derive(Debug, Clone)]
pub enum ParseNode {
    Number(Value),
    Operator(char),
    Bracket(Vec<Token>),
}

/// The ghost node an executable node stands for.
pub open spec fn gnode_of(n: ParseNode) -> GNode {
    match n {
        ParseNode::Number(v) => GNode::Num(v),
        ParseNode::Operator(c) => GNode::Op(c),
        ParseNode::Bracket(ts) => GNode::Group(ts@),
    }
}

/// A node buffer with its parallel position buffer, as one ghost sequence.
pub open spec fn nodes_view(buf: Seq<ParseNode>, poss: Seq<usize>) -> Seq<(GNode, int)> {
    Seq::new(buf.len(), |k: int| (gnode_of(buf[k]), poss[k] as int))
}

/// What evaluation maintains of each buffered node: numbers are
/// well-formed, and a captured span is shorter than the enclosing token
/// sequence of length `n_toks` and ends within it.
spec fn node_ok(node: ParseNode, pos: usize, n_toks: int, off: int) -> bool {
    match node {
        ParseNode::Number(v) => v.wf(),
        ParseNode::Operator(_) => true,
        ParseNode::Bracket(ts) => ts@.len() < n_toks && wf_toks(ts@) && pos + 1 + ts@.len() <= off
            + n_toks,
    }
}

/// Evaluate `toks`, whose first token sits at position `off` of the
/// outermost token sequence.
fn eval_at(toks: &Vec<Token>, off: usize) -> (r: Result<Value, ParseError>)
    requires
        off + toks@.len() <= usize::MAX,
        wf_toks(toks@),
    ensures
        r == spec_evaluate(toks@, off as int),
        match r {
            Ok(v) => v.wf(),
            Err(_) => true,
        },
    decreases toks@.len(),
{
    let n = toks.len();
    // Phase 1: tokens to nodes, capturing each parenthesized span verbatim.
    let mut buf: Vec<ParseNode> = Vec::new();
    let mut poss: Vec<usize> = Vec::new();
    let mut i: usize = 0;
    proof {
        assert(toks@.subrange(0, n as int) =~= toks@);
        assert(nodes_view(buf@, poss@) =~= Seq::<(GNode, int)>::empty());
        match spec_nodes(toks@, off as int) {
            Ok(rest) => {
                assert(nodes_view(buf@, poss@) + rest =~= rest);
            },
            Err(_) => {},
        }
    }
    while i < n
        invariant
            n == toks@.len(),
            i <= n,
            off + n <= usize::MAX,
            wf_toks(toks@),
            buf@.len() == poss@.len(),
            forall|k: int|
                0 <= k < buf@.len() ==> node_ok(#[trigger] buf@[k], poss@[k], n as int, off as int),
            spec_nodes(toks@, off as int) == (match spec_nodes(
                toks@.subrange(i as int, n as int),
                off + i,
            ) {
                Ok(rest) => Ok::<Seq<(GNode, int)>, ParseError>(nodes_view(buf@, poss@) + rest),
                Err(e) => Err::<Seq<(GNode, int)>, ParseError>(e),
            }),
        decreases n - i,
    {
        let ghost sub_i = toks@.subrange(i as int, n as int);
        proof {
            assert(sub_i[0] == toks@[i as int]);
            assert(sub_i.subrange(1, sub_i.len() as int) =~= toks@.subrange(
                i as int + 1,
                n as int,
            ));
        }
        let t = toks[i];
        match t {
            Token::CBrkt => {
                return Err(ParseError::InvalidToken(off + i));
            },
            Token::OBrkt => {
                // Scan for the matching close, tracking nesting depth.
                let mut k = i + 1;
                let mut depth: usize = 0;
                let mut close: usize = 0;
                let mut found = false;
                while k < n && !found
                    invariant
                        n == toks@.len(),
                        i + 1 <= k <= n,
                        depth <= k,
                        sub_i == toks@.subrange(i as int, n as int),
                        i < n,
                        !found ==> find_close(sub_i, 1, 0) == find_close(
                            sub_i,
                            k - i,
                            depth as int,
                        ),
                        found ==> i < close < n && find_close(sub_i, 1, 0) == Some(
                            close - i,
                        ),
                    decreases n - k + (if found { 0int } else { 1int }),
                {
                    proof {
                        assert(sub_i[k - i] == toks@[k as int]);
                    }
                    match toks[k] {
                        Token::CBrkt => {
                            if depth == 0 {
                                close = k;
                                found = true;
                            } else {
                                depth = depth - 1;
                                k = k + 1;
                            }
                        },
                        Token::OBrkt => {
                            depth = depth + 1;
                            k = k + 1;
                        },
                        _ => {
                            k = k + 1;
                        },
                    }
                }
                if !found {
                    proof {
                        assert(find_close(sub_i, k - i, depth as int) is None);
                    }
                    return Err(ParseError::UnclosedBracket(off + i));
                }
                // Copy the captured span.
                let mut interior: Vec<Token> = Vec::new();
                let mut m2 = i + 1;
                while m2 < close
                    invariant
                        n == toks@.len(),
                        i + 1 <= m2 <= close,
                        close < n,
                        interior@ =~= toks@.subrange(i as int + 1, m2 as int),
                    decreases close - m2,
                {
                    interior.push(toks[m2]);
                    m2 += 1;
                }
                proof {
                    assert(interior@ =~= sub_i.subrange(1, close - i));
                    assert forall|q: int| 0 <= q < interior@.len() implies (match #[trigger] interior@[q] {
                        Token::Number(v) => v.wf(),
                        _ => true,
                    }) by {
                        assert(interior@[q] == toks@[i + 1 + q]);
                    }
                    assert(wf_toks(interior@));
                }
                let ghost buf0 = buf@;
                let ghost poss0 = poss@;
                poss.push(off + i);
                buf.push(ParseNode::Bracket(interior));
                let ghost iold = i as int;
                i = close + 1;
                proof {
                    assert(nodes_view(buf@, poss@) =~= nodes_view(buf0, poss0) + seq![
                        (GNode::Group(sub_i.subrange(1, close - iold)), off + iold),
                    ]);
                    assert(sub_i.subrange(close - iold + 1, sub_i.len() as int) =~= toks@.subrange(
                        i as int,
                        n as int,
                    ));
                    match spec_nodes(toks@.subrange(i as int, n as int), off + i) {
                        Ok(rest) => {
                            assert(nodes_view(buf0, poss0) + (seq![
                                (GNode::Group(sub_i.subrange(1, close - iold)), off + iold),
                            ] + rest) =~= nodes_view(buf@, poss@) + rest);
                        },
                        Err(_) => {},
                    }
                }
            },
            _ => {
                // A number or operator token becomes one node.
                let node = match t {
                    Token::Number(v) => ParseNode::Number(v),
                    Token::Plus => ParseNode::Operator('+'),
                    Token::Minus => ParseNode::Operator('-'),
                    Token::Mul => ParseNode::Operator('*'),
                    Token::Div => ParseNode::Operator('/'),
                    _ => ParseNode::Operator('?'),
                };
                let ghost buf0 = buf@;
                let ghost poss0 = poss@;
                poss.push(off + i);
                buf.push(node);
                let ghost gn = gnode_of(buf@[buf@.len() - 1]);
                i += 1;
                proof {
                    assert(nodes_view(buf@, poss@) =~= nodes_view(buf0, poss0) + seq![
                        (gn, off + i - 1),
                    ]);
                    match spec_nodes(toks@.subrange(i as int, n as int), off + i) {
                        Ok(rest) => {
                            assert(nodes_view(buf0, poss0) + (seq![(gn, off + i - 1)] + rest)
                                =~= nodes_view(buf@, poss@) + rest);
                        },
                        Err(_) => {},
                    }
                }
            },
        }
    }
    proof {
        assert(toks@.subrange(n as int, n as int) =~= Seq::<Token>::empty());
        assert(nodes_view(buf@, poss@) + Seq::<(GNode, int)>::empty() =~= nodes_view(buf@, poss@));
    }
    let ghost ns0 = nodes_view(buf@, poss@);
    proof {
        assert(spec_nodes(toks@, off as int) == Ok::<Seq<(GNode, int)>, ParseError>(ns0));
    }
    // Phase 2: resolve each captured span by recursive evaluation.
    let nbuf = buf.len();
    let mut idx: usize = 0;
    proof {
        assert(nodes_view(buf@, poss@).subrange(0, nbuf as int) =~= ns0);
        assert(nodes_view(buf@, poss@).subrange(0, 0) =~= Seq::<(GNode, int)>::empty());
        match spec_resolve(ns0, n as nat) {
            Ok(rest) => {
                assert(nodes_view(buf@, poss@).subrange(0, 0) + rest =~= rest);
            },
            Err(_) => {},
        }
    }
    while idx < nbuf
        invariant
            n == toks@.len(),
            off + n <= usize::MAX,
            nbuf == buf@.len(),
            buf@.len() == poss@.len(),
            idx <= nbuf,
            wf_toks(toks@),
            spec_nodes(toks@, off as int) == Ok::<Seq<(GNode, int)>, ParseError>(ns0),
            forall|k: int|
                0 <= k < buf@.len() ==> node_ok(#[trigger] buf@[k], poss@[k], n as int, off as int),
            spec_resolve(ns0, n as nat) == (match spec_resolve(
                nodes_view(buf@, poss@).subrange(idx as int, nbuf as int),
                n as nat,
            ) {
                Ok(rest) => Ok::<Seq<(GNode, int)>, ParseError>(
                    nodes_view(buf@, poss@).subrange(0, idx as int) + rest,
                ),
                Err(e) => Err::<Seq<(GNode, int)>, ParseError>(e),
            }),
        decreases nbuf - idx,
    {
        let ghost cur = nodes_view(buf@, poss@);
        proof {
            assert(cur.subrange(idx as int, nbuf as int)[0] == cur[idx as int]);
            assert(cur.subrange(idx as int, nbuf as int).subrange(
                1,
                cur.subrange(idx as int, nbuf as int).len() as int,
            ) =~= cur.subrange(idx as int + 1, nbuf as int));
        }
        match &buf[idx] {
            ParseNode::Bracket(ts) => {
                let sub_off = poss[idx] + 1;
                match eval_at(ts, sub_off) {
                    Ok(v) => {
                        let ghost p0 = poss@[idx as int] as int;
                        buf.set(idx, ParseNode::Number(v));
                        proof {
                            let cur2 = nodes_view(buf@, poss@);
                            assert(cur2 =~= cur.update(idx as int, (GNode::Num(v), p0)));
                            assert(cur2.subrange(idx as int + 1, nbuf as int) =~= cur.subrange(
                                idx as int + 1,
                                nbuf as int,
                            ));
                            match spec_resolve(cur.subrange(idx as int + 1, nbuf as int), n as nat) {
                                Ok(rest) => {
                                    assert(cur.subrange(0, idx as int) + (seq![
                                        (GNode::Num(v), p0),
                                    ] + rest) =~= cur2.subrange(0, idx as int + 1) + rest);
                                },
                                Err(_) => {},
                            }
                        }
                        idx += 1;
                    },
                    Err(e) => {
                        proof {
                            assert(node_ok(
                                buf@[idx as int],
                                poss@[idx as int],
                                n as int,
                                off as int,
                            ));
                            assert(spec_resolve(
                                cur.subrange(idx as int, nbuf as int),
                                n as nat,
                            ) == Err::<Seq<(GNode, int)>, ParseError>(e));
                            assert(spec_evaluate(toks@, off as int) == Err::<Value, ParseError>(e));
                        }
                        return Err(e);
                    },
                }
            },
            ParseNode::Number(_) => {
                proof {
                    match spec_resolve(cur.subrange(idx as int + 1, nbuf as int), n as nat) {
                        Ok(rest) => {
                            assert(cur.subrange(0, idx as int) + (seq![cur[idx as int]] + rest)
                                =~= cur.subrange(0, idx as int + 1) + rest);
                        },
                        Err(_) => {},
                    }
                }
                idx += 1;
            },
            ParseNode::Operator(_) => {
                proof {
                    match spec_resolve(cur.subrange(idx as int + 1, nbuf as int), n as nat) {
                        Ok(rest) => {
                            assert(cur.subrange(0, idx as int) + (seq![cur[idx as int]] + rest)
                                =~= cur.subrange(0, idx as int + 1) + rest);
                        },
                        Err(_) => {},
                    }
                }
                idx += 1;
            },
        }
    }
    let ghost rs = nodes_view(buf@, poss@);
    proof {
        assert(rs.subrange(nbuf as int, nbuf as int) =~= Seq::<(GNode, int)>::empty());
        assert(rs.subrange(0, nbuf as int) + Seq::<(GNode, int)>::empty() =~= rs);
        assert(spec_resolve(ns0, n as nat) == Ok::<Seq<(GNode, int)>, ParseError>(rs));
    }
    // Phase 3: validate the shape `Number (Operator Number)*`.
    if nbuf == 0 {
        return Err(ParseError::InvalidToken(off + n));
    }
    let first: Value;
    let start: usize;
    match &buf[0] {
        ParseNode::Number(v) => {
            first = *v;
            start = 1;
            proof {
                assert(spec_validate(rs, off as int + n as int) == (match spec_pairs(rs, 1) {
                    Ok(ps) => Ok::<(Value, Seq<(char, Value)>), ParseError>((first, ps)),
                    Err(e) => Err::<(Value, Seq<(char, Value)>), ParseError>(e),
                }));
            }
        },
        ParseNode::Operator(c) => {
            if *c == '+' || *c == '-' {
                first = Value::zero();
                start = 0;
                proof {
                    assert(spec_validate(rs, off as int + n as int) == (match spec_pairs(rs, 0) {
                        Ok(ps) => Ok::<(Value, Seq<(char, Value)>), ParseError>((first, ps)),
                        Err(e) => Err::<(Value, Seq<(char, Value)>), ParseError>(e),
                    }));
                }
            } else {
                return Err(ParseError::UnexpectedEndOfInput(poss[0]));
            }
        },
        ParseNode::Bracket(_) => {
            return Err(ParseError::InvalidToken(poss[0]));
        },
    }
    let mut pairs: Vec<(char, Value)> = Vec::new();
    let mut q: usize = start;
    proof {
        match spec_pairs(rs, start as int) {
            Ok(tail) => {
                assert(pairs@ + tail =~= tail);
            },
            Err(_) => {},
        }
    }
    while q < nbuf
        invariant
            n == toks@.len(),
            off + n <= usize::MAX,
            nbuf == buf@.len(),
            buf@.len() == poss@.len(),
            rs == nodes_view(buf@, poss@),
            start <= q <= nbuf || q == start,
            first.wf(),
            spec_nodes(toks@, off as int) == Ok::<Seq<(GNode, int)>, ParseError>(ns0),
            spec_resolve(ns0, n as nat) == Ok::<Seq<(GNode, int)>, ParseError>(rs),
            spec_validate(rs, off as int + n as int) == (match spec_pairs(rs, start as int) {
                Ok(ps) => Ok::<(Value, Seq<(char, Value)>), ParseError>((first, ps)),
                Err(e) => Err::<(Value, Seq<(char, Value)>), ParseError>(e),
            }),
            forall|k: int|
                0 <= k < buf@.len() ==> node_ok(#[trigger] buf@[k], poss@[k], n as int, off as int),
            forall|k: int| 0 <= k < pairs@.len() ==> (#[trigger] pairs@[k]).1.wf(),
            spec_pairs(rs, start as int) == (match spec_pairs(rs, q as int) {
                Ok(tail) => Ok::<Seq<(char, Value)>, ParseError>(pairs@ + tail),
                Err(e) => Err::<Seq<(char, Value)>, ParseError>(e),
            }),
        decreases nbuf - q,
    {
        match &buf[q] {
            ParseNode::Operator(c) => {
                if q + 1 >= nbuf {
                    return Err(ParseError::UnexpectedEndOfInput(poss[q]));
                }
                let cc = *c;
                match &buf[q + 1] {
                    ParseNode::Number(v) => {
                        let vv = *v;
                        let ghost pairs0 = pairs@;
                        pairs.push((cc, vv));
                        q += 2;
                        proof {
                            assert(pairs@ =~= pairs0 + seq![(cc, vv)]);
                            match spec_pairs(rs, q as int) {
                                Ok(tail) => {
                                    assert(pairs0 + (seq![(cc, vv)] + tail) =~= pairs@ + tail);
                                },
                                Err(_) => {},
                            }
                        }
                    },
                    _ => {
                        return Err(ParseError::UnexpectedEndOfInput(poss[q]));
                    },
                }
            },
            _ => {
                return Err(ParseError::InvalidToken(poss[q]));
            },
        }
    }
    proof {
        assert(spec_pairs(rs, start as int) == Ok::<Seq<(char, Value)>, ParseError>(pairs@));
    }
    let ghost rest0 = pairs@;
    // Phase 4: reduce `*` and `/`, left to right.
    let plen = pairs.len();
    let mut out: Vec<(char, Value)> = Vec::new();
    let mut cur_v = first;
    let mut out_first = first;
    let mut closed = false;
    let mut pending: char = '+';
    let mut t2: usize = 0;
    proof {
        assert(rest0.subrange(0, plen as int) =~= rest0);
    }
    while t2 < plen
        invariant
            plen == pairs@.len(),
            pairs@ == rest0,
            t2 <= plen,
            cur_v.wf(),
            out_first.wf(),
            first.wf(),
            forall|k: int| 0 <= k < rest0.len() ==> (#[trigger] rest0[k]).1.wf(),
            forall|k: int| 0 <= k < out@.len() ==> (#[trigger] out@[k]).1.wf(),
            !closed ==> out@.len() == 0,
            ({
                let p = spec_pass1(cur_v, rest0.subrange(t2 as int, plen as int));
                spec_pass1(first, rest0) == (if !closed {
                    p
                } else {
                    ((out_first, (out@ + seq![(pending, p.0)]) + p.1))
                })
            }),
        decreases plen - t2,
    {
        let ghost cur_v0 = cur_v;
        let ghost out0 = out@;
        let ghost closed0 = closed;
        let ghost pending0 = pending;
        let ghost sub_t = rest0.subrange(t2 as int, plen as int);
        proof {
            assert(sub_t[0] == rest0[t2 as int]);
            assert(sub_t.subrange(1, sub_t.len() as int) =~= rest0.subrange(
                t2 as int + 1,
                plen as int,
            ));
        }
        let (c, v) = pairs[t2];
        if c == '*' {
            cur_v = cur_v.mul(v);
        } else if c == '/' {
            cur_v = cur_v.div(v);
        } else {
            if !closed {
                out_first = cur_v;
                closed = true;
            } else {
                out.push((pending, cur_v));
            }
            pending = c;
            cur_v = v;
            proof {
                let p2 = spec_pass1(cur_v, rest0.subrange(t2 as int + 1, plen as int));
                assert(spec_pass1(cur_v0, sub_t) == ((cur_v0, seq![(c, p2.0)] + p2.1)));
                if !closed0 {
                    assert((out@ + seq![(c, p2.0)]) + p2.1 =~= seq![(c, p2.0)] + p2.1);
                } else {
                    assert(out@ =~= out0 + seq![(pending0, cur_v0)]);
                    assert((out@ + seq![(c, p2.0)]) + p2.1 =~= (out0 + seq![(pending0, cur_v0)])
                        + (seq![(c, p2.0)] + p2.1));
                }
            }
        }
        t2 += 1;
    }
    proof {
        assert(rest0.subrange(plen as int, plen as int) =~= Seq::<(char, Value)>::empty());
    }
    let f2 = if closed {
        let ghost out0 = out@;
        out.push((pending, cur_v));
        proof {
            assert(out@ =~= out0 + seq![(pending, cur_v)]);
            assert((out0 + seq![(pending, cur_v)]) + Seq::<(char, Value)>::empty() =~= out@);
        }
        out_first
    } else {
        cur_v
    };
    let ghost p_res = spec_pass1(first, rest0);
    proof {
        assert(p_res == ((f2, out@)));
    }
    // Phase 5: reduce `+` and `-`, left to right.
    let ghost r2 = out@;
    let olen = out.len();
    let mut acc = f2;
    let mut u: usize = 0;
    proof {
        assert(r2.subrange(0, olen as int) =~= r2);
    }
    while u < olen
        invariant
            olen == out@.len(),
            out@ == r2,
            u <= olen,
            acc.wf(),
            forall|k: int| 0 <= k < r2.len() ==> (#[trigger] r2[k]).1.wf(),
            spec_pass2(f2, r2) == spec_pass2(acc, r2.subrange(u as int, olen as int)),
        decreases olen - u,
    {
        let ghost sub_u = r2.subrange(u as int, olen as int);
        proof {
            assert(sub_u[0] == r2[u as int]);
            assert(sub_u.subrange(1, sub_u.len() as int) =~= r2.subrange(
                u as int + 1,
                olen as int,
            ));
        }
        let (c, v) = out[u];
        if c == '*' {
            acc = acc.mul(v);
        } else if c == '/' {
            acc = acc.div(v);
        } else if c == '+' {
            acc = acc.add(v);
        } else {
            acc = acc.sub(v);
        }
        u += 1;
    }
    proof {
        assert(r2.subrange(olen as int, olen as int) =~= Seq::<(char, Value)>::empty());
        assert(spec_pass2(f2, r2) == acc);
    }
    Ok(acc)
}

/// The node a single token denotes, or an invalid-token failure at `pos`
/// for a bracket delimiter, which forms no node of its own.
pub open spec fn spec_from_token(tok: Token, pos: usize) -> Result<ParseNode, ParseError> {
    match tok {
        Token::Number(v) => Ok(ParseNode::Number(v)),
        Token::Plus => Ok(ParseNode::Operator('+')),
        Token::Minus => Ok(ParseNode::Operator('-')),
        Token::Mul => Ok(ParseNode::Operator('*')),
        Token::Div => Ok(ParseNode::Operator('/')),
        _ => Err(ParseError::InvalidToken(pos)),
    }
}

impl ParseNode {
    /// The node a single token denotes; see `spec_from_token`.
    pub fn from_token(tok: &Token, pos: &usize) -> (r: Result<ParseNode, ParseError>)
        ensures
            r == spec_from_token(*tok, *pos),
    {
        match tok {
            Token::Number(v) => Ok(ParseNode::Number(*v)),
            Token::Plus => Ok(ParseNode::Operator('+')),
            Token::Minus => Ok(ParseNode::Operator('-')),
            Token::Mul => Ok(ParseNode::Operator('*')),
            Token::Div => Ok(ParseNode::Operator('/')),
            _ => Err(ParseError::InvalidToken(*pos)),
        }
    }
}

/// The token a bracket-free node converts back to.
pub open spec fn node_to_token(n: ParseNode) -> Token {
    match n {
        ParseNode::Number(v) => Token::Number(v),
        ParseNode::Operator(c) => if c == '+' {
            Token::Plus
        } else if c == '-' {
            Token::Minus
        } else if c == '*' {
            Token::Mul
        } else {
            Token::Div
        },
        ParseNode::Bracket(_) => Token::CBrkt,
    }
}

/// Consumes a token sequence and evaluates it once asked to; holds the
/// position reached and the last successful result.
pub struct Parser {
    pub toks: Vec<Token>,
    pub pos: usize,
    pub result: Option<Value>,
}

impl Parser {
    /// A parser over `toks`, not yet run.
    pub fn from_toks(toks: Vec<Token>) -> (p: Parser)
        ensures
            p.toks@ == toks@,
            p.pos == 0,
            p.result is None,
    {
        Parser { toks, pos: 0, result: None }
    }

    /// A parser over the tokens the given nodes denote. Only number and
    /// operator nodes convert back to tokens: a group node, or an operator
    /// character outside `+ - * /`, is excluded by the precondition.
    pub fn from_nodes(nodes: Vec<ParseNode>) -> (p: Parser)
        requires
            forall|k: int|
                0 <= k < nodes@.len() ==> (match #[trigger] nodes@[k] {
                    ParseNode::Number(_) => true,
                    ParseNode::Operator(c) => c == '+' || c == '-' || c == '*' || c == '/',
                    ParseNode::Bracket(_) => false,
                }),
        ensures
            p.toks@.len() == nodes@.len(),
            forall|k: int|
                0 <= k < nodes@.len() ==> p.toks@[k] == node_to_token(#[trigger] nodes@[k]),
            p.pos == 0,
            p.result is None,
    {
        let m = nodes.len();
        let mut toks: Vec<Token> = Vec::new();
        let mut k: usize = 0;
        while k < m
            invariant
                m == nodes@.len(),
                k <= m,
                toks@.len() == k,
                forall|j: int|
                    0 <= j < nodes@.len() ==> (match #[trigger] nodes@[j] {
                        ParseNode::Number(_) => true,
                        ParseNode::Operator(c) => c == '+' || c == '-' || c == '*' || c == '/',
                        ParseNode::Bracket(_) => false,
                    }),
                forall|j: int| 0 <= j < k ==> toks@[j] == node_to_token(#[trigger] nodes@[j]),
            decreases m - k,
        {
            let t = match &nodes[k] {
                ParseNode::Number(v) => Token::Number(*v),
                ParseNode::Operator(c) => {
                    if *c == '+' {
                        Token::Plus
                    } else if *c == '-' {
                        Token::Minus
                    } else if *c == '*' {
                        Token::Mul
                    } else {
                        Token::Div
                    }
                },
                ParseNode::Bracket(_) => {
                    proof {
                        assert(false);
                    }
                    Token::CBrkt
                },
            };
            toks.push(t);
            k += 1;
        }
        Parser::from_toks(toks)
    }

    /// Evaluate the held tokens. On success the value is returned and also
    /// stored, and `pos` rests at the end of the tokens; on failure the
    /// stored result and position are unchanged.
    pub fn eval(&mut self) -> (r: Result<Value, ParseError>)
        requires
            wf_toks(old(self).toks@),
        ensures
            final(self).toks@ == old(self).toks@,
            r == spec_evaluate(old(self).toks@, 0),
            match r {
                Ok(v) => v.wf() && final(self).result == Some(v) && final(self).pos == old(
                    self,
                ).toks@.len(),
                Err(_) => final(self).result == old(self).result && final(self).pos == old(
                    self,
                ).pos,
            },
    {
        let end = self.toks.len();
        match eval_at(&self.toks, 0) {
            Ok(v) => {
                self.result = Some(v);
                self.pos = end;
                Ok(v)
            },
            Err(e) => Err(e),
        }
    }
}

/// The result of tokenizing and then evaluating a text.
pub open spec fn spec_evaluate_text(s: Seq<char>) -> Result<Value, ParseError> {
    match spec_tokenize(s) {
        Ok(ts) => spec_evaluate(ts, 0),
        Err(e) => Err(e),
    }
}

/// Tokenize and evaluate `text` in one call: the whole pipeline, as a front
/// end invokes it once per evaluation request.
pub fn evaluate_text(text: &str) -> (r: Result<Value, ParseError>)
    ensures
        r == spec_evaluate_text(text@),
        match r {
            Ok(v) => v.wf(),
            Err(_) => true,
        },
{
    let chars = str_to_chars(text);
    match tokenize_chars(&chars) {
        Ok(toks) => eval_at(&toks, 0),
        Err(e) => Err(e),
    }
}

} // verus!
