use calculator::lexer::{Lexer, Token, str_to_chars, tokenize_chars};
use calculator::parser::{evaluate_text, ParseError, ParseNode, Parser};
use calculator::value::Value;

fn fin(num: i64, den: i64) -> Value {
    Value::Finite { num, den }
}

fn eval(s: &str) -> Result<Value, ParseError> {
    evaluate_text(s)
}

fn approx(v: Value) -> f64 {
    match v {
        Value::Finite { num, den } => num as f64 / den as f64,
        Value::PosInf => f64::INFINITY,
        Value::NegInf => f64::NEG_INFINITY,
        Value::Nan => f64::NAN,
    }
}

#[test]
fn single_integer() {
    assert_eq!(eval("7"), Ok(fin(7, 1)));
    assert_eq!(eval("42"), Ok(fin(42, 1)));
    assert_eq!(eval("0"), Ok(fin(0, 1)));
}

#[test]
fn single_fraction() {
    assert_eq!(eval("3.25"), Ok(fin(13, 4)));
    assert_eq!(eval("0.5"), Ok(fin(1, 2)));
    assert_eq!(eval("1.50"), Ok(fin(3, 2)));
}

#[test]
fn single_signed() {
    assert_eq!(eval("-5"), Ok(fin(-5, 1)));
    assert_eq!(eval("+4.5"), Ok(fin(9, 2)));
    assert_eq!(eval("-0.25"), Ok(fin(-1, 4)));
}

#[test]
fn trailing_decimal_point_is_integer() {
    assert_eq!(eval("1."), Ok(fin(1, 1)));
}

#[test]
fn precedence_mul_before_add() {
    assert_eq!(eval("2+3*4"), Ok(fin(14, 1)));
    assert_eq!(eval("(2+3)*4"), Ok(fin(20, 1)));
}

#[test]
fn left_associative_division() {
    assert_eq!(eval("8/2/2"), Ok(fin(2, 1)));
    assert_eq!(eval("8-2-2"), Ok(fin(4, 1)));
}

#[test]
fn nested_brackets_innermost_first() {
    assert_eq!(eval("((1+2)*3)"), Ok(fin(9, 1)));
    assert_eq!(eval("((2))"), Ok(fin(2, 1)));
}

#[test]
fn unary_minus() {
    assert_eq!(eval("-5+3"), Ok(fin(-2, 1)));
    assert_eq!(eval("(-5)*2"), Ok(fin(-10, 1)));
}

#[test]
fn unclosed_bracket_reports_open_position() {
    assert_eq!(eval("(1+2"), Err(ParseError::UnclosedBracket(0)));
    // In "1+(2*2" the open bracket is the third token.
    assert_eq!(eval("1+(2*2"), Err(ParseError::UnclosedBracket(2)));
}

#[test]
fn invalid_character_reports_char_position() {
    assert_eq!(eval("1+a"), Err(ParseError::InvalidToken(2)));
    assert_eq!(eval("x"), Err(ParseError::InvalidToken(0)));
    assert_eq!(eval("1+2%"), Err(ParseError::InvalidToken(3)));
}

#[test]
fn division_by_zero_is_infinity() {
    assert_eq!(eval("1/0"), Ok(Value::PosInf));
    assert_eq!(eval("-1/0"), Ok(Value::NegInf));
    assert_eq!(eval("0/0"), Ok(Value::Nan));
    assert!(approx(eval("1/0").unwrap()).is_infinite());
}

#[test]
fn identical_input_identical_result() {
    let a = eval("12.5*(3-1)/4");
    let b = eval("12.5*(3-1)/4");
    assert_eq!(a, b);
    assert_eq!(a, Ok(fin(25, 4)));
}

#[test]
fn whitespace_is_skipped() {
    assert_eq!(eval(" 1 +\t2 \n"), Ok(fin(3, 1)));
}

#[test]
fn empty_input_is_rejected() {
    assert_eq!(eval(""), Err(ParseError::InvalidToken(0)));
    assert_eq!(eval("   "), Err(ParseError::InvalidToken(0)));
}

#[test]
fn empty_brackets_are_rejected() {
    assert_eq!(eval("()"), Err(ParseError::InvalidToken(1)));
}

#[test]
fn adjacent_numbers_are_rejected() {
    // No implicit multiplication: the second numeral is the invalid token.
    assert_eq!(eval("2 3"), Err(ParseError::InvalidToken(1)));
}

#[test]
fn adjacent_operators_are_rejected() {
    assert_eq!(eval("1++2"), Err(ParseError::UnexpectedEndOfInput(1)));
    assert_eq!(eval("2*-5"), Err(ParseError::UnexpectedEndOfInput(1)));
}

#[test]
fn trailing_operator_is_rejected() {
    assert_eq!(eval("1+"), Err(ParseError::UnexpectedEndOfInput(1)));
}

#[test]
fn leading_mul_div_is_rejected() {
    assert_eq!(eval("*1"), Err(ParseError::UnexpectedEndOfInput(0)));
}

#[test]
fn stray_close_bracket_is_rejected() {
    assert_eq!(eval(")"), Err(ParseError::InvalidToken(0)));
    assert_eq!(eval("1+2)"), Err(ParseError::InvalidToken(3)));
}

#[test]
fn second_decimal_point_is_rejected() {
    assert_eq!(eval("1.2.3"), Err(ParseError::InvalidToken(3)));
    assert_eq!(eval("1..2"), Err(ParseError::InvalidToken(2)));
    assert_eq!(eval(".5"), Err(ParseError::InvalidToken(0)));
}

#[test]
fn deep_fraction_is_kept_to_the_cap() {
    // The digit at the eighteenth place is kept exactly.
    assert_eq!(eval("0.000000000000000005"), Ok(fin(1, 200000000000000000)));
    // Finer digits are dropped, as a double-precision parse would round.
    assert_eq!(eval("0.0000000000000000005"), Ok(fin(0, 1)));
}

#[test]
fn component_overflow_saturates() {
    // 9223372036854775807 is the largest component; doubling it overflows
    // to the positive infinity, as floating point overflows.
    assert_eq!(
        eval("9223372036854775807+9223372036854775807"),
        Ok(Value::PosInf)
    );
}

#[test]
fn value_arithmetic_saturation() {
    let big = fin(i64::MAX, 1);
    assert_eq!(big.add(big), Value::PosInf);
    assert_eq!(big.neg().sub(big), Value::NegInf);
    let tiny = fin(1, i64::MAX);
    assert_eq!(tiny.mul(tiny), fin(0, 1));
}

#[test]
fn value_arithmetic_reduces() {
    assert_eq!(fin(1, 2).add(fin(1, 2)), fin(1, 1));
    assert_eq!(fin(2, 4).mul(fin(2, 1)), fin(1, 1));
    assert_eq!(fin(1, 3).div(fin(1, 3)), fin(1, 1));
    assert_eq!(fin(5, 10).sub(fin(1, 2)), fin(0, 1));
}

#[test]
fn lexer_produces_tokens() {
    let mut lexer = Lexer::from_string(String::from("2+30.5*(4)"));
    assert_eq!(lexer.lex(), Ok(()));
    assert_eq!(
        lexer.toks,
        vec![
            Token::Number(fin(2, 1)),
            Token::Plus,
            Token::Number(fin(61, 2)),
            Token::Mul,
            Token::OBrkt,
            Token::Number(fin(4, 1)),
            Token::CBrkt,
        ]
    );
}

#[test]
fn lexer_rejects_invalid_character() {
    let mut lexer = Lexer::from_string(String::from("2+q"));
    assert_eq!(lexer.lex(), Err(ParseError::InvalidToken(2)));
    assert!(lexer.toks.is_empty());
}

#[test]
fn tokenize_chars_matches_lexer() {
    let chars = str_to_chars("1-2");
    let toks = tokenize_chars(&chars).unwrap();
    assert_eq!(
        toks,
        vec![Token::Number(fin(1, 1)), Token::Minus, Token::Number(fin(2, 1))]
    );
}

#[test]
fn parse_node_from_token() {
    let pos = 3usize;
    assert!(matches!(
        ParseNode::from_token(&Token::Number(fin(2, 1)), &pos),
        Ok(ParseNode::Number(_))
    ));
    assert!(matches!(
        ParseNode::from_token(&Token::Mul, &pos),
        Ok(ParseNode::Operator('*'))
    ));
    assert_eq!(
        ParseNode::from_token(&Token::OBrkt, &pos).unwrap_err(),
        ParseError::InvalidToken(3)
    );
    assert_eq!(
        ParseNode::from_token(&Token::CBrkt, &pos).unwrap_err(),
        ParseError::InvalidToken(3)
    );
}

#[test]
fn parser_eval_stores_result() {
    let chars = str_to_chars("2+3*4");
    let toks = tokenize_chars(&chars).unwrap();
    let n: usize = toks.len();
    let mut parser = Parser::from_toks(toks);
    assert_eq!(parser.pos, 0);
    assert_eq!(parser.result, None);
    assert_eq!(parser.eval(), Ok(fin(14, 1)));
    assert_eq!(parser.result, Some(fin(14, 1)));
    assert_eq!(parser.pos, n);
}

#[test]
fn parser_eval_error_leaves_state() {
    let chars = str_to_chars("2+");
    let toks = tokenize_chars(&chars).unwrap();
    let mut parser = Parser::from_toks(toks);
    assert_eq!(parser.eval(), Err(ParseError::UnexpectedEndOfInput(1)));
    assert_eq!(parser.result, None);
    assert_eq!(parser.pos, 0);
}

#[test]
fn parser_from_nodes_round_trip() {
    let nodes = vec![
        ParseNode::Number(fin(2, 1)),
        ParseNode::Operator('+'),
        ParseNode::Number(fin(3, 1)),
    ];
    let mut parser = Parser::from_nodes(nodes);
    assert_eq!(parser.eval(), Ok(fin(5, 1)));
}

#[test]
fn mixed_expression() {
    assert_eq!(eval("1.5*4-2/4"), Ok(fin(11, 2)));
    assert_eq!(eval("10/4"), Ok(fin(5, 2)));
    assert_eq!(eval("-(1+2)"), Ok(fin(-3, 1)));
    assert_eq!(eval("0-(1+2)"), Ok(fin(-3, 1)));
}
