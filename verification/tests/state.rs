use calculator::parser::{evaluate_text, ParseError};
use calculator::ui::{App, Message};
use calculator::value::Value;

fn fin(num: i64, den: i64) -> Value {
    Value::Finite { num, den }
}

fn typed(text: &str) -> App {
    let mut app = App::default();
    for c in text.chars() {
        app.update(Message::AddInput(c));
    }
    app
}

#[test]
fn default_state_is_empty() {
    let app = App::default();
    assert!(app.input_value.is_empty());
    assert_eq!(app.output_value, None);
    assert_eq!(app.error_message, None);
}

#[test]
fn add_input_accumulates() {
    let app = typed("1+2");
    assert_eq!(app.input_value, vec!['1', '+', '2']);
}

#[test]
fn evaluate_stores_value() {
    let mut app = typed("1+2*3");
    app.update(Message::Evaluate);
    assert_eq!(app.output_value, Some(fin(7, 1)));
    assert_eq!(app.error_message, None);
}

#[test]
fn evaluate_stores_error() {
    let mut app = typed("1+a");
    app.update(Message::Evaluate);
    assert_eq!(app.error_message, Some(ParseError::InvalidToken(2)));
}

#[test]
fn evaluate_on_empty_input() {
    // The empty-input reset shows zero first; evaluating the empty buffer
    // then reports the failure.
    let mut app = App::default();
    app.update(Message::Evaluate);
    assert_eq!(app.output_value, Some(fin(0, 1)));
    assert_eq!(app.error_message, Some(ParseError::InvalidToken(0)));
}

#[test]
fn clear_input_empties_the_buffer() {
    let mut app = typed("123");
    app.update(Message::ClearInput);
    assert!(app.input_value.is_empty());
}

#[test]
fn delete_last_removes_one_character() {
    let mut app = typed("12+");
    app.update(Message::DeleteLast);
    assert_eq!(app.input_value, vec!['1', '2']);
    let mut empty = App::default();
    empty.update(Message::DeleteLast);
    assert!(empty.input_value.is_empty());
}

#[test]
fn input_changed_replaces_the_buffer() {
    let mut app = typed("999");
    app.update(Message::InputChanged(String::from("4*4")));
    assert_eq!(app.input_value, vec!['4', '*', '4']);
    app.update(Message::Evaluate);
    assert_eq!(app.output_value, Some(fin(16, 1)));
}

#[test]
fn error_messages_render() {
    assert_eq!(
        ParseError::InvalidToken(5).message(),
        "Invalid token at position 5"
    );
    assert_eq!(
        ParseError::UnclosedBracket(0).message(),
        "Unclosed bracket at position 0"
    );
    assert_eq!(
        ParseError::UnexpectedEndOfInput(12).message(),
        "Expected Token after 12 but found end of input"
    );
    assert_eq!(
        ParseError::InvalidToken(1234567890).message(),
        "Invalid token at position 1234567890"
    );
}

// A reference evaluation for synthesized expression trees, in double
// precision, against which the engine's exact result is compared.
enum Expr {
    Num(i64),
    Bin(Box<Expr>, char, Box<Expr>),
}

fn render(e: &Expr) -> String {
    match e {
        Expr::Num(n) => n.to_string(),
        Expr::Bin(l, c, r) => format!("({}{}{})", render(l), c, render(r)),
    }
}

fn reference(e: &Expr) -> f64 {
    match e {
        Expr::Num(n) => *n as f64,
        Expr::Bin(l, c, r) => {
            let a = reference(l);
            let b = reference(r);
            match c {
                '+' => a + b,
                '-' => a - b,
                '*' => a * b,
                _ => a / b,
            }
        }
    }
}

fn approx(v: Value) -> f64 {
    match v {
        Value::Finite { num, den } => num as f64 / den as f64,
        Value::PosInf => f64::INFINITY,
        Value::NegInf => f64::NEG_INFINITY,
        Value::Nan => f64::NAN,
    }
}

struct Lcg(u64);

impl Lcg {
    fn next(&mut self) -> u64 {
        self.0 = self
            .0
            .wrapping_mul(6364136223846793005)
            .wrapping_add(1442695040888963407);
        self.0 >> 33
    }
}

fn random_tree(rng: &mut Lcg, depth: u32) -> Expr {
    if depth == 0 || rng.next() % 3 == 0 {
        Expr::Num((rng.next() % 9) as i64 + 1)
    } else {
        let ops = ['+', '-', '*', '/'];
        let c = ops[(rng.next() % 4) as usize];
        Expr::Bin(
            Box::new(random_tree(rng, depth - 1)),
            c,
            Box::new(random_tree(rng, depth - 1)),
        )
    }
}

#[test]
fn synthesized_trees_match_reference() {
    let mut rng = Lcg(42);
    let mut checked: u32 = 0;
    while checked < 25 {
        let tree = random_tree(&mut rng, 3);
        let expected = reference(&tree);
        if !expected.is_finite() {
            continue;
        }
        let text = render(&tree);
        let got = approx(evaluate_text(&text).unwrap());
        assert!(
            (got - expected).abs() <= 1e-9 * expected.abs().max(1.0),
            "tree {} gave {} but the reference gives {}",
            text,
            got,
            expected
        );
        checked += 1;
    }
}
