//! The calculator's interaction core: the state a front end drives, and
//! the transition applied for each user action. Widgets, styling and event
//! delivery belong to the front end; it calls `update` once per action and
//! renders the resulting state.

use vstd::prelude::*;
use vstd::string::*;
use crate::lexer::{str_to_chars, tokenize_chars};
use crate::parser::{ParseError, Parser, spec_evaluate_text};
use crate::value::{Value, spec_zero};

verus! {

/// A user action delivered by the front end.
#[derive(Debug, Clone)]
pub enum Message {
    InputChanged(String),
    AddInput(char),
    DeleteLast,
    ClearInput,
    Evaluate,
}

/// The calculator's state: the accumulated input, and what the last
/// evaluation produced. Formatting a value or an error for display is the
/// front end's concern, so both are kept as values, not text.
pub struct App {
    pub input_value: Vec<char>,
    pub output_value: Option<Value>,
    pub error_message: Option<ParseError>,
}

/// The output field after the empty-input reset that precedes every
/// action: an empty input shows zero.
pub open spec fn base_output(a: App) -> Option<Value> {
    if a.input_value@.len() == 0 {
        Some(spec_zero())
    } else {
        a.output_value
    }
}

/// The error field after the empty-input reset that precedes every action.
pub open spec fn base_error(a: App) -> Option<ParseError> {
    if a.input_value@.len() == 0 {
        None
    } else {
        a.error_message
    }
}

impl Default for App {
    /// An empty calculator: no input, nothing computed yet.
    fn default() -> (a: App)
        ensures
            a.input_value@ == Seq::<char>::empty(),
            a.output_value is None,
            a.error_message is None,
    {
        App { input_value: Vec::new(), output_value: None, error_message: None }
    }
}

/// How one action transforms the state: the transition `update` applies.
pub open spec fn update_spec(pre: App, message: Message, post: App) -> bool {
    match message {
        Message::InputChanged(value) => post.input_value@ == value@ && post.output_value
            == base_output(pre) && post.error_message == base_error(pre),
        Message::AddInput(c) => post.input_value@ == pre.input_value@.push(c) && post.output_value
            == base_output(pre) && post.error_message == base_error(pre),
        Message::DeleteLast => post.input_value@ == (if pre.input_value@.len() == 0 {
            pre.input_value@
        } else {
            pre.input_value@.drop_last()
        }) && post.output_value == base_output(pre) && post.error_message == base_error(pre),
        Message::ClearInput => post.input_value@ == Seq::<char>::empty() && post.output_value
            == base_output(pre) && post.error_message == base_error(pre),
        Message::Evaluate => post.input_value@ == pre.input_value@ && (match spec_evaluate_text(
            pre.input_value@,
        ) {
            Ok(v) => post.output_value == Some(v) && post.error_message == base_error(pre),
            Err(e) => post.error_message == Some(e) && post.output_value == base_output(pre),
        }),
    }
}

impl App {
    /// Apply one user action. An empty input first resets the display to
    /// zero with no error; then the action edits the input buffer, or, for
    /// an evaluation request, runs the pipeline over the buffer and stores
    /// the value on success or the error on failure, leaving the other
    /// field as it was.
    pub fn update(&mut self, message: Message)
        ensures
            update_spec(*old(self), message, *final(self)),
    {
        if self.input_value.len() == 0 {
            self.output_value = Some(Value::zero());
            self.error_message = None;
        }
        match message {
            Message::InputChanged(value) => {
                let chars = str_to_chars(value.as_str());
                self.input_value = chars;
            },
            Message::AddInput(c) => {
                self.input_value.push(c);
            },
            Message::ClearInput => {
                self.input_value = Vec::new();
            },
            Message::DeleteLast => {
                if self.input_value.len() > 0 {
                    let _popped = self.input_value.pop();
                }
            },
            Message::Evaluate => {
                match tokenize_chars(&self.input_value) {
                    Ok(toks) => {
                        let mut parser = Parser::from_toks(toks);
                        match parser.eval() {
                            Ok(v) => {
                                self.output_value = Some(v);
                            },
                            Err(e) => {
                                self.error_message = Some(e);
                            },
                        }
                    },
                    Err(e) => {
                        self.error_message = Some(e);
                    },
                }
            },
        }
    }
}

} // verus!
