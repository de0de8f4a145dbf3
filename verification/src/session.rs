//! Per-variable editing state kept by a driver between sessions: the
//! expression text, the toggles and the title as shown, and the message of
//! the last parse attempt.

use vstd::prelude::*;

verus! {

/// The editable state of one variable's card.
#[derive(Debug)]
pub struct Card {
    /// The cluster expression as typed.
    pub expression: String,
    /// Whether the variable is included in the output.
    pub is_included: bool,
    /// Whether the variable is read as numeric.
    pub is_numeric: bool,
    /// The title as shown, editable.
    pub title: String,
    /// Message of the last expression parse, empty when it succeeded.
    pub message: String,
}

impl Card {
    /// A fresh card: included, textual, titled with the variable's name,
    /// with no expression and no message.
    pub fn new(name: &str) -> (r: Card)
        ensures
            r.expression@.len() == 0,
            r.is_included,
            !r.is_numeric,
            r.title@ == name@,
            r.message@.len() == 0,
    {
        Card {
            expression: String::new(),
            is_included: true,
            is_numeric: false,
            title: name.to_owned(),
            message: String::new(),
        }
    }
}

} // verus!
