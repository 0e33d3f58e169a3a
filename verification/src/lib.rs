//! An interactive text-entry predictor: a context-chain model maps recent
//! input history to weighted candidate continuations, and a line-editing
//! state machine consumes key events, maintains the edit buffer, and decides
//! when to display or commit a prediction.

use vstd::prelude::*;

pub mod chain;
pub mod editor;
pub mod predict;
pub mod text;

verus! {

/// A single prediction produced by a query.
///
/// `Word` means "append this token as a new word"; `Partial` means "append
/// these characters to complete the word currently being typed."
pub enum Prediction {
    Word(String),
    Partial(String),
}

impl Prediction {
    /// Spec-level shape of a prediction: `true` for a partial completion,
    /// paired with the characters of the carried token.
    pub open spec fn model(&self) -> (bool, Seq<char>) {
        match self {
            Prediction::Word(t) => (false, t@),
            Prediction::Partial(t) => (true, t@),
        }
    }
}

} // verus!
