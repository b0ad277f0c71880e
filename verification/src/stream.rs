//! Stream codes: coders that compress a sequence of symbols into a
//! sequence of words, one entropy model per symbol.

use vstd::prelude::*;

pub mod chain;
pub mod models;
pub mod queue;
pub mod queue_round_trip;
pub mod stack;

verus! {

/// The error of a coder that works on a backend: the coder's own error, or
/// the error of the backend.
#[derive(Debug, Clone, PartialEq, Eq)]
pub enum CoderError<FrontendError, BackendError> {
    FrontendError(FrontendError),
    BackendError(BackendError),
}

/// The error of a batch of coding steps whose entropy models are made on
/// the way: a coding step failed, or a model could not be made.
#[derive(Debug, Clone, PartialEq, Eq)]
pub enum TryCodingError<CodingError, ModelError> {
    CodingError(CodingError),
    InvalidEntropyModel(ModelError),
}

/// The error of an encoder that was handed a symbol it cannot encode.
#[derive(Debug, Clone, Copy, PartialEq, Eq)]
pub enum EncoderFrontendError {
    /// The model gives the symbol the probability zero.
    ImpossibleSymbol,
}

impl EncoderFrontendError {
    /// The error in words.
    pub fn message(&self) -> (text: String)
        ensures
            text@ == "Tried to encode symbol that has zero probability under the used entropy model."@,
    {
        "Tried to encode symbol that has zero probability under the used entropy model.".to_string()
    }
}

} // verus!
