//! What can go wrong while a passphrase is made and handed over.

use vstd::prelude::*;

verus! {

/// A failure, with a sentence that says what failed.
#[derive(Debug)]
pub enum PassphraseError {
    /// The word list is missing, unreadable or empty.
    InitializationError(String),
    /// The request cannot be met by any passphrase.
    GenerationError(String),
    /// The passphrase could not be handed over.
    OutputError(String),
}

impl PassphraseError {
    /// The words that introduce a failure of this kind.
    pub open spec fn heading(&self) -> Seq<char> {
        match self {
            PassphraseError::InitializationError(_) => "Initialization error: "@,
            PassphraseError::GenerationError(_) => "Generation error: "@,
            PassphraseError::OutputError(_) => "Output error: "@,
        }
    }

    /// The sentence carried by the failure.
    pub open spec fn detail(&self) -> Seq<char> {
        match self {
            PassphraseError::InitializationError(m) => m@,
            PassphraseError::GenerationError(m) => m@,
            PassphraseError::OutputError(m) => m@,
        }
    }

    /// The failure as one line of text: its heading, then its sentence.
    pub fn message(&self) -> (out: String)
        ensures
            out@ == self.heading() + self.detail(),
    {
        match self {
            PassphraseError::InitializationError(m) => {
                String::from_str("Initialization error: ").concat(m.as_str())
            },
            PassphraseError::GenerationError(m) => {
                String::from_str("Generation error: ").concat(m.as_str())
            },
            PassphraseError::OutputError(m) => {
                String::from_str("Output error: ").concat(m.as_str())
            },
        }
    }
}

} // verus!
