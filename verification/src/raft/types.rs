//! Results of applied commands.

use vstd::prelude::*;

use crate::text::{decimal_text, flag_text};
use crate::text::{decimal, flag_string, join3};

verus! {

/// Result of applying a command.
#[derive(Clone, Copy, Debug, PartialEq, Eq, Structural)]
pub enum LogResponse {
    /// A delta was appended; the tip after it.
    Appended(u64),
    /// The command completed.
    Done,
    /// A reference was dropped; whether that tombstoned the chunk.
    DecrementOutcome(bool),
}

/// The text of a response.
pub open spec fn response_text(r: LogResponse) -> Seq<char> {
    match r {
        LogResponse::Appended(seq) => "Appended("@ + decimal_text(seq as nat) + ")"@,
        LogResponse::Done => "Ok"@,
        LogResponse::DecrementOutcome(t) => "DecrementOutcome("@ + flag_text(t) + ")"@,
    }
}

impl LogResponse {
    /// Writes a response.
    pub fn message(&self) -> (r: String)
        ensures
            r@ == response_text(*self),
    {
        match self {
            LogResponse::Appended(seq) => join3("Appended(", decimal(*seq).as_str(), ")"),
            LogResponse::Done => "Ok".to_owned(),
            LogResponse::DecrementOutcome(t) => join3(
                "DecrementOutcome(",
                flag_string(*t).as_str(),
                ")",
            ),
        }
    }
}

} // verus!
