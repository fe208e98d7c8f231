//! Error kinds of the analysis pipeline.
//!
//! Each kind is terminal for the series being processed: the caller gets no
//! partial result. Transport failures of the fetch layer are classified by
//! that layer into [`BlsError::Api`] before they reach verified code.

use vstd::prelude::*;
use vstd::string::StringExecFns;

verus! {

/// What went wrong while fetching or analysing one series.
#[derive(Debug)]
pub enum BlsError {
    /// The upstream service reported a non-success status; holds its message.
    Api(String),
    /// An observation's token or value could not be read; holds the raw text.
    InvalidInput(String),
    /// The series came back with no observations; holds the series identifier.
    NoData(String),
}

/// Mathematical image of a [`BlsError`]: the same three kinds over
/// character sequences.
pub enum ErrorView {
    Api(Seq<char>),
    InvalidInput(Seq<char>),
    NoData(Seq<char>),
}

impl View for BlsError {
    type V = ErrorView;

    open spec fn view(&self) -> ErrorView {
        match self {
            BlsError::Api(m) => ErrorView::Api(m@),
            BlsError::InvalidInput(m) => ErrorView::InvalidInput(m@),
            BlsError::NoData(m) => ErrorView::NoData(m@),
        }
    }
}

/// The human-readable description of an error.
pub open spec fn error_message_spec(e: ErrorView) -> Seq<char> {
    match e {
        ErrorView::Api(m) => "BLS API error: "@ + m,
        ErrorView::InvalidInput(m) => "Invalid input: "@ + m,
        ErrorView::NoData(m) => "No data returned for series "@ + m,
    }
}

impl BlsError {
    /// Renders the error for display.
    pub fn message(&self) -> (r: String)
        ensures
            r@ == error_message_spec(self@),
    {
        match self {
            BlsError::Api(m) => {
                let mut s = String::from_str("BLS API error: ");
                s.append(m.as_str());
                s
            }
            BlsError::InvalidInput(m) => {
                let mut s = String::from_str("Invalid input: ");
                s.append(m.as_str());
                s
            }
            BlsError::NoData(m) => {
                let mut s = String::from_str("No data returned for series ");
                s.append(m.as_str());
                s
            }
        }
    }
}

} // verus!
