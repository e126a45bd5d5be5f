//! The one way in which normalization fails.

use vstd::prelude::*;
use vstd::string::StringExecFns;

verus! {

/// Why a bibliography could not be normalized.
#[derive(Debug)]
pub enum Error {
    /// The record with the key `record` refers to the key `reference`, under
    /// which the store holds no record.
    ReferenceNotFound { record: String, reference: String },
}

/// What an `Error` holds.
pub enum ErrorView {
    ReferenceNotFound { record: Seq<char>, reference: Seq<char> },
}

impl DeepView for Error {
    type V = ErrorView;

    open spec fn deep_view(&self) -> ErrorView {
        match self {
            Error::ReferenceNotFound { record, reference } => ErrorView::ReferenceNotFound {
                record: record@,
                reference: reference@,
            },
        }
    }
}

impl View for Error {
    type V = ErrorView;

    open spec fn view(&self) -> ErrorView {
        self.deep_view()
    }
}

/// The sentence that describes an error.
pub open spec fn described(error: ErrorView) -> Seq<char> {
    match error {
        ErrorView::ReferenceNotFound { record, reference } => "record `"@ + record
            + "` refers to `"@ + reference + "`, which is not in the bibliography"@,
    }
}

impl Error {
    /// A sentence that describes the error to a reader.
    pub fn message(&self) -> (text: String)
        ensures
            text@ == described(self@),
    {
        match self {
            Error::ReferenceNotFound { record, reference } => {
                let mut text = String::new();
                text.append("record `");
                text.append(record.as_str());
                text.append("` refers to `");
                text.append(reference.as_str());
                text.append("`, which is not in the bibliography");
                text
            },
        }
    }
}

} // verus!
