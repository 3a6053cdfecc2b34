//! The failures that survey queries and dataset assembly can report.

use vstd::prelude::*;

use crate::text::usize_to_string;

verus! {

/// Every operation returns a typed result; malformed *data values*
/// (blank or `"NA"` answers) are silently filtered and never an error,
/// while invalid *arguments* surface as one of these.
#[derive(Debug)]
pub enum SurveyError {
    /// The given question id is not present in the registry.
    QuestionNotFound(usize),
    /// The operation was asked of a question kind it does not support;
    /// kept for kinds a future schema may add, every current kind has
    /// frequency semantics.
    InvalidQuestionType,
    /// Reserved for callers that validate an option strictly; the core
    /// treats a zero-match subset as a valid empty result, not an error.
    OptionNotFound(String),
    /// The raw table was malformed, e.g. it had no header row.
    DataParsingError(String),
    /// The raw table held no respondent rows.
    EmptyDataset,
}

impl SurveyError {
    /// A short human-readable description of the failure. The wording
    /// is presentation, not contract.
    pub fn message(&self) -> (r: String)
        ensures
            r@.len() > 0,
    {
        proof {
            reveal_strlit("Question not found with ID: ");
            reveal_strlit("Invalid question type for operation");
            reveal_strlit("Option not found: ");
            reveal_strlit("Data parsing error: ");
            reveal_strlit("Empty dataset");
        }
        match self {
            SurveyError::QuestionNotFound(id) => {
                let mut s = String::from_str("Question not found with ID: ");
                s.append(usize_to_string(*id).as_str());
                s
            },
            SurveyError::InvalidQuestionType => String::from_str(
                "Invalid question type for operation",
            ),
            SurveyError::OptionNotFound(option) => {
                let mut s = String::from_str("Option not found: ");
                s.append(option.as_str());
                s
            },
            SurveyError::DataParsingError(message) => {
                let mut s = String::from_str("Data parsing error: ");
                s.append(message.as_str());
                s
            },
            SurveyError::EmptyDataset => String::from_str("Empty dataset"),
        }
    }
}

} // verus!
