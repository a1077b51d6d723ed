use vstd::prelude::*;

verus! {

/// The error kinds a store or parser operation can report.
///
/// Every variant carries a human-readable message; `message` hands it back
/// for display at the boundary.
#[derive(Debug, Clone)]
pub enum AppError {
    /// A domain rule was violated (for example a start date that is not a
    /// valid `YYYY-MM-DD` calendar date).
    Business(String),
    /// A referenced id does not exist.
    NotFound(String),
    /// Markdown plan text contained no day entries.
    MarkdownParse(String),
}

impl AppError {
    /// The human-readable message carried by this error.
    pub fn message(&self) -> (r: String)
        ensures
            r@ == self.message_spec(),
    {
        match self {
            AppError::Business(m) => m.clone(),
            AppError::NotFound(m) => m.clone(),
            AppError::MarkdownParse(m) => m.clone(),
        }
    }

    pub open spec fn message_spec(&self) -> Seq<char> {
        match self {
            AppError::Business(m) => m@,
            AppError::NotFound(m) => m@,
            AppError::MarkdownParse(m) => m@,
        }
    }
}

pub type AppResult<T> = Result<T, AppError>;

} // verus!
