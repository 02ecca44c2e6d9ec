//! What can go wrong in the library.

use vstd::prelude::*;
use vstd::string::StringExecFns;

verus! {

/// An error of the knowledge store.
#[derive(Debug)]
pub enum KnowledgeError {
    /// The store could not hold or hand out a value. The text says why.
    DatabaseError(String),
    /// The store could not be brought to its present layout. The text says
    /// why.
    MigrationError(String),
    /// The analyzer could not be reached, ended with a failure, or answered
    /// with bytes that are no text.
    TokenizeError,
}

/// What an operation of the store gives back.
pub type KnowledgeResult<T> = Result<T, KnowledgeError>;

impl KnowledgeError {
    /// The text of `message`.
    pub open spec fn message_text(&self) -> Seq<char> {
        match self {
            KnowledgeError::DatabaseError(detail) => "Database error! Error: "@ + detail@,
            KnowledgeError::MigrationError(detail) => "Migration error! Error: "@ + detail@,
            KnowledgeError::TokenizeError => "Error tokenizing sentence!"@,
        }
    }

    /// The error in words, for a reader.
    pub fn message(&self) -> (text: String)
        ensures
            text@ == self.message_text(),
    {
        match self {
            KnowledgeError::DatabaseError(detail) => {
                let mut text: String = "Database error! Error: ".to_owned();
                text.append(detail.as_str());
                text
            },
            KnowledgeError::MigrationError(detail) => {
                let mut text: String = "Migration error! Error: ".to_owned();
                text.append(detail.as_str());
                text
            },
            KnowledgeError::TokenizeError => "Error tokenizing sentence!".to_owned(),
        }
    }
}

} // verus!
