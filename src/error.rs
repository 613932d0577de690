//! The errors that the library's operations return.

use vstd::prelude::*;

verus! {

/// Why an operation failed.
#[derive(Debug)]
pub enum MangaError {
    /// A failure inside the library or its storage.
    InternalError { msg: String },
    /// A transport failure while talking to a remote source.
    NetworkError { msg: String },
    /// The storage's schema is not current: nothing else may run.
    MigrateError { msg: String },
    /// A remote response did not have the expected structure.
    ParseError { msg: String },
    /// No registered source handles the address.
    NoHandlerForAddress { url: String },
    /// The address names no title that was opened before.
    UnknownTitle { url: String },
    /// A chapter label holds no number to order it by.
    MalformedChapterLabel { label: String },
}

impl MangaError {
    pub fn copy(&self) -> (r: MangaError)
        ensures
            r == *self,
    {
        match self {
            MangaError::InternalError { msg } => MangaError::InternalError { msg: msg.clone() },
            MangaError::NetworkError { msg } => MangaError::NetworkError { msg: msg.clone() },
            MangaError::MigrateError { msg } => MangaError::MigrateError { msg: msg.clone() },
            MangaError::ParseError { msg } => MangaError::ParseError { msg: msg.clone() },
            MangaError::NoHandlerForAddress { url } => MangaError::NoHandlerForAddress {
                url: url.clone(),
            },
            MangaError::UnknownTitle { url } => MangaError::UnknownTitle { url: url.clone() },
            MangaError::MalformedChapterLabel { label } => MangaError::MalformedChapterLabel {
                label: label.clone(),
            },
        }
    }
}

} // verus!
