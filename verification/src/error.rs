//! API errors: every failure reaches the client as a sentence, with the
//! status that says what kind of failure it was.
use vstd::prelude::*;

verus! {

/// Why a request failed.
pub enum ApiError {
    /// The request itself is wrong; the sentence says how.
    BadRequest(String),
    /// The request was fine and the store has nothing yet: the fix is an
    /// ingest, not a different call.
    NoData(String),
    /// No such run, market or resource.
    NotFound(String),
    /// The resource exists already, or the request names more than one.
    Conflict(String),
    /// Something on this side failed.
    Internal(String),
}

impl ApiError {
    /// The HTTP status this error answers with.
    pub fn status(&self) -> (code: u16)
        ensures
            code == match self {
                ApiError::BadRequest(_) => 400u16,
                ApiError::NoData(_) | ApiError::NotFound(_) => 404u16,
                ApiError::Conflict(_) => 409u16,
                ApiError::Internal(_) => 500u16,
            },
    {
        match self {
            ApiError::BadRequest(_) => 400,
            ApiError::NoData(_) | ApiError::NotFound(_) => 404,
            ApiError::Conflict(_) => 409,
            ApiError::Internal(_) => 500,
        }
    }

    /// The sentence the client shows.
    pub fn message(&self) -> (m: &String)
        ensures
            *m == match self {
                ApiError::BadRequest(s) => *s,
                ApiError::NoData(s) => *s,
                ApiError::NotFound(s) => *s,
                ApiError::Conflict(s) => *s,
                ApiError::Internal(s) => *s,
            },
    {
        match self {
            ApiError::BadRequest(s) => s,
            ApiError::NoData(s) => s,
            ApiError::NotFound(s) => s,
            ApiError::Conflict(s) => s,
            ApiError::Internal(s) => s,
        }
    }
}

} // verus!
