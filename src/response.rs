//! The failures that authentication and the flows behind it report, and the
//! structured response each one is turned into.
use vstd::prelude::*;

verus! {

#[derive(Clone, Copy, Debug, PartialEq, Eq)]
pub enum Failure {
    /// Missing, invalid or expired token; the cause is not told apart.
    Unauthenticated,
    /// Unknown email or wrong password; the two are not told apart.
    InvalidCredentials,
    /// Registration or post input of the wrong shape or length.
    ValidationFailed,
    /// An account with that email exists already.
    Conflict,
    /// No such record within the caller's reach.
    NotFound,
    /// The store or the signer could not do its part.
    StoreUnavailable,
}

/// A failure as the caller sees it: a status code and a JSON body.
#[derive(Clone, Debug, PartialEq, Eq)]
pub struct FailureResponse {
    pub status: u16,
    pub body: String,
}

pub open spec fn failure_status(f: Failure) -> u16 {
    match f {
        Failure::Unauthenticated => 401,
        Failure::InvalidCredentials => 401,
        Failure::ValidationFailed => 400,
        Failure::Conflict => 409,
        Failure::NotFound => 404,
        Failure::StoreUnavailable => 500,
    }
}

pub open spec fn failure_body(f: Failure) -> Seq<char> {
    match f {
        Failure::Unauthenticated => "{\"status\":\"fail\",\"message\":\"unauthorized\"}"@,
        Failure::InvalidCredentials => "{\"status\":\"fail\",\"message\":\"invalid email or password\"}"@,
        Failure::ValidationFailed => "{\"status\":\"fail\",\"message\":\"invalid input\"}"@,
        Failure::Conflict => "{\"status\":\"fail\",\"message\":\"user with that email already exists\"}"@,
        Failure::NotFound => "{\"status\":\"fail\",\"message\":\"data not found\"}"@,
        Failure::StoreUnavailable => "{\"status\":\"error\",\"message\":\"something went wrong\"}"@,
    }
}

impl Failure {
    /// The response that reports this failure.
    pub fn respond(self) -> (r: FailureResponse)
        ensures
            r.status == failure_status(self),
            r.body@ == failure_body(self),
    {
        let body: &str = match self {
            Failure::Unauthenticated => "{\"status\":\"fail\",\"message\":\"unauthorized\"}",
            Failure::InvalidCredentials => "{\"status\":\"fail\",\"message\":\"invalid email or password\"}",
            Failure::ValidationFailed => "{\"status\":\"fail\",\"message\":\"invalid input\"}",
            Failure::Conflict => "{\"status\":\"fail\",\"message\":\"user with that email already exists\"}",
            Failure::NotFound => "{\"status\":\"fail\",\"message\":\"data not found\"}",
            Failure::StoreUnavailable => "{\"status\":\"error\",\"message\":\"something went wrong\"}",
        };
        let status: u16 = match self {
            Failure::Unauthenticated => 401,
            Failure::InvalidCredentials => 401,
            Failure::ValidationFailed => 400,
            Failure::Conflict => 409,
            Failure::NotFound => 404,
            Failure::StoreUnavailable => 500,
        };
        FailureResponse { status, body: body.to_string() }
    }
}

} // verus!
