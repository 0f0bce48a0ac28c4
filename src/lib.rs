//! Stateless authentication for a small blogging service: signed session
//! tokens, the request check that verifies them, credential issuance,
//! and the owner-scoped post operations that require authentication.
use vstd::prelude::*;

pub mod text;
pub mod escape;
pub mod claim;
pub mod codec;
pub mod response;
pub mod auth;
pub mod session;
pub mod post;

verus! {

} // verus!
