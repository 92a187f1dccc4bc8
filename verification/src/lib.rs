//! Posixfy Bridge: the decisions of a file service that acts on a filesystem
//! on behalf of Unix users, stated and proved with Verus.
pub mod api;
pub mod auth;
pub mod config;
pub mod error;
pub mod fs;
pub mod models;
pub mod text;

use vstd::prelude::*;

use crate::text::{hex16_string, hex_digits};

verus! {

/// The identifier of a request, echoed in the `X-Request-Id` header.
#[derive(Clone, Debug)]
pub struct RequestId(pub String);

/// `rand::random::<u64>()`: a random number; nothing is claimed of it.
#[verifier::external_body]
fn random_u64() -> u64 {
    rand::random::<u64>()
}

/// A fresh request identifier: sixteen lower-case hexadecimal digits of a
/// random number.
pub fn generate_request_id() -> (id: String)
    ensures
        exists|n: u64| id@ == #[trigger] hex_digits(n as nat, 16),
{
    let n = random_u64();
    hex16_string(n)
}

/// The identifier of a request: the client's own, or a fresh one.
pub fn request_id_for(header: Option<&str>) -> (id: RequestId)
    ensures
        header matches Some(h) ==> id.0@ == h@,
        header is None ==> exists|n: u64| id.0@ == #[trigger] hex_digits(n as nat, 16),
{
    match header {
        Some(h) => RequestId(String::from_str(h)),
        None => RequestId(generate_request_id()),
    }
}

} // verus!
