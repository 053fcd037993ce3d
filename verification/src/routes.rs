//! The request-handling decisions of the HTTP layer that Verus can check:
//! whether a request's authorization header carries the configured key.
//! The transport itself belongs to the embedding program.

use vstd::prelude::*;

use crate::ascii_bytes;

verus! {

/// Witness that a request carried the configured key: produced only when
/// the authorization header is exactly `Bearer ` followed by the key.
#[derive(Debug, Clone, Copy, PartialEq, Eq)]
pub struct Authenticated;

/// An error body for a failed database query.
#[derive(Debug, Clone, PartialEq, Eq)]
pub struct DBError {
    pub err: String,
}

/// Check a request's authorization header against the configured key:
/// authenticates exactly when the header is present and spells
/// `Bearer <key>`.
pub fn check_auth(auth_key: &[u8], header: Option<&Vec<u8>>) -> (r: Option<Authenticated>)
    ensures
        r is Some <==> (header matches Some(h) && h@ == ascii_bytes("Bearer "@) + auth_key@),
{
    proof {
        reveal_strlit("Bearer ");
        assert(vstd::string::is_ascii("Bearer "));
    }
    match header {
        None => None,
        Some(h) => {
            let mut expected = crate::str_to_bytes("Bearer ");
            let mut keyb = vstd::slice::slice_to_vec(auth_key);
            expected.append(&mut keyb);
            if crate::decode::bytes_eq(h.as_slice(), expected.as_slice()) {
                Some(Authenticated)
            } else {
                None
            }
        },
    }
}

} // verus!
