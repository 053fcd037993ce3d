//! A line-oriented configuration-text format ("BCF") and the services
//! built on it. Keys and values split on the first colon; values decode
//! into scalars, lists and maps with escaped delimiters; every decode
//! failure carries a byte-exact span into the original document, so
//! diagnostics can point at the offending byte even inside an escaped
//! compound value. Around the format: the typed service configuration,
//! the player database model with its in-memory store, typed range
//! filters over player records, and the pure half of the server-list
//! polling loop.

pub mod codec;
pub mod config;
pub mod db;
pub mod decode;
pub mod diag;
pub mod lurky;
pub mod northwood;
pub mod query;
pub mod routes;
pub mod tokenizer;

use vstd::prelude::*;
use vstd::string::StringSliceAdditionalSpecFns;

verus! {

/// The bytes of an ASCII character sequence, one byte per character.
pub open spec fn ascii_bytes(s: Seq<char>) -> Seq<u8> {
    Seq::new(s.len(), |i: int| s[i] as u8)
}

/// The bytes of an ASCII string, one byte per character.
pub fn str_to_bytes(s: &str) -> (r: Vec<u8>)
    requires
        vstd::string::is_ascii(s),
    ensures
        r@ == ascii_bytes(s@),
{
    proof {
        broadcast use vstd::string::is_ascii_spec_bytes;

        assert(s.spec_bytes() =~= ascii_bytes(s@));
    }
    vstd::string::StrSliceExecFns::as_bytes_vec(s)
}

} // verus!
