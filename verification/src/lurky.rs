//! The typed configuration that the surrounding services read: every field
//! is decoded up front from a scanned raw document. The decode itself is a
//! pure result-returning operation; the default consumer policy of printing
//! a diagnostic and terminating on failure belongs to the embedding program,
//! not to this type.

use vstd::prelude::*;

use crate::ascii_bytes;
use crate::config::{spec_find, RawConfig, SpecEntry};
use crate::decode::{BCFParseError, BCFValue, SpecErr, Text};

verus! {

/// What `RawConfig::get` means at the spec level, a missing key folded in
/// as the `missing key` error with an empty span.
pub open spec fn spec_get_or_missing<T: BCFValue>(entries: Seq<SpecEntry>, key: Seq<u8>) -> Result<
    T::V,
    SpecErr,
> {
    match spec_find(entries, key) {
        None => Err(
            SpecErr { start: 0, end: 0, msg: crate::config::missing_key_msg() },
        ),
        Some(e) => T::spec_parse(e.value),
    }
}

/// The executable error `e` is exactly the spec-level error `se`.
pub open spec fn err_matches(e: BCFParseError, se: SpecErr) -> bool {
    e.span.start == se.start && e.span.end == se.end && e.error@ == se.msg
}

/// A configuration field failed to decode: the key it was looked up under
/// and the failure, ready to be rendered as a diagnostic.
#[derive(Debug)]
pub struct FieldError {
    pub key: Vec<u8>,
    pub err: BCFParseError,
}

/// The typed configuration: the servers to poll, the shared
/// authentication key, which database to use and where, and the polling
/// cooldown in seconds.
#[derive(Debug, Clone, PartialEq, Eq)]
pub struct LurkyConfig {
    pub servers: Vec<Text>,
    pub auth_key: Text,
    pub db_type: Text,
    pub db_url: Text,
    pub refresh_cooldown: u64,
}

impl LurkyConfig {
    /// Decode every field of the typed configuration from the scanned
    /// document, or return the first failing field (fields are tried in
    /// the order servers, db_type, db_url, refresh_cooldown, auth_key).
    /// The failure is returned, not printed: the embedding program decides
    /// whether to render it and exit.
    pub fn parse_data(conf: &RawConfig) -> (r: Result<LurkyConfig, FieldError>)
        ensures
            ({
                let es = conf.spec_entries();
                let r_servers = spec_get_or_missing::<Vec<Text>>(es, ascii_bytes("servers"@));
                let r_db_type = spec_get_or_missing::<Text>(es, ascii_bytes("db_type"@));
                let r_db_url = spec_get_or_missing::<Text>(es, ascii_bytes("db_url"@));
                let r_refresh = spec_get_or_missing::<u64>(es, ascii_bytes("refresh_cooldown"@));
                let r_auth = spec_get_or_missing::<Text>(es, ascii_bytes("auth_key"@));
                match r {
                    Ok(c) => {
                        &&& r_servers == Ok::<Seq<Seq<u8>>, SpecErr>(c.servers.deep_view())
                        &&& r_db_type == Ok::<Seq<u8>, SpecErr>(c.db_type@)
                        &&& r_db_url == Ok::<Seq<u8>, SpecErr>(c.db_url@)
                        &&& r_refresh == Ok::<u64, SpecErr>(c.refresh_cooldown)
                        &&& r_auth == Ok::<Seq<u8>, SpecErr>(c.auth_key@)
                    },
                    Err(fe) => {
                        if r_servers is Err {
                            fe.key@ == ascii_bytes("servers"@) && err_matches(
                                fe.err,
                                r_servers->Err_0,
                            )
                        } else if r_db_type is Err {
                            fe.key@ == ascii_bytes("db_type"@) && err_matches(
                                fe.err,
                                r_db_type->Err_0,
                            )
                        } else if r_db_url is Err {
                            fe.key@ == ascii_bytes("db_url"@) && err_matches(
                                fe.err,
                                r_db_url->Err_0,
                            )
                        } else if r_refresh is Err {
                            fe.key@ == ascii_bytes("refresh_cooldown"@) && err_matches(
                                fe.err,
                                r_refresh->Err_0,
                            )
                        } else {
                            r_auth is Err && fe.key@ == ascii_bytes("auth_key"@) && err_matches(
                                fe.err,
                                r_auth->Err_0,
                            )
                        }
                    },
                }
            }),
    {
        proof {
            reveal_strlit("servers");
            reveal_strlit("db_type");
            reveal_strlit("db_url");
            reveal_strlit("refresh_cooldown");
            reveal_strlit("auth_key");
            assert(vstd::string::is_ascii("servers"));
            assert(vstd::string::is_ascii("db_type"));
            assert(vstd::string::is_ascii("db_url"));
            assert(vstd::string::is_ascii("refresh_cooldown"));
            assert(vstd::string::is_ascii("auth_key"));
        }
        let k_servers = crate::str_to_bytes("servers");
        let servers = match conf.get::<Vec<Text>>(k_servers.as_slice()) {
            Ok(v) => v,
            Err(e) => {
                return Err(FieldError { key: k_servers, err: e });
            },
        };
        let k_db_type = crate::str_to_bytes("db_type");
        let db_type = match conf.get::<Text>(k_db_type.as_slice()) {
            Ok(v) => v,
            Err(e) => {
                return Err(FieldError { key: k_db_type, err: e });
            },
        };
        let k_db_url = crate::str_to_bytes("db_url");
        let db_url = match conf.get::<Text>(k_db_url.as_slice()) {
            Ok(v) => v,
            Err(e) => {
                return Err(FieldError { key: k_db_url, err: e });
            },
        };
        let k_refresh = crate::str_to_bytes("refresh_cooldown");
        let refresh_cooldown = match conf.get::<u64>(k_refresh.as_slice()) {
            Ok(v) => v,
            Err(e) => {
                return Err(FieldError { key: k_refresh, err: e });
            },
        };
        let k_auth = crate::str_to_bytes("auth_key");
        let auth_key = match conf.get::<Text>(k_auth.as_slice()) {
            Ok(v) => v,
            Err(e) => {
                return Err(FieldError { key: k_auth, err: e });
            },
        };
        Ok(LurkyConfig { servers, auth_key, db_type, db_url, refresh_cooldown })
    }
}

} // verus!
