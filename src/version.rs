use vstd::prelude::*;

use crate::error::HttpError;

verus! {

/// The protocol versions a start line can name.
#[derive(Debug, Clone, Copy, PartialEq, Eq, Structural)]
pub enum Version {
    Http09,
    Http10,
    Http11,
    Http2,
    Http3,
}

/// The wire token of each version.
pub open spec fn version_token(v: Version) -> Seq<u8> {
    match v {
        Version::Http09 => seq![72u8, 84, 84, 80, 47, 48, 46, 57],
        Version::Http10 => seq![72u8, 84, 84, 80, 47, 49, 46, 48],
        Version::Http11 => seq![72u8, 84, 84, 80, 47, 49, 46, 49],
        Version::Http2 => seq![72u8, 84, 84, 80, 47, 50, 46, 48],
        Version::Http3 => seq![72u8, 84, 84, 80, 47, 51, 46, 48],
    }
}

/// The version whose token is exactly `t`, if any.
pub open spec fn version_of(t: Seq<u8>) -> Option<Version> {
    if exists|v: Version| version_token(v) == t {
        Some(choose|v: Version| version_token(v) == t)
    } else {
        None
    }
}

/// Distinct versions have distinct tokens.
pub proof fn lemma_tokens_distinct(a: Version, b: Version)
    ensures
        version_token(a) == version_token(b) ==> a == b,
{
    if version_token(a) == version_token(b) && a != b {
        assert(version_token(a)[5] != version_token(b)[5] || version_token(a)[7] != version_token(
            b,
        )[7]);
    }
}

/// Formatting a version and parsing the token back gives the same version.
pub proof fn lemma_version_round_trip(v: Version)
    ensures
        version_of(version_token(v)) == Some(v),
{
    let w = choose|w: Version| version_token(w) == version_token(v);
    lemma_tokens_distinct(w, v);
}

/// Parsing a supported token and formatting the version gives the token back.
pub proof fn lemma_token_round_trip(t: Seq<u8>)
    requires
        version_of(t) is Some,
    ensures
        version_token(version_of(t).unwrap()) == t,
{
}

/// The token of `v`.
pub fn format_version(v: Version) -> (r: Vec<u8>)
    ensures
        r@ == version_token(v),
{
    let d: u8 = match v {
        Version::Http09 => 48,
        Version::Http10 => 49,
        Version::Http11 => 49,
        Version::Http2 => 50,
        Version::Http3 => 51,
    };
    let m: u8 = match v {
        Version::Http09 => 57,
        Version::Http10 => 48,
        Version::Http11 => 49,
        Version::Http2 => 48,
        Version::Http3 => 48,
    };
    let r = vec![72u8, 84, 84, 80, 47, d, 46, m];
    assert(r@ =~= version_token(v));
    r
}

/// The version named by `t`; only the five tokens match, case included.
pub fn parse_version(t: &[u8]) -> (r: Result<Version, HttpError>)
    ensures
        match r {
            Ok(v) => version_of(t@) == Some(v),
            Err(e) => version_of(t@) is None && e == HttpError::UnsupportedVersion,
        },
{
    if t.len() == 8 && t[0] == 72 && t[1] == 84 && t[2] == 84 && t[3] == 80 && t[4] == 47 && t[6]
        == 46 {
        let v = if t[5] == 48 && t[7] == 57 {
            Some(Version::Http09)
        } else if t[5] == 49 && t[7] == 48 {
            Some(Version::Http10)
        } else if t[5] == 49 && t[7] == 49 {
            Some(Version::Http11)
        } else if t[5] == 50 && t[7] == 48 {
            Some(Version::Http2)
        } else if t[5] == 51 && t[7] == 48 {
            Some(Version::Http3)
        } else {
            None
        };
        match v {
            Some(v) => {
                assert(version_token(v) =~= t@);
                proof { lemma_version_round_trip(v); }
                return Ok(v);
            },
            None => {},
        }
    }
    assert forall|v: Version| version_token(v) != t@ by {
        if version_token(v) == t@ {
            assert(version_token(v)[5] == t@[5]);
            assert(version_token(v)[7] == t@[7]);
        }
    }
    Err(HttpError::UnsupportedVersion)
}

} // verus!
