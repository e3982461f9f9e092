use vstd::prelude::*;

use crate::bytes::{
    copy_range, find_byte, index_from, lemma_index_from_at, lemma_index_from_bounds, trim_bytes,
    trimmed,
};
use crate::error::HttpError;
use crate::message::Header;

verus! {

/// A token character: a letter, a digit, or one of ``!#$%&'*+-.^_`|~``.
pub open spec fn is_tchar(b: u8) -> bool {
    (48 <= b && b <= 57) || (65 <= b && b <= 90) || (97 <= b && b <= 122) || b == 33 || (35 <= b
        && b <= 39) || b == 42 || b == 43 || b == 45 || b == 46 || (94 <= b && b <= 96) || b == 124
        || b == 126
}

/// A valid header name: one to 65535 token characters.
pub open spec fn is_token(s: Seq<u8>) -> bool {
    0 < s.len() <= 65535 && forall|i: int| 0 <= i < s.len() ==> is_tchar(#[trigger] s[i])
}

/// Bytes that the header value parser of `http` lets through: all but control
/// characters other than tab, and DEL.
pub open spec fn is_opaque_value(s: Seq<u8>) -> bool {
    forall|i: int| 0 <= i < s.len() ==> ((#[trigger] s[i] >= 32 && s[i] != 127) || s[i] == 9)
}

/// A valid header value: printable ASCII and tab only.
pub open spec fn is_field_value(s: Seq<u8>) -> bool {
    forall|i: int| 0 <= i < s.len() ==> ((32 <= #[trigger] s[i] && s[i] <= 126) || s[i] == 9)
}

/// What one header line (its line feed included) holds: it splits at the first
/// colon; the name is what comes before, the value what comes after without
/// surrounding whitespace.
pub open spec fn header_of(line: Seq<u8>) -> Result<(Seq<u8>, Seq<u8>), HttpError> {
    let i = index_from(line, 58, 0);
    if i >= line.len() {
        Err(HttpError::MalformedHeaderLine)
    } else {
        let name = line.subrange(0, i);
        let value = trimmed(line.subrange(i + 1, line.len() as int));
        if !is_token(name) {
            Err(HttpError::InvalidHeaderName)
        } else if !is_field_value(value) {
            Err(HttpError::InvalidHeaderValue)
        } else {
            Ok((name, value))
        }
    }
}

/// A header line without a colon is malformed, whatever else it holds.
pub proof fn lemma_no_colon_malformed(line: Seq<u8>)
    requires
        forall|i: int| 0 <= i < line.len() ==> line[i] != 58,
    ensures
        header_of(line) == Err::<(Seq<u8>, Seq<u8>), _>(HttpError::MalformedHeaderLine),
{
    lemma_index_from_at(line, 58, 0, line.len() as int);
}

/// Relies on http::HeaderName::from_bytes, which accepts exactly the names of one
/// to 65535 bytes that its table of token characters maps to a non-zero byte.
#[verifier::external_body]
fn http_accepts_name(name: &[u8]) -> (r: bool)
    ensures
        r == is_token(name@),
{
    http::HeaderName::from_bytes(name).is_ok()
}

/// Relies on http::HeaderValue::from_bytes, which refuses a value exactly when one
/// of its bytes is below 32 and not a tab, or is 127.
#[verifier::external_body]
fn http_accepts_value(value: &[u8]) -> (r: bool)
    ensures
        r == is_opaque_value(value@),
{
    http::HeaderValue::from_bytes(value).is_ok()
}

/// Whether `value` is printable ASCII and tab only.
pub fn is_valid_value(value: &[u8]) -> (r: bool)
    ensures
        r == is_field_value(value@),
{
    if !http_accepts_value(value) {
        return false;
    }
    let mut i: usize = 0;
    while i < value.len()
        invariant
            i <= value@.len(),
            is_opaque_value(value@),
            forall|k: int| 0 <= k < i ==> ((32 <= #[trigger] value@[k] && value@[k] <= 126) || value@[k] == 9),
        decreases value@.len() - i,
    {
        if value[i] > 126 {
            return false;
        }
        i = i + 1;
    }
    true
}

/// Whether `name` is a valid header name.
pub fn is_valid_name(name: &[u8]) -> (r: bool)
    ensures
        r == is_token(name@),
{
    http_accepts_name(name)
}

/// Parses one header line, its line terminator included.
pub fn parse_header(line: &[u8]) -> (r: Result<Header, HttpError>)
    ensures
        match r {
            Ok(h) => header_of(line@) == Ok::<_, HttpError>(h@),
            Err(e) => header_of(line@) == Err::<(Seq<u8>, Seq<u8>), _>(e),
        },
{
    let i = find_byte(line, 58, 0);
    proof {
        lemma_index_from_bounds(line@, 58, 0);
    }
    if i >= line.len() {
        return Err(HttpError::MalformedHeaderLine);
    }
    let name = copy_range(line, 0, i);
    let rest = copy_range(line, i + 1, line.len());
    let value = trim_bytes(rest.as_slice());
    if !is_valid_name(name.as_slice()) {
        return Err(HttpError::InvalidHeaderName);
    }
    if !is_valid_value(value.as_slice()) {
        return Err(HttpError::InvalidHeaderValue);
    }
    Ok(Header { name, value })
}

} // verus!
