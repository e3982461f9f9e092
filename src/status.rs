use vstd::prelude::*;

verus! {

/// The code that three decimal digits write, the first of them not zero.
pub open spec fn status_of(s: Seq<u8>) -> Option<u16> {
    if s.len() == 3 && 49 <= s[0] && s[0] <= 57 && 48 <= s[1] && s[1] <= 57 && 48 <= s[2] && s[2]
        <= 57 {
        Some((100 * (s[0] - 48) + 10 * (s[1] - 48) + (s[2] - 48)) as u16)
    } else {
        None
    }
}

/// The reason phrase registered for a status code, if any.
pub uninterp spec fn canonical_reason_of(code: u16) -> Option<Seq<u8>>;

/// Relies on http::StatusCode::from_bytes, which accepts exactly three digits
/// whose first is not zero, and on StatusCode::as_u16, which gives the code back.
#[verifier::external_body]
fn http_status(s: &[u8]) -> (r: Option<u16>)
    ensures
        r == status_of(s@),
{
    http::StatusCode::from_bytes(s).ok().map(|c| c.as_u16())
}

/// The status code that `s` writes: three decimal digits, the first not zero.
pub fn parse_status(s: &[u8]) -> (r: Option<u16>)
    ensures
        r == status_of(s@),
{
    http_status(s)
}

/// Relies on http::StatusCode::from_u16, to make the code a `StatusCode`, and on
/// StatusCode::canonical_reason, for the phrase its table holds for that code: the
/// result depends on the code alone.
#[verifier::external_body]
pub(crate) fn canonical_reason(code: u16) -> (r: Option<Vec<u8>>)
    ensures
        match r {
            Some(v) => canonical_reason_of(code) == Some(v@),
            None => canonical_reason_of(code) is None,
        },
{
    http::StatusCode::from_u16(code).ok().and_then(|c| c.canonical_reason()).map(
        |p| p.as_bytes().to_vec(),
    )
}

} // verus!
