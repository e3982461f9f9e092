use vstd::prelude::*;

use crate::bytes::{
    bytes_eq_ignore_case, copy_range, decimal_of, eq_ignore_case, find_line_end, lemma_line_end_bounds,
    line_end, parse_decimal, split_bytes, split_on, trim_bytes, trimmed,
};
use crate::error::HttpError;
use crate::header::{header_of, parse_header};
use crate::message::{Header, Request, RequestView, Response, ResponseView, headers_view};
use crate::status::{canonical_reason, canonical_reason_of, parse_status, status_of};
use crate::version::{parse_version, version_of};

verus! {

/// The empty line that ends a header block.
pub open spec fn crlf() -> Seq<u8> {
    seq![13u8, 10]
}

/// The header name `content-length`, in lower case.
pub open spec fn content_length_name() -> Seq<u8> {
    seq![99u8, 111, 110, 116, 101, 110, 116, 45, 108, 101, 110, 103, 116, 104]
}

/// Whether a header name is Content-Length, in any casing.
pub open spec fn is_content_length(name: Seq<u8>) -> bool {
    eq_ignore_case(name, content_length_name())
}

/// The value of the last Content-Length header, if any.
pub open spec fn declared_length(hs: Seq<(Seq<u8>, Seq<u8>)>) -> Option<Seq<u8>>
    decreases hs.len(),
{
    if hs.len() == 0 {
        None
    } else if is_content_length(hs.last().0) {
        Some(hs.last().1)
    } else {
        declared_length(hs.drop_last())
    }
}

/// The body length that headers declare: the number the last Content-Length header
/// writes, 0 where there is none, and `None` where that value is not a number.
pub open spec fn length_of(hs: Seq<(Seq<u8>, Seq<u8>)>) -> Option<u64> {
    match declared_length(hs) {
        None => Some(0),
        Some(v) => decimal_of(v),
    }
}

/// The header block that starts at `pos`: its headers in order and the index just
/// past its empty line. A Content-Length header whose value is not a number is an
/// error where it stands.
pub open spec fn headers_from(s: Seq<u8>, pos: int) -> Result<
    (Seq<(Seq<u8>, Seq<u8>)>, int),
    HttpError,
>
    decreases s.len() - pos,
{
    let e = line_end(s, pos);
    let line = s.subrange(pos, e);
    if line == crlf() {
        Ok((seq![], e))
    } else {
        match header_of(line) {
            Err(err) => Err(err),
            Ok(h) => {
                if is_content_length(h.0) && decimal_of(h.1) is None {
                    Err(HttpError::InvalidContentLength)
                } else if e <= pos || e > s.len() {
                    Err(HttpError::MalformedHeaderLine)
                } else {
                    match headers_from(s, e) {
                        Err(err) => Err(err),
                        Ok((hs, end)) => Ok((seq![h] + hs, end)),
                    }
                }
            },
        }
    }
}

/// The request at the start of the stream `s`, and how many bytes it takes.
pub open spec fn request_of(s: Seq<u8>) -> Result<(RequestView, int), HttpError> {
    let e = line_end(s, 0);
    let f = split_on(trimmed(s.subrange(0, e)), 32);
    if e == 0 {
        Err(HttpError::ConnectionClosed)
    } else if f.len() != 3 {
        Err(HttpError::MalformedStartLine)
    } else {
        match version_of(f[2]) {
            None => Err(HttpError::UnsupportedVersion),
            Some(v) => match headers_from(s, e) {
                Err(err) => Err(err),
                Ok((hs, p)) => {
                    let n = length_of(hs).unwrap();
                    if p + n > s.len() {
                        Err(HttpError::UnexpectedEof)
                    } else {
                        Ok(
                            (
                                RequestView {
                                    method: f[0],
                                    uri: f[1],
                                    version: v,
                                    headers: hs,
                                    body: s.subrange(p, p + n),
                                },
                                p + n,
                            ),
                        )
                    }
                },
            },
        }
    }
}

/// The response at the start of the stream `s`, and how many bytes it takes.
pub open spec fn response_of(s: Seq<u8>) -> Result<(ResponseView, int), HttpError> {
    let e = line_end(s, 0);
    let f = split_on(trimmed(s.subrange(0, e)), 32);
    if f.len() != 2 && f.len() != 3 {
        Err(HttpError::MalformedStartLine)
    } else {
        match version_of(f[0]) {
            None => Err(HttpError::UnsupportedVersion),
            Some(v) => match status_of(f[1]) {
                None => Err(HttpError::InvalidStatusCode),
                Some(code) => match headers_from(s, e) {
                    Err(err) => Err(err),
                    Ok((hs, p)) => {
                        let n = length_of(hs).unwrap();
                        if p + n > s.len() {
                            Err(HttpError::UnexpectedEof)
                        } else {
                            Ok(
                                (
                                    ResponseView {
                                        version: v,
                                        status: code,
                                        reason: canonical_reason_of(code),
                                        headers: hs,
                                        body: s.subrange(p, p + n),
                                    },
                                    p + n,
                                ),
                            )
                        }
                    },
                },
            },
        }
    }
}

/// A header block that reads lies within the stream, after where it starts.
pub proof fn lemma_headers_from_bounds(s: Seq<u8>, pos: int)
    requires
        0 <= pos <= s.len(),
        headers_from(s, pos) is Ok,
    ensures
        pos <= headers_from(s, pos).unwrap().1 <= s.len(),
    decreases s.len() - pos,
{
    let e = line_end(s, pos);
    lemma_line_end_bounds(s, pos);
    if s.subrange(pos, e) != crlf() && e > pos && e <= s.len() {
        if headers_from(s, e) is Ok {
            lemma_headers_from_bounds(s, e);
        }
    }
}

/// A request whose headers declare no Content-Length has an empty body.
pub proof fn lemma_no_length_empty_request_body(s: Seq<u8>)
    requires
        request_of(s) is Ok,
        declared_length(request_of(s).unwrap().0.headers) is None,
    ensures
        request_of(s).unwrap().0.body.len() == 0,
{
    lemma_line_end_bounds(s, 0);
    lemma_headers_from_bounds(s, line_end(s, 0));
}

/// A response whose headers declare no Content-Length has an empty body.
pub proof fn lemma_no_length_empty_response_body(s: Seq<u8>)
    requires
        response_of(s) is Ok,
        declared_length(response_of(s).unwrap().0.headers) is None,
    ensures
        response_of(s).unwrap().0.body.len() == 0,
{
    lemma_line_end_bounds(s, 0);
    lemma_headers_from_bounds(s, line_end(s, 0));
}

/// A stream that ends before any start line yields `ConnectionClosed` where a
/// request is expected.
pub proof fn lemma_empty_stream_closed(s: Seq<u8>)
    requires
        s.len() == 0,
    ensures
        request_of(s) == Err::<(RequestView, int), _>(HttpError::ConnectionClosed),
{
}

pub proof fn lemma_length_of_push(hs: Seq<(Seq<u8>, Seq<u8>)>, h: (Seq<u8>, Seq<u8>))
    ensures
        length_of(hs.push(h)) == if is_content_length(h.0) {
            decimal_of(h.1)
        } else {
            length_of(hs)
        },
{
    assert(hs.push(h).drop_last() =~= hs);
}

/// Reads the header block that starts at `pos`; also gives the body length it
/// declares.
pub fn read_headers(s: &[u8], pos: usize) -> (r: Result<(Vec<Header>, u64, usize), HttpError>)
    requires
        pos <= s@.len(),
    ensures
        match r {
            Ok((hs, n, end)) => headers_from(s@, pos as int) == Ok::<_, HttpError>(
                (headers_view(hs@), end as int),
            ) && length_of(headers_view(hs@)) == Some(n) && end <= s@.len(),
            Err(e) => headers_from(s@, pos as int) == Err::<(Seq<(Seq<u8>, Seq<u8>)>, int), _>(e),
        },
{
    let mut hs: Vec<Header> = Vec::new();
    let mut n: u64 = 0;
    let mut p = pos;
    loop
        invariant
            pos <= p <= s@.len(),
            length_of(headers_view(hs@)) == Some(n),
            headers_from(s@, pos as int) == match headers_from(s@, p as int) {
                Err(err) => Err(err),
                Ok((rest, end)) => Ok((headers_view(hs@) + rest, end)),
            },
        decreases s@.len() - p,
    {
        let e = find_line_end(s, p);
        proof {
            lemma_line_end_bounds(s@, p as int);
        }
        let line = copy_range(s, p, e);
        if e - p == 2 && s[p] == 13 && s[p + 1] == 10 {
            assert(line@ =~= crlf());
            assert(headers_view(hs@) + seq![] =~= headers_view(hs@));
            return Ok((hs, n, e));
        }
        assert(line@ != crlf());
        let h = match parse_header(line.as_slice()) {
            Ok(h) => h,
            Err(err) => {
                return Err(err);
            },
        };
        let is_cl = bytes_eq_ignore_case(
            h.name.as_slice(),
            &[99u8, 111, 110, 116, 101, 110, 116, 45, 108, 101, 110, 103, 116, 104],
        );
        proof {
            lemma_length_of_push(headers_view(hs@), h@);
        }
        if is_cl {
            match parse_decimal(h.value.as_slice()) {
                Some(v) => {
                    n = v;
                },
                None => {
                    return Err(HttpError::InvalidContentLength);
                },
            }
        }
        let ghost old_view = headers_view(hs@);
        hs.push(h);
        assert(headers_view(hs@) =~= old_view.push(h@));
        assert forall|rest: Seq<(Seq<u8>, Seq<u8>)>|
            old_view + (seq![h@] + rest) =~= #[trigger] (old_view.push(h@) + rest) by {}
        p = e;
    }
}

/// The body length that the header block after the first line of `s` declares;
/// the error of that block where it does not read.
pub fn declared_body_length(s: &[u8]) -> (r: Result<u64, HttpError>)
    ensures
        match r {
            Ok(n) => headers_from(s@, line_end(s@, 0)) is Ok && length_of(
                headers_from(s@, line_end(s@, 0)).unwrap().0,
            ) == Some(n),
            Err(e) => headers_from(s@, line_end(s@, 0)) == Err::<
                (Seq<(Seq<u8>, Seq<u8>)>, int),
                _,
            >(e),
        },
{
    let e = find_line_end(s, 0);
    proof {
        lemma_line_end_bounds(s@, 0);
    }
    match read_headers(s, e) {
        Ok((_, n, _)) => Ok(n),
        Err(err) => Err(err),
    }
}

/// Reads a request from the start of the stream `s`; gives it with the number of
/// bytes it took.
pub fn read_request(s: &[u8]) -> (r: Result<(Request, usize), HttpError>)
    ensures
        match r {
            Ok((req, n)) => request_of(s@) == Ok::<_, HttpError>((req@, n as int)),
            Err(e) => request_of(s@) == Err::<(RequestView, int), _>(e),
        },
{
    let e = find_line_end(s, 0);
    proof {
        lemma_line_end_bounds(s@, 0);
    }
    if e == 0 {
        return Err(HttpError::ConnectionClosed);
    }
    let line = copy_range(s, 0, e);
    let t = trim_bytes(line.as_slice());
    let f = split_bytes(t.as_slice(), 32);
    assert(f@.map_values(|f: Vec<u8>| f@).len() == f@.len());
    if f.len() != 3 {
        return Err(HttpError::MalformedStartLine);
    }
    assert(f@.map_values(|f: Vec<u8>| f@)[2] == f@[2]@);
    let version = match parse_version(f[2].as_slice()) {
        Ok(v) => v,
        Err(err) => {
            return Err(err);
        },
    };
    let (headers, n, p) = match read_headers(s, e) {
        Ok(x) => x,
        Err(err) => {
            return Err(err);
        },
    };
    if n > (s.len() - p) as u64 {
        return Err(HttpError::UnexpectedEof);
    }
    let body = copy_range(s, p, p + n as usize);
    let method = f[0].clone();
    let uri = f[1].clone();
    assert(f@.map_values(|f: Vec<u8>| f@)[0] == f@[0]@);
    assert(f@.map_values(|f: Vec<u8>| f@)[1] == f@[1]@);
    Ok((Request { method, uri, version, headers, body }, p + n as usize))
}

/// Reads a response from the start of the stream `s`; gives it with the number of
/// bytes it took.
pub fn read_response(s: &[u8]) -> (r: Result<(Response, usize), HttpError>)
    ensures
        match r {
            Ok((resp, n)) => response_of(s@) == Ok::<_, HttpError>((resp@, n as int)),
            Err(e) => response_of(s@) == Err::<(ResponseView, int), _>(e),
        },
{
    let e = find_line_end(s, 0);
    proof {
        lemma_line_end_bounds(s@, 0);
    }
    let line = copy_range(s, 0, e);
    let t = trim_bytes(line.as_slice());
    let f = split_bytes(t.as_slice(), 32);
    assert(f@.map_values(|f: Vec<u8>| f@).len() == f@.len());
    if f.len() != 2 && f.len() != 3 {
        return Err(HttpError::MalformedStartLine);
    }
    assert(f@.map_values(|f: Vec<u8>| f@)[0] == f@[0]@);
    assert(f@.map_values(|f: Vec<u8>| f@)[1] == f@[1]@);
    let version = match parse_version(f[0].as_slice()) {
        Ok(v) => v,
        Err(err) => {
            return Err(err);
        },
    };
    let status = match parse_status(f[1].as_slice()) {
        Some(c) => c,
        None => {
            return Err(HttpError::InvalidStatusCode);
        },
    };
    let (headers, n, p) = match read_headers(s, e) {
        Ok(x) => x,
        Err(err) => {
            return Err(err);
        },
    };
    if n > (s.len() - p) as u64 {
        return Err(HttpError::UnexpectedEof);
    }
    let body = copy_range(s, p, p + n as usize);
    let reason = canonical_reason(status);
    Ok((Response { version, status, reason, headers, body }, p + n as usize))
}

} // verus!
