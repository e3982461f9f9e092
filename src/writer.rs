use vstd::prelude::*;

use crate::bytes::{append, bytes_eq_ignore_case, decimal_digits, format_decimal, parse_decimal};
use crate::error::HttpError;
use crate::header::{is_field_value, is_valid_value};
use crate::message::{Header, Request, RequestView, Response, ResponseView, headers_view};
use crate::reader::{crlf, length_of, lemma_length_of_push};
use crate::version::{format_version, version_token};

verus! {

/// `": "`, between a header's name and its value.
pub open spec fn colon_space() -> Seq<u8> {
    seq![58u8, 32]
}

/// The line of one header, empty where its value is not printable.
pub open spec fn header_line(h: (Seq<u8>, Seq<u8>)) -> Seq<u8> {
    if is_field_value(h.1) {
        h.0 + colon_space() + h.1 + crlf()
    } else {
        seq![]
    }
}

/// The lines of the headers whose value is printable, in order; the others are
/// left out.
pub open spec fn header_lines(hs: Seq<(Seq<u8>, Seq<u8>)>) -> Seq<u8>
    decreases hs.len(),
{
    if hs.len() == 0 {
        seq![]
    } else {
        header_lines(hs.drop_last()) + header_line(hs.last())
    }
}

/// The request line and header block of `m`, up to and with the empty line.
pub open spec fn request_head(m: RequestView) -> Seq<u8> {
    m.method + seq![32u8] + m.uri + seq![32u8] + version_token(m.version) + crlf() + header_lines(
        m.headers,
    ) + crlf()
}

/// The status line's code and reason: the code in decimal, then a space and the
/// reason where there is one.
pub open spec fn status_text(code: u16, reason: Option<Seq<u8>>) -> Seq<u8> {
    match reason {
        Some(r) => decimal_digits(code as nat) + seq![32u8] + r,
        None => decimal_digits(code as nat),
    }
}

/// The status line and header block of `m`, up to and with the empty line.
pub open spec fn response_head(m: ResponseView) -> Seq<u8> {
    version_token(m.version) + seq![32u8] + status_text(m.status, m.reason) + crlf()
        + header_lines(m.headers) + crlf()
}

/// The wire bytes of a message with head `head`, headers `hs` and body `body`:
/// the head, then as many body bytes as the headers declare.
pub open spec fn message_bytes(head: Seq<u8>, hs: Seq<(Seq<u8>, Seq<u8>)>, body: Seq<u8>) -> Result<
    Seq<u8>,
    HttpError,
> {
    match length_of(hs) {
        None => Err(HttpError::InvalidContentLength),
        Some(n) => if n > body.len() {
            Err(HttpError::UnexpectedEof)
        } else {
            Ok(head + body.subrange(0, n as int))
        },
    }
}

pub open spec fn request_bytes(m: RequestView) -> Result<Seq<u8>, HttpError> {
    message_bytes(request_head(m), m.headers, m.body)
}

pub open spec fn response_bytes(m: ResponseView) -> Result<Seq<u8>, HttpError> {
    message_bytes(response_head(m), m.headers, m.body)
}

/// The body length that `hs` declares.
pub fn body_length(hs: &Vec<Header>) -> (r: Option<u64>)
    ensures
        r == length_of(headers_view(hs@)),
{
    let mut cur: Option<u64> = Some(0);
    let mut i: usize = 0;
    while i < hs.len()
        invariant
            i <= hs@.len(),
            cur == length_of(headers_view(hs@.subrange(0, i as int))),
        decreases hs@.len() - i,
    {
        let h = &hs[i];
        proof {
            lemma_length_of_push(headers_view(hs@.subrange(0, i as int)), h@);
            assert(headers_view(hs@.subrange(0, i + 1)) =~= headers_view(
                hs@.subrange(0, i as int),
            ).push(h@));
        }
        if bytes_eq_ignore_case(
            h.name.as_slice(),
            &[99u8, 111, 110, 116, 101, 110, 116, 45, 108, 101, 110, 103, 116, 104],
        ) {
            cur = parse_decimal(h.value.as_slice());
        }
        i = i + 1;
    }
    assert(hs@.subrange(0, hs@.len() as int) =~= hs@);
    cur
}

/// Appends the lines of the headers whose value is printable.
fn write_header_lines(out: &mut Vec<u8>, hs: &Vec<Header>)
    ensures
        final(out)@ == old(out)@ + header_lines(headers_view(hs@)),
{
    let ghost start = out@;
    let mut i: usize = 0;
    while i < hs.len()
        invariant
            i <= hs@.len(),
            out@ == start + header_lines(headers_view(hs@.subrange(0, i as int))),
        decreases hs@.len() - i,
    {
        let h = &hs[i];
        let ghost before = out@;
        let ghost prefix = headers_view(hs@.subrange(0, i as int));
        let ghost next = headers_view(hs@.subrange(0, i + 1));
        assert(next.drop_last() =~= prefix);
        assert(next.last() == h@);
        if is_valid_value(h.value.as_slice()) {
            append(out, h.name.as_slice());
            append(out, &[58u8, 32]);
            append(out, h.value.as_slice());
            append(out, &[13u8, 10]);
            assert(out@ =~= before + (h.name@ + colon_space() + h.value@ + crlf()));
        } else {
            assert(out@ =~= before + Seq::<u8>::empty());
        }
        i = i + 1;
        assert(out@ =~= start + header_lines(next));
    }
    assert(hs@.subrange(0, hs@.len() as int) =~= hs@);
}

/// Appends the body bytes that the headers declare; fails where the headers
/// declare more than the body holds, or a length that is not a number.
fn finish_message(out: Vec<u8>, hs: &Vec<Header>, body: &Vec<u8>) -> (r: Result<Vec<u8>, HttpError>)
    ensures
        match r {
            Ok(b) => message_bytes(out@, headers_view(hs@), body@) == Ok::<_, HttpError>(b@),
            Err(e) => message_bytes(out@, headers_view(hs@), body@) == Err::<Seq<u8>, _>(e),
        },
{
    let mut out = out;
    match body_length(hs) {
        None => Err(HttpError::InvalidContentLength),
        Some(n) => {
            if n > body.len() as u64 {
                return Err(HttpError::UnexpectedEof);
            }
            let b = vstd::slice::slice_subrange(body.as_slice(), 0, n as usize);
            append(&mut out, b);
            Ok(out)
        },
    }
}

/// The wire bytes of a request: request line, the headers whose value is
/// printable, the empty line, then as many body bytes as Content-Length declares.
pub fn write_request(req: &Request) -> (r: Result<Vec<u8>, HttpError>)
    ensures
        match r {
            Ok(b) => request_bytes(req@) == Ok::<_, HttpError>(b@),
            Err(e) => request_bytes(req@) == Err::<Seq<u8>, _>(e),
        },
{
    let mut out: Vec<u8> = Vec::new();
    append(&mut out, req.method.as_slice());
    append(&mut out, &[32u8]);
    append(&mut out, req.uri.as_slice());
    append(&mut out, &[32u8]);
    let v = format_version(req.version);
    append(&mut out, v.as_slice());
    append(&mut out, &[13u8, 10]);
    write_header_lines(&mut out, &req.headers);
    append(&mut out, &[13u8, 10]);
    assert(out@ =~= request_head(req@));
    finish_message(out, &req.headers, &req.body)
}

/// The wire bytes of a response: status line, the headers whose value is
/// printable, the empty line, then as many body bytes as Content-Length declares.
pub fn write_response(resp: &Response) -> (r: Result<Vec<u8>, HttpError>)
    ensures
        match r {
            Ok(b) => response_bytes(resp@) == Ok::<_, HttpError>(b@),
            Err(e) => response_bytes(resp@) == Err::<Seq<u8>, _>(e),
        },
{
    let mut out: Vec<u8> = Vec::new();
    let v = format_version(resp.version);
    append(&mut out, v.as_slice());
    append(&mut out, &[32u8]);
    let code = format_decimal(resp.status as u64);
    append(&mut out, code.as_slice());
    match &resp.reason {
        Some(r) => {
            append(&mut out, &[32u8]);
            append(&mut out, r.as_slice());
        },
        None => {},
    }
    append(&mut out, &[13u8, 10]);
    write_header_lines(&mut out, &resp.headers);
    append(&mut out, &[13u8, 10]);
    assert(out@ =~= response_head(resp@));
    finish_message(out, &resp.headers, &resp.body)
}

} // verus!
