//! A length-prefixed framing of payloads for ad hoc streaming. It is a scheme of
//! this crate's own and does not interoperate with chunked transfer-encoding.
use vstd::prelude::*;

use crate::bytes::{
    is_digit, lemma_decimal_digits, lemma_decimal_round_trip, lemma_line_end_at,
    lemma_trim_digits_line, append, copy_range, decimal_digits, decimal_of, find_line_end, format_decimal,
    lemma_line_end_bounds, line_end, parse_decimal, trim_bytes, trimmed,
};
use crate::error::HttpError;
use crate::reader::crlf;

verus! {

/// The frame of `p`: its length in decimal, a line terminator, the payload, and a
/// line terminator.
pub open spec fn frame_bytes(p: Seq<u8>) -> Seq<u8> {
    decimal_digits(p.len()) + crlf() + p + crlf()
}

/// The payload of the frame at the start of the stream `s`, and how many bytes the
/// frame takes: the size line, that many bytes, and the rest of the line after
/// them.
pub open spec fn frame_of(s: Seq<u8>) -> Result<(Seq<u8>, int), HttpError> {
    let e = line_end(s, 0);
    match decimal_of(trimmed(s.subrange(0, e))) {
        None => Err(HttpError::InvalidFrameSize),
        Some(n) => if e + n > s.len() {
            Err(HttpError::UnexpectedEof)
        } else {
            Ok((s.subrange(e, e + n), line_end(s, e + n)))
        },
    }
}

/// Reading the frame of `p` from a stream that starts with it gives `p` back and
/// takes exactly the frame.
pub proof fn lemma_frame_round_trip(p: Seq<u8>, rest: Seq<u8>)
    requires
        p.len() <= u64::MAX,
    ensures
        frame_of(frame_bytes(p) + rest) == Ok::<_, HttpError>((p, frame_bytes(p).len() as int)),
{
    let d = decimal_digits(p.len());
    let s = frame_bytes(p) + rest;
    lemma_decimal_digits(p.len());
    lemma_decimal_round_trip(p.len() as u64);
    let k = d.len() as int;
    let m = p.len() as int;
    let e = k + 2;
    assert forall|j: int| 0 <= j < k + 1 implies s[j] != 10 by {
        if j < d.len() {
            assert(s[j] == d[j]);
            assert(is_digit(d[j]));
        }
    }
    assert(s[k + 1] == 10);
    lemma_line_end_at(s, 0, k + 1);
    assert(s.subrange(0, e) =~= d + seq![13u8, 10]);
    lemma_trim_digits_line(d);
    assert(s.subrange(e, e + m) =~= p);
    assert(s[e + m] == 13);
    assert(s[e + m + 1] == 10);
    lemma_line_end_at(s, e + m, e + m + 1);
}

/// The frame of `chunk`.
pub fn write_chunk(chunk: &[u8]) -> (r: Vec<u8>)
    ensures
        r@ == frame_bytes(chunk@),
{
    let mut out = format_decimal(chunk.len() as u64);
    append(&mut out, &[13u8, 10]);
    append(&mut out, chunk);
    append(&mut out, &[13u8, 10]);
    out
}

/// The payload size that the first line of `s` gives; `None` where it is not a
/// decimal number.
pub fn frame_size(s: &[u8]) -> (r: Option<u64>)
    ensures
        r == decimal_of(trimmed(s@.subrange(0, line_end(s@, 0)))),
{
    let e = find_line_end(s, 0);
    proof {
        lemma_line_end_bounds(s@, 0);
    }
    let line = copy_range(s, 0, e);
    let t = trim_bytes(line.as_slice());
    parse_decimal(t.as_slice())
}

/// Reads the frame at the start of the stream `s`; gives its payload with the
/// number of bytes the frame took.
pub fn read_chunk(s: &[u8]) -> (r: Result<(Vec<u8>, usize), HttpError>)
    ensures
        match r {
            Ok((p, n)) => frame_of(s@) == Ok::<_, HttpError>((p@, n as int)),
            Err(e) => frame_of(s@) == Err::<(Seq<u8>, int), _>(e),
        },
{
    let e = find_line_end(s, 0);
    proof {
        lemma_line_end_bounds(s@, 0);
    }
    let line = copy_range(s, 0, e);
    let t = trim_bytes(line.as_slice());
    match parse_decimal(t.as_slice()) {
        None => Err(HttpError::InvalidFrameSize),
        Some(n) => {
            if n > (s.len() - e) as u64 {
                return Err(HttpError::UnexpectedEof);
            }
            let end = e + n as usize;
            let payload = copy_range(s, e, end);
            let tail = find_line_end(s, end);
            Ok((payload, tail))
        },
    }
}

} // verus!
