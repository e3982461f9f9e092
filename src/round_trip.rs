//! Reading back what the writer produces.
use vstd::prelude::*;

use crate::bytes::{
    decimal_digits, decimal_of, is_space, lemma_index_from_at, lemma_line_end_at, line_end,
    skip_space, skip_space_back, split_from, split_on, trimmed,
};
use crate::error::HttpError;
use crate::header::{header_of, is_field_value, is_tchar, is_token};
use crate::message::{RequestView, ResponseView};
use crate::reader::{
    crlf, headers_from, is_content_length, length_of, request_of, response_of,
};
use crate::status::{canonical_reason_of, status_of};
use crate::version::{lemma_version_round_trip, version_token, Version};
use crate::writer::{
    colon_space, header_line, header_lines, request_bytes, request_head, response_bytes,
    response_head, status_text,
};

verus! {

/// Bytes that hold no whitespace.
pub open spec fn no_space(s: Seq<u8>) -> bool {
    forall|i: int| 0 <= i < s.len() ==> !is_space(#[trigger] s[i])
}

/// A header that reads back as itself: a valid name, a printable value without
/// whitespace at either end, and a number where it is a Content-Length.
pub open spec fn wf_header(h: (Seq<u8>, Seq<u8>)) -> bool {
    &&& is_token(h.0)
    &&& is_field_value(h.1)
    &&& (h.1.len() == 0 || (!is_space(h.1[0]) && !is_space(h.1.last())))
    &&& (is_content_length(h.0) ==> decimal_of(h.1) is Some)
}

pub open spec fn wf_headers(hs: Seq<(Seq<u8>, Seq<u8>)>) -> bool {
    forall|i: int| 0 <= i < hs.len() ==> wf_header(#[trigger] hs[i])
}

proof fn lemma_header_lines_cons(h: (Seq<u8>, Seq<u8>), t: Seq<(Seq<u8>, Seq<u8>)>)
    ensures
        header_lines(seq![h] + t) == header_line(h) + header_lines(t),
    decreases t.len(),
{
    if t.len() == 0 {
        assert((seq![h] + t).drop_last() =~= Seq::<(Seq<u8>, Seq<u8>)>::empty());
        assert((seq![h] + t).last() == h);
        assert(header_lines(Seq::<(Seq<u8>, Seq<u8>)>::empty()) == Seq::<u8>::empty());
        assert(header_lines(seq![h] + t) =~= header_line(h) + header_lines(t));
    } else {
        lemma_header_lines_cons(h, t.drop_last());
        assert((seq![h] + t).drop_last() =~= seq![h] + t.drop_last());
        assert(header_lines(seq![h] + t) =~= header_line(h) + header_lines(t));
    }
}

/// A line of `x` and a line terminator trims to `x` where `x` has no whitespace at
/// either end.
proof fn lemma_trim_line(x: Seq<u8>)
    requires
        x.len() > 0,
        !is_space(x[0]),
        !is_space(x.last()),
    ensures
        trimmed(x + crlf()) == x,
{
    let y = x + crlf();
    let n = y.len() as int;
    assert(y[0] == x[0]);
    assert(skip_space(y, 0) == 0);
    assert(y[n - 3] == x.last());
    assert(skip_space_back(y, n, 0) == skip_space_back(y, n - 1, 0));
    assert(skip_space_back(y, n - 1, 0) == skip_space_back(y, n - 2, 0));
    assert(skip_space_back(y, n - 2, 0) == n - 2);
    assert(y.subrange(0, n - 2) =~= x);
}

/// What follows the colon of a header line trims to the value.
proof fn lemma_trim_value(v: Seq<u8>)
    requires
        v.len() == 0 || (!is_space(v[0]) && !is_space(v.last())),
    ensures
        trimmed(seq![32u8] + v + crlf()) == v,
{
    let y = seq![32u8] + v + crlf();
    let n = y.len() as int;
    if v.len() == 0 {
        assert(skip_space(y, 0) == skip_space(y, 1));
        assert(skip_space(y, 1) == skip_space(y, 2));
        assert(skip_space(y, 2) == skip_space(y, 3));
        assert(skip_space(y, 3) == 3);
        assert(skip_space_back(y, 3, 3) == 3);
        assert(y.subrange(3, 3) =~= v);
    } else {
        assert(y[1] == v[0]);
        assert(skip_space(y, 0) == skip_space(y, 1));
        assert(skip_space(y, 1) == 1);
        assert(y[n - 3] == v.last());
        assert(skip_space_back(y, n, 1) == skip_space_back(y, n - 1, 1));
        assert(skip_space_back(y, n - 1, 1) == skip_space_back(y, n - 2, 1));
        assert(skip_space_back(y, n - 2, 1) == n - 2);
        assert(y.subrange(1, n - 2) =~= v);
    }
}

/// A well-formed header line reads back as its header.
proof fn lemma_header_line_reads(h: (Seq<u8>, Seq<u8>))
    requires
        wf_header(h),
    ensures
        header_of(header_line(h)) == Ok::<_, HttpError>(h),
        header_line(h).len() >= 5,
        header_line(h).last() == 10,
        forall|j: int| 0 <= j < header_line(h).len() - 1 ==> #[trigger] header_line(h)[j] != 10,
{
    let line = header_line(h);
    let k = h.0.len() as int;
    assert(line == h.0 + colon_space() + h.1 + crlf());
    assert forall|j: int| 0 <= j < k implies line[j] != 58 by {
        assert(line[j] == h.0[j]);
        assert(is_tchar(h.0[j]));
    }
    assert(line[k] == 58);
    lemma_index_from_at(line, 58, 0, k);
    assert(line.subrange(0, k) =~= h.0);
    assert(line.subrange(k + 1, line.len() as int) =~= seq![32u8] + h.1 + crlf());
    lemma_trim_value(h.1);
    assert forall|j: int| 0 <= j < line.len() - 1 implies #[trigger] line[j] != 10 by {
        if j < k {
            assert(line[j] == h.0[j]);
            assert(is_tchar(h.0[j]));
        } else if k + 2 <= j < k + 2 + h.1.len() {
            assert(line[j] == h.1[j - k - 2]);
        }
    }
}

/// A header block of well-formed headers, followed by its empty line, reads back
/// as those headers.
proof fn lemma_headers_read_back(s: Seq<u8>, pos: int, hs: Seq<(Seq<u8>, Seq<u8>)>)
    requires
        wf_headers(hs),
        0 <= pos,
        pos + header_lines(hs).len() + 2 <= s.len(),
        s.subrange(pos, pos + header_lines(hs).len() + 2) == header_lines(hs) + crlf(),
    ensures
        headers_from(s, pos) == Ok::<_, HttpError>((hs, pos + header_lines(hs).len() + 2)),
    decreases hs.len(),
{
    let block = header_lines(hs) + crlf();
    if hs.len() == 0 {
        assert(s[pos] == block[0]);
        assert(s[pos + 1] == block[1]);
        lemma_line_end_at(s, pos, pos + 1);
        assert(s.subrange(pos, pos + 2) =~= crlf());
        assert(hs =~= Seq::<(Seq<u8>, Seq<u8>)>::empty());
    } else {
        let h = hs[0];
        let t = hs.drop_first();
        assert(hs =~= seq![h] + t);
        lemma_header_lines_cons(h, t);
        assert(wf_header(hs[0]));
        lemma_header_line_reads(h);
        let line = header_line(h);
        let l = line.len() as int;
        assert(block =~= line + (header_lines(t) + crlf()));
        assert forall|j: int| pos <= j < pos + l - 1 implies s[j] != 10 by {
            assert(s[j] == block[j - pos]);
            assert(block[j - pos] == line[j - pos]);
        }
        assert(s[pos + l - 1] == block[l - 1]);
        lemma_line_end_at(s, pos, pos + l - 1);
        assert(s.subrange(pos, pos + l) =~= line);
        assert(line != crlf()) by {
            assert(line.len() != crlf().len());
        }
        assert(wf_headers(t)) by {
            assert forall|i: int| 0 <= i < t.len() implies wf_header(#[trigger] t[i]) by {
                assert(t[i] == hs[i + 1]);
            }
        }
        let m = header_lines(t).len() + 2;
        let rest = header_lines(t) + crlf();
        assert forall|j: int| 0 <= j < m implies #[trigger] s.subrange(pos + l, pos + l + m)[j]
            == rest[j] by {
            assert(s[pos + l + j] == s.subrange(pos, pos + block.len())[l + j]);
            assert(block[l + j] == rest[j]);
        }
        assert(s.subrange(pos + l, pos + l + m) =~= rest);
        lemma_headers_read_back(s, pos + l, t);
    }
}

/// A request that reads back as itself: method and target non-empty and free of
/// whitespace, well-formed headers, and a declared length equal to the body's.
pub open spec fn wf_request(m: RequestView) -> bool {
    &&& m.method.len() > 0
    &&& no_space(m.method)
    &&& m.uri.len() > 0
    &&& no_space(m.uri)
    &&& wf_headers(m.headers)
    &&& length_of(m.headers) is Some
    &&& length_of(m.headers).unwrap() == m.body.len()
}

/// A response that reads back as itself: a three-digit status code with its
/// registered reason phrase (free of whitespace) or none, well-formed headers,
/// and a declared length equal to the body's.
pub open spec fn wf_response(m: ResponseView) -> bool {
    &&& 100 <= m.status <= 999
    &&& m.reason == canonical_reason_of(m.status)
    &&& (m.reason matches Some(r) ==> r.len() > 0 && no_space(r))
    &&& wf_headers(m.headers)
    &&& length_of(m.headers) is Some
    &&& length_of(m.headers).unwrap() == m.body.len()
}

proof fn lemma_token_no_space(v: Version)
    ensures
        no_space(version_token(v)),
        version_token(v).len() == 8,
{
    let t = version_token(v);
    assert forall|i: int| 0 <= i < t.len() implies !is_space(#[trigger] t[i]) by {
        assert(t[i] >= 46);
    }
}

/// Three whitespace-free fields joined by single spaces split back into them.
proof fn lemma_split_three(a: Seq<u8>, b: Seq<u8>, c: Seq<u8>)
    requires
        no_space(a),
        no_space(b),
        no_space(c),
    ensures
        split_on(a + seq![32u8] + b + seq![32u8] + c, 32) == seq![a, b, c],
{
    let x = a + seq![32u8] + b + seq![32u8] + c;
    let i = a.len() as int;
    let j = i + 1 + b.len();
    assert forall|k: int| 0 <= k < i implies x[k] != 32 by {
        assert(x[k] == a[k]);
    }
    lemma_index_from_at(x, 32, 0, i);
    assert forall|k: int| i + 1 <= k < j implies x[k] != 32 by {
        assert(x[k] == b[k - i - 1]);
    }
    lemma_index_from_at(x, 32, i + 1, j);
    assert forall|k: int| j + 1 <= k < x.len() implies x[k] != 32 by {
        assert(x[k] == c[k - j - 1]);
    }
    lemma_index_from_at(x, 32, j + 1, x.len() as int);
    assert(x.subrange(0, i) =~= a);
    assert(x.subrange(i + 1, j) =~= b);
    assert(x.subrange(j + 1, x.len() as int) =~= c);
    assert(split_from(x, 32, j + 1) == seq![c]);
    assert(split_from(x, 32, i + 1) =~= seq![b, c]);
    assert(split_from(x, 32, 0) =~= seq![a, b, c]);
}

/// Two whitespace-free fields joined by a single space split back into them.
proof fn lemma_split_two(a: Seq<u8>, b: Seq<u8>)
    requires
        no_space(a),
        no_space(b),
    ensures
        split_on(a + seq![32u8] + b, 32) == seq![a, b],
{
    let x = a + seq![32u8] + b;
    let i = a.len() as int;
    assert forall|k: int| 0 <= k < i implies x[k] != 32 by {
        assert(x[k] == a[k]);
    }
    lemma_index_from_at(x, 32, 0, i);
    assert forall|k: int| i + 1 <= k < x.len() implies x[k] != 32 by {
        assert(x[k] == b[k - i - 1]);
    }
    lemma_index_from_at(x, 32, i + 1, x.len() as int);
    assert(x.subrange(0, i) =~= a);
    assert(x.subrange(i + 1, x.len() as int) =~= b);
    assert(split_from(x, 32, i + 1) == seq![b]);
    assert(split_from(x, 32, 0) =~= seq![a, b]);
}

/// A stream that starts with a start line `x` and then a header block of `hs`
/// reads that line and that block.
proof fn lemma_head_reads_back(s: Seq<u8>, x: Seq<u8>, hs: Seq<(Seq<u8>, Seq<u8>)>)
    requires
        x.len() > 0,
        no_space(x.subrange(0, 1)),
        !is_space(x.last()),
        forall|k: int| 0 <= k < x.len() ==> #[trigger] x[k] != 10,
        wf_headers(hs),
        s.len() >= x.len() + 2 + header_lines(hs).len() + 2,
        s.subrange(0, x.len() + 2 + header_lines(hs).len() + 2 as int) == x + crlf() + header_lines(hs)
            + crlf(),
    ensures
        line_end(s, 0) == x.len() + 2,
        trimmed(s.subrange(0, x.len() + 2 as int)) == x,
        headers_from(s, x.len() + 2 as int) == Ok::<_, HttpError>(
            (hs, x.len() + 2 + header_lines(hs).len() + 2 as int),
        ),
{
    let n = x.len() as int;
    let total = n + 2 + header_lines(hs).len() + 2;
    let head = x + crlf() + header_lines(hs) + crlf();
    assert forall|k: int| 0 <= k < n + 1 implies s[k] != 10 by {
        assert(s[k] == s.subrange(0, total)[k]);
        assert(head[k] == if k < n { x[k] } else { 13u8 });
    }
    assert(s[n + 1] == s.subrange(0, total)[n + 1]);
    assert(head[n + 1] == 10);
    lemma_line_end_at(s, 0, n + 1);
    assert(x.subrange(0, 1)[0] == x[0]);
    assert forall|k: int| 0 <= k < n + 2 implies #[trigger] s.subrange(0, n + 2)[k] == (x
        + crlf())[k] by {
        assert(s[k] == s.subrange(0, total)[k]);
        assert(head[k] == (x + crlf())[k]);
    }
    assert(s.subrange(0, n + 2) =~= x + crlf());
    lemma_trim_line(x);
    let m = header_lines(hs).len() + 2;
    let block = header_lines(hs) + crlf();
    assert forall|k: int| 0 <= k < m implies #[trigger] s.subrange(n + 2, n + 2 + m)[k]
        == block[k] by {
        assert(s[n + 2 + k] == s.subrange(0, total)[n + 2 + k]);
        assert(head[n + 2 + k] == block[k]);
    }
    assert(s.subrange(n + 2, n + 2 + m) =~= block);
    lemma_headers_read_back(s, n + 2, hs);
}

/// A stream that starts with the head of a well-formed request reads as that
/// request, with as many body bytes as it declares where the stream holds them.
proof fn lemma_request_head_reads(m: RequestView, s: Seq<u8>)
    requires
        wf_request(m),
        s.len() >= request_head(m).len(),
        s.subrange(0, request_head(m).len() as int) == request_head(m),
    ensures
        ({
            let p = request_head(m).len() as int;
            let n = m.body.len() as int;
            request_of(s) == if p + n > s.len() {
                Err::<(RequestView, int), _>(HttpError::UnexpectedEof)
            } else {
                Ok((RequestView { body: s.subrange(p, p + n), ..m }, p + n))
            }
        }),
{
    let t = version_token(m.version);
    lemma_token_no_space(m.version);
    let x = m.method + seq![32u8] + m.uri + seq![32u8] + t;
    assert(request_head(m) =~= x + crlf() + header_lines(m.headers) + crlf());
    assert forall|k: int| 0 <= k < x.len() implies #[trigger] x[k] != 10 by {
        if k < m.method.len() {
            assert(x[k] == m.method[k]);
        } else if m.method.len() < k < m.method.len() + 1 + m.uri.len() {
            assert(x[k] == m.uri[k - m.method.len() - 1]);
        } else if k > m.method.len() + 1 + m.uri.len() {
            assert(x[k] == t[k - m.method.len() - m.uri.len() - 2]);
        }
    }
    assert(x.subrange(0, 1)[0] == m.method[0]);
    assert(x.last() == t[7]);
    lemma_head_reads_back(s, x, m.headers);
    lemma_split_three(m.method, m.uri, t);
    lemma_version_round_trip(m.version);
}

/// Reading back a well-formed request from the bytes the writer gives for it, on
/// a stream that goes on with anything, yields the same request and takes
/// exactly those bytes: parsing then writing again reproduces them.
pub proof fn lemma_request_round_trip(m: RequestView, rest: Seq<u8>)
    requires
        wf_request(m),
    ensures
        request_bytes(m) is Ok,
        request_of(request_bytes(m).unwrap() + rest) == Ok::<_, HttpError>(
            (m, request_bytes(m).unwrap().len() as int),
        ),
{
    let s = request_bytes(m).unwrap() + rest;
    let hl = request_head(m).len() as int;
    assert(m.body.subrange(0, m.body.len() as int) =~= m.body);
    assert(s.subrange(0, hl) =~= request_head(m));
    lemma_request_head_reads(m, s);
    assert(s.subrange(hl, hl + m.body.len() as int) =~= m.body);
}

/// A well-formed request cut short inside its body fails with `UnexpectedEof`:
/// a declared length beyond the bytes the stream holds never gives a shorter body.
pub proof fn lemma_request_truncated(m: RequestView, k: int)
    requires
        wf_request(m),
        0 <= k < m.body.len(),
    ensures
        request_of(request_head(m) + m.body.subrange(0, k)) == Err::<(RequestView, int), _>(
            HttpError::UnexpectedEof,
        ),
{
    let s = request_head(m) + m.body.subrange(0, k);
    assert(s.subrange(0, request_head(m).len() as int) =~= request_head(m));
    lemma_request_head_reads(m, s);
}

/// A three-digit code written in decimal reads back as that code.
proof fn lemma_status_digits(code: u16)
    requires
        100 <= code <= 999,
    ensures
        status_of(decimal_digits(code as nat)) == Some(code),
        decimal_digits(code as nat).len() == 3,
        no_space(decimal_digits(code as nat)),
{
    let n = code as nat;
    assert(n / 10 >= 10 && n / 100 < 10) by (nonlinear_arith)
        requires
            100 <= n <= 999,
    ;
    assert((n / 10) / 10 == n / 100) by (nonlinear_arith);
    let d = decimal_digits(n);
    assert(decimal_digits(n / 100) == seq![(48 + n / 100) as u8]);
    assert(decimal_digits(n / 10) == decimal_digits(n / 100).push((48 + (n / 10) % 10) as u8));
    assert(d == decimal_digits(n / 10).push((48 + n % 10) as u8));
    assert(d =~= seq![(48 + n / 100) as u8, (48 + (n / 10) % 10) as u8, (48 + n % 10) as u8]);
    assert(100 * (n / 100) + 10 * ((n / 10) % 10) + n % 10 == n) by (nonlinear_arith);
    assert(1 <= n / 100 <= 9 && (n / 10) % 10 <= 9 && n % 10 <= 9) by (nonlinear_arith)
        requires
            100 <= n <= 999,
    ;
    assert forall|i: int| 0 <= i < d.len() implies !is_space(#[trigger] d[i]) by {
        assert(d[i] >= 48);
    }
}

/// A stream that starts with the head of a well-formed response reads as that
/// response, with as many body bytes as it declares where the stream holds them.
proof fn lemma_response_head_reads(m: ResponseView, s: Seq<u8>)
    requires
        wf_response(m),
        s.len() >= response_head(m).len(),
        s.subrange(0, response_head(m).len() as int) == response_head(m),
    ensures
        ({
            let p = response_head(m).len() as int;
            let n = m.body.len() as int;
            response_of(s) == if p + n > s.len() {
                Err::<(ResponseView, int), _>(HttpError::UnexpectedEof)
            } else {
                Ok((ResponseView { body: s.subrange(p, p + n), ..m }, p + n))
            }
        }),
{
    let t = version_token(m.version);
    lemma_token_no_space(m.version);
    lemma_status_digits(m.status);
    let d = decimal_digits(m.status as nat);
    let x = t + seq![32u8] + status_text(m.status, m.reason);
    assert(response_head(m) =~= x + crlf() + header_lines(m.headers) + crlf());
    match m.reason {
        Some(r) => {
            assert(x =~= t + seq![32u8] + d + seq![32u8] + r);
            assert forall|k: int| 0 <= k < x.len() implies #[trigger] x[k] != 10 by {
                if k < 8 {
                    assert(x[k] == t[k]);
                } else if 8 < k < 12 {
                    assert(x[k] == d[k - 9]);
                } else if k > 12 {
                    assert(x[k] == r[k - 13]);
                }
            }
            assert(x.last() == r.last());
            lemma_split_three(t, d, r);
        },
        None => {
            assert(x =~= t + seq![32u8] + d);
            assert forall|k: int| 0 <= k < x.len() implies #[trigger] x[k] != 10 by {
                if k < 8 {
                    assert(x[k] == t[k]);
                } else if 8 < k {
                    assert(x[k] == d[k - 9]);
                }
            }
            assert(x.last() == d[2]);
            lemma_split_two(t, d);
        },
    }
    assert(x.subrange(0, 1)[0] == t[0]);
    lemma_head_reads_back(s, x, m.headers);
    lemma_version_round_trip(m.version);
}

/// Reading back a well-formed response from the bytes the writer gives for it, on
/// a stream that goes on with anything, yields the same response and takes
/// exactly those bytes: parsing then writing again reproduces them.
pub proof fn lemma_response_round_trip(m: ResponseView, rest: Seq<u8>)
    requires
        wf_response(m),
    ensures
        response_bytes(m) is Ok,
        response_of(response_bytes(m).unwrap() + rest) == Ok::<_, HttpError>(
            (m, response_bytes(m).unwrap().len() as int),
        ),
{
    let s = response_bytes(m).unwrap() + rest;
    let hl = response_head(m).len() as int;
    assert(m.body.subrange(0, m.body.len() as int) =~= m.body);
    assert(s.subrange(0, hl) =~= response_head(m));
    lemma_response_head_reads(m, s);
    assert(s.subrange(hl, hl + m.body.len() as int) =~= m.body);
}

/// A well-formed response cut short inside its body fails with `UnexpectedEof`.
pub proof fn lemma_response_truncated(m: ResponseView, k: int)
    requires
        wf_response(m),
        0 <= k < m.body.len(),
    ensures
        response_of(response_head(m) + m.body.subrange(0, k)) == Err::<(ResponseView, int), _>(
            HttpError::UnexpectedEof,
        ),
{
    let s = response_head(m) + m.body.subrange(0, k);
    assert(s.subrange(0, response_head(m).len() as int) =~= response_head(m));
    lemma_response_head_reads(m, s);
}

} // verus!
