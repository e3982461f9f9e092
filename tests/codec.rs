use http_codec::{
    declared_body_length, find_header, format_version, frame_size, parse_header, parse_version, read_chunk, read_request,
    read_response, write_chunk, write_request, write_response, Header, HttpError, Request,
    Response, Version,
};

fn header(name: &str, value: &str) -> Header {
    Header {
        name: name.as_bytes().to_vec(),
        value: value.as_bytes().to_vec(),
    }
}

fn value_of<'a>(hs: &'a Vec<Header>, name: &str) -> &'a [u8] {
    let i = find_header(hs, name.as_bytes()).unwrap();
    hs[i].value.as_slice()
}

#[test]
fn read_simple_request() {
    let request_text = "GET / HTTP/1.1\r\n\
                        host: example.com\r\n\
                        \r\n";
    let (request, used) = read_request(request_text.as_bytes()).unwrap();

    assert!(request.method == b"GET");
    assert!(request.uri == b"/");
    assert!(request.version == Version::Http11);
    assert!(value_of(&request.headers, "host") == b"example.com");
    assert!(request.body.is_empty());
    assert_eq!(used, request_text.len());
}

#[test]
fn read_simple_response() {
    let response_text = "HTTP/1.1 200 OK\r\n\
                        content-type: text/html\r\n\
                        content-length: 20\r\n\
                        \r\n\
                        <h1>Hello World</h1>";
    let (response, used) = read_response(response_text.as_bytes()).unwrap();

    assert!(response.version == Version::Http11);
    assert!(response.status == 200);
    assert!(response.reason.as_deref() == Some(&b"OK"[..]));
    assert!(value_of(&response.headers, "content-type") == b"text/html");
    assert!(value_of(&response.headers, "content-length") == b"20");
    assert!(std::str::from_utf8(&response.body).unwrap() == "<h1>Hello World</h1>");
    assert_eq!(used, response_text.len());
}

#[test]
fn write_simple_request() {
    let request = Request {
        method: b"GET".to_vec(),
        uri: b"/".to_vec(),
        version: Version::Http11,
        headers: vec![header("host", "example.com")],
        body: vec![],
    };
    let bytes = write_request(&request).unwrap();

    let request_text = "GET / HTTP/1.1\r\n\
                        host: example.com\r\n\
                        \r\n";
    assert!(bytes.as_slice() == request_text.as_bytes());
}

#[test]
fn write_simple_response() {
    let response = Response {
        version: Version::Http11,
        status: 200,
        reason: Some(b"OK".to_vec()),
        headers: vec![
            header("content-type", "text/html"),
            header("content-length", "20"),
        ],
        body: b"<h1>Hello World</h1>".to_vec(),
    };
    let bytes = write_response(&response).unwrap();

    let response_text = "HTTP/1.1 200 OK\r\n\
                        content-type: text/html\r\n\
                        content-length: 20\r\n\
                        \r\n\
                        <h1>Hello World</h1>";
    assert!(bytes.as_slice() == response_text.as_bytes());
}

#[test]
fn version_tokens_round_trip() {
    for token in ["HTTP/0.9", "HTTP/1.0", "HTTP/1.1", "HTTP/2.0", "HTTP/3.0"] {
        let v = parse_version(token.as_bytes()).unwrap();
        assert_eq!(format_version(v), token.as_bytes().to_vec());
    }
    assert_eq!(parse_version(b"HTTP/2.0"), Ok(Version::Http2));
}

#[test]
fn version_case_variant_unsupported() {
    assert_eq!(parse_version(b"http/1.1"), Err(HttpError::UnsupportedVersion));
    assert_eq!(parse_version(b"HTTP/2"), Err(HttpError::UnsupportedVersion));
    let r = read_request(b"GET / HTTP/1.2\r\n\r\n");
    assert_eq!(r.err(), Some(HttpError::UnsupportedVersion));
}

#[test]
fn parsed_response_writes_back_identically() {
    let text = "HTTP/1.1 200 OK\r\n\
                content-type: text/html\r\n\
                content-length: 20\r\n\
                \r\n\
                <h1>Hello World</h1>";
    let (response, _) = read_response(text.as_bytes()).unwrap();
    assert_eq!(write_response(&response).unwrap(), text.as_bytes().to_vec());
}

#[test]
fn parsed_request_writes_back_identically() {
    let text = "POST /submit HTTP/1.0\r\nHost: a.example\r\nX-Tag: one two\r\nContent-Length: 5\r\nx-tag: three\r\n\r\nhello";
    let (request, used) = read_request(text.as_bytes()).unwrap();
    assert_eq!(used, text.len());
    assert_eq!(request.headers.len(), 4);
    assert_eq!(request.headers[1].name, b"X-Tag".to_vec());
    assert_eq!(write_request(&request).unwrap(), text.as_bytes().to_vec());
}

#[test]
fn no_content_length_gives_empty_body() {
    let (request, used) = read_request(b"GET / HTTP/1.1\r\nhost: x\r\n\r\nextra").unwrap();
    assert!(request.body.is_empty());
    assert_eq!(used, 27);
}

#[test]
fn short_body_is_eof() {
    let r = read_request(b"POST / HTTP/1.1\r\ncontent-length: 10\r\n\r\nabc");
    assert_eq!(r.err(), Some(HttpError::UnexpectedEof));
    let r = read_response(b"HTTP/1.1 200 OK\r\ncontent-length: 4\r\n\r\n");
    assert_eq!(r.err(), Some(HttpError::UnexpectedEof));
}

#[test]
fn header_line_without_colon() {
    assert_eq!(parse_header(b"no colon here\r\n").err(), Some(HttpError::MalformedHeaderLine));
    let r = read_request(b"GET / HTTP/1.1\r\nhost example.com\r\n\r\n");
    assert_eq!(r.err(), Some(HttpError::MalformedHeaderLine));
}

#[test]
fn header_value_is_trimmed_and_split_at_first_colon() {
    let h = parse_header(b"Host:  example.com:8080 \r\n").unwrap();
    assert_eq!(h.name, b"Host".to_vec());
    assert_eq!(h.value, b"example.com:8080".to_vec());
}

#[test]
fn invalid_header_name_and_value() {
    assert_eq!(parse_header(b"bad name: x\r\n").err(), Some(HttpError::InvalidHeaderName));
    assert_eq!(parse_header(b": x\r\n").err(), Some(HttpError::InvalidHeaderName));
    assert_eq!(parse_header(b"name: a\x01b\r\n").err(), Some(HttpError::InvalidHeaderValue));
    assert_eq!(parse_header(b"name: caf\xc3\xa9\r\n").err(), Some(HttpError::InvalidHeaderValue));
}

#[test]
fn empty_stream_is_connection_closed() {
    assert_eq!(read_request(b"").err(), Some(HttpError::ConnectionClosed));
}

#[test]
fn two_field_request_line_malformed() {
    assert_eq!(read_request(b"GET /\r\n\r\n").err(), Some(HttpError::MalformedStartLine));
    assert_eq!(read_request(b"GET  / HTTP/1.1\r\n\r\n").err(), Some(HttpError::MalformedStartLine));
    assert_eq!(read_response(b"HTTP/1.1\r\n\r\n").err(), Some(HttpError::MalformedStartLine));
}

#[test]
fn invalid_content_length() {
    let r = read_request(b"GET / HTTP/1.1\r\ncontent-length: ten\r\n\r\n");
    assert_eq!(r.err(), Some(HttpError::InvalidContentLength));
    let r = read_request(b"GET / HTTP/1.1\r\nContent-Length: 99999999999999999999\r\n\r\n");
    assert_eq!(r.err(), Some(HttpError::InvalidContentLength));
}

#[test]
fn last_content_length_wins() {
    let (request, used) =
        read_request(b"POST / HTTP/1.1\r\nContent-Length: 1\r\nCONTENT-LENGTH: 3\r\n\r\nabcdef").unwrap();
    assert_eq!(request.body, b"abc".to_vec());
    assert_eq!(used, 60);
}

#[test]
fn response_status_codes() {
    let (response, _) = read_response(b"HTTP/1.0 404\r\n\r\n").unwrap();
    assert_eq!(response.status, 404);
    assert_eq!(response.reason, Some(b"Not Found".to_vec()));
    let (response, _) = read_response(b"HTTP/1.1 599 Whatever\r\n\r\n").unwrap();
    assert_eq!(response.status, 599);
    assert_eq!(response.reason, None);
    assert_eq!(write_response(&response).unwrap(), b"HTTP/1.1 599\r\n\r\n".to_vec());
    let r = read_response(b"HTTP/1.1 20x OK\r\n\r\n");
    assert_eq!(r.err(), Some(HttpError::InvalidStatusCode));
    let r = read_response(b"HTTP/1.1 099 OK\r\n\r\n");
    assert_eq!(r.err(), Some(HttpError::InvalidStatusCode));
}

#[test]
fn writer_trusts_declared_length() {
    let mut request = Request {
        method: b"PUT".to_vec(),
        uri: b"/x".to_vec(),
        version: Version::Http10,
        headers: vec![header("Content-Length", "2")],
        body: b"abcd".to_vec(),
    };
    assert_eq!(
        write_request(&request).unwrap(),
        b"PUT /x HTTP/1.0\r\nContent-Length: 2\r\n\r\nab".to_vec()
    );
    request.headers[0].value = b"9".to_vec();
    assert_eq!(write_request(&request).err(), Some(HttpError::UnexpectedEof));
    request.headers[0].value = b"x".to_vec();
    assert_eq!(write_request(&request).err(), Some(HttpError::InvalidContentLength));
}

#[test]
fn writer_skips_unprintable_values() {
    let request = Request {
        method: b"GET".to_vec(),
        uri: b"/".to_vec(),
        version: Version::Http3,
        headers: vec![header("a", "1"), Header { name: b"b".to_vec(), value: vec![0xff] }],
        body: vec![],
    };
    assert_eq!(write_request(&request).unwrap(), b"GET / HTTP/3.0\r\na: 1\r\n\r\n".to_vec());
}

#[test]
fn chunk_round_trip() {
    let frame = write_chunk(b"abc");
    assert_eq!(frame, b"3\r\nabc\r\n".to_vec());
    let (payload, used) = read_chunk(&frame).unwrap();
    assert_eq!(payload, b"abc".to_vec());
    assert_eq!(used, frame.len());
}

#[test]
fn chunk_sequence_and_errors() {
    let mut stream = write_chunk(b"");
    stream.extend(write_chunk(b"0123456789ab"));
    let (first, used) = read_chunk(&stream).unwrap();
    assert!(first.is_empty());
    let (second, _) = read_chunk(&stream[used..]).unwrap();
    assert_eq!(second, b"0123456789ab".to_vec());
    assert_eq!(write_chunk(b"0123456789ab")[..4].to_vec(), b"12\r\n".to_vec());
    assert_eq!(read_chunk(b"x\r\nabc\r\n").err(), Some(HttpError::InvalidFrameSize));
    assert_eq!(read_chunk(b"").err(), Some(HttpError::InvalidFrameSize));
    assert_eq!(read_chunk(b"5\r\nab").err(), Some(HttpError::UnexpectedEof));
}

#[test]
fn declared_length_of_a_head() {
    assert_eq!(declared_body_length(b"POST / HTTP/1.1\r\nContent-Length: 42\r\n\r\n"), Ok(42));
    assert_eq!(declared_body_length(b"GET / HTTP/1.1\r\nhost: a\r\n\r\n"), Ok(0));
    assert_eq!(
        declared_body_length(b"GET / HTTP/1.1\r\ncontent-length: x\r\n\r\n"),
        Err(HttpError::InvalidContentLength)
    );
    assert_eq!(declared_body_length(b"GET / HTTP/1.1\r\n"), Err(HttpError::MalformedHeaderLine));
}

#[test]
fn frame_size_line() {
    assert_eq!(frame_size(b" 17 \r\nrest"), Some(17));
    assert_eq!(frame_size(b"-1\r\n"), None);
    assert_eq!(frame_size(b"\r\n"), None);
}

#[test]
fn header_lookup_ignores_case() {
    let hs = vec![header("Host", "a"), header("X-One", "1"), header("host", "b")];
    assert_eq!(find_header(&hs, b"HOST"), Some(0));
    assert_eq!(find_header(&hs, b"x-one"), Some(1));
    assert_eq!(find_header(&hs, b"x-two"), None);
}

#[test]
fn transfer_encoding_is_an_ordinary_header() {
    let text = b"HTTP/1.1 200 OK\r\nTransfer-Encoding: chunked\r\n\r\n3\r\nabc\r\n";
    let (response, used) = read_response(text).unwrap();
    assert_eq!(value_of(&response.headers, "transfer-encoding"), b"chunked");
    assert!(response.body.is_empty());
    assert_eq!(used, 47);
}

#[test]
fn header_at_end_of_stream_without_terminator() {
    let r = read_request(b"GET / HTTP/1.1\r\nhost: a\r\n");
    assert_eq!(r.err(), Some(HttpError::MalformedHeaderLine));
}
