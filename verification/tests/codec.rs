use mini_express::decode;
use mini_express::decode_text;
use mini_express::encode;
use mini_express::encode_request;
use mini_express::ParseError;
use mini_express::Request;
use mini_express::Response;

fn wire(res: &Response) -> String {
    String::from_utf8(encode(res)).unwrap()
}

#[test]
fn decode_minimal_request() {
    let req = decode(b"GET /\r\n\r\n").unwrap();
    assert_eq!(req.method, "GET");
    assert_eq!(req.path, "/");
    assert_eq!(req.body, "");
}

#[test]
fn decode_full_request_line_and_headers() {
    let req = decode(b"POST /submit HTTP/1.1\r\nHost: example\r\nContent-Length: 5\r\n\r\nhello").unwrap();
    assert_eq!(req.method, "POST");
    assert_eq!(req.path, "/submit");
    assert_eq!(req.body, "hello");
}

#[test]
fn decode_body_is_all_after_the_first_empty_line() {
    let req = decode(b"POST /x\r\n\r\none\r\n\r\ntwo\r\n\r\n").unwrap();
    assert_eq!(req.body, "one\r\n\r\ntwo\r\n\r\n");
}

#[test]
fn decode_without_empty_line_has_empty_body() {
    let req = decode(b"GET /x HTTP/1.1\r\nHost: a\r\n").unwrap();
    assert_eq!(req.method, "GET");
    assert_eq!(req.path, "/x");
    assert_eq!(req.body, "");
}

#[test]
fn decode_truncated_input_is_tolerated() {
    let req = decode(b"GET /only").unwrap();
    assert_eq!(req.method, "GET");
    assert_eq!(req.path, "/only");
    assert_eq!(req.body, "");
    let req = decode(b"GET /x\r\n\r").unwrap();
    assert_eq!(req.path, "/x");
    assert_eq!(req.body, "");
}

#[test]
fn decode_separates_tokens_by_any_white_space() {
    let req = decode(b"  \tGET \t  /a/b   HTTP/1.1\r\n\r\n").unwrap();
    assert_eq!(req.method, "GET");
    assert_eq!(req.path, "/a/b");
    let req = decode_text("GET\u{a0}/nbsp\u{3000}x").unwrap();
    assert_eq!(req.method, "GET");
    assert_eq!(req.path, "/nbsp");
}

#[test]
fn decode_reads_only_the_first_line_for_tokens() {
    assert_eq!(decode(b"GET\n/path HTTP/1.1\r\n\r\n").unwrap_err(), ParseError::MalformedRequestLine);
    assert_eq!(decode(b"\nGET / HTTP/1.1\r\n\r\n").unwrap_err(), ParseError::MalformedRequestLine);
    let req = decode(b"GET /a\nPOST /b\n").unwrap();
    assert_eq!(req.method, "GET");
    assert_eq!(req.path, "/a");
}

#[test]
fn decode_rejects_fewer_than_two_tokens() {
    assert_eq!(decode(b"").unwrap_err(), ParseError::MalformedRequestLine);
    assert_eq!(decode(b"GET").unwrap_err(), ParseError::MalformedRequestLine);
    assert_eq!(decode(b"GET   ").unwrap_err(), ParseError::MalformedRequestLine);
    assert_eq!(decode(b"   \r\n\r\nbody").unwrap_err(), ParseError::MalformedRequestLine);
    assert_eq!(decode(b"GET\r\n\r\n").unwrap_err(), ParseError::MalformedRequestLine);
    assert_eq!(decode_text("").unwrap_err(), ParseError::MalformedRequestLine);
}

#[test]
fn decode_replaces_ill_formed_bytes() {
    let req = decode(b"GET /\xff\xfe HTTP/1.1\r\n\r\n\xc3\xa9\x80").unwrap();
    assert_eq!(req.method, "GET");
    assert_eq!(req.path, "/\u{fffd}\u{fffd}");
    assert_eq!(req.body, "\u{e9}\u{fffd}");
}

#[test]
fn decode_reads_multibyte_text() {
    let raw = "GET /caf\u{e9}/\u{20ac} HTTP/1.1\r\n\r\n\u{1f600}".as_bytes();
    let req = decode(raw).unwrap();
    assert_eq!(req.path, "/caf\u{e9}/\u{20ac}");
    assert_eq!(req.body, "\u{1f600}");
}

#[test]
fn decode_text_agrees_with_decode() {
    let text = "PUT /things/7 HTTP/1.1\r\nA: b\r\n\r\npayload";
    let a = decode_text(text).unwrap();
    let b = decode(text.as_bytes()).unwrap();
    assert_eq!(a.method, b.method);
    assert_eq!(a.path, b.path);
    assert_eq!(a.body, b.body);
}

#[test]
fn encode_request_writes_the_minimal_form() {
    let req = Request { method: "GET".to_string(), path: "/".to_string(), body: String::new() };
    assert_eq!(encode_request(&req), b"GET /\r\n\r\n".to_vec());
    assert_eq!(req.to_text(), "GET /\r\n\r\n");
    let req = Request {
        method: "POST".to_string(),
        path: "/a/b".to_string(),
        body: "x=1".to_string(),
    };
    assert_eq!(encode_request(&req), b"POST /a/b\r\n\r\nx=1".to_vec());
}

#[test]
fn round_trip_keeps_method_path_and_body() {
    for raw in [
        "GET /\r\n\r\n",
        "GET /user/42 HTTP/1.1\r\nHost: x\r\n\r\n",
        "  DELETE   /a/b/c\r\n\r\nbody with\r\n\r\nempty lines",
        "POST /caf\u{e9}\r\n\r\n\u{20ac}",
        "OPTIONS *",
    ] {
        let first = decode(raw.as_bytes()).unwrap();
        let again = decode(&encode_request(&first)).unwrap();
        assert_eq!(again.method, first.method);
        assert_eq!(again.path, first.path);
        assert_eq!(again.body, first.body);
    }
}

#[test]
fn encode_unauthorized_response() {
    let mut res = Response::new();
    res.status(401).send("Unauthorized access");
    assert_eq!(
        wire(&res),
        "HTTP/1.1 401 Unauthorized\r\nContent-Length: 19\r\n\r\nUnauthorized access"
    );
    let text = wire(&res);
    let mut lines = text.split("\r\n");
    assert_eq!(lines.next(), Some("HTTP/1.1 401 Unauthorized"));
    assert!(text.ends_with("\r\n\r\nUnauthorized access"));
}

#[test]
fn encode_fresh_response() {
    let res = Response::new();
    assert_eq!(wire(&res), "HTTP/1.1 200 OK\r\nContent-Length: 0\r\n\r\n");
    assert_eq!(res.to_text(), "HTTP/1.1 200 OK\r\nContent-Length: 0\r\n\r\n");
}

#[test]
fn encode_uses_the_reason_phrase_table() {
    for (code, phrase) in [
        (200u16, "OK"),
        (201, "Created"),
        (400, "Bad Request"),
        (401, "Unauthorized"),
        (403, "Forbidden"),
        (404, "Not Found"),
        (500, "Internal Server Error"),
        (0, "Unknown"),
        (204, "Unknown"),
        (302, "Unknown"),
        (418, "Unknown"),
        (503, "Unknown"),
        (65535, "Unknown"),
    ] {
        let mut res = Response::new();
        res.status(code);
        assert_eq!(wire(&res), format!("HTTP/1.1 {} {}\r\nContent-Length: 0\r\n\r\n", code, phrase));
    }
}

#[test]
fn encode_writes_each_header_once_in_order() {
    let mut res = Response::new();
    res.header("Content-Type", "text/plain").header("X-A", "1").header("Content-Type", "text/html");
    res.send("hi");
    assert_eq!(
        wire(&res),
        "HTTP/1.1 200 OK\r\nContent-Type: text/html\r\nX-A: 1\r\nContent-Length: 2\r\n\r\nhi"
    );
}

#[test]
fn content_length_overrides_what_the_caller_set() {
    let mut res = Response::new();
    res.header("Content-Length", "999");
    res.send("four");
    assert_eq!(wire(&res), "HTTP/1.1 200 OK\r\nContent-Length: 4\r\n\r\nfour");

    let mut res = Response::new();
    res.send("four");
    res.header("Content-Length", "999");
    assert_eq!(wire(&res), "HTTP/1.1 200 OK\r\nContent-Length: 4\r\n\r\nfour");

    let mut res = Response::new();
    res.header("Content-Length", "7").header("X", "y");
    assert_eq!(wire(&res), "HTTP/1.1 200 OK\r\nContent-Length: 0\r\nX: y\r\n\r\n");
}

#[test]
fn content_length_counts_bytes() {
    let mut res = Response::new();
    res.send("h\u{e9}llo \u{20ac}");
    let bytes = encode(&res);
    let text = String::from_utf8(bytes.clone()).unwrap();
    assert_eq!(text, "HTTP/1.1 200 OK\r\nContent-Length: 10\r\n\r\nh\u{e9}llo \u{20ac}");
    let head = "HTTP/1.1 200 OK\r\nContent-Length: 10\r\n\r\n".len();
    assert_eq!(bytes.len() - head, 10);
}

#[test]
fn content_length_of_every_serialized_response_is_the_body_length() {
    for body in ["", "a", "0123456789", "Not Found", "\r\n\r\n", "\u{1f600}\u{1f600}"] {
        let mut res = Response::new();
        res.header("Content-Length", "1").send(body);
        let bytes = encode(&res);
        let text = String::from_utf8(bytes).unwrap();
        let at = text.find("\r\n\r\n").unwrap();
        let head = &text[..at];
        let line = head.split("\r\n").find(|l| l.starts_with("Content-Length: ")).unwrap();
        assert_eq!(line["Content-Length: ".len()..].parse::<usize>().unwrap(), body.len());
        assert_eq!(head.matches("Content-Length").count(), 1);
        assert_eq!(&text[at + 4..], body);
    }
}

#[test]
fn request_clone_keeps_every_field() {
    let req = Request {
        method: "POST".to_string(),
        path: "/a".to_string(),
        body: "payload".to_string(),
    };
    let copy = req.clone();
    assert_eq!(copy.method, "POST");
    assert_eq!(copy.path, "/a");
    assert_eq!(copy.body, "payload");
    assert_eq!(req.method, "POST");
}
