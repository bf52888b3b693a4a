use mini_express::encode_json;
use mini_express::EncodeError;
use mini_express::Response;
use std::collections::BTreeMap;
use std::collections::HashMap;

#[test]
fn new_response_has_the_defaults() {
    let res = Response::new();
    assert_eq!(res.status_code(), 200);
    assert_eq!(res.body(), "");
    assert_eq!(res.headers().len(), 0);
}

#[test]
fn status_sets_the_code_only() {
    let mut res = Response::new();
    res.header("A", "b");
    res.status(404);
    assert_eq!(res.status_code(), 404);
    assert_eq!(res.body(), "");
    assert_eq!(res.headers().len(), 1);
    res.status(201).status(500);
    assert_eq!(res.status_code(), 500);
}

#[test]
fn header_binds_and_overwrites() {
    let mut res = Response::new();
    res.header("Content-Type", "text/plain");
    assert_eq!(res.headers().get("Content-Type"), Some("text/plain"));
    res.header("Content-Type", "text/html");
    assert_eq!(res.headers().get("Content-Type"), Some("text/html"));
    assert_eq!(res.headers().len(), 1);
    assert_eq!(res.status_code(), 200);
}

#[test]
fn builder_calls_chain() {
    let mut res = Response::new();
    res.header("Content-Type", "text/plain").status(401).send("Unauthorized access");
    assert_eq!(res.status_code(), 401);
    assert_eq!(res.body(), "Unauthorized access");
    assert_eq!(res.headers().get("Content-Type"), Some("text/plain"));
    assert_eq!(res.headers().get("Content-Length"), Some("19"));
}

#[test]
fn send_sets_body_and_content_length() {
    let mut res = Response::new();
    res.send("Hello from GET /");
    assert_eq!(res.body(), "Hello from GET /");
    assert_eq!(res.headers().get("Content-Length"), Some("16"));
    assert_eq!(res.status_code(), 200);
    res.send("");
    assert_eq!(res.body(), "");
    assert_eq!(res.headers().get("Content-Length"), Some("0"));
    assert_eq!(res.headers().len(), 1);
}

#[test]
fn send_replaces_a_content_length_set_before() {
    let mut res = Response::new();
    res.header("Content-Length", "12345").header("X", "1");
    res.send("abc");
    assert_eq!(res.headers().get("Content-Length"), Some("3"));
    assert_eq!(res.headers().key_at(0), "Content-Length");
    assert_eq!(res.headers().key_at(1), "X");
    assert_eq!(res.headers().len(), 2);
}

#[test]
fn json_sends_the_encoded_value() {
    let mut res = Response::new();
    res.json(&vec![1, 2, 3]);
    assert_eq!(res.status_code(), 200);
    assert_eq!(res.body(), "[1,2,3]");
    assert_eq!(res.headers().get("Content-Type"), Some("application/json"));
    assert_eq!(res.headers().get("Content-Length"), Some("7"));
    assert_eq!(
        res.to_text(),
        "HTTP/1.1 200 OK\r\nContent-Type: application/json\r\nContent-Length: 7\r\n\r\n[1,2,3]"
    );
}

#[test]
fn json_encodes_a_map() {
    let mut data = BTreeMap::new();
    data.insert("message".to_string(), "Hello, JSON!".to_string());
    let mut res = Response::new();
    res.json(&data);
    assert_eq!(res.body(), "{\"message\":\"Hello, JSON!\"}");
    assert_eq!(res.headers().get("Content-Type"), Some("application/json"));
}

#[test]
fn json_keeps_the_status_on_success() {
    let mut res = Response::new();
    res.status(201).json(&"made");
    assert_eq!(res.status_code(), 201);
    assert_eq!(res.body(), "\"made\"");
}

#[test]
fn json_failure_sends_500_with_the_fixed_body() {
    let mut data: HashMap<(i32, i32), i32> = HashMap::new();
    data.insert((1, 2), 3);
    let mut res = Response::new();
    res.header("Content-Type", "text/plain");
    res.json(&data);
    assert_eq!(res.status_code(), 500);
    assert_eq!(res.body(), "{\"error\": \"Failed to serialize JSON\"}");
    assert_eq!(res.headers().get("Content-Type"), Some("text/plain"));
    assert_eq!(res.headers().get("Content-Length"), Some("37"));
    assert_eq!(
        res.to_text(),
        "HTTP/1.1 500 Internal Server Error\r\nContent-Type: text/plain\r\nContent-Length: 37\r\n\r\n{\"error\": \"Failed to serialize JSON\"}"
    );
}

#[test]
fn json_failure_leaves_content_type_unset_where_none_was_set() {
    let mut data: HashMap<(i32, i32), i32> = HashMap::new();
    data.insert((1, 2), 3);
    let mut res = Response::new();
    res.json(&data);
    assert_eq!(res.status_code(), 500);
    assert_eq!(res.headers().get("Content-Type"), None);
}

#[test]
fn send_json_with_a_text() {
    let mut res = Response::new();
    res.send_json(Ok("{}".to_string()));
    assert_eq!(res.status_code(), 200);
    assert_eq!(res.body(), "{}");
    assert_eq!(res.headers().get("Content-Type"), Some("application/json"));
    assert_eq!(res.headers().get("Content-Length"), Some("2"));
}

#[test]
fn send_json_with_a_failure() {
    let mut res = Response::new();
    res.status(201).header("Content-Type", "application/json");
    res.send_json(Err(EncodeError));
    assert_eq!(res.status_code(), 500);
    assert_eq!(res.body(), "{\"error\": \"Failed to serialize JSON\"}");
    assert_eq!(res.headers().get("Content-Type"), Some("application/json"));
}

#[test]
fn encode_json_reports_text_or_failure() {
    assert_eq!(encode_json(&42).unwrap(), "42");
    assert_eq!(encode_json(&"a\"b").unwrap(), "\"a\\\"b\"");
    assert_eq!(encode_json(&(1, "x", true)).unwrap(), "[1,\"x\",true]");
    let mut bad: HashMap<Vec<u8>, i32> = HashMap::new();
    bad.insert(vec![1], 1);
    assert!(encode_json(&bad).is_err());
}
