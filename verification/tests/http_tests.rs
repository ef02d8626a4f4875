use kvstore::http::HttpMethods;
use kvstore::http::decode_request;
use kvstore::http::handle_request;
use kvstore::http::method_from_token;
use kvstore::store::Store;

fn ok_with(body: &[u8]) -> Vec<u8> {
    let mut v = b"HTTP/1.1 200 OK\r\nContent-Type: application/json\r\nContent-Length: ".to_vec();
    v.extend_from_slice(body.len().to_string().as_bytes());
    v.extend_from_slice(b"\r\n\r\n");
    v.extend_from_slice(body);
    v
}

fn not_found() -> Vec<u8> {
    b"HTTP/1.1 404 Not Found\r\nContent-Type: application/json\r\nContent-Length: 0\r\n\r\n"
        .to_vec()
}

fn bad_request() -> Vec<u8> {
    b"HTTP/1.1 400 Bad Request\r\nContent-Type: application/json\r\nContent-Length: 0\r\n\r\n"
        .to_vec()
}

#[test]
fn http_scenario_post_get_delete_get() {
    // POST /foo {"a":1} -> success; GET /foo -> success with {"a":1};
    // DELETE /foo -> success; GET /foo -> not-found.
    let mut s = Store::new();
    let r1 = handle_request(&mut s, b"POST /foo HTTP/1.1\r\n\r\n{\"a\":1}");
    assert_eq!(r1, ok_with(b""));
    let r2 = handle_request(&mut s, b"GET /foo HTTP/1.1\r\n\r\n");
    assert_eq!(r2, ok_with(b"{\"a\":1}"));
    let r3 = handle_request(&mut s, b"DELETE /foo HTTP/1.1\r\n\r\n");
    assert_eq!(r3, ok_with(b""));
    let r4 = handle_request(&mut s, b"GET /foo HTTP/1.1\r\n\r\n");
    assert_eq!(r4, not_found());
}

#[test]
fn post_non_object_is_rejected_and_preserves_prior_value() {
    // SET with a non-object JSON payload is rejected; the prior value stays.
    let mut s = Store::new();
    handle_request(&mut s, b"POST /k HTTP/1.1\r\n\r\n{\"old\":true}");
    let r = handle_request(&mut s, b"POST /k HTTP/1.1\r\n\r\n\"x\"");
    assert_eq!(r, bad_request());
    let r2 = handle_request(&mut s, b"POST /k HTTP/1.1\r\n\r\n[1,2]");
    assert_eq!(r2, bad_request());
    let got = handle_request(&mut s, b"GET /k HTTP/1.1\r\n\r\n");
    assert_eq!(got, ok_with(b"{\"old\":true}"));
}

#[test]
fn post_number_null_bool_are_rejected() {
    let mut s = Store::new();
    assert_eq!(handle_request(&mut s, b"POST /k HTTP/1.1\r\n\r\n7"), bad_request());
    assert_eq!(handle_request(&mut s, b"POST /k HTTP/1.1\r\n\r\nnull"), bad_request());
    assert_eq!(handle_request(&mut s, b"POST /k HTTP/1.1\r\n\r\ntrue"), bad_request());
    assert_eq!(handle_request(&mut s, b"GET /k HTTP/1.1\r\n\r\n"), not_found());
}

#[test]
fn unknown_verb_is_client_error() {
    let mut s = Store::new();
    let r = handle_request(&mut s, b"PUT /foo HTTP/1.1\r\n\r\n{}");
    assert_eq!(r, bad_request());
}

#[test]
fn missing_key_path_is_client_error() {
    let mut s = Store::new();
    assert_eq!(handle_request(&mut s, b"GET / HTTP/1.1\r\n\r\n"), bad_request());
    assert_eq!(handle_request(&mut s, b"GET nokey HTTP/1.1\r\n\r\n"), bad_request());
}

#[test]
fn truncated_request_is_client_error() {
    let mut s = Store::new();
    assert_eq!(handle_request(&mut s, b"GET /foo HTTP/1.1"), bad_request());
}

#[test]
fn delete_reports_success_for_absent_key_too() {
    let mut s = Store::new();
    let r = handle_request(&mut s, b"DELETE /ghost HTTP/1.1\r\n\r\n");
    assert_eq!(r, ok_with(b""));
}

#[test]
fn decode_request_splits_verb_key_body() {
    let (m, key, body) = decode_request(b"POST /foo HTTP/1.1\r\n\r\n{\"a\":1}").unwrap();
    assert_eq!(m, HttpMethods::POST);
    assert_eq!(key, b"foo".to_vec());
    assert_eq!(body, b"{\"a\":1}".to_vec());
}

#[test]
fn method_from_token_maps_verbs() {
    assert_eq!(method_from_token(b"POST"), Some(HttpMethods::POST));
    assert_eq!(method_from_token(b"GET"), Some(HttpMethods::GET));
    assert_eq!(method_from_token(b"DELETE"), Some(HttpMethods::DELETE));
    assert_eq!(method_from_token(b"PATCH"), None);
    assert_eq!(method_from_token(b"get"), None);
}

#[test]
fn from_maps_the_three_verb_names() {
    assert_eq!(HttpMethods::from(String::from("POST")), HttpMethods::POST);
    assert_eq!(HttpMethods::from(String::from("GET")), HttpMethods::GET);
    assert_eq!(HttpMethods::from(String::from("DELETE")), HttpMethods::DELETE);
}

#[test]
fn oversized_post_body_is_rejected_and_preserves_prior_value() {
    let mut s = Store::new();
    handle_request(&mut s, b"POST /k HTTP/1.1\r\n\r\n{\"old\":true}");
    let mut big = b"{\"a\":\"".to_vec();
    big.extend_from_slice(&vec![b'x'; 40000]);
    big.extend_from_slice(b"\"}");
    let mut req = b"POST /k HTTP/1.1\r\n\r\n".to_vec();
    req.extend_from_slice(&big);
    assert_eq!(handle_request(&mut s, &req), bad_request());
    let got = handle_request(&mut s, b"GET /k HTTP/1.1\r\n\r\n");
    assert_eq!(got, ok_with(b"{\"old\":true}"));
}

#[test]
fn long_fraction_payload_is_rejected_without_fault() {
    // A number with tens of thousands of fraction digits; the adapter's
    // size cap rejects it before it reaches the JSON parser.
    let mut s = Store::new();
    let mut body = b"0.".to_vec();
    body.extend_from_slice(&vec![b'0'; 40000]);
    let mut req = b"POST /k HTTP/1.1\r\n\r\n".to_vec();
    req.extend_from_slice(&body);
    assert_eq!(handle_request(&mut s, &req), bad_request());
    assert_eq!(handle_request(&mut s, b"GET /k HTTP/1.1\r\n\r\n"), not_found());
}
