use kvstore::http::handle_request;
use kvstore::num::dec_of;
use kvstore::store::Store;
use kvstore::num::parse_dec;
use kvstore::server::ServerMode;
use kvstore::server::mode_from_arg;
use kvstore::util::bytes_eq;

#[test]
fn dec_of_renders_exact_digits() {
    assert_eq!(dec_of(0), b"0".to_vec());
    assert_eq!(dec_of(7), b"7".to_vec());
    assert_eq!(dec_of(10), b"10".to_vec());
    assert_eq!(dec_of(305), b"305".to_vec());
    assert_eq!(dec_of(999999999), b"999999999".to_vec());
}

#[test]
fn parse_dec_accepts_canonical_digits() {
    assert_eq!(parse_dec(b"0"), Some(0));
    assert_eq!(parse_dec(b"7"), Some(7));
    assert_eq!(parse_dec(b"305"), Some(305));
    assert_eq!(parse_dec(b"999999999"), Some(999999999));
}

#[test]
fn parse_dec_rejects_non_canonical_input() {
    assert_eq!(parse_dec(b""), None);
    assert_eq!(parse_dec(b"01"), None);
    assert_eq!(parse_dec(b"1x"), None);
    assert_eq!(parse_dec(b"-1"), None);
    assert_eq!(parse_dec(b"1000000000"), None);
}

fn post_is_accepted(body: &[u8]) -> bool {
    let mut s = Store::new();
    let mut req = b"POST /k HTTP/1.1\r\n\r\n".to_vec();
    req.extend_from_slice(body);
    let response = handle_request(&mut s, &req);
    response.starts_with(b"HTTP/1.1 200")
}

#[test]
fn only_json_object_payloads_are_accepted() {
    assert!(post_is_accepted(b"{}"));
    assert!(post_is_accepted(b"{\"a\":1}"));
    assert!(post_is_accepted(b"{\"nested\":{\"b\":[1,2]}}"));
    assert!(!post_is_accepted(b"\"x\""));
    assert!(!post_is_accepted(b"[1,2]"));
    assert!(!post_is_accepted(b"17"));
    assert!(!post_is_accepted(b"null"));
    assert!(!post_is_accepted(b"true"));
    assert!(!post_is_accepted(b"{\"a\":"));
    assert!(!post_is_accepted(b""));
    assert!(!post_is_accepted(&[0xff, 0xfe]));
}

#[test]
fn mode_defaults_to_http() {
    assert_eq!(mode_from_arg(None), ServerMode::HTTP);
    let other = String::from("--verbose");
    assert_eq!(mode_from_arg(Some(&other)), ServerMode::HTTP);
}

#[test]
fn resp_flag_selects_resp() {
    let flag = String::from("--resp");
    assert_eq!(mode_from_arg(Some(&flag)), ServerMode::RESP);
}

#[test]
fn bytes_eq_compares_exactly() {
    assert!(bytes_eq(b"abc", b"abc"));
    assert!(!bytes_eq(b"abc", b"abd"));
    assert!(!bytes_eq(b"abc", b"ab"));
    assert!(bytes_eq(b"", b""));
}
