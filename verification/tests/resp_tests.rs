use kvstore::resp::Decoded;
use kvstore::resp::RespStep;
use kvstore::resp::decode_array;
use kvstore::resp::execute;
use kvstore::resp::handle_message;
use kvstore::store::Store;

fn reply_of(step: RespStep) -> (Vec<u8>, usize) {
    match step {
        RespStep::Reply(r, n) => (r, n),
        RespStep::NeedMore => panic!("expected a reply, got NeedMore"),
        RespStep::Close => panic!("expected a reply, got Close"),
    }
}

#[test]
fn resp_scenario_set_get_del_get() {
    // SET foo {"a":1} -> +OK; GET foo -> bulk {"a":1}; DEL foo -> :1;
    // GET foo -> null bulk.
    let mut s = Store::new();
    let set = b"*3\r\n$3\r\nSET\r\n$3\r\nfoo\r\n$7\r\n{\"a\":1}\r\n";
    let (r1, n1) = reply_of(handle_message(&mut s, set));
    assert_eq!(r1, b"+OK\r\n".to_vec());
    assert_eq!(n1, set.len());
    let get = b"*2\r\n$3\r\nGET\r\n$3\r\nfoo\r\n";
    let (r2, n2) = reply_of(handle_message(&mut s, get));
    assert_eq!(r2, b"$7\r\n{\"a\":1}\r\n".to_vec());
    assert_eq!(n2, get.len());
    let del = b"*2\r\n$3\r\nDEL\r\n$3\r\nfoo\r\n";
    let (r3, _) = reply_of(handle_message(&mut s, del));
    assert_eq!(r3, b":1\r\n".to_vec());
    let (r4, _) = reply_of(handle_message(&mut s, get));
    assert_eq!(r4, b"$-1\r\n".to_vec());
}

#[test]
fn command_names_are_case_insensitive() {
    let mut s = Store::new();
    let set = b"*3\r\n$3\r\nset\r\n$1\r\nk\r\n$2\r\n{}\r\n";
    let (r1, _) = reply_of(handle_message(&mut s, set));
    assert_eq!(r1, b"+OK\r\n".to_vec());
    let get = b"*2\r\n$3\r\ngEt\r\n$1\r\nk\r\n";
    let (r2, _) = reply_of(handle_message(&mut s, get));
    assert_eq!(r2, b"$2\r\n{}\r\n".to_vec());
}

#[test]
fn del_absent_replies_zero() {
    let mut s = Store::new();
    let del = b"*2\r\n$3\r\nDEL\r\n$5\r\nghost\r\n";
    let (r, _) = reply_of(handle_message(&mut s, del));
    assert_eq!(r, b":0\r\n".to_vec());
}

#[test]
fn set_non_object_payload_is_error_and_preserves_prior_value() {
    let mut s = Store::new();
    let set_ok = b"*3\r\n$3\r\nSET\r\n$1\r\nk\r\n$9\r\n{\"old\":1}\r\n";
    reply_of(handle_message(&mut s, set_ok));
    let set_bad = b"*3\r\n$3\r\nSET\r\n$1\r\nk\r\n$3\r\n\"x\"\r\n";
    let (r, _) = reply_of(handle_message(&mut s, set_bad));
    assert_eq!(r[0], b'-');
    let set_arr = b"*3\r\n$3\r\nSET\r\n$1\r\nk\r\n$5\r\n[1,2]\r\n";
    let (r2, _) = reply_of(handle_message(&mut s, set_arr));
    assert_eq!(r2[0], b'-');
    let get = b"*2\r\n$3\r\nGET\r\n$1\r\nk\r\n";
    let (r3, _) = reply_of(handle_message(&mut s, get));
    assert_eq!(r3, b"$9\r\n{\"old\":1}\r\n".to_vec());
}

#[test]
fn wrong_arity_is_error_without_closing() {
    let mut s = Store::new();
    let get2 = b"*3\r\n$3\r\nGET\r\n$1\r\nk\r\n$1\r\nx\r\n";
    let (r, _) = reply_of(handle_message(&mut s, get2));
    assert_eq!(r[0], b'-');
    let set1 = b"*2\r\n$3\r\nSET\r\n$1\r\nk\r\n";
    let (r2, _) = reply_of(handle_message(&mut s, set1));
    assert_eq!(r2[0], b'-');
}

#[test]
fn unknown_command_is_error() {
    let mut s = Store::new();
    let ping = b"*1\r\n$4\r\nPING\r\n";
    let (r, _) = reply_of(handle_message(&mut s, ping));
    assert_eq!(r[0], b'-');
}

#[test]
fn empty_array_is_error() {
    let mut s = Store::new();
    let (r, _) = reply_of(handle_message(&mut s, b"*0\r\n"));
    assert_eq!(r[0], b'-');
}

#[test]
fn partial_frame_asks_for_more() {
    let mut s = Store::new();
    assert!(matches!(handle_message(&mut s, b""), RespStep::NeedMore));
    assert!(matches!(handle_message(&mut s, b"*2\r\n$3\r\nGE"), RespStep::NeedMore));
    assert!(matches!(handle_message(&mut s, b"*2\r\n$3\r\nGET\r\n$3\r\nfo"), RespStep::NeedMore));
}

#[test]
fn framing_errors_close_the_connection() {
    let mut s = Store::new();
    assert!(matches!(handle_message(&mut s, b"GET foo\r\n"), RespStep::Close));
    assert!(matches!(handle_message(&mut s, b"*x\r\n"), RespStep::Close));
    assert!(matches!(handle_message(&mut s, b"*1\r\nX"), RespStep::Close));
    assert!(matches!(handle_message(&mut s, b"*1\r\n$2\r\nabX\r\n"), RespStep::Close));
}

#[test]
fn decode_array_returns_args_and_consumed_length() {
    let buf = b"*2\r\n$3\r\nGET\r\n$3\r\nfoo\r\nTRAILING";
    match decode_array(buf) {
        Decoded::Frame(args, n) => {
            assert_eq!(args.len(), 2);
            assert_eq!(args[0], b"GET".to_vec());
            assert_eq!(args[1], b"foo".to_vec());
            assert_eq!(n, buf.len() - b"TRAILING".len());
        },
        _ => panic!("expected a complete frame"),
    }
}

#[test]
fn decode_array_rejects_leading_zero_lengths() {
    match decode_array(b"*1\r\n$01\r\nk\r\n") {
        Decoded::Malformed => {},
        _ => panic!("expected Malformed"),
    }
}

#[test]
fn execute_empty_args_is_error() {
    let mut s = Store::new();
    let args: Vec<Vec<u8>> = Vec::new();
    let r = execute(&mut s, &args);
    assert_eq!(r[0], b'-');
}

#[test]
fn empty_key_is_error() {
    let mut s = Store::new();
    let set = b"*3\r\n$3\r\nSET\r\n$0\r\n\r\n$2\r\n{}\r\n";
    let (r, _) = reply_of(handle_message(&mut s, set));
    assert_eq!(r[0], b'-');
    let get = b"*2\r\n$3\r\nGET\r\n$0\r\n\r\n";
    let (r2, _) = reply_of(handle_message(&mut s, get));
    assert_eq!(r2[0], b'-');
}

#[test]
fn oversized_set_value_is_error_and_preserves_prior_value() {
    let mut s = Store::new();
    let set_ok = b"*3\r\n$3\r\nSET\r\n$1\r\nk\r\n$9\r\n{\"old\":1}\r\n";
    reply_of(handle_message(&mut s, set_ok));
    let mut big = b"{\"a\":\"".to_vec();
    big.extend_from_slice(&vec![b'x'; 40000]);
    big.extend_from_slice(b"\"}");
    let mut frame = b"*3\r\n$3\r\nSET\r\n$1\r\nk\r\n$".to_vec();
    frame.extend_from_slice(big.len().to_string().as_bytes());
    frame.extend_from_slice(b"\r\n");
    frame.extend_from_slice(&big);
    frame.extend_from_slice(b"\r\n");
    let (r, n) = reply_of(handle_message(&mut s, &frame));
    assert_eq!(r[0], b'-');
    assert_eq!(n, frame.len());
    let get = b"*2\r\n$3\r\nGET\r\n$1\r\nk\r\n";
    let (r2, _) = reply_of(handle_message(&mut s, get));
    assert_eq!(r2, b"$9\r\n{\"old\":1}\r\n".to_vec());
}
