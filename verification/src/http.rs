//! The HTTP adapter: request decoding, command execution and response
//! encoding.
//!
//! The verb names the operation (`POST` stores, `GET` reads, `DELETE`
//! removes) and the path names the key: `/k` addresses key `k`. A `POST`
//! body must be JSON-object text of at most `MAX_JSON_LEN` bytes; anything
//! else is rejected with a client error and leaves the store unchanged. `spec_parse_request` is the exact
//! spec-level reading of a request buffer, and `spec_http_response` the
//! exact byte form of every response this adapter sends; decoding and
//! encoding are proved against them. No request faults the process: every
//! outcome, error included, is an ordinary response.

use vstd::prelude::*;
use vstd::slice::slice_subrange;
use crate::command::Command;
use crate::command::Outcome;
use crate::command::apply;
use crate::jsontext::MAX_JSON_LEN;
use crate::jsontext::is_object_text;
use crate::jsontext::json_object;
use crate::num::dec_digits;
use crate::num::dec_of;
use crate::store::Store;
use crate::util::append_bytes;
use crate::util::copy_bytes;

verus! {

/// The three verbs this server understands. `POST` is the conventional
/// default verb.
#[derive(Clone, Copy, PartialEq, Eq, Structural, Debug, Default)]
pub enum HttpMethods {
    #[default]
    POST,
    GET,
    DELETE,
}

impl HttpMethods {
    /// Maps a verb name to its method. Callers must hand in one of the
    /// three understood verbs; the byte-level request decoder rejects
    /// anything else before this mapping is reached.
    pub fn from(string: String) -> (r: HttpMethods)
        requires
            string@ == "POST"@ || string@ == "GET"@ || string@ == "DELETE"@,
        ensures
            string@ == "POST"@ ==> r == HttpMethods::POST,
            string@ == "GET"@ ==> r == HttpMethods::GET,
            string@ == "DELETE"@ ==> r == HttpMethods::DELETE,
    {
        proof {
            reveal_strlit("POST");
            reveal_strlit("GET");
            reveal_strlit("DELETE");
        }
        let s = string.as_str();
        let n = s.unicode_len();
        if n == 4 {
            HttpMethods::POST
        } else if n == 3 {
            HttpMethods::GET
        } else {
            HttpMethods::DELETE
        }
    }
}

/// The verb named by a token: `POST`, `GET` or `DELETE`.
pub open spec fn method_of_token(t: Seq<u8>) -> Option<HttpMethods> {
    if t == seq![80u8, 79u8, 83u8, 84u8] {
        Some(HttpMethods::POST)
    } else if t == seq![71u8, 69u8, 84u8] {
        Some(HttpMethods::GET)
    } else if t == seq![68u8, 69u8, 76u8, 69u8, 84u8, 69u8] {
        Some(HttpMethods::DELETE)
    } else {
        None
    }
}

/// Fallible verb lookup on the raw token bytes. An unrecognized verb is a
/// per-request error, never a process abort.
pub fn method_from_token(t: &[u8]) -> (r: Option<HttpMethods>)
    ensures
        r == method_of_token(t@),
{
    let n = t.len();
    if n == 4 && t[0] == 80 && t[1] == 79 && t[2] == 83 && t[3] == 84 {
        proof {
            assert(t@ =~= seq![80u8, 79u8, 83u8, 84u8]);
        }
        Some(HttpMethods::POST)
    } else if n == 3 && t[0] == 71 && t[1] == 69 && t[2] == 84 {
        proof {
            assert(t@ =~= seq![71u8, 69u8, 84u8]);
        }
        Some(HttpMethods::GET)
    } else if n == 6 && t[0] == 68 && t[1] == 69 && t[2] == 76 && t[3] == 69 && t[4] == 84 && t[5]
        == 69 {
        proof {
            assert(t@ =~= seq![68u8, 69u8, 76u8, 69u8, 84u8, 69u8]);
        }
        Some(HttpMethods::DELETE)
    } else {
        proof {
            assert(t@ == seq![80u8, 79u8, 83u8, 84u8] ==> t@.len() == 4 && t@[0] == 80 && t@[1] == 79 && t@[2]
                == 83 && t@[3] == 84);
            assert(t@ == seq![71u8, 69u8, 84u8] ==> t@.len() == 3 && t@[0] == 71 && t@[1] == 69 && t@[2]
                == 84);
            assert(t@ == seq![68u8, 69u8, 76u8, 69u8, 84u8, 69u8] ==> t@.len() == 6 && t@[0] == 68 && t@[1] == 69 && t@[2]
                == 76 && t@[3] == 69 && t@[4] == 84 && t@[5] == 69);
        }
        None
    }
}

/// A head/body separator (`\r\n\r\n`) sits at index `i`.
pub open spec fn is_sep_at(s: Seq<u8>, i: int) -> bool {
    &&& i + 4 <= s.len()
    &&& s[i] == 13
    &&& s[i + 1] == 10
    &&& s[i + 2] == 13
    &&& s[i + 3] == 10
}

/// Index of the first head/body separator at or after `i`.
pub open spec fn find_sep_from(s: Seq<u8>, i: int) -> Option<int>
    decreases s.len() - i,
    when 0 <= i
{
    if i + 4 > s.len() {
        None
    } else if is_sep_at(s, i) {
        Some(i)
    } else {
        find_sep_from(s, i + 1)
    }
}

/// Index of the first occurrence of `b` at or after `i`.
pub open spec fn find_byte_from(s: Seq<u8>, b: u8, i: int) -> Option<int>
    decreases s.len() - i,
    when 0 <= i
{
    if i >= s.len() {
        None
    } else if s[i] == b {
        Some(i)
    } else {
        find_byte_from(s, b, i + 1)
    }
}

/// The exact reading of a request buffer: verb, key and body. `None` is a
/// request this adapter answers with a client error: no head/body
/// separator, no two spaces in the request line, an unknown verb, or a path
/// that is not `/` followed by a non-empty key.
pub open spec fn spec_parse_request(s: Seq<u8>) -> Option<(HttpMethods, Seq<u8>, Seq<u8>)> {
    match find_sep_from(s, 0) {
        None => None,
        Some(h) => {
            let head = s.subrange(0, h);
            let body = s.subrange(h + 4, s.len() as int);
            match find_byte_from(head, 32, 0) {
                None => None,
                Some(sp1) => match method_of_token(head.subrange(0, sp1)) {
                    None => None,
                    Some(m) => match find_byte_from(head, 32, sp1 + 1) {
                        None => None,
                        Some(sp2) => {
                            let path = head.subrange(sp1 + 1, sp2);
                            if path.len() >= 2 && path[0] == 47 {
                                Some((m, path.subrange(1, path.len() as int), body))
                            } else {
                                None
                            }
                        },
                    },
                },
            }
        },
    }
}

/// Finds the first head/body separator of `s`.
fn find_sep(s: &[u8]) -> (r: Option<usize>)
    ensures
        r matches Some(i) ==> i + 4 <= s@.len() && find_sep_from(s@, 0) == Some(i as int),
        r is None ==> find_sep_from(s@, 0) is None,
{
    let n = s.len();
    if n < 4 {
        proof {
            assert(find_sep_from(s@, 0) is None);
        }
        return None;
    }
    let mut i: usize = 0;
    while i <= n - 4 && !(s[i] == 13 && s[i + 1] == 10 && s[i + 2] == 13 && s[i + 3] == 10)
        invariant
            n == s@.len(),
            4 <= n,
            0 <= i <= n - 3,
            find_sep_from(s@, 0) == find_sep_from(s@, i as int),
        decreases n - i,
    {
        proof {
            assert(!is_sep_at(s@, i as int));
            assert(find_sep_from(s@, i as int) == find_sep_from(s@, i as int + 1));
        }
        i = i + 1;
    }
    if i <= n - 4 {
        proof {
            assert(is_sep_at(s@, i as int));
        }
        Some(i)
    } else {
        proof {
            assert(i as int + 4 > s@.len());
            assert(find_sep_from(s@, i as int) is None);
        }
        None
    }
}

/// Finds the first occurrence of `b` in `s` at or after `from`.
fn find_byte(s: &[u8], b: u8, from: usize) -> (r: Option<usize>)
    requires
        from <= s@.len(),
    ensures
        r matches Some(i) ==> from <= i < s@.len() && find_byte_from(s@, b, from as int) == Some(
            i as int,
        ),
        r is None ==> find_byte_from(s@, b, from as int) is None,
{
    let n = s.len();
    let mut i: usize = from;
    while i < n && s[i] != b
        invariant
            n == s@.len(),
            from <= i <= n,
            find_byte_from(s@, b, from as int) == find_byte_from(s@, b, i as int),
        decreases n - i,
    {
        i = i + 1;
    }
    if i < n {
        Some(i)
    } else {
        None
    }
}

/// Decodes a request buffer into verb, key and body, exactly as
/// `spec_parse_request` reads it.
pub fn decode_request(input: &[u8]) -> (r: Option<(HttpMethods, Vec<u8>, Vec<u8>)>)
    ensures
        r matches Some(t) ==> (spec_parse_request(input@) matches Some(st) && t.0 == st.0 && t.1@
            == st.1 && t.2@ == st.2),
        r is None ==> spec_parse_request(input@) is None,
{
    let n = input.len();
    let h = match find_sep(input) {
        None => {
            return None;
        },
        Some(h) => h,
    };
    let head = slice_subrange(input, 0, h);
    let body = slice_subrange(input, h + 4, n);
    let sp1 = match find_byte(head, 32, 0) {
        None => {
            return None;
        },
        Some(i) => i,
    };
    let m = match method_from_token(slice_subrange(head, 0, sp1)) {
        None => {
            return None;
        },
        Some(m) => m,
    };
    let sp2 = match find_byte(head, 32, sp1 + 1) {
        None => {
            return None;
        },
        Some(i) => i,
    };
    let path = slice_subrange(head, sp1 + 1, sp2);
    if path.len() >= 2 {
        let c = path[0];
        if c == 47 {
            let key = copy_bytes(slice_subrange(path, 1, path.len()));
            let body_v = copy_bytes(body);
            return Some((m, key, body_v));
        }
    }
    None
}

/// `HTTP/1.1 `
pub open spec fn spec_version_prefix() -> Seq<u8> {
    seq![72u8, 84u8, 84u8, 80u8, 47u8, 49u8, 46u8, 49u8, 32u8]
}

/// `\r\nContent-Type: application/json\r\nContent-Length: `
pub open spec fn spec_header_middle() -> Seq<u8> {
    seq![13u8, 10u8, 67u8, 111u8, 110u8, 116u8, 101u8, 110u8, 116u8, 45u8, 84u8, 121u8, 112u8, 101u8, 58u8, 32u8, 97u8, 112u8, 112u8, 108u8, 105u8, 99u8, 97u8, 116u8, 105u8, 111u8, 110u8, 47u8, 106u8, 115u8, 111u8, 110u8, 13u8, 10u8, 67u8, 111u8, 110u8, 116u8, 101u8, 110u8, 116u8, 45u8, 76u8, 101u8, 110u8, 103u8, 116u8, 104u8, 58u8, 32u8]
}

/// `200 OK`
pub open spec fn status_ok() -> Seq<u8> {
    seq![50u8, 48u8, 48u8, 32u8, 79u8, 75u8]
}

/// `404 Not Found`
pub open spec fn status_not_found() -> Seq<u8> {
    seq![52u8, 48u8, 52u8, 32u8, 78u8, 111u8, 116u8, 32u8, 70u8, 111u8, 117u8, 110u8, 100u8]
}

/// `400 Bad Request`
pub open spec fn status_bad_request() -> Seq<u8> {
    seq![52u8, 48u8, 48u8, 32u8, 66u8, 97u8, 100u8, 32u8, 82u8, 101u8, 113u8, 117u8, 101u8, 115u8, 116u8]
}

/// The exact byte form of every response this adapter sends: status line,
/// JSON content type, content length, blank line, body.
pub open spec fn spec_http_response(status: Seq<u8>, body: Seq<u8>) -> Seq<u8> {
    spec_version_prefix() + status + spec_header_middle() + dec_digits(body.len()) + seq![
        13u8,
        10u8,
        13u8,
        10u8,
    ] + body
}

/// Builds the response for a status line and body.
fn build_response(status: &[u8], body: &[u8]) -> (r: Vec<u8>)
    ensures
        r@ == spec_http_response(status@, body@),
{
    let mut v: Vec<u8> = Vec::new();
    v.push(72);
    v.push(84);
    v.push(84);
    v.push(80);
    v.push(47);
    v.push(49);
    v.push(46);
    v.push(49);
    v.push(32);
    append_bytes(&mut v, status);
    v.push(13);
    v.push(10);
    v.push(67);
    v.push(111);
    v.push(110);
    v.push(116);
    v.push(101);
    v.push(110);
    v.push(116);
    v.push(45);
    v.push(84);
    v.push(121);
    v.push(112);
    v.push(101);
    v.push(58);
    v.push(32);
    v.push(97);
    v.push(112);
    v.push(112);
    v.push(108);
    v.push(105);
    v.push(99);
    v.push(97);
    v.push(116);
    v.push(105);
    v.push(111);
    v.push(110);
    v.push(47);
    v.push(106);
    v.push(115);
    v.push(111);
    v.push(110);
    v.push(13);
    v.push(10);
    v.push(67);
    v.push(111);
    v.push(110);
    v.push(116);
    v.push(101);
    v.push(110);
    v.push(116);
    v.push(45);
    v.push(76);
    v.push(101);
    v.push(110);
    v.push(103);
    v.push(116);
    v.push(104);
    v.push(58);
    v.push(32);
    let mut d = dec_of(body.len());
    v.append(&mut d);
    v.push(13);
    v.push(10);
    v.push(13);
    v.push(10);
    append_bytes(&mut v, body);
    proof {
        assert(v@ =~= spec_http_response(status@, body@));
    }
    v
}

/// `200 OK`
fn ok_status() -> (r: Vec<u8>)
    ensures
        r@ == status_ok(),
{
    let mut v: Vec<u8> = Vec::new();
    v.push(50);
    v.push(48);
    v.push(48);
    v.push(32);
    v.push(79);
    v.push(75);
    proof {
        assert(v@ =~= status_ok());
    }
    v
}

/// `404 Not Found`
fn not_found_status() -> (r: Vec<u8>)
    ensures
        r@ == status_not_found(),
{
    let mut v: Vec<u8> = Vec::new();
    v.push(52);
    v.push(48);
    v.push(52);
    v.push(32);
    v.push(78);
    v.push(111);
    v.push(116);
    v.push(32);
    v.push(70);
    v.push(111);
    v.push(117);
    v.push(110);
    v.push(100);
    proof {
        assert(v@ =~= status_not_found());
    }
    v
}

/// `400 Bad Request`
fn bad_request_status() -> (r: Vec<u8>)
    ensures
        r@ == status_bad_request(),
{
    let mut v: Vec<u8> = Vec::new();
    v.push(52);
    v.push(48);
    v.push(48);
    v.push(32);
    v.push(66);
    v.push(97);
    v.push(100);
    v.push(32);
    v.push(82);
    v.push(101);
    v.push(113);
    v.push(117);
    v.push(101);
    v.push(115);
    v.push(116);
    proof {
        assert(v@ =~= status_bad_request());
    }
    v
}

/// The store contents after one request: only a `POST` whose body is
/// JSON-object text of at most `MAX_JSON_LEN` bytes writes; only a
/// `DELETE` removes; everything else — every error included — leaves the
/// store untouched.
pub open spec fn http_step_map(
    m: Map<Seq<u8>, Seq<u8>>,
    method: HttpMethods,
    key: Seq<u8>,
    body: Seq<u8>,
) -> Map<Seq<u8>, Seq<u8>> {
    if method == HttpMethods::POST && body.len() <= MAX_JSON_LEN && json_object(body) {
        m.insert(key, body)
    } else if method == HttpMethods::DELETE {
        m.remove(key)
    } else {
        m
    }
}

/// The response owed to a decoded request against store contents `m`:
/// `200 OK` for a stored `POST`, `400 Bad Request` for a non-object or
/// oversized body, the stored text or `404 Not Found` for `GET`, and
/// `200 OK` for `DELETE` whether or not the key existed.
pub open spec fn http_reply_spec(
    m: Map<Seq<u8>, Seq<u8>>,
    method: HttpMethods,
    key: Seq<u8>,
    body: Seq<u8>,
    reply: Seq<u8>,
) -> bool {
    if method == HttpMethods::POST {
        if body.len() <= MAX_JSON_LEN && json_object(body) {
            reply == spec_http_response(status_ok(), Seq::empty())
        } else {
            reply == spec_http_response(status_bad_request(), Seq::empty())
        }
    } else if method == HttpMethods::GET {
        if m.contains_key(key) {
            reply == spec_http_response(status_ok(), m[key])
        } else {
            reply == spec_http_response(status_not_found(), Seq::empty())
        }
    } else {
        reply == spec_http_response(status_ok(), Seq::empty())
    }
}

/// Executes one decoded request against the store and builds its response.
pub fn execute(store: &mut Store, method: HttpMethods, key: Vec<u8>, body: Vec<u8>) -> (r: Vec<
    u8,
>)
    requires
        old(store).wf(),
        key@.len() > 0,
    ensures
        final(store).wf(),
        final(store)@ == http_step_map(old(store)@, method, key@, body@),
        http_reply_spec(old(store)@, method, key@, body@, r@),
{
    let empty: Vec<u8> = Vec::new();
    match method {
        HttpMethods::POST => {
            if body.len() > MAX_JSON_LEN {
                build_response(bad_request_status().as_slice(), empty.as_slice())
            } else if is_object_text(body.as_slice()) {
                let _outcome = apply(store, Command::SET { key, value: body });
                build_response(ok_status().as_slice(), empty.as_slice())
            } else {
                build_response(bad_request_status().as_slice(), empty.as_slice())
            }
        },
        HttpMethods::GET => {
            match apply(store, Command::GET { key }) {
                Outcome::Found(v) => build_response(ok_status().as_slice(), v.as_slice()),
                _ => build_response(not_found_status().as_slice(), empty.as_slice()),
            }
        },
        HttpMethods::DELETE => {
            let _outcome = apply(store, Command::DELETE { key });
            build_response(ok_status().as_slice(), empty.as_slice())
        },
    }
}

/// Serves one request buffer: decodes it, applies it to the store, and
/// builds the response. An undecodable request gets `400 Bad Request` and
/// leaves the store unchanged; no request faults the process.
pub fn handle_request(store: &mut Store, input: &[u8]) -> (r: Vec<u8>)
    requires
        old(store).wf(),
    ensures
        final(store).wf(),
        spec_parse_request(input@) matches Some(t) ==> final(store)@ == http_step_map(
            old(store)@,
            t.0,
            t.1,
            t.2,
        ) && http_reply_spec(old(store)@, t.0, t.1, t.2, r@),
        spec_parse_request(input@) is None ==> final(store)@ == old(store)@ && r@
            == spec_http_response(status_bad_request(), Seq::empty()),
{
    match decode_request(input) {
        Some((m, key, body)) => execute(store, m, key, body),
        None => {
            let empty: Vec<u8> = Vec::new();
            build_response(bad_request_status().as_slice(), empty.as_slice())
        },
    }
}

} // verus!
