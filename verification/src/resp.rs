//! The RESP (Redis-style) adapter: request decoding, command execution and
//! reply encoding.
//!
//! A request is an array of bulk strings: `*<n>\r\n` followed by `n` items
//! `$<len>\r\n<bytes>\r\n`. Element 0 names the command (`SET`/`GET`/`DEL`,
//! case-insensitive), the rest are arguments. `spec_array` is the exact
//! spec-level byte form of such a request; the decoder is proved to return
//! only argument lists whose encoding is the consumed prefix of the input.
//! Replies: `+OK` for SET, a bulk string or null bulk for GET, `:1`/`:0` for
//! DEL, and a RESP error for anything malformed — which never touches the
//! store and never closes the connection. Only a framing error (input that
//! can never again align with a request boundary) asks the caller to close.

use vstd::prelude::*;
use vstd::slice::slice_subrange;
use crate::command::Command;
use crate::command::Outcome;
use crate::command::apply;
use crate::jsontext::MAX_JSON_LEN;
use crate::jsontext::is_object_text;
use crate::jsontext::json_object;
use crate::num::dec_digits;
use crate::num::lemma_dec_digits_all_digits;
use crate::num::lemma_dec_digits_canonical;
use crate::num::lemma_digits_of_value;
use crate::num::lemma_value_of_digits;
use crate::num::is_digit;
use crate::num::parse_dec;
use crate::num::dec_of;
use crate::store::Store;
use crate::util::append_bytes;
use crate::util::copy_bytes;
use crate::util::upper;
use crate::util::upper_seq;

verus! {

/// The two-byte line terminator.
pub open spec fn crlf() -> Seq<u8> {
    seq![13u8, 10u8]
}

/// `+OK\r\n`
pub open spec fn spec_simple_ok() -> Seq<u8> {
    seq![43u8, 79u8, 75u8, 13u8, 10u8]
}

/// `$-1\r\n` — the null bulk string (a GET miss).
pub open spec fn spec_null_bulk() -> Seq<u8> {
    seq![36u8, 45u8, 49u8, 13u8, 10u8]
}

/// `:<n>\r\n` — an integer reply.
pub open spec fn spec_integer(n: nat) -> Seq<u8> {
    seq![58u8] + dec_digits(n) + crlf()
}

/// `$<len>\r\n<bytes>\r\n` — a bulk string.
pub open spec fn spec_bulk(b: Seq<u8>) -> Seq<u8> {
    seq![36u8] + dec_digits(b.len()) + crlf() + b + crlf()
}

/// `*<n>\r\n` — the array header.
pub open spec fn spec_array_header(n: nat) -> Seq<u8> {
    seq![42u8] + dec_digits(n) + crlf()
}

/// The concatenated bulk-string encodings of `args`.
pub open spec fn spec_bulks(args: Seq<Seq<u8>>) -> Seq<u8>
    decreases args.len(),
{
    if args.len() == 0 {
        Seq::empty()
    } else {
        spec_bulk(args[0]) + spec_bulks(args.drop_first())
    }
}

/// The exact wire form of a request: an array of bulk strings.
pub open spec fn spec_array(args: Seq<Seq<u8>>) -> Seq<u8> {
    spec_array_header(args.len()) + spec_bulks(args)
}

/// A RESP error reply: `-`, some text, `\r\n`.
pub open spec fn is_error_reply(r: Seq<u8>) -> bool {
    &&& r.len() >= 3
    &&& r[0] == 45
    &&& r[r.len() - 2] == 13
    &&& r[r.len() - 1] == 10
}

pub proof fn lemma_spec_bulks_push(args: Seq<Seq<u8>>, b: Seq<u8>)
    ensures
        spec_bulks(args.push(b)) == spec_bulks(args) + spec_bulk(b),
    decreases args.len(),
{
    if args.len() == 0 {
        assert(args.push(b)[0] == b);
        assert(args.push(b).drop_first() =~= Seq::<Seq<u8>>::empty());
        assert(spec_bulks(args.push(b)) == spec_bulk(b) + spec_bulks(args.push(b).drop_first()));
        assert(spec_bulks(args.push(b).drop_first()) == Seq::<u8>::empty());
        assert(spec_bulks(args) == Seq::<u8>::empty());
        assert(spec_bulk(b) + Seq::<u8>::empty() =~= Seq::<u8>::empty() + spec_bulk(b));
    } else {
        assert(args.push(b)[0] == args[0]);
        assert(args.push(b).drop_first() =~= args.drop_first().push(b));
        lemma_spec_bulks_push(args.drop_first(), b);
        assert(spec_bulks(args.push(b)) == spec_bulk(args[0]) + (spec_bulks(args.drop_first())
            + spec_bulk(b)));
        assert(spec_bulk(args[0]) + (spec_bulks(args.drop_first()) + spec_bulk(b)) =~= spec_bulk(
            args[0],
        ) + spec_bulks(args.drop_first()) + spec_bulk(b));
    }
}


/// Some complete `<digits>\r\n` line with a wire-sized value sits at `start`.
pub open spec fn has_num_line(s: Seq<u8>, start: int) -> bool {
    exists|v: nat, tail: Seq<u8>|
        v < 1000000000 && s.subrange(start, s.len() as int) == #[trigger] (dec_digits(v) + crlf()
            + tail)
}

/// Some complete bulk string with a wire-sized payload sits at `start`.
pub open spec fn has_bulk_at(s: Seq<u8>, start: int) -> bool {
    exists|b: Seq<u8>, tail: Seq<u8>|
        b.len() < 1000000000 && s.subrange(start, s.len() as int) == #[trigger] (spec_bulk(b)
            + tail)
}

/// Argument lists small enough for the wire format's canonical lengths.
pub open spec fn wire_sized(args: Seq<Seq<u8>>) -> bool {
    &&& args.len() < 1000000000
    &&& forall|i: int| 0 <= i < args.len() ==> args[i].len() < 1000000000
}

/// A complete wire-sized request frame starts the buffer.
pub open spec fn has_frame(s: Seq<u8>) -> bool {
    exists|args: Seq<Seq<u8>>, rest: Seq<u8>|
        wire_sized(args) && s == #[trigger] (spec_array(args) + rest)
}

/// Concatenation is associative.
proof fn lemma_assoc(a: Seq<u8>, b: Seq<u8>, c: Seq<u8>)
    ensures
        (a + b) + c == a + (b + c),
{
    assert((a + b) + c =~= a + (b + c));
}

/// Splitting equal concatenations at the same offset gives equal parts.
proof fn lemma_split_concat_eq(p1: Seq<u8>, x: Seq<u8>, p2: Seq<u8>, y: Seq<u8>)
    requires
        p1 + x == p2 + y,
        p1.len() == p2.len(),
    ensures
        p1 == p2,
        x == y,
{
    assert forall|i: int| 0 <= i < p1.len() implies p1[i] == p2[i] by {
        assert((p1 + x)[i] == p1[i]);
        assert((p2 + y)[i] == p2[i]);
    }
    assert(p1 =~= p2);
    assert((p1 + x).len() == p1.len() + x.len());
    assert((p2 + y).len() == p2.len() + y.len());
    assert(x.len() == y.len());
    assert forall|i: int| 0 <= i < x.len() implies x[i] == y[i] by {
        assert((p1 + x)[p1.len() + i] == x[i]);
        assert((p2 + y)[p2.len() + i] == y[i]);
    }
    assert(x =~= y);
}

/// A bulk string followed by `t`, regrouped behind its leading `$`.
pub proof fn lemma_bulk_regroup(b: Seq<u8>, t: Seq<u8>)
    ensures
        spec_bulk(b) + t == seq![36u8] + (dec_digits(b.len()) + crlf() + (b + crlf() + t)),
{
    let m = seq![36u8];
    let d = dec_digits(b.len());
    let c = crlf();
    lemma_assoc(m + d + c + b, c, t);
    lemma_assoc(m + d + c, b, c + t);
    lemma_assoc(b, c, t);
    lemma_assoc(m, d, c);
    lemma_assoc(m, d + c, b + c + t);
}

/// A request frame followed by `rest`, regrouped behind its leading `*`.
pub proof fn lemma_array_regroup(args: Seq<Seq<u8>>, rest: Seq<u8>)
    ensures
        spec_array(args) + rest == seq![42u8] + (dec_digits(args.len()) + crlf() + (spec_bulks(
            args,
        ) + rest)),
{
    let m = seq![42u8];
    let d = dec_digits(args.len());
    let c = crlf();
    lemma_assoc(m + d + c, spec_bulks(args), rest);
    lemma_assoc(m, d, c);
    lemma_assoc(m, d + c, spec_bulks(args) + rest);
}

/// A number line determines its value and what follows it.
pub proof fn lemma_num_line_unique(v1: nat, v2: nat, t1: Seq<u8>, t2: Seq<u8>)
    requires
        dec_digits(v1) + crlf() + t1 == dec_digits(v2) + crlf() + t2,
    ensures
        v1 == v2,
        t1 == t2,
{
    let d1 = dec_digits(v1);
    let d2 = dec_digits(v2);
    lemma_dec_digits_all_digits(v1);
    lemma_dec_digits_all_digits(v2);
    if d1.len() < d2.len() {
        assert((d1 + crlf() + t1)[d1.len() as int] == crlf()[0]);
        assert((d2 + crlf() + t2)[d1.len() as int] == d2[d1.len() as int]);
        assert(is_digit(d2[d1.len() as int]));
        assert(false);
    }
    if d2.len() < d1.len() {
        assert((d2 + crlf() + t2)[d2.len() as int] == crlf()[0]);
        assert((d1 + crlf() + t1)[d2.len() as int] == d1[d2.len() as int]);
        assert(is_digit(d1[d2.len() as int]));
        assert(false);
    }
    lemma_assoc(d1, crlf(), t1);
    lemma_assoc(d2, crlf(), t2);
    lemma_split_concat_eq(d1, crlf() + t1, d2, crlf() + t2);
    lemma_split_concat_eq(crlf(), t1, crlf(), t2);
    lemma_value_of_digits(v1);
    lemma_value_of_digits(v2);
}

/// A bulk string determines its payload and what follows it.
pub proof fn lemma_bulk_unique(b1: Seq<u8>, b2: Seq<u8>, t1: Seq<u8>, t2: Seq<u8>)
    requires
        spec_bulk(b1) + t1 == spec_bulk(b2) + t2,
    ensures
        b1 == b2,
        t1 == t2,
{
    lemma_bulk_regroup(b1, t1);
    lemma_bulk_regroup(b2, t2);
    lemma_split_concat_eq(
        seq![36u8],
        dec_digits(b1.len()) + crlf() + (b1 + crlf() + t1),
        seq![36u8],
        dec_digits(b2.len()) + crlf() + (b2 + crlf() + t2),
    );
    lemma_num_line_unique(b1.len(), b2.len(), b1 + crlf() + t1, b2 + crlf() + t2);
    lemma_assoc(b1, crlf(), t1);
    lemma_assoc(b2, crlf(), t2);
    lemma_split_concat_eq(b1, crlf() + t1, b2, crlf() + t2);
    lemma_split_concat_eq(crlf(), t1, crlf(), t2);
}

/// `+OK\r\n`
pub fn encode_simple_ok() -> (r: Vec<u8>)
    ensures
        r@ == spec_simple_ok(),
{
    let mut v: Vec<u8> = Vec::new();
    v.push(43);
    v.push(79);
    v.push(75);
    v.push(13);
    v.push(10);
    proof {
        assert(v@ =~= spec_simple_ok());
    }
    v
}

/// `$-1\r\n`
pub fn encode_null_bulk() -> (r: Vec<u8>)
    ensures
        r@ == spec_null_bulk(),
{
    let mut v: Vec<u8> = Vec::new();
    v.push(36);
    v.push(45);
    v.push(49);
    v.push(13);
    v.push(10);
    proof {
        assert(v@ =~= spec_null_bulk());
    }
    v
}

/// `:<n>\r\n`
pub fn encode_integer(n: usize) -> (r: Vec<u8>)
    ensures
        r@ == spec_integer(n as nat),
{
    let mut v: Vec<u8> = Vec::new();
    v.push(58);
    let mut d = dec_of(n);
    v.append(&mut d);
    v.push(13);
    v.push(10);
    proof {
        assert(v@ =~= spec_integer(n as nat));
    }
    v
}

/// `$<len>\r\n<bytes>\r\n`
pub fn encode_bulk(b: &[u8]) -> (r: Vec<u8>)
    ensures
        r@ == spec_bulk(b@),
{
    let mut v: Vec<u8> = Vec::new();
    v.push(36);
    let mut d = dec_of(b.len());
    v.append(&mut d);
    v.push(13);
    v.push(10);
    append_bytes(&mut v, b);
    v.push(13);
    v.push(10);
    proof {
        assert(v@ =~= spec_bulk(b@));
    }
    v
}

/// `-<msg>\r\n`
pub fn encode_error(msg: &[u8]) -> (r: Vec<u8>)
    ensures
        r@ == seq![45u8] + msg@ + crlf(),
        is_error_reply(r@),
{
    let mut v: Vec<u8> = Vec::new();
    v.push(45);
    append_bytes(&mut v, msg);
    v.push(13);
    v.push(10);
    proof {
        assert(v@ =~= seq![45u8] + msg@ + crlf());
    }
    v
}

/// Result of reading one `<digits>\r\n` line.
enum LineNum {
    Val(usize, usize),
    More,
    Bad,
}

/// Reads a canonical decimal number terminated by CRLF at `start`. A
/// buffer holding a complete wire-sized number line is never refused.
fn read_number_line(input: &[u8], start: usize) -> (r: LineNum)
    requires
        start <= input@.len(),
    ensures
        r matches LineNum::Val(v, end) ==> start < end <= input@.len() && input@.subrange(
            start as int,
            end as int,
        ) == dec_digits(v as nat) + crlf(),
        (r is More || r is Bad) ==> !has_num_line(input@, start as int),
{
    let n = input.len();
    let mut j: usize = start;
    while j < n && j - start < 10 && input[j] != 13
        invariant
            start <= j <= n,
            n == input@.len(),
            j - start <= 10,
            forall|t: int| start <= t < j ==> input@[t] != 13,
        decreases n - j,
    {
        j = j + 1;
    }
    if j - start >= 10 {
        proof {
            if has_num_line(input@, start as int) {
                let (v, tail) = choose|v: nat, tail: Seq<u8>|
                    v < 1000000000 && input@.subrange(start as int, input@.len() as int) == (
                    dec_digits(v) + crlf() + tail);
                let d = dec_digits(v);
                lemma_dec_digits_canonical(v);
                let sub = input@.subrange(start as int, input@.len() as int);
                assert((d + crlf() + tail)[d.len() as int] == crlf()[0]);
                assert(sub[d.len() as int] == 13);
                assert(input@[start + d.len()] == 13);
            }
        }
        return LineNum::Bad;
    }
    if j == n {
        proof {
            if has_num_line(input@, start as int) {
                let (v, tail) = choose|v: nat, tail: Seq<u8>|
                    v < 1000000000 && input@.subrange(start as int, input@.len() as int) == (
                    dec_digits(v) + crlf() + tail);
                let d = dec_digits(v);
                lemma_dec_digits_canonical(v);
                let sub = input@.subrange(start as int, input@.len() as int);
                assert(sub.len() == d.len() + 2 + tail.len());
                assert((d + crlf() + tail)[d.len() as int] == crlf()[0]);
                assert(sub[d.len() as int] == 13);
                assert(input@[start + d.len()] == 13);
            }
        }
        return LineNum::More;
    }
    // input[j] == 13 here
    if j + 1 >= n {
        proof {
            if has_num_line(input@, start as int) {
                let (v, tail) = choose|v: nat, tail: Seq<u8>|
                    v < 1000000000 && input@.subrange(start as int, input@.len() as int) == (
                    dec_digits(v) + crlf() + tail);
                let d = dec_digits(v);
                lemma_dec_digits_canonical(v);
                let sub = input@.subrange(start as int, input@.len() as int);
                assert(sub.len() == d.len() + 2 + tail.len());
                assert((d + crlf() + tail)[d.len() as int] == crlf()[0]);
                assert(input@[start + d.len()] == 13);
                if j < start + d.len() {
                    assert((d + crlf() + tail)[j - start] == d[j - start]);
                    assert(is_digit(d[j - start]));
                    assert(input@[j as int] == d[j - start]);
                }
                assert(j == start + d.len());
                assert(n >= start + d.len() + 2);
            }
        }
        return LineNum::More;
    }
    if input[j + 1] != 10 {
        proof {
            if has_num_line(input@, start as int) {
                let (v, tail) = choose|v: nat, tail: Seq<u8>|
                    v < 1000000000 && input@.subrange(start as int, input@.len() as int) == (
                    dec_digits(v) + crlf() + tail);
                let d = dec_digits(v);
                lemma_dec_digits_canonical(v);
                let sub = input@.subrange(start as int, input@.len() as int);
                assert(sub.len() == d.len() + 2 + tail.len());
                assert((d + crlf() + tail)[d.len() as int] == crlf()[0]);
                assert(input@[start + d.len()] == 13);
                if j < start + d.len() {
                    assert((d + crlf() + tail)[j - start] == d[j - start]);
                    assert(is_digit(d[j - start]));
                    assert(input@[j as int] == d[j - start]);
                }
                assert(j == start + d.len());
                assert((d + crlf() + tail)[d.len() as int + 1] == crlf()[1]);
                assert(input@[j + 1] == 10);
            }
        }
        return LineNum::Bad;
    }
    let digits = slice_subrange(input, start, j);
    match parse_dec(digits) {
        Some(v) => {
            proof {
                lemma_digits_of_value(digits@);
                assert(input@.subrange(start as int, (j + 2) as int) =~= digits@ + crlf());
            }
            LineNum::Val(v, j + 2)
        },
        None => {
            proof {
                if has_num_line(input@, start as int) {
                    let (v, tail) = choose|v: nat, tail: Seq<u8>|
                        v < 1000000000 && input@.subrange(start as int, input@.len() as int) == (
                        dec_digits(v) + crlf() + tail);
                    let d = dec_digits(v);
                    lemma_dec_digits_canonical(v);
                    let sub = input@.subrange(start as int, input@.len() as int);
                    assert(sub.len() == d.len() + 2 + tail.len());
                    assert((d + crlf() + tail)[d.len() as int] == crlf()[0]);
                    assert(input@[start + d.len()] == 13);
                    if j < start + d.len() {
                        assert((d + crlf() + tail)[j - start] == d[j - start]);
                        assert(is_digit(d[j - start]));
                        assert(input@[j as int] == d[j - start]);
                    }
                    assert(j == start + d.len());
                    assert forall|i: int| 0 <= i < d.len() implies digits@[i] == d[i] by {
                        assert((d + crlf() + tail)[i] == d[i]);
                        assert(input@[start + i] == d[i]);
                    }
                    assert(digits@ =~= d);
                }
            }
            LineNum::Bad
        },
    }
}

/// Result of reading one bulk string.
enum BulkRes {
    Val(Vec<u8>, usize),
    More,
    Bad,
}

/// Reads one `$<len>\r\n<bytes>\r\n` item at `start`. A buffer holding a
/// complete wire-sized bulk string there is never refused.
#[verifier::rlimit(30)]
fn read_bulk(input: &[u8], start: usize) -> (r: BulkRes)
    requires
        start <= input@.len(),
    ensures
        r matches BulkRes::Val(b, end) ==> start < end <= input@.len() && input@.subrange(
            start as int,
            end as int,
        ) == spec_bulk(b@),
        (r is More || r is Bad) ==> !has_bulk_at(input@, start as int),
{
    let n = input.len();
    if start >= n {
        proof {
            if has_bulk_at(input@, start as int) {
                let (b, tail) = choose|b: Seq<u8>, tail: Seq<u8>|
                    b.len() < 1000000000 && input@.subrange(start as int, input@.len() as int) == (
                    spec_bulk(b) + tail);
                lemma_dec_digits_all_digits(b.len());
                assert((spec_bulk(b) + tail).len() >= 6);
            }
        }
        return BulkRes::More;
    }
    if input[start] != 36 {
        proof {
            if has_bulk_at(input@, start as int) {
                let (b, tail) = choose|b: Seq<u8>, tail: Seq<u8>|
                    b.len() < 1000000000 && input@.subrange(start as int, input@.len() as int) == (
                    spec_bulk(b) + tail);
                lemma_bulk_regroup(b, tail);
                let x = dec_digits(b.len()) + crlf() + (b + crlf() + tail);
                assert((seq![36u8] + x)[0] == 36);
                assert(input@[start as int] == 36);
            }
        }
        return BulkRes::Bad;
    }
    let num = read_number_line(input, start + 1);
    proof {
        if has_bulk_at(input@, start as int) {
            let (b, tail) = choose|b: Seq<u8>, tail: Seq<u8>|
                b.len() < 1000000000 && input@.subrange(start as int, input@.len() as int) == (
                spec_bulk(b) + tail);
            lemma_bulk_regroup(b, tail);
            let x = dec_digits(b.len()) + crlf() + (b + crlf() + tail);
            let sub1 = input@.subrange(start + 1, n as int);
            assert(input@.subrange(start as int, n as int) == seq![36u8] + x);
            assert((seq![36u8] + x).len() == 1 + x.len());
            assert(sub1.len() == x.len());
            assert forall|i: int| 0 <= i < sub1.len() implies sub1[i] == x[i] by {
                assert(sub1[i] == input@[start + 1 + i]);
                assert(input@.subrange(start as int, n as int)[1 + i] == input@[start + 1 + i]);
                assert((seq![36u8] + x)[1 + i] == x[i]);
            }
            assert(sub1 =~= x);
            assert(has_num_line(input@, start + 1));
        }
    }
    match num {
        LineNum::More => BulkRes::More,
        LineNum::Bad => BulkRes::Bad,
        LineNum::Val(l, e) => {
            proof {
                if has_bulk_at(input@, start as int) {
                    let (b, tail) = choose|b: Seq<u8>, tail: Seq<u8>|
                        b.len() < 1000000000 && input@.subrange(start as int, input@.len() as int)
                            == (spec_bulk(b) + tail);
                    lemma_bulk_regroup(b, tail);
                    let sub1 = input@.subrange(start + 1, n as int);
                    assert(sub1 == dec_digits(b.len()) + crlf() + (b + crlf() + tail));
                    assert(sub1 =~= input@.subrange(start + 1, e as int) + input@.subrange(
                        e as int,
                        n as int,
                    ));
                    lemma_assoc(dec_digits(l as nat), crlf(), input@.subrange(e as int, n as int));
                    assert(sub1 == dec_digits(l as nat) + crlf() + input@.subrange(
                        e as int,
                        n as int,
                    ));
                    lemma_num_line_unique(
                        b.len(),
                        l as nat,
                        b + crlf() + tail,
                        input@.subrange(e as int, n as int),
                    );
                    assert(b.len() == l);
                    assert(input@.subrange(e as int, n as int) == b + crlf() + tail);
                    assert((b + crlf() + tail).len() == b.len() + 2 + tail.len());
                    assert(n - e >= l + 2);
                    assert((b + crlf() + tail)[b.len() as int] == crlf()[0]);
                    assert(input@[e + l] == 13);
                    assert((b + crlf() + tail)[b.len() as int + 1] == crlf()[1]);
                    assert(input@[e + l + 1] == 10);
                }
            }
            if n - e < l || n - e - l < 2 {
                return BulkRes::More;
            }
            if input[e + l] != 13 || input[e + l + 1] != 10 {
                return BulkRes::Bad;
            }
            let payload = copy_bytes(slice_subrange(input, e, e + l));
            let end = e + l + 2;
            proof {
                let d = dec_digits(l as nat);
                let iv = input@;
                assert(payload@.len() == l as nat);
                assert(iv.subrange(start as int, start + 1) =~= seq![36u8]);
                assert(iv.subrange(e + l, end as int) =~= crlf());
                assert(iv.subrange(start as int, end as int) =~= iv.subrange(
                    start as int,
                    start + 1,
                ) + iv.subrange(start + 1, e as int) + iv.subrange(e as int, e + l) + iv.subrange(
                    e + l,
                    end as int,
                ));
                assert(seq![36u8] + (d + crlf()) =~= seq![36u8] + d + crlf());
                assert(spec_bulk(payload@) == seq![36u8] + d + crlf() + payload@ + crlf());
            }
            BulkRes::Val(payload, end)
        },
    }
}

/// Result of decoding one request frame from the front of a buffer.
pub enum Decoded {
    /// A complete frame: its bulk-string arguments and its byte length.
    Frame(Vec<Vec<u8>>, usize),
    /// No complete frame yet; more bytes are needed.
    Incomplete,
    /// The buffer can never again align with a frame boundary.
    Malformed,
}

/// Decodes one array-of-bulk-strings request from the front of `input`.
/// Whatever it accepts is exact: the consumed prefix is precisely the wire
/// encoding of the returned arguments. And it refuses nothing well-formed:
/// a buffer that begins with a complete wire-sized frame always decodes.
pub fn decode_array(input: &[u8]) -> (r: Decoded)
    ensures
        r matches Decoded::Frame(args, n) ==> n <= input@.len() && input@.subrange(0, n as int)
            == spec_array(args.deep_view()),
        has_frame(input@) ==> r is Frame,
{
    let n = input.len();
    if n == 0 {
        proof {
            if has_frame(input@) {
                let (gargs, grest) = choose|args: Seq<Seq<u8>>, rest: Seq<u8>|
                    wire_sized(args) && input@ == (spec_array(args) + rest);
                lemma_dec_digits_all_digits(gargs.len());
                assert((spec_array(gargs) + grest).len() >= 4);
            }
        }
        return Decoded::Incomplete;
    }
    if input[0] != 42 {
        proof {
            if has_frame(input@) {
                let (gargs, grest) = choose|args: Seq<Seq<u8>>, rest: Seq<u8>|
                    wire_sized(args) && input@ == (spec_array(args) + rest);
                lemma_array_regroup(gargs, grest);
                let x = dec_digits(gargs.len()) + crlf() + (spec_bulks(gargs) + grest);
                assert((seq![42u8] + x)[0] == 42);
                assert(input@[0] == 42);
            }
        }
        return Decoded::Malformed;
    }
    let num = read_number_line(input, 1);
    proof {
        if has_frame(input@) {
            let (gargs, grest) = choose|args: Seq<Seq<u8>>, rest: Seq<u8>|
                wire_sized(args) && input@ == (spec_array(args) + rest);
            lemma_array_regroup(gargs, grest);
            let x = dec_digits(gargs.len()) + crlf() + (spec_bulks(gargs) + grest);
            let sub1 = input@.subrange(1, n as int);
            assert(input@ == seq![42u8] + x);
            assert((seq![42u8] + x).len() == 1 + x.len());
            assert(sub1.len() == x.len());
            assert forall|i: int| 0 <= i < sub1.len() implies sub1[i] == x[i] by {
                assert(sub1[i] == input@[1 + i]);
                assert((seq![42u8] + x)[1 + i] == x[i]);
            }
            assert(sub1 =~= x);
            assert(has_num_line(input@, 1));
        }
    }
    match num {
        LineNum::More => Decoded::Incomplete,
        LineNum::Bad => Decoded::Malformed,
        LineNum::Val(count, e) => {
            let ghost has = has_frame(input@);
            let ghost (gargs, grest): (Seq<Seq<u8>>, Seq<u8>) = if has {
                choose|args: Seq<Seq<u8>>, rest: Seq<u8>|
                    wire_sized(args) && input@ == (spec_array(args) + rest)
            } else {
                arbitrary()
            };
            proof {
                if has {
                    lemma_array_regroup(gargs, grest);
                    let x = dec_digits(gargs.len()) + crlf() + (spec_bulks(gargs) + grest);
                    let sub1 = input@.subrange(1, n as int);
                    assert(input@ == seq![42u8] + x);
                    assert((seq![42u8] + x).len() == 1 + x.len());
                    assert(sub1.len() == x.len());
                    assert forall|i: int| 0 <= i < sub1.len() implies sub1[i] == x[i] by {
                        assert(sub1[i] == input@[1 + i]);
                        assert((seq![42u8] + x)[1 + i] == x[i]);
                    }
                    assert(sub1 =~= x);
                    assert(sub1 =~= input@.subrange(1, e as int) + input@.subrange(
                        e as int,
                        n as int,
                    ));
                    lemma_assoc(dec_digits(count as nat), crlf(), input@.subrange(e as int, n as int));
                    assert(sub1 == dec_digits(count as nat) + crlf() + input@.subrange(
                        e as int,
                        n as int,
                    ));
                    lemma_num_line_unique(
                        gargs.len(),
                        count as nat,
                        spec_bulks(gargs) + grest,
                        input@.subrange(e as int, n as int),
                    );
                    assert(count as nat == gargs.len());
                    assert(input@.subrange(e as int, n as int) == spec_bulks(gargs) + grest);
                    assert(gargs.skip(0) =~= gargs);
                }
            }
            let mut args: Vec<Vec<u8>> = Vec::new();
            let mut pos: usize = e;
            let mut k: usize = 0;
            proof {
                let d = dec_digits(count as nat);
                let iv = input@;
                assert(args.deep_view() =~~= Seq::<Seq<u8>>::empty());
                assert(spec_bulks(args.deep_view()) == Seq::<u8>::empty());
                assert(iv.subrange(0, 1) =~= seq![42u8]);
                assert(iv.subrange(0, e as int) =~= iv.subrange(0, 1) + iv.subrange(1, e as int));
                assert(seq![42u8] + (d + crlf()) =~= seq![42u8] + d + crlf());
                assert(spec_array_header(count as nat) == seq![42u8] + d + crlf());
                assert(spec_array_header(count as nat) + spec_bulks(args.deep_view())
                    =~= spec_array_header(count as nat));
            }
            while k < count
                invariant
                    k <= count,
                    n == input@.len(),
                    pos <= n,
                    args.deep_view().len() == k,
                    input@.subrange(0, pos as int) == spec_array_header(count as nat) + spec_bulks(
                        args.deep_view(),
                    ),
                    has == has_frame(input@),
                    has ==> wire_sized(gargs) && input@ == spec_array(gargs) + grest && count as nat
                        == gargs.len(),
                    has ==> k <= gargs.len() && input@.subrange(pos as int, n as int) == spec_bulks(
                        gargs.skip(k as int),
                    ) + grest,
                decreases count - k,
            {
                proof {
                    if has {
                        let sk = gargs.skip(k as int);
                        assert(sk.len() > 0);
                        assert(sk[0] == gargs[k as int]);
                        assert(sk.drop_first() =~= gargs.skip(k as int + 1));
                        assert(spec_bulks(sk) == spec_bulk(gargs[k as int]) + spec_bulks(
                            gargs.skip(k as int + 1),
                        ));
                        lemma_assoc(
                            spec_bulk(gargs[k as int]),
                            spec_bulks(gargs.skip(k as int + 1)),
                            grest,
                        );
                        assert(input@.subrange(pos as int, n as int) == spec_bulk(gargs[k as int])
                            + (spec_bulks(gargs.skip(k as int + 1)) + grest));
                        assert(gargs[k as int].len() < 1000000000);
                        assert(has_bulk_at(input@, pos as int));
                    }
                }
                match read_bulk(input, pos) {
                    BulkRes::More => {
                        return Decoded::Incomplete;
                    },
                    BulkRes::Bad => {
                        return Decoded::Malformed;
                    },
                    BulkRes::Val(b, end) => {
                        proof {
                            let old_args = args.deep_view();
                            lemma_spec_bulks_push(old_args, b@);
                            assert(input@.subrange(0, end as int) =~= input@.subrange(0, pos as int)
                                + input@.subrange(pos as int, end as int));
                            if has {
                                assert(input@.subrange(pos as int, n as int) =~= input@.subrange(
                                    pos as int,
                                    end as int,
                                ) + input@.subrange(end as int, n as int));
                                lemma_bulk_unique(
                                    gargs[k as int],
                                    b@,
                                    spec_bulks(gargs.skip(k as int + 1)) + grest,
                                    input@.subrange(end as int, n as int),
                                );
                                assert(input@.subrange(end as int, n as int) == spec_bulks(
                                    gargs.skip(k as int + 1),
                                ) + grest);
                            }
                        }
                        let ghost prev = args.deep_view();
                        args.push(b);
                        proof {
                            assert(args.deep_view() =~~= prev.push(b@));
                        }
                        pos = end;
                        k = k + 1;
                    },
                }
            }
            proof {
                assert(args.deep_view().len() == count as nat);
            }
            Decoded::Frame(args, pos)
        },
    }
}

/// The store contents after one request whose arguments are `args`.
/// Only a well-formed `SET` with JSON-object text writes; only a well-formed
/// `DEL` removes; everything else — including every error — leaves the store
/// untouched.
pub open spec fn step_map(m: Map<Seq<u8>, Seq<u8>>, args: Seq<Seq<u8>>) -> Map<Seq<u8>, Seq<u8>> {
    if args.len() == 3 && upper_seq(args[0]) == seq![83u8, 69u8, 84u8] && args[1].len() > 0
        && args[2].len() <= MAX_JSON_LEN && json_object(args[2]) {
        m.insert(args[1], args[2])
    } else if args.len() == 2 && upper_seq(args[0]) == seq![68u8, 69u8, 76u8] && args[1].len()
        > 0 {
        m.remove(args[1])
    } else {
        m
    }
}

/// The reply owed to a request with arguments `args` against store contents
/// `m`: `+OK` for a valid SET, a bulk or null bulk for GET, `:1`/`:0` for
/// DEL, and a RESP error reply for a non-object or oversized SET payload,
/// a wrong arity, an empty key, an unknown command, or an empty request.
pub open spec fn resp_reply_spec(m: Map<Seq<u8>, Seq<u8>>, args: Seq<Seq<u8>>, reply: Seq<u8>) -> bool {
    if args.len() == 3 && upper_seq(args[0]) == seq![83u8, 69u8, 84u8] && args[1].len() > 0 {
        if args[2].len() <= MAX_JSON_LEN && json_object(args[2]) {
            reply == spec_simple_ok()
        } else {
            is_error_reply(reply)
        }
    } else if args.len() == 2 && upper_seq(args[0]) == seq![71u8, 69u8, 84u8] && args[1].len()
        > 0 {
        if m.contains_key(args[1]) {
            reply == spec_bulk(m[args[1]])
        } else {
            reply == spec_null_bulk()
        }
    } else if args.len() == 2 && upper_seq(args[0]) == seq![68u8, 69u8, 76u8] && args[1].len()
        > 0 {
        reply == spec_integer(if m.contains_key(args[1]) { 1 } else { 0 })
    } else {
        is_error_reply(reply)
    }
}

/// Compares a token against a three-byte upper-case word, folding case.
fn is_word3(a: &[u8], t0: u8, t1: u8, t2: u8) -> (r: bool)
    ensures
        r == (upper_seq(a@) == seq![t0, t1, t2]),
{
    proof {
        assert(upper_seq(a@).len() == a@.len());
    }
    if a.len() != 3 {
        proof {
            assert(upper_seq(a@) == seq![t0, t1, t2] ==> upper_seq(a@).len() == 3);
        }
        return false;
    }
    let x0 = a[0];
    let x1 = a[1];
    let x2 = a[2];
    let f0 = if 97 <= x0 && x0 <= 122 { x0 - 32 } else { x0 };
    let f1 = if 97 <= x1 && x1 <= 122 { x1 - 32 } else { x1 };
    let f2 = if 97 <= x2 && x2 <= 122 { x2 - 32 } else { x2 };
    proof {
        assert(upper_seq(a@)[0] == upper(a@[0]));
        assert(upper_seq(a@)[1] == upper(a@[1]));
        assert(upper_seq(a@)[2] == upper(a@[2]));
    }
    if f0 == t0 && f1 == t1 && f2 == t2 {
        proof {
            assert(upper_seq(a@) =~= seq![t0, t1, t2]);
        }
        true
    } else {
        proof {
            assert(upper_seq(a@) == seq![t0, t1, t2] ==> upper(a@[0]) == t0 && upper(a@[1]) == t1
                && upper(a@[2]) == t2);
        }
        false
    }
}

/// Executes one decoded request against the store and encodes its reply.
pub fn execute(store: &mut Store, args: &Vec<Vec<u8>>) -> (r: Vec<u8>)
    requires
        old(store).wf(),
    ensures
        final(store).wf(),
        final(store)@ == step_map(old(store)@, args.deep_view()),
        resp_reply_spec(old(store)@, args.deep_view(), r@),
{
    proof {
        assert(forall|i: int| 0 <= i < args@.len() ==> args.deep_view()[i] == args@[i]@);
    }
    if args.len() == 3 && is_word3(args[0].as_slice(), 83, 69, 84) && args[1].len() > 0 {
        // SET key value
        if args[2].len() > MAX_JSON_LEN {
            encode_error("ERR value too large".as_bytes())
        } else if is_object_text(args[2].as_slice()) {
            let key = copy_bytes(args[1].as_slice());
            let value = copy_bytes(args[2].as_slice());
            let _outcome = apply(store, Command::SET { key, value });
            encode_simple_ok()
        } else {
            encode_error("ERR value is not a JSON object".as_bytes())
        }
    } else if args.len() == 2 && is_word3(args[0].as_slice(), 71, 69, 84) && args[1].len() > 0 {
        // GET key
        let key = copy_bytes(args[1].as_slice());
        match apply(store, Command::GET { key }) {
            Outcome::Found(v) => encode_bulk(v.as_slice()),
            _ => encode_null_bulk(),
        }
    } else if args.len() == 2 && is_word3(args[0].as_slice(), 68, 69, 76) && args[1].len() > 0 {
        // DEL key
        let key = copy_bytes(args[1].as_slice());
        match apply(store, Command::DELETE { key }) {
            Outcome::Removed(existed) => {
                if existed {
                    encode_integer(1)
                } else {
                    encode_integer(0)
                }
            },
            _ => encode_integer(0),
        }
    } else if args.len() == 0 {
        encode_error("ERR empty request".as_bytes())
    } else {
        encode_error("ERR unknown command, wrong number of arguments, or empty key".as_bytes())
    }
}

/// One step of a RESP connection.
pub enum RespStep {
    /// A reply to send, and how many input bytes the request consumed.
    Reply(Vec<u8>, usize),
    /// The buffer holds no complete request; read more bytes.
    NeedMore,
    /// Unrecoverable framing error; close the connection.
    Close,
}

/// Serves the first request in `input`, if a complete one is there: decodes
/// it, applies it to the store, and encodes the reply. A buffer that begins
/// with a complete wire-sized frame is always served. One that cannot frame
/// a request asks the caller to close; in that case, and while the request
/// is still incomplete, the store is untouched.
pub fn handle_message(store: &mut Store, input: &[u8]) -> (r: RespStep)
    requires
        old(store).wf(),
    ensures
        final(store).wf(),
        r matches RespStep::Reply(reply, n) ==> n <= input@.len() && (exists|args: Seq<Seq<u8>>|
            input@.subrange(0, n as int) == #[trigger] spec_array(args) && final(store)@
                == step_map(old(store)@, args) && resp_reply_spec(old(store)@, args, reply@)),
        (r is NeedMore || r is Close) ==> final(store)@ == old(store)@,
        has_frame(input@) ==> r is Reply,
{
    match decode_array(input) {
        Decoded::Incomplete => RespStep::NeedMore,
        Decoded::Malformed => RespStep::Close,
        Decoded::Frame(args, n) => {
            let reply = execute(store, &args);
            proof {
                let w = args.deep_view();
                assert(input@.subrange(0, n as int) == spec_array(w));
            }
            RespStep::Reply(reply, n)
        },
    }
}

} // verus!
