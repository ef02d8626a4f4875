//! Decimal rendering and parsing of unsigned numbers as ASCII digit strings.
//!
//! Both wire formats write lengths and counters in decimal: HTTP in the
//! `Content-Length` header, RESP in its `*`/`$`/`:` prefixes. The spec-level
//! form is `dec_digits`, the canonical (no leading zero) digit string of a
//! number; rendering and parsing are proved exact against it.

use vstd::prelude::*;

verus! {

/// The canonical decimal digit string of `n`, most significant digit first.
pub open spec fn dec_digits(n: nat) -> Seq<u8>
    decreases n,
{
    if n < 10 {
        seq![(48 + n) as u8]
    } else {
        dec_digits(n / 10).push((48 + n % 10) as u8)
    }
}

/// `b` is an ASCII decimal digit.
pub open spec fn is_digit(b: u8) -> bool {
    48 <= b <= 57
}

/// Every byte of `s` is an ASCII decimal digit.
pub open spec fn all_digits(s: Seq<u8>) -> bool {
    forall|i: int| 0 <= i < s.len() ==> is_digit(s[i])
}

/// The number denoted by the digit string `s` (meaningful when `all_digits(s)`).
pub open spec fn dec_value(s: Seq<u8>) -> nat
    decreases s.len(),
{
    if s.len() == 0 {
        0
    } else {
        dec_value(s.drop_last()) * 10 + (if s.last() >= 48 {
            (s.last() - 48) as nat
        } else {
            0
        })
    }
}

/// A digit string this crate accepts as a wire-format length or count:
/// one to nine digits, no leading zero. Nine digits keep every accepted
/// value below one billion, so arithmetic on it cannot overflow `usize`.
pub open spec fn canonical_dec(s: Seq<u8>) -> bool {
    &&& 1 <= s.len() <= 9
    &&& all_digits(s)
    &&& (s.len() > 1 ==> s[0] != 48)
}

pub open spec fn pow10(n: nat) -> nat
    decreases n,
{
    if n == 0 {
        1
    } else {
        10 * pow10((n - 1) as nat)
    }
}

proof fn lemma_div_mod10(a: nat, d: nat)
    by (nonlinear_arith)
    requires
        d < 10,
    ensures
        (a * 10 + d) / 10 == a,
        (a * 10 + d) % 10 == d,
        a >= 1 ==> a * 10 + d >= 10,
{
}

/// Appending a digit to a nonzero number's digit string matches base-10 shift.
pub proof fn lemma_dec_digits_step(a: nat, d: nat)
    requires
        a >= 1,
        d < 10,
    ensures
        dec_digits(a * 10 + d) == dec_digits(a).push((48 + d) as u8),
{
    lemma_div_mod10(a, d);
}

pub proof fn lemma_pow10_mono(a: nat, b: nat)
    requires
        a <= b,
    ensures
        pow10(a) <= pow10(b),
    decreases b,
{
    if a < b {
        lemma_pow10_mono(a, (b - 1) as nat);
        assert(pow10(b) == 10 * pow10((b - 1) as nat));
    }
}

/// A digit string of length `l` denotes a value below `10^l`.
pub proof fn lemma_dec_value_bound(s: Seq<u8>)
    requires
        all_digits(s),
    ensures
        dec_value(s) < pow10(s.len()),
    decreases s.len(),
{
    if s.len() > 0 {
        assert(all_digits(s.drop_last()));
        lemma_dec_value_bound(s.drop_last());
        let a = dec_value(s.drop_last());
        let p = pow10((s.len() - 1) as nat);
        assert(a * 10 + 9 < p * 10) by (nonlinear_arith)
            requires
                a < p,
        ;
        assert(pow10(s.len()) == 10 * p);
    }
}

/// A digit string with a nonzero leading digit denotes a nonzero value.
pub proof fn lemma_dec_value_pos(s: Seq<u8>)
    requires
        all_digits(s),
        s.len() >= 1,
        s[0] != 48,
    ensures
        dec_value(s) >= 1,
    decreases s.len(),
{
    if s.len() == 1 {
        assert(s.last() == s[0]);
    } else {
        assert(all_digits(s.drop_last()));
        assert(s.drop_last()[0] == s[0]);
        lemma_dec_value_pos(s.drop_last());
    }
}

/// Rendering the value of a canonical digit string gives the string back.
pub proof fn lemma_digits_of_value(s: Seq<u8>)
    requires
        canonical_dec(s),
    ensures
        dec_digits(dec_value(s)) == s,
    decreases s.len(),
{
    if s.len() == 1 {
        assert(s.last() == s[0]);
        assert(s.drop_last().len() == 0);
        assert(dec_value(s.drop_last()) == 0);
        assert(dec_value(s) == (s[0] - 48) as nat);
        assert(dec_digits(dec_value(s)) =~= s);
    } else {
        let head = s.drop_last();
        assert(all_digits(head));
        assert(head[0] == s[0]);
        lemma_dec_value_pos(head);
        lemma_digits_of_value(head);
        let d = (s.last() - 48) as nat;
        lemma_dec_digits_step(dec_value(head), d);
        assert(dec_digits(dec_value(s)) =~= s);
    }
}


/// Every byte of a rendered number is a digit, and there is at least one.
pub proof fn lemma_dec_digits_all_digits(n: nat)
    ensures
        all_digits(dec_digits(n)),
        dec_digits(n).len() >= 1,
    decreases n,
{
    if n >= 10 {
        lemma_dec_digits_all_digits(n / 10);
    }
}

/// A rendered nonzero number does not start with the digit `0`.
pub proof fn lemma_dec_digits_first_nonzero(n: nat)
    requires
        n >= 1,
    ensures
        dec_digits(n)[0] != 48,
    decreases n,
{
    if n >= 10 {
        lemma_dec_digits_all_digits(n / 10);
        lemma_dec_digits_first_nonzero(n / 10);
        assert(dec_digits(n)[0] == dec_digits(n / 10)[0]);
    }
}

proof fn lemma_div10_lt(a: nat, b: nat)
    by (nonlinear_arith)
    requires
        a < 10 * b,
    ensures
        a / 10 < b,
{
}

/// A number below `10^k` renders in at most `k` digits.
pub proof fn lemma_dec_digits_len_le(n: nat, k: nat)
    requires
        n < pow10(k),
        k >= 1,
    ensures
        dec_digits(n).len() <= k,
    decreases k,
{
    if n >= 10 {
        assert(pow10(k) == 10 * pow10((k - 1) as nat));
        lemma_div10_lt(n, pow10((k - 1) as nat));
        if k == 1 {
            assert(pow10(1nat) == 10) by {
                reveal_with_fuel(pow10, 2);
            }
        } else {
            lemma_dec_digits_len_le(n / 10, (k - 1) as nat);
        }
    }
}

/// A number a wire format can carry renders as a canonical digit string.
pub proof fn lemma_dec_digits_canonical(n: nat)
    requires
        n < 1000000000,
    ensures
        canonical_dec(dec_digits(n)),
{
    lemma_dec_digits_all_digits(n);
    assert(pow10(9) == 1000000000) by {
        reveal_with_fuel(pow10, 10);
    }
    lemma_dec_digits_len_le(n, 9);
    if dec_digits(n).len() > 1 {
        assert(n >= 10);
        lemma_dec_digits_first_nonzero(n);
    }
}

/// Rendering then reading a number gives the number back.
pub proof fn lemma_value_of_digits(n: nat)
    ensures
        dec_value(dec_digits(n)) == n,
    decreases n,
{
    if n < 10 {
        assert((48 + n) as u8 == 48 + n);
        assert(dec_digits(n) == seq![(48 + n) as u8]);
        assert(dec_digits(n).drop_last() =~= Seq::<u8>::empty());
        assert(dec_value(dec_digits(n).drop_last()) == 0);
        assert(dec_digits(n).last() == 48 + n);
    } else {
        lemma_value_of_digits(n / 10);
        let d = dec_digits(n / 10);
        assert((48 + n % 10) as u8 == 48 + n % 10);
        assert(dec_digits(n) == d.push((48 + n % 10) as u8));
        assert(d.push((48 + n % 10) as u8).drop_last() =~= d);
        assert(dec_digits(n).last() == 48 + n % 10);
        assert(dec_value(dec_digits(n)) == dec_value(d) * 10 + (n % 10));
    }
}

/// Renders `n` as its canonical decimal digit string.
pub fn dec_of(n: usize) -> (r: Vec<u8>)
    ensures
        r@ == dec_digits(n as nat),
    decreases n,
{
    if n < 10 {
        let mut v: Vec<u8> = Vec::new();
        v.push(48 + (n as u8));
        proof {
            assert(v@ =~= dec_digits(n as nat));
        }
        v
    } else {
        assert(n / 10 < n);
        let mut v = dec_of(n / 10);
        v.push(48 + ((n % 10) as u8));
        proof {
            assert(v@ =~= dec_digits((n as nat) / 10).push((48 + (n as nat) % 10) as u8));
        }
        v
    }
}

/// Parses a canonical decimal digit string; returns its value exactly when
/// the whole slice is canonical.
pub fn parse_dec(s: &[u8]) -> (r: Option<usize>)
    ensures
        r matches Some(v) ==> canonical_dec(s@) && v as nat == dec_value(s@),
        canonical_dec(s@) ==> (r matches Some(v) && v as nat == dec_value(s@)),
{
    let n = s.len();
    if n < 1 || n > 9 {
        return None;
    }
    if n > 1 && s[0] == 48 {
        return None;
    }
    let mut acc: usize = 0;
    let mut i: usize = 0;
    while i < n
        invariant
            n == s@.len(),
            1 <= n <= 9,
            0 <= i <= n,
            n > 1 ==> s@[0] != 48,
            forall|j: int| 0 <= j < i ==> is_digit(s@[j]),
            acc as nat == dec_value(s@.subrange(0, i as int)),
        decreases n - i,
    {
        let b = s[i];
        if b < 48 || b > 57 {
            return None;
        }
        proof {
            let pre = s@.subrange(0, i as int);
            assert(all_digits(pre));
            lemma_dec_value_bound(pre);
            lemma_pow10_mono(pre.len(), 8);
            assert(pow10(8) == 100000000) by {
                reveal_with_fuel(pow10, 9);
            }
            assert(acc <= 99999999);
        }
        let d = (b - 48) as usize;
        acc = acc * 10 + d;
        proof {
            let pre = s@.subrange(0, i as int);
            let ext = s@.subrange(0, i + 1);
            assert(ext.drop_last() =~= pre);
            assert(ext.last() == s@[i as int]);
        }
        i = i + 1;
    }
    proof {
        assert(s@.subrange(0, n as int) =~= s@);
    }
    Some(acc)
}

} // verus!
