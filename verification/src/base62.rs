//! Base-62 codec for share strings.
//!
//! A byte payload is framed with a ten-byte prefix whose leading byte is
//! nonzero, read as one big-endian integer, and written out as base-62
//! digits, least significant digit first. Decoding reverses this and strips
//! the prefix again, so the digit alphabet never includes the `':'` used to
//! separate the two fields of a share string.

use vstd::prelude::*;
use vstd::arithmetic::div_mod::lemma_fundamental_div_mod_converse;

verus! {

/// Value of a big-endian byte string.
pub open spec fn be_val(s: Seq<u8>) -> nat
    decreases s.len(),
{
    if s.len() == 0 {
        0
    } else {
        be_val(s.drop_last()) * 256 + s.last() as nat
    }
}

/// Value of a little-endian (least significant first) base-62 digit string.
pub open spec fn le62_val(ds: Seq<u8>) -> nat
    decreases ds.len(),
{
    if ds.len() == 0 {
        0
    } else {
        ds.first() as nat + 62 * le62_val(ds.drop_first())
    }
}

/// Canonical base-62 digits of a value, least significant first.
pub open spec fn digits_of(n: nat) -> Seq<u8>
    decreases n,
{
    if n == 0 {
        Seq::empty()
    } else {
        seq![(n % 62) as u8] + digits_of(n / 62)
    }
}

/// Canonical big-endian bytes of a value: empty for zero, no leading zero.
pub open spec fn bytes_of(n: nat) -> Seq<u8>
    decreases n,
{
    if n == 0 {
        Seq::empty()
    } else {
        bytes_of(n / 256).push((n % 256) as u8)
    }
}

/// A big-endian byte string with no leading zero byte.
pub open spec fn is_minimal_be(s: Seq<u8>) -> bool {
    s.len() == 0 || s.first() != 0
}

pub open spec fn pow256(n: nat) -> nat
    decreases n,
{
    if n == 0 {
        1
    } else {
        256 * pow256((n - 1) as nat)
    }
}

/// The character standing for one base-62 digit: `0-9A-Za-z`.
pub open spec fn digit_char(d: u8) -> char {
    if d < 10 {
        ((48 + d) as u8) as char
    } else if d < 36 {
        ((55 + d) as u8) as char
    } else if d < 62 {
        ((61 + d) as u8) as char
    } else {
        '0'
    }
}

/// The digit a character stands for, if it is in the alphabet.
pub open spec fn char_digit(c: char) -> Option<u8> {
    let u = c as u32;
    if 48 <= u <= 57 {
        Some((u - 48) as u8)
    } else if 65 <= u <= 90 {
        Some((u - 55) as u8)
    } else if 97 <= u <= 122 {
        Some((u - 61) as u8)
    } else {
        None
    }
}

/// The framing put ahead of the payload before encoding.
pub open spec fn prefixed(b: Seq<u8>) -> Seq<u8> {
    Seq::new(
        10 + b.len(),
        |i: int|
            if i == 0 {
                1u8
            } else if i < 10 {
                0u8
            } else {
                b[i - 10]
            },
    )
}

/// What `encode` returns.
pub open spec fn b62_encode(b: Seq<u8>) -> Seq<char> {
    if b.len() == 0 {
        Seq::empty()
    } else {
        digits_of(be_val(prefixed(b))).map_values(|d: u8| digit_char(d))
    }
}

/// What `decode` returns: `None` exactly on a character outside the
/// alphabet, or on a value too small to carry the ten-byte prefix.
pub open spec fn b62_decode(s: Seq<char>) -> Option<Seq<u8>> {
    if s.len() == 0 {
        Some(Seq::empty())
    } else if exists|i: int| 0 <= i < s.len() && char_digit(s[i]) is None {
        None
    } else {
        let bs = bytes_of(le62_val(s.map_values(|c: char| char_digit(c).unwrap())));
        if bs.len() < 10 {
            None
        } else {
            Some(bs.skip(10))
        }
    }
}

pub proof fn lemma_be_val_singleton(b: u8)
    ensures
        be_val(seq![b]) == b,
{
    assert(seq![b].len() == 1);
    assert(seq![b].last() == b);
    assert(seq![b].drop_last() =~= Seq::<u8>::empty());
    assert(be_val(Seq::<u8>::empty()) == 0);
    assert(be_val(seq![b]) == be_val(seq![b].drop_last()) * 256 + seq![b].last() as nat);
}

pub proof fn lemma_be_val_concat(x: Seq<u8>, y: Seq<u8>)
    ensures
        be_val(x + y) == be_val(x) * pow256(y.len()) + be_val(y),
    decreases y.len(),
{
    if y.len() == 0 {
        assert(x + y =~= x);
        assert(pow256(0) == 1);
        assert(be_val(y) == 0);
    } else {
        lemma_be_val_concat(x, y.drop_last());
        assert((x + y).drop_last() =~= x + y.drop_last());
        assert((x + y).last() == y.last());
        let p1 = pow256((y.len() - 1) as nat);
        assert(pow256(y.len()) == 256 * p1);
        assert(be_val(x + y) == (be_val(x) * p1 + be_val(y.drop_last())) * 256 + y.last());
        assert((be_val(x) * p1 + be_val(y.drop_last())) * 256 + y.last() as nat == be_val(x) * (256
            * p1) + (be_val(y.drop_last()) * 256 + y.last() as nat)) by (nonlinear_arith);
        assert(be_val(y) == be_val(y.drop_last()) * 256 + y.last());
        assert(be_val(x) * pow256(y.len()) == be_val(x) * (256 * p1));
    }
}

pub proof fn lemma_be_val_upper(s: Seq<u8>)
    ensures
        be_val(s) < pow256(s.len()),
    decreases s.len(),
{
    if s.len() > 0 {
        lemma_be_val_upper(s.drop_last());
        assert(be_val(s.drop_last()) * 256 + s.last() < 256 * pow256((s.len() - 1) as nat))
            by (nonlinear_arith)
            requires
                be_val(s.drop_last()) < pow256((s.len() - 1) as nat),
                s.last() < 256,
        ;
    }
}

pub proof fn lemma_be_val_minimal_lower(s: Seq<u8>)
    requires
        is_minimal_be(s),
        s.len() > 0,
    ensures
        be_val(s) >= pow256((s.len() - 1) as nat),
    decreases s.len(),
{
    if s.len() == 1 {
        assert(be_val(s) == be_val(s.drop_last()) * 256 + s.last());
        assert(be_val(s.drop_last()) == 0);
    } else {
        assert(s.drop_last().first() == s.first());
        lemma_be_val_minimal_lower(s.drop_last());
        assert(be_val(s.drop_last()) * 256 + s.last() >= pow256((s.len() - 2) as nat) * 256)
            by (nonlinear_arith)
            requires
                be_val(s.drop_last()) >= pow256((s.len() - 2) as nat),
        ;
    }
}

/// A minimal big-endian string is the canonical byte string of its value.
pub proof fn lemma_bytes_of_be_val(s: Seq<u8>)
    requires
        is_minimal_be(s),
    ensures
        bytes_of(be_val(s)) == s,
    decreases s.len(),
{
    if s.len() == 0 {
    } else {
        let n = be_val(s);
        lemma_be_val_minimal_lower(s);
        assert(n >= 1) by {
            assert(pow256((s.len() - 1) as nat) >= 1) by {
                lemma_pow256_pos((s.len() - 1) as nat);
            }
        }
        assert(s.drop_last().len() == s.len() - 1);
        if s.len() > 1 {
            assert(s.drop_last().first() == s.first());
        }
        assert(n == be_val(s.drop_last()) * 256 + s.last());
        lemma_fundamental_div_mod_converse(n as int, 256, be_val(s.drop_last()) as int, s.last() as int);
        assert(n / 256 == be_val(s.drop_last()));
        assert(n % 256 == s.last());
        lemma_bytes_of_be_val(s.drop_last());
        assert(bytes_of(n) == bytes_of(be_val(s.drop_last())).push((n % 256) as u8));
        assert(bytes_of(n) =~= s);
    }
}

pub proof fn lemma_pow256_pos(n: nat)
    ensures
        pow256(n) >= 1,
    decreases n,
{
    if n > 0 {
        lemma_pow256_pos((n - 1) as nat);
    }
}

/// Every canonical digit is below 62, and the digits carry the value back.
pub proof fn lemma_digits_of_val(n: nat)
    ensures
        le62_val(digits_of(n)) == n,
        forall|i: int| 0 <= i < digits_of(n).len() ==> digits_of(n)[i] < 62,
    decreases n,
{
    if n > 0 {
        assert(n / 62 < n) by (nonlinear_arith)
            requires
                n >= 1,
        ;
        lemma_digits_of_val(n / 62);
        let ds = digits_of(n);
        assert(ds.first() == n % 62);
        assert(ds.drop_first() =~= digits_of(n / 62));
        assert(le62_val(ds) == n % 62 + 62 * (n / 62));
    }
}

pub proof fn lemma_be_val_zero(s: Seq<u8>)
    ensures
        (be_val(s) == 0) <==> (forall|i: int| 0 <= i < s.len() ==> s[i] == 0),
    decreases s.len(),
{
    if s.len() > 0 {
        lemma_be_val_zero(s.drop_last());
        assert(forall|i: int| 0 <= i < s.len() - 1 ==> s.drop_last()[i] == s[i]);
        if be_val(s) == 0 {
            assert(be_val(s.drop_last()) * 256 + s.last() == 0);
            assert(be_val(s.drop_last()) == 0);
        }
        if forall|i: int| 0 <= i < s.len() ==> s[i] == 0 {
            assert(be_val(s.drop_last()) == 0);
            assert(s.last() == 0);
        }
    }
}

/// Characters of the alphabet decode back to their digit, and none is `':'`.
pub proof fn lemma_digit_char_inverse(d: u8)
    requires
        d < 62,
    ensures
        char_digit(digit_char(d)) == Some(d),
        digit_char(d) != ':',
{
}

fn divmod62(v: &mut Vec<u8>) -> (rem: u8)
    ensures
        be_val(old(v)@) == 62 * be_val(final(v)@) + rem as nat,
        rem < 62,
        final(v)@.len() == old(v)@.len(),
{
    let mut rem: u8 = 0;
    let n: usize = v.len();
    let mut i: usize = 0;
    while i < n
        invariant
            i <= n,
            n == v@.len(),
            v@.len() == old(v)@.len(),
            rem < 62,
            forall|k: int| i <= k < n ==> v@[k] == old(v)@[k],
            be_val(old(v)@.take(i as int)) == 62 * be_val(v@.take(i as int)) + rem as nat,
        decreases n - i,
    {
        let cur: u32 = (rem as u32) * 256 + (v[i] as u32);
        assert(cur < 15872);
        let q: u32 = cur / 62;
        let r2: u32 = cur % 62;
        assert(q < 256 && r2 < 62 && cur == 62 * q + r2) by (nonlinear_arith)
            requires
                cur < 15872,
                q == cur / 62,
                r2 == cur % 62,
        ;
        let ghost prev = v@;
        v[i] = q as u8;
        proof {
            assert(v@ =~= prev.update(i as int, q as u8));
            assert(old(v)@.take(i + 1).drop_last() =~= old(v)@.take(i as int));
            assert(old(v)@.take(i + 1).last() == old(v)@[i as int]);
            assert(v@.take(i + 1).drop_last() =~= v@.take(i as int));
            assert(v@.take(i as int) =~= prev.take(i as int));
            assert(v@.take(i + 1).last() == q as u8);
            let a = be_val(old(v)@.take(i as int));
            let b = be_val(v@.take(i as int));
            let byte = old(v)@[i as int] as nat;
            assert(be_val(old(v)@.take(i + 1)) == a * 256 + byte);
            assert(be_val(v@.take(i + 1)) == b * 256 + q);
            assert(a * 256 + byte == 62 * (b * 256 + q) + r2) by (nonlinear_arith)
                requires
                    a == 62 * b + rem as nat,
                    byte + (rem as nat) * 256 == 62 * q + r2,
            ;
        }
        rem = r2 as u8;
        i = i + 1;
    }
    proof {
        assert(old(v)@.take(n as int) =~= old(v)@);
        assert(v@.take(n as int) =~= v@);
    }
    rem
}

fn val_is_zero(v: &Vec<u8>) -> (b: bool)
    ensures
        b == (be_val(v@) == 0),
{
    let n: usize = v.len();
    let mut i: usize = 0;
    while i < n
        invariant
            i <= n,
            n == v@.len(),
            forall|k: int| 0 <= k < i ==> v@[k] == 0,
        decreases n - i,
    {
        if v[i] != 0 {
            proof {
                lemma_be_val_zero(v@);
            }
            return false;
        }
        i = i + 1;
    }
    proof {
        lemma_be_val_zero(v@);
    }
    true
}

fn muladd62(v: &mut Vec<u8>, d: u8)
    requires
        d < 62,
        is_minimal_be(old(v)@),
    ensures
        be_val(final(v)@) == 62 * be_val(old(v)@) + d as nat,
        is_minimal_be(final(v)@),
{
    let ghost orig = old(v)@;
    let n: usize = v.len();
    let mut carry: u8 = d;
    let mut i: usize = n;
    proof {
        assert(orig.skip(n as int) =~= Seq::<u8>::empty());
        assert(v@.skip(n as int) =~= Seq::<u8>::empty());
        assert(be_val(Seq::<u8>::empty()) == 0);
        assert(pow256(0) == 1);
        assert(be_val(orig.skip(i as int)) == 0);
        assert(be_val(v@.skip(i as int)) == 0);
        assert(pow256((n - i) as nat) == 1);
        assert(62 * be_val(orig.skip(i as int)) + d as nat == be_val(v@.skip(i as int)) + (
        carry as nat) * pow256((n - i) as nat));
    }
    while i > 0
        invariant
            i <= n,
            n == v@.len(),
            v@.len() == orig.len(),
            carry < 62,
            forall|k: int| 0 <= k < i ==> v@[k] == orig[k],
            62 * be_val(orig.skip(i as int)) + d as nat == be_val(v@.skip(i as int)) + (
            carry as nat) * pow256((n - i) as nat),
        decreases i,
    {
        let j: usize = i - 1;
        let cur: u32 = 62 * (v[j] as u32) + (carry as u32);
        assert(cur < 15872);
        let lo: u32 = cur % 256;
        let hi: u32 = cur / 256;
        assert(lo < 256 && hi < 62 && cur == 256 * hi + lo) by (nonlinear_arith)
            requires
                cur < 15872,
                lo == cur % 256,
                hi == cur / 256,
        ;
        let ghost prev = v@;
        let ghost oldcarry = carry;
        v[j] = lo as u8;
        carry = hi as u8;
        proof {
            assert(v@ =~= prev.update(j as int, lo as u8));
            let p = pow256((n - i) as nat);
            let ov = be_val(orig.skip(i as int));
            let pv = be_val(prev.skip(i as int));
            let oj = orig[j as int] as nat;
            assert(orig.skip(j as int) =~= seq![orig[j as int]] + orig.skip(i as int));
            assert(v@.skip(j as int) =~= seq![lo as u8] + prev.skip(i as int));
            assert(v@.skip(i as int) =~= prev.skip(i as int));
            lemma_be_val_concat(seq![orig[j as int]], orig.skip(i as int));
            lemma_be_val_concat(seq![lo as u8], prev.skip(i as int));
            lemma_be_val_singleton(orig[j as int]);
            lemma_be_val_singleton(lo as u8);
            assert(orig.skip(i as int).len() == n - i);
            assert(prev.skip(i as int).len() == n - i);
            assert(be_val(orig.skip(j as int)) == oj * p + ov);
            assert(be_val(v@.skip(j as int)) == (lo as nat) * p + pv);
            assert(pow256((n - j) as nat) == 256 * p);
            assert(62 * (oj * p + ov) + d as nat == ((lo as nat) * p + pv) + (hi as nat) * (256
                * p)) by (nonlinear_arith)
                requires
                    62 * ov + d as nat == pv + (oldcarry as nat) * p,
                    62 * oj + oldcarry as nat == 256 * (hi as nat) + lo as nat,
            ;
        }
        i = j;
    }
    proof {
        assert(orig.skip(0) =~= orig);
        assert(v@.skip(0) =~= v@);
    }
    if carry > 0 {
        let ghost before = v@;
        v.insert(0, carry);
        proof {
            assert(v@ =~= seq![carry] + before);
            lemma_be_val_concat(seq![carry], before);
            lemma_be_val_singleton(carry);
            assert(v@.first() == carry);
        }
    } else {
        proof {
            if v@.len() > 0 {
                if v@.first() == 0 {
                    assert(orig.len() > 0);
                    assert(orig.first() != 0);
                    lemma_be_val_minimal_lower(orig);
                    let bv = be_val(v@);
                    let bo = be_val(orig);
                    let q = pow256((orig.len() - 1) as nat);
                    assert(bv >= 62 * q) by (nonlinear_arith)
                        requires
                            bv == 62 * bo + d as nat,
                            bo >= q,
                    ;
                    assert(v@ =~= seq![v@[0]] + v@.skip(1));
                    lemma_be_val_concat(seq![v@[0]], v@.skip(1));
                    lemma_be_val_singleton(v@[0]);
                    lemma_be_val_upper(v@.skip(1));
                    assert(v@.skip(1).len() == orig.len() - 1);
                    assert(false);
                }
            }
        }
    }
}

/// Turn a vector of characters into the string holding exactly them.
/// Relies on `String`'s `FromIterator` over `char`: collecting an iterator
/// of characters yields the string of those characters in order.
#[verifier::external_body]
fn chars_to_string(v: &Vec<char>) -> (r: String)
    ensures
        r@ == v@,
{
    v.iter().collect()
}

/// Encode a byte payload as base-62 digits of the prefixed value.
pub fn encode(bytes: &[u8]) -> (r: String)
    ensures
        r@ == b62_encode(bytes@),
{
    if bytes.len() == 0 {
        let empty: Vec<char> = Vec::new();
        return chars_to_string(&empty);
    }
    let mut v: Vec<u8> = Vec::new();
    v.push(1u8);
    let mut z: usize = 0;
    while z < 9
        invariant
            z <= 9,
            v@.len() == 1 + z,
            v@[0] == 1u8,
            forall|k: int| 1 <= k < v@.len() ==> v@[k] == 0u8,
        decreases 9 - z,
    {
        v.push(0u8);
        z = z + 1;
    }
    let n: usize = bytes.len();
    let mut i: usize = 0;
    while i < n
        invariant
            i <= n,
            n == bytes@.len(),
            v@.len() == 10 + i,
            v@[0] == 1u8,
            forall|k: int| 1 <= k < 10 ==> v@[k] == 0u8,
            forall|k: int| 10 <= k < 10 + i ==> v@[k] == bytes@[k - 10],
        decreases n - i,
    {
        v.push(bytes[i]);
        i = i + 1;
    }
    proof {
        assert(v@ =~= prefixed(bytes@));
    }
    let ghost n0 = be_val(v@);
    let mut digits: Vec<u8> = Vec::new();
    loop
        invariant
            digits_of(n0) == digits@ + digits_of(be_val(v@)),
            forall|k: int| 0 <= k < digits@.len() ==> digits@[k] < 62,
        ensures
            be_val(v@) == 0,
            digits@ == digits_of(n0),
        decreases be_val(v@),
    {
        if val_is_zero(&v) {
            proof {
                assert(digits_of(be_val(v@)) =~= Seq::<u8>::empty());
                assert(digits_of(n0) =~= digits@);
            }
            break;
        }
        let ghost oldval = be_val(v@);
        let r: u8 = divmod62(&mut v);
        let ghost newval = be_val(v@);
        proof {
            lemma_fundamental_div_mod_converse(oldval as int, 62, newval as int, r as int);
            assert(oldval % 62 == r as nat);
            assert(oldval / 62 == newval);
            assert(digits_of(oldval) == seq![(oldval % 62) as u8] + digits_of(oldval / 62));
            assert(digits@.push(r) + digits_of(newval) =~= digits@ + digits_of(oldval));
            assert(newval < oldval) by (nonlinear_arith)
                requires
                    oldval == 62 * newval + r as nat,
                    oldval >= 1,
            ;
        }
        digits.push(r);
    }
    let m: usize = digits.len();
    let mut cs: Vec<char> = Vec::new();
    let mut k: usize = 0;
    while k < m
        invariant
            k <= m,
            m == digits@.len(),
            forall|t: int| 0 <= t < m ==> digits@[t] < 62,
            cs@ =~= digits@.take(k as int).map_values(|d: u8| digit_char(d)),
        decreases m - k,
    {
        let d: u8 = digits[k];
        let c: char = if d < 10 {
            (48 + d) as char
        } else if d < 36 {
            (55 + d) as char
        } else {
            (61 + d) as char
        };
        assert(c == digit_char(d));
        cs.push(c);
        proof {
            assert(digits@.take(k + 1).drop_last() =~= digits@.take(k as int));
            assert(cs@ =~= digits@.take(k + 1).map_values(|d: u8| digit_char(d)));
        }
        k = k + 1;
    }
    proof {
        assert(digits@.take(m as int) =~= digits@);
        assert(cs@ =~= b62_encode(bytes@));
    }
    chars_to_string(&cs)
}

/// Decode a base-62 string back to the payload behind the prefix.
pub fn decode(input: &str) -> (r: Result<Vec<u8>, ()>)
    ensures
        match r {
            Ok(b) => b62_decode(input@) == Some(b@),
            Err(()) => b62_decode(input@) is None,
        },
{
    let len: usize = input.unicode_len();
    if len == 0 {
        let out: Vec<u8> = Vec::new();
        return Ok(out);
    }
    let mut ds: Vec<u8> = Vec::new();
    let mut i: usize = 0;
    while i < len
        invariant
            i <= len,
            len == input@.len(),
            forall|k: int| 0 <= k < i ==> char_digit(input@[k]) is Some,
            ds@ =~= input@.take(i as int).map_values(|c: char| char_digit(c).unwrap()),
        decreases len - i,
    {
        let c: char = input.get_char(i);
        let u: u32 = c as u32;
        let d: u8 = if 48 <= u && u <= 57 {
            (u - 48) as u8
        } else if 65 <= u && u <= 90 {
            (u - 55) as u8
        } else if 97 <= u && u <= 122 {
            (u - 61) as u8
        } else {
            assert(char_digit(input@[i as int]) is None);
            return Err(());
        };
        assert(char_digit(input@[i as int]) == Some(d));
        ds.push(d);
        proof {
            assert(input@.take(i + 1).drop_last() =~= input@.take(i as int));
            assert(ds@ =~= input@.take(i + 1).map_values(|c: char| char_digit(c).unwrap()));
        }
        i = i + 1;
    }
    proof {
        assert(input@.take(len as int) =~= input@);
    }
    let ghost dseq = ds@;
    let mut v: Vec<u8> = Vec::new();
    let mut j: usize = ds.len();
    assert(dseq.skip(j as int) =~= Seq::<u8>::empty());
    while j > 0
        invariant
            j <= dseq.len(),
            ds@ == dseq,
            forall|k: int| 0 <= k < dseq.len() ==> dseq[k] < 62,
            is_minimal_be(v@),
            be_val(v@) == le62_val(dseq.skip(j as int)),
        decreases j,
    {
        let t: usize = j - 1;
        assert(dseq[t as int] < 62) by {
            assert(forall|k: int| 0 <= k < dseq.len() ==> #[trigger] dseq[k] < 62);
        }
        muladd62(&mut v, ds[t]);
        proof {
            assert(dseq.skip(t as int).first() == dseq[t as int]);
            assert(dseq.skip(t as int).drop_first() =~= dseq.skip(j as int));
            assert(le62_val(dseq.skip(t as int)) == dseq[t as int] + 62 * le62_val(
                dseq.skip(j as int),
            ));
        }
        j = t;
    }
    proof {
        assert(dseq.skip(0) =~= dseq);
        lemma_bytes_of_be_val(v@);
    }
    if v.len() < 10 {
        return Err(());
    }
    let rest: Vec<u8> = v.split_off(10);
    proof {
        assert(rest@ =~= bytes_of(le62_val(dseq)).skip(10));
    }
    Ok(rest)
}

/// Round trip: decoding what `encode` produced restores the payload exactly.
pub proof fn lemma_b62_round_trip(b: Seq<u8>)
    ensures
        b62_decode(b62_encode(b)) == Some(b),
{
    if b.len() == 0 {
        assert(b62_encode(b) =~= Seq::<char>::empty());
        assert(b62_decode(b62_encode(b)) == Some(Seq::<u8>::empty()));
        assert(b =~= Seq::<u8>::empty());
    } else {
        let n = be_val(prefixed(b));
        lemma_digits_of_val(n);
        let ds = digits_of(n);
        let s = ds.map_values(|d: u8| digit_char(d));
        assert(s == b62_encode(b));
        assert(prefixed(b).first() == 1u8);
        lemma_be_val_minimal_lower(prefixed(b));
        lemma_pow256_pos((prefixed(b).len() - 1) as nat);
        assert(n >= 1);
        assert(ds.len() > 0);
        assert(s.len() > 0);
        assert forall|i: int| 0 <= i < s.len() implies char_digit(s[i]) is Some by {
            assert(ds[i] < 62);
            lemma_digit_char_inverse(ds[i]);
        }
        let back = s.map_values(|c: char| char_digit(c).unwrap());
        assert forall|i: int| 0 <= i < back.len() implies back[i] == ds[i] by {
            assert(ds[i] < 62);
            lemma_digit_char_inverse(ds[i]);
        }
        assert(back =~= ds);
        assert(le62_val(back) == n);
        lemma_bytes_of_be_val(prefixed(b));
        assert(bytes_of(n) == prefixed(b));
        assert(prefixed(b).len() == 10 + b.len());
        assert(prefixed(b).skip(10) =~= b);
        assert(b62_decode(s) == Some(b));
    }
}

/// Encoded strings never hold the `':'` separator.
pub proof fn lemma_encode_no_colon(b: Seq<u8>)
    ensures
        forall|i: int| 0 <= i < b62_encode(b).len() ==> b62_encode(b)[i] != ':',
{
    if b.len() > 0 {
        let n = be_val(prefixed(b));
        lemma_digits_of_val(n);
        let ds = digits_of(n);
        assert forall|i: int| 0 <= i < b62_encode(b).len() implies b62_encode(b)[i] != ':' by {
            assert(b62_encode(b)[i] == digit_char(ds[i]));
            assert(ds[i] < 62);
            lemma_digit_char_inverse(ds[i]);
        }
    }
}

} // verus!
