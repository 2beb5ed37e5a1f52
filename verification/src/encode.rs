//! Writing: a tag, the shortest definite length, the contents.

use vstd::prelude::*;

use crate::decode::{be_value, lemma_p256_grows, p256};

verus! {

/// The fewest big-endian base-256 digits of `n`: one digit under 256.
pub open spec fn be_bytes(n: nat) -> Seq<u8>
    decreases n,
{
    if n < 256 {
        seq![n as u8]
    } else {
        be_bytes(n / 256).push((n % 256) as u8)
    }
}

/// A definite length: short form under 128, else `0x80` plus the count of
/// the fewest big-endian bytes of `n`, then those bytes.
pub open spec fn length_octets(n: nat) -> Seq<u8> {
    if n < 128 {
        seq![n as u8]
    } else {
        seq![(0x80 + be_bytes(n).len()) as u8] + be_bytes(n)
    }
}

/// One tag, length and contents.
pub open spec fn tlv_spec(tag: u8, contents: Seq<u8>) -> Seq<u8> {
    seq![tag] + length_octets(contents.len()) + contents
}

/// `u` modulo `256` to the power `n`, in exactly `n` big-endian bytes.
pub open spec fn be_fixed(u: nat, n: nat) -> Seq<u8>
    decreases n,
{
    if n == 0 {
        seq![]
    } else {
        be_fixed(u / 256, (n - 1) as nat).push((u % 256) as u8)
    }
}

/// `v` fits `n` bytes of two's complement.
pub open spec fn fits_signed(v: int, n: nat) -> bool {
    &&& n > 0
    &&& -128 * p256((n - 1) as nat) <= v
    &&& v < 128 * p256((n - 1) as nat)
}

/// `v` in `n` bytes of two's complement, big-endian.
pub open spec fn twos_complement(v: int, n: nat) -> Seq<u8> {
    be_fixed((if v < 0 { v + p256(n) } else { v }) as nat, n)
}

/// The fewest bytes from `n` on, up to eight, that `v` fits.
pub open spec fn signed_width_from(v: int, n: nat) -> nat
    decreases 8 - n,
{
    if n >= 8 || fits_signed(v, n) {
        n
    } else {
        signed_width_from(v, n + 1)
    }
}

/// An `INTEGER`'s contents: `v` in the fewest bytes of two's complement.
pub open spec fn integer_spec(v: int) -> Seq<u8> {
    twos_complement(v, signed_width_from(v, 1))
}

/// `be_bytes` has at least one digit, and no more than `k` where `n` is
/// below `256` to the power `k`.
pub proof fn lemma_be_bytes_len(n: nat, k: nat)
    requires
        n < p256(k),
    ensures
        1 <= be_bytes(n).len(),
        k >= 1 ==> be_bytes(n).len() <= k,
    decreases n,
{
    if n >= 256 {
        if k == 0 {
        } else {
            lemma_be_bytes_len(n / 256, (k - 1) as nat);
        }
    }
}

/// `be_bytes` spells what it is made from.
pub proof fn lemma_be_bytes_value(n: nat)
    ensures
        be_value(be_bytes(n)) == n,
    decreases n,
{
    if n >= 256 {
        lemma_be_bytes_value(n / 256);
        assert(be_bytes(n).drop_last() =~= be_bytes(n / 256));
        assert(be_bytes(n).last() == (n % 256) as u8);
        assert(n == (n / 256) * 256 + n % 256);
        assert(be_value(be_bytes(n)) == be_value(be_bytes(n / 256)) * 256 + (n % 256));
    } else {
        assert(be_bytes(n).drop_last() =~= Seq::<u8>::empty());
        assert(be_value(Seq::<u8>::empty()) == 0);
        assert(be_bytes(n).last() == n as u8);
    }
}

/// Append the fewest big-endian bytes of `n`.
fn push_be(out: &mut Vec<u8>, n: usize)
    ensures
        final(out)@ == old(out)@ + be_bytes(n as nat),
    decreases n,
{
    if n >= 256 {
        push_be(out, n / 256);
    }
    let ghost middle = out@;
    out.push((n % 256) as u8);
    proof {
        if n >= 256 {
            assert(out@ =~= old(out)@ + be_bytes(n as nat));
        } else {
            assert(out@ =~= old(out)@ + be_bytes(n as nat));
        }
    }
}

/// Append every byte of `bytes`.
fn push_all(out: &mut Vec<u8>, bytes: &[u8])
    ensures
        final(out)@ == old(out)@ + bytes@,
{
    let mut i: usize = 0;
    while i < bytes.len()
        invariant
            0 <= i <= bytes.len(),
            out@ == old(out)@ + bytes@.subrange(0, i as int),
        decreases bytes.len() - i,
    {
        out.push(bytes[i]);
        i = i + 1;
        assert(out@ =~= old(out)@ + bytes@.subrange(0, i as int));
    }
    assert(bytes@.subrange(0, bytes.len() as int) =~= bytes@);
}

/// A length, short form under 128 and the fewest bytes of long form from
/// there.
fn write_length(out: &mut Vec<u8>, len: usize)
    ensures
        final(out)@ == old(out)@ + length_octets(len as nat),
{
    if len < 0x80 {
        out.push(len as u8);
        assert(out@ =~= old(out)@ + length_octets(len as nat));
        return;
    }
    let mut digits: Vec<u8> = Vec::new();
    push_be(&mut digits, len);
    proof {
        assert(digits@ =~= be_bytes(len as nat));
        reveal_with_fuel(p256, 9);
        lemma_be_bytes_len(len as nat, 8);
    }
    out.push((0x80 + digits.len()) as u8);
    push_all(out, digits.as_slice());
    assert(out@ =~= old(out)@ + length_octets(len as nat));
}

/// One tag, length and contents.
pub fn tlv(tag: u8, contents: &[u8]) -> (encoded: Vec<u8>)
    ensures
        encoded@ == tlv_spec(tag, contents@),
{
    let mut out = Vec::new();
    write_tlv(&mut out, tag, contents);
    assert(out@ =~= tlv_spec(tag, contents@));
    out
}

/// Append one tag, length and contents to `out`.
pub fn write_tlv(out: &mut Vec<u8>, tag: u8, contents: &[u8])
    ensures
        final(out)@ == old(out)@ + tlv_spec(tag, contents@),
{
    out.push(tag);
    write_length(out, contents.len());
    push_all(out, contents);
    assert(out@ =~= old(out)@ + tlv_spec(tag, contents@));
}

/// Append `u` in exactly `n` big-endian bytes.
fn push_fixed(out: &mut Vec<u8>, u: u128, n: usize)
    ensures
        final(out)@ == old(out)@ + be_fixed(u as nat, n as nat),
    decreases n,
{
    if n > 0 {
        push_fixed(out, u / 256, n - 1);
        out.push((u % 256) as u8);
        assert(out@ =~= old(out)@ + be_fixed(u as nat, n as nat));
    } else {
        assert(out@ =~= old(out)@ + be_fixed(u as nat, n as nat));
    }
}

/// An `INTEGER`'s contents: two's complement, the fewest bytes that keep the
/// sign. The tag is the caller's, since `ENUMERATED` and an implicitly tagged
/// integer are written the same way.
pub fn integer(value: i64) -> (contents: Vec<u8>)
    ensures
        contents@ == integer_spec(value as int),
{
    let v = value as i128;
    let mut n: usize = 1;
    let mut half: i128 = 128;
    proof {
        reveal_with_fuel(p256, 9);
    }
    while n < 8 && !(-half <= v && v < half)
        invariant
            1 <= n <= 8,
            half == 128 * p256((n - 1) as nat),
            signed_width_from(v as int, 1) == signed_width_from(v as int, n as nat),
            p256(7) == 0x100_0000_0000_0000,
            i64::MIN <= v <= i64::MAX,
        decreases 8 - n,
    {
        proof {
            lemma_p256_grows((n - 1) as nat, 6);
        }
        n = n + 1;
        half = half * 256;
    }
    proof {
        assert(fits_signed(v as int, n as nat));
    }
    let whole: i128 = half * 2;
    let u: u128 = if v < 0 { (v + whole) as u128 } else { v as u128 };
    let mut out: Vec<u8> = Vec::new();
    push_fixed(&mut out, u, n);
    assert(out@ =~= integer_spec(value as int));
    out
}

} // verus!
