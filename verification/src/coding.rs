//! Integers on the wire: base-128 varints and little-endian fixed-width words.

use crate::util::extend_from;
use integer_encoding::VarInt;
use vstd::bytes::*;
use vstd::prelude::*;
use vstd::slice::slice_subrange;

verus! {

/// 2^64 as a natural number.
pub open spec fn two_to_64() -> nat {
    0x1_0000_0000_0000_0000
}

/// The base-128 varint of `n`: seven bits a byte, least significant group
/// first, the top bit set on every byte but the last.
pub open spec fn varint_encoding(n: nat) -> Seq<u8>
    decreases n,
{
    if n < 128 {
        seq![n as u8]
    } else {
        seq![(128 + n % 128) as u8] + varint_encoding(n / 128)
    }
}

/// One past the index of the first byte below 128, looking at positions
/// `i..10` only: where a varint that starts at position 0 ends.
pub open spec fn varint_end(s: Seq<u8>, i: nat) -> Option<nat>
    decreases 10 - i,
{
    if i >= 10 || i >= s.len() {
        None
    } else if s[i as int] < 128 {
        Some(i + 1)
    } else {
        varint_end(s, i + 1)
    }
}

/// The number of bytes of the varint at the front of `s`, if one of its
/// first ten bytes ends it.
pub open spec fn varint_len(s: Seq<u8>) -> Option<nat> {
    varint_end(s, 0)
}

/// The low seven bits of the first `n` bytes of `s`, read as base-128 digits,
/// least significant first.
pub open spec fn varint_digits(s: Seq<u8>, n: nat) -> nat
    decreases n,
{
    if n == 0 {
        0
    } else {
        (s[0] % 128) as nat + 128 * varint_digits(s.skip(1), (n - 1) as nat)
    }
}

/// The varint at the front of `s`: its value, cut to 64 bits, and its length.
pub open spec fn varint_decode(s: Seq<u8>) -> Option<(u64, nat)> {
    match varint_len(s) {
        Some(n) => Some(((varint_digits(s, n) % two_to_64()) as u64, n)),
        None => None,
    }
}

pub open spec fn pow128(k: nat) -> nat
    decreases k,
{
    if k == 0 {
        1
    } else {
        128 * pow128((k - 1) as nat)
    }
}

pub proof fn lemma_varint_encoding_len(n: nat, k: nat)
    requires
        k >= 1,
        n < pow128(k),
    ensures
        1 <= varint_encoding(n).len() <= k,
    decreases k,
{
    if n >= 128 {
        if k == 1 {
            assert(pow128(1) == 128) by {
                reveal_with_fuel(pow128, 2);
            }
        } else {
            lemma_varint_encoding_len(n / 128, (k - 1) as nat);
        }
    }
}

/// A 64-bit number takes between one and ten bytes as a varint.
pub proof fn lemma_varint_encoding_len_u64(n: u64)
    ensures
        1 <= varint_encoding(n as nat).len() <= 10,
{
    assert(pow128(10) == 0x40_0000_0000_0000_0000) by {
        reveal_with_fuel(pow128, 11);
    }
    lemma_varint_encoding_len(n as nat, 10);
}

/// A 32-bit number takes at most five bytes as a varint.
pub proof fn lemma_varint_encoding_len_u32(n: u32)
    ensures
        1 <= varint_encoding(n as nat).len() <= 5,
{
    assert(pow128(5) == 0x8_0000_0000) by {
        reveal_with_fuel(pow128, 6);
    }
    lemma_varint_encoding_len(n as nat, 5);
}

proof fn lemma_varint_end_shift(s: Seq<u8>, i: nat)
    requires
        s.len() > 0,
        s[0] >= 128,
        i <= 9,
    ensures
        varint_end(s, i + 1) == match varint_end(s.skip(1), i) {
            Some(e) => if e < 10 {
                Some(e + 1)
            } else {
                None
            },
            None => None,
        },
    decreases 10 - i,
{
    let t = s.skip(1);
    if i >= t.len() {
    } else if i == 9 {
        lemma_varint_end_bound(t, 9);
    } else if t[i as int] < 128 {
    } else {
        lemma_varint_end_shift(s, i + 1);
    }
}

proof fn lemma_varint_end_bound(s: Seq<u8>, i: nat)
    ensures
        varint_end(s, i) matches Some(e) ==> i < e <= 10 && e <= s.len() && s[e - 1] < 128 && forall|
            k: int,
        | i <= k < e - 1 ==> s[k] >= 128,
    decreases 10 - i,
{
    if i >= 10 || i >= s.len() {
    } else if s[i as int] < 128 {
    } else {
        lemma_varint_end_bound(s, i + 1);
    }
}

/// Where a varint ends: at most ten bytes in, inside the string, on the
/// first byte whose top bit is clear.
pub proof fn lemma_varint_len_bound(s: Seq<u8>)
    ensures
        varint_len(s) matches Some(e) ==> 1 <= e <= 10 && e <= s.len() && s[e - 1] < 128 && forall|
            k: int,
        | 0 <= k < e - 1 ==> s[k] >= 128,
{
    lemma_varint_end_bound(s, 0);
}

proof fn lemma_varint_end_found(s: Seq<u8>, i: nat, e: nat)
    requires
        i < e <= 10,
        e <= s.len(),
        s[e - 1] < 128,
        forall|k: int| i <= k < e - 1 ==> s[k] >= 128,
    ensures
        varint_end(s, i) == Some(e),
    decreases e - i,
{
    if i + 1 < e {
        lemma_varint_end_found(s, i + 1, e);
    }
}

proof fn lemma_varint_digits_agree(s: Seq<u8>, t: Seq<u8>, n: nat)
    requires
        n <= s.len(),
        n <= t.len(),
        forall|k: int| 0 <= k < n ==> s[k] == t[k],
    ensures
        varint_digits(s, n) == varint_digits(t, n),
    decreases n,
{
    if n > 0 {
        assert forall|k: int| 0 <= k < n - 1 implies s.skip(1)[k] == t.skip(1)[k] by {
            assert(s[k + 1] == t[k + 1]);
        }
        lemma_varint_digits_agree(s.skip(1), t.skip(1), (n - 1) as nat);
    }
}

/// A varint is read from its own bytes alone: two strings that agree on the
/// bytes of the varint at the front of the first decode alike.
pub proof fn lemma_varint_decode_agree(s: Seq<u8>, t: Seq<u8>)
    requires
        varint_len(s) matches Some(n) && n <= t.len() && forall|k: int|
            0 <= k < n ==> s[k] == t[k],
    ensures
        varint_decode(t) == varint_decode(s),
{
    lemma_varint_len_bound(s);
    let n = varint_len(s).unwrap();
    lemma_varint_end_found(t, 0, n);
    lemma_varint_digits_agree(s, t, n);
}

proof fn lemma_varint_roundtrip_rec(n: nat, rest: Seq<u8>, k: nat)
    requires
        k >= 1,
        n < pow128(k),
        k <= 10,
    ensures
        varint_end(varint_encoding(n) + rest, 0) == Some(varint_encoding(n).len()),
        varint_digits(varint_encoding(n) + rest, varint_encoding(n).len()) == n,
    decreases k,
{
    let enc = varint_encoding(n);
    let s = enc + rest;
    if n < 128 {
        assert(s[0] == n as u8);
        assert(varint_digits(s.skip(1), 0) == 0);
    } else {
        assert(pow128(1) == 128) by {
            reveal_with_fuel(pow128, 2);
        }
        let tail = varint_encoding(n / 128);
        lemma_varint_roundtrip_rec(n / 128, rest, (k - 1) as nat);
        lemma_varint_encoding_len(n / 128, (k - 1) as nat);
        assert(s.skip(1) =~= tail + rest);
        assert(s[0] == (128 + n % 128) as u8);
        assert(s[0] >= 128);
        assert(s[0] % 128 == n % 128);
        lemma_varint_end_shift(s, 0);
        assert(varint_end(s, 0) == varint_end(s, 1));
    }
}

/// Decoding what was encoded gives the number back, whatever follows it.
pub proof fn lemma_varint_roundtrip(n: u64, rest: Seq<u8>)
    ensures
        varint_decode(varint_encoding(n as nat) + rest) == Some(
            (n, varint_encoding(n as nat).len()),
        ),
{
    assert(pow128(10) == 0x40_0000_0000_0000_0000) by {
        reveal_with_fuel(pow128, 11);
    }
    lemma_varint_roundtrip_rec(n as nat, rest, 10);
}

/// Every byte of a varint but the last has its top bit set; the last has not.
pub proof fn lemma_varint_encoding_bytes(n: nat)
    ensures
        varint_encoding(n).len() >= 1,
        varint_encoding(n)[varint_encoding(n).len() - 1] < 128,
        forall|i: int| 0 <= i < varint_encoding(n).len() - 1 ==> varint_encoding(n)[i] >= 128,
    decreases n,
{
    if n >= 128 {
        lemma_varint_encoding_bytes(n / 128);
        let tail = varint_encoding(n / 128);
        let enc = varint_encoding(n);
        assert(enc =~= seq![(128 + n % 128) as u8] + tail);
        assert forall|i: int| 0 <= i < enc.len() - 1 implies enc[i] >= 128 by {
            if i > 0 {
                assert(enc[i] == tail[i - 1]);
            }
        }
        assert(enc[enc.len() - 1] == tail[tail.len() - 1]);
    }
}

/// No varint stands at the front of bytes that are only the start of one.
pub proof fn lemma_varint_truncated(n: u64, k: int)
    requires
        0 <= k < varint_encoding(n as nat).len(),
    ensures
        varint_decode(varint_encoding(n as nat).take(k)) is None,
{
    let enc = varint_encoding(n as nat);
    let t = enc.take(k);
    lemma_varint_encoding_bytes(n as nat);
    lemma_varint_len_bound(t);
    if let Some(e) = varint_len(t) {
        assert(t[e - 1] == enc[e - 1]);
    }
}

/// `integer_encoding`'s `VarInt::encode_var_vec` for `u64`: the bytes are
/// the base-128 varint of `n`.
#[verifier::external_body]
fn varint_to_vec(n: u64) -> (out: Vec<u8>)
    ensures
        out@ == varint_encoding(n as nat),
{
    n.encode_var_vec()
}

/// `integer_encoding`'s `VarInt::decode_var` for `u64`, on a string in which
/// one of the first ten bytes ends the varint: it returns the seven-bit
/// groups up to that byte put together, cut to 64 bits, and how many bytes
/// it read.
#[verifier::external_body]
fn varint_from_slice(src: &[u8]) -> (r: (u64, usize))
    requires
        varint_len(src@) is Some,
    ensures
        varint_decode(src@) == Some((r.0, r.1 as nat)),
{
    u64::decode_var(src)
}

/// Appends the varint of `n` to `dst`.
pub fn put_varint(dst: &mut Vec<u8>, n: u64)
    ensures
        final(dst)@ == old(dst)@ + varint_encoding(n as nat),
{
    let enc = varint_to_vec(n);
    extend_from(dst, enc.as_slice());
}

/// Whether a varint starts at `src[from..to]`, and how many bytes it takes.
fn varint_span(src: &[u8], from: usize, to: usize) -> (r: Option<usize>)
    requires
        from <= to <= src@.len(),
    ensures
        r matches Some(n) ==> varint_len(src@.subrange(from as int, to as int)) == Some(n as nat),
        r is None ==> varint_len(src@.subrange(from as int, to as int)) is None,
{
    let ghost s = src@.subrange(from as int, to as int);
    let mut i: usize = 0;
    while i < 10 && i < to - from
        invariant
            from <= to <= src@.len(),
            s == src@.subrange(from as int, to as int),
            i <= 10,
            i <= to - from,
            varint_end(s, 0) == varint_end(s, i as nat),
        decreases 10 - i,
    {
        if src[from + i] < 128 {
            return Some(i + 1);
        }
        i += 1;
    }
    None
}

/// Reads the varint that starts at `src[from]` and ends before `to`.
/// Returns its value and the offset just behind it, or `None` where none
/// of the first ten bytes of `src[from..to]` ends a varint.
pub fn get_varint(src: &[u8], from: usize, to: usize) -> (r: Option<(u64, usize)>)
    requires
        from <= to <= src@.len(),
    ensures
        match varint_decode(src@.subrange(from as int, to as int)) {
            Some((v, n)) => r == Some((v, (from + n) as usize)) && from + n <= to,
            None => r is None,
        },
{
    proof {
        lemma_varint_len_bound(src@.subrange(from as int, to as int));
    }
    match varint_span(src, from, to) {
        None => None,
        Some(n) => {
            let piece = slice_subrange(src, from, from + n);
            proof {
                let s = src@.subrange(from as int, to as int);
                lemma_varint_end_found(piece@, 0, n as nat);
                lemma_varint_decode_agree(s, piece@);
            }
            let (v, used) = varint_from_slice(piece);
            Some((v, from + used))
        },
    }
}

/// Appends `v` as four bytes, least significant first.
pub fn put_fixed32(dst: &mut Vec<u8>, v: u32)
    ensures
        final(dst)@ == old(dst)@ + spec_u32_to_le_bytes(v),
        spec_u32_to_le_bytes(v).len() == 4,
{
    let b = u32_to_le_bytes(v);
    extend_from(dst, b.as_slice());
}

/// The four bytes at `src[off..off + 4]`, least significant first, as a number.
pub fn get_fixed32(src: &[u8], off: usize) -> (v: u32)
    requires
        off + 4 <= src@.len(),
    ensures
        v == spec_u32_from_le_bytes(src@.subrange(off as int, off + 4)),
{
    let len = src.len();
    u32_from_le_bytes(slice_subrange(src, off, off + 4))
}

/// Appends `v` as eight bytes, least significant first.
pub fn put_fixed64(dst: &mut Vec<u8>, v: u64)
    ensures
        final(dst)@ == old(dst)@ + spec_u64_to_le_bytes(v),
        spec_u64_to_le_bytes(v).len() == 8,
{
    let b = u64_to_le_bytes(v);
    extend_from(dst, b.as_slice());
}

/// The eight bytes at `src[off..off + 8]`, least significant first, as a number.
pub fn get_fixed64(src: &[u8], off: usize) -> (v: u64)
    requires
        off + 8 <= src@.len(),
    ensures
        v == spec_u64_from_le_bytes(src@.subrange(off as int, off + 8)),
{
    let len = src.len();
    u64_from_le_bytes(slice_subrange(src, off, off + 8))
}

} // verus!
