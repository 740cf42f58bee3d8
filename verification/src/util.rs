//! Byte strings and their order.

use vstd::prelude::*;

verus! {

/// `a < b` in unsigned lexicographic order, given that the two agree on
/// every position before `i`.
pub open spec fn lex_lt_from(a: Seq<u8>, b: Seq<u8>, i: int) -> bool
    decreases a.len() - i,
{
    if i >= b.len() {
        false
    } else if i >= a.len() {
        true
    } else if a[i] != b[i] {
        a[i] < b[i]
    } else {
        lex_lt_from(a, b, i + 1)
    }
}

/// `a < b` in unsigned lexicographic order: at the first position where the
/// two differ `a` has the smaller byte, or `a` is a proper prefix of `b`.
pub open spec fn lex_lt(a: Seq<u8>, b: Seq<u8>) -> bool {
    lex_lt_from(a, b, 0)
}

/// `a <= b` in unsigned lexicographic order.
pub open spec fn lex_le(a: Seq<u8>, b: Seq<u8>) -> bool {
    a == b || lex_lt(a, b)
}

/// The two strings agree on their first `n` bytes.
pub open spec fn agree_upto(a: Seq<u8>, b: Seq<u8>, n: int) -> bool {
    &&& 0 <= n <= a.len()
    &&& n <= b.len()
    &&& forall|k: int| 0 <= k < n ==> a[k] == b[k]
}

/// The length of the longest common prefix of `a` and `b`.
pub open spec fn common_prefix_len(a: Seq<u8>, b: Seq<u8>) -> int
    decreases a.len(),
{
    if a.len() == 0 || b.len() == 0 || a[0] != b[0] {
        0
    } else {
        1 + common_prefix_len(a.skip(1), b.skip(1))
    }
}

pub proof fn lemma_lex_lt_skip_agreed(a: Seq<u8>, b: Seq<u8>, i: int, n: int)
    requires
        0 <= i <= n,
        agree_upto(a, b, n),
    ensures
        lex_lt_from(a, b, i) == lex_lt_from(a, b, n),
    decreases n - i,
{
    if i < n {
        lemma_lex_lt_skip_agreed(a, b, i + 1, n);
    }
}

pub proof fn lemma_lex_from_irreflexive(a: Seq<u8>, i: int)
    requires
        0 <= i,
    ensures
        !lex_lt_from(a, a, i),
    decreases a.len() - i,
{
    if i < a.len() {
        lemma_lex_from_irreflexive(a, i + 1);
    }
}

/// No byte string is below itself.
pub proof fn lemma_lex_irreflexive(a: Seq<u8>)
    ensures
        !lex_lt(a, a),
{
    lemma_lex_from_irreflexive(a, 0);
}

pub proof fn lemma_lex_from_total(a: Seq<u8>, b: Seq<u8>, i: int)
    requires
        agree_upto(a, b, i),
    ensures
        lex_lt_from(a, b, i) || lex_lt_from(b, a, i) || a == b,
        !(lex_lt_from(a, b, i) && lex_lt_from(b, a, i)),
        a == b ==> !lex_lt_from(a, b, i),
    decreases a.len() - i,
{
    if i >= a.len() && i >= b.len() {
        assert(a =~= b);
    } else if i < a.len() && i < b.len() && a[i] == b[i] {
        lemma_lex_from_total(a, b, i + 1);
    } else {
        if a == b {
            assert(a.len() == b.len());
        }
    }
}

/// Of two byte strings exactly one of `a < b`, `a == b`, `b < a` holds.
pub proof fn lemma_lex_total(a: Seq<u8>, b: Seq<u8>)
    ensures
        lex_lt(a, b) || lex_lt(b, a) || a == b,
        !(lex_lt(a, b) && lex_lt(b, a)),
        a == b ==> !lex_lt(a, b) && !lex_lt(b, a),
{
    lemma_lex_from_total(a, b, 0);
    lemma_lex_from_total(b, a, 0);
}

pub proof fn lemma_lex_from_transitive(a: Seq<u8>, b: Seq<u8>, c: Seq<u8>, i: int)
    requires
        0 <= i,
        lex_lt_from(a, b, i),
        lex_lt_from(b, c, i),
    ensures
        lex_lt_from(a, c, i),
    decreases b.len() - i,
{
    if i < a.len() && i < b.len() && i < c.len() && a[i] == b[i] && b[i] == c[i] {
        lemma_lex_from_transitive(a, b, c, i + 1);
    }
}

/// The order is transitive.
pub proof fn lemma_lex_transitive(a: Seq<u8>, b: Seq<u8>, c: Seq<u8>)
    requires
        lex_lt(a, b),
        lex_lt(b, c),
    ensures
        lex_lt(a, c),
{
    lemma_lex_from_transitive(a, b, c, 0);
}

/// `<=` followed by `<`, or `<` followed by `<=`, gives `<`.
pub proof fn lemma_lex_le_lt(a: Seq<u8>, b: Seq<u8>, c: Seq<u8>)
    requires
        (lex_le(a, b) && lex_lt(b, c)) || (lex_lt(a, b) && lex_le(b, c)),
    ensures
        lex_lt(a, c),
{
    if a != b && b != c {
        lemma_lex_transitive(a, b, c);
    }
}

/// `<=` is transitive.
pub proof fn lemma_lex_le_transitive(a: Seq<u8>, b: Seq<u8>, c: Seq<u8>)
    requires
        lex_le(a, b),
        lex_le(b, c),
    ensures
        lex_le(a, c),
{
    if a != b && b != c {
        lemma_lex_transitive(a, b, c);
    }
}

/// `a <= b` is the negation of `b < a`.
pub proof fn lemma_lex_le_iff_not_gt(a: Seq<u8>, b: Seq<u8>)
    ensures
        lex_le(a, b) <==> !lex_lt(b, a),
{
    lemma_lex_total(a, b);
}

pub proof fn lemma_common_prefix(a: Seq<u8>, b: Seq<u8>)
    ensures
        agree_upto(a, b, common_prefix_len(a, b)),
        common_prefix_len(a, b) < a.len() && common_prefix_len(a, b) < b.len() ==> a[common_prefix_len(
            a,
            b,
        )] != b[common_prefix_len(a, b)],
    decreases a.len(),
{
    if a.len() == 0 || b.len() == 0 || a[0] != b[0] {
    } else {
        lemma_common_prefix(a.skip(1), b.skip(1));
        let n = common_prefix_len(a.skip(1), b.skip(1));
        assert forall|k: int| 0 <= k < n + 1 implies a[k] == b[k] by {
            if k > 0 {
                assert(a.skip(1)[k - 1] == b.skip(1)[k - 1]);
            }
        }
        if n + 1 < a.len() && n + 1 < b.len() {
            assert(a.skip(1)[n] != b.skip(1)[n]);
        }
    }
}

pub proof fn lemma_common_prefix_unique(a: Seq<u8>, b: Seq<u8>, n: int)
    requires
        agree_upto(a, b, n),
        n == a.len() || n == b.len() || a[n] != b[n],
    ensures
        n == common_prefix_len(a, b),
{
    lemma_common_prefix(a, b);
    let m = common_prefix_len(a, b);
    if m < n {
        assert(a[m] == b[m]);
    } else if n < m {
        assert(a[n] == b[n]);
    }
}

/// The number of leading bytes on which `a` and `b` agree.
pub fn shared_prefix_len(a: &[u8], b: &[u8]) -> (n: usize)
    ensures
        n == common_prefix_len(a@, b@),
        agree_upto(a@, b@, n as int),
        n < a@.len() && n < b@.len() ==> a@[n as int] != b@[n as int],
{
    let mut i: usize = 0;
    while i < a.len() && i < b.len() && a[i] == b[i]
        invariant
            agree_upto(a@, b@, i as int),
        decreases a.len() - i,
    {
        i += 1;
    }
    proof {
        lemma_common_prefix_unique(a@, b@, i as int);
    }
    i
}

/// Whether `a` comes before `b` in unsigned lexicographic order.
pub fn bytes_lt(a: &[u8], b: &[u8]) -> (r: bool)
    ensures
        r == lex_lt(a@, b@),
{
    let n = shared_prefix_len(a, b);
    proof {
        lemma_lex_lt_skip_agreed(a@, b@, 0, n as int);
    }
    if n >= b.len() {
        false
    } else if n >= a.len() {
        true
    } else {
        a[n] < b[n]
    }
}

/// Whether `a` and `b` hold the same bytes.
pub fn bytes_eq(a: &[u8], b: &[u8]) -> (r: bool)
    ensures
        r == (a@ == b@),
{
    if a.len() != b.len() {
        return false;
    }
    let n = shared_prefix_len(a, b);
    if n == a.len() {
        assert(a@ =~= b@);
        true
    } else {
        false
    }
}

/// Whether `a` comes before `b`, or equals it, in unsigned lexicographic order.
pub fn bytes_le(a: &[u8], b: &[u8]) -> (r: bool)
    ensures
        r == lex_le(a@, b@),
{
    let lt = bytes_lt(b, a);
    proof {
        lemma_lex_le_iff_not_gt(a@, b@);
    }
    !lt
}

/// A copy of `src[from..to]` appended to `dst`.
pub fn extend_from_range(dst: &mut Vec<u8>, src: &[u8], from: usize, to: usize)
    requires
        from <= to <= src@.len(),
    ensures
        final(dst)@ == old(dst)@ + src@.subrange(from as int, to as int),
{
    let ghost start = dst@;
    let mut i: usize = from;
    while i < to
        invariant
            from <= i <= to <= src@.len(),
            dst@ == start + src@.subrange(from as int, i as int),
        decreases to - i,
    {
        dst.push(src[i]);
        i += 1;
        assert(dst@ =~= start + src@.subrange(from as int, i as int));
    }
    assert(dst@ =~= start + src@.subrange(from as int, to as int));
}

/// A copy of `src` appended to `dst`.
pub fn extend_from(dst: &mut Vec<u8>, src: &[u8])
    ensures
        final(dst)@ == old(dst)@ + src@,
{
    extend_from_range(dst, src, 0, src.len());
    assert(src@.subrange(0, src@.len() as int) =~= src@);
}

/// A fresh vector holding `src[from..to]`.
pub fn copy_range(src: &[u8], from: usize, to: usize) -> (out: Vec<u8>)
    requires
        from <= to <= src@.len(),
    ensures
        out@ == src@.subrange(from as int, to as int),
{
    let mut out: Vec<u8> = Vec::new();
    extend_from_range(&mut out, src, from, to);
    assert(out@ =~= src@.subrange(from as int, to as int));
    out
}

/// A short key between `a` and `b`, `a < b`: where the two differ at a
/// position that both have and the byte of `a` there can be raised by one
/// and stay below that of `b`, the common prefix with that raised byte;
/// else `a` itself.
pub open spec fn short_separator_spec(a: Seq<u8>, b: Seq<u8>) -> Seq<u8> {
    let d = common_prefix_len(a, b);
    if d < a.len() && d < b.len() && a[d] + 1 < b[d] {
        a.take(d).push((a[d] + 1) as u8)
    } else {
        a
    }
}

/// The short key is at or above `a`, below `b` and no longer than `a`.
pub proof fn lemma_short_separator(a: Seq<u8>, b: Seq<u8>)
    requires
        lex_lt(a, b),
    ensures
        lex_le(a, short_separator_spec(a, b)),
        lex_lt(short_separator_spec(a, b), b),
        short_separator_spec(a, b).len() <= a.len(),
{
    let d = common_prefix_len(a, b);
    let s = short_separator_spec(a, b);
    lemma_common_prefix(a, b);
    if d < a.len() && d < b.len() && a[d] + 1 < b[d] {
        assert(agree_upto(a, s, d));
        lemma_lex_lt_skip_agreed(a, s, 0, d);
        assert(agree_upto(s, b, d));
        lemma_lex_lt_skip_agreed(s, b, 0, d);
    }
}

/// A short key at or above `a` and below `b`, for the index of a table.
pub fn short_separator(a: &[u8], b: &[u8]) -> (s: Vec<u8>)
    requires
        lex_lt(a@, b@),
    ensures
        s@ == short_separator_spec(a@, b@),
        lex_le(a@, s@),
        lex_lt(s@, b@),
        s@.len() <= a@.len(),
{
    proof {
        lemma_short_separator(a@, b@);
    }
    let d = shared_prefix_len(a, b);
    if d < a.len() && d < b.len() && a[d] < 255 && a[d] + 1 < b[d] {
        let mut s = copy_range(a, 0, d);
        s.push(a[d] + 1);
        assert(s@ =~= a@.take(d as int).push((a@[d as int] + 1) as u8));
        s
    } else {
        let s = copy_range(a, 0, a.len());
        assert(s@ =~= a@);
        s
    }
}

/// The character of a decimal digit.
pub open spec fn digit_char(d: nat) -> char {
    ((48 + d) as u8) as char
}

/// A number in decimal digits.
pub open spec fn decimal(n: nat) -> Seq<char>
    decreases n,
{
    if n < 10 {
        seq![digit_char(n)]
    } else {
        decimal(n / 10).push(digit_char(n % 10))
    }
}

/// Digits with zeros in front of them, up to `width` characters.
pub open spec fn zero_padded(digits: Seq<char>, width: nat) -> Seq<char> {
    if digits.len() >= width {
        digits
    } else {
        Seq::new((width - digits.len()) as nat, |i: int| '0') + digits
    }
}

/// The name of the file with the number `num` and the extension `ext`:
/// the number in at least six decimal digits, a dot, the extension.
pub open spec fn file_name_spec(num: nat, ext: Seq<char>) -> Seq<char> {
    zero_padded(decimal(num), 6) + seq!['.'] + ext
}

/// `format!` with the pattern `"{:06}.{}"`: the number in decimal, with
/// zeros in front up to six digits, a dot, and the extension.
#[verifier::external_body]
pub(crate) fn make_file_name(num: usize, ext: &str) -> (s: String)
    ensures
        s@ == file_name_spec(num as nat, ext@),
{
    format!("{:06}.{}", num, ext)
}

/// `a` is below `b` as Rust orders strings: by their UTF-8 bytes.
pub open spec fn name_lt(a: Seq<char>, b: Seq<char>) -> bool {
    lex_lt(vstd::utf8::encode_utf8(a), vstd::utf8::encode_utf8(b))
}

/// Whether `a` is below `b` as Rust orders strings.
pub fn string_lt(a: &String, b: &String) -> (r: bool)
    ensures
        r == name_lt(a@, b@),
{
    bytes_lt(a.as_str().as_bytes(), b.as_str().as_bytes())
}

} // verus!
