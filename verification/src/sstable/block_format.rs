//! The layout of a block, as a mathematical reading of its bytes.
//!
//! A block is a run of entries followed by a trailer. An entry is three
//! varints (the number of key bytes shared with the key before it, the
//! number of key bytes of its own, the length of the value), then the key
//! bytes of its own, then the value. The trailer is the list of restart
//! offsets, four bytes each, and their count, four bytes.

use crate::coding::{
    lemma_varint_decode_agree, lemma_varint_encoding_len_u64, lemma_varint_len_bound,
    lemma_varint_roundtrip, varint_decode, varint_encoding, varint_len,
};
use crate::util::{lemma_lex_transitive, lex_le, lex_lt};
use vstd::bytes::*;
use vstd::prelude::*;

verus! {

/// One entry of a block, as read from its bytes.
pub struct Entry {
    /// Where the entry starts.
    pub start: int,
    /// Where the entry after it starts.
    pub next: int,
    /// How many bytes of its key it takes from the key before it.
    pub shared: int,
    /// The whole key.
    pub key: Seq<u8>,
    /// The value.
    pub value: Seq<u8>,
}

/// The entry that starts at `off` and ends at or before `limit`, where the
/// entry before it had the key `prev_key`.
#[verifier::opaque]
pub open spec fn parse_entry(data: Seq<u8>, off: int, limit: int, prev_key: Seq<u8>) -> Option<
    Entry,
> {
    if !(0 <= off < limit <= data.len()) {
        None
    } else {
        match varint_decode(data.subrange(off, limit)) {
            None => None,
            Some((shared, n1)) => match varint_decode(data.subrange(off + n1, limit)) {
                None => None,
                Some((non_shared, n2)) => match varint_decode(
                    data.subrange(off + n1 + n2, limit),
                ) {
                    None => None,
                    Some((vlen, n3)) => {
                        let p = off + n1 + n2 + n3;
                        if shared <= prev_key.len() && p + non_shared + vlen <= limit {
                            Some(
                                Entry {
                                    start: off,
                                    next: p + non_shared + vlen,
                                    shared: shared as int,
                                    key: prev_key.take(shared as int) + data.subrange(
                                        p,
                                        p + non_shared,
                                    ),
                                    value: data.subrange(p + non_shared, p + non_shared + vlen),
                                },
                            )
                        } else {
                            None
                        }
                    },
                },
            },
        }
    }
}

/// The entries from `off` up to `limit`, if the bytes between hold a whole
/// number of entries.
pub open spec fn parse_entries(data: Seq<u8>, off: int, limit: int, prev_key: Seq<u8>) -> Option<
    Seq<Entry>,
>
    decreases limit - off,
{
    if off >= limit {
        if off == limit {
            Some(Seq::empty())
        } else {
            None
        }
    } else {
        match parse_entry(data, off, limit, prev_key) {
            None => None,
            Some(e) => if e.next <= off || e.next > limit {
                None
            } else {
                match parse_entries(data, e.next, limit, e.key) {
                    None => None,
                    Some(rest) => Some(seq![e] + rest),
                }
            },
        }
    }
}

/// `es` is the run of entries of `data` from `off` to `limit`: the first is
/// what `parse_entry` reads at `off`, each other is what it reads where the
/// one before it ends, and the last ends at `limit`.
pub open spec fn is_chain(
    data: Seq<u8>,
    off: int,
    limit: int,
    prev_key: Seq<u8>,
    es: Seq<Entry>,
) -> bool {
    &&& off <= limit
    &&& es.len() == 0 ==> off == limit
    &&& es.len() > 0 ==> parse_entry(data, off, limit, prev_key) == Some(es[0]) && es[es.len()
        - 1].next == limit
    &&& forall|i: int, j: int|
        0 <= i && j == i + 1 && j < es.len() ==> parse_entry(
            data,
            (#[trigger] es[i]).next,
            limit,
            es[i].key,
        ) == Some(#[trigger] es[j])
}

/// An entry that was read starts where it was looked for, takes at least
/// three bytes, and ends inside the limit.
pub proof fn lemma_parse_entry_bounds(data: Seq<u8>, off: int, limit: int, prev_key: Seq<u8>)
    ensures
        parse_entry(data, off, limit, prev_key) matches Some(e) ==> {
            &&& e.start == off
            &&& 0 <= off
            &&& off + 3 <= e.next <= limit <= data.len()
            &&& 0 <= e.shared <= prev_key.len()
            &&& e.shared <= e.key.len()
            &&& e.value.len() <= e.next - off - 3
            &&& e.key.len() - e.shared <= e.next - off - 3
            &&& e.value == data.subrange(e.next - e.value.len(), e.next)
            &&& e.key == prev_key.take(e.shared) + data.subrange(
                e.next - e.value.len() - (e.key.len() - e.shared),
                e.next - e.value.len(),
            )
        },
{
    reveal(parse_entry);
    if 0 <= off < limit <= data.len() {
        let s1 = data.subrange(off, limit);
        lemma_varint_len_bound(s1);
        if let Some((shared, n1)) = varint_decode(s1) {
            let s2 = data.subrange(off + n1, limit);
            lemma_varint_len_bound(s2);
            if let Some((non_shared, n2)) = varint_decode(s2) {
                let s3 = data.subrange(off + n1 + n2, limit);
                lemma_varint_len_bound(s3);
            }
        }
    }
}

/// Bytes at or behind the limit do not matter to what is read before it.
pub proof fn lemma_parse_entry_same_prefix(
    d1: Seq<u8>,
    d2: Seq<u8>,
    off: int,
    limit: int,
    prev_key: Seq<u8>,
)
    requires
        limit <= d1.len(),
        limit <= d2.len(),
        0 <= limit,
        d1.subrange(0, limit) == d2.subrange(0, limit),
    ensures
        parse_entry(d1, off, limit, prev_key) == parse_entry(d2, off, limit, prev_key),
{
    reveal(parse_entry);
    assert forall|a: int, b: int| 0 <= a <= b <= limit implies d1.subrange(a, b) == d2.subrange(
        a,
        b,
    ) by {
        assert(d1.subrange(a, b) =~= d1.subrange(0, limit).subrange(a, b));
        assert(d2.subrange(a, b) =~= d2.subrange(0, limit).subrange(a, b));
    }
    if 0 <= off < limit {
        let s1 = d1.subrange(off, limit);
        lemma_varint_len_bound(s1);
        if let Some((shared, n1)) = varint_decode(s1) {
            let s2 = d1.subrange(off + n1, limit);
            lemma_varint_len_bound(s2);
            if let Some((non_shared, n2)) = varint_decode(s2) {
                let s3 = d1.subrange(off + n1 + n2, limit);
                lemma_varint_len_bound(s3);
            }
        }
    }
}

proof fn lemma_varint_decode_wider(d1: Seq<u8>, d2: Seq<u8>, a: int, l1: int, l2: int)
    requires
        0 <= a <= l1 <= l2,
        l1 <= d1.len(),
        l2 <= d2.len(),
        d1.subrange(0, l1) == d2.subrange(0, l1),
        varint_decode(d1.subrange(a, l1)) is Some,
    ensures
        varint_decode(d2.subrange(a, l2)) == varint_decode(d1.subrange(a, l1)),
{
    let s = d1.subrange(a, l1);
    let t = d2.subrange(a, l2);
    lemma_varint_len_bound(s);
    let n = varint_len(s).unwrap();
    assert forall|k: int| 0 <= k < n implies s[k] == t[k] by {
        assert(s[k] == d1[a + k]);
        assert(t[k] == d2[a + k]);
        assert(d1.subrange(0, l1)[a + k] == d1[a + k]);
        assert(d2.subrange(0, l1)[a + k] == d2[a + k]);
    }
    lemma_varint_decode_agree(s, t);
}

/// An entry that was read is read again, and the same, when more bytes
/// follow and the limit moves out.
pub proof fn lemma_parse_entry_wider(
    d1: Seq<u8>,
    d2: Seq<u8>,
    off: int,
    l1: int,
    l2: int,
    prev_key: Seq<u8>,
)
    requires
        0 <= l1 <= l2,
        l1 <= d1.len(),
        l2 <= d2.len(),
        d1.subrange(0, l1) == d2.subrange(0, l1),
        parse_entry(d1, off, l1, prev_key) is Some,
    ensures
        parse_entry(d2, off, l2, prev_key) == parse_entry(d1, off, l1, prev_key),
{
    reveal(parse_entry);
    lemma_parse_entry_bounds(d1, off, l1, prev_key);
    assert forall|a: int, b: int| 0 <= a <= b <= l1 implies d1.subrange(a, b) == d2.subrange(
        a,
        b,
    ) by {
        assert(d1.subrange(a, b) =~= d1.subrange(0, l1).subrange(a, b));
        assert(d2.subrange(a, b) =~= d2.subrange(0, l1).subrange(a, b));
    }
    let s1 = d1.subrange(off, l1);
    lemma_varint_len_bound(s1);
    lemma_varint_decode_wider(d1, d2, off, l1, l2);
    let (shared, n1) = varint_decode(s1).unwrap();
    let s2 = d1.subrange(off + n1, l1);
    lemma_varint_len_bound(s2);
    lemma_varint_decode_wider(d1, d2, off + n1, l1, l2);
    let (non_shared, n2) = varint_decode(s2).unwrap();
    let s3 = d1.subrange(off + n1 + n2, l1);
    lemma_varint_len_bound(s3);
    lemma_varint_decode_wider(d1, d2, off + n1 + n2, l1, l2);
}

/// A key stored in full is read the same after any key.
pub proof fn lemma_parse_entry_restart(
    data: Seq<u8>,
    off: int,
    limit: int,
    k1: Seq<u8>,
    k2: Seq<u8>,
)
    requires
        parse_entry(data, off, limit, k1) matches Some(e) && e.shared == 0,
    ensures
        parse_entry(data, off, limit, k2) == parse_entry(data, off, limit, k1),
{
    reveal(parse_entry);
    assert(k1.take(0) =~= k2.take(0));
}

/// The bytes of an entry that takes `shared` bytes of its key from the key
/// before it and adds `suffix` to them.
pub open spec fn entry_encoding(shared: nat, suffix: Seq<u8>, value: Seq<u8>) -> Seq<u8> {
    varint_encoding(shared) + varint_encoding(suffix.len()) + varint_encoding(value.len())
        + suffix + value
}

/// The bytes of an entry read back as that entry.
#[verifier::rlimit(60)]
pub proof fn lemma_parse_entry_encoding(
    data: Seq<u8>,
    off: int,
    prev_key: Seq<u8>,
    shared: nat,
    suffix: Seq<u8>,
    value: Seq<u8>,
)
    requires
        0 <= off <= data.len(),
        data.subrange(off, data.len() as int) == entry_encoding(shared, suffix, value),
        shared <= prev_key.len(),
        shared <= u64::MAX,
        suffix.len() <= u64::MAX,
        value.len() <= u64::MAX,
    ensures
        parse_entry(data, off, data.len() as int, prev_key) == Some(
            Entry {
                start: off,
                next: data.len() as int,
                shared: shared as int,
                key: prev_key.take(shared as int) + suffix,
                value: value,
            },
        ),
{
    reveal(parse_entry);
    let limit = data.len() as int;
    let e1 = varint_encoding(shared);
    let e2 = varint_encoding(suffix.len());
    let e3 = varint_encoding(value.len());
    lemma_varint_encoding_len_u64(shared as u64);
    lemma_varint_encoding_len_u64(suffix.len() as u64);
    lemma_varint_encoding_len_u64(value.len() as u64);
    let s1 = data.subrange(off, limit);
    assert(s1 =~= e1 + (e2 + e3 + suffix + value));
    lemma_varint_roundtrip(shared as u64, e2 + e3 + suffix + value);
    let n1 = e1.len() as int;
    let s2 = data.subrange(off + n1, limit);
    assert(s2 =~= e2 + (e3 + suffix + value)) by {
        assert(s2 =~= s1.subrange(n1, s1.len() as int));
    }
    lemma_varint_roundtrip(suffix.len() as u64, e3 + suffix + value);
    let n2 = e2.len() as int;
    let s3 = data.subrange(off + n1 + n2, limit);
    assert(s3 =~= e3 + (suffix + value)) by {
        assert(s3 =~= s1.subrange(n1 + n2, s1.len() as int));
    }
    lemma_varint_roundtrip(value.len() as u64, suffix + value);
    let n3 = e3.len() as int;
    let p = off + n1 + n2 + n3;
    assert(data.subrange(p, p + suffix.len()) =~= suffix) by {
        assert(data.subrange(p, p + suffix.len()) =~= s1.subrange(
            n1 + n2 + n3,
            n1 + n2 + n3 + suffix.len(),
        ));
    }
    assert(data.subrange(p + suffix.len(), p + suffix.len() + value.len()) =~= value) by {
        assert(data.subrange(p + suffix.len(), p + suffix.len() + value.len()) =~= s1.subrange(
            n1 + n2 + n3 + suffix.len(),
            n1 + n2 + n3 + suffix.len() + value.len(),
        ));
    }
    assert(p + suffix.len() + value.len() == limit);
}

/// The key of the last entry of a run; the empty key for an empty run.
pub open spec fn last_key_of(es: Seq<Entry>) -> Seq<u8> {
    if es.len() == 0 {
        Seq::empty()
    } else {
        es[es.len() - 1].key
    }
}

/// A chain grows by the entry that is read where it ends.
pub proof fn lemma_chain_push(
    d1: Seq<u8>,
    d2: Seq<u8>,
    l1: int,
    l2: int,
    es: Seq<Entry>,
    e: Entry,
)
    requires
        is_chain(d1, 0, l1, Seq::empty(), es),
        l1 <= d1.len(),
        l1 <= l2 <= d2.len(),
        d1.subrange(0, l1) == d2.subrange(0, l1),
        parse_entry(d2, l1, l2, last_key_of(es)) == Some(e),
        e.next == l2,
    ensures
        is_chain(d2, 0, l2, Seq::empty(), es.push(e)),
{
    let es2 = es.push(e);
    if es.len() > 0 {
        lemma_parse_entry_wider(d1, d2, 0, l1, l2, Seq::empty());
        assert(es2[0] == es[0]);
    }
    assert forall|i: int, j: int| 0 <= i && j == i + 1 && j < es2.len() implies parse_entry(
        d2,
        (#[trigger] es2[i]).next,
        l2,
        es2[i].key,
    ) == Some(#[trigger] es2[j]) by {
        assert(es2[i] == es[i]);
        if j < es.len() {
            assert(es2[j] == es[j]);
            assert(parse_entry(d1, es[i].next, l1, es[i].key) == Some(es[j]));
            lemma_parse_entry_wider(d1, d2, es[i].next, l1, l2, es[i].key);
        }
    }
}

/// What `parse_entries` returns is a chain.
pub proof fn lemma_chain_of_parse(data: Seq<u8>, off: int, limit: int, prev_key: Seq<u8>)
    requires
        parse_entries(data, off, limit, prev_key) is Some,
    ensures
        is_chain(data, off, limit, prev_key, parse_entries(data, off, limit, prev_key).unwrap()),
    decreases limit - off,
{
    let es = parse_entries(data, off, limit, prev_key).unwrap();
    if off < limit {
        let e = parse_entry(data, off, limit, prev_key).unwrap();
        let rest = parse_entries(data, e.next, limit, e.key).unwrap();
        lemma_chain_of_parse(data, e.next, limit, e.key);
        lemma_parse_entry_bounds(data, off, limit, prev_key);
        assert(es =~= seq![e] + rest);
        assert(es[0] == e);
        assert forall|i: int, j: int| 0 <= i && j == i + 1 && j < es.len() implies parse_entry(
            data,
            (#[trigger] es[i]).next,
            limit,
            es[i].key,
        ) == Some(#[trigger] es[j]) by {
            assert(es[j] == rest[j - 1]);
            if i > 0 {
                assert(es[i] == rest[i - 1]);
            }
        }
        if rest.len() > 0 {
            assert(es[es.len() - 1] == rest[rest.len() - 1]);
        }
    }
}

/// A chain is what `parse_entries` returns.
pub proof fn lemma_parse_of_chain(
    data: Seq<u8>,
    off: int,
    limit: int,
    prev_key: Seq<u8>,
    es: Seq<Entry>,
)
    requires
        is_chain(data, off, limit, prev_key, es),
    ensures
        parse_entries(data, off, limit, prev_key) == Some(es),
    decreases es.len(),
{
    if es.len() == 0 {
        assert(es =~= Seq::empty());
    } else {
        let e = es[0];
        lemma_parse_entry_bounds(data, off, limit, prev_key);
        let rest = es.skip(1);
        assert forall|i: int, j: int| 0 <= i && j == i + 1 && j < rest.len() implies parse_entry(
            data,
            (#[trigger] rest[i]).next,
            limit,
            rest[i].key,
        ) == Some(#[trigger] rest[j]) by {
            assert(rest[i] == es[i + 1]);
            assert(rest[j] == es[j + 1]);
        }
        if rest.len() > 0 {
            assert(rest[rest.len() - 1] == es[es.len() - 1]);
            assert(rest[0] == es[1]);
        }
        lemma_parse_of_chain(data, e.next, limit, e.key, rest);
        assert(es =~= seq![e] + rest);
    }
}

/// In a chain each entry starts where the one before it ends, the first at
/// `off`, and every entry lies before all that come later.
pub proof fn lemma_chain_starts(
    data: Seq<u8>,
    off: int,
    limit: int,
    prev_key: Seq<u8>,
    es: Seq<Entry>,
)
    requires
        is_chain(data, off, limit, prev_key, es),
    ensures
        es.len() > 0 ==> es[0].start == off,
        forall|i: int|
            0 <= i < es.len() ==> off <= (#[trigger] es[i]).start && es[i].start + 3 <= es[i].next
                <= limit,
        forall|i: int, j: int|
            0 <= i && j == i + 1 && j < es.len() ==> (#[trigger] es[i]).next == (
            #[trigger] es[j]).start,
        forall|i: int, j: int|
            0 <= i < j < es.len() ==> (#[trigger] es[i]).next <= (#[trigger] es[j]).start,
    decreases es.len(),
{
    if es.len() > 0 {
        lemma_parse_entry_bounds(data, off, limit, prev_key);
        let e = es[0];
        let rest = es.skip(1);
        assert forall|i: int, j: int| 0 <= i && j == i + 1 && j < rest.len() implies parse_entry(
            data,
            (#[trigger] rest[i]).next,
            limit,
            rest[i].key,
        ) == Some(#[trigger] rest[j]) by {
            assert(rest[i] == es[i + 1]);
            assert(rest[j] == es[j + 1]);
        }
        if rest.len() > 0 {
            assert(rest[rest.len() - 1] == es[es.len() - 1]);
            assert(rest[0] == es[1]);
        }
        lemma_chain_starts(data, e.next, limit, e.key, rest);
        assert forall|i: int| 0 <= i < es.len() implies off <= (#[trigger] es[i]).start
            && es[i].start + 3 <= es[i].next <= limit by {
            if i > 0 {
                assert(es[i] == rest[i - 1]);
            }
        }
        assert forall|i: int, j: int| 0 <= i && j == i + 1 && j < es.len() implies (
        #[trigger] es[i]).next == (#[trigger] es[j]).start by {
            assert(es[j] == rest[j - 1]);
            if i > 0 {
                assert(es[i] == rest[i - 1]);
            }
        }
        assert forall|i: int, j: int| 0 <= i < j < es.len() implies (#[trigger] es[i]).next <= (
        #[trigger] es[j]).start by {
            assert(es[j] == rest[j - 1]);
            if i > 0 {
                assert(es[i] == rest[i - 1]);
            }
        }
    }
}

/// The keys and values of a run of entries.
pub open spec fn kv_of(es: Seq<Entry>) -> Seq<(Seq<u8>, Seq<u8>)> {
    Seq::new(es.len(), |i: int| (es[i].key, es[i].value))
}

/// The keys ascend strictly: each is below all that come later.
pub open spec fn keys_ascend(kv: Seq<(Seq<u8>, Seq<u8>)>) -> bool {
    forall|i: int, j: int|
        0 <= i < j < kv.len() ==> lex_lt((#[trigger] kv[i]).0, (#[trigger] kv[j]).0)
}

/// In an ascending run every key is below all that come later.
pub proof fn lemma_keys_ascend_all(kv: Seq<(Seq<u8>, Seq<u8>)>, i: int, j: int)
    requires
        keys_ascend(kv),
        0 <= i < j < kv.len(),
    ensures
        lex_lt(kv[i].0, kv[j].0),
{
}

/// An ascending run stays ascending with a key above its last at its end.
pub proof fn lemma_keys_ascend_push(kv: Seq<(Seq<u8>, Seq<u8>)>, key: Seq<u8>, value: Seq<u8>)
    requires
        keys_ascend(kv),
        kv.len() > 0 ==> lex_lt(kv[kv.len() - 1].0, key),
    ensures
        keys_ascend(kv.push((key, value))),
{
    let kv2 = kv.push((key, value));
    assert forall|i: int, j: int| 0 <= i < j < kv2.len() implies lex_lt(
        (#[trigger] kv2[i]).0,
        (#[trigger] kv2[j]).0,
    ) by {
        if j < kv.len() {
            assert(lex_lt(kv[i].0, kv[j].0));
        } else if i < kv.len() - 1 {
            assert(lex_lt(kv[i].0, kv[kv.len() - 1].0));
            lemma_lex_transitive(kv[i].0, kv[kv.len() - 1].0, key);
        }
    }
}

/// The number of restart points that the trailer announces, where the
/// trailer fits into the block.
pub open spec fn trailer_count(data: Seq<u8>) -> Option<int> {
    if data.len() >= 4 {
        let c = spec_u32_from_le_bytes(data.subrange(data.len() - 4, data.len() as int)) as int;
        if 4 + 4 * c <= data.len() {
            Some(c)
        } else {
            None
        }
    } else {
        None
    }
}

/// The number of restart points of a block; 0 where the trailer does not fit.
pub open spec fn restart_count_of(data: Seq<u8>) -> int {
    match trailer_count(data) {
        Some(c) => c,
        None => 0,
    }
}

/// Where the entries end and the restart offsets begin; 0 where the
/// trailer does not fit.
pub open spec fn restarts_offset_of(data: Seq<u8>) -> int {
    match trailer_count(data) {
        Some(c) => data.len() - 4 - 4 * c,
        None => 0,
    }
}

/// Restart offset number `r` of a block whose entries end at `limit`.
pub open spec fn restart_point(data: Seq<u8>, limit: int, r: int) -> int {
    spec_u32_from_le_bytes(data.subrange(limit + 4 * r, limit + 4 * r + 4)) as int
}

/// The entries of a block, if its bytes up to the restart offsets hold a
/// whole number of entries.
pub open spec fn block_entries(data: Seq<u8>) -> Option<Seq<Entry>> {
    parse_entries(data, 0, restarts_offset_of(data), Seq::empty())
}

/// The index of the entry that starts at `off`.
pub open spec fn entry_at_offset(es: Seq<Entry>, off: int) -> int {
    choose|i: int| 0 <= i < es.len() && es[i].start == off
}

/// `off` is where an entry with its key stored in full starts.
pub open spec fn is_restart_entry(es: Seq<Entry>, off: int) -> bool {
    exists|i: int| 0 <= i < es.len() && (#[trigger] es[i]).start == off && es[i].shared == 0
}

/// The restart offsets `0..count` fit a run of entries that ends at
/// `limit`: the first is 0, they grow, and each points at an entry whose
/// key is stored in full.
pub open spec fn restarts_fit(data: Seq<u8>, limit: int, count: int, es: Seq<Entry>) -> bool {
    &&& count >= 1
    &&& restart_point(data, limit, 0) == 0
    &&& forall|r: int|
        0 < r < count ==> restart_point(data, limit, r - 1) < #[trigger] restart_point(
            data,
            limit,
            r,
        )
    &&& forall|r: int|
        0 <= r < count && (r > 0 || es.len() > 0) ==> is_restart_entry(
            es,
            #[trigger] restart_point(data, limit, r),
        )
}

/// The block is well formed: the trailer fits, there is at least one
/// restart point, the entries fill the space before the restart offsets,
/// their keys ascend strictly, and the restart offsets fit them.
#[verifier::opaque]
pub open spec fn block_wf(data: Seq<u8>) -> bool {
    &&& trailer_count(data) is Some
    &&& block_entries(data) matches Some(es) && keys_ascend(kv_of(es)) && restarts_fit(
        data,
        restarts_offset_of(data),
        restart_count_of(data),
        es,
    )
}

/// The keys and values of a well-formed block, in order.
pub open spec fn block_kv(data: Seq<u8>) -> Seq<(Seq<u8>, Seq<u8>)> {
    match block_entries(data) {
        Some(es) => kv_of(es),
        None => Seq::empty(),
    }
}

/// The keys of a well-formed block ascend.
pub proof fn lemma_block_wf_ascend(data: Seq<u8>)
    requires
        block_wf(data),
    ensures
        keys_ascend(block_kv(data)),
        block_entries(data) is Some,
{
    reveal(block_wf);
}

/// The index of the first entry whose key is at or above `key`; the
/// number of entries where there is none.
pub open spec fn first_at_least(kv: Seq<(Seq<u8>, Seq<u8>)>, key: Seq<u8>) -> int
    decreases kv.len(),
{
    if kv.len() == 0 {
        0
    } else if lex_le(key, kv[0].0) {
        0
    } else {
        1 + first_at_least(kv.skip(1), key)
    }
}

/// `first_at_least` is the one index with all keys before it below `key`
/// and the key at it, if any, at or above `key`.
pub proof fn lemma_first_at_least(kv: Seq<(Seq<u8>, Seq<u8>)>, key: Seq<u8>, r: int)
    requires
        0 <= r <= kv.len(),
        forall|k: int| 0 <= k < r ==> lex_lt((#[trigger] kv[k]).0, key),
        r < kv.len() ==> lex_le(key, kv[r].0),
    ensures
        first_at_least(kv, key) == r,
    decreases kv.len(),
{
    if kv.len() == 0 {
    } else if lex_le(key, kv[0].0) {
        if r > 0 {
            assert(lex_lt(kv[0].0, key));
            crate::util::lemma_lex_total(key, kv[0].0);
        }
    } else {
        if r == 0 {
        } else {
            let rest = kv.skip(1);
            assert forall|k: int| 0 <= k < r - 1 implies lex_lt((#[trigger] rest[k]).0, key) by {
                assert(rest[k] == kv[k + 1]);
            }
            if r - 1 < rest.len() {
                assert(rest[r - 1] == kv[r]);
            }
            lemma_first_at_least(rest, key, r - 1);
        }
    }
}

/// What `first_at_least` returns: an index with all keys before it below
/// `key` and the key at it, if any, at or above `key`.
pub proof fn lemma_first_at_least_is(kv: Seq<(Seq<u8>, Seq<u8>)>, key: Seq<u8>)
    ensures
        0 <= first_at_least(kv, key) <= kv.len(),
        forall|k: int| 0 <= k < first_at_least(kv, key) ==> lex_lt((#[trigger] kv[k]).0, key),
        first_at_least(kv, key) < kv.len() ==> lex_le(key, kv[first_at_least(kv, key)].0),
    decreases kv.len(),
{
    if kv.len() == 0 {
    } else if lex_le(key, kv[0].0) {
    } else {
        let rest = kv.skip(1);
        lemma_first_at_least_is(rest, key);
        let r = first_at_least(rest, key);
        crate::util::lemma_lex_total(key, kv[0].0);
        assert forall|k: int| 0 <= k < r + 1 implies lex_lt((#[trigger] kv[k]).0, key) by {
            if k > 0 {
                assert(rest[k - 1] == kv[k]);
            }
        }
        if r < rest.len() {
            assert(rest[r] == kv[r + 1]);
        }
    }
}

/// In a chain every entry is what `parse_entry` reads at its start after
/// the key before it, and entries that start later come later.
pub proof fn lemma_chain_entry(data: Seq<u8>, limit: int, es: Seq<Entry>, i: int)
    requires
        is_chain(data, 0, limit, Seq::empty(), es),
        0 <= i < es.len(),
    ensures
        parse_entry(
            data,
            es[i].start,
            limit,
            if i == 0 {
                Seq::empty()
            } else {
                es[i - 1].key
            },
        ) == Some(es[i]),
        i == 0 ==> es[i].start == 0,
        i > 0 ==> es[i].start == es[i - 1].next,
        i + 1 < es.len() ==> es[i].next == es[i + 1].start,
        i + 1 == es.len() ==> es[i].next == limit,
        es[i].start + 3 <= es[i].next <= limit,
{
    lemma_chain_starts(data, 0, limit, Seq::empty(), es);
    if i > 0 {
        assert(parse_entry(data, es[i - 1].next, limit, es[i - 1].key) == Some(es[i]));
    }
    if i + 1 < es.len() {
        assert(es[i].next == es[i + 1].start);
    }
}

/// In a chain the entry that starts at a given offset is one only.
pub proof fn lemma_chain_start_unique(
    data: Seq<u8>,
    limit: int,
    es: Seq<Entry>,
    i: int,
    j: int,
)
    requires
        is_chain(data, 0, limit, Seq::empty(), es),
        0 <= i < es.len(),
        0 <= j < es.len(),
    ensures
        es[i].start < es[j].start <==> i < j,
        es[i].start == es[j].start <==> i == j,
{
    lemma_chain_starts(data, 0, limit, Seq::empty(), es);
    if i < j {
        assert(es[i].next <= es[j].start);
    } else if j < i {
        assert(es[j].next <= es[i].start);
    }
}

/// A restart offset of a well-formed block is the start of one entry, and
/// that entry is read the same after any key.
pub proof fn lemma_restart_entry(data: Seq<u8>, limit: int, es: Seq<Entry>, off: int, k: Seq<u8>)
    requires
        is_chain(data, 0, limit, Seq::empty(), es),
        is_restart_entry(es, off),
    ensures
        0 <= entry_at_offset(es, off) < es.len(),
        es[entry_at_offset(es, off)].start == off,
        es[entry_at_offset(es, off)].shared == 0,
        parse_entry(data, off, limit, k) == Some(es[entry_at_offset(es, off)]),
{
    let w = choose|i: int| 0 <= i < es.len() && (#[trigger] es[i]).start == off && es[i].shared == 0;
    let c = entry_at_offset(es, off);
    lemma_chain_start_unique(data, limit, es, w, c);
    lemma_chain_entry(data, limit, es, c);
    lemma_parse_entry_restart(
        data,
        off,
        limit,
        if c == 0 {
            Seq::empty()
        } else {
            es[c - 1].key
        },
        k,
    );
}

} // verus!
