//! The bytes of a log entry: a key and a value that is there or not, in
//! bincode's default encoding. A byte string is its length as eight bytes,
//! least significant first, and its bytes; an optional value is one byte,
//! 0 or 1, and the value where the byte is 1.

use vstd::bytes::*;
use vstd::prelude::*;

verus! {

#[verifier::external_type_specification]
#[verifier::external_body]
pub struct ExBincodeErrorKind(bincode::ErrorKind);

/// The view of an optional byte string.
pub open spec fn option_view(v: Option<Vec<u8>>) -> Option<Seq<u8>> {
    match v {
        Some(b) => Some(b@),
        None => None,
    }
}

/// What `bincode::serialize` returns for a key with an optional value,
/// or, without a key, for an optional value alone: the bytes, or `None`
/// where it returns an error.
pub uninterp spec fn bincode_serialized(key: Option<Seq<u8>>, value: Option<Seq<u8>>) -> Option<
    Seq<u8>,
>;

/// The bytes that bincode gives for a log entry, where it gives any.
pub open spec fn entry_bytes(k: Seq<u8>, v: Option<Seq<u8>>) -> Option<Seq<u8>> {
    bincode_serialized(Some(k), v)
}

/// The bytes that bincode gives for a value that is there or not, where
/// it gives any.
pub open spec fn value_bytes(v: Option<Seq<u8>>) -> Option<Seq<u8>> {
    bincode_serialized(None, v)
}

/// The encoding of a byte string.
pub open spec fn bytes_encoding(b: Seq<u8>) -> Seq<u8> {
    spec_u64_to_le_bytes(b.len() as u64) + b
}

/// The encoding of a value that is there or not.
pub open spec fn option_encoding(v: Option<Seq<u8>>) -> Seq<u8> {
    match v {
        None => seq![0u8],
        Some(b) => seq![1u8] + bytes_encoding(b),
    }
}

/// The encoding of a log entry.
pub open spec fn entry_encoding(k: Seq<u8>, v: Option<Seq<u8>>) -> Seq<u8> {
    bytes_encoding(k) + option_encoding(v)
}

/// The byte string at the front of `s` and the bytes that it takes.
pub open spec fn bytes_decode(s: Seq<u8>) -> Option<(Seq<u8>, int)> {
    if s.len() < 8 {
        None
    } else {
        let n = spec_u64_from_le_bytes(s.subrange(0, 8)) as int;
        if 8 + n <= s.len() {
            Some((s.subrange(8, 8 + n), 8 + n))
        } else {
            None
        }
    }
}

/// The optional value at the front of `s` and the bytes that it takes.
pub open spec fn option_decode(s: Seq<u8>) -> Option<(Option<Seq<u8>>, int)> {
    if s.len() < 1 {
        None
    } else if s[0] == 0 {
        Some((None, 1))
    } else if s[0] == 1 {
        match bytes_decode(s.subrange(1, s.len() as int)) {
            Some((b, n)) => Some((Some(b), 1 + n)),
            None => None,
        }
    } else {
        None
    }
}

/// The log entry at the front of `s`; bytes behind it do not matter.
pub open spec fn entry_decode(s: Seq<u8>) -> Option<(Seq<u8>, Option<Seq<u8>>)> {
    match bytes_decode(s) {
        None => None,
        Some((k, n)) => match option_decode(s.subrange(n, s.len() as int)) {
            Some((v, _)) => Some((k, v)),
            None => None,
        },
    }
}

/// A byte string is read back from its encoding, whatever follows it.
pub proof fn lemma_bytes_roundtrip(b: Seq<u8>, rest: Seq<u8>)
    requires
        b.len() <= u64::MAX,
    ensures
        bytes_decode(bytes_encoding(b) + rest) == Some((b, 8 + b.len() as int)),
        bytes_encoding(b).len() == 8 + b.len(),
{
    lemma_auto_spec_u64_to_from_le_bytes();
    let s = bytes_encoding(b) + rest;
    assert(s.subrange(0, 8) =~= spec_u64_to_le_bytes(b.len() as u64));
    assert(s.subrange(8, 8 + b.len() as int) =~= b);
}

/// An optional value is read back from its encoding, whatever follows it.
pub proof fn lemma_option_roundtrip(v: Option<Seq<u8>>, rest: Seq<u8>)
    requires
        v matches Some(b) ==> b.len() <= u64::MAX,
    ensures
        option_decode(option_encoding(v) + rest) == Some((v, option_encoding(v).len() as int)),
{
    let s = option_encoding(v) + rest;
    match v {
        None => {},
        Some(b) => {
            lemma_bytes_roundtrip(b, rest);
            assert(s.subrange(1, s.len() as int) =~= bytes_encoding(b) + rest);
        },
    }
}

/// A log entry is read back from its encoding, whatever follows it.
pub proof fn lemma_entry_roundtrip(k: Seq<u8>, v: Option<Seq<u8>>, rest: Seq<u8>)
    requires
        k.len() <= u64::MAX,
        v matches Some(b) ==> b.len() <= u64::MAX,
    ensures
        entry_decode(entry_encoding(k, v) + rest) == Some((k, v)),
{
    let s = entry_encoding(k, v) + rest;
    assert(s =~= bytes_encoding(k) + (option_encoding(v) + rest));
    lemma_bytes_roundtrip(k, option_encoding(v) + rest);
    assert(s.subrange(8 + k.len() as int, s.len() as int) =~= option_encoding(v) + rest);
    lemma_option_roundtrip(v, rest);
}

/// `bincode::serialize` of a key and an optional value: where it returns
/// bytes, they are the key's length as eight bytes, least significant
/// first, and the key; then one byte, 0 for no value and 1 for a value;
/// then the value's length and the value as for the key. Whether it
/// returns bytes depends on the key and the value alone.
#[verifier::external_body]
fn bincode_entry(k: &Vec<u8>, v: &Option<Vec<u8>>) -> (r: Result<Vec<u8>, bincode::Error>)
    ensures
        match r {
            Ok(b) => bincode_serialized(Some(k@), option_view(*v)) == Some(b@) && b@
                == entry_encoding(k@, option_view(*v)),
            Err(_) => bincode_serialized(Some(k@), option_view(*v)) is None,
        },
{
    bincode::serialize(&(k, v))
}

/// `bincode::deserialize` of a key and an optional value: it returns them
/// where the bytes start with the encoding of a key and an optional
/// value, and an error where they do not. Bytes behind the encoding are
/// not looked at.
#[verifier::external_body]
fn bincode_entry_from(bytes: &[u8]) -> (r: Result<(Vec<u8>, Option<Vec<u8>>), bincode::Error>)
    ensures
        match r {
            Ok((k, v)) => entry_decode(bytes@) == Some((k@, option_view(v))),
            Err(_) => entry_decode(bytes@) is None,
        },
{
    bincode::deserialize(bytes)
}

/// `bincode::serialize` of an optional value: where it returns bytes,
/// they are one byte, 0 for no value and 1 for a value, then the value's
/// length as eight bytes, least significant first, and the value.
/// Whether it returns bytes depends on the value alone.
#[verifier::external_body]
fn bincode_value(v: &Option<Vec<u8>>) -> (r: Result<Vec<u8>, bincode::Error>)
    ensures
        match r {
            Ok(b) => bincode_serialized(None, option_view(*v)) == Some(b@) && b@
                == option_encoding(option_view(*v)),
            Err(_) => bincode_serialized(None, option_view(*v)) is None,
        },
{
    bincode::serialize(v)
}

/// `bincode::deserialize` of an optional value: it returns the value
/// where the bytes start with the encoding of an optional value, and an
/// error where they do not.
#[verifier::external_body]
fn bincode_value_from(bytes: &[u8]) -> (r: Result<Option<Vec<u8>>, bincode::Error>)
    ensures
        match r {
            Ok(v) => option_decode(bytes@) matches Some((w, _)) && w == option_view(v),
            Err(_) => option_decode(bytes@) is None,
        },
{
    bincode::deserialize(bytes)
}

/// The bytes of a log entry: those that bincode gives for the key and
/// the value, `None` where it gives none.
pub fn encode_entry(k: &Vec<u8>, v: &Option<Vec<u8>>) -> (r: Option<Vec<u8>>)
    ensures
        option_view(r) == entry_bytes(k@, option_view(*v)),
        r matches Some(b) ==> b@ == entry_encoding(k@, option_view(*v)),
{
    match bincode_entry(k, v) {
        Ok(b) => Some(b),
        Err(_) => None,
    }
}

/// The log entry at the front of `bytes`.
pub fn decode_entry(bytes: &[u8]) -> (r: Option<(Vec<u8>, Option<Vec<u8>>)>)
    ensures
        match r {
            Some((k, v)) => entry_decode(bytes@) == Some((k@, option_view(v))),
            None => entry_decode(bytes@) is None,
        },
{
    match bincode_entry_from(bytes) {
        Ok(e) => Some(e),
        Err(_) => None,
    }
}

/// The bytes of a value that is there or not, as a table stores it:
/// those that bincode gives for it, `None` where it gives none.
pub fn encode_value(v: &Option<Vec<u8>>) -> (r: Option<Vec<u8>>)
    ensures
        option_view(r) == value_bytes(option_view(*v)),
        r matches Some(b) ==> b@ == option_encoding(option_view(*v)),
{
    match bincode_value(v) {
        Ok(b) => Some(b),
        Err(_) => None,
    }
}

/// The value that is there or not at the front of `bytes`; `None` where
/// the bytes are no such value.
pub fn decode_value(bytes: &[u8]) -> (r: Option<Option<Vec<u8>>>)
    ensures
        match r {
            Some(v) => option_decode(bytes@) matches Some((w, _)) && w == option_view(v),
            None => option_decode(bytes@) is None,
        },
{
    match bincode_value_from(bytes) {
        Ok(v) => Some(v),
        Err(_) => None,
    }
}

} // verus!
