//! The parser of the text protocol.
//!
//! A request is one of
//!
//! - `get` or `gets`, then one key or more, each after one space or
//!   more, then `\r\n`;
//! - `set`, `add`, `replace`, `append` or `prepend`, then a key, the
//!   flags, the time to live and the number of payload bytes, each after
//!   one space or more, then spaces if any, then `noreply` if any, then
//!   `\r\n`, the payload and `\r\n`;
//! - `delete`, then a key after one space or more, then spaces if any,
//!   then `noreply` if any, then `\r\n`.
//!
//! A space is a blank or a tab. A key is a run of bytes none of which is
//! a blank, a tab, `\r`, `\n` or 0. The payload has at least as many bytes
//! as announced and ends before the first `\r\n` from there on.
//!
//! The parser is made for input that comes in pieces: where the input
//! ends before the request does, it says how many bytes are wanted at
//! least.

use crate::request::{keys_view, GetterType, Request, RequestView, SetterType};
use crate::util::copy_range;
use vstd::prelude::*;
use vstd::slice::slice_subrange;

verus! {

/// What a step of the parser found: where what it read ends, how many
/// bytes are wanted at least, or that the input is no request.
#[derive(Debug, Clone, Copy, PartialEq, Eq, Structural)]
pub enum Step {
    Done(usize),
    Incomplete(usize),
    Error,
}

/// What the parser found.
#[derive(Debug, PartialEq)]
pub enum IRResult<'a, T> {
    /// A request, and the input behind it.
    Done((&'a [u8], T)),
    /// The input ends before the request does; so many bytes are wanted
    /// at least.
    Incomplete(usize),
    /// The input is no request.
    Error,
}

/// The classes of bytes that the grammar speaks of.
#[derive(Debug, Clone, Copy, PartialEq, Eq, Structural)]
pub enum Class {
    Space,
    Key,
    Digit,
}

/// Whether a byte is of a class.
pub open spec fn in_class(b: u8, c: Class) -> bool {
    match c {
        Class::Space => b == 32 || b == 9,
        Class::Key => b != 32 && b != 9 && b != 13 && b != 10 && b != 0,
        Class::Digit => 48 <= b <= 57,
    }
}

/// Where the run of bytes of a class that starts at `i` ends.
pub open spec fn run_end(s: Seq<u8>, i: int, c: Class) -> int
    decreases s.len() - i,
{
    if i < 0 || i >= s.len() {
        s.len() as int
    } else if in_class(s[i], c) {
        run_end(s, i + 1, c)
    } else {
        i
    }
}

/// A run of one byte or more of a class at `i`. At the end of the input
/// more bytes of the class may follow, so one byte more is wanted.
pub open spec fn run1(s: Seq<u8>, i: int, c: Class) -> Step {
    let e = run_end(s, i, c);
    if e >= s.len() {
        Step::Incomplete(1)
    } else if e == i {
        Step::Error
    } else {
        Step::Done(e as usize)
    }
}

/// A run of bytes of a class at `i`, if any.
pub open spec fn run0(s: Seq<u8>, i: int, c: Class) -> Step {
    let e = run_end(s, i, c);
    if e >= s.len() {
        Step::Incomplete(1)
    } else {
        Step::Done(e as usize)
    }
}

/// How many bytes of `t` stand at `i`, up to the first that differs.
pub open spec fn match_len(s: Seq<u8>, i: int, t: Seq<u8>, k: int) -> int
    decreases t.len() - k,
{
    if k < 0 || k >= t.len() || i + k >= s.len() || s[i + k] != t[k] {
        k
    } else {
        match_len(s, i, t, k + 1)
    }
}

/// The word `t` at `i`. Where the input ends inside the word the rest of
/// the word is wanted.
pub open spec fn tag(s: Seq<u8>, i: int, t: Seq<u8>) -> Step {
    let n = match_len(s, i, t, 0);
    if n >= t.len() {
        Step::Done((i + n) as usize)
    } else if i + n >= s.len() {
        Step::Incomplete((t.len() - n) as usize)
    } else {
        Step::Error
    }
}

/// The number that the decimal digits `s[i..e]` stand for.
pub open spec fn digits_value(s: Seq<u8>, i: int, e: int) -> nat
    decreases e - i,
{
    if e <= i {
        0
    } else {
        10 * digits_value(s, i, e - 1) + (s[e - 1] - 48) as nat
    }
}

/// What the parser makes of the input: a request and where it ends, the
/// bytes wanted at least, or that the input is no request.
pub enum Parsed {
    Done(RequestView, int),
    Incomplete(usize),
    Error,
}

pub open spec fn crlf() -> Seq<u8> {
    seq![13u8, 10u8]
}

/// The keys of a retrieval command from `i` on, where a key starts at
/// `i`: the key, then either `\r\n` or spaces and more keys.
pub open spec fn keys_from(s: Seq<u8>, i: int, got: Seq<Seq<u8>>) -> (Step, Seq<Seq<u8>>)
    decreases s.len() - i,
{
    match run1(s, i, Class::Key) {
        Step::Done(e) => {
            let keys = got.push(s.subrange(i, e as int));
            if e as int <= i || e as int > s.len() {
                (Step::Error, got)
            } else {
                match tag(s, e as int, crlf()) {
                    Step::Done(end) => (Step::Done(end), keys),
                    Step::Incomplete(n) => (Step::Incomplete(n), keys),
                    Step::Error => match run1(s, e as int, Class::Space) {
                        Step::Done(k) => if k as int <= e as int || k as int > s.len() {
                            (Step::Error, got)
                        } else {
                            keys_from(s, k as int, keys)
                        },
                        Step::Incomplete(n) => (Step::Incomplete(n), keys),
                        Step::Error => (Step::Error, keys),
                    },
                }
            }
        },
        Step::Incomplete(n) => (Step::Incomplete(n), got),
        Step::Error => (Step::Error, got),
    }
}

/// `gets`.
pub open spec fn word_gets() -> Seq<u8> {
    seq![103u8, 101u8, 116u8, 115u8]
}

/// `get`.
pub open spec fn word_get() -> Seq<u8> {
    seq![103u8, 101u8, 116u8]
}

/// `set`.
pub open spec fn word_set() -> Seq<u8> {
    seq![115u8, 101u8, 116u8]
}

/// `add`.
pub open spec fn word_add() -> Seq<u8> {
    seq![97u8, 100u8, 100u8]
}

/// `replace`.
pub open spec fn word_replace() -> Seq<u8> {
    seq![114u8, 101u8, 112u8, 108u8, 97u8, 99u8, 101u8]
}

/// `append`.
pub open spec fn word_append() -> Seq<u8> {
    seq![97u8, 112u8, 112u8, 101u8, 110u8, 100u8]
}

/// `prepend`.
pub open spec fn word_prepend() -> Seq<u8> {
    seq![112u8, 114u8, 101u8, 112u8, 101u8, 110u8, 100u8]
}

/// `delete`.
pub open spec fn word_delete() -> Seq<u8> {
    seq![100u8, 101u8, 108u8, 101u8, 116u8, 101u8]
}

/// `noreply`.
pub open spec fn word_noreply() -> Seq<u8> {
    seq![110u8, 111u8, 114u8, 101u8, 112u8, 108u8, 121u8]
}

/// The name of a retrieval command at the start of the input: `gets`
/// is tried before `get`.
pub open spec fn getter_name(s: Seq<u8>) -> (Step, GetterType) {
    match tag(s, 0, word_gets()) {
        Step::Error => (tag(s, 0, word_get()), GetterType::Get),
        other => (other, GetterType::Gets),
    }
}

/// The name of a storage command at the start of the input, tried in
/// the order `set`, `add`, `replace`, `append`, `prepend`.
pub open spec fn setter_name(s: Seq<u8>) -> (Step, SetterType) {
    match tag(s, 0, word_set()) {
        Step::Error => match tag(s, 0, word_add()) {
            Step::Error => match tag(s, 0, word_replace()) {
                Step::Error => match tag(s, 0, word_append()) {
                    Step::Error => (tag(s, 0, word_prepend()), SetterType::Prepend),
                    other => (other, SetterType::Append),
                },
                other => (other, SetterType::Replace),
            },
            other => (other, SetterType::Add),
        },
        other => (other, SetterType::Store),
    }
}

/// A retrieval command.
pub open spec fn getter(s: Seq<u8>) -> Parsed {
    match getter_name(s) {
        (Step::Done(a), kind) => match run1(s, a as int, Class::Space) {
            Step::Done(b) => match keys_from(s, b as int, Seq::empty()) {
                (Step::Done(end), keys) => Parsed::Done(
                    RequestView::Getter { getter: kind, keys },
                    end as int,
                ),
                (Step::Incomplete(n), _) => Parsed::Incomplete(n),
                (Step::Error, _) => Parsed::Error,
            },
            Step::Incomplete(n) => Parsed::Incomplete(n),
            Step::Error => Parsed::Error,
        },
        (Step::Incomplete(n), _) => Parsed::Incomplete(n),
        (Step::Error, _) => Parsed::Error,
    }
}

/// A number of one decimal digit or more at `i`, at most `max`.
pub open spec fn number(s: Seq<u8>, i: int, max: nat) -> Step {
    match run1(s, i, Class::Digit) {
        Step::Done(e) => if digits_value(s, i, e as int) <= max {
            Step::Done(e)
        } else {
            Step::Error
        },
        other => other,
    }
}

/// Spaces if any, then `noreply` if any, then `\r\n`, from `i` on:
/// where the `\r\n` ends, and whether `noreply` was there.
pub open spec fn line_end(s: Seq<u8>, i: int) -> (Step, bool) {
    match run0(s, i, Class::Space) {
        Step::Done(a) => match tag(s, a as int, word_noreply()) {
            Step::Done(b) => (tag(s, b as int, crlf()), true),
            Step::Incomplete(n) => (Step::Incomplete(n), false),
            Step::Error => (tag(s, a as int, crlf()), false),
        },
        other => (other, false),
    }
}

/// Where the first `\r\n` at or behind `p` starts. Where the input ends
/// before one is found, the bytes that a `\r\n` at the end would take
/// are wanted.
pub open spec fn find_crlf(s: Seq<u8>, p: int) -> Step
    decreases s.len() - p,
{
    if p < 0 || p + 2 > s.len() {
        Step::Incomplete(
            if p >= 0 && p + 1 <= s.len() {
                (p + 2 - s.len()) as usize
            } else {
                2
            },
        )
    } else if s[p] == 13 && s[p + 1] == 10 {
        Step::Done(p as usize)
    } else {
        find_crlf(s, p + 1)
    }
}

/// The payload of a storage command from `m` on: at least `bytes` bytes,
/// up to the first `\r\n` from there on. Where fewer than `bytes` bytes
/// are there, the missing bytes are wanted.
pub open spec fn payload_end(s: Seq<u8>, m: int, bytes: nat) -> Step {
    if s.len() - m < bytes {
        Step::Incomplete((bytes - (s.len() - m)) as usize)
    } else {
        find_crlf(s, m + bytes)
    }
}

/// A storage command.
pub open spec fn setter(s: Seq<u8>) -> Parsed {
    match setter_name(s) {
        (Step::Done(a), kind) => match run1(s, a as int, Class::Space) {
            Step::Done(b) => match run1(s, b as int, Class::Key) {
                Step::Done(c) => match run1(s, c as int, Class::Space) {
                    Step::Done(d) => match number(s, d as int, u32::MAX as nat) {
                        Step::Done(e) => match run1(s, e as int, Class::Space) {
                            Step::Done(f) => match number(s, f as int, u32::MAX as nat) {
                                Step::Done(g) => match run1(s, g as int, Class::Space) {
                                    Step::Done(h) => match number(s, h as int, usize::MAX as nat) {
                                        Step::Done(k) => setter_tail(
                                            s,
                                            kind,
                                            s.subrange(b as int, c as int),
                                            digits_value(s, d as int, e as int) as u32,
                                            digits_value(s, f as int, g as int) as u32,
                                            digits_value(s, h as int, k as int) as usize,
                                            k as int,
                                        ),
                                        Step::Incomplete(n) => Parsed::Incomplete(n),
                                        Step::Error => Parsed::Error,
                                    },
                                    Step::Incomplete(n) => Parsed::Incomplete(n),
                                    Step::Error => Parsed::Error,
                                },
                                Step::Incomplete(n) => Parsed::Incomplete(n),
                                Step::Error => Parsed::Error,
                            },
                            Step::Incomplete(n) => Parsed::Incomplete(n),
                            Step::Error => Parsed::Error,
                        },
                        Step::Incomplete(n) => Parsed::Incomplete(n),
                        Step::Error => Parsed::Error,
                    },
                    Step::Incomplete(n) => Parsed::Incomplete(n),
                    Step::Error => Parsed::Error,
                },
                Step::Incomplete(n) => Parsed::Incomplete(n),
                Step::Error => Parsed::Error,
            },
            Step::Incomplete(n) => Parsed::Incomplete(n),
            Step::Error => Parsed::Error,
        },
        (Step::Incomplete(n), _) => Parsed::Incomplete(n),
        (Step::Error, _) => Parsed::Error,
    }
}

/// A storage command from the end of its numbers on: the end of the
/// line, the payload, `\r\n`.
pub open spec fn setter_tail(
    s: Seq<u8>,
    kind: SetterType,
    key: Seq<u8>,
    flags: u32,
    ttl: u32,
    bytes: usize,
    k: int,
) -> Parsed {
    match line_end(s, k) {
        (Step::Done(m), no_reply) => match payload_end(s, m as int, bytes as nat) {
            Step::Done(p) => match tag(s, p as int, crlf()) {
                Step::Done(end) => Parsed::Done(
                    RequestView::Setter {
                        setter: kind,
                        key,
                        flags,
                        ttl,
                        bytes,
                        payload: s.subrange(m as int, p as int),
                        no_reply,
                    },
                    end as int,
                ),
                Step::Incomplete(n) => Parsed::Incomplete(n),
                Step::Error => Parsed::Error,
            },
            Step::Incomplete(n) => Parsed::Incomplete(n),
            Step::Error => Parsed::Error,
        },
        (Step::Incomplete(n), _) => Parsed::Incomplete(n),
        (Step::Error, _) => Parsed::Error,
    }
}

/// A deletion.
pub open spec fn deleter(s: Seq<u8>) -> Parsed {
    match tag(s, 0, word_delete()) {
        Step::Done(a) => match run1(s, a as int, Class::Space) {
            Step::Done(b) => match run1(s, b as int, Class::Key) {
                Step::Done(c) => match line_end(s, c as int) {
                    (Step::Done(end), no_reply) => Parsed::Done(
                        RequestView::Deleter { key: s.subrange(b as int, c as int), no_reply },
                        end as int,
                    ),
                    (Step::Incomplete(n), _) => Parsed::Incomplete(n),
                    (Step::Error, _) => Parsed::Error,
                },
                Step::Incomplete(n) => Parsed::Incomplete(n),
                Step::Error => Parsed::Error,
            },
            Step::Incomplete(n) => Parsed::Incomplete(n),
            Step::Error => Parsed::Error,
        },
        Step::Incomplete(n) => Parsed::Incomplete(n),
        Step::Error => Parsed::Error,
    }
}

/// A request: a retrieval command, else a storage command, else a
/// deletion.
pub open spec fn request(s: Seq<u8>) -> Parsed {
    match getter(s) {
        Parsed::Error => match setter(s) {
            Parsed::Error => deleter(s),
            other => other,
        },
        other => other,
    }
}

/// Whether an exec result says what a spec result says.
pub open spec fn agrees<'a>(r: IRResult<'a, Request>, input: Seq<u8>, want: Parsed) -> bool {
    match want {
        Parsed::Done(v, end) => r matches IRResult::Done((rest, req)) && req@ == v && 0 <= end
            <= input.len() && rest@ == input.subrange(end, input.len() as int),
        Parsed::Incomplete(n) => r == IRResult::<Request>::Incomplete(n),
        Parsed::Error => r == IRResult::<Request>::Error,
    }
}

/// Whether a byte is a space, may stand in a key, or is a digit.
fn is_in(b: u8, c: Class) -> (r: bool)
    ensures
        r == in_class(b, c),
{
    match c {
        Class::Space => b == 32 || b == 9,
        Class::Key => b != 32 && b != 9 && b != 13 && b != 10 && b != 0,
        Class::Digit => 48 <= b && b <= 57,
    }
}

/// Where the run of bytes of a class that starts at `i` ends.
pub fn scan(input: &[u8], i: usize, c: Class) -> (e: usize)
    requires
        i <= input@.len(),
    ensures
        e == run_end(input@, i as int, c),
        i <= e <= input@.len(),
        forall|k: int| i <= k < e ==> in_class(#[trigger] input@[k], c),
{
    let mut e: usize = i;
    while e < input.len() && is_in(input[e], c)
        invariant
            i <= e <= input@.len(),
            run_end(input@, i as int, c) == run_end(input@, e as int, c),
            forall|k: int| i <= k < e ==> in_class(#[trigger] input@[k], c),
        decreases input@.len() - e,
    {
        e += 1;
    }
    e
}

/// A run of one byte or more of a class at `i`.
fn take1(input: &[u8], i: usize, c: Class) -> (r: Step)
    requires
        i <= input@.len(),
    ensures
        r == run1(input@, i as int, c),
        r matches Step::Done(e) ==> i < e < input@.len() && forall|k: int|
            i <= k < e ==> in_class(#[trigger] input@[k], c),
{
    let e = scan(input, i, c);
    if e >= input.len() {
        Step::Incomplete(1)
    } else if e == i {
        Step::Error
    } else {
        Step::Done(e)
    }
}

/// A run of bytes of a class at `i`, if any.
fn take0(input: &[u8], i: usize, c: Class) -> (r: Step)
    requires
        i <= input@.len(),
    ensures
        r == run0(input@, i as int, c),
        r matches Step::Done(e) ==> i <= e < input@.len(),
{
    let e = scan(input, i, c);
    if e >= input.len() {
        Step::Incomplete(1)
    } else {
        Step::Done(e)
    }
}

/// The word `t` at `i`.
fn take_tag(input: &[u8], i: usize, t: &[u8]) -> (r: Step)
    requires
        i <= input@.len(),
    ensures
        r == tag(input@, i as int, t@),
        r matches Step::Done(e) ==> e == i + t@.len() && e <= input@.len(),
{
    let mut k: usize = 0;
    let len = input.len();
    while k < t.len() && k < input.len() - i && input[i + k] == t[k]
        invariant
            k <= t@.len(),
            i + k <= input@.len(),
            match_len(input@, i as int, t@, 0) == match_len(input@, i as int, t@, k as int),
        decreases t@.len() - k,
    {
        k += 1;
    }
    if k >= t.len() {
        Step::Done(i + k)
    } else if k >= input.len() - i {
        Step::Incomplete(t.len() - k)
    } else {
        Step::Error
    }
}

/// The number that the digits `input[i..e]` stand for, where it is at
/// most `max`.
pub fn digits(input: &[u8], i: usize, e: usize, max: u64) -> (r: Option<u64>)
    requires
        i <= e <= input@.len(),
        forall|k: int| i <= k < e ==> in_class(#[trigger] input@[k], Class::Digit),
    ensures
        match r {
            Some(v) => v == digits_value(input@, i as int, e as int) && v <= max,
            None => digits_value(input@, i as int, e as int) > max,
        },
{
    let mut acc: u64 = 0;
    let mut k: usize = i;
    while k < e
        invariant
            i <= k <= e <= input@.len(),
            acc == digits_value(input@, i as int, k as int),
            acc <= max,
            forall|j: int| i <= j < e ==> in_class(#[trigger] input@[j], Class::Digit),
        decreases e - k,
    {
        let d = (input[k] - 48) as u64;
        if max < d || acc > (max - d) / 10 {
            proof {
                lemma_digits_grow(input@, i as int, k + 1, e as int);
            }
            return None;
        }
        acc = acc * 10 + d;
        k += 1;
    }
    Some(acc)
}

/// More digits do not make a number smaller.
proof fn lemma_digits_grow(s: Seq<u8>, i: int, a: int, b: int)
    requires
        i <= a <= b <= s.len(),
        forall|k: int| i <= k < b ==> in_class(#[trigger] s[k], Class::Digit),
    ensures
        digits_value(s, i, a) <= digits_value(s, i, b),
    decreases b - a,
{
    if a < b {
        lemma_digits_grow(s, i, a, b - 1);
    }
}

/// A number of one decimal digit or more at `i`, at most `max`.
fn take_number(input: &[u8], i: usize, max: u64) -> (r: (Step, u64))
    requires
        i <= input@.len(),
    ensures
        r.0 == number(input@, i as int, max as nat),
        r.0 matches Step::Done(e) ==> i < e < input@.len() && r.1 == digits_value(
            input@,
            i as int,
            e as int,
        ) && r.1 <= max,
{
    match take1(input, i, Class::Digit) {
        Step::Done(e) => match digits(input, i, e, max) {
            Some(v) => (Step::Done(e), v),
            None => (Step::Error, 0),
        },
        other => (other, 0),
    }
}

/// Spaces if any, then `noreply` if any, then `\r\n`.
fn take_line_end(input: &[u8], i: usize) -> (r: (Step, bool))
    requires
        i <= input@.len(),
    ensures
        r == line_end(input@, i as int),
        r.0 matches Step::Done(e) ==> e <= input@.len(),
{
    let noreply: [u8; 7] = [110, 111, 114, 101, 112, 108, 121];
    let newline: [u8; 2] = [13, 10];
    assert(noreply@ =~= word_noreply());
    assert(newline@ =~= crlf());
    match take0(input, i, Class::Space) {
        Step::Done(a) => match take_tag(input, a, noreply.as_slice()) {
            Step::Done(b) => (take_tag(input, b, newline.as_slice()), true),
            Step::Incomplete(n) => (Step::Incomplete(n), false),
            Step::Error => (take_tag(input, a, newline.as_slice()), false),
        },
        other => (other, false),
    }
}

/// Where the first `\r\n` at or behind `p` starts.
fn take_find_crlf(input: &[u8], p: usize) -> (r: Step)
    requires
        p <= input@.len(),
    ensures
        r == find_crlf(input@, p as int),
        r matches Step::Done(e) ==> p <= e && e + 2 <= input@.len(),
{
    let len = input.len();
    let mut q: usize = p;
    while len - q >= 2
        invariant
            p <= q <= len,
            len == input@.len(),
            find_crlf(input@, p as int) == find_crlf(input@, q as int),
        decreases len - q,
    {
        if input[q] == 13 && input[q + 1] == 10 {
            return Step::Done(q);
        }
        q += 1;
    }
    Step::Incomplete(2 - (len - q))
}

/// The keys of a retrieval command from `i` on.
fn take_keys(input: &[u8], i: usize) -> (r: (Step, Vec<Vec<u8>>))
    requires
        i <= input@.len(),
    ensures
        r.0 == keys_from(input@, i as int, Seq::empty()).0,
        r.0 matches Step::Done(e) ==> e <= input@.len() && keys_view(r.1@) == keys_from(
            input@,
            i as int,
            Seq::empty(),
        ).1,
{
    let newline: [u8; 2] = [13, 10];
    assert(newline@ =~= crlf());
    let mut keys: Vec<Vec<u8>> = Vec::new();
    let mut pos: usize = i;
    assert(keys_view(keys@) =~= Seq::<Seq<u8>>::empty());
    loop
        invariant
            pos <= input@.len(),
            newline@ == crlf(),
            keys_from(input@, i as int, Seq::empty()) == keys_from(
                input@,
                pos as int,
                keys_view(keys@),
            ),
        decreases input@.len() - pos,
    {
        let e = match take1(input, pos, Class::Key) {
            Step::Done(e) => e,
            other => {
                return (other, keys);
            },
        };
        let ghost before = keys_view(keys@);
        keys.push(copy_range(input, pos, e));
        proof {
            assert(keys_view(keys@) =~= before.push(input@.subrange(pos as int, e as int)));
        }
        match take_tag(input, e, newline.as_slice()) {
            Step::Done(end) => {
                return (Step::Done(end), keys);
            },
            Step::Incomplete(n) => {
                return (Step::Incomplete(n), keys);
            },
            Step::Error => {},
        }
        match take1(input, e, Class::Space) {
            Step::Done(k) => {
                pos = k;
            },
            other => {
                return (other, keys);
            },
        }
    }
}

/// A retrieval command.
fn parse_getter(input: &[u8]) -> (r: IRResult<'_, Request>)
    ensures
        agrees(r, input@, getter(input@)),
{
    let gets: [u8; 4] = [103, 101, 116, 115];
    let get: [u8; 3] = [103, 101, 116];
    assert(gets@ =~= word_gets());
    assert(get@ =~= word_get());
    let (name, kind) = match take_tag(input, 0, gets.as_slice()) {
        Step::Error => (take_tag(input, 0, get.as_slice()), GetterType::Get),
        other => (other, GetterType::Gets),
    };
    let a = match name {
        Step::Done(a) => a,
        Step::Incomplete(n) => {
            return IRResult::Incomplete(n);
        },
        Step::Error => {
            return IRResult::Error;
        },
    };
    let b = match take1(input, a, Class::Space) {
        Step::Done(b) => b,
        Step::Incomplete(n) => {
            return IRResult::Incomplete(n);
        },
        Step::Error => {
            return IRResult::Error;
        },
    };
    match take_keys(input, b) {
        (Step::Done(end), keys) => IRResult::Done(
            (slice_subrange(input, end, input.len()), Request::Getter { getter: kind, keys }),
        ),
        (Step::Incomplete(n), _) => IRResult::Incomplete(n),
        (Step::Error, _) => IRResult::Error,
    }
}

/// The name of a storage command.
fn take_setter_name(input: &[u8]) -> (r: (Step, SetterType))
    ensures
        r == setter_name(input@),
        r.0 matches Step::Done(e) ==> e <= input@.len(),
{
    let set: [u8; 3] = [115, 101, 116];
    let add: [u8; 3] = [97, 100, 100];
    let replace: [u8; 7] = [114, 101, 112, 108, 97, 99, 101];
    let append: [u8; 6] = [97, 112, 112, 101, 110, 100];
    let prepend: [u8; 7] = [112, 114, 101, 112, 101, 110, 100];
    assert(set@ =~= word_set());
    assert(add@ =~= word_add());
    assert(replace@ =~= word_replace());
    assert(append@ =~= word_append());
    assert(prepend@ =~= word_prepend());
    match take_tag(input, 0, set.as_slice()) {
        Step::Error => match take_tag(input, 0, add.as_slice()) {
            Step::Error => match take_tag(input, 0, replace.as_slice()) {
                Step::Error => match take_tag(input, 0, append.as_slice()) {
                    Step::Error => (take_tag(input, 0, prepend.as_slice()), SetterType::Prepend),
                    other => (other, SetterType::Append),
                },
                other => (other, SetterType::Replace),
            },
            other => (other, SetterType::Add),
        },
        other => (other, SetterType::Store),
    }
}

/// A storage command from the end of its numbers on.
fn parse_setter_tail(
    input: &[u8],
    kind: SetterType,
    key: Vec<u8>,
    flags: u32,
    ttl: u32,
    bytes: usize,
    k: usize,
) -> (r: IRResult<'_, Request>)
    requires
        k <= input@.len(),
    ensures
        agrees(r, input@, setter_tail(input@, kind, key@, flags, ttl, bytes, k as int)),
{
    let newline: [u8; 2] = [13, 10];
    assert(newline@ =~= crlf());
    let (m, no_reply) = match take_line_end(input, k) {
        (Step::Done(m), no_reply) => (m, no_reply),
        (Step::Incomplete(n), _) => {
            return IRResult::Incomplete(n);
        },
        (Step::Error, _) => {
            return IRResult::Error;
        },
    };
    let len = input.len();
    if len - m < bytes {
        return IRResult::Incomplete(bytes - (len - m));
    }
    let p = match take_find_crlf(input, m + bytes) {
        Step::Done(p) => p,
        Step::Incomplete(n) => {
            return IRResult::Incomplete(n);
        },
        Step::Error => {
            return IRResult::Error;
        },
    };
    match take_tag(input, p, newline.as_slice()) {
        Step::Done(end) => IRResult::Done(
            (
                slice_subrange(input, end, len),
                Request::Setter {
                    setter: kind,
                    key,
                    flags,
                    ttl,
                    bytes,
                    payload: copy_range(input, m, p),
                    no_reply,
                },
            ),
        ),
        Step::Incomplete(n) => IRResult::Incomplete(n),
        Step::Error => IRResult::Error,
    }
}

/// A storage command.
fn parse_setter(input: &[u8]) -> (r: IRResult<'_, Request>)
    ensures
        agrees(r, input@, setter(input@)),
{
    let (name, kind) = take_setter_name(input);
    let a = match name {
        Step::Done(a) => a,
        Step::Incomplete(n) => {
            return IRResult::Incomplete(n);
        },
        Step::Error => {
            return IRResult::Error;
        },
    };
    let b = match take1(input, a, Class::Space) {
        Step::Done(x) => x,
        Step::Incomplete(n) => {
            return IRResult::Incomplete(n);
        },
        Step::Error => {
            return IRResult::Error;
        },
    };
    let c = match take1(input, b, Class::Key) {
        Step::Done(x) => x,
        Step::Incomplete(n) => {
            return IRResult::Incomplete(n);
        },
        Step::Error => {
            return IRResult::Error;
        },
    };
    let d = match take1(input, c, Class::Space) {
        Step::Done(x) => x,
        Step::Incomplete(n) => {
            return IRResult::Incomplete(n);
        },
        Step::Error => {
            return IRResult::Error;
        },
    };
    let (e, flags) = match take_number(input, d, u32::MAX as u64) {
        (Step::Done(x), v) => (x, v),
        (Step::Incomplete(n), _) => {
            return IRResult::Incomplete(n);
        },
        (Step::Error, _) => {
            return IRResult::Error;
        },
    };
    let f = match take1(input, e, Class::Space) {
        Step::Done(x) => x,
        Step::Incomplete(n) => {
            return IRResult::Incomplete(n);
        },
        Step::Error => {
            return IRResult::Error;
        },
    };
    let (g, ttl) = match take_number(input, f, u32::MAX as u64) {
        (Step::Done(x), v) => (x, v),
        (Step::Incomplete(n), _) => {
            return IRResult::Incomplete(n);
        },
        (Step::Error, _) => {
            return IRResult::Error;
        },
    };
    let h = match take1(input, g, Class::Space) {
        Step::Done(x) => x,
        Step::Incomplete(n) => {
            return IRResult::Incomplete(n);
        },
        Step::Error => {
            return IRResult::Error;
        },
    };
    let (k, bytes) = match take_number(input, h, usize::MAX as u64) {
        (Step::Done(x), v) => (x, v),
        (Step::Incomplete(n), _) => {
            return IRResult::Incomplete(n);
        },
        (Step::Error, _) => {
            return IRResult::Error;
        },
    };
    let key = copy_range(input, b, c);
    parse_setter_tail(input, kind, key, flags as u32, ttl as u32, bytes as usize, k)
}

/// A deletion.
fn parse_deleter(input: &[u8]) -> (r: IRResult<'_, Request>)
    ensures
        agrees(r, input@, deleter(input@)),
{
    let delete: [u8; 6] = [100, 101, 108, 101, 116, 101];
    assert(delete@ =~= word_delete());
    let a = match take_tag(input, 0, delete.as_slice()) {
        Step::Done(a) => a,
        Step::Incomplete(n) => {
            return IRResult::Incomplete(n);
        },
        Step::Error => {
            return IRResult::Error;
        },
    };
    let b = match take1(input, a, Class::Space) {
        Step::Done(x) => x,
        Step::Incomplete(n) => {
            return IRResult::Incomplete(n);
        },
        Step::Error => {
            return IRResult::Error;
        },
    };
    let c = match take1(input, b, Class::Key) {
        Step::Done(x) => x,
        Step::Incomplete(n) => {
            return IRResult::Incomplete(n);
        },
        Step::Error => {
            return IRResult::Error;
        },
    };
    match take_line_end(input, c) {
        (Step::Done(end), no_reply) => IRResult::Done(
            (
                slice_subrange(input, end, input.len()),
                Request::Deleter { key: copy_range(input, b, c), no_reply },
            ),
        ),
        (Step::Incomplete(n), _) => IRResult::Incomplete(n),
        (Step::Error, _) => IRResult::Error,
    }
}

/// Reads a request from the front of the input. Returns the request
/// and the input behind it; or how many bytes are wanted at least, where
/// the input ends before the request does; or that the input is no
/// request.
pub fn parse(input: &[u8]) -> (r: IRResult<'_, Request>)
    ensures
        agrees(r, input@, request(input@)),
{
    match parse_getter(input) {
        IRResult::Error => match parse_setter(input) {
            IRResult::Error => parse_deleter(input),
            other => other,
        },
        other => other,
    }
}

/// Whether a request asked for no reply.
pub fn unwrap_no_reply(x: Option<&[u8]>) -> (b: bool)
    ensures
        b == x.is_some(),
{
    x.is_some()
}

/// An unsigned 32-bit number in decimal at the front of the input:
/// where it ends and its value.
pub fn u32_parser(i: &[u8]) -> (r: (Step, u32))
    ensures
        r.0 == number(i@, 0, u32::MAX as nat),
        r.0 matches Step::Done(e) ==> r.1 == digits_value(i@, 0, e as int),
{
    let (s, v) = take_number(i, 0, u32::MAX as u64);
    (s, v as u32)
}

/// A `usize` in decimal at the front of the input: where it ends and its
/// value.
pub fn usize_parser(i: &[u8]) -> (r: (Step, usize))
    ensures
        r.0 == number(i@, 0, usize::MAX as nat),
        r.0 matches Step::Done(e) ==> r.1 == digits_value(i@, 0, e as int),
{
    let (s, v) = take_number(i, 0, usize::MAX as u64);
    (s, v as usize)
}

/// The kind of retrieval command that a name stands for.
pub fn to_getter_type(x: &[u8]) -> (t: Option<GetterType>)
    ensures
        t == (if x@ == word_get() {
            Some(GetterType::Get)
        } else if x@ == word_gets() {
            Some(GetterType::Gets)
        } else {
            None
        }),
{
    let gets: [u8; 4] = [103, 101, 116, 115];
    let get: [u8; 3] = [103, 101, 116];
    assert(gets@ =~= word_gets());
    assert(get@ =~= word_get());
    if crate::util::bytes_eq(x, get.as_slice()) {
        Some(GetterType::Get)
    } else if crate::util::bytes_eq(x, gets.as_slice()) {
        Some(GetterType::Gets)
    } else {
        None
    }
}

/// The kind of storage command that a name stands for.
pub fn to_setter_type(x: &[u8]) -> (t: Option<SetterType>)
    ensures
        t == (if x@ == word_set() {
            Some(SetterType::Store)
        } else if x@ == word_add() {
            Some(SetterType::Add)
        } else if x@ == word_replace() {
            Some(SetterType::Replace)
        } else if x@ == word_append() {
            Some(SetterType::Append)
        } else if x@ == word_prepend() {
            Some(SetterType::Prepend)
        } else {
            None
        }),
{
    let set: [u8; 3] = [115, 101, 116];
    let add: [u8; 3] = [97, 100, 100];
    let replace: [u8; 7] = [114, 101, 112, 108, 97, 99, 101];
    let append: [u8; 6] = [97, 112, 112, 101, 110, 100];
    let prepend: [u8; 7] = [112, 114, 101, 112, 101, 110, 100];
    assert(set@ =~= word_set());
    assert(add@ =~= word_add());
    assert(replace@ =~= word_replace());
    assert(append@ =~= word_append());
    assert(prepend@ =~= word_prepend());
    if crate::util::bytes_eq(x, set.as_slice()) {
        Some(SetterType::Store)
    } else if crate::util::bytes_eq(x, add.as_slice()) {
        Some(SetterType::Add)
    } else if crate::util::bytes_eq(x, replace.as_slice()) {
        Some(SetterType::Replace)
    } else if crate::util::bytes_eq(x, append.as_slice()) {
        Some(SetterType::Append)
    } else if crate::util::bytes_eq(x, prepend.as_slice()) {
        Some(SetterType::Prepend)
    } else {
        None
    }
}

} // verus!
