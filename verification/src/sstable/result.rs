//! The error taxonomy of the storage engine.

use vstd::prelude::*;

verus! {

/// What went wrong.
#[derive(Debug, Clone, Copy, PartialEq, Eq, Structural)]
pub enum StatusCode {
    NotFound,
    IOError,
    ChecksumError,
    SnapError,
    CompressError,
    InvalidData,
}

/// An error: its kind and a message for people.
#[derive(Debug)]
pub struct Status {
    pub code: StatusCode,
    pub msg: String,
}

pub type MyResult<T> = Result<T, Status>;

#[verifier::external_type_specification]
#[verifier::external_body]
pub struct ExSnapError(snap::Error);

/// Whether a Snappy error is the `Checksum` variant.
pub uninterp spec fn snap_error_is_checksum(e: snap::Error) -> bool;

/// The fixed description that `snap` gives for an error.
pub uninterp spec fn snap_error_text(e: snap::Error) -> Seq<char>;

/// The name of a status code, as `Debug` prints it.
pub open spec fn code_name(code: StatusCode) -> Seq<char> {
    match code {
        StatusCode::NotFound => "NotFound"@,
        StatusCode::IOError => "IOError"@,
        StatusCode::ChecksumError => "ChecksumError"@,
        StatusCode::SnapError => "SnapError"@,
        StatusCode::CompressError => "CompressError"@,
        StatusCode::InvalidData => "InvalidData"@,
    }
}

/// The message of a status made from a code and a text: the code's name,
/// followed by a colon, a space and the text where there is one.
pub open spec fn status_message(code: StatusCode, text: Seq<char>) -> Seq<char> {
    if text.len() == 0 {
        code_name(code)
    } else {
        code_name(code) + seq![':', ' '] + text
    }
}

/// `format!` with the pattern `"{}: {}"`: the two strings with a colon and
/// a space between them.
#[verifier::external_body]
fn join_with_colon(head: &str, tail: &str) -> (s: String)
    ensures
        s@ == head@ + seq![':', ' '] + tail@,
{
    format!("{}: {}", head, tail)
}

/// Tells `snap::Error::Checksum` from the other variants of `snap::Error`.
#[verifier::external_body]
fn snap_is_checksum(e: &snap::Error) -> (b: bool)
    ensures
        b == snap_error_is_checksum(*e),
{
    matches!(e, snap::Error::Checksum { .. })
}

/// `std::error::Error::description` of a `snap::Error`: the fixed text of
/// its variant.
#[allow(deprecated)]
#[verifier::external_body]
fn snap_description(e: &snap::Error) -> (s: String)
    ensures
        s@ == snap_error_text(*e),
{
    std::error::Error::description(e).to_string()
}

impl StatusCode {
    /// The code's name.
    pub fn name(&self) -> (s: &'static str)
        ensures
            s@ == code_name(*self),
    {
        match self {
            StatusCode::NotFound => "NotFound",
            StatusCode::IOError => "IOError",
            StatusCode::ChecksumError => "ChecksumError",
            StatusCode::SnapError => "SnapError",
            StatusCode::CompressError => "CompressError",
            StatusCode::InvalidData => "InvalidData",
        }
    }
}

impl Status {
    /// A status whose message starts with the code's name.
    pub fn new(code: StatusCode, msg: &str) -> (s: Status)
        ensures
            s.code == code,
            s.msg@ == status_message(code, msg@),
    {
        let text = if msg.is_empty() {
            code.name().to_owned()
        } else {
            join_with_colon(code.name(), msg)
        };
        Status { code, msg: text }
    }

    /// A status that holds `msg` as it is.
    pub fn with_message(code: StatusCode, msg: &str) -> (s: Status)
        ensures
            s.code == code,
            s.msg@ == msg@,
    {
        Status { code, msg: msg.to_owned() }
    }

    /// The status for a failed read or write: `NotFound` where the file was
    /// missing, `IOError` otherwise.
    pub fn from_io(not_found: bool, description: &str) -> (s: Status)
        ensures
            s.code == (if not_found {
                StatusCode::NotFound
            } else {
                StatusCode::IOError
            }),
            s.msg@ == status_message(s.code, description@),
    {
        let code = if not_found {
            StatusCode::NotFound
        } else {
            StatusCode::IOError
        };
        Status::new(code, description)
    }

    /// The status for a Snappy error: `ChecksumError` for a checksum
    /// mismatch, `SnapError` for every other.
    pub fn from_snap(e: snap::Error) -> (s: Status)
        ensures
            s.code == (if snap_error_is_checksum(e) {
                StatusCode::ChecksumError
            } else {
                StatusCode::SnapError
            }),
            s.msg@ == status_message(s.code, snap_error_text(e)),
    {
        let code = if snap_is_checksum(&e) {
            StatusCode::ChecksumError
        } else {
            StatusCode::SnapError
        };
        let text = snap_description(&e);
        Status::new(code, text.as_str())
    }
}

/// `Err` with a status that holds `msg` as it is.
pub fn err<T>(code: StatusCode, msg: &str) -> (r: Result<T, Status>)
    ensures
        r matches Err(s) && s.code == code && s.msg@ == msg@,
{
    Err(Status::with_message(code, msg))
}

} // verus!
