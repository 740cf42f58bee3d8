//! The requests of the text protocol.

use vstd::prelude::*;

verus! {

/// Which of the two retrieval commands a request is.
#[derive(Debug, Clone, Copy, PartialEq, Eq, Structural)]
pub enum GetterType {
    Get,
    Gets,
}

/// Which of the five storage commands a request is.
#[derive(Debug, Clone, Copy, PartialEq, Eq, Structural)]
pub enum SetterType {
    Store,
    Add,
    Replace,
    Append,
    Prepend,
}

/// A request.
#[derive(Debug, Clone, PartialEq, Eq)]
pub enum Request {
    Getter { getter: GetterType, keys: Vec<Vec<u8>> },
    Setter {
        setter: SetterType,
        key: Vec<u8>,
        flags: u32,
        ttl: u32,
        bytes: usize,
        payload: Vec<u8>,
        no_reply: bool,
    },
    Deleter { key: Vec<u8>, no_reply: bool },
}

/// A request as the contracts speak of it.
pub enum RequestView {
    Getter { getter: GetterType, keys: Seq<Seq<u8>> },
    Setter {
        setter: SetterType,
        key: Seq<u8>,
        flags: u32,
        ttl: u32,
        bytes: usize,
        payload: Seq<u8>,
        no_reply: bool,
    },
    Deleter { key: Seq<u8>, no_reply: bool },
}

/// The byte strings of a list of vectors.
pub open spec fn keys_view(keys: Seq<Vec<u8>>) -> Seq<Seq<u8>> {
    Seq::new(keys.len(), |i: int| keys[i]@)
}

impl View for Request {
    type V = RequestView;

    open spec fn view(&self) -> RequestView {
        match *self {
            Request::Getter { getter, keys } => RequestView::Getter {
                getter,
                keys: keys_view(keys@),
            },
            Request::Setter { setter, key, flags, ttl, bytes, payload, no_reply } => {
                RequestView::Setter {
                    setter,
                    key: key@,
                    flags,
                    ttl,
                    bytes,
                    payload: payload@,
                    no_reply,
                }
            },
            Request::Deleter { key, no_reply } => RequestView::Deleter { key: key@, no_reply },
        }
    }
}

} // verus!
