//! Tags: kept as the bytes of their body.

use crate::bytes::copy_bytes;
use vstd::prelude::*;

verus! {

/// An annotated tag, unread.
#[derive(Debug)]
pub struct Tag {
    content: Vec<u8>,
}

impl View for Tag {
    type V = Seq<u8>;

    /// The body of the tag object.
    closed spec fn view(&self) -> Seq<u8> {
        self.content@
    }
}

impl Tag {
    pub fn from_content(content: Vec<u8>) -> (t: Tag)
        ensures
            t@ == content@,
    {
        Tag { content }
    }

    /// The body of the tag object.
    pub fn raw_content(&self) -> (out: Vec<u8>)
        ensures
            out@ == self@,
    {
        copy_bytes(self.content.as_slice())
    }
}

} // verus!
