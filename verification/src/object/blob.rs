//! Blobs: the content of a file, with no structure.

use crate::bytes::copy_bytes;
use vstd::prelude::*;

verus! {

/// The content of a file.
#[derive(Debug)]
pub struct Blob {
    content: Vec<u8>,
}

impl View for Blob {
    type V = Seq<u8>;

    /// The content.
    closed spec fn view(&self) -> Seq<u8> {
        self.content@
    }
}

impl Blob {
    pub fn from_content(content: Vec<u8>) -> (b: Blob)
        ensures
            b@ == content@,
    {
        Blob { content }
    }

    /// The body of the blob object: the content.
    pub fn raw_content(&self) -> (out: Vec<u8>)
        ensures
            out@ == self@,
    {
        copy_bytes(self.content.as_slice())
    }

    /// The content.
    pub fn content(&self) -> (c: &Vec<u8>)
        ensures
            c@ == self@,
    {
        &self.content
    }
}

} // verus!
