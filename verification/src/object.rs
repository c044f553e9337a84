//! Objects: blobs, trees, commits and tags, and how one stands in a loose
//! object file.

pub mod blob;
pub mod snapshot;
pub mod commit;
pub mod tag;
pub mod tree;

use crate::bytes::{
    bytes_eq, decimal, find_byte, index_of, lemma_decimal, lemma_index_of_is, lit, slice_range,
    text,
};
use crate::errors::{kind_name, ObjectKind, PidgitError};
use crate::object::blob::Blob;
use crate::object::commit::{first_word, parsed_commit, Commit};
use crate::object::tag::Tag;
use crate::object::tree::{lemma_read_then_written, parse_records, tree_body, Tree};
use crate::sha::{header_bytes, object_header, object_id, Sha};
use std::io::Read;
use std::io::Write;
use vstd::prelude::*;
use vstd::string::*;

verus! {

/// What `flate2` writes for a byte string with zlib at its default level.
pub uninterp spec fn zlib_deflated(data: Seq<u8>) -> Seq<u8>;

/// What `flate2` reads from a zlib stream; `None` where the bytes are no
/// such stream.
pub uninterp spec fn zlib_inflated(data: Seq<u8>) -> Option<Seq<u8>>;

/// Calls `flate2::write::ZlibEncoder` on a vector, with
/// `Compression::default()`: `write_all`, then `finish`. The contract names
/// the stream that comes back, and says that it is read back as the input.
#[verifier::external_body]
fn deflate(data: &[u8]) -> (out: Vec<u8>)
    ensures
        out@ == zlib_deflated(data@),
        zlib_inflated(out@) == Some(data@),
{
    let mut encoder = flate2::write::ZlibEncoder::new(Vec::new(), flate2::Compression::default());
    encoder.write_all(data).unwrap();
    encoder.finish().unwrap()
}

/// Calls `flate2::read::ZlibDecoder` on the bytes and reads it to the
/// end. The contract names what comes back.
#[verifier::external_body]
fn inflate(data: &[u8]) -> (out: Option<Vec<u8>>)
    ensures
        out is Some <==> zlib_inflated(data@) is Some,
        out matches Some(v) ==> zlib_inflated(data@) == Some(v@),
{
    let mut plain = Vec::new();
    flate2::read::ZlibDecoder::new(data).read_to_end(&mut plain).ok()?;
    Some(plain)
}

/// The kind that a type word of an object header names.
pub open spec fn kind_of_name(name: Seq<u8>) -> Option<ObjectKind> {
    if name == text("blob"@) {
        Some(ObjectKind::Blob)
    } else if name == text("commit"@) {
        Some(ObjectKind::Commit)
    } else if name == text("tag"@) {
        Some(ObjectKind::Tag)
    } else if name == text("tree"@) {
        Some(ObjectKind::Tree)
    } else {
        None
    }
}

/// An object before it is compressed: its header and its body.
pub open spec fn framed(kind: ObjectKind, body: Seq<u8>) -> Seq<u8> {
    object_header(kind_name(kind), body.len()) + body
}

/// A loose object file: the framed object, compressed.
pub open spec fn loose(kind: ObjectKind, body: Seq<u8>) -> Seq<u8> {
    zlib_deflated(framed(kind, body))
}

/// The kind and body of a framed object: the header ends at the first
/// NUL, its first word names the kind, and the body is all that follows.
/// `None` where there is no NUL or the word names no kind.
pub open spec fn unframed(plain: Seq<u8>) -> Option<(ObjectKind, Seq<u8>)> {
    let nul = index_of(plain, 0, 0);
    if nul >= plain.len() {
        None
    } else {
        match kind_of_name(first_word(plain.subrange(0, nul))) {
            Some(kind) => Some((kind, plain.subrange(nul + 1, plain.len() as int))),
            None => None,
        }
    }
}

/// Whether a body of the given kind can be read as an object.
pub open spec fn readable(kind: ObjectKind, body: Seq<u8>) -> bool {
    match kind {
        ObjectKind::Commit => parsed_commit(body) is Some,
        ObjectKind::Tree => parse_records(body, 0) is Some,
        _ => true,
    }
}

/// The kind and body that a loose object file holds.
pub open spec fn loose_content(stored: Seq<u8>) -> Option<(ObjectKind, Seq<u8>)> {
    match zlib_inflated(stored) {
        Some(plain) => unframed(plain),
        None => None,
    }
}

/// Framing and unframing give the kind and the body back.
pub proof fn lemma_frame_round(kind: ObjectKind, body: Seq<u8>)
    ensures
        unframed(framed(kind, body)) == Some((kind, body)),
{
    reveal_strlit("blob");
    reveal_strlit("commit");
    reveal_strlit("tag");
    reveal_strlit("tree");
    let name = kind_name(kind);
    let digits = decimal(body.len());
    lemma_decimal(body.len());
    let header = object_header(name, body.len());
    let plain = framed(kind, body);
    let nul: int = (name.len() + 1 + digits.len()) as int;
    assert(header.len() == nul + 1);
    assert forall|j: int| 0 <= j < nul implies plain[j] != 0 by {
        if j < name.len() {
            assert(plain[j] == name[j]);
        } else if j == name.len() {
            assert(plain[j] == 0x20);
        } else {
            assert(plain[j] == digits[j - name.len() - 1]);
            assert(crate::bytes::is_digit(digits[j - name.len() - 1]));
        }
    }
    assert(plain[nul] == 0);
    lemma_index_of_is(plain, 0, 0, nul);
    let head = plain.subrange(0, nul);
    assert forall|j: int| 0 <= j < name.len() implies head[j] != 0x20 by {
        assert(head[j] == name[j]);
    }
    assert(head[name.len() as int] == 0x20);
    lemma_index_of_is(head, 0x20, 0, name.len() as int);
    assert(first_word(head) =~= name);
    assert(plain.subrange(nul + 1, plain.len() as int) =~= body);
}

/// An object of one of the four kinds.
#[derive(Debug)]
pub enum Object {
    Blob(Blob),
    Commit(Commit),
    Tree(Tree),
    Tag(Tag),
}

impl Object {
    /// The kind of the object.
    pub open spec fn spec_kind(&self) -> ObjectKind {
        match self {
            Object::Blob(_) => ObjectKind::Blob,
            Object::Commit(_) => ObjectKind::Commit,
            Object::Tree(_) => ObjectKind::Tree,
            Object::Tag(_) => ObjectKind::Tag,
        }
    }

    /// The body of the object.
    pub open spec fn body(&self) -> Seq<u8> {
        match self {
            Object::Blob(b) => b@,
            Object::Commit(c) => c@.content,
            Object::Tree(t) => tree_body(t@.entries),
            Object::Tag(t) => t@,
        }
    }

    /// The identity of the object: the SHA-1 of its header and body.
    pub open spec fn id(&self) -> Seq<u8> {
        object_id(kind_name(self.spec_kind()), self.body())
    }

    /// The object is what its body reads as: a commit has the fields,
    /// and a tree the entries, that are read from the body.
    pub open spec fn faithful(&self) -> bool {
        match self {
            Object::Commit(c) => Some(c@) == crate::object::commit::parsed_commit(self.body()),
            Object::Tree(t) => t.wf() && Some(t@.entries) == crate::object::tree::parse_records(
                self.body(),
                0,
            ),
            _ => true,
        }
    }

    /// The object of the given kind that a body holds. `None` where the
    /// body of a commit or of a tree cannot be read.
    pub fn parse(kind: ObjectKind, body: Vec<u8>) -> (o: Option<Object>)
        ensures
            o is Some <==> (match kind {
                ObjectKind::Commit => parsed_commit(body@) is Some,
                ObjectKind::Tree => parse_records(body@, 0) is Some,
                _ => true,
            }),
            o matches Some(obj) ==> obj.spec_kind() == kind && obj.body() == body@ && (match obj {
                Object::Commit(c) => Some(c@) == parsed_commit(body@),
                Object::Tree(t) => t.wf() && Some(t@.entries) == parse_records(body@, 0),
                _ => true,
            }),
    {
        match kind {
            ObjectKind::Blob => Some(Object::Blob(Blob::from_content(body))),
            ObjectKind::Tag => Some(Object::Tag(Tag::from_content(body))),
            ObjectKind::Commit => match Commit::from_content(body) {
                Some(c) => Some(Object::Commit(c)),
                None => None,
            },
            ObjectKind::Tree => {
                proof {
                    if parse_records(body@, 0) is Some {
                        lemma_read_then_written(body@, 0);
                        assert(body@.subrange(0, body@.len() as int) =~= body@);
                    }
                }
                match Tree::from_content(body.as_slice()) {
                    Some(t) => Some(Object::Tree(t)),
                    None => None,
                }
            },
        }
    }

    /// The kind and body of a framed object.
    pub fn unframe(plain: &[u8]) -> (r: Option<(ObjectKind, Vec<u8>)>)
        ensures
            r is Some <==> unframed(plain@) is Some,
            r matches Some(pair) ==> unframed(plain@) == Some((pair.0, pair.1@)),
    {
        proof {
            reveal_strlit("blob");
            reveal_strlit("commit");
            reveal_strlit("tag");
            reveal_strlit("tree");
        }
        let len = plain.len();
        let nul = find_byte(plain, 0, 0);
        if nul >= len {
            return None;
        }
        let head = slice_range(plain, 0, nul);
        let sp = find_byte(head.as_slice(), 0x20, 0);
        let word = slice_range(head.as_slice(), 0, sp);
        let blob = lit("blob");
        let commit = lit("commit");
        let tag = lit("tag");
        let tree = lit("tree");
        let kind = if bytes_eq(word.as_slice(), blob.as_slice()) {
            ObjectKind::Blob
        } else if bytes_eq(word.as_slice(), commit.as_slice()) {
            ObjectKind::Commit
        } else if bytes_eq(word.as_slice(), tag.as_slice()) {
            ObjectKind::Tag
        } else if bytes_eq(word.as_slice(), tree.as_slice()) {
            ObjectKind::Tree
        } else {
            return None;
        };
        Some((kind, slice_range(plain, nul + 1, len)))
    }

    /// The object that a loose object file holds. `None` where the file
    /// is no zlib stream, has no header of one of the four kinds, or holds
    /// a commit or a tree that cannot be read.
    pub fn from_git_db(stored: &[u8]) -> (o: Option<Object>)
        ensures
            o is Some <==> (loose_content(stored@) matches Some((kind, body)) && readable(
                kind,
                body,
            )),
            o matches Some(obj) ==> {
                &&& loose_content(stored@) == Some((obj.spec_kind(), obj.body()))
                &&& obj matches Object::Commit(c) ==> Some(c@) == parsed_commit(obj.body())
                &&& obj matches Object::Tree(t) ==> t.wf() && Some(t@.entries) == parse_records(
                    obj.body(),
                    0,
                )
            },
    {
        let plain = match inflate(stored) {
            Some(p) => p,
            None => {
                return None;
            },
        };
        match Object::unframe(plain.as_slice()) {
            Some(pair) => Object::parse(pair.0, pair.1),
            None => None,
        }
    }

    /// The loose object file for an object of the given kind and body.
    /// The file is read back as that kind and body.
    pub fn to_loose(kind: ObjectKind, body: &[u8]) -> (stored: Vec<u8>)
        ensures
            stored@ == loose(kind, body@),
            zlib_inflated(stored@) == Some(framed(kind, body@)),
            loose_content(stored@) == Some((kind, body@)),
    {
        proof {
            lemma_frame_round(kind, body@);
        }
        let plain = Object::frame(kind, body);
        deflate(plain.as_slice())
    }

    /// An object before it is compressed: its header and its body.
    pub fn frame(kind: ObjectKind, body: &[u8]) -> (plain: Vec<u8>)
        ensures
            plain@ == framed(kind, body@),
    {
        let name = kind.type_str();
        let mut plain = header_bytes(name.as_slice(), body.len());
        plain.extend_from_slice(body);
        assert(plain@ =~= framed(kind, body@));
        plain
    }

    /// The kind of the object.
    pub fn kind(&self) -> (k: ObjectKind)
        ensures
            k == self.spec_kind(),
    {
        match self {
            Object::Blob(_) => ObjectKind::Blob,
            Object::Commit(_) => ObjectKind::Commit,
            Object::Tree(_) => ObjectKind::Tree,
            Object::Tag(_) => ObjectKind::Tag,
        }
    }

    /// The name of the kind: `blob`, `commit`, `tree` or `tag`.
    pub fn type_str(&self) -> (name: Vec<u8>)
        ensures
            name@ == kind_name(self.spec_kind()),
    {
        self.kind().type_str()
    }

    /// The body of the object.
    pub fn raw_content(&self) -> (out: Vec<u8>)
        ensures
            out@ == self.body(),
    {
        match self {
            Object::Blob(b) => b.raw_content(),
            Object::Commit(c) => c.raw_content(),
            Object::Tree(t) => t.raw_content(),
            Object::Tag(t) => t.raw_content(),
        }
    }

    /// The length of the body.
    pub fn size(&self) -> (n: usize)
        ensures
            n == self.body().len(),
    {
        self.raw_content().len()
    }

    /// The header of the object: kind, a space, the length of the body,
    /// and a NUL.
    pub fn header(&self) -> (out: Vec<u8>)
        ensures
            out@ == object_header(kind_name(self.spec_kind()), self.body().len()),
    {
        let name = self.type_str();
        header_bytes(name.as_slice(), self.size())
    }

    /// The identity of the object.
    pub fn sha(&self) -> (s: Sha)
        ensures
            s.wf(),
            s@ == self.id(),
    {
        let name = self.type_str();
        let body = self.raw_content();
        Sha::header_and_body(name.as_slice(), body.as_slice())
    }

    /// The loose object file for this object.
    pub fn loose_bytes(&self) -> (stored: Vec<u8>)
        ensures
            stored@ == loose(self.spec_kind(), self.body()),
            zlib_inflated(stored@) == Some(framed(self.spec_kind(), self.body())),
            loose_content(stored@) == Some((self.spec_kind(), self.body())),
    {
        let body = self.raw_content();
        Object::to_loose(self.kind(), body.as_slice())
    }

    /// The blob, where the object is one.
    pub fn as_blob(self) -> (r: Result<Blob, PidgitError>)
        ensures
            match self {
                Object::Blob(b) => r == Ok::<Blob, PidgitError>(b),
                _ => r == Err::<Blob, PidgitError>(PidgitError::InvalidObject(ObjectKind::Blob)),
            },
    {
        match self {
            Object::Blob(b) => Ok(b),
            _ => Err(PidgitError::InvalidObject(ObjectKind::Blob)),
        }
    }

    /// The commit, where the object is one.
    pub fn as_commit(self) -> (r: Result<Commit, PidgitError>)
        ensures
            match self {
                Object::Commit(c) => r == Ok::<Commit, PidgitError>(c),
                _ => r == Err::<Commit, PidgitError>(PidgitError::InvalidObject(ObjectKind::Commit)),
            },
    {
        match self {
            Object::Commit(c) => Ok(c),
            _ => Err(PidgitError::InvalidObject(ObjectKind::Commit)),
        }
    }

    /// The tag, where the object is one.
    pub fn as_tag(self) -> (r: Result<Tag, PidgitError>)
        ensures
            match self {
                Object::Tag(t) => r == Ok::<Tag, PidgitError>(t),
                _ => r == Err::<Tag, PidgitError>(PidgitError::InvalidObject(ObjectKind::Tag)),
            },
    {
        match self {
            Object::Tag(t) => Ok(t),
            _ => Err(PidgitError::InvalidObject(ObjectKind::Tag)),
        }
    }

    /// The tree, where the object is one.
    pub fn as_tree(self) -> (r: Result<Tree, PidgitError>)
        ensures
            match self {
                Object::Tree(t) => r == Ok::<Tree, PidgitError>(t),
                _ => r == Err::<Tree, PidgitError>(PidgitError::InvalidObject(ObjectKind::Tree)),
            },
    {
        match self {
            Object::Tree(t) => Ok(t),
            _ => Err(PidgitError::InvalidObject(ObjectKind::Tree)),
        }
    }

    /// The object as it is shown: a tree as its lines, any other as its
    /// body.
    pub fn pretty(&self) -> (out: Vec<u8>)
        requires
            self matches Object::Tree(t) ==> t.wf(),
        ensures
            out@ == (match self {
                Object::Tree(t) => crate::object::tree::pretty_text(
                    t@.entries,
                    t@.entries.len() as int,
                ),
                _ => self.body(),
            }),
    {
        match self {
            Object::Tree(t) => t.pretty(),
            _ => self.raw_content(),
        }
    }
}

} // verus!
