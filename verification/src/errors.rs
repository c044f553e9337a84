//! What can go wrong, by kind.

use crate::bytes::{decimal, decimal_bytes, lit, text};
use vstd::prelude::*;
use vstd::string::*;

verus! {

/// Why an index file was not read.
#[derive(Clone, Copy, Debug, PartialEq, Eq, Structural)]
pub enum IndexFault {
    /// The index is locked by a write that has not finished.
    Locked,
    /// The file does not begin with `DIRC`.
    BadSignature,
    /// The version is neither 2 nor 3.
    UnsupportedVersion(u32),
    /// The file ends too early, or an entry cannot be read.
    Malformed,
    /// The last twenty bytes are not the SHA-1 of what stands before them.
    BadChecksum,
}

/// The four kinds of object.
#[derive(Clone, Copy, Debug, PartialEq, Eq, Structural)]
pub enum ObjectKind {
    Blob,
    Commit,
    Tree,
    Tag,
}

/// The name of a kind, as it stands in an object's header.
pub open spec fn kind_name(kind: ObjectKind) -> Seq<u8> {
    match kind {
        ObjectKind::Blob => text("blob"@),
        ObjectKind::Commit => text("commit"@),
        ObjectKind::Tree => text("tree"@),
        ObjectKind::Tag => text("tag"@),
    }
}

impl ObjectKind {
    /// The name of the kind: `blob`, `commit`, `tree` or `tag`.
    pub fn type_str(&self) -> (name: Vec<u8>)
        ensures
            name@ == kind_name(*self),
    {
        proof {
            reveal_strlit("blob");
            reveal_strlit("commit");
            reveal_strlit("tree");
            reveal_strlit("tag");
        }
        match self {
            ObjectKind::Blob => lit("blob"),
            ObjectKind::Commit => lit("commit"),
            ObjectKind::Tree => lit("tree"),
            ObjectKind::Tag => lit("tag"),
        }
    }
}

/// An error of the library. Paths, names and messages are byte strings.
#[derive(Clone, Debug, PartialEq, Eq)]
pub enum PidgitError {
    /// A failure with nothing but a message.
    Generic(Vec<u8>),
    /// Bytes that should have been text were not.
    Encoding,
    /// No object of that name, or more than one, or a name too short.
    ObjectNotFound(Vec<u8>),
    /// No ref of that name.
    RefNotFound(Vec<u8>),
    /// The object is not of the kind that was asked for.
    InvalidObject(ObjectKind),
    /// The name breaks the rules for ref names.
    InvalidRefName(Vec<u8>),
    /// The path to add does not exist.
    PathspecNotFound(Vec<u8>),
    /// The index file could not be read.
    Index(IndexFault),
    /// The lock file was there already.
    Lock(Vec<u8>),
}

/// The text of an index fault.
pub open spec fn fault_text(fault: IndexFault) -> Seq<u8> {
    match fault {
        IndexFault::Locked => text("index file is locked; cannot read"@),
        IndexFault::BadSignature => text("malformed index header"@),
        IndexFault::UnsupportedVersion(v) => text("unsupported index version (want 2/3, have "@)
            + decimal(v as nat) + text(")"@),
        IndexFault::Malformed => text("malformed index entry"@),
        IndexFault::BadChecksum => text("index checksum does not match"@),
    }
}

/// The message of an error, as it is shown after `fatal: `.
pub open spec fn message_of(e: PidgitError) -> Seq<u8> {
    match e {
        PidgitError::Generic(m) => m@,
        PidgitError::Encoding => text("invalid encoding"@),
        PidgitError::ObjectNotFound(name) => text("object not found: "@) + name@,
        PidgitError::RefNotFound(name) => text("ref not found: "@) + name@,
        PidgitError::InvalidObject(kind) => text("invalid object type: not a "@) + kind_name(kind),
        PidgitError::InvalidRefName(name) => text("invalid ref name: "@) + name@,
        PidgitError::PathspecNotFound(path) => text("pathspec '"@) + path@ + text(
            "' did not match any files"@,
        ),
        PidgitError::Index(fault) => text("could not parse index file: "@) + fault_text(fault),
        PidgitError::Lock(path) => text("could not lock "@) + path@,
    }
}

impl IndexFault {
    /// What the fault says.
    pub fn message(&self) -> (out: Vec<u8>)
        ensures
            out@ == fault_text(*self),
    {
        proof {
            reveal_strlit("index file is locked; cannot read");
            reveal_strlit("malformed index header");
            reveal_strlit("unsupported index version (want 2/3, have ");
            reveal_strlit(")");
            reveal_strlit("malformed index entry");
            reveal_strlit("index checksum does not match");
        }
        match self {
            IndexFault::Locked => lit("index file is locked; cannot read"),
            IndexFault::BadSignature => lit("malformed index header"),
            IndexFault::UnsupportedVersion(v) => {
                let mut out = lit("unsupported index version (want 2/3, have ");
                let digits = decimal_bytes(*v as u64);
                out.extend_from_slice(digits.as_slice());
                let tail = lit(")");
                out.extend_from_slice(tail.as_slice());
                out
            },
            IndexFault::Malformed => lit("malformed index entry"),
            IndexFault::BadChecksum => lit("index checksum does not match"),
        }
    }
}

fn prefixed(prefix: &str, rest: &[u8]) -> (out: Vec<u8>)
    requires
        is_ascii(prefix),
    ensures
        out@ == text(prefix@) + rest@,
{
    let mut out = lit(prefix);
    out.extend_from_slice(rest);
    out
}

impl PidgitError {
    /// The message of the error, as it is shown after `fatal: `.
    pub fn message(&self) -> (out: Vec<u8>)
        ensures
            out@ == message_of(*self),
    {
        proof {
            reveal_strlit("invalid encoding");
            reveal_strlit("object not found: ");
            reveal_strlit("ref not found: ");
            reveal_strlit("invalid object type: not a ");
            reveal_strlit("invalid ref name: ");
            reveal_strlit("pathspec '");
            reveal_strlit("' did not match any files");
            reveal_strlit("could not parse index file: ");
            reveal_strlit("could not lock ");
        }
        match self {
            PidgitError::Generic(m) => crate::bytes::copy_bytes(m.as_slice()),
            PidgitError::Encoding => lit("invalid encoding"),
            PidgitError::ObjectNotFound(name) => prefixed("object not found: ", name.as_slice()),
            PidgitError::RefNotFound(name) => prefixed("ref not found: ", name.as_slice()),
            PidgitError::InvalidObject(kind) => {
                let name = kind.type_str();
                prefixed("invalid object type: not a ", name.as_slice())
            },
            PidgitError::InvalidRefName(name) => prefixed("invalid ref name: ", name.as_slice()),
            PidgitError::PathspecNotFound(path) => {
                let mut out = prefixed("pathspec '", path.as_slice());
                let tail = lit("' did not match any files");
                out.extend_from_slice(tail.as_slice());
                out
            },
            PidgitError::Index(fault) => {
                let inner = fault.message();
                prefixed("could not parse index file: ", inner.as_slice())
            },
            PidgitError::Lock(path) => prefixed("could not lock ", path.as_slice()),
        }
    }
}

} // verus!
