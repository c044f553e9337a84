//! The metadata that an index entry keeps of a file.

use crate::bytes::{be32, from_be32, lemma_be32_round, push_be32, read_be32};
use vstd::prelude::*;

verus! {


/// What the file system says of one path, as plain numbers.
#[derive(Clone, Copy, Debug, PartialEq, Eq, Structural)]
pub struct FileStat {
    pub ctime: i64,
    pub ctime_nsec: i64,
    pub mtime: i64,
    pub mtime_nsec: i64,
    pub dev: u64,
    pub ino: u64,
    pub mode: u32,
    pub uid: u32,
    pub gid: u32,
    pub size: u64,
    pub is_dir: bool,
    pub is_file: bool,
}

/// The ten words that an index entry keeps of a file's metadata.
#[derive(Clone, Copy, Debug, PartialEq, Eq, Structural)]
pub struct EntryMeta {
    pub ctime_sec: u32,
    pub ctime_nano: u32,
    pub mtime_sec: u32,
    pub mtime_nano: u32,
    pub dev: u32,
    pub ino: u32,
    pub mode: u32,
    pub uid: u32,
    pub gid: u32,
    pub size: u32,
}

/// The low thirty-two bits of a number.
pub open spec fn low32(x: int) -> u32 {
    (x % 0x1_0000_0000) as u32
}

/// The metadata that an entry keeps of a file: each number cut to its low
/// thirty-two bits.
pub open spec fn meta_of(st: FileStat) -> EntryMeta {
    EntryMeta {
        ctime_sec: low32(st.ctime as int),
        ctime_nano: low32(st.ctime_nsec as int),
        mtime_sec: low32(st.mtime as int),
        mtime_nano: low32(st.mtime_nsec as int),
        dev: low32(st.dev as int),
        ino: low32(st.ino as int),
        mode: st.mode,
        uid: st.uid,
        gid: st.gid,
        size: low32(st.size as int),
    }
}

/// The forty bytes of the metadata: ten big-endian words.
pub open spec fn meta_bytes(m: EntryMeta) -> Seq<u8> {
    be32(m.ctime_sec) + be32(m.ctime_nano) + be32(m.mtime_sec) + be32(m.mtime_nano) + be32(m.dev)
        + be32(m.ino) + be32(m.mode) + be32(m.uid) + be32(m.gid) + be32(m.size)
}

/// The big-endian word at `at`.
pub open spec fn word_at(b: Seq<u8>, at: int) -> u32 {
    from_be32(b.subrange(at, at + 4))
}

/// The metadata that stands in the forty bytes from `pos`.
pub open spec fn meta_at(b: Seq<u8>, pos: int) -> EntryMeta {
    EntryMeta {
        ctime_sec: word_at(b, pos),
        ctime_nano: word_at(b, pos + 4),
        mtime_sec: word_at(b, pos + 8),
        mtime_nano: word_at(b, pos + 12),
        dev: word_at(b, pos + 16),
        ino: word_at(b, pos + 20),
        mode: word_at(b, pos + 24),
        uid: word_at(b, pos + 28),
        gid: word_at(b, pos + 32),
        size: word_at(b, pos + 36),
    }
}

fn low32_signed(x: i64) -> (r: u32)
    ensures
        r == low32(x as int),
{
    let m: i64 = x % 0x1_0000_0000;
    if m < 0 {
        (m + 0x1_0000_0000) as u32
    } else {
        m as u32
    }
}

fn low32_unsigned(x: u64) -> (r: u32)
    ensures
        r == low32(x as int),
{
    (x % 0x1_0000_0000) as u32
}

impl EntryMeta {
    /// The metadata kept of a file with the given stat.
    pub fn from_stat(st: &FileStat) -> (m: EntryMeta)
        ensures
            m == meta_of(*st),
    {
        EntryMeta {
            ctime_sec: low32_signed(st.ctime),
            ctime_nano: low32_signed(st.ctime_nsec),
            mtime_sec: low32_signed(st.mtime),
            mtime_nano: low32_signed(st.mtime_nsec),
            dev: low32_unsigned(st.dev),
            ino: low32_unsigned(st.ino),
            mode: st.mode,
            uid: st.uid,
            gid: st.gid,
            size: low32_unsigned(st.size),
        }
    }

    /// The forty bytes that stand for this metadata in the index file.
    pub fn as_bytes(&self) -> (out: Vec<u8>)
        ensures
            out@ == meta_bytes(*self),
    {
        let mut out: Vec<u8> = Vec::new();
        push_be32(&mut out, self.ctime_sec);
        push_be32(&mut out, self.ctime_nano);
        push_be32(&mut out, self.mtime_sec);
        push_be32(&mut out, self.mtime_nano);
        push_be32(&mut out, self.dev);
        push_be32(&mut out, self.ino);
        push_be32(&mut out, self.mode);
        push_be32(&mut out, self.uid);
        push_be32(&mut out, self.gid);
        push_be32(&mut out, self.size);
        assert(out@ =~= meta_bytes(*self));
        out
    }

    /// Reads the metadata that stands in the forty bytes from `pos`.
    pub fn read(b: &[u8], pos: usize) -> (m: EntryMeta)
        requires
            pos + 40 <= b@.len(),
        ensures
            m == meta_at(b@, pos as int),
    {
        let _len = b.len();
        EntryMeta {
            ctime_sec: read_be32(b, pos),
            ctime_nano: read_be32(b, pos + 4),
            mtime_sec: read_be32(b, pos + 8),
            mtime_nano: read_be32(b, pos + 12),
            dev: read_be32(b, pos + 16),
            ino: read_be32(b, pos + 20),
            mode: read_be32(b, pos + 24),
            uid: read_be32(b, pos + 28),
            gid: read_be32(b, pos + 32),
            size: read_be32(b, pos + 36),
        }
    }
}

proof fn lemma_word_round(b: Seq<u8>, pos: int, off: int, mb: Seq<u8>, x: u32)
    requires
        0 <= pos,
        0 <= off,
        off + 4 <= 40,
        pos + 40 <= b.len(),
        mb.len() == 40,
        b.subrange(pos, pos + 40) == mb,
        mb.subrange(off, off + 4) == be32(x),
    ensures
        word_at(b, pos + off) == x,
{
    lemma_be32_round(x);
    assert(b.subrange(pos + off, pos + off + 4) =~= b.subrange(pos, pos + 40).subrange(
        off,
        off + 4,
    ));
}

/// Metadata written out and read back is the same metadata.
pub proof fn lemma_meta_round(b: Seq<u8>, pos: int, m: EntryMeta)
    requires
        0 <= pos,
        pos + 40 <= b.len(),
        b.subrange(pos, pos + 40) == meta_bytes(m),
    ensures
        meta_at(b, pos) == m,
        meta_bytes(m).len() == 40,
{
    let mb = meta_bytes(m);
    assert(mb.len() == 40);
    assert(mb.subrange(0, 4) =~= be32(m.ctime_sec));
    assert(mb.subrange(4, 8) =~= be32(m.ctime_nano));
    assert(mb.subrange(8, 12) =~= be32(m.mtime_sec));
    assert(mb.subrange(12, 16) =~= be32(m.mtime_nano));
    assert(mb.subrange(16, 20) =~= be32(m.dev));
    assert(mb.subrange(20, 24) =~= be32(m.ino));
    assert(mb.subrange(24, 28) =~= be32(m.mode));
    assert(mb.subrange(28, 32) =~= be32(m.uid));
    assert(mb.subrange(32, 36) =~= be32(m.gid));
    assert(mb.subrange(36, 40) =~= be32(m.size));
    lemma_word_round(b, pos, 0, mb, m.ctime_sec);
    lemma_word_round(b, pos, 4, mb, m.ctime_nano);
    lemma_word_round(b, pos, 8, mb, m.mtime_sec);
    lemma_word_round(b, pos, 12, mb, m.mtime_nano);
    lemma_word_round(b, pos, 16, mb, m.dev);
    lemma_word_round(b, pos, 20, mb, m.ino);
    lemma_word_round(b, pos, 24, mb, m.mode);
    lemma_word_round(b, pos, 28, mb, m.uid);
    lemma_word_round(b, pos, 32, mb, m.gid);
    lemma_word_round(b, pos, 36, mb, m.size);
}

} // verus!
