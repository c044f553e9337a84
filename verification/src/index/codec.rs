//! The DIRC file: how an index stands in bytes, and how the bytes are read.

use crate::bytes::{
    be16, be32, find_byte, from_be16, index_of, lemma_be16_round, lemma_be32_round,
    lemma_index_of_is, slice_range, text,
};
use crate::errors::IndexFault;
use crate::index::added;
use crate::index::entry::{
    entry_bytes, entry_head, entry_ok, extended_bytes, pad_len, EntryView, IndexEntry,
};
use crate::index::flags::{is_extended, EntryFlags};
use crate::index::meta::{lemma_meta_round, meta_at, meta_bytes, word_at, EntryMeta};
use crate::sha::{sha1_of, Sha};
use vstd::prelude::*;
use vstd::string::*;

verus! {

/// The entry that stands at `pos`, and the position after it: forty bytes
/// of metadata, twenty of digest, two of flags, two of extended flags where
/// the extended bit is set (version 3 only), the name up to a NUL, and NUL
/// bytes up to a multiple of eight. `None` where the bytes end too early,
/// the name is empty, or version 2 meets an extended bit.
pub open spec fn parse_entry(b: Seq<u8>, pos: int, version: u32) -> Option<(EntryView, int)> {
    if pos < 0 || pos + 62 > b.len() {
        None
    } else {
        let flags = from_be16(b.subrange(pos + 60, pos + 62));
        let ext = is_extended(flags);
        let name_at = if ext {
            pos + 64
        } else {
            pos + 62
        };
        if (ext && version != 3) || name_at > b.len() {
            None
        } else {
            let nul = index_of(b, 0, name_at);
            let end = nul + 1 + pad_len(nul + 1 - pos);
            if nul >= b.len() || nul == name_at || end > b.len() {
                None
            } else {
                Some(
                    (
                        EntryView {
                            meta: meta_at(b, pos),
                            sha: b.subrange(pos + 40, pos + 60),
                            flags,
                            extended: if ext {
                                from_be16(b.subrange(pos + 62, pos + 64))
                            } else {
                                0
                            },
                            name: b.subrange(name_at, nul),
                        },
                        end,
                    ),
                )
            }
        }
    }
}

/// The first `k` entries of the file and the position after them; `None`
/// where one of them cannot be read.
pub open spec fn parse_upto(b: Seq<u8>, version: u32, k: nat) -> Option<(Seq<EntryView>, int)>
    decreases k,
{
    if k == 0 {
        Some((Seq::empty(), 12))
    } else {
        match parse_upto(b, version, (k - 1) as nat) {
            None => None,
            Some((es, pos)) => match parse_entry(b, pos, version) {
                None => None,
                Some((e, next)) => Some((es.push(e), next)),
            },
        }
    }
}

/// What an index file holds, where `digest` is the SHA-1 of all that
/// stands before its last twenty bytes: its version and its entries in the
/// order of the file, or why it cannot be read. The file is the signature
/// `DIRC`, the version, the number of entries, the entries, anything, and
/// as the last twenty bytes the digest.
pub open spec fn parse_index_with(b: Seq<u8>, digest: Seq<u8>) -> Result<
    (u32, Seq<EntryView>),
    IndexFault,
> {
    if b.len() < 4 || b.subrange(0, 4) != text("DIRC"@) {
        Err(IndexFault::BadSignature)
    } else if b.len() < 12 {
        Err(IndexFault::Malformed)
    } else if word_at(b, 4) != 2 && word_at(b, 4) != 3 {
        Err(IndexFault::UnsupportedVersion(word_at(b, 4)))
    } else {
        match parse_upto(b, word_at(b, 4), word_at(b, 8) as nat) {
            None => Err(IndexFault::Malformed),
            Some((es, end)) => if end + 20 > b.len() {
                Err(IndexFault::Malformed)
            } else if b.subrange(b.len() - 20, b.len() as int) != digest {
                Err(IndexFault::BadChecksum)
            } else {
                Ok((word_at(b, 4), es))
            },
        }
    }
}

/// What an index file holds: its version and its entries in the order of
/// the file, or why it cannot be read. Its last twenty bytes have to be the
/// SHA-1 of all that stands before them.
pub open spec fn parse_index(b: Seq<u8>) -> Result<(u32, Seq<EntryView>), IndexFault> {
    parse_index_with(b, sha1_of(b.subrange(0, b.len() - 20)))
}

/// The position after the first `k` entries, where they can be read.
pub open spec fn upto_pos(b: Seq<u8>, version: u32, k: nat) -> int {
    match parse_upto(b, version, k) {
        Some((_, pos)) => pos,
        None => 0,
    }
}

/// The version of an index file that can be read.
pub open spec fn file_version(b: Seq<u8>) -> u32 {
    match parse_index(b) {
        Ok((version, _)) => version,
        Err(_) => 0,
    }
}

/// The entries of an index file that can be read, in the order of the
/// file.
pub open spec fn file_entries(b: Seq<u8>) -> Seq<EntryView> {
    match parse_index(b) {
        Ok((_, es)) => es,
        Err(_) => Seq::empty(),
    }
}

/// The entries one after the other, as they stand in the file.
pub open spec fn entries_bytes(es: Seq<EntryView>) -> Seq<u8>
    decreases es.len(),
{
    if es.len() == 0 {
        Seq::empty()
    } else {
        entries_bytes(es.drop_last()) + entry_bytes(es.last())
    }
}

/// The index file without its checksum.
pub open spec fn index_body(version: u32, es: Seq<EntryView>) -> Seq<u8> {
    text("DIRC"@) + be32(version) + be32(es.len() as u32) + entries_bytes(es)
}

/// The index file: signature, version, number of entries, the entries, and
/// the SHA-1 of all of that.
pub open spec fn index_bytes(version: u32, es: Seq<EntryView>) -> Seq<u8> {
    index_body(version, es) + sha1_of(index_body(version, es))
}

/// The entries that an index holds after `es` were added to `base` one by
/// one.
pub open spec fn added_all(base: Map<Seq<u8>, EntryView>, es: Seq<EntryView>) -> Map<
    Seq<u8>,
    EntryView,
>
    decreases es.len(),
{
    if es.len() == 0 {
        base
    } else {
        added(added_all(base, es.drop_last()), es.last())
    }
}

/// Entries that can be written: each can stand in a file, and none has
/// extended flags in version 2.
pub open spec fn writable(version: u32, es: Seq<EntryView>) -> bool {
    &&& version == 2 || version == 3
    &&& es.len() <= u32::MAX
    &&& forall|i: int| 0 <= i < es.len() ==> entry_ok(#[trigger] es[i])
    &&& version == 2 ==> forall|i: int| 0 <= i < es.len() ==> !is_extended((#[trigger] es[i]).flags)
}

pub proof fn lemma_entry_len(e: EntryView)
    requires
        entry_ok(e),
    ensures
        entry_head(e).len() == 63 + extended_bytes(e).len() + e.name.len(),
        extended_bytes(e).len() == (if is_extended(e.flags) {
            2int
        } else {
            0int
        }),
        entry_bytes(e).len() == entry_head(e).len() + pad_len(entry_head(e).len() as int),
        entry_bytes(e).len() >= 64,
{
    lemma_be32_round(e.meta.ctime_sec);
    lemma_be32_round(e.meta.ctime_nano);
    lemma_be32_round(e.meta.mtime_sec);
    lemma_be32_round(e.meta.mtime_nano);
    lemma_be32_round(e.meta.dev);
    lemma_be32_round(e.meta.ino);
    lemma_be32_round(e.meta.mode);
    lemma_be32_round(e.meta.uid);
    lemma_be32_round(e.meta.gid);
    lemma_be32_round(e.meta.size);
    lemma_be16_round(e.flags);
    lemma_be16_round(e.extended);
    assert(meta_bytes(e.meta).len() == 40);
}

/// An entry that was written is read back as the same entry.
pub proof fn lemma_parse_entry(b: Seq<u8>, pos: int, e: EntryView, version: u32)
    requires
        0 <= pos,
        entry_ok(e),
        is_extended(e.flags) ==> version == 3,
        pos + entry_bytes(e).len() <= b.len(),
        b.subrange(pos, pos + entry_bytes(e).len()) == entry_bytes(e),
    ensures
        parse_entry(b, pos, version) == Some((e, pos + entry_bytes(e).len())),
{
    lemma_entry_len(e);
    let eb = entry_bytes(e);
    let head = entry_head(e);
    let xl = extended_bytes(e).len() as int;
    assert forall|j: int| 0 <= j < eb.len() implies b[pos + j] == #[trigger] eb[j] by {
        assert(b.subrange(pos, pos + eb.len())[j] == b[pos + j]);
    }
    assert(b.subrange(pos, pos + 40) =~= meta_bytes(e.meta)) by {
        assert forall|j: int| 0 <= j < 40 implies b[pos + j] == meta_bytes(e.meta)[j] by {
            assert(eb[j] == meta_bytes(e.meta)[j]);
        }
    }
    lemma_meta_round(b, pos, e.meta);
    assert(b.subrange(pos + 40, pos + 60) =~= e.sha) by {
        assert forall|j: int| 0 <= j < 20 implies b[pos + 40 + j] == e.sha[j] by {
            assert(eb[40 + j] == e.sha[j]);
        }
    }
    lemma_be16_round(e.flags);
    assert(b.subrange(pos + 60, pos + 62) =~= be16(e.flags)) by {
        assert forall|j: int| 0 <= j < 2 implies b[pos + 60 + j] == be16(e.flags)[j] by {
            assert(eb[60 + j] == be16(e.flags)[j]);
        }
    }
    if is_extended(e.flags) {
        lemma_be16_round(e.extended);
        assert(b.subrange(pos + 62, pos + 64) =~= be16(e.extended)) by {
            assert forall|j: int| 0 <= j < 2 implies b[pos + 62 + j] == be16(e.extended)[j] by {
                assert(eb[62 + j] == be16(e.extended)[j]);
            }
        }
    }
    let name_at = pos + 62 + xl;
    let nul = name_at + e.name.len();
    assert forall|j: int| name_at <= j < nul implies b[j] != 0 by {
        assert(eb[j - pos] == e.name[j - name_at]);
        assert(b[pos + (j - pos)] == eb[j - pos]);
    }
    assert(b[nul] == 0) by {
        assert(eb[nul - pos] == 0);
        assert(b[pos + (nul - pos)] == eb[nul - pos]);
    }
    lemma_index_of_is(b, 0, name_at, nul);
    assert(b.subrange(name_at, nul) =~= e.name) by {
        assert forall|j: int| 0 <= j < e.name.len() implies b[name_at + j] == e.name[j] by {
            assert(eb[62 + xl + j] == e.name[j]);
            assert(b[pos + (62 + xl + j)] == eb[62 + xl + j]);
        }
    }
    assert(nul + 1 - pos == head.len());
}

/// The position in the entries' bytes at which entry `k` begins.
pub open spec fn offset(es: Seq<EntryView>, k: int) -> int {
    entries_bytes(es.subrange(0, k)).len() as int
}

proof fn lemma_offsets(es: Seq<EntryView>, k: int)
    requires
        0 <= k < es.len(),
    ensures
        offset(es, k + 1) == offset(es, k) + entry_bytes(es[k]).len(),
        offset(es, k + 1) <= entries_bytes(es).len(),
        offset(es, es.len() as int) == entries_bytes(es).len(),
        offset(es, 0) == 0,
        entries_bytes(es).subrange(offset(es, k), offset(es, k + 1)) == entry_bytes(es[k]),
    decreases es.len(),
{
    assert(es.subrange(0, es.len() as int) =~= es);
    assert(es.subrange(0, 0) =~= Seq::<EntryView>::empty());
    assert(es.subrange(0, k + 1).drop_last() =~= es.subrange(0, k));
    assert(es.subrange(0, k + 1).last() == es[k]);
    let all = entries_bytes(es);
    let init = es.drop_last();
    if k == es.len() - 1 {
        assert(es.subrange(0, k) =~= init);
        assert(all.subrange(offset(es, k), offset(es, k + 1)) =~= entry_bytes(es[k]));
    } else {
        lemma_offsets(init, k);
        assert(init.subrange(0, k) =~= es.subrange(0, k));
        assert(init.subrange(0, k + 1) =~= es.subrange(0, k + 1));
        assert(all.subrange(offset(es, k), offset(es, k + 1)) =~= entries_bytes(init).subrange(
            offset(es, k),
            offset(es, k + 1),
        ));
    }
}

proof fn lemma_slice_of_slice(b: Seq<u8>, inner: Seq<u8>, at: int, off: int, len: int)
    requires
        0 <= at,
        0 <= off,
        0 <= len,
        off + len <= inner.len(),
        at + inner.len() <= b.len(),
        b.subrange(at, at + inner.len() as int) == inner,
    ensures
        b.subrange(at + off, at + off + len) == inner.subrange(off, off + len),
{
    assert forall|j: int| 0 <= j < len implies #[trigger] b[at + off + j] == inner[off + j] by {
        assert(b.subrange(at, at + inner.len() as int)[off + j] == b[at + off + j]);
    }
    assert(b.subrange(at + off, at + off + len) =~= inner.subrange(off, off + len));
}

/// One more entry that can be read.
proof fn lemma_parse_step(
    b: Seq<u8>,
    version: u32,
    k: nat,
    before: Seq<EntryView>,
    pos: int,
    e: EntryView,
    next: int,
)
    requires
        k > 0,
        parse_upto(b, version, (k - 1) as nat) == Some((before, pos)),
        parse_entry(b, pos, version) == Some((e, next)),
    ensures
        parse_upto(b, version, k) == Some((before.push(e), next)),
{
}

/// The entry `k` of entries that were written stands in the bytes at its
/// offset.
proof fn lemma_entry_at(b: Seq<u8>, es: Seq<EntryView>, k: int)
    requires
        0 <= k < es.len(),
        12 + entries_bytes(es).len() <= b.len(),
        b.subrange(12, 12 + entries_bytes(es).len() as int) == entries_bytes(es),
    ensures
        12 + offset(es, k) + entry_bytes(es[k]).len() <= b.len(),
        b.subrange(12 + offset(es, k), 12 + offset(es, k) + entry_bytes(es[k]).len()) == entry_bytes(
            es[k],
        ),
        offset(es, k + 1) == offset(es, k) + entry_bytes(es[k]).len(),
        0 <= offset(es, k),
{
    lemma_offsets(es, k);
    lemma_slice_of_slice(b, entries_bytes(es), 12, offset(es, k), entry_bytes(es[k]).len() as int);
}

proof fn lemma_parse_upto_written(b: Seq<u8>, version: u32, es: Seq<EntryView>, k: int)
    requires
        writable(version, es),
        0 <= k <= es.len(),
        12 + entries_bytes(es).len() <= b.len(),
        b.subrange(12, 12 + entries_bytes(es).len() as int) == entries_bytes(es),
    ensures
        parse_upto(b, version, k as nat) == Some((es.subrange(0, k), 12 + offset(es, k))),
    decreases k,
{
    if k == 0 {
        assert(es.subrange(0, 0) =~= Seq::<EntryView>::empty());
    } else {
        lemma_parse_upto_written(b, version, es, k - 1);
        lemma_entry_at(b, es, k - 1);
        let pos = 12 + offset(es, k - 1);
        let e = es[k - 1];
        let elen = entry_bytes(e).len() as int;
        assert(entry_ok(e));
        assert(is_extended(e.flags) ==> version == 3);
        lemma_parse_entry(b, pos, e, version);
        lemma_parse_step(b, version, k as nat, es.subrange(0, k - 1), pos, e, pos + elen);
        assert(es.subrange(0, k - 1).push(e) =~= es.subrange(0, k));
    }
}

/// An index file that was written is read back as the same version and the
/// same entries. The digest at its end is `digest`, which has to be that of
/// what stands before it.
pub proof fn lemma_parse_written(version: u32, es: Seq<EntryView>, digest: Seq<u8>)
    requires
        writable(version, es),
        digest.len() == 20,
        digest == sha1_of(index_body(version, es)),
    ensures
        parse_index(index_body(version, es) + digest) == Ok::<
            (u32, Seq<EntryView>),
            IndexFault,
        >((version, es)),
{
    reveal_strlit("DIRC");
    let body = index_body(version, es);
    let b = body + digest;
    let all = entries_bytes(es);
    lemma_be32_round(version);
    lemma_be32_round(es.len() as u32);
    assert(text("DIRC"@).len() == 4);
    assert(body.len() == 12 + all.len());
    assert(b.subrange(0, 4) =~= text("DIRC"@));
    assert(b.subrange(4, 8) =~= be32(version));
    assert(b.subrange(8, 12) =~= be32(es.len() as u32));
    assert(b.subrange(12, 12 + all.len() as int) =~= all);
    lemma_parse_upto_written(b, version, es, es.len() as int);
    if es.len() > 0 {
        lemma_offsets(es, 0);
    } else {
        assert(es.subrange(0, 0) =~= es);
    }
    assert(es.subrange(0, es.len() as int) =~= es);
    assert(offset(es, es.len() as int) == all.len());
    assert(b.subrange(b.len() - 20, b.len() as int) =~= digest);
    assert(b.subrange(0, b.len() - 20) =~= body);
}

/// Reads the entry that stands at `pos`.
pub fn read_entry(b: &[u8], pos: usize, version: u32) -> (r: Option<(IndexEntry, usize)>)
    ensures
        r is Some <==> parse_entry(b@, pos as int, version) is Some,
        r matches Some((e, next)) ==> {
            &&& parse_entry(b@, pos as int, version) == Some((e@, next as int))
            &&& e.wf()
            &&& !e.is_changed()
            &&& pos < next <= b@.len()
        },
{
    let len = b.len();
    if len < 62 || pos > len - 62 {
        return None;
    }
    let meta = EntryMeta::read(b, pos);
    let raw_sha = slice_range(b, pos + 40, pos + 60);
    let sha = match Sha::from_bytes(raw_sha.as_slice()) {
        Some(s) => s,
        None => {
            return None;
        },
    };
    let raw_flags = slice_range(b, pos + 60, pos + 62);
    let flags = EntryFlags::from_bytes(raw_flags.as_slice());
    let ext = flags.is_extended();
    if ext && version != 3 {
        return None;
    }
    let name_at: usize = if ext {
        if len - pos < 64 {
            return None;
        }
        pos + 64
    } else {
        pos + 62
    };
    let extended: u16 = if ext {
        ((b[pos + 62] as u16) << 8) | (b[pos + 63] as u16)
    } else {
        0
    };
    proof {
        if ext {
            let two = b@.subrange(pos + 62, pos + 64);
            assert(two[0] == b@[pos + 62] && two[1] == b@[pos + 63]);
        }
    }
    let nul = find_byte(b, 0, name_at);
    if nul >= len || nul == name_at {
        return None;
    }
    let total: usize = nul + 1 - pos;
    let pad: usize = (8 - total % 8) % 8;
    if pad > len - (nul + 1) {
        return None;
    }
    let name = slice_range(b, name_at, nul);
    let entry = IndexEntry::from_parts(meta, sha, flags, extended, name);
    Some((entry, nul + 1 + pad))
}

} // verus!
