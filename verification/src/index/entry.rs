//! One entry of the index, and the rules on names that decide which
//! entries can stand together.

use crate::bytes::{
    be16, find_byte, first_diff, has_prefix, lemma_first_diff, lemma_first_diff_is,
    lemma_lex_total, lemma_prefix_lex_lt, lex_lt, slice_range,
};
use crate::index::flags::{flags_for_len, is_extended, EntryFlags};
use crate::index::meta::{meta_bytes, meta_of, EntryMeta, FileStat};
use crate::pathmap::{ascending, lemma_rank, rank};
use crate::sha::Sha;
use vstd::prelude::*;
use vstd::string::*;

verus! {
/// What an index entry says, as plain values.
pub struct EntryView {
    pub meta: EntryMeta,
    pub sha: Seq<u8>,
    pub flags: u16,
    pub extended: u16,
    pub name: Seq<u8>,
}

/// A name that an entry can have: not empty, and without a NUL byte.
pub open spec fn name_ok(name: Seq<u8>) -> bool {
    name.len() > 0 && forall|i: int| 0 <= i < name.len() ==> name[i] != 0
}

/// An entry that can stand in an index file: a digest of twenty bytes, a
/// name, and extended flags only where the extended bit is set.
pub open spec fn entry_ok(e: EntryView) -> bool {
    &&& e.sha.len() == 20
    &&& name_ok(e.name)
    &&& !is_extended(e.flags) ==> e.extended == 0
}

/// `d` is a directory above `name`: `name` is `d`, a slash, and more.
pub open spec fn is_parent_dir(d: Seq<u8>, name: Seq<u8>) -> bool {
    &&& 0 < d.len() < name.len()
    &&& name[d.len() as int] == 0x2f
    &&& name.subrange(0, d.len() as int) == d
}

/// One of the two names is a directory above the other, so an index
/// cannot hold both.
pub open spec fn in_conflict(a: Seq<u8>, b: Seq<u8>) -> bool {
    is_parent_dir(a, b) || is_parent_dir(b, a)
}

/// `name` followed by a slash: what every path below `name` begins with.
pub open spec fn dir_prefix(name: Seq<u8>) -> Seq<u8> {
    name.push(0x2f)
}

/// The directories above `name` that end before position `upto`, the
/// shortest first.
pub open spec fn ancestors_upto(name: Seq<u8>, upto: int) -> Seq<Seq<u8>>
    decreases upto,
{
    if upto <= 1 {
        Seq::empty()
    } else if upto - 1 < name.len() && name[upto - 1] == 0x2f {
        ancestors_upto(name, upto - 1).push(name.subrange(0, upto - 1))
    } else {
        ancestors_upto(name, upto - 1)
    }
}

/// The directories above `name`, the shortest first.
pub open spec fn ancestors(name: Seq<u8>) -> Seq<Seq<u8>> {
    ancestors_upto(name, name.len() as int)
}

/// The ancestors are exactly the directories above the name.
pub proof fn lemma_ancestors(name: Seq<u8>, upto: int)
    requires
        upto <= name.len(),
    ensures
        forall|d: Seq<u8>|
            ancestors_upto(name, upto).contains(d) <==> (is_parent_dir(d, name) && d.len() < upto
                - 0),
    decreases upto,
{
    if upto <= 1 {
        assert forall|d: Seq<u8>| !(#[trigger] ancestors_upto(name, upto).contains(d)) by {}
    } else {
        lemma_ancestors(name, upto - 1);
        let prev = ancestors_upto(name, upto - 1);
        let cur = ancestors_upto(name, upto);
        assert forall|d: Seq<u8>|
            cur.contains(d) <==> (is_parent_dir(d, name) && d.len() < upto) by {
            if name[upto - 1] == 0x2f {
                let top = name.subrange(0, upto - 1);
                assert(cur == prev.push(top));
                if cur.contains(d) {
                    let i = choose|i: int| 0 <= i < cur.len() && cur[i] == d;
                    if i < prev.len() {
                        assert(prev[i] == d);
                        assert(prev.contains(d));
                    }
                }
                if is_parent_dir(d, name) && d.len() < upto {
                    if d.len() == upto - 1 {
                        assert(cur[prev.len() as int] == d);
                    } else {
                        assert(prev.contains(d));
                        let i = choose|i: int| 0 <= i < prev.len() && prev[i] == d;
                        assert(cur[i] == d);
                    }
                }
            }
        }
    }
}

/// A path lies below `name` exactly when it begins with `name` and a
/// slash.
pub proof fn lemma_parent_prefix(name: Seq<u8>, k: Seq<u8>)
    requires
        name.len() > 0,
    ensures
        is_parent_dir(name, k) <==> has_prefix(k, dir_prefix(name)),
{
    let p = dir_prefix(name);
    if is_parent_dir(name, k) {
        assert(k.subrange(0, p.len() as int) =~= p);
    }
    if has_prefix(k, p) {
        assert(k.subrange(0, p.len() as int)[name.len() as int] == 0x2f);
        assert(k.subrange(0, name.len() as int) =~= k.subrange(0, p.len() as int).subrange(
            0,
            name.len() as int,
        ));
        assert(p.subrange(0, name.len() as int) =~= name);
    }
}

/// What begins with `p` does not come before `p`.
pub proof fn lemma_prefix_not_below(s: Seq<u8>, p: Seq<u8>)
    requires
        has_prefix(s, p),
    ensures
        !lex_lt(s, p),
{
    if s.len() > p.len() {
        lemma_prefix_lex_lt(p, s);
        lemma_lex_total(s, p);
    } else {
        assert(s =~= s.subrange(0, p.len() as int));
        lemma_lex_total(s, p);
    }
}

/// The strings that begin with `p` stand together in the order: what lies
/// between `p` and one of them begins with `p` too.
pub proof fn lemma_prefix_interval(m: Seq<u8>, k: Seq<u8>, p: Seq<u8>)
    requires
        !lex_lt(m, p),
        lex_lt(m, k),
        has_prefix(k, p),
    ensures
        has_prefix(m, p),
{
    lemma_first_diff(m, p, 0);
    let d = first_diff(m, p, 0);
    if d < p.len() {
        assert(d < m.len());
        assert(m[d] > p[d]);
        assert forall|j: int| 0 <= j < p.len() implies k[j] == p[j] by {
            assert(k.subrange(0, p.len() as int)[j] == k[j]);
        }
        lemma_first_diff_is(m, k, 0, d);
        assert(false);
    } else {
        assert(m.subrange(0, p.len() as int) =~= p);
    }
}

/// Where the key at the rank of `p` does not begin with `p`, no key does.
pub proof fn lemma_no_prefix_at_rank(keys: Seq<Seq<u8>>, p: Seq<u8>)
    requires
        ascending(keys),
        rank(keys, p) >= keys.len() || !has_prefix(keys[rank(keys, p)], p),
    ensures
        forall|j: int| 0 <= j < keys.len() ==> !has_prefix(#[trigger] keys[j], p),
{
    lemma_rank(keys, p);
    let r = rank(keys, p);
    assert forall|j: int| 0 <= j < keys.len() implies !has_prefix(#[trigger] keys[j], p) by {
        if has_prefix(keys[j], p) {
            lemma_prefix_not_below(keys[j], p);
            assert(j >= r);
            if j > r {
                lemma_prefix_interval(keys[r], keys[j], p);
            }
        }
    }
}

/// No extended bit in the flags of a fresh entry.
proof fn lemma_fresh_flags(len: nat)
    ensures
        !is_extended(flags_for_len(len)),
{
    let f = flags_for_len(len);
    assert(f & 0x4000 == 0) by (bit_vector)
        requires
            f <= 0xfff,
    ;
}

/// The number of NUL bytes that bring a length up to a multiple of eight.
pub open spec fn pad_len(n: int) -> int {
    (8 - n % 8) % 8
}

pub open spec fn zeros(n: int) -> Seq<u8> {
    Seq::new(n as nat, |i: int| 0u8)
}

/// The extended flags of an entry, where it has the extended bit.
pub open spec fn extended_bytes(e: EntryView) -> Seq<u8> {
    if is_extended(e.flags) {
        be16(e.extended)
    } else {
        Seq::empty()
    }
}

/// An entry up to the NUL that ends its name.
pub open spec fn entry_head(e: EntryView) -> Seq<u8> {
    meta_bytes(e.meta) + e.sha + be16(e.flags) + extended_bytes(e) + e.name + seq![0u8]
}

/// An entry as it stands in the index file: metadata, digest, flags,
/// extended flags where the bit is set, the name, a NUL, and NUL bytes up
/// to a multiple of eight.
pub open spec fn entry_bytes(e: EntryView) -> Seq<u8> {
    entry_head(e) + zeros(pad_len(entry_head(e).len() as int))
}

/// One entry of the index.
#[derive(Debug)]
pub struct IndexEntry {
    meta: EntryMeta,
    sha: Sha,
    flags: EntryFlags,
    extended: u16,
    name: Vec<u8>,
    changed: bool,
}

impl View for IndexEntry {
    type V = EntryView;

    closed spec fn view(&self) -> EntryView {
        EntryView {
            meta: self.meta,
            sha: self.sha@,
            flags: self.flags.value(),
            extended: self.extended,
            name: self.name@,
        }
    }
}

impl IndexEntry {
    pub closed spec fn wf(&self) -> bool {
        &&& self.sha.wf()
        &&& self.flags.wf()
        &&& entry_ok(self@)
    }

    /// Whether the metadata was refreshed since the entry was made.
    pub closed spec fn is_changed(&self) -> bool {
        self.changed
    }

    /// An entry that is well formed can stand in an index file.
    pub proof fn lemma_wf(&self)
        requires
            self.wf(),
        ensures
            entry_ok(self@),
    {
    }

    /// The name of the entry: its path below the work tree.
    pub fn name(&self) -> (n: &Vec<u8>)
        ensures
            n@ == self@.name,
    {
        &self.name
    }

    /// The digest of the blob that the entry stands for.
    pub fn sha(&self) -> (s: &Sha)
        ensures
            s@ == self@.sha,
            self.wf() ==> s.wf(),
    {
        &self.sha
    }

    /// Whether the extended bit is set in the flags.
    pub fn is_extended(&self) -> (r: bool)
        requires
            self.wf(),
        ensures
            r == is_extended(self@.flags),
    {
        self.flags.is_extended()
    }

    /// An entry from the parts that stand in an index file.
    pub fn from_parts(
        meta: EntryMeta,
        sha: Sha,
        flags: EntryFlags,
        extended: u16,
        name: Vec<u8>,
    ) -> (e: IndexEntry)
        requires
            sha.wf(),
            flags.wf(),
            name_ok(name@),
            !is_extended(flags.value()) ==> extended == 0,
        ensures
            e.wf(),
            e@ == (EntryView { meta, sha: sha@, flags: flags.value(), extended, name: name@ }),
            !e.is_changed(),
    {
        IndexEntry { meta, sha, flags, extended, name, changed: false }
    }

    /// Whether `name` can be the name of an entry.
    pub fn name_is_ok(name: &[u8]) -> (r: bool)
        ensures
            r == name_ok(name@),
    {
        if name.len() == 0 {
            return false;
        }
        let at = find_byte(name, 0, 0);
        at == name.len()
    }

    /// A fresh entry for a file of the given name, digest and stat.
    pub fn new_from_data(name: Vec<u8>, sha: Sha, stat: &FileStat) -> (e: IndexEntry)
        requires
            name_ok(name@),
            sha.wf(),
        ensures
            e.wf(),
            e@ == (EntryView {
                meta: meta_of(*stat),
                sha: sha@,
                flags: flags_for_len(name@.len()),
                extended: 0,
                name: name@,
            }),
            !e.is_changed(),
    {
        proof {
            lemma_fresh_flags(name@.len());
        }
        let flags = EntryFlags::from_path(name.as_slice());
        let meta = EntryMeta::from_stat(stat);
        IndexEntry { meta, sha, flags, extended: 0, name, changed: false }
    }

    /// A fresh entry for a file of the given name, content and stat: the
    /// digest is that of the content as a blob.
    pub fn new(name: Vec<u8>, content: &[u8], stat: &FileStat) -> (e: IndexEntry)
        requires
            name_ok(name@),
        ensures
            e.wf(),
            e@ == (EntryView {
                meta: meta_of(*stat),
                sha: crate::sha::object_id(crate::bytes::text("blob"@), content@),
                flags: flags_for_len(name@.len()),
                extended: 0,
                name: name@,
            }),
            !e.is_changed(),
    {
        proof {
            reveal_strlit("blob");
        }
        let kind = crate::bytes::lit("blob");
        let sha = Sha::header_and_body(kind.as_slice(), content);
        IndexEntry::new_from_data(name, sha, stat)
    }

    /// The entry as it stands in the index file.
    pub fn as_bytes(&self) -> (out: Vec<u8>)
        requires
            self.wf(),
        ensures
            out@ == entry_bytes(self@),
    {
        let mut out = self.meta.as_bytes();
        let sha = self.sha.bytes();
        out.extend_from_slice(sha.as_slice());
        let flags = self.flags.as_bytes();
        out.extend_from_slice(flags.as_slice());
        if self.flags.is_extended() {
            out.push((self.extended >> 8) as u8);
            out.push((self.extended & 0xff) as u8);
        }
        assert(out@ =~= meta_bytes(self@.meta) + self@.sha + be16(self@.flags) + extended_bytes(
            self@,
        ));
        out.extend_from_slice(self.name.as_slice());
        out.push(0);
        assert(out@ =~= entry_head(self@));
        let pad: usize = (8 - out.len() % 8) % 8;
        let mut k: usize = 0;
        while k < pad
            invariant
                k <= pad,
                pad == pad_len(entry_head(self@).len() as int),
                out@ == entry_head(self@) + zeros(k as int),
            decreases pad - k,
        {
            out.push(0);
            k += 1;
            assert(out@ =~= entry_head(self@) + zeros(k as int));
        }
        out
    }

    /// The directories above the entry's name, the shortest first.
    pub fn parents(&self) -> (out: Vec<Vec<u8>>)
        ensures
            out@.len() == ancestors(self@.name).len(),
            forall|i: int| 0 <= i < out@.len() ==> (#[trigger] out@[i])@ == ancestors(self@.name)[i],
    {
        dirs_above(self.name.as_slice())
    }

    /// Whether the metadata was refreshed since the entry was made.
    pub fn has_changed(&self) -> (r: bool)
        ensures
            r == self.is_changed(),
    {
        self.changed
    }

    /// The mode word of the entry.
    pub fn mode(&self) -> (m: u32)
        ensures
            m == self@.meta.mode,
    {
        self.meta.mode
    }

    /// The metadata of the entry.
    pub fn meta(&self) -> (m: EntryMeta)
        ensures
            m == self@.meta,
    {
        self.meta
    }

    /// Whether size and mode are those of the stat.
    pub fn matches_stat(&self, stat: &FileStat) -> (r: bool)
        ensures
            r == (self@.meta.size == meta_of(*stat).size && self@.meta.mode == meta_of(*stat).mode),
    {
        let other = EntryMeta::from_stat(stat);
        self.meta.size == other.size && self.meta.mode == other.mode
    }

    /// Whether the four time words are those of the stat.
    pub fn matches_time(&self, stat: &FileStat) -> (r: bool)
        ensures
            r == (self@.meta.ctime_sec == meta_of(*stat).ctime_sec && self@.meta.ctime_nano
                == meta_of(*stat).ctime_nano && self@.meta.mtime_sec == meta_of(*stat).mtime_sec
                && self@.meta.mtime_nano == meta_of(*stat).mtime_nano),
    {
        let other = EntryMeta::from_stat(stat);
        self.meta.ctime_sec == other.ctime_sec && self.meta.ctime_nano == other.ctime_nano
            && self.meta.mtime_sec == other.mtime_sec && self.meta.mtime_nano == other.mtime_nano
    }

    /// Takes the metadata of the stat, and marks the entry as changed.
    pub fn update_meta(&mut self, stat: &FileStat)
        ensures
            final(self)@ == (EntryView { meta: meta_of(*stat), ..old(self)@ }),
            final(self).is_changed(),
            old(self).wf() ==> final(self).wf(),
    {
        self.meta = EntryMeta::from_stat(stat);
        self.changed = true;
    }
}

/// The directories above `name`, the shortest first.
pub fn dirs_above(name: &[u8]) -> (out: Vec<Vec<u8>>)
    ensures
        out@.len() == ancestors(name@).len(),
        forall|i: int| 0 <= i < out@.len() ==> (#[trigger] out@[i])@ == ancestors(name@)[i],
{
    let mut out: Vec<Vec<u8>> = Vec::new();
    let mut i: usize = 1;
    if name.len() < 2 {
        assert(ancestors_upto(name@, 0).len() == 0);
        assert(ancestors_upto(name@, 1).len() == 0);
        return out;
    }
    while i < name.len()
        invariant
            1 <= i <= name@.len(),
            out@.len() == ancestors_upto(name@, i as int).len(),
            forall|j: int|
                0 <= j < out@.len() ==> (#[trigger] out@[j])@ == ancestors_upto(name@, i as int)[j],
        decreases name@.len() - i,
    {
        if name[i] == 0x2f {
            out.push(slice_range(name, 0, i));
        }
        i += 1;
    }
    out
}

} // verus!
