//! Trees: one level of a directory snapshot, as a list of records
//! `<mode> SP <name> NUL <20 bytes of SHA-1>`.

use crate::bytes::{
    bytes_eq, copy_bytes, find_byte, index_of, last_index_of, lemma_index_of, lemma_index_of_is,
    lemma_last_index_of, lit, slice_range, text,
};
use crate::index::meta::FileStat;
use crate::sha::{hex_of, object_id, Sha};
use vstd::prelude::*;
use vstd::string::*;

verus! {

/// The kind of a tree entry: a subtree, an executable file or a plain
/// file.
#[derive(Clone, Copy, Debug, PartialEq, Eq, Structural)]
pub enum Mode {
    Tree,
    Executable,
    Normal,
}

/// The mode as it stands in a tree record.
pub open spec fn mode_short(m: Mode) -> Seq<u8> {
    match m {
        Mode::Tree => text("40000"@),
        Mode::Normal => text("100644"@),
        Mode::Executable => text("100755"@),
    }
}

/// The mode with six digits, as it is shown.
pub open spec fn mode_long(m: Mode) -> Seq<u8> {
    match m {
        Mode::Tree => text("040000"@),
        Mode::Normal => text("100644"@),
        Mode::Executable => text("100755"@),
    }
}

/// The mode that the text of a tree record denotes.
pub open spec fn mode_of_text(t: Seq<u8>) -> Option<Mode> {
    if t == text("40000"@) {
        Some(Mode::Tree)
    } else if t == text("100644"@) {
        Some(Mode::Normal)
    } else if t == text("100755"@) {
        Some(Mode::Executable)
    } else {
        None
    }
}

/// The mode that a mode word of the index denotes.
pub open spec fn mode_of_word(w: u32) -> Option<Mode> {
    if w == 0o040000 {
        Some(Mode::Tree)
    } else if w == 0o100644 {
        Some(Mode::Normal)
    } else if w == 0o100755 {
        Some(Mode::Executable)
    } else {
        None
    }
}

/// The mode word that stands for a mode.
pub open spec fn mode_word(m: Mode) -> u32 {
    match m {
        Mode::Tree => 0o040000,
        Mode::Normal => 0o100644,
        Mode::Executable => 0o100755,
    }
}

/// The mode of a file with the given stat: a directory is a tree, a file
/// that anyone may execute is executable, any other is normal.
pub open spec fn mode_of_stat(st: FileStat) -> Mode {
    if st.is_dir {
        Mode::Tree
    } else if st.mode & 0o111 != 0 {
        Mode::Executable
    } else {
        Mode::Normal
    }
}

impl Mode {
    /// The mode as it stands in a tree record: `40000`, `100644` or
    /// `100755`.
    pub fn short(&self) -> (out: Vec<u8>)
        ensures
            out@ == mode_short(*self),
    {
        proof {
            reveal_strlit("40000");
            reveal_strlit("100644");
            reveal_strlit("100755");
        }
        match self {
            Mode::Tree => lit("40000"),
            Mode::Normal => lit("100644"),
            Mode::Executable => lit("100755"),
        }
    }

    /// The mode with six digits: `040000`, `100644` or `100755`.
    pub fn long(&self) -> (out: Vec<u8>)
        ensures
            out@ == mode_long(*self),
    {
        proof {
            reveal_strlit("040000");
            reveal_strlit("100644");
            reveal_strlit("100755");
        }
        match self {
            Mode::Tree => lit("040000"),
            Mode::Normal => lit("100644"),
            Mode::Executable => lit("100755"),
        }
    }

    /// The mode that the text of a tree record denotes, if it is one of
    /// the three.
    pub fn from_text(t: &[u8]) -> (m: Option<Mode>)
        ensures
            m == mode_of_text(t@),
    {
        proof {
            reveal_strlit("40000");
            reveal_strlit("100644");
            reveal_strlit("100755");
        }
        let tree = lit("40000");
        let normal = lit("100644");
        let exec = lit("100755");
        if bytes_eq(t, tree.as_slice()) {
            Some(Mode::Tree)
        } else if bytes_eq(t, normal.as_slice()) {
            Some(Mode::Normal)
        } else if bytes_eq(t, exec.as_slice()) {
            Some(Mode::Executable)
        } else {
            None
        }
    }

    /// The mode that a mode word of the index denotes, if it is one of
    /// the three.
    pub fn from_word(w: u32) -> (m: Option<Mode>)
        ensures
            m == mode_of_word(w),
    {
        if w == 0o040000 {
            Some(Mode::Tree)
        } else if w == 0o100644 {
            Some(Mode::Normal)
        } else if w == 0o100755 {
            Some(Mode::Executable)
        } else {
            None
        }
    }

    /// The mode word that stands for this mode.
    pub fn word(&self) -> (w: u32)
        ensures
            w == mode_word(*self),
    {
        match self {
            Mode::Tree => 0o040000,
            Mode::Normal => 0o100644,
            Mode::Executable => 0o100755,
        }
    }

    /// The mode of a file with the given stat.
    pub fn from_stat(st: &FileStat) -> (m: Mode)
        ensures
            m == mode_of_stat(*st),
    {
        if st.is_dir {
            Mode::Tree
        } else if st.mode & 0o111 != 0 {
            Mode::Executable
        } else {
            Mode::Normal
        }
    }
}

/// An entry of a tree as plain values.
pub struct PathEntryView {
    pub path: Seq<u8>,
    pub mode: Mode,
    pub sha: Seq<u8>,
}

/// A path with its mode and the digest of what it holds.
#[derive(Debug)]
pub struct PathEntry {
    path: Vec<u8>,
    mode: Mode,
    sha: Sha,
}

impl View for PathEntry {
    type V = PathEntryView;

    closed spec fn view(&self) -> PathEntryView {
        PathEntryView { path: self.path@, mode: self.mode, sha: self.sha@ }
    }
}

/// The last component of a path: what stands after its last slash.
pub open spec fn basename(path: Seq<u8>) -> Seq<u8> {
    path.subrange(last_index_of(path, 0x2f, path.len() as int) + 1, path.len() as int)
}

/// The record of an entry in a tree: mode, a space, the last component of
/// the path, a NUL, and the twenty bytes of the digest.
pub open spec fn entry_record(e: PathEntryView) -> Seq<u8> {
    mode_short(e.mode) + seq![0x20u8] + basename(e.path) + seq![0u8] + e.sha
}

/// The body of a tree: the records of its entries, one after the other.
pub open spec fn tree_body(entries: Seq<PathEntryView>) -> Seq<u8>
    decreases entries.len(),
{
    if entries.len() == 0 {
        Seq::empty()
    } else {
        tree_body(entries.drop_last()) + entry_record(entries.last())
    }
}

/// The identity of the tree with the given entries.
pub open spec fn tree_id(entries: Seq<PathEntryView>) -> Seq<u8> {
    object_id(text("tree"@), tree_body(entries))
}

/// An entry that can stand in a tree: a digest of twenty bytes, and a
/// name that is not empty and holds neither a slash nor a NUL.
pub open spec fn record_ok(e: PathEntryView) -> bool {
    &&& e.sha.len() == 20
    &&& e.path.len() > 0
    &&& forall|i: int| 0 <= i < e.path.len() ==> e.path[i] != 0 && e.path[i] != 0x2f
}

/// The entry whose record begins at `pos`, and the position after the
/// record. `None` where there is no space after the mode, the mode is not
/// one of the three, the name is empty, holds a slash or has no NUL after
/// it, or fewer than twenty bytes follow the NUL.
pub open spec fn parse_record(b: Seq<u8>, pos: int) -> Option<(PathEntryView, int)> {
    let sp = index_of(b, 0x20, pos);
    let nul = index_of(b, 0, sp + 1);
    if pos < 0 || pos >= b.len() || sp >= b.len() || mode_of_text(b.subrange(pos, sp)) is None
        || nul >= b.len() || nul == sp + 1 || nul + 21 > b.len() || index_of(
        b.subrange(sp + 1, nul),
        0x2f,
        0,
    ) < nul - sp - 1 {
        None
    } else {
        Some(
            (
                PathEntryView {
                    path: b.subrange(sp + 1, nul),
                    mode: mode_of_text(b.subrange(pos, sp))->0,
                    sha: b.subrange(nul + 1, nul + 21),
                },
                nul + 21,
            ),
        )
    }
}

/// The entries whose records stand from `pos` to the end; `None` where a
/// record cannot be read.
pub open spec fn parse_records(b: Seq<u8>, pos: int) -> Option<Seq<PathEntryView>>
    decreases b.len() - pos,
{
    if pos >= b.len() {
        Some(Seq::empty())
    } else {
        match parse_record(b, pos) {
            None => None,
            Some((e, next)) => if next <= pos {
                None
            } else {
                match parse_records(b, next) {
                    None => None,
                    Some(rest) => Some(seq![e] + rest),
                }
            },
        }
    }
}

impl PathEntry {
    pub open spec fn wf(&self) -> bool {
        self@.sha.len() == 20
    }

    pub fn new(path: Vec<u8>, mode: Mode, sha: Sha) -> (e: PathEntry)
        requires
            sha.wf(),
        ensures
            e.wf(),
            e@ == (PathEntryView { path: path@, mode, sha: sha@ }),
    {
        PathEntry { path, mode, sha }
    }

    /// The entry for a file at `path` with the given stat and content: the
    /// mode is that of the stat, the digest that of the content as a blob.
    pub fn from_path(path: &[u8], stat: &FileStat, content: &[u8]) -> (e: PathEntry)
        ensures
            e.wf(),
            e@ == (PathEntryView {
                path: path@,
                mode: mode_of_stat(*stat),
                sha: object_id(text("blob"@), content@),
            }),
    {
        proof {
            reveal_strlit("blob");
        }
        let kind = lit("blob");
        PathEntry {
            path: copy_bytes(path),
            mode: Mode::from_stat(stat),
            sha: Sha::header_and_body(kind.as_slice(), content),
        }
    }

    /// The directories above the path, the shortest first.
    pub fn parents(&self) -> (out: Vec<Vec<u8>>)
        ensures
            out@.len() == crate::index::entry::ancestors(self@.path).len(),
            forall|i: int|
                0 <= i < out@.len() ==> (#[trigger] out@[i])@ == crate::index::entry::ancestors(
                    self@.path,
                )[i],
    {
        crate::index::entry::dirs_above(self.path.as_slice())
    }

    pub fn path(&self) -> (p: &Vec<u8>)
        ensures
            p@ == self@.path,
    {
        &self.path
    }

    /// The digest of what the path holds.
    pub fn sha(&self) -> (s: &Sha)
        ensures
            s@ == self@.sha,
    {
        &self.sha
    }

    pub fn mode(&self) -> (m: Mode)
        ensures
            m == self@.mode,
    {
        self.mode
    }

    /// Whether the entry stands for a subtree.
    pub fn is_tree(&self) -> (r: bool)
        ensures
            r == (self@.mode == Mode::Tree),
    {
        match self.mode {
            Mode::Tree => true,
            _ => false,
        }
    }

    /// A copy of the entry.
    pub fn duplicate(&self) -> (e: PathEntry)
        ensures
            e@ == self@,
    {
        PathEntry { path: copy_bytes(self.path.as_slice()), mode: self.mode, sha: self.sha.duplicate() }
    }

    /// The record of the entry in a tree.
    pub fn as_entry_bytes(&self) -> (out: Vec<u8>)
        ensures
            out@ == entry_record(self@),
    {
        let mut out = self.mode.short();
        out.push(0x20);
        let len = self.path.len();
        // The last component begins after the last slash.
        let mut from: usize = len;
        while from > 0 && self.path[from - 1] != 0x2f
            invariant
                from <= len,
                len == self.path@.len(),
                last_index_of(self.path@, 0x2f, len as int) == last_index_of(
                    self.path@,
                    0x2f,
                    from as int,
                ),
            decreases from,
        {
            from -= 1;
        }
        let name = slice_range(self.path.as_slice(), from, len);
        out.extend_from_slice(name.as_slice());
        out.push(0);
        let raw = self.sha.bytes();
        out.extend_from_slice(raw.as_slice());
        assert(out@ =~= entry_record(self@));
        out
    }
}

pub open spec fn entries_view(entries: Seq<PathEntry>) -> Seq<PathEntryView> {
    Seq::new(entries.len(), |i: int| entries[i]@)
}

/// A tree as plain values.
pub struct TreeView {
    pub label: Seq<u8>,
    pub entries: Seq<PathEntryView>,
}

/// One level of a directory snapshot: the name of the directory, and its
/// entries in the order in which they are written.
#[derive(Debug)]
pub struct Tree {
    label: Vec<u8>,
    entries: Vec<PathEntry>,
}

impl View for Tree {
    type V = TreeView;

    closed spec fn view(&self) -> TreeView {
        TreeView { label: self.label@, entries: entries_view(self.entries@) }
    }
}

impl Tree {
    /// The digest of every entry has twenty bytes.
    pub open spec fn wf(&self) -> bool {
        forall|i: int| 0 <= i < self@.entries.len() ==> (#[trigger] self@.entries[i]).sha.len() == 20
    }

    /// An empty tree for the directory named `label`.
    pub fn new(label: Vec<u8>) -> (t: Tree)
        ensures
            t.wf(),
            t@ == (TreeView { label: label@, entries: Seq::empty() }),
    {
        let t = Tree { label, entries: Vec::new() };
        assert(t@.entries =~= Seq::<PathEntryView>::empty());
        t
    }

    /// Reads the body of a tree object. `None` where a record cannot be
    /// read.
    pub fn from_content(content: &[u8]) -> (t: Option<Tree>)
        ensures
            t is Some <==> parse_records(content@, 0) is Some,
            t matches Some(tree) ==> tree.wf() && tree@.label == Seq::<u8>::empty() && Some(
                tree@.entries,
            ) == parse_records(content@, 0),
    {
        let len = content.len();
        let mut entries: Vec<PathEntry> = Vec::new();
        let mut pos: usize = 0;
        assert(entries_view(entries@) =~= Seq::<PathEntryView>::empty());
        while pos < len
            invariant
                len == content@.len(),
                pos <= len,
                forall|i: int| 0 <= i < entries@.len() ==> (#[trigger] entries@[i]).wf(),
                parse_records(content@, 0) is Some <==> parse_records(content@, pos as int) is Some,
                parse_records(content@, pos as int) matches Some(rest) ==> parse_records(
                    content@,
                    0,
                ) == Some(entries_view(entries@) + rest),
            decreases len - pos,
        {
            let sp = find_byte(content, 0x20, pos);
            if sp >= len {
                return None;
            }
            let mode_text = slice_range(content, pos, sp);
            let mode = match Mode::from_text(mode_text.as_slice()) {
                Some(m) => m,
                None => {
                    return None;
                },
            };
            let nul = find_byte(content, 0, sp + 1);
            if nul >= len || nul == sp + 1 || len - nul < 21 {
                return None;
            }
            let name = slice_range(content, sp + 1, nul);
            if find_byte(name.as_slice(), 0x2f, 0) < name.len() {
                return None;
            }
            let raw = slice_range(content, nul + 1, nul + 21);
            let sha = match Sha::from_bytes(raw.as_slice()) {
                Some(s) => s,
                None => {
                    return None;
                },
            };
            let ghost before = entries_view(entries@);
            let e = PathEntry::new(name, mode, sha);
            proof {
                assert(parse_record(content@, pos as int) == Some((e@, nul + 21)));
                assert(entries_view(entries@.push(e)) =~= before + seq![e@]);
                match parse_records(content@, nul + 21) {
                    Some(rest) => {
                        assert(before + (seq![e@] + rest) =~= (before + seq![e@]) + rest);
                    },
                    None => {},
                }
            }
            entries.push(e);
            pos = nul + 21;
        }
        let tree = Tree { label: Vec::new(), entries };
        proof {
            assert(tree@.entries + Seq::<PathEntryView>::empty() =~= tree@.entries);
            assert forall|i: int| 0 <= i < tree@.entries.len() implies (#[trigger] tree@.entries[i]).sha.len()
                == 20 by {
                assert(tree.entries@[i].wf());
            }
        }
        Some(tree)
    }

    /// Adds an entry at the end of the tree.
    pub fn add_entry(&mut self, entry: PathEntry)
        requires
            old(self).wf(),
            entry.wf(),
        ensures
            final(self).wf(),
            final(self)@ == (TreeView {
                label: old(self)@.label,
                entries: old(self)@.entries.push(entry@),
            }),
    {
        self.entries.push(entry);
        assert(self@.entries =~= old(self)@.entries.push(entry@));
    }

    /// The name of the directory that the tree stands for.
    pub fn label(&self) -> (l: &Vec<u8>)
        ensures
            l@ == self@.label,
    {
        &self.label
    }

    /// The entries in the order in which they are written.
    pub fn entries(&self) -> (e: &Vec<PathEntry>)
        ensures
            entries_view(e@) == self@.entries,
    {
        &self.entries
    }

    /// The body of the tree object: the records of the entries.
    pub fn raw_content(&self) -> (out: Vec<u8>)
        ensures
            out@ == tree_body(self@.entries),
    {
        let mut out: Vec<u8> = Vec::new();
        let mut i: usize = 0;
        let ghost ev = self@.entries;
        assert(ev.subrange(0, 0) =~= Seq::<PathEntryView>::empty());
        while i < self.entries.len()
            invariant
                ev == self@.entries,
                ev.len() == self.entries@.len(),
                i <= ev.len(),
                out@ == tree_body(ev.subrange(0, i as int)),
            decreases ev.len() - i,
        {
            let rec = self.entries[i].as_entry_bytes();
            proof {
                let next = ev.subrange(0, i + 1);
                assert(next.drop_last() =~= ev.subrange(0, i as int));
                assert(next.last() == self.entries@[i as int]@);
            }
            out.extend_from_slice(rec.as_slice());
            i += 1;
        }
        assert(ev.subrange(0, ev.len() as int) =~= ev);
        out
    }

    /// The identity of the tree object.
    pub fn sha(&self) -> (s: Sha)
        ensures
            s.wf(),
            s@ == tree_id(self@.entries),
    {
        proof {
            reveal_strlit("tree");
        }
        let body = self.raw_content();
        let kind = lit("tree");
        Sha::header_and_body(kind.as_slice(), body.as_slice())
    }

    /// The record of this tree in the tree above it: mode `40000`, the
    /// label, and the identity of this tree.
    pub fn as_entry_bytes(&self) -> (out: Vec<u8>)
        ensures
            out@ == mode_short(Mode::Tree) + seq![0x20u8] + self@.label + seq![0u8] + tree_id(
                self@.entries,
            ),
    {
        let mut out = Mode::Tree.short();
        out.push(0x20);
        out.extend_from_slice(self.label.as_slice());
        out.push(0);
        let raw = self.sha().bytes();
        out.extend_from_slice(raw.as_slice());
        out
    }
}

/// The line that shows an entry: mode with six digits, `tree` or `blob`,
/// the digest in hexadecimal, four spaces and the name.
pub open spec fn pretty_line(e: PathEntryView) -> Seq<u8> {
    mode_long(e.mode) + seq![0x20u8] + (if e.mode == Mode::Tree {
        text("tree"@)
    } else {
        text("blob"@)
    }) + seq![0x20u8] + hex_of(e.sha) + text("    "@) + basename(e.path)
}

/// The lines that show the first `upto` entries, with a newline between
/// them.
pub open spec fn pretty_text(entries: Seq<PathEntryView>, upto: int) -> Seq<u8>
    decreases upto,
{
    if upto <= 0 {
        Seq::empty()
    } else if upto == 1 {
        pretty_line(entries[0])
    } else {
        pretty_text(entries, upto - 1) + seq![0x0au8] + pretty_line(entries[upto - 1])
    }
}

impl PathEntry {
    /// The line that shows the entry.
    pub fn pretty(&self) -> (out: Vec<u8>)
        requires
            self.wf(),
        ensures
            out@ == pretty_line(self@),
    {
        proof {
            reveal_strlit("tree");
            reveal_strlit("blob");
            reveal_strlit("    ");
        }
        let mut out = self.mode.long();
        out.push(0x20);
        let kind = if self.is_tree() {
            lit("tree")
        } else {
            lit("blob")
        };
        out.extend_from_slice(kind.as_slice());
        out.push(0x20);
        let hex = self.sha.hexdigest();
        out.extend_from_slice(hex.as_slice());
        let gap = lit("    ");
        out.extend_from_slice(gap.as_slice());
        let len = self.path.len();
        let mut from: usize = len;
        while from > 0 && self.path[from - 1] != 0x2f
            invariant
                from <= len,
                len == self.path@.len(),
                last_index_of(self.path@, 0x2f, len as int) == last_index_of(
                    self.path@,
                    0x2f,
                    from as int,
                ),
            decreases from,
        {
            from -= 1;
        }
        let name = slice_range(self.path.as_slice(), from, len);
        out.extend_from_slice(name.as_slice());
        assert(out@ =~= pretty_line(self@));
        out
    }
}

impl Tree {
    /// The tree as it is shown: one line for each entry.
    pub fn pretty(&self) -> (out: Vec<u8>)
        requires
            self.wf(),
        ensures
            out@ == pretty_text(self@.entries, self@.entries.len() as int),
    {
        let mut out: Vec<u8> = Vec::new();
        let mut i: usize = 0;
        let ghost ev = self@.entries;
        while i < self.entries.len()
            invariant
                self.wf(),
                ev == self@.entries,
                ev.len() == self.entries@.len(),
                i <= ev.len(),
                out@ == pretty_text(ev, i as int),
            decreases ev.len() - i,
        {
            assert(ev[i as int] == self.entries@[i as int]@);
            assert(ev[i as int].sha.len() == 20);
            if i > 0 {
                out.push(0x0a);
            }
            let line = self.entries[i].pretty();
            out.extend_from_slice(line.as_slice());
            proof {
                if i == 0 {
                    assert(out@ =~= pretty_line(ev[0]));
                }
            }
            i += 1;
        }
        out
    }
}

/// A path without a slash is its own last component.
pub proof fn lemma_basename_plain(path: Seq<u8>)
    requires
        forall|i: int| 0 <= i < path.len() ==> path[i] != 0x2f,
    ensures
        basename(path) == path,
{
    lemma_last_index_of(path, 0x2f, path.len() as int);
    assert(path.subrange(0, path.len() as int) =~= path);
}

/// The text of a mode denotes that mode, and no other text does.
pub proof fn lemma_mode_text(m: Mode, t: Seq<u8>)
    ensures
        mode_of_text(mode_short(m)) == Some(m),
        mode_of_text(t) == Some(m) ==> t == mode_short(m),
        forall|i: int| 0 <= i < mode_short(m).len() ==> mode_short(m)[i] != 0x20,
        mode_short(m).len() > 0,
{
    reveal_strlit("40000");
    reveal_strlit("100644");
    reveal_strlit("100755");
    assert(text("40000"@).len() == 5);
    assert(text("100644"@).len() == 6);
    assert(text("100755"@).len() == 6);
    assert(text("100644"@)[5] != text("100755"@)[5]);
}

/// What was read from the body of a tree is written as the same body.
pub proof fn lemma_read_then_written(b: Seq<u8>, pos: int)
    requires
        0 <= pos <= b.len(),
        parse_records(b, pos) is Some,
    ensures
        tree_body(parse_records(b, pos)->0) == b.subrange(pos, b.len() as int),
        forall|i: int|
            0 <= i < parse_records(b, pos)->0.len() ==> record_ok(
                #[trigger] parse_records(b, pos)->0[i],
            ),
    decreases b.len() - pos,
{
    if pos >= b.len() {
        assert(b.subrange(pos, b.len() as int) =~= Seq::<u8>::empty());
    } else {
        let sp = index_of(b, 0x20, pos);
        let nul = index_of(b, 0, sp + 1);
        lemma_index_of(b, 0x20, pos);
        lemma_index_of(b, 0, sp + 1);
        let rec = parse_record(b, pos)->0;
        let e = rec.0;
        let next = nul + 21;
        lemma_read_then_written(b, next);
        let rest = parse_records(b, next)->0;
        let all = seq![e] + rest;
        let name = b.subrange(sp + 1, nul);
        lemma_index_of(name, 0x2f, 0);
        assert forall|i: int| 0 <= i < name.len() implies name[i] != 0 && name[i] != 0x2f by {
            assert(name[i] == b[sp + 1 + i]);
        }
        lemma_basename_plain(name);
        lemma_mode_text(e.mode, b.subrange(pos, sp));
        assert(entry_record(e) =~= b.subrange(pos, next));
        lemma_body_front(e, rest);
        assert(b.subrange(pos, next) + b.subrange(next, b.len() as int) =~= b.subrange(
            pos,
            b.len() as int,
        ));
        assert forall|i: int| 0 <= i < all.len() implies record_ok(#[trigger] all[i]) by {
            if i > 0 {
                assert(all[i] == rest[i - 1]);
            }
        }
    }
}

/// The body of a tree begins with the record of its first entry.
pub proof fn lemma_body_front(e: PathEntryView, rest: Seq<PathEntryView>)
    ensures
        tree_body(seq![e] + rest) == entry_record(e) + tree_body(rest),
    decreases rest.len(),
{
    let all = seq![e] + rest;
    if rest.len() == 0 {
        assert(all.drop_last() =~= Seq::<PathEntryView>::empty());
        assert(all.last() == e);
        assert(tree_body(all.drop_last()) =~= Seq::<u8>::empty());
        assert(tree_body(all) =~= entry_record(e) + tree_body(rest));
    } else {
        lemma_body_front(e, rest.drop_last());
        assert(all.drop_last() =~= seq![e] + rest.drop_last());
        assert(all.last() == rest.last());
        assert(tree_body(all) =~= entry_record(e) + tree_body(rest));
    }
}

/// What was written as the body of a tree is read as the same entries.
pub proof fn lemma_written_then_read(entries: Seq<PathEntryView>)
    requires
        forall|i: int| 0 <= i < entries.len() ==> record_ok(#[trigger] entries[i]),
    ensures
        parse_records(tree_body(entries), 0) == Some(entries),
{
    lemma_written_after(Seq::empty(), entries);
    assert(Seq::<u8>::empty() + tree_body(entries) =~= tree_body(entries));
}

/// A record that stands at `pos` is read as its entry.
proof fn lemma_record_at(b: Seq<u8>, pos: int, e: PathEntryView)
    requires
        0 <= pos,
        record_ok(e),
        pos + entry_record(e).len() <= b.len(),
        b.subrange(pos, pos + entry_record(e).len()) == entry_record(e),
    ensures
        parse_record(b, pos) == Some((e, pos + entry_record(e).len())),
{
    let rec = entry_record(e);
    let m = mode_short(e.mode);
    lemma_mode_text(e.mode, m);
    lemma_basename_plain(e.path);
    assert(rec.len() == m.len() + 1 + e.path.len() + 1 + 20);
    assert forall|j: int| 0 <= j < rec.len() implies b[pos + j] == #[trigger] rec[j] by {
        assert(b.subrange(pos, pos + rec.len())[j] == b[pos + j]);
    }
    let sp = pos + m.len();
    assert forall|j: int| pos <= j < sp implies b[j] != 0x20 by {
        assert(rec[j - pos] == m[j - pos]);
        assert(b[pos + (j - pos)] == rec[j - pos]);
    }
    assert(b[sp] == 0x20) by {
        assert(rec[m.len() as int] == 0x20);
        assert(b[pos + m.len()] == rec[m.len() as int]);
    }
    lemma_index_of_is(b, 0x20, pos, sp);
    let nul = sp + 1 + e.path.len();
    assert forall|j: int| sp + 1 <= j < nul implies b[j] != 0 by {
        assert(rec[j - pos] == e.path[j - sp - 1]);
        assert(b[pos + (j - pos)] == rec[j - pos]);
    }
    assert(b[nul] == 0) by {
        assert(rec[nul - pos] == 0);
        assert(b[pos + (nul - pos)] == rec[nul - pos]);
    }
    lemma_index_of_is(b, 0, sp + 1, nul);
    assert(b.subrange(pos, sp) =~= m) by {
        assert forall|j: int| 0 <= j < m.len() implies b[pos + j] == m[j] by {
            assert(rec[j] == m[j]);
        }
    }
    assert(b.subrange(sp + 1, nul) =~= e.path) by {
        assert forall|j: int| 0 <= j < e.path.len() implies b[sp + 1 + j] == e.path[j] by {
            assert(rec[m.len() + 1 + j] == e.path[j]);
            assert(b[pos + (m.len() + 1 + j)] == rec[m.len() + 1 + j]);
        }
    }
    assert(b.subrange(nul + 1, nul + 21) =~= e.sha) by {
        assert forall|j: int| 0 <= j < 20 implies b[nul + 1 + j] == e.sha[j] by {
            assert(rec[nul + 1 - pos + j] == e.sha[j]);
            assert(b[pos + (nul + 1 - pos + j)] == rec[nul + 1 - pos + j]);
        }
    }
    lemma_index_of(e.path, 0x2f, 0);
    assert(index_of(e.path, 0x2f, 0) == e.path.len());
}

/// The records of entries that stand after other bytes are read as those
/// entries.
proof fn lemma_written_after(pre: Seq<u8>, entries: Seq<PathEntryView>)
    requires
        forall|i: int| 0 <= i < entries.len() ==> record_ok(#[trigger] entries[i]),
    ensures
        parse_records(pre + tree_body(entries), pre.len() as int) == Some(entries),
    decreases entries.len(),
{
    let b = pre + tree_body(entries);
    let pos = pre.len() as int;
    if entries.len() == 0 {
        assert(b.len() == pos);
        assert(entries =~= Seq::<PathEntryView>::empty());
    } else {
        let e = entries[0];
        let rest = entries.subrange(1, entries.len() as int);
        assert(entries =~= seq![e] + rest);
        lemma_body_front(e, rest);
        let rec = entry_record(e);
        lemma_mode_text(e.mode, rec);
        assert(rec.len() > 0);
        assert(b =~= (pre + rec) + tree_body(rest));
        assert(b.subrange(pos, pos + rec.len()) =~= rec);
        lemma_record_at(b, pos, e);
        assert forall|i: int| 0 <= i < rest.len() implies record_ok(#[trigger] rest[i]) by {
            assert(rest[i] == entries[i + 1]);
        }
        lemma_written_after(pre + rec, rest);
        assert(parse_records(b, pos + rec.len()) == Some(rest));
    }
}

/// The body of a tree is the body of its first entries followed by the
/// body of the others.
pub proof fn lemma_body_split(entries: Seq<PathEntryView>, k: int)
    requires
        0 <= k <= entries.len(),
    ensures
        tree_body(entries) == tree_body(entries.subrange(0, k)) + tree_body(
            entries.subrange(k, entries.len() as int),
        ),
    decreases entries.len() - k,
{
    let head = entries.subrange(0, k);
    let tail = entries.subrange(k, entries.len() as int);
    if k == entries.len() {
        assert(head =~= entries);
        assert(tail =~= Seq::<PathEntryView>::empty());
        assert(tree_body(entries) + Seq::<u8>::empty() =~= tree_body(entries));
    } else {
        lemma_body_split(entries, k + 1);
        let head2 = entries.subrange(0, k + 1);
        let tail2 = entries.subrange(k + 1, entries.len() as int);
        assert(head2.drop_last() =~= head);
        assert(head2.last() == entries[k]);
        assert(tail =~= seq![entries[k]] + tail2);
        lemma_body_front(entries[k], tail2);
        assert(tree_body(head2) + tree_body(tail2) =~= tree_body(head) + (entry_record(entries[k])
            + tree_body(tail2)));
    }
}

} // verus!
