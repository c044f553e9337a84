//! The status of a repository: what differs between the work tree and the
//! index, and between the index and the tree of `HEAD`.

use crate::bytes::{copy_bytes, lit, text};
use crate::errors::{ObjectKind, PidgitError};
use crate::index::entry::{ancestors, dirs_above, EntryView};
use crate::index::meta::{meta_of, FileStat};
use crate::index::Index;
use crate::object::tree::{mode_word, Mode, PathEntry, PathEntryView};
use crate::object::Object;
use crate::pathmap::{ascending, PathMap};
use crate::repo::{object_at, object_path, Repository};
use crate::sha::{hex_of, object_id, Sha};
use crate::workspace::{is_visible, visible, WorkFileView, Workspace};
use vstd::prelude::*;
use vstd::string::*;

verus! {

/// How a path has changed.
#[derive(Clone, Copy, Debug, PartialEq, Eq, Hash, Structural)]
pub enum ChangeType {
    Modified,
    Deleted,
    Added,
    Untracked,
}

impl ChangeType {
    /// The letter of the change in the short format: `M`, `D`, `A` or
    /// `?`.
    pub fn display(&self) -> (s: &'static str)
        ensures
            s@ == (match self {
                ChangeType::Modified => "M"@,
                ChangeType::Deleted => "D"@,
                ChangeType::Added => "A"@,
                ChangeType::Untracked => "?"@,
            }),
    {
        match self {
            ChangeType::Modified => "M",
            ChangeType::Deleted => "D",
            ChangeType::Added => "A",
            ChangeType::Untracked => "?",
        }
    }

    /// The words of the change in the long format.
    pub fn long_display(&self) -> (s: &'static str)
        ensures
            s@ == (match self {
                ChangeType::Modified => "modified"@,
                ChangeType::Deleted => "deleted"@,
                ChangeType::Added => "new file"@,
                ChangeType::Untracked => "untracked file"@,
            }),
    {
        match self {
            ChangeType::Modified => "modified",
            ChangeType::Deleted => "deleted",
            ChangeType::Added => "new file",
            ChangeType::Untracked => "untracked file",
        }
    }

    /// The letter of the change as a byte.
    pub open spec fn spec_letter(self) -> u8 {
        match self {
            ChangeType::Modified => 0x4d,
            ChangeType::Deleted => 0x44,
            ChangeType::Added => 0x41,
            ChangeType::Untracked => 0x3f,
        }
    }

    /// The letter of the change as a byte.
    pub fn letter(&self) -> (c: u8)
        ensures
            c == self.spec_letter(),
    {
        match self {
            ChangeType::Modified => 0x4d,
            ChangeType::Deleted => 0x44,
            ChangeType::Added => 0x41,
            ChangeType::Untracked => 0x3f,
        }
    }
}

/// The names that the index tracks: its entries and the directories above
/// them.
pub open spec fn tracked_set(index: Index) -> Set<Seq<u8>> {
    Set::new(
        |p: Seq<u8>| index.entry_map().dom().contains(p) || index.parents().dom().contains(p),
    )
}

/// The first of the directories from position `i` on that is not known.
pub open spec fn first_missing(known: Set<Seq<u8>>, dirs: Seq<Seq<u8>>, i: int) -> Option<
    Seq<u8>,
>
    decreases dirs.len() - i,
{
    if i < 0 || i >= dirs.len() {
        None
    } else if !known.contains(dirs[i]) {
        Some(dirs[i])
    } else {
        first_missing(known, dirs, i + 1)
    }
}

/// The name under which a file of the work tree counts as untracked: the
/// outermost directory above it that is not known, with a slash after
/// it; or the file itself, where every directory above it is known and
/// the file is not. `None` for a file that is known.
pub open spec fn untracked_name(known: Set<Seq<u8>>, path: Seq<u8>) -> Option<Seq<u8>> {
    match first_missing(known, ancestors(path), 0) {
        Some(dir) => Some(dir.push(0x2f)),
        None => if known.contains(path) {
            None
        } else {
            Some(path)
        },
    }
}

/// The stats of the known files among the first `i` files of the work
/// tree that are seen.
pub open spec fn stats_upto(
    paths: Seq<Seq<u8>>,
    files: Map<Seq<u8>, WorkFileView>,
    known: Set<Seq<u8>>,
    i: int,
) -> Map<Seq<u8>, FileStat>
    decreases i,
{
    if i <= 0 {
        Map::empty()
    } else if visible(paths[i - 1]) && untracked_name(known, paths[i - 1]) is None {
        stats_upto(paths, files, known, i - 1).insert(paths[i - 1], files[paths[i - 1]].stat)
    } else {
        stats_upto(paths, files, known, i - 1)
    }
}

/// The untracked names for the first `i` files of the work tree.
pub open spec fn untracked_upto(paths: Seq<Seq<u8>>, known: Set<Seq<u8>>, i: int) -> Map<
    Seq<u8>,
    ChangeType,
>
    decreases i,
{
    if i <= 0 {
        Map::empty()
    } else if visible(paths[i - 1]) && untracked_name(known, paths[i - 1]) is Some {
        untracked_upto(paths, known, i - 1).insert(
            untracked_name(known, paths[i - 1])->0,
            ChangeType::Untracked,
        )
    } else {
        untracked_upto(paths, known, i - 1)
    }
}

/// The identity of a content as a blob.
pub open spec fn blob_id(content: Seq<u8>) -> Seq<u8> {
    object_id(text("blob"@), content)
}

/// Whether size and mode of the entry are those of the stat.
pub open spec fn same_stat(e: EntryView, st: FileStat) -> bool {
    e.meta.size == meta_of(st).size && e.meta.mode == meta_of(st).mode
}

/// Whether the four time words of the entry are those of the stat.
pub open spec fn same_time(e: EntryView, st: FileStat) -> bool {
    e.meta.ctime_sec == meta_of(st).ctime_sec && e.meta.ctime_nano == meta_of(st).ctime_nano
        && e.meta.mtime_sec == meta_of(st).mtime_sec && e.meta.mtime_nano == meta_of(st).mtime_nano
}

/// Whether the entry has stale times only: size and mode are those of the
/// stat, the times are not, and the content is that of the entry.
pub open spec fn stale(e: EntryView, stats: Map<Seq<u8>, FileStat>, files: Map<
    Seq<u8>,
    WorkFileView,
>) -> bool {
    &&& stats.dom().contains(e.name)
    &&& same_stat(e, stats[e.name])
    &&& !same_time(e, stats[e.name])
    &&& files.dom().contains(e.name)
    &&& blob_id(files[e.name].content) == e.sha
}

/// How the file of an entry differs from the entry: deleted where it has
/// no stat; modified where size or mode differ; unchanged where the times
/// are the same too; else modified exactly where the content is not that
/// of the entry.
pub open spec fn work_change(e: EntryView, stats: Map<Seq<u8>, FileStat>, files: Map<
    Seq<u8>,
    WorkFileView,
>) -> Option<ChangeType> {
    if !stats.dom().contains(e.name) {
        Some(ChangeType::Deleted)
    } else if !same_stat(e, stats[e.name]) {
        Some(ChangeType::Modified)
    } else if same_time(e, stats[e.name]) {
        None
    } else if files.dom().contains(e.name) && blob_id(files[e.name].content) == e.sha {
        None
    } else {
        Some(ChangeType::Modified)
    }
}

/// The entry after the check against the work tree: with the metadata of
/// the stat where it had stale times only.
pub open spec fn refreshed(e: EntryView, stats: Map<Seq<u8>, FileStat>, files: Map<
    Seq<u8>,
    WorkFileView,
>) -> EntryView {
    if stale(e, stats, files) {
        EntryView { meta: meta_of(stats[e.name]), ..e }
    } else {
        e
    }
}

/// One of the first `i` entries has stale times only.
pub open spec fn any_stale(
    model: Seq<EntryView>,
    stats: Map<Seq<u8>, FileStat>,
    files: Map<Seq<u8>, WorkFileView>,
    i: int,
) -> bool {
    exists|j: int| 0 <= j < i && stale(#[trigger] model[j], stats, files)
}

/// The changes between the first `i` entries and the work tree.
pub open spec fn work_diff_upto(
    model: Seq<EntryView>,
    stats: Map<Seq<u8>, FileStat>,
    files: Map<Seq<u8>, WorkFileView>,
    i: int,
) -> Map<Seq<u8>, ChangeType>
    decreases i,
{
    if i <= 0 {
        Map::empty()
    } else {
        match work_change(model[i - 1], stats, files) {
            Some(c) => work_diff_upto(model, stats, files, i - 1).insert(model[i - 1].name, c),
            None => work_diff_upto(model, stats, files, i - 1),
        }
    }
}

/// How an entry differs from the tree of `HEAD`: added where the tree
/// has no such path, modified where mode or digest differ.
pub open spec fn staged_change(e: EntryView, head: Map<Seq<u8>, PathEntryView>) -> Option<
    ChangeType,
> {
    if !head.dom().contains(e.name) {
        Some(ChangeType::Added)
    } else if mode_word(head[e.name].mode) != e.meta.mode || head[e.name].sha != e.sha {
        Some(ChangeType::Modified)
    } else {
        None
    }
}

/// The changes between the tree of `HEAD` and the first `i` entries.
pub open spec fn staged_upto(model: Seq<EntryView>, head: Map<Seq<u8>, PathEntryView>, i: int) -> Map<
    Seq<u8>,
    ChangeType,
>
    decreases i,
{
    if i <= 0 {
        Map::empty()
    } else {
        match staged_change(model[i - 1], head) {
            Some(c) => staged_upto(model, head, i - 1).insert(model[i - 1].name, c),
            None => staged_upto(model, head, i - 1),
        }
    }
}

/// The changes with the deletions added: the first `i` paths of the tree
/// of `HEAD` that the index does not hold.
pub open spec fn deleted_upto(
    base: Map<Seq<u8>, ChangeType>,
    head_keys: Seq<Seq<u8>>,
    names: Set<Seq<u8>>,
    i: int,
) -> Map<Seq<u8>, ChangeType>
    decreases i,
{
    if i <= 0 {
        base
    } else if !names.contains(head_keys[i - 1]) {
        deleted_upto(base, head_keys, names, i - 1).insert(head_keys[i - 1], ChangeType::Deleted)
    } else {
        deleted_upto(base, head_keys, names, i - 1)
    }
}

/// The stats of the files that are seen and known, and the names that
/// are untracked.
pub fn scan_workspace(index: &Index, ws: &Workspace) -> (r: (PathMap<FileStat>, PathMap<ChangeType>))
    requires
        index.wf(),
        ws.wf(),
    ensures
        r.0.wf(),
        r.1.wf(),
        r.0.map() == stats_upto(
            ws.paths(),
            ws.files(),
            tracked_set(*index),
            ws.paths().len() as int,
        ),
        r.1.map() == untracked_upto(ws.paths(), tracked_set(*index), ws.paths().len() as int),
{
    let ghost known = tracked_set(*index);
    let mut stats: PathMap<FileStat> = PathMap::new();
    let mut untracked: PathMap<ChangeType> = PathMap::new();
    let n = ws.len();
    let mut i: usize = 0;
    assert(stats.map() =~= Map::<Seq<u8>, FileStat>::empty());
    assert(untracked.map() =~= Map::<Seq<u8>, ChangeType>::empty());
    while i < n
        invariant
            index.wf(),
            ws.wf(),
            stats.wf(),
            untracked.wf(),
            known == tracked_set(*index),
            n == ws.paths().len(),
            i <= n,
            stats.map() == stats_upto(ws.paths(), ws.files(), known, i as int),
            untracked.map() == untracked_upto(ws.paths(), known, i as int),
        decreases n - i,
    {
        let path = ws.path_at(i);
        if is_visible(path.as_slice()) {
            let dirs = dirs_above(path.as_slice());
            let ghost anc = ancestors(path@);
            let mut missing: Option<Vec<u8>> = None;
            let mut j: usize = 0;
            while j < dirs.len() && missing.is_none()
                invariant
                    index.wf(),
                    known == tracked_set(*index),
                    j <= dirs@.len(),
                    dirs@.len() == anc.len(),
                    forall|t: int| 0 <= t < dirs@.len() ==> (#[trigger] dirs@[t])@ == anc[t],
                    missing is None ==> first_missing(known, anc, 0) == first_missing(
                        known,
                        anc,
                        j as int,
                    ),
                    missing matches Some(d) ==> first_missing(known, anc, 0) == Some(d@),
                decreases dirs@.len() - j + (if missing is None {
                    1int
                } else {
                    0int
                }),
            {
                if !index.is_tracked(dirs[j].as_slice()) {
                    missing = Some(copy_bytes(dirs[j].as_slice()));
                } else {
                    j += 1;
                }
            }
            match missing {
                Some(mut dir) => {
                    dir.push(0x2f);
                    untracked.insert(dir, ChangeType::Untracked);
                },
                None => {
                    if index.is_tracked(path.as_slice()) {
                        stats.insert(copy_bytes(path.as_slice()), ws.file_at(i).stat);
                    } else {
                        untracked.insert(copy_bytes(path.as_slice()), ChangeType::Untracked);
                    }
                },
            }
        }
        i += 1;
    }
    (stats, untracked)
}

/// The changes between the index and the work tree. An entry with stale
/// times only takes the metadata of its stat.
pub fn check_index(index: &mut Index, stats: &PathMap<FileStat>, ws: &Workspace) -> (diff: PathMap<
    ChangeType,
>)
    requires
        old(index).wf(),
        stats.wf(),
        ws.wf(),
    ensures
        final(index).wf(),
        diff.wf(),
        final(index).names() == old(index).names(),
        final(index).version() == old(index).version(),
        final(index).path() == old(index).path(),
        final(index).locked() == old(index).locked(),
        final(index).model().len() == old(index).model().len(),
        forall|i: int|
            0 <= i < old(index).model().len() ==> #[trigger] final(index).model()[i] == refreshed(
                old(index).model()[i],
                stats.map(),
                ws.files(),
            ),
        diff.map() == work_diff_upto(
            old(index).model(),
            stats.map(),
            ws.files(),
            old(index).model().len() as int,
        ),
        final(index).dirty() == (old(index).dirty() || any_stale(
            old(index).model(),
            stats.map(),
            ws.files(),
            old(index).model().len() as int,
        )),
{
    proof {
        reveal_strlit("blob");
        index.lemma_invariants();
    }
    let ghost model0 = index.model();
    let mut diff: PathMap<ChangeType> = PathMap::new();
    assert(diff.map() =~= Map::<Seq<u8>, ChangeType>::empty());
    let n = index.num_entries();
    let kind = lit("blob");
    let mut i: usize = 0;
    while i < n
        invariant
            index.wf(),
            stats.wf(),
            ws.wf(),
            diff.wf(),
            kind@ == text("blob"@),
            model0 == old(index).model(),
            index.names() == old(index).names(),
            index.version() == old(index).version(),
            index.path() == old(index).path(),
            index.locked() == old(index).locked(),
            n == model0.len(),
            n == index.names().len(),
            index.model().len() == n,
            i <= n,
            forall|j: int|
                0 <= j < i ==> #[trigger] index.model()[j] == refreshed(
                    model0[j],
                    stats.map(),
                    ws.files(),
                ),
            forall|j: int| i <= j < n ==> #[trigger] index.model()[j] == model0[j],
            forall|j: int| 0 <= j < n ==> (#[trigger] model0[j]).name == index.names()[j],
            diff.map() == work_diff_upto(model0, stats.map(), ws.files(), i as int),
            index.dirty() == (old(index).dirty() || any_stale(
                model0,
                stats.map(),
                ws.files(),
                i as int,
            )),
        decreases n - i,
    {
        let entry = index.entry_at(i);
        let name = copy_bytes(entry.name().as_slice());
        assert(entry@ == model0[i as int]);
        match stats.get(name.as_slice()) {
            None => {
                diff.insert(name, ChangeType::Deleted);
            },
            Some(st) => {
                if !entry.matches_stat(st) {
                    diff.insert(name, ChangeType::Modified);
                } else if entry.matches_time(st) {
                } else {
                    let same = match ws.read(name.as_slice()) {
                        Some(f) => {
                            let sha = Sha::header_and_body(kind.as_slice(), f.content.as_slice());
                            sha.same(entry.sha())
                        },
                        None => false,
                    };
                    if same {
                        let fresh = *st;
                        index.update_meta_at(i, &fresh);
                    } else {
                        diff.insert(name, ChangeType::Modified);
                    }
                }
            },
        }
        i += 1;
    }
    diff
}

/// The changes between the tree of `HEAD` and the index.
pub fn check_head(index: &Index, head: &PathMap<PathEntry>) -> (diff: PathMap<ChangeType>)
    requires
        index.wf(),
        head.wf(),
    ensures
        diff.wf(),
        diff.map() == deleted_upto(
            staged_upto(index.model(), head_view(*head), index.model().len() as int),
            head.keys(),
            index.entry_map().dom(),
            head.keys().len() as int,
        ),
{
    let mut diff: PathMap<ChangeType> = PathMap::new();
    assert(diff.map() =~= Map::<Seq<u8>, ChangeType>::empty());
    let ghost hv = head_view(*head);
    let n = index.num_entries();
    let mut i: usize = 0;
    while i < n
        invariant
            index.wf(),
            head.wf(),
            diff.wf(),
            hv == head_view(*head),
            n == index.model().len(),
            n == index.names().len(),
            i <= n,
            diff.map() == staged_upto(index.model(), hv, i as int),
        decreases n - i,
    {
        let entry = index.entry_at(i);
        let name = copy_bytes(entry.name().as_slice());
        match head.get(name.as_slice()) {
            None => {
                diff.insert(name, ChangeType::Added);
            },
            Some(have) => {
                if have.mode().word() != entry.mode() || !have.sha().same(entry.sha()) {
                    diff.insert(name, ChangeType::Modified);
                }
            },
        }
        i += 1;
    }
    let ghost base = diff.map();
    let m = head.len();
    let mut k: usize = 0;
    while k < m
        invariant
            index.wf(),
            head.wf(),
            diff.wf(),
            m == head.keys().len(),
            k <= m,
            diff.map() == deleted_upto(base, head.keys(), index.entry_map().dom(), k as int),
        decreases m - k,
    {
        let key = head.key_at(k);
        if !index.is_tracked_file(key.as_slice()) {
            diff.insert(copy_bytes(key.as_slice()), ChangeType::Deleted);
        }
        k += 1;
    }
    diff
}

/// The entries of the tree of `HEAD` by their paths, as plain values.
pub open spec fn head_view(head: PathMap<PathEntry>) -> Map<Seq<u8>, PathEntryView> {
    Map::new(|k: Seq<u8>| head.map().dom().contains(k), |k: Seq<u8>| head.map()[k]@)
}

/// The path of `name` below `prefix`; below the root it is the name.
pub open spec fn below(prefix: Seq<u8>, name: Seq<u8>) -> Seq<u8> {
    if prefix.len() == 0 {
        name
    } else {
        prefix + seq![0x2fu8] + name
    }
}

/// How deep the trees of a commit are followed.
pub const MAX_TREE_DEPTH: u32 = 4096;

/// The files of the trees below the tree with the given digest, by their
/// paths: the entries of the tree that are no trees, and the files of the
/// trees that it names. An entry that stands later wins over one of the
/// same path. `None` where a tree is missing or cannot be read, or the
/// trees are nested `fuel` deep or deeper.
pub open spec fn flat_tree(
    files: Map<Seq<u8>, Seq<u8>>,
    sha: Seq<u8>,
    prefix: Seq<u8>,
    fuel: nat,
) -> Option<Map<Seq<u8>, PathEntryView>>
    decreases fuel, 0nat,
{
    if fuel == 0 {
        None
    } else {
        match object_at(files, object_path(hex_of(sha))) {
            Some((ObjectKind::Tree, body)) => flat_entries(
                files,
                crate::object::tree::parse_records(body, 0)->0,
                0,
                prefix,
                (fuel - 1) as nat,
            ),
            _ => None,
        }
    }
}

/// The files of the entries from position `i` on.
pub open spec fn flat_entries(
    files: Map<Seq<u8>, Seq<u8>>,
    entries: Seq<PathEntryView>,
    i: int,
    prefix: Seq<u8>,
    fuel: nat,
) -> Option<Map<Seq<u8>, PathEntryView>>
    decreases fuel, entries.len() - i + 1,
{
    if i < 0 || i >= entries.len() {
        Some(Map::empty())
    } else {
        let e = entries[i];
        let first = if e.mode == Mode::Tree {
            flat_tree(files, e.sha, below(prefix, e.path), fuel)
        } else {
            Some(Map::<Seq<u8>, PathEntryView>::empty().insert(below(prefix, e.path), e))
        };
        match (first, flat_entries(files, entries, i + 1, prefix, fuel)) {
            (Some(a), Some(b)) => Some(a.union_prefer_right(b)),
            _ => None,
        }
    }
}

/// The error for a tree that cannot be followed: the trees are nested
/// too deep; the object of the tree is not found or cannot be read, or is
/// no tree; or the error for the first of its entries that cannot be
/// followed.
pub open spec fn tree_fault(
    files: Map<Seq<u8>, Seq<u8>>,
    sha: Seq<u8>,
    prefix: Seq<u8>,
    fuel: nat,
    e: PidgitError,
) -> bool
    decreases fuel, 0nat,
{
    if fuel == 0 {
        e matches PidgitError::Generic(m) && m@ == text("trees are nested too deep"@)
    } else {
        match object_at(files, object_path(hex_of(sha))) {
            None => crate::repo::stored_fault(files, hex_of(sha), e),
            Some((ObjectKind::Tree, body)) => entries_fault(
                files,
                crate::object::tree::parse_records(body, 0)->0,
                0,
                prefix,
                (fuel - 1) as nat,
                e,
            ),
            Some(_) => e matches PidgitError::InvalidObject(ObjectKind::Tree),
        }
    }
}

/// The error for the first of the entries from position `i` on that
/// cannot be followed.
pub open spec fn entries_fault(
    files: Map<Seq<u8>, Seq<u8>>,
    entries: Seq<PathEntryView>,
    i: int,
    prefix: Seq<u8>,
    fuel: nat,
    e: PidgitError,
) -> bool
    decreases fuel, entries.len() - i + 1,
{
    if i < 0 || i >= entries.len() {
        false
    } else if entries[i].mode == Mode::Tree && flat_tree(
        files,
        entries[i].sha,
        below(prefix, entries[i].path),
        fuel,
    ) is None {
        tree_fault(files, entries[i].sha, below(prefix, entries[i].path), fuel, e)
    } else {
        entries_fault(files, entries, i + 1, prefix, fuel, e)
    }
}

/// Reads the trees below the tree with the given digest into `head`.
pub fn read_tree(repo: &Repository, sha: &Sha, prefix: &[u8], fuel: u32, head: &mut PathMap<
    PathEntry,
>) -> (r: Result<(), PidgitError>)
    requires
        repo.wf(),
        sha.wf(),
        old(head).wf(),
    ensures
        final(head).wf(),
        r is Ok <==> flat_tree(repo.files_view(), sha@, prefix@, fuel as nat) is Some,
        r is Ok ==> head_view(*final(head)) == head_view(*old(head)).union_prefer_right(
            flat_tree(repo.files_view(), sha@, prefix@, fuel as nat)->0,
        ),
        r matches Err(e) ==> tree_fault(repo.files_view(), sha@, prefix@, fuel as nat, e),
    decreases fuel, 0nat,
{
    proof {
        reveal_strlit("trees are nested too deep");
    }
    if fuel == 0 {
        return Err(PidgitError::Generic(lit("trees are nested too deep")));
    }
    let hex = sha.hexdigest();
    let tree = match repo.object_for_sha(hex.as_slice()) {
        Ok(Object::Tree(t)) => t,
        Ok(_) => {
            return Err(PidgitError::InvalidObject(ObjectKind::Tree));
        },
        Err(e) => {
            return Err(e);
        },
    };
    let entries = tree.entries();
    proof {
        assert forall|j: int| 0 <= j < entries@.len() implies (#[trigger] entries@[j]).wf() by {
            assert(tree@.entries[j] == entries@[j]@);
        }
    }
    read_entries(repo, entries, 0, prefix, fuel - 1, head)
}

/// Reads the entries from position `i` on into `head`.
fn read_entries(
    repo: &Repository,
    entries: &Vec<PathEntry>,
    i: usize,
    prefix: &[u8],
    fuel: u32,
    head: &mut PathMap<PathEntry>,
) -> (r: Result<(), PidgitError>)
    requires
        repo.wf(),
        old(head).wf(),
        i <= entries@.len(),
        forall|j: int| 0 <= j < entries@.len() ==> (#[trigger] entries@[j]).wf(),
    ensures
        final(head).wf(),
        r is Ok <==> flat_entries(
            repo.files_view(),
            crate::object::tree::entries_view(entries@),
            i as int,
            prefix@,
            fuel as nat,
        ) is Some,
        r is Ok ==> head_view(*final(head)) == head_view(*old(head)).union_prefer_right(
            flat_entries(
                repo.files_view(),
                crate::object::tree::entries_view(entries@),
                i as int,
                prefix@,
                fuel as nat,
            )->0,
        ),
        r matches Err(e) ==> entries_fault(
            repo.files_view(),
            crate::object::tree::entries_view(entries@),
            i as int,
            prefix@,
            fuel as nat,
            e,
        ),
    decreases fuel, entries@.len() - i + 1,
{
    let ghost es = crate::object::tree::entries_view(entries@);
    let ghost start = head_view(*head);
    if i >= entries.len() {
        assert(start.union_prefer_right(Map::<Seq<u8>, PathEntryView>::empty()) =~= start);
        return Ok(());
    }
    let e = &entries[i];
    assert(es[i as int] == e@);
    let mut full = copy_bytes(prefix);
    if prefix.len() > 0 {
        full.push(0x2f);
    }
    full.extend_from_slice(e.path().as_slice());
    assert(full@ =~= below(prefix@, e@.path));
    if e.is_tree() {
        match read_tree(repo, e.sha(), full.as_slice(), fuel, head) {
            Ok(()) => {},
            Err(err) => {
                return Err(err);
            },
        }
    } else {
        let ghost before = head.map();
        let copy = e.duplicate();
        head.insert(full, copy);
        assert(head_view(*head) =~= start.union_prefer_right(
            Map::<Seq<u8>, PathEntryView>::empty().insert(below(prefix@, e@.path), e@),
        ));
    }
    let ghost mid = head_view(*head);
    let r = read_entries(repo, entries, i + 1, prefix, fuel, head);
    proof {
        if r is Ok {
            let first = if e@.mode == Mode::Tree {
                flat_tree(repo.files_view(), e@.sha, below(prefix@, e@.path), fuel as nat)->0
            } else {
                Map::<Seq<u8>, PathEntryView>::empty().insert(below(prefix@, e@.path), e@)
            };
            let rest = flat_entries(repo.files_view(), es, i + 1, prefix@, fuel as nat)->0;
            assert(start.union_prefer_right(first).union_prefer_right(rest) =~= start.union_prefer_right(
                first.union_prefer_right(rest),
            ));
        }
    }
    r
}

/// The status of a repository.
#[derive(Debug)]
pub struct Status {
    stats: PathMap<FileStat>,
    untracked: PathMap<ChangeType>,
    index_diff: PathMap<ChangeType>,
    workspace_diff: PathMap<ChangeType>,
    head_diff: PathMap<PathEntry>,
}

impl Status {
    pub closed spec fn wf(&self) -> bool {
        &&& self.stats.wf()
        &&& self.untracked.wf()
        &&& self.index_diff.wf()
        &&& self.workspace_diff.wf()
        &&& self.head_diff.wf()
    }

    /// The untracked names.
    pub closed spec fn spec_untracked(&self) -> Map<Seq<u8>, ChangeType> {
        self.untracked.map()
    }

    /// The changes between the tree of `HEAD` and the index.
    pub closed spec fn spec_index_diff(&self) -> Map<Seq<u8>, ChangeType> {
        self.index_diff.map()
    }

    /// The changes between the index and the work tree.
    pub closed spec fn spec_workspace_diff(&self) -> Map<Seq<u8>, ChangeType> {
        self.workspace_diff.map()
    }

    /// The files of the tree of `HEAD`.
    pub closed spec fn spec_head(&self) -> Map<Seq<u8>, PathEntryView> {
        head_view(self.head_diff)
    }

    /// The paths of the tree of `HEAD`, in byte order.
    pub closed spec fn spec_head_keys(&self) -> Seq<Seq<u8>> {
        self.head_diff.keys()
    }

    /// The stats of the known files of the work tree.
    pub closed spec fn spec_stats(&self) -> Map<Seq<u8>, FileStat> {
        self.stats.map()
    }

    /// The status of an index against a work tree and the files of the
    /// tree of `HEAD`. Entries of the index with stale times only are
    /// refreshed.
    pub fn compute(index: &mut Index, ws: &Workspace, head: PathMap<PathEntry>) -> (s: Status)
        requires
            old(index).wf(),
            ws.wf(),
            head.wf(),
        ensures
            s.wf(),
            final(index).wf(),
            final(index).names() == old(index).names(),
            final(index).version() == old(index).version(),
            final(index).path() == old(index).path(),
            final(index).locked() == old(index).locked(),
            final(index).model().len() == old(index).model().len(),
            forall|i: int|
                0 <= i < old(index).model().len() ==> #[trigger] final(index).model()[i]
                    == refreshed(old(index).model()[i], s.spec_stats(), ws.files()),
            s.spec_head() == head_view(head),
            s.spec_head_keys() == head.keys(),
            s.spec_stats() == stats_upto(
                ws.paths(),
                ws.files(),
                tracked_set(*old(index)),
                ws.paths().len() as int,
            ),
            s.spec_untracked() == untracked_upto(
                ws.paths(),
                tracked_set(*old(index)),
                ws.paths().len() as int,
            ),
            s.spec_workspace_diff() == work_diff_upto(
                old(index).model(),
                s.spec_stats(),
                ws.files(),
                old(index).model().len() as int,
            ),
            s.spec_index_diff() == deleted_upto(
                staged_upto(
                    final(index).model(),
                    head_view(head),
                    final(index).model().len() as int,
                ),
                head.keys(),
                final(index).entry_map().dom(),
                head.keys().len() as int,
            ),
            final(index).dirty() == (old(index).dirty() || any_stale(
                old(index).model(),
                s.spec_stats(),
                ws.files(),
                old(index).model().len() as int,
            )),
    {
        let scanned = scan_workspace(index, ws);
        let stats = scanned.0;
        let untracked = scanned.1;
        let workspace_diff = check_index(index, &stats, ws);
        let index_diff = check_head(index, &head);
        Status { stats, untracked, index_diff, workspace_diff, head_diff: head }
    }

    /// The untracked names in ascending byte order.
    pub closed spec fn untracked_names(&self) -> Seq<Seq<u8>> {
        self.untracked.keys()
    }

    /// The paths that differ between the index and the work tree, in
    /// ascending byte order.
    pub closed spec fn unstaged_names(&self) -> Seq<Seq<u8>> {
        self.workspace_diff.keys()
    }

    /// The paths that differ between the tree of `HEAD` and the index, in
    /// ascending byte order.
    pub closed spec fn staged_names(&self) -> Seq<Seq<u8>> {
        self.index_diff.keys()
    }

    /// What the ordered names of a status are: those of its maps, in
    /// ascending byte order.
    pub proof fn lemma_names(&self)
        requires
            self.wf(),
        ensures
            ascending(self.spec_head_keys()),
            forall|k: Seq<u8>| self.spec_head_keys().contains(k) <==> self.spec_head().dom().contains(k),
            ascending(self.untracked_names()),
            forall|k: Seq<u8>|
                self.untracked_names().contains(k) <==> self.spec_untracked().dom().contains(k),
            ascending(self.staged_names()),
            forall|k: Seq<u8>|
                self.staged_names().contains(k) <==> self.spec_index_diff().dom().contains(k),
            ascending(self.unstaged_names()),
            forall|k: Seq<u8>|
                self.unstaged_names().contains(k) <==> self.spec_workspace_diff().dom().contains(k),
    {
    }

    /// The untracked names.
    pub fn untracked(&self) -> (m: &PathMap<ChangeType>)
        ensures
            m.map() == self.spec_untracked(),
            m.keys() == self.untracked_names(),
            self.wf() ==> m.wf(),
    {
        &self.untracked
    }

    pub fn has_untracked_changes(&self) -> (r: bool)
        requires
            self.wf(),
        ensures
            r <==> exists|k: Seq<u8>| self.spec_untracked().dom().contains(k),
    {
        proof {
            if self.untracked.keys().len() > 0 {
                assert(self.untracked.keys().contains(self.untracked.keys()[0]));
                assert(self.spec_untracked().dom().contains(self.untracked.keys()[0]));
            }
        }
        self.untracked.len() > 0
    }

    /// The changes between the tree of `HEAD` and the index.
    pub fn index_diff(&self) -> (m: &PathMap<ChangeType>)
        ensures
            m.map() == self.spec_index_diff(),
            m.keys() == self.staged_names(),
            self.wf() ==> m.wf(),
    {
        &self.index_diff
    }

    pub fn has_index_changes(&self) -> (r: bool)
        requires
            self.wf(),
        ensures
            r <==> exists|k: Seq<u8>| self.spec_index_diff().dom().contains(k),
    {
        proof {
            if self.index_diff.keys().len() > 0 {
                assert(self.index_diff.keys().contains(self.index_diff.keys()[0]));
                assert(self.spec_index_diff().dom().contains(self.index_diff.keys()[0]));
            }
        }
        self.index_diff.len() > 0
    }

    /// The changes between the index and the work tree.
    pub fn workspace_diff(&self) -> (m: &PathMap<ChangeType>)
        ensures
            m.map() == self.spec_workspace_diff(),
            m.keys() == self.unstaged_names(),
            self.wf() ==> m.wf(),
    {
        &self.workspace_diff
    }

    pub fn has_workspace_changes(&self) -> (r: bool)
        requires
            self.wf(),
        ensures
            r <==> exists|k: Seq<u8>| self.spec_workspace_diff().dom().contains(k),
    {
        proof {
            if self.workspace_diff.keys().len() > 0 {
                assert(self.workspace_diff.keys().contains(self.workspace_diff.keys()[0]));
                assert(self.spec_workspace_diff().dom().contains(self.workspace_diff.keys()[0]));
            }
        }
        self.workspace_diff.len() > 0
    }

    /// The files of the tree of `HEAD`.
    pub fn head_diff(&self) -> (m: &PathMap<PathEntry>)
        ensures
            head_view(*m) == self.spec_head(),
            m.keys() == self.spec_head_keys(),
            self.wf() ==> m.wf(),
    {
        &self.head_diff
    }

    /// The stat of a known file of the work tree.
    pub fn stat_for(&self, key: &[u8]) -> (r: Option<&FileStat>)
        requires
            self.wf(),
        ensures
            r is Some <==> self.spec_stats().dom().contains(key@),
            r matches Some(st) ==> *st == self.spec_stats()[key@],
    {
        self.stats.get(key)
    }
}

/// An index whose entries all have the stat of their files shows no
/// change against the work tree.
pub proof fn lemma_clean_work(
    model: Seq<EntryView>,
    stats: Map<Seq<u8>, FileStat>,
    files: Map<Seq<u8>, WorkFileView>,
    i: int,
)
    requires
        0 <= i <= model.len(),
        forall|j: int|
            0 <= j < model.len() ==> stats.dom().contains((#[trigger] model[j]).name) && same_stat(
                model[j],
                stats[model[j].name],
            ) && same_time(model[j], stats[model[j].name]),
    ensures
        work_diff_upto(model, stats, files, i) == Map::<Seq<u8>, ChangeType>::empty(),
    decreases i,
{
    if i > 0 {
        lemma_clean_work(model, stats, files, i - 1);
    }
}

/// An index whose entries are the files of the tree of `HEAD`, with the
/// same modes and digests, shows no change against that tree.
pub proof fn lemma_clean_staged(model: Seq<EntryView>, head: Map<Seq<u8>, PathEntryView>, i: int)
    requires
        0 <= i <= model.len(),
        forall|j: int|
            0 <= j < model.len() ==> head.dom().contains((#[trigger] model[j]).name) && mode_word(
                head[model[j].name].mode,
            ) == model[j].meta.mode && head[model[j].name].sha == model[j].sha,
    ensures
        staged_upto(model, head, i) == Map::<Seq<u8>, ChangeType>::empty(),
    decreases i,
{
    if i > 0 {
        lemma_clean_staged(model, head, i - 1);
    }
}

/// Where the index holds every path of the tree of `HEAD`, no deletion
/// is added.
pub proof fn lemma_clean_deleted(
    base: Map<Seq<u8>, ChangeType>,
    head_keys: Seq<Seq<u8>>,
    names: Set<Seq<u8>>,
    i: int,
)
    requires
        0 <= i <= head_keys.len(),
        forall|j: int| 0 <= j < head_keys.len() ==> names.contains(#[trigger] head_keys[j]),
    ensures
        deleted_upto(base, head_keys, names, i) == base,
    decreases i,
{
    if i > 0 {
        lemma_clean_deleted(base, head_keys, names, i - 1);
    }
}

/// Where every file of the work tree that is seen is known, with the
/// directories above it, no name is untracked.
pub proof fn lemma_clean_untracked(paths: Seq<Seq<u8>>, known: Set<Seq<u8>>, i: int)
    requires
        0 <= i <= paths.len(),
        forall|j: int|
            0 <= j < paths.len() && visible(#[trigger] paths[j]) ==> untracked_name(
                known,
                paths[j],
            ) is None,
    ensures
        untracked_upto(paths, known, i) == Map::<Seq<u8>, ChangeType>::empty(),
    decreases i,
{
    if i > 0 {
        lemma_clean_untracked(paths, known, i - 1);
    }
}

/// One entry whose file shows as modified, among entries that are like
/// their files, is the one change against the work tree.
pub proof fn lemma_one_modified(
    model: Seq<EntryView>,
    stats: Map<Seq<u8>, FileStat>,
    files: Map<Seq<u8>, WorkFileView>,
    k: int,
    i: int,
)
    requires
        0 <= k < model.len(),
        0 <= i <= model.len(),
        forall|j: int| 0 <= j < model.len() ==> stats.dom().contains((#[trigger] model[j]).name),
        forall|j: int|
            0 <= j < model.len() && j != k ==> same_stat(
                #[trigger] model[j],
                stats[model[j].name],
            ) && same_time(model[j], stats[model[j].name]),
        work_change(model[k], stats, files) == Some(ChangeType::Modified),
    ensures
        work_diff_upto(model, stats, files, i) == (if i > k {
            Map::<Seq<u8>, ChangeType>::empty().insert(model[k].name, ChangeType::Modified)
        } else {
            Map::<Seq<u8>, ChangeType>::empty()
        }),
    decreases i,
{
    if i > 0 {
        lemma_one_modified(model, stats, files, k, i - 1);
    }
}

} // verus!
