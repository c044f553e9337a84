//! The work tree, held in memory: the regular files below its root, each
//! with its stat and its content, and the rules on which of them are seen.

use crate::bytes::{
    bytes_eq, copy_bytes, find_byte, index_of, last_index_of, lit, slice_range, starts_with, text,
};
use crate::errors::PidgitError;
use crate::index::entry::{dir_prefix, is_parent_dir, lemma_parent_prefix};
use crate::index::meta::FileStat;
use crate::object::blob::Blob;
use crate::pathmap::{ascending, lemma_map_at, PathMap};
use vstd::prelude::*;
use vstd::string::*;

verus! {

/// A file of the work tree as plain values.
pub struct WorkFileView {
    pub stat: FileStat,
    pub content: Seq<u8>,
}

/// A file of the work tree: its stat and its content.
#[derive(Debug)]
pub struct WorkFile {
    pub stat: FileStat,
    pub content: Vec<u8>,
}

impl View for WorkFile {
    type V = WorkFileView;

    open spec fn view(&self) -> WorkFileView {
        WorkFileView { stat: self.stat, content: self.content@ }
    }
}

/// The extension of a file name: what stands after its last dot, where
/// the name has a dot that is not its first byte.
pub open spec fn extension(name: Seq<u8>) -> Option<Seq<u8>> {
    let dot = last_index_of(name, 0x2e, name.len() as int);
    if dot <= 0 {
        None
    } else {
        Some(name.subrange(dot + 1, name.len() as int))
    }
}

/// A name that is passed over wherever it stands: the repository
/// directories `.git` and `.pidgit`, `target`, `.DS_Store`, and swap files
/// by their extension.
pub open spec fn ignored_name(name: Seq<u8>) -> bool {
    ||| name == text(".git"@)
    ||| name == text(".pidgit"@)
    ||| name == text("target"@)
    ||| name == text(".DS_Store"@)
    ||| extension(name) == Some(text("swp"@))
    ||| extension(name) == Some(text("swo"@))
}

/// No component of the path from position `i` on is passed over.
pub open spec fn visible_from(path: Seq<u8>, i: int) -> bool
    decreases path.len() - i,
{
    let e = index_of(path, 0x2f, i);
    if i < 0 || i > path.len() || e < i {
        false
    } else if ignored_name(path.subrange(i, e)) {
        false
    } else if e >= path.len() {
        true
    } else {
        visible_from(path, e + 1)
    }
}

/// The path is seen: none of its components is passed over.
pub open spec fn visible(path: Seq<u8>) -> bool {
    visible_from(path, 0)
}

/// `path` lies at or below `base`; the empty base and `.` stand for the
/// root.
pub open spec fn under(base: Seq<u8>, path: Seq<u8>) -> bool {
    base.len() == 0 || base == text("."@) || path == base || is_parent_dir(base, path)
}

/// Whether a name is passed over.
pub fn is_ignored(name: &[u8]) -> (r: bool)
    ensures
        r == ignored_name(name@),
{
    proof {
        reveal_strlit(".git");
        reveal_strlit(".pidgit");
        reveal_strlit("target");
        reveal_strlit(".DS_Store");
        reveal_strlit("swp");
        reveal_strlit("swo");
    }
    let git = lit(".git");
    let pidgit = lit(".pidgit");
    let target = lit("target");
    let ds = lit(".DS_Store");
    if bytes_eq(name, git.as_slice()) || bytes_eq(name, pidgit.as_slice()) || bytes_eq(
        name,
        target.as_slice(),
    ) || bytes_eq(name, ds.as_slice()) {
        return true;
    }
    let len = name.len();
    let mut dot: usize = len;
    while dot > 0 && name[dot - 1] != 0x2e
        invariant
            dot <= len,
            len == name@.len(),
            last_index_of(name@, 0x2e, len as int) == last_index_of(name@, 0x2e, dot as int),
        decreases dot,
    {
        dot -= 1;
    }
    // The last dot stands at `dot - 1`, if there is one.
    if dot <= 1 {
        return false;
    }
    let ext = slice_range(name, dot, len);
    let swp = lit("swp");
    let swo = lit("swo");
    bytes_eq(ext.as_slice(), swp.as_slice()) || bytes_eq(ext.as_slice(), swo.as_slice())
}

/// Whether a path is seen.
pub fn is_visible(path: &[u8]) -> (r: bool)
    ensures
        r == visible(path@),
{
    let len = path.len();
    let mut i: usize = 0;
    loop
        invariant_except_break
            len == path@.len(),
            i <= len,
            visible(path@) == visible_from(path@, i as int),
        ensures
            visible(path@),
        decreases len - i,
    {
        let e = find_byte(path, 0x2f, i);
        let comp = slice_range(path, i, e);
        if is_ignored(comp.as_slice()) {
            return false;
        }
        if e >= len {
            break;
        }
        i = e + 1;
    }
    true
}

/// Whether `base` stands for the root of the work tree.
pub fn is_root_path(base: &[u8]) -> (r: bool)
    ensures
        r == is_root(base@),
{
    proof {
        reveal_strlit(".");
    }
    let dot = lit(".");
    base.len() == 0 || bytes_eq(base, dot.as_slice())
}

/// Whether `path` lies at or below `base`.
pub fn is_under(base: &[u8], path: &[u8]) -> (r: bool)
    ensures
        r == under(base@, path@),
{
    proof {
        reveal_strlit(".");
    }
    let dot = lit(".");
    if base.len() == 0 || bytes_eq(base, dot.as_slice()) || bytes_eq(path, base) {
        return true;
    }
    let mut prefix = copy_bytes(base);
    prefix.push(0x2f);
    assert(prefix@ == dir_prefix(base@));
    proof {
        lemma_parent_prefix(base@, path@);
    }
    starts_with(path, prefix.as_slice())
}

/// The work tree.
#[derive(Debug)]
pub struct Workspace {
    path: Vec<u8>,
    files: PathMap<WorkFile>,
}

/// The path of `rel` below `root`: the two with a slash between them.
pub open spec fn joined(root: Seq<u8>, rel: Seq<u8>) -> Seq<u8> {
    root + seq![0x2fu8] + rel
}

impl Workspace {
    pub closed spec fn wf(&self) -> bool {
        self.files.wf()
    }

    /// The path of the root.
    pub closed spec fn root_path(&self) -> Seq<u8> {
        self.path@
    }

    /// The files by their paths below the root.
    pub closed spec fn files(&self) -> Map<Seq<u8>, WorkFileView> {
        Map::new(
            |k: Seq<u8>| self.files.map().dom().contains(k),
            |k: Seq<u8>| self.files.map()[k]@,
        )
    }

    /// The paths of the files in ascending byte order.
    pub closed spec fn paths(&self) -> Seq<Seq<u8>> {
        self.files.keys()
    }

    /// The ordered paths are the paths of the files.
    pub proof fn lemma_paths(&self)
        requires
            self.wf(),
        ensures
            ascending(self.paths()),
            forall|p: Seq<u8>| self.paths().contains(p) <==> self.files().dom().contains(p),
    {
    }

    /// An empty work tree at `path`.
    pub fn new(path: Vec<u8>) -> (w: Workspace)
        ensures
            w.wf(),
            w.root_path() == path@,
            w.files() == Map::<Seq<u8>, WorkFileView>::empty(),
    {
        let w = Workspace { path, files: PathMap::new() };
        assert(w.files() =~= Map::<Seq<u8>, WorkFileView>::empty());
        w
    }

    /// The path of the root.
    pub fn root(&self) -> (p: &Vec<u8>)
        ensures
            p@ == self.root_path(),
    {
        &self.path
    }

    /// The path of `rel` below the root.
    pub fn canonicalize(&self, rel: &[u8]) -> (p: Vec<u8>)
        ensures
            p@ == joined(self.root_path(), rel@),
    {
        let mut p = copy_bytes(self.path.as_slice());
        p.push(0x2f);
        p.extend_from_slice(rel);
        p
    }

    /// Puts a file at `path`, in place of what was there.
    pub fn put_file(&mut self, path: &[u8], stat: FileStat, content: Vec<u8>)
        requires
            old(self).wf(),
        ensures
            final(self).wf(),
            final(self).root_path() == old(self).root_path(),
            final(self).files() == old(self).files().insert(
                path@,
                (WorkFileView { stat, content: content@ }),
            ),
    {
        self.files.insert(copy_bytes(path), WorkFile { stat, content });
        assert(self.files() =~= old(self).files().insert(
            path@,
            (WorkFileView { stat, content: content@ }),
        ));
    }

    /// Takes the file at `path` away, if there is one.
    pub fn remove_file(&mut self, path: &[u8])
        requires
            old(self).wf(),
        ensures
            final(self).wf(),
            final(self).root_path() == old(self).root_path(),
            final(self).files() == old(self).files().remove(path@),
    {
        let _gone = self.files.remove(path);
        assert(self.files() =~= old(self).files().remove(path@));
    }

    /// The number of files, seen or not.
    pub fn len(&self) -> (n: usize)
        requires
            self.wf(),
        ensures
            n == self.paths().len(),
    {
        self.files.len()
    }

    /// The path at position `i` in ascending byte order.
    pub fn path_at(&self, i: usize) -> (p: &Vec<u8>)
        requires
            self.wf(),
            i < self.paths().len(),
        ensures
            p@ == self.paths()[i as int],
            self.files().dom().contains(p@),
    {
        self.files.key_at(i)
    }

    /// The file at position `i` in ascending byte order of the paths.
    pub fn file_at(&self, i: usize) -> (f: &WorkFile)
        requires
            self.wf(),
            i < self.paths().len(),
        ensures
            f@ == self.files()[self.paths()[i as int]],
    {
        proof {
            lemma_map_at(self.files.keys(), self.files.vals(), i as int);
        }
        self.files.value_at(i)
    }

    /// The stat of the file at `path`, if there is one.
    pub fn stat(&self, path: &[u8]) -> (r: Option<FileStat>)
        requires
            self.wf(),
        ensures
            r is Some <==> self.files().dom().contains(path@),
            r matches Some(st) ==> st == self.files()[path@].stat,
    {
        match self.files.get(path) {
            Some(f) => Some(f.stat),
            None => None,
        }
    }

    /// The content of the file at `path` as a blob, if there is one.
    pub fn read_blob(&self, path: &[u8]) -> (r: Option<Blob>)
        requires
            self.wf(),
        ensures
            r is Some <==> self.files().dom().contains(path@),
            r matches Some(b) ==> b@ == self.files()[path@].content,
    {
        match self.files.get(path) {
            Some(f) => Some(Blob::from_content(copy_bytes(f.content.as_slice()))),
            None => None,
        }
    }

    /// The content of the file at `path`, if there is one.
    pub fn read(&self, path: &[u8]) -> (r: Option<&WorkFile>)
        requires
            self.wf(),
        ensures
            r is Some <==> self.files().dom().contains(path@),
            r matches Some(f) ==> f@ == self.files()[path@],
    {
        self.files.get(path)
    }

    /// The files that are seen and lie at or below `base`, in ascending
    /// byte order. The root is always there, and may hold none. Any other
    /// path is there as far as a file that is seen lies at or below it:
    /// where there is none, the path does not exist.
    pub fn list_files_from_base(&self, base: &[u8]) -> (r: Result<Vec<Vec<u8>>, PidgitError>)
        requires
            self.wf(),
        ensures
            r is Err <==> !is_root(base@) && forall|i: int|
                0 <= i < self.paths().len() ==> !(visible(#[trigger] self.paths()[i]) && under(
                    base@,
                    self.paths()[i],
                )),
            r matches Ok(list) ==> listed(self.paths(), base@, list@),
            r matches Err(e) ==> e matches PidgitError::PathspecNotFound(p) && p@ == base@,
    {
        let mut out: Vec<Vec<u8>> = Vec::new();
        let n = self.files.len();
        let mut i: usize = 0;
        let ghost mut picks: Seq<int> = Seq::empty();
        while i < n
            invariant
                self.wf(),
                n == self.paths().len(),
                i <= n,
                picks.len() == out@.len(),
                forall|k: int|
                    0 <= k < picks.len() ==> 0 <= #[trigger] picks[k] < i && out@[k]@
                        == self.paths()[picks[k]] && visible(self.paths()[picks[k]]) && under(
                        base@,
                        self.paths()[picks[k]],
                    ),
                forall|k: int, l: int| 0 <= k < l < picks.len() ==> picks[k] < picks[l],
                forall|j: int|
                    0 <= j < i && visible(#[trigger] self.paths()[j]) && under(
                        base@,
                        self.paths()[j],
                    ) ==> picks.contains(j),
            decreases n - i,
        {
            let p = self.files.key_at(i);
            if is_visible(p.as_slice()) && is_under(base, p.as_slice()) {
                let ghost old_picks = picks;
                out.push(copy_bytes(p.as_slice()));
                proof {
                    picks = picks.push(i as int);
                    assert forall|j: int|
                        0 <= j < i + 1 && visible(#[trigger] self.paths()[j]) && under(
                            base@,
                            self.paths()[j],
                        ) implies picks.contains(j) by {
                        if j < i {
                            let k = choose|k: int| 0 <= k < old_picks.len() && old_picks[k] == j;
                            assert(picks[k] == j);
                        } else {
                            assert(picks[old_picks.len() as int] == j);
                        }
                    }
                }
            }
            i += 1;
        }
        if out.len() == 0 && !is_root_path(base) {
            Err(PidgitError::PathspecNotFound(copy_bytes(base)))
        } else {
            proof {
                assert(listed(self.paths(), base@, out@)) by {
                    assert(picked(self.paths(), base@, out@, picks));
                }
                if out.len() > 0 {
                    assert(0 <= picks[0] < self.paths().len());
                }
            }
            Ok(out)
        }
    }

    /// All the files that are seen, in ascending byte order.
    pub fn list_files(&self) -> (r: Result<Vec<Vec<u8>>, PidgitError>)
        requires
            self.wf(),
        ensures
            r matches Ok(list) && listed(self.paths(), Seq::empty(), list@),
    {
        let root: Vec<u8> = Vec::new();
        self.list_files_from_base(root.as_slice())
    }
}

/// `list` holds the paths at the positions `picks`, which are all the
/// positions of paths that are seen and lie at or below `base`, in
/// ascending order.
pub open spec fn picked(paths: Seq<Seq<u8>>, base: Seq<u8>, list: Seq<Vec<u8>>, picks: Seq<int>) -> bool {
    &&& picks.len() == list.len()
    &&& forall|k: int|
        0 <= k < picks.len() ==> 0 <= #[trigger] picks[k] < paths.len() && list[k]@
            == paths[picks[k]] && visible(paths[picks[k]]) && under(base, paths[picks[k]])
    &&& forall|k: int, l: int| 0 <= k < l < picks.len() ==> picks[k] < picks[l]
    &&& forall|j: int|
        0 <= j < paths.len() && visible(#[trigger] paths[j]) && under(base, paths[j])
            ==> picks.contains(j)
}

/// `list` holds exactly the paths that are seen and lie at or below
/// `base`, in the order of `paths`.
pub open spec fn listed(paths: Seq<Seq<u8>>, base: Seq<u8>, list: Seq<Vec<u8>>) -> bool {
    exists|picks: Seq<int>| picked(paths, base, list, picks)
}

/// Whether `base` stands for the root of the work tree.
pub open spec fn is_root(base: Seq<u8>) -> bool {
    base.len() == 0 || base == text("."@)
}

/// A child of a directory: its path, and whether it is a directory.
pub struct Child {
    pub path: Seq<u8>,
    pub is_dir: bool,
}

/// The child of `base` through which `path` is reached: for a file right
/// in `base` the file, for a file further down the directory of `base` in
/// which it lies; and `base` itself where it is the file. `None` for a
/// path that does not lie at or below `base`.
pub open spec fn child_of(base: Seq<u8>, path: Seq<u8>) -> Option<Child> {
    let start: int = if is_root(base) {
        0
    } else {
        (base.len() + 1) as int
    };
    let e = index_of(path, 0x2f, start);
    if !is_root(base) && path == base {
        Some(Child { path, is_dir: false })
    } else if is_root(base) || is_parent_dir(base, path) {
        Some(Child { path: path.subrange(0, e), is_dir: e < path.len() })
    } else {
        None
    }
}

/// The children of `base` through which the first `i` files that are seen
/// are reached, each with the answer whether it is a directory.
pub open spec fn children_upto(paths: Seq<Seq<u8>>, base: Seq<u8>, i: int) -> Map<Seq<u8>, bool>
    decreases i,
{
    if i <= 0 {
        Map::empty()
    } else if visible(paths[i - 1]) && child_of(base, paths[i - 1]) is Some {
        children_upto(paths, base, i - 1).insert(
            child_of(base, paths[i - 1])->0.path,
            child_of(base, paths[i - 1])->0.is_dir,
        )
    } else {
        children_upto(paths, base, i - 1)
    }
}

impl Workspace {
    /// The children of the directory `base`, as far as files that are
    /// seen lie in or below them, each with the answer whether it is a
    /// directory; for a file, the file itself. The root is always there,
    /// and may hold none; where any other path has none, it does not exist.
    pub fn list_dir(&self, base: &[u8]) -> (r: Result<PathMap<bool>, PidgitError>)
        requires
            self.wf(),
        ensures
            r is Err <==> !is_root(base@) && children_upto(
                self.paths(),
                base@,
                self.paths().len() as int,
            ) == Map::<Seq<u8>, bool>::empty(),
            r matches Ok(children) ==> children.wf() && children.map() == children_upto(
                self.paths(),
                base@,
                self.paths().len() as int,
            ),
            r matches Err(e) ==> e matches PidgitError::PathspecNotFound(p) && p@ == base@,
    {
        proof {
            reveal_strlit(".");
        }
        let dot = lit(".");
        let root = base.len() == 0 || bytes_eq(base, dot.as_slice());
        let start: usize = if root {
            0
        } else if base.len() < usize::MAX {
            base.len() + 1
        } else {
            return self.no_children(base);
        };
        let mut prefix = copy_bytes(base);
        prefix.push(0x2f);
        assert(prefix@ == dir_prefix(base@));
        let mut out: PathMap<bool> = PathMap::new();
        assert(out.map() =~= Map::<Seq<u8>, bool>::empty());
        let n = self.files.len();
        let mut i: usize = 0;
        while i < n
            invariant
                self.wf(),
                out.wf(),
                n == self.paths().len(),
                i <= n,
                root == is_root(base@),
                start == (if root {
                    0int
                } else {
                    (base@.len() + 1) as int
                }),
                prefix@ == dir_prefix(base@),
                out.map() == children_upto(self.paths(), base@, i as int),
            decreases n - i,
        {
            let p = self.files.key_at(i);
            if is_visible(p.as_slice()) {
                proof {
                    if !root {
                        lemma_parent_prefix(base@, p@);
                    }
                }
                if !root && bytes_eq(p.as_slice(), base) {
                    out.insert(copy_bytes(p.as_slice()), false);
                } else if root || starts_with(p.as_slice(), prefix.as_slice()) {
                    let e = find_byte(p.as_slice(), 0x2f, start);
                    let child = slice_range(p.as_slice(), 0, e);
                    out.insert(child, e < p.len());
                }
            }
            i += 1;
        }
        if out.len() == 0 {
            proof {
                if exists|k: Seq<u8>| out.map().dom().contains(k) {
                    let k = choose|k: Seq<u8>| out.map().dom().contains(k);
                    assert(out.keys().contains(k));
                }
                assert(out.map() =~= Map::<Seq<u8>, bool>::empty());
            }
            if root {
                Ok(out)
            } else {
                Err(PidgitError::PathspecNotFound(copy_bytes(base)))
            }
        } else {
            proof {
                crate::pathmap::lemma_map_at(out.keys(), out.vals(), 0);
            }
            Ok(out)
        }
    }

    /// The answer for a base that is as long as a path can be: nothing
    /// lies below it.
    fn no_children(&self, base: &[u8]) -> (r: Result<PathMap<bool>, PidgitError>)
        requires
            self.wf(),
            base@.len() == usize::MAX,
            !is_root(base@),
        ensures
            r is Err <==> !is_root(base@) && children_upto(
                self.paths(),
                base@,
                self.paths().len() as int,
            ) == Map::<Seq<u8>, bool>::empty(),
            r matches Ok(children) ==> children.wf() && children.map() == children_upto(
                self.paths(),
                base@,
                self.paths().len() as int,
            ),
            r matches Err(e) ==> e matches PidgitError::PathspecNotFound(p) && p@ == base@,
    {
        let mut out: PathMap<bool> = PathMap::new();
        assert(out.map() =~= Map::<Seq<u8>, bool>::empty());
        let n = self.files.len();
        let mut i: usize = 0;
        while i < n
            invariant
                self.wf(),
                out.wf(),
                n == self.paths().len(),
                i <= n,
                base@.len() == usize::MAX,
                !is_root(base@),
                out.map() == children_upto(self.paths(), base@, i as int),
            decreases n - i,
        {
            let p = self.files.key_at(i);
            let plen = p.len();
            assert(!is_parent_dir(base@, p@));
            if is_visible(p.as_slice()) && bytes_eq(p.as_slice(), base) {
                out.insert(copy_bytes(p.as_slice()), false);
            }
            i += 1;
        }
        if out.len() == 0 {
            proof {
                if exists|k: Seq<u8>| out.map().dom().contains(k) {
                    let k = choose|k: Seq<u8>| out.map().dom().contains(k);
                    assert(out.keys().contains(k));
                }
                assert(out.map() =~= Map::<Seq<u8>, bool>::empty());
            }
            Err(PidgitError::PathspecNotFound(copy_bytes(base)))
        } else {
            proof {
                crate::pathmap::lemma_map_at(out.keys(), out.vals(), 0);
            }
            Ok(out)
        }
    }
}

} // verus!
