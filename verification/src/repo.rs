//! The repository: its directory held in memory, the index, the refs and
//! the work tree, and the operations that bind them together.

use crate::bytes::{bytes_eq, copy_bytes, has_prefix, lit, slice_range, text};
use crate::errors::{kind_name, ObjectKind, PidgitError};
use crate::files::FileTree;
use crate::grefs::{
    branch_fault, branch_path, head_target, lemma_ref_content, path_of_name, ref_candidates, ref_content,
    is_fault, resolved, symref_target, Grefs, RefFault, MAX_SYMREF_DEPTH,
};
use crate::index::codec::index_bytes;
use crate::index::entry::{EntryView, IndexEntry};
use crate::index::Index;
use crate::lockfile::lock_path_of;
use crate::object::commit::{
    commit_text, names_view, parsed_commit, person_text, stamp_kept, stamp_text, trimmed,
    Commit, CommitView, Person, PersonView,
};
use crate::object::snapshot::{built, entries_of_index, tree_entry_of, trees_view, trees_wf};
use crate::object::tree::{
    entries_view, record_ok, tree_body, tree_id, PathEntryView, Tree, TreeView,
};
use crate::stored::{
    commit_room, lemma_commit_stored, lemma_store_step, new_are_first, trees_room, trees_stored,
};
use crate::object::{framed, loose, loose_content, readable, zlib_inflated, Object};
use crate::sha::{hex_of, lemma_unhex_hex, object_id, Sha};
use crate::index::flags::flags_for_len;
use crate::index::meta::meta_of;
use crate::object::tree::PathEntry;
use crate::pathmap::PathMap;
use crate::rev_parse::{parse_rev_bytes, parsed_rev, valid_refname, RevView, Revision};
use crate::status::{
    any_stale, blob_id, deleted_upto, flat_tree, head_view, read_tree, refreshed, staged_upto, stats_upto,
    tracked_set, tree_fault, untracked_upto, work_diff_upto, Status, MAX_TREE_DEPTH,
};
use crate::workspace::{is_root, under, visible, WorkFileView, Workspace};
use vstd::prelude::*;
use vstd::string::*;

verus! {

/// The path of the loose object with the given digest in hexadecimal,
/// below the repository directory: `objects/`, the first two digits, a
/// slash, and the other digits.
pub open spec fn object_path(hex: Seq<u8>) -> Seq<u8> {
    text("objects/"@) + hex.subrange(0, 2) + seq![0x2fu8] + hex.subrange(2, hex.len() as int)
}

/// What every path of an object whose digest begins with `short` begins
/// with.
pub open spec fn short_prefix(short: Seq<u8>) -> Seq<u8> {
    object_path(short)
}

/// The kind and body of the object that the file at `path` holds, where
/// there is such a file and it can be read.
pub open spec fn object_at(files: Map<Seq<u8>, Seq<u8>>, path: Seq<u8>) -> Option<
    (ObjectKind, Seq<u8>),
> {
    if !files.dom().contains(path) {
        None
    } else {
        match loose_content(files[path]) {
            Some((kind, body)) => if readable(kind, body) {
                Some((kind, body))
            } else {
                None
            },
            None => None,
        }
    }
}

/// `p` is the one path of a file that begins with `prefix`.
pub open spec fn only_match(files: Map<Seq<u8>, Seq<u8>>, prefix: Seq<u8>, p: Seq<u8>) -> bool {
    &&& files.dom().contains(p)
    &&& has_prefix(p, prefix)
    &&& forall|q: Seq<u8>| files.dom().contains(q) && has_prefix(q, prefix) ==> q == p
}

/// No file has a path that begins with `prefix`.
pub open spec fn none_begins(files: Map<Seq<u8>, Seq<u8>>, prefix: Seq<u8>) -> bool {
    forall|p: Seq<u8>| !(files.dom().contains(p) && has_prefix(p, prefix))
}

/// The error for the object at the path of the given digits: it cannot
/// be read where a file stands there, and is not found where none does.
pub open spec fn stored_fault(files: Map<Seq<u8>, Seq<u8>>, hex: Seq<u8>, e: PidgitError) -> bool {
    if hex.len() >= 2 && files.dom().contains(object_path(hex)) {
        e matches PidgitError::Generic(m) && m@ == text("malformed object: "@) + hex
    } else {
        e matches PidgitError::ObjectNotFound(n) && n@ == hex
    }
}

/// The error for a digest, or the beginning of one, that names no object
/// that can be read: it is too short; or its object is not found or cannot
/// be read; or the beginning of more than one.
pub open spec fn sha_fault(files: Map<Seq<u8>, Seq<u8>>, sha: Seq<u8>, e: PidgitError) -> bool {
    if sha.len() < 4 {
        e matches PidgitError::ObjectNotFound(m) && m@ == sha + text(" is too short to be a sha"@)
    } else if sha.len() == 40 {
        stored_fault(files, sha, e)
    } else if none_begins(files, short_prefix(sha)) {
        e matches PidgitError::ObjectNotFound(m) && m@ == sha
    } else if exists|p: Seq<u8>| only_match(files, short_prefix(sha), p) {
        e matches PidgitError::Generic(m) && m@ == text("malformed object: "@) + sha_of_path(
            choose|p: Seq<u8>| only_match(files, short_prefix(sha), p),
        )
    } else {
        e matches PidgitError::ObjectNotFound(m) && m@ == sha + text(" is ambiguous"@)
    }
}

/// The error for a ref that leads to no object that can be read: the
/// fault of the ref, or the error for the object of its digest.
pub open spec fn ref_fault(files: Map<Seq<u8>, Seq<u8>>, name: Seq<u8>, e: PidgitError) -> bool {
    match resolved(files, name, MAX_SYMREF_DEPTH as nat) {
        Err(f) => is_fault(e, f),
        Ok(sha) => stored_fault(files, hex_of(sha), e),
    }
}

/// The error for a name that stands for no object that can be read.
pub open spec fn name_fault(files: Map<Seq<u8>, Seq<u8>>, name: Seq<u8>, e: PidgitError) -> bool {
    match path_of_name(files, object_name(name)) {
        Some(p) => ref_fault(files, p, e),
        None => sha_fault(files, object_name(name), e),
    }
}

/// The object that a digest in hexadecimal, or the beginning of one,
/// names: nothing for fewer than four digits; for forty the object at
/// their path; else the object of the one file whose path begins like the
/// path of the digits, where there is exactly one.
pub open spec fn sha_object(files: Map<Seq<u8>, Seq<u8>>, sha: Seq<u8>) -> Option<
    (ObjectKind, Seq<u8>),
> {
    if sha.len() < 4 {
        None
    } else if sha.len() == 40 {
        object_at(files, object_path(sha))
    } else if exists|p: Seq<u8>| only_match(files, short_prefix(sha), p) {
        object_at(files, choose|p: Seq<u8>| only_match(files, short_prefix(sha), p))
    } else {
        None
    }
}

/// The object to which a ref resolves.
pub open spec fn ref_object(files: Map<Seq<u8>, Seq<u8>>, name: Seq<u8>) -> Option<
    (ObjectKind, Seq<u8>),
> {
    match resolved(files, name, MAX_SYMREF_DEPTH as nat) {
        Ok(sha) => object_at(files, object_path(hex_of(sha))),
        Err(_) => None,
    }
}

/// The object that a name stands for: where a ref file is found for the
/// name, the object of that ref; else the object that the name names as a
/// digest.
pub open spec fn named_object(files: Map<Seq<u8>, Seq<u8>>, name: Seq<u8>) -> Option<
    (ObjectKind, Seq<u8>),
> {
    match path_of_name(files, object_name(name)) {
        Some(p) => ref_object(files, p),
        None => sha_object(files, object_name(name)),
    }
}

/// The body of the commit that the name of a revision stands for: the
/// object of the name as a ref or, where there is none, as a digest, if
/// it is a commit.
pub open spec fn named_commit(files: Map<Seq<u8>, Seq<u8>>, name: Seq<u8>) -> Option<Seq<u8>> {
    let found = match ref_object(files, name) {
        Some(o) => Some(o),
        None => sha_object(files, name),
    };
    match found {
        Some((ObjectKind::Commit, body)) => Some(body),
        _ => None,
    }
}

/// The body of the commit that the first of the digests names.
pub open spec fn parent_at(files: Map<Seq<u8>, Seq<u8>>, parents: Seq<Seq<u8>>) -> Option<Seq<u8>> {
    if parents.len() > 0 && parents[0].len() >= 2 {
        match object_at(files, object_path(parents[0])) {
            Some((ObjectKind::Commit, body)) => Some(body),
            _ => None,
        }
    } else {
        None
    }
}

/// The body of the first parent of the commit with the given body.
pub open spec fn first_parent_of(files: Map<Seq<u8>, Seq<u8>>, body: Seq<u8>) -> Option<Seq<u8>> {
    match parsed_commit(body) {
        Some(c) => parent_at(files, c.parents),
        None => None,
    }
}

/// The body of the n-th ancestor along first parents.
pub open spec fn nth_parent(files: Map<Seq<u8>, Seq<u8>>, body: Option<Seq<u8>>, n: nat) -> Option<
    Seq<u8>,
>
    decreases n,
{
    if n == 0 {
        body
    } else {
        match body {
            Some(b) => nth_parent(files, first_parent_of(files, b), (n - 1) as nat),
            None => None,
        }
    }
}

/// The body of the commit that a revision stands for.
pub open spec fn rev_commit(files: Map<Seq<u8>, Seq<u8>>, rev: RevView) -> Option<Seq<u8>>
    decreases rev,
{
    match rev {
        RevView::Ref(name) => named_commit(files, name),
        RevView::Parent(inner) => match rev_commit(files, *inner) {
            Some(b) => first_parent_of(files, b),
            None => None,
        },
        RevView::Ancestor(inner, n) => nth_parent(files, rev_commit(files, *inner), n as nat),
    }
}

/// The body of the commit, where there is one.
pub open spec fn opt_content(o: Option<Commit>) -> Option<Seq<u8>> {
    match o {
        Some(c) => Some(c@.content),
        None => None,
    }
}

/// The kind and body of the object, where there is one.
pub open spec fn opt_object(r: Result<Object, PidgitError>) -> Option<(ObjectKind, Seq<u8>)> {
    match r {
        Ok(o) => Some((o.spec_kind(), o.body())),
        Err(_) => None,
    }
}

/// The path of an object in the store.
pub open spec fn is_object_path(p: Seq<u8>) -> bool {
    exists|sha: Seq<u8>| sha.len() == 20 && p == #[trigger] object_path(hex_of(sha))
}

/// What `after` holds and `before` did not are objects.
pub open spec fn grown(before: Map<Seq<u8>, Seq<u8>>, after: Map<Seq<u8>, Seq<u8>>) -> bool {
    &&& kept(before, after)
    &&& forall|p: Seq<u8>| #[trigger]
        after.dom().contains(p) ==> before.dom().contains(p) || is_object_path(p)
}

/// The path of an object is neither `HEAD` nor a lock file.
pub proof fn lemma_object_path_plain(p: Seq<u8>, target: Seq<u8>)
    requires
        is_object_path(p),
    ensures
        p != text("HEAD"@),
        p != lock_path_of(target),
{
    reveal_strlit("objects/");
    reveal_strlit("HEAD");
    reveal_strlit(".lock");
    let sha = choose|sha: Seq<u8>| sha.len() == 20 && p == #[trigger] object_path(hex_of(sha));
    lemma_unhex_hex(sha);
    let h = hex_of(sha);
    assert(p.len() == 49);
    assert(p[0] == 0x6f);
    assert(text("HEAD"@)[0] == 0x48);
    assert(p[48] == h[39]);
    let b = sha[19];
    assert((b & 0x0f) < 16) by (bit_vector);
    assert(h[39] != 0x6b);
    let l = lock_path_of(target);
    assert(l[l.len() - 1] == 0x6b);
}

/// No ancestor of nothing.
pub proof fn lemma_nth_none(files: Map<Seq<u8>, Seq<u8>>, n: nat)
    ensures
        nth_parent(files, None, n) is None,
    decreases n,
{
    if n > 0 {
        lemma_nth_none(files, (n - 1) as nat);
    }
}

/// The content of `HEAD` in a new repository.
pub open spec fn new_head() -> Seq<u8> {
    text("ref: refs/heads/main\n"@)
}

/// The content of `config` in a new repository.
pub open spec fn new_config() -> Seq<u8> {
    text(
        "[core]\n\trepositoryformatversion = 0\n\tfilemode = true\n\tbare = false\n\tlogallrefupdates = true\n\tignorecase = true\n\tprecomposeunicode = true\n"@,
    )
}

/// The files of a new repository: `HEAD`, `config`, and the file of an
/// empty index.
pub open spec fn new_files() -> Map<Seq<u8>, Seq<u8>> {
    Map::<Seq<u8>, Seq<u8>>::empty().insert(text("HEAD"@), new_head()).insert(
        text("config"@),
        new_config(),
    ).insert(text("index"@), index_bytes(2, Seq::empty()))
}

/// A text without the newlines at its end.
pub open spec fn without_newlines(message: Seq<u8>) -> Seq<u8>
    decreases message.len(),
{
    if message.len() > 0 && message.last() == 0x0a {
        without_newlines(message.drop_last())
    } else {
        message
    }
}

/// The message of a commit: the text without the newlines at its end,
/// and one newline after it.
pub open spec fn commit_message(message: Seq<u8>) -> Seq<u8> {
    without_newlines(message).push(0x0a)
}

/// The message of a commit ends with one newline, and with no more.
pub proof fn lemma_one_newline(message: Seq<u8>)
    ensures
        commit_message(message).len() >= 1,
        commit_message(message).last() == 0x0a,
        commit_message(message).len() >= 2 ==> commit_message(message)[commit_message(
            message,
        ).len() - 2] != 0x0a,
        commit_message(commit_message(message)) == commit_message(message),
    decreases message.len(),
{
    lemma_stripped(message);
    let m = commit_message(message);
    assert(m.drop_last() =~= without_newlines(message));
    lemma_strip_done(without_newlines(message));
}

/// A text without the newlines at its end ends with none.
proof fn lemma_stripped(message: Seq<u8>)
    ensures
        without_newlines(message).len() > 0 ==> without_newlines(message).last() != 0x0a,
    decreases message.len(),
{
    if message.len() > 0 && message.last() == 0x0a {
        lemma_stripped(message.drop_last());
    }
}

/// A text that ends with no newline stays as it is.
proof fn lemma_strip_done(message: Seq<u8>)
    requires
        message.len() > 0 ==> message.last() != 0x0a,
    ensures
        without_newlines(message) == message,
        without_newlines(message.push(0x0a)) == message,
{
    assert(message.push(0x0a).drop_last() =~= message);
}

/// The name under which `HEAD` is asked for: `head` and `@` stand for it.
pub open spec fn object_name(name: Seq<u8>) -> Seq<u8> {
    if name == text("head"@) || name == text("@"@) {
        text("HEAD"@)
    } else {
        name
    }
}

/// A repository.
#[derive(Debug)]
pub struct Repository {
    workspace: Workspace,
    git_dir: Vec<u8>,
    files: FileTree,
    index: Index,
    grefs: Grefs,
}

impl Repository {
    pub closed spec fn wf(&self) -> bool {
        &&& self.workspace.wf()
        &&& self.files.wf()
        &&& self.index.wf()
        &&& self.index.path() == text("index"@)
        &&& self.grefs.dir() == self.git_dir@
    }

    /// The files of the repository directory, by their paths below it.
    pub closed spec fn files_view(&self) -> Map<Seq<u8>, Seq<u8>> {
        self.files@
    }

    /// The index.
    pub closed spec fn spec_index(&self) -> Index {
        self.index
    }

    /// The work tree.
    pub closed spec fn spec_workspace(&self) -> Workspace {
        self.workspace
    }

    /// The path of the repository directory.
    pub closed spec fn dir(&self) -> Seq<u8> {
        self.git_dir@
    }

    /// What holds of a repository that is well formed.
    pub proof fn lemma_wf(&self)
        requires
            self.wf(),
        ensures
            self.spec_index().wf(),
            self.spec_workspace().wf(),
            self.spec_index().path() == text("index"@),
    {
    }

    /// A new repository for the work tree at `root`: `HEAD` points to the
    /// branch `main`, `config` holds the fixed text, and the index file
    /// holds an empty index.
    pub fn create_empty(root: Vec<u8>) -> (r: Result<Repository, PidgitError>)
        ensures
            r matches Ok(repo) ==> {
                &&& repo.wf()
                &&& repo.dir() == root@ + text("/.pidgit"@)
                &&& repo.spec_workspace().root_path() == root@
                &&& repo.spec_workspace().files() == Map::<
                    Seq<u8>,
                    crate::workspace::WorkFileView,
                >::empty()
                &&& repo.spec_index().model() == Seq::<EntryView>::empty()
                &&& repo.files_view() == new_files()
            },
            r is Ok,
    {
        proof {
            reveal_strlit("/.pidgit");
            reveal_strlit("HEAD");
            reveal_strlit("config");
            reveal_strlit("index");
            reveal_strlit("index.lock");
            reveal_strlit(".lock");
            reveal_strlit("ref: refs/heads/main\n");
            reveal_strlit(
                "[core]\n\trepositoryformatversion = 0\n\tfilemode = true\n\tbare = false\n\tlogallrefupdates = true\n\tignorecase = true\n\tprecomposeunicode = true\n",
            );
        }
        let mut git_dir = copy_bytes(root.as_slice());
        let suffix = lit("/.pidgit");
        git_dir.extend_from_slice(suffix.as_slice());
        let mut files = FileTree::new();
        let head = lit("HEAD");
        files.write(head.as_slice(), lit("ref: refs/heads/main\n"));
        let config = lit("config");
        files.write(
            config.as_slice(),
            lit(
                "[core]\n\trepositoryformatversion = 0\n\tfilemode = true\n\tbare = false\n\tlogallrefupdates = true\n\tignorecase = true\n\tprecomposeunicode = true\n",
            ),
        );
        let mut index = Index::new(lit("index"));
        proof {
            index.lemma_invariants();
            let lp = lock_path_of(text("index"@));
            assert(lp.len() == 10);
            assert(text("HEAD"@).len() == 4);
            assert(text("config"@).len() == 6);
            assert(!files@.dom().contains(lp));
        }
        match index.force_write(&mut files) {
            Ok(()) => {},
            Err(e) => {
                return Err(e);
            },
        }
        let grefs = Grefs::new(copy_bytes(git_dir.as_slice()));
        Ok(Repository { workspace: Workspace::new(root), git_dir, files, index, grefs })
    }

    /// The directories that a new repository has below its directory.
    pub fn layout_dirs() -> (dirs: Vec<Vec<u8>>)
        ensures
            dirs@.len() == 4,
            dirs@[0]@ == text("objects"@),
            dirs@[1]@ == text("refs/heads"@),
            dirs@[2]@ == text("refs/tags"@),
            dirs@[3]@ == text("refs/remotes"@),
    {
        proof {
            reveal_strlit("objects");
            reveal_strlit("refs/heads");
            reveal_strlit("refs/tags");
            reveal_strlit("refs/remotes");
        }
        let mut dirs: Vec<Vec<u8>> = Vec::new();
        dirs.push(lit("objects"));
        dirs.push(lit("refs/heads"));
        dirs.push(lit("refs/tags"));
        dirs.push(lit("refs/remotes"));
        dirs
    }

    /// The repository whose directory holds `files`, with the given work
    /// tree: the index is read from the index file, and is empty where
    /// there is none. Fails where the index file cannot be read.
    pub fn from_git_dir(git_dir: Vec<u8>, files: FileTree, workspace: Workspace) -> (r: Result<
        Repository,
        PidgitError,
    >)
        requires
            files.wf(),
            workspace.wf(),
        ensures
            r is Ok <==> (files@.dom().contains(text("index"@)) ==> crate::index::codec::parse_index(
                files@[text("index"@)],
            ) is Ok),
            r matches Ok(repo) ==> {
                &&& repo.wf()
                &&& repo.dir() == git_dir@
                &&& repo.files_view() == files@
                &&& repo.spec_workspace() == workspace
                &&& repo.spec_index().entry_map() == (if files@.dom().contains(text("index"@)) {
                    crate::index::codec::added_all(
                        Map::empty(),
                        crate::index::codec::file_entries(files@[text("index"@)]),
                    )
                } else {
                    Map::<Seq<u8>, EntryView>::empty()
                })
            },
            r matches Err(e) ==> e matches PidgitError::Index(fault)
                && crate::index::codec::parse_index(files@[text("index"@)]) == Err::<
                (u32, Seq<EntryView>),
                crate::errors::IndexFault,
            >(fault),
    {
        proof {
            reveal_strlit("index");
        }
        let mut index = Index::new(lit("index"));
        match index.load(&files) {
            Ok(()) => {
                let grefs = Grefs::new(copy_bytes(git_dir.as_slice()));
                Ok(Repository { workspace, git_dir, files, index, grefs })
            },
            Err(e) => Err(e),
        }
    }

    /// The repository of the work tree at `dir`: its directory is
    /// `.pidgit` below `dir`, and holds `files`.
    pub fn from_work_tree(dir: &[u8], files: FileTree, workspace: Workspace) -> (r: Result<
        Repository,
        PidgitError,
    >)
        requires
            files.wf(),
            workspace.wf(),
        ensures
            r is Ok <==> (files@.dom().contains(text("index"@)) ==> crate::index::codec::parse_index(
                files@[text("index"@)],
            ) is Ok),
            r matches Ok(repo) ==> {
                &&& repo.wf()
                &&& repo.dir() == dir@ + text("/.pidgit"@)
                &&& repo.files_view() == files@
                &&& repo.spec_workspace() == workspace
                &&& repo.spec_index().entry_map() == (if files@.dom().contains(text("index"@)) {
                    crate::index::codec::added_all(
                        Map::empty(),
                        crate::index::codec::file_entries(files@[text("index"@)]),
                    )
                } else {
                    Map::<Seq<u8>, EntryView>::empty()
                })
            },
            r matches Err(e) ==> e matches PidgitError::Index(fault)
                && crate::index::codec::parse_index(files@[text("index"@)]) == Err::<
                (u32, Seq<EntryView>),
                crate::errors::IndexFault,
            >(fault),
    {
        proof {
            reveal_strlit("/.pidgit");
        }
        let mut git_dir = copy_bytes(dir);
        let suffix = lit("/.pidgit");
        git_dir.extend_from_slice(suffix.as_slice());
        Repository::from_git_dir(git_dir, files, workspace)
    }

    /// The path of the repository directory.
    pub fn git_dir(&self) -> (d: &Vec<u8>)
        ensures
            d@ == self.dir(),
    {
        &self.git_dir
    }

    /// The work tree.
    pub fn workspace(&self) -> (w: &Workspace)
        ensures
            *w == self.spec_workspace(),
    {
        &self.workspace
    }

    /// Puts a file into the work tree.
    pub fn put_work_file(&mut self, path: &[u8], stat: crate::index::meta::FileStat, content: Vec<
        u8,
    >)
        requires
            old(self).wf(),
        ensures
            final(self).wf(),
            final(self).files_view() == old(self).files_view(),
            final(self).spec_index() == old(self).spec_index(),
            final(self).dir() == old(self).dir(),
            final(self).spec_workspace().root_path() == old(self).spec_workspace().root_path(),
            final(self).spec_workspace().files() == old(self).spec_workspace().files().insert(
                path@,
                (crate::workspace::WorkFileView { stat, content: content@ }),
            ),
    {
        self.workspace.put_file(path, stat, content);
    }

    /// Takes a file out of the work tree.
    pub fn remove_work_file(&mut self, path: &[u8])
        requires
            old(self).wf(),
        ensures
            final(self).wf(),
            final(self).files_view() == old(self).files_view(),
            final(self).spec_index() == old(self).spec_index(),
            final(self).dir() == old(self).dir(),
            final(self).spec_workspace().root_path() == old(self).spec_workspace().root_path(),
            final(self).spec_workspace().files() == old(self).spec_workspace().files().remove(
                path@,
            ),
    {
        self.workspace.remove_file(path);
    }

    /// The refs.
    pub fn grefs(&self) -> (g: &Grefs)
        requires
            self.wf(),
        ensures
            g.dir() == self.dir(),
    {
        &self.grefs
    }

    /// The files of the repository directory.
    pub fn files(&self) -> (f: &FileTree)
        ensures
            f@ == self.files_view(),
            self.wf() ==> f.wf(),
    {
        &self.files
    }

    /// The index.
    pub fn index(&self) -> (i: &Index)
        ensures
            *i == self.spec_index(),
    {
        &self.index
    }

    /// Adds an entry to the index.
    pub fn index_add(&mut self, entry: IndexEntry)
        requires
            old(self).wf(),
            entry.wf(),
        ensures
            final(self).wf(),
            final(self).files_view() == old(self).files_view(),
            final(self).spec_workspace() == old(self).spec_workspace(),
            final(self).dir() == old(self).dir(),
            final(self).spec_index().entry_map() == crate::index::added(
                old(self).spec_index().entry_map(),
                entry@,
            ),
    {
        self.index.add(entry);
    }

    /// Empties the index and reads the index file again.
    pub fn reload_index(&mut self) -> (r: Result<(), PidgitError>)
        requires
            old(self).wf(),
        ensures
            final(self).wf(),
            final(self).files_view() == old(self).files_view(),
            final(self).spec_workspace() == old(self).spec_workspace(),
            final(self).dir() == old(self).dir(),
            crate::index::reloaded(
                old(self).spec_index(),
                final(self).spec_index(),
                old(self).files_view(),
                r,
            ),
    {
        self.index.reload(&self.files)
    }

    /// Writes the index file if the index has changed.
    pub fn write_index(&mut self) -> (r: Result<(), PidgitError>)
        requires
            old(self).wf(),
            old(self).spec_index().names().len() <= u32::MAX,
        ensures
            final(self).wf(),
            final(self).spec_workspace() == old(self).spec_workspace(),
            final(self).dir() == old(self).dir(),
            final(self).spec_index().model() == old(self).spec_index().model(),
            final(self).spec_index().entry_map() == old(self).spec_index().entry_map(),
            !old(self).spec_index().dirty() ==> r is Ok && final(self).files_view() == old(self).files_view(),
            old(self).spec_index().dirty() ==> crate::index::written(
                old(self).spec_index(),
                final(self).spec_index(),
                old(self).files_view(),
                final(self).files_view(),
                r,
            ),
    {
        self.index.write(&mut self.files)
    }

    /// The path of the loose object with the given digest in hexadecimal,
    /// below the repository directory.
    pub fn path_for_sha(sha: &[u8]) -> (p: Vec<u8>)
        requires
            sha@.len() >= 2,
        ensures
            p@ == object_path(sha@),
    {
        proof {
            reveal_strlit("objects/");
        }
        let mut p = lit("objects/");
        let first = slice_range(sha, 0, 2);
        p.extend_from_slice(first.as_slice());
        p.push(0x2f);
        let rest = slice_range(sha, 2, sha.len());
        p.extend_from_slice(rest.as_slice());
        p
    }

    /// The object that the file at `path` holds.
    fn object_from_file(&self, path: &[u8], name: &[u8]) -> (r: Result<Object, PidgitError>)
        requires
            self.wf(),
        ensures
            r is Ok <==> object_at(self.files_view(), path@) is Some,
            r matches Ok(o) ==> object_at(self.files_view(), path@) == Some(
                (o.spec_kind(), o.body()),
            ) && o.faithful(),
            r matches Err(e) ==> (if self.files_view().dom().contains(path@) {
                e matches PidgitError::Generic(m) && m@ == text("malformed object: "@) + name@
            } else {
                e matches PidgitError::ObjectNotFound(n) && n@ == name@
            }),
    {
        proof {
            reveal_strlit("malformed object: ");
        }
        let stored = match self.files.read(path) {
            Some(s) => s,
            None => {
                return Err(PidgitError::ObjectNotFound(copy_bytes(name)));
            },
        };
        match Object::from_git_db(stored.as_slice()) {
            Some(o) => Ok(o),
            None => {
                let mut m = lit("malformed object: ");
                m.extend_from_slice(name);
                Err(PidgitError::Generic(m))
            },
        }
    }

    /// The object with the given digest in hexadecimal.
    pub fn object_for_sha(&self, sha: &[u8]) -> (r: Result<Object, PidgitError>)
        requires
            self.wf(),
        ensures
            sha@.len() < 2 ==> r is Err,
            sha@.len() >= 2 ==> (r is Ok <==> object_at(self.files_view(), object_path(sha@))
                is Some),
            r matches Ok(o) ==> object_at(self.files_view(), object_path(sha@)) == Some(
                (o.spec_kind(), o.body()),
            ) && o.faithful(),
            r matches Err(e) ==> stored_fault(self.files_view(), sha@, e),
    {
        if sha.len() < 2 {
            return Err(PidgitError::ObjectNotFound(copy_bytes(sha)));
        }
        let path = Repository::path_for_sha(sha);
        self.object_from_file(path.as_slice(), sha)
    }

    /// Writes an object of the given kind and body into the object store,
    /// unless a file stands at its path already, and gives its digest. An
    /// object that was written is read back as the same kind and body.
    pub fn write_raw(&mut self, kind: ObjectKind, body: &[u8]) -> (sha: Sha)
        requires
            old(self).wf(),
        ensures
            final(self).wf(),
            sha.wf(),
            sha@ == object_id(kind_name(kind), body@),
            final(self).spec_index() == old(self).spec_index(),
            final(self).spec_workspace() == old(self).spec_workspace(),
            final(self).dir() == old(self).dir(),
            old(self).files_view().dom().contains(object_path(hex_of(sha@))) ==> final(self).files_view() == old(self).files_view(),
            !old(self).files_view().dom().contains(object_path(hex_of(sha@))) ==> {
                &&& final(self).files_view() == old(self).files_view().insert(
                    object_path(hex_of(sha@)),
                    loose(kind, body@),
                )
                &&& zlib_inflated(final(self).files_view()[object_path(hex_of(sha@))]) == Some(
                    framed(kind, body@),
                )
                &&& loose_content(final(self).files_view()[object_path(hex_of(sha@))]) == Some(
                    (kind, body@),
                )
                &&& object_at(final(self).files_view(), object_path(hex_of(sha@))) == (if readable(
                    kind,
                    body@,
                ) {
                    Some((kind, body@))
                } else {
                    None
                })
            },
    {
        let name = kind.type_str();
        let sha = Sha::header_and_body(name.as_slice(), body);
        let hex = sha.hexdigest();
        let path = Repository::path_for_sha(hex.as_slice());
        if self.files.is_file(path.as_slice()) {
            return sha;
        }
        let stored = Object::to_loose(kind, body);
        self.files.write(path.as_slice(), stored);
        sha
    }

    /// Writes an object into the object store, unless a file stands at
    /// its path already: the new file inflates to the header and the body of
    /// the object, and no other file changes. An object that is what its
    /// body reads as is read back from the new file as the same kind and
    /// body.
    pub fn write_object(&mut self, obj: &Object) -> (r: Result<(), PidgitError>)
        requires
            old(self).wf(),
        ensures
            final(self).wf(),
            r is Ok,
            final(self).spec_index() == old(self).spec_index(),
            final(self).spec_workspace() == old(self).spec_workspace(),
            final(self).dir() == old(self).dir(),
            old(self).files_view().dom().contains(object_path(hex_of(obj.id()))) ==> final(self).files_view() == old(self).files_view(),
            !old(self).files_view().dom().contains(object_path(hex_of(obj.id()))) ==> {
                &&& final(self).files_view() == old(self).files_view().insert(
                    object_path(hex_of(obj.id())),
                    loose(obj.spec_kind(), obj.body()),
                )
                &&& zlib_inflated(final(self).files_view()[object_path(hex_of(obj.id()))]) == Some(
                    framed(obj.spec_kind(), obj.body()),
                )
                &&& loose_content(final(self).files_view()[object_path(hex_of(obj.id()))])
                    == Some((obj.spec_kind(), obj.body()))
                &&& obj.faithful() ==> object_at(
                    final(self).files_view(),
                    object_path(hex_of(obj.id())),
                ) == Some((obj.spec_kind(), obj.body()))
            },
    {
        let body = obj.raw_content();
        let _sha = self.write_raw(obj.kind(), body.as_slice());
        Ok(())
    }

    /// The object whose digest in hexadecimal is `sha`, or begins with
    /// it. A text of fewer than four digits is too short; one of forty
    /// names its object; any other has to be the beginning of the digest of
    /// exactly one object.
    pub fn resolve_sha(&self, sha: &[u8]) -> (r: Result<Object, PidgitError>)
        requires
            self.wf(),
        ensures
            opt_object(r) == sha_object(self.files_view(), sha@),
            r matches Ok(o) ==> o.faithful(),
            r matches Err(e) ==> sha_fault(self.files_view(), sha@, e),
    {
        proof {
            reveal_strlit(" is too short to be a sha");
            reveal_strlit(" is ambiguous");
        }
        if sha.len() < 4 {
            let mut m = copy_bytes(sha);
            let tail = lit(" is too short to be a sha");
            m.extend_from_slice(tail.as_slice());
            assert(m@ == sha@ + text(" is too short to be a sha"@));
            return Err(PidgitError::ObjectNotFound(m));
        }
        if sha.len() == 40 {
            return self.object_for_sha(sha);
        }
        let prefix = Repository::path_for_sha(sha);
        let found = self.files.paths_under(prefix.as_slice());
        if found.len() == 0 {
            proof {
                assert forall|p: Seq<u8>| !only_match(self.files_view(), short_prefix(sha@), p) by {
                    if only_match(self.files_view(), short_prefix(sha@), p) {
                        let i = choose|i: int| 0 <= i < found@.len() && #[trigger] found@[i]@ == p;
                    }
                }
                assert forall|p: Seq<u8>|
                    !(self.files_view().dom().contains(p) && has_prefix(p, short_prefix(sha@))) by {
                    if self.files_view().dom().contains(p) && has_prefix(p, short_prefix(sha@)) {
                        let i = choose|i: int| 0 <= i < found@.len() && #[trigger] found@[i]@ == p;
                    }
                }
            }
            return Err(PidgitError::ObjectNotFound(copy_bytes(sha)));
        }
        if found.len() > 1 {
            proof {
                assert forall|p: Seq<u8>| !only_match(self.files_view(), short_prefix(sha@), p) by {
                    if only_match(self.files_view(), short_prefix(sha@), p) {
                        assert(found@[0]@ == p);
                        assert(found@[1]@ == p);
                    }
                }
            }
            assert(self.files_view().dom().contains(found@[0]@) && has_prefix(
                found@[0]@,
                short_prefix(sha@),
            ));
            let mut m = copy_bytes(sha);
            let tail = lit(" is ambiguous");
            m.extend_from_slice(tail.as_slice());
            assert(m@ == sha@ + text(" is ambiguous"@));
            assert(!none_begins(self.files_view(), short_prefix(sha@)));
            assert(!exists|p: Seq<u8>| only_match(self.files_view(), short_prefix(sha@), p));
            return Err(PidgitError::ObjectNotFound(m));
        }
        let path = &found[0];
        proof {
            assert forall|q: Seq<u8>|
                self.files_view().dom().contains(q) && has_prefix(q, short_prefix(sha@)) implies q
                == path@ by {
                let i = choose|i: int| 0 <= i < found@.len() && #[trigger] found@[i]@ == q;
            }
            assert(only_match(self.files_view(), short_prefix(sha@), path@));
            let chosen = choose|p: Seq<u8>| only_match(self.files_view(), short_prefix(sha@), p);
            assert(chosen == path@);
            assert(self.files_view().dom().contains(path@) && has_prefix(
                path@,
                short_prefix(sha@),
            ));
        }
        let name = sha_from_path(path.as_slice());
        self.object_from_file(path.as_slice(), name.as_slice())
    }

    /// The object to which a ref resolves.
    pub fn resolve_ref(&self, refstr: &[u8]) -> (r: Result<Object, PidgitError>)
        requires
            self.wf(),
        ensures
            opt_object(r) == ref_object(self.files_view(), refstr@),
            r matches Ok(o) ==> o.faithful(),
            r matches Err(e) ==> ref_fault(self.files_view(), refstr@, e),
    {
        let sha = match self.grefs.resolve(&self.files, refstr) {
            Ok(s) => s,
            Err(e) => {
                return Err(e);
            },
        };
        let hex = sha.hexdigest();
        self.object_for_sha(hex.as_slice())
    }

    /// The object that a name stands for: `head` and `@` stand for
    /// `HEAD`; a name for which a ref file is found is resolved as that
    /// ref; any other name is taken as a digest or the beginning of one.
    pub fn resolve_object(&self, name: &[u8]) -> (r: Result<Object, PidgitError>)
        requires
            self.wf(),
        ensures
            opt_object(r) == named_object(self.files_view(), name@),
            r matches Ok(o) ==> o.faithful(),
            r matches Err(e) ==> name_fault(self.files_view(), name@, e),
    {
        proof {
            reveal_strlit("head");
            reveal_strlit("@");
            reveal_strlit("HEAD");
        }
        let lower = lit("head");
        let at = lit("@");
        let to_match = if bytes_eq(name, lower.as_slice()) || bytes_eq(name, at.as_slice()) {
            lit("HEAD")
        } else {
            copy_bytes(name)
        };
        match self.grefs.path_for_name(&self.files, to_match.as_slice()) {
            Some(path) => self.resolve_ref(path.as_slice()),
            None => self.resolve_sha(to_match.as_slice()),
        }
    }

    /// The commit to which `HEAD` resolves, if it resolves to one.
    pub fn head(&self) -> (r: Option<Commit>)
        requires
            self.wf(),
        ensures
            opt_content(r) == (match ref_object(self.files_view(), text("HEAD"@)) {
                Some((ObjectKind::Commit, body)) => Some(body),
                _ => None,
            }),
            r matches Some(c) ==> Some(c@) == parsed_commit(c@.content),
    {
        proof {
            reveal_strlit("HEAD");
        }
        let head = lit("HEAD");
        match self.resolve_ref(head.as_slice()) {
            Ok(Object::Commit(c)) => Some(c),
            _ => None,
        }
    }

    /// Writes the trees of the index into the object store, the trees of
    /// the subdirectories before the tree that names them, and gives the
    /// digest of the tree of the root. Fails, and writes nothing, where an
    /// entry of the index has an unknown mode word.
    pub fn write_tree(&mut self) -> (r: Result<Sha, PidgitError>)
        requires
            old(self).wf(),
        ensures
            final(self).wf(),
            final(self).spec_index() == old(self).spec_index(),
            final(self).spec_workspace() == old(self).spec_workspace(),
            final(self).dir() == old(self).dir(),
            grown(old(self).files_view(), final(self).files_view()),
            made_only(
                old(self).files_view(),
                final(self).files_view(),
                tree_files(built(tree_entries(old(self).spec_index().model()))),
            ),
            r is Ok <==> modes_known(old(self).spec_index().model()),
            r is Err ==> final(self).files_view() == old(self).files_view(),
            r matches Err(e) ==> (e matches PidgitError::Generic(m) && m@ == text(
                "unknown mode in the index"@,
            )),
            r matches Ok(sha) ==> {
                &&& sha.wf()
                &&& sha@ == root_id(tree_entries(old(self).spec_index().model()))
                &&& final(self).files_view().dom().contains(object_path(hex_of(sha@)))
                &&& trees_written(
                    final(self).files_view(),
                    built(tree_entries(old(self).spec_index().model())),
                )
                &&& trees_room(
                    old(self).files_view(),
                    tree_entries(old(self).spec_index().model()),
                ) ==> trees_stored(
                    final(self).files_view(),
                    built(tree_entries(old(self).spec_index().model())),
                )
            },
    {
        proof {
            reveal_strlit("unknown mode in the index");
        }
        let entries = match entries_of_index(&self.index) {
            Some(e) => e,
            None => {
                return Err(PidgitError::Generic(lit("unknown mode in the index")));
            },
        };
        let ghost es = entries_view(entries@);
        proof {
            assert(es =~= tree_entries(self.spec_index().model())) by {
                assert forall|i: int| 0 <= i < es.len() implies Some(#[trigger] es[i])
                    == tree_entry_of(self.spec_index().model()[i]) by {
                    assert(es[i] == entries@[i]@);
                }
            }
        }
        let trees = Tree::build_all(entries);
        let ghost before = self.files_view();
        let ghost room = trees_room(before, es);
        let n = trees.len();
        let mut i: usize = 0;
        let nothing: Vec<u8> = Vec::new();
        let mut root = Sha::of(nothing.as_slice());
        proof {
            reveal_strlit("");
            if room {
                crate::canon::lemma_records_in_order(es);
                assert(trees_view(trees@).subrange(0, 0) =~= Seq::<TreeView>::empty());
            }
        }
        while i < n
            invariant
                room == trees_room(before, es),
                trees_view(trees@) == built(es),
                room ==> forall|k: int|
                    0 <= k < trees@.len() ==> crate::canon::names_fit(
                        (#[trigger] trees_view(trees@)[k]).entries,
                    ),
                room ==> trees_stored(
                    self.files_view(),
                    trees_view(trees@).subrange(0, i as int),
                ) && new_are_first(before, self.files_view(), trees_view(trees@), i as int),
                self.wf(),
                n == trees@.len(),
                n >= 1,
                i <= n,
                trees_wf(trees@),
                root.wf(),
                self.spec_index() == old(self).spec_index(),
                self.spec_workspace() == old(self).spec_workspace(),
                self.dir() == old(self).dir(),
                grown(before, self.files_view()),
                i > 0 ==> root@ == tree_id(trees@[i - 1]@.entries) && self.files_view().dom().contains(
                    object_path(hex_of(root@)),
                ),
                trees_written(self.files_view(), trees_view(trees@).subrange(0, i as int)),
                made_only(before, self.files_view(), tree_files(trees_view(trees@))),
            decreases n - i,
        {
            let body = trees[i].raw_content();
            let ghost mid = self.files_view();
            root = self.write_raw(ObjectKind::Tree, body.as_slice());
            proof {
                reveal_strlit("tree");
                lemma_grown_more(before, mid, self.files_view(), root@);
                let tv = trees_view(trees@);
                let now = self.files_view();
                assert(tv[i as int] == trees@[i as int]@);
                assert(tree_files(tv).contains(
                    (object_path(hex_of(root@)), loose(ObjectKind::Tree, body@)),
                ));
                lemma_made_more(
                    before,
                    mid,
                    now,
                    tree_files(tv),
                    object_path(hex_of(root@)),
                    loose(ObjectKind::Tree, body@),
                );
                if room {
                    assert(crate::canon::names_fit(tv[i as int].entries));
                    assert(trees@[i as int].wf());
                    assert forall|m: int| 0 <= m < tv[i as int].entries.len() implies record_ok(
                        #[trigger] tv[i as int].entries[m],
                    ) by {
                        assert(crate::canon::name_fits(tv[i as int].entries[m].path));
                    }
                    lemma_store_step(before, mid, now, tv, i as int);
                }
                assert forall|j: int| 0 <= j < i + 1 implies tree_id(
                    (#[trigger] tv.subrange(0, i + 1)[j]).entries,
                ).len() == 20 && now.dom().contains(
                    object_path(hex_of(tree_id(tv.subrange(0, i + 1)[j].entries))),
                ) by {
                    if j < i {
                        assert(tv.subrange(0, i as int)[j] == tv.subrange(0, i + 1)[j]);
                        assert(mid.dom().contains(
                            object_path(hex_of(tree_id(tv.subrange(0, i as int)[j].entries))),
                        ));
                    }
                }
            }
            i += 1;
        }
        proof {
            let tv = trees_view(trees@);
            assert(tv[n - 1] == trees@[n - 1]@);
            assert(root_id(es) == root@);
            assert(tv.subrange(0, n as int) =~= tv);
        }
        Ok(root)
    }

    /// Records the index as a commit: the trees of the index and the
    /// commit are written into the object store, then `HEAD` is moved to the
    /// commit. The parent is the object that `HEAD` names, if it names one;
    /// the message ends with exactly one newline. A commit of persons that
    /// stand in a commit as they are is read back from its body as it was
    /// made; and where the store has room for them, the commit and its
    /// trees are in the store under their identities afterwards. Fails where an entry of the index has an unknown mode word,
    /// where a date cannot be written and read again, where there is no
    /// `HEAD`, and where the ref to move is locked; the refs then stay as
    /// they were.
    pub fn commit(&mut self, message: &[u8], author: Person, committer: Person) -> (r: Result<
        Commit,
        PidgitError,
    >)
        requires
            old(self).wf(),
        ensures
            final(self).wf(),
            final(self).spec_index() == old(self).spec_index(),
            final(self).spec_workspace() == old(self).spec_workspace(),
            final(self).dir() == old(self).dir(),
            r is Ok <==> {
                &&& modes_known(old(self).spec_index().model())
                &&& stamp_kept(author@.timestamp, author@.offset)
                &&& stamp_kept(committer@.timestamp, committer@.offset)
                &&& old(self).files_view().dom().contains(text("HEAD"@))
                &&& !old(self).files_view().dom().contains(
                    lock_path_of(head_target(old(self).files_view())),
                )
            },
            r is Err ==> grown(old(self).files_view(), final(self).files_view()) && made_only(
                old(self).files_view(),
                final(self).files_view(),
                commit_made(
                    old(self).spec_index().model(),
                    old(self).files_view(),
                    author@,
                    committer@,
                    message@,
                ),
            ),
            r matches Err(e) ==> {
                if !modes_known(old(self).spec_index().model()) {
                    e matches PidgitError::Generic(m) && m@ == text("unknown mode in the index"@)
                } else if !stamp_kept(author@.timestamp, author@.offset) || !stamp_kept(
                    committer@.timestamp,
                    committer@.offset,
                ) {
                    e matches PidgitError::Generic(m) && m@ == text(
                        "cannot write the dates of the commit"@,
                    )
                } else if !old(self).files_view().dom().contains(text("HEAD"@)) {
                    e matches PidgitError::RefNotFound(n) && n@ == text("HEAD"@)
                } else {
                    e matches PidgitError::Lock(p) && p@ == lock_path_of(
                        head_target(old(self).files_view()),
                    )
                }
            },
            r matches Ok(c) ==> {
                let id = object_id(text("commit"@), c@.content);
                &&& c@ == (CommitView {
                    tree: hex_of(root_id(tree_entries(old(self).spec_index().model()))),
                    parents: head_parents(old(self).files_view()),
                    author: author@,
                    committer: committer@,
                    message: commit_message(message@),
                    content: new_commit_body(
                        old(self).spec_index().model(),
                        old(self).files_view(),
                        author@,
                        committer@,
                        message@,
                    ),
                })
                &&& grown(
                    old(self).files_view().insert(
                        head_target(old(self).files_view()),
                        ref_content(id),
                    ),
                    final(self).files_view(),
                )
                &&& made_only(
                    old(self).files_view().insert(
                        head_target(old(self).files_view()),
                        ref_content(id),
                    ),
                    final(self).files_view(),
                    commit_made(
                        old(self).spec_index().model(),
                        old(self).files_view(),
                        author@,
                        committer@,
                        message@,
                    ),
                )
                &&& crate::written::person_clean(author@) && crate::written::person_clean(
                    committer@,
                ) ==> parsed_commit(c@.content) == Some(c@)
                &&& commit_room(
                    old(self).files_view(),
                    tree_entries(old(self).spec_index().model()),
                    id,
                ) ==> {
                    &&& trees_stored(
                        final(self).files_view(),
                        built(tree_entries(old(self).spec_index().model())),
                    )
                    &&& object_at(final(self).files_view(), object_path(hex_of(id))) == (if readable(
                        ObjectKind::Commit,
                        c@.content,
                    ) {
                        Some((ObjectKind::Commit, c@.content))
                    } else {
                        None
                    })
                }
                &&& final(self).files_view().dom().contains(object_path(hex_of(id)))
                &&& trees_written(
                    final(self).files_view(),
                    built(tree_entries(old(self).spec_index().model())),
                )
                &&& resolved(final(self).files_view(), text("HEAD"@), MAX_SYMREF_DEPTH as nat)
                    == Ok::<Seq<u8>, RefFault>(id)
            },
    {
        proof {
            reveal_strlit("HEAD");
            reveal_strlit("commit");
            reveal_strlit("cannot write the dates of the commit");
            reveal_strlit("ref: ");
        }
        let ghost start = self.files_view();
        let head_name = lit("HEAD");
        let mut parents: Vec<Vec<u8>> = Vec::new();
        match self.resolve_object(head_name.as_slice()) {
            Ok(o) => {
                parents.push(o.sha().hexdigest());
            },
            Err(_) => {},
        }
        assert(names_view(parents@) =~= head_parents(start));
        let mut end: usize = message.len();
        assert(message@.subrange(0, end as int) =~= message@);
        while end > 0 && message[end - 1] == 0x0a
            invariant
                end <= message@.len(),
                without_newlines(message@) == without_newlines(message@.subrange(0, end as int)),
            decreases end,
        {
            assert(message@.subrange(0, end as int).drop_last() =~= message@.subrange(
                0,
                end - 1,
            ));
            end -= 1;
        }
        let mut msg = slice_range(message, 0, end);
        msg.push(0x0a);
        assert(msg@ =~= commit_message(message@));
        let tree_sha = match self.write_tree() {
            Ok(s) => s,
            Err(e) => {
                return Err(e);
            },
        };
        let ghost treed = self.files_view();
        let ghost made = commit_made(
            self.spec_index().model(),
            start,
            author@,
            committer@,
            message@,
        );
        proof {
            assert forall|p: Seq<u8>| #[trigger]
                treed.dom().contains(p) && !start.dom().contains(p) implies made.contains(
                (p, treed[p]),
            ) by {
                assert(tree_files(built(tree_entries(self.spec_index().model()))).contains(
                    (p, treed[p]),
                ));
            }
        }
        proof {
            crate::stored::lemma_hex_word(tree_sha@);
            assert forall|i: int| 0 <= i < parents@.len() implies crate::written::word(
                #[trigger] names_view(parents@)[i],
            ) by {
                match named_object(start, text("HEAD"@)) {
                    Some((kind, body)) => {
                        crate::stored::lemma_hex_word(object_id(kind_name(kind), body));
                    },
                    None => {},
                }
            }
        }
        let commit = match Commit::new(tree_sha.hexdigest(), parents, author, committer, msg) {
            Some(c) => c,
            None => {
                return Err(PidgitError::Generic(lit("cannot write the dates of the commit")));
            },
        };
        let body = commit.raw_content();
        let sha = self.write_raw(ObjectKind::Commit, body.as_slice());
        let ghost stored = self.files_view();
        proof {
            lemma_grown_more(start, treed, stored, sha@);
            lemma_grown_refs(start, stored);
            assert(made.contains((object_path(hex_of(sha@)), loose(ObjectKind::Commit, body@))));
            lemma_made_more(
                start,
                treed,
                stored,
                made,
                object_path(hex_of(sha@)),
                loose(ObjectKind::Commit, body@),
            );
        }
        match self.grefs.update_head(&mut self.files, &sha) {
            Ok(()) => {},
            Err(e) => {
                return Err(e);
            },
        }
        proof {
            let target = head_target(start);
            lemma_head_moved(stored, self.files_view(), sha@);
            lemma_object_path_is_no_ref(stored, hex_of(sha@));
            assert(grown(start.insert(target, ref_content(sha@)), self.files_view()));
            let es = tree_entries(self.spec_index().model());
            if commit_room(start, es, sha@) {
                let tv = built(es);
                assert forall|p: Seq<u8>| #[trigger]
                    treed.dom().contains(p) && !start.dom().contains(p) implies exists|j: int|
                    0 <= j < tv.len() && p == object_path(
                        hex_of(tree_id((#[trigger] tv[j]).entries)),
                    ) by {
                    assert(tree_files(tv).contains((p, treed[p])));
                }
                lemma_commit_stored(start, treed, stored, self.files_view(), tv, sha@, target);
            }
            let base = start.insert(target, ref_content(sha@));
            assert forall|p: Seq<u8>| #[trigger]
                self.files_view().dom().contains(p) && !base.dom().contains(p) implies made.contains(
                (p, self.files_view()[p]),
            ) by {
                assert(stored.dom().contains(p) && !start.dom().contains(p));
            }
            let trees = built(tree_entries(self.spec_index().model()));
            let now = self.files_view();
            assert forall|i: int| 0 <= i < trees.len() implies now.dom().contains(
                object_path(hex_of(tree_id((#[trigger] trees[i]).entries))),
            ) by {
                assert(treed.dom().contains(object_path(hex_of(tree_id(trees[i].entries)))));
                assert(stored.dom().contains(object_path(hex_of(tree_id(trees[i].entries)))));
            }
        }
        Ok(commit)
    }
}

/// Every file of `before` stands in `after` with what it held.
pub open spec fn kept(before: Map<Seq<u8>, Seq<u8>>, after: Map<Seq<u8>, Seq<u8>>) -> bool {
    forall|p: Seq<u8>| #[trigger]
        before.dom().contains(p) ==> after.dom().contains(p) && after[p] == before[p]
}

/// Every file that `after` holds and `before` did not is one of `made`,
/// which are paths with what the file at each holds.
pub open spec fn made_only(
    before: Map<Seq<u8>, Seq<u8>>,
    after: Map<Seq<u8>, Seq<u8>>,
    made: Set<(Seq<u8>, Seq<u8>)>,
) -> bool {
    forall|p: Seq<u8>| #[trigger]
        after.dom().contains(p) && !before.dom().contains(p) ==> made.contains((p, after[p]))
}

/// The loose object files of the trees, each at the path of its
/// identity.
pub open spec fn tree_files(trees: Seq<TreeView>) -> Set<(Seq<u8>, Seq<u8>)> {
    Set::new(
        |f: (Seq<u8>, Seq<u8>)|
            exists|j: int|
                0 <= j < trees.len() && f == (
                    object_path(hex_of(tree_id((#[trigger] trees[j]).entries))),
                    loose(ObjectKind::Tree, tree_body(trees[j].entries)),
                ),
    )
}

/// The body of the commit that `commit` makes of the index: the tree of
/// the index, the object that `HEAD` names as its parent, the two persons
/// with their dates, and the message.
pub open spec fn new_commit_body(
    model: Seq<EntryView>,
    files: Map<Seq<u8>, Seq<u8>>,
    author: PersonView,
    committer: PersonView,
    message: Seq<u8>,
) -> Seq<u8> {
    commit_text(
        hex_of(root_id(tree_entries(model))),
        head_parents(files),
        person_text(author.name, author.email),
        stamp_text(author.timestamp, author.offset),
        person_text(committer.name, committer.email),
        stamp_text(committer.timestamp, committer.offset),
        commit_message(message),
    )
}

/// The object files that `commit` makes: those of the trees of the index
/// and, where its dates can be written, that of the commit.
pub open spec fn commit_made(
    model: Seq<EntryView>,
    files: Map<Seq<u8>, Seq<u8>>,
    author: PersonView,
    committer: PersonView,
    message: Seq<u8>,
) -> Set<(Seq<u8>, Seq<u8>)> {
    let body = new_commit_body(model, files, author, committer, message);
    let trees = tree_files(built(tree_entries(model)));
    if stamp_kept(author.timestamp, author.offset) && stamp_kept(
        committer.timestamp,
        committer.offset,
    ) {
        trees.insert(
            (
                object_path(hex_of(object_id(text("commit"@), body))),
                loose(ObjectKind::Commit, body),
            ),
        )
    } else {
        trees
    }
}

/// What was made stays made when one more file is put into the store, or
/// none.
proof fn lemma_made_more(
    before: Map<Seq<u8>, Seq<u8>>,
    mid: Map<Seq<u8>, Seq<u8>>,
    after: Map<Seq<u8>, Seq<u8>>,
    made: Set<(Seq<u8>, Seq<u8>)>,
    path: Seq<u8>,
    content: Seq<u8>,
)
    requires
        made_only(before, mid, made),
        after == mid || (after == mid.insert(path, content) && made.contains((path, content))),
    ensures
        made_only(before, after, made),
{
    assert forall|p: Seq<u8>| #[trigger]
        after.dom().contains(p) && !before.dom().contains(p) implies made.contains(
        (p, after[p]),
    ) by {
        if after != mid && p != path {
            assert(mid.dom().contains(p));
        }
        if after == mid {
            assert(mid.dom().contains(p));
        }
    }
}

/// Every one of the trees has an identity of twenty bytes, and a file
/// stands in the store at the path of that identity.
pub open spec fn trees_written(files: Map<Seq<u8>, Seq<u8>>, trees: Seq<TreeView>) -> bool {
    forall|i: int|
        0 <= i < trees.len() ==> tree_id((#[trigger] trees[i]).entries).len() == 20
            && files.dom().contains(object_path(hex_of(tree_id(trees[i].entries))))
}

/// Every entry has a mode word that a tree can hold.
pub open spec fn modes_known(model: Seq<EntryView>) -> bool {
    forall|i: int| 0 <= i < model.len() ==> tree_entry_of(#[trigger] model[i]) is Some
}

/// The entries of the index as entries for trees.
pub open spec fn tree_entries(model: Seq<EntryView>) -> Seq<PathEntryView> {
    Seq::new(model.len(), |i: int| tree_entry_of(model[i])->0)
}

/// The parents that a new commit gets: the digest of the object that
/// `HEAD` names, where it names one.
pub open spec fn head_parents(files: Map<Seq<u8>, Seq<u8>>) -> Seq<Seq<u8>> {
    match named_object(files, text("HEAD"@)) {
        Some((kind, body)) => seq![hex_of(object_id(kind_name(kind), body))],
        None => Seq::empty(),
    }
}

/// A store that has grown stays one when an object is put into it.
proof fn lemma_grown_more(
    before: Map<Seq<u8>, Seq<u8>>,
    mid: Map<Seq<u8>, Seq<u8>>,
    after: Map<Seq<u8>, Seq<u8>>,
    sha: Seq<u8>,
)
    requires
        grown(before, mid),
        sha.len() == 20,
        after == mid || (!mid.dom().contains(object_path(hex_of(sha))) && after.dom() == mid.dom().insert(
            object_path(hex_of(sha)),
        ) && kept(mid, after)),
    ensures
        grown(before, after),
{
    assert forall|p: Seq<u8>| #[trigger] before.dom().contains(p) implies after.dom().contains(p)
        && after[p] == before[p] by {
        assert(mid.dom().contains(p));
    }
    assert forall|p: Seq<u8>| #[trigger] after.dom().contains(p) implies before.dom().contains(p)
        || is_object_path(p) by {
        if !mid.dom().contains(p) {
            assert(p == object_path(hex_of(sha)));
        }
    }
}

/// In a store that has grown, `HEAD` and the lock of the ref that it
/// moves are there exactly where they were.
proof fn lemma_grown_refs(before: Map<Seq<u8>, Seq<u8>>, after: Map<Seq<u8>, Seq<u8>>)
    requires
        grown(before, after),
    ensures
        after.dom().contains(text("HEAD"@)) == before.dom().contains(text("HEAD"@)),
        before.dom().contains(text("HEAD"@)) ==> head_target(after) == head_target(before)
            && after.dom().contains(lock_path_of(head_target(before))) == before.dom().contains(
            lock_path_of(head_target(before)),
        ),
{
    let head = text("HEAD"@);
    if after.dom().contains(head) && !before.dom().contains(head) {
        lemma_object_path_plain(head, head);
    }
    if before.dom().contains(head) {
        assert(after[head] == before[head]);
        let lock = lock_path_of(head_target(before));
        if after.dom().contains(lock) && !before.dom().contains(lock) {
            lemma_object_path_plain(lock, head_target(before));
        }
    }
}

/// The identity of the tree of the root for a flat list of paths.
pub open spec fn root_id(es: Seq<PathEntryView>) -> Seq<u8> {
    tree_id(built(es).last().entries)
}

/// The path of an object is neither `HEAD` nor the lock of a ref.
proof fn lemma_object_path_is_no_ref(files: Map<Seq<u8>, Seq<u8>>, hex: Seq<u8>)
    ensures
        object_path(hex) != text("HEAD"@),
{
    reveal_strlit("objects/");
    reveal_strlit("HEAD");
    assert(object_path(hex)[0] == 0x6f);
    assert(text("HEAD"@)[0] == 0x48);
}

/// After `HEAD` was moved to a digest, it resolves to that digest.
proof fn lemma_head_moved(before: Map<Seq<u8>, Seq<u8>>, after: Map<Seq<u8>, Seq<u8>>, sha: Seq<u8>)
    requires
        sha.len() == 20,
        before.dom().contains(text("HEAD"@)),
        after == before.insert(head_target(before), ref_content(sha)),
    ensures
        resolved(after, text("HEAD"@), MAX_SYMREF_DEPTH as nat) == Ok::<Seq<u8>, RefFault>(sha),
{
    reveal_strlit("HEAD");
    reveal_strlit("ref: ");
    lemma_ref_content(sha);
    let head = text("HEAD"@);
    let target = head_target(before);
    assert(ref_candidates(head)[0] == head);
    assert(path_of_name(after, head) == Some(head));
    if target == head {
        assert(after[head] == ref_content(sha));
    } else {
        assert(after[head] == before[head]);
        assert(symref_target(trimmed(before[head])) == Some(target));
        assert(ref_candidates(target)[0] == target);
        assert(path_of_name(after, target) == Some(target));
        assert(after[target] == ref_content(sha));
        assert(resolved(after, target, (MAX_SYMREF_DEPTH - 1) as nat) == Ok::<Seq<u8>, RefFault>(
            sha,
        ));
    }
}

/// The digest that the path of a loose object names: its last two
/// components, put together.
pub open spec fn sha_of_path(path: Seq<u8>) -> Seq<u8> {
    let last = crate::bytes::last_index_of(path, 0x2f, path.len() as int);
    let prev = crate::bytes::last_index_of(path, 0x2f, last);
    if last < 0 {
        path
    } else {
        path.subrange(prev + 1, last) + path.subrange(last + 1, path.len() as int)
    }
}

/// The digest that the path of a loose object names: for
/// `.git/objects/04/2348ac` it is `042348ac`.
pub fn sha_from_path(path: &[u8]) -> (sha: Vec<u8>)
    ensures
        sha@ == sha_of_path(path@),
{
    let len = path.len();
    let mut last: usize = len;
    while last > 0 && path[last - 1] != 0x2f
        invariant
            last <= len,
            len == path@.len(),
            crate::bytes::last_index_of(path@, 0x2f, len as int) == crate::bytes::last_index_of(
                path@,
                0x2f,
                last as int,
            ),
        decreases last,
    {
        last -= 1;
    }
    if last == 0 {
        let out = copy_bytes(path);
        return out;
    }
    // The last slash stands at `last - 1`.
    let slash: usize = last - 1;
    let mut prev: usize = slash;
    while prev > 0 && path[prev - 1] != 0x2f
        invariant
            prev <= slash < len,
            len == path@.len(),
            crate::bytes::last_index_of(path@, 0x2f, slash as int) == crate::bytes::last_index_of(
                path@,
                0x2f,
                prev as int,
            ),
        decreases prev,
    {
        prev -= 1;
    }
    let mut out = slice_range(path, prev, slash);
    let tail = slice_range(path, last, len);
    out.extend_from_slice(tail.as_slice());
    out
}

/// The entry that `add` makes for a file of the work tree.
pub open spec fn fresh_entry(path: Seq<u8>, file: WorkFileView) -> EntryView {
    EntryView {
        meta: meta_of(file.stat),
        sha: blob_id(file.content),
        flags: flags_for_len(path.len()),
        extended: 0,
        name: path,
    }
}

/// Whether `add` takes the file at `path`: it is seen, lies at or below
/// `base`, and its path can be the name of an entry.
pub open spec fn taken(base: Seq<u8>, path: Seq<u8>) -> bool {
    visible(path) && under(base, path) && crate::index::entry::name_ok(path)
}

/// The entries of the index after the first `i` files of the work tree
/// were added, as far as `add` takes them.
pub open spec fn added_files(
    start: Map<Seq<u8>, EntryView>,
    paths: Seq<Seq<u8>>,
    files: Map<Seq<u8>, WorkFileView>,
    base: Seq<u8>,
    i: int,
) -> Map<Seq<u8>, EntryView>
    decreases i,
{
    if i <= 0 {
        start
    } else if taken(base, paths[i - 1]) {
        crate::index::added(
            added_files(start, paths, files, base, i - 1),
            fresh_entry(paths[i - 1], files[paths[i - 1]]),
        )
    } else {
        added_files(start, paths, files, base, i - 1)
    }
}

/// One of the first `i` files of the work tree is taken by `add`.
pub open spec fn any_taken(paths: Seq<Seq<u8>>, base: Seq<u8>, i: int) -> bool {
    exists|j: int| 0 <= j < i && taken(base, #[trigger] paths[j])
}

/// The loose object files of the blobs of the first `i` files that `add`
/// takes, each at the path of its identity.
pub open spec fn blob_files(
    paths: Seq<Seq<u8>>,
    files: Map<Seq<u8>, WorkFileView>,
    base: Seq<u8>,
    i: int,
) -> Set<(Seq<u8>, Seq<u8>)> {
    Set::new(
        |f: (Seq<u8>, Seq<u8>)|
            exists|j: int|
                0 <= j < i && taken(base, #[trigger] paths[j]) && f == (
                    object_path(hex_of(blob_id(files[paths[j]].content))),
                    loose(ObjectKind::Blob, files[paths[j]].content),
                ),
    )
}

/// The blob of each of the first `i` files that `add` takes is in the
/// store.
pub open spec fn blobs_stored(
    store: Map<Seq<u8>, Seq<u8>>,
    paths: Seq<Seq<u8>>,
    files: Map<Seq<u8>, WorkFileView>,
    base: Seq<u8>,
    i: int,
) -> bool {
    forall|j: int|
        0 <= j < i && taken(base, #[trigger] paths[j]) ==> store.dom().contains(
            object_path(hex_of(blob_id(files[paths[j]].content))),
        )
}

/// The body of the commit that digits name, where the store holds one
/// at their path.
pub open spec fn commit_at(files: Map<Seq<u8>, Seq<u8>>, hex: Seq<u8>) -> Option<Seq<u8>> {
    if hex.len() < 2 {
        None
    } else {
        match object_at(files, object_path(hex)) {
            Some((ObjectKind::Commit, body)) => Some(body),
            _ => None,
        }
    }
}

/// The bodies of the commits that the first `i` of the digests name, in
/// their order; a digest that names no commit is passed over.
pub open spec fn parent_bodies(files: Map<Seq<u8>, Seq<u8>>, parents: Seq<Seq<u8>>, i: int) -> Seq<
    Seq<u8>,
>
    decreases i,
{
    if i <= 0 {
        Seq::empty()
    } else {
        match commit_at(files, parents[i - 1]) {
            Some(body) => parent_bodies(files, parents, i - 1).push(body),
            None => parent_bodies(files, parents, i - 1),
        }
    }
}

/// The bodies of commits.
pub open spec fn bodies(commits: Seq<Commit>) -> Seq<Seq<u8>> {
    Seq::new(commits.len(), |i: int| commits[i]@.content)
}

/// No file among the first `i` is seen and lies at or below `base`.
pub open spec fn none_under(paths: Seq<Seq<u8>>, base: Seq<u8>, i: int) -> bool {
    forall|j: int| 0 <= j < i ==> !(visible(#[trigger] paths[j]) && under(base, paths[j]))
}

/// Whether `status` has the index file to write: the index has changed
/// since it was read or written, or an entry has stale times only.
pub open spec fn status_writes(index: Index, ws: Workspace) -> bool {
    index.dirty() || any_stale(
        index.model(),
        stats_upto(ws.paths(), ws.files(), tracked_set(index), ws.paths().len() as int),
        ws.files(),
        index.model().len() as int,
    )
}

/// The files of the tree of the commit to which `HEAD` resolves; none
/// where it resolves to no commit.
pub open spec fn head_files(files: Map<Seq<u8>, Seq<u8>>) -> Option<Map<Seq<u8>, PathEntryView>> {
    match resolved(files, text("HEAD"@), MAX_SYMREF_DEPTH as nat) {
        Ok(sha) => match object_at(files, object_path(hex_of(sha))) {
            Some((ObjectKind::Commit, body)) => commit_files(files, body),
            _ => Some(Map::empty()),
        },
        Err(_) => Some(Map::empty()),
    }
}

/// The files of the tree of the commit with the given body, by their
/// paths. `None` where the commit names no digest as its tree, or a tree
/// is missing or cannot be read.
pub open spec fn commit_files(files: Map<Seq<u8>, Seq<u8>>, body: Seq<u8>) -> Option<
    Map<Seq<u8>, PathEntryView>,
> {
    let tree = parsed_commit(body)->0.tree;
    if tree.len() == 40 && crate::sha::is_hex(tree) {
        flat_tree(files, crate::sha::unhex(tree), Seq::empty(), MAX_TREE_DEPTH as nat)
    } else {
        None
    }
}

/// The error for a commit whose files cannot be read: it names no digest
/// as its tree, or the tree cannot be followed.
pub open spec fn commit_fault(files: Map<Seq<u8>, Seq<u8>>, body: Seq<u8>, e: PidgitError) -> bool {
    let tree = parsed_commit(body)->0.tree;
    if tree.len() == 40 && crate::sha::is_hex(tree) {
        tree_fault(files, crate::sha::unhex(tree), Seq::empty(), MAX_TREE_DEPTH as nat, e)
    } else {
        e matches PidgitError::Generic(m) && m@ == text("malformed tree digest in commit"@)
    }
}

/// The error where the files of the commit of `HEAD` cannot be read.
pub open spec fn head_fault(files: Map<Seq<u8>, Seq<u8>>, e: PidgitError) -> bool {
    match resolved(files, text("HEAD"@), MAX_SYMREF_DEPTH as nat) {
        Ok(sha) => match object_at(files, object_path(hex_of(sha))) {
            Some((ObjectKind::Commit, body)) => commit_fault(files, body, e),
            _ => false,
        },
        Err(_) => false,
    }
}

impl Repository {
    /// The files of the tree of the commit to which `HEAD` resolves, by
    /// their paths; none where `HEAD` resolves to no commit. Fails where a
    /// tree of the commit is missing or cannot be read.
    pub fn load_head(&self) -> (r: Result<PathMap<PathEntry>, PidgitError>)
        requires
            self.wf(),
        ensures
            r is Ok <==> head_files(self.files_view()) is Some,
            r matches Ok(head) ==> head.wf() && Some(head_view(head)) == head_files(
                self.files_view(),
            ),
            r matches Err(e) ==> head_fault(self.files_view(), e),
    {
        proof {
            reveal_strlit("malformed tree digest in commit");
        }
        let mut head: PathMap<PathEntry> = PathMap::new();
        assert(head_view(head) =~= Map::<Seq<u8>, PathEntryView>::empty());
        let commit = match self.head() {
            Some(c) => c,
            None => {
                return Ok(head);
            },
        };
        let sha = match Sha::from_hex(commit.tree().as_slice()) {
            Some(s) => s,
            None => {
                return Err(PidgitError::Generic(lit("malformed tree digest in commit")));
            },
        };
        let root: Vec<u8> = Vec::new();
        match read_tree(self, &sha, root.as_slice(), MAX_TREE_DEPTH, &mut head) {
            Ok(()) => {
                proof {
                    let flat = flat_tree(
                        self.files_view(),
                        sha@,
                        Seq::empty(),
                        MAX_TREE_DEPTH as nat,
                    )->0;
                    assert(Map::<Seq<u8>, PathEntryView>::empty().union_prefer_right(flat) =~= flat);
                }
                Ok(head)
            },
            Err(e) => Err(e),
        }
    }

    /// The status of the repository: the work tree against the index, and
    /// the index against the tree of `HEAD`. Entries with stale times only
    /// are refreshed, and the index file is written where the index has
    /// changed. Fails where the index has more entries than its file can
    /// hold, where the tree of `HEAD` cannot be read, and where the index
    /// file is to be written and is locked.
    pub fn status(&mut self) -> (r: Result<Status, PidgitError>)
        requires
            old(self).wf(),
        ensures
            final(self).wf(),
            final(self).spec_workspace() == old(self).spec_workspace(),
            final(self).dir() == old(self).dir(),
            final(self).spec_index().names() == old(self).spec_index().names(),
            final(self).spec_index().version() == old(self).spec_index().version(),
            old(self).spec_index().names().len() > u32::MAX ==> (r matches Err(
                PidgitError::Generic(m),
            ) && m@ == text("too many entries for an index"@)),
            old(self).spec_index().names().len() > u32::MAX || head_files(old(self).files_view())
                is None ==> r is Err && final(self).files_view() == old(self).files_view()
                && final(self).spec_index() == old(self).spec_index(),
            old(self).spec_index().names().len() <= u32::MAX && head_files(old(self).files_view())
                is None ==> (r matches Err(e) && head_fault(old(self).files_view(), e)),
            old(self).spec_index().names().len() <= u32::MAX && head_files(old(self).files_view())
                is Some ==> {
                let ws = old(self).spec_workspace();
                let before = old(self).spec_index();
                let stats = stats_upto(
                    ws.paths(),
                    ws.files(),
                    tracked_set(before),
                    ws.paths().len() as int,
                );
                let writes = status_writes(before, ws);
                let lock = lock_path_of(before.path());
                &&& final(self).spec_index().model().len() == before.model().len()
                &&& forall|i: int|
                    0 <= i < before.model().len() ==> #[trigger] final(self).spec_index().model()[i]
                        == refreshed(before.model()[i], stats, ws.files())
                &&& !any_stale(before.model(), stats, ws.files(), before.model().len() as int)
                    ==> final(self).spec_index().model() == before.model()
                &&& !any_stale(before.model(), stats, ws.files(), before.model().len() as int)
                    ==> final(self).spec_index().entry_map() == before.entry_map()
                &&& r is Err <==> writes && old(self).files_view().dom().contains(lock)
                &&& r matches Err(e) ==> (e matches PidgitError::Lock(p) && p@ == lock)
                &&& final(self).files_view() == if writes && r is Ok {
                    old(self).files_view().insert(
                        before.path(),
                        index_bytes(before.version(), final(self).spec_index().model()),
                    )
                } else {
                    old(self).files_view()
                }
            },
            r matches Ok(s) ==> {
                let ws = old(self).spec_workspace();
                let before = old(self).spec_index();
                &&& s.wf()
                &&& head_files(old(self).files_view()) == Some(s.spec_head())
                &&& s.spec_stats() == stats_upto(
                    ws.paths(),
                    ws.files(),
                    tracked_set(before),
                    ws.paths().len() as int,
                )
                &&& s.spec_untracked() == untracked_upto(
                    ws.paths(),
                    tracked_set(before),
                    ws.paths().len() as int,
                )
                &&& s.spec_workspace_diff() == work_diff_upto(
                    before.model(),
                    s.spec_stats(),
                    ws.files(),
                    before.model().len() as int,
                )
                &&& s.spec_index_diff() == deleted_upto(
                    staged_upto(
                        final(self).spec_index().model(),
                        s.spec_head(),
                        before.model().len() as int,
                    ),
                    s.spec_head_keys(),
                    final(self).spec_index().entry_map().dom(),
                    s.spec_head_keys().len() as int,
                )
            },
    {
        proof {
            reveal_strlit("too many entries for an index");
        }
        if self.index.num_entries() > u32::MAX as usize {
            return Err(PidgitError::Generic(lit("too many entries for an index")));
        }
        let head = match self.load_head() {
            Ok(h) => h,
            Err(e) => {
                return Err(e);
            },
        };
        let ghost before = self.index;
        let status = Status::compute(&mut self.index, &self.workspace, head);
        proof {
            let stats = status.spec_stats();
            let work = self.workspace.files();
            if !any_stale(before.model(), stats, work, before.model().len() as int) {
                assert forall|i: int| 0 <= i < before.model().len() implies self.index.model()[i]
                    == before.model()[i] by {
                    assert(!crate::status::stale(before.model()[i], stats, work));
                }
                assert(self.index.model() =~= before.model());
                before.lemma_invariants();
                self.index.lemma_invariants();
                assert(self.index.entry_map() =~= before.entry_map());
            }
        }
        match self.index.write(&mut self.files) {
            Ok(()) => Ok(status),
            Err(e) => Err(e),
        }
    }

    /// Adds the files of the work tree that are seen and lie at or below
    /// `base` to the index, each with the digest of its content, whose blob
    /// is written into the object store; then the index file is written.
    /// The root is always there, and may hold no file. Any other path
    /// fails, and nothing changes, where there is no such file. Fails too
    /// where the index has grown beyond what its file can hold, and where
    /// the index file is locked; the blobs are then in the store, and the
    /// index file is as it was.
    pub fn add(&mut self, base: &[u8]) -> (r: Result<(), PidgitError>)
        requires
            old(self).wf(),
        ensures
            final(self).wf(),
            final(self).spec_workspace() == old(self).spec_workspace(),
            final(self).dir() == old(self).dir(),
            final(self).spec_index().path() == old(self).spec_index().path(),
            !is_root(base@) && none_under(
                old(self).spec_workspace().paths(),
                base@,
                old(self).spec_workspace().paths().len() as int,
            ) ==> {
                &&& r matches Err(PidgitError::PathspecNotFound(p)) && p@ == base@
                &&& final(self).files_view() == old(self).files_view()
                &&& final(self).spec_index() == old(self).spec_index()
            },
            is_root(base@) || !none_under(
                old(self).spec_workspace().paths(),
                base@,
                old(self).spec_workspace().paths().len() as int,
            ) ==> {
                let ws = old(self).spec_workspace();
                let after = final(self).spec_index();
                let n = ws.paths().len() as int;
                let writes = old(self).spec_index().dirty() || any_taken(ws.paths(), base@, n);
                let locked = old(self).files_view().dom().contains(lock_path_of(after.path()));
                &&& after.entry_map() == added_files(
                    old(self).spec_index().entry_map(),
                    ws.paths(),
                    ws.files(),
                    base@,
                    n,
                )
                &&& blobs_stored(final(self).files_view(), ws.paths(), ws.files(), base@, n)
                &&& r is Ok <==> after.names().len() <= u32::MAX && !(writes && locked)
                &&& after.names().len() > u32::MAX ==> (r matches Err(PidgitError::Generic(m)) && m@
                    == text("too many entries for an index"@))
                &&& after.names().len() <= u32::MAX ==> (r matches Err(e) ==> e matches PidgitError::Lock(
                    p,
                ) && p@ == lock_path_of(after.path()))
                &&& if r is Ok && writes {
                    let base_files = old(self).files_view().insert(
                        after.path(),
                        index_bytes(after.version(), after.model()),
                    );
                    grown(base_files, final(self).files_view()) && made_only(
                        base_files,
                        final(self).files_view(),
                        blob_files(ws.paths(), ws.files(), base@, n),
                    )
                } else {
                    grown(old(self).files_view(), final(self).files_view()) && made_only(
                        old(self).files_view(),
                        final(self).files_view(),
                        blob_files(ws.paths(), ws.files(), base@, n),
                    )
                }
            },
    {
        proof {
            reveal_strlit("blob");
            reveal_strlit("too many entries for an index");
        }
        let n = self.workspace.len();
        let ghost paths = self.workspace.paths();
        let ghost wfiles = self.workspace.files();
        let ghost start = self.index.entry_map();
        let ghost before = self.files_view();
        // Is there anything to add.
        let mut any = false;
        let mut k: usize = 0;
        while k < n
            invariant
                self.wf(),
                *self == *old(self),
                n == paths.len(),
                paths == self.workspace.paths(),
                k <= n,
                any == !none_under(paths, base@, k as int),
            decreases n - k,
        {
            let p = self.workspace.path_at(k);
            if crate::workspace::is_visible(p.as_slice()) && crate::workspace::is_under(
                base,
                p.as_slice(),
            ) {
                any = true;
            }
            k += 1;
        }
        if !any && !crate::workspace::is_root_path(base) {
            return Err(PidgitError::PathspecNotFound(copy_bytes(base)));
        }
        assert(grown(before, before));
        let mut i: usize = 0;
        while i < n
            invariant
                self.wf(),
                self.spec_workspace() == old(self).spec_workspace(),
                self.dir() == old(self).dir(),
                self.index.path() == old(self).index.path(),
                n == paths.len(),
                paths == self.workspace.paths(),
                wfiles == self.workspace.files(),
                start == old(self).index.entry_map(),
                before == old(self).files_view(),
                i <= n,
                self.index.entry_map() == added_files(start, paths, wfiles, base@, i as int),
                self.index.dirty() == (old(self).index.dirty() || any_taken(paths, base@, i as int)),
                grown(before, self.files_view()),
                blobs_stored(self.files_view(), paths, wfiles, base@, i as int),
                made_only(before, self.files_view(), blob_files(paths, wfiles, base@, n as int)),
            decreases n - i,
        {
            let p = self.workspace.path_at(i);
            let ghost mid = self.files_view();
            if crate::workspace::is_visible(p.as_slice()) && crate::workspace::is_under(
                base,
                p.as_slice(),
            ) && IndexEntry::name_is_ok(p.as_slice()) {
                let file = self.workspace.file_at(i);
                let entry = IndexEntry::new(copy_bytes(p.as_slice()), file.content.as_slice(), &file.stat);
                let body = copy_bytes(file.content.as_slice());
                let sha = self.write_raw(ObjectKind::Blob, body.as_slice());
                self.index.add(entry);
                proof {
                    lemma_grown_more(before, mid, self.files_view(), sha@);
                    assert(taken(base@, paths[i as int]));
                    let made = blob_files(paths, wfiles, base@, n as int);
                    assert(made.contains(
                        (object_path(hex_of(sha@)), loose(ObjectKind::Blob, body@)),
                    ));
                    lemma_made_more(
                        before,
                        mid,
                        self.files_view(),
                        made,
                        object_path(hex_of(sha@)),
                        loose(ObjectKind::Blob, body@),
                    );
                }
            }
            proof {
                let now = self.files_view();
                assert(kept(mid, now));
                assert forall|j: int| 0 <= j < i + 1 && taken(base@, #[trigger] paths[j]) implies now.dom().contains(
                    object_path(hex_of(blob_id(wfiles[paths[j]].content))),
                ) by {
                    if j < i {
                        assert(mid.dom().contains(
                            object_path(hex_of(blob_id(wfiles[paths[j]].content))),
                        ));
                    }
                }
            }
            i += 1;
        }
        if self.index.num_entries() > u32::MAX as usize {
            return Err(PidgitError::Generic(lit("too many entries for an index")));
        }
        let ghost stored = self.files_view();
        proof {
            let lock = lock_path_of(self.index.path());
            if stored.dom().contains(lock) && !before.dom().contains(lock) {
                lemma_object_path_plain(lock, self.index.path());
            }
        }
        match self.index.write(&mut self.files) {
            Ok(()) => Ok(()),
            Err(e) => Err(e),
        }
    }

    /// The first parent of a commit, where it has one that can be read.
    pub fn first_parent(&self, commit: &Commit) -> (r: Option<Commit>)
        requires
            self.wf(),
        ensures
            opt_content(r) == parent_at(self.files_view(), commit@.parents),
            r matches Some(c) ==> Some(c@) == parsed_commit(c@.content),
    {
        let parents = commit.parent_shas();
        if parents.len() == 0 {
            return None;
        }
        assert(names_view(parents@)[0] == parents@[0]@);
        match self.object_for_sha(parents[0].as_slice()) {
            Ok(Object::Commit(c)) => Some(c),
            _ => None,
        }
    }

    /// The parents of a commit that can be read as commits, in their
    /// order.
    pub fn parents(&self, commit: &Commit) -> (r: Vec<Commit>)
        requires
            self.wf(),
        ensures
            bodies(r@) == parent_bodies(
                self.files_view(),
                commit@.parents,
                commit@.parents.len() as int,
            ),
            forall|i: int| 0 <= i < r@.len() ==> Some((#[trigger] r@[i])@) == parsed_commit(r@[i]@.content),
    {
        let shas = commit.parent_shas();
        let mut out: Vec<Commit> = Vec::new();
        let ghost files = self.files_view();
        assert(bodies(out@) =~= parent_bodies(files, commit@.parents, 0));
        let mut i: usize = 0;
        while i < shas.len()
            invariant
                self.wf(),
                files == self.files_view(),
                names_view(shas@) == commit@.parents,
                i <= shas@.len(),
                bodies(out@) == parent_bodies(files, commit@.parents, i as int),
                forall|t: int|
                    0 <= t < out@.len() ==> Some((#[trigger] out@[t])@) == parsed_commit(
                        out@[t]@.content,
                    ),
            decreases shas@.len() - i,
        {
            assert(names_view(shas@)[i as int] == shas@[i as int]@);
            assert(names_view(shas@).len() == shas@.len());
            let ghost before = out@;
            match self.object_for_sha(shas[i].as_slice()) {
                Ok(Object::Commit(c)) => {
                    out.push(c);
                    assert(bodies(out@) =~= bodies(before).push(c@.content));
                },
                _ => {},
            }
            i += 1;
        }
        assert(names_view(shas@).len() == shas@.len());
        out
    }

    /// The commit that a revision stands for: a name stands for the commit
    /// to which it resolves as a ref or, failing that, as a digest; `^`
    /// stands for the first parent, `~n` for the n-th ancestor along first
    /// parents. `None` where a step leads to no commit.
    pub fn resolve_rev(&self, revision: &Revision) -> (r: Option<Commit>)
        requires
            self.wf(),
        ensures
            opt_content(r) == rev_commit(self.files_view(), revision@),
            r matches Some(c) ==> Some(c@) == parsed_commit(c@.content),
        decreases revision,
    {
        match revision {
            Revision::Ref(name) => {
                let found = match self.resolve_ref(name.as_slice()) {
                    Ok(o) => Ok(o),
                    Err(_) => self.resolve_sha(name.as_slice()),
                };
                match found {
                    Ok(Object::Commit(c)) => Some(c),
                    _ => None,
                }
            },
            Revision::Parent(inner) => match self.resolve_rev(inner) {
                Some(c) => self.first_parent(&c),
                None => None,
            },
            Revision::Ancestor(inner, n) => {
                let mut commit = self.resolve_rev(inner);
                let mut left: u32 = *n;
                let ghost files = self.files_view();
                let ghost goal = nth_parent(files, opt_content(commit), left as nat);
                while left > 0 && commit.is_some()
                    invariant
                        self.wf(),
                        files == self.files_view(),
                        commit matches Some(c) ==> Some(c@) == parsed_commit(c@.content),
                        nth_parent(files, opt_content(commit), left as nat) == goal,
                    decreases left,
                {
                    let c = commit.unwrap();
                    commit = self.first_parent(&c);
                    left -= 1;
                }
                proof {
                    if left > 0 {
                        lemma_nth_none(files, left as nat);
                    }
                }
                commit
            },
        }
    }

    /// The commit that the text of a revision stands for; `None` where
    /// the text is no revision or leads to no commit.
    pub fn resolve_revision(&self, revstr: &[u8]) -> (r: Option<Commit>)
        requires
            self.wf(),
        ensures
            opt_content(r) == (match parsed_rev(revstr@) {
                Some(rev) => rev_commit(self.files_view(), rev),
                None => None,
            }),
            r matches Some(c) ==> Some(c@) == parsed_commit(c@.content),
    {
        match parse_rev_bytes(revstr) {
            Some(rev) => self.resolve_rev(&rev),
            None => None,
        }
    }
}

impl Repository {
    /// Makes a branch that points to the object that `start` names.
    /// Fails, and changes nothing, where `start` names no object, where the
    /// name is no valid ref name, where a ref of the branch resolves
    /// already, and where the ref is locked.
    pub fn branch(&mut self, name: &[u8], start: &[u8]) -> (r: Result<(), PidgitError>)
        requires
            old(self).wf(),
        ensures
            final(self).wf(),
            final(self).spec_index() == old(self).spec_index(),
            final(self).spec_workspace() == old(self).spec_workspace(),
            final(self).dir() == old(self).dir(),
            r is Err ==> final(self).files_view() == old(self).files_view(),
            match named_object(old(self).files_view(), start@) {
                None => r matches Err(e) && name_fault(old(self).files_view(), start@, e),
                Some((kind, body)) => {
                    &&& r is Ok <==> valid_refname(name@) && resolved(
                        old(self).files_view(),
                        branch_path(name@),
                        MAX_SYMREF_DEPTH as nat,
                    ) is Err && !old(self).files_view().dom().contains(
                        lock_path_of(branch_path(name@)),
                    )
                    &&& r is Ok ==> final(self).files_view() == old(self).files_view().insert(
                        branch_path(name@),
                        ref_content(object_id(kind_name(kind), body)),
                    )
                    &&& r matches Err(e) ==> branch_fault(old(self).files_view(), name@, e)
                },
            },
    {
        let object = match self.resolve_object(start) {
            Ok(o) => o,
            Err(e) => {
                return Err(e);
            },
        };
        let sha = object.sha();
        self.grefs.create_branch(&mut self.files, name, &sha)
    }
}

impl Repository {
    /// Puts a file into the repository directory, in place of what was
    /// there.
    pub fn create_file(&mut self, path: &[u8], content: Vec<u8>)
        requires
            old(self).wf(),
        ensures
            final(self).wf(),
            final(self).files_view() == old(self).files_view().insert(path@, content@),
            final(self).spec_index() == old(self).spec_index(),
            final(self).spec_workspace() == old(self).spec_workspace(),
            final(self).dir() == old(self).dir(),
    {
        self.files.write(path, content);
    }

    /// Takes a file out of the repository directory; says whether it was
    /// there.
    pub fn remove_git_file(&mut self, path: &[u8]) -> (was: bool)
        requires
            old(self).wf(),
        ensures
            final(self).wf(),
            final(self).files_view() == old(self).files_view().remove(path@),
            was == old(self).files_view().dom().contains(path@),
            final(self).spec_index() == old(self).spec_index(),
            final(self).spec_workspace() == old(self).spec_workspace(),
            final(self).dir() == old(self).dir(),
    {
        self.files.remove(path)
    }
}

} // verus!
