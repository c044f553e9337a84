//! What the commands print.

use crate::bytes::{copy_bytes, lit, text};
use crate::errors::PidgitError;
use crate::index::Index;
use crate::pathmap::{ascending, lemma_keys_with, PathMap};
use crate::index::entry::EntryView;
use crate::repo::{new_files, Repository};
use crate::workspace::WorkFileView;
use crate::sha::{hex_of, Sha};
use crate::status::{blob_id, ChangeType, Status};
use vstd::prelude::*;
use vstd::string::*;

pub mod patch;
pub mod show;

verus! {

/// How a line of output is to be shown.
#[derive(Clone, Copy, Debug, PartialEq, Eq, Structural)]
pub enum LineStyle {
    Plain,
    Bold,
    Cyan,
    Green,
    Red,
}

/// A line of output, without the newline that ends it.
#[derive(Debug)]
pub struct OutLine {
    pub style: LineStyle,
    pub text: Vec<u8>,
}

impl View for OutLine {
    type V = (LineStyle, Seq<u8>);

    open spec fn view(&self) -> (LineStyle, Seq<u8>) {
        (self.style, self.text@)
    }
}

/// Lines as plain values.
pub open spec fn out_view(lines: Seq<OutLine>) -> Seq<(LineStyle, Seq<u8>)> {
    Seq::new(lines.len(), |i: int| lines[i]@)
}

/// The letter of the change of a path, or a space where it has none.
pub open spec fn letter_or_space(diff: Map<Seq<u8>, ChangeType>, path: Seq<u8>) -> u8 {
    if diff.dom().contains(path) {
        diff[path].spec_letter()
    } else {
        0x20
    }
}

/// The line of a path in the short format: the letter of its change
/// between `HEAD` and the index, the letter of its change between the index
/// and the work tree, a space, the path, and a newline.
pub open spec fn short_line(
    staged: Map<Seq<u8>, ChangeType>,
    unstaged: Map<Seq<u8>, ChangeType>,
    path: Seq<u8>,
) -> Seq<u8> {
    seq![letter_or_space(staged, path), letter_or_space(unstaged, path), 0x20u8] + path + seq![
        0x0au8,
    ]
}

/// The lines of the first `i` paths.
pub open spec fn short_lines(
    staged: Map<Seq<u8>, ChangeType>,
    unstaged: Map<Seq<u8>, ChangeType>,
    paths: Seq<Seq<u8>>,
    i: int,
) -> Seq<u8>
    decreases i,
{
    if i <= 0 {
        Seq::empty()
    } else {
        short_lines(staged, unstaged, paths, i - 1) + short_line(staged, unstaged, paths[i - 1])
    }
}

/// The lines `?? <name>` of the first `i` untracked names.
pub open spec fn untracked_lines(names: Seq<Seq<u8>>, i: int) -> Seq<u8>
    decreases i,
{
    if i <= 0 {
        Seq::empty()
    } else {
        untracked_lines(names, i - 1) + text("?? "@) + names[i - 1] + seq![0x0au8]
    }
}

/// The paths are those of the two maps, in ascending byte order.
pub open spec fn merged(
    staged: Map<Seq<u8>, ChangeType>,
    unstaged: Map<Seq<u8>, ChangeType>,
    paths: Seq<Seq<u8>>,
) -> bool {
    &&& ascending(paths)
    &&& forall|k: Seq<u8>|
        paths.contains(k) <==> staged.dom().contains(k) || unstaged.dom().contains(k)
}

/// Where nothing has changed, the short format has no line.
pub proof fn lemma_short_clean(paths: Seq<Seq<u8>>)
    requires
        merged(Map::empty(), Map::empty(), paths),
    ensures
        paths.len() == 0,
        short_lines(Map::empty(), Map::empty(), paths, paths.len() as int) == Seq::<u8>::empty(),
{
    if paths.len() > 0 {
        assert(paths.contains(paths[0]));
    }
}

/// Where one path has changed in the work tree and nothing is staged, the
/// short format has one line: a space, the letter of the change, a space
/// and the path.
pub proof fn lemma_short_one(paths: Seq<Seq<u8>>, path: Seq<u8>, change: ChangeType)
    requires
        merged(Map::empty(), Map::empty().insert(path, change), paths),
    ensures
        short_lines(
            Map::empty(),
            Map::empty().insert(path, change),
            paths,
            paths.len() as int,
        ) == seq![0x20u8, change.spec_letter(), 0x20u8] + path + seq![0x0au8],
{
    let staged = Map::<Seq<u8>, ChangeType>::empty();
    let unstaged = Map::<Seq<u8>, ChangeType>::empty().insert(path, change);
    assert(unstaged.dom().contains(path));
    assert(paths.contains(path));
    let i = choose|i: int| 0 <= i < paths.len() && paths[i] == path;
    if paths.len() > 1 {
        let j = if i == 0 {
            1int
        } else {
            0int
        };
        assert(paths.contains(paths[j]));
        assert(paths[j] == path);
        crate::bytes::lemma_lex_irreflexive(path);
        if i < j {
            assert(crate::bytes::lex_lt(paths[i], paths[j]));
        } else {
            assert(crate::bytes::lex_lt(paths[j], paths[i]));
        }
    }
    assert(paths.len() == 1);
    assert(short_lines(staged, unstaged, paths, 0) == Seq::<u8>::empty());
    assert(short_lines(staged, unstaged, paths, 1) =~= short_line(staged, unstaged, path));
}

/// The status in the short format: a line for every path with a change,
/// in ascending byte order of the paths, then a line for every untracked
/// name.
pub fn status_short(status: &Status) -> (out: Vec<u8>)
    requires
        status.wf(),
    ensures
        exists|paths: Seq<Seq<u8>>|
            merged(status.spec_index_diff(), status.spec_workspace_diff(), paths) && out@
                == #[trigger] short_lines(
                status.spec_index_diff(),
                status.spec_workspace_diff(),
                paths,
                paths.len() as int,
            ) + untracked_lines(status.untracked_names(), status.untracked_names().len() as int),
{
    proof {
        reveal_strlit("?? ");
    }
    let staged = status.index_diff();
    let unstaged = status.workspace_diff();
    let untracked = status.untracked();
    let ghost sm = staged.map();
    let ghost um = unstaged.map();
    // The paths of both maps, each once.
    let mut all: PathMap<bool> = PathMap::new();
    let mut i: usize = 0;
    while i < staged.len()
        invariant
            staged.wf(),
            all.wf(),
            i <= staged.keys().len(),
            forall|k: Seq<u8>|
                all.keys().contains(k) <==> exists|j: int|
                    0 <= j < i && #[trigger] staged.keys()[j] == k,
        decreases staged.keys().len() - i,
    {
        let ghost before = all.keys();
        proof {
            lemma_keys_with(before, staged.keys()[i as int]);
        }
        all.insert(copy_bytes(staged.key_at(i).as_slice()), true);
        proof {
            assert forall|k: Seq<u8>|
                all.keys().contains(k) <==> exists|j: int|
                    0 <= j < i + 1 && #[trigger] staged.keys()[j] == k by {
                if before.contains(k) {
                    let j = choose|j: int| 0 <= j < i && #[trigger] staged.keys()[j] == k;
                    assert(0 <= j < i + 1 && staged.keys()[j] == k);
                }
                if exists|j: int| 0 <= j < i + 1 && #[trigger] staged.keys()[j] == k {
                    let j = choose|j: int| 0 <= j < i + 1 && #[trigger] staged.keys()[j] == k;
                    if j < i {
                        assert(before.contains(k));
                    }
                }
            }
        }
        i += 1;
    }
    let mut j: usize = 0;
    while j < unstaged.len()
        invariant
            staged.wf(),
            unstaged.wf(),
            all.wf(),
            j <= unstaged.keys().len(),
            forall|k: Seq<u8>|
                all.keys().contains(k) <==> staged.keys().contains(k) || exists|t: int|
                    0 <= t < j && #[trigger] unstaged.keys()[t] == k,
        decreases unstaged.keys().len() - j,
    {
        let ghost before = all.keys();
        proof {
            lemma_keys_with(before, unstaged.keys()[j as int]);
        }
        all.insert(copy_bytes(unstaged.key_at(j).as_slice()), true);
        proof {
            assert forall|k: Seq<u8>|
                all.keys().contains(k) <==> staged.keys().contains(k) || exists|t: int|
                    0 <= t < j + 1 && #[trigger] unstaged.keys()[t] == k by {
                if before.contains(k) && !staged.keys().contains(k) {
                    let t = choose|t: int| 0 <= t < j && #[trigger] unstaged.keys()[t] == k;
                    assert(0 <= t < j + 1 && unstaged.keys()[t] == k);
                }
                if exists|t: int| 0 <= t < j + 1 && #[trigger] unstaged.keys()[t] == k {
                    let t = choose|t: int| 0 <= t < j + 1 && #[trigger] unstaged.keys()[t] == k;
                    if t < j {
                        assert(before.contains(k));
                    }
                }
            }
        }
        j += 1;
    }
    let ghost paths = all.keys();
    proof {
        assert forall|k: Seq<u8>|
            paths.contains(k) <==> sm.dom().contains(k) || um.dom().contains(k) by {
            if unstaged.keys().contains(k) {
                let t = choose|t: int| 0 <= t < unstaged.keys().len() && unstaged.keys()[t] == k;
                assert(unstaged.keys()[t] == k);
            }
        }
    }
    let mut out: Vec<u8> = Vec::new();
    let n = all.len();
    let mut p: usize = 0;
    while p < n
        invariant
            staged.wf(),
            unstaged.wf(),
            all.wf(),
            sm == staged.map(),
            um == unstaged.map(),
            paths == all.keys(),
            n == paths.len(),
            p <= n,
            out@ == short_lines(sm, um, paths, p as int),
        decreases n - p,
    {
        let path = all.key_at(p);
        let left: u8 = match staged.get(path.as_slice()) {
            Some(c) => c.letter(),
            None => 0x20,
        };
        let right: u8 = match unstaged.get(path.as_slice()) {
            Some(c) => c.letter(),
            None => 0x20,
        };
        let ghost before = out@;
        out.push(left);
        out.push(right);
        out.push(0x20);
        out.extend_from_slice(path.as_slice());
        out.push(0x0a);
        assert(out@ =~= before + short_line(sm, um, paths[p as int]));
        p += 1;
    }
    let ghost head = out@;
    let ghost names = untracked.keys();
    let m = untracked.len();
    let marks = lit("?? ");
    let mut q: usize = 0;
    assert(head + Seq::<u8>::empty() =~= head);
    while q < m
        invariant
            untracked.wf(),
            names == untracked.keys(),
            m == names.len(),
            q <= m,
            marks@ == text("?? "@),
            out@ == head + untracked_lines(names, q as int),
        decreases m - q,
    {
        let ghost before = out@;
        out.extend_from_slice(marks.as_slice());
        out.extend_from_slice(untracked.key_at(q).as_slice());
        out.push(0x0a);
        assert(out@ =~= head + untracked_lines(names, q + 1));
        q += 1;
    }
    out
}

/// The names of the index, each on a line of its own.
pub open spec fn name_lines(names: Seq<Seq<u8>>, i: int) -> Seq<u8>
    decreases i,
{
    if i <= 0 {
        Seq::empty()
    } else {
        name_lines(names, i - 1) + names[i - 1] + seq![0x0au8]
    }
}

/// What `ls-files` prints: the names of the index in their order, each on
/// a line of its own.
pub fn ls_files(index: &Index) -> (out: Vec<u8>)
    requires
        index.wf(),
    ensures
        out@ == name_lines(index.names(), index.names().len() as int),
{
    let mut out: Vec<u8> = Vec::new();
    let n = index.num_entries();
    let mut i: usize = 0;
    while i < n
        invariant
            index.wf(),
            n == index.names().len(),
            i <= n,
            out@ == name_lines(index.names(), i as int),
        decreases n - i,
    {
        let ghost before = out@;
        out.extend_from_slice(index.key_at(i).as_slice());
        out.push(0x0a);
        assert(out@ =~= before + index.names()[i as int] + seq![0x0au8]);
        i += 1;
    }
    out
}

/// What `hash-object` prints for a content: the digest of the content as
/// a blob, in hexadecimal.
pub fn hash_object(content: &[u8]) -> (out: Vec<u8>)
    ensures
        out@ == hex_of(blob_id(content@)),
{
    proof {
        reveal_strlit("blob");
    }
    let kind = lit("blob");
    Sha::header_and_body(kind.as_slice(), content).hexdigest()
}

/// What `init` does and prints. Where there is a repository already,
/// nothing is made and the message says so; else a new repository is made
/// for the work tree at `root`.
pub fn init(existing: Option<&Repository>, root: Vec<u8>) -> (r: Result<
    (Option<Repository>, Vec<u8>),
    PidgitError,
>)
    ensures
        r is Ok,
        r matches Ok(pair) ==> (match existing {
            Some(repo) => pair.0 is None && pair.1@ == repo.spec_workspace().root_path() + text(
                " already exists, nothing to do!"@,
            ),
            None => pair.0 matches Some(made) && made.wf() && made.dir() == root@ + text(
                "/.pidgit"@,
            ) && made.files_view() == new_files() && made.spec_workspace().root_path() == root@
                && made.spec_workspace().files() == Map::<Seq<u8>, WorkFileView>::empty()
                && made.spec_index().model() == Seq::<EntryView>::empty() && pair.1@ == text(
                "initialized empty pidgit repository at "@,
            ) + made.dir(),
        }),
{
    proof {
        reveal_strlit(" already exists, nothing to do!");
        reveal_strlit("initialized empty pidgit repository at ");
    }
    match existing {
        Some(repo) => {
            let mut msg = copy_bytes(repo.workspace().root().as_slice());
            let tail = lit(" already exists, nothing to do!");
            msg.extend_from_slice(tail.as_slice());
            Ok((None, msg))
        },
        None => {
            let made = match Repository::create_empty(root) {
                Ok(m) => m,
                Err(e) => {
                    return Err(e);
                },
            };
            let mut msg = lit("initialized empty pidgit repository at ");
            msg.extend_from_slice(made.git_dir().as_slice());
            Ok((Some(made), msg))
        },
    }
}

} // verus!
