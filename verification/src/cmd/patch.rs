//! The text of a diff between two versions of a file.

use crate::bytes::{copy_bytes, lit, octal, octal_bytes, slice_range, text};
use crate::cmd::{out_view, LineStyle, OutLine};
use crate::diff::edit::{changes, edit_text, edits_view, is_script, EditView};
use crate::diff::lcs::lcs_len;
use crate::diff::myers::{split, split_lines, Myers};
use crate::diff::{header_text, hunks_of, hunks_view, DiffHunk, HunkView};
use crate::errors::{ObjectKind, PidgitError};
use crate::index::entry::EntryView;
use crate::index::meta::FileStat;
use crate::object::tree::{mode_word, PathEntryView};
use crate::object::Object;
use crate::pathmap::lemma_map_at;
use crate::repo::{object_at, object_path, Repository};
use crate::sha::{hex_of, Sha};
use crate::status::{blob_id, ChangeType, Status};
use crate::workspace::WorkFileView;
use vstd::prelude::*;
use vstd::string::*;

verus! {

/// One side of a diff as plain values.
pub struct TargetView {
    pub path: Seq<u8>,
    pub sha: Seq<u8>,
    pub mode: u32,
    pub content: Seq<u8>,
}

/// One side of a diff: a version of a file, with its path, its digest in
/// hexadecimal, its mode word and its content. The side that is not there,
/// of a file that was made or deleted, has the mode word zero.
#[derive(Debug)]
pub struct DiffTarget {
    pub path: Vec<u8>,
    pub sha: Vec<u8>,
    pub mode: u32,
    pub content: Vec<u8>,
}

impl View for DiffTarget {
    type V = TargetView;

    open spec fn view(&self) -> TargetView {
        TargetView { path: self.path@, sha: self.sha@, mode: self.mode, content: self.content@ }
    }
}

/// The digest that stands for no content: forty zeros.
pub open spec fn null_sha() -> Seq<u8> {
    text("0000000000000000000000000000000000000000"@)
}

/// The side that is not there.
pub open spec fn null_target(path: Seq<u8>) -> TargetView {
    TargetView { path, sha: null_sha(), mode: 0, content: Seq::empty() }
}

/// A path below a prefix.
pub open spec fn prefixed(prefix: Seq<u8>, path: Seq<u8>) -> Seq<u8> {
    prefix + seq![0x2fu8] + path
}

/// The path of a side as the diff names it: `/dev/null` for the side
/// that is not there, else the path below the prefix.
pub open spec fn shown_path(t: TargetView, prefix: Seq<u8>) -> Seq<u8> {
    if t.mode == 0 {
        text("/dev/null"@)
    } else {
        prefixed(prefix, t.path)
    }
}

/// The first eight digits of a digest, or all of them where there are
/// fewer.
pub open spec fn short_of(sha: Seq<u8>) -> Seq<u8> {
    if sha.len() <= 8 {
        sha
    } else {
        sha.subrange(0, 8)
    }
}

/// The lines about the modes: the file was made, was deleted, or has
/// another mode; none where the mode stays.
pub open spec fn mode_lines(a: TargetView, b: TargetView) -> Seq<(LineStyle, Seq<u8>)> {
    if b.mode == 0 {
        seq![(LineStyle::Bold, text("deleted file mode "@) + octal(a.mode as nat))]
    } else if a.mode == 0 {
        seq![(LineStyle::Bold, text("new file mode "@) + octal(b.mode as nat))]
    } else if a.mode != b.mode {
        seq![
            (LineStyle::Bold, text("old mode "@) + octal(a.mode as nat)),
            (LineStyle::Bold, text("new mode "@) + octal(b.mode as nat)),
        ]
    } else {
        Seq::empty()
    }
}

/// The three lines before the hunks: the digests, with the mode where
/// it stays, and the two paths.
pub open spec fn content_head(a: TargetView, b: TargetView) -> Seq<(LineStyle, Seq<u8>)> {
    seq![
        (
            LineStyle::Bold,
            text("index "@) + short_of(a.sha) + text(".."@) + short_of(b.sha) + (if a.mode
                == b.mode {
                text(" "@) + octal(a.mode as nat)
            } else {
                Seq::empty()
            }),
        ),
        (LineStyle::Bold, text("--- "@) + shown_path(a, text("a"@))),
        (LineStyle::Bold, text("+++ "@) + shown_path(b, text("b"@))),
    ]
}

/// The lines of the first `i` edits.
pub open spec fn edit_lines(edits: Seq<EditView>, i: int) -> Seq<(LineStyle, Seq<u8>)>
    decreases i,
{
    if i <= 0 {
        Seq::empty()
    } else {
        edit_lines(edits, i - 1).push((LineStyle::Plain, edit_text(edits[i - 1])))
    }
}

/// The lines of a hunk: its header, then its edits.
pub open spec fn hunk_lines(h: HunkView) -> Seq<(LineStyle, Seq<u8>)> {
    seq![(LineStyle::Cyan, header_text(h))] + edit_lines(h.edits, h.edits.len() as int)
}

/// The lines of the first `i` hunks.
pub open spec fn hunks_lines(hunks: Seq<HunkView>, i: int) -> Seq<(LineStyle, Seq<u8>)>
    decreases i,
{
    if i <= 0 {
        Seq::empty()
    } else {
        hunks_lines(hunks, i - 1) + hunk_lines(hunks[i - 1])
    }
}

/// The diff between two sides, given the hunks between their contents:
/// nothing where digest and mode are the same; else the line that names
/// the two paths, the lines about the modes and, where the digests differ,
/// the lines before the hunks and the hunks.
pub open spec fn diff_output(a: TargetView, b: TargetView, hunks: Seq<HunkView>) -> Seq<
    (LineStyle, Seq<u8>),
> {
    if a.sha == b.sha && a.mode == b.mode {
        Seq::empty()
    } else {
        seq![
            (
                LineStyle::Bold,
                text("diff --git "@) + prefixed(text("a"@), a.path) + text(" "@) + prefixed(
                    text("b"@),
                    b.path,
                ),
            ),
        ] + mode_lines(a, b) + (if a.sha == b.sha {
            Seq::empty()
        } else {
            content_head(a, b) + hunks_lines(hunks, hunks.len() as int)
        })
    }
}

/// `script` is a shortest edit script between the lines of the two
/// contents.
pub open spec fn shortest_script(script: Seq<EditView>, a: Seq<u8>, b: Seq<u8>) -> bool {
    &&& is_script(script, split(a), split(b))
    &&& changes(script) == split(a).len() + split(b).len() - 2 * lcs_len(split(a), split(b))
}

/// Whether the contents are small enough for the positions of the search
/// to be machine numbers.
pub open spec fn comparable(a: Seq<u8>, b: Seq<u8>) -> bool {
    4 * (split(a).len() + split(b).len()) + 4 <= isize::MAX
}

impl DiffTarget {
    /// The side that is not there.
    pub fn null(path: &[u8]) -> (t: DiffTarget)
        ensures
            t@ == null_target(path@),
    {
        proof {
            reveal_strlit("0000000000000000000000000000000000000000");
        }
        DiffTarget {
            path: copy_bytes(path),
            sha: lit("0000000000000000000000000000000000000000"),
            mode: 0,
            content: Vec::new(),
        }
    }

    /// The path below a prefix.
    pub fn with_prefix(&self, prefix: &[u8]) -> (p: Vec<u8>)
        ensures
            p@ == prefixed(prefix@, self@.path),
    {
        let mut p = copy_bytes(prefix);
        p.push(0x2f);
        p.extend_from_slice(self.path.as_slice());
        p
    }

    /// Whether this is the side that is not there.
    pub fn is_null(&self) -> (r: bool)
        ensures
            r == (self@.mode == 0),
    {
        self.mode == 0
    }

    /// The path as the diff names it.
    pub fn diff_path(&self, prefix: &[u8]) -> (p: Vec<u8>)
        ensures
            p@ == shown_path(self@, prefix@),
    {
        proof {
            reveal_strlit("/dev/null");
        }
        if self.is_null() {
            lit("/dev/null")
        } else {
            self.with_prefix(prefix)
        }
    }

    /// The first eight digits of the digest.
    pub fn short_sha(&self) -> (s: Vec<u8>)
        ensures
            s@ == short_of(self@.sha),
    {
        if self.sha.len() <= 8 {
            copy_bytes(self.sha.as_slice())
        } else {
            slice_range(self.sha.as_slice(), 0, 8)
        }
    }
}

fn bold(text: Vec<u8>) -> (l: OutLine)
    ensures
        l@ == (LineStyle::Bold, text@),
{
    OutLine { style: LineStyle::Bold, text }
}

/// A word of ASCII text, then bytes.
fn labelled(label: &str, rest: &[u8]) -> (out: Vec<u8>)
    requires
        is_ascii(label),
    ensures
        out@ == text(label@) + rest@,
{
    let mut out = lit(label);
    out.extend_from_slice(rest);
    out
}

/// The lines about the modes.
pub fn print_diff_mode(a: &DiffTarget, b: &DiffTarget) -> (out: Vec<OutLine>)
    ensures
        out_view(out@) == mode_lines(a@, b@),
{
    proof {
        reveal_strlit("deleted file mode ");
        reveal_strlit("new file mode ");
        reveal_strlit("old mode ");
        reveal_strlit("new mode ");
    }
    let mut out: Vec<OutLine> = Vec::new();
    if b.is_null() {
        out.push(bold(labelled("deleted file mode ", octal_bytes(a.mode).as_slice())));
    } else if a.is_null() {
        out.push(bold(labelled("new file mode ", octal_bytes(b.mode).as_slice())));
    } else if a.mode != b.mode {
        out.push(bold(labelled("old mode ", octal_bytes(a.mode).as_slice())));
        out.push(bold(labelled("new mode ", octal_bytes(b.mode).as_slice())));
    }
    assert(out_view(out@) =~= mode_lines(a@, b@));
    out
}

/// The lines of a hunk.
pub fn print_hunk(hunk: &DiffHunk) -> (out: Vec<OutLine>)
    ensures
        out_view(out@) == hunk_lines(hunk@),
{
    let mut out: Vec<OutLine> = Vec::new();
    out.push(OutLine { style: LineStyle::Cyan, text: hunk.header() });
    let edits = hunk.edits();
    let n = edits.len();
    let ghost ev = edits_view(edits@);
    assert(out_view(out@) =~= seq![(LineStyle::Cyan, header_text(hunk@))] + edit_lines(ev, 0));
    let mut i: usize = 0;
    while i < n
        invariant
            n == edits@.len(),
            ev == edits_view(edits@),
            ev == hunk@.edits,
            i <= n,
            out_view(out@) == seq![(LineStyle::Cyan, header_text(hunk@))] + edit_lines(ev, i as int),
        decreases n - i,
    {
        let ghost before = out_view(out@);
        out.push(OutLine { style: LineStyle::Plain, text: edits[i].render() });
        proof {
            assert(ev[i as int] == edits@[i as int]@);
            assert(out_view(out@) =~= before.push((LineStyle::Plain, edit_text(ev[i as int]))));
            assert(out_view(out@) =~= seq![(LineStyle::Cyan, header_text(hunk@))] + edit_lines(
                ev,
                i + 1,
            ));
        }
        i += 1;
    }
    out
}

/// The lines before the hunks, and the hunks.
pub fn print_diff_content(a: &DiffTarget, b: &DiffTarget, hunks: &Vec<DiffHunk>) -> (out: Vec<
    OutLine,
>)
    ensures
        out_view(out@) == content_head(a@, b@) + hunks_lines(
            hunks_view(hunks@),
            hunks@.len() as int,
        ),
{
    proof {
        reveal_strlit("index ");
        reveal_strlit("..");
        reveal_strlit(" ");
        reveal_strlit("--- ");
        reveal_strlit("+++ ");
        reveal_strlit("a");
        reveal_strlit("b");
    }
    let mut first = labelled("index ", a.short_sha().as_slice());
    first.extend_from_slice(lit("..").as_slice());
    first.extend_from_slice(b.short_sha().as_slice());
    if a.mode == b.mode {
        first.extend_from_slice(lit(" ").as_slice());
        first.extend_from_slice(octal_bytes(a.mode).as_slice());
    }
    let side_a = lit("a");
    let side_b = lit("b");
    let mut out: Vec<OutLine> = Vec::new();
    out.push(bold(first));
    out.push(bold(labelled("--- ", a.diff_path(side_a.as_slice()).as_slice())));
    out.push(bold(labelled("+++ ", b.diff_path(side_b.as_slice()).as_slice())));
    let ghost hv = hunks_view(hunks@);
    proof {
        assert(first@ =~= content_head(a@, b@)[0].1);
        assert(out_view(out@) =~= content_head(a@, b@) + hunks_lines(hv, 0));
    }
    let n = hunks.len();
    let mut i: usize = 0;
    while i < n
        invariant
            n == hunks@.len(),
            hv == hunks_view(hunks@),
            i <= n,
            out_view(out@) == content_head(a@, b@) + hunks_lines(hv, i as int),
        decreases n - i,
    {
        let ghost before = out_view(out@);
        let mut lines = print_hunk(&hunks[i]);
        let ghost added = out_view(lines@);
        out.append(&mut lines);
        proof {
            assert(hv[i as int] == hunks@[i as int]@);
            assert(out_view(out@) =~= before + added);
            assert(out_view(out@) =~= content_head(a@, b@) + hunks_lines(hv, i + 1));
        }
        i += 1;
    }
    out
}

/// The diff between two sides, given the hunks between their contents.
pub fn render_diff(a: &DiffTarget, b: &DiffTarget, hunks: &Vec<DiffHunk>) -> (out: Vec<OutLine>)
    ensures
        out_view(out@) == diff_output(a@, b@, hunks_view(hunks@)),
{
    proof {
        reveal_strlit("diff --git ");
        reveal_strlit(" ");
        reveal_strlit("a");
        reveal_strlit("b");
    }
    let same_sha = crate::bytes::bytes_eq(a.sha.as_slice(), b.sha.as_slice());
    let mut out: Vec<OutLine> = Vec::new();
    if same_sha && a.mode == b.mode {
        assert(out_view(out@) =~= diff_output(a@, b@, hunks_view(hunks@)));
        return out;
    }
    let side_a = lit("a");
    let side_b = lit("b");
    let mut first = labelled("diff --git ", a.with_prefix(side_a.as_slice()).as_slice());
    first.extend_from_slice(lit(" ").as_slice());
    first.extend_from_slice(b.with_prefix(side_b.as_slice()).as_slice());
    let ghost line = text("diff --git "@) + prefixed(text("a"@), a@.path) + text(" "@) + prefixed(
        text("b"@),
        b@.path,
    );
    assert(first@ =~= line);
    out.push(bold(first));
    let ghost head = out_view(out@);
    assert(head =~= seq![(LineStyle::Bold, line)]);
    assert(hunks_view(hunks@).len() == hunks@.len());
    let mut modes = print_diff_mode(a, b);
    out.append(&mut modes);
    assert(out_view(out@) =~= head + mode_lines(a@, b@));
    if !same_sha {
        let ghost before = out_view(out@);
        let mut content = print_diff_content(a, b, hunks);
        let ghost added = out_view(content@);
        out.append(&mut content);
        assert(out_view(out@) =~= before + added);
    }
    assert(out_view(out@) =~= diff_output(a@, b@, hunks_view(hunks@)));
    out
}

/// The diff between two sides: the hunks are those of a shortest edit
/// script between the lines of the two contents. Fails where the contents
/// are too large to compare.
pub fn print_diff(a: &DiffTarget, b: &DiffTarget) -> (r: Result<Vec<OutLine>, PidgitError>)
    ensures
        r is Ok <==> a@.sha == b@.sha || comparable(a@.content, b@.content),
        r matches Ok(out) ==> (if a@.sha == b@.sha {
            out_view(out@) == diff_output(a@, b@, Seq::empty())
        } else {
            exists|script: Seq<EditView>|
                shortest_script(script, a@.content, b@.content) && out_view(out@)
                    == #[trigger] diff_output(a@, b@, hunks_of(script))
        }),
        r matches Err(e) ==> e matches PidgitError::Generic(m) && m@ == text(
            "contents too large to compare"@,
        ),
{
    proof {
        reveal_strlit("contents too large to compare");
    }
    if crate::bytes::bytes_eq(a.sha.as_slice(), b.sha.as_slice()) {
        let none: Vec<DiffHunk> = Vec::new();
        assert(hunks_view(none@) =~= Seq::<HunkView>::empty());
        return Ok(render_diff(a, b, &none));
    }
    let differ = Myers::from_lines(
        split_lines(a.content.as_slice()),
        split_lines(b.content.as_slice()),
    );
    if !differ.is_small() {
        return Err(PidgitError::Generic(lit("contents too large to compare")));
    }
    let script = differ.diff();
    let ghost sv = edits_view(script@);
    let hunks = DiffHunk::filter(script);
    let out = render_diff(a, b, &hunks);
    proof {
        assert(shortest_script(sv, a@.content, b@.content));
        assert(out_view(out@) == diff_output(a@, b@, hunks_of(sv)));
    }
    Ok(out)
}

/// The content of the blob with the given digest, where the store holds
/// one that can be read.
pub open spec fn blob_at(files: Map<Seq<u8>, Seq<u8>>, sha: Seq<u8>) -> Option<Seq<u8>> {
    match object_at(files, object_path(hex_of(sha))) {
        Some((ObjectKind::Blob, body)) => Some(body),
        _ => None,
    }
}

/// The side that the index holds for a path: the entry of the path, with
/// the content of its blob.
pub open spec fn target_in_index(
    files: Map<Seq<u8>, Seq<u8>>,
    entries: Map<Seq<u8>, EntryView>,
    path: Seq<u8>,
) -> Option<TargetView> {
    if !entries.dom().contains(path) {
        None
    } else {
        match blob_at(files, entries[path].sha) {
            Some(body) => Some(
                TargetView {
                    path: entries[path].name,
                    sha: hex_of(entries[path].sha),
                    mode: entries[path].meta.mode,
                    content: body,
                },
            ),
            None => None,
        }
    }
}

/// The side that the tree of `HEAD` holds for a path: the entry of the
/// path, under the path, with the content of its blob.
pub open spec fn target_in_head(
    files: Map<Seq<u8>, Seq<u8>>,
    head: Map<Seq<u8>, PathEntryView>,
    path: Seq<u8>,
) -> Option<TargetView> {
    if !head.dom().contains(path) || head[path].sha.len() != 20 {
        None
    } else {
        match blob_at(files, head[path].sha) {
            Some(body) => Some(
                TargetView {
                    path,
                    sha: hex_of(head[path].sha),
                    mode: mode_word(head[path].mode),
                    content: body,
                },
            ),
            None => None,
        }
    }
}

/// The side that the work tree holds for a path: the file with its stat
/// as the status saw it.
pub open spec fn target_in_file(
    work: Map<Seq<u8>, WorkFileView>,
    stats: Map<Seq<u8>, FileStat>,
    path: Seq<u8>,
) -> Option<TargetView> {
    if work.dom().contains(path) && stats.dom().contains(path) {
        Some(
            TargetView {
                path,
                sha: hex_of(blob_id(work[path].content)),
                mode: stats[path].mode,
                content: work[path].content,
            },
        )
    } else {
        None
    }
}

/// The side as plain values, where there is one.
pub open spec fn opt_target(t: Option<DiffTarget>) -> Option<TargetView> {
    match t {
        Some(t) => Some(t@),
        None => None,
    }
}

/// The blob with the given digest.
fn read_blob(repo: &Repository, hex: &[u8]) -> (r: Option<Vec<u8>>)
    requires
        repo.wf(),
        hex@.len() == 40,
    ensures
        r is Some <==> object_at(repo.files_view(), object_path(hex@)) matches Some(
            (ObjectKind::Blob, _),
        ),
        r matches Some(body) ==> object_at(repo.files_view(), object_path(hex@)) == Some(
            (ObjectKind::Blob, body@),
        ),
{
    match repo.object_for_sha(hex) {
        Ok(Object::Blob(b)) => Some(b.raw_content()),
        _ => None,
    }
}

/// The side that the index holds for a path.
pub fn target_from_index(repo: &Repository, path: &[u8]) -> (t: Option<DiffTarget>)
    requires
        repo.wf(),
    ensures
        opt_target(t) == target_in_index(
            repo.files_view(),
            repo.spec_index().entry_map(),
            path@,
        ),
{
    proof {
        repo.lemma_wf();
    }
    let entry = match repo.index().entry_for(path) {
        Some(e) => e,
        None => {
            return None;
        },
    };
    let hex = entry.sha().hexdigest();
    match read_blob(repo, hex.as_slice()) {
        Some(content) => Some(
            DiffTarget { path: copy_bytes(entry.name().as_slice()), sha: hex, mode: entry.mode(), content },
        ),
        None => None,
    }
}

/// The side that the tree of `HEAD` holds for a path.
pub fn target_from_head(repo: &Repository, status: &Status, path: &[u8]) -> (t: Option<DiffTarget>)
    requires
        repo.wf(),
        status.wf(),
    ensures
        opt_target(t) == target_in_head(repo.files_view(), status.spec_head(), path@),
{
    let head = status.head_diff();
    let entry = match head.get(path) {
        Some(e) => e,
        None => {
            return None;
        },
    };
    assert(entry@ == status.spec_head()[path@]);
    let sha = match Sha::from_bytes(entry.sha().bytes().as_slice()) {
        Some(s) => s,
        None => {
            return None;
        },
    };
    let hex = sha.hexdigest();
    match read_blob(repo, hex.as_slice()) {
        Some(content) => Some(
            DiffTarget {
                path: copy_bytes(path),
                sha: hex,
                mode: entry.mode().word(),
                content,
            },
        ),
        None => None,
    }
}

/// The side that the work tree holds for a path.
pub fn target_from_file(repo: &Repository, status: &Status, path: &[u8]) -> (t: Option<DiffTarget>)
    requires
        repo.wf(),
        status.wf(),
    ensures
        opt_target(t) == target_in_file(
            repo.spec_workspace().files(),
            status.spec_stats(),
            path@,
        ),
{
    proof {
        repo.lemma_wf();
        reveal_strlit("blob");
    }
    let blob = match repo.workspace().read_blob(path) {
        Some(b) => b,
        None => {
            return None;
        },
    };
    let stat = match status.stat_for(path) {
        Some(s) => s,
        None => {
            return None;
        },
    };
    let content = blob.raw_content();
    let sha = crate::cmd::hash_object(content.as_slice());
    Some(DiffTarget { path: copy_bytes(path), sha, mode: stat.mode, content })
}

/// The two sides of the diff of a file.
#[derive(Debug)]
pub struct DiffPair {
    pub a: DiffTarget,
    pub b: DiffTarget,
}

/// Pairs as plain values.
pub open spec fn pairs_view(pairs: Seq<DiffPair>) -> Seq<(TargetView, TargetView)> {
    Seq::new(pairs.len(), |i: int| (pairs[i].a@, pairs[i].b@))
}

/// The sides to compare for a path that differs between the index and
/// the work tree: for a file with other content, the index and the file;
/// for a deleted file, the index and nothing. The path is the error where
/// a side cannot be read.
pub open spec fn unstaged_pair(
    files: Map<Seq<u8>, Seq<u8>>,
    entries: Map<Seq<u8>, EntryView>,
    work: Map<Seq<u8>, WorkFileView>,
    stats: Map<Seq<u8>, FileStat>,
    path: Seq<u8>,
    change: ChangeType,
) -> Result<Seq<(TargetView, TargetView)>, Seq<u8>> {
    let a = target_in_index(files, entries, path);
    let b = target_in_file(work, stats, path);
    match change {
        ChangeType::Modified => if a is Some && b is Some {
            Ok(seq![(a->0, b->0)])
        } else {
            Err(path)
        },
        ChangeType::Deleted => if a is Some {
            Ok(seq![(a->0, null_target(path))])
        } else {
            Err(path)
        },
        _ => Ok(Seq::empty()),
    }
}

/// The sides to compare for a path that differs between the tree of
/// `HEAD` and the index: for a file with other content, the tree and the
/// index; for a file that was added, nothing and the index; for a deleted
/// file, the tree and nothing.
pub open spec fn staged_pair(
    files: Map<Seq<u8>, Seq<u8>>,
    head: Map<Seq<u8>, PathEntryView>,
    entries: Map<Seq<u8>, EntryView>,
    path: Seq<u8>,
    change: ChangeType,
) -> Result<Seq<(TargetView, TargetView)>, Seq<u8>> {
    let a = target_in_head(files, head, path);
    let b = target_in_index(files, entries, path);
    match change {
        ChangeType::Modified => if a is Some && b is Some {
            Ok(seq![(a->0, b->0)])
        } else {
            Err(path)
        },
        ChangeType::Added => if b is Some {
            Ok(seq![(null_target(path), b->0)])
        } else {
            Err(path)
        },
        ChangeType::Deleted => if a is Some {
            Ok(seq![(a->0, null_target(path))])
        } else {
            Err(path)
        },
        _ => Ok(Seq::empty()),
    }
}

/// The sides to compare for the first `i` paths that differ between the
/// index and the work tree; the first path of which a side cannot be read
/// is the error.
pub open spec fn unstaged_pairs(
    files: Map<Seq<u8>, Seq<u8>>,
    entries: Map<Seq<u8>, EntryView>,
    work: Map<Seq<u8>, WorkFileView>,
    stats: Map<Seq<u8>, FileStat>,
    names: Seq<Seq<u8>>,
    diff: Map<Seq<u8>, ChangeType>,
    i: int,
) -> Result<Seq<(TargetView, TargetView)>, Seq<u8>>
    decreases i,
{
    if i <= 0 {
        Ok(Seq::empty())
    } else {
        match unstaged_pairs(files, entries, work, stats, names, diff, i - 1) {
            Err(p) => Err(p),
            Ok(before) => match unstaged_pair(
                files,
                entries,
                work,
                stats,
                names[i - 1],
                diff[names[i - 1]],
            ) {
                Err(p) => Err(p),
                Ok(more) => Ok(before + more),
            },
        }
    }
}

/// The sides to compare for the first `i` paths that differ between the
/// tree of `HEAD` and the index.
pub open spec fn staged_pairs(
    files: Map<Seq<u8>, Seq<u8>>,
    head: Map<Seq<u8>, PathEntryView>,
    entries: Map<Seq<u8>, EntryView>,
    names: Seq<Seq<u8>>,
    diff: Map<Seq<u8>, ChangeType>,
    i: int,
) -> Result<Seq<(TargetView, TargetView)>, Seq<u8>>
    decreases i,
{
    if i <= 0 {
        Ok(Seq::empty())
    } else {
        match staged_pairs(files, head, entries, names, diff, i - 1) {
            Err(p) => Err(p),
            Ok(before) => match staged_pair(files, head, entries, names[i - 1], diff[names[i - 1]]) {
                Err(p) => Err(p),
                Ok(more) => Ok(before + more),
            },
        }
    }
}

/// What the function gave, as plain values.
pub open spec fn pairs_result(r: Result<Vec<DiffPair>, PidgitError>) -> Result<
    Seq<(TargetView, TargetView)>,
    Seq<u8>,
> {
    match r {
        Ok(pairs) => Ok(pairs_view(pairs@)),
        Err(PidgitError::ObjectNotFound(p)) => Err(p@),
        Err(_) => Err(Seq::empty()),
    }
}

/// The sides to compare for the paths that differ between the index and
/// the work tree, in ascending byte order of the paths.
pub fn workspace_targets(repo: &Repository, status: &Status) -> (r: Result<
    Vec<DiffPair>,
    PidgitError,
>)
    requires
        repo.wf(),
        status.wf(),
    ensures
        r matches Err(e) ==> e is ObjectNotFound,
        pairs_result(r) == unstaged_pairs(
            repo.files_view(),
            repo.spec_index().entry_map(),
            repo.spec_workspace().files(),
            status.spec_stats(),
            status.unstaged_names(),
            status.spec_workspace_diff(),
            status.unstaged_names().len() as int,
        ),
{
    let diff = status.workspace_diff();
    let n = diff.len();
    let ghost files = repo.files_view();
    let ghost entries = repo.spec_index().entry_map();
    let ghost work = repo.spec_workspace().files();
    let ghost stats = status.spec_stats();
    let ghost names = diff.keys();
    let ghost changes = diff.map();
    let mut out: Vec<DiffPair> = Vec::new();
    assert(pairs_view(out@) =~= Seq::<(TargetView, TargetView)>::empty());
    let mut i: usize = 0;
    while i < n
        invariant
            repo.wf(),
            status.wf(),
            diff.wf(),
            n == names.len(),
            names == diff.keys(),
            changes == diff.map(),
            files == repo.files_view(),
            entries == repo.spec_index().entry_map(),
            work == repo.spec_workspace().files(),
            stats == status.spec_stats(),
            names == status.unstaged_names(),
            changes == status.spec_workspace_diff(),
            i <= n,
            unstaged_pairs(files, entries, work, stats, names, changes, i as int) == Ok::<
                Seq<(TargetView, TargetView)>,
                Seq<u8>,
            >(pairs_view(out@)),
        decreases n - i,
    {
        let path = diff.key_at(i);
        let change = *diff.value_at(i);
        proof {
            lemma_map_at(diff.keys(), diff.vals(), i as int);
        }
        let ghost before = pairs_view(out@);
        match change {
            ChangeType::Modified => {
                let a = target_from_index(repo, path.as_slice());
                let b = target_from_file(repo, status, path.as_slice());
                match (a, b) {
                    (Some(a), Some(b)) => {
                        out.push(DiffPair { a, b });
                        assert(pairs_view(out@) =~= before + seq![(a@, b@)]);
                    },
                    _ => {
                        proof {
                            assert(unstaged_pair(files, entries, work, stats, path@, change) is Err);
                            assert(unstaged_pairs(files, entries, work, stats, names, changes, i + 1)
                                == Err::<Seq<(TargetView, TargetView)>, Seq<u8>>(path@));
                            lemma_pairs_fail(files, entries, work, stats, names, changes, i + 1, n as int);
                        }
                        return Err(PidgitError::ObjectNotFound(copy_bytes(path.as_slice())));
                    },
                }
            },
            ChangeType::Deleted => {
                match target_from_index(repo, path.as_slice()) {
                    Some(a) => {
                        let b = DiffTarget::null(path.as_slice());
                        out.push(DiffPair { a, b });
                        assert(pairs_view(out@) =~= before + seq![(a@, b@)]);
                    },
                    None => {
                        proof {
                            assert(unstaged_pair(files, entries, work, stats, path@, change) is Err);
                            assert(unstaged_pairs(files, entries, work, stats, names, changes, i + 1)
                                == Err::<Seq<(TargetView, TargetView)>, Seq<u8>>(path@));
                            lemma_pairs_fail(files, entries, work, stats, names, changes, i + 1, n as int);
                        }
                        return Err(PidgitError::ObjectNotFound(copy_bytes(path.as_slice())));
                    },
                }
            },
            _ => {
                assert(pairs_view(out@) =~= before + Seq::<(TargetView, TargetView)>::empty());
            },
        }
        i += 1;
    }
    Ok(out)
}

/// Once a side cannot be read, the error stays.
proof fn lemma_pairs_fail(
    files: Map<Seq<u8>, Seq<u8>>,
    entries: Map<Seq<u8>, EntryView>,
    work: Map<Seq<u8>, WorkFileView>,
    stats: Map<Seq<u8>, FileStat>,
    names: Seq<Seq<u8>>,
    diff: Map<Seq<u8>, ChangeType>,
    i: int,
    n: int,
)
    requires
        0 < i <= n,
        unstaged_pairs(files, entries, work, stats, names, diff, i) is Err,
    ensures
        unstaged_pairs(files, entries, work, stats, names, diff, n) == unstaged_pairs(
            files,
            entries,
            work,
            stats,
            names,
            diff,
            i,
        ),
    decreases n - i,
{
    if i < n {
        lemma_pairs_fail(files, entries, work, stats, names, diff, i, n - 1);
    }
}

/// The sides to compare for the paths that differ between the tree of
/// `HEAD` and the index, in ascending byte order of the paths.
pub fn index_targets(repo: &Repository, status: &Status) -> (r: Result<Vec<DiffPair>, PidgitError>)
    requires
        repo.wf(),
        status.wf(),
    ensures
        r matches Err(e) ==> e is ObjectNotFound,
        pairs_result(r) == staged_pairs(
            repo.files_view(),
            status.spec_head(),
            repo.spec_index().entry_map(),
            status.staged_names(),
            status.spec_index_diff(),
            status.staged_names().len() as int,
        ),
{
    let diff = status.index_diff();
    let n = diff.len();
    let ghost files = repo.files_view();
    let ghost head = status.spec_head();
    let ghost entries = repo.spec_index().entry_map();
    let ghost names = diff.keys();
    let ghost changes = diff.map();
    let mut out: Vec<DiffPair> = Vec::new();
    assert(pairs_view(out@) =~= Seq::<(TargetView, TargetView)>::empty());
    let mut i: usize = 0;
    while i < n
        invariant
            repo.wf(),
            status.wf(),
            diff.wf(),
            n == names.len(),
            names == diff.keys(),
            changes == diff.map(),
            files == repo.files_view(),
            head == status.spec_head(),
            entries == repo.spec_index().entry_map(),
            names == status.staged_names(),
            changes == status.spec_index_diff(),
            i <= n,
            staged_pairs(files, head, entries, names, changes, i as int) == Ok::<
                Seq<(TargetView, TargetView)>,
                Seq<u8>,
            >(pairs_view(out@)),
        decreases n - i,
    {
        let path = diff.key_at(i);
        let change = *diff.value_at(i);
        proof {
            lemma_map_at(diff.keys(), diff.vals(), i as int);
        }
        let ghost before = pairs_view(out@);
        let a = match change {
            ChangeType::Modified | ChangeType::Deleted => target_from_head(repo, status, path.as_slice()),
            _ => Some(DiffTarget::null(path.as_slice())),
        };
        let b = match change {
            ChangeType::Modified | ChangeType::Added => target_from_index(repo, path.as_slice()),
            _ => Some(DiffTarget::null(path.as_slice())),
        };
        match change {
            ChangeType::Untracked => {
                assert(pairs_view(out@) =~= before + Seq::<(TargetView, TargetView)>::empty());
            },
            _ => match (a, b) {
                (Some(a), Some(b)) => {
                    out.push(DiffPair { a, b });
                    assert(pairs_view(out@) =~= before + seq![(a@, b@)]);
                },
                _ => {
                    proof {
                        assert(staged_pair(files, head, entries, path@, change) is Err);
                        assert(staged_pairs(files, head, entries, names, changes, i + 1) == Err::<
                            Seq<(TargetView, TargetView)>,
                            Seq<u8>,
                        >(path@));
                        lemma_staged_fail(files, head, entries, names, changes, i + 1, n as int);
                    }
                    return Err(PidgitError::ObjectNotFound(copy_bytes(path.as_slice())));
                },
            },
        }
        i += 1;
    }
    Ok(out)
}

/// Once a side cannot be read, the error stays.
proof fn lemma_staged_fail(
    files: Map<Seq<u8>, Seq<u8>>,
    head: Map<Seq<u8>, PathEntryView>,
    entries: Map<Seq<u8>, EntryView>,
    names: Seq<Seq<u8>>,
    diff: Map<Seq<u8>, ChangeType>,
    i: int,
    n: int,
)
    requires
        0 < i <= n,
        staged_pairs(files, head, entries, names, diff, i) is Err,
    ensures
        staged_pairs(files, head, entries, names, diff, n) == staged_pairs(
            files,
            head,
            entries,
            names,
            diff,
            i,
        ),
    decreases n - i,
{
    if i < n {
        lemma_staged_fail(files, head, entries, names, diff, i, n - 1);
    }
}

} // verus!
