//! What the commands that show the repository print.

use crate::bytes::{copy_bytes, decimal, decimal_bytes, find_byte, index_of, lit, slice_range, text};
use crate::cmd::{out_view, LineStyle, OutLine};
use crate::errors::{kind_name, ObjectKind, PidgitError};
use crate::object::commit::{parsed_commit, Commit};
use crate::object::tree::{mode_long, parse_records, pretty_text, PathEntry, PathEntryView};
use crate::object::Object;
use crate::pathmap::{ascending, lemma_map_at, PathMap};
use crate::repo::{
    bodies, commit_fault, commit_files, name_fault, named_object, parent_bodies, Repository,
};
use crate::rev_parse::{is_valid_refname_bytes, valid_refname};
use crate::sha::{encode_hex, hex_of, object_id, Sha};
use crate::status::{head_view, read_tree, ChangeType, Status, MAX_TREE_DEPTH};
use vstd::prelude::*;
use vstd::string::*;

verus! {

/// The words of a change in the long format, with a colon, filled up
/// with spaces to twelve places; nothing for an untracked name.
pub open spec fn change_label(c: ChangeType) -> Seq<u8> {
    match c {
        ChangeType::Modified => text("modified:   "@),
        ChangeType::Deleted => text("deleted:    "@),
        ChangeType::Added => text("new file:   "@),
        ChangeType::Untracked => Seq::empty(),
    }
}

/// The lines of the first `i` changes: a tab, the words of the change,
/// and the path.
pub open spec fn change_lines(
    names: Seq<Seq<u8>>,
    changes: Map<Seq<u8>, ChangeType>,
    style: LineStyle,
    i: int,
) -> Seq<(LineStyle, Seq<u8>)>
    decreases i,
{
    if i <= 0 {
        Seq::empty()
    } else {
        change_lines(names, changes, style, i - 1).push(
            (style, seq![0x09u8] + change_label(changes[names[i - 1]]) + names[i - 1]),
        )
    }
}

/// A part of the long format: nothing where there is no change; else
/// the title with a colon, the lines of the changes, and an empty line.
pub open spec fn section(
    title: Seq<u8>,
    names: Seq<Seq<u8>>,
    changes: Map<Seq<u8>, ChangeType>,
    style: LineStyle,
) -> Seq<(LineStyle, Seq<u8>)> {
    if names.len() == 0 {
        Seq::empty()
    } else {
        seq![(LineStyle::Plain, title + seq![0x3au8])] + change_lines(
            names,
            changes,
            style,
            names.len() as int,
        ) + seq![(LineStyle::Plain, Seq::empty())]
    }
}

/// The last line of the long format: none where changes are staged.
pub open spec fn commit_status(status: Status) -> Seq<(LineStyle, Seq<u8>)> {
    if status.staged_names().len() > 0 {
        Seq::empty()
    } else if status.unstaged_names().len() > 0 {
        seq![(LineStyle::Plain, text("no changes added to commit"@))]
    } else {
        seq![(LineStyle::Plain, text("nothing to commit, working tree clean"@))]
    }
}

/// The status in the long format.
pub open spec fn full_output(status: Status) -> Seq<(LineStyle, Seq<u8>)> {
    section(
        text("Changes to be committed"@),
        status.staged_names(),
        status.spec_index_diff(),
        LineStyle::Green,
    ) + section(
        text("Changes not staged for commit"@),
        status.unstaged_names(),
        status.spec_workspace_diff(),
        LineStyle::Red,
    ) + section(
        text("Untracked files"@),
        status.untracked_names(),
        status.spec_untracked(),
        LineStyle::Red,
    ) + commit_status(status)
}

fn label_of(c: ChangeType) -> (out: Vec<u8>)
    ensures
        out@ == change_label(c),
{
    proof {
        reveal_strlit("modified:   ");
        reveal_strlit("deleted:    ");
        reveal_strlit("new file:   ");
    }
    match c {
        ChangeType::Modified => lit("modified:   "),
        ChangeType::Deleted => lit("deleted:    "),
        ChangeType::Added => lit("new file:   "),
        ChangeType::Untracked => Vec::new(),
    }
}

/// A part of the long format.
pub fn print_changes(title: &[u8], changes: &PathMap<ChangeType>, style: LineStyle) -> (out: Vec<
    OutLine,
>)
    requires
        changes.wf(),
    ensures
        out_view(out@) == section(title@, changes.keys(), changes.map(), style),
{
    let mut out: Vec<OutLine> = Vec::new();
    let n = changes.len();
    if n == 0 {
        assert(out_view(out@) =~= Seq::<(LineStyle, Seq<u8>)>::empty());
        return out;
    }
    let mut head = copy_bytes(title);
    head.push(0x3a);
    assert(head@ =~= title@ + seq![0x3au8]);
    out.push(OutLine { style: LineStyle::Plain, text: head });
    let ghost first = seq![(LineStyle::Plain, title@ + seq![0x3au8])];
    let ghost names = changes.keys();
    let ghost map = changes.map();
    assert(out_view(out@) =~= first + change_lines(names, map, style, 0));
    let mut i: usize = 0;
    while i < n
        invariant
            changes.wf(),
            n == names.len(),
            names == changes.keys(),
            map == changes.map(),
            i <= n,
            out_view(out@) == first + change_lines(names, map, style, i as int),
        decreases n - i,
    {
        let path = changes.key_at(i);
        let change = *changes.value_at(i);
        proof {
            lemma_map_at(changes.keys(), changes.vals(), i as int);
        }
        let mut line: Vec<u8> = Vec::new();
        line.push(0x09);
        line.extend_from_slice(label_of(change).as_slice());
        line.extend_from_slice(path.as_slice());
        let ghost before = out_view(out@);
        assert(line@ =~= seq![0x09u8] + change_label(map[names[i as int]]) + names[i as int]);
        out.push(OutLine { style, text: line });
        assert(out_view(out@) =~= before.push((style, line@)));
        assert(out_view(out@) =~= first + change_lines(names, map, style, i + 1));
        i += 1;
    }
    let ghost before = out_view(out@);
    out.push(OutLine { style: LineStyle::Plain, text: Vec::new() });
    assert(out_view(out@) =~= before + seq![(LineStyle::Plain, Seq::<u8>::empty())]);
    out
}

/// The last line of the long format.
pub fn print_commit_status(status: &Status) -> (out: Vec<OutLine>)
    requires
        status.wf(),
    ensures
        out_view(out@) == commit_status(*status),
{
    proof {
        reveal_strlit("no changes added to commit");
        reveal_strlit("nothing to commit, working tree clean");
    }
    let mut out: Vec<OutLine> = Vec::new();
    if status.index_diff().len() > 0 {
    } else if status.workspace_diff().len() > 0 {
        out.push(OutLine { style: LineStyle::Plain, text: lit("no changes added to commit") });
    } else {
        out.push(
            OutLine { style: LineStyle::Plain, text: lit("nothing to commit, working tree clean") },
        );
    }
    assert(out_view(out@) =~= commit_status(*status));
    out
}

/// The status in the long format: the staged changes, the changes that
/// are not staged, the untracked names, and a last line.
pub fn print_full(status: &Status) -> (out: Vec<OutLine>)
    requires
        status.wf(),
    ensures
        out_view(out@) == full_output(*status),
{
    proof {
        reveal_strlit("Changes to be committed");
        reveal_strlit("Changes not staged for commit");
        reveal_strlit("Untracked files");
    }
    let mut out = print_changes(
        lit("Changes to be committed").as_slice(),
        status.index_diff(),
        LineStyle::Green,
    );
    let ghost one = out_view(out@);
    let mut part = print_changes(
        lit("Changes not staged for commit").as_slice(),
        status.workspace_diff(),
        LineStyle::Red,
    );
    let ghost two = out_view(part@);
    out.append(&mut part);
    assert(out_view(out@) =~= one + two);
    let mut part = print_changes(lit("Untracked files").as_slice(), status.untracked(), LineStyle::Red);
    let ghost three = out_view(part@);
    out.append(&mut part);
    assert(out_view(out@) =~= one + two + three);
    let mut part = print_commit_status(status);
    let ghost four = out_view(part@);
    out.append(&mut part);
    assert(out_view(out@) =~= one + two + three + four);
    out
}

/// The first line of a message.
pub open spec fn title_of(message: Seq<u8>) -> Seq<u8> {
    message.subrange(0, index_of(message, 0x0a, 0))
}

/// The first eight digits of the identity of the commit with the given
/// body.
pub open spec fn short_id(body: Seq<u8>) -> Seq<u8> {
    hex_of(object_id(text("commit"@), body)).subrange(0, 8)
}

/// The line of a commit in the log: the first eight digits of its
/// identity, a space, and the first line of its message.
pub open spec fn log_line(body: Seq<u8>) -> Seq<u8> {
    short_id(body) + seq![0x20u8] + title_of(parsed_commit(body)->0.message)
}

/// The log from the commit with the given body on, at most `fuel`
/// commits of it: the line of the commit, then the log from the last of
/// its parents that can be read.
pub open spec fn log_text(files: Map<Seq<u8>, Seq<u8>>, body: Seq<u8>, fuel: nat) -> Seq<u8>
    decreases fuel,
{
    if fuel == 0 {
        Seq::empty()
    } else {
        let parents = parsed_commit(body)->0.parents;
        let found = parent_bodies(files, parents, parents.len() as int);
        let line = log_line(body) + seq![0x0au8];
        if found.len() == 0 {
            line
        } else {
            line + log_text(files, found.last(), (fuel - 1) as nat)
        }
    }
}

/// The first eight digits of the identity of a commit.
fn short_commit_id(commit: &Commit) -> (out: Vec<u8>)
    ensures
        out@ == short_id(commit@.content),
{
    proof {
        reveal_strlit("commit");
    }
    let body = commit.raw_content();
    let sha = Sha::header_and_body(lit("commit").as_slice(), body.as_slice());
    sha.short(8)
}

/// What `commit` prints for the commit that it made: the first eight
/// digits of its identity in square brackets, a space, and the first line
/// of its message.
pub fn commit_line(commit: &Commit) -> (out: Vec<u8>)
    ensures
        out@ == seq![0x5bu8] + short_id(commit@.content) + seq![0x5du8, 0x20u8] + title_of(
            commit@.message,
        ),
{
    let mut out: Vec<u8> = Vec::new();
    out.push(0x5b);
    out.extend_from_slice(short_commit_id(commit).as_slice());
    out.push(0x5d);
    out.push(0x20);
    out.extend_from_slice(commit.title().as_slice());
    assert(out@ =~= seq![0x5bu8] + short_id(commit@.content) + seq![0x5du8, 0x20u8] + title_of(
        commit@.message,
    ));
    out
}

/// What `log` prints for a name: the line of the commit that the name
/// stands for, then those of its ancestors, each the last parent of the one
/// before that can be read; at most `limit` lines. Fails where the name
/// stands for no object, or for one that is no commit.
pub fn log(repo: &Repository, name: &[u8], limit: usize) -> (r: Result<Vec<u8>, PidgitError>)
    requires
        repo.wf(),
    ensures
        match named_object(repo.files_view(), name@) {
            Some((ObjectKind::Commit, body)) => r matches Ok(out) && out@ == log_text(
                repo.files_view(),
                body,
                limit as nat,
            ),
            Some(_) => r matches Err(PidgitError::Generic(m)) && m@ == text("ref "@) + name@ + text(
                " is not a commit!"@,
            ),
            None => r matches Err(e) && name_fault(repo.files_view(), name@, e),
        },
{
    proof {
        reveal_strlit("ref ");
        reveal_strlit(" is not a commit!");
    }
    let mut commit = match repo.resolve_object(name) {
        Ok(Object::Commit(c)) => c,
        Ok(_) => {
            let mut msg = lit("ref ");
            msg.extend_from_slice(name);
            msg.extend_from_slice(lit(" is not a commit!").as_slice());
            return Err(PidgitError::Generic(msg));
        },
        Err(e) => {
            return Err(e);
        },
    };
    let ghost files = repo.files_view();
    let ghost goal = log_text(files, commit@.content, limit as nat);
    let mut out: Vec<u8> = Vec::new();
    let mut left: usize = limit;
    let mut done = false;
    assert(out@ + goal =~= goal);
    while left > 0 && !done
        invariant
            repo.wf(),
            files == repo.files_view(),
            Some(commit@) == parsed_commit(commit@.content),
            done ==> out@ == goal,
            !done ==> out@ + log_text(files, commit@.content, left as nat) == goal,
        decreases left, (if done { 0int } else { 1int }),
    {
        let ghost before = out@;
        let ghost body = commit@.content;
        out.extend_from_slice(short_commit_id(&commit).as_slice());
        out.push(0x20);
        out.extend_from_slice(commit.title().as_slice());
        out.push(0x0a);
        assert(out@ =~= before + (log_line(body) + seq![0x0au8]));
        let mut found = repo.parents(&commit);
        let ghost all = found@;
        left -= 1;
        match found.pop() {
            Some(parent) => {
                proof {
                    assert(parent == all.last());
                    assert(bodies(all).last() == parent@.content);
                    assert(before + (log_line(body) + seq![0x0au8]) + log_text(
                        files,
                        parent@.content,
                        left as nat,
                    ) =~= before + log_text(files, body, (left + 1) as nat));
                }
                commit = parent;
            },
            None => {
                assert(bodies(all).len() == 0);
                done = true;
            },
        }
    }
    proof {
        if !done {
            assert(out@ + Seq::<u8>::empty() =~= out@);
        }
    }
    Ok(out)
}

/// What of an object is to be shown.
#[derive(Clone, Copy, Debug, PartialEq, Eq, Structural)]
pub enum Show {
    Kind,
    Size,
    Pretty,
    Summary,
}

/// What `cat-file` prints for an object of the given kind and body: the
/// name of the kind; the length of the body; the object as it is shown, a
/// tree as its lines and any other as its body; or the name of the kind and
/// the length.
pub open spec fn shown(kind: ObjectKind, body: Seq<u8>, what: Show) -> Seq<u8> {
    match what {
        Show::Kind => kind_name(kind) + seq![0x0au8],
        Show::Size => decimal(body.len()) + seq![0x0au8],
        Show::Pretty => match kind {
            ObjectKind::Tree => pretty_text(
                parse_records(body, 0)->0,
                parse_records(body, 0)->0.len() as int,
            ),
            _ => body,
        },
        Show::Summary => kind_name(kind) + seq![0x20u8] + decimal(body.len()) + seq![0x0au8],
    }
}

/// What `cat-file` prints for an object.
pub fn show_object(object: &Object, what: Show) -> (out: Vec<u8>)
    requires
        object.faithful(),
    ensures
        out@ == shown(object.spec_kind(), object.body(), what),
{
    match what {
        Show::Kind => {
            let mut out = object.type_str();
            out.push(0x0a);
            out
        },
        Show::Size => {
            let mut out = decimal_bytes(object.size() as u64);
            out.push(0x0a);
            out
        },
        Show::Pretty => object.pretty(),
        Show::Summary => {
            let mut out = object.type_str();
            out.push(0x20);
            out.extend_from_slice(decimal_bytes(object.size() as u64).as_slice());
            out.push(0x0a);
            assert(out@ =~= shown(object.spec_kind(), object.body(), what));
            out
        },
    }
}

/// What `cat-file` prints for a name. Fails where the name stands for no
/// object.
pub fn cat_file(repo: &Repository, name: &[u8], what: Show) -> (r: Result<Vec<u8>, PidgitError>)
    requires
        repo.wf(),
    ensures
        match named_object(repo.files_view(), name@) {
            Some((kind, body)) => r matches Ok(out) && out@ == shown(kind, body, what),
            None => r matches Err(e) && name_fault(repo.files_view(), name@, e),
        },
{
    match repo.resolve_object(name) {
        Ok(object) => Ok(show_object(&object, what)),
        Err(e) => Err(e),
    }
}

/// What `rev-parse` prints for a name: the identity of the object that
/// the name stands for, in hexadecimal. Fails where the name stands for no
/// object.
pub fn rev_parse(repo: &Repository, name: &[u8]) -> (r: Result<Vec<u8>, PidgitError>)
    requires
        repo.wf(),
    ensures
        match named_object(repo.files_view(), name@) {
            Some((kind, body)) => r matches Ok(out) && out@ == hex_of(
                object_id(kind_name(kind), body),
            ),
            None => r matches Err(e) && name_fault(repo.files_view(), name@, e),
        },
{
    match repo.resolve_object(name) {
        Ok(object) => Ok(object.sha().hexdigest()),
        Err(e) => Err(e),
    }
}

/// A name from position `i` on, with one slash for every two slashes
/// that follow each other, read from the left.
pub open spec fn collapsed_from(s: Seq<u8>, i: int) -> Seq<u8>
    decreases s.len() - i,
{
    if i < 0 || i >= s.len() {
        Seq::empty()
    } else if i + 1 < s.len() && s[i] == 0x2f && s[i + 1] == 0x2f {
        seq![0x2fu8] + collapsed_from(s, i + 2)
    } else {
        seq![s[i]] + collapsed_from(s, i + 1)
    }
}

/// The position of the first byte at or after `i` that is no slash.
pub open spec fn past_slashes(s: Seq<u8>, i: int) -> int
    decreases s.len() - i,
{
    if 0 <= i < s.len() && s[i] == 0x2f {
        past_slashes(s, i + 1)
    } else {
        i
    }
}

/// A name in its normal form: pairs of slashes made one, then without
/// the slashes at its beginning.
pub open spec fn normalized(s: Seq<u8>) -> Seq<u8> {
    let c = collapsed_from(s, 0);
    c.subrange(past_slashes(c, 0), c.len() as int)
}

/// Whether a name passes `check-ref-format`: it is a valid ref name and,
/// unless one level is allowed, holds a slash.
pub open spec fn format_ok(name: Seq<u8>, allow_onelevel: bool) -> bool {
    valid_refname(name) && (allow_onelevel || index_of(name, 0x2f, 0) < name.len())
}

/// A name in its normal form.
pub fn normalize(name: &[u8]) -> (out: Vec<u8>)
    ensures
        out@ == normalized(name@),
{
    let n = name.len();
    let mut collapsed: Vec<u8> = Vec::new();
    let mut i: usize = 0;
    assert(collapsed@ + collapsed_from(name@, 0) =~= collapsed_from(name@, 0));
    while i < n
        invariant
            n == name@.len(),
            i <= n,
            collapsed@ + collapsed_from(name@, i as int) == collapsed_from(name@, 0),
        decreases n - i,
    {
        let ghost before = collapsed@;
        if i + 1 < n && name[i] == 0x2f && name[i + 1] == 0x2f {
            collapsed.push(0x2f);
            assert(collapsed@ + collapsed_from(name@, i + 2) =~= before + (seq![0x2fu8]
                + collapsed_from(name@, i + 2)));
            i += 2;
        } else {
            collapsed.push(name[i]);
            assert(collapsed@ + collapsed_from(name@, i + 1) =~= before + (seq![name@[i as int]]
                + collapsed_from(name@, i + 1)));
            i += 1;
        }
    }
    assert(collapsed@ + Seq::<u8>::empty() =~= collapsed@);
    let mut from: usize = 0;
    while from < collapsed.len() && collapsed[from] == 0x2f
        invariant
            from <= collapsed@.len(),
            past_slashes(collapsed@, 0) == past_slashes(collapsed@, from as int),
        decreases collapsed@.len() - from,
    {
        from += 1;
    }
    slice_range(collapsed.as_slice(), from, collapsed.len())
}

/// What `check-ref-format` does for a name: the name is put into its
/// normal form where that is asked for; a name that does not pass gives
/// `None`; one that passes gives what is printed, which is the normal form
/// and a newline where that was asked for, and nothing else.
pub fn check_ref_format(refname: &[u8], normal: bool, allow_onelevel: bool) -> (r: Option<Vec<u8>>)
    ensures
        r is Some <==> format_ok(
            if normal {
                normalized(refname@)
            } else {
                refname@
            },
            allow_onelevel,
        ),
        r matches Some(out) ==> out@ == (if normal {
            normalized(refname@) + seq![0x0au8]
        } else {
            Seq::empty()
        }),
{
    let name = if normal {
        normalize(refname)
    } else {
        copy_bytes(refname)
    };
    let mut ok = is_valid_refname_bytes(name.as_slice());
    if find_byte(name.as_slice(), 0x2f, 0) >= name.len() && !allow_onelevel {
        ok = false;
    }
    if !ok {
        return None;
    }
    if normal {
        let mut out = name;
        out.push(0x0a);
        Some(out)
    } else {
        Some(Vec::new())
    }
}

/// The line of a file in the listing of a tree: the mode with six
/// digits, the digest in hexadecimal and the path, with a space between
/// them.
pub open spec fn listing_line(path: Seq<u8>, e: PathEntryView) -> Seq<u8> {
    mode_long(e.mode) + seq![0x20u8] + hex_of(e.sha) + seq![0x20u8] + path + seq![0x0au8]
}

/// The lines of the first `i` paths.
pub open spec fn listing(names: Seq<Seq<u8>>, entries: Map<Seq<u8>, PathEntryView>, i: int) -> Seq<
    u8,
>
    decreases i,
{
    if i <= 0 {
        Seq::empty()
    } else {
        listing(names, entries, i - 1) + listing_line(names[i - 1], entries[names[i - 1]])
    }
}

/// `out` holds the lines of the files in ascending byte order of their
/// paths.
pub open spec fn is_listing(entries: Map<Seq<u8>, PathEntryView>, out: Seq<u8>) -> bool {
    exists|names: Seq<Seq<u8>>|
        ascending(names) && (forall|k: Seq<u8>| names.contains(k) <==> entries.dom().contains(k))
            && out == #[trigger] listing(names, entries, names.len() as int)
}

/// What `dump-tree` prints for a name: a line for every file of the tree
/// of the commit that the name stands for, the files of its subtrees among
/// them, in ascending byte order of the paths. Fails where the name stands
/// for no commit, and where a tree of the commit cannot be read.
pub fn dump_tree(repo: &Repository, name: &[u8]) -> (r: Result<Vec<u8>, PidgitError>)
    requires
        repo.wf(),
    ensures
        match named_object(repo.files_view(), name@) {
            Some((ObjectKind::Commit, body)) => match commit_files(repo.files_view(), body) {
                Some(entries) => r matches Ok(out) && is_listing(entries, out@),
                None => r matches Err(e) && commit_fault(repo.files_view(), body, e),
            },
            Some(_) => r matches Err(PidgitError::InvalidObject(ObjectKind::Commit)),
            None => r matches Err(e) && name_fault(repo.files_view(), name@, e),
        },
{
    proof {
        reveal_strlit("malformed tree digest in commit");
    }
    let commit = match repo.resolve_object(name) {
        Ok(Object::Commit(c)) => c,
        Ok(_) => {
            return Err(PidgitError::InvalidObject(ObjectKind::Commit));
        },
        Err(e) => {
            return Err(e);
        },
    };
    let sha = match Sha::from_hex(commit.tree().as_slice()) {
        Some(s) => s,
        None => {
            return Err(PidgitError::Generic(lit("malformed tree digest in commit")));
        },
    };
    let mut found: PathMap<PathEntry> = PathMap::new();
    assert(head_view(found) =~= Map::<Seq<u8>, PathEntryView>::empty());
    let root: Vec<u8> = Vec::new();
    match read_tree(repo, &sha, root.as_slice(), MAX_TREE_DEPTH, &mut found) {
        Ok(()) => {},
        Err(e) => {
            return Err(e);
        },
    }
    let ghost entries = commit_files(repo.files_view(), commit@.content)->0;
    assert(head_view(found) =~= entries);
    let ghost names = found.keys();
    let n = found.len();
    let mut out: Vec<u8> = Vec::new();
    let mut i: usize = 0;
    while i < n
        invariant
            found.wf(),
            n == names.len(),
            names == found.keys(),
            entries == head_view(found),
            i <= n,
            out@ == listing(names, entries, i as int),
        decreases n - i,
    {
        let path = found.key_at(i);
        let entry = found.value_at(i);
        proof {
            lemma_map_at(found.keys(), found.vals(), i as int);
        }
        let ghost before = out@;
        out.extend_from_slice(entry.mode().long().as_slice());
        out.push(0x20);
        out.extend_from_slice(encode_hex(entry.sha().bytes().as_slice()).as_slice());
        out.push(0x20);
        out.extend_from_slice(path.as_slice());
        out.push(0x0a);
        assert(out@ =~= before + listing_line(names[i as int], entries[names[i as int]]));
        i += 1;
    }
    proof {
        assert forall|k: Seq<u8>| names.contains(k) <==> entries.dom().contains(k) by {}
    }
    Ok(out)
}

} // verus!
