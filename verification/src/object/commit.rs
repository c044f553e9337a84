//! Commits: a tree, parents, who wrote and who committed it and when, and
//! a message.

use crate::bytes::{
    bytes_eq, copy_bytes, decimal, decimal_bytes, find_byte, index_of, lit, slice_range, text,
};
use vstd::prelude::*;
use vstd::string::*;

verus! {

/// The text that `chrono` writes for a moment with the format `%s %z`:
/// the seconds since 1970 and the offset from UTC. `None` where `chrono`
/// has no such moment or offset.
pub uninterp spec fn chrono_formatted(timestamp: int, offset: int) -> Option<Seq<u8>>;

/// The moment that `chrono` reads from a text with the format `%s %z`: the
/// seconds since 1970 and the offset from UTC in seconds. `None` where the
/// text is not of that format.
pub uninterp spec fn chrono_parsed(stamp: Seq<u8>) -> Option<(int, int)>;

/// Calls `chrono::FixedOffset::east_opt`, `chrono::DateTime::from_timestamp`
/// and `DateTime::format` with `%s %z`. The contract names the text, and
/// says no more of it.
#[verifier::external_body]
fn format_date(timestamp: i64, offset: i32) -> (out: Option<Vec<u8>>)
    ensures
        out is Some <==> chrono_formatted(timestamp as int, offset as int) is Some,
        out matches Some(v) ==> chrono_formatted(timestamp as int, offset as int) == Some(v@),
{
    let zone = chrono::FixedOffset::east_opt(offset)?;
    let moment = chrono::DateTime::from_timestamp(timestamp, 0)?;
    Some(moment.with_timezone(&zone).format("%s %z").to_string().into_bytes())
}

/// Calls `chrono::DateTime::parse_from_str` with `%s %z`, and reads
/// `timestamp()` and `offset().local_minus_utc()` of what it gives. The
/// contract names the two numbers, and says no more of them.
#[verifier::external_body]
fn parse_date(stamp: &[u8]) -> (out: Option<(i64, i32)>)
    ensures
        out is Some <==> chrono_parsed(stamp@) is Some,
        out matches Some(pair) ==> chrono_parsed(stamp@) == Some((pair.0 as int, pair.1 as int)),
{
    let s = std::str::from_utf8(stamp).ok()?;
    let moment = chrono::DateTime::parse_from_str(s, "%s %z").ok()?;
    Some((moment.timestamp(), moment.offset().local_minus_utc()))
}

/// Two decimal digits for a number below a hundred.
pub open spec fn two_digits(n: int) -> Seq<u8> {
    seq![(0x30 + n / 10) as u8, (0x30 + n % 10) as u8]
}

/// A whole number in decimal, with a minus sign where it is negative.
pub open spec fn signed_decimal(n: int) -> Seq<u8> {
    if n < 0 {
        seq![0x2du8] + decimal((-n) as nat)
    } else {
        decimal(n as nat)
    }
}

/// The offset from UTC as it stands in a commit: the sign, two digits of
/// hours and two of minutes, the seconds rounded to the nearest minute.
pub open spec fn offset_text(offset: int) -> Seq<u8> {
    let size = if offset < 0 {
        -offset
    } else {
        offset
    };
    let minutes = (size + 30) / 60;
    seq![
        if offset < 0 {
            0x2du8
        } else {
            0x2bu8
        },
    ] + two_digits(minutes / 60) + two_digits(minutes % 60)
}

/// A moment as it stands in a commit: the seconds since 1970 in decimal,
/// a space, and the offset from UTC.
pub open spec fn stamp_text(timestamp: int, offset: int) -> Seq<u8> {
    signed_decimal(timestamp) + seq![0x20u8] + offset_text(offset)
}

/// An offset from UTC of less than a day, which is what can stand in a
/// commit.
pub open spec fn offset_fits(offset: int) -> bool {
    -86400 < offset < 86400
}

/// The offset is one that can stand in a commit, `chrono` has the
/// moment, and writes it as it stands in a commit.
pub open spec fn stamp_written(timestamp: int, offset: int) -> bool {
    offset_fits(offset) && chrono_formatted(timestamp, offset) == Some(
        stamp_text(timestamp, offset),
    )
}

/// The offset as it stands in a commit, in seconds: the seconds rounded
/// to the nearest minute.
pub open spec fn whole_minutes(offset: int) -> int {
    if offset < 0 {
        -(((-offset + 30) / 60) * 60)
    } else {
        ((offset + 30) / 60) * 60
    }
}

/// `chrono` reads the moment from the text as which it stands in a
/// commit, with the offset in whole minutes.
pub open spec fn stamp_read(timestamp: int, offset: int) -> bool {
    chrono_parsed(stamp_text(timestamp, offset)) == Some((timestamp, whole_minutes(offset)))
}

/// The moment can stand in a commit: `chrono` writes it as it stands
/// there, and reads it from that text.
pub open spec fn stamp_kept(timestamp: int, offset: int) -> bool {
    stamp_written(timestamp, offset) && stamp_read(timestamp, offset)
}

/// A moment as it stands in a commit; `None` for an offset of a day or
/// more.
pub fn stamp_bytes(timestamp: i64, offset: i32) -> (out: Option<Vec<u8>>)
    ensures
        out is Some <==> offset_fits(offset as int),
        out matches Some(v) ==> v@ == stamp_text(timestamp as int, offset as int),
{
    if offset <= -86400 || offset >= 86400 {
        return None;
    }
    let mut out: Vec<u8> = Vec::new();
    let size: u64 = if timestamp < 0 {
        out.push(0x2d);
        let below: i64 = -(timestamp + 1);
        (below as u64) + 1
    } else {
        timestamp as u64
    };
    let digits = decimal_bytes(size);
    out.extend_from_slice(digits.as_slice());
    assert(out@ =~= signed_decimal(timestamp as int));
    out.push(0x20);
    let far: i32 = if offset < 0 {
        out.push(0x2d);
        -offset
    } else {
        out.push(0x2b);
        offset
    };
    let minutes: i32 = (far + 30) / 60;
    let hours: u8 = (minutes / 60) as u8;
    let mins: u8 = (minutes % 60) as u8;
    out.push(0x30 + hours / 10);
    out.push(0x30 + hours % 10);
    out.push(0x30 + mins / 10);
    out.push(0x30 + mins % 10);
    assert(out@ =~= stamp_text(timestamp as int, offset as int));
    Some(out)
}

/// The stamp that `chrono` wrote for a moment, where it is the moment as
/// it stands in a commit.
pub fn checked_stamp(written: Option<Vec<u8>>, timestamp: i64, offset: i32) -> (out: Option<Vec<u8>>)
    ensures
        out is Some <==> offset_fits(offset as int) && opt_bytes(written) == Some(
            stamp_text(timestamp as int, offset as int),
        ),
        out matches Some(v) ==> v@ == stamp_text(timestamp as int, offset as int),
{
    let want = match stamp_bytes(timestamp, offset) {
        Some(w) => w,
        None => {
            return None;
        },
    };
    match written {
        Some(w) => if bytes_eq(w.as_slice(), want.as_slice()) {
            Some(w)
        } else {
            None
        },
        None => None,
    }
}

/// Whether the moment that `chrono` read from a stamp is the given one,
/// with the offset in whole minutes.
pub fn same_moment(read: Option<(i64, i32)>, timestamp: i64, offset: i32) -> (r: bool)
    requires
        offset_fits(offset as int),
    ensures
        r == (match read {
            Some(pair) => pair.0 == timestamp && pair.1 == whole_minutes(offset as int),
            None => false,
        }),
{
    let rounded: i32 = if offset < 0 {
        -(((-offset + 30) / 60) * 60)
    } else {
        ((offset + 30) / 60) * 60
    };
    match read {
        Some(pair) => pair.0 == timestamp && pair.1 == rounded,
        None => false,
    }
}

/// The stamp of a moment, where `chrono` writes the moment as it stands
/// in a commit and reads it from that text.
fn kept_stamp(timestamp: i64, offset: i32) -> (out: Option<Vec<u8>>)
    ensures
        out is Some <==> stamp_kept(timestamp as int, offset as int),
        out matches Some(v) ==> v@ == stamp_text(timestamp as int, offset as int),
{
    let written = if offset > -86400 && offset < 86400 {
        format_date(timestamp, offset)
    } else {
        None
    };
    let stamp = match checked_stamp(written, timestamp, offset) {
        Some(s) => s,
        None => {
            return None;
        },
    };
    let read = parse_date(stamp.as_slice());
    if same_moment(read, timestamp, offset) {
        Some(stamp)
    } else {
        None
    }
}

/// A person and a moment, as plain values.
pub struct PersonView {
    pub name: Seq<u8>,
    pub email: Seq<u8>,
    pub timestamp: int,
    pub offset: int,
}

/// Who wrote or committed, and when: seconds since 1970, and the offset
/// of the local time from UTC in seconds.
#[derive(Debug, Clone, PartialEq, Eq)]
pub struct Person {
    pub name: Vec<u8>,
    pub email: Vec<u8>,
    pub timestamp: i64,
    pub offset: i32,
}

impl View for Person {
    type V = PersonView;

    open spec fn view(&self) -> PersonView {
        PersonView {
            name: self.name@,
            email: self.email@,
            timestamp: self.timestamp as int,
            offset: self.offset as int,
        }
    }
}

/// A person as it stands in a commit: `Name <email>`.
pub open spec fn person_text(name: Seq<u8>, email: Seq<u8>) -> Seq<u8> {
    name + text(" <"@) + email + text(">"@)
}

/// An ASCII white-space byte.
pub open spec fn is_space(c: u8) -> bool {
    c == 0x20 || (0x09 <= c <= 0x0d)
}

/// The position of the first byte at or after `i` that is not white
/// space, or the length.
pub open spec fn skip_space(s: Seq<u8>, i: int) -> int
    decreases s.len() - i,
{
    if 0 <= i < s.len() && is_space(s[i]) {
        skip_space(s, i + 1)
    } else if i < 0 || i > s.len() {
        s.len() as int
    } else {
        i
    }
}

/// The position after the last byte before `j` that is not white space,
/// but not before `lo`.
pub open spec fn back_space(s: Seq<u8>, lo: int, j: int) -> int
    decreases j,
{
    if lo < j <= s.len() && 0 < j && is_space(s[j - 1]) {
        back_space(s, lo, j - 1)
    } else {
        j
    }
}

/// `s` without the white space at its beginning and at its end.
pub open spec fn trimmed(s: Seq<u8>) -> Seq<u8> {
    s.subrange(skip_space(s, 0), back_space(s, skip_space(s, 0), s.len() as int))
}

/// `s` without the white space at its beginning and at its end.
pub fn trim(s: &[u8]) -> (out: Vec<u8>)
    ensures
        out@ == trimmed(s@),
{
    let len = s.len();
    let mut i: usize = 0;
    while i < len && (s[i] == 0x20 || (0x09 <= s[i] && s[i] <= 0x0d))
        invariant
            len == s@.len(),
            i <= len,
            skip_space(s@, 0) == skip_space(s@, i as int),
        decreases len - i,
    {
        i += 1;
    }
    let mut j: usize = len;
    while j > i && (s[j - 1] == 0x20 || (0x09 <= s[j - 1] && s[j - 1] <= 0x0d))
        invariant
            len == s@.len(),
            i <= j <= len,
            back_space(s@, i as int, len as int) == back_space(s@, i as int, j as int),
        decreases j,
    {
        j -= 1;
    }
    slice_range(s, i, j)
}

/// The three parts of the rest of an `author` or `committer` line: the
/// name up to `<`, the email up to `>`, and what follows, each without the
/// white space around it. `None` where `<` or `>` is missing.
pub open spec fn author_parts(line: Seq<u8>) -> Option<(Seq<u8>, Seq<u8>, Seq<u8>)> {
    let lt = index_of(line, 0x3c, 0);
    let gt = index_of(line, 0x3e, lt + 1);
    if lt >= line.len() || gt >= line.len() {
        None
    } else {
        Some(
            (
                trimmed(line.subrange(0, lt)),
                trimmed(line.subrange(lt + 1, gt)),
                trimmed(line.subrange(gt + 1, line.len() as int)),
            ),
        )
    }
}

/// The person and moment that stand in the rest of an `author` or
/// `committer` line: the name and the email of its parts, and the moment
/// that `chrono` reads from the third part. `None` where a part is missing
/// or `chrono` reads no moment.
pub open spec fn parsed_person(line: Seq<u8>) -> Option<PersonView> {
    match author_parts(line) {
        Some((name, email, stamp)) => match chrono_parsed(stamp) {
            Some((timestamp, offset)) => Some(PersonView { name, email, timestamp, offset }),
            None => None,
        },
        None => None,
    }
}

pub open spec fn opt_person(o: Option<Person>) -> Option<PersonView> {
    match o {
        Some(p) => Some(p@),
        None => None,
    }
}

/// The three parts of the rest of an `author` or `committer` line.
pub struct AuthorParts {
    pub name: Vec<u8>,
    pub email: Vec<u8>,
    pub stamp: Vec<u8>,
}

pub open spec fn opt_parts(o: Option<AuthorParts>) -> Option<(Seq<u8>, Seq<u8>, Seq<u8>)> {
    match o {
        Some(p) => Some((p.name@, p.email@, p.stamp@)),
        None => None,
    }
}

/// Cuts the rest of an `author` or `committer` line into its parts.
pub fn split_author_line(line: &[u8]) -> (parts: Option<AuthorParts>)
    ensures
        opt_parts(parts) == author_parts(line@),
{
    let len = line.len();
    let lt = find_byte(line, 0x3c, 0);
    if lt >= len {
        return None;
    }
    let gt = find_byte(line, 0x3e, lt + 1);
    if gt >= len {
        return None;
    }
    let name_raw = slice_range(line, 0, lt);
    let email_raw = slice_range(line, lt + 1, gt);
    let date_raw = slice_range(line, gt + 1, len);
    Some(
        AuthorParts {
            name: trim(name_raw.as_slice()),
            email: trim(email_raw.as_slice()),
            stamp: trim(date_raw.as_slice()),
        },
    )
}

/// Reads the rest of an `author` or `committer` line.
pub fn parse_author_line(line: &[u8]) -> (p: Option<Person>)
    ensures
        opt_person(p) == parsed_person(line@),
{
    let parts = match split_author_line(line) {
        Some(parts) => parts,
        None => {
            return None;
        },
    };
    match parse_date(parts.stamp.as_slice()) {
        Some(pair) => Some(
            Person { name: parts.name, email: parts.email, timestamp: pair.0, offset: pair.1 },
        ),
        None => None,
    }
}

/// What the header lines of a commit say.
pub struct Headers {
    pub tree: Option<Seq<u8>>,
    pub parents: Seq<Seq<u8>>,
    pub author: Option<Seq<u8>>,
    pub committer: Option<Seq<u8>>,
}

/// Where the scan of the header lines ended, and what it found.
pub struct Scan {
    pub headers: Headers,
    pub body_at: int,
}

/// The first word of a text: what stands before its first space.
pub open spec fn first_word(s: Seq<u8>) -> Seq<u8> {
    s.subrange(0, index_of(s, 0x20, 0))
}

/// The headers after a line with the given key and rest; `None` for a key
/// that is none of `tree`, `parent`, `author` and `committer`.
pub open spec fn with_header(h: Headers, key: Seq<u8>, rest: Seq<u8>) -> Option<Headers> {
    if key == text("tree"@) {
        Some(Headers { tree: Some(first_word(rest)), ..h })
    } else if key == text("parent"@) {
        Some(Headers { parents: h.parents.push(first_word(rest)), ..h })
    } else if key == text("author"@) {
        Some(Headers { author: Some(rest), ..h })
    } else if key == text("committer"@) {
        Some(Headers { committer: Some(rest), ..h })
    } else {
        None
    }
}

/// The scan of the header lines from `pos`: each line is a key, a space
/// and the rest; the first line without a space, or with another key, ends
/// the headers, and the message begins after it.
pub open spec fn scan(b: Seq<u8>, pos: int, h: Headers) -> Scan
    decreases b.len() - pos,
{
    let e = index_of(b, 0x0a, pos);
    let next = if e < b.len() {
        e + 1
    } else {
        b.len() as int
    };
    let line = b.subrange(pos, e);
    let sp = index_of(line, 0x20, 0);
    if pos < 0 || pos >= b.len() {
        Scan { headers: h, body_at: b.len() as int }
    } else if e < pos || sp >= line.len() {
        Scan { headers: h, body_at: next }
    } else {
        match with_header(h, line.subrange(0, sp), line.subrange(sp + 1, line.len() as int)) {
            Some(h2) => scan(b, next, h2),
            None => Scan { headers: h, body_at: next },
        }
    }
}

pub open spec fn no_headers() -> Headers {
    Headers { tree: None, parents: Seq::empty(), author: None, committer: None }
}

/// A commit as plain values.
pub struct CommitView {
    pub tree: Seq<u8>,
    pub parents: Seq<Seq<u8>>,
    pub author: PersonView,
    pub committer: PersonView,
    pub message: Seq<u8>,
    pub content: Seq<u8>,
}

/// The commit that a body holds: the tree, the parents, author and
/// committer of its header lines, and as message all that follows the line
/// that ends the headers. `None` where the tree, the author or the
/// committer is missing or cannot be read.
pub open spec fn parsed_commit(b: Seq<u8>) -> Option<CommitView> {
    let s = scan(b, 0, no_headers());
    match (s.headers.tree, s.headers.author, s.headers.committer) {
        (Some(tree), Some(author), Some(committer)) => match (
            parsed_person(author),
            parsed_person(committer),
        ) {
            (Some(a), Some(c)) => Some(
                CommitView {
                    tree,
                    parents: s.headers.parents,
                    author: a,
                    committer: c,
                    message: b.subrange(s.body_at, b.len() as int),
                    content: b,
                },
            ),
            _ => None,
        },
        _ => None,
    }
}

/// The lines `parent <hex>`, one for each parent.
pub open spec fn parent_lines(parents: Seq<Seq<u8>>) -> Seq<u8>
    decreases parents.len(),
{
    if parents.len() == 0 {
        Seq::empty()
    } else {
        parent_lines(parents.drop_last()) + text("parent "@) + parents.last() + seq![0x0au8]
    }
}

/// A line of a commit that names a person: the key, `Name <email>`, a
/// space, the stamp, and a newline.
pub open spec fn person_line(key: Seq<u8>, person: Seq<u8>, stamp: Seq<u8>) -> Seq<u8> {
    key + person + seq![0x20u8] + stamp + seq![0x0au8]
}

/// The body of a commit: `tree <hex>`, a `parent <hex>` line for each
/// parent, `author Name <email> <stamp>`, `committer ...`, an empty line,
/// and the message.
pub open spec fn commit_text(
    tree: Seq<u8>,
    parents: Seq<Seq<u8>>,
    author: Seq<u8>,
    author_stamp: Seq<u8>,
    committer: Seq<u8>,
    committer_stamp: Seq<u8>,
    message: Seq<u8>,
) -> Seq<u8> {
    text("tree "@) + tree + seq![0x0au8] + parent_lines(parents) + person_line(
        text("author "@),
        author,
        author_stamp,
    ) + person_line(text("committer "@), committer, committer_stamp) + seq![0x0au8] + message
}

/// A commit.
#[derive(Debug)]
pub struct Commit {
    tree: Vec<u8>,
    parent_shas: Vec<Vec<u8>>,
    author: Person,
    committer: Person,
    message: Vec<u8>,
    content: Vec<u8>,
}

pub open spec fn names_view(v: Seq<Vec<u8>>) -> Seq<Seq<u8>> {
    Seq::new(v.len(), |i: int| v[i]@)
}

impl View for Commit {
    type V = CommitView;

    closed spec fn view(&self) -> CommitView {
        CommitView {
            tree: self.tree@,
            parents: names_view(self.parent_shas@),
            author: self.author@,
            committer: self.committer@,
            message: self.message@,
            content: self.content@,
        }
    }
}

/// The header lines of a commit as they were read, and where its message
/// begins.
#[derive(Debug)]
pub struct RawCommit {
    pub tree: Option<Vec<u8>>,
    pub parents: Vec<Vec<u8>>,
    pub author: Option<Vec<u8>>,
    pub committer: Option<Vec<u8>>,
    pub body_at: usize,
}

pub open spec fn opt_bytes(o: Option<Vec<u8>>) -> Option<Seq<u8>> {
    match o {
        Some(v) => Some(v@),
        None => None,
    }
}

impl RawCommit {
    /// The header lines as plain values.
    pub open spec fn headers(&self) -> Headers {
        Headers {
            tree: opt_bytes(self.tree),
            parents: names_view(self.parents@),
            author: opt_bytes(self.author),
            committer: opt_bytes(self.committer),
        }
    }
}

fn push_person_line(out: &mut Vec<u8>, key: &[u8], person: &Person, stamp: &[u8])
    ensures
        final(out)@ == old(out)@ + person_line(
            key@,
            person_text(person@.name, person@.email),
            stamp@,
        ),
{
    proof {
        reveal_strlit(" <");
        reveal_strlit(">");
    }
    let mut line = copy_bytes(key);
    let who = person.render();
    line.extend_from_slice(who.as_slice());
    line.push(0x20);
    line.extend_from_slice(stamp);
    line.push(0x0a);
    assert(line@ =~= person_line(key@, person_text(person@.name, person@.email), stamp@));
    out.extend_from_slice(line.as_slice());
}

fn word_of(s: &[u8]) -> (out: Vec<u8>)
    ensures
        out@ == first_word(s@),
{
    let sp = find_byte(s, 0x20, 0);
    slice_range(s, 0, sp)
}

/// Reads the header lines of the body of a commit.
pub fn scan_headers(content: &[u8]) -> (raw: RawCommit)
    ensures
        scan(content@, 0, no_headers()) == (Scan {
            headers: raw.headers(),
            body_at: raw.body_at as int,
        }),
        raw.body_at <= content@.len(),
{
    proof {
        reveal_strlit("tree");
        reveal_strlit("parent");
        reveal_strlit("author");
        reveal_strlit("committer");
    }
    let k_tree = lit("tree");
    let k_parent = lit("parent");
    let k_author = lit("author");
    let k_committer = lit("committer");
    let len = content.len();
    let mut found = RawCommit {
        tree: None,
        parents: Vec::new(),
        author: None,
        committer: None,
        body_at: 0,
    };
    assert(found.headers().parents =~= Seq::<Seq<u8>>::empty());
    let mut pos: usize = 0;
    let mut body_at: usize = len;
    let mut done = false;
    while !done
        invariant
            len == content@.len(),
            pos <= len,
            body_at <= len,
            k_tree@ == text("tree"@),
            k_parent@ == text("parent"@),
            k_author@ == text("author"@),
            k_committer@ == text("committer"@),
            !done ==> scan(content@, 0, no_headers()) == scan(content@, pos as int, found.headers()),
            done ==> scan(content@, 0, no_headers()) == (Scan {
                headers: found.headers(),
                body_at: body_at as int,
            }),
        decreases
            (if done {
                0int
            } else {
                len - pos + 1
            }),
    {
        if pos >= len {
            body_at = len;
            done = true;
        } else {
            let e = find_byte(content, 0x0a, pos);
            let next: usize = if e < len {
                e + 1
            } else {
                len
            };
            let line = slice_range(content, pos, e);
            let sp = find_byte(line.as_slice(), 0x20, 0);
            if sp >= line.len() {
                body_at = next;
                done = true;
            } else {
                let key = slice_range(line.as_slice(), 0, sp);
                let rest = slice_range(line.as_slice(), sp + 1, line.len());
                let ghost before = found.headers();
                if bytes_eq(key.as_slice(), k_tree.as_slice()) {
                    found.tree = Some(word_of(rest.as_slice()));
                    pos = next;
                } else if bytes_eq(key.as_slice(), k_parent.as_slice()) {
                    let ghost old_parents = names_view(found.parents@);
                    let w = word_of(rest.as_slice());
                    found.parents.push(w);
                    assert(names_view(found.parents@) =~= old_parents.push(w@));
                    pos = next;
                } else if bytes_eq(key.as_slice(), k_author.as_slice()) {
                    found.author = Some(rest);
                    pos = next;
                } else if bytes_eq(key.as_slice(), k_committer.as_slice()) {
                    found.committer = Some(rest);
                    pos = next;
                } else {
                    body_at = next;
                    done = true;
                }
                proof {
                    if !done {
                        assert(Some(found.headers()) == with_header(before, key@, rest@));
                    }
                }
            }
        }
    }
    found.body_at = body_at;
    found
}

impl Commit {
    /// The commit of a body, of the header lines that were read from it,
    /// and of the author and the committer that were read from their lines.
    /// `None` where the tree, the author or the committer is missing.
    pub fn from_parts(
        content: Vec<u8>,
        raw: RawCommit,
        author: Option<Person>,
        committer: Option<Person>,
    ) -> (c: Option<Commit>)
        requires
            raw.body_at <= content@.len(),
        ensures
            c is Some <==> raw.tree is Some && author is Some && committer is Some,
            c matches Some(commit) ==> commit@ == (CommitView {
                tree: raw.tree->0@,
                parents: names_view(raw.parents@),
                author: author->0@,
                committer: committer->0@,
                message: content@.subrange(raw.body_at as int, content@.len() as int),
                content: content@,
            }),
    {
        let tree = match raw.tree {
            Some(t) => t,
            None => {
                return None;
            },
        };
        let author = match author {
            Some(p) => p,
            None => {
                return None;
            },
        };
        let committer = match committer {
            Some(p) => p,
            None => {
                return None;
            },
        };
        let message = slice_range(content.as_slice(), raw.body_at, content.len());
        Some(Commit { tree, parent_shas: raw.parents, author, committer, message, content })
    }

    /// Reads the body of a commit object. `None` where the tree, the
    /// author or the committer is missing or cannot be read.
    pub fn from_content(content: Vec<u8>) -> (c: Option<Commit>)
        ensures
            c is Some <==> parsed_commit(content@) is Some,
            c matches Some(commit) ==> Some(commit@) == parsed_commit(content@),
    {
        let raw = scan_headers(content.as_slice());
        let author = match &raw.author {
            Some(line) => parse_author_line(line.as_slice()),
            None => None,
        };
        let committer = match &raw.committer {
            Some(line) => parse_author_line(line.as_slice()),
            None => None,
        };
        Commit::from_parts(content, raw, author, committer)
    }

    /// A commit from its parts and the two stamps as they are to stand in
    /// its body.
    pub fn with_stamps(
        tree: Vec<u8>,
        parent_shas: Vec<Vec<u8>>,
        author: Person,
        author_stamp: &[u8],
        committer: Person,
        committer_stamp: &[u8],
        message: Vec<u8>,
    ) -> (c: Commit)
        ensures
            c@ == (CommitView {
                tree: tree@,
                parents: names_view(parent_shas@),
                author: author@,
                committer: committer@,
                message: message@,
                content: commit_text(
                    tree@,
                    names_view(parent_shas@),
                    person_text(author@.name, author@.email),
                    author_stamp@,
                    person_text(committer@.name, committer@.email),
                    committer_stamp@,
                    message@,
                ),
            }),
    {
        proof {
            reveal_strlit("tree ");
            reveal_strlit("parent ");
            reveal_strlit("author ");
            reveal_strlit("committer ");
            reveal_strlit(" <");
            reveal_strlit(">");
        }
        let mut out = lit("tree ");
        out.extend_from_slice(tree.as_slice());
        out.push(0x0a);
        let ghost head = out@;
        let ghost pv = names_view(parent_shas@);
        let k_parent = lit("parent ");
        let mut i: usize = 0;
        assert(pv.subrange(0, 0) =~= Seq::<Seq<u8>>::empty());
        assert(head + Seq::<u8>::empty() =~= head);
        while i < parent_shas.len()
            invariant
                pv == names_view(parent_shas@),
                i <= pv.len(),
                k_parent@ == text("parent "@),
                out@ == head + parent_lines(pv.subrange(0, i as int)),
            decreases pv.len() - i,
        {
            proof {
                let next = pv.subrange(0, i + 1);
                assert(next.drop_last() =~= pv.subrange(0, i as int));
                assert(next.last() == parent_shas@[i as int]@);
            }
            let ghost before = out@;
            out.extend_from_slice(k_parent.as_slice());
            out.extend_from_slice(parent_shas[i].as_slice());
            out.push(0x0a);
            assert(out@ =~= head + parent_lines(pv.subrange(0, i + 1)));
            i += 1;
        }
        assert(pv.subrange(0, pv.len() as int) =~= pv);
        let k_author = lit("author ");
        push_person_line(&mut out, k_author.as_slice(), &author, author_stamp);
        let k_committer = lit("committer ");
        push_person_line(&mut out, k_committer.as_slice(), &committer, committer_stamp);
        out.push(0x0a);
        out.extend_from_slice(message.as_slice());
        proof {
            let a_line = person_line(
                text("author "@),
                person_text(author@.name, author@.email),
                author_stamp@,
            );
            let c_line = person_line(
                text("committer "@),
                person_text(committer@.name, committer@.email),
                committer_stamp@,
            );
            assert(head =~= text("tree "@) + tree@ + seq![0x0au8]);
            assert(out@ =~= head + parent_lines(pv) + a_line + c_line + seq![0x0au8] + message@);
        }
        Commit { tree, parent_shas, author, committer, message, content: out }
    }

    /// A commit from its parts. The two stamps are written by `chrono`;
    /// `None` where an offset is a day or more, where `chrono` has no text
    /// for one of the two moments, where its text is not the seconds, a
    /// space, and the offset as sign, hours and minutes, and where it does
    /// not read the moment, with the offset in whole minutes, from that
    /// text. A commit whose tree and parents are words, and whose persons
    /// stand in a commit as they are, is read back from its body as it was
    /// made.
    pub fn new(
        tree: Vec<u8>,
        parent_shas: Vec<Vec<u8>>,
        author: Person,
        committer: Person,
        message: Vec<u8>,
    ) -> (c: Option<Commit>)
        ensures
            c is Some <==> stamp_kept(author@.timestamp, author@.offset) && stamp_kept(
                committer@.timestamp,
                committer@.offset,
            ),
            c matches Some(commit) ==> commit@ == (CommitView {
                tree: tree@,
                parents: names_view(parent_shas@),
                author: author@,
                committer: committer@,
                message: message@,
                content: commit_text(
                    tree@,
                    names_view(parent_shas@),
                    person_text(author@.name, author@.email),
                    stamp_text(author@.timestamp, author@.offset),
                    person_text(committer@.name, committer@.email),
                    stamp_text(committer@.timestamp, committer@.offset),
                    message@,
                ),
            }),
            c matches Some(commit) ==> (crate::written::commit_clean(
                tree@,
                names_view(parent_shas@),
                author@,
                committer@,
            ) ==> parsed_commit(commit@.content) == Some(commit@)),
    {
        let a = match kept_stamp(author.timestamp, author.offset) {
            Some(s) => s,
            None => {
                return None;
            },
        };
        let c = match kept_stamp(committer.timestamp, committer.offset) {
            Some(s) => s,
            None => {
                return None;
            },
        };
        proof {
            if crate::written::commit_clean(
                tree@,
                names_view(parent_shas@),
                author@,
                committer@,
            ) {
                crate::written::lemma_commit_reads_back(
                    tree@,
                    names_view(parent_shas@),
                    author@,
                    committer@,
                    message@,
                );
            }
        }
        Some(
            Commit::with_stamps(
                tree,
                parent_shas,
                author,
                a.as_slice(),
                committer,
                c.as_slice(),
                message,
            ),
        )
    }

    /// The body of the commit object.
    pub fn raw_content(&self) -> (out: Vec<u8>)
        ensures
            out@ == self@.content,
    {
        copy_bytes(self.content.as_slice())
    }

    /// The digest of the tree, in hexadecimal.
    pub fn tree(&self) -> (t: &Vec<u8>)
        ensures
            t@ == self@.tree,
    {
        &self.tree
    }

    /// The digests of the parents, in hexadecimal.
    pub fn parent_shas(&self) -> (p: &Vec<Vec<u8>>)
        ensures
            names_view(p@) == self@.parents,
    {
        &self.parent_shas
    }

    pub fn author(&self) -> (p: &Person)
        ensures
            p@ == self@.author,
    {
        &self.author
    }

    pub fn committer(&self) -> (p: &Person)
        ensures
            p@ == self@.committer,
    {
        &self.committer
    }

    pub fn message(&self) -> (m: &Vec<u8>)
        ensures
            m@ == self@.message,
    {
        &self.message
    }

    /// The first line of the message.
    pub fn title(&self) -> (t: Vec<u8>)
        ensures
            t@ == self@.message.subrange(0, index_of(self@.message, 0x0a, 0)),
    {
        let e = find_byte(self.message.as_slice(), 0x0a, 0);
        slice_range(self.message.as_slice(), 0, e)
    }
}

impl Person {
    /// The person as it stands in a commit: `Name <email>`.
    pub fn render(&self) -> (out: Vec<u8>)
        ensures
            out@ == person_text(self@.name, self@.email),
    {
        proof {
            reveal_strlit(" <");
            reveal_strlit(">");
        }
        let mut out = copy_bytes(self.name.as_slice());
        let lt = lit(" <");
        out.extend_from_slice(lt.as_slice());
        out.extend_from_slice(self.email.as_slice());
        let gt = lit(">");
        out.extend_from_slice(gt.as_slice());
        out
    }

    /// A copy of the person.
    pub fn duplicate(&self) -> (p: Person)
        ensures
            p@ == self@,
    {
        Person {
            name: copy_bytes(self.name.as_slice()),
            email: copy_bytes(self.email.as_slice()),
            timestamp: self.timestamp,
            offset: self.offset,
        }
    }
}

} // verus!
