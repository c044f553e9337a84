//! A commit that was written, read back: it has the fields with which it
//! was made, where `chrono` reads the two moments as they were written.

use crate::bytes::{decimal, is_digit, lemma_decimal, lemma_index_of_is, text};
use crate::object::commit::{
    author_parts, back_space, commit_text, first_word, is_space, no_headers,
    offset_fits, offset_text, parent_lines, parsed_commit, parsed_person, person_text, scan,
    signed_decimal, skip_space, stamp_read, stamp_text, trimmed, two_digits, with_header,
    CommitView, Headers, PersonView, Scan,
};
use vstd::prelude::*;
use vstd::string::*;

verus! {

/// A text without a newline.
pub open spec fn plain(s: Seq<u8>) -> bool {
    forall|i: int| 0 <= i < s.len() ==> #[trigger] s[i] != 0x0a
}

/// A text without a newline and without a space.
pub open spec fn word(s: Seq<u8>) -> bool {
    forall|i: int| 0 <= i < s.len() ==> #[trigger] s[i] != 0x0a && s[i] != 0x20
}

/// A text that neither begins nor ends with white space.
pub open spec fn edged(s: Seq<u8>) -> bool {
    s.len() > 0 ==> !is_space(s[0]) && !is_space(s.last())
}

/// A person whose name and email stand in a commit as they are: neither
/// holds a newline or has white space around it, the name holds no `<` and
/// the email no `>`; and a moment that can stand in a commit, with an
/// offset of whole minutes.
pub open spec fn person_clean(p: PersonView) -> bool {
    &&& plain(p.name)
    &&& plain(p.email)
    &&& edged(p.name)
    &&& edged(p.email)
    &&& forall|i: int| 0 <= i < p.name.len() ==> #[trigger] p.name[i] != 0x3c
    &&& forall|i: int| 0 <= i < p.email.len() ==> #[trigger] p.email[i] != 0x3e
    &&& offset_fits(p.offset)
    &&& p.offset % 60 == 0
}

/// The tree and the parents of a commit are words, and its persons stand
/// in a commit as they are.
pub open spec fn commit_clean(
    tree: Seq<u8>,
    parents: Seq<Seq<u8>>,
    author: PersonView,
    committer: PersonView,
) -> bool {
    &&& word(tree)
    &&& forall|i: int| 0 <= i < parents.len() ==> word(#[trigger] parents[i])
    &&& person_clean(author)
    &&& person_clean(committer)
}

/// A text without white space around it is what trimming leaves of it,
/// also with a space after it.
proof fn lemma_trim(s: Seq<u8>)
    requires
        edged(s),
    ensures
        trimmed(s) == s,
        trimmed(s.push(0x20)) == s,
{
    let t = s.push(0x20);
    if s.len() == 0 {
        assert(skip_space(s, 0) == 0);
        assert(trimmed(s) =~= s);
        assert(is_space(t[0]));
        assert(skip_space(t, 1) == 1);
        assert(skip_space(t, 0) == 1);
        assert(back_space(t, 1, 1) == 1);
        assert(trimmed(t) =~= s);
    } else {
        assert(skip_space(s, 0) == 0);
        assert(back_space(s, 0, s.len() as int) == s.len());
        assert(trimmed(s) =~= s);
        assert(t[0] == s[0]);
        assert(skip_space(t, 0) == 0);
        assert(t[t.len() - 2] == s.last());
        assert(back_space(t, 0, t.len() - 1) == t.len() - 1);
        assert(back_space(t, 0, t.len() as int) == t.len() - 1);
        assert(trimmed(t) =~= s);
    }
}

/// A text without white space around it is what trimming leaves of it
/// with a space before it.
proof fn lemma_trim_before(s: Seq<u8>)
    requires
        s.len() > 0,
        edged(s),
    ensures
        trimmed(seq![0x20u8] + s) == s,
{
    let t = seq![0x20u8] + s;
    assert(is_space(t[0]));
    assert(t[1] == s[0]);
    assert(skip_space(t, 1) == 1);
    assert(skip_space(t, 0) == 1);
    assert(t[t.len() - 1] == s.last());
    assert(back_space(t, 1, t.len() as int) == t.len());
    assert(trimmed(t) =~= s);
}

/// A moment as it stands in a commit holds no newline, and has no white
/// space around it.
proof fn lemma_stamp(timestamp: int, offset: int)
    requires
        offset_fits(offset),
    ensures
        stamp_text(timestamp, offset).len() > 0,
        plain(stamp_text(timestamp, offset)),
        edged(stamp_text(timestamp, offset)),
{
    let n: nat = if timestamp < 0 {
        (-timestamp) as nat
    } else {
        timestamp as nat
    };
    lemma_decimal(n);
    let d = decimal(n);
    let sd = signed_decimal(timestamp);
    let ot = offset_text(offset);
    let st = stamp_text(timestamp, offset);
    assert forall|i: int| 0 <= i < d.len() implies is_digit(#[trigger] d[i]) by {}
    assert forall|i: int| 0 <= i < sd.len() implies #[trigger] sd[i] != 0x0a && !is_space(sd[i]) by {
        if timestamp < 0 {
            if i > 0 {
                assert(sd[i] == d[i - 1]);
                assert(is_digit(d[i - 1]));
            }
        } else {
            assert(is_digit(d[i]));
        }
    }
    let size = if offset < 0 {
        -offset
    } else {
        offset
    };
    let minutes = (size + 30) / 60;
    assert(0 <= minutes <= 1440);
    assert(0 <= minutes / 60 <= 24);
    assert(0 <= minutes % 60 < 60);
    assert(ot.len() == 5);
    assert forall|i: int| 0 <= i < ot.len() implies #[trigger] ot[i] != 0x0a && !is_space(ot[i]) by {
        let hh = two_digits(minutes / 60);
        let mm = two_digits(minutes % 60);
        if i == 1 {
            assert(ot[1] == hh[0]);
        } else if i == 2 {
            assert(ot[2] == hh[1]);
        } else if i == 3 {
            assert(ot[3] == mm[0]);
        } else if i == 4 {
            assert(ot[4] == mm[1]);
        }
    }
    assert(st.len() == sd.len() + 1 + 5);
    assert(st[0] == sd[0]);
    assert(st.last() == ot[4]);
    assert forall|i: int| 0 <= i < st.len() implies #[trigger] st[i] != 0x0a by {
        if i < sd.len() {
            assert(st[i] == sd[i]);
        } else if i > sd.len() {
            assert(st[i] == ot[i - sd.len() - 1]);
        }
    }
}

/// One header line: where a key, a space, the rest and a newline stand
/// at `pos`, the scan goes on after them with the header of the line.
proof fn lemma_scan_line(b: Seq<u8>, pos: int, h: Headers, key: Seq<u8>, rest: Seq<u8>)
    requires
        0 <= pos,
        pos + key.len() + 1 + rest.len() < b.len(),
        b.subrange(pos, pos + key.len() + 1 + rest.len()) == key + seq![0x20u8] + rest,
        b[pos + key.len() + 1 + rest.len()] == 0x0a,
        word(key),
        plain(rest),
        with_header(h, key, rest) is Some,
    ensures
        scan(b, pos, h) == scan(b, pos + key.len() + rest.len() + 2, with_header(h, key, rest)->0),
{
    let shown = key + seq![0x20u8] + rest;
    let e: int = pos + shown.len();
    assert forall|j: int| pos <= j < e implies b[j] != 0x0a by {
        assert(b.subrange(pos, e)[j - pos] == b[j]);
        assert(b[j] == shown[j - pos]);
        if j - pos < key.len() {
            assert(shown[j - pos] == key[j - pos]);
        } else if j - pos > key.len() {
            assert(shown[j - pos] == rest[j - pos - key.len() - 1]);
        }
    }
    lemma_index_of_is(b, 0x0a, pos, e);
    let line = b.subrange(pos, e);
    assert(line == shown);
    assert forall|j: int| 0 <= j < key.len() implies line[j] != 0x20 by {
        assert(line[j] == key[j]);
    }
    assert(line[key.len() as int] == 0x20);
    lemma_index_of_is(line, 0x20, 0, key.len() as int);
    assert(line.subrange(0, key.len() as int) =~= key);
    assert(line.subrange(key.len() + 1 as int, line.len() as int) =~= rest);
}

/// The line that ends the headers: the message begins after it.
proof fn lemma_scan_end(b: Seq<u8>, pos: int, h: Headers)
    requires
        0 <= pos < b.len(),
        b[pos] == 0x0a,
    ensures
        scan(b, pos, h) == (Scan { headers: h, body_at: pos + 1 }),
{
    lemma_index_of_is(b, 0x0a, pos, pos);
    let line = b.subrange(pos, pos);
    assert(line.len() == 0);
}

/// The headers with more parents.
spec fn with_parents(h: Headers, more: Seq<Seq<u8>>) -> Headers {
    Headers { parents: h.parents + more, ..h }
}

/// The lines of the parents: the scan goes on after them with the parents
/// in their order.
proof fn lemma_scan_parents(
    b: Seq<u8>,
    pre: Seq<u8>,
    parents: Seq<Seq<u8>>,
    post: Seq<u8>,
    h: Headers,
)
    requires
        b == pre + parent_lines(parents) + post,
        forall|i: int| 0 <= i < parents.len() ==> word(#[trigger] parents[i]),
    ensures
        scan(b, pre.len() as int, h) == scan(
            b,
            (pre.len() + parent_lines(parents).len()) as int,
            with_parents(h, parents),
        ),
    decreases parents.len(),
{
    reveal_strlit("parent");
    reveal_strlit("parent ");
    if parents.len() == 0 {
        assert(h.parents + parents =~= h.parents);
    } else {
        let init = parents.drop_last();
        let last = parents.last();
        let key = text("parent"@);
        let line = text("parent "@) + last + seq![0x0au8];
        assert(parent_lines(parents) == parent_lines(init) + text("parent "@) + last + seq![
            0x0au8,
        ]);
        let post2 = line + post;
        assert(b =~= pre + parent_lines(init) + post2);
        assert forall|i: int| 0 <= i < init.len() implies word(#[trigger] init[i]) by {
            assert(init[i] == parents[i]);
        }
        lemma_scan_parents(b, pre, init, post2, h);
        let pos: int = (pre.len() + parent_lines(init).len()) as int;
        let h1 = with_parents(h, init);
        assert(text("parent "@) =~= key + seq![0x20u8]);
        assert(b.subrange(pos, pos + key.len() + 1 + last.len()) =~= key + seq![0x20u8] + last);
        assert(b[pos + key.len() + 1 + last.len()] == 0x0a);
        assert(word(key));
        assert(word(last));
        assert forall|j: int| 0 <= j < last.len() implies last[j] != 0x20 by {
            assert(word(last));
        }
        lemma_index_of_is(last, 0x20, 0, last.len() as int);
        assert(first_word(last) =~= last);
        assert(key != text("tree"@)) by {
            reveal_strlit("tree");
            assert(key.len() != text("tree"@).len());
        }
        lemma_scan_line(b, pos, h1, key, last);
        assert(with_header(h1, key, last)->0.parents =~= h.parents + parents);
        assert(with_header(h1, key, last)->0 == with_parents(h, parents));
        assert(pos + key.len() + last.len() + 2 == pre.len() + parent_lines(parents).len());
    }
}

/// The rest of an `author` or `committer` line that was written for a
/// person is read as that person, where `chrono` reads the moment.
pub proof fn lemma_person_reads_back(p: PersonView)
    requires
        person_clean(p),
        stamp_read(p.timestamp, p.offset),
    ensures
        plain(person_text(p.name, p.email) + seq![0x20u8] + stamp_text(p.timestamp, p.offset)),
        parsed_person(
            person_text(p.name, p.email) + seq![0x20u8] + stamp_text(p.timestamp, p.offset),
        ) == Some(p),
{
    reveal_strlit(" <");
    reveal_strlit(">");
    let stamp = stamp_text(p.timestamp, p.offset);
    lemma_stamp(p.timestamp, p.offset);
    let who = person_text(p.name, p.email);
    let rest = who + seq![0x20u8] + stamp;
    let lt: int = (p.name.len() + 1) as int;
    let gt: int = lt + 1 + p.email.len();
    assert(text(" <"@).len() == 2 && text(">"@).len() == 1);
    assert(rest.len() == gt + 2 + stamp.len());
    assert forall|j: int| 0 <= j < rest.len() implies #[trigger] rest[j] != 0x0a by {
        if j < p.name.len() {
            assert(rest[j] == p.name[j]);
        } else if j < lt + 1 {
        } else if j < gt {
            assert(rest[j] == p.email[j - lt - 1]);
        } else if j < gt + 2 {
        } else {
            assert(rest[j] == stamp[j - gt - 2]);
        }
    }
    assert forall|j: int| 0 <= j < lt implies rest[j] != 0x3c by {
        if j < p.name.len() {
            assert(rest[j] == p.name[j]);
        }
    }
    assert(rest[lt] == 0x3c);
    lemma_index_of_is(rest, 0x3c, 0, lt);
    assert forall|j: int| lt + 1 <= j < gt implies rest[j] != 0x3e by {
        assert(rest[j] == p.email[j - lt - 1]);
    }
    assert(rest[gt] == 0x3e);
    lemma_index_of_is(rest, 0x3e, lt + 1, gt);
    lemma_trim(p.name);
    lemma_trim(p.email);
    lemma_trim_before(stamp);
    assert(rest.subrange(0, lt) =~= p.name.push(0x20));
    assert(rest.subrange(lt + 1, gt) =~= p.email);
    assert(rest.subrange(gt + 1, rest.len() as int) =~= seq![0x20u8] + stamp);
    assert(author_parts(rest) == Some((p.name, p.email, stamp)));
}

/// One header line between what stands before it and what stands after
/// it.
proof fn lemma_scan_step(
    b: Seq<u8>,
    pre: Seq<u8>,
    key: Seq<u8>,
    rest: Seq<u8>,
    post: Seq<u8>,
    h: Headers,
)
    requires
        b == pre + key + seq![0x20u8] + rest + seq![0x0au8] + post,
        word(key),
        plain(rest),
        with_header(h, key, rest) is Some,
    ensures
        scan(b, pre.len() as int, h) == scan(
            b,
            (pre.len() + key.len() + rest.len() + 2) as int,
            with_header(h, key, rest)->0,
        ),
{
    let pos = pre.len() as int;
    let n = (key.len() + 1 + rest.len()) as int;
    assert(b.subrange(pos, pos + n) =~= key + seq![0x20u8] + rest);
    assert(b[pos + n] == 0x0a);
    lemma_scan_line(b, pos, h, key, rest);
}

/// The headers of a commit that was written: the scan finds the tree, the
/// parents and the two lines, and the message after the empty line.
proof fn lemma_scan_commit(
    tree: Seq<u8>,
    parents: Seq<Seq<u8>>,
    ra: Seq<u8>,
    rc: Seq<u8>,
    message: Seq<u8>,
)
    requires
        word(tree),
        forall|i: int| 0 <= i < parents.len() ==> word(#[trigger] parents[i]),
        plain(ra),
        plain(rc),
    ensures
        scan(written_text(tree, parents, ra, rc, message), 0, no_headers()) == (Scan {
            headers: Headers {
                tree: Some(tree),
                parents,
                author: Some(ra),
                committer: Some(rc),
            },
            body_at: written_text(tree, parents, ra, rc, message).len() - message.len(),
        }),
{
    reveal_strlit("tree");
    reveal_strlit("parent");
    reveal_strlit("author");
    reveal_strlit("committer");
    let b = written_text(tree, parents, ra, rc, message);
    let k_tree = text("tree"@);
    let k_author = text("author"@);
    let k_committer = text("committer"@);
    let nl = seq![0x0au8];
    let sp = seq![0x20u8];
    let first = k_tree + sp + tree + nl;
    let lines = parent_lines(parents);
    let a_line = k_author + sp + ra + nl;
    let c_line = k_committer + sp + rc + nl;
    let none = Seq::<u8>::empty();
    let h0 = no_headers();
    assert(k_tree.len() == 4 && k_author.len() == 6 && k_committer.len() == 9);
    assert(text("parent"@).len() == 6);
    assert(k_author[0] != text("parent"@)[0]);
    // The line of the tree.
    assert(b =~= none + k_tree + sp + tree + nl + (lines + a_line + c_line + nl + message));
    assert forall|j: int| 0 <= j < tree.len() implies tree[j] != 0x20 by {
        assert(word(tree));
    }
    lemma_index_of_is(tree, 0x20, 0, tree.len() as int);
    assert(first_word(tree) =~= tree);
    lemma_scan_step(b, none, k_tree, tree, lines + a_line + c_line + nl + message, h0);
    let h1 = Headers { tree: Some(tree), ..h0 };
    assert(with_header(h0, k_tree, tree)->0 == h1);
    // The lines of the parents.
    assert(b =~= first + lines + (a_line + c_line + nl + message));
    lemma_scan_parents(b, first, parents, a_line + c_line + nl + message, h1);
    let h2 = Headers { tree: Some(tree), parents, ..h0 };
    assert(h1.parents + parents =~= parents);
    assert(with_parents(h1, parents) == h2);
    // The line of the author.
    let pre2 = first + lines;
    assert(b =~= pre2 + k_author + sp + ra + nl + (c_line + nl + message));
    lemma_scan_step(b, pre2, k_author, ra, c_line + nl + message, h2);
    let h3 = Headers { author: Some(ra), ..h2 };
    assert(with_header(h2, k_author, ra)->0 == h3);
    // The line of the committer.
    let pre3 = pre2 + a_line;
    assert(b =~= pre3 + k_committer + sp + rc + nl + (nl + message));
    lemma_scan_step(b, pre3, k_committer, rc, nl + message, h3);
    let h4 = Headers { committer: Some(rc), ..h3 };
    assert(with_header(h3, k_committer, rc)->0 == h4);
    // The empty line.
    let p4 = (pre3.len() + c_line.len()) as int;
    assert(b[p4] == 0x0a);
    lemma_scan_end(b, p4, h4);
}

/// The body of a commit with the rest of its `author` and `committer`
/// lines given.
pub open spec fn written_text(
    tree: Seq<u8>,
    parents: Seq<Seq<u8>>,
    ra: Seq<u8>,
    rc: Seq<u8>,
    message: Seq<u8>,
) -> Seq<u8> {
    text("tree"@) + seq![0x20u8] + tree + seq![0x0au8] + parent_lines(parents) + text("author"@)
        + seq![0x20u8] + ra + seq![0x0au8] + text("committer"@) + seq![0x20u8] + rc + seq![
        0x0au8,
    ] + seq![0x0au8] + message
}

/// The body of a commit is that text.
proof fn lemma_written_text(
    tree: Seq<u8>,
    parents: Seq<Seq<u8>>,
    pa: Seq<u8>,
    sa: Seq<u8>,
    pc: Seq<u8>,
    sc: Seq<u8>,
    message: Seq<u8>,
)
    ensures
        commit_text(tree, parents, pa, sa, pc, sc, message) == written_text(
            tree,
            parents,
            pa + seq![0x20u8] + sa,
            pc + seq![0x20u8] + sc,
            message,
        ),
{
    reveal_strlit("tree");
    reveal_strlit("tree ");
    reveal_strlit("author");
    reveal_strlit("author ");
    reveal_strlit("committer");
    reveal_strlit("committer ");
    assert(text("tree "@) =~= text("tree"@) + seq![0x20u8]);
    assert(text("author "@) =~= text("author"@) + seq![0x20u8]);
    assert(text("committer "@) =~= text("committer"@) + seq![0x20u8]);
    assert(commit_text(tree, parents, pa, sa, pc, sc, message) =~= written_text(
        tree,
        parents,
        pa + seq![0x20u8] + sa,
        pc + seq![0x20u8] + sc,
        message,
    ));
}

/// A commit that was written is read back with the fields with which it
/// was made. The tree and the parents are words, the persons stand in the
/// commit as they are, and `chrono` reads the two moments as they were
/// written.
pub proof fn lemma_commit_reads_back(
    tree: Seq<u8>,
    parents: Seq<Seq<u8>>,
    author: PersonView,
    committer: PersonView,
    message: Seq<u8>,
)
    requires
        word(tree),
        forall|i: int| 0 <= i < parents.len() ==> word(#[trigger] parents[i]),
        person_clean(author),
        person_clean(committer),
        stamp_read(author.timestamp, author.offset),
        stamp_read(committer.timestamp, committer.offset),
    ensures
        parsed_commit(
            commit_text(
                tree,
                parents,
                person_text(author.name, author.email),
                stamp_text(author.timestamp, author.offset),
                person_text(committer.name, committer.email),
                stamp_text(committer.timestamp, committer.offset),
                message,
            ),
        ) == Some(
            CommitView {
                tree,
                parents,
                author,
                committer,
                message,
                content: commit_text(
                    tree,
                    parents,
                    person_text(author.name, author.email),
                    stamp_text(author.timestamp, author.offset),
                    person_text(committer.name, committer.email),
                    stamp_text(committer.timestamp, committer.offset),
                    message,
                ),
            },
        ),
{
    let sa = stamp_text(author.timestamp, author.offset);
    let sc = stamp_text(committer.timestamp, committer.offset);
    let pa = person_text(author.name, author.email);
    let pc = person_text(committer.name, committer.email);
    let ra = pa + seq![0x20u8] + sa;
    let rc = pc + seq![0x20u8] + sc;
    lemma_person_reads_back(author);
    lemma_person_reads_back(committer);
    lemma_written_text(tree, parents, pa, sa, pc, sc, message);
    lemma_scan_commit(tree, parents, ra, rc, message);
    let b = written_text(tree, parents, ra, rc, message);
    assert(b.subrange(b.len() - message.len(), b.len() as int) =~= message);
}

} // verus!
