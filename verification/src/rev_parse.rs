//! Ref names and revisions: which names a ref can have, and the grammar
//! `rev := NAME | rev '^' | rev '~' INT`.

use crate::bytes::{
    all_digits, bytes_eq, contains_seq, decimal_value, has_infix, is_digit, last_index_of,
    lemma_last_index_of, lit, matches_at, slice_range, text,
};
use vstd::prelude::*;
use vstd::string::*;

verus! {

/// The bytes that a string holds.
pub open spec fn utf8(s: Seq<char>) -> Seq<u8> {
    vstd::utf8::encode_utf8(s)
}

/// A byte that no ref name can hold: an ASCII control character, a space,
/// or one of `~ ^ : ? * [` and the backslash.
pub open spec fn forbidden_byte(c: u8) -> bool {
    c <= 0x1f || c == 0x7f || c == 0x5c || c == 0x20 || c == 0x7e || c == 0x5e || c == 0x3a || c
        == 0x3f || c == 0x2a || c == 0x5b
}

/// A component, one of the parts between slashes, begins at `i` with a
/// dot.
pub open spec fn dot_component(s: Seq<u8>, i: int) -> bool {
    0 <= i < s.len() && s[i] == 0x2e && (i == 0 || s[i - 1] == 0x2f)
}

/// A component ends at `j` with `.lock`.
pub open spec fn lock_component(s: Seq<u8>, j: int) -> bool {
    5 <= j <= s.len() && (j == s.len() || s[j] == 0x2f) && s.subrange(j - 5, j) == text(".lock"@)
}

/// The rules for ref names. A name is refused where it is empty; is the
/// single character `@`; begins or ends with a slash; ends with a dot;
/// holds a forbidden byte; holds `..`, `@{` or `//`; or has a component
/// that begins with a dot or ends with `.lock`.
pub open spec fn valid_refname(s: Seq<u8>) -> bool {
    &&& s.len() > 0
    &&& s != text("@"@)
    &&& !(s.len() > 0 && s[0] == 0x2f)
    &&& !(s.len() > 0 && s.last() == 0x2f)
    &&& !(s.len() > 0 && s.last() == 0x2e)
    &&& forall|i: int| 0 <= i < s.len() ==> !forbidden_byte(#[trigger] s[i])
    &&& !has_infix(s, text(".."@))
    &&& !has_infix(s, text("@{"@))
    &&& !has_infix(s, text("//"@))
    &&& forall|i: int| !dot_component(s, i)
    &&& forall|j: int| !lock_component(s, j)
}

fn is_forbidden(c: u8) -> (r: bool)
    ensures
        r == forbidden_byte(c),
{
    c <= 0x1f || c == 0x7f || c == 0x5c || c == 0x20 || c == 0x7e || c == 0x5e || c == 0x3a || c
        == 0x3f || c == 0x2a || c == 0x5b
}

/// Whether `s` can be the name of a ref.
pub fn is_valid_refname_bytes(s: &[u8]) -> (r: bool)
    ensures
        r == valid_refname(s@),
{
    proof {
        reveal_strlit("@");
        reveal_strlit("..");
        reveal_strlit("@{");
        reveal_strlit("//");
        reveal_strlit(".lock");
    }
    let len = s.len();
    if len == 0 {
        return false;
    }
    let at = lit("@");
    if bytes_eq(s, at.as_slice()) {
        return false;
    }
    if len > 0 && (s[0] == 0x2f || s[len - 1] == 0x2f || s[len - 1] == 0x2e) {
        return false;
    }
    let mut i: usize = 0;
    while i < len
        invariant
            len == s@.len(),
            i <= len,
            forall|j: int| 0 <= j < i ==> !forbidden_byte(#[trigger] s@[j]),
            forall|j: int| 0 <= j < i ==> !dot_component(s@, j),
        decreases len - i,
    {
        if is_forbidden(s[i]) {
            return false;
        }
        if s[i] == 0x2e && (i == 0 || s[i - 1] == 0x2f) {
            assert(dot_component(s@, i as int));
            return false;
        }
        i += 1;
    }
    let dots = lit("..");
    let brace = lit("@{");
    let slashes = lit("//");
    if contains_seq(s, dots.as_slice()) || contains_seq(s, brace.as_slice()) || contains_seq(
        s,
        slashes.as_slice(),
    ) {
        return false;
    }
    let lock = lit(".lock");
    if len >= 5 {
        let mut j: usize = 5;
        while j < len
            invariant
                len == s@.len(),
                5 <= j <= len,
                lock@ == text(".lock"@),
                lock@.len() == 5,
                forall|t: int| 5 <= t < j ==> !lock_component(s@, t),
            decreases len - j,
        {
            if s[j] == 0x2f && matches_at(s, lock.as_slice(), j - 5) {
                assert(lock_component(s@, j as int));
                return false;
            }
            j += 1;
        }
        if matches_at(s, lock.as_slice(), len - 5) {
            assert(lock_component(s@, len as int));
            return false;
        }
    }
    assert forall|t: int| !lock_component(s@, t) by {}
    assert forall|t: int| !dot_component(s@, t) by {}
    true
}

/// Whether `s` can be the name of a ref.
pub fn is_valid_refname(s: &str) -> (r: bool)
    ensures
        r == valid_refname(utf8(s@)),
{
    is_valid_refname_bytes(s.as_bytes())
}

/// Whether `s` can be the name of a ref, or is `@`, which stands for
/// `HEAD`.
pub fn is_valid_refname_allow_at(s: &[u8]) -> (r: bool)
    ensures
        r == (s@ == text("@"@) || valid_refname(s@)),
{
    proof {
        reveal_strlit("@");
    }
    let at = lit("@");
    if bytes_eq(s, at.as_slice()) {
        true
    } else {
        is_valid_refname_bytes(s)
    }
}

/// A revision: a ref by its name, the first parent of a revision, or the
/// n-th ancestor of a revision along first parents.
#[derive(Debug, PartialEq, Eq)]
pub enum Revision {
    Ref(Vec<u8>),
    Parent(Box<Revision>),
    Ancestor(Box<Revision>, u32),
}

/// A revision as plain values.
pub enum RevView {
    Ref(Seq<u8>),
    Parent(Box<RevView>),
    Ancestor(Box<RevView>, u32),
}

/// A revision as plain values.
pub open spec fn rev_view(r: Revision) -> RevView
    decreases r,
{
    match r {
        Revision::Ref(name) => RevView::Ref(name@),
        Revision::Parent(rev) => RevView::Parent(Box::new(rev_view(*rev))),
        Revision::Ancestor(rev, n) => RevView::Ancestor(Box::new(rev_view(*rev)), n),
    }
}

impl View for Revision {
    type V = RevView;

    open spec fn view(&self) -> RevView {
        rev_view(*self)
    }
}

pub open spec fn opt_rev(o: Option<Revision>) -> Option<RevView> {
    match o {
        Some(r) => Some(r@),
        None => None,
    }
}

/// A number as the grammar has it: one digit or more, and a value that a
/// `u32` holds.
pub open spec fn is_count(s: Seq<u8>) -> bool {
    s.len() > 0 && all_digits(s) && decimal_value(s) <= u32::MAX
}

/// The revision that a text denotes. A text that ends with `^` is the
/// first parent of what stands before; else a text with a number after its
/// last `~` is that ancestor of what stands before the `~`; else the text
/// is a name, where `@` stands for `HEAD`. `None` where a name breaks the
/// rules for ref names.
pub open spec fn parsed_rev(s: Seq<u8>) -> Option<RevView>
    decreases s.len(),
{
    let t = last_index_of(s, 0x7e, s.len() as int);
    if s.len() > 0 && s.last() == 0x5e {
        match parsed_rev(s.drop_last()) {
            Some(r) => Some(RevView::Parent(Box::new(r))),
            None => None,
        }
    } else if 0 <= t < s.len() && is_count(s.subrange(t + 1, s.len() as int)) {
        match parsed_rev(s.subrange(0, t)) {
            Some(r) => Some(
                RevView::Ancestor(
                    Box::new(r),
                    decimal_value(s.subrange(t + 1, s.len() as int)) as u32,
                ),
            ),
            None => None,
        }
    } else if s == text("@"@) {
        Some(RevView::Ref(text("HEAD"@)))
    } else if valid_refname(s) {
        Some(RevView::Ref(s))
    } else {
        None
    }
}

/// The value of a string of digits, where it is a number of the grammar.
pub fn parse_count(s: &[u8]) -> (r: Option<u32>)
    ensures
        r is Some <==> is_count(s@),
        r matches Some(n) ==> n == decimal_value(s@),
{
    if s.len() == 0 {
        return None;
    }
    let mut value: u64 = 0;
    let mut i: usize = 0;
    assert(s@.subrange(0, 0) =~= Seq::<u8>::empty());
    while i < s.len()
        invariant
            i <= s@.len(),
            all_digits(s@.subrange(0, i as int)),
            value == decimal_value(s@.subrange(0, i as int)),
            value <= u32::MAX,
        decreases s@.len() - i,
    {
        let c = s[i];
        let ghost head = s@.subrange(0, i as int);
        let ghost next = s@.subrange(0, i + 1);
        proof {
            assert(next.drop_last() =~= head);
            assert(next.last() == c);
        }
        if c < 0x30 || c > 0x39 {
            proof {
                assert(!is_digit(s@[i as int]));
            }
            return None;
        }
        let grown: u64 = value * 10 + (c - 0x30) as u64;
        if grown > u32::MAX as u64 {
            proof {
                lemma_value_grows(s@, i + 1);
            }
            return None;
        }
        proof {
            assert forall|j: int| 0 <= j < next.len() implies is_digit(#[trigger] next[j]) by {
                if j < i {
                    assert(head[j] == next[j]);
                }
            }
        }
        value = grown;
        i += 1;
    }
    assert(s@.subrange(0, s@.len() as int) =~= s@);
    Some(value as u32)
}

/// A longer string of digits has no smaller value than its beginning.
proof fn lemma_value_grows(s: Seq<u8>, k: int)
    requires
        0 <= k <= s.len(),
    ensures
        all_digits(s) ==> decimal_value(s) >= decimal_value(s.subrange(0, k)),
    decreases s.len() - k,
{
    if all_digits(s) {
        if k == s.len() {
            assert(s.subrange(0, k) =~= s);
        } else {
            let init = s.drop_last();
            assert(all_digits(init)) by {
                assert forall|j: int| 0 <= j < init.len() implies is_digit(#[trigger] init[j]) by {
                    assert(init[j] == s[j]);
                }
            }
            lemma_value_grows(init, k);
            assert(init.subrange(0, k) =~= s.subrange(0, k));
            assert(is_digit(s[s.len() - 1]));
        }
    }
}

/// The revision that the first `end` bytes of `s` denote.
fn parse_upto(s: &[u8], end: usize) -> (r: Option<Revision>)
    requires
        end <= s@.len(),
    ensures
        opt_rev(r) == parsed_rev(s@.subrange(0, end as int)),
    decreases end,
{
    proof {
        reveal_strlit("@");
        reveal_strlit("HEAD");
    }
    let ghost cur = s@.subrange(0, end as int);
    if end > 0 && s[end - 1] == 0x5e {
        assert(cur.last() == s@[end - 1]);
        assert(cur.drop_last() =~= s@.subrange(0, end - 1));
        return match parse_upto(s, end - 1) {
            Some(inner) => Some(Revision::Parent(Box::new(inner))),
            None => None,
        };
    }
    proof {
        if end > 0 {
            assert(cur.last() == s@[end - 1]);
        }
        lemma_last_index_of(cur, 0x7e, end as int);
    }
    // The last `~`, if there is one.
    let mut t: usize = end;
    while t > 0 && s[t - 1] != 0x7e
        invariant
            t <= end <= s@.len(),
            cur == s@.subrange(0, end as int),
            last_index_of(cur, 0x7e, end as int) == last_index_of(cur, 0x7e, t as int),
        decreases t,
    {
        proof {
            assert(cur[t - 1] == s@[t - 1]);
        }
        t -= 1;
    }
    proof {
        if t > 0 {
            assert(cur[t - 1] == s@[t - 1]);
        }
    }
    if t > 0 {
        let tilde: usize = t - 1;
        assert(last_index_of(cur, 0x7e, end as int) == tilde);
        let digits = slice_range(s, t, end);
        assert(digits@ =~= cur.subrange(tilde + 1, end as int));
        match parse_count(digits.as_slice()) {
            Some(n) => {
                assert(cur.subrange(0, tilde as int) =~= s@.subrange(0, tilde as int));
                return match parse_upto(s, tilde) {
                    Some(inner) => Some(Revision::Ancestor(Box::new(inner), n)),
                    None => None,
                };
            },
            None => {},
        }
    } else {
        assert(last_index_of(cur, 0x7e, end as int) == -1);
    }
    let name = slice_range(s, 0, end);
    let at = lit("@");
    if bytes_eq(name.as_slice(), at.as_slice()) {
        Some(Revision::Ref(lit("HEAD")))
    } else if is_valid_refname_bytes(name.as_slice()) {
        Some(Revision::Ref(name))
    } else {
        None
    }
}

/// The revision that a text denotes, by the grammar
/// `rev := NAME | rev '^' | rev '~' INT`.
pub fn parse_rev_bytes(revision: &[u8]) -> (r: Option<Revision>)
    ensures
        opt_rev(r) == parsed_rev(revision@),
{
    assert(revision@.subrange(0, revision@.len() as int) =~= revision@);
    parse_upto(revision, revision.len())
}

/// The revision that a text denotes, by the grammar
/// `rev := NAME | rev '^' | rev '~' INT`.
pub fn parse_rev(revision: &str) -> (r: Option<Revision>)
    ensures
        opt_rev(r) == parsed_rev(utf8(revision@)),
{
    parse_rev_bytes(revision.as_bytes())
}

} // verus!
