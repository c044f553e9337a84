//! Lines and edits, and what it means for a list of edits to lead from one
//! text to another.

use crate::bytes::copy_bytes;
use crate::diff::lcs::Lines;
use vstd::prelude::*;

verus! {

/// What an edit does: it puts a line in, takes a line out, or keeps one.
#[derive(Clone, Copy, Debug, PartialEq, Eq, Structural)]
pub enum DiffType {
    Ins,
    Del,
    Eql,
}

impl DiffType {
    /// The sign that stands before a line of this kind: `+`, `-` or a
    /// space.
    pub open spec fn spec_sign(self) -> u8 {
        match self {
            DiffType::Ins => 0x2b,
            DiffType::Del => 0x2d,
            DiffType::Eql => 0x20,
        }
    }

    /// The sign that stands before a line of this kind.
    pub fn sign(&self) -> (c: u8)
        ensures
            c == self.spec_sign(),
    {
        match self {
            DiffType::Ins => 0x2b,
            DiffType::Del => 0x2d,
            DiffType::Eql => 0x20,
        }
    }
}

/// A line as plain values: its number, counted from one, and its text
/// without the line ending.
pub struct LineView {
    pub number: int,
    pub text: Seq<u8>,
}

/// An edit as plain values.
pub struct EditView {
    pub kind: DiffType,
    pub a: Option<LineView>,
    pub b: Option<LineView>,
}

/// A numbered line of a text.
#[derive(Debug, Clone)]
pub struct Line {
    number: usize,
    text: Vec<u8>,
}

impl View for Line {
    type V = LineView;

    closed spec fn view(&self) -> LineView {
        LineView { number: self.number as int, text: self.text@ }
    }
}

impl Line {
    pub fn new(number: usize, text: Vec<u8>) -> (l: Line)
        ensures
            l@ == (LineView { number: number as int, text: text@ }),
    {
        Line { number, text }
    }

    /// The number of the line, counted from one.
    pub fn number(&self) -> (n: usize)
        ensures
            n == self@.number,
    {
        self.number
    }

    /// The text of the line.
    pub fn text(&self) -> (t: &Vec<u8>)
        ensures
            t@ == self@.text,
    {
        &self.text
    }

    /// A copy of the line.
    pub fn duplicate(&self) -> (l: Line)
        ensures
            l@ == self@,
    {
        Line { number: self.number, text: copy_bytes(self.text.as_slice()) }
    }
}

impl Default for Line {
    /// Line zero, with no text.
    fn default() -> (l: Line)
        ensures
            l@ == (LineView { number: 0, text: Seq::empty() }),
    {
        Line { number: 0, text: Vec::new() }
    }
}

/// A line that may be missing, as plain values.
pub open spec fn opt_line(o: Option<Line>) -> Option<LineView> {
    match o {
        Some(l) => Some(l@),
        None => None,
    }
}

/// One step of an edit script: a line put in from the second text, a line
/// taken out of the first, or a line that both have.
#[derive(Debug, Clone)]
pub struct Edit {
    kind: DiffType,
    a: Option<Line>,
    b: Option<Line>,
}

impl View for Edit {
    type V = EditView;

    closed spec fn view(&self) -> EditView {
        EditView { kind: self.kind, a: opt_line(self.a), b: opt_line(self.b) }
    }
}

/// The text of an edit as it is shown: the sign of its kind and the text
/// of its line, that of the first text where there is one.
pub open spec fn edit_text(e: EditView) -> Seq<u8> {
    seq![e.kind.spec_sign()] + (match e.a {
        Some(l) => l.text,
        None => match e.b {
            Some(l) => l.text,
            None => Seq::empty(),
        },
    })
}

impl Edit {
    pub fn new(kind: DiffType, a: Option<Line>, b: Option<Line>) -> (e: Edit)
        ensures
            e@ == (EditView { kind, a: opt_line(a), b: opt_line(b) }),
    {
        Edit { kind, a, b }
    }

    pub fn kind(&self) -> (k: DiffType)
        ensures
            k == self@.kind,
    {
        self.kind
    }

    /// The line of the first text, where the edit has one.
    pub fn a(&self) -> (l: Option<&Line>)
        ensures
            l is Some <==> self@.a is Some,
            l matches Some(line) ==> self@.a == Some(line@),
    {
        self.a.as_ref()
    }

    /// The line of the second text, where the edit has one.
    pub fn b(&self) -> (l: Option<&Line>)
        ensures
            l is Some <==> self@.b is Some,
            l matches Some(line) ==> self@.b == Some(line@),
    {
        self.b.as_ref()
    }

    /// A copy of the edit.
    pub fn duplicate(&self) -> (e: Edit)
        ensures
            e@ == self@,
    {
        let a = match &self.a {
            Some(l) => Some(l.duplicate()),
            None => None,
        };
        let b = match &self.b {
            Some(l) => Some(l.duplicate()),
            None => None,
        };
        Edit { kind: self.kind, a, b }
    }

    /// The edit as it is shown: the sign of its kind and the text of its
    /// line.
    pub fn render(&self) -> (out: Vec<u8>)
        ensures
            out@ == edit_text(self@),
    {
        let mut out: Vec<u8> = Vec::new();
        out.push(self.kind.sign());
        match &self.a {
            Some(l) => {
                out.extend_from_slice(l.text.as_slice());
            },
            None => match &self.b {
                Some(l) => {
                    out.extend_from_slice(l.text.as_slice());
                },
                None => {
                    assert(out@ =~= edit_text(self@));
                },
            },
        }
        out
    }
}

/// A list of edits as plain values.
pub open spec fn edits_view(edits: Seq<Edit>) -> Seq<EditView> {
    Seq::new(edits.len(), |i: int| edits[i]@)
}

/// The number of lines of the first text that the first `k` edits pass.
pub open spec fn walk_x(edits: Seq<EditView>, k: int) -> int
    decreases k,
{
    if k <= 0 {
        0
    } else {
        walk_x(edits, k - 1) + (if edits[k - 1].kind != DiffType::Ins {
            1int
        } else {
            0int
        })
    }
}

/// The number of lines of the second text that the first `k` edits pass.
pub open spec fn walk_y(edits: Seq<EditView>, k: int) -> int
    decreases k,
{
    if k <= 0 {
        0
    } else {
        walk_y(edits, k - 1) + (if edits[k - 1].kind != DiffType::Del {
            1int
        } else {
            0int
        })
    }
}

/// Line `i` of a text, numbered from one.
pub open spec fn line_of(lines: Lines, i: int) -> LineView {
    LineView { number: i + 1, text: lines[i] }
}

/// The edit fits at the position where `x` lines of `a` and `y` lines of
/// `b` have been passed: an insertion holds the next line of `b`, a
/// deletion the next line of `a`, an equality the next line of both, which
/// are the same.
pub open spec fn edit_ok(e: EditView, a: Lines, b: Lines, x: int, y: int) -> bool {
    match e.kind {
        DiffType::Ins => 0 <= y < b.len() && e.a is None && e.b == Some(line_of(b, y)),
        DiffType::Del => 0 <= x < a.len() && e.b is None && e.a == Some(line_of(a, x)),
        DiffType::Eql => 0 <= x < a.len() && 0 <= y < b.len() && a[x] == b[y] && e.a == Some(
            line_of(a, x),
        ) && e.b == Some(line_of(b, y)),
    }
}

/// The edits lead from `a` to `b`: each fits where the ones before it have
/// led, and together they pass every line of both.
pub open spec fn is_script(edits: Seq<EditView>, a: Lines, b: Lines) -> bool {
    &&& forall|k: int|
        0 <= k < edits.len() ==> edit_ok(
            #[trigger] edits[k],
            a,
            b,
            walk_x(edits, k),
            walk_y(edits, k),
        )
    &&& walk_x(edits, edits.len() as int) == a.len()
    &&& walk_y(edits, edits.len() as int) == b.len()
}

/// The number of insertions and deletions among the edits.
pub open spec fn changes(edits: Seq<EditView>) -> int
    decreases edits.len(),
{
    if edits.len() == 0 {
        0
    } else {
        changes(edits.drop_last()) + (if edits.last().kind != DiffType::Eql {
            1int
        } else {
            0int
        })
    }
}

/// Every edit passes a line, so a list of edits is no longer than the
/// number of lines that it passes.
pub proof fn lemma_walk_len(edits: Seq<EditView>, k: int)
    requires
        0 <= k <= edits.len(),
    ensures
        k <= walk_x(edits, k) + walk_y(edits, k),
        0 <= walk_x(edits, k),
        0 <= walk_y(edits, k),
    decreases k,
{
    if k > 0 {
        lemma_walk_len(edits, k - 1);
    }
}

} // verus!
