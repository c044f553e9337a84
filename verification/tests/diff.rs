use pidgit::diff::edit::{DiffType, Edit, Line};
use pidgit::diff::myers::{split_lines, Myers};
use pidgit::diff::{diff_hunks, DiffHunk, Side};
use pidgit::rev_parse::Revision::{Ancestor, Parent, Ref};
use pidgit::rev_parse::{is_valid_refname, parse_rev};
use pidgit::wrapping_vec::{modulo, WrappingVec};

fn letters(s: &str) -> String {
    s.split("").skip(1).collect::<Vec<_>>().join("\n")
}

fn show(edits: &[Edit]) -> Vec<String> {
    edits
        .iter()
        .map(|e| String::from_utf8(e.render()).unwrap())
        .collect()
}

fn changes(edits: &[Edit]) -> usize {
    edits.iter().filter(|e| e.kind() != DiffType::Eql).count()
}

// The longest common subsequence, the slow way.
fn lcs(a: &[Vec<u8>], b: &[Vec<u8>]) -> usize {
    let mut table = vec![vec![0usize; b.len() + 1]; a.len() + 1];
    for i in 1..=a.len() {
        for j in 1..=b.len() {
            table[i][j] = if a[i - 1] == b[j - 1] {
                table[i - 1][j - 1] + 1
            } else {
                table[i - 1][j].max(table[i][j - 1])
            };
        }
    }
    table[a.len()][b.len()]
}

// Applies the edits: what they take from both sides has to be all of both
// sides, in order.
fn check_script(edits: &[Edit], a: &[Vec<u8>], b: &[Vec<u8>]) {
    let mut x = 0;
    let mut y = 0;
    for e in edits {
        match e.kind() {
            DiffType::Ins => {
                assert!(e.a().is_none());
                let line = e.b().unwrap();
                assert_eq!(line.number(), y + 1);
                assert_eq!(line.text(), &b[y]);
                y += 1;
            },
            DiffType::Del => {
                assert!(e.b().is_none());
                let line = e.a().unwrap();
                assert_eq!(line.number(), x + 1);
                assert_eq!(line.text(), &a[x]);
                x += 1;
            },
            DiffType::Eql => {
                assert_eq!(e.a().unwrap().number(), x + 1);
                assert_eq!(e.b().unwrap().number(), y + 1);
                assert_eq!(e.a().unwrap().text(), &a[x]);
                assert_eq!(e.b().unwrap().text(), &b[y]);
                assert_eq!(a[x], b[y]);
                x += 1;
                y += 1;
            },
        }
    }
    assert_eq!(x, a.len());
    assert_eq!(y, b.len());
}

#[test]
fn basic() {
    let a = letters("ABCABBA");
    let b = letters("CBABAC");

    let m = Myers::new(a, b);
    let diff = m.diff();
    for line in show(&diff) {
        println!("{}", line);
    }
    assert_eq!(
        show(&diff),
        vec!["-A", "-B", " C", "+B", " A", " B", "-B", " A", "+C"]
    );
}

#[test]
fn myers_is_shortest() {
    let cases = [
        ("ABCABBA", "CBABAC"),
        ("", ""),
        ("", "XYZ"),
        ("XYZ", ""),
        ("SAME", "SAME"),
        ("ABCD", "WXYZ"),
        ("AGGTAB", "GXTXAYB"),
        ("AAAA", "AA"),
        ("XMJYAUZ", "MZJAWXU"),
    ];
    for (a, b) in cases.iter() {
        let al = split_lines(letters(a).as_bytes());
        let bl = split_lines(letters(b).as_bytes());
        assert_eq!(al.len(), a.len());
        let m = Myers::from_lines(al.clone(), bl.clone());
        assert!(m.is_small());
        let diff = m.diff();
        check_script(&diff, &al, &bl);
        assert_eq!(
            changes(&diff),
            al.len() + bl.len() - 2 * lcs(&al, &bl),
            "{} against {}",
            a,
            b
        );
    }
}

#[test]
fn lines_of_a_text() {
    let lines = |s: &str| -> Vec<String> {
        split_lines(s.as_bytes())
            .into_iter()
            .map(|l| String::from_utf8(l).unwrap())
            .collect()
    };
    assert_eq!(lines(""), Vec::<String>::new());
    assert_eq!(lines("one"), vec!["one"]);
    assert_eq!(lines("one\n"), vec!["one"]);
    assert_eq!(lines("one\ntwo"), vec!["one", "two"]);
    assert_eq!(lines("one\r\ntwo\r\n"), vec!["one", "two"]);
    assert_eq!(lines("\n\none"), vec!["", "", "one"]);
    assert_eq!(lines("one\r"), vec!["one\r"]);
    assert_eq!(lines("a\r\r\nb"), vec!["a\r", "b"]);
    let std: Vec<String> = "x\r\n\ny\rz\nw".lines().map(|l| l.to_string()).collect();
    assert_eq!(lines("x\r\n\ny\rz\nw"), std);
}

fn numbered(n: usize, change: &[usize]) -> (String, String) {
    let a: Vec<String> = (1..=n).map(|i| format!("line {}", i)).collect();
    let b: Vec<String> = (1..=n)
        .map(|i| {
            if change.contains(&i) {
                format!("changed {}", i)
            } else {
                format!("line {}", i)
            }
        })
        .collect();
    (a.join("\n") + "\n", b.join("\n") + "\n")
}

#[test]
fn one_hunk_with_context() {
    let (a, b) = numbered(20, &[10]);
    let hunks = diff_hunks(a, b);
    assert_eq!(hunks.len(), 1);
    let hunk = &hunks[0];
    assert_eq!(
        show(hunk.edits()),
        vec![
            " line 7",
            " line 8",
            " line 9",
            "-line 10",
            "+changed 10",
            " line 11",
            " line 12",
            " line 13"
        ]
    );
    assert_eq!(hunk.header(), b"@@ -7,7 +7,7 @@".to_vec());
    assert_eq!(hunk.a_start(), 6);
    assert_eq!(hunk.b_start(), 6);
    assert_eq!(hunk.offsets_for(Side::A, 99), (7, 7));
}

#[test]
fn hunks_at_the_ends() {
    let (a, b) = numbered(10, &[1, 10]);
    let hunks = diff_hunks(a, b);
    assert_eq!(hunks.len(), 2);
    assert_eq!(hunks[0].header(), b"@@ -1,4 +1,4 @@".to_vec());
    assert_eq!(hunks[1].header(), b"@@ -7,4 +7,4 @@".to_vec());
    assert_eq!(hunks[0].a_start(), 0);
}

#[test]
fn hunk_locality() {
    // Six equal lines between two changes: one hunk. Seven: two hunks.
    let (a, b) = numbered(30, &[10, 17]);
    let hunks = diff_hunks(a, b);
    assert_eq!(hunks.len(), 1);
    assert_eq!(hunks[0].header(), b"@@ -7,14 +7,14 @@".to_vec());

    let (a, b) = numbered(30, &[10, 18]);
    let hunks = diff_hunks(a, b);
    assert_eq!(hunks.len(), 2);
    assert_eq!(hunks[0].header(), b"@@ -7,7 +7,7 @@".to_vec());
    assert_eq!(hunks[1].header(), b"@@ -15,7 +15,7 @@".to_vec());

    // Every equal line of a hunk has a change within three lines.
    for hunk in &hunks {
        let edits = hunk.edits();
        for (i, e) in edits.iter().enumerate() {
            if e.kind() == DiffType::Eql {
                let lo = i.saturating_sub(3);
                let hi = (i + 4).min(edits.len());
                assert!(edits[lo..hi].iter().any(|n| n.kind() != DiffType::Eql));
            }
        }
    }
}

#[test]
fn no_change_no_hunk() {
    let hunks = diff_hunks("same\ntext\n".to_string(), "same\ntext\n".to_string());
    assert!(hunks.is_empty());
    assert!(DiffHunk::filter(vec![]).is_empty());
}

#[test]
fn a_hunk_of_insertions_only() {
    let hunks = diff_hunks("".to_string(), "new\nlines\n".to_string());
    assert_eq!(hunks.len(), 1);
    // No line of the first text: its start is the base of the hunk.
    assert_eq!(hunks[0].header(), b"@@ -0,0 +1,2 @@".to_vec());
    assert_eq!(show(hunks[0].edits()), vec!["+new", "+lines"]);
}

#[test]
fn filter_takes_any_edits() {
    // An equality without its lines counts as line zero.
    let edits = vec![
        Edit::new(DiffType::Eql, None, None),
        Edit::new(DiffType::Eql, None, None),
        Edit::new(DiffType::Eql, None, None),
        Edit::new(DiffType::Eql, None, None),
        Edit::new(DiffType::Del, Some(Line::new(5, b"gone".to_vec())), None),
    ];
    let hunks = DiffHunk::filter(edits);
    assert_eq!(hunks.len(), 1);
    assert_eq!(hunks[0].edits().len(), 4);
    assert_eq!(hunks[0].header(), b"@@ -5,1 +0,0 @@".to_vec());
}

#[test]
fn wrapping() {
    assert_eq!(modulo(0, 5), 0);
    assert_eq!(modulo(7, 5), 2);
    assert_eq!(modulo(-1, 5), 4);
    assert_eq!(modulo(-5, 5), 0);
    assert_eq!(modulo(-6, 5), 4);
    assert_eq!(modulo(isize::MIN, 7), (isize::MIN).rem_euclid(7) as usize);

    let mut v: WrappingVec<isize> = WrappingVec::new(3);
    assert_eq!(v.len(), 3);
    assert_eq!(v.get(0), Some(&0));
    assert_eq!(v.get(3), None);
    v.set(-1, 9);
    assert_eq!(*v.at(2), 9);
    assert_eq!(*v.at(5), 9);
    assert_eq!(*v.at(-4), 9);
    assert_eq!(v.take(2), Some(9));
    assert_eq!(v.get(2), Some(&0));
    assert_eq!(v.take(3), None);
    assert_eq!(v.duplicate().get(1), Some(&0));

    let w = WrappingVec::from_vec(vec![b"a".to_vec(), b"b".to_vec()]);
    assert_eq!(w.at(-1), &b"b".to_vec());
}

#[test]
fn refnames() {
    let bad = &[
        "@",
        "foo..bar",
        "../bar",
        "control\x07char",
        "poo\x7fp",
        "cool branch",
        "cool^branch",
        "cool:branch",
        "cool~branch",
        "cool?branch",
        "cool*branch",
        "cool[branch]",
        ".hidden",
        "nested/.hidden",
        "branch.lock",
        "nested/branch.lock",
        "branch.lock/other",
        "bad.",
        "some@{branch}",
        "back\\slashed",
        "/absolute",
        "dir/",
    ];

    let good = &[
        "branch",
        "branch/withslash",
        "lots-o-dashes",
        "under_scores",
        "dots.i.guess",
        "bananas-üçå",
    ];

    for name in bad {
        assert!(!is_valid_refname(name), "name is bad: {:?}", name);
    }

    for name in good {
        assert!(is_valid_refname(name), "name is ok: {:?}", name);
    }
}

#[test]
fn more_refnames() {
    for name in &["", "a//b", "x.lockx/y.lock", "tab\there", "new\nline", "nul\0"] {
        assert!(!is_valid_refname(name), "name is bad: {:?}", name);
    }
    for name in &["a@b", "@@", "lock", "x.locks", "a.lock.b", "a/b.c/d", "{@", "日本"] {
        assert!(is_valid_refname(name), "name is ok: {:?}", name);
    }
}

#[test]
fn parse() {
    assert_eq!(
        parse_rev("master^"),
        Some(Parent(Box::new(Ref(b"master".to_vec()))))
    );

    assert_eq!(parse_rev("@^"), Some(Parent(Box::new(Ref(b"HEAD".to_vec())))));

    assert_eq!(
        parse_rev("HEAD~42"),
        Some(Ancestor(Box::new(Ref(b"HEAD".to_vec())), 42))
    );

    assert_eq!(
        parse_rev("master^^"),
        Some(Parent(Box::new(Parent(Box::new(Ref(b"master".to_vec()))))))
    );

    assert_eq!(
        parse_rev("abc123~3^"),
        Some(Parent(Box::new(Ancestor(
            Box::new(Ref(b"abc123".to_vec())),
            3
        ))))
    );

    assert_eq!(parse_rev("/../foo^"), None);
    assert_eq!(parse_rev("apple:pie~3"), None);
    assert_eq!(parse_rev("foo~banana"), None);
}

#[test]
fn parse_more() {
    assert_eq!(parse_rev("@"), Some(Ref(b"HEAD".to_vec())));
    assert_eq!(parse_rev("topic/x"), Some(Ref(b"topic/x".to_vec())));
    // Every `~` with a number is a step.
    assert_eq!(
        parse_rev("a~1~2"),
        Some(Ancestor(
            Box::new(Ancestor(Box::new(Ref(b"a".to_vec())), 1)),
            2
        ))
    );
    assert_eq!(
        parse_rev("a^~0"),
        Some(Ancestor(Box::new(Parent(Box::new(Ref(b"a".to_vec())))), 0))
    );
    assert_eq!(
        parse_rev("a~4294967295"),
        Some(Ancestor(Box::new(Ref(b"a".to_vec())), 4294967295))
    );
    assert_eq!(parse_rev("a~4294967296"), None);
    assert_eq!(parse_rev("a~"), None);
    assert_eq!(parse_rev("a~+1"), None);
    assert_eq!(parse_rev("a b"), None);
}

#[test]
fn the_empty_name_is_no_ref() {
    assert!(!is_valid_refname(""));
    assert_eq!(parse_rev(""), None);
    assert_eq!(parse_rev("^"), None);
    assert_eq!(parse_rev("~1"), None);
    assert_eq!(parse_rev("^^"), None);
    // One character is enough, but for the one that stands for `HEAD`.
    assert!(is_valid_refname("a"));
    assert!(!is_valid_refname("@"));
    assert_eq!(parse_rev("a"), Some(Ref(b"a".to_vec())));
}
