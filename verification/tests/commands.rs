use pidgit::cmd::patch::{
    index_targets, print_diff, print_diff_mode, workspace_targets, DiffTarget,
};
use pidgit::cmd::show::{
    cat_file, check_ref_format, commit_line, dump_tree, log, normalize, print_full, rev_parse,
    Show,
};
use pidgit::cmd::{hash_object, LineStyle, OutLine};
use pidgit::errors::{IndexFault, PidgitError};
use pidgit::files::FileTree;
use pidgit::workspace::Workspace;
use pidgit::index::meta::FileStat;
use pidgit::object::commit::Person;
use pidgit::repo::Repository;

struct Sandbox {
    repo: Repository,
    clock: i64,
}

fn sandbox() -> Sandbox {
    let repo = Repository::create_empty(b"/work".to_vec()).expect("could not init test repo");
    Sandbox { repo, clock: 1_600_000_000 }
}

impl Sandbox {
    fn write(&mut self, path: &str, content: &str, mode: u32) {
        self.clock += 1;
        let stat = FileStat {
            ctime: self.clock,
            ctime_nsec: 0,
            mtime: self.clock,
            mtime_nsec: 0,
            dev: 1,
            ino: 7,
            mode,
            uid: 1000,
            gid: 1000,
            size: content.len() as u64,
            is_dir: false,
            is_file: true,
        };
        self.repo
            .put_work_file(path.as_bytes(), stat, content.as_bytes().to_vec());
    }

    fn commit(&mut self, message: &str) -> String {
        self.repo.add(b".").expect("bad add");
        self.clock += 1;
        let who = Person {
            name: b"Pidgit".to_vec(),
            email: b"pidgit@example.com".to_vec(),
            timestamp: self.clock,
            offset: 3600,
        };
        let commit = self
            .repo
            .commit(message.as_bytes(), who.clone(), who)
            .expect("could not commit");
        String::from_utf8(commit_line(&commit)).unwrap()
    }
}

fn texts(lines: &[OutLine]) -> Vec<String> {
    lines
        .iter()
        .map(|l| String::from_utf8(l.text.clone()).unwrap())
        .collect()
}

fn short_hash(content: &str) -> String {
    String::from_utf8(hash_object(content.as_bytes())).unwrap()[0..8].to_string()
}

#[test]
fn diff_of_a_modified_file() {
    let mut sb = sandbox();
    sb.write("file.txt", "one\ntwo\nthree\n", 0o100644);
    sb.commit("first");
    sb.write("file.txt", "one\n2\nthree\n", 0o100644);

    let status = sb.repo.status().unwrap();
    let pairs = workspace_targets(&sb.repo, &status).unwrap();
    assert_eq!(pairs.len(), 1);
    assert_eq!(pairs[0].a.path, b"file.txt".to_vec());
    assert_eq!(pairs[0].a.mode, 0o100644);
    assert_eq!(pairs[0].b.content, b"one\n2\nthree\n".to_vec());

    let lines = print_diff(&pairs[0].a, &pairs[0].b).unwrap();
    let index_line = format!(
        "index {}..{} 100644",
        short_hash("one\ntwo\nthree\n"),
        short_hash("one\n2\nthree\n")
    );
    assert_eq!(
        texts(&lines),
        vec![
            "diff --git a/file.txt b/file.txt",
            index_line.as_str(),
            "--- a/file.txt",
            "+++ b/file.txt",
            "@@ -1,3 +1,3 @@",
            " one",
            "-two",
            "+2",
            " three",
        ]
    );
    assert_eq!(lines[0].style, LineStyle::Bold);
    assert_eq!(lines[4].style, LineStyle::Cyan);
    assert_eq!(lines[5].style, LineStyle::Plain);
}

#[test]
fn diff_of_a_deleted_file() {
    let mut sb = sandbox();
    sb.write("gone.txt", "hello\n", 0o100644);
    sb.commit("first");
    sb.repo.remove_work_file(b"gone.txt");

    let status = sb.repo.status().unwrap();
    let pairs = workspace_targets(&sb.repo, &status).unwrap();
    assert_eq!(pairs.len(), 1);
    assert!(pairs[0].b.is_null());
    let lines = print_diff(&pairs[0].a, &pairs[0].b).unwrap();
    let index_line = format!("index {}..00000000", short_hash("hello\n"));
    assert_eq!(
        texts(&lines),
        vec![
            "diff --git a/gone.txt b/gone.txt",
            "deleted file mode 100644",
            index_line.as_str(),
            "--- a/gone.txt",
            "+++ /dev/null",
            "@@ -1,1 +0,0 @@",
            "-hello",
        ]
    );
}

#[test]
fn diff_of_a_staged_file() {
    let mut sb = sandbox();
    sb.write("old.txt", "kept\n", 0o100644);
    sb.commit("first");
    sb.write("new.txt", "fresh\n", 0o100755);
    sb.write("old.txt", "kept\nmore\n", 0o100644);
    sb.repo.add(b".").unwrap();

    let status = sb.repo.status().unwrap();
    assert!(workspace_targets(&sb.repo, &status).unwrap().is_empty());
    let pairs = index_targets(&sb.repo, &status).unwrap();
    assert_eq!(pairs.len(), 2);

    assert!(pairs[0].a.is_null());
    let lines = print_diff(&pairs[0].a, &pairs[0].b).unwrap();
    let index_line = format!("index 00000000..{}", short_hash("fresh\n"));
    assert_eq!(
        texts(&lines),
        vec![
            "diff --git a/new.txt b/new.txt",
            "new file mode 100755",
            index_line.as_str(),
            "--- /dev/null",
            "+++ b/new.txt",
            "@@ -0,0 +1,1 @@",
            "+fresh",
        ]
    );

    let lines = print_diff(&pairs[1].a, &pairs[1].b).unwrap();
    assert_eq!(lines.len(), 7);
    assert_eq!(texts(&lines)[4], "@@ -1,1 +1,2 @@");
    assert_eq!(texts(&lines)[6], "+more");
}

#[test]
fn diff_of_a_mode_change() {
    let a = DiffTarget {
        path: b"run.sh".to_vec(),
        sha: hash_object(b"echo\n"),
        mode: 0o100644,
        content: b"echo\n".to_vec(),
    };
    let b = DiffTarget {
        path: b"run.sh".to_vec(),
        sha: hash_object(b"echo\n"),
        mode: 0o100755,
        content: b"echo\n".to_vec(),
    };
    let lines = print_diff(&a, &b).unwrap();
    assert_eq!(
        texts(&lines),
        vec!["diff --git a/run.sh b/run.sh", "old mode 100644", "new mode 100755"]
    );
    assert_eq!(texts(&print_diff_mode(&a, &a)), Vec::<String>::new());
    assert!(print_diff(&a, &a).unwrap().is_empty());
}

#[test]
fn targets_and_their_paths() {
    let null = DiffTarget::null(b"dir/file");
    assert!(null.is_null());
    assert_eq!(null.mode, 0);
    assert_eq!(null.sha, vec![b'0'; 40]);
    assert_eq!(null.short_sha(), b"00000000".to_vec());
    assert_eq!(null.with_prefix(b"a"), b"a/dir/file".to_vec());
    assert_eq!(null.diff_path(b"a"), b"/dev/null".to_vec());

    let some = DiffTarget { path: b"x".to_vec(), sha: b"abc".to_vec(), mode: 0o100644, content: vec![] };
    assert!(!some.is_null());
    assert_eq!(some.diff_path(b"b"), b"b/x".to_vec());
    assert_eq!(some.short_sha(), b"abc".to_vec());
}

#[test]
fn a_side_that_cannot_be_read() {
    let mut sb = sandbox();
    sb.write("file.txt", "one\n", 0o100644);
    sb.commit("first");
    sb.write("file.txt", "two\n", 0o100644);
    let status = sb.repo.status().unwrap();

    // Take the blob of the index entry out of the store.
    let hex = String::from_utf8(hash_object(b"one\n")).unwrap();
    let path = format!("objects/{}/{}", &hex[0..2], &hex[2..]);
    assert!(sb.repo.remove_git_file(path.as_bytes()));
    match workspace_targets(&sb.repo, &status) {
        Err(PidgitError::ObjectNotFound(p)) => assert_eq!(p, b"file.txt".to_vec()),
        other => panic!("unexpected: {:?}", other),
    }
}

#[test]
fn status_in_the_long_format() {
    let mut sb = sandbox();
    sb.write("a.txt", "a\n", 0o100644);
    sb.write("b.txt", "b\n", 0o100644);
    sb.commit("first");

    let status = sb.repo.status().unwrap();
    assert_eq!(
        texts(&print_full(&status)),
        vec!["nothing to commit, working tree clean"]
    );

    sb.write("a.txt", "changed\n", 0o100644);
    sb.repo.remove_work_file(b"b.txt");
    sb.write("c.txt", "c\n", 0o100644);
    let status = sb.repo.status().unwrap();
    let lines = print_full(&status);
    assert_eq!(
        texts(&lines),
        vec![
            "Changes not staged for commit:",
            "\tmodified:   a.txt",
            "\tdeleted:    b.txt",
            "",
            "Untracked files:",
            "\tc.txt",
            "",
            "no changes added to commit",
        ]
    );
    assert_eq!(lines[0].style, LineStyle::Plain);
    assert_eq!(lines[1].style, LineStyle::Red);

    sb.repo.add(b".").unwrap();
    let status = sb.repo.status().unwrap();
    let lines = print_full(&status);
    assert_eq!(
        texts(&lines),
        vec![
            "Changes to be committed:",
            "\tmodified:   a.txt",
            "\tnew file:   c.txt",
            "",
            "Changes not staged for commit:",
            "\tdeleted:    b.txt",
            "",
        ]
    );
    assert_eq!(lines[1].style, LineStyle::Green);
}

#[test]
fn log_of_two_commits() {
    let mut sb = sandbox();
    sb.write("a.txt", "a\n", 0o100644);
    let first = sb.commit("first commit\n\nwith a body");
    sb.write("a.txt", "b\n", 0o100644);
    let second = sb.commit("second commit");

    // "[12345678] title"
    assert!(first.starts_with('['));
    assert_eq!(&first[9..], "] first commit");
    let first_id = &first[1..9];
    let second_id = &second[1..9];
    assert_ne!(first_id, second_id);

    let out = String::from_utf8(log(&sb.repo, b"HEAD", 100).unwrap()).unwrap();
    assert_eq!(
        out,
        format!("{} second commit\n{} first commit\n", second_id, first_id)
    );
    let out = String::from_utf8(log(&sb.repo, b"HEAD", 1).unwrap()).unwrap();
    assert_eq!(out, format!("{} second commit\n", second_id));
    assert_eq!(log(&sb.repo, b"HEAD", 0).unwrap(), Vec::<u8>::new());

    let head = String::from_utf8(rev_parse(&sb.repo, b"HEAD").unwrap()).unwrap();
    assert_eq!(head.len(), 40);
    assert_eq!(&head[0..8], second_id);
    assert_eq!(rev_parse(&sb.repo, b"@").unwrap(), head.as_bytes().to_vec());
    assert_eq!(rev_parse(&sb.repo, b"main").unwrap(), head.as_bytes().to_vec());
    assert_eq!(rev_parse(&sb.repo, first_id.as_bytes()).unwrap()[0..8].to_vec(), first_id.as_bytes().to_vec());
    assert!(rev_parse(&sb.repo, b"nothing").is_err());
    assert!(log(&sb.repo, b"nothing", 10).is_err());

    // A blob is no commit.
    let blob = hash_object(b"b\n");
    match log(&sb.repo, &blob, 10) {
        Err(PidgitError::Generic(m)) => {
            let m = String::from_utf8(m).unwrap();
            assert_eq!(m, format!("ref {} is not a commit!", String::from_utf8(blob).unwrap()));
        },
        other => panic!("unexpected: {:?}", other),
    }
}

#[test]
fn objects_as_cat_file_shows_them() {
    let mut sb = sandbox();
    sb.write("dir/a.txt", "content of a\n", 0o100644);
    sb.write("run.sh", "echo\n", 0o100755);
    sb.commit("first");

    assert_eq!(cat_file(&sb.repo, b"HEAD", Show::Kind).unwrap(), b"commit\n".to_vec());
    let blob = hash_object(b"content of a\n");
    assert_eq!(cat_file(&sb.repo, &blob, Show::Kind).unwrap(), b"blob\n".to_vec());
    assert_eq!(cat_file(&sb.repo, &blob, Show::Size).unwrap(), b"13\n".to_vec());
    assert_eq!(cat_file(&sb.repo, &blob, Show::Summary).unwrap(), b"blob 13\n".to_vec());
    assert_eq!(cat_file(&sb.repo, &blob, Show::Pretty).unwrap(), b"content of a\n".to_vec());
    assert_eq!(cat_file(&sb.repo, &blob[0..6], Show::Kind).unwrap(), b"blob\n".to_vec());
    assert!(cat_file(&sb.repo, b"abc", Show::Kind).is_err());

    let commit = String::from_utf8(cat_file(&sb.repo, b"HEAD", Show::Pretty).unwrap()).unwrap();
    assert!(commit.starts_with("tree "));
    assert!(commit.contains("\nauthor Pidgit <pidgit@example.com> "));
    assert!(commit.contains(" +0100\n"));
    assert!(commit.ends_with("\n\nfirst\n"));
    let tree = &commit[5..45];
    assert_eq!(cat_file(&sb.repo, tree.as_bytes(), Show::Kind).unwrap(), b"tree\n".to_vec());
    let shown = String::from_utf8(cat_file(&sb.repo, tree.as_bytes(), Show::Pretty).unwrap()).unwrap();
    let lines: Vec<&str> = shown.lines().collect();
    assert_eq!(lines.len(), 2);
    assert!(lines[0].starts_with("040000 tree "));
    assert!(lines[0].ends_with("dir"));
    assert_eq!(
        lines[1],
        format!("100755 blob {}    run.sh", String::from_utf8(hash_object(b"echo\n")).unwrap())
    );
}

#[test]
fn branches() {
    let mut sb = sandbox();
    sb.write("a.txt", "a\n", 0o100644);
    sb.commit("first");
    let head = rev_parse(&sb.repo, b"HEAD").unwrap();

    sb.repo.branch(b"topic", b"HEAD").unwrap();
    let mut want = head.clone();
    want.push(b'\n');
    assert_eq!(sb.repo.files().read(b"refs/heads/topic"), Some(&want));
    assert_eq!(rev_parse(&sb.repo, b"topic").unwrap(), head);

    // The branch is there already.
    assert!(sb.repo.branch(b"topic", b"HEAD").is_err());
    // No such start.
    assert!(sb.repo.branch(b"other", b"nothing").is_err());
    assert!(sb.repo.files().read(b"refs/heads/other").is_none());
    // No valid name.
    match sb.repo.branch(b"bad..name", b"HEAD") {
        Err(PidgitError::InvalidRefName(n)) => assert_eq!(n, b"bad..name".to_vec()),
        other => panic!("unexpected: {:?}", other),
    }
    // A locked ref.
    sb.repo.create_file(b"refs/heads/held.lock", vec![]);
    match sb.repo.branch(b"held", b"HEAD") {
        Err(PidgitError::Lock(p)) => assert_eq!(p, b"refs/heads/held.lock".to_vec()),
        other => panic!("unexpected: {:?}", other),
    }
}

#[test]
fn ref_formats() {
    assert_eq!(check_ref_format(b"refs/heads/main", false, false), Some(vec![]));
    assert_eq!(check_ref_format(b"main", false, false), None);
    assert_eq!(check_ref_format(b"main", false, true), Some(vec![]));
    assert_eq!(check_ref_format(b"refs/heads/main.lock", false, false), None);
    assert_eq!(check_ref_format(b"refs//heads/main", false, false), None);
    assert_eq!(
        check_ref_format(b"refs//heads/main", true, false),
        Some(b"refs/heads/main\n".to_vec())
    );
    assert_eq!(check_ref_format(b"//refs/x", true, false), Some(b"refs/x\n".to_vec()));
    assert_eq!(check_ref_format(b"/main", true, false), None);
    assert_eq!(check_ref_format(b"/main", true, true), Some(b"main\n".to_vec()));
    assert_eq!(check_ref_format(b"", false, true), None);
    assert_eq!(check_ref_format(b"", true, true), None);
    assert_eq!(check_ref_format(b"//", true, true), None);

    assert_eq!(normalize(b"a//b"), b"a/b".to_vec());
    assert_eq!(normalize(b"a///b"), b"a//b".to_vec());
    assert_eq!(normalize(b"a////b"), b"a//b".to_vec());
    assert_eq!(normalize(b"////a"), b"a".to_vec());
    assert_eq!(normalize(b"a/"), b"a/".to_vec());
    assert_eq!(normalize(b""), Vec::<u8>::new());
}

#[test]
fn parents_of_a_commit() {
    let mut sb = sandbox();
    sb.write("a.txt", "a\n", 0o100644);
    sb.commit("first");
    let first = sb.repo.head().unwrap();
    assert!(sb.repo.parents(&first).is_empty());
    assert!(sb.repo.first_parent(&first).is_none());

    sb.write("a.txt", "b\n", 0o100644);
    sb.commit("second");
    let second = sb.repo.head().unwrap();
    let parents = sb.repo.parents(&second);
    assert_eq!(parents.len(), 1);
    assert_eq!(parents[0].raw_content(), first.raw_content());
    assert_eq!(
        sb.repo.first_parent(&second).unwrap().raw_content(),
        first.raw_content()
    );
    assert_eq!(
        sb.repo.resolve_revision(b"HEAD^").unwrap().raw_content(),
        first.raw_content()
    );
    assert_eq!(
        sb.repo.resolve_revision(b"HEAD~1").unwrap().raw_content(),
        first.raw_content()
    );
    assert_eq!(
        sb.repo.resolve_revision(b"@~0").unwrap().raw_content(),
        second.raw_content()
    );
    assert!(sb.repo.resolve_revision(b"HEAD~2").is_none());
    assert!(sb.repo.resolve_revision(b"HEAD^^").is_none());
}

#[test]
fn repositories_from_their_files() {
    let mut sb = sandbox();
    sb.write("a.txt", "a\n", 0o100644);
    sb.repo.add(b".").unwrap();
    let index = sb.repo.files().read(b"index").unwrap().clone();

    let mut files = FileTree::new();
    files.write(b"HEAD", b"ref: refs/heads/main\n".to_vec());
    files.write(b"index", index);
    let repo = Repository::from_work_tree(b"/work", files, Workspace::new(b"/work".to_vec())).unwrap();
    assert_eq!(repo.git_dir(), &b"/work/.pidgit".to_vec());
    assert_eq!(repo.index().num_entries(), 1);
    assert_eq!(repo.index().key_at(0), &b"a.txt".to_vec());

    let repo =
        Repository::from_git_dir(b"/x/.git".to_vec(), FileTree::new(), Workspace::new(b"/x".to_vec()))
            .unwrap();
    assert_eq!(repo.git_dir(), &b"/x/.git".to_vec());
    assert_eq!(repo.index().num_entries(), 0);

    let mut files = FileTree::new();
    files.write(b"index", b"not an index file, but long enough to be read".to_vec());
    match Repository::from_git_dir(b"/x/.git".to_vec(), files, Workspace::new(b"/x".to_vec())) {
        Err(PidgitError::Index(IndexFault::BadSignature)) => {},
        other => panic!("unexpected: {:?}", other.map(|_| ())),
    }
}

fn message(err: PidgitError) -> String {
    String::from_utf8(err.message()).unwrap()
}

#[test]
fn commits_that_fail() {
    let who = Person {
        name: b"Pidgit".to_vec(),
        email: b"pidgit@example.com".to_vec(),
        timestamp: 1_600_000_000,
        offset: 0,
    };

    // A mode word that no tree can hold.
    let mut sb = sandbox();
    sb.write("odd.txt", "x\n", 0o100600);
    sb.repo.add(b".").unwrap();
    match sb.repo.commit(b"m", who.clone(), who.clone()) {
        Err(PidgitError::Generic(m)) => assert_eq!(m, b"unknown mode in the index".to_vec()),
        other => panic!("unexpected: {:?}", other),
    }

    // An offset that chrono does not have.
    let mut sb = sandbox();
    sb.write("a.txt", "x\n", 0o100644);
    sb.repo.add(b".").unwrap();
    let far = Person { offset: 100_000, ..who.clone() };
    match sb.repo.commit(b"m", far, who.clone()) {
        Err(PidgitError::Generic(m)) => {
            assert_eq!(m, b"cannot write the dates of the commit".to_vec())
        },
        other => panic!("unexpected: {:?}", other),
    }

    // No HEAD.
    assert!(sb.repo.remove_git_file(b"HEAD"));
    match sb.repo.commit(b"m", who.clone(), who.clone()) {
        Err(PidgitError::RefNotFound(n)) => assert_eq!(n, b"HEAD".to_vec()),
        other => panic!("unexpected: {:?}", other),
    }

    // The ref of the branch is locked.
    sb.repo.create_file(b"HEAD", b"ref: refs/heads/main\n".to_vec());
    sb.repo.create_file(b"refs/heads/main.lock", vec![]);
    match sb.repo.commit(b"m", who.clone(), who.clone()) {
        Err(PidgitError::Lock(p)) => assert_eq!(p, b"refs/heads/main.lock".to_vec()),
        other => panic!("unexpected: {:?}", other),
    }
    assert!(sb.repo.files().read(b"refs/heads/main").is_none());

    // Without the lock the commit is made.
    assert!(sb.repo.remove_git_file(b"refs/heads/main.lock"));
    let commit = sb.repo.commit(b"m", who.clone(), who).unwrap();
    assert_eq!(commit.message(), &b"m\n".to_vec());
    assert!(commit.parent_shas().is_empty());
}

#[test]
fn a_status_that_fails() {
    let mut sb = sandbox();
    sb.write("dir/a.txt", "x\n", 0o100644);
    sb.commit("first");
    assert!(sb.repo.status().is_ok());

    // Take the tree of the commit out of the store.
    let commit = String::from_utf8(cat_file(&sb.repo, b"HEAD", Show::Pretty).unwrap()).unwrap();
    let tree = commit[5..45].to_string();
    let path = format!("objects/{}/{}", &tree[0..2], &tree[2..]);
    let stored = sb.repo.files().read(path.as_bytes()).unwrap().clone();
    assert!(sb.repo.remove_git_file(path.as_bytes()));
    match sb.repo.status() {
        Err(PidgitError::ObjectNotFound(n)) => assert_eq!(n, tree.as_bytes().to_vec()),
        other => panic!("unexpected: {:?}", other.map(|_| ())),
    }
    assert_eq!(
        message(dump_tree(&sb.repo, b"HEAD").unwrap_err()),
        format!("object not found: {}", tree)
    );

    // Bytes that are no object.
    sb.repo.create_file(path.as_bytes(), b"junk".to_vec());
    match sb.repo.status() {
        Err(PidgitError::Generic(m)) => {
            assert_eq!(String::from_utf8(m).unwrap(), format!("malformed object: {}", tree))
        },
        other => panic!("unexpected: {:?}", other.map(|_| ())),
    }

    // A blob where the tree should be.
    let blob = pidgit::object::Object::to_loose(pidgit::errors::ObjectKind::Blob, b"x\n");
    sb.repo.create_file(path.as_bytes(), blob);
    match sb.repo.status() {
        Err(PidgitError::InvalidObject(kind)) => {
            assert_eq!(kind, pidgit::errors::ObjectKind::Tree)
        },
        other => panic!("unexpected: {:?}", other.map(|_| ())),
    }

    // With the tree back, and the index file locked: the index has changed
    // since it was read, so the status has it to write, and fails.
    sb.repo.create_file(path.as_bytes(), stored);
    sb.repo.create_file(b"index.lock", vec![]);
    assert!(sb.repo.index().has_changed());
    match sb.repo.status() {
        Err(PidgitError::Lock(p)) => assert_eq!(p, b"index.lock".to_vec()),
        other => panic!("unexpected: {:?}", other.map(|_| ())),
    }

    // An index that was read from its file has nothing to write.
    let mut files = FileTree::new();
    for i in 0..sb.repo.files().len() {
        files.write(sb.repo.files().path_at(i), sb.repo.files().content_at(i).clone());
    }
    let mut work = Workspace::new(b"/work".to_vec());
    for i in 0..sb.repo.workspace().len() {
        let file = sb.repo.workspace().file_at(i);
        work.put_file(sb.repo.workspace().path_at(i), file.stat, file.content.clone());
    }
    let mut again = Repository::from_git_dir(b"/work/.pidgit".to_vec(), files, work).unwrap();
    assert!(!again.index().has_changed());
    assert!(again.files().is_file(b"index.lock"));
    let status = again.status().unwrap();
    assert!(!status.has_index_changes());
    assert!(!status.has_workspace_changes());
    assert!(!status.has_untracked_changes());
    assert!(sb.repo.remove_git_file(b"index.lock"));
    assert!(sb.repo.status().is_ok());
    let out = String::from_utf8(dump_tree(&sb.repo, b"HEAD").unwrap()).unwrap();
    assert_eq!(
        out,
        format!(
            "100644 {} dir/a.txt\n",
            String::from_utf8(hash_object(b"x\n")).unwrap()
        )
    );
}

#[test]
fn a_message_ends_with_one_newline() {
    for given in ["x", "x\n", "x\n\n", "x\n\n\n"] {
        let mut sb = sandbox();
        sb.write("a.txt", "a\n", 0o100644);
        sb.repo.add(b".").unwrap();
        let who = Person {
            name: b"Pidgit".to_vec(),
            email: b"pidgit@example.com".to_vec(),
            timestamp: 1_600_000_000,
            offset: 0,
        };
        let commit = sb.repo.commit(given.as_bytes(), who.clone(), who).unwrap();
        assert_eq!(commit.message(), &b"x\n".to_vec());
        assert!(commit.raw_content().ends_with(b" +0000\n\nx\n"));
    }

    // A message of newlines only, and none at all.
    for given in ["", "\n", "\n\n"] {
        let mut sb = sandbox();
        sb.write("a.txt", "a\n", 0o100644);
        sb.repo.add(b".").unwrap();
        let who = Person {
            name: b"P".to_vec(),
            email: b"p@x".to_vec(),
            timestamp: 1,
            offset: 0,
        };
        let commit = sb.repo.commit(given.as_bytes(), who.clone(), who).unwrap();
        assert_eq!(commit.message(), &b"\n".to_vec());
    }

    // A newline inside the text stays.
    let mut sb = sandbox();
    sb.write("a.txt", "a\n", 0o100644);
    sb.repo.add(b".").unwrap();
    let who = Person { name: b"P".to_vec(), email: b"p@x".to_vec(), timestamp: 1, offset: 0 };
    let commit = sb.repo.commit(b"title\n\nbody\n\n", who.clone(), who).unwrap();
    assert_eq!(commit.message(), &b"title\n\nbody\n".to_vec());
}
