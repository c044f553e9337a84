use pidgit::cmd::{init, status_short};
use pidgit::index::meta::FileStat;
use pidgit::object::commit::Person;
use pidgit::repo::Repository;

// A repository in memory with a clock, so that every write gets a later
// time than the one before.
struct TestRepo {
    repo: Repository,
    clock: i64,
}

fn new_empty_repo() -> TestRepo {
    let repo = Repository::create_empty(b"/work".to_vec()).expect("could not init test repo");
    TestRepo { repo, clock: 1_600_000_000 }
}

impl TestRepo {
    fn stat(&mut self, size: usize, mode: u32) -> FileStat {
        self.clock += 1;
        FileStat {
            ctime: self.clock,
            ctime_nsec: 0,
            mtime: self.clock,
            mtime_nsec: 0,
            dev: 1,
            ino: 7,
            mode,
            uid: 1000,
            gid: 1000,
            size: size as u64,
            is_dir: false,
            is_file: true,
        }
    }

    fn write_file(&mut self, filename: &str, content: &str) {
        let mode = match self.repo.workspace().stat(filename.as_bytes()) {
            Some(st) => st.mode,
            None => 0o100644,
        };
        let stat = self.stat(content.len(), mode);
        self.repo
            .put_work_file(filename.as_bytes(), stat, content.as_bytes().to_vec());
    }

    // Directories are there as far as files lie in them.
    fn mkdir(&mut self, _path: &str) {}

    fn rm_file(&mut self, path: &str) {
        assert!(self.repo.workspace().stat(path.as_bytes()).is_some());
        self.repo.remove_work_file(path.as_bytes());
        assert!(self.repo.workspace().stat(path.as_bytes()).is_none());
    }

    fn rm_rf(&mut self, path: &str) {
        let below = format!("{}/", path);
        let mut gone = vec![];
        for i in 0..self.repo.workspace().len() {
            let p = self.repo.workspace().path_at(i).clone();
            if p.starts_with(below.as_bytes()) {
                gone.push(p);
            }
        }
        assert!(!gone.is_empty(), "could not remove dir");
        for p in gone {
            self.repo.remove_work_file(&p);
        }
    }

    fn rm_index_file(&mut self) {
        assert!(self.repo.remove_git_file(b"index"));
    }

    fn chmod(&mut self, pathstr: &str, mode: u32) {
        let file = self
            .repo
            .workspace()
            .read(pathstr.as_bytes())
            .expect("bad stat");
        let content = file.content.clone();
        let stat = self.stat(content.len(), 0o100000 | mode);
        self.repo.put_work_file(pathstr.as_bytes(), stat, content);
    }

    fn add_all(&mut self) {
        self.repo.add(b".").expect("bad add");
    }

    fn commit(&mut self, message: &str) {
        let who = Person {
            name: b"Pidgit".to_vec(),
            email: b"pidgit@example.com".to_vec(),
            timestamp: self.clock,
            offset: -14400,
        };
        self.repo
            .commit(message.as_bytes(), who.clone(), who)
            .expect("could not commit");
    }

    fn commit_all(&mut self) {
        self.add_all();
        self.commit("auto commit message");
    }

    fn status(&mut self) -> String {
        let status = self.repo.status().expect("no status");
        String::from_utf8(status_short(&status)).unwrap()
    }
}

fn assert_status(stdout: String, want: &str) {
    let expect = want.to_string() + "\n";
    assert_eq!(stdout, expect);
}

#[test]
fn init_init_dot_pidgit_exists() {
    let tr = new_empty_repo();
    let (made, stdout) = init(Some(&tr.repo), b"/work".to_vec()).unwrap();
    assert!(made.is_none());
    let stdout = String::from_utf8(stdout).unwrap();
    assert!(stdout.contains("nothing to do"));
}

#[test]
fn init_init_create_dir() {
    let (made, stdout) = init(None, b"/somewhere".to_vec()).unwrap();
    let out = String::from_utf8(stdout).unwrap();
    assert!(out.contains("initialized empty pidgit repository"));
    assert!(out.ends_with("/somewhere/.pidgit"));

    let repo = made.expect("no repository made");
    let head = repo.files().read(b"HEAD").expect("no HEAD");
    assert!(String::from_utf8(head.clone()).unwrap().contains("refs/heads/main"));
    let config = repo.files().read(b"config").expect("no config");
    assert!(String::from_utf8(config.clone())
        .unwrap()
        .contains("repositoryformatversion = 0"));
    assert!(repo.files().is_file(b"index"));

    let dirs = Repository::layout_dirs();
    assert_eq!(
        dirs,
        vec![
            b"objects".to_vec(),
            b"refs/heads".to_vec(),
            b"refs/tags".to_vec(),
            b"refs/remotes".to_vec()
        ]
    );
}

#[test]
fn empty_repo() {
    let mut tr = new_empty_repo();
    assert_eq!(tr.status(), "");
}

#[test]
fn only_untracked_files() {
    let mut tr = new_empty_repo();
    tr.write_file("file.txt", "file content");
    tr.write_file("other.txt", "more content");

    let stdout = tr.status();
    assert_status(stdout, "?? file.txt\n?? other.txt");
}

#[test]
fn untracked_and_others() {
    let mut tr = new_empty_repo();
    tr.write_file("committed.txt", "to be committed");
    tr.commit_all();

    tr.write_file("file.txt", "uncommitted");

    let stdout = tr.status();
    assert_status(stdout, "?? file.txt");
}

#[test]
fn untracked_dirs() {
    let mut tr = new_empty_repo();
    tr.write_file("file.txt", "top-level file");
    tr.write_file("dir/nested.txt", "nested file");

    let stdout = tr.status();
    assert_status(stdout, "?? dir/\n?? file.txt");
}

#[test]
fn untracked_dirs_nested() {
    let mut tr = new_empty_repo();
    tr.write_file("a/b/inner.txt", "nested file");
    tr.commit_all();

    tr.write_file("a/outer.txt", "outer untracked file");
    tr.write_file("a/b/c/nested.txt", "more deeply nested file");

    let stdout = tr.status();
    assert_status(stdout, "?? a/b/c/\n?? a/outer.txt");
}

#[test]
fn no_empty_untracked_dirs() {
    let mut tr = new_empty_repo();
    tr.mkdir("outer");

    let stdout = tr.status();
    assert_eq!(stdout, "");

    tr.write_file("outer/inner/file.txt", "a file");
    let stdout = tr.status();
    assert_status(stdout, "?? outer/");
}

#[test]
fn simple_modification() {
    let mut tr = new_empty_repo();
    tr.write_file("file.txt", "original content\n");
    tr.commit_all();

    let stdout = tr.status();
    assert_eq!(stdout, "");

    tr.write_file("file.txt", "original_content\nplus another line\n");

    let stdout = tr.status();
    assert_status(stdout, " M file.txt");
}

#[test]
fn change_mode() {
    let mut tr = new_empty_repo();
    tr.write_file("file.txt", "original content\n");
    tr.commit_all();

    tr.chmod("file.txt", 0o755);

    let stdout = tr.status();
    assert_status(stdout, " M file.txt");
}

#[test]
fn modify_same_size() {
    let mut tr = new_empty_repo();
    tr.write_file("file.txt", "2 cats\n");
    tr.commit_all();

    tr.write_file("file.txt", "9 cats\n");

    let stdout = tr.status();
    assert_status(stdout, " M file.txt");
}

#[test]
fn deleted_files() {
    let mut tr = new_empty_repo();
    tr.write_file("file.txt", "meh\n");
    tr.commit_all();

    tr.rm_file("file.txt");

    let stdout = tr.status();
    assert_status(stdout, " D file.txt");
}

// The tests below deal with the difference between HEAD and the index, so
// they begin with a repository that has a commit.
fn new_with_commit() -> TestRepo {
    let mut tr = new_empty_repo();
    tr.write_file("1.txt", "one\n");
    tr.write_file("a/2.txt", "two\n");
    tr.write_file("a/b/3.txt", "three\n");
    tr.commit_all();
    tr
}

#[test]
fn added_file_in_tracked_dir() {
    let mut tr = new_with_commit();

    tr.write_file("a/4.txt", "four\n");
    tr.add_all();

    let stdout = tr.status();
    assert_status(stdout, "A  a/4.txt");
}

#[test]
fn added_file_in_untracked_dir() {
    let mut tr = new_with_commit();

    tr.write_file("d/e/5.txt", "five\n");
    tr.add_all();

    let stdout = tr.status();
    assert_status(stdout, "A  d/e/5.txt");
}

#[test]
fn modified_mode() {
    let mut tr = new_with_commit();

    tr.chmod("1.txt", 0o755);
    tr.add_all();

    let stdout = tr.status();
    assert_status(stdout, "M  1.txt");
}

#[test]
fn modified_content() {
    let mut tr = new_with_commit();

    tr.write_file("a/b/3.txt", "tre\n");
    tr.add_all();

    let stdout = tr.status();
    assert_status(stdout, "M  a/b/3.txt");
}

#[test]
fn deleted_file_from_index() {
    let mut tr = new_with_commit();

    tr.rm_file("a/b/3.txt");
    tr.rm_index_file();
    tr.repo.reload_index().expect("couldn't reload index");
    tr.add_all();

    let stdout = tr.status();
    assert_status(stdout, "D  a/b/3.txt");
}

#[test]
fn deleted_dir_from_index() {
    let mut tr = new_with_commit();

    tr.rm_rf("a");
    tr.rm_index_file();
    tr.repo.reload_index().expect("couldn't reload index");
    tr.add_all();

    let stdout = tr.status();
    assert_status(stdout, "D  a/2.txt\nD  a/b/3.txt");
}

#[test]
fn stale_times_are_refreshed() {
    let mut tr = new_empty_repo();
    tr.write_file("file.txt", "same\n");
    tr.commit_all();

    // The same content written again: the times differ, the digest does
    // not, so nothing has changed and the entry takes the new times.
    tr.write_file("file.txt", "same\n");
    let now = tr.repo.workspace().stat(b"file.txt").unwrap();
    assert_eq!(tr.status(), "");
    let entry = tr.repo.index().entry_for(b"file.txt").unwrap();
    assert!(entry.matches_time(&now));
}

#[test]
fn ignored_names_are_not_seen() {
    let mut tr = new_empty_repo();
    tr.write_file("target/debug/out", "built");
    tr.write_file(".git/HEAD", "elsewhere");
    tr.write_file("notes.txt.swp", "swap");
    tr.write_file(".swp", "a name, no extension");

    assert_status(tr.status(), "?? .swp");
}

#[test]
fn add_of_a_missing_path_fails() {
    let mut tr = new_empty_repo();
    tr.write_file("file.txt", "content");
    let err = tr.repo.add(b"nowhere").unwrap_err();
    assert_eq!(
        err,
        pidgit::errors::PidgitError::PathspecNotFound(b"nowhere".to_vec())
    );
    assert_eq!(
        String::from_utf8(err.message()).unwrap(),
        "pathspec 'nowhere' did not match any files"
    );
    assert_eq!(tr.repo.index().num_entries(), 0);
}

#[test]
fn commit_moves_head_and_has_a_parent() {
    let mut tr = new_with_commit();
    let first = tr.repo.head().expect("no head");
    assert_eq!(first.parent_shas().len(), 0);
    assert_eq!(first.title(), b"auto commit message".to_vec());
    assert_eq!(first.message(), &b"auto commit message\n".to_vec());

    tr.write_file("1.txt", "uno\n");
    tr.commit_all();
    let second = tr.repo.head().expect("no head");
    assert_eq!(second.parent_shas().len(), 1);

    let parent = tr.repo.first_parent(&second).expect("no parent");
    assert_eq!(parent.raw_content(), first.raw_content());

    // HEAD is a symbolic ref, so the branch holds the digest.
    let branch = tr.repo.files().read(b"refs/heads/main").unwrap().clone();
    assert_eq!(branch.len(), 41);
    let found = tr.repo.resolve_revision(b"HEAD^").expect("no HEAD^");
    assert_eq!(found.raw_content(), first.raw_content());
    let found = tr.repo.resolve_revision(b"@~1").expect("no @~1");
    assert_eq!(found.raw_content(), first.raw_content());
    assert!(tr.repo.resolve_revision(b"HEAD~2").is_none());
    assert!(tr.repo.resolve_revision(b"no such thing").is_none());
}
