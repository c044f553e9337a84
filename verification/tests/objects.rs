use pidgit::cmd::{hash_object, ls_files};
use pidgit::errors::{ObjectKind, PidgitError};
use pidgit::files::FileTree;
use pidgit::grefs::Grefs;
use pidgit::index::entry::IndexEntry;
use pidgit::index::meta::FileStat;
use pidgit::index::Index;
use pidgit::lockfile::Lockfile;
use pidgit::object::blob::Blob;
use pidgit::object::commit::{
    checked_stamp, parse_author_line, scan_headers, split_author_line, stamp_bytes, trim, Commit,
    Person,
};
use pidgit::object::tag::Tag;
use pidgit::object::tree::{Mode, PathEntry, Tree};
use pidgit::object::Object;
use pidgit::repo::{sha_from_path, Repository};
use pidgit::sha::{decode_hex, encode_hex, header_bytes, Sha};
use pidgit::status::ChangeType;
use pidgit::workspace::{is_ignored, is_under, is_visible, Workspace};

const EMPTY_BLOB: &str = "e69de29bb2d1d6434b8b29ae775ad8c2e48c5391";
const EMPTY_TREE: &str = "4b825dc642cb6eb9a060e54bf8d69288fbee4904";

fn hex(sha: &Sha) -> String {
    String::from_utf8(sha.hexdigest()).unwrap()
}

fn text(bytes: Vec<u8>) -> String {
    String::from_utf8(bytes).unwrap()
}

fn stat(mode: u32) -> FileStat {
    FileStat {
        ctime: 10,
        ctime_nsec: 0,
        mtime: 10,
        mtime_nsec: 0,
        dev: 1,
        ino: 2,
        mode,
        uid: 3,
        gid: 4,
        size: 5,
        is_dir: false,
        is_file: true,
    }
}

#[test]
fn hash_stability() {
    assert_eq!(
        text(hash_object(b"\n")),
        "8b137891791fe96927ad78e64b0aad7bded08bdc"
    );
    assert_eq!(text(hash_object(b"")), EMPTY_BLOB);
    assert_eq!(
        text(hash_object(b"hello\n")),
        "ce013625030ba8dba906f756967f9e9ca394464a"
    );
    assert_eq!(
        text(hash_object(b"hello world\n")),
        "3b18e512dba79e4c8300dd08aeb37f8e728b8dad"
    );
}

#[test]
fn sha1_of_known_texts() {
    assert_eq!(hex(&Sha::of(b"")), "da39a3ee5e6b4b0d3255bfef95601890afd80709");
    assert_eq!(
        hex(&Sha::of(b"Hello World!")),
        "2ef7bde608ce5404e97d5f042f95f89f1c232871"
    );
    assert_eq!(hex(&Sha::header_and_body(b"tree", b"")), EMPTY_TREE);
    assert_eq!(header_bytes(b"blob", 1234), b"blob 1234\0".to_vec());
}

#[test]
fn sha_views() {
    let sha = Sha::from_hex(EMPTY_BLOB.as_bytes()).unwrap();
    assert_eq!(hex(&sha), EMPTY_BLOB);
    assert_eq!(text(sha.short(8)), "e69de29b");
    assert_eq!(text(sha.short(0)), "");
    let (dir, file) = sha.split_for_path();
    assert_eq!(text(dir), "e6");
    assert_eq!(text(file), "9de29bb2d1d6434b8b29ae775ad8c2e48c5391");
    assert_eq!(sha.bytes().len(), 20);
    assert_eq!(sha.bytes()[0], 0xe6);
    assert!(sha.same(&Sha::from_bytes(&sha.bytes()).unwrap()));
    assert!(sha.same(&sha.duplicate()));
    assert!(!sha.same(&Sha::of(b"")));

    // Upper case is read, lower case is written.
    let upper = Sha::from_hex(EMPTY_BLOB.to_uppercase().as_bytes()).unwrap();
    assert_eq!(hex(&upper), EMPTY_BLOB);

    assert!(Sha::from_hex(b"e69de29").is_none());
    assert!(Sha::from_hex(&[b'g'; 40]).is_none());
    assert!(Sha::from_bytes(&[0u8; 19]).is_none());
    assert!(Sha::from_bytes(&[0u8; 21]).is_none());
}

#[test]
fn hex_both_ways() {
    assert_eq!(encode_hex(&[0x00, 0x0f, 0xa5, 0xff]), b"000fa5ff".to_vec());
    assert_eq!(decode_hex(b"000fA5Ff"), Some(vec![0x00, 0x0f, 0xa5, 0xff]));
    assert_eq!(decode_hex(b""), Some(vec![]));
    assert_eq!(decode_hex(b"abc"), None);
    assert_eq!(decode_hex(b"zz"), None);
}

#[test]
fn object_round_trip() {
    let mut repo = Repository::create_empty(b"/w".to_vec()).unwrap();
    for (kind, body) in [
        (ObjectKind::Blob, b"some\0bytes\n".to_vec()),
        (ObjectKind::Blob, vec![]),
        (ObjectKind::Tag, b"object 1234\n".to_vec()),
        (ObjectKind::Tree, vec![]),
    ] {
        let sha = repo.write_raw(kind, &body);
        let name = text(kind.type_str());
        let mut framed = format!("{} {}\0", name, body.len()).into_bytes();
        framed.extend_from_slice(&body);
        assert_eq!(hex(&sha), hex(&Sha::of(&framed)));

        // The file is compressed: it is not the framed object itself.
        let path = Repository::path_for_sha(&sha.hexdigest());
        assert_eq!(text(path.clone()), format!("objects/{}/{}", &hex(&sha)[..2], &hex(&sha)[2..]));
        let stored = repo.files().read(&path).unwrap().clone();
        assert_ne!(stored, framed);
        assert_eq!(stored[0], 0x78);

        let back = repo.object_for_sha(&sha.hexdigest()).unwrap();
        assert_eq!(back.kind(), kind);
        assert_eq!(back.raw_content(), body);
        assert_eq!(back.size(), body.len());
        assert_eq!(back.header(), format!("{} {}\0", name, body.len()).into_bytes());
        assert_eq!(hex(&back.sha()), hex(&sha));
        assert_eq!(Object::from_git_db(&stored).unwrap().raw_content(), body);
    }
}

#[test]
fn object_views() {
    let blob = Object::Blob(Blob::from_content(b"x".to_vec()));
    assert_eq!(blob.type_str(), b"blob".to_vec());
    assert_eq!(blob.pretty(), b"x".to_vec());
    assert_eq!(
        blob.as_commit().unwrap_err(),
        PidgitError::InvalidObject(ObjectKind::Commit)
    );
    let tag = Object::Tag(Tag::from_content(b"t".to_vec()));
    assert_eq!(
        tag.as_tree().unwrap_err(),
        PidgitError::InvalidObject(ObjectKind::Tree)
    );
    let tag = Object::Tag(Tag::from_content(b"t".to_vec()));
    assert_eq!(tag.as_tag().unwrap().raw_content(), b"t".to_vec());
    let blob = Object::Blob(Blob::from_content(b"x".to_vec()));
    assert_eq!(
        text(blob.as_tag().unwrap_err().message()),
        "invalid object type: not a tag"
    );
    let blob = Object::Blob(Blob::from_content(b"x".to_vec()));
    assert_eq!(blob.as_blob().unwrap().content(), &b"x".to_vec());

    assert!(Object::from_git_db(b"not zlib").is_none());
    assert!(Object::unframe(b"blob 3").is_none());
    assert!(Object::unframe(b"blub 3\0abc").is_none());
    assert_eq!(
        Object::unframe(b"blob 3\0abc"),
        Some((ObjectKind::Blob, b"abc".to_vec()))
    );
    assert!(Object::parse(ObjectKind::Commit, b"junk".to_vec()).is_none());
    assert!(Object::parse(ObjectKind::Tree, b"junk".to_vec()).is_none());
}

#[test]
fn short_shas() {
    let mut repo = Repository::create_empty(b"/w".to_vec()).unwrap();
    let sha = repo.write_raw(ObjectKind::Blob, b"hello world\n");
    assert_eq!(hex(&sha), "3b18e512dba79e4c8300dd08aeb37f8e728b8dad");

    let found = repo.resolve_sha(b"3b18e5").unwrap();
    assert_eq!(found.raw_content(), b"hello world\n".to_vec());
    let found = repo.resolve_object(b"3b18").unwrap();
    assert_eq!(found.raw_content(), b"hello world\n".to_vec());

    assert_eq!(
        repo.resolve_sha(b"3b1").unwrap_err(),
        PidgitError::ObjectNotFound(b"3b1 is too short to be a sha".to_vec())
    );
    assert_eq!(
        repo.resolve_sha(b"3b18e6").unwrap_err(),
        PidgitError::ObjectNotFound(b"3b18e6".to_vec())
    );
    assert_eq!(
        repo.resolve_sha(b"ffff").unwrap_err(),
        PidgitError::ObjectNotFound(b"ffff".to_vec())
    );
    assert_eq!(
        repo.object_for_sha(EMPTY_BLOB.as_bytes()).unwrap_err(),
        PidgitError::ObjectNotFound(EMPTY_BLOB.as_bytes().to_vec())
    );

    // A second object with the same first digits makes the short form
    // ambiguous.
    repo.create_file(b"objects/3b/18ffff", Object::to_loose(ObjectKind::Blob, b"other"));
    assert_eq!(
        repo.resolve_sha(b"3b18").unwrap_err(),
        PidgitError::ObjectNotFound(b"3b18 is ambiguous".to_vec())
    );
    assert_eq!(
        repo.resolve_sha(b"3b18f").unwrap().raw_content(),
        b"other".to_vec()
    );
    assert_eq!(
        text(repo.resolve_sha(b"3b18").unwrap_err().message()),
        "object not found: 3b18 is ambiguous"
    );

    assert_eq!(sha_from_path(b".git/objects/04/2348ac8d3"), b"042348ac8d3".to_vec());
    assert_eq!(sha_from_path(b"plain"), b"plain".to_vec());
}

fn who() -> Person {
    Person {
        name: b"Pidgit".to_vec(),
        email: b"pidgit@example.com".to_vec(),
        timestamp: 1_600_000_000,
        offset: 19800,
    }
}

#[test]
fn commit_text_and_back() {
    let commit = Commit::new(
        EMPTY_TREE.as_bytes().to_vec(),
        vec![EMPTY_BLOB.as_bytes().to_vec()],
        who(),
        who(),
        b"a title\n\nand a body\n".to_vec(),
    )
    .expect("no commit");
    let body = text(commit.raw_content());
    assert_eq!(
        body,
        "tree 4b825dc642cb6eb9a060e54bf8d69288fbee4904\n\
         parent e69de29bb2d1d6434b8b29ae775ad8c2e48c5391\n\
         author Pidgit <pidgit@example.com> 1600000000 +0530\n\
         committer Pidgit <pidgit@example.com> 1600000000 +0530\n\
         \n\
         a title\n\nand a body\n"
    );
    assert_eq!(commit.title(), b"a title".to_vec());

    let back = Commit::from_content(body.clone().into_bytes()).expect("not read");
    assert_eq!(back.tree(), &EMPTY_TREE.as_bytes().to_vec());
    assert_eq!(back.parent_shas(), &vec![EMPTY_BLOB.as_bytes().to_vec()]);
    assert_eq!(back.author(), &who());
    assert_eq!(back.committer(), &who());
    assert_eq!(back.message(), &b"a title\n\nand a body\n".to_vec());
    assert_eq!(text(back.raw_content()), body);
    assert_eq!(text(who().render()), "Pidgit <pidgit@example.com>");

    // No moment that chrono has.
    let mut nobody = who();
    nobody.offset = 86400;
    assert!(Commit::new(vec![], vec![], nobody, who(), vec![]).is_none());
}

#[test]
fn commit_with_other_headers() {
    let body = b"tree abc\nauthor A <a@x> 1 +0000\ncommitter  B C  < b@y >  2 -0130\ngpgsig long\n line\n\nmsg\n";
    let commit = Commit::from_content(body.to_vec()).expect("not read");
    assert_eq!(commit.tree(), &b"abc".to_vec());
    assert!(commit.parent_shas().is_empty());
    assert_eq!(commit.author().name, b"A".to_vec());
    assert_eq!(commit.committer().name, b"B C".to_vec());
    assert_eq!(commit.committer().email, b"b@y".to_vec());
    assert_eq!(commit.committer().timestamp, 2);
    assert_eq!(commit.committer().offset, -5400);
    // The message is all that follows the line that ended the headers.
    assert_eq!(commit.message(), &b" line\n\nmsg\n".to_vec());

    assert!(Commit::from_content(b"author A <a@x> 1 +0000\n".to_vec()).is_none());
    assert!(Commit::from_content(b"tree abc\nauthor A <a@x> 1 +0000\n".to_vec()).is_none());
    assert!(Commit::from_content(
        b"tree abc\nauthor A <a@x> soon\ncommitter A <a@x> 1 +0000\n\n".to_vec()
    )
    .is_none());

    assert_eq!(parse_author_line(b"No Mail 1 +0000"), None);
    assert_eq!(parse_author_line(b"X <y> 12 +0100").unwrap().offset, 3600);
    assert_eq!(trim(b" \t padded \r\n"), b"padded".to_vec());
    assert_eq!(trim(b"   "), Vec::<u8>::new());
}

fn entry(path: &str, mode: Mode, content: &[u8]) -> PathEntry {
    PathEntry::new(
        path.as_bytes().to_vec(),
        mode,
        Sha::header_and_body(b"blob", content),
    )
}

#[test]
fn tree_records() {
    let mut tree = Tree::new(b"".to_vec());
    tree.add_entry(entry("a.txt", Mode::Normal, b""));
    tree.add_entry(entry("run", Mode::Executable, b"x"));
    let body = tree.raw_content();
    let mut want = b"100644 a.txt\0".to_vec();
    want.extend_from_slice(&Sha::from_hex(EMPTY_BLOB.as_bytes()).unwrap().bytes());
    want.extend_from_slice(b"100755 run\0");
    want.extend_from_slice(&Sha::header_and_body(b"blob", b"x").bytes());
    assert_eq!(body, want);

    let back = Tree::from_content(&body).expect("not read");
    assert_eq!(back.entries().len(), 2);
    assert_eq!(back.entries()[0].path(), &b"a.txt".to_vec());
    assert_eq!(back.entries()[1].mode(), Mode::Executable);
    assert!(!back.entries()[1].is_tree());
    assert_eq!(back.raw_content(), body);
    assert_eq!(hex(&back.sha()), hex(&tree.sha()));
    assert_eq!(
        text(back.pretty()),
        format!(
            "100644 blob {}    a.txt\n100755 blob {}    run",
            EMPTY_BLOB,
            hex(&Sha::header_and_body(b"blob", b"x"))
        )
    );

    assert_eq!(hex(&Tree::new(vec![]).sha()), EMPTY_TREE);
    assert!(Tree::from_content(b"100644 a.txt\0short").is_none());
    assert!(Tree::from_content(b"100664 a.txt\0aaaaaaaaaaaaaaaaaaaa").is_none());
    assert!(Tree::from_content(b"100644 a/b\0aaaaaaaaaaaaaaaaaaaa").is_none());
    assert!(Tree::from_content(b"100644 \0aaaaaaaaaaaaaaaaaaaa").is_none());
    assert!(Tree::from_content(b"100644").is_none());
}

#[test]
fn modes() {
    assert_eq!(Mode::Tree.short(), b"40000".to_vec());
    assert_eq!(Mode::Normal.short(), b"100644".to_vec());
    assert_eq!(Mode::Executable.short(), b"100755".to_vec());
    assert_eq!(Mode::Tree.long(), b"040000".to_vec());
    assert_eq!(Mode::Normal.long(), b"100644".to_vec());
    assert_eq!(Mode::from_text(b"40000"), Some(Mode::Tree));
    assert_eq!(Mode::from_text(b"040000"), None);
    assert_eq!(Mode::from_word(0o100755), Some(Mode::Executable));
    assert_eq!(Mode::from_word(0o100664), None);
    assert_eq!(Mode::Tree.word(), 0o040000);
    assert_eq!(Mode::from_stat(&stat(0o100644)), Mode::Normal);
    assert_eq!(Mode::from_stat(&stat(0o100700)), Mode::Executable);
    let mut dir = stat(0o040755);
    dir.is_dir = true;
    assert_eq!(Mode::from_stat(&dir), Mode::Tree);

    let e = PathEntry::from_path(b"a/b/c", &stat(0o100755), b"");
    assert_eq!(hex(e.sha()), EMPTY_BLOB);
    assert_eq!(e.mode(), Mode::Executable);
    assert_eq!(e.parents(), vec![b"a".to_vec(), b"a/b".to_vec()]);
    assert_eq!(&e.as_entry_bytes()[..9], b"100755 c\0");
    assert_eq!(e.duplicate().path(), &b"a/b/c".to_vec());
}

#[test]
fn trees_from_paths() {
    let entries = vec![
        entry("README", Mode::Normal, b"r"),
        entry("src/lib.rs", Mode::Normal, b"l"),
        entry("src/util/a.rs", Mode::Normal, b"a"),
        entry("src/util/b.rs", Mode::Executable, b"b"),
        entry("zed", Mode::Normal, b"z"),
    ];
    let trees = Tree::build_all(entries);
    let labels: Vec<String> = trees.iter().map(|t| text(t.label().clone())).collect();
    assert_eq!(labels, vec!["util", "src", ""]);

    let util = &trees[0];
    let names: Vec<String> = util.entries().iter().map(|e| text(e.path().clone())).collect();
    assert_eq!(names, vec!["a.rs", "b.rs"]);

    let src = &trees[1];
    assert_eq!(src.entries().len(), 2);
    assert_eq!(src.entries()[0].path(), &b"lib.rs".to_vec());
    assert_eq!(src.entries()[1].path(), &b"util".to_vec());
    assert!(src.entries()[1].is_tree());
    assert_eq!(hex(src.entries()[1].sha()), hex(&util.sha()));

    let root = &trees[2];
    let names: Vec<String> = root.entries().iter().map(|e| text(e.path().clone())).collect();
    assert_eq!(names, vec!["README", "src", "zed"]);
    assert_eq!(hex(root.entries()[1].sha()), hex(&src.sha()));
    let mut record = b"40000 util\0".to_vec();
    record.extend_from_slice(&util.sha().bytes());
    assert_eq!(util.as_entry_bytes(), record);

    assert_eq!(hex(&Tree::build(vec![]).sha()), EMPTY_TREE);
    assert_eq!(Tree::build_all(vec![]).len(), 1);
}

#[test]
fn refs_resolve() {
    let mut files = FileTree::new();
    let refs = Grefs::new(b"/w/.pidgit".to_vec());
    assert_eq!(refs.git_dir(), &b"/w/.pidgit".to_vec());
    let sha = Sha::of(b"a commit");
    let other = Sha::of(b"another");

    assert_eq!(
        refs.resolve(&files, b"main").unwrap_err(),
        PidgitError::RefNotFound(b"main".to_vec())
    );
    files.write(b"HEAD", b"ref: refs/heads/main\n".to_vec());
    assert_eq!(
        refs.resolve(&files, b"HEAD").unwrap_err(),
        PidgitError::RefNotFound(b"refs/heads/main".to_vec())
    );

    assert_eq!(refs.create_branch(&mut files, b"main", &sha), Ok(()));
    assert_eq!(
        files.read(b"refs/heads/main").unwrap(),
        &format!("{}\n", hex(&sha)).into_bytes()
    );
    assert!(!files.is_file(b"refs/heads/main.lock"));
    assert_eq!(hex(&refs.resolve(&files, b"refs/heads/main").unwrap()), hex(&sha));
    assert_eq!(hex(&refs.resolve(&files, b"main").unwrap()), hex(&sha));
    assert_eq!(hex(&refs.resolve(&files, b"heads/main").unwrap()), hex(&sha));
    assert_eq!(hex(&refs.resolve(&files, b"HEAD").unwrap()), hex(&sha));

    // The places are asked in their order: tags come before heads.
    files.write(b"refs/tags/main", format!("{}\n", hex(&other)).into_bytes());
    assert_eq!(refs.path_for_name(&files, b"main"), Some(b"refs/tags/main".to_vec()));
    assert_eq!(hex(&refs.resolve(&files, b"main").unwrap()), hex(&other));
    files.write(b"refs/remotes/origin/HEAD", b"ref: refs/heads/main".to_vec());
    assert_eq!(
        refs.path_for_name(&files, b"origin"),
        Some(b"refs/remotes/origin/HEAD".to_vec())
    );
    assert_eq!(hex(&refs.resolve(&files, b"origin").unwrap()), hex(&sha));
    assert_eq!(refs.path_for_name(&files, b"nothing"), None);
    assert!(refs.path_exists(&files, b"HEAD"));

    assert_eq!(
        refs.create_branch(&mut files, b"main", &other),
        Err(PidgitError::Generic(b"A branch named 'main' already exists".to_vec()))
    );
    assert_eq!(
        refs.create_branch(&mut files, b"bad..name", &other),
        Err(PidgitError::InvalidRefName(b"bad..name".to_vec()))
    );
    assert_eq!(
        text(PidgitError::InvalidRefName(b"bad..name".to_vec()).message()),
        "invalid ref name: bad..name"
    );

    // HEAD is symbolic: the branch is written.
    assert_eq!(refs.update_head(&mut files, &other), Ok(()));
    assert_eq!(hex(&refs.resolve(&files, b"refs/heads/main").unwrap()), hex(&other));
    assert_eq!(files.read(b"HEAD").unwrap(), &b"ref: refs/heads/main\n".to_vec());
    // HEAD holds a digest: HEAD is written.
    files.write(b"HEAD", format!("{}\n", hex(&sha)).into_bytes());
    assert_eq!(refs.update_head(&mut files, &other), Ok(()));
    assert_eq!(files.read(b"HEAD").unwrap(), &format!("{}\n", hex(&other)).into_bytes());

    files.write(b"refs/heads/topic.lock", vec![]);
    assert_eq!(
        refs.create_branch(&mut files, b"topic", &sha),
        Err(PidgitError::Lock(b"refs/heads/topic.lock".to_vec()))
    );
    assert!(!files.is_file(b"refs/heads/topic"));

    files.write(b"refs/heads/junk", b"not a digest\n".to_vec());
    assert_eq!(
        refs.resolve(&files, b"junk").unwrap_err(),
        PidgitError::Generic(b"malformed ref: refs/heads/junk".to_vec())
    );
}

#[test]
fn symbolic_refs_end() {
    let mut files = FileTree::new();
    let refs = Grefs::new(vec![]);
    files.write(b"a", b"ref: a\n".to_vec());
    assert_eq!(
        refs.resolve(&files, b"a").unwrap_err(),
        PidgitError::RefNotFound(b"a".to_vec())
    );
    // Eight steps are followed, a ninth is not.
    let sha = Sha::of(b"x");
    for i in 0..9 {
        files.write(format!("r{}", i).as_bytes(), format!("ref: r{}\n", i + 1).into_bytes());
    }
    files.write(b"r9", format!("{}\n", hex(&sha)).into_bytes());
    assert_eq!(hex(&refs.resolve(&files, b"r1").unwrap()), hex(&sha));
    assert!(refs.resolve(&files, b"r0").is_err());
}

#[test]
fn create() {
    let lockfile = Lockfile::new(b"/tmp/x/index".to_vec());
    assert_eq!(lockfile.path(), &b"/tmp/x/index".to_vec());
    assert_eq!(lockfile.lock_path(), &b"/tmp/x/index.lock".to_vec());
    assert!(!lockfile.is_locked());
}

#[test]
fn lock() {
    let mut files = FileTree::new();
    let mut lockfile = Lockfile::new(b"foo".to_vec());
    let locked = lockfile.lock(&mut files);

    assert!(locked.is_ok());

    // second should fail
    let relock = lockfile.lock(&mut files);
    assert_eq!(relock.unwrap_err(), PidgitError::Lock(b"foo.lock".to_vec()));
    assert_eq!(
        text(PidgitError::Lock(b"foo.lock".to_vec()).message()),
        "could not lock foo.lock"
    );
}

#[test]
fn write_commit() {
    let mut files = FileTree::new();
    let mut lockfile = Lockfile::new(b"index".to_vec());
    let mut lock = lockfile.lock(&mut files).unwrap();
    assert!(lockfile.is_locked());

    assert_eq!(files.is_file(b"index.lock"), true, "locked a file");

    lock.write(&mut files, b"hello");
    lock.write(&mut files, b"\n");
    lock.commit(&mut lockfile, &mut files)
        .expect("could not commit lockfile");

    assert!(!lockfile.is_locked());

    assert_eq!(
        files.read(b"index").unwrap(),
        &b"hello\n".to_vec(),
        "content is correct in real file"
    );
    assert_eq!(files.is_file(b"index.lock"), false, "locked file is gone");
}

#[test]
fn write_rollback() {
    let mut files = FileTree::new();
    let mut lockfile = Lockfile::new(b"head".to_vec());
    let mut lock = lockfile.lock(&mut files).unwrap();
    assert!(lockfile.is_locked());

    lock.write(&mut files, b"hello\n");
    lock.commit(&mut lockfile, &mut files)
        .expect("could not commit lockfile");

    assert!(!lockfile.is_locked());
    assert_eq!(files.read(b"head").unwrap(), &b"hello\n".to_vec());

    let mut lock = lockfile.lock(&mut files).unwrap();
    lock.write(&mut files, b"goodbye\n");
    lock.rollback(&mut lockfile, &mut files);

    assert!(!lockfile.is_locked());
    assert_eq!(
        files.read(b"head").unwrap(),
        &b"hello\n".to_vec(),
        "file content did not change"
    );
    assert!(!files.is_file(b"head.lock"));
}

#[test]
fn files_in_memory() {
    let mut files = FileTree::new();
    files.write(b"b", b"2".to_vec());
    files.write(b"a/x", b"1".to_vec());
    files.append(b"b", b"3");
    files.append(b"c", b"4");
    assert_eq!(files.len(), 3);
    assert_eq!(files.path_at(0), &b"a/x".to_vec());
    assert_eq!(files.content_at(1), &b"23".to_vec());
    assert_eq!(files.paths_under(b"a/"), vec![b"a/x".to_vec()]);
    assert!(files.rename(b"c", b"a/y"));
    assert!(!files.rename(b"c", b"d"));
    assert_eq!(files.paths_under(b"a"), vec![b"a/x".to_vec(), b"a/y".to_vec()]);
    assert!(files.remove(b"b"));
    assert!(!files.remove(b"b"));
    assert_eq!(files.read(b"a/y"), Some(&b"4".to_vec()));
    assert_eq!(files.read(b"c"), None);
}

#[test]
fn workspace_listing() {
    let mut ws = Workspace::new(b"/w".to_vec());
    assert_eq!(ws.root(), &b"/w".to_vec());
    assert_eq!(ws.canonicalize(b"a/b"), b"/w/a/b".to_vec());
    for path in ["top.txt", "dir/one", "dir/sub/two", "dir/x.swp", ".git/config", "dirt"] {
        ws.put_file(path.as_bytes(), stat(0o100644), path.as_bytes().to_vec());
    }
    let list = |r: Result<Vec<Vec<u8>>, PidgitError>| -> Vec<String> {
        r.unwrap().into_iter().map(text).collect()
    };
    assert_eq!(list(ws.list_files()), vec!["dir/one", "dir/sub/two", "dirt", "top.txt"]);
    assert_eq!(list(ws.list_files_from_base(b".")), list(ws.list_files()));
    assert_eq!(list(ws.list_files_from_base(b"dir")), vec!["dir/one", "dir/sub/two"]);
    assert_eq!(list(ws.list_files_from_base(b"dirt")), vec!["dirt"]);
    assert_eq!(
        ws.list_files_from_base(b"di").unwrap_err(),
        PidgitError::PathspecNotFound(b"di".to_vec())
    );

    let children = ws.list_dir(b"").unwrap();
    let names: Vec<(String, bool)> = (0..children.len())
        .map(|i| (text(children.key_at(i).clone()), *children.value_at(i)))
        .collect();
    assert_eq!(
        names,
        vec![
            ("dir".to_string(), true),
            ("dirt".to_string(), false),
            ("top.txt".to_string(), false)
        ]
    );
    let children = ws.list_dir(b"dir").unwrap();
    let names: Vec<(String, bool)> = (0..children.len())
        .map(|i| (text(children.key_at(i).clone()), *children.value_at(i)))
        .collect();
    assert_eq!(
        names,
        vec![("dir/one".to_string(), false), ("dir/sub".to_string(), true)]
    );
    let children = ws.list_dir(b"top.txt").unwrap();
    assert_eq!(children.len(), 1);
    assert!(ws.list_dir(b"nowhere").is_err());

    assert_eq!(ws.read_blob(b"dirt").unwrap().raw_content(), b"dirt".to_vec());
    assert!(ws.read_blob(b"dir").is_none());
    assert_eq!(ws.stat(b"top.txt"), Some(stat(0o100644)));
    ws.remove_file(b"top.txt");
    assert_eq!(ws.stat(b"top.txt"), None);

    assert!(is_ignored(b".pidgit"));
    assert!(is_ignored(b"target"));
    assert!(is_ignored(b".DS_Store"));
    assert!(is_ignored(b"a.b.swo"));
    assert!(!is_ignored(b".swo"));
    assert!(!is_ignored(b"swp"));
    assert!(!is_ignored(b"a.swpx"));
    assert!(is_visible(b"a/b/c"));
    assert!(!is_visible(b"a/target/c"));
    assert!(is_under(b"a", b"a/b"));
    assert!(is_under(b"a", b"a"));
    assert!(!is_under(b"a", b"ab"));
    assert!(is_under(b"", b"anything"));
}

#[test]
fn change_letters() {
    assert_eq!(ChangeType::Modified.display(), "M");
    assert_eq!(ChangeType::Deleted.display(), "D");
    assert_eq!(ChangeType::Added.display(), "A");
    assert_eq!(ChangeType::Untracked.display(), "?");
    assert_eq!(ChangeType::Modified.long_display(), "modified");
    assert_eq!(ChangeType::Deleted.long_display(), "deleted");
    assert_eq!(ChangeType::Added.long_display(), "new file");
    assert_eq!(ChangeType::Untracked.long_display(), "untracked file");
    assert_eq!(ChangeType::Added.letter(), b'A');
}

#[test]
fn listing_the_index() {
    let mut idx = Index::new(b"index".to_vec());
    assert_eq!(ls_files(&idx), Vec::<u8>::new());
    idx.add(IndexEntry::new(b"b".to_vec(), b"", &stat(0o100644)));
    idx.add(IndexEntry::new(b"a/c".to_vec(), b"", &stat(0o100644)));
    assert_eq!(ls_files(&idx), b"a/c\nb\n".to_vec());
    assert!(IndexEntry::name_is_ok(b"a/c"));
    assert!(!IndexEntry::name_is_ok(b""));
    assert!(!IndexEntry::name_is_ok(b"a\0c"));
}

#[test]
fn header_lines_of_a_commit() {
    let body = b"tree abc def\nparent p1\nparent p2 x\nauthor A <a@b> 1 +0000\n\
                 committer C <c@d> 2 +0100\n\nmessage\nmore\n";
    let raw = scan_headers(body);
    assert_eq!(raw.tree, Some(b"abc".to_vec()));
    assert_eq!(raw.parents, vec![b"p1".to_vec(), b"p2".to_vec()]);
    assert_eq!(raw.author, Some(b"A <a@b> 1 +0000".to_vec()));
    assert_eq!(raw.committer, Some(b"C <c@d> 2 +0100".to_vec()));
    assert_eq!(&body[raw.body_at..], b"message\nmore\n");

    // A line with another key ends the headers, and is no part of the
    // message.
    let raw = scan_headers(b"tree t\ngpgsig x\nauthor A <a@b> 1 +0000\n");
    assert_eq!(raw.tree, Some(b"t".to_vec()));
    assert_eq!(raw.author, None);
    assert_eq!(raw.body_at, 16);

    let raw = scan_headers(b"");
    assert_eq!(raw.tree, None);
    assert!(raw.parents.is_empty());
    assert_eq!(raw.body_at, 0);
}

#[test]
fn parts_of_an_author_line() {
    let parts = split_author_line(b"  Some One  < some@one.example >  1600000000 +0200 ").unwrap();
    assert_eq!(parts.name, b"Some One".to_vec());
    assert_eq!(parts.email, b"some@one.example".to_vec());
    assert_eq!(parts.stamp, b"1600000000 +0200".to_vec());

    let parts = split_author_line(b"<>").unwrap();
    assert_eq!(parts.name, Vec::<u8>::new());
    assert_eq!(parts.email, Vec::<u8>::new());
    assert_eq!(parts.stamp, Vec::<u8>::new());

    assert!(split_author_line(b"no brackets").is_none());
    assert!(split_author_line(b"Name <email").is_none());
    assert!(split_author_line(b"Name email>").is_none());

    // The stamp is read by chrono.
    let person = parse_author_line(b"N <e> 1600000000 -0330").unwrap();
    assert_eq!(person.timestamp, 1_600_000_000);
    assert_eq!(person.offset, -12_600);
    assert!(parse_author_line(b"N <e> yesterday").is_none());
    assert!(parse_author_line(b"N <e>").is_none());
}

#[test]
fn commit_from_its_parts() {
    let body = b"tree t\nauthor x\ncommitter y\n\nthe message".to_vec();
    let a = Person { name: b"A".to_vec(), email: b"a@x".to_vec(), timestamp: 1, offset: 0 };
    let c = Person { name: b"C".to_vec(), email: b"c@x".to_vec(), timestamp: 2, offset: 3600 };

    let raw = scan_headers(&body);
    let commit = Commit::from_parts(body.clone(), raw, Some(a.clone()), Some(c.clone())).unwrap();
    assert_eq!(commit.tree(), &b"t".to_vec());
    assert!(commit.parent_shas().is_empty());
    assert_eq!(commit.author(), &a);
    assert_eq!(commit.committer(), &c);
    assert_eq!(commit.message(), &b"the message".to_vec());
    assert_eq!(commit.raw_content(), body);

    let raw = scan_headers(&body);
    assert!(Commit::from_parts(body.clone(), raw, None, Some(c.clone())).is_none());
    let raw = scan_headers(&body);
    assert!(Commit::from_parts(body.clone(), raw, Some(a.clone()), None).is_none());
    let no_tree = b"author x\ncommitter y\n\nm".to_vec();
    let raw = scan_headers(&no_tree);
    assert!(Commit::from_parts(no_tree, raw, Some(a), Some(c)).is_none());
}

#[test]
fn framed_objects() {
    assert_eq!(Object::frame(ObjectKind::Blob, b"hello\n"), b"blob 6\0hello\n".to_vec());
    assert_eq!(Object::frame(ObjectKind::Tree, b""), b"tree 0\0".to_vec());
    assert_eq!(
        Object::unframe(b"commit 3\0abc"),
        Some((ObjectKind::Commit, b"abc".to_vec()))
    );
    assert_eq!(Object::unframe(b"tag 1\0x"), Some((ObjectKind::Tag, b"x".to_vec())));
    assert_eq!(Object::unframe(b"blob 6"), None);
    assert_eq!(Object::unframe(b"thing 1\0x"), None);
    // The stored form is not the framed form, and leads back to it.
    let stored = Object::to_loose(ObjectKind::Blob, b"hello\n");
    assert_ne!(stored, Object::frame(ObjectKind::Blob, b"hello\n"));
    let back = Object::from_git_db(&stored).unwrap();
    assert_eq!(back.kind(), ObjectKind::Blob);
    assert_eq!(back.raw_content(), b"hello\n".to_vec());
}

#[test]
fn paths_below_a_prefix() {
    let mut files = FileTree::new();
    files.write(b"objects/ab/cd2", vec![]);
    files.write(b"objects/ab/cd1", vec![]);
    files.write(b"objects/ab/ce", vec![]);
    files.write(b"objects/ac/cd", vec![]);
    assert_eq!(
        files.paths_under(b"objects/ab/cd"),
        vec![b"objects/ab/cd1".to_vec(), b"objects/ab/cd2".to_vec()]
    );
    assert!(files.paths_under(b"objects/zz").is_empty());
    assert_eq!(files.paths_under(b"").len(), 4);
}

#[test]
fn trees_in_any_order_of_the_paths() {
    let given = ["src/util/b.rs", "zed", "README", "src/lib.rs", "a.txt", "a/x", "src/util/a.rs"];
    let in_order = {
        let mut sorted = given.to_vec();
        sorted.sort();
        sorted
    };
    let make = |names: &[&str]| -> Vec<PathEntry> {
        names.iter().map(|n| entry(n, Mode::Normal, n.as_bytes())).collect()
    };
    let want = Tree::build_all(make(&in_order));
    let want_root = hex(&want[want.len() - 1].sha());

    let mut turned = given.to_vec();
    turned.reverse();
    for names in [given.to_vec(), turned, in_order.clone()] {
        let trees = Tree::build_all(make(&names));
        assert_eq!(trees.len(), want.len());
        for (t, w) in trees.iter().zip(want.iter()) {
            assert_eq!(t.label(), w.label());
            assert_eq!(t.raw_content(), w.raw_content());
        }
        assert_eq!(hex(&Tree::build(make(&names)).sha()), want_root);
    }

    // One record for each directory, and the records in the order of
    // their names, a directory counting with the slash after its name.
    let trees = Tree::build_all(make(&given));
    let labels: Vec<String> = trees.iter().map(|t| text(t.label().clone())).collect();
    assert_eq!(labels, vec!["a", "util", "src", ""]);
    let root = &trees[3];
    let names: Vec<String> = root.entries().iter().map(|e| text(e.path().clone())).collect();
    assert_eq!(names, vec!["README", "a.txt", "a", "src", "zed"]);
    let src = &trees[2];
    let names: Vec<String> = src.entries().iter().map(|e| text(e.path().clone())).collect();
    assert_eq!(names, vec!["lib.rs", "util"]);

    // Two files, the later name first.
    let trees = Tree::build_all(make(&["b", "a"]));
    let names: Vec<String> =
        trees[0].entries().iter().map(|e| text(e.path().clone())).collect();
    assert_eq!(names, vec!["a", "b"]);
}

#[test]
fn the_root_is_always_there() {
    let ws = Workspace::new(b"/w".to_vec());
    assert_eq!(ws.list_files().unwrap(), Vec::<Vec<u8>>::new());
    assert_eq!(ws.list_files_from_base(b".").unwrap(), Vec::<Vec<u8>>::new());
    assert_eq!(ws.list_files_from_base(b"").unwrap(), Vec::<Vec<u8>>::new());
    assert_eq!(ws.list_dir(b".").unwrap().len(), 0);
    assert_eq!(ws.list_dir(b"").unwrap().len(), 0);
    assert_eq!(
        ws.list_files_from_base(b"dir").unwrap_err(),
        PidgitError::PathspecNotFound(b"dir".to_vec())
    );
    assert!(ws.list_dir(b"dir").is_err());

    // Adding the root of a work tree without files does nothing.
    let mut repo = Repository::create_empty(b"/w".to_vec()).unwrap();
    let index_file = repo.files().read(b"index").unwrap().clone();
    assert_eq!(repo.add(b"."), Ok(()));
    assert_eq!(repo.add(b""), Ok(()));
    assert_eq!(repo.index().num_entries(), 0);
    assert_eq!(repo.files().len(), 3);
    assert_eq!(repo.files().read(b"index"), Some(&index_file));
    assert_eq!(
        repo.add(b"nowhere"),
        Err(PidgitError::PathspecNotFound(b"nowhere".to_vec()))
    );
}

#[test]
fn moments_as_they_stand_in_a_commit() {
    let stamp = |t: i64, o: i32| stamp_bytes(t, o).map(|v| String::from_utf8(v).unwrap());
    assert_eq!(stamp(1_600_000_000, 19_800), Some("1600000000 +0530".to_string()));
    assert_eq!(stamp(0, 0), Some("0 +0000".to_string()));
    assert_eq!(stamp(-5, -3600), Some("-5 -0100".to_string()));
    assert_eq!(stamp(7, 29), Some("7 +0000".to_string()));
    assert_eq!(stamp(7, 30), Some("7 +0001".to_string()));
    assert_eq!(stamp(7, -29), Some("7 -0000".to_string()));
    assert_eq!(stamp(7, -90), Some("7 -0002".to_string()));
    assert_eq!(stamp(7, 86_399), Some("7 +2400".to_string()));
    assert_eq!(stamp(7, 86_400), None);
    assert_eq!(stamp(7, -86_400), None);
    assert_eq!(
        stamp(i64::MIN, -86_399),
        Some("-9223372036854775808 -2400".to_string())
    );

    assert_eq!(checked_stamp(Some(b"7 +0001".to_vec()), 7, 30), Some(b"7 +0001".to_vec()));
    assert_eq!(checked_stamp(Some(b"7 +0000".to_vec()), 7, 30), None);
    assert_eq!(checked_stamp(None, 7, 30), None);
    assert_eq!(checked_stamp(Some(b"7 +2400".to_vec()), 7, 86_400), None);

    // What chrono writes is what is stated, also where seconds are
    // rounded; and chrono reads the moment from it, with the offset in whole
    // minutes.
    for (t, o, want) in [
        (1_600_000_000i64, 19_800i32, "1600000000 +0530"),
        (0, -3600, "0 -0100"),
        (7, 30, "7 +0001"),
        (7, -29, "7 -0000"),
        (7, -90, "7 -0002"),
        (7, 86_340, "7 +2359"),
        (0, -86_369, "0 -2359"),
    ] {
        let who = Person { name: b"N".to_vec(), email: b"e".to_vec(), timestamp: t, offset: o };
        let commit = Commit::new(b"t".to_vec(), vec![], who.clone(), who, b"m\n".to_vec())
            .expect("no commit");
        let body = String::from_utf8(commit.raw_content()).unwrap();
        assert_eq!(
            body,
            format!("tree t\nauthor N <e> {}\ncommitter N <e> {}\n\nm\n", want, want)
        );
        let back = Commit::from_content(commit.raw_content()).expect("not read");
        assert_eq!(back.author().timestamp, t);
        let minutes = if o < 0 { -((-o + 30) / 60) } else { (o + 30) / 60 };
        assert_eq!(back.author().offset, minutes * 60);
        assert_eq!(back.tree(), &b"t".to_vec());
        assert_eq!(back.message(), &b"m\n".to_vec());
    }
    // A moment before 1970 is written, and not read again: no commit.
    assert!(parse_author_line(b"N <e> -5 -0100").is_none());
    let early = Person { name: b"N".to_vec(), email: b"e".to_vec(), timestamp: -5, offset: 0 };
    assert!(Commit::new(b"t".to_vec(), vec![], early.clone(), early, b"m\n".to_vec()).is_none());
    let far = Person { name: b"N".to_vec(), email: b"e".to_vec(), timestamp: 1, offset: 86_400 };
    assert!(Commit::new(b"t".to_vec(), vec![], far.clone(), far, b"m\n".to_vec()).is_none());
    let late =
        Person { name: b"N".to_vec(), email: b"e".to_vec(), timestamp: i64::MAX, offset: 0 };
    assert!(Commit::new(b"t".to_vec(), vec![], late.clone(), late, b"m\n".to_vec()).is_none());
}

#[test]
fn no_branch_without_a_name() {
    let mut files = FileTree::new();
    let refs = Grefs::new(b"/w/.pidgit".to_vec());
    let sha = Sha::of(b"a commit");
    assert_eq!(
        refs.create_branch(&mut files, b"", &sha),
        Err(PidgitError::InvalidRefName(vec![]))
    );
    assert_eq!(files.len(), 0);
    assert!(!files.is_file(b"refs/heads/"));
    assert_eq!(refs.create_branch(&mut files, b"a", &sha), Ok(()));
    assert!(files.is_file(b"refs/heads/a"));
}
