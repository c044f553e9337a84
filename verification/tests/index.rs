use pidgit::errors::{IndexFault, PidgitError};
use pidgit::files::FileTree;
use pidgit::index::entry::IndexEntry;
use pidgit::index::meta::{EntryMeta, FileStat};
use pidgit::index::Index;
use pidgit::sha::Sha;

const EMPTY_SHA: &str = "e69de29bb2d1d6434b8b29ae775ad8c2e48c5391";

fn random_stat() -> FileStat {
    FileStat {
        ctime: 1_600_000_001,
        ctime_nsec: 5,
        mtime: 1_600_000_002,
        mtime_nsec: 6,
        dev: 0x1_0000_0007,
        ino: 77,
        mode: 0o100644,
        uid: 501,
        gid: 20,
        size: 0,
        is_dir: false,
        is_file: true,
    }
}

fn new_empty_index() -> Index {
    Index::new(b"index".to_vec())
}

fn new_empty_entry(basename: &str) -> IndexEntry {
    IndexEntry::new_from_data(
        basename.as_bytes().to_vec(),
        Sha::from_hex(EMPTY_SHA.as_bytes()).unwrap(),
        &random_stat(),
    )
}

fn index_with_entries(names: &[&str]) -> Index {
    let mut idx = new_empty_index();
    for name in names {
        idx.add(new_empty_entry(name));
    }
    idx
}

fn keys(idx: &Index) -> Vec<String> {
    idx.keys()
        .into_iter()
        .map(|k| String::from_utf8(k).unwrap())
        .collect()
}

fn parent_keys(idx: &Index) -> Vec<String> {
    idx.parent_dirs()
        .into_iter()
        .map(|k| String::from_utf8(k).unwrap())
        .collect()
}

#[test]
fn entry_from_path() {
    let entry = IndexEntry::new(b"foo.txt".to_vec(), b"", &random_stat());

    assert_eq!(entry.mode(), 0o100644);
    assert_eq!(entry.sha().hexdigest(), EMPTY_SHA.as_bytes().to_vec());
    assert!(entry.name().ends_with(b"foo.txt"));
}

#[test]
fn add_file() {
    let mut idx = new_empty_index();
    let entry = new_empty_entry("alice.txt");
    idx.add(entry);

    assert_eq!(idx.num_entries(), 1);
    assert_eq!(idx.has_changed(), true);
}

#[test]
fn replace_file_with_dir() {
    let mut idx = index_with_entries(&["alice.txt", "bob.txt"]);

    assert_eq!(idx.num_entries(), 2);
    assert_eq!(vec!["alice.txt", "bob.txt"], keys(&idx));

    idx.add(new_empty_entry("alice.txt/nested.txt"));

    assert_eq!(idx.num_entries(), 2);
    assert_eq!(vec!["alice.txt/nested.txt", "bob.txt"], keys(&idx));
}

#[test]
fn replace_dir_with_file() {
    let mut idx = index_with_entries(&["alice.txt", "nested/bob.txt"]);

    idx.add(new_empty_entry("nested"));

    assert_eq!(idx.num_entries(), 2);
    assert_eq!(vec!["alice.txt", "nested"], keys(&idx));
}

#[test]
fn replace_dir_with_file_recursive() {
    let mut idx = index_with_entries(&["alice.txt", "nested/bob.txt", "nested/inner/claire.txt"]);

    assert_eq!(vec!["nested", "nested/inner"], parent_keys(&idx));

    idx.add(new_empty_entry("nested"));

    assert_eq!(idx.num_entries(), 2);
    assert_eq!(vec!["alice.txt", "nested"], keys(&idx));
    assert!(idx.parent_dirs().is_empty());
}

#[test]
fn entries_stand_in_byte_order() {
    // A dot comes before a slash, a slash before a digit.
    let idx = index_with_entries(&["a0", "a/x", "b", "a.txt", "B", "a/b/c"]);
    assert_eq!(vec!["B", "a.txt", "a/b/c", "a/x", "a0", "b"], keys(&idx));
    assert_eq!(vec!["a", "a/b"], parent_keys(&idx));

    assert!(idx.is_tracked(b"a"));
    assert!(idx.is_tracked(b"a/b"));
    assert!(idx.is_tracked(b"a/x"));
    assert!(!idx.is_tracked_file(b"a"));
    assert!(idx.is_tracked_file(b"a/x"));
    assert!(!idx.is_tracked(b"a/"));
    assert!(!idx.is_tracked(b"a."));
    assert!(!idx.is_tracked(b""));
    assert!(idx.entry_for(b"a0").is_some());
    assert!(idx.entry_for(b"a1").is_none());
}

#[test]
fn no_name_lies_above_another() {
    let mut idx = index_with_entries(&["x/y/z", "x/w"]);
    idx.add(new_empty_entry("x/y"));
    assert_eq!(vec!["x/w", "x/y"], keys(&idx));
    idx.add(new_empty_entry("x/y/z/deep"));
    assert_eq!(vec!["x/w", "x/y/z/deep"], keys(&idx));
    idx.add(new_empty_entry("x"));
    assert_eq!(vec!["x"], keys(&idx));

    // Adding a name again puts the new entry in place of the old one.
    let mut other = random_stat();
    other.size = 12;
    idx.add(IndexEntry::new(b"x".to_vec(), b"hello world\n", &other));
    assert_eq!(idx.num_entries(), 1);
    assert_eq!(idx.entry_at(0).meta().size, 12);
}

#[test]
fn meta_is_cut_to_words() {
    let mut st = random_stat();
    st.mtime = -1;
    st.size = 0x2_0000_0003;
    let meta = EntryMeta::from_stat(&st);
    assert_eq!(meta.dev, 7);
    assert_eq!(meta.mtime_sec, 0xffff_ffff);
    assert_eq!(meta.size, 3);
    assert_eq!(meta.ino, 77);

    let bytes = meta.as_bytes();
    assert_eq!(bytes.len(), 40);
    assert_eq!(&bytes[0..4], &1_600_000_001u32.to_be_bytes());
    assert_eq!(&bytes[8..12], &[0xff, 0xff, 0xff, 0xff]);
    assert_eq!(&bytes[24..28], &0o100644u32.to_be_bytes());
    assert_eq!(EntryMeta::read(&bytes, 0), meta);
}

#[test]
fn entry_bytes() {
    let entry = new_empty_entry("foo.txt");
    let bytes = entry.as_bytes();
    // 62 bytes, the name and its NUL make 70; two more bring it to 72.
    assert_eq!(bytes.len(), 72);
    assert_eq!(&bytes[40..60], &Sha::from_hex(EMPTY_SHA.as_bytes()).unwrap().bytes()[..]);
    // The flags hold the length of the name and nothing else.
    assert_eq!(&bytes[60..62], &[0u8, 7u8]);
    assert_eq!(&bytes[62..69], b"foo.txt");
    assert_eq!(&bytes[69..72], &[0u8, 0, 0]);
    assert!(!entry.is_extended());

    // A name that fills the eight exactly gets its NUL and seven more.
    let entry = new_empty_entry("a");
    assert_eq!(entry.as_bytes().len(), 64);
    let entry = new_empty_entry("ab");
    assert_eq!(entry.as_bytes().len(), 72);

    // The length in the flags stops at 0xFFF.
    let long = "x".repeat(5000);
    let entry = new_empty_entry(&long);
    assert_eq!(&entry.as_bytes()[60..62], &[0x0fu8, 0xffu8]);
}

#[test]
fn entry_parents() {
    let entry = new_empty_entry("a/b/c.txt");
    assert_eq!(entry.parents(), vec![b"a".to_vec(), b"a/b".to_vec()]);
    assert!(new_empty_entry("plain").parents().is_empty());
}

fn empty_index_file() -> Vec<u8> {
    let mut bytes = b"DIRC".to_vec();
    bytes.extend_from_slice(&2u32.to_be_bytes());
    bytes.extend_from_slice(&0u32.to_be_bytes());
    let digest = Sha::of(&bytes).bytes();
    bytes.extend_from_slice(&digest);
    bytes
}

#[test]
fn an_empty_index_file() {
    let idx = new_empty_index();
    let bytes = idx.to_bytes();
    assert_eq!(bytes, empty_index_file());
    assert_eq!(bytes.len(), 32);
}

#[test]
fn written_and_read_back() {
    let idx = index_with_entries(&["b/c/d.txt", "a.txt", "b/e.txt", "zz"]);
    let bytes = idx.to_bytes();
    assert_eq!(&bytes[0..4], b"DIRC");
    assert_eq!(&bytes[4..8], &2u32.to_be_bytes());
    assert_eq!(&bytes[8..12], &4u32.to_be_bytes());
    assert_eq!(&bytes[bytes.len() - 20..], &Sha::of(&bytes[..bytes.len() - 20]).bytes()[..]);

    let back = Index::parse(b"index".to_vec(), &bytes).expect("could not read");
    assert_eq!(back.format_version(), 2);
    assert_eq!(keys(&back), keys(&idx));
    assert!(!back.has_changed());
    for i in 0..idx.num_entries() {
        assert_eq!(back.entry_at(i).as_bytes(), idx.entry_at(i).as_bytes());
    }
    assert_eq!(back.to_bytes(), bytes);
}

fn with_digest(mut body: Vec<u8>) -> Vec<u8> {
    let digest = Sha::of(&body).bytes();
    body.extend_from_slice(&digest);
    body
}

#[test]
fn extended_flags_are_kept_in_version_three() {
    let mut body = b"DIRC".to_vec();
    body.extend_from_slice(&3u32.to_be_bytes());
    body.extend_from_slice(&1u32.to_be_bytes());
    body.extend_from_slice(&[0u8; 40]);
    body.extend_from_slice(&[0xabu8; 20]);
    // The extended bit and a name of three bytes.
    body.extend_from_slice(&[0x40, 0x03]);
    body.extend_from_slice(&[0x20, 0x00]);
    body.extend_from_slice(b"abc\0");
    // 68 bytes so far; four more bring the entry to 72.
    body.extend_from_slice(&[0u8; 4]);
    let bytes = with_digest(body.clone());

    let idx = Index::parse(b"index".to_vec(), &bytes).expect("could not read");
    assert_eq!(idx.format_version(), 3);
    assert_eq!(keys(&idx), vec!["abc"]);
    assert!(idx.entry_at(0).is_extended());
    assert_eq!(idx.to_bytes(), bytes);

    // Version 2 has no extended flags.
    body[7] = 2;
    let bytes = with_digest(body);
    assert_eq!(
        Index::parse(b"index".to_vec(), &bytes).unwrap_err(),
        IndexFault::Malformed
    );
}

#[test]
fn index_faults() {
    let good = index_with_entries(&["a.txt"]).to_bytes();
    let parse = |b: &[u8]| Index::parse(b"index".to_vec(), b).map(|i| i.num_entries());

    assert_eq!(parse(&good), Ok(1));
    assert_eq!(parse(b""), Err(IndexFault::BadSignature));
    assert_eq!(parse(b"DIRX\0\0\0\x02\0\0\0\0"), Err(IndexFault::BadSignature));
    assert_eq!(parse(b"DIRC\0\0\0"), Err(IndexFault::Malformed));

    let mut bad = good.clone();
    bad[7] = 4;
    assert_eq!(parse(&bad), Err(IndexFault::UnsupportedVersion(4)));

    // One entry promised, none there.
    let mut short = b"DIRC".to_vec();
    short.extend_from_slice(&2u32.to_be_bytes());
    short.extend_from_slice(&1u32.to_be_bytes());
    assert_eq!(parse(&with_digest(short)), Err(IndexFault::Malformed));

    // No room for the digest.
    assert_eq!(parse(&good[..good.len() - 1]), Err(IndexFault::Malformed));

    let mut flipped = good.clone();
    let last = flipped.len() - 1;
    flipped[last] ^= 1;
    assert_eq!(parse(&flipped), Err(IndexFault::BadChecksum));

    assert_eq!(
        String::from_utf8(IndexFault::UnsupportedVersion(4).message()).unwrap(),
        "unsupported index version (want 2/3, have 4)"
    );
    assert_eq!(
        String::from_utf8(PidgitError::Index(IndexFault::BadSignature).message()).unwrap(),
        "could not parse index file: malformed index header"
    );
}

#[test]
fn load_and_write_through_the_lock() {
    let mut files = FileTree::new();
    let mut idx = new_empty_index();

    // No index file: nothing to load.
    assert_eq!(idx.load(&files), Ok(()));
    assert_eq!(idx.num_entries(), 0);

    // Nothing has changed: nothing is written.
    assert_eq!(idx.write(&mut files), Ok(()));
    assert!(!files.is_file(b"index"));

    idx.add(new_empty_entry("a/b.txt"));
    assert_eq!(idx.write(&mut files), Ok(()));
    assert_eq!(files.read(b"index"), Some(&idx.to_bytes()));
    assert!(!files.is_file(b"index.lock"));

    let mut other = new_empty_index();
    assert_eq!(other.load(&files), Ok(()));
    assert_eq!(keys(&other), vec!["a/b.txt"]);

    // A lock that is there stops the write.
    files.write(b"index.lock", vec![]);
    let before = files.read(b"index").cloned();
    assert_eq!(
        idx.force_write(&mut files),
        Err(PidgitError::Lock(b"index.lock".to_vec()))
    );
    assert_eq!(files.read(b"index").cloned(), before);

    // A file that cannot be read leaves the index as it was.
    files.write(b"index", b"junk".to_vec());
    assert_eq!(
        other.load(&files),
        Err(PidgitError::Index(IndexFault::BadSignature))
    );
    assert_eq!(keys(&other), vec!["a/b.txt"]);
    assert_eq!(
        other.reload(&files),
        Err(PidgitError::Index(IndexFault::BadSignature))
    );
    assert_eq!(other.num_entries(), 0);
}

#[test]
fn the_body_and_the_digest_of_an_index_file() {
    let idx = new_empty_index();
    let body = idx.body_bytes();
    assert_eq!(body, b"DIRC\0\0\0\x02\0\0\0\0".to_vec());
    let mut file = body.clone();
    file.extend_from_slice(&[7u8; 20]);

    // The digest that is handed in decides, not the one that is computed.
    let mut back = Index::new(b"index".to_vec());
    assert_eq!(back.read_with(&file, &[7u8; 20]), Ok(()));
    assert_eq!(back.num_entries(), 0);
    assert_eq!(back.read_with(&file, &[8u8; 20]), Err(IndexFault::BadChecksum));
    assert_eq!(back.read_from(&file), Err(IndexFault::BadChecksum));

    let idx = index_with_entries(&["b", "a"]);
    let body = idx.body_bytes();
    let mut file = body.clone();
    file.extend_from_slice(&[0u8; 20]);
    let mut back = Index::new(b"index".to_vec());
    assert_eq!(back.read_with(&file, &[0u8; 20]), Ok(()));
    assert_eq!(keys(&back), vec!["a", "b"]);
    assert_eq!(back.body_bytes(), body);
    assert_eq!(back.read_with(&file[..file.len() - 1], &[0u8; 20]), Err(IndexFault::Malformed));
    assert_eq!(back.read_with(b"DIRX", &[0u8; 20]), Err(IndexFault::BadSignature));
    // What could not be read leaves the index as it was.
    assert_eq!(keys(&back), vec!["a", "b"]);
}
