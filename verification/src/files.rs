//! The files of a repository directory, held in memory: a map from the
//! path of each regular file, relative to the directory, to what it holds.

use crate::bytes::{copy_bytes, has_prefix, lex_lt, starts_with};
use crate::pathmap::{ascending, lemma_map_at, PathMap};
use vstd::prelude::*;

verus! {

/// Regular files by path. A directory is there as far as a file lies in it.
#[derive(Debug)]
pub struct FileTree {
    files: PathMap<Vec<u8>>,
}

impl View for FileTree {
    type V = Map<Seq<u8>, Seq<u8>>;

    /// What each file holds, by path.
    closed spec fn view(&self) -> Map<Seq<u8>, Seq<u8>> {
        Map::new(
            |k: Seq<u8>| self.files.map().dom().contains(k),
            |k: Seq<u8>| self.files.map()[k]@,
        )
    }
}

impl FileTree {
    pub closed spec fn wf(&self) -> bool {
        self.files.wf()
    }

    /// The paths in ascending byte order.
    pub closed spec fn paths(&self) -> Seq<Seq<u8>> {
        self.files.keys()
    }

    /// The ordered paths are the paths of the map.
    pub proof fn lemma_paths(&self)
        requires
            self.wf(),
        ensures
            ascending(self.paths()),
            forall|p: Seq<u8>| self.paths().contains(p) <==> self@.dom().contains(p),
    {
    }

    /// No file at all.
    pub fn new() -> (t: FileTree)
        ensures
            t.wf(),
            t@ == Map::<Seq<u8>, Seq<u8>>::empty(),
    {
        let t = FileTree { files: PathMap::new() };
        assert(t@ =~= Map::<Seq<u8>, Seq<u8>>::empty());
        t
    }

    /// The number of files.
    pub fn len(&self) -> (n: usize)
        requires
            self.wf(),
        ensures
            n == self.paths().len(),
    {
        self.files.len()
    }

    /// The path at position `i` in ascending byte order.
    pub fn path_at(&self, i: usize) -> (p: &Vec<u8>)
        requires
            self.wf(),
            i < self.paths().len(),
        ensures
            p@ == self.paths()[i as int],
            self@.dom().contains(p@),
    {
        self.files.key_at(i)
    }

    /// What the file at position `i` holds.
    pub fn content_at(&self, i: usize) -> (c: &Vec<u8>)
        requires
            self.wf(),
            i < self.paths().len(),
        ensures
            c@ == self@[self.paths()[i as int]],
    {
        proof {
            lemma_map_at(self.files.keys(), self.files.vals(), i as int);
        }
        self.files.value_at(i)
    }

    /// Whether a regular file stands at `path`.
    pub fn is_file(&self, path: &[u8]) -> (r: bool)
        requires
            self.wf(),
        ensures
            r == self@.dom().contains(path@),
    {
        self.files.contains_key(path)
    }

    /// What the file at `path` holds, if there is one.
    pub fn read(&self, path: &[u8]) -> (r: Option<&Vec<u8>>)
        requires
            self.wf(),
        ensures
            r is Some <==> self@.dom().contains(path@),
            r matches Some(c) ==> c@ == self@[path@],
    {
        self.files.get(path)
    }

    /// Makes the file at `path` hold `content`, whether or not it was
    /// there.
    pub fn write(&mut self, path: &[u8], content: Vec<u8>)
        requires
            old(self).wf(),
        ensures
            final(self).wf(),
            final(self)@ == old(self)@.insert(path@, content@),
    {
        self.files.insert(copy_bytes(path), content);
        assert(self@ =~= old(self)@.insert(path@, content@));
    }

    /// Takes the file at `path` away; says whether it was there.
    pub fn remove(&mut self, path: &[u8]) -> (was: bool)
        requires
            old(self).wf(),
        ensures
            final(self).wf(),
            final(self)@ == old(self)@.remove(path@),
            was == old(self)@.dom().contains(path@),
    {
        let gone = self.files.remove(path);
        assert(self@ =~= old(self)@.remove(path@));
        gone.is_some()
    }

    /// Moves the file at `from` to `to`, over what was there. Where there
    /// is no file at `from`, nothing changes and the answer is `false`.
    pub fn rename(&mut self, from: &[u8], to: &[u8]) -> (moved: bool)
        requires
            old(self).wf(),
        ensures
            final(self).wf(),
            moved == old(self)@.dom().contains(from@),
            moved ==> final(self)@ == old(self)@.remove(from@).insert(to@, old(self)@[from@]),
            !moved ==> final(self)@ == old(self)@,
    {
        match self.files.remove(from) {
            Some(content) => {
                let ghost mid = self@;
                assert(mid =~= old(self)@.remove(from@));
                self.files.insert(copy_bytes(to), content);
                assert(self@ =~= mid.insert(to@, content@));
                true
            },
            None => {
                assert(self@ =~= old(self)@);
                false
            },
        }
    }

    /// Adds `data` to the end of the file at `path`; a file that is not
    /// there counts as empty.
    pub fn append(&mut self, path: &[u8], data: &[u8])
        requires
            old(self).wf(),
        ensures
            final(self).wf(),
            final(self)@ == old(self)@.insert(
                path@,
                (if old(self)@.dom().contains(path@) {
                    old(self)@[path@]
                } else {
                    Seq::empty()
                }) + data@,
            ),
    {
        let mut content = match self.files.remove(path) {
            Some(c) => c,
            None => Vec::new(),
        };
        let ghost mid = self@;
        assert(mid =~= old(self)@.remove(path@));
        let ghost base = if old(self)@.dom().contains(path@) {
            old(self)@[path@]
        } else {
            Seq::empty()
        };
        assert(content@ =~= base);
        content.extend_from_slice(data);
        let ghost full = content@;
        assert(full == base + data@);
        self.files.insert(copy_bytes(path), content);
        assert(self@ =~= old(self)@.insert(path@, full));
    }

    /// The paths that begin with `prefix`, in ascending byte order.
    pub fn paths_under(&self, prefix: &[u8]) -> (out: Vec<Vec<u8>>)
        requires
            self.wf(),
        ensures
            forall|i: int|
                0 <= i < out@.len() ==> self@.dom().contains(#[trigger] out@[i]@) && has_prefix(
                    out@[i]@,
                    prefix@,
                ),
            forall|p: Seq<u8>|
                self@.dom().contains(p) && has_prefix(p, prefix@) ==> exists|i: int|
                    0 <= i < out@.len() && #[trigger] out@[i]@ == p,
            forall|i: int, j: int|
                0 <= i < j < out@.len() ==> (#[trigger] out@[i]@) != (#[trigger] out@[j]@),
            forall|i: int, j: int|
                0 <= i < j < out@.len() ==> lex_lt(#[trigger] out@[i]@, #[trigger] out@[j]@),
    {
        proof {
            self.lemma_paths();
        }
        let mut out: Vec<Vec<u8>> = Vec::new();
        let n = self.files.len();
        let mut k: usize = 0;
        while k < n
            invariant
                self.wf(),
                n == self.paths().len(),
                k <= n,
                forall|i: int|
                    0 <= i < out@.len() ==> self@.dom().contains(#[trigger] out@[i]@)
                        && has_prefix(out@[i]@, prefix@) && exists|j: int|
                        0 <= j < k && self.paths()[j] == out@[i]@,
                forall|j: int|
                    0 <= j < k && has_prefix(#[trigger] self.paths()[j], prefix@) ==> exists|
                        i: int,
                    |
                        0 <= i < out@.len() && #[trigger] out@[i]@ == self.paths()[j],
                forall|i: int, j: int|
                    0 <= i < j < out@.len() ==> (#[trigger] out@[i]@) != (#[trigger] out@[j]@),
                forall|i: int, j: int|
                    0 <= i < j < out@.len() ==> lex_lt(#[trigger] out@[i]@, #[trigger] out@[j]@),
                ascending(self.paths()),
            decreases n - k,
        {
            let key = self.files.key_at(k);
            if starts_with(key.as_slice(), prefix) {
                let ghost before = out@;
                proof {
                    assert forall|i: int| 0 <= i < before.len() implies before[i]@ != key@ && lex_lt(
                        before[i]@,
                        key@,
                    ) by {
                        let j = choose|j: int| 0 <= j < k && self.paths()[j] == before[i]@;
                        lemma_lex_total_distinct(self.paths(), j, k as int);
                        assert(lex_lt(self.paths()[j], self.paths()[k as int]));
                    }
                }
                out.push(copy_bytes(key.as_slice()));
                proof {
                    assert forall|i: int, j: int| 0 <= i < j < out@.len() implies lex_lt(
                        #[trigger] out@[i]@,
                        #[trigger] out@[j]@,
                    ) by {
                        assert(out@[i] == before[i]);
                        if j < before.len() {
                            assert(out@[j] == before[j]);
                        }
                    }
                    assert forall|j: int|
                        0 <= j < k + 1 && has_prefix(
                            #[trigger] self.paths()[j],
                            prefix@,
                        ) implies exists|i: int|
                        0 <= i < out@.len() && #[trigger] out@[i]@ == self.paths()[j] by {
                        if j < k {
                            let i = choose|i: int|
                                0 <= i < before.len() && #[trigger] before[i]@ == self.paths()[j];
                            assert(out@[i]@ == self.paths()[j]);
                        } else {
                            assert(out@[before.len() as int]@ == self.paths()[j]);
                        }
                    }
                    assert forall|i: int| 0 <= i < out@.len() implies self@.dom().contains(
                        #[trigger] out@[i]@,
                    ) && has_prefix(out@[i]@, prefix@) && exists|j: int|
                        0 <= j < k + 1 && self.paths()[j] == out@[i]@ by {
                        if i < before.len() {
                            assert(out@[i] == before[i]);
                            let j = choose|j: int| 0 <= j < k && self.paths()[j] == before[i]@;
                            assert(self.paths()[j] == out@[i]@);
                        } else {
                            assert(self.paths()[k as int] == out@[i]@);
                            assert(self.paths().contains(key@));
                        }
                    }
                }
            }
            k += 1;
        }
        proof {
            assert forall|p: Seq<u8>|
                self@.dom().contains(p) && has_prefix(p, prefix@) implies exists|i: int|
                0 <= i < out@.len() && #[trigger] out@[i]@ == p by {
                assert(self.paths().contains(p));
                let j = choose|j: int| 0 <= j < self.paths().len() && self.paths()[j] == p;
                assert(has_prefix(self.paths()[j], prefix@));
            }
        }
        out
    }
}

/// Keys at different positions of an ascending sequence differ.
pub proof fn lemma_lex_total_distinct(keys: Seq<Seq<u8>>, i: int, j: int)
    requires
        ascending(keys),
        0 <= i < j < keys.len(),
    ensures
        keys[i] != keys[j],
{
    crate::bytes::lemma_lex_total(keys[i], keys[j]);
}

} // verus!
