//! The staging index: entries in ascending byte order of their names, and
//! the DIRC file that holds them.

pub mod codec;
pub mod entry;
pub mod flags;
pub mod meta;

use crate::bytes::{
    bytes_eq, copy_bytes, has_prefix, lit, matches_at, push_be32, read_be32, slice_range,
    starts_with, text,
};
use crate::errors::{IndexFault, PidgitError};
use crate::files::FileTree;
use crate::index::codec::{
    added_all, entries_bytes, file_entries, file_version, index_body, index_bytes,
    lemma_parse_written, parse_entry, parse_index, parse_index_with, parse_upto, read_entry,
    upto_pos,
};
use crate::lockfile::lock_path_of;
use crate::sha::Sha;
use crate::index::entry::{
    dir_prefix, entry_ok, in_conflict, is_parent_dir, lemma_no_prefix_at_rank, lemma_parent_prefix,
    EntryView, IndexEntry,
};
use crate::index::flags::is_extended;
use crate::index::meta::FileStat;
use crate::lockfile::Lockfile;
use crate::pathmap::{ascending, lemma_map_at, lemma_rank, rank, seq_map, PathMap};
use vstd::prelude::*;
use vstd::string::*;

verus! {

/// The directories that lie above at least one of the names, each with the
/// names below it.
pub open spec fn parents_of(names: Seq<Seq<u8>>) -> Map<Seq<u8>, Set<Seq<u8>>> {
    Map::new(
        |d: Seq<u8>| exists|i: int| 0 <= i < names.len() && is_parent_dir(d, #[trigger] names[i]),
        |d: Seq<u8>| Set::new(|k: Seq<u8>| names.contains(k) && is_parent_dir(d, k)),
    )
}

/// No name is a directory above another.
pub open spec fn conflict_free(names: Seq<Seq<u8>>) -> bool {
    forall|i: int, j: int|
        0 <= i < names.len() && 0 <= j < names.len() ==> !is_parent_dir(
            #[trigger] names[i],
            #[trigger] names[j],
        )
}

/// The entries after `e` was added: `e` under its name, and of the others
/// those whose name is neither above nor below the name of `e`.
pub open spec fn added(m: Map<Seq<u8>, EntryView>, e: EntryView) -> Map<Seq<u8>, EntryView> {
    Map::new(
        |k: Seq<u8>| k == e.name || (m.dom().contains(k) && !in_conflict(k, e.name)),
        |k: Seq<u8>|
            if k == e.name {
                e
            } else {
                m[k]
            },
    )
}

/// The version after an entry with the given flags was added: an entry
/// with extended flags needs version 3.
pub open spec fn version_with(version: u32, flags: u16) -> u32 {
    if is_extended(flags) {
        3
    } else {
        version
    }
}

/// The index: a map from names to entries, walked in ascending byte order
/// of the names.
#[derive(Debug)]
pub struct Index {
    version: u32,
    changed: bool,
    entries: PathMap<IndexEntry>,
    lockfile: Lockfile,
}

impl Index {
    /// The version of the file format, 2 or 3.
    pub closed spec fn version(&self) -> u32 {
        self.version
    }

    /// The names in ascending byte order.
    pub closed spec fn names(&self) -> Seq<Seq<u8>> {
        self.entries.keys()
    }

    /// The entries in ascending byte order of their names.
    pub closed spec fn model(&self) -> Seq<EntryView> {
        Seq::new(self.entries.vals().len(), |i: int| self.entries.vals()[i]@)
    }

    /// The entries by name.
    pub closed spec fn entry_map(&self) -> Map<Seq<u8>, EntryView> {
        Map::new(
            |k: Seq<u8>| self.entries.map().dom().contains(k),
            |k: Seq<u8>| self.entries.map()[k]@,
        )
    }

    /// Whether the index differs from what was last read or written.
    pub closed spec fn dirty(&self) -> bool {
        self.changed || self.entry_changed()
    }

    /// Whether the metadata of an entry was refreshed.
    pub closed spec fn entry_changed(&self) -> bool {
        exists|k: Seq<u8>|
            self.entries.map().dom().contains(k) && (#[trigger] self.entries.map()[k]).is_changed()
    }

    /// The path of the index file.
    pub closed spec fn path(&self) -> Seq<u8> {
        self.lockfile.target()
    }

    /// Whether a write of the index is under way.
    pub closed spec fn locked(&self) -> bool {
        self.lockfile.held()
    }

    /// The directories that lie above at least one entry, each with the
    /// names of the entries below it.
    pub open spec fn parents(&self) -> Map<Seq<u8>, Set<Seq<u8>>> {
        parents_of(self.names())
    }

    /// The invariant of the index. What it says of the entries is spelled
    /// out by `lemma_invariants`.
    pub closed spec fn wf(&self) -> bool {
        &&& self.entries.wf()
        &&& self.lockfile.wf()
        &&& (self.version == 2 || self.version == 3)
        &&& forall|k: Seq<u8>| #[trigger]
            self.entries.map().dom().contains(k) ==> {
                &&& self.entries.map()[k].wf()
                &&& self.entries.map()[k]@.name == k
                &&& (self.version == 2 ==> !is_extended(self.entries.map()[k]@.flags))
            }
        &&& forall|a: Seq<u8>, b: Seq<u8>|
            self.entries.map().dom().contains(a) && self.entries.map().dom().contains(b)
                ==> !#[trigger] is_parent_dir(a, b)
    }

    /// What holds of every index: the names ascend in byte order; no name
    /// is a directory above another; each entry stands under its own name;
    /// and the parents map knows every directory above every entry.
    pub proof fn lemma_invariants(&self)
        requires
            self.wf(),
        ensures
            ascending(self.names()),
            conflict_free(self.names()),
            self.names().len() == self.model().len(),
            forall|i: int|
                0 <= i < self.model().len() ==> (#[trigger] self.model()[i]).name == self.names()[i]
                    && entry_ok(self.model()[i]),
            self.version() == 2 || self.version() == 3,
            self.version() == 2 ==> forall|i: int|
                0 <= i < self.model().len() ==> !is_extended((#[trigger] self.model()[i]).flags),
            self.entry_map() == seq_map(self.names(), self.model()),
            forall|k: Seq<u8>| self.entry_map().dom().contains(k) <==> self.names().contains(k),
            forall|i: int, d: Seq<u8>|
                0 <= i < self.names().len() && is_parent_dir(d, #[trigger] self.names()[i])
                    ==> self.parents().dom().contains(d) && (#[trigger] self.parents()[d]).contains(
                    self.names()[i],
                ),
            forall|d: Seq<u8>, k: Seq<u8>|
                self.parents().dom().contains(d) && #[trigger] self.parents()[d].contains(k)
                    ==> self.names().contains(k) && is_parent_dir(d, k),
    {
        let keys = self.entries.keys();
        let vals = self.entries.vals();
        assert forall|i: int| 0 <= i < keys.len() implies self.entries.map().dom().contains(
            #[trigger] keys[i],
        ) && self.entries.map()[keys[i]] == vals[i] by {
            lemma_map_at(keys, vals, i);
        }
        assert forall|i: int| 0 <= i < self.model().len() implies (#[trigger] self.model()[i]).name
            == self.names()[i] && entry_ok(self.model()[i]) by {
            assert(self.entries.map().dom().contains(keys[i]));
            vals[i].lemma_wf();
        }
        assert forall|i: int, j: int| 0 <= i < keys.len() && 0 <= j < keys.len() implies !is_parent_dir(
            #[trigger] keys[i],
            #[trigger] keys[j],
        ) by {
            assert(self.entries.map().dom().contains(keys[i]));
            assert(self.entries.map().dom().contains(keys[j]));
        }
        if self.version() == 2 {
            assert forall|i: int| 0 <= i < self.model().len() implies !is_extended(
                (#[trigger] self.model()[i]).flags,
            ) by {
                assert(self.entries.map().dom().contains(keys[i]));
            }
        }
        assert forall|k: Seq<u8>| #[trigger]
            self.entry_map().dom().contains(k) implies self.entry_map()[k] == seq_map(
            self.names(),
            self.model(),
        )[k] by {
            lemma_rank(keys, k);
        }
        assert(self.entry_map() =~= seq_map(self.names(), self.model()));
    }

    /// An empty index of version 2 for the file at `path`.
    pub fn new(path: Vec<u8>) -> (idx: Index)
        ensures
            idx.wf(),
            idx.version() == 2,
            idx.names() == Seq::<Seq<u8>>::empty(),
            idx.model() == Seq::<EntryView>::empty(),
            idx.entry_map() == Map::<Seq<u8>, EntryView>::empty(),
            !idx.dirty(),
            !idx.locked(),
            idx.path() == path@,
    {
        let idx = Index {
            version: 2,
            changed: false,
            entries: PathMap::new(),
            lockfile: Lockfile::new(path),
        };
        assert(idx.model() =~= Seq::<EntryView>::empty());
        assert(idx.entry_map() =~= Map::<Seq<u8>, EntryView>::empty());
        idx
    }

    /// Takes out the entry named `key`, if there is one.
    fn remove_entry(&mut self, key: &[u8])
        requires
            old(self).wf(),
        ensures
            final(self).wf(),
            final(self).version == old(self).version,
            final(self).changed == old(self).changed,
            final(self).lockfile == old(self).lockfile,
            final(self).entries.map() == old(self).entries.map().remove(key@),
    {
        let _gone = self.entries.remove(key);
    }

    /// Takes out every entry whose name is a directory above `name`.
    fn remove_parents(&mut self, name: &[u8])
        requires
            old(self).wf(),
        ensures
            final(self).wf(),
            final(self).version == old(self).version,
            final(self).changed == old(self).changed,
            final(self).lockfile == old(self).lockfile,
            forall|k: Seq<u8>| #[trigger]
                final(self).entries.map().dom().contains(k) <==> (old(
                    self,
                ).entries.map().dom().contains(k) && !is_parent_dir(k, name@)),
            forall|k: Seq<u8>| #[trigger]
                final(self).entries.map().dom().contains(k) ==> final(self).entries.map()[k] == old(
                    self,
                ).entries.map()[k],
    {
        let ghost m0 = self.entries.map();
        let mut i: usize = 1;
        while i < name.len()
            invariant
                1 <= i,
                self.wf(),
                self.version == old(self).version,
                self.changed == old(self).changed,
                self.lockfile == old(self).lockfile,
                m0 == old(self).entries.map(),
                forall|k: Seq<u8>| #[trigger]
                    self.entries.map().dom().contains(k) <==> (m0.dom().contains(k) && !(
                    is_parent_dir(k, name@) && k.len() < i)),
                forall|k: Seq<u8>| #[trigger]
                    self.entries.map().dom().contains(k) ==> self.entries.map()[k] == m0[k],
            decreases name@.len() - i,
        {
            if name[i] == 0x2f {
                let dir = slice_range(name, 0, i);
                let ghost before = self.entries.map();
                self.remove_entry(dir.as_slice());
                proof {
                    assert forall|k: Seq<u8>| #[trigger]
                        self.entries.map().dom().contains(k) <==> (m0.dom().contains(k) && !(
                        is_parent_dir(k, name@) && k.len() < i + 1)) by {
                        assert(before.dom().contains(k) <==> (m0.dom().contains(k) && !(
                        is_parent_dir(k, name@) && k.len() < i)));
                    }
                    assert forall|k: Seq<u8>| #[trigger]
                        self.entries.map().dom().contains(k) implies self.entries.map()[k]
                        == m0[k] by {
                        assert(before.dom().contains(k));
                    }
                }
            }
            i += 1;
        }
    }

    /// Takes out every entry whose name lies below `name`.
    fn remove_children(&mut self, name: &[u8])
        requires
            old(self).wf(),
            name@.len() > 0,
        ensures
            final(self).wf(),
            final(self).version == old(self).version,
            final(self).changed == old(self).changed,
            final(self).lockfile == old(self).lockfile,
            forall|k: Seq<u8>| #[trigger]
                final(self).entries.map().dom().contains(k) <==> (old(
                    self,
                ).entries.map().dom().contains(k) && !is_parent_dir(name@, k)),
            forall|k: Seq<u8>| #[trigger]
                final(self).entries.map().dom().contains(k) ==> final(self).entries.map()[k] == old(
                    self,
                ).entries.map()[k],
    {
        let ghost m0 = self.entries.map();
        let mut prefix = copy_bytes(name);
        prefix.push(0x2f);
        assert(prefix@ == dir_prefix(name@));
        loop
            invariant_except_break
                self.wf(),
                self.version == old(self).version,
                self.changed == old(self).changed,
                self.lockfile == old(self).lockfile,
                m0 == old(self).entries.map(),
                prefix@ == dir_prefix(name@),
                forall|k: Seq<u8>| #[trigger]
                    self.entries.map().dom().contains(k) ==> m0.dom().contains(k)
                        && self.entries.map()[k] == m0[k],
                forall|k: Seq<u8>|
                    m0.dom().contains(k) && !has_prefix(k, prefix@)
                        ==> #[trigger] self.entries.map().dom().contains(k),
            ensures
                self.wf(),
                self.version == old(self).version,
                self.changed == old(self).changed,
                self.lockfile == old(self).lockfile,
                forall|k: Seq<u8>| #[trigger]
                    self.entries.map().dom().contains(k) ==> m0.dom().contains(k)
                        && self.entries.map()[k] == m0[k],
                forall|k: Seq<u8>|
                    m0.dom().contains(k) && !has_prefix(k, prefix@)
                        ==> #[trigger] self.entries.map().dom().contains(k),
                forall|k: Seq<u8>| #[trigger]
                    self.entries.map().dom().contains(k) ==> !has_prefix(k, prefix@),
            decreases self.entries.keys().len(),
        {
            let r = self.entries.lower_bound(prefix.as_slice());
            if r < self.entries.len() && starts_with(
                self.entries.key_at(r).as_slice(),
                prefix.as_slice(),
            ) {
                let ghost before = self.entries.map();
                let _gone = self.entries.remove_at(r);
                proof {
                    assert forall|k: Seq<u8>| #[trigger]
                        self.entries.map().dom().contains(k) implies m0.dom().contains(k)
                        && self.entries.map()[k] == m0[k] by {
                        assert(before.dom().contains(k));
                    }
                    assert forall|k: Seq<u8>|
                        m0.dom().contains(k) && !has_prefix(k, prefix@) implies #[trigger]
                        self.entries.map().dom().contains(k) by {
                        assert(before.dom().contains(k));
                    }
                }
            } else {
                proof {
                    lemma_no_prefix_at_rank(self.entries.keys(), prefix@);
                    assert forall|k: Seq<u8>| #[trigger]
                        self.entries.map().dom().contains(k) implies !has_prefix(k, prefix@) by {
                        assert(self.entries.keys().contains(k));
                    }
                }
                break;
            }
        }
        proof {
            assert forall|k: Seq<u8>| #[trigger]
                self.entries.map().dom().contains(k) <==> (m0.dom().contains(k) && !is_parent_dir(
                name@,
                k,
            )) by {
                lemma_parent_prefix(name@, k);
            }
        }
    }

    /// Adds an entry. Entries whose name is a directory above the new
    /// name, or lies below it, are taken out first, and so is an entry of
    /// the same name: the index cannot hold a file at a path and a file
    /// below that path.
    pub fn add(&mut self, entry: IndexEntry)
        requires
            old(self).wf(),
            entry.wf(),
        ensures
            final(self).wf(),
            final(self).entry_map() == added(old(self).entry_map(), entry@),
            final(self).version() == version_with(old(self).version(), entry@.flags),
            final(self).dirty(),
            final(self).entry_changed() ==> old(self).entry_changed() || entry.is_changed(),
            final(self).path() == old(self).path(),
            final(self).locked() == old(self).locked(),
    {
        proof {
            entry.lemma_wf();
        }
        self.changed = true;
        if entry.is_extended() {
            self.version = 3;
        }
        let name = copy_bytes(entry.name().as_slice());
        self.remove_parents(name.as_slice());
        self.remove_children(name.as_slice());
        let ghost mid = self.entries.map();
        self.entries.insert(name, entry);
        proof {
            assert(self.entries.map() == mid.insert(entry@.name, entry));
            assert forall|k: Seq<u8>| #[trigger] self.entries.map().dom().contains(k) implies {
                &&& self.entries.map()[k].wf()
                &&& self.entries.map()[k]@.name == k
                &&& (self.version == 2 ==> !is_extended(self.entries.map()[k]@.flags))
            } by {
                if k != entry@.name {
                    assert(mid.dom().contains(k));
                    assert(old(self).entries.map().dom().contains(k));
                }
            }
            assert forall|a: Seq<u8>, b: Seq<u8>|
                self.entries.map().dom().contains(a) && self.entries.map().dom().contains(
                    b,
                ) implies !#[trigger] is_parent_dir(a, b) by {
                if a != entry@.name {
                    assert(mid.dom().contains(a));
                    assert(old(self).entries.map().dom().contains(a));
                }
                if b != entry@.name {
                    assert(mid.dom().contains(b));
                    assert(old(self).entries.map().dom().contains(b));
                }
            }
            assert forall|k: Seq<u8>|
                self.entry_map().dom().contains(k) <==> added(
                    old(self).entry_map(),
                    entry@,
                ).dom().contains(k) by {
                if k != entry@.name {
                    assert(self.entries.map().dom().contains(k) <==> mid.dom().contains(k));
                }
            }
            assert forall|k: Seq<u8>| #[trigger]
                self.entry_map().dom().contains(k) implies self.entry_map()[k] == added(
                old(self).entry_map(),
                entry@,
            )[k] by {
                if k != entry@.name {
                    assert(mid.dom().contains(k));
                }
            }
            assert(self.entry_map() =~= added(old(self).entry_map(), entry@));
            if self.entry_changed() {
                let k = choose|k: Seq<u8>|
                    self.entries.map().dom().contains(k) && (#[trigger] self.entries.map()[k])
                        .is_changed();
                if k != entry@.name {
                    assert(mid.dom().contains(k));
                    assert(old(self).entries.map().dom().contains(k));
                }
            }
        }
    }

    /// The number of entries.
    pub fn num_entries(&self) -> (n: usize)
        requires
            self.wf(),
        ensures
            n == self.names().len(),
            n == self.model().len(),
    {
        self.entries.len()
    }

    /// The version of the file format.
    pub fn format_version(&self) -> (v: u32)
        ensures
            v == self.version(),
    {
        self.version
    }

    /// The name at position `i` in ascending byte order.
    pub fn key_at(&self, i: usize) -> (k: &Vec<u8>)
        requires
            self.wf(),
            i < self.names().len(),
        ensures
            k@ == self.names()[i as int],
    {
        self.entries.key_at(i)
    }

    /// The entry at position `i` in ascending byte order of the names.
    pub fn entry_at(&self, i: usize) -> (e: &IndexEntry)
        requires
            self.wf(),
            i < self.names().len(),
        ensures
            e@ == self.model()[i as int],
            e.wf(),
            e@.name == self.names()[i as int],
    {
        proof {
            lemma_map_at(self.entries.keys(), self.entries.vals(), i as int);
            assert(self.entries.map().dom().contains(self.entries.keys()[i as int]));
        }
        self.entries.value_at(i)
    }

    /// The names in ascending byte order.
    pub fn keys(&self) -> (out: Vec<Vec<u8>>)
        requires
            self.wf(),
        ensures
            out@.len() == self.names().len(),
            forall|i: int| 0 <= i < out@.len() ==> (#[trigger] out@[i])@ == self.names()[i],
    {
        let mut out: Vec<Vec<u8>> = Vec::new();
        let n = self.entries.len();
        let mut i: usize = 0;
        while i < n
            invariant
                self.wf(),
                n == self.names().len(),
                i <= n,
                out@.len() == i,
                forall|j: int| 0 <= j < i ==> (#[trigger] out@[j])@ == self.names()[j],
            decreases n - i,
        {
            out.push(copy_bytes(self.entries.key_at(i).as_slice()));
            i += 1;
        }
        out
    }

    /// Whether an entry of that name is in the index.
    pub fn is_tracked_file(&self, key: &[u8]) -> (r: bool)
        requires
            self.wf(),
        ensures
            r == self.entry_map().dom().contains(key@),
    {
        self.entries.contains_key(key)
    }

    /// Whether `key` names an entry, or a directory above an entry.
    pub fn is_tracked(&self, key: &[u8]) -> (r: bool)
        requires
            self.wf(),
        ensures
            r == (self.entry_map().dom().contains(key@) || self.parents().dom().contains(key@)),
    {
        if self.entries.contains_key(key) {
            return true;
        }
        if key.len() == 0 {
            return false;
        }
        let mut prefix = copy_bytes(key);
        prefix.push(0x2f);
        assert(prefix@ == dir_prefix(key@));
        let r = self.entries.lower_bound(prefix.as_slice());
        let found = r < self.entries.len() && starts_with(
            self.entries.key_at(r).as_slice(),
            prefix.as_slice(),
        );
        proof {
            let names = self.names();
            if found {
                lemma_parent_prefix(key@, names[r as int]);
                assert(is_parent_dir(key@, names[r as int]));
            } else {
                lemma_no_prefix_at_rank(names, prefix@);
                assert forall|i: int| 0 <= i < names.len() implies !is_parent_dir(
                    key@,
                    #[trigger] names[i],
                ) by {
                    lemma_parent_prefix(key@, names[i]);
                }
            }
        }
        found
    }

    /// The entry of that name, if there is one.
    pub fn entry_for(&self, key: &[u8]) -> (r: Option<&IndexEntry>)
        requires
            self.wf(),
        ensures
            r is Some <==> self.entry_map().dom().contains(key@),
            r matches Some(e) ==> e@ == self.entry_map()[key@] && e.wf(),
    {
        self.entries.get(key)
    }

    /// Whether the index, or the metadata of one of its entries, has
    /// changed since it was read or written.
    pub fn has_changed(&self) -> (r: bool)
        requires
            self.wf(),
        ensures
            r == self.dirty(),
    {
        if self.changed {
            return true;
        }
        let n = self.entries.len();
        let mut i: usize = 0;
        while i < n
            invariant
                self.wf(),
                n == self.entries.vals().len(),
                i <= n,
                forall|j: int| 0 <= j < i ==> !(#[trigger] self.entries.vals()[j]).is_changed(),
            decreases n - i,
        {
            if self.entries.value_at(i).has_changed() {
                proof {
                    lemma_map_at(self.entries.keys(), self.entries.vals(), i as int);
                    let k = self.entries.keys()[i as int];
                    assert(self.entries.map().dom().contains(k) && self.entries.map()[k].is_changed());
                }
                return true;
            }
            i += 1;
        }
        proof {
            if self.entry_changed() {
                let k = choose|k: Seq<u8>|
                    self.entries.map().dom().contains(k) && (#[trigger] self.entries.map()[k])
                        .is_changed();
                lemma_rank(self.entries.keys(), k);
            }
        }
        false
    }

    /// Gives the entry at position `i` the metadata of `stat`, and marks it
    /// as changed.
    pub fn update_meta_at(&mut self, i: usize, stat: &FileStat)
        requires
            old(self).wf(),
            i < old(self).names().len(),
        ensures
            final(self).wf(),
            final(self).version() == old(self).version(),
            final(self).names() == old(self).names(),
            final(self).model() == old(self).model().update(
                i as int,
                (EntryView { meta: crate::index::meta::meta_of(*stat), ..old(self).model()[i as int] }),
            ),
            final(self).dirty(),
            final(self).path() == old(self).path(),
            final(self).locked() == old(self).locked(),
    {
        proof {
            lemma_map_at(self.entries.keys(), self.entries.vals(), i as int);
            lemma_rank(self.entries.keys(), self.entries.keys()[i as int]);
        }
        let (key, mut entry) = self.entries.remove_at(i);
        let ghost mid = self.entries.map();
        let ghost mid_keys = self.entries.keys();
        entry.update_meta(stat);
        proof {
            lemma_rank(mid_keys, key@);
            crate::pathmap::lemma_keys_without(old(self).entries.keys(), key@);
            crate::pathmap::lemma_keys_with(mid_keys, key@);
        }
        self.entries.insert(key, entry);
        proof {
            let k0 = old(self).entries.keys();
            let r = rank(k0, key@);
            assert(r == i);
            // In the keys without `key`, the rank of `key` is where it stood.
            assert forall|j: int| 0 <= j < i implies crate::bytes::lex_lt(
                #[trigger] mid_keys[j],
                key@,
            ) by {
                assert(mid_keys[j] == k0[j]);
            }
            if (i as int) < mid_keys.len() {
                assert(mid_keys[i as int] == k0[i + 1]);
                crate::bytes::lemma_lex_total(mid_keys[i as int], key@);
            }
            crate::pathmap::lemma_rank_from_is(mid_keys, key@, 0, i as int);
            assert(self.entries.keys() =~= k0);
            assert(self.entries.vals() =~= old(self).entries.vals().update(i as int, entry));
            assert(self.model() =~= old(self).model().update(
                i as int,
                (EntryView {
                    meta: crate::index::meta::meta_of(*stat),
                    ..old(self).model()[i as int]
                }),
            ));
            assert forall|k: Seq<u8>| #[trigger] self.entries.map().dom().contains(k) implies {
                &&& self.entries.map()[k].wf()
                &&& self.entries.map()[k]@.name == k
                &&& (self.version == 2 ==> !is_extended(self.entries.map()[k]@.flags))
            } by {
                if k != key@ {
                    assert(mid.dom().contains(k));
                    assert(old(self).entries.map().dom().contains(k));
                } else {
                    assert(old(self).entries.map().dom().contains(k));
                }
            }
            assert forall|a: Seq<u8>, b: Seq<u8>|
                self.entries.map().dom().contains(a) && self.entries.map().dom().contains(
                    b,
                ) implies !#[trigger] is_parent_dir(a, b) by {
                assert(old(self).entries.map().dom().contains(a));
                assert(old(self).entries.map().dom().contains(b));
            }
            lemma_map_at(self.entries.keys(), self.entries.vals(), i as int);
            assert(self.entries.map()[key@].is_changed());
        }
    }

    /// The directories that lie above at least one entry, in ascending
    /// byte order.
    pub fn parent_dirs(&self) -> (out: Vec<Vec<u8>>)
        requires
            self.wf(),
        ensures
            forall|d: Seq<u8>|
                self.parents().dom().contains(d) <==> exists|i: int|
                    0 <= i < out@.len() && (#[trigger] out@[i])@ == d,
            forall|i: int, j: int|
                0 <= i < j < out@.len() ==> crate::bytes::lex_lt(
                    (#[trigger] out@[i])@,
                    (#[trigger] out@[j])@,
                ),
    {
        let mut dirs: PathMap<bool> = PathMap::new();
        let n = self.entries.len();
        let mut i: usize = 0;
        while i < n
            invariant
                self.wf(),
                dirs.wf(),
                n == self.names().len(),
                i <= n,
                forall|d: Seq<u8>| #[trigger]
                    dirs.map().dom().contains(d) <==> exists|j: int|
                        0 <= j < i && is_parent_dir(d, #[trigger] self.names()[j]),
            decreases n - i,
        {
            let name = self.entries.key_at(i);
            let above = crate::index::entry::dirs_above(name.as_slice());
            proof {
                crate::index::entry::lemma_ancestors(name@, name@.len() as int);
            }
            let ghost base = dirs.map();
            let mut j: usize = 0;
            while j < above.len()
                invariant
                    dirs.wf(),
                    j <= above@.len(),
                    above@.len() == crate::index::entry::ancestors(name@).len(),
                    forall|t: int|
                        0 <= t < above@.len() ==> (#[trigger] above@[t])@
                            == crate::index::entry::ancestors(name@)[t],
                    forall|d: Seq<u8>| #[trigger]
                        dirs.map().dom().contains(d) <==> (base.dom().contains(d) || exists|t: int|
                            0 <= t < j && crate::index::entry::ancestors(name@)[t] == d),
                decreases above@.len() - j,
            {
                let ghost before = dirs.map();
                dirs.insert(copy_bytes(above[j].as_slice()), true);
                proof {
                    let anc = crate::index::entry::ancestors(name@);
                    assert forall|d: Seq<u8>| #[trigger]
                        dirs.map().dom().contains(d) <==> (base.dom().contains(d) || exists|t: int|
                            0 <= t < j + 1 && anc[t] == d) by {
                        assert(before.dom().contains(d) <==> (base.dom().contains(d) || exists|
                            t: int,
                        |
                            0 <= t < j && anc[t] == d));
                        if d == anc[j as int] {
                            assert(0 <= j < j + 1 && anc[j as int] == d);
                        }
                    }
                }
                j += 1;
            }
            proof {
                let anc = crate::index::entry::ancestors(name@);
                assert forall|d: Seq<u8>| #[trigger]
                    dirs.map().dom().contains(d) <==> exists|t: int|
                        0 <= t < i + 1 && is_parent_dir(d, #[trigger] self.names()[t]) by {
                    assert(base.dom().contains(d) <==> exists|t: int|
                        0 <= t < i && is_parent_dir(d, #[trigger] self.names()[t]));
                    assert(anc.contains(d) <==> is_parent_dir(d, name@));
                    if dirs.map().dom().contains(d) && !base.dom().contains(d) {
                        let t = choose|t: int| 0 <= t < above@.len() && anc[t] == d;
                        assert(anc.contains(d));
                        assert(is_parent_dir(d, self.names()[i as int]));
                    }
                    if is_parent_dir(d, name@) {
                        let t = choose|t: int| 0 <= t < anc.len() && anc[t] == d;
                        assert(0 <= t < above@.len() && anc[t] == d);
                    }
                    if exists|t: int|
                        0 <= t < i + 1 && is_parent_dir(d, #[trigger] self.names()[t]) {
                        let t = choose|t: int|
                            0 <= t < i + 1 && is_parent_dir(d, #[trigger] self.names()[t]);
                        if t < i {
                            assert(base.dom().contains(d));
                        }
                    }
                }
            }
            i += 1;
        }
        let mut out: Vec<Vec<u8>> = Vec::new();
        let m = dirs.len();
        let mut k: usize = 0;
        while k < m
            invariant
                dirs.wf(),
                m == dirs.keys().len(),
                k <= m,
                out@.len() == k,
                forall|t: int| 0 <= t < k ==> (#[trigger] out@[t])@ == dirs.keys()[t],
            decreases m - k,
        {
            out.push(copy_bytes(dirs.key_at(k).as_slice()));
            k += 1;
        }
        proof {
            assert forall|d: Seq<u8>|
                self.parents().dom().contains(d) <==> exists|t: int|
                    0 <= t < out@.len() && (#[trigger] out@[t])@ == d by {
                assert(dirs.map().dom().contains(d) <==> dirs.keys().contains(d));
                if dirs.keys().contains(d) {
                    let t = choose|t: int| 0 <= t < dirs.keys().len() && dirs.keys()[t] == d;
                    assert(out@[t]@ == d);
                }
                if exists|t: int| 0 <= t < out@.len() && (#[trigger] out@[t])@ == d {
                    let t = choose|t: int| 0 <= t < out@.len() && (#[trigger] out@[t])@ == d;
                    assert(dirs.keys()[t] == d);
                }
            }
        }
        out
    }

    /// The index file for this index: signature, version, number of
    /// entries, the entries in ascending order, and the SHA-1 of all of
    /// that. Reading the file gives this version and these entries again.
    pub fn to_bytes(&self) -> (out: Vec<u8>)
        requires
            self.wf(),
            self.names().len() <= u32::MAX,
        ensures
            out@ == index_bytes(self.version(), self.model()),
            parse_index(out@) == Ok::<(u32, Seq<EntryView>), IndexFault>(
                (self.version(), self.model()),
            ),
    {
        proof {
            self.lemma_invariants();
        }
        let mut out = self.body_bytes();
        let digest = Sha::of(out.as_slice()).bytes();
        proof {
            lemma_parse_written(self.version(), self.model(), digest@);
        }
        out.extend_from_slice(digest.as_slice());
        out
    }

    /// The index file without the checksum at its end: signature, version,
    /// number of entries, and the entries in ascending order.
    pub fn body_bytes(&self) -> (out: Vec<u8>)
        requires
            self.wf(),
            self.names().len() <= u32::MAX,
        ensures
            out@ == index_body(self.version(), self.model()),
    {
        proof {
            reveal_strlit("DIRC");
            self.lemma_invariants();
        }
        let n = self.entries.len();
        let mut out = lit("DIRC");
        push_be32(&mut out, self.version);
        push_be32(&mut out, n as u32);
        let ghost head = out@;
        let mut i: usize = 0;
        while i < n
            invariant
                self.wf(),
                n == self.names().len(),
                n == self.model().len(),
                i <= n,
                out@ == head + entries_bytes(self.model().subrange(0, i as int)),
            decreases n - i,
        {
            let bytes = self.entry_at(i).as_bytes();
            out.extend_from_slice(bytes.as_slice());
            proof {
                let next = self.model().subrange(0, i + 1);
                assert(next.drop_last() =~= self.model().subrange(0, i as int));
                assert(out@ =~= head + entries_bytes(next));
            }
            i += 1;
        }
        proof {
            assert(self.model().subrange(0, n as int) =~= self.model());
            assert(out@ =~= index_body(self.version(), self.model()));
        }
        out
    }

    /// Reads an index file into a fresh index for the file at `path`: the
    /// entries of the file are added one by one, in the order of the file.
    pub fn parse(path: Vec<u8>, b: &[u8]) -> (r: Result<Index, IndexFault>)
        ensures
            match r {
                Ok(idx) => {
                    &&& parse_index(b@) is Ok
                    &&& idx.wf()
                    &&& idx.version() == file_version(b@)
                    &&& idx.entry_map() == added_all(Map::empty(), file_entries(b@))
                    &&& !idx.dirty()
                    &&& !idx.locked()
                    &&& idx.path() == path@
                },
                Err(fault) => parse_index(b@) == Err::<(u32, Seq<EntryView>), IndexFault>(fault),
            },
    {
        let mut idx = Index::new(path);
        match idx.read_from(b) {
            Ok(()) => Ok(idx),
            Err(fault) => Err(fault),
        }
    }

    /// Puts the entries of an index file in place of those of this index:
    /// they are added to an empty index one by one, in the order of the
    /// file. The version is that of the file, and the index counts as
    /// unchanged afterwards. Where the file cannot be read, the index
    /// stays as it is.
    pub fn read_from(&mut self, b: &[u8]) -> (r: Result<(), IndexFault>)
        requires
            old(self).wf(),
        ensures
            final(self).wf(),
            final(self).path() == old(self).path(),
            final(self).locked() == old(self).locked(),
            match r {
                Ok(()) => {
                    &&& parse_index(b@) is Ok
                    &&& final(self).version() == file_version(b@)
                    &&& final(self).entry_map() == added_all(Map::empty(), file_entries(b@))
                    &&& !final(self).dirty()
                },
                Err(fault) => {
                    &&& parse_index(b@) == Err::<(u32, Seq<EntryView>), IndexFault>(fault)
                    &&& final(self).version() == old(self).version()
                    &&& final(self).entry_map() == old(self).entry_map()
                    &&& final(self).dirty() == old(self).dirty()
                },
            },
    {
        let len = b.len();
        let body = if len >= 20 {
            slice_range(b, 0, len - 20)
        } else {
            Vec::new()
        };
        let digest = Sha::of(body.as_slice()).bytes();
        self.read_with(b, digest.as_slice())
    }

    /// Reads an index file of which the SHA-1 of all that stands before
    /// its last twenty bytes is given, and puts its entries in place of
    /// those of this index. Where the file cannot be read, the index stays
    /// as it is.
    pub fn read_with(&mut self, b: &[u8], digest: &[u8]) -> (r: Result<(), IndexFault>)
        requires
            old(self).wf(),
        ensures
            final(self).wf(),
            final(self).path() == old(self).path(),
            final(self).locked() == old(self).locked(),
            match r {
                Ok(()) => {
                    &&& parse_index_with(b@, digest@) matches Ok(pair) && final(self).version()
                        == pair.0 && final(self).entry_map() == added_all(Map::empty(), pair.1)
                    &&& !final(self).dirty()
                },
                Err(fault) => {
                    &&& parse_index_with(b@, digest@) == Err::<(u32, Seq<EntryView>), IndexFault>(
                        fault,
                    )
                    &&& final(self).version() == old(self).version()
                    &&& final(self).entry_map() == old(self).entry_map()
                    &&& final(self).dirty() == old(self).dirty()
                },
            },
    {
        proof {
            reveal_strlit("DIRC");
        }
        let len = b.len();
        let sig = lit("DIRC");
        if !matches_at(b, sig.as_slice(), 0) {
            return Err(IndexFault::BadSignature);
        }
        if len < 12 {
            return Err(IndexFault::Malformed);
        }
        let version = read_be32(b, 4);
        if version != 2 && version != 3 {
            return Err(IndexFault::UnsupportedVersion(version));
        }
        let count = read_be32(b, 8);
        let mut parsed: Vec<IndexEntry> = Vec::new();
        let mut pos: usize = 12;
        let mut k: u32 = 0;
        let ghost mut es: Seq<EntryView> = Seq::empty();
        while k < count
            invariant
                *self == *old(self),
                self.wf(),
                b@.len() >= 12,
                b@.subrange(0, 4) == text("DIRC"@),
                version == crate::index::meta::word_at(b@, 4),
                count == crate::index::meta::word_at(b@, 8),
                version == 2 || version == 3,
                k <= count,
                len == b@.len(),
                pos <= len,
                parse_upto(b@, version, k as nat) == Some((es, pos as int)),
                es.len() == parsed@.len(),
                forall|i: int|
                    0 <= i < parsed@.len() ==> (#[trigger] parsed@[i])@ == es[i] && parsed@[i].wf()
                        && !parsed@[i].is_changed(),
                forall|i: int|
                    0 <= i < es.len() ==> (is_extended((#[trigger] es[i]).flags) ==> version == 3),
            decreases count - k,
        {
            match read_entry(b, pos, version) {
                None => {
                    proof {
                        lemma_parse_fails(b@, version, k as nat, count as nat);
                    }
                    return Err(IndexFault::Malformed);
                },
                Some((entry, next)) => {
                    proof {
                        assert(parse_upto(b@, version, (k + 1) as nat) == Some(
                            (es.push(entry@), next as int),
                        ));
                        es = es.push(entry@);
                    }
                    parsed.push(entry);
                    pos = next;
                },
            }
            k += 1;
        }
        if len - pos < 20 {
            return Err(IndexFault::Malformed);
        }
        let have = slice_range(b, len - 20, len);
        if !bytes_eq(have.as_slice(), digest) {
            return Err(IndexFault::BadChecksum);
        }
        assert(parse_index_with(b@, digest@) == Ok::<(u32, Seq<EntryView>), IndexFault>(
            (version, es),
        ));
        self.version = version;
        self.entries = PathMap::new();
        self.changed = false;
        assert(self.entry_map() =~= Map::<Seq<u8>, EntryView>::empty());
        // The entries are taken from the back of `parsed`, so they are
        // turned round first.
        let mut stack: Vec<IndexEntry> = Vec::new();
        while parsed.len() > 0
            invariant
                parsed@.len() + stack@.len() == es.len(),
                forall|i: int| 0 <= i < parsed@.len() ==> (#[trigger] parsed@[i])@ == es[i],
                forall|i: int|
                    0 <= i < stack@.len() ==> (#[trigger] stack@[i])@ == es[es.len() - 1 - i],
                forall|i: int|
                    0 <= i < parsed@.len() ==> (#[trigger] parsed@[i]).wf()
                        && !parsed@[i].is_changed(),
                forall|i: int|
                    0 <= i < stack@.len() ==> (#[trigger] stack@[i]).wf() && !stack@[i].is_changed(),
            decreases parsed@.len(),
        {
            let e = parsed.pop().unwrap();
            stack.push(e);
        }
        let ghost total = es.len();
        while stack.len() > 0
            invariant
                self.wf(),
                self.version == version,
                self.path() == old(self).path(),
                self.locked() == old(self).locked(),
                !self.entry_changed(),
                stack@.len() <= total,
                total == es.len(),
                forall|i: int|
                    0 <= i < stack@.len() ==> (#[trigger] stack@[i])@ == es[es.len() - 1 - i],
                forall|i: int|
                    0 <= i < stack@.len() ==> (#[trigger] stack@[i]).wf() && !stack@[i].is_changed(),
                forall|i: int|
                    0 <= i < es.len() ==> (is_extended((#[trigger] es[i]).flags) ==> version == 3),
                self.entry_map() == added_all(Map::empty(), es.subrange(0, total - stack@.len())),
            decreases stack@.len(),
        {
            let ghost done = total - stack@.len();
            let e = stack.pop().unwrap();
            assert(e@ == es[done]);
            self.add(e);
            proof {
                let next = es.subrange(0, done + 1);
                assert(next.drop_last() =~= es.subrange(0, done));
                assert(next.last() == es[done]);
            }
        }
        proof {
            assert(es.subrange(0, total as int) =~= es);
        }
        self.changed = false;
        Ok(())
    }

    /// Empties the index and reads the index file again. An index whose
    /// file is not there is empty afterwards.
    pub fn reload(&mut self, files: &FileTree) -> (r: Result<(), PidgitError>)
        requires
            old(self).wf(),
            files.wf(),
        ensures
            final(self).wf(),
            final(self).path() == old(self).path(),
            final(self).locked() == old(self).locked(),
            reloaded(*old(self), *final(self), files@, r),
    {
        self.entries = PathMap::new();
        self.changed = false;
        assert(self.entry_map() =~= Map::<Seq<u8>, EntryView>::empty());
        self.load(files)
    }

    /// Reads the index file and puts its entries in place of those of this
    /// index. Where the file is not there, the index stays as it is; where
    /// a write of the index is under way, or the file cannot be read, that
    /// is the error, and the index stays as it is too.
    pub fn load(&mut self, files: &FileTree) -> (r: Result<(), PidgitError>)
        requires
            old(self).wf(),
            files.wf(),
        ensures
            final(self).wf(),
            final(self).path() == old(self).path(),
            final(self).locked() == old(self).locked(),
            loaded(*old(self), *final(self), files@, r),
    {
        let content = match files.read(self.lockfile.path().as_slice()) {
            None => {
                return Ok(());
            },
            Some(c) => c,
        };
        if self.lockfile.is_locked() {
            return Err(PidgitError::Index(IndexFault::Locked));
        }
        match self.read_from(content.as_slice()) {
            Ok(()) => Ok(()),
            Err(fault) => Err(PidgitError::Index(fault)),
        }
    }

    /// Writes the index file if the index has changed since it was read.
    /// The index counts as changed after that as it did before.
    pub fn write(&mut self, files: &mut FileTree) -> (r: Result<(), PidgitError>)
        requires
            old(self).wf(),
            old(self).names().len() <= u32::MAX,
            old(files).wf(),
        ensures
            final(self).wf(),
            final(files).wf(),
            final(self).version() == old(self).version(),
            final(self).names() == old(self).names(),
            final(self).model() == old(self).model(),
            final(self).entry_map() == old(self).entry_map(),
            final(self).path() == old(self).path(),
            final(self).dirty() == old(self).dirty(),
            !old(self).dirty() ==> r is Ok && final(files)@ == old(files)@ && final(self).locked()
                == old(self).locked(),
            old(self).dirty() ==> written(*old(self), *final(self), old(files)@, final(files)@, r),
    {
        if !self.has_changed() {
            return Ok(());
        }
        self.force_write(files)
    }

    /// Writes the index file through its lock: the bytes go to the lock
    /// file, which is then moved over the index file. Fails, and changes
    /// nothing, where the lock file is there already.
    pub fn force_write(&mut self, files: &mut FileTree) -> (r: Result<(), PidgitError>)
        requires
            old(self).wf(),
            old(self).names().len() <= u32::MAX,
            old(files).wf(),
        ensures
            final(self).wf(),
            final(files).wf(),
            final(self).version() == old(self).version(),
            final(self).names() == old(self).names(),
            final(self).model() == old(self).model(),
            final(self).entry_map() == old(self).entry_map(),
            final(self).path() == old(self).path(),
            final(self).dirty() == old(self).dirty(),
            written(*old(self), *final(self), old(files)@, final(files)@, r),
    {
        proof {
            reveal_strlit(".lock");
        }
        let bytes = self.to_bytes();
        let mut lock = match self.lockfile.lock(files) {
            Ok(l) => l,
            Err(e) => {
                return Err(e);
            },
        };
        lock.write(files, bytes.as_slice());
        let ghost staged = files@;
        let done = lock.commit(&mut self.lockfile, files);
        proof {
            let lp = lock_path_of(self.path());
            assert(lp.len() == self.path().len() + 5);
            assert(lp != self.path());
            assert(Seq::<u8>::empty() + bytes@ =~= bytes@);
            assert(staged.dom().contains(lp));
            assert(files@ =~= old(files)@.insert(self.path(), bytes@));
        }
        done
    }
}

/// What `load` does: nothing where the index file is not there; an error
/// where a write is under way or the file cannot be read; else the index
/// holds the entries of the file, added one by one, the version is that of
/// the file, and the index counts as unchanged.
pub open spec fn loaded(
    before: Index,
    after: Index,
    files: Map<Seq<u8>, Seq<u8>>,
    r: Result<(), PidgitError>,
) -> bool {
    if !files.dom().contains(before.path()) {
        &&& r is Ok
        &&& after.version() == before.version()
        &&& after.entry_map() == before.entry_map()
        &&& after.dirty() == before.dirty()
    } else if before.locked() {
        &&& r == Err::<(), PidgitError>(PidgitError::Index(IndexFault::Locked))
        &&& after.version() == before.version()
        &&& after.entry_map() == before.entry_map()
        &&& after.dirty() == before.dirty()
    } else {
        match parse_index(files[before.path()]) {
            Ok((version, es)) => {
                &&& r is Ok
                &&& after.version() == version
                &&& after.entry_map() == added_all(Map::empty(), es)
                &&& !after.dirty()
            },
            Err(fault) => {
                &&& r == Err::<(), PidgitError>(PidgitError::Index(fault))
                &&& after.version() == before.version()
                &&& after.entry_map() == before.entry_map()
                &&& after.dirty() == before.dirty()
            },
        }
    }
}

/// What `reload` does: the index is emptied, then loaded.
pub open spec fn reloaded(
    before: Index,
    after: Index,
    files: Map<Seq<u8>, Seq<u8>>,
    r: Result<(), PidgitError>,
) -> bool {
    if !files.dom().contains(before.path()) {
        &&& r is Ok
        &&& after.version() == before.version()
        &&& after.entry_map() == Map::<Seq<u8>, EntryView>::empty()
        &&& !after.dirty()
    } else if before.locked() {
        &&& r == Err::<(), PidgitError>(PidgitError::Index(IndexFault::Locked))
        &&& after.version() == before.version()
        &&& after.entry_map() == Map::<Seq<u8>, EntryView>::empty()
        &&& !after.dirty()
    } else {
        match parse_index(files[before.path()]) {
            Ok((version, es)) => {
                &&& r is Ok
                &&& after.version() == version
                &&& after.entry_map() == added_all(Map::empty(), es)
                &&& !after.dirty()
            },
            Err(fault) => {
                &&& r == Err::<(), PidgitError>(PidgitError::Index(fault))
                &&& after.version() == before.version()
                &&& after.entry_map() == Map::<Seq<u8>, EntryView>::empty()
                &&& !after.dirty()
            },
        }
    }
}

/// What a write of the index does: where the lock file is there already,
/// an error and no change; else the index file holds the bytes of the
/// index, the lock file is gone and the lock is free.
pub open spec fn written(
    before: Index,
    after: Index,
    files: Map<Seq<u8>, Seq<u8>>,
    files_after: Map<Seq<u8>, Seq<u8>>,
    r: Result<(), PidgitError>,
) -> bool {
    if files.dom().contains(lock_path_of(before.path())) {
        &&& r matches Err(PidgitError::Lock(p)) && p@ == lock_path_of(before.path())
        &&& files_after == files
        &&& after.locked() == before.locked()
    } else {
        &&& r is Ok
        &&& files_after == files.insert(
            before.path(),
            index_bytes(before.version(), before.model()),
        )
        &&& !after.locked()
    }
}

/// Where the first `k` entries cannot be read, no greater number can.
pub proof fn lemma_parse_fails(b: Seq<u8>, version: u32, k: nat, n: nat)
    requires
        k < n,
        parse_upto(b, version, k) is Some,
        parse_entry(b, upto_pos(b, version, k), version) is None,
    ensures
        parse_upto(b, version, n) is None,
    decreases n - k,
{
    assert(parse_upto(b, version, k + 1) is None);
    if k + 1 < n {
        lemma_parse_none(b, version, k + 1, n);
    }
}

proof fn lemma_parse_none(b: Seq<u8>, version: u32, k: nat, n: nat)
    requires
        k <= n,
        parse_upto(b, version, k) is None,
    ensures
        parse_upto(b, version, n) is None,
    decreases n - k,
{
    if k < n {
        assert(parse_upto(b, version, k + 1) is None);
        lemma_parse_none(b, version, k + 1, n);
    }
}

/// Entries that ascend by name and stand in no conflict are, added one by
/// one, the map of those entries: reading an index that was written gives
/// the entries that were written.
pub proof fn lemma_added_all_sorted(names: Seq<Seq<u8>>, es: Seq<EntryView>)
    requires
        ascending(names),
        conflict_free(names),
        names.len() == es.len(),
        forall|i: int| 0 <= i < es.len() ==> (#[trigger] es[i]).name == names[i],
    ensures
        added_all(Map::empty(), es) == seq_map(names, es),
    decreases es.len(),
{
    if es.len() == 0 {
        assert(seq_map(names, es) =~= Map::<Seq<u8>, EntryView>::empty());
    } else {
        let n2 = names.drop_last();
        let e2 = es.drop_last();
        lemma_added_all_sorted(n2, e2);
        let last = es.last();
        crate::pathmap::lemma_keys_with_last(n2, last.name);
        crate::pathmap::lemma_map_with(n2, e2, last.name, last);
        assert(n2.push(last.name) =~= names);
        assert(e2.insert(e2.len() as int, last) =~= es);
        let m = seq_map(n2, e2);
        assert forall|k: Seq<u8>| #[trigger]
            m.dom().contains(k) implies !in_conflict(k, last.name) by {
            let i = choose|i: int| 0 <= i < n2.len() && n2[i] == k;
            assert(names[i] == k);
            assert(names[names.len() - 1] == last.name);
        }
        assert(added(m, last) =~= m.insert(last.name, last));
    }
}

/// An index that was loaded from the file of another writes the same
/// file.
pub proof fn lemma_round_trip(a: &Index, b: &Index)
    requires
        a.wf(),
        b.wf(),
        b.version() == a.version(),
        b.entry_map() == added_all(Map::empty(), a.model()),
    ensures
        b.names() == a.names(),
        b.model() == a.model(),
        index_bytes(b.version(), b.model()) == index_bytes(a.version(), a.model()),
{
    a.lemma_invariants();
    b.lemma_invariants();
    lemma_added_all_sorted(a.names(), a.model());
    crate::pathmap::lemma_same_map(a.names(), a.model(), b.names(), b.model());
}

/// Write, load, write. An index that is loaded from the file that another
/// index wrote holds the entries of that index, has nothing to write, and
/// where it is written all the same, writes the bytes of that file again.
pub proof fn lemma_load_then_write(
    a: Index,
    before: Index,
    after: Index,
    files: Map<Seq<u8>, Seq<u8>>,
    r: Result<(), PidgitError>,
)
    requires
        a.wf(),
        before.wf(),
        after.wf(),
        a.names().len() <= u32::MAX,
        !before.locked(),
        files.dom().contains(before.path()),
        files[before.path()] == index_bytes(a.version(), a.model()),
        crate::sha::sha1_of(index_body(a.version(), a.model())).len() == 20,
        loaded(before, after, files, r),
    ensures
        r is Ok,
        !after.dirty(),
        after.version() == a.version(),
        after.names() == a.names(),
        after.model() == a.model(),
        index_bytes(after.version(), after.model()) == files[before.path()],
{
    a.lemma_invariants();
    lemma_parse_written(
        a.version(),
        a.model(),
        crate::sha::sha1_of(index_body(a.version(), a.model())),
    );
    lemma_round_trip(&a, &after);
}

} // verus!
