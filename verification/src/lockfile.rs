//! Writing a file through a lock: the new content goes to `<path>.lock`,
//! which can be made only while it is not there, and is then moved over the
//! file in one step.

use crate::bytes::{copy_bytes, lit, text};
use crate::errors::PidgitError;
use crate::files::FileTree;
use vstd::prelude::*;
use vstd::string::*;

verus! {

/// The path of the lock file for `path`.
pub open spec fn lock_path_of(path: Seq<u8>) -> Seq<u8> {
    path + text(".lock"@)
}

/// The lock on one path.
#[derive(Debug)]
pub struct Lockfile {
    path: Vec<u8>,
    lock_path: Vec<u8>,
    locked: bool,
}

/// A lock that is held: the way to write the new content, and to keep or
/// drop it.
#[derive(Debug)]
pub struct FileLock {
    path: Vec<u8>,
    lock_path: Vec<u8>,
}

impl Lockfile {
    /// The path that the lock protects.
    pub closed spec fn target(&self) -> Seq<u8> {
        self.path@
    }

    /// The path of the lock file.
    pub closed spec fn lock_target(&self) -> Seq<u8> {
        self.lock_path@
    }

    /// Whether this lock is held.
    pub closed spec fn held(&self) -> bool {
        self.locked
    }

    pub open spec fn wf(&self) -> bool {
        self.lock_target() == lock_path_of(self.target())
    }

    /// A lock for `path`, not held.
    pub fn new(path: Vec<u8>) -> (l: Lockfile)
        ensures
            l.wf(),
            l.target() == path@,
            !l.held(),
    {
        proof {
            reveal_strlit(".lock");
        }
        let mut lock_path = copy_bytes(path.as_slice());
        let suffix = lit(".lock");
        lock_path.extend_from_slice(suffix.as_slice());
        assert(lock_path@ == path@ + text(".lock"@));
        let l = Lockfile { path, lock_path, locked: false };
        assert(l.lock_target() == lock_path_of(l.target()));
        l
    }

    /// Takes the lock: makes the lock file, empty. Fails where the lock
    /// file is there already, and then changes nothing.
    pub fn lock(&mut self, files: &mut FileTree) -> (r: Result<FileLock, PidgitError>)
        requires
            old(self).wf(),
            old(files).wf(),
        ensures
            final(self).wf(),
            final(files).wf(),
            final(self).target() == old(self).target(),
            r is Err <==> old(files)@.dom().contains(old(self).lock_target()),
            r matches Err(e) ==> {
                &&& e matches PidgitError::Lock(p) && p@ == old(self).lock_target()
                &&& final(files)@ == old(files)@
                &&& final(self).held() == old(self).held()
            },
            r matches Ok(lock) ==> {
                &&& final(files)@ == old(files)@.insert(old(self).lock_target(), Seq::empty())
                &&& final(self).held()
                &&& lock.target() == old(self).target()
                &&& lock.lock_target() == old(self).lock_target()
            },
    {
        if files.is_file(self.lock_path.as_slice()) {
            return Err(PidgitError::Lock(copy_bytes(self.lock_path.as_slice())));
        }
        files.write(self.lock_path.as_slice(), Vec::new());
        self.locked = true;
        Ok(
            FileLock {
                path: copy_bytes(self.path.as_slice()),
                lock_path: copy_bytes(self.lock_path.as_slice()),
            },
        )
    }

    /// Whether this lock is held.
    pub fn is_locked(&self) -> (r: bool)
        ensures
            r == self.held(),
    {
        self.locked
    }

    /// The path that the lock protects.
    pub fn path(&self) -> (p: &Vec<u8>)
        ensures
            p@ == self.target(),
    {
        &self.path
    }

    /// The path of the lock file: the protected path and `.lock`.
    pub fn lock_path(&self) -> (p: &Vec<u8>)
        ensures
            p@ == self.lock_target(),
    {
        &self.lock_path
    }
}

impl FileLock {
    /// The path that will be written on commit.
    pub closed spec fn target(&self) -> Seq<u8> {
        self.path@
    }

    /// The path of the lock file that takes the writes.
    pub closed spec fn lock_target(&self) -> Seq<u8> {
        self.lock_path@
    }

    /// Adds `data` to the end of the lock file.
    pub fn write(&mut self, files: &mut FileTree, data: &[u8])
        requires
            old(files).wf(),
        ensures
            final(files).wf(),
            final(self).target() == old(self).target(),
            final(self).lock_target() == old(self).lock_target(),
            final(files)@ == old(files)@.insert(
                old(self).lock_target(),
                (if old(files)@.dom().contains(old(self).lock_target()) {
                    old(files)@[old(self).lock_target()]
                } else {
                    Seq::empty()
                }) + data@,
            ),
    {
        files.append(self.lock_path.as_slice(), data);
    }

    /// Moves the lock file over the protected path and gives the lock up.
    /// Where the lock file is gone, the files stay as they are and the
    /// lock is given up all the same.
    pub fn commit(self, lockfile: &mut Lockfile, files: &mut FileTree) -> (r: Result<
        (),
        PidgitError,
    >)
        requires
            old(lockfile).wf(),
            old(files).wf(),
        ensures
            final(lockfile).wf(),
            final(files).wf(),
            final(lockfile).target() == old(lockfile).target(),
            !final(lockfile).held(),
            r is Ok <==> old(files)@.dom().contains(self.lock_target()),
            r is Ok ==> final(files)@ == old(files)@.remove(self.lock_target()).insert(
                self.target(),
                old(files)@[self.lock_target()],
            ),
            r matches Err(e) ==> {
                &&& final(files)@ == old(files)@
                &&& e matches PidgitError::Lock(p) && p@ == self.lock_target()
            },
    {
        lockfile.locked = false;
        if files.rename(self.lock_path.as_slice(), self.path.as_slice()) {
            Ok(())
        } else {
            Err(PidgitError::Lock(self.lock_path))
        }
    }

    /// Removes the lock file and gives the lock up; the protected path
    /// keeps what it held.
    pub fn rollback(self, lockfile: &mut Lockfile, files: &mut FileTree)
        requires
            old(lockfile).wf(),
            old(files).wf(),
        ensures
            final(lockfile).wf(),
            final(files).wf(),
            final(lockfile).target() == old(lockfile).target(),
            !final(lockfile).held(),
            final(files)@ == old(files)@.remove(self.lock_target()),
    {
        lockfile.locked = false;
        files.remove(self.lock_path.as_slice());
    }
}

} // verus!
