//! Refs: files of the repository directory that hold a digest in
//! hexadecimal, or `ref: ` and the path of another ref.

use crate::bytes::{copy_bytes, has_prefix, lit, slice_range, starts_with, text};
use crate::errors::PidgitError;
use crate::files::FileTree;
use crate::lockfile::{lock_path_of, Lockfile};
use crate::object::commit::{back_space, is_space, skip_space, trim, trimmed};
use crate::rev_parse::{is_valid_refname_bytes, valid_refname};
use crate::sha::{hex_of, is_hex, lemma_unhex_hex, unhex, Sha};
use vstd::prelude::*;
use vstd::string::*;

verus! {

/// How many symbolic refs are followed before the chain counts as a
/// cycle.
pub const MAX_SYMREF_DEPTH: u32 = 8;

/// The places where a ref of the given name is looked for, in this order.
pub open spec fn ref_candidates(name: Seq<u8>) -> Seq<Seq<u8>> {
    seq![
        name,
        text("refs/"@) + name,
        text("refs/tags/"@) + name,
        text("refs/heads/"@) + name,
        text("refs/remotes/"@) + name,
        text("refs/remotes/"@) + name + text("/HEAD"@),
    ]
}

/// The first of the candidates from position `i` on at which a file
/// stands.
pub open spec fn first_file(files: Map<Seq<u8>, Seq<u8>>, cands: Seq<Seq<u8>>, i: int) -> Option<
    Seq<u8>,
>
    decreases cands.len() - i,
{
    if i < 0 || i >= cands.len() {
        None
    } else if files.dom().contains(cands[i]) {
        Some(cands[i])
    } else {
        first_file(files, cands, i + 1)
    }
}

/// The file that holds the ref of the given name.
pub open spec fn path_of_name(files: Map<Seq<u8>, Seq<u8>>, name: Seq<u8>) -> Option<Seq<u8>> {
    first_file(files, ref_candidates(name), 0)
}

/// A file stands at the path that `first_file` finds.
pub proof fn lemma_first_file(files: Map<Seq<u8>, Seq<u8>>, cands: Seq<Seq<u8>>, i: int)
    ensures
        first_file(files, cands, i) matches Some(p) ==> files.dom().contains(p),
    decreases cands.len() - i,
{
    if 0 <= i < cands.len() && !files.dom().contains(cands[i]) {
        lemma_first_file(files, cands, i + 1);
    }
}

/// Why a ref does not resolve.
pub enum RefFault {
    /// No file for the name, or a chain of symbolic refs that is too long.
    NotFound(Seq<u8>),
    /// The file holds neither forty hexadecimal digits nor a symbolic ref.
    Malformed(Seq<u8>),
}

/// The path to which a symbolic ref points, where the text is one.
pub open spec fn symref_target(raw: Seq<u8>) -> Option<Seq<u8>> {
    if has_prefix(raw, text("ref: "@)) {
        Some(raw.subrange(5, raw.len() as int))
    } else {
        None
    }
}

/// The digest to which a name resolves: the file of the name is read
/// without the white space around it; a symbolic ref is followed, `fuel`
/// times at most; anything else has to be forty hexadecimal digits.
pub open spec fn resolved(files: Map<Seq<u8>, Seq<u8>>, name: Seq<u8>, fuel: nat) -> Result<
    Seq<u8>,
    RefFault,
>
    decreases fuel,
{
    match path_of_name(files, name) {
        None => Err(RefFault::NotFound(name)),
        Some(path) => match symref_target(trimmed(files[path])) {
            Some(target) => if fuel == 0 {
                Err(RefFault::NotFound(name))
            } else {
                resolved(files, target, (fuel - 1) as nat)
            },
            None => if trimmed(files[path]).len() == 40 && is_hex(trimmed(files[path])) {
                Ok(unhex(trimmed(files[path])))
            } else {
                Err(RefFault::Malformed(path))
            },
        },
    }
}

/// The error that stands for a fault.
pub open spec fn is_fault(e: PidgitError, f: RefFault) -> bool {
    match f {
        RefFault::NotFound(name) => e matches PidgitError::RefNotFound(n) && n@ == name,
        RefFault::Malformed(path) => e matches PidgitError::Generic(m) && m@ == text(
            "malformed ref: "@,
        ) + path,
    }
}

/// The content of a ref file that holds a digest: forty hexadecimal
/// digits and a newline.
pub open spec fn ref_content(sha: Seq<u8>) -> Seq<u8> {
    hex_of(sha) + seq![0x0au8]
}

/// The path of the ref of a branch.
pub open spec fn branch_path(name: Seq<u8>) -> Seq<u8> {
    text("refs/heads/"@) + name
}

/// The error where a branch cannot be made: the name is no valid ref
/// name, a ref of the branch resolves already, or the ref is locked.
pub open spec fn branch_fault(files: Map<Seq<u8>, Seq<u8>>, name: Seq<u8>, e: PidgitError) -> bool {
    if !valid_refname(name) {
        e matches PidgitError::InvalidRefName(n) && n@ == name
    } else if resolved(files, branch_path(name), MAX_SYMREF_DEPTH as nat) is Ok {
        e matches PidgitError::Generic(m) && m@ == text("A branch named '"@) + name + text(
            "' already exists"@,
        )
    } else {
        e matches PidgitError::Lock(p) && p@ == lock_path_of(branch_path(name))
    }
}

/// A ref file that holds a digest is read as that digest.
pub proof fn lemma_ref_content(sha: Seq<u8>)
    requires
        sha.len() == 20,
    ensures
        trimmed(ref_content(sha)) == hex_of(sha),
        symref_target(hex_of(sha)) is None,
        hex_of(sha).len() == 40,
        is_hex(hex_of(sha)),
        unhex(hex_of(sha)) == sha,
{
    reveal_strlit("ref: ");
    lemma_unhex_hex(sha);
    let h = hex_of(sha);
    let c = ref_content(sha);
    assert forall|i: int| 0 <= i < 40 implies !is_space(#[trigger] h[i]) && h[i] != 0x72 by {
        let b = sha[i / 2];
        assert((b >> 4) < 16 && (b & 0x0f) < 16) by (bit_vector);
    }
    assert(c[0] == h[0]);
    assert(skip_space(c, 0) == 0);
    assert(c[40] == 0x0a);
    assert(c[39] == h[39]);
    assert(back_space(c, 0, 41) == back_space(c, 0, 40));
    assert(back_space(c, 0, 40) == 40);
    assert(c.subrange(0, 40) =~= h);
    if has_prefix(h, text("ref: "@)) {
        assert(h.subrange(0, 5)[0] == h[0]);
        assert(text("ref: "@)[0] == 0x72);
    }
}

fn join(prefix: &str, name: &[u8]) -> (out: Vec<u8>)
    requires
        is_ascii(prefix),
    ensures
        out@ == text(prefix@) + name@,
{
    let mut out = lit(prefix);
    out.extend_from_slice(name);
    out
}

/// The refs of a repository.
#[derive(Debug)]
pub struct Grefs {
    git_dir: Vec<u8>,
}

impl Grefs {
    /// The repository directory.
    pub closed spec fn dir(&self) -> Seq<u8> {
        self.git_dir@
    }

    pub fn new(git_dir: Vec<u8>) -> (g: Grefs)
        ensures
            g.dir() == git_dir@,
    {
        Grefs { git_dir }
    }

    /// The repository directory.
    pub fn git_dir(&self) -> (d: &Vec<u8>)
        ensures
            d@ == self.dir(),
    {
        &self.git_dir
    }

    /// Whether a file stands at `path`.
    pub fn path_exists(&self, files: &FileTree, path: &[u8]) -> (r: bool)
        requires
            files.wf(),
        ensures
            r == files@.dom().contains(path@),
    {
        files.is_file(path)
    }

    /// The file that holds the ref of the given name: the first of the
    /// name itself, `refs/<name>`, `refs/tags/<name>`, `refs/heads/<name>`,
    /// `refs/remotes/<name>` and `refs/remotes/<name>/HEAD` at which a file
    /// stands.
    pub fn path_for_name(&self, files: &FileTree, name: &[u8]) -> (r: Option<Vec<u8>>)
        requires
            files.wf(),
        ensures
            r is Some <==> path_of_name(files@, name@) is Some,
            r matches Some(p) ==> path_of_name(files@, name@) == Some(p@),
    {
        proof {
            reveal_strlit("refs/");
            reveal_strlit("refs/tags/");
            reveal_strlit("refs/heads/");
            reveal_strlit("refs/remotes/");
            reveal_strlit("/HEAD");
            reveal_with_fuel(first_file, 8);
        }
        let c0 = copy_bytes(name);
        if files.is_file(c0.as_slice()) {
            return Some(c0);
        }
        let c1 = join("refs/", name);
        if files.is_file(c1.as_slice()) {
            return Some(c1);
        }
        let c2 = join("refs/tags/", name);
        if files.is_file(c2.as_slice()) {
            return Some(c2);
        }
        let c3 = join("refs/heads/", name);
        if files.is_file(c3.as_slice()) {
            return Some(c3);
        }
        let c4 = join("refs/remotes/", name);
        if files.is_file(c4.as_slice()) {
            return Some(c4);
        }
        let mut c5 = join("refs/remotes/", name);
        let tail = lit("/HEAD");
        c5.extend_from_slice(tail.as_slice());
        assert(c5@ =~= ref_candidates(name@)[5]);
        assert(c0@ =~= ref_candidates(name@)[0]);
        if files.is_file(c5.as_slice()) {
            return Some(c5);
        }
        None
    }

    /// The digest to which a name resolves, following at most `fuel`
    /// symbolic refs.
    pub fn resolve_within(&self, files: &FileTree, refstr: &[u8], fuel: u32) -> (r: Result<
        Sha,
        PidgitError,
    >)
        requires
            files.wf(),
        ensures
            r matches Ok(sha) ==> sha.wf() && resolved(files@, refstr@, fuel as nat) == Ok::<
                Seq<u8>,
                RefFault,
            >(sha@),
            r matches Err(e) ==> resolved(files@, refstr@, fuel as nat) is Err && is_fault(
                e,
                resolved(files@, refstr@, fuel as nat)->Err_0,
            ),
        decreases fuel,
    {
        proof {
            reveal_strlit("ref: ");
            reveal_strlit("malformed ref: ");
        }
        let path = match self.path_for_name(files, refstr) {
            Some(p) => p,
            None => {
                return Err(PidgitError::RefNotFound(copy_bytes(refstr)));
            },
        };
        proof {
            lemma_first_file(files@, ref_candidates(refstr@), 0);
        }
        let content = match files.read(path.as_slice()) {
            Some(c) => c,
            None => {
                return Err(PidgitError::RefNotFound(copy_bytes(refstr)));
            },
        };
        let raw = trim(content.as_slice());
        let marker = lit("ref: ");
        if starts_with(raw.as_slice(), marker.as_slice()) {
            if fuel == 0 {
                return Err(PidgitError::RefNotFound(copy_bytes(refstr)));
            }
            let target = slice_range(raw.as_slice(), 5, raw.len());
            return self.resolve_within(files, target.as_slice(), fuel - 1);
        }
        match Sha::from_hex(raw.as_slice()) {
            Some(sha) => Ok(sha),
            None => Err(PidgitError::Generic(join("malformed ref: ", path.as_slice()))),
        }
    }

    /// The digest to which a name resolves.
    pub fn resolve(&self, files: &FileTree, refstr: &[u8]) -> (r: Result<Sha, PidgitError>)
        requires
            files.wf(),
        ensures
            r matches Ok(sha) ==> sha.wf() && resolved(files@, refstr@, MAX_SYMREF_DEPTH as nat)
                == Ok::<Seq<u8>, RefFault>(sha@),
            r matches Err(e) ==> resolved(files@, refstr@, MAX_SYMREF_DEPTH as nat) is Err
                && is_fault(e, resolved(files@, refstr@, MAX_SYMREF_DEPTH as nat)->Err_0),
    {
        self.resolve_within(files, refstr, MAX_SYMREF_DEPTH)
    }

    /// Writes a digest to the ref file at `ref_path`, through its lock.
    /// Fails, and changes nothing, where the lock file is there already.
    pub fn update_ref_file(&self, files: &mut FileTree, ref_path: &[u8], new_sha: &Sha) -> (r: Result<
        (),
        PidgitError,
    >)
        requires
            old(files).wf(),
            new_sha.wf(),
        ensures
            final(files).wf(),
            r is Err <==> old(files)@.dom().contains(lock_path_of(ref_path@)),
            r matches Err(e) ==> {
                &&& final(files)@ == old(files)@
                &&& e matches PidgitError::Lock(p) && p@ == lock_path_of(ref_path@)
            },
            r is Ok ==> final(files)@ == old(files)@.insert(ref_path@, ref_content(new_sha@)),
    {
        proof {
            reveal_strlit(".lock");
        }
        let mut lockfile = Lockfile::new(copy_bytes(ref_path));
        let mut lock = match lockfile.lock(files) {
            Ok(l) => l,
            Err(e) => {
                return Err(e);
            },
        };
        let mut line = new_sha.hexdigest();
        line.push(0x0a);
        assert(line@ =~= ref_content(new_sha@));
        lock.write(files, line.as_slice());
        let ghost staged = files@;
        let done = lock.commit(&mut lockfile, files);
        proof {
            let lp = lock_path_of(ref_path@);
            assert(lp.len() == ref_path@.len() + 5);
            assert(lp != ref_path@);
            assert(Seq::<u8>::empty() + line@ =~= line@);
            assert(staged.dom().contains(lp));
            assert(files@ =~= old(files)@.insert(ref_path@, ref_content(new_sha@)));
        }
        done
    }

    /// Moves `HEAD` to a digest: where `HEAD` is a symbolic ref, the ref
    /// to which it points is written, else `HEAD` itself.
    pub fn update_head(&self, files: &mut FileTree, new_sha: &Sha) -> (r: Result<(), PidgitError>)
        requires
            old(files).wf(),
            new_sha.wf(),
        ensures
            final(files).wf(),
            !old(files)@.dom().contains(text("HEAD"@)) ==> {
                &&& final(files)@ == old(files)@
                &&& r matches Err(PidgitError::RefNotFound(n)) && n@ == text("HEAD"@)
            },
            old(files)@.dom().contains(text("HEAD"@)) ==> {
                let target = head_target(old(files)@);
                &&& r is Err <==> old(files)@.dom().contains(lock_path_of(target))
                &&& r is Err ==> final(files)@ == old(files)@
                &&& r matches Err(e) ==> (e matches PidgitError::Lock(p) && p@ == lock_path_of(
                    target,
                ))
                &&& r is Ok ==> final(files)@ == old(files)@.insert(target, ref_content(new_sha@))
            },
    {
        proof {
            reveal_strlit("HEAD");
            reveal_strlit("ref: ");
        }
        let head = lit("HEAD");
        let content = match files.read(head.as_slice()) {
            Some(c) => c,
            None => {
                return Err(PidgitError::RefNotFound(head));
            },
        };
        let raw = trim(content.as_slice());
        let marker = lit("ref: ");
        let target = if starts_with(raw.as_slice(), marker.as_slice()) {
            slice_range(raw.as_slice(), 5, raw.len())
        } else {
            copy_bytes(head.as_slice())
        };
        self.update_ref_file(files, target.as_slice(), new_sha)
    }

    /// Makes a branch that points to a digest. The name has to be a valid
    /// ref name, and no ref of the branch may resolve yet.
    pub fn create_branch(&self, files: &mut FileTree, refname: &[u8], sha: &Sha) -> (r: Result<
        (),
        PidgitError,
    >)
        requires
            old(files).wf(),
            sha.wf(),
        ensures
            final(files).wf(),
            r is Ok <==> valid_refname(refname@) && resolved(
                old(files)@,
                branch_path(refname@),
                MAX_SYMREF_DEPTH as nat,
            ) is Err && !old(files)@.dom().contains(lock_path_of(branch_path(refname@))),
            r is Err ==> final(files)@ == old(files)@,
            r matches Err(e) ==> branch_fault(old(files)@, refname@, e),
            r is Ok ==> final(files)@ == old(files)@.insert(
                branch_path(refname@),
                ref_content(sha@),
            ),
            r is Ok ==> resolved(final(files)@, branch_path(refname@), MAX_SYMREF_DEPTH as nat)
                == Ok::<Seq<u8>, RefFault>(sha@),
    {
        proof {
            reveal_strlit("refs/heads/");
            reveal_strlit("A branch named '");
            reveal_strlit("' already exists");
        }
        if !is_valid_refname_bytes(refname) {
            return Err(PidgitError::InvalidRefName(copy_bytes(refname)));
        }
        let path = join("refs/heads/", refname);
        if self.resolve(files, path.as_slice()).is_ok() {
            let mut msg = join("A branch named '", refname);
            let tail = lit("' already exists");
            msg.extend_from_slice(tail.as_slice());
            assert(msg@ == text("A branch named '"@) + refname@ + text("' already exists"@));
            return Err(PidgitError::Generic(msg));
        }
        let done = self.update_ref_file(files, path.as_slice(), sha);
        proof {
            if done is Ok {
                lemma_ref_content(sha@);
                let after = files@;
                assert(after.dom().contains(path@));
                assert(ref_candidates(path@)[0] == path@);
                assert(path_of_name(after, path@) == Some(path@));
                assert(after[path@] == ref_content(sha@));
            }
        }
        done
    }
}

/// The ref that `HEAD` stands for: the ref to which it points where it is
/// a symbolic ref, else `HEAD` itself.
pub open spec fn head_target(files: Map<Seq<u8>, Seq<u8>>) -> Seq<u8> {
    match symref_target(trimmed(files[text("HEAD"@)])) {
        Some(target) => target,
        None => text("HEAD"@),
    }
}

} // verus!
