//! Decisions of the WASI directory handle that gives the Python guest its
//! filesystem: which errno a filesystem error becomes, what an `open`
//! does given its flags and what the path turned out to be, and which
//! entries a directory read hands out from a cookie on.
use vstd::prelude::*;

use crate::error::VfsError;
use crate::vfs::NodeType;

verus! {

/// The WASI errno values the bridge reports.
#[derive(Debug, Clone, Copy, PartialEq, Eq, Structural)]
pub enum WasiErrno {
    Noent,
    Exist,
    Notdir,
    Isdir,
    Acces,
    Notempty,
    Loop,
    Inval,
    Io,
    Notsup,
}

/// The errno closest to a filesystem error.
pub open spec fn errno_spec(e: VfsError) -> WasiErrno {
    match e {
        VfsError::NotFound(_) => WasiErrno::Noent,
        VfsError::AlreadyExists(_) => WasiErrno::Exist,
        VfsError::NotADirectory(_) => WasiErrno::Notdir,
        VfsError::NotAFile(_) => WasiErrno::Notdir,
        VfsError::IsADirectory(_) => WasiErrno::Isdir,
        VfsError::PermissionDenied(_) => WasiErrno::Acces,
        VfsError::DirectoryNotEmpty(_) => WasiErrno::Notempty,
        VfsError::SymlinkLoop(_) => WasiErrno::Loop,
        VfsError::InvalidPath(_) => WasiErrno::Inval,
        VfsError::IoError(_) => WasiErrno::Io,
    }
}

/// The errno reported for a filesystem error.
pub fn errno_of(e: &VfsError) -> (r: WasiErrno)
    ensures
        r == errno_spec(*e),
{
    match e {
        VfsError::NotFound(_) => WasiErrno::Noent,
        VfsError::AlreadyExists(_) => WasiErrno::Exist,
        VfsError::NotADirectory(_) | VfsError::NotAFile(_) => WasiErrno::Notdir,
        VfsError::IsADirectory(_) => WasiErrno::Isdir,
        VfsError::PermissionDenied(_) => WasiErrno::Acces,
        VfsError::DirectoryNotEmpty(_) => WasiErrno::Notempty,
        VfsError::SymlinkLoop(_) => WasiErrno::Loop,
        VfsError::InvalidPath(_) => WasiErrno::Inval,
        VfsError::IoError(_) => WasiErrno::Io,
    }
}

/// The flags of an `open` request: the open flags (`directory`, `create`,
/// `exclusive`, `truncate`), whether any of the sync-family fd flags is
/// set, the append fd flag, and the rights asked for.
#[derive(Debug, Clone, Copy, PartialEq, Eq, Structural)]
pub struct OpenRequest {
    pub directory: bool,
    pub create: bool,
    pub exclusive: bool,
    pub truncate: bool,
    pub sync: bool,
    pub append: bool,
    pub read: bool,
    pub write: bool,
}

/// What the path of an `open` turned out to be: the node type (and a
/// file's size) that a stat reported, a missing node, or another stat
/// error.
#[derive(Debug, Clone, Copy, PartialEq, Eq, Structural)]
pub enum OpenProbe {
    Symlink,
    Directory,
    File { size: u64 },
    Missing,
    Failed,
}

/// What an `open` does.
#[derive(Debug, Clone, Copy, PartialEq, Eq, Structural)]
pub enum OpenPlan {
    /// Fail with this errno.
    Refuse(WasiErrno),
    /// Fail with the errno of the stat error itself.
    PassError,
    /// Open a directory handle at the path.
    OpenDir,
    /// Open the existing file, truncating it to empty first when
    /// `truncate` is set, with the cursor at `cursor`.
    OpenFile { truncate: bool, cursor: u64 },
    /// Create the file empty and open it with the cursor at 0.
    Create,
}

/// The refusal that comes before the path is looked at: `directory` with
/// any of `create`, `exclusive`, `truncate` is invalid, and a sync-family
/// fd flag is not supported.
pub open spec fn open_precheck_spec(req: OpenRequest) -> Option<WasiErrno> {
    if req.directory && (req.create || req.exclusive || req.truncate) {
        Some(WasiErrno::Inval)
    } else if req.sync {
        Some(WasiErrno::Notsup)
    } else {
        None
    }
}

/// The refusal of an `open` request before the filesystem is asked.
pub fn open_precheck(req: &OpenRequest) -> (r: Option<WasiErrno>)
    ensures
        r == open_precheck_spec(*req),
{
    if req.directory && (req.create || req.exclusive || req.truncate) {
        Some(WasiErrno::Inval)
    } else if req.sync {
        Some(WasiErrno::Notsup)
    } else {
        None
    }
}

/// The plan of an `open` once the path has been stat'ed (following
/// symlinks unless the request said otherwise, so a symlink shows up only
/// when it is not to be followed, and opening it is a loop error).
pub open spec fn open_plan_spec(req: OpenRequest, probe: OpenProbe) -> OpenPlan {
    match probe {
        OpenProbe::Symlink => OpenPlan::Refuse(WasiErrno::Loop),
        OpenProbe::Directory => {
            if req.exclusive {
                OpenPlan::Refuse(WasiErrno::Exist)
            } else if req.write {
                OpenPlan::Refuse(WasiErrno::Isdir)
            } else {
                OpenPlan::OpenDir
            }
        },
        OpenProbe::File { size } => {
            if req.directory {
                OpenPlan::Refuse(WasiErrno::Notdir)
            } else if req.exclusive {
                OpenPlan::Refuse(WasiErrno::Exist)
            } else if req.truncate && req.write {
                OpenPlan::OpenFile { truncate: true, cursor: 0 }
            } else if req.append {
                OpenPlan::OpenFile { truncate: false, cursor: size }
            } else {
                OpenPlan::OpenFile { truncate: false, cursor: 0 }
            }
        },
        OpenProbe::Missing => {
            if req.create {
                OpenPlan::Create
            } else {
                OpenPlan::Refuse(WasiErrno::Noent)
            }
        },
        OpenProbe::Failed => OpenPlan::PassError,
    }
}

/// The plan of an `open` request that passed the precheck.
pub fn open_plan(req: &OpenRequest, probe: OpenProbe) -> (r: OpenPlan)
    ensures
        r == open_plan_spec(*req, probe),
{
    match probe {
        OpenProbe::Symlink => OpenPlan::Refuse(WasiErrno::Loop),
        OpenProbe::Directory => {
            if req.exclusive {
                OpenPlan::Refuse(WasiErrno::Exist)
            } else if req.write {
                OpenPlan::Refuse(WasiErrno::Isdir)
            } else {
                OpenPlan::OpenDir
            }
        },
        OpenProbe::File { size } => {
            if req.directory {
                OpenPlan::Refuse(WasiErrno::Notdir)
            } else if req.exclusive {
                OpenPlan::Refuse(WasiErrno::Exist)
            } else if req.truncate && req.write {
                OpenPlan::OpenFile { truncate: true, cursor: 0 }
            } else if req.append {
                OpenPlan::OpenFile { truncate: false, cursor: size }
            } else {
                OpenPlan::OpenFile { truncate: false, cursor: 0 }
            }
        },
        OpenProbe::Missing => {
            if req.create {
                OpenPlan::Create
            } else {
                OpenPlan::Refuse(WasiErrno::Noent)
            }
        },
        OpenProbe::Failed => OpenPlan::PassError,
    }
}

/// One entry of a directory read: the cookie of the entry after it, the
/// inode (0 when it could not be stat'ed), the name and the type.
#[derive(Debug)]
pub struct ListedEntry {
    pub next: u64,
    pub inode: u64,
    pub name: String,
    pub kind: NodeType,
}

/// An entry as a plain value: name, type and inode.
pub open spec fn entry_view(e: (String, NodeType, u64)) -> (Seq<char>, NodeType, u64) {
    (e.0@, e.1, e.2)
}

/// `e` lists the name, type and inode of `v`.
pub open spec fn listed_as(e: ListedEntry, v: (Seq<char>, NodeType, u64)) -> bool {
    e.name@ == v.0 && e.kind == v.1 && e.inode == v.2
}

/// The full listing of a directory read: `.` and `..` first, both
/// directories, then the directory's entries in the order given.
pub open spec fn full_listing(self_inode: u64, parent_inode: u64, entries: Seq<(String, NodeType, u64)>) -> Seq<(Seq<char>, NodeType, u64)> {
    seq![(seq!['.'], NodeType::Directory, self_inode), (seq!['.', '.'], NodeType::Directory, parent_inode)]
        + entries.map_values(|e: (String, NodeType, u64)| entry_view(e))
}

/// The entries of a directory read from cookie `start` on. Cookies are
/// positions in the full listing, and each entry carries the cookie of the
/// one after it.
pub fn readdir_page(self_inode: u64, parent_inode: u64, entries: &Vec<(String, NodeType, u64)>, start: u64) -> (r: Vec<ListedEntry>)
    requires
        entries.len() + 2 <= u64::MAX,
    ensures
        ({
            let all = full_listing(self_inode, parent_inode, entries@);
            &&& r.len() == (if start < all.len() { all.len() - start } else { 0 })
            &&& forall|k: int|
                0 <= k < r.len() ==> {
                    &&& #[trigger] r@[k].next == start + k + 1
                    &&& listed_as(r@[k], all[start + k])
                }
        }),
{
    let ghost all = full_listing(self_inode, parent_inode, entries@);
    let ghost ents = entries@;
    let mut out: Vec<ListedEntry> = Vec::new();
    let n: usize = entries.len();
    let mut pos: u64;
    // the two leading entries, `.` and `..`
    proof {
        assert(all.len() == n + 2);
        assert(all[0] == (seq!['.'], NodeType::Directory, self_inode));
        assert(all[1] == (seq!['.', '.'], NodeType::Directory, parent_inode));
    }
    if start == 0 {
        let dot = string_of_dots(1);
        proof {
            assert(dot@ =~= seq!['.']);
        }
        out.push(ListedEntry { next: 1, inode: self_inode, name: dot, kind: NodeType::Directory });
    }
    if start <= 1 {
        let dotdot = string_of_dots(2);
        proof {
            assert(dotdot@ =~= seq!['.', '.']);
        }
        let ghost before = out@;
        out.push(ListedEntry { next: 2, inode: parent_inode, name: dotdot, kind: NodeType::Directory });
        proof {
            assert forall|k: int| 0 <= k < out.len() implies {
                &&& #[trigger] out@[k].next == start + k + 1
                &&& listed_as(out@[k], all[start + k])
            } by {
                if k < before.len() {
                    assert(out@[k] == before[k]);
                }
            }
        }
    }
    pos = 2;
    let mut i: usize = 0;
    while i < n
        invariant
            n == ents.len(),
            n + 2 <= u64::MAX,
            i <= n,
            pos == i + 2,
            all == full_listing(self_inode, parent_inode, ents),
            all.len() == n + 2,
            ents == entries@,
            out.len() == (if start < pos { pos - start } else { 0 }),
            forall|k: int|
                0 <= k < out.len() ==> {
                    &&& #[trigger] out@[k].next == start + k + 1
                    &&& listed_as(out@[k], all[start + k])
                },
        decreases n - i,
    {
        proof {
            assert(all[pos as int] == entry_view(ents[i as int]));
        }
        if start <= pos {
            let e = &entries[i];
            let name = e.0.clone();
            let ghost before = out@;
            out.push(ListedEntry { next: pos + 1, inode: e.2, name, kind: e.1 });
            proof {
                assert(*e == ents[i as int]);
                assert forall|k: int| 0 <= k < out.len() implies {
                    &&& #[trigger] out@[k].next == start + k + 1
                    &&& listed_as(out@[k], all[start + k])
                } by {
                    if k < before.len() {
                        assert(out@[k] == before[k]);
                    } else {
                        assert(k == pos - start);
                        assert(out@[k].name@ == ents[i as int].0@);
                        assert(all[start + k] == entry_view(ents[i as int]));
                    }
                }
            }
        }
        pos = pos + 1;
        i = i + 1;
    }
    out
}

/// A name made of `count` dots.
fn string_of_dots(count: usize) -> (s: String)
    requires
        count <= 2,
    ensures
        s@ == Seq::new(count as nat, |_i: int| '.'),
{
    let mut s = String::new();
    let mut i: usize = 0;
    while i < count
        invariant
            i <= count,
            s@ == Seq::new(i as nat, |_j: int| '.'),
        decreases count - i,
    {
        crate::text::push_char(&mut s, '.');
        proof {
            assert(s@ =~= Seq::new((i + 1) as nat, |_j: int| '.'));
        }
        i = i + 1;
    }
    s
}

} // verus!
