use vstd::prelude::*;

verus! {

// One bit per capability, as the host interface defines them.
pub const RIGHT_FD_DATASYNC: u64 = 0x1;
pub const RIGHT_FD_READ: u64 = 0x2;
pub const RIGHT_FD_SYNC: u64 = 0x10;
pub const RIGHT_FD_WRITE: u64 = 0x40;
pub const RIGHT_FD_ALLOCATE: u64 = 0x100;
pub const RIGHT_PATH_CREATE_DIRECTORY: u64 = 0x200;
pub const RIGHT_PATH_CREATE_FILE: u64 = 0x400;
pub const RIGHT_PATH_LINK_SOURCE: u64 = 0x800;
pub const RIGHT_PATH_LINK_TARGET: u64 = 0x1000;
pub const RIGHT_PATH_OPEN: u64 = 0x2000;
pub const RIGHT_FD_READDIR: u64 = 0x4000;
pub const RIGHT_PATH_READLINK: u64 = 0x8000;
pub const RIGHT_PATH_RENAME_SOURCE: u64 = 0x1_0000;
pub const RIGHT_PATH_RENAME_TARGET: u64 = 0x2_0000;
pub const RIGHT_PATH_FILESTAT_GET: u64 = 0x4_0000;
pub const RIGHT_PATH_FILESTAT_SET_SIZE: u64 = 0x8_0000;
pub const RIGHT_PATH_FILESTAT_SET_TIMES: u64 = 0x10_0000;
pub const RIGHT_FD_FILESTAT_SET_SIZE: u64 = 0x40_0000;
pub const RIGHT_PATH_REMOVE_DIRECTORY: u64 = 0x200_0000;

// Lookup flags: how the final path component is resolved.
pub const LOOKUP_SYMLINK_FOLLOW: u64 = 0x1;

// Open flags.
pub const OFLAG_CREAT: u64 = 0x1;
pub const OFLAG_DIRECTORY: u64 = 0x2;
pub const OFLAG_EXCL: u64 = 0x4;
pub const OFLAG_TRUNC: u64 = 0x8;

// Descriptor flags.
pub const FDFLAG_APPEND: u64 = 0x1;
pub const FDFLAG_DSYNC: u64 = 0x2;
pub const FDFLAG_NONBLOCK: u64 = 0x4;
pub const FDFLAG_RSYNC: u64 = 0x8;
pub const FDFLAG_SYNC: u64 = 0x10;

// Which timestamps a set-times call updates, and from where.
pub const FSTFLAG_ATIM: u64 = 0x1;
pub const FSTFLAG_ATIM_NOW: u64 = 0x2;
pub const FSTFLAG_MTIM: u64 = 0x4;
pub const FSTFLAG_MTIM_NOW: u64 = 0x8;

/// A pair of capability sets: the rights of the handle itself, and the
/// rights a handle opened through it can at most inherit.
#[derive(Clone, Copy, PartialEq, Eq, Structural, Debug)]
pub struct HandleRights {
    pub base: u64,
    pub inheriting: u64,
}

impl HandleRights {
    /// True when `other` asks for nothing outside `self`.
    pub open spec fn spec_contains(self, other: HandleRights) -> bool {
        other.base & !self.base == 0 && other.inheriting & !self.inheriting == 0
    }

    pub fn new(base: u64, inheriting: u64) -> (r: HandleRights)
        ensures
            r.base == base,
            r.inheriting == inheriting,
    {
        HandleRights { base, inheriting }
    }

    pub fn from_base(base: u64) -> (r: HandleRights)
        ensures
            r.base == base,
            r.inheriting == 0,
    {
        HandleRights { base, inheriting: 0 }
    }

    pub fn contains(&self, other: &HandleRights) -> (r: bool)
        ensures
            r == self.spec_contains(*other),
    {
        other.base & !self.base == 0 && other.inheriting & !self.inheriting == 0
    }
}

/// The rights a directory entry must hold before an open with the given
/// requested rights and flags may go ahead: the right to open a path,
/// plus whatever the open itself will do (create, truncate, sync), while
/// the opened handle may at most receive every right the caller requested.
pub open spec fn spec_open_rights(requested: HandleRights, oflags: u64, fdflags: u64) -> HandleRights {
    HandleRights {
        base: RIGHT_PATH_OPEN
            | (if oflags & OFLAG_CREAT != 0 { RIGHT_PATH_CREATE_FILE } else { 0 })
            | (if oflags & OFLAG_TRUNC != 0 { RIGHT_PATH_FILESTAT_SET_SIZE } else { 0 })
            | (if fdflags & FDFLAG_DSYNC != 0 { RIGHT_FD_DATASYNC } else { 0 })
            | (if fdflags & (FDFLAG_RSYNC | FDFLAG_SYNC) != 0 { RIGHT_FD_SYNC } else { 0 }),
        inheriting: requested.base | requested.inheriting,
    }
}

/// Computes `spec_open_rights` for a concrete open request.
pub fn open_rights(requested: &HandleRights, oflags: u64, fdflags: u64) -> (r: HandleRights)
    ensures
        r == spec_open_rights(*requested, oflags, fdflags),
{
    let base: u64 = RIGHT_PATH_OPEN
        | (if oflags & OFLAG_CREAT != 0 { RIGHT_PATH_CREATE_FILE } else { 0 })
        | (if oflags & OFLAG_TRUNC != 0 { RIGHT_PATH_FILESTAT_SET_SIZE } else { 0 })
        | (if fdflags & FDFLAG_DSYNC != 0 { RIGHT_FD_DATASYNC } else { 0 })
        | (if fdflags & (FDFLAG_RSYNC | FDFLAG_SYNC) != 0 { RIGHT_FD_SYNC } else { 0 });
    HandleRights { base, inheriting: requested.base | requested.inheriting }
}

}
