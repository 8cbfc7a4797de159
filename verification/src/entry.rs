use vstd::prelude::*;
use crate::errors::Errno;
use crate::rights::HandleRights;
use crate::rights::spec_open_rights;
use crate::rights::open_rights;
use crate::rights::LOOKUP_SYMLINK_FOLLOW;
use crate::rights::OFLAG_CREAT;
use crate::rights::RIGHT_FD_ALLOCATE;
use crate::rights::RIGHT_FD_DATASYNC;
use crate::rights::RIGHT_FD_FILESTAT_SET_SIZE;
use crate::rights::RIGHT_FD_READ;
use crate::rights::RIGHT_FD_READDIR;
use crate::rights::RIGHT_FD_WRITE;
use crate::rights::RIGHT_PATH_CREATE_DIRECTORY;
use crate::rights::RIGHT_PATH_FILESTAT_GET;
use crate::rights::RIGHT_PATH_FILESTAT_SET_TIMES;
use crate::rights::RIGHT_PATH_LINK_SOURCE;
use crate::rights::RIGHT_PATH_LINK_TARGET;
use crate::rights::RIGHT_PATH_OPEN;
use crate::rights::RIGHT_PATH_READLINK;
use crate::rights::RIGHT_PATH_REMOVE_DIRECTORY;
use crate::rights::RIGHT_PATH_RENAME_SOURCE;
use crate::rights::FSTFLAG_ATIM;
use crate::rights::FSTFLAG_ATIM_NOW;
use crate::rights::FSTFLAG_MTIM;
use crate::rights::FSTFLAG_MTIM_NOW;

verus! {

/// An open handle together with the capabilities it carries. The methods
/// below decide, from the rights alone, whether a path operation may go
/// ahead, and say exactly how the host must perform it; performing it is
/// the host layer's job.
#[derive(Clone, Copy, PartialEq, Eq, Structural, Debug)]
pub struct Entry {
    pub rights: HandleRights,
}

/// How a filestat read must resolve its final path component.
#[derive(Clone, Copy, PartialEq, Eq, Structural, Debug)]
pub struct FilestatGetPlan {
    /// Follow a symlink in the final component.
    pub follow: bool,
}

/// A permitted set-times operation, with the arguments the host needs.
#[derive(Clone, Copy, PartialEq, Eq, Structural, Debug)]
pub struct SetTimesPlan {
    pub follow: bool,
    pub atim: u64,
    pub mtim: u64,
    pub fst_flags: u64,
}

/// A permitted hard-link operation.
#[derive(Clone, Copy, PartialEq, Eq, Structural, Debug)]
pub struct LinkPlan {
    /// Follow a symlink in the final component of the source path.
    pub follow: bool,
}

/// A permitted open, with everything the host needs to perform it and to
/// build the resulting entry.
#[derive(Clone, Copy, PartialEq, Eq, Structural, Debug)]
pub struct OpenPlan {
    pub follow: bool,
    pub create: bool,
    pub read: bool,
    pub write: bool,
    pub oflags: u64,
    pub fdflags: u64,
    /// The base rights the caller requested for the new handle.
    pub rights_base: u64,
    /// The inheriting rights the caller requested for the new handle.
    pub rights_inheriting: u64,
}

/// Rights a create-directory call needs on the directory entry.
pub open spec fn create_directory_rights() -> HandleRights {
    HandleRights { base: RIGHT_PATH_OPEN | RIGHT_PATH_CREATE_DIRECTORY, inheriting: 0 }
}

/// Rights a filestat read needs.
pub open spec fn filestat_get_rights() -> HandleRights {
    HandleRights { base: RIGHT_PATH_FILESTAT_GET, inheriting: 0 }
}

/// Rights a set-times call needs.
pub open spec fn filestat_set_times_rights() -> HandleRights {
    HandleRights { base: RIGHT_PATH_FILESTAT_SET_TIMES, inheriting: 0 }
}

/// Rights the source entry of a link needs.
pub open spec fn link_source_rights() -> HandleRights {
    HandleRights { base: RIGHT_PATH_LINK_SOURCE, inheriting: 0 }
}

/// Rights the target entry of a link needs.
pub open spec fn link_target_rights() -> HandleRights {
    HandleRights { base: RIGHT_PATH_LINK_TARGET, inheriting: 0 }
}

/// Rights a readlink needs.
pub open spec fn readlink_rights() -> HandleRights {
    HandleRights { base: RIGHT_PATH_READLINK, inheriting: 0 }
}

/// Rights a remove-directory call needs.
pub open spec fn remove_directory_rights() -> HandleRights {
    HandleRights { base: RIGHT_PATH_REMOVE_DIRECTORY, inheriting: 0 }
}

/// Rights a rename needs; the same requirement is placed on both the
/// source and the target entry.
pub open spec fn rename_rights() -> HandleRights {
    HandleRights { base: RIGHT_PATH_RENAME_SOURCE, inheriting: 0 }
}

/// True when the set-times flags are consistent: for each timestamp, at
/// most one of "set to the given time" and "set to now" is asked for.
pub open spec fn times_flags_valid(fst_flags: u64) -> bool {
    !(fst_flags & FSTFLAG_ATIM != 0 && fst_flags & FSTFLAG_ATIM_NOW != 0)
        && !(fst_flags & FSTFLAG_MTIM != 0 && fst_flags & FSTFLAG_MTIM_NOW != 0)
}

impl Entry {
    pub fn new(rights: HandleRights) -> (e: Entry)
        ensures
            e.rights == rights,
    {
        Entry { rights }
    }

    pub fn get_rights(&self) -> (r: HandleRights)
        ensures
            r == self.rights,
    {
        self.rights
    }

    pub fn set_rights(&mut self, rights: HandleRights)
        ensures
            final(self).rights == rights,
    {
        self.rights = rights;
    }

    /// May a directory be created under this entry at `path`?
    #[allow(unused_variables)]
    pub fn path_create_directory(&self, path: &str) -> (r: Result<(), Errno>)
        ensures
            r is Ok <==> self.rights.spec_contains(create_directory_rights()),
            r is Err ==> r == Result::<(), Errno>::Err(Errno::NotCapable),
    {
        let required = HandleRights::from_base(RIGHT_PATH_OPEN | RIGHT_PATH_CREATE_DIRECTORY);
        if self.rights.contains(&required) {
            Ok(())
        } else {
            Err(Errno::NotCapable)
        }
    }

    /// May the file statistics at `path` be read, and how must the final
    /// component be resolved?
    #[allow(unused_variables)]
    pub fn path_filestat_get(&self, flags: u64, path: &str) -> (r: Result<FilestatGetPlan, Errno>)
        ensures
            r is Ok <==> self.rights.spec_contains(filestat_get_rights()),
            r is Err ==> r == Result::<FilestatGetPlan, Errno>::Err(Errno::NotCapable),
            r is Ok ==> (r->Ok_0).follow == (flags & LOOKUP_SYMLINK_FOLLOW != 0),
    {
        let required = HandleRights::from_base(RIGHT_PATH_FILESTAT_GET);
        if self.rights.contains(&required) {
            Ok(FilestatGetPlan { follow: flags & LOOKUP_SYMLINK_FOLLOW != 0 })
        } else {
            Err(Errno::NotCapable)
        }
    }

    /// May the timestamps at `path` be set to `atim` / `mtim` as
    /// `fst_flags` directs? Rights are checked first; then the flag pair
    /// for each timestamp must be consistent.
    #[allow(unused_variables)]
    pub fn path_filestat_set_times(
        &self,
        flags: u64,
        path: &str,
        atim: u64,
        mtim: u64,
        fst_flags: u64,
    ) -> (r: Result<SetTimesPlan, Errno>)
        ensures
            r is Ok <==> self.rights.spec_contains(filestat_set_times_rights())
                && times_flags_valid(fst_flags),
            !self.rights.spec_contains(filestat_set_times_rights())
                ==> r == Result::<SetTimesPlan, Errno>::Err(Errno::NotCapable),
            self.rights.spec_contains(filestat_set_times_rights()) && !times_flags_valid(fst_flags)
                ==> r == Result::<SetTimesPlan, Errno>::Err(Errno::Inval),
            r is Ok ==> r->Ok_0 == (SetTimesPlan {
                follow: flags & LOOKUP_SYMLINK_FOLLOW != 0,
                atim,
                mtim,
                fst_flags,
            }),
    {
        let required = HandleRights::from_base(RIGHT_PATH_FILESTAT_SET_TIMES);
        if !self.rights.contains(&required) {
            return Err(Errno::NotCapable);
        }
        let set_atim = fst_flags & FSTFLAG_ATIM != 0;
        let set_atim_now = fst_flags & FSTFLAG_ATIM_NOW != 0;
        let set_mtim = fst_flags & FSTFLAG_MTIM != 0;
        let set_mtim_now = fst_flags & FSTFLAG_MTIM_NOW != 0;
        if (set_atim && set_atim_now) || (set_mtim && set_mtim_now) {
            return Err(Errno::Inval);
        }
        Ok(SetTimesPlan { follow: flags & LOOKUP_SYMLINK_FOLLOW != 0, atim, mtim, fst_flags })
    }

    /// May a hard link be made from `old_path` under this entry to
    /// `new_path` under `new_entry`?
    #[allow(unused_variables)]
    pub fn path_link(
        &self,
        old_flags: u64,
        old_path: &str,
        new_entry: &Entry,
        new_path: &str,
    ) -> (r: Result<LinkPlan, Errno>)
        ensures
            r is Ok <==> self.rights.spec_contains(link_source_rights())
                && new_entry.rights.spec_contains(link_target_rights()),
            r is Err ==> r == Result::<LinkPlan, Errno>::Err(Errno::NotCapable),
            r is Ok ==> (r->Ok_0).follow == (old_flags & LOOKUP_SYMLINK_FOLLOW != 0),
    {
        let required = HandleRights::from_base(RIGHT_PATH_LINK_SOURCE);
        if !self.rights.contains(&required) {
            return Err(Errno::NotCapable);
        }
        let required = HandleRights::from_base(RIGHT_PATH_LINK_TARGET);
        if !new_entry.rights.contains(&required) {
            return Err(Errno::NotCapable);
        }
        Ok(LinkPlan { follow: old_flags & LOOKUP_SYMLINK_FOLLOW != 0 })
    }

    /// May a handle be opened at `path` with the given flags and requested
    /// rights? On success the plan carries the read/write mode derived
    /// from the requested base rights, and the requested rights that
    /// `entry_from_open` later cuts the new handle down to.
    #[allow(unused_variables)]
    pub fn path_open(
        &self,
        dirflags: u64,
        path: &str,
        oflags: u64,
        fs_rights_base: u64,
        fs_rights_inheriting: u64,
        fdflags: u64,
    ) -> (r: Result<OpenPlan, Errno>)
        ensures
            r is Ok <==> self.rights.spec_contains(
                spec_open_rights(
                    HandleRights { base: fs_rights_base, inheriting: fs_rights_inheriting },
                    oflags,
                    fdflags,
                ),
            ),
            r is Err ==> r == Result::<OpenPlan, Errno>::Err(Errno::NotCapable),
            r is Ok ==> r->Ok_0 == (OpenPlan {
                follow: dirflags & LOOKUP_SYMLINK_FOLLOW != 0,
                create: oflags & OFLAG_CREAT != 0,
                read: fs_rights_base & (RIGHT_FD_READ | RIGHT_FD_READDIR) != 0,
                write: fs_rights_base
                    & (RIGHT_FD_DATASYNC | RIGHT_FD_WRITE | RIGHT_FD_ALLOCATE
                        | RIGHT_FD_FILESTAT_SET_SIZE) != 0,
                oflags,
                fdflags,
                rights_base: fs_rights_base,
                rights_inheriting: fs_rights_inheriting,
            }),
    {
        let requested = HandleRights::new(fs_rights_base, fs_rights_inheriting);
        let needed = open_rights(&requested, oflags, fdflags);
        if !self.rights.contains(&needed) {
            return Err(Errno::NotCapable);
        }
        let read = fs_rights_base & (RIGHT_FD_READ | RIGHT_FD_READDIR) != 0;
        let write = fs_rights_base
            & (RIGHT_FD_DATASYNC | RIGHT_FD_WRITE | RIGHT_FD_ALLOCATE
                | RIGHT_FD_FILESTAT_SET_SIZE) != 0;
        Ok(OpenPlan {
            follow: dirflags & LOOKUP_SYMLINK_FOLLOW != 0,
            create: oflags & OFLAG_CREAT != 0,
            read,
            write,
            oflags,
            fdflags,
            rights_base: fs_rights_base,
            rights_inheriting: fs_rights_inheriting,
        })
    }

    /// May the symlink at `path` be read?
    #[allow(unused_variables)]
    pub fn path_readlink(&self, path: &str) -> (r: Result<(), Errno>)
        ensures
            r is Ok <==> self.rights.spec_contains(readlink_rights()),
            r is Err ==> r == Result::<(), Errno>::Err(Errno::NotCapable),
    {
        let required = HandleRights::from_base(RIGHT_PATH_READLINK);
        if self.rights.contains(&required) {
            Ok(())
        } else {
            Err(Errno::NotCapable)
        }
    }

    /// May the directory at `path` be removed?
    #[allow(unused_variables)]
    pub fn path_remove_directory(&self, path: &str) -> (r: Result<(), Errno>)
        ensures
            r is Ok <==> self.rights.spec_contains(remove_directory_rights()),
            r is Err ==> r == Result::<(), Errno>::Err(Errno::NotCapable),
    {
        let required = HandleRights::from_base(RIGHT_PATH_REMOVE_DIRECTORY);
        if self.rights.contains(&required) {
            Ok(())
        } else {
            Err(Errno::NotCapable)
        }
    }

    /// May `old_path` under this entry be renamed to `new_path` under
    /// `new_entry`? Both entries are held to the same rename requirement.
    #[allow(unused_variables)]
    pub fn path_rename(
        &self,
        old_path: &str,
        new_entry: &Entry,
        new_path: &str,
    ) -> (r: Result<(), Errno>)
        ensures
            r is Ok <==> self.rights.spec_contains(rename_rights())
                && new_entry.rights.spec_contains(rename_rights()),
            r is Err ==> r == Result::<(), Errno>::Err(Errno::NotCapable),
    {
        let required = HandleRights::from_base(RIGHT_PATH_RENAME_SOURCE);
        if !self.rights.contains(&required) {
            return Err(Errno::NotCapable);
        }
        if !new_entry.rights.contains(&required) {
            return Err(Errno::NotCapable);
        }
        Ok(())
    }
}

/// The entry for a freshly opened handle: the maximal rights the host
/// grants the new handle, cut down to exactly what the open request asked
/// for.
pub fn entry_from_open(max_rights: HandleRights, plan: &OpenPlan) -> (e: Entry)
    ensures
        e.rights.base == max_rights.base & plan.rights_base,
        e.rights.inheriting == max_rights.inheriting & plan.rights_inheriting,
{
    Entry {
        rights: HandleRights {
            base: max_rights.base & plan.rights_base,
            inheriting: max_rights.inheriting & plan.rights_inheriting,
        },
    }
}

/// The size field of a readlink result: the byte count as the interface's
/// size type, or an overflow failure when it does not fit.
pub fn readlink_size(n: usize) -> (r: Result<u32, Errno>)
    ensures
        r is Ok <==> n <= u32::MAX,
        r is Ok ==> r->Ok_0 == n,
        r is Err ==> r == Result::<u32, Errno>::Err(Errno::Overflow),
{
    if n <= u32::MAX as usize {
        Ok(n as u32)
    } else {
        Err(Errno::Overflow)
    }
}

}
