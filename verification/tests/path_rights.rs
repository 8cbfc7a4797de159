use ssa_builder::entry::Entry;
use ssa_builder::entry::entry_from_open;
use ssa_builder::entry::readlink_size;
use ssa_builder::errors::Errno;
use ssa_builder::rights::HandleRights;
use ssa_builder::rights::open_rights;
use ssa_builder::rights::FDFLAG_DSYNC;
use ssa_builder::rights::FSTFLAG_ATIM;
use ssa_builder::rights::FSTFLAG_ATIM_NOW;
use ssa_builder::rights::FSTFLAG_MTIM;
use ssa_builder::rights::LOOKUP_SYMLINK_FOLLOW;
use ssa_builder::rights::OFLAG_CREAT;
use ssa_builder::rights::RIGHT_FD_DATASYNC;
use ssa_builder::rights::RIGHT_FD_READ;
use ssa_builder::rights::RIGHT_FD_WRITE;
use ssa_builder::rights::RIGHT_PATH_CREATE_DIRECTORY;
use ssa_builder::rights::RIGHT_PATH_CREATE_FILE;
use ssa_builder::rights::RIGHT_PATH_FILESTAT_GET;
use ssa_builder::rights::RIGHT_PATH_FILESTAT_SET_TIMES;
use ssa_builder::rights::RIGHT_PATH_LINK_SOURCE;
use ssa_builder::rights::RIGHT_PATH_LINK_TARGET;
use ssa_builder::rights::RIGHT_PATH_OPEN;
use ssa_builder::rights::RIGHT_PATH_READLINK;
use ssa_builder::rights::RIGHT_PATH_REMOVE_DIRECTORY;
use ssa_builder::rights::RIGHT_PATH_RENAME_SOURCE;

fn entry_with(base: u64) -> Entry {
    Entry::new(HandleRights::from_base(base))
}

#[test]
fn create_directory_checks_rights() {
    let e = entry_with(RIGHT_PATH_OPEN | RIGHT_PATH_CREATE_DIRECTORY);
    assert_eq!(e.path_create_directory("sub"), Ok(()));
    let weak = entry_with(RIGHT_PATH_OPEN);
    assert_eq!(weak.path_create_directory("sub"), Err(Errno::NotCapable));
}

#[test]
fn filestat_get_plan_follows_flag() {
    let e = entry_with(RIGHT_PATH_FILESTAT_GET);
    let plan = e.path_filestat_get(LOOKUP_SYMLINK_FOLLOW, "f").unwrap();
    assert!(plan.follow);
    let plan = e.path_filestat_get(0, "f").unwrap();
    assert!(!plan.follow);
    let weak = entry_with(0);
    assert_eq!(weak.path_filestat_get(0, "f"), Err(Errno::NotCapable));
}

#[test]
fn set_times_validates_flags_after_rights() {
    let e = entry_with(RIGHT_PATH_FILESTAT_SET_TIMES);
    let plan = e.path_filestat_set_times(0, "f", 5, 9, FSTFLAG_ATIM | FSTFLAG_MTIM).unwrap();
    assert_eq!(plan.atim, 5);
    assert_eq!(plan.mtim, 9);
    assert_eq!(plan.fst_flags, FSTFLAG_ATIM | FSTFLAG_MTIM);
    assert!(!plan.follow);
    let both = FSTFLAG_ATIM | FSTFLAG_ATIM_NOW;
    assert_eq!(e.path_filestat_set_times(0, "f", 0, 0, both), Err(Errno::Inval));
    let weak = entry_with(0);
    assert_eq!(weak.path_filestat_set_times(0, "f", 0, 0, both), Err(Errno::NotCapable));
}

#[test]
fn link_checks_both_entries() {
    let src = entry_with(RIGHT_PATH_LINK_SOURCE);
    let dst = entry_with(RIGHT_PATH_LINK_TARGET);
    let plan = src.path_link(LOOKUP_SYMLINK_FOLLOW, "a", &dst, "b").unwrap();
    assert!(plan.follow);
    assert_eq!(dst.path_link(0, "a", &dst, "b"), Err(Errno::NotCapable));
    assert_eq!(src.path_link(0, "a", &src, "b"), Err(Errno::NotCapable));
}

#[test]
fn open_derives_mode_and_needed_rights() {
    let e = Entry::new(HandleRights::new(
        RIGHT_PATH_OPEN | RIGHT_PATH_CREATE_FILE,
        RIGHT_FD_READ | RIGHT_FD_WRITE,
    ));
    let plan = e
        .path_open(0, "f", OFLAG_CREAT, RIGHT_FD_READ | RIGHT_FD_WRITE, 0, 0)
        .unwrap();
    assert!(plan.create);
    assert!(plan.read);
    assert!(plan.write);
    assert!(!plan.follow);
    // Without the create-file capability the same request is refused.
    let weak = entry_with(RIGHT_PATH_OPEN | RIGHT_FD_READ | RIGHT_FD_WRITE);
    assert_eq!(
        weak.path_open(0, "f", OFLAG_CREAT, RIGHT_FD_READ, 0, 0),
        Err(Errno::NotCapable)
    );
}

#[test]
fn open_rights_collects_what_the_open_will_do() {
    let requested = HandleRights::new(RIGHT_FD_READ, 0);
    let needed = open_rights(&requested, OFLAG_CREAT, FDFLAG_DSYNC);
    assert_eq!(
        needed.base,
        RIGHT_PATH_OPEN | RIGHT_PATH_CREATE_FILE | RIGHT_FD_DATASYNC
    );
    assert_eq!(needed.inheriting, RIGHT_FD_READ);
}

#[test]
fn opened_entry_rights_are_cut_to_the_request() {
    let e = Entry::new(HandleRights::new(RIGHT_PATH_OPEN, RIGHT_FD_READ | RIGHT_FD_WRITE));
    let plan = e.path_open(0, "f", 0, RIGHT_FD_READ, 0, 0).unwrap();
    let max = HandleRights::new(RIGHT_FD_READ | RIGHT_FD_WRITE | RIGHT_FD_DATASYNC, RIGHT_FD_READ);
    let opened = entry_from_open(max, &plan);
    assert_eq!(opened.rights.base, RIGHT_FD_READ);
    assert_eq!(opened.rights.inheriting, 0);
}

#[test]
fn readlink_checks_rights_and_size() {
    let e = entry_with(RIGHT_PATH_READLINK);
    assert_eq!(e.path_readlink("l"), Ok(()));
    let weak = entry_with(0);
    assert_eq!(weak.path_readlink("l"), Err(Errno::NotCapable));
    assert_eq!(readlink_size(17), Ok(17));
    assert_eq!(readlink_size(u32::MAX as usize), Ok(u32::MAX));
}

#[test]
fn remove_directory_checks_rights() {
    let e = entry_with(RIGHT_PATH_REMOVE_DIRECTORY);
    assert_eq!(e.path_remove_directory("sub"), Ok(()));
    let weak = entry_with(RIGHT_PATH_OPEN);
    assert_eq!(weak.path_remove_directory("sub"), Err(Errno::NotCapable));
}

#[test]
fn rename_holds_both_entries_to_the_same_requirement() {
    let src = entry_with(RIGHT_PATH_RENAME_SOURCE);
    let dst = entry_with(RIGHT_PATH_RENAME_SOURCE);
    assert_eq!(src.path_rename("a", &dst, "b"), Ok(()));
    let weak = entry_with(0);
    assert_eq!(src.path_rename("a", &weak, "b"), Err(Errno::NotCapable));
    assert_eq!(weak.path_rename("a", &dst, "b"), Err(Errno::NotCapable));
}
