use rust_bash::error::VfsError;
use rust_bash::python::bridge::{
    errno_of, open_plan, open_precheck, readdir_page, OpenPlan, OpenProbe, OpenRequest, WasiErrno,
};
use rust_bash::python::file_ops::{
    read_window, seek_target, splice_bytes, truncate_check, write_end, SeekOrigin, TruncateFault,
};
use rust_bash::python::{classify_run, run_budget, GuestEnd, PythonLimits, RunVerdict};
use rust_bash::vfs::NodeType;

fn req() -> OpenRequest {
    OpenRequest {
        directory: false,
        create: false,
        exclusive: false,
        truncate: false,
        sync: false,
        append: false,
        read: true,
        write: false,
    }
}

#[test]
fn write_end_adds_all_buffers() {
    let bufs = vec![vec![1u8, 2], vec![3u8]];
    assert_eq!(write_end(5, &bufs, None), Some(8));
    assert_eq!(write_end(5, &bufs, Some(8)), Some(8));
    assert_eq!(write_end(5, &bufs, Some(7)), None);
    assert_eq!(write_end(u64::MAX - 1, &bufs, None), None);
    assert_eq!(write_end(4, &Vec::new(), Some(4)), Some(4));
}

#[test]
fn splice_past_end_fills_zeros() {
    let (out, n) = splice_bytes(vec![1, 2, 3], 5, &vec![vec![9, 9]]);
    assert_eq!(out, vec![1, 2, 3, 0, 0, 9, 9]);
    assert_eq!(n, 2);
}

#[test]
fn splice_overwrites_in_place() {
    let (out, n) = splice_bytes(vec![1, 2, 3, 4], 1, &vec![vec![7], vec![8]]);
    assert_eq!(out, vec![1, 7, 8, 4]);
    assert_eq!(n, 2);
}

#[test]
fn splice_of_no_buffer_keeps_image() {
    let (out, n) = splice_bytes(vec![1, 2, 3], 10, &Vec::new());
    assert_eq!(out, vec![1, 2, 3]);
    assert_eq!(n, 0);
    let (out, n) = splice_bytes(vec![1, 2, 3], 5, &vec![Vec::new()]);
    assert_eq!(out, vec![1, 2, 3, 0, 0]);
    assert_eq!(n, 0);
}

#[test]
fn read_window_cuts_to_capacity() {
    let src = vec![1u8, 2, 3, 4, 5];
    assert_eq!(read_window(&src, 2, 2), vec![3, 4]);
    assert_eq!(read_window(&src, 2, 100), vec![3, 4, 5]);
    assert_eq!(read_window(&src, 5, 3), Vec::<u8>::new());
    assert_eq!(read_window(&src, 10, 3), Vec::<u8>::new());
}

#[test]
fn seek_targets_and_bounds() {
    assert_eq!(seek_target(7, SeekOrigin::Start(3), 0), Some(3));
    assert_eq!(seek_target(5, SeekOrigin::Current(-3), 0), Some(2));
    assert_eq!(seek_target(5, SeekOrigin::Current(-6), 0), None);
    assert_eq!(seek_target(0, SeekOrigin::End(-1), 10), Some(9));
    assert_eq!(seek_target(0, SeekOrigin::Start(u64::MAX), 0), None);
    assert_eq!(seek_target(u64::MAX, SeekOrigin::Current(1), 0), None);
}

#[test]
fn truncate_refuses_read_only_first() {
    assert_eq!(truncate_check(false, 100, Some(10)), Err(TruncateFault::NotWritable));
    assert_eq!(truncate_check(true, 11, Some(10)), Err(TruncateFault::TooLarge));
    assert_eq!(truncate_check(true, 10, Some(10)), Ok(()));
    assert_eq!(truncate_check(true, u64::MAX, None), Ok(()));
}

#[test]
fn errno_mapping() {
    let p = || "/x".to_string();
    assert_eq!(errno_of(&VfsError::NotFound(p())), WasiErrno::Noent);
    assert_eq!(errno_of(&VfsError::AlreadyExists(p())), WasiErrno::Exist);
    assert_eq!(errno_of(&VfsError::NotADirectory(p())), WasiErrno::Notdir);
    assert_eq!(errno_of(&VfsError::NotAFile(p())), WasiErrno::Notdir);
    assert_eq!(errno_of(&VfsError::IsADirectory(p())), WasiErrno::Isdir);
    assert_eq!(errno_of(&VfsError::PermissionDenied(p())), WasiErrno::Acces);
    assert_eq!(errno_of(&VfsError::DirectoryNotEmpty(p())), WasiErrno::Notempty);
    assert_eq!(errno_of(&VfsError::SymlinkLoop(p())), WasiErrno::Loop);
    assert_eq!(errno_of(&VfsError::InvalidPath(p())), WasiErrno::Inval);
    assert_eq!(errno_of(&VfsError::IoError(p())), WasiErrno::Io);
}

#[test]
fn open_precheck_flags() {
    assert_eq!(open_precheck(&req()), None);
    let r = OpenRequest { directory: true, create: true, ..req() };
    assert_eq!(open_precheck(&r), Some(WasiErrno::Inval));
    let r = OpenRequest { directory: true, truncate: true, sync: true, ..req() };
    assert_eq!(open_precheck(&r), Some(WasiErrno::Inval));
    let r = OpenRequest { sync: true, ..req() };
    assert_eq!(open_precheck(&r), Some(WasiErrno::Notsup));
    let r = OpenRequest { directory: true, ..req() };
    assert_eq!(open_precheck(&r), None);
}

#[test]
fn open_plan_table() {
    assert_eq!(open_plan(&req(), OpenProbe::Symlink), OpenPlan::Refuse(WasiErrno::Loop));
    assert_eq!(open_plan(&req(), OpenProbe::Directory), OpenPlan::OpenDir);
    let w = OpenRequest { write: true, ..req() };
    assert_eq!(open_plan(&w, OpenProbe::Directory), OpenPlan::Refuse(WasiErrno::Isdir));
    let x = OpenRequest { exclusive: true, write: true, ..req() };
    assert_eq!(open_plan(&x, OpenProbe::Directory), OpenPlan::Refuse(WasiErrno::Exist));
    assert_eq!(open_plan(&x, OpenProbe::File { size: 4 }), OpenPlan::Refuse(WasiErrno::Exist));
    let d = OpenRequest { directory: true, ..req() };
    assert_eq!(open_plan(&d, OpenProbe::File { size: 4 }), OpenPlan::Refuse(WasiErrno::Notdir));
    let t = OpenRequest { truncate: true, write: true, append: true, ..req() };
    assert_eq!(
        open_plan(&t, OpenProbe::File { size: 4 }),
        OpenPlan::OpenFile { truncate: true, cursor: 0 }
    );
    let t_ro = OpenRequest { truncate: true, append: true, ..req() };
    assert_eq!(
        open_plan(&t_ro, OpenProbe::File { size: 4 }),
        OpenPlan::OpenFile { truncate: false, cursor: 4 }
    );
    assert_eq!(
        open_plan(&req(), OpenProbe::File { size: 4 }),
        OpenPlan::OpenFile { truncate: false, cursor: 0 }
    );
    assert_eq!(open_plan(&req(), OpenProbe::Missing), OpenPlan::Refuse(WasiErrno::Noent));
    let c = OpenRequest { create: true, write: true, ..req() };
    assert_eq!(open_plan(&c, OpenProbe::Missing), OpenPlan::Create);
    assert_eq!(open_plan(&c, OpenProbe::Failed), OpenPlan::PassError);
}

#[test]
fn readdir_lists_dots_first_with_cookies() {
    let entries = vec![("a".to_string(), NodeType::File, 7), ("b".to_string(), NodeType::Directory, 8)];
    let all = readdir_page(1, 2, &entries, 0);
    let names: Vec<&str> = all.iter().map(|e| e.name.as_str()).collect();
    assert_eq!(names, vec![".", "..", "a", "b"]);
    let nexts: Vec<u64> = all.iter().map(|e| e.next).collect();
    assert_eq!(nexts, vec![1, 2, 3, 4]);
    let inodes: Vec<u64> = all.iter().map(|e| e.inode).collect();
    assert_eq!(inodes, vec![1, 2, 7, 8]);
    assert_eq!(all[0].kind, NodeType::Directory);
    assert_eq!(all[1].kind, NodeType::Directory);
    assert_eq!(all[2].kind, NodeType::File);

    let tail = readdir_page(1, 2, &entries, 3);
    assert_eq!(tail.len(), 1);
    assert_eq!(tail[0].name, "b");
    assert_eq!(tail[0].next, 4);

    let second = readdir_page(1, 2, &entries, 1);
    assert_eq!(second[0].name, "..");
    assert_eq!(second.len(), 3);

    assert!(readdir_page(1, 2, &entries, 4).is_empty());
    assert!(readdir_page(1, 2, &entries, 10).is_empty());
}

#[test]
fn run_budget_defaults_to_unbounded() {
    assert_eq!(run_budget(None), (u64::MAX, None));
    let l = PythonLimits { fuel: Some(10), max_file_size: Some(99) };
    assert_eq!(run_budget(Some(&l)), (10, Some(99)));
    let l = PythonLimits { fuel: None, max_file_size: Some(5) };
    assert_eq!(run_budget(Some(&l)), (u64::MAX, Some(5)));
    let d = PythonLimits::default();
    assert_eq!(run_budget(Some(&d)), (u64::MAX, None));
}

#[test]
fn classify_run_ends() {
    assert_eq!(
        classify_run(GuestEnd::Returned, Some(0)),
        RunVerdict { exit_code: 0, trapped: false, fuel_exhausted: false }
    );
    assert_eq!(
        classify_run(GuestEnd::Exited(3), Some(5)),
        RunVerdict { exit_code: 3, trapped: false, fuel_exhausted: false }
    );
    assert_eq!(
        classify_run(GuestEnd::Trapped, Some(0)),
        RunVerdict { exit_code: 0, trapped: true, fuel_exhausted: true }
    );
    assert_eq!(
        classify_run(GuestEnd::Trapped, Some(1)),
        RunVerdict { exit_code: 0, trapped: true, fuel_exhausted: false }
    );
    assert_eq!(
        classify_run(GuestEnd::Trapped, None),
        RunVerdict { exit_code: 0, trapped: true, fuel_exhausted: false }
    );
}

#[test]
fn read_back_what_was_written() {
    let bufs = vec![vec![5u8, 6], vec![7u8]];
    let (image, n) = splice_bytes(vec![1, 2, 3, 4, 9, 9, 9], 2, &bufs);
    assert_eq!(read_window(&image, 2, n), vec![5, 6, 7]);
    assert_eq!(image, vec![1, 2, 5, 6, 7, 9, 9]);
}
