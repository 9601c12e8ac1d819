use media_manager::domain::fs::detect::{
    default_no_replace_strategy, detect_volume_semantics, lacks_rename_no_replace, sensitivity_of,
};
use media_manager::domain::fs::faulty::{Fault, FaultyFs, InjectErr, Method};
use media_manager::domain::fs::mem::MemFs;
use media_manager::domain::fs::{
    destination_occupied_error, is_cross_device, CancelToken, FileSystem, IoError, IoKind, Stamp,
};
use media_manager::domain::path::FilePath;
use media_manager::domain::volume::{ComponentLimit, NoReplaceStrategy, VolumeSemantics};

fn path(s: &str) -> FilePath {
    FilePath::new(s)
}

#[test]
fn memfs_rename_no_replace_is_atomic() {
    let mut fs = MemFs::with_volume(VolumeSemantics::sensitive_bytes());
    fs.seed_file(&path("/lib/a.txt"), b"hi".to_vec());
    fs.seed_file(&path("/lib/b.txt"), b"yo".to_vec());
    let err = fs
        .rename_no_replace(&path("/lib/a.txt"), &path("/lib/b.txt"))
        .unwrap_err();
    assert_eq!(err.kind, IoKind::AlreadyExists);
    assert!(fs.metadata(&path("/lib/a.txt")).is_ok());
}

#[test]
fn memfs_copy_into_writes_bytes() {
    let mut fs = MemFs::new();
    fs.seed_file(&path("/s.bin"), vec![9u8; 64]);
    let mut h = fs.create_new(&path("/d.bin")).unwrap();
    let n = fs
        .copy_into(&path("/s.bin"), &mut h, &CancelToken::new())
        .unwrap();
    assert_eq!(n, 64);
    let m = fs.metadata(&path("/d.bin")).unwrap();
    assert_eq!(m.len, 64);
}

#[test]
fn injects_permission_denied_on_nth_call() {
    let mut mem = MemFs::new();
    let p = path("/x");
    mem.seed_file(&p, b"hi".to_vec());
    let mut fs = FaultyFs::with_faults(
        mem,
        vec![Fault {
            call_index: 1,
            method: Method::RemoveFile,
            err: InjectErr::PermissionDenied,
        }],
    );
    let err = fs.remove_file(&p).unwrap_err();
    assert_eq!(err.kind, IoKind::PermissionDenied);
    fs.remove_file(&p).unwrap();
}

#[test]
fn counted_failures_reach_every_method() {
    let mut mem = MemFs::new();
    mem.seed_file(&path("/x"), b"hi".to_vec());
    let mut fs = FaultyFs::new(mem).fail_at_nth(2);
    assert!(fs.metadata(&path("/x")).is_ok());
    assert!(fs.metadata(&path("/x")).is_err());
    assert_eq!(fs.inner().read(&path("/x")), Some(b"hi".to_vec()));
}

#[test]
fn injected_errors_have_their_kinds() {
    for (err, kind) in [
        (InjectErr::PermissionDenied, IoKind::PermissionDenied),
        (InjectErr::ReadOnlyFilesystem, IoKind::ReadOnlyFilesystem),
        (InjectErr::CrossesDevices, IoKind::CrossesDevices),
        (InjectErr::NotFound, IoKind::NotFound),
        (InjectErr::AlreadyExists, IoKind::AlreadyExists),
        (InjectErr::StorageFull, IoKind::StorageFull),
        (InjectErr::Interrupted, IoKind::Interrupted),
    ] {
        let mut fs = FaultyFs::with_faults(
            MemFs::new(),
            vec![Fault { call_index: 1, method: Method::SyncDir, err }],
        );
        assert_eq!(fs.sync_dir(&path("/")).unwrap_err().kind, kind);
    }
}

#[test]
fn memfs_moves_and_removes() {
    let mut fs = MemFs::new();
    fs.seed_file(&path("/lib/a/x"), b"1".to_vec());
    fs.rename_no_replace(&path("/lib/a/x"), &path("/lib/a/y")).unwrap();
    assert_eq!(fs.read(&path("/lib/a/y")), Some(b"1".to_vec()));
    assert_eq!(fs.read(&path("/lib/a/x")), None);
    assert_eq!(fs.remove_dir(&path("/lib/a")).unwrap_err().kind, IoKind::DirectoryNotEmpty);
    fs.remove_file(&path("/lib/a/y")).unwrap();
    assert!(fs.is_dir_empty(&path("/lib/a")).unwrap());
    fs.remove_dir(&path("/lib/a")).unwrap();
    assert_eq!(fs.metadata(&path("/lib/a")).unwrap_err().kind, IoKind::NotFound);
}

#[test]
fn memfs_renames_what_a_directory_holds() {
    let mut fs = MemFs::new();
    fs.seed_file(&path("/lib/foo/x"), b"1".to_vec());
    fs.rename_no_replace(&path("/lib/foo"), &path("/lib/Foo")).unwrap();
    assert_eq!(fs.read(&path("/lib/Foo/x")), Some(b"1".to_vec()));
}

#[test]
fn memfs_replaces_when_asked() {
    let mut fs = MemFs::new();
    fs.seed_file(&path("/a"), b"new".to_vec());
    fs.seed_file(&path("/b"), b"old".to_vec());
    fs.rename_replace(&path("/a"), &path("/b")).unwrap();
    assert_eq!(fs.read(&path("/b")), Some(b"new".to_vec()));
    assert_eq!(fs.read(&path("/a")), None);
}

#[test]
fn memfs_links_and_stamps() {
    let mut fs = MemFs::new();
    fs.seed_file(&path("/a"), b"x".to_vec());
    fs.seed_symlink(&path("/l"), &path("/a"));
    assert!(fs.symlink_metadata(&path("/l")).unwrap().is_symlink);
    assert_eq!(fs.read_link(&path("/l")).unwrap().to_text(), "/a");
    let t = Stamp { secs: 7, nanos: 5 };
    fs.set_mtime(&path("/a"), t).unwrap();
    let m = fs.metadata(&path("/a")).unwrap().modified.unwrap();
    assert_eq!((m.secs, m.nanos), (7, 5));
}

#[test]
fn hash_is_that_of_the_bytes() {
    let mut fs = MemFs::new();
    fs.seed_file(&path("/empty"), Vec::new());
    fs.seed_file(&path("/a"), b"abc".to_vec());
    let go = CancelToken::new();
    assert_eq!(
        fs.hash(&path("/empty"), &go).unwrap().0,
        "af1349b9f5f9a1a6a0404dea36dcc9499bcb25c9adc112b7cc9a93cae41f3262"
    );
    assert_eq!(
        fs.hash(&path("/a"), &go).unwrap().0,
        "6437b3ac38465133ffb63b75273a8db548c558465d79db03fd359c6cd5bd9d85"
    );
}

#[test]
fn cancelled_work_is_interrupted() {
    let go = CancelToken::new();
    assert!(!go.is_cancelled());
    assert!(go.check().is_ok());
    go.set();
    assert!(go.is_cancelled());
    assert_eq!(go.check().unwrap_err().kind, IoKind::Interrupted);
}

#[test]
fn errors_are_told_apart() {
    assert!(is_cross_device(&IoError::of(IoKind::CrossesDevices)));
    let exdev = IoError { kind: IoKind::Other, raw_os: Some(18), message: "x".to_string() };
    assert!(is_cross_device(&exdev));
    assert!(!is_cross_device(&IoError::of(IoKind::NotFound)));
    assert!(destination_occupied_error(&IoError::of(IoKind::AlreadyExists)));
    assert!(!destination_occupied_error(&IoError::of(IoKind::PermissionDenied)));
    assert!(!lacks_rename_no_replace(&IoError::of(IoKind::AlreadyExists)));
}

#[test]
fn volumes_are_told_by_their_magic() {
    // ext4 tells cases and forms apart.
    let ext4 = sensitivity_of(0xEF53);
    assert_eq!(ext4, Some((true, true)));
    let v = detect_volume_semantics(Some(255), Some(4096), ext4);
    assert!(v.case_sensitive);
    assert_eq!(v.max_component, ComponentLimit::Bytes(255));
    assert_eq!(v.max_total, 4096);
    assert_eq!(default_no_replace_strategy(&v, ext4), NoReplaceStrategy::Native);
    let unknown = sensitivity_of(0x1234_5678);
    assert_eq!(unknown, None);
    let c = detect_volume_semantics(None, None, unknown);
    assert_eq!(default_no_replace_strategy(&c, unknown), NoReplaceStrategy::Reserve);
}

#[test]
fn memfs_directories_stop_at_a_file() {
    let mut fs = MemFs::new();
    fs.seed_file(&path("/lib/a"), b"x".to_vec());
    assert_eq!(fs.create_dir_all(&path("/lib/a/b")).unwrap_err().kind, IoKind::NotADirectory);
    assert_eq!(fs.create_new(&path("/lib/a/b")).unwrap_err().kind, IoKind::NotADirectory);
    fs.create_dir_all(&path("/lib/c/d")).unwrap();
    assert!(fs.metadata(&path("/lib/c")).unwrap().is_dir);
    assert_eq!(fs.create_new(&path("/lib/c")).unwrap_err().kind, IoKind::AlreadyExists);
    assert_eq!(fs.remove_dir(&path("/lib/a")).unwrap_err().kind, IoKind::NotFound);
    assert_eq!(fs.remove_file(&path("/lib/c")).unwrap_err().kind, IoKind::IsADirectory);
    assert_eq!(
        fs.rename_no_replace(&path("/lib/c"), &path("/lib/c/e")).unwrap_err().kind,
        IoKind::InvalidInput
    );
}

#[test]
fn cancelled_copies_and_hashes_are_interrupted() {
    let mut fs = MemFs::new();
    fs.seed_file(&path("/a"), b"x".to_vec());
    let stop = CancelToken::new();
    stop.set();
    assert_eq!(fs.hash(&path("/a"), &stop).unwrap_err().kind, IoKind::Interrupted);
    assert_eq!(fs.hash(&path("/b"), &stop).unwrap_err().kind, IoKind::NotFound);
    let mut h = fs.create_new(&path("/c")).unwrap();
    assert_eq!(fs.copy_into(&path("/a"), &mut h, &stop).unwrap_err().kind, IoKind::Interrupted);
}
