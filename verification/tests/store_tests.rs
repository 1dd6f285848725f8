use rustfs::errors::FsError;
use rustfs::store::Store;

#[test]
fn lookup_missing_paths_fail() {
    let st = Store::mount();
    assert!(st.lookup(b"a").is_none());
    assert!(st.lookup(b"a/b").is_none());
    assert!(st.lookup(b"").is_none());
    assert!(st.lookup(b"/").is_none());
    assert!(st.lookup(b"deep/er/path").is_none());
}

#[test]
fn create_then_lookup_empty() {
    let mut st = Store::mount();
    let h = st.create(b"logs/boot.txt").unwrap();
    let (found, len) = st.lookup(b"logs/boot.txt").unwrap();
    assert_eq!(found, h);
    assert_eq!(len, 0);
}

#[test]
fn write_read_roundtrip_cumulative() {
    let mut st = Store::mount();
    let h = st.create(b"f").unwrap();
    st.write(h, b"ab").unwrap();
    st.write(h, b"cd").unwrap();
    assert_eq!(st.read(h).unwrap().as_slice(), b"abcd");
}

#[test]
fn stale_handle_rejected() {
    let mut st = Store::mount();
    let h = st.create(b"f").unwrap();
    st.write(h, b"data").unwrap();
    assert!(st.remove(h));
    assert_eq!(st.read(h), Err(FsError::NotFound));
    assert_eq!(st.write(h, b"more"), Err(FsError::NotFound));
    assert!(!st.remove(h));
}

#[test]
fn remove_directory_removes_descendants() {
    let mut st = Store::mount();
    let h_c = st.create(b"a/b/c").unwrap();
    let h_ab = st.lookup_dir(b"a/b").unwrap();
    assert!(st.remove(h_ab));
    assert!(st.lookup(b"a/b/c").is_none());
    assert!(st.lookup_dir(b"a/b").is_none());
    assert_eq!(st.read(h_c), Err(FsError::NotFound));
    // the outer directory is still there
    assert!(st.lookup_dir(b"a").is_some());
}

#[test]
fn mount_unmount_mount_empty() {
    let mut st = Store::mount();
    st.create(b"x").unwrap();
    st.unmount();
    let st = Store::mount();
    assert!(st.lookup(b"x").is_none());
}

#[test]
fn scenario_log_file() {
    let mut st = Store::mount();
    let h1 = st.create(b"logs/boot.txt").unwrap();
    st.write(h1, b"line1\n").unwrap();
    st.write(h1, b"line2\n").unwrap();
    let (found, len) = st.lookup(b"logs/boot.txt").unwrap();
    assert_eq!(found, h1);
    assert_eq!(len, 12);
    assert_eq!(st.read(h1).unwrap().as_slice(), b"line1\nline2\n");
    assert!(st.remove(h1));
    assert!(st.lookup(b"logs/boot.txt").is_none());
}

#[test]
fn duplicate_names_rejected() {
    // sibling names are kept unique: a second create under the same name
    // fails instead of shadowing the first
    let mut st = Store::mount();
    st.create(b"a").unwrap();
    assert_eq!(st.create(b"a"), Err(FsError::AlreadyExists));
    st.create(b"d/f").unwrap();
    assert_eq!(st.create(b"d/f"), Err(FsError::AlreadyExists));
    // a directory occupies its name as well
    assert_eq!(st.create(b"d"), Err(FsError::AlreadyExists));
}

#[test]
fn create_under_file_type_mismatch() {
    let mut st = Store::mount();
    st.create(b"a").unwrap();
    assert_eq!(st.create(b"a/b"), Err(FsError::TypeMismatch));
    assert_eq!(st.create(b"a/b/c"), Err(FsError::TypeMismatch));
}

#[test]
fn empty_components_not_found() {
    let mut st = Store::mount();
    assert_eq!(st.create(b""), Err(FsError::NotFound));
    assert_eq!(st.create(b"/x"), Err(FsError::NotFound));
    assert_eq!(st.create(b"x//y"), Err(FsError::NotFound));
    assert_eq!(st.create(b"x/"), Err(FsError::NotFound));
    // the failures left nothing behind
    assert!(st.lookup_dir(b"x").is_none());
    assert!(st.lookup(b"x").is_none());
}

#[test]
fn file_answers_for_longer_path() {
    // resolution stops at a file and ignores what path text remains:
    // a deliberate simplification, not strict VFS semantics
    let mut st = Store::mount();
    let h = st.create(b"a").unwrap();
    let (found, len) = st.lookup(b"a/b/c").unwrap();
    assert_eq!(found, h);
    assert_eq!(len, 0);
}

#[test]
fn write_to_directory_rejected() {
    let mut st = Store::mount();
    st.create(b"d/f").unwrap();
    let hd = st.lookup_dir(b"d").unwrap();
    assert_eq!(st.write(hd, b"x"), Err(FsError::TypeMismatch));
    assert_eq!(st.read(hd), Err(FsError::TypeMismatch));
}

#[test]
fn removal_keeps_siblings() {
    let mut st = Store::mount();
    let ha = st.create(b"a").unwrap();
    let hb = st.create(b"b").unwrap();
    let hc = st.create(b"c").unwrap();
    st.write(ha, b"A").unwrap();
    st.write(hc, b"C").unwrap();
    assert!(st.remove(hb));
    assert_eq!(st.lookup(b"a"), Some((ha, 1)));
    assert_eq!(st.lookup(b"c"), Some((hc, 1)));
    assert!(st.lookup(b"b").is_none());
    assert_eq!(st.read(ha).unwrap().as_slice(), b"A");
    assert_eq!(st.read(hc).unwrap().as_slice(), b"C");
}

#[test]
fn intermediate_directories_created() {
    let mut st = Store::mount();
    let h1 = st.create(b"a/b/c").unwrap();
    assert!(st.lookup_dir(b"a").is_some());
    assert!(st.lookup_dir(b"a/b").is_some());
    let h2 = st.create(b"a/b/d").unwrap();
    assert_ne!(h1, h2);
    assert!(st.lookup(b"a/b/c").is_some());
    assert!(st.lookup(b"a/b/d").is_some());
}

#[test]
fn root_is_not_removable() {
    let mut st = Store::mount();
    st.create(b"a").unwrap();
    assert!(!st.remove(0));
    assert!(st.lookup(b"a").is_some());
}

#[test]
fn handles_are_distinct() {
    let mut st = Store::mount();
    let h1 = st.create(b"x").unwrap();
    let h2 = st.create(b"y").unwrap();
    let h3 = st.create(b"sub/z").unwrap();
    assert_ne!(h1, h2);
    assert_ne!(h1, h3);
    assert_ne!(h2, h3);
}

#[test]
fn handles_never_reused_after_remove() {
    let mut st = Store::mount();
    let h1 = st.create(b"x").unwrap();
    assert!(st.remove(h1));
    let h2 = st.create(b"y").unwrap();
    assert_ne!(h1, h2);
    assert_eq!(st.read(h1), Err(FsError::NotFound));
}
