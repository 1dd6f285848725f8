use rustfs::api::{IOVec, RustFs, UIO};
use rustfs::errors::FsError;

#[test]
fn unmounted_backend_refuses_everything() {
    let mut bk = RustFs::new();
    let mut h: u64 = 7;
    let mut size: usize = 9;
    assert_eq!(bk.rustfs_create(b"f", &mut h), -1);
    assert_eq!(bk.rustfs_lookup(b"f", &mut h, &mut size), -1);
    assert_eq!(bk.rustfs_remove(1), -1);
    let uio = UIO { iov: IOVec::from_slice(b"x") };
    assert_eq!(bk.rustfs_write(1, &uio), -1);
    let mut dest = UIO { iov: IOVec::from_slice(b"....") };
    assert_eq!(bk.rustfs_read(1, &mut dest), 0);
    assert_eq!(dest.iov.data, b"....".to_vec());
    // the out-slots were left alone
    assert_eq!(h, 7);
    assert_eq!(size, 9);
}

#[test]
fn mount_and_unmount_succeed() {
    let mut bk = RustFs::new();
    assert_eq!(bk.rustfs_mount(), 0);
    assert_eq!(bk.rustfs_unmount(), 0);
}

#[test]
fn api_create_lookup_roundtrip() {
    let mut bk = RustFs::new();
    bk.rustfs_mount();
    let mut h: u64 = 0;
    assert_eq!(bk.rustfs_create(b"etc/motd", &mut h), 0);
    let mut h2: u64 = 0;
    let mut size: usize = 55;
    assert_eq!(bk.rustfs_lookup(b"etc/motd", &mut h2, &mut size), 0);
    assert_eq!(h2, h);
    assert_eq!(size, 0);
}

#[test]
fn invalid_encoding_rejected() {
    let mut bk = RustFs::new();
    bk.rustfs_mount();
    let mut h: u64 = 3;
    let mut size: usize = 0;
    assert_eq!(bk.rustfs_create(b"\xff\xfe", &mut h), -1);
    assert_eq!(bk.rustfs_create(b"dir/\xc0\xaf", &mut h), -1);
    assert_eq!(bk.rustfs_lookup(b"\x80abc", &mut h, &mut size), -1);
    assert_eq!(h, 3);
    // a well-encoded name still goes through
    assert_eq!(bk.rustfs_create("caf\u{e9}".as_bytes(), &mut h), 0);
}

#[test]
fn read_copies_at_most_either_bound() {
    let mut bk = RustFs::new();
    bk.rustfs_mount();
    let mut h: u64 = 0;
    bk.rustfs_create(b"f", &mut h);
    let uio = UIO { iov: IOVec::from_slice(b"hello world") };
    assert_eq!(bk.rustfs_write(h, &uio), 0);

    // destination shorter than the file: its length wins
    let mut small = UIO { iov: IOVec::from_slice(b".....") };
    assert_eq!(bk.rustfs_read(h, &mut small), 5);
    assert_eq!(small.iov.data, b"hello".to_vec());

    // destination longer than the file: the file's length wins, and the
    // tail of the destination stays as it was
    let mut large = UIO { iov: IOVec::from_slice(b"________________") };
    assert_eq!(bk.rustfs_read(h, &mut large), 11);
    assert_eq!(large.iov.data, b"hello world_____".to_vec());
}

#[test]
fn write_through_descriptor_appends() {
    let mut bk = RustFs::new();
    bk.rustfs_mount();
    let mut h: u64 = 0;
    bk.rustfs_create(b"f", &mut h);
    let first = UIO { iov: IOVec::from_slice(b"ab") };
    let second = UIO { iov: IOVec::from_slice(b"cd") };
    assert_eq!(bk.rustfs_write(h, &first), 0);
    assert_eq!(bk.rustfs_write(h, &second), 0);
    let mut size: usize = 0;
    let mut h2: u64 = 0;
    assert_eq!(bk.rustfs_lookup(b"f", &mut h2, &mut size), 0);
    assert_eq!(size, 4);
    let mut dest = UIO { iov: IOVec::from_slice(b"....") };
    assert_eq!(bk.rustfs_read(h, &mut dest), 4);
    assert_eq!(dest.iov.data, b"abcd".to_vec());
}

#[test]
fn remount_discards_previous_tree() {
    let mut bk = RustFs::new();
    bk.rustfs_mount();
    let mut h: u64 = 0;
    bk.rustfs_create(b"keep", &mut h);
    // mounting again while mounted discards the old tree outright
    assert_eq!(bk.rustfs_mount(), 0);
    let mut size: usize = 0;
    assert_eq!(bk.rustfs_lookup(b"keep", &mut h, &mut size), -1);
}

#[test]
fn stale_handle_through_api() {
    let mut bk = RustFs::new();
    bk.rustfs_mount();
    let mut h: u64 = 0;
    bk.rustfs_create(b"f", &mut h);
    assert_eq!(bk.rustfs_remove(h), 0);
    assert_eq!(bk.rustfs_remove(h), -1);
    let uio = UIO { iov: IOVec::from_slice(b"x") };
    assert_eq!(bk.rustfs_write(h, &uio), -1);
    let mut dest = UIO { iov: IOVec::from_slice(b"..") };
    assert_eq!(bk.rustfs_read(h, &mut dest), 0);
    assert_eq!(dest.iov.data, b"..".to_vec());
}

#[test]
fn subtree_removal_through_api() {
    let mut bk = RustFs::new();
    bk.rustfs_mount();
    let mut hc: u64 = 0;
    assert_eq!(bk.rustfs_create(b"a/b/c", &mut hc), 0);
    let mut hab: u64 = 0;
    assert_eq!(bk.rustfs_lookup_dir(b"a/b", &mut hab), 0);
    assert_eq!(bk.rustfs_remove(hab), 0);
    let mut h: u64 = 0;
    let mut size: usize = 0;
    assert_eq!(bk.rustfs_lookup(b"a/b/c", &mut h, &mut size), -1);
    assert_eq!(bk.rustfs_lookup_dir(b"a/b", &mut hab), -1);
}

#[test]
fn descriptor_mirrors_bytes() {
    let iov = IOVec::from_slice(b"abc");
    assert_eq!(iov.data, b"abc".to_vec());
    let uio = UIO { iov };
    assert_eq!(uio.as_slice(), b"abc");
}

#[test]
fn every_error_maps_to_failure_status() {
    assert_eq!(FsError::NotFound.status(), -1);
    assert_eq!(FsError::InvalidEncoding.status(), -1);
    assert_eq!(FsError::TypeMismatch.status(), -1);
    assert_eq!(FsError::AlreadyExists.status(), -1);
}
