use rustfs::fs::{Node, RustNode};

fn fresh_root() -> Node {
    Node::Directory(0, Vec::new())
}

#[test]
fn node_create_and_lookup() {
    let mut root = fresh_root();
    let mut next: u64 = 1;
    let h = root.create(b"etc/hosts", &mut next).unwrap();
    let f = root.lookup(b"etc/hosts").unwrap();
    assert_eq!(f.id, h);
    assert_eq!(f.read(), b"");
    assert!(root.lookup(b"etc/none").is_none());
    assert!(next > h);
}

#[test]
fn node_remove_returns_subtree() {
    let mut root = fresh_root();
    let mut next: u64 = 1;
    root.create(b"a/b/c", &mut next).unwrap();
    let removed = root.remove(root.lookup_dir(b"a").unwrap()).unwrap();
    // the subtree came out whole: it still resolves its own paths
    assert!(removed.lookup(b"b/c").is_some());
    assert!(root.lookup(b"a/b/c").is_none());
    assert!(root.remove(9999).is_none());
}

#[test]
fn node_id_and_find() {
    let mut root = fresh_root();
    let mut next: u64 = 1;
    let h = root.create(b"f", &mut next).unwrap();
    assert_eq!(root.node_id(), 0);
    let found = root.find(h).unwrap();
    assert_eq!(found.node_id(), h);
    assert!(root.find(4242).is_none());
}

#[test]
fn node_append_by_handle() {
    let mut root = fresh_root();
    let mut next: u64 = 1;
    let h = root.create(b"f", &mut next).unwrap();
    root.append(h, b"one").unwrap();
    root.append(h, b"two").unwrap();
    assert_eq!(root.lookup(b"f").unwrap().read(), b"onetwo");
}

#[test]
fn rustnode_read_write() {
    let mut f = RustNode { id: 1, data: Vec::new() };
    assert_eq!(f.read(), b"");
    f.write(b"ab");
    f.write(b"cd");
    assert_eq!(f.read(), b"abcd");
    assert_eq!(f.id, 1);
}
