//! The boundary layer a host dispatches into.
//!
//! The host's virtual-file-system layer works with raw path strings and
//! scatter/gather descriptors; an unverified shim turns those into the plain
//! values used here — byte slices and the safe `IOVec`/`UIO` mirrors — and
//! maps the small-integer status codes back. This layer owns the
//! mounted-or-not state, validates that every incoming path is UTF-8 before
//! the store sees it, and on read copies never more than either the file or
//! the destination region holds.
//!
//! Status convention: `0` for success, `-1` for any failure. `read` has no
//! failure code: a handle that does not name a file yields an empty
//! transfer.

use crate::errors::FsError;
use crate::model::{spec_append, spec_create, spec_find, spec_lookup, spec_remove, TreeView};
use crate::store::Store;
use crate::utf8::is_valid_utf8;
use vstd::prelude::*;
use vstd::slice::slice_to_vec;
use vstd::utf8::valid_utf8;

verus! {

/// One contiguous host-owned memory region: the safe mirror holds the
/// region's bytes themselves.
pub struct IOVec {
    pub data: Vec<u8>,
}

impl IOVec {
    /// A region holding a copy of `data`.
    pub fn from_slice(data: &[u8]) -> (r: IOVec)
        ensures
            r.data@ == data@,
    {
        IOVec { data: slice_to_vec(data) }
    }
}

/// A scatter/gather descriptor; only the single-region case exists here.
pub struct UIO {
    pub iov: IOVec,
}

impl UIO {
    /// The region's bytes.
    pub fn as_slice(&self) -> (r: &[u8])
        ensures
            r@ == self.iov.data@,
    {
        self.iov.data.as_slice()
    }
}

/// The backend as the host sees it: either a mounted store or nothing.
/// Every operation on an unmounted backend fails with `-1` and changes
/// nothing.
pub struct RustFs {
    pub store: Option<Store>,
}

impl RustFs {
    /// The backend's invariant: whatever store is mounted is well-formed.
    /// It holds for every value this interface hands out.
    pub open spec fn inv(self) -> bool {
        self.store matches Some(s) ==> s.wf()
    }

    /// Whether a store is mounted.
    pub open spec fn mounted(self) -> bool {
        self.store is Some
    }

    /// The mounted store's abstract tree.
    pub open spec fn tree(self) -> TreeView {
        self.store->0.tree()
    }

    /// The mounted store's next unused identity.
    pub open spec fn next(self) -> int {
        self.store->0.next_id as int
    }

    /// A backend with nothing mounted.
    pub fn new() -> (r: RustFs)
        ensures
            r.inv(),
            !r.mounted(),
    {
        RustFs { store: None }
    }

    /// Mounts a fresh, empty store. A store already mounted is discarded
    /// whole; merging is nobody's responsibility here.
    pub fn rustfs_mount(&mut self) -> (r: i32)
        ensures
            final(self).inv(),
            r == 0,
            final(self).mounted(),
            final(self).tree() == (TreeView::Dir {
                id: 0,
                entries: Seq::<(Seq<u8>, TreeView)>::empty(),
            }),
    {
        self.store = Some(Store::mount());
        0
    }

    /// Unmounts and drops the whole tree; every outstanding handle dangles.
    pub fn rustfs_unmount(&mut self) -> (r: i32)
        ensures
            final(self).inv(),
            r == 0,
            !final(self).mounted(),
    {
        self.store = None;
        0
    }

    /// Creates an empty file at `path` and writes its handle to `out` on
    /// success. Fails on an unmounted store, a path that is not UTF-8, a
    /// resolution failure, or an exhausted identity counter; a failure
    /// changes nothing and leaves `out` alone.
    pub fn rustfs_create(&mut self, path: &[u8], out: &mut u64) -> (r: i32)
        requires
            old(self).inv(),
        ensures
            final(self).inv(),
            final(self).mounted() == old(self).mounted(),
            !old(self).mounted() ==> r == -1 && *final(out) == *old(out) && *final(self)
                == *old(self),
            old(self).mounted() ==> ({
                let c = spec_create(old(self).tree(), path@, old(self).next());
                if valid_utf8(path@) && old(self).next() + path@.len() + 1 <= u64::MAX as int {
                    &&& (r == 0 <==> c.res is Ok)
                    &&& final(self).tree() == c.tree
                    &&& final(self).next() == c.next
                    &&& (c.res matches Ok(h) ==> *final(out) == h)
                    &&& (c.res is Err ==> r == -1 && *final(out) == *old(out))
                } else {
                    &&& r == -1
                    &&& *final(out) == *old(out)
                    &&& final(self).tree() == old(self).tree()
                    &&& final(self).next() == old(self).next()
                }
            }),
    {
        match &mut self.store {
            None => -1,
            Some(st) => {
                if !is_valid_utf8(path) {
                    return FsError::InvalidEncoding.status();
                }
                if st.next_id > u64::MAX - 1 || path.len() as u64 > u64::MAX - 1 - st.next_id {
                    return -1;
                }
                match st.create(path) {
                    Ok(h) => {
                        *out = h;
                        0
                    },
                    Err(e) => e.status(),
                }
            },
        }
    }

    /// Resolves `path` to a file and writes its handle and its current byte
    /// length to the out-slots, so the host can size its receive buffer in
    /// one round trip. Fails on an unmounted store, a path that is not
    /// UTF-8, or a path that does not resolve; a failure leaves both slots
    /// alone.
    pub fn rustfs_lookup(&self, path: &[u8], out: &mut u64, size: &mut usize) -> (r: i32)
        ensures
            !self.mounted() ==> r == -1 && *final(out) == *old(out) && *final(size) == *old(size),
            self.mounted() ==> ({
                let found = spec_lookup(self.tree(), path@);
                if valid_utf8(path@) && found is Some {
                    &&& r == 0
                    &&& *final(out) == (found->0).0
                    &&& *final(size) == (found->0).1.len()
                } else {
                    &&& r == -1
                    &&& *final(out) == *old(out)
                    &&& *final(size) == *old(size)
                }
            }),
    {
        match &self.store {
            None => -1,
            Some(st) => {
                if !is_valid_utf8(path) {
                    return FsError::InvalidEncoding.status();
                }
                match st.lookup(path) {
                    Some(p) => {
                        *out = p.0;
                        *size = p.1;
                        0
                    },
                    None => FsError::NotFound.status(),
                }
            },
        }
    }

    /// Removes the node with handle `h` — a file, or a directory with its
    /// whole subtree. Fails on an unmounted store or a handle that resolves
    /// to nothing, stale handles included.
    pub fn rustfs_remove(&mut self, h: u64) -> (r: i32)
        requires
            old(self).inv(),
        ensures
            final(self).inv(),
            final(self).mounted() == old(self).mounted(),
            !old(self).mounted() ==> r == -1 && *final(self) == *old(self),
            old(self).mounted() ==> ({
                let rem = spec_remove(old(self).tree(), h);
                &&& (r == 0 <==> rem.removed is Some)
                &&& final(self).tree() == rem.tree
                &&& final(self).next() == old(self).next()
                &&& (r == 0 ==> spec_find(final(self).tree(), h) is None)
            }),
    {
        match &mut self.store {
            None => -1,
            Some(st) => {
                if st.remove(h) {
                    0
                } else {
                    FsError::NotFound.status()
                }
            },
        }
    }

    /// Copies the file under `h` into the front of the host's region: the
    /// minimum of the file's length and the region's length, never a byte
    /// past either bound, and returns the count copied. There is no failure
    /// code: an unmounted store or a handle that names no file transfers
    /// nothing.
    pub fn rustfs_read(&self, h: u64, uio: &mut UIO) -> (r: usize)
        ensures
            final(uio).iov.data@.len() == old(uio).iov.data@.len(),
            ({
                let dest = old(uio).iov.data@;
                if self.mounted() {
                    match spec_find(self.tree(), h) {
                        Some(f) => match f {
                            TreeView::File { id, data } => ({
                                let m = if data.len() <= dest.len() {
                                    data.len()
                                } else {
                                    dest.len()
                                };
                                &&& r == m
                                &&& final(uio).iov.data@ == data.take(m as int) + dest.skip(
                                    m as int,
                                )
                            }),
                            TreeView::Dir { .. } => r == 0 && final(uio).iov.data@ == dest,
                        },
                        None => r == 0 && final(uio).iov.data@ == dest,
                    }
                } else {
                    r == 0 && final(uio).iov.data@ == dest
                }
            }),
    {
        match &self.store {
            None => 0,
            Some(st) => {
                match st.read(h) {
                    Err(_) => 0,
                    Ok(d) => {
                        let m = if d.len() <= uio.iov.data.len() {
                            d.len()
                        } else {
                            uio.iov.data.len()
                        };
                        let mut k: usize = 0;
                        while k < m
                            invariant
                                k <= m,
                                m <= d@.len(),
                                m <= uio.iov.data@.len(),
                                uio.iov.data@.len() == old(uio).iov.data@.len(),
                                forall|j: int| 0 <= j < k ==> uio.iov.data@[j] == d@[j],
                                forall|j: int|
                                    k <= j < uio.iov.data@.len() ==> uio.iov.data@[j] == old(
                                        uio,
                                    ).iov.data@[j],
                            decreases m - k,
                        {
                            let b = d[k];
                            uio.iov.data.set(k, b);
                            k += 1;
                        }
                        proof {
                            assert(uio.iov.data@ =~= d@.take(m as int) + old(
                                uio,
                            ).iov.data@.skip(m as int));
                        }
                        m
                    },
                }
            },
        }
    }

    /// Appends the host region's bytes to the file under `h`; writes never
    /// overwrite, the blob only grows. Fails on an unmounted store, a
    /// directory handle, or a handle that resolves to nothing — stale
    /// handles included — and a failure changes nothing.
    pub fn rustfs_write(&mut self, h: u64, uio: &UIO) -> (r: i32)
        requires
            old(self).inv(),
        ensures
            final(self).inv(),
            final(self).mounted() == old(self).mounted(),
            !old(self).mounted() ==> r == -1 && *final(self) == *old(self),
            old(self).mounted() ==> ({
                let w = spec_append(old(self).tree(), h, uio.iov.data@);
                &&& (r == 0 <==> w.res is Ok)
                &&& final(self).tree() == w.tree
                &&& final(self).next() == old(self).next()
                &&& (r == -1 ==> final(self).tree() == old(self).tree())
            }),
    {
        match &mut self.store {
            None => -1,
            Some(st) => {
                match st.write(h, uio.as_slice()) {
                    Ok(_) => 0,
                    Err(e) => e.status(),
                }
            },
        }
    }

    /// Resolves `path` strictly to a directory and writes its handle to
    /// `out`, usable with `rustfs_remove` to take out a whole subtree.
    pub fn rustfs_lookup_dir(&self, path: &[u8], out: &mut u64) -> (r: i32)
        ensures
            !self.mounted() ==> r == -1 && *final(out) == *old(out),
            self.mounted() ==> ({
                let found = crate::model::spec_lookup_dir(self.tree(), path@);
                if valid_utf8(path@) && found is Some {
                    r == 0 && *final(out) == found->0
                } else {
                    r == -1 && *final(out) == *old(out)
                }
            }),
    {
        match &self.store {
            None => -1,
            Some(st) => {
                if !is_valid_utf8(path) {
                    return FsError::InvalidEncoding.status();
                }
                match st.lookup_dir(path) {
                    Some(d) => {
                        *out = d;
                        0
                    },
                    None => FsError::NotFound.status(),
                }
            },
        }
    }
}

} // verus!
