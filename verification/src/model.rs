//! Mathematical model of the tree store.
//!
//! `TreeView` is the abstraction of a store node: a directory with a name to
//! subtree sequence, or a file holding a byte blob. Every node carries a
//! numeric identity, the value handed out as an opaque handle. The spec
//! functions here define path resolution, creation, removal and the append
//! write over this model; the executable tree in `fs` is proved to implement
//! them exactly.

use crate::errors::FsError;
use vstd::prelude::*;

verus! {

/// The path separator byte, `'/'`.
pub const SEP: u8 = 47;

/// Abstract value of one tree node.
pub ghost enum TreeView {
    /// A directory: its identity and the sequence of (name, subtree) entries,
    /// in insertion order.
    Dir { id: u64, entries: Seq<(Seq<u8>, TreeView)> },
    /// A file: its identity and its byte contents.
    File { id: u64, data: Seq<u8> },
}

impl TreeView {
    /// The identity of the node itself.
    pub open spec fn node_id(self) -> u64 {
        match self {
            TreeView::Dir { id, .. } => id,
            TreeView::File { id, .. } => id,
        }
    }
}

/// Index of the first separator in `path`, or `path.len()` when there is none.
pub open spec fn sep_at(path: Seq<u8>) -> int
    decreases path.len(),
{
    if path.len() == 0 {
        0
    } else if path[0] == SEP {
        0
    } else {
        1 + sep_at(path.drop_first())
    }
}

/// Whether `path` holds a separator at all.
pub open spec fn has_sep(path: Seq<u8>) -> bool {
    exists|i: int| 0 <= i < path.len() && path[i] == SEP
}

/// The text before the first separator; the whole path when there is none.
pub open spec fn head_of(path: Seq<u8>) -> Seq<u8> {
    if 0 <= sep_at(path) <= path.len() {
        path.subrange(0, sep_at(path))
    } else {
        path
    }
}

/// The text after the first separator; empty when there is none.
pub open spec fn tail_of(path: Seq<u8>) -> Seq<u8> {
    if has_sep(path) && 0 <= sep_at(path) < path.len() {
        path.subrange(sep_at(path) + 1, path.len() as int)
    } else {
        Seq::empty()
    }
}

/// `sep_at` is the first separator position: everything before it is another
/// byte, and it lands on a separator exactly when the path has one.
pub proof fn lemma_sep_at(path: Seq<u8>)
    ensures
        0 <= sep_at(path) <= path.len(),
        forall|i: int| 0 <= i < sep_at(path) ==> path[i] != SEP,
        sep_at(path) < path.len() ==> path[sep_at(path)] == SEP,
        has_sep(path) <==> sep_at(path) < path.len(),
    decreases path.len(),
{
    if path.len() == 0 {
    } else if path[0] == SEP {
    } else {
        lemma_sep_at(path.drop_first());
        assert forall|i: int| 0 <= i < sep_at(path) implies path[i] != SEP by {
            if i > 0 {
                assert(path.drop_first()[i - 1] != SEP);
            }
        }
        if has_sep(path) {
            let w = choose|i: int| 0 <= i < path.len() && path[i] == SEP;
            assert(path.drop_first()[w - 1] == SEP);
        }
        if has_sep(path.drop_first()) {
            let w = choose|i: int|
                0 <= i < path.drop_first().len() && path.drop_first()[i] == SEP;
            assert(path[w + 1] == SEP);
        }
    }
}

/// A position with a separator behind it and none before it is exactly where
/// `sep_at` points.
pub proof fn lemma_sep_at_is(path: Seq<u8>, i: int)
    requires
        0 <= i <= path.len(),
        forall|j: int| 0 <= j < i ==> path[j] != SEP,
        i < path.len() ==> path[i] == SEP,
    ensures
        sep_at(path) == i,
{
    lemma_sep_at(path);
    if sep_at(path) < i {
        assert(path[sep_at(path)] != SEP);
    }
    if i < sep_at(path) {
        assert(path[i] != SEP);
    }
}

/// First index at or after `k` whose entry carries `name`, if any.
pub open spec fn entry_index(
    entries: Seq<(Seq<u8>, TreeView)>,
    k: int,
    name: Seq<u8>,
) -> Option<int>
    decreases entries.len() - k,
{
    if k < 0 || k >= entries.len() {
        None
    } else if entries[k].0 == name {
        Some(k)
    } else {
        entry_index(entries, k + 1, name)
    }
}

/// Bounds and meaning of `entry_index`.
pub proof fn lemma_entry_index(entries: Seq<(Seq<u8>, TreeView)>, k: int, name: Seq<u8>)
    requires
        0 <= k,
    ensures
        match entry_index(entries, k, name) {
            Some(j) => k <= j < entries.len() && entries[j].0 == name && forall|i: int|
                k <= i < j ==> entries[i].0 != name,
            None => forall|i: int| k <= i < entries.len() ==> entries[i].0 != name,
        },
    decreases entries.len() - k,
{
    if 0 <= k < entries.len() && entries[k].0 != name {
        lemma_entry_index(entries, k + 1, name);
    }
}

/// A scan that has passed `k` entries without a match starts as well at `k`.
pub proof fn lemma_entry_index_skip(entries: Seq<(Seq<u8>, TreeView)>, k: int, name: Seq<u8>)
    requires
        0 <= k <= entries.len(),
        forall|i: int| 0 <= i < k ==> entries[i].0 != name,
    ensures
        entry_index(entries, 0, name) == entry_index(entries, k, name),
    decreases k,
{
    if k > 0 {
        lemma_entry_index_shift(entries, 0, k - 1, name);
    }
}

proof fn lemma_entry_index_shift(entries: Seq<(Seq<u8>, TreeView)>, lo: int, hi: int, name: Seq<u8>)
    requires
        0 <= lo <= hi < entries.len(),
        forall|i: int| lo <= i <= hi ==> entries[i].0 != name,
    ensures
        entry_index(entries, lo, name) == entry_index(entries, hi + 1, name),
    decreases hi - lo,
{
    if lo < hi {
        lemma_entry_index_shift(entries, lo + 1, hi, name);
    }
}

/// Resolution of `path` against the tree: split at the first separator,
/// follow the directory entry named by the head, and let a file answer for
/// itself whatever path text remains — a deliberate simplification, not
/// strict VFS semantics. Returns the identity and contents of the file
/// found.
pub open spec fn spec_lookup(t: TreeView, path: Seq<u8>) -> Option<(u64, Seq<u8>)>
    decreases t, 0int,
{
    match t {
        TreeView::File { id, data } => Some((id, data)),
        TreeView::Dir { id, entries } => lookup_entries(entries, 0, path),
    }
}

/// Scan of the entries from index `k` for the head of `path`; the first
/// matching name wins.
pub open spec fn lookup_entries(
    entries: Seq<(Seq<u8>, TreeView)>,
    k: int,
    path: Seq<u8>,
) -> Option<(u64, Seq<u8>)>
    decreases entries, entries.len() - k,
{
    if k < 0 || k >= entries.len() {
        None
    } else if entries[k].0 == head_of(path) {
        spec_lookup(entries[k].1, tail_of(path))
    } else {
        lookup_entries(entries, k + 1, path)
    }
}

/// The entry scan of a lookup is the entry scan for the path's head.
pub proof fn lemma_lookup_entries_by_index(
    entries: Seq<(Seq<u8>, TreeView)>,
    k: int,
    path: Seq<u8>,
)
    requires
        0 <= k,
    ensures
        lookup_entries(entries, k, path) == match entry_index(entries, k, head_of(path)) {
            Some(j) => spec_lookup(entries[j].1, tail_of(path)),
            None => None::<(u64, Seq<u8>)>,
        },
    decreases entries.len() - k,
{
    if 0 <= k < entries.len() && entries[k].0 != head_of(path) {
        lemma_lookup_entries_by_index(entries, k + 1, path);
    }
}

/// Outcome of a creation: the result handed back, the tree afterwards, and
/// the next unused identity. A failed creation leaves tree and identity
/// counter exactly as they were.
pub ghost struct CreateOut {
    pub res: Result<u64, FsError>,
    pub tree: TreeView,
    pub next: int,
}

/// Creation of a file at `path`. Resolution descends one component at a
/// time; directories missing on the way are created, a file on the way is a
/// `TypeMismatch`, an empty component is `NotFound`, and a final name already
/// present is `AlreadyExists`. On success the new file's identity is
/// returned and fresh identities are drawn from `next` upwards.
pub open spec fn spec_create(t: TreeView, path: Seq<u8>, next: int) -> CreateOut
    decreases path.len(),
{
    match t {
        TreeView::File { .. } => (CreateOut { res: Err(FsError::TypeMismatch), tree: t, next }),
        TreeView::Dir { id, entries } => {
            let head = head_of(path);
            if head.len() == 0 {
                CreateOut { res: Err(FsError::NotFound), tree: t, next }
            } else if !has_sep(path) {
                // `path` itself is the new file's name.
                if entry_index(entries, 0, head) is Some {
                    CreateOut { res: Err(FsError::AlreadyExists), tree: t, next }
                } else {
                    CreateOut {
                        res: Ok(next as u64),
                        tree: TreeView::Dir {
                            id,
                            entries: entries.push(
                                (head, TreeView::File { id: next as u64, data: Seq::empty() }),
                            ),
                        },
                        next: next + 1,
                    }
                }
            } else {
                match entry_index(entries, 0, head) {
                    Some(j) => {
                        let sub = spec_create(entries[j].1, tail_of(path), next);
                        if sub.res is Ok {
                            CreateOut {
                                res: sub.res,
                                tree: TreeView::Dir {
                                    id,
                                    entries: entries.update(j, (head, sub.tree)),
                                },
                                next: sub.next,
                            }
                        } else {
                            CreateOut { res: sub.res, tree: t, next }
                        }
                    },
                    None => {
                        let fresh = TreeView::Dir { id: next as u64, entries: Seq::empty() };
                        let sub = spec_create(fresh, tail_of(path), next + 1);
                        if sub.res is Ok {
                            CreateOut {
                                res: sub.res,
                                tree: TreeView::Dir {
                                    id,
                                    entries: entries.push((head, sub.tree)),
                                },
                                next: sub.next,
                            }
                        } else {
                            CreateOut { res: sub.res, tree: t, next }
                        }
                    },
                }
            }
        },
    }
}

/// A failed creation touches nothing: tree and identity counter come back
/// exactly as they went in.
pub proof fn lemma_create_err_unchanged(t: TreeView, path: Seq<u8>, next: int)
    requires
        spec_create(t, path, next).res is Err,
    ensures
        spec_create(t, path, next).tree == t,
        spec_create(t, path, next).next == next,
{
}

/// The entry sequence after a swap-with-last removal at `j`: the last entry
/// takes the removed one's place, so sibling order is not stable.
pub open spec fn seq_swap_remove(
    s: Seq<(Seq<u8>, TreeView)>,
    j: int,
) -> Seq<(Seq<u8>, TreeView)> {
    s.update(j, s.last()).drop_last()
}

/// Outcome of a removal: the tree afterwards and the subtree taken out, if
/// the identity was found.
pub ghost struct RemoveOut {
    pub tree: TreeView,
    pub removed: Option<TreeView>,
}

/// Removal of the node with identity `target`. The search is depth first:
/// each directory first scans its own entries for the identity, then lets
/// the children search in order. The removed entry's whole subtree comes
/// out; a miss leaves the tree untouched.
pub open spec fn spec_remove(t: TreeView, target: u64) -> RemoveOut
    decreases t, 0int,
{
    match t {
        TreeView::File { .. } => (RemoveOut { tree: t, removed: None }),
        TreeView::Dir { id, entries } => {
            match direct_index(entries, 0, target) {
                Some(j) => RemoveOut {
                    tree: TreeView::Dir { id, entries: seq_swap_remove(entries, j) },
                    removed: Some(entries[j].1),
                },
                None => {
                    let sub = remove_entries(entries, 0, target);
                    RemoveOut { tree: TreeView::Dir { id, entries: sub.0 }, removed: sub.1 }
                },
            }
        },
    }
}

/// First index at or after `k` whose entry's own node carries `target`.
pub open spec fn direct_index(
    entries: Seq<(Seq<u8>, TreeView)>,
    k: int,
    target: u64,
) -> Option<int>
    decreases entries.len() - k,
{
    if k < 0 || k >= entries.len() {
        None
    } else if entries[k].1.node_id() == target {
        Some(k)
    } else {
        direct_index(entries, k + 1, target)
    }
}

/// Recursive removal inside the children, from index `k` on: the first child
/// whose subtree holds `target` is replaced by its reduced form.
pub open spec fn remove_entries(
    entries: Seq<(Seq<u8>, TreeView)>,
    k: int,
    target: u64,
) -> (Seq<(Seq<u8>, TreeView)>, Option<TreeView>)
    decreases entries, entries.len() - k,
{
    if k < 0 || k >= entries.len() {
        (entries, None)
    } else {
        let sub = spec_remove(entries[k].1, target);
        if sub.removed is Some {
            (entries.update(k, (entries[k].0, sub.tree)), sub.removed)
        } else {
            remove_entries(entries, k + 1, target)
        }
    }
}

/// Bounds and meaning of `direct_index`.
pub proof fn lemma_direct_index(entries: Seq<(Seq<u8>, TreeView)>, k: int, target: u64)
    requires
        0 <= k,
    ensures
        match direct_index(entries, k, target) {
            Some(j) => k <= j < entries.len() && entries[j].1.node_id() == target && forall|i: int|
                k <= i < j ==> entries[i].1.node_id() != target,
            None => forall|i: int| k <= i < entries.len() ==> entries[i].1.node_id() != target,
        },
    decreases entries.len() - k,
{
    if 0 <= k < entries.len() && entries[k].1.node_id() != target {
        lemma_direct_index(entries, k + 1, target);
    }
}

/// A direct scan that has passed `k` entries without a hit starts as well at `k`.
pub proof fn lemma_direct_index_skip(entries: Seq<(Seq<u8>, TreeView)>, k: int, target: u64)
    requires
        0 <= k <= entries.len(),
        forall|i: int| 0 <= i < k ==> entries[i].1.node_id() != target,
    ensures
        direct_index(entries, 0, target) == direct_index(entries, k, target),
    decreases k,
{
    if k > 0 {
        lemma_direct_index_skip_shift(entries, 0, k - 1, target);
    }
}

proof fn lemma_direct_index_skip_shift(
    entries: Seq<(Seq<u8>, TreeView)>,
    lo: int,
    hi: int,
    target: u64,
)
    requires
        0 <= lo <= hi < entries.len(),
        forall|i: int| lo <= i <= hi ==> entries[i].1.node_id() != target,
    ensures
        direct_index(entries, lo, target) == direct_index(entries, hi + 1, target),
    decreases hi - lo,
{
    if lo < hi {
        lemma_direct_index_skip_shift(entries, lo + 1, hi, target);
    }
}

/// A recursive removal scan that found nothing in the first `k` children
/// starts as well at `k`.
pub proof fn lemma_remove_entries_skip(entries: Seq<(Seq<u8>, TreeView)>, k: int, target: u64)
    requires
        0 <= k <= entries.len(),
        forall|i: int| 0 <= i < k ==> spec_remove(#[trigger] entries[i].1, target).removed is None,
    ensures
        remove_entries(entries, 0, target) == remove_entries(entries, k, target),
    decreases k,
{
    if k > 0 {
        lemma_remove_entries_skip_shift(entries, 0, k - 1, target);
    }
}

proof fn lemma_remove_entries_skip_shift(
    entries: Seq<(Seq<u8>, TreeView)>,
    lo: int,
    hi: int,
    target: u64,
)
    requires
        0 <= lo <= hi < entries.len(),
        forall|i: int| lo <= i <= hi ==> spec_remove(#[trigger] entries[i].1, target).removed is None,
    ensures
        remove_entries(entries, lo, target) == remove_entries(entries, hi + 1, target),
    decreases hi - lo,
{
    if lo < hi {
        lemma_remove_entries_skip_shift(entries, lo + 1, hi, target);
    }
}

/// Depth-first search for the node with identity `target`; the first hit in
/// preorder wins.
pub open spec fn spec_find(t: TreeView, target: u64) -> Option<TreeView>
    decreases t, 0int,
{
    match t {
        TreeView::File { id, .. } => if id == target {
            Some(t)
        } else {
            None
        },
        TreeView::Dir { id, entries } => if id == target {
            Some(t)
        } else {
            find_entries(entries, 0, target)
        },
    }
}

/// Search of the children from index `k` on.
pub open spec fn find_entries(
    entries: Seq<(Seq<u8>, TreeView)>,
    k: int,
    target: u64,
) -> Option<TreeView>
    decreases entries, entries.len() - k,
{
    if k < 0 || k >= entries.len() {
        None
    } else {
        match spec_find(entries[k].1, target) {
            Some(found) => Some(found),
            None => find_entries(entries, k + 1, target),
        }
    }
}

/// A removal that found nothing touches nothing.
pub proof fn lemma_remove_none_unchanged(t: TreeView, target: u64)
    ensures
        spec_remove(t, target).removed is None ==> spec_remove(t, target).tree == t,
    decreases t, 0int,
{
    match t {
        TreeView::File { .. } => {},
        TreeView::Dir { id, entries } => {
            if direct_index(entries, 0, target) is None {
                lemma_remove_entries_none(entries, 0, target);
            }
        },
    }
}

/// A removal scan that found nothing hands the entries back unchanged.
pub proof fn lemma_remove_entries_none(entries: Seq<(Seq<u8>, TreeView)>, k: int, target: u64)
    ensures
        remove_entries(entries, k, target).1 is None ==> remove_entries(entries, k, target).0
            == entries,
    decreases entries, entries.len() - k,
{
    if 0 <= k < entries.len() {
        if spec_remove(entries[k].1, target).removed is None {
            lemma_remove_entries_none(entries, k + 1, target);
        }
    }
}

/// A find scan that missed in the first `k` children starts as well at `k`.
pub proof fn lemma_find_entries_skip(entries: Seq<(Seq<u8>, TreeView)>, k: int, target: u64)
    requires
        0 <= k <= entries.len(),
        forall|i: int| 0 <= i < k ==> spec_find(#[trigger] entries[i].1, target) is None,
    ensures
        find_entries(entries, 0, target) == find_entries(entries, k, target),
    decreases k,
{
    if k > 0 {
        lemma_find_entries_skip_shift(entries, 0, k - 1, target);
    }
}

proof fn lemma_find_entries_skip_shift(
    entries: Seq<(Seq<u8>, TreeView)>,
    lo: int,
    hi: int,
    target: u64,
)
    requires
        0 <= lo <= hi < entries.len(),
        forall|i: int| lo <= i <= hi ==> spec_find(#[trigger] entries[i].1, target) is None,
    ensures
        find_entries(entries, lo, target) == find_entries(entries, hi + 1, target),
    decreases hi - lo,
{
    if lo < hi {
        lemma_find_entries_skip_shift(entries, lo + 1, hi, target);
    }
}

/// Outcome of an append write: the tree afterwards and the result. A failed
/// write leaves the tree untouched.
pub ghost struct AppendOut {
    pub tree: TreeView,
    pub res: Result<(), FsError>,
}

/// Append of `bytes` to the file with identity `target`, found by the same
/// depth-first search as `spec_find`. Writes never overwrite: the blob only
/// grows at its end. A directory under that identity is a `TypeMismatch`;
/// an absent identity is `NotFound`.
pub open spec fn spec_append(t: TreeView, target: u64, bytes: Seq<u8>) -> AppendOut
    decreases t, 0int,
{
    match t {
        TreeView::File { id, data } => if id == target {
            AppendOut { tree: TreeView::File { id, data: data + bytes }, res: Ok(()) }
        } else {
            AppendOut { tree: t, res: Err(FsError::NotFound) }
        },
        TreeView::Dir { id, entries } => if id == target {
            AppendOut { tree: t, res: Err(FsError::TypeMismatch) }
        } else {
            let sub = append_entries(entries, 0, target, bytes);
            AppendOut { tree: TreeView::Dir { id, entries: sub.0 }, res: sub.1 }
        },
    }
}

/// Append inside the children, from index `k` on: the first child whose
/// subtree holds `target` decides the outcome.
pub open spec fn append_entries(
    entries: Seq<(Seq<u8>, TreeView)>,
    k: int,
    target: u64,
    bytes: Seq<u8>,
) -> (Seq<(Seq<u8>, TreeView)>, Result<(), FsError>)
    decreases entries, entries.len() - k,
{
    if k < 0 || k >= entries.len() {
        (entries, Err(FsError::NotFound))
    } else {
        let sub = spec_append(entries[k].1, target, bytes);
        match sub.res {
            Err(FsError::NotFound) => append_entries(entries, k + 1, target, bytes),
            Ok(_) => (entries.update(k, (entries[k].0, sub.tree)), Ok(())),
            Err(e) => (entries, Err(e)),
        }
    }
}

/// An append that did not reach a file touches nothing.
pub proof fn lemma_append_err_unchanged(t: TreeView, target: u64, bytes: Seq<u8>)
    ensures
        !(spec_append(t, target, bytes).res is Ok) ==> spec_append(t, target, bytes).tree == t,
    decreases t, 0int,
{
    match t {
        TreeView::File { .. } => {},
        TreeView::Dir { id, entries } => {
            if id != target {
                lemma_append_entries_err(entries, 0, target, bytes);
            }
        },
    }
}

/// An append scan that did not reach a file hands the entries back unchanged.
pub proof fn lemma_append_entries_err(
    entries: Seq<(Seq<u8>, TreeView)>,
    k: int,
    target: u64,
    bytes: Seq<u8>,
)
    ensures
        !(append_entries(entries, k, target, bytes).1 is Ok) ==> append_entries(
            entries,
            k,
            target,
            bytes,
        ).0 == entries,
    decreases entries, entries.len() - k,
{
    if 0 <= k < entries.len() {
        if spec_append(entries[k].1, target, bytes).res == Err::<(), FsError>(FsError::NotFound) {
            lemma_append_entries_err(entries, k + 1, target, bytes);
        }
    }
}

/// An append scan that missed in the first `k` children starts as well at `k`.
pub proof fn lemma_append_entries_skip(
    entries: Seq<(Seq<u8>, TreeView)>,
    k: int,
    target: u64,
    bytes: Seq<u8>,
)
    requires
        0 <= k <= entries.len(),
        forall|i: int|
            0 <= i < k ==> spec_append(#[trigger] entries[i].1, target, bytes).res == Err::<
                (),
                FsError,
            >(FsError::NotFound),
    ensures
        append_entries(entries, 0, target, bytes) == append_entries(entries, k, target, bytes),
    decreases k,
{
    if k > 0 {
        lemma_append_entries_skip_shift(entries, 0, k - 1, target, bytes);
    }
}

proof fn lemma_append_entries_skip_shift(
    entries: Seq<(Seq<u8>, TreeView)>,
    lo: int,
    hi: int,
    target: u64,
    bytes: Seq<u8>,
)
    requires
        0 <= lo <= hi < entries.len(),
        forall|i: int|
            lo <= i <= hi ==> spec_append(#[trigger] entries[i].1, target, bytes).res == Err::<
                (),
                FsError,
            >(FsError::NotFound),
    ensures
        append_entries(entries, lo, target, bytes) == append_entries(entries, hi + 1, target, bytes),
    decreases hi - lo,
{
    if lo < hi {
        lemma_append_entries_skip_shift(entries, lo + 1, hi, target, bytes);
    }
}

/// Strict resolution of `path` to a directory: every component must name a
/// directory, the path must be non-empty, and no file quirk applies.
/// Returns the directory's identity.
pub open spec fn spec_lookup_dir(t: TreeView, path: Seq<u8>) -> Option<u64>
    decreases t, 0int,
{
    match t {
        TreeView::File { .. } => None,
        TreeView::Dir { id, entries } => {
            if head_of(path).len() == 0 {
                None
            } else {
                lookup_dir_entries(entries, 0, path)
            }
        },
    }
}

/// Scan of the entries from index `k` for the head of `path`; on the final
/// component the match itself must be a directory.
pub open spec fn lookup_dir_entries(
    entries: Seq<(Seq<u8>, TreeView)>,
    k: int,
    path: Seq<u8>,
) -> Option<u64>
    decreases entries, entries.len() - k,
{
    if k < 0 || k >= entries.len() {
        None
    } else if entries[k].0 == head_of(path) {
        if !has_sep(path) {
            match entries[k].1 {
                TreeView::Dir { id, .. } => Some(id),
                TreeView::File { .. } => None,
            }
        } else {
            spec_lookup_dir(entries[k].1, tail_of(path))
        }
    } else {
        lookup_dir_entries(entries, k + 1, path)
    }
}

/// The directory scan of a strict directory resolution is the entry scan for
/// the path's head.
pub proof fn lemma_lookup_dir_entries_by_index(
    entries: Seq<(Seq<u8>, TreeView)>,
    k: int,
    path: Seq<u8>,
)
    requires
        0 <= k,
    ensures
        lookup_dir_entries(entries, k, path) == match entry_index(entries, k, head_of(path)) {
            Some(j) => if !has_sep(path) {
                match entries[j].1 {
                    TreeView::Dir { id, .. } => Some(id),
                    TreeView::File { .. } => None,
                }
            } else {
                spec_lookup_dir(entries[j].1, tail_of(path))
            },
            None => None::<u64>,
        },
    decreases entries.len() - k,
{
    if 0 <= k < entries.len() && entries[k].0 != head_of(path) {
        lemma_lookup_dir_entries_by_index(entries, k + 1, path);
    }
}

/// How often the identity `x` occurs in the tree.
pub open spec fn id_count(t: TreeView, x: u64) -> nat
    decreases t, 0int,
{
    match t {
        TreeView::File { id, .. } => if id == x {
            1nat
        } else {
            0nat
        },
        TreeView::Dir { id, entries } => (if id == x {
            1nat
        } else {
            0nat
        }) + entries_count(entries, x),
    }
}

/// How often the identity `x` occurs below the children.
pub open spec fn entries_count(entries: Seq<(Seq<u8>, TreeView)>, x: u64) -> nat
    decreases entries, 0int,
{
    if entries.len() == 0 {
        0nat
    } else {
        id_count(entries[0].1, x) + entries_count(entries.drop_first(), x)
    }
}

/// Well-formedness of a tree against its identity counter: every identity
/// was drawn below the counter, and no identity occurs twice.
pub open spec fn tree_wf(t: TreeView, next: int) -> bool {
    &&& forall|x: u64| id_count(t, x) > 0 ==> (x as int) < next
    &&& forall|x: u64| #[trigger] id_count(t, x) <= 1
}

/// Pushing an entry adds the identities of its subtree.
pub proof fn lemma_entries_count_push(
    entries: Seq<(Seq<u8>, TreeView)>,
    e: (Seq<u8>, TreeView),
    x: u64,
)
    ensures
        entries_count(entries.push(e), x) == entries_count(entries, x) + id_count(e.1, x),
    decreases entries.len(),
{
    if entries.len() == 0 {
        assert(entries.push(e)[0] == e);
        assert(entries.push(e).drop_first() =~= Seq::<(Seq<u8>, TreeView)>::empty());
        assert(entries_count(entries.push(e).drop_first(), x) == 0);
        assert(entries_count(entries.push(e), x) == id_count(e.1, x));
        assert(entries_count(entries, x) == 0);
    } else {
        assert(entries.push(e).drop_first() =~= entries.drop_first().push(e));
        assert(entries.push(e)[0] == entries[0]);
        lemma_entries_count_push(entries.drop_first(), e, x);
    }
}

/// Replacing one entry trades the identities of the old subtree for those of
/// the new one.
pub proof fn lemma_entries_count_update(
    entries: Seq<(Seq<u8>, TreeView)>,
    j: int,
    e: (Seq<u8>, TreeView),
    x: u64,
)
    requires
        0 <= j < entries.len(),
    ensures
        entries_count(entries.update(j, e), x) + id_count(entries[j].1, x) == entries_count(
            entries,
            x,
        ) + id_count(e.1, x),
    decreases entries.len(),
{
    if j == 0 {
        assert(entries.update(0, e)[0] == e);
        assert(entries.update(0, e).drop_first() =~= entries.drop_first());
    } else {
        assert(entries.update(j, e)[0] == entries[0]);
        assert(entries.update(j, e).drop_first() =~= entries.drop_first().update(j - 1, e));
        lemma_entries_count_update(entries.drop_first(), j - 1, e, x);
    }
}

/// Dropping the last entry takes away the identities of its subtree.
pub proof fn lemma_entries_count_drop_last(entries: Seq<(Seq<u8>, TreeView)>, x: u64)
    requires
        entries.len() > 0,
    ensures
        entries_count(entries, x) == entries_count(entries.drop_last(), x) + id_count(
            entries.last().1,
            x,
        ),
    decreases entries.len(),
{
    if entries.len() == 1 {
        assert(entries.drop_last() =~= Seq::<(Seq<u8>, TreeView)>::empty());
        assert(entries_count(entries.drop_first(), x) == 0);
        assert(entries_count(entries.drop_last(), x) == 0);
        assert(entries.last() == entries[0]);
    } else {
        assert(entries.drop_last()[0] == entries[0]);
        assert(entries.drop_first().drop_last() =~= entries.drop_last().drop_first());
        assert(entries.drop_first().last() == entries.last());
        lemma_entries_count_drop_last(entries.drop_first(), x);
    }
}

/// One child's identities never outnumber the whole sequence's.
pub proof fn lemma_entries_count_elem(entries: Seq<(Seq<u8>, TreeView)>, j: int, x: u64)
    requires
        0 <= j < entries.len(),
    ensures
        entries_count(entries, x) >= id_count(entries[j].1, x),
    decreases entries.len(),
{
    if j > 0 {
        lemma_entries_count_elem(entries.drop_first(), j - 1, x);
    }
}

/// A node holds its own identity.
pub proof fn lemma_id_count_own(t: TreeView, x: u64)
    requires
        t.node_id() == x,
    ensures
        id_count(t, x) >= 1,
{
}

/// What a removal takes out carries exactly the identity it was asked for.
pub proof fn lemma_remove_removed_id(t: TreeView, target: u64)
    ensures
        match spec_remove(t, target).removed {
            Some(r) => r.node_id() == target,
            None => true,
        },
    decreases t, 0int,
{
    match t {
        TreeView::File { .. } => {},
        TreeView::Dir { id, entries } => {
            match direct_index(entries, 0, target) {
                Some(j) => {
                    lemma_direct_index(entries, 0, target);
                },
                None => {
                    lemma_remove_entries_removed_id(entries, 0, target);
                },
            }
        },
    }
}

proof fn lemma_remove_entries_removed_id(entries: Seq<(Seq<u8>, TreeView)>, k: int, target: u64)
    ensures
        match remove_entries(entries, k, target).1 {
            Some(r) => r.node_id() == target,
            None => true,
        },
    decreases entries, entries.len() - k,
{
    if 0 <= k < entries.len() {
        if spec_remove(entries[k].1, target).removed is Some {
            lemma_remove_removed_id(entries[k].1, target);
        } else {
            lemma_remove_entries_removed_id(entries, k + 1, target);
        }
    }
}

/// A removal moves identities out of the tree and nowhere else: what stays
/// plus what was taken out is what was there.
pub proof fn lemma_remove_count(t: TreeView, target: u64, x: u64)
    ensures
        match spec_remove(t, target).removed {
            Some(r) => id_count(spec_remove(t, target).tree, x) + id_count(r, x) == id_count(t, x),
            None => spec_remove(t, target).tree == t,
        },
    decreases t, 0int,
{
    match t {
        TreeView::File { .. } => {},
        TreeView::Dir { id, entries } => {
            match direct_index(entries, 0, target) {
                Some(j) => {
                    lemma_direct_index(entries, 0, target);
                    let last = entries.last();
                    let up = entries.update(j, last);
                    lemma_entries_count_update(entries, j, last, x);
                    lemma_entries_count_drop_last(up, x);
                    assert(up.last() == last);
                },
                None => {
                    lemma_remove_entries_count(entries, 0, target, x);
                },
            }
        },
    }
}

proof fn lemma_remove_entries_count(
    entries: Seq<(Seq<u8>, TreeView)>,
    k: int,
    target: u64,
    x: u64,
)
    requires
        0 <= k,
    ensures
        match remove_entries(entries, k, target).1 {
            Some(r) => entries_count(remove_entries(entries, k, target).0, x) + id_count(r, x)
                == entries_count(entries, x),
            None => remove_entries(entries, k, target).0 == entries,
        },
    decreases entries, entries.len() - k,
{
    if 0 <= k < entries.len() {
        let sub = spec_remove(entries[k].1, target);
        if sub.removed is Some {
            lemma_remove_count(entries[k].1, target, x);
            lemma_entries_count_update(entries, k, (entries[k].0, sub.tree), x);
        } else {
            lemma_remove_count(entries[k].1, target, x);
            lemma_remove_entries_count(entries, k + 1, target, x);
        }
    }
}

/// An append write changes contents, never identities.
pub proof fn lemma_append_count(t: TreeView, target: u64, bytes: Seq<u8>, x: u64)
    ensures
        id_count(spec_append(t, target, bytes).tree, x) == id_count(t, x),
    decreases t, 0int,
{
    match t {
        TreeView::File { .. } => {},
        TreeView::Dir { id, entries } => {
            if id != target {
                lemma_append_entries_count(entries, 0, target, bytes, x);
            }
        },
    }
}

proof fn lemma_append_entries_count(
    entries: Seq<(Seq<u8>, TreeView)>,
    k: int,
    target: u64,
    bytes: Seq<u8>,
    x: u64,
)
    requires
        0 <= k,
    ensures
        entries_count(append_entries(entries, k, target, bytes).0, x) == entries_count(entries, x),
    decreases entries, entries.len() - k,
{
    if 0 <= k < entries.len() {
        let sub = spec_append(entries[k].1, target, bytes);
        match sub.res {
            Err(FsError::NotFound) => {
                lemma_append_entries_count(entries, k + 1, target, bytes, x);
            },
            Ok(_) => {
                lemma_append_count(entries[k].1, target, bytes, x);
                lemma_entries_count_update(entries, k, (entries[k].0, sub.tree), x);
            },
            Err(_) => {},
        }
    }
}

/// What the search finds carries the identity it was asked for, and that
/// identity is in the tree.
pub proof fn lemma_find_some(t: TreeView, target: u64)
    ensures
        match spec_find(t, target) {
            Some(f) => f.node_id() == target && id_count(t, target) >= 1,
            None => true,
        },
    decreases t, 0int,
{
    match t {
        TreeView::File { .. } => {},
        TreeView::Dir { id, entries } => {
            if id != target {
                lemma_find_entries_some(entries, 0, target);
            }
        },
    }
}

proof fn lemma_find_entries_some(entries: Seq<(Seq<u8>, TreeView)>, k: int, target: u64)
    requires
        0 <= k,
    ensures
        match find_entries(entries, k, target) {
            Some(f) => f.node_id() == target && entries_count(entries, target) >= 1,
            None => true,
        },
    decreases entries, entries.len() - k,
{
    if 0 <= k < entries.len() {
        match spec_find(entries[k].1, target) {
            Some(_) => {
                lemma_find_some(entries[k].1, target);
                lemma_entries_count_elem(entries, k, target);
            },
            None => {
                lemma_find_entries_some(entries, k + 1, target);
            },
        }
    }
}

/// What a lookup returns is a file that really sits in the tree: its
/// identity occurs, with exactly the returned contents.
pub proof fn lemma_lookup_in_tree(t: TreeView, path: Seq<u8>)
    ensures
        match spec_lookup(t, path) {
            Some(p) => id_count(t, p.0) >= 1,
            None => true,
        },
    decreases t, 0int,
{
    match t {
        TreeView::File { .. } => {},
        TreeView::Dir { id, entries } => {
            lemma_lookup_entries_in_tree(entries, 0, path);
        },
    }
}

proof fn lemma_lookup_entries_in_tree(entries: Seq<(Seq<u8>, TreeView)>, k: int, path: Seq<u8>)
    requires
        0 <= k,
    ensures
        match lookup_entries(entries, k, path) {
            Some(p) => entries_count(entries, p.0) >= 1,
            None => true,
        },
    decreases entries, entries.len() - k,
{
    if 0 <= k < entries.len() {
        if entries[k].0 == head_of(path) {
            lemma_lookup_in_tree(entries[k].1, tail_of(path));
            match lookup_entries(entries, k, path) {
                Some(p) => {
                    lemma_entries_count_elem(entries, k, p.0);
                },
                None => {},
            }
        } else {
            lemma_lookup_entries_in_tree(entries, k + 1, path);
        }
    }
}

/// An append stands or falls with the search: it succeeds exactly on a file
/// handle, fails with `TypeMismatch` exactly on a directory handle, fails
/// with `NotFound` exactly on an absent one — and on success the search
/// afterwards sees the same file with the bytes appended.
pub proof fn lemma_append_find(t: TreeView, target: u64, bytes: Seq<u8>)
    ensures
        ({
            let out = spec_append(t, target, bytes);
            match spec_find(t, target) {
                None => out.res == Err::<(), FsError>(FsError::NotFound),
                Some(f) => match f {
                    TreeView::File { id, data } => out.res == Ok::<(), FsError>(()) && spec_find(
                        out.tree,
                        target,
                    ) == Some(TreeView::File { id: target, data: data + bytes }),
                    TreeView::Dir { .. } => out.res == Err::<(), FsError>(FsError::TypeMismatch),
                },
            }
        }),
    decreases t, 0int,
{
    match t {
        TreeView::File { .. } => {},
        TreeView::Dir { id, entries } => {
            if id != target {
                lemma_append_find_entries(entries, 0, target, bytes);
            }
        },
    }
}

proof fn lemma_append_find_entries(
    entries: Seq<(Seq<u8>, TreeView)>,
    k: int,
    target: u64,
    bytes: Seq<u8>,
)
    requires
        0 <= k,
    ensures
        ({
            let out = append_entries(entries, k, target, bytes);
            match find_entries(entries, k, target) {
                None => out.1 == Err::<(), FsError>(FsError::NotFound),
                Some(f) => match f {
                    TreeView::File { id, data } => out.1 == Ok::<(), FsError>(()) && find_entries(
                        out.0,
                        k,
                        target,
                    ) == Some(TreeView::File { id: target, data: data + bytes }),
                    TreeView::Dir { .. } => out.1 == Err::<(), FsError>(FsError::TypeMismatch),
                },
            }
        }),
    decreases entries, entries.len() - k,
{
    if 0 <= k < entries.len() {
        lemma_append_find(entries[k].1, target, bytes);
        lemma_find_some(entries[k].1, target);
        match spec_find(entries[k].1, target) {
            Some(f) => {
                if f is File {
                    let sub = spec_append(entries[k].1, target, bytes);
                    let s2 = entries.update(k, (entries[k].0, sub.tree));
                    assert(s2[k].1 == sub.tree);
                    assert(forall|i: int| k <= i < entries.len() ==> i != k ==> s2[i] == entries[i]);
                }
            },
            None => {
                lemma_append_find_entries(entries, k + 1, target, bytes);
                // the updated suffix leaves the entries before it untouched
                let out = append_entries(entries, k + 1, target, bytes);
                if find_entries(entries, k + 1, target) is Some {
                    match find_entries(entries, k + 1, target) {
                        Some(f) => {
                            if f is File {
                                assert(out.0.len() == entries.len()) by {
                                    lemma_append_entries_len(entries, k + 1, target, bytes);
                                }
                                assert(out.0[k] == entries[k]) by {
                                    lemma_append_entries_frame(entries, k + 1, target, bytes, k);
                                }
                            }
                        },
                        None => {},
                    }
                }
            },
        }
    }
}

/// An append scan keeps the number of entries.
proof fn lemma_append_entries_len(
    entries: Seq<(Seq<u8>, TreeView)>,
    k: int,
    target: u64,
    bytes: Seq<u8>,
)
    ensures
        append_entries(entries, k, target, bytes).0.len() == entries.len(),
    decreases entries, entries.len() - k,
{
    if 0 <= k < entries.len() {
        match spec_append(entries[k].1, target, bytes).res {
            Err(FsError::NotFound) => {
                lemma_append_entries_len(entries, k + 1, target, bytes);
            },
            _ => {},
        }
    }
}

/// An append scan from `k` leaves every entry before `k` untouched.
proof fn lemma_append_entries_frame(
    entries: Seq<(Seq<u8>, TreeView)>,
    k: int,
    target: u64,
    bytes: Seq<u8>,
    i: int,
)
    requires
        0 <= i < k,
        i < entries.len(),
    ensures
        append_entries(entries, k, target, bytes).0.len() == entries.len(),
        append_entries(entries, k, target, bytes).0[i] == entries[i],
    decreases entries, entries.len() - k,
{
    lemma_append_entries_len(entries, k, target, bytes);
    if 0 <= k < entries.len() {
        match spec_append(entries[k].1, target, bytes).res {
            Err(FsError::NotFound) => {
                lemma_append_entries_frame(entries, k + 1, target, bytes, i);
            },
            _ => {},
        }
    }
}

/// A creation draws fresh identities from `next` on, consecutively: the
/// counter never falls, rises at most one step per path byte, and on success
/// exactly the identities between the old and the new counter were added,
/// the returned handle among them. A failure changes nothing.
pub proof fn lemma_create_count(t: TreeView, path: Seq<u8>, next: int, x: u64)
    requires
        0 <= next,
        next + path.len() + 1 <= u64::MAX as int,
    ensures
        next <= spec_create(t, path, next).next <= next + path.len() + 1,
        match spec_create(t, path, next).res {
            Ok(h) => next <= h as int && (h as int) < spec_create(t, path, next).next
                && id_count(spec_create(t, path, next).tree, x) == id_count(t, x) + (
            if next <= x as int && (x as int) < spec_create(t, path, next).next {
                1nat
            } else {
                0nat
            }),
            Err(_) => spec_create(t, path, next).tree == t && spec_create(t, path, next).next
                == next,
        },
    decreases path.len(),
{
    let out = spec_create(t, path, next);
    match t {
        TreeView::File { .. } => {},
        TreeView::Dir { id, entries } => {
            let head = head_of(path);
            lemma_sep_at(path);
            if head.len() == 0 {
            } else if !has_sep(path) {
                if entry_index(entries, 0, head) is None {
                    let e = (head, TreeView::File { id: next as u64, data: Seq::<u8>::empty() });
                    lemma_entries_count_push(entries, e, x);
                }
            } else {
                let rest = tail_of(path);
                assert(rest.len() < path.len());
                match entry_index(entries, 0, head) {
                    Some(j) => {
                        lemma_entry_index(entries, 0, head);
                        let sub = spec_create(entries[j].1, rest, next);
                        lemma_create_count(entries[j].1, rest, next, x);
                        if sub.res is Ok {
                            lemma_entries_count_update(entries, j, (head, sub.tree), x);
                            lemma_entries_count_elem(entries, j, x);
                        }
                    },
                    None => {
                        let fresh = TreeView::Dir {
                            id: next as u64,
                            entries: Seq::<(Seq<u8>, TreeView)>::empty(),
                        };
                        let sub = spec_create(fresh, rest, next + 1);
                        lemma_create_count(fresh, rest, next + 1, x);
                        if sub.res is Ok {
                            lemma_entries_count_push(entries, (head, sub.tree), x);
                        }
                    },
                }
            }
        },
    }
}

/// A file just created is found again under the very path that created it,
/// under the returned handle, with nothing in it yet.
pub proof fn lemma_create_lookup(t: TreeView, path: Seq<u8>, next: int)
    requires
        spec_create(t, path, next).res is Ok,
    ensures
        ({
            let out = spec_create(t, path, next);
            spec_lookup(out.tree, path) == Some((out.res->Ok_0, Seq::<u8>::empty()))
        }),
    decreases path.len(),
{
    let out = spec_create(t, path, next);
    match t {
        TreeView::File { .. } => {},
        TreeView::Dir { id, entries } => {
            let head = head_of(path);
            lemma_sep_at(path);
            if !has_sep(path) {
                // the file itself was appended at the end
                let e = (head, TreeView::File { id: next as u64, data: Seq::<u8>::empty() });
                let s2 = entries.push(e);
                lemma_entry_index(entries, 0, head);
                assert(forall|i: int| 0 <= i < entries.len() ==> s2[i] == entries[i]);
                lemma_entry_index_skip(s2, entries.len() as int, head);
                assert(entry_index(s2, 0, head) == Some(entries.len() as int));
                lemma_lookup_entries_by_index(s2, 0, path);
            } else {
                let rest = tail_of(path);
                match entry_index(entries, 0, head) {
                    Some(j) => {
                        lemma_entry_index(entries, 0, head);
                        let sub = spec_create(entries[j].1, rest, next);
                        let s2 = entries.update(j, (head, sub.tree));
                        lemma_create_lookup(entries[j].1, rest, next);
                        assert(forall|i: int| 0 <= i < j ==> s2[i] == entries[i]);
                        lemma_entry_index_skip(s2, j, head);
                        assert(entry_index(s2, 0, head) == Some(j));
                        lemma_lookup_entries_by_index(s2, 0, path);
                    },
                    None => {
                        let fresh = TreeView::Dir {
                            id: next as u64,
                            entries: Seq::<(Seq<u8>, TreeView)>::empty(),
                        };
                        let sub = spec_create(fresh, rest, next + 1);
                        let s2 = entries.push((head, sub.tree));
                        lemma_entry_index(entries, 0, head);
                        lemma_create_lookup(fresh, rest, next + 1);
                        assert(forall|i: int| 0 <= i < entries.len() ==> s2[i] == entries[i]);
                        lemma_entry_index_skip(s2, entries.len() as int, head);
                        assert(entry_index(s2, 0, head) == Some(entries.len() as int));
                        lemma_lookup_entries_by_index(s2, 0, path);
                    },
                }
            }
        },
    }
}

} // verus!
