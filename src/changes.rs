use vstd::prelude::*;

use crate::bytes::{bytes_equal, copy_bytes};
use crate::replication::ErrorKind;

verus! {

/// How a path changed between a commit's parent tree and its own tree.
#[derive(PartialEq, Eq, Structural, Clone, Copy, Debug)]
pub enum ChangeKind {
    Added,
    Modified,
    Deleted,
}

/// One path's change: for `Added` and `Modified` the new content of the
/// file; for `Deleted` the content is empty and unused.
pub struct ChangeEntry {
    pub path: Vec<u8>,
    pub kind: ChangeKind,
    pub content: Vec<u8>,
}

/// A change entry as mathematical values.
pub ghost struct EntryView {
    pub path: Seq<u8>,
    pub kind: ChangeKind,
    pub content: Seq<u8>,
}

impl View for ChangeEntry {
    type V = EntryView;

    open spec fn view(&self) -> EntryView {
        EntryView { path: self.path@, kind: self.kind, content: self.content@ }
    }
}

/// A file tree: each file's path mapped to its content.
pub type Tree = Map<Seq<u8>, Seq<u8>>;

/// The content at `p` in `t`, if there is a file there.
pub open spec fn file_at(t: Tree, p: Seq<u8>) -> Option<Seq<u8>> {
    if t.contains_key(p) {
        Some(t[p])
    } else {
        None
    }
}

/// No two entries name the same path.
pub open spec fn unique_paths(es: Seq<EntryView>) -> bool {
    forall|i: int, j: int| 0 <= i < j < es.len() ==> es[i].path != es[j].path
}

/// The tree after one change: a write puts the content at the path
/// (replacing what was there); a deletion removes the path if present.
pub open spec fn apply_entry(t: Tree, e: EntryView) -> Tree {
    match e.kind {
        ChangeKind::Deleted => t.remove(e.path),
        _ => t.insert(e.path, e.content),
    }
}

/// The tree after applying the changes in order.
pub open spec fn apply_all(t: Tree, es: Seq<EntryView>) -> Tree
    decreases es.len(),
{
    if es.len() == 0 {
        t
    } else {
        apply_all(apply_entry(t, es[0]), es.drop_first())
    }
}

/// The entry says truly how its path changed from `old` to `new`.
pub open spec fn entry_describes(old: Tree, new: Tree, e: EntryView) -> bool {
    match e.kind {
        ChangeKind::Added => !old.contains_key(e.path) && file_at(new, e.path) == Some(e.content),
        ChangeKind::Modified => old.contains_key(e.path) && file_at(new, e.path) == Some(e.content)
            && old[e.path] != e.content,
        ChangeKind::Deleted => old.contains_key(e.path) && !new.contains_key(e.path),
    }
}

/// The changes are the minimal diff from tree `old` to tree `new`: one
/// true entry for each path whose file differs, and no other.
pub open spec fn is_tree_diff(old: Tree, new: Tree, es: Seq<EntryView>) -> bool {
    &&& unique_paths(es)
    &&& forall|i: int| 0 <= i < es.len() ==> entry_describes(old, new, #[trigger] es[i])
    &&& forall|p: Seq<u8>|
        file_at(old, p) != file_at(new, p) ==> exists|i: int|
            0 <= i < es.len() && (#[trigger] es[i]).path == p
}

/// How the version-control library reports a path between two trees.
#[derive(PartialEq, Eq, Structural, Clone, Copy, Debug)]
pub enum DeltaStatus {
    Added,
    Modified,
    Deleted,
    /// A submodule entry: it has no file content and is not replicated.
    Submodule,
    /// Any other status (renamed, copied, unreadable, ...): not expected
    /// from a plain tree-to-tree diff, and refused.
    Other,
}

/// One path of a tree-to-tree diff as the version-control library gives
/// it: its status, its path (if it has one), and the new content, which is
/// absent when the file could not be read.
pub struct RawDelta {
    pub status: DeltaStatus,
    pub path: Option<Vec<u8>>,
    pub content: Option<Vec<u8>>,
}

/// The delta can be turned into a change: a known status, a path, and the
/// new content of a written file.
pub open spec fn delta_ok(d: RawDelta) -> bool {
    &&& d.status != DeltaStatus::Other
    &&& d.status == DeltaStatus::Submodule || d.path is Some
    &&& (d.status == DeltaStatus::Added || d.status == DeltaStatus::Modified) ==> d.content is Some
}

/// Every delta can be turned into a change.
pub open spec fn all_ok(ds: Seq<RawDelta>) -> bool {
    forall|i: int| 0 <= i < ds.len() ==> delta_ok(#[trigger] ds[i])
}

/// A deletion directly followed by an addition of the same path: the way
/// the diff reports a path whose file type changed.
pub open spec fn is_replacement(a: RawDelta, b: RawDelta) -> bool {
    &&& a.status == DeltaStatus::Deleted
    &&& b.status == DeltaStatus::Added
    &&& a.path is Some
    &&& b.path is Some
    &&& a.path.unwrap()@ == b.path.unwrap()@
}

/// The content a delta carries, empty where it has none.
pub open spec fn content_of(d: RawDelta) -> Seq<u8> {
    match d.content {
        Some(c) => c@,
        None => Seq::empty(),
    }
}

/// The change entry for a single delta; none for a submodule.
pub open spec fn entry_of(d: RawDelta) -> Option<EntryView> {
    match d.path {
        None => None,
        Some(p) => match d.status {
            DeltaStatus::Added => Some(
                EntryView { path: p@, kind: ChangeKind::Added, content: content_of(d) },
            ),
            DeltaStatus::Modified => Some(
                EntryView { path: p@, kind: ChangeKind::Modified, content: content_of(d) },
            ),
            DeltaStatus::Deleted => Some(
                EntryView { path: p@, kind: ChangeKind::Deleted, content: Seq::empty() },
            ),
            _ => None,
        },
    }
}

/// The entry of a single delta, as a sequence of at most one.
pub open spec fn entries_single(d: RawDelta) -> Seq<EntryView> {
    match entry_of(d) {
        Some(e) => seq![e],
        None => Seq::empty(),
    }
}

/// The change entries for a sequence of deltas, in the same order; a
/// replacement of a path becomes one modification carrying the new content.
pub open spec fn entries_of(ds: Seq<RawDelta>) -> Seq<EntryView>
    decreases ds.len(),
{
    if ds.len() == 0 {
        Seq::empty()
    } else if ds.len() >= 2 && is_replacement(ds[0], ds[1]) {
        seq![
            EntryView {
                path: ds[1].path.unwrap()@,
                kind: ChangeKind::Modified,
                content: content_of(ds[1]),
            },
        ] + entries_of(ds.subrange(2, ds.len() as int))
    } else {
        entries_single(ds[0]) + entries_of(ds.drop_first())
    }
}

/// The change entries as mathematical values.
pub open spec fn entries_view(es: Seq<ChangeEntry>) -> Seq<EntryView> {
    es.map_values(|e: ChangeEntry| e@)
}

/// True when no two entries name the same path.
pub fn has_unique_paths(es: &Vec<ChangeEntry>) -> (r: bool)
    ensures
        r == unique_paths(entries_view(es@)),
{
    let ghost v = entries_view(es@);
    let mut j: usize = 0;
    while j < es.len()
        invariant
            j <= es.len(),
            v == entries_view(es@),
            forall|a: int, b: int| 0 <= a < b < j ==> v[a].path != v[b].path,
        decreases es.len() - j,
    {
        let mut i: usize = 0;
        while i < j
            invariant
                i <= j < es.len(),
                v == entries_view(es@),
                forall|a: int, b: int| 0 <= a < b < j ==> v[a].path != v[b].path,
                forall|a: int| 0 <= a < i ==> v[a].path != v[j as int].path,
            decreases j - i,
        {
            if bytes_equal(&es[i].path, &es[j].path) {
                assert(v[i as int].path == v[j as int].path);
                return false;
            }
            i = i + 1;
        }
        j = j + 1;
    }
    true
}

fn delta_is_ok(d: &RawDelta) -> (r: bool)
    ensures
        r == delta_ok(*d),
{
    match d.status {
        DeltaStatus::Other => false,
        DeltaStatus::Submodule => true,
        DeltaStatus::Deleted => d.path.is_some(),
        _ => d.path.is_some() && d.content.is_some(),
    }
}

fn replaces(a: &RawDelta, b: &RawDelta) -> (r: bool)
    ensures
        r == is_replacement(*a, *b),
{
    if a.status != DeltaStatus::Deleted || b.status != DeltaStatus::Added {
        return false;
    }
    match (&a.path, &b.path) {
        (Some(p), Some(q)) => bytes_equal(p, q),
        _ => false,
    }
}

/// Turns the deltas of one commit into its change entries, in the same
/// order; a deletion directly followed by an addition of the same path
/// becomes one modification, and submodule entries are left out. Fails with
/// `DiffComputation` when a delta has an unknown status, no path, or no
/// content for a written file, or when two entries name the same path.
pub fn materialize(ds: &Vec<RawDelta>) -> (r: Result<Vec<ChangeEntry>, ErrorKind>)
    ensures
        match r {
            Ok(es) => {
                &&& all_ok(ds@)
                &&& unique_paths(entries_of(ds@))
                &&& entries_view(es@) == entries_of(ds@)
            },
            Err(k) => {
                &&& k == ErrorKind::DiffComputation
                &&& !all_ok(ds@) || !unique_paths(entries_of(ds@))
            },
        },
{
    let mut k: usize = 0;
    while k < ds.len()
        invariant
            k <= ds.len(),
            forall|j: int| 0 <= j < k ==> delta_ok(#[trigger] ds@[j]),
        decreases ds.len() - k,
    {
        if !delta_is_ok(&ds[k]) {
            return Err(ErrorKind::DiffComputation);
        }
        k = k + 1;
    }
    let mut es: Vec<ChangeEntry> = Vec::new();
    let mut i: usize = 0;
    assert(ds@.subrange(0, ds@.len() as int) =~= ds@);
    while i < ds.len()
        invariant
            i <= ds.len(),
            all_ok(ds@),
            entries_of(ds@) == entries_view(es@) + entries_of(
                ds@.subrange(i as int, ds@.len() as int),
            ),
        decreases ds.len() - i,
    {
        let ghost rest = ds@.subrange(i as int, ds@.len() as int);
        let ghost before = entries_view(es@);
        assert(rest[0] == ds@[i as int]);
        if i + 1 < ds.len() && replaces(&ds[i], &ds[i + 1]) {
            assert(rest[1] == ds@[i + 1]);
            assert(rest.subrange(2, rest.len() as int) =~= ds@.subrange(
                i + 2,
                ds@.len() as int,
            ));
            let next = &ds[i + 1];
            let (p, c) = match (&next.path, &next.content) {
                (Some(p), Some(c)) => (p, c),
                _ => {
                    assert(delta_ok(ds@[i + 1]));
                    return Err(ErrorKind::DiffComputation);
                },
            };
            es.push(
                ChangeEntry { path: copy_bytes(p), kind: ChangeKind::Modified, content: copy_bytes(c) },
            );
            assert(entries_view(es@) =~= before + seq![
                EntryView { path: p@, kind: ChangeKind::Modified, content: c@ },
            ]);
            i = i + 2;
        } else {
            assert(rest.drop_first() =~= ds@.subrange(i + 1, ds@.len() as int));
            assert(rest.len() >= 2 ==> rest[1] == ds@[i + 1]);
            let d = &ds[i];
            match &d.path {
                None => {},
                Some(p) => {
                    match d.status {
                        DeltaStatus::Deleted => {
                            es.push(
                                ChangeEntry {
                                    path: copy_bytes(p),
                                    kind: ChangeKind::Deleted,
                                    content: Vec::new(),
                                },
                            );
                        },
                        DeltaStatus::Added | DeltaStatus::Modified => {
                            let kind = if d.status == DeltaStatus::Added {
                                ChangeKind::Added
                            } else {
                                ChangeKind::Modified
                            };
                            match &d.content {
                                None => {
                                    assert(delta_ok(ds@[i as int]));
                                    return Err(ErrorKind::DiffComputation);
                                },
                                Some(c) => {
                                    es.push(
                                        ChangeEntry {
                                            path: copy_bytes(p),
                                            kind,
                                            content: copy_bytes(c),
                                        },
                                    );
                                },
                            }
                        },
                        _ => {},
                    }
                },
            }
            assert(entries_view(es@) =~= before + entries_single(ds@[i as int]));
            i = i + 1;
        }
        assert(entries_of(ds@) == entries_view(es@) + entries_of(
            ds@.subrange(i as int, ds@.len() as int),
        ));
    }
    assert(entries_of(ds@.subrange(ds@.len() as int, ds@.len() as int)) =~= Seq::<EntryView>::empty());
    assert(entries_view(es@) + Seq::<EntryView>::empty() =~= entries_view(es@));
    if has_unique_paths(&es) {
        Ok(es)
    } else {
        Err(ErrorKind::DiffComputation)
    }
}

/// Only the entries for `p` touch the file at `p`.
proof fn lemma_apply_all_at(t: Tree, es: Seq<EntryView>, p: Seq<u8>)
    requires
        unique_paths(es),
    ensures
        (forall|i: int| 0 <= i < es.len() ==> (#[trigger] es[i]).path != p) ==> file_at(
            apply_all(t, es),
            p,
        ) == file_at(t, p),
        forall|i: int|
            0 <= i < es.len() && (#[trigger] es[i]).path == p ==> file_at(apply_all(t, es), p)
                == file_at(apply_entry(t, es[i]), p),
    decreases es.len(),
{
    if es.len() > 0 {
        let t1 = apply_entry(t, es[0]);
        let rest = es.drop_first();
        assert(unique_paths(rest)) by {
            assert forall|i: int, j: int| 0 <= i < j < rest.len() implies rest[i].path
                != rest[j].path by {
                assert(rest[i] == es[i + 1] && rest[j] == es[j + 1]);
            }
        }
        lemma_apply_all_at(t1, rest, p);
        if es[0].path == p {
            assert forall|i: int| 0 <= i < rest.len() implies (#[trigger] rest[i]).path != p by {
                assert(rest[i] == es[i + 1]);
            }
        } else {
            assert(file_at(t1, p) == file_at(t, p));
            assert forall|i: int| 0 <= i < es.len() && (#[trigger] es[i]).path == p implies file_at(
                apply_all(t, es),
                p,
            ) == file_at(apply_entry(t, es[i]), p) by {
                assert(rest[i - 1] == es[i]);
            }
            if forall|i: int| 0 <= i < es.len() ==> (#[trigger] es[i]).path != p {
                assert forall|i: int| 0 <= i < rest.len() implies (#[trigger] rest[i]).path
                    != p by {
                    assert(rest[i] == es[i + 1]);
                }
            }
        }
    }
}

/// Applying the diff from a commit's parent tree to a working tree that
/// holds the parent tree yields exactly the commit's full tree.
pub proof fn lemma_apply_diff_yields_tree(old: Tree, new: Tree, es: Seq<EntryView>)
    requires
        is_tree_diff(old, new, es),
    ensures
        apply_all(old, es) == new,
{
    let r = apply_all(old, es);
    assert forall|p: Seq<u8>| #[trigger] file_at(r, p) == file_at(new, p) by {
        lemma_apply_all_at(old, es, p);
        if exists|i: int| 0 <= i < es.len() && (#[trigger] es[i]).path == p {
            let i = choose|i: int| 0 <= i < es.len() && (#[trigger] es[i]).path == p;
            assert(entry_describes(old, new, es[i]));
        }
    }
    assert forall|p: Seq<u8>| r.contains_key(p) == new.contains_key(p) by {
        assert(file_at(r, p) == file_at(new, p));
    }
    assert forall|p: Seq<u8>| r.contains_key(p) implies r[p] == new[p] by {
        assert(file_at(r, p) == file_at(new, p));
    }
    assert(r =~= new);
}

/// For a root commit, whose parent tree is empty, every entry of its diff
/// is an addition.
pub proof fn lemma_root_diff_all_added(new: Tree, es: Seq<EntryView>)
    requires
        is_tree_diff(Map::empty(), new, es),
    ensures
        forall|i: int| 0 <= i < es.len() ==> (#[trigger] es[i]).kind == ChangeKind::Added,
{
    assert forall|i: int| 0 <= i < es.len() implies (#[trigger] es[i]).kind
        == ChangeKind::Added by {
        assert(entry_describes(Map::empty(), new, es[i]));
    }
}

/// Deleting a path that holds no file changes nothing, and is no error.
pub proof fn lemma_delete_absent_is_noop(t: Tree, p: Seq<u8>, content: Seq<u8>)
    requires
        !t.contains_key(p),
    ensures
        apply_entry(t, EntryView { path: p, kind: ChangeKind::Deleted, content }) == t,
{
    assert(t.remove(p) =~= t);
}

} // verus!
