use vstd::prelude::*;

use crate::bytes::{bytes_equal, copy_bytes};
use crate::changes::{apply_all, apply_entry, entries_view, ChangeEntry, ChangeKind, Tree};

verus! {

/// One file of a working tree.
pub struct FileEntry {
    pub path: Vec<u8>,
    pub content: Vec<u8>,
}

/// A working tree held in memory: each file's path and content.
pub struct WorkTree {
    files: Vec<FileEntry>,
}

/// Some file of `s` has path `p`.
pub open spec fn has_path(s: Seq<FileEntry>, p: Seq<u8>) -> bool {
    exists|i: int| 0 <= i < s.len() && (#[trigger] s[i]).path@ == p
}

/// The tree that a list of files with distinct paths stands for.
pub open spec fn tree_of(s: Seq<FileEntry>) -> Tree {
    Map::new(
        |p: Seq<u8>| has_path(s, p),
        |p: Seq<u8>| s[choose|i: int| 0 <= i < s.len() && (#[trigger] s[i]).path@ == p].content@,
    )
}

/// No two files share a path.
pub open spec fn distinct_paths(s: Seq<FileEntry>) -> bool {
    forall|i: int, j: int| 0 <= i < s.len() && 0 <= j < s.len() && i != j ==> s[i].path@ != s[j].path@
}

proof fn lemma_tree_of_at(s: Seq<FileEntry>, i: int)
    requires
        distinct_paths(s),
        0 <= i < s.len(),
    ensures
        tree_of(s).contains_key(s[i].path@),
        tree_of(s)[s[i].path@] == s[i].content@,
{
    assert(has_path(s, s[i].path@));
}

impl View for WorkTree {
    type V = Tree;

    closed spec fn view(&self) -> Tree {
        tree_of(self.files@)
    }
}

impl WorkTree {
    /// The files have distinct paths.
    pub closed spec fn wf(&self) -> bool {
        distinct_paths(self.files@)
    }

    /// An empty working tree.
    pub fn new() -> (r: WorkTree)
        ensures
            r.wf(),
            r@ == Map::<Seq<u8>, Seq<u8>>::empty(),
    {
        let r = WorkTree { files: Vec::new() };
        assert(r@ =~= Map::<Seq<u8>, Seq<u8>>::empty());
        r
    }

    fn find(&self, path: &Vec<u8>) -> (r: Option<usize>)
        requires
            self.wf(),
        ensures
            match r {
                Some(i) => i < self.files@.len() && self.files@[i as int].path@ == path@,
                None => !has_path(self.files@, path@),
            },
    {
        let mut i: usize = 0;
        while i < self.files.len()
            invariant
                i <= self.files@.len(),
                forall|j: int| 0 <= j < i ==> self.files@[j].path@ != path@,
            decreases self.files.len() - i,
        {
            if bytes_equal(&self.files[i].path, path) {
                return Some(i);
            }
            i = i + 1;
        }
        None
    }

    /// The content of the file at `path`, if there is one.
    pub fn get(&self, path: &Vec<u8>) -> (r: Option<&Vec<u8>>)
        requires
            self.wf(),
        ensures
            match r {
                Some(c) => self@.contains_key(path@) && self@[path@] == c@,
                None => !self@.contains_key(path@),
            },
    {
        match self.find(path) {
            Some(i) => {
                proof {
                    lemma_tree_of_at(self.files@, i as int);
                }
                Some(&self.files[i].content)
            },
            None => None,
        }
    }

    /// The number of files.
    pub fn file_count(&self) -> (r: usize)
        requires
            self.wf(),
        ensures
            r == self@.dom().len(),
    {
        proof {
            lemma_tree_len(self.files@);
        }
        self.files.len()
    }

    /// Writes `content` at `path`, replacing any file there.
    pub fn write(&mut self, path: Vec<u8>, content: Vec<u8>)
        requires
            old(self).wf(),
        ensures
            final(self).wf(),
            final(self)@ == old(self)@.insert(path@, content@),
    {
        let ghost p = path@;
        let ghost c = content@;
        match self.find(&path) {
            Some(i) => {
                let ghost s0 = self.files@;
                self.files.set(i, FileEntry { path, content });
                let ghost s1 = self.files@;
                assert(distinct_paths(s1));
                assert forall|q: Seq<u8>| has_path(s1, q) == (has_path(s0, q) || q == p) by {
                    if has_path(s0, q) {
                        let j = choose|j: int| 0 <= j < s0.len() && (#[trigger] s0[j]).path@ == q;
                        assert(s1[j].path@ == q);
                    }
                    if has_path(s1, q) {
                        let j = choose|j: int| 0 <= j < s1.len() && (#[trigger] s1[j]).path@ == q;
                        assert(s0[j].path@ == q);
                    }
                }
                assert forall|q: Seq<u8>| has_path(s1, q) implies tree_of(s1)[q] == (if q == p {
                    c
                } else {
                    tree_of(s0)[q]
                }) by {
                    let j = choose|j: int| 0 <= j < s1.len() && (#[trigger] s1[j]).path@ == q;
                    lemma_tree_of_at(s1, j);
                    if q != p {
                        lemma_tree_of_at(s0, j);
                    }
                }
                assert(self@ =~= old(self)@.insert(p, c));
            },
            None => {
                let ghost s0 = self.files@;
                self.files.push(FileEntry { path, content });
                let ghost s1 = self.files@;
                assert(distinct_paths(s1)) by {
                    assert forall|i: int, j: int|
                        0 <= i < s1.len() && 0 <= j < s1.len() && i != j implies s1[i].path@
                        != s1[j].path@ by {
                        if i == s0.len() as int {
                            assert(s1[j] == s0[j]);
                        } else if j == s0.len() as int {
                            assert(s1[i] == s0[i]);
                        } else {
                            assert(s1[i] == s0[i] && s1[j] == s0[j]);
                        }
                    }
                }
                assert forall|q: Seq<u8>| has_path(s1, q) == (has_path(s0, q) || q == p) by {
                    if has_path(s0, q) {
                        let j = choose|j: int| 0 <= j < s0.len() && (#[trigger] s0[j]).path@ == q;
                        assert(s1[j] == s0[j]);
                    }
                    if q == p {
                        assert(s1[s0.len() as int].path@ == q);
                    }
                    if has_path(s1, q) && q != p {
                        let j = choose|j: int| 0 <= j < s1.len() && (#[trigger] s1[j]).path@ == q;
                        assert(j < s0.len());
                        assert(s0[j] == s1[j]);
                    }
                }
                assert forall|q: Seq<u8>| has_path(s1, q) implies tree_of(s1)[q] == (if q == p {
                    c
                } else {
                    tree_of(s0)[q]
                }) by {
                    let j = choose|j: int| 0 <= j < s1.len() && (#[trigger] s1[j]).path@ == q;
                    lemma_tree_of_at(s1, j);
                    if q != p {
                        assert(j < s0.len());
                        assert(s0[j] == s1[j]);
                        lemma_tree_of_at(s0, j);
                    }
                }
                assert(self@ =~= old(self)@.insert(p, c));
            },
        }
    }

    /// Removes the file at `path`; does nothing when there is none.
    pub fn remove(&mut self, path: &Vec<u8>)
        requires
            old(self).wf(),
        ensures
            final(self).wf(),
            final(self)@ == old(self)@.remove(path@),
    {
        let ghost p = path@;
        match self.find(path) {
            Some(i) => {
                let ghost s0 = self.files@;
                self.files.remove(i);
                let ghost s1 = self.files@;
                assert(s1 =~= s0.remove(i as int));
                assert(distinct_paths(s1)) by {
                    assert forall|a: int, b: int|
                        0 <= a < s1.len() && 0 <= b < s1.len() && a != b implies s1[a].path@
                        != s1[b].path@ by {
                        let a0 = if a < i { a } else { a + 1 };
                        let b0 = if b < i { b } else { b + 1 };
                        assert(s1[a] == s0[a0] && s1[b] == s0[b0]);
                    }
                }
                assert forall|q: Seq<u8>| has_path(s1, q) == (has_path(s0, q) && q != p) by {
                    if has_path(s0, q) && q != p {
                        let j = choose|j: int| 0 <= j < s0.len() && (#[trigger] s0[j]).path@ == q;
                        let j1 = if j < i { j } else { j - 1 };
                        assert(s1[j1] == s0[j]);
                    }
                    if has_path(s1, q) {
                        let j = choose|j: int| 0 <= j < s1.len() && (#[trigger] s1[j]).path@ == q;
                        let j0 = if j < i { j } else { j + 1 };
                        assert(s1[j] == s0[j0]);
                    }
                }
                assert forall|q: Seq<u8>| has_path(s1, q) implies tree_of(s1)[q] == tree_of(s0)[q] by {
                    let j = choose|j: int| 0 <= j < s1.len() && (#[trigger] s1[j]).path@ == q;
                    let j0 = if j < i { j } else { j + 1 };
                    assert(s1[j] == s0[j0]);
                    lemma_tree_of_at(s1, j);
                    lemma_tree_of_at(s0, j0);
                }
                assert(self@ =~= old(self)@.remove(p));
            },
            None => {
                assert(self@ =~= old(self)@.remove(p));
            },
        }
    }

    /// Applies the changes in order: writes for added and modified files,
    /// removals for deleted ones, where deleting a missing file is no error.
    pub fn apply(&mut self, changes: &Vec<ChangeEntry>)
        requires
            old(self).wf(),
        ensures
            final(self).wf(),
            final(self)@ == apply_all(old(self)@, entries_view(changes@)),
    {
        let ghost es = entries_view(changes@);
        let mut i: usize = 0;
        assert(es.subrange(0, es.len() as int) =~= es);
        while i < changes.len()
            invariant
                i <= changes@.len(),
                es == entries_view(changes@),
                self.wf(),
                apply_all(old(self)@, es) == apply_all(self@, es.subrange(i as int, es.len() as int)),
            decreases changes.len() - i,
        {
            let e = &changes[i];
            let ghost t0 = self@;
            let ghost rest = es.subrange(i as int, es.len() as int);
            assert(rest[0] == e@);
            assert(rest.drop_first() =~= es.subrange(i + 1, es.len() as int));
            match e.kind {
                ChangeKind::Deleted => self.remove(&e.path),
                _ => self.write(copy_bytes(&e.path), copy_bytes(&e.content)),
            }
            assert(self@ == apply_entry(t0, e@));
            i = i + 1;
        }
        assert(es.subrange(es.len() as int, es.len() as int) =~= Seq::<crate::changes::EntryView>::empty());
    }
}

proof fn lemma_tree_len(s: Seq<FileEntry>)
    requires
        distinct_paths(s),
    ensures
        tree_of(s).dom().finite(),
        tree_of(s).dom().len() == s.len(),
    decreases s.len(),
{
    let d = tree_of(s).dom();
    if s.len() == 0 {
        assert(d =~= Set::<Seq<u8>>::empty());
    } else {
        let s0 = s.drop_last();
        assert(distinct_paths(s0)) by {
            assert forall|i: int, j: int|
                0 <= i < s0.len() && 0 <= j < s0.len() && i != j implies s0[i].path@
                != s0[j].path@ by {
                assert(s0[i] == s[i] && s0[j] == s[j]);
            }
        }
        lemma_tree_len(s0);
        let p = s.last().path@;
        assert forall|q: Seq<u8>| d.contains(q) == tree_of(s0).dom().insert(p).contains(q) by {
            if has_path(s, q) && q != p {
                let j = choose|j: int| 0 <= j < s.len() && (#[trigger] s[j]).path@ == q;
                assert(j < s0.len());
                assert(s0[j] == s[j]);
            }
            if has_path(s0, q) {
                let j = choose|j: int| 0 <= j < s0.len() && (#[trigger] s0[j]).path@ == q;
                assert(s0[j] == s[j]);
            }
            if q == p {
                assert(s[s.len() - 1].path@ == q);
            }
        }
        assert(d =~= tree_of(s0).dom().insert(p));
        assert(!has_path(s0, p)) by {
            if has_path(s0, p) {
                let j = choose|j: int| 0 <= j < s0.len() && (#[trigger] s0[j]).path@ == p;
                assert(s0[j] == s[j]);
            }
        }
    }
}

} // verus!
