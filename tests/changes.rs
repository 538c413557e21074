use autocommitter::changes::{materialize, ChangeEntry, ChangeKind, DeltaStatus, RawDelta};
use autocommitter::worktree::WorkTree;

fn raw(status: DeltaStatus, path: &str, content: Option<&str>) -> RawDelta {
    RawDelta {
        status,
        path: Some(path.as_bytes().to_vec()),
        content: content.map(|c| c.as_bytes().to_vec()),
    }
}

fn entry(path: &str, kind: ChangeKind, content: &str) -> ChangeEntry {
    ChangeEntry { path: path.as_bytes().to_vec(), kind, content: content.as_bytes().to_vec() }
}

fn tree_of(files: &[(&str, &str)]) -> WorkTree {
    let mut t = WorkTree::new();
    for (p, c) in files {
        t.write(p.as_bytes().to_vec(), c.as_bytes().to_vec());
    }
    t
}

fn same_tree(a: &WorkTree, files: &[(&str, &str)]) -> bool {
    a.file_count() == files.len()
        && files.iter().all(|(p, c)| a.get(&p.as_bytes().to_vec()) == Some(&c.as_bytes().to_vec()))
}

#[test]
fn materialize_keeps_order_and_content() {
    let ds = vec![
        raw(DeltaStatus::Added, "a", Some("1")),
        raw(DeltaStatus::Modified, "b", Some("2")),
        raw(DeltaStatus::Deleted, "c", None),
    ];
    let es = materialize(&ds).ok().unwrap();
    assert_eq!(es.len(), 3);
    assert_eq!(es[0].path, b"a".to_vec());
    assert_eq!(es[0].kind, ChangeKind::Added);
    assert_eq!(es[0].content, b"1".to_vec());
    assert_eq!(es[1].kind, ChangeKind::Modified);
    assert_eq!(es[1].content, b"2".to_vec());
    assert_eq!(es[2].kind, ChangeKind::Deleted);
    assert_eq!(es[2].path, b"c".to_vec());
    assert!(es[2].content.is_empty());
}

#[test]
fn materialize_refuses_other_status() {
    let ds = vec![raw(DeltaStatus::Other, "r", Some("x")), raw(DeltaStatus::Added, "a", Some("1"))];
    assert_eq!(materialize(&ds).err(), Some(autocommitter::replication::ErrorKind::DiffComputation));
}

#[test]
fn materialize_refuses_pathless_delta() {
    let ds = vec![RawDelta { status: DeltaStatus::Deleted, path: None, content: None }];
    assert_eq!(materialize(&ds).err(), Some(autocommitter::replication::ErrorKind::DiffComputation));
}

#[test]
fn materialize_leaves_out_submodules() {
    let ds = vec![
        RawDelta { status: DeltaStatus::Submodule, path: Some(b"lib".to_vec()), content: None },
        raw(DeltaStatus::Added, "a", Some("1")),
    ];
    let es = materialize(&ds).ok().unwrap();
    assert_eq!(es.len(), 1);
    assert_eq!(es[0].path, b"a".to_vec());
}

#[test]
fn materialize_merges_type_change_into_modification() {
    let ds = vec![
        raw(DeltaStatus::Added, "a", Some("1")),
        raw(DeltaStatus::Deleted, "link", None),
        raw(DeltaStatus::Added, "link", Some("target")),
        raw(DeltaStatus::Deleted, "z", None),
    ];
    let es = materialize(&ds).ok().unwrap();
    assert_eq!(es.len(), 3);
    assert_eq!(es[1].path, b"link".to_vec());
    assert_eq!(es[1].kind, ChangeKind::Modified);
    assert_eq!(es[1].content, b"target".to_vec());
    assert_eq!(es[2].kind, ChangeKind::Deleted);
    let mut t = tree_of(&[("link", "old"), ("z", "zz")]);
    t.apply(&es);
    assert!(same_tree(&t, &[("a", "1"), ("link", "target")]));
}

#[test]
fn materialize_refuses_type_change_without_content() {
    let ds = vec![raw(DeltaStatus::Deleted, "link", None), raw(DeltaStatus::Added, "link", None)];
    assert_eq!(materialize(&ds).err(), Some(autocommitter::replication::ErrorKind::DiffComputation));
}

#[test]
fn materialize_fails_on_missing_content() {
    let ds = vec![raw(DeltaStatus::Modified, "a", None)];
    assert_eq!(materialize(&ds).err(), Some(autocommitter::replication::ErrorKind::DiffComputation));
}

#[test]
fn materialize_fails_on_repeated_path() {
    let ds = vec![raw(DeltaStatus::Added, "a", Some("1")), raw(DeltaStatus::Deleted, "a", None)];
    assert_eq!(materialize(&ds).err(), Some(autocommitter::replication::ErrorKind::DiffComputation));
}

#[test]
fn materialize_of_nothing_is_empty() {
    assert!(materialize(&Vec::new()).ok().unwrap().is_empty());
}

#[test]
fn applying_diff_gives_full_child_tree() {
    let mut t = tree_of(&[("keep", "k"), ("mod", "old"), ("gone", "g")]);
    let diff = vec![
        entry("gone", ChangeKind::Deleted, ""),
        entry("mod", ChangeKind::Modified, "new"),
        entry("new", ChangeKind::Added, "n"),
    ];
    t.apply(&diff);
    assert!(same_tree(&t, &[("keep", "k"), ("mod", "new"), ("new", "n")]));
}

#[test]
fn deleting_absent_path_is_no_error() {
    let mut t = tree_of(&[("a", "1")]);
    t.apply(&vec![entry("missing", ChangeKind::Deleted, "")]);
    assert!(same_tree(&t, &[("a", "1")]));
    t.remove(&b"missing".to_vec());
    assert!(same_tree(&t, &[("a", "1")]));
}

#[test]
fn write_overwrites_existing_file() {
    let mut t = tree_of(&[("a", "1"), ("b", "2")]);
    t.write(b"a".to_vec(), b"3".to_vec());
    assert!(same_tree(&t, &[("a", "3"), ("b", "2")]));
    t.remove(&b"a".to_vec());
    assert!(same_tree(&t, &[("b", "2")]));
}

#[test]
fn empty_tree_has_no_files() {
    let t = WorkTree::new();
    assert_eq!(t.file_count(), 0);
    assert_eq!(t.get(&b"a".to_vec()), None);
}
