use autocommitter::changes::{materialize, DeltaStatus, RawDelta};
use autocommitter::record::{decode_state, encode_state};
use autocommitter::replication::{CommitRecord, CommitRequest, ErrorKind, ReplicationState, Replicator};
use autocommitter::worktree::WorkTree;

fn record(id: u8, message: &str) -> CommitRecord {
    CommitRecord { id: vec![id; 20], message: message.as_bytes().to_vec() }
}

fn fresh() -> ReplicationState {
    ReplicationState { last_source: None, last_target: None, replicated_count: 0 }
}

fn added(path: &str, content: &str) -> RawDelta {
    RawDelta {
        status: DeltaStatus::Added,
        path: Some(path.as_bytes().to_vec()),
        content: Some(content.as_bytes().to_vec()),
    }
}

fn modified(path: &str, content: &str) -> RawDelta {
    RawDelta {
        status: DeltaStatus::Modified,
        path: Some(path.as_bytes().to_vec()),
        content: Some(content.as_bytes().to_vec()),
    }
}

fn deleted(path: &str) -> RawDelta {
    RawDelta { status: DeltaStatus::Deleted, path: Some(path.as_bytes().to_vec()), content: None }
}

fn target_id(n: usize) -> Vec<u8> {
    vec![0xa0 + n as u8; 20]
}

/// Runs the replication of `history`, whose commit `i` has the deltas
/// `diffs[i]`, from `state`; stops with the error of commit `fail_at`.
/// Returns the requests made and the replicator as left.
fn drive(
    history: Vec<CommitRecord>,
    diffs: &[Vec<RawDelta>],
    state: ReplicationState,
    tree: &mut WorkTree,
    fail_at: Option<usize>,
) -> (Vec<CommitRequest>, Replicator, Option<ErrorKind>) {
    let mut rep = Replicator::new(history, state).ok().unwrap();
    let mut reqs = Vec::new();
    while let Some(q) = rep.next_request() {
        if fail_at == Some(q.index) {
            let err = rep.failure(ErrorKind::Publish);
            assert_eq!(err.commit, Some(q.source.clone()));
            return (reqs, rep, Some(err.kind));
        }
        let changes = materialize(&diffs[q.index]).ok().unwrap();
        tree.apply(&changes);
        let index = q.index;
        reqs.push(q);
        rep.record_published(target_id(index));
    }
    (reqs, rep, None)
}

#[test]
fn single_root_commit_is_replicated() {
    let mut tree = WorkTree::new();
    let (reqs, rep, err) =
        drive(vec![record(1, "first")], &[vec![added("a.txt", "hello")]], fresh(), &mut tree, None);
    assert!(err.is_none());
    assert_eq!(reqs.len(), 1);
    assert_eq!(reqs[0].parent, None);
    assert_eq!(reqs[0].message, b"first".to_vec());
    assert_eq!(tree.file_count(), 1);
    assert_eq!(tree.get(&b"a.txt".to_vec()), Some(&b"hello".to_vec()));
    assert_eq!(rep.state().replicated_count, 1);
    assert!(rep.is_done());
}

#[test]
fn modification_replicates_two_commits_in_order() {
    let mut tree = WorkTree::new();
    let history = vec![record(1, "add a"), record(2, "extend a")];
    let diffs = [vec![added("a.txt", "hello")], vec![modified("a.txt", "hello world")]];
    let (reqs, rep, err) = drive(history, &diffs, fresh(), &mut tree, None);
    assert!(err.is_none());
    assert_eq!(reqs.len(), 2);
    assert_eq!(reqs[0].message, b"add a".to_vec());
    assert_eq!(reqs[1].message, b"extend a".to_vec());
    assert_eq!(reqs[0].parent, None);
    assert_eq!(reqs[1].parent, Some(target_id(0)));
    assert_eq!(tree.file_count(), 1);
    assert_eq!(tree.get(&b"a.txt".to_vec()), Some(&b"hello world".to_vec()));
    assert_eq!(rep.state().replicated_count, 2);
}

#[test]
fn addition_and_deletion_leave_only_new_file() {
    let mut tree = WorkTree::new();
    let history = vec![record(1, "add a"), record(2, "swap a for b")];
    let diffs = [vec![added("a.txt", "hello")], vec![deleted("a.txt"), added("b.txt", "bee")]];
    let (reqs, _rep, err) = drive(history, &diffs, fresh(), &mut tree, None);
    assert!(err.is_none());
    assert_eq!(reqs.len(), 2);
    assert_eq!(tree.file_count(), 1);
    assert_eq!(tree.get(&b"a.txt".to_vec()), None);
    assert_eq!(tree.get(&b"b.txt".to_vec()), Some(&b"bee".to_vec()));
}

#[test]
fn every_commit_replicated_once_with_its_message() {
    let mut tree = WorkTree::new();
    let history = vec![record(1, "one"), record(2, "two"), record(3, "three")];
    let diffs = [
        vec![added("x", "1")],
        vec![modified("x", "2"), added("y", "y")],
        vec![deleted("y")],
    ];
    let (reqs, rep, _) = drive(history, &diffs, fresh(), &mut tree, None);
    let messages: Vec<Vec<u8>> = reqs.iter().map(|q| q.message.clone()).collect();
    assert_eq!(messages, vec![b"one".to_vec(), b"two".to_vec(), b"three".to_vec()]);
    let indexes: Vec<usize> = reqs.iter().map(|q| q.index).collect();
    assert_eq!(indexes, vec![0, 1, 2]);
    assert_eq!(reqs[2].parent, Some(target_id(1)));
    assert_eq!(rep.state().last_source, Some(vec![3; 20]));
    assert_eq!(rep.state().last_target, Some(target_id(2)));
    assert_eq!(tree.get(&b"x".to_vec()), Some(&b"2".to_vec()));
    assert_eq!(tree.file_count(), 1);
}

#[test]
fn resume_after_failure_continues_without_duplicates() {
    let history = || vec![record(1, "one"), record(2, "two"), record(3, "three")];
    let diffs = [vec![added("x", "1")], vec![added("y", "2")], vec![added("z", "3")]];
    let mut tree = WorkTree::new();
    let (first, rep, err) = drive(history(), &diffs, fresh(), &mut tree, Some(1));
    assert_eq!(err, Some(ErrorKind::Publish));
    assert_eq!(first.len(), 1);
    assert_eq!(rep.state().replicated_count, 1);
    let saved = encode_state(rep.state());
    let loaded = decode_state(&saved).unwrap();
    let (second, rep2, err2) = drive(history(), &diffs, loaded, &mut tree, None);
    assert!(err2.is_none());
    let indexes: Vec<usize> = first.iter().chain(second.iter()).map(|q| q.index).collect();
    assert_eq!(indexes, vec![0, 1, 2]);
    assert_eq!(second[0].parent, Some(target_id(0)));
    assert_eq!(rep2.state().replicated_count, 3);
    assert_eq!(tree.file_count(), 3);
}

#[test]
fn rerun_on_complete_state_does_nothing() {
    let history = vec![record(1, "one"), record(2, "two")];
    let state = ReplicationState {
        last_source: Some(vec![2; 20]),
        last_target: Some(target_id(1)),
        replicated_count: 2,
    };
    let rep = Replicator::new(history, state).ok().unwrap();
    assert!(rep.is_done());
    assert!(rep.next_request().is_none());
    assert_eq!(rep.total(), 2);
}

#[test]
fn state_beyond_history_is_refused() {
    let state = ReplicationState {
        last_source: Some(vec![9; 20]),
        last_target: Some(target_id(0)),
        replicated_count: 2,
    };
    let err = Replicator::new(vec![record(1, "one")], state).err().unwrap();
    assert_eq!(err.kind, ErrorKind::StateMismatch);
    assert_eq!(err.commit, Some(vec![9; 20]));
}

#[test]
fn state_naming_another_commit_is_refused() {
    let state = ReplicationState {
        last_source: Some(vec![2; 20]),
        last_target: Some(target_id(0)),
        replicated_count: 1,
    };
    let err = Replicator::new(vec![record(1, "one"), record(2, "two")], state).err().unwrap();
    assert_eq!(err.kind, ErrorKind::StateMismatch);
}

#[test]
fn fresh_state_with_target_is_refused() {
    let state = ReplicationState { last_source: None, last_target: Some(target_id(0)), replicated_count: 0 };
    assert!(Replicator::new(vec![record(1, "one")], state).is_err());
}

#[test]
fn empty_history_is_done_at_once() {
    let rep = Replicator::new(Vec::new(), fresh()).ok().unwrap();
    assert!(rep.is_done());
    assert!(rep.next_request().is_none());
    let err = rep.failure(ErrorKind::RepositoryAccess);
    assert_eq!(err.kind, ErrorKind::RepositoryAccess);
    assert_eq!(err.commit, None);
}

#[test]
fn failure_names_next_commit() {
    let rep = Replicator::new(vec![record(7, "one")], fresh()).ok().unwrap();
    let err = rep.failure(ErrorKind::CommitCreation);
    assert_eq!(err.kind, ErrorKind::CommitCreation);
    assert_eq!(err.commit, Some(vec![7; 20]));
}
