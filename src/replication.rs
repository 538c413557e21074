use vstd::prelude::*;

use crate::bytes::{bytes_equal, copy_bytes, copy_opt_bytes, opt_view};

verus! {

/// One commit of the source history: its identifier and its message.
pub struct CommitRecord {
    pub id: Vec<u8>,
    pub message: Vec<u8>,
}

/// A commit record as mathematical values.
pub ghost struct RecordView {
    pub id: Seq<u8>,
    pub message: Seq<u8>,
}

impl View for CommitRecord {
    type V = RecordView;

    open spec fn view(&self) -> RecordView {
        RecordView { id: self.id@, message: self.message@ }
    }
}

/// How far a replication has come: the last source commit that was
/// replicated and published, the target commit made for it, and how many
/// commits have been published in all.
pub struct ReplicationState {
    pub last_source: Option<Vec<u8>>,
    pub last_target: Option<Vec<u8>>,
    pub replicated_count: u64,
}

/// A replication state as mathematical values.
pub ghost struct StateView {
    pub last_source: Option<Seq<u8>>,
    pub last_target: Option<Seq<u8>>,
    pub count: nat,
}

impl View for ReplicationState {
    type V = StateView;

    open spec fn view(&self) -> StateView {
        StateView {
            last_source: opt_view(self.last_source),
            last_target: opt_view(self.last_target),
            count: self.replicated_count as nat,
        }
    }
}

/// What the commit writer is asked to do for one source commit: make a
/// commit with `message` whose single parent is `parent` (none for the
/// first replicated commit).
pub struct CommitRequest {
    pub index: usize,
    pub source: Vec<u8>,
    pub message: Vec<u8>,
    pub parent: Option<Vec<u8>>,
}

/// A commit request as mathematical values.
pub ghost struct RequestView {
    pub index: nat,
    pub source: Seq<u8>,
    pub message: Seq<u8>,
    pub parent: Option<Seq<u8>>,
}

impl View for CommitRequest {
    type V = RequestView;

    open spec fn view(&self) -> RequestView {
        RequestView {
            index: self.index as nat,
            source: self.source@,
            message: self.message@,
            parent: opt_view(self.parent),
        }
    }
}

/// The kind of failure, named after the phase in which it happened.
#[derive(PartialEq, Eq, Structural, Clone, Copy, Debug)]
pub enum ErrorKind {
    RepositoryAccess,
    DiffComputation,
    Materialization,
    CommitCreation,
    Publish,
    StateMismatch,
}

/// A failure of a run, with the source commit it happened on, if any.
pub struct ReplicationError {
    pub kind: ErrorKind,
    pub commit: Option<Vec<u8>>,
}

/// The state of a run that has replicated nothing yet.
pub open spec fn fresh_state() -> StateView {
    StateView { last_source: None, last_target: None, count: 0 }
}

/// A state describes a prefix of the history: `count` commits are done,
/// the last of them is the last source commit, and a target commit exists
/// exactly when one was made.
pub open spec fn consistent(h: Seq<RecordView>, s: StateView) -> bool {
    &&& s.count <= h.len()
    &&& if s.count == 0 {
        s.last_source is None && s.last_target is None
    } else {
        s.last_source == Some(h[s.count - 1].id) && s.last_target is Some
    }
}

/// The next commit to replicate, or none when the whole history is done.
pub open spec fn next_spec(h: Seq<RecordView>, s: StateView) -> Option<RequestView> {
    if s.count < h.len() {
        Some(
            RequestView {
                index: s.count,
                source: h[s.count as int].id,
                message: h[s.count as int].message,
                parent: s.last_target,
            },
        )
    } else {
        None
    }
}

/// The state once the next commit was made as `target` and published.
pub open spec fn advance_spec(h: Seq<RecordView>, s: StateView, target: Seq<u8>) -> StateView {
    StateView {
        last_source: Some(h[s.count as int].id),
        last_target: Some(target),
        count: s.count + 1,
    }
}

/// The commit requests of a run from state `s` in which the commit writer
/// returns the identifiers `targets` in turn and every step succeeds; the
/// run stops when the history or the identifiers run out.
pub open spec fn run_requests(h: Seq<RecordView>, s: StateView, targets: Seq<Seq<u8>>) -> Seq<
    RequestView,
>
    decreases targets.len(),
{
    if s.count < h.len() && targets.len() > 0 {
        seq![next_spec(h, s).unwrap()] + run_requests(
            h,
            advance_spec(h, s, targets[0]),
            targets.drop_first(),
        )
    } else {
        Seq::empty()
    }
}

/// The state at the end of the run that `run_requests` describes.
pub open spec fn run_state(h: Seq<RecordView>, s: StateView, targets: Seq<Seq<u8>>) -> StateView
    decreases targets.len(),
{
    if s.count < h.len() && targets.len() > 0 {
        run_state(h, advance_spec(h, s, targets[0]), targets.drop_first())
    } else {
        s
    }
}

/// What a run from a consistent state does, commit by commit: request `i`
/// is for source commit `s.count + i`, with the previous replica as parent.
proof fn lemma_run_from(h: Seq<RecordView>, s: StateView, targets: Seq<Seq<u8>>)
    requires
        consistent(h, s),
    ensures
        ({
            let n = if h.len() - s.count < targets.len() {
                (h.len() - s.count) as nat
            } else {
                targets.len()
            };
            let reqs = run_requests(h, s, targets);
            let e = run_state(h, s, targets);
            &&& reqs.len() == n
            &&& forall|i: int|
                0 <= i < n ==> {
                    &&& (#[trigger] reqs[i]).index == s.count + i
                    &&& reqs[i].source == h[s.count + i].id
                    &&& reqs[i].message == h[s.count + i].message
                    &&& reqs[i].parent == if i == 0 {
                        s.last_target
                    } else {
                        Some(targets[i - 1])
                    }
                }
            &&& e.count == s.count + n
            &&& consistent(h, e)
            &&& e.last_target == if n == 0 {
                s.last_target
            } else {
                Some(targets[n - 1])
            }
        }),
    decreases targets.len(),
{
    if s.count < h.len() && targets.len() > 0 {
        let s1 = advance_spec(h, s, targets[0]);
        let t1 = targets.drop_first();
        lemma_run_from(h, s1, t1);
        let reqs = run_requests(h, s, targets);
        let rest = run_requests(h, s1, t1);
        assert(reqs == seq![next_spec(h, s).unwrap()] + rest);
        assert forall|i: int| 1 <= i < reqs.len() implies reqs[i] == rest[i - 1] by {}
    }
}

/// Running two stretches of a run one after the other, the second from
/// the state the first left, gives the requests of one uninterrupted run.
proof fn lemma_run_split(
    h: Seq<RecordView>,
    s: StateView,
    first: Seq<Seq<u8>>,
    second: Seq<Seq<u8>>,
)
    ensures
        run_requests(h, s, first) + run_requests(h, run_state(h, s, first), second)
            == run_requests(h, s, first + second),
    decreases first.len(),
{
    if s.count < h.len() && first.len() > 0 {
        let s1 = advance_spec(h, s, first[0]);
        lemma_run_split(h, s1, first.drop_first(), second);
        assert((first + second).drop_first() =~= first.drop_first() + second);
        assert((first + second)[0] == first[0]);
        let a = run_requests(h, s1, first.drop_first());
        let b = run_requests(h, run_state(h, s1, first.drop_first()), second);
        assert(seq![next_spec(h, s).unwrap()] + a + b =~= seq![next_spec(h, s).unwrap()] + (a
            + b));
    } else if first.len() == 0 {
        assert(first + second =~= second);
        assert(run_requests(h, s, first) + run_requests(h, s, second) =~= run_requests(
            h,
            s,
            second,
        ));
    } else {
        lemma_run_empty_when_complete(h, s, second);
        lemma_run_empty_when_complete(h, s, first + second);
        assert(run_requests(h, s, first) + run_requests(h, s, second) =~= Seq::<
            RequestView,
        >::empty());
    }
}

/// From a state with nothing left to do, a run asks for nothing.
proof fn lemma_run_empty_when_complete(h: Seq<RecordView>, s: StateView, targets: Seq<Seq<u8>>)
    requires
        s.count >= h.len(),
    ensures
        run_requests(h, s, targets) == Seq::<RequestView>::empty(),
        run_state(h, s, targets) == s,
{
}

/// A complete run over a history of `n` commits, in which the commit writer
/// returns `targets`, makes exactly `n` commits in source order: commit `i`
/// carries the message of source commit `i`, the first has no parent, and
/// every later one has the previous replica as its only parent. The run
/// ends in a state that counts `n` and has nothing left to do.
pub proof fn lemma_full_run_replicates_history(h: Seq<RecordView>, targets: Seq<Seq<u8>>)
    requires
        targets.len() == h.len(),
    ensures
        ({
            let reqs = run_requests(h, fresh_state(), targets);
            let e = run_state(h, fresh_state(), targets);
            &&& reqs.len() == h.len()
            &&& forall|i: int|
                0 <= i < h.len() ==> {
                    &&& (#[trigger] reqs[i]).index == i
                    &&& reqs[i].source == h[i].id
                    &&& reqs[i].message == h[i].message
                    &&& reqs[i].parent == if i == 0 {
                        None
                    } else {
                        Some(targets[i - 1])
                    }
                }
            &&& e.count == h.len()
            &&& next_spec(h, e) is None
        }),
{
    lemma_run_from(h, fresh_state(), targets);
}

/// A run that failed after `done.len()` published commits, resumed from the
/// state it left, asks for every source commit exactly once, in order, and
/// for the same commits as a run that never failed.
pub proof fn lemma_resume_after_failure(
    h: Seq<RecordView>,
    done: Seq<Seq<u8>>,
    rest: Seq<Seq<u8>>,
)
    requires
        done.len() + rest.len() == h.len(),
    ensures
        ({
            let s = run_state(h, fresh_state(), done);
            let before = run_requests(h, fresh_state(), done);
            let after = run_requests(h, s, rest);
            &&& s.count == done.len()
            &&& consistent(h, s)
            &&& before + after == run_requests(h, fresh_state(), done + rest)
            &&& (before + after).len() == h.len()
            &&& forall|i: int| 0 <= i < h.len() ==> (#[trigger] (before + after)[i]).index == i
        }),
{
    lemma_run_from(h, fresh_state(), done);
    lemma_run_split(h, fresh_state(), done, rest);
    lemma_run_from(h, fresh_state(), done + rest);
}

/// Running again once every commit of the history is replicated makes no
/// commit and leaves the state as it is.
pub proof fn lemma_rerun_when_complete(h: Seq<RecordView>, s: StateView, targets: Seq<Seq<u8>>)
    requires
        consistent(h, s),
        s.count == h.len(),
    ensures
        next_spec(h, s) is None,
        run_requests(h, s, targets).len() == 0,
        run_state(h, s, targets) == s,
{
    lemma_run_empty_when_complete(h, s, targets);
}

/// Drives the replication of a history: says which commit comes next and
/// with which parent, and advances the state once that commit is published.
pub struct Replicator {
    history: Vec<CommitRecord>,
    state: ReplicationState,
}

impl Replicator {
    /// The history being replicated.
    pub closed spec fn history_view(&self) -> Seq<RecordView> {
        self.history@.map_values(|r: CommitRecord| r@)
    }

    /// The current state.
    pub closed spec fn state_view(&self) -> StateView {
        self.state@
    }

    /// Every replicator holds a state consistent with its history.
    pub closed spec fn wf(&self) -> bool {
        &&& consistent(self.history_view(), self.state_view())
        &&& self.history_view().len() == self.history@.len()
        &&& forall|i: int|
            0 <= i < self.history@.len() ==> #[trigger] self.history_view()[i] == self.history@[i]@
    }

    /// Takes up a history with the state of an earlier run (the fresh
    /// state for a first run). Fails with `StateMismatch` when the state
    /// does not describe a prefix of the history.
    pub fn new(history: Vec<CommitRecord>, state: ReplicationState) -> (r: Result<
        Replicator,
        ReplicationError,
    >)
        ensures
            match r {
                Ok(rep) => {
                    &&& consistent(history@.map_values(|c: CommitRecord| c@), state@)
                    &&& rep.wf()
                    &&& rep.history_view() == history@.map_values(|c: CommitRecord| c@)
                    &&& rep.state_view() == state@
                },
                Err(e) => {
                    &&& !consistent(history@.map_values(|c: CommitRecord| c@), state@)
                    &&& e.kind == ErrorKind::StateMismatch
                    &&& opt_view(e.commit) == state@.last_source
                },
            },
    {
        let ghost h = history@.map_values(|c: CommitRecord| c@);
        let count = state.replicated_count;
        let ok = if count as u128 > history.len() as u128 {
            false
        } else if count == 0 {
            state.last_source.is_none() && state.last_target.is_none()
        } else {
            let last = &history[(count - 1) as usize];
            match &state.last_source {
                Some(src) => bytes_equal(src, &last.id) && state.last_target.is_some(),
                None => false,
            }
        };
        if ok {
            let rep = Replicator { history, state };
            assert(rep.history_view() == h);
            assert(rep.history_view().len() == rep.history@.len());
            Ok(rep)
        } else {
            let commit = copy_opt_bytes(&state.last_source);
            Err(ReplicationError { kind: ErrorKind::StateMismatch, commit })
        }
    }

    /// The current state, to be persisted.
    pub fn state(&self) -> (r: &ReplicationState)
        ensures
            r@ == self.state_view(),
    {
        &self.state
    }

    /// The number of commits in the history.
    pub fn total(&self) -> (r: usize)
        ensures
            r == self.history_view().len(),
    {
        self.history.len()
    }

    /// True when every commit of the history is replicated.
    pub fn is_done(&self) -> (r: bool)
        requires
            self.wf(),
        ensures
            r == (next_spec(self.history_view(), self.state_view()) is None),
    {
        self.state.replicated_count as u128 >= self.history.len() as u128
    }

    /// The commit to replicate next, with the parent its replica gets.
    pub fn next_request(&self) -> (r: Option<CommitRequest>)
        requires
            self.wf(),
        ensures
            match r {
                Some(q) => next_spec(self.history_view(), self.state_view()) == Some(q@),
                None => next_spec(self.history_view(), self.state_view()) is None,
            },
    {
        if self.is_done() {
            return None;
        }
        assert(self.state.replicated_count < self.history.len());
        let i = self.state.replicated_count as usize;
        let rec = &self.history[i];
        let q = CommitRequest {
            index: i,
            source: copy_bytes(&rec.id),
            message: copy_bytes(&rec.message),
            parent: copy_opt_bytes(&self.state.last_target),
        };
        assert(self.history_view()[i as int] == rec@);
        Some(q)
    }

    /// The error for a failure in the given phase of the next commit.
    pub fn failure(&self, kind: ErrorKind) -> (r: ReplicationError)
        requires
            self.wf(),
        ensures
            r.kind == kind,
            opt_view(r.commit) == match next_spec(self.history_view(), self.state_view()) {
                Some(q) => Some(q.source),
                None => None,
            },
    {
        if self.is_done() {
            return ReplicationError { kind, commit: None };
        }
        assert(self.state.replicated_count < self.history.len());
        let i = self.state.replicated_count as usize;
        assert(self.history_view()[i as int] == self.history[i as int]@);
        ReplicationError { kind, commit: Some(copy_bytes(&self.history[i].id)) }
    }

    /// Records that the next commit was made as `target` and published.
    /// Nothing else advances the state, so a failed step leaves it as it was.
    pub fn record_published(&mut self, target: Vec<u8>)
        requires
            old(self).wf(),
            next_spec(old(self).history_view(), old(self).state_view()) is Some,
        ensures
            final(self).wf(),
            final(self).history_view() == old(self).history_view(),
            final(self).state_view() == advance_spec(
                old(self).history_view(),
                old(self).state_view(),
                target@,
            ),
    {
        assert(self.state.replicated_count < self.history.len());
        let i = self.state.replicated_count as usize;
        assert(self.history_view()[i as int] == self.history[i as int]@);
        let src = copy_bytes(&self.history[i].id);
        self.state = ReplicationState {
            last_source: Some(src),
            last_target: Some(target),
            replicated_count: self.state.replicated_count + 1,
        };
    }
}

} // verus!
