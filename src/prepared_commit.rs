//! The writer's mutation pipeline and the two-phase commit handle.
//!
//! Opstamps start at 1 and grow by one per accepted operation. Opening a
//! commit takes the next opstamp from the same counter as its sequence
//! point, so commits are stamped in strictly increasing order; the commit
//! then takes every pending operation below that point, and leaves the
//! operations accepted after the opening pending. At most one commit is open
//! per writer.
use crate::operation::{StampedOperation, UserOperation};
use crate::Opstamp;
use vstd::prelude::*;

verus! {

/// A commit request handed to the segment-update scheduler.
#[derive(Clone, Debug)]
pub struct CommitRequest {
    pub opstamp: Opstamp,
    pub payload: Option<String>,
}

/// Misuse of the commit protocol, or a scheduler that refused the request.
#[derive(Clone, Copy, Debug, PartialEq, Eq, Structural)]
pub enum CommitError {
    ProtocolError,
    CommitRejected,
}

/// The abstract state of a writer.
pub struct WriterState {
    pub next_opstamp: Opstamp,
    pub committed_opstamp: Opstamp,
    pub committed: Seq<StampedOperation>,
    pub pending: Seq<StampedOperation>,
    pub requests: Seq<CommitRequest>,
    pub accepting: bool,
    pub open_commit: Option<Opstamp>,
}

pub open spec fn upto(point: Opstamp) -> spec_fn(StampedOperation) -> bool {
    |o: StampedOperation| o.spec_opstamp() <= point
}

pub open spec fn after(point: Opstamp) -> spec_fn(StampedOperation) -> bool {
    |o: StampedOperation| o.spec_opstamp() > point
}

/// Every operation of the log, committed ones first.
pub open spec fn log(m: WriterState) -> Seq<StampedOperation> {
    m.committed + m.pending
}

pub open spec fn strictly_increasing(s: Seq<StampedOperation>) -> bool {
    forall|i: int, j: int|
        0 <= i < j < s.len() ==> (#[trigger] s[i]).spec_opstamp() < (#[trigger] s[j]).spec_opstamp()
}

pub open spec fn writer_wf(m: WriterState) -> bool {
    &&& 1 <= m.next_opstamp
    &&& m.committed_opstamp < m.next_opstamp
    &&& strictly_increasing(log(m))
    &&& forall|i: int|
        0 <= i < log(m).len() ==> (#[trigger] log(m)[i]).spec_opstamp() < m.next_opstamp
    &&& forall|i: int|
        0 <= i < m.committed.len() ==> (#[trigger] m.committed[i]).spec_opstamp()
            <= m.committed_opstamp
    &&& forall|i: int|
        0 <= i < m.pending.len() ==> (#[trigger] m.pending[i]).spec_opstamp()
            > m.committed_opstamp
    &&& m.open_commit matches Some(p) ==> m.committed_opstamp < p < m.next_opstamp
    &&& forall|i: int|
        0 <= i < m.requests.len() ==> (#[trigger] m.requests[i]).opstamp <= m.committed_opstamp
    &&& forall|i: int, j: int|
        0 <= i < j < m.requests.len() ==> (#[trigger] m.requests[i]).opstamp
            < (#[trigger] m.requests[j]).opstamp
}

/// The state after `operation` is accepted.
pub open spec fn submit_model(m: WriterState, operation: UserOperation) -> WriterState {
    WriterState {
        next_opstamp: (m.next_opstamp + 1) as Opstamp,
        pending: m.pending.push(crate::operation::stamped(operation, m.next_opstamp)),
        ..m
    }
}

/// The sequence point a commit opened on `m` takes: the next opstamp.
pub open spec fn sequence_point(m: WriterState) -> Opstamp {
    m.next_opstamp
}

/// The state after a commit is opened: its sequence point is used up.
pub open spec fn prepare_model(m: WriterState) -> WriterState {
    WriterState {
        open_commit: Some(sequence_point(m)),
        next_opstamp: (m.next_opstamp + 1) as Opstamp,
        ..m
    }
}

/// The state after the commit at `point` is finalized and accepted.
pub open spec fn commit_model(m: WriterState, point: Opstamp, payload: Option<String>) -> WriterState {
    WriterState {
        committed_opstamp: point,
        committed: m.committed + m.pending.filter(upto(point)),
        pending: m.pending.filter(after(point)),
        requests: m.requests.push(CommitRequest { opstamp: point, payload }),
        open_commit: None,
        ..m
    }
}

/// The state after a rollback to the last commit.
pub open spec fn abort_model(m: WriterState) -> WriterState {
    WriterState { pending: Seq::empty(), open_commit: None, ..m }
}

/// The mutation pipeline of one writer: it stamps operations, keeps those
/// not yet committed, and hands commit requests to the scheduler.
pub struct IndexWriter {
    next_opstamp: Opstamp,
    committed_opstamp: Opstamp,
    committed: Vec<StampedOperation>,
    pending: Vec<StampedOperation>,
    requests: Vec<CommitRequest>,
    accepting: bool,
    open_commit: Option<Opstamp>,
}

impl View for IndexWriter {
    type V = WriterState;

    closed spec fn view(&self) -> WriterState {
        WriterState {
            next_opstamp: self.next_opstamp,
            committed_opstamp: self.committed_opstamp,
            committed: self.committed@,
            pending: self.pending@,
            requests: self.requests@,
            accepting: self.accepting,
            open_commit: self.open_commit,
        }
    }
}

/// A commit in flight: its sequence point and an optional payload.
///
/// A handle dropped without `commit` or `abort` neither commits nor aborts:
/// the writer keeps that commit open, so `prepare_commit` fails with
/// `ProtocolError` until `IndexWriter::rollback` closes it (discarding the
/// pending operations, as an abort would).
pub struct PreparedCommit {
    payload: Option<String>,
    opstamp: Opstamp,
}

impl PreparedCommit {
    pub(crate) fn new(opstamp: Opstamp) -> (r: PreparedCommit)
        ensures
            r.spec_opstamp() == opstamp,
            r.spec_payload() is None,
    {
        PreparedCommit { payload: None, opstamp }
    }

    pub closed spec fn spec_opstamp(&self) -> Opstamp {
        self.opstamp
    }

    pub closed spec fn spec_payload(&self) -> Option<String> {
        self.payload
    }

    /// The sequence point of this commit.
    pub fn opstamp(&self) -> (r: Opstamp)
        ensures
            r == self.spec_opstamp(),
    {
        self.opstamp
    }

    /// Attaches `payload`, replacing any earlier one.
    pub fn set_payload(&mut self, payload: &str)
        ensures
            final(self).spec_opstamp() == old(self).spec_opstamp(),
            final(self).spec_payload() matches Some(p) && p@ == payload@,
    {
        self.payload = Some(payload.to_owned());
    }

    /// Rolls the writer back to its last commit, discarding the pending
    /// operations, and returns this commit's opstamp.
    pub fn abort(self, index_writer: &mut IndexWriter) -> (r: Result<Opstamp, CommitError>)
        requires
            writer_wf(old(index_writer)@),
        ensures
            writer_wf(final(index_writer)@),
            old(index_writer)@.open_commit == Some(self.spec_opstamp()) ==> r == Ok::<Opstamp, CommitError>(self.spec_opstamp())
                && final(index_writer)@ == abort_model(old(index_writer)@),
            old(index_writer)@.open_commit != Some(self.spec_opstamp()) ==> r == Err::<Opstamp, CommitError>(CommitError::ProtocolError)
                && final(index_writer)@ == old(index_writer)@,
    {
        if index_writer.open_commit != Some(self.opstamp) {
            return Err(CommitError::ProtocolError);
        }
        index_writer.rollback();
        Ok(self.opstamp)
    }

    /// Hands the commit (sequence point and payload) to the scheduler and
    /// returns its opstamp once the request is queued. A scheduler that no
    /// longer accepts requests yields `CommitRejected`; the commit is closed
    /// either way.
    pub fn commit(self, index_writer: &mut IndexWriter) -> (r: Result<Opstamp, CommitError>)
        requires
            writer_wf(old(index_writer)@),
        ensures
            writer_wf(final(index_writer)@),
            old(index_writer)@.open_commit != Some(self.spec_opstamp()) ==> r == Err::<Opstamp, CommitError>(CommitError::ProtocolError)
                && final(index_writer)@ == old(index_writer)@,
            old(index_writer)@.open_commit == Some(self.spec_opstamp()) && !old(index_writer)@.accepting ==> r
                == Err::<Opstamp, CommitError>(CommitError::CommitRejected) && final(index_writer)@ == (WriterState {
                open_commit: None,
                ..old(index_writer)@
            }),
            old(index_writer)@.open_commit == Some(self.spec_opstamp()) && old(index_writer)@.accepting ==> (
            forall|i: int|
                0 <= i < old(index_writer)@.requests.len() ==> (#[trigger] old(
                    index_writer,
                )@.requests[i]).opstamp < self.spec_opstamp()),
            old(index_writer)@.open_commit == Some(self.spec_opstamp()) && old(index_writer)@.accepting ==> r
                == Ok::<Opstamp, CommitError>(self.spec_opstamp()) && final(index_writer)@ == commit_model(
                old(index_writer)@,
                self.spec_opstamp(),
                self.spec_payload(),
            ),
    {
        if index_writer.open_commit != Some(self.opstamp) {
            return Err(CommitError::ProtocolError);
        }
        index_writer.open_commit = None;
        if !index_writer.accepting {
            return Err(CommitError::CommitRejected);
        }
        let point = self.opstamp;
        let mut rest: Vec<StampedOperation> = Vec::new();
        std::mem::swap(&mut rest, &mut index_writer.pending);
        let ghost all = rest@;
        let ghost committed0 = index_writer.committed@;
        let ghost mut done: int = 0;
        while rest.len() > 0
            invariant
                0 <= done <= all.len(),
                rest@ == all.subrange(done, all.len() as int),
                index_writer.committed@ == committed0 + all.subrange(0, done).filter(upto(point)),
                index_writer.pending@ == all.subrange(0, done).filter(after(point)),
                index_writer.requests@ == old(index_writer).requests@,
                index_writer.open_commit is None,
                index_writer.accepting == old(index_writer).accepting,
                index_writer.next_opstamp == old(index_writer).next_opstamp,
            decreases rest@.len(),
        {
            let o = rest.remove(0);
            proof {
                assert(o == all[done]);
                assert(all.subrange(0, done).push(o) == all.subrange(0, done + 1));
                assert(all.subrange(0, done + 1).drop_last() == all.subrange(0, done));
                reveal_with_fuel(Seq::filter, 1);
                done = done + 1;
            }
            if o.opstamp() <= point {
                index_writer.committed.push(o);
                assert(index_writer.committed@ == committed0 + all.subrange(0, done).filter(upto(point)));
            } else {
                index_writer.pending.push(o);
            }
            assert(rest@ == all.subrange(done, all.len() as int));
        }
        assert(all.subrange(0, all.len() as int) == all);
        let ghost payload = self.payload;
        index_writer.committed_opstamp = point;
        index_writer.requests.push(CommitRequest { opstamp: point, payload: self.payload });
        proof {
            assert(all == old(index_writer)@.pending);
            assert(committed0 == old(index_writer)@.committed);
            lemma_commit_keeps_wf(old(index_writer)@, point, payload);
        }
        let ghost n = commit_model(old(index_writer)@, point, payload);
        assert(index_writer@.committed == n.committed);
        assert(index_writer@.pending == n.pending);
        assert(index_writer@.requests == n.requests);
        assert(index_writer@.open_commit == n.open_commit);
        assert(index_writer@.next_opstamp == n.next_opstamp);
        assert(index_writer@.accepting == n.accepting);
        assert(index_writer@ == n);
        Ok(point)
    }
}

impl IndexWriter {
    /// A writer with an empty log whose scheduler accepts requests.
    pub fn new() -> (r: IndexWriter)
        ensures
            writer_wf(r@),
            r@.next_opstamp == 1,
            r@.committed_opstamp == 0,
            r@.committed.len() == 0,
            r@.pending.len() == 0,
            r@.requests.len() == 0,
            r@.accepting,
            r@.open_commit is None,
    {
        IndexWriter {
            next_opstamp: 1,
            committed_opstamp: 0,
            committed: Vec::new(),
            pending: Vec::new(),
            requests: Vec::new(),
            accepting: true,
            open_commit: None,
        }
    }

    /// The opstamp the next accepted operation gets.
    pub fn next_opstamp(&self) -> (r: Opstamp)
        ensures
            r == self@.next_opstamp,
    {
        self.next_opstamp
    }

    /// The sequence point of the last successful commit (0 before any).
    pub fn committed_opstamp(&self) -> (r: Opstamp)
        ensures
            r == self@.committed_opstamp,
    {
        self.committed_opstamp
    }

    /// The operations made durable by past commits, in opstamp order.
    pub fn committed_operations(&self) -> (r: &[StampedOperation])
        ensures
            r@ == self@.committed,
    {
        self.committed.as_slice()
    }

    /// The accepted operations that no commit has taken yet.
    pub fn pending_operations(&self) -> (r: &[StampedOperation])
        ensures
            r@ == self@.pending,
    {
        self.pending.as_slice()
    }

    /// The commit requests queued for the scheduler.
    pub fn commit_requests(&self) -> (r: &[CommitRequest])
        ensures
            r@ == self@.requests,
    {
        self.requests.as_slice()
    }

    /// Removes and returns the queued commit requests, oldest first, for
    /// the scheduler to process in that order.
    pub fn take_commit_requests(&mut self) -> (r: Vec<CommitRequest>)
        requires
            writer_wf(old(self)@),
        ensures
            r@ == old(self)@.requests,
            writer_wf(final(self)@),
            final(self)@ == (WriterState { requests: Seq::empty(), ..old(self)@ }),
    {
        let mut taken: Vec<CommitRequest> = Vec::new();
        std::mem::swap(&mut taken, &mut self.requests);
        assert(log(self@) == log(old(self)@));
        taken
    }

    /// Settles a commit once its request has been offered to the scheduler:
    /// the commit's own result stands if the scheduler accepted the request;
    /// otherwise that commit fails with `CommitRejected` and the writer stops
    /// taking commit requests. A failed commit's error is passed on as is.
    pub fn conclude_hand_off(&mut self, committed: Result<Opstamp, CommitError>, accepted: bool) -> (r:
        Result<Opstamp, CommitError>)
        requires
            writer_wf(old(self)@),
        ensures
            writer_wf(final(self)@),
            committed is Err ==> r == committed && final(self)@ == old(self)@,
            committed is Ok && accepted ==> r == committed && final(self)@ == old(self)@,
            committed is Ok && !accepted ==> r == Err::<Opstamp, CommitError>(CommitError::CommitRejected)
                && final(self)@ == (WriterState { accepting: false, ..old(self)@ }),
    {
        match committed {
            Err(e) => Err(e),
            Ok(opstamp) => {
                if accepted {
                    Ok(opstamp)
                } else {
                    self.shutdown_scheduler();
                    Err(CommitError::CommitRejected)
                }
            },
        }
    }

    /// Stops the scheduler from taking further commit requests.
    pub fn shutdown_scheduler(&mut self)
        requires
            writer_wf(old(self)@),
        ensures
            writer_wf(final(self)@),
            final(self)@ == (WriterState { accepting: false, ..old(self)@ }),
    {
        self.accepting = false;
    }

    /// Accepts `operation`, stamping it with the next opstamp, which is
    /// returned.
    pub fn submit(&mut self, operation: UserOperation) -> (r: Opstamp)
        requires
            writer_wf(old(self)@),
            old(self)@.next_opstamp < u64::MAX,
        ensures
            r == old(self)@.next_opstamp,
            writer_wf(final(self)@),
            final(self)@ == submit_model(old(self)@, operation),
    {
        let opstamp = self.next_opstamp;
        let ghost op = operation;
        self.pending.push(StampedOperation::stamp(operation, opstamp));
        self.next_opstamp = opstamp + 1;
        proof {
            lemma_submit_keeps_wf(old(self)@, op);
        }
        assert(self@ == submit_model(old(self)@, op));
        opstamp
    }

    /// Opens a commit whose sequence point is a fresh opstamp, above every
    /// earlier commit's. Fails while another commit of this writer is open.
    pub fn prepare_commit(&mut self) -> (r: Result<PreparedCommit, CommitError>)
        requires
            writer_wf(old(self)@),
            old(self)@.next_opstamp < u64::MAX,
        ensures
            writer_wf(final(self)@),
            old(self)@.open_commit is Some ==> r is Err && r->Err_0 == CommitError::ProtocolError
                && final(self)@ == old(self)@,
            old(self)@.open_commit is None ==> r is Ok && r->Ok_0.spec_opstamp() == sequence_point(
                old(self)@,
            ) && r->Ok_0.spec_payload() is None && final(self)@ == prepare_model(old(self)@),
            old(self)@.open_commit is None ==> r->Ok_0.spec_opstamp() > old(self)@.committed_opstamp
                && forall|i: int|
                0 <= i < old(self)@.requests.len() ==> (#[trigger] old(self)@.requests[i]).opstamp
                    < r->Ok_0.spec_opstamp(),
    {
        if self.open_commit.is_some() {
            return Err(CommitError::ProtocolError);
        }
        let point = self.next_opstamp;
        self.next_opstamp = point + 1;
        self.open_commit = Some(point);
        proof {
            lemma_prepare_keeps_wf(old(self)@);
        }
        Ok(PreparedCommit::new(point))
    }

    /// Discards every pending operation and closes any open commit; returns
    /// the sequence point of the last commit.
    pub fn rollback(&mut self) -> (r: Opstamp)
        requires
            writer_wf(old(self)@),
        ensures
            r == old(self)@.committed_opstamp,
            writer_wf(final(self)@),
            final(self)@ == abort_model(old(self)@),
    {
        self.pending = Vec::new();
        self.open_commit = None;
        assert(log(self@) == self@.committed);
        assert(log(old(self)@).subrange(0, self@.committed.len() as int) == self@.committed);
        assert forall|i: int| 0 <= i < self@.committed.len() implies
            (#[trigger] self@.committed[i]).spec_opstamp() < self@.next_opstamp by {
            assert(log(old(self)@)[i] == self@.committed[i]);
        }
        assert forall|i: int, j: int| 0 <= i < j < self@.committed.len() implies
            (#[trigger] self@.committed[i]).spec_opstamp() < (#[trigger] self@.committed[j]).spec_opstamp() by {
            assert(log(old(self)@)[i] == self@.committed[i]);
            assert(log(old(self)@)[j] == self@.committed[j]);
        }
        self.committed_opstamp
    }
}

proof fn lemma_prepare_keeps_wf(m: WriterState)
    requires
        writer_wf(m),
        m.open_commit is None,
        m.next_opstamp < u64::MAX,
    ensures
        writer_wf(prepare_model(m)),
{
    let n = prepare_model(m);
    assert(log(n) == log(m));
}

proof fn lemma_submit_keeps_wf(m: WriterState, operation: UserOperation)
    requires
        writer_wf(m),
        m.next_opstamp < u64::MAX,
    ensures
        writer_wf(submit_model(m, operation)),
{
    let n = submit_model(m, operation);
    let o = crate::operation::stamped(operation, m.next_opstamp);
    assert(log(n) == log(m).push(o));
    assert(o.spec_opstamp() == m.next_opstamp);
    assert forall|i: int| 0 <= i < n.pending.len() implies (#[trigger] n.pending[i]).spec_opstamp()
        > n.committed_opstamp by {
        if i < m.pending.len() {
            assert(n.pending[i] == m.pending[i]);
        }
    }
}

proof fn lemma_filter_increasing(s: Seq<StampedOperation>, p: spec_fn(StampedOperation) -> bool)
    requires
        strictly_increasing(s),
    ensures
        strictly_increasing(s.filter(p)),
        forall|i: int|
            0 <= i < s.filter(p).len() ==> p(#[trigger] s.filter(p)[i]) && s.contains(s.filter(p)[i]),
    decreases s.len(),
{
    reveal_with_fuel(Seq::filter, 1);
    if s.len() > 0 {
        let d = s.drop_last();
        lemma_filter_increasing(d, p);
        assert forall|i: int| 0 <= i < d.filter(p).len() implies #[trigger] d.filter(p)[i].spec_opstamp()
            < s.last().spec_opstamp() by {
            let j = choose|j: int| 0 <= j < d.len() && d[j] == d.filter(p)[i];
            assert(s[j] == d[j]);
        }
        assert forall|i: int| 0 <= i < d.filter(p).len() implies s.contains(#[trigger] d.filter(p)[i]) by {
            let j = choose|j: int| 0 <= j < d.len() && d[j] == d.filter(p)[i];
            assert(s[j] == d[j]);
        }
        assert(s.contains(s.last())) by {
            assert(s[s.len() - 1] == s.last());
        }
    }
}

proof fn lemma_commit_keeps_wf(m: WriterState, point: Opstamp, payload: Option<String>)
    requires
        writer_wf(m),
        m.open_commit == Some(point),
    ensures
        writer_wf(commit_model(m, point, payload)),
{
    let n = commit_model(m, point, payload);
    assert(strictly_increasing(m.pending)) by {
        assert forall|i: int, j: int| 0 <= i < j < m.pending.len() implies (#[trigger] m.pending[i]).spec_opstamp()
            < (#[trigger] m.pending[j]).spec_opstamp() by {
            assert(log(m)[m.committed.len() + i] == m.pending[i]);
            assert(log(m)[m.committed.len() + j] == m.pending[j]);
        }
    }
    assert(strictly_increasing(m.committed)) by {
        assert forall|i: int, j: int| 0 <= i < j < m.committed.len() implies (#[trigger] m.committed[i]).spec_opstamp()
            < (#[trigger] m.committed[j]).spec_opstamp() by {
            assert(log(m)[i] == m.committed[i]);
            assert(log(m)[j] == m.committed[j]);
        }
    }
    let lo = m.pending.filter(upto(point));
    let hi = m.pending.filter(after(point));
    lemma_filter_increasing(m.pending, upto(point));
    lemma_filter_increasing(m.pending, after(point));
    assert forall|i: int| 0 <= i < m.pending.len() implies (#[trigger] m.pending[i]).spec_opstamp() < m.next_opstamp by {
        assert(log(m)[m.committed.len() + i] == m.pending[i]);
    }
    assert forall|i: int| 0 <= i < m.committed.len() implies (#[trigger] m.committed[i]).spec_opstamp() < m.next_opstamp by {
        assert(log(m)[i] == m.committed[i]);
    }
    let c = m.committed + lo;
    assert forall|i: int| 0 <= i < c.len() implies (#[trigger] c[i]).spec_opstamp() <= point by {
        if i >= m.committed.len() {
            assert(c[i] == lo[i - m.committed.len()]);
        }
    }
    assert forall|i: int| 0 <= i < lo.len() implies (#[trigger] lo[i]).spec_opstamp() > m.committed_opstamp by {
        assert(m.pending.contains(lo[i]));
    }
    assert(strictly_increasing(c)) by {
        assert forall|i: int, j: int| 0 <= i < j < c.len() implies (#[trigger] c[i]).spec_opstamp()
            < (#[trigger] c[j]).spec_opstamp() by {
            if j >= m.committed.len() {
                assert(c[j] == lo[j - m.committed.len()]);
                if i >= m.committed.len() {
                    assert(c[i] == lo[i - m.committed.len()]);
                }
            }
        }
    }
    let rq = n.requests;
    assert(rq == m.requests.push(CommitRequest { opstamp: point, payload }));
    assert forall|i: int| 0 <= i < rq.len() implies (#[trigger] rq[i]).opstamp <= point by {
        if i < m.requests.len() {
            assert(rq[i] == m.requests[i]);
        }
    }
    assert forall|i: int, j: int| 0 <= i < j < rq.len() implies (#[trigger] rq[i]).opstamp
        < (#[trigger] rq[j]).opstamp by {
        assert(rq[i] == m.requests[i]);
        if j < m.requests.len() {
            assert(rq[j] == m.requests[j]);
        }
    }
    let l = c + hi;
    assert(log(n) == l);
    assert forall|i: int| 0 <= i < hi.len() implies (#[trigger] hi[i]).spec_opstamp() > point
        && hi[i].spec_opstamp() < m.next_opstamp by {
        assert(m.pending.contains(hi[i]));
    }
    assert forall|i: int| 0 <= i < l.len() implies (#[trigger] l[i]).spec_opstamp() < m.next_opstamp by {
        if i >= c.len() {
            assert(l[i] == hi[i - c.len()]);
        } else {
            assert(l[i] == c[i]);
        }
    }
    assert(strictly_increasing(l)) by {
        assert forall|i: int, j: int| 0 <= i < j < l.len() implies (#[trigger] l[i]).spec_opstamp()
            < (#[trigger] l[j]).spec_opstamp() by {
            if j >= c.len() {
                assert(l[j] == hi[j - c.len()]);
                if i >= c.len() {
                    assert(l[i] == hi[i - c.len()]);
                } else {
                    assert(l[i] == c[i]);
                }
            } else {
                assert(l[i] == c[i]);
                assert(l[j] == c[j]);
            }
        }
    }
}

proof fn lemma_filter_all_or_none(s: Seq<StampedOperation>, p: spec_fn(StampedOperation) -> bool)
    ensures
        (forall|i: int| 0 <= i < s.len() ==> p(#[trigger] s[i])) ==> s.filter(p) == s,
        (forall|i: int| 0 <= i < s.len() ==> !p(#[trigger] s[i])) ==> s.filter(p).len() == 0,
    decreases s.len(),
{
    reveal_with_fuel(Seq::filter, 1);
    if s.len() > 0 {
        let d = s.drop_last();
        lemma_filter_all_or_none(d, p);
        if forall|i: int| 0 <= i < s.len() ==> p(#[trigger] s[i]) {
            assert forall|i: int| 0 <= i < d.len() implies p(#[trigger] d[i]) by {
                assert(d[i] == s[i]);
            }
            assert(p(s[s.len() - 1]));
            assert(d.push(s.last()) == s);
        }
        if forall|i: int| 0 <= i < s.len() ==> !p(#[trigger] s[i]) {
            assert forall|i: int| 0 <= i < d.len() implies !p(#[trigger] d[i]) by {
                assert(d[i] == s[i]);
            }
            assert(!p(s[s.len() - 1]));
        }
    }
}

/// Opstamps only grow: in every well-formed writer state the opstamps of
/// the log strictly increase and lie below the next opstamp, and two
/// successive submissions get two increasing opstamps, above every earlier
/// one, that extend the log in the order of acceptance.
pub proof fn lemma_opstamps_strictly_increase(m: WriterState, a: UserOperation, b: UserOperation)
    requires
        writer_wf(m),
        m.next_opstamp + 1 < u64::MAX,
    ensures
        strictly_increasing(log(m)),
        forall|i: int| 0 <= i < log(m).len() ==> (#[trigger] log(m)[i]).spec_opstamp() < m.next_opstamp,
        writer_wf(submit_model(submit_model(m, a), b)),
        strictly_increasing(log(submit_model(submit_model(m, a), b))),
        log(submit_model(submit_model(m, a), b)) == log(m).push(
            crate::operation::stamped(a, m.next_opstamp),
        ).push(crate::operation::stamped(b, (m.next_opstamp + 1) as Opstamp)),
{
    lemma_submit_keeps_wf(m, a);
    lemma_submit_keeps_wf(submit_model(m, a), b);
    let m1 = submit_model(m, a);
    assert(log(m1) == log(m).push(crate::operation::stamped(a, m.next_opstamp)));
    assert(log(submit_model(m1, b)) == log(m1).push(
        crate::operation::stamped(b, (m.next_opstamp + 1) as Opstamp),
    ));
}

/// A commit takes exactly the operations accepted before it was opened:
/// with a commit opened, one more operation accepted, and then the commit
/// finalized, every operation pending before the opening is committed, and
/// the later one alone stays pending for the next commit.
pub proof fn lemma_commit_takes_operations_up_to_sequence_point(
    m: WriterState,
    late: UserOperation,
    payload: Option<String>,
)
    requires
        writer_wf(m),
        m.open_commit is None,
        m.next_opstamp + 1 < u64::MAX,
    ensures
        ({
            let m3 = commit_model(
                submit_model(prepare_model(m), late),
                sequence_point(m),
                payload,
            );
            &&& m3.committed == m.committed + m.pending
            &&& m3.pending == seq![crate::operation::stamped(late, (m.next_opstamp + 1) as Opstamp)]
            &&& m3.committed_opstamp == sequence_point(m)
            &&& forall|i: int|
                0 <= i < m3.committed.len() ==> (#[trigger] m3.committed[i]).spec_opstamp()
                    < sequence_point(m)
        }),
{
    let point = sequence_point(m);
    let m2 = submit_model(prepare_model(m), late);
    let x = crate::operation::stamped(late, (m.next_opstamp + 1) as Opstamp);
    assert(m2.pending == m.pending.push(x));
    assert forall|i: int| 0 <= i < m.pending.len() implies (#[trigger] m.pending[i]).spec_opstamp() < point by {
        assert(log(m)[m.committed.len() + i] == m.pending[i]);
    }
    lemma_filter_all_or_none(m.pending, upto(point));
    lemma_filter_all_or_none(m.pending, after(point));
    reveal_with_fuel(Seq::filter, 1);
    assert(m.pending.push(x).drop_last() == m.pending);
    assert(m2.pending.filter(upto(point)) == m.pending);
    assert(m2.pending.filter(after(point)) == seq![x]);
    let c = m.committed + m.pending;
    assert forall|i: int| 0 <= i < c.len() implies (#[trigger] c[i]).spec_opstamp() < point by {
        if i >= m.committed.len() {
            assert(c[i] == m.pending[i - m.committed.len()]);
        } else {
            assert(c[i] == log(m)[i]);
        }
    }
}

/// Abort discards what is pending and leaves what is committed: after one
/// more operation is accepted, a commit opened and then aborted, the
/// committed operations and the committed opstamp are those from before,
/// and nothing is pending.
pub proof fn lemma_abort_keeps_committed(m: WriterState, operation: UserOperation)
    requires
        writer_wf(m),
        m.open_commit is None,
        m.next_opstamp + 1 < u64::MAX,
    ensures
        ({
            let m3 = abort_model(prepare_model(submit_model(m, operation)));
            &&& m3.committed == m.committed
            &&& m3.committed_opstamp == m.committed_opstamp
            &&& m3.pending.len() == 0
            &&& m3.open_commit is None
            &&& m3.next_opstamp == m.next_opstamp + 2
        }),
{
}

/// Commits are stamped in strictly increasing order: two commits in a row,
/// with or without operations between them, get increasing sequence points,
/// and the scheduler's queue stays strictly increasing.
pub proof fn lemma_commit_opstamps_increase(
    m: WriterState,
    first: Option<String>,
    second: Option<String>,
)
    requires
        writer_wf(m),
        m.open_commit is None,
        m.next_opstamp + 1 < u64::MAX,
    ensures
        ({
            let m1 = commit_model(prepare_model(m), sequence_point(m), first);
            let m2 = commit_model(prepare_model(m1), sequence_point(m1), second);
            &&& sequence_point(m) < sequence_point(m1)
            &&& writer_wf(m2)
            &&& m2.requests == m.requests.push(
                CommitRequest { opstamp: sequence_point(m), payload: first },
            ).push(CommitRequest { opstamp: sequence_point(m1), payload: second })
            &&& forall|i: int, j: int|
                0 <= i < j < m2.requests.len() ==> (#[trigger] m2.requests[i]).opstamp
                    < (#[trigger] m2.requests[j]).opstamp
        }),
{
    lemma_prepare_keeps_wf(m);
    lemma_commit_keeps_wf(prepare_model(m), sequence_point(m), first);
    let m1 = commit_model(prepare_model(m), sequence_point(m), first);
    lemma_prepare_keeps_wf(m1);
    lemma_commit_keeps_wf(prepare_model(m1), sequence_point(m1), second);
}

/// The state after `ops` are accepted one after the other.
pub open spec fn submit_all(m: WriterState, ops: Seq<UserOperation>) -> WriterState
    decreases ops.len(),
{
    if ops.len() == 0 {
        m
    } else {
        submit_model(submit_all(m, ops.drop_last()), ops.last())
    }
}

/// Any number of accepted operations get consecutive, strictly increasing
/// opstamps in the order of acceptance, all above every earlier opstamp, and
/// the log stays strictly increasing.
pub proof fn lemma_submissions_strictly_increase(m: WriterState, ops: Seq<UserOperation>)
    requires
        writer_wf(m),
        m.next_opstamp + ops.len() < u64::MAX,
    ensures
        writer_wf(submit_all(m, ops)),
        submit_all(m, ops).next_opstamp == m.next_opstamp + ops.len(),
        log(submit_all(m, ops)) == log(m) + Seq::new(
            ops.len(),
            |i: int| crate::operation::stamped(ops[i], (m.next_opstamp + i) as Opstamp),
        ),
        strictly_increasing(log(submit_all(m, ops))),
    decreases ops.len(),
{
    if ops.len() > 0 {
        let d = ops.drop_last();
        lemma_submissions_strictly_increase(m, d);
        let md = submit_all(m, d);
        lemma_submit_keeps_wf(md, ops.last());
        assert(log(submit_model(md, ops.last())) == log(md).push(
            crate::operation::stamped(ops.last(), md.next_opstamp),
        ));
        let f = |i: int| crate::operation::stamped(ops[i], (m.next_opstamp + i) as Opstamp);
        let g = |i: int| crate::operation::stamped(d[i], (m.next_opstamp + i) as Opstamp);
        assert(Seq::new(ops.len(), f) == Seq::new(d.len(), g).push(
            crate::operation::stamped(ops.last(), md.next_opstamp),
        ));
    } else {
        assert(log(m) + Seq::new(
            0,
            |i: int| crate::operation::stamped(ops[i], (m.next_opstamp + i) as Opstamp),
        ) == log(m));
    }
}

} // verus!
