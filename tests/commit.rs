use tantivy_ingest::document::Document;
use tantivy_ingest::operation::{StampedOperation, UserOperation};
use tantivy_ingest::prepared_commit::{CommitError, IndexWriter};
use tantivy_ingest::schema::{Field, Term};

fn add_op(n: u64) -> UserOperation {
    let mut doc = Document::new();
    doc.add_u64(Field(0), n);
    UserOperation::Add(doc)
}

fn stamps(ops: &[StampedOperation]) -> Vec<u64> {
    ops.iter().map(|o| o.opstamp()).collect()
}

#[test]
fn opstamps_strictly_increase() {
    let mut w = IndexWriter::new();
    let mut got = Vec::new();
    for n in 0..5 {
        got.push(w.submit(add_op(n)));
    }
    got.push(w.submit(UserOperation::Delete(Term { field: Field(0), value_bytes: vec![1] })));
    assert_eq!(got, vec![1, 2, 3, 4, 5, 6]);
    assert_eq!(stamps(w.pending_operations()), got);
}

#[test]
fn commit_takes_operations_up_to_sequence_point() {
    let mut w = IndexWriter::new();
    for n in 1..=4 {
        assert_eq!(w.submit(add_op(n)), n);
    }
    let mut prepared = w.prepare_commit().unwrap();
    assert_eq!(prepared.opstamp(), 5);
    prepared.set_payload("checkpoint-1");
    assert_eq!(w.submit(add_op(5)), 6);
    assert_eq!(prepared.commit(&mut w), Ok(5));
    assert_eq!(stamps(w.committed_operations()), vec![1, 2, 3, 4]);
    assert_eq!(stamps(w.pending_operations()), vec![6]);
    assert_eq!(w.committed_opstamp(), 5);
    let requests = w.commit_requests();
    assert_eq!(requests.len(), 1);
    assert_eq!(requests[0].opstamp, 5);
    assert_eq!(requests[0].payload.as_deref(), Some("checkpoint-1"));
}

#[test]
fn abort_discards_pending_not_committed() {
    let mut w = IndexWriter::new();
    for n in 1..=4 {
        w.submit(add_op(n));
    }
    let prepared = w.prepare_commit().unwrap();
    assert_eq!(prepared.commit(&mut w), Ok(5));
    assert_eq!(w.submit(add_op(5)), 6);
    let prepared = w.prepare_commit().unwrap();
    assert_eq!(prepared.abort(&mut w), Ok(7));
    assert_eq!(stamps(w.committed_operations()), vec![1, 2, 3, 4]);
    assert!(w.pending_operations().is_empty());
    assert_eq!(w.committed_opstamp(), 5);
    assert_eq!(w.submit(add_op(6)), 8);
}

#[test]
fn second_open_commit_is_a_protocol_error() {
    let mut w = IndexWriter::new();
    w.submit(add_op(1));
    let first = w.prepare_commit().unwrap();
    assert_eq!(w.prepare_commit().err(), Some(CommitError::ProtocolError));
    assert_eq!(first.commit(&mut w), Ok(2));
    assert!(w.prepare_commit().is_ok());
}

#[test]
fn stale_handle_is_a_protocol_error() {
    let mut w = IndexWriter::new();
    w.submit(add_op(1));
    let prepared = w.prepare_commit().unwrap();
    assert_eq!(w.rollback(), 0);
    assert_eq!(prepared.commit(&mut w), Err(CommitError::ProtocolError));
}

#[test]
fn rejected_commit_closes_the_handle() {
    let mut w = IndexWriter::new();
    w.submit(add_op(1));
    w.shutdown_scheduler();
    let prepared = w.prepare_commit().unwrap();
    assert_eq!(prepared.commit(&mut w), Err(CommitError::CommitRejected));
    assert!(w.committed_operations().is_empty());
    assert_eq!(stamps(w.pending_operations()), vec![1]);
    assert!(w.commit_requests().is_empty());
    assert!(w.prepare_commit().is_ok());
}

#[test]
fn empty_commit_takes_a_fresh_opstamp() {
    let mut w = IndexWriter::new();
    let prepared = w.prepare_commit().unwrap();
    assert_eq!(prepared.opstamp(), 1);
    assert_eq!(prepared.commit(&mut w), Ok(1));
    assert!(w.committed_operations().is_empty());
    assert_eq!(w.submit(add_op(1)), 2);
}

#[test]
fn commits_in_a_row_get_increasing_opstamps() {
    let mut w = IndexWriter::new();
    w.submit(add_op(1));
    let first = w.prepare_commit().unwrap().commit(&mut w).unwrap();
    let second = w.prepare_commit().unwrap().commit(&mut w).unwrap();
    let third = w.prepare_commit().unwrap().commit(&mut w).unwrap();
    assert!(first < second && second < third);
    let queued: Vec<u64> = w.commit_requests().iter().map(|r| r.opstamp).collect();
    assert_eq!(queued, vec![first, second, third]);
}

#[test]
fn dropped_handle_keeps_commit_open_until_rollback() {
    let mut w = IndexWriter::new();
    w.submit(add_op(1));
    let prepared = w.prepare_commit().unwrap();
    drop(prepared);
    assert_eq!(w.prepare_commit().err(), Some(CommitError::ProtocolError));
    assert!(w.committed_operations().is_empty());
    assert_eq!(stamps(w.pending_operations()), vec![1]);
    assert_eq!(w.rollback(), 0);
    assert!(w.pending_operations().is_empty());
    assert!(w.prepare_commit().is_ok());
}

#[test]
fn take_commit_requests_empties_the_queue_in_order() {
    let mut w = IndexWriter::new();
    w.submit(add_op(1));
    let first = w.prepare_commit().unwrap().commit(&mut w).unwrap();
    let second = w.prepare_commit().unwrap().commit(&mut w).unwrap();
    let taken: Vec<u64> = w.take_commit_requests().iter().map(|r| r.opstamp).collect();
    assert_eq!(taken, vec![first, second]);
    assert!(w.commit_requests().is_empty());
    let third = w.prepare_commit().unwrap().commit(&mut w).unwrap();
    assert!(third > second);
}

#[test]
fn conclude_hand_off_rejects_the_commit_the_scheduler_refused() {
    let mut w = IndexWriter::new();
    w.submit(add_op(1));
    let committed = w.prepare_commit().unwrap().commit(&mut w);
    assert_eq!(w.conclude_hand_off(committed, true), Ok(2));
    let committed = w.prepare_commit().unwrap().commit(&mut w);
    assert_eq!(committed, Ok(3));
    assert_eq!(w.conclude_hand_off(committed, false), Err(CommitError::CommitRejected));
    let later = w.prepare_commit().unwrap().commit(&mut w);
    assert_eq!(later, Err(CommitError::CommitRejected));
    assert_eq!(
        w.conclude_hand_off(Err(CommitError::ProtocolError), true),
        Err(CommitError::ProtocolError)
    );
}
