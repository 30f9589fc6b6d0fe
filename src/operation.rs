//! Entries of the mutation log, before and after an opstamp is assigned.
use crate::document::Document;
use crate::schema::Term;
use crate::Opstamp;
use vstd::prelude::*;

verus! {

/// Timestamped delete operation.
#[derive(Clone, Debug)]
pub struct DeleteOperation {
    pub opstamp: Opstamp,
    pub term: Term,
}

/// Timestamped add operation.
#[derive(Debug)]
pub struct AddOperation {
    pub opstamp: Opstamp,
    pub document: Document,
}

/// An operation as a caller submits it, before it is stamped.
#[derive(Debug)]
pub enum UserOperation {
    Add(Document),
    Delete(Term),
}

/// An operation accepted into the log, with its opstamp.
#[derive(Debug)]
pub enum StampedOperation {
    Add(AddOperation),
    Delete(DeleteOperation),
}

impl StampedOperation {
    pub open spec fn spec_opstamp(&self) -> Opstamp {
        match self {
            StampedOperation::Add(a) => a.opstamp,
            StampedOperation::Delete(d) => d.opstamp,
        }
    }

    pub fn opstamp(&self) -> (r: Opstamp)
        ensures
            r == self.spec_opstamp(),
    {
        match self {
            StampedOperation::Add(a) => a.opstamp,
            StampedOperation::Delete(d) => d.opstamp,
        }
    }

    /// Stamps a user operation.
    pub fn stamp(operation: UserOperation, opstamp: Opstamp) -> (r: StampedOperation)
        ensures
            r == stamped(operation, opstamp),
    {
        match operation {
            UserOperation::Add(document) => StampedOperation::Add(AddOperation { opstamp, document }),
            UserOperation::Delete(term) => StampedOperation::Delete(DeleteOperation { opstamp, term }),
        }
    }
}

pub open spec fn stamped(operation: UserOperation, opstamp: Opstamp) -> StampedOperation {
    match operation {
        UserOperation::Add(document) => StampedOperation::Add(AddOperation { opstamp, document }),
        UserOperation::Delete(term) => StampedOperation::Delete(DeleteOperation { opstamp, term }),
    }
}

} // verus!
