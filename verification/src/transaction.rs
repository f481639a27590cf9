//! Transactions: in-memory buffers of operations, index changes and
//! metadata changes, with the Active / Committed / Aborted state machine.

use vstd::prelude::*;

use crate::error::MongoLiteError;
use crate::value::{DocumentId, DocumentIdV, Value, ValueV};

verus! {

broadcast use vstd::std_specs::vec::group_vec_axioms;

/// State of a transaction.
#[derive(Debug, Clone, Copy, PartialEq, Eq, Structural)]
pub enum TransactionState {
    /// Accepting operations.
    Active,
    /// Successfully committed.
    Committed,
    /// Rolled back.
    Aborted,
}

/// One buffered operation.
#[derive(Debug)]
pub enum Operation {
    /// Insert a new document.
    Insert { collection: String, doc_id: DocumentId, doc: Value },
    /// Replace a document with a new version.
    Update { collection: String, doc_id: DocumentId, old_doc: Value, new_doc: Value },
    /// Delete a document (a tombstone is appended on apply).
    Delete { collection: String, doc_id: DocumentId, old_doc: Value },
}

/// Mathematical model of an operation.
#[verifier::ext_equal]
pub enum OperationV {
    Insert { collection: Seq<char>, doc_id: DocumentIdV, doc: ValueV },
    Update { collection: Seq<char>, doc_id: DocumentIdV, old_doc: ValueV, new_doc: ValueV },
    Delete { collection: Seq<char>, doc_id: DocumentIdV, old_doc: ValueV },
}

impl View for Operation {
    type V = OperationV;

    open spec fn view(&self) -> OperationV {
        match self {
            Operation::Insert { collection, doc_id, doc } => OperationV::Insert {
                collection: collection@,
                doc_id: doc_id@,
                doc: doc@,
            },
            Operation::Update { collection, doc_id, old_doc, new_doc } => OperationV::Update {
                collection: collection@,
                doc_id: doc_id@,
                old_doc: old_doc@,
                new_doc: new_doc@,
            },
            Operation::Delete { collection, doc_id, old_doc } => OperationV::Delete {
                collection: collection@,
                doc_id: doc_id@,
                old_doc: old_doc@,
            },
        }
    }
}

impl Clone for Operation {
    fn clone(&self) -> (r: Self)
        ensures
            r@ == self@,
    {
        match self {
            Operation::Insert { collection, doc_id, doc } => Operation::Insert {
                collection: collection.clone(),
                doc_id: doc_id.clone(),
                doc: doc.clone(),
            },
            Operation::Update { collection, doc_id, old_doc, new_doc } => Operation::Update {
                collection: collection.clone(),
                doc_id: doc_id.clone(),
                old_doc: old_doc.clone(),
                new_doc: new_doc.clone(),
            },
            Operation::Delete { collection, doc_id, old_doc } => Operation::Delete {
                collection: collection.clone(),
                doc_id: doc_id.clone(),
                old_doc: old_doc.clone(),
            },
        }
    }
}

/// Kind of an index change.
#[derive(Debug, Clone, Copy, PartialEq, Eq, Structural)]
pub enum IndexOperation {
    Insert,
    Delete,
}

/// Key payload of a buffered index change, as carried in WAL frames.
#[derive(Debug)]
pub enum IndexKey {
    Int(i64),
    String(String),
    /// IEEE-754 double, carried as its bit pattern.
    Float(u64),
    Bool(bool),
    Null,
}

impl Clone for IndexKey {
    fn clone(&self) -> (r: Self)
        ensures
            r@ == self@,
    {
        match self {
            IndexKey::Int(i) => IndexKey::Int(*i),
            IndexKey::String(s) => IndexKey::String(s.clone()),
            IndexKey::Float(bits) => IndexKey::Float(*bits),
            IndexKey::Bool(b) => IndexKey::Bool(*b),
            IndexKey::Null => IndexKey::Null,
        }
    }
}

impl View for IndexKey {
    type V = crate::key::IndexKeyV;

    open spec fn view(&self) -> crate::key::IndexKeyV {
        match self {
            IndexKey::Int(i) => crate::key::IndexKeyV::Int(*i),
            IndexKey::String(s) => crate::key::IndexKeyV::String(s@),
            IndexKey::Float(bits) => crate::key::IndexKeyV::Float(*bits),
            IndexKey::Bool(b) => crate::key::IndexKeyV::Bool(*b),
            IndexKey::Null => crate::key::IndexKeyV::Null,
        }
    }
}

/// One buffered index change.
#[derive(Debug)]
pub struct IndexChange {
    pub operation: IndexOperation,
    pub key: IndexKey,
    pub doc_id: DocumentId,
}

/// Mathematical model of an index change.
#[verifier::ext_equal]
pub struct IndexChangeV {
    pub operation: IndexOperation,
    pub key: crate::key::IndexKeyV,
    pub doc_id: DocumentIdV,
}

impl View for IndexChange {
    type V = IndexChangeV;

    open spec fn view(&self) -> IndexChangeV {
        IndexChangeV { operation: self.operation, key: self.key@, doc_id: self.doc_id@ }
    }
}

impl Clone for IndexChange {
    fn clone(&self) -> (r: Self)
        ensures
            r@ == self@,
    {
        IndexChange {
            operation: self.operation,
            key: self.key.clone(),
            doc_id: self.doc_id.clone(),
        }
    }
}

/// A buffered change to collection metadata.
#[derive(Debug)]
pub struct MetadataChange {
    pub collection: String,
    pub last_id: i64,
}

impl Clone for MetadataChange {
    fn clone(&self) -> (r: Self)
        ensures
            r.collection@ == self.collection@,
            r.last_id == self.last_id,
    {
        MetadataChange { collection: self.collection.clone(), last_id: self.last_id }
    }
}

/// Models of a run of operations.
pub open spec fn op_views(s: Seq<Operation>) -> Seq<OperationV> {
    Seq::new(s.len(), |i: int| s[i]@)
}

/// Models of a run of index changes.
pub open spec fn change_views(s: Seq<IndexChange>) -> Seq<IndexChangeV> {
    Seq::new(s.len(), |i: int| s[i]@)
}

/// A transaction: buffers of work to apply atomically on commit.
#[derive(Debug)]
pub struct Transaction {
    pub id: u64,
    pub operations: Vec<Operation>,
    pub index_changes: Vec<(String, Vec<IndexChange>)>,
    pub metadata_changes: Vec<MetadataChange>,
    pub state: TransactionState,
}

impl Transaction {
    /// Current state.
    pub open spec fn spec_state(&self) -> TransactionState {
        self.state
    }

    /// The buffered operations, in order.
    pub open spec fn spec_operations(&self) -> Seq<Operation> {
        self.operations@
    }

    /// The buffered index changes, grouped by index name in first-use order.
    pub open spec fn spec_index_changes(&self) -> Seq<(String, Vec<IndexChange>)> {
        self.index_changes@
    }

    /// The buffered metadata changes, in order.
    pub open spec fn spec_metadata_changes(&self) -> Seq<MetadataChange> {
        self.metadata_changes@
    }

    /// A fresh, active transaction.
    pub fn new(id: u64) -> (r: Transaction)
        ensures
            r.id == id,
            r.spec_state() == TransactionState::Active,
            r.spec_operations() == Seq::<Operation>::empty(),
            r.spec_index_changes() == Seq::<(String, Vec<IndexChange>)>::empty(),
            r.spec_metadata_changes() == Seq::<MetadataChange>::empty(),
    {
        Transaction {
            id,
            operations: Vec::new(),
            index_changes: Vec::new(),
            metadata_changes: Vec::new(),
            state: TransactionState::Active,
        }
    }

    /// Current state.
    pub fn state(&self) -> (r: TransactionState)
        ensures
            r == self.spec_state(),
    {
        self.state
    }

    /// The transaction still accepts work.
    pub fn is_active(&self) -> (r: bool)
        ensures
            r == (self.spec_state() == TransactionState::Active),
    {
        self.state == TransactionState::Active
    }

    /// Buffer one operation; refused once the transaction is not active.
    pub fn add_operation(&mut self, op: Operation) -> (r: Result<(), MongoLiteError>)
        ensures
            final(self).id == old(self).id,
            final(self).spec_state() == old(self).spec_state(),
            final(self).spec_index_changes() == old(self).spec_index_changes(),
            final(self).spec_metadata_changes() == old(self).spec_metadata_changes(),
            match r {
                Ok(()) => old(self).spec_state() == TransactionState::Active && final(self).spec_operations() == old(self).spec_operations().push(op),
                Err(e) => e is TransactionCommitted && old(self).spec_state()
                    != TransactionState::Active && final(self).spec_operations() == old(self).spec_operations(),
            },
    {
        if !(self.state == TransactionState::Active) {
            return Err(MongoLiteError::TransactionCommitted);
        }
        self.operations.push(op);
        Ok(())
    }

    /// Buffer one index change under the named index; refused once the
    /// transaction is not active.
    #[verifier::loop_isolation(false)]
    pub fn add_index_change(&mut self, index_name: String, change: IndexChange) -> (r: Result<
        (),
        MongoLiteError,
    >)
        ensures
            final(self).id == old(self).id,
            final(self).spec_state() == old(self).spec_state(),
            final(self).spec_operations() == old(self).spec_operations(),
            final(self).spec_metadata_changes() == old(self).spec_metadata_changes(),
            match r {
                Ok(()) => old(self).spec_state() == TransactionState::Active,
                Err(e) => e is TransactionCommitted && old(self).spec_state()
                    != TransactionState::Active && final(self).spec_index_changes() == old(self).spec_index_changes(),
            },
    {
        if !(self.state == TransactionState::Active) {
            return Err(MongoLiteError::TransactionCommitted);
        }
        let mut i: usize = 0;
        let n = self.index_changes.len();
        while i < n
            invariant
                i <= n,
                n == self.index_changes@.len(),
                *self == *old(self),
            decreases n - i,
        {
            if crate::value::str_eq(self.index_changes[i].0.as_str(), index_name.as_str()) {
                let mut pair = self.index_changes.remove(i);
                pair.1.push(change);
                self.index_changes.insert(i, pair);
                return Ok(());
            }
            i = i + 1;
        }
        let mut changes: Vec<IndexChange> = Vec::new();
        changes.push(change);
        self.index_changes.push((index_name, changes));
        Ok(())
    }

    /// Buffer one metadata change; refused once the transaction is not
    /// active.
    pub fn add_metadata_change(&mut self, change: MetadataChange) -> (r: Result<
        (),
        MongoLiteError,
    >)
        ensures
            final(self).id == old(self).id,
            final(self).spec_state() == old(self).spec_state(),
            final(self).spec_operations() == old(self).spec_operations(),
            final(self).spec_index_changes() == old(self).spec_index_changes(),
            match r {
                Ok(()) => old(self).spec_state() == TransactionState::Active && final(self).spec_metadata_changes() == old(self).spec_metadata_changes().push(change),
                Err(e) => e is TransactionCommitted && old(self).spec_state()
                    != TransactionState::Active && final(self).spec_metadata_changes() == old(self).spec_metadata_changes(),
            },
    {
        if !(self.state == TransactionState::Active) {
            return Err(MongoLiteError::TransactionCommitted);
        }
        self.metadata_changes.push(change);
        Ok(())
    }

    /// The buffered operations.
    pub fn operations(&self) -> (r: &Vec<Operation>)
        ensures
            r@ == self.spec_operations(),
    {
        &self.operations
    }

    /// The buffered index changes.
    pub fn index_changes(&self) -> (r: &Vec<(String, Vec<IndexChange>)>)
        ensures
            r@ == self.spec_index_changes(),
    {
        &self.index_changes
    }

    /// The buffered metadata changes.
    pub fn metadata_changes(&self) -> (r: &Vec<MetadataChange>)
        ensures
            r@ == self.spec_metadata_changes(),
    {
        &self.metadata_changes
    }

    /// Mark the transaction committed; only an active transaction commits.
    pub fn mark_committed(&mut self) -> (r: Result<(), MongoLiteError>)
        ensures
            final(self).id == old(self).id,
            final(self).spec_operations() == old(self).spec_operations(),
            final(self).spec_index_changes() == old(self).spec_index_changes(),
            final(self).spec_metadata_changes() == old(self).spec_metadata_changes(),
            match r {
                Ok(()) => old(self).spec_state() == TransactionState::Active && final(self).spec_state() == TransactionState::Committed,
                Err(e) => e is TransactionCommitted && old(self).spec_state()
                    != TransactionState::Active && final(self).spec_state() == old(self).spec_state(),
            },
    {
        if !(self.state == TransactionState::Active) {
            return Err(MongoLiteError::TransactionCommitted);
        }
        self.state = TransactionState::Committed;
        Ok(())
    }

    /// Discard every buffer and mark the transaction aborted. Rolling back
    /// an already aborted transaction is a no-op that succeeds.
    pub fn rollback(&mut self) -> (r: Result<(), MongoLiteError>)
        ensures
            r is Ok,
            final(self).id == old(self).id,
            final(self).spec_state() == TransactionState::Aborted,
            final(self).spec_operations() == Seq::<Operation>::empty(),
            final(self).spec_index_changes() == Seq::<(String, Vec<IndexChange>)>::empty(),
            final(self).spec_metadata_changes() == Seq::<MetadataChange>::empty(),
    {
        self.operations.clear();
        self.index_changes.clear();
        self.metadata_changes.clear();
        self.state = TransactionState::Aborted;
        Ok(())
    }

    /// Number of buffered operations.
    pub fn operation_count(&self) -> (r: usize)
        ensures
            r == self.spec_operations().len(),
    {
        self.operations.len()
    }
}

} // verus!
