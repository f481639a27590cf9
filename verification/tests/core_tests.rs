// Document ids, the value codec, WAL frames and transactions.

use mongolite_core::transaction::{
    IndexChange, IndexKey as TxIndexKey, IndexOperation, MetadataChange, Operation, Transaction,
    TransactionState,
};
use mongolite_core::value::{decode_value, encode_value, Document, DocumentId, Value};
use mongolite_core::wal::{WALEntry, WALEntryType, WriteAheadLog};

fn obj(fields: Vec<(&str, Value)>) -> Value {
    Value::Object(fields.into_iter().map(|(k, v)| (k.to_string(), v)).collect())
}

#[test]
fn test_document_id_int() {
    let id = DocumentId::Int(42);
    match id {
        DocumentId::Int(n) => assert_eq!(n, 42),
        _ => panic!("Expected Int variant"),
    }
}

#[test]
fn test_document_id_string() {
    let id = DocumentId::String("test_id".to_string());
    match id {
        DocumentId::String(s) => assert_eq!(s, "test_id"),
        _ => panic!("Expected String variant"),
    }
}

#[test]
fn test_document_id_object_id() {
    let id = DocumentId::new_object_id();
    match id {
        DocumentId::ObjectId(s) => {
            assert_eq!(s.len(), 36);
            assert!(s.contains('-'));
        }
        _ => panic!("Expected ObjectId variant"),
    }
}

#[test]
fn test_document_id_new_auto() {
    let id1 = DocumentId::new_auto(0);
    let id2 = DocumentId::new_auto(10);
    let id3 = DocumentId::new_auto(99);
    assert_eq!(id1, DocumentId::Int(1));
    assert_eq!(id2, DocumentId::Int(11));
    assert_eq!(id3, DocumentId::Int(100));
}

#[test]
fn test_document_id_equality() {
    let id1 = DocumentId::Int(42);
    let id2 = DocumentId::Int(42);
    let id3 = DocumentId::Int(99);
    assert_eq!(id1, id2);
    assert_ne!(id1, id3);
    let id4 = DocumentId::String("test".to_string());
    let id5 = DocumentId::String("test".to_string());
    let id6 = DocumentId::String("other".to_string());
    assert_eq!(id4, id5);
    assert_ne!(id4, id6);
    assert_ne!(id1, id4);
}

#[test]
fn test_document_get_field() {
    let doc = Document::new(
        DocumentId::Int(1),
        vec![
            ("name".to_string(), Value::String("Bob".to_string())),
            ("email".to_string(), Value::String("bob@example.com".to_string())),
        ],
    );
    assert!(doc.get("name").unwrap() == &Value::String("Bob".to_string()));
    assert!(doc.get("email").unwrap() == &Value::String("bob@example.com".to_string()));
    assert!(doc.get("nonexistent").is_none());
}

#[test]
fn test_document_get_id_returns_none() {
    let doc = Document::new(
        DocumentId::Int(1),
        vec![("name".to_string(), Value::String("Carol".to_string()))],
    );
    assert!(doc.get("_id").is_none());
}

#[test]
fn test_document_set_field() {
    let mut doc = Document::new(DocumentId::Int(1), Vec::new());
    doc.set("name".to_string(), Value::String("Dave".to_string()));
    doc.set("age".to_string(), Value::Int(25));
    assert_eq!(doc.fields.len(), 2);
    assert!(doc.get("name").unwrap() == &Value::String("Dave".to_string()));
    assert!(doc.get("age").unwrap() == &Value::Int(25));
}

#[test]
fn test_document_set_overwrites() {
    let mut doc = Document::new(
        DocumentId::Int(1),
        vec![("count".to_string(), Value::Int(1))],
    );
    doc.set("count".to_string(), Value::Int(2));
    doc.set("count".to_string(), Value::Int(3));
    assert_eq!(doc.fields.len(), 1);
    assert!(doc.get("count").unwrap() == &Value::Int(3));
}

#[test]
fn test_document_remove_field() {
    let mut doc = Document::new(
        DocumentId::Int(1),
        vec![
            ("temp".to_string(), Value::String("remove_me".to_string())),
            ("keep".to_string(), Value::String("stay".to_string())),
        ],
    );
    let removed = doc.remove("temp");
    assert!(removed == Some(Value::String("remove_me".to_string())));
    assert_eq!(doc.fields.len(), 1);
    assert!(doc.get("temp").is_none());
    assert!(doc.get("keep").unwrap() == &Value::String("stay".to_string()));
}

#[test]
fn test_document_remove_nonexistent() {
    let mut doc = Document::new(DocumentId::Int(1), Vec::new());
    assert!(doc.remove("nonexistent").is_none());
}

#[test]
fn test_document_contains() {
    let doc = Document::new(
        DocumentId::Int(1),
        vec![("active".to_string(), Value::Bool(true))],
    );
    assert!(doc.contains("active"));
    assert!(!doc.contains("inactive"));
}

#[test]
fn test_value_roundtrip_scalars() {
    for v in [
        Value::Null,
        Value::Bool(true),
        Value::Bool(false),
        Value::Int(0),
        Value::Int(-1),
        Value::Int(i64::MAX),
        Value::Int(i64::MIN),
        Value::Float(1.5f64.to_bits()),
        Value::String(String::new()),
        Value::String("hello world".to_string()),
    ] {
        let enc = encode_value(&v);
        let dec = decode_value(&enc).unwrap();
        assert!(dec == v);
    }
}

#[test]
fn test_value_roundtrip_nested() {
    let v = obj(vec![
        ("_id", Value::Int(7)),
        ("name", Value::String("Grace".to_string())),
        (
            "tags",
            Value::Array(vec![
                Value::String("a".to_string()),
                Value::Int(3),
                Value::Null,
            ]),
        ),
        (
            "meta",
            obj(vec![("version", Value::Int(1)), ("stable", Value::Bool(true))]),
        ),
    ]);
    let enc = encode_value(&v);
    let dec = decode_value(&enc).unwrap();
    assert!(dec == v);
}

#[test]
fn test_value_decode_rejects_junk() {
    assert!(decode_value(&vec![9u8, 1, 2, 3]).is_err());
    assert!(decode_value(&vec![2u8, 1]).is_err());
}

#[test]
fn test_wal_entry_type_conversion() {
    assert_eq!(WALEntryType::from_u8(0x01).unwrap(), WALEntryType::Begin);
    assert_eq!(WALEntryType::from_u8(0x02).unwrap(), WALEntryType::Operation);
    assert_eq!(WALEntryType::from_u8(0x03).unwrap(), WALEntryType::Commit);
    assert_eq!(WALEntryType::from_u8(0x04).unwrap(), WALEntryType::Abort);
    assert!(WALEntryType::from_u8(0xFF).is_err());
}

#[test]
fn test_wal_entry_serialize_deserialize() {
    let data = b"test data".to_vec();
    let entry = WALEntry::new(1, WALEntryType::Operation, data.clone());
    let serialized = entry.serialize();
    let deserialized = WALEntry::deserialize(&serialized).unwrap();
    assert_eq!(deserialized.transaction_id, 1);
    assert_eq!(deserialized.entry_type, WALEntryType::Operation);
    assert_eq!(deserialized.data, data);
    assert_eq!(deserialized.checksum, entry.checksum);
}

#[test]
fn test_wal_entry_checksum_validation() {
    let entry = WALEntry::new(1, WALEntryType::Begin, vec![]);
    let mut serialized = entry.serialize();
    let len = serialized.len();
    serialized[len - 1] ^= 0xFF;
    assert!(matches!(
        WALEntry::deserialize(&serialized),
        Err(mongolite_core::error::MongoLiteError::WALCorruption)
    ));
}

#[test]
fn test_wal_entry_bit_flip_detected() {
    // a flip in any single byte of the frame must be rejected
    let entry = WALEntry::new(9, WALEntryType::Operation, b"payload".to_vec());
    let clean = entry.serialize();
    for i in 0..clean.len() {
        let mut corrupted = clean.clone();
        corrupted[i] ^= 0x01;
        assert!(WALEntry::deserialize(&corrupted).is_err(), "byte {i}");
    }
}

#[test]
fn test_wal_append_and_recover() {
    let mut wal = WriteAheadLog::new();
    let begin = WALEntry::new(1, WALEntryType::Begin, vec![]);
    wal.append(&begin);
    let op = WALEntry::new(1, WALEntryType::Operation, b"insert doc".to_vec());
    wal.append(&op);
    let commit = WALEntry::new(1, WALEntryType::Commit, vec![]);
    wal.append(&commit);

    let recovered = wal.recover().unwrap();
    assert_eq!(recovered.len(), 1);
    assert_eq!(recovered[0].len(), 3);
}

#[test]
fn test_wal_recover_filters_uncommitted() {
    let mut wal = WriteAheadLog::new();
    wal.append(&WALEntry::new(1, WALEntryType::Begin, vec![]));
    wal.append(&WALEntry::new(1, WALEntryType::Operation, b"op1".to_vec()));
    wal.append(&WALEntry::new(1, WALEntryType::Commit, vec![]));
    wal.append(&WALEntry::new(2, WALEntryType::Begin, vec![]));
    wal.append(&WALEntry::new(2, WALEntryType::Operation, b"op2".to_vec()));

    let recovered = wal.recover().unwrap();
    assert_eq!(recovered.len(), 1);
    assert_eq!(recovered[0][0].transaction_id, 1);
}

#[test]
fn test_wal_clear() {
    let mut wal = WriteAheadLog::new();
    wal.append(&WALEntry::new(1, WALEntryType::Begin, vec![]));
    wal.clear();
    let recovered = wal.recover().unwrap();
    assert_eq!(recovered.len(), 0);
}

#[test]
fn test_wal_checkpoint_removes_committed() {
    let mut wal = WriteAheadLog::new();
    wal.append(&WALEntry::new(1, WALEntryType::Begin, vec![]));
    wal.append(&WALEntry::new(1, WALEntryType::Commit, vec![]));
    wal.append(&WALEntry::new(2, WALEntryType::Begin, vec![]));
    wal.checkpoint(&vec![1u64]).unwrap();
    let entries = wal.read_entries().unwrap();
    assert_eq!(entries.len(), 1);
    assert_eq!(entries[0].transaction_id, 2);
}

#[test]
fn test_transaction_new() {
    let tx = Transaction::new(1);
    assert_eq!(tx.id, 1);
    assert_eq!(tx.state(), TransactionState::Active);
    assert!(tx.is_active());
    assert_eq!(tx.operation_count(), 0);
}

#[test]
fn test_add_operation_when_active() {
    let mut tx = Transaction::new(1);
    let op = Operation::Insert {
        collection: "users".to_string(),
        doc_id: DocumentId::Int(1),
        doc: obj(vec![("name", Value::String("Alice".to_string()))]),
    };
    assert!(tx.add_operation(op).is_ok());
    assert_eq!(tx.operation_count(), 1);
}

#[test]
fn test_add_operation_when_committed() {
    let mut tx = Transaction::new(1);
    tx.mark_committed().unwrap();
    let op = Operation::Insert {
        collection: "users".to_string(),
        doc_id: DocumentId::Int(1),
        doc: obj(vec![("name", Value::String("Alice".to_string()))]),
    };
    assert!(matches!(
        tx.add_operation(op),
        Err(mongolite_core::error::MongoLiteError::TransactionCommitted)
    ));
}

#[test]
fn test_rollback() {
    let mut tx = Transaction::new(1);
    let op = Operation::Insert {
        collection: "users".to_string(),
        doc_id: DocumentId::Int(1),
        doc: obj(vec![("name", Value::String("Alice".to_string()))]),
    };
    tx.add_operation(op).unwrap();
    assert_eq!(tx.operation_count(), 1);
    tx.rollback().unwrap();
    assert_eq!(tx.state(), TransactionState::Aborted);
    assert_eq!(tx.operation_count(), 0);
}

#[test]
fn test_add_index_change() {
    let mut tx = Transaction::new(1);
    let change = IndexChange {
        operation: IndexOperation::Insert,
        key: TxIndexKey::Int(1),
        doc_id: DocumentId::Int(1),
    };
    tx.add_index_change("users_id".to_string(), change).unwrap();
    assert_eq!(tx.index_changes().len(), 1);
    assert_eq!(tx.index_changes()[0].0, "users_id");
}

#[test]
fn test_add_metadata_change() {
    let mut tx = Transaction::new(1);
    let change = MetadataChange { collection: "users".to_string(), last_id: 10 };
    tx.add_metadata_change(change).unwrap();
    assert_eq!(tx.metadata_changes().len(), 1);
}
