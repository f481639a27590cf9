// The storage engine, the coordinator, recovery and compaction.

use mongolite_core::database::DatabaseCore;
use mongolite_core::error::MongoLiteError;
use mongolite_core::storage::{Header, StorageEngine};
use mongolite_core::value::Value;

fn obj(fields: Vec<(&str, Value)>) -> Value {
    Value::Object(fields.into_iter().map(|(k, v)| (k.to_string(), v)).collect())
}

fn fields(fs: Vec<(&str, Value)>) -> Vec<(String, Value)> {
    fs.into_iter().map(|(k, v)| (k.to_string(), v)).collect()
}

#[test]
fn test_header_defaults() {
    let header = Header::new();
    assert_eq!(header.magic, b"MONGOLTE".to_vec());
    assert_eq!(header.version, 1);
    assert_eq!(header.page_size, 4096);
    assert_eq!(header.collection_count, 0);
    assert_eq!(header.free_list_head, 0);
}

#[test]
fn test_create_new_database() {
    let storage = StorageEngine::new().unwrap();
    assert_eq!(storage.header.magic, b"MONGOLTE".to_vec());
    assert_eq!(storage.header.version, 1);
    assert_eq!(storage.header.page_size, 4096);
    assert_eq!(storage.header.collection_count, 0);
    assert_eq!(storage.collections.len(), 0);
}

#[test]
fn test_magic_number_validation() {
    let mut bad = b"WRONGMAG".to_vec();
    bad.extend_from_slice(&[0u8; 64]);
    let result = StorageEngine::open_from_bytes(bad, Vec::new());
    assert!(matches!(result, Err(MongoLiteError::Corruption(_))));
}

#[test]
fn test_create_collection() {
    let mut storage = StorageEngine::new().unwrap();
    storage.create_collection("users").unwrap();
    assert_eq!(storage.header.collection_count, 1);
    let meta = storage.get_collection_meta("users").unwrap();
    assert_eq!(meta.name, "users");
    assert_eq!(meta.document_count, 0);
    assert_eq!(meta.last_id, 0);
}

#[test]
fn test_create_duplicate_collection() {
    let mut storage = StorageEngine::new().unwrap();
    storage.create_collection("users").unwrap();
    let result = storage.create_collection("users");
    assert!(matches!(result, Err(MongoLiteError::CollectionExists(_))));
}

#[test]
fn test_create_multiple_collections() {
    let mut storage = StorageEngine::new().unwrap();
    storage.create_collection("users").unwrap();
    storage.create_collection("posts").unwrap();
    storage.create_collection("comments").unwrap();
    assert_eq!(storage.header.collection_count, 3);
    let names = storage.list_collections();
    assert!(names.contains(&"users".to_string()));
    assert!(names.contains(&"posts".to_string()));
    assert!(names.contains(&"comments".to_string()));
}

#[test]
fn test_drop_collection() {
    let mut storage = StorageEngine::new().unwrap();
    storage.create_collection("users").unwrap();
    storage.create_collection("posts").unwrap();
    storage.drop_collection("users").unwrap();
    assert_eq!(storage.header.collection_count, 1);
    assert!(storage.get_collection_meta("users").is_none());
    assert!(storage.get_collection_meta("posts").is_some());
}

#[test]
fn test_drop_nonexistent_collection() {
    let mut storage = StorageEngine::new().unwrap();
    let result = storage.drop_collection("nonexistent");
    assert!(matches!(result, Err(MongoLiteError::CollectionNotFound(_))));
}

#[test]
fn test_write_and_read_data() {
    let mut storage = StorageEngine::new().unwrap();
    let offset = storage.write_data(b"Hello, document store!").unwrap();
    let read = storage.read_data(offset).unwrap();
    assert_eq!(read, b"Hello, document store!".to_vec());
}

#[test]
fn test_write_multiple_data_blocks() {
    let mut storage = StorageEngine::new().unwrap();
    let o1 = storage.write_data(b"First block").unwrap();
    let o2 = storage.write_data(b"Second block").unwrap();
    let o3 = storage.write_data(b"Third block").unwrap();
    assert_eq!(storage.read_data(o1).unwrap(), b"First block".to_vec());
    assert_eq!(storage.read_data(o2).unwrap(), b"Second block".to_vec());
    assert_eq!(storage.read_data(o3).unwrap(), b"Third block".to_vec());
    assert_ne!(o1, o2);
    assert_ne!(o2, o3);
}

#[test]
fn test_empty_data_write() {
    let mut storage = StorageEngine::new().unwrap();
    let offset = storage.write_data(b"").unwrap();
    let read = storage.read_data(offset).unwrap();
    assert_eq!(read, Vec::<u8>::new());
}

#[test]
fn test_large_data_write() {
    let mut storage = StorageEngine::new().unwrap();
    let large = vec![0xAB_u8; 1024 * 1024];
    let offset = storage.write_data(&large).unwrap();
    let read = storage.read_data(offset).unwrap();
    assert_eq!(read.len(), large.len());
    assert_eq!(read, large);
}

#[test]
fn test_file_len() {
    let mut storage = StorageEngine::new().unwrap();
    let initial = storage.file_len();
    assert!(initial > 0);
    storage.write_data(b"Some test data").unwrap();
    assert!(storage.file_len() > initial);
}

#[test]
fn test_flush_metadata_convergence() {
    // the data region starts at the same fixed offset for every collection
    let mut storage = StorageEngine::new().unwrap();
    for name in ["alpha", "beta", "gamma", "delta", "epsilon"] {
        storage.create_collection(name).unwrap();
    }
    let first = storage.get_collection_meta("alpha").unwrap().data_offset;
    for name in ["beta", "gamma", "delta", "epsilon"] {
        assert_eq!(storage.get_collection_meta(name).unwrap().data_offset, first);
    }
    assert_eq!(first, mongolite_core::storage::DATA_START as u64);
}

#[test]
fn test_collection_metadata_persistence() {
    let mut storage = StorageEngine::new().unwrap();
    storage.create_collection("users").unwrap();
    storage.set_last_id("users", 100);
    storage.flush_metadata().unwrap();
    let file = storage.file.clone();
    let reopened = StorageEngine::open_from_bytes(file, Vec::new()).unwrap();
    let meta = reopened.get_collection_meta("users").unwrap();
    assert_eq!(meta.last_id, 100);
}

#[test]
fn test_data_persistence_after_reopen() {
    let mut storage = StorageEngine::new().unwrap();
    storage.create_collection("test").unwrap();
    let offset = storage.write_data(b"Persistent data").unwrap();
    storage.flush_metadata().unwrap();
    let file = storage.file.clone();
    let reopened = StorageEngine::open_from_bytes(file, Vec::new()).unwrap();
    assert_eq!(reopened.read_data(offset).unwrap(), b"Persistent data".to_vec());
}

#[test]
fn test_begin_transaction() {
    let mut db = DatabaseCore::open_from_bytes(Vec::new(), Vec::new()).unwrap();
    let tx1 = db.begin_transaction();
    assert_eq!(tx1, 1);
    let tx2 = db.begin_transaction();
    assert_eq!(tx2, 2);
}

#[test]
fn test_commit_empty_transaction() {
    let mut db = DatabaseCore::open_from_bytes(Vec::new(), Vec::new()).unwrap();
    let tx_id = db.begin_transaction();
    assert!(db.commit_transaction(tx_id).is_ok());
    // the transaction is no longer active
    assert!(db.commit_transaction(tx_id).is_err());
}

#[test]
fn test_rollback_transaction() {
    let mut db = DatabaseCore::open_from_bytes(Vec::new(), Vec::new()).unwrap();
    let ci = db.collection("users").unwrap();
    let tx_id = db.begin_transaction();
    db.add_operation(
        tx_id,
        mongolite_core::transaction::Operation::Insert {
            collection: "users".to_string(),
            doc_id: mongolite_core::value::DocumentId::Int(1),
            doc: obj(vec![("name", Value::String("Bob".to_string()))]),
        },
    )
    .unwrap();
    assert!(db.rollback_transaction(tx_id).is_ok());
    // nothing visible
    let found = db.collections[ci]
        .find(&db.storage, &obj(vec![]))
        .unwrap();
    assert_eq!(found.len(), 0);
}

#[test]
fn test_commit_nonexistent_transaction() {
    let mut db = DatabaseCore::open_from_bytes(Vec::new(), Vec::new()).unwrap();
    assert!(db.commit_transaction(999).is_err());
    assert!(db.commit_transaction_with_indexes(999).is_err());
}

#[test]
fn test_insert_and_find() {
    let mut db = DatabaseCore::open_from_bytes(Vec::new(), Vec::new()).unwrap();
    let ci = db.collection("users").unwrap();
    let id = db.collections[ci]
        .insert_one(
            &mut db.storage,
            fields(vec![
                ("name", Value::String("Alice".to_string())),
                ("age", Value::Int(30)),
            ]),
        )
        .unwrap();
    assert_eq!(id, mongolite_core::value::DocumentId::Int(1));
    let found = db.collections[ci]
        .find(
            &db.storage,
            &obj(vec![("name", Value::String("Alice".to_string()))]),
        )
        .unwrap();
    assert_eq!(found.len(), 1);
    assert!(found[0].get_field("age").unwrap() == &Value::Int(30));
}

#[test]
fn test_transaction_commit_and_reopen() {
    // a committed transaction's effects survive close and reopen
    let mut db = DatabaseCore::open_from_bytes(Vec::new(), Vec::new()).unwrap();
    let ci = db.collection("users").unwrap();
    let tx_id = db.begin_transaction();
    {
        let storage = &mut db.storage;
        let coll = &mut db.collections[ci];
        let mut tx = mongolite_core::transaction::Transaction::new(tx_id);
        coll.insert_one_tx(
            storage,
            fields(vec![("name", Value::String("Alice".to_string())), ("age", Value::Int(30))]),
            &mut tx,
        )
        .unwrap();
        storage.commit_transaction(&mut tx).unwrap();
    }
    db.flush().unwrap();
    let file = db.storage.file.clone();
    let wal = db.storage.wal.bytes().clone();
    let mut db2 = DatabaseCore::open_from_bytes(file, wal).unwrap();
    let ci2 = db2.collection("users").unwrap();
    let found = db2.collections[ci2]
        .find(
            &db2.storage,
            &obj(vec![("name", Value::String("Alice".to_string()))]),
        )
        .unwrap();
    assert_eq!(found.len(), 1);
}

#[test]
fn test_recovery_reapplies_committed_wal() {
    // crash after the log fsync but before the data fsync: on reopen the
    // log replays the insert
    let mut db = DatabaseCore::open_from_bytes(Vec::new(), Vec::new()).unwrap();
    let ci = db.collection("users").unwrap();
    db.flush().unwrap();
    let file_before = db.storage.file.clone();
    let tx_id = db.begin_transaction();
    {
        let storage = &mut db.storage;
        let coll = &mut db.collections[ci];
        let mut tx = mongolite_core::transaction::Transaction::new(tx_id);
        coll.insert_one_tx(
            storage,
            fields(vec![("name", Value::String("Recovered".to_string()))]),
            &mut tx,
        )
        .unwrap();
        storage.commit_transaction(&mut tx).unwrap();
    }
    let wal_after = db.storage.wal.bytes().clone();
    // reopen the pre-commit data image with the post-commit log
    let mut db2 = DatabaseCore::open_from_bytes(file_before, wal_after.clone()).unwrap();
    let ci2 = db2.collection("users").unwrap();
    let found = db2.collections[ci2]
        .find(
            &db2.storage,
            &obj(vec![("name", Value::String("Recovered".to_string()))]),
        )
        .unwrap();
    assert_eq!(found.len(), 1);
    // recovery truncated the log
    assert_eq!(db2.storage.wal.bytes().len(), 0);
    // replaying the same log again yields the same live documents
    db2.flush().unwrap();
    let mut db3 =
        DatabaseCore::open_from_bytes(db2.storage.file.clone(), wal_after).unwrap();
    let ci3 = db3.collection("users").unwrap();
    let found3 = db3.collections[ci3]
        .find(
            &db3.storage,
            &obj(vec![("name", Value::String("Recovered".to_string()))]),
        )
        .unwrap();
    assert_eq!(found3.len(), 1);
}

#[test]
fn test_two_phase_commit_unique_conflict() {
    // a duplicate under a unique index fails the prepare phase and the
    // transaction stays available for rollback
    let mut db = DatabaseCore::open_from_bytes(Vec::new(), Vec::new()).unwrap();
    let ci = db.collection("users").unwrap();
    db.collections[ci].create_index("email", true).unwrap();
    db.collections[ci]
        .insert_one(
            &mut db.storage,
            fields(vec![("email", Value::String("a@x".to_string()))]),
        )
        .unwrap();
    let tx_id = db.begin_transaction();
    db.add_operation(
        tx_id,
        mongolite_core::transaction::Operation::Insert {
            collection: "users".to_string(),
            doc_id: mongolite_core::value::DocumentId::Int(2),
            doc: obj(vec![("email", Value::String("a@x".to_string()))]),
        },
    )
    .unwrap();
    // queue the conflicting index change
    {
        let mut found = false;
        for pair in db.active_transactions.iter_mut() {
            if pair.0 == tx_id {
                pair.1
                    .add_index_change(
                        "users_email".to_string(),
                        mongolite_core::transaction::IndexChange {
                            operation: mongolite_core::transaction::IndexOperation::Insert,
                            key: mongolite_core::transaction::IndexKey::String(
                                "a@x".to_string(),
                            ),
                            doc_id: mongolite_core::value::DocumentId::Int(2),
                        },
                    )
                    .unwrap();
                found = true;
            }
        }
        assert!(found);
    }
    let result = db.commit_transaction_with_indexes(tx_id);
    assert!(matches!(result, Err(MongoLiteError::IndexError(_))));
    // still rollbackable
    assert!(db.rollback_transaction(tx_id).is_ok());
    // the conflicting record never became visible
    let found = db.collections[ci]
        .find(&db.storage, &obj(vec![]))
        .unwrap();
    assert_eq!(found.len(), 1);
}

#[test]
fn test_two_phase_commit_basic() {
    let mut db = DatabaseCore::open_from_bytes(Vec::new(), Vec::new()).unwrap();
    let ci = db.collection("users").unwrap();
    db.collections[ci].create_index("age", false).unwrap();
    let tx_id = db.begin_transaction();
    db.add_operation(
        tx_id,
        mongolite_core::transaction::Operation::Insert {
            collection: "users".to_string(),
            doc_id: mongolite_core::value::DocumentId::Int(1),
            doc: obj(vec![
                ("_id", Value::Int(1)),
                ("_collection", Value::String("users".to_string())),
                ("age", Value::Int(30)),
            ]),
        },
    )
    .unwrap();
    for pair in db.active_transactions.iter_mut() {
        if pair.0 == tx_id {
            pair.1
                .add_index_change(
                    "users_age".to_string(),
                    mongolite_core::transaction::IndexChange {
                        operation: mongolite_core::transaction::IndexOperation::Insert,
                        key: mongolite_core::transaction::IndexKey::Int(30),
                        doc_id: mongolite_core::value::DocumentId::Int(1),
                    },
                )
                .unwrap();
        }
    }
    assert!(db.commit_transaction_with_indexes(tx_id).is_ok());
    // the snapshot of the index file carries the new entry
    assert_eq!(db.index_files.len(), 1);
    assert_eq!(db.index_files[0].index_name, "users_age");
    assert_eq!(db.index_files[0].entries.len(), 1);
}

#[test]
fn test_update_one_and_compact() {
    let mut db = DatabaseCore::open_from_bytes(Vec::new(), Vec::new()).unwrap();
    let ci = db.collection("items").unwrap();
    db.collections[ci]
        .insert_one(&mut db.storage, fields(vec![("v", Value::Int(100))]))
        .unwrap();
    for i in 2..=6 {
        let (matched, modified) = db.collections[ci]
            .update_one(
                &mut db.storage,
                &obj(vec![("v", obj(vec![("$gte", Value::Int(0))]))]),
                &obj(vec![("$set", obj(vec![("v", Value::Int(i * 100))]))]),
            )
            .unwrap();
        assert_eq!(matched, 1);
        assert_eq!(modified, 1);
    }
    let size_before = db.storage.file_len();
    let stats = db.compact().unwrap();
    assert_eq!(stats.documents_kept, 1);
    assert!(stats.tombstones_removed >= 1);
    assert!(stats.size_after < size_before);
    let found = db.collections[ci]
        .find(&db.storage, &obj(vec![]))
        .unwrap();
    assert_eq!(found.len(), 1);
    assert!(found[0].get_field("v").unwrap() == &Value::Int(600));
}

#[test]
fn test_compact_empty_collection() {
    let mut db = DatabaseCore::open_from_bytes(Vec::new(), Vec::new()).unwrap();
    db.collection("empty").unwrap();
    let stats = db.compact().unwrap();
    assert_eq!(stats.documents_kept, 0);
    assert_eq!(stats.tombstones_removed, 0);
}

#[test]
fn test_delete_one_hides_document() {
    let mut db = DatabaseCore::open_from_bytes(Vec::new(), Vec::new()).unwrap();
    let ci = db.collection("users").unwrap();
    db.collections[ci]
        .insert_one(
            &mut db.storage,
            fields(vec![("name", Value::String("Gone".to_string()))]),
        )
        .unwrap();
    let deleted = db.collections[ci]
        .delete_one(
            &mut db.storage,
            &obj(vec![("name", Value::String("Gone".to_string()))]),
        )
        .unwrap();
    assert_eq!(deleted, 1);
    let found = db.collections[ci]
        .find(&db.storage, &obj(vec![]))
        .unwrap();
    assert_eq!(found.len(), 0);
}

#[test]
fn test_range_scan_via_index_plan() {
    let mut db = DatabaseCore::open_from_bytes(Vec::new(), Vec::new()).unwrap();
    let ci = db.collection("people").unwrap();
    db.collections[ci].create_index("age", false).unwrap();
    for i in 0..100 {
        db.collections[ci]
            .insert_one(&mut db.storage, fields(vec![("age", Value::Int(i))]))
            .unwrap();
    }
    let query = obj(vec![(
        "age",
        obj(vec![("$gte", Value::Int(10)), ("$lt", Value::Int(20))]),
    )]);
    let explained = db.collections[ci].explain(&query);
    match explained.get_field("queryPlan") {
        Some(Value::String(s)) => assert_eq!(s, "IndexRangeScan"),
        _ => panic!("missing queryPlan"),
    }
    let found = db.collections[ci].find(&db.storage, &query).unwrap();
    assert_eq!(found.len(), 10);
    for d in &found {
        match d.get_field("age") {
            Some(Value::Int(a)) => assert!((10..20).contains(a)),
            _ => panic!("missing age"),
        }
    }
}

#[test]
fn test_update_counts_and_appended_records() {
    let mut db = DatabaseCore::open_from_bytes(Vec::new(), Vec::new()).unwrap();
    let ci = db.collection("people").unwrap();
    let tx = db.begin_transaction();
    let doc = obj(vec![
        ("_id", Value::Int(1)),
        ("_collection", Value::String("people".to_string())),
        ("age", Value::Int(30)),
    ]);
    db.add_operation(
        tx,
        mongolite_core::transaction::Operation::Insert {
            collection: "people".to_string(),
            doc_id: mongolite_core::value::DocumentId::Int(1),
            doc,
        },
    )
    .unwrap();
    db.commit_transaction(tx).unwrap();
    let before = db.storage.file_len();
    let update = obj(vec![("$set", obj(vec![("age", Value::Int(31))]))]);
    let query = obj(vec![("age", Value::Int(30))]);
    let mut coll = db.collections.remove(ci);
    let (matched, modified) = coll.update_one(&mut db.storage, &query, &update).unwrap();
    assert_eq!((matched, modified), (1, 1));
    assert!(db.storage.file_len() > before);
    let (m2, mod2) = coll
        .update_one(&mut db.storage, &obj(vec![("age", Value::Int(99))]), &update)
        .unwrap();
    assert_eq!((m2, mod2), (0, 0));
}

#[test]
fn test_delete_counts() {
    let mut db = DatabaseCore::open_from_bytes(Vec::new(), Vec::new()).unwrap();
    let ci = db.collection("people").unwrap();
    for i in 0..3i64 {
        let tx = db.begin_transaction();
        let doc = obj(vec![
            ("_id", Value::Int(i)),
            ("_collection", Value::String("people".to_string())),
            ("kind", Value::String("x".to_string())),
        ]);
        db.add_operation(
            tx,
            mongolite_core::transaction::Operation::Insert {
                collection: "people".to_string(),
                doc_id: mongolite_core::value::DocumentId::Int(i),
                doc,
            },
        )
        .unwrap();
        db.commit_transaction(tx).unwrap();
    }
    let mut coll = db.collections.remove(ci);
    let query = obj(vec![("kind", Value::String("x".to_string()))]);
    let deleted = coll.delete_many(&mut db.storage, &query).unwrap();
    assert_eq!(deleted, 3);
    let again = coll.delete_many(&mut db.storage, &query).unwrap();
    assert_eq!(again, 0);
}

#[test]
fn test_create_collection_duplicate_and_drop_missing() {
    let mut db = DatabaseCore::open_from_bytes(Vec::new(), Vec::new()).unwrap();
    db.storage.create_collection("dup").unwrap();
    match db.storage.create_collection("dup") {
        Err(MongoLiteError::CollectionExists(_)) => {}
        other => panic!("expected CollectionExists, got {:?}", other),
    }
    match db.storage.drop_collection("missing") {
        Err(MongoLiteError::CollectionNotFound(_)) => {}
        other => panic!("expected CollectionNotFound, got {:?}", other),
    }
}

#[test]
fn test_find_one_and_count_exact() {
    let mut db = DatabaseCore::open_from_bytes(Vec::new(), Vec::new()).unwrap();
    let ci = db.collection("people").unwrap();
    for i in 0..4i64 {
        let tx = db.begin_transaction();
        let doc = obj(vec![
            ("_id", Value::Int(i)),
            ("_collection", Value::String("people".to_string())),
            ("age", Value::Int(if i < 2 { 30 } else { 40 })),
        ]);
        db.add_operation(
            tx,
            mongolite_core::transaction::Operation::Insert {
                collection: "people".to_string(),
                doc_id: mongolite_core::value::DocumentId::Int(i),
                doc,
            },
        )
        .unwrap();
        db.commit_transaction(tx).unwrap();
    }
    let coll = &db.collections[ci];
    let q30 = obj(vec![("age", Value::Int(30))]);
    assert_eq!(coll.count_documents(&db.storage, &q30).unwrap(), 2);
    let first = coll.find_one(&db.storage, &q30).unwrap().unwrap();
    assert_eq!(first.get_field("_id"), Some(&Value::Int(0)));
    let none = coll
        .find_one(&db.storage, &obj(vec![("age", Value::Int(99))]))
        .unwrap();
    assert!(none.is_none());
    let distinct = coll.distinct(&db.storage, "age", &obj(vec![])).unwrap();
    assert_eq!(distinct, vec![Value::Int(30), Value::Int(40)]);
}
