//! The database coordinator: opens and recovers the store, keeps the
//! collection registry and the active transactions, and drives the
//! two-phase commit that moves index snapshots together with the data.
//!
//! Index snapshots live here as in-memory images keyed by index name; the
//! embedding mirrors a prepared snapshot to `<base>.idx.tmp`, and the
//! finalize step to the atomic rename onto `<base>.idx`.

use vstd::prelude::*;

use crate::collection::CollectionCore;
use crate::error::MongoLiteError;
use crate::storage::StorageEngine;
use crate::transaction::Transaction;
use crate::value::{DocumentIdV, Value, ValueV};

verus! {

broadcast use vstd::std_specs::vec::group_vec_axioms;

/// Turn a buffered index-change key into a tree key.
pub fn convert_index_key(tx_key: &crate::transaction::IndexKey) -> (r: crate::key::IndexKey)
    ensures
        r@ == tx_key@,
{
    match tx_key {
        crate::transaction::IndexKey::Int(i) => crate::key::IndexKey::Int(*i),
        crate::transaction::IndexKey::String(s) => crate::key::IndexKey::String(s.clone()),
        crate::transaction::IndexKey::Float(bits) => crate::key::IndexKey::Float(*bits),
        crate::transaction::IndexKey::Bool(b) => crate::key::IndexKey::Bool(*b),
        crate::transaction::IndexKey::Null => crate::key::IndexKey::Null,
    }
}

/// Some registry entry carries the id.
pub open spec fn has_tx(txs: Seq<(u64, Transaction)>, id: u64) -> bool {
    exists|i: int| 0 <= i < txs.len() && (#[trigger] txs[i]).0 == id
}

/// The value form of one snapshot entry: the tagged key, then the id.
pub open spec fn snapshot_entry_value(k: crate::key::IndexKeyV, id: DocumentIdV) -> ValueV {
    ValueV::Array(
        seq![crate::storage::key_value(k), crate::storage::id_field_value(id)],
    )
}

/// The byte format of a saved index snapshot: each entry's canonical
/// encoding behind a 32-bit little-endian length.
pub open spec fn snapshot_bytes(es: Seq<(crate::key::IndexKeyV, DocumentIdV)>) -> Seq<u8>
    decreases es.len(),
{
    if es.len() == 0 {
        Seq::empty()
    } else {
        snapshot_bytes(es.drop_last()) + vstd::bytes::spec_u32_to_le_bytes(
            crate::value::spec_enc(
                snapshot_entry_value(es.last().0, es.last().1),
            ).len() as u32,
        ) + crate::value::spec_enc(snapshot_entry_value(es.last().0, es.last().1))
    }
}

/// A tagged key as a record value.
fn key_to_entry_value(k: &crate::key::IndexKey) -> (r: Value)
    ensures
        r@ == crate::storage::key_value(k@),
{
    let items: Vec<Value> = match k {
        crate::key::IndexKey::Null => vec![Value::Int(0)],
        crate::key::IndexKey::Bool(b) => vec![Value::Int(1), Value::Bool(*b)],
        crate::key::IndexKey::Int(i) => vec![Value::Int(2), Value::Int(*i)],
        crate::key::IndexKey::Float(bits) => vec![Value::Int(3), Value::Float(*bits)],
        crate::key::IndexKey::String(st) => vec![Value::Int(4), Value::String(st.clone())],
    };
    proof {
        broadcast use crate::value::group_value_views;

        assert(crate::value::values_view(items@, items@.len() as int)
            =~= crate::storage::key_value(k@)->Array_0);
    }
    Value::Array(items)
}

/// One snapshot entry, canonically encoded (no length frame).
fn encode_snapshot_entry(
    key: &crate::key::IndexKey,
    id: &crate::value::DocumentId,
) -> (r: Vec<u8>)
    ensures
        r@ == crate::value::spec_enc(snapshot_entry_value(key@, id@)),
{
    let kv = key_to_entry_value(key);
    let idv = match id {
        crate::value::DocumentId::Int(i) => Value::Int(*i),
        crate::value::DocumentId::String(st) => Value::String(st.clone()),
        crate::value::DocumentId::ObjectId(st) => Value::String(st.clone()),
    };
    let items: Vec<Value> = vec![kv, idv];
    proof {
        broadcast use crate::value::group_value_views;

        assert(crate::value::values_view(items@, items@.len() as int)
            =~= snapshot_entry_value(key@, id@)->Array_0);
    }
    crate::value::encode_value(&Value::Array(items))
}

/// Serialize a snapshot's entries into the index-file byte format; an
/// entry too large for its length frame is refused.
pub fn encode_index_snapshot(
    entries: &Vec<(crate::key::IndexKey, crate::value::DocumentId)>,
) -> (r: Result<Vec<u8>, MongoLiteError>)
    ensures
        r matches Ok(bytes) ==> bytes@ == snapshot_bytes(crate::btree::pair_views(entries@)),
        r matches Err(e) ==> e is Serialization,
{
    let ghost es = crate::btree::pair_views(entries@);
    let mut out: Vec<u8> = Vec::new();
    let mut i: usize = 0;
    proof {
        vstd::bytes::lemma_auto_spec_u32_to_from_le_bytes();
        assert(es.subrange(0, 0) =~= Seq::<(crate::key::IndexKeyV, DocumentIdV)>::empty());
    }
    while i < entries.len()
        invariant
            i <= entries@.len(),
            es == crate::btree::pair_views(entries@),
            es.len() == entries@.len(),
            out@ == snapshot_bytes(es.subrange(0, i as int)),
        decreases entries@.len() - i,
    {
        let enc = encode_snapshot_entry(&entries[i].0, &entries[i].1);
        if enc.len() > u32::MAX as usize {
            return Err(MongoLiteError::Serialization(String::new()));
        }
        let mut frame = vstd::bytes::u32_to_le_bytes(enc.len() as u32);
        let ghost preout = out@;
        out.append(&mut frame);
        let mut encm = enc;
        let ghost encv = encm@;
        out.append(&mut encm);
        proof {
            vstd::bytes::lemma_auto_spec_u32_to_from_le_bytes();
            let pre = es.subrange(0, i as int);
            let cur = es.subrange(0, i + 1);
            assert(cur.drop_last() =~= pre);
            assert(cur.last() == (entries@[i as int].0@, entries@[i as int].1@));
            assert(out@ =~= snapshot_bytes(cur));
        }
        i = i + 1;
    }
    proof {
        assert(es.subrange(0, es.len() as int) =~= es);
    }
    Ok(out)
}

/// Every entry's canonical encoding fits its 32-bit length frame.
pub open spec fn snapshot_entries_fit(es: Seq<(crate::key::IndexKeyV, DocumentIdV)>) -> bool {
    forall|k: int| 0 <= k < es.len() ==> crate::value::spec_enc(
        #[trigger] snapshot_entry_value(es[k].0, es[k].1),
    ).len() <= u32::MAX
}

/// The snapshot bytes decompose at the front: the first entry's frame,
/// then the rest.
proof fn lemma_snapshot_head(es: Seq<(crate::key::IndexKeyV, DocumentIdV)>)
    requires
        es.len() > 0,
        snapshot_entries_fit(es),
    ensures
        snapshot_bytes(es) == vstd::bytes::spec_u32_to_le_bytes(
            crate::value::spec_enc(snapshot_entry_value(es[0].0, es[0].1)).len() as u32,
        ) + crate::value::spec_enc(snapshot_entry_value(es[0].0, es[0].1)) + snapshot_bytes(
            es.drop_first(),
        ),
        snapshot_entries_fit(es.drop_first()),
    decreases es.len(),
{
    let tail = es.drop_first();
    assert(forall|k: int| 0 <= k < tail.len() ==> #[trigger] tail[k] == es[k + 1]);
    if es.len() == 1 {
        assert(es.drop_last() =~= Seq::<(crate::key::IndexKeyV, DocumentIdV)>::empty());
        assert(tail =~= Seq::<(crate::key::IndexKeyV, DocumentIdV)>::empty());
        assert(snapshot_bytes(es) =~= vstd::bytes::spec_u32_to_le_bytes(
            crate::value::spec_enc(snapshot_entry_value(es[0].0, es[0].1)).len() as u32,
        ) + crate::value::spec_enc(snapshot_entry_value(es[0].0, es[0].1)) + snapshot_bytes(
            tail,
        ));
    } else {
        let pre = es.drop_last();
        assert(snapshot_entries_fit(pre));
        lemma_snapshot_head(pre);
        assert(pre.drop_first() =~= tail.drop_last());
        assert(pre[0] == es[0]);
        assert(tail.last() == es.last());
        assert(snapshot_bytes(es) =~= vstd::bytes::spec_u32_to_le_bytes(
            crate::value::spec_enc(snapshot_entry_value(es[0].0, es[0].1)).len() as u32,
        ) + crate::value::spec_enc(snapshot_entry_value(es[0].0, es[0].1)) + snapshot_bytes(
            tail,
        ));
    }
}

/// Load a snapshot from the index-file byte format. A loaded snapshot
/// re-serializes to exactly the bytes it was read from, so what `save`
/// wrote, `load` sees; anything else is a corruption.
#[verifier::rlimit(100)]
pub fn decode_index_snapshot(bytes: &Vec<u8>) -> (r: Result<
    Vec<(crate::key::IndexKey, crate::value::DocumentId)>,
    MongoLiteError,
>)
    ensures
        r matches Ok(es) ==> snapshot_bytes(crate::btree::pair_views(es@)) == bytes@,
        r matches Err(e) ==> e is Corruption,
        (exists|es: Seq<(crate::key::IndexKeyV, DocumentIdV)>|
            bytes@ == #[trigger] snapshot_bytes(es) && snapshot_entries_fit(es)) ==> r is Ok,
{
    let ghost valid = exists|es: Seq<(crate::key::IndexKeyV, DocumentIdV)>|
        bytes@ == #[trigger] snapshot_bytes(es) && snapshot_entries_fit(es);
    let mut out: Vec<(crate::key::IndexKey, crate::value::DocumentId)> = Vec::new();
    let mut pos: usize = 0;
    proof {
        vstd::bytes::lemma_auto_spec_u32_to_from_le_bytes();
        assert(bytes@.subrange(0, 0) =~= Seq::<u8>::empty());
        if valid {
            let es0 = choose|es: Seq<(crate::key::IndexKeyV, DocumentIdV)>|
                bytes@ == #[trigger] snapshot_bytes(es) && snapshot_entries_fit(es);
            assert(bytes@.subrange(0, bytes@.len() as int) =~= bytes@);
        }
    }
    while pos < bytes.len()
        invariant
            pos <= bytes@.len(),
            snapshot_bytes(crate::btree::pair_views(out@)) == bytes@.subrange(0, pos as int),
            valid == exists|es: Seq<(crate::key::IndexKeyV, DocumentIdV)>|
                bytes@ == #[trigger] snapshot_bytes(es) && snapshot_entries_fit(es),
            valid ==> exists|es: Seq<(crate::key::IndexKeyV, DocumentIdV)>|
                bytes@.subrange(pos as int, bytes@.len() as int) == #[trigger] snapshot_bytes(es)
                    && snapshot_entries_fit(es),
        decreases bytes@.len() - pos,
    {
        proof {
            vstd::bytes::lemma_auto_spec_u32_to_from_le_bytes();
            if valid {
                let es1 = choose|es: Seq<(crate::key::IndexKeyV, DocumentIdV)>|
                    bytes@.subrange(pos as int, bytes@.len() as int) == #[trigger] snapshot_bytes(
                        es,
                    ) && snapshot_entries_fit(es);
                if es1.len() == 0 {
                    assert(snapshot_bytes(es1) =~= Seq::<u8>::empty());
                } else {
                    lemma_snapshot_head(es1);
                    let e0v = crate::value::spec_enc(snapshot_entry_value(es1[0].0, es1[0].1));
                    let suf = bytes@.subrange(pos as int, bytes@.len() as int);
                    assert(suf.len() == 4 + e0v.len() + snapshot_bytes(es1.drop_first()).len());
                    bytes@.lemma_slice_of_slice(pos as int, bytes@.len() as int, 0, 4);
                    bytes@.lemma_slice_of_slice(
                        pos as int,
                        bytes@.len() as int,
                        4,
                        4 + e0v.len() as int,
                    );
                    bytes@.lemma_slice_of_slice(
                        pos as int,
                        bytes@.len() as int,
                        4 + e0v.len() as int,
                        suf.len() as int,
                    );
                    assert(suf.subrange(0, 4) =~= vstd::bytes::spec_u32_to_le_bytes(
                        e0v.len() as u32,
                    ));
                    assert(suf.subrange(4, 4 + e0v.len() as int) =~= e0v);
                    assert(suf.subrange(4 + e0v.len() as int, suf.len() as int)
                        =~= snapshot_bytes(es1.drop_first()));
                    assert(bytes@.subrange(pos as int, pos + 4)
                        == vstd::bytes::spec_u32_to_le_bytes(e0v.len() as u32));
                    assert(bytes@.subrange(pos + 4, pos + 4 + e0v.len() as int) == e0v);
                    assert(bytes@.subrange(
                        pos + 4 + e0v.len() as int,
                        bytes@.len() as int,
                    ) == snapshot_bytes(es1.drop_first()));
                }
            }
        }
        if bytes.len() - pos < 4 {
            return Err(MongoLiteError::Corruption(String::new()));
        }
        let n32 = vstd::bytes::u32_from_le_bytes(
            vstd::slice::slice_subrange(bytes.as_slice(), pos, pos + 4),
        );
        let rest: usize = bytes.len() - (pos + 4);
        proof {
            if valid {
                vstd::bytes::lemma_auto_spec_u32_to_from_le_bytes();
                let es1 = choose|es: Seq<(crate::key::IndexKeyV, DocumentIdV)>|
                    bytes@.subrange(pos as int, bytes@.len() as int) == #[trigger] snapshot_bytes(
                        es,
                    ) && snapshot_entries_fit(es);
                let e0v = crate::value::spec_enc(snapshot_entry_value(es1[0].0, es1[0].1));
                assert(crate::value::spec_enc(
                    snapshot_entry_value(es1[0].0, es1[0].1),
                ).len() <= u32::MAX);
                assert(n32 == e0v.len() as u32);
                assert(e0v.len() <= rest as int);
            }
        }
        if (n32 as u64) > (rest as u64) {
            return Err(MongoLiteError::Corruption(String::new()));
        }
        let n = n32 as usize;
        let enc = vstd::slice::slice_to_vec(
            vstd::slice::slice_subrange(bytes.as_slice(), pos + 4, pos + 4 + n),
        );
        proof {
            if valid {
                let es1 = choose|es: Seq<(crate::key::IndexKeyV, DocumentIdV)>|
                    bytes@.subrange(pos as int, bytes@.len() as int) == #[trigger] snapshot_bytes(
                        es,
                    ) && snapshot_entries_fit(es);
                let e0v = crate::value::spec_enc(snapshot_entry_value(es1[0].0, es1[0].1));
                assert(crate::value::spec_enc(
                    snapshot_entry_value(es1[0].0, es1[0].1),
                ).len() <= u32::MAX);
                vstd::bytes::lemma_auto_spec_u32_to_from_le_bytes();
                assert(bytes@.subrange(pos as int, pos + 4) == vstd::bytes::spec_u32_to_le_bytes(
                    e0v.len() as u32,
                ));
                assert(n32 == e0v.len() as u32);
                assert(n == e0v.len());
                assert(enc@ =~= e0v);
                assert(enc@.subrange(0, e0v.len() as int) =~= e0v);
                crate::value::lemma_dec_complete(
                    snapshot_entry_value(es1[0].0, es1[0].1),
                    enc@,
                    0,
                );
            }
        }
        let v = match crate::value::decode_value(&enc) {
            Ok(v) => v,
            Err(_) => {
                return Err(MongoLiteError::Corruption(String::new()));
            }
        };
        proof {
            if valid {
                let es1 = choose|es: Seq<(crate::key::IndexKeyV, DocumentIdV)>|
                    bytes@.subrange(pos as int, bytes@.len() as int) == #[trigger] snapshot_bytes(
                        es,
                    ) && snapshot_entries_fit(es);
                assert(v@ == snapshot_entry_value(es1[0].0, es1[0].1));
                assert(crate::storage::parse_key(
                    crate::storage::key_value(es1[0].0),
                ) == Some(es1[0].0)) by {
                    match es1[0].0 {
                        crate::key::IndexKeyV::Null => {}
                        crate::key::IndexKeyV::Bool(_) => {}
                        crate::key::IndexKeyV::Int(_) => {}
                        crate::key::IndexKeyV::Float(_) => {}
                        crate::key::IndexKeyV::String(_) => {}
                    }
                }
            }
        }
        let items = match &v {
            Value::Array(items) => items,
            _ => {
                return Err(MongoLiteError::Corruption(String::new()));
            }
        };
        proof {
            broadcast use crate::value::group_value_views;

            if valid {
                let es1 = choose|es: Seq<(crate::key::IndexKeyV, DocumentIdV)>|
                    bytes@.subrange(pos as int, bytes@.len() as int) == #[trigger] snapshot_bytes(
                        es,
                    ) && snapshot_entries_fit(es);
                let itemsv = crate::value::values_view(items@, items@.len() as int);
                assert(v@ == ValueV::Array(itemsv));
                assert(itemsv == snapshot_entry_value(es1[0].0, es1[0].1)->Array_0);
                assert(itemsv.len() == 2);
                assert(itemsv.len() == items@.len());
                assert(items@[0]@ == crate::storage::key_value(es1[0].0));
                assert(items@[1]@ == crate::storage::id_field_value(es1[0].1));
                assert(crate::storage::parse_key(items@[0]@) == Some(es1[0].0));
                match es1[0].1 {
                    DocumentIdV::Int(_) => {
                        assert(items@[1]@ is Int);
                    }
                    DocumentIdV::String(_) => {
                        assert(items@[1]@ is String);
                    }
                    DocumentIdV::ObjectId(_) => {
                        assert(items@[1]@ is String);
                    }
                }
            }
        }
        if items.len() != 2 {
            return Err(MongoLiteError::Corruption(String::new()));
        }
        let tk = match crate::storage::value_to_key(&items[0]) {
            Some(tk) => tk,
            None => {
                return Err(MongoLiteError::Corruption(String::new()));
            }
        };
        let key = convert_index_key(&tk);
        let id = match &items[1] {
            Value::Int(i) => crate::value::DocumentId::Int(*i),
            Value::String(st) => crate::value::DocumentId::String(st.clone()),
            _ => {
                return Err(MongoLiteError::Corruption(String::new()));
            }
        };
        proof {
            if valid {
                let es1 = choose|es: Seq<(crate::key::IndexKeyV, DocumentIdV)>|
                    bytes@.subrange(pos as int, bytes@.len() as int) == #[trigger] snapshot_bytes(
                        es,
                    ) && snapshot_entries_fit(es);
                assert(key@ == es1[0].0);
                assert(crate::storage::id_field_value(id@) == crate::storage::id_field_value(
                    es1[0].1,
                ));
                assert(snapshot_entry_value(key@, id@)->Array_0 =~= snapshot_entry_value(
                    es1[0].0,
                    es1[0].1,
                )->Array_0);
                assert(snapshot_entry_value(key@, id@) == snapshot_entry_value(
                    es1[0].0,
                    es1[0].1,
                ));
            }
        }
        // the loaded entry must re-encode to exactly the framed bytes: the
        // snapshot format is canonical
        let canon = encode_snapshot_entry(&key, &id);
        if !crate::value::bytes_eq(canon.as_slice(), enc.as_slice()) {
            return Err(MongoLiteError::Corruption(String::new()));
        }
        let ghost preout = out@;
        out.push((key, id));
        proof {
            vstd::bytes::lemma_auto_spec_u32_to_from_le_bytes();
            let pre = crate::btree::pair_views(preout);
            let cur = crate::btree::pair_views(out@);
            assert(cur.drop_last() =~= pre);
            assert(cur.last() == (key@, id@));
            assert(enc@ == crate::value::spec_enc(snapshot_entry_value(key@, id@)));
            assert(bytes@.subrange(pos as int, pos + 4) == vstd::bytes::spec_u32_to_le_bytes(
                n as u32,
            ));
            assert(bytes@.subrange(pos + 4, pos + 4 + n as int) == enc@);
            assert(bytes@.subrange(0, pos + 4 + n as int) =~= bytes@.subrange(0, pos as int)
                + bytes@.subrange(pos as int, pos + 4) + bytes@.subrange(
                pos + 4,
                pos + 4 + n as int,
            ));
            assert(snapshot_bytes(cur) =~= bytes@.subrange(0, pos + 4 + n as int));
            if valid {
                let es1 = choose|es: Seq<(crate::key::IndexKeyV, DocumentIdV)>|
                    bytes@.subrange(pos as int, bytes@.len() as int) == #[trigger] snapshot_bytes(
                        es,
                    ) && snapshot_entries_fit(es);
                assert(bytes@.subrange(pos + 4 + n as int, bytes@.len() as int)
                    == snapshot_bytes(es1.drop_first()));
            }
        }
        pos = pos + 4 + n;
    }
    proof {
        assert(bytes@.subrange(0, bytes@.len() as int) =~= bytes@);
    }
    Ok(out)
}

/// One index snapshot: the entries of a tree at prepare time.
pub struct IndexSnapshot {
    pub index_name: String,
    pub entries: Vec<(crate::key::IndexKey, crate::value::DocumentId)>,
}

/// The database: the storage engine, the collection registry, the active
/// transactions, and the committed index snapshots.
pub struct DatabaseCore {
    pub storage: StorageEngine,
    pub next_tx_id: u64,
    pub active_transactions: Vec<(u64, Transaction)>,
    pub collections: Vec<CollectionCore>,
    /// The durable index files, by index name: what a crash would find.
    pub index_files: Vec<IndexSnapshot>,
}

impl DatabaseCore {
    /// Every collection's indexes are well formed.
    pub open spec fn wf(&self) -> bool {
        &&& self.storage.wf()
        &&& crate::wal::wal_clean(self.storage.wal@)
        &&& forall|i: int| 0 <= i < self.collections@.len()
            ==> (#[trigger] self.collections@[i]).indexes.wf()
    }

    /// Open the store over images of the data and log files: load the
    /// metadata, replay the committed tail of the log onto the data file,
    /// rebuild the in-memory indexes from the recovered index changes, and
    /// truncate the log.
    pub fn open_from_bytes(file: Vec<u8>, wal_bytes: Vec<u8>) -> (r: Result<
        DatabaseCore,
        MongoLiteError,
    >)
        ensures
            file@.len() >= 8 && file@.subrange(0, 8) != crate::storage::spec_magic() ==> r is Err,
            r matches Ok(db) ==> {
                &&& db.wf()
                &&& db.storage.wal@ == Seq::<u8>::empty()
                &&& db.active_transactions@.len() == 0
                &&& db.next_tx_id == 1
                &&& (crate::wal::spec_scan(wal_bytes@, 0) matches Some(sr) && db.storage.recs()
                    == (if file@.len() == 0 {
                    Seq::<Seq<u8>>::empty()
                } else {
                    crate::storage::spec_records(file@)
                }) + crate::storage::replay_full(
                    crate::storage::flat_upto(
                        crate::wal::committed_groups(sr.0),
                        crate::wal::committed_groups(sr.0).len() as int,
                    ),
                ))
            },
    {
        let mut storage = match StorageEngine::open_from_bytes(file, wal_bytes) {
            Ok(e) => e,
            Err(e) => {
                return Err(e);
            }
        };
        let (_committed, changes) = match storage.recover_from_wal() {
            Ok(p) => p,
            Err(e) => {
                return Err(e);
            }
        };
        let mut db = DatabaseCore {
            storage,
            next_tx_id: 1,
            active_transactions: Vec::new(),
            collections: Vec::new(),
            index_files: Vec::new(),
        };
        // replay the recovered index changes onto the in-memory trees
        let ghost recs_after = db.storage.recs();
        let mut changes = changes;
        while changes.len() > 0
            invariant
                db.wf(),
                db.storage.wal@ == Seq::<u8>::empty(),
                db.storage.recs() == recs_after,
                db.active_transactions@.len() == 0,
                db.next_tx_id == 1,
            decreases changes@.len(),
        {
            let ch = changes.remove(0);
            let ci = match db.collection_position(ch.collection.as_str()) {
                Ok(ci) => ci,
                Err(e) => {
                    return Err(e);
                }
            };
            let key = convert_index_key(&ch.key);
            let ghost pre_remove = db.collections@;
            let mut coll = db.collections.remove(ci);
            proof {
                lemma_registry_wf_remove(pre_remove, db.collections@, ci as int);
            }
            match ch.operation {
                crate::transaction::IndexOperation::Insert => {
                    match coll.indexes.btree_insert(ch.index_name.as_str(), key, ch.doc_id) {
                        Ok(()) => {}
                        Err(e) => {
                            db.collections.insert(ci, coll);
                            return Err(e);
                        }
                    }
                }
                crate::transaction::IndexOperation::Delete => {
                    coll.indexes.btree_delete(ch.index_name.as_str(), &key, &ch.doc_id);
                }
            }
            let ghost pre_ins = db.collections@;
            let ghost cv = coll;
            db.collections.insert(ci, coll);
            proof {
                lemma_registry_wf_insert(pre_ins, db.collections@, cv, ci as int);
            }
        }
        Ok(db)
    }

    /// Position of the named collection in the registry, opening it if
    /// missing.
    fn collection_position(&mut self, name: &str) -> (r: Result<usize, MongoLiteError>)
        requires
            old(self).wf(),
        ensures
            final(self).wf(),
            final(self).storage.wal == old(self).storage.wal,
            final(self).storage.recs() == old(self).storage.recs(),
            final(self).next_tx_id == old(self).next_tx_id,
            final(self).active_transactions == old(self).active_transactions,
            final(self).index_files == old(self).index_files,
            r matches Ok(i) ==> i < final(self).collections@.len() && final(self).collections@[i as int].name@ == name@,
    {
        let mut i: usize = 0;
        while i < self.collections.len()
            invariant
                self.wf(),
                *self == *old(self),
                i <= self.collections@.len(),
            decreases self.collections@.len() - i,
        {
            if crate::value::str_eq(self.collections[i].name.as_str(), name) {
                return Ok(i);
            }
            i = i + 1;
        }
        let coll = match CollectionCore::new(name, &mut self.storage) {
            Ok(c) => c,
            Err(e) => {
                return Err(e);
            }
        };
        self.collections.push(coll);
        Ok(self.collections.len() - 1)
    }

    /// Open a collection handle position for callers: the returned
    /// position names the collection, and an unknown name is registered on
    /// the way. The engine's records, the log, and the transactions are
    /// untouched.
    pub fn collection(&mut self, name: &str) -> (r: Result<usize, MongoLiteError>)
        requires
            old(self).wf(),
        ensures
            final(self).wf(),
            final(self).storage.wal == old(self).storage.wal,
            final(self).storage.recs() == old(self).storage.recs(),
            final(self).next_tx_id == old(self).next_tx_id,
            final(self).active_transactions == old(self).active_transactions,
            final(self).index_files == old(self).index_files,
            r matches Ok(i) ==> i < final(self).collections@.len() && final(self).collections@[i as int].name@ == name@,
    {
        self.collection_position(name)
    }

    /// The collection names the store knows.
    pub fn list_collections(&self) -> (r: Vec<String>) {
        self.storage.list_collections()
    }

    /// Drop a collection's metadata and its registry entry; its records
    /// wait for compaction. An unknown name is refused with
    /// `CollectionNotFound`.
    pub fn drop_collection(&mut self, name: &str) -> (r: Result<(), MongoLiteError>)
        requires
            old(self).wf(),
        ensures
            final(self).wf(),
            final(self).next_tx_id == old(self).next_tx_id,
            final(self).active_transactions == old(self).active_transactions,
            final(self).index_files == old(self).index_files,
            final(self).storage.recs() == old(self).storage.recs(),
            final(self).storage.wal == old(self).storage.wal,
            r matches Err(e) ==> e is CollectionNotFound || e is Corruption,
            r matches Err(e) ==> (e is CollectionNotFound <==> forall|i: int|
                0 <= i < old(self).storage.collections@.len() ==> (#[trigger] old(self).storage.collections@[i]).name@ != name@),
    {
        let res = self.storage.drop_collection(name);
        let ghost st1 = self.storage;
        // drop the registry entry too
        let mut i: usize = 0;
        while i < self.collections.len()
            invariant
                self.wf(),
                self.storage == st1,
                st1.recs() == old(self).storage.recs(),
                st1.wal == old(self).storage.wal,
                self.next_tx_id == old(self).next_tx_id,
                self.active_transactions == old(self).active_transactions,
                self.index_files == old(self).index_files,
            decreases self.collections@.len() - i,
        {
            if crate::value::str_eq(self.collections[i].name.as_str(), name) {
                let ghost oldc = self.collections@;
                self.collections.remove(i);
                proof {
                    assert(forall|k: int| 0 <= k < self.collections@.len()
                        ==> #[trigger] self.collections@[k] == oldc[k] || self.collections@[k]
                            == oldc[k + 1]);
                }
                break;
            }
            i = i + 1;
        }
        res
    }

    /// Persist the metadata region; the records, the log, and the
    /// transactions are untouched, and every collection's offsets converge
    /// to the fixed data start.
    pub fn flush(&mut self) -> (r: Result<(), MongoLiteError>)
        requires
            old(self).wf(),
        ensures
            final(self).wf(),
            final(self).next_tx_id == old(self).next_tx_id,
            final(self).active_transactions == old(self).active_transactions,
            final(self).index_files == old(self).index_files,
            final(self).collections == old(self).collections,
            final(self).storage.recs() == old(self).storage.recs(),
            final(self).storage.wal == old(self).storage.wal,
            r matches Err(e) ==> e is Corruption,
    {
        self.storage.flush_metadata()
    }

    /// Compact the data file: afterwards the records are exactly the
    /// latest non-tombstone version of each document, collection by
    /// collection; the log and the transactions are untouched.
    pub fn compact(&mut self) -> (r: Result<crate::compact::CompactionStats, MongoLiteError>)
        requires
            old(self).wf(),
        ensures
            final(self).wf(),
            final(self).next_tx_id == old(self).next_tx_id,
            final(self).active_transactions == old(self).active_transactions,
            final(self).index_files == old(self).index_files,
            final(self).collections == old(self).collections,
            final(self).storage.wal == old(self).storage.wal,
            r matches Ok(_) ==> final(self).storage.recs() == crate::compact::compact_spec(
                old(self).storage.recs(),
                crate::storage::meta_names(old(self).storage.collections@),
                old(self).storage.collections@.len() as int,
            ),
            r matches Err(e) ==> e is Corruption && final(self).storage == old(self).storage,
    {
        self.storage.compact()
    }

    /// Start a transaction; ids are assigned monotonically from one, and
    /// the registry gains a fresh active transaction under the new id.
    pub fn begin_transaction(&mut self) -> (r: u64)
        requires
            old(self).wf(),
            old(self).next_tx_id < u64::MAX,
        ensures
            final(self).wf(),
            r == old(self).next_tx_id,
            final(self).next_tx_id == old(self).next_tx_id + 1,
            final(self).storage == old(self).storage,
            final(self).collections == old(self).collections,
            final(self).index_files == old(self).index_files,
            final(self).active_transactions@.len() == old(self).active_transactions@.len() + 1,
            forall|i: int| 0 <= i < old(self).active_transactions@.len()
                ==> #[trigger] final(self).active_transactions@[i] == old(self).active_transactions@[i],
            final(self).active_transactions@.last().0 == r,
            final(self).active_transactions@.last().1.id == r,
            final(self).active_transactions@.last().1.spec_state()
                == crate::transaction::TransactionState::Active,
            final(self).active_transactions@.last().1.spec_operations() == Seq::<
                crate::transaction::Operation,
            >::empty(),
            final(self).active_transactions@.last().1.spec_index_changes() == Seq::<
                (String, Vec<crate::transaction::IndexChange>),
            >::empty(),
            final(self).active_transactions@.last().1.spec_metadata_changes() == Seq::<
                crate::transaction::MetadataChange,
            >::empty(),
    {
        let tx_id = self.next_tx_id;
        self.next_tx_id = self.next_tx_id + 1;
        let tx = Transaction::new(tx_id);
        self.active_transactions.push((tx_id, tx));
        tx_id
    }

    /// Take a registered transaction out of the registry; an unknown id is
    /// refused with `TransactionAborted`, and nothing changes.
    fn take_transaction(&mut self, tx_id: u64) -> (r: Result<Transaction, MongoLiteError>)
        requires
            old(self).wf(),
        ensures
            final(self).wf(),
            final(self).storage == old(self).storage,
            final(self).next_tx_id == old(self).next_tx_id,
            final(self).collections == old(self).collections,
            final(self).index_files == old(self).index_files,
            match r {
                Ok(t) => exists|i: int|
                    0 <= i < old(self).active_transactions@.len() && (#[trigger] old(self).active_transactions@[i]).0 == tx_id && old(self).active_transactions@[i].1
                        == t && final(self).active_transactions@ == old(self).active_transactions@.remove(i),
                Err(e) => {
                    &&& e is TransactionAborted
                    &&& !has_tx(old(self).active_transactions@, tx_id)
                    &&& *final(self) == *old(self)
                },
            },
    {
        let mut i: usize = 0;
        while i < self.active_transactions.len()
            invariant
                self.wf(),
                *self == *old(self),
                i <= self.active_transactions@.len(),
                forall|k: int| 0 <= k < i ==> (#[trigger] self.active_transactions@[k]).0 != tx_id,
            decreases self.active_transactions@.len() - i,
        {
            if self.active_transactions[i].0 == tx_id {
                let pair = self.active_transactions.remove(i);
                return Ok(pair.1);
            }
            i = i + 1;
        }
        Err(MongoLiteError::TransactionAborted(String::new()))
    }

    /// Buffer one operation into a registered transaction. An unknown id
    /// is refused with `TransactionAborted`, a transaction that is no
    /// longer active with `TransactionCommitted`; either way the buffers
    /// are unchanged. The touched transaction moves to the back of the
    /// registry.
    pub fn add_operation(
        &mut self,
        tx_id: u64,
        op: crate::transaction::Operation,
    ) -> (r: Result<(), MongoLiteError>)
        requires
            old(self).wf(),
        ensures
            final(self).wf(),
            final(self).storage == old(self).storage,
            final(self).next_tx_id == old(self).next_tx_id,
            final(self).collections == old(self).collections,
            final(self).index_files == old(self).index_files,
            match r {
                Ok(()) => exists|i: int|
                    0 <= i < old(self).active_transactions@.len() && (#[trigger] old(self).active_transactions@[i]).0 == tx_id && old(self).active_transactions@[i].1.spec_state()
                        == crate::transaction::TransactionState::Active && final(self).active_transactions@ == old(self).active_transactions@.remove(i).push(
                        final(self).active_transactions@.last(),
                    ) && final(self).active_transactions@.last().0 == tx_id && final(self).active_transactions@.last().1.spec_operations() == old(self).active_transactions@[i].1.spec_operations().push(op) && final(self).active_transactions@.last().1.spec_state()
                        == crate::transaction::TransactionState::Active,
                Err(e) => {
                    &&& e is TransactionAborted || e is TransactionCommitted
                    &&& (e is TransactionAborted <==> !has_tx(
                        old(self).active_transactions@,
                        tx_id,
                    ))
                    &&& e is TransactionAborted ==> final(self).active_transactions@ == old(self).active_transactions@
                    &&& e is TransactionCommitted ==> exists|i: int|
                        {
                            let t = (#[trigger] old(self).active_transactions@[i]).1;
                            &&& 0 <= i < old(self).active_transactions@.len()
                            &&& old(self).active_transactions@[i].0 == tx_id
                            &&& t.spec_state() != crate::transaction::TransactionState::Active
                            &&& final(self).active_transactions@ == old(self).active_transactions@.remove(i).push(
                                final(self).active_transactions@.last(),
                            )
                            &&& final(self).active_transactions@.last().0 == tx_id
                            &&& final(self).active_transactions@.last().1.id == t.id
                            &&& final(self).active_transactions@.last().1.spec_state()
                                == t.spec_state()
                            &&& final(self).active_transactions@.last().1.spec_operations()
                                == t.spec_operations()
                            &&& final(self).active_transactions@.last().1.spec_index_changes()
                                == t.spec_index_changes()
                            &&& final(self).active_transactions@.last().1.spec_metadata_changes()
                                == t.spec_metadata_changes()
                        }
                },
            },
    {
        let ghost txs0 = old(self).active_transactions@;
        let mut tx = match self.take_transaction(tx_id) {
            Ok(t) => t,
            Err(e) => {
                return Err(e);
            }
        };
        let ghost iw = choose|i: int|
            0 <= i < txs0.len() && (#[trigger] txs0[i]).0 == tx_id && txs0[i].1 == tx
                && self.active_transactions@ == txs0.remove(i);
        let ghost taken = tx;
        let res = tx.add_operation(op);
        self.active_transactions.push((tx_id, tx));
        proof {
            assert(txs0[iw] == (txs0[iw].0, txs0[iw].1));
            assert(self.active_transactions@ == txs0.remove(iw).push(
                self.active_transactions@.last(),
            ));
        }
        res
    }

    /// Commit a registered transaction without index changes: the plain
    /// nine-step sequence. An unknown id is refused with
    /// `TransactionAborted`; a transaction that is no longer active with
    /// `TransactionCommitted`; `Serialization` only for an oversized
    /// payload. On success the log gains the commit frames and the data
    /// region the operations' records; the committed (or refused)
    /// transaction leaves the registry.
    pub fn commit_transaction(&mut self, tx_id: u64) -> (r: Result<(), MongoLiteError>)
        requires
            old(self).wf(),
        ensures
            final(self).wf(),
            final(self).next_tx_id == old(self).next_tx_id,
            final(self).index_files == old(self).index_files,
            match r {
                Ok(()) => exists|i: int|
                    {
                        let t = (#[trigger] old(self).active_transactions@[i]).1;
                        &&& 0 <= i < old(self).active_transactions@.len()
                        &&& old(self).active_transactions@[i].0 == tx_id
                        &&& t.spec_state() == crate::transaction::TransactionState::Active
                        &&& final(self).active_transactions@ == old(self).active_transactions@.remove(i)
                        &&& crate::wal::wal_frames(final(self).storage.wal@)
                            == crate::wal::wal_frames(old(self).storage.wal@)
                            + crate::storage::commit_frames(
                            t.id,
                            Seq::new(
                                t.spec_operations().len(),
                                |k: int| crate::value::spec_enc(
                                    crate::storage::op_value(t.spec_operations()[k]@),
                                ),
                            ),
                            crate::storage::flat_change_payloads(
                                crate::storage::tx_collection(t.spec_operations()),
                                t.spec_index_changes(),
                                t.spec_index_changes().len() as int,
                            ),
                        )
                        &&& final(self).storage.recs() == old(self).storage.recs()
                            + crate::storage::op_records(
                            crate::transaction::op_views(t.spec_operations()),
                        )
                    },
                Err(e) => {
                    &&& e is TransactionAborted || e is TransactionCommitted
                        || e is Serialization
                    &&& (e is TransactionAborted <==> !has_tx(
                        old(self).active_transactions@,
                        tx_id,
                    ))
                    &&& e is TransactionAborted ==> *final(self) == *old(self)
                    &&& (e is TransactionCommitted || e is Serialization) ==> exists|i: int|
                        {
                            let t = (#[trigger] old(self).active_transactions@[i]).1;
                            &&& 0 <= i < old(self).active_transactions@.len()
                            &&& old(self).active_transactions@[i].0 == tx_id
                            &&& final(self).active_transactions@ == old(self).active_transactions@.remove(i)
                            &&& final(self).storage == old(self).storage
                            &&& (e is TransactionCommitted <==> t.spec_state()
                                != crate::transaction::TransactionState::Active)
                            &&& e is Serialization ==> !crate::storage::tx_payloads_fit(
                                t.spec_operations(),
                                t.spec_index_changes(),
                            )
                        }
                },
            },
    {
        let mut tx = match self.take_transaction(tx_id) {
            Ok(t) => t,
            Err(e) => {
                return Err(e);
            }
        };
        match self.storage.commit_transaction(&mut tx) {
            Ok(()) => Ok(()),
            Err(e) => Err(e),
        }
    }

    /// Roll back a registered transaction: an abort marker to the log,
    /// buffers discarded, the transaction out of the registry; the data
    /// file is untouched. An unknown id is refused with
    /// `TransactionAborted`, and nothing changes.
    pub fn rollback_transaction(&mut self, tx_id: u64) -> (r: Result<(), MongoLiteError>)
        requires
            old(self).wf(),
        ensures
            final(self).wf(),
            final(self).next_tx_id == old(self).next_tx_id,
            final(self).collections == old(self).collections,
            final(self).index_files == old(self).index_files,
            final(self).storage.file == old(self).storage.file,
            final(self).storage.recs() == old(self).storage.recs(),
            final(self).storage.collections == old(self).storage.collections,
            final(self).storage.header == old(self).storage.header,
            match r {
                Ok(()) => exists|i: int|
                    {
                        let t = (#[trigger] old(self).active_transactions@[i]).1;
                        &&& 0 <= i < old(self).active_transactions@.len()
                        &&& old(self).active_transactions@[i].0 == tx_id
                        &&& final(self).active_transactions@ == old(self).active_transactions@.remove(i)
                        &&& t.spec_state() == crate::transaction::TransactionState::Active
                            ==> crate::wal::wal_frames(final(self).storage.wal@)
                            == crate::wal::wal_frames(old(self).storage.wal@).push(
                            crate::storage::mk_frame(
                                t.id,
                                crate::wal::WALEntryType::Abort,
                                Seq::empty(),
                            ),
                        )
                        &&& t.spec_state() != crate::transaction::TransactionState::Active
                            ==> final(self).storage == old(self).storage
                    },
                Err(e) => {
                    &&& e is TransactionAborted
                    &&& !has_tx(old(self).active_transactions@, tx_id)
                    &&& *final(self) == *old(self)
                },
            },
    {
        let mut tx = match self.take_transaction(tx_id) {
            Ok(t) => t,
            Err(e) => {
                return Err(e);
            }
        };
        match self.storage.rollback_transaction(&mut tx) {
            Ok(()) => Ok(()),
            Err(_) => Ok(()),
        }
    }

    /// The two-phase commit for a transaction touching indexes.
    ///
    /// Extract the transaction; with no index changes, the plain commit
    /// decides. Otherwise apply the buffered changes to the in-memory
    /// trees and prepare one snapshot per index — on any failure the
    /// prepared snapshots are dropped and the transaction goes back to the
    /// registry so the caller may roll it back. Then the nine-step commit
    /// makes the transaction durable; only after that does each prepared
    /// snapshot move onto its index file, the step a crash can redo from
    /// the log.
    pub fn commit_transaction_with_indexes(&mut self, tx_id: u64) -> (r: Result<
        (),
        MongoLiteError,
    >)
        requires
            old(self).wf(),
        ensures
            final(self).wf(),
            final(self).next_tx_id == old(self).next_tx_id,
            match r {
                Ok(()) => exists|i: int|
                    {
                        let t = (#[trigger] old(self).active_transactions@[i]).1;
                        &&& 0 <= i < old(self).active_transactions@.len()
                        &&& old(self).active_transactions@[i].0 == tx_id
                        &&& t.spec_state() == crate::transaction::TransactionState::Active
                        &&& final(self).active_transactions@ == old(self).active_transactions@.remove(i)
                        &&& crate::wal::wal_frames(final(self).storage.wal@)
                            == crate::wal::wal_frames(old(self).storage.wal@)
                            + crate::storage::commit_frames(
                            t.id,
                            Seq::new(
                                t.spec_operations().len(),
                                |k: int| crate::value::spec_enc(
                                    crate::storage::op_value(t.spec_operations()[k]@),
                                ),
                            ),
                            crate::storage::flat_change_payloads(
                                crate::storage::tx_collection(t.spec_operations()),
                                t.spec_index_changes(),
                                t.spec_index_changes().len() as int,
                            ),
                        )
                        &&& final(self).storage.recs() == old(self).storage.recs()
                            + crate::storage::op_records(
                            crate::transaction::op_views(t.spec_operations()),
                        )
                    },
                Err(e) => {
                    &&& e is TransactionAborted || e is TransactionCommitted
                        || e is Serialization || e is IndexError || e is Unknown
                    &&& !has_tx(old(self).active_transactions@, tx_id) ==> e
                        is TransactionAborted && *final(self) == *old(self)
                    &&& final(self).storage.recs() == old(self).storage.recs()
                    &&& crate::wal::wal_frames(final(self).storage.wal@) == crate::wal::wal_frames(
                        old(self).storage.wal@,
                    )
                    &&& final(self).index_files == old(self).index_files
                    &&& (e is IndexError || e is Unknown) ==> has_tx(
                        final(self).active_transactions@,
                        tx_id,
                    )
                },
            },
            (has_tx(old(self).active_transactions@, tx_id) && (forall|i: int|
                0 <= i < old(self).active_transactions@.len() && (#[trigger] old(self).active_transactions@[i]).0 == tx_id ==> {
                    let t = old(self).active_transactions@[i].1;
                    &&& t.spec_state() == crate::transaction::TransactionState::Active
                    &&& t.spec_index_changes().len() == 0
                    &&& crate::storage::tx_payloads_fit(
                        t.spec_operations(),
                        t.spec_index_changes(),
                    )
                })) ==> r is Ok,
    {
        let ghost txs0 = old(self).active_transactions@;
        let mut tx = match self.take_transaction(tx_id) {
            Ok(t) => t,
            Err(e) => {
                return Err(e);
            }
        };
        let ghost iw = choose|i: int|
            0 <= i < txs0.len() && (#[trigger] txs0[i]).0 == tx_id && txs0[i].1 == tx
                && self.active_transactions@ == txs0.remove(i);
        if tx.index_changes().len() == 0 {
            return match self.storage.commit_transaction(&mut tx) {
                Ok(()) => Ok(()),
                Err(e) => Err(e),
            };
        }
        // the collection the transaction touches
        let coll_name: String = if tx.operations().len() > 0 {
            match &tx.operations()[0] {
                crate::transaction::Operation::Insert { collection, .. } => collection.clone(),
                crate::transaction::Operation::Update { collection, .. } => collection.clone(),
                crate::transaction::Operation::Delete { collection, .. } => collection.clone(),
            }
        } else {
            self.active_transactions.push((tx_id, tx));
            return Err(MongoLiteError::TransactionAborted(String::new()));
        };
        let ci = match self.collection_position(coll_name.as_str()) {
            Ok(ci) => ci,
            Err(_) => {
                self.active_transactions.push((tx_id, tx));
                return Err(MongoLiteError::TransactionAborted(String::new()));
            }
        };
        let ghost taken = tx;
        // phase 1: the in-memory trees take the changes, and each touched
        // index is snapshot
        let mut prepared: Vec<IndexSnapshot> = Vec::new();
        let ghost pre_remove2 = self.collections@;
        let mut coll = self.collections.remove(ci);
        proof {
            lemma_registry_wf_remove(pre_remove2, self.collections@, ci as int);
        }
        let mut g: usize = 0;
        let groups = tx.index_changes().len();
        let mut failed = false;
        while g < groups
            invariant
                ci <= self.collections@.len(),
                coll.indexes.wf(),
                self.storage.wf(),
                crate::wal::wal_clean(self.storage.wal@),
                forall|i: int| 0 <= i < self.collections@.len()
                    ==> (#[trigger] self.collections@[i]).indexes.wf(),
                txs0 == old(self).active_transactions@,
                0 <= iw < txs0.len() && txs0[iw].0 == tx_id && txs0[iw].1 == taken,
                tx == taken,
                self.active_transactions@ == txs0.remove(iw),
                self.storage.wal == old(self).storage.wal,
                self.storage.recs() == old(self).storage.recs(),
                self.next_tx_id == old(self).next_tx_id,
                self.index_files == old(self).index_files,
            decreases groups - g,
        {
            if g >= tx.index_changes().len() {
                break;
            }
            let index_name = tx.index_changes()[g].0.clone();
            let mut c: usize = 0;
            let nchanges = tx.index_changes()[g].1.len();
            while c < nchanges
                invariant
                    ci <= self.collections@.len(),
                    coll.indexes.wf(),
                    self.storage.wf(),
                    crate::wal::wal_clean(self.storage.wal@),
                    forall|i: int| 0 <= i < self.collections@.len()
                        ==> (#[trigger] self.collections@[i]).indexes.wf(),
                    txs0 == old(self).active_transactions@,
                    0 <= iw < txs0.len() && txs0[iw].0 == tx_id && txs0[iw].1 == taken,
                    tx == taken,
                    self.active_transactions@ == txs0.remove(iw),
                    self.storage.wal == old(self).storage.wal,
                    self.storage.recs() == old(self).storage.recs(),
                    self.next_tx_id == old(self).next_tx_id,
                    self.index_files == old(self).index_files,
                decreases nchanges - c,
            {
                if g >= tx.index_changes().len() || c >= tx.index_changes()[g].1.len() {
                    break;
                }
                let change_op = tx.index_changes()[g].1[c].operation;
                let key = convert_index_key(&tx.index_changes()[g].1[c].key);
                let did = tx.index_changes()[g].1[c].doc_id.clone();
                let res: Result<(), MongoLiteError> = match change_op {
                    crate::transaction::IndexOperation::Insert => {
                        coll.indexes.btree_insert(index_name.as_str(), key, did)
                    }
                    crate::transaction::IndexOperation::Delete => {
                        coll.indexes.btree_delete(index_name.as_str(), &key, &did);
                        Ok(())
                    }
                };
                match res {
                    Ok(()) => {}
                    Err(e) => {
                        // drop every prepared snapshot and give the caller
                        // the transaction back
                        let ghost pre_ins = self.collections@;
                        let ghost cv = coll;
                        self.collections.insert(ci, coll);
                        proof {
                            lemma_registry_wf_insert(pre_ins, self.collections@, cv, ci as int);
                        }
                        self.active_transactions.push((tx_id, tx));
                        proof {
                            assert(self.active_transactions@.last().0 == tx_id);
                            assert(has_tx(self.active_transactions@, tx_id));
                        }
                        return Err(e);
                    }
                }
                c = c + 1;
            }
            // snapshot the index as prepared
            match coll.indexes.get_btree_index(index_name.as_str()) {
                Some(tree) => {
                    let entries = tree.entries_vec();
                    prepared.push(IndexSnapshot { index_name: index_name.clone(), entries });
                }
                None => {}
            }
            g = g + 1;
        }
        let ghost pre_ins2 = self.collections@;
        let ghost cv2 = coll;
        self.collections.insert(ci, coll);
        proof {
            lemma_registry_wf_insert(pre_ins2, self.collections@, cv2, ci as int);
        }
        // phase 2: the nine-step commit is the durability point
        match self.storage.commit_transaction(&mut tx) {
            Ok(()) => {}
            Err(e) => {
                // the prepared snapshots are dropped; nothing was committed
                return Err(e);
            }
        }
        let ghost committed_frames = crate::wal::wal_frames(self.storage.wal@);
        let ghost committed_recs = self.storage.recs();
        proof {
            assert(committed_frames == crate::wal::wal_frames(old(self).storage.wal@)
                + crate::storage::commit_frames(
                taken.id,
                Seq::new(
                    taken.spec_operations().len(),
                    |k: int| crate::value::spec_enc(
                        crate::storage::op_value(taken.spec_operations()[k]@),
                    ),
                ),
                crate::storage::flat_change_payloads(
                    crate::storage::tx_collection(taken.spec_operations()),
                    taken.spec_index_changes(),
                    taken.spec_index_changes().len() as int,
                ),
            ));
            assert(committed_recs == old(self).storage.recs() + crate::storage::op_records(
                crate::transaction::op_views(taken.spec_operations()),
            ));
        }
        // phase 3: each prepared snapshot moves onto its index file; the
        // transaction is already durable, so a failure here is left to the
        // next open, which rebuilds the indexes from the log
        let mut prepared = prepared;
        while prepared.len() > 0
            invariant
                self.wf(),
                txs0 == old(self).active_transactions@,
                0 <= iw < txs0.len() && txs0[iw].0 == tx_id && txs0[iw].1 == taken,
                taken.spec_state() == crate::transaction::TransactionState::Active,
                self.active_transactions@ == txs0.remove(iw),
                self.next_tx_id == old(self).next_tx_id,
                crate::wal::wal_frames(self.storage.wal@) == committed_frames,
                self.storage.recs() == committed_recs,
                committed_frames == crate::wal::wal_frames(old(self).storage.wal@)
                    + crate::storage::commit_frames(
                    taken.id,
                    Seq::new(
                        taken.spec_operations().len(),
                        |k: int| crate::value::spec_enc(
                            crate::storage::op_value(taken.spec_operations()[k]@),
                        ),
                    ),
                    crate::storage::flat_change_payloads(
                        crate::storage::tx_collection(taken.spec_operations()),
                        taken.spec_index_changes(),
                        taken.spec_index_changes().len() as int,
                    ),
                ),
                committed_recs == old(self).storage.recs() + crate::storage::op_records(
                    crate::transaction::op_views(taken.spec_operations()),
                ),
            decreases prepared@.len(),
        {
            let snap = prepared.remove(0);
            let mut j: usize = 0;
            let mut pos: Option<usize> = None;
            while j < self.index_files.len()
                invariant
                    j <= self.index_files@.len(),
                    self.wf(),
                    pos matches Some(p) ==> p < self.index_files@.len(),
                decreases self.index_files@.len() - j,
            {
                if crate::value::str_eq(
                    self.index_files[j].index_name.as_str(),
                    snap.index_name.as_str(),
                ) {
                    pos = Some(j);
                    break;
                }
                j = j + 1;
            }
            match pos {
                Some(p) => {
                    self.index_files.remove(p);
                }
                None => {}
            }
            self.index_files.push(snap);
        }
        Ok(())
    }
}

/// Inserting a collection with well-formed indexes keeps every registry
/// entry's indexes well formed.
proof fn lemma_registry_wf_insert(
    pre: Seq<CollectionCore>,
    post: Seq<CollectionCore>,
    c: CollectionCore,
    i: int,
)
    requires
        0 <= i <= pre.len(),
        post == pre.insert(i, c),
        c.indexes.wf(),
        forall|k: int| 0 <= k < pre.len() ==> (#[trigger] pre[k]).indexes.wf(),
    ensures
        forall|k: int| 0 <= k < post.len() ==> (#[trigger] post[k]).indexes.wf(),
{
    assert forall|k: int| 0 <= k < post.len() implies (#[trigger] post[k]).indexes.wf() by {
        if k < i {
            assert(post[k] == pre[k]);
        } else if k == i {
            assert(post[k] == c);
        } else {
            assert(post[k] == pre[k - 1]);
        }
    }
}

/// Removing a collection keeps every remaining entry's indexes well
/// formed.
proof fn lemma_registry_wf_remove(pre: Seq<CollectionCore>, post: Seq<CollectionCore>, i: int)
    requires
        0 <= i < pre.len(),
        post == pre.remove(i),
        forall|k: int| 0 <= k < pre.len() ==> (#[trigger] pre[k]).indexes.wf(),
    ensures
        forall|k: int| 0 <= k < post.len() ==> (#[trigger] post[k]).indexes.wf(),
{
    assert forall|k: int| 0 <= k < post.len() implies (#[trigger] post[k]).indexes.wf() by {
        if k < i {
            assert(post[k] == pre[k]);
        } else {
            assert(post[k] == pre[k + 1]);
        }
    }
}

} // verus!
