//! One collection's logic: writes that append records and keep the
//! indexes in step, reads that rebuild the latest-version view from the
//! record stream, and the transactional entry points that buffer work.
//!
//! The engine is single-writer: the coordinator passes the storage engine
//! into every call.

use vstd::prelude::*;

use crate::error::MongoLiteError;
use crate::index::IndexManager;
use crate::key::IndexKey;
use crate::query::Query;
use crate::storage::{record_doc, StorageEngine};
use crate::value::{Document, DocumentId, DocumentIdV, Value, ValueV};

verus! {

broadcast use {vstd::std_specs::vec::group_vec_axioms, crate::value::group_value_views};

/// One collection: its name and its in-memory indexes.
#[derive(Debug)]
pub struct CollectionCore {
    pub name: String,
    pub indexes: IndexManager,
}

/// The document value an insert writes: the id, the owning collection,
/// then the caller's fields.
/// The record is an encoded tombstone of the collection, for some id.
pub open spec fn is_tombstone_record(rec: Seq<u8>, coll: Seq<char>) -> bool {
    exists|id: crate::value::DocumentIdV| rec == crate::value::spec_enc(
        #[trigger] crate::storage::tombstone_value(coll, id),
    )
}

pub open spec fn insert_doc_value(
    name: Seq<char>,
    id: crate::value::DocumentIdV,
    fields: Seq<(String, Value)>,
) -> ValueV {
    ValueV::Object(
        seq![
            ("_id"@, crate::storage::id_field_value(id)),
            ("_collection"@, ValueV::String(name)),
        ] + crate::value::fields_view(fields, fields.len() as int),
    )
}

impl CollectionCore {
    /// Open the collection, creating it if missing, with its automatic
    /// unique `_id` index.
    pub fn new(name: &str, storage: &mut StorageEngine) -> (r: Result<
        CollectionCore,
        MongoLiteError,
    >)
        requires
            old(storage).wf(),
        ensures
            final(storage).wf(),
            final(storage).wal == old(storage).wal,
            final(storage).recs() == old(storage).recs(),
            r matches Ok(c) ==> c.indexes.wf() && c.name@ == name@,
    {
        let exists = match storage.get_collection_meta(name) {
            Some(_) => true,
            None => false,
        };
        if !exists {
            match storage.create_collection(name) {
                Ok(()) => {}
                Err(MongoLiteError::CollectionExists(_)) => {}
                Err(e) => {
                    return Err(e);
                }
            }
        }
        let mut indexes = IndexManager::new();
        let mut id_index_name = String::from_str(name);
        id_index_name.append("_id");
        match indexes.create_btree_index(
            id_index_name,
            String::from_str("_id"),
            true,
        ) {
            Ok(()) => {}
            Err(e) => {
                return Err(e);
            }
        }
        Ok(CollectionCore { name: String::from_str(name), indexes })
    }

    /// The key a document id indexes under.
    fn id_key(doc_id: &DocumentId) -> (r: IndexKey) {
        match doc_id {
            DocumentId::Int(i) => IndexKey::Int(*i),
            DocumentId::String(s) => IndexKey::String(s.clone()),
            DocumentId::ObjectId(s) => IndexKey::String(s.clone()),
        }
    }

    /// Insert one document: assign the next id, keep every index in step,
    /// and append the record. The new record carries the id, the owning
    /// collection, then the caller's fields.
    pub fn insert_one(
        &mut self,
        storage: &mut StorageEngine,
        fields: Vec<(String, Value)>,
    ) -> (r: Result<DocumentId, MongoLiteError>)
        requires
            old(storage).wf(),
            old(self).indexes.wf(),
        ensures
            final(storage).wf(),
            final(self).indexes.wf(),
            final(storage).wal == old(storage).wal,
            match r {
                Ok(id) => final(storage).recs() == old(storage).recs().push(
                    crate::value::spec_enc(insert_doc_value(final(self).name@, id@, fields@)),
                ) && final(self).name@ == old(self).name@,
                Err(e) => {
                    &&& e is CollectionNotFound || e is Unknown || e is Serialization || e
                        is IndexError
                    &&& (e is CollectionNotFound <==> forall|i: int|
                        0 <= i < old(storage).collections@.len() ==> (#[trigger] old(storage).collections@[i]).name@ != old(self).name@)
                    &&& e is CollectionNotFound ==> *final(storage) == *old(storage)
                    &&& e is Serialization ==> exists|id: crate::value::DocumentIdV|
                        crate::value::spec_enc(
                            #[trigger] insert_doc_value(old(self).name@, id, fields@),
                        ).len() > u32::MAX
                    &&& final(storage).recs() == old(storage).recs()
                },
            },
    {
        let meta_last = match storage.get_collection_meta(self.name.as_str()) {
            Some(m) => m.last_id,
            None => {
                return Err(MongoLiteError::CollectionNotFound(String::new()));
            }
        };
        if meta_last >= 0x7fff_ffff_ffff_ffff {
            return Err(MongoLiteError::Unknown(String::new()));
        }
        let doc_id = DocumentId::new_auto(meta_last);
        storage.set_last_id(self.name.as_str(), meta_last + 1);
        // the record value: id and owning collection, then the fields
        let ghost fv = fields@;
        let mut obj: Vec<(String, Value)> = Vec::new();
        obj.push((String::from_str("_id"), id_field(&doc_id)));
        obj.push((String::from_str("_collection"), Value::String(self.name.clone())));
        let ghost head = obj@;
        proof {
            assert(head.len() == 2);
            assert(obj@ =~= head + fv.subrange(0, 0));
        }
        let mut rest = fields;
        while rest.len() > 0
            invariant
                rest@.len() <= fv.len(),
                head.len() == 2,
                head[0].0@ == "_id"@,
                head[0].1@ == crate::storage::id_field_value(doc_id@),
                head[1].0@ == "_collection"@,
                head[1].1@ == ValueV::String(old(self).name@),
                obj@ == head + fv.subrange(0, fv.len() - rest@.len()),
                rest@ == fv.subrange(fv.len() - rest@.len(), fv.len() as int),
                *self == *old(self),
            decreases rest@.len(),
        {
            let ghost done = fv.len() - rest@.len();
            let ghost prerest = rest@;
            let p = rest.remove(0);
            proof {
                assert(prerest[0] == fv[done as int]);
            }
            obj.push(p);
            proof {
                assert(obj@ =~= head + fv.subrange(0, done + 1));
                assert(rest@ =~= fv.subrange(done + 1, fv.len() as int));
            }
        }
        proof {
            assert(obj@ =~= head + fv);
        }
        let ghost objv = obj@;
        let doc = Value::Object(obj);
        // indexes first: the unique id index, then every field index
        let mut id_index_name = self.name.clone();
        id_index_name.append("_id");
        match self.indexes.btree_insert(
            id_index_name.as_str(),
            Self::id_key(&doc_id),
            doc_id.clone(),
        ) {
            Ok(()) => {}
            Err(e) => {
                return Err(e);
            }
        }
        let mut x: usize = 0;
        while x < self.indexes.btree_indexes.len()
            invariant
                self.indexes.wf(),
                self.name@ == old(self).name@,
                storage.wf(),
                storage.wal == old(storage).wal,
                storage.recs() == old(storage).recs(),
                exists|i: int|
                    0 <= i < old(storage).collections@.len() && (#[trigger] old(storage).collections@[i]).name@ == old(self).name@,
            decreases self.indexes.btree_indexes@.len() - x,
        {
            let iname = self.indexes.btree_indexes[x].0.clone();
            let ifield = self.indexes.btree_indexes[x].1.metadata.field.clone();
            if !crate::value::str_eq(ifield.as_str(), "_id") {
                match doc.get_field(ifield.as_str()) {
                    Some(v) => {
                        let key = IndexKey::from_value(v);
                        match self.indexes.btree_insert(iname.as_str(), key, doc_id.clone()) {
                            Ok(()) => {}
                            Err(e) => {
                                return Err(e);
                            }
                        }
                    }
                    None => {}
                }
            }
            x = x + 1;
        }
        // then the record
        let bytes = crate::value::encode_value(&doc);
        match storage.write_data(bytes.as_slice()) {
            Ok(_) => {}
            Err(e) => {
                proof {
                    broadcast use crate::value::group_value_views;

                    assert(crate::value::fields_view(objv, objv.len() as int) =~= seq![
                        ("_id"@, crate::storage::id_field_value(doc_id@)),
                        ("_collection"@, ValueV::String(old(self).name@)),
                    ] + crate::value::fields_view(fields@, fields@.len() as int));
                    assert(doc@ == insert_doc_value(old(self).name@, doc_id@, fields@));
                    assert(crate::value::spec_enc(
                        insert_doc_value(old(self).name@, doc_id@, fields@),
                    ).len() > u32::MAX);
                }
                return Err(e);
            }
        }
        proof {
            broadcast use crate::value::group_value_views;

            assert(crate::value::fields_view(objv, objv.len() as int) =~= seq![
                ("_id"@, crate::storage::id_field_value(doc_id@)),
                ("_collection"@, ValueV::String(old(self).name@)),
            ] + crate::value::fields_view(fields@, fields@.len() as int));
            assert(doc@ == insert_doc_value(self.name@, doc_id@, fields@));
        }
        Ok(doc_id)
    }
}

/// The `_id` field form of a document id.
fn id_field(d: &DocumentId) -> (r: Value)
    ensures
        r@ == crate::storage::id_field_value(d@),
{
    match d {
        DocumentId::Int(i) => Value::Int(*i),
        DocumentId::String(s) => Value::String(s.clone()),
        DocumentId::ObjectId(s) => Value::String(s.clone()),
    }
}

} // verus!

verus! {

/// The document the last record naming `(coll, id)` carries, tombstone or
/// not; `None` when no record names the pair.
pub open spec fn latest_doc(
    records: Seq<Seq<u8>>,
    coll: Seq<char>,
    id: crate::value::DocumentIdV,
) -> Option<ValueV>
    decreases records.len(),
{
    if records.len() == 0 {
        None
    } else {
        match crate::storage::record_doc(records.last()) {
            Some(d) => {
                if d.0 == coll && d.1 == id {
                    Some(d.2)
                } else {
                    latest_doc(records.drop_last(), coll, id)
                }
            }
            None => latest_doc(records.drop_last(), coll, id),
        }
    }
}

/// The collection's ids among `records[..j]`, in order of first
/// appearance, each once.
pub open spec fn ids_upto(records: Seq<Seq<u8>>, coll: Seq<char>, j: int) -> Seq<DocumentIdV>
    decreases j,
{
    if 0 < j <= records.len() {
        let pre = ids_upto(records, coll, j - 1);
        match crate::storage::record_doc(records[j - 1]) {
            Some(d) => {
                if d.0 == coll && !pre.contains(d.1) {
                    pre.push(d.1)
                } else {
                    pre
                }
            }
            None => pre,
        }
    } else {
        Seq::empty()
    }
}

/// The latest record per document id of one collection, tombstones kept
/// so deletions override earlier versions: one pair per id named by some
/// record, in first-appearance order, carrying the last value written for
/// it.
fn scan_latest(storage: &StorageEngine, name: &str) -> (r: Vec<(DocumentId, Value)>)
    requires
        storage.wf(),
    ensures
        Seq::new(r@.len(), |t: int| r@[t].0@) == ids_upto(
            storage.recs(),
            name@,
            storage.recs().len() as int,
        ),
        forall|t: int, u: int| 0 <= t < u < r@.len() ==> (#[trigger] r@[t]).0@ != (
        #[trigger] r@[u]).0@,
        forall|t: int| 0 <= t < r@.len() ==> latest_doc(
            storage.recs(),
            name@,
            (#[trigger] r@[t]).0@,
        ) == Some(r@[t].1@),
        forall|id: crate::value::DocumentIdV|
            #[trigger] latest_doc(storage.recs(), name@, id) is Some ==> exists|t: int|
                0 <= t < r@.len() && (#[trigger] r@[t]).0@ == id,
{
    let records = storage.read_all_records();
    let ghost recsv = Seq::new(records@.len(), |t: int| records@[t]@);
    let mut latest: Vec<(DocumentId, Value)> = Vec::new();
    let mut i: usize = 0;
    proof {
        assert(recsv == storage.recs());
        assert(recsv.subrange(0, 0) =~= Seq::<Seq<u8>>::empty());
    }
    while i < records.len()
        invariant
            i <= records@.len(),
            recsv == Seq::new(records@.len(), |t: int| records@[t]@),
            recsv == storage.recs(),
            Seq::new(latest@.len(), |t: int| latest@[t].0@) == ids_upto(
                recsv,
                name@,
                i as int,
            ),
            forall|t: int, u: int| 0 <= t < u < latest@.len() ==> (#[trigger] latest@[t]).0@ != (
            #[trigger] latest@[u]).0@,
            forall|t: int| 0 <= t < latest@.len() ==> latest_doc(
                recsv.subrange(0, i as int),
                name@,
                (#[trigger] latest@[t]).0@,
            ) == Some(latest@[t].1@),
            forall|id: crate::value::DocumentIdV|
                #[trigger] latest_doc(recsv.subrange(0, i as int), name@, id) is Some ==> exists|
                    t: int,
                | 0 <= t < latest@.len() && (#[trigger] latest@[t]).0@ == id,
        decreases records@.len() - i,
    {
        let ghost pre = recsv.subrange(0, i as int);
        let ghost cur = recsv.subrange(0, i + 1);
        proof {
            assert(cur.drop_last() =~= pre);
            assert(cur.last() == recsv[i as int]);
            assert(recsv[i as int] == records@[i as int]@);
        }
        match crate::compact::parse_record(&records[i]) {
            Some(d) => {
                if crate::value::str_eq(d.0.as_str(), name) {
                    proof {
                        assert(forall|id: crate::value::DocumentIdV| id != d.1@
                            ==> #[trigger] latest_doc(cur, name@, id) == latest_doc(
                            pre,
                            name@,
                            id,
                        ));
                        assert(latest_doc(cur, name@, d.1@) == Some(d.2@));
                    }
                    // replace an earlier version of the same id, or add
                    let mut j: usize = 0;
                    let n = latest.len();
                    let mut pos: Option<usize> = None;
                    while j < n
                        invariant
                            j <= n,
                            n == latest@.len(),
                            pos is None ==> forall|k: int| 0 <= k < j
                                ==> (#[trigger] latest@[k]).0@ != d.1@,
                            pos matches Some(p) ==> p < latest@.len() && latest@[p as int].0@
                                == d.1@,
                        ensures
                            n == latest@.len(),
                            pos is None ==> forall|k: int| 0 <= k < n
                                ==> (#[trigger] latest@[k]).0@ != d.1@,
                            pos matches Some(p) ==> p < latest@.len() && latest@[p as int].0@
                                == d.1@,
                        decreases n - j,
                    {
                        if latest[j].0.eq_id(&d.1) {
                            pos = Some(j);
                            break;
                        }
                        j = j + 1;
                    }
                    let ghost oldlatest = latest@;
                    match pos {
                        Some(p) => {
                            latest.remove(p);
                            latest.insert(p, (d.1.clone(), d.2.clone()));
                            proof {
                                assert(latest@ =~= oldlatest.update(
                                    p as int,
                                    latest@[p as int],
                                ));
                                assert(latest@[p as int].0@ == d.1@);
                                assert(latest@[p as int].1@ == d.2@);
                                assert(oldlatest[p as int].0@ == d.1@);
                                assert forall|t: int, u: int|
                                    0 <= t < u < latest@.len() implies (
                                #[trigger] latest@[t]).0@ != (#[trigger] latest@[u]).0@ by {
                                    if t != p {
                                        assert(latest@[t] == oldlatest[t]);
                                    }
                                    if u != p {
                                        assert(latest@[u] == oldlatest[u]);
                                    }
                                    assert(oldlatest[t].0@ != oldlatest[u].0@);
                                }
                                assert forall|t: int| 0 <= t < latest@.len() implies latest_doc(
                                    cur,
                                    name@,
                                    (#[trigger] latest@[t]).0@,
                                ) == Some(latest@[t].1@) by {
                                    if t != p {
                                        assert(latest@[t] == oldlatest[t]);
                                        if t < p {
                                            assert(oldlatest[t].0@ != oldlatest[p as int].0@);
                                        } else {
                                            assert(oldlatest[p as int].0@ != oldlatest[t].0@);
                                        }
                                        assert(latest@[t].0@ != d.1@);
                                    }
                                }
                                assert(ids_upto(recsv, name@, i as int).contains(d.1@)) by {
                                    assert(Seq::new(
                                        oldlatest.len(),
                                        |t: int| oldlatest[t].0@,
                                    )[p as int] == d.1@);
                                }
                                assert(ids_upto(recsv, name@, i + 1) == ids_upto(
                                    recsv,
                                    name@,
                                    i as int,
                                ));
                                assert(Seq::new(latest@.len(), |t: int| latest@[t].0@)
                                    =~= Seq::new(oldlatest.len(), |t: int| oldlatest[t].0@));
                            }
                        }
                        None => {
                            latest.push((d.1.clone(), d.2.clone()));
                            proof {
                                assert(latest@ =~= oldlatest.push(latest@.last()));
                                assert(latest@.last().0@ == d.1@);
                                assert(latest@.last().1@ == d.2@);
                                let p = latest@.len() - 1;
                                assert forall|t: int, u: int|
                                    0 <= t < u < latest@.len() implies (
                                #[trigger] latest@[t]).0@ != (#[trigger] latest@[u]).0@ by {
                                    if u < p {
                                        assert(latest@[t] == oldlatest[t]);
                                        assert(latest@[u] == oldlatest[u]);
                                    } else {
                                        assert(latest@[t] == oldlatest[t]);
                                        assert(oldlatest[t].0@ != d.1@);
                                    }
                                }
                                assert forall|t: int| 0 <= t < latest@.len() implies latest_doc(
                                    cur,
                                    name@,
                                    (#[trigger] latest@[t]).0@,
                                ) == Some(latest@[t].1@) by {
                                    if t < p {
                                        assert(latest@[t] == oldlatest[t]);
                                        assert(oldlatest[t].0@ != d.1@);
                                    }
                                }
                                assert(!ids_upto(recsv, name@, i as int).contains(d.1@)) by {
                                    if ids_upto(recsv, name@, i as int).contains(d.1@) {
                                        let k = choose|k: int|
                                            0 <= k < ids_upto(recsv, name@, i as int).len()
                                                && ids_upto(recsv, name@, i as int)[k] == d.1@;
                                        assert(Seq::new(
                                            oldlatest.len(),
                                            |t: int| oldlatest[t].0@,
                                        )[k] == d.1@);
                                        assert(oldlatest[k].0@ == d.1@);
                                    }
                                }
                                assert(ids_upto(recsv, name@, i + 1) == ids_upto(
                                    recsv,
                                    name@,
                                    i as int,
                                ).push(d.1@));
                                assert(Seq::new(latest@.len(), |t: int| latest@[t].0@)
                                    =~= Seq::new(
                                    oldlatest.len(),
                                    |t: int| oldlatest[t].0@,
                                ).push(d.1@));
                            }
                        }
                    }
                    proof {
                        assert forall|id: crate::value::DocumentIdV|
                            #[trigger] latest_doc(cur, name@, id) is Some implies exists|t: int|
                            0 <= t < latest@.len() && (#[trigger] latest@[t]).0@ == id by {
                            if id == d.1@ {
                                let p2 = choose|p2: int|
                                    0 <= p2 < latest@.len() && (#[trigger] latest@[p2]).0@
                                        == d.1@;
                            } else {
                                assert(latest_doc(pre, name@, id) is Some);
                                let t0 = choose|t0: int|
                                    0 <= t0 < oldlatest.len() && (#[trigger] oldlatest[t0]).0@
                                        == id;
                                assert(latest@[t0].0@ == id);
                            }
                        }
                    }
                } else {
                    proof {
                        assert(forall|id: crate::value::DocumentIdV| #[trigger] latest_doc(
                            cur,
                            name@,
                            id,
                        ) == latest_doc(pre, name@, id));
                        assert(ids_upto(recsv, name@, i + 1) == ids_upto(recsv, name@, i as int));
                    }
                }
            }
            None => {
                proof {
                    assert(forall|id: crate::value::DocumentIdV| #[trigger] latest_doc(
                        cur,
                        name@,
                        id,
                    ) == latest_doc(pre, name@, id));
                    assert(ids_upto(recsv, name@, i + 1) == ids_upto(recsv, name@, i as int));
                }
            }
        }
        i = i + 1;
    }
    proof {
        assert(recsv.subrange(0, recsv.len() as int) =~= recsv);
    }
    latest
}

/// Whether the document value is a tombstone.
fn is_tombstone(v: &Value) -> (r: bool)
    ensures
        r == crate::storage::spec_is_tombstone(v@),
{
    match v.get_field("_tombstone") {
        Some(tv) => match tv {
            Value::Bool(b) => *b,
            _ => false,
        },
        None => false,
    }
}

impl CollectionCore {
    /// The live documents matching the query: on a collection scan,
    /// exactly the latest non-tombstone versions the parsed query accepts,
    /// in first-appearance order; through an index plan, a subset of those
    /// (the candidates the index window yields).
    pub fn find(&self, storage: &StorageEngine, query_json: &Value) -> (r: Result<
        Vec<Value>,
        MongoLiteError,
    >)
        requires
            storage.wf(),
            self.indexes.wf(),
        ensures
            r matches Err(e) ==> e is InvalidQuery,
            r matches Ok(docs) ==> exists|q: Query|
                #[trigger] crate::query::query_parses_to(query_json@, q) && (Seq::new(
                    docs@.len(),
                    |i: int| docs@[i]@,
                ) == matching_docs(storage.recs(), self.name@, q) || (forall|t: int|
                    0 <= t < docs@.len() ==> is_live_hit(
                        storage.recs(),
                        self.name@,
                        q,
                        (#[trigger] docs@[t])@,
                    ))),
    {
        let parsed = match Query::from_json(query_json) {
            Ok(q) => q,
            Err(e) => {
                return Err(e);
            }
        };
        let available = self.indexes.list_indexes();
        match crate::planner::QueryPlanner::analyze_query(query_json, &available) {
            Some((_field, plan)) => Ok(self.find_with_index(storage, &parsed, &plan)),
            None => {
                let latest = scan_latest(storage, self.name.as_str());
                proof {
                    assert(latest_views(latest@) =~= latest_pairs(storage.recs(), self.name@));
                }
                Ok(filter_documents(latest, &parsed))
            }
        }
    }

    /// Execute a query through an index plan: candidate ids from the
    /// index, then the latest version of each candidate, filtered by the
    /// full predicate.
    pub fn find_with_index(
        &self,
        storage: &StorageEngine,
        parsed_query: &Query,
        plan: &crate::planner::QueryPlan,
    ) -> (r: Vec<Value>)
        requires
            storage.wf(),
            self.indexes.wf(),
        ensures
            plan is CollectionScan ==> r@.len() == 0,
            forall|t: int| 0 <= t < r@.len() ==> is_live_hit(
                storage.recs(),
                self.name@,
                *parsed_query,
                (#[trigger] r@[t])@,
            ),
    {
        let doc_ids: Vec<DocumentId> = match plan {
            crate::planner::QueryPlan::IndexScan { index_name, key, .. } => {
                match self.indexes.get_btree_index(index_name.as_str()) {
                    Some(tree) => tree.range_scan(key, key, true, true),
                    None => Vec::new(),
                }
            }
            crate::planner::QueryPlan::IndexRangeScan {
                index_name,
                start,
                end,
                inclusive_start,
                inclusive_end,
                ..
            } => {
                match self.indexes.get_btree_index(index_name.as_str()) {
                    Some(tree) => {
                        let start_key = match start {
                            Some(k) => k.clone(),
                            None => IndexKey::Null,
                        };
                        let end_key = match end {
                            Some(k) => k.clone(),
                            None => max_string_key(),
                        };
                        tree.range_scan(&start_key, &end_key, *inclusive_start, *inclusive_end)
                    }
                    None => Vec::new(),
                }
            }
            crate::planner::QueryPlan::CollectionScan => Vec::new(),
        };
        let latest = scan_latest(storage, self.name.as_str());
        // keep the candidates' latest versions that still match
        proof {
            assert(latest_views(latest@) =~= latest_pairs(storage.recs(), self.name@));
        }
        let mut out: Vec<Value> = Vec::new();
        let mut i: usize = 0;
        while i < doc_ids.len()
            invariant
                storage.wf(),
                i <= doc_ids@.len(),
                plan is CollectionScan ==> doc_ids@.len() == 0,
                plan is CollectionScan ==> out@.len() == 0,
                forall|t: int| 0 <= t < latest@.len() ==> latest_doc(
                    storage.recs(),
                    self.name@,
                    (#[trigger] latest@[t]).0@,
                ) == Some(latest@[t].1@),
                forall|t: int| 0 <= t < out@.len() ==> is_live_hit(
                    storage.recs(),
                    self.name@,
                    *parsed_query,
                    (#[trigger] out@[t])@,
                ),
            decreases doc_ids@.len() - i,
        {
            let mut j: usize = 0;
            let n = latest.len();
            while j < n
                invariant
                    j <= n,
                    n == latest@.len(),
                    i < doc_ids@.len(),
                    !(plan is CollectionScan),
                    forall|t: int| 0 <= t < latest@.len() ==> latest_doc(
                        storage.recs(),
                        self.name@,
                        (#[trigger] latest@[t]).0@,
                    ) == Some(latest@[t].1@),
                    forall|t: int| 0 <= t < out@.len() ==> is_live_hit(
                        storage.recs(),
                        self.name@,
                        *parsed_query,
                        (#[trigger] out@[t])@,
                    ),
                decreases n - j,
            {
                if latest[j].0.eq_id(&doc_ids[i]) {
                    if !is_tombstone(&latest[j].1) {
                        let d = crate::aggregation::to_document(&latest[j].1);
                        let accepted = parsed_query.matches(&d);
                        proof {
                            crate::query::lemma_value_matches(
                                *parsed_query,
                                latest@[j as int].1@,
                                d,
                            );
                        }
                        if accepted {
                            out.push(latest[j].1.clone());
                            proof {
                                assert(latest_doc(
                                    storage.recs(),
                                    self.name@,
                                    latest@[j as int].0@,
                                ) == Some(out@.last()@));
                                assert(is_live_hit(
                                    storage.recs(),
                                    self.name@,
                                    *parsed_query,
                                    out@.last()@,
                                ));
                            }
                        }
                    }
                    break;
                }
                j = j + 1;
            }
            i = i + 1;
        }
        out
    }

    /// The first live document matching the query, in first-appearance
    /// order; `None` exactly when no live document matches.
    pub fn find_one(&self, storage: &StorageEngine, query_json: &Value) -> (r: Result<
        Option<Value>,
        MongoLiteError,
    >)
        requires
            storage.wf(),
            self.indexes.wf(),
        ensures
            r matches Err(e) ==> e is InvalidQuery,
            r matches Ok(f) ==> exists|q: Query|
                #[trigger] crate::query::query_parses_to(query_json@, q) && (match f {
                    Some(v) => matching_docs(storage.recs(), self.name@, q).len() > 0 && v@
                        == matching_docs(storage.recs(), self.name@, q)[0],
                    None => matching_docs(storage.recs(), self.name@, q).len() == 0,
                }),
    {
        let parsed = match Query::from_json(query_json) {
            Ok(q) => q,
            Err(e) => {
                return Err(e);
            }
        };
        let latest = scan_latest(storage, self.name.as_str());
        proof {
            assert(latest_views(latest@) =~= latest_pairs(storage.recs(), self.name@));
        }
        let mut matches = filter_documents(latest, &parsed);
        if matches.len() == 0 {
            Ok(None)
        } else {
            let first = matches.remove(0);
            proof {
                assert(first@ == matching_docs(storage.recs(), self.name@, parsed)[0]);
            }
            Ok(Some(first))
        }
    }

    /// How many live documents match the query: the number of latest
    /// non-tombstone versions the parsed query accepts.
    pub fn count_documents(&self, storage: &StorageEngine, query_json: &Value) -> (r: Result<
        u64,
        MongoLiteError,
    >)
        requires
            storage.wf(),
            self.indexes.wf(),
        ensures
            r matches Err(e) ==> e is InvalidQuery,
            r matches Ok(n) ==> exists|q: Query|
                #[trigger] crate::query::query_parses_to(query_json@, q) && n == matching_docs(
                    storage.recs(),
                    self.name@,
                    q,
                ).len(),
    {
        let parsed = match Query::from_json(query_json) {
            Ok(q) => q,
            Err(e) => {
                return Err(e);
            }
        };
        let latest = scan_latest(storage, self.name.as_str());
        proof {
            assert(latest_views(latest@) =~= latest_pairs(storage.recs(), self.name@));
        }
        let matches = filter_documents(latest, &parsed);
        Ok(matches.len() as u64)
    }

    /// Update the first live document matching the query with `$set`,
    /// `$inc` and `$unset` operators: a tombstone for the old version,
    /// then the new version, both appended. Returns how many documents
    /// matched and how many changed.
    pub fn update_one(
        &mut self,
        storage: &mut StorageEngine,
        query_json: &Value,
        update_json: &Value,
    ) -> (r: Result<(u64, u64), MongoLiteError>)
        requires
            old(storage).wf(),
            old(self).indexes.wf(),
        ensures
            final(storage).wf(),
            final(self).indexes.wf(),
            final(storage).wal == old(storage).wal,
            r matches Err(e) ==> e is InvalidQuery || e is Serialization,
            r matches Ok(p) ==> p.1 <= p.0 <= 1 && final(storage).recs().len() == old(storage).recs().len() + 2 * p.1 && final(storage).recs().subrange(
                0,
                old(storage).recs().len() as int,
            ) == old(storage).recs(),
            r matches Ok(p) ==> exists|q: Query|
                #[trigger] crate::query::query_parses_to(query_json@, q) && p.0 as int == (
                if matching_docs(old(storage).recs(), old(self).name@, q).len() <= 1 {
                    matching_docs(old(storage).recs(), old(self).name@, q).len() as int
                } else {
                    1int
                }),
    {
        self.update_upto(storage, query_json, update_json, 1)
    }

    /// Update every live document matching the query.
    pub fn update_many(
        &mut self,
        storage: &mut StorageEngine,
        query_json: &Value,
        update_json: &Value,
    ) -> (r: Result<(u64, u64), MongoLiteError>)
        requires
            old(storage).wf(),
            old(self).indexes.wf(),
        ensures
            final(storage).wf(),
            final(self).indexes.wf(),
            final(storage).wal == old(storage).wal,
            r matches Err(e) ==> e is InvalidQuery || e is Serialization,
            r matches Ok(p) ==> p.1 <= p.0 && final(storage).recs().len() == old(storage).recs().len() + 2 * p.1 && final(storage).recs().subrange(
                0,
                old(storage).recs().len() as int,
            ) == old(storage).recs(),
            r matches Ok(p) ==> exists|q: Query|
                #[trigger] crate::query::query_parses_to(query_json@, q) && p.0 as int == (
                if matching_docs(old(storage).recs(), old(self).name@, q).len()
                    <= u64::MAX as int {
                    matching_docs(old(storage).recs(), old(self).name@, q).len() as int
                } else {
                    u64::MAX as int
                }),
    {
        self.update_upto(storage, query_json, update_json, u64::MAX)
    }

    /// Update at most `limit` matching documents.
    fn update_upto(
        &mut self,
        storage: &mut StorageEngine,
        query_json: &Value,
        update_json: &Value,
        limit: u64,
    ) -> (r: Result<(u64, u64), MongoLiteError>)
        requires
            old(storage).wf(),
            old(self).indexes.wf(),
        ensures
            final(storage).wf(),
            final(self).indexes.wf(),
            final(storage).wal == old(storage).wal,
            r matches Err(e) ==> e is InvalidQuery || e is Serialization,
            r matches Ok(p) ==> {
                &&& p.1 <= p.0 <= limit
                &&& final(storage).recs().len() == old(storage).recs().len() + 2 * p.1
                &&& final(storage).recs().subrange(0, old(storage).recs().len() as int) == old(storage).recs()
                &&& exists|q: Query|
                    #[trigger] crate::query::query_parses_to(query_json@, q) && p.0 as int == (
                    if matching_docs(old(storage).recs(), old(self).name@, q).len()
                        <= limit as int {
                        matching_docs(old(storage).recs(), old(self).name@, q).len() as int
                    } else {
                        limit as int
                    })
            },
    {
        let parsed = match Query::from_json(query_json) {
            Ok(q) => q,
            Err(e) => {
                return Err(e);
            }
        };
        let latest = scan_latest(storage, self.name.as_str());
        let ghost lpairs = latest_views(latest@);
        proof {
            assert(storage.recs().subrange(0, old(storage).recs().len() as int) =~= old(storage).recs());
            assert(lpairs =~= latest_pairs(old(storage).recs(), old(self).name@));
        }
        let mut matched: u64 = 0;
        let mut modified: u64 = 0;
        let mut i: usize = 0;
        while i < latest.len()
            invariant
                i <= latest@.len(),
                storage.wf(),
                self.indexes.wf(),
                *self == *old(self),
                storage.wal == old(storage).wal,
                matched <= i,
                modified <= matched,
                matched <= limit,
                lpairs == latest_views(latest@),
                lpairs.len() == latest@.len(),
                matched as int == (if passing_views(
                    lpairs.subrange(0, i as int),
                    parsed,
                ).len() <= limit as int {
                    passing_views(lpairs.subrange(0, i as int), parsed).len() as int
                } else {
                    limit as int
                }),
                storage.recs().len() == old(storage).recs().len() + 2 * modified,
                storage.recs().subrange(0, old(storage).recs().len() as int) == old(storage).recs(),
            ensures
                storage.wf(),
                self.indexes.wf(),
                *self == *old(self),
                storage.wal == old(storage).wal,
                modified <= matched,
                matched <= limit,
                storage.recs().len() == old(storage).recs().len() + 2 * modified,
                storage.recs().subrange(0, old(storage).recs().len() as int) == old(
                    storage,
                ).recs(),
                matched as int == (if passing_views(
                    lpairs.subrange(0, lpairs.len() as int),
                    parsed,
                ).len() <= limit as int {
                    passing_views(lpairs.subrange(0, lpairs.len() as int), parsed).len() as int
                } else {
                    limit as int
                }),
            decreases latest@.len() - i,
        {
            if matched >= limit {
                proof {
                    lemma_passing_mono(lpairs, parsed, i as int, lpairs.len() as int);
                    assert(passing_views(lpairs.subrange(0, lpairs.len() as int), parsed).len()
                        >= limit);
                }
                break;
            }
            let ghost prepass = passing_views(lpairs.subrange(0, i as int), parsed);
            proof {
                assert(lpairs.subrange(0, i + 1).drop_last() =~= lpairs.subrange(0, i as int));
                assert(lpairs.subrange(0, i + 1).last() == lpairs[i as int]);
                assert(lpairs[i as int] == (latest@[i as int].0@, latest@[i as int].1@));
            }
            let doc_value = &latest[i].1;
            if !is_tombstone(doc_value) {
                let mut document = crate::aggregation::to_document(doc_value);
                let accepted = parsed.matches(&document);
                proof {
                    crate::query::lemma_value_matches(parsed, latest@[i as int].1@, document);
                    if accepted {
                        assert(passing_views(lpairs.subrange(0, i + 1), parsed)
                            =~= prepass.push(latest@[i as int].1@));
                    } else {
                        assert(passing_views(lpairs.subrange(0, i + 1), parsed) =~= prepass);
                    }
                }
                if accepted {
                    matched = matched + 1;
                    let was_modified = match apply_update_operators(
                        &mut document,
                        update_json,
                    ) {
                        Ok(m) => m,
                        Err(e) => {
                            return Err(e);
                        }
                    };
                    if was_modified {
                        // tombstone for the old version
                        let mut tomb = doc_value.clone();
                        match &mut tomb {
                            Value::Object(fields) => {
                                let mut d2 = crate::aggregation::to_document(doc_value);
                                d2.set(
                                    String::from_str("_tombstone"),
                                    Value::Bool(true),
                                );
                                d2.set(
                                    String::from_str("_collection"),
                                    Value::String(self.name.clone()),
                                );
                                tomb = document_to_value(&latest[i].0, &d2);
                            }
                            _ => {}
                        }
                        let tomb_bytes = crate::value::encode_value(&tomb);
                        match storage.write_data(tomb_bytes.as_slice()) {
                            Ok(_) => {}
                            Err(e) => {
                                return Err(e);
                            }
                        }
                        // the new version
                        document.set(
                            String::from_str("_collection"),
                            Value::String(self.name.clone()),
                        );
                        let newdoc = document_to_value(&latest[i].0, &document);
                        let new_bytes = crate::value::encode_value(&newdoc);
                        match storage.write_data(new_bytes.as_slice()) {
                            Ok(_) => {}
                            Err(e) => {
                                return Err(e);
                            }
                        }
                        proof {
                            assert(storage.recs().subrange(0, old(storage).recs().len() as int)
                                =~= old(storage).recs());
                        }
                        modified = modified + 1;
                    }
                }
            } else {
                proof {
                    assert(passing_views(lpairs.subrange(0, i + 1), parsed) =~= prepass);
                }
            }
            i = i + 1;
        }
        proof {
            assert(lpairs.subrange(0, lpairs.len() as int) =~= lpairs);
            assert(matching_docs(old(storage).recs(), old(self).name@, parsed) == passing_views(
                lpairs,
                parsed,
            ));
        }
        Ok((matched, modified))
    }

    /// Delete the first live document matching the query by appending a
    /// tombstone; returns how many were deleted.
    pub fn delete_one(&mut self, storage: &mut StorageEngine, query_json: &Value) -> (r: Result<
        u64,
        MongoLiteError,
    >)
        requires
            old(storage).wf(),
            old(self).indexes.wf(),
        ensures
            final(storage).wf(),
            final(self).indexes.wf(),
            final(storage).wal == old(storage).wal,
            final(self).name@ == old(self).name@,
            r matches Err(e) ==> e is InvalidQuery || e is Serialization,
            r matches Ok(n) ==> exists|q: Query|
                #[trigger] crate::query::query_parses_to(query_json@, q) && n as int == (
                if matching_docs(old(storage).recs(), old(self).name@, q).len() <= 1 {
                    matching_docs(old(storage).recs(), old(self).name@, q).len() as int
                } else {
                    1int
                }),
            r matches Ok(n) ==> n <= 1 && final(storage).recs().len() == old(storage).recs().len() + n && final(storage).recs().subrange(
                0,
                old(storage).recs().len() as int,
            ) == old(storage).recs() && (forall|k: int|
                old(storage).recs().len() <= k < final(storage).recs().len()
                    ==> is_tombstone_record(#[trigger] final(storage).recs()[k], old(self).name@)),
    {
        self.delete_upto(storage, query_json, 1)
    }

    /// Delete every live document matching the query.
    pub fn delete_many(&mut self, storage: &mut StorageEngine, query_json: &Value) -> (r: Result<
        u64,
        MongoLiteError,
    >)
        requires
            old(storage).wf(),
            old(self).indexes.wf(),
        ensures
            final(storage).wf(),
            final(self).indexes.wf(),
            final(storage).wal == old(storage).wal,
            final(self).name@ == old(self).name@,
            r matches Err(e) ==> e is InvalidQuery || e is Serialization,
            r matches Ok(n) ==> exists|q: Query|
                #[trigger] crate::query::query_parses_to(query_json@, q) && n as int == (
                if matching_docs(old(storage).recs(), old(self).name@, q).len()
                    <= u64::MAX as int {
                    matching_docs(old(storage).recs(), old(self).name@, q).len() as int
                } else {
                    u64::MAX as int
                }),
            r matches Ok(n) ==> final(storage).recs().len() == old(storage).recs().len() + n
                && final(storage).recs().subrange(0, old(storage).recs().len() as int) == old(storage).recs() && (forall|k: int|
                old(storage).recs().len() <= k < final(storage).recs().len()
                    ==> is_tombstone_record(#[trigger] final(storage).recs()[k], old(self).name@)),
    {
        self.delete_upto(storage, query_json, u64::MAX)
    }

    /// Delete at most `limit` matching documents.
    fn delete_upto(
        &mut self,
        storage: &mut StorageEngine,
        query_json: &Value,
        limit: u64,
    ) -> (r: Result<u64, MongoLiteError>)
        requires
            old(storage).wf(),
            old(self).indexes.wf(),
        ensures
            final(storage).wf(),
            final(self).indexes.wf(),
            final(storage).wal == old(storage).wal,
            final(self).name@ == old(self).name@,
            r matches Err(e) ==> e is InvalidQuery || e is Serialization,
            r matches Ok(n) ==> {
                &&& n <= limit
                &&& final(storage).recs().len() == old(storage).recs().len() + n
                &&& final(storage).recs().subrange(0, old(storage).recs().len() as int) == old(storage).recs()
                &&& (forall|k: int|
                old(storage).recs().len() <= k < final(storage).recs().len()
                    ==> is_tombstone_record(#[trigger] final(storage).recs()[k], old(self).name@))
                &&& exists|q: Query|
                    #[trigger] crate::query::query_parses_to(query_json@, q) && n as int == (
                    if matching_docs(old(storage).recs(), old(self).name@, q).len()
                        <= limit as int {
                        matching_docs(old(storage).recs(), old(self).name@, q).len() as int
                    } else {
                        limit as int
                    })
            },
    {
        let parsed = match Query::from_json(query_json) {
            Ok(q) => q,
            Err(e) => {
                return Err(e);
            }
        };
        let latest = scan_latest(storage, self.name.as_str());
        let ghost lpairs = latest_views(latest@);
        proof {
            assert(storage.recs().subrange(0, old(storage).recs().len() as int) =~= old(storage).recs());
            assert(lpairs =~= latest_pairs(old(storage).recs(), old(self).name@));
        }
        let mut deleted: u64 = 0;
        let mut i: usize = 0;
        while i < latest.len()
            invariant
                i <= latest@.len(),
                storage.wf(),
                self.indexes.wf(),
                *self == *old(self),
                storage.wal == old(storage).wal,
                deleted <= i,
                deleted <= limit,
                lpairs == latest_views(latest@),
                lpairs.len() == latest@.len(),
                deleted as int == (if passing_views(
                    lpairs.subrange(0, i as int),
                    parsed,
                ).len() <= limit as int {
                    passing_views(lpairs.subrange(0, i as int), parsed).len() as int
                } else {
                    limit as int
                }),
                deleted == limit ==> passing_views(lpairs.subrange(0, i as int), parsed).len()
                    >= limit,
                storage.recs().len() == old(storage).recs().len() + deleted,
                storage.recs().subrange(0, old(storage).recs().len() as int) == old(storage).recs(),
                (forall|k: int|
                old(storage).recs().len() <= k < storage.recs().len()
                    ==> is_tombstone_record(#[trigger] storage.recs()[k], old(self).name@)),
            ensures
                lpairs == latest_views(latest@),
                storage.wf(),
                self.indexes.wf(),
                *self == *old(self),
                storage.wal == old(storage).wal,
                deleted <= limit,
                storage.recs().len() == old(storage).recs().len() + deleted,
                storage.recs().subrange(0, old(storage).recs().len() as int) == old(
                    storage,
                ).recs(),
                forall|k: int|
                    old(storage).recs().len() <= k < storage.recs().len() ==> is_tombstone_record(
                        #[trigger] storage.recs()[k],
                        old(self).name@,
                    ),
                deleted as int == (if passing_views(
                    lpairs.subrange(0, lpairs.len() as int),
                    parsed,
                ).len() <= limit as int {
                    passing_views(lpairs.subrange(0, lpairs.len() as int), parsed).len() as int
                } else {
                    limit as int
                }),
            decreases latest@.len() - i,
        {
            if deleted >= limit {
                proof {
                    lemma_passing_mono(lpairs, parsed, i as int, lpairs.len() as int);
                    assert(passing_views(lpairs.subrange(0, lpairs.len() as int), parsed).len()
                        >= limit);
                }
                break;
            }
            let ghost prepass = passing_views(lpairs.subrange(0, i as int), parsed);
            proof {
                assert(lpairs.subrange(0, i + 1).drop_last() =~= lpairs.subrange(0, i as int));
                assert(lpairs.subrange(0, i + 1).last() == lpairs[i as int]);
                assert(lpairs[i as int] == (latest@[i as int].0@, latest@[i as int].1@));
            }
            if !is_tombstone(&latest[i].1) {
                let d = crate::aggregation::to_document(&latest[i].1);
                let accepted = parsed.matches(&d);
                proof {
                    crate::query::lemma_value_matches(parsed, latest@[i as int].1@, d);
                }
                if accepted {
                    let tomb = tombstone_for(&latest[i].0, self.name.as_str());
                    let bytes = crate::value::encode_value(&tomb);
                    let ghost prerecs = storage.recs();
                    match storage.write_data(bytes.as_slice()) {
                        Ok(_) => {}
                        Err(e) => {
                            return Err(e);
                        }
                    }
                    proof {
                        assert(storage.recs() == prerecs.push(
                            crate::value::spec_enc(
                                crate::storage::tombstone_value(
                                    old(self).name@,
                                    latest@[i as int].0@,
                                ),
                            ),
                        ));
                        assert(is_tombstone_record(
                            storage.recs()[storage.recs().len() - 1],
                            old(self).name@,
                        ));
                        assert(storage.recs().subrange(0, old(storage).recs().len() as int)
                            =~= old(storage).recs());
                        assert(passing_views(lpairs.subrange(0, i + 1), parsed)
                            =~= prepass.push(latest@[i as int].1@));
                    }
                    deleted = deleted + 1;
                } else {
                    proof {
                        assert(passing_views(lpairs.subrange(0, i + 1), parsed) =~= prepass);
                    }
                }
            } else {
                proof {
                    assert(passing_views(lpairs.subrange(0, i + 1), parsed) =~= prepass);
                }
            }
            i = i + 1;
        }
        proof {
            assert(lpairs.subrange(0, lpairs.len() as int) =~= lpairs);
            assert(matching_docs(old(storage).recs(), old(self).name@, parsed) == passing_views(
                lpairs,
                parsed,
            ));
        }
        Ok(deleted)
    }

    /// The distinct values of one field among matching live documents, in
    /// first-appearance order.
    pub fn distinct(
        &self,
        storage: &StorageEngine,
        field: &str,
        query_json: &Value,
    ) -> (r: Result<Vec<Value>, MongoLiteError>)
        requires
            storage.wf(),
            self.indexes.wf(),
        ensures
            r matches Err(e) ==> e is InvalidQuery,
            r matches Ok(vals) ==> exists|q: Query|
                #[trigger] crate::query::query_parses_to(query_json@, q) && Seq::new(
                    vals@.len(),
                    |k: int| vals@[k]@,
                ) == distinct_vals(
                    matching_docs(storage.recs(), self.name@, q),
                    field@,
                    matching_docs(storage.recs(), self.name@, q).len() as int,
                ),
    {
        let parsed = match Query::from_json(query_json) {
            Ok(q) => q,
            Err(e) => {
                return Err(e);
            }
        };
        let latest = scan_latest(storage, self.name.as_str());
        proof {
            assert(latest_views(latest@) =~= latest_pairs(storage.recs(), self.name@));
        }
        let matches = filter_documents(latest, &parsed);
        let ghost mdocs = matching_docs(storage.recs(), self.name@, parsed);
        proof {
            assert(Seq::new(matches@.len(), |k: int| matches@[k]@) == mdocs);
        }
        let mut out: Vec<Value> = Vec::new();
        let mut i: usize = 0;
        while i < matches.len()
            invariant
                i <= matches@.len(),
                mdocs == matching_docs(storage.recs(), self.name@, parsed),
                Seq::new(matches@.len(), |k: int| matches@[k]@) == mdocs,
                mdocs.len() == matches@.len(),
                Seq::new(out@.len(), |k: int| out@[k]@) == distinct_vals(
                    mdocs,
                    field@,
                    i as int,
                ),
            decreases matches@.len() - i,
        {
            proof {
                assert(matches@[i as int]@ == mdocs[i as int]);
            }
            match matches[i].get_field(field) {
                Some(v) => {
                    let ghost pre = distinct_vals(mdocs, field@, i as int);
                    let mut seen = false;
                    let mut j: usize = 0;
                    while j < out.len()
                        invariant
                            j <= out@.len(),
                            Seq::new(out@.len(), |k: int| out@[k]@) == pre,
                            !seen ==> forall|k: int| 0 <= k < j ==> (#[trigger] out@[k])@ != v@,
                            seen ==> pre.contains(v@),
                        ensures
                            Seq::new(out@.len(), |k: int| out@[k]@) == pre,
                            seen == pre.contains(v@),
                        decreases out@.len() - j,
                    {
                        if out[j].eq_value(v) {
                            seen = true;
                            proof {
                                assert(pre[j as int] == out@[j as int]@);
                            }
                            break;
                        }
                        j = j + 1;
                    }
                    proof {
                        if !seen {
                            if pre.contains(v@) {
                                let k = choose|k: int| 0 <= k < pre.len() && pre[k] == v@;
                                assert(out@[k]@ == v@);
                            }
                        }
                    }
                    if !seen {
                        let ghost preout = out@;
                        out.push(v.clone());
                        proof {
                            assert(Seq::new(out@.len(), |k: int| out@[k]@) =~= Seq::new(
                                preout.len(),
                                |k: int| preout[k]@,
                            ).push(v@));
                            assert(Seq::new(out@.len(), |k: int| out@[k]@) =~= distinct_vals(
                                mdocs,
                                field@,
                                i + 1,
                            ));
                        }
                    } else {
                        proof {
                            assert(Seq::new(out@.len(), |k: int| out@[k]@) =~= distinct_vals(
                                mdocs,
                                field@,
                                i + 1,
                            ));
                        }
                    }
                }
                None => {
                    proof {
                        assert(Seq::new(out@.len(), |k: int| out@[k]@) =~= distinct_vals(
                            mdocs,
                            field@,
                            i + 1,
                        ));
                    }
                }
            }
            i = i + 1;
        }
        Ok(out)
    }

    /// Describe the plan a query would use.
    pub fn explain(&self, query_json: &Value) -> (r: Value)
        ensures
            r@ is Object,
    {
        let available = self.indexes.list_indexes();
        crate::planner::QueryPlanner::explain_query(query_json, &available)
    }

    /// Run a query through a named index; the index must exist and the
    /// query must touch its field.
    pub fn find_with_hint(
        &self,
        storage: &StorageEngine,
        query_json: &Value,
        hint: &str,
    ) -> (r: Result<Vec<Value>, MongoLiteError>)
        requires
            storage.wf(),
            self.indexes.wf(),
        ensures
            r matches Err(e) ==> e is InvalidQuery || e is IndexError,
            ((forall|i: int| 0 <= i < self.indexes.btree_indexes@.len()
                ==> (#[trigger] self.indexes.btree_indexes@[i]).0@ != hint@) && !(r matches Err(
                e,
            ) && e is InvalidQuery)) ==> (r matches Err(e2) && e2 is IndexError),
            r matches Ok(docs) ==> (exists|i: int|
                0 <= i < self.indexes.btree_indexes@.len() && (
                #[trigger] self.indexes.btree_indexes@[i]).0@ == hint@) && (exists|q: Query|
                #[trigger] crate::query::query_parses_to(query_json@, q) && (forall|t: int|
                    0 <= t < docs@.len() ==> is_live_hit(
                        storage.recs(),
                        self.name@,
                        q,
                        (#[trigger] docs@[t])@,
                    ))),
    {
        let parsed = match Query::from_json(query_json) {
            Ok(q) => q,
            Err(e) => {
                return Err(e);
            }
        };
        match self.indexes.get_btree_index(hint) {
            Some(_) => {}
            None => {
                return Err(MongoLiteError::IndexError(String::new()));
            }
        }
        let field = self.extract_field_from_index_name(hint);
        let plan = match self.create_plan_for_hint(query_json, hint, field.as_str()) {
            Ok(p) => p,
            Err(e) => {
                return Err(e);
            }
        };
        Ok(self.find_with_index(storage, &parsed, &plan))
    }

    /// The field an index of this collection serves: its name without the
    /// collection prefix and underscore.
    pub fn extract_field_from_index_name(&self, index_name: &str) -> (r: String) {
        let ib = index_name.as_bytes();
        let nb = self.name.as_str().as_bytes();
        if ib.len() >= 2 && nb.len() <= ib.len() - 2 {
            let prefix = vstd::slice::slice_subrange(ib, 0, nb.len());
            let sep = *vstd::slice::slice_index_get(ib, nb.len());
            if crate::value::bytes_eq(prefix, nb) && sep == 0x5f {
                let tail = vstd::slice::slice_to_vec(
                    vstd::slice::slice_subrange(ib, nb.len() + 1, ib.len()),
                );
                match crate::value::string_from_utf8(tail) {
                    Some(s) => {
                        return s;
                    }
                    None => {}
                }
            }
        }
        String::from_str(index_name)
    }

    /// Build the plan a hint forces: a range scan when the hinted field
    /// carries range operators, an equality scan when it carries a value,
    /// an error when the query does not touch the field.
    pub fn create_plan_for_hint(
        &self,
        query_json: &Value,
        index_name: &str,
        field: &str,
    ) -> (r: Result<crate::planner::QueryPlan, MongoLiteError>)
        ensures
            r matches Err(e) ==> e is IndexError,
    {
        let fv = match query_json.get_field(field) {
            Some(v) => v,
            None => {
                return Err(MongoLiteError::IndexError(String::new()));
            }
        };
        match fv {
            Value::Object(conds) => {
                let gt = get_cond_value(conds, "$gt");
                let gte = get_cond_value(conds, "$gte");
                let lt = get_cond_value(conds, "$lt");
                let lte = get_cond_value(conds, "$lte");
                let has_gt = gt.is_some();
                let has_gte = gte.is_some();
                let has_lt = lt.is_some();
                let has_lte = lte.is_some();
                if has_gt || has_gte || has_lt || has_lte {
                    let start = match gte {
                        Some(v) => Some(IndexKey::from_value(v)),
                        None => match gt {
                            Some(v) => Some(IndexKey::from_value(v)),
                            None => None,
                        },
                    };
                    let end = match lte {
                        Some(v) => Some(IndexKey::from_value(v)),
                        None => match lt {
                            Some(v) => Some(IndexKey::from_value(v)),
                            None => None,
                        },
                    };
                    Ok(
                        crate::planner::QueryPlan::IndexRangeScan {
                            index_name: String::from_str(index_name),
                            field: String::from_str(field),
                            start,
                            end,
                            inclusive_start: has_gte || (!has_gt && !has_gte),
                            inclusive_end: has_lte || (!has_lt && !has_lte),
                        },
                    )
                } else {
                    Ok(
                        crate::planner::QueryPlan::IndexScan {
                            index_name: String::from_str(index_name),
                            field: String::from_str(field),
                            key: IndexKey::from_value(fv),
                        },
                    )
                }
            }
            _ => Ok(
                crate::planner::QueryPlan::IndexScan {
                    index_name: String::from_str(index_name),
                    field: String::from_str(field),
                    key: IndexKey::from_value(fv),
                },
            ),
        }
    }

    /// Run an aggregation pipeline over the matching documents.
    pub fn aggregate(&self, storage: &StorageEngine, pipeline_json: &Value) -> (r: Result<
        Vec<Value>,
        MongoLiteError,
    >)
        requires
            storage.wf(),
            self.indexes.wf(),
        ensures
            r matches Err(e) ==> e is AggregationError || e is InvalidQuery,
    {
        let pipeline = match crate::aggregation::Pipeline::from_json(pipeline_json) {
            Ok(p) => p,
            Err(e) => {
                return Err(e);
            }
        };
        let empty_query = Value::Object(Vec::new());
        let docs = match self.find(storage, &empty_query) {
            Ok(d) => d,
            Err(_) => {
                return Err(MongoLiteError::AggregationError(String::new()));
            }
        };
        pipeline.execute(docs)
    }

    /// Create a tree index over one field; the index is filled by later
    /// writes.
    /// Create a tree index named `<collection>_<field>` over the field; a
    /// name already in use is refused with `IndexError`, and nothing
    /// changes.
    pub fn create_index(&mut self, field: &str, unique: bool) -> (r: Result<
        String,
        MongoLiteError,
    >)
        requires
            old(self).indexes.wf(),
        ensures
            final(self).indexes.wf(),
            final(self).name@ == old(self).name@,
            match r {
                Ok(ix) => {
                    &&& ix@ == old(self).name@ + "_"@ + field@
                    &&& final(self).indexes.btree_indexes@.len() == old(self).indexes.btree_indexes@.len() + 1
                    &&& final(self).indexes.btree_indexes@.last().0@ == ix@
                    &&& final(self).indexes.btree_indexes@.last().1.metadata.field@ == field@
                    &&& final(self).indexes.btree_indexes@.last().1.metadata.unique == unique
                    &&& final(self).indexes.btree_indexes@.last().1.entries() == Seq::<
                        crate::btree::EntryV,
                    >::empty()
                }
                Err(e) => {
                    &&& e is IndexError
                    &&& final(self).indexes == old(self).indexes
                    &&& exists|i: int|
                        0 <= i < old(self).indexes.btree_indexes@.len() && (#[trigger] old(self).indexes.btree_indexes@[i]).0@ == old(self).name@ + "_"@ + field@
                },
            },
    {
        let mut index_name = self.name.clone();
        index_name.append("_");
        index_name.append(field);
        match self.indexes.create_btree_index(
            index_name.clone(),
            String::from_str(field),
            unique,
        ) {
            Ok(()) => Ok(index_name),
            Err(e) => Err(e),
        }
    }

    /// Drop an index by name: the named entry leaves the manager; an
    /// unknown name is refused with `IndexError`, and nothing changes.
    pub fn drop_index(&mut self, index_name: &str) -> (r: Result<(), MongoLiteError>)
        requires
            old(self).indexes.wf(),
        ensures
            final(self).indexes.wf(),
            final(self).name@ == old(self).name@,
            match r {
                Ok(()) => (exists|i: int|
                    0 <= i < old(self).indexes.btree_indexes@.len() && (#[trigger] old(self).indexes.btree_indexes@[i]).0@ == index_name@ && final(self).indexes.btree_indexes@ == old(self).indexes.btree_indexes@.remove(i)) || (
                exists|i: int|
                    0 <= i < old(self).indexes.legacy_indexes@.len() && (#[trigger] old(self).indexes.legacy_indexes@[i]).0@ == index_name@ && final(self).indexes.legacy_indexes@ == old(self).indexes.legacy_indexes@.remove(i)),
                Err(e) => {
                    &&& e is IndexError
                    &&& final(self).indexes == old(self).indexes
                    &&& forall|i: int| 0 <= i < old(self).indexes.btree_indexes@.len()
                        ==> (#[trigger] old(self).indexes.btree_indexes@[i]).0@ != index_name@
                    &&& forall|i: int| 0 <= i < old(self).indexes.legacy_indexes@.len()
                        ==> (#[trigger] old(self).indexes.legacy_indexes@[i]).0@ != index_name@
                },
            },
    {
        self.indexes.drop_index(index_name)
    }

    /// Every index name of this collection.
    pub fn list_indexes(&self) -> (r: Vec<String>) {
        self.indexes.list_indexes()
    }

    /// Buffer an insert into a transaction: the id is assigned now, the
    /// record is written when the transaction commits.
    pub fn insert_one_tx(
        &mut self,
        storage: &mut StorageEngine,
        fields: Vec<(String, Value)>,
        tx: &mut crate::transaction::Transaction,
    ) -> (r: Result<DocumentId, MongoLiteError>)
        requires
            old(storage).wf(),
        ensures
            final(storage).wf(),
            final(storage).recs() == old(storage).recs(),
            final(storage).wal == old(storage).wal,
            match r {
                Ok(id) => {
                    &&& old(tx).spec_state() == crate::transaction::TransactionState::Active
                    &&& final(tx).spec_state() == old(tx).spec_state()
                    &&& final(tx).spec_operations().len() == old(tx).spec_operations().len() + 1
                    &&& forall|i: int| 0 <= i < old(tx).spec_operations().len()
                        ==> #[trigger] final(tx).spec_operations()[i] == old(tx).spec_operations()[i]
                    &&& (final(tx).spec_operations().last() matches
                        crate::transaction::Operation::Insert {
                        collection,
                        doc_id,
                        doc,
                    } && collection@ == old(self).name@ && doc_id@ == id@ && doc@
                        == insert_doc_value(old(self).name@, id@, fields@))
                }
                Err(e) => {
                    &&& e is CollectionNotFound || e is Unknown || e is TransactionCommitted
                    &&& (e is CollectionNotFound <==> forall|i: int|
                        0 <= i < old(storage).collections@.len() ==> (#[trigger] old(storage).collections@[i]).name@ != old(self).name@)
                    &&& e is TransactionCommitted ==> old(tx).spec_state()
                        != crate::transaction::TransactionState::Active
                    &&& final(tx).spec_operations() == old(tx).spec_operations()
                },
            },
    {
        let meta_last = match storage.get_collection_meta(self.name.as_str()) {
            Some(m) => m.last_id,
            None => {
                return Err(MongoLiteError::CollectionNotFound(String::new()));
            }
        };
        if meta_last >= 0x7fff_ffff_ffff_ffff {
            return Err(MongoLiteError::Unknown(String::new()));
        }
        let doc_id = DocumentId::new_auto(meta_last);
        storage.set_last_id(self.name.as_str(), meta_last + 1);
        let ghost fv = fields@;
        let mut obj: Vec<(String, Value)> = Vec::new();
        obj.push((String::from_str("_id"), id_field(&doc_id)));
        obj.push((String::from_str("_collection"), Value::String(self.name.clone())));
        let ghost head = obj@;
        proof {
            assert(head.len() == 2);
            assert(obj@ =~= head + fv.subrange(0, 0));
        }
        let mut rest = fields;
        while rest.len() > 0
            invariant
                storage.wf(),
                storage.recs() == old(storage).recs(),
                storage.wal == old(storage).wal,
                rest@.len() <= fv.len(),
                head.len() == 2,
                head[0].0@ == "_id"@,
                head[0].1@ == crate::storage::id_field_value(doc_id@),
                head[1].0@ == "_collection"@,
                head[1].1@ == ValueV::String(old(self).name@),
                obj@ == head + fv.subrange(0, fv.len() - rest@.len()),
                rest@ == fv.subrange(fv.len() - rest@.len(), fv.len() as int),
                *self == *old(self),
                *tx == *old(tx),
            decreases rest@.len(),
        {
            let ghost done = fv.len() - rest@.len();
            let ghost prerest = rest@;
            let p = rest.remove(0);
            proof {
                assert(prerest[0] == fv[done as int]);
            }
            obj.push(p);
            proof {
                assert(obj@ =~= head + fv.subrange(0, done + 1));
                assert(rest@ =~= fv.subrange(done + 1, fv.len() as int));
            }
        }
        let ghost objv = obj@;
        let doc = Value::Object(obj);
        proof {
            broadcast use crate::value::group_value_views;

            assert(objv =~= head + fv);
            assert(crate::value::fields_view(objv, objv.len() as int) =~= seq![
                ("_id"@, crate::storage::id_field_value(doc_id@)),
                ("_collection"@, ValueV::String(old(self).name@)),
            ] + crate::value::fields_view(fv, fv.len() as int));
            assert(doc@ == insert_doc_value(old(self).name@, doc_id@, fv));
        }
        match tx.add_operation(
            crate::transaction::Operation::Insert {
                collection: self.name.clone(),
                doc_id: doc_id.clone(),
                doc,
            },
        ) {
            Ok(()) => Ok(doc_id),
            Err(e) => Err(e),
        }
    }

    /// Buffer a whole-document replacement into a transaction.
    pub fn update_one_tx(
        &self,
        storage: &StorageEngine,
        query_json: &Value,
        new_doc: Value,
        tx: &mut crate::transaction::Transaction,
    ) -> (r: Result<(u64, u64), MongoLiteError>)
        requires
            storage.wf(),
            self.indexes.wf(),
        ensures
            match r {
                Ok(p) => (p == (0u64, 0u64) && *final(tx) == *old(tx) && (exists|q: Query|
                    #[trigger] crate::query::query_parses_to(query_json@, q) && matching_docs(
                        storage.recs(),
                        self.name@,
                        q,
                    ).len() == 0)) || (p == (1u64, 1u64) && (exists|q: Query|
                    #[trigger] crate::query::query_parses_to(query_json@, q) && matching_docs(
                        storage.recs(),
                        self.name@,
                        q,
                    ).len() > 0)
                    && old(tx).spec_state() == crate::transaction::TransactionState::Active
                    && final(tx).spec_state() == old(tx).spec_state() && final(tx).spec_operations().len() == old(tx).spec_operations().len() + 1 && (forall|i: int|
                    0 <= i < old(tx).spec_operations().len() ==> #[trigger] final(tx).spec_operations()[i] == old(tx).spec_operations()[i]) && (final(tx).spec_operations().last() matches crate::transaction::Operation::Update {
                    collection,
                    ..
                } && collection@ == self.name@)),
                Err(e) => {
                    &&& e is InvalidQuery || e is Serialization || e is TransactionCommitted
                        || e is DocumentNotFound
                    &&& e is TransactionCommitted ==> old(tx).spec_state()
                        != crate::transaction::TransactionState::Active
                    &&& final(tx).spec_operations() == old(tx).spec_operations()
                },
            },
    {
        let found = match self.find_one(storage, query_json) {
            Ok(f) => f,
            Err(e) => {
                return Err(e);
            }
        };
        let old_doc = match found {
            Some(d) => d,
            None => {
                return Ok((0, 0));
            }
        };
        let id_value = match old_doc.get_field("_id") {
            Some(v) => v,
            None => {
                return Err(MongoLiteError::DocumentNotFound);
            }
        };
        let doc_id = match id_value {
            Value::Int(i) => DocumentId::Int(*i),
            Value::String(s) => DocumentId::String(s.clone()),
            _ => {
                return Err(MongoLiteError::Serialization(String::new()));
            }
        };
        let fields = match new_doc {
            Value::Object(fields) => fields,
            _ => {
                return Err(MongoLiteError::Serialization(String::new()));
            }
        };
        // carry the id and owning collection on the new version
        let mut d = Document::new(doc_id.clone(), fields);
        d.set(String::from_str("_collection"), Value::String(self.name.clone()));
        let new_with_meta = document_to_value(&doc_id, &d);
        match tx.add_operation(
            crate::transaction::Operation::Update {
                collection: self.name.clone(),
                doc_id,
                old_doc,
                new_doc: new_with_meta,
            },
        ) {
            Ok(()) => Ok((1, 1)),
            Err(e) => Err(e),
        }
    }

    /// Buffer a deletion into a transaction.
    pub fn delete_one_tx(
        &self,
        storage: &StorageEngine,
        query_json: &Value,
        tx: &mut crate::transaction::Transaction,
    ) -> (r: Result<u64, MongoLiteError>)
        requires
            storage.wf(),
            self.indexes.wf(),
        ensures
            match r {
                Ok(n) => (n == 0 && *final(tx) == *old(tx) && (exists|q: Query|
                    #[trigger] crate::query::query_parses_to(query_json@, q) && matching_docs(
                        storage.recs(),
                        self.name@,
                        q,
                    ).len() == 0)) || (n == 1 && (exists|q: Query|
                    #[trigger] crate::query::query_parses_to(query_json@, q) && matching_docs(
                        storage.recs(),
                        self.name@,
                        q,
                    ).len() > 0) && old(tx).spec_state()
                    == crate::transaction::TransactionState::Active && final(tx).spec_state()
                    == old(tx).spec_state() && final(tx).spec_operations().len() == old(tx).spec_operations().len() + 1 && (forall|i: int|
                    0 <= i < old(tx).spec_operations().len() ==> #[trigger] final(tx).spec_operations()[i] == old(tx).spec_operations()[i]) && (final(tx).spec_operations().last() matches crate::transaction::Operation::Delete {
                    collection,
                    ..
                } && collection@ == self.name@)),
                Err(e) => {
                    &&& e is InvalidQuery || e is Serialization || e is TransactionCommitted
                        || e is DocumentNotFound
                    &&& e is TransactionCommitted ==> old(tx).spec_state()
                        != crate::transaction::TransactionState::Active
                    &&& final(tx).spec_operations() == old(tx).spec_operations()
                },
            },
    {
        let found = match self.find_one(storage, query_json) {
            Ok(f) => f,
            Err(e) => {
                return Err(e);
            }
        };
        let old_doc = match found {
            Some(d) => d,
            None => {
                return Ok(0);
            }
        };
        let id_value = match old_doc.get_field("_id") {
            Some(v) => v,
            None => {
                return Err(MongoLiteError::DocumentNotFound);
            }
        };
        let doc_id = match id_value {
            Value::Int(i) => DocumentId::Int(*i),
            Value::String(s) => DocumentId::String(s.clone()),
            _ => {
                return Err(MongoLiteError::Serialization(String::new()));
            }
        };
        match tx.add_operation(
            crate::transaction::Operation::Delete {
                collection: self.name.clone(),
                doc_id,
                old_doc,
            },
        ) {
            Ok(()) => Ok(1),
            Err(e) => Err(e),
        }
    }
}

/// The live documents among the latest versions that the query accepts.
/// The values of the pairs that pass the matcher and are not tombstones,
/// in order.
pub open spec fn passing_views(pairs: Seq<(DocumentIdV, ValueV)>, q: Query) -> Seq<ValueV>
    decreases pairs.len(),
{
    if pairs.len() == 0 {
        Seq::empty()
    } else {
        passing_views(pairs.drop_last(), q) + (if !crate::storage::spec_is_tombstone(
            pairs.last().1,
        ) && crate::query::value_matches(q, pairs.last().1) {
            seq![pairs.last().1]
        } else {
            Seq::<ValueV>::empty()
        })
    }
}

/// Model of a latest-version pair list.
pub open spec fn latest_views(latest: Seq<(DocumentId, Value)>) -> Seq<(DocumentIdV, ValueV)> {
    Seq::new(latest.len(), |i: int| (latest[i].0@, latest[i].1@))
}

/// The collection's latest-version pairs: one per id named by a record,
/// in first-appearance order, carrying the last value written for it.
pub open spec fn latest_pairs(records: Seq<Seq<u8>>, coll: Seq<char>) -> Seq<
    (DocumentIdV, ValueV),
> {
    Seq::new(
        ids_upto(records, coll, records.len() as int).len(),
        |i: int|
            (
                ids_upto(records, coll, records.len() as int)[i],
                latest_doc(
                    records,
                    coll,
                    ids_upto(records, coll, records.len() as int)[i],
                )->Some_0,
            ),
    )
}

/// The value is a live hit: the latest version of some id, no tombstone,
/// accepted by the parsed query.
pub open spec fn is_live_hit(records: Seq<Seq<u8>>, coll: Seq<char>, q: Query, v: ValueV) -> bool {
    exists|id: DocumentIdV|
        #[trigger] latest_doc(records, coll, id) == Some(v) && !crate::storage::spec_is_tombstone(
            v,
        ) && crate::query::value_matches(q, v)
}

/// More pairs can only add passing documents.
proof fn lemma_passing_mono(pairs: Seq<(DocumentIdV, ValueV)>, q: Query, a: int, b: int)
    requires
        0 <= a <= b <= pairs.len(),
    ensures
        passing_views(pairs.subrange(0, a), q).len() <= passing_views(
            pairs.subrange(0, b),
            q,
        ).len(),
    decreases b - a,
{
    if a < b {
        lemma_passing_mono(pairs, q, a, b - 1);
        assert(pairs.subrange(0, b).drop_last() =~= pairs.subrange(0, b - 1));
        assert(pairs.subrange(0, b).last() == pairs[b - 1]);
    }
}

/// The live documents of the collection the parsed query accepts: the
/// latest versions, tombstones out, in first-appearance order.
pub open spec fn matching_docs(records: Seq<Seq<u8>>, coll: Seq<char>, q: Query) -> Seq<ValueV> {
    passing_views(latest_pairs(records, coll), q)
}

/// The distinct values of one field over the first `j` documents, in
/// first-appearance order.
pub open spec fn distinct_vals(docs: Seq<ValueV>, field: Seq<char>, j: int) -> Seq<ValueV>
    decreases j,
{
    if 0 < j <= docs.len() {
        let pre = distinct_vals(docs, field, j - 1);
        match crate::value::value_field(docs[j - 1], field) {
            Some(v) => {
                if pre.contains(v) {
                    pre
                } else {
                    pre.push(v)
                }
            }
            None => pre,
        }
    } else {
        Seq::empty()
    }
}

fn filter_documents(latest: Vec<(DocumentId, Value)>, query: &Query) -> (r: Vec<Value>)
    ensures
        Seq::new(r@.len(), |i: int| r@[i]@) == passing_views(latest_views(latest@), *query),
{
    let ghost orig = latest_views(latest@);
    let mut latest = latest;
    let mut out: Vec<Value> = Vec::new();
    proof {
        assert(orig.subrange(0, 0) =~= Seq::<(DocumentIdV, ValueV)>::empty());
        assert(Seq::new(out@.len(), |i: int| out@[i]@) =~= passing_views(
            orig.subrange(0, 0),
            *query,
        ));
    }
    while latest.len() > 0
        invariant
            latest@.len() <= orig.len(),
            latest_views(latest@) == orig.subrange(
                orig.len() - latest@.len(),
                orig.len() as int,
            ),
            Seq::new(out@.len(), |i: int| out@[i]@) == passing_views(
                orig.subrange(0, orig.len() - latest@.len()),
                *query,
            ),
        decreases latest@.len(),
    {
        let ghost done = orig.len() - latest@.len();
        let ghost prelatest = latest@;
        let (_, v) = latest.remove(0);
        proof {
            assert(latest_views(prelatest)[0] == orig.subrange(done, orig.len() as int)[0]);
            assert((prelatest[0].0@, prelatest[0].1@) == orig[done as int]);
            assert(v@ == orig[done as int].1);
            assert(latest_views(latest@) =~= orig.subrange(done + 1, orig.len() as int)) by {
                assert forall|k: int| 0 <= k < latest@.len() implies latest_views(latest@)[k]
                    == orig.subrange(done + 1, orig.len() as int)[k] by {
                    assert(latest@[k] == prelatest[k + 1]);
                    assert(latest_views(prelatest)[k + 1] == orig.subrange(
                        done,
                        orig.len() as int,
                    )[k + 1]);
                }
            }
            assert(orig.subrange(0, done + 1).drop_last() =~= orig.subrange(0, done));
            assert(orig.subrange(0, done + 1).last() == orig[done as int]);
        }
        if !is_tombstone(&v) {
            let d = crate::aggregation::to_document(&v);
            let accepted = query.matches(&d);
            proof {
                crate::query::lemma_value_matches(*query, v@, d);
            }
            if accepted {
                let ghost preout = out@;
                out.push(v);
                proof {
                    assert(Seq::new(out@.len(), |i: int| out@[i]@) =~= Seq::new(
                        preout.len(),
                        |i: int| preout[i]@,
                    ).push(orig[done as int].1));
                    assert(Seq::new(out@.len(), |i: int| out@[i]@) =~= passing_views(
                        orig.subrange(0, done + 1),
                        *query,
                    ));
                }
            } else {
                proof {
                    assert(Seq::new(out@.len(), |i: int| out@[i]@) =~= passing_views(
                        orig.subrange(0, done + 1),
                        *query,
                    ));
                }
            }
        } else {
            proof {
                assert(Seq::new(out@.len(), |i: int| out@[i]@) =~= passing_views(
                    orig.subrange(0, done + 1),
                    *query,
                ));
            }
        }
    }
    proof {
        assert(orig.subrange(0, orig.len() as int) =~= orig);
    }
    out
}

/// Apply `$set`, `$inc` and `$unset` to a document; whether it changed.
/// An increment applies only when the stored value and the amount are both
/// integers and the sum fits; doubles belong to the embedding.
pub fn apply_update_operators(document: &mut Document, update_json: &Value) -> (r: Result<
    bool,
    MongoLiteError,
>)
    ensures
        r matches Err(e) ==> e is InvalidQuery,
        update_json@ matches ValueV::Object(ops) ==> (r is Err <==> exists|i: int|
            0 <= i < ops.len() && !((#[trigger] ops[i]).0 == "$set"@ || ops[i].0 == "$inc"@
                || ops[i].0 == "$unset"@)),
        !(update_json@ is Object) ==> r == Ok::<bool, MongoLiteError>(false),
        r == Ok::<bool, MongoLiteError>(false) ==> *final(document) == *old(document),
{
    let ops = match update_json {
        Value::Object(ops) => ops,
        _ => {
            return Ok(false);
        }
    };
    let ghost opsv = crate::value::fields_view(ops@, ops@.len() as int);
    proof {
        broadcast use crate::value::group_value_views;

        assert(update_json@ == ValueV::Object(opsv));
        assert(opsv.len() == ops@.len());
    }
    let mut was_modified = false;
    let mut i: usize = 0;
    while i < ops.len()
        invariant
            i <= ops@.len(),
            opsv == crate::value::fields_view(ops@, ops@.len() as int),
            opsv.len() == ops@.len(),
            update_json@ == ValueV::Object(opsv),
            forall|k: int| 0 <= k < i ==> ((#[trigger] opsv[k]).0 == "$set"@ || opsv[k].0
                == "$inc"@ || opsv[k].0 == "$unset"@),
            !was_modified ==> *document == *old(document),
        decreases ops@.len() - i,
    {
        proof {
            broadcast use crate::value::group_value_views;

            assert(opsv[i as int] == (ops@[i as int].0@, ops@[i as int].1@));
        }
        let opname = &ops[i].0;
        if crate::value::str_eq(opname.as_str(), "$set") {
            match &ops[i].1 {
                Value::Object(fields) => {
                    let mut j: usize = 0;
                    while j < fields.len()
                        invariant
                            j <= fields@.len(),
                            i < ops@.len(),
                            !was_modified ==> *document == *old(document),
                        decreases fields@.len() - j,
                    {
                        document.set(fields[j].0.clone(), fields[j].1.clone());
                        was_modified = true;
                        j = j + 1;
                    }
                }
                _ => {}
            }
        } else if crate::value::str_eq(opname.as_str(), "$inc") {
            match &ops[i].1 {
                Value::Object(fields) => {
                    let mut j: usize = 0;
                    while j < fields.len()
                        invariant
                            j <= fields@.len(),
                            i < ops@.len(),
                            !was_modified ==> *document == *old(document),
                        decreases fields@.len() - j,
                    {
                        let current = match document.get(fields[j].0.as_str()) {
                            Some(Value::Int(c)) => Some(*c),
                            _ => None,
                        };
                        let amount = match &fields[j].1 {
                            Value::Int(a) => Some(*a),
                            _ => None,
                        };
                        match (current, amount) {
                            (Some(c), Some(a)) => match c.checked_add(a) {
                                Some(total) => {
                                    document.set(fields[j].0.clone(), Value::Int(total));
                                    was_modified = true;
                                }
                                None => {}
                            },
                            _ => {}
                        }
                        j = j + 1;
                    }
                }
                _ => {}
            }
        } else if crate::value::str_eq(opname.as_str(), "$unset") {
            match &ops[i].1 {
                Value::Object(fields) => {
                    let mut j: usize = 0;
                    while j < fields.len()
                        invariant
                            j <= fields@.len(),
                            i < ops@.len(),
                            !was_modified ==> *document == *old(document),
                        decreases fields@.len() - j,
                    {
                        document.remove(fields[j].0.as_str());
                        was_modified = true;
                        j = j + 1;
                    }
                }
                _ => {}
            }
        } else {
            proof {
                assert(update_json@->Object_0 == opsv);
                assert(!((update_json@->Object_0[i as int]).0 == "$set"@
                    || update_json@->Object_0[i as int].0 == "$inc"@
                    || update_json@->Object_0[i as int].0 == "$unset"@));
                assert(exists|k: int|
                    0 <= k < update_json@->Object_0.len() && !((
                    #[trigger] update_json@->Object_0[k]).0 == "$set"@
                        || update_json@->Object_0[k].0 == "$inc"@
                        || update_json@->Object_0[k].0 == "$unset"@));
            }
            return Err(MongoLiteError::InvalidQuery(String::new()));
        }
        i = i + 1;
    }
    Ok(was_modified)
}

/// A document back to a record value: the id, then its fields.
fn document_to_value(doc_id: &DocumentId, d: &Document) -> (r: Value) {
    let mut obj: Vec<(String, Value)> = Vec::new();
    obj.push((String::from_str("_id"), id_field(doc_id)));
    let mut i: usize = 0;
    while i < d.fields.len()
        invariant
            i <= d.fields@.len(),
        decreases d.fields@.len() - i,
    {
        obj.push((d.fields[i].0.clone(), d.fields[i].1.clone()));
        i = i + 1;
    }
    Value::Object(obj)
}

/// The tombstone record value for one id.
fn tombstone_for(doc_id: &DocumentId, name: &str) -> (r: Value)
    ensures
        r@ == crate::storage::tombstone_value(name@, doc_id@),
{
    let mut obj: Vec<(String, Value)> = Vec::new();
    obj.push((String::from_str("_id"), id_field(doc_id)));
    obj.push((String::from_str("_collection"), Value::String(String::from_str(name))));
    obj.push((String::from_str("_tombstone"), Value::Bool(true)));
    proof {
        assert(crate::value::fields_view(obj@, 3) =~= crate::storage::tombstone_value(
            name@,
            doc_id@,
        )->Object_0);
    }
    Value::Object(obj)
}

/// The condition value under an operator name, if any.
fn get_cond_value<'a>(conds: &'a Vec<(String, Value)>, opname: &str) -> (r: Option<&'a Value>) {
    let mut i: usize = 0;
    while i < conds.len()
        invariant
            i <= conds@.len(),
        decreases conds@.len() - i,
    {
        if crate::value::str_eq(conds[i].0.as_str(), opname) {
            return Some(&conds[i].1);
        }
        i = i + 1;
    }
    None
}

/// The greatest string key the default range bound uses: a run of the
/// highest scalar, matching the open-ended upper bound of a hinted range.
fn max_string_key() -> (r: IndexKey) {
    let mut s = String::new();
    let mut i: usize = 0;
    while i < 100
        decreases 100 - i,
    {
        s.append("\u{10ffff}");
        i = i + 1;
    }
    IndexKey::String(s)
}

} // verus!
