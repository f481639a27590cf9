//! Offline compaction: rewrite the data region keeping, for every
//! collection, only the latest record of each live document; tombstones and
//! superseded versions disappear. Catalogs and document counts are rebuilt.

use vstd::prelude::*;

use crate::error::MongoLiteError;
use crate::storage::{
    record_doc, spec_records, CollectionMeta, StorageEngine, DATA_START,
};
use crate::value::{DocumentIdV, Value, ValueV};

verus! {

broadcast use vstd::std_specs::vec::group_vec_axioms;

/// Tuning for compaction. The engine works on an in-memory image, so the
/// chunk size is kept only as a knob for embeddings that stream the image.
#[derive(Debug, Clone)]
pub struct CompactionConfig {
    /// Number of documents an embedding may choose to buffer at once.
    pub chunk_size: usize,
}

impl Default for CompactionConfig {
    fn default() -> (r: Self)
        ensures
            r.chunk_size == 1000,
    {
        CompactionConfig { chunk_size: 1000 }
    }
}

/// What one compaction did.
#[derive(Debug, Clone, Default)]
pub struct CompactionStats {
    pub size_before: u64,
    pub size_after: u64,
    pub documents_scanned: u64,
    pub documents_kept: u64,
    pub tombstones_removed: u64,
    /// Peak auxiliary memory; zero here, since the image is rewritten in
    /// place without an auxiliary document map.
    pub peak_memory_mb: u64,
}

impl CompactionStats {
    /// Bytes won by the rewrite.
    pub fn space_saved(&self) -> (r: u64)
        ensures
            r == if self.size_before >= self.size_after {
                (self.size_before - self.size_after) as u64
            } else {
                0u64
            },
    {
        if self.size_before >= self.size_after {
            self.size_before - self.size_after
        } else {
            0
        }
    }
}

/// Record `i` is the latest record of its id in its collection: no later
/// record of the same collection names the same id.
pub open spec fn is_latest(records: Seq<Seq<u8>>, coll: Seq<char>, i: int) -> bool {
    match record_doc(records[i]) {
        Some(d) => d.0 == coll && (forall|j: int|
            i < j < records.len() ==> match record_doc(#[trigger] records[j]) {
                Some(d2) => !(d2.0 == coll && d2.1 == d.1),
                None => true,
            }),
        None => false,
    }
}

/// Record `i` survives compaction for `coll`: it is the latest record of
/// its id and not a tombstone.
pub open spec fn keep_rec(records: Seq<Seq<u8>>, coll: Seq<char>, i: int) -> bool {
    is_latest(records, coll, i) && !record_doc(records[i])->Some_0.3
}

/// Record `i` is a tombstone of `coll`: compaction removes it.
pub open spec fn drop_tomb(records: Seq<Seq<u8>>, coll: Seq<char>, i: int) -> bool {
    record_doc(records[i]) matches Some(d) && d.0 == coll && d.3
}

/// The surviving records of `coll` among `records[..j]`, in order.
pub open spec fn kept_upto(records: Seq<Seq<u8>>, coll: Seq<char>, j: int) -> Seq<Seq<u8>>
    decreases j,
{
    if 0 < j <= records.len() {
        kept_upto(records, coll, j - 1) + (if keep_rec(records, coll, j - 1) {
            seq![records[j - 1]]
        } else {
            Seq::<Seq<u8>>::empty()
        })
    } else {
        Seq::empty()
    }
}

/// The latest tombstones of `coll` among `records[..j]`, counted.
pub open spec fn tombs_upto(records: Seq<Seq<u8>>, coll: Seq<char>, j: int) -> int
    decreases j,
{
    if 0 < j <= records.len() {
        tombs_upto(records, coll, j - 1) + (if drop_tomb(records, coll, j - 1) {
            1int
        } else {
            0int
        })
    } else {
        0
    }
}

/// A count held to the 64-bit ceiling, as the saturating counters are.
pub open spec fn capped(x: int) -> int {
    if x <= u64::MAX as int {
        x
    } else {
        u64::MAX as int
    }
}

/// The tombstones of all collections up to `c`, counted.
pub open spec fn tombs_total(records: Seq<Seq<u8>>, colls: Seq<Seq<char>>, c: int) -> int
    decreases c,
{
    if 0 < c <= colls.len() {
        tombs_total(records, colls, c - 1) + tombs_upto(records, colls[c - 1], records.len() as int)
    } else {
        0
    }
}

/// The record is one of the kept originals among the first `j`: a latest,
/// non-tombstone record of the collection.
pub open spec fn kept_entry(records: Seq<Seq<u8>>, coll: Seq<char>, j: int, rec: Seq<u8>) -> bool {
    exists|i: int| 0 <= i < j && i < records.len() && #[trigger] keep_rec(records, coll, i)
        && rec == records[i]
}

/// Law: compaction writes each surviving id exactly once per collection —
/// the kept records of a collection carry pairwise distinct ids.
pub proof fn lemma_compact_ids_unique(records: Seq<Seq<u8>>, coll: Seq<char>, j: int)
    requires
        0 <= j <= records.len(),
    ensures
        forall|t: int| 0 <= t < kept_upto(records, coll, j).len() ==> kept_entry(
            records,
            coll,
            j,
            #[trigger] kept_upto(records, coll, j)[t],
        ),
        forall|t: int, u: int|
            0 <= t < u < kept_upto(records, coll, j).len() ==> record_doc(
                #[trigger] kept_upto(records, coll, j)[t],
            )->Some_0.1 != record_doc(#[trigger] kept_upto(records, coll, j)[u])->Some_0.1,
    decreases j,
{
    if 0 < j {
        lemma_compact_ids_unique(records, coll, j - 1);
        let pre = kept_upto(records, coll, j - 1);
        let cur = kept_upto(records, coll, j);
        if keep_rec(records, coll, j - 1) {
            assert(cur =~= pre.push(records[j - 1]));
            assert(kept_entry(records, coll, j, records[j - 1]));
            assert forall|t: int| 0 <= t < cur.len() implies kept_entry(
                records,
                coll,
                j,
                #[trigger] cur[t],
            ) by {
                if t < pre.len() {
                    assert(cur[t] == pre[t]);
                    assert(kept_entry(records, coll, j - 1, pre[t]));
                    let i = choose|i: int|
                        0 <= i < j - 1 && i < records.len() && #[trigger] keep_rec(
                            records,
                            coll,
                            i,
                        ) && pre[t] == records[i];
                    assert(kept_entry(records, coll, j, cur[t]));
                }
            }
            assert forall|t: int, u: int|
                0 <= t < u < cur.len() implies record_doc(#[trigger] cur[t])->Some_0.1
                != record_doc(#[trigger] cur[u])->Some_0.1 by {
                if u == cur.len() - 1 {
                    assert(cur[t] == pre[t]);
                    assert(kept_entry(records, coll, j - 1, pre[t]));
                    let i = choose|i: int|
                        0 <= i < j - 1 && i < records.len() && #[trigger] keep_rec(
                            records,
                            coll,
                            i,
                        ) && pre[t] == records[i];
                    if record_doc(records[i])->Some_0.1 == record_doc(
                        records[j - 1],
                    )->Some_0.1 {
                        // two latest records of the same id cannot coexist
                        assert(!is_latest(records, coll, i));
                        assert(false);
                    }
                } else {
                    assert(cur[t] == pre[t] && cur[u] == pre[u]);
                }
            }
        } else {
            assert(cur =~= pre);
            assert forall|t: int| 0 <= t < cur.len() implies kept_entry(
                records,
                coll,
                j,
                #[trigger] cur[t],
            ) by {
                assert(kept_entry(records, coll, j - 1, pre[t]));
                let i = choose|i: int|
                    0 <= i < j - 1 && i < records.len() && #[trigger] keep_rec(records, coll, i)
                        && pre[t] == records[i];
                assert(kept_entry(records, coll, j, cur[t]));
            }
        }
    }
}

/// The whole compacted record stream: collection by collection, the
/// surviving records in their original order.
pub open spec fn compact_spec(records: Seq<Seq<u8>>, colls: Seq<Seq<char>>, c: int) -> Seq<
    Seq<u8>,
>
    decreases c,
{
    if 0 < c <= colls.len() {
        compact_spec(records, colls, c - 1) + kept_upto(records, colls[c - 1], records.len() as int)
    } else {
        Seq::empty()
    }
}

impl StorageEngine {
    /// Every record payload of the data region, in order.
    pub fn read_all_records(&self) -> (r: Vec<Vec<u8>>)
        requires
            self.wf(),
        ensures
            Seq::new(r@.len(), |i: int| r@[i]@) == self.recs(),
            forall|i: int| 0 <= i < r@.len() ==> (#[trigger] r@[i])@.len() <= u32::MAX,
    {
        let mut out: Vec<Vec<u8>> = Vec::new();
        let mut pos: usize = DATA_START;
        let ghost file = self.file@;
        proof {
            vstd::bytes::lemma_auto_spec_u32_to_from_le_bytes();
        }
        loop
            invariant
                self.wf(),
                file == self.file@,
                DATA_START <= pos <= file.len(),
                crate::storage::recs_scan(file, DATA_START as int) == (
                    Seq::new(out@.len(), |i: int| out@[i]@) + crate::storage::recs_scan(
                        file,
                        pos as int,
                    ).0,
                    crate::storage::recs_scan(file, pos as int).1,
                ),
                forall|i: int| 0 <= i < out@.len() ==> (#[trigger] out@[i])@.len() <= u32::MAX,
            ensures
                pos as int == crate::storage::recs_scan(file, pos as int).1,
                crate::storage::recs_scan(file, pos as int).0 == Seq::<Seq<u8>>::empty(),
                crate::storage::recs_scan(file, DATA_START as int).0 == Seq::new(
                    out@.len(),
                    |i: int| out@[i]@,
                ),
                forall|i: int| 0 <= i < out@.len() ==> (#[trigger] out@[i])@.len() <= u32::MAX,
            decreases file.len() - pos,
        {
            proof {
                vstd::bytes::lemma_auto_spec_u32_to_from_le_bytes();
            }
            if self.file.len() - pos < 4 {
                proof {
                    assert(crate::storage::rec_step(file, pos as int) is None);
                    assert(Seq::new(out@.len(), |i: int| out@[i]@) + Seq::<Seq<u8>>::empty()
                        =~= Seq::new(out@.len(), |i: int| out@[i]@));
                }
                break;
            }
            let n32 = vstd::bytes::u32_from_le_bytes(
                vstd::slice::slice_subrange(self.file.as_slice(), pos, pos + 4),
            );
            let rest: usize = self.file.len() - (pos + 4);
            if (n32 as u64) > (rest as u64) {
                proof {
                    assert(crate::storage::rec_step(file, pos as int) is None);
                    assert(Seq::new(out@.len(), |i: int| out@[i]@) + Seq::<Seq<u8>>::empty()
                        =~= Seq::new(out@.len(), |i: int| out@[i]@));
                }
                break;
            }
            let n = n32 as usize;
            let payload = vstd::slice::slice_to_vec(
                vstd::slice::slice_subrange(self.file.as_slice(), pos + 4, pos + 4 + n),
            );
            let ghost oldout = out@;
            out.push(payload);
            proof {
                assert(Seq::new(out@.len(), |i: int| out@[i]@) =~= Seq::new(
                    oldout.len(),
                    |i: int| oldout[i]@,
                ).push(file.subrange(pos + 4, pos + 4 + n as int)));
                assert(crate::storage::rec_step(file, pos as int) == Some(
                    (file.subrange(pos + 4, pos + 4 + n as int), pos + 4 + n as int),
                ));
                assert(Seq::new(oldout.len(), |i: int| oldout[i]@) + (seq![
                    file.subrange(pos + 4, pos + 4 + n as int)
                ] + crate::storage::recs_scan(file, pos + 4 + n as int).0) =~= Seq::new(
                    out@.len(),
                    |i: int| out@[i]@,
                ) + crate::storage::recs_scan(file, pos + 4 + n as int).0);
            }
            pos = pos + 4 + n;
        }
        proof {
            assert(pos as int == file.len() as int);
        }
        out
    }
}

} // verus!

verus! {

/// Saturating addition on 64-bit counters.
fn sat_add(a: u64, b: u64) -> (r: u64)
    ensures
        r == if a + b <= u64::MAX {
            (a + b) as u64
        } else {
            u64::MAX
        },
{
    if a > u64::MAX - b {
        u64::MAX
    } else {
        a + b
    }
}

/// Parse one record payload as a document: collection, id, value and the
/// tombstone mark.
pub(crate) fn parse_record(bytes: &Vec<u8>) -> (r: Option<(String, crate::value::DocumentId, Value, bool)>)
    ensures
        match r {
            Some(d) => record_doc(bytes@) == Some((d.0@, d.1@, d.2@, d.3)),
            None => record_doc(bytes@) is None,
        },
{
    let v = match crate::value::decode_value(bytes) {
        Ok(v) => v,
        Err(_) => {
            return None;
        }
    };
    let coll = match v.get_field("_collection") {
        Some(cv) => match cv {
            Value::String(c) => c.clone(),
            _ => {
                return None;
            }
        },
        None => {
            return None;
        }
    };
    let id = match v.get_field("_id") {
        Some(idv) => match idv {
            Value::Int(i) => crate::value::DocumentId::Int(*i),
            Value::String(s) => crate::value::DocumentId::String(s.clone()),
            _ => {
                return None;
            }
        },
        None => {
            return None;
        }
    };
    let tomb = match v.get_field("_tombstone") {
        Some(tv) => match tv {
            Value::Bool(b) => *b,
            _ => false,
        },
        None => false,
    };
    Some((coll, id, v, tomb))
}

impl StorageEngine {
    /// Compact with the default configuration.
    pub fn compact(&mut self) -> (r: Result<CompactionStats, MongoLiteError>)
        requires
            old(self).wf(),
        ensures
            final(self).wf(),
            final(self).wal == old(self).wal,
            match r {
                Ok(stats) => {
                    &&& final(self).recs() == compact_spec(
                        old(self).recs(),
                        crate::storage::meta_names(old(self).collections@),
                        old(self).collections@.len() as int,
                    )
                    &&& stats.size_before == old(self).file@.len()
                    &&& stats.size_after == final(self).file@.len()
                    &&& stats.documents_kept == final(self).recs().len()
                    &&& stats.peak_memory_mb == 0
                    &&& stats.documents_scanned as int == capped(
                        old(self).collections@.len() as int * old(self).recs().len() as int,
                    )
                    &&& stats.tombstones_removed as int == capped(
                        tombs_total(
                            old(self).recs(),
                            crate::storage::meta_names(old(self).collections@),
                            old(self).collections@.len() as int,
                        ),
                    )
                    &&& final(self).collections@.len() == old(self).collections@.len()
                    &&& forall|k: int| 0 <= k < final(self).collections@.len() ==> {
                        let nm = #[trigger] final(self).collections@[k];
                        let om = old(self).collections@[k];
                        let kept = kept_upto(
                            old(self).recs(),
                            om.name@,
                            old(self).recs().len() as int,
                        );
                        &&& nm.name@ == om.name@
                        &&& nm.last_id == om.last_id
                        &&& nm.data_offset == DATA_START
                        &&& nm.index_offset == DATA_START
                        &&& nm.document_count == kept.len()
                        &&& nm.document_catalog@.len() == kept.len()
                        &&& forall|t: int| 0 <= t < nm.document_catalog@.len()
                            ==> (#[trigger] nm.document_catalog@[t]).0@ == record_doc(
                            kept[t],
                        )->Some_0.1
                        &&& nm.indexes@.len() == om.indexes@.len()
                    }
                }
                Err(e) => e is Corruption && *final(self) == *old(self),
            },
    {
        let config = CompactionConfig { chunk_size: 1000 };
        self.compact_with_config(&config)
    }

    /// Rewrite the data region in place: for every collection, in order,
    /// keep only the latest non-tombstone record of each id; rebuild each
    /// collection's catalog and document count.
    #[verifier::rlimit(100)]
    pub fn compact_with_config(&mut self, config: &CompactionConfig) -> (r: Result<
        CompactionStats,
        MongoLiteError,
    >)
        requires
            old(self).wf(),
        ensures
            final(self).wf(),
            final(self).wal == old(self).wal,
            match r {
                Ok(stats) => {
                    &&& final(self).recs() == compact_spec(
                        old(self).recs(),
                        crate::storage::meta_names(old(self).collections@),
                        old(self).collections@.len() as int,
                    )
                    &&& stats.size_before == old(self).file@.len()
                    &&& stats.size_after == final(self).file@.len()
                    &&& stats.documents_kept == final(self).recs().len()
                    &&& stats.peak_memory_mb == 0
                    &&& stats.documents_scanned as int == capped(
                        old(self).collections@.len() as int * old(self).recs().len() as int,
                    )
                    &&& stats.tombstones_removed as int == capped(
                        tombs_total(
                            old(self).recs(),
                            crate::storage::meta_names(old(self).collections@),
                            old(self).collections@.len() as int,
                        ),
                    )
                    &&& final(self).collections@.len() == old(self).collections@.len()
                    &&& forall|k: int| 0 <= k < final(self).collections@.len() ==> {
                        let nm = #[trigger] final(self).collections@[k];
                        let om = old(self).collections@[k];
                        let kept = kept_upto(
                            old(self).recs(),
                            om.name@,
                            old(self).recs().len() as int,
                        );
                        &&& nm.name@ == om.name@
                        &&& nm.last_id == om.last_id
                        &&& nm.data_offset == DATA_START
                        &&& nm.index_offset == DATA_START
                        &&& nm.document_count == kept.len()
                        &&& nm.document_catalog@.len() == kept.len()
                        &&& forall|t: int| 0 <= t < nm.document_catalog@.len()
                            ==> (#[trigger] nm.document_catalog@[t]).0@ == record_doc(
                            kept[t],
                        )->Some_0.1
                        &&& nm.indexes@.len() == om.indexes@.len()
                    }
                }
                Err(e) => e is Corruption && *final(self) == *old(self),
            },
    {
        let records = self.read_all_records();
        let ghost recsv = Seq::new(records@.len(), |i: int| records@[i]@);
        let ghost names = crate::storage::meta_names(self.collections@);
        let size_before = self.file.len() as u64;
        let mut kept: Vec<Vec<u8>> = Vec::new();
        let mut newmetas: Vec<CollectionMeta> = Vec::new();
        let mut tombstones: u64 = 0;
        let mut scanned: u64 = 0;
        let mut c: usize = 0;
        while c < self.collections.len()
            invariant
                old(self).wf(),
                *self == *old(self),
                c <= self.collections@.len(),
                recsv == Seq::new(records@.len(), |i: int| records@[i]@),
                recsv.len() == records@.len(),
                forall|i: int| 0 <= i < records@.len() ==> (#[trigger] records@[i])@.len()
                    <= u32::MAX,
                names == crate::storage::meta_names(self.collections@),
                names.len() == self.collections@.len(),
                newmetas@.len() == c,
                Seq::new(kept@.len(), |i: int| kept@[i]@) == compact_spec(recsv, names, c as int),
                scanned as int == capped(c * recsv.len()),
                tombstones as int == capped(tombs_total(recsv, names, c as int)),
                tombs_total(recsv, names, c as int) >= 0,
                forall|i: int| 0 <= i < kept@.len() ==> (#[trigger] kept@[i])@.len() <= u32::MAX,
                forall|k: int| 0 <= k < c ==> {
                    let nm = #[trigger] newmetas@[k];
                    let om = self.collections@[k];
                    nm.name@ == om.name@ && nm.last_id == om.last_id && nm.indexes@.len()
                        == om.indexes@.len() && nm.data_offset == DATA_START && nm.index_offset
                        == DATA_START
                        && nm.document_count == kept_upto(recsv, om.name@, recsv.len() as int).len()
                        && nm.document_catalog@.len() == nm.document_count && (forall|t: int|
                        0 <= t < nm.document_catalog@.len()
                            ==> (#[trigger] nm.document_catalog@[t]).0@ == record_doc(
                            kept_upto(recsv, om.name@, recsv.len() as int)[t],
                        )->Some_0.1)
                },
            decreases self.collections@.len() - c,
        {
            let coll = &self.collections[c];
            let ghost cname = coll.name@;
            let mut catalog: Vec<(crate::value::DocumentId, u64)> = Vec::new();
            let mut offset: u64 = DATA_START as u64;
            let ghost kept_base = kept@;
            let mut i: usize = 0;
            while i < records.len()
                invariant
                    i <= records@.len(),
                    cname == coll.name@,
                    recsv == Seq::new(records@.len(), |i2: int| records@[i2]@),
                    recsv.len() == records@.len(),
                    forall|i2: int| 0 <= i2 < records@.len() ==> (#[trigger] records@[i2])@.len()
                        <= u32::MAX,
                    forall|i2: int| 0 <= i2 < kept@.len() ==> (#[trigger] kept@[i2])@.len()
                        <= u32::MAX,
                    Seq::new(kept@.len(), |i2: int| kept@[i2]@) == Seq::new(
                        kept_base.len(),
                        |i2: int| kept_base[i2]@,
                    ) + kept_upto(recsv, cname, i as int),
                    c < names.len() && names[c as int] == cname,
                    scanned as int == capped(c * recsv.len() + i),
                    tombstones as int == capped(
                        tombs_total(recsv, names, c as int) + tombs_upto(recsv, cname, i as int),
                    ),
                    tombs_total(recsv, names, c as int) >= 0,
                    tombs_upto(recsv, cname, i as int) >= 0,
                    catalog@.len() == kept_upto(recsv, cname, i as int).len(),
                    forall|t: int| 0 <= t < catalog@.len()
                        ==> (#[trigger] catalog@[t]).0@ == record_doc(
                        kept_upto(recsv, cname, i as int)[t],
                    )->Some_0.1,
                decreases records@.len() - i,
            {
                scanned = sat_add(scanned, 1);
                proof {
                    assert(recsv[i as int] == records@[i as int]@);
                }
                let parsed = parse_record(&records[i]);
                let step_kept: bool;
                let mut step_tomb: bool = false;
                match &parsed {
                    Some(d) => {
                        if crate::value::str_eq(d.0.as_str(), coll.name.as_str()) {
                            if d.3 {
                                step_tomb = true;
                            }
                            // is any later record of this collection for the
                            // same id?
                            let mut superseded = false;
                            let mut j: usize = i + 1;
                            while j < records.len()
                                invariant
                                    i < j <= records@.len() || (superseded && j
                                        <= records@.len()),
                                    recsv == Seq::new(records@.len(), |i2: int| records@[i2]@),
                                    recsv.len() == records@.len(),
                                    record_doc(recsv[i as int]) == Some((d.0@, d.1@, d.2@, d.3)),
                                    cname == coll.name@,
                                    cname == d.0@,
                                    !superseded ==> forall|t: int|
                                        i < t < j ==> match record_doc(#[trigger] recsv[t]) {
                                            Some(d2) => !(d2.0 == cname && d2.1 == d.1@),
                                            None => true,
                                        },
                                    superseded ==> !is_latest(recsv, cname, i as int),
                                ensures
                                    superseded ==> !is_latest(recsv, cname, i as int),
                                    !superseded ==> forall|t: int|
                                        i < t < records@.len() ==> match record_doc(
                                            #[trigger] recsv[t],
                                        ) {
                                            Some(d2) => !(d2.0 == cname && d2.1 == d.1@),
                                            None => true,
                                        },
                                decreases records@.len() - j,
                            {
                                proof {
                                    assert(recsv[j as int] == records@[j as int]@);
                                }
                                match parse_record(&records[j]) {
                                    Some(d2) => {
                                        if crate::value::str_eq(d2.0.as_str(), coll.name.as_str())
                                            && d2.1.eq_id(&d.1) {
                                            superseded = true;
                                            proof {
                                                assert(record_doc(recsv[j as int]) == Some(
                                                    (d2.0@, d2.1@, d2.2@, d2.3),
                                                ));
                                            }
                                            break;
                                        }
                                    }
                                    None => {}
                                }
                                j = j + 1;
                            }
                            if superseded {
                                step_kept = false;
                            } else {
                                proof {
                                    assert(is_latest(recsv, cname, i as int));
                                }
                                step_kept = !d.3;
                            }
                        } else {
                            step_kept = false;
                            proof {
                                assert(!is_latest(recsv, cname, i as int));
                            }
                        }
                    }
                    None => {
                        step_kept = false;
                        proof {
                            assert(!is_latest(recsv, cname, i as int));
                        }
                    }
                }
                proof {
                    assert(step_kept == keep_rec(recsv, cname, i as int));
                }
                if step_kept {
                    let ghost oldkept = kept@;
                    let d2 = parsed;
                    match d2 {
                        Some(d) => {
                            catalog.push((d.1, offset));
                        }
                        None => {}
                    }
                    offset = sat_add(offset, sat_add(4, records[i].len() as u64));
                    kept.push(records[i].clone());
                    proof {
                        assert(Seq::new(kept@.len(), |i2: int| kept@[i2]@) =~= Seq::new(
                            oldkept.len(),
                            |i2: int| oldkept[i2]@,
                        ).push(recsv[i as int]));
                        assert(Seq::new(kept_base.len(), |i2: int| kept_base[i2]@) + kept_upto(
                            recsv,
                            cname,
                            i + 1,
                        ) =~= (Seq::new(kept_base.len(), |i2: int| kept_base[i2]@) + kept_upto(
                            recsv,
                            cname,
                            i as int,
                        )).push(recsv[i as int]));
                    }
                } else {
                    if step_tomb {
                        tombstones = sat_add(tombstones, 1);
                    }
                    proof {
                        assert(Seq::new(kept_base.len(), |i2: int| kept_base[i2]@) + kept_upto(
                            recsv,
                            cname,
                            i + 1,
                        ) =~= Seq::new(kept_base.len(), |i2: int| kept_base[i2]@) + kept_upto(
                            recsv,
                            cname,
                            i as int,
                        ));
                    }
                }
                i = i + 1;
            }
            proof {
                assert(c * recsv.len() + recsv.len() == (c + 1) * recsv.len()) by (nonlinear_arith);
            }
            let doc_count = catalog.len() as u64;
            let mut new_indexes: Vec<crate::index::IndexMetadata> = Vec::new();
            let mut x: usize = 0;
            while x < coll.indexes.len()
                invariant
                    x <= coll.indexes@.len(),
                    new_indexes@.len() == x,
                    forall|k: int| 0 <= k < x ==> #[trigger] new_indexes@[k]@
                        == coll.indexes@[k]@,
                decreases coll.indexes@.len() - x,
            {
                new_indexes.push(coll.indexes[x].clone());
                proof {
                    assert(new_indexes@[new_indexes@.len() - 1]@ == coll.indexes@[x as int]@);
                }
                x = x + 1;
            }
            newmetas.push(
                CollectionMeta {
                    name: coll.name.clone(),
                    document_count: doc_count,
                    data_offset: DATA_START as u64,
                    index_offset: DATA_START as u64,
                    last_id: coll.last_id,
                    document_catalog: catalog,
                    indexes: new_indexes,
                },
            );
            proof {
                assert(names[c as int] == cname);
                assert(kept_upto(recsv, cname, recsv.len() as int).len() == catalog@.len());
                assert(Seq::new(kept@.len(), |i2: int| kept@[i2]@) =~= compact_spec(
                    recsv,
                    names,
                    c + 1,
                ));
            }
            c = c + 1;
        }
        // rebuild the image: fresh region, then the surviving records
        let region = match Self::build_region(&self.header, &newmetas) {
            Ok(region) => region,
            Err(e) => {
                return Err(e);
            }
        };
        proof {
            assert(crate::storage::meta_names(newmetas@) =~= names);
        }
        self.collections = newmetas;
        self.file = region;
        proof {
            assert(crate::storage::rec_step(self.file@, DATA_START as int) is None);
            assert(self.recs() =~= Seq::<Seq<u8>>::empty());
        }
        let mut w: usize = 0;
        while w < kept.len()
            invariant
                w <= kept@.len(),
                self.wf(),
                self.wal == old(self).wal,
                self.header == old(self).header,
                self.collections@.len() == old(self).collections@.len(),
                forall|k2: int| 0 <= k2 < self.collections@.len() ==> {
                    let nm = #[trigger] self.collections@[k2];
                    let om = old(self).collections@[k2];
                    let keptk = kept_upto(
                        old(self).recs(),
                        om.name@,
                        old(self).recs().len() as int,
                    );
                    nm.name@ == om.name@ && nm.last_id == om.last_id && nm.data_offset
                        == DATA_START && nm.index_offset == DATA_START && nm.document_count
                        == keptk.len() && nm.document_catalog@.len() == keptk.len() && (forall|
                        t: int,
                    |
                        0 <= t < nm.document_catalog@.len()
                            ==> (#[trigger] nm.document_catalog@[t]).0@ == record_doc(
                            keptk[t],
                        )->Some_0.1) && nm.indexes@.len() == om.indexes@.len()
                },
                forall|i2: int| 0 <= i2 < kept@.len() ==> (#[trigger] kept@[i2])@.len()
                    <= u32::MAX,
                self.recs() == Seq::new(kept@.len(), |i2: int| kept@[i2]@).subrange(0, w as int),
            decreases kept@.len() - w,
        {
            let res = self.write_data(kept[w].as_slice());
            proof {
                assert(res is Ok);
                assert(Seq::new(kept@.len(), |i2: int| kept@[i2]@).subrange(0, w + 1)
                    =~= Seq::new(kept@.len(), |i2: int| kept@[i2]@).subrange(0, w as int).push(
                    kept@[w as int]@,
                ));
            }
            w = w + 1;
        }
        proof {
            assert(Seq::new(kept@.len(), |i2: int| kept@[i2]@).subrange(
                0,
                kept@.len() as int,
            ) =~= Seq::new(kept@.len(), |i2: int| kept@[i2]@));
        }
        let size_after = self.file.len() as u64;
        Ok(
            CompactionStats {
                size_before,
                size_after,
                documents_scanned: scanned,
                documents_kept: kept.len() as u64,
                tombstones_removed: tombstones,
                peak_memory_mb: 0,
            },
        )
    }
}

} // verus!

verus! {

/// Record `i` names the pair `(coll, id)`.
pub open spec fn touches(records: Seq<Seq<u8>>, coll: Seq<char>, id: DocumentIdV, i: int) -> bool {
    match record_doc(records[i]) {
        Some(d) => d.0 == coll && d.1 == id,
        None => false,
    }
}

/// The last touch of an id is decided by the last record naming it: none
/// when no record does, and otherwise by that record's tombstone flag.
proof fn lemma_last_touch_index(records: Seq<Seq<u8>>, coll: Seq<char>, id: DocumentIdV)
    ensures
        crate::storage::last_touch(records, coll, id) is None ==> forall|i: int|
            0 <= i < records.len() ==> !touches(records, coll, id, i),
        crate::storage::last_touch(records, coll, id) matches Some(t) ==> exists|l: int|
            0 <= l < records.len() && #[trigger] touches(records, coll, id, l) && (forall|j: int|
                l < j < records.len() ==> !touches(records, coll, id, j)) && t == (
            if record_doc(records[l])->Some_0.3 {
                None
            } else {
                Some(record_doc(records[l])->Some_0.2)
            }),
    decreases records.len(),
{
    if records.len() > 0 {
        let pre = records.drop_last();
        let n = records.len() - 1;
        lemma_last_touch_index(pre, coll, id);
        assert(forall|i: int| 0 <= i < n ==> touches(pre, coll, id, i) == touches(
            records,
            coll,
            id,
            i,
        ));
        if touches(records, coll, id, n) {
            assert(crate::storage::last_touch(records, coll, id) matches Some(t) ==> exists|
                l: int,
            |
                0 <= l < records.len() && #[trigger] touches(records, coll, id, l) && (forall|
                    j: int,
                | l < j < records.len() ==> !touches(records, coll, id, j)) && t == (
                if record_doc(records[l])->Some_0.3 {
                    None
                } else {
                    Some(record_doc(records[l])->Some_0.2)
                })) by {
                assert(touches(records, coll, id, n));
            }
        } else {
            assert(crate::storage::last_touch(records, coll, id) == crate::storage::last_touch(
                pre,
                coll,
                id,
            ));
        }
    }
}

/// When no kept record of the prefix names the id, the surviving run has
/// no touch of it.
proof fn lemma_kept_none(records: Seq<Seq<u8>>, coll: Seq<char>, id: DocumentIdV, j: int)
    requires
        0 <= j <= records.len(),
        forall|i: int| 0 <= i < j && #[trigger] keep_rec(records, coll, i) ==> !touches(
            records,
            coll,
            id,
            i,
        ),
    ensures
        crate::storage::last_touch(kept_upto(records, coll, j), coll, id) is None,
    decreases j,
{
    if j > 0 {
        let prev = kept_upto(records, coll, j - 1);
        let cur = kept_upto(records, coll, j);
        lemma_kept_none(records, coll, id, j - 1);
        if keep_rec(records, coll, j - 1) {
            assert(cur =~= prev.push(records[j - 1]));
            assert(cur.drop_last() =~= prev);
            assert(cur.last() == records[j - 1]);
            assert(!touches(records, coll, id, j - 1));
        } else {
            assert(cur =~= prev);
        }
    }
}

/// When exactly one kept record of the prefix names the id, the surviving
/// run's last touch is that record's value.
proof fn lemma_kept_some(records: Seq<Seq<u8>>, coll: Seq<char>, id: DocumentIdV, j: int, l: int)
    requires
        0 <= j <= records.len(),
        0 <= l < j,
        keep_rec(records, coll, l),
        touches(records, coll, id, l),
        forall|i: int| 0 <= i < j && #[trigger] keep_rec(records, coll, i) && i != l ==> !touches(
            records,
            coll,
            id,
            i,
        ),
    ensures
        crate::storage::last_touch(kept_upto(records, coll, j), coll, id) == Some(
            Some(record_doc(records[l])->Some_0.2),
        ),
    decreases j,
{
    let prev = kept_upto(records, coll, j - 1);
    let cur = kept_upto(records, coll, j);
    if j - 1 == l {
        assert(cur =~= prev.push(records[l]));
        assert(cur.drop_last() =~= prev);
        assert(cur.last() == records[l]);
        assert(!record_doc(records[l])->Some_0.3);
    } else {
        lemma_kept_some(records, coll, id, j - 1, l);
        if keep_rec(records, coll, j - 1) {
            assert(cur =~= prev.push(records[j - 1]));
            assert(cur.drop_last() =~= prev);
            assert(cur.last() == records[j - 1]);
            assert(!touches(records, coll, id, j - 1));
        } else {
            assert(cur =~= prev);
        }
    }
}

/// The live documents are decided by the last touch of each id.
proof fn lemma_live_touch(records: Seq<Seq<u8>>, coll: Seq<char>, id: DocumentIdV)
    ensures
        match crate::storage::last_touch(records, coll, id) {
            None => !crate::storage::live_map(records, coll).contains_key(id),
            Some(t) => match t {
                None => !crate::storage::live_map(records, coll).contains_key(id),
                Some(v) => crate::storage::live_map(records, coll).contains_key(id)
                    && crate::storage::live_map(records, coll)[id] == v,
            },
        },
{
    assert(Seq::<Seq<u8>>::empty() + records =~= records);
    crate::storage::lemma_live_map_concat(Seq::empty(), records, coll);
    crate::storage::lemma_apply_records_touch(
        crate::storage::live_map(Seq::empty(), coll),
        records,
        coll,
        id,
    );
}

/// Law: compaction preserves the live documents — dropping the superseded
/// versions and the tombstones of a collection leaves every id visible with
/// exactly the value it had, and hides the ids a tombstone hid.
#[verifier::rlimit(100)]
pub proof fn lemma_compact_preserves_live(records: Seq<Seq<u8>>, coll: Seq<char>)
    ensures
        crate::storage::live_map(kept_upto(records, coll, records.len() as int), coll)
            == crate::storage::live_map(records, coll),
{
    let n = records.len() as int;
    let kept = kept_upto(records, coll, n);
    let m0 = crate::storage::live_map(records, coll);
    let m1 = crate::storage::live_map(kept, coll);
    assert forall|id: DocumentIdV|
        #![trigger m0.dom().contains(id)]
        #![trigger m1.dom().contains(id)]
        m1.dom().contains(id) == m0.dom().contains(id) && (m0.dom().contains(id) ==> m1[id]
            == m0[id]) by {
        lemma_live_touch(records, coll, id);
        lemma_live_touch(kept, coll, id);
        lemma_last_touch_index(records, coll, id);
        let lt = crate::storage::last_touch(records, coll, id);
        if lt is None {
            lemma_kept_none(records, coll, id, n);
        } else if lt == Some(None::<ValueV>) {
            let l = choose|l: int|
                0 <= l < records.len() && #[trigger] touches(records, coll, id, l) && (forall|
                    j: int,
                | l < j < records.len() ==> !touches(records, coll, id, j)) && record_doc(
                    records[l],
                )->Some_0.3;
            assert forall|i: int|
                0 <= i < n && #[trigger] keep_rec(records, coll, i) implies !touches(
                records,
                coll,
                id,
                i,
            ) by {
                if touches(records, coll, id, i) {
                    if i < l {
                        assert(record_doc(records[i])->Some_0.1 == id);
                        assert(!is_latest(records, coll, i));
                    } else if i == l {
                        assert(!keep_rec(records, coll, i));
                    } else {
                        assert(!touches(records, coll, id, i));
                    }
                }
            }
            lemma_kept_none(records, coll, id, n);
        } else {
            let v = lt->Some_0->Some_0;
            let l = choose|l: int|
                0 <= l < records.len() && #[trigger] touches(records, coll, id, l) && (forall|
                    j: int,
                | l < j < records.len() ==> !touches(records, coll, id, j)) && !record_doc(
                    records[l],
                )->Some_0.3 && record_doc(records[l])->Some_0.2 == v;
            assert(is_latest(records, coll, l)) by {
                assert(record_doc(records[l]) is Some);
                assert forall|j: int| l < j < records.len() implies match record_doc(
                    #[trigger] records[j],
                ) {
                    Some(d2) => !(d2.0 == coll && d2.1 == record_doc(records[l])->Some_0.1),
                    None => true,
                } by {
                    assert(!touches(records, coll, id, j));
                }
            }
            assert(keep_rec(records, coll, l));
            assert forall|i: int|
                0 <= i < n && #[trigger] keep_rec(records, coll, i) && i != l implies !touches(
                records,
                coll,
                id,
                i,
            ) by {
                if touches(records, coll, id, i) {
                    if i < l {
                        assert(record_doc(records[i])->Some_0.1 == id);
                        assert(!is_latest(records, coll, i));
                    } else {
                        assert(!touches(records, coll, id, i));
                    }
                }
            }
            lemma_kept_some(records, coll, id, n, l);
        }
    }
    assert(m1 =~= m0);
}

} // verus!
