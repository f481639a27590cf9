//! The storage engine: the data file held as an in-memory image with a
//! fixed header, a reserved metadata region, and an append-only stream of
//! length-prefixed document records. The embedding mirrors the image to the
//! real file and fsyncs where the commit protocol calls for it.

use vstd::bytes::{spec_u32_to_le_bytes, spec_u64_to_le_bytes, u32_to_le_bytes};
use vstd::prelude::*;

use crate::error::MongoLiteError;
use crate::value::{spec_dec, spec_enc, DocumentIdV, Value, ValueV};

verus! {

broadcast use {vstd::std_specs::vec::group_vec_axioms, crate::value::group_value_views};

/// First byte count of the file reserved for the header.
pub const HEADER_REGION: usize = 256;

/// Byte count reserved for header plus serialized collection metadata.
pub const RESERVED_METADATA: usize = 262144;

/// Fixed offset at which document records begin.
pub const DATA_START: usize = 262400;

/// The eight magic bytes, spelling `MONGOLTE`.
pub open spec fn spec_magic() -> Seq<u8> {
    seq![0x4du8, 0x4fu8, 0x4eu8, 0x47u8, 0x4fu8, 0x4cu8, 0x54u8, 0x45u8]
}

/// The data file header. The first five fields occupy the first 28 bytes of
/// the file; the index section offset is reserved and not persisted.
#[derive(Debug)]
pub struct Header {
    pub magic: Vec<u8>,
    pub version: u32,
    pub page_size: u32,
    pub collection_count: u32,
    pub free_list_head: u64,
    pub index_section_offset: u64,
}

impl Clone for Header {
    fn clone(&self) -> (r: Self)
        ensures
            r.magic@ == self.magic@,
            r.version == self.version,
            r.page_size == self.page_size,
            r.collection_count == self.collection_count,
            r.free_list_head == self.free_list_head,
            r.index_section_offset == self.index_section_offset,
    {
        Header {
            magic: self.magic.clone(),
            version: self.version,
            page_size: self.page_size,
            collection_count: self.collection_count,
            free_list_head: self.free_list_head,
            index_section_offset: self.index_section_offset,
        }
    }
}

/// The 28 persisted header bytes.
pub open spec fn header_bytes(h: Header) -> Seq<u8> {
    h.magic@ + spec_u32_to_le_bytes(h.version) + spec_u32_to_le_bytes(h.page_size)
        + spec_u32_to_le_bytes(h.collection_count) + spec_u64_to_le_bytes(h.free_list_head)
}

impl Header {
    /// A fresh header: magic, version 1, 4 KiB pages, no collections.
    pub fn new() -> (r: Header)
        ensures
            r.magic@ == spec_magic(),
            r.version == 1,
            r.page_size == 4096,
            r.collection_count == 0,
            r.free_list_head == 0,
            r.index_section_offset == 0,
    {
        let mut magic: Vec<u8> = Vec::new();
        magic.push(0x4d);
        magic.push(0x4f);
        magic.push(0x4e);
        magic.push(0x47);
        magic.push(0x4f);
        magic.push(0x4c);
        magic.push(0x54);
        magic.push(0x45);
        proof {
            assert(magic@ =~= spec_magic());
        }
        Header {
            magic,
            version: 1,
            page_size: 4096,
            collection_count: 0,
            free_list_head: 0,
            index_section_offset: 0,
        }
    }

    /// Serialize the 28 persisted bytes.
    pub fn to_bytes(&self) -> (r: Vec<u8>)
        requires
            self.magic@.len() == 8,
        ensures
            r@ == header_bytes(*self),
            r@.len() == 28,
    {
        let mut out: Vec<u8> = Vec::new();
        out.extend_from_slice(self.magic.as_slice());
        let mut t1 = u32_to_le_bytes(self.version);
        out.append(&mut t1);
        let mut t2 = u32_to_le_bytes(self.page_size);
        out.append(&mut t2);
        let mut t3 = u32_to_le_bytes(self.collection_count);
        out.append(&mut t3);
        let mut t4 = vstd::bytes::u64_to_le_bytes(self.free_list_head);
        out.append(&mut t4);
        proof {
            vstd::bytes::lemma_auto_spec_u32_to_from_le_bytes();
            vstd::bytes::lemma_auto_spec_u64_to_from_le_bytes();
            assert(out@ =~= header_bytes(*self));
        }
        out
    }
}

// ---------------------------------------------------------------------------
// The record stream
// ---------------------------------------------------------------------------

/// One record at `pos`: its payload and the position after it, when a whole
/// record is present.
pub open spec fn rec_step(bytes: Seq<u8>, pos: int) -> Option<(Seq<u8>, int)> {
    if 0 <= pos && pos + 4 <= bytes.len() {
        let n = vstd::bytes::spec_u32_from_le_bytes(bytes.subrange(pos, pos + 4)) as int;
        if pos + 4 + n <= bytes.len() {
            Some((bytes.subrange(pos + 4, pos + 4 + n), pos + 4 + n))
        } else {
            None
        }
    } else {
        None
    }
}

/// Scan records from `pos` to the first incomplete one: the payloads read
/// and the position where scanning stopped.
pub open spec fn recs_scan(bytes: Seq<u8>, pos: int) -> (Seq<Seq<u8>>, int)
    decreases bytes.len() - pos,
{
    match rec_step(bytes, pos) {
        Some(r) => {
            if pos < r.1 <= bytes.len() {
                let rest = recs_scan(bytes, r.1);
                (seq![r.0] + rest.0, rest.1)
            } else {
                (Seq::empty(), pos)
            }
        }
        None => (Seq::empty(), pos),
    }
}

/// The data region is exactly a run of whole records.
pub open spec fn data_clean(bytes: Seq<u8>) -> bool {
    &&& bytes.len() >= DATA_START
    &&& recs_scan(bytes, DATA_START as int).1 == bytes.len()
}

/// The record payloads of the data region.
pub open spec fn spec_records(bytes: Seq<u8>) -> Seq<Seq<u8>> {
    recs_scan(bytes, DATA_START as int).0
}

/// A whole record parses the same when more bytes follow.
proof fn lemma_rec_step_extend(bytes: Seq<u8>, tail: Seq<u8>, pos: int)
    requires
        rec_step(bytes, pos) matches Some(r) && r.1 <= bytes.len(),
    ensures
        rec_step(bytes + tail, pos) == rec_step(bytes, pos),
{
    let ext = bytes + tail;
    assert(ext.subrange(pos, pos + 4) =~= bytes.subrange(pos, pos + 4));
    if rec_step(bytes, pos) is Some {
        let n = vstd::bytes::spec_u32_from_le_bytes(bytes.subrange(pos, pos + 4)) as int;
        assert(ext.subrange(pos + 4, pos + 4 + n) =~= bytes.subrange(pos + 4, pos + 4 + n));
    }
}

/// Appending one whole record to a clean stream appends its payload.
pub proof fn lemma_recs_append(bytes: Seq<u8>, pos: int, payload: Seq<u8>)
    requires
        0 <= pos,
        recs_scan(bytes, pos).1 == bytes.len(),
        payload.len() <= u32::MAX,
    ensures
        recs_scan(bytes + spec_u32_to_le_bytes(payload.len() as u32) + payload, pos) == (
            recs_scan(bytes, pos).0.push(payload),
            bytes.len() + 4 + payload.len() as int,
        ),
    decreases bytes.len() - pos,
{
    vstd::bytes::lemma_auto_spec_u32_to_from_le_bytes();
    let frame = spec_u32_to_le_bytes(payload.len() as u32) + payload;
    let ext = bytes + spec_u32_to_le_bytes(payload.len() as u32) + payload;
    assert(ext =~= bytes + frame);
    match rec_step(bytes, pos) {
        Some(r) => {
            if pos < r.1 <= bytes.len() {
                lemma_rec_step_extend(bytes, frame, pos);
                assert(rec_step(bytes + frame, pos) == rec_step(bytes, pos));
                lemma_recs_append(bytes, r.1, payload);
                assert(recs_scan(ext, pos).0 =~= recs_scan(bytes, pos).0.push(payload));
            } else {
                // a clean stream never stops inside a record
                assert(recs_scan(bytes, pos).1 == pos);
                assert(pos == bytes.len());
                assert(rec_step(bytes, pos) is None);
            }
        }
        None => {
            // scanning stopped exactly at the end: the next record is the
            // appended frame
            assert(pos == bytes.len());
            assert(ext.subrange(pos, pos + 4) =~= spec_u32_to_le_bytes(payload.len() as u32));
            assert(ext.subrange(pos + 4, pos + 4 + payload.len() as int) =~= payload);
            let next = pos + 4 + payload.len() as int;
            assert(rec_step(ext, pos) == Some((payload, next)));
            assert(rec_step(ext, next) is None);
            assert(recs_scan(ext, next) == (Seq::<Seq<u8>>::empty(), next));
            assert(recs_scan(ext, pos).0 =~= recs_scan(bytes, pos).0.push(payload));
        }
    }
}

/// Rewriting bytes strictly below `pos` leaves the scan from `pos` unchanged.
pub proof fn lemma_recs_scan_prefix_irrelevant(a: Seq<u8>, b: Seq<u8>, pos: int)
    requires
        0 <= pos <= a.len(),
        a.len() == b.len(),
        forall|t: int| pos <= t < a.len() ==> a[t] == b[t],
    ensures
        recs_scan(a, pos) == recs_scan(b, pos),
    decreases a.len() - pos,
{
    if pos + 4 <= a.len() {
        assert(a.subrange(pos, pos + 4) =~= b.subrange(pos, pos + 4));
        match rec_step(a, pos) {
            Some(r) => {
                let n = vstd::bytes::spec_u32_from_le_bytes(a.subrange(pos, pos + 4)) as int;
                assert(a.subrange(pos + 4, pos + 4 + n) =~= b.subrange(pos + 4, pos + 4 + n));
                if pos < r.1 <= a.len() {
                    lemma_recs_scan_prefix_irrelevant(a, b, r.1);
                }
            }
            None => {
                assert(rec_step(b, pos) is None);
            }
        }
    } else {
        assert(rec_step(a, pos) is None);
        assert(rec_step(b, pos) is None);
    }
}

// ---------------------------------------------------------------------------
// The live-document view
// ---------------------------------------------------------------------------

/// A parsed record: owning collection, id, the whole document value, and
/// whether it is a tombstone. Records that do not decode to such a document
/// are skipped by every reader.
pub open spec fn record_doc(bytes: Seq<u8>) -> Option<(Seq<char>, DocumentIdV, ValueV, bool)> {
    match spec_dec(bytes, 0) {
        Some(p) => {
            if p.1 == bytes.len() {
                let v = p.0;
                match crate::value::value_field(v, "_collection"@) {
                    Some(cv) => match cv {
                        ValueV::String(c) => match crate::value::value_field(v, "_id"@) {
                            Some(idv) => match parse_doc_id(idv) {
                                Some(id) => Some((c, id, v, spec_is_tombstone(v))),
                                None => None,
                            },
                            None => None,
                        },
                        _ => None,
                    },
                    None => None,
                }
            } else {
                None
            }
        }
        None => None,
    }
}

/// The id named by an `_id` field value.
pub open spec fn parse_doc_id(v: ValueV) -> Option<DocumentIdV> {
    match v {
        ValueV::Int(i) => Some(DocumentIdV::Int(i)),
        ValueV::String(s) => Some(DocumentIdV::String(s)),
        _ => None,
    }
}

/// The document is a tombstone.
pub open spec fn spec_is_tombstone(v: ValueV) -> bool {
    crate::value::value_field(v, "_tombstone"@) == Some(ValueV::Bool(true))
}

/// The live documents of a collection: scanning the records in order, the
/// latest record for each id wins, and a latest tombstone removes the id.
pub open spec fn live_map(records: Seq<Seq<u8>>, coll: Seq<char>) -> Map<DocumentIdV, ValueV>
    decreases records.len(),
{
    if records.len() == 0 {
        Map::empty()
    } else {
        let m = live_map(records.drop_last(), coll);
        match record_doc(records.last()) {
            Some(d) => {
                if d.0 == coll {
                    if d.3 {
                        m.remove(d.1)
                    } else {
                        m.insert(d.1, d.2)
                    }
                } else {
                    m
                }
            }
            None => m,
        }
    }
}

/// Fold a run of records over an existing live-document map.
pub open spec fn apply_records(
    m: Map<DocumentIdV, ValueV>,
    records: Seq<Seq<u8>>,
    coll: Seq<char>,
) -> Map<DocumentIdV, ValueV>
    decreases records.len(),
{
    if records.len() == 0 {
        m
    } else {
        let pre = apply_records(m, records.drop_last(), coll);
        match record_doc(records.last()) {
            Some(d) => {
                if d.0 == coll {
                    if d.3 {
                        pre.remove(d.1)
                    } else {
                        pre.insert(d.1, d.2)
                    }
                } else {
                    pre
                }
            }
            None => pre,
        }
    }
}

/// The live documents of a concatenation fold the suffix over the prefix.
pub proof fn lemma_live_map_concat(s: Seq<Seq<u8>>, r: Seq<Seq<u8>>, coll: Seq<char>)
    ensures
        live_map(s + r, coll) == apply_records(live_map(s, coll), r, coll),
    decreases r.len(),
{
    if r.len() == 0 {
        assert(s + r =~= s);
    } else {
        lemma_live_map_concat(s, r.drop_last(), coll);
        assert((s + r).drop_last() =~= s + r.drop_last());
        assert((s + r).last() == r.last());
    }
}

/// What the last record of a run touching `id` says: nothing, a deletion,
/// or a value.
pub open spec fn last_touch(records: Seq<Seq<u8>>, coll: Seq<char>, id: DocumentIdV) -> Option<
    Option<ValueV>,
>
    decreases records.len(),
{
    if records.len() == 0 {
        None
    } else {
        match record_doc(records.last()) {
            Some(d) => {
                if d.0 == coll && d.1 == id {
                    Some(if d.3 {
                        None
                    } else {
                        Some(d.2)
                    })
                } else {
                    last_touch(records.drop_last(), coll, id)
                }
            }
            None => last_touch(records.drop_last(), coll, id),
        }
    }
}

/// Folding records decides each id by the last record touching it, and falls
/// back to the starting map for untouched ids.
pub proof fn lemma_apply_records_touch(
    m: Map<DocumentIdV, ValueV>,
    records: Seq<Seq<u8>>,
    coll: Seq<char>,
    id: DocumentIdV,
)
    ensures
        match last_touch(records, coll, id) {
            None => apply_records(m, records, coll).contains_key(id) == m.contains_key(id)
                && (m.contains_key(id) ==> apply_records(m, records, coll)[id] == m[id]),
            Some(t) => match t {
                None => !apply_records(m, records, coll).contains_key(id),
                Some(v) => apply_records(m, records, coll).contains_key(id) && apply_records(
                    m,
                    records,
                    coll,
                )[id] == v,
            },
        },
    decreases records.len(),
{
    if records.len() > 0 {
        lemma_apply_records_touch(m, records.drop_last(), coll, id);
    }
}

/// Law: replaying the same committed records twice leaves the live
/// documents exactly as after one replay — recovery is idempotent.
pub proof fn lemma_replay_idempotent(base: Seq<Seq<u8>>, replay: Seq<Seq<u8>>, coll: Seq<char>)
    ensures
        live_map(base + replay + replay, coll) == live_map(base + replay, coll),
{
    let once = live_map(base + replay, coll);
    lemma_live_map_concat(base + replay, replay, coll);
    assert(base + replay + replay =~= (base + replay) + replay);
    let twice = apply_records(once, replay, coll);
    assert forall|id: DocumentIdV|
        #![trigger twice.dom().contains(id)]
        #![trigger once.dom().contains(id)]
        twice.dom().contains(id) == once.dom().contains(id) && (once.dom().contains(id)
            ==> twice[id] == once[id]) by {
        lemma_apply_records_touch(once, replay, coll, id);
        lemma_live_map_concat(base, replay, coll);
        lemma_apply_records_touch(live_map(base, coll), replay, coll, id);
    }
    assert(twice =~= once);
}

} // verus!

verus! {

/// Metadata of one collection.
#[derive(Debug)]
pub struct CollectionMeta {
    pub name: String,
    pub document_count: u64,
    /// Start of the data region; always the fixed data start.
    pub data_offset: u64,
    /// Start of the index section; always the fixed data start.
    pub index_offset: u64,
    pub last_id: u64,
    /// Record offset per document id, as of the last compaction: the
    /// write path appends records without touching the catalog, and
    /// compaction rebuilds it so each kept id points at its new offset.
    pub document_catalog: Vec<(crate::value::DocumentId, u64)>,
    /// Persisted index descriptors.
    pub indexes: Vec<crate::index::IndexMetadata>,
}

/// Mathematical model of collection metadata.
#[verifier::ext_equal]
pub struct CollectionMetaV {
    pub name: Seq<char>,
    pub document_count: u64,
    pub data_offset: u64,
    pub index_offset: u64,
    pub last_id: u64,
    pub document_catalog: Seq<(DocumentIdV, u64)>,
    pub indexes: Seq<crate::index::IndexMetadataV>,
}

impl View for CollectionMeta {
    type V = CollectionMetaV;

    open spec fn view(&self) -> CollectionMetaV {
        CollectionMetaV {
            name: self.name@,
            document_count: self.document_count,
            data_offset: self.data_offset,
            index_offset: self.index_offset,
            last_id: self.last_id,
            document_catalog: Seq::new(
                self.document_catalog@.len(),
                |i: int| (self.document_catalog@[i].0@, self.document_catalog@[i].1),
            ),
            indexes: Seq::new(self.indexes@.len(), |i: int| self.indexes@[i]@),
        }
    }
}

// ---------------------------------------------------------------------------
// Metadata as a document value
// ---------------------------------------------------------------------------

/// A 64-bit unsigned number as a value (two's-complement integer).
pub open spec fn u64_value(x: u64) -> ValueV {
    ValueV::Int(crate::value::bits_i64(x))
}

/// A number value read back as a 64-bit unsigned number.
pub open spec fn parse_u64(v: ValueV) -> Option<u64> {
    match v {
        ValueV::Int(i) => Some(crate::value::i64_bits(i)),
        _ => None,
    }
}

/// A document id as a tagged value.
pub open spec fn id_value(d: DocumentIdV) -> ValueV {
    match d {
        DocumentIdV::Int(i) => ValueV::Array(seq![ValueV::Int(0), ValueV::Int(i)]),
        DocumentIdV::String(s) => ValueV::Array(seq![ValueV::Int(1), ValueV::String(s)]),
        DocumentIdV::ObjectId(s) => ValueV::Array(seq![ValueV::Int(2), ValueV::String(s)]),
    }
}

/// A tagged value read back as a document id.
pub open spec fn parse_id(v: ValueV) -> Option<DocumentIdV> {
    match v {
        ValueV::Array(items) => {
            if items.len() == 2 {
                match (items[0], items[1]) {
                    (ValueV::Int(0i64), ValueV::Int(i)) => Some(DocumentIdV::Int(i)),
                    (ValueV::Int(1i64), ValueV::String(s)) => Some(DocumentIdV::String(s)),
                    (ValueV::Int(2i64), ValueV::String(s)) => Some(DocumentIdV::ObjectId(s)),
                    _ => None,
                }
            } else {
                None
            }
        }
        _ => None,
    }
}

/// One catalog entry as a value.
pub open spec fn catalog_entry_value(e: (DocumentIdV, u64)) -> ValueV {
    ValueV::Array(seq![id_value(e.0), u64_value(e.1)])
}

/// A value read back as a catalog entry.
pub open spec fn parse_catalog_entry(v: ValueV) -> Option<(DocumentIdV, u64)> {
    match v {
        ValueV::Array(items) => {
            if items.len() == 2 {
                match (parse_id(items[0]), parse_u64(items[1])) {
                    (Some(id), Some(off)) => Some((id, off)),
                    _ => None,
                }
            } else {
                None
            }
        }
        _ => None,
    }
}

/// An index descriptor as a value.
pub open spec fn im_value(ix: crate::index::IndexMetadataV) -> ValueV {
    ValueV::Object(
        seq![
            ("name"@, ValueV::String(ix.name)),
            ("field"@, ValueV::String(ix.field)),
            ("unique"@, ValueV::Bool(ix.unique)),
            ("sparse"@, ValueV::Bool(ix.sparse)),
            ("num_keys"@, u64_value(ix.num_keys)),
            ("tree_height"@, ValueV::Int(ix.tree_height as i64)),
            ("root_offset"@, u64_value(ix.root_offset)),
        ],
    )
}

/// A value read back as an index descriptor.
pub open spec fn parse_im(v: ValueV) -> Option<crate::index::IndexMetadataV> {
    match v {
        ValueV::Object(fields) => {
            if fields.len() == 7 && fields[0].0 == "name"@ && fields[1].0 == "field"@
                && fields[2].0 == "unique"@ && fields[3].0 == "sparse"@ && fields[4].0
                == "num_keys"@ && fields[5].0 == "tree_height"@ && fields[6].0
                == "root_offset"@ {
                match (fields[0].1, fields[1].1, fields[2].1, fields[3].1, fields[5].1) {
                    (
                        ValueV::String(name),
                        ValueV::String(field),
                        ValueV::Bool(unique),
                        ValueV::Bool(sparse),
                        ValueV::Int(th),
                    ) => {
                        match (parse_u64(fields[4].1), parse_u64(fields[6].1)) {
                            (Some(num_keys), Some(root_offset)) => {
                                if 0 <= th <= u32::MAX {
                                    Some(
                                        crate::index::IndexMetadataV {
                                            name,
                                            field,
                                            unique,
                                            sparse,
                                            num_keys,
                                            tree_height: th as u32,
                                            root_offset,
                                        },
                                    )
                                } else {
                                    None
                                }
                            }
                            _ => None,
                        }
                    }
                    _ => None,
                }
            } else {
                None
            }
        }
        _ => None,
    }
}

/// A run of values, each from one element.
pub open spec fn list_value<A>(s: Seq<A>, f: spec_fn(A) -> ValueV) -> ValueV {
    ValueV::Array(Seq::new(s.len(), |i: int| f(s[i])))
}

/// Parse each element of a run; any failure fails the run.
pub open spec fn parse_list<A>(items: Seq<ValueV>, f: spec_fn(ValueV) -> Option<A>) -> Option<
    Seq<A>,
>
    decreases items.len(),
{
    if items.len() == 0 {
        Some(Seq::empty())
    } else {
        match parse_list(items.drop_last(), f) {
            Some(pre) => match f(items.last()) {
                Some(a) => Some(pre.push(a)),
                None => None,
            },
            None => None,
        }
    }
}

/// Parsing a built run of values gives back the elements.
pub proof fn lemma_parse_list_roundtrip<A>(
    s: Seq<A>,
    f: spec_fn(A) -> ValueV,
    g: spec_fn(ValueV) -> Option<A>,
)
    requires
        forall|a: A| s.contains(a) ==> #[trigger] g(f(a)) == Some(a),
    ensures
        parse_list(Seq::new(s.len(), |i: int| f(s[i])), g) == Some(s),
    decreases s.len(),
{
    let items = Seq::new(s.len(), |i: int| f(s[i]));
    if s.len() == 0 {
        assert(parse_list(items, g) == Some(Seq::<A>::empty()));
        assert(Seq::<A>::empty() =~= s);
    } else {
        let pre = s.drop_last();
        assert(forall|a: A| pre.contains(a) ==> s.contains(a)) by {
            assert(forall|i: int| 0 <= i < pre.len() ==> pre[i] == s[i]);
        }
        lemma_parse_list_roundtrip(pre, f, g);
        assert(items.drop_last() =~= Seq::new(pre.len(), |i: int| f(pre[i])));
        assert(items.last() == f(s.last()));
        assert(s.contains(s.last()));
        assert(g(f(s.last())) == Some(s.last()));
        assert(pre.push(s.last()) =~= s);
    }
}

/// One collection's metadata as a value.
pub open spec fn meta_value(m: CollectionMetaV) -> ValueV {
    ValueV::Object(
        seq![
            ("name"@, ValueV::String(m.name)),
            ("document_count"@, u64_value(m.document_count)),
            ("data_offset"@, u64_value(m.data_offset)),
            ("index_offset"@, u64_value(m.index_offset)),
            ("last_id"@, u64_value(m.last_id)),
            ("catalog"@, list_value(m.document_catalog, |e: (DocumentIdV, u64)| catalog_entry_value(e))),
            ("indexes"@, list_value(m.indexes, |ix: crate::index::IndexMetadataV| im_value(ix))),
        ],
    )
}

/// A value read back as one collection's metadata.
pub open spec fn parse_meta(v: ValueV) -> Option<CollectionMetaV> {
    match v {
        ValueV::Object(fields) => {
            if fields.len() == 7 && fields[0].0 == "name"@ && fields[1].0 == "document_count"@
                && fields[2].0 == "data_offset"@ && fields[3].0 == "index_offset"@
                && fields[4].0 == "last_id"@ && fields[5].0 == "catalog"@ && fields[6].0
                == "indexes"@ {
                match (fields[0].1, fields[5].1, fields[6].1) {
                    (ValueV::String(name), ValueV::Array(cat), ValueV::Array(ixs)) => {
                        match (
                            parse_u64(fields[1].1),
                            parse_u64(fields[2].1),
                            parse_u64(fields[3].1),
                            parse_u64(fields[4].1),
                        ) {
                            (
                                Some(document_count),
                                Some(data_offset),
                                Some(index_offset),
                                Some(last_id),
                            ) => {
                                match (
                                    parse_list(cat, |cv: ValueV| parse_catalog_entry(cv)),
                                    parse_list(ixs, |iv: ValueV| parse_im(iv)),
                                ) {
                                    (Some(document_catalog), Some(indexes)) => Some(
                                        CollectionMetaV {
                                            name,
                                            document_count,
                                            data_offset,
                                            index_offset,
                                            last_id,
                                            document_catalog,
                                            indexes,
                                        },
                                    ),
                                    _ => None,
                                }
                            }
                            _ => None,
                        }
                    }
                    _ => None,
                }
            } else {
                None
            }
        }
        _ => None,
    }
}

/// The whole metadata section as one value.
pub open spec fn metas_value(ms: Seq<CollectionMetaV>) -> ValueV {
    list_value(ms, |m: CollectionMetaV| meta_value(m))
}

/// A value read back as the whole metadata section.
pub open spec fn parse_metas(v: ValueV) -> Option<Seq<CollectionMetaV>> {
    match v {
        ValueV::Array(items) => parse_list(items, |mv: ValueV| parse_meta(mv)),
        _ => None,
    }
}

/// Parsing a built metadata value gives back the metadata.
pub proof fn lemma_metas_roundtrip(ms: Seq<CollectionMetaV>)
    ensures
        parse_metas(metas_value(ms)) == Some(ms),
{
    assert forall|m: CollectionMetaV| ms.contains(m) implies #[trigger] parse_meta(meta_value(m))
        == Some(m) by {
        lemma_meta_roundtrip(m);
    }
    lemma_parse_list_roundtrip(ms, |m: CollectionMetaV| meta_value(m), |mv: ValueV| parse_meta(mv));
}

/// Parsing one built collection value gives back its metadata.
proof fn lemma_meta_roundtrip(m: CollectionMetaV)
    ensures
        parse_meta(meta_value(m)) == Some(m),
{
    assert forall|e: (DocumentIdV, u64)| m.document_catalog.contains(e)
        implies #[trigger] parse_catalog_entry(catalog_entry_value(e)) == Some(e) by {
        assert(crate::value::i64_bits(crate::value::bits_i64(e.1)) == e.1);
    }
    lemma_parse_list_roundtrip(
        m.document_catalog,
        |e: (DocumentIdV, u64)| catalog_entry_value(e),
        |cv: ValueV| parse_catalog_entry(cv),
    );
    assert forall|ix: crate::index::IndexMetadataV| m.indexes.contains(ix)
        implies #[trigger] parse_im(im_value(ix)) == Some(ix) by {
        assert(crate::value::i64_bits(crate::value::bits_i64(ix.num_keys)) == ix.num_keys);
        assert(crate::value::i64_bits(crate::value::bits_i64(ix.root_offset)) == ix.root_offset);
        assert(parse_im(im_value(ix)) =~= Some(ix));
    }
    lemma_parse_list_roundtrip(
        m.indexes,
        |ix: crate::index::IndexMetadataV| im_value(ix),
        |iv: ValueV| parse_im(iv),
    );
    assert(crate::value::i64_bits(crate::value::bits_i64(m.document_count)) == m.document_count);
    assert(crate::value::i64_bits(crate::value::bits_i64(m.data_offset)) == m.data_offset);
    assert(crate::value::i64_bits(crate::value::bits_i64(m.index_offset)) == m.index_offset);
    assert(crate::value::i64_bits(crate::value::bits_i64(m.last_id)) == m.last_id);
    assert(parse_meta(meta_value(m)) =~= Some(m));
}

} // verus!

verus! {

/// Models of a run of collection metadata.
pub open spec fn meta_views(s: Seq<CollectionMeta>) -> Seq<CollectionMetaV> {
    Seq::new(s.len(), |i: int| s[i]@)
}

/// A 64-bit unsigned number as a value.
fn u64_to_value(x: u64) -> (r: Value)
    ensures
        r@ == u64_value(x),
{
    Value::Int(crate::value::bits_to_i64(x))
}

/// A document id as a tagged value.
fn id_to_value(d: &crate::value::DocumentId) -> (r: Value)
    ensures
        r@ == id_value(d@),
{
    let mut items: Vec<Value> = Vec::new();
    match d {
        crate::value::DocumentId::Int(i) => {
            items.push(Value::Int(0));
            items.push(Value::Int(*i));
        }
        crate::value::DocumentId::String(s) => {
            items.push(Value::Int(1));
            items.push(Value::String(s.clone()));
        }
        crate::value::DocumentId::ObjectId(s) => {
            items.push(Value::Int(2));
            items.push(Value::String(s.clone()));
        }
    }
    proof {
        broadcast use crate::value::group_value_views;

        assert(crate::value::values_view(items@, 2) =~= match d@ {
            DocumentIdV::Int(i) => seq![ValueV::Int(0), ValueV::Int(i)],
            DocumentIdV::String(s) => seq![ValueV::Int(1), ValueV::String(s)],
            DocumentIdV::ObjectId(s) => seq![ValueV::Int(2), ValueV::String(s)],
        });
    }
    Value::Array(items)
}

/// An index descriptor as a value.
fn im_to_value(ix: &crate::index::IndexMetadata) -> (r: Value)
    ensures
        r@ == im_value(ix@),
{
    let mut fields: Vec<(String, Value)> = Vec::new();
    fields.push((String::from_str("name"), Value::String(ix.name.clone())));
    fields.push((String::from_str("field"), Value::String(ix.field.clone())));
    fields.push((String::from_str("unique"), Value::Bool(ix.unique)));
    fields.push((String::from_str("sparse"), Value::Bool(ix.sparse)));
    fields.push((String::from_str("num_keys"), u64_to_value(ix.num_keys)));
    fields.push((String::from_str("tree_height"), Value::Int(ix.tree_height as i64)));
    fields.push((String::from_str("root_offset"), u64_to_value(ix.root_offset)));
    proof {
        broadcast use crate::value::group_value_views;

        assert(crate::value::fields_view(fields@, 7) =~= im_value(ix@)->Object_0);
    }
    Value::Object(fields)
}

/// All collection metadata as one value.
fn metas_to_value(ms: &Vec<CollectionMeta>) -> (r: Value)
    ensures
        r@ == metas_value(meta_views(ms@)),
{
    let mut items: Vec<Value> = Vec::new();
    let mut i: usize = 0;
    while i < ms.len()
        invariant
            i <= ms@.len(),
            items@.len() == i,
            forall|k: int| 0 <= k < i ==> (#[trigger] items@[k])@ == meta_value(ms@[k]@),
        decreases ms@.len() - i,
    {
        let m = &ms[i];
        let mut cat: Vec<Value> = Vec::new();
        let mut c: usize = 0;
        while c < m.document_catalog.len()
            invariant
                c <= m.document_catalog@.len(),
                cat@.len() == c,
                forall|k: int| 0 <= k < c ==> (#[trigger] cat@[k])@ == catalog_entry_value(
                    (m.document_catalog@[k].0@, m.document_catalog@[k].1),
                ),
            decreases m.document_catalog@.len() - c,
        {
            let mut pair: Vec<Value> = Vec::new();
            pair.push(id_to_value(&m.document_catalog[c].0));
            pair.push(u64_to_value(m.document_catalog[c].1));
            proof {
                broadcast use crate::value::group_value_views;

                assert(crate::value::values_view(pair@, 2) =~= seq![
                    id_value(m.document_catalog@[c as int].0@),
                    u64_value(m.document_catalog@[c as int].1),
                ]);
            }
            cat.push(Value::Array(pair));
            c = c + 1;
        }
        let mut ixs: Vec<Value> = Vec::new();
        let mut x: usize = 0;
        while x < m.indexes.len()
            invariant
                x <= m.indexes@.len(),
                ixs@.len() == x,
                forall|k: int| 0 <= k < x ==> (#[trigger] ixs@[k])@ == im_value(m.indexes@[k]@),
            decreases m.indexes@.len() - x,
        {
            ixs.push(im_to_value(&m.indexes[x]));
            x = x + 1;
        }
        let mut fields: Vec<(String, Value)> = Vec::new();
        fields.push((String::from_str("name"), Value::String(m.name.clone())));
        fields.push((String::from_str("document_count"), u64_to_value(m.document_count)));
        fields.push((String::from_str("data_offset"), u64_to_value(m.data_offset)));
        fields.push((String::from_str("index_offset"), u64_to_value(m.index_offset)));
        fields.push((String::from_str("last_id"), u64_to_value(m.last_id)));
        let ghost catv = cat@;
        let ghost ixsv = ixs@;
        fields.push((String::from_str("catalog"), Value::Array(cat)));
        fields.push((String::from_str("indexes"), Value::Array(ixs)));
        proof {
            broadcast use crate::value::group_value_views;

            assert(crate::value::values_view(catv, catv.len() as int) =~= Seq::new(
                m@.document_catalog.len(),
                |k: int| catalog_entry_value(m@.document_catalog[k]),
            ));
            assert(crate::value::values_view(ixsv, ixsv.len() as int) =~= Seq::new(
                m@.indexes.len(),
                |k: int| im_value(m@.indexes[k]),
            ));
            assert(crate::value::values_view(catv, catv.len() as int) =~= list_value(
                m@.document_catalog,
                |e: (DocumentIdV, u64)| catalog_entry_value(e),
            )->Array_0);
            assert(crate::value::values_view(ixsv, ixsv.len() as int) =~= list_value(
                m@.indexes,
                |ix2: crate::index::IndexMetadataV| im_value(ix2),
            )->Array_0);
            assert(crate::value::fields_view(fields@, 7) =~= meta_value(m@)->Object_0);
        }
        items.push(Value::Object(fields));
        i = i + 1;
    }
    proof {
        broadcast use crate::value::group_value_views;

        assert(crate::value::values_view(items@, items@.len() as int) =~= list_value(
            meta_views(ms@),
            |m2: CollectionMetaV| meta_value(m2),
        )->Array_0);
    }
    Value::Array(items)
}

} // verus!

verus! {

/// A value read back as a 64-bit unsigned number.
fn value_to_u64(v: &Value) -> (r: Option<u64>)
    ensures
        r == parse_u64(v@),
{
    match v {
        Value::Int(i) => Some(crate::value::i64_to_bits(*i)),
        _ => None,
    }
}

/// A tagged value read back as a document id.
fn value_to_id(v: &Value) -> (r: Option<crate::value::DocumentId>)
    ensures
        match r {
            Some(d) => parse_id(v@) == Some(d@),
            None => parse_id(v@) is None,
        },
{
    proof {
        broadcast use crate::value::group_value_views;
    }
    match v {
        Value::Array(items) => {
            let ghost itemsv = crate::value::values_view(items@, items@.len() as int);
            proof {
                assert(v@ == ValueV::Array(itemsv));
                assert(itemsv.len() == items@.len());
                assert(forall|k: int| 0 <= k < itemsv.len()
                    ==> #[trigger] itemsv[k] == items@[k]@);
            }
            if items.len() != 2 {
                return None;
            }
            let tag = match &items[0] {
                Value::Int(t) => *t,
                _ => {
                    return None;
                }
            };
            if tag == 0 {
                match &items[1] {
                    Value::Int(i) => Some(crate::value::DocumentId::Int(*i)),
                    _ => None,
                }
            } else if tag == 1 {
                match &items[1] {
                    Value::String(s) => Some(crate::value::DocumentId::String(s.clone())),
                    _ => None,
                }
            } else if tag == 2 {
                match &items[1] {
                    Value::String(s) => Some(crate::value::DocumentId::ObjectId(s.clone())),
                    _ => None,
                }
            } else {
                None
            }
        }
        _ => None,
    }
}

/// A value read back as an index descriptor.
fn value_to_im(v: &Value) -> (r: Option<crate::index::IndexMetadata>)
    ensures
        match r {
            Some(ix) => parse_im(v@) == Some(ix@),
            None => parse_im(v@) is None,
        },
{
    proof {
        broadcast use crate::value::group_value_views;
    }
    match v {
        Value::Object(fields) => {
            let ghost fieldsv = crate::value::fields_view(fields@, fields@.len() as int);
            proof {
                assert(v@ == ValueV::Object(fieldsv));
                assert(fieldsv.len() == fields@.len());
                assert(forall|k: int| 0 <= k < fieldsv.len() ==> #[trigger] fieldsv[k] == (
                    fields@[k].0@,
                    fields@[k].1@,
                ));
            }
            if fields.len() != 7 {
                return None;
            }
            let names_ok = crate::value::str_eq(fields[0].0.as_str(), "name")
                && crate::value::str_eq(fields[1].0.as_str(), "field")
                && crate::value::str_eq(fields[2].0.as_str(), "unique")
                && crate::value::str_eq(fields[3].0.as_str(), "sparse")
                && crate::value::str_eq(fields[4].0.as_str(), "num_keys")
                && crate::value::str_eq(fields[5].0.as_str(), "tree_height")
                && crate::value::str_eq(fields[6].0.as_str(), "root_offset");
            if !names_ok {
                return None;
            }
            let name = match &fields[0].1 {
                Value::String(s) => s.clone(),
                _ => {
                    return None;
                }
            };
            let field = match &fields[1].1 {
                Value::String(s) => s.clone(),
                _ => {
                    return None;
                }
            };
            let unique = match &fields[2].1 {
                Value::Bool(b) => *b,
                _ => {
                    return None;
                }
            };
            let sparse = match &fields[3].1 {
                Value::Bool(b) => *b,
                _ => {
                    return None;
                }
            };
            let num_keys = match value_to_u64(&fields[4].1) {
                Some(x) => x,
                None => {
                    return None;
                }
            };
            let th = match &fields[5].1 {
                Value::Int(t) => *t,
                _ => {
                    return None;
                }
            };
            if !(0 <= th && th <= u32::MAX as i64) {
                return None;
            }
            let root_offset = match value_to_u64(&fields[6].1) {
                Some(x) => x,
                None => {
                    return None;
                }
            };
            Some(
                crate::index::IndexMetadata {
                    name,
                    field,
                    unique,
                    sparse,
                    num_keys,
                    tree_height: th as u32,
                    root_offset,
                },
            )
        }
        _ => None,
    }
}

/// A value read back as all collection metadata.
#[verifier::rlimit(100)]
fn value_to_metas(v: &Value) -> (r: Option<Vec<CollectionMeta>>)
    ensures
        match r {
            Some(ms) => parse_metas(v@) == Some(meta_views(ms@)),
            None => parse_metas(v@) is None,
        },
{
    proof {
        broadcast use crate::value::group_value_views;
    }
    let items = match v {
        Value::Array(items) => items,
        _ => {
            return None;
        }
    };
    let ghost itemsv = crate::value::values_view(items@, items@.len() as int);
    let mut out: Vec<CollectionMeta> = Vec::new();
    let mut i: usize = 0;
    while i < items.len()
        invariant
            i <= items@.len(),
            itemsv == crate::value::values_view(items@, items@.len() as int),
            itemsv.len() == items@.len(),
            v@ == ValueV::Array(itemsv),
            out@.len() == i,
            parse_list(itemsv.subrange(0, i as int), |mv: ValueV| parse_meta(mv)) == Some(
                meta_views(out@),
            ),
        decreases items@.len() - i,
    {
        proof {
            broadcast use crate::value::group_value_views;

            assert(itemsv.subrange(0, i + 1).drop_last() =~= itemsv.subrange(0, i as int));
            assert(itemsv.subrange(0, i + 1).last() == itemsv[i as int]);
        }
        let m = match value_to_meta(&items[i]) {
            Some(m) => m,
            None => {
                proof {
                    lemma_parse_list_prefix_none(itemsv, i as int);
                }
                return None;
            }
        };
        out.push(m);
        proof {
            assert(meta_views(out@) =~= parse_list(
                itemsv.subrange(0, i as int),
                |mv: ValueV| parse_meta(mv),
            )->Some_0.push(m@));
        }
        i = i + 1;
    }
    proof {
        assert(itemsv.subrange(0, itemsv.len() as int) =~= itemsv);
    }
    Some(out)
}

/// A failing element fails the whole run, wherever the failure sits.
proof fn lemma_parse_list_prefix_none(items: Seq<ValueV>, i: int)
    requires
        0 <= i < items.len(),
        parse_meta(items[i]) is None,
    ensures
        parse_list(items, |mv: ValueV| parse_meta(mv)) is None,
    decreases items.len(),
{
    if i == items.len() - 1 {
        if parse_list(items.drop_last(), |mv: ValueV| parse_meta(mv)) is Some {
            assert(items.last() == items[i]);
        }
    } else {
        assert(items.drop_last()[i] == items[i]);
        lemma_parse_list_prefix_none(items.drop_last(), i);
    }
}

/// A failing catalog entry fails the whole run.
proof fn lemma_parse_catalog_prefix_none(items: Seq<ValueV>, i: int)
    requires
        0 <= i < items.len(),
        parse_catalog_entry(items[i]) is None,
    ensures
        parse_list(items, |cv: ValueV| parse_catalog_entry(cv)) is None,
    decreases items.len(),
{
    if i == items.len() - 1 {
        if parse_list(items.drop_last(), |cv: ValueV| parse_catalog_entry(cv)) is Some {
            assert(items.last() == items[i]);
        }
    } else {
        assert(items.drop_last()[i] == items[i]);
        lemma_parse_catalog_prefix_none(items.drop_last(), i);
    }
}

/// A failing index descriptor fails the whole run.
proof fn lemma_parse_im_prefix_none(items: Seq<ValueV>, i: int)
    requires
        0 <= i < items.len(),
        parse_im(items[i]) is None,
    ensures
        parse_list(items, |iv: ValueV| parse_im(iv)) is None,
    decreases items.len(),
{
    if i == items.len() - 1 {
        if parse_list(items.drop_last(), |iv: ValueV| parse_im(iv)) is Some {
            assert(items.last() == items[i]);
        }
    } else {
        assert(items.drop_last()[i] == items[i]);
        lemma_parse_im_prefix_none(items.drop_last(), i);
    }
}

/// A run of values read back as catalog entries.
fn value_to_catalog(cat_items: &Vec<Value>) -> (r: Option<Vec<(crate::value::DocumentId, u64)>>)
    ensures
        ({
            let catv = crate::value::values_view(cat_items@, cat_items@.len() as int);
            match r {
                Some(cat) => parse_list(catv, |cv: ValueV| parse_catalog_entry(cv)) == Some(
                    Seq::new(cat@.len(), |k: int| (cat@[k].0@, cat@[k].1)),
                ),
                None => parse_list(catv, |cv: ValueV| parse_catalog_entry(cv)) is None,
            }
        }),
{
    let ghost catv = crate::value::values_view(cat_items@, cat_items@.len() as int);
    proof {
        assert(forall|k: int| 0 <= k < catv.len() ==> #[trigger] catv[k] == cat_items@[k]@);
    }
    let mut out: Vec<(crate::value::DocumentId, u64)> = Vec::new();
    let mut c: usize = 0;
    while c < cat_items.len()
        invariant
            c <= cat_items@.len(),
            catv == crate::value::values_view(cat_items@, cat_items@.len() as int),
            catv.len() == cat_items@.len(),
            forall|k: int| 0 <= k < catv.len() ==> #[trigger] catv[k] == cat_items@[k]@,
            out@.len() == c,
            parse_list(catv.subrange(0, c as int), |cv: ValueV| parse_catalog_entry(cv)) == Some(
                Seq::new(out@.len(), |k: int| (out@[k].0@, out@[k].1)),
            ),
        decreases cat_items@.len() - c,
    {
        proof {
            assert(catv.subrange(0, c + 1).drop_last() =~= catv.subrange(0, c as int));
            assert(catv.subrange(0, c + 1).last() == catv[c as int]);
        }
        let entry = match &cat_items[c] {
            Value::Array(pair) => {
                let ghost pairv = crate::value::values_view(pair@, pair@.len() as int);
                proof {
                    assert(cat_items@[c as int]@ == ValueV::Array(pairv));
                    assert(pairv.len() == pair@.len());
                    assert(forall|k: int| 0 <= k < pairv.len()
                        ==> #[trigger] pairv[k] == pair@[k]@);
                }
                if pair.len() != 2 {
                    proof {
                        lemma_parse_catalog_prefix_none(catv, c as int);
                    }
                    return None;
                }
                let id = match value_to_id(&pair[0]) {
                    Some(d) => d,
                    None => {
                        proof {
                            lemma_parse_catalog_prefix_none(catv, c as int);
                        }
                        return None;
                    }
                };
                let off = match value_to_u64(&pair[1]) {
                    Some(x) => x,
                    None => {
                        proof {
                            lemma_parse_catalog_prefix_none(catv, c as int);
                        }
                        return None;
                    }
                };
                (id, off)
            }
            _ => {
                proof {
                    lemma_parse_catalog_prefix_none(catv, c as int);
                }
                return None;
            }
        };
        let ghost oldcat = out@;
        out.push(entry);
        proof {
            assert(Seq::new(out@.len(), |k: int| (out@[k].0@, out@[k].1)) =~= Seq::new(
                oldcat.len(),
                |k: int| (oldcat[k].0@, oldcat[k].1),
            ).push((entry.0@, entry.1)));
        }
        c = c + 1;
    }
    proof {
        assert(catv.subrange(0, catv.len() as int) =~= catv);
    }
    Some(out)
}

/// A run of values read back as index descriptors.
fn value_to_ims(ix_items: &Vec<Value>) -> (r: Option<Vec<crate::index::IndexMetadata>>)
    ensures
        ({
            let ixv = crate::value::values_view(ix_items@, ix_items@.len() as int);
            match r {
                Some(ixs) => parse_list(ixv, |iv: ValueV| parse_im(iv)) == Some(
                    Seq::new(ixs@.len(), |k: int| ixs@[k]@),
                ),
                None => parse_list(ixv, |iv: ValueV| parse_im(iv)) is None,
            }
        }),
{
    let ghost ixv = crate::value::values_view(ix_items@, ix_items@.len() as int);
    proof {
        assert(forall|k: int| 0 <= k < ixv.len() ==> #[trigger] ixv[k] == ix_items@[k]@);
    }
    let mut out: Vec<crate::index::IndexMetadata> = Vec::new();
    let mut x: usize = 0;
    while x < ix_items.len()
        invariant
            x <= ix_items@.len(),
            ixv == crate::value::values_view(ix_items@, ix_items@.len() as int),
            ixv.len() == ix_items@.len(),
            forall|k: int| 0 <= k < ixv.len() ==> #[trigger] ixv[k] == ix_items@[k]@,
            out@.len() == x,
            parse_list(ixv.subrange(0, x as int), |iv: ValueV| parse_im(iv)) == Some(
                Seq::new(out@.len(), |k: int| out@[k]@),
            ),
        decreases ix_items@.len() - x,
    {
        proof {
            assert(ixv.subrange(0, x + 1).drop_last() =~= ixv.subrange(0, x as int));
            assert(ixv.subrange(0, x + 1).last() == ixv[x as int]);
        }
        let ix = match value_to_im(&ix_items[x]) {
            Some(ix) => ix,
            None => {
                proof {
                    lemma_parse_im_prefix_none(ixv, x as int);
                }
                return None;
            }
        };
        let ghost oldixs = out@;
        out.push(ix);
        proof {
            assert(Seq::new(out@.len(), |k: int| out@[k]@) =~= Seq::new(
                oldixs.len(),
                |k: int| oldixs[k]@,
            ).push(out@[out@.len() - 1]@));
        }
        x = x + 1;
    }
    proof {
        assert(ixv.subrange(0, ixv.len() as int) =~= ixv);
    }
    Some(out)
}

/// A value read back as one collection's metadata.
#[verifier::rlimit(100)]
fn value_to_meta(v: &Value) -> (r: Option<CollectionMeta>)
    ensures
        match r {
            Some(m) => parse_meta(v@) == Some(m@),
            None => parse_meta(v@) is None,
        },
{
    let fields = match v {
        Value::Object(fields) => fields,
        _ => {
            return None;
        }
    };
    let ghost fieldsv = crate::value::fields_view(fields@, fields@.len() as int);
    proof {
        assert(v@ == ValueV::Object(fieldsv));
        assert(fieldsv.len() == fields@.len());
        assert(forall|k: int| 0 <= k < fieldsv.len() ==> #[trigger] fieldsv[k] == (
            fields@[k].0@,
            fields@[k].1@,
        ));
    }
    if fields.len() != 7 {
        return None;
    }
    let names_ok = crate::value::str_eq(fields[0].0.as_str(), "name")
        && crate::value::str_eq(fields[1].0.as_str(), "document_count")
        && crate::value::str_eq(fields[2].0.as_str(), "data_offset")
        && crate::value::str_eq(fields[3].0.as_str(), "index_offset")
        && crate::value::str_eq(fields[4].0.as_str(), "last_id")
        && crate::value::str_eq(fields[5].0.as_str(), "catalog")
        && crate::value::str_eq(fields[6].0.as_str(), "indexes");
    if !names_ok {
        return None;
    }
    let name = match &fields[0].1 {
        Value::String(s) => s.clone(),
        _ => {
            return None;
        }
    };
    let document_count = match value_to_u64(&fields[1].1) {
        Some(x) => x,
        None => {
            return None;
        }
    };
    let data_offset = match value_to_u64(&fields[2].1) {
        Some(x) => x,
        None => {
            return None;
        }
    };
    let index_offset = match value_to_u64(&fields[3].1) {
        Some(x) => x,
        None => {
            return None;
        }
    };
    let last_id = match value_to_u64(&fields[4].1) {
        Some(x) => x,
        None => {
            return None;
        }
    };
    let cat_items = match &fields[5].1 {
        Value::Array(items) => items,
        _ => {
            return None;
        }
    };
    let ix_items = match &fields[6].1 {
        Value::Array(items) => items,
        _ => {
            return None;
        }
    };
    let document_catalog = match value_to_catalog(cat_items) {
        Some(cat) => cat,
        None => {
            return None;
        }
    };
    let indexes = match value_to_ims(ix_items) {
        Some(ixs) => ixs,
        None => {
            return None;
        }
    };
    let m = CollectionMeta {
        name,
        document_count,
        data_offset,
        index_offset,
        last_id,
        document_catalog,
        indexes,
    };
    proof {
        assert(parse_meta(v@) =~= Some(m@));
    }
    Some(m)
}

} // verus!


verus! {

/// One index change recovered from the log, for replay by the coordinator.
#[derive(Debug)]
pub struct RecoveredIndexChange {
    pub collection: String,
    pub index_name: String,
    pub operation: crate::transaction::IndexOperation,
    pub key: crate::transaction::IndexKey,
    pub doc_id: crate::value::DocumentId,
}

/// Pairing of a collection name with one persisted index descriptor.
#[derive(Debug)]
pub struct IndexRecord {
    pub collection_name: String,
    pub index_metadata: crate::index::IndexMetadata,
}

/// The collection names, in registration order.
pub open spec fn meta_names(ms: Seq<CollectionMeta>) -> Seq<Seq<char>> {
    Seq::new(ms.len(), |i: int| ms[i].name@)
}

/// The first 256 KiB and the header region: header bytes, then one
/// length-framed record holding the serialized collection metadata.
pub open spec fn region_ok(region: Seq<u8>, h: Header, ms: Seq<CollectionMetaV>) -> bool {
    &&& region.len() == DATA_START
    &&& region.subrange(0, 28) == header_bytes(h)
    &&& rec_step(region, 28) matches Some(p) && p.0 == spec_enc(metas_value(ms))
}

/// The serialized metadata fits the reserved region: header, length field
/// and encoded catalog together stay within the fixed data start.
pub open spec fn metas_fit(ms: Seq<CollectionMetaV>) -> bool {
    32 + spec_enc(metas_value(ms)).len() <= DATA_START
}

/// The metadata entry a newly created collection starts with.
pub open spec fn fresh_meta(name: Seq<char>) -> CollectionMetaV {
    CollectionMetaV {
        name: name,
        document_count: 0,
        data_offset: 0,
        index_offset: 0,
        last_id: 0,
        document_catalog: Seq::empty(),
        indexes: Seq::empty(),
    }
}

/// The metadata with every collection's offsets converged to the fixed
/// data start, as a flush persists them.
pub open spec fn converged_metas(ms: Seq<CollectionMetaV>) -> Seq<CollectionMetaV> {
    Seq::new(
        ms.len(),
        |i: int|
            CollectionMetaV {
                data_offset: DATA_START as u64,
                index_offset: DATA_START as u64,
                ..ms[i]
            },
    )
}

/// The storage engine over an in-memory image of the data file.
#[derive(Debug)]
pub struct StorageEngine {
    /// Image of the data file.
    pub file: Vec<u8>,
    pub header: Header,
    pub collections: Vec<CollectionMeta>,
    /// The write-ahead log image, kept beside the data file.
    pub wal: crate::wal::WriteAheadLog,
}

impl StorageEngine {
    /// The record payloads of the data region.
    pub open spec fn recs(&self) -> Seq<Seq<u8>> {
        spec_records(self.file@)
    }

    /// The models of the collection metadata.
    pub open spec fn metas(&self) -> Seq<CollectionMetaV> {
        meta_views(self.collections@)
    }

    /// The engine is well formed: valid magic, counted collections with
    /// pairwise distinct names, and a data region of whole records starting
    /// at the fixed offset.
    pub open spec fn wf(&self) -> bool {
        &&& self.header.magic@ == spec_magic()
        &&& self.header.collection_count == self.collections@.len()
        &&& forall|i: int, j: int| 0 <= i < j < self.collections@.len()
            ==> (#[trigger] self.collections@[i]).name@ != (#[trigger] self.collections@[j]).name@
        &&& data_clean(self.file@)
    }

    /// Build the header-plus-metadata region, or report that the serialized
    /// metadata exceeds the reserved space.
    pub(crate) fn build_region(header: &Header, collections: &Vec<CollectionMeta>) -> (r: Result<
        Vec<u8>,
        MongoLiteError,
    >)
        requires
            header.magic@.len() == 8,
        ensures
            match r {
                Ok(region) => region_ok(region@, *header, meta_views(collections@)) && metas_fit(
                    meta_views(collections@),
                ),
                Err(e) => e is Corruption && !metas_fit(meta_views(collections@)),
            },
    {
        let mv = metas_to_value(collections);
        let enc = crate::value::encode_value(&mv);
        if enc.len() > u32::MAX as usize {
            return Err(MongoLiteError::Corruption(String::new()));
        }
        let mut region = header.to_bytes();
        let mut lenb = u32_to_le_bytes(enc.len() as u32);
        region.append(&mut lenb);
        let ghost encv = enc@;
        let mut encm = enc;
        region.append(&mut encm);
        if region.len() > DATA_START {
            return Err(MongoLiteError::Corruption(String::new()));
        }
        let ghost prepad = region@;
        let mut i: usize = region.len();
        while i < DATA_START
            invariant
                region@.len() == i,
                prepad.len() <= i <= DATA_START,
                region@.subrange(0, prepad.len() as int) == prepad,
            decreases DATA_START - i,
        {
            let ghost pre = region@;
            region.push(0u8);
            proof {
                assert(region@.subrange(0, prepad.len() as int) =~= pre.subrange(
                    0,
                    prepad.len() as int,
                ));
            }
            i = i + 1;
        }
        proof {
            vstd::bytes::lemma_auto_spec_u32_to_from_le_bytes();
            assert(region@.subrange(0, prepad.len() as int) == prepad);
            region@.lemma_slice_of_slice(0, prepad.len() as int, 0, 28);
            region@.lemma_slice_of_slice(0, prepad.len() as int, 28, 32);
            region@.lemma_slice_of_slice(0, prepad.len() as int, 32, 32 + encv.len() as int);
            assert(prepad.subrange(0, 28) =~= header_bytes(*header));
            assert(prepad.subrange(28, 32) =~= spec_u32_to_le_bytes(encv.len() as u32));
            assert(prepad.subrange(32, 32 + encv.len() as int) =~= encv);
            assert(region@.subrange(0, 28) == prepad.subrange(0, 28));
            assert(region@.subrange(28, 32) == prepad.subrange(28, 32));
            assert(region@.subrange(32, 32 + encv.len() as int) == prepad.subrange(
                32,
                32 + encv.len() as int,
            ));
        }
        Ok(region)
    }

    /// A fresh engine: header, empty metadata, data region at the fixed
    /// offset, empty log.
    pub fn new() -> (r: Result<StorageEngine, MongoLiteError>)
        ensures
            match r {
                Ok(e) => {
                    &&& e.wf()
                    &&& e.recs() == Seq::<Seq<u8>>::empty()
                    &&& e.collections@.len() == 0
                    &&& crate::wal::wal_clean(e.wal@)
                    &&& e.wal@ == Seq::<u8>::empty()
                }
                Err(err) => err is Corruption,
            },
    {
        let header = Header::new();
        let collections: Vec<CollectionMeta> = Vec::new();
        let file = match Self::build_region(&header, &collections) {
            Ok(region) => region,
            Err(e) => {
                return Err(e);
            }
        };
        proof {
            assert(rec_step(file@, DATA_START as int) is None);
            assert(recs_scan(file@, DATA_START as int) == (Seq::<Seq<u8>>::empty(), DATA_START as int));
        }
        Ok(StorageEngine { file, header, collections, wal: crate::wal::WriteAheadLog::new() })
    }

    /// Append one length-prefixed record to the data file; returns the
    /// offset of its length prefix. The write is not a durability point.
    pub fn write_data(&mut self, data: &[u8]) -> (r: Result<u64, MongoLiteError>)
        requires
            old(self).wf(),
        ensures
            final(self).wf(),
            final(self).header == old(self).header,
            final(self).collections == old(self).collections,
            final(self).wal == old(self).wal,
            match r {
                Ok(off) => {
                    &&& data@.len() <= u32::MAX
                    &&& off == old(self).file@.len()
                    &&& final(self).file@ == old(self).file@ + spec_u32_to_le_bytes(
                        data@.len() as u32,
                    ) + data@
                    &&& final(self).recs() == old(self).recs().push(data@)
                }
                Err(e) => e is Serialization && data@.len() > u32::MAX && final(self).file@
                    == old(self).file@,
            },
    {
        if (data.len() as u64) > (u32::MAX as u64) {
            return Err(MongoLiteError::Serialization(String::new()));
        }
        let off = self.file.len() as u64;
        proof {
            lemma_recs_append(self.file@, DATA_START as int, data@);
        }
        let mut lenb = u32_to_le_bytes(data.len() as u32);
        self.file.append(&mut lenb);
        self.file.extend_from_slice(data);
        proof {
            assert(final(self).file@ =~= old(self).file@ + spec_u32_to_le_bytes(
                data@.len() as u32,
            ) + data@);
        }
        Ok(off)
    }

    /// Read the length-prefixed record at `offset`.
    pub fn read_data(&self, offset: u64) -> (r: Result<Vec<u8>, MongoLiteError>)
        ensures
            match r {
                Ok(d) => rec_step(self.file@, offset as int) matches Some(p) && p.0 == d@,
                Err(e) => e is Io && rec_step(self.file@, offset as int) is None,
            },
    {
        proof {
            vstd::bytes::lemma_auto_spec_u32_to_from_le_bytes();
        }
        if offset > usize::MAX as u64 {
            proof {
                assert(self.file.len() == self.file@.len());
            }
            return Err(MongoLiteError::Io(String::new()));
        }
        let pos = offset as usize;
        if pos >= self.file.len() || self.file.len() - pos < 4 {
            return Err(MongoLiteError::Io(String::new()));
        }
        let n32 = vstd::bytes::u32_from_le_bytes(
            vstd::slice::slice_subrange(self.file.as_slice(), pos, pos + 4),
        );
        let after: usize = self.file.len() - (pos + 4);
        if (n32 as u64) > (after as u64) {
            return Err(MongoLiteError::Io(String::new()));
        }
        let n = n32 as usize;
        Ok(vstd::slice::slice_to_vec(
            vstd::slice::slice_subrange(self.file.as_slice(), pos + 4, pos + 4 + n),
        ))
    }

    /// Length of the data file image.
    pub fn file_len(&self) -> (r: u64)
        ensures
            r == self.file@.len(),
    {
        self.file.len() as u64
    }

    /// Position of the collection named `name`, if any.
    fn position_of(&self, name: &str) -> (r: Option<usize>)
        ensures
            match r {
                Some(i) => i < self.collections@.len() && self.collections@[i as int].name@
                    == name@ && forall|k: int| 0 <= k < i
                    ==> (#[trigger] self.collections@[k]).name@ != name@,
                None => forall|i: int| 0 <= i < self.collections@.len()
                    ==> (#[trigger] self.collections@[i]).name@ != name@,
            },
    {
        let mut i: usize = 0;
        while i < self.collections.len()
            invariant
                i <= self.collections@.len(),
                forall|k: int| 0 <= k < i ==> (#[trigger] self.collections@[k]).name@ != name@,
            decreases self.collections@.len() - i,
        {
            if crate::value::str_eq(self.collections[i].name.as_str(), name) {
                return Some(i);
            }
            i = i + 1;
        }
        None
    }

    /// Metadata of the collection named `name`.
    pub fn get_collection_meta(&self, name: &str) -> (r: Option<&CollectionMeta>)
        ensures
            match r {
                Some(m) => exists|i: int|
                    0 <= i < self.collections@.len() && #[trigger] self.collections@[i] == *m
                        && m.name@ == name@,
                None => forall|i: int| 0 <= i < self.collections@.len()
                    ==> (#[trigger] self.collections@[i]).name@ != name@,
            },
    {
        match self.position_of(name) {
            Some(i) => Some(&self.collections[i]),
            None => None,
        }
    }

    /// The collection names.
    pub fn list_collections(&self) -> (r: Vec<String>)
        ensures
            r@.len() == self.collections@.len(),
            forall|i: int| 0 <= i < r@.len() ==> (#[trigger] r@[i])@ == self.collections@[i].name@,
    {
        let mut out: Vec<String> = Vec::new();
        let mut i: usize = 0;
        while i < self.collections.len()
            invariant
                i <= self.collections@.len(),
                out@.len() == i,
                forall|k: int| 0 <= k < i ==> (#[trigger] out@[k])@ == self.collections@[k].name@,
            decreases self.collections@.len() - i,
        {
            out.push(self.collections[i].name.clone());
            i = i + 1;
        }
        out
    }

    /// Rewrite the metadata region: every collection's offsets converge to
    /// the fixed data start, and the document records are untouched.
    /// Metadata that no longer fits the reserved region is a corruption.
    pub fn flush_metadata(&mut self) -> (r: Result<(), MongoLiteError>)
        requires
            old(self).wf(),
        ensures
            final(self).header == old(self).header,
            final(self).wal == old(self).wal,
            match r {
                Ok(()) => {
                    &&& final(self).wf()
                    &&& final(self).recs() == old(self).recs()
                    &&& final(self).collections@.len() == old(self).collections@.len()
                    &&& forall|i: int| 0 <= i < final(self).collections@.len() ==> {
                        let m = #[trigger] final(self).collections@[i];
                        let o = old(self).collections@[i];
                        m.name@ == o.name@ && m.document_count == o.document_count && m.last_id
                            == o.last_id && m.document_catalog == o.document_catalog && m.indexes
                            == o.indexes && m.data_offset == DATA_START && m.index_offset
                            == DATA_START
                    }
                    &&& region_ok(
                        final(self).file@.subrange(0, DATA_START as int),
                        final(self).header,
                        final(self).metas(),
                    )
                    &&& metas_fit(converged_metas(old(self).metas()))
                }
                Err(e) => {
                    &&& e is Corruption
                    &&& !metas_fit(converged_metas(old(self).metas()))
                    &&& final(self).file == old(self).file
                    &&& final(self).recs() == old(self).recs()
                    &&& final(self).wf()
                    &&& final(self).collections@.len() == old(self).collections@.len()
                    &&& forall|i: int| 0 <= i < final(self).collections@.len() ==> {
                        let m = #[trigger] final(self).collections@[i];
                        let o = old(self).collections@[i];
                        m.name@ == o.name@ && m.document_count == o.document_count && m.last_id
                            == o.last_id && m.document_catalog == o.document_catalog && m.indexes
                            == o.indexes && m.data_offset == DATA_START && m.index_offset
                            == DATA_START
                    }
                },
            },
    {
        // converge the offsets first, so the persisted metadata carries the
        // fixed data start
        let mut i: usize = 0;
        while i < self.collections.len()
            invariant
                old(self).wf(),
                i <= self.collections@.len(),
                self.file == old(self).file,
                self.header == old(self).header,
                self.wal == old(self).wal,
                self.collections@.len() == old(self).collections@.len(),
                forall|k: int| 0 <= k < self.collections@.len() ==> {
                    let m = #[trigger] self.collections@[k];
                    let o = old(self).collections@[k];
                    m.name@ == o.name@ && m.document_count == o.document_count && m.last_id
                        == o.last_id && m.document_catalog == o.document_catalog && m.indexes
                        == o.indexes && (k < i ==> m.data_offset == DATA_START && m.index_offset
                        == DATA_START) && (k >= i ==> m == o)
                },
            decreases self.collections@.len() - i,
        {
            let mut m = self.collections.remove(i);
            m.data_offset = DATA_START as u64;
            m.index_offset = DATA_START as u64;
            self.collections.insert(i, m);
            i = i + 1;
        }
        proof {
            assert forall|k: int| 0 <= k < self.collections@.len() implies meta_views(
                self.collections@,
            )[k] == converged_metas(old(self).metas())[k] by {
                assert(meta_views(self.collections@)[k] == self.collections@[k]@);
            }
            assert(meta_views(self.collections@) =~= converged_metas(old(self).metas()));
        }
        let region = match Self::build_region(&self.header, &self.collections) {
            Ok(region) => region,
            Err(e) => {
                return Err(e);
            }
        };
        let ghost regv = region@;
        let ghost oldfile = self.file@;
        let mut rest = self.file.split_off(DATA_START);
        let mut newfile = region;
        newfile.append(&mut rest);
        self.file = newfile;
        proof {
            assert(self.file@.len() == oldfile.len());
            assert(forall|t: int| DATA_START <= t < oldfile.len()
                ==> self.file@[t] == oldfile[t]);
            lemma_recs_scan_prefix_irrelevant(oldfile, self.file@, DATA_START as int);
            assert(self.file@.subrange(0, DATA_START as int) =~= regv);
            assert(regv.subrange(0, 28) == self.file@.subrange(0, DATA_START as int).subrange(
                0,
                28,
            ));
            self.file@.lemma_slice_of_slice(0, DATA_START as int, 0, 28);
            assert(rec_step(self.file@.subrange(0, DATA_START as int), 28) == rec_step(regv, 28));
        }
        Ok(())
    }
}

/// The first region of a file image.
pub open spec fn region_of(bytes: Seq<u8>) -> Seq<u8> {
    bytes.subrange(0, DATA_START as int)
}

} // verus!

verus! {

/// The collection metadata stored in a file image's metadata region.
pub open spec fn parse_region_metas(file: Seq<u8>) -> Option<Seq<CollectionMetaV>> {
    match rec_step(file, 28) {
        Some(p) => match spec_dec(p.0, 0) {
            Some(d) => {
                if d.1 == p.0.len() {
                    parse_metas(d.0)
                } else {
                    None
                }
            }
            None => None,
        },
        None => None,
    }
}

/// Law: a metadata region written for `ms` reads back as exactly `ms` —
/// what `flush` persists, a later open sees.
pub proof fn lemma_flush_then_open(file: Seq<u8>, h: Header, ms: Seq<CollectionMetaV>)
    requires
        file.len() >= DATA_START,
        region_ok(region_of(file), h, ms),
    ensures
        parse_region_metas(file) == Some(ms),
        file.subrange(0, 8) == spec_magic() || h.magic@ != spec_magic(),
{
    let region = region_of(file);
    assert(file =~= region + file.subrange(DATA_START as int, file.len() as int));
    lemma_rec_step_extend(region, file.subrange(DATA_START as int, file.len() as int), 28);
    let p = rec_step(file, 28)->Some_0;
    assert(p.0 == spec_enc(metas_value(ms)));
    assert(p.0.len() <= u64::MAX);
    crate::value::lemma_decode_encode(metas_value(ms));
    lemma_metas_roundtrip(ms);
    if h.magic@ == spec_magic() {
        assert(file.subrange(0, 8) =~= region.subrange(0, 28).subrange(0, 8));
        assert(region.subrange(0, 28).subrange(0, 8) =~= h.magic@);
    }
}

impl StorageEngine {
    /// Open an engine over existing images of the data file and the log
    /// file; an empty data image is initialized fresh. A data image whose
    /// first eight bytes differ from the magic is a corruption, as is a
    /// metadata region or data region that does not read back.
    pub fn open_from_bytes(file: Vec<u8>, wal_bytes: Vec<u8>) -> (r: Result<
        StorageEngine,
        MongoLiteError,
    >)
        ensures
            file@.len() >= 8 && file@.subrange(0, 8) != spec_magic() ==> r is Err && (r
                matches Err(e) ==> e is Corruption),
            match r {
                Ok(e) => {
                    &&& e.wf()
                    &&& e.wal@ == wal_bytes@
                    &&& file@.len() == 0 ==> e.recs() == Seq::<Seq<u8>>::empty()
                        && e.collections@.len() == 0
                    &&& file@.len() > 0 ==> e.file@ == file@ && parse_region_metas(file@)
                        == Some(e.metas())
                }
                Err(err) => err is Corruption,
            },
    {
        if file.len() == 0 {
            let fresh = match Self::new() {
                Ok(e) => e,
                Err(err) => {
                    return Err(err);
                }
            };
            return Ok(
                StorageEngine {
                    file: fresh.file,
                    header: fresh.header,
                    collections: fresh.collections,
                    wal: crate::wal::WriteAheadLog::from_bytes(wal_bytes),
                },
            );
        }
        proof {
            vstd::bytes::lemma_auto_spec_u32_to_from_le_bytes();
            vstd::bytes::lemma_auto_spec_u64_to_from_le_bytes();
        }
        if file.len() < 32 {
            return Err(MongoLiteError::Corruption(String::new()));
        }
        let magic = Header::new().magic;
        let file_magic = vstd::slice::slice_subrange(file.as_slice(), 0, 8);
        if !crate::value::bytes_eq(file_magic, magic.as_slice()) {
            return Err(MongoLiteError::Corruption(String::new()));
        }
        let version = vstd::bytes::u32_from_le_bytes(
            vstd::slice::slice_subrange(file.as_slice(), 8, 12),
        );
        let page_size = vstd::bytes::u32_from_le_bytes(
            vstd::slice::slice_subrange(file.as_slice(), 12, 16),
        );
        let collection_count = vstd::bytes::u32_from_le_bytes(
            vstd::slice::slice_subrange(file.as_slice(), 16, 20),
        );
        let free_list_head = vstd::bytes::u64_from_le_bytes(
            vstd::slice::slice_subrange(file.as_slice(), 20, 28),
        );
        // the framed metadata record
        let n32 = vstd::bytes::u32_from_le_bytes(
            vstd::slice::slice_subrange(file.as_slice(), 28, 32),
        );
        let after: usize = file.len() - 32;
        if (n32 as u64) > (after as u64) {
            return Err(MongoLiteError::Corruption(String::new()));
        }
        let n = n32 as usize;
        let payload = vstd::slice::slice_to_vec(
            vstd::slice::slice_subrange(file.as_slice(), 32, 32 + n),
        );
        let mv = match crate::value::decode_value(&payload) {
            Ok(v) => v,
            Err(_) => {
                return Err(MongoLiteError::Corruption(String::new()));
            }
        };
        let collections = match value_to_metas(&mv) {
            Some(ms) => ms,
            None => {
                return Err(MongoLiteError::Corruption(String::new()));
            }
        };
        if (collections.len() as u64) != (collection_count as u64) {
            return Err(MongoLiteError::Corruption(String::new()));
        }
        // collection names must be pairwise distinct
        let mut i: usize = 0;
        while i < collections.len()
            invariant
                i <= collections@.len(),
                forall|p: int, q: int| 0 <= p < q < collections@.len() && q < i
                    ==> (#[trigger] collections@[p]).name@ != (
                    #[trigger] collections@[q]).name@,
            decreases collections@.len() - i,
        {
            let mut j: usize = 0;
            while j < i
                invariant
                    j <= i < collections@.len(),
                    forall|p: int| 0 <= p < j ==> (#[trigger] collections@[p]).name@
                        != collections@[i as int].name@,
                decreases i - j,
            {
                if crate::value::str_eq(
                    collections[j].name.as_str(),
                    collections[i].name.as_str(),
                ) {
                    return Err(MongoLiteError::Corruption(String::new()));
                }
                j = j + 1;
            }
            i = i + 1;
        }
        if file.len() < DATA_START {
            return Err(MongoLiteError::Corruption(String::new()));
        }
        // the data region must be a run of whole records
        let mut pos: usize = DATA_START;
        loop
            invariant
                DATA_START <= pos <= file@.len(),
                recs_scan(file@, DATA_START as int).1 == recs_scan(file@, pos as int).1,
            ensures
                recs_scan(file@, pos as int).1 == pos as int,
                recs_scan(file@, DATA_START as int).1 == pos as int,
            decreases file@.len() - pos,
        {
            proof {
                vstd::bytes::lemma_auto_spec_u32_to_from_le_bytes();
            }
            if file.len() - pos < 4 {
                proof {
                    assert(rec_step(file@, pos as int) is None);
                }
                break;
            }
            let n2 = vstd::bytes::u32_from_le_bytes(
                vstd::slice::slice_subrange(file.as_slice(), pos, pos + 4),
            );
            let rest: usize = file.len() - (pos + 4);
            if (n2 as u64) > (rest as u64) {
                proof {
                    assert(rec_step(file@, pos as int) is None);
                }
                break;
            }
            pos = pos + 4 + (n2 as usize);
        }
        if pos != file.len() {
            return Err(MongoLiteError::Corruption(String::new()));
        }
        let header = Header {
            magic,
            version,
            page_size,
            collection_count,
            free_list_head,
            index_section_offset: 0,
        };
        let e = StorageEngine {
            file,
            header,
            collections,
            wal: crate::wal::WriteAheadLog::from_bytes(wal_bytes),
        };
        proof {
            assert(e.file@.subrange(28, 32) =~= spec_u32_to_le_bytes(n32));
            assert(e.file@.subrange(32, 32 + n as int) =~= payload@);
            assert(rec_step(e.file@, 28) == Some((payload@, 32 + n as int)));
        }
        Ok(e)
    }

    /// Register a new, empty collection and persist the metadata. A name
    /// already in use is refused with `CollectionExists`.
    pub fn create_collection(&mut self, name: &str) -> (r: Result<(), MongoLiteError>)
        requires
            old(self).wf(),
        ensures
            final(self).wal == old(self).wal,
            final(self).recs() == old(self).recs(),
            final(self).wf(),
            match r {
                Ok(()) => {
                    &&& forall|i: int| 0 <= i < old(self).collections@.len()
                        ==> (#[trigger] old(self).collections@[i]).name@ != name@
                    &&& final(self).collections@.len() == old(self).collections@.len() + 1
                    &&& final(self).collections@.last().name@ == name@
                    &&& final(self).collections@.last().last_id == 0
                    &&& final(self).collections@.last().document_count == 0
                    &&& final(self).collections@.last().document_catalog@ == Seq::<
                        (crate::value::DocumentId, u64),
                    >::empty()
                    &&& final(self).collections@.last().indexes@ == Seq::<
                        crate::index::IndexMetadata,
                    >::empty()
                    &&& forall|i: int| 0 <= i < final(self).collections@.len() ==> {
                        let m = #[trigger] final(self).collections@[i];
                        m.data_offset == DATA_START && m.index_offset == DATA_START
                    }
                }
                Err(e) => {
                    &&& e is CollectionExists || e is Corruption || e is Unknown
                    &&& (e is CollectionExists <==> exists|i: int|
                        0 <= i < old(self).collections@.len() && (#[trigger] old(self).collections@[i]).name@ == name@)
                    &&& (e is CollectionExists || e is Unknown) ==> final(self).file == old(self).file && final(self).header == old(self).header && final(self).collections@
                        == old(self).collections@
                    &&& e is Unknown ==> old(self).collections@.len() >= u32::MAX
                    &&& e is Corruption ==> !metas_fit(
                        converged_metas(old(self).metas().push(fresh_meta(name@))),
                    )
                },
            },
    {
        match self.position_of(name) {
            Some(_) => {
                return Err(MongoLiteError::CollectionExists(String::new()));
            }
            None => {}
        }
        if self.collections.len() >= (u32::MAX as usize) {
            return Err(MongoLiteError::Unknown(String::new()));
        }
        let meta = CollectionMeta {
            name: String::from_str(name),
            document_count: 0,
            data_offset: 0,
            index_offset: 0,
            last_id: 0,
            document_catalog: Vec::new(),
            indexes: Vec::new(),
        };
        self.collections.push(meta);
        self.header.collection_count = self.header.collection_count + 1;
        proof {
            assert(self.metas()[old(self).collections@.len() as int] =~= fresh_meta(name@));
            assert(self.metas() =~= old(self).metas().push(fresh_meta(name@)));
        }
        match self.flush_metadata() {
            Ok(()) => Ok(()),
            Err(e) => Err(e),
        }
    }

    /// Remove a collection's metadata; its records wait for compaction.
    /// An unknown name is refused with `CollectionNotFound`.
    pub fn drop_collection(&mut self, name: &str) -> (r: Result<(), MongoLiteError>)
        requires
            old(self).wf(),
        ensures
            final(self).wal == old(self).wal,
            final(self).recs() == old(self).recs(),
            final(self).wf(),
            match r {
                Ok(()) => {
                    &&& final(self).collections@.len() == old(self).collections@.len() - 1
                    &&& forall|i: int| 0 <= i < final(self).collections@.len()
                        ==> (#[trigger] final(self).collections@[i]).name@ != name@
                }
                Err(e) => {
                    &&& e is CollectionNotFound || e is Corruption
                    &&& (e is CollectionNotFound <==> forall|i: int|
                        0 <= i < old(self).collections@.len() ==> (#[trigger] old(self).collections@[i]).name@ != name@)
                    &&& e is CollectionNotFound ==> final(self).file == old(self).file && final(self).header == old(self).header && final(self).collections@ == old(self).collections@
                    &&& e is Corruption ==> exists|i: int|
                        0 <= i < old(self).collections@.len() && (#[trigger] old(self).collections@[i]).name@ == name@ && !metas_fit(
                            converged_metas(old(self).metas().remove(i)),
                        )
                },
            },
    {
        let i = match self.position_of(name) {
            Some(i) => i,
            None => {
                return Err(MongoLiteError::CollectionNotFound(String::new()));
            }
        };
        let ghost oldc = self.collections@;
        self.collections.remove(i);
        self.header.collection_count = self.header.collection_count - 1;
        proof {
            assert(forall|k: int| 0 <= k < i ==> #[trigger] self.collections@[k] == oldc[k]);
            assert(forall|k: int| i <= k < self.collections@.len()
                ==> #[trigger] self.collections@[k] == oldc[k + 1]);
            assert(self.metas() =~= old(self).metas().remove(i as int));
        }
        match self.flush_metadata() {
            Ok(()) => Ok(()),
            Err(e) => Err(e),
        }
    }

    /// Set a collection's high-water id; nothing happens for an unknown
    /// name.
    pub fn set_last_id(&mut self, name: &str, last_id: u64)
        requires
            old(self).wf(),
        ensures
            final(self).wf(),
            final(self).recs() == old(self).recs(),
            final(self).wal == old(self).wal,
            final(self).header == old(self).header,
            final(self).collections@.len() == old(self).collections@.len(),
            forall|i: int| 0 <= i < final(self).collections@.len() ==> {
                let m = #[trigger] final(self).collections@[i];
                let o = old(self).collections@[i];
                m.name@ == o.name@ && (if o.name@ == name@ && (forall|k: int| 0 <= k < i
                    ==> (#[trigger] old(self).collections@[k]).name@ != name@) {
                    m.last_id == last_id && m.document_count == o.document_count && m.data_offset
                        == o.data_offset && m.index_offset == o.index_offset
                        && m.document_catalog == o.document_catalog && m.indexes == o.indexes
                } else {
                    m == o
                })
            },
    {
        let i = match self.position_of(name) {
            Some(i) => i,
            None => {
                return ;
            }
        };
        let ghost oldc = self.collections@;
        let mut m = self.collections.remove(i);
        m.last_id = last_id;
        self.collections.insert(i, m);
        proof {
            assert(self.collections@ =~= oldc.update(
                i as int,
                self.collections@[i as int],
            ));
        }
    }
}

} // verus!

verus! {

/// The `_id` field form of a document id: integers stay integers, both
/// string kinds appear as plain strings.
pub open spec fn id_field_value(d: DocumentIdV) -> ValueV {
    match d {
        DocumentIdV::Int(i) => ValueV::Int(i),
        DocumentIdV::String(s) => ValueV::String(s),
        DocumentIdV::ObjectId(s) => ValueV::String(s),
    }
}

/// The tombstone document appended when a delete is applied.
pub open spec fn tombstone_value(coll: Seq<char>, id: DocumentIdV) -> ValueV {
    ValueV::Object(
        seq![
            ("_id"@, id_field_value(id)),
            ("_collection"@, ValueV::String(coll)),
            ("_tombstone"@, ValueV::Bool(true)),
        ],
    )
}

/// An operation as a WAL payload value.
pub open spec fn op_value(op: crate::transaction::OperationV) -> ValueV {
    match op {
        crate::transaction::OperationV::Insert { collection, doc_id, doc } => ValueV::Object(
            seq![
                ("op"@, ValueV::String("insert"@)),
                ("collection"@, ValueV::String(collection)),
                ("doc_id"@, id_value(doc_id)),
                ("doc"@, doc),
            ],
        ),
        crate::transaction::OperationV::Update { collection, doc_id, old_doc, new_doc } => ValueV::Object(
            seq![
                ("op"@, ValueV::String("update"@)),
                ("collection"@, ValueV::String(collection)),
                ("doc_id"@, id_value(doc_id)),
                ("old_doc"@, old_doc),
                ("new_doc"@, new_doc),
            ],
        ),
        crate::transaction::OperationV::Delete { collection, doc_id, old_doc } => ValueV::Object(
            seq![
                ("op"@, ValueV::String("delete"@)),
                ("collection"@, ValueV::String(collection)),
                ("doc_id"@, id_value(doc_id)),
                ("old_doc"@, old_doc),
            ],
        ),
    }
}

/// The record an applied operation appends to the data file.
pub open spec fn op_record(op: crate::transaction::OperationV) -> Seq<u8> {
    match op {
        crate::transaction::OperationV::Insert { doc, .. } => spec_enc(doc),
        crate::transaction::OperationV::Update { new_doc, .. } => spec_enc(new_doc),
        crate::transaction::OperationV::Delete { collection, doc_id, .. } => spec_enc(
            tombstone_value(collection, doc_id),
        ),
    }
}

/// The records a run of applied operations appends.
pub open spec fn op_records(ops: Seq<crate::transaction::OperationV>) -> Seq<Seq<u8>> {
    Seq::new(ops.len(), |i: int| op_record(ops[i]))
}

/// A frame with its checksum filled in.
pub open spec fn mk_frame(
    id: u64,
    ty: crate::wal::WALEntryType,
    data: Seq<u8>,
) -> crate::wal::WALEntryV {
    let e0 = crate::wal::WALEntryV { transaction_id: id, entry_type: ty, data, checksum: 0 };
    crate::wal::WALEntryV {
        checksum: crate::wal::crc32_of(crate::wal::spec_frame_prefix(e0)),
        ..e0
    }
}

/// The operation frames of a commit.
pub open spec fn op_frames(id: u64, payloads: Seq<Seq<u8>>) -> Seq<crate::wal::WALEntryV> {
    Seq::new(
        payloads.len(),
        |i: int| mk_frame(id, crate::wal::WALEntryType::Operation, payloads[i]),
    )
}

/// The index-change frames of a commit.
pub open spec fn change_frames(id: u64, payloads: Seq<Seq<u8>>) -> Seq<crate::wal::WALEntryV> {
    Seq::new(
        payloads.len(),
        |i: int| mk_frame(id, crate::wal::WALEntryType::IndexChange, payloads[i]),
    )
}

/// An index change as a WAL payload value.
pub open spec fn change_value(
    coll: Seq<char>,
    index_name: Seq<char>,
    ch: crate::transaction::IndexChangeV,
) -> ValueV {
    ValueV::Object(
        seq![
            ("collection"@, ValueV::String(coll)),
            ("index_name"@, ValueV::String(index_name)),
            (
                "operation"@,
                ValueV::String(
                    if ch.operation == crate::transaction::IndexOperation::Insert {
                        "Insert"@
                    } else {
                        "Delete"@
                    },
                ),
            ),
            ("key"@, key_value(ch.key)),
            ("doc_id"@, id_value(ch.doc_id)),
        ],
    )
}

/// An index key as a tagged value.
pub open spec fn key_value(k: crate::key::IndexKeyV) -> ValueV {
    match k {
        crate::key::IndexKeyV::Null => ValueV::Array(seq![ValueV::Int(0)]),
        crate::key::IndexKeyV::Bool(b) => ValueV::Array(seq![ValueV::Int(1), ValueV::Bool(b)]),
        crate::key::IndexKeyV::Int(i) => ValueV::Array(seq![ValueV::Int(2), ValueV::Int(i)]),
        crate::key::IndexKeyV::Float(bits) => ValueV::Array(
            seq![ValueV::Int(3), ValueV::Float(bits)],
        ),
        crate::key::IndexKeyV::String(s) => ValueV::Array(
            seq![ValueV::Int(4), ValueV::String(s)],
        ),
    }
}

/// The collection a transaction touches: that of its first operation.
pub open spec fn tx_collection(ops: Seq<crate::transaction::Operation>) -> Seq<char> {
    if ops.len() > 0 {
        match ops[0]@ {
            crate::transaction::OperationV::Insert { collection, .. } => collection,
            crate::transaction::OperationV::Update { collection, .. } => collection,
            crate::transaction::OperationV::Delete { collection, .. } => collection,
        }
    } else {
        "unknown"@
    }
}

/// Law: a record that is the canonical encoding of a document reads back
/// as that document, with its collection, id and tombstone mark.
pub proof fn lemma_record_doc_of_enc(v: ValueV)
    requires
        spec_enc(v).len() <= u64::MAX,
    ensures
        record_doc(spec_enc(v)) == (match crate::value::value_field(v, "_collection"@) {
            Some(cv) => match cv {
                ValueV::String(c) => match crate::value::value_field(v, "_id"@) {
                    Some(idv) => match parse_doc_id(idv) {
                        Some(id) => Some((c, id, v, spec_is_tombstone(v))),
                        None => None::<(Seq<char>, DocumentIdV, ValueV, bool)>,
                    },
                    None => None,
                },
                _ => None,
            },
            None => None,
        }),
{
    crate::value::lemma_decode_encode(v);
}

} // verus!

verus! {

/// An `_id` field value for a document id.
fn id_field_to_value(d: &crate::value::DocumentId) -> (r: Value)
    ensures
        r@ == id_field_value(d@),
{
    match d {
        crate::value::DocumentId::Int(i) => Value::Int(*i),
        crate::value::DocumentId::String(s) => Value::String(s.clone()),
        crate::value::DocumentId::ObjectId(s) => Value::String(s.clone()),
    }
}

/// The tombstone document for a deletion.
fn tombstone_doc(coll: &str, id: &crate::value::DocumentId) -> (r: Value)
    ensures
        r@ == tombstone_value(coll@, id@),
{
    let mut fields: Vec<(String, Value)> = Vec::new();
    fields.push((String::from_str("_id"), id_field_to_value(id)));
    fields.push((String::from_str("_collection"), Value::String(String::from_str(coll))));
    fields.push((String::from_str("_tombstone"), Value::Bool(true)));
    proof {
        assert(crate::value::fields_view(fields@, 3) =~= tombstone_value(coll@, id@)->Object_0);
    }
    Value::Object(fields)
}

/// An operation as a WAL payload value.
fn op_to_value(op: &crate::transaction::Operation) -> (r: Value)
    ensures
        r@ == op_value(op@),
{
    let mut fields: Vec<(String, Value)> = Vec::new();
    match op {
        crate::transaction::Operation::Insert { collection, doc_id, doc } => {
            fields.push((String::from_str("op"), Value::String(String::from_str("insert"))));
            fields.push((String::from_str("collection"), Value::String(collection.clone())));
            fields.push((String::from_str("doc_id"), id_to_value(doc_id)));
            fields.push((String::from_str("doc"), doc.clone()));
            proof {
                assert(crate::value::fields_view(fields@, 4) =~= op_value(op@)->Object_0);
            }
        }
        crate::transaction::Operation::Update { collection, doc_id, old_doc, new_doc } => {
            fields.push((String::from_str("op"), Value::String(String::from_str("update"))));
            fields.push((String::from_str("collection"), Value::String(collection.clone())));
            fields.push((String::from_str("doc_id"), id_to_value(doc_id)));
            fields.push((String::from_str("old_doc"), old_doc.clone()));
            fields.push((String::from_str("new_doc"), new_doc.clone()));
            proof {
                assert(crate::value::fields_view(fields@, 5) =~= op_value(op@)->Object_0);
            }
        }
        crate::transaction::Operation::Delete { collection, doc_id, old_doc } => {
            fields.push((String::from_str("op"), Value::String(String::from_str("delete"))));
            fields.push((String::from_str("collection"), Value::String(collection.clone())));
            fields.push((String::from_str("doc_id"), id_to_value(doc_id)));
            fields.push((String::from_str("old_doc"), old_doc.clone()));
            proof {
                assert(crate::value::fields_view(fields@, 4) =~= op_value(op@)->Object_0);
            }
        }
    }
    Value::Object(fields)
}

/// An index key as a tagged value.
fn key_to_value(k: &crate::transaction::IndexKey) -> (r: Value)
    ensures
        r@ == key_value(k@),
{
    let mut items: Vec<Value> = Vec::new();
    match k {
        crate::transaction::IndexKey::Null => {
            items.push(Value::Int(0));
            proof {
                assert(crate::value::values_view(items@, 1) =~= key_value(k@)->Array_0);
            }
        }
        crate::transaction::IndexKey::Bool(b) => {
            items.push(Value::Int(1));
            items.push(Value::Bool(*b));
            proof {
                assert(crate::value::values_view(items@, 2) =~= key_value(k@)->Array_0);
            }
        }
        crate::transaction::IndexKey::Int(i) => {
            items.push(Value::Int(2));
            items.push(Value::Int(*i));
            proof {
                assert(crate::value::values_view(items@, 2) =~= key_value(k@)->Array_0);
            }
        }
        crate::transaction::IndexKey::Float(bits) => {
            items.push(Value::Int(3));
            items.push(Value::Float(*bits));
            proof {
                assert(crate::value::values_view(items@, 2) =~= key_value(k@)->Array_0);
            }
        }
        crate::transaction::IndexKey::String(s) => {
            items.push(Value::Int(4));
            items.push(Value::String(s.clone()));
            proof {
                assert(crate::value::values_view(items@, 2) =~= key_value(k@)->Array_0);
            }
        }
    }
    Value::Array(items)
}

/// An index change as a WAL payload value.
fn change_to_value(
    coll: &str,
    index_name: &str,
    ch: &crate::transaction::IndexChange,
) -> (r: Value)
    ensures
        r@ == change_value(coll@, index_name@, ch@),
{
    let mut fields: Vec<(String, Value)> = Vec::new();
    fields.push((String::from_str("collection"), Value::String(String::from_str(coll))));
    fields.push((String::from_str("index_name"), Value::String(String::from_str(index_name))));
    let opname = if ch.operation == crate::transaction::IndexOperation::Insert {
        String::from_str("Insert")
    } else {
        String::from_str("Delete")
    };
    fields.push((String::from_str("operation"), Value::String(opname)));
    fields.push((String::from_str("key"), key_to_value(&ch.key)));
    fields.push((String::from_str("doc_id"), id_to_value(&ch.doc_id)));
    proof {
        assert(crate::value::fields_view(fields@, 5) =~= change_value(
            coll@,
            index_name@,
            ch@,
        )->Object_0);
    }
    Value::Object(fields)
}

} // verus!

verus! {

/// The flattened index-change payloads of a commit, group by group.
pub open spec fn flat_change_payloads(
    coll: Seq<char>,
    groups: Seq<(String, Vec<crate::transaction::IndexChange>)>,
    j: int,
) -> Seq<Seq<u8>>
    decreases j,
{
    if 0 < j <= groups.len() {
        flat_change_payloads(coll, groups, j - 1) + Seq::new(
            groups[j - 1].1@.len(),
            |i: int| spec_enc(change_value(coll, groups[j - 1].0@, groups[j - 1].1@[i]@)),
        )
    } else {
        Seq::empty()
    }
}

/// The last buffered change to a collection's high-water id, if any.
pub open spec fn last_change_for(
    changes: Seq<crate::transaction::MetadataChange>,
    name: Seq<char>,
) -> Option<i64>
    decreases changes.len(),
{
    if changes.len() == 0 {
        None
    } else if changes.last().collection@ == name {
        Some(changes.last().last_id)
    } else {
        last_change_for(changes.drop_last(), name)
    }
}

/// Every operation payload, record and index-change payload of a
/// transaction fits a 32-bit length field, so a commit can frame them all.
pub open spec fn tx_payloads_fit(
    ops: Seq<crate::transaction::Operation>,
    groups: Seq<(String, Vec<crate::transaction::IndexChange>)>,
) -> bool {
    &&& forall|k: int| 0 <= k < ops.len() ==> spec_enc(op_value((#[trigger] ops[k])@)).len()
        <= u32::MAX && op_record(ops[k]@).len() <= u32::MAX
    &&& forall|g: int, c: int|
        0 <= g < groups.len() && 0 <= c < groups[g].1@.len() ==> spec_enc(
            change_value(tx_collection(ops), groups[g].0@, (#[trigger] groups[g].1@[c])@),
        ).len() <= u32::MAX
}

/// The WAL frames of one commit: a begin marker, one frame per operation,
/// one per index change, and a commit marker.
pub open spec fn commit_frames(
    id: u64,
    op_payloads: Seq<Seq<u8>>,
    change_payloads: Seq<Seq<u8>>,
) -> Seq<crate::wal::WALEntryV> {
    seq![mk_frame(id, crate::wal::WALEntryType::Begin, Seq::empty())] + op_frames(id, op_payloads)
        + change_frames(id, change_payloads) + seq![
        mk_frame(id, crate::wal::WALEntryType::Commit, Seq::empty())
    ]
}

impl StorageEngine {
    /// The nine-step commit: frames for every buffered operation and index
    /// change go to the log, a commit marker seals them (the embedding
    /// fsyncs the log there), the operations are applied to the data file
    /// as appended records, the buffered metadata changes land, and the
    /// transaction is marked committed. An empty transaction commits too.
    #[verifier::rlimit(100)]
    pub fn commit_transaction(&mut self, tx: &mut crate::transaction::Transaction) -> (r: Result<
        (),
        MongoLiteError,
    >)
        requires
            old(self).wf(),
            crate::wal::wal_clean(old(self).wal@),
        ensures
            final(self).wf(),
            final(tx).id == old(tx).id,
            final(tx).spec_operations() == old(tx).spec_operations(),
            final(tx).spec_index_changes() == old(tx).spec_index_changes(),
            final(tx).spec_metadata_changes() == old(tx).spec_metadata_changes(),
            match r {
                Ok(()) => {
                    &&& old(tx).spec_state() == crate::transaction::TransactionState::Active
                    &&& final(tx).spec_state() == crate::transaction::TransactionState::Committed
                    &&& crate::wal::wal_clean(final(self).wal@)
                    &&& crate::wal::wal_frames(final(self).wal@) == crate::wal::wal_frames(
                        old(self).wal@,
                    ) + commit_frames(
                        old(tx).id,
                        Seq::new(
                            old(tx).spec_operations().len(),
                            |i: int| spec_enc(op_value(old(tx).spec_operations()[i]@)),
                        ),
                        flat_change_payloads(
                            tx_collection(old(tx).spec_operations()),
                            old(tx).spec_index_changes(),
                            old(tx).spec_index_changes().len() as int,
                        ),
                    )
                    &&& final(self).recs() == old(self).recs() + op_records(
                        crate::transaction::op_views(old(tx).spec_operations()),
                    )
                    &&& final(self).collections@.len() == old(self).collections@.len()
                    &&& forall|i: int| 0 <= i < final(self).collections@.len() ==> {
                        let m = #[trigger] final(self).collections@[i];
                        let o = old(self).collections@[i];
                        m.name@ == o.name@ && m.document_count == o.document_count
                            && m.data_offset == o.data_offset && m.index_offset == o.index_offset
                            && m.document_catalog == o.document_catalog && m.indexes == o.indexes
                            && m.last_id == (match last_change_for(
                            old(tx).spec_metadata_changes(),
                            o.name@,
                        ) {
                            Some(v) => crate::value::i64_bits(v),
                            None => o.last_id,
                        })
                    }
                }
                Err(e) => {
                    &&& (e is TransactionCommitted || e is Serialization)
                    &&& (e is TransactionCommitted <==> old(tx).spec_state()
                        != crate::transaction::TransactionState::Active)
                    &&& e is Serialization ==> !tx_payloads_fit(
                        old(tx).spec_operations(),
                        old(tx).spec_index_changes(),
                    )
                    &&& *final(self) == *old(self)
                    &&& final(tx).spec_state() == old(tx).spec_state()
                }
            },
    {
        if !tx.is_active() {
            return Err(MongoLiteError::TransactionCommitted);
        }
        let ghost oldops = tx.spec_operations();
        // the collection the transaction touches, for the change payloads
        let coll: String = if tx.operations().len() > 0 {
            match &tx.operations()[0] {
                crate::transaction::Operation::Insert { collection, .. } => collection.clone(),
                crate::transaction::Operation::Update { collection, .. } => collection.clone(),
                crate::transaction::Operation::Delete { collection, .. } => collection.clone(),
            }
        } else {
            String::from_str("unknown")
        };
        proof {
            assert(coll@ == tx_collection(oldops));
        }
        // precompute every payload and record, so nothing is half-applied
        let mut op_payloads: Vec<Vec<u8>> = Vec::new();
        let mut records: Vec<Vec<u8>> = Vec::new();
        let mut i: usize = 0;
        let ops = tx.operations();
        while i < ops.len()
            invariant
                old(self).wf(),
                old(tx).spec_state() == crate::transaction::TransactionState::Active,
                *self == *old(self),
                *tx == *old(tx),
                i <= ops@.len(),
                ops@ == oldops,
                oldops == old(tx).spec_operations(),
                op_payloads@.len() == i,
                records@.len() == i,
                forall|k: int| 0 <= k < i ==> (#[trigger] op_payloads@[k])@ == spec_enc(
                    op_value(oldops[k]@),
                ) && op_payloads@[k]@.len() <= u32::MAX,
                forall|k: int| 0 <= k < i ==> (#[trigger] records@[k])@ == op_record(oldops[k]@)
                    && records@[k]@.len() <= u32::MAX,
            decreases ops@.len() - i,
        {
            let pv = op_to_value(&ops[i]);
            let payload = crate::value::encode_value(&pv);
            if payload.len() > u32::MAX as usize {
                proof {
                    assert(spec_enc(op_value(old(tx).spec_operations()[i as int]@)).len()
                        > u32::MAX);
                    assert(!tx_payloads_fit(
                        old(tx).spec_operations(),
                        old(tx).spec_index_changes(),
                    ));
                }
                return Err(MongoLiteError::Serialization(String::new()));
            }
            let record = match &ops[i] {
                crate::transaction::Operation::Insert { doc, .. } => crate::value::encode_value(
                    doc,
                ),
                crate::transaction::Operation::Update { new_doc, .. } => crate::value::encode_value(
                    new_doc,
                ),
                crate::transaction::Operation::Delete { collection, doc_id, .. } => {
                    let tv = tombstone_doc(collection.as_str(), doc_id);
                    crate::value::encode_value(&tv)
                }
            };
            if record.len() > u32::MAX as usize {
                proof {
                    assert(op_record(old(tx).spec_operations()[i as int]@).len() > u32::MAX);
                    assert(!tx_payloads_fit(
                        old(tx).spec_operations(),
                        old(tx).spec_index_changes(),
                    ));
                }
                return Err(MongoLiteError::Serialization(String::new()));
            }
            op_payloads.push(payload);
            records.push(record);
            i = i + 1;
        }
        let mut change_payloads: Vec<Vec<u8>> = Vec::new();
        let groups = tx.index_changes();
        let ghost groupsv = groups@;
        let mut g: usize = 0;
        while g < groups.len()
            invariant
                old(self).wf(),
                old(tx).spec_state() == crate::transaction::TransactionState::Active,
                *self == *old(self),
                *tx == *old(tx),
                g <= groups@.len(),
                groups@ == groupsv,
                oldops == old(tx).spec_operations(),
                groupsv == old(tx).spec_index_changes(),
                coll@ == tx_collection(oldops),
                forall|k: int| 0 <= k < change_payloads@.len()
                    ==> (#[trigger] change_payloads@[k])@.len() <= u32::MAX,
                Seq::new(change_payloads@.len(), |k: int| change_payloads@[k]@)
                    == flat_change_payloads(coll@, groupsv, g as int),
            decreases groups@.len() - g,
        {
            let pair = &groups[g];
            let mut c: usize = 0;
            while c < pair.1.len()
                invariant
                    old(self).wf(),
                    old(tx).spec_state() == crate::transaction::TransactionState::Active,
                    *self == *old(self),
                    *tx == *old(tx),
                    c <= pair.1@.len(),
                    g < groups@.len(),
                    groups@ == groupsv,
                    oldops == old(tx).spec_operations(),
                    groupsv == old(tx).spec_index_changes(),
                    pair == &groups@[g as int],
                    coll@ == tx_collection(oldops),
                    forall|k: int| 0 <= k < change_payloads@.len()
                        ==> (#[trigger] change_payloads@[k])@.len() <= u32::MAX,
                    Seq::new(change_payloads@.len(), |k: int| change_payloads@[k]@)
                        == flat_change_payloads(coll@, groupsv, g as int) + Seq::new(
                        c as nat,
                        |i2: int| spec_enc(
                            change_value(coll@, groupsv[g as int].0@, groupsv[g as int].1@[i2]@),
                        ),
                    ),
                decreases pair.1@.len() - c,
            {
                let cv = change_to_value(coll.as_str(), pair.0.as_str(), &pair.1[c]);
                let payload = crate::value::encode_value(&cv);
                if payload.len() > u32::MAX as usize {
                    proof {
                        assert(spec_enc(
                            change_value(
                                tx_collection(old(tx).spec_operations()),
                                old(tx).spec_index_changes()[g as int].0@,
                                old(tx).spec_index_changes()[g as int].1@[c as int]@,
                            ),
                        ).len() > u32::MAX);
                        assert(!tx_payloads_fit(
                            old(tx).spec_operations(),
                            old(tx).spec_index_changes(),
                        ));
                    }
                    return Err(MongoLiteError::Serialization(String::new()));
                }
                let ghost oldcp = change_payloads@;
                change_payloads.push(payload);
                proof {
                    assert(Seq::new(change_payloads@.len(), |k: int| change_payloads@[k]@)
                        =~= Seq::new(oldcp.len(), |k: int| oldcp[k]@).push(
                        spec_enc(
                            change_value(coll@, groupsv[g as int].0@, groupsv[g as int].1@[c as int]@),
                        ),
                    ));
                    assert(flat_change_payloads(coll@, groupsv, g as int) + Seq::new(
                        (c + 1) as nat,
                        |i2: int| spec_enc(
                            change_value(coll@, groupsv[g as int].0@, groupsv[g as int].1@[i2]@),
                        ),
                    ) =~= (flat_change_payloads(coll@, groupsv, g as int) + Seq::new(
                        c as nat,
                        |i2: int| spec_enc(
                            change_value(coll@, groupsv[g as int].0@, groupsv[g as int].1@[i2]@),
                        ),
                    )).push(
                        spec_enc(
                            change_value(coll@, groupsv[g as int].0@, groupsv[g as int].1@[c as int]@),
                        ),
                    ));
                }
                c = c + 1;
            }
            proof {
                assert(flat_change_payloads(coll@, groupsv, g + 1)
                    =~= flat_change_payloads(coll@, groupsv, g as int) + Seq::new(
                    groupsv[g as int].1@.len(),
                    |i2: int| spec_enc(
                        change_value(coll@, groupsv[g as int].0@, groupsv[g as int].1@[i2]@),
                    ),
                ));
            }
            g = g + 1;
        }
        // steps 2 to 5: frames to the log, then the commit marker
        let ghost wal0 = crate::wal::wal_frames(self.wal@);
        let ghost opv = Seq::new(oldops.len(), |k: int| spec_enc(op_value(oldops[k]@)));
        let ghost chv = flat_change_payloads(coll@, groupsv, groupsv.len() as int);
        let begin = crate::wal::WALEntry::new(
            tx.id,
            crate::wal::WALEntryType::Begin,
            Vec::new(),
        );
        self.wal.append(&begin);
        proof {
            assert(begin@ =~= mk_frame(tx.id, crate::wal::WALEntryType::Begin, Seq::empty()));
        }
        let mut k: usize = 0;
        while k < op_payloads.len()
            invariant
                k <= op_payloads@.len(),
                op_payloads@.len() == opv.len(),
                forall|t: int| 0 <= t < opv.len() ==> (#[trigger] op_payloads@[t])@ == opv[t]
                    && op_payloads@[t]@.len() <= u32::MAX,
                crate::wal::wal_clean(self.wal@),
                crate::wal::wal_frames(self.wal@) == wal0 + seq![
                    mk_frame(tx.id, crate::wal::WALEntryType::Begin, Seq::empty())
                ] + op_frames(tx.id, opv.subrange(0, k as int)),
                self.file == old(self).file,
                self.collections == old(self).collections,
                self.header == old(self).header,
            decreases op_payloads@.len() - k,
        {
            let entry = crate::wal::WALEntry::new(
                tx.id,
                crate::wal::WALEntryType::Operation,
                op_payloads[k].clone(),
            );
            self.wal.append(&entry);
            proof {
                assert(entry@ =~= mk_frame(
                    tx.id,
                    crate::wal::WALEntryType::Operation,
                    opv[k as int],
                ));
                assert(op_frames(tx.id, opv.subrange(0, k + 1)) =~= op_frames(
                    tx.id,
                    opv.subrange(0, k as int),
                ).push(mk_frame(tx.id, crate::wal::WALEntryType::Operation, opv[k as int])));
                assert(crate::wal::wal_frames(self.wal@) =~= wal0 + seq![
                    mk_frame(tx.id, crate::wal::WALEntryType::Begin, Seq::empty())
                ] + op_frames(tx.id, opv.subrange(0, k + 1)));
            }
            k = k + 1;
        }
        let mut k2: usize = 0;
        while k2 < change_payloads.len()
            invariant
                k2 <= change_payloads@.len(),
                change_payloads@.len() == chv.len(),
                forall|t: int| 0 <= t < chv.len() ==> (#[trigger] change_payloads@[t])@ == chv[t]
                    && change_payloads@[t]@.len() <= u32::MAX,
                crate::wal::wal_clean(self.wal@),
                crate::wal::wal_frames(self.wal@) == wal0 + seq![
                    mk_frame(tx.id, crate::wal::WALEntryType::Begin, Seq::empty())
                ] + op_frames(tx.id, opv) + change_frames(tx.id, chv.subrange(0, k2 as int)),
                self.file == old(self).file,
                self.collections == old(self).collections,
                self.header == old(self).header,
            decreases change_payloads@.len() - k2,
        {
            let entry = crate::wal::WALEntry::new(
                tx.id,
                crate::wal::WALEntryType::IndexChange,
                change_payloads[k2].clone(),
            );
            self.wal.append(&entry);
            proof {
                assert(entry@ =~= mk_frame(
                    tx.id,
                    crate::wal::WALEntryType::IndexChange,
                    chv[k2 as int],
                ));
                assert(change_frames(tx.id, chv.subrange(0, k2 + 1)) =~= change_frames(
                    tx.id,
                    chv.subrange(0, k2 as int),
                ).push(mk_frame(tx.id, crate::wal::WALEntryType::IndexChange, chv[k2 as int])));
                assert(crate::wal::wal_frames(self.wal@) =~= wal0 + seq![
                    mk_frame(tx.id, crate::wal::WALEntryType::Begin, Seq::empty())
                ] + op_frames(tx.id, opv) + change_frames(tx.id, chv.subrange(0, k2 + 1)));
            }
            k2 = k2 + 1;
        }
        let commit = crate::wal::WALEntry::new(
            tx.id,
            crate::wal::WALEntryType::Commit,
            Vec::new(),
        );
        self.wal.append(&commit);
        proof {
            assert(opv.subrange(0, opv.len() as int) =~= opv);
            assert(chv.subrange(0, chv.len() as int) =~= chv);
            assert(commit@ =~= mk_frame(tx.id, crate::wal::WALEntryType::Commit, Seq::empty()));
            assert(crate::wal::wal_frames(self.wal@) =~= wal0 + commit_frames(tx.id, opv, chv));
        }
        // step 6 is the embedding's log fsync; step 7: apply the operations
        let ghost recs0 = self.recs();
        let mut a: usize = 0;
        while a < records.len()
            invariant
                a <= records@.len(),
                records@.len() == oldops.len(),
                forall|t: int| 0 <= t < records@.len() ==> (#[trigger] records@[t])@ == op_record(
                    oldops[t]@,
                ) && records@[t]@.len() <= u32::MAX,
                self.wf(),
                self.recs() == recs0 + op_records(crate::transaction::op_views(oldops)).subrange(
                    0,
                    a as int,
                ),
                self.collections == old(self).collections,
                self.header == old(self).header,
                self.wal == final(self).wal || true,
                crate::wal::wal_clean(self.wal@),
                crate::wal::wal_frames(self.wal@) == wal0 + commit_frames(tx.id, opv, chv),
            decreases records@.len() - a,
        {
            let res = self.write_data(records[a].as_slice());
            proof {
                assert(res is Ok);
                assert(op_records(crate::transaction::op_views(oldops)).subrange(0, a + 1)
                    =~= op_records(crate::transaction::op_views(oldops)).subrange(
                    0,
                    a as int,
                ).push(op_record(oldops[a as int]@)));
                assert(self.recs() =~= recs0 + op_records(
                    crate::transaction::op_views(oldops),
                ).subrange(0, a + 1));
            }
            a = a + 1;
        }
        proof {
            assert(op_records(crate::transaction::op_views(oldops)).subrange(
                0,
                oldops.len() as int,
            ) =~= op_records(crate::transaction::op_views(oldops)));
        }
        // step 8: the buffered metadata changes land
        let changes = tx.metadata_changes();
        let ghost changesv = changes@;
        let mut mc: usize = 0;
        while mc < changes.len()
            invariant
                mc <= changes@.len(),
                changes@ == changesv,
                self.wf(),
                self.recs() == recs0 + op_records(crate::transaction::op_views(oldops)),
                self.header == old(self).header,
                crate::wal::wal_clean(self.wal@),
                crate::wal::wal_frames(self.wal@) == wal0 + commit_frames(tx.id, opv, chv),
                self.collections@.len() == old(self).collections@.len(),
                forall|i2: int| 0 <= i2 < self.collections@.len() ==> {
                    let m = #[trigger] self.collections@[i2];
                    let o = old(self).collections@[i2];
                    m.name@ == o.name@ && m.document_count == o.document_count && m.data_offset
                        == o.data_offset && m.index_offset == o.index_offset
                        && m.document_catalog == o.document_catalog && m.indexes == o.indexes
                        && m.last_id == (match last_change_for(
                        changesv.subrange(0, mc as int),
                        o.name@,
                    ) {
                        Some(v) => crate::value::i64_bits(v),
                        None => o.last_id,
                    })
                },
            decreases changes@.len() - mc,
        {
            let ghost pre = self.collections@;
            let bits = crate::value::i64_to_bits(changes[mc].last_id);
            self.set_last_id(changes[mc].collection.as_str(), bits);
            proof {
                assert(changesv.subrange(0, mc + 1).drop_last() =~= changesv.subrange(
                    0,
                    mc as int,
                ));
                assert(changesv.subrange(0, mc + 1).last() == changesv[mc as int]);
            }
            mc = mc + 1;
        }
        proof {
            assert(changesv.subrange(0, changesv.len() as int) =~= changesv);
        }
        // step 9: the transaction is committed
        match tx.mark_committed() {
            Ok(()) => Ok(()),
            Err(e) => Err(e),
        }
    }

    /// Roll a transaction back: an abort marker goes to the log (the
    /// embedding fsyncs it) and the buffers are discarded. A transaction
    /// that is no longer active is left alone.
    pub fn rollback_transaction(&mut self, tx: &mut crate::transaction::Transaction) -> (r: Result<
        (),
        MongoLiteError,
    >)
        requires
            old(self).wf(),
            crate::wal::wal_clean(old(self).wal@),
        ensures
            r is Ok,
            final(self).wf(),
            crate::wal::wal_clean(final(self).wal@),
            final(self).file == old(self).file,
            final(self).recs() == old(self).recs(),
            final(self).collections == old(self).collections,
            final(self).header == old(self).header,
            if old(tx).spec_state() == crate::transaction::TransactionState::Active {
                &&& crate::wal::wal_frames(final(self).wal@) == crate::wal::wal_frames(
                    old(self).wal@,
                ).push(mk_frame(old(tx).id, crate::wal::WALEntryType::Abort, Seq::empty()))
                &&& final(tx).spec_state() == crate::transaction::TransactionState::Aborted
                &&& final(tx).spec_operations() == Seq::<crate::transaction::Operation>::empty()
                &&& final(tx).spec_index_changes() == Seq::<
                    (String, Vec<crate::transaction::IndexChange>),
                >::empty()
                &&& final(tx).spec_metadata_changes() == Seq::<
                    crate::transaction::MetadataChange,
                >::empty()
            } else {
                &&& *final(self) == *old(self)
                &&& *final(tx) == *old(tx)
            },
    {
        if !tx.is_active() {
            return Ok(());
        }
        let abort = crate::wal::WALEntry::new(
            tx.id,
            crate::wal::WALEntryType::Abort,
            Vec::new(),
        );
        self.wal.append(&abort);
        proof {
            assert(abort@ =~= mk_frame(tx.id, crate::wal::WALEntryType::Abort, Seq::empty()));
        }
        match tx.rollback() {
            Ok(()) => Ok(()),
            Err(e) => Err(e),
        }
    }
}

} // verus!

verus! {

/// A payload read back as an operation.
pub open spec fn payload_op(data: Seq<u8>) -> Option<crate::transaction::OperationV> {
    match spec_dec(data, 0) {
        Some(p) => {
            if p.1 == data.len() {
                parse_op(p.0)
            } else {
                None
            }
        }
        None => None,
    }
}

/// A value read back as an operation.
pub open spec fn parse_op(v: ValueV) -> Option<crate::transaction::OperationV> {
    match v {
        ValueV::Object(fields) => {
            if fields.len() >= 3 && fields[0].0 == "op"@ && fields[1].0 == "collection"@
                && fields[2].0 == "doc_id"@ {
                match (fields[0].1, fields[1].1, parse_id(fields[2].1)) {
                    (ValueV::String(tag), ValueV::String(collection), Some(doc_id)) => {
                        if tag == "insert"@ && fields.len() == 4 && fields[3].0 == "doc"@ {
                            Some(
                                crate::transaction::OperationV::Insert {
                                    collection,
                                    doc_id,
                                    doc: fields[3].1,
                                },
                            )
                        } else if tag == "update"@ && fields.len() == 5 && fields[3].0
                            == "old_doc"@ && fields[4].0 == "new_doc"@ {
                            Some(
                                crate::transaction::OperationV::Update {
                                    collection,
                                    doc_id,
                                    old_doc: fields[3].1,
                                    new_doc: fields[4].1,
                                },
                            )
                        } else if tag == "delete"@ && fields.len() == 4 && fields[3].0
                            == "old_doc"@ {
                            Some(
                                crate::transaction::OperationV::Delete {
                                    collection,
                                    doc_id,
                                    old_doc: fields[3].1,
                                },
                            )
                        } else {
                            None
                        }
                    }
                    _ => None,
                }
            } else {
                None
            }
        }
        _ => None,
    }
}

/// Law: an operation payload written by a commit reads back as the same
/// operation — replaying a committed log reapplies exactly what the commit
/// applied.
pub proof fn lemma_parse_op_roundtrip(o: crate::transaction::OperationV)
    requires
        spec_enc(op_value(o)).len() <= u64::MAX,
    ensures
        payload_op(spec_enc(op_value(o))) == Some(o),
{
    crate::value::lemma_decode_encode(op_value(o));
    reveal_strlit("insert");
    reveal_strlit("update");
    reveal_strlit("delete");
    assert("insert"@ != "update"@ && "insert"@ != "delete"@ && "update"@ != "delete"@) by {
        assert("insert"@.len() == 6 && "update"@.len() == 6 && "delete"@.len() == 6);
        assert("insert"@[0] == 'i' && "update"@[0] == 'u' && "delete"@[0] == 'd');
    }
    assert(parse_op(op_value(o)) =~= Some(o));
}

/// The records replayed for a run of frames: one per operation frame whose
/// payload reads back.
pub open spec fn replay_full(entries: Seq<crate::wal::WALEntryV>) -> Seq<Seq<u8>>
    decreases entries.len(),
{
    if entries.len() == 0 {
        Seq::empty()
    } else {
        replay_full(entries.drop_last()) + (if entries.last().entry_type
            == crate::wal::WALEntryType::Operation {
            match payload_op(entries.last().data) {
                Some(o) => seq![op_record(o)],
                None => Seq::<Seq<u8>>::empty(),
            }
        } else {
            Seq::<Seq<u8>>::empty()
        })
    }
}

/// A value read back as a recovered index change.
pub open spec fn parse_change(v: ValueV) -> Option<
    (Seq<char>, Seq<char>, crate::transaction::IndexOperation, crate::key::IndexKeyV, DocumentIdV),
> {
    match v {
        ValueV::Object(fields) => {
            if fields.len() == 5 && fields[0].0 == "collection"@ && fields[1].0 == "index_name"@
                && fields[2].0 == "operation"@ && fields[3].0 == "key"@ && fields[4].0
                == "doc_id"@ {
                match (fields[0].1, fields[1].1, fields[2].1, parse_key(fields[3].1), parse_id(
                    fields[4].1,
                )) {
                    (
                        ValueV::String(coll),
                        ValueV::String(iname),
                        ValueV::String(opname),
                        Some(key),
                        Some(doc_id),
                    ) => {
                        if opname == "Insert"@ {
                            Some(
                                (
                                    coll,
                                    iname,
                                    crate::transaction::IndexOperation::Insert,
                                    key,
                                    doc_id,
                                ),
                            )
                        } else if opname == "Delete"@ {
                            Some(
                                (
                                    coll,
                                    iname,
                                    crate::transaction::IndexOperation::Delete,
                                    key,
                                    doc_id,
                                ),
                            )
                        } else {
                            None
                        }
                    }
                    _ => None,
                }
            } else {
                None
            }
        }
        _ => None,
    }
}

/// A tagged value read back as an index key.
pub open spec fn parse_key(v: ValueV) -> Option<crate::key::IndexKeyV> {
    match v {
        ValueV::Array(items) => {
            if items.len() == 1 && items[0] == ValueV::Int(0i64) {
                Some(crate::key::IndexKeyV::Null)
            } else if items.len() == 2 {
                match (items[0], items[1]) {
                    (ValueV::Int(1i64), ValueV::Bool(b)) => Some(crate::key::IndexKeyV::Bool(b)),
                    (ValueV::Int(2i64), ValueV::Int(i)) => Some(crate::key::IndexKeyV::Int(i)),
                    (ValueV::Int(3i64), ValueV::Float(bits)) => Some(
                        crate::key::IndexKeyV::Float(bits),
                    ),
                    (ValueV::Int(4i64), ValueV::String(s)) => Some(
                        crate::key::IndexKeyV::String(s),
                    ),
                    _ => None,
                }
            } else {
                None
            }
        }
        _ => None,
    }
}

/// A payload read back as a recovered index change.
pub open spec fn payload_change(data: Seq<u8>) -> Option<
    (Seq<char>, Seq<char>, crate::transaction::IndexOperation, crate::key::IndexKeyV, DocumentIdV),
> {
    match spec_dec(data, 0) {
        Some(p) => {
            if p.1 == data.len() {
                parse_change(p.0)
            } else {
                None
            }
        }
        None => None,
    }
}

/// Law: an index-change payload written by a commit reads back unchanged.
pub proof fn lemma_parse_change_roundtrip(
    coll: Seq<char>,
    iname: Seq<char>,
    ch: crate::transaction::IndexChangeV,
)
    requires
        spec_enc(change_value(coll, iname, ch)).len() <= u64::MAX,
    ensures
        payload_change(spec_enc(change_value(coll, iname, ch))) == Some(
            (coll, iname, ch.operation, ch.key, ch.doc_id),
        ),
{
    crate::value::lemma_decode_encode(change_value(coll, iname, ch));
    reveal_strlit("Insert");
    reveal_strlit("Delete");
    assert("Insert"@ != "Delete"@) by {
        assert("Insert"@.len() == 6 && "Delete"@.len() == 6);
        assert("Insert"@[0] == 'I' && "Delete"@[0] == 'D');
    }
    assert(parse_change(change_value(coll, iname, ch)) =~= Some(
        (coll, iname, ch.operation, ch.key, ch.doc_id),
    ));
}

/// The index changes collected from a run of frames.
pub open spec fn changes_full(entries: Seq<crate::wal::WALEntryV>) -> Seq<
    (Seq<char>, Seq<char>, crate::transaction::IndexOperation, crate::key::IndexKeyV, DocumentIdV),
>
    decreases entries.len(),
{
    if entries.len() == 0 {
        Seq::empty()
    } else {
        changes_full(entries.drop_last()) + (if entries.last().entry_type
            == crate::wal::WALEntryType::IndexChange {
            match payload_change(entries.last().data) {
                Some(c) => seq![c],
                None => Seq::empty(),
            }
        } else {
            Seq::empty()
        })
    }
}

/// Concatenated frames of a run of groups.
pub open spec fn flat_upto(gs: Seq<Seq<crate::wal::WALEntryV>>, j: int) -> Seq<
    crate::wal::WALEntryV,
>
    decreases j,
{
    if 0 < j <= gs.len() {
        flat_upto(gs, j - 1) + gs[j - 1]
    } else {
        Seq::empty()
    }
}

/// Model of a recovered index change.
pub open spec fn rec_change_view(c: RecoveredIndexChange) -> (
    Seq<char>,
    Seq<char>,
    crate::transaction::IndexOperation,
    crate::key::IndexKeyV,
    DocumentIdV,
) {
    (c.collection@, c.index_name@, c.operation, c.key@, c.doc_id@)
}

} // verus!

verus! {

/// A value read back as an operation.
#[verifier::rlimit(100)]
fn value_to_op(v: &Value) -> (r: Option<crate::transaction::Operation>)
    ensures
        match r {
            Some(op) => parse_op(v@) == Some(op@),
            None => parse_op(v@) is None,
        },
{
    let fields = match v {
        Value::Object(fields) => fields,
        _ => {
            return None;
        }
    };
    let ghost fieldsv = crate::value::fields_view(fields@, fields@.len() as int);
    proof {
        assert(v@ == ValueV::Object(fieldsv));
        assert(fieldsv.len() == fields@.len());
        assert(forall|k: int| 0 <= k < fieldsv.len() ==> #[trigger] fieldsv[k] == (
            fields@[k].0@,
            fields@[k].1@,
        ));
    }
    if fields.len() < 3 {
        proof {
            assert(parse_op(v@) is None);
        }
        return None;
    }
    if !(crate::value::str_eq(fields[0].0.as_str(), "op") && crate::value::str_eq(
        fields[1].0.as_str(),
        "collection",
    ) && crate::value::str_eq(fields[2].0.as_str(), "doc_id")) {
        proof {
            assert(parse_op(v@) is None);
        }
        return None;
    }
    let tag = match &fields[0].1 {
        Value::String(s) => s,
        _ => {
            proof {
                assert(parse_op(v@) is None);
            }
            return None;
        }
    };
    let collection = match &fields[1].1 {
        Value::String(s) => s.clone(),
        _ => {
            proof {
                assert(parse_op(v@) is None);
            }
            return None;
        }
    };
    let doc_id = match value_to_id(&fields[2].1) {
        Some(d) => d,
        None => {
            proof {
                assert(parse_op(v@) is None);
            }
            return None;
        }
    };
    if crate::value::str_eq(tag.as_str(), "insert") {
        if fields.len() == 4 && crate::value::str_eq(fields[3].0.as_str(), "doc") {
            let op = crate::transaction::Operation::Insert {
                collection,
                doc_id,
                doc: fields[3].1.clone(),
            };
            proof {
                assert(parse_op(v@) =~= Some(op@));
            }
            Some(op)
        } else {
            proof {
                reveal_strlit("insert");
                reveal_strlit("update");
                reveal_strlit("delete");
                assert("insert"@ != "update"@ && "insert"@ != "delete"@ && "update"@
                    != "delete"@) by {
                    assert("insert"@[0] == 'i' && "update"@[0] == 'u' && "delete"@[0] == 'd');
                }
                assert(parse_op(v@) is None);
            }
            None
        }
    } else if crate::value::str_eq(tag.as_str(), "update") {
        if fields.len() == 5 && crate::value::str_eq(fields[3].0.as_str(), "old_doc")
            && crate::value::str_eq(fields[4].0.as_str(), "new_doc") {
            let op = crate::transaction::Operation::Update {
                collection,
                doc_id,
                old_doc: fields[3].1.clone(),
                new_doc: fields[4].1.clone(),
            };
            proof {
                assert(parse_op(v@) =~= Some(op@));
            }
            Some(op)
        } else {
            proof {
                reveal_strlit("insert");
                reveal_strlit("update");
                reveal_strlit("delete");
                assert("insert"@ != "update"@ && "insert"@ != "delete"@ && "update"@
                    != "delete"@) by {
                    assert("insert"@[0] == 'i' && "update"@[0] == 'u' && "delete"@[0] == 'd');
                }
                assert(parse_op(v@) is None);
            }
            None
        }
    } else if crate::value::str_eq(tag.as_str(), "delete") {
        if fields.len() == 4 && crate::value::str_eq(fields[3].0.as_str(), "old_doc") {
            let op = crate::transaction::Operation::Delete {
                collection,
                doc_id,
                old_doc: fields[3].1.clone(),
            };
            proof {
                assert(parse_op(v@) =~= Some(op@));
            }
            Some(op)
        } else {
            proof {
                reveal_strlit("insert");
                reveal_strlit("update");
                reveal_strlit("delete");
                assert("insert"@ != "update"@ && "insert"@ != "delete"@ && "update"@
                    != "delete"@) by {
                    assert("insert"@[0] == 'i' && "update"@[0] == 'u' && "delete"@[0] == 'd');
                }
                assert(parse_op(v@) is None);
            }
            None
        }
    } else {
        proof {
            assert(parse_op(v@) is None);
        }
        None
    }
}

/// A value read back as a recovered index change.
fn value_to_change(v: &Value) -> (r: Option<RecoveredIndexChange>)
    ensures
        match r {
            Some(c) => parse_change(v@) == Some(rec_change_view(c)),
            None => parse_change(v@) is None,
        },
{
    let fields = match v {
        Value::Object(fields) => fields,
        _ => {
            return None;
        }
    };
    let ghost fieldsv = crate::value::fields_view(fields@, fields@.len() as int);
    proof {
        assert(v@ == ValueV::Object(fieldsv));
        assert(fieldsv.len() == fields@.len());
        assert(forall|k: int| 0 <= k < fieldsv.len() ==> #[trigger] fieldsv[k] == (
            fields@[k].0@,
            fields@[k].1@,
        ));
    }
    if fields.len() != 5 {
        return None;
    }
    if !(crate::value::str_eq(fields[0].0.as_str(), "collection") && crate::value::str_eq(
        fields[1].0.as_str(),
        "index_name",
    ) && crate::value::str_eq(fields[2].0.as_str(), "operation") && crate::value::str_eq(
        fields[3].0.as_str(),
        "key",
    ) && crate::value::str_eq(fields[4].0.as_str(), "doc_id")) {
        return None;
    }
    let collection = match &fields[0].1 {
        Value::String(s) => s.clone(),
        _ => {
            return None;
        }
    };
    let index_name = match &fields[1].1 {
        Value::String(s) => s.clone(),
        _ => {
            return None;
        }
    };
    let opname = match &fields[2].1 {
        Value::String(s) => s,
        _ => {
            return None;
        }
    };
    let key = match value_to_key(&fields[3].1) {
        Some(k) => k,
        None => {
            return None;
        }
    };
    let doc_id = match value_to_id(&fields[4].1) {
        Some(d) => d,
        None => {
            return None;
        }
    };
    let operation = if crate::value::str_eq(opname.as_str(), "Insert") {
        crate::transaction::IndexOperation::Insert
    } else if crate::value::str_eq(opname.as_str(), "Delete") {
        crate::transaction::IndexOperation::Delete
    } else {
        return None;
    };
    Some(RecoveredIndexChange { collection, index_name, operation, key, doc_id })
}

/// A tagged value read back as an index key.
pub(crate) fn value_to_key(v: &Value) -> (r: Option<crate::transaction::IndexKey>)
    ensures
        match r {
            Some(k) => parse_key(v@) == Some(k@),
            None => parse_key(v@) is None,
        },
{
    let items = match v {
        Value::Array(items) => items,
        _ => {
            return None;
        }
    };
    let ghost itemsv = crate::value::values_view(items@, items@.len() as int);
    proof {
        assert(v@ == ValueV::Array(itemsv));
        assert(itemsv.len() == items@.len());
        assert(forall|k: int| 0 <= k < itemsv.len() ==> #[trigger] itemsv[k] == items@[k]@);
    }
    if items.len() == 1 {
        match &items[0] {
            Value::Int(t) => {
                if *t == 0 {
                    Some(crate::transaction::IndexKey::Null)
                } else {
                    None
                }
            }
            _ => None,
        }
    } else if items.len() == 2 {
        let tag = match &items[0] {
            Value::Int(t) => *t,
            _ => {
                return None;
            }
        };
        if tag == 1 {
            match &items[1] {
                Value::Bool(b) => Some(crate::transaction::IndexKey::Bool(*b)),
                _ => None,
            }
        } else if tag == 2 {
            match &items[1] {
                Value::Int(i) => Some(crate::transaction::IndexKey::Int(*i)),
                _ => None,
            }
        } else if tag == 3 {
            match &items[1] {
                Value::Float(bits) => Some(crate::transaction::IndexKey::Float(*bits)),
                _ => None,
            }
        } else if tag == 4 {
            match &items[1] {
                Value::String(s) => Some(crate::transaction::IndexKey::String(s.clone())),
                _ => None,
            }
        } else {
            None
        }
    } else {
        None
    }
}

/// Every operation frame of a committed run parses as an operation whose
/// record fits a length field, and every index-change frame parses as a
/// change: the condition under which a replay cannot fail.
pub open spec fn frames_replayable(frames: Seq<crate::wal::WALEntryV>) -> bool {
    forall|i: int| 0 <= i < frames.len() ==> {
        let f = #[trigger] frames[i];
        &&& (f.entry_type == crate::wal::WALEntryType::Operation ==> payload_op(f.data) is Some
            && op_record(payload_op(f.data)->Some_0).len() <= u32::MAX)
        &&& (f.entry_type == crate::wal::WALEntryType::IndexChange ==> payload_change(
            f.data,
        ) is Some)
    }
}

/// A frame of one group stands in the flattened run at its group offset.
proof fn lemma_flat_index(gs: Seq<Seq<crate::wal::WALEntryV>>, g: int, e: int, k: int)
    requires
        0 <= g < k <= gs.len(),
        0 <= e < gs[g].len(),
    ensures
        flat_upto(gs, g).len() + e < flat_upto(gs, k).len(),
        flat_upto(gs, k)[flat_upto(gs, g).len() + e] == gs[g][e],
    decreases k,
{
    if k == g + 1 {
    } else {
        lemma_flat_index(gs, g, e, k - 1);
    }
}

impl StorageEngine {
    /// Replay the committed transactions of the log onto the data file, in
    /// log order, collect every recovered index change, and truncate the
    /// log; a log whose scan fails, or a committed frame whose payload
    /// does not parse, leaves the engine untouched. Called once per open,
    /// by the coordinator.
    #[verifier::rlimit(100)]
    pub fn recover_from_wal(&mut self) -> (r: Result<
        (Vec<Vec<crate::wal::WALEntry>>, Vec<RecoveredIndexChange>),
        MongoLiteError,
    >)
        requires
            old(self).wf(),
        ensures
            final(self).wf(),
            final(self).collections == old(self).collections,
            final(self).header == old(self).header,
            match r {
                Ok(p) => {
                    &&& crate::wal::spec_scan(old(self).wal@, 0) matches Some(sr)
                        && crate::wal::wal_group_views(p.0@) == crate::wal::committed_groups(sr.0)
                    &&& final(self).wal@ == Seq::<u8>::empty()
                    &&& final(self).recs() == old(self).recs() + replay_full(
                        flat_upto(crate::wal::wal_group_views(p.0@), p.0@.len() as int),
                    )
                    &&& Seq::new(p.1@.len(), |i: int| rec_change_view(p.1@[i])) == changes_full(
                        flat_upto(crate::wal::wal_group_views(p.0@), p.0@.len() as int),
                    )
                }
                Err(e) => {
                    &&& e is WALCorruption || e is Deserialization
                    &&& (e is WALCorruption <==> crate::wal::spec_scan(old(self).wal@, 0) is None)
                    &&& e is Deserialization ==> (crate::wal::spec_scan(old(self).wal@, 0)
                        matches Some(sr) && !frames_replayable(
                        flat_upto(
                            crate::wal::committed_groups(sr.0),
                            crate::wal::committed_groups(sr.0).len() as int,
                        ),
                    ))
                    &&& *final(self) == *old(self)
                },
            },
    {
        let groups = match self.wal.recover() {
            Ok(g) => g,
            Err(e) => {
                return Err(e);
            }
        };
        let ghost gsv = crate::wal::wal_group_views(groups@);
        let ghost flatv = flat_upto(gsv, gsv.len() as int);
        // parse every committed frame before touching the file, so a bad
        // payload leaves the engine exactly as it was
        let mut records: Vec<Vec<u8>> = Vec::new();
        let mut changes: Vec<RecoveredIndexChange> = Vec::new();
        let ghost done0: Seq<crate::wal::WALEntryV> = Seq::empty();
        let mut done: Ghost<Seq<crate::wal::WALEntryV>> = Ghost(done0);
        let mut g: usize = 0;
        while g < groups.len()
            invariant
                old(self).wf(),
                *self == *old(self),
                g <= groups@.len(),
                (crate::wal::spec_scan(old(self).wal@, 0) matches Some(sr) && gsv
                    == crate::wal::committed_groups(sr.0)),
                gsv == crate::wal::wal_group_views(groups@),
                gsv.len() == groups@.len(),
                flatv == flat_upto(gsv, gsv.len() as int),
                done@ == flat_upto(gsv, g as int),
                Seq::new(records@.len(), |i: int| records@[i]@) == replay_full(done@),
                forall|i: int| 0 <= i < records@.len() ==> (#[trigger] records@[i])@.len()
                    <= u32::MAX,
                Seq::new(changes@.len(), |i: int| rec_change_view(changes@[i])) == changes_full(
                    done@,
                ),
            decreases groups@.len() - g,
        {
            let group = &groups[g];
            let ghost groupv = crate::wal::wal_views(group@);
            proof {
                assert(gsv[g as int] == groupv);
            }
            let mut e: usize = 0;
            while e < group.len()
                invariant
                    old(self).wf(),
                    *self == *old(self),
                    e <= group@.len(),
                    g < groups@.len(),
                    (crate::wal::spec_scan(old(self).wal@, 0) matches Some(sr) && gsv
                        == crate::wal::committed_groups(sr.0)),
                    gsv == crate::wal::wal_group_views(groups@),
                    gsv.len() == groups@.len(),
                    gsv[g as int] == groupv,
                    flatv == flat_upto(gsv, gsv.len() as int),
                    groupv == crate::wal::wal_views(group@),
                    groupv.len() == group@.len(),
                    done@ == flat_upto(gsv, g as int) + groupv.subrange(0, e as int),
                    Seq::new(records@.len(), |i: int| records@[i]@) == replay_full(done@),
                    forall|i: int| 0 <= i < records@.len() ==> (#[trigger] records@[i])@.len()
                        <= u32::MAX,
                    Seq::new(changes@.len(), |i: int| rec_change_view(changes@[i]))
                        == changes_full(done@),
                decreases group@.len() - e,
            {
                let entry = &group[e];
                let ghost predone = done@;
                let ghost fidx = flat_upto(gsv, g as int).len() + e;
                proof {
                    assert(groupv[e as int] == group@[e as int]@);
                    assert((predone + seq![groupv[e as int]]).drop_last() =~= predone);
                    assert((predone + seq![groupv[e as int]]).last() == groupv[e as int]);
                    lemma_flat_index(gsv, g as int, e as int, gsv.len() as int);
                    assert(flatv[fidx as int] == groupv[e as int]);
                }
                match entry.entry_type {
                    crate::wal::WALEntryType::Operation => {
                        let pv = match crate::value::decode_value(&entry.data) {
                            Ok(v) => v,
                            Err(_) => {
                                proof {
                                    assert(payload_op(groupv[e as int].data) is None);
                                    assert(!frames_replayable(flatv));
                                }
                                return Err(MongoLiteError::Deserialization(String::new()));
                            }
                        };
                        let op = match value_to_op(&pv) {
                            Some(op) => op,
                            None => {
                                proof {
                                    assert(payload_op(groupv[e as int].data) is None);
                                    assert(!frames_replayable(flatv));
                                }
                                return Err(MongoLiteError::Deserialization(String::new()));
                            }
                        };
                        let record = match &op {
                            crate::transaction::Operation::Insert { doc, .. } => {
                                crate::value::encode_value(doc)
                            }
                            crate::transaction::Operation::Update { new_doc, .. } => {
                                crate::value::encode_value(new_doc)
                            }
                            crate::transaction::Operation::Delete {
                                collection,
                                doc_id,
                                ..
                            } => {
                                let tv = tombstone_doc(collection.as_str(), doc_id);
                                crate::value::encode_value(&tv)
                            }
                        };
                        if record.len() > u32::MAX as usize {
                            proof {
                                assert(payload_op(groupv[e as int].data) == Some(op@));
                                assert(op_record(op@).len() > u32::MAX);
                                assert(!frames_replayable(flatv));
                            }
                            return Err(MongoLiteError::Deserialization(String::new()));
                        }
                        let ghost oldrecs = records@;
                        records.push(record);
                        proof {
                            assert(payload_op(groupv[e as int].data) == Some(op@));
                            assert(records@[records@.len() - 1]@ == op_record(op@));
                            assert(replay_full(predone + seq![groupv[e as int]])
                                =~= replay_full(predone).push(op_record(op@)));
                            assert(Seq::new(records@.len(), |i: int| records@[i]@) =~= Seq::new(
                                oldrecs.len(),
                                |i: int| oldrecs[i]@,
                            ).push(op_record(op@)));
                            assert(changes_full(predone + seq![groupv[e as int]])
                                =~= changes_full(predone));
                        }
                    }
                    crate::wal::WALEntryType::IndexChange => {
                        let pv = match crate::value::decode_value(&entry.data) {
                            Ok(v) => v,
                            Err(_) => {
                                proof {
                                    assert(payload_change(groupv[e as int].data) is None);
                                    assert(!frames_replayable(flatv));
                                }
                                return Err(MongoLiteError::Deserialization(String::new()));
                            }
                        };
                        let ch = match value_to_change(&pv) {
                            Some(c) => c,
                            None => {
                                proof {
                                    assert(payload_change(groupv[e as int].data) is None);
                                    assert(!frames_replayable(flatv));
                                }
                                return Err(MongoLiteError::Deserialization(String::new()));
                            }
                        };
                        let ghost oldch = changes@;
                        changes.push(ch);
                        proof {
                            assert(payload_change(groupv[e as int].data) == Some(
                                rec_change_view(changes@[changes@.len() - 1]),
                            ));
                            assert(changes_full(predone + seq![groupv[e as int]])
                                =~= changes_full(predone).push(
                                rec_change_view(changes@[changes@.len() - 1]),
                            ));
                            assert(Seq::new(
                                changes@.len(),
                                |i: int| rec_change_view(changes@[i]),
                            ) =~= Seq::new(
                                oldch.len(),
                                |i: int| rec_change_view(oldch[i]),
                            ).push(rec_change_view(changes@[changes@.len() - 1])));
                            assert(replay_full(predone + seq![groupv[e as int]])
                                =~= replay_full(predone));
                        }
                    }
                    _ => {
                        proof {
                            assert(replay_full(predone + seq![groupv[e as int]])
                                =~= replay_full(predone));
                            assert(changes_full(predone + seq![groupv[e as int]])
                                =~= changes_full(predone));
                        }
                    }
                }
                proof {
                    done@ = predone + seq![groupv[e as int]];
                    assert(done@ =~= flat_upto(gsv, g as int) + groupv.subrange(0, e + 1));
                }
                e = e + 1;
            }
            proof {
                assert(groupv.subrange(0, groupv.len() as int) =~= groupv);
                assert(flat_upto(gsv, g + 1) =~= flat_upto(gsv, g as int) + groupv);
            }
            g = g + 1;
        }
        // every frame parsed; apply the records to the data file
        let ghost recseq = Seq::new(records@.len(), |i: int| records@[i]@);
        let ghost recs0 = self.recs();
        proof {
            assert(done@ == flat_upto(gsv, gsv.len() as int));
            assert(recseq == replay_full(done@));
        }
        let mut k: usize = 0;
        while k < records.len()
            invariant
                k <= records@.len(),
                self.wf(),
                self.collections == old(self).collections,
                self.header == old(self).header,
                self.wal == old(self).wal,
                recseq == Seq::new(records@.len(), |i: int| records@[i]@),
                forall|i: int| 0 <= i < records@.len() ==> (#[trigger] records@[i])@.len()
                    <= u32::MAX,
                self.recs() == recs0 + recseq.subrange(0, k as int),
                recs0 == old(self).recs(),
            decreases records@.len() - k,
        {
            let ghost prerecs = self.recs();
            match self.write_data(records[k].as_slice()) {
                Ok(_) => {}
                Err(_) => {
                    proof {
                        assert(false);
                    }
                }
            }
            proof {
                assert(recseq.subrange(0, k + 1) =~= recseq.subrange(0, k as int).push(
                    recseq[k as int],
                ));
                assert(self.recs() =~= recs0 + recseq.subrange(0, k + 1));
            }
            k = k + 1;
        }
        self.wal.clear();
        proof {
            assert(recseq.subrange(0, recseq.len() as int) =~= recseq);
            assert(self.recs() =~= old(self).recs() + replay_full(
                flat_upto(gsv, groups@.len() as int),
            ));
        }
        Ok((groups, changes))
    }
}

} // verus!

verus! {

/// Law: after a commit, the live documents of the touched collection are
/// the old ones with the committed operations applied in order — an
/// insert or update of a document carrying its id and collection becomes
/// the visible version of that id, and a delete removes the id.
pub proof fn lemma_commit_visibility(
    recs: Seq<Seq<u8>>,
    ops: Seq<crate::transaction::OperationV>,
    coll: Seq<char>,
)
    ensures
        live_map(recs + op_records(ops), coll) == apply_records(
            live_map(recs, coll),
            op_records(ops),
            coll,
        ),
{
    lemma_live_map_concat(recs, op_records(ops), coll);
}

/// Law: appending the record of a document that names its collection and
/// id makes that document the visible version of the id.
pub proof fn lemma_insert_visible(
    recs: Seq<Seq<u8>>,
    coll: Seq<char>,
    id: DocumentIdV,
    v: ValueV,
)
    requires
        spec_enc(v).len() <= u64::MAX,
        id is Int || id is String,
        crate::value::value_field(v, "_collection"@) == Some(ValueV::String(coll)),
        crate::value::value_field(v, "_id"@) == Some(id_field_value(id)),
        !spec_is_tombstone(v),
    ensures
        live_map(recs.push(spec_enc(v)), coll) == live_map(recs, coll).insert(id, v),
{
    lemma_record_doc_of_enc(v);
    assert(parse_doc_id(id_field_value(id)) == Some(id));
    assert((recs.push(spec_enc(v))).drop_last() =~= recs);
}

/// Law: a committed transaction survives a reopen. The commit appends the
/// operations' records and leaves their frames in the log; recovery at the
/// next open replays those frames onto the image once more, and the live
/// documents still equal the old ones with the operations applied in
/// order: the replay is absorbed.
pub proof fn lemma_commit_then_reopen(
    base: Seq<Seq<u8>>,
    ops: Seq<crate::transaction::OperationV>,
    coll: Seq<char>,
)
    ensures
        live_map(base + op_records(ops) + op_records(ops), coll) == apply_records(
            live_map(base, coll),
            op_records(ops),
            coll,
        ),
{
    lemma_replay_idempotent(base, op_records(ops), coll);
    lemma_live_map_concat(base, op_records(ops), coll);
}

/// Law: appending a tombstone for an id removes it from the live
/// documents.
pub proof fn lemma_delete_hides(recs: Seq<Seq<u8>>, coll: Seq<char>, id: DocumentIdV)
    requires
        spec_enc(tombstone_value(coll, id)).len() <= u64::MAX,
        id is Int || id is String,
    ensures
        live_map(recs.push(spec_enc(tombstone_value(coll, id))), coll) == live_map(
            recs,
            coll,
        ).remove(id),
{
    let tv = tombstone_value(coll, id);
    lemma_record_doc_of_enc(tv);
    reveal_strlit("_id");
    reveal_strlit("_collection");
    reveal_strlit("_tombstone");
    let fs = tv->Object_0;
    assert("_id"@.len() == 3 && "_collection"@.len() == 11 && "_tombstone"@.len() == 10);
    let fs1 = fs.drop_first();
    let fs2 = fs1.drop_first();
    assert(fs1 =~= seq![
        ("_collection"@, ValueV::String(coll)),
        ("_tombstone"@, ValueV::Bool(true)),
    ]);
    assert(fs2 =~= seq![("_tombstone"@, ValueV::Bool(true))]);
    assert(crate::value::obj_field(fs, "_collection"@) == crate::value::obj_field(
        fs1,
        "_collection"@,
    ));
    assert(crate::value::obj_field(fs1, "_collection"@) == Some(ValueV::String(coll)));
    assert(crate::value::obj_field(fs, "_tombstone"@) == crate::value::obj_field(
        fs1,
        "_tombstone"@,
    ));
    assert(crate::value::obj_field(fs1, "_tombstone"@) == crate::value::obj_field(
        fs2,
        "_tombstone"@,
    ));
    assert(crate::value::obj_field(fs2, "_tombstone"@) == Some(ValueV::Bool(true)));
    assert(crate::value::value_field(tv, "_collection"@) == Some(ValueV::String(coll)));
    assert(crate::value::value_field(tv, "_id"@) == Some(id_field_value(id)));
    assert(spec_is_tombstone(tv));
    assert(parse_doc_id(id_field_value(id)) == Some(id));
    assert((recs.push(spec_enc(tv))).drop_last() =~= recs);
}

} // verus!
