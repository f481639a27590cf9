//! The write-ahead log: framed, CRC-checked records over a single byte
//! stream, with a transaction boundary protocol and crash recovery.
//!
//! A frame is `tx_id:u64_le | type:u8 | len:u32_le | data | crc:u32_le`,
//! where the CRC covers everything before it. The log itself is held as an
//! in-memory image of the log file; the embedding mirrors it to disk.

use vstd::bytes::{spec_u32_to_le_bytes, spec_u64_to_le_bytes, u32_to_le_bytes, u64_to_le_bytes};
use vstd::prelude::*;

use crate::error::MongoLiteError;

verus! {

broadcast use vstd::std_specs::vec::group_vec_axioms;

/// Kind of a WAL frame.
#[derive(Debug, Clone, Copy, PartialEq, Eq, Structural)]
pub enum WALEntryType {
    /// Transaction begin marker.
    Begin,
    /// One buffered operation.
    Operation,
    /// Transaction commit marker: the durability point.
    Commit,
    /// Transaction abort marker.
    Abort,
    /// One buffered index change.
    IndexChange,
}

/// On-disk code of a frame kind.
pub open spec fn spec_type_code(t: WALEntryType) -> u8 {
    match t {
        WALEntryType::Begin => 1,
        WALEntryType::Operation => 2,
        WALEntryType::Commit => 3,
        WALEntryType::Abort => 4,
        WALEntryType::IndexChange => 5,
    }
}

impl WALEntryType {
    /// On-disk code of this frame kind.
    pub fn to_u8(self) -> (r: u8)
        ensures
            r == spec_type_code(self),
    {
        match self {
            WALEntryType::Begin => 1,
            WALEntryType::Operation => 2,
            WALEntryType::Commit => 3,
            WALEntryType::Abort => 4,
            WALEntryType::IndexChange => 5,
        }
    }

    /// Frame kind named by a code; any other code is a log corruption.
    pub fn from_u8(value: u8) -> (r: Result<Self, MongoLiteError>)
        ensures
            match r {
                Ok(t) => spec_type_code(t) == value,
                Err(e) => (e is WALCorruption) && !(exists|t: WALEntryType|
                    spec_type_code(t) == value),
            },
    {
        if value == 1 {
            Ok(WALEntryType::Begin)
        } else if value == 2 {
            Ok(WALEntryType::Operation)
        } else if value == 3 {
            Ok(WALEntryType::Commit)
        } else if value == 4 {
            Ok(WALEntryType::Abort)
        } else if value == 5 {
            Ok(WALEntryType::IndexChange)
        } else {
            proof {
                assert(forall|t: WALEntryType| spec_type_code(t) != value);
            }
            Err(MongoLiteError::WALCorruption)
        }
    }
}

/// One frame of the log.
#[derive(Debug)]
pub struct WALEntry {
    pub transaction_id: u64,
    pub entry_type: WALEntryType,
    pub data: Vec<u8>,
    pub checksum: u32,
}

/// Mathematical model of a frame.
#[verifier::ext_equal]
pub struct WALEntryV {
    pub transaction_id: u64,
    pub entry_type: WALEntryType,
    pub data: Seq<u8>,
    pub checksum: u32,
}

impl View for WALEntry {
    type V = WALEntryV;

    open spec fn view(&self) -> WALEntryV {
        WALEntryV {
            transaction_id: self.transaction_id,
            entry_type: self.entry_type,
            data: self.data@,
            checksum: self.checksum,
        }
    }
}

impl Clone for WALEntry {
    fn clone(&self) -> (r: Self)
        ensures
            r@ == self@,
    {
        WALEntry {
            transaction_id: self.transaction_id,
            entry_type: self.entry_type,
            data: self.data.clone(),
            checksum: self.checksum,
        }
    }
}

/// The CRC-32 (IEEE) checksum of a byte sequence.
pub uninterp spec fn crc32_of(data: Seq<u8>) -> u32;

/// Relies on crc32fast::hash: the CRC-32 (IEEE) checksum of the bytes,
/// a function of the bytes alone.
#[verifier::external_body]
fn crc32(data: &[u8]) -> (r: u32)
    ensures
        r == crc32_of(data@),
{
    crc32fast::hash(data)
}

/// The bytes a frame's CRC covers: everything before the CRC itself.
pub open spec fn spec_frame_prefix(e: WALEntryV) -> Seq<u8> {
    spec_u64_to_le_bytes(e.transaction_id) + seq![spec_type_code(e.entry_type)]
        + spec_u32_to_le_bytes(e.data.len() as u32) + e.data
}

/// The serialized frame.
pub open spec fn spec_frame_bytes(e: WALEntryV) -> Seq<u8> {
    spec_frame_prefix(e) + spec_u32_to_le_bytes(e.checksum)
}

/// A well-formed frame: the stored checksum matches the stored bytes, and the
/// payload length fits its 32-bit length field.
pub open spec fn wf_entry(e: WALEntryV) -> bool {
    &&& e.data.len() <= u32::MAX
    &&& e.checksum == crc32_of(spec_frame_prefix(e))
}

impl WALEntry {
    /// A frame over `data`, with its checksum computed.
    pub fn new(transaction_id: u64, entry_type: WALEntryType, data: Vec<u8>) -> (r: WALEntry)
        requires
            data@.len() <= u32::MAX,
        ensures
            r@.transaction_id == transaction_id,
            r@.entry_type == entry_type,
            r@.data == data@,
            wf_entry(r@),
    {
        let mut entry = WALEntry { transaction_id, entry_type, data, checksum: 0 };
        entry.checksum = entry.compute_checksum();
        entry
    }

    /// The CRC-32 of the frame's prefix.
    pub fn compute_checksum(&self) -> (r: u32)
        requires
            self@.data.len() <= u32::MAX,
        ensures
            r == crc32_of(spec_frame_prefix(self@)),
    {
        let mut buf: Vec<u8> = Vec::new();
        let mut tmp = u64_to_le_bytes(self.transaction_id);
        buf.append(&mut tmp);
        buf.push(self.entry_type.to_u8());
        let mut tmp2 = u32_to_le_bytes(self.data.len() as u32);
        buf.append(&mut tmp2);
        buf.extend_from_slice(self.data.as_slice());
        proof {
            assert(buf@ =~= spec_frame_prefix(self@));
        }
        crc32(buf.as_slice())
    }

    /// Serialize the frame.
    pub fn serialize(&self) -> (r: Vec<u8>)
        requires
            self@.data.len() <= u32::MAX,
        ensures
            r@ == spec_frame_bytes(self@),
    {
        let mut buf: Vec<u8> = Vec::new();
        let mut tmp = u64_to_le_bytes(self.transaction_id);
        buf.append(&mut tmp);
        buf.push(self.entry_type.to_u8());
        let mut tmp2 = u32_to_le_bytes(self.data.len() as u32);
        buf.append(&mut tmp2);
        buf.extend_from_slice(self.data.as_slice());
        let mut tmp3 = u32_to_le_bytes(self.checksum);
        buf.append(&mut tmp3);
        proof {
            assert(buf@ =~= spec_frame_bytes(self@));
        }
        buf
    }
}

// ---------------------------------------------------------------------------
// Parsing frames
// ---------------------------------------------------------------------------

/// Result of looking for one frame at a position of the log image.
pub enum FrameStepV {
    /// Too few bytes remain for a whole frame: scanning ends cleanly here.
    End,
    /// A whole frame is present but its kind or checksum is wrong.
    Bad,
    /// A well-formed frame, and the position just after it.
    Frame(WALEntryV, int),
}

/// Look for one frame at `pos`.
pub open spec fn spec_frame_step(bytes: Seq<u8>, pos: int) -> FrameStepV {
    if pos < 0 || pos + 13 > bytes.len() {
        FrameStepV::End
    } else {
        let tx = vstd::bytes::spec_u64_from_le_bytes(bytes.subrange(pos, pos + 8));
        let code = bytes[pos + 8];
        let n = vstd::bytes::spec_u32_from_le_bytes(bytes.subrange(pos + 9, pos + 13)) as int;
        if !(exists|t: WALEntryType| spec_type_code(t) == code) {
            FrameStepV::Bad
        } else if pos + 13 + n + 4 > bytes.len() {
            FrameStepV::End
        } else {
            let t = choose|t: WALEntryType| spec_type_code(t) == code;
            let data = bytes.subrange(pos + 13, pos + 13 + n);
            let crc = vstd::bytes::spec_u32_from_le_bytes(
                bytes.subrange(pos + 13 + n, pos + 17 + n),
            );
            if crc == crc32_of(bytes.subrange(pos, pos + 13 + n)) {
                FrameStepV::Frame(
                    WALEntryV { transaction_id: tx, entry_type: t, data, checksum: crc },
                    pos + 17 + n,
                )
            } else {
                FrameStepV::Bad
            }
        }
    }
}

/// Scan frames from `pos` to the end: the frames read and the position where
/// scanning stopped, or nothing on a corrupt frame.
pub open spec fn spec_scan(bytes: Seq<u8>, pos: int) -> Option<(Seq<WALEntryV>, int)>
    decreases bytes.len() - pos,
{
    match spec_frame_step(bytes, pos) {
        FrameStepV::End => Some((Seq::empty(), pos)),
        FrameStepV::Bad => None,
        FrameStepV::Frame(e, next) => if pos < next <= bytes.len() {
            match spec_scan(bytes, next) {
                Some((rest, end)) => Some((seq![e] + rest, end)),
                None => None,
            }
        } else {
            None
        },
    }
}

/// A clean log image: scanning accepts it and stops exactly at its end.
pub open spec fn wal_clean(bytes: Seq<u8>) -> bool {
    spec_scan(bytes, 0) matches Some(r) && r.1 == bytes.len()
}

/// The frames of a clean log image.
pub open spec fn wal_frames(bytes: Seq<u8>) -> Seq<WALEntryV> {
    spec_scan(bytes, 0)->Some_0.0
}

} // verus!

verus! {

// ---------------------------------------------------------------------------
// Laws of frames and scans
// ---------------------------------------------------------------------------

/// A parsed frame is well formed and occupies exactly the scanned bytes.
pub proof fn lemma_frame_step_sound(bytes: Seq<u8>, pos: int)
    ensures
        spec_frame_step(bytes, pos) matches FrameStepV::Frame(e, next) ==> {
            &&& wf_entry(e)
            &&& pos + 17 <= next <= bytes.len()
            &&& next == pos + spec_frame_bytes(e).len()
            &&& bytes.subrange(pos, next) == spec_frame_bytes(e)
        },
{
    vstd::bytes::lemma_auto_spec_u64_to_from_le_bytes();
    vstd::bytes::lemma_auto_spec_u32_to_from_le_bytes();
    if spec_frame_step(bytes, pos) is Frame {
        let e = spec_frame_step(bytes, pos)->Frame_0;
        let next = spec_frame_step(bytes, pos)->Frame_1;
        let n = e.data.len() as int;
        assert(bytes.subrange(pos, pos + 13 + n) =~= bytes.subrange(pos, pos + 8)
            + seq![bytes[pos + 8]] + bytes.subrange(pos + 9, pos + 13)
            + bytes.subrange(pos + 13, pos + 13 + n));
        assert(bytes.subrange(pos, pos + 13 + n) =~= spec_frame_prefix(e));
        assert(bytes.subrange(pos, next) =~= spec_frame_prefix(e)
            + bytes.subrange(pos + 13 + n, pos + 17 + n));
        assert(bytes.subrange(pos, next) =~= spec_frame_bytes(e));
    }
}

/// A well-formed frame written at `pos` is parsed back exactly.
pub proof fn lemma_frame_step_complete(bytes: Seq<u8>, pos: int, e: WALEntryV)
    requires
        wf_entry(e),
        0 <= pos,
        pos + spec_frame_bytes(e).len() <= bytes.len(),
        bytes.subrange(pos, pos + spec_frame_bytes(e).len()) == spec_frame_bytes(e),
    ensures
        spec_frame_step(bytes, pos) == FrameStepV::Frame(e, pos + spec_frame_bytes(e).len()),
{
    vstd::bytes::lemma_auto_spec_u64_to_from_le_bytes();
    vstd::bytes::lemma_auto_spec_u32_to_from_le_bytes();
    let fb = spec_frame_bytes(e);
    let n = e.data.len() as int;
    let end = pos + fb.len();
    bytes.lemma_slice_of_slice(pos, end, 0, 8);
    assert(fb.subrange(0, 8) =~= spec_u64_to_le_bytes(e.transaction_id));
    bytes.lemma_element_from_slice(fb, pos, end, pos + 8);
    assert(fb[8] == spec_type_code(e.entry_type));
    bytes.lemma_slice_of_slice(pos, end, 9, 13);
    assert(fb.subrange(9, 13) =~= spec_u32_to_le_bytes(e.data.len() as u32));
    bytes.lemma_slice_of_slice(pos, end, 13, 13 + n);
    assert(fb.subrange(13, 13 + n) =~= e.data);
    bytes.lemma_slice_of_slice(pos, end, 13 + n, 17 + n);
    assert(fb.subrange(13 + n, 17 + n) =~= spec_u32_to_le_bytes(e.checksum));
    bytes.lemma_slice_of_slice(pos, end, 0, 13 + n);
    assert(fb.subrange(0, 13 + n) =~= spec_frame_prefix(e));
    let code = bytes[pos + 8];
    assert(spec_type_code(e.entry_type) == code);
    let t = choose|t: WALEntryType| spec_type_code(t) == code;
    assert(t == e.entry_type);
}

/// Scanned frames are well formed and occupy exactly the scanned bytes.
pub proof fn lemma_scan_sound(bytes: Seq<u8>, pos: int)
    ensures
        spec_scan(bytes, pos) matches Some(r) ==> {
            &&& 0 <= pos <= bytes.len() ==> pos <= r.1 <= bytes.len()
            &&& forall|k: int| 0 <= k < r.0.len() ==> wf_entry(#[trigger] r.0[k])
        },
    decreases bytes.len() - pos,
{
    if spec_scan(bytes, pos) is Some {
        match spec_frame_step(bytes, pos) {
            FrameStepV::End => {}
            FrameStepV::Bad => {}
            FrameStepV::Frame(e, next) => {
                lemma_frame_step_sound(bytes, pos);
                lemma_scan_sound(bytes, next);
                let rest = spec_scan(bytes, next)->Some_0.0;
                let r0 = spec_scan(bytes, pos)->Some_0.0;
                assert(r0 == seq![e] + rest);
                assert forall|k: int| 0 <= k < r0.len() implies wf_entry(#[trigger] r0[k]) by {
                    if k == 0 {
                        assert(r0[k] == e);
                    } else {
                        assert(r0[k] == rest[k - 1]);
                    }
                }
            }
        }
    }
}

/// A complete frame parses the same when more bytes follow the buffer.
proof fn lemma_frame_step_extend(bytes: Seq<u8>, tail: Seq<u8>, pos: int)
    requires
        spec_frame_step(bytes, pos) matches FrameStepV::Frame(e, next) && next <= bytes.len(),
    ensures
        spec_frame_step(bytes + tail, pos) == spec_frame_step(bytes, pos),
{
    let ext = bytes + tail;
    assert(ext.subrange(pos, pos + 8) =~= bytes.subrange(pos, pos + 8));
    assert(ext.subrange(pos + 9, pos + 13) =~= bytes.subrange(pos + 9, pos + 13));
    if spec_frame_step(bytes, pos) is Frame {
        let n = vstd::bytes::spec_u32_from_le_bytes(bytes.subrange(pos + 9, pos + 13)) as int;
        assert(ext.subrange(pos + 13, pos + 13 + n) =~= bytes.subrange(pos + 13, pos + 13 + n));
        assert(ext.subrange(pos + 13 + n, pos + 17 + n)
            =~= bytes.subrange(pos + 13 + n, pos + 17 + n));
        assert(ext.subrange(pos, pos + 13 + n) =~= bytes.subrange(pos, pos + 13 + n));
    }
}

/// Appending a well-formed frame to a clean log appends it to the scan.
pub proof fn lemma_scan_append(bytes: Seq<u8>, pos: int, e: WALEntryV)
    requires
        0 <= pos,
        spec_scan(bytes, pos) matches Some(r) && r.1 == bytes.len(),
        wf_entry(e),
    ensures
        spec_scan(bytes + spec_frame_bytes(e), pos) == Some(
            (spec_scan(bytes, pos)->Some_0.0.push(e), bytes.len() + spec_frame_bytes(e).len() as int),
        ),
    decreases bytes.len() - pos,
{
    let fb = spec_frame_bytes(e);
    let ext = bytes + fb;
    match spec_frame_step(bytes, pos) {
        FrameStepV::End => {
            // A clean scan that ends here ends exactly at the buffer's end.
            assert(pos == bytes.len());
            let next2 = pos + fb.len() as int;
            assert(ext.subrange(pos, next2) =~= fb);
            lemma_frame_step_complete(ext, pos, e);
            assert(spec_frame_step(ext, next2) is End);
            assert(spec_scan(ext, next2) == Some((Seq::<WALEntryV>::empty(), next2)));
            assert(spec_scan(ext, pos) == Some((seq![e] + Seq::<WALEntryV>::empty(), next2)));
            assert(seq![e] + Seq::<WALEntryV>::empty()
                =~= spec_scan(bytes, pos)->Some_0.0.push(e));
        }
        FrameStepV::Bad => {}
        FrameStepV::Frame(f, next) => {
            lemma_frame_step_sound(bytes, pos);
            lemma_frame_step_extend(bytes, fb, pos);
            lemma_scan_append(bytes, next, e);
            let tail_new = spec_scan(ext, next)->Some_0.0;
            assert(spec_scan(ext, pos) == Some(
                (seq![f] + tail_new, bytes.len() + fb.len() as int),
            ));
            assert(seq![f] + tail_new
                =~= spec_scan(bytes, pos)->Some_0.0.push(e));
        }
    }
}

/// Law: a frame survives the round trip — parsing its serialization yields
/// the frame itself, and consumes exactly its bytes.
pub proof fn lemma_frame_roundtrip(e: WALEntryV)
    requires
        wf_entry(e),
    ensures
        spec_frame_step(spec_frame_bytes(e), 0) == FrameStepV::Frame(
            e,
            spec_frame_bytes(e).len() as int,
        ),
{
    let fb = spec_frame_bytes(e);
    assert(fb.subrange(0, fb.len() as int) =~= fb);
    lemma_frame_step_complete(fb, 0, e);
}

} // verus!

verus! {

// ---------------------------------------------------------------------------
// The log
// ---------------------------------------------------------------------------

/// Models of a run of frames.
pub open spec fn wal_views(s: Seq<WALEntry>) -> Seq<WALEntryV> {
    Seq::new(s.len(), |i: int| s[i]@)
}

/// The frames of one transaction, in log order.
pub open spec fn filter_tx(entries: Seq<WALEntryV>, id: u64) -> Seq<WALEntryV> {
    entries.filter(|e: WALEntryV| e.transaction_id == id)
}

/// Transaction ids in order of first appearance.
pub open spec fn first_seen_ids(entries: Seq<WALEntryV>) -> Seq<u64>
    decreases entries.len(),
{
    if entries.len() == 0 {
        Seq::empty()
    } else {
        let pre = first_seen_ids(entries.drop_last());
        if pre.contains(entries.last().transaction_id) {
            pre
        } else {
            pre.push(entries.last().transaction_id)
        }
    }
}

/// The transaction's frames end in a commit marker.
pub open spec fn is_committed(entries: Seq<WALEntryV>, id: u64) -> bool {
    let f = filter_tx(entries, id);
    f.len() > 0 && f.last().entry_type == WALEntryType::Commit
}

/// The committed transactions named by `ids`, each as its run of frames.
pub open spec fn groups_for(entries: Seq<WALEntryV>, ids: Seq<u64>) -> Seq<Seq<WALEntryV>>
    decreases ids.len(),
{
    if ids.len() == 0 {
        Seq::empty()
    } else {
        let pre = groups_for(entries, ids.drop_last());
        if is_committed(entries, ids.last()) {
            pre.push(filter_tx(entries, ids.last()))
        } else {
            pre
        }
    }
}

/// Every committed transaction of the log, in order of first appearance,
/// each as its run of frames in log order.
pub open spec fn committed_groups(entries: Seq<WALEntryV>) -> Seq<Seq<WALEntryV>> {
    groups_for(entries, first_seen_ids(entries))
}

/// Models of grouped frames.
pub open spec fn wal_group_views(g: Seq<Vec<WALEntry>>) -> Seq<Seq<WALEntryV>> {
    Seq::new(g.len(), |i: int| wal_views(g[i]@))
}

/// Prepend already-scanned frames to a scan result.
pub open spec fn scan_prepend(
    s: Seq<WALEntryV>,
    o: Option<(Seq<WALEntryV>, int)>,
) -> Option<(Seq<WALEntryV>, int)> {
    match o {
        Some(r) => Some((s + r.0, r.1)),
        None => None,
    }
}

/// The write-ahead log, held as an in-memory image of the log file.
/// The embedding appends the same bytes to the real file and fsyncs it
/// wherever the commit protocol calls for a durability barrier.
#[derive(Debug)]
pub struct WriteAheadLog {
    buf: Vec<u8>,
}

impl View for WriteAheadLog {
    type V = Seq<u8>;

    closed spec fn view(&self) -> Seq<u8> {
        self.buf@
    }
}

impl WriteAheadLog {
    /// An empty log.
    pub fn new() -> (r: WriteAheadLog)
        ensures
            r@ == Seq::<u8>::empty(),
            wal_clean(r@),
            wal_frames(r@) == Seq::<WALEntryV>::empty(),
    {
        let r = WriteAheadLog { buf: Vec::new() };
        proof {
            assert(spec_frame_step(r@, 0) is End);
        }
        r
    }

    /// A log over an existing image (as read from the log file).
    pub fn from_bytes(buf: Vec<u8>) -> (r: WriteAheadLog)
        ensures
            r@ == buf@,
    {
        WriteAheadLog { buf }
    }

    /// The log image, to be mirrored to the log file.
    pub fn bytes(&self) -> (r: &Vec<u8>)
        ensures
            r@ == self@,
    {
        &self.buf
    }

    /// Append one frame; returns the offset of its first byte.
    pub fn append(&mut self, entry: &WALEntry) -> (offset: u64)
        requires
            wal_clean(old(self)@),
            wf_entry(entry@),
        ensures
            final(self)@ == old(self)@ + spec_frame_bytes(entry@),
            wal_clean(final(self)@),
            wal_frames(final(self)@) == wal_frames(old(self)@).push(entry@),
            offset == old(self)@.len(),
    {
        let offset = self.buf.len() as u64;
        let mut frame = entry.serialize();
        proof {
            lemma_scan_append(self.buf@, 0, entry@);
        }
        self.buf.append(&mut frame);
        offset
    }

    /// Truncate the log to nothing.
    pub fn clear(&mut self)
        ensures
            final(self)@ == Seq::<u8>::empty(),
            wal_clean(final(self)@),
            wal_frames(final(self)@) == Seq::<WALEntryV>::empty(),
    {
        self.buf = Vec::new();
        proof {
            assert(spec_frame_step(self.buf@, 0) is End);
        }
    }

    /// Scan the whole image into frames. A short frame at the end of the
    /// image ends the scan cleanly; a bad kind or checksum is a corruption.
    pub fn read_entries(&self) -> (r: Result<Vec<WALEntry>, MongoLiteError>)
        ensures
            match r {
                Ok(entries) => spec_scan(self@, 0) matches Some(sr) && wal_views(entries@)
                    == sr.0,
                Err(e) => spec_scan(self@, 0) is None && e is WALCorruption,
            },
    {
        let buf = &self.buf;
        let mut pos: usize = 0;
        let mut entries: Vec<WALEntry> = Vec::new();
        loop
            invariant
                self@ == buf@,
                pos <= buf@.len(),
                spec_scan(buf@, 0) == scan_prepend(wal_views(entries@), spec_scan(buf@, pos as int)),
            ensures
                pos <= buf@.len(),
                spec_scan(buf@, 0) == scan_prepend(wal_views(entries@), spec_scan(buf@, pos as int)),
                spec_scan(buf@, pos as int) == Some((Seq::<WALEntryV>::empty(), pos as int)),
            decreases buf@.len() - pos,
        {
            if buf.len() - pos < 13 {
                proof {
                    assert(spec_frame_step(buf@, pos as int) is End);
                    assert(wal_views(entries@) + Seq::<WALEntryV>::empty()
                        =~= wal_views(entries@));
                }
                break;
            }
            let tx = vstd::bytes::u64_from_le_bytes(
                vstd::slice::slice_subrange(buf.as_slice(), pos, pos + 8),
            );
            let code = buf[pos + 8];
            let n32 = vstd::bytes::u32_from_le_bytes(
                vstd::slice::slice_subrange(buf.as_slice(), pos + 9, pos + 13),
            );
            let t = match WALEntryType::from_u8(code) {
                Ok(t) => t,
                Err(e) => {
                    proof {
                        assert(spec_frame_step(buf@, pos as int) is Bad);
                        assert(spec_scan(buf@, pos as int) is None);
                        assert(spec_scan(buf@, 0) is None);
                    }
                    return Err(e);
                }
            };
            let after_header: usize = buf.len() - (pos + 13);
            if (after_header as u64) < (n32 as u64) + 4 {
                proof {
                    assert(spec_frame_step(buf@, pos as int) is End);
                    assert(wal_views(entries@) + Seq::<WALEntryV>::empty()
                        =~= wal_views(entries@));
                }
                break;
            }
            let n = n32 as usize;
            let data = vstd::slice::slice_to_vec(
                vstd::slice::slice_subrange(buf.as_slice(), pos + 13, pos + 13 + n),
            );
            let computed = crc32(vstd::slice::slice_subrange(buf.as_slice(), pos, pos + 13 + n));
            let stored = vstd::bytes::u32_from_le_bytes(
                vstd::slice::slice_subrange(buf.as_slice(), pos + 13 + n, pos + 17 + n),
            );
            if computed != stored {
                proof {
                    assert(spec_frame_step(buf@, pos as int) is Bad);
                    assert(spec_scan(buf@, pos as int) is None);
                    assert(spec_scan(buf@, 0) is None);
                }
                return Err(MongoLiteError::WALCorruption);
            }
            let entry = WALEntry { transaction_id: tx, entry_type: t, data, checksum: stored };
            proof {
                assert(forall|a: WALEntryType, b: WALEntryType|
                    spec_type_code(a) == spec_type_code(b) ==> a == b);
                assert(spec_frame_step(buf@, pos as int) == FrameStepV::Frame(
                    entry@,
                    pos + 17 + n,
                ));
            }
            let ghost old_entries = entries@;
            entries.push(entry);
            proof {
                assert(wal_views(entries@) =~= wal_views(old_entries).push(entry@));
                let nextscan = spec_scan(buf@, pos + 17 + n);
                match nextscan {
                    Some(r2) => {
                        assert(spec_scan(buf@, pos as int) == Some(
                            (seq![entry@] + r2.0, r2.1),
                        ));
                        assert(wal_views(entries@) + r2.0
                            =~= wal_views(old_entries) + (seq![entry@] + r2.0));
                    }
                    None => {
                        assert(spec_scan(buf@, pos as int) is None);
                    }
                }
            }
            pos = pos + 17 + n;
        }
        proof {
            assert(wal_views(entries@) + Seq::<WALEntryV>::empty() =~= wal_views(entries@));
        }
        Ok(entries)
    }
}

} // verus!

verus! {

/// Whether `ids` holds `id`.
fn contains_u64(ids: &Vec<u64>, id: u64) -> (r: bool)
    ensures
        r == ids@.contains(id),
{
    let mut j: usize = 0;
    while j < ids.len()
        invariant
            j <= ids@.len(),
            forall|k: int| 0 <= k < j ==> ids@[k] != id,
        decreases ids@.len() - j,
    {
        if ids[j] == id {
            return true;
        }
        j = j + 1;
    }
    false
}

impl WriteAheadLog {
    /// Recover the committed transactions: scan every frame, group the
    /// frames by transaction in order of first appearance without reordering
    /// them, and keep exactly the transactions whose frames end in a commit
    /// marker. A corrupt frame fails the whole recovery.
    pub fn recover(&self) -> (r: Result<Vec<Vec<WALEntry>>, MongoLiteError>)
        ensures
            match r {
                Ok(groups) => spec_scan(self@, 0) matches Some(sr) && wal_group_views(groups@)
                    == committed_groups(sr.0),
                Err(e) => spec_scan(self@, 0) is None && e is WALCorruption,
            },
    {
        let entries = match self.read_entries() {
            Ok(v) => v,
            Err(e) => {
                return Err(e);
            }
        };
        let ghost ev = wal_views(entries@);

        // Transaction ids in order of first appearance.
        let mut ids: Vec<u64> = Vec::new();
        let mut i: usize = 0;
        while i < entries.len()
            invariant
                i <= entries@.len(),
                ev == wal_views(entries@),
                ids@ == first_seen_ids(ev.subrange(0, i as int)),
            decreases entries@.len() - i,
        {
            let id = entries[i].transaction_id;
            let seen = contains_u64(&ids, id);
            if !seen {
                ids.push(id);
            }
            proof {
                let pre = ev.subrange(0, i as int);
                let pre2 = ev.subrange(0, i + 1);
                assert(pre2.drop_last() =~= pre);
                assert(pre2.last() == ev[i as int]);
                assert(ev[i as int].transaction_id == id);
            }
            i = i + 1;
        }
        proof {
            assert(ev.subrange(0, ev.len() as int) =~= ev);
        }

        // One group per committed transaction.
        let mut result: Vec<Vec<WALEntry>> = Vec::new();
        let mut k: usize = 0;
        while k < ids.len()
            invariant
                k <= ids@.len(),
                ev == wal_views(entries@),
                ids@ == first_seen_ids(ev),
                wal_group_views(result@) == groups_for(ev, ids@.subrange(0, k as int)),
            decreases ids@.len() - k,
        {
            let id = ids[k];
            let mut group: Vec<WALEntry> = Vec::new();
            let mut i2: usize = 0;
            while i2 < entries.len()
                invariant
                    i2 <= entries@.len(),
                    ev == wal_views(entries@),
                    wal_views(group@) == filter_tx(ev.subrange(0, i2 as int), id),
                decreases entries@.len() - i2,
            {
                proof {
                    reveal(Seq::filter);
                    let pre = ev.subrange(0, i2 as int);
                    let pre2 = ev.subrange(0, i2 + 1);
                    assert(pre2.drop_last() =~= pre);
                    assert(pre2.last() == ev[i2 as int]);
                }
                if entries[i2].transaction_id == id {
                    let ghost oldg = group@;
                    group.push(entries[i2].clone());
                    proof {
                        assert(wal_views(group@) =~= wal_views(oldg).push(ev[i2 as int]));
                    }
                }
                i2 = i2 + 1;
            }
            proof {
                assert(ev.subrange(0, ev.len() as int) =~= ev);
                assert(wal_views(group@) == filter_tx(ev, id));
            }
            let committed = if group.len() > 0 {
                let last = group.len() - 1;
                group[last].entry_type == WALEntryType::Commit
            } else {
                false
            };
            proof {
                if group@.len() > 0 {
                    assert(wal_views(group@).last() == group@[group@.len() - 1]@);
                }
                assert(committed == is_committed(ev, id));
            }
            let ghost oldr = result@;
            if committed {
                result.push(group);
            }
            proof {
                let ip = ids@.subrange(0, k as int);
                let ip2 = ids@.subrange(0, k + 1);
                assert(ip2.drop_last() =~= ip);
                assert(ip2.last() == ids@[k as int]);
                if committed {
                    assert(wal_group_views(result@)
                        =~= wal_group_views(oldr).push(filter_tx(ev, id)));
                }
                assert(wal_group_views(result@) =~= groups_for(ev, ip2));
            }
            k = k + 1;
        }
        proof {
            assert(ids@.subrange(0, ids@.len() as int) =~= ids@);
        }
        Ok(result)
    }

    /// Rewrite the log keeping only the frames of transactions that are not
    /// in `committed_tx_ids`. A corrupt frame fails the checkpoint.
    pub fn checkpoint(&mut self, committed_tx_ids: &Vec<u64>) -> (r: Result<(), MongoLiteError>)
        ensures
            match r {
                Ok(()) => {
                    &&& spec_scan(old(self)@, 0) matches Some(sr) && wal_clean(final(self)@)
                    &&& wal_frames(final(self)@) == spec_scan(old(self)@, 0)->Some_0.0.filter(
                        |e: WALEntryV| !committed_tx_ids@.contains(e.transaction_id),
                    )
                },
                Err(e) => spec_scan(old(self)@, 0) is None && e is WALCorruption
                    && final(self)@ == old(self)@,
            },
    {
        let entries = match self.read_entries() {
            Ok(v) => v,
            Err(e) => {
                return Err(e);
            }
        };
        let ghost ev = wal_views(entries@);
        let ghost pred = |e: WALEntryV| !committed_tx_ids@.contains(e.transaction_id);
        proof {
            lemma_scan_sound(self@, 0);
        }
        let mut out = WriteAheadLog { buf: Vec::new() };
        proof {
            assert(spec_frame_step(out@, 0) is End);
            reveal(Seq::filter);
            assert(ev.subrange(0, 0) =~= Seq::<WALEntryV>::empty());
        }
        let mut i: usize = 0;
        while i < entries.len()
            invariant
                i <= entries@.len(),
                ev == wal_views(entries@),
                pred == (|e: WALEntryV| !committed_tx_ids@.contains(e.transaction_id)),
                forall|k: int| 0 <= k < ev.len() ==> wf_entry(#[trigger] ev[k]),
                wal_clean(out@),
                wal_frames(out@) == ev.subrange(0, i as int).filter(pred),
            decreases entries@.len() - i,
        {
            proof {
                reveal(Seq::filter);
                let pre = ev.subrange(0, i as int);
                let pre2 = ev.subrange(0, i + 1);
                assert(pre2.drop_last() =~= pre);
                assert(pre2.last() == ev[i as int]);
            }
            let keep = !contains_u64(committed_tx_ids, entries[i].transaction_id);
            if keep {
                proof {
                    assert(wf_entry(ev[i as int]));
                }
                out.append(&entries[i]);
            }
            proof {
                reveal(Seq::filter);
                let pre = ev.subrange(0, i as int);
                let pre2 = ev.subrange(0, i + 1);
                assert(pre2.drop_last() =~= pre);
                assert(pre2.last() == ev[i as int]);
                assert(keep == pred(ev[i as int]));
                if keep {
                    assert(pre2.filter(pred) == pre.filter(pred).push(ev[i as int]));
                } else {
                    assert(pre2.filter(pred) == pre.filter(pred));
                }
            }
            i = i + 1;
        }
        proof {
            assert(ev.subrange(0, ev.len() as int) =~= ev);
        }
        self.buf = out.buf;
        Ok(())
    }
}

} // verus!

verus! {

impl WALEntry {
    /// Parse one frame from the start of `data`; bytes after the frame are
    /// ignored. A short buffer, a bad kind or a checksum mismatch is a
    /// log corruption.
    pub fn deserialize(data: &[u8]) -> (r: Result<WALEntry, MongoLiteError>)
        ensures
            match r {
                Ok(e) => spec_frame_step(data@, 0) == FrameStepV::Frame(
                    e@,
                    spec_frame_bytes(e@).len() as int,
                ) && wf_entry(e@),
                Err(err) => err is WALCorruption && !(spec_frame_step(data@, 0) is Frame),
            },
    {
        if data.len() < 13 {
            return Err(MongoLiteError::WALCorruption);
        }
        let tx = vstd::bytes::u64_from_le_bytes(vstd::slice::slice_subrange(data, 0, 8));
        let code = *vstd::slice::slice_index_get(data, 8);
        let n32 = vstd::bytes::u32_from_le_bytes(vstd::slice::slice_subrange(data, 9, 13));
        let t = match WALEntryType::from_u8(code) {
            Ok(t) => t,
            Err(e) => {
                proof {
                    assert(spec_frame_step(data@, 0) is Bad);
                }
                return Err(e);
            }
        };
        let after_header: usize = data.len() - 13;
        if (after_header as u64) < (n32 as u64) + 4 {
            proof {
                assert(spec_frame_step(data@, 0) is End);
            }
            return Err(MongoLiteError::WALCorruption);
        }
        let n = n32 as usize;
        let payload = vstd::slice::slice_to_vec(vstd::slice::slice_subrange(data, 13, 13 + n));
        let computed = crc32(vstd::slice::slice_subrange(data, 0, 13 + n));
        let stored = vstd::bytes::u32_from_le_bytes(
            vstd::slice::slice_subrange(data, 13 + n, 17 + n),
        );
        if computed != stored {
            proof {
                assert(spec_frame_step(data@, 0) is Bad);
            }
            return Err(MongoLiteError::WALCorruption);
        }
        let entry = WALEntry { transaction_id: tx, entry_type: t, data: payload, checksum: stored };
        proof {
            assert(forall|a: WALEntryType, b: WALEntryType| spec_type_code(a) == spec_type_code(b)
                ==> a == b);
            assert(spec_frame_step(data@, 0) == FrameStepV::Frame(entry@, 17 + n));
            lemma_frame_step_sound(data@, 0);
        }
        Ok(entry)
    }
}

} // verus!
