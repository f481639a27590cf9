//! The document tree: a JSON-like value, document identifiers, and the
//! canonical byte encoding used for document records and WAL payloads.
//!
//! Floating-point numbers are carried as their IEEE-754 bit patterns (`u64`),
//! so that every value is made of plain data the verifier can reason about.

use vstd::bytes::{spec_u64_to_le_bytes, u64_to_le_bytes};
use vstd::prelude::*;
use vstd::utf8::encode_utf8;

verus! {

broadcast use vstd::std_specs::vec::group_vec_axioms;

/// A JSON-like tree. Object fields are kept in insertion order; key
/// uniqueness is an invariant of well-formed documents, not of the type.
#[derive(Debug)]
pub enum Value {
    Null,
    Bool(bool),
    /// 64-bit signed integer.
    Int(i64),
    /// IEEE-754 double, carried as its bit pattern.
    Float(u64),
    String(String),
    Array(Vec<Value>),
    Object(Vec<(String, Value)>),
}

/// Document identifier: an integer, a short string, or an opaque-id string.
#[derive(Debug)]
pub enum DocumentId {
    Int(i64),
    String(String),
    ObjectId(String),
}

/// Mathematical model of a `Value`.
#[verifier::ext_equal]
pub enum ValueV {
    Null,
    Bool(bool),
    Int(i64),
    Float(u64),
    String(Seq<char>),
    Array(Seq<ValueV>),
    Object(Seq<(Seq<char>, ValueV)>),
}

/// Mathematical model of a `DocumentId`.
#[verifier::ext_equal]
pub enum DocumentIdV {
    Int(i64),
    String(Seq<char>),
    ObjectId(Seq<char>),
}

/// Model of a value.
pub open spec fn value_view(v: Value) -> ValueV
    decreases v, 0int,
{
    match v {
        Value::Null => ValueV::Null,
        Value::Bool(b) => ValueV::Bool(b),
        Value::Int(i) => ValueV::Int(i),
        Value::Float(bits) => ValueV::Float(bits),
        Value::String(s) => ValueV::String(s@),
        Value::Array(items) => ValueV::Array(values_view(items@, items@.len() as int)),
        Value::Object(fields) => ValueV::Object(fields_view(fields@, fields@.len() as int)),
    }
}

/// Models of the values `s[..j]`.
pub open spec fn values_view(s: Seq<Value>, j: int) -> Seq<ValueV>
    decreases s, j,
{
    if 0 < j <= s.len() {
        values_view(s, j - 1).push(value_view(s[j - 1]))
    } else {
        Seq::empty()
    }
}

/// Models of the fields `s[..j]`.
pub open spec fn fields_view(s: Seq<(String, Value)>, j: int) -> Seq<(Seq<char>, ValueV)>
    decreases s, j,
{
    if 0 < j <= s.len() {
        fields_view(s, j - 1).push((s[j - 1].0@, value_view(s[j - 1].1)))
    } else {
        Seq::empty()
    }
}

pub broadcast proof fn lemma_values_view_len(s: Seq<Value>, j: int)
    requires
        0 <= j <= s.len(),
    ensures
        (#[trigger] values_view(s, j)).len() == j,
    decreases j,
{
    if 0 < j {
        lemma_values_view_len(s, j - 1);
    }
}

pub broadcast proof fn lemma_values_view_index(s: Seq<Value>, j: int, k: int)
    requires
        0 <= k < j <= s.len(),
    ensures
        #[trigger] values_view(s, j)[k] == value_view(s[k]),
    decreases j,
{
    lemma_values_view_len(s, j - 1);
    if k < j - 1 {
        lemma_values_view_index(s, j - 1, k);
    }
}

pub broadcast proof fn lemma_fields_view_len(s: Seq<(String, Value)>, j: int)
    requires
        0 <= j <= s.len(),
    ensures
        (#[trigger] fields_view(s, j)).len() == j,
    decreases j,
{
    if 0 < j {
        lemma_fields_view_len(s, j - 1);
    }
}

pub broadcast proof fn lemma_fields_view_index(s: Seq<(String, Value)>, j: int, k: int)
    requires
        0 <= k < j <= s.len(),
    ensures
        #[trigger] fields_view(s, j)[k] == (s[k].0@, value_view(s[k].1)),
    decreases j,
{
    lemma_fields_view_len(s, j - 1);
    if k < j - 1 {
        lemma_fields_view_index(s, j - 1, k);
    }
}

pub broadcast group group_value_views {
    lemma_values_view_len,
    lemma_values_view_index,
    lemma_fields_view_len,
    lemma_fields_view_index,
}

impl View for Value {
    type V = ValueV;

    open spec fn view(&self) -> ValueV {
        value_view(*self)
    }
}

impl View for DocumentId {
    type V = DocumentIdV;

    open spec fn view(&self) -> DocumentIdV {
        match self {
            DocumentId::Int(i) => DocumentIdV::Int(*i),
            DocumentId::String(s) => DocumentIdV::String(s@),
            DocumentId::ObjectId(s) => DocumentIdV::ObjectId(s@),
        }
    }
}

impl Clone for DocumentId {
    fn clone(&self) -> (r: Self)
        ensures
            r == *self,
    {
        match self {
            DocumentId::Int(i) => DocumentId::Int(*i),
            DocumentId::String(s) => DocumentId::String(s.clone()),
            DocumentId::ObjectId(s) => DocumentId::ObjectId(s.clone()),
        }
    }
}

impl Clone for Value {
    #[verifier::loop_isolation(false)]
    fn clone(&self) -> (r: Self)
        ensures
            r@ == self@,
        decreases self,
    {
        match self {
            Value::Null => Value::Null,
            Value::Bool(b) => Value::Bool(*b),
            Value::Int(i) => Value::Int(*i),
            Value::Float(bits) => Value::Float(*bits),
            Value::String(s) => Value::String(s.clone()),
            Value::Array(items) => {
                let mut out: Vec<Value> = Vec::new();
                let mut j: usize = 0;
                while j < items.len()
                    invariant
                        j <= items.len(),
                        out@.len() == j,
                        forall|k: int| 0 <= k < j ==> out@[k]@ == items@[k]@,
                    decreases items.len() - j,
                {
                    proof {
                        assert(decreases_to!(*items => items@[j as int]));
                        assert(decreases_to!(*self => items@[j as int]));
                    }
                    out.push(items[j].clone());
                    j = j + 1;
                }
                proof {
                    broadcast use group_value_views;
                    assert(values_view(out@, out@.len() as int) =~= values_view(items@, items@.len() as int));
                }
                Value::Array(out)
            }
            Value::Object(fields) => {
                let mut out: Vec<(String, Value)> = Vec::new();
                let mut j: usize = 0;
                while j < fields.len()
                    invariant
                        j <= fields.len(),
                        out@.len() == j,
                        forall|k: int| 0 <= k < j ==> out@[k].0@ == fields@[k].0@
                            && out@[k].1@ == fields@[k].1@,
                    decreases fields.len() - j,
                {
                    proof {
                        assert(decreases_to!(*fields => fields@[j as int]));
                        assert(decreases_to!(fields@[j as int] => fields@[j as int].1));
                        assert(decreases_to!(*self => fields@[j as int].1));
                    }
                    let pair = (fields[j].0.clone(), fields[j].1.clone());
                    out.push(pair);
                    j = j + 1;
                }
                proof {
                    broadcast use group_value_views;
                    assert(fields_view(out@, out@.len() as int) =~= fields_view(fields@, fields@.len() as int));
                }
                Value::Object(out)
            }
        }
    }
}

impl DocumentId {
    /// Structural equality of identifiers.
    pub fn eq_id(&self, other: &DocumentId) -> (r: bool)
        ensures
            r == (self@ == other@),
    {
        match (self, other) {
            (DocumentId::Int(a), DocumentId::Int(b)) => *a == *b,
            (DocumentId::String(a), DocumentId::String(b)) => *a == *b,
            (DocumentId::ObjectId(a), DocumentId::ObjectId(b)) => *a == *b,
            _ => false,
        }
    }

    /// A fresh opaque identifier: a 128-bit random token in its canonical
    /// hyphenated form.
    pub fn new_object_id() -> (r: DocumentId)
        ensures
            r is ObjectId,
            r@ matches DocumentIdV::ObjectId(s) && s.len() == 36,
    {
        DocumentId::ObjectId(random_token())
    }

    /// Next auto-increment identifier after `last_id`.
    pub fn new_auto(last_id: u64) -> (r: DocumentId)
        requires
            last_id < 0x7fff_ffff_ffff_ffff,
        ensures
            r@ == DocumentIdV::Int((last_id + 1) as i64),
    {
        DocumentId::Int((last_id + 1) as i64)
    }
}

impl PartialEq for DocumentId {
    fn eq(&self, other: &Self) -> (r: bool) {
        self.eq_id(other)
    }
}

impl Eq for DocumentId {}

impl vstd::std_specs::cmp::PartialEqSpecImpl for DocumentId {
    open spec fn obeys_eq_spec() -> bool {
        true
    }

    open spec fn eq_spec(&self, other: &DocumentId) -> bool {
        self@ == other@
    }
}

impl Value {
    /// Structural equality of values. Floats compare by bit pattern.
    #[verifier::loop_isolation(false)]
    pub fn eq_value(&self, other: &Value) -> (r: bool)
        ensures
            r == (self@ == other@),
        decreases self,
    {
        match (self, other) {
            (Value::Null, Value::Null) => true,
            (Value::Bool(a), Value::Bool(b)) => *a == *b,
            (Value::Int(a), Value::Int(b)) => *a == *b,
            (Value::Float(a), Value::Float(b)) => *a == *b,
            (Value::String(a), Value::String(b)) => *a == *b,
            (Value::Array(a), Value::Array(b)) => {
                let ghost av = values_view(a@, a@.len() as int);
                let ghost bv = values_view(b@, b@.len() as int);
                proof {
                    broadcast use group_value_views;
                    assert(av.len() == a@.len());
                    assert(bv.len() == b@.len());
                }
                if a.len() != b.len() {
                    return false;
                }
                let mut j: usize = 0;
                while j < a.len()
                    invariant
                        j <= a.len(),
                        a@.len() == b@.len(),
                        av == values_view(a@, a@.len() as int),
                        bv == values_view(b@, b@.len() as int),
                        av.len() == a@.len(),
                        bv.len() == b@.len(),
                        self@ == ValueV::Array(av),
                        other@ == ValueV::Array(bv),
                        forall|k: int| 0 <= k < j ==> a@[k]@ == b@[k]@,
                    decreases a.len() - j,
                {
                    proof {
                        assert(decreases_to!(*a => a@[j as int]));
                        assert(decreases_to!(*self => a@[j as int]));
                    }
                    if !a[j].eq_value(&b[j]) {
                        proof {
                            broadcast use group_value_views;
                            assert(av[j as int] == value_view(a@[j as int]));
                            assert(bv[j as int] == value_view(b@[j as int]));
                        }
                        return false;
                    }
                    j = j + 1;
                }
                proof {
                    broadcast use group_value_views;
                    assert(av =~= bv);
                }
                true
            }
            (Value::Object(a), Value::Object(b)) => {
                let ghost av = fields_view(a@, a@.len() as int);
                let ghost bv = fields_view(b@, b@.len() as int);
                proof {
                    broadcast use group_value_views;
                    assert(av.len() == a@.len());
                    assert(bv.len() == b@.len());
                }
                if a.len() != b.len() {
                    return false;
                }
                let mut j: usize = 0;
                while j < a.len()
                    invariant
                        j <= a.len(),
                        a@.len() == b@.len(),
                        av == fields_view(a@, a@.len() as int),
                        bv == fields_view(b@, b@.len() as int),
                        av.len() == a@.len(),
                        bv.len() == b@.len(),
                        self@ == ValueV::Object(av),
                        other@ == ValueV::Object(bv),
                        forall|k: int| 0 <= k < j ==> a@[k].0@ == b@[k].0@ && a@[k].1@ == b@[k].1@,
                    decreases a.len() - j,
                {
                    let keys_equal = a[j].0 == b[j].0;
                    if !keys_equal {
                        proof {
                            broadcast use group_value_views;
                            assert(av[j as int] == (a@[j as int].0@, value_view(a@[j as int].1)));
                            assert(bv[j as int] == (b@[j as int].0@, value_view(b@[j as int].1)));
                        }
                        return false;
                    }
                    proof {
                        assert(decreases_to!(*a => a@[j as int]));
                        assert(decreases_to!(a@[j as int] => a@[j as int].1));
                        assert(decreases_to!(*self => a@[j as int].1));
                    }
                    if !a[j].1.eq_value(&b[j].1) {
                        proof {
                            broadcast use group_value_views;
                            assert(av[j as int] == (a@[j as int].0@, value_view(a@[j as int].1)));
                            assert(bv[j as int] == (b@[j as int].0@, value_view(b@[j as int].1)));
                        }
                        return false;
                    }
                    j = j + 1;
                }
                proof {
                    broadcast use group_value_views;
                    assert(av =~= bv);
                }
                true
            }
            _ => false,
        }
    }
}

impl PartialEq for Value {
    fn eq(&self, other: &Self) -> (r: bool) {
        self.eq_value(other)
    }
}

impl vstd::std_specs::cmp::PartialEqSpecImpl for Value {
    open spec fn obeys_eq_spec() -> bool {
        true
    }

    open spec fn eq_spec(&self, other: &Value) -> bool {
        self@ == other@
    }
}

// ---------------------------------------------------------------------------
// Canonical byte encoding
// ---------------------------------------------------------------------------

/// Two's-complement bit pattern of a signed 64-bit integer.
pub open spec fn i64_bits(i: i64) -> u64 {
    if i >= 0 {
        i as u64
    } else {
        (i + 0x1_0000_0000_0000_0000) as u64
    }
}

/// Signed 64-bit integer named by a two's-complement bit pattern.
pub open spec fn bits_i64(b: u64) -> i64 {
    if b < 0x8000_0000_0000_0000 {
        b as i64
    } else {
        (b - 0x1_0000_0000_0000_0000) as i64
    }
}

/// Law: the two's-complement bit pattern of a signed integer reads back
/// as the same integer.
pub proof fn lemma_i64_bits_roundtrip(i: i64)
    ensures
        bits_i64(i64_bits(i)) == i,
{
}

/// Two's-complement bit pattern of a signed 64-bit integer, executable form.
pub fn i64_to_bits(i: i64) -> (r: u64)
    ensures
        r == i64_bits(i),
{
    if i >= 0 {
        i as u64
    } else {
        let m: u64 = ((-(i + 1)) as u64) + 1;
        (u64::MAX - m) + 1
    }
}

/// Signed 64-bit integer from a two's-complement bit pattern, executable form.
pub fn bits_to_i64(b: u64) -> (r: i64)
    ensures
        r == bits_i64(b),
{
    if b < 0x8000_0000_0000_0000 {
        b as i64
    } else {
        let m: u64 = (u64::MAX - b) + 1;
        (-((m - 1) as i64)) - 1
    }
}

/// Canonical encoding of a value: a tag byte, then the payload. Lengths and
/// element counts are 64-bit little-endian; strings are UTF-8.
pub open spec fn spec_enc(v: ValueV) -> Seq<u8>
    decreases v, 1int,
{
    match v {
        ValueV::Null => seq![0u8],
        ValueV::Bool(b) => seq![1u8, if b { 1u8 } else { 0u8 }],
        ValueV::Int(i) => seq![2u8] + spec_u64_to_le_bytes(i64_bits(i)),
        ValueV::Float(bits) => seq![3u8] + spec_u64_to_le_bytes(bits),
        ValueV::String(s) => {
            let bs = encode_utf8(s);
            seq![4u8] + spec_u64_to_le_bytes(bs.len() as u64) + bs
        }
        ValueV::Array(items) => seq![5u8] + spec_u64_to_le_bytes(items.len() as u64)
            + spec_enc_items(items, 0),
        ValueV::Object(fields) => seq![6u8] + spec_u64_to_le_bytes(fields.len() as u64)
            + spec_enc_fields(fields, 0),
    }
}

/// Concatenated encodings of `items[i..]`.
pub open spec fn spec_enc_items(items: Seq<ValueV>, i: int) -> Seq<u8>
    decreases items, items.len() - i, 0int,
{
    if 0 <= i < items.len() {
        spec_enc(items[i]) + spec_enc_items(items, i + 1)
    } else {
        Seq::empty()
    }
}

/// Concatenated encodings of the fields `fields[i..]`: each field is a
/// length-prefixed UTF-8 key followed by the encoded value.
pub open spec fn spec_enc_fields(fields: Seq<(Seq<char>, ValueV)>, i: int) -> Seq<u8>
    decreases fields, fields.len() - i, 0int,
{
    if 0 <= i < fields.len() {
        let key = encode_utf8(fields[i].0);
        spec_u64_to_le_bytes(key.len() as u64) + key + spec_enc(fields[i].1)
            + spec_enc_fields(fields, i + 1)
    } else {
        Seq::empty()
    }
}

/// Append the canonical encoding of `v` to `out`.
#[verifier::loop_isolation(false)]
pub fn encode_into(v: &Value, out: &mut Vec<u8>)
    ensures
        final(out)@ == old(out)@ + spec_enc(v@),
    decreases v,
{
    proof {
        vstd::bytes::lemma_auto_spec_u64_to_from_le_bytes();
    }
    match v {
        Value::Null => {
            out.push(0u8);
            proof {
                assert(out@ =~= old(out)@ + spec_enc(v@));
            }
        }
        Value::Bool(b) => {
            out.push(1u8);
            out.push(if *b { 1u8 } else { 0u8 });
            proof {
                assert(out@ =~= old(out)@ + spec_enc(v@));
            }
        }
        Value::Int(i) => {
            out.push(2u8);
            let mut tmp = u64_to_le_bytes(i64_to_bits(*i));
            out.append(&mut tmp);
            proof {
                assert(out@ =~= old(out)@ + spec_enc(v@));
            }
        }
        Value::Float(bits) => {
            out.push(3u8);
            let mut tmp = u64_to_le_bytes(*bits);
            out.append(&mut tmp);
            proof {
                assert(out@ =~= old(out)@ + spec_enc(v@));
            }
        }
        Value::String(s) => {
            out.push(4u8);
            let bs: &[u8] = s.as_str().as_bytes();
            let mut tmp = u64_to_le_bytes(bs.len() as u64);
            out.append(&mut tmp);
            out.extend_from_slice(bs);
            proof {
                assert(out@ =~= old(out)@ + spec_enc(v@));
            }
        }
        Value::Array(items) => {
            out.push(5u8);
            let mut tmp = u64_to_le_bytes(items.len() as u64);
            out.append(&mut tmp);
            let ghost base = out@;
            let ghost itemsv = values_view(items@, items@.len() as int);
            proof {
                broadcast use group_value_views;
                assert(itemsv.len() == items@.len());
                assert(base =~= old(out)@ + seq![5u8]
                    + spec_u64_to_le_bytes(itemsv.len() as u64));
                assert(base + spec_enc_items_upto(itemsv, 0) =~= base);
            }
            let mut j: usize = 0;
            while j < items.len()
                invariant
                    j <= items.len(),
                    itemsv == values_view(items@, items@.len() as int),
                    itemsv.len() == items@.len(),
                    out@ == base + spec_enc_items_upto(itemsv, j as int),
                decreases items.len() - j,
            {
                proof {
                    assert(decreases_to!(*items => items@[j as int]));
                    assert(decreases_to!(*v => items@[j as int]));
                }
                encode_into(&items[j], out);
                proof {
                    broadcast use group_value_views;
                    assert(itemsv[j as int] == value_view(items@[j as int]));
                    lemma_enc_items_upto_step(itemsv, j as int);
                    assert(out@ =~= base + spec_enc_items_upto(itemsv, j as int + 1));
                }
                j = j + 1;
            }
            proof {
                lemma_enc_items_upto_full(itemsv);
                assert(out@ =~= old(out)@ + spec_enc(v@));
            }
        }
        Value::Object(fields) => {
            out.push(6u8);
            let mut tmp = u64_to_le_bytes(fields.len() as u64);
            out.append(&mut tmp);
            let ghost base = out@;
            let ghost fieldsv = fields_view(fields@, fields@.len() as int);
            proof {
                broadcast use group_value_views;
                assert(fieldsv.len() == fields@.len());
                assert(base =~= old(out)@ + seq![6u8]
                    + spec_u64_to_le_bytes(fieldsv.len() as u64));
                assert(base + spec_enc_fields_upto(fieldsv, 0) =~= base);
            }
            let mut j: usize = 0;
            while j < fields.len()
                invariant
                    j <= fields.len(),
                    fieldsv == fields_view(fields@, fields@.len() as int),
                    fieldsv.len() == fields@.len(),
                    out@ == base + spec_enc_fields_upto(fieldsv, j as int),
                decreases fields.len() - j,
            {
                let key: &[u8] = fields[j].0.as_str().as_bytes();
                let mut tmp2 = u64_to_le_bytes(key.len() as u64);
                out.append(&mut tmp2);
                out.extend_from_slice(key);
                proof {
                    assert(decreases_to!(*fields => fields@[j as int]));
                    assert(decreases_to!(fields@[j as int] => fields@[j as int].1));
                    assert(decreases_to!(*v => fields@[j as int].1));
                }
                encode_into(&fields[j].1, out);
                proof {
                    broadcast use group_value_views;
                    assert(fieldsv[j as int] == (fields@[j as int].0@, value_view(fields@[j as int].1)));
                    lemma_enc_fields_upto_step(fieldsv, j as int);
                    assert(out@ =~= base + spec_enc_fields_upto(fieldsv, j as int + 1));
                }
                j = j + 1;
            }
            proof {
                lemma_enc_fields_upto_full(fieldsv);
                assert(out@ =~= old(out)@ + spec_enc(v@));
            }
        }
    }
}

/// Concatenated encodings of `items[..j]`.
pub open spec fn spec_enc_items_upto(items: Seq<ValueV>, j: int) -> Seq<u8>
    decreases j,
{
    if 0 < j <= items.len() {
        spec_enc_items_upto(items, j - 1) + spec_enc(items[j - 1])
    } else {
        Seq::empty()
    }
}

/// Concatenated encodings of `fields[..j]`.
pub open spec fn spec_enc_fields_upto(fields: Seq<(Seq<char>, ValueV)>, j: int) -> Seq<u8>
    decreases j,
{
    if 0 < j <= fields.len() {
        let key = encode_utf8(fields[j - 1].0);
        spec_enc_fields_upto(fields, j - 1) + (spec_u64_to_le_bytes(key.len() as u64) + key
            + spec_enc(fields[j - 1].1))
    } else {
        Seq::empty()
    }
}

proof fn lemma_enc_items_upto_step(items: Seq<ValueV>, j: int)
    requires
        0 <= j < items.len(),
    ensures
        spec_enc_items_upto(items, j + 1) == spec_enc_items_upto(items, j) + spec_enc(items[j]),
{
}

proof fn lemma_enc_fields_upto_step(fields: Seq<(Seq<char>, ValueV)>, j: int)
    requires
        0 <= j < fields.len(),
    ensures
        spec_enc_fields_upto(fields, j + 1) == spec_enc_fields_upto(fields, j)
            + (spec_u64_to_le_bytes(encode_utf8(fields[j].0).len() as u64) + encode_utf8(fields[j].0)
            + spec_enc(fields[j].1)),
{
}

/// The two directions of writing a list of encodings agree.
proof fn lemma_enc_items_agree(items: Seq<ValueV>, j: int)
    requires
        0 <= j <= items.len(),
    ensures
        spec_enc_items_upto(items, j) + spec_enc_items(items, j) == spec_enc_items(items, 0),
    decreases j,
{
    if j == 0 {
        assert(spec_enc_items_upto(items, 0) + spec_enc_items(items, 0)
            =~= spec_enc_items(items, 0));
    } else {
        lemma_enc_items_agree(items, j - 1);
        assert(spec_enc_items_upto(items, j) + spec_enc_items(items, j)
            =~= (spec_enc_items_upto(items, j - 1) + spec_enc(items[j - 1]))
                + spec_enc_items(items, j));
        assert(spec_enc(items[j - 1]) + spec_enc_items(items, j)
            == spec_enc_items(items, j - 1));
        assert((spec_enc_items_upto(items, j - 1) + spec_enc(items[j - 1]))
            + spec_enc_items(items, j)
            =~= spec_enc_items_upto(items, j - 1) + spec_enc_items(items, j - 1));
    }
}

proof fn lemma_enc_items_upto_full(items: Seq<ValueV>)
    ensures
        spec_enc_items_upto(items, items.len() as int) == spec_enc_items(items, 0),
{
    lemma_enc_items_agree(items, items.len() as int);
    assert(spec_enc_items(items, items.len() as int) =~= Seq::<u8>::empty());
    assert(spec_enc_items_upto(items, items.len() as int) + Seq::<u8>::empty()
        =~= spec_enc_items_upto(items, items.len() as int));
}

#[verifier::rlimit(100)]
proof fn lemma_enc_fields_agree(fields: Seq<(Seq<char>, ValueV)>, j: int)
    requires
        0 <= j <= fields.len(),
    ensures
        spec_enc_fields_upto(fields, j) + spec_enc_fields(fields, j) == spec_enc_fields(fields, 0),
    decreases j,
{
    if j == 0 {
        assert(spec_enc_fields_upto(fields, 0) + spec_enc_fields(fields, 0)
            =~= spec_enc_fields(fields, 0));
    } else {
        lemma_enc_fields_agree(fields, j - 1);
        let key = encode_utf8(fields[j - 1].0);
        let piece = spec_u64_to_le_bytes(key.len() as u64) + key + spec_enc(fields[j - 1].1);
        assert(spec_enc_fields_upto(fields, j) + spec_enc_fields(fields, j)
            =~= (spec_enc_fields_upto(fields, j - 1) + piece) + spec_enc_fields(fields, j));
        assert(piece + spec_enc_fields(fields, j) =~= spec_enc_fields(fields, j - 1));
        assert((spec_enc_fields_upto(fields, j - 1) + piece) + spec_enc_fields(fields, j)
            =~= spec_enc_fields_upto(fields, j - 1) + spec_enc_fields(fields, j - 1));
    }
}

proof fn lemma_enc_fields_upto_full(fields: Seq<(Seq<char>, ValueV)>)
    ensures
        spec_enc_fields_upto(fields, fields.len() as int) == spec_enc_fields(fields, 0),
{
    lemma_enc_fields_agree(fields, fields.len() as int);
    assert(spec_enc_fields(fields, fields.len() as int) =~= Seq::<u8>::empty());
    assert(spec_enc_fields_upto(fields, fields.len() as int) + Seq::<u8>::empty()
        =~= spec_enc_fields_upto(fields, fields.len() as int));
}

/// Canonical encoding of a value as a fresh byte vector.
pub fn encode_value(v: &Value) -> (r: Vec<u8>)
    ensures
        r@ == spec_enc(v@),
{
    let mut out: Vec<u8> = Vec::new();
    encode_into(v, &mut out);
    proof {
        assert(out@ =~= spec_enc(v@));
    }
    out
}

} // verus!

verus! {

// ---------------------------------------------------------------------------
// Canonical decoding
// ---------------------------------------------------------------------------

/// Relies on String::from_utf8: it accepts exactly the valid UTF-8 byte
/// sequences and returns the string those bytes spell.
#[verifier::external_body]
pub(crate) fn string_from_utf8(v: Vec<u8>) -> (r: Option<String>)
    ensures
        match r {
            Some(s) => vstd::utf8::valid_utf8(v@) && s@ == vstd::utf8::decode_utf8(v@),
            None => !vstd::utf8::valid_utf8(v@),
        },
{
    match String::from_utf8(v) {
        Ok(s) => Some(s),
        Err(_) => None,
    }
}

/// Decode one value at `pos`: the decoded value and the position after it.
/// Every accepted byte string is the canonical encoding of its result.
pub open spec fn spec_dec(bytes: Seq<u8>, pos: int) -> Option<(ValueV, int)>
    decreases bytes.len() - pos, 0int,
{
    if pos < 0 || pos >= bytes.len() {
        None
    } else {
        let tag = bytes[pos];
        if tag == 0 {
            Some((ValueV::Null, pos + 1))
        } else if tag == 1 {
            if pos + 2 <= bytes.len() {
                if bytes[pos + 1] == 1 {
                    Some((ValueV::Bool(true), pos + 2))
                } else if bytes[pos + 1] == 0 {
                    Some((ValueV::Bool(false), pos + 2))
                } else {
                    None
                }
            } else {
                None
            }
        } else if tag == 2 {
            if pos + 9 <= bytes.len() {
                let u = vstd::bytes::spec_u64_from_le_bytes(bytes.subrange(pos + 1, pos + 9));
                Some((ValueV::Int(bits_i64(u)), pos + 9))
            } else {
                None
            }
        } else if tag == 3 {
            if pos + 9 <= bytes.len() {
                let u = vstd::bytes::spec_u64_from_le_bytes(bytes.subrange(pos + 1, pos + 9));
                Some((ValueV::Float(u), pos + 9))
            } else {
                None
            }
        } else if tag == 4 {
            if pos + 9 <= bytes.len() {
                let n = vstd::bytes::spec_u64_from_le_bytes(bytes.subrange(pos + 1, pos + 9)) as int;
                if pos + 9 + n <= bytes.len() {
                    let bs = bytes.subrange(pos + 9, pos + 9 + n);
                    if vstd::utf8::valid_utf8(bs) {
                        Some((ValueV::String(vstd::utf8::decode_utf8(bs)), pos + 9 + n))
                    } else {
                        None
                    }
                } else {
                    None
                }
            } else {
                None
            }
        } else if tag == 5 {
            if pos + 9 <= bytes.len() {
                let n = vstd::bytes::spec_u64_from_le_bytes(bytes.subrange(pos + 1, pos + 9)) as int;
                match spec_dec_items(bytes, pos + 9, n) {
                    Some((vs, end)) => Some((ValueV::Array(vs), end)),
                    None => None,
                }
            } else {
                None
            }
        } else if tag == 6 {
            if pos + 9 <= bytes.len() {
                let n = vstd::bytes::spec_u64_from_le_bytes(bytes.subrange(pos + 1, pos + 9)) as int;
                match spec_dec_fields(bytes, pos + 9, n) {
                    Some((fs, end)) => Some((ValueV::Object(fs), end)),
                    None => None,
                }
            } else {
                None
            }
        } else {
            None
        }
    }
}

/// Decode `n` consecutive values starting at `pos`.
pub open spec fn spec_dec_items(bytes: Seq<u8>, pos: int, n: int) -> Option<(Seq<ValueV>, int)>
    decreases bytes.len() - pos, n,
{
    if pos < 0 || pos > bytes.len() {
        None
    } else if n <= 0 {
        Some((Seq::empty(), pos))
    } else {
        match spec_dec(bytes, pos) {
            Some((v, end)) => if pos < end <= bytes.len() {
                match spec_dec_items(bytes, end, n - 1) {
                    Some((vs, end2)) => Some((seq![v] + vs, end2)),
                    None => None,
                }
            } else {
                None
            },
            None => None,
        }
    }
}

/// Decode `n` consecutive fields (length-prefixed UTF-8 key, then value).
pub open spec fn spec_dec_fields(bytes: Seq<u8>, pos: int, n: int) -> Option<
    (Seq<(Seq<char>, ValueV)>, int),
>
    decreases bytes.len() - pos, n,
{
    if pos < 0 || pos > bytes.len() {
        None
    } else if n <= 0 {
        Some((Seq::empty(), pos))
    } else if pos + 8 <= bytes.len() {
        let k = vstd::bytes::spec_u64_from_le_bytes(bytes.subrange(pos, pos + 8)) as int;
        if pos + 8 + k <= bytes.len() {
            let kb = bytes.subrange(pos + 8, pos + 8 + k);
            if vstd::utf8::valid_utf8(kb) {
                match spec_dec(bytes, pos + 8 + k) {
                    Some((v, end)) => if pos + 8 + k < end <= bytes.len() {
                        match spec_dec_fields(bytes, end, n - 1) {
                            Some((fs, end2)) => Some(
                                (seq![(vstd::utf8::decode_utf8(kb), v)] + fs, end2),
                            ),
                            None => None,
                        }
                    } else {
                        None
                    },
                    None => None,
                }
            } else {
                None
            }
        } else {
            None
        }
    } else {
        None
    }
}

} // verus!

verus! {

// ---------------------------------------------------------------------------
// The codec round trip
// ---------------------------------------------------------------------------

/// Every encoding is at least one byte long.
pub proof fn lemma_enc_min_len(v: ValueV)
    ensures
        spec_enc(v).len() >= 1,
{
}

/// Encoding `items[i..]` takes at least one byte per element.
pub proof fn lemma_enc_items_min_len(items: Seq<ValueV>, i: int)
    requires
        0 <= i <= items.len(),
    ensures
        spec_enc_items(items, i).len() >= items.len() - i,
    decreases items.len() - i,
{
    if i < items.len() {
        lemma_enc_min_len(items[i]);
        lemma_enc_items_min_len(items, i + 1);
    }
}

/// Encoding `fields[i..]` takes at least one byte per field.
pub proof fn lemma_enc_fields_min_len(fields: Seq<(Seq<char>, ValueV)>, i: int)
    requires
        0 <= i <= fields.len(),
    ensures
        spec_enc_fields(fields, i).len() >= fields.len() - i,
    decreases fields.len() - i,
{
    if i < fields.len() {
        vstd::bytes::lemma_auto_spec_u64_to_from_le_bytes();
        lemma_enc_min_len(fields[i].1);
        lemma_enc_fields_min_len(fields, i + 1);
    }
}

proof fn lemma_enc_items_tail(s: Seq<ValueV>, vs: Seq<ValueV>, i: int)
    requires
        0 <= i <= vs.len(),
        s.len() == vs.len() + 1,
        forall|k: int| 0 <= k < vs.len() ==> s[k + 1] == vs[k],
    ensures
        spec_enc_items(s, i + 1) == spec_enc_items(vs, i),
    decreases vs.len() - i,
{
    if i < vs.len() {
        lemma_enc_items_tail(s, vs, i + 1);
        assert(s[i + 1] == vs[i]);
    }
}

/// Prepending a value prepends its encoding.
proof fn lemma_enc_items_cons(v: ValueV, vs: Seq<ValueV>)
    ensures
        spec_enc_items(seq![v] + vs, 0) == spec_enc(v) + spec_enc_items(vs, 0),
{
    let s = seq![v] + vs;
    assert(s[0] == v);
    lemma_enc_items_tail(s, vs, 0);
}

proof fn lemma_enc_fields_tail(s: Seq<(Seq<char>, ValueV)>, fs: Seq<(Seq<char>, ValueV)>, i: int)
    requires
        0 <= i <= fs.len(),
        s.len() == fs.len() + 1,
        forall|k: int| 0 <= k < fs.len() ==> s[k + 1] == fs[k],
    ensures
        spec_enc_fields(s, i + 1) == spec_enc_fields(fs, i),
    decreases fs.len() - i,
{
    if i < fs.len() {
        lemma_enc_fields_tail(s, fs, i + 1);
        assert(s[i + 1] == fs[i]);
    }
}

/// Prepending a field prepends its encoding.
proof fn lemma_enc_fields_cons(f: (Seq<char>, ValueV), fs: Seq<(Seq<char>, ValueV)>)
    ensures
        spec_enc_fields(seq![f] + fs, 0) == (spec_u64_to_le_bytes(encode_utf8(f.0).len() as u64)
            + encode_utf8(f.0) + spec_enc(f.1)) + spec_enc_fields(fs, 0),
{
    let s = seq![f] + fs;
    assert(s[0] == f);
    lemma_enc_fields_tail(s, fs, 0);
}

/// Whatever the decoder accepts is the canonical encoding of its result.
pub proof fn lemma_dec_sound(bytes: Seq<u8>, pos: int)
    ensures
        spec_dec(bytes, pos) matches Some(r) ==> pos < r.1 <= bytes.len()
            && bytes.subrange(pos, r.1) == spec_enc(r.0),
    decreases bytes.len() - pos, 0int,
{
    vstd::bytes::lemma_auto_spec_u64_to_from_le_bytes();
    broadcast use vstd::utf8::decode_utf8_encode_utf8;

    if spec_dec(bytes, pos) is Some {
        let (v, end) = spec_dec(bytes, pos)->Some_0;
        let tag = bytes[pos];
        if tag == 0 {
            assert(bytes.subrange(pos, end) =~= spec_enc(v));
        } else if tag == 1 {
            assert(bytes.subrange(pos, end) =~= spec_enc(v));
        } else if tag == 2 {
            let u = vstd::bytes::spec_u64_from_le_bytes(bytes.subrange(pos + 1, pos + 9));
            assert(i64_bits(bits_i64(u)) == u);
            assert(bytes.subrange(pos, end) =~= spec_enc(v));
        } else if tag == 3 {
            assert(bytes.subrange(pos, end) =~= spec_enc(v));
        } else if tag == 4 {
            let n = vstd::bytes::spec_u64_from_le_bytes(bytes.subrange(pos + 1, pos + 9)) as int;
            let bs = bytes.subrange(pos + 9, pos + 9 + n);
            assert(encode_utf8(vstd::utf8::decode_utf8(bs)) == bs);
            assert(bs.len() == n);
            assert(bytes.subrange(pos, end) =~= spec_enc(v));
        } else if tag == 5 {
            let n = vstd::bytes::spec_u64_from_le_bytes(bytes.subrange(pos + 1, pos + 9)) as int;
            lemma_dec_items_sound(bytes, pos + 9, n);
            let (vs, end2) = spec_dec_items(bytes, pos + 9, n)->Some_0;
            assert(vs.len() == n);
            assert(bytes.subrange(pos + 9, end2) == spec_enc_items(vs, 0));
            assert(bytes.subrange(pos, end) =~= seq![5u8]
                + spec_u64_to_le_bytes(n as u64) + bytes.subrange(pos + 9, end2));
            assert(bytes.subrange(pos, end) =~= spec_enc(v));
        } else if tag == 6 {
            let n = vstd::bytes::spec_u64_from_le_bytes(bytes.subrange(pos + 1, pos + 9)) as int;
            lemma_dec_fields_sound(bytes, pos + 9, n);
            let (fs, end2) = spec_dec_fields(bytes, pos + 9, n)->Some_0;
            assert(fs.len() == n);
            assert(bytes.subrange(pos + 9, end2) == spec_enc_fields(fs, 0));
            assert(bytes.subrange(pos, end) =~= seq![6u8]
                + spec_u64_to_le_bytes(n as u64) + bytes.subrange(pos + 9, end2));
            assert(bytes.subrange(pos, end) =~= spec_enc(v));
        }
    }
}

/// Companion of [`lemma_dec_sound`] for runs of values.
pub proof fn lemma_dec_items_sound(bytes: Seq<u8>, pos: int, n: int)
    ensures
        spec_dec_items(bytes, pos, n) matches Some(r) ==> pos <= r.1 <= bytes.len()
            && r.0.len() == (if n <= 0 { 0int } else { n })
            && bytes.subrange(pos, r.1) == spec_enc_items(r.0, 0),
    decreases bytes.len() - pos, n,
{
    if spec_dec_items(bytes, pos, n) is Some {
        let (vs, end2) = spec_dec_items(bytes, pos, n)->Some_0;
        if n <= 0 {
            assert(bytes.subrange(pos, pos) =~= spec_enc_items(vs, 0));
        } else {
            let (v, end) = spec_dec(bytes, pos)->Some_0;
            lemma_dec_sound(bytes, pos);
            lemma_dec_items_sound(bytes, end, n - 1);
            let (rest, _e) = spec_dec_items(bytes, end, n - 1)->Some_0;
            lemma_enc_items_cons(v, rest);
            assert(bytes.subrange(pos, end2) =~= bytes.subrange(pos, end)
                + bytes.subrange(end, end2));
        }
    }
}

/// Companion of [`lemma_dec_sound`] for runs of fields.
pub proof fn lemma_dec_fields_sound(bytes: Seq<u8>, pos: int, n: int)
    ensures
        spec_dec_fields(bytes, pos, n) matches Some(r) ==> pos <= r.1 <= bytes.len()
            && r.0.len() == (if n <= 0 { 0int } else { n })
            && bytes.subrange(pos, r.1) == spec_enc_fields(r.0, 0),
    decreases bytes.len() - pos, n,
{
    vstd::bytes::lemma_auto_spec_u64_to_from_le_bytes();
    broadcast use vstd::utf8::decode_utf8_encode_utf8;

    if spec_dec_fields(bytes, pos, n) is Some {
        let (fs, end2) = spec_dec_fields(bytes, pos, n)->Some_0;
        if n <= 0 {
            assert(bytes.subrange(pos, pos) =~= spec_enc_fields(fs, 0));
        } else {
            let k = vstd::bytes::spec_u64_from_le_bytes(bytes.subrange(pos, pos + 8)) as int;
            let kb = bytes.subrange(pos + 8, pos + 8 + k);
            let (v, end) = spec_dec(bytes, pos + 8 + k)->Some_0;
            lemma_dec_sound(bytes, pos + 8 + k);
            lemma_dec_fields_sound(bytes, end, n - 1);
            let (rest, _e) = spec_dec_fields(bytes, end, n - 1)->Some_0;
            let f = (vstd::utf8::decode_utf8(kb), v);
            lemma_enc_fields_cons(f, rest);
            assert(encode_utf8(f.0) == kb);
            assert(bytes.subrange(pos, end2) =~= (bytes.subrange(pos, pos + 8)
                + bytes.subrange(pos + 8, pos + 8 + k) + bytes.subrange(pos + 8 + k, end))
                + bytes.subrange(end, end2));
        }
    }
}

} // verus!

verus! {

/// The decoder accepts every canonical encoding and returns the encoded value.
pub proof fn lemma_dec_complete(v: ValueV, bytes: Seq<u8>, pos: int)
    requires
        0 <= pos,
        pos + spec_enc(v).len() <= bytes.len(),
        bytes.len() <= u64::MAX,
        bytes.subrange(pos, pos + spec_enc(v).len()) == spec_enc(v),
    ensures
        spec_dec(bytes, pos) == Some((v, pos + spec_enc(v).len())),
    decreases v, 0int,
{
    vstd::bytes::lemma_auto_spec_u64_to_from_le_bytes();
    broadcast use vstd::utf8::encode_utf8_valid_utf8;
    broadcast use vstd::utf8::encode_utf8_decode_utf8;

    let enc = spec_enc(v);
    let end = pos + enc.len();
    bytes.lemma_element_from_slice(enc, pos, end, pos);
    match v {
        ValueV::Null => {
            assert(enc[0] == 0u8);
        }
        ValueV::Bool(b) => {
            assert(enc[0] == 1u8);
            bytes.lemma_element_from_slice(enc, pos, end, pos + 1);
        }
        ValueV::Int(i) => {
            assert(enc[0] == 2u8);
            bytes.lemma_slice_of_slice(pos, end, 1, 9);
            assert(enc.subrange(1, 9) =~= spec_u64_to_le_bytes(i64_bits(i)));
            assert(bits_i64(i64_bits(i)) == i);
        }
        ValueV::Float(bits) => {
            assert(enc[0] == 3u8);
            bytes.lemma_slice_of_slice(pos, end, 1, 9);
            assert(enc.subrange(1, 9) =~= spec_u64_to_le_bytes(bits));
        }
        ValueV::String(s) => {
            assert(enc[0] == 4u8);
            let bs = encode_utf8(s);
            assert(bs.len() <= u64::MAX);
            bytes.lemma_slice_of_slice(pos, end, 1, 9);
            assert(enc.subrange(1, 9) =~= spec_u64_to_le_bytes(bs.len() as u64));
            let n = vstd::bytes::spec_u64_from_le_bytes(bytes.subrange(pos + 1, pos + 9)) as int;
            assert(n == bs.len());
            bytes.lemma_slice_of_slice(pos, end, 9, 9 + n);
            assert(enc.subrange(9, 9 + n) =~= bs);
        }
        ValueV::Array(items) => {
            assert(enc[0] == 5u8);
            lemma_enc_items_min_len(items, 0);
            assert(items.len() <= u64::MAX);
            bytes.lemma_slice_of_slice(pos, end, 1, 9);
            assert(enc.subrange(1, 9) =~= spec_u64_to_le_bytes(items.len() as u64));
            let n = vstd::bytes::spec_u64_from_le_bytes(bytes.subrange(pos + 1, pos + 9)) as int;
            assert(n == items.len());
            let body = spec_enc_items(items, 0);
            bytes.lemma_slice_of_slice(pos, end, 9, 9 + body.len() as int);
            assert(enc.subrange(9, 9 + body.len() as int) =~= body);
            lemma_dec_items_complete(items, 0, bytes, pos + 9);
            assert(items.skip(0) =~= items);
        }
        ValueV::Object(fields) => {
            assert(enc[0] == 6u8);
            lemma_enc_fields_min_len(fields, 0);
            assert(fields.len() <= u64::MAX);
            bytes.lemma_slice_of_slice(pos, end, 1, 9);
            assert(enc.subrange(1, 9) =~= spec_u64_to_le_bytes(fields.len() as u64));
            let n = vstd::bytes::spec_u64_from_le_bytes(bytes.subrange(pos + 1, pos + 9)) as int;
            assert(n == fields.len());
            let body = spec_enc_fields(fields, 0);
            bytes.lemma_slice_of_slice(pos, end, 9, 9 + body.len() as int);
            assert(enc.subrange(9, 9 + body.len() as int) =~= body);
            lemma_dec_fields_complete(fields, 0, bytes, pos + 9);
            assert(fields.skip(0) =~= fields);
        }
    }
}

/// Companion of [`lemma_dec_complete`] for runs of values.
pub proof fn lemma_dec_items_complete(items: Seq<ValueV>, i: int, bytes: Seq<u8>, pos: int)
    requires
        0 <= i <= items.len(),
        0 <= pos,
        pos + spec_enc_items(items, i).len() <= bytes.len(),
        bytes.len() <= u64::MAX,
        bytes.subrange(pos, pos + spec_enc_items(items, i).len()) == spec_enc_items(items, i),
    ensures
        spec_dec_items(bytes, pos, items.len() - i) == Some(
            (items.skip(i), pos + spec_enc_items(items, i).len()),
        ),
    decreases items, items.len() - i,
{
    if i == items.len() {
        assert(items.skip(i) =~= Seq::<ValueV>::empty());
    } else {
        let whole = spec_enc_items(items, i);
        let e0 = spec_enc(items[i]);
        let rest = spec_enc_items(items, i + 1);
        assert(whole == e0 + rest);
        let mid = pos + e0.len();
        let end = pos + whole.len();
        bytes.lemma_slice_of_slice(pos, end, 0, e0.len() as int);
        assert(whole.subrange(0, e0.len() as int) =~= e0);
        assert(bytes.subrange(pos, mid) == e0);
        lemma_dec_complete(items[i], bytes, pos);
        lemma_enc_min_len(items[i]);
        bytes.lemma_slice_of_slice(pos, end, e0.len() as int, whole.len() as int);
        assert(whole.subrange(e0.len() as int, whole.len() as int) =~= rest);
        assert(bytes.subrange(mid, end) == rest);
        lemma_dec_items_complete(items, i + 1, bytes, mid);
        assert(seq![items[i]] + items.skip(i + 1) =~= items.skip(i));
    }
}

/// Companion of [`lemma_dec_complete`] for runs of fields.
pub proof fn lemma_dec_fields_complete(fields: Seq<(Seq<char>, ValueV)>, i: int, bytes: Seq<u8>, pos: int)
    requires
        0 <= i <= fields.len(),
        0 <= pos,
        pos + spec_enc_fields(fields, i).len() <= bytes.len(),
        bytes.len() <= u64::MAX,
        bytes.subrange(pos, pos + spec_enc_fields(fields, i).len()) == spec_enc_fields(fields, i),
    ensures
        spec_dec_fields(bytes, pos, fields.len() - i) == Some(
            (fields.skip(i), pos + spec_enc_fields(fields, i).len()),
        ),
    decreases fields, fields.len() - i,
{
    vstd::bytes::lemma_auto_spec_u64_to_from_le_bytes();
    broadcast use vstd::utf8::encode_utf8_valid_utf8;
    broadcast use vstd::utf8::encode_utf8_decode_utf8;

    if i == fields.len() {
        assert(fields.skip(i) =~= Seq::<(Seq<char>, ValueV)>::empty());
    } else {
        let kb = encode_utf8(fields[i].0);
        let lenb = spec_u64_to_le_bytes(kb.len() as u64);
        let e0 = spec_enc(fields[i].1);
        let rest = spec_enc_fields(fields, i + 1);
        let whole = spec_enc_fields(fields, i);
        assert(whole == lenb + kb + e0 + rest);
        let end = pos + whole.len();
        assert(kb.len() <= u64::MAX);
        bytes.lemma_slice_of_slice(pos, end, 0, 8);
        assert(whole.subrange(0, 8) =~= lenb);
        assert(bytes.subrange(pos, pos + 8) == lenb);
        let k = vstd::bytes::spec_u64_from_le_bytes(bytes.subrange(pos, pos + 8)) as int;
        assert(k == kb.len());
        bytes.lemma_slice_of_slice(pos, end, 8, 8 + k);
        assert(whole.subrange(8, 8 + k) =~= kb);
        assert(bytes.subrange(pos + 8, pos + 8 + k) == kb);
        let vstart = pos + 8 + k;
        let mid = vstart + e0.len();
        bytes.lemma_slice_of_slice(pos, end, 8 + k, 8 + k + e0.len() as int);
        assert(whole.subrange(8 + k, 8 + k + e0.len() as int) =~= e0);
        assert(bytes.subrange(vstart, mid) == e0);
        lemma_dec_complete(fields[i].1, bytes, vstart);
        lemma_enc_min_len(fields[i].1);
        bytes.lemma_slice_of_slice(pos, end, 8 + k + e0.len() as int, whole.len() as int);
        assert(whole.subrange(8 + k + e0.len() as int, whole.len() as int) =~= rest);
        assert(bytes.subrange(mid, end) == rest);
        lemma_dec_fields_complete(fields, i + 1, bytes, mid);
        assert(vstd::utf8::decode_utf8(kb) == fields[i].0);
        assert(seq![(fields[i].0, fields[i].1)] + fields.skip(i + 1) =~= fields.skip(i));
        assert((fields[i].0, fields[i].1) == fields[i]);
    }
}

/// Law: decoding inverts encoding — for every value `v`,
/// `decode(encode(v))` succeeds, returns `v`, and consumes every byte.
pub proof fn lemma_decode_encode(v: ValueV)
    requires
        spec_enc(v).len() <= u64::MAX,
    ensures
        spec_dec(spec_enc(v), 0) == Some((v, spec_enc(v).len() as int)),
{
    let bytes = spec_enc(v);
    assert(bytes.subrange(0, bytes.len() as int) =~= bytes);
    lemma_dec_complete(v, bytes, 0);
}

} // verus!

verus! {

/// Decode the value whose encoding starts at `pos`; on success, also return
/// the position just after it. The result is exactly what [`spec_dec`] says.
pub fn decode_value_at(bytes: &Vec<u8>, pos: usize) -> (r: Result<(Value, usize), crate::error::MongoLiteError>)
    ensures
        match r {
            Ok(p) => spec_dec(bytes@, pos as int) == Some((p.0@, p.1 as int)),
            Err(_) => spec_dec(bytes@, pos as int) is None,
        },
    decreases bytes@.len() - pos, 0int,
{
    if pos >= bytes.len() {
        return Err(crate::error::MongoLiteError::Deserialization(String::new()));
    }
    let rem: usize = bytes.len() - pos;
    let tag = bytes[pos];
    if tag == 0 {
        Ok((Value::Null, pos + 1))
    } else if tag == 1 {
        if rem >= 2 {
            let b = bytes[pos + 1];
            if b == 1 {
                Ok((Value::Bool(true), pos + 2))
            } else if b == 0 {
                Ok((Value::Bool(false), pos + 2))
            } else {
                Err(crate::error::MongoLiteError::Deserialization(String::new()))
            }
        } else {
            Err(crate::error::MongoLiteError::Deserialization(String::new()))
        }
    } else if tag == 2 {
        if rem >= 9 {
            let u = vstd::bytes::u64_from_le_bytes(
                vstd::slice::slice_subrange(bytes.as_slice(), pos + 1, pos + 9),
            );
            Ok((Value::Int(bits_to_i64(u)), pos + 9))
        } else {
            Err(crate::error::MongoLiteError::Deserialization(String::new()))
        }
    } else if tag == 3 {
        if rem >= 9 {
            let u = vstd::bytes::u64_from_le_bytes(
                vstd::slice::slice_subrange(bytes.as_slice(), pos + 1, pos + 9),
            );
            Ok((Value::Float(u), pos + 9))
        } else {
            Err(crate::error::MongoLiteError::Deserialization(String::new()))
        }
    } else if tag == 4 {
        if rem >= 9 {
            let n = vstd::bytes::u64_from_le_bytes(
                vstd::slice::slice_subrange(bytes.as_slice(), pos + 1, pos + 9),
            );
            let avail: usize = rem - 9;
            if n <= avail as u64 {
                let nn = n as usize;
                let bs = vstd::slice::slice_to_vec(
                    vstd::slice::slice_subrange(bytes.as_slice(), pos + 9, pos + 9 + nn),
                );
                match string_from_utf8(bs) {
                    Some(s) => Ok((Value::String(s), pos + 9 + nn)),
                    None => Err(crate::error::MongoLiteError::Deserialization(String::new())),
                }
            } else {
                Err(crate::error::MongoLiteError::Deserialization(String::new()))
            }
        } else {
            Err(crate::error::MongoLiteError::Deserialization(String::new()))
        }
    } else if tag == 5 {
        if rem >= 9 {
            let n = vstd::bytes::u64_from_le_bytes(
                vstd::slice::slice_subrange(bytes.as_slice(), pos + 1, pos + 9),
            );
            match decode_items(bytes, pos + 9, n) {
                Ok(p) => Ok((Value::Array(p.0), p.1)),
                Err(e) => Err(e),
            }
        } else {
            Err(crate::error::MongoLiteError::Deserialization(String::new()))
        }
    } else if tag == 6 {
        if rem >= 9 {
            let n = vstd::bytes::u64_from_le_bytes(
                vstd::slice::slice_subrange(bytes.as_slice(), pos + 1, pos + 9),
            );
            match decode_fields(bytes, pos + 9, n) {
                Ok(p) => Ok((Value::Object(p.0), p.1)),
                Err(e) => Err(e),
            }
        } else {
            Err(crate::error::MongoLiteError::Deserialization(String::new()))
        }
    } else {
        Err(crate::error::MongoLiteError::Deserialization(String::new()))
    }
}

/// Decode `n` consecutive values starting at `pos`.
fn decode_items(bytes: &Vec<u8>, pos: usize, n: u64) -> (r: Result<(Vec<Value>, usize), crate::error::MongoLiteError>)
    requires
        pos <= bytes@.len(),
    ensures
        match r {
            Ok(p) => spec_dec_items(bytes@, pos as int, n as int)
                == Some((values_view(p.0@, p.0@.len() as int), p.1 as int))
                && p.0@.len() == n && pos <= p.1 <= bytes@.len(),
            Err(_) => spec_dec_items(bytes@, pos as int, n as int) is None,
        },
    decreases bytes@.len() - pos, n,
{
    if n == 0 {
        let empty: Vec<Value> = Vec::new();
        return Ok((empty, pos));
    }
    match decode_value_at(bytes, pos) {
        Ok((v, end)) => {
            proof {
                lemma_dec_sound(bytes@, pos as int);
            }
            match decode_items(bytes, end, n - 1) {
                Ok((mut vs, end2)) => {
                    vs.insert(0, v);
                    proof {
                        broadcast use group_value_views;
                        let tailv = values_view(vs@.drop_first(), vs@.len() - 1);
                        assert(vs@.drop_first() =~= vs@.subrange(1, vs@.len() as int));
                        assert(values_view(vs@, vs@.len() as int)
                            =~= seq![v@] + tailv) by {
                            assert(forall|k: int| 0 <= k < vs@.len() - 1
                                ==> vs@.drop_first()[k] == vs@[k + 1]);
                            assert(forall|k: int| 0 <= k < vs@.len()
                                ==> #[trigger] values_view(vs@, vs@.len() as int)[k]
                                    == value_view(vs@[k]));
                            assert(forall|k: int| 0 <= k < vs@.len() - 1
                                ==> #[trigger] tailv[k] == value_view(vs@.drop_first()[k]));
                        }
                    }
                    Ok((vs, end2))
                }
                Err(e) => Err(e),
            }
        }
        Err(e) => Err(e),
    }
}

/// Decode `n` consecutive fields starting at `pos`.
fn decode_fields(bytes: &Vec<u8>, pos: usize, n: u64) -> (r: Result<(Vec<(String, Value)>, usize), crate::error::MongoLiteError>)
    requires
        pos <= bytes@.len(),
    ensures
        match r {
            Ok(p) => spec_dec_fields(bytes@, pos as int, n as int)
                == Some((fields_view(p.0@, p.0@.len() as int), p.1 as int))
                && p.0@.len() == n && pos <= p.1 <= bytes@.len(),
            Err(_) => spec_dec_fields(bytes@, pos as int, n as int) is None,
        },
    decreases bytes@.len() - pos, n,
{
    if n == 0 {
        let empty: Vec<(String, Value)> = Vec::new();
        return Ok((empty, pos));
    }
    let rem: usize = bytes.len() - pos;
    if rem < 8 {
        return Err(crate::error::MongoLiteError::Deserialization(String::new()));
    }
    let k = vstd::bytes::u64_from_le_bytes(
        vstd::slice::slice_subrange(bytes.as_slice(), pos, pos + 8),
    );
    let avail: usize = rem - 8;
    if k > avail as u64 {
        return Err(crate::error::MongoLiteError::Deserialization(String::new()));
    }
    let kk = k as usize;
    let kb = vstd::slice::slice_to_vec(
        vstd::slice::slice_subrange(bytes.as_slice(), pos + 8, pos + 8 + kk),
    );
    let key = match string_from_utf8(kb) {
        Some(s) => s,
        None => {
            return Err(crate::error::MongoLiteError::Deserialization(String::new()));
        }
    };
    match decode_value_at(bytes, pos + 8 + kk) {
        Ok((v, end)) => {
            proof {
                lemma_dec_sound(bytes@, pos + 8 + kk);
            }
            match decode_fields(bytes, end, n - 1) {
                Ok((mut fs, end2)) => {
                    fs.insert(0, (key, v));
                    proof {
                        broadcast use group_value_views;
                        let tailv = fields_view(fs@.drop_first(), fs@.len() - 1);
                        assert(fs@.drop_first() =~= fs@.subrange(1, fs@.len() as int));
                        assert(fields_view(fs@, fs@.len() as int)
                            =~= seq![(fs@[0].0@, v@)] + tailv) by {
                            assert(forall|j: int| 0 <= j < fs@.len() - 1
                                ==> fs@.drop_first()[j] == fs@[j + 1]);
                            assert(forall|j: int| 0 <= j < fs@.len()
                                ==> #[trigger] fields_view(fs@, fs@.len() as int)[j]
                                    == (fs@[j].0@, value_view(fs@[j].1)));
                            assert(forall|j: int| 0 <= j < fs@.len() - 1
                                ==> #[trigger] tailv[j]
                                    == (fs@.drop_first()[j].0@, value_view(fs@.drop_first()[j].1)));
                        }
                    }
                    Ok((fs, end2))
                }
                Err(e) => Err(e),
            }
        }
        Err(e) => Err(e),
    }
}

/// Decode a complete buffer: the encoding of one value and nothing after it.
pub fn decode_value(bytes: &Vec<u8>) -> (r: Result<Value, crate::error::MongoLiteError>)
    ensures
        match r {
            Ok(v) => spec_dec(bytes@, 0) == Some((v@, bytes@.len() as int)),
            Err(_) => !(spec_dec(bytes@, 0) matches Some(p) && p.1 == bytes@.len()),
        },
{
    match decode_value_at(bytes, 0) {
        Ok((v, end)) => {
            if end == bytes.len() {
                Ok(v)
            } else {
                Err(crate::error::MongoLiteError::Deserialization(String::new()))
            }
        }
        Err(e) => Err(e),
    }
}

} // verus!

verus! {

/// Relies on uuid::Uuid::new_v4 and its hyphenated display form: a random
/// 128-bit token rendered as 36 characters; the value depends on the random
/// source, so only its shape is stated.
#[verifier::external_body]
fn random_token() -> (r: String)
    ensures
        r@.len() == 36,
{
    uuid::Uuid::new_v4().to_string()
}

/// Byte-for-byte equality of two byte slices.
pub fn bytes_eq(a: &[u8], b: &[u8]) -> (r: bool)
    ensures
        r == (a@ == b@),
{
    if a.len() != b.len() {
        return false;
    }
    let mut i: usize = 0;
    while i < a.len()
        invariant
            i <= a@.len(),
            a@.len() == b@.len(),
            forall|k: int| 0 <= k < i ==> a@[k] == b@[k],
        decreases a@.len() - i,
    {
        if *vstd::slice::slice_index_get(a, i) != *vstd::slice::slice_index_get(b, i) {
            return false;
        }
        i = i + 1;
    }
    proof {
        assert(a@ =~= b@);
    }
    true
}

/// Equality of two strings, by their UTF-8 bytes.
pub fn str_eq(a: &str, b: &str) -> (r: bool)
    ensures
        r == (a@ == b@),
{
    let r = bytes_eq(a.as_bytes(), b.as_bytes());
    proof {
        broadcast use vstd::utf8::encode_utf8_decode_utf8;

        if encode_utf8(a@) == encode_utf8(b@) {
            assert(vstd::utf8::decode_utf8(encode_utf8(a@)) == a@);
            assert(vstd::utf8::decode_utf8(encode_utf8(b@)) == b@);
        }
    }
    r
}

} // verus!

verus! {

/// The value of the first field named `name`, if any.
pub open spec fn obj_field(fields: Seq<(Seq<char>, ValueV)>, name: Seq<char>) -> Option<ValueV>
    decreases fields.len(),
{
    if fields.len() == 0 {
        None
    } else if fields[0].0 == name {
        Some(fields[0].1)
    } else {
        obj_field(fields.drop_first(), name)
    }
}

/// The value of field `name` of an object; anything else has no fields.
pub open spec fn value_field(v: ValueV, name: Seq<char>) -> Option<ValueV> {
    match v {
        ValueV::Object(fields) => obj_field(fields, name),
        _ => None,
    }
}

impl Value {
    /// The value of the first field named `name`, if any.
    pub fn get_field(&self, name: &str) -> (r: Option<&Value>)
        ensures
            match r {
                Some(v) => value_field(self@, name@) == Some(v@),
                None => value_field(self@, name@) is None,
            },
    {
        match self {
            Value::Object(fields) => {
                let ghost fv = crate::value::fields_view(fields@, fields@.len() as int);
                proof {
                    broadcast use group_value_views;
                }
                let mut i: usize = 0;
                while i < fields.len()
                    invariant
                        i <= fields@.len(),
                        fv == fields_view(fields@, fields@.len() as int),
                        fv.len() == fields@.len(),
                        self@ == ValueV::Object(fv),
                        forall|k: int| 0 <= k < i ==> (#[trigger] fields@[k]).0@ != name@,
                    decreases fields@.len() - i,
                {
                    if str_eq(fields[i].0.as_str(), name) {
                        proof {
                            broadcast use group_value_views;

                            lemma_obj_field_first(fv, name@, i as int);
                        }
                        return Some(&fields[i].1);
                    }
                    i = i + 1;
                }
                proof {
                    broadcast use group_value_views;

                    lemma_obj_field_absent(fv, name@);
                }
                None
            }
            _ => None,
        }
    }
}

/// Field lookup answers at the first field carrying the name.
pub proof fn lemma_obj_field_first(fields: Seq<(Seq<char>, ValueV)>, name: Seq<char>, i: int)
    requires
        0 <= i < fields.len(),
        fields[i].0 == name,
        forall|k: int| 0 <= k < i ==> (#[trigger] fields[k]).0 != name,
    ensures
        obj_field(fields, name) == Some(fields[i].1),
    decreases i,
{
    if i > 0 {
        assert(forall|k: int| 0 <= k < fields.drop_first().len()
            ==> #[trigger] fields.drop_first()[k] == fields[k + 1]);
        lemma_obj_field_first(fields.drop_first(), name, i - 1);
    }
}

/// A name no field carries is not found.
pub proof fn lemma_obj_field_absent(fields: Seq<(Seq<char>, ValueV)>, name: Seq<char>)
    requires
        forall|k: int| 0 <= k < fields.len() ==> (#[trigger] fields[k]).0 != name,
    ensures
        obj_field(fields, name) is None,
    decreases fields.len(),
{
    if fields.len() > 0 {
        assert(forall|k: int| 0 <= k < fields.drop_first().len()
            ==> #[trigger] fields.drop_first()[k] == fields[k + 1]);
        lemma_obj_field_absent(fields.drop_first(), name);
    }
}

} // verus!

verus! {

/// First-match lookup among document fields.
pub open spec fn fields_lookup(fields: Seq<(String, Value)>, name: Seq<char>) -> Option<ValueV>
    decreases fields.len(),
{
    if fields.len() == 0 {
        None
    } else if fields[0].0@ == name {
        Some(fields[0].1@)
    } else {
        fields_lookup(fields.drop_first(), name)
    }
}

/// A document: its id, carried apart, and its named fields.
#[derive(Debug)]
pub struct Document {
    pub id: DocumentId,
    pub fields: Vec<(String, Value)>,
}

impl Document {
    /// A document from its parts.
    pub fn new(id: DocumentId, fields: Vec<(String, Value)>) -> (r: Document)
        ensures
            r.id == id,
            r.fields == fields,
    {
        Document { id, fields }
    }

    /// Position of the first field named `name`.
    fn position_of(&self, name: &str) -> (r: Option<usize>)
        ensures
            match r {
                Some(i) => i < self.fields@.len() && self.fields@[i as int].0@ == name@
                    && forall|k: int| 0 <= k < i ==> (#[trigger] self.fields@[k]).0@ != name@,
                None => forall|i: int| 0 <= i < self.fields@.len()
                    ==> (#[trigger] self.fields@[i]).0@ != name@,
            },
    {
        let mut i: usize = 0;
        while i < self.fields.len()
            invariant
                i <= self.fields@.len(),
                forall|k: int| 0 <= k < i ==> (#[trigger] self.fields@[k]).0@ != name@,
            decreases self.fields@.len() - i,
        {
            if str_eq(self.fields[i].0.as_str(), name) {
                return Some(i);
            }
            i = i + 1;
        }
        None
    }

    /// The field's value; `_id` is carried apart and never found by name.
    pub fn get(&self, field: &str) -> (r: Option<&Value>)
        ensures
            match r {
                Some(v) => field@ != "_id"@ && fields_lookup(self.fields@, field@) == Some(v@),
                None => field@ == "_id"@ || fields_lookup(self.fields@, field@) is None,
            },
    {
        if str_eq(field, "_id") {
            return None;
        }
        match self.position_of(field) {
            Some(i) => {
                proof {
                    lemma_fields_lookup_first(self.fields@, field@, i as int);
                }
                Some(&self.fields[i].1)
            }
            None => {
                proof {
                    lemma_fields_lookup_absent(self.fields@, field@);
                }
                None
            }
        }
    }

    /// Set the field: replace the first field of that name, or add one.
    pub fn set(&mut self, field: String, value: Value)
        ensures
            fields_lookup(final(self).fields@, field@) == Some(value@),
            final(self).id == old(self).id,
            forall|other: Seq<char>| other != field@
                ==> #[trigger] fields_lookup(final(self).fields@, other) == fields_lookup(
                old(self).fields@,
                other,
            ),
    {
        let ghost oldf = self.fields@;
        match self.position_of(field.as_str()) {
            Some(i) => {
                self.fields.remove(i);
                self.fields.insert(i, (field, value));
                proof {
                    assert(self.fields@ =~= oldf.update(i as int, self.fields@[i as int]));
                    lemma_fields_lookup_first(self.fields@, self.fields@[i as int].0@, i as int);
                    lemma_fields_update_frame(oldf, self.fields@, i as int);
                }
            }
            None => {
                self.fields.push((field, value));
                proof {
                    lemma_fields_lookup_first(self.fields@, field@, oldf.len() as int);
                    lemma_fields_append_frame(oldf, self.fields@);
                }
            }
        }
    }

    /// Remove the first field of that name; returns its value.
    pub fn remove(&mut self, field: &str) -> (r: Option<Value>)
        ensures
            final(self).id == old(self).id,
            fields_lookup(final(self).fields@, field@) is None || exists|k: int|
                0 <= k < old(self).fields@.len() && (#[trigger] old(self).fields@[k]).0@
                    == field@,
            match r {
                Some(v) => fields_lookup(old(self).fields@, field@) == Some(v@),
                None => fields_lookup(old(self).fields@, field@) is None && final(self).fields@
                    == old(self).fields@,
            },
            forall|other: Seq<char>| other != field@
                ==> #[trigger] fields_lookup(final(self).fields@, other) == fields_lookup(
                old(self).fields@,
                other,
            ),
    {
        let ghost oldf = self.fields@;
        match self.position_of(field) {
            Some(i) => {
                proof {
                    lemma_fields_lookup_first(oldf, field@, i as int);
                }
                let pair = self.fields.remove(i);
                proof {
                    lemma_fields_remove_frame(oldf, self.fields@, i as int);
                }
                Some(pair.1)
            }
            None => {
                proof {
                    lemma_fields_lookup_absent(oldf, field@);
                }
                None
            }
        }
    }

    /// Whether the document carries the field.
    pub fn contains(&self, field: &str) -> (r: bool)
        ensures
            r == (fields_lookup(self.fields@, field@) is Some),
    {
        proof {
            lemma_fields_lookup_absent_iff(self.fields@, field@);
        }
        match self.position_of(field) {
            Some(i) => {
                proof {
                    lemma_fields_lookup_first(self.fields@, field@, i as int);
                }
                true
            }
            None => {
                proof {
                    lemma_fields_lookup_absent(self.fields@, field@);
                }
                false
            }
        }
    }
}

/// Lookup answers at the first field carrying the name.
pub proof fn lemma_fields_lookup_first(fields: Seq<(String, Value)>, name: Seq<char>, i: int)
    requires
        0 <= i < fields.len(),
        fields[i].0@ == name,
        forall|k: int| 0 <= k < i ==> (#[trigger] fields[k]).0@ != name,
    ensures
        fields_lookup(fields, name) == Some(fields[i].1@),
    decreases i,
{
    if i > 0 {
        assert(forall|k: int| 0 <= k < fields.drop_first().len()
            ==> #[trigger] fields.drop_first()[k] == fields[k + 1]);
        lemma_fields_lookup_first(fields.drop_first(), name, i - 1);
    }
}

/// A name no field carries is not found.
pub proof fn lemma_fields_lookup_absent(fields: Seq<(String, Value)>, name: Seq<char>)
    requires
        forall|k: int| 0 <= k < fields.len() ==> (#[trigger] fields[k]).0@ != name,
    ensures
        fields_lookup(fields, name) is None,
    decreases fields.len(),
{
    if fields.len() > 0 {
        assert(forall|k: int| 0 <= k < fields.drop_first().len()
            ==> #[trigger] fields.drop_first()[k] == fields[k + 1]);
        lemma_fields_lookup_absent(fields.drop_first(), name);
    }
}

/// A found name is carried by some field.
proof fn lemma_fields_lookup_absent_iff(fields: Seq<(String, Value)>, name: Seq<char>)
    ensures
        (fields_lookup(fields, name) is Some) == exists|k: int|
            0 <= k < fields.len() && (#[trigger] fields[k]).0@ == name,
    decreases fields.len(),
{
    if fields.len() > 0 {
        assert(forall|k: int| 0 <= k < fields.drop_first().len()
            ==> #[trigger] fields.drop_first()[k] == fields[k + 1]);
        lemma_fields_lookup_absent_iff(fields.drop_first(), name);
        if fields[0].0@ == name {
        } else if exists|k: int| 0 <= k < fields.drop_first().len()
            && (#[trigger] fields.drop_first()[k]).0@ == name {
            let k = choose|k: int|
                0 <= k < fields.drop_first().len() && (#[trigger] fields.drop_first()[k]).0@
                    == name;
            assert(fields[k + 1].0@ == name);
        } else {
            if exists|k: int| 0 <= k < fields.len() && (#[trigger] fields[k]).0@ == name {
                let k = choose|k: int|
                    0 <= k < fields.len() && (#[trigger] fields[k]).0@ == name;
                assert(k > 0);
                assert(fields.drop_first()[k - 1].0@ == name);
            }
        }
    }
}

/// Replacing the field at `i` changes no other lookup.
proof fn lemma_fields_update_frame(
    oldf: Seq<(String, Value)>,
    newf: Seq<(String, Value)>,
    i: int,
)
    requires
        0 <= i < oldf.len(),
        newf.len() == oldf.len(),
        forall|j: int| 0 <= j < oldf.len() && j != i ==> #[trigger] newf[j] == oldf[j],
    ensures
        forall|other: Seq<char>|
            other != oldf[i].0@ && other != newf[i].0@ ==> #[trigger] fields_lookup(newf, other)
                == fields_lookup(oldf, other),
    decreases oldf.len(),
{
    assert forall|other: Seq<char>|
        other != oldf[i].0@ && other != newf[i].0@ implies #[trigger] fields_lookup(newf, other)
        == fields_lookup(oldf, other) by {
        if i == 0 {
            assert(newf.drop_first() =~= oldf.drop_first());
        } else {
            assert(newf[0] == oldf[0]);
            assert(forall|j: int| 0 <= j < oldf.drop_first().len() && j != i - 1
                ==> #[trigger] newf.drop_first()[j] == oldf.drop_first()[j]);
            assert(oldf.drop_first()[i - 1] == oldf[i]);
            assert(newf.drop_first()[i - 1] == newf[i]);
            lemma_fields_update_frame(oldf.drop_first(), newf.drop_first(), i - 1);
            assert(fields_lookup(newf.drop_first(), other) == fields_lookup(
                oldf.drop_first(),
                other,
            ));
        }
    }
}

/// Appending a field changes no other lookup.
proof fn lemma_fields_append_frame(oldf: Seq<(String, Value)>, newf: Seq<(String, Value)>)
    requires
        newf.len() == oldf.len() + 1,
        forall|j: int| 0 <= j < oldf.len() ==> #[trigger] newf[j] == oldf[j],
    ensures
        forall|other: Seq<char>| other != newf.last().0@ ==> #[trigger] fields_lookup(
            newf,
            other,
        ) == fields_lookup(oldf, other),
    decreases oldf.len(),
{
    assert forall|other: Seq<char>| other != newf.last().0@ implies #[trigger] fields_lookup(
        newf,
        other,
    ) == fields_lookup(oldf, other) by {
        if oldf.len() == 0 {
            assert(newf.drop_first() =~= Seq::<(String, Value)>::empty());
        } else {
            assert(newf[0] == oldf[0]);
            assert(forall|j: int| 0 <= j < oldf.drop_first().len()
                ==> #[trigger] newf.drop_first()[j] == oldf.drop_first()[j]);
            assert(newf.drop_first().last() == newf.last());
            lemma_fields_append_frame(oldf.drop_first(), newf.drop_first());
            assert(fields_lookup(newf.drop_first(), other) == fields_lookup(
                oldf.drop_first(),
                other,
            ));
        }
    }
}

/// Removing the field at `i` changes no lookup for a name it does not carry.
proof fn lemma_fields_remove_frame(
    oldf: Seq<(String, Value)>,
    newf: Seq<(String, Value)>,
    i: int,
)
    requires
        0 <= i < oldf.len(),
        newf.len() == oldf.len() - 1,
        forall|j: int| 0 <= j < i ==> #[trigger] newf[j] == oldf[j],
        forall|j: int| i <= j < newf.len() ==> #[trigger] newf[j] == oldf[j + 1],
    ensures
        forall|other: Seq<char>| other != oldf[i].0@ ==> #[trigger] fields_lookup(newf, other)
            == fields_lookup(oldf, other),
    decreases oldf.len(),
{
    assert forall|other: Seq<char>| other != oldf[i].0@ implies #[trigger] fields_lookup(
        newf,
        other,
    ) == fields_lookup(oldf, other) by {
        if i == 0 {
            assert(newf =~= oldf.drop_first());
        } else {
            assert(newf[0] == oldf[0]);
            assert(forall|j: int| 0 <= j < i - 1 ==> #[trigger] newf.drop_first()[j]
                == oldf.drop_first()[j]);
            assert(forall|j: int| i - 1 <= j < newf.drop_first().len()
                ==> #[trigger] newf.drop_first()[j] == oldf.drop_first()[j + 1]);
            assert(oldf.drop_first()[i - 1] == oldf[i]);
            lemma_fields_remove_frame(oldf.drop_first(), newf.drop_first(), i - 1);
            assert(fields_lookup(newf.drop_first(), other) == fields_lookup(
                oldf.drop_first(),
                other,
            ));
        }
    }
}

} // verus!
