//! Index keys and their total order.
//!
//! Keys are ordered by kind — null, then booleans, integers, floats, strings —
//! and within a kind by the natural order. Floats are carried as IEEE-754 bit
//! patterns and ordered by the value those bits name, with every NaN equal to
//! every other NaN and greater than all non-NaN values; minus zero and plus
//! zero are equal. Strings are ordered lexicographically by their UTF-8 bytes,
//! which is the code-point order.

use vstd::prelude::*;
use vstd::utf8::encode_utf8;

use crate::value::{Value, ValueV};

verus! {

broadcast use vstd::std_specs::vec::group_vec_axioms;

/// A key stored in an index: one canonical, totally ordered scalar.
#[derive(Debug)]
pub enum IndexKey {
    Null,
    Bool(bool),
    Int(i64),
    /// IEEE-754 double, carried as its bit pattern.
    Float(u64),
    String(String),
}

/// Mathematical model of an `IndexKey`.
#[verifier::ext_equal]
pub enum IndexKeyV {
    Null,
    Bool(bool),
    Int(i64),
    Float(u64),
    String(Seq<char>),
}

impl View for IndexKey {
    type V = IndexKeyV;

    open spec fn view(&self) -> IndexKeyV {
        match self {
            IndexKey::Null => IndexKeyV::Null,
            IndexKey::Bool(b) => IndexKeyV::Bool(*b),
            IndexKey::Int(i) => IndexKeyV::Int(*i),
            IndexKey::Float(bits) => IndexKeyV::Float(*bits),
            IndexKey::String(s) => IndexKeyV::String(s@),
        }
    }
}

impl Clone for IndexKey {
    fn clone(&self) -> (r: Self)
        ensures
            r@ == self@,
    {
        match self {
            IndexKey::Null => IndexKey::Null,
            IndexKey::Bool(b) => IndexKey::Bool(*b),
            IndexKey::Int(i) => IndexKey::Int(*i),
            IndexKey::Float(bits) => IndexKey::Float(*bits),
            IndexKey::String(s) => IndexKey::String(s.clone()),
        }
    }
}

// ---------------------------------------------------------------------------
// The order
// ---------------------------------------------------------------------------

/// Lexicographic comparison of byte sequences from position `i` on:
/// negative, zero or positive as `a[i..]` is below, equal to or above `b[i..]`.
pub open spec fn bytes_cmp_from(a: Seq<u8>, b: Seq<u8>, i: int) -> int
    decreases a.len() - i,
{
    if i < 0 {
        0
    } else if i >= a.len() && i >= b.len() {
        0
    } else if i >= a.len() {
        -1
    } else if i >= b.len() {
        1
    } else if a[i] < b[i] {
        -1
    } else if a[i] > b[i] {
        1
    } else {
        bytes_cmp_from(a, b, i + 1)
    }
}

/// Lexicographic comparison of byte sequences.
pub open spec fn bytes_cmp(a: Seq<u8>, b: Seq<u8>) -> int {
    bytes_cmp_from(a, b, 0)
}

/// The bit pattern names a NaN.
pub open spec fn f64_is_nan(bits: u64) -> bool {
    (bits >> 52) & 0x7ff == 0x7ff && bits & 0xf_ffff_ffff_ffff != 0
}

/// The bit pattern with the sign bit cleared.
pub open spec fn f64_mag(bits: u64) -> u64 {
    bits & 0x7fff_ffff_ffff_ffff
}

/// The sign bit is set.
pub open spec fn f64_neg(bits: u64) -> bool {
    bits >= 0x8000_0000_0000_0000
}

/// Comparison of two doubles by their bit patterns. For finite and infinite
/// values this is the IEEE value order (with -0 equal to +0), because for
/// non-negative doubles the bit patterns order as the values do, and for
/// negative doubles they order in reverse. NaNs are equal to each other and
/// above everything else.
pub open spec fn float_cmp(a: u64, b: u64) -> int {
    if f64_is_nan(a) && f64_is_nan(b) {
        0
    } else if f64_is_nan(a) {
        1
    } else if f64_is_nan(b) {
        -1
    } else if f64_mag(a) == 0 && f64_mag(b) == 0 {
        0
    } else if f64_neg(a) && !f64_neg(b) {
        -1
    } else if !f64_neg(a) && f64_neg(b) {
        1
    } else if !f64_neg(a) {
        if a < b {
            -1
        } else if a == b {
            0
        } else {
            1
        }
    } else {
        if a > b {
            -1
        } else if a == b {
            0
        } else {
            1
        }
    }
}

/// Rank of a key's kind in the cross-kind order.
pub open spec fn key_rank(k: IndexKeyV) -> int {
    match k {
        IndexKeyV::Null => 0,
        IndexKeyV::Bool(_) => 1,
        IndexKeyV::Int(_) => 2,
        IndexKeyV::Float(_) => 3,
        IndexKeyV::String(_) => 4,
    }
}

/// The total order on keys: negative, zero or positive as `a` is below,
/// equivalent to or above `b`.
pub open spec fn key_cmp(a: IndexKeyV, b: IndexKeyV) -> int {
    if key_rank(a) != key_rank(b) {
        if key_rank(a) < key_rank(b) {
            -1
        } else {
            1
        }
    } else {
        match (a, b) {
            (IndexKeyV::Bool(x), IndexKeyV::Bool(y)) => if x == y {
                0
            } else if !x {
                -1
            } else {
                1
            },
            (IndexKeyV::Int(x), IndexKeyV::Int(y)) => if x < y {
                -1
            } else if x == y {
                0
            } else {
                1
            },
            (IndexKeyV::Float(x), IndexKeyV::Float(y)) => float_cmp(x, y),
            (IndexKeyV::String(x), IndexKeyV::String(y)) => bytes_cmp(
                encode_utf8(x),
                encode_utf8(y),
            ),
            _ => 0,
        }
    }
}

/// `a` is below or equivalent to `b`.
pub open spec fn key_le(a: IndexKeyV, b: IndexKeyV) -> bool {
    key_cmp(a, b) <= 0
}

/// `a` is strictly below `b`.
pub open spec fn key_lt(a: IndexKeyV, b: IndexKeyV) -> bool {
    key_cmp(a, b) < 0
}

// ---------------------------------------------------------------------------
// Laws of the order
// ---------------------------------------------------------------------------

proof fn lemma_bytes_cmp_refl(a: Seq<u8>, i: int)
    ensures
        bytes_cmp_from(a, a, i) == 0,
    decreases a.len() - i,
{
    if 0 <= i < a.len() {
        lemma_bytes_cmp_refl(a, i + 1);
    }
}

pub(crate) proof fn lemma_bytes_cmp_antisym(a: Seq<u8>, b: Seq<u8>, i: int)
    ensures
        bytes_cmp_from(a, b, i) == -bytes_cmp_from(b, a, i),
    decreases a.len() - i,
{
    if 0 <= i < a.len() && i < b.len() && a[i] == b[i] {
        lemma_bytes_cmp_antisym(a, b, i + 1);
    }
}

proof fn lemma_bytes_cmp_zero(a: Seq<u8>, b: Seq<u8>, i: int)
    requires
        0 <= i <= a.len(),
        0 <= i <= b.len(),
        bytes_cmp_from(a, b, i) == 0,
        a.subrange(0, i) == b.subrange(0, i),
    ensures
        a == b,
    decreases a.len() - i,
{
    if i >= a.len() && i >= b.len() {
        assert(a =~= a.subrange(0, i));
        assert(b =~= b.subrange(0, i));
    } else {
        assert(a.subrange(0, i + 1) =~= a.subrange(0, i).push(a[i]));
        assert(b.subrange(0, i + 1) =~= b.subrange(0, i).push(b[i]));
        lemma_bytes_cmp_zero(a, b, i + 1);
    }
}

pub(crate) proof fn lemma_bytes_cmp_trans(a: Seq<u8>, b: Seq<u8>, c: Seq<u8>, i: int)
    requires
        bytes_cmp_from(a, b, i) <= 0,
        bytes_cmp_from(b, c, i) <= 0,
    ensures
        bytes_cmp_from(a, c, i) <= 0,
        bytes_cmp_from(a, b, i) == 0 && bytes_cmp_from(b, c, i) == 0 ==> bytes_cmp_from(a, c, i)
            == 0,
        bytes_cmp_from(a, b, i) < 0 || bytes_cmp_from(b, c, i) < 0 ==> bytes_cmp_from(a, c, i) < 0,
    decreases a.len() - i,
{
    if i >= 0 && (i < a.len() || i < b.len() || i < c.len()) {
        if i < a.len() && i < b.len() && i < c.len() && a[i] == b[i] && b[i] == c[i] {
            lemma_bytes_cmp_trans(a, b, c, i + 1);
        }
    }
}

/// Every key is equivalent to itself.
pub proof fn lemma_key_cmp_refl(a: IndexKeyV)
    ensures
        key_cmp(a, a) == 0,
{
    if a is String {
        lemma_bytes_cmp_refl(encode_utf8(a->String_0), 0);
    }
}

/// Comparison is antisymmetric: swapping the sides flips the sign.
pub proof fn lemma_key_cmp_antisym(a: IndexKeyV, b: IndexKeyV)
    ensures
        key_cmp(a, b) == -key_cmp(b, a),
{
    if a is String && b is String {
        lemma_bytes_cmp_antisym(encode_utf8(a->String_0), encode_utf8(b->String_0), 0);
    }
}

/// A double with zero magnitude is one of the two signed zeros, and no
/// signed zero is a NaN.
proof fn lemma_f64_mag_zero(x: u64)
    ensures
        (f64_mag(x) == 0) == (x == 0 || x == 0x8000_0000_0000_0000),
        f64_mag(x) == 0 ==> !f64_is_nan(x),
{
    assert((x & 0x7fff_ffff_ffff_ffff == 0) == (x == 0 || x == 0x8000_0000_0000_0000))
        by (bit_vector);
    assert((x == 0 || x == 0x8000_0000_0000_0000) ==> !((x >> 52) & 0x7ff == 0x7ff
        && x & 0xf_ffff_ffff_ffff != 0)) by (bit_vector);
}

proof fn lemma_float_cmp_trans(a: u64, b: u64, c: u64)
    requires
        float_cmp(a, b) <= 0,
        float_cmp(b, c) <= 0,
    ensures
        float_cmp(a, c) <= 0,
        float_cmp(a, b) == 0 && float_cmp(b, c) == 0 ==> float_cmp(a, c) == 0,
        float_cmp(a, b) < 0 || float_cmp(b, c) < 0 ==> float_cmp(a, c) < 0,
{
    lemma_f64_mag_zero(a);
    lemma_f64_mag_zero(b);
    lemma_f64_mag_zero(c);
}

/// Comparison is transitive, strictly so when either step is strict.
pub proof fn lemma_key_cmp_trans(a: IndexKeyV, b: IndexKeyV, c: IndexKeyV)
    requires
        key_cmp(a, b) <= 0,
        key_cmp(b, c) <= 0,
    ensures
        key_cmp(a, c) <= 0,
        key_cmp(a, b) == 0 && key_cmp(b, c) == 0 ==> key_cmp(a, c) == 0,
        key_cmp(a, b) < 0 || key_cmp(b, c) < 0 ==> key_cmp(a, c) < 0,
{
    if a is String && b is String && c is String {
        lemma_bytes_cmp_trans(
            encode_utf8(a->String_0),
            encode_utf8(b->String_0),
            encode_utf8(c->String_0),
            0,
        );
    }
    if a is Float && b is Float && c is Float {
        lemma_float_cmp_trans(a->Float_0, b->Float_0, c->Float_0);
    }
}

/// Equivalent string keys are equal.
pub proof fn lemma_key_cmp_string_eq(a: IndexKeyV, b: IndexKeyV)
    requires
        a is String,
        b is String,
        key_cmp(a, b) == 0,
    ensures
        a == b,
{
    let x = encode_utf8(a->String_0);
    let y = encode_utf8(b->String_0);
    assert(x.subrange(0, 0) =~= y.subrange(0, 0));
    lemma_bytes_cmp_zero(x, y, 0);
    broadcast use vstd::utf8::encode_utf8_decode_utf8;

    assert(vstd::utf8::decode_utf8(x) == a->String_0);
}

// ---------------------------------------------------------------------------
// Executable comparison
// ---------------------------------------------------------------------------

/// Lexicographic comparison of byte slices.
pub(crate) fn cmp_bytes(a: &[u8], b: &[u8]) -> (r: i8)
    ensures
        r as int == bytes_cmp(a@, b@),
        -1 <= r <= 1,
{
    let mut i: usize = 0;
    loop
        invariant
            i <= a@.len() || i <= b@.len(),
            bytes_cmp(a@, b@) == bytes_cmp_from(a@, b@, i as int),
        decreases a@.len() + b@.len() - i,
    {
        if i >= a.len() && i >= b.len() {
            return 0;
        }
        if i >= a.len() {
            return -1;
        }
        if i >= b.len() {
            return 1;
        }
        let x = *vstd::slice::slice_index_get(a, i);
        let y = *vstd::slice::slice_index_get(b, i);
        if x < y {
            return -1;
        }
        if x > y {
            return 1;
        }
        i = i + 1;
    }
}

impl IndexKey {
    /// Compare two keys in the total order: negative, zero or positive as
    /// `self` is below, equivalent to or above `other`.
    pub fn cmp_key(&self, other: &IndexKey) -> (r: i8)
        ensures
            r as int == key_cmp(self@, other@),
            -1 <= r <= 1,
    {
        match (self, other) {
            (IndexKey::Null, IndexKey::Null) => 0,
            (IndexKey::Null, _) => -1,
            (_, IndexKey::Null) => 1,
            (IndexKey::Bool(x), IndexKey::Bool(y)) => {
                if *x == *y {
                    0
                } else if !*x {
                    -1
                } else {
                    1
                }
            }
            (IndexKey::Bool(_), _) => -1,
            (_, IndexKey::Bool(_)) => 1,
            (IndexKey::Int(x), IndexKey::Int(y)) => {
                if *x < *y {
                    -1
                } else if *x == *y {
                    0
                } else {
                    1
                }
            }
            (IndexKey::Int(_), _) => -1,
            (_, IndexKey::Int(_)) => 1,
            (IndexKey::Float(x), IndexKey::Float(y)) => {
                let a = *x;
                let b = *y;
                let a_nan = (a >> 52) & 0x7ff == 0x7ff && a & 0xf_ffff_ffff_ffff != 0;
                let b_nan = (b >> 52) & 0x7ff == 0x7ff && b & 0xf_ffff_ffff_ffff != 0;
                if a_nan && b_nan {
                    0
                } else if a_nan {
                    1
                } else if b_nan {
                    -1
                } else if a & 0x7fff_ffff_ffff_ffff == 0 && b & 0x7fff_ffff_ffff_ffff == 0 {
                    0
                } else if a >= 0x8000_0000_0000_0000 && b < 0x8000_0000_0000_0000 {
                    -1
                } else if a < 0x8000_0000_0000_0000 && b >= 0x8000_0000_0000_0000 {
                    1
                } else if a < 0x8000_0000_0000_0000 {
                    if a < b {
                        -1
                    } else if a == b {
                        0
                    } else {
                        1
                    }
                } else {
                    if a > b {
                        -1
                    } else if a == b {
                        0
                    } else {
                        1
                    }
                }
            }
            (IndexKey::Float(_), _) => -1,
            (_, IndexKey::Float(_)) => 1,
            (IndexKey::String(x), IndexKey::String(y)) => {
                cmp_bytes(x.as_str().as_bytes(), y.as_str().as_bytes())
            }
        }
    }

    /// Key equivalence in the total order.
    pub fn eq_key(&self, other: &IndexKey) -> (r: bool)
        ensures
            r == (key_cmp(self@, other@) == 0),
    {
        self.cmp_key(other) == 0
    }

    /// `self` is strictly below `other`.
    pub fn lt_key(&self, other: &IndexKey) -> (r: bool)
        ensures
            r == key_lt(self@, other@),
    {
        self.cmp_key(other) < 0
    }

    /// `self` is below or equivalent to `other`.
    pub fn le_key(&self, other: &IndexKey) -> (r: bool)
        ensures
            r == key_le(self@, other@),
    {
        self.cmp_key(other) <= 0
    }
}

// ---------------------------------------------------------------------------
// Keys from document values
// ---------------------------------------------------------------------------

/// The key a document field value indexes under. Arrays and objects collapse
/// to the null key; indexes over such fields are not usable for equality.
pub open spec fn key_of_value(v: ValueV) -> IndexKeyV {
    match v {
        ValueV::Null => IndexKeyV::Null,
        ValueV::Bool(b) => IndexKeyV::Bool(b),
        ValueV::Int(i) => IndexKeyV::Int(i),
        ValueV::Float(bits) => IndexKeyV::Float(bits),
        ValueV::String(s) => IndexKeyV::String(s),
        ValueV::Array(_) => IndexKeyV::Null,
        ValueV::Object(_) => IndexKeyV::Null,
    }
}

impl IndexKey {
    /// Derive the index key for a document field value.
    pub fn from_value(v: &Value) -> (r: IndexKey)
        ensures
            r@ == key_of_value(v@),
    {
        match v {
            Value::Null => IndexKey::Null,
            Value::Bool(b) => IndexKey::Bool(*b),
            Value::Int(i) => IndexKey::Int(*i),
            Value::Float(bits) => IndexKey::Float(*bits),
            Value::String(s) => IndexKey::String(s.clone()),
            Value::Array(_) => IndexKey::Null,
            Value::Object(_) => IndexKey::Null,
        }
    }
}

impl PartialEq for IndexKey {
    fn eq(&self, other: &Self) -> (r: bool) {
        self.eq_key(other)
    }
}

impl vstd::std_specs::cmp::PartialEqSpecImpl for IndexKey {
    open spec fn obeys_eq_spec() -> bool {
        true
    }

    open spec fn eq_spec(&self, other: &IndexKey) -> bool {
        key_cmp(self@, other@) == 0
    }
}

impl PartialOrd for IndexKey {
    fn partial_cmp(&self, other: &Self) -> (r: Option<core::cmp::Ordering>) {
        let c = self.cmp_key(other);
        if c < 0 {
            Some(core::cmp::Ordering::Less)
        } else if c == 0 {
            Some(core::cmp::Ordering::Equal)
        } else {
            Some(core::cmp::Ordering::Greater)
        }
    }
}

impl vstd::std_specs::cmp::PartialOrdSpecImpl for IndexKey {
    open spec fn obeys_partial_cmp_spec() -> bool {
        true
    }

    open spec fn partial_cmp_spec(&self, other: &IndexKey) -> Option<core::cmp::Ordering> {
        if key_cmp(self@, other@) < 0 {
            Some(core::cmp::Ordering::Less)
        } else if key_cmp(self@, other@) == 0 {
            Some(core::cmp::Ordering::Equal)
        } else {
            Some(core::cmp::Ordering::Greater)
        }
    }
}

} // verus!
