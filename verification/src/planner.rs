//! The query planner: pick an index plan for a predicate, or fall back to
//! a collection scan; explain the choice.

use vstd::prelude::*;
use vstd::utf8::encode_utf8;

use crate::key::{key_of_value, IndexKey};
use crate::value::{Value, ValueV};

verus! {

broadcast use vstd::std_specs::vec::group_vec_axioms;

/// How a query will run.
#[derive(Debug)]
pub enum QueryPlan {
    /// Walk every document.
    CollectionScan,
    /// Point lookup in one index.
    IndexScan { index_name: String, field: String, key: IndexKey },
    /// Range scan in one index; a missing bound is open-ended.
    IndexRangeScan {
        index_name: String,
        field: String,
        start: Option<IndexKey>,
        end: Option<IndexKey>,
        inclusive_start: bool,
        inclusive_end: bool,
    },
}

/// `b` is a suffix of `a`.
pub open spec fn suffix_of(a: Seq<u8>, b: Seq<u8>) -> bool {
    b.len() <= a.len() && a.subrange(a.len() - b.len(), a.len() as int) == b
}

/// The index name serves field `field`: its UTF-8 form ends in an
/// underscore followed by the field name.
pub open spec fn serves_field(index: Seq<char>, field: Seq<char>) -> bool {
    suffix_of(encode_utf8(index), seq![0x5fu8] + encode_utf8(field))
}

/// The field name starts with the reserved operator marker.
pub open spec fn is_operator_name(name: Seq<char>) -> bool {
    name.len() > 0 && name[0] == '$'
}

/// The operator object carries at least one range operator.
pub open spec fn has_range_op(cv: Seq<(Seq<char>, ValueV)>) -> bool {
    ||| crate::value::obj_field(cv, "$gt"@) is Some
    ||| crate::value::obj_field(cv, "$gte"@) is Some
    ||| crate::value::obj_field(cv, "$lt"@) is Some
    ||| crate::value::obj_field(cv, "$lte"@) is Some
}

/// The lower bound a range plan takes from the operator object: `$gte`
/// first, else `$gt`, else open-ended.
pub open spec fn range_start(cv: Seq<(Seq<char>, ValueV)>) -> Option<crate::key::IndexKeyV> {
    if crate::value::obj_field(cv, "$gte"@) is Some {
        Some(crate::key::key_of_value(crate::value::obj_field(cv, "$gte"@)->Some_0))
    } else if crate::value::obj_field(cv, "$gt"@) is Some {
        Some(crate::key::key_of_value(crate::value::obj_field(cv, "$gt"@)->Some_0))
    } else {
        None
    }
}

/// The upper bound a range plan takes: `$lte` first, else `$lt`, else
/// open-ended.
pub open spec fn range_end(cv: Seq<(Seq<char>, ValueV)>) -> Option<crate::key::IndexKeyV> {
    if crate::value::obj_field(cv, "$lte"@) is Some {
        Some(crate::key::key_of_value(crate::value::obj_field(cv, "$lte"@)->Some_0))
    } else if crate::value::obj_field(cv, "$lt"@) is Some {
        Some(crate::key::key_of_value(crate::value::obj_field(cv, "$lt"@)->Some_0))
    } else {
        None
    }
}

/// The lower bound is inclusive: a `$gte` bound, or no lower bound at all.
pub open spec fn range_inclusive_start(cv: Seq<(Seq<char>, ValueV)>) -> bool {
    crate::value::obj_field(cv, "$gte"@) is Some || (crate::value::obj_field(cv, "$gt"@) is None
        && crate::value::obj_field(cv, "$gte"@) is None)
}

/// The upper bound is inclusive: an `$lte` bound, or no upper bound at all.
pub open spec fn range_inclusive_end(cv: Seq<(Seq<char>, ValueV)>) -> bool {
    crate::value::obj_field(cv, "$lte"@) is Some || (crate::value::obj_field(cv, "$lt"@) is None
        && crate::value::obj_field(cv, "$lte"@) is None)
}

/// The plan a range analysis builds for field value `cv` agrees with the
/// operator object: bounds from `$gte`/`$gt` and `$lte`/`$lt`, inclusivity
/// exactly for `$gte`/`$lte` or an absent bound.
pub open spec fn range_plan_matches(
    cv: Seq<(Seq<char>, ValueV)>,
    start: Option<crate::key::IndexKey>,
    end: Option<crate::key::IndexKey>,
    inclusive_start: bool,
    inclusive_end: bool,
) -> bool {
    &&& has_range_op(cv)
    &&& (match start {
        Some(k) => range_start(cv) == Some(k@),
        None => range_start(cv) is None,
    })
    &&& (match end {
        Some(k) => range_end(cv) == Some(k@),
        None => range_end(cv) is None,
    })
    &&& inclusive_start == range_inclusive_start(cv)
    &&& inclusive_end == range_inclusive_end(cv)
}

/// The first matching condition the scan finds is the one the object
/// lookup sees.
proof fn lemma_get_cond_view_some(conds: Seq<(String, Value)>, opname: Seq<char>, v: Value)
    requires
        exists|j: int|
            0 <= j < conds.len() && (#[trigger] conds[j]).0@ == opname && conds[j].1 == v && (
            forall|k: int| 0 <= k < j ==> (#[trigger] conds[k]).0@ != opname),
    ensures
        crate::value::obj_field(
            crate::value::fields_view(conds, conds.len() as int),
            opname,
        ) == Some(v@),
{
    broadcast use crate::value::group_value_views;

    let cv = crate::value::fields_view(conds, conds.len() as int);
    let j = choose|j: int|
        0 <= j < conds.len() && (#[trigger] conds[j]).0@ == opname && conds[j].1 == v && (forall|
            k: int,
        | 0 <= k < j ==> (#[trigger] conds[k]).0@ != opname);
    assert(cv[j].0 == opname && cv[j].1 == v@);
    assert forall|k: int| 0 <= k < j implies (#[trigger] cv[k]).0 != opname by {
        assert(cv[k].0 == conds[k].0@);
    }
    crate::value::lemma_obj_field_first(cv, opname, j);
}

/// A condition name no pair carries is not seen by the object lookup.
proof fn lemma_get_cond_view_none(conds: Seq<(String, Value)>, opname: Seq<char>)
    requires
        forall|k: int| 0 <= k < conds.len() ==> (#[trigger] conds[k]).0@ != opname,
    ensures
        crate::value::obj_field(
            crate::value::fields_view(conds, conds.len() as int),
            opname,
        ) is None,
{
    broadcast use crate::value::group_value_views;

    let cv = crate::value::fields_view(conds, conds.len() as int);
    assert forall|k: int| 0 <= k < cv.len() implies (#[trigger] cv[k]).0 != opname by {
        assert(cv[k].0 == conds[k].0@);
    }
    crate::value::lemma_obj_field_absent(cv, opname);
}

/// The query planner: stateless analysis of one predicate against the
/// available index names.
#[derive(Debug)]
pub struct QueryPlanner;

/// `b` is a suffix of the bytes of `a`.
fn bytes_suffix(a: &[u8], b: &Vec<u8>) -> (r: bool)
    ensures
        r == suffix_of(a@, b@),
{
    if b.len() > a.len() {
        return false;
    }
    let tail = vstd::slice::slice_subrange(a, a.len() - b.len(), a.len());
    crate::value::bytes_eq(tail, b.as_slice())
}

/// Whether the name starts with the reserved marker.
pub(crate) fn starts_with_marker(name: &str) -> (r: bool)
    ensures
        r == is_operator_name(name@),
{
    let bs = name.as_bytes();
    if bs.len() == 0 {
        proof {
            broadcast use vstd::utf8::encode_utf8_decode_utf8;

            if name@.len() > 0 {
                assert(encode_utf8(name@).len() > 0) by {
                    vstd::utf8::encode_utf8_first_scalar(name@);
                }
            }
        }
        return false;
    }
    let first = *vstd::slice::slice_index_get(bs, 0);
    proof {
        if name@.len() == 0 {
            assert(encode_utf8(name@).len() == 0);
        } else {
            vstd::utf8::encode_utf8_first_scalar(name@);
            lemma_dollar_byte(name@);
        }
    }
    first == 0x24
}

/// The first byte of a string's UTF-8 form is the dollar byte exactly when
/// its first character is the dollar sign.
proof fn lemma_dollar_byte(s: Seq<char>)
    requires
        s.len() > 0,
    ensures
        (encode_utf8(s).len() > 0 && encode_utf8(s)[0] == 0x24u8) == (s[0] == '$'),
{
    vstd::utf8::encode_utf8_first_scalar(s);
    let bytes = encode_utf8(s);
    assert(bytes =~= vstd::utf8::encode_scalar(s[0] as u32) + encode_utf8(s.drop_first()));
    if s[0] == '$' {
        assert(s[0] as u32 == 0x24);
        assert((0x24u32 & 0x7F) as u8 == 0x24u8) by (bit_vector);
        assert(vstd::utf8::encode_scalar(0x24) =~= seq![0x24u8]);
    } else {
        if bytes.len() > 0 && bytes[0] == 0x24 {
            let c = s[0] as u32;
            assert(vstd::utf8::encode_scalar(c)[0] == 0x24);
            assert(c == 0x24) by {
                if vstd::utf8::has_width_1_encoding(c) {
                    assert(vstd::utf8::encode_scalar(c)[0] == (c & 0x7F) as u8);
                    assert(((c & 0x7F) as u8 == 0x24u8 && c <= 0x7F) ==> c == 0x24)
                        by (bit_vector);
                } else if vstd::utf8::has_width_2_encoding(c) {
                    let q = ((c >> 6) & 0x1F) as u8;
                    assert(vstd::utf8::encode_scalar(c)[0] == (0xC0u8 | q));
                    assert((0xC0u8 | q) != 0x24u8) by (bit_vector);
                } else if vstd::utf8::has_width_3_encoding(c) {
                    let q = ((c >> 12) & 0x0F) as u8;
                    assert(vstd::utf8::encode_scalar(c)[0] == (0xE0u8 | q));
                    assert((0xE0u8 | q) != 0x24u8) by (bit_vector);
                } else {
                    let q = ((c >> 18) & 0x07) as u8;
                    assert(vstd::utf8::encode_scalar(c)[0] == (0xF0u8 | q));
                    assert((0xF0u8 | q) != 0x24u8) by (bit_vector);
                }
            }
            vstd::utf8::char_u32_cast(s[0], 0x24);
            assert(s[0] == '$');
        }
    }
}

impl QueryPlanner {
    /// The first available index serving `field`, if any.
    pub fn find_index_for_field(field: &str, available_indexes: &Vec<String>) -> (r: Option<
        String,
    >)
        ensures
            match r {
                Some(ix) => exists|i: int|
                    0 <= i < available_indexes@.len() && (#[trigger] available_indexes@[i])@
                        == ix@ && serves_field(ix@, field@),
                None => forall|i: int| 0 <= i < available_indexes@.len() ==> !serves_field(
                    (#[trigger] available_indexes@[i])@,
                    field@,
                ),
            },
    {
        let mut suffix: Vec<u8> = Vec::new();
        suffix.push(0x5f);
        suffix.extend_from_slice(field.as_bytes());
        proof {
            assert(suffix@ =~= seq![0x5fu8] + encode_utf8(field@));
        }
        let mut i: usize = 0;
        while i < available_indexes.len()
            invariant
                i <= available_indexes@.len(),
                suffix@ == seq![0x5fu8] + encode_utf8(field@),
                forall|k: int| 0 <= k < i ==> !serves_field(
                    (#[trigger] available_indexes@[k])@,
                    field@,
                ),
            decreases available_indexes@.len() - i,
        {
            if bytes_suffix(available_indexes[i].as_str().as_bytes(), &suffix) {
                return Some(available_indexes[i].clone());
            }
            i = i + 1;
        }
        None
    }

    /// Choose a plan for a single-field predicate: a range scan when the
    /// field carries any of the four range operators and an index serves
    /// it, an equality scan when a plain value does, nothing otherwise.
    /// The resulting plan always names an index serving the chosen field.
    pub fn analyze_query(query_json: &Value, available_indexes: &Vec<String>) -> (r: Option<
        (String, QueryPlan),
    >)
        ensures
            match r {
                Some(p) => query_json@ is Object && (match p.1 {
                    QueryPlan::IndexScan { index_name, field, key } => {
                        &&& field@ == p.0@
                        &&& serves_field(index_name@, field@)
                        &&& exists|fv: ValueV|
                            crate::value::value_field(query_json@, field@) == Some(fv) && !(fv
                                is Object) && key@ == #[trigger] key_of_value(fv)
                    }
                    QueryPlan::IndexRangeScan {
                        index_name,
                        field,
                        start,
                        end,
                        inclusive_start,
                        inclusive_end,
                    } => {
                        &&& field@ == p.0@
                        &&& serves_field(index_name@, field@)
                        &&& crate::value::value_field(query_json@, field@) is Some
                        &&& exists|fi: int|
                            0 <= fi < query_json@->Object_0.len() && (
                            #[trigger] query_json@->Object_0[fi]).0 == field@
                                && !is_operator_name(query_json@->Object_0[fi].0) && (
                            query_json@->Object_0[fi].1 matches ValueV::Object(cv)
                                && range_plan_matches(
                                cv,
                                start,
                                end,
                                inclusive_start,
                                inclusive_end,
                            ))
                    }
                    QueryPlan::CollectionScan => false,
                }),
                None => true,
            },
            (query_json@ matches ValueV::Object(fs) && fs.len() > 0 && (forall|i: int|
                0 <= i < fs.len() ==> !is_operator_name((#[trigger] fs[i]).0)) && !(fs[0].1
                is Object) && (exists|j: int|
                0 <= j < available_indexes@.len() && serves_field(
                    (#[trigger] available_indexes@[j])@,
                    fs[0].0,
                ))) ==> r is Some,
            (query_json@ matches ValueV::Object(fs) && fs.len() > 0 && !is_operator_name(
                fs[0].0,
            ) && (fs[0].1 matches ValueV::Object(cv) && has_range_op(cv)) && (exists|j: int|
                0 <= j < available_indexes@.len() && serves_field(
                    (#[trigger] available_indexes@[j])@,
                    fs[0].0,
                ))) ==> r is Some,
    {
        let fields = match query_json {
            Value::Object(fields) => fields,
            _ => {
                return None;
            }
        };
        let ghost fieldsv = crate::value::fields_view(fields@, fields@.len() as int);
        proof {
            broadcast use crate::value::group_value_views;

            assert(query_json@ == ValueV::Object(fieldsv));
        }
        // a range plan first
        match Self::analyze_range(query_json, fields, available_indexes) {
            Some(p) => {
                return Some(p);
            }
            None => {}
        }
        // no compound plans: any reserved top-level key stops analysis
        let mut i: usize = 0;
        while i < fields.len()
            invariant
                i <= fields@.len(),
                fieldsv == crate::value::fields_view(fields@, fields@.len() as int),
                query_json@ == ValueV::Object(fieldsv),
                !(fieldsv.len() > 0 && !is_operator_name(fieldsv[0].0) && (fieldsv[0].1
                    matches ValueV::Object(cv) && has_range_op(cv)) && (exists|j: int|
                    0 <= j < available_indexes@.len() && serves_field(
                        (#[trigger] available_indexes@[j])@,
                        fieldsv[0].0,
                    ))),
            decreases fields@.len() - i,
        {
            if starts_with_marker(fields[i].0.as_str()) {
                proof {
                    broadcast use crate::value::group_value_views;

                    assert(fieldsv[i as int].0 == fields@[i as int].0@);
                    assert(is_operator_name(fieldsv[i as int].0));
                }
                return None;
            }
            i = i + 1;
        }
        if fields.len() == 0 {
            return None;
        }
        // equality on the first field
        let field = &fields[0].0;
        let fvalue = &fields[0].1;
        match fvalue {
            Value::Object(inner) => {
                // operators were handled by the range analysis
                proof {
                    broadcast use crate::value::group_value_views;

                    assert(fieldsv[0].1 == fields@[0].1@);
                    assert(fieldsv[0].1 is Object);
                }
                return None;
            }
            _ => {}
        }
        let index_name = match Self::find_index_for_field(field.as_str(), available_indexes) {
            Some(ix) => ix,
            None => {
                proof {
                    broadcast use crate::value::group_value_views;

                    assert(fieldsv[0].0 == fields@[0].0@);
                }
                return None;
            }
        };
        let key = IndexKey::from_value(fvalue);
        proof {
            broadcast use crate::value::group_value_views;

            crate::value::lemma_obj_field_first(fieldsv, field@, 0);
        }
        Some(
            (
                field.clone(),
                QueryPlan::IndexScan { index_name, field: field.clone(), key },
            ),
        )
    }

    /// Choose a range plan: the first non-reserved field whose value is an
    /// object carrying any of `$gt`, `$gte`, `$lt`, `$lte` decides;
    /// `$gte`/`$gt` set the start bound, `$lte`/`$lt` the end bound.
    fn analyze_range(
        query_json: &Value,
        fields: &Vec<(String, Value)>,
        available_indexes: &Vec<String>,
    ) -> (r: Option<(String, QueryPlan)>)
        requires
            query_json@ matches ValueV::Object(fv) && fv == crate::value::fields_view(
                fields@,
                fields@.len() as int,
            ),
        ensures
            match r {
                Some(p) => (match p.1 {
                    QueryPlan::IndexRangeScan {
                        index_name,
                        field,
                        start,
                        end,
                        inclusive_start,
                        inclusive_end,
                    } => {
                        &&& field@ == p.0@
                        &&& serves_field(index_name@, field@)
                        &&& crate::value::value_field(query_json@, field@) is Some
                        &&& exists|fi: int|
                            0 <= fi < query_json@->Object_0.len() && (
                            #[trigger] query_json@->Object_0[fi]).0 == field@
                                && !is_operator_name(query_json@->Object_0[fi].0) && (
                            query_json@->Object_0[fi].1 matches ValueV::Object(cv)
                                && range_plan_matches(
                                cv,
                                start,
                                end,
                                inclusive_start,
                                inclusive_end,
                            ))
                    }
                    _ => false,
                }),
                None => true,
            },
            ({
                let fs = query_json@->Object_0;
                fs.len() > 0 && !is_operator_name(fs[0].0) && (fs[0].1 matches ValueV::Object(cv)
                    && has_range_op(cv)) && (exists|j: int|
                    0 <= j < available_indexes@.len() && serves_field(
                        (#[trigger] available_indexes@[j])@,
                        fs[0].0,
                    ))
            }) ==> r is Some,
    {
        let ghost fieldsv = crate::value::fields_view(fields@, fields@.len() as int);
        proof {
            broadcast use crate::value::group_value_views;

            assert(fieldsv.len() == fields@.len());
        }
        let mut i: usize = 0;
        while i < fields.len()
            invariant
                i <= fields@.len(),
                fieldsv == crate::value::fields_view(fields@, fields@.len() as int),
                fieldsv.len() == fields@.len(),
                query_json@ == ValueV::Object(fieldsv),
                0 < i ==> !(fieldsv.len() > 0 && !is_operator_name(fieldsv[0].0) && (fieldsv[0].1
                    matches ValueV::Object(cv) && has_range_op(cv)) && (exists|j: int|
                    0 <= j < available_indexes@.len() && serves_field(
                        (#[trigger] available_indexes@[j])@,
                        fieldsv[0].0,
                    ))),
            decreases fields@.len() - i,
        {
            let ghost fi0 = i as int;
            let name = &fields[i].0;
            if !starts_with_marker(name.as_str()) {
                match &fields[i].1 {
                    Value::Object(conds) => {
                        let gt = get_cond(conds, "$gt");
                        let gte = get_cond(conds, "$gte");
                        let lt = get_cond(conds, "$lt");
                        let lte = get_cond(conds, "$lte");
                        let has_gt = gt.is_some();
                        let has_gte = gte.is_some();
                        let has_lt = lt.is_some();
                        let has_lte = lte.is_some();
                        proof {
                            broadcast use crate::value::group_value_views;

                            let cv = crate::value::fields_view(conds@, conds@.len() as int);
                            assert(fieldsv[fi0].0 == fields@[fi0].0@);
                            assert(fieldsv[fi0].1 == ValueV::Object(cv));
                            match gt {
                                Some(v) => lemma_get_cond_view_some(conds@, "$gt"@, *v),
                                None => lemma_get_cond_view_none(conds@, "$gt"@),
                            }
                            match gte {
                                Some(v) => lemma_get_cond_view_some(conds@, "$gte"@, *v),
                                None => lemma_get_cond_view_none(conds@, "$gte"@),
                            }
                            match lt {
                                Some(v) => lemma_get_cond_view_some(conds@, "$lt"@, *v),
                                None => lemma_get_cond_view_none(conds@, "$lt"@),
                            }
                            match lte {
                                Some(v) => lemma_get_cond_view_some(conds@, "$lte"@, *v),
                                None => lemma_get_cond_view_none(conds@, "$lte"@),
                            }
                        }
                        if has_gt || has_gte || has_lt || has_lte {
                            let index_name = match Self::find_index_for_field(
                                name.as_str(),
                                available_indexes,
                            ) {
                                Some(ix) => ix,
                                None => {
                                    return None;
                                }
                            };
                            let start = if has_gte {
                                match gte {
                                    Some(v) => Some(IndexKey::from_value(v)),
                                    None => None,
                                }
                            } else if has_gt {
                                match gt {
                                    Some(v) => Some(IndexKey::from_value(v)),
                                    None => None,
                                }
                            } else {
                                None
                            };
                            let end = if has_lte {
                                match lte {
                                    Some(v) => Some(IndexKey::from_value(v)),
                                    None => None,
                                }
                            } else if has_lt {
                                match lt {
                                    Some(v) => Some(IndexKey::from_value(v)),
                                    None => None,
                                }
                            } else {
                                None
                            };
                            let inclusive_start = has_gte || (!has_gt && !has_gte);
                            let inclusive_end = has_lte || (!has_lt && !has_lte);
                            let ghost fi = i as int;
                            proof {
                                broadcast use crate::value::group_value_views;

                                lemma_first_field_lookup(fieldsv, fields@, fi);
                                let cv = crate::value::fields_view(
                                    conds@,
                                    conds@.len() as int,
                                );
                                assert(fieldsv[fi].0 == fields@[fi].0@);
                                assert(fieldsv[fi].1 == ValueV::Object(cv));
                            }
                            return Some(
                                (
                                    name.clone(),
                                    QueryPlan::IndexRangeScan {
                                        index_name,
                                        field: name.clone(),
                                        start,
                                        end,
                                        inclusive_start,
                                        inclusive_end,
                                    },
                                ),
                            );
                        }
                    }
                    _ => {}
                }
            }
            proof {
                if fi0 == 0 {
                    if fieldsv[0].1 is Object {
                        broadcast use crate::value::group_value_views;

                        assert(fieldsv[0].1 == fields@[0].1@);
                    }
                }
            }
            i = i + 1;
        }
        None
    }
}

/// If some field at `i` carries the name, the lookup finds one.
proof fn lemma_first_field_lookup(
    fieldsv: Seq<(Seq<char>, ValueV)>,
    fields: Seq<(String, Value)>,
    i: int,
)
    requires
        0 <= i < fieldsv.len(),
        fieldsv == crate::value::fields_view(fields, fields.len() as int),
        fieldsv.len() == fields.len(),
    ensures
        crate::value::obj_field(fieldsv, fieldsv[i].0) is Some,
    decreases fieldsv.len(),
{
    broadcast use crate::value::group_value_views;

    lemma_obj_field_some(fieldsv, fieldsv[i].0, i);
}

/// A present name is found.
proof fn lemma_obj_field_some(fieldsv: Seq<(Seq<char>, ValueV)>, name: Seq<char>, i: int)
    requires
        0 <= i < fieldsv.len(),
        fieldsv[i].0 == name,
    ensures
        crate::value::obj_field(fieldsv, name) is Some,
    decreases i,
{
    if fieldsv[0].0 == name {
    } else {
        assert(fieldsv.drop_first()[i - 1] == fieldsv[i]);
        lemma_obj_field_some(fieldsv.drop_first(), name, i - 1);
    }
}

/// The condition value under an operator name, if any.
fn get_cond<'a>(conds: &'a Vec<(String, Value)>, opname: &str) -> (r: Option<&'a Value>)
    ensures
        match r {
            Some(v) => exists|i: int|
                0 <= i < conds@.len() && (#[trigger] conds@[i]).0@ == opname@ && conds@[i].1
                    == *v && (forall|k: int| 0 <= k < i ==> (#[trigger] conds@[k]).0@
                    != opname@),
            None => forall|i: int| 0 <= i < conds@.len() ==> (#[trigger] conds@[i]).0@
                != opname@,
        },
{
    let mut i: usize = 0;
    while i < conds.len()
        invariant
            i <= conds@.len(),
            forall|k: int| 0 <= k < i ==> (#[trigger] conds@[k]).0@ != opname@,
        decreases conds@.len() - i,
    {
        if crate::value::str_eq(conds[i].0.as_str(), opname) {
            return Some(&conds[i].1);
        }
        i = i + 1;
    }
    None
}

impl QueryPlanner {
    /// Describe the plan the analysis would choose, as a document:
    /// the plan kind, the index used (if any), the stage and cost class,
    /// and for ranges the bounds' inclusivity.
    /// The explain document: the chosen plan kind under `queryPlan`, the
    /// serving index under `indexUsed` with its field, the execution stage,
    /// and the estimated cost last (a range plan also carries its bounds'
    /// inclusivity under `range`).
    pub fn explain_query(query_json: &Value, available_indexes: &Vec<String>) -> (r: Value)
        ensures
            r@ matches ValueV::Object(fs) && {
                &&& fs.len() >= 4
                &&& fs[0].0 == "queryPlan"@
                &&& (fs[0].1 == ValueV::String("IndexScan"@) || fs[0].1 == ValueV::String(
                    "IndexRangeScan"@,
                ) || fs[0].1 == ValueV::String("CollectionScan"@))
                &&& fs[1].0 == "indexUsed"@
                &&& fs[0].1 == ValueV::String("CollectionScan"@) ==> fs[1].1 is Null && fs[2].0
                    == "stage"@ && fs[2].1 == ValueV::String("FULL_SCAN"@) && fs.last().0
                    == "estimatedCost"@ && fs.last().1 == ValueV::String("O(n)"@)
                &&& fs[0].1 != ValueV::String("CollectionScan"@) ==> fs.len() >= 6 && fs[1].1
                    is String && fs[2].0 == "field"@ && fs[2].1 is String && serves_field(
                    fs[1].1->String_0,
                    fs[2].1->String_0,
                ) && fs[3].0 == "stage"@ && fs[3].1 == ValueV::String("FETCH_WITH_INDEX"@)
                    && fs.last().0 == "estimatedCost"@
                &&& fs[0].1 == ValueV::String("IndexScan"@) ==> (exists|fv: ValueV|
                    #[trigger] crate::value::value_field(query_json@, fs[2].1->String_0) == Some(
                        fv,
                    ) && !(fv is Object))
                &&& fs[0].1 == ValueV::String("IndexRangeScan"@) ==> (exists|fi: int|
                    0 <= fi < query_json@->Object_0.len() && (
                    #[trigger] query_json@->Object_0[fi]).0 == fs[2].1->String_0 && (
                    query_json@->Object_0[fi].1 matches ValueV::Object(cv) && has_range_op(cv)))
                &&& fs[0].1 == ValueV::String("CollectionScan"@) ==> !(query_json@
                    matches ValueV::Object(qs) && qs.len() > 0 && (forall|i: int|
                    0 <= i < qs.len() ==> !is_operator_name((#[trigger] qs[i]).0)) && !(qs[0].1
                    is Object) && (exists|j: int|
                    0 <= j < available_indexes@.len() && serves_field(
                        (#[trigger] available_indexes@[j])@,
                        qs[0].0,
                    ))) && !(query_json@ matches ValueV::Object(qs) && qs.len() > 0
                    && !is_operator_name(qs[0].0) && (qs[0].1 matches ValueV::Object(cv)
                    && has_range_op(cv)) && (exists|j: int|
                    0 <= j < available_indexes@.len() && serves_field(
                        (#[trigger] available_indexes@[j])@,
                        qs[0].0,
                    )))
            },
    {
        let analyzed = Self::analyze_query(query_json, available_indexes);
        let mut fields: Vec<(String, Value)> = Vec::new();
        match analyzed {
            Some((field, plan)) => match plan {
                QueryPlan::IndexScan { index_name, .. } => {
                    fields.push(
                        (
                            String::from_str("queryPlan"),
                            Value::String(String::from_str("IndexScan")),
                        ),
                    );
                    fields.push((String::from_str("indexUsed"), Value::String(index_name)));
                    fields.push((String::from_str("field"), Value::String(field)));
                    fields.push(
                        (
                            String::from_str("stage"),
                            Value::String(String::from_str("FETCH_WITH_INDEX")),
                        ),
                    );
                    fields.push(
                        (
                            String::from_str("indexType"),
                            Value::String(String::from_str("equality")),
                        ),
                    );
                    fields.push(
                        (
                            String::from_str("estimatedCost"),
                            Value::String(String::from_str("O(log n)")),
                        ),
                    );
                }
                QueryPlan::IndexRangeScan {
                    index_name,
                    inclusive_start,
                    inclusive_end,
                    ..
                } => {
                    fields.push(
                        (
                            String::from_str("queryPlan"),
                            Value::String(String::from_str("IndexRangeScan")),
                        ),
                    );
                    fields.push((String::from_str("indexUsed"), Value::String(index_name)));
                    fields.push((String::from_str("field"), Value::String(field)));
                    fields.push(
                        (
                            String::from_str("stage"),
                            Value::String(String::from_str("FETCH_WITH_INDEX")),
                        ),
                    );
                    fields.push(
                        (
                            String::from_str("indexType"),
                            Value::String(String::from_str("range")),
                        ),
                    );
                    let mut range: Vec<(String, Value)> = Vec::new();
                    range.push(
                        (String::from_str("inclusiveStart"), Value::Bool(inclusive_start)),
                    );
                    range.push((String::from_str("inclusiveEnd"), Value::Bool(inclusive_end)));
                    fields.push((String::from_str("range"), Value::Object(range)));
                    fields.push(
                        (
                            String::from_str("estimatedCost"),
                            Value::String(String::from_str("O(log n + k)")),
                        ),
                    );
                }
                QueryPlan::CollectionScan => {
                    fields.push(
                        (
                            String::from_str("queryPlan"),
                            Value::String(String::from_str("CollectionScan")),
                        ),
                    );
                    fields.push((String::from_str("indexUsed"), Value::Null));
                    fields.push(
                        (
                            String::from_str("stage"),
                            Value::String(String::from_str("FULL_SCAN")),
                        ),
                    );
                    fields.push(
                        (
                            String::from_str("estimatedCost"),
                            Value::String(String::from_str("O(n)")),
                        ),
                    );
                }
            },
            None => {
                fields.push(
                    (
                        String::from_str("queryPlan"),
                        Value::String(String::from_str("CollectionScan")),
                    ),
                );
                fields.push((String::from_str("indexUsed"), Value::Null));
                fields.push(
                    (String::from_str("stage"), Value::String(String::from_str("FULL_SCAN"))),
                );
                fields.push(
                    (
                        String::from_str("reason"),
                        Value::String(String::from_str("No suitable index found for query")),
                    ),
                );
                fields.push(
                    (
                        String::from_str("estimatedCost"),
                        Value::String(String::from_str("O(n)")),
                    ),
                );
            }
        }
        proof {
            broadcast use crate::value::group_value_views;

            reveal_strlit("IndexScan");
            reveal_strlit("IndexRangeScan");
            reveal_strlit("CollectionScan");
            assert("IndexScan"@.len() == 9 && "CollectionScan"@.len() == 14);
            assert("IndexRangeScan"@[0] == 'I' && "CollectionScan"@[0] == 'C');
            let n = fields@.len() as int;
            assert(n >= 4);
            assert(crate::value::fields_view(fields@, n)[0] == (fields@[0].0@, fields@[0].1@));
            assert(crate::value::fields_view(fields@, n)[1] == (fields@[1].0@, fields@[1].1@));
            assert(crate::value::fields_view(fields@, n)[2] == (fields@[2].0@, fields@[2].1@));
            assert(crate::value::fields_view(fields@, n)[3] == (fields@[3].0@, fields@[3].1@));
            assert(crate::value::fields_view(fields@, n)[n - 1] == (
                fields@[n - 1].0@,
                fields@[n - 1].1@,
            ));
        }
        Value::Object(fields)
    }
}

} // verus!
