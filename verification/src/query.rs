//! The query matcher: a pure predicate over one document, parsed from a
//! predicate document with comparison and logical operators.

use vstd::prelude::*;

use crate::error::MongoLiteError;
use crate::value::{Document, Value, ValueV};

verus! {

broadcast use vstd::std_specs::vec::group_vec_axioms;

/// One condition on a field, or a logical combination of queries.
#[derive(Debug)]
pub enum QueryOperator {
    Eq(Value),
    Ne(Value),
    Gt(Value),
    Gte(Value),
    Lt(Value),
    Lte(Value),
    In(Vec<Value>),
    Nin(Vec<Value>),
    And(Vec<Query>),
    Or(Vec<Query>),
    Not(Box<Query>),
    Nor(Vec<Query>),
    Exists(bool),
    Type(String),
    Regex(String),
}

/// A parsed query: one operator per named condition, all of which must
/// hold. A name starting with the reserved marker carries a logical
/// operator instead of a field condition.
#[derive(Debug)]
pub struct Query {
    pub conditions: Vec<(String, QueryOperator)>,
}

/// Comparison used by the matcher: values of the same scalar kind compare
/// in their natural order; everything else is incomparable.
pub open spec fn q_compare(a: ValueV, b: ValueV) -> Option<int> {
    match (a, b) {
        (ValueV::Int(x), ValueV::Int(y)) => Some(
            if x < y {
                -1int
            } else if x == y {
                0int
            } else {
                1int
            },
        ),
        (ValueV::Float(x), ValueV::Float(y)) => Some(crate::key::float_cmp(x, y)),
        (ValueV::String(x), ValueV::String(y)) => Some(
            crate::key::key_cmp(crate::key::IndexKeyV::String(x), crate::key::IndexKeyV::String(y)),
        ),
        (ValueV::Bool(x), ValueV::Bool(y)) => Some(
            if x == y {
                0int
            } else if !x {
                -1int
            } else {
                1int
            },
        ),
        _ => None,
    }
}

/// The document's field value, where `_id` is carried apart from the
/// fields and is never found by name.
pub open spec fn doc_field(doc: Document, name: Seq<char>) -> Option<ValueV> {
    if name == "_id"@ {
        None
    } else {
        crate::value::fields_lookup(doc.fields@, name)
    }
}

/// Whether one operator accepts the document's field value.
pub open spec fn spec_matches_operator(
    value: Option<ValueV>,
    op: QueryOperator,
    doc: Document,
) -> bool
    decreases op, 1int,
{
    match op {
        QueryOperator::Eq(target) => value matches Some(v) && v == target@,
        QueryOperator::Ne(target) => !(value matches Some(v) && v == target@),
        QueryOperator::Gt(target) => value matches Some(v) && q_compare(v, target@) == Some(1int),
        QueryOperator::Gte(target) => value matches Some(v) && (q_compare(v, target@) == Some(
            1int,
        ) || q_compare(v, target@) == Some(0int)),
        QueryOperator::Lt(target) => value matches Some(v) && q_compare(v, target@) == Some(
            -1int,
        ),
        QueryOperator::Lte(target) => value matches Some(v) && (q_compare(v, target@) == Some(
            -1int,
        ) || q_compare(v, target@) == Some(0int)),
        QueryOperator::In(targets) => value matches Some(v) && (exists|i: int|
            0 <= i < targets@.len() && (#[trigger] targets@[i])@ == v),
        QueryOperator::Nin(targets) => !(value matches Some(v) && (exists|i: int|
            0 <= i < targets@.len() && (#[trigger] targets@[i])@ == v)),
        QueryOperator::Exists(should) => (value is Some) == should,
        QueryOperator::Not(inner) => {
            // a field-level negation wraps the real operator under a
            // placeholder condition name
            if inner.conditions@.len() == 1 {
                !spec_matches_operator(value, inner.conditions@[0].1, doc)
            } else {
                !spec_matches(*inner, doc)
            }
        }
        _ => false,
    }
}

/// Whether a logical operator accepts the document.
pub open spec fn spec_matches_logical(op: QueryOperator, doc: Document) -> bool
    decreases op, 1int,
{
    match op {
        QueryOperator::And(queries) => all_match(queries@, doc, queries@.len() as int),
        QueryOperator::Or(queries) => !none_match(queries@, doc, queries@.len() as int),
        QueryOperator::Nor(queries) => none_match(queries@, doc, queries@.len() as int),
        QueryOperator::Not(query) => !spec_matches(*query, doc),
        _ => false,
    }
}

/// Every query among `qs[..j]` accepts the document.
pub open spec fn all_match(qs: Seq<Query>, doc: Document, j: int) -> bool
    decreases qs, j, 0int,
{
    if 0 < j <= qs.len() {
        all_match(qs, doc, j - 1) && spec_matches(qs[j - 1], doc)
    } else {
        true
    }
}

/// No query among `qs[..j]` accepts the document.
pub open spec fn none_match(qs: Seq<Query>, doc: Document, j: int) -> bool
    decreases qs, j, 0int,
{
    if 0 < j <= qs.len() {
        none_match(qs, doc, j - 1) && !spec_matches(qs[j - 1], doc)
    } else {
        true
    }
}

/// Every condition among `cs[..j]` accepts the document.
pub open spec fn conds_match(cs: Seq<(String, QueryOperator)>, doc: Document, j: int) -> bool
    decreases cs, j, 0int,
{
    if 0 < j <= cs.len() {
        conds_match(cs, doc, j - 1) && (if crate::planner::is_operator_name(cs[j - 1].0@) {
            spec_matches_logical(cs[j - 1].1, doc)
        } else {
            spec_matches_operator(doc_field(doc, cs[j - 1].0@), cs[j - 1].1, doc)
        })
    } else {
        true
    }
}

/// Whether the query accepts the document: every condition holds.
pub open spec fn spec_matches(q: Query, doc: Document) -> bool
    decreases q, 2int, 0int,
{
    conds_match(q.conditions@, doc, q.conditions@.len() as int)
}

/// The matcher reads a document only through its fields: two documents
/// carrying the same field vector are accepted by exactly the same
/// queries.
pub proof fn lemma_matches_congruent(q: Query, d1: Document, d2: Document)
    requires
        crate::value::fields_view(d1.fields@, d1.fields@.len() as int) == crate::value::fields_view(
            d2.fields@,
            d2.fields@.len() as int,
        ),
    ensures
        spec_matches(q, d1) == spec_matches(q, d2),
    decreases q, 2int, 0int,
{
    lemma_conds_congruent(q.conditions@, d1, d2, q.conditions@.len() as int);
}

proof fn lemma_conds_congruent(
    cs: Seq<(String, QueryOperator)>,
    d1: Document,
    d2: Document,
    j: int,
)
    requires
        crate::value::fields_view(d1.fields@, d1.fields@.len() as int) == crate::value::fields_view(
            d2.fields@,
            d2.fields@.len() as int,
        ),
    ensures
        conds_match(cs, d1, j) == conds_match(cs, d2, j),
    decreases cs, j, 0int,
{
    if 0 < j <= cs.len() {
        lemma_conds_congruent(cs, d1, d2, j - 1);
        if crate::planner::is_operator_name(cs[j - 1].0@) {
            lemma_logical_congruent(cs[j - 1].1, d1, d2);
        } else {
            lemma_fields_lookup_congruent(d1.fields@, d2.fields@, cs[j - 1].0@);
            assert(doc_field(d1, cs[j - 1].0@) == doc_field(d2, cs[j - 1].0@));
            lemma_operator_congruent(doc_field(d1, cs[j - 1].0@), cs[j - 1].1, d1, d2);
        }
    }
}

proof fn lemma_logical_congruent(op: QueryOperator, d1: Document, d2: Document)
    requires
        crate::value::fields_view(d1.fields@, d1.fields@.len() as int) == crate::value::fields_view(
            d2.fields@,
            d2.fields@.len() as int,
        ),
    ensures
        spec_matches_logical(op, d1) == spec_matches_logical(op, d2),
    decreases op, 1int,
{
    match op {
        QueryOperator::And(queries) => {
            lemma_all_congruent(queries@, d1, d2, queries@.len() as int);
        }
        QueryOperator::Or(queries) => {
            lemma_none_congruent(queries@, d1, d2, queries@.len() as int);
        }
        QueryOperator::Nor(queries) => {
            lemma_none_congruent(queries@, d1, d2, queries@.len() as int);
        }
        QueryOperator::Not(query) => {
            lemma_matches_congruent(*query, d1, d2);
        }
        _ => {}
    }
}

proof fn lemma_all_congruent(qs: Seq<Query>, d1: Document, d2: Document, j: int)
    requires
        crate::value::fields_view(d1.fields@, d1.fields@.len() as int) == crate::value::fields_view(
            d2.fields@,
            d2.fields@.len() as int,
        ),
    ensures
        all_match(qs, d1, j) == all_match(qs, d2, j),
    decreases qs, j, 0int,
{
    if 0 < j <= qs.len() {
        lemma_all_congruent(qs, d1, d2, j - 1);
        lemma_matches_congruent(qs[j - 1], d1, d2);
    }
}

proof fn lemma_none_congruent(qs: Seq<Query>, d1: Document, d2: Document, j: int)
    requires
        crate::value::fields_view(d1.fields@, d1.fields@.len() as int) == crate::value::fields_view(
            d2.fields@,
            d2.fields@.len() as int,
        ),
    ensures
        none_match(qs, d1, j) == none_match(qs, d2, j),
    decreases qs, j, 0int,
{
    if 0 < j <= qs.len() {
        lemma_none_congruent(qs, d1, d2, j - 1);
        lemma_matches_congruent(qs[j - 1], d1, d2);
    }
}

proof fn lemma_operator_congruent(
    value: Option<ValueV>,
    op: QueryOperator,
    d1: Document,
    d2: Document,
)
    requires
        crate::value::fields_view(d1.fields@, d1.fields@.len() as int) == crate::value::fields_view(
            d2.fields@,
            d2.fields@.len() as int,
        ),
    ensures
        spec_matches_operator(value, op, d1) == spec_matches_operator(value, op, d2),
    decreases op, 1int,
{
    match op {
        QueryOperator::Not(inner) => {
            if inner.conditions@.len() == 1 {
                lemma_operator_congruent(value, inner.conditions@[0].1, d1, d2);
            } else {
                lemma_matches_congruent(*inner, d1, d2);
            }
        }
        _ => {}
    }
}

/// The parsed query mirrors the predicate document: one condition per
/// field, reserved names carrying logical operators, plain names field
/// conditions.
pub open spec fn query_parses_to(jv: ValueV, q: Query) -> bool
    decreases jv, 3int, 0int,
{
    if !(jv is Object) {
        q.conditions@.len() == 0
    } else {
        q.conditions@.len() == jv->Object_0.len() && conds_parse_to(
            jv->Object_0,
            q.conditions@,
            jv->Object_0.len() as int,
        )
    }
}

/// The first `j` conditions mirror the first `j` fields.
pub open spec fn conds_parse_to(
    fs: Seq<(Seq<char>, ValueV)>,
    cs: Seq<(String, QueryOperator)>,
    j: int,
) -> bool
    decreases fs, j, 2int,
{
    if 0 < j <= fs.len() && j <= cs.len() {
        &&& conds_parse_to(fs, cs, j - 1)
        &&& cs[j - 1].0@ == fs[j - 1].0
        &&& (if crate::planner::is_operator_name(fs[j - 1].0) {
            logical_parses_to(fs[j - 1].0, fs[j - 1].1, cs[j - 1].1)
        } else {
            op_parses_to(fs[j - 1].1, cs[j - 1].1)
        })
    } else {
        j <= 0
    }
}

/// A reserved-name condition mirrors its array of sub-queries.
pub open spec fn logical_parses_to(name: Seq<char>, vv: ValueV, op: QueryOperator) -> bool
    decreases vv, 3int, 0int,
{
    vv matches ValueV::Array(items) && (if name == "$and"@ {
        op matches QueryOperator::And(qs) && qs@.len() == items.len() && queries_parse_to(
            items,
            qs@,
            items.len() as int,
        )
    } else if name == "$or"@ {
        op matches QueryOperator::Or(qs) && qs@.len() == items.len() && queries_parse_to(
            items,
            qs@,
            items.len() as int,
        )
    } else if name == "$nor"@ {
        op matches QueryOperator::Nor(qs) && qs@.len() == items.len() && queries_parse_to(
            items,
            qs@,
            items.len() as int,
        )
    } else {
        false
    })
}

/// The first `j` sub-queries mirror the first `j` array items.
pub open spec fn queries_parse_to(items: Seq<ValueV>, qs: Seq<Query>, j: int) -> bool
    decreases items, j, 4int,
{
    if 0 < j <= items.len() && j <= qs.len() {
        queries_parse_to(items, qs, j - 1) && query_parses_to(items[j - 1], qs[j - 1])
    } else {
        j <= 0
    }
}

/// A field condition mirrors its value: a plain value is an equality, an
/// operator object carries its first operator, `$not` wraps the negated
/// operator under the placeholder condition name.
pub open spec fn op_parses_to(vv: ValueV, op: QueryOperator) -> bool
    decreases vv, 3int, 0int,
{
    if !(vv is Object) || vv->Object_0.len() == 0 {
        op matches QueryOperator::Eq(t) && t@ == vv
    } else {
        let name = vv->Object_0[0].0;
        let val = vv->Object_0[0].1;
        if name == "$eq"@ {
            op matches QueryOperator::Eq(t) && t@ == val
        } else if name == "$ne"@ {
            op matches QueryOperator::Ne(t) && t@ == val
        } else if name == "$gt"@ {
            op matches QueryOperator::Gt(t) && t@ == val
        } else if name == "$gte"@ {
            op matches QueryOperator::Gte(t) && t@ == val
        } else if name == "$lt"@ {
            op matches QueryOperator::Lt(t) && t@ == val
        } else if name == "$lte"@ {
            op matches QueryOperator::Lte(t) && t@ == val
        } else if name == "$in"@ {
            val matches ValueV::Array(items) && (op matches QueryOperator::In(ts) && Seq::new(
                ts@.len(),
                |k: int| ts@[k]@,
            ) == items)
        } else if name == "$nin"@ {
            val matches ValueV::Array(items) && (op matches QueryOperator::Nin(ts) && Seq::new(
                ts@.len(),
                |k: int| ts@[k]@,
            ) == items)
        } else if name == "$not"@ {
            op matches QueryOperator::Not(bq) && bq.conditions@.len() == 1
                && bq.conditions@[0].0@ == "_field_"@ && op_parses_to(val, bq.conditions@[0].1)
        } else if name == "$exists"@ {
            val matches ValueV::Bool(b) && op == QueryOperator::Exists(b)
        } else if name == "$regex"@ {
            val matches ValueV::String(s2) && (op matches QueryOperator::Regex(rs) && rs@ == s2)
        } else {
            false
        }
    }
}

/// Conditions already mirrored stay mirrored when later ones are added.
proof fn lemma_conds_parse_frame(
    fs: Seq<(Seq<char>, ValueV)>,
    cs1: Seq<(String, QueryOperator)>,
    cs2: Seq<(String, QueryOperator)>,
    j: int,
)
    requires
        forall|k: int| 0 <= k < j ==> #[trigger] cs1[k] == cs2[k],
        j <= cs1.len(),
        j <= cs2.len(),
    ensures
        conds_parse_to(fs, cs1, j) == conds_parse_to(fs, cs2, j),
    decreases j,
{
    if 0 < j <= fs.len() {
        lemma_conds_parse_frame(fs, cs1, cs2, j - 1);
    }
}

/// Sub-queries already mirrored stay mirrored when later ones are added.
proof fn lemma_queries_parse_frame(items: Seq<ValueV>, qs1: Seq<Query>, qs2: Seq<Query>, j: int)
    requires
        forall|k: int| 0 <= k < j ==> #[trigger] qs1[k] == qs2[k],
        j <= qs1.len(),
        j <= qs2.len(),
    ensures
        queries_parse_to(items, qs1, j) == queries_parse_to(items, qs2, j),
    decreases j,
{
    if 0 < j <= items.len() {
        lemma_queries_parse_frame(items, qs1, qs2, j - 1);
    }
}

/// A field lookup reads the pairs only through their views.
proof fn lemma_fields_lookup_congruent(
    f1: Seq<(String, Value)>,
    f2: Seq<(String, Value)>,
    name: Seq<char>,
)
    requires
        crate::value::fields_view(f1, f1.len() as int) == crate::value::fields_view(
            f2,
            f2.len() as int,
        ),
    ensures
        crate::value::fields_lookup(f1, name) == crate::value::fields_lookup(f2, name),
    decreases f1.len(),
{
    broadcast use crate::value::group_value_views;

    let v1 = crate::value::fields_view(f1, f1.len() as int);
    let v2 = crate::value::fields_view(f2, f2.len() as int);
    assert(v1.len() == f1.len() && v2.len() == f2.len());
    if f1.len() > 0 {
        assert(v1[0] == (f1[0].0@, f1[0].1@));
        assert(v2[0] == (f2[0].0@, f2[0].1@));
        if f1[0].0@ != name {
            let t1 = f1.drop_first();
            let t2 = f2.drop_first();
            assert(crate::value::fields_view(t1, t1.len() as int) =~= crate::value::fields_view(
                t2,
                t2.len() as int,
            )) by {
                assert forall|k: int|
                    0 <= k < t1.len() implies crate::value::fields_view(t1, t1.len() as int)[k]
                    == crate::value::fields_view(t2, t2.len() as int)[k] by {
                    assert(t1[k] == f1[k + 1] && t2[k] == f2[k + 1]);
                    assert(v1[k + 1] == (f1[k + 1].0@, f1[k + 1].1@));
                    assert(v2[k + 1] == (f2[k + 1].0@, f2[k + 1].1@));
                }
            }
            lemma_fields_lookup_congruent(t1, t2, name);
        }
    }
}

/// The fields of a stored value as the matcher reads them: the object's
/// field views without the id.
pub open spec fn match_fields(vv: ValueV) -> Seq<(Seq<char>, ValueV)> {
    match vv {
        ValueV::Object(obj) => obj.filter(|p: (Seq<char>, ValueV)| p.0 != "_id"@),
        _ => Seq::empty(),
    }
}

/// The query accepts the stored value: it accepts a document carrying the
/// value's fields — by congruence, any such document decides it.
pub open spec fn value_matches(q: Query, vv: ValueV) -> bool {
    exists|d: Document|
        (#[trigger] crate::value::fields_view(d.fields@, d.fields@.len() as int)) == match_fields(
            vv,
        ) && spec_matches(q, d)
}

/// Law: whether the matcher accepts a stored value is decided by any one
/// document carrying the value's fields.
pub proof fn lemma_value_matches(q: Query, vv: ValueV, d: Document)
    requires
        crate::value::fields_view(d.fields@, d.fields@.len() as int) == match_fields(vv),
    ensures
        value_matches(q, vv) == spec_matches(q, d),
{
    if spec_matches(q, d) {
        assert(value_matches(q, vv));
    } else {
        if value_matches(q, vv) {
            let d2 = choose|d2: Document|
                (#[trigger] crate::value::fields_view(d2.fields@, d2.fields@.len() as int))
                    == match_fields(vv) && spec_matches(q, d2);
            lemma_matches_congruent(q, d2, d);
        }
    }
}

impl Query {
    /// The query with no conditions, which accepts every document.
    pub fn new() -> (r: Query)
        ensures
            r.conditions@.len() == 0,
            forall|doc: Document| #[trigger] spec_matches(r, doc),
    {
        let r = Query { conditions: Vec::new() };
        proof {
            assert(forall|doc: Document| #[trigger] conds_match(r.conditions@, doc, 0));
        }
        r
    }
}

impl Default for Query {
    fn default() -> (r: Self)
        ensures
            r.conditions@.len() == 0,
    {
        Query::new()
    }
}

} // verus!

verus! {

/// Compare two values as the matcher does.
fn compare_values(a: &Value, b: &Value) -> (r: Option<i8>)
    ensures
        match r {
            Some(c) => q_compare(a@, b@) == Some(c as int),
            None => q_compare(a@, b@) is None,
        },
{
    match (a, b) {
        (Value::Int(x), Value::Int(y)) => Some(
            if *x < *y {
                -1
            } else if *x == *y {
                0
            } else {
                1
            },
        ),
        (Value::Float(x), Value::Float(y)) => {
            let ka = crate::key::IndexKey::Float(*x);
            let kb = crate::key::IndexKey::Float(*y);
            Some(ka.cmp_key(&kb))
        }
        (Value::String(x), Value::String(y)) => {
            let ka = crate::key::IndexKey::String(x.clone());
            let kb = crate::key::IndexKey::String(y.clone());
            Some(ka.cmp_key(&kb))
        }
        (Value::Bool(x), Value::Bool(y)) => Some(
            if *x == *y {
                0
            } else if !*x {
                -1
            } else {
                1
            },
        ),
        _ => None,
    }
}

/// Whether any target value equals `v`.
fn value_in(targets: &Vec<Value>, v: &Value) -> (r: bool)
    ensures
        r == exists|i: int| 0 <= i < targets@.len() && (#[trigger] targets@[i])@ == v@,
{
    let mut i: usize = 0;
    while i < targets.len()
        invariant
            i <= targets@.len(),
            forall|k: int| 0 <= k < i ==> (#[trigger] targets@[k])@ != v@,
        decreases targets@.len() - i,
    {
        if targets[i].eq_value(v) {
            return true;
        }
        i = i + 1;
    }
    false
}

impl Query {
    /// Whether this query accepts the document.
    pub fn matches(&self, document: &Document) -> (r: bool)
        ensures
            r == spec_matches(*self, *document),
        decreases self,
    {
        let ghost q = *self;
        let ghost csv = self.conditions@;
        let mut j: usize = 0;
        let mut ok = true;
        while j < self.conditions.len()
            invariant
                j <= csv.len(),
                csv == self.conditions@,
                q == *self,
                ok == conds_match(csv, *document, j as int),
            decreases csv.len() - j,
        {
            proof {
                assert(decreases_to!(q => q.conditions));
                assert(decreases_to!(q.conditions => q.conditions@));
                assert(decreases_to!(q.conditions@ => csv[j as int]));
                assert(decreases_to!(csv[j as int] => csv[j as int].1));
            }
            let name = &self.conditions[j].0;
            let op = &self.conditions[j].1;
            let this_ok: bool;
            if crate::planner::starts_with_marker(name.as_str()) {
                this_ok = matches_logical_operator(op, document);
            } else {
                let value = document.get(name.as_str());
                proof {
                    if name@ == "_id"@ {
                        assert(doc_field(*document, name@) is None);
                    }
                }
                this_ok = matches_operator(value, op, document);
            }
            ok = ok && this_ok;
            j = j + 1;
        }
        ok
    }
}

/// Whether a logical operator accepts the document.
#[verifier::loop_isolation(false)]
fn matches_logical_operator(op: &QueryOperator, document: &Document) -> (r: bool)
    ensures
        r == spec_matches_logical(*op, *document),
    decreases op,
{
    match op {
        QueryOperator::And(queries) => {
            let mut j: usize = 0;
            let mut ok = true;
            while j < queries.len()
                invariant
                    *op == QueryOperator::And(*queries),
                    j <= queries@.len(),
                    ok == all_match(queries@, *document, j as int),
                decreases queries@.len() - j,
            {
                proof {
                    assert(decreases_to!(*op => *queries));
                    assert(decreases_to!(*queries => queries@[j as int]));
                    assert(decreases_to!(*op => queries@[j as int]));
                }
                let m = queries[j].matches(document);
                ok = ok && m;
                j = j + 1;
            }
            ok
        }
        QueryOperator::Or(queries) => {
            let mut j: usize = 0;
            let mut none = true;
            while j < queries.len()
                invariant
                    *op == QueryOperator::Or(*queries),
                    j <= queries@.len(),
                    none == none_match(queries@, *document, j as int),
                decreases queries@.len() - j,
            {
                proof {
                    assert(decreases_to!(*op => *queries));
                    assert(decreases_to!(*queries => queries@[j as int]));
                    assert(decreases_to!(*op => queries@[j as int]));
                }
                let m = queries[j].matches(document);
                none = none && !m;
                j = j + 1;
            }
            !none
        }
        QueryOperator::Nor(queries) => {
            let mut j: usize = 0;
            let mut none = true;
            while j < queries.len()
                invariant
                    *op == QueryOperator::Nor(*queries),
                    j <= queries@.len(),
                    none == none_match(queries@, *document, j as int),
                decreases queries@.len() - j,
            {
                proof {
                    assert(decreases_to!(*op => *queries));
                    assert(decreases_to!(*queries => queries@[j as int]));
                    assert(decreases_to!(*op => queries@[j as int]));
                }
                let m = queries[j].matches(document);
                none = none && !m;
                j = j + 1;
            }
            none
        }
        QueryOperator::Not(query) => {
            proof {
                assert(decreases_to!(*op => *query));
            }
            let m = query.matches(document);
            !m
        }
        _ => false,
    }
}

/// Whether one operator accepts the document's field value.
fn matches_operator(value: Option<&Value>, op: &QueryOperator, document: &Document) -> (r: bool)
    ensures
        r == spec_matches_operator(
            match value {
                Some(v) => Some(v@),
                None => None,
            },
            *op,
            *document,
        ),
    decreases op,
{
    match op {
        QueryOperator::Eq(target) => match value {
            Some(v) => v.eq_value(target),
            None => false,
        },
        QueryOperator::Ne(target) => match value {
            Some(v) => !v.eq_value(target),
            None => true,
        },
        QueryOperator::Gt(target) => match value {
            Some(v) => match compare_values(v, target) {
                Some(c) => c == 1,
                None => false,
            },
            None => false,
        },
        QueryOperator::Gte(target) => match value {
            Some(v) => match compare_values(v, target) {
                Some(c) => c == 1 || c == 0,
                None => false,
            },
            None => false,
        },
        QueryOperator::Lt(target) => match value {
            Some(v) => match compare_values(v, target) {
                Some(c) => c == -1,
                None => false,
            },
            None => false,
        },
        QueryOperator::Lte(target) => match value {
            Some(v) => match compare_values(v, target) {
                Some(c) => c == -1 || c == 0,
                None => false,
            },
            None => false,
        },
        QueryOperator::In(targets) => match value {
            Some(v) => value_in(targets, v),
            None => false,
        },
        QueryOperator::Nin(targets) => match value {
            Some(v) => !value_in(targets, v),
            None => true,
        },
        QueryOperator::Exists(should) => match value {
            Some(_) => *should,
            None => !*should,
        },
        QueryOperator::Not(inner) => {
            if inner.conditions.len() == 1 {
                proof {
                    assert(decreases_to!(*op => *inner));
                    assert(decreases_to!(**inner => (**inner).conditions));
                    assert(decreases_to!((**inner).conditions => (**inner).conditions@));
                    assert(decreases_to!((**inner).conditions@ => (**inner).conditions@[0]));
                    assert(decreases_to!((**inner).conditions@[0] => (**inner).conditions@[0].1));
                }
                let m = matches_operator(value, &inner.conditions[0].1, document);
                !m
            } else {
                proof {
                    assert(decreases_to!(*op => **inner));
                }
                let m = inner.matches(document);
                !m
            }
        }
        _ => false,
    }
}

} // verus!

verus! {

/// A predicate whose top-level values are all plain scalars: the simple
/// equality form, which always parses.
pub open spec fn simple_equality_query(v: ValueV) -> bool {
    v matches ValueV::Object(fields) && (forall|i: int|
        0 <= i < fields.len() ==> {
            let f = #[trigger] fields[i];
            !crate::planner::is_operator_name(f.0) && (f.1 is String || f.1 is Int || f.1
                is Float || f.1 is Bool)
        })
}

impl Query {
    /// Parse a predicate document. Reserved top-level names carry logical
    /// operators over arrays of sub-queries; other names carry an equality
    /// value or an operator object. Unknown operators and ill-typed
    /// operator arguments are invalid queries; the simple equality form
    /// always parses.
    #[verifier::loop_isolation(false)]
    pub fn from_json(json: &Value) -> (r: Result<Query, MongoLiteError>)
        ensures
            r matches Err(e) ==> e is InvalidQuery,
            simple_equality_query(json@) ==> r is Ok,
            r matches Ok(q) ==> query_parses_to(json@, q),
        decreases json,
    {
        let ghost jv = json@;
        let mut query = Query { conditions: Vec::new() };
        let fields = match json {
            Value::Object(fields) => fields,
            _ => {
                return Ok(query);
            }
        };
        let ghost fieldsv = crate::value::fields_view(fields@, fields@.len() as int);
        proof {
            broadcast use crate::value::group_value_views;

            assert(jv == ValueV::Object(fieldsv));
        }
        proof {
            broadcast use crate::value::group_value_views;

            assert(fieldsv.len() == fields@.len());
        }
        let mut i: usize = 0;
        while i < fields.len()
            invariant
                i <= fields@.len(),
                jv == json@,
                fieldsv == crate::value::fields_view(fields@, fields@.len() as int),
                fieldsv.len() == fields@.len(),
                jv == ValueV::Object(fieldsv),
                query.conditions@.len() == i,
                conds_parse_to(fieldsv, query.conditions@, i as int),
            decreases fields@.len() - i,
        {
            proof {
                assert(decreases_to!(*json => *fields));
                assert(decreases_to!(*fields => fields@[i as int]));
                assert(decreases_to!(fields@[i as int] => fields@[i as int].1));
                broadcast use crate::value::group_value_views;

                assert(fieldsv[i as int] == (fields@[i as int].0@, fields@[i as int].1@));
            }
            let name = &fields[i].0;
            let value = &fields[i].1;
            if crate::planner::starts_with_marker(name.as_str()) {
                let op = match parse_logical_operator(name.as_str(), value) {
                    Ok(op) => op,
                    Err(e) => {
                        return Err(e);
                    }
                };
                let ghost precs = query.conditions@;
                query.conditions.push((name.clone(), op));
                proof {
                    lemma_conds_parse_frame(fieldsv, precs, query.conditions@, i as int);
                    assert(query.conditions@[i as int].0@ == fieldsv[i as int].0);
                    assert(conds_parse_to(fieldsv, query.conditions@, i + 1));
                }
            } else {
                let op = match parse_operator(value) {
                    Ok(op) => op,
                    Err(e) => {
                        return Err(e);
                    }
                };
                let ghost precs = query.conditions@;
                query.conditions.push((name.clone(), op));
                proof {
                    lemma_conds_parse_frame(fieldsv, precs, query.conditions@, i as int);
                    assert(query.conditions@[i as int].0@ == fieldsv[i as int].0);
                    assert(conds_parse_to(fieldsv, query.conditions@, i + 1));
                }
            }
            i = i + 1;
        }
        Ok(query)
    }
}

/// Parse a reserved-name condition: `$and`, `$or` and `$nor` take arrays
/// of sub-queries; anything else is invalid.
#[verifier::loop_isolation(false)]
fn parse_logical_operator(op: &str, value: &Value) -> (r: Result<QueryOperator, MongoLiteError>)
    ensures
        r matches Err(e) ==> e is InvalidQuery,
        r matches Ok(o) ==> logical_parses_to(op@, value@, o),
    decreases value,
{
    let items = match value {
        Value::Array(items) => items,
        _ => {
            return Err(MongoLiteError::InvalidQuery(String::new()));
        }
    };
    if !(crate::value::str_eq(op, "$and") || crate::value::str_eq(op, "$or")
        || crate::value::str_eq(op, "$nor")) {
        return Err(MongoLiteError::InvalidQuery(String::new()));
    }
    let ghost itemsv = crate::value::values_view(items@, items@.len() as int);
    proof {
        broadcast use crate::value::group_value_views;

        assert(value@ == ValueV::Array(itemsv));
        assert(itemsv.len() == items@.len());
    }
    let mut queries: Vec<Query> = Vec::new();
    let mut i: usize = 0;
    while i < items.len()
        invariant
            i <= items@.len(),
            itemsv == crate::value::values_view(items@, items@.len() as int),
            itemsv.len() == items@.len(),
            queries@.len() == i,
            queries_parse_to(itemsv, queries@, i as int),
        decreases items@.len() - i,
    {
        proof {
            assert(decreases_to!(*value => *items));
            assert(decreases_to!(*items => items@[i as int]));
        }
        let q = match Query::from_json(&items[i]) {
            Ok(q) => q,
            Err(e) => {
                return Err(e);
            }
        };
        let ghost preqs = queries@;
        queries.push(q);
        proof {
            broadcast use crate::value::group_value_views;

            lemma_queries_parse_frame(itemsv, preqs, queries@, i as int);
            assert(itemsv[i as int] == items@[i as int]@);
            assert(queries_parse_to(itemsv, queries@, i + 1));
        }
        i = i + 1;
    }
    if crate::value::str_eq(op, "$and") {
        Ok(QueryOperator::And(queries))
    } else if crate::value::str_eq(op, "$or") {
        Ok(QueryOperator::Or(queries))
    } else {
        Ok(QueryOperator::Nor(queries))
    }
}

/// Parse a field condition: a plain scalar is an equality; an operator
/// object carries one comparison, membership, negation, existence or
/// pattern operator (only the first entry counts); an empty operator
/// object is an equality on the object itself.
fn parse_operator(value: &Value) -> (r: Result<QueryOperator, MongoLiteError>)
    ensures
        r matches Err(e) ==> e is InvalidQuery,
        !(value@ is Object) ==> r is Ok,
        r matches Ok(o) ==> op_parses_to(value@, o),
    decreases value, 1int,
{
    let conds = match value {
        Value::String(_) => {
            return Ok(QueryOperator::Eq(value.clone()));
        }
        Value::Int(_) => {
            return Ok(QueryOperator::Eq(value.clone()));
        }
        Value::Float(_) => {
            return Ok(QueryOperator::Eq(value.clone()));
        }
        Value::Bool(_) => {
            return Ok(QueryOperator::Eq(value.clone()));
        }
        Value::Object(conds) => conds,
        _ => {
            return Ok(QueryOperator::Eq(value.clone()));
        }
    };
    if conds.len() == 0 {
        return Ok(QueryOperator::Eq(value.clone()));
    }
    let opname = &conds[0].0;
    let val = &conds[0].1;
    proof {
        assert(decreases_to!(*value => *conds));
        assert(decreases_to!(*conds => conds@[0]));
        assert(decreases_to!(conds@[0] => conds@[0].1));
        broadcast use crate::value::group_value_views;

        let cv = crate::value::fields_view(conds@, conds@.len() as int);
        assert(value@ == ValueV::Object(cv));
        assert(cv.len() == conds@.len());
        assert(cv[0] == (conds@[0].0@, conds@[0].1@));
    }
    if crate::value::str_eq(opname.as_str(), "$eq") {
        Ok(QueryOperator::Eq(val.clone()))
    } else if crate::value::str_eq(opname.as_str(), "$ne") {
        Ok(QueryOperator::Ne(val.clone()))
    } else if crate::value::str_eq(opname.as_str(), "$gt") {
        Ok(QueryOperator::Gt(val.clone()))
    } else if crate::value::str_eq(opname.as_str(), "$gte") {
        Ok(QueryOperator::Gte(val.clone()))
    } else if crate::value::str_eq(opname.as_str(), "$lt") {
        Ok(QueryOperator::Lt(val.clone()))
    } else if crate::value::str_eq(opname.as_str(), "$lte") {
        Ok(QueryOperator::Lte(val.clone()))
    } else if crate::value::str_eq(opname.as_str(), "$in") {
        match val {
            Value::Array(items) => {
                let ghost itemsv = crate::value::values_view(items@, items@.len() as int);
                proof {
                    broadcast use crate::value::group_value_views;

                    assert(val@ == ValueV::Array(itemsv));
                    assert(itemsv.len() == items@.len());
                }
                let mut targets: Vec<Value> = Vec::new();
                let mut i: usize = 0;
                while i < items.len()
                    invariant
                        i <= items@.len(),
                        itemsv == crate::value::values_view(items@, items@.len() as int),
                        itemsv.len() == items@.len(),
                        targets@.len() == i,
                        forall|k: int| 0 <= k < i ==> (#[trigger] targets@[k])@ == itemsv[k],
                    decreases items@.len() - i,
                {
                    proof {
                        broadcast use crate::value::group_value_views;

                        assert(itemsv[i as int] == items@[i as int]@);
                    }
                    targets.push(items[i].clone());
                    i = i + 1;
                }
                proof {
                    assert(Seq::new(targets@.len(), |k: int| targets@[k]@) =~= itemsv);
                }
                Ok(QueryOperator::In(targets))
            }
            _ => Err(MongoLiteError::InvalidQuery(String::new())),
        }
    } else if crate::value::str_eq(opname.as_str(), "$nin") {
        match val {
            Value::Array(items) => {
                let ghost itemsv = crate::value::values_view(items@, items@.len() as int);
                proof {
                    broadcast use crate::value::group_value_views;

                    assert(val@ == ValueV::Array(itemsv));
                    assert(itemsv.len() == items@.len());
                }
                let mut targets: Vec<Value> = Vec::new();
                let mut i: usize = 0;
                while i < items.len()
                    invariant
                        i <= items@.len(),
                        itemsv == crate::value::values_view(items@, items@.len() as int),
                        itemsv.len() == items@.len(),
                        targets@.len() == i,
                        forall|k: int| 0 <= k < i ==> (#[trigger] targets@[k])@ == itemsv[k],
                    decreases items@.len() - i,
                {
                    proof {
                        broadcast use crate::value::group_value_views;

                        assert(itemsv[i as int] == items@[i as int]@);
                    }
                    targets.push(items[i].clone());
                    i = i + 1;
                }
                proof {
                    assert(Seq::new(targets@.len(), |k: int| targets@[k]@) =~= itemsv);
                }
                Ok(QueryOperator::Nin(targets))
            }
            _ => Err(MongoLiteError::InvalidQuery(String::new())),
        }
    } else if crate::value::str_eq(opname.as_str(), "$not") {
        let inner = match parse_operator(val) {
            Ok(op) => op,
            Err(e) => {
                return Err(e);
            }
        };
        let mut conditions: Vec<(String, QueryOperator)> = Vec::new();
        conditions.push((String::from_str("_field_"), inner));
        Ok(QueryOperator::Not(Box::new(Query { conditions })))
    } else if crate::value::str_eq(opname.as_str(), "$exists") {
        match val {
            Value::Bool(b) => Ok(QueryOperator::Exists(*b)),
            _ => Err(MongoLiteError::InvalidQuery(String::new())),
        }
    } else if crate::value::str_eq(opname.as_str(), "$regex") {
        match val {
            Value::String(s) => Ok(QueryOperator::Regex(s.clone())),
            _ => Err(MongoLiteError::InvalidQuery(String::new())),
        }
    } else {
        Err(MongoLiteError::InvalidQuery(String::new()))
    }
}

} // verus!
