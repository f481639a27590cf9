//! Options for reads: projection, sort, limit and skip, applied to the
//! documents a query matched.

use vstd::prelude::*;

use crate::value::{obj_field, Value, ValueV};

verus! {

broadcast use vstd::std_specs::vec::group_vec_axioms;

/// Options for a read.
#[derive(Debug)]
pub struct FindOptions {
    /// Field name mapped to 1 (include) or 0 (exclude); `_id` may be
    /// excluded even in include mode.
    pub projection: Option<Vec<(String, i32)>>,
    /// Sort directions per field: 1 ascending, -1 descending.
    pub sort: Option<Vec<(String, i32)>>,
    /// Greatest number of documents to return.
    pub limit: Option<usize>,
    /// Number of documents to pass over first.
    pub skip: Option<usize>,
}

impl FindOptions {
    /// No projection, no sort, no limit, no skip.
    pub fn new() -> (r: FindOptions)
        ensures
            r.projection is None,
            r.sort is None,
            r.limit is None,
            r.skip is None,
    {
        FindOptions { projection: None, sort: None, limit: None, skip: None }
    }

    /// With the given projection.
    pub fn with_projection(self, projection: Vec<(String, i32)>) -> (r: FindOptions)
        ensures
            r.projection matches Some(p) && p@ == projection@,
            r.sort == self.sort,
            r.limit == self.limit,
            r.skip == self.skip,
    {
        FindOptions { projection: Some(projection), ..self }
    }

    /// With the given sort.
    pub fn with_sort(self, sort: Vec<(String, i32)>) -> (r: FindOptions)
        ensures
            r.sort matches Some(s) && s@ == sort@,
            r.projection == self.projection,
            r.limit == self.limit,
            r.skip == self.skip,
    {
        FindOptions { sort: Some(sort), ..self }
    }

    /// With the given limit.
    pub fn with_limit(self, limit: usize) -> (r: FindOptions)
        ensures
            r.limit == Some(limit),
            r.projection == self.projection,
            r.sort == self.sort,
            r.skip == self.skip,
    {
        FindOptions { limit: Some(limit), ..self }
    }

    /// With the given skip.
    pub fn with_skip(self, skip: usize) -> (r: FindOptions)
        ensures
            r.skip == Some(skip),
            r.projection == self.projection,
            r.sort == self.sort,
            r.limit == self.limit,
    {
        FindOptions { skip: Some(skip), ..self }
    }
}

/// The window `[skip, skip + limit)` of a run of documents.
pub open spec fn spec_limit_skip(docs: Seq<Value>, limit: Option<usize>, skip: Option<usize>) -> Seq<
    Value,
> {
    let s = match skip {
        Some(s) => s as int,
        None => 0,
    };
    if s >= docs.len() {
        Seq::empty()
    } else {
        let e = match limit {
            Some(l) => if s + l <= docs.len() {
                s + l
            } else {
                docs.len() as int
            },
            None => docs.len() as int,
        };
        docs.subrange(s, e)
    }
}

/// Pass over the first `skip` documents and keep at most `limit`.
pub fn apply_limit_skip(docs: Vec<Value>, limit: Option<usize>, skip: Option<usize>) -> (r: Vec<
    Value,
>)
    ensures
        r@ == spec_limit_skip(docs@, limit, skip),
{
    let ghost orig = docs@;
    let skip_count: usize = match skip {
        Some(s) => s,
        None => 0,
    };
    if skip_count >= docs.len() {
        let empty: Vec<Value> = Vec::new();
        return empty;
    }
    let mut docs = docs;
    let mut rest = docs.split_off(skip_count);
    match limit {
        Some(l) => {
            if l < rest.len() {
                rest.truncate(l);
            }
        }
        None => {}
    }
    proof {
        assert(rest@ =~= spec_limit_skip(orig, limit, skip));
    }
    rest
}

/// The projection keeps some fields; the rest of the projection semantics
/// follow the usual include/exclude split.
pub open spec fn proj_lookup(projection: Seq<(String, i32)>, name: Seq<char>) -> Option<i32>
    decreases projection.len(),
{
    if projection.len() == 0 {
        None
    } else if projection[0].0@ == name {
        Some(projection[0].1)
    } else {
        proj_lookup(projection.drop_first(), name)
    }
}

/// Whether any field is included (projection mode is include).
pub open spec fn proj_has_include(projection: Seq<(String, i32)>) -> bool {
    exists|i: int| 0 <= i < projection.len() && (#[trigger] projection[i]).1 == 1
}

/// Whether any field other than `_id` is excluded.
pub open spec fn proj_has_exclude(projection: Seq<(String, i32)>) -> bool {
    exists|i: int| 0 <= i < projection.len() && (#[trigger] projection[i]).1 == 0 && projection[i].0@
        != "_id"@
}

impl FindOptions {
    /// Look up a field's projection action.
    fn lookup(projection: &Vec<(String, i32)>, name: &str) -> (r: Option<i32>)
        ensures
            r == proj_lookup(projection@, name@),
    {
        proof {
            assert(projection@.subrange(0, projection@.len() as int) =~= projection@);
        }
        let mut i: usize = 0;
        while i < projection.len()
            invariant
                i <= projection@.len(),
                proj_lookup(projection@, name@) == proj_lookup(
                    projection@.subrange(i as int, projection@.len() as int),
                    name@,
                ),
            decreases projection@.len() - i,
        {
            proof {
                let sub = projection@.subrange(i as int, projection@.len() as int);
                assert(sub[0] == projection@[i as int]);
                assert(sub.drop_first() =~= projection@.subrange(
                    i + 1,
                    projection@.len() as int,
                ));
            }
            if crate::value::str_eq(projection[i].0.as_str(), name) {
                return Some(projection[i].1);
            }
            i = i + 1;
        }
        proof {
            assert(projection@.subrange(
                projection@.len() as int,
                projection@.len() as int,
            ) =~= Seq::<(String, i32)>::empty());
        }
        None
    }
}

/// Keep or drop each field of `doc` by the projection: in include mode the
/// named fields (and `_id` unless excluded), in exclude mode everything but
/// the excluded fields. Non-objects come back unchanged.
pub fn apply_projection(doc: &Value, projection: &Vec<(String, i32)>) -> (r: Value)
    ensures
        projection@.len() == 0 ==> r@ == doc@,
        !(doc@ is Object) ==> r@ == doc@,
{
    if projection.len() == 0 {
        return doc.clone();
    }
    let fields = match doc {
        Value::Object(fields) => fields,
        _ => {
            return doc.clone();
        }
    };
    // detect the mode
    let mut has_include = false;
    let mut has_exclude = false;
    let mut i: usize = 0;
    while i < projection.len()
        invariant
            i <= projection@.len(),
        decreases projection@.len() - i,
    {
        if projection[i].1 == 1 {
            has_include = true;
        }
        if projection[i].1 == 0 && !crate::value::str_eq(projection[i].0.as_str(), "_id") {
            has_exclude = true;
        }
        i = i + 1;
    }
    let include_mode = has_include && !has_exclude;
    let mut out: Vec<(String, Value)> = Vec::new();
    let mut j: usize = 0;
    while j < fields.len()
        invariant
            j <= fields@.len(),
        decreases fields@.len() - j,
    {
        let name = &fields[j].0;
        let action = FindOptions::lookup(projection, name.as_str());
        let keep: bool = if include_mode {
            match action {
                Some(1i32) => true,
                _ => crate::value::str_eq(name.as_str(), "_id") && !(action == Some(0i32)),
            }
        } else {
            !(action == Some(0i32))
        };
        if keep {
            out.push((fields[j].0.clone(), fields[j].1.clone()));
        }
        j = j + 1;
    }
    Value::Object(out)
}

/// Comparison used by sort: absent fields sort lowest; values of the same
/// kind compare in their natural order; across kinds, the kind decides.
pub open spec fn doc_cmp(a: Option<ValueV>, b: Option<ValueV>) -> int {
    match (a, b) {
        (Option::None, Option::None) => 0,
        (Option::None, Option::Some(_)) => -1,
        (Option::Some(_), Option::None) => 1,
        (Option::Some(x), Option::Some(y)) => value_cmp(x, y),
    }
}

/// Order on values used by sort: null, booleans, integers, doubles,
/// strings, then arrays and objects (these compare equal among themselves).
pub open spec fn value_cmp(x: ValueV, y: ValueV) -> int {
    match (x, y) {
        (ValueV::Array(_), ValueV::Array(_)) => 0,
        (ValueV::Object(_), ValueV::Object(_)) => 0,
        (ValueV::Array(_), ValueV::Object(_)) => 0,
        (ValueV::Object(_), ValueV::Array(_)) => 0,
        (ValueV::Array(_), _) => 1,
        (ValueV::Object(_), _) => 1,
        (_, ValueV::Array(_)) => -1,
        (_, ValueV::Object(_)) => -1,
        _ => crate::key::key_cmp(
            crate::key::key_of_value(x),
            crate::key::key_of_value(y),
        ),
    }
}

/// Compare two documents on one field.
fn cmp_on_field(a: &Value, b: &Value, field: &str) -> (r: i8)
    ensures
        r as int == doc_cmp(
            crate::value::value_field(a@, field@),
            crate::value::value_field(b@, field@),
        ),
        -1 <= r <= 1,
{
    let av = a.get_field(field);
    let bv = b.get_field(field);
    match (av, bv) {
        (Option::None, Option::None) => 0,
        (Option::None, Option::Some(_)) => -1,
        (Option::Some(_), Option::None) => 1,
        (Option::Some(x), Option::Some(y)) => {
            let xa = matches!(x, Value::Array(_)) || matches!(x, Value::Object(_));
            let ya = matches!(y, Value::Array(_)) || matches!(y, Value::Object(_));
            if xa && ya {
                0
            } else if xa {
                1
            } else if ya {
                -1
            } else {
                let kx = crate::key::IndexKey::from_value(x);
                let ky = crate::key::IndexKey::from_value(y);
                kx.cmp_key(&ky)
            }
        }
    }
}

/// Sort documents by the given fields and directions (1 ascending, -1
/// descending), by insertion: every document kept.
pub fn apply_sort(docs: Vec<Value>, sort: &Vec<(String, i32)>) -> (r: Vec<Value>)
    ensures
        r@.len() == docs@.len(),
        r@.to_multiset() == docs@.to_multiset(),
{
    let ghost orig = docs@;
    let mut docs = docs;
    let mut out: Vec<Value> = Vec::new();
    proof {
        broadcast use vstd::seq_lib::group_to_multiset_ensures;
    }
    while docs.len() > 0
        invariant
            out@.len() + docs@.len() == orig.len(),
            out@.to_multiset().add(docs@.to_multiset()) == orig.to_multiset(),
        decreases docs@.len(),
    {
        proof {
            broadcast use vstd::seq_lib::group_to_multiset_ensures;
        }
        let ghost predocs = docs@;
        let doc = docs.remove(0);
        let ghost dv = doc;
        proof {
            assert(predocs =~= seq![dv] + docs@);
            vstd::seq_lib::lemma_multiset_commutative(seq![dv], docs@);
        }
        // find the insertion position: after every document at or below it
        let mut pos: usize = 0;
        while pos < out.len()
            invariant
                pos <= out@.len(),
            decreases out@.len() - pos,
        {
            let mut c: i8 = 0;
            let mut f: usize = 0;
            while f < sort.len()
                invariant
                    f <= sort@.len(),
                    -1 <= c <= 1,
                    pos < out@.len(),
                decreases sort@.len() - f,
            {
                let cf = cmp_on_field(&out[pos], &doc, sort[f].0.as_str());
                let dir = sort[f].1;
                let adjusted: i8 = if dir == -1 {
                    -cf
                } else {
                    cf
                };
                if adjusted != 0 {
                    c = adjusted;
                    break;
                }
                f = f + 1;
            }
            if c > 0 {
                break;
            }
            pos = pos + 1;
        }
        let ghost oldout = out@;
        out.insert(pos, doc);
        proof {
            broadcast use vstd::seq_lib::group_to_multiset_ensures;

            assert(out@ =~= oldout.subrange(0, pos as int).push(dv) + oldout.subrange(
                pos as int,
                oldout.len() as int,
            ));
            lemma_multiset_insert(oldout, dv, pos as int);
            assert(out@.to_multiset() =~= oldout.to_multiset().insert(dv));
            assert(out@.to_multiset().add(docs@.to_multiset()) =~= orig.to_multiset());
        }
    }
    proof {
        broadcast use vstd::seq_lib::group_to_multiset_ensures;

        assert(docs@ =~= Seq::<Value>::empty());
        assert(out@.to_multiset().add(docs@.to_multiset()) =~= out@.to_multiset());
    }
    out
}

/// Inserting an element anywhere adds it to the multiset.
proof fn lemma_multiset_insert(s: Seq<Value>, v: Value, pos: int)
    requires
        0 <= pos <= s.len(),
    ensures
        (s.subrange(0, pos).push(v) + s.subrange(pos, s.len() as int)).to_multiset()
            == s.to_multiset().insert(v),
{
    broadcast use vstd::seq_lib::group_to_multiset_ensures;

    let a = s.subrange(0, pos);
    let b = s.subrange(pos, s.len() as int);
    vstd::seq_lib::lemma_multiset_commutative(a.push(v), b);
    vstd::seq_lib::lemma_multiset_commutative(a, b);
    assert(a.push(v).to_multiset() == a.to_multiset().insert(v));
    assert(s =~= a + b);
    assert((a.push(v) + b).to_multiset() =~= s.to_multiset().insert(v));
}

} // verus!
