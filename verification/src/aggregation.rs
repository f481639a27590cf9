//! The aggregation pipeline boundary: stages parsed from a stage list and
//! executed over an in-memory run of documents supplied by the core.
//! Averages need floating-point arithmetic and are computed by the
//! embedding; every other accumulator runs here.

use vstd::prelude::*;

use crate::error::MongoLiteError;
use crate::query::Query;
use crate::value::{Document, Value, ValueV};

verus! {

broadcast use vstd::std_specs::vec::group_vec_axioms;

/// A parsed pipeline.
#[derive(Debug)]
pub struct Pipeline {
    pub stages: Vec<Stage>,
}

/// One pipeline stage.
#[derive(Debug)]
pub enum Stage {
    Match(MatchStage),
    Project(ProjectStage),
    Group(GroupStage),
    Sort(SortStage),
    Limit(LimitStage),
    Skip(SkipStage),
}

/// Keep the documents a predicate accepts.
#[derive(Debug)]
pub struct MatchStage {
    pub query: Query,
}

/// Reshape each document.
#[derive(Debug)]
pub struct ProjectStage {
    pub fields: Vec<(String, ProjectField)>,
}

/// What a projection does with one field.
#[derive(Debug)]
pub enum ProjectField {
    Include,
    Exclude,
    /// Take the value from another field.
    Rename(String),
}

/// Group documents and fold each group.
#[derive(Debug)]
pub struct GroupStage {
    pub id: GroupId,
    pub accumulators: Vec<(String, Accumulator)>,
}

/// What groups by: one field, or everything in one group.
#[derive(Debug)]
pub enum GroupId {
    Field(String),
    Null,
}

/// A fold over one group.
#[derive(Debug)]
pub enum Accumulator {
    Sum(SumExpression),
    /// Averages need floating-point division; the embedding computes them.
    Avg(String),
    Min(String),
    Max(String),
    First(String),
    Last(String),
    Count,
}

/// What a `$sum` adds per document.
#[derive(Debug)]
pub enum SumExpression {
    Constant(i64),
    Field(String),
}

/// Order documents by fields.
#[derive(Debug)]
pub struct SortStage {
    pub fields: Vec<(String, SortDirection)>,
}

/// A sort direction.
#[derive(Debug, Clone, Copy, PartialEq, Eq, Structural)]
pub enum SortDirection {
    Ascending,
    Descending,
}

/// Keep at most so many documents.
#[derive(Debug)]
pub struct LimitStage {
    pub limit: usize,
}

/// Pass over so many documents.
#[derive(Debug)]
pub struct SkipStage {
    pub skip: usize,
}

impl Pipeline {
    /// Parse a pipeline: a non-empty array of single-operator stages.
    pub fn from_json(pipeline_json: &Value) -> (r: Result<Pipeline, MongoLiteError>)
        ensures
            r matches Err(e) ==> e is AggregationError || e is InvalidQuery,
    {
        let items = match pipeline_json {
            Value::Array(items) => items,
            _ => {
                return Err(MongoLiteError::AggregationError(String::new()));
            }
        };
        if items.len() == 0 {
            return Err(MongoLiteError::AggregationError(String::new()));
        }
        let mut stages: Vec<Stage> = Vec::new();
        let mut i: usize = 0;
        while i < items.len()
            invariant
                i <= items@.len(),
            decreases items@.len() - i,
        {
            let stage = match Stage::from_json(&items[i]) {
                Ok(s) => s,
                Err(e) => {
                    return Err(e);
                }
            };
            stages.push(stage);
            i = i + 1;
        }
        Ok(Pipeline { stages })
    }

    /// Run every stage in order.
    pub fn execute(&self, docs: Vec<Value>) -> (r: Result<Vec<Value>, MongoLiteError>)
        ensures
            r matches Err(e) ==> e is AggregationError,
    {
        let mut docs = docs;
        let mut i: usize = 0;
        while i < self.stages.len()
            invariant
                i <= self.stages@.len(),
            decreases self.stages@.len() - i,
        {
            docs = match self.stages[i].execute(docs) {
                Ok(d) => d,
                Err(e) => {
                    return Err(e);
                }
            };
            i = i + 1;
        }
        Ok(docs)
    }
}

impl Stage {
    /// Parse one stage: an object with exactly one stage operator.
    pub fn from_json(stage_json: &Value) -> (r: Result<Stage, MongoLiteError>)
        ensures
            r matches Err(e) ==> e is AggregationError || e is InvalidQuery,
    {
        let fields = match stage_json {
            Value::Object(fields) => fields,
            _ => {
                return Err(MongoLiteError::AggregationError(String::new()));
            }
        };
        if fields.len() != 1 {
            return Err(MongoLiteError::AggregationError(String::new()));
        }
        let name = &fields[0].0;
        let spec = &fields[0].1;
        if crate::value::str_eq(name.as_str(), "$match") {
            match Query::from_json(spec) {
                Ok(query) => Ok(Stage::Match(MatchStage { query })),
                Err(e) => Err(e),
            }
        } else if crate::value::str_eq(name.as_str(), "$project") {
            match ProjectStage::from_json(spec) {
                Ok(s) => Ok(Stage::Project(s)),
                Err(e) => Err(e),
            }
        } else if crate::value::str_eq(name.as_str(), "$group") {
            match GroupStage::from_json(spec) {
                Ok(s) => Ok(Stage::Group(s)),
                Err(e) => Err(e),
            }
        } else if crate::value::str_eq(name.as_str(), "$sort") {
            match SortStage::from_json(spec) {
                Ok(s) => Ok(Stage::Sort(s)),
                Err(e) => Err(e),
            }
        } else if crate::value::str_eq(name.as_str(), "$limit") {
            match LimitStage::from_json(spec) {
                Ok(s) => Ok(Stage::Limit(s)),
                Err(e) => Err(e),
            }
        } else if crate::value::str_eq(name.as_str(), "$skip") {
            match SkipStage::from_json(spec) {
                Ok(s) => Ok(Stage::Skip(s)),
                Err(e) => Err(e),
            }
        } else {
            Err(MongoLiteError::AggregationError(String::new()))
        }
    }

    /// Run one stage.
    pub fn execute(&self, docs: Vec<Value>) -> (r: Result<Vec<Value>, MongoLiteError>)
        ensures
            r matches Err(e) ==> e is AggregationError,
    {
        match self {
            Stage::Match(s) => Ok(s.execute(docs)),
            Stage::Project(s) => Ok(s.execute(docs)),
            Stage::Group(s) => s.execute(docs),
            Stage::Sort(s) => Ok(s.execute(docs)),
            Stage::Limit(s) => Ok(s.execute(docs)),
            Stage::Skip(s) => Ok(s.execute(docs)),
        }
    }
}

/// The document form of a value, as the matcher sees it: object fields
/// except `_id`, which is carried apart.
/// The document the matcher sees for a stored value: the id carried
/// apart, the remaining fields as they stand.
pub fn to_document(v: &Value) -> (r: Document)
    ensures
        crate::value::fields_view(r.fields@, r.fields@.len() as int) == crate::query::match_fields(
            v@,
        ),
{
    let id = match v.get_field("_id") {
        Some(idv) => match idv {
            Value::Int(i) => crate::value::DocumentId::Int(*i),
            Value::String(s) => crate::value::DocumentId::String(s.clone()),
            _ => crate::value::DocumentId::Int(0),
        },
        None => crate::value::DocumentId::Int(0),
    };
    let mut fields: Vec<(String, Value)> = Vec::new();
    match v {
        Value::Object(obj) => {
            let ghost vv = crate::value::fields_view(obj@, obj@.len() as int);
            proof {
                broadcast use crate::value::group_value_views;

                reveal(Seq::filter);
                assert(v@ == ValueV::Object(vv));
                assert(vv.subrange(0, 0) =~= Seq::<(Seq<char>, ValueV)>::empty());
                assert(crate::value::fields_view(fields@, fields@.len() as int)
                    =~= vv.subrange(0, 0).filter(|p: (Seq<char>, ValueV)| p.0 != "_id"@));
            }
            let mut i: usize = 0;
            while i < obj.len()
                invariant
                    i <= obj@.len(),
                    vv == crate::value::fields_view(obj@, obj@.len() as int),
                    vv.len() == obj@.len(),
                    crate::value::fields_view(fields@, fields@.len() as int) == vv.subrange(
                        0,
                        i as int,
                    ).filter(|p: (Seq<char>, ValueV)| p.0 != "_id"@),
                decreases obj@.len() - i,
            {
                let ghost pre = vv.subrange(0, i as int);
                let ghost cur = vv.subrange(0, i + 1);
                proof {
                    broadcast use crate::value::group_value_views;

                    reveal(Seq::filter);
                    assert(cur.drop_last() =~= pre);
                    assert(cur.last() == vv[i as int]);
                    assert(vv[i as int] == (obj@[i as int].0@, obj@[i as int].1@));
                }
                if !crate::value::str_eq(obj[i].0.as_str(), "_id") {
                    let ghost prefields = fields@;
                    fields.push((obj[i].0.clone(), obj[i].1.clone()));
                    proof {
                        broadcast use crate::value::group_value_views;

                        reveal(Seq::filter);
                        assert(crate::value::fields_view(fields@, fields@.len() as int)
                            =~= crate::value::fields_view(
                            prefields,
                            prefields.len() as int,
                        ).push(vv[i as int]));
                    }
                }
                i = i + 1;
            }
            proof {
                assert(vv.subrange(0, vv.len() as int) =~= vv);
            }
        }
        _ => {
            proof {
                broadcast use crate::value::group_value_views;

                assert(crate::value::fields_view(fields@, fields@.len() as int)
                    =~= Seq::<(Seq<char>, ValueV)>::empty());
            }
        }
    }
    Document::new(id, fields)
}

impl MatchStage {
    /// Keep the documents the predicate accepts, in input order.
    pub fn execute(&self, docs: Vec<Value>) -> (r: Vec<Value>)
        ensures
            r@.len() <= docs@.len(),
    {
        let mut docs = docs;
        let mut out: Vec<Value> = Vec::new();
        let ghost orig = docs@;
        while docs.len() > 0
            invariant
                out@.len() + docs@.len() <= orig.len(),
            decreases docs@.len(),
        {
            let doc = docs.remove(0);
            let d = to_document(&doc);
            if self.query.matches(&d) {
                out.push(doc);
            }
        }
        out
    }
}

impl ProjectStage {
    /// Parse a projection: each field maps to 0, 1 or a source reference.
    pub fn from_json(spec: &Value) -> (r: Result<ProjectStage, MongoLiteError>)
        ensures
            r matches Err(e) ==> e is AggregationError,
    {
        let obj = match spec {
            Value::Object(obj) => obj,
            _ => {
                return Err(MongoLiteError::AggregationError(String::new()));
            }
        };
        let mut fields: Vec<(String, ProjectField)> = Vec::new();
        let mut i: usize = 0;
        while i < obj.len()
            invariant
                i <= obj@.len(),
            decreases obj@.len() - i,
        {
            let action = match &obj[i].1 {
                Value::Int(n) => {
                    if *n == 1 {
                        ProjectField::Include
                    } else if *n == 0 {
                        ProjectField::Exclude
                    } else {
                        return Err(MongoLiteError::AggregationError(String::new()));
                    }
                }
                Value::String(s) => {
                    if crate::planner::starts_with_marker(s.as_str()) {
                        ProjectField::Rename(s.clone())
                    } else {
                        return Err(MongoLiteError::AggregationError(String::new()));
                    }
                }
                _ => {
                    return Err(MongoLiteError::AggregationError(String::new()));
                }
            };
            fields.push((obj[i].0.clone(), action));
            i = i + 1;
        }
        Ok(ProjectStage { fields })
    }

    /// Reshape every document; one output per input.
    pub fn execute(&self, docs: Vec<Value>) -> (r: Vec<Value>)
        ensures
            r@.len() == docs@.len(),
    {
        let mut out: Vec<Value> = Vec::new();
        let mut i: usize = 0;
        while i < docs.len()
            invariant
                i <= docs@.len(),
                out@.len() == i,
            decreases docs@.len() - i,
        {
            out.push(self.project_document(&docs[i]));
            i = i + 1;
        }
        out
    }

    /// Reshape one document: in include mode keep the named and renamed
    /// fields; in exclude mode keep everything except the excluded fields
    /// and add the renames.
    pub fn project_document(&self, doc: &Value) -> (r: Value) {
        let obj = match doc {
            Value::Object(obj) => obj,
            _ => {
                return Value::Object(Vec::new());
            }
        };
        // mode detection
        let mut has_include = false;
        let mut has_exclude = false;
        let mut i: usize = 0;
        while i < self.fields.len()
            invariant
                i <= self.fields@.len(),
            decreases self.fields@.len() - i,
        {
            match &self.fields[i].1 {
                ProjectField::Include => {
                    has_include = true;
                }
                ProjectField::Rename(_) => {
                    has_include = true;
                }
                ProjectField::Exclude => {
                    if !crate::value::str_eq(self.fields[i].0.as_str(), "_id") {
                        has_exclude = true;
                    }
                }
            }
            i = i + 1;
        }
        let include_mode = has_include && !has_exclude;
        let mut out: Vec<(String, Value)> = Vec::new();
        if include_mode {
            let mut f: usize = 0;
            while f < self.fields.len()
                invariant
                    f <= self.fields@.len(),
                decreases self.fields@.len() - f,
            {
                match &self.fields[f].1 {
                    ProjectField::Include => {
                        match get_object_field(obj, self.fields[f].0.as_str()) {
                            Some(v) => {
                                out.push((self.fields[f].0.clone(), v.clone()));
                            }
                            None => {}
                        }
                    }
                    ProjectField::Rename(source) => {
                        match get_renamed(obj, source.as_str()) {
                            Some(v) => {
                                out.push((self.fields[f].0.clone(), v.clone()));
                            }
                            None => {}
                        }
                    }
                    ProjectField::Exclude => {}
                }
                f = f + 1;
            }
        } else {
            let mut j: usize = 0;
            while j < obj.len()
                invariant
                    j <= obj@.len(),
                decreases obj@.len() - j,
            {
                let mut excluded = false;
                let mut f: usize = 0;
                while f < self.fields.len()
                    invariant
                        f <= self.fields@.len(),
                        j < obj@.len(),
                    decreases self.fields@.len() - f,
                {
                    if crate::value::str_eq(self.fields[f].0.as_str(), obj[j].0.as_str()) {
                        match &self.fields[f].1 {
                            ProjectField::Exclude => {
                                excluded = true;
                            }
                            _ => {}
                        }
                    }
                    f = f + 1;
                }
                if !excluded {
                    out.push((obj[j].0.clone(), obj[j].1.clone()));
                }
                j = j + 1;
            }
            let mut f2: usize = 0;
            while f2 < self.fields.len()
                invariant
                    f2 <= self.fields@.len(),
                decreases self.fields@.len() - f2,
            {
                match &self.fields[f2].1 {
                    ProjectField::Rename(source) => {
                        match get_renamed(obj, source.as_str()) {
                            Some(v) => {
                                out.push((self.fields[f2].0.clone(), v.clone()));
                            }
                            None => {}
                        }
                    }
                    _ => {}
                }
                f2 = f2 + 1;
            }
        }
        Value::Object(out)
    }
}

/// First-match lookup among object fields.
fn get_object_field<'a>(obj: &'a Vec<(String, Value)>, name: &str) -> (r: Option<&'a Value>) {
    let mut i: usize = 0;
    while i < obj.len()
        invariant
            i <= obj@.len(),
        decreases obj@.len() - i,
    {
        if crate::value::str_eq(obj[i].0.as_str(), name) {
            return Some(&obj[i].1);
        }
        i = i + 1;
    }
    None
}

/// Lookup through a `$source` reference: the marker is dropped.
fn get_renamed<'a>(obj: &'a Vec<(String, Value)>, source: &str) -> (r: Option<&'a Value>) {
    let bs = source.as_bytes();
    if bs.len() == 0 {
        return None;
    }
    let mut i: usize = 0;
    while i < obj.len()
        invariant
            i <= obj@.len(),
        decreases obj@.len() - i,
    {
        // compare the field name with the reference without its marker
        let fname = obj[i].0.as_str().as_bytes();
        if bs.len() >= 1 && fname.len() == bs.len() - 1 {
            let tail = vstd::slice::slice_subrange(bs, 1, bs.len());
            if crate::value::bytes_eq(fname, tail) {
                return Some(&obj[i].1);
            }
        }
        i = i + 1;
    }
    None
}

impl SortStage {
    /// Parse a sort: each field maps to 1 or -1.
    pub fn from_json(spec: &Value) -> (r: Result<SortStage, MongoLiteError>)
        ensures
            r matches Err(e) ==> e is AggregationError,
    {
        let obj = match spec {
            Value::Object(obj) => obj,
            _ => {
                return Err(MongoLiteError::AggregationError(String::new()));
            }
        };
        let mut fields: Vec<(String, SortDirection)> = Vec::new();
        let mut i: usize = 0;
        while i < obj.len()
            invariant
                i <= obj@.len(),
            decreases obj@.len() - i,
        {
            let dir = match &obj[i].1 {
                Value::Int(n) => {
                    if *n == 1 {
                        SortDirection::Ascending
                    } else if *n == -1 {
                        SortDirection::Descending
                    } else {
                        return Err(MongoLiteError::AggregationError(String::new()));
                    }
                }
                _ => {
                    return Err(MongoLiteError::AggregationError(String::new()));
                }
            };
            fields.push((obj[i].0.clone(), dir));
            i = i + 1;
        }
        Ok(SortStage { fields })
    }

    /// Order the documents; every document kept.
    pub fn execute(&self, docs: Vec<Value>) -> (r: Vec<Value>)
        ensures
            r@.len() == docs@.len(),
            r@.to_multiset() == docs@.to_multiset(),
    {
        let mut dirs: Vec<(String, i32)> = Vec::new();
        let mut i: usize = 0;
        while i < self.fields.len()
            invariant
                i <= self.fields@.len(),
            decreases self.fields@.len() - i,
        {
            let d: i32 = if self.fields[i].1 == SortDirection::Ascending {
                1
            } else {
                -1
            };
            dirs.push((self.fields[i].0.clone(), d));
            i = i + 1;
        }
        crate::find_options::apply_sort(docs, &dirs)
    }
}

impl LimitStage {
    /// Parse a limit: a non-negative count.
    pub fn from_json(spec: &Value) -> (r: Result<LimitStage, MongoLiteError>)
        ensures
            r matches Err(e) ==> e is AggregationError,
    {
        match spec {
            Value::Int(n) => {
                if *n >= 0 && *n <= usize::MAX as i64 {
                    Ok(LimitStage { limit: *n as usize })
                } else {
                    Err(MongoLiteError::AggregationError(String::new()))
                }
            }
            _ => Err(MongoLiteError::AggregationError(String::new())),
        }
    }

    /// Keep the first `limit` documents.
    pub fn execute(&self, docs: Vec<Value>) -> (r: Vec<Value>)
        ensures
            r@ == crate::find_options::spec_limit_skip(docs@, Some(self.limit), None),
    {
        crate::find_options::apply_limit_skip(docs, Some(self.limit), None)
    }
}

impl SkipStage {
    /// Parse a skip: a non-negative count.
    pub fn from_json(spec: &Value) -> (r: Result<SkipStage, MongoLiteError>)
        ensures
            r matches Err(e) ==> e is AggregationError,
    {
        match spec {
            Value::Int(n) => {
                if *n >= 0 && *n <= usize::MAX as i64 {
                    Ok(SkipStage { skip: *n as usize })
                } else {
                    Err(MongoLiteError::AggregationError(String::new()))
                }
            }
            _ => Err(MongoLiteError::AggregationError(String::new())),
        }
    }

    /// Pass over the first `skip` documents.
    pub fn execute(&self, docs: Vec<Value>) -> (r: Vec<Value>)
        ensures
            r@ == crate::find_options::spec_limit_skip(docs@, None, Some(self.skip)),
    {
        crate::find_options::apply_limit_skip(docs, None, Some(self.skip))
    }
}

impl Accumulator {
    /// Parse an accumulator: one operator over a field reference, or a
    /// constant sum.
    pub fn from_json(spec: &Value) -> (r: Result<Accumulator, MongoLiteError>)
        ensures
            r matches Err(e) ==> e is AggregationError,
    {
        let obj = match spec {
            Value::Object(obj) => obj,
            _ => {
                return Err(MongoLiteError::AggregationError(String::new()));
            }
        };
        if obj.len() != 1 {
            return Err(MongoLiteError::AggregationError(String::new()));
        }
        let op = &obj[0].0;
        let val = &obj[0].1;
        if crate::value::str_eq(op.as_str(), "$sum") {
            match val {
                Value::Int(n) => Ok(Accumulator::Sum(SumExpression::Constant(*n))),
                Value::String(s) => {
                    match strip_marker(s.as_str()) {
                        Some(f) => Ok(Accumulator::Sum(SumExpression::Field(f))),
                        None => Err(MongoLiteError::AggregationError(String::new())),
                    }
                }
                _ => Err(MongoLiteError::AggregationError(String::new())),
            }
        } else if crate::value::str_eq(op.as_str(), "$avg") {
            match val {
                Value::String(s) => {
                    match strip_marker(s.as_str()) {
                        Some(f) => Ok(Accumulator::Avg(f)),
                        None => Err(MongoLiteError::AggregationError(String::new())),
                    }
                }
                _ => Err(MongoLiteError::AggregationError(String::new())),
            }
        } else if crate::value::str_eq(op.as_str(), "$min") {
            match val {
                Value::String(s) => {
                    match strip_marker(s.as_str()) {
                        Some(f) => Ok(Accumulator::Min(f)),
                        None => Err(MongoLiteError::AggregationError(String::new())),
                    }
                }
                _ => Err(MongoLiteError::AggregationError(String::new())),
            }
        } else if crate::value::str_eq(op.as_str(), "$max") {
            match val {
                Value::String(s) => {
                    match strip_marker(s.as_str()) {
                        Some(f) => Ok(Accumulator::Max(f)),
                        None => Err(MongoLiteError::AggregationError(String::new())),
                    }
                }
                _ => Err(MongoLiteError::AggregationError(String::new())),
            }
        } else if crate::value::str_eq(op.as_str(), "$first") {
            match val {
                Value::String(s) => {
                    match strip_marker(s.as_str()) {
                        Some(f) => Ok(Accumulator::First(f)),
                        None => Err(MongoLiteError::AggregationError(String::new())),
                    }
                }
                _ => Err(MongoLiteError::AggregationError(String::new())),
            }
        } else if crate::value::str_eq(op.as_str(), "$last") {
            match val {
                Value::String(s) => {
                    match strip_marker(s.as_str()) {
                        Some(f) => Ok(Accumulator::Last(f)),
                        None => Err(MongoLiteError::AggregationError(String::new())),
                    }
                }
                _ => Err(MongoLiteError::AggregationError(String::new())),
            }
        } else {
            Err(MongoLiteError::AggregationError(String::new()))
        }
    }
}

/// The field name of a `$field` reference, without the marker.
fn strip_marker(s: &str) -> (r: Option<String>) {
    if !crate::planner::starts_with_marker(s) {
        return None;
    }
    let bs = s.as_bytes();
    let tail = vstd::slice::slice_to_vec(vstd::slice::slice_subrange(bs, 1, bs.len()));
    match crate::value::string_from_utf8(tail) {
        Some(name) => Some(name),
        None => None,
    }
}

impl GroupStage {
    /// Parse a group: the group key, then one accumulator per output
    /// field.
    pub fn from_json(spec: &Value) -> (r: Result<GroupStage, MongoLiteError>)
        ensures
            r matches Err(e) ==> e is AggregationError,
    {
        let obj = match spec {
            Value::Object(obj) => obj,
            _ => {
                return Err(MongoLiteError::AggregationError(String::new()));
            }
        };
        let id = match get_object_field(obj, "_id") {
            Some(idv) => match idv {
                Value::Null => GroupId::Null,
                Value::String(s) => {
                    if crate::planner::starts_with_marker(s.as_str()) {
                        GroupId::Field(s.clone())
                    } else {
                        return Err(MongoLiteError::AggregationError(String::new()));
                    }
                }
                _ => {
                    return Err(MongoLiteError::AggregationError(String::new()));
                }
            },
            None => {
                return Err(MongoLiteError::AggregationError(String::new()));
            }
        };
        let mut accumulators: Vec<(String, Accumulator)> = Vec::new();
        let mut i: usize = 0;
        while i < obj.len()
            invariant
                i <= obj@.len(),
            decreases obj@.len() - i,
        {
            if !crate::value::str_eq(obj[i].0.as_str(), "_id") {
                let acc = match Accumulator::from_json(&obj[i].1) {
                    Ok(a) => a,
                    Err(e) => {
                        return Err(e);
                    }
                };
                accumulators.push((obj[i].0.clone(), acc));
            }
            i = i + 1;
        }
        Ok(GroupStage { id, accumulators })
    }

    /// Group the documents by the key and fold each group. Averages are
    /// refused here: they take floating-point division, which belongs to
    /// the embedding.
    pub fn execute(&self, docs: Vec<Value>) -> (r: Result<Vec<Value>, MongoLiteError>)
        ensures
            r matches Err(e) ==> e is AggregationError,
    {
        // group membership keys, in first-seen order
        let mut groups: Vec<(Value, Vec<Value>)> = Vec::new();
        let mut i: usize = 0;
        while i < docs.len()
            invariant
                i <= docs@.len(),
            decreases docs@.len() - i,
        {
            let key: Value = match &self.id {
                GroupId::Null => Value::Null,
                GroupId::Field(f) => {
                    let obj = match &docs[i] {
                        Value::Object(obj) => Some(obj),
                        _ => None,
                    };
                    match obj {
                        Some(obj) => match get_renamed(obj, f.as_str()) {
                            Some(v) => v.clone(),
                            None => Value::Null,
                        },
                        None => Value::Null,
                    }
                }
            };
            let mut found = false;
            let mut g: usize = 0;
            let n = groups.len();
            while g < n
                invariant
                    g <= n,
                    n == groups@.len(),
                    i < docs@.len(),
                decreases n - g,
            {
                if groups[g].0.eq_value(&key) {
                    let mut pair = groups.remove(g);
                    pair.1.push(docs[i].clone());
                    groups.insert(g, pair);
                    found = true;
                    break;
                }
                g = g + 1;
            }
            if !found {
                let mut members: Vec<Value> = Vec::new();
                members.push(docs[i].clone());
                groups.push((key, members));
            }
            i = i + 1;
        }
        // fold each group
        let mut out: Vec<Value> = Vec::new();
        let mut g2: usize = 0;
        while g2 < groups.len()
            invariant
                g2 <= groups@.len(),
            decreases groups@.len() - g2,
        {
            let mut fields: Vec<(String, Value)> = Vec::new();
            fields.push((String::from_str("_id"), groups[g2].0.clone()));
            let mut a: usize = 0;
            while a < self.accumulators.len()
                invariant
                    a <= self.accumulators@.len(),
                    g2 < groups@.len(),
                decreases self.accumulators@.len() - a,
            {
                let value = match compute_accumulator(
                    &self.accumulators[a].1,
                    &groups[g2].1,
                ) {
                    Ok(v) => v,
                    Err(e) => {
                        return Err(e);
                    }
                };
                fields.push((self.accumulators[a].0.clone(), value));
                a = a + 1;
            }
            out.push(Value::Object(fields));
            g2 = g2 + 1;
        }
        Ok(out)
    }
}

/// Fold one accumulator over a group's documents.
fn compute_accumulator(acc: &Accumulator, docs: &Vec<Value>) -> (r: Result<
    Value,
    MongoLiteError,
>)
    ensures
        r matches Err(e) ==> e is AggregationError,
{
    match acc {
        Accumulator::Count => {
            if docs.len() > i64::MAX as usize {
                return Err(MongoLiteError::AggregationError(String::new()));
            }
            Ok(Value::Int(docs.len() as i64))
        }
        Accumulator::Sum(expr) => match expr {
            SumExpression::Constant(n) => {
                if docs.len() > i64::MAX as usize {
                    return Err(MongoLiteError::AggregationError(String::new()));
                }
                match (*n).checked_mul(docs.len() as i64) {
                    Some(total) => Ok(Value::Int(total)),
                    None => Err(MongoLiteError::AggregationError(String::new())),
                }
            }
            SumExpression::Field(field) => {
                let mut total: i64 = 0;
                let mut i: usize = 0;
                while i < docs.len()
                    invariant
                        i <= docs@.len(),
                    decreases docs@.len() - i,
                {
                    match docs[i].get_field(field.as_str()) {
                        Some(v) => match v {
                            Value::Int(n) => {
                                match total.checked_add(*n) {
                                    Some(t) => {
                                        total = t;
                                    }
                                    None => {
                                        return Err(
                                            MongoLiteError::AggregationError(String::new()),
                                        );
                                    }
                                }
                            }
                            _ => {}
                        },
                        None => {}
                    }
                    i = i + 1;
                }
                Ok(Value::Int(total))
            }
        },
        Accumulator::Avg(_) => Err(MongoLiteError::AggregationError(String::new())),
        Accumulator::Min(field) => {
            let mut best: Option<Value> = None;
            let mut i: usize = 0;
            while i < docs.len()
                invariant
                    i <= docs@.len(),
                decreases docs@.len() - i,
            {
                match docs[i].get_field(field.as_str()) {
                    Some(v) => {
                        let vk = crate::key::IndexKey::from_value(v);
                        let better = match &best {
                            Some(b) => {
                                let bk = crate::key::IndexKey::from_value(b);
                                vk.lt_key(&bk)
                            }
                            None => true,
                        };
                        if better {
                            best = Some(v.clone());
                        }
                    }
                    None => {}
                }
                i = i + 1;
            }
            match best {
                Some(v) => Ok(v),
                None => Ok(Value::Null),
            }
        }
        Accumulator::Max(field) => {
            let mut best: Option<Value> = None;
            let mut i: usize = 0;
            while i < docs.len()
                invariant
                    i <= docs@.len(),
                decreases docs@.len() - i,
            {
                match docs[i].get_field(field.as_str()) {
                    Some(v) => {
                        let vk = crate::key::IndexKey::from_value(v);
                        let better = match &best {
                            Some(b) => {
                                let bk = crate::key::IndexKey::from_value(b);
                                bk.lt_key(&vk)
                            }
                            None => true,
                        };
                        if better {
                            best = Some(v.clone());
                        }
                    }
                    None => {}
                }
                i = i + 1;
            }
            match best {
                Some(v) => Ok(v),
                None => Ok(Value::Null),
            }
        }
        Accumulator::First(field) => {
            if docs.len() == 0 {
                return Err(MongoLiteError::AggregationError(String::new()));
            }
            match docs[0].get_field(field.as_str()) {
                Some(v) => Ok(v.clone()),
                None => Err(MongoLiteError::AggregationError(String::new())),
            }
        }
        Accumulator::Last(field) => {
            if docs.len() == 0 {
                return Err(MongoLiteError::AggregationError(String::new()));
            }
            match docs[docs.len() - 1].get_field(field.as_str()) {
                Some(v) => Ok(v.clone()),
                None => Err(MongoLiteError::AggregationError(String::new())),
            }
        }
    }
}

} // verus!
