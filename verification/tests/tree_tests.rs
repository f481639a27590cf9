// The B+ tree, the simple index, the planner, the matcher and the read
// options.

use mongolite_core::btree::BPlusTreeFull;
use mongolite_core::index::{Index, IndexDefinition, IndexType};
use mongolite_core::key::IndexKey;
use mongolite_core::planner::{QueryPlan, QueryPlanner};
use mongolite_core::query::Query;
use mongolite_core::value::{DocumentId, Value};

fn obj(fields: Vec<(&str, Value)>) -> Value {
    Value::Object(fields.into_iter().map(|(k, v)| (k.to_string(), v)).collect())
}

fn tree(unique: bool) -> BPlusTreeFull {
    BPlusTreeFull::new("test".to_string(), "age".to_string(), unique)
}

#[test]
fn test_btree_basic_insert_search() {
    let mut t = tree(false);
    t.insert(IndexKey::Int(10), DocumentId::Int(100)).unwrap();
    t.insert(IndexKey::Int(20), DocumentId::Int(200)).unwrap();
    t.insert(IndexKey::Int(5), DocumentId::Int(50)).unwrap();
    assert_eq!(t.search(&IndexKey::Int(10)), Some(DocumentId::Int(100)));
    assert_eq!(t.search(&IndexKey::Int(20)), Some(DocumentId::Int(200)));
    assert_eq!(t.search(&IndexKey::Int(5)), Some(DocumentId::Int(50)));
    assert_eq!(t.search(&IndexKey::Int(99)), None);
}

#[test]
fn test_btree_split() {
    let mut t = tree(false);
    for i in 0..100 {
        t.insert(IndexKey::Int(i), DocumentId::Int(i)).unwrap();
    }
    for i in 0..100 {
        assert_eq!(t.search(&IndexKey::Int(i)), Some(DocumentId::Int(i)), "key {i}");
    }
    assert_eq!(t.size(), 100);
    assert!(t.height() > 1, "the tree should have split");
}

#[test]
fn test_btree_unique_constraint() {
    let mut t = BPlusTreeFull::new("email_idx".to_string(), "email".to_string(), true);
    t.insert(IndexKey::String("test@example.com".to_string()), DocumentId::Int(1)).unwrap();
    let result = t.insert(IndexKey::String("test@example.com".to_string()), DocumentId::Int(2));
    assert!(result.is_err());
    assert_eq!(t.size(), 1);
}

#[test]
fn test_btree_range_scan() {
    let mut t = tree(false);
    for i in 0..100 {
        t.insert(IndexKey::Int(i), DocumentId::Int(i)).unwrap();
    }
    let results = t.range_scan(&IndexKey::Int(10), &IndexKey::Int(20), true, false);
    assert_eq!(results.len(), 10);
    assert_eq!(results[0], DocumentId::Int(10));
    assert_eq!(results[9], DocumentId::Int(19));
}

#[test]
fn test_btree_range_scan_empty_when_reversed() {
    let mut t = tree(false);
    for i in 0..20 {
        t.insert(IndexKey::Int(i), DocumentId::Int(i)).unwrap();
    }
    let results = t.range_scan(&IndexKey::Int(15), &IndexKey::Int(5), true, true);
    assert_eq!(results.len(), 0);
}

#[test]
fn test_btree_delete() {
    let mut t = tree(false);
    t.insert(IndexKey::Int(10), DocumentId::Int(100)).unwrap();
    t.insert(IndexKey::Int(20), DocumentId::Int(200)).unwrap();
    t.insert(IndexKey::Int(30), DocumentId::Int(300)).unwrap();
    assert_eq!(t.size(), 3);
    let deleted = t.delete(&IndexKey::Int(20), &DocumentId::Int(200));
    assert!(deleted);
    assert_eq!(t.size(), 2);
    assert_eq!(t.search(&IndexKey::Int(20)), None);
}

#[test]
fn test_btree_large_insert() {
    let mut t = BPlusTreeFull::new("test".to_string(), "id".to_string(), false);
    for i in 0..1000 {
        t.insert(IndexKey::Int(i), DocumentId::Int(i)).unwrap();
    }
    assert_eq!(t.size(), 1000);
    for i in 0..1000 {
        assert_eq!(t.search(&IndexKey::Int(i)), Some(DocumentId::Int(i)));
    }
}

#[test]
fn test_btree_random_order() {
    let mut t = BPlusTreeFull::new("test".to_string(), "random".to_string(), false);
    let keys = vec![50, 25, 75, 10, 30, 60, 90, 5, 15, 20];
    for &k in &keys {
        t.insert(IndexKey::Int(k), DocumentId::Int(k)).unwrap();
    }
    for &k in &keys {
        assert_eq!(t.search(&IndexKey::Int(k)), Some(DocumentId::Int(k)));
    }
}

#[test]
fn test_btree_in_order_entries() {
    // inserted in any order, the entries come back sorted
    let mut t = tree(false);
    for &k in &[9, 3, 7, 1, 5, 8, 2, 6, 4, 0] {
        t.insert(IndexKey::Int(k), DocumentId::Int(k)).unwrap();
    }
    let entries = t.entries_vec();
    let keys: Vec<i64> = entries
        .iter()
        .map(|(k, _)| match k {
            IndexKey::Int(i) => *i,
            _ => panic!("unexpected key kind"),
        })
        .collect();
    assert_eq!(keys, vec![0, 1, 2, 3, 4, 5, 6, 7, 8, 9]);
}

#[test]
fn test_btree_duplicate_keys_range() {
    // equal keys under a non-unique index all come back from an
    // equality-style range scan
    let mut t = tree(false);
    t.insert(IndexKey::Int(5), DocumentId::Int(1)).unwrap();
    t.insert(IndexKey::Int(5), DocumentId::Int(2)).unwrap();
    t.insert(IndexKey::Int(5), DocumentId::Int(3)).unwrap();
    t.insert(IndexKey::Int(7), DocumentId::Int(4)).unwrap();
    let results = t.range_scan(&IndexKey::Int(5), &IndexKey::Int(5), true, true);
    assert_eq!(results.len(), 3);
}

#[test]
fn test_index_key_ordering() {
    assert!(IndexKey::Null < IndexKey::Bool(false));
    assert!(IndexKey::Bool(false) < IndexKey::Bool(true));
    assert!(IndexKey::Bool(true) < IndexKey::Int(0));
    assert!(IndexKey::Int(5) < IndexKey::Int(10));
    assert!(IndexKey::Int(10) < IndexKey::Float(10.5f64.to_bits()));
    assert!(IndexKey::Float(10.5f64.to_bits()) < IndexKey::String("a".to_string()));
    assert!(IndexKey::String("a".to_string()) < IndexKey::String("b".to_string()));
}

#[test]
fn test_index_key_float_order() {
    let one = IndexKey::Float(1.0f64.to_bits());
    let two = IndexKey::Float(2.0f64.to_bits());
    let neg = IndexKey::Float((-3.5f64).to_bits());
    let nan = IndexKey::Float(f64::NAN.to_bits());
    let zero = IndexKey::Float(0.0f64.to_bits());
    let negzero = IndexKey::Float((-0.0f64).to_bits());
    assert!(one < two);
    assert!(neg < one);
    assert!(one < nan);
    assert!(neg < nan);
    assert_eq!(zero, negzero);
    assert_eq!(nan, IndexKey::Float(f64::NAN.to_bits()));
}

#[test]
fn test_legacy_index_insert_find() {
    let def = IndexDefinition {
        name: "users_email".to_string(),
        field: "email".to_string(),
        index_type: IndexType::Regular,
        unique: false,
    };
    let mut ix = Index::new(def);
    ix.insert("a@x".to_string(), DocumentId::Int(1)).unwrap();
    ix.insert("a@x".to_string(), DocumentId::Int(2)).unwrap();
    ix.insert("b@x".to_string(), DocumentId::Int(3)).unwrap();
    assert_eq!(ix.size(), 2);
    assert_eq!(ix.find("a@x").unwrap().len(), 2);
    assert!(ix.find("zzz").is_none());
}

#[test]
fn test_legacy_index_unique_and_remove() {
    let def = IndexDefinition {
        name: "users_email".to_string(),
        field: "email".to_string(),
        index_type: IndexType::Unique,
        unique: true,
    };
    let mut ix = Index::new(def);
    ix.insert("a@x".to_string(), DocumentId::Int(1)).unwrap();
    assert!(ix.insert("a@x".to_string(), DocumentId::Int(2)).is_err());
    ix.remove("a@x", &DocumentId::Int(1));
    assert_eq!(ix.size(), 0);
    assert!(ix.find("a@x").is_none());
}

#[test]
fn test_equality_query_analysis() {
    let query = obj(vec![("age", Value::Int(25))]);
    let indexes = vec!["users_age".to_string(), "users_id".to_string()];
    let result = QueryPlanner::analyze_query(&query, &indexes);
    assert!(result.is_some());
    let (field, plan) = result.unwrap();
    assert_eq!(field, "age");
    match plan {
        QueryPlan::IndexScan { index_name, field, key } => {
            assert_eq!(index_name, "users_age");
            assert_eq!(field, "age");
            assert_eq!(key, IndexKey::Int(25));
        }
        _ => panic!("Expected IndexScan"),
    }
}

#[test]
fn test_range_query_analysis() {
    let query = obj(vec![(
        "age",
        obj(vec![("$gte", Value::Int(18)), ("$lt", Value::Int(65))]),
    )]);
    let indexes = vec!["users_age".to_string()];
    let result = QueryPlanner::analyze_query(&query, &indexes);
    assert!(result.is_some());
    let (field, plan) = result.unwrap();
    assert_eq!(field, "age");
    match plan {
        QueryPlan::IndexRangeScan { index_name, start, end, inclusive_start, inclusive_end, .. } => {
            assert_eq!(index_name, "users_age");
            assert_eq!(start, Some(IndexKey::Int(18)));
            assert_eq!(end, Some(IndexKey::Int(65)));
            assert!(inclusive_start);
            assert!(!inclusive_end);
        }
        _ => panic!("Expected IndexRangeScan"),
    }
}

#[test]
fn test_no_index_available() {
    let query = obj(vec![("name", Value::String("Alice".to_string()))]);
    let indexes = vec!["users_age".to_string()];
    assert!(QueryPlanner::analyze_query(&query, &indexes).is_none());
}

#[test]
fn test_complex_query_no_optimization() {
    let query = obj(vec![(
        "$and",
        Value::Array(vec![
            obj(vec![("age", Value::Int(25))]),
            obj(vec![("name", Value::String("Alice".to_string()))]),
        ]),
    )]);
    let indexes = vec!["users_age".to_string()];
    assert!(QueryPlanner::analyze_query(&query, &indexes).is_none());
}

fn doc(fields: Vec<(&str, Value)>) -> mongolite_core::value::Document {
    mongolite_core::value::Document::new(
        DocumentId::Int(1),
        fields.into_iter().map(|(k, v)| (k.to_string(), v)).collect(),
    )
}

#[test]
fn test_query_eq_operator() {
    let q = Query::from_json(&obj(vec![("name", Value::String("Alice".to_string()))])).unwrap();
    assert!(q.matches(&doc(vec![("name", Value::String("Alice".to_string()))])));
    assert!(!q.matches(&doc(vec![("name", Value::String("Bob".to_string()))])));
}

#[test]
fn test_query_ne_operator() {
    let q = Query::from_json(&obj(vec![("age", obj(vec![("$ne", Value::Int(30))]))])).unwrap();
    assert!(q.matches(&doc(vec![("age", Value::Int(25))])));
    assert!(!q.matches(&doc(vec![("age", Value::Int(30))])));
}

#[test]
fn test_query_gt_gte_lt_lte() {
    let gt = Query::from_json(&obj(vec![("score", obj(vec![("$gt", Value::Int(50))]))])).unwrap();
    assert!(gt.matches(&doc(vec![("score", Value::Int(75))])));
    assert!(!gt.matches(&doc(vec![("score", Value::Int(30))])));
    let gte = Query::from_json(&obj(vec![("age", obj(vec![("$gte", Value::Int(18))]))])).unwrap();
    assert!(gte.matches(&doc(vec![("age", Value::Int(18))])));
    assert!(!gte.matches(&doc(vec![("age", Value::Int(15))])));
    let lt = Query::from_json(&obj(vec![("price", obj(vec![("$lt", Value::Int(100))]))])).unwrap();
    assert!(lt.matches(&doc(vec![("price", Value::Int(50))])));
    assert!(!lt.matches(&doc(vec![("price", Value::Int(150))])));
    let lte = Query::from_json(&obj(vec![("rating", obj(vec![("$lte", Value::Int(5))]))])).unwrap();
    assert!(lte.matches(&doc(vec![("rating", Value::Int(5))])));
    assert!(!lte.matches(&doc(vec![("rating", Value::Int(7))])));
}

#[test]
fn test_query_in_operator() {
    let q = Query::from_json(&obj(vec![(
        "city",
        obj(vec![(
            "$in",
            Value::Array(vec![
                Value::String("NYC".to_string()),
                Value::String("LA".to_string()),
            ]),
        )]),
    )]))
    .unwrap();
    assert!(q.matches(&doc(vec![("city", Value::String("NYC".to_string()))])));
    assert!(!q.matches(&doc(vec![("city", Value::String("SF".to_string()))])));
}

#[test]
fn test_query_logical_or() {
    let q = Query::from_json(&obj(vec![(
        "$or",
        Value::Array(vec![
            obj(vec![("age", Value::Int(1))]),
            obj(vec![("age", Value::Int(2))]),
        ]),
    )]))
    .unwrap();
    assert!(q.matches(&doc(vec![("age", Value::Int(1))])));
    assert!(q.matches(&doc(vec![("age", Value::Int(2))])));
    assert!(!q.matches(&doc(vec![("age", Value::Int(3))])));
}

#[test]
fn test_query_exists() {
    let q = Query::from_json(&obj(vec![("age", obj(vec![("$exists", Value::Bool(true))]))]))
        .unwrap();
    assert!(q.matches(&doc(vec![("age", Value::Int(1))])));
    assert!(!q.matches(&doc(vec![("name", Value::Int(1))])));
}

#[test]
fn test_query_bad_operator_rejected() {
    let r = Query::from_json(&obj(vec![("age", obj(vec![("$frobnicate", Value::Int(1))]))]));
    assert!(r.is_err());
}

#[test]
fn test_projection_include_mode() {
    let d = obj(vec![
        ("name", Value::String("Alice".to_string())),
        ("age", Value::Int(30)),
        ("city", Value::String("NYC".to_string())),
        ("_id", Value::Int(1)),
    ]);
    let projection: Vec<(String, i32)> =
        vec![("name".to_string(), 1), ("age".to_string(), 1)];
    let result = mongolite_core::find_options::apply_projection(&d, &projection);
    assert!(result.get_field("name").is_some());
    assert!(result.get_field("age").is_some());
    assert!(result.get_field("_id").is_some());
    assert!(result.get_field("city").is_none());
}

#[test]
fn test_projection_exclude_id() {
    let d = obj(vec![
        ("name", Value::String("Alice".to_string())),
        ("_id", Value::Int(1)),
    ]);
    let projection: Vec<(String, i32)> =
        vec![("name".to_string(), 1), ("_id".to_string(), 0)];
    let result = mongolite_core::find_options::apply_projection(&d, &projection);
    assert!(result.get_field("name").is_some());
    assert!(result.get_field("_id").is_none());
}

#[test]
fn test_projection_exclude_mode() {
    let d = obj(vec![
        ("name", Value::String("Alice".to_string())),
        ("age", Value::Int(30)),
        ("city", Value::String("NYC".to_string())),
        ("_id", Value::Int(1)),
    ]);
    let projection: Vec<(String, i32)> = vec![("city".to_string(), 0)];
    let result = mongolite_core::find_options::apply_projection(&d, &projection);
    assert!(result.get_field("name").is_some());
    assert!(result.get_field("age").is_some());
    assert!(result.get_field("_id").is_some());
    assert!(result.get_field("city").is_none());
}

#[test]
fn test_sort_single_field() {
    let docs = vec![
        obj(vec![("age", Value::Int(30))]),
        obj(vec![("age", Value::Int(25))]),
        obj(vec![("age", Value::Int(35))]),
    ];
    let sort: Vec<(String, i32)> = vec![("age".to_string(), 1)];
    let sorted = mongolite_core::find_options::apply_sort(docs, &sort);
    let ages: Vec<i64> = sorted
        .iter()
        .map(|d| match d.get_field("age") {
            Some(Value::Int(i)) => *i,
            _ => panic!("missing age"),
        })
        .collect();
    assert_eq!(ages, vec![25, 30, 35]);
}

#[test]
fn test_sort_descending() {
    let docs = vec![
        obj(vec![("age", Value::Int(30))]),
        obj(vec![("age", Value::Int(25))]),
        obj(vec![("age", Value::Int(35))]),
    ];
    let sort: Vec<(String, i32)> = vec![("age".to_string(), -1)];
    let sorted = mongolite_core::find_options::apply_sort(docs, &sort);
    let ages: Vec<i64> = sorted
        .iter()
        .map(|d| match d.get_field("age") {
            Some(Value::Int(i)) => *i,
            _ => panic!("missing age"),
        })
        .collect();
    assert_eq!(ages, vec![35, 30, 25]);
}

#[test]
fn test_limit_skip() {
    let docs: Vec<Value> = (0..10).map(|i| obj(vec![("n", Value::Int(i))])).collect();
    let window = mongolite_core::find_options::apply_limit_skip(docs.clone(), Some(3), Some(2));
    assert_eq!(window.len(), 3);
    let all = mongolite_core::find_options::apply_limit_skip(docs.clone(), None, None);
    assert_eq!(all.len(), 10);
    let none = mongolite_core::find_options::apply_limit_skip(docs, None, Some(100));
    assert_eq!(none.len(), 0);
}

#[test]
fn test_find_options_builders() {
    let opts = mongolite_core::find_options::FindOptions::new()
        .with_projection(vec![("name".to_string(), 1)])
        .with_sort(vec![("age".to_string(), -1)])
        .with_limit(5)
        .with_skip(2);
    assert!(opts.projection.is_some());
    assert!(opts.sort.is_some());
    assert_eq!(opts.limit, Some(5));
    assert_eq!(opts.skip, Some(2));
}

#[test]
fn test_btree_snapshot_roundtrip() {
    let mut t = tree(true);
    for i in 0..100i64 {
        t.insert(IndexKey::Int((i * 37) % 1000), DocumentId::Int(i)).unwrap();
    }
    let snapshot = t.entries_vec();
    let loaded = BPlusTreeFull::from_entries(
        "test".to_string(),
        "age".to_string(),
        true,
        snapshot,
    );
    assert_eq!(loaded.size(), t.size());
    for i in 0..100i64 {
        let k = IndexKey::Int((i * 37) % 1000);
        assert_eq!(loaded.search(&k), t.search(&k));
    }
    assert_eq!(loaded.search(&IndexKey::Int(-5)), None);
    let lo = IndexKey::Int(100);
    let hi = IndexKey::Int(400);
    assert_eq!(loaded.range_scan(&lo, &hi, true, true), t.range_scan(&lo, &hi, true, true));
    assert_eq!(loaded.entries_vec(), t.entries_vec());
}

#[test]
fn test_btree_snapshot_roundtrip_duplicates() {
    let mut t = tree(false);
    t.insert(IndexKey::String("b".to_string()), DocumentId::Int(1)).unwrap();
    t.insert(IndexKey::String("a".to_string()), DocumentId::Int(2)).unwrap();
    t.insert(IndexKey::String("b".to_string()), DocumentId::Int(3)).unwrap();
    let loaded = BPlusTreeFull::from_entries(
        "test".to_string(),
        "age".to_string(),
        false,
        t.entries_vec(),
    );
    assert_eq!(loaded.entries_vec(), t.entries_vec());
    let lo = IndexKey::String("a".to_string());
    let hi = IndexKey::String("z".to_string());
    assert_eq!(loaded.range_scan(&lo, &hi, true, true).len(), 3);
}

#[test]
fn test_list_indexes_sorted() {
    let mut mgr = mongolite_core::index::IndexManager::new();
    mgr.create_btree_index("zeta_idx".to_string(), "zeta".to_string(), false).unwrap();
    mgr.create_btree_index("alpha_idx".to_string(), "alpha".to_string(), false).unwrap();
    mgr.create_btree_index("mid_idx".to_string(), "mid".to_string(), false).unwrap();
    let names = mgr.list_indexes();
    assert_eq!(names, vec!["alpha_idx".to_string(), "mid_idx".to_string(), "zeta_idx".to_string()]);
}

#[test]
fn test_snapshot_codec_roundtrip() {
    let entries = vec![
        (IndexKey::Int(1), DocumentId::Int(10)),
        (IndexKey::String("k".to_string()), DocumentId::String("a".to_string())),
        (IndexKey::Bool(true), DocumentId::Int(3)),
        (IndexKey::Null, DocumentId::Int(4)),
        (IndexKey::Float(2.5f64.to_bits()), DocumentId::Int(5)),
    ];
    let bytes = mongolite_core::database::encode_index_snapshot(&entries).unwrap();
    let decoded = mongolite_core::database::decode_index_snapshot(&bytes).unwrap();
    assert_eq!(decoded, entries);
    let reencoded = mongolite_core::database::encode_index_snapshot(&decoded).unwrap();
    assert_eq!(reencoded, bytes);
}

#[test]
fn test_snapshot_codec_rejects_corruption() {
    let entries = vec![(IndexKey::Int(7), DocumentId::Int(70))];
    let mut bytes = mongolite_core::database::encode_index_snapshot(&entries).unwrap();
    // truncate mid-frame
    bytes.pop();
    assert!(mongolite_core::database::decode_index_snapshot(&bytes).is_err());
    // garbage
    let garbage = vec![9u8, 9, 9];
    assert!(mongolite_core::database::decode_index_snapshot(&garbage).is_err());
}

#[test]
fn test_range_plan_bounds_exact() {
    let indexes = vec!["users_age".to_string()];
    let query = obj(vec![(
        "age",
        obj(vec![("$gte", Value::Int(10)), ("$lt", Value::Int(20))]),
    )]);
    match QueryPlanner::analyze_query(&query, &indexes) {
        Some((field, QueryPlan::IndexRangeScan { index_name, start, end, inclusive_start, inclusive_end, .. })) => {
            assert_eq!(field, "age");
            assert_eq!(index_name, "users_age");
            assert_eq!(start, Some(IndexKey::Int(10)));
            assert_eq!(end, Some(IndexKey::Int(20)));
            assert!(inclusive_start);
            assert!(!inclusive_end);
        }
        other => panic!("expected a range plan, got {:?}", other),
    }
    // an equality query must yield an equality plan
    match QueryPlanner::analyze_query(&obj(vec![("age", Value::Int(25))]), &indexes) {
        Some((_, QueryPlan::IndexScan { key, .. })) => assert_eq!(key, IndexKey::Int(25)),
        other => panic!("expected an equality plan, got {:?}", other),
    }
}
