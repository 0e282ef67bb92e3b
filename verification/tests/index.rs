use mongo_backup::index::{is_index_metadata, strip_id_index, Index, Metadata, ID_INDEX};
use serde_json::{Number, Value};

fn index(name: &str, version: u64) -> Index {
    let mut key = serde_json::Map::new();
    key.insert(name.to_string(), Value::Number(Number::from(1u64)));
    Index { name: name.to_string(), key: Value::Object(key), v: Value::Number(Number::from(version)) }
}

fn names(metadata: &Metadata) -> Vec<String> {
    metadata.indexes.iter().map(|index| index.name.clone()).collect()
}

#[test]
fn default_index_has_its_name() {
    assert_eq!(ID_INDEX, "_id_");
}

#[test]
fn default_index_is_dropped() {
    let metadata = Metadata { indexes: vec![index("_id_", 2), index("email_1", 2), index("age_-1", 1)] };
    let stripped = strip_id_index(metadata);
    assert_eq!(names(&stripped), ["email_1", "age_-1"]);
    assert_eq!(stripped.indexes[0].v, Value::Number(Number::from(2u64)));
    assert_eq!(stripped.indexes[1].v, Value::Number(Number::from(1u64)));
    let mut key = serde_json::Map::new();
    key.insert("age_-1".to_string(), Value::Number(Number::from(1u64)));
    assert_eq!(stripped.indexes[1].key, Value::Object(key));
}

#[test]
fn every_default_index_is_dropped_and_order_is_kept() {
    let metadata = Metadata {
        indexes: vec![
            index("b", 1),
            index("_id_", 2),
            index("a", 3),
            index("_id_", 4),
            index("_id", 5),
            index("id_", 6),
            index("_ID_", 7),
            index("_id_ ", 8),
            index("", 9),
        ],
    };
    assert_eq!(names(&strip_id_index(metadata)), ["b", "a", "_id", "id_", "_ID_", "_id_ ", ""]);
}

#[test]
fn metadata_without_default_index_is_unchanged() {
    assert_eq!(names(&strip_id_index(Metadata { indexes: vec![] })), Vec::<String>::new());
    let only_default = Metadata { indexes: vec![index("_id_", 2)] };
    assert_eq!(names(&strip_id_index(only_default)), Vec::<String>::new());
    let none = Metadata { indexes: vec![index("x", 2), index("y", 2)] };
    assert_eq!(names(&strip_id_index(none)), ["x", "y"]);
}

#[test]
fn metadata_files_end_in_json_gz() {
    assert!(is_index_metadata("users.metadata.json.gz"));
    assert!(is_index_metadata(".json.gz"));
    assert!(is_index_metadata("日本語.json.gz"));
    assert!(!is_index_metadata("users.bson.gz"));
    assert!(!is_index_metadata("users.metadata.json"));
    assert!(!is_index_metadata("users.metadata.json.gz "));
    assert!(!is_index_metadata("json.gz"));
    assert!(!is_index_metadata("users.JSON.GZ"));
    assert!(!is_index_metadata(""));
}
