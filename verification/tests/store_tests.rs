use rustful_json_server::db::connection::{Connection, DbQueryError};
use rustful_json_server::db::JsonDb;
use rustful_json_server::json::field::{JsonField, JsonFieldType};
use rustful_json_server::json::parser::parse_json;

fn store_from(text: &str) -> Connection {
    let (root, _) = parse_json(text, 0).unwrap();
    Connection::new(root).unwrap()
}

fn two_record_store() -> Connection {
    store_from(r#"[{"id":1,"name":"bolt"},{"id":2,"name":"nut"}]"#)
}

fn record(text: &str) -> JsonField {
    parse_json(text, 0).unwrap().0
}

#[test]
fn get_returns_the_indexed_record_and_rejects_unknown_ids() {
    let store = two_record_store();
    let found = store.get(1).unwrap();
    assert_eq!(record(&found), record(r#"{"id":1,"name":"bolt"}"#));
    let also = store.get(2).unwrap();
    assert_eq!(record(&also), record(r#"{"id":2,"name":"nut"}"#));
    assert!(matches!(store.get(3), Err(DbQueryError::NotFound(3))));
}

#[test]
fn records_without_an_id_stay_in_the_table_but_out_of_the_index() {
    let store = store_from(r#"[{"name":"no-id"}]"#);
    assert!(matches!(store.get(0), Err(DbQueryError::NotFound(0))));
    assert!(matches!(store.get(1), Err(DbQueryError::NotFound(1))));
    assert!(matches!(store.get(123), Err(DbQueryError::NotFound(123))));
    assert_eq!(store.read(), r#"[{"name":"no-id"}]"#);
}

#[test]
fn malformed_records_are_tolerated_at_load() {
    let store = store_from(r#"[{"id":"one","name":"bad"},17,{"id":5,"name":"good"}]"#);
    assert!(matches!(store.get(1), Err(DbQueryError::NotFound(1))));
    let found = store.get(5).unwrap();
    assert_eq!(record(&found), record(r#"{"id":5,"name":"good"}"#));
    assert_eq!(store.read(), r#"[{"id":"one","name":"bad"},17,{"id":5,"name":"good"}]"#);
}

#[test]
fn a_non_array_root_is_refused() {
    let (root, _) = parse_json(r#"{"id":1}"#, 0).unwrap();
    match Connection::new(root) {
        Err(DbQueryError::TypeMismatch(t)) => {
            assert_eq!(t.expected, JsonFieldType::Array);
            assert_eq!(t.actual, JsonFieldType::Object);
        }
        other => panic!("expected a type mismatch, got {:?}", other.map(|_| ())),
    }
}

#[test]
fn insert_assigns_a_fresh_distinct_id() {
    let mut store = two_record_store();
    let inserted = store.insert(record(r#"{"name":"screw"}"#)).unwrap();
    let new_record = record(&inserted);
    let id_value = match &new_record {
        JsonField::Object(members) => members
            .iter()
            .find(|(k, _)| k == "id")
            .map(|(_, v)| v.unwrap_as_ref_int().unwrap().to_owned())
            .unwrap(),
        _ => panic!("insert returned a non-object"),
    };
    assert_ne!(id_value, 1);
    assert_ne!(id_value, 2);
    assert_eq!(id_value, 3);
    let fetched = store.get(id_value).unwrap();
    assert_eq!(fetched, inserted);
    assert_eq!(record(&fetched), new_record);
}

#[test]
fn insert_overwrites_an_id_the_caller_smuggled_in() {
    let mut store = two_record_store();
    let inserted = store.insert(record(r#"{"id":999,"name":"fake"}"#)).unwrap();
    assert_eq!(record(&inserted), record(r#"{"id":3,"name":"fake"}"#));
    assert!(matches!(store.get(999), Err(DbQueryError::NotFound(999))));
}

#[test]
fn insert_rejects_non_object_records() {
    let mut store = two_record_store();
    let before = store.read();
    match store.insert(JsonField::Int(7)) {
        Err(DbQueryError::TypeMismatch(t)) => {
            assert_eq!(t.expected, JsonFieldType::Object);
            assert_eq!(t.actual, JsonFieldType::Int);
        }
        other => panic!("expected a type mismatch, got {:?}", other),
    }
    assert_eq!(store.read(), before);
}

#[test]
fn dry_run_inserts_change_read_but_ask_for_no_write() {
    let mut store = two_record_store();
    store.dry_run();
    assert!(store.is_dry_run());
    let before = store.read();
    store.insert(record(r#"{"name":"ghost"}"#)).unwrap();
    let after = store.read();
    assert_ne!(before, after);
    assert!(store.is_dry_run());
    assert!(after.contains("ghost"));
}

#[test]
fn repeated_inserts_keep_every_record_reachable() {
    let mut store = two_record_store();
    let mut ids = Vec::new();
    let mut texts = Vec::new();
    for name in ["a", "b", "c", "d"] {
        let body = format!(r#"{{"name":"{name}"}}"#);
        let inserted = store.insert(record(&body)).unwrap();
        let new_record = record(&inserted);
        let id_value = match &new_record {
            JsonField::Object(members) => members
                .iter()
                .find(|(k, _)| k == "id")
                .map(|(_, v)| v.unwrap_as_ref_int().unwrap().to_owned())
                .unwrap(),
            _ => panic!("insert returned a non-object"),
        };
        ids.push(id_value);
        texts.push(inserted);
    }
    assert_eq!(ids, vec![3, 4, 5, 6]);
    for (id_value, text) in ids.iter().zip(texts.iter()) {
        assert_eq!(&store.get(*id_value).unwrap(), text);
    }
}

#[test]
fn the_id_counter_seeds_from_the_largest_indexed_id() {
    let mut store = store_from(r#"[{"id":41,"name":"high"},{"id":2,"name":"low"}]"#);
    let inserted = store.insert(record(r#"{"name":"next"}"#)).unwrap();
    assert_eq!(record(&inserted), record(r#"{"id":42,"name":"next"}"#));
}

#[test]
fn registry_resolves_stores_by_name() {
    let stores = vec![
        ("bolts".to_owned(), r#"[{"id":1,"name":"bolt"}]"#.to_owned()),
        ("nuts".to_owned(), r#"[]"#.to_owned()),
    ];
    let db = JsonDb::new(stores, false).unwrap();
    let bolts = db.get_entry("bolts").unwrap();
    assert_eq!(bolts.read(), r#"[{"id":1,"name":"bolt"}]"#);
    let nuts = db.get_entry("nuts").unwrap();
    assert_eq!(nuts.read(), "[]");
    match db.get_entry("screws") {
        Err(DbQueryError::UnknownStore(name)) => assert_eq!(name, "screws"),
        other => panic!("expected an unknown store, got {:?}", other.map(|_| ())),
    }
}

#[test]
fn registry_startup_fails_on_the_first_bad_file() {
    let stores = vec![
        ("good".to_owned(), "[]".to_owned()),
        ("bad".to_owned(), "{".to_owned()),
    ];
    assert!(matches!(JsonDb::new(stores, false), Err(DbQueryError::Parse(_))));

    let stores = vec![("scalar".to_owned(), "3".to_owned())];
    assert!(matches!(
        JsonDb::new(stores, false),
        Err(DbQueryError::TypeMismatch(_))
    ));
}

#[test]
fn registry_passes_the_dry_run_mode_to_every_store() {
    let stores = vec![("bolts".to_owned(), "[]".to_owned())];
    let db = JsonDb::new(stores, true).unwrap();
    assert!(db.get_entry("bolts").unwrap().is_dry_run());
    let stores = vec![("bolts".to_owned(), "[]".to_owned())];
    let db = JsonDb::new(stores, false).unwrap();
    assert!(!db.get_entry("bolts").unwrap().is_dry_run());
}

#[test]
fn negative_ids_are_reachable_and_do_not_move_the_counter() {
    let mut store = store_from(r#"[{"id":-5,"name":"below"}]"#);
    let found = store.get(-5).unwrap();
    assert_eq!(record(&found), record(r#"{"id":-5,"name":"below"}"#));
    let inserted = store.insert(record(r#"{"name":"first"}"#)).unwrap();
    assert_eq!(record(&inserted), record(r#"{"id":1,"name":"first"}"#));
}

#[test]
fn a_store_holding_the_largest_id_reports_no_capacity() {
    let store = store_from(r#"[{"id":9223372036854775807,"name":"edge"}]"#);
    assert!(!store.has_capacity());
    assert!(store.get(9223372036854775807).is_ok());
    let fresh = two_record_store();
    assert!(fresh.has_capacity());
}

#[test]
fn duplicate_ids_keep_the_later_record() {
    let store = store_from(r#"[{"id":1,"name":"old"},{"id":1,"name":"new"}]"#);
    let found = store.get(1).unwrap();
    assert_eq!(record(&found), record(r#"{"id":1,"name":"new"}"#));
    assert_eq!(store.read(), r#"[{"id":1,"name":"old"},{"id":1,"name":"new"}]"#);
}
