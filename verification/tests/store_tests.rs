use woodsync::record::{Record, Value};
use woodsync::store::{EntityKind, RowStore};
use woodsync::table::{Mutation, Table, WriteOutcome};

fn field(rec: &mut Record, name: &str, value: Value) {
    rec.set(String::from(name), value);
}

fn text(s: &str) -> Value {
    Value::Text(String::from(s))
}

fn record(fields: Vec<(&str, Value)>) -> Record {
    let mut rec = Record::new();
    for (name, value) in fields {
        field(&mut rec, name, value);
    }
    rec
}

fn get_text(rec: &Record, name: &str) -> String {
    match rec.get(name) {
        Some(Value::Text(s)) => s.clone(),
        other => panic!("column {} is not text: present {}", name, other.is_some()),
    }
}

fn get_int(rec: &Record, name: &str) -> i64 {
    match rec.get(name) {
        Some(Value::Int(n)) => *n,
        other => panic!("column {} is not an integer: present {}", name, other.is_some()),
    }
}

fn get_real(rec: &Record, name: &str) -> f64 {
    match rec.get(name) {
        Some(Value::Real(bits)) => f64::from_bits(*bits),
        other => panic!("column {} is not a real: present {}", name, other.is_some()),
    }
}

fn real_bits(x: f64) -> Value {
    Value::Real(x.to_bits())
}

fn save(store: &mut RowStore, kind: EntityKind, fields: Vec<(&str, Value)>, now: i64) -> WriteOutcome {
    let rec = record(fields);
    store.save(kind, &rec, now).expect("save failed")
}

#[test]
fn test_insert_and_get_by_id() {
    let mut table = Table::new();
    let test_id = "test-item";
    let data = record(vec![("name", text("Test Item")), ("value", Value::Int(42))]);
    let outcome = table.insert_or_update(
        Mutation { id: String::from(test_id), last_edit: 1, data },
        1,
    );
    assert!(matches!(outcome, WriteOutcome::Inserted));

    let row = table.get_by_id(test_id).expect("row is missing");
    assert_eq!(row.id, test_id);
    assert_eq!(get_text(&row.data, "name"), "Test Item");
    assert_eq!(get_int(&row.data, "value"), 42);
}

#[test]
fn test_update() {
    let mut table = Table::new();
    let test_id = "test-item";
    let data = record(vec![("name", text("Test Item")), ("value", Value::Int(42))]);
    table.insert_or_update(Mutation { id: String::from(test_id), last_edit: 1, data }, 1);

    let newer = record(vec![("name", text("Updated Item")), ("value", Value::Int(100))]);
    let outcome = table.insert_or_update(
        Mutation { id: String::from(test_id), last_edit: 2, data: newer },
        2,
    );
    assert!(matches!(outcome, WriteOutcome::Updated));

    let row = table.get_by_id(test_id).expect("row is missing");
    assert_eq!(get_text(&row.data, "name"), "Updated Item");
    assert_eq!(get_int(&row.data, "value"), 100);

    // an equal or older edit time is discarded
    let stale = record(vec![("name", text("Test Item")), ("value", Value::Int(42))]);
    let outcome = table.insert_or_update(
        Mutation { id: String::from(test_id), last_edit: 2, data: stale },
        3,
    );
    assert!(matches!(outcome, WriteOutcome::Skipped));
    let row = table.get_by_id(test_id).expect("row is missing");
    assert_eq!(get_text(&row.data, "name"), "Updated Item");
}

#[test]
fn test_delete() {
    let mut table = Table::new();
    let test_id = "test-item";
    let data = record(vec![("name", text("Test Item")), ("value", Value::Int(42))]);
    table.insert_or_update(Mutation { id: String::from(test_id), last_edit: 1, data }, 1);

    assert!(table.mark_deleted(test_id, 5));
    assert!(table.get_live_by_id(test_id).is_none());
    let tombstone = table.get_by_id(test_id).expect("tombstone is missing");
    assert!(tombstone.deleted);
    assert_eq!(tombstone.last_edit, 5);
    assert_eq!(tombstone.arrival, 5);
}

#[test]
fn test_user_crud_operations() {
    let mut store = RowStore::new();
    let outcome = save(
        &mut store,
        EntityKind::User,
        vec![("id", text("u1")), ("lastEdit", Value::Int(1)), ("name", text("John Doe")), ("role", Value::Int(1))],
        1,
    );
    assert!(matches!(outcome, WriteOutcome::Inserted));
    let row = store.get_by_id(EntityKind::User, "u1").expect("user is missing");
    assert_eq!(get_text(&row.data, "name"), "John Doe");

    save(
        &mut store,
        EntityKind::User,
        vec![("id", text("u1")), ("lastEdit", Value::Int(2)), ("name", text("John Updated"))],
        2,
    );
    let row = store.get_by_id(EntityKind::User, "u1").expect("user is missing");
    assert_eq!(get_text(&row.data, "name"), "John Updated");
    // columns the update does not provide are kept
    assert_eq!(get_int(&row.data, "role"), 1);
}

#[test]
fn test_sawmill_crud_operations() {
    let mut store = RowStore::new();
    save(
        &mut store,
        EntityKind::Sawmill,
        vec![("id", text("s1")), ("lastEdit", Value::Int(1)), ("name", text("Test Sawmill"))],
        1,
    );
    let row = store.get_by_id(EntityKind::Sawmill, "s1").expect("sawmill is missing");
    assert_eq!(get_text(&row.data, "name"), "Test Sawmill");

    save(
        &mut store,
        EntityKind::Sawmill,
        vec![("id", text("s1")), ("lastEdit", Value::Int(2)), ("name", text("Updated Sawmill"))],
        2,
    );
    let row = store.get_by_id(EntityKind::Sawmill, "s1").expect("sawmill is missing");
    assert_eq!(get_text(&row.data, "name"), "Updated Sawmill");
}

#[test]
fn test_contract_crud_operations() {
    let mut store = RowStore::new();
    save(
        &mut store,
        EntityKind::Contract,
        vec![
            ("id", text("c1")),
            ("lastEdit", Value::Int(1)),
            ("title", text("Wood Supply Contract")),
            ("availableQuantity", real_bits(1000.0)),
            ("bookedQuantity", real_bits(200.0)),
        ],
        1,
    );
    let row = store.get_by_id(EntityKind::Contract, "c1").expect("contract is missing");
    assert_eq!(get_text(&row.data, "title"), "Wood Supply Contract");
    assert_eq!(get_real(&row.data, "availableQuantity"), 1000.0);

    save(
        &mut store,
        EntityKind::Contract,
        vec![
            ("id", text("c1")),
            ("lastEdit", Value::Int(2)),
            ("title", text("Updated Wood Supply Contract")),
            ("availableQuantity", real_bits(1500.0)),
        ],
        2,
    );
    let row = store.get_by_id(EntityKind::Contract, "c1").expect("contract is missing");
    assert_eq!(get_text(&row.data, "title"), "Updated Wood Supply Contract");
    assert_eq!(get_real(&row.data, "availableQuantity"), 1500.0);
    assert_eq!(get_real(&row.data, "bookedQuantity"), 200.0);
}

#[test]
fn test_location_crud_operations() {
    let mut store = RowStore::new();
    save(
        &mut store,
        EntityKind::Location,
        vec![
            ("id", text("l1")),
            ("lastEdit", Value::Int(1)),
            ("latitude", real_bits(48.0)),
            ("longitude", real_bits(16.0)),
            ("partieNr", text("LOC-001")),
            ("initialQuantity", real_bits(500.0)),
            ("currentQuantity", real_bits(500.0)),
            ("contractId", text("c1")),
        ],
        1,
    );
    let row = store.get_by_id(EntityKind::Location, "l1").expect("location is missing");
    assert_eq!(get_real(&row.data, "latitude"), 48.0);
    assert_eq!(get_real(&row.data, "longitude"), 16.0);
    assert_eq!(get_text(&row.data, "partieNr"), "LOC-001");
    assert_eq!(get_real(&row.data, "initialQuantity"), 500.0);

    save(
        &mut store,
        EntityKind::Location,
        vec![("id", text("l1")), ("lastEdit", Value::Int(2)), ("latitude", real_bits(49.0))],
        2,
    );
    let row = store.get_by_id(EntityKind::Location, "l1").expect("location is missing");
    assert_eq!(get_real(&row.data, "latitude"), 49.0);
    assert_eq!(get_text(&row.data, "partieNr"), "LOC-001");
}

#[test]
fn test_note_crud_operations() {
    let mut store = RowStore::new();
    save(
        &mut store,
        EntityKind::Note,
        vec![
            ("id", text("n1")),
            ("lastEdit", Value::Int(1)),
            ("text", text("This is a test note")),
            ("userId", text("u1")),
        ],
        1,
    );
    let row = store.get_by_id(EntityKind::Note, "n1").expect("note is missing");
    assert_eq!(get_text(&row.data, "text"), "This is a test note");

    save(
        &mut store,
        EntityKind::Note,
        vec![("id", text("n1")), ("lastEdit", Value::Int(2)), ("text", text("This is an updated test note"))],
        2,
    );
    let row = store.get_by_id(EntityKind::Note, "n1").expect("note is missing");
    assert_eq!(get_text(&row.data, "text"), "This is an updated test note");
}

#[test]
fn test_photo_crud_operations() {
    let mut store = RowStore::new();
    // "AQID" is the standard base64 encoding of the bytes 1, 2, 3
    save(
        &mut store,
        EntityKind::Photo,
        vec![
            ("id", text("p1")),
            ("lastEdit", Value::Int(1)),
            ("photoFile", text("AQID")),
            ("locationId", text("l1")),
        ],
        1,
    );
    let row = store.get_by_id(EntityKind::Photo, "p1").expect("photo is missing");
    // stored decoded: the payload is held as bytes, not as the base64 text
    match row.data.get("photoFile") {
        Some(Value::Blob(bytes)) => assert_eq!(bytes, &vec![1u8, 2, 3]),
        _ => panic!("photoFile is not a blob"),
    }
    // read back on the wire: re-encoded to the same base64 text
    let wire = store.to_wire_record(EntityKind::Photo, row).expect("photo wire record");
    assert_eq!(get_text(&wire, "photoFile"), "AQID");
}

#[test]
fn test_shipment_crud_operations() {
    let mut store = RowStore::new();
    save(
        &mut store,
        EntityKind::Shipment,
        vec![
            ("id", text("sh1")),
            ("lastEdit", Value::Int(1)),
            ("quantity", real_bits(25.0)),
            ("oversizeQuantity", real_bits(10.0)),
            ("pieceCount", Value::Int(10)),
            ("userId", text("u1")),
            ("contractId", text("c1")),
            ("sawmillId", text("s1")),
            ("locationId", text("l1")),
        ],
        1,
    );
    let row = store.get_by_id(EntityKind::Shipment, "sh1").expect("shipment is missing");
    assert_eq!(get_real(&row.data, "quantity"), 25.0);
    assert_eq!(get_real(&row.data, "oversizeQuantity"), 10.0);

    save(
        &mut store,
        EntityKind::Shipment,
        vec![("id", text("sh1")), ("lastEdit", Value::Int(2)), ("quantity", real_bits(30.0))],
        2,
    );
    let row = store.get_by_id(EntityKind::Shipment, "sh1").expect("shipment is missing");
    assert_eq!(get_real(&row.data, "quantity"), 30.0);
}

#[test]
fn test_contract_location_relationship() {
    let mut store = RowStore::new();
    save(
        &mut store,
        EntityKind::Contract,
        vec![("id", text("c1")), ("lastEdit", Value::Int(1)), ("title", text("Parent"))],
        1,
    );
    save(
        &mut store,
        EntityKind::Location,
        vec![("id", text("l1")), ("lastEdit", Value::Int(1)), ("contractId", text("c1"))],
        2,
    );
    let row = store.get_by_id(EntityKind::Location, "l1").expect("location is missing");
    assert_eq!(get_text(&row.data, "contractId"), "c1");
}

#[test]
fn test_location_sawmill_relationship() {
    let mut store = RowStore::new();
    save(
        &mut store,
        EntityKind::Location,
        vec![
            ("id", text("l1")),
            ("lastEdit", Value::Int(1)),
            ("sawmillIds", Value::TextArray(vec![String::from("s1"), String::from("s2")])),
            ("oversizeSawmillIds", Value::TextArray(vec![String::from("s3")])),
        ],
        1,
    );
    assert_eq!(store.sawmill_links("l1", false), vec![String::from("s1"), String::from("s2")]);
    assert_eq!(store.sawmill_links("l1", true), vec![String::from("s3")]);

    // a second save replaces both sets atomically
    save(
        &mut store,
        EntityKind::Location,
        vec![
            ("id", text("l1")),
            ("lastEdit", Value::Int(2)),
            ("sawmillIds", Value::TextArray(vec![String::from("s2")])),
        ],
        2,
    );
    assert_eq!(store.sawmill_links("l1", false), vec![String::from("s2")]);
    assert_eq!(store.sawmill_links("l1", true), Vec::<String>::new());

    // a repeated sawmill id yields one edge, as the composite key demands
    save(
        &mut store,
        EntityKind::Location,
        vec![
            ("id", text("l1")),
            ("lastEdit", Value::Int(3)),
            ("sawmillIds", Value::TextArray(vec![
                String::from("s1"),
                String::from("s1"),
                String::from("s4"),
            ])),
        ],
        3,
    );
    assert_eq!(store.sawmill_links("l1", false), vec![String::from("s1"), String::from("s4")]);

    // the arrays never land in the stored row itself
    let row = store.get_by_id(EntityKind::Location, "l1").expect("location is missing");
    assert!(row.data.get("sawmillIds").is_none());
    // but a wire record carries them again
    let wire = store.to_wire_record(EntityKind::Location, row).expect("location wire record");
    match wire.get("sawmillIds") {
        Some(Value::TextArray(ids)) => {
            assert_eq!(ids, &vec![String::from("s1"), String::from("s4")])
        },
        _ => panic!("sawmillIds is not an id list"),
    }
}

#[test]
fn test_complete_shipment_workflow() {
    let mut store = RowStore::new();
    save(
        &mut store,
        EntityKind::User,
        vec![("id", text("u1")), ("lastEdit", Value::Int(1)), ("name", text("A")), ("role", Value::Int(1))],
        1,
    );
    save(
        &mut store,
        EntityKind::Contract,
        vec![
            ("id", text("c1")),
            ("lastEdit", Value::Int(2)),
            ("title", text("Timber Contract")),
            ("availableQuantity", real_bits(1000.0)),
            ("bookedQuantity", real_bits(500.0)),
        ],
        2,
    );
    save(
        &mut store,
        EntityKind::Sawmill,
        vec![("id", text("s1")), ("lastEdit", Value::Int(3)), ("name", text("Mill"))],
        3,
    );
    save(
        &mut store,
        EntityKind::Location,
        vec![
            ("id", text("l1")),
            ("lastEdit", Value::Int(4)),
            ("contractId", text("c1")),
            ("initialQuantity", real_bits(400.0)),
            ("sawmillIds", Value::TextArray(vec![String::from("s1")])),
        ],
        4,
    );
    save(
        &mut store,
        EntityKind::Shipment,
        vec![
            ("id", text("sh1")),
            ("lastEdit", Value::Int(5)),
            ("quantity", real_bits(100.0)),
            ("oversizeQuantity", real_bits(10.0)),
            ("pieceCount", Value::Int(50)),
            ("userId", text("u1")),
            ("contractId", text("c1")),
            ("sawmillId", text("s1")),
            ("locationId", text("l1")),
        ],
        5,
    );
    let shipment = store.get_by_id(EntityKind::Shipment, "sh1").expect("shipment is missing");
    assert_eq!(get_real(&shipment.data, "quantity"), 100.0);
    assert_eq!(get_text(&shipment.data, "locationId"), "l1");
}

#[test]
fn test_location_with_photos_and_notes() {
    let mut store = RowStore::new();
    save(
        &mut store,
        EntityKind::Location,
        vec![("id", text("l1")), ("lastEdit", Value::Int(1))],
        1,
    );
    save(
        &mut store,
        EntityKind::Note,
        vec![("id", text("n1")), ("lastEdit", Value::Int(2)), ("text", text("Note 1 for location"))],
        2,
    );
    save(
        &mut store,
        EntityKind::Note,
        vec![("id", text("n2")), ("lastEdit", Value::Int(3)), ("text", text("Note 2 for location"))],
        3,
    );
    save(
        &mut store,
        EntityKind::Photo,
        vec![("id", text("p1")), ("lastEdit", Value::Int(4)), ("photoFile", text("AQID")), ("locationId", text("l1"))],
        4,
    );
    assert_eq!(get_text(&store.get_by_id(EntityKind::Note, "n1").unwrap().data, "text"), "Note 1 for location");
    assert_eq!(get_text(&store.get_by_id(EntityKind::Note, "n2").unwrap().data, "text"), "Note 2 for location");
}

#[test]
fn test_bulk_contract_operations() {
    let mut store = RowStore::new();
    for i in 0..100i64 {
        save(
            &mut store,
            EntityKind::Contract,
            vec![
                ("id", text(&format!("c{}", i))),
                ("lastEdit", Value::Int(i + 1)),
                ("title", text(&format!("Contract {}", i))),
            ],
            i + 1,
        );
    }
    for i in 0..10i64 {
        let id = format!("c{}", i);
        let row = store.get_by_id(EntityKind::Contract, &id).expect("contract is missing");
        assert_eq!(get_text(&row.data, "title"), format!("Contract {}", i));
    }
    // one page of the delta holds at most 100 records
    assert_eq!(store.delta_page(EntityKind::Contract, 0).len(), 100);
    assert_eq!(store.delta_page(EntityKind::Contract, 50).len(), 50);
}

#[test]
fn test_location_with_many_sawmills() {
    let mut store = RowStore::new();
    let ids: Vec<String> = (0..50).map(|i| format!("Sawmill {}", i)).collect();
    save(
        &mut store,
        EntityKind::Location,
        vec![
            ("id", text("l1")),
            ("lastEdit", Value::Int(1)),
            ("sawmillIds", Value::TextArray(ids.clone())),
        ],
        1,
    );
    let links = store.sawmill_links("l1", false);
    assert_eq!(links.len(), 50);
    assert_eq!(links, ids);
    assert_eq!(store.sawmill_links("l1", true).len(), 0);
}

#[test]
fn test_empty_string_fields() {
    let mut store = RowStore::new();
    save(
        &mut store,
        EntityKind::Note,
        vec![("id", text("n1")), ("lastEdit", Value::Int(1)), ("text", text("")), ("userId", text(""))],
        1,
    );
    let row = store.get_by_id(EntityKind::Note, "n1").expect("note is missing");
    assert_eq!(get_text(&row.data, "text"), "");
    assert_eq!(get_text(&row.data, "userId"), "");
}

#[test]
fn test_very_large_string_fields() {
    let mut store = RowStore::new();
    let long_text = "x".repeat(100000);
    save(
        &mut store,
        EntityKind::Note,
        vec![("id", text("n1")), ("lastEdit", Value::Int(1)), ("text", text(&long_text)), ("userId", text("user-123"))],
        1,
    );
    let row = store.get_by_id(EntityKind::Note, "n1").expect("note is missing");
    assert_eq!(get_text(&row.data, "text").len(), 100000);
}

#[test]
fn test_special_characters_in_strings() {
    let mut store = RowStore::new();
    let special = "Spécial Sägewerk with 'quotes' and \\\"double quotes\\\" and % signs";
    save(
        &mut store,
        EntityKind::Sawmill,
        vec![("id", text("s1")), ("lastEdit", Value::Int(1)), ("name", text(special))],
        1,
    );
    let row = store.get_by_id(EntityKind::Sawmill, "s1").expect("sawmill is missing");
    assert_eq!(get_text(&row.data, "name"), special);
}

#[test]
fn test_extreme_numeric_values() {
    let mut store = RowStore::new();
    save(
        &mut store,
        EntityKind::Contract,
        vec![
            ("id", text("c1")),
            ("lastEdit", Value::Int(i64::MAX - 1)),
            ("title", text("Extreme Values Contract")),
            ("availableQuantity", real_bits(f64::MAX)),
            ("bookedQuantity", real_bits(f64::MIN_POSITIVE)),
        ],
        1,
    );
    let row = store.get_by_id(EntityKind::Contract, "c1").expect("contract is missing");
    assert_eq!(get_real(&row.data, "availableQuantity"), f64::MAX);
    assert_eq!(get_real(&row.data, "bookedQuantity"), f64::MIN_POSITIVE);
}
