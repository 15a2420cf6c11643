use woodsync::protocol::{Frame, Outgoing};
use woodsync::record::{Record, Value};
use woodsync::router::Controller;
use woodsync::clients::ClientHandler;
use woodsync::config::Config;
use woodsync::models::Role;
use woodsync::store::{DatabaseError, EntityKind};
use woodsync::tables::{
    ContractTable, LocationSawmillJunctionTable, LocationTable, NoteTable, PhotoTable,
    SawmillTable, ShipmentTable, UserTable,
};

fn record(fields: Vec<(&str, Value)>) -> Record {
    let mut rec = Record::new();
    for (name, value) in fields {
        rec.set(String::from(name), value);
    }
    rec
}

fn text(s: &str) -> Value {
    Value::Text(String::from(s))
}

fn real_bits(x: f64) -> Value {
    Value::Real(x.to_bits())
}

fn frame(typ: &str, data: Record, timestamp: i64) -> Frame {
    Frame { typ: String::from(typ), data, timestamp }
}

fn get_text(rec: &Record, name: &str) -> String {
    match rec.get(name) {
        Some(Value::Text(s)) => s.clone(),
        other => panic!("column {} is not text: present {}", name, other.is_some()),
    }
}

fn get_int(rec: &Record, name: &str) -> i64 {
    match rec.get(name) {
        Some(Value::Int(n)) => *n,
        other => panic!("column {} is not an integer: present {}", name, other.is_some()),
    }
}

/// A controller with one provisioned tenant and one registered connection.
fn controller_with(tenant: &str, clients: &[&str]) -> Controller {
    let mut ctl = Controller::new();
    ctl.database_handler.add_tenant(String::from(tenant)).expect("tenant");
    for c in clients {
        ctl.client_handler.add_client(String::from(*c)).expect("client");
    }
    ctl
}

fn auth_frame(api_key: &str, timestamp: i64) -> Frame {
    frame("authentication_request", record(vec![("apiKey", text(api_key))]), timestamp)
}

fn seed_user(ctl: &mut Controller, tenant: &str, id: &str, role: i64, name: &str, now: i64) {
    let data = record(vec![
        ("id", text(id)),
        ("lastEdit", Value::Int(now)),
        ("role", Value::Int(role)),
        ("name", text(name)),
    ]);
    let changed = ctl
        .database_handler
        .process_update(tenant, EntityKind::User, &data, now)
        .expect("seed user");
    assert!(changed);
}

fn authenticate(ctl: &mut Controller, client: &str, api_key: &str, now: i64) {
    let out = ctl.process_message(client, &auth_frame(api_key, now), now);
    assert!(!out.close, "authentication was rejected");
}

#[test]
fn auth_rejects_unknown_tenant() {
    // no tenant named acme is provisioned
    let mut ctl = Controller::new();
    ctl.client_handler.add_client(String::from("client-1")).expect("client");
    let out = ctl.process_message("client-1", &auth_frame("acme-u1", 1), 1);
    assert_eq!(out.outgoing.len(), 1);
    let reply = &out.outgoing[0];
    assert_eq!(reply.client_id, "client-1");
    assert_eq!(reply.frame.typ, "authentication_response");
    assert_eq!(get_int(&reply.frame.data, "authenticated"), 0);
    assert_eq!(get_text(&reply.frame.data, "error"), "Invalid tenant");
    assert!(out.close);
}

#[test]
fn auth_rejects_unknown_user() {
    // the tenant exists but its users table is empty
    let mut ctl = controller_with("acme", &["client-1"]);
    let out = ctl.process_message("client-1", &auth_frame("acme-u1", 1), 1);
    assert_eq!(out.outgoing.len(), 1);
    let reply = &out.outgoing[0];
    assert_eq!(get_int(&reply.frame.data, "authenticated"), 0);
    assert_eq!(get_text(&reply.frame.data, "error"), "User not found");
    assert!(out.close);
}

#[test]
fn auth_accepts_known_user() {
    let mut ctl = controller_with("acme", &["client-1"]);
    seed_user(&mut ctl, "acme", "u1", 1, "A", 10);
    let out = ctl.process_message("client-1", &auth_frame("acme-u1", 11), 11);
    assert_eq!(out.outgoing.len(), 1);
    let reply = &out.outgoing[0];
    assert_eq!(reply.frame.typ, "authentication_response");
    assert_eq!(get_int(&reply.frame.data, "authenticated"), 1);
    assert_eq!(get_text(&reply.frame.data, "id"), "u1");
    assert_eq!(get_int(&reply.frame.data, "role"), 1);
    assert_eq!(get_text(&reply.frame.data, "name"), "A");
    assert!(!out.close);
}

#[test]
fn auth_rejects_malformed_credential() {
    // no dash, empty tenant, empty user: all fail fast without a response
    let mut ctl = controller_with("acme", &["client-1"]);
    for key in ["acme", "-u1", "acme-"] {
        let out = ctl.process_message("client-1", &auth_frame(key, 1), 1);
        assert_eq!(out.outgoing.len(), 0, "credential {:?} was answered", key);
        assert!(out.close);
    }
    // the user part may itself contain a dash: split on the first one
    seed_user(&mut ctl, "acme", "u-1", 0, "B", 5);
    let out = ctl.process_message("client-1", &auth_frame("acme-u-1", 6), 6);
    assert_eq!(get_int(&out.outgoing[0].frame.data, "authenticated"), 1);
}

#[test]
fn cold_sync() {
    let mut ctl = controller_with("acme", &["client-1"]);
    seed_user(&mut ctl, "acme", "u1", 1, "A", 10);
    let contract = record(vec![
        ("id", text("c1")),
        ("lastEdit", Value::Int(10)),
        ("title", text("x")),
        ("availableQuantity", real_bits(100.0)),
        ("deleted", Value::Int(0)),
    ]);
    ctl.database_handler
        .process_update("acme", EntityKind::Contract, &contract, 10)
        .expect("seed contract");
    authenticate(&mut ctl, "client-1", "acme-u1", 11);

    let watermarks = record(vec![
        ("user_update", Value::Int(0)),
        ("sawmill_update", Value::Int(0)),
        ("contract_update", Value::Int(0)),
        ("location_update", Value::Int(0)),
        ("shipment_update", Value::Int(0)),
        ("note_update", Value::Int(0)),
        ("photo_update", Value::Int(0)),
    ]);
    let out = ctl.process_message("client-1", &frame("sync_request", watermarks, 12), 12);
    let frames: Vec<&Outgoing> = out.outgoing.iter().collect();
    assert_eq!(frames.len(), 10);
    for f in &frames {
        assert_eq!(f.client_id, "client-1");
    }

    // one user record, then the user marker past its arrival stamp
    assert_eq!(frames[0].frame.typ, "user_update");
    assert_eq!(get_text(&frames[0].frame.data, "id"), "u1");
    assert_eq!(get_int(&frames[0].frame.data, "arrivalAtServer"), 10);
    assert_eq!(frames[1].frame.typ, "user_update");
    assert_eq!(get_int(&frames[1].frame.data, "newSyncDate"), 11);

    // nothing for sawmills
    assert_eq!(frames[2].frame.typ, "sawmill_update");
    assert_eq!(get_int(&frames[2].frame.data, "newSyncDate"), 0);

    // one contract record, then the contract marker
    assert_eq!(frames[3].frame.typ, "contract_update");
    assert_eq!(get_text(&frames[3].frame.data, "id"), "c1");
    assert_eq!(get_text(&frames[3].frame.data, "title"), "x");
    assert_eq!(frames[4].frame.typ, "contract_update");
    assert_eq!(get_int(&frames[4].frame.data, "newSyncDate"), 11);

    // empty markers for the remaining kinds, in dependency order
    for (k, typ) in [
        (5, "location_update"),
        (6, "shipment_update"),
        (7, "note_update"),
        (8, "photo_update"),
    ] {
        assert_eq!(frames[k].frame.typ, typ);
        assert_eq!(get_int(&frames[k].frame.data, "newSyncDate"), 0);
    }

    // one terminal completion frame
    assert_eq!(frames[9].frame.typ, "sync_from_server_complete");
}

#[test]
fn lww_merge() {
    let mut ctl = controller_with("acme", &["client-a", "client-b"]);
    seed_user(&mut ctl, "acme", "u1", 1, "A", 1);
    authenticate(&mut ctl, "client-a", "acme-u1", 2);
    authenticate(&mut ctl, "client-b", "acme-u1", 2);

    let older = frame(
        "contract_update",
        record(vec![
            ("id", text("c1")),
            ("title", text("old")),
            ("lastEdit", Value::Int(5)),
            ("deleted", Value::Int(0)),
        ]),
        5,
    );
    let newer = frame(
        "contract_update",
        record(vec![
            ("id", text("c1")),
            ("title", text("new")),
            ("lastEdit", Value::Int(7)),
            ("deleted", Value::Int(0)),
        ]),
        7,
    );
    let first = ctl.process_message("client-a", &older, 100);
    assert!(first.outgoing.len() > 0);
    let second = ctl.process_message("client-b", &newer, 200);
    assert!(second.outgoing.len() > 0);
    // the replay of the older frame is discarded and triggers no broadcast
    let third = ctl.process_message("client-a", &older, 300);
    assert_eq!(third.outgoing.len(), 0);

    let store = ctl.database_handler.store_of("acme").expect("store");
    let row = store.get_by_id(EntityKind::Contract, "c1").expect("contract is missing");
    assert_eq!(get_text(&row.data, "title"), "new");
    assert_eq!(row.last_edit, 7);
    // the stored arrival stamp is the one of the newer write
    assert_eq!(row.arrival, 200);
}

#[test]
fn delete_propagation() {
    let mut ctl = controller_with("acme", &["client-a", "client-b"]);
    seed_user(&mut ctl, "acme", "u1", 1, "A", 1);
    authenticate(&mut ctl, "client-a", "acme-u1", 2);
    authenticate(&mut ctl, "client-b", "acme-u1", 2);
    // the peer completed its replay and is admitted to broadcast
    ctl.client_handler.mark_sync_completed("client-b").expect("peer");

    let note = frame(
        "note_update",
        record(vec![("id", text("n1")), ("lastEdit", Value::Int(5)), ("text", text("note"))]),
        5,
    );
    ctl.process_message("client-a", &note, 10);

    let tombstone = frame(
        "note_update",
        record(vec![("id", text("n1")), ("deleted", Value::Int(1))]),
        20,
    );
    let out = ctl.process_message("client-a", &tombstone, 20);

    // the peer receives the frame verbatim, and so does the originator
    assert_eq!(out.outgoing.len(), 2);
    for sent in &out.outgoing {
        assert_eq!(sent.frame.typ, "note_update");
        assert_eq!(get_text(&sent.frame.data, "id"), "n1");
        assert_eq!(get_int(&sent.frame.data, "deleted"), 1);
    }
    let mut targets: Vec<String> = out.outgoing.iter().map(|o| o.client_id.clone()).collect();
    targets.sort();
    assert_eq!(targets, vec![String::from("client-a"), String::from("client-b")]);

    // the row remains as a tombstone
    let store = ctl.database_handler.store_of("acme").expect("store");
    let row = store.get_by_id(EntityKind::Note, "n1").expect("tombstone is missing");
    assert!(row.deleted);
    assert_eq!(row.last_edit, 20);
}

#[test]
fn update_acknowledgement() {
    let mut ctl = controller_with("acme", &["client-a", "client-b"]);
    seed_user(&mut ctl, "acme", "u1", 1, "A", 1);
    authenticate(&mut ctl, "client-a", "acme-u1", 2);
    authenticate(&mut ctl, "client-b", "acme-u1", 2);
    ctl.client_handler.mark_sync_completed("client-b").expect("peer");

    let update = frame(
        "sawmill_update",
        record(vec![("id", text("s1")), ("lastEdit", Value::Int(5)), ("name", text("Mill"))]),
        5,
    );
    let out = ctl.process_message("client-a", &update, 10);
    assert_eq!(out.outgoing.len(), 2);
    for sent in &out.outgoing {
        if sent.client_id == "client-a" {
            // the originator gets the synthetic acknowledgement
            assert_eq!(sent.frame.typ, "sawmill_update");
            assert_eq!(get_text(&sent.frame.data, "id"), "s1");
            assert_eq!(get_int(&sent.frame.data, "synced"), 1);
            assert_eq!(sent.frame.timestamp, 10);
        } else {
            // the peer gets the original frame verbatim
            assert_eq!(sent.client_id, "client-b");
            assert_eq!(get_text(&sent.frame.data, "name"), "Mill");
            assert!(sent.frame.data.get("synced").is_none());
        }
    }
}

#[test]
fn broadcast_gated_on_sync_completion() {
    let mut ctl = controller_with("acme", &["client-a", "client-b"]);
    seed_user(&mut ctl, "acme", "u1", 1, "A", 1);
    authenticate(&mut ctl, "client-a", "acme-u1", 2);
    authenticate(&mut ctl, "client-b", "acme-u1", 2);
    // the peer has not completed replay: only the acknowledgement goes out

    let update = frame(
        "sawmill_update",
        record(vec![("id", text("s1")), ("lastEdit", Value::Int(5)), ("name", text("Mill"))]),
        5,
    );
    let out = ctl.process_message("client-a", &update, 10);
    assert_eq!(out.outgoing.len(), 1);
    assert_eq!(out.outgoing[0].client_id, "client-a");
}

#[test]
fn tenant_isolation() {
    let mut ctl = Controller::new();
    ctl.database_handler.add_tenant(String::from("acme")).expect("tenant");
    ctl.database_handler.add_tenant(String::from("umbrella")).expect("tenant");
    ctl.client_handler.add_client(String::from("client-a")).expect("client");
    ctl.client_handler.add_client(String::from("client-x")).expect("client");
    seed_user(&mut ctl, "acme", "u1", 1, "A", 1);
    seed_user(&mut ctl, "umbrella", "u9", 1, "X", 1);
    authenticate(&mut ctl, "client-a", "acme-u1", 2);
    authenticate(&mut ctl, "client-x", "umbrella-u9", 2);
    ctl.client_handler.mark_sync_completed("client-a").expect("peer");
    ctl.client_handler.mark_sync_completed("client-x").expect("peer");

    let update = frame(
        "note_update",
        record(vec![("id", text("n1")), ("lastEdit", Value::Int(5)), ("text", text("internal"))]),
        5,
    );
    let out = ctl.process_message("client-a", &update, 10);
    for sent in &out.outgoing {
        assert_ne!(sent.client_id, "client-x", "a frame crossed tenants");
    }
    // the other tenant's store never sees the row
    let other = ctl.database_handler.store_of("umbrella").expect("store");
    assert!(other.get_by_id(EntityKind::Note, "n1").is_none());
}

#[test]
fn auth_gate_ignores_early_frames() {
    let mut ctl = controller_with("acme", &["client-1"]);
    seed_user(&mut ctl, "acme", "u1", 1, "A", 1);

    // before authentication: pings, syncs and updates are all ignored
    let ping = frame("ping", Record::new(), 5);
    let out = ctl.process_message("client-1", &ping, 5);
    assert_eq!(out.outgoing.len(), 0);

    let update = frame(
        "note_update",
        record(vec![("id", text("n1")), ("lastEdit", Value::Int(5)), ("text", text("early"))]),
        5,
    );
    let out = ctl.process_message("client-1", &update, 5);
    assert_eq!(out.outgoing.len(), 0);
    // the store is untouched
    let store = ctl.database_handler.store_of("acme").expect("store");
    assert!(store.get_by_id(EntityKind::Note, "n1").is_none());

    let out = ctl.process_message("client-1", &frame("sync_request", Record::new(), 5), 5);
    assert_eq!(out.outgoing.len(), 0);
}

#[test]
fn ping_pong_and_sync_complete() {
    let mut ctl = controller_with("acme", &["client-1"]);
    seed_user(&mut ctl, "acme", "u1", 1, "A", 1);
    authenticate(&mut ctl, "client-1", "acme-u1", 2);

    let out = ctl.process_message("client-1", &frame("ping", Record::new(), 5), 5);
    assert_eq!(out.outgoing.len(), 1);
    assert_eq!(out.outgoing[0].frame.typ, "pong");
    assert_eq!(out.outgoing[0].frame.timestamp, 5);

    let out = ctl.process_message("client-1", &frame("sync_complete", Record::new(), 6), 6);
    assert_eq!(out.outgoing.len(), 1);
    assert_eq!(out.outgoing[0].frame.typ, "sync_to_server_complete");

    // anything unrecognised is ignored
    let out = ctl.process_message("client-1", &frame("gibberish", Record::new(), 7), 7);
    assert_eq!(out.outgoing.len(), 0);
}

#[test]
fn photo_pacing_replay() {
    let mut ctl = controller_with("acme", &["client-1"]);
    seed_user(&mut ctl, "acme", "u1", 1, "A", 1);
    for i in 0..20i64 {
        let photo = record(vec![
            ("id", text(&format!("p{}", i))),
            ("lastEdit", Value::Int(10 + i)),
            ("photoFile", text("AQID")),
            ("locationId", text("l1")),
        ]);
        ctl.database_handler
            .process_update("acme", EntityKind::Photo, &photo, 10 + i)
            .expect("seed photo");
    }
    authenticate(&mut ctl, "client-1", "acme-u1", 50);

    let watermarks = record(vec![("photo_update", Value::Int(0))]);
    let out = ctl.process_message("client-1", &frame("sync_request", watermarks, 60), 60);
    let photo_frames: Vec<&Outgoing> = out
        .outgoing
        .iter()
        .filter(|o| o.frame.typ == "photo_update")
        .collect();
    // twenty records and one terminal marker
    assert_eq!(photo_frames.len(), 21);
    for f in photo_frames.iter().take(20) {
        assert_eq!(get_text(&f.frame.data, "photoFile"), "AQID");
    }
    assert_eq!(get_int(&photo_frames[20].frame.data, "newSyncDate"), 30);
}

#[test]
fn delta_pages_advance_watermark() {
    // more rows than one page holds: the replay pages through all of them
    let mut ctl = controller_with("acme", &["client-1"]);
    seed_user(&mut ctl, "acme", "u1", 1, "A", 1);
    for i in 0..250i64 {
        let note = record(vec![
            ("id", text(&format!("n{}", i))),
            ("lastEdit", Value::Int(10 + 2 * i)),
            ("text", text("body")),
        ]);
        ctl.database_handler
            .process_update("acme", EntityKind::Note, &note, 10 + 2 * i)
            .expect("seed note");
    }
    authenticate(&mut ctl, "client-1", "acme-u1", 1000);
    let watermarks = record(vec![("note_update", Value::Int(0))]);
    let out = ctl.process_message("client-1", &frame("sync_request", watermarks, 1001), 1001);
    let note_frames: Vec<&Outgoing> = out
        .outgoing
        .iter()
        .filter(|o| o.frame.typ == "note_update")
        .collect();
    // every note arrives exactly once, in edit-time order, plus the marker
    assert_eq!(note_frames.len(), 251);
    for (i, f) in note_frames.iter().take(250).enumerate() {
        assert_eq!(get_text(&f.frame.data, "id"), format!("n{}", i));
    }
    assert_eq!(get_int(&note_frames[250].frame.data, "newSyncDate"), 10 + 2 * 249 + 1);
}

#[test]
fn tombstone_is_terminal() {
    let mut ctl = controller_with("acme", &["client-a"]);
    seed_user(&mut ctl, "acme", "u1", 1, "A", 1);
    authenticate(&mut ctl, "client-a", "acme-u1", 2);

    let note = frame(
        "note_update",
        record(vec![("id", text("n1")), ("lastEdit", Value::Int(5)), ("text", text("body"))]),
        5,
    );
    ctl.process_message("client-a", &note, 10);
    let tombstone = frame(
        "note_update",
        record(vec![("id", text("n1")), ("deleted", Value::Int(1))]),
        20,
    );
    ctl.process_message("client-a", &tombstone, 20);

    // a later save under the same id is a no-op and triggers no broadcast
    let revived = frame(
        "note_update",
        record(vec![("id", text("n1")), ("lastEdit", Value::Int(99)), ("text", text("revived"))]),
        99,
    );
    let out = ctl.process_message("client-a", &revived, 99);
    assert_eq!(out.outgoing.len(), 0);
    let store = ctl.database_handler.store_of("acme").expect("store");
    let row = store.get_by_id(EntityKind::Note, "n1").expect("tombstone is missing");
    assert!(row.deleted);
}

#[test]
fn tombstones_participate_in_deltas() {
    let mut ctl = controller_with("acme", &["client-1"]);
    seed_user(&mut ctl, "acme", "u1", 1, "A", 1);
    let note = record(vec![("id", text("n1")), ("lastEdit", Value::Int(5)), ("text", text("body"))]);
    ctl.database_handler
        .process_update("acme", EntityKind::Note, &note, 5)
        .expect("seed note");
    let tombstone = record(vec![("id", text("n1")), ("deleted", Value::Int(1))]);
    ctl.database_handler
        .process_update("acme", EntityKind::Note, &tombstone, 9)
        .expect("delete note");

    // a client already synced past the original write still sees the delete:
    // the deletion restamped the row's arrival
    authenticate(&mut ctl, "client-1", "acme-u1", 10);
    let watermarks = record(vec![("note_update", Value::Int(6))]);
    let out = ctl.process_message("client-1", &frame("sync_request", watermarks, 11), 11);
    let note_frames: Vec<&Outgoing> = out
        .outgoing
        .iter()
        .filter(|o| o.frame.typ == "note_update")
        .collect();
    assert_eq!(note_frames.len(), 2);
    assert_eq!(get_text(&note_frames[0].frame.data, "id"), "n1");
    assert_eq!(get_int(&note_frames[0].frame.data, "deleted"), 1);
    assert_eq!(get_int(&note_frames[0].frame.data, "arrivalAtServer"), 9);
    assert_eq!(get_int(&note_frames[1].frame.data, "newSyncDate"), 10);
}

#[test]
fn incremental_sync_skips_seen_rows() {
    let mut ctl = controller_with("acme", &["client-1"]);
    seed_user(&mut ctl, "acme", "u1", 1, "A", 1);
    for (id, le) in [("s1", 5i64), ("s2", 8)] {
        let mill = record(vec![("id", text(id)), ("lastEdit", Value::Int(le)), ("name", text(id))]);
        ctl.database_handler
            .process_update("acme", EntityKind::Sawmill, &mill, le)
            .expect("seed sawmill");
    }
    authenticate(&mut ctl, "client-1", "acme-u1", 10);
    // the client has already seen everything up to arrival 5
    let watermarks = record(vec![("sawmill_update", Value::Int(5))]);
    let out = ctl.process_message("client-1", &frame("sync_request", watermarks, 11), 11);
    let mills: Vec<&Outgoing> = out
        .outgoing
        .iter()
        .filter(|o| o.frame.typ == "sawmill_update")
        .collect();
    assert_eq!(mills.len(), 2);
    assert_eq!(get_text(&mills[0].frame.data, "id"), "s2");
    assert_eq!(get_int(&mills[1].frame.data, "newSyncDate"), 9);
}

#[test]
fn delta_query_is_monotone() {
    // raising the watermark only ever shrinks the delta
    let mut ctl = controller_with("acme", &["client-1"]);
    for i in 0..6i64 {
        let note = record(vec![
            ("id", text(&format!("n{}", i))),
            ("lastEdit", Value::Int(i)),
            ("text", text("body")),
        ]);
        ctl.database_handler
            .process_update("acme", EntityKind::Note, &note, 10 * i)
            .expect("seed note");
    }
    let store = ctl.database_handler.store_of("acme").expect("store");
    let low = store.delta_page(EntityKind::Note, 0);
    let high = store.delta_page(EntityKind::Note, 25);
    assert_eq!(low.len(), 5);
    assert_eq!(high.len(), 3);
    for row in &high {
        assert!(low.iter().any(|r| r.id == row.id));
    }
}

#[test]
fn empty_user_name_is_dropped() {
    let mut ctl = controller_with("acme", &["client-1"]);
    let user = record(vec![("id", text("u1")), ("lastEdit", Value::Int(1)), ("name", text(""))]);
    let changed = ctl
        .database_handler
        .process_update("acme", EntityKind::User, &user, 1)
        .expect("update");
    assert!(!changed);
    let store = ctl.database_handler.store_of("acme").expect("store");
    assert!(store.get_by_id(EntityKind::User, "u1").is_none());
}

#[test]
fn storage_errors() {
    let mut ctl = controller_with("acme", &[]);

    // an unknown tenant is never provisioned on the write path
    let data = record(vec![("id", text("x")), ("lastEdit", Value::Int(1))]);
    match ctl.database_handler.process_update("ghost", EntityKind::Note, &data, 1) {
        Err(DatabaseError::NotFound) => {},
        _ => panic!("a write to an unknown tenant was accepted"),
    }

    // a record without an id is rejected
    let no_id = record(vec![("lastEdit", Value::Int(1))]);
    match ctl.database_handler.process_update("acme", EntityKind::Note, &no_id, 1) {
        Err(DatabaseError::MissingId) => {},
        _ => panic!("a record without an id was accepted"),
    }

    // a record without an edit time is rejected
    let no_le = record(vec![("id", text("x"))]);
    match ctl.database_handler.process_update("acme", EntityKind::Note, &no_le, 1) {
        Err(DatabaseError::Storage(_)) => {},
        _ => panic!("a record without an edit time was accepted"),
    }

    // a photo payload that is not valid base64 is rejected
    let bad_blob = record(vec![
        ("id", text("p1")),
        ("lastEdit", Value::Int(1)),
        ("photoFile", text("!!!not base64!!!")),
    ]);
    match ctl.database_handler.process_update("acme", EntityKind::Photo, &bad_blob, 1) {
        Err(DatabaseError::Storage(_)) => {},
        _ => panic!("an invalid photo payload was accepted"),
    }

    // provisioning a taken name is rejected
    assert!(ctl.database_handler.add_tenant(String::from("acme")).is_err());
}

#[test]
fn client_registry_operations() {
    let mut clients = ClientHandler::new();
    assert_eq!(clients.client_count(), 0);
    clients.add_client(String::from("c1")).expect("add");
    clients.add_client(String::from("c2")).expect("add");
    assert_eq!(clients.client_count(), 2);
    assert_eq!(clients.authenticated_count(), 0);

    clients
        .update_client_auth("c1", String::from("acme"), String::from("u1"))
        .expect("auth");
    assert_eq!(clients.authenticated_count(), 1);
    let c1 = clients.get_client("c1").expect("c1");
    assert!(c1.authenticated);
    assert_eq!(c1.db_name, "acme");
    assert_eq!(c1.user_id, "u1");
    assert!(!c1.sync_completed);

    let by_tenant = clients.get_clients_by_tenant("acme");
    assert_eq!(by_tenant.len(), 1);
    assert_eq!(by_tenant[0].id, "c1");
    assert_eq!(clients.get_authenticated_clients().len(), 1);

    assert!(clients.remove_client("ghost").is_err());
    clients.remove_client("c2").expect("remove");
    assert_eq!(clients.client_count(), 1);
    assert!(clients.get_client("c2").is_none());
    assert!(clients.mark_sync_completed("c2").is_err());
}

#[test]
fn config_strings() {
    let config = Config::default();
    assert_eq!(config.server_addr(), "0.0.0.0:8080");
    assert_eq!(config.get_db_path("acme"), "databases/acme.db");
    let other = Config { port: 65535, ..Config::default() };
    assert_eq!(other.server_addr(), "0.0.0.0:65535");
}

#[test]
fn schema_statements() {
    for (sql, table) in [
        (UserTable::create_table(), "users"),
        (SawmillTable::create_table(), "sawmills"),
        (ContractTable::create_table(), "contracts"),
        (LocationTable::create_table(), "locations"),
        (LocationSawmillJunctionTable::create_table(), "locationSawmillJunction"),
        (ShipmentTable::create_table(), "shipments"),
        (NoteTable::create_table(), "notes"),
        (PhotoTable::create_table(), "photos"),
    ] {
        assert!(sql.starts_with("CREATE TABLE IF NOT EXISTS"));
        assert!(sql.contains(table));
        // every entity table carries the envelope; the junction does not
        if table != "locationSawmillJunction" {
            assert!(sql.contains("lastEdit INTEGER NOT NULL"));
            assert!(sql.contains("arrivalAtServer INTEGER NOT NULL"));
            assert!(sql.contains("deleted INTEGER NOT NULL"));
        }
    }
}

#[test]
fn roles_round_trip() {
    assert_eq!(Role::default().code(), 0);
    for (role, code) in [(Role::Basic, 0i64), (Role::Privileged, 1), (Role::Admin, 2)] {
        assert_eq!(role.code(), code);
        assert_eq!(Role::from_code(code), role);
    }
    assert_eq!(Role::from_code(42), Role::Basic);
}
