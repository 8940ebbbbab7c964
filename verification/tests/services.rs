//! Sync decisions, library config checks, identity codes, bridge conversions
//! and the blob plan.

use visible::blob_plan::{BlobScope, ChangeOp, NodeBlobPlan, RowChange};
use visible::bridge::{BridgeError, BridgeLibrary, BridgeNode};
use visible::error::CoreError;
use visible::library::{found_libraries, require_device_id, unreadable_libraries_dir, LibraryInfo};
use visible::node::Node;
use visible::share::identity_code;
use visible::sync::{key_to_unlock, resumes_sync, CloudHome, CloudProvider, OutboxSnapshot, S3ConfigData, SyncStatusInfo};

fn plan() -> NodeBlobPlan {
    NodeBlobPlan::new()
}

fn node_row(op: ChangeOp, id: &str, image_id: Option<&str>) -> RowChange {
    RowChange {
        table: "nodes".to_string(),
        op,
        columns: vec![
            Some(id.to_string()),
            Some("parent".to_string()),
            Some("name".to_string()),
            Some("0".to_string()),
            image_id.map(str::to_string),
            Some("stamp".to_string()),
        ],
    }
}

#[test]
fn insert_with_image_yields_a_master_scoped_blob_keyed_by_image_id() {
    let refs = plan().blobs_to_push(&[node_row(ChangeOp::Insert, "node-1", Some("img-1"))]);
    assert_eq!(refs.len(), 1);
    assert_eq!(refs[0].namespace, "images");
    assert_eq!(refs[0].id, "img-1");
    assert_eq!(refs[0].scope, BlobScope::Master);
}

#[test]
fn insert_without_image_carries_no_blob() {
    assert!(plan().blobs_to_push(&[node_row(ChangeOp::Insert, "node-1", None)]).is_empty());
}

#[test]
fn updates_and_deletes_carry_no_changeset_blob() {
    let changes = [
        node_row(ChangeOp::Update, "node-1", Some("img-old")),
        node_row(ChangeOp::Delete, "node-1", Some("img-1")),
    ];
    assert!(plan().blobs_to_push(&changes).is_empty());
    assert!(plan().blobs_to_pull(&changes).is_empty());
}

#[test]
fn pull_matches_push() {
    let changes = [node_row(ChangeOp::Insert, "node-1", Some("img-1"))];
    let push = plan().blobs_to_push(&changes);
    let pull = plan().blobs_to_pull(&changes);
    assert_eq!(push.len(), pull.len());
    assert_eq!(push[0].id, pull[0].id);
}

#[test]
fn other_tables_carry_no_blobs() {
    let mut row = node_row(ChangeOp::Insert, "x", Some("img-1"));
    row.table = "item_keys".to_string();
    assert!(plan().blobs_to_push(&[row]).is_empty());
}

#[test]
fn blobs_follow_the_changeset_order_and_skip_short_rows() {
    let short = RowChange { table: "nodes".to_string(), op: ChangeOp::Insert, columns: vec![Some("n".to_string())] };
    let changes = [
        node_row(ChangeOp::Insert, "a", Some("img-a")),
        short,
        node_row(ChangeOp::Update, "b", Some("img-b")),
        node_row(ChangeOp::Insert, "c", Some("img-c")),
    ];
    let ids: Vec<String> = plan().blobs_to_push(&changes).into_iter().map(|b| b.id).collect();
    assert_eq!(ids, vec!["img-a", "img-c"]);
}

#[test]
fn no_stored_key_resolves_to_local_only() {
    assert_eq!(key_to_unlock(false, None), None);
    assert_eq!(key_to_unlock(false, Some("ab".to_string())), None);
}

#[test]
fn key_marked_stored_but_absent_stays_local_without_crashing() {
    assert_eq!(key_to_unlock(true, None), None);
    assert_eq!(key_to_unlock(true, Some("ab".to_string())), Some("ab".to_string()));
}

#[test]
fn sync_resumes_only_with_a_key_and_a_provider() {
    assert!(resumes_sync(true, true));
    assert!(!resumes_sync(true, false));
    assert!(!resumes_sync(false, true));
    assert!(!resumes_sync(false, false));
}

#[test]
fn connecting_s3_fills_the_cloud_home_and_drops_empty_fields() {
    let data = S3ConfigData {
        bucket: "bucket".to_string(),
        region: "eu-west-1".to_string(),
        endpoint: Some(String::new()),
        key_prefix: Some("home/".to_string()),
        access_key: "AK".to_string(),
        secret_key: "SECRET-REDACTED".to_string(),
    };
    let home = CloudHome::connected_s3(&data);
    assert_eq!(home.provider, Some(CloudProvider::S3));
    assert_eq!(home.s3_bucket.as_deref(), Some("bucket"));
    assert_eq!(home.s3_region.as_deref(), Some("eu-west-1"));
    assert_eq!(home.s3_endpoint, None);
    assert_eq!(home.s3_key_prefix.as_deref(), Some("home/"));

    let local = CloudHome::local_only();
    assert_eq!(local.provider, None);
    assert_eq!(local.s3_bucket, None);
}

#[test]
fn connecting_s3_treats_whitespace_only_fields_as_absent() {
    let data = S3ConfigData {
        bucket: "bucket".to_string(),
        region: "eu-west-1".to_string(),
        endpoint: Some("   ".to_string()),
        key_prefix: Some("  home/ ".to_string()),
        access_key: "AK".to_string(),
        secret_key: "SECRET-REDACTED".to_string(),
    };
    let home = CloudHome::connected_s3(&data);
    assert_eq!(home.s3_endpoint, None);
    assert_eq!(home.s3_key_prefix.as_deref(), Some("home/"));
    let data = S3ConfigData { endpoint: Some(" https://s3.example.com ".to_string()), key_prefix: Some("\t\n".to_string()), ..data };
    let home = CloudHome::connected_s3(&data);
    assert_eq!(home.s3_endpoint.as_deref(), Some("https://s3.example.com"));
    assert_eq!(home.s3_key_prefix, None);
}

#[test]
fn fresh_library_is_not_configured_and_not_ready() {
    let status = SyncStatusInfo::new(false, None);
    assert!(!status.configured, "no provider connected yet");
    assert!(!status.ready, "no sync loop running");
    let status = SyncStatusInfo::new(true, Some(false));
    assert!(status.configured && !status.ready);
    assert!(SyncStatusInfo::new(true, Some(true)).ready);
}

#[test]
fn outbox_snapshot_counts_pending_uploads_and_deletes() {
    let snap = OutboxSnapshot::from_counts(0, 0);
    assert_eq!(snap.pending_uploads, 0);
    assert_eq!(snap.pending_deletes, 0);
    let snap = OutboxSnapshot::from_counts(1, 1);
    assert_eq!(snap.pending_uploads, 1);
    assert_eq!(snap.pending_deletes, 1);
}

#[test]
fn a_config_without_a_device_id_is_a_config_error() {
    assert_eq!(require_device_id(Some("dev".to_string()), "lib"), Ok("dev".to_string()));
    assert_eq!(
        require_device_id(None, "lib-1"),
        Err(CoreError::Config("library lib-1 config has no device_id".to_string()))
    );
}

#[test]
fn identity_code_of_a_fixed_key() {
    let key: [u8; 32] = [
        0x00, 0x11, 0x22, 0x33, 0x44, 0x55, 0x66, 0x77, 0x88, 0x99, 0xaa, 0xbb, 0xcc, 0xdd, 0xee, 0xff, 0x0f, 0x1e,
        0x2d, 0x3c, 0x4b, 0x5a, 0x69, 0x78, 0x87, 0x96, 0xa5, 0xb4, 0xc3, 0xd2, 0xe1, 0xf0,
    ];
    assert_eq!(identity_code(&key), "00112233445566778899aabbccddeeff0f1e2d3c4b5a69788796a5b4c3d2e1f0");
}

#[test]
fn identity_code_is_the_key_as_lowercase_hex() {
    let key: Vec<u8> = (0u8..32).map(|i| i.wrapping_mul(37).wrapping_add(0xa5)).collect();
    let code = identity_code(&key);
    assert_eq!(code.len(), 64, "32-byte pubkey as hex");
    assert!(code.bytes().all(|b| b.is_ascii_hexdigit() && !b.is_ascii_uppercase()), "identity code is hex: {code}");
    assert_eq!(identity_code(&[0x01, 0x02, 0x03, 0x0f, 0x10, 0xff]), "0102030f10ff");
    assert_eq!(identity_code(&key), code);
    assert_eq!(identity_code(&[]), "");
}

#[test]
fn bridge_types_carry_the_core_values() {
    let node = Node {
        id: "n".to_string(),
        parent_id: Some("root".to_string()),
        name: None,
        position: 3,
        image_id: Some("img".to_string()),
        quantity: Some(2),
        notes: None,
        value_cents: None,
        acquired_at: None,
        serial: None,
        barcode: None,
    };
    let b = BridgeNode::from(node);
    assert_eq!(b.id, "n");
    assert_eq!(b.parent_id.as_deref(), Some("root"));
    assert_eq!(b.name, None);
    assert_eq!(b.image_id.as_deref(), Some("img"));

    let lib = BridgeLibrary::from(LibraryInfo { id: "l".to_string(), name: "Home".to_string() });
    assert_eq!(lib, BridgeLibrary { id: "l".to_string(), name: "Home".to_string() });
}

#[test]
fn bridge_errors_keep_the_message_and_fold_other_kinds_into_internal() {
    let m = || "m".to_string();
    assert_eq!(BridgeError::from(CoreError::NotFound(m())), BridgeError::NotFound { msg: m() });
    assert_eq!(BridgeError::from(CoreError::Database(m())), BridgeError::Database { msg: m() });
    assert_eq!(BridgeError::from(CoreError::Config(m())), BridgeError::Config { msg: m() });
    assert_eq!(BridgeError::from(CoreError::Io(m())), BridgeError::Internal { msg: m() });
    assert_eq!(BridgeError::from(CoreError::Keyring(m())), BridgeError::Internal { msg: m() });
    assert_eq!(BridgeError::from(CoreError::Sync(m())), BridgeError::Internal { msg: m() });
    assert_eq!(BridgeError::from(CoreError::Internal(m())), BridgeError::Internal { msg: m() });
}

#[test]
fn a_scan_keeps_the_parsed_libraries_in_order_and_skips_the_rest() {
    let info = |id: &str, name: &str| LibraryInfo { id: id.to_string(), name: name.to_string() };
    let scanned = vec![Some(info("a", "Home")), None, Some(info("b", "Cabin")), None];
    assert_eq!(found_libraries(&scanned), vec![info("a", "Home"), info("b", "Cabin")]);
    assert!(found_libraries(&vec![None, None]).is_empty());
}

fn image_row(op: ChangeOp, image_id: &str, node_id: &str) -> RowChange {
    RowChange {
        table: "node_images".to_string(),
        op,
        columns: vec![Some(image_id.to_string()), Some(node_id.to_string()), Some("stamp".to_string())],
    }
}

#[test]
fn an_inserted_image_row_carries_its_image() {
    let refs = plan().blobs_to_push(&[image_row(ChangeOp::Insert, "img-1", "node-1")]);
    assert_eq!(refs.len(), 1);
    assert_eq!(refs[0].namespace, "images");
    assert_eq!(refs[0].id, "img-1");
    assert_eq!(refs[0].scope, BlobScope::Master);
    let pulled = plan().blobs_to_pull(&[image_row(ChangeOp::Insert, "img-1", "node-1")]);
    assert_eq!(pulled.len(), 1);
    assert_eq!(pulled[0].id, "img-1");
}

#[test]
fn a_replacement_photo_rides_its_image_row_insert() {
    // set_image: the node's pointer is updated, the old image row deleted and
    // the new one inserted; only the new image moves.
    let changes = [
        image_row(ChangeOp::Insert, "img-new", "node-1"),
        node_row(ChangeOp::Update, "node-1", Some("img-old")),
        image_row(ChangeOp::Delete, "img-old", "node-1"),
    ];
    let ids: Vec<String> = plan().blobs_to_push(&changes).into_iter().map(|b| b.id).collect();
    assert_eq!(ids, vec!["img-new".to_string()]);
}

#[test]
fn a_created_node_moves_its_photo_once() {
    let changes = [
        node_row(ChangeOp::Insert, "node-1", Some("img-1")),
        image_row(ChangeOp::Insert, "img-1", "node-1"),
        node_row(ChangeOp::Insert, "node-2", Some("img-2")),
        image_row(ChangeOp::Insert, "img-2", "node-2"),
    ];
    let ids: Vec<String> = plan().blobs_to_push(&changes).into_iter().map(|b| b.id).collect();
    assert_eq!(ids, vec!["img-1".to_string(), "img-2".to_string()]);
}

#[test]
fn an_unreadable_libraries_dir_is_empty_only_before_the_first_library() {
    assert_eq!(unreadable_libraries_dir(true, "/d/libraries", "gone"), Ok(vec![]));
    assert_eq!(
        unreadable_libraries_dir(false, "/d/libraries", "permission denied"),
        Err(CoreError::Io("reading libraries dir /d/libraries: permission denied".to_string()))
    );
}

#[test]
fn every_inserted_node_row_carries_its_image_even_when_repeated() {
    let changes = [
        node_row(ChangeOp::Insert, "node-1", Some("img-1")),
        node_row(ChangeOp::Insert, "node-2", Some("img-1")),
    ];
    let ids: Vec<String> = plan().blobs_to_push(&changes).into_iter().map(|b| b.id).collect();
    assert_eq!(ids, vec!["img-1".to_string(), "img-1".to_string()]);
    let pulled: Vec<String> = plan().blobs_to_pull(&changes).into_iter().map(|b| b.id).collect();
    assert_eq!(pulled, ids);
}
