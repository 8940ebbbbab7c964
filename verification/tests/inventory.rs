//! The inventory's operations on a library that starts with its root house,
//! with deterministic ids for new nodes and images.

use visible::error::CoreError;
use visible::inventory::Inventory;

/// A sequential id source: `node-1`, `node-2`, …
struct Ids {
    next: usize,
}

impl Ids {
    fn new_id(&mut self) -> String {
        self.next += 1;
        format!("node-{}", self.next)
    }
}

fn open_inventory() -> (Inventory, Ids) {
    (Inventory::new("root".to_string(), "Home".to_string()), Ids { next: 0 })
}

/// Append a photo-first child of `parent`, minting its node and image ids.
fn create_child(inv: &mut Inventory, ids: &mut Ids, parent: &str) -> visible::node::Node {
    let id = ids.new_id();
    let image_id = ids.new_id();
    inv.create_child_with_image(parent, id, image_id).unwrap()
}

/// Create a child of `parent` and give it `name`, returning its id.
fn create_named(inv: &mut Inventory, ids: &mut Ids, parent: &str, name: &str) -> String {
    let node = create_child(inv, ids, parent);
    inv.rename(&node.id, name.to_string()).unwrap();
    node.id
}

#[test]
fn root_exists_after_create() {
    let (inv, _ids) = open_inventory();
    let root = inv.root().expect("root");
    assert_eq!(root.id, "root");
    assert_eq!(root.name.as_deref(), Some("Home"));
    assert_eq!(root.parent_id, None);
    assert_eq!(root.position, 0);
}

#[test]
fn children_keep_insertion_order() {
    let (mut inv, mut ids) = open_inventory();
    let first = create_child(&mut inv, &mut ids, "root");
    let second = create_child(&mut inv, &mut ids, "root");
    let third = create_child(&mut inv, &mut ids, "root");

    assert_eq!(first.position, 0);
    assert_eq!(second.position, 1);
    assert_eq!(third.position, 2);

    let children = inv.children("root");
    let got: Vec<&str> = children.iter().map(|n| n.id.as_str()).collect();
    assert_eq!(got, vec![first.id.as_str(), second.id.as_str(), third.id.as_str()]);
    assert!(children.iter().all(|n| n.name.is_none()));
}

#[test]
fn rename_titles_an_untitled_child() {
    let (mut inv, mut ids) = open_inventory();
    let node = create_child(&mut inv, &mut ids, "root");
    assert_eq!(node.name, None);

    inv.rename(&node.id, "Bookshelf".into()).unwrap();

    let reloaded = inv.get(&node.id).unwrap();
    assert_eq!(reloaded.name.as_deref(), Some("Bookshelf"));
}

#[test]
fn rename_missing_node_is_not_found() {
    let (mut inv, _ids) = open_inventory();
    let err = inv.rename("nope", "X".into()).unwrap_err();
    assert!(matches!(err, CoreError::NotFound(_)), "{err:?}");
    assert_eq!(err, CoreError::NotFound("no node nope to rename".to_string()));
}

#[test]
fn delete_removes_subtree_and_its_image_files() {
    let (mut inv, mut ids) = open_inventory();
    let room = create_child(&mut inv, &mut ids, "root");
    let container = create_child(&mut inv, &mut ids, &room.id);
    let thing = create_child(&mut inv, &mut ids, &container.id);

    let box_photo = ids.new_id();
    inv.set_image(&container.id, box_photo).unwrap();
    let thing_photo = ids.new_id();
    inv.set_image(&thing.id, thing_photo).unwrap();

    let box_image = inv.get(&container.id).unwrap().image_id.unwrap();
    let thing_image = inv.get(&thing.id).unwrap().image_id.unwrap();
    assert_eq!(inv.image_ids_of(&container.id), vec![box_image.clone()]);
    assert_eq!(inv.image_ids_of(&thing.id), vec![thing_image.clone()]);

    let removed = inv.delete(&room.id).unwrap();

    assert!(inv.get(&room.id).is_none());
    assert!(inv.get(&container.id).is_none());
    assert!(inv.get(&thing.id).is_none());

    // The images to unlink are the subtree's.
    assert!(removed.contains(&box_image));
    assert!(removed.contains(&thing_image));
    assert!(inv.image_ids_of(&container.id).is_empty());
    assert!(inv.image_ids_of(&thing.id).is_empty());

    assert!(inv.root().is_ok());
}

#[test]
fn delete_missing_node_is_not_found() {
    let (mut inv, _ids) = open_inventory();
    let err = inv.delete("nope").unwrap_err();
    assert!(matches!(err, CoreError::NotFound(_)), "{err:?}");
}

#[test]
fn delete_root_errors_and_leaves_the_tree_intact() {
    let (mut inv, mut ids) = open_inventory();
    let room = create_child(&mut inv, &mut ids, "root");

    let err = inv.delete("root").unwrap_err();
    assert!(matches!(err, CoreError::Internal(_)), "{err:?}");

    assert!(inv.root().is_ok());
    assert!(inv.get(&room.id).is_some());
    inv.delete(&room.id).unwrap();
    assert!(inv.get(&room.id).is_none());
    assert!(inv.root().is_ok());
}

#[test]
fn set_image_writes_then_replacing_removes_the_old_file() {
    let (mut inv, mut ids) = open_inventory();
    let node = create_child(&mut inv, &mut ids, "root");
    let created_image = node.image_id.clone().unwrap();

    let first = ids.new_id();
    let replaced = inv.set_image(&node.id, first.clone()).unwrap();
    assert_eq!(replaced, Some(created_image));
    let first_image = inv.get(&node.id).unwrap().image_id.unwrap();
    assert_eq!(first_image, first);

    let second = ids.new_id();
    let replaced = inv.set_image(&node.id, second.clone()).unwrap();
    let second_image = inv.get(&node.id).unwrap().image_id.unwrap();
    assert_ne!(first_image, second_image);

    // The old image is handed back for removal; the new one is current.
    assert_eq!(replaced, Some(first_image.clone()));
    assert_eq!(inv.image_ids_of(&node.id), vec![second_image]);
}

#[test]
fn create_child_with_image_lands_node_and_file_together() {
    let (mut inv, _ids) = open_inventory();

    let node = inv
        .create_child_with_image("root", "toaster".to_string(), "toaster-photo".to_string())
        .unwrap();

    assert_eq!(node.name, None);
    assert_eq!(node.parent_id.as_deref(), Some("root"));
    let image_id = node.image_id.clone().expect("node carries an image id");
    assert_eq!(image_id, "toaster-photo");

    let children = inv.children("root");
    assert_eq!(children.len(), 1);
    assert_eq!(children[0].id, node.id);
    assert_eq!(children[0].image_id.as_deref(), Some(image_id.as_str()));
}

#[test]
fn set_image_on_missing_node_writes_nothing() {
    let (mut inv, _ids) = open_inventory();
    let err = inv.set_image("nope", "x".to_string()).unwrap_err();
    assert!(matches!(err, CoreError::NotFound(_)), "{err:?}");
    assert!(inv.image_ids_of("nope").is_empty());
}

#[test]
fn path_to_returns_root_first_breadcrumb() {
    let (mut inv, mut ids) = open_inventory();
    let room = create_child(&mut inv, &mut ids, "root");
    let container = create_child(&mut inv, &mut ids, &room.id);
    let thing = create_child(&mut inv, &mut ids, &container.id);

    let path = inv.path_to(&thing.id).unwrap();
    let got: Vec<&str> = path.iter().map(|n| n.id.as_str()).collect();
    assert_eq!(got, vec!["root", room.id.as_str(), container.id.as_str(), thing.id.as_str()]);

    let root_path = inv.path_to("root").unwrap();
    assert_eq!(root_path.len(), 1);
    assert_eq!(root_path[0].id, "root");
}

#[test]
fn path_to_missing_node_is_not_found() {
    let (inv, _ids) = open_inventory();
    let err = inv.path_to("nope").unwrap_err();
    assert!(matches!(err, CoreError::NotFound(_)), "{err:?}");
}

#[test]
fn move_node_reparents_a_leaf_and_appends_it_under_the_new_parent() {
    let (mut inv, mut ids) = open_inventory();
    let garage = create_named(&mut inv, &mut ids, "root", "Garage");
    let closet = create_named(&mut inv, &mut ids, "root", "Closet");
    create_named(&mut inv, &mut ids, &closet, "Coat");
    let drill = create_named(&mut inv, &mut ids, &garage, "Drill");

    inv.move_node(&drill, &closet).unwrap();

    let moved = inv.get(&drill).unwrap();
    assert_eq!(moved.parent_id.as_deref(), Some(closet.as_str()));
    assert_eq!(moved.position, 1);

    let closet_children: Vec<String> = inv.children(&closet).into_iter().map(|n| n.id).collect();
    assert!(closet_children.contains(&drill));
    assert!(inv.children(&garage).is_empty());
}

#[test]
fn move_node_carries_its_whole_subtree() {
    let (mut inv, mut ids) = open_inventory();
    let garage = create_named(&mut inv, &mut ids, "root", "Garage");
    let closet = create_named(&mut inv, &mut ids, "root", "Closet");
    let toolbox = create_named(&mut inv, &mut ids, &garage, "Toolbox");
    let wrench = create_named(&mut inv, &mut ids, &toolbox, "Wrench");

    inv.move_node(&toolbox, &closet).unwrap();

    let path: Vec<String> = inv.path_to(&wrench).unwrap().into_iter().map(|n| n.id).collect();
    assert_eq!(path, vec!["root".to_string(), closet, toolbox, wrench]);
}

#[test]
fn move_node_into_itself_is_rejected() {
    let (mut inv, mut ids) = open_inventory();
    let box_node = create_named(&mut inv, &mut ids, "root", "Box");

    let err = inv.move_node(&box_node, &box_node).unwrap_err();
    assert!(matches!(err, CoreError::Internal(_)), "{err:?}");

    let unchanged = inv.get(&box_node).unwrap();
    assert_eq!(unchanged.parent_id.as_deref(), Some("root"));
}

#[test]
fn move_node_into_a_descendant_is_rejected() {
    let (mut inv, mut ids) = open_inventory();
    let garage = create_named(&mut inv, &mut ids, "root", "Garage");
    let toolbox = create_named(&mut inv, &mut ids, &garage, "Toolbox");
    let drawer = create_named(&mut inv, &mut ids, &toolbox, "Drawer");

    let err = inv.move_node(&garage, &drawer).unwrap_err();
    assert!(matches!(err, CoreError::Internal(_)), "{err:?}");

    assert_eq!(inv.get(&garage).unwrap().parent_id.as_deref(), Some("root"));
    assert_eq!(inv.get(&drawer).unwrap().parent_id.as_deref(), Some(toolbox.as_str()));
}

#[test]
fn move_root_is_rejected_and_leaves_the_tree_intact() {
    let (mut inv, mut ids) = open_inventory();
    let room = create_named(&mut inv, &mut ids, "root", "Room");

    let err = inv.move_node("root", &room).unwrap_err();
    assert!(matches!(err, CoreError::Internal(_)), "{err:?}");

    assert_eq!(inv.root().unwrap().parent_id, None);
    assert_eq!(inv.get(&room).unwrap().parent_id.as_deref(), Some("root"));
}

#[test]
fn move_node_with_a_missing_node_or_parent_is_not_found() {
    let (mut inv, mut ids) = open_inventory();
    let room = create_named(&mut inv, &mut ids, "root", "Room");

    let err = inv.move_node("nope", &room).unwrap_err();
    assert!(matches!(err, CoreError::NotFound(_)), "{err:?}");

    let err = inv.move_node(&room, "nope").unwrap_err();
    assert!(matches!(err, CoreError::NotFound(_)), "{err:?}");
}

#[test]
fn move_node_to_its_existing_parent_is_a_no_op() {
    let (mut inv, mut ids) = open_inventory();
    let first = create_named(&mut inv, &mut ids, "root", "First");
    create_named(&mut inv, &mut ids, "root", "Second");
    assert_eq!(inv.get(&first).unwrap().position, 0);

    inv.move_node(&first, "root").unwrap();
    let after = inv.get(&first).unwrap();
    assert_eq!(after.parent_id.as_deref(), Some("root"));
    assert_eq!(after.position, 0);
}

#[test]
fn search_returns_the_match_with_its_breadcrumb_and_ancestor_label() {
    let (mut inv, mut ids) = open_inventory();
    let room = create_named(&mut inv, &mut ids, "root", "Living Room");
    let shelf = create_named(&mut inv, &mut ids, &room, "Shelf");
    let vase = create_named(&mut inv, &mut ids, &shelf, "Vase");

    let hits = inv.search("vase");
    assert_eq!(hits.len(), 1);
    let hit = &hits[0];
    assert_eq!(hit.node.id, vase);
    assert_eq!(hit.node.name.as_deref(), Some("Vase"));

    let path_ids: Vec<&str> = hit.path.iter().map(|n| n.id.as_str()).collect();
    assert_eq!(path_ids, vec!["root", room.as_str(), shelf.as_str(), vase.as_str()]);

    assert_eq!(hit.path_label, "Home › Living Room › Shelf");
}

#[test]
fn search_is_case_insensitive_and_matches_substrings() {
    let (mut inv, mut ids) = open_inventory();
    let id = create_named(&mut inv, &mut ids, "root", "Blue Toolbox");

    for query in ["toolbox", "TOOLBOX", "ToolBox", "oolbo"] {
        let hits = inv.search(query);
        assert_eq!(hits.len(), 1, "query {query:?}");
        assert_eq!(hits[0].node.id, id, "query {query:?}");
    }
}

#[test]
fn search_excludes_the_root_and_untitled_nodes() {
    let (mut inv, mut ids) = open_inventory();
    create_child(&mut inv, &mut ids, "root");
    let book = create_named(&mut inv, &mut ids, "root", "Book");

    assert!(inv.search("home").is_empty());

    let hits = inv.search("book");
    assert_eq!(hits.len(), 1);
    assert_eq!(hits[0].node.id, book);
    assert_eq!(hits[0].path_label, "Home");
}

#[test]
fn search_renders_an_untitled_ancestor_in_the_label() {
    let (mut inv, mut ids) = open_inventory();
    let box_node = create_child(&mut inv, &mut ids, "root");
    create_named(&mut inv, &mut ids, &box_node.id, "Wrench");

    let hits = inv.search("wrench");
    assert_eq!(hits.len(), 1);
    assert_eq!(hits[0].path_label, "Home › Untitled");
}

#[test]
fn search_orders_matches_by_name_case_insensitively() {
    let (mut inv, mut ids) = open_inventory();
    create_named(&mut inv, &mut ids, "root", "Tin box");
    create_named(&mut inv, &mut ids, "root", "apple box");
    create_named(&mut inv, &mut ids, "root", "Big box");

    let names: Vec<String> = inv.search("box").into_iter().filter_map(|hit| hit.node.name).collect();
    assert_eq!(names, vec!["apple box", "Big box", "Tin box"]);
}

#[test]
fn search_with_an_empty_or_whitespace_query_returns_nothing() {
    let (mut inv, mut ids) = open_inventory();
    create_named(&mut inv, &mut ids, "root", "Anything");

    assert!(inv.search("").is_empty());
    assert!(inv.search("   ").is_empty());
    assert!(inv.search("\t\n").is_empty());
}

#[test]
fn search_treats_like_wildcards_as_literal_characters() {
    let (mut inv, mut ids) = open_inventory();
    let percent = create_named(&mut inv, &mut ids, "root", "100% cotton");
    create_named(&mut inv, &mut ids, "root", "100 cotton");

    let hits = inv.search("100%");
    assert_eq!(hits.len(), 1);
    assert_eq!(hits[0].node.id, percent);

    assert!(inv.search("_").is_empty());
}

#[test]
fn create_child_with_image_records_a_node_image_row_and_no_outbox_upload() {
    let (mut inv, mut ids) = open_inventory();
    let node = create_child(&mut inv, &mut ids, "root");
    let image_id = node.image_id.unwrap();
    assert_eq!(inv.image_ids_of(&node.id), vec![image_id]);
}

#[test]
fn set_image_replaces_the_node_image_row_and_enqueues_the_old_delete() {
    let (mut inv, mut ids) = open_inventory();
    let node = create_child(&mut inv, &mut ids, "root");
    let first_image = node.image_id.unwrap();

    let second = ids.new_id();
    let replaced = inv.set_image(&node.id, second).unwrap();
    let second_image = inv.get(&node.id).unwrap().image_id.unwrap();

    assert_eq!(inv.image_ids_of(&node.id), vec![second_image]);
    // The replaced image is the one whose cloud blob is queued for deletion.
    assert_eq!(replaced, Some(first_image));
}

#[test]
fn set_attributes_round_trips_every_field() {
    let (mut inv, mut ids) = open_inventory();
    let node = create_child(&mut inv, &mut ids, "root");

    let fresh = inv.get(&node.id).unwrap();
    assert_eq!(fresh.quantity, None);
    assert_eq!(fresh.notes, None);
    assert_eq!(fresh.value_cents, None);
    assert_eq!(fresh.acquired_at, None);
    assert_eq!(fresh.serial, None);
    assert_eq!(fresh.barcode, None);

    inv.set_attributes(
        &node.id,
        Some(3),
        Some("Two left handed".into()),
        Some(4999),
        Some("2024-03-15".into()),
        Some("SN-12345".into()),
        Some("0123456789012".into()),
    )
    .unwrap();

    let loaded = inv.get(&node.id).unwrap();
    assert_eq!(loaded.quantity, Some(3));
    assert_eq!(loaded.notes.as_deref(), Some("Two left handed"));
    assert_eq!(loaded.value_cents, Some(4999));
    assert_eq!(loaded.acquired_at.as_deref(), Some("2024-03-15"));
    assert_eq!(loaded.serial.as_deref(), Some("SN-12345"));
    assert_eq!(loaded.barcode.as_deref(), Some("0123456789012"));
}

#[test]
fn set_attributes_clears_with_none_and_normalizes_blank_strings_to_none() {
    let (mut inv, mut ids) = open_inventory();
    let node = create_child(&mut inv, &mut ids, "root");

    inv.set_attributes(
        &node.id,
        Some(2),
        Some("notes".into()),
        Some(100),
        Some("2024-01-01".into()),
        Some("serial".into()),
        Some("barcode".into()),
    )
    .unwrap();

    inv.set_attributes(&node.id, None, Some("".into()), None, Some("   ".into()), Some("\t\n".into()), None)
        .unwrap();

    let cleared = inv.get(&node.id).unwrap();
    assert_eq!(cleared.quantity, None);
    assert_eq!(cleared.notes, None, "blank notes normalize to NULL");
    assert_eq!(cleared.value_cents, None);
    assert_eq!(cleared.acquired_at, None, "whitespace date normalizes to NULL");
    assert_eq!(cleared.serial, None, "whitespace serial normalizes to NULL");
    assert_eq!(cleared.barcode, None);
}

#[test]
fn set_attributes_trims_present_text_values() {
    let (mut inv, mut ids) = open_inventory();
    let node = create_child(&mut inv, &mut ids, "root");

    inv.set_attributes(&node.id, None, Some("  spaced notes  ".into()), None, None, Some("  SN-1  ".into()), None)
        .unwrap();

    let loaded = inv.get(&node.id).unwrap();
    assert_eq!(loaded.notes.as_deref(), Some("spaced notes"));
    assert_eq!(loaded.serial.as_deref(), Some("SN-1"));
}

#[test]
fn set_attributes_on_missing_node_is_not_found() {
    let (mut inv, _ids) = open_inventory();
    let err = inv.set_attributes("nope", Some(1), None, None, None, None, None).unwrap_err();
    assert!(matches!(err, CoreError::NotFound(_)), "{err:?}");
}

#[test]
fn add_tag_is_idempotent_and_trimmed() {
    let (mut inv, mut ids) = open_inventory();
    let node = create_child(&mut inv, &mut ids, "root");

    inv.add_tag(&node.id, "fragile".into(), ids.new_id()).unwrap();
    inv.add_tag(&node.id, "  fragile  ".into(), ids.new_id()).unwrap();
    inv.add_tag(&node.id, "fragile".into(), ids.new_id()).unwrap();

    assert_eq!(inv.detail(&node.id).unwrap().tags, vec!["fragile"]);
}

#[test]
fn add_tag_skips_a_blank_tag() {
    let (mut inv, mut ids) = open_inventory();
    let node = create_child(&mut inv, &mut ids, "root");

    inv.add_tag(&node.id, "".into(), ids.new_id()).unwrap();
    inv.add_tag(&node.id, "   ".into(), ids.new_id()).unwrap();

    assert!(inv.detail(&node.id).unwrap().tags.is_empty());
}

#[test]
fn remove_tag_drops_one_tag_and_ignores_an_absent_one() {
    let (mut inv, mut ids) = open_inventory();
    let node = create_child(&mut inv, &mut ids, "root");

    inv.add_tag(&node.id, "keep".into(), ids.new_id()).unwrap();
    inv.add_tag(&node.id, "drop".into(), ids.new_id()).unwrap();

    inv.remove_tag(&node.id, "drop".into());
    inv.remove_tag(&node.id, "never-had-it".into());

    assert_eq!(inv.detail(&node.id).unwrap().tags, vec!["keep"]);
}

#[test]
fn detail_returns_the_node_and_its_tags() {
    let (mut inv, mut ids) = open_inventory();
    let node = create_child(&mut inv, &mut ids, "root");
    inv.rename(&node.id, "Drill".into()).unwrap();
    inv.set_attributes(&node.id, Some(1), Some("cordless".into()), None, None, None, None).unwrap();
    inv.add_tag(&node.id, "power".into(), ids.new_id()).unwrap();
    inv.add_tag(&node.id, "garage".into(), ids.new_id()).unwrap();

    let detail = inv.detail(&node.id).unwrap();
    assert_eq!(detail.node.id, node.id);
    assert_eq!(detail.node.name.as_deref(), Some("Drill"));
    assert_eq!(detail.node.quantity, Some(1));
    assert_eq!(detail.node.notes.as_deref(), Some("cordless"));
    assert_eq!(detail.tags, vec!["garage", "power"]);
}

#[test]
fn detail_on_missing_node_is_not_found() {
    let (inv, _ids) = open_inventory();
    let err = inv.detail("nope").unwrap_err();
    assert!(matches!(err, CoreError::NotFound(_)), "{err:?}");
}

#[test]
fn deleting_a_node_cascades_its_tags() {
    let (mut inv, mut ids) = open_inventory();
    let room = create_child(&mut inv, &mut ids, "root");
    let thing = create_child(&mut inv, &mut ids, &room.id);
    inv.add_tag(&room.id, "room-tag".into(), ids.new_id()).unwrap();
    inv.add_tag(&thing.id, "thing-tag".into(), ids.new_id()).unwrap();

    assert_eq!(inv.tags_of(&room.id), vec!["room-tag"]);
    assert_eq!(inv.tags_of(&thing.id), vec!["thing-tag"]);

    inv.delete(&room.id).unwrap();

    assert!(inv.tags_of(&room.id).is_empty());
    assert!(inv.tags_of(&thing.id).is_empty());
}

#[test]
fn delete_enqueues_a_cloud_delete_for_every_image_in_the_subtree() {
    let (mut inv, mut ids) = open_inventory();
    let room = create_child(&mut inv, &mut ids, "root");
    let thing = create_child(&mut inv, &mut ids, &room.id);
    let room_image = room.image_id.unwrap();
    let thing_image = thing.image_id.unwrap();

    let removed = inv.delete(&room.id).unwrap();

    assert!(inv.image_ids_of(&room.id).is_empty());
    assert!(inv.image_ids_of(&thing.id).is_empty());
    assert!(removed.contains(&room_image));
    assert!(removed.contains(&thing_image));
}
