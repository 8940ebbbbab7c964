//! The inventory read back from stored rows, and the refusals an operation
//! gives for rows it cannot write.

use visible::error::CoreError;
use visible::inventory::{
    children_in_rows, detail_in_rows, node_in_rows, tag_rows_to_remove, ImageRow, Inventory, TagRow,
};
use visible::node::Node;
use visible::task::{Task, Tasks};

fn row(id: &str, parent: Option<&str>, name: Option<&str>, position: i64, image: Option<&str>) -> Node {
    Node {
        id: id.to_string(),
        parent_id: parent.map(str::to_string),
        name: name.map(str::to_string),
        position,
        image_id: image.map(str::to_string),
        quantity: None,
        notes: None,
        value_cents: None,
        acquired_at: None,
        serial: None,
        barcode: None,
    }
}

fn image(id: &str, node: &str) -> ImageRow {
    ImageRow { id: id.to_string(), node_id: node.to_string() }
}

fn tag(id: &str, node: &str, t: &str) -> TagRow {
    TagRow { id: id.to_string(), node_id: node.to_string(), tag: t.to_string() }
}

/// A house with a kitchen (two shelves, stored out of order) and a garage.
fn house_rows() -> Vec<Node> {
    vec![
        row("shelf-b", Some("kitchen"), Some("Shelf B"), 1, Some("img-b")),
        row("garage", Some("root"), Some("Garage"), 1, None),
        row("root", None, Some("Home"), 0, None),
        row("shelf-a", Some("kitchen"), Some("Shelf A"), 0, None),
        row("kitchen", Some("root"), Some("Kitchen"), 0, Some("img-k")),
    ]
}

fn internal(r: Result<Inventory, CoreError>) -> String {
    match r {
        Err(CoreError::Internal(m)) => m,
        other => panic!("expected an internal error, got {:?}", other.map(|_| ())),
    }
}

#[test]
fn stored_rows_read_back_as_the_same_tree() {
    let inv = Inventory::from_rows(
        house_rows(),
        vec![image("img-b", "shelf-b"), image("img-k", "kitchen")],
        vec![tag("t1", "kitchen", "food")],
    )
    .unwrap();
    assert_eq!(inv.root().unwrap().id, "root");
    let kids: Vec<String> = inv.children("root").into_iter().map(|n| n.id).collect();
    assert_eq!(kids, vec!["kitchen", "garage"]);
    let shelves: Vec<String> = inv.children("kitchen").into_iter().map(|n| n.id).collect();
    assert_eq!(shelves, vec!["shelf-a", "shelf-b"]);
    let path: Vec<String> = inv.path_to("shelf-b").unwrap().into_iter().map(|n| n.id).collect();
    assert_eq!(path, vec!["root", "kitchen", "shelf-b"]);
    assert_eq!(inv.tags_of("kitchen"), vec!["food".to_string()]);
}

#[test]
fn rows_that_are_no_library_are_refused() {
    let mut two_roots = house_rows();
    two_roots.push(row("other", None, Some("Other"), 0, None));
    assert_eq!(internal(Inventory::from_rows(two_roots, vec![], vec![])), "more than one root node");

    let no_root: Vec<Node> = house_rows().into_iter().filter(|n| n.id != "root").collect();
    let r = Inventory::from_rows(no_root, vec![], vec![]);
    assert!(matches!(r, Err(CoreError::Internal(_))));

    let mut dup = house_rows();
    dup.push(row("garage", Some("root"), None, 2, None));
    assert_eq!(internal(Inventory::from_rows(dup, vec![], vec![])), "two nodes share an id");

    let mut orphan = house_rows();
    orphan.push(row("lost", Some("attic"), None, 0, None));
    assert_eq!(internal(Inventory::from_rows(orphan, vec![], vec![])), "a node's parent is missing");

    let r = Inventory::from_rows(house_rows(), vec![image("img-x", "nowhere")], vec![]);
    assert_eq!(internal(r), "an image's node is missing");

    let r = Inventory::from_rows(house_rows(), vec![image("img-b", "shelf-b"), image("img-b", "kitchen")], vec![]);
    assert_eq!(internal(r), "two images share an id");

    let r = Inventory::from_rows(house_rows(), vec![], vec![tag("t", "nowhere", "x")]);
    assert_eq!(internal(r), "a tag's node is missing");
}

#[test]
fn a_parent_cycle_is_refused() {
    let mut rows = vec![row("root", None, Some("Home"), 0, None)];
    rows.push(row("a", Some("b"), None, 0, None));
    rows.push(row("b", Some("a"), None, 0, None));
    assert_eq!(internal(Inventory::from_rows(rows, vec![], vec![])), "a parent chain does not reach the root");
}

#[test]
fn create_child_refuses_a_taken_id_a_missing_parent_and_a_taken_image() {
    let mut inv = Inventory::from_rows(house_rows(), vec![image("img-k", "kitchen")], vec![]).unwrap();
    let taken = inv.create_child_with_image("root", "garage".to_string(), "img-new".to_string());
    assert_eq!(taken, Err(CoreError::Database("UNIQUE constraint failed: nodes.id".to_string())));
    let orphan = inv.create_child_with_image("attic", "box".to_string(), "img-new".to_string());
    assert_eq!(orphan, Err(CoreError::Database("FOREIGN KEY constraint failed".to_string())));
    let image_taken = inv.create_child_with_image("root", "box".to_string(), "img-k".to_string());
    assert_eq!(image_taken, Err(CoreError::Database("UNIQUE constraint failed: node_images.id".to_string())));
    assert_eq!(inv.children("root").len(), 2);
    let ok = inv.create_child_with_image("root", "box".to_string(), "img-new".to_string()).unwrap();
    assert_eq!(ok.position, 2);
}

#[test]
fn a_position_past_the_integer_range_is_refused() {
    let rows = vec![row("root", None, Some("Home"), 0, None), row("last", Some("root"), None, i64::MAX, None)];
    let mut inv = Inventory::from_rows(rows, vec![], vec![]).unwrap();
    let r = inv.create_child_with_image("root", "next".to_string(), "img".to_string());
    assert_eq!(r, Err(CoreError::Database("integer overflow".to_string())));
    assert!(inv.get("next").is_none());
}

#[test]
fn a_new_child_goes_after_the_highest_sibling_position() {
    let rows = vec![
        row("root", None, Some("Home"), 0, None),
        row("a", Some("root"), None, 7, None),
        row("b", Some("root"), None, 3, None),
    ];
    let mut inv = Inventory::from_rows(rows, vec![], vec![]).unwrap();
    let n = inv.create_child_with_image("root", "c".to_string(), "img".to_string()).unwrap();
    assert_eq!(n.position, 8);
    let order: Vec<String> = inv.children("root").into_iter().map(|n| n.id).collect();
    assert_eq!(order, vec!["b", "a", "c"]);
}

#[test]
fn clear_image_hands_back_the_old_image_once() {
    let mut inv = Inventory::from_rows(house_rows(), vec![image("img-k", "kitchen")], vec![]).unwrap();
    assert_eq!(inv.clear_image("kitchen"), Ok(Some("img-k".to_string())));
    assert_eq!(inv.get("kitchen").unwrap().image_id, None);
    assert!(inv.image_ids_of("kitchen").is_empty());
    assert_eq!(inv.clear_image("kitchen"), Ok(None));
    assert_eq!(
        inv.clear_image("attic"),
        Err(CoreError::NotFound("no node attic for clear_image".to_string()))
    );
}

#[test]
fn add_tag_on_a_missing_node_is_a_database_error() {
    let mut inv = Inventory::from_rows(house_rows(), vec![], vec![]).unwrap();
    let r = inv.add_tag("attic", "x".to_string(), "t1".to_string());
    assert_eq!(r, Err(CoreError::Database("FOREIGN KEY constraint failed".to_string())));
}

#[test]
fn adding_a_tag_twice_leaves_one_tag() {
    let mut inv = Inventory::from_rows(house_rows(), vec![], vec![]).unwrap();
    inv.add_tag("garage", " tools ".to_string(), "t1".to_string()).unwrap();
    inv.add_tag("garage", "tools".to_string(), "t2".to_string()).unwrap();
    assert_eq!(inv.tags_of("garage"), vec!["tools".to_string()]);
    inv.remove_tag("garage", "paint".to_string());
    assert_eq!(inv.tags_of("garage"), vec!["tools".to_string()]);
}

#[test]
fn the_root_survives_any_delete() {
    let mut inv = Inventory::from_rows(house_rows(), vec![], vec![]).unwrap();
    inv.delete("kitchen").unwrap();
    inv.delete("garage").unwrap();
    assert!(inv.delete("root").is_err());
    assert_eq!(inv.root().unwrap().id, "root");
    assert!(inv.children("root").is_empty());
}

#[test]
fn stored_tasks_read_back_and_duplicates_are_refused() {
    let t = |id: &str, done: bool, at: &str| Task {
        id: id.to_string(),
        title: id.to_uppercase(),
        done,
        created_at: at.to_string(),
    };
    let tasks = Tasks::from_rows(vec![t("a", true, "2024-01-03"), t("b", false, "2024-01-01"), t("c", false, "2024-01-02")])
        .unwrap();
    let ids: Vec<String> = tasks.list().into_iter().map(|t| t.id).collect();
    assert_eq!(ids, vec!["c", "b", "a"]);
    let dup = Tasks::from_rows(vec![t("a", true, "x"), t("a", false, "y")]);
    assert!(matches!(dup, Err(CoreError::Internal(m)) if m == "two tasks share an id"));
}

#[test]
fn rows_that_form_no_tree_still_answer_lookups() {
    // A parent cycle, as a merge of concurrent moves can leave behind.
    let mut rows = house_rows();
    rows.push(row("a", Some("b"), Some("A"), 0, None));
    rows.push(row("b", Some("a"), Some("B"), 0, None));
    let tags = vec![tag("t1", "a", "loop"), tag("t2", "a", "x"), tag("t3", "b", "loop")];
    assert!(Inventory::from_rows(rows.clone(), vec![], tags.clone()).is_err());

    assert_eq!(node_in_rows(&rows, "a").unwrap().name.as_deref(), Some("A"));
    assert!(node_in_rows(&rows, "attic").is_none());
    let kids: Vec<String> = children_in_rows(&rows, "a").into_iter().map(|n| n.id).collect();
    assert_eq!(kids, vec!["b"]);
    let shelves: Vec<String> = children_in_rows(&rows, "kitchen").into_iter().map(|n| n.id).collect();
    assert_eq!(shelves, vec!["shelf-a", "shelf-b"]);

    let d = detail_in_rows(&rows, &tags, "a").unwrap();
    assert_eq!(d.node.id, "a");
    assert_eq!(d.tags, vec!["loop".to_string(), "x".to_string()]);
    assert_eq!(
        detail_in_rows(&rows, &tags, "attic"),
        Err(CoreError::NotFound("no node attic for detail".to_string()))
    );
    assert_eq!(tag_rows_to_remove(&tags, "a", "loop"), vec!["t1".to_string()]);
    assert!(tag_rows_to_remove(&tags, "a", "paint").is_empty());
}
