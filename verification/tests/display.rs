//! Display derivations over nodes and the text primitives under them.

use visible::node::{blank_to_none, breadcrumb_label, Node};
use visible::text::{blank, trimmed};

fn node(id: &str, name: Option<&str>, quantity: Option<i64>) -> Node {
    Node {
        id: id.to_string(),
        parent_id: None,
        name: name.map(str::to_string),
        position: 0,
        image_id: None,
        quantity,
        notes: None,
        value_cents: None,
        acquired_at: None,
        serial: None,
        barcode: None,
    }
}

#[test]
fn quantity_badge_shows_counts_above_one() {
    assert_eq!(node("a", None, Some(2)).quantity_badge().as_deref(), Some("×2"));
    assert_eq!(node("a", None, Some(12)).quantity_badge().as_deref(), Some("×12"));
    assert_eq!(node("a", None, Some(1000)).quantity_badge().as_deref(), Some("×1000"));
    assert_eq!(node("a", None, Some(i64::MAX)).quantity_badge(), Some(format!("×{}", i64::MAX)));
}

#[test]
fn quantity_badge_is_absent_for_a_single_thing() {
    assert_eq!(node("a", None, None).quantity_badge(), None);
    assert_eq!(node("a", None, Some(1)).quantity_badge(), None);
    assert_eq!(node("a", None, Some(0)).quantity_badge(), None);
    assert_eq!(node("a", None, Some(-3)).quantity_badge(), None);
}

#[test]
fn breadcrumb_label_joins_the_ancestors() {
    let path = vec![
        node("root", Some("Home"), None),
        node("room", Some("Living Room"), None),
        node("shelf", Some("Shelf"), None),
        node("thing", Some("Vase"), None),
    ];
    assert_eq!(breadcrumb_label(&path), "Home › Living Room › Shelf");
}

#[test]
fn breadcrumb_label_shows_untitled_ancestors_and_is_empty_without_any() {
    let path = vec![node("root", Some("Home"), None), node("box", None, None), node("w", Some("Wrench"), None)];
    assert_eq!(breadcrumb_label(&path), "Home › Untitled");
    assert_eq!(breadcrumb_label(&path[..1]), "");
    assert_eq!(breadcrumb_label(&[]), "");
}

#[test]
fn blank_to_none_treats_blank_as_absent_and_trims() {
    assert_eq!(blank_to_none(None), None);
    assert_eq!(blank_to_none(Some(String::new())), None);
    assert_eq!(blank_to_none(Some(" \t\n\u{a0}\u{3000}".to_string())), None);
    assert_eq!(blank_to_none(Some("  x y  ".to_string())).as_deref(), Some("x y"));
    assert_eq!(blank_to_none(Some("plain".to_string())).as_deref(), Some("plain"));
}

#[test]
fn trimming_matches_str_trim() {
    for s in ["", "  ", "a", " a ", "\u{2003}mid dle\u{2028}", "\u{85}x\u{85}", "ä ö", "\u{200b}z"] {
        assert_eq!(trimmed(s), s.trim(), "{s:?}");
        assert_eq!(blank(s), s.trim().is_empty(), "{s:?}");
    }
}
