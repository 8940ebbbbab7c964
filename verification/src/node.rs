//! The node record, the search hit and edit-screen records built from nodes,
//! and the display derivations over them: the quantity badge, the breadcrumb
//! label, and the blank-to-absent normalization of optional text.

use vstd::prelude::*;

use crate::text::{decimal, is_blank, join, push_decimal, trim, trimmed, blank};

verus! {

/// One node in the tree. The attribute fields below the structural ones
/// (`quantity` … `barcode`) are each individually optional: absence is `None`,
/// never a zero or an empty string. `value_cents` is in whole cents and
/// `acquired_at` is an ISO `YYYY-MM-DD` date string.
#[derive(Debug, Clone, PartialEq, Eq)]
pub struct Node {
    pub id: String,
    pub parent_id: Option<String>,
    /// The node's title, or `None` while it is untitled. The root house is
    /// always titled.
    pub name: Option<String>,
    pub position: i64,
    pub image_id: Option<String>,
    /// How many of this thing the node stands for; a single item is `None`.
    pub quantity: Option<i64>,
    pub notes: Option<String>,
    pub value_cents: Option<i64>,
    pub acquired_at: Option<String>,
    pub serial: Option<String>,
    pub barcode: Option<String>,
}

/// One node with its tags, as the edit screen loads it.
#[derive(Debug, Clone, PartialEq, Eq)]
pub struct NodeDetail {
    pub node: Node,
    pub tags: Vec<String>,
}

/// One search match: the matching node, its breadcrumb from the root down to it
/// inclusive, and the display label of its ancestors (root to parent).
#[derive(Debug, Clone, PartialEq, Eq)]
pub struct SearchHit {
    pub node: Node,
    pub path: Vec<Node>,
    pub path_label: String,
}

/// The placeholder a breadcrumb shows for an untitled ancestor.
pub const UNTITLED_LABEL: &'static str = "Untitled";

/// The separator between breadcrumb segments.
pub const BREADCRUMB_SEPARATOR: &'static str = " › ";

/// The view of an optional text value.
pub open spec fn opt_view(o: Option<String>) -> Option<Seq<char>> {
    match o {
        Some(s) => Some(s@),
        None => None,
    }
}

/// A copy of an optional text value.
pub fn copy_opt(o: &Option<String>) -> (r: Option<String>)
    ensures
        r == *o,
{
    match o {
        Some(s) => Some(s.clone()),
        None => None,
    }
}

/// The "×N" badge text for a count `n`.
pub open spec fn badge_text(n: i64) -> Seq<char> {
    seq!['\u{D7}'] + decimal(n as nat)
}

/// Whether a node with this quantity carries a badge: more than one thing.
pub open spec fn has_badge(quantity: Option<i64>) -> bool {
    quantity matches Some(n) && n > 1
}

/// The label shown for a node in a breadcrumb: its name, or the untitled
/// placeholder.
pub open spec fn display_name(n: Node) -> Seq<char> {
    match n.name {
        Some(s) => s@,
        None => UNTITLED_LABEL@,
    }
}

/// The ancestors' label of a root-first breadcrumb: every element but the
/// last, by display name, joined by the separator.
pub open spec fn label_of(path: Seq<Node>) -> Seq<char> {
    let k = if path.len() > 0 {
        path.len() - 1
    } else {
        0
    };
    join(path.take(k).map_values(|n: Node| display_name(n)), BREADCRUMB_SEPARATOR@)
}

/// An optional text value with blank treated as absence and a present value
/// trimmed.
pub open spec fn normalized(o: Option<String>) -> Option<Seq<char>> {
    match o {
        Some(s) => if is_blank(s@) {
            None
        } else {
            Some(trim(s@))
        },
        None => None,
    }
}

impl Node {
    /// A field-for-field copy of this node.
    pub fn duplicate(&self) -> (r: Node)
        ensures
            r == *self,
    {
        Node {
            id: self.id.clone(),
            parent_id: copy_opt(&self.parent_id),
            name: copy_opt(&self.name),
            position: self.position,
            image_id: copy_opt(&self.image_id),
            quantity: self.quantity,
            notes: copy_opt(&self.notes),
            value_cents: self.value_cents,
            acquired_at: copy_opt(&self.acquired_at),
            serial: copy_opt(&self.serial),
            barcode: copy_opt(&self.barcode),
        }
    }

    /// The "×N" count badge the browse card shows, or `None` for a node that
    /// stands for a single thing: a quantity of `None` or at most one carries no
    /// badge; a quantity greater than one renders as `×N`.
    pub fn quantity_badge(&self) -> (r: Option<String>)
        ensures
            has_badge(self.quantity) ==> (r matches Some(s) && s@ == badge_text(
                self.quantity->0,
            )),
            !has_badge(self.quantity) ==> r is None,
    {
        match self.quantity {
            Some(n) => {
                if n > 1 {
                    proof {
                        reveal_strlit("\u{D7}");
                    }
                    let mut s = String::from_str("\u{D7}");
                    push_decimal(&mut s, n as u64);
                    Some(s)
                } else {
                    None
                }
            },
            None => None,
        }
    }
}

proof fn lemma_join_step(parts: Seq<Seq<char>>, sep: Seq<char>, i: int)
    requires
        0 <= i < parts.len(),
    ensures
        i == 0 ==> join(parts.take(i + 1), sep) == parts[0],
        i > 0 ==> join(parts.take(i + 1), sep) == join(parts.take(i), sep) + sep + parts[i],
{
    assert(parts.take(i + 1).drop_last() =~= parts.take(i));
}

/// The display label for a search match's ancestors: every node in its
/// root-first breadcrumb except the last, untitled ones shown as the untitled
/// placeholder, joined by the separator. Empty when there are no ancestors.
pub fn breadcrumb_label(path: &[Node]) -> (r: String)
    ensures
        r@ == label_of(path@),
{
    let k = if path.len() > 0 {
        path.len() - 1
    } else {
        0
    };
    let ghost parts = path@.take(k as int).map_values(|n: Node| display_name(n));
    let mut out = String::new();
    let mut i: usize = 0;
    while i < k
        invariant
            k <= path.len(),
            i <= k,
            parts == path@.take(k as int).map_values(|n: Node| display_name(n)),
            out@ == join(parts.take(i as int), BREADCRUMB_SEPARATOR@),
        decreases k - i,
    {
        proof {
            lemma_join_step(parts, BREADCRUMB_SEPARATOR@, i as int);
        }
        if i > 0 {
            out.append(BREADCRUMB_SEPARATOR);
        }
        match &path[i].name {
            Some(n) => out.append(n.as_str()),
            None => out.append(UNTITLED_LABEL),
        }
        assert(parts[i as int] == display_name(path@[i as int]));
        i = i + 1;
    }
    assert(parts.take(k as int) =~= parts);
    out
}

/// An optional string with blank (empty or whitespace-only) treated as
/// absence; a present value is trimmed of surrounding whitespace.
pub fn blank_to_none(value: Option<String>) -> (r: Option<String>)
    ensures
        opt_view(r) == normalized(value),
{
    match value {
        Some(s) => {
            if blank(s.as_str()) {
                None
            } else {
                Some(trimmed(s.as_str()))
            }
        },
        None => None,
    }
}

} // verus!
