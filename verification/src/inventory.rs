//! The inventory of one library: the node tree, the immutable image rows that
//! carry each node's photo to peers, and the tags on nodes, held as the rows a
//! library stores. Every operation of the live inventory is a verified
//! function over these rows; the host runs the file and cloud side effects an
//! operation hands back.
//!
//! An `Inventory` holds rows that form one tree, and its edits keep them so.
//! Rows that don't (two roots, or a parent cycle left by merging two
//! devices' moves) are refused by `Inventory::from_rows`, by decision: every
//! edit's guarantees rest on the tree's shape. Lookups that don't need the
//! shape (`node_in_rows`, `children_in_rows`, `detail_in_rows`,
//! `tags_in_rows`) and the rows a tag removal deletes (`tag_rows_to_remove`)
//! work on rows of any shape, so a library in such a state can still be
//! browsed and its tags trimmed.

use vstd::prelude::*;

use crate::error::{concat3, concat5, owned, CoreError};
use crate::node::{copy_opt, label_of, breadcrumb_label, normalized, opt_view, blank_to_none, Node, NodeDetail, SearchHit};
use crate::text::{
    ascii_case_variant, chars_of, code_points, contains_ignoring_ascii_case, folded, is_blank, lex_le,
    lex_le_chars, lemma_fold_ignores_ascii_case, lemma_lex_total, lemma_lex_trans, lemma_precedes_orders,
    occurs_at, occurs_in, precedes, same_text, trim, trimmed, blank,
};
use crate::order::{insert_sorted, lemma_insert_contains, sorted, Ordered};
use crate::seq_sets::{lemma_push_set, lemma_update_set};
use crate::tree::{
    lemma_ancestor_add, lemma_depth_unique, lemma_has_id_node, ids_unique, one_root, parents_present, acyclic,
    ancestor_at, has_id, in_subtree, is_breadcrumb, is_child_of, lemma_insert_child_keeps_shape,
    lemma_move_keeps_shape, lemma_node_of, lemma_remove_subtree_keeps_shape,
    lemma_replace_keeps_shape, lemma_subtree_step, node_of, ranked_by, tree_wf,
};

verus! {

/// One immutable `node_images` row: image `id` belongs to node `node_id`.
#[derive(Debug, Clone, PartialEq, Eq)]
pub struct ImageRow {
    pub id: String,
    pub node_id: String,
}

/// One `node_tags` row: tag `tag` on node `node_id`, row id `id`.
#[derive(Debug, Clone, PartialEq, Eq)]
pub struct TagRow {
    pub id: String,
    pub node_id: String,
    pub tag: String,
}

/// The rows of one library, as sets.
pub struct InventoryModel {
    pub nodes: Set<Node>,
    pub images: Set<ImageRow>,
    pub tags: Set<TagRow>,
}

/// Image ids are unique.
pub open spec fn image_ids_unique(images: Set<ImageRow>) -> bool {
    forall|a: ImageRow, b: ImageRow| #[trigger]
        images.contains(a) && #[trigger] images.contains(b) && a.id@ == b.id@ ==> a == b
}

/// Tag row ids are unique, and a node carries a given tag at most once.
pub open spec fn tag_rows_unique(tags: Set<TagRow>) -> bool {
    forall|a: TagRow, b: TagRow| #[trigger]
        tags.contains(a) && #[trigger] tags.contains(b) && (a.id@ == b.id@ || (a.node_id@
            == b.node_id@ && a.tag@ == b.tag@)) ==> a == b
}

/// Some image row has id `id`.
pub open spec fn has_image(images: Set<ImageRow>, id: Seq<char>) -> bool {
    exists|r: ImageRow| #[trigger] images.contains(r) && r.id@ == id
}

/// The shape of a library's rows: a well-formed tree, image and tag rows
/// unique and each naming an existing node.
pub open spec fn model_wf(m: InventoryModel) -> bool {
    &&& tree_wf(m.nodes)
    &&& image_ids_unique(m.images)
    &&& forall|r: ImageRow| #[trigger] m.images.contains(r) ==> has_id(m.nodes, r.node_id@)
    &&& tag_rows_unique(m.tags)
    &&& forall|r: TagRow| #[trigger] m.tags.contains(r) ==> has_id(m.nodes, r.node_id@)
}

/// The rows of one library: the live node tree, its image rows and its tags.
pub struct Inventory {
    nodes: Vec<Node>,
    images: Vec<ImageRow>,
    tags: Vec<TagRow>,
}

impl View for Inventory {
    type V = InventoryModel;

    closed spec fn view(&self) -> InventoryModel {
        InventoryModel {
            nodes: self.nodes@.to_set(),
            images: self.images@.to_set(),
            tags: self.tags@.to_set(),
        }
    }
}

/// A node with every attribute absent.
pub open spec fn bare(n: Node) -> bool {
    &&& n.quantity is None
    &&& n.notes is None
    &&& n.value_cents is None
    &&& n.acquired_at is None
    &&& n.serial is None
    &&& n.barcode is None
}

/// The position the next child of `parent` takes: one past the largest
/// position among its children, 0 for the first child.
pub open spec fn next_position(ns: Set<Node>, parent: Seq<char>) -> int {
    if exists|c: Node| #[trigger] ns.contains(c) && is_child_of(c, parent) {
        max_child_position(ns, parent) + 1
    } else {
        0
    }
}

/// `v` is the largest position among the children of `parent`.
pub open spec fn is_max_child_position(ns: Set<Node>, parent: Seq<char>, v: int) -> bool {
    &&& exists|c: Node| #[trigger] ns.contains(c) && is_child_of(c, parent) && c.position == v
    &&& forall|c: Node| #[trigger] ns.contains(c) && is_child_of(c, parent) ==> c.position <= v
}

/// The largest position among the children of `parent`.
pub open spec fn max_child_position(ns: Set<Node>, parent: Seq<char>) -> int {
    choose|v: int| #[trigger] is_max_child_position(ns, parent, v)
}

/// `n` retitled to `name`.
pub open spec fn renamed(n: Node, name: String) -> Node {
    Node {
        id: n.id,
        parent_id: n.parent_id,
        name: Some(name),
        position: n.position,
        image_id: n.image_id,
        quantity: n.quantity,
        notes: n.notes,
        value_cents: n.value_cents,
        acquired_at: n.acquired_at,
        serial: n.serial,
        barcode: n.barcode,
    }
}

/// `new` is `old` with its attributes set: the counts as given and each text
/// attribute normalized (blank is absent, present is trimmed); everything else
/// kept.
pub open spec fn attributes_set(
    old: Node,
    new: Node,
    quantity: Option<i64>,
    notes: Option<String>,
    value_cents: Option<i64>,
    acquired_at: Option<String>,
    serial: Option<String>,
    barcode: Option<String>,
) -> bool {
    &&& new.id == old.id
    &&& new.parent_id == old.parent_id
    &&& new.name == old.name
    &&& new.position == old.position
    &&& new.image_id == old.image_id
    &&& new.quantity == quantity
    &&& opt_view(new.notes) == normalized(notes)
    &&& new.value_cents == value_cents
    &&& opt_view(new.acquired_at) == normalized(acquired_at)
    &&& opt_view(new.serial) == normalized(serial)
    &&& opt_view(new.barcode) == normalized(barcode)
}

/// `n` pointing at image `image_id` (or at none).
pub open spec fn with_image(n: Node, image_id: Option<String>) -> Node {
    Node {
        id: n.id,
        parent_id: n.parent_id,
        name: n.name,
        position: n.position,
        image_id: image_id,
        quantity: n.quantity,
        notes: n.notes,
        value_cents: n.value_cents,
        acquired_at: n.acquired_at,
        serial: n.serial,
        barcode: n.barcode,
    }
}

/// Some image row with id `image_id` belongs to a node in the subtree of `top`.
pub open spec fn subtree_image(images: Set<ImageRow>, ns: Set<Node>, top: Seq<char>, image_id: String) -> bool {
    exists|x: ImageRow| #[trigger] images.contains(x) && in_subtree(ns, top, x.node_id@) && x.id == image_id
}

/// `s` is the id of one of the first `i` rows of `rows` that `keep` drops.
pub open spec fn removed_before(rows: Seq<ImageRow>, keep: spec_fn(ImageRow) -> bool, i: int, s: String) -> bool {
    exists|j: int| 0 <= j < i && !keep(rows[j]) && s == rows[j].id
}

/// `n` moved under `parent` at `position`.
pub open spec fn moved_to(n: Node, parent: Option<String>, position: i64) -> Node {
    Node {
        id: n.id,
        parent_id: parent,
        name: n.name,
        position: position,
        image_id: n.image_id,
        quantity: n.quantity,
        notes: n.notes,
        value_cents: n.value_cents,
        acquired_at: n.acquired_at,
        serial: n.serial,
        barcode: n.barcode,
    }
}

/// The image rows of `rows` whose id is not `key`.
fn images_without(rows: &Vec<ImageRow>, key: &String) -> (r: Vec<ImageRow>)
    requires
        rows@.no_duplicates(),
    ensures
        r@.no_duplicates(),
        r@.to_set() == rows@.to_set().filter(|x: ImageRow| x.id@ != key@),
{
    let mut out: Vec<ImageRow> = Vec::new();
    let mut i: usize = 0;
    while i < rows.len()
        invariant
            rows@.no_duplicates(),
            i <= rows@.len(),
            out@.no_duplicates(),
            forall|x: ImageRow| #[trigger] out@.contains(x) <==> (exists|k: int| 0 <= k < i && rows@[k] == x && x.id@ != key@),
        decreases rows@.len() - i,
    {
        let x = &rows[i];
        if x.id != *key {
            let c = ImageRow { id: x.id.clone(), node_id: x.node_id.clone() };
            let ghost before = out@;
            proof {
                if before.contains(c) {
                    let k = choose|k: int| 0 <= k < i && rows@[k] == c && c.id@ != key@;
                    assert(rows@[k] == rows@[i as int]);
                }
                lemma_push_set(before, c);
            }
            out.push(c);
            proof {
                assert forall|m: ImageRow| #[trigger] out@.contains(m) <==> (exists|k: int| 0 <= k < i + 1 && rows@[k] == m && m.id@ != key@) by {
                    if out@.contains(m) {
                        if m != c {
                            assert(before.to_set().contains(m));
                        } else {
                            assert(rows@[i as int] == m);
                        }
                    }
                    if exists|k: int| 0 <= k < i + 1 && rows@[k] == m && m.id@ != key@ {
                        let k = choose|k: int| 0 <= k < i + 1 && rows@[k] == m && m.id@ != key@;
                        if k < i {
                            assert(before.contains(m));
                        }
                        assert(out@.to_set().contains(m));
                    }
                }
            }
        } else {
            proof {
                assert forall|m: ImageRow| #[trigger] out@.contains(m) <==> (exists|k: int| 0 <= k < i + 1 && rows@[k] == m && m.id@ != key@) by {
                    if exists|k: int| 0 <= k < i + 1 && rows@[k] == m && m.id@ != key@ {
                        let k = choose|k: int| 0 <= k < i + 1 && rows@[k] == m && m.id@ != key@;
                        if k == i {
                            assert(m.id@ == key@);
                        }
                    }
                }
            }
        }
        i = i + 1;
    }
    proof {
        assert forall|x: ImageRow| out@.to_set().contains(x) <==> rows@.to_set().filter(|x: ImageRow| x.id@ != key@).contains(x) by {
            if rows@.contains(x) {
                let k = rows@.index_of(x);
                assert(rows@[k] == x);
            }
        }
        assert(out@.to_set() =~= rows@.to_set().filter(|x: ImageRow| x.id@ != key@));
    }
    out
}

/// The tag rows of `rows` other than tag `tag` on node `node`.
fn tags_without(rows: &Vec<TagRow>, node: &String, tag: &String) -> (r: Vec<TagRow>)
    requires
        rows@.no_duplicates(),
    ensures
        r@.no_duplicates(),
        r@.to_set() == rows@.to_set().filter(|x: TagRow| !(x.node_id@ == node@ && x.tag@ == tag@)),
{
    let ghost keep = |x: TagRow| !(x.node_id@ == node@ && x.tag@ == tag@);
    let mut out: Vec<TagRow> = Vec::new();
    let mut i: usize = 0;
    while i < rows.len()
        invariant
            rows@.no_duplicates(),
            keep == (|x: TagRow| !(x.node_id@ == node@ && x.tag@ == tag@)),
            i <= rows@.len(),
            out@.no_duplicates(),
            forall|x: TagRow| #[trigger] out@.contains(x) <==> (exists|k: int| 0 <= k < i && rows@[k] == x && keep(x)),
        decreases rows@.len() - i,
    {
        let x = &rows[i];
        if !(x.node_id == *node && x.tag == *tag) {
            let c = TagRow { id: x.id.clone(), node_id: x.node_id.clone(), tag: x.tag.clone() };
            let ghost before = out@;
            proof {
                if before.contains(c) {
                    let k = choose|k: int| 0 <= k < i && rows@[k] == c && keep(c);
                    assert(rows@[k] == rows@[i as int]);
                }
                lemma_push_set(before, c);
            }
            out.push(c);
            proof {
                assert forall|m: TagRow| #[trigger] out@.contains(m) <==> (exists|k: int| 0 <= k < i + 1 && rows@[k] == m && keep(m)) by {
                    if out@.contains(m) {
                        if m != c {
                            assert(before.to_set().contains(m));
                        } else {
                            assert(rows@[i as int] == m);
                        }
                    }
                    if exists|k: int| 0 <= k < i + 1 && rows@[k] == m && keep(m) {
                        let k = choose|k: int| 0 <= k < i + 1 && rows@[k] == m && keep(m);
                        if k < i {
                            assert(before.contains(m));
                        }
                        assert(out@.to_set().contains(m));
                    }
                }
            }
        } else {
            proof {
                assert forall|m: TagRow| #[trigger] out@.contains(m) <==> (exists|k: int| 0 <= k < i + 1 && rows@[k] == m && keep(m)) by {
                    if exists|k: int| 0 <= k < i + 1 && rows@[k] == m && keep(m) {
                        let k = choose|k: int| 0 <= k < i + 1 && rows@[k] == m && keep(m);
                        if k == i {
                            assert(!keep(m));
                        }
                    }
                }
            }
        }
        i = i + 1;
    }
    proof {
        assert forall|x: TagRow| out@.to_set().contains(x) <==> rows@.to_set().filter(keep).contains(x) by {
            if rows@.contains(x) {
                let k = rows@.index_of(x);
                assert(rows@[k] == x);
            }
        }
        assert(out@.to_set() =~= rows@.to_set().filter(keep));
    }
    out
}

/// Some tag row has row id `row_id`, or carries `tag` on node `node`.
pub open spec fn tag_conflict(tags: Set<TagRow>, row_id: Seq<char>, node: Seq<char>, tag: Seq<char>) -> bool {
    exists|x: TagRow| #[trigger] tags.contains(x) && (x.id@ == row_id || (x.node_id@ == node && x.tag@ == tag))
}

/// `r` failed with the database error `msg`, as the store reports a refused
/// write.
pub open spec fn database_error<T>(r: Result<T, CoreError>, msg: Seq<char>) -> bool {
    r matches Err(e) && e matches CoreError::Database(m) && m@ == msg
}

/// The text of a node's name, empty when it is untitled.
pub open spec fn name_text(n: Node) -> Seq<char> {
    match n.name {
        Some(s) => s@,
        None => Seq::empty(),
    }
}

/// Whether `n` is a search match for the (trimmed, non-empty) query `q`: a
/// titled non-root node whose name contains `q`, ignoring ASCII case.
pub open spec fn search_match(n: Node, q: Seq<char>) -> bool {
    &&& n.parent_id is Some
    &&& n.name is Some
    &&& occurs_in(folded(name_text(n)), folded(q))
}

/// A well-built search hit for `q`: a matching node of the tree with its
/// breadcrumb and the label of its ancestors.
pub open spec fn hit_ok(ns: Set<Node>, h: SearchHit, q: Seq<char>) -> bool {
    &&& ns.contains(h.node)
    &&& search_match(h.node, q)
    &&& is_breadcrumb(ns, h.path@, h.node.id@)
    &&& h.path_label@ == label_of(h.path@)
}

/// Some hit in `hits` is for node `n`.
pub open spec fn hit_for(hits: Seq<SearchHit>, n: Node) -> bool {
    exists|h: SearchHit| #[trigger] hits.contains(h) && h.node == n
}

/// The node ids of the hits.
pub open spec fn hit_ids(hits: Seq<SearchHit>) -> Seq<Seq<char>> {
    hits.map_values(|h: SearchHit| h.node.id@)
}

/// Some image row of node `id` has image id `t`.
pub open spec fn image_of(images: Set<ImageRow>, id: Seq<char>, t: String) -> bool {
    exists|x: ImageRow| #[trigger] images.contains(x) && x.node_id@ == id && x.id == t
}

/// Some tag row on node `id` carries the tag `t`.
pub open spec fn tag_of(tags: Set<TagRow>, id: Seq<char>, t: String) -> bool {
    exists|x: TagRow| #[trigger] tags.contains(x) && x.node_id@ == id && x.tag == t
}

/// Tags are listed in code-point order (SQLite's `BINARY` collation).
impl Ordered for String {
    open spec fn key_le(a: String, b: String) -> bool {
        lex_le(code_points(a@), code_points(b@))
    }

    proof fn lemma_key_total(a: String, b: String) {
        lemma_lex_total(code_points(a@), code_points(b@));
    }

    proof fn lemma_key_trans(a: String, b: String, c: String) {
        lemma_lex_trans(code_points(a@), code_points(b@), code_points(c@));
    }

    fn le(&self, other: &String) -> (r: bool) {
        let a = chars_of(self.as_str());
        let b = chars_of(other.as_str());
        lex_le_chars(&a, &b, false)
    }
}

/// Search hits are listed by name, ASCII case folded (SQLite's `NOCASE`).
impl Ordered for SearchHit {
    open spec fn key_le(a: SearchHit, b: SearchHit) -> bool {
        lex_le(folded(name_text(a.node)), folded(name_text(b.node)))
    }

    proof fn lemma_key_total(a: SearchHit, b: SearchHit) {
        lemma_lex_total(folded(name_text(a.node)), folded(name_text(b.node)));
    }

    proof fn lemma_key_trans(a: SearchHit, b: SearchHit, c: SearchHit) {
        lemma_lex_trans(folded(name_text(a.node)), folded(name_text(b.node)), folded(name_text(c.node)));
    }

    fn le(&self, other: &SearchHit) -> (r: bool) {
        let a = name_chars(&self.node);
        let b = name_chars(&other.node);
        lex_le_chars(&a, &b, true)
    }
}

/// The characters of a node's name, none when it is untitled.
fn name_chars(n: &Node) -> (r: Vec<char>)
    ensures
        r@ == name_text(*n),
{
    match &n.name {
        Some(s) => chars_of(s.as_str()),
        None => Vec::new(),
    }
}

proof fn lemma_insert_map<A, B>(s: Seq<A>, k: int, x: A, f: spec_fn(A) -> B)
    requires
        0 <= k <= s.len(),
    ensures
        s.insert(k, x).map_values(f) == s.map_values(f).insert(k, f(x)),
{
    assert(s.insert(k, x).map_values(f) =~= s.map_values(f).insert(k, f(x)));
}

/// No two rows of `s` share an id.
pub open spec fn seq_ids_distinct(s: Seq<Node>) -> bool {
    forall|i: int, j: int| 0 <= i < s.len() && 0 <= j < s.len() && i != j ==> #[trigger] s[i].id@ != #[trigger] s[j].id@
}

/// No two image rows share an id.
pub open spec fn image_rows_distinct(s: Seq<ImageRow>) -> bool {
    forall|i: int, j: int| 0 <= i < s.len() && 0 <= j < s.len() && i != j ==> #[trigger] s[i].id@ != #[trigger] s[j].id@
}

/// No two tag rows share an id, nor a node and a tag.
pub open spec fn tag_rows_distinct(s: Seq<TagRow>) -> bool {
    forall|i: int, j: int| 0 <= i < s.len() && 0 <= j < s.len() && i != j ==> #[trigger] s[i].id@ != #[trigger] s[j].id@
        && !(s[i].node_id@ == s[j].node_id@ && s[i].tag@ == s[j].tag@)
}

/// Rows as a library stores them form a library: node, image and tag rows
/// distinct, and together they keep the shape every library keeps.
pub open spec fn rows_form_library(nodes: Seq<Node>, images: Seq<ImageRow>, tags: Seq<TagRow>) -> bool {
    &&& seq_ids_distinct(nodes)
    &&& image_rows_distinct(images)
    &&& tag_rows_distinct(tags)
    &&& model_wf(InventoryModel { nodes: nodes.to_set(), images: images.to_set(), tags: tags.to_set() })
}

/// The index of the row of `nodes` with id `key`.
fn find_in(nodes: &Vec<Node>, key: &String) -> (r: Option<usize>)
    ensures
        r matches Some(i) ==> i < nodes@.len() && nodes@[i as int].id@ == key@,
        r is None ==> forall|k: int| 0 <= k < nodes@.len() ==> nodes@[k].id@ != key@,
{
    let mut i: usize = 0;
    while i < nodes.len()
        invariant
            i <= nodes@.len(),
            forall|k: int| 0 <= k < i ==> nodes@[k].id@ != key@,
        decreases nodes@.len() - i,
    {
        if nodes[i].id == *key {
            return Some(i);
        }
        i = i + 1;
    }
    None
}

fn node_ids_distinct(nodes: &Vec<Node>) -> (r: bool)
    ensures
        r == seq_ids_distinct(nodes@),
{
    let n = nodes.len();
    let mut i: usize = 0;
    while i < n
        invariant
            n == nodes@.len(),
            i <= n,
            forall|a: int, b: int| 0 <= a < i && 0 <= b < n && a != b ==> #[trigger] nodes@[a].id@ != #[trigger] nodes@[b].id@,
        decreases n - i,
    {
        let mut j: usize = 0;
        while j < n
            invariant
                n == nodes@.len(),
                i < n,
                j <= n,
                forall|b: int| 0 <= b < j && b != i ==> nodes@[i as int].id@ != #[trigger] nodes@[b].id@,
            decreases n - j,
        {
            if j != i && nodes[i].id == nodes[j].id {
                return false;
            }
            j = j + 1;
        }
        i = i + 1;
    }
    true
}

fn image_ids_distinct(rows: &Vec<ImageRow>) -> (r: bool)
    ensures
        r == image_rows_distinct(rows@),
{
    let n = rows.len();
    let mut i: usize = 0;
    while i < n
        invariant
            n == rows@.len(),
            i <= n,
            forall|a: int, b: int| 0 <= a < i && 0 <= b < n && a != b ==> #[trigger] rows@[a].id@ != #[trigger] rows@[b].id@,
        decreases n - i,
    {
        let mut j: usize = 0;
        while j < n
            invariant
                n == rows@.len(),
                i < n,
                j <= n,
                forall|b: int| 0 <= b < j && b != i ==> rows@[i as int].id@ != #[trigger] rows@[b].id@,
            decreases n - j,
        {
            if j != i && rows[i].id == rows[j].id {
                return false;
            }
            j = j + 1;
        }
        i = i + 1;
    }
    true
}

fn tag_rows_are_distinct(rows: &Vec<TagRow>) -> (r: bool)
    ensures
        r == tag_rows_distinct(rows@),
{
    let n = rows.len();
    let mut i: usize = 0;
    while i < n
        invariant
            n == rows@.len(),
            i <= n,
            forall|a: int, b: int| 0 <= a < i && 0 <= b < n && a != b ==> #[trigger] rows@[a].id@ != #[trigger] rows@[b].id@,
            forall|a: int, b: int| 0 <= a < i && 0 <= b < n && a != b ==> !(#[trigger] rows@[a].node_id@ == #[trigger] rows@[b].node_id@
                && rows@[a].tag@ == rows@[b].tag@),
        decreases n - i,
    {
        let mut j: usize = 0;
        while j < n
            invariant
                n == rows@.len(),
                i < n,
                j <= n,
                forall|b: int| 0 <= b < j && b != i ==> rows@[i as int].id@ != #[trigger] rows@[b].id@,
                forall|b: int| 0 <= b < j && b != i ==> !(rows@[i as int].node_id@ == #[trigger] rows@[b].node_id@
                    && rows@[i as int].tag@ == rows@[b].tag@),
            decreases n - j,
        {
            if j != i {
                let same_id = rows[i].id == rows[j].id;
                let same_node = rows[i].node_id == rows[j].node_id;
                let same_tag = rows[i].tag == rows[j].tag;
                if same_id || (same_node && same_tag) {
                    return false;
                }
            }
            j = j + 1;
        }
        i = i + 1;
    }
    true
}

/// Children are listed by sibling position.
impl Ordered for Node {
    open spec fn key_le(a: Node, b: Node) -> bool {
        a.position <= b.position
    }

    proof fn lemma_key_total(a: Node, b: Node) {
    }

    proof fn lemma_key_trans(a: Node, b: Node, c: Node) {
    }

    fn le(&self, other: &Node) -> (r: bool) {
        self.position <= other.position
    }
}

/// Whether `n` hangs directly under the node with id `key`.
fn child_of(n: &Node, key: &String) -> (r: bool)
    ensures
        r == is_child_of(*n, key@),
{
    match &n.parent_id {
        Some(p) => *p == *key,
        None => false,
    }
}

/// Tag row `rid` carries `tag` on node `id`.
pub open spec fn tag_row_carrying(tags: Set<TagRow>, id: Seq<char>, tag: Seq<char>, rid: String) -> bool {
    exists|x: TagRow| #[trigger] tags.contains(x) && x.node_id@ == id && x.tag@ == tag && x.id == rid
}

/// The node with id `id` among rows as stored, whatever shape they form, or
/// `None` when no row has that id.
pub fn node_in_rows(nodes: &Vec<Node>, id: &str) -> (r: Option<Node>)
    ensures
        r matches Some(n) ==> nodes@.to_set().contains(n) && n.id@ == id@,
        r is None <==> !has_id(nodes@.to_set(), id@),
{
    let key = owned(id);
    match find_in(nodes, &key) {
        Some(i) => {
            proof {
                assert(nodes@.contains(nodes@[i as int]));
                assert(nodes@.to_set().contains(nodes@[i as int]));
            }
            Some(nodes[i].duplicate())
        },
        None => {
            proof {
                if has_id(nodes@.to_set(), id@) {
                    let m = choose|m: Node| #[trigger] nodes@.to_set().contains(m) && m.id@ == id@;
                    let k = nodes@.index_of(m);
                    assert(nodes@[k].id@ != key@);
                }
            }
            None
        },
    }
}

/// The children of `parent_id` among rows as stored, whatever shape they form,
/// ordered by sibling position.
pub fn children_in_rows(nodes: &Vec<Node>, parent_id: &str) -> (r: Vec<Node>)
    ensures
        forall|n: Node| #[trigger] r@.contains(n) <==> nodes@.to_set().contains(n) && is_child_of(n, parent_id@),
        nodes@.no_duplicates() ==> r@.no_duplicates(),
        sorted(r@),
{
    let key = owned(parent_id);
    let mut out: Vec<Node> = Vec::new();
    let mut i: usize = 0;
    while i < nodes.len()
        invariant
            key@ == parent_id@,
            i <= nodes@.len(),
            nodes@.no_duplicates() ==> out@.no_duplicates(),
            sorted(out@),
            forall|n: Node| #[trigger]
                out@.contains(n) <==> (exists|k: int| 0 <= k < i && nodes@[k] == n && is_child_of(n, key@)),
        decreases nodes@.len() - i,
    {
        let n = &nodes[i];
        if child_of(n, &key) {
            let c = n.duplicate();
            let ghost before = out@;
            proof {
                if nodes@.no_duplicates() && before.contains(c) {
                    let k = choose|k: int| 0 <= k < i && nodes@[k] == c && is_child_of(c, key@);
                    assert(nodes@[k] == nodes@[i as int]);
                }
            }
            insert_sorted(&mut out, c);
            proof {
                let k = choose|k: int| 0 <= k <= before.len() && out@ == before.insert(k, c);
                lemma_insert_contains(before, k, c);
                assert forall|m: Node| #[trigger] out@.contains(m) <==> (exists|k: int|
                    0 <= k < i + 1 && nodes@[k] == m && is_child_of(m, key@)) by {
                    if m == c {
                        assert(nodes@[i as int] == m);
                    }
                    if exists|k: int| 0 <= k < i + 1 && nodes@[k] == m && is_child_of(m, key@) {
                        let k = choose|k: int| 0 <= k < i + 1 && nodes@[k] == m && is_child_of(m, key@);
                        if k < i {
                            assert(before.contains(m));
                        }
                    }
                }
            }
        } else {
            proof {
                assert forall|m: Node| #[trigger] out@.contains(m) <==> (exists|k: int|
                    0 <= k < i + 1 && nodes@[k] == m && is_child_of(m, key@)) by {
                    if exists|k: int| 0 <= k < i + 1 && nodes@[k] == m && is_child_of(m, key@) {
                        let k = choose|k: int| 0 <= k < i + 1 && nodes@[k] == m && is_child_of(m, key@);
                        if k < i {
                            assert(out@.contains(m));
                        }
                    }
                }
            }
        }
        i = i + 1;
    }
    proof {
        assert forall|n: Node| #[trigger] out@.contains(n) <==> nodes@.to_set().contains(n)
            && is_child_of(n, parent_id@) by {
            if nodes@.to_set().contains(n) && is_child_of(n, parent_id@) {
                let k = nodes@.index_of(n);
                assert(nodes@[k] == n);
            }
        }
    }
    out
}

/// The tags on node `id` among tag rows as stored, in code-point order.
pub fn tags_in_rows(rows: &Vec<TagRow>, id: &str) -> (tags: Vec<String>)
    ensures
        forall|k: int| 0 <= k < tags@.len() ==> tag_of(rows@.to_set(), id@, #[trigger] tags@[k]),
        forall|x: TagRow| #[trigger] rows@.to_set().contains(x) && x.node_id@ == id@ ==> tags@.contains(x.tag),
        rows@.no_duplicates() && tag_rows_unique(rows@.to_set()) ==> tags@.no_duplicates(),
        sorted(tags@),
{
    let key = owned(id);
    let mut tags: Vec<String> = Vec::new();
    let mut k: usize = 0;
    while k < rows.len()
        invariant
            key@ == id@,
            k <= rows@.len(),
            rows@.no_duplicates() && tag_rows_unique(rows@.to_set()) ==> tags@.no_duplicates(),
            sorted(tags@),
            forall|t: String| #[trigger] tags@.contains(t) <==> (exists|j: int| 0 <= j < k && rows@[j].node_id@ == id@ && rows@[j].tag == t),
        decreases rows@.len() - k,
    {
        let x = &rows[k];
        if x.node_id == key {
            let t = x.tag.clone();
            let ghost before = tags@;
            proof {
                if rows@.no_duplicates() && tag_rows_unique(rows@.to_set()) && before.contains(t) {
                    let j = choose|j: int| 0 <= j < k && rows@[j].node_id@ == id@ && rows@[j].tag == t;
                    assert(rows@.contains(rows@[j]) && rows@.contains(rows@[k as int]));
                    assert(rows@.to_set().contains(rows@[j]) && rows@.to_set().contains(rows@[k as int]));
                    assert(rows@[j] == rows@[k as int]);
                }
            }
            insert_sorted(&mut tags, t);
            proof {
                let p = choose|p: int| 0 <= p <= before.len() && tags@ == before.insert(p, t);
                lemma_insert_contains(before, p, t);
                assert forall|u: String| #[trigger] tags@.contains(u) <==> (exists|j: int| 0 <= j < k + 1 && rows@[j].node_id@ == id@ && rows@[j].tag == u) by {
                    if u == t {
                        assert(rows@[k as int].tag == u);
                    }
                    if exists|j: int| 0 <= j < k + 1 && rows@[j].node_id@ == id@ && rows@[j].tag == u {
                        let j = choose|j: int| 0 <= j < k + 1 && rows@[j].node_id@ == id@ && rows@[j].tag == u;
                        if j < k {
                            assert(before.contains(u));
                        }
                    }
                }
            }
        } else {
            proof {
                assert forall|u: String| #[trigger] tags@.contains(u) <==> (exists|j: int| 0 <= j < k + 1 && rows@[j].node_id@ == id@ && rows@[j].tag == u) by {
                    if exists|j: int| 0 <= j < k + 1 && rows@[j].node_id@ == id@ && rows@[j].tag == u {
                        let j = choose|j: int| 0 <= j < k + 1 && rows@[j].node_id@ == id@ && rows@[j].tag == u;
                        if j == k {
                            assert(rows@[j].node_id@ != id@);
                        }
                    }
                }
            }
        }
        k = k + 1;
    }
    proof {
        assert forall|p: int| 0 <= p < tags@.len() implies tag_of(rows@.to_set(), id@, #[trigger] tags@[p]) by {
            assert(tags@.contains(tags@[p]));
            let j = choose|j: int| 0 <= j < rows@.len() && rows@[j].node_id@ == id@ && rows@[j].tag == tags@[p];
            assert(rows@.contains(rows@[j]));
            assert(rows@.to_set().contains(rows@[j]));
        }
        assert forall|x: TagRow| #[trigger] rows@.to_set().contains(x) && x.node_id@ == id@ implies tags@.contains(x.tag) by {
            let j = rows@.index_of(x);
            assert(rows@[j] == x);
        }
    }
    tags
}

/// A node with its tags among rows as stored, for the edit screen: the tags
/// in code-point order. NotFound if no row has id `id`.
pub fn detail_in_rows(nodes: &Vec<Node>, tags: &Vec<TagRow>, id: &str) -> (r: Result<NodeDetail, CoreError>)
    ensures
        r is Ok <==> has_id(nodes@.to_set(), id@),
        r matches Ok(d) ==> {
            &&& nodes@.to_set().contains(d.node)
            &&& d.node.id@ == id@
            &&& forall|k: int| 0 <= k < d.tags@.len() ==> tag_of(tags@.to_set(), id@, #[trigger] d.tags@[k])
            &&& forall|x: TagRow| #[trigger] tags@.to_set().contains(x) && x.node_id@ == id@ ==> d.tags@.contains(x.tag)
            &&& tags@.no_duplicates() && tag_rows_unique(tags@.to_set()) ==> d.tags@.no_duplicates()
            &&& sorted(d.tags@)
        },
        r matches Err(e) ==> (e matches CoreError::NotFound(m) && m@ == "no node "@ + id@ + " for detail"@),
{
    match node_in_rows(nodes, id) {
        None => Err(CoreError::NotFound(concat3("no node ", id, " for detail"))),
        Some(node) => {
            let t = tags_in_rows(tags, id);
            Ok(NodeDetail { node, tags: t })
        },
    }
}

/// The ids of the tag rows that carry `tag` on node `id`: the rows a removal
/// of that tag deletes.
pub fn tag_rows_to_remove(rows: &Vec<TagRow>, id: &str, tag: &str) -> (r: Vec<String>)
    ensures
        forall|k: int| 0 <= k < r@.len() ==> tag_row_carrying(rows@.to_set(), id@, tag@, #[trigger] r@[k]),
        forall|x: TagRow| #[trigger] rows@.to_set().contains(x) && x.node_id@ == id@ && x.tag@ == tag@
            ==> r@.contains(x.id),
{
    let mut out: Vec<String> = Vec::new();
    let mut k: usize = 0;
    while k < rows.len()
        invariant
            k <= rows@.len(),
            forall|p: int| 0 <= p < out@.len() ==> tag_row_carrying(rows@.to_set(), id@, tag@, #[trigger] out@[p]),
            forall|j: int| 0 <= j < k && rows@[j].node_id@ == id@ && rows@[j].tag@ == tag@ ==> out@.contains(#[trigger] rows@[j].id),
        decreases rows@.len() - k,
    {
        let x = &rows[k];
        if same_text(x.node_id.as_str(), id) && same_text(x.tag.as_str(), tag) {
            let ghost before = out@;
            out.push(x.id.clone());
            proof {
                assert(rows@.contains(rows@[k as int]));
                assert(rows@.to_set().contains(rows@[k as int]));
                assert(out@[before.len() as int] == rows@[k as int].id);
                assert forall|j: int| 0 <= j < k + 1 && rows@[j].node_id@ == id@ && rows@[j].tag@ == tag@
                    implies out@.contains(#[trigger] rows@[j].id) by {
                    if j < k {
                        assert(before.contains(rows@[j].id));
                        let p = choose|p: int| 0 <= p < before.len() && before[p] == rows@[j].id;
                        assert(out@[p] == rows@[j].id);
                    } else {
                        assert(out@[before.len() as int] == rows@[j].id);
                    }
                }
                assert forall|p: int| 0 <= p < out@.len() implies tag_row_carrying(rows@.to_set(), id@, tag@, #[trigger] out@[p]) by {
                    if p < before.len() {
                        assert(out@[p] == before[p]);
                    }
                }
            }
        }
        k = k + 1;
    }
    proof {
        assert forall|x: TagRow| #[trigger] rows@.to_set().contains(x) && x.node_id@ == id@ && x.tag@ == tag@
            implies out@.contains(x.id) by {
            let j = rows@.index_of(x);
            assert(rows@[j] == x);
        }
    }
    out
}

impl Inventory {
    /// The rows are well formed: no duplicated row, and the model's shape.
    pub closed spec fn wf(&self) -> bool {
        &&& self.nodes@.no_duplicates()
        &&& self.images@.no_duplicates()
        &&& self.tags@.no_duplicates()
        &&& model_wf(self@)
    }

    proof fn lemma_seq_ids(&self)
        requires
            self.wf(),
        ensures
            forall|i: int, j: int|
                0 <= i < self.nodes@.len() && 0 <= j < self.nodes@.len() && i != j
                    ==> #[trigger] self.nodes@[i].id@ != #[trigger] self.nodes@[j].id@,
            forall|i: int| 0 <= i < self.nodes@.len() ==> self@.nodes.contains(#[trigger] self.nodes@[i]),
            forall|n: Node| self@.nodes.contains(n) <==> self.nodes@.contains(n),
            forall|r: ImageRow| self@.images.contains(r) <==> self.images@.contains(r),
            forall|r: TagRow| self@.tags.contains(r) <==> self.tags@.contains(r),
    {
        assert forall|i: int, j: int|
            0 <= i < self.nodes@.len() && 0 <= j < self.nodes@.len() && i != j
                implies #[trigger] self.nodes@[i].id@ != #[trigger] self.nodes@[j].id@ by {
            assert(self@.nodes.contains(self.nodes@[i]));
            assert(self@.nodes.contains(self.nodes@[j]));
        }
        assert forall|i: int| 0 <= i < self.nodes@.len() implies self@.nodes.contains(
            #[trigger] self.nodes@[i],
        ) by {
            assert(self.nodes@.contains(self.nodes@[i]));
        }
    }

    /// A library holding only its root house node: id `root_id`, titled
    /// `name`, at position 0, with no image and no attributes.
    pub fn new(root_id: String, name: String) -> (r: Inventory)
        ensures
            r.wf(),
            r@.images.is_empty(),
            r@.tags.is_empty(),
            r@.nodes.len() == 1,
            exists|n: Node|
                #[trigger] r@.nodes.contains(n) && n.id@ == root_id@ && n.parent_id is None
                    && opt_view(n.name) == Some(name@) && n.position == 0 && n.image_id is None
                    && bare(n),
    {
        let root = Node {
            id: root_id,
            parent_id: None,
            name: Some(name),
            position: 0,
            image_id: None,
            quantity: None,
            notes: None,
            value_cents: None,
            acquired_at: None,
            serial: None,
            barcode: None,
        };
        let mut nodes: Vec<Node> = Vec::new();
        nodes.push(root);
        let inv = Inventory { nodes, images: Vec::new(), tags: Vec::new() };
        proof {
            let ns = inv@.nodes;
            assert(ns =~= set![root]);
            assert(inv.nodes@[0] == root);
            assert(ns.contains(root));
            let rank = |id: Seq<char>| 0nat;
            assert(ranked_by(ns, rank));
            assert(inv@.images =~= Set::empty());
            assert(inv@.tags =~= Set::empty());
            assert(ns.len() == 1) by {
                vstd::set_lib::lemma_set_empty_equivalency_len(Set::<Node>::empty());
            }
        }
        inv
    }

    /// The index of the node with id `key`.
    fn find(&self, key: &String) -> (r: Option<usize>)
        requires
            self.wf(),
        ensures
            r matches Some(i) ==> i < self.nodes@.len() && self.nodes@[i as int].id@ == key@
                && node_of(self@.nodes, key@) == self.nodes@[i as int]
                && self@.nodes.contains(self.nodes@[i as int]) && has_id(self@.nodes, key@),
            r is None ==> !has_id(self@.nodes, key@),
    {
        proof {
            self.lemma_seq_ids();
        }
        let mut i: usize = 0;
        while i < self.nodes.len()
            invariant
                self.wf(),
                i <= self.nodes@.len(),
                forall|k: int| 0 <= k < i ==> self.nodes@[k].id@ != key@,
            decreases self.nodes@.len() - i,
        {
            if self.nodes[i].id == *key {
                proof {
                    lemma_node_of(self@.nodes, self.nodes@[i as int]);
                    assert(self@.nodes.contains(self.nodes@[i as int]));
                }
                return Some(i);
            }
            i = i + 1;
        }
        proof {
            if has_id(self@.nodes, key@) {
                let n = choose|n: Node| #[trigger] self@.nodes.contains(n) && n.id@ == key@;
                let k = self.nodes@.index_of(n);
                assert(self.nodes@[k].id@ == key@);
            }
        }
        None
    }

    /// The single top-level node (the house, with no parent).
    pub fn root(&self) -> (r: Result<Node, CoreError>)
        requires
            self.wf(),
        ensures
            r matches Ok(n) && self@.nodes.contains(n) && n.parent_id is None,
    {
        proof {
            self.lemma_seq_ids();
        }
        let mut i: usize = 0;
        while i < self.nodes.len()
            invariant
                self.wf(),
                i <= self.nodes@.len(),
                forall|k: int| 0 <= k < i ==> self.nodes@[k].parent_id is Some,
            decreases self.nodes@.len() - i,
        {
            if self.nodes[i].parent_id.is_none() {
                return Ok(self.nodes[i].duplicate());
            }
            i = i + 1;
        }
        proof {
            let r = choose|r: Node|
                #[trigger] self@.nodes.contains(r) && r.parent_id is None && forall|n: Node| #[trigger]
                    self@.nodes.contains(n) && n.parent_id is None ==> n == r;
            let k = self.nodes@.index_of(r);
            assert(self.nodes@[k].parent_id is None);
        }
        Err(CoreError::NotFound(owned("no root node")))
    }

    /// A single node by id, or `None` if it doesn't exist.
    pub fn get(&self, id: &str) -> (r: Option<Node>)
        requires
            self.wf(),
        ensures
            r matches Some(n) ==> self@.nodes.contains(n) && n.id@ == id@,
            r is None <==> !has_id(self@.nodes, id@),
    {
        node_in_rows(&self.nodes, id)
    }

    /// Whether the node with id `id` lies in the subtree rooted at `top`.
    fn in_subtree_of(&self, top: &String, id: &String) -> (r: bool)
        requires
            self.wf(),
            has_id(self@.nodes, id@),
        ensures
            r == in_subtree(self@.nodes, top@, id@),
    {
        proof {
            self.lemma_seq_ids();
        }
        let ghost ns = self@.nodes;
        let ghost rank = choose|rank: spec_fn(Seq<char>) -> nat| ranked_by(ns, rank);
        let mut idx = match self.find(id) {
            Some(i) => i,
            None => {
                return false;
            },
        };
        loop
            invariant
                self.wf(),
                ns == self@.nodes,
                ranked_by(ns, rank),
                idx < self.nodes@.len(),
                in_subtree(ns, top@, id@) == in_subtree(ns, top@, self.nodes@[idx as int].id@),
            decreases rank(self.nodes@[idx as int].id@),
        {
            let n = &self.nodes[idx];
            proof {
                lemma_subtree_step(ns, top@, *n);
                assert(ns.contains(*n));
            }
            if n.id == *top {
                return true;
            }
            match &n.parent_id {
                None => {
                    return false;
                },
                Some(p) => {
                    match self.find(p) {
                        Some(j) => {
                            idx = j;
                        },
                        None => {
                            return false;
                        },
                    }
                },
            }
        }
    }

    /// The breadcrumb from the root down to `id`, root first. NotFound if `id`
    /// doesn't exist.
    pub fn path_to(&self, id: &str) -> (r: Result<Vec<Node>, CoreError>)
        requires
            self.wf(),
        ensures
            r matches Ok(p) ==> is_breadcrumb(self@.nodes, p@, id@),
            r is Ok <==> has_id(self@.nodes, id@),
            r matches Err(e) ==> (e matches CoreError::NotFound(m) && m@ == "no node for breadcrumb"@),
    {
        let key = owned(id);
        match self.breadcrumb(&key) {
            Some(p) => Ok(p),
            None => Err(CoreError::NotFound(owned("no node for breadcrumb"))),
        }
    }

    /// The breadcrumb of `key`, or `None` when there is no such node.
    fn breadcrumb(&self, key: &String) -> (r: Option<Vec<Node>>)
        requires
            self.wf(),
        ensures
            r matches Some(p) ==> is_breadcrumb(self@.nodes, p@, key@),
            r is Some <==> has_id(self@.nodes, key@),
    {
        proof {
            self.lemma_seq_ids();
        }
        let ghost ns = self@.nodes;
        let ghost rank = choose|rank: spec_fn(Seq<char>) -> nat| ranked_by(ns, rank);
        let start = match self.find(key) {
            Some(i) => i,
            None => {
                return None;
            },
        };
        let mut path: Vec<Node> = Vec::new();
        path.push(self.nodes[start].duplicate());
        loop
            invariant
                self.wf(),
                ns == self@.nodes,
                ranked_by(ns, rank),
                path@.len() >= 1,
                path@.last().id@ == key@,
                forall|k: int| 0 <= k < path@.len() ==> ns.contains(#[trigger] path@[k]),
                forall|k: int|
                    0 <= k < path@.len() - 1 ==> is_child_of(#[trigger] path@[k + 1], path@[k].id@),
            decreases rank(path@[0].id@),
        {
            let first = &path[0];
            proof {
                assert(ns.contains(path@[0]));
            }
            match &first.parent_id {
                None => {
                    return Some(path);
                },
                Some(p) => {
                    match self.find(p) {
                        Some(j) => {
                            let parent = self.nodes[j].duplicate();
                            let ghost old_path = path@;
                            assert(is_child_of(old_path[0], parent.id@));
                            path.insert(0, parent);
                            proof {
                                assert(path@ =~= seq![parent] + old_path);
                                assert forall|k: int| 0 <= k < path@.len() implies ns.contains(
                                    #[trigger] path@[k],
                                ) by {
                                    if k > 0 {
                                        assert(path@[k] == old_path[k - 1]);
                                    }
                                }
                                assert forall|k: int| 0 <= k < path@.len() - 1 implies is_child_of(
                                    #[trigger] path@[k + 1],
                                    path@[k].id@,
                                ) by {
                                    if k > 0 {
                                        let k1 = k - 1;
                                        assert(is_child_of(old_path[k1 + 1], old_path[k1].id@));
                                        assert(path@[k + 1] == old_path[k]);
                                        assert(path@[k] == old_path[k - 1]);
                                    } else {
                                        assert(path@[1] == old_path[0]);
                                        assert(path@[0] == parent);
                                    }
                                }
                            }
                        },
                        None => {
                            proof {
                                assert(ns.contains(path@[0]));
                            }
                            return None;
                        },
                    }
                },
            }
        }
    }

    /// A node's children, ordered by sibling position.
    pub fn children(&self, parent_id: &str) -> (r: Vec<Node>)
        requires
            self.wf(),
        ensures
            forall|n: Node| #[trigger] r@.contains(n) <==> self@.nodes.contains(n) && is_child_of(
                n,
                parent_id@,
            ),
            r@.no_duplicates(),
            sorted(r@),
    {
        children_in_rows(&self.nodes, parent_id)
    }

    /// The position the next child of `key` takes, or `None` when it would not
    /// fit in an `i64`.
    fn next_child_position(&self, key: &String) -> (r: Option<i64>)
        requires
            self.wf(),
        ensures
            r matches Some(p) ==> p == next_position(self@.nodes, key@),
            r is None ==> next_position(self@.nodes, key@) > i64::MAX,
    {
        proof {
            self.lemma_seq_ids();
        }
        let ghost ns = self@.nodes;
        let mut best: Option<i64> = None;
        let mut i: usize = 0;
        while i < self.nodes.len()
            invariant
                self.wf(),
                ns == self@.nodes,
                i <= self.nodes@.len(),
                best is None ==> forall|k: int| 0 <= k < i ==> !is_child_of(#[trigger] self.nodes@[k], key@),
                best matches Some(v) ==> (exists|k: int| 0 <= k < i && is_child_of(#[trigger] self.nodes@[k], key@) && self.nodes@[k].position == v),
                best matches Some(v) ==> (forall|k: int| 0 <= k < i && is_child_of(#[trigger] self.nodes@[k], key@) ==> self.nodes@[k].position <= v),
            decreases self.nodes@.len() - i,
        {
            let n = &self.nodes[i];
            if child_of(n, key) {
                match best {
                    Some(v) => {
                        if n.position > v {
                            best = Some(n.position);
                        }
                    },
                    None => {
                        best = Some(n.position);
                    },
                }
            }
            i = i + 1;
        }
        match best {
            None => {
                proof {
                    assert forall|c: Node| #[trigger] ns.contains(c) implies !is_child_of(c, key@) by {
                        let k = self.nodes@.index_of(c);
                        assert(self.nodes@[k] == c);
                    }
                }
                Some(0)
            },
            Some(v) => {
                proof {
                    let k = choose|k: int| 0 <= k < i && is_child_of(#[trigger] self.nodes@[k], key@) && self.nodes@[k].position == v;
                    let c0 = self.nodes@[k];
                    assert(ns.contains(c0) && is_child_of(c0, key@));
                    assert forall|c: Node| #[trigger] ns.contains(c) && is_child_of(c, key@) implies c.position <= v by {
                        let k2 = self.nodes@.index_of(c);
                        assert(self.nodes@[k2] == c);
                    }
                    assert(is_max_child_position(ns, key@, v as int));
                    let w = max_child_position(ns, key@);
                    assert(is_max_child_position(ns, key@, w));
                    let cw = choose|c: Node| #[trigger] ns.contains(c) && is_child_of(c, key@) && c.position == w;
                    assert(w <= v && v <= w);
                }
                if v == i64::MAX {
                    None
                } else {
                    Some(v + 1)
                }
            },
        }
    }

    /// Whether some image row has id `key`.
    fn image_taken(&self, key: &String) -> (r: bool)
        requires
            self.wf(),
        ensures
            r == has_image(self@.images, key@),
    {
        let mut i: usize = 0;
        while i < self.images.len()
            invariant
                i <= self.images@.len(),
                forall|k: int| 0 <= k < i ==> self.images@[k].id@ != key@,
            decreases self.images@.len() - i,
        {
            if self.images[i].id == *key {
                proof {
                    assert(self@.images.contains(self.images@[i as int]));
                }
                return true;
            }
            i = i + 1;
        }
        proof {
            if has_image(self@.images, key@) {
                let r = choose|r: ImageRow| #[trigger] self@.images.contains(r) && r.id@ == key@;
                let k = self.images@.index_of(r);
                assert(self.images@[k] == r);
            }
        }
        false
    }

    /// Append an untitled child to `parent_id` carrying image `image_id` (the
    /// image file already written under that id), as node `id`: the node row
    /// (untitled, no attributes, the next sibling position) and its image row
    /// land together. Fails with a database error, changing nothing, when `id`
    /// is taken, the parent doesn't exist, `image_id` is taken, or the next
    /// position doesn't fit; the caller then unlinks the image file.
    pub fn create_child_with_image(&mut self, parent_id: &str, id: String, image_id: String) -> (r: Result<Node, CoreError>)
        requires
            old(self).wf(),
        ensures
            final(self).wf(),
            r is Ok <==> !has_id(old(self)@.nodes, id@) && has_id(old(self)@.nodes, parent_id@)
                && !has_image(old(self)@.images, image_id@)
                && next_position(old(self)@.nodes, parent_id@) <= i64::MAX,
            r matches Ok(n) ==> {
                &&& n.id == id
                &&& is_child_of(n, parent_id@)
                &&& n.name is None
                &&& n.position == next_position(old(self)@.nodes, parent_id@)
                &&& n.image_id == Some(image_id)
                &&& bare(n)
                &&& final(self)@.nodes == old(self)@.nodes.insert(n)
                &&& final(self)@.images == old(self)@.images.insert(ImageRow { id: image_id, node_id: id })
                &&& final(self)@.tags == old(self)@.tags
            },
            r matches Err(e) ==> {
                &&& e is Database
                &&& final(self)@.nodes == old(self)@.nodes
                &&& final(self)@.images == old(self)@.images
                &&& final(self)@.tags == old(self)@.tags
            },
            ({
                let ns = old(self)@.nodes;
                &&& has_id(ns, id@) ==> database_error(r, "UNIQUE constraint failed: nodes.id"@)
                &&& !has_id(ns, id@) && !has_id(ns, parent_id@) ==> database_error(r, "FOREIGN KEY constraint failed"@)
                &&& !has_id(ns, id@) && has_id(ns, parent_id@) && has_image(old(self)@.images, image_id@)
                    ==> database_error(r, "UNIQUE constraint failed: node_images.id"@)
                &&& !has_id(ns, id@) && has_id(ns, parent_id@) && !has_image(old(self)@.images, image_id@)
                    && next_position(ns, parent_id@) > i64::MAX ==> database_error(r, "integer overflow"@)
            }),
    {
        proof {
            self.lemma_seq_ids();
        }
        if self.find(&id).is_some() {
            return Err(CoreError::Database(owned("UNIQUE constraint failed: nodes.id")));
        }
        let parent = owned(parent_id);
        if self.find(&parent).is_none() {
            return Err(CoreError::Database(owned("FOREIGN KEY constraint failed")));
        }
        if self.image_taken(&image_id) {
            return Err(CoreError::Database(owned("UNIQUE constraint failed: node_images.id")));
        }
        let position = match self.next_child_position(&parent) {
            Some(p) => p,
            None => {
                return Err(CoreError::Database(owned("integer overflow")));
            },
        };
        let node = Node {
            id: id.clone(),
            parent_id: Some(parent),
            name: None,
            position,
            image_id: Some(image_id.clone()),
            quantity: None,
            notes: None,
            value_cents: None,
            acquired_at: None,
            serial: None,
            barcode: None,
        };
        let row = ImageRow { id: image_id, node_id: id };
        let result = node.duplicate();
        let ghost old_nodes = self.nodes@;
        let ghost old_images = self.images@;
        let ghost old_model = self@;
        proof {
            if old_nodes.contains(node) {
                assert(old_model.nodes.contains(node) && node.id@ == node.id@);
            }
            if old_images.contains(row) {
                assert(old_model.images.contains(row) && row.id@ == row.id@);
            }
            lemma_push_set(old_nodes, node);
            lemma_push_set(old_images, row);
            lemma_insert_child_keeps_shape(old_model.nodes, node);
        }
        self.nodes.push(node);
        self.images.push(row);
        proof {
            let m = self@;
            assert(m.nodes == old_model.nodes.insert(node));
            assert(m.images == old_model.images.insert(row));
            assert forall|a: ImageRow, b: ImageRow| #[trigger]
                m.images.contains(a) && #[trigger] m.images.contains(b) && a.id@ == b.id@ implies a == b by {
                if a == row && b != row {
                    assert(old_model.images.contains(b) && b.id@ == image_id@);
                } else if b == row && a != row {
                    assert(old_model.images.contains(a) && a.id@ == image_id@);
                }
            }
            assert forall|x: ImageRow| #[trigger] m.images.contains(x) implies has_id(m.nodes, x.node_id@) by {
                if x == row {
                    assert(m.nodes.contains(node) && node.id@ == x.node_id@);
                } else {
                    assert(old_model.images.contains(x));
                    let w = choose|w: Node| #[trigger] old_model.nodes.contains(w) && w.id@ == x.node_id@;
                    assert(m.nodes.contains(w));
                }
            }
            assert forall|x: TagRow| #[trigger] m.tags.contains(x) implies has_id(m.nodes, x.node_id@) by {
                assert(old_model.tags.contains(x));
                let w = choose|w: Node| #[trigger] old_model.nodes.contains(w) && w.id@ == x.node_id@;
                assert(m.nodes.contains(w));
            }
        }
        Ok(result)
    }

    /// Rename a node, giving it a title. NotFound if no node has id `id`.
    pub fn rename(&mut self, id: &str, name: String) -> (r: Result<(), CoreError>)
        requires
            old(self).wf(),
        ensures
            final(self).wf(),
            r is Ok <==> has_id(old(self)@.nodes, id@),
            r is Ok ==> final(self)@.nodes == old(self)@.nodes.remove(node_of(old(self)@.nodes, id@)).insert(
                renamed(node_of(old(self)@.nodes, id@), name),
            ),
            r is Err ==> final(self)@.nodes == old(self)@.nodes,
            r matches Err(e) ==> (e matches CoreError::NotFound(m) && m@ == "no node "@ + id@ + " to rename"@),
            final(self)@.images == old(self)@.images,
            final(self)@.tags == old(self)@.tags,
    {
        let key = owned(id);
        match self.find(&key) {
            None => Err(CoreError::NotFound(concat3("no node ", id, " to rename"))),
            Some(i) => {
                let mut n = self.nodes[i].duplicate();
                n.name = Some(name);
                proof {
                    self.replace_node_proof(i as int, n);
                }
                self.nodes.set(i, n);
                Ok(())
            },
        }
    }

    /// What replacing node `i` by `n` (same id, same parent) does to the rows.
    proof fn replace_node_proof(&self, i: int, n: Node)
        requires
            self.wf(),
            0 <= i < self.nodes@.len(),
            n.id@ == self.nodes@[i].id@,
            opt_view(n.parent_id) == opt_view(self.nodes@[i].parent_id),
        ensures
            self.nodes@.update(i, n).to_set() == self@.nodes.remove(self.nodes@[i]).insert(n),
            self.nodes@.update(i, n).no_duplicates(),
            model_wf(InventoryModel {
                nodes: self.nodes@.update(i, n).to_set(),
                images: self@.images,
                tags: self@.tags,
            }),
    {
        self.lemma_seq_ids();
        let old_n = self.nodes@[i];
        assert forall|j: int| 0 <= j < self.nodes@.len() && j != i implies self.nodes@[j] != n by {
            assert(self.nodes@[j].id@ != self.nodes@[i].id@);
        }
        lemma_update_set(self.nodes@, i, n);
        lemma_replace_keeps_shape(self@.nodes, old_n, n);
        let ns2 = self@.nodes.remove(old_n).insert(n);
        assert forall|x: ImageRow| #[trigger] self@.images.contains(x) implies has_id(ns2, x.node_id@) by {}
        assert forall|x: TagRow| #[trigger] self@.tags.contains(x) implies has_id(ns2, x.node_id@) by {}
    }

    /// Set a node's attributes in one write. Each is optional, `None` clears
    /// it; a blank or whitespace-only text value is stored as absent and a
    /// present one trimmed. NotFound if no node has id `id`.
    pub fn set_attributes(
        &mut self,
        id: &str,
        quantity: Option<i64>,
        notes: Option<String>,
        value_cents: Option<i64>,
        acquired_at: Option<String>,
        serial: Option<String>,
        barcode: Option<String>,
    ) -> (r: Result<(), CoreError>)
        requires
            old(self).wf(),
        ensures
            final(self).wf(),
            r is Ok <==> has_id(old(self)@.nodes, id@),
            r is Ok ==> exists|n: Node|
                final(self)@.nodes == old(self)@.nodes.remove(node_of(old(self)@.nodes, id@)).insert(n)
                    && attributes_set(node_of(old(self)@.nodes, id@), n, quantity, notes, value_cents, acquired_at, serial, barcode),
            r is Err ==> final(self)@.nodes == old(self)@.nodes,
            r matches Err(e) ==> (e matches CoreError::NotFound(m) && m@ == "no node "@ + id@ + " to set attributes on"@),
            final(self)@.images == old(self)@.images,
            final(self)@.tags == old(self)@.tags,
    {
        let ghost (notes0, acquired0, serial0, barcode0) = (notes, acquired_at, serial, barcode);
        let notes = blank_to_none(notes);
        let acquired_at = blank_to_none(acquired_at);
        let serial = blank_to_none(serial);
        let barcode = blank_to_none(barcode);
        let key = owned(id);
        match self.find(&key) {
            None => Err(CoreError::NotFound(concat3("no node ", id, " to set attributes on"))),
            Some(i) => {
                let mut n = self.nodes[i].duplicate();
                n.quantity = quantity;
                n.notes = notes;
                n.value_cents = value_cents;
                n.acquired_at = acquired_at;
                n.serial = serial;
                n.barcode = barcode;
                proof {
                    self.replace_node_proof(i as int, n);
                    assert(attributes_set(node_of(self@.nodes, id@), n, quantity, notes0, value_cents, acquired0, serial0, barcode0));
                }
                self.nodes.set(i, n);
                Ok(())
            },
        }
    }

    /// Delete a node and its whole subtree, with the image and tag rows of every
    /// node in it, and hand back the ids of the deleted images so the caller can
    /// unlink their files and enqueue their cloud deletes. The root house cannot
    /// be deleted (Internal); NotFound if no node has id `id`.
    pub fn delete(&mut self, id: &str) -> (r: Result<Vec<String>, CoreError>)
        requires
            old(self).wf(),
        ensures
            final(self).wf(),
            r is Ok <==> has_id(old(self)@.nodes, id@) && node_of(old(self)@.nodes, id@).parent_id is Some,
            r matches Ok(ids) ==> {
                let ns = old(self)@.nodes;
                &&& final(self)@.nodes == ns.filter(|n: Node| !in_subtree(ns, id@, n.id@))
                &&& final(self)@.images == old(self)@.images.filter(|x: ImageRow| !in_subtree(ns, id@, x.node_id@))
                &&& final(self)@.tags == old(self)@.tags.filter(|x: TagRow| !in_subtree(ns, id@, x.node_id@))
                &&& ids@.no_duplicates()
                &&& forall|k: int| 0 <= k < ids@.len() ==> subtree_image(old(self)@.images, ns, id@, #[trigger] ids@[k])
                &&& forall|x: ImageRow| #[trigger] old(self)@.images.contains(x) && in_subtree(ns, id@, x.node_id@)
                    ==> ids@.contains(x.id)
            },
            r is Err ==> {
                &&& final(self)@.nodes == old(self)@.nodes
                &&& final(self)@.images == old(self)@.images
                &&& final(self)@.tags == old(self)@.tags
            },
            r matches Err(e) ==> !has_id(old(self)@.nodes, id@) ==> (e matches CoreError::NotFound(m)
                && m@ == "no node "@ + id@ + " to delete"@),
            r matches Err(e) ==> has_id(old(self)@.nodes, id@) ==> (e matches CoreError::Internal(m)
                && m@ == "cannot delete the root node"@),
    {
        proof {
            self.lemma_seq_ids();
        }
        let key = owned(id);
        let top = match self.find(&key) {
            None => {
                return Err(CoreError::NotFound(concat3("no node ", id, " to delete")));
            },
            Some(i) => i,
        };
        if self.nodes[top].parent_id.is_none() {
            return Err(CoreError::Internal(owned("cannot delete the root node")));
        }
        let ghost ns = self@.nodes;
        let ghost old_model = self@;
        let ghost pred = |n: Node| !in_subtree(ns, id@, n.id@);
        let ghost ipred = |x: ImageRow| !in_subtree(ns, id@, x.node_id@);
        let ghost tpred = |x: TagRow| !in_subtree(ns, id@, x.node_id@);
        let mut nodes: Vec<Node> = Vec::new();
        let mut i: usize = 0;
        while i < self.nodes.len()
            invariant
                self.wf(),
                self@ == old_model,
                ns == self@.nodes,
                key@ == id@,
                pred == (|n: Node| !in_subtree(ns, id@, n.id@)),
                i <= self.nodes@.len(),
                nodes@.no_duplicates(),
                forall|n: Node| #[trigger] nodes@.contains(n) <==> (exists|k: int| 0 <= k < i && self.nodes@[k] == n && pred(n)),
            decreases self.nodes@.len() - i,
        {
            let n = &self.nodes[i];
            proof {
                assert(ns.contains(*n));
                lemma_node_of(ns, *n);
            }
            if !self.in_subtree_of(&key, &n.id) {
                let c = n.duplicate();
                let ghost before = nodes@;
                proof {
                    if before.contains(c) {
                        let k = choose|k: int| 0 <= k < i && self.nodes@[k] == c && pred(c);
                        assert(self.nodes@[k] == self.nodes@[i as int]);
                    }
                    lemma_push_set(before, c);
                }
                nodes.push(c);
                proof {
                    assert forall|m: Node| #[trigger] nodes@.contains(m) <==> (exists|k: int| 0 <= k < i + 1 && self.nodes@[k] == m && pred(m)) by {
                        if nodes@.contains(m) {
                            if m != c {
                                assert(before.to_set().contains(m));
                            } else {
                                assert(self.nodes@[i as int] == m);
                            }
                        }
                        if exists|k: int| 0 <= k < i + 1 && self.nodes@[k] == m && pred(m) {
                            let k = choose|k: int| 0 <= k < i + 1 && self.nodes@[k] == m && pred(m);
                            if k < i {
                                assert(before.contains(m));
                                assert(nodes@.to_set().contains(m));
                            } else {
                                assert(nodes@.to_set().contains(m));
                            }
                        }
                    }
                }
            } else {
                proof {
                    assert forall|m: Node| #[trigger] nodes@.contains(m) <==> (exists|k: int| 0 <= k < i + 1 && self.nodes@[k] == m && pred(m)) by {
                        if exists|k: int| 0 <= k < i + 1 && self.nodes@[k] == m && pred(m) {
                            let k = choose|k: int| 0 <= k < i + 1 && self.nodes@[k] == m && pred(m);
                            if k == i {
                                assert(!pred(m));
                            }
                        }
                    }
                }
            }
            i = i + 1;
        }
        let mut images: Vec<ImageRow> = Vec::new();
        let mut removed: Vec<String> = Vec::new();
        let mut i: usize = 0;
        while i < self.images.len()
            invariant
                self.wf(),
                self@ == old_model,
                ns == self@.nodes,
                key@ == id@,
                ipred == (|x: ImageRow| !in_subtree(ns, id@, x.node_id@)),
                i <= self.images@.len(),
                images@.no_duplicates(),
                forall|x: ImageRow| #[trigger] images@.contains(x) <==> (exists|k: int| 0 <= k < i && self.images@[k] == x && ipred(x)),
                removed@.no_duplicates(),
                forall|k: int| 0 <= k < removed@.len() ==> removed_before(self.images@, ipred, i as int, #[trigger] removed@[k]),
                forall|j: int| 0 <= j < i && !ipred(#[trigger] self.images@[j]) ==> removed@.contains(self.images@[j].id),
            decreases self.images@.len() - i,
        {
            let x = &self.images[i];
            proof {
                assert(self@.images.contains(*x));
            }
            if !self.in_subtree_of(&key, &x.node_id) {
                let c = ImageRow { id: x.id.clone(), node_id: x.node_id.clone() };
                let ghost before = images@;
                proof {
                    if before.contains(c) {
                        let k = choose|k: int| 0 <= k < i && self.images@[k] == c && ipred(c);
                        assert(self.images@[k] == self.images@[i as int]);
                    }
                    lemma_push_set(before, c);
                }
                images.push(c);
                proof {
                    assert forall|k: int| 0 <= k < removed@.len() implies removed_before(self.images@, ipred, i + 1, #[trigger] removed@[k]) by {
                        assert(removed_before(self.images@, ipred, i as int, removed@[k]));
                        let j = choose|j: int| 0 <= j < i && !ipred(self.images@[j]) && removed@[k] == self.images@[j].id;
                        assert(0 <= j < i + 1 && !ipred(self.images@[j]) && removed@[k] == self.images@[j].id);
                    }
                    assert forall|m: ImageRow| #[trigger] images@.contains(m) <==> (exists|k: int| 0 <= k < i + 1 && self.images@[k] == m && ipred(m)) by {
                        if images@.contains(m) {
                            if m != c {
                                assert(before.to_set().contains(m));
                            } else {
                                assert(self.images@[i as int] == m);
                            }
                        }
                        if exists|k: int| 0 <= k < i + 1 && self.images@[k] == m && ipred(m) {
                            let k = choose|k: int| 0 <= k < i + 1 && self.images@[k] == m && ipred(m);
                            if k < i {
                                assert(before.contains(m));
                                assert(images@.to_set().contains(m));
                            } else {
                                assert(images@.to_set().contains(m));
                            }
                        }
                    }
                }
            } else {
                let rid = x.id.clone();
                let ghost before = removed@;
                proof {
                    if before.contains(rid) {
                        let k = choose|k: int| 0 <= k < before.len() && before[k] == rid;
                        assert(removed_before(self.images@, ipred, i as int, before[k]));
                        let j = choose|j: int| 0 <= j < i && !ipred(self.images@[j]) && before[k] == self.images@[j].id;
                        assert(self@.images.contains(self.images@[j]));
                        assert(self@.images.contains(self.images@[i as int]));
                        assert(self.images@[j] == self.images@[i as int]);
                    }
                    lemma_push_set(before, rid);
                }
                removed.push(rid);
                proof {
                    assert forall|k: int| 0 <= k < removed@.len() implies removed_before(self.images@, ipred, i + 1, #[trigger] removed@[k]) by {
                        if k < before.len() {
                            assert(removed@[k] == before[k]);
                            assert(removed_before(self.images@, ipred, i as int, before[k]));
                            let j = choose|j: int| 0 <= j < i && !ipred(self.images@[j]) && before[k] == self.images@[j].id;
                            assert(0 <= j < i + 1 && !ipred(self.images@[j]) && removed@[k] == self.images@[j].id);
                        } else {
                            assert(removed@[k] == self.images@[i as int].id);
                        }
                    }
                    assert forall|j: int| 0 <= j < i + 1 && !ipred(#[trigger] self.images@[j]) implies removed@.contains(self.images@[j].id) by {
                        if j < i {
                            assert(before.contains(self.images@[j].id));
                            let k = choose|k: int| 0 <= k < before.len() && before[k] == self.images@[j].id;
                            assert(removed@[k] == before[k]);
                        } else {
                            assert(removed@[before.len() as int] == rid);
                        }
                    }
                    assert forall|m: ImageRow| #[trigger] images@.contains(m) <==> (exists|k: int| 0 <= k < i + 1 && self.images@[k] == m && ipred(m)) by {
                        if exists|k: int| 0 <= k < i + 1 && self.images@[k] == m && ipred(m) {
                            let k = choose|k: int| 0 <= k < i + 1 && self.images@[k] == m && ipred(m);
                            if k == i {
                                assert(!ipred(m));
                            }
                        }
                    }
                }
            }
            i = i + 1;
        }
        let mut tags: Vec<TagRow> = Vec::new();
        let mut i: usize = 0;
        while i < self.tags.len()
            invariant
                self.wf(),
                self@ == old_model,
                ns == self@.nodes,
                key@ == id@,
                tpred == (|x: TagRow| !in_subtree(ns, id@, x.node_id@)),
                i <= self.tags@.len(),
                tags@.no_duplicates(),
                forall|x: TagRow| #[trigger] tags@.contains(x) <==> (exists|k: int| 0 <= k < i && self.tags@[k] == x && tpred(x)),
            decreases self.tags@.len() - i,
        {
            let x = &self.tags[i];
            proof {
                assert(self@.tags.contains(*x));
            }
            if !self.in_subtree_of(&key, &x.node_id) {
                let c = TagRow { id: x.id.clone(), node_id: x.node_id.clone(), tag: x.tag.clone() };
                let ghost before = tags@;
                proof {
                    if before.contains(c) {
                        let k = choose|k: int| 0 <= k < i && self.tags@[k] == c && tpred(c);
                        assert(self.tags@[k] == self.tags@[i as int]);
                    }
                    lemma_push_set(before, c);
                }
                tags.push(c);
                proof {
                    assert forall|m: TagRow| #[trigger] tags@.contains(m) <==> (exists|k: int| 0 <= k < i + 1 && self.tags@[k] == m && tpred(m)) by {
                        if tags@.contains(m) {
                            if m != c {
                                assert(before.to_set().contains(m));
                            } else {
                                assert(self.tags@[i as int] == m);
                            }
                        }
                        if exists|k: int| 0 <= k < i + 1 && self.tags@[k] == m && tpred(m) {
                            let k = choose|k: int| 0 <= k < i + 1 && self.tags@[k] == m && tpred(m);
                            if k < i {
                                assert(before.contains(m));
                                assert(tags@.to_set().contains(m));
                            } else {
                                assert(tags@.to_set().contains(m));
                            }
                        }
                    }
                }
            } else {
                proof {
                    assert forall|m: TagRow| #[trigger] tags@.contains(m) <==> (exists|k: int| 0 <= k < i + 1 && self.tags@[k] == m && tpred(m)) by {
                        if exists|k: int| 0 <= k < i + 1 && self.tags@[k] == m && tpred(m) {
                            let k = choose|k: int| 0 <= k < i + 1 && self.tags@[k] == m && tpred(m);
                            if k == i {
                                assert(!tpred(m));
                            }
                        }
                    }
                }
            }
            i = i + 1;
        }
        proof {
            let topn = self.nodes@[top as int];
            assert(ns.contains(topn));
            lemma_remove_subtree_keeps_shape(ns, topn);
            let ns2 = ns.filter(pred);
            assert(nodes@.to_set() =~= ns2) by {
                assert forall|n: Node| nodes@.to_set().contains(n) <==> ns2.contains(n) by {
                    if ns.contains(n) {
                        let k = self.nodes@.index_of(n);
                        assert(self.nodes@[k] == n);
                    }
                }
            }
            assert(images@.to_set() =~= old_model.images.filter(ipred)) by {
                assert forall|x: ImageRow| images@.to_set().contains(x) <==> old_model.images.filter(ipred).contains(x) by {
                    if old_model.images.contains(x) {
                        let k = self.images@.index_of(x);
                        assert(self.images@[k] == x);
                    }
                }
            }
            assert(tags@.to_set() =~= old_model.tags.filter(tpred)) by {
                assert forall|x: TagRow| tags@.to_set().contains(x) <==> old_model.tags.filter(tpred).contains(x) by {
                    if old_model.tags.contains(x) {
                        let k = self.tags@.index_of(x);
                        assert(self.tags@[k] == x);
                    }
                }
            }
            assert forall|x: ImageRow| #[trigger] old_model.images.filter(ipred).contains(x) implies has_id(ns2, x.node_id@) by {
                let w = choose|w: Node| #[trigger] ns.contains(w) && w.id@ == x.node_id@;
                lemma_node_of(ns, w);
                assert(ns2.contains(w));
            }
            assert forall|x: TagRow| #[trigger] old_model.tags.filter(tpred).contains(x) implies has_id(ns2, x.node_id@) by {
                let w = choose|w: Node| #[trigger] ns.contains(w) && w.id@ == x.node_id@;
                lemma_node_of(ns, w);
                assert(ns2.contains(w));
            }
            assert forall|k: int| 0 <= k < removed@.len() implies subtree_image(old_model.images, ns, id@, #[trigger] removed@[k]) by {
                assert(removed_before(self.images@, ipred, self.images@.len() as int, removed@[k]));
                let j = choose|j: int| 0 <= j < self.images@.len() && !ipred(self.images@[j]) && removed@[k] == self.images@[j].id;
                assert(old_model.images.contains(self.images@[j]));
            }
            assert forall|x: ImageRow| #[trigger] old_model.images.contains(x) && in_subtree(ns, id@, x.node_id@)
                implies removed@.contains(x.id) by {
                let j = self.images@.index_of(x);
                assert(!ipred(self.images@[j]));
            }
        }
        self.nodes = nodes;
        self.images = images;
        self.tags = tags;
        Ok(removed)
    }

    /// Move a node, with its whole subtree, under `new_parent_id`, landing last
    /// among its new siblings (the next sibling position). NotFound if either
    /// node doesn't exist; the root house cannot move, nor can a node move into
    /// its own subtree (Internal). A move to the parent the node already has
    /// changes nothing.
    pub fn move_node(&mut self, id: &str, new_parent_id: &str) -> (r: Result<(), CoreError>)
        requires
            old(self).wf(),
        ensures
            final(self).wf(),
            ({
                let ns = old(self)@.nodes;
                let x = node_of(ns, id@);
                &&& r is Ok <==> has_id(ns, id@) && x.parent_id is Some && has_id(ns, new_parent_id@)
                    && (x.parent_id->0@ == new_parent_id@ || (!in_subtree(ns, id@, new_parent_id@)
                    && next_position(ns, new_parent_id@) <= i64::MAX))
                &&& r is Ok && x.parent_id->0@ != new_parent_id@ ==> exists|p: String|
                    p@ == new_parent_id@ && final(self)@.nodes == ns.remove(x).insert(
                        moved_to(x, Some(p), next_position(ns, new_parent_id@) as i64))
                &&& (r is Err || x.parent_id->0@ == new_parent_id@) ==> final(self)@.nodes == ns
                &&& r matches Err(e) ==> (!has_id(ns, id@) || (x.parent_id is Some && !has_id(ns, new_parent_id@)))
                    ==> (e matches CoreError::NotFound(m) && m@ == "no node "@ + id@ + " or parent "@ + new_parent_id@ + " to move"@)
                &&& r matches Err(e) ==> has_id(ns, id@) && x.parent_id is None
                    ==> (e matches CoreError::Internal(m) && m@ == "cannot move the root node"@)
                &&& r matches Err(e) ==> has_id(ns, id@) && x.parent_id is Some && has_id(ns, new_parent_id@)
                    && x.parent_id->0@ != new_parent_id@ && in_subtree(ns, id@, new_parent_id@)
                    ==> (e matches CoreError::Internal(m) && m@ == "cannot move a node into its own subtree"@)
                &&& r matches Err(e) ==> has_id(ns, id@) && x.parent_id is Some && has_id(ns, new_parent_id@)
                    && x.parent_id->0@ != new_parent_id@ && !in_subtree(ns, id@, new_parent_id@)
                    ==> database_error(r, "integer overflow"@)
            }),
            final(self)@.images == old(self)@.images,
            final(self)@.tags == old(self)@.tags,
    {
        proof {
            self.lemma_seq_ids();
        }
        let key = owned(id);
        let dest = owned(new_parent_id);
        let i = match self.find(&key) {
            None => {
                return Err(CoreError::NotFound(concat5("no node ", id, " or parent ", new_parent_id, " to move")));
            },
            Some(i) => i,
        };
        let current = match &self.nodes[i].parent_id {
            None => {
                return Err(CoreError::Internal(owned("cannot move the root node")));
            },
            Some(p) => p.clone(),
        };
        if self.find(&dest).is_none() {
            return Err(CoreError::NotFound(concat5("no node ", id, " or parent ", new_parent_id, " to move")));
        }
        if current == dest {
            return Ok(());
        }
        if self.in_subtree_of(&key, &dest) {
            return Err(CoreError::Internal(owned("cannot move a node into its own subtree")));
        }
        let position = match self.next_child_position(&dest) {
            Some(p) => p,
            None => {
                return Err(CoreError::Database(owned("integer overflow")));
            },
        };
        let mut n = self.nodes[i].duplicate();
        let ghost x = n;
        let ghost ns = self@.nodes;
        let ghost dest_str = dest;
        n.parent_id = Some(dest);
        n.position = position;
        proof {
            assert(n == moved_to(x, Some(dest_str), position));
            assert(ns.contains(x));
            lemma_move_keeps_shape(ns, x, n);
            assert forall|j: int| 0 <= j < self.nodes@.len() && j != i implies self.nodes@[j] != n by {
                assert(self.nodes@[j].id@ != self.nodes@[i as int].id@);
            }
            lemma_update_set(self.nodes@, i as int, n);
            let ns2 = ns.remove(x).insert(n);
            assert forall|id2: Seq<char>| has_id(ns, id2) implies has_id(ns2, id2) by {
                let w = choose|w: Node| #[trigger] ns.contains(w) && w.id@ == id2;
                if w == x {
                    assert(ns2.contains(n));
                } else {
                    assert(ns2.contains(w));
                }
            }
            assert forall|r: ImageRow| #[trigger] self@.images.contains(r) implies has_id(ns2, r.node_id@) by {}
            assert forall|r: TagRow| #[trigger] self@.tags.contains(r) implies has_id(ns2, r.node_id@) by {}
        }
        self.nodes.set(i, n);
        Ok(())
    }

    /// Set a node's image to `image_id` (the file already written under that
    /// id): insert its image row, point the node at it, and delete the old
    /// image's row. Hands back the old image id, whose file and cloud blob the
    /// caller then removes. NotFound if the node doesn't exist (checked before
    /// anything else); a database error if `image_id` is taken.
    pub fn set_image(&mut self, id: &str, image_id: String) -> (r: Result<Option<String>, CoreError>)
        requires
            old(self).wf(),
        ensures
            final(self).wf(),
            ({
                let ns = old(self)@.nodes;
                let x = node_of(ns, id@);
                let row = ImageRow { id: image_id, node_id: x.id };
                &&& r is Ok <==> has_id(ns, id@) && !has_image(old(self)@.images, image_id@)
                &&& r matches Ok(o) ==> {
                    &&& o == x.image_id
                    &&& final(self)@.nodes == ns.remove(x).insert(with_image(x, Some(image_id)))
                    &&& final(self)@.images == match x.image_id {
                        Some(oi) => old(self)@.images.insert(row).filter(|y: ImageRow| y.id@ != oi@),
                        None => old(self)@.images.insert(row),
                    }
                }
                &&& r is Err ==> final(self)@.nodes == ns && final(self)@.images == old(self)@.images
                &&& r matches Err(e) ==> !has_id(ns, id@) ==> (e matches CoreError::NotFound(m)
                    && m@ == "no node "@ + id@ + " for set_image"@)
                &&& has_id(ns, id@) && has_image(old(self)@.images, image_id@)
                    ==> database_error(r, "UNIQUE constraint failed: node_images.id"@)
            }),
            final(self)@.tags == old(self)@.tags,
    {
        proof {
            self.lemma_seq_ids();
        }
        let key = owned(id);
        let i = match self.find(&key) {
            None => {
                return Err(CoreError::NotFound(concat3("no node ", id, " for set_image")));
            },
            Some(i) => i,
        };
        if self.image_taken(&image_id) {
            return Err(CoreError::Database(owned("UNIQUE constraint failed: node_images.id")));
        }
        let ghost old_model = self@;
        let ghost ns = self@.nodes;
        let ghost x = self.nodes@[i as int];
        let previous = copy_opt(&self.nodes[i].image_id);
        let row = ImageRow { id: image_id.clone(), node_id: self.nodes[i].id.clone() };
        let mut n = self.nodes[i].duplicate();
        n.image_id = Some(image_id);
        proof {
            assert(n == with_image(x, Some(image_id)));
            self.replace_node_proof(i as int, n);
            if self.images@.contains(row) {
                assert(old_model.images.contains(row) && row.id@ == image_id@);
            }
            lemma_push_set(self.images@, row);
        }
        self.nodes.set(i, n);
        self.images.push(row);
        let ghost inserted = self.images@.to_set();
        proof {
            let ns2 = self@.nodes;
            assert(inserted == old_model.images.insert(row));
            assert forall|a: ImageRow, b: ImageRow| #[trigger]
                inserted.contains(a) && #[trigger] inserted.contains(b) && a.id@ == b.id@ implies a == b by {
                if a == row && b != row {
                    assert(old_model.images.contains(b) && b.id@ == image_id@);
                } else if b == row && a != row {
                    assert(old_model.images.contains(a) && a.id@ == image_id@);
                }
            }
            assert(ns2.contains(n));
            assert forall|y: ImageRow| #[trigger] inserted.contains(y) implies has_id(ns2, y.node_id@) by {
                if y == row {
                    assert(ns2.contains(n) && n.id@ == y.node_id@);
                }
            }
        }
        match &previous {
            Some(old_id) => {
                let kept = images_without(&self.images, old_id);
                self.images = kept;
                proof {
                    let ns2 = self@.nodes;
                    assert forall|a: ImageRow, b: ImageRow| #[trigger]
                        self@.images.contains(a) && #[trigger] self@.images.contains(b) && a.id@ == b.id@ implies a == b by {
                        assert(inserted.contains(a) && inserted.contains(b));
                    }
                    assert forall|y: ImageRow| #[trigger] self@.images.contains(y) implies has_id(ns2, y.node_id@) by {
                        assert(inserted.contains(y));
                    }
                }
            },
            None => {},
        }
        Ok(previous)
    }

    /// Clear a node's image: point it at none and delete its image row. Hands
    /// back the removed image id (its file and cloud blob are the caller's to
    /// remove), or `None` when the node had no image and nothing changed.
    /// NotFound if the node doesn't exist.
    pub fn clear_image(&mut self, id: &str) -> (r: Result<Option<String>, CoreError>)
        requires
            old(self).wf(),
        ensures
            final(self).wf(),
            ({
                let ns = old(self)@.nodes;
                let x = node_of(ns, id@);
                &&& r is Ok <==> has_id(ns, id@)
                &&& r matches Ok(o) ==> o == x.image_id
                &&& r matches Ok(o) ==> o matches Some(oi) ==> {
                    &&& final(self)@.nodes == ns.remove(x).insert(with_image(x, None))
                    &&& final(self)@.images == old(self)@.images.filter(|y: ImageRow| y.id@ != oi@)
                }
                &&& (r is Err || r matches Ok(None)) ==> final(self)@.nodes == ns && final(self)@.images == old(self)@.images
                &&& r matches Err(e) ==> (e matches CoreError::NotFound(m) && m@ == "no node "@ + id@ + " for clear_image"@)
            }),
            final(self)@.tags == old(self)@.tags,
    {
        proof {
            self.lemma_seq_ids();
        }
        let key = owned(id);
        let i = match self.find(&key) {
            None => {
                return Err(CoreError::NotFound(concat3("no node ", id, " for clear_image")));
            },
            Some(i) => i,
        };
        let previous = copy_opt(&self.nodes[i].image_id);
        match &previous {
            None => {
                return Ok(None);
            },
            Some(old_id) => {
                let ghost old_model = self@;
                let ghost x = self.nodes@[i as int];
                let mut n = self.nodes[i].duplicate();
                n.image_id = None;
                proof {
                    assert(n == with_image(x, None));
                    self.replace_node_proof(i as int, n);
                }
                let kept = images_without(&self.images, old_id);
                self.nodes.set(i, n);
                self.images = kept;
                proof {
                    let ns2 = self@.nodes;
                    assert forall|a: ImageRow, b: ImageRow| #[trigger]
                        self@.images.contains(a) && #[trigger] self@.images.contains(b) && a.id@ == b.id@ implies a == b by {
                        assert(old_model.images.contains(a) && old_model.images.contains(b));
                    }
                    assert forall|y: ImageRow| #[trigger] self@.images.contains(y) implies has_id(ns2, y.node_id@) by {
                        assert(old_model.images.contains(y));
                    }
                }
            },
        }
        Ok(previous)
    }

    /// Add `tag` to a node. The tag is trimmed; a blank tag is nothing to add.
    /// A tag the node already has (or a taken row id) is ignored, not an error;
    /// a missing node is a database error (the row would name no node).
    pub fn add_tag(&mut self, id: &str, tag: String, row_id: String) -> (r: Result<(), CoreError>)
        requires
            old(self).wf(),
        ensures
            final(self).wf(),
            final(self)@.nodes == old(self)@.nodes,
            final(self)@.images == old(self)@.images,
            ({
                let t = trim(tag@);
                let ns = old(self)@.nodes;
                let skip = is_blank(tag@) || tag_conflict(old(self)@.tags, row_id@, id@, t);
                &&& r is Ok <==> skip || has_id(ns, id@)
                &&& r is Err ==> database_error(r, "FOREIGN KEY constraint failed"@)
                &&& (skip || r is Err) ==> final(self)@.tags == old(self)@.tags
                &&& (!skip && r is Ok) ==> exists|x: TagRow| x.id == row_id && x.node_id == node_of(ns, id@).id
                    && x.tag@ == t && final(self)@.tags == old(self)@.tags.insert(x)
            }),
            ({
                let t = trim(tag@);
                (!is_blank(tag@) && has_id(old(self)@.nodes, id@) && forall|x: TagRow| #[trigger]
                    old(self)@.tags.contains(x) ==> x.id@ != row_id@ && !(x.node_id@ == id@ && x.tag@ == t))
                    ==> r is Ok && exists|x: TagRow| x.id == row_id && x.node_id@ == id@ && x.tag@ == t
                        && final(self)@.tags == old(self)@.tags.insert(x)
            }),
    {
        proof {
            self.lemma_seq_ids();
            let t = trim(tag@);
            if forall|x: TagRow| #[trigger]
                self@.tags.contains(x) ==> x.id@ != row_id@ && !(x.node_id@ == id@ && x.tag@ == t) {
                lemma_add_blocked_only_by_own_rows(self@.tags, row_id@, id@, t);
            }
            if has_id(self@.nodes, id@) {
                lemma_has_id_node(self@.nodes, id@);
            }
        }
        if blank(tag.as_str()) {
            return Ok(());
        }
        let t = trimmed(tag.as_str());
        let key = owned(id);
        let mut k: usize = 0;
        while k < self.tags.len()
            invariant
                self.wf(),
                *self == *old(self),
                t@ == trim(tag@),
                key@ == id@,
                k <= self.tags@.len(),
                forall|j: int| 0 <= j < k ==> !(self.tags@[j].id@ == row_id@ || (self.tags@[j].node_id@ == key@ && self.tags@[j].tag@ == t@)),
            decreases self.tags@.len() - k,
        {
            let x = &self.tags[k];
            if x.id == row_id || (x.node_id == key && x.tag == t) {
                proof {
                    assert(self@.tags.contains(*x));
                    assert(self@.tags.contains(*x) && (x.id@ == row_id@ || (x.node_id@ == id@ && x.tag@ == t@)));
                    assert(tag_conflict(self@.tags, row_id@, id@, t@));
                }
                return Ok(());
            }
            k = k + 1;
        }
        proof {
            if tag_conflict(self@.tags, row_id@, id@, t@) {
                let x = choose|x: TagRow| #[trigger] self@.tags.contains(x) && (x.id@ == row_id@ || (x.node_id@ == id@ && x.tag@ == t@));
                let j = self.tags@.index_of(x);
                assert(self.tags@[j] == x);
            }
        }
        let i = match self.find(&key) {
            None => {
                return Err(CoreError::Database(owned("FOREIGN KEY constraint failed")));
            },
            Some(i) => i,
        };
        let row = TagRow { id: row_id, node_id: self.nodes[i].id.clone(), tag: t };
        let ghost old_model = self@;
        proof {
            if self.tags@.contains(row) {
                let j = self.tags@.index_of(row);
                assert(self.tags@[j] == row);
            }
            lemma_push_set(self.tags@, row);
        }
        self.tags.push(row);
        proof {
            let m = self@;
            assert(m.tags == old_model.tags.insert(row));
            assert forall|a: TagRow, b: TagRow| #[trigger]
                m.tags.contains(a) && #[trigger] m.tags.contains(b) && (a.id@ == b.id@ || (a.node_id@
                    == b.node_id@ && a.tag@ == b.tag@)) implies a == b by {
                if a == row && b != row {
                    assert(old_model.tags.contains(b));
                } else if b == row && a != row {
                    assert(old_model.tags.contains(a));
                }
            }
            assert forall|x: TagRow| #[trigger] m.tags.contains(x) implies has_id(m.nodes, x.node_id@) by {
                if x == row {
                    assert(m.nodes.contains(self.nodes@[i as int]));
                } else {
                    assert(old_model.tags.contains(x));
                }
            }
        }
        Ok(())
    }

    /// Remove `tag` from a node; a tag the node doesn't have is nothing to
    /// remove.
    pub fn remove_tag(&mut self, id: &str, tag: String)
        requires
            old(self).wf(),
        ensures
            final(self).wf(),
            final(self)@.nodes == old(self)@.nodes,
            final(self)@.images == old(self)@.images,
            final(self)@.tags == old(self)@.tags.filter(|x: TagRow| !(x.node_id@ == id@ && x.tag@ == tag@)),
    {
        let key = owned(id);
        let ghost old_model = self@;
        let kept = tags_without(&self.tags, &key, &tag);
        self.tags = kept;
        proof {
            let m = self@;
            assert forall|a: TagRow, b: TagRow| #[trigger]
                m.tags.contains(a) && #[trigger] m.tags.contains(b) && (a.id@ == b.id@ || (a.node_id@
                    == b.node_id@ && a.tag@ == b.tag@)) implies a == b by {
                assert(old_model.tags.contains(a) && old_model.tags.contains(b));
            }
            assert forall|x: TagRow| #[trigger] m.tags.contains(x) implies has_id(m.nodes, x.node_id@) by {
                assert(old_model.tags.contains(x));
            }
        }
    }

    /// The tags on node `id`, in code-point order (none for a node without
    /// tags or an absent node).
    pub fn tags_of(&self, id: &str) -> (tags: Vec<String>)
        requires
            self.wf(),
        ensures
            forall|k: int| 0 <= k < tags@.len() ==> tag_of(self@.tags, id@, #[trigger] tags@[k]),
            forall|x: TagRow| #[trigger] self@.tags.contains(x) && x.node_id@ == id@ ==> tags@.contains(x.tag),
            tags@.no_duplicates(),
            sorted(tags@),
    {
        tags_in_rows(&self.tags, id)
    }

    /// A node with its tags, for the edit screen: the tags in code-point order.
    /// NotFound if the node doesn't exist.
    pub fn detail(&self, id: &str) -> (r: Result<NodeDetail, CoreError>)
        requires
            self.wf(),
        ensures
            r is Ok <==> has_id(self@.nodes, id@),
            r matches Ok(d) ==> {
                &&& d.node == node_of(self@.nodes, id@)
                &&& forall|k: int| 0 <= k < d.tags@.len() ==> tag_of(self@.tags, id@, #[trigger] d.tags@[k])
                &&& forall|x: TagRow| #[trigger] self@.tags.contains(x) && x.node_id@ == id@ ==> d.tags@.contains(x.tag)
                &&& d.tags@.no_duplicates()
                &&& sorted(d.tags@)
            },
            r matches Err(e) ==> (e matches CoreError::NotFound(m) && m@ == "no node "@ + id@ + " for detail"@),
    {
        let r = detail_in_rows(&self.nodes, &self.tags, id);
        proof {
            if r is Ok {
                lemma_node_of(self@.nodes, r->Ok_0.node);
            }
        }
        r
    }

    /// The ids of the image rows that belong to node `id`, in row order.
    pub fn image_ids_of(&self, id: &str) -> (r: Vec<String>)
        requires
            self.wf(),
        ensures
            forall|k: int| 0 <= k < r@.len() ==> image_of(self@.images, id@, #[trigger] r@[k]),
            forall|x: ImageRow| #[trigger] self@.images.contains(x) && x.node_id@ == id@ ==> r@.contains(x.id),
            r@.no_duplicates(),
    {
        proof {
            self.lemma_seq_ids();
        }
        let key = owned(id);
        let mut out: Vec<String> = Vec::new();
        let mut k: usize = 0;
        while k < self.images.len()
            invariant
                self.wf(),
                key@ == id@,
                k <= self.images@.len(),
                out@.no_duplicates(),
                forall|t: String| #[trigger] out@.contains(t) <==> (exists|j: int| 0 <= j < k && self.images@[j].node_id@ == id@ && self.images@[j].id == t),
            decreases self.images@.len() - k,
        {
            let x = &self.images[k];
            if x.node_id == key {
                let t = x.id.clone();
                let ghost before = out@;
                proof {
                    if before.contains(t) {
                        let j = choose|j: int| 0 <= j < k && self.images@[j].node_id@ == id@ && self.images@[j].id == t;
                        assert(self@.images.contains(self.images@[j]) && self@.images.contains(self.images@[k as int]));
                        assert(self.images@[j] == self.images@[k as int]);
                    }
                    lemma_push_set(before, t);
                }
                out.push(t);
                proof {
                    assert forall|u: String| #[trigger] out@.contains(u) <==> (exists|j: int| 0 <= j < k + 1 && self.images@[j].node_id@ == id@ && self.images@[j].id == u) by {
                        if out@.contains(u) {
                            if u != t {
                                assert(before.to_set().contains(u));
                            } else {
                                assert(self.images@[k as int].id == u);
                            }
                        }
                        if exists|j: int| 0 <= j < k + 1 && self.images@[j].node_id@ == id@ && self.images@[j].id == u {
                            let j = choose|j: int| 0 <= j < k + 1 && self.images@[j].node_id@ == id@ && self.images@[j].id == u;
                            if j < k {
                                assert(before.contains(u));
                            }
                            assert(out@.to_set().contains(u));
                        }
                    }
                }
            } else {
                proof {
                    assert forall|u: String| #[trigger] out@.contains(u) <==> (exists|j: int| 0 <= j < k + 1 && self.images@[j].node_id@ == id@ && self.images@[j].id == u) by {
                        if exists|j: int| 0 <= j < k + 1 && self.images@[j].node_id@ == id@ && self.images@[j].id == u {
                            let j = choose|j: int| 0 <= j < k + 1 && self.images@[j].node_id@ == id@ && self.images@[j].id == u;
                            if j == k {
                                assert(self.images@[j].node_id@ != id@);
                            }
                        }
                    }
                }
            }
            k = k + 1;
        }
        proof {
            assert forall|p: int| 0 <= p < out@.len() implies image_of(self@.images, id@, #[trigger] out@[p]) by {
                assert(out@.contains(out@[p]));
                let j = choose|j: int| 0 <= j < self.images@.len() && self.images@[j].node_id@ == id@ && self.images@[j].id == out@[p];
                assert(self@.images.contains(self.images@[j]));
            }
            assert forall|x: ImageRow| #[trigger] self@.images.contains(x) && x.node_id@ == id@ implies out@.contains(x.id) by {
                let j = self.images@.index_of(x);
                assert(self.images@[j] == x);
            }
        }
        out
    }

    /// Every titled non-root node whose name contains `query` (trimmed; a
    /// literal substring, ignoring ASCII case), each with its breadcrumb and its
    /// ancestors' label, ordered by name ignoring ASCII case. An empty or
    /// whitespace-only query matches nothing.
    pub fn search(&self, query: &str) -> (r: Vec<SearchHit>)
        requires
            self.wf(),
        ensures
            trim(query@).len() == 0 ==> r@.len() == 0,
            trim(query@).len() > 0 ==> {
                let q = trim(query@);
                let ns = self@.nodes;
                &&& forall|h: SearchHit| #[trigger] r@.contains(h) ==> hit_ok(ns, h, q)
                &&& forall|n: Node| #[trigger] ns.contains(n) && search_match(n, q) ==> hit_for(r@, n)
                &&& hit_ids(r@).no_duplicates()
                &&& sorted(r@)
            },
    {
        proof {
            self.lemma_seq_ids();
        }
        let q = trimmed(query);
        let mut hits: Vec<SearchHit> = Vec::new();
        if q.unicode_len() == 0 {
            return hits;
        }
        let needle = chars_of(q.as_str());
        let ghost ns = self@.nodes;
        let ghost qv = q@;
        let mut i: usize = 0;
        while i < self.nodes.len()
            invariant
                self.wf(),
                ns == self@.nodes,
                qv == trim(query@),
                needle@ == qv,
                qv.len() > 0,
                i <= self.nodes@.len(),
                sorted(hits@),
                hit_ids(hits@).no_duplicates(),
                forall|h: SearchHit| #[trigger] hits@.contains(h) ==> hit_ok(ns, h, qv),
                forall|h: SearchHit| #[trigger] hits@.contains(h) ==> exists|j: int| 0 <= j < i && self.nodes@[j] == h.node,
                forall|j: int| 0 <= j < i && search_match(#[trigger] self.nodes@[j], qv) ==> hit_for(hits@, self.nodes@[j]),
            decreases self.nodes@.len() - i,
        {
            let n = &self.nodes[i];
            proof {
                assert(ns.contains(*n));
            }
            let is_match = match (&n.parent_id, &n.name) {
                (Some(_), Some(name)) => {
                    let hay = chars_of(name.as_str());
                    contains_ignoring_ascii_case(&hay, &needle)
                },
                _ => false,
            };
            if is_match {
                let path = match self.breadcrumb(&n.id) {
                    Some(p) => p,
                    None => {
                        proof {
                            lemma_node_of(ns, *n);
                        }
                        Vec::new()
                    },
                };
                proof {
                    lemma_node_of(ns, *n);
                }
                let path_label = breadcrumb_label(path.as_slice());
                let hit = SearchHit { node: n.duplicate(), path, path_label };
                let ghost before = hits@;
                proof {
                    assert(hit_ok(ns, hit, qv));
                    assert forall|h: SearchHit| #[trigger] before.contains(h) implies h.node.id@ != hit.node.id@ by {
                        let j = choose|j: int| 0 <= j < i && self.nodes@[j] == h.node;
                    }
                }
                insert_sorted(&mut hits, hit);
                proof {
                    let p = choose|p: int| 0 <= p <= before.len() && hits@ == before.insert(p, hit);
                    lemma_insert_contains(before, p, hit);
                    lemma_insert_map(before, p, hit, |h: SearchHit| h.node.id@);
                    let ids = hit_ids(before);
                    if ids.contains(hit.node.id@) {
                        let m = choose|m: int| 0 <= m < ids.len() && ids[m] == hit.node.id@;
                        assert(before.contains(before[m]));
                    }
                    lemma_insert_contains(ids, p, hit.node.id@);
                    assert forall|h: SearchHit| #[trigger] hits@.contains(h) implies exists|j: int| 0 <= j < i + 1 && self.nodes@[j] == h.node by {
                        if h == hit {
                            assert(self.nodes@[i as int] == h.node);
                        } else {
                            let j = choose|j: int| 0 <= j < i && self.nodes@[j] == h.node;
                        }
                    }
                    assert forall|j: int| 0 <= j < i + 1 && search_match(#[trigger] self.nodes@[j], qv) implies hit_for(hits@, self.nodes@[j]) by {
                        if j == i {
                            assert(hits@.contains(hit));
                        } else {
                            let h = choose|h: SearchHit| #[trigger] before.contains(h) && h.node == self.nodes@[j];
                            assert(hits@.contains(h));
                        }
                    }
                }
            } else {
                proof {
                    assert forall|h: SearchHit| #[trigger] hits@.contains(h) implies exists|j: int| 0 <= j < i + 1 && self.nodes@[j] == h.node by {
                        let j = choose|j: int| 0 <= j < i && self.nodes@[j] == h.node;
                    }
                    assert forall|j: int| 0 <= j < i + 1 && search_match(#[trigger] self.nodes@[j], qv) implies hit_for(hits@, self.nodes@[j]) by {
                        if j == i {
                            assert(!search_match(self.nodes@[j], qv));
                        }
                    }
                }
            }
            i = i + 1;
        }
        proof {
            assert forall|n: Node| #[trigger] ns.contains(n) && search_match(n, qv) implies hit_for(hits@, n) by {
                let j = self.nodes@.index_of(n);
                assert(self.nodes@[j] == n);
            }
        }
        hits
    }

    /// Every library's rows keep the tree's shape: a valid inventory (as every
    /// operation leaves it) holds exactly one root, no cycle, every parent
    /// present, and image and tag rows that name existing nodes.
    pub proof fn lemma_wf_shape(&self)
        requires
            self.wf(),
        ensures
            model_wf(self@),
            self@.nodes.finite(),
    {
        vstd::seq_lib::seq_to_set_is_finite(self.nodes@);
    }

    /// The inventory for rows as a library stores them, accepted exactly
    /// when they form a well-formed library: node ids, image ids and tag rows
    /// unique, exactly one root, every parent, image owner and tag owner
    /// present, and no parent cycle. Rejected rows are an internal error.
    pub fn from_rows(nodes: Vec<Node>, images: Vec<ImageRow>, tags: Vec<TagRow>) -> (r: Result<Inventory, CoreError>)
        ensures
            r matches Ok(inv) ==> {
                &&& inv.wf()
                &&& inv@.nodes == nodes@.to_set()
                &&& inv@.images == images@.to_set()
                &&& inv@.tags == tags@.to_set()
            },
            r matches Err(e) ==> e is Internal,
            r is Ok <==> rows_form_library(nodes@, images@, tags@),
    {
        if !node_ids_distinct(&nodes) {
            return Err(CoreError::Internal(owned("two nodes share an id")));
        }
        if !image_ids_distinct(&images) {
            return Err(CoreError::Internal(owned("two images share an id")));
        }
        if !tag_rows_are_distinct(&tags) {
            return Err(CoreError::Internal(owned("a tag row is duplicated")));
        }
        let n = nodes.len();
        let ghost ns = nodes@.to_set();
        proof {
            assert forall|a: Node, b: Node| #[trigger] ns.contains(a) && #[trigger] ns.contains(b) && a.id@ == b.id@ implies a == b by {
                let i = nodes@.index_of(a);
                let j = nodes@.index_of(b);
                assert(nodes@[i] == a && nodes@[j] == b);
            }
            assert(ids_unique(ns));
        }
        let mut root: Option<usize> = None;
        let mut i: usize = 0;
        while i < n
            invariant
                n == nodes@.len(),
                i <= n,
                ns == nodes@.to_set(),
                seq_ids_distinct(nodes@),
                root matches Some(r) ==> r < i && nodes@[r as int].parent_id is None,
                forall|k: int| 0 <= k < i && (#[trigger] nodes@[k]).parent_id is None ==> root == Some(k as usize),
            decreases n - i,
        {
            if nodes[i].parent_id.is_none() {
                if root.is_some() {
                    proof {
                        let a = nodes@[root->0 as int];
                        let b = nodes@[i as int];
                        assert(nodes@.contains(a) && nodes@.contains(b));
                        assert(ns.contains(a) && ns.contains(b));
                        assert(a.parent_id is None && b.parent_id is None);
                        assert(a.id@ != b.id@);
                        if one_root(ns) {
                            let x = choose|x: Node|
                                #[trigger] ns.contains(x) && x.parent_id is None && forall|m: Node| #[trigger]
                                    ns.contains(m) && m.parent_id is None ==> m == x;
                            assert(a == x);
                            assert(b == x);
                        }
                    }
                    return Err(CoreError::Internal(owned("more than one root node")));
                }
                root = Some(i);
            }
            i = i + 1;
        }
        let root_idx = match root {
            None => {
                proof {
                    if one_root(ns) {
                        let x = choose|x: Node|
                            #[trigger] ns.contains(x) && x.parent_id is None && forall|m: Node| #[trigger]
                                ns.contains(m) && m.parent_id is None ==> m == x;
                        assert(nodes@.contains(x));
                        let k = nodes@.index_of(x);
                        assert(nodes@[k].parent_id is None);
                    }
                }
                return Err(CoreError::Internal(owned("no root node")));
            },
            Some(r) => r,
        };
        let mut i: usize = 0;
        while i < n
            invariant
                n == nodes@.len(),
                i <= n,
                ns == nodes@.to_set(),
                forall|k: int| 0 <= k < i && (#[trigger] nodes@[k]).parent_id is Some ==> exists|j: int| 0 <= j < n && nodes@[j].id@ == nodes@[k].parent_id->0@,
            decreases n - i,
        {
            match &nodes[i].parent_id {
                Some(p) => {
                    match find_in(&nodes, p) {
                        None => {
                            proof {
                                let x = nodes@[i as int];
                                assert(nodes@.contains(x));
                                assert(ns.contains(x));
                                if has_id(ns, p@) {
                                    let m = choose|m: Node| #[trigger] ns.contains(m) && m.id@ == p@;
                                    let k = nodes@.index_of(m);
                                    assert(nodes@[k].id@ != p@);
                                }
                                assert(!parents_present(ns));
                            }
                            return Err(CoreError::Internal(owned("a node's parent is missing")));
                        },
                        Some(j) => {
                            assert(nodes@[j as int].id@ == nodes@[i as int].parent_id->0@);
                        },
                    }
                },
                None => {},
            }
            i = i + 1;
        }
        let mut i: usize = 0;
        while i < images.len()
            invariant
                i <= images@.len(),
                ns == nodes@.to_set(),
                forall|k: int| 0 <= k < i ==> exists|j: int| 0 <= j < nodes@.len() && nodes@[j].id@ == (#[trigger] images@[k]).node_id@,
            decreases images@.len() - i,
        {
            match find_in(&nodes, &images[i].node_id) {
                None => {
                    proof {
                        let r = images@[i as int];
                        assert(images@.contains(r));
                        assert(images@.to_set().contains(r));
                        if has_id(ns, r.node_id@) {
                            let m = choose|m: Node| #[trigger] ns.contains(m) && m.id@ == r.node_id@;
                            let k = nodes@.index_of(m);
                            assert(nodes@[k].id@ != r.node_id@);
                        }
                    }
                    return Err(CoreError::Internal(owned("an image's node is missing")));
                },
                Some(j) => {
                    assert(nodes@[j as int].id@ == images@[i as int].node_id@);
                },
            }
            i = i + 1;
        }
        let mut i: usize = 0;
        while i < tags.len()
            invariant
                i <= tags@.len(),
                ns == nodes@.to_set(),
                forall|k: int| 0 <= k < i ==> exists|j: int| 0 <= j < nodes@.len() && nodes@[j].id@ == (#[trigger] tags@[k]).node_id@,
            decreases tags@.len() - i,
        {
            match find_in(&nodes, &tags[i].node_id) {
                None => {
                    proof {
                        let r = tags@[i as int];
                        assert(tags@.contains(r));
                        assert(tags@.to_set().contains(r));
                        if has_id(ns, r.node_id@) {
                            let m = choose|m: Node| #[trigger] ns.contains(m) && m.id@ == r.node_id@;
                            let k = nodes@.index_of(m);
                            assert(nodes@[k].id@ != r.node_id@);
                        }
                    }
                    return Err(CoreError::Internal(owned("a tag's node is missing")));
                },
                Some(j) => {
                    assert(nodes@[j as int].id@ == tags@[i as int].node_id@);
                },
            }
            i = i + 1;
        }
        let ghost root_node = nodes@[root_idx as int];
        let ghost root_id = root_node.id@;
        proof {
            assert(ns.contains(root_node));
        }
        let ghost mut depth: Map<Seq<char>, nat> = Map::empty();
        let ghost rank: spec_fn(Seq<char>) -> nat = choose|rank: spec_fn(Seq<char>) -> nat| ranked_by(ns, rank);
        let mut i: usize = 0;
        while i < n
            invariant
                n == nodes@.len(),
                i <= n,
                ns == nodes@.to_set(),
                ids_unique(ns),
                seq_ids_distinct(nodes@),
                root_idx < n,
                root_node == nodes@[root_idx as int],
                root_id == root_node.id@,
                root_node.parent_id is None,
                forall|k: int| 0 <= k < n && (#[trigger] nodes@[k]).parent_id is None ==> k == root_idx,
                forall|k: int| 0 <= k < n && (#[trigger] nodes@[k]).parent_id is Some ==> exists|j: int| 0 <= j < n && nodes@[j].id@ == nodes@[k].parent_id->0@,
                forall|k: int| 0 <= k < i ==> depth.contains_key(#[trigger] nodes@[k].id@)
                    && ancestor_at(ns, nodes@[k].id@, depth[nodes@[k].id@]) == Some(root_id),
                acyclic(ns) ==> ranked_by(ns, rank),
            decreases n - i,
        {
            let mut cur: usize = i;
            let mut steps: usize = 0;
            let ghost mut visited: Set<int> = Set::empty().insert(i as int);
            while steps < n && nodes[cur].parent_id.is_some()
                invariant
                    n == nodes@.len(),
                    i < n,
                    cur < n,
                    steps <= n,
                    ns == nodes@.to_set(),
                    ids_unique(ns),
                    forall|k: int| 0 <= k < n && (#[trigger] nodes@[k]).parent_id is Some ==> exists|j: int| 0 <= j < n && nodes@[j].id@ == nodes@[k].parent_id->0@,
                    ancestor_at(ns, nodes@[i as int].id@, steps as nat) == Some(nodes@[cur as int].id@),
                    acyclic(ns) ==> ranked_by(ns, rank),
                    visited.finite(),
                    visited.contains(cur as int),
                    forall|v: int| visited.contains(v) ==> 0 <= v < n,
                    acyclic(ns) ==> visited.len() == steps + 1,
                    acyclic(ns) ==> forall|v: int| #[trigger] visited.contains(v) ==> rank(nodes@[v].id@) >= rank(nodes@[cur as int].id@),
                decreases n - steps,
            {
                let ghost cn = nodes@[cur as int];
                let next = match &nodes[cur].parent_id {
                    Some(p) => find_in(&nodes, p),
                    None => None,
                };
                match next {
                    Some(j) => {
                        proof {
                            assert(ns.contains(cn));
                            lemma_node_of(ns, cn);
                            lemma_ancestor_add(ns, nodes@[i as int].id@, steps as nat, 1, cn.id@);
                            assert(ancestor_at(ns, nodes@[j as int].id@, 0) == Some(nodes@[j as int].id@));
                            assert(ancestor_at(ns, cn.id@, 1) == Some(nodes@[j as int].id@));
                            if acyclic(ns) {
                                assert(rank(cn.parent_id->0@) < rank(cn.id@));
                                if visited.contains(j as int) {
                                    assert(rank(nodes@[j as int].id@) >= rank(nodes@[cur as int].id@));
                                }
                            }
                            visited = visited.insert(j as int);
                        }
                        cur = j;
                        steps = steps + 1;
                    },
                    None => {
                        proof {
                            assert(cn.parent_id is Some);
                            let j = choose|j: int| 0 <= j < n && nodes@[j].id@ == cn.parent_id->0@;
                        }
                        return Err(CoreError::Internal(owned("a node's parent is missing")));
                    },
                }
            }
            if nodes[cur].parent_id.is_some() {
                proof {
                    if acyclic(ns) {
                        let all = vstd::set_lib::set_int_range(0, n as int);
                        vstd::set_lib::lemma_int_range(0, n as int);
                        assert(visited.subset_of(all));
                        vstd::set_lib::lemma_len_subset(visited, all);
                    }
                }
                return Err(CoreError::Internal(owned("a parent chain does not reach the root")));
            }
            proof {
                assert(cur == root_idx);
                depth = depth.insert(nodes@[i as int].id@, steps as nat);
                assert forall|k: int| 0 <= k < i + 1 implies depth.contains_key(#[trigger] nodes@[k].id@)
                    && ancestor_at(ns, nodes@[k].id@, depth[nodes@[k].id@]) == Some(root_id) by {
                    if k < i {
                        assert(nodes@[k].id@ != nodes@[i as int].id@);
                    }
                }
            }
            i = i + 1;
        }
        let inv = Inventory { nodes, images, tags };
        proof {
            let m = inv@;
            assert(m.nodes == ns);
            assert(inv.nodes@.no_duplicates()) by {
                assert forall|a: int, b: int| 0 <= a < n && 0 <= b < n && a != b implies inv.nodes@[a] != inv.nodes@[b] by {
                    assert(inv.nodes@[a].id@ != inv.nodes@[b].id@);
                }
            }
            assert(inv.images@.no_duplicates()) by {
                assert forall|a: int, b: int| 0 <= a < inv.images@.len() && 0 <= b < inv.images@.len() && a != b implies inv.images@[a] != inv.images@[b] by {
                    assert(inv.images@[a].id@ != inv.images@[b].id@);
                }
            }
            assert(inv.tags@.no_duplicates()) by {
                assert forall|a: int, b: int| 0 <= a < inv.tags@.len() && 0 <= b < inv.tags@.len() && a != b implies inv.tags@[a] != inv.tags@[b] by {
                    assert(inv.tags@[a].id@ != inv.tags@[b].id@);
                }
            }
            assert(one_root(ns)) by {
                assert(ns.contains(root_node));
                assert forall|x: Node| #[trigger] ns.contains(x) && x.parent_id is None implies x == root_node by {
                    let k = inv.nodes@.index_of(x);
                    assert(inv.nodes@[k] == x);
                }
            }
            assert(parents_present(ns)) by {
                assert forall|x: Node| #[trigger] ns.contains(x) && x.parent_id is Some implies has_id(ns, x.parent_id->0@) by {
                    let k = inv.nodes@.index_of(x);
                    assert(inv.nodes@[k] == x);
                    let j = choose|j: int| 0 <= j < n && inv.nodes@[j].id@ == inv.nodes@[k].parent_id->0@;
                    assert(ns.contains(inv.nodes@[j]));
                }
            }
            let rank = |id: Seq<char>| if depth.contains_key(id) { depth[id] } else { 0nat };
            assert(ranked_by(ns, rank)) by {
                assert forall|x: Node| #[trigger] ns.contains(x) && x.parent_id is Some implies rank(x.parent_id->0@) < rank(x.id@) by {
                    let k = inv.nodes@.index_of(x);
                    assert(inv.nodes@[k] == x);
                    let j = choose|j: int| 0 <= j < n && inv.nodes@[j].id@ == inv.nodes@[k].parent_id->0@;
                    let p = inv.nodes@[j];
                    assert(depth.contains_key(x.id@));
                    assert(depth.contains_key(p.id@));
                    let dk = depth[x.id@];
                    let dj = depth[p.id@];
                    lemma_node_of(ns, x);
                    if dk == 0 {
                        assert(ancestor_at(ns, x.id@, 0) == Some(x.id@));
                        assert(ns.contains(x) && ns.contains(root_node));
                    } else {
                        assert(ancestor_at(ns, x.id@, dk) == ancestor_at(ns, p.id@, (dk - 1) as nat));
                        lemma_depth_unique(ns, p.id@, root_node, dj, (dk - 1) as nat);
                    }
                }
            }
            assert(acyclic(ns));
            assert forall|a: ImageRow, b: ImageRow| #[trigger] m.images.contains(a) && #[trigger] m.images.contains(b) && a.id@ == b.id@ implies a == b by {
                let i = inv.images@.index_of(a);
                let j = inv.images@.index_of(b);
                assert(inv.images@[i] == a && inv.images@[j] == b);
            }
            assert forall|x: ImageRow| #[trigger] m.images.contains(x) implies has_id(m.nodes, x.node_id@) by {
                let k = inv.images@.index_of(x);
                assert(inv.images@[k] == x);
                let j = choose|j: int| 0 <= j < n && inv.nodes@[j].id@ == inv.images@[k].node_id@;
                assert(ns.contains(inv.nodes@[j]));
            }
            assert forall|a: TagRow, b: TagRow| #[trigger] m.tags.contains(a) && #[trigger] m.tags.contains(b) && (a.id@ == b.id@ || (a.node_id@
                    == b.node_id@ && a.tag@ == b.tag@)) implies a == b by {
                let i = inv.tags@.index_of(a);
                let j = inv.tags@.index_of(b);
                assert(inv.tags@[i] == a && inv.tags@[j] == b);
            }
            assert forall|x: TagRow| #[trigger] m.tags.contains(x) implies has_id(m.nodes, x.node_id@) by {
                let k = inv.tags@.index_of(x);
                assert(inv.tags@[k] == x);
                let j = choose|j: int| 0 <= j < n && inv.nodes@[j].id@ == inv.tags@[k].node_id@;
                assert(ns.contains(inv.nodes@[j]));
            }
        }
        Ok(inv)
    }
}

/// A new or moved child lands last: the next sibling position is past every
/// existing child's position, so children listed by position come in the
/// order they were added.
pub proof fn lemma_next_position_is_last(ns: Set<Node>, parent: Seq<char>, c: Node)
    requires
        ns.finite(),
        ns.contains(c),
        is_child_of(c, parent),
    ensures
        c.position < next_position(ns, parent),
{
    let kids = ns.filter(|x: Node| is_child_of(x, parent));
    assert(kids.contains(c));
    assert(kids.len() > 0) by {
        if kids.len() == 0 {
            assert(kids =~= Set::<Node>::empty()) by {
                vstd::set_lib::lemma_set_empty_equivalency_len(kids);
            }
        }
    }
    lemma_max_attained(kids);
    let top = choose|t: Node| #[trigger] kids.contains(t) && forall|d: Node| #[trigger] kids.contains(d) ==> d.position <= t.position;
    assert(kids.contains(top));
    assert forall|d: Node| #[trigger] ns.contains(d) && is_child_of(d, parent) implies d.position <= top.position by {
        assert(kids.contains(d));
    }
    assert(is_max_child_position(ns, parent, top.position as int));
    let v = max_child_position(ns, parent);
    assert(is_max_child_position(ns, parent, v));
    assert(exists|c2: Node| #[trigger] ns.contains(c2) && is_child_of(c2, parent));
}

proof fn lemma_max_attained(kids: Set<Node>)
    requires
        kids.finite(),
        kids.len() > 0,
    ensures
        exists|t: Node| #[trigger] kids.contains(t) && forall|d: Node| #[trigger] kids.contains(d) ==> d.position <= t.position,
    decreases kids.len(),
{
    let x = kids.choose();
    assert(kids.contains(x)) by {
        if !kids.contains(x) {
            assert(kids =~= Set::<Node>::empty());
        }
    }
    let rest = kids.remove(x);
    if rest.len() == 0 {
        assert(rest =~= Set::<Node>::empty()) by {
            vstd::set_lib::lemma_set_empty_equivalency_len(rest);
        }
        assert forall|d: Node| #[trigger] kids.contains(d) implies d.position <= x.position by {
            if d != x {
                assert(rest.contains(d));
            }
        }
    } else {
        lemma_max_attained(rest);
        let t = choose|t: Node| #[trigger] rest.contains(t) && forall|d: Node| #[trigger] rest.contains(d) ==> d.position <= t.position;
        if x.position <= t.position {
            assert forall|d: Node| #[trigger] kids.contains(d) implies d.position <= t.position by {
                if d != x {
                    assert(rest.contains(d));
                }
            }
        } else {
            assert forall|d: Node| #[trigger] kids.contains(d) implies d.position <= x.position by {
                if d != x {
                    assert(rest.contains(d));
                }
            }
        }
    }
}

/// A read gives back the last write: once an edit that keeps a node's id (a
/// rename, new attributes, a new or cleared image, a move) replaces its row,
/// looking the id up finds the edited row.
pub proof fn lemma_read_after_write(ns: Set<Node>, x: Node, y: Node)
    requires
        tree_wf(ns),
        ns.contains(x),
        y.id@ == x.id@,
    ensures
        has_id(ns.remove(x).insert(y), x.id@),
        node_of(ns.remove(x).insert(y), x.id@) == y,
{
    let ns2 = ns.remove(x).insert(y);
    assert(ns2.contains(y) && y.id@ == x.id@);
    let n = node_of(ns2, x.id@);
    assert(ns2.contains(n) && n.id@ == x.id@);
    if n != y {
        assert(ns.contains(n));
        assert(n == x);
    }
}

/// A node's id names exactly one row of a library.
pub proof fn lemma_one_node_per_id(m: InventoryModel, a: Node, b: Node)
    requires
        model_wf(m),
        m.nodes.contains(a),
        m.nodes.contains(b),
        a.id@ == b.id@,
    ensures
        a == b,
{
}

/// Adding a tag a node already carries changes nothing: once the tag is on the
/// node (row `x`), any later add of a tag that trims to it on that node is
/// skipped, whatever row id it comes with, and `add_tag` then leaves the tags
/// as they are.
pub proof fn lemma_tag_add_idempotent(tags: Set<TagRow>, x: TagRow, row_id: Seq<char>)
    requires
        tags.contains(x),
    ensures
        tag_conflict(tags, row_id, x.node_id@, x.tag@),
{
}

/// Removing a tag the node doesn't carry changes nothing.
pub proof fn lemma_remove_absent_tag(tags: Set<TagRow>, id: Seq<char>, tag: Seq<char>)
    requires
        forall|x: TagRow| #[trigger] tags.contains(x) ==> !(x.node_id@ == id && x.tag@ == tag),
    ensures
        tags.filter(|x: TagRow| !(x.node_id@ == id && x.tag@ == tag)) == tags,
{
    assert(tags.filter(|x: TagRow| !(x.node_id@ == id && x.tag@ == tag)) =~= tags);


}

/// An add of a tag is skipped only by a row it clashes with: one with the
/// same row id, or one carrying the same tag on the same node. Tags other
/// nodes carry never stop it ("fragile" on the vase doesn't keep it off the
/// mirror).
pub proof fn lemma_add_blocked_only_by_own_rows(tags: Set<TagRow>, row_id: Seq<char>, node: Seq<char>, t: Seq<char>)
    requires
        forall|x: TagRow| #[trigger] tags.contains(x) ==> x.id@ != row_id && !(x.node_id@ == node && x.tag@ == t),
    ensures
        !tag_conflict(tags, row_id, node, t),
{
}

/// Search ignores ASCII case: a titled non-root node whose name holds the
/// query at some position up to ASCII case (as "Apple charger" holds
/// "apple") is a match.
pub proof fn lemma_search_ignores_ascii_case(n: Node, q: Seq<char>, i: int)
    requires
        n.parent_id is Some,
        n.name is Some,
        0 <= i,
        i + q.len() <= name_text(n).len(),
        forall|j: int| 0 <= j < q.len() ==> ascii_case_variant(name_text(n)[i + j], #[trigger] q[j]),
    ensures
        search_match(n, q),
{
    let h = folded(name_text(n));
    let nd = folded(q);
    assert forall|j: int| 0 <= j < q.len() implies #[trigger] h.subrange(i, i + q.len())[j] == nd[j] by {
        lemma_fold_ignores_ascii_case(name_text(n)[i + j], q[j]);
    }
    assert(h.subrange(i, i + q.len()) =~= nd);
    assert(occurs_at(h, nd, i));
}

/// Search hits come by name ignoring ASCII case: a hit whose folded name
/// strictly precedes another's comes first.
pub proof fn lemma_hits_ordered_by_name(s: Seq<SearchHit>, i: int, j: int)
    requires
        sorted(s),
        0 <= i < s.len(),
        0 <= j < s.len(),
        precedes(folded(name_text(s[i].node)), folded(name_text(s[j].node))),
    ensures
        i < j,
{
    lemma_precedes_orders(folded(name_text(s[i].node)), folded(name_text(s[j].node)));
    if j < i {
        assert(SearchHit::key_le(s[j], s[i]));
    }
    if i == j {
        assert(lex_le(folded(name_text(s[i].node)), folded(name_text(s[j].node))));
    }
}

/// Tags are listed in code-point order of their whole text: a tag that
/// strictly precedes another ("garage" before "glass") comes first.
pub proof fn lemma_tags_in_code_point_order(s: Seq<String>, i: int, j: int)
    requires
        sorted(s),
        0 <= i < s.len(),
        0 <= j < s.len(),
        precedes(code_points(s[i]@), code_points(s[j]@)),
    ensures
        i < j,
{
    lemma_precedes_orders(code_points(s[i]@), code_points(s[j]@));
    if j < i {
        assert(String::key_le(s[j], s[i]));
    }
}

/// Children come by sibling position: a child with a smaller position is
/// listed before one with a larger position.
pub proof fn lemma_children_by_position(s: Seq<Node>, i: int, j: int)
    requires
        sorted(s),
        0 <= i < s.len(),
        0 <= j < s.len(),
        s[i].position < s[j].position,
    ensures
        i < j,
{
    if j < i {
        assert(Node::key_le(s[j], s[i]));
    }
}

} // verus!
