//! Which rows carry image blobs across the changeset channel, and how each
//! blob is scoped. Every new image, a node's first photo or a replacement, is
//! an INSERT of an immutable `node_images` row, and that insert carries it to
//! every online peer. An inserted `nodes` row carries the photo it names; a
//! created node's photo rides that row, not its image row as well. Updates
//! carry nothing (a changed column reads as its replaced value), and an
//! image's removal goes through the outbox, so deletes carry nothing either.

use vstd::prelude::*;

use crate::text::same_text;

verus! {

/// The kind of a captured row change.
#[derive(Debug, Clone, Copy, PartialEq, Eq, Structural)]
pub enum ChangeOp {
    Insert,
    Update,
    Delete,
}

/// One captured row change: its table, its kind, and its column values in
/// schema order (for an update, a changed column holds its old value).
#[derive(Debug, Clone, PartialEq, Eq)]
pub struct RowChange {
    pub table: String,
    pub op: ChangeOp,
    pub columns: Vec<Option<String>>,
}

/// Who can read a blob.
#[derive(Debug, Clone, Copy, PartialEq, Eq)]
pub enum BlobScope {
    /// Encrypted with the library master key: every member reads it.
    Master,
}

/// One image blob: its namespace, its id (the image id), and its scope. The
/// host locates its plaintext by image id in the library directory.
#[derive(Debug, Clone, PartialEq, Eq)]
pub struct BlobRef {
    pub namespace: String,
    pub id: String,
    pub scope: BlobScope,
}

/// The synced table of nodes; an inserted node row carries its image.
pub const NODES_TABLE: &'static str = "nodes";

/// The column of `image_id` in the `nodes` schema.
pub const IMAGE_ID_COL: usize = 4;

/// The synced table of immutable image rows; every new image, a node's first
/// photo or a replacement, is an insert of one of its rows.
pub const NODE_IMAGES_TABLE: &'static str = "node_images";

/// The column of the image id (the row's primary key) in the `node_images`
/// schema.
pub const NODE_IMAGE_ID_COL: usize = 0;

/// The blob namespace of images.
pub const IMAGE_NAMESPACE: &'static str = "images";

/// The value of column `i` of a change, `None` when it is NULL or absent.
pub open spec fn col_value(c: RowChange, i: usize) -> Option<Seq<char>> {
    if i < c.columns@.len() && c.columns@[i as int] is Some {
        Some(c.columns@[i as int]->0@)
    } else {
        None
    }
}

/// The image an inserted `nodes` row names in its `image_id` column.
pub open spec fn node_row_image(c: RowChange) -> Option<Seq<char>> {
    if c.op == ChangeOp::Insert && c.table@ == NODES_TABLE@ {
        col_value(c, IMAGE_ID_COL)
    } else {
        None
    }
}

/// The image an inserted `node_images` row adds: its id.
pub open spec fn image_row_image(c: RowChange) -> Option<Seq<char>> {
    if c.op == ChangeOp::Insert && c.table@ == NODE_IMAGES_TABLE@ {
        col_value(c, NODE_IMAGE_ID_COL)
    } else {
        None
    }
}

/// The images the inserted `nodes` rows of a changeset name, one per row, in
/// order.
pub open spec fn node_row_images(cs: Seq<RowChange>) -> Seq<Seq<char>>
    decreases cs.len(),
{
    if cs.len() == 0 {
        Seq::empty()
    } else {
        node_row_images(cs.drop_last()) + match node_row_image(cs.last()) {
            Some(id) => seq![id],
            None => Seq::empty(),
        }
    }
}

/// The image change `c` of changeset `all` carries. An inserted `nodes` row
/// carries the image it names. An inserted `node_images` row carries its
/// image unless an inserted `nodes` row of the same changeset already names
/// it: creating a node inserts both rows, and its photo rides the node row.
/// Updates and deletes carry none: a changed column reads as its replaced
/// value, and a removed image's blob is deleted through the outbox.
pub open spec fn carried_image(c: RowChange, all: Seq<RowChange>) -> Option<Seq<char>> {
    match node_row_image(c) {
        Some(id) => Some(id),
        None => match image_row_image(c) {
            Some(id) => if node_row_images(all).contains(id) {
                None
            } else {
                Some(id)
            },
            None => None,
        },
    }
}

/// The image ids the changes `cs` of changeset `all` carry: one per carrying
/// change, in change order.
pub open spec fn carried_images(cs: Seq<RowChange>, all: Seq<RowChange>) -> Seq<Seq<char>>
    decreases cs.len(),
{
    if cs.len() == 0 {
        Seq::empty()
    } else {
        carried_images(cs.drop_last(), all) + match carried_image(cs.last(), all) {
            Some(id) => seq![id],
            None => Seq::empty(),
        }
    }
}

/// Only inserted `nodes` and `node_images` rows carry images: a changeset of
/// updates, deletes and other tables' rows moves no blob over the changeset
/// channel.
pub proof fn lemma_only_image_inserts_carry_images(cs: Seq<RowChange>, all: Seq<RowChange>)
    requires
        forall|k: int| 0 <= k < cs.len() ==> (#[trigger] cs[k]).op != ChangeOp::Insert || (cs[k].table@
            != NODES_TABLE@ && cs[k].table@ != NODE_IMAGES_TABLE@),
    ensures
        carried_images(cs, all).len() == 0,
    decreases cs.len(),
{
    if cs.len() > 0 {
        let init = cs.drop_last();
        assert forall|k: int| 0 <= k < init.len() implies (#[trigger] init[k]).op != ChangeOp::Insert
            || (init[k].table@ != NODES_TABLE@ && init[k].table@ != NODE_IMAGES_TABLE@) by {
            assert(init[k] == cs[k]);
        }
        lemma_only_image_inserts_carry_images(init, all);
        assert(cs[cs.len() - 1] == cs.last());
    }
}

/// Without image-row inserts, a changeset carries exactly the images its
/// inserted `nodes` rows name: one blob per such row, in change order,
/// repeats included.
pub proof fn lemma_node_rows_alone(cs: Seq<RowChange>, all: Seq<RowChange>)
    requires
        forall|k: int| 0 <= k < cs.len() ==> image_row_image(#[trigger] cs[k]) is None,
    ensures
        carried_images(cs, all) == node_row_images(cs),
    decreases cs.len(),
{
    if cs.len() > 0 {
        let init = cs.drop_last();
        assert forall|k: int| 0 <= k < init.len() implies image_row_image(#[trigger] init[k]) is None by {
            assert(init[k] == cs[k]);
        }
        lemma_node_rows_alone(init, all);
        assert(image_row_image(cs[cs.len() - 1]) is None);
    }
}

/// Whether `ids` holds `id`.
fn holds_text(ids: &Vec<String>, id: &String) -> (b: bool)
    ensures
        b == ids@.map_values(|s: String| s@).contains(id@),
{
    let ghost views = ids@.map_values(|s: String| s@);
    let mut k: usize = 0;
    while k < ids.len()
        invariant
            k <= ids@.len(),
            views == ids@.map_values(|s: String| s@),
            forall|j: int| 0 <= j < k ==> views[j] != id@,
        decreases ids@.len() - k,
    {
        if same_text(ids[k].as_str(), id.as_str()) {
            assert(views[k as int] == id@);
            return true;
        }
        k = k + 1;
    }
    proof {
        if views.contains(id@) {
            let j = choose|j: int| 0 <= j < views.len() && views[j] == id@;
        }
    }
    false
}

/// The column whose value is the image a change names, if it is an insert of
/// a `nodes` row (`true` with it) or of a `node_images` row (`false`).
fn image_column(change: &RowChange) -> (r: Option<(usize, bool)>)
    ensures
        r == (if change.op == ChangeOp::Insert && change.table@ == NODES_TABLE@ {
            Some((IMAGE_ID_COL, true))
        } else if change.op == ChangeOp::Insert && change.table@ == NODE_IMAGES_TABLE@ {
            Some((NODE_IMAGE_ID_COL, false))
        } else {
            None::<(usize, bool)>
        }),
{
    if change.op == ChangeOp::Insert {
        if same_text(change.table.as_str(), NODES_TABLE) {
            Some((IMAGE_ID_COL, true))
        } else if same_text(change.table.as_str(), NODE_IMAGES_TABLE) {
            Some((NODE_IMAGE_ID_COL, false))
        } else {
            None
        }
    } else {
        None
    }
}

/// The images the inserted `nodes` rows of `changes` name, in order.
fn node_row_image_ids(changes: &[RowChange]) -> (r: Vec<String>)
    ensures
        r@.map_values(|s: String| s@) == node_row_images(changes@),
{
    let mut out: Vec<String> = Vec::new();
    let mut i: usize = 0;
    while i < changes.len()
        invariant
            i <= changes@.len(),
            out@.map_values(|s: String| s@) == node_row_images(changes@.take(i as int)),
        decreases changes@.len() - i,
    {
        let change = &changes[i];
        proof {
            assert(changes@.take(i + 1).drop_last() =~= changes@.take(i as int));
            assert(changes@.take(i + 1).last() == changes@[i as int]);
        }
        let ghost before = out@;
        match image_column(change) {
            Some((c, true)) => match change.col(c) {
                Some(id) => {
                    out.push(id);
                    proof {
                        assert(out@.map_values(|s: String| s@) =~= before.map_values(|s: String| s@).push(out@.last()@));
                    }
                },
                None => {},
            },
            _ => {},
        }
        proof {
            assert(out@.map_values(|s: String| s@) =~= node_row_images(changes@.take(i + 1)));
        }
        i = i + 1;
    }
    proof {
        assert(changes@.take(changes@.len() as int) =~= changes@);
    }
    out
}

impl RowChange {
    /// The value of column `i`, `None` when it is NULL or out of range.
    pub fn col(&self, i: usize) -> (r: Option<String>)
        ensures
            i < self.columns@.len() ==> r == self.columns@[i as int],
            i >= self.columns@.len() ==> r is None,
    {
        if i < self.columns.len() {
            match &self.columns[i] {
                Some(v) => Some(v.clone()),
                None => None,
            }
        } else {
            None
        }
    }
}

/// Maps image-bearing node rows to their blobs.
pub struct NodeBlobPlan {}

impl NodeBlobPlan {
    pub fn new() -> (r: NodeBlobPlan) {
        NodeBlobPlan {  }
    }

    /// One image blob, scoped to the library master key.
    pub fn image_ref(&self, image_id: String) -> (r: BlobRef)
        ensures
            r.namespace@ == IMAGE_NAMESPACE@,
            r.id == image_id,
            r.scope == BlobScope::Master,
    {
        BlobRef { namespace: String::from_str(IMAGE_NAMESPACE), id: image_id, scope: BlobScope::Master }
    }

    /// The image blobs a list of changes references: one per carrying change,
    /// in change order.
    pub fn inserted_image_refs(&self, changes: &[RowChange]) -> (r: Vec<BlobRef>)
        ensures
            r@.map_values(|b: BlobRef| b.id@) == carried_images(changes@, changes@),
            forall|k: int| 0 <= k < r@.len() ==> (#[trigger] r@[k]).namespace@ == IMAGE_NAMESPACE@
                && r@[k].scope == BlobScope::Master,
    {
        let named = node_row_image_ids(changes);
        let mut refs: Vec<BlobRef> = Vec::new();
        let mut i: usize = 0;
        while i < changes.len()
            invariant
                i <= changes@.len(),
                named@.map_values(|s: String| s@) == node_row_images(changes@),
                refs@.map_values(|b: BlobRef| b.id@) == carried_images(changes@.take(i as int), changes@),
                forall|k: int| 0 <= k < refs@.len() ==> (#[trigger] refs@[k]).namespace@ == IMAGE_NAMESPACE@
                    && refs@[k].scope == BlobScope::Master,
            decreases changes@.len() - i,
        {
            let change = &changes[i];
            proof {
                assert(changes@.take(i + 1).drop_last() =~= changes@.take(i as int));
                assert(changes@.take(i + 1).last() == changes@[i as int]);
            }
            let ghost before = refs@;
            let ghost c = changes@[i as int];
            let carried: Option<String> = match image_column(change) {
                Some((k, true)) => {
                    let v = change.col(k);
                    proof {
                        if v is Some {
                            assert(carried_image(c, changes@) == Some(v->0@));
                        } else {
                            reveal_strlit("nodes");
                            reveal_strlit("node_images");
                            assert(NODES_TABLE@.len() == 5);
                            assert(NODE_IMAGES_TABLE@.len() == 11);
                            assert(carried_image(c, changes@) is None);
                        }
                    }
                    v
                },
                Some((k, false)) => match change.col(k) {
                    Some(id) => {
                        let seen = holds_text(&named, &id);
                        if seen {
                            proof {
                                assert(carried_image(c, changes@) is None);
                            }
                            None
                        } else {
                            proof {
                                assert(carried_image(c, changes@) == Some(id@));
                            }
                            Some(id)
                        }
                    },
                    None => {
                        proof {
                            assert(carried_image(c, changes@) is None);
                        }
                        None
                    },
                },
                None => {
                    proof {
                        assert(carried_image(c, changes@) is None);
                    }
                    None
                },
            };
            proof {
                if carried is Some {
                    assert(carried_image(c, changes@) == Some(carried->0@));
                } else {
                    assert(carried_image(c, changes@) is None);
                }
            }
            match carried {
                Some(image_id) => {
                    let b = self.image_ref(image_id);
                    refs.push(b);
                    proof {
                        assert(refs@.map_values(|b: BlobRef| b.id@) =~= before.map_values(|b: BlobRef| b.id@).push(b.id@));
                    }
                },
                None => {},
            }
            proof {
                assert(refs@.map_values(|b: BlobRef| b.id@) =~= carried_images(changes@.take(i + 1), changes@));
            }
            i = i + 1;
        }
        proof {
            assert(changes@.take(changes@.len() as int) =~= changes@);
        }
        refs
    }

    /// The blobs to upload for a pushed changeset.
    pub fn blobs_to_push(&self, changes: &[RowChange]) -> (r: Vec<BlobRef>)
        ensures
            r@.map_values(|b: BlobRef| b.id@) == carried_images(changes@, changes@),
            forall|k: int| 0 <= k < r@.len() ==> (#[trigger] r@[k]).namespace@ == IMAGE_NAMESPACE@
                && r@[k].scope == BlobScope::Master,
    {
        self.inserted_image_refs(changes)
    }

    /// The blobs to download for a pulled changeset: the same as a push.
    pub fn blobs_to_pull(&self, changes: &[RowChange]) -> (r: Vec<BlobRef>)
        ensures
            r@.map_values(|b: BlobRef| b.id@) == carried_images(changes@, changes@),
            forall|k: int| 0 <= k < r@.len() ==> (#[trigger] r@[k]).namespace@ == IMAGE_NAMESPACE@
                && r@[k].scope == BlobScope::Master,
    {
        self.inserted_image_refs(changes)
    }
}

} // verus!
