//! The node tree as a mathematical object: a set of node rows linked by
//! `parent_id`, with the shape every library keeps (unique ids, exactly one
//! root, every parent present, no cycles), the ancestor walk, subtrees, root-
//! first breadcrumbs, and the lemmas that each kind of edit keeps that shape.

use vstd::prelude::*;

use crate::node::{opt_view, Node};

verus! {

/// Some node in `ns` has id `id`.
pub open spec fn has_id(ns: Set<Node>, id: Seq<char>) -> bool {
    exists|n: Node| #[trigger] ns.contains(n) && n.id@ == id
}

/// The node of `ns` with id `id` (meaningful when `has_id`).
pub open spec fn node_of(ns: Set<Node>, id: Seq<char>) -> Node {
    choose|n: Node| #[trigger] ns.contains(n) && n.id@ == id
}

/// The parent id of the node with id `id`, `None` for the root or an absent id.
pub open spec fn parent_of(ns: Set<Node>, id: Seq<char>) -> Option<Seq<char>> {
    if has_id(ns, id) {
        opt_view(node_of(ns, id).parent_id)
    } else {
        None
    }
}

/// The id `k` steps up the parent chain from `id`.
pub open spec fn ancestor_at(ns: Set<Node>, id: Seq<char>, k: nat) -> Option<Seq<char>>
    decreases k,
{
    if k == 0 {
        Some(id)
    } else {
        match parent_of(ns, id) {
            Some(p) => ancestor_at(ns, p, (k - 1) as nat),
            None => None,
        }
    }
}

/// `id` names a node in the subtree rooted at `top` (`top` itself included).
pub open spec fn in_subtree(ns: Set<Node>, top: Seq<char>, id: Seq<char>) -> bool {
    has_id(ns, id) && exists|k: nat| #[trigger] ancestor_at(ns, id, k) == Some(top)
}

/// `child` hangs directly under the node with id `parent`.
pub open spec fn is_child_of(child: Node, parent: Seq<char>) -> bool {
    child.parent_id matches Some(p) && p@ == parent
}

/// No two nodes share an id.
pub open spec fn ids_unique(ns: Set<Node>) -> bool {
    forall|a: Node, b: Node| #[trigger] ns.contains(a) && #[trigger] ns.contains(b) && a.id@ == b.id@ ==> a == b
}

/// Exactly one node has no parent.
pub open spec fn one_root(ns: Set<Node>) -> bool {
    exists|r: Node|
        #[trigger] ns.contains(r) && r.parent_id is None && forall|n: Node| #[trigger]
            ns.contains(n) && n.parent_id is None ==> n == r
}

/// Every parent a node names is a node of the tree.
pub open spec fn parents_present(ns: Set<Node>) -> bool {
    forall|n: Node| #[trigger] ns.contains(n) && n.parent_id is Some ==> has_id(ns, n.parent_id->0@)
}

/// `rank` strictly increases from every parent to its child.
pub open spec fn ranked_by(ns: Set<Node>, rank: spec_fn(Seq<char>) -> nat) -> bool {
    forall|n: Node| #[trigger] ns.contains(n) && n.parent_id is Some ==> rank(n.parent_id->0@) < rank(
        n.id@,
    )
}

/// Following parents always ends: no node is its own ancestor.
pub open spec fn acyclic(ns: Set<Node>) -> bool {
    exists|rank: spec_fn(Seq<char>) -> nat| ranked_by(ns, rank)
}

/// The shape every library's tree keeps.
pub open spec fn tree_wf(ns: Set<Node>) -> bool {
    &&& ids_unique(ns)
    &&& one_root(ns)
    &&& parents_present(ns)
    &&& acyclic(ns)
}

/// `path` is the breadcrumb of `id`: the root first, each element the parent
/// of the next, ending at the node `id` itself, every element a node of the
/// tree.
pub open spec fn is_breadcrumb(ns: Set<Node>, path: Seq<Node>, id: Seq<char>) -> bool {
    &&& path.len() >= 1
    &&& path.last().id@ == id
    &&& path[0].parent_id is None
    &&& forall|k: int| 0 <= k < path.len() ==> ns.contains(#[trigger] path[k])
    &&& forall|k: int| 0 <= k < path.len() - 1 ==> is_child_of(#[trigger] path[k + 1], path[k].id@)
}

pub proof fn lemma_node_of(ns: Set<Node>, n: Node)
    requires
        ids_unique(ns),
        ns.contains(n),
    ensures
        has_id(ns, n.id@),
        node_of(ns, n.id@) == n,
        parent_of(ns, n.id@) == opt_view(n.parent_id),
{
    assert(ns.contains(n) && n.id@ == n.id@);
    let m = node_of(ns, n.id@);
    assert(ns.contains(m) && m.id@ == n.id@);
}

pub proof fn lemma_has_id_node(ns: Set<Node>, id: Seq<char>)
    requires
        has_id(ns, id),
    ensures
        ns.contains(node_of(ns, id)),
        node_of(ns, id).id@ == id,
{
}

/// One step of the ancestor walk: a node is in `top`'s subtree iff it is `top`
/// or its parent is.
pub proof fn lemma_subtree_step(ns: Set<Node>, top: Seq<char>, n: Node)
    requires
        tree_wf(ns),
        ns.contains(n),
    ensures
        n.parent_id is None ==> (in_subtree(ns, top, n.id@) <==> n.id@ == top),
        n.parent_id is Some ==> (in_subtree(ns, top, n.id@) <==> (n.id@ == top || in_subtree(
            ns,
            top,
            n.parent_id->0@,
        ))),
{
    lemma_node_of(ns, n);
    let id = n.id@;
    assert(ancestor_at(ns, id, 0) == Some(id));
    if in_subtree(ns, top, id) {
        let k = choose|k: nat| #[trigger] ancestor_at(ns, id, k) == Some(top);
        if k > 0 {
            match n.parent_id {
                Some(p) => {
                    assert(ancestor_at(ns, p@, (k - 1) as nat) == Some(top));
                },
                None => {},
            }
        }
    }
    if n.parent_id is Some {
        let p = n.parent_id->0@;
        if in_subtree(ns, top, p) {
            let k = choose|k: nat| #[trigger] ancestor_at(ns, p, k) == Some(top);
            assert(ancestor_at(ns, id, k + 1) == Some(top));
        }
    }
}

/// The top of a subtree has rank no greater than any node in it, and exists.
pub proof fn lemma_subtree_rank(
    ns: Set<Node>,
    rank: spec_fn(Seq<char>) -> nat,
    top: Seq<char>,
    id: Seq<char>,
    k: nat,
)
    requires
        tree_wf(ns),
        ranked_by(ns, rank),
        has_id(ns, id),
        ancestor_at(ns, id, k) == Some(top),
    ensures
        rank(top) <= rank(id),
        has_id(ns, top),
    decreases k,
{
    if k > 0 {
        let n = node_of(ns, id);
        lemma_node_of(ns, n);
        let p = n.parent_id->0@;
        assert(ns.contains(n));
        lemma_subtree_rank(ns, rank, top, p, (k - 1) as nat);
    }
}

/// The root is in no subtree but its own.
pub proof fn lemma_root_only_in_own_subtree(ns: Set<Node>, top: Seq<char>, r: Node)
    requires
        tree_wf(ns),
        ns.contains(r),
        r.parent_id is None,
        in_subtree(ns, top, r.id@),
    ensures
        r.id@ == top,
{
    lemma_subtree_step(ns, top, r);
}

/// The tree keeps its shape when a node is replaced by one with the same id
/// and the same parent.
pub proof fn lemma_replace_keeps_shape(ns: Set<Node>, old_n: Node, new_n: Node)
    requires
        tree_wf(ns),
        ns.contains(old_n),
        new_n.id@ == old_n.id@,
        opt_view(new_n.parent_id) == opt_view(old_n.parent_id),
    ensures
        tree_wf(ns.remove(old_n).insert(new_n)),
        forall|id: Seq<char>| has_id(ns.remove(old_n).insert(new_n), id) <==> has_id(ns, id),
{
    let ns2 = ns.remove(old_n).insert(new_n);
    assert forall|id: Seq<char>| has_id(ns2, id) <==> has_id(ns, id) by {
        if has_id(ns2, id) {
            let m = choose|m: Node| #[trigger] ns2.contains(m) && m.id@ == id;
            if m == new_n {
                assert(ns.contains(old_n) && old_n.id@ == id);
            } else {
                assert(ns.contains(m) && m.id@ == id);
            }
        }
        if has_id(ns, id) {
            let m = choose|m: Node| #[trigger] ns.contains(m) && m.id@ == id;
            if m == old_n {
                assert(ns2.contains(new_n) && new_n.id@ == id);
            } else {
                assert(ns2.contains(m) && m.id@ == id);
            }
        }
    }
    assert forall|a: Node, b: Node| #[trigger]
        ns2.contains(a) && #[trigger] ns2.contains(b) && a.id@ == b.id@ implies a == b by {
        if a != new_n && b != new_n {
            assert(ns.contains(a) && ns.contains(b));
        } else if a == new_n && b != new_n {
            assert(ns.contains(old_n) && ns.contains(b));
            assert(b == old_n);
        } else if b == new_n && a != new_n {
            assert(ns.contains(old_n) && ns.contains(a));
            assert(a == old_n);
        }
    }
    let r = choose|r: Node|
        #[trigger] ns.contains(r) && r.parent_id is None && forall|n: Node| #[trigger]
            ns.contains(n) && n.parent_id is None ==> n == r;
    if r == old_n {
        assert(ns2.contains(new_n) && new_n.parent_id is None);
        assert forall|n: Node| #[trigger] ns2.contains(n) && n.parent_id is None implies n
            == new_n by {
            if n != new_n {
                assert(ns.contains(n));
            }
        }
    } else {
        assert(ns2.contains(r));
        assert forall|n: Node| #[trigger] ns2.contains(n) && n.parent_id is None implies n
            == r by {
            if n != new_n {
                assert(ns.contains(n));
            } else {
                assert(old_n.parent_id is None);
            }
        }
    }
    assert forall|n: Node| #[trigger] ns2.contains(n) && n.parent_id is Some implies has_id(
        ns2,
        n.parent_id->0@,
    ) by {
        if n == new_n {
            assert(ns.contains(old_n));
        } else {
            assert(ns.contains(n));
        }
    }
    let rank = choose|rank: spec_fn(Seq<char>) -> nat| ranked_by(ns, rank);
    assert forall|n: Node| #[trigger] ns2.contains(n) && n.parent_id is Some implies rank(
        n.parent_id->0@,
    ) < rank(n.id@) by {
        if n == new_n {
            assert(ns.contains(old_n));
        } else {
            assert(ns.contains(n));
        }
    }
    assert(ranked_by(ns2, rank));
}

/// The tree keeps its shape when a fresh node is added under an existing one.
pub proof fn lemma_insert_child_keeps_shape(ns: Set<Node>, n: Node)
    requires
        tree_wf(ns),
        !has_id(ns, n.id@),
        n.parent_id is Some,
        has_id(ns, n.parent_id->0@),
    ensures
        tree_wf(ns.insert(n)),
{
    let ns2 = ns.insert(n);
    assert forall|a: Node, b: Node| #[trigger]
        ns2.contains(a) && #[trigger] ns2.contains(b) && a.id@ == b.id@ implies a == b by {
        if a != n && b == n {
            assert(ns.contains(a) && a.id@ == n.id@);
        } else if a == n && b != n {
            assert(ns.contains(b) && b.id@ == n.id@);
        }
    }
    let r = choose|r: Node|
        #[trigger] ns.contains(r) && r.parent_id is None && forall|m: Node| #[trigger]
            ns.contains(m) && m.parent_id is None ==> m == r;
    assert(ns2.contains(r));
    assert forall|m: Node| #[trigger] ns2.contains(m) && m.parent_id is None implies m == r by {
        if m != n {
            assert(ns.contains(m));
        }
    }
    assert forall|m: Node| #[trigger] ns2.contains(m) && m.parent_id is Some implies has_id(
        ns2,
        m.parent_id->0@,
    ) by {
        if m != n {
            assert(ns.contains(m));
        }
        let w = choose|w: Node| #[trigger] ns.contains(w) && w.id@ == m.parent_id->0@;
        assert(ns2.contains(w));
    }
    let rank = choose|rank: spec_fn(Seq<char>) -> nat| ranked_by(ns, rank);
    let p = n.parent_id->0@;
    let rank2 = |id: Seq<char>|
        if id == n.id@ {
            rank(p) + 1
        } else {
            rank(id)
        };
    assert forall|m: Node| #[trigger] ns2.contains(m) && m.parent_id is Some implies rank2(
        m.parent_id->0@,
    ) < rank2(m.id@) by {
        if m == n {
            assert(p != n.id@);
        } else {
            assert(ns.contains(m));
            assert(m.id@ != n.id@);
            if m.parent_id->0@ == n.id@ {
                assert(has_id(ns, n.id@));
            }
        }
    }
    assert(ranked_by(ns2, rank2));
}

/// The tree keeps its shape when a non-root node's whole subtree is removed.
pub proof fn lemma_remove_subtree_keeps_shape(ns: Set<Node>, top: Node)
    requires
        tree_wf(ns),
        ns.contains(top),
        top.parent_id is Some,
    ensures
        tree_wf(ns.filter(|n: Node| !in_subtree(ns, top.id@, n.id@))),
{
    let t = top.id@;
    let ns2 = ns.filter(|n: Node| !in_subtree(ns, t, n.id@));
    let r = choose|r: Node|
        #[trigger] ns.contains(r) && r.parent_id is None && forall|m: Node| #[trigger]
            ns.contains(m) && m.parent_id is None ==> m == r;
    if in_subtree(ns, t, r.id@) {
        lemma_root_only_in_own_subtree(ns, t, r);
        lemma_node_of(ns, r);
        lemma_node_of(ns, top);
    }
    assert(ns2.contains(r));
    assert forall|m: Node| #[trigger] ns2.contains(m) && m.parent_id is None implies m == r by {
        assert(ns.contains(m));
    }
    assert forall|m: Node| #[trigger] ns2.contains(m) && m.parent_id is Some implies has_id(
        ns2,
        m.parent_id->0@,
    ) by {
        assert(ns.contains(m));
        let p = m.parent_id->0@;
        let w = choose|w: Node| #[trigger] ns.contains(w) && w.id@ == p;
        lemma_subtree_step(ns, t, m);
        assert(!in_subtree(ns, t, m.id@));
        assert(ns2.contains(w));
    }
    let rank = choose|rank: spec_fn(Seq<char>) -> nat| ranked_by(ns, rank);
    assert(ranked_by(ns2, rank));
}

/// The tree keeps its shape when a non-root node moves under a node outside its
/// own subtree.
pub proof fn lemma_move_keeps_shape(ns: Set<Node>, old_n: Node, new_n: Node)
    requires
        tree_wf(ns),
        ns.contains(old_n),
        old_n.parent_id is Some,
        new_n.id@ == old_n.id@,
        new_n.parent_id is Some,
        has_id(ns, new_n.parent_id->0@),
        !in_subtree(ns, old_n.id@, new_n.parent_id->0@),
    ensures
        tree_wf(ns.remove(old_n).insert(new_n)),
{
    let x = old_n.id@;
    let np = new_n.parent_id->0@;
    let ns2 = ns.remove(old_n).insert(new_n);
    assert forall|a: Node, b: Node| #[trigger]
        ns2.contains(a) && #[trigger] ns2.contains(b) && a.id@ == b.id@ implies a == b by {
        if a != new_n && b != new_n {
            assert(ns.contains(a) && ns.contains(b));
        } else if a == new_n && b != new_n {
            assert(ns.contains(old_n) && ns.contains(b));
            assert(b == old_n);
        } else if b == new_n && a != new_n {
            assert(ns.contains(old_n) && ns.contains(a));
            assert(a == old_n);
        }
    }
    let r = choose|r: Node|
        #[trigger] ns.contains(r) && r.parent_id is None && forall|m: Node| #[trigger]
            ns.contains(m) && m.parent_id is None ==> m == r;
    assert(r != old_n);
    assert(ns2.contains(r));
    assert forall|m: Node| #[trigger] ns2.contains(m) && m.parent_id is None implies m == r by {
        if m != new_n {
            assert(ns.contains(m));
        }
    }
    assert forall|m: Node| #[trigger] ns2.contains(m) && m.parent_id is Some implies has_id(
        ns2,
        m.parent_id->0@,
    ) by {
        let p = if m == new_n {
            np
        } else {
            assert(ns.contains(m));
            m.parent_id->0@
        };
        let w = choose|w: Node| #[trigger] ns.contains(w) && w.id@ == p;
        if w == old_n {
            assert(ns2.contains(new_n) && new_n.id@ == p);
        } else {
            assert(ns2.contains(w));
        }
    }
    let rank = choose|rank: spec_fn(Seq<char>) -> nat| ranked_by(ns, rank);
    lemma_node_of(ns, old_n);
    assert(ancestor_at(ns, x, 0) == Some(x));
    let rank2 = |id: Seq<char>|
        if in_subtree(ns, x, id) {
            (rank(id) + rank(np) + 1 - rank(x)) as nat
        } else {
            rank(id)
        };
    assert forall|m: Node| #[trigger] ns2.contains(m) && m.parent_id is Some implies rank2(
        m.parent_id->0@,
    ) < rank2(m.id@) by {
        if m == new_n {
            assert(in_subtree(ns, x, x));
        } else {
            assert(ns.contains(m));
            let p = m.parent_id->0@;
            lemma_subtree_step(ns, x, m);
            if in_subtree(ns, x, m.id@) {
                let k = choose|k: nat| #[trigger] ancestor_at(ns, m.id@, k) == Some(x);
                lemma_subtree_rank(ns, rank, x, m.id@, k);
                if m.id@ == x {
                    assert(m == old_n);
                } else {
                    let kp = choose|k: nat| #[trigger] ancestor_at(ns, p, k) == Some(x);
                    lemma_subtree_rank(ns, rank, x, p, kp);
                }
            }
        }
    }
    assert(ranked_by(ns2, rank2));
}

/// Walking `a` steps and then `k` more is walking `a + k` steps.
pub proof fn lemma_ancestor_add(ns: Set<Node>, x: Seq<char>, a: nat, k: nat, y: Seq<char>)
    requires
        ancestor_at(ns, x, a) == Some(y),
    ensures
        ancestor_at(ns, x, a + k) == ancestor_at(ns, y, k),
    decreases a,
{
    if a > 0 {
        let p = parent_of(ns, x)->0;
        assert(ancestor_at(ns, x, a) == ancestor_at(ns, p, (a - 1) as nat));
        lemma_ancestor_add(ns, p, (a - 1) as nat, k, y);
        assert(ancestor_at(ns, x, a + k) == ancestor_at(ns, p, (a + k - 1) as nat));
    }
}

/// The number of steps from a node up to a root is unique.
pub proof fn lemma_depth_unique(ns: Set<Node>, x: Seq<char>, root: Node, a: nat, b: nat)
    requires
        ids_unique(ns),
        ns.contains(root),
        root.parent_id is None,
        ancestor_at(ns, x, a) == Some(root.id@),
        ancestor_at(ns, x, b) == Some(root.id@),
    ensures
        a == b,
{
    lemma_node_of(ns, root);
    if a < b {
        lemma_ancestor_add(ns, x, a, (b - a) as nat, root.id@);
        assert(ancestor_at(ns, x, b) == ancestor_at(ns, root.id@, (b - a) as nat));
    } else if b < a {
        lemma_ancestor_add(ns, x, b, (a - b) as nat, root.id@);
        assert(ancestor_at(ns, x, a) == ancestor_at(ns, root.id@, (a - b) as nat));
    }
}

/// A node's breadcrumb is unique: two root-first chains ending at the same
/// node are the same chain.
pub proof fn lemma_breadcrumb_unique(ns: Set<Node>, p1: Seq<Node>, p2: Seq<Node>, id: Seq<char>)
    requires
        tree_wf(ns),
        is_breadcrumb(ns, p1, id),
        is_breadcrumb(ns, p2, id),
    ensures
        p1 == p2,
    decreases p1.len(),
{
    let a = p1.last();
    let b = p2.last();
    assert(ns.contains(p1[p1.len() - 1]));
    assert(ns.contains(p2[p2.len() - 1]));
    assert(a == b);
    if p1.len() == 1 || p2.len() == 1 {
        if p1.len() > 1 {
            let k = p1.len() - 2;
            assert(is_child_of(p1[k + 1], p1[k].id@));
        }
        if p2.len() > 1 {
            let k = p2.len() - 2;
            assert(is_child_of(p2[k + 1], p2[k].id@));
        }
        assert(p1 =~= p2);
    } else {
        let k1 = p1.len() - 2;
        let k2 = p2.len() - 2;
        assert(is_child_of(p1[k1 + 1], p1[k1].id@));
        assert(is_child_of(p2[k2 + 1], p2[k2].id@));
        let q1 = p1.drop_last();
        let q2 = p2.drop_last();
        let pid = p1[k1].id@;
        assert forall|k: int| 0 <= k < q1.len() implies ns.contains(#[trigger] q1[k]) by {
            assert(ns.contains(p1[k]));
        }
        assert forall|k: int| 0 <= k < q1.len() - 1 implies is_child_of(#[trigger] q1[k + 1], q1[k].id@) by {
            assert(is_child_of(p1[k + 1], p1[k].id@));
        }
        assert forall|k: int| 0 <= k < q2.len() implies ns.contains(#[trigger] q2[k]) by {
            assert(ns.contains(p2[k]));
        }
        assert forall|k: int| 0 <= k < q2.len() - 1 implies is_child_of(#[trigger] q2[k + 1], q2[k].id@) by {
            assert(is_child_of(p2[k + 1], p2[k].id@));
        }
        lemma_breadcrumb_unique(ns, q1, q2, pid);
        assert(p1 =~= q1.push(a));
        assert(p2 =~= q2.push(b));
    }
}

/// A move carries the moved node's whole subtree along: every node that was
/// in its subtree still is.
pub proof fn lemma_move_carries_subtree(ns: Set<Node>, old_n: Node, new_n: Node, d: Seq<char>)
    requires
        tree_wf(ns),
        ns.contains(old_n),
        new_n.id@ == old_n.id@,
        ids_unique(ns.remove(old_n).insert(new_n)),
        in_subtree(ns, old_n.id@, d),
    ensures
        in_subtree(ns.remove(old_n).insert(new_n), old_n.id@, d),
{
    let k = choose|k: nat| #[trigger] ancestor_at(ns, d, k) == Some(old_n.id@);
    lemma_move_carries_subtree_steps(ns, old_n, new_n, d, k);
}

proof fn lemma_move_carries_subtree_steps(ns: Set<Node>, old_n: Node, new_n: Node, d: Seq<char>, k: nat)
    requires
        tree_wf(ns),
        ns.contains(old_n),
        new_n.id@ == old_n.id@,
        ids_unique(ns.remove(old_n).insert(new_n)),
        has_id(ns, d),
        ancestor_at(ns, d, k) == Some(old_n.id@),
    ensures
        in_subtree(ns.remove(old_n).insert(new_n), old_n.id@, d),
    decreases k,
{
    let ns2 = ns.remove(old_n).insert(new_n);
    let x = old_n.id@;
    if d == x {
        assert(ns2.contains(new_n) && new_n.id@ == d);
        assert(ancestor_at(ns2, d, 0) == Some(x));
    } else {
        let n = node_of(ns, d);
        lemma_node_of(ns, n);
        assert(n != old_n);
        assert(ns2.contains(n));
        lemma_node_of(ns2, n);
        let p = n.parent_id->0@;
        if n.parent_id is None {
            assert(ancestor_at(ns, d, k) == None::<Seq<char>>);
        }
        assert(ancestor_at(ns, p, (k - 1) as nat) == Some(x));
        lemma_subtree_rank_exists(ns, n);
        lemma_move_carries_subtree_steps(ns, old_n, new_n, p, (k - 1) as nat);
        let j = choose|j: nat| #[trigger] ancestor_at(ns2, p, j) == Some(x);
        assert(ancestor_at(ns2, d, j + 1) == Some(x));
    }
}

proof fn lemma_subtree_rank_exists(ns: Set<Node>, n: Node)
    requires
        tree_wf(ns),
        ns.contains(n),
        n.parent_id is Some,
    ensures
        has_id(ns, n.parent_id->0@),
{
}

} // verus!
