//! Hierarchy coherence: an entity's hierarchy path names a node that lists the
//! entity, and assignment keeps it so.

use crate::graph::{bare_path, child_index, child_position, hierarchy_with, leaf_node, node_prefix, placed_in, with_child, GraphView, NodeView};
use crate::grounding::{node_at, node_below};
use crate::hierarchy::{assigned, assigned_all, hierarchy_applied, resolved, siblings};
use crate::strmap::{has_key, lemma_position, lemma_position_same_keys, lemma_push, position};
use crate::text::split_on;
use vstd::prelude::*;

verus! {

/// The path names a node, and the node lists the identifier.
pub open spec fn lists(h: Seq<(Seq<char>, NodeView)>, path: Seq<char>, id: Seq<char>) -> bool {
    match node_at(h, path) {
        Some(n) => n.entities.contains(id),
        None => false,
    }
}

/// The segments lead to a node below `n`, and the node lists the identifier.
pub open spec fn lists_below(n: NodeView, segs: Seq<Seq<char>>, at: int, id: Seq<char>) -> bool {
    match node_below(n, segs, at) {
        Some(m) => m.entities.contains(id),
        None => false,
    }
}

/// Every entity with a hierarchy path is listed by the node that the path
/// names.
pub open spec fn coherent(g: GraphView) -> bool {
    forall|i: int|
        0 <= i < g.entities.len() ==> (#[trigger] g.entities[i]).1.hierarchy_path.len() == 0
            || lists(g.hierarchy, g.entities[i].1.hierarchy_path, g.entities[i].0)
}

proof fn lemma_child_first(children: Seq<NodeView>, name: Seq<char>, from: int)
    requires
        0 <= from <= children.len(),
    ensures
        child_position(children, name, from) == -1 || (from <= child_position(
            children,
            name,
            from,
        ) < children.len() && children[child_position(children, name, from)].name == name),
        forall|k: int|
            from <= k < children.len() && (k < child_position(children, name, from)
                || child_position(children, name, from) == -1) ==> (#[trigger] children[k]).name
                != name,
    decreases children.len() - from,
{
    if from < children.len() && children[from].name != name {
        lemma_child_first(children, name, from + 1);
    }
}

proof fn lemma_child_is(children: Seq<NodeView>, name: Seq<char>, i: int)
    requires
        0 <= i < children.len(),
        children[i].name == name,
        forall|k: int| 0 <= k < i ==> (#[trigger] children[k]).name != name,
    ensures
        child_position(children, name, 0) == i,
{
    lemma_child_first(children, name, 0);
}

proof fn lemma_placed_children(
    n: NodeView,
    segs: Seq<Seq<char>>,
    at: int,
    prefix: Seq<char>,
    id: Seq<char>,
)
    requires
        0 <= at < segs.len(),
    ensures
        ({
            let r = placed_in(n, segs, at, prefix, id);
            let j = child_index(n.children, segs[at]);
            let kids = with_child(n.children, segs[at], prefix + seq!['/'] + segs[at]);
            &&& 0 <= j < r.children.len()
            &&& r.children.len() == kids.len()
            &&& kids.len() >= n.children.len()
            &&& r.entities == n.entities
            &&& r.children[j] == placed_in(kids[j], segs, at + 1, prefix + seq!['/'] + segs[at], id)
            &&& kids[j].name == segs[at]
            &&& forall|k: int| 0 <= k < j ==> (#[trigger] kids[k]).name != segs[at]
            &&& forall|k: int| 0 <= k < r.children.len() && k != j ==> #[trigger] r.children[k] == kids[k]
            &&& forall|k: int| 0 <= k < n.children.len() ==> #[trigger] kids[k] == n.children[k]
            &&& forall|k: int| 0 <= k < r.children.len() ==> (#[trigger] r.children[k]).name == kids[k].name
        }),
{
    lemma_child_first(n.children, segs[at], 0);
    let r = placed_in(n, segs, at, prefix, id);
    let j = child_index(n.children, segs[at]);
    let cid = prefix + seq!['/'] + segs[at];
    let kids = with_child(n.children, segs[at], cid);
    assert(r.children == kids.update(j, placed_in(kids[j], segs, at + 1, cid, id)));
    assert(placed_in(kids[j], segs, at + 1, cid, id).name == kids[j].name);
    assert forall|k: int| 0 <= k < j implies (#[trigger] kids[k]).name != segs[at] by {
        assert(kids[k] == n.children[k]);
    }
    assert forall|k: int| 0 <= k < r.children.len() implies (#[trigger] r.children[k]).name
        == kids[k].name by {
        if k != j {
            assert(r.children[k] == kids[k]);
        }
    }
}

/// After an entity is placed, the segments lead to a node that lists it.
proof fn lemma_placed_lists(
    n: NodeView,
    segs: Seq<Seq<char>>,
    at: int,
    prefix: Seq<char>,
    id: Seq<char>,
)
    requires
        0 <= at,
    ensures
        lists_below(placed_in(n, segs, at, prefix, id), segs, at, id),
    decreases segs.len() - at,
{
    let r = placed_in(n, segs, at, prefix, id);
    if at >= segs.len() {
        assert(r.entities[r.entities.len() - 1] == id);
    } else {
        lemma_placed_children(n, segs, at, prefix, id);
        let j = child_index(n.children, segs[at]);
        let kids = with_child(n.children, segs[at], prefix + seq!['/'] + segs[at]);
        lemma_child_is(r.children, segs[at], j);
        lemma_placed_lists(kids[j], segs, at + 1, prefix + seq!['/'] + segs[at], id);
    }
}

/// Placing an entity takes no entity off the node that some segments lead to.
proof fn lemma_placed_keeps(
    n: NodeView,
    segs: Seq<Seq<char>>,
    at: int,
    prefix: Seq<char>,
    id: Seq<char>,
    other: Seq<Seq<char>>,
    oat: int,
    x: Seq<char>,
)
    requires
        0 <= at,
        0 <= oat,
        lists_below(n, other, oat, x),
    ensures
        lists_below(placed_in(n, segs, at, prefix, id), other, oat, x),
    decreases other.len() - oat,
{
    let r = placed_in(n, segs, at, prefix, id);
    if oat >= other.len() {
        let w = choose|w: int| 0 <= w < n.entities.len() && n.entities[w] == x;
        if at >= segs.len() {
            assert(r.entities[w] == x);
        } else {
            lemma_placed_children(n, segs, at, prefix, id);
        }
    } else {
        let oj = child_position(n.children, other[oat], 0);
        lemma_child_first(n.children, other[oat], 0);
        if at >= segs.len() {
            assert(r.children == n.children);
        } else {
            lemma_placed_children(n, segs, at, prefix, id);
            let j = child_index(n.children, segs[at]);
            let kids = with_child(n.children, segs[at], prefix + seq!['/'] + segs[at]);
            assert forall|k: int| 0 <= k < oj implies (#[trigger] r.children[k]).name
                != other[oat] by {
                assert(kids[k] == n.children[k]);
            }
            assert(kids[oj] == n.children[oj]);
            lemma_child_is(r.children, other[oat], oj);
            if oj == j {
                lemma_placed_keeps(
                    kids[j],
                    segs,
                    at + 1,
                    prefix + seq!['/'] + segs[at],
                    id,
                    other,
                    oat + 1,
                    x,
                );
            } else {
                assert(r.children[oj] == kids[oj]);
            }
        }
    }
}

/// Where the top-level node of the path stands after the insertion, and what
/// it is then.
proof fn lemma_with_top(h: Seq<(Seq<char>, NodeView)>, path: Seq<char>, id: Seq<char>)
    ensures
        ({
            let segs = split_on(bare_path(path), '/');
            let key = node_prefix() + segs[0];
            let r = hierarchy_with(h, path, id);
            let p = if has_key(h, key) {
                position(h, key)
            } else {
                h.len() as int
            };
            let before = if has_key(h, key) {
                h[p].1
            } else {
                leaf_node(key, segs[0])
            };
            &&& segs.len() >= 1
            &&& 0 <= p < r.len()
            &&& r.len() >= h.len()
            &&& position(r, key) == p
            &&& r[p] == (key, placed_in(before, segs, 1, key, id))
            &&& forall|k: int| 0 <= k < h.len() ==> (#[trigger] r[k]).0 == h[k].0
            &&& forall|k: int| 0 <= k < h.len() && k != p ==> #[trigger] r[k] == h[k]
        }),
{
    let segs = split_on(bare_path(path), '/');
    let key = node_prefix() + segs[0];
    let r = hierarchy_with(h, path, id);
    lemma_position(h, key);
    let base = if has_key(h, key) {
        h
    } else {
        h.push((key, leaf_node(key, segs[0])))
    };
    lemma_push(h, (key, leaf_node(key, segs[0])), key);
    lemma_position(base, key);
    lemma_position_same_keys(base, r, key);
}

/// After an entity is inserted into the hierarchy at a path, the path names
/// a node that lists the entity.
pub proof fn lemma_inserted_is_listed(h: Seq<(Seq<char>, NodeView)>, path: Seq<char>, id: Seq<char>)
    ensures
        lists(hierarchy_with(h, path, id), path, id),
{
    let segs = split_on(bare_path(path), '/');
    let key = node_prefix() + segs[0];
    lemma_with_top(h, path, id);
    let before = if has_key(h, key) {
        h[position(h, key)].1
    } else {
        leaf_node(key, segs[0])
    };
    lemma_placed_lists(before, segs, 1, key, id);
}

/// Inserting an entity into the hierarchy takes no entity off the node that
/// a path names.
pub proof fn lemma_insertion_keeps_listed(
    h: Seq<(Seq<char>, NodeView)>,
    path: Seq<char>,
    id: Seq<char>,
    other: Seq<char>,
    x: Seq<char>,
)
    requires
        lists(h, other, x),
    ensures
        lists(hierarchy_with(h, path, id), other, x),
{
    let segs = split_on(bare_path(path), '/');
    let key = node_prefix() + segs[0];
    let osegs = split_on(bare_path(other), '/');
    let okey = node_prefix() + osegs[0];
    let r = hierarchy_with(h, path, id);
    lemma_with_top(h, path, id);
    lemma_position(h, okey);
    lemma_position(r, okey);
    let q = position(h, okey);
    assert(position(r, okey) == q) by {
        assert(r[q].0 == okey);
        if position(r, okey) < q {
            assert(h[position(r, okey)].0 != okey);
        }
    }
    if okey == key {
        lemma_placed_keeps(h[q].1, segs, 1, key, id, osegs, 1, x);
    } else {
        assert(r[q] == h[q]);
    }
}

/// Assigning an entity to a path keeps the graph coherent.
pub proof fn lemma_assign_keeps_coherent(g: GraphView, id: Seq<char>, path: Seq<char>)
    requires
        coherent(g),
    ensures
        coherent(assigned(g, id, path)),
{
    let n = assigned(g, id, path);
    lemma_position(g.entities, id);
    assert forall|i: int|
        0 <= i < n.entities.len() implies (#[trigger] n.entities[i]).1.hierarchy_path.len() == 0
        || lists(n.hierarchy, n.entities[i].1.hierarchy_path, n.entities[i].0) by {
        if has_key(g.entities, id) && i == position(g.entities, id) {
            lemma_inserted_is_listed(g.hierarchy, path, id);
        } else {
            assert(n.entities[i] == g.entities[i]);
            if g.entities[i].1.hierarchy_path.len() > 0 {
                lemma_insertion_keeps_listed(
                    g.hierarchy,
                    path,
                    id,
                    g.entities[i].1.hierarchy_path,
                    g.entities[i].0,
                );
            }
        }
    }
}

proof fn lemma_assign_all_keeps_coherent(
    g: GraphView,
    ids: Seq<Seq<char>>,
    path: Seq<char>,
    upto: int,
)
    requires
        coherent(g),
    ensures
        coherent(assigned_all(g, ids, path, upto)),
    decreases upto,
{
    if 0 < upto <= ids.len() {
        lemma_assign_all_keeps_coherent(g, ids, path, upto - 1);
        lemma_assign_keeps_coherent(assigned_all(g, ids, path, upto - 1), ids[upto - 1], path);
    }
}

/// Applying hierarchy assignments keeps the graph coherent: afterwards every
/// entity with a hierarchy path is listed by the node that the path names.
pub proof fn lemma_apply_hierarchy_coherent(
    g: GraphView,
    assignments: Seq<(Seq<char>, Seq<char>)>,
    upto: int,
)
    requires
        coherent(g),
    ensures
        coherent(hierarchy_applied(g, assignments, upto)),
    decreases upto,
{
    if 0 < upto <= assignments.len() {
        lemma_apply_hierarchy_coherent(g, assignments, upto - 1);
        let prev = hierarchy_applied(g, assignments, upto - 1);
        let key = assignments[upto - 1].0;
        let path = assignments[upto - 1].1;
        match resolved(prev.entities, key) {
            None => {},
            Some(id) => {
                let ids = siblings(prev, id);
                lemma_assign_all_keeps_coherent(prev, ids, path, ids.len() as int);
                lemma_assign_keeps_coherent(prev, id, path);
            },
        }
    }
}

} // verus!
