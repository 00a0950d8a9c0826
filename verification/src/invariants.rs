//! The invariants of a graph, and the operations that keep them.

use crate::evolution::{after_deletions, doomed_ids, edge_stays, pruned_edges, pruned_index, remaining, surviving};
use crate::graph::{with_entity, EdgeKind, EdgeView, EntityView, GraphView};
use crate::grounding::{edges_grounded, imported, linked, module_at, resolved_edges, unique_named};
use crate::hierarchy::name_first;
use crate::modules::{last_line, module_entity, needs_module, with_modules};
use crate::structure::with_edge;
use crate::strmap::{distinct_keys, has_key, lemma_absent, lemma_position, lemma_position_distinct, lemma_put, lookup, position};
use vstd::prelude::*;

verus! {

/// The maps of the graph hold no key twice, and every entity is kept under
/// its own identifier.
pub open spec fn well_keyed(g: GraphView) -> bool {
    &&& distinct_keys(g.entities)
    &&& distinct_keys(g.file_index)
    &&& forall|i: int| 0 <= i < g.entities.len() ==> (#[trigger] g.entities[i]).1.id == g.entities[i].0
}

/// Entity number `i` is listed in the file index under its file.
pub open spec fn entity_listed(g: GraphView, i: int) -> bool {
    has_key(g.file_index, g.entities[i].1.file) && lookup(
        g.file_index,
        g.entities[i].1.file,
    ).contains(g.entities[i].0)
}

/// Identifier number `j` of file number `f` names an entity of that file.
pub open spec fn listing_true(g: GraphView, f: int, j: int) -> bool {
    has_key(g.entities, g.file_index[f].1[j]) && lookup(g.entities, g.file_index[f].1[j]).file
        == g.file_index[f].0
}

/// The file index agrees with the entities: every entity is listed under its
/// file, and every listed identifier names an entity of that file.
pub open spec fn index_agrees(g: GraphView) -> bool {
    &&& forall|i: int| 0 <= i < g.entities.len() ==> #[trigger] entity_listed(g, i)
    &&& forall|f: int, j: int|
        0 <= f < g.file_index.len() && 0 <= j < g.file_index[f].1.len() ==> #[trigger] listing_true(
            g,
            f,
            j,
        )
}

/// Inserting an entity keeps the file index in agreement with the entities,
/// provided the entity is new or stays in the file it was in.
pub proof fn lemma_insert_keeps_index(g: GraphView, e: EntityView)
    requires
        well_keyed(g),
        index_agrees(g),
        has_key(g.entities, e.id) ==> lookup(g.entities, e.id).file == e.file,
    ensures
        well_keyed(with_entity(g, e)),
        index_agrees(with_entity(g, e)),
{
    let n = with_entity(g, e);
    let es = g.entities;
    let fi = g.file_index;
    lemma_put(es, e.id, e, e.id);
    lemma_position(es, e.id);
    lemma_position(fi, e.file);
    let new_list = if has_key(fi, e.file) {
        if lookup(fi, e.file).contains(e.id) {
            lookup(fi, e.file)
        } else {
            lookup(fi, e.file).push(e.id)
        }
    } else {
        seq![e.id]
    };
    lemma_put(fi, e.file, new_list, e.file);
    assert(distinct_keys(n.file_index)) by {
        if has_key(fi, e.file) && lookup(fi, e.file).contains(e.id) {
        }
    }
    assert(has_key(n.file_index, e.file) && lookup(n.file_index, e.file).contains(e.id)) by {
        if has_key(fi, e.file) {
            if !lookup(fi, e.file).contains(e.id) {
                assert(new_list[new_list.len() - 1] == e.id);
            }
        } else {
            assert(new_list[0] == e.id);
        }
    }
    assert forall|i: int| 0 <= i < n.entities.len() implies (#[trigger] n.entities[i]).1.id
        == n.entities[i].0 by {
        if has_key(es, e.id) {
            if i != position(es, e.id) {
                assert(n.entities[i] == es[i]);
            }
        } else if i < es.len() {
            assert(n.entities[i] == es[i]);
        }
    }
    assert forall|i: int| 0 <= i < n.entities.len() implies #[trigger] entity_listed(n, i) by {
        let (k, v) = n.entities[i];
        let old_entry = if has_key(es, e.id) {
            i != position(es, e.id)
        } else {
            i < es.len()
        };
        if old_entry {
            assert(n.entities[i] == es[i]);
            assert(entity_listed(g, i));
            lemma_put(fi, e.file, new_list, v.file);
            if v.file == e.file {
                let p = choose|p: int|
                    0 <= p < lookup(fi, e.file).len() && lookup(fi, e.file)[p] == k;
                assert(new_list[p] == k);
            }
            if has_key(fi, e.file) && lookup(fi, e.file).contains(e.id) {
            }
        }
    }
    assert forall|f: int, j: int|
        0 <= f < n.file_index.len() && 0 <= j < n.file_index[f].1.len() implies #[trigger] listing_true(
        n,
        f,
        j,
    ) by {
        let file = n.file_index[f].0;
        let id = n.file_index[f].1[j];
        lemma_put(es, e.id, e, id);
        let unchanged = has_key(fi, e.file) && lookup(fi, e.file).contains(e.id);
        let old_entry = if unchanged {
            true
        } else if has_key(fi, e.file) {
            f != position(fi, e.file)
        } else {
            f < fi.len()
        };
        if old_entry {
            assert(n.file_index[f] == fi[f]);
            assert(listing_true(g, f, j));
            if id == e.id {
            }
        } else {
            assert(file == e.file);
            if has_key(fi, e.file) {
                let p = position(fi, e.file);
                if j < fi[p].1.len() {
                    assert(new_list[j] == fi[p].1[j]);
                    assert(listing_true(g, p, j));
                }
            }
        }
    }
}

/// Creating Module entities keeps the file index in agreement with the
/// entities.
pub proof fn lemma_modules_keep_index(g: GraphView, files: Seq<Seq<char>>, upto: int)
    requires
        well_keyed(g),
        index_agrees(g),
    ensures
        well_keyed(with_modules(g, files, upto)),
        index_agrees(with_modules(g, files, upto)),
    decreases upto,
{
    if 0 < upto <= files.len() {
        lemma_modules_keep_index(g, files, upto - 1);
        let prev = with_modules(g, files, upto - 1);
        let file = files[upto - 1];
        if needs_module(prev, file) {
            let ids = lookup(prev.file_index, file);
            lemma_insert_keeps_index(
                prev,
                module_entity(file, last_line(prev.entities, ids, ids.len() as int)),
            );
        }
    }
}

// ---------------------------------------------------------------------------
// Edge integrity
// ---------------------------------------------------------------------------

/// Every edge of the list other than `Contains` joins two entities.
pub open spec fn joined(edges: Seq<EdgeView>, entities: Seq<(Seq<char>, EntityView)>) -> bool {
    forall|i: int|
        0 <= i < edges.len() && (#[trigger] edges[i]).kind != EdgeKind::Contains ==> has_key(
            entities,
            edges[i].source,
        ) && has_key(entities, edges[i].target)
}

proof fn lemma_with_edge_joined(
    edges: Seq<EdgeView>,
    entities: Seq<(Seq<char>, EntityView)>,
    e: EdgeView,
)
    requires
        joined(edges, entities),
        has_key(entities, e.source),
        has_key(entities, e.target),
    ensures
        joined(with_edge(edges, e), entities),
{
    let r = with_edge(edges, e);
    assert forall|i: int|
        0 <= i < r.len() && (#[trigger] r[i]).kind != EdgeKind::Contains implies has_key(
        entities,
        r[i].source,
    ) && has_key(entities, r[i].target) by {
        if i < edges.len() {
            assert(r[i] == edges[i]);
        }
    }
}

proof fn lemma_entry_has_key(entities: Seq<(Seq<char>, EntityView)>, i: int)
    requires
        0 <= i < entities.len(),
    ensures
        has_key(entities, entities[i].0),
{
    lemma_absent(entities, entities[i].0);
}

proof fn lemma_linked_joined(
    edges: Seq<EdgeView>,
    entities: Seq<(Seq<char>, EntityView)>,
    source: Seq<char>,
    names: Seq<Seq<char>>,
    kind: EdgeKind,
    upto: int,
)
    requires
        joined(edges, entities),
        has_key(entities, source),
    ensures
        joined(linked(edges, entities, source, names, kind, upto), entities),
    decreases upto,
{
    if 0 < upto <= names.len() {
        lemma_linked_joined(edges, entities, source, names, kind, upto - 1);
        match unique_named(entities, names[upto - 1]) {
            Some(target) => {
                lemma_entry_has_key(entities, name_first(entities, names[upto - 1], 0));
                lemma_with_edge_joined(
                    linked(edges, entities, source, names, kind, upto - 1),
                    entities,
                    EdgeView { source, target, kind },
                );
            },
            None => {},
        }
    }
}

proof fn lemma_imported_joined(
    edges: Seq<EdgeView>,
    entities: Seq<(Seq<char>, EntityView)>,
    source: Seq<char>,
    imports: Seq<Seq<char>>,
    upto: int,
)
    requires
        joined(edges, entities),
        has_key(entities, source),
    ensures
        joined(imported(edges, entities, source, imports, upto), entities),
    decreases upto,
{
    if 0 < upto <= imports.len() {
        lemma_imported_joined(edges, entities, source, imports, upto - 1);
        let m = module_at(entities, imports[upto - 1], 0);
        if 0 <= m < entities.len() {
            lemma_entry_has_key(entities, m);
            lemma_with_edge_joined(
                imported(edges, entities, source, imports, upto - 1),
                entities,
                EdgeView { source, target: entities[m].0, kind: EdgeKind::Imports },
            );
        }
    }
}

proof fn lemma_resolved_joined(
    edges: Seq<EdgeView>,
    entities: Seq<(Seq<char>, EntityView)>,
    broadcast: bool,
    upto: int,
)
    requires
        joined(edges, entities),
    ensures
        joined(resolved_edges(edges, entities, broadcast, upto), entities),
    decreases upto,
{
    if 0 < upto <= entities.len() {
        lemma_resolved_joined(edges, entities, broadcast, upto - 1);
        let prior = resolved_edges(edges, entities, broadcast, upto - 1);
        let key = entities[upto - 1].0;
        let deps = entities[upto - 1].1.deps;
        lemma_entry_has_key(entities, upto - 1);
        lemma_linked_joined(
            prior,
            entities,
            key,
            deps.invokes,
            EdgeKind::Invokes,
            deps.invokes.len() as int,
        );
        let calls = linked(
            prior,
            entities,
            key,
            deps.invokes,
            EdgeKind::Invokes,
            deps.invokes.len() as int,
        );
        lemma_linked_joined(
            calls,
            entities,
            key,
            deps.inherits,
            EdgeKind::Inherits,
            deps.inherits.len() as int,
        );
        let supers = linked(
            calls,
            entities,
            key,
            deps.inherits,
            EdgeKind::Inherits,
            deps.inherits.len() as int,
        );
        lemma_imported_joined(supers, entities, key, deps.imports, deps.imports.len() as int);
    }
}

/// Resolving dependencies adds only edges between entities: a graph whose
/// edges other than `Contains` join entities stays such a graph.
pub proof fn lemma_resolve_keeps_edges(g: GraphView, broadcast: bool)
    requires
        edges_grounded(g),
    ensures
        edges_grounded(
            GraphView {
                edges: resolved_edges(g.edges, g.entities, broadcast, g.entities.len() as int),
                ..g
            },
        ),
{
    lemma_resolved_joined(g.edges, g.entities, broadcast, g.entities.len() as int);
}

/// Inserting an entity keeps every edge between entities between entities.
pub proof fn lemma_insert_keeps_edges(g: GraphView, e: EntityView)
    requires
        edges_grounded(g),
    ensures
        edges_grounded(with_entity(g, e)),
{
    let n = with_entity(g, e);
    assert forall|i: int|
        0 <= i < n.edges.len() && (#[trigger] n.edges[i]).kind != EdgeKind::Contains implies has_key(
        n.entities,
        n.edges[i].source,
    ) && has_key(n.entities, n.edges[i].target) by {
        assert(n.edges[i] == g.edges[i]);
        lemma_put(g.entities, e.id, e, n.edges[i].source);
        lemma_put(g.entities, e.id, e, n.edges[i].target);
    }
}

// ---------------------------------------------------------------------------
// Deletions
// ---------------------------------------------------------------------------

/// Entry number `q` of the survivors is an entity whose file stays.
pub open spec fn survivor_row(
    entities: Seq<(Seq<char>, EntityView)>,
    paths: Seq<Seq<char>>,
    upto: int,
    q: int,
) -> bool {
    exists|i: int|
        0 <= i < upto && !paths.contains((#[trigger] entities[i]).1.file) && surviving(
            entities,
            paths,
            upto,
        )[q] == entities[i]
}

/// Identifier number `q` of those that leave is the key of an entity whose
/// file is deleted.
pub open spec fn doomed_row(
    entities: Seq<(Seq<char>, EntityView)>,
    paths: Seq<Seq<char>>,
    upto: int,
    q: int,
) -> bool {
    exists|i: int|
        0 <= i < upto && paths.contains((#[trigger] entities[i]).1.file) && doomed_ids(
            entities,
            paths,
            upto,
        )[q] == entities[i].0
}

/// Edge number `q` of those that stay is one of the edges, and stays.
pub open spec fn staying_row(edges: Seq<EdgeView>, gone: Seq<Seq<char>>, upto: int, q: int) -> bool {
    exists|i: int|
        0 <= i < upto && edge_stays(#[trigger] edges[i], gone) && pruned_edges(edges, gone, upto)[q]
            == edges[i]
}

/// What leaves and what stays when files are deleted: an entity stays exactly
/// when its file is none of the deleted ones, and the identifiers that leave
/// are those of the entities that do not stay.
pub proof fn lemma_survivors(
    entities: Seq<(Seq<char>, EntityView)>,
    paths: Seq<Seq<char>>,
    upto: int,
)
    requires
        0 <= upto <= entities.len(),
    ensures
        forall|i: int|
            0 <= i < upto && paths.contains((#[trigger] entities[i]).1.file) ==> doomed_ids(
                entities,
                paths,
                upto,
            ).contains(entities[i].0),
        forall|i: int|
            0 <= i < upto && !paths.contains((#[trigger] entities[i]).1.file) ==> surviving(
                entities,
                paths,
                upto,
            ).contains(entities[i]),
        forall|q: int|
            0 <= q < surviving(entities, paths, upto).len() ==> #[trigger] survivor_row(
                entities,
                paths,
                upto,
                q,
            ),
        forall|q: int|
            0 <= q < doomed_ids(entities, paths, upto).len() ==> #[trigger] doomed_row(
                entities,
                paths,
                upto,
                q,
            ),
        distinct_keys(entities) ==> distinct_keys(surviving(entities, paths, upto)),
    decreases upto,
{
    if upto > 0 {
        lemma_survivors(entities, paths, upto - 1);
        let s0 = surviving(entities, paths, upto - 1);
        let d0 = doomed_ids(entities, paths, upto - 1);
        let s = surviving(entities, paths, upto);
        let d = doomed_ids(entities, paths, upto);
        let last = entities[upto - 1];
        assert forall|i: int|
            0 <= i < upto && paths.contains((#[trigger] entities[i]).1.file) implies d.contains(
            entities[i].0,
        ) by {
            if i < upto - 1 {
                let q = choose|q: int| 0 <= q < d0.len() && d0[q] == entities[i].0;
                assert(d[q] == entities[i].0);
            } else {
                assert(d[d.len() - 1] == entities[i].0);
            }
        }
        assert forall|i: int|
            0 <= i < upto && !paths.contains((#[trigger] entities[i]).1.file) implies s.contains(
            entities[i],
        ) by {
            if i < upto - 1 {
                let q = choose|q: int| 0 <= q < s0.len() && s0[q] == entities[i];
                assert(s[q] == entities[i]);
            } else {
                assert(s[s.len() - 1] == entities[i]);
            }
        }
        assert forall|q: int| 0 <= q < s.len() implies #[trigger] survivor_row(
            entities,
            paths,
            upto,
            q,
        ) by {
            if q < s0.len() {
                assert(survivor_row(entities, paths, upto - 1, q));
                let i = choose|i: int|
                    0 <= i < upto - 1 && !paths.contains((#[trigger] entities[i]).1.file) && s0[q]
                        == entities[i];
                assert(s[q] == entities[i]);
            } else {
                assert(s[q] == entities[upto - 1]);
            }
        }
        assert forall|q: int| 0 <= q < d.len() implies #[trigger] doomed_row(
            entities,
            paths,
            upto,
            q,
        ) by {
            if q < d0.len() {
                assert(doomed_row(entities, paths, upto - 1, q));
                let i = choose|i: int|
                    0 <= i < upto - 1 && paths.contains((#[trigger] entities[i]).1.file) && d0[q]
                        == entities[i].0;
                assert(d[q] == entities[i].0);
            } else {
                assert(d[q] == entities[upto - 1].0);
            }
        }
        if distinct_keys(entities) {
            assert forall|a: int, b: int| 0 <= a < b < s.len() implies s[a].0 != s[b].0 by {
                if b < s0.len() {
                    assert(s[a] == s0[a] && s[b] == s0[b]);
                } else {
                    assert(s[b] == last);
                    assert(s[a] == s0[a]);
                    assert(survivor_row(entities, paths, upto - 1, a));
                    let i = choose|i: int|
                        0 <= i < upto - 1 && !paths.contains((#[trigger] entities[i]).1.file)
                            && s0[a] == entities[i];
                    assert(entities[i].0 != entities[upto - 1].0);
                }
            }
        }
    }
}

/// In a graph that holds no key twice, an entity that stays is found under
/// its key, unchanged, and an identifier that leaves names no entity any
/// more.
pub proof fn lemma_survivor_lookup(
    entities: Seq<(Seq<char>, EntityView)>,
    paths: Seq<Seq<char>>,
    id: Seq<char>,
)
    requires
        distinct_keys(entities),
        has_key(entities, id),
    ensures
        ({
            let stay = surviving(entities, paths, entities.len() as int);
            let gone = doomed_ids(entities, paths, entities.len() as int);
            if paths.contains(lookup(entities, id).file) {
                gone.contains(id) && !has_key(stay, id)
            } else {
                !gone.contains(id) && has_key(stay, id) && lookup(stay, id) == lookup(entities, id)
            }
        }),
{
    let n = entities.len() as int;
    let stay = surviving(entities, paths, n);
    let gone = doomed_ids(entities, paths, n);
    lemma_survivors(entities, paths, n);
    lemma_position(entities, id);
    let p = position(entities, id);
    lemma_position(stay, id);
    if paths.contains(entities[p].1.file) {
        if has_key(stay, id) {
            let q = position(stay, id);
            assert(survivor_row(entities, paths, n, q));
            let i = choose|i: int|
                0 <= i < n && !paths.contains((#[trigger] entities[i]).1.file) && stay[q]
                    == entities[i];
            if i < p {
                assert(entities[i].0 != entities[p].0);
            } else if p < i {
                assert(entities[p].0 != entities[i].0);
            }
        }
    } else {
        if gone.contains(id) {
            let q = choose|q: int| 0 <= q < gone.len() && gone[q] == id;
            assert(doomed_row(entities, paths, n, q));
            let i = choose|i: int|
                0 <= i < n && paths.contains((#[trigger] entities[i]).1.file) && gone[q]
                    == entities[i].0;
            if i < p {
                assert(entities[i].0 != entities[p].0);
            } else if p < i {
                assert(entities[p].0 != entities[i].0);
            }
        }
        assert(stay.contains(entities[p]));
        let q = choose|q: int| 0 <= q < stay.len() && stay[q] == entities[p];
        lemma_position_distinct(stay, q);
    }
}

proof fn lemma_pruned_edges(edges: Seq<EdgeView>, gone: Seq<Seq<char>>, upto: int)
    requires
        0 <= upto <= edges.len(),
    ensures
        forall|q: int|
            0 <= q < pruned_edges(edges, gone, upto).len() ==> #[trigger] staying_row(
                edges,
                gone,
                upto,
                q,
            ),
    decreases upto,
{
    if upto > 0 {
        lemma_pruned_edges(edges, gone, upto - 1);
        let r0 = pruned_edges(edges, gone, upto - 1);
        let r = pruned_edges(edges, gone, upto);
        assert forall|q: int| 0 <= q < r.len() implies #[trigger] staying_row(
            edges,
            gone,
            upto,
            q,
        ) by {
            if q < r0.len() {
                assert(staying_row(edges, gone, upto - 1, q));
                let i = choose|i: int|
                    0 <= i < upto - 1 && edge_stays(#[trigger] edges[i], gone) && r0[q]
                        == edges[i];
                assert(r[q] == edges[i]);
            } else {
                assert(r[q] == edges[upto - 1]);
            }
        }
    }
}

/// Deleting files keeps every edge other than `Contains` between entities.
pub proof fn lemma_deletions_keep_edges(g: GraphView, paths: Seq<Seq<char>>)
    requires
        distinct_keys(g.entities),
        edges_grounded(g),
    ensures
        edges_grounded(after_deletions(g, paths)),
{
    let n = after_deletions(g, paths);
    let gone = doomed_ids(g.entities, paths, g.entities.len() as int);
    lemma_pruned_edges(g.edges, gone, g.edges.len() as int);
    assert forall|q: int|
        0 <= q < n.edges.len() && (#[trigger] n.edges[q]).kind != EdgeKind::Contains implies has_key(
        n.entities,
        n.edges[q].source,
    ) && has_key(n.entities, n.edges[q].target) by {
        assert(staying_row(g.edges, gone, g.edges.len() as int, q));
        let i = choose|i: int|
            0 <= i < g.edges.len() && edge_stays(#[trigger] g.edges[i], gone) && n.edges[q]
                == g.edges[i];
        lemma_survivor_lookup(g.entities, paths, g.edges[i].source);
        lemma_survivor_lookup(g.entities, paths, g.edges[i].target);
    }
}

/// Identifier number `q` of those that remain is one of the list, and does
/// not leave.
pub open spec fn remaining_row(ids: Seq<Seq<char>>, gone: Seq<Seq<char>>, upto: int, q: int) -> bool {
    exists|j: int|
        0 <= j < upto && !gone.contains(#[trigger] ids[j]) && remaining(ids, gone, upto)[q]
            == ids[j]
}

/// What remains of a list: the identifiers that do not leave, and no others.
pub proof fn lemma_remaining(ids: Seq<Seq<char>>, gone: Seq<Seq<char>>, upto: int)
    requires
        0 <= upto <= ids.len(),
    ensures
        forall|j: int|
            0 <= j < upto && !gone.contains(#[trigger] ids[j]) ==> remaining(
                ids,
                gone,
                upto,
            ).contains(ids[j]),
        forall|q: int|
            0 <= q < remaining(ids, gone, upto).len() ==> #[trigger] remaining_row(
                ids,
                gone,
                upto,
                q,
            ),
    decreases upto,
{
    if upto > 0 {
        lemma_remaining(ids, gone, upto - 1);
        let r0 = remaining(ids, gone, upto - 1);
        let r = remaining(ids, gone, upto);
        assert forall|j: int| 0 <= j < upto && !gone.contains(#[trigger] ids[j]) implies r.contains(
            ids[j],
        ) by {
            if j < upto - 1 {
                let q = choose|q: int| 0 <= q < r0.len() && r0[q] == ids[j];
                assert(r[q] == ids[j]);
            } else {
                assert(r[r.len() - 1] == ids[j]);
            }
        }
        assert forall|q: int| 0 <= q < r.len() implies #[trigger] remaining_row(ids, gone, upto, q) by {
            if q < r0.len() {
                assert(remaining_row(ids, gone, upto - 1, q));
                let j = choose|j: int|
                    0 <= j < upto - 1 && !gone.contains(#[trigger] ids[j]) && r0[q] == ids[j];
                assert(r[q] == ids[j]);
            } else {
                assert(r[q] == ids[upto - 1]);
            }
        }
    }
}

/// Entry number `q` of the pruned index is what remains of one of the files.
pub open spec fn pruned_row(
    index: Seq<(Seq<char>, Seq<Seq<char>>)>,
    gone: Seq<Seq<char>>,
    upto: int,
    q: int,
) -> bool {
    exists|f: int|
        0 <= f < upto && pruned_index(index, gone, upto)[q] == (
            (#[trigger] index[f]).0,
            remaining(index[f].1, gone, index[f].1.len() as int),
        ) && remaining(index[f].1, gone, index[f].1.len() as int).len() > 0
}

/// What the pruned index holds: for every file of which something remains,
/// what remains of it, and nothing else.
pub proof fn lemma_pruned_index(
    index: Seq<(Seq<char>, Seq<Seq<char>>)>,
    gone: Seq<Seq<char>>,
    upto: int,
)
    requires
        0 <= upto <= index.len(),
    ensures
        forall|f: int|
            0 <= f < upto && remaining(
                (#[trigger] index[f]).1,
                gone,
                index[f].1.len() as int,
            ).len() > 0 ==> pruned_index(index, gone, upto).contains(
                (index[f].0, remaining(index[f].1, gone, index[f].1.len() as int)),
            ),
        forall|q: int|
            0 <= q < pruned_index(index, gone, upto).len() ==> #[trigger] pruned_row(
                index,
                gone,
                upto,
                q,
            ),
        distinct_keys(index) ==> distinct_keys(pruned_index(index, gone, upto)),
    decreases upto,
{
    if upto > 0 {
        lemma_pruned_index(index, gone, upto - 1);
        let r0 = pruned_index(index, gone, upto - 1);
        let r = pruned_index(index, gone, upto);
        assert forall|f: int|
            0 <= f < upto && remaining(
                (#[trigger] index[f]).1,
                gone,
                index[f].1.len() as int,
            ).len() > 0 implies r.contains(
            (index[f].0, remaining(index[f].1, gone, index[f].1.len() as int)),
        ) by {
            let row = (index[f].0, remaining(index[f].1, gone, index[f].1.len() as int));
            if f < upto - 1 {
                let q = choose|q: int| 0 <= q < r0.len() && r0[q] == row;
                assert(r[q] == row);
            } else {
                assert(r[r.len() - 1] == row);
            }
        }
        assert forall|q: int| 0 <= q < r.len() implies #[trigger] pruned_row(index, gone, upto, q) by {
            if q < r0.len() {
                assert(pruned_row(index, gone, upto - 1, q));
                let f = choose|f: int|
                    0 <= f < upto - 1 && r0[q] == (
                        (#[trigger] index[f]).0,
                        remaining(index[f].1, gone, index[f].1.len() as int),
                    ) && remaining(index[f].1, gone, index[f].1.len() as int).len() > 0;
                assert(r[q] == r0[q]);
            } else {
                assert(r[q] == (
                    index[upto - 1].0,
                    remaining(index[upto - 1].1, gone, index[upto - 1].1.len() as int),
                ));
            }
        }
        if distinct_keys(index) {
            assert forall|a: int, b: int| 0 <= a < b < r.len() implies r[a].0 != r[b].0 by {
                if b < r0.len() {
                    assert(r[a] == r0[a] && r[b] == r0[b]);
                } else {
                    assert(r[a] == r0[a]);
                    assert(pruned_row(index, gone, upto - 1, a));
                    let f = choose|f: int|
                        0 <= f < upto - 1 && r0[a] == (
                            (#[trigger] index[f]).0,
                            remaining(index[f].1, gone, index[f].1.len() as int),
                        ) && remaining(index[f].1, gone, index[f].1.len() as int).len() > 0;
                    assert(index[f].0 != index[upto - 1].0);
                }
            }
        }
    }
}

/// Deleting files keeps the file index in agreement with the entities.
pub proof fn lemma_deletions_keep_index(g: GraphView, paths: Seq<Seq<char>>)
    requires
        well_keyed(g),
        index_agrees(g),
    ensures
        well_keyed(after_deletions(g, paths)),
        index_agrees(after_deletions(g, paths)),
{
    let n = after_deletions(g, paths);
    let es = g.entities;
    let fi = g.file_index;
    let gone = doomed_ids(es, paths, es.len() as int);
    lemma_survivors(es, paths, es.len() as int);
    lemma_pruned_index(fi, gone, fi.len() as int);
    assert forall|q: int| 0 <= q < n.entities.len() implies (#[trigger] n.entities[q]).1.id
        == n.entities[q].0 by {
        assert(survivor_row(es, paths, es.len() as int, q));
    }
    assert forall|q: int| 0 <= q < n.entities.len() implies #[trigger] entity_listed(n, q) by {
        assert(survivor_row(es, paths, es.len() as int, q));
        let i = choose|i: int|
            0 <= i < es.len() && !paths.contains((#[trigger] es[i]).1.file) && n.entities[q]
                == es[i];
        let key = es[i].0;
        let file = es[i].1.file;
        assert(entity_listed(g, i));
        lemma_position(fi, file);
        let f = position(fi, file);
        let list = fi[f].1;
        let j = choose|j: int| 0 <= j < list.len() && list[j] == key;
        lemma_position_distinct(es, i);
        lemma_survivor_lookup(es, paths, key);
        lemma_remaining(list, gone, list.len() as int);
        let rem = remaining(list, gone, list.len() as int);
        assert(rem.contains(list[j]));
        let w = choose|w: int| 0 <= w < rem.len() && rem[w] == key;
        assert(n.file_index.contains((file, rem)));
        let r = choose|r: int| 0 <= r < n.file_index.len() && n.file_index[r] == (file, rem);
        lemma_position_distinct(n.file_index, r);
    }
    assert forall|r: int, w: int|
        0 <= r < n.file_index.len() && 0 <= w < n.file_index[r].1.len() implies #[trigger] listing_true(
        n,
        r,
        w,
    ) by {
        assert(pruned_row(fi, gone, fi.len() as int, r));
        let f = choose|f: int|
            0 <= f < fi.len() && n.file_index[r] == (
                (#[trigger] fi[f]).0,
                remaining(fi[f].1, gone, fi[f].1.len() as int),
            ) && remaining(fi[f].1, gone, fi[f].1.len() as int).len() > 0;
        let list = fi[f].1;
        lemma_remaining(list, gone, list.len() as int);
        assert(remaining_row(list, gone, list.len() as int, w));
        let j = choose|j: int|
            0 <= j < list.len() && !gone.contains(#[trigger] list[j]) && remaining(
                list,
                gone,
                list.len() as int,
            )[w] == list[j];
        assert(listing_true(g, f, j));
        lemma_survivor_lookup(es, paths, list[j]);
    }
}

} // verus!
