//! Incremental evolution: removing the entities of deleted files and moving
//! the entities of renamed files.

use crate::graph::{edge_views, entity_entries, index_entries, lemma_entity_entries, lemma_index_entries, lemma_node_children, node_entries, DependencyEdge, EdgeKind, EdgeView, Entity, EntityView, GraphView, HierarchyNode, NodeView, RPGraph};
use crate::strmap::{has_key, lemma_position, lookup, put, without, StrMap};
use crate::text::{chars_of, concat_chars, contains_text, matches_at, slice_chars, starts_with, str_eq, string_from_chars, texts};
use vstd::prelude::*;

verus! {

// ---------------------------------------------------------------------------
// Deleting files
// ---------------------------------------------------------------------------

/// The keys of the first `upto` entities whose file is one of `paths`.
pub open spec fn doomed_ids(
    entities: Seq<(Seq<char>, EntityView)>,
    paths: Seq<Seq<char>>,
    upto: int,
) -> Seq<Seq<char>>
    decreases upto,
{
    if upto <= 0 || upto > entities.len() {
        Seq::empty()
    } else if paths.contains(entities[upto - 1].1.file) {
        doomed_ids(entities, paths, upto - 1).push(entities[upto - 1].0)
    } else {
        doomed_ids(entities, paths, upto - 1)
    }
}

/// The first `upto` entities without those whose file is one of `paths`.
pub open spec fn surviving(
    entities: Seq<(Seq<char>, EntityView)>,
    paths: Seq<Seq<char>>,
    upto: int,
) -> Seq<(Seq<char>, EntityView)>
    decreases upto,
{
    if upto <= 0 || upto > entities.len() {
        Seq::empty()
    } else if paths.contains(entities[upto - 1].1.file) {
        surviving(entities, paths, upto - 1)
    } else {
        surviving(entities, paths, upto - 1).push(entities[upto - 1])
    }
}

/// The first `upto` identifiers without those that are in `gone`.
pub open spec fn remaining(ids: Seq<Seq<char>>, gone: Seq<Seq<char>>, upto: int) -> Seq<Seq<char>>
    decreases upto,
{
    if upto <= 0 || upto > ids.len() {
        Seq::empty()
    } else if gone.contains(ids[upto - 1]) {
        remaining(ids, gone, upto - 1)
    } else {
        remaining(ids, gone, upto - 1).push(ids[upto - 1])
    }
}

/// The first `upto` entries of the file index, each list without the
/// identifiers in `gone`; entries whose list is empty are dropped.
pub open spec fn pruned_index(
    index: Seq<(Seq<char>, Seq<Seq<char>>)>,
    gone: Seq<Seq<char>>,
    upto: int,
) -> Seq<(Seq<char>, Seq<Seq<char>>)>
    decreases upto,
{
    if upto <= 0 || upto > index.len() {
        Seq::empty()
    } else {
        let rest = pruned_index(index, gone, upto - 1);
        let ids = remaining(index[upto - 1].1, gone, index[upto - 1].1.len() as int);
        if ids.len() == 0 {
            rest
        } else {
            rest.push((index[upto - 1].0, ids))
        }
    }
}

/// Whether an edge stays when the identifiers in `gone` leave: a `Contains`
/// edge always does, any other edge only if neither endpoint leaves.
pub open spec fn edge_stays(e: EdgeView, gone: Seq<Seq<char>>) -> bool {
    e.kind == EdgeKind::Contains || (!gone.contains(e.source) && !gone.contains(e.target))
}

/// The first `upto` edges that stay.
pub open spec fn pruned_edges(edges: Seq<EdgeView>, gone: Seq<Seq<char>>, upto: int) -> Seq<
    EdgeView,
>
    decreases upto,
{
    if upto <= 0 || upto > edges.len() {
        Seq::empty()
    } else if edge_stays(edges[upto - 1], gone) {
        pruned_edges(edges, gone, upto - 1).push(edges[upto - 1])
    } else {
        pruned_edges(edges, gone, upto - 1)
    }
}

/// A hierarchy node whose subtree no longer lists the identifiers in `gone`.
pub open spec fn pruned_node(n: NodeView, gone: Seq<Seq<char>>) -> NodeView
    decreases n,
{
    NodeView {
        entities: remaining(n.entities, gone, n.entities.len() as int),
        children: Seq::new(
            n.children.len(),
            |i: int|
                if 0 <= i < n.children.len() {
                    pruned_node(n.children[i], gone)
                } else {
                    n
                },
        ),
        ..n
    }
}

/// The graph without the entities of the files `paths`: the entities are
/// gone, the file index no longer lists them, edges other than `Contains`
/// that touched them are gone, and no hierarchy node lists them.
pub open spec fn after_deletions(g: GraphView, paths: Seq<Seq<char>>) -> GraphView {
    let gone = doomed_ids(g.entities, paths, g.entities.len() as int);
    GraphView {
        entities: surviving(g.entities, paths, g.entities.len() as int),
        file_index: pruned_index(g.file_index, gone, g.file_index.len() as int),
        edges: pruned_edges(g.edges, gone, g.edges.len() as int),
        hierarchy: Seq::new(
            g.hierarchy.len(),
            |i: int| (g.hierarchy[i].0, pruned_node(g.hierarchy[i].1, gone)),
        ),
        ..g
    }
}

fn retain_ids(ids: &Vec<String>, gone: &Vec<String>) -> (r: Vec<String>)
    ensures
        texts(r@) == remaining(texts(ids@), texts(gone@), ids@.len() as int),
{
    let mut out: Vec<String> = Vec::new();
    let mut i: usize = 0;
    assert(texts(out@) =~= remaining(texts(ids@), texts(gone@), 0));
    while i < ids.len()
        invariant
            i <= ids.len(),
            texts(out@) == remaining(texts(ids@), texts(gone@), i as int),
        decreases ids.len() - i,
    {
        let ghost before = texts(out@);
        if !contains_text(gone, ids[i].as_str()) {
            out.push(ids[i].clone());
            assert(texts(out@) =~= before.push(ids@[i as int]@));
        }
        i += 1;
    }
    out
}

fn prune_node(node: &mut HierarchyNode, gone: &Vec<String>)
    ensures
        final(node)@ == pruned_node(old(node)@, texts(gone@)),
    decreases *old(node),
{
    let kept = retain_ids(&node.entities, gone);
    node.entities = kept;
    let mut i: usize = 0;
    while i < node.children.len()
        invariant
            i <= node.children.len(),
            node.id == old(node).id,
            node.name == old(node).name,
            node.aggregated_features == old(node).aggregated_features,
            texts(node.entities@) == remaining(
                texts(old(node).entities@),
                texts(gone@),
                old(node).entities@.len() as int,
            ),
            node.children@.len() == old(node).children@.len(),
            forall|j: int|
                0 <= j < i ==> (#[trigger] node.children@[j])@ == pruned_node(
                    old(node).children@[j]@,
                    texts(gone@),
                ),
            forall|j: int| i <= j < node.children@.len() ==> node.children@[j] == old(
                node,
            ).children@[j],
        decreases node.children.len() - i,
    {
        prune_node(&mut node.children[i], gone);
        i += 1;
    }
    proof {
        lemma_node_children(*node);
        lemma_node_children(*old(node));
        assert(node@.children =~= pruned_node(old(node)@, texts(gone@)).children);
    }
}

/// Removes the entities of the files `paths` from the graph, together with
/// every reference to them but `Contains` edges, and returns how many
/// entities were removed.
pub fn apply_deletions(graph: &mut RPGraph, paths: &Vec<String>) -> (removed: usize)
    ensures
        final(graph)@ == after_deletions(old(graph)@, texts(paths@)),
        removed == doomed_ids(
            old(graph)@.entities,
            texts(paths@),
            old(graph)@.entities.len() as int,
        ).len(),
{
    let ghost g0 = graph@;
    let ghost ps = texts(paths@);

    // entities
    let mut kept: StrMap<Entity> = StrMap::new();
    let mut gone: Vec<String> = Vec::new();
    let mut i: usize = 0;
    assert(entity_entries(kept@) =~= surviving(g0.entities, ps, 0));
    assert(texts(gone@) =~= doomed_ids(g0.entities, ps, 0));
    while i < graph.entities.len()
        invariant
            i <= graph.entities@.len(),
            *graph == *old(graph),
            g0 == graph@,
            ps == texts(paths@),
            entity_entries(kept@) == surviving(g0.entities, ps, i as int),
            texts(gone@) == doomed_ids(g0.entities, ps, i as int),
            gone@.len() <= i,
        decreases graph.entities@.len() - i,
    {
        let key = graph.entities.key_at(i);
        let entity = graph.entities.value_at(i);
        let ghost kept0 = entity_entries(kept@);
        let ghost gone0 = texts(gone@);
        if contains_text(paths, entity.file.as_str()) {
            gone.push(key.clone());
            assert(texts(gone@) =~= gone0.push(key@));
        } else {
            kept.push_entry(key.clone(), entity.clone());
            assert(entity_entries(kept@) =~= kept0.push(g0.entities[i as int]));
        }
        i += 1;
    }
    graph.entities = kept;
    let removed = gone.len();
    let ghost gv = texts(gone@);

    // file index
    let mut index: StrMap<Vec<String>> = StrMap::new();
    let mut f: usize = 0;
    assert(index_entries(index@) =~= pruned_index(g0.file_index, gv, 0));
    while f < graph.file_index.len()
        invariant
            f <= graph.file_index@.len(),
            gv == texts(gone@),
            index_entries(graph.file_index@) == g0.file_index,
            index_entries(index@) == pruned_index(g0.file_index, gv, f as int),
            entity_entries(graph.entities@) == after_deletions(g0, ps).entities,
            graph.version == old(graph).version,
            graph.created_at == old(graph).created_at,
            graph.updated_at == old(graph).updated_at,
            graph.metadata == old(graph).metadata,
            graph.edges == old(graph).edges,
            graph.hierarchy == old(graph).hierarchy,
        decreases graph.file_index@.len() - f,
    {
        let ids = retain_ids(graph.file_index.value_at(f), &gone);
        let ghost before = index_entries(index@);
        if ids.len() > 0 {
            index.push_entry(graph.file_index.key_at(f).clone(), ids);
            assert(index_entries(index@) =~= before.push((g0.file_index[f as int].0, texts(ids@))));
        }
        f += 1;
    }
    graph.file_index = index;

    // edges
    let mut edges: Vec<DependencyEdge> = Vec::new();
    let mut e: usize = 0;
    assert(edge_views(edges@) =~= pruned_edges(g0.edges, gv, 0));
    while e < graph.edges.len()
        invariant
            e <= graph.edges@.len(),
            gv == texts(gone@),
            edge_views(graph.edges@) == g0.edges,
            edge_views(edges@) == pruned_edges(g0.edges, gv, e as int),
            entity_entries(graph.entities@) == after_deletions(g0, ps).entities,
            index_entries(graph.file_index@) == after_deletions(g0, ps).file_index,
            graph.version == old(graph).version,
            graph.created_at == old(graph).created_at,
            graph.updated_at == old(graph).updated_at,
            graph.metadata == old(graph).metadata,
            graph.hierarchy == old(graph).hierarchy,
        decreases graph.edges@.len() - e,
    {
        let edge = &graph.edges[e];
        let ghost before = edge_views(edges@);
        let stays = match edge.kind {
            EdgeKind::Contains => true,
            _ => !contains_text(&gone, edge.source.as_str()) && !contains_text(
                &gone,
                edge.target.as_str(),
            ),
        };
        if stays {
            edges.push(edge.clone());
            assert(edge_views(edges@) =~= before.push(g0.edges[e as int]));
        }
        e += 1;
    }
    graph.edges = edges;

    // hierarchy
    let mut h: usize = 0;
    while h < graph.hierarchy.len()
        invariant
            h <= graph.hierarchy@.len(),
            gv == texts(gone@),
            graph.hierarchy@.len() == old(graph).hierarchy@.len(),
            forall|j: int|
                0 <= j < h ==> (#[trigger] graph.hierarchy@[j]).0 == old(graph).hierarchy@[j].0
                    && graph.hierarchy@[j].1@ == pruned_node(old(graph).hierarchy@[j].1@, gv),
            forall|j: int|
                h <= j < graph.hierarchy@.len() ==> graph.hierarchy@[j] == old(
                    graph,
                ).hierarchy@[j],
            entity_entries(graph.entities@) == after_deletions(g0, ps).entities,
            index_entries(graph.file_index@) == after_deletions(g0, ps).file_index,
            edge_views(graph.edges@) == after_deletions(g0, ps).edges,
            graph.version == old(graph).version,
            graph.created_at == old(graph).created_at,
            graph.updated_at == old(graph).updated_at,
            graph.metadata == old(graph).metadata,
        decreases graph.hierarchy@.len() - h,
    {
        let node = graph.hierarchy.value_at_mut(h);
        prune_node(node, &gone);
        h += 1;
    }
    assert(node_entries(graph.hierarchy@) =~= after_deletions(g0, ps).hierarchy);
    removed
}

// ---------------------------------------------------------------------------
// Renaming files
// ---------------------------------------------------------------------------

/// The identifier of an entity after its file moved from `from` to `to`: the
/// file prefix is swapped. An identifier that does not begin with `from` stays.
pub open spec fn moved_id(id: Seq<char>, from: Seq<char>, to: Seq<char>) -> Seq<char> {
    if starts_with(id, from) {
        to + id.subrange(from.len() as int, id.len() as int)
    } else {
        id
    }
}

/// The keys of the first `upto` entities whose file is `file`.
pub open spec fn members(
    entities: Seq<(Seq<char>, EntityView)>,
    file: Seq<char>,
    upto: int,
) -> Seq<Seq<char>>
    decreases upto,
{
    if upto <= 0 || upto > entities.len() {
        Seq::empty()
    } else if entities[upto - 1].1.file == file {
        members(entities, file, upto - 1).push(entities[upto - 1].0)
    } else {
        members(entities, file, upto - 1)
    }
}

/// The entity map with the entity `id` moved: it leaves its old key and is
/// inserted under its new identifier, with the new identifier and file.
pub open spec fn rekeyed_one(
    entities: Seq<(Seq<char>, EntityView)>,
    id: Seq<char>,
    from: Seq<char>,
    to: Seq<char>,
) -> Seq<(Seq<char>, EntityView)> {
    if has_key(entities, id) {
        let e = lookup(entities, id);
        let nid = moved_id(id, from, to);
        put(without(entities, id), nid, EntityView { id: nid, file: to, ..e })
    } else {
        entities
    }
}

/// The entity map with the first `upto` of `ids` moved, in order.
pub open spec fn rekeyed_all(
    entities: Seq<(Seq<char>, EntityView)>,
    ids: Seq<Seq<char>>,
    from: Seq<char>,
    to: Seq<char>,
    upto: int,
) -> Seq<(Seq<char>, EntityView)>
    decreases upto,
{
    if upto <= 0 || upto > ids.len() {
        entities
    } else {
        rekeyed_one(rekeyed_all(entities, ids, from, to, upto - 1), ids[upto - 1], from, to)
    }
}

/// What a reference becomes: the moved identifier if it named a moved
/// entity, itself otherwise.
pub open spec fn renamed_ref(
    ids: Seq<Seq<char>>,
    id: Seq<char>,
    from: Seq<char>,
    to: Seq<char>,
) -> Seq<char> {
    if ids.contains(id) {
        moved_id(id, from, to)
    } else {
        id
    }
}

/// A list of references, each renamed.
pub open spec fn renamed_list(
    list: Seq<Seq<char>>,
    ids: Seq<Seq<char>>,
    from: Seq<char>,
    to: Seq<char>,
) -> Seq<Seq<char>> {
    Seq::new(list.len(), |i: int| renamed_ref(ids, list[i], from, to))
}

/// An edge with both endpoints renamed.
pub open spec fn renamed_edge(
    e: EdgeView,
    ids: Seq<Seq<char>>,
    from: Seq<char>,
    to: Seq<char>,
) -> EdgeView {
    EdgeView {
        source: renamed_ref(ids, e.source, from, to),
        target: renamed_ref(ids, e.target, from, to),
        kind: e.kind,
    }
}

/// A hierarchy node with the entity lists of its whole subtree renamed.
pub open spec fn renamed_node(
    n: NodeView,
    ids: Seq<Seq<char>>,
    from: Seq<char>,
    to: Seq<char>,
) -> NodeView
    decreases n,
{
    NodeView {
        entities: renamed_list(n.entities, ids, from, to),
        children: Seq::new(
            n.children.len(),
            |i: int|
                if 0 <= i < n.children.len() {
                    renamed_node(n.children[i], ids, from, to)
                } else {
                    n
                },
        ),
        ..n
    }
}

/// The file index with the entry of `from` moved to `to`, its list renamed.
pub open spec fn moved_index(
    index: Seq<(Seq<char>, Seq<Seq<char>>)>,
    ids: Seq<Seq<char>>,
    from: Seq<char>,
    to: Seq<char>,
) -> Seq<(Seq<char>, Seq<Seq<char>>)> {
    if has_key(index, from) {
        put(without(index, from), to, renamed_list(lookup(index, from), ids, from, to))
    } else {
        index
    }
}

/// The graph after the file `from` was renamed to `to`: its entities carry
/// the new file and the new identifiers, and every reference to them in the
/// file index, the edges and the hierarchy follows.
pub open spec fn after_rename(g: GraphView, from: Seq<char>, to: Seq<char>) -> GraphView {
    let ids = members(g.entities, from, g.entities.len() as int);
    GraphView {
        entities: rekeyed_all(g.entities, ids, from, to, ids.len() as int),
        file_index: moved_index(g.file_index, ids, from, to),
        edges: Seq::new(g.edges.len(), |i: int| renamed_edge(g.edges[i], ids, from, to)),
        hierarchy: Seq::new(
            g.hierarchy.len(),
            |i: int| (g.hierarchy[i].0, renamed_node(g.hierarchy[i].1, ids, from, to)),
        ),
        ..g
    }
}

/// The graph after the first `upto` renames, applied in order.
pub open spec fn after_renames(
    g: GraphView,
    renames: Seq<(Seq<char>, Seq<char>)>,
    upto: int,
) -> GraphView
    decreases upto,
{
    if upto <= 0 || upto > renames.len() {
        g
    } else {
        after_rename(after_renames(g, renames, upto - 1), renames[upto - 1].0, renames[upto - 1].1)
    }
}

/// How many entities the rename number `k` moves.
pub open spec fn moved_by(g: GraphView, renames: Seq<(Seq<char>, Seq<char>)>, k: int) -> int {
    let before = after_renames(g, renames, k);
    members(before.entities, renames[k].0, before.entities.len() as int).len() as int
}

/// How many entities the first `upto` renames move in all.
pub open spec fn entities_moved(
    g: GraphView,
    renames: Seq<(Seq<char>, Seq<char>)>,
    upto: int,
) -> int
    decreases upto,
{
    if upto <= 0 || upto > renames.len() {
        0
    } else {
        entities_moved(g, renames, upto - 1) + moved_by(g, renames, upto - 1)
    }
}

/// How many of the first `upto` renames move at least one entity.
pub open spec fn files_moved(g: GraphView, renames: Seq<(Seq<char>, Seq<char>)>, upto: int) -> int
    decreases upto,
{
    if upto <= 0 || upto > renames.len() {
        0
    } else if moved_by(g, renames, upto - 1) > 0 {
        files_moved(g, renames, upto - 1) + 1
    } else {
        files_moved(g, renames, upto - 1)
    }
}

/// A count held in a `usize`: the count itself, or the largest `usize` where
/// it does not fit.
pub open spec fn capped(n: int) -> int {
    if n > usize::MAX {
        usize::MAX as int
    } else {
        n
    }
}

/// The views of a list of renames.
pub open spec fn rename_views(v: Seq<(String, String)>) -> Seq<(Seq<char>, Seq<char>)> {
    Seq::new(v.len(), |i: int| (v[i].0@, v[i].1@))
}

/// The identifier of an entity after its file moved from `from` to `to`.
pub fn move_id(id: &str, from: &str, to: &str) -> (r: String)
    ensures
        r@ == moved_id(id@, from@, to@),
{
    let idv = chars_of(id);
    let fromv = chars_of(from);
    if matches_at(&idv, &fromv, 0) {
        let tail = slice_chars(&idv, fromv.len(), idv.len());
        string_from_chars(&concat_chars(&chars_of(to), &tail))
    } else {
        id.to_owned()
    }
}

fn rename_ref(s: &mut String, ids: &Vec<String>, from: &str, to: &str)
    ensures
        final(s)@ == renamed_ref(texts(ids@), old(s)@, from@, to@),
{
    if contains_text(ids, s.as_str()) {
        let moved = move_id(s.as_str(), from, to);
        *s = moved;
    }
}

fn rename_list(list: &mut Vec<String>, ids: &Vec<String>, from: &str, to: &str)
    ensures
        texts(final(list)@) == renamed_list(texts(old(list)@), texts(ids@), from@, to@),
{
    let mut i: usize = 0;
    while i < list.len()
        invariant
            i <= list.len(),
            list@.len() == old(list)@.len(),
            forall|j: int|
                0 <= j < i ==> (#[trigger] list@[j])@ == renamed_ref(
                    texts(ids@),
                    old(list)@[j]@,
                    from@,
                    to@,
                ),
            forall|j: int| i <= j < list@.len() ==> list@[j] == old(list)@[j],
        decreases list.len() - i,
    {
        rename_ref(&mut list[i], ids, from, to);
        i += 1;
    }
    assert(texts(list@) =~= renamed_list(texts(old(list)@), texts(ids@), from@, to@));
}

fn rename_node(node: &mut HierarchyNode, ids: &Vec<String>, from: &str, to: &str)
    ensures
        final(node)@ == renamed_node(old(node)@, texts(ids@), from@, to@),
    decreases *old(node),
{
    rename_list(&mut node.entities, ids, from, to);
    let mut i: usize = 0;
    while i < node.children.len()
        invariant
            i <= node.children.len(),
            node.id == old(node).id,
            node.name == old(node).name,
            node.aggregated_features == old(node).aggregated_features,
            texts(node.entities@) == renamed_list(
                texts(old(node).entities@),
                texts(ids@),
                from@,
                to@,
            ),
            node.children@.len() == old(node).children@.len(),
            forall|j: int|
                0 <= j < i ==> (#[trigger] node.children@[j])@ == renamed_node(
                    old(node).children@[j]@,
                    texts(ids@),
                    from@,
                    to@,
                ),
            forall|j: int| i <= j < node.children@.len() ==> node.children@[j] == old(
                node,
            ).children@[j],
        decreases node.children.len() - i,
    {
        rename_node(&mut node.children[i], ids, from, to);
        i += 1;
    }
    proof {
        lemma_node_children(*node);
        lemma_node_children(*old(node));
        assert(node@.children =~= renamed_node(old(node)@, texts(ids@), from@, to@).children);
    }
}

/// Moves the entities of the file `from` to the file `to` and returns how
/// many there were.
pub fn rename_file(graph: &mut RPGraph, from: &str, to: &str) -> (moved: usize)
    ensures
        final(graph)@ == after_rename(old(graph)@, from@, to@),
        moved == members(old(graph)@.entities, from@, old(graph)@.entities.len() as int).len(),
{
    let ghost g0 = graph@;

    // the entities of the file
    let mut ids: Vec<String> = Vec::new();
    let mut i: usize = 0;
    assert(texts(ids@) =~= members(g0.entities, from@, 0));
    while i < graph.entities.len()
        invariant
            i <= graph.entities@.len(),
            *graph == *old(graph),
            g0 == graph@,
            texts(ids@) == members(g0.entities, from@, i as int),
            ids@.len() <= i,
        decreases graph.entities@.len() - i,
    {
        let ghost before = texts(ids@);
        if str_eq(graph.entities.value_at(i).file.as_str(), from) {
            ids.push(graph.entities.key_at(i).clone());
            assert(texts(ids@) =~= before.push(g0.entities[i as int].0));
        }
        i += 1;
    }
    let ghost idv = texts(ids@);

    // move them
    let mut k: usize = 0;
    while k < ids.len()
        invariant
            k <= ids.len(),
            idv == texts(ids@),
            entity_entries(graph.entities@) == rekeyed_all(g0.entities, idv, from@, to@, k as int),
            graph.version == old(graph).version,
            graph.created_at == old(graph).created_at,
            graph.updated_at == old(graph).updated_at,
            graph.metadata == old(graph).metadata,
            graph.edges == old(graph).edges,
            graph.hierarchy == old(graph).hierarchy,
            graph.file_index == old(graph).file_index,
        decreases ids.len() - k,
    {
        let ghost before = graph.entities@;
        proof {
            lemma_entity_entries(before, ids@[k as int]@);
            lemma_position(before, ids@[k as int]@);
        }
        match graph.entities.remove(ids[k].as_str()) {
            Some(entity) => {
                let mut entity = entity;
                let nid = move_id(ids[k].as_str(), from, to);
                entity.id = nid.clone();
                entity.file = to.to_owned();
                let ghost mid = graph.entities@;
                proof {
                    assert(entity_entries(mid) =~= without(entity_entries(before), idv[k as int]));
                    lemma_entity_entries(mid, nid@);
                    lemma_position(mid, nid@);
                }
                graph.entities.insert(nid, entity);
                assert(entity_entries(graph.entities@) =~= rekeyed_one(
                    entity_entries(before),
                    idv[k as int],
                    from@,
                    to@,
                ));
            },
            None => {},
        }
        k += 1;
    }

    // the file index
    let ghost index0 = graph.file_index@;
    proof {
        lemma_index_entries(index0, from@);
        lemma_position(index0, from@);
    }
    match graph.file_index.remove(from) {
        Some(list) => {
            let mut list = list;
            rename_list(&mut list, &ids, from, to);
            let ghost mid = graph.file_index@;
            proof {
                assert(index_entries(mid) =~= without(index_entries(index0), from@));
                lemma_index_entries(mid, to@);
                lemma_position(mid, to@);
            }
            graph.file_index.insert(to.to_owned(), list);
            assert(index_entries(graph.file_index@) =~= moved_index(
                g0.file_index,
                idv,
                from@,
                to@,
            ));
        },
        None => {},
    }

    // the edges
    let mut e: usize = 0;
    while e < graph.edges.len()
        invariant
            e <= graph.edges@.len(),
            idv == texts(ids@),
            graph.edges@.len() == old(graph).edges@.len(),
            forall|j: int|
                0 <= j < e ==> (#[trigger] graph.edges@[j])@ == renamed_edge(
                    old(graph).edges@[j]@,
                    idv,
                    from@,
                    to@,
                ),
            forall|j: int| e <= j < graph.edges@.len() ==> graph.edges@[j] == old(graph).edges@[j],
            entity_entries(graph.entities@) == after_rename(g0, from@, to@).entities,
            index_entries(graph.file_index@) == after_rename(g0, from@, to@).file_index,
            graph.version == old(graph).version,
            graph.created_at == old(graph).created_at,
            graph.updated_at == old(graph).updated_at,
            graph.metadata == old(graph).metadata,
            graph.hierarchy == old(graph).hierarchy,
        decreases graph.edges@.len() - e,
    {
        rename_ref(&mut graph.edges[e].source, &ids, from, to);
        rename_ref(&mut graph.edges[e].target, &ids, from, to);
        e += 1;
    }
    assert(edge_views(graph.edges@) =~= after_rename(g0, from@, to@).edges);

    // the hierarchy
    let mut h: usize = 0;
    while h < graph.hierarchy.len()
        invariant
            h <= graph.hierarchy@.len(),
            idv == texts(ids@),
            graph.hierarchy@.len() == old(graph).hierarchy@.len(),
            forall|j: int|
                0 <= j < h ==> (#[trigger] graph.hierarchy@[j]).0 == old(graph).hierarchy@[j].0
                    && graph.hierarchy@[j].1@ == renamed_node(
                    old(graph).hierarchy@[j].1@,
                    idv,
                    from@,
                    to@,
                ),
            forall|j: int|
                h <= j < graph.hierarchy@.len() ==> graph.hierarchy@[j] == old(
                    graph,
                ).hierarchy@[j],
            entity_entries(graph.entities@) == after_rename(g0, from@, to@).entities,
            index_entries(graph.file_index@) == after_rename(g0, from@, to@).file_index,
            edge_views(graph.edges@) == after_rename(g0, from@, to@).edges,
            graph.version == old(graph).version,
            graph.created_at == old(graph).created_at,
            graph.updated_at == old(graph).updated_at,
            graph.metadata == old(graph).metadata,
        decreases graph.hierarchy@.len() - h,
    {
        let node = graph.hierarchy.value_at_mut(h);
        rename_node(node, &ids, from, to);
        h += 1;
    }
    assert(node_entries(graph.hierarchy@) =~= after_rename(g0, from@, to@).hierarchy);
    ids.len()
}

/// Applies file renames to the graph, in order. Returns how many of the
/// renames moved at least one entity, and how many entities were moved in
/// all; a count that does not fit a `usize` is reported as the largest one.
pub fn apply_renames(graph: &mut RPGraph, renames: &Vec<(String, String)>) -> (r: (usize, usize))
    ensures
        final(graph)@ == after_renames(
            old(graph)@,
            rename_views(renames@),
            renames@.len() as int,
        ),
        r.0 == files_moved(old(graph)@, rename_views(renames@), renames@.len() as int),
        r.1 == capped(
            entities_moved(old(graph)@, rename_views(renames@), renames@.len() as int),
        ),
{
    let ghost g0 = graph@;
    let ghost rs = rename_views(renames@);
    let mut files: usize = 0;
    let mut total: usize = 0;
    let mut i: usize = 0;
    while i < renames.len()
        invariant
            i <= renames.len(),
            rs == rename_views(renames@),
            graph@ == after_renames(g0, rs, i as int),
            files == files_moved(g0, rs, i as int),
            files <= i,
            0 <= entities_moved(g0, rs, i as int),
            total == capped(entities_moved(g0, rs, i as int)),
        decreases renames.len() - i,
    {
        let moved = rename_file(graph, renames[i].0.as_str(), renames[i].1.as_str());
        if moved > 0 {
            files += 1;
        }
        if total > usize::MAX - moved {
            total = usize::MAX;
        } else {
            total += moved;
        }
        i += 1;
    }
    (files, total)
}

} // verus!
