//! Grounding: turning the names in an entity's dependency payload into edges,
//! and settling edges whose endpoints are gone.

use crate::graph::{bare_chars, bare_path, child_position, edge_views, entity_entries, lemma_entity_entries, lemma_node_children, lemma_node_entries, node_entries, node_prefix, node_views, DependencyEdge, EdgeKind, EdgeView, Entity, EntityKind, EntityView, GraphView, HierarchyNode, NodeView, RPGraph};
use crate::hierarchy::{name_count, name_first};
use crate::strmap::{has_key, lookup, StrMap};
use crate::structure::{add_edge, with_edge};
use crate::text::{concat_chars, rows, split_chars, split_on, str_eq, string_from_chars, texts};
use vstd::prelude::*;

verus! {

// ---------------------------------------------------------------------------
// Resolving dependencies
// ---------------------------------------------------------------------------

/// The one entity with the given name, if exactly one has it.
pub open spec fn unique_named(entities: Seq<(Seq<char>, EntityView)>, name: Seq<char>) -> Option<
    Seq<char>,
> {
    if name_count(entities, name, entities.len() as int) == 1 && 0 <= name_first(
        entities,
        name,
        0,
    ) < entities.len() {
        Some(entities[name_first(entities, name, 0)].0)
    } else {
        None
    }
}

/// The index of the first Module entity at or after `from` whose file is
/// `file`; `-1` if there is none.
pub open spec fn module_at(
    entities: Seq<(Seq<char>, EntityView)>,
    file: Seq<char>,
    from: int,
) -> int
    decreases entities.len() - from,
{
    if from < 0 || from >= entities.len() {
        -1
    } else if entities[from].1.kind == EntityKind::Module && entities[from].1.file == file {
        from
    } else {
        module_at(entities, file, from + 1)
    }
}

/// The edges with an edge of the given kind from `source` to the entity that
/// each of the first `upto` names stands for. A name that no entity has, or
/// that several have, adds nothing.
pub open spec fn linked(
    edges: Seq<EdgeView>,
    entities: Seq<(Seq<char>, EntityView)>,
    source: Seq<char>,
    names: Seq<Seq<char>>,
    kind: EdgeKind,
    upto: int,
) -> Seq<EdgeView>
    decreases upto,
{
    if upto <= 0 || upto > names.len() {
        edges
    } else {
        let rest = linked(edges, entities, source, names, kind, upto - 1);
        match unique_named(entities, names[upto - 1]) {
            Some(target) => with_edge(rest, EdgeView { source, target, kind }),
            None => rest,
        }
    }
}

/// The edges with an `Imports` edge from `source` to the Module entity of
/// each of the first `upto` imported files. A file without a Module entity
/// adds nothing.
pub open spec fn imported(
    edges: Seq<EdgeView>,
    entities: Seq<(Seq<char>, EntityView)>,
    source: Seq<char>,
    imports: Seq<Seq<char>>,
    upto: int,
) -> Seq<EdgeView>
    decreases upto,
{
    if upto <= 0 || upto > imports.len() {
        edges
    } else {
        let rest = imported(edges, entities, source, imports, upto - 1);
        let m = module_at(entities, imports[upto - 1], 0);
        if 0 <= m < entities.len() {
            with_edge(rest, EdgeView { source, target: entities[m].0, kind: EdgeKind::Imports })
        } else {
            rest
        }
    }
}

/// The edges with those of entity number `i`: its calls, its superclasses,
/// and, if imports are broadcast or the entity has a call or a superclass,
/// its imports.
pub open spec fn with_entity_edges(
    edges: Seq<EdgeView>,
    entities: Seq<(Seq<char>, EntityView)>,
    i: int,
    broadcast: bool,
) -> Seq<EdgeView> {
    let key = entities[i].0;
    let deps = entities[i].1.deps;
    let calls = linked(
        edges,
        entities,
        key,
        deps.invokes,
        EdgeKind::Invokes,
        deps.invokes.len() as int,
    );
    let supers = linked(
        calls,
        entities,
        key,
        deps.inherits,
        EdgeKind::Inherits,
        deps.inherits.len() as int,
    );
    if broadcast || deps.invokes.len() > 0 || deps.inherits.len() > 0 {
        imported(supers, entities, key, deps.imports, deps.imports.len() as int)
    } else {
        supers
    }
}

/// The edges with those of the first `upto` entities.
pub open spec fn resolved_edges(
    edges: Seq<EdgeView>,
    entities: Seq<(Seq<char>, EntityView)>,
    broadcast: bool,
    upto: int,
) -> Seq<EdgeView>
    decreases upto,
{
    if upto <= 0 || upto > entities.len() {
        edges
    } else {
        with_entity_edges(
            resolved_edges(edges, entities, broadcast, upto - 1),
            entities,
            upto - 1,
            broadcast,
        )
    }
}

/// The one entity with the given name, if exactly one has it.
pub fn find_unique(entities: &StrMap<Entity>, name: &str) -> (r: Option<usize>)
    ensures
        match r {
            Some(i) => i < entities@.len() && unique_named(entity_entries(entities@), name@)
                == Some(entities@[i as int].0),
            None => unique_named(entity_entries(entities@), name@) is None,
        },
{
    let ghost ee = entity_entries(entities@);
    let mut count: usize = 0;
    let mut first: usize = 0;
    let mut i: usize = 0;
    while i < entities.len()
        invariant
            i <= entities@.len(),
            ee == entity_entries(entities@),
            count == name_count(ee, name@, i as int),
            count <= i,
            count == 0 ==> name_first(ee, name@, 0) == name_first(ee, name@, i as int),
            count > 0 ==> first == name_first(ee, name@, 0) && first < i,
        decreases entities@.len() - i,
    {
        if str_eq(entities.value_at(i).name.as_str(), name) {
            if count == 0 {
                first = i;
            }
            count += 1;
        }
        i += 1;
    }
    if count == 1 {
        Some(first)
    } else {
        None
    }
}

/// The first Module entity of the given file.
pub fn find_module_of(entities: &StrMap<Entity>, file: &str) -> (r: Option<usize>)
    ensures
        match r {
            Some(i) => i < entities@.len() && i == module_at(entity_entries(entities@), file@, 0),
            None => module_at(entity_entries(entities@), file@, 0) == -1,
        },
{
    let ghost ee = entity_entries(entities@);
    let mut i: usize = 0;
    while i < entities.len()
        invariant
            i <= entities@.len(),
            ee == entity_entries(entities@),
            module_at(ee, file@, 0) == module_at(ee, file@, i as int),
        decreases entities@.len() - i,
    {
        let e = entities.value_at(i);
        if e.kind == EntityKind::Module && str_eq(e.file.as_str(), file) {
            return Some(i);
        }
        i += 1;
    }
    None
}

fn link(
    edges: &mut Vec<DependencyEdge>,
    entities: &StrMap<Entity>,
    source: &str,
    names: &Vec<String>,
    kind: EdgeKind,
)
    ensures
        edge_views(final(edges)@) == linked(
            edge_views(old(edges)@),
            entity_entries(entities@),
            source@,
            texts(names@),
            kind,
            names@.len() as int,
        ),
{
    let ghost ee = entity_entries(entities@);
    let mut j: usize = 0;
    while j < names.len()
        invariant
            j <= names.len(),
            ee == entity_entries(entities@),
            edge_views(edges@) == linked(
                edge_views(old(edges)@),
                ee,
                source@,
                texts(names@),
                kind,
                j as int,
            ),
        decreases names.len() - j,
    {
        match find_unique(entities, names[j].as_str()) {
            Some(t) => {
                add_edge(edges, source, entities.key_at(t).as_str(), kind);
            },
            None => {},
        }
        j += 1;
    }
}

fn import(
    edges: &mut Vec<DependencyEdge>,
    entities: &StrMap<Entity>,
    source: &str,
    imports: &Vec<String>,
)
    ensures
        edge_views(final(edges)@) == imported(
            edge_views(old(edges)@),
            entity_entries(entities@),
            source@,
            texts(imports@),
            imports@.len() as int,
        ),
{
    let ghost ee = entity_entries(entities@);
    let mut j: usize = 0;
    while j < imports.len()
        invariant
            j <= imports.len(),
            ee == entity_entries(entities@),
            edge_views(edges@) == imported(
                edge_views(old(edges)@),
                ee,
                source@,
                texts(imports@),
                j as int,
            ),
        decreases imports.len() - j,
    {
        match find_module_of(entities, imports[j].as_str()) {
            Some(m) => {
                add_edge(edges, source, entities.key_at(m).as_str(), EdgeKind::Imports);
            },
            None => {},
        }
        j += 1;
    }
}

/// Turns every entity's dependency payload into edges.
///
/// A call or a superclass becomes an edge only if exactly one entity has the
/// name. An import becomes an edge to the Module entity of the imported
/// file. Unless `broadcast_imports` is set, the imports of an entity without
/// calls and superclasses are left out.
pub fn resolve_dependencies(graph: &mut RPGraph, broadcast_imports: bool)
    ensures
        final(graph)@ == (GraphView {
            edges: resolved_edges(
                old(graph)@.edges,
                old(graph)@.entities,
                broadcast_imports,
                old(graph)@.entities.len() as int,
            ),
            ..old(graph)@
        }),
{
    let ghost g0 = graph@;
    let mut i: usize = 0;
    while i < graph.entities.len()
        invariant
            i <= graph.entities@.len(),
            graph@ == (GraphView {
                edges: resolved_edges(g0.edges, g0.entities, broadcast_imports, i as int),
                ..g0
            }),
        decreases graph.entities@.len() - i,
    {
        let key = graph.entities.key_at(i);
        let entity = graph.entities.value_at(i);
        link(&mut graph.edges, &graph.entities, key.as_str(), &entity.deps.invokes, EdgeKind::Invokes);
        link(
            &mut graph.edges,
            &graph.entities,
            key.as_str(),
            &entity.deps.inherits,
            EdgeKind::Inherits,
        );
        if broadcast_imports || entity.deps.invokes.len() > 0 || entity.deps.inherits.len() > 0 {
            import(&mut graph.edges, &graph.entities, key.as_str(), &entity.deps.imports);
        }
        i += 1;
    }
}

// ---------------------------------------------------------------------------
// Resolving hierarchy paths
// ---------------------------------------------------------------------------

/// The node that the segments `segs[at..]` lead to below `n`, each segment
/// naming a child.
pub open spec fn node_below(n: NodeView, segs: Seq<Seq<char>>, at: int) -> Option<NodeView>
    decreases segs.len() - at,
{
    if at < 0 || at >= segs.len() {
        Some(n)
    } else {
        let j = child_position(n.children, segs[at], 0);
        if 0 <= j < n.children.len() {
            node_below(n.children[j], segs, at + 1)
        } else {
            None
        }
    }
}

/// The node that a hierarchy path names, with or without `h:` in front.
pub open spec fn node_at(h: Seq<(Seq<char>, NodeView)>, path: Seq<char>) -> Option<NodeView> {
    let segs = split_on(bare_path(path), '/');
    let key = node_prefix() + segs[0];
    if has_key(h, key) {
        node_below(lookup(h, key), segs, 1)
    } else {
        None
    }
}

/// The node that a hierarchy path names.
pub fn find_node<'a>(hierarchy: &'a StrMap<HierarchyNode>, path: &str) -> (r: Option<
    &'a HierarchyNode,
>)
    ensures
        match r {
            Some(n) => node_at(node_entries(hierarchy@), path@) == Some(n@),
            None => node_at(node_entries(hierarchy@), path@) is None,
        },
{
    let mut prefix: Vec<char> = Vec::new();
    prefix.push('h');
    prefix.push(':');
    assert(prefix@ =~= node_prefix());
    let bare = bare_chars(path);
    let segs = split_chars(&bare, '/');
    proof {
        assert(split_on(bare@, '/').len() >= 1);
    }
    let key = string_from_chars(&concat_chars(&prefix, &segs[0]));
    proof {
        lemma_node_entries(hierarchy@, key@);
    }
    let top = match hierarchy.get(key.as_str()) {
        Some(n) => n,
        None => {
            return None;
        },
    };
    let mut cur: &HierarchyNode = top;
    let mut at: usize = 1;
    let ghost goal = node_at(node_entries(hierarchy@), path@);
    assert(goal == node_below(top@, rows(segs@), 1));
    while at < segs.len()
        invariant
            1 <= at <= segs.len(),
            goal == node_at(node_entries(hierarchy@), path@),
            goal == node_below(top@, rows(segs@), 1),
            node_below(cur@, rows(segs@), at as int) == node_below(top@, rows(segs@), 1),
        decreases segs.len() - at,
    {
        let wanted = string_from_chars(&segs[at]);
        proof {
            lemma_node_children(*cur);
        }
        let mut j: usize = 0;
        while j < cur.children.len() && !str_eq(cur.children[j].name.as_str(), wanted.as_str())
            invariant
                j <= cur.children.len(),
                at < segs.len(),
                wanted@ == segs@[at as int]@,
                cur@.children == node_views(cur.children@),
                child_position(cur@.children, wanted@, 0) == child_position(
                    cur@.children,
                    wanted@,
                    j as int,
                ),
            decreases cur.children.len() - j,
        {
            j += 1;
        }
        if j >= cur.children.len() {
            return None;
        }
        assert(child_position(cur@.children, wanted@, 0) == j);
        cur = &cur.children[j];
        at += 1;
    }
    Some(cur)
}

// ---------------------------------------------------------------------------
// Settling dangling edges
// ---------------------------------------------------------------------------

/// What becomes of an edge. An edge other than `Contains` stays only if both
/// endpoints are entities. A `Contains` edge stays; if its source is no
/// entity but names a hierarchy node, the source becomes that node's
/// identifier.
pub open spec fn grounded_edge(g: GraphView, e: EdgeView) -> Option<EdgeView> {
    if e.kind != EdgeKind::Contains {
        if has_key(g.entities, e.source) && has_key(g.entities, e.target) {
            Some(e)
        } else {
            None
        }
    } else if has_key(g.entities, e.source) {
        Some(e)
    } else {
        match node_at(g.hierarchy, e.source) {
            Some(n) => Some(EdgeView { source: n.id, ..e }),
            None => Some(e),
        }
    }
}

/// What becomes of the first `upto` edges.
pub open spec fn grounded_edges(g: GraphView, upto: int) -> Seq<EdgeView>
    decreases upto,
{
    if upto <= 0 || upto > g.edges.len() {
        Seq::empty()
    } else {
        match grounded_edge(g, g.edges[upto - 1]) {
            Some(e) => grounded_edges(g, upto - 1).push(e),
            None => grounded_edges(g, upto - 1),
        }
    }
}

/// Every edge other than `Contains` joins two entities.
pub open spec fn edges_grounded(g: GraphView) -> bool {
    forall|i: int|
        0 <= i < g.edges.len() && (#[trigger] g.edges[i]).kind != EdgeKind::Contains ==> has_key(
            g.entities,
            g.edges[i].source,
        ) && has_key(g.entities, g.edges[i].target)
}

/// After grounding, every edge other than `Contains` joins two entities.
pub proof fn lemma_grounded(g: GraphView, upto: int)
    requires
        0 <= upto <= g.edges.len(),
    ensures
        edges_grounded(GraphView { edges: grounded_edges(g, upto), ..g }),
    decreases upto,
{
    if upto > 0 {
        lemma_grounded(g, upto - 1);
        let rest = grounded_edges(g, upto - 1);
        let all = grounded_edges(g, upto);
        assert forall|i: int|
            0 <= i < all.len() && (#[trigger] all[i]).kind != EdgeKind::Contains implies has_key(
            g.entities,
            all[i].source,
        ) && has_key(g.entities, all[i].target) by {
            if i < rest.len() {
                assert(all[i] == rest[i]);
                assert((GraphView { edges: rest, ..g }).edges[i] == rest[i]);
            }
        }
    }
}

/// Settles the edges whose endpoints are gone: edges other than `Contains`
/// that miss an endpoint are dropped, and `Contains` edges whose source names
/// a hierarchy node are pointed at that node.
pub fn ground_hierarchy(graph: &mut RPGraph)
    ensures
        final(graph)@ == (GraphView {
            edges: grounded_edges(old(graph)@, old(graph)@.edges.len() as int),
            ..old(graph)@
        }),
        edges_grounded(final(graph)@),
{
    let ghost g0 = graph@;
    let mut out: Vec<DependencyEdge> = Vec::new();
    let mut i: usize = 0;
    assert(edge_views(out@) =~= grounded_edges(g0, 0));
    while i < graph.edges.len()
        invariant
            i <= graph.edges@.len(),
            *graph == *old(graph),
            g0 == graph@,
            edge_views(out@) == grounded_edges(g0, i as int),
        decreases graph.edges@.len() - i,
    {
        let edge = &graph.edges[i];
        let ghost before = edge_views(out@);
        proof {
            lemma_entity_entries(graph.entities@, edge.source@);
            lemma_entity_entries(graph.entities@, edge.target@);
        }
        let source_known = graph.entities.contains_key(edge.source.as_str());
        match edge.kind {
            EdgeKind::Contains => {
                let mut copy = edge.clone();
                if !source_known {
                    match find_node(&graph.hierarchy, edge.source.as_str()) {
                        Some(n) => {
                            copy.source = n.id.clone();
                        },
                        None => {},
                    }
                }
                out.push(copy);
                assert(edge_views(out@) =~= before.push(grounded_edge(g0, g0.edges[i as int])->0));
            },
            _ => {
                if source_known && graph.entities.contains_key(edge.target.as_str()) {
                    out.push(edge.clone());
                    assert(edge_views(out@) =~= before.push(g0.edges[i as int]));
                }
            },
        }
        i += 1;
    }
    graph.edges = out;
    proof {
        lemma_grounded(g0, g0.edges.len() as int);
    }
}

} // verus!
