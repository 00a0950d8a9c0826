//! The hierarchy as a structure: the fallback built from file paths, node
//! identifiers, aggregated features, containment edges, and path resolution.

use crate::config::DEFAULT_MAX_HIERARCHY_DEPTH;
use crate::graph::{edge_views, entity_entries, hierarchy_with, lemma_entity_entries, lemma_node_children, node_entries, node_prefix, node_views, DependencyEdge, EdgeKind, EdgeView, Entity, EntityView, GraphView, HierarchyNode, NodeView, RPGraph};
use crate::semantic_lifting::{sorted_set, sorted_set_of};
use crate::strmap::{has_key, lookup, StrMap};
use crate::text::{append_strings, chars_of, clone_strings, concat_chars, contains_text, rows, split_chars, split_on, str_eq, string_from_chars, texts};
use vstd::prelude::*;

verus! {

// ---------------------------------------------------------------------------
// The fallback hierarchy from file paths
// ---------------------------------------------------------------------------

/// The name of the node that holds files outside any directory.
pub open spec fn root_name() -> Seq<char> {
    seq!['r', 'o', 'o', 't']
}

/// The first `upto` segments joined by `/`.
pub open spec fn joined_path(segs: Seq<Seq<char>>, upto: int) -> Seq<char>
    decreases upto,
{
    if upto <= 0 || upto > segs.len() {
        Seq::empty()
    } else if upto == 1 {
        segs[0]
    } else {
        joined_path(segs, upto - 1) + seq!['/'] + segs[upto - 1]
    }
}

/// The hierarchy path of a file: its directories, at most `max_depth` of
/// them, joined by `/`. A file outside any directory goes to `root`.
pub open spec fn path_of_file(file: Seq<char>, max_depth: nat) -> Seq<char> {
    let segs = split_on(file, '/');
    let dirs = segs.len() - 1;
    let depth = if dirs < max_depth {
        dirs
    } else {
        max_depth as int
    };
    if depth <= 0 {
        root_name()
    } else {
        joined_path(segs, depth)
    }
}

/// The hierarchy with the first `upto` of `ids` appended at `path`.
pub open spec fn attached(
    h: Seq<(Seq<char>, NodeView)>,
    path: Seq<char>,
    ids: Seq<Seq<char>>,
    upto: int,
) -> Seq<(Seq<char>, NodeView)>
    decreases upto,
{
    if upto <= 0 || upto > ids.len() {
        h
    } else {
        hierarchy_with(attached(h, path, ids, upto - 1), path, ids[upto - 1])
    }
}

/// The hierarchy with the entities of the first `upto` files of the index
/// attached, each at the path of its file.
pub open spec fn with_file_paths(
    h: Seq<(Seq<char>, NodeView)>,
    index: Seq<(Seq<char>, Seq<Seq<char>>)>,
    max_depth: nat,
    upto: int,
) -> Seq<(Seq<char>, NodeView)>
    decreases upto,
{
    if upto <= 0 || upto > index.len() {
        h
    } else {
        attached(
            with_file_paths(h, index, max_depth, upto - 1),
            path_of_file(index[upto - 1].0, max_depth),
            index[upto - 1].1,
            index[upto - 1].1.len() as int,
        )
    }
}

/// The hierarchy path of a file.
pub fn file_path_of(file: &str, max_depth: usize) -> (r: String)
    ensures
        r@ == path_of_file(file@, max_depth as nat),
{
    let segs = split_chars(&chars_of(file), '/');
    proof {
        assert(split_on(file@, '/').len() >= 1);
    }
    let dirs: usize = segs.len() - 1;
    let depth: usize = if dirs < max_depth {
        dirs
    } else {
        max_depth
    };
    if depth == 0 {
        let mut root: Vec<char> = Vec::new();
        root.push('r');
        root.push('o');
        root.push('o');
        root.push('t');
        assert(root@ =~= root_name());
        return string_from_chars(&root);
    }
    let mut slash: Vec<char> = Vec::new();
    slash.push('/');
    assert(slash@ =~= seq!['/']);
    let mut out: Vec<char> = Vec::new();
    let mut i: usize = 0;
    assert(out@ =~= joined_path(rows(segs@), 0));
    while i < depth
        invariant
            i <= depth < segs.len(),
            slash@ == seq!['/'],
            out@ == joined_path(rows(segs@), i as int),
        decreases depth - i,
    {
        if i > 0 {
            out = concat_chars(&out, &slash);
        }
        out = concat_chars(&out, &segs[i]);
        proof {
            if i == 0 {
                assert(out@ =~= rows(segs@)[0]);
            }
        }
        i += 1;
    }
    string_from_chars(&out)
}

// ---------------------------------------------------------------------------
// Node identifiers
// ---------------------------------------------------------------------------

/// One node of the hierarchy, as a walk through the tree meets it.
pub struct NodeRow {
    pub depth: usize,
    pub id: Seq<char>,
    pub entities: Seq<Seq<char>>,
}

/// One node of the hierarchy, as a walk through the tree meets it.
pub struct Row {
    pub depth: usize,
    pub id: String,
    pub entities: Vec<String>,
}

impl View for Row {
    type V = NodeRow;

    open spec fn view(&self) -> NodeRow {
        NodeRow { depth: self.depth, id: self.id@, entities: texts(self.entities@) }
    }
}

/// The views of a list of rows.
pub open spec fn row_views(v: Seq<Row>) -> Seq<NodeRow> {
    Seq::new(v.len(), |i: int| v[i]@)
}

/// The depth below `d`.
pub open spec fn deeper(d: usize) -> usize {
    if d < usize::MAX {
        (d + 1) as usize
    } else {
        d
    }
}

/// The nodes of the subtree of `n`, the node itself first, then the
/// subtrees of its children in order.
pub open spec fn rows_of(n: NodeView, depth: usize) -> Seq<NodeRow>
    decreases n, n.children.len() + 1,
{
    seq![NodeRow { depth, id: n.id, entities: n.entities }] + rows_below(
        n,
        deeper(depth),
        n.children.len() as int,
    )
}

/// The nodes of the subtrees of the first `upto` children of `n`.
pub open spec fn rows_below(n: NodeView, depth: usize, upto: int) -> Seq<NodeRow>
    decreases n, upto,
{
    if upto <= 0 || upto > n.children.len() {
        Seq::empty()
    } else {
        rows_below(n, depth, upto - 1) + rows_of(n.children[upto - 1], depth)
    }
}

/// The nodes of the first `upto` top-level subtrees.
pub open spec fn all_rows(h: Seq<(Seq<char>, NodeView)>, upto: int) -> Seq<NodeRow>
    decreases upto,
{
    if upto <= 0 || upto > h.len() {
        Seq::empty()
    } else {
        all_rows(h, upto - 1) + rows_of(h[upto - 1].1, 0)
    }
}

/// A node with the identifier `id`, and every node below it with its
/// parent's identifier, a `/`, and its own name.
pub open spec fn with_ids(n: NodeView, id: Seq<char>) -> NodeView
    decreases n,
{
    NodeView {
        id,
        children: Seq::new(
            n.children.len(),
            |i: int|
                if 0 <= i < n.children.len() {
                    with_ids(n.children[i], id + seq!['/'] + n.children[i].name)
                } else {
                    n
                },
        ),
        ..n
    }
}

/// The hierarchy with every node's canonical identifier filled in: `h:` and
/// the names on the way down to the node, joined by `/`.
pub open spec fn hierarchy_ids(h: Seq<(Seq<char>, NodeView)>) -> Seq<(Seq<char>, NodeView)> {
    Seq::new(h.len(), |i: int| (h[i].0, with_ids(h[i].1, node_prefix() + h[i].1.name)))
}

/// The index of the deepest of the first `upto` rows that list `id`, the
/// first of them where several are equally deep; `-1` if none lists it.
pub open spec fn deepest(rows: Seq<NodeRow>, id: Seq<char>, upto: int) -> int
    decreases upto,
{
    if upto <= 0 || upto > rows.len() {
        -1
    } else {
        let best = deepest(rows, id, upto - 1);
        if rows[upto - 1].entities.contains(id) && (best < 0 || rows[upto - 1].depth
            > rows[best].depth) {
            upto - 1
        } else {
            best
        }
    }
}

/// The entity with the identifier of the deepest node that lists its key as
/// its hierarchy path; unchanged if no node lists it.
pub open spec fn placed_entity(rows: Seq<NodeRow>, key: Seq<char>, e: EntityView) -> EntityView {
    let d = deepest(rows, key, rows.len() as int);
    if 0 <= d < rows.len() {
        EntityView { hierarchy_path: rows[d].id, ..e }
    } else {
        e
    }
}

/// The graph with node identifiers filled in and every entity's hierarchy
/// path set to the deepest node that lists it.
pub open spec fn with_hierarchy_ids(g: GraphView) -> GraphView {
    let h = hierarchy_ids(g.hierarchy);
    let rows = all_rows(h, h.len() as int);
    GraphView {
        hierarchy: h,
        entities: Seq::new(
            g.entities.len(),
            |i: int| (g.entities[i].0, placed_entity(rows, g.entities[i].0, g.entities[i].1)),
        ),
        ..g
    }
}

fn slash_then(prefix: &str, name: &str) -> (r: String)
    ensures
        r@ == prefix@ + seq!['/'] + name@,
{
    let mut slash: Vec<char> = Vec::new();
    slash.push('/');
    assert(slash@ =~= seq!['/']);
    string_from_chars(&concat_chars(&concat_chars(&chars_of(prefix), &slash), &chars_of(name)))
}

fn fill_ids(node: &mut HierarchyNode, id: String)
    ensures
        final(node)@ == with_ids(old(node)@, id@),
    decreases *old(node),
{
    node.id = id;
    let mut i: usize = 0;
    while i < node.children.len()
        invariant
            i <= node.children.len(),
            node.id@ == id@,
            node.name == old(node).name,
            node.entities == old(node).entities,
            node.aggregated_features == old(node).aggregated_features,
            node.children@.len() == old(node).children@.len(),
            forall|j: int|
                0 <= j < i ==> (#[trigger] node.children@[j])@ == with_ids(
                    old(node).children@[j]@,
                    id@ + seq!['/'] + old(node).children@[j]@.name,
                ),
            forall|j: int| i <= j < node.children@.len() ==> node.children@[j] == old(
                node,
            ).children@[j],
        decreases node.children.len() - i,
    {
        let child_id = slash_then(node.id.as_str(), node.children[i].name.as_str());
        fill_ids(&mut node.children[i], child_id);
        i += 1;
    }
    proof {
        lemma_node_children(*node);
        lemma_node_children(*old(node));
        assert(node@.children =~= with_ids(old(node)@, id@).children);
    }
}

fn next_depth(d: usize) -> (r: usize)
    ensures
        r == deeper(d),
{
    if d < usize::MAX {
        d + 1
    } else {
        d
    }
}

fn collect_rows(node: &HierarchyNode, depth: usize, out: &mut Vec<Row>)
    ensures
        row_views(final(out)@) == row_views(old(out)@) + rows_of(node@, depth),
    decreases node,
{
    let ghost start = row_views(out@);
    proof {
        lemma_node_children(*node);
    }
    out.push(Row { depth, id: node.id.clone(), entities: clone_strings(&node.entities) });
    assert(row_views(out@) =~= start + seq![
        NodeRow { depth, id: node@.id, entities: node@.entities },
    ] + rows_below(node@, deeper(depth), 0));
    let below = next_depth(depth);
    let mut i: usize = 0;
    while i < node.children.len()
        invariant
            i <= node.children.len(),
            below == deeper(depth),
            node@.children == node_views(node.children@),
            row_views(out@) == start + seq![
                NodeRow { depth, id: node@.id, entities: node@.entities },
            ] + rows_below(node@, below, i as int),
        decreases node.children.len() - i,
    {
        let ghost before = row_views(out@);
        collect_rows(&node.children[i], below, out);
        assert(row_views(out@) =~= start + seq![
            NodeRow { depth, id: node@.id, entities: node@.entities },
        ] + rows_below(node@, below, i + 1));
        i += 1;
    }
    assert(row_views(out@) =~= start + rows_of(node@, depth));
}

/// The nodes of the hierarchy, in the order of a walk from the top.
pub fn hierarchy_rows(hierarchy: &StrMap<HierarchyNode>) -> (r: Vec<Row>)
    ensures
        row_views(r@) == all_rows(node_entries(hierarchy@), hierarchy@.len() as int),
{
    let mut out: Vec<Row> = Vec::new();
    let mut i: usize = 0;
    assert(row_views(out@) =~= all_rows(node_entries(hierarchy@), 0));
    while i < hierarchy.len()
        invariant
            i <= hierarchy@.len(),
            row_views(out@) == all_rows(node_entries(hierarchy@), i as int),
        decreases hierarchy@.len() - i,
    {
        collect_rows(hierarchy.value_at(i), 0, &mut out);
        i += 1;
    }
    out
}

fn find_deepest(rows: &Vec<Row>, id: &str) -> (r: Option<usize>)
    ensures
        match r {
            Some(d) => d < rows@.len() && d == deepest(row_views(rows@), id@, rows@.len() as int),
            None => deepest(row_views(rows@), id@, rows@.len() as int) < 0,
        },
{
    let mut best: Option<usize> = None;
    let mut i: usize = 0;
    while i < rows.len()
        invariant
            i <= rows.len(),
            match best {
                Some(d) => d < i && d == deepest(row_views(rows@), id@, i as int),
                None => deepest(row_views(rows@), id@, i as int) == -1,
            },
        decreases rows.len() - i,
    {
        if contains_text(&rows[i].entities, id) {
            let better = match best {
                Some(d) => rows[i].depth > rows[d].depth,
                None => true,
            };
            if better {
                best = Some(i);
            }
        }
        i += 1;
    }
    best
}

// ---------------------------------------------------------------------------
// Aggregated features
// ---------------------------------------------------------------------------

/// The features of the entities that the first `upto` identifiers name, in
/// order; identifiers that name nothing add nothing.
pub open spec fn listed_features(
    entities: Seq<(Seq<char>, EntityView)>,
    ids: Seq<Seq<char>>,
    upto: int,
) -> Seq<Seq<char>>
    decreases upto,
{
    if upto <= 0 || upto > ids.len() {
        Seq::empty()
    } else {
        let rest = listed_features(entities, ids, upto - 1);
        if has_key(entities, ids[upto - 1]) {
            rest + lookup(entities, ids[upto - 1]).semantic_features
        } else {
            rest
        }
    }
}

/// The aggregated features of the first `upto` nodes, one after another.
pub open spec fn joined_features(kids: Seq<NodeView>, upto: int) -> Seq<Seq<char>>
    decreases upto,
{
    if upto <= 0 || upto > kids.len() {
        Seq::empty()
    } else {
        joined_features(kids, upto - 1) + kids[upto - 1].aggregated_features
    }
}

/// The children of `n`, each with its subtree aggregated.
pub open spec fn aggregated_children(
    entities: Seq<(Seq<char>, EntityView)>,
    n: NodeView,
) -> Seq<NodeView>
    decreases n, 0nat,
{
    Seq::new(
        n.children.len(),
        |i: int|
            if 0 <= i < n.children.len() {
                aggregated_node(entities, n.children[i])
            } else {
                n
            },
    )
}

/// A node whose aggregated features are the features of its own entities and
/// the aggregated features of its children, sorted, each once; the same holds
/// of every node below it.
pub open spec fn aggregated_node(entities: Seq<(Seq<char>, EntityView)>, n: NodeView) -> NodeView
    decreases n, 1nat,
{
    let kids = aggregated_children(entities, n);
    NodeView {
        children: kids,
        aggregated_features: sorted_set(
            listed_features(entities, n.entities, n.entities.len() as int) + joined_features(
                kids,
                kids.len() as int,
            ),
        ),
        ..n
    }
}

fn features_of_ids(entities: &StrMap<Entity>, ids: &Vec<String>) -> (r: Vec<String>)
    ensures
        texts(r@) == listed_features(entity_entries(entities@), texts(ids@), ids@.len() as int),
{
    let ghost ee = entity_entries(entities@);
    let mut out: Vec<String> = Vec::new();
    let mut j: usize = 0;
    assert(texts(out@) =~= listed_features(ee, texts(ids@), 0));
    while j < ids.len()
        invariant
            j <= ids.len(),
            ee == entity_entries(entities@),
            texts(out@) == listed_features(ee, texts(ids@), j as int),
        decreases ids.len() - j,
    {
        proof {
            lemma_entity_entries(entities@, ids@[j as int]@);
        }
        match entities.get(ids[j].as_str()) {
            Some(e) => {
                append_strings(&mut out, &e.semantic_features);
            },
            None => {},
        }
        j += 1;
    }
    out
}

fn aggregate_node(node: &mut HierarchyNode, entities: &StrMap<Entity>)
    ensures
        final(node)@ == aggregated_node(entity_entries(entities@), old(node)@),
    decreases *old(node),
{
    let ghost ee = entity_entries(entities@);
    let mut all = features_of_ids(entities, &node.entities);
    let ghost own = texts(all@);
    let mut i: usize = 0;
    proof {
        lemma_node_children(*node);
        assert(texts(all@) =~= own + joined_features(aggregated_children(ee, old(node)@), 0));
    }
    while i < node.children.len()
        invariant
            i <= node.children.len(),
            ee == entity_entries(entities@),
            node.id == old(node).id,
            node.name == old(node).name,
            node.entities == old(node).entities,
            node.aggregated_features == old(node).aggregated_features,
            node.children@.len() == old(node).children@.len(),
            old(node)@.children == node_views(old(node).children@),
            forall|j: int|
                0 <= j < i ==> (#[trigger] node.children@[j])@ == aggregated_node(
                    ee,
                    old(node).children@[j]@,
                ),
            forall|j: int| i <= j < node.children@.len() ==> node.children@[j] == old(
                node,
            ).children@[j],
            texts(all@) == own + joined_features(aggregated_children(ee, old(node)@), i as int),
        decreases node.children.len() - i,
    {
        aggregate_node(&mut node.children[i], entities);
        let ghost before = texts(all@);
        append_strings(&mut all, &node.children[i].aggregated_features);
        proof {
            let kids = aggregated_children(ee, old(node)@);
            assert(kids[i as int] == node.children@[i as int]@);
            assert(texts(all@) =~= own + joined_features(kids, i + 1));
        }
        i += 1;
    }
    node.aggregated_features = sorted_set_of(&all);
    proof {
        lemma_node_children(*node);
        assert(node@.children =~= aggregated_children(ee, old(node)@));
    }
}

// ---------------------------------------------------------------------------
// Containment edges
// ---------------------------------------------------------------------------

/// The edges with `e` appended, unless an equal edge is there already.
pub open spec fn with_edge(edges: Seq<EdgeView>, e: EdgeView) -> Seq<EdgeView> {
    if edges.contains(e) {
        edges
    } else {
        edges.push(e)
    }
}

/// The edges with a `Contains` edge from `node` to each of the first `upto`
/// of `ids`.
pub open spec fn containing(
    edges: Seq<EdgeView>,
    node: Seq<char>,
    ids: Seq<Seq<char>>,
    upto: int,
) -> Seq<EdgeView>
    decreases upto,
{
    if upto <= 0 || upto > ids.len() {
        edges
    } else {
        with_edge(
            containing(edges, node, ids, upto - 1),
            EdgeView { source: node, target: ids[upto - 1], kind: EdgeKind::Contains },
        )
    }
}

/// The edges with the containment edges of the first `upto` rows.
pub open spec fn materialized(edges: Seq<EdgeView>, rows: Seq<NodeRow>, upto: int) -> Seq<
    EdgeView,
>
    decreases upto,
{
    if upto <= 0 || upto > rows.len() {
        edges
    } else {
        containing(
            materialized(edges, rows, upto - 1),
            rows[upto - 1].id,
            rows[upto - 1].entities,
            rows[upto - 1].entities.len() as int,
        )
    }
}

/// Whether the list holds an edge equal to the given one.
pub fn has_edge(edges: &Vec<DependencyEdge>, source: &str, target: &str, kind: EdgeKind) -> (b:
    bool)
    ensures
        b == edge_views(edges@).contains(EdgeView { source: source@, target: target@, kind }),
{
    let ghost e = EdgeView { source: source@, target: target@, kind };
    let mut i: usize = 0;
    while i < edges.len()
        invariant
            i <= edges.len(),
            e == (EdgeView { source: source@, target: target@, kind }),
            forall|j: int| 0 <= j < i ==> edges@[j]@ != e,
        decreases edges.len() - i,
    {
        if edges[i].kind == kind && str_eq(edges[i].source.as_str(), source) && str_eq(
            edges[i].target.as_str(),
            target,
        ) {
            assert(edge_views(edges@)[i as int] == e);
            return true;
        }
        i += 1;
    }
    assert forall|j: int| 0 <= j < edge_views(edges@).len() implies edge_views(edges@)[j]
        != e by {}
    false
}

/// Appends the edge unless an equal one is there already.
pub fn add_edge(edges: &mut Vec<DependencyEdge>, source: &str, target: &str, kind: EdgeKind)
    ensures
        edge_views(final(edges)@) == with_edge(
            edge_views(old(edges)@),
            EdgeView { source: source@, target: target@, kind },
        ),
{
    if !has_edge(edges, source, target, kind) {
        let ghost before = edge_views(edges@);
        edges.push(DependencyEdge { source: source.to_owned(), target: target.to_owned(), kind });
        assert(edge_views(edges@) =~= before.push(
            EdgeView { source: source@, target: target@, kind },
        ));
    }
}

impl RPGraph {
    /// Builds the fallback hierarchy from the directories of the files in the
    /// index, at most `max_depth` levels deep, and attaches the entities of
    /// each file to the node of its directory.
    pub fn build_file_path_hierarchy_to_depth(&mut self, max_depth: usize)
        ensures
            final(self)@ == (GraphView {
                hierarchy: with_file_paths(
                    old(self)@.hierarchy,
                    old(self)@.file_index,
                    max_depth as nat,
                    old(self)@.file_index.len() as int,
                ),
                ..old(self)@
            }),
    {
        let ghost g0 = self@;
        let mut f: usize = 0;
        while f < self.file_index.len()
            invariant
                f <= self.file_index@.len(),
                self@ == (GraphView {
                    hierarchy: with_file_paths(
                        g0.hierarchy,
                        g0.file_index,
                        max_depth as nat,
                        f as int,
                    ),
                    ..g0
                }),
            decreases self.file_index@.len() - f,
        {
            let path = file_path_of(self.file_index.key_at(f).as_str(), max_depth);
            let ids = clone_strings(self.file_index.value_at(f));
            let ghost h0 = self@.hierarchy;
            let mut i: usize = 0;
            while i < ids.len()
                invariant
                    i <= ids.len(),
                    self@ == (GraphView {
                        hierarchy: attached(h0, path@, texts(ids@), i as int),
                        ..g0
                    }),
                decreases ids.len() - i,
            {
                self.insert_into_hierarchy(path.as_str(), ids[i].as_str());
                i += 1;
            }
            f += 1;
        }
    }

    /// Builds the fallback hierarchy three levels deep.
    pub fn build_file_path_hierarchy(&mut self)
        ensures
            final(self)@ == (GraphView {
                hierarchy: with_file_paths(
                    old(self)@.hierarchy,
                    old(self)@.file_index,
                    DEFAULT_MAX_HIERARCHY_DEPTH as nat,
                    old(self)@.file_index.len() as int,
                ),
                ..old(self)@
            }),
    {
        self.build_file_path_hierarchy_to_depth(DEFAULT_MAX_HIERARCHY_DEPTH);
    }

    /// Fills in the identifier of every hierarchy node, and sets the hierarchy
    /// path of every entity to the deepest node that lists it.
    pub fn assign_hierarchy_ids(&mut self)
        ensures
            final(self)@ == with_hierarchy_ids(old(self)@),
    {
        let ghost g0 = self@;
        let mut h: usize = 0;
        while h < self.hierarchy.len()
            invariant
                h <= self.hierarchy@.len(),
                self.hierarchy@.len() == old(self).hierarchy@.len(),
                forall|j: int|
                    0 <= j < h ==> (#[trigger] self.hierarchy@[j]).0 == old(self).hierarchy@[j].0
                        && self.hierarchy@[j].1@ == with_ids(
                        old(self).hierarchy@[j].1@,
                        node_prefix() + old(self).hierarchy@[j].1@.name,
                    ),
                forall|j: int|
                    h <= j < self.hierarchy@.len() ==> self.hierarchy@[j] == old(
                        self,
                    ).hierarchy@[j],
                self.version == old(self).version,
                self.created_at == old(self).created_at,
                self.updated_at == old(self).updated_at,
                self.metadata == old(self).metadata,
                self.entities == old(self).entities,
                self.edges == old(self).edges,
                self.file_index == old(self).file_index,
            decreases self.hierarchy@.len() - h,
        {
            let node = self.hierarchy.value_at_mut(h);
            let mut prefix: Vec<char> = Vec::new();
            prefix.push('h');
            prefix.push(':');
            assert(prefix@ =~= node_prefix());
            let id = string_from_chars(&concat_chars(&prefix, &chars_of(node.name.as_str())));
            fill_ids(node, id);
            h += 1;
        }
        assert(node_entries(self.hierarchy@) =~= hierarchy_ids(g0.hierarchy));
        let rows = hierarchy_rows(&self.hierarchy);
        let ghost rv = row_views(rows@);
        let mut i: usize = 0;
        while i < self.entities.len()
            invariant
                i <= self.entities@.len(),
                rv == row_views(rows@),
                self.entities@.len() == old(self).entities@.len(),
                forall|j: int|
                    0 <= j < i ==> (#[trigger] self.entities@[j]).0 == old(self).entities@[j].0
                        && self.entities@[j].1@ == placed_entity(
                        rv,
                        old(self).entities@[j].0,
                        old(self).entities@[j].1@,
                    ),
                forall|j: int|
                    i <= j < self.entities@.len() ==> self.entities@[j] == old(
                        self,
                    ).entities@[j],
                node_entries(self.hierarchy@) == hierarchy_ids(g0.hierarchy),
                self.version == old(self).version,
                self.created_at == old(self).created_at,
                self.updated_at == old(self).updated_at,
                self.metadata == old(self).metadata,
                self.edges == old(self).edges,
                self.file_index == old(self).file_index,
            decreases self.entities@.len() - i,
        {
            match find_deepest(&rows, self.entities.key_at(i).as_str()) {
                Some(d) => {
                    let path = rows[d].id.clone();
                    let entity = self.entities.value_at_mut(i);
                    entity.hierarchy_path = path;
                },
                None => {},
            }
            i += 1;
        }
        assert(entity_entries(self.entities@) =~= with_hierarchy_ids(g0).entities);
    }

    /// Gives every hierarchy node its aggregated features: those of its own
    /// entities and of the nodes below it, sorted, each once.
    pub fn aggregate_hierarchy_features(&mut self)
        ensures
            final(self)@ == (GraphView {
                hierarchy: Seq::new(
                    old(self)@.hierarchy.len(),
                    |i: int|
                        (
                            old(self)@.hierarchy[i].0,
                            aggregated_node(old(self)@.entities, old(self)@.hierarchy[i].1),
                        ),
                ),
                ..old(self)@
            }),
    {
        let ghost g0 = self@;
        let mut h: usize = 0;
        while h < self.hierarchy.len()
            invariant
                h <= self.hierarchy@.len(),
                self.hierarchy@.len() == old(self).hierarchy@.len(),
                g0.entities == entity_entries(self.entities@),
                forall|j: int|
                    0 <= j < h ==> (#[trigger] self.hierarchy@[j]).0 == old(self).hierarchy@[j].0
                        && self.hierarchy@[j].1@ == aggregated_node(
                        g0.entities,
                        old(self).hierarchy@[j].1@,
                    ),
                forall|j: int|
                    h <= j < self.hierarchy@.len() ==> self.hierarchy@[j] == old(
                        self,
                    ).hierarchy@[j],
                self.version == old(self).version,
                self.created_at == old(self).created_at,
                self.updated_at == old(self).updated_at,
                self.metadata == old(self).metadata,
                self.entities == old(self).entities,
                self.edges == old(self).edges,
                self.file_index == old(self).file_index,
            decreases self.hierarchy@.len() - h,
        {
            let node = self.hierarchy.value_at_mut(h);
            aggregate_node(node, &self.entities);
            h += 1;
        }
        assert(node_entries(self.hierarchy@) =~= Seq::new(
            g0.hierarchy.len(),
            |i: int| (g0.hierarchy[i].0, aggregated_node(g0.entities, g0.hierarchy[i].1)),
        ));
    }

    /// Adds a `Contains` edge from every hierarchy node to every entity it
    /// lists, unless the edge is there already.
    pub fn materialize_containment_edges(&mut self)
        ensures
            final(self)@ == (GraphView {
                edges: materialized(
                    old(self)@.edges,
                    all_rows(old(self)@.hierarchy, old(self)@.hierarchy.len() as int),
                    all_rows(old(self)@.hierarchy, old(self)@.hierarchy.len() as int).len() as int,
                ),
                ..old(self)@
            }),
    {
        let ghost g0 = self@;
        let rows = hierarchy_rows(&self.hierarchy);
        let ghost rv = row_views(rows@);
        let mut r: usize = 0;
        while r < rows.len()
            invariant
                r <= rows.len(),
                rv == row_views(rows@),
                self@ == (GraphView { edges: materialized(g0.edges, rv, r as int), ..g0 }),
            decreases rows.len() - r,
        {
            let ghost e0 = self@.edges;
            let mut i: usize = 0;
            while i < rows[r as usize].entities.len()
                invariant
                    r < rows.len(),
                    i <= rows@[r as int].entities@.len(),
                    rv == row_views(rows@),
                    self@ == (GraphView {
                        edges: containing(e0, rv[r as int].id, rv[r as int].entities, i as int),
                        ..g0
                    }),
                decreases rows@[r as int].entities@.len() - i,
            {
                add_edge(
                    &mut self.edges,
                    rows[r].id.as_str(),
                    rows[r].entities[i].as_str(),
                    EdgeKind::Contains,
                );
                i += 1;
            }
            r += 1;
        }
    }
}

} // verus!
