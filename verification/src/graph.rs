//! The graph data model: entities, dependency edges, the hierarchy tree, the
//! file index, and the mathematical view of each.

use crate::strmap::{
    has_key, lemma_position, lemma_position_same_keys, lookup, position, put, StrMap,
};
use crate::text::{
    chars_of, clone_opt, clone_strings, concat_chars, contains_text, matches_at, opt_text, rows,
    slice_chars, split_chars, split_on, starts_with, str_eq, string_from_chars, texts,
};
use vstd::prelude::*;

verus! {

/// The schema version that this library writes.
pub const CURRENT_VERSION: &'static str = "2.2.0";

/// The kind of code unit an entity stands for.
#[derive(Clone, Copy, Debug, PartialEq, Eq, Hash, Structural)]
pub enum EntityKind {
    Function,
    Class,
    Method,
    Module,
    Page,
    Layout,
    Component,
    Hook,
    Store,
    Controller,
    Model,
    Service,
    Middleware,
    Route,
    Test,
}

/// The kind of relation an edge stands for.
#[derive(Clone, Copy, Debug, PartialEq, Eq, Hash, Structural)]
pub enum EdgeKind {
    Invokes,
    Inherits,
    Imports,
    Contains,
}

/// The raw dependency payload of an entity: names as they appear in source.
#[derive(Debug, PartialEq, Eq)]
pub struct EntityDeps {
    pub invokes: Vec<String>,
    pub inherits: Vec<String>,
    pub imports: Vec<String>,
}

/// A code unit.
#[derive(Debug, PartialEq, Eq)]
pub struct Entity {
    pub id: String,
    pub kind: EntityKind,
    pub name: String,
    pub file: String,
    pub line_start: usize,
    pub line_end: usize,
    pub parent_class: Option<String>,
    pub semantic_features: Vec<String>,
    pub feature_source: Option<String>,
    pub hierarchy_path: String,
    pub deps: EntityDeps,
    pub signature: Option<String>,
}

/// A directed edge between two identifiers.
#[derive(Debug, PartialEq, Eq)]
pub struct DependencyEdge {
    pub source: String,
    pub target: String,
    pub kind: EdgeKind,
}

/// A node of the hierarchy tree. Children are found by name; the first child
/// with a name is the child of that name.
#[derive(Debug, PartialEq, Eq)]
pub struct HierarchyNode {
    pub id: String,
    pub name: String,
    pub entities: Vec<String>,
    pub children: Vec<HierarchyNode>,
    pub aggregated_features: Vec<String>,
}

/// Counts derived from the rest of the graph.
#[derive(Debug, PartialEq, Eq)]
pub struct GraphMetadata {
    pub language: String,
    pub total_files: usize,
    pub total_entities: usize,
    pub functional_areas: usize,
    pub total_edges: usize,
    pub dependency_edges: usize,
    pub containment_edges: usize,
}

/// The repository property graph.
#[derive(Debug)]
pub struct RPGraph {
    pub version: String,
    pub created_at: String,
    pub updated_at: String,
    pub metadata: GraphMetadata,
    pub entities: StrMap<Entity>,
    pub edges: Vec<DependencyEdge>,
    pub hierarchy: StrMap<HierarchyNode>,
    pub file_index: StrMap<Vec<String>>,
}

// ---------------------------------------------------------------------------
// Views
// ---------------------------------------------------------------------------

/// The view of `EntityDeps`.
pub struct DepsView {
    pub invokes: Seq<Seq<char>>,
    pub inherits: Seq<Seq<char>>,
    pub imports: Seq<Seq<char>>,
}

/// The view of `Entity`: every text as its characters.
pub struct EntityView {
    pub id: Seq<char>,
    pub kind: EntityKind,
    pub name: Seq<char>,
    pub file: Seq<char>,
    pub line_start: usize,
    pub line_end: usize,
    pub parent_class: Option<Seq<char>>,
    pub semantic_features: Seq<Seq<char>>,
    pub feature_source: Option<Seq<char>>,
    pub hierarchy_path: Seq<char>,
    pub deps: DepsView,
    pub signature: Option<Seq<char>>,
}

/// The view of `DependencyEdge`.
pub struct EdgeView {
    pub source: Seq<char>,
    pub target: Seq<char>,
    pub kind: EdgeKind,
}

/// The view of `HierarchyNode`, with the views of its children.
pub struct NodeView {
    pub id: Seq<char>,
    pub name: Seq<char>,
    pub entities: Seq<Seq<char>>,
    pub children: Seq<NodeView>,
    pub aggregated_features: Seq<Seq<char>>,
}

/// The view of `GraphMetadata`.
pub struct MetadataView {
    pub language: Seq<char>,
    pub total_files: usize,
    pub total_entities: usize,
    pub functional_areas: usize,
    pub total_edges: usize,
    pub dependency_edges: usize,
    pub containment_edges: usize,
}

/// The view of `RPGraph`: each map as the sequence of its entries, in order.
pub struct GraphView {
    pub version: Seq<char>,
    pub created_at: Seq<char>,
    pub updated_at: Seq<char>,
    pub metadata: MetadataView,
    pub entities: Seq<(Seq<char>, EntityView)>,
    pub edges: Seq<EdgeView>,
    pub hierarchy: Seq<(Seq<char>, NodeView)>,
    pub file_index: Seq<(Seq<char>, Seq<Seq<char>>)>,
}

impl View for EntityDeps {
    type V = DepsView;

    open spec fn view(&self) -> DepsView {
        DepsView {
            invokes: texts(self.invokes@),
            inherits: texts(self.inherits@),
            imports: texts(self.imports@),
        }
    }
}

impl View for Entity {
    type V = EntityView;

    open spec fn view(&self) -> EntityView {
        EntityView {
            id: self.id@,
            kind: self.kind,
            name: self.name@,
            file: self.file@,
            line_start: self.line_start,
            line_end: self.line_end,
            parent_class: opt_text(self.parent_class),
            semantic_features: texts(self.semantic_features@),
            feature_source: opt_text(self.feature_source),
            hierarchy_path: self.hierarchy_path@,
            deps: self.deps@,
            signature: opt_text(self.signature),
        }
    }
}

impl View for DependencyEdge {
    type V = EdgeView;

    open spec fn view(&self) -> EdgeView {
        EdgeView { source: self.source@, target: self.target@, kind: self.kind }
    }
}

/// A node with the given identifier and name and nothing below it.
pub open spec fn leaf_node(id: Seq<char>, name: Seq<char>) -> NodeView {
    NodeView {
        id,
        name,
        entities: Seq::empty(),
        children: Seq::empty(),
        aggregated_features: Seq::empty(),
    }
}

impl View for HierarchyNode {
    type V = NodeView;

    open spec fn view(&self) -> NodeView
        decreases self,
    {
        NodeView {
            id: self.id@,
            name: self.name@,
            entities: texts(self.entities@),
            children: Seq::new(
                self.children@.len(),
                |i: int|
                    if 0 <= i < self.children@.len() {
                        self.children@[i].view()
                    } else {
                        leaf_node(Seq::empty(), Seq::empty())
                    },
            ),
            aggregated_features: texts(self.aggregated_features@),
        }
    }
}

impl View for GraphMetadata {
    type V = MetadataView;

    open spec fn view(&self) -> MetadataView {
        MetadataView {
            language: self.language@,
            total_files: self.total_files,
            total_entities: self.total_entities,
            functional_areas: self.functional_areas,
            total_edges: self.total_edges,
            dependency_edges: self.dependency_edges,
            containment_edges: self.containment_edges,
        }
    }
}

/// The views of a list of nodes.
pub open spec fn node_views(v: Seq<HierarchyNode>) -> Seq<NodeView> {
    Seq::new(v.len(), |i: int| v[i]@)
}

/// The views of a list of edges.
pub open spec fn edge_views(v: Seq<DependencyEdge>) -> Seq<EdgeView> {
    Seq::new(v.len(), |i: int| v[i]@)
}

/// The entries of an entity map, each entity by its view.
pub open spec fn entity_entries(m: Seq<(Seq<char>, Entity)>) -> Seq<(Seq<char>, EntityView)> {
    Seq::new(m.len(), |i: int| (m[i].0, m[i].1@))
}

/// The entries of a node map, each node by its view.
pub open spec fn node_entries(m: Seq<(Seq<char>, HierarchyNode)>) -> Seq<(Seq<char>, NodeView)> {
    Seq::new(m.len(), |i: int| (m[i].0, m[i].1@))
}

/// The entries of a file index, each list by its view.
pub open spec fn index_entries(m: Seq<(Seq<char>, Vec<String>)>) -> Seq<
    (Seq<char>, Seq<Seq<char>>),
> {
    Seq::new(m.len(), |i: int| (m[i].0, texts(m[i].1@)))
}

impl View for RPGraph {
    type V = GraphView;

    open spec fn view(&self) -> GraphView {
        GraphView {
            version: self.version@,
            created_at: self.created_at@,
            updated_at: self.updated_at@,
            metadata: self.metadata@,
            entities: entity_entries(self.entities@),
            edges: edge_views(self.edges@),
            hierarchy: node_entries(self.hierarchy@),
            file_index: index_entries(self.file_index@),
        }
    }
}

impl Clone for EntityDeps {
    fn clone(&self) -> (r: Self)
        ensures
            r@ == self@,
    {
        EntityDeps {
            invokes: clone_strings(&self.invokes),
            inherits: clone_strings(&self.inherits),
            imports: clone_strings(&self.imports),
        }
    }
}

impl Clone for Entity {
    fn clone(&self) -> (r: Self)
        ensures
            r@ == self@,
    {
        Entity {
            id: self.id.clone(),
            kind: self.kind,
            name: self.name.clone(),
            file: self.file.clone(),
            line_start: self.line_start,
            line_end: self.line_end,
            parent_class: clone_opt(&self.parent_class),
            semantic_features: clone_strings(&self.semantic_features),
            feature_source: clone_opt(&self.feature_source),
            hierarchy_path: self.hierarchy_path.clone(),
            deps: self.deps.clone(),
            signature: clone_opt(&self.signature),
        }
    }
}

impl Clone for DependencyEdge {
    fn clone(&self) -> (r: Self)
        ensures
            r@ == self@,
    {
        DependencyEdge { source: self.source.clone(), target: self.target.clone(), kind: self.kind }
    }
}

impl Clone for HierarchyNode {
    fn clone(&self) -> (r: Self)
        ensures
            r@ == self@,
        decreases self,
    {
        let mut children: Vec<HierarchyNode> = Vec::new();
        let mut i: usize = 0;
        while i < self.children.len()
            invariant
                i <= self.children.len(),
                children@.len() == i,
                forall|j: int| 0 <= j < i ==> (#[trigger] children@[j])@ == self.children@[j]@,
            decreases self.children.len() - i,
        {
            let child = (&self.children[i]).clone();
            children.push(child);
            i += 1;
        }
        let r = HierarchyNode {
            id: self.id.clone(),
            name: self.name.clone(),
            entities: clone_strings(&self.entities),
            children,
            aggregated_features: clone_strings(&self.aggregated_features),
        };
        proof {
            lemma_node_children(r);
            lemma_node_children(*self);
            assert(r@.children =~= self@.children);
        }
        r
    }
}

impl Clone for GraphMetadata {
    fn clone(&self) -> (r: Self)
        ensures
            r@ == self@,
    {
        GraphMetadata {
            language: self.language.clone(),
            total_files: self.total_files,
            total_entities: self.total_entities,
            functional_areas: self.functional_areas,
            total_edges: self.total_edges,
            dependency_edges: self.dependency_edges,
            containment_edges: self.containment_edges,
        }
    }
}

impl Clone for RPGraph {
    fn clone(&self) -> (r: Self)
        ensures
            r@ == self@,
    {
        let mut entities: StrMap<Entity> = StrMap::new();
        let mut i: usize = 0;
        assert(entity_entries(entities@) =~= entity_entries(self.entities@).take(0));
        while i < self.entities.len()
            invariant
                i <= self.entities@.len(),
                entity_entries(entities@) == entity_entries(self.entities@).take(i as int),
            decreases self.entities@.len() - i,
        {
            let ghost before = entity_entries(entities@);
            entities.push_entry(self.entities.key_at(i).clone(), self.entities.value_at(i).clone());
            assert(entity_entries(entities@) =~= before.push(
                entity_entries(self.entities@)[i as int],
            ));
            assert(entity_entries(self.entities@).take(i + 1) =~= before.push(
                entity_entries(self.entities@)[i as int],
            ));
            i += 1;
        }
        assert(entity_entries(self.entities@).take(i as int) =~= entity_entries(self.entities@));
        let mut hierarchy: StrMap<HierarchyNode> = StrMap::new();
        let mut h: usize = 0;
        assert(node_entries(hierarchy@) =~= node_entries(self.hierarchy@).take(0));
        while h < self.hierarchy.len()
            invariant
                h <= self.hierarchy@.len(),
                node_entries(hierarchy@) == node_entries(self.hierarchy@).take(h as int),
            decreases self.hierarchy@.len() - h,
        {
            let ghost before = node_entries(hierarchy@);
            hierarchy.push_entry(
                self.hierarchy.key_at(h).clone(),
                self.hierarchy.value_at(h).clone(),
            );
            assert(node_entries(hierarchy@) =~= before.push(
                node_entries(self.hierarchy@)[h as int],
            ));
            assert(node_entries(self.hierarchy@).take(h + 1) =~= before.push(
                node_entries(self.hierarchy@)[h as int],
            ));
            h += 1;
        }
        assert(node_entries(self.hierarchy@).take(h as int) =~= node_entries(self.hierarchy@));
        let mut file_index: StrMap<Vec<String>> = StrMap::new();
        let mut f: usize = 0;
        assert(index_entries(file_index@) =~= index_entries(self.file_index@).take(0));
        while f < self.file_index.len()
            invariant
                f <= self.file_index@.len(),
                index_entries(file_index@) == index_entries(self.file_index@).take(f as int),
            decreases self.file_index@.len() - f,
        {
            let ghost before = index_entries(file_index@);
            file_index.push_entry(
                self.file_index.key_at(f).clone(),
                clone_strings(self.file_index.value_at(f)),
            );
            assert(index_entries(file_index@) =~= before.push(
                index_entries(self.file_index@)[f as int],
            ));
            assert(index_entries(self.file_index@).take(f + 1) =~= before.push(
                index_entries(self.file_index@)[f as int],
            ));
            f += 1;
        }
        assert(index_entries(self.file_index@).take(f as int) =~= index_entries(
            self.file_index@,
        ));
        let mut edges: Vec<DependencyEdge> = Vec::new();
        let mut e: usize = 0;
        assert(edge_views(edges@) =~= edge_views(self.edges@).take(0));
        while e < self.edges.len()
            invariant
                e <= self.edges@.len(),
                edge_views(edges@) == edge_views(self.edges@).take(e as int),
            decreases self.edges@.len() - e,
        {
            let ghost before = edge_views(edges@);
            edges.push(self.edges[e].clone());
            assert(edge_views(edges@) =~= before.push(edge_views(self.edges@)[e as int]));
            assert(edge_views(self.edges@).take(e + 1) =~= before.push(
                edge_views(self.edges@)[e as int],
            ));
            e += 1;
        }
        assert(edge_views(self.edges@).take(e as int) =~= edge_views(self.edges@));
        RPGraph {
            version: self.version.clone(),
            created_at: self.created_at.clone(),
            updated_at: self.updated_at.clone(),
            metadata: self.metadata.clone(),
            entities,
            edges,
            hierarchy,
            file_index,
        }
    }
}

/// Keys are found in an entity map's view where they are found in the map.
pub proof fn lemma_entity_entries(m: Seq<(Seq<char>, Entity)>, k: Seq<char>)
    ensures
        position(entity_entries(m), k) == position(m, k),
        has_key(entity_entries(m), k) == has_key(m, k),
        has_key(m, k) ==> lookup(entity_entries(m), k) == lookup(m, k)@,
{
    lemma_position_same_keys(m, entity_entries(m), k);
    crate::strmap::lemma_position(m, k);
}

/// Keys are found in a file index's view where they are found in the index.
pub proof fn lemma_index_entries(m: Seq<(Seq<char>, Vec<String>)>, k: Seq<char>)
    ensures
        position(index_entries(m), k) == position(m, k),
        has_key(index_entries(m), k) == has_key(m, k),
        has_key(m, k) ==> lookup(index_entries(m), k) == texts(lookup(m, k)@),
{
    lemma_position_same_keys(m, index_entries(m), k);
    crate::strmap::lemma_position(m, k);
}

/// Keys are found in a node map's view where they are found in the map.
pub proof fn lemma_node_entries(m: Seq<(Seq<char>, HierarchyNode)>, k: Seq<char>)
    ensures
        position(node_entries(m), k) == position(m, k),
        has_key(node_entries(m), k) == has_key(m, k),
        has_key(m, k) ==> lookup(node_entries(m), k) == lookup(m, k)@,
{
    lemma_position_same_keys(m, node_entries(m), k);
    crate::strmap::lemma_position(m, k);
}

/// The children of a node, as the view gives them.
pub proof fn lemma_node_children(n: HierarchyNode)
    ensures
        n@.children == node_views(n.children@),
{
    assert(n@.children =~= node_views(n.children@));
}

// ---------------------------------------------------------------------------
// Construction
// ---------------------------------------------------------------------------

impl HierarchyNode {
    /// A node with the given name, no identifier yet, and nothing below it.
    pub fn new(name: &str) -> (n: Self)
        ensures
            n@ == leaf_node(Seq::empty(), name@),
    {
        let n = HierarchyNode {
            id: String::new(),
            name: name.to_owned(),
            entities: Vec::new(),
            children: Vec::new(),
            aggregated_features: Vec::new(),
        };
        assert(n@.children =~= Seq::empty());
        assert(n@.entities =~= Seq::empty());
        assert(n@.aggregated_features =~= Seq::empty());
        n
    }
}

/// The view of a graph that holds nothing.
pub open spec fn empty_graph(language: Seq<char>) -> GraphView {
    GraphView {
        version: CURRENT_VERSION@,
        created_at: Seq::empty(),
        updated_at: Seq::empty(),
        metadata: MetadataView {
            language,
            total_files: 0,
            total_entities: 0,
            functional_areas: 0,
            total_edges: 0,
            dependency_edges: 0,
            containment_edges: 0,
        },
        entities: Seq::empty(),
        edges: Seq::empty(),
        hierarchy: Seq::empty(),
        file_index: Seq::empty(),
    }
}

// ---------------------------------------------------------------------------
// Inserting entities
// ---------------------------------------------------------------------------

/// The file index with `id` listed under `file`, once.
pub open spec fn index_with(
    index: Seq<(Seq<char>, Seq<Seq<char>>)>,
    file: Seq<char>,
    id: Seq<char>,
) -> Seq<(Seq<char>, Seq<Seq<char>>)> {
    if has_key(index, file) {
        if lookup(index, file).contains(id) {
            index
        } else {
            put(index, file, lookup(index, file).push(id))
        }
    } else {
        put(index, file, seq![id])
    }
}

/// The graph with the entity `e` inserted under its `id`, replacing an entity
/// with that identifier, and listed in the file index under its file.
pub open spec fn with_entity(g: GraphView, e: EntityView) -> GraphView {
    GraphView {
        entities: put(g.entities, e.id, e),
        file_index: index_with(g.file_index, e.file, e.id),
        ..g
    }
}

// ---------------------------------------------------------------------------
// Inserting into the hierarchy
// ---------------------------------------------------------------------------

/// The prefix of every hierarchy node identifier: `h:`.
pub open spec fn node_prefix() -> Seq<char> {
    seq!['h', ':']
}

/// The index of the first child at or after `from` with the given name; `-1`
/// if there is none.
pub open spec fn child_position(children: Seq<NodeView>, name: Seq<char>, from: int) -> int
    decreases children.len() - from,
{
    if from < 0 || from >= children.len() {
        -1
    } else if children[from].name == name {
        from
    } else {
        child_position(children, name, from + 1)
    }
}

/// The children with a child of the given name: as they are if there is one, a
/// new leaf with the identifier `id` appended otherwise.
pub open spec fn with_child(children: Seq<NodeView>, name: Seq<char>, id: Seq<char>) -> Seq<
    NodeView,
> {
    if child_position(children, name, 0) >= 0 {
        children
    } else {
        children.push(leaf_node(id, name))
    }
}

/// Where the child of the given name stands in `with_child`.
pub open spec fn child_index(children: Seq<NodeView>, name: Seq<char>) -> int {
    if child_position(children, name, 0) >= 0 {
        child_position(children, name, 0)
    } else {
        children.len() as int
    }
}

/// The node `n`, whose canonical identifier is `prefix`, with the entity `eid`
/// appended to the node that the segments `segs[at..]` lead to below it. Nodes
/// that are missing on the way are created, each with its canonical
/// identifier: its parent's, a `/`, and its name.
pub open spec fn placed_in(
    n: NodeView,
    segs: Seq<Seq<char>>,
    at: int,
    prefix: Seq<char>,
    eid: Seq<char>,
) -> NodeView
    decreases segs.len() - at,
{
    if at < 0 || at >= segs.len() {
        NodeView { entities: n.entities.push(eid), ..n }
    } else {
        let name = segs[at];
        let cid = prefix + seq!['/'] + name;
        let kids = with_child(n.children, name, cid);
        let j = child_index(n.children, name);
        NodeView { children: kids.update(j, placed_in(kids[j], segs, at + 1, cid, eid)), ..n }
    }
}

/// A hierarchy path without the `h:` in front of it, if it has one.
pub open spec fn bare_path(path: Seq<char>) -> Seq<char> {
    if starts_with(path, node_prefix()) {
        path.subrange(2, path.len() as int)
    } else {
        path
    }
}

/// The hierarchy with the entity `eid` appended to the node that `path` names.
/// The path, with or without `h:` in front, is split at `/`; its first
/// segment names a top-level node, found under the key `h:` followed by the
/// segment, and the rest lead down from there.
pub open spec fn hierarchy_with(
    h: Seq<(Seq<char>, NodeView)>,
    path: Seq<char>,
    eid: Seq<char>,
) -> Seq<(Seq<char>, NodeView)> {
    let segs = split_on(bare_path(path), '/');
    let key = node_prefix() + segs[0];
    let base = if has_key(h, key) {
        h
    } else {
        h.push((key, leaf_node(key, segs[0])))
    };
    let p = if has_key(h, key) {
        position(h, key)
    } else {
        h.len() as int
    };
    base.update(p, (key, placed_in(base[p].1, segs, 1, key, eid)))
}

/// A hierarchy path without the `h:` in front of it, as characters.
pub fn bare_chars(path: &str) -> (r: Vec<char>)
    ensures
        r@ == bare_path(path@),
{
    let full = chars_of(path);
    let mut prefix: Vec<char> = Vec::new();
    prefix.push('h');
    prefix.push(':');
    assert(prefix@ =~= node_prefix());
    if matches_at(&full, &prefix, 0) {
        slice_chars(&full, 2, full.len())
    } else {
        full
    }
}

proof fn lemma_split_nonempty(s: Seq<char>, sep: char)
    ensures
        split_on(s, sep).len() >= 1,
{
}

fn place_in(
    node: &mut HierarchyNode,
    segs: &Vec<Vec<char>>,
    at: usize,
    prefix: &Vec<char>,
    entity_id: &str,
)
    requires
        at <= segs.len(),
    ensures
        final(node)@ == placed_in(old(node)@, rows(segs@), at as int, prefix@, entity_id@),
    decreases segs.len() - at,
{
    proof {
        lemma_node_children(*node);
    }
    if at >= segs.len() {
        let ghost before = texts(node.entities@);
        node.entities.push(entity_id.to_owned());
        assert(texts(node.entities@) =~= before.push(entity_id@));
        proof {
            lemma_node_children(*node);
        }
        return ;
    }
    let name = &segs[at];
    let mut slash: Vec<char> = Vec::new();
    slash.push('/');
    assert(slash@ =~= seq!['/']);
    let cid = concat_chars(&concat_chars(prefix, &slash), name);
    let ghost kids0 = node_views(node.children@);
    let wanted = string_from_chars(name);
    let mut j: usize = 0;
    while j < node.children.len() && !str_eq(node.children[j].name.as_str(), wanted.as_str())
        invariant
            j <= node.children.len(),
            wanted@ == name@,
            kids0 == node_views(node.children@),
            child_position(kids0, name@, 0) == child_position(kids0, name@, j as int),
            *node == *old(node),
        decreases node.children.len() - j,
    {
        j += 1;
    }
    let found = j < node.children.len();
    proof {
        if found {
            assert(kids0[j as int].name == name@);
        }
    }
    if !found {
        let fresh = HierarchyNode {
            id: string_from_chars(&cid),
            name: string_from_chars(name),
            entities: Vec::new(),
            children: Vec::new(),
            aggregated_features: Vec::new(),
        };
        proof {
            lemma_node_children(fresh);
            assert(fresh@.children =~= Seq::empty());
            assert(fresh@.entities =~= Seq::empty());
            assert(fresh@.aggregated_features =~= Seq::empty());
            assert(fresh@ == leaf_node(cid@, name@));
        }
        node.children.push(fresh);
        assert(node_views(node.children@) =~= kids0.push(leaf_node(cid@, name@)));
    }
    let ghost kids = node_views(node.children@);
    assert(kids == with_child(kids0, name@, cid@));
    assert(j == child_index(kids0, name@));
    let ghost mid = *node;
    place_in(&mut node.children[j], segs, at + 1, &cid, entity_id);
    proof {
        lemma_node_children(*node);
        lemma_node_children(mid);
        assert(node_views(node.children@) =~= kids.update(
            j as int,
            placed_in(kids[j as int], rows(segs@), at + 1, cid@, entity_id@),
        ));
    }
}

impl RPGraph {
    /// An empty graph at the current schema version.
    pub fn new(language: &str) -> (g: Self)
        ensures
            g@ == empty_graph(language@),
    {
        let g = RPGraph {
            version: CURRENT_VERSION.to_owned(),
            created_at: String::new(),
            updated_at: String::new(),
            metadata: GraphMetadata {
                language: language.to_owned(),
                total_files: 0,
                total_entities: 0,
                functional_areas: 0,
                total_edges: 0,
                dependency_edges: 0,
                containment_edges: 0,
            },
            entities: StrMap::new(),
            edges: Vec::new(),
            hierarchy: StrMap::new(),
            file_index: StrMap::new(),
        };
        assert(g@.entities =~= Seq::empty());
        assert(g@.edges =~= Seq::empty());
        assert(g@.hierarchy =~= Seq::empty());
        assert(g@.file_index =~= Seq::empty());
        g
    }

    /// Inserts `entity` under its `id`, replacing an entity with that
    /// identifier, and lists the identifier under the entity's file unless it
    /// is listed there already.
    pub fn insert_entity(&mut self, entity: Entity)
        ensures
            final(self)@ == with_entity(old(self)@, entity@),
    {
        let id = entity.id.clone();
        let file = entity.file.clone();
        let ghost e = entity@;
        let ghost entities0 = self.entities@;
        let ghost index0 = self.file_index@;
        proof {
            lemma_entity_entries(entities0, id@);
            lemma_index_entries(index0, file@);
        }
        self.entities.insert(id.clone(), entity);
        proof {
            assert(self.entities@ == put(entities0, e.id, entity));
            lemma_position(entities0, e.id);
            assert(entity_entries(self.entities@) =~= put(entity_entries(entities0), e.id, e));
        }
        match self.file_index.position(file.as_str()) {
            Some(p) => {
                let list = self.file_index.value_at_mut(p);
                if !contains_text(list, id.as_str()) {
                    let ghost before = texts(list@);
                    list.push(id);
                    assert(texts(list@) =~= before.push(id@));
                }
                assert(index_entries(self.file_index@) =~= index_with(
                    index_entries(index0),
                    e.file,
                    e.id,
                ));
            },
            None => {
                let mut list: Vec<String> = Vec::new();
                list.push(id);
                assert(texts(list@) =~= seq![e.id]);
                self.file_index.insert(file, list);
                assert(index_entries(self.file_index@) =~= index_with(
                    index_entries(index0),
                    e.file,
                    e.id,
                ));
            },
        }
    }

    /// Appends `entity_id` to the hierarchy node that `path` names, creating
    /// the node and the nodes above it where they are missing.
    pub fn insert_into_hierarchy(&mut self, path: &str, entity_id: &str)
        ensures
            final(self)@ == (GraphView {
                hierarchy: hierarchy_with(old(self)@.hierarchy, path@, entity_id@),
                ..old(self)@
            }),
    {
        let mut prefix: Vec<char> = Vec::new();
        prefix.push('h');
        prefix.push(':');
        assert(prefix@ =~= node_prefix());
        let bare = bare_chars(path);
        let segs = split_chars(&bare, '/');
        proof {
            lemma_split_nonempty(bare@, '/');
        }
        let key_chars = concat_chars(&prefix, &segs[0]);
        let key = string_from_chars(&key_chars);
        let ghost h0 = self.hierarchy@;
        proof {
            lemma_node_entries(h0, key@);
        }
        let p = match self.hierarchy.position(key.as_str()) {
            Some(p) => p,
            None => {
                let fresh = HierarchyNode {
                    id: key.clone(),
                    name: string_from_chars(&segs[0]),
                    entities: Vec::new(),
                    children: Vec::new(),
                    aggregated_features: Vec::new(),
                };
                proof {
                    assert(fresh@.children =~= Seq::empty());
                    assert(fresh@.entities =~= Seq::empty());
                    assert(fresh@.aggregated_features =~= Seq::empty());
                }
                self.hierarchy.push_entry(key.clone(), fresh);
                self.hierarchy.len() - 1
            },
        };
        let ghost base = node_entries(self.hierarchy@);
        assert(base =~= (if has_key(node_entries(h0), key@) {
            node_entries(h0)
        } else {
            node_entries(h0).push((key@, leaf_node(key@, segs@[0]@)))
        }));
        let node = self.hierarchy.value_at_mut(p);
        place_in(node, &segs, 1, &key_chars, entity_id);
        assert(node_entries(self.hierarchy@) =~= hierarchy_with(
            node_entries(h0),
            path@,
            entity_id@,
        ));
    }
}

} // verus!
