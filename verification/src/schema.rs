//! Schema versions: the compatibility check, forward migrations, and the
//! canonical edge order used when a graph is written out.

use crate::graph::{
    edge_views, entity_entries, index_entries, lemma_node_children, node_entries, DependencyEdge,
    EdgeKind, EdgeView, Entity, EntityView, GraphView, HierarchyNode, NodeView, RPGraph,
    CURRENT_VERSION,
};
use crate::strmap::{
    has_key, lemma_position, lemma_position_same_keys, lemma_push, lemma_put, lookup, position,
    put, StrMap,
};
use crate::text::{
    lemma_lex_total, lemma_lex_transitive, lex_lt, replace_char, replaced, str_eq, str_lt, texts,
};
use vstd::prelude::*;

verus! {

// ---------------------------------------------------------------------------
// Identifier normalisation
// ---------------------------------------------------------------------------

/// The canonical spelling of an identifier: every backslash becomes a forward
/// slash.
pub open spec fn canonical(id: Seq<char>) -> Seq<char> {
    replaced(id, '\\', '/')
}

/// The entity map rebuilt under canonical keys: entries are taken in order,
/// each entity gets its canonical key as its `id`, and an entry whose
/// canonical key is already present overwrites the earlier one in place.
pub open spec fn rekeyed(entries: Seq<(Seq<char>, EntityView)>) -> Seq<(Seq<char>, EntityView)>
    decreases entries.len(),
{
    if entries.len() == 0 {
        Seq::empty()
    } else {
        let last = entries.last();
        let k = canonical(last.0);
        put(rekeyed(entries.drop_last()), k, EntityView { id: k, ..last.1 })
    }
}

/// Whether some key of the entity map is not canonical.
pub open spec fn any_rekeyed(entries: Seq<(Seq<char>, EntityView)>) -> bool {
    exists|i: int| 0 <= i < entries.len() && canonical((#[trigger] entries[i]).0) != entries[i].0
}

/// What a reference becomes: the canonical spelling if it named an entity,
/// itself otherwise.
pub open spec fn remapped(entries: Seq<(Seq<char>, EntityView)>, id: Seq<char>) -> Seq<char> {
    if has_key(entries, id) {
        canonical(id)
    } else {
        id
    }
}

/// A list of references, each remapped.
pub open spec fn remapped_list(entries: Seq<(Seq<char>, EntityView)>, ids: Seq<Seq<char>>) -> Seq<
    Seq<char>,
> {
    Seq::new(ids.len(), |i: int| remapped(entries, ids[i]))
}

/// An edge with both endpoints remapped.
pub open spec fn remapped_edge(entries: Seq<(Seq<char>, EntityView)>, e: EdgeView) -> EdgeView {
    EdgeView {
        source: remapped(entries, e.source),
        target: remapped(entries, e.target),
        kind: e.kind,
    }
}

/// A hierarchy node with the entity lists of its whole subtree remapped.
pub open spec fn remapped_node(entries: Seq<(Seq<char>, EntityView)>, n: NodeView) -> NodeView
    decreases n,
{
    NodeView {
        entities: remapped_list(entries, n.entities),
        children: Seq::new(
            n.children.len(),
            |i: int|
                if 0 <= i < n.children.len() {
                    remapped_node(entries, n.children[i])
                } else {
                    n
                },
        ),
        ..n
    }
}

/// The graph after identifier normalisation. The entity map is always rebuilt;
/// the references in the file index, the edges and the hierarchy are rewritten
/// only if some key changed.
pub open spec fn normalized_ids(g: GraphView) -> GraphView {
    if any_rekeyed(g.entities) {
        GraphView {
            entities: rekeyed(g.entities),
            file_index: Seq::new(
                g.file_index.len(),
                |i: int| (g.file_index[i].0, remapped_list(g.entities, g.file_index[i].1)),
            ),
            edges: Seq::new(g.edges.len(), |i: int| remapped_edge(g.entities, g.edges[i])),
            hierarchy: Seq::new(
                g.hierarchy.len(),
                |i: int| (g.hierarchy[i].0, remapped_node(g.entities, g.hierarchy[i].1)),
            ),
            ..g
        }
    } else {
        GraphView { entities: rekeyed(g.entities), ..g }
    }
}

/// What the rename table turns a reference into.
pub open spec fn renamed(remap: Seq<(Seq<char>, String)>, id: Seq<char>) -> Seq<char> {
    if has_key(remap, id) {
        lookup(remap, id)@
    } else {
        id
    }
}

/// The rename table renames exactly as `remapped` says.
pub open spec fn agrees(remap: Seq<(Seq<char>, String)>, entries: Seq<(Seq<char>, EntityView)>) -> bool {
    forall|id: Seq<char>| #[trigger] renamed(remap, id) == remapped(entries, id)
}

fn remap_id(s: &mut String, remap: &StrMap<String>)
    ensures
        final(s)@ == renamed(remap@, old(s)@),
{
    let found: Option<String> = match remap.get(s.as_str()) {
        Some(n) => Some(n.clone()),
        None => None,
    };
    match found {
        Some(n) => {
            *s = n;
        },
        None => {},
    }
}

fn remap_list(list: &mut Vec<String>, remap: &StrMap<String>)
    ensures
        final(list)@.len() == old(list)@.len(),
        forall|j: int|
            0 <= j < old(list)@.len() ==> (#[trigger] final(list)@[j])@ == renamed(
                remap@,
                old(list)@[j]@,
            ),
{
    let mut i: usize = 0;
    while i < list.len()
        invariant
            i <= list.len(),
            list@.len() == old(list)@.len(),
            forall|j: int| 0 <= j < i ==> (#[trigger] list@[j])@ == renamed(remap@, old(list)@[j]@),
            forall|j: int| i <= j < list@.len() ==> list@[j] == old(list)@[j],
        decreases list.len() - i,
    {
        remap_id(&mut list[i], remap);
        i += 1;
    }
}

fn remap_node(
    node: &mut HierarchyNode,
    remap: &StrMap<String>,
    Ghost(entries): Ghost<Seq<(Seq<char>, EntityView)>>,
)
    requires
        agrees(remap@, entries),
    ensures
        final(node)@ == remapped_node(entries, old(node)@),
    decreases *old(node),
{
    remap_list(&mut node.entities, remap);
    let mut i: usize = 0;
    while i < node.children.len()
        invariant
            agrees(remap@, entries),
            i <= node.children.len(),
            node.id == old(node).id,
            node.name == old(node).name,
            node.aggregated_features == old(node).aggregated_features,
            texts(node.entities@) == remapped_list(entries, texts(old(node).entities@)),
            node.children@.len() == old(node).children@.len(),
            forall|j: int|
                0 <= j < i ==> (#[trigger] node.children@[j])@ == remapped_node(
                    entries,
                    old(node).children@[j]@,
                ),
            forall|j: int| i <= j < node.children@.len() ==> node.children@[j] == old(
                node,
            ).children@[j],
        decreases node.children.len() - i,
    {
        remap_node(&mut node.children[i], remap, Ghost(entries));
        i += 1;
    }
    proof {
        lemma_node_children(*node);
        lemma_node_children(*old(node));
        assert(node@.children =~= remapped_node(entries, old(node)@).children);
    }
}

/// Rewrites entity identifiers from backslash paths to forward-slash paths.
///
/// Every entity is re-inserted under the canonical spelling of its key, which
/// also becomes its `id`. If any key changed, every reference to a changed
/// key in the file index, in the edges and in the hierarchy is rewritten too.
pub fn migrate_normalize_entity_ids(graph: &mut RPGraph)
    ensures
        final(graph)@ == normalized_ids(old(graph)@),
{
    let mut previous: StrMap<Entity> = StrMap::new();
    std::mem::swap(&mut graph.entities, &mut previous);
    let ghost entries = entity_entries(previous@);
    assert(entries == old(graph)@.entities);
    let mut remap: StrMap<String> = StrMap::new();
    let mut changed = false;
    let mut i: usize = 0;
    assert(entity_entries(graph.entities@) =~= rekeyed(entries.take(0)));
    proof {
        assert forall|id: Seq<char>| !(#[trigger] has_key(remap@, id)) by {
            lemma_position(remap@, id);
        }
        assert forall|id: Seq<char>| !(#[trigger] has_key(entries.take(0), id)) by {
            lemma_position(entries.take(0), id);
        }
    }
    while i < previous.len()
        invariant
            i <= previous@.len(),
            entries == entity_entries(previous@),
            entity_entries(graph.entities@) == rekeyed(entries.take(i as int)),
            changed == any_rekeyed(entries.take(i as int)),
            forall|id: Seq<char>| #[trigger]
                has_key(remap@, id) == (has_key(entries.take(i as int), id) && canonical(id) != id),
            forall|id: Seq<char>| #[trigger] has_key(remap@, id) ==> lookup(remap@, id)@ == canonical(id),
            graph.version == old(graph).version,
            graph.created_at == old(graph).created_at,
            graph.updated_at == old(graph).updated_at,
            graph.metadata == old(graph).metadata,
            graph.edges == old(graph).edges,
            graph.hierarchy == old(graph).hierarchy,
            graph.file_index == old(graph).file_index,
        decreases previous@.len() - i,
    {
        let key = previous.key_at(i);
        let new_key = replace_char(key.as_str(), '\\', '/');
        let mut entity = previous.value_at(i).clone();
        entity.id = new_key.clone();
        let ghost before = entries.take(i as int);
        let ghost after = entries.take(i + 1);
        let ghost remap_before = remap@;
        let ghost map_before = graph.entities@;
        proof {
            assert(after.drop_last() =~= before);
            assert(after.last() == entries[i as int]);
            assert(entity@ == (EntityView { id: canonical(key@), ..entries[i as int].1 }));
            assert(after =~= before.push(entries[i as int]));
        }
        let differs = !str_eq(key.as_str(), new_key.as_str());
        if differs {
            remap.insert(key.clone(), new_key.clone());
            changed = true;
        }
        graph.entities.insert(new_key, entity);
        proof {
            assert(entity_entries(graph.entities@) =~= rekeyed(after)) by {
                let k = canonical(key@);
                lemma_position_same_keys(map_before, rekeyed(before), k);
                lemma_position(map_before, k);
            }
            assert forall|id: Seq<char>| #[trigger]
                has_key(remap@, id) == (has_key(after, id) && canonical(id) != id) by {
                lemma_push(before, entries[i as int], id);
                if differs {
                    lemma_put(remap_before, key@, new_key, id);
                }
            }
            assert forall|id: Seq<char>| #[trigger] has_key(remap@, id) implies lookup(remap@, id)@
                == canonical(id) by {
                if differs {
                    lemma_put(remap_before, key@, new_key, id);
                }
            }
            if any_rekeyed(before) {
                let w = choose|j: int|
                    0 <= j < before.len() && canonical((#[trigger] before[j]).0) != before[j].0;
                assert(after[w] == before[w]);
            }
            if differs {
                assert(canonical(after[i as int].0) != after[i as int].0);
            }
            if any_rekeyed(after) {
                let w = choose|j: int|
                    0 <= j < after.len() && canonical((#[trigger] after[j]).0) != after[j].0;
                if w < i {
                    assert(before[w] == after[w]);
                }
            }
        }
        i += 1;
    }
    assert(entries.take(i as int) =~= entries);
    if !changed {
        return ;
    }
    proof {
        assert forall|id: Seq<char>| #[trigger] renamed(remap@, id) == remapped(entries, id) by {}
    }

    let mut f: usize = 0;
    while f < graph.file_index.len()
        invariant
            agrees(remap@, entries),
            f <= graph.file_index@.len(),
            graph.file_index@.len() == old(graph).file_index@.len(),
            forall|j: int|
                0 <= j < f ==> (#[trigger] graph.file_index@[j]).0 == old(graph).file_index@[j].0
                    && texts(graph.file_index@[j].1@) == remapped_list(
                    entries,
                    texts(old(graph).file_index@[j].1@),
                ),
            forall|j: int|
                f <= j < graph.file_index@.len() ==> graph.file_index@[j] == old(
                    graph,
                ).file_index@[j],
            entity_entries(graph.entities@) == rekeyed(entries),
            graph.version == old(graph).version,
            graph.created_at == old(graph).created_at,
            graph.updated_at == old(graph).updated_at,
            graph.metadata == old(graph).metadata,
            graph.edges == old(graph).edges,
            graph.hierarchy == old(graph).hierarchy,
        decreases graph.file_index@.len() - f,
    {
        let list = graph.file_index.value_at_mut(f);
        let ghost was = *list;
        remap_list(list, &remap);
        assert(texts(graph.file_index@[f as int].1@) =~= remapped_list(entries, texts(was@)));
        f += 1;
    }

    let mut e: usize = 0;
    while e < graph.edges.len()
        invariant
            agrees(remap@, entries),
            e <= graph.edges@.len(),
            graph.edges@.len() == old(graph).edges@.len(),
            forall|j: int|
                0 <= j < e ==> (#[trigger] graph.edges@[j])@ == remapped_edge(
                    entries,
                    old(graph).edges@[j]@,
                ),
            forall|j: int| e <= j < graph.edges@.len() ==> graph.edges@[j] == old(graph).edges@[j],
            entity_entries(graph.entities@) == rekeyed(entries),
            index_entries(graph.file_index@) == normalized_ids(old(graph)@).file_index,
            graph.version == old(graph).version,
            graph.created_at == old(graph).created_at,
            graph.updated_at == old(graph).updated_at,
            graph.metadata == old(graph).metadata,
            graph.hierarchy == old(graph).hierarchy,
        decreases graph.edges@.len() - e,
    {
        remap_id(&mut graph.edges[e].source, &remap);
        remap_id(&mut graph.edges[e].target, &remap);
        e += 1;
    }

    let mut h: usize = 0;
    while h < graph.hierarchy.len()
        invariant
            agrees(remap@, entries),
            h <= graph.hierarchy@.len(),
            graph.hierarchy@.len() == old(graph).hierarchy@.len(),
            forall|j: int|
                0 <= j < h ==> (#[trigger] graph.hierarchy@[j]).0 == old(graph).hierarchy@[j].0
                    && graph.hierarchy@[j].1@ == remapped_node(
                    entries,
                    old(graph).hierarchy@[j].1@,
                ),
            forall|j: int|
                h <= j < graph.hierarchy@.len() ==> graph.hierarchy@[j] == old(
                    graph,
                ).hierarchy@[j],
            entity_entries(graph.entities@) == rekeyed(entries),
            index_entries(graph.file_index@) == normalized_ids(old(graph)@).file_index,
            edge_views(graph.edges@) == normalized_ids(old(graph)@).edges,
            graph.version == old(graph).version,
            graph.created_at == old(graph).created_at,
            graph.updated_at == old(graph).updated_at,
            graph.metadata == old(graph).metadata,
        decreases graph.hierarchy@.len() - h,
    {
        let node = graph.hierarchy.value_at_mut(h);
        remap_node(node, &remap, Ghost(entries));
        h += 1;
    }
    assert(node_entries(graph.hierarchy@) =~= normalized_ids(old(graph)@).hierarchy);
}

// ---------------------------------------------------------------------------
// Versions
// ---------------------------------------------------------------------------

/// The major number of `CURRENT_VERSION`.
pub const CURRENT_MAJOR: u64 = 2;

/// The minor number of `CURRENT_VERSION`.
pub const CURRENT_MINOR: u64 = 2;

/// The patch number of `CURRENT_VERSION`.
pub const CURRENT_PATCH: u64 = 0;

/// Why a graph's version was not accepted.
#[derive(Clone, Copy, Debug, PartialEq, Eq, Structural)]
pub enum SchemaError {
    /// The version string is not a semantic version.
    VersionUnparseable,
    /// The version's major number is not the current one.
    VersionIncompatible,
}

/// A semantic version, as plain values.
#[derive(Debug, PartialEq, Eq)]
pub struct SemVer {
    pub major: u64,
    pub minor: u64,
    pub patch: u64,
    /// The pre-release identifiers, without the leading `-`; empty for a release.
    pub pre: String,
    /// The build metadata, without the leading `+`; empty if there is none.
    pub build: String,
}

pub struct SemVerView {
    pub major: u64,
    pub minor: u64,
    pub patch: u64,
    pub pre: Seq<char>,
    pub build: Seq<char>,
}

impl View for SemVer {
    type V = SemVerView;

    open spec fn view(&self) -> SemVerView {
        SemVerView {
            major: self.major,
            minor: self.minor,
            patch: self.patch,
            pre: self.pre@,
            build: self.build@,
        }
    }
}

/// The error that `semver::Version::parse` reports, carried as an opaque
/// value.
#[verifier::external_type_specification]
#[verifier::external_body]
pub struct ExSemverError(semver::Error);

/// What `semver::Version::parse` makes of a text: the version it reads, or
/// `None` where it reports an error.
pub uninterp spec fn parsed_semver(text: Seq<char>) -> Option<SemVerView>;

/// Trusted: `semver::Version::parse` is a function of the text alone. On
/// success the fields of the `Version` are handed over one for one, the
/// pre-release and build parts as the text that `as_str` gives; on failure the
/// crate's error is returned.
#[verifier::external_body]
fn parse_semver(text: &str) -> (r: Result<SemVer, semver::Error>)
    ensures
        match r {
            Ok(v) => parsed_semver(text@) == Some(v@),
            Err(_) => parsed_semver(text@) is None,
        },
{
    match semver::Version::parse(text) {
        Ok(v) => Ok(
            SemVer {
                major: v.major,
                minor: v.minor,
                patch: v.patch,
                pre: v.pre.as_str().to_string(),
                build: v.build.as_str().to_string(),
            },
        ),
        Err(e) => Err(e),
    }
}

/// Reads a semantic version from `text`.
pub fn parse_version(text: &str) -> (r: Result<SemVer, SchemaError>)
    ensures
        match r {
            Ok(v) => parsed_semver(text@) == Some(v@),
            Err(e) => e == SchemaError::VersionUnparseable && parsed_semver(text@) is None,
        },
{
    match parse_semver(text) {
        Ok(v) => Ok(v),
        Err(_) => Err(SchemaError::VersionUnparseable),
    }
}

/// Whether `v` comes before the release `major.minor.patch` in semantic-version
/// precedence: its numbers are smaller, or they are the same and `v` is a
/// pre-release. Build metadata never puts a version before a release.
pub open spec fn precedes_release(v: SemVerView, major: u64, minor: u64, patch: u64) -> bool {
    v.major < major || (v.major == major && (v.minor < minor || (v.minor == minor && (v.patch
        < patch || (v.patch == patch && v.pre.len() > 0)))))
}

impl SemVer {
    /// Whether this version comes before the release `major.minor.patch`.
    pub fn precedes_release(&self, major: u64, minor: u64, patch: u64) -> (b: bool)
        ensures
            b == precedes_release(self@, major, minor, patch),
    {
        if self.major != major {
            self.major < major
        } else if self.minor != minor {
            self.minor < minor
        } else if self.patch != patch {
            self.patch < patch
        } else {
            !self.pre.as_str().is_empty()
        }
    }
}

/// The verdict on a parsed version: accepted exactly when it parsed and its
/// major number is the current one.
pub open spec fn version_verdict(found: Option<SemVerView>) -> Result<(), SchemaError> {
    match found {
        None => Err(SchemaError::VersionUnparseable),
        Some(v) => if v.major == CURRENT_MAJOR {
            Ok(())
        } else {
            Err(SchemaError::VersionIncompatible)
        },
    }
}

/// Accepts a version whose major number is the current one.
pub fn check_major(found: &SemVer) -> (r: Result<(), SchemaError>)
    ensures
        r == version_verdict(Some(found@)),
{
    if found.major == CURRENT_MAJOR {
        Ok(())
    } else {
        Err(SchemaError::VersionIncompatible)
    }
}

/// Checks that the graph's schema version is compatible with this library:
/// any version with the current major number is.
pub fn validate_version(graph: &RPGraph) -> (r: Result<(), SchemaError>)
    ensures
        r == version_verdict(parsed_semver(graph.version@)),
{
    match parse_version(graph.version.as_str()) {
        Ok(found) => check_major(&found),
        Err(e) => Err(e),
    }
}

/// The graph after the forward migrations that a graph of version `found`
/// needs: none if `found` is not older than the current version; otherwise
/// identifier normalisation (for versions before 2.2.0) and the current
/// version string.
pub open spec fn migrated_from(g: GraphView, found: SemVerView) -> GraphView {
    if precedes_release(found, CURRENT_MAJOR, CURRENT_MINOR, CURRENT_PATCH) {
        let h = if precedes_release(found, 2, 2, 0) {
            normalized_ids(g)
        } else {
            g
        };
        GraphView { version: CURRENT_VERSION@, ..h }
    } else {
        g
    }
}

/// The graph after `migrate`, given what its version string parses to.
pub open spec fn migrated(g: GraphView, found: Option<SemVerView>) -> GraphView {
    match found {
        Some(v) => migrated_from(g, v),
        None => g,
    }
}

/// Applies the forward migrations that a graph of version `found` needs.
pub fn migrate_from(graph: &mut RPGraph, found: &SemVer)
    ensures
        final(graph)@ == migrated_from(old(graph)@, found@),
{
    if found.precedes_release(CURRENT_MAJOR, CURRENT_MINOR, CURRENT_PATCH) {
        if found.precedes_release(2, 2, 0) {
            migrate_normalize_entity_ids(graph);
        }
        graph.version = CURRENT_VERSION.to_owned();
    }
}

/// Brings the graph up to the current schema version. Fails, leaving the
/// graph as it is, exactly when its version string does not parse.
pub fn migrate(graph: &mut RPGraph) -> (r: Result<(), SchemaError>)
    ensures
        r == (match parsed_semver(old(graph).version@) {
            Some(_) => Ok::<(), SchemaError>(()),
            None => Err(SchemaError::VersionUnparseable),
        }),
        final(graph)@ == migrated(old(graph)@, parsed_semver(old(graph).version@)),
{
    match parse_version(graph.version.as_str()) {
        Ok(found) => {
            migrate_from(graph, &found);
            Ok(())
        },
        Err(e) => Err(e),
    }
}

/// Validates the version of a freshly read graph, then migrates it. The graph
/// is left as it is if the version is rejected.
pub fn check_and_migrate(graph: &mut RPGraph) -> (r: Result<(), SchemaError>)
    ensures
        r == version_verdict(parsed_semver(old(graph).version@)),
        final(graph)@ == (if r is Ok {
            migrated(old(graph)@, parsed_semver(old(graph).version@))
        } else {
            old(graph)@
        }),
{
    match parse_version(graph.version.as_str()) {
        Ok(found) => match check_major(&found) {
            Ok(()) => {
                migrate_from(graph, &found);
                Ok(())
            },
            Err(e) => Err(e),
        },
        Err(e) => Err(e),
    }
}

// ---------------------------------------------------------------------------
// What migration guarantees
// ---------------------------------------------------------------------------

/// Canonical spelling is stable: it holds no backslash, so spelling it again
/// changes nothing.
pub proof fn lemma_canonical_fixed(id: Seq<char>)
    ensures
        canonical(canonical(id)) == canonical(id),
        clean(canonical(id)),
        clean(id) ==> canonical(id) == id,
{
    assert(canonical(canonical(id)) =~= canonical(id));
    if clean(id) {
        assert(canonical(id) =~= id);
    }
}

/// The rebuilt entity map holds no key twice, every key is canonical, and
/// every entity's `id` is its key.
pub proof fn lemma_rekeyed_shape(m: Seq<(Seq<char>, EntityView)>)
    ensures
        crate::strmap::distinct_keys(rekeyed(m)),
        forall|i: int|
            0 <= i < rekeyed(m).len() ==> canonical((#[trigger] rekeyed(m)[i]).0) == rekeyed(m)[i].0
                && rekeyed(m)[i].1.id == rekeyed(m)[i].0,
    decreases m.len(),
{
    if m.len() > 0 {
        let r0 = rekeyed(m.drop_last());
        lemma_rekeyed_shape(m.drop_last());
        let k = canonical(m.last().0);
        let e = EntityView { id: k, ..m.last().1 };
        lemma_put(r0, k, e, k);
        lemma_position(r0, k);
        lemma_canonical_fixed(m.last().0);
        let r = rekeyed(m);
        assert forall|i: int| 0 <= i < r.len() implies canonical((#[trigger] r[i]).0) == r[i].0
            && r[i].1.id == r[i].0 by {
            if has_key(r0, k) {
                if i != position(r0, k) {
                    assert(r[i] == r0[i]);
                }
            } else {
                if i < r0.len() {
                    assert(r[i] == r0[i]);
                }
            }
        }
    }
}

/// A map that is already in the shape that rebuilding gives is left as it is.
pub proof fn lemma_rekeyed_fixed(m: Seq<(Seq<char>, EntityView)>)
    requires
        crate::strmap::distinct_keys(m),
        forall|i: int|
            0 <= i < m.len() ==> canonical((#[trigger] m[i]).0) == m[i].0 && m[i].1.id == m[i].0,
    ensures
        rekeyed(m) == m,
        !any_rekeyed(m),
    decreases m.len(),
{
    if m.len() > 0 {
        let m0 = m.drop_last();
        assert forall|i: int| 0 <= i < m0.len() implies canonical((#[trigger] m0[i]).0) == m0[i].0
            && m0[i].1.id == m0[i].0 by {
            assert(m0[i] == m[i]);
        }
        assert(crate::strmap::distinct_keys(m0)) by {
            assert forall|i: int, j: int| 0 <= i < j < m0.len() implies m0[i].0 != m0[j].0 by {
                assert(m0[i] == m[i] && m0[j] == m[j]);
            }
        }
        lemma_rekeyed_fixed(m0);
        let k = canonical(m.last().0);
        assert(m.last() == m[m.len() - 1]);
        assert(k == m.last().0);
        let e = EntityView { id: k, ..m.last().1 };
        assert(e == m.last().1);
        crate::strmap::lemma_absent(m0, k);
        assert forall|j: int| 0 <= j < m0.len() implies m0[j].0 != k by {
            assert(m0[j] == m[j]);
        }
        assert(rekeyed(m) =~= m);
    } else {
        assert(rekeyed(m) =~= m);
    }
}

/// Normalising identifiers twice gives what normalising once gives.
pub proof fn lemma_normalized_ids_idempotent(g: GraphView)
    ensures
        normalized_ids(normalized_ids(g)) == normalized_ids(g),
{
    let g1 = normalized_ids(g);
    assert(g1.entities == rekeyed(g.entities));
    lemma_rekeyed_shape(g.entities);
    lemma_rekeyed_fixed(g1.entities);
}

/// Migrating a migrated graph changes nothing: whatever the version string of
/// the migrated graph parses to, a second `migrate` leaves the graph as the
/// first one left it.
pub proof fn lemma_migrate_idempotent(g: GraphView)
    ensures
        ({
            let once = migrated(g, parsed_semver(g.version));
            migrated(once, parsed_semver(once.version)) == once
        }),
{
    let once = migrated(g, parsed_semver(g.version));
    match parsed_semver(g.version) {
        Some(v) => {
            if precedes_release(v, CURRENT_MAJOR, CURRENT_MINOR, CURRENT_PATCH) {
                let h = normalized_ids(g);
                assert(once == GraphView { version: CURRENT_VERSION@, ..h });
                lemma_normalized_ids_idempotent(g);
                lemma_rekeyed_shape(g.entities);
                lemma_rekeyed_fixed(h.entities);
                assert(normalized_ids(once) == once);
            }
        },
        None => {},
    }
}

/// A graph whose version is not older than the current one is left as it
/// is, so reading back what was written at the current version changes
/// nothing; a graph that is migrated carries the current version afterwards.
pub proof fn lemma_migration_by_version(g: GraphView, found: SemVerView)
    ensures
        !precedes_release(found, CURRENT_MAJOR, CURRENT_MINOR, CURRENT_PATCH) ==> migrated_from(
            g,
            found,
        ) == g,
        precedes_release(found, CURRENT_MAJOR, CURRENT_MINOR, CURRENT_PATCH) ==> migrated_from(
            g,
            found,
        ).version == CURRENT_VERSION@,
{
}

/// A text that holds no backslash.
pub open spec fn clean(s: Seq<char>) -> bool {
    forall|i: int| 0 <= i < s.len() ==> s[i] != '\\'
}

/// A list of texts none of which holds a backslash.
pub open spec fn all_clean(l: Seq<Seq<char>>) -> bool {
    forall|i: int| 0 <= i < l.len() ==> clean(#[trigger] l[i])
}

/// No entity list in the subtree holds a backslash.
pub open spec fn node_clean(n: NodeView) -> bool
    decreases n,
{
    &&& all_clean(n.entities)
    &&& forall|i: int| 0 <= i < n.children.len() ==> node_clean(#[trigger] n.children[i])
}

/// A list of references each of which is clean or names an entity.
pub open spec fn all_resolvable(entities: Seq<(Seq<char>, EntityView)>, l: Seq<Seq<char>>) -> bool {
    forall|i: int| 0 <= i < l.len() ==> clean(#[trigger] l[i]) || has_key(entities, l[i])
}

/// Every reference in the subtree is clean or names an entity.
pub open spec fn node_resolvable(entities: Seq<(Seq<char>, EntityView)>, n: NodeView) -> bool
    decreases n,
{
    &&& all_resolvable(entities, n.entities)
    &&& forall|i: int|
        0 <= i < n.children.len() ==> node_resolvable(entities, #[trigger] n.children[i])
}

/// Every reference that holds a backslash names an entity.
pub open spec fn references_resolvable(g: GraphView) -> bool {
    &&& forall|i: int|
        0 <= i < g.file_index.len() ==> all_resolvable(g.entities, (#[trigger] g.file_index[i]).1)
    &&& forall|i: int|
        0 <= i < g.edges.len() ==> (clean((#[trigger] g.edges[i]).source) || has_key(
            g.entities,
            g.edges[i].source,
        )) && (clean(g.edges[i].target) || has_key(g.entities, g.edges[i].target))
    &&& forall|i: int|
        0 <= i < g.hierarchy.len() ==> node_resolvable(g.entities, (#[trigger] g.hierarchy[i]).1)
}

/// No entity key, entity `id`, file-index entry, edge endpoint or hierarchy
/// entity reference holds a backslash.
pub open spec fn ids_canonical(g: GraphView) -> bool {
    &&& forall|i: int|
        0 <= i < g.entities.len() ==> clean((#[trigger] g.entities[i]).0) && clean(
            g.entities[i].1.id,
        )
    &&& forall|i: int| 0 <= i < g.file_index.len() ==> all_clean((#[trigger] g.file_index[i]).1)
    &&& forall|i: int|
        0 <= i < g.edges.len() ==> clean((#[trigger] g.edges[i]).source) && clean(
            g.edges[i].target,
        )
    &&& forall|i: int| 0 <= i < g.hierarchy.len() ==> node_clean((#[trigger] g.hierarchy[i]).1)
}

proof fn lemma_key_clean(entities: Seq<(Seq<char>, EntityView)>, id: Seq<char>)
    requires
        !any_rekeyed(entities),
        has_key(entities, id),
    ensures
        clean(id),
{
    lemma_position(entities, id);
    let p = position(entities, id);
    assert(canonical(entities[p].0) == entities[p].0);
    lemma_canonical_fixed(id);
}

proof fn lemma_list_clean(entities: Seq<(Seq<char>, EntityView)>, l: Seq<Seq<char>>)
    requires
        all_resolvable(entities, l),
    ensures
        all_clean(remapped_list(entities, l)),
        !any_rekeyed(entities) ==> all_clean(l),
{
    assert forall|i: int| 0 <= i < l.len() implies clean(#[trigger] remapped_list(entities, l)[i]) by {
        lemma_canonical_fixed(l[i]);
        assert(clean(l[i]) || has_key(entities, l[i]));
    }
    if !any_rekeyed(entities) {
        assert forall|i: int| 0 <= i < l.len() implies clean(#[trigger] l[i]) by {
            if !clean(l[i]) {
                lemma_key_clean(entities, l[i]);
            }
        }
    }
}

proof fn lemma_node_clean(entities: Seq<(Seq<char>, EntityView)>, n: NodeView)
    requires
        node_resolvable(entities, n),
    ensures
        node_clean(remapped_node(entities, n)),
        !any_rekeyed(entities) ==> node_clean(n),
    decreases n,
{
    lemma_list_clean(entities, n.entities);
    let r = remapped_node(entities, n);
    assert forall|i: int| 0 <= i < r.children.len() implies node_clean(#[trigger] r.children[i]) by {
        lemma_node_clean(entities, n.children[i]);
    }
    if !any_rekeyed(entities) {
        assert forall|i: int| 0 <= i < n.children.len() implies node_clean(
            #[trigger] n.children[i],
        ) by {
            lemma_node_clean(entities, n.children[i]);
        }
    }
}

/// After identifier normalisation no identifier holds a backslash, provided
/// that every reference that held one named an entity.
pub proof fn lemma_normalized_ids_canonical(g: GraphView)
    requires
        references_resolvable(g),
    ensures
        ids_canonical(normalized_ids(g)),
{
    let n = normalized_ids(g);
    lemma_rekeyed_shape(g.entities);
    assert forall|i: int| 0 <= i < n.entities.len() implies clean((#[trigger] n.entities[i]).0)
        && clean(n.entities[i].1.id) by {
        lemma_canonical_fixed(n.entities[i].0);
    }
    assert forall|i: int| 0 <= i < n.file_index.len() implies all_clean(
        (#[trigger] n.file_index[i]).1,
    ) by {
        lemma_list_clean(g.entities, g.file_index[i].1);
    }
    assert forall|i: int| 0 <= i < n.edges.len() implies clean((#[trigger] n.edges[i]).source)
        && clean(n.edges[i].target) by {
        let e = g.edges[i];
        lemma_canonical_fixed(e.source);
        lemma_canonical_fixed(e.target);
        if !any_rekeyed(g.entities) {
            if !clean(e.source) {
                lemma_key_clean(g.entities, e.source);
            }
            if !clean(e.target) {
                lemma_key_clean(g.entities, e.target);
            }
        }
    }
    assert forall|i: int| 0 <= i < n.hierarchy.len() implies node_clean(
        (#[trigger] n.hierarchy[i]).1,
    ) by {
        lemma_node_clean(g.entities, g.hierarchy[i].1);
    }
}

// ---------------------------------------------------------------------------
// Canonical edge order
// ---------------------------------------------------------------------------

/// The place of an edge kind in the edge order.
pub open spec fn kind_rank(k: EdgeKind) -> int {
    match k {
        EdgeKind::Invokes => 0,
        EdgeKind::Inherits => 1,
        EdgeKind::Imports => 2,
        EdgeKind::Contains => 3,
    }
}

/// Whether `a` comes strictly before `b`: by source, then by target, then by
/// kind.
pub open spec fn edge_lt(a: EdgeView, b: EdgeView) -> bool {
    lex_lt(a.source, b.source) || (a.source == b.source && (lex_lt(a.target, b.target) || (a.target
        == b.target && kind_rank(a.kind) < kind_rank(b.kind))))
}

/// No edge comes strictly before an earlier one.
pub open spec fn edges_sorted(s: Seq<EdgeView>) -> bool {
    forall|i: int, j: int| 0 <= i < j < s.len() ==> !edge_lt(s[j], s[i])
}

/// Where `e` goes among the first `hi` edges of `s`: behind the last of them
/// that does not come after it.
pub open spec fn insertion_point(s: Seq<EdgeView>, e: EdgeView, hi: int) -> int
    decreases hi,
{
    if 0 < hi <= s.len() && edge_lt(e, s[hi - 1]) {
        insertion_point(s, e, hi - 1)
    } else {
        hi
    }
}

/// The edges in order: each edge of `s` in turn is put into its place among
/// the ones before it.
pub open spec fn sorted_edges(s: Seq<EdgeView>) -> Seq<EdgeView>
    decreases s.len(),
{
    if s.len() == 0 {
        Seq::empty()
    } else {
        let prior = sorted_edges(s.drop_last());
        prior.insert(insertion_point(prior, s.last(), prior.len() as int), s.last())
    }
}

/// Of two different edges exactly one comes first.
pub proof fn lemma_edge_total(a: EdgeView, b: EdgeView)
    ensures
        a == b || edge_lt(a, b) || edge_lt(b, a),
        !(edge_lt(a, b) && edge_lt(b, a)),
        !edge_lt(a, a),
{
    lemma_lex_total(a.source, b.source);
    lemma_lex_total(a.target, b.target);
    lemma_lex_total(a.source, a.source);
    lemma_lex_total(a.target, a.target);
}

/// The edge order is transitive.
pub proof fn lemma_edge_transitive(a: EdgeView, b: EdgeView, c: EdgeView)
    requires
        edge_lt(a, b),
        edge_lt(b, c),
    ensures
        edge_lt(a, c),
{
    lemma_lex_total(a.source, b.source);
    lemma_lex_total(b.source, c.source);
    lemma_lex_total(a.target, b.target);
    lemma_lex_total(b.target, c.target);
    if lex_lt(a.source, b.source) && lex_lt(b.source, c.source) {
        lemma_lex_transitive(a.source, b.source, c.source);
    }
    if lex_lt(a.target, b.target) && lex_lt(b.target, c.target) {
        lemma_lex_transitive(a.target, b.target, c.target);
    }
}

proof fn lemma_insertion_point(s: Seq<EdgeView>, e: EdgeView, hi: int)
    requires
        0 <= hi <= s.len(),
    ensures
        0 <= insertion_point(s, e, hi) <= hi,
        forall|k: int| insertion_point(s, e, hi) <= k < hi ==> edge_lt(e, s[k]),
        insertion_point(s, e, hi) > 0 ==> !edge_lt(e, s[insertion_point(s, e, hi) - 1]),
    decreases hi,
{
    if 0 < hi && edge_lt(e, s[hi - 1]) {
        lemma_insertion_point(s, e, hi - 1);
    }
}

/// `sorted_edges` gives a sorted sequence of the same length.
pub proof fn lemma_sorted_edges_sorted(s: Seq<EdgeView>)
    ensures
        edges_sorted(sorted_edges(s)),
        sorted_edges(s).len() == s.len(),
    decreases s.len(),
{
    if s.len() > 0 {
        let prior = sorted_edges(s.drop_last());
        lemma_sorted_edges_sorted(s.drop_last());
        let e = s.last();
        let p = insertion_point(prior, e, prior.len() as int);
        lemma_insertion_point(prior, e, prior.len() as int);
        let r = prior.insert(p, e);
        assert forall|i: int, j: int| 0 <= i < j < r.len() implies !edge_lt(r[j], r[i]) by {
            if j < p {
                assert(r[i] == prior[i] && r[j] == prior[j]);
            } else if j == p {
                assert(r[i] == prior[i]);
                if edge_lt(e, prior[i]) {
                    lemma_edge_total(e, prior[p - 1]);
                    if e != prior[p - 1] {
                        lemma_edge_transitive(prior[p - 1], e, prior[i]);
                    }
                    if i < p - 1 {
                        assert(!edge_lt(prior[p - 1], prior[i]));
                    } else {
                        lemma_edge_total(prior[i], prior[i]);
                    }
                }
            } else if i == p {
                assert(r[j] == prior[j - 1]);
                lemma_edge_total(e, prior[j - 1]);
            } else if i > p {
                assert(r[i] == prior[i - 1] && r[j] == prior[j - 1]);
            } else {
                assert(r[i] == prior[i] && r[j] == prior[j - 1]);
            }
        }
    }
}

/// Sorting leaves a sorted sequence as it is.
pub proof fn lemma_sorted_edges_fixed(s: Seq<EdgeView>)
    requires
        edges_sorted(s),
    ensures
        sorted_edges(s) == s,
    decreases s.len(),
{
    if s.len() > 0 {
        let s0 = s.drop_last();
        assert(edges_sorted(s0)) by {
            assert forall|i: int, j: int| 0 <= i < j < s0.len() implies !edge_lt(s0[j], s0[i]) by {
                assert(s0[i] == s[i] && s0[j] == s[j]);
            }
        }
        lemma_sorted_edges_fixed(s0);
        let e = s.last();
        if s0.len() > 0 {
            assert(s0[s0.len() - 1] == s[s.len() - 2]);
            assert(!edge_lt(s[s.len() - 1], s[s.len() - 2]));
        }
        assert(insertion_point(s0, e, s0.len() as int) == s0.len());
        assert(s0.insert(s0.len() as int, e) =~= s);
    } else {
        assert(sorted_edges(s) =~= s);
    }
}

/// Sorting edges is idempotent.
pub proof fn lemma_sort_idempotent(s: Seq<EdgeView>)
    ensures
        sorted_edges(sorted_edges(s)) == sorted_edges(s),
{
    lemma_sorted_edges_sorted(s);
    lemma_sorted_edges_fixed(sorted_edges(s));
}

fn rank_of(k: EdgeKind) -> (r: u8)
    ensures
        r == kind_rank(k),
{
    match k {
        EdgeKind::Invokes => 0,
        EdgeKind::Inherits => 1,
        EdgeKind::Imports => 2,
        EdgeKind::Contains => 3,
    }
}

/// Whether `a` comes strictly before `b` in the edge order.
pub fn edge_before(a: &DependencyEdge, b: &DependencyEdge) -> (r: bool)
    ensures
        r == edge_lt(a@, b@),
{
    if str_lt(a.source.as_str(), b.source.as_str()) {
        true
    } else if !str_eq(a.source.as_str(), b.source.as_str()) {
        false
    } else if str_lt(a.target.as_str(), b.target.as_str()) {
        true
    } else if !str_eq(a.target.as_str(), b.target.as_str()) {
        false
    } else {
        rank_of(a.kind) < rank_of(b.kind)
    }
}

/// Sorts the edges by source, target and kind.
pub fn sort_edges(edges: &mut Vec<DependencyEdge>)
    ensures
        edge_views(final(edges)@) == sorted_edges(edge_views(old(edges)@)),
{
    let mut out: Vec<DependencyEdge> = Vec::new();
    let ghost all = edge_views(edges@);
    let mut i: usize = 0;
    assert(edge_views(out@) =~= sorted_edges(all.take(0)));
    while i < edges.len()
        invariant
            i <= edges.len(),
            all == edge_views(edges@),
            edge_views(out@) == sorted_edges(all.take(i as int)),
        decreases edges.len() - i,
    {
        let e = edges[i].clone();
        let ghost prior = edge_views(out@);
        let mut p: usize = out.len();
        while p > 0 && edge_before(&e, &out[p - 1])
            invariant
                p <= out.len(),
                prior == edge_views(out@),
                insertion_point(prior, e@, prior.len() as int) == insertion_point(
                    prior,
                    e@,
                    p as int,
                ),
            decreases p,
        {
            p -= 1;
        }
        out.insert(p, e);
        proof {
            assert(all.take(i + 1).drop_last() =~= all.take(i as int));
            assert(all.take(i + 1).last() == e@);
            assert(edge_views(out@) =~= prior.insert(p as int, e@));
        }
        i += 1;
    }
    assert(all.take(i as int) =~= all);
    *edges = out;
}

/// A copy of the graph as it is written out: the same graph, its edges
/// sorted by source, target and kind.
pub fn sorted_for_output(graph: &RPGraph) -> (r: RPGraph)
    ensures
        r@ == (GraphView { edges: sorted_edges(graph@.edges), ..graph@ }),
{
    let mut copy = graph.clone();
    copy.sort_edges();
    copy
}

impl RPGraph {
    /// Puts the edges into the order in which they are written out: by
    /// source, target and kind. Nothing else changes.
    pub fn sort_edges(&mut self)
        ensures
            final(self)@ == (GraphView { edges: sorted_edges(old(self)@.edges), ..old(self)@ }),
    {
        sort_edges(&mut self.edges);
    }
}

} // verus!
