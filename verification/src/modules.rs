//! Module entities, one per source file, and the counts kept in the metadata.

use crate::graph::{edge_views, entity_entries, lemma_entity_entries, lemma_index_entries, with_entity, DepsView, EdgeKind, EdgeView, Entity, EntityDeps, EntityKind, EntityView, GraphView, MetadataView, RPGraph};
use crate::strmap::{has_key, keys_of, lookup, StrMap};
use crate::text::{chars_of, slice_chars, string_from_chars, texts};
use vstd::prelude::*;

verus! {

// ---------------------------------------------------------------------------
// File stems
// ---------------------------------------------------------------------------

/// The last index below `upto` at which `c` stands in `s`; `-1` if there is
/// none.
pub open spec fn last_before(s: Seq<char>, c: char, upto: int) -> int
    decreases upto,
{
    if upto <= 0 || upto > s.len() {
        -1
    } else if s[upto - 1] == c {
        upto - 1
    } else {
        last_before(s, c, upto - 1)
    }
}

/// The name of a file without its directories.
pub open spec fn file_name(path: Seq<char>) -> Seq<char> {
    path.subrange(last_before(path, '/', path.len() as int) + 1, path.len() as int)
}

/// The name of a file without its directories and without its extension. A
/// name without a dot, or whose only dot is its first character, is its own
/// stem.
pub open spec fn file_stem(path: Seq<char>) -> Seq<char> {
    let name = file_name(path);
    let dot = last_before(name, '.', name.len() as int);
    if dot > 0 {
        name.subrange(0, dot)
    } else {
        name
    }
}

fn rfind_char(v: &Vec<char>, c: char) -> (r: Option<usize>)
    ensures
        match r {
            Some(i) => i < v.len() && i == last_before(v@, c, v@.len() as int),
            None => last_before(v@, c, v@.len() as int) == -1,
        },
{
    let mut i: usize = v.len();
    while i > 0
        invariant
            i <= v.len(),
            last_before(v@, c, v@.len() as int) == last_before(v@, c, i as int),
        decreases i,
    {
        if v[i - 1] == c {
            return Some(i - 1);
        }
        i -= 1;
    }
    None
}

/// The name of a file without its directories and without its extension.
pub fn stem_of(path: &str) -> (r: String)
    ensures
        r@ == file_stem(path@),
{
    let v = chars_of(path);
    let start: usize = match rfind_char(&v, '/') {
        Some(i) => i + 1,
        None => 0,
    };
    let name = slice_chars(&v, start, v.len());
    match rfind_char(&name, '.') {
        Some(dot) => {
            if dot > 0 {
                string_from_chars(&slice_chars(&name, 0, dot))
            } else {
                string_from_chars(&name)
            }
        },
        None => string_from_chars(&name),
    }
}

// ---------------------------------------------------------------------------
// Module entities
// ---------------------------------------------------------------------------

/// Whether one of the first `upto` identifiers names an entity that is no
/// Module.
pub open spec fn has_code(
    entities: Seq<(Seq<char>, EntityView)>,
    ids: Seq<Seq<char>>,
    upto: int,
) -> bool
    decreases upto,
{
    if upto <= 0 || upto > ids.len() {
        false
    } else {
        has_code(entities, ids, upto - 1) || (has_key(entities, ids[upto - 1]) && lookup(
            entities,
            ids[upto - 1],
        ).kind != EntityKind::Module)
    }
}

/// The greatest `line_end` among the entities, other than Modules, that the
/// first `upto` identifiers name; `0` if there is none.
pub open spec fn last_line(
    entities: Seq<(Seq<char>, EntityView)>,
    ids: Seq<Seq<char>>,
    upto: int,
) -> usize
    decreases upto,
{
    if upto <= 0 || upto > ids.len() {
        0
    } else {
        let rest = last_line(entities, ids, upto - 1);
        if has_key(entities, ids[upto - 1]) && lookup(entities, ids[upto - 1]).kind
            != EntityKind::Module && lookup(entities, ids[upto - 1]).line_end > rest {
            lookup(entities, ids[upto - 1]).line_end
        } else {
            rest
        }
    }
}

/// The Module entity of a file: its identifier is the file's path, its name
/// the file's stem, and it spans the lines from 1 to `line_end`.
pub open spec fn module_entity(file: Seq<char>, line_end: usize) -> EntityView {
    EntityView {
        id: file,
        kind: EntityKind::Module,
        name: file_stem(file),
        file,
        line_start: 1,
        line_end,
        parent_class: None,
        semantic_features: Seq::empty(),
        feature_source: None,
        hierarchy_path: Seq::empty(),
        deps: DepsView { invokes: Seq::empty(), inherits: Seq::empty(), imports: Seq::empty() },
        signature: None,
    }
}

/// Whether the file still needs a Module entity: no entity has the file's
/// path as its identifier, and the file lists an entity that is no Module.
pub open spec fn needs_module(g: GraphView, file: Seq<char>) -> bool {
    &&& !has_key(g.entities, file)
    &&& has_key(g.file_index, file)
    &&& has_code(g.entities, lookup(g.file_index, file), lookup(g.file_index, file).len() as int)
}

/// The graph with a Module entity for each of the first `upto` files that
/// needs one.
pub open spec fn with_modules(g: GraphView, files: Seq<Seq<char>>, upto: int) -> GraphView
    decreases upto,
{
    if upto <= 0 || upto > files.len() {
        g
    } else {
        let prev = with_modules(g, files, upto - 1);
        let file = files[upto - 1];
        if needs_module(prev, file) {
            let ids = lookup(prev.file_index, file);
            with_entity(prev, module_entity(file, last_line(prev.entities, ids, ids.len() as int)))
        } else {
            prev
        }
    }
}

fn scan_file(entities: &StrMap<Entity>, ids: &Vec<String>) -> (r: (bool, usize))
    ensures
        r.0 == has_code(entity_entries(entities@), texts(ids@), ids@.len() as int),
        r.1 == last_line(entity_entries(entities@), texts(ids@), ids@.len() as int),
{
    let ghost ee = entity_entries(entities@);
    let mut code = false;
    let mut last: usize = 0;
    let mut j: usize = 0;
    while j < ids.len()
        invariant
            j <= ids.len(),
            ee == entity_entries(entities@),
            code == has_code(ee, texts(ids@), j as int),
            last == last_line(ee, texts(ids@), j as int),
        decreases ids.len() - j,
    {
        proof {
            lemma_entity_entries(entities@, ids@[j as int]@);
        }
        match entities.get(ids[j].as_str()) {
            Some(e) => {
                if e.kind != EntityKind::Module {
                    code = true;
                    if e.line_end > last {
                        last = e.line_end;
                    }
                }
            },
            None => {},
        }
        j += 1;
    }
    (code, last)
}

// ---------------------------------------------------------------------------
// Metadata
// ---------------------------------------------------------------------------

/// How many of the first `upto` edges are `Contains` edges.
pub open spec fn contains_count(edges: Seq<EdgeView>, upto: int) -> int
    decreases upto,
{
    if upto <= 0 || upto > edges.len() {
        0
    } else if edges[upto - 1].kind == EdgeKind::Contains {
        contains_count(edges, upto - 1) + 1
    } else {
        contains_count(edges, upto - 1)
    }
}

/// The counts that belong to the graph: files, entities, top-level hierarchy
/// nodes, edges, and the edges split into containment and dependency.
pub open spec fn counted(g: GraphView) -> MetadataView {
    MetadataView {
        language: g.metadata.language,
        total_files: g.file_index.len() as usize,
        total_entities: g.entities.len() as usize,
        functional_areas: g.hierarchy.len() as usize,
        total_edges: g.edges.len() as usize,
        dependency_edges: (g.edges.len() - contains_count(g.edges, g.edges.len() as int)) as usize,
        containment_edges: contains_count(g.edges, g.edges.len() as int) as usize,
    }
}

impl RPGraph {
    /// Gives every file that lists an entity other than a Module a Module
    /// entity of its own, unless an entity already has the file's path as its
    /// identifier. Running it again changes nothing more.
    pub fn create_module_entities(&mut self)
        ensures
            final(self)@ == with_modules(
                old(self)@,
                keys_of(old(self)@.file_index),
                old(self)@.file_index.len() as int,
            ),
    {
        let ghost g0 = self@;
        let ghost files = keys_of(g0.file_index);
        let mut names: Vec<String> = Vec::new();
        let mut k: usize = 0;
        while k < self.file_index.len()
            invariant
                k <= self.file_index@.len(),
                *self == *old(self),
                names@.len() == k,
                forall|j: int| 0 <= j < k ==> (#[trigger] names@[j])@ == self.file_index@[j].0,
            decreases self.file_index@.len() - k,
        {
            names.push(self.file_index.key_at(k).clone());
            k += 1;
        }
        assert(texts(names@) =~= files);
        let mut f: usize = 0;
        while f < names.len()
            invariant
                f <= names.len(),
                texts(names@) == files,
                self@ == with_modules(g0, files, f as int),
            decreases names.len() - f,
        {
            let file = names[f].as_str();
            proof {
                lemma_entity_entries(self.entities@, file@);
                lemma_index_entries(self.file_index@, file@);
            }
            if !self.entities.contains_key(file) {
                let found = match self.file_index.get(file) {
                    Some(ids) => Some(scan_file(&self.entities, ids)),
                    None => None,
                };
                match found {
                    Some((code, last)) => {
                        if code {
                            let module = Entity {
                                id: names[f].clone(),
                                kind: EntityKind::Module,
                                name: stem_of(file),
                                file: names[f].clone(),
                                line_start: 1,
                                line_end: last,
                                parent_class: None,
                                semantic_features: Vec::new(),
                                feature_source: None,
                                hierarchy_path: String::new(),
                                deps: EntityDeps {
                                    invokes: Vec::new(),
                                    inherits: Vec::new(),
                                    imports: Vec::new(),
                                },
                                signature: None,
                            };
                            proof {
                                assert(module@.semantic_features =~= Seq::empty());
                                assert(module@.deps.invokes =~= Seq::empty());
                                assert(module@.deps.inherits =~= Seq::empty());
                                assert(module@.deps.imports =~= Seq::empty());
                                assert(module@ == module_entity(file@, last));
                            }
                            self.insert_entity(module);
                        }
                    },
                    None => {},
                }
            }
            f += 1;
        }
    }

    /// Recounts the derived totals in the metadata.
    pub fn refresh_metadata(&mut self)
        ensures
            final(self)@ == (GraphView { metadata: counted(old(self)@), ..old(self)@ }),
    {
        let mut contains: usize = 0;
        let mut i: usize = 0;
        while i < self.edges.len()
            invariant
                i <= self.edges@.len(),
                *self == *old(self),
                contains == contains_count(edge_views(self.edges@), i as int),
                contains <= i,
            decreases self.edges@.len() - i,
        {
            match self.edges[i].kind {
                EdgeKind::Contains => {
                    contains += 1;
                },
                _ => {},
            }
            i += 1;
        }
        self.metadata.total_files = self.file_index.len();
        self.metadata.total_entities = self.entities.len();
        self.metadata.functional_areas = self.hierarchy.len();
        self.metadata.total_edges = self.edges.len();
        self.metadata.containment_edges = contains;
        self.metadata.dependency_edges = self.edges.len() - contains;
    }
}

} // verus!
