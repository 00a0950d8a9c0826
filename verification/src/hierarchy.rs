//! Structure reorganisation: applying hierarchy assignments to the graph.

use crate::graph::{entity_entries, hierarchy_with, lemma_entity_entries, lemma_index_entries, Entity, EntityKind, EntityView, GraphView, RPGraph};
use crate::strmap::{has_key, lookup, position, StrMap};
use crate::text::{clone_strings, opt_text, str_eq, texts};
use vstd::prelude::*;

verus! {

/// How many of the first `upto` entities have the given name.
pub open spec fn name_count(
    entities: Seq<(Seq<char>, EntityView)>,
    name: Seq<char>,
    upto: int,
) -> int
    decreases upto,
{
    if upto <= 0 || upto > entities.len() {
        0
    } else if entities[upto - 1].1.name == name {
        name_count(entities, name, upto - 1) + 1
    } else {
        name_count(entities, name, upto - 1)
    }
}

/// The index of the first entity at or after `from` with the given name; `-1`
/// if there is none.
pub open spec fn name_first(
    entities: Seq<(Seq<char>, EntityView)>,
    name: Seq<char>,
    from: int,
) -> int
    decreases entities.len() - from,
{
    if from < 0 || from >= entities.len() {
        -1
    } else if entities[from].1.name == name {
        from
    } else {
        name_first(entities, name, from + 1)
    }
}

/// The entity that an assignment key stands for: the entity with that
/// identifier if there is one; otherwise the entity with that name if exactly
/// one has it; otherwise none.
pub open spec fn resolved(entities: Seq<(Seq<char>, EntityView)>, key: Seq<char>) -> Option<
    Seq<char>,
> {
    if has_key(entities, key) {
        Some(key)
    } else if name_count(entities, key, entities.len() as int) == 1 && 0 <= name_first(
        entities,
        key,
        0,
    ) < entities.len() {
        Some(entities[name_first(entities, key, 0)].0)
    } else {
        None
    }
}

/// The entity map with the hierarchy path of the entity `id` replaced.
pub open spec fn with_path(
    entities: Seq<(Seq<char>, EntityView)>,
    id: Seq<char>,
    path: Seq<char>,
) -> Seq<(Seq<char>, EntityView)> {
    if has_key(entities, id) {
        let p = position(entities, id);
        entities.update(p, (entities[p].0, EntityView { hierarchy_path: path, ..entities[p].1 }))
    } else {
        entities
    }
}

/// The graph with `id` assigned to `path`: the entity, if there is one, gets
/// the path, and the identifier is appended to the node that the path names.
pub open spec fn assigned(g: GraphView, id: Seq<char>, path: Seq<char>) -> GraphView {
    GraphView {
        entities: with_path(g.entities, id, path),
        hierarchy: hierarchy_with(g.hierarchy, path, id),
        ..g
    }
}

/// The graph with the first `upto` of `ids` assigned to `path`, in order.
pub open spec fn assigned_all(
    g: GraphView,
    ids: Seq<Seq<char>>,
    path: Seq<char>,
    upto: int,
) -> GraphView
    decreases upto,
{
    if upto <= 0 || upto > ids.len() {
        g
    } else {
        assigned(assigned_all(g, ids, path, upto - 1), ids[upto - 1], path)
    }
}

/// The identifiers listed in the file index under the file of the entity `id`.
pub open spec fn siblings(g: GraphView, id: Seq<char>) -> Seq<Seq<char>> {
    let file = lookup(g.entities, id).file;
    if has_key(g.file_index, file) {
        lookup(g.file_index, file)
    } else {
        Seq::empty()
    }
}

/// The graph after one assignment. A key that stands for no entity changes
/// nothing. A key that stands for a Module entity assigns every identifier
/// listed under the module's file; any other key assigns its entity alone.
pub open spec fn assignment_applied(g: GraphView, key: Seq<char>, path: Seq<char>) -> GraphView {
    match resolved(g.entities, key) {
        None => g,
        Some(id) => if lookup(g.entities, id).kind == EntityKind::Module {
            assigned_all(g, siblings(g, id), path, siblings(g, id).len() as int)
        } else {
            assigned(g, id, path)
        },
    }
}

/// The graph after the first `upto` assignments, applied in order.
pub open spec fn hierarchy_applied(
    g: GraphView,
    assignments: Seq<(Seq<char>, Seq<char>)>,
    upto: int,
) -> GraphView
    decreases upto,
{
    if upto <= 0 || upto > assignments.len() {
        g
    } else {
        assignment_applied(
            hierarchy_applied(g, assignments, upto - 1),
            assignments[upto - 1].0,
            assignments[upto - 1].1,
        )
    }
}

/// The entries of a map of strings, each value by its characters.
pub open spec fn text_entries(m: Seq<(Seq<char>, String)>) -> Seq<(Seq<char>, Seq<char>)> {
    Seq::new(m.len(), |i: int| (m[i].0, m[i].1@))
}

/// Finds the entity that an assignment key stands for.
pub fn resolve(entities: &StrMap<Entity>, key: &str) -> (r: Option<String>)
    ensures
        opt_text(r) == resolved(entity_entries(entities@), key@),
{
    let ghost ee = entity_entries(entities@);
    proof {
        lemma_entity_entries(entities@, key@);
    }
    if entities.contains_key(key) {
        return Some(key.to_owned());
    }
    let mut count: usize = 0;
    let mut first: usize = 0;
    let mut i: usize = 0;
    while i < entities.len()
        invariant
            i <= entities@.len(),
            ee == entity_entries(entities@),
            count == name_count(ee, key@, i as int),
            count <= i,
            count == 0 ==> name_first(ee, key@, 0) == name_first(ee, key@, i as int),
            count > 0 ==> first == name_first(ee, key@, 0) && first < i,
        decreases entities@.len() - i,
    {
        if str_eq(entities.value_at(i).name.as_str(), key) {
            if count == 0 {
                first = i;
            }
            count += 1;
        }
        i += 1;
    }
    if count == 1 {
        Some(entities.key_at(first).clone())
    } else {
        None
    }
}

/// Assigns the identifier `id` to `path`.
pub fn assign(graph: &mut RPGraph, id: &str, path: &str)
    ensures
        final(graph)@ == assigned(old(graph)@, id@, path@),
{
    let ghost before = graph.entities@;
    proof {
        lemma_entity_entries(before, id@);
    }
    match graph.entities.position(id) {
        Some(p) => {
            let entity = graph.entities.value_at_mut(p);
            entity.hierarchy_path = path.to_owned();
            assert(entity_entries(graph.entities@) =~= with_path(
                entity_entries(before),
                id@,
                path@,
            ));
        },
        None => {},
    }
    graph.insert_into_hierarchy(path, id);
}

/// Applies one assignment.
pub fn apply_assignment(graph: &mut RPGraph, key: &str, path: &str)
    ensures
        final(graph)@ == assignment_applied(old(graph)@, key@, path@),
{
    match resolve(&graph.entities, key) {
        None => {},
        Some(id) => {
            proof {
                lemma_entity_entries(graph.entities@, id@);
            }
            let module_file: Option<String> = match graph.entities.get(id.as_str()) {
                Some(e) => if e.kind == EntityKind::Module {
                    Some(e.file.clone())
                } else {
                    None
                },
                None => None,
            };
            match module_file {
                Some(file) => {
                    proof {
                        lemma_index_entries(graph.file_index@, file@);
                    }
                    let ids: Vec<String> = match graph.file_index.get(file.as_str()) {
                        Some(list) => clone_strings(list),
                        None => Vec::new(),
                    };
                    assert(texts(ids@) =~= siblings(old(graph)@, id@));
                    let mut i: usize = 0;
                    while i < ids.len()
                        invariant
                            i <= ids.len(),
                            graph@ == assigned_all(old(graph)@, texts(ids@), path@, i as int),
                        decreases ids.len() - i,
                    {
                        assign(graph, ids[i].as_str(), path);
                        i += 1;
                    }
                },
                None => {
                    // a resolved key always names an entity
                    assert(has_key(entity_entries(graph.entities@), id@)) by {
                        crate::strmap::lemma_position(entity_entries(graph.entities@), key@);
                        lemma_name_first(entity_entries(graph.entities@), key@, 0);
                        crate::strmap::lemma_position(entity_entries(graph.entities@), id@);
                    }
                    assign(graph, id.as_str(), path);
                },
            }
        },
    }
}

proof fn lemma_name_first(entities: Seq<(Seq<char>, EntityView)>, name: Seq<char>, from: int)
    requires
        0 <= from <= entities.len(),
    ensures
        name_first(entities, name, from) == -1 || (from <= name_first(entities, name, from)
            < entities.len() && entities[name_first(entities, name, from)].1.name == name),
    decreases entities.len() - from,
{
    if from < entities.len() && entities[from].1.name != name {
        lemma_name_first(entities, name, from + 1);
    }
}

/// Applies hierarchy assignments to the graph, in the order of the map.
///
/// A key may be an entity identifier or a bare name; a name counts only if
/// exactly one entity has it. A path assigned to a Module entity is handed on
/// to every entity of the module's file.
pub fn apply_hierarchy(graph: &mut RPGraph, assignments: &StrMap<String>)
    ensures
        final(graph)@ == hierarchy_applied(
            old(graph)@,
            text_entries(assignments@),
            assignments@.len() as int,
        ),
{
    let mut i: usize = 0;
    while i < assignments.len()
        invariant
            i <= assignments@.len(),
            graph@ == hierarchy_applied(old(graph)@, text_entries(assignments@), i as int),
        decreases assignments@.len() - i,
    {
        apply_assignment(graph, assignments.key_at(i).as_str(), assignments.value_at(i).as_str());
        i += 1;
    }
}

} // verus!
