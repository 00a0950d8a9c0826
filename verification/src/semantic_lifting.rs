//! Semantic lifting: reading feature lists from model output, normalising
//! them, and attaching them to entities.
//!
//! The input format is line based: `name | feature, feature, ...`. A damaged
//! line loses that line only.

use crate::graph::{entity_entries, index_entries, lemma_entity_entries, Entity, EntityKind, EntityView, GraphView, RPGraph};
use crate::strmap::{has_key, lemma_position, lemma_position_same_keys, lookup, position, put, StrMap};
use crate::text::{append_strings, chars_of, clone_strings, concat_chars, find_char, find_sub, first_from, first_occurrence, fold_chars, folded, lemma_first_from, lemma_first_occurrence, lex_lt, lines_of, rows, slice_chars, split_chars, split_lines, split_on, starts_with, str_eq, str_lt, string_from_chars, texts, trim_chars, trimmed};
use vstd::prelude::*;

verus! {

// ---------------------------------------------------------------------------
// Think blocks
// ---------------------------------------------------------------------------

/// The tag that opens a think block: `<think>`.
pub open spec fn open_tag() -> Seq<char> {
    seq!['<', 't', 'h', 'i', 'n', 'k', '>']
}

/// The tag that closes a think block: `</think>`.
pub open spec fn close_tag() -> Seq<char> {
    seq!['<', '/', 't', 'h', 'i', 'n', 'k', '>']
}

/// The text without its think blocks. The first opening tag and everything up
/// to the end of the first closing tag after it are cut out, and the result is
/// read again from the start. An opening tag that is never closed cuts the text
/// off where it stands.
pub open spec fn strip_think(s: Seq<char>) -> Seq<char>
    decreases s.len(),
{
    let start = first_occurrence(s, open_tag(), 0);
    if start < 0 || start > s.len() {
        s
    } else {
        let off = first_occurrence(s.subrange(start, s.len() as int), close_tag(), 0);
        if off < 0 || start + off + 8 > s.len() {
            s.subrange(0, start)
        } else {
            strip_think(s.subrange(0, start) + s.subrange(start + off + 8, s.len() as int))
        }
    }
}

fn open_tag_chars() -> (r: Vec<char>)
    ensures
        r@ == open_tag(),
{
    let mut r: Vec<char> = Vec::new();
    r.push('<');
    r.push('t');
    r.push('h');
    r.push('i');
    r.push('n');
    r.push('k');
    r.push('>');
    assert(r@ =~= open_tag());
    r
}

fn close_tag_chars() -> (r: Vec<char>)
    ensures
        r@ == close_tag(),
{
    let mut r: Vec<char> = Vec::new();
    r.push('<');
    r.push('/');
    r.push('t');
    r.push('h');
    r.push('i');
    r.push('n');
    r.push('k');
    r.push('>');
    assert(r@ =~= close_tag());
    r
}

fn strip_think_chars(text: Vec<char>) -> (r: Vec<char>)
    ensures
        r@ == strip_think(text@),
{
    let open = open_tag_chars();
    let close = close_tag_chars();
    let mut result = text;
    loop
        invariant
            open@ == open_tag(),
            close@ == close_tag(),
            strip_think(result@) == strip_think(text@),
        decreases result.len(),
    {
        match find_sub(&result, &open, 0) {
            None => {
                return result;
            },
            Some(start) => {
                proof {
                    lemma_first_occurrence(result@, open@, 0);
                }
                let rest = slice_chars(&result, start, result.len());
                match find_sub(&rest, &close, 0) {
                    None => {
                        return slice_chars(&result, 0, start);
                    },
                    Some(off) => {
                        proof {
                            lemma_first_occurrence(rest@, close@, 0);
                        }
                        let head = slice_chars(&result, 0, start);
                        let tail = slice_chars(&result, start + off + 8, result.len());
                        result = concat_chars(&head, &tail);
                    },
                }
            },
        }
    }
}

/// Removes think blocks from a model's output.
pub fn strip_think_blocks(text: &str) -> (r: String)
    ensures
        r@ == strip_think(text@),
{
    let v = chars_of(text);
    let r = strip_think_chars(v);
    string_from_chars(&r)
}

// ---------------------------------------------------------------------------
// Reading records
// ---------------------------------------------------------------------------

/// The marker that opens or closes a fenced block.
pub open spec fn fence() -> Seq<char> {
    seq!['`', '`', '`']
}

/// The features among `pieces`: each piece trimmed and lowercased, the empty
/// ones left out.
pub open spec fn folded_nonempty(pieces: Seq<Seq<char>>) -> Seq<Seq<char>>
    decreases pieces.len(),
{
    if pieces.len() == 0 {
        Seq::empty()
    } else {
        let rest = folded_nonempty(pieces.drop_last());
        let f = folded(pieces.last());
        if f.len() == 0 {
            rest
        } else {
            rest.push(f)
        }
    }
}

/// The record that a line holds, if it holds one. A line holds none if, once
/// trimmed, it is empty, begins with `#` or with a code fence, has no `|`, or
/// has nothing but whitespace before its first `|`. Otherwise the name is the
/// trimmed text before the first `|`, and the features are the comma-separated
/// pieces after it.
pub open spec fn line_record(raw: Seq<char>) -> Option<(Seq<char>, Seq<Seq<char>>)> {
    let line = trimmed(raw);
    let bar = first_from(line, '|', 0);
    if line.len() == 0 || line[0] == '#' || starts_with(line, fence()) || bar < 0 || bar
        >= line.len() {
        None
    } else {
        let name = trimmed(line.subrange(0, bar));
        if name.len() == 0 {
            None
        } else {
            Some(
                (name, folded_nonempty(split_on(line.subrange(bar + 1, line.len() as int), ','))),
            )
        }
    }
}

/// The records of a sequence of lines, in the order in which their names first
/// appear; a later record for a name replaces the earlier one in place.
pub open spec fn parsed_lines(lines: Seq<Seq<char>>) -> Seq<(Seq<char>, Seq<Seq<char>>)>
    decreases lines.len(),
{
    if lines.len() == 0 {
        Seq::empty()
    } else {
        let m = parsed_lines(lines.drop_last());
        match line_record(lines.last()) {
            Some((name, feats)) => put(m, name, feats),
            None => m,
        }
    }
}

/// The features among `pieces`.
fn fold_pieces(pieces: &Vec<Vec<char>>) -> (r: Vec<String>)
    ensures
        texts(r@) == folded_nonempty(rows(pieces@)),
{
    let mut out: Vec<String> = Vec::new();
    let mut i: usize = 0;
    assert(texts(out@) =~= folded_nonempty(rows(pieces@).take(0)));
    while i < pieces.len()
        invariant
            i <= pieces.len(),
            texts(out@) == folded_nonempty(rows(pieces@).take(i as int)),
        decreases pieces.len() - i,
    {
        let f = fold_chars(&pieces[i]);
        proof {
            assert(rows(pieces@).take(i + 1).drop_last() =~= rows(pieces@).take(i as int));
            assert(rows(pieces@).take(i + 1).last() == pieces@[i as int]@);
        }
        let ghost before = texts(out@);
        if !f.as_str().is_empty() {
            out.push(f);
            assert(texts(out@) =~= before.push(f@));
        }
        i += 1;
    }
    assert(rows(pieces@).take(i as int) =~= rows(pieces@));
    out
}

/// Reads the record that a line holds, if it holds one.
pub fn parse_line(raw: &Vec<char>) -> (r: Option<(String, Vec<String>)>)
    ensures
        match r {
            Some((name, feats)) => line_record(raw@) == Some((name@, texts(feats@))),
            None => line_record(raw@) is None,
        },
{
    let line = trim_chars(raw);
    if line.len() == 0 || line[0] == '#' {
        return None;
    }
    if line.len() >= 3 && line[0] == '`' && line[1] == '`' && line[2] == '`' {
        assert(line@.subrange(0, 3) =~= fence());
        return None;
    }
    assert(!starts_with(line@, fence())) by {
        if starts_with(line@, fence()) {
            assert(line@.subrange(0, 3)[0] == '`');
            assert(line@.subrange(0, 3)[1] == '`');
            assert(line@.subrange(0, 3)[2] == '`');
        }
    }
    let bar = find_char(&line, '|', 0);
    proof {
        lemma_first_from(line@, '|', 0);
    }
    if bar >= line.len() {
        return None;
    }
    let left = slice_chars(&line, 0, bar);
    let name = trim_chars(&left);
    if name.len() == 0 {
        return None;
    }
    let right = slice_chars(&line, bar + 1, line.len());
    let pieces = split_chars(&right, ',');
    let feats = fold_pieces(&pieces);
    Some((string_from_chars(&name), feats))
}

/// Reads feature lists from line-based model output.
///
/// Think blocks are removed first. Then every line that holds a record
/// contributes it; all other lines are skipped. A name with no features is
/// still recorded, with an empty list.
pub fn parse_line_features(text: &str) -> (features: StrMap<Vec<String>>)
    ensures
        index_entries(features@) == parsed_lines(lines_of(strip_think(text@))),
{
    let stripped = strip_think_chars(chars_of(text));
    let lines = split_lines(&stripped);
    let mut features: StrMap<Vec<String>> = StrMap::new();
    let ghost all = rows(lines@);
    let mut i: usize = 0;
    assert(index_entries(features@) =~= parsed_lines(all.take(0)));
    while i < lines.len()
        invariant
            i <= lines.len(),
            all == rows(lines@),
            index_entries(features@) == parsed_lines(all.take(i as int)),
        decreases lines.len() - i,
    {
        proof {
            assert(all.take(i + 1).drop_last() =~= all.take(i as int));
            assert(all.take(i + 1).last() == lines@[i as int]@);
        }
        let ghost before = features@;
        match parse_line(&lines[i]) {
            Some((name, feats)) => {
                features.insert(name, feats);
                proof {
                    lemma_position_same_keys(before, index_entries(before), name@);
                    lemma_position(before, name@);
                    assert(index_entries(features@) =~= put(
                        index_entries(before),
                        name@,
                        texts(feats@),
                    ));
                }
            },
            None => {},
        }
        i += 1;
    }
    assert(all.take(i as int) =~= all);
    features
}

// ---------------------------------------------------------------------------
// Normalisation
// ---------------------------------------------------------------------------

/// Where `x` goes among the first `hi` texts of `s`: behind the last of them
/// that does not come after it.
pub open spec fn place(s: Seq<Seq<char>>, x: Seq<char>, hi: int) -> int
    decreases hi,
{
    if 0 < hi <= s.len() && lex_lt(x, s[hi - 1]) {
        place(s, x, hi - 1)
    } else {
        hi
    }
}

/// `s` with `x` put into its place, unless it is there already.
pub open spec fn with_text(s: Seq<Seq<char>>, x: Seq<char>) -> Seq<Seq<char>> {
    let p = place(s, x, s.len() as int);
    if p > 0 && s[p - 1] == x {
        s
    } else {
        s.insert(p, x)
    }
}

/// The texts of `raw` in increasing order, each once.
pub open spec fn sorted_set(raw: Seq<Seq<char>>) -> Seq<Seq<char>>
    decreases raw.len(),
{
    if raw.len() == 0 {
        Seq::empty()
    } else {
        with_text(sorted_set(raw.drop_last()), raw.last())
    }
}

/// The normal form of a feature list: every feature trimmed and lowercased,
/// the empty ones dropped, the rest in increasing order, each once.
pub open spec fn normal_features(raw: Seq<Seq<char>>) -> Seq<Seq<char>> {
    sorted_set(folded_nonempty(raw))
}

/// A feature map with every list in normal form.
pub open spec fn normalized_map(m: Seq<(Seq<char>, Seq<Seq<char>>)>) -> Seq<
    (Seq<char>, Seq<Seq<char>>),
> {
    Seq::new(m.len(), |i: int| (m[i].0, normal_features(m[i].1)))
}

fn insert_sorted(out: &mut Vec<String>, x: String)
    ensures
        texts(final(out)@) == with_text(texts(old(out)@), x@),
{
    let ghost s = texts(out@);
    let mut p: usize = out.len();
    while p > 0 && str_lt(x.as_str(), out[p - 1].as_str())
        invariant
            p <= out.len(),
            s == texts(out@),
            place(s, x@, s.len() as int) == place(s, x@, p as int),
        decreases p,
    {
        p -= 1;
    }
    if p > 0 && str_eq(out[p - 1].as_str(), x.as_str()) {
        return ;
    }
    out.insert(p, x);
    assert(texts(out@) =~= s.insert(p as int, x@));
}

/// The strings of `v` in increasing order, each once.
pub fn sorted_set_of(v: &Vec<String>) -> (r: Vec<String>)
    ensures
        texts(r@) == sorted_set(texts(v@)),
{
    let mut out: Vec<String> = Vec::new();
    let ghost all = texts(v@);
    let mut i: usize = 0;
    assert(texts(out@) =~= sorted_set(all.take(0)));
    while i < v.len()
        invariant
            i <= v.len(),
            all == texts(v@),
            texts(out@) == sorted_set(all.take(i as int)),
        decreases v.len() - i,
    {
        proof {
            assert(all.take(i + 1).drop_last() =~= all.take(i as int));
            assert(all.take(i + 1).last() == v@[i as int]@);
        }
        insert_sorted(&mut out, v[i].clone());
        i += 1;
    }
    assert(all.take(i as int) =~= all);
    out
}

fn fold_texts(v: &Vec<String>) -> (r: Vec<String>)
    ensures
        texts(r@) == folded_nonempty(texts(v@)),
{
    let mut out: Vec<String> = Vec::new();
    let ghost all = texts(v@);
    let mut i: usize = 0;
    assert(texts(out@) =~= folded_nonempty(all.take(0)));
    while i < v.len()
        invariant
            i <= v.len(),
            all == texts(v@),
            texts(out@) == folded_nonempty(all.take(i as int)),
        decreases v.len() - i,
    {
        let f = fold_chars(&chars_of(v[i].as_str()));
        proof {
            assert(all.take(i + 1).drop_last() =~= all.take(i as int));
            assert(all.take(i + 1).last() == v@[i as int]@);
        }
        let ghost before = texts(out@);
        if !f.as_str().is_empty() {
            out.push(f);
            assert(texts(out@) =~= before.push(f@));
        }
        i += 1;
    }
    assert(all.take(i as int) =~= all);
    out
}

/// The normal form of one feature list.
pub fn normalize_list(v: &Vec<String>) -> (r: Vec<String>)
    ensures
        texts(r@) == normal_features(texts(v@)),
{
    let folded = fold_texts(v);
    sorted_set_of(&folded)
}

/// Puts every feature list of the map into normal form: trimmed, lowercased,
/// sorted, without duplicates and without empty features. The names and their
/// order stay.
pub fn normalize_features(features: &mut StrMap<Vec<String>>)
    ensures
        index_entries(final(features)@) == normalized_map(index_entries(old(features)@)),
{
    let mut i: usize = 0;
    while i < features.len()
        invariant
            i <= features@.len(),
            features@.len() == old(features)@.len(),
            forall|j: int|
                0 <= j < i ==> (#[trigger] features@[j]).0 == old(features)@[j].0 && texts(
                    features@[j].1@,
                ) == normal_features(texts(old(features)@[j].1@)),
            forall|j: int| i <= j < features@.len() ==> features@[j] == old(features)@[j],
        decreases features@.len() - i,
    {
        let normal = normalize_list(features.value_at(i));
        features.set_value_at(i, normal);
        i += 1;
    }
    assert(index_entries(features@) =~= normalized_map(index_entries(old(features)@)));
}

// ---------------------------------------------------------------------------
// Attaching features
// ---------------------------------------------------------------------------

/// An entity with the features that the map holds under its name, if it holds
/// any; the entity as it is otherwise.
pub open spec fn with_named_features(
    e: EntityView,
    features: Seq<(Seq<char>, Seq<Seq<char>>)>,
) -> EntityView {
    if has_key(features, e.name) {
        EntityView { semantic_features: lookup(features, e.name), ..e }
    } else {
        e
    }
}

/// Gives each entity the features recorded under its name. Entities whose
/// name the map does not hold are left as they are.
pub fn apply_features(entities: &mut Vec<Entity>, features: &StrMap<Vec<String>>)
    ensures
        final(entities)@.len() == old(entities)@.len(),
        forall|i: int|
            0 <= i < old(entities)@.len() ==> (#[trigger] final(entities)@[i])@
                == with_named_features(old(entities)@[i]@, index_entries(features@)),
{
    let mut i: usize = 0;
    while i < entities.len()
        invariant
            i <= entities@.len(),
            entities@.len() == old(entities)@.len(),
            forall|j: int|
                0 <= j < i ==> (#[trigger] entities@[j])@ == with_named_features(
                    old(entities)@[j]@,
                    index_entries(features@),
                ),
            forall|j: int| i <= j < entities@.len() ==> entities@[j] == old(entities)@[j],
        decreases entities@.len() - i,
    {
        proof {
            lemma_position_same_keys(features@, index_entries(features@), entities@[i as int].name@);
            lemma_position(features@, entities@[i as int].name@);
        }
        match features.get(entities[i].name.as_str()) {
            Some(feats) => {
                let copy = clone_strings(feats);
                entities[i].semantic_features = copy;
            },
            None => {},
        }
        i += 1;
    }
}

// ---------------------------------------------------------------------------
// File-level aggregation
// ---------------------------------------------------------------------------

/// Whether `id` names an entity of kind `Module`.
pub open spec fn is_module(entities: Seq<(Seq<char>, EntityView)>, id: Seq<char>) -> bool {
    has_key(entities, id) && lookup(entities, id).kind == EntityKind::Module
}

/// The index of the first identifier at or after `from` that names a Module
/// entity; `-1` if there is none.
pub open spec fn first_module(
    entities: Seq<(Seq<char>, EntityView)>,
    ids: Seq<Seq<char>>,
    from: int,
) -> int
    decreases ids.len() - from,
{
    if from < 0 || from >= ids.len() {
        -1
    } else if is_module(entities, ids[from]) {
        from
    } else {
        first_module(entities, ids, from + 1)
    }
}

/// The features of the entities that the first `upto` identifiers name, in
/// order, leaving out the identifier `skip` and identifiers that name nothing.
pub open spec fn gathered(
    entities: Seq<(Seq<char>, EntityView)>,
    ids: Seq<Seq<char>>,
    skip: Seq<char>,
    upto: int,
) -> Seq<Seq<char>>
    decreases upto,
{
    if upto <= 0 || upto > ids.len() {
        Seq::empty()
    } else {
        let rest = gathered(entities, ids, skip, upto - 1);
        let id = ids[upto - 1];
        if id != skip && has_key(entities, id) {
            rest + lookup(entities, id).semantic_features
        } else {
            rest
        }
    }
}

/// What a file contributes: its Module entity (the first in its list) and the
/// sorted, duplicate-free features of the other entities in the list. A file
/// without a Module entity, or whose other entities carry no features,
/// contributes nothing.
pub open spec fn module_features(entities: Seq<(Seq<char>, EntityView)>, ids: Seq<Seq<char>>) -> Option<
    (Seq<char>, Seq<Seq<char>>),
> {
    let m = first_module(entities, ids, 0);
    if m < 0 || m >= ids.len() {
        None
    } else {
        let all = gathered(entities, ids, ids[m], ids.len() as int);
        if all.len() == 0 {
            None
        } else {
            Some((ids[m], sorted_set(all)))
        }
    }
}

/// The contributions of the first `upto` files of the index, in order.
pub open spec fn module_updates(
    entities: Seq<(Seq<char>, EntityView)>,
    index: Seq<(Seq<char>, Seq<Seq<char>>)>,
    upto: int,
) -> Seq<(Seq<char>, Seq<Seq<char>>)>
    decreases upto,
{
    if upto <= 0 || upto > index.len() {
        Seq::empty()
    } else {
        let rest = module_updates(entities, index, upto - 1);
        match module_features(entities, index[upto - 1].1) {
            Some(u) => rest.push(u),
            None => rest,
        }
    }
}

/// The entity map with the features of the entity `id` replaced.
pub open spec fn with_features(
    entities: Seq<(Seq<char>, EntityView)>,
    id: Seq<char>,
    feats: Seq<Seq<char>>,
) -> Seq<(Seq<char>, EntityView)> {
    if has_key(entities, id) {
        let p = position(entities, id);
        entities.update(p, (entities[p].0, EntityView { semantic_features: feats, ..entities[p].1 }))
    } else {
        entities
    }
}

/// The entity map after the first `upto` updates, applied in order.
pub open spec fn applied(
    entities: Seq<(Seq<char>, EntityView)>,
    updates: Seq<(Seq<char>, Seq<Seq<char>>)>,
    upto: int,
) -> Seq<(Seq<char>, EntityView)>
    decreases upto,
{
    if upto <= 0 || upto > updates.len() {
        entities
    } else {
        with_features(
            applied(entities, updates, upto - 1),
            updates[upto - 1].0,
            updates[upto - 1].1,
        )
    }
}

/// The graph after file-level aggregation: every contribution is worked out
/// from the graph as it was, then each Module entity gets the features that
/// its file contributes.
pub open spec fn aggregated_modules(g: GraphView) -> GraphView {
    let updates = module_updates(g.entities, g.file_index, g.file_index.len() as int);
    GraphView { entities: applied(g.entities, updates, updates.len() as int), ..g }
}

fn find_module(entities: &StrMap<Entity>, ids: &Vec<String>) -> (r: Option<usize>)
    ensures
        match r {
            Some(m) => m < ids.len() && m == first_module(
                entity_entries(entities@),
                texts(ids@),
                0,
            ),
            None => first_module(entity_entries(entities@), texts(ids@), 0) == -1,
        },
{
    let ghost ee = entity_entries(entities@);
    let mut j: usize = 0;
    while j < ids.len()
        invariant
            j <= ids.len(),
            ee == entity_entries(entities@),
            first_module(ee, texts(ids@), 0) == first_module(ee, texts(ids@), j as int),
        decreases ids.len() - j,
    {
        proof {
            lemma_entity_entries(entities@, ids@[j as int]@);
        }
        let found = match entities.get(ids[j].as_str()) {
            Some(e) => e.kind == EntityKind::Module,
            None => false,
        };
        if found {
            return Some(j);
        }
        j += 1;
    }
    None
}

fn gather(entities: &StrMap<Entity>, ids: &Vec<String>, skip: &str) -> (r: Vec<String>)
    ensures
        texts(r@) == gathered(
            entity_entries(entities@),
            texts(ids@),
            skip@,
            ids@.len() as int,
        ),
{
    let ghost ee = entity_entries(entities@);
    let mut out: Vec<String> = Vec::new();
    let mut j: usize = 0;
    assert(texts(out@) =~= gathered(ee, texts(ids@), skip@, 0));
    while j < ids.len()
        invariant
            j <= ids.len(),
            ee == entity_entries(entities@),
            texts(out@) == gathered(ee, texts(ids@), skip@, j as int),
        decreases ids.len() - j,
    {
        proof {
            lemma_entity_entries(entities@, ids@[j as int]@);
        }
        if !str_eq(ids[j].as_str(), skip) {
            match entities.get(ids[j].as_str()) {
                Some(e) => {
                    append_strings(&mut out, &e.semantic_features);
                },
                None => {},
            }
        }
        j += 1;
    }
    out
}

/// Gives each Module entity the features of the other entities of its file,
/// sorted and without duplicates. Files whose other entities carry no
/// features are skipped. Returns the number of files that contributed.
pub fn aggregate_module_features(graph: &mut RPGraph) -> (count: usize)
    ensures
        final(graph)@ == aggregated_modules(old(graph)@),
        count == module_updates(
            old(graph)@.entities,
            old(graph)@.file_index,
            old(graph)@.file_index.len() as int,
        ).len(),
{
    let ghost ee = entity_entries(graph.entities@);
    let ghost index = index_entries(graph.file_index@);
    let mut updates: StrMap<Vec<String>> = StrMap::new();
    let mut i: usize = 0;
    assert(index_entries(updates@) =~= module_updates(ee, index, 0));
    while i < graph.file_index.len()
        invariant
            i <= graph.file_index@.len(),
            ee == entity_entries(graph.entities@),
            index == index_entries(graph.file_index@),
            index_entries(updates@) == module_updates(ee, index, i as int),
            *graph == *old(graph),
        decreases graph.file_index@.len() - i,
    {
        let ids = graph.file_index.value_at(i);
        let ghost before = index_entries(updates@);
        match find_module(&graph.entities, ids) {
            Some(m) => {
                let all = gather(&graph.entities, ids, ids[m].as_str());
                if all.len() > 0 {
                    let feats = sorted_set_of(&all);
                    updates.push_entry(ids[m].clone(), feats);
                    assert(index_entries(updates@) =~= before.push(
                        (ids@[m as int]@, texts(feats@)),
                    ));
                }
            },
            None => {},
        }
        i += 1;
    }
    let count = updates.len();
    let ghost all_updates = index_entries(updates@);
    let mut u: usize = 0;
    while u < updates.len()
        invariant
            u <= updates@.len(),
            all_updates == index_entries(updates@),
            entity_entries(graph.entities@) == applied(ee, all_updates, u as int),
            graph.version == old(graph).version,
            graph.created_at == old(graph).created_at,
            graph.updated_at == old(graph).updated_at,
            graph.metadata == old(graph).metadata,
            graph.edges == old(graph).edges,
            graph.hierarchy == old(graph).hierarchy,
            graph.file_index == old(graph).file_index,
        decreases updates@.len() - u,
    {
        let ghost before = graph.entities@;
        proof {
            lemma_entity_entries(before, updates@[u as int].0);
        }
        match graph.entities.position(updates.key_at(u).as_str()) {
            Some(p) => {
                let copy = clone_strings(updates.value_at(u));
                let entity = graph.entities.value_at_mut(p);
                entity.semantic_features = copy;
                assert(entity_entries(graph.entities@) =~= with_features(
                    entity_entries(before),
                    all_updates[u as int].0,
                    all_updates[u as int].1,
                ));
            },
            None => {},
        }
        u += 1;
    }
    count
}

} // verus!
