//! Helpers for presenting source text and reading entity-kind filters.

use crate::graph::EntityKind;
use crate::numbers::{decimal, decimal_of};
use crate::text::{
    chars_of, concat_chars, fold_chars, folded, lines_of, rows, split_chars, split_lines,
    split_on, str_eq, string_from_chars,
};
use vstd::prelude::*;

verus! {

// ---------------------------------------------------------------------------
// Truncating source text
// ---------------------------------------------------------------------------

/// The first `upto` lines joined by newlines.
pub open spec fn joined(lines: Seq<Seq<char>>, upto: int) -> Seq<char>
    decreases upto,
{
    if upto <= 0 || upto > lines.len() {
        Seq::empty()
    } else if upto == 1 {
        lines[0]
    } else {
        joined(lines, upto - 1) + seq!['\n'] + lines[upto - 1]
    }
}

/// The note that stands for `more` lines left out.
pub open spec fn truncation_note(more: nat) -> Seq<char> {
    "\n    // ... ("@ + decimal_of(more) + " more lines, truncated for context)"@
}

/// The source cut down to `max_lines` lines: as it is if it has no more than
/// that; otherwise its first `max_lines` lines followed by a note that says how
/// many were left out.
pub open spec fn truncated(source: Seq<char>, max_lines: nat) -> Seq<char> {
    let lines = lines_of(source);
    if lines.len() <= max_lines {
        source
    } else {
        joined(lines, max_lines as int) + truncation_note((lines.len() - max_lines) as nat)
    }
}

/// Cuts source text down to `max_lines` lines, with a note on what was left
/// out.
pub fn truncate_source(source: &str, max_lines: usize) -> (r: String)
    ensures
        r@ == truncated(source@, max_lines as nat),
{
    let v = chars_of(source);
    let lines = split_lines(&v);
    if lines.len() <= max_lines {
        return string_from_chars(&v);
    }
    let mut out: Vec<char> = Vec::new();
    let mut newline: Vec<char> = Vec::new();
    newline.push('\n');
    assert(newline@ =~= seq!['\n']);
    let mut i: usize = 0;
    assert(out@ =~= joined(rows(lines@), 0));
    while i < max_lines
        invariant
            i <= max_lines < lines.len(),
            newline@ == seq!['\n'],
            out@ == joined(rows(lines@), i as int),
        decreases max_lines - i,
    {
        if i > 0 {
            out = concat_chars(&out, &newline);
        }
        out = concat_chars(&out, &lines[i]);
        proof {
            if i == 0 {
                assert(out@ =~= rows(lines@)[0]);
            }
        }
        i += 1;
    }
    let more = decimal(lines.len() - max_lines);
    out = concat_chars(&out, &chars_of("\n    // ... ("));
    out = concat_chars(&out, &more);
    out = concat_chars(&out, &chars_of(" more lines, truncated for context)"));
    assert(out@ =~= truncated(source@, max_lines as nat));
    string_from_chars(&out)
}

// ---------------------------------------------------------------------------
// Entity-kind filters
// ---------------------------------------------------------------------------

/// The entity kind that a lowercase name stands for. `file` stands for
/// `Module`.
pub open spec fn kind_named(name: Seq<char>) -> Option<EntityKind> {
    if name == "function"@ {
        Some(EntityKind::Function)
    } else if name == "class"@ {
        Some(EntityKind::Class)
    } else if name == "method"@ {
        Some(EntityKind::Method)
    } else if name == "page"@ {
        Some(EntityKind::Page)
    } else if name == "layout"@ {
        Some(EntityKind::Layout)
    } else if name == "component"@ {
        Some(EntityKind::Component)
    } else if name == "hook"@ {
        Some(EntityKind::Hook)
    } else if name == "store"@ {
        Some(EntityKind::Store)
    } else if name == "module"@ || name == "file"@ {
        Some(EntityKind::Module)
    } else if name == "controller"@ {
        Some(EntityKind::Controller)
    } else if name == "model"@ {
        Some(EntityKind::Model)
    } else if name == "service"@ {
        Some(EntityKind::Service)
    } else if name == "middleware"@ {
        Some(EntityKind::Middleware)
    } else if name == "route"@ {
        Some(EntityKind::Route)
    } else if name == "test"@ {
        Some(EntityKind::Test)
    } else {
        None
    }
}

/// The kinds that the pieces name, in order; a piece that names no kind is
/// left out. Each piece is trimmed and lowercased first.
pub open spec fn kinds_of(pieces: Seq<Seq<char>>) -> Seq<EntityKind>
    decreases pieces.len(),
{
    if pieces.len() == 0 {
        Seq::empty()
    } else {
        let rest = kinds_of(pieces.drop_last());
        match kind_named(folded(pieces.last())) {
            Some(k) => rest.push(k),
            None => rest,
        }
    }
}

/// The entity kind that a lowercase name stands for.
pub fn kind_by_name(name: &str) -> (r: Option<EntityKind>)
    ensures
        r == kind_named(name@),
{
    if str_eq(name, "function") {
        Some(EntityKind::Function)
    } else if str_eq(name, "class") {
        Some(EntityKind::Class)
    } else if str_eq(name, "method") {
        Some(EntityKind::Method)
    } else if str_eq(name, "page") {
        Some(EntityKind::Page)
    } else if str_eq(name, "layout") {
        Some(EntityKind::Layout)
    } else if str_eq(name, "component") {
        Some(EntityKind::Component)
    } else if str_eq(name, "hook") {
        Some(EntityKind::Hook)
    } else if str_eq(name, "store") {
        Some(EntityKind::Store)
    } else if str_eq(name, "module") || str_eq(name, "file") {
        Some(EntityKind::Module)
    } else if str_eq(name, "controller") {
        Some(EntityKind::Controller)
    } else if str_eq(name, "model") {
        Some(EntityKind::Model)
    } else if str_eq(name, "service") {
        Some(EntityKind::Service)
    } else if str_eq(name, "middleware") {
        Some(EntityKind::Middleware)
    } else if str_eq(name, "route") {
        Some(EntityKind::Route)
    } else if str_eq(name, "test") {
        Some(EntityKind::Test)
    } else {
        None
    }
}

/// Reads a comma-separated list of entity kinds. Names are matched without
/// regard to case or surrounding whitespace; unknown names are skipped.
pub fn parse_entity_type_filter(filter: &str) -> (kinds: Vec<EntityKind>)
    ensures
        kinds@ == kinds_of(split_on(filter@, ',')),
{
    let pieces = split_chars(&chars_of(filter), ',');
    let mut kinds: Vec<EntityKind> = Vec::new();
    let ghost all = rows(pieces@);
    let mut i: usize = 0;
    assert(kinds@ =~= kinds_of(all.take(0)));
    while i < pieces.len()
        invariant
            i <= pieces.len(),
            all == rows(pieces@),
            kinds@ == kinds_of(all.take(i as int)),
        decreases pieces.len() - i,
    {
        proof {
            assert(all.take(i + 1).drop_last() =~= all.take(i as int));
            assert(all.take(i + 1).last() == pieces@[i as int]@);
        }
        let name = fold_chars(&pieces[i]);
        match kind_by_name(name.as_str()) {
            Some(k) => {
                kinds.push(k);
            },
            None => {},
        }
        i += 1;
    }
    assert(all.take(i as int) =~= all);
    kinds
}

} // verus!
