//! The front end's data: languages by file extension, and raw entities as an
//! extractor hands them over.

use crate::graph::{DepsView, Entity, EntityDeps, EntityKind, EntityView};
use crate::modules::{file_name, last_before};
use crate::schema::canonical;
use crate::text::{
    chars_of, concat_chars, opt_text, replace_char, slice_chars, str_eq, string_from_chars, texts,
};
use vstd::prelude::*;

verus! {

/// A supported source language.
#[derive(Clone, Copy, Debug, PartialEq, Eq, Hash, Structural)]
pub enum Language {
    Python,
    Rust,
    TypeScript,
    JavaScript,
    Go,
    Java,
    C,
    Cpp,
}

/// The language that a file extension stands for.
pub open spec fn language_named(ext: Seq<char>) -> Option<Language> {
    if ext == "py"@ {
        Some(Language::Python)
    } else if ext == "rs"@ {
        Some(Language::Rust)
    } else if ext == "ts"@ || ext == "tsx"@ {
        Some(Language::TypeScript)
    } else if ext == "js"@ || ext == "jsx"@ {
        Some(Language::JavaScript)
    } else if ext == "go"@ {
        Some(Language::Go)
    } else if ext == "java"@ {
        Some(Language::Java)
    } else if ext == "c"@ || ext == "h"@ {
        Some(Language::C)
    } else if ext == "cpp"@ || ext == "cc"@ || ext == "cxx"@ || ext == "hpp"@ {
        Some(Language::Cpp)
    } else {
        None
    }
}

/// The extension of a file: what follows the last dot of its name, if the
/// name has a dot that is not its first character.
pub open spec fn extension_of(path: Seq<char>) -> Option<Seq<char>> {
    let name = file_name(path);
    let dot = last_before(name, '.', name.len() as int);
    if dot > 0 {
        Some(name.subrange(dot + 1, name.len() as int))
    } else {
        None
    }
}

/// The language of a file, by its extension.
pub open spec fn language_of(path: Seq<char>) -> Option<Language> {
    match extension_of(path) {
        Some(ext) => language_named(ext),
        None => None,
    }
}

impl Language {
    /// The language that a file extension stands for.
    pub fn from_extension(ext: &str) -> (r: Option<Language>)
        ensures
            r == language_named(ext@),
    {
        if str_eq(ext, "py") {
            Some(Language::Python)
        } else if str_eq(ext, "rs") {
            Some(Language::Rust)
        } else if str_eq(ext, "ts") || str_eq(ext, "tsx") {
            Some(Language::TypeScript)
        } else if str_eq(ext, "js") || str_eq(ext, "jsx") {
            Some(Language::JavaScript)
        } else if str_eq(ext, "go") {
            Some(Language::Go)
        } else if str_eq(ext, "java") {
            Some(Language::Java)
        } else if str_eq(ext, "c") || str_eq(ext, "h") {
            Some(Language::C)
        } else if str_eq(ext, "cpp") || str_eq(ext, "cc") || str_eq(ext, "cxx") || str_eq(
            ext,
            "hpp",
        ) {
            Some(Language::Cpp)
        } else {
            None
        }
    }

    /// The language of a file, by its extension; `None` for a file that is
    /// to be skipped.
    pub fn of_path(path: &str) -> (r: Option<Language>)
        ensures
            r == language_of(path@),
    {
        let v = chars_of(path);
        let mut start: usize = v.len();
        while start > 0 && v[start - 1] != '/'
            invariant
                start <= v.len(),
                last_before(v@, '/', v@.len() as int) == last_before(v@, '/', start as int),
            decreases start,
        {
            start -= 1;
        }
        let name = slice_chars(&v, start, v.len());
        let mut dot: usize = name.len();
        while dot > 0 && name[dot - 1] != '.'
            invariant
                dot <= name.len(),
                last_before(name@, '.', name@.len() as int) == last_before(
                    name@,
                    '.',
                    dot as int,
                ),
            decreases dot,
        {
            dot -= 1;
        }
        if dot > 1 {
            let ext = string_from_chars(&slice_chars(&name, dot, name.len()));
            Language::from_extension(ext.as_str())
        } else {
            None
        }
    }
}

/// The canonical identifier of an entity: the file's path with forward
/// slashes for a Module; the path, a colon and the name for anything else.
pub open spec fn canonical_id(file: Seq<char>, name: Seq<char>, kind: EntityKind) -> Seq<char> {
    if kind == EntityKind::Module {
        canonical(file)
    } else {
        canonical(file) + seq![':'] + name
    }
}

/// Assembles the canonical identifier of an entity.
pub fn make_id(file: &str, name: &str, kind: EntityKind) -> (r: String)
    ensures
        r@ == canonical_id(file@, name@, kind),
{
    let path = replace_char(file, '\\', '/');
    match kind {
        EntityKind::Module => path,
        _ => {
            let mut colon: Vec<char> = Vec::new();
            colon.push(':');
            assert(colon@ =~= seq![':']);
            string_from_chars(
                &concat_chars(&concat_chars(&chars_of(path.as_str()), &colon), &chars_of(name)),
            )
        },
    }
}

/// An entity as an extractor found it, with the names it depends on as they
/// stand in the source.
#[derive(Debug, PartialEq, Eq)]
pub struct RawEntity {
    pub id: String,
    pub kind: EntityKind,
    pub name: String,
    pub file: String,
    pub line_start: usize,
    pub line_end: usize,
    pub parent_class: Option<String>,
    pub signature: Option<String>,
    pub calls: Vec<String>,
    pub inherits: Vec<String>,
    pub imports: Vec<String>,
}

/// The entity that a raw entity becomes: the same unit, with its raw
/// dependencies, no features and no hierarchy path yet.
pub open spec fn entity_shell(r: RawEntity) -> EntityView {
    EntityView {
        id: r.id@,
        kind: r.kind,
        name: r.name@,
        file: r.file@,
        line_start: r.line_start,
        line_end: r.line_end,
        parent_class: opt_text(r.parent_class),
        semantic_features: Seq::empty(),
        feature_source: None,
        hierarchy_path: Seq::empty(),
        deps: DepsView {
            invokes: texts(r.calls@),
            inherits: texts(r.inherits@),
            imports: texts(r.imports@),
        },
        signature: opt_text(r.signature),
    }
}

impl RawEntity {
    /// A raw entity with its canonical identifier and no dependencies.
    pub fn new(file: &str, name: &str, kind: EntityKind, line_start: usize, line_end: usize) -> (r:
        Self)
        ensures
            r.id@ == canonical_id(file@, name@, kind),
            r.kind == kind,
            r.name@ == name@,
            r.file@ == canonical(file@),
            r.line_start == line_start,
            r.line_end == line_end,
            r.parent_class is None,
            r.signature is None,
            r.calls@.len() == 0,
            r.inherits@.len() == 0,
            r.imports@.len() == 0,
    {
        RawEntity {
            id: make_id(file, name, kind),
            kind,
            name: name.to_owned(),
            file: replace_char(file, '\\', '/'),
            line_start,
            line_end,
            parent_class: None,
            signature: None,
            calls: Vec::new(),
            inherits: Vec::new(),
            imports: Vec::new(),
        }
    }

    /// The entity that this raw entity becomes.
    pub fn into_entity(self) -> (e: Entity)
        ensures
            e@ == entity_shell(self),
    {
        let e = Entity {
            id: self.id,
            kind: self.kind,
            name: self.name,
            file: self.file,
            line_start: self.line_start,
            line_end: self.line_end,
            parent_class: self.parent_class,
            semantic_features: Vec::new(),
            feature_source: None,
            hierarchy_path: String::new(),
            deps: EntityDeps { invokes: self.calls, inherits: self.inherits, imports: self.imports },
            signature: self.signature,
        };
        assert(e@.semantic_features =~= Seq::empty());
        e
    }
}

} // verus!
