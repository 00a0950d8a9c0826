use rpg_encoder::config::{env_override, NavigationConfig, StorageConfig};
use rpg_encoder::graph::EntityKind;
use rpg_encoder::helpers::{parse_entity_type_filter, truncate_source};
use rpg_encoder::numbers::parse_usize;
use rpg_encoder::parser::{Language, RawEntity};

#[test]
fn truncate_source_keeps_short_sources() {
    assert_eq!(truncate_source("a\nb\nc", 3), "a\nb\nc");
    assert_eq!(truncate_source("a\nb\n", 2), "a\nb\n");
    assert_eq!(truncate_source("", 0), "");
}

#[test]
fn truncate_source_cuts_and_notes() {
    assert_eq!(
        truncate_source("fn f() {\n  1\n  2\n}\n", 2),
        "fn f() {\n  1\n    // ... (2 more lines, truncated for context)"
    );
    assert_eq!(
        truncate_source("a\r\nb\r\nc", 1),
        "a\n    // ... (2 more lines, truncated for context)"
    );
    let long: String = (0..120).map(|i| format!("l{}\n", i)).collect();
    assert!(truncate_source(&long, 5).ends_with("(115 more lines, truncated for context)"));
    assert_eq!(
        truncate_source("a\nb", 0),
        "\n    // ... (2 more lines, truncated for context)"
    );
}

#[test]
fn parse_entity_type_filter_reads_names() {
    assert_eq!(
        parse_entity_type_filter("function, CLASS ,method"),
        vec![EntityKind::Function, EntityKind::Class, EntityKind::Method]
    );
    assert_eq!(
        parse_entity_type_filter("file,module,directory,,route"),
        vec![EntityKind::Module, EntityKind::Module, EntityKind::Route]
    );
    assert_eq!(parse_entity_type_filter(""), Vec::<EntityKind>::new());
    assert_eq!(
        parse_entity_type_filter(
            "page,layout,component,hook,store,controller,model,service,middleware,test"
        ),
        vec![
            EntityKind::Page,
            EntityKind::Layout,
            EntityKind::Component,
            EntityKind::Hook,
            EntityKind::Store,
            EntityKind::Controller,
            EntityKind::Model,
            EntityKind::Service,
            EntityKind::Middleware,
            EntityKind::Test
        ]
    );
}

#[test]
fn parse_usize_matches_std() {
    let cases = [
        "0", "7", "+7", "007", "18446744073709551615", "18446744073709551616", "", "+", "-1",
        " 1", "1 ", "1_000", "12a", "٣", "99999999999999999999999",
    ];
    for c in cases {
        assert_eq!(parse_usize(c), c.parse::<usize>().ok(), "case {:?}", c);
    }
}

#[test]
fn env_override_applies_numbers_and_ignores_the_rest() {
    let mut n: usize = 50;
    env_override(&mut n, Some("64"));
    assert_eq!(n, 64);
    env_override(&mut n, Some("many"));
    assert_eq!(n, 64);
    env_override(&mut n, None);
    assert_eq!(n, 64);
}

#[test]
fn config_defaults() {
    assert_eq!(NavigationConfig::default().search_result_limit, 10);
    assert!(!StorageConfig::default().compress);
    assert_eq!(rpg_encoder::config::DEFAULT_BATCH_SIZE, 50);
    assert_eq!(rpg_encoder::config::DEFAULT_MAX_BATCH_TOKENS, 8000);
    assert_eq!(rpg_encoder::config::DEFAULT_HIERARCHY_CHUNK_SIZE, 50);
    assert_eq!(rpg_encoder::config::DEFAULT_MAX_HIERARCHY_DEPTH, 3);
}

#[test]
fn language_by_extension() {
    assert_eq!(Language::of_path("src/a/b.py"), Some(Language::Python));
    assert_eq!(Language::of_path("main.rs"), Some(Language::Rust));
    assert_eq!(Language::of_path("x.test.tsx"), Some(Language::TypeScript));
    assert_eq!(Language::of_path("a.b/c"), None);
    assert_eq!(Language::of_path(".py"), None);
    assert_eq!(Language::of_path("README.md"), None);
    assert_eq!(Language::from_extension("hpp"), Some(Language::Cpp));
    assert_eq!(Language::from_extension("PY"), None);
}

#[test]
fn raw_entity_becomes_entity_shell() {
    let mut raw = RawEntity::new(r"src\auth\login.py", "validate", EntityKind::Function, 3, 9);
    raw.calls.push("check".to_string());
    raw.imports.push("src/db.py".to_string());
    assert_eq!(raw.id, "src/auth/login.py:validate");
    assert_eq!(raw.file, "src/auth/login.py");
    let e = raw.into_entity();
    assert_eq!(e.id, "src/auth/login.py:validate");
    assert_eq!(e.deps.invokes, vec!["check"]);
    assert_eq!(e.deps.imports, vec!["src/db.py"]);
    assert!(e.semantic_features.is_empty());
    assert!(e.hierarchy_path.is_empty());
    assert_eq!((e.line_start, e.line_end), (3, 9));
    let m = RawEntity::new("src/a.py", "a", EntityKind::Module, 1, 2);
    assert_eq!(m.id, "src/a.py");
}
