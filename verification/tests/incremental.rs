use rpg_encoder::evolution::{apply_deletions, apply_renames};
use rpg_encoder::graph::{EdgeKind, EntityKind, RPGraph};
use rpg_encoder::grounding::{ground_hierarchy, resolve_dependencies};
use rpg_encoder::parser::RawEntity;

/// A small extractor for these tests: top-level `def` and `class` statements of a
/// Python source, with the names called inside each one.
fn extract_entities(path: &str, source: &str) -> Vec<RawEntity> {
    let lines: Vec<&str> = source.lines().collect();
    let mut found: Vec<RawEntity> = Vec::new();
    let mut i = 0;
    while i < lines.len() {
        let line = lines[i];
        let (kind, rest) = if let Some(rest) = line.strip_prefix("def ") {
            (EntityKind::Function, rest)
        } else if let Some(rest) = line.strip_prefix("class ") {
            (EntityKind::Class, rest)
        } else {
            i += 1;
            continue;
        };
        let name: String =
            rest.chars().take_while(|c| c.is_alphanumeric() || *c == '_').collect();
        let mut end = i + 1;
        while end < lines.len()
            && (lines[end].starts_with(' ') || lines[end].trim().is_empty())
        {
            end += 1;
        }
        let mut raw = RawEntity::new(path, &name, kind, i + 1, end);
        for body in &lines[i + 1..end] {
            let mut word = String::new();
            for c in body.chars() {
                if c.is_alphanumeric() || c == '_' {
                    word.push(c);
                } else {
                    if c == '(' && !word.is_empty() && !raw.calls.contains(&word) {
                        raw.calls.push(word.clone());
                    }
                    word.clear();
                }
            }
        }
        found.push(raw);
        i = end;
    }
    found
}

fn fixture_files() -> Vec<(String, String)> {
    vec![
        (
            "src/models.py".to_string(),
            "class User:\n    def __init__(self, name):\n        self.name = name\n\nclass Session:\n    pass\n\ndef make_user(name):\n    return User(name)\n".to_string(),
        ),
        (
            "src/auth/login.py".to_string(),
            "def validate(user, password):\n    return check_password(user, password)\n\ndef check_password(user, password):\n    return hash_password(password) == user.hash\n\ndef login(name, password):\n    user = make_user(name)\n    return validate(user, password)\n".to_string(),
        ),
        (
            "src/auth/crypto.py".to_string(),
            "def hash_password(password):\n    return password[::-1]\n".to_string(),
        ),
        (
            "src/utils/config.py".to_string(),
            "def load_config(path):\n    return parse_toml(open(path).read())\n\ndef parse_toml(content):\n    return {}\n\ndef get_env_var(name, default):\n    return default\n".to_string(),
        ),
        ("main.py".to_string(), "def main():\n    login('a', 'b')\n    load_config('c')\n".to_string()),
    ]
}

fn build_fixture_graph() -> RPGraph {
    let mut all_entities: Vec<RawEntity> = Vec::new();
    for (rel_path, source) in &fixture_files() {
        all_entities.extend(extract_entities(rel_path, source));
    }
    let mut graph = RPGraph::new("python");
    for raw in all_entities {
        graph.insert_entity(raw.into_entity());
    }
    graph.create_module_entities();
    graph.build_file_path_hierarchy();
    resolve_dependencies(&mut graph, false);
    graph.assign_hierarchy_ids();
    graph.aggregate_hierarchy_features();
    graph.materialize_containment_edges();
    ground_hierarchy(&mut graph);
    graph.refresh_metadata();
    graph
}

/// Graph invariants that should hold after any update.
fn verify_graph_integrity(graph: &RPGraph) {
    for i in 0..graph.entities.len() {
        let id = graph.entities.key_at(i);
        let entity = graph.entities.value_at(i);
        let ids = graph.file_index.get(&entity.file);
        assert!(
            ids.is_some_and(|ids| ids.contains(id)),
            "entity {} not in file_index for {}",
            id,
            entity.file
        );
    }
    for f in 0..graph.file_index.len() {
        for id in graph.file_index.value_at(f) {
            assert!(
                graph.entities.contains_key(id),
                "file_index entry {} for {} has no entity",
                id,
                graph.file_index.key_at(f)
            );
            assert_eq!(&graph.entities.get(id).unwrap().file, graph.file_index.key_at(f));
        }
    }
    for edge in &graph.edges {
        if edge.kind != EdgeKind::Contains {
            assert!(graph.entities.contains_key(&edge.source), "dangling edge source: {}", edge.source);
            assert!(graph.entities.contains_key(&edge.target), "dangling edge target: {}", edge.target);
        }
    }
}

fn entities_in(graph: &RPGraph, file: &str) -> Vec<String> {
    (0..graph.entities.len())
        .filter(|i| graph.entities.value_at(*i).file == file)
        .map(|i| graph.entities.value_at(i).id.clone())
        .collect()
}

fn entity_names(graph: &RPGraph) -> Vec<String> {
    (0..graph.entities.len()).map(|i| graph.entities.value_at(i).name.clone()).collect()
}

#[test]
fn test_incremental_delete_file() {
    let mut graph = build_fixture_graph();
    let initial_count = graph.entities.len();

    let models_count = entities_in(&graph, "src/models.py").len();
    assert!(models_count > 0, "fixture should have entities in models.py");

    let removed = apply_deletions(&mut graph, &vec!["src/models.py".to_string()]);
    assert_eq!(removed, models_count);

    graph.refresh_metadata();
    assert_eq!(graph.entities.len(), initial_count - models_count);
    assert!(
        entities_in(&graph, "src/models.py").is_empty(),
        "deleted file entities should be gone"
    );
    verify_graph_integrity(&graph);
}

#[test]
fn test_incremental_rename_file() {
    let mut graph = build_fixture_graph();
    let login_entities_before = entities_in(&graph, "src/auth/login.py");
    assert!(!login_entities_before.is_empty());

    let (migrated, renamed) = apply_renames(
        &mut graph,
        &vec![("src/auth/login.py".to_string(), "src/auth/authentication.py".to_string())],
    );
    assert_eq!(migrated, 1);
    assert_eq!(renamed, login_entities_before.len());

    for id in &login_entities_before {
        if let Some(entity) = graph.entities.get(id) {
            assert_eq!(
                entity.file, "src/auth/authentication.py",
                "entity {} should have updated file path",
                id
            );
        }
    }
    assert!(!graph.file_index.contains_key("src/auth/login.py"));
    assert!(graph.file_index.contains_key("src/auth/authentication.py"));
    verify_graph_integrity(&graph);
}

#[test]
fn test_incremental_add_new_file() {
    let mut graph = build_fixture_graph();
    let initial_count = graph.entities.len();

    let new_source = r#"
def send_email(to: str, subject: str, body: str):
    """Send an email message."""
    pass

def format_template(template: str, **kwargs) -> str:
    """Format an email template with variables."""
    return template.format(**kwargs)
"#;
    let new_entities = extract_entities("src/email.py", new_source);
    assert!(new_entities.len() >= 2, "should extract at least 2 functions");
    for raw in new_entities {
        graph.insert_entity(raw.into_entity());
    }
    graph.refresh_metadata();
    assert!(graph.entities.len() > initial_count);

    let names = entity_names(&graph);
    assert!(names.contains(&"send_email".to_string()));
    assert!(names.contains(&"format_template".to_string()));
    verify_graph_integrity(&graph);
}

#[test]
fn test_incremental_modify_file() {
    let mut graph = build_fixture_graph();
    let config_path = "src/utils/config.py".to_string();

    let removed = apply_deletions(&mut graph, std::slice::from_ref(&config_path).to_vec().as_ref());
    assert!(removed > 0);

    let modified_source = r#"
"""Configuration utilities (v2)."""
import os
from typing import Dict, Any

def load_config(path: str) -> Dict[str, Any]:
    """Load configuration from a TOML file."""
    with open(path) as f:
        return parse_toml(f.read())

def parse_toml(content: str) -> Dict[str, Any]:
    """Parse TOML content into a dictionary."""
    result = {}
    for line in content.strip().split("\n"):
        if "=" in line:
            key, val = line.split("=", 1)
            result[key.strip()] = val.strip().strip('"')
    return result

def get_env_var(name: str, default: str = "") -> str:
    """Get an environment variable with a default."""
    return os.environ.get(name, default)

def validate_config(config: Dict[str, Any]) -> bool:
    """Validate that required config keys are present."""
    required = ["database_url", "secret_key"]
    return all(k in config for k in required)
"#;
    let new_entities = extract_entities(&config_path, modified_source);
    assert!(new_entities.len() >= 4, "modified config should have >= 4 functions");
    for raw in new_entities {
        graph.insert_entity(raw.into_entity());
    }
    graph.refresh_metadata();

    let names = entity_names(&graph);
    assert!(names.contains(&"validate_config".to_string()), "new function should be present");
    assert!(names.contains(&"load_config".to_string()));
    assert!(names.contains(&"parse_toml".to_string()));
    assert!(names.contains(&"get_env_var".to_string()));
    verify_graph_integrity(&graph);
}

#[test]
fn test_incremental_delete_then_rebuild_hierarchy() {
    let mut graph = build_fixture_graph();
    apply_deletions(&mut graph, &vec!["src/models.py".to_string()]);

    graph.hierarchy.clear();
    graph.build_file_path_hierarchy();
    graph.assign_hierarchy_ids();
    graph.aggregate_hierarchy_features();
    graph.materialize_containment_edges();
    ground_hierarchy(&mut graph);
    graph.refresh_metadata();

    assert!(!graph.hierarchy.is_empty());
    for i in 0..graph.entities.len() {
        let entity = graph.entities.value_at(i);
        if entity.kind != EntityKind::Module {
            assert!(
                !entity.hierarchy_path.is_empty(),
                "entity {} missing hierarchy path after rebuild",
                graph.entities.key_at(i)
            );
        }
    }
    verify_graph_integrity(&graph);
}

#[test]
fn test_incremental_multiple_operations() {
    let mut graph = build_fixture_graph();
    apply_deletions(&mut graph, &vec!["src/models.py".to_string()]);
    apply_renames(
        &mut graph,
        &vec![("src/auth/login.py".to_string(), "src/auth/auth_service.py".to_string())],
    );
    let new_source = "def health_check():\n    return True\n";
    for raw in extract_entities("src/health.py", new_source) {
        graph.insert_entity(raw.into_entity());
    }
    graph.refresh_metadata();

    assert!(entities_in(&graph, "src/models.py").is_empty(), "deleted file should be gone");
    assert!(
        graph.file_index.contains_key("src/auth/auth_service.py"),
        "renamed file should exist"
    );
    assert!(
        entity_names(&graph).contains(&"health_check".to_string()),
        "new function should exist"
    );
    verify_graph_integrity(&graph);
}

#[test]
fn fixture_pipeline_builds_a_coherent_graph() {
    let graph = build_fixture_graph();
    verify_graph_integrity(&graph);
    // five files, each with a module entity
    assert_eq!(graph.metadata.total_files, 5);
    assert_eq!(graph.metadata.total_entities, graph.entities.len());
    assert_eq!(graph.metadata.total_edges, graph.edges.len());
    assert_eq!(
        graph.metadata.dependency_edges + graph.metadata.containment_edges,
        graph.metadata.total_edges
    );
    let module = graph.entities.get("src/auth/login.py").unwrap();
    assert_eq!(module.kind, EntityKind::Module);
    assert_eq!(module.name, "login");
    assert_eq!((module.line_start, module.line_end), (1, 9));
    // hierarchy: src/auth holds login.py and crypto.py
    assert_eq!(
        graph.entities.get("src/auth/login.py:validate").unwrap().hierarchy_path,
        "h:src/auth"
    );
    assert_eq!(graph.entities.get("main.py:main").unwrap().hierarchy_path, "h:root");
    assert_eq!(graph.metadata.functional_areas, 2);
    // login calls validate: resolved; every entity listed gets a Contains edge
    assert!(graph.edges.iter().any(|e| e.kind == EdgeKind::Invokes
        && e.source == "src/auth/login.py:login"
        && e.target == "src/auth/login.py:validate"));
    assert!(graph.edges.iter().any(|e| e.kind == EdgeKind::Contains
        && e.source == "h:src/auth"
        && e.target == "src/auth/crypto.py:hash_password"));
}

#[test]
fn rename_rewrites_every_reference() {
    let mut graph = build_fixture_graph();
    apply_renames(
        &mut graph,
        &vec![("src/auth/login.py".to_string(), "src/auth/authentication.py".to_string())],
    );
    assert!(graph.entities.contains_key("src/auth/authentication.py:validate"));
    assert!(graph.entities.contains_key("src/auth/authentication.py"));
    assert_eq!(
        graph.entities.get("src/auth/authentication.py:login").unwrap().id,
        "src/auth/authentication.py:login"
    );
    assert!(!graph.edges.iter().any(|e| e.source.starts_with("src/auth/login.py")
        || e.target.starts_with("src/auth/login.py")));
    let listed = graph.file_index.get("src/auth/authentication.py").unwrap();
    assert!(listed.contains(&"src/auth/authentication.py:validate".to_string()));
    let (files, moved) = apply_renames(
        &mut graph,
        &vec![("nowhere.py".to_string(), "elsewhere.py".to_string())],
    );
    assert_eq!((files, moved), (0, 0));
}

#[test]
fn deletion_prunes_edges_and_hierarchy_lists() {
    let mut graph = build_fixture_graph();
    assert!(graph.edges.iter().any(|e| e.target == "src/models.py:make_user"
        && e.kind == EdgeKind::Invokes));
    apply_deletions(&mut graph, &vec!["src/models.py".to_string()]);
    assert!(!graph.edges.iter().any(|e| e.kind != EdgeKind::Contains
        && (e.target.starts_with("src/models.py") || e.source.starts_with("src/models.py"))));
    assert!(!graph.file_index.contains_key("src/models.py"));
    let src = graph.hierarchy.get("h:src").unwrap();
    assert!(!src.entities.iter().any(|id| id.starts_with("src/models.py")));
}
