use rpg_encoder::graph::{
    DependencyEdge, EdgeKind, Entity, EntityDeps, EntityKind, HierarchyNode, RPGraph,
    CURRENT_VERSION,
};
use rpg_encoder::grounding::{find_node, ground_hierarchy, resolve_dependencies};
use rpg_encoder::hierarchy::{apply_hierarchy, resolve};
use rpg_encoder::semantic_lifting::{aggregate_module_features, apply_features};
use rpg_encoder::strmap::StrMap;
use rpg_encoder::structure::file_path_of;

fn entity(file: &str, name: &str, kind: EntityKind, end: usize) -> Entity {
    let id = match kind {
        EntityKind::Module => file.to_string(),
        _ => format!("{}:{}", file, name),
    };
    Entity {
        id,
        kind,
        name: name.to_string(),
        file: file.to_string(),
        line_start: 1,
        line_end: end,
        parent_class: None,
        semantic_features: vec![],
        feature_source: None,
        hierarchy_path: String::new(),
        deps: EntityDeps { invokes: vec![], inherits: vec![], imports: vec![] },
        signature: None,
    }
}

fn small_graph() -> RPGraph {
    let mut g = RPGraph::new("python");
    g.insert_entity(entity("src/auth/login.py", "validate", EntityKind::Function, 10));
    g.insert_entity(entity("src/auth/login.py", "login", EntityKind::Function, 30));
    g.insert_entity(entity("src/db.py", "connect", EntityKind::Function, 5));
    g.create_module_entities();
    g
}

#[test]
fn new_graph_is_empty_at_current_version() {
    let g = RPGraph::new("rust");
    assert_eq!(g.version, CURRENT_VERSION);
    assert_eq!(g.metadata.language, "rust");
    assert!(g.entities.is_empty() && g.edges.is_empty());
    assert!(g.hierarchy.is_empty() && g.file_index.is_empty());
}

#[test]
fn insert_entity_upserts_and_lists_once() {
    let mut g = RPGraph::new("python");
    g.insert_entity(entity("a.py", "f", EntityKind::Function, 3));
    g.insert_entity(entity("a.py", "g", EntityKind::Function, 8));
    let mut again = entity("a.py", "f", EntityKind::Function, 4);
    again.signature = Some("def f()".to_string());
    g.insert_entity(again);
    assert_eq!(g.entities.len(), 2);
    assert_eq!(g.entities.get("a.py:f").unwrap().line_end, 4);
    assert_eq!(g.file_index.get("a.py").unwrap(), &vec!["a.py:f", "a.py:g"]);
}

#[test]
fn create_module_entities_is_idempotent() {
    let mut g = small_graph();
    assert_eq!(g.entities.len(), 5);
    let m = g.entities.get("src/auth/login.py").unwrap();
    assert_eq!(m.kind, EntityKind::Module);
    assert_eq!(m.name, "login");
    assert_eq!((m.line_start, m.line_end), (1, 30));
    assert_eq!(
        g.file_index.get("src/auth/login.py").unwrap(),
        &vec!["src/auth/login.py:validate", "src/auth/login.py:login", "src/auth/login.py"]
    );
    let once = format!("{:?}", g);
    g.create_module_entities();
    assert_eq!(format!("{:?}", g), once);
}

#[test]
fn module_hierarchy_propagation() {
    let mut g = small_graph();
    let mut assignments: StrMap<String> = StrMap::new();
    assignments.insert("src/auth/login.py".to_string(), "Services/Auth".to_string());
    apply_hierarchy(&mut g, &assignments);
    for id in ["src/auth/login.py:validate", "src/auth/login.py:login"] {
        assert_eq!(g.entities.get(id).unwrap().hierarchy_path, "Services/Auth");
        let node = find_node(&g.hierarchy, "Services/Auth").unwrap();
        assert!(node.entities.contains(&id.to_string()));
    }
    assert_eq!(g.entities.get("src/db.py:connect").unwrap().hierarchy_path, "");
    let top = g.hierarchy.get("h:Services").unwrap();
    assert_eq!(top.name, "Services");
    assert_eq!(top.children[0].id, "h:Services/Auth");
    assert_eq!(find_node(&g.hierarchy, "h:Services/Auth").unwrap().name, "Auth");
    assert!(find_node(&g.hierarchy, "Services/Nope").is_none());
}

#[test]
fn apply_hierarchy_resolves_ids_then_unique_names() {
    let mut g = small_graph();
    g.insert_entity(entity("src/db.py", "login", EntityKind::Function, 9));
    assert_eq!(resolve(&g.entities, "src/db.py:connect"), Some("src/db.py:connect".to_string()));
    assert_eq!(resolve(&g.entities, "connect"), Some("src/db.py:connect".to_string()));
    assert_eq!(resolve(&g.entities, "login"), None);
    assert_eq!(resolve(&g.entities, "nobody"), None);
    let mut assignments: StrMap<String> = StrMap::new();
    assignments.insert("connect".to_string(), "Data".to_string());
    assignments.insert("login".to_string(), "Ambiguous".to_string());
    apply_hierarchy(&mut g, &assignments);
    assert_eq!(g.entities.get("src/db.py:connect").unwrap().hierarchy_path, "Data");
    assert_eq!(g.hierarchy.get("h:Data").unwrap().entities, vec!["src/db.py:connect"]);
    assert!(!g.hierarchy.contains_key("h:Ambiguous"));
}

#[test]
fn insert_into_hierarchy_finds_or_creates() {
    let mut g = RPGraph::new("python");
    g.insert_into_hierarchy("a/b", "x");
    g.insert_into_hierarchy("a/c", "y");
    g.insert_into_hierarchy("h:a/b", "z");
    g.insert_into_hierarchy("a", "w");
    assert_eq!(g.hierarchy.len(), 1);
    let a = g.hierarchy.get("h:a").unwrap();
    assert_eq!(a.entities, vec!["w"]);
    assert_eq!(a.children.len(), 2);
    assert_eq!(a.children[0].entities, vec!["x", "z"]);
    assert_eq!(a.children[1].id, "h:a/c");
}

#[test]
fn file_paths_are_capped_by_depth() {
    assert_eq!(file_path_of("a/b/c/d/e.py", 3), "a/b/c");
    assert_eq!(file_path_of("a/b/e.py", 3), "a/b");
    assert_eq!(file_path_of("e.py", 3), "root");
    assert_eq!(file_path_of("a/e.py", 0), "root");
}

#[test]
fn apply_features_matches_by_name() {
    let mut entities = vec![
        entity("a.py", "f", EntityKind::Function, 2),
        entity("a.py", "g", EntityKind::Function, 4),
    ];
    entities[1].semantic_features = vec!["kept".to_string()];
    let mut features: StrMap<Vec<String>> = StrMap::new();
    features.insert("f".to_string(), vec!["parse input".to_string()]);
    features.insert("h".to_string(), vec!["unused".to_string()]);
    apply_features(&mut entities, &features);
    assert_eq!(entities[0].semantic_features, vec!["parse input"]);
    assert_eq!(entities[1].semantic_features, vec!["kept"]);
}

#[test]
fn aggregate_module_features_unions_children() {
    let mut g = small_graph();
    g.entities.value_at_mut(0).semantic_features = vec!["b".to_string(), "a".to_string()];
    g.entities.value_at_mut(1).semantic_features = vec!["c".to_string(), "a".to_string()];
    let count = aggregate_module_features(&mut g);
    assert_eq!(count, 1);
    assert_eq!(g.entities.get("src/auth/login.py").unwrap().semantic_features, vec!["a", "b", "c"]);
    assert!(g.entities.get("src/db.py").unwrap().semantic_features.is_empty());
}

#[test]
fn resolve_dependencies_drops_ambiguous_and_unknown_names() {
    let mut g = small_graph();
    g.insert_entity(entity("src/db.py", "login", EntityKind::Function, 9));
    {
        let v = g.entities.value_at_mut(0);
        v.deps.invokes = vec!["connect".to_string(), "login".to_string(), "nothing".to_string()];
        v.deps.imports = vec!["src/db.py".to_string(), "os".to_string()];
    }
    {
        let c = g.entities.value_at_mut(2);
        c.deps.imports = vec!["src/auth/login.py".to_string()];
    }
    resolve_dependencies(&mut g, false);
    let got: Vec<(String, String, EdgeKind)> =
        g.edges.iter().map(|e| (e.source.clone(), e.target.clone(), e.kind)).collect();
    assert_eq!(
        got,
        vec![
            (
                "src/auth/login.py:validate".to_string(),
                "src/db.py:connect".to_string(),
                EdgeKind::Invokes
            ),
            ("src/auth/login.py:validate".to_string(), "src/db.py".to_string(), EdgeKind::Imports),
        ]
    );
    resolve_dependencies(&mut g, true);
    assert_eq!(g.edges.len(), 3);
    assert_eq!(g.edges[2].kind, EdgeKind::Imports);
    assert_eq!(g.edges[2].source, "src/db.py:connect");
    assert_eq!(g.edges[2].target, "src/auth/login.py");
}

#[test]
fn ground_hierarchy_prunes_and_repoints() {
    let mut g = small_graph();
    g.insert_into_hierarchy("Services/Auth", "src/auth/login.py:login");
    g.assign_hierarchy_ids();
    let e = |s: &str, t: &str, k: EdgeKind| DependencyEdge {
        source: s.to_string(),
        target: t.to_string(),
        kind: k,
    };
    g.edges = vec![
        e("src/auth/login.py:login", "src/db.py:connect", EdgeKind::Invokes),
        e("src/auth/login.py:login", "gone.py:f", EdgeKind::Invokes),
        e("gone.py:f", "src/db.py:connect", EdgeKind::Inherits),
        e("Services/Auth", "src/auth/login.py:login", EdgeKind::Contains),
        e("Nowhere", "gone.py:f", EdgeKind::Contains),
    ];
    ground_hierarchy(&mut g);
    let got: Vec<(String, String)> =
        g.edges.iter().map(|e| (e.source.clone(), e.target.clone())).collect();
    assert_eq!(
        got,
        vec![
            ("src/auth/login.py:login".to_string(), "src/db.py:connect".to_string()),
            ("h:Services/Auth".to_string(), "src/auth/login.py:login".to_string()),
            ("Nowhere".to_string(), "gone.py:f".to_string()),
        ]
    );
}

#[test]
fn hierarchy_features_and_containment() {
    let mut g = small_graph();
    g.entities.value_at_mut(0).semantic_features = vec!["z".to_string()];
    g.entities.value_at_mut(2).semantic_features = vec!["a".to_string(), "z".to_string()];
    g.build_file_path_hierarchy();
    g.assign_hierarchy_ids();
    g.aggregate_hierarchy_features();
    g.materialize_containment_edges();
    let src = g.hierarchy.get("h:src").unwrap();
    assert_eq!(src.aggregated_features, vec!["a", "z"]);
    assert_eq!(src.children[0].id, "h:src/auth");
    assert_eq!(src.children[0].aggregated_features, vec!["z"]);
    let contains = g.edges.len();
    assert_eq!(contains, 5);
    assert!(g.edges.iter().all(|e| e.kind == EdgeKind::Contains));
    g.materialize_containment_edges();
    assert_eq!(g.edges.len(), contains);
    g.refresh_metadata();
    assert_eq!(g.metadata.containment_edges, 5);
    assert_eq!(g.metadata.dependency_edges, 0);
    assert_eq!(g.metadata.functional_areas, 1);
    assert_eq!(g.metadata.total_files, 2);
    assert_eq!(g.metadata.total_entities, 5);
}

#[test]
fn deepest_node_wins_when_assigning_paths() {
    let mut g = small_graph();
    g.insert_into_hierarchy("A", "src/db.py:connect");
    g.insert_into_hierarchy("B/C/D", "src/db.py:connect");
    g.insert_into_hierarchy("B/C", "src/db.py:connect");
    g.assign_hierarchy_ids();
    assert_eq!(g.entities.get("src/db.py:connect").unwrap().hierarchy_path, "h:B/C/D");
    assert_eq!(g.entities.get("src/auth/login.py:login").unwrap().hierarchy_path, "");
}

#[test]
fn strmap_keeps_insertion_order_and_overwrites_in_place() {
    let mut m: StrMap<u32> = StrMap::new();
    m.insert("b".to_string(), 1);
    m.insert("a".to_string(), 2);
    m.insert("b".to_string(), 3);
    assert_eq!(m.len(), 2);
    assert_eq!((m.key_at(0).as_str(), *m.value_at(0)), ("b", 3));
    assert_eq!(m.position("a"), Some(1));
    assert_eq!(m.remove("b"), Some(3));
    assert_eq!(m.remove("b"), None);
    assert_eq!(m.get("a"), Some(&2));
    m.set_value_at(0, 9);
    assert_eq!(m.get("a"), Some(&9));
    m.clear();
    assert!(m.is_empty());
    let _unused = HierarchyNode::new("x");
}
