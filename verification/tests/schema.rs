use rpg_encoder::graph::{
    DependencyEdge, EdgeKind, Entity, EntityDeps, EntityKind, HierarchyNode, RPGraph,
    CURRENT_VERSION,
};
use rpg_encoder::schema::{
    check_and_migrate, migrate, migrate_normalize_entity_ids, parse_version, sort_edges,
    validate_version, SchemaError,
};

fn graph_with_version(version: &str) -> RPGraph {
    let mut graph = RPGraph::new("rust");
    graph.version = version.to_string();
    graph.created_at = "2025-01-01T00:00:00Z".to_string();
    graph.updated_at = "2025-01-01T00:00:00Z".to_string();
    graph
}

fn function(id: &str, name: &str, file: &str) -> Entity {
    Entity {
        id: id.to_string(),
        kind: EntityKind::Function,
        name: name.to_string(),
        file: file.to_string(),
        line_start: 1,
        line_end: 10,
        parent_class: None,
        semantic_features: vec!["validates user credentials".to_string()],
        feature_source: Some("llm".to_string()),
        hierarchy_path: String::new(),
        deps: EntityDeps { invokes: vec![], inherits: vec![], imports: vec![] },
        signature: None,
    }
}

#[test]
fn test_exact_version_match() {
    let graph = graph_with_version("2.0.0");
    assert!(validate_version(&graph).is_ok());
}

#[test]
fn test_compatible_minor_bump() {
    let graph = graph_with_version("2.1.0");
    assert!(validate_version(&graph).is_ok());
}

#[test]
fn test_compatible_patch_bump() {
    let graph = graph_with_version("2.0.3");
    assert!(validate_version(&graph).is_ok());
}

#[test]
fn test_incompatible_major_bump() {
    let graph = graph_with_version("3.0.0");
    assert!(validate_version(&graph).is_err());
}

#[test]
fn test_incompatible_old_major() {
    let graph = graph_with_version("1.0.0");
    assert!(validate_version(&graph).is_err());
}

#[test]
fn test_migrate_updates_version() {
    let mut graph = graph_with_version("2.0.0");
    graph.version = "2.0.0".to_string();
    assert!(migrate(&mut graph).is_ok());
    assert_eq!(graph.version, CURRENT_VERSION);
}

#[test]
fn test_invalid_version_string() {
    let graph = graph_with_version("not-a-version");
    assert!(validate_version(&graph).is_err());
}

#[test]
fn test_migrate_normalizes_backslash_ids() {
    let mut graph = graph_with_version("2.1.0");

    let old_id = r"src\auth\login.py:validate".to_string();
    graph.entities.insert(old_id.clone(), function(&old_id, "validate", "src/auth/login.py"));
    graph.file_index.insert("src/auth/login.py".to_string(), vec![old_id.clone()]);
    graph.edges.push(DependencyEdge {
        source: old_id.clone(),
        target: "other:target".to_string(),
        kind: EdgeKind::Invokes,
    });
    let mut node = HierarchyNode::new("Auth");
    node.entities.push(old_id.clone());
    graph.hierarchy.insert("h:Auth".to_string(), node);

    migrate(&mut graph).unwrap();

    let new_id = "src/auth/login.py:validate";
    assert!(graph.entities.contains_key(new_id));
    assert!(!graph.entities.contains_key(&old_id));
    assert_eq!(graph.entities.get(new_id).unwrap().id, new_id);
    assert_eq!(
        graph.entities.get(new_id).unwrap().semantic_features,
        vec!["validates user credentials"]
    );
    let file_ids = graph.file_index.get("src/auth/login.py").unwrap();
    assert_eq!(file_ids, &[new_id]);
    assert_eq!(graph.edges[0].source, new_id);
    assert_eq!(graph.hierarchy.get("h:Auth").unwrap().entities, vec![new_id]);
    assert_eq!(graph.version, CURRENT_VERSION);
}

#[test]
fn version_errors_tell_unparseable_from_incompatible() {
    assert_eq!(
        validate_version(&graph_with_version("not-a-version")),
        Err(SchemaError::VersionUnparseable)
    );
    assert_eq!(
        validate_version(&graph_with_version("3.0.0")),
        Err(SchemaError::VersionIncompatible)
    );
    assert_eq!(validate_version(&graph_with_version("2.0.3")), Ok(()));
}

#[test]
fn parse_version_reads_all_parts() {
    let v = parse_version("1.20.3-alpha.1+build.5").unwrap();
    assert_eq!((v.major, v.minor, v.patch), (1, 20, 3));
    assert_eq!(v.pre, "alpha.1");
    assert_eq!(v.build, "build.5");
    assert!(parse_version("1.2").is_err());
    assert!(parse_version("01.2.3").is_err());
    assert!(parse_version("").is_err());
}

#[test]
fn current_version_parses_to_its_numbers() {
    let v = parse_version(CURRENT_VERSION).unwrap();
    assert_eq!(
        (v.major, v.minor, v.patch),
        (
            rpg_encoder::schema::CURRENT_MAJOR,
            rpg_encoder::schema::CURRENT_MINOR,
            rpg_encoder::schema::CURRENT_PATCH
        )
    );
    assert!(v.pre.is_empty());
}

#[test]
fn precedes_release_follows_semver_precedence() {
    let older = parse_version("2.1.9").unwrap();
    assert!(older.precedes_release(2, 2, 0));
    let same = parse_version("2.2.0").unwrap();
    assert!(!same.precedes_release(2, 2, 0));
    let pre = parse_version("2.2.0-rc.1").unwrap();
    assert!(pre.precedes_release(2, 2, 0));
    let built = parse_version("2.2.0+meta").unwrap();
    assert!(!built.precedes_release(2, 2, 0));
    let newer = parse_version("2.10.0").unwrap();
    assert!(!newer.precedes_release(2, 2, 0));
}

#[test]
fn migrate_leaves_newer_versions_alone() {
    let mut graph = graph_with_version("2.3.1");
    let id = r"a\b.py:f".to_string();
    graph.entities.insert(id.clone(), function(&id, "f", "a/b.py"));
    assert!(migrate(&mut graph).is_ok());
    assert_eq!(graph.version, "2.3.1");
    assert!(graph.entities.contains_key(&id));
}

#[test]
fn migrate_fails_on_unparseable_version_and_changes_nothing() {
    let mut graph = graph_with_version("two");
    let id = r"a\b.py:f".to_string();
    graph.entities.insert(id.clone(), function(&id, "f", "a/b.py"));
    assert_eq!(migrate(&mut graph), Err(SchemaError::VersionUnparseable));
    assert_eq!(graph.version, "two");
    assert!(graph.entities.contains_key(&id));
}

#[test]
fn migrate_twice_is_migrate_once() {
    let mut graph = graph_with_version("2.1.0");
    let a = r"src\a.py:f".to_string();
    let b = "src/a.py:f".to_string();
    graph.entities.insert(a.clone(), function(&a, "f", "src/a.py"));
    graph.entities.insert(b.clone(), function(&b, "g", "src/a.py"));
    graph.file_index.insert("src/a.py".to_string(), vec![a.clone(), b.clone()]);
    graph.edges.push(DependencyEdge { source: a.clone(), target: b.clone(), kind: EdgeKind::Invokes });
    migrate(&mut graph).unwrap();
    let once = format!("{:?}", graph);
    migrate(&mut graph).unwrap();
    assert_eq!(format!("{:?}", graph), once);
    // the later entry won the shared key
    assert_eq!(graph.entities.len(), 1);
    assert_eq!(graph.entities.get("src/a.py:f").unwrap().name, "g");
}

#[test]
fn normalization_leaves_references_to_unknown_ids_alone() {
    let mut graph = graph_with_version("2.1.0");
    let a = r"src\a.py:f".to_string();
    graph.entities.insert(a.clone(), function(&a, "f", "src/a.py"));
    graph.edges.push(DependencyEdge {
        source: a.clone(),
        target: r"lib\x.py:y".to_string(),
        kind: EdgeKind::Invokes,
    });
    migrate_normalize_entity_ids(&mut graph);
    assert_eq!(graph.edges[0].source, "src/a.py:f");
    assert_eq!(graph.edges[0].target, r"lib\x.py:y");
}

#[test]
fn check_and_migrate_rejects_other_majors_untouched() {
    let mut graph = graph_with_version("1.9.0");
    assert_eq!(check_and_migrate(&mut graph), Err(SchemaError::VersionIncompatible));
    assert_eq!(graph.version, "1.9.0");
    let mut ok = graph_with_version("2.0.0");
    assert_eq!(check_and_migrate(&mut ok), Ok(()));
    assert_eq!(ok.version, CURRENT_VERSION);
}

fn edge(source: &str, target: &str, kind: EdgeKind) -> DependencyEdge {
    DependencyEdge { source: source.to_string(), target: target.to_string(), kind }
}

#[test]
fn sort_edges_orders_by_source_target_kind() {
    let mut edges = vec![
        edge("b", "a", EdgeKind::Invokes),
        edge("a", "z", EdgeKind::Contains),
        edge("a", "z", EdgeKind::Invokes),
        edge("a", "b", EdgeKind::Imports),
        edge("a", "z", EdgeKind::Inherits),
        edge("B", "a", EdgeKind::Invokes),
    ];
    sort_edges(&mut edges);
    let got: Vec<(String, String, EdgeKind)> =
        edges.iter().map(|e| (e.source.clone(), e.target.clone(), e.kind)).collect();
    let want = vec![
        ("B".to_string(), "a".to_string(), EdgeKind::Invokes),
        ("a".to_string(), "b".to_string(), EdgeKind::Imports),
        ("a".to_string(), "z".to_string(), EdgeKind::Invokes),
        ("a".to_string(), "z".to_string(), EdgeKind::Inherits),
        ("a".to_string(), "z".to_string(), EdgeKind::Contains),
        ("b".to_string(), "a".to_string(), EdgeKind::Invokes),
    ];
    assert_eq!(got, want);
    let once = edges.clone();
    sort_edges(&mut edges);
    assert_eq!(edges, once);
}

#[test]
fn graph_sort_edges_touches_only_edges() {
    let mut graph = graph_with_version("2.2.0");
    graph.edges.push(edge("b", "a", EdgeKind::Invokes));
    graph.edges.push(edge("a", "b", EdgeKind::Invokes));
    graph.sort_edges();
    assert_eq!(graph.edges[0].source, "a");
    assert_eq!(graph.version, "2.2.0");
}

#[test]
fn precedes_release_agrees_with_semver_ordering() {
    let bound = semver::Version::new(2, 2, 0);
    let texts = [
        "0.0.0", "1.9.9", "2.1.99", "2.2.0", "2.2.0-alpha", "2.2.0-0", "2.2.0+b", "2.2.0-rc.1+b",
        "2.2.1-alpha", "2.2.1", "2.3.0-pre", "3.0.0", "2.2.0+0", "18446744073709551615.0.0",
    ];
    for t in texts {
        let theirs = semver::Version::parse(t).unwrap();
        let ours = parse_version(t).unwrap();
        assert_eq!(ours.precedes_release(2, 2, 0), theirs < bound, "version {}", t);
        assert_eq!(ours.pre, theirs.pre.as_str());
        assert_eq!(ours.build, theirs.build.as_str());
    }
}

#[test]
fn migration_leaves_no_backslash_in_identifiers() {
    let mut graph = graph_with_version("2.0.0");
    for (id, name) in [(r"src\a\b.py:f", "f"), (r"src\a\b.py", "b"), ("src/c.py:g", "g")] {
        graph.entities.insert(id.to_string(), function(id, name, "src/a/b.py"));
    }
    let ids: Vec<String> = (0..graph.entities.len()).map(|i| graph.entities.key_at(i).clone()).collect();
    graph.file_index.insert("src/a/b.py".to_string(), ids.clone());
    graph.edges.push(DependencyEdge { source: ids[0].clone(), target: ids[1].clone(), kind: EdgeKind::Imports });
    let mut node = HierarchyNode::new("src");
    node.entities = ids.clone();
    let mut child = HierarchyNode::new("a");
    child.entities.push(ids[0].clone());
    node.children.push(child);
    graph.hierarchy.insert("h:src".to_string(), node);
    migrate(&mut graph).unwrap();
    let clean = |s: &String| !s.contains('\\');
    for i in 0..graph.entities.len() {
        assert!(clean(graph.entities.key_at(i)) && clean(&graph.entities.value_at(i).id));
    }
    assert!(graph.file_index.get("src/a/b.py").unwrap().iter().all(clean));
    assert!(graph.edges.iter().all(|e| clean(&e.source) && clean(&e.target)));
    let top = graph.hierarchy.get("h:src").unwrap();
    assert!(top.entities.iter().all(clean) && top.children[0].entities.iter().all(clean));
    assert_eq!(top.children[0].entities, vec!["src/a/b.py:f"]);
}

#[test]
fn sorted_for_output_copies_and_sorts() {
    let mut graph = graph_with_version("2.2.0");
    graph.entities.insert("a.py:f".to_string(), function("a.py:f", "f", "a.py"));
    graph.file_index.insert("a.py".to_string(), vec!["a.py:f".to_string()]);
    let mut node = HierarchyNode::new("top");
    node.children.push(HierarchyNode::new("below"));
    graph.hierarchy.insert("h:top".to_string(), node);
    graph.edges.push(edge("b", "a", EdgeKind::Invokes));
    graph.edges.push(edge("a", "b", EdgeKind::Invokes));
    let before = format!("{:?}", graph);
    let copy = rpg_encoder::schema::sorted_for_output(&graph);
    assert_eq!(format!("{:?}", graph), before);
    assert_eq!(copy.edges[0].source, "a");
    let mut sorted = graph.clone();
    sorted.sort_edges();
    assert_eq!(format!("{:?}", copy), format!("{:?}", sorted));
    let again = rpg_encoder::schema::sorted_for_output(&copy);
    assert_eq!(format!("{:?}", again), format!("{:?}", copy));
}
