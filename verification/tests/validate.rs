use sem_core::parser::graph::EntityGraph;
use std::io::Write;
use tempfile::{Builder, NamedTempFile, TempDir};
use weave_core::validate::{
    co_change_side_phrase, validate_merge, GraphEntity, ModifiedEntity, Neighbour, RelatedEntity,
    SemanticWarning, WarningKind,
};

fn setup_test_repo() -> (TempDir, NamedTempFile) {
    let dir = TempDir::new().unwrap();
    let ts_content = r#"export function validateInput(input: string): boolean {
    return input.length > 0;
}

export function processData(input: string): string {
    if (!validateInput(input)) {
        throw new Error("invalid");
    }
    return input.toUpperCase();
}

export function unrelated(): number {
    return 42;
}
"#;
    let mut f = Builder::new()
        .prefix("module")
        .suffix(".ts")
        .rand_bytes(0)
        .tempfile_in(dir.path())
        .unwrap();
    f.write_all(ts_content.as_bytes()).unwrap();
    f.flush().unwrap();
    (dir, f)
}

fn graph_of(dir: &TempDir) -> Vec<GraphEntity> {
    let registry = sem_core::parser::plugins::create_default_registry();
    let (graph, _) = EntityGraph::build(dir.path(), &["module.ts".to_string()], &registry);
    let near = |list: Vec<&sem_core::parser::graph::EntityInfo>| {
        list.iter()
            .map(|e| Neighbour {
                id: e.id.to_string(),
                entity: RelatedEntity {
                    name: e.name.clone(),
                    entity_type: e.entity_type.clone(),
                    file_path: e.file_path.clone(),
                },
            })
            .collect::<Vec<_>>()
    };
    graph
        .entities
        .values()
        .map(|e| GraphEntity {
            id: e.id.to_string(),
            name: e.name.clone(),
            entity_type: e.entity_type.clone(),
            file_path: e.file_path.clone(),
            dependencies: near(graph.get_dependencies(&e.id)),
            dependents: near(graph.get_dependents(&e.id)),
        })
        .collect()
}

fn modified(names: &[&str]) -> Vec<ModifiedEntity> {
    names
        .iter()
        .map(|n| ModifiedEntity {
            name: n.to_string(),
            file_path: "module.ts".to_string(),
        })
        .collect()
}

#[test]
fn test_no_warnings_single_entity() {
    let (dir, _file) = setup_test_repo();
    let warnings = validate_merge(&graph_of(&dir), &modified(&["unrelated"]));
    assert!(warnings.is_empty(), "Single entity should have no warnings");
}

#[test]
fn test_warning_when_caller_and_callee_both_modified() {
    let (dir, _file) = setup_test_repo();
    let warnings = validate_merge(
        &graph_of(&dir),
        &modified(&["validateInput", "processData"]),
    );
    assert!(
        !warnings.is_empty(),
        "Should warn when caller and callee both modified. Warnings: {:?}",
        warnings
    );
    let has_dep_warning = warnings.iter().any(|w| {
        w.entity_name == "processData"
            && matches!(w.kind, WarningKind::DependencyAlsoModified)
            && w.related.iter().any(|r| r.name == "validateInput")
    });
    assert!(
        has_dep_warning,
        "Should warn that processData depends on validateInput"
    );
}

#[test]
fn test_no_warning_unrelated_entities() {
    let (dir, _file) = setup_test_repo();
    let warnings = validate_merge(&graph_of(&dir), &modified(&["validateInput", "unrelated"]));
    let cross_warnings: Vec<_> = warnings
        .iter()
        .filter(|w| {
            (w.entity_name == "validateInput" && w.related.iter().any(|r| r.name == "unrelated"))
                || (w.entity_name == "unrelated"
                    && w.related.iter().any(|r| r.name == "validateInput"))
        })
        .collect();
    assert!(
        cross_warnings.is_empty(),
        "Unrelated entities should not trigger cross-warnings"
    );
}

fn related(name: &str) -> RelatedEntity {
    RelatedEntity {
        name: name.to_string(),
        entity_type: "function".to_string(),
        file_path: "m.ts".to_string(),
    }
}

fn near(name: &str) -> Neighbour {
    Neighbour {
        id: format!("m.ts::{name}"),
        entity: related(name),
    }
}

fn node(name: &str, dependencies: Vec<Neighbour>, dependents: Vec<Neighbour>) -> GraphEntity {
    GraphEntity {
        id: format!("m.ts::{name}"),
        name: name.to_string(),
        entity_type: "function".to_string(),
        file_path: "m.ts".to_string(),
        dependencies,
        dependents,
    }
}

#[test]
fn one_dependency_is_told_once_from_the_side_that_comes_first() {
    let all = |names: &[&str]| -> Vec<ModifiedEntity> {
        names
            .iter()
            .map(|n| ModifiedEntity {
                name: n.to_string(),
                file_path: "m.ts".to_string(),
            })
            .collect()
    };
    let graph = vec![
        node("caller", vec![near("util")], vec![]),
        node("util", vec![], vec![near("caller")]),
    ];
    let w = validate_merge(&graph, &all(&["util", "caller"]));
    assert_eq!(w.len(), 1);
    assert_eq!(
        w[0].to_text(),
        "warning: function `caller` was modified and references function `util` which was also modified"
    );
    let graph = vec![
        node("zcaller", vec![near("util")], vec![]),
        node("util", vec![], vec![near("zcaller")]),
    ];
    let w = validate_merge(&graph, &all(&["util", "zcaller"]));
    assert_eq!(w.len(), 2);
    assert_eq!(
        w[0].to_text(),
        "warning: function `util` was modified and is used by function `zcaller` which was also modified"
    );
}

fn warning(kind: WarningKind) -> SemanticWarning {
    SemanticWarning {
        entity_name: "f".to_string(),
        entity_type: "function".to_string(),
        file_path: "m.py".to_string(),
        kind,
        related: vec![],
    }
}

#[test]
fn each_warning_says_what_to_look_at() {
    let names = |v: &[&str]| -> Vec<String> { v.iter().map(|s| s.to_string()).collect() };
    assert_eq!(
        warning(WarningKind::ParseFailedAfterMerge).to_text(),
        "warning: merged output for `m.py` failed to parse — result may be syntactically broken"
    );
    assert_eq!(
        warning(WarningKind::CompositionLicensed {
            ours_binds: names(&["a", "b"]),
            theirs_binds: names(&["c"]),
        })
        .to_text(),
        "resolved: function `f` — both sides inserted into one slot and their read/write sets are disjoint (ours binds a, b; theirs binds c)"
    );
    assert_eq!(
        warning(WarningKind::ConflictFrameDuplicate {
            line: "say(\"hi\")".to_string(),
            found: 3,
            allowed: 1,
        })
        .to_text(),
        "warning: outside every conflict marker, `m.py` states \"say(\\\"hi\\\")\" 3x — no union of the two sides states it more than 1x, so every resolution of this file carries the extra copy"
    );
    assert_eq!(
        warning(WarningKind::SiblingCoChange {
            ours_added: names(&["a"]),
            ours_changed: names(&[]),
            theirs_added: names(&[]),
            theirs_changed: names(&["b"]),
        })
        .to_text(),
        format!(
            "advisory: cleanly merged function `f` — both sides changed different siblings ({}; {}); confirm they are meant to coexist",
            co_change_side_phrase("ours", &names(&["a"]), &names(&[])),
            co_change_side_phrase("theirs", &names(&[]), &names(&["b"]))
        )
    );
}
