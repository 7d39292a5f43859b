use gradlens::catalog::{Catalog, CatalogLibrary};
use gradlens::gradle::{ResolvedComponent, ResolvedGraph};
use gradlens::graph::map_used_libraries;
use gradlens::model::{ComponentId, ModuleId};
use std::collections::BTreeMap;

fn id(name: &str, version: &str) -> ComponentId {
    ComponentId {
        module: ModuleId {
            group: "g".into(),
            name: name.into(),
        },
        version: version.into(),
    }
}

fn graph(components: BTreeMap<String, ResolvedComponent>, roots: Vec<String>) -> ResolvedGraph {
    ResolvedGraph {
        components: components.into_iter().collect(),
        roots,
    }
}

#[test]
fn maps_only_used_aliases_with_selected_versions_and_cycles() {
    let catalog = Catalog {
        libraries: vec![
            CatalogLibrary {
                alias: "used".into(),
                module: id("a", "1").module,
                requested_version: Some("1".into()),
            },
            CatalogLibrary {
                alias: "unused".into(),
                module: id("z", "1").module,
                requested_version: Some("1".into()),
            },
        ],
    };
    let components = BTreeMap::from([
        (
            "a".into(),
            ResolvedComponent {
                id: id("a", "2"),
                children: vec!["b".into(), "b".into()],
                metadata_urls: vec![],
            },
        ),
        (
            "b".into(),
            ResolvedComponent {
                id: id("b", "1"),
                children: vec!["a".into()],
                metadata_urls: vec![],
            },
        ),
    ]);
    let result = map_used_libraries(&catalog, &graph(components, vec!["a".into()]));
    assert_eq!(result.len(), 1);
    assert_eq!(result[0].alias, "used");
    assert_eq!(result[0].selected.version, "2");
    assert_eq!(result[0].dependencies.len(), 1);
    assert!(result[0].dependencies[0].children[0].cycle);
}

#[test]
fn expands_shared_subgraph_only_once_per_library() {
    let catalog = Catalog {
        libraries: vec![CatalogLibrary {
            alias: "root".into(),
            module: id("a", "1").module,
            requested_version: Some("1".into()),
        }],
    };
    let components = BTreeMap::from([
        (
            "a".into(),
            ResolvedComponent {
                id: id("a", "1"),
                children: vec!["b".into(), "c".into()],
                metadata_urls: vec![],
            },
        ),
        (
            "b".into(),
            ResolvedComponent {
                id: id("b", "1"),
                children: vec!["d".into()],
                metadata_urls: vec![],
            },
        ),
        (
            "c".into(),
            ResolvedComponent {
                id: id("c", "1"),
                children: vec!["d".into()],
                metadata_urls: vec![],
            },
        ),
        (
            "d".into(),
            ResolvedComponent {
                id: id("d", "1"),
                children: vec!["e".into()],
                metadata_urls: vec![],
            },
        ),
        (
            "e".into(),
            ResolvedComponent {
                id: id("e", "1"),
                children: vec![],
                metadata_urls: vec![],
            },
        ),
    ]);

    let result = map_used_libraries(&catalog, &graph(components, vec!["a".into()]));
    let repeated = &result[0].dependencies[1].children[0];

    assert!(repeated.repeated);
    assert!(repeated.children.is_empty());
}

#[test]
fn libraries_are_sorted_by_alias_and_siblings_by_coordinate() {
    let catalog = Catalog {
        libraries: vec![
            CatalogLibrary {
                alias: "zeta".into(),
                module: id("a", "1").module,
                requested_version: None,
            },
            CatalogLibrary {
                alias: "alpha".into(),
                module: id("b", "1").module,
                requested_version: Some("1".into()),
            },
        ],
    };
    let components = BTreeMap::from([
        (
            "a".into(),
            ResolvedComponent {
                id: id("a", "3"),
                children: vec!["y".into(), "x".into(), "missing".into()],
                metadata_urls: vec!["https://github.com/o/a".into()],
            },
        ),
        (
            "b".into(),
            ResolvedComponent {
                id: id("b", "2"),
                children: vec![],
                metadata_urls: vec![],
            },
        ),
        (
            "x".into(),
            ResolvedComponent {
                id: id("x", "1"),
                children: vec![],
                metadata_urls: vec![],
            },
        ),
        (
            "y".into(),
            ResolvedComponent {
                id: id("w", "1"),
                children: vec![],
                metadata_urls: vec![],
            },
        ),
    ]);
    let result = map_used_libraries(&catalog, &graph(components, vec![]));
    assert_eq!(result.len(), 2);
    assert_eq!(result[0].alias, "alpha");
    assert_eq!(result[0].requested.as_ref().unwrap().to_string(), "g:b:1");
    assert_eq!(result[0].selected.to_string(), "g:b:2");
    assert_eq!(result[1].alias, "zeta");
    assert!(result[1].requested.is_none());
    assert_eq!(result[1].metadata_urls, vec!["https://github.com/o/a".to_string()]);
    let children: Vec<String> = result[1]
        .dependencies
        .iter()
        .map(|node| node.component.to_string())
        .collect();
    assert_eq!(children, vec!["g:w:1".to_string(), "g:x:1".to_string()]);
}

#[test]
fn self_dependency_is_a_cycle() {
    let catalog = Catalog {
        libraries: vec![CatalogLibrary {
            alias: "loop".into(),
            module: id("a", "1").module,
            requested_version: None,
        }],
    };
    let components = BTreeMap::from([(
        "a".into(),
        ResolvedComponent {
            id: id("a", "1"),
            children: vec!["a".into()],
            metadata_urls: vec![],
        },
    )]);
    let result = map_used_libraries(&catalog, &graph(components, vec![]));
    assert_eq!(result[0].dependencies.len(), 1);
    assert!(result[0].dependencies[0].cycle);
    assert!(!result[0].dependencies[0].repeated);
    assert!(result[0].dependencies[0].children.is_empty());
}
