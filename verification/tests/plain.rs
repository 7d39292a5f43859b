use gradlens::model::{
    ChangeKind, ComponentId, DependencyNode, Inspection, LibraryChange, LibraryInspection,
    ModuleId, ReleaseLink, ReleaseMatch,
};
use gradlens::plain;

fn id(name: &str, version: &str) -> ComponentId {
    ComponentId {
        module: ModuleId {
            group: "g".into(),
            name: name.into(),
        },
        version: version.into(),
    }
}

#[test]
fn renders_selected_version_release_and_tree_without_ansi() {
    let inspection = Inspection {
        configuration: ":app:runtimeClasspath".into(),
        libraries: vec![LibraryInspection {
            alias: "alpha".into(),
            requested: Some(id("a", "1")),
            selected: id("a", "2"),
            dependencies: vec![DependencyNode {
                component: id("b", "1"),
                children: vec![],
                cycle: false,
                repeated: false,
            }],
            release: ReleaseLink {
                version: "2".into(),
                url: None,
                match_kind: ReleaseMatch::Unmatched,
                diagnostic: None,
            },
            change: None,
        }],
        removed: vec![],
    };
    let output = plain::render(&inspection);
    assert!(output.contains("requested: g:a:1"));
    assert!(output.contains("selected:  g:a:2"));
    assert!(output.contains("match: none"));
    assert!(output.contains("g:b:1"));
    assert!(!output.contains("\u{1b}["));
}

#[test]
fn renders_changes_not_present_in_configuration() {
    let inspection = Inspection {
        configuration: ":app:runtimeClasspath".into(),
        libraries: vec![],
        removed: vec![LibraryChange {
            alias: "kotlin-gradle-plugin".into(),
            kind: ChangeKind::Updated,
            baseline: Some(id("kotlin-gradle-plugin", "2.0")),
            current: Some(id("kotlin-gradle-plugin", "2.2")),
        }],
    };
    let output = plain::render(&inspection);
    assert!(output.contains("changes not present in configuration"));
    assert!(output.contains("kotlin-gradle-plugin"));
}

#[test]
fn renders_the_whole_report_exactly() {
    let inspection = Inspection {
        configuration: ":app:releaseRuntimeClasspath".into(),
        libraries: vec![LibraryInspection {
            alias: "room".into(),
            requested: None,
            selected: id("room", "2.8.0"),
            dependencies: vec![
                DependencyNode {
                    component: id("annotation", "1.9.1"),
                    children: vec![DependencyNode {
                        component: id("room", "2.8.0"),
                        children: vec![],
                        cycle: true,
                        repeated: false,
                    }],
                    cycle: false,
                    repeated: false,
                },
                DependencyNode {
                    component: id("stdlib", "2.2.10"),
                    children: vec![],
                    cycle: false,
                    repeated: false,
                },
            ],
            release: ReleaseLink {
                version: "2.8.0".into(),
                url: Some("https://example.com/room#2.8.0".into()),
                match_kind: ReleaseMatch::Generic,
                diagnostic: Some("could not verify exact release: timeout".into()),
            },
            change: Some(LibraryChange {
                alias: "room".into(),
                kind: ChangeKind::Added,
                baseline: None,
                current: Some(id("room", "2.7.2")),
            }),
        }],
        removed: vec![LibraryChange {
            alias: "gone".into(),
            kind: ChangeKind::Removed,
            baseline: None,
            current: None,
        }],
    };
    let expected = "configuration: :app:releaseRuntimeClasspath\n\
\n\
room\n\
\x20 change:    added\n\
\x20 baseline:  not present\n\
\x20 current:   g:room:2.7.2\n\
\x20 requested: managed by Gradle\n\
\x20 selected:  g:room:2.8.0\n\
\x20 release notes:\n\
\x20   version: 2.8.0\n\
\x20   url: https://example.com/room#2.8.0\n\
\x20   match: generic\n\
\x20   note: could not verify exact release: timeout\n\
\x20 dependencies:\n\
\x20   ├── g:annotation:1.9.1\n\
\x20   │   └── g:room:2.8.0 (cycle)\n\
\x20   └── g:stdlib:2.2.10\n\
\n\
changes not present in configuration:\n\
\x20 gone: unknown\n";
    assert_eq!(plain::render(&inspection), expected);
}

fn changed_library(alias: &str, release_url: Option<&str>) -> LibraryInspection {
    LibraryInspection {
        alias: alias.into(),
        requested: Some(id(alias, "2")),
        selected: id(alias, "3"),
        dependencies: vec![],
        release: ReleaseLink {
            version: "3".into(),
            url: release_url.map(|url| url.to_string()),
            match_kind: if release_url.is_some() {
                ReleaseMatch::Exact
            } else {
                ReleaseMatch::Unmatched
            },
            diagnostic: None,
        },
        change: Some(LibraryChange {
            alias: alias.into(),
            kind: ChangeKind::Updated,
            baseline: Some(id(alias, "1")),
            current: Some(id(alias, "2")),
        }),
    }
}

#[test]
fn summary_renders_counts_and_changed_dependency_rows_without_trees() {
    let mut library = changed_library("alpha", Some("https://example.com/alpha/3"));
    library.dependencies.push(DependencyNode {
        component: id("transitive", "1"),
        children: vec![],
        cycle: false,
        repeated: false,
    });
    let inspection = Inspection {
        configuration: ":app:runtimeClasspath".into(),
        libraries: vec![library],
        removed: vec![LibraryChange {
            alias: "absent".into(),
            kind: ChangeKind::Removed,
            baseline: Some(id("absent", "1")),
            current: None,
        }],
    };

    let output = plain::render_summary(&inspection);

    assert!(output.contains("updated: 1"));
    assert!(output.contains("removed: 1"));
    assert!(output.contains("alpha"));
    assert!(output.contains("g:alpha:1"));
    assert!(output.contains("g:alpha:2"));
    assert!(output.contains("g:alpha:3"));
    assert!(output.contains("https://example.com/alpha/3"));
    assert!(!output.contains("g:transitive:1"));
}

#[test]
fn release_notes_filter_keeps_only_libraries_with_urls() {
    let inspection = Inspection {
        configuration: ":app:runtimeClasspath".into(),
        libraries: vec![
            changed_library("documented", Some("https://example.com/documented/3")),
            changed_library("undocumented", None),
        ],
        removed: vec![],
    };

    let filtered = plain::with_release_notes(&inspection);

    assert_eq!(filtered.libraries.len(), 1);
    assert_eq!(filtered.libraries[0].alias, "documented");
}

#[test]
fn summary_counts_every_kind() {
    let inspection = Inspection {
        configuration: "c".into(),
        libraries: vec![LibraryInspection {
            alias: "quiet".into(),
            requested: None,
            selected: id("quiet", "1"),
            dependencies: vec![],
            release: ReleaseLink {
                version: "1".into(),
                url: None,
                match_kind: ReleaseMatch::Unmatched,
                diagnostic: None,
            },
            change: None,
        }],
        removed: vec![],
    };
    assert_eq!(
        plain::render_summary(&inspection),
        "configuration: c\nadded: 0\nremoved: 0\nupdated: 0\nmodule changed: 0\n"
    );
}

#[test]
fn report_opens_with_configuration_and_keeps_library_order() {
    let library = |alias: &str| LibraryInspection {
        alias: alias.into(),
        requested: None,
        selected: id(alias, "1"),
        dependencies: vec![],
        release: ReleaseLink {
            version: "1".into(),
            url: Some("https://example.com".into()),
            match_kind: ReleaseMatch::Generic,
            diagnostic: Some("slow".into()),
        },
        change: None,
    };
    let inspection = Inspection {
        configuration: ":c".into(),
        libraries: vec![library("zeta"), library("alpha")],
        removed: vec![],
    };
    let output = plain::render(&inspection);
    assert!(output.starts_with("configuration: :c\n"));
    let zeta = output.find("\nzeta\n").unwrap();
    let alpha = output.find("\nalpha\n").unwrap();
    assert!(zeta < alpha);
    assert!(output.contains("    url: https://example.com\n    match: generic\n    note: slow\n"));
    assert!(!output.contains('\u{1b}'));
}

#[test]
fn dependency_lines_are_depth_first_one_per_node() {
    let node = |name: &str, children: Vec<DependencyNode>, cycle: bool| DependencyNode {
        component: id(name, "1"),
        children,
        cycle,
        repeated: false,
    };
    let inspection = Inspection {
        configuration: ":c".into(),
        libraries: vec![LibraryInspection {
            alias: "root".into(),
            requested: None,
            selected: id("root", "1"),
            dependencies: vec![
                node("a", vec![node("b", vec![], false), node("root", vec![], true)], false),
                node("c", vec![], false),
            ],
            release: ReleaseLink {
                version: "1".into(),
                url: None,
                match_kind: ReleaseMatch::Unmatched,
                diagnostic: None,
            },
            change: None,
        }],
        removed: vec![],
    };
    let output = plain::render(&inspection);
    let tree = output.split("  dependencies:\n").nth(1).unwrap();
    let lines: Vec<&str> = tree.lines().collect();
    assert_eq!(lines.len(), 4);
    assert!(lines[0].ends_with("g:a:1"));
    assert!(lines[1].ends_with("g:b:1"));
    assert!(lines[2].ends_with("g:root:1 (cycle)"));
    assert!(lines[3].ends_with("g:c:1"));
}
