use gradlens::inspect::apply_changes;
use gradlens::model::{
    ChangeKind, ComponentId, LibraryChange, LibraryInspection, ModuleId, ReleaseLink,
    ReleaseMatch,
};

fn id(name: &str, version: &str) -> ComponentId {
    ComponentId {
        module: ModuleId {
            group: "g".into(),
            name: name.into(),
        },
        version: version.into(),
    }
}

fn library(alias: &str) -> LibraryInspection {
    LibraryInspection {
        alias: alias.into(),
        requested: Some(id(alias, "1")),
        selected: id(alias, "2"),
        dependencies: vec![],
        release: ReleaseLink {
            version: "2".into(),
            url: None,
            match_kind: ReleaseMatch::Unmatched,
            diagnostic: None,
        },
        change: None,
    }
}

fn change(alias: &str, kind: ChangeKind) -> LibraryChange {
    LibraryChange {
        alias: alias.into(),
        kind,
        baseline: Some(id(alias, "1")),
        current: None,
    }
}

#[test]
fn comparison_hides_unchanged_libraries_and_lists_changes_outside_the_configuration() {
    let libraries = vec![library("kept"), library("unchanged")];
    let changes = vec![
        change("gone", ChangeKind::Removed),
        change("kept", ChangeKind::Updated),
        change("unused", ChangeKind::Added),
    ];
    let (shown, apart) = apply_changes(&libraries, &changes);
    assert_eq!(shown.len(), 1);
    assert_eq!(shown[0].alias, "kept");
    assert_eq!(shown[0].change.as_ref().unwrap().kind, ChangeKind::Updated);
    assert_eq!(shown[0].selected.to_string(), "g:kept:2");
    assert_eq!(
        apart.iter().map(|c| c.alias.as_str()).collect::<Vec<_>>(),
        vec!["gone", "unused"]
    );
}
