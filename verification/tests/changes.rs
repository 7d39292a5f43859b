use gradlens::catalog::{Catalog, CatalogLibrary};
use gradlens::changes::compare;
use gradlens::model::{ChangeKind, ModuleId};

fn library(alias: &str, module: &str, version: Option<&str>) -> CatalogLibrary {
    let (group, name) = module.split_once(':').unwrap();
    CatalogLibrary {
        alias: alias.into(),
        module: ModuleId {
            group: group.into(),
            name: name.into(),
        },
        requested_version: version.map(Into::into),
    }
}

#[test]
fn classifies_added_removed_updated_and_module_changes() {
    let baseline = Catalog {
        libraries: vec![
            library("removed", "g:old", Some("1")),
            library("updated", "g:u", Some("1")),
            library("moved", "g:old-module", Some("1")),
            library("same", "g:s", Some("1")),
        ],
    };
    let current = Catalog {
        libraries: vec![
            library("added", "g:new", Some("1")),
            library("updated", "g:u", Some("2")),
            library("moved", "g:new-module", Some("1")),
            library("same", "g:s", Some("1")),
        ],
    };
    let result = compare(&baseline, &current);
    assert_eq!(
        result
            .iter()
            .map(|c| (&*c.alias, c.kind))
            .collect::<Vec<_>>(),
        vec![
            ("added", ChangeKind::Added),
            ("moved", ChangeKind::ModuleChanged),
            ("removed", ChangeKind::Removed),
            ("updated", ChangeKind::Updated)
        ]
    );
}

#[test]
fn comparing_a_catalog_with_itself_reports_nothing() {
    let catalog = Catalog {
        libraries: vec![
            library("b", "g:b", Some("1")),
            library("a", "g:a", None),
        ],
    };
    assert!(compare(&catalog, &catalog).is_empty());
}

#[test]
fn changes_carry_baseline_and_current_coordinates() {
    let baseline = Catalog {
        libraries: vec![library("x", "g:x", Some("1")), library("gone", "g:gone", None)],
    };
    let current = Catalog {
        libraries: vec![library("x", "g:x", Some("2"))],
    };
    let result = compare(&baseline, &current);
    assert_eq!(result.len(), 2);
    assert_eq!(result[0].alias, "gone");
    assert_eq!(result[0].kind, ChangeKind::Removed);
    assert!(result[0].baseline.is_none());
    assert!(result[0].current.is_none());
    assert_eq!(result[1].alias, "x");
    assert_eq!(result[1].baseline.as_ref().unwrap().to_string(), "g:x:1");
    assert_eq!(result[1].current.as_ref().unwrap().to_string(), "g:x:2");
}

#[test]
fn later_declaration_of_an_alias_wins() {
    let baseline = Catalog {
        libraries: vec![library("a", "g:first", Some("1")), library("a", "g:second", Some("1"))],
    };
    let current = Catalog {
        libraries: vec![library("a", "g:second", Some("1"))],
    };
    assert!(compare(&baseline, &current).is_empty());
}

#[test]
fn change_errors_read_as_sentences() {
    let git = gradlens::changes::ChangeError::Git {
        baseline: "main".into(),
        path: "gradle/libs.versions.toml".into(),
        message: "bad revision".into(),
    };
    assert_eq!(
        git.message(),
        "git could not read 'gradle/libs.versions.toml' from baseline 'main': bad revision"
    );
    let catalog = gradlens::changes::ChangeError::Catalog(gradlens::catalog::CatalogError::Toml(
        "expected value".into(),
    ));
    assert_eq!(catalog.message(), "invalid catalog TOML: expected value");
}
