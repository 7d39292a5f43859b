use gradlens::catalog::{
    normalize_catalog, CatalogError, LibraryTable, LibraryValue, RawCatalog, RichVersion,
    VersionSpec, VersionValue,
};

fn table(
    module: Option<&str>,
    group: Option<&str>,
    name: Option<&str>,
    version: Option<VersionSpec>,
) -> LibraryValue {
    LibraryValue::Table(LibraryTable {
        module: module.map(Into::into),
        group: group.map(Into::into),
        name: name.map(Into::into),
        version,
    })
}

fn rich(strictly: Option<&str>, require: Option<&str>, prefer: Option<&str>) -> RichVersion {
    RichVersion {
        strictly: strictly.map(Into::into),
        require: require.map(Into::into),
        prefer: prefer.map(Into::into),
    }
}

fn message(error: CatalogError) -> String {
    error.message()
}

#[test]
fn normalizes_supported_library_forms_in_entry_order() {
    let raw = RawCatalog {
        versions: vec![("acme".into(), VersionValue::Simple("1.2.3".into()))],
        libraries: vec![
            (
                "group-name".into(),
                table(None, Some("com.acme"), Some("grouped"), Some(VersionSpec::Simple("3.0".into()))),
            ),
            (
                "inline".into(),
                table(Some("com.acme:inline"), None, None, Some(VersionSpec::Simple("2.0".into()))),
            ),
            ("noversion".into(), table(Some("com.acme:platform"), None, None, None)),
            (
                "referenced".into(),
                table(
                    Some("com.acme:referenced"),
                    None,
                    None,
                    Some(VersionSpec::Ref { reference: "acme".into() }),
                ),
            ),
            (
                "rich".into(),
                table(
                    Some("com.acme:rich"),
                    None,
                    None,
                    Some(VersionSpec::Rich(rich(None, Some("4.0"), Some("3.9")))),
                ),
            ),
            ("string".into(), LibraryValue::Coordinate("com.acme:string:1.0".into())),
        ],
    };
    let catalog = normalize_catalog(&raw).unwrap();
    let values: Vec<_> = catalog
        .libraries
        .iter()
        .map(|it| {
            (
                it.alias.as_str(),
                it.module.to_string(),
                it.requested_version.as_deref(),
            )
        })
        .collect();
    assert_eq!(
        values,
        vec![
            ("group-name", "com.acme:grouped".into(), Some("3.0")),
            ("inline", "com.acme:inline".into(), Some("2.0")),
            ("noversion", "com.acme:platform".into(), None),
            ("referenced", "com.acme:referenced".into(), Some("1.2.3")),
            ("rich", "com.acme:rich".into(), Some("4.0")),
            ("string", "com.acme:string".into(), Some("1.0")),
        ]
    );
}

#[test]
fn reports_missing_version_reference_with_alias() {
    let raw = RawCatalog {
        versions: vec![],
        libraries: vec![(
            "broken".into(),
            table(
                Some("com.acme:broken"),
                None,
                None,
                Some(VersionSpec::Ref { reference: "missing".into() }),
            ),
        )],
    };
    let error = message(normalize_catalog(&raw).unwrap_err());
    assert!(error.contains("broken"));
    assert!(error.contains("missing"));
    assert_eq!(
        error,
        "library 'broken': version reference 'missing' is missing or empty"
    );
}

#[test]
fn rejects_malformed_string_coordinate() {
    let raw = RawCatalog {
        versions: vec![],
        libraries: vec![("bad".into(), LibraryValue::Coordinate("only:two".into()))],
    };
    let error = message(normalize_catalog(&raw).unwrap_err());
    assert!(error.contains("bad"));
    assert_eq!(error, "library 'bad': expected 'group:name:version'");
}

#[test]
fn rejects_incomplete_tables_and_empty_rich_references() {
    let raw = RawCatalog {
        versions: vec![("empty".into(), VersionValue::Rich(rich(None, None, None)))],
        libraries: vec![
            ("ok".into(), LibraryValue::Coordinate("a:b:c".into())),
            ("nomodule".into(), table(None, Some("g"), None, None)),
        ],
    };
    assert_eq!(
        message(normalize_catalog(&raw).unwrap_err()),
        "library 'nomodule': expected module or group plus name"
    );
    let raw = RawCatalog {
        versions: vec![("empty".into(), VersionValue::Rich(rich(None, None, None)))],
        libraries: vec![(
            "ref".into(),
            table(Some("g:n"), None, None, Some(VersionSpec::Ref { reference: "empty".into() })),
        )],
    };
    assert_eq!(
        message(normalize_catalog(&raw).unwrap_err()),
        "library 'ref': version reference 'empty' is missing or empty"
    );
    let raw = RawCatalog {
        versions: vec![],
        libraries: vec![("module".into(), table(Some("g:n:v"), None, None, None))],
    };
    assert_eq!(
        message(normalize_catalog(&raw).unwrap_err()),
        "library 'module': expected module 'group:name'"
    );
    let raw = RawCatalog {
        versions: vec![],
        libraries: vec![("both".into(), table(Some("g:n"), Some("g"), Some("n"), None))],
    };
    assert!(normalize_catalog(&raw).is_err());
    let raw = RawCatalog {
        versions: vec![],
        libraries: vec![("hole".into(), LibraryValue::Coordinate("g::1".into()))],
    };
    assert!(normalize_catalog(&raw).is_err());
}

#[test]
fn rich_versions_prefer_strictly_then_require_then_prefer() {
    let raw = RawCatalog {
        versions: vec![("v".into(), VersionValue::Rich(rich(Some("1"), Some("2"), Some("3"))))],
        libraries: vec![
            (
                "a".into(),
                table(Some("g:a"), None, None, Some(VersionSpec::Ref { reference: "v".into() })),
            ),
            (
                "b".into(),
                table(Some("g:b"), None, None, Some(VersionSpec::Rich(rich(None, None, Some("3"))))),
            ),
        ],
    };
    let catalog = normalize_catalog(&raw).unwrap();
    assert_eq!(catalog.libraries[0].requested_version.as_deref(), Some("1"));
    assert_eq!(catalog.libraries[1].requested_version.as_deref(), Some("3"));
}
