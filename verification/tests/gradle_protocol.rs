use gradlens::gradle::{
    check_graph, extract_payload, format_selector, resolve_selector, ConfigurationCandidate,
    GradleError, ResolvedComponent, ResolvedGraph,
};
use gradlens::model::{ComponentId, ModuleId};

fn text(value: &serde_json::Value) -> String {
    value.as_str().unwrap().to_owned()
}

fn texts(value: Option<&serde_json::Value>) -> Vec<String> {
    value
        .and_then(|v| v.as_array())
        .map(|items| items.iter().map(text).collect())
        .unwrap_or_default()
}

fn graph_from_json(payload: &str) -> ResolvedGraph {
    let value: serde_json::Value = serde_json::from_str(payload).unwrap();
    let components = value["components"]
        .as_object()
        .unwrap()
        .iter()
        .map(|(key, component)| {
            let id = &component["id"];
            (
                key.clone(),
                ResolvedComponent {
                    id: ComponentId {
                        module: ModuleId {
                            group: text(&id["module"]["group"]),
                            name: text(&id["module"]["name"]),
                        },
                        version: text(&id["version"]),
                    },
                    children: texts(component.get("children")),
                    metadata_urls: texts(component.get("metadata_urls")),
                },
            )
        })
        .collect();
    ResolvedGraph {
        components,
        roots: texts(value.get("roots")),
    }
}

fn decode_graph(output: &str) -> Result<ResolvedGraph, GradleError> {
    let payload = extract_payload(output)?;
    check_graph(graph_from_json(&payload))
}

#[test]
fn decodes_one_delimited_graph_amid_logs() {
    let output = "noise\nGRADLE_CHECKER_BEGIN\n{\"components\":{\"a\":{\"id\":{\"module\":{\"group\":\"g\",\"name\":\"a\"},\"version\":\"1\"},\"children\":[\"b\"],\"metadata_urls\":[]}},\"roots\":[\"a\"]}\nGRADLE_CHECKER_END\nmore";
    let error = decode_graph(output).unwrap_err().to_string();
    assert!(error.contains("unknown child 'b'"));
}

#[test]
fn rejects_missing_and_duplicate_payloads() {
    assert!(decode_graph("nothing").is_err());
    let payload = "GRADLE_CHECKER_BEGIN\n{\"components\":{},\"roots\":[]}\nGRADLE_CHECKER_END";
    assert!(decode_graph(&format!("{payload}\n{payload}")).is_err());
}

#[test]
fn payload_framing_distinguishes_missing_and_duplicate() {
    assert_eq!(extract_payload("nothing"), Err(GradleError::MissingPayload));
    assert_eq!(
        extract_payload("GRADLE_CHECKER_BEGIN {} no end"),
        Err(GradleError::MissingPayload)
    );
    let payload = "GRADLE_CHECKER_BEGIN\n{\"components\":{},\"roots\":[]}\nGRADLE_CHECKER_END";
    assert_eq!(
        extract_payload(&format!("{payload}\n{payload}")),
        Err(GradleError::DuplicatePayload)
    );
    assert_eq!(
        extract_payload(&format!("log\n{payload}\ntrailer")).unwrap(),
        "{\"components\":{},\"roots\":[]}"
    );
    assert_eq!(
        GradleError::DuplicatePayload.to_string(),
        "inspection output contained multiple payloads"
    );
}

#[test]
fn closed_graph_is_accepted_and_unknown_root_is_named() {
    let payload = "{\"components\":{\"a\":{\"id\":{\"module\":{\"group\":\"g\",\"name\":\"a\"},\"version\":\"1\"},\"children\":[]}},\"roots\":[\"a\"]}";
    let graph = check_graph(graph_from_json(payload)).unwrap();
    assert_eq!(graph.components.len(), 1);
    let payload = "{\"components\":{},\"roots\":[\"z\"]}";
    assert_eq!(
        check_graph(graph_from_json(payload)).unwrap_err(),
        GradleError::UnknownChild("z".into())
    );
}

#[test]
fn resolves_qualified_unique_and_ambiguous_selectors() {
    let values = vec![
        ConfigurationCandidate {
            project: ":app".into(),
            name: "runtimeClasspath".into(),
        },
        ConfigurationCandidate {
            project: ":lib".into(),
            name: "runtimeClasspath".into(),
        },
        ConfigurationCandidate {
            project: ":app".into(),
            name: "compileClasspath".into(),
        },
    ];
    assert_eq!(
        resolve_selector(":app:runtimeClasspath", &values)
            .unwrap()
            .project,
        ":app"
    );
    assert_eq!(
        resolve_selector("compileClasspath", &values).unwrap().name,
        "compileClasspath"
    );
    assert!(
        resolve_selector("runtimeClasspath", &values)
            .unwrap_err()
            .to_string()
            .contains("ambiguous")
    );
    assert!(resolve_selector("missing", &values).is_err());
}

#[test]
fn ambiguity_lists_every_candidate_and_root_project_selectors_have_one_colon() {
    let values = vec![
        ConfigurationCandidate {
            project: ":".into(),
            name: "runtimeClasspath".into(),
        },
        ConfigurationCandidate {
            project: ":lib".into(),
            name: "runtimeClasspath".into(),
        },
    ];
    assert_eq!(format_selector(":", "runtimeClasspath"), ":runtimeClasspath");
    assert_eq!(format_selector(":lib", "api"), ":lib:api");
    assert_eq!(
        resolve_selector("runtimeClasspath", &values).unwrap_err(),
        GradleError::AmbiguousConfiguration {
            selector: "runtimeClasspath".into(),
            candidates: ":runtimeClasspath, :lib:runtimeClasspath".into(),
        }
    );
    assert_eq!(
        resolve_selector(":runtimeClasspath", &values).unwrap().project,
        ":"
    );
    assert_eq!(
        resolve_selector("missing", &values).unwrap_err().to_string(),
        "configuration 'missing' was not found"
    );
}

#[test]
fn graph_order_is_checked() {
    let component = |name: &str| ResolvedComponent {
        id: ComponentId {
            module: ModuleId {
                group: "g".into(),
                name: name.into(),
            },
            version: "1".into(),
        },
        children: vec![],
        metadata_urls: vec![],
    };
    let ordered = ResolvedGraph {
        components: vec![("a".into(), component("a")), ("b".into(), component("b"))],
        roots: vec![],
    };
    assert!(ordered.is_well_formed());
    let unordered = ResolvedGraph {
        components: vec![("b".into(), component("b")), ("a".into(), component("a"))],
        roots: vec![],
    };
    assert!(!unordered.is_well_formed());
}
