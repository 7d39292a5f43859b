use gradlens::model::{ComponentId, ModuleId, ReleaseMatch};
use gradlens::releases::{
    androidx_url, normalize_repository, plan_release, release_step, ProbeOutcome,
    ReleaseCandidate, ReleasePlan, ReleaseStep,
};

fn component(group: &str, name: &str, version: &str) -> ComponentId {
    ComponentId {
        module: ModuleId {
            group: group.into(),
            name: name.into(),
        },
        version: version.into(),
    }
}

fn finish(plan: &ReleasePlan, outcomes: &Vec<ProbeOutcome>) -> gradlens::model::ReleaseLink {
    match release_step(plan, outcomes) {
        ReleaseStep::Finish(link) => link,
        ReleaseStep::Probe(url) => panic!("unexpected probe of {url}"),
    }
}

#[test]
fn missing_metadata_has_no_release_link() {
    let plan = plan_release(&ReleaseCandidate {
        component: component("x", "y", "1.0"),
        metadata_urls: vec![],
    });
    let result = finish(&plan, &vec![]);
    assert_eq!(result.match_kind, ReleaseMatch::Unmatched);
    assert!(result.url.is_none());
}

#[test]
fn androidx_uses_selected_version_anchor() {
    let plan = plan_release(&ReleaseCandidate {
        component: component("androidx.room", "room-runtime", "2.8.0"),
        metadata_urls: vec![],
    });
    let result = finish(&plan, &vec![]);
    assert_eq!(result.match_kind, ReleaseMatch::Exact);
    assert_eq!(
        result.url.unwrap().as_str(),
        "https://developer.android.com/jetpack/androidx/releases/room#2.8.0"
    );
}

#[test]
fn unreachable_repository_falls_back_to_generic() {
    let plan = plan_release(&ReleaseCandidate {
        component: component("x", "y", "1.0"),
        metadata_urls: vec!["http://127.0.0.1:9/org/repo".into()],
    });
    let mut outcomes = Vec::new();
    loop {
        match release_step(&plan, &outcomes) {
            ReleaseStep::Probe(_) => outcomes.push(ProbeOutcome::Failed("connection refused".into())),
            ReleaseStep::Finish(result) => {
                assert_eq!(result.match_kind, ReleaseMatch::Generic);
                assert!(result.diagnostic.is_some());
                assert_eq!(
                    result.url.as_deref(),
                    Some("http://127.0.0.1:9/org/repo/releases")
                );
                assert_eq!(
                    result.diagnostic.as_deref(),
                    Some("could not verify exact release: connection refused")
                );
                break;
            }
        }
    }
    assert_eq!(outcomes.len(), 4);
}

#[test]
fn candidate_pages_are_raw_and_prefixed_tags_on_both_hosts() {
    let plan = plan_release(&ReleaseCandidate {
        component: component("com.squareup.okhttp3", "okhttp", "5.1.0"),
        metadata_urls: vec![
            "not a url".into(),
            "scm:git:git@github.com:square/okhttp.git".into(),
        ],
    });
    match &plan {
        ReleasePlan::Probe {
            version,
            candidates,
            generic,
        } => {
            assert_eq!(version, "5.1.0");
            assert_eq!(generic, "https://github.com/square/okhttp/releases");
            assert_eq!(
                candidates,
                &vec![
                    "https://github.com/square/okhttp/releases/tag/5.1.0".to_string(),
                    "https://github.com/square/okhttp/-/releases/5.1.0".to_string(),
                    "https://github.com/square/okhttp/releases/tag/v5.1.0".to_string(),
                    "https://github.com/square/okhttp/-/releases/v5.1.0".to_string(),
                ]
            );
        }
        ReleasePlan::Done(_) => panic!("expected candidates"),
    }
    let outcomes = vec![ProbeOutcome::Rejected];
    match release_step(&plan, &outcomes) {
        ReleaseStep::Probe(url) => {
            assert_eq!(url, "https://github.com/square/okhttp/-/releases/5.1.0")
        }
        ReleaseStep::Finish(_) => panic!("expected another probe"),
    }
    let outcomes = vec![ProbeOutcome::Failed("x".into()), ProbeOutcome::Verified];
    let link = finish(&plan, &outcomes);
    assert_eq!(link.match_kind, ReleaseMatch::Exact);
    assert_eq!(
        link.url.as_deref(),
        Some("https://github.com/square/okhttp/-/releases/5.1.0")
    );
    assert!(link.diagnostic.is_none());
}

#[test]
fn repositories_are_normalized_to_known_hosts() {
    assert_eq!(
        normalize_repository("git@gitlab.com:group/project.git.git").as_deref(),
        Some("https://gitlab.com/group/project/")
    );
    assert_eq!(
        normalize_repository("https://github.com/o/r/").as_deref(),
        Some("https://github.com/o/r/")
    );
    assert_eq!(normalize_repository("https://example.com/o/r"), None);
    assert_eq!(normalize_repository("::"), None);
}

#[test]
fn only_androidx_groups_have_family_pages() {
    assert_eq!(androidx_url(&component("org.example", "x", "1")), None);
    assert_eq!(
        androidx_url(&component("androidx.compose.ui", "ui", "1.7.0")).as_deref(),
        Some("https://developer.android.com/jetpack/androidx/releases/compose#1.7.0")
    );
}

#[test]
fn rejected_pages_fall_back_to_generic_without_note() {
    let plan = plan_release(&ReleaseCandidate {
        component: component("com.squareup.okhttp3", "okhttp", "5.1.0"),
        metadata_urls: vec!["https://github.com/square/okhttp".into()],
    });
    let outcomes = vec![ProbeOutcome::Rejected; 4];
    let link = finish(&plan, &outcomes);
    assert_eq!(link.match_kind, ReleaseMatch::Generic);
    assert_eq!(link.version, "5.1.0");
    assert_eq!(
        link.url.as_deref(),
        Some("https://github.com/square/okhttp/releases")
    );
    assert!(link.diagnostic.is_none());
}
