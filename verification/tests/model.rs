use gradlens::model::{ChangeKind, ComponentId, ModuleId};

#[test]
fn module_id_displays_group_and_name() {
    let module = ModuleId {
        group: "org.example".into(),
        name: "library".into(),
    };

    assert_eq!(module.to_string(), "org.example:library");
}

#[test]
fn component_id_displays_group_name_and_version() {
    let component = ComponentId {
        module: ModuleId {
            group: "org.example".into(),
            name: "library".into(),
        },
        version: "1.2.3".into(),
    };

    assert_eq!(component.to_string(), "org.example:library:1.2.3");
}

#[test]
fn component_order_is_group_then_name_then_version() {
    let id = |group: &str, name: &str, version: &str| ComponentId {
        module: ModuleId {
            group: group.into(),
            name: name.into(),
        },
        version: version.into(),
    };
    assert!(id("a", "z", "9").precedes(&id("b", "a", "0")));
    assert!(id("a", "a", "9").precedes(&id("a", "b", "0")));
    assert!(id("a", "a", "1").precedes(&id("a", "a", "2")));
    assert!(!id("a", "a", "1").precedes(&id("a", "a", "1")));
    assert!(!id("b", "a", "1").precedes(&id("a", "z", "9")));
}

#[test]
fn change_kinds_have_report_labels() {
    assert_eq!(ChangeKind::Added.label(), "added");
    assert_eq!(ChangeKind::Removed.label(), "removed");
    assert_eq!(ChangeKind::Updated.label(), "updated");
    assert_eq!(ChangeKind::ModuleChanged.label(), "module changed");
}
