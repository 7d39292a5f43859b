use gradlens::tui::app::{filter, next_focus, previous_focus, Action, App, Focus, Mode};

#[test]
fn focus_search_help_and_quit_transitions_are_predictable() {
    let mut app = App::default();
    assert_eq!(app.focus, Focus::Configurations);
    app.update(Action::NextFocus);
    assert_eq!(app.focus, Focus::Libraries);
    app.update(Action::StartSearch);
    assert_eq!(app.mode, Mode::Search);
    app.update(Action::SearchChar('r'));
    assert_eq!(app.search, "r");
    app.update(Action::Escape);
    assert_eq!(app.mode, Mode::Normal);
    app.update(Action::ToggleHelp);
    assert_eq!(app.mode, Mode::Help);
    app.update(Action::Escape);
    assert_eq!(app.mode, Mode::Normal);
    app.update(Action::Quit);
    assert!(app.should_quit);
}

#[test]
fn refresh_ids_reject_stale_results() {
    let mut app = App::default();
    app.update(Action::Refresh);
    let old = app.request_id;
    app.update(Action::Refresh);
    let current = app.request_id;
    app.update(Action::ConfigurationsLoaded {
        request_id: old,
        values: vec!["stale".into()],
    });
    assert!(app.configurations.is_empty());
    app.update(Action::ConfigurationsLoaded {
        request_id: current,
        values: vec![":app:runtimeClasspath".into()],
    });
    assert_eq!(app.configurations.len(), 1);
}

#[test]
fn focus_cycles_both_ways() {
    let all = [
        Focus::Configurations,
        Focus::Libraries,
        Focus::Dependencies,
        Focus::Release,
    ];
    for focus in all {
        assert_eq!(previous_focus(next_focus(focus)), focus);
        assert_eq!(next_focus(next_focus(next_focus(next_focus(focus)))), focus);
    }
    assert_eq!(previous_focus(Focus::Configurations), Focus::Release);
}

#[test]
fn selection_wraps_around_the_focused_list() {
    let mut app = App::default();
    app.update(Action::Refresh);
    let id = app.request_id;
    app.update(Action::ConfigurationsLoaded {
        request_id: id,
        values: vec!["a".into(), "b".into(), "c".into()],
    });
    assert_eq!(app.configuration_selected, Some(0));
    assert!(!app.loading);
    app.update(Action::MoveUp);
    assert_eq!(app.configuration_index, 2);
    app.update(Action::MoveDown);
    assert_eq!(app.configuration_index, 0);
    app.update(Action::MoveDown);
    assert_eq!(app.configuration_index, 1);
    assert_eq!(app.configuration_selected, Some(1));
    app.update(Action::NextFocus);
    app.update(Action::MoveDown);
    assert_eq!(app.library_index, 0);
    assert_eq!(app.library_selected, Some(0));
}

#[test]
fn escape_cancels_then_dismisses_and_search_edits_only_in_search_mode() {
    let mut app = App::default();
    app.update(Action::Refresh);
    assert!(app.loading);
    let id = app.request_id;
    app.update(Action::Escape);
    assert!(!app.loading);
    assert_eq!(app.request_id, id + 1);
    app.update(Action::Failed {
        request_id: id + 1,
        message: "boom".into(),
    });
    assert_eq!(app.error.as_deref(), Some("boom"));
    app.update(Action::Escape);
    assert!(app.error.is_none());
    app.update(Action::SearchChar('x'));
    assert_eq!(app.search, "");
    app.update(Action::StartSearch);
    app.update(Action::SearchChar('a'));
    app.update(Action::SearchChar('b'));
    app.update(Action::Backspace);
    assert_eq!(app.search, "a");
    app.update(Action::Backspace);
    app.update(Action::Backspace);
    assert_eq!(app.search, "");
}

#[test]
fn search_filter_ignores_case() {
    assert!(filter("Anything", ""));
    assert!(filter(":app:ReleaseRuntimeClasspath", "release"));
    assert!(filter("kotlin-stdlib", "STD"));
    assert!(!filter("okhttp", "room"));
}
