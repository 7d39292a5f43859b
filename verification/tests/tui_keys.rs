use gradlens::model::Inspection;
use gradlens::plain;
use gradlens::tui::app::{key_action, screen, Action, App, Key, Mode, Screen};

#[test]
fn readme_controls_map_to_actions() {
    assert!(matches!(key_action(Key::Tab, false, Mode::Normal), Some(Action::NextFocus)));
    assert!(matches!(key_action(Key::BackTab, false, Mode::Normal), Some(Action::PreviousFocus)));
    assert!(matches!(key_action(Key::Down, false, Mode::Normal), Some(Action::MoveDown)));
    assert!(matches!(key_action(Key::Char('j'), false, Mode::Normal), Some(Action::MoveDown)));
    assert!(matches!(key_action(Key::Up, false, Mode::Normal), Some(Action::MoveUp)));
    assert!(matches!(key_action(Key::Char('k'), false, Mode::Normal), Some(Action::MoveUp)));
    assert!(matches!(key_action(Key::Char('/'), false, Mode::Normal), Some(Action::StartSearch)));
    assert!(matches!(key_action(Key::Char('r'), false, Mode::Normal), Some(Action::Refresh)));
    assert!(matches!(key_action(Key::Char('?'), false, Mode::Normal), Some(Action::ToggleHelp)));
    assert!(matches!(key_action(Key::Esc, false, Mode::Normal), Some(Action::Escape)));
    assert!(matches!(key_action(Key::Char('q'), false, Mode::Normal), Some(Action::Quit)));
    assert!(matches!(key_action(Key::Char('e'), false, Mode::Normal), Some(Action::Export)));
    assert!(key_action(Key::Char('x'), false, Mode::Normal).is_none());
    assert!(key_action(Key::Other, false, Mode::Normal).is_none());
}

#[test]
fn search_mode_types_characters_but_q_still_quits() {
    assert!(matches!(key_action(Key::Char('x'), false, Mode::Search), Some(Action::SearchChar('x'))));
    assert!(matches!(key_action(Key::Char('e'), false, Mode::Search), Some(Action::SearchChar('e'))));
    assert!(matches!(key_action(Key::Char('q'), false, Mode::Search), Some(Action::Quit)));
    assert!(matches!(key_action(Key::Backspace, false, Mode::Search), Some(Action::Backspace)));
    assert!(key_action(Key::Char('x'), true, Mode::Search).is_none());
}

#[test]
fn export_without_inspection_reports_it() {
    let mut app = App::default();
    assert!(app.export_plan(false, 7).is_none());
    app.update(Action::Export);
    assert_eq!(app.status.as_deref(), Some("no inspection to export"));
}

#[test]
fn export_plans_the_plain_report_under_the_free_name() {
    let mut app = App::default();
    app.update(Action::Refresh);
    let inspection = Inspection {
        configuration: ":app:runtimeClasspath".into(),
        libraries: vec![],
        removed: vec![],
    };
    let expected = plain::render(&inspection);
    app.update(Action::InspectionLoaded {
        request_id: app.request_id,
        value: inspection,
    });
    let (name, text) = app.export_plan(false, 42).unwrap();
    assert_eq!(name, "gradlens-report.txt");
    assert_eq!(text, expected);
    let (name, _) = app.export_plan(true, 42).unwrap();
    assert_eq!(name, "gradlens-report-42.txt");
    app.update(Action::Exported { path: name });
    assert_eq!(app.status.as_deref(), Some("report written to gradlens-report-42.txt"));
    app.update(Action::ExportFailed {
        message: "disk full".into(),
    });
    assert_eq!(app.error.as_deref(), Some("disk full"));
}

#[test]
fn layout_follows_terminal_size() {

    assert_eq!(screen(79, 40), Screen::TooSmall);
    assert_eq!(screen(120, 23), Screen::TooSmall);
    assert_eq!(screen(80, 24), Screen::Compact);
    assert_eq!(screen(99, 50), Screen::Compact);
    assert_eq!(screen(100, 24), Screen::Wide);
}
