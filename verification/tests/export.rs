use gradlens::export::tui_report_name;

#[test]
fn chooses_timestamped_tui_name_when_default_exists() {
    assert_eq!(
        tui_report_name(true, 1_700_000_000),
        "gradlens-report-1700000000.txt"
    );
    assert_eq!(tui_report_name(false, 1_700_000_000), "gradlens-report.txt");
    assert_eq!(tui_report_name(true, 0), "gradlens-report-0.txt");
    assert_eq!(
        tui_report_name(true, u64::MAX),
        "gradlens-report-18446744073709551615.txt"
    );
}
