use browser_switcher::registry::{
    choose_current_default_browser_protocol_id, extract_executable_path, extract_icon_file_path,
    includes_required_web_protocols,
};

#[test]
fn prefers_user_choice_over_user_choice_latest_for_current_default_browser() {
    let protocol_id = choose_current_default_browser_protocol_id(
        Some("FirefoxURL-308046B0AF4A39CB".to_string()),
        Some("MSEdgeHTM".to_string()),
    );

    assert_eq!(
        protocol_id.as_deref(),
        Some("FirefoxURL-308046B0AF4A39CB")
    );
}

#[test]
fn extracts_quoted_executable_path_from_shell_command() {
    let path = extract_executable_path(
        r#""C:\Program Files\Mozilla Firefox\firefox.exe" -osint -url "%1""#,
    );

    assert_eq!(
        path.as_deref(),
        Some(r"C:\Program Files\Mozilla Firefox\firefox.exe")
    );
}

#[test]
fn extracts_unquoted_executable_path_from_shell_command() {
    let path = extract_executable_path(r"C:\Browser\browser.exe --flag");

    assert_eq!(path.as_deref(), Some(r"C:\Browser\browser.exe"));
}

#[test]
fn ignores_blank_shell_commands() {
    assert_eq!(extract_executable_path("  "), None);
}

#[test]
fn extracts_path_from_application_icon_location() {
    let path = extract_icon_file_path(r"C:\Program Files\Arc\Arc.exe,0");

    assert_eq!(path.as_deref(), Some(r"C:\Program Files\Arc\Arc.exe"));
}

#[test]
fn extracts_quoted_path_from_application_icon_location() {
    let path = extract_icon_file_path(r#""C:\Program Files\Arc\Arc.exe",0"#);

    assert_eq!(path.as_deref(), Some(r"C:\Program Files\Arc\Arc.exe"));
}

#[test]
fn ignores_indirect_resource_icon_locations() {
    let path = extract_icon_file_path(
        r"@{Microsoft.Paint_11.2601.441.0_x64__8wekyb3d8bbwe?ms-resource://Microsoft.Paint/Resources/AppDisplayName}",
    );

    assert_eq!(path, None);
}

#[test]
fn treats_capabilities_with_http_and_https_as_browser_capabilities() {
    assert!(includes_required_web_protocols(&["http", "https", "mailto"]));
}

#[test]
fn rejects_capabilities_without_full_web_protocol_pair() {
    assert!(!includes_required_web_protocols(&["mailto", "ms-appinstaller"]));
    assert!(!includes_required_web_protocols(&["http"]));
    assert!(!includes_required_web_protocols(&["https"]));
}
