use browser_switcher::browser::{
    browser_matches_default_protocol, browser_menu_label, dedupe_browsers, BrowserRegistration,
    BrowserScope,
};

fn browser(
    display_name: &str,
    registry_id: &str,
    scope: BrowserScope,
    executable_path: Option<&str>,
) -> BrowserRegistration {
    BrowserRegistration {
        display_name: display_name.to_string(),
        registry_id: registry_id.to_string(),
        scope,
        executable_path: executable_path.map(str::to_string),
        icon_path: None,
        url_protocol_ids: vec![registry_id.to_string()],
    }
}

#[test]
fn dedupe_merges_matching_identifier_and_display_name_case_insensitively() {
    let browsers = dedupe_browsers(vec![
        browser("Google Chrome", "ChromeHTML", BrowserScope::User, None),
        browser(
            "google chrome",
            "chromehtml",
            BrowserScope::Machine,
            Some(r"C:\Program Files\Google\Chrome\Application\chrome.exe"),
        ),
    ]);

    assert_eq!(browsers.len(), 1);
    assert_eq!(browsers[0].display_name, "Google Chrome");
    assert_eq!(
        browsers[0].executable_path.as_deref(),
        Some(r"C:\Program Files\Google\Chrome\Application\chrome.exe")
    );
}

#[test]
fn dedupe_keeps_distinct_browsers_with_the_same_display_name() {
    let browsers = dedupe_browsers(vec![
        browser("Firefox", "FirefoxURL", BrowserScope::Machine, None),
        browser("Firefox", "FirefoxURL-308046B0AF4A39CB", BrowserScope::User, None),
    ]);

    assert_eq!(browsers.len(), 2);
}

#[test]
fn dedupe_merges_matching_identifier_with_different_display_names() {
    let browsers = dedupe_browsers(vec![
        browser("Firefox", "Firefox-308046B0AF4A39CB", BrowserScope::Machine, None),
        browser(
            "Mozilla Firefox",
            "Firefox-308046B0AF4A39CB",
            BrowserScope::Machine,
            Some(r"C:\Program Files\Mozilla Firefox\firefox.exe"),
        ),
    ]);

    assert_eq!(browsers.len(), 1);
    assert_eq!(browsers[0].display_name, "Firefox");
    assert_eq!(
        browsers[0].executable_path.as_deref(),
        Some(r"C:\Program Files\Mozilla Firefox\firefox.exe")
    );
}

#[test]
fn dedupe_sorts_browsers_by_display_name() {
    let browsers = dedupe_browsers(vec![
        browser("Google Chrome", "ChromeHTML", BrowserScope::Machine, None),
        browser("Arc", "TheBrowserCompany.Arc_ttt1ap7aakyb4!Arc", BrowserScope::AppModel, None),
        browser("Firefox", "FirefoxURL", BrowserScope::Machine, None),
    ]);

    let names: Vec<_> = browsers
        .iter()
        .map(|browser| browser.display_name.as_str())
        .collect();

    assert_eq!(names, vec!["Arc", "Firefox", "Google Chrome"]);
}

#[test]
fn menu_label_marks_default_browser() {
    let browser = browser("Google Chrome", "ChromeHTML", BrowserScope::Machine, None);

    assert_eq!(
        browser_menu_label(&browser, Some("ChromeHTML")),
        "Google Chrome ✓"
    );
}

#[test]
fn menu_label_does_not_mark_non_default_browser() {
    let browser = browser("Firefox", "FirefoxURL", BrowserScope::Machine, None);

    assert_eq!(browser_menu_label(&browser, Some("ChromeHTML")), "Firefox");
}

#[test]
fn default_browser_match_is_case_insensitive() {
    let browser = browser("Google Chrome", "ChromeHTML", BrowserScope::Machine, None);

    assert!(browser_matches_default_protocol(
        &browser,
        Some("chromehtml")
    ));
}

#[test]
fn default_browser_matches_url_protocol_association_id() {
    let mut browser = browser("Google Chrome", "Google Chrome", BrowserScope::Machine, None);
    browser.url_protocol_ids = vec!["ChromeHTML".to_string()];

    assert_eq!(
        browser_menu_label(&browser, Some("ChromeHTML")),
        "Google Chrome ✓"
    );
}
