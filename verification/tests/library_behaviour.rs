use browser_switcher::browser::{
    browser_matches_default_protocol, browser_menu_label, dedupe_browsers, BrowserRegistration,
    BrowserScope,
};
use browser_switcher::icons::{bgra_to_rgba, browser_icon, widestring, IconSource};
use browser_switcher::registry::{
    app_model_protocol_matches_browser, app_model_registration, apply_app_model_registration,
    browser_if_valid, choose_current_default_browser_protocol_id, extract_executable_path,
    extract_icon_file_path, is_application_user_model_id, is_user_hive, merge_protocol_id,
    merge_protocol_ids, nonblank_value, registered_application_browser,
    start_menu_client_browser, trimmed_nonblank_value, web_protocol_ids,
};
use browser_switcher::settings::{default_apps_uri_for, percent_encode_query_value, DEFAULT_APPS_URI};
use browser_switcher::text::{str_eq_ignore_case, trim_str};
use browser_switcher::tray::{
    browser_settings_target, build_menu_plan, menu_action, shell_execute_succeeded,
    tray_click_shows_menu, MenuAction, MenuItemPlan, PointerButton, PointerState,
};

fn registration(display_name: &str, registry_id: &str, ids: &[&str]) -> BrowserRegistration {
    BrowserRegistration {
        display_name: display_name.to_string(),
        registry_id: registry_id.to_string(),
        scope: BrowserScope::Machine,
        executable_path: None,
        icon_path: None,
        url_protocol_ids: ids.iter().map(|id| id.to_string()).collect(),
    }
}

fn strings(values: &[&str]) -> Vec<String> {
    values.iter().map(|v| v.to_string()).collect()
}

// Deduplication

#[test]
fn dedupe_of_deduped_list_is_unchanged() {
    let once = dedupe_browsers(vec![
        registration("Firefox", "FirefoxURL", &["FirefoxURL"]),
        registration("Edge", "MSEdgeHTM", &["MSEdgeHTM"]),
        registration("firefox", " firefoxurl ", &["FIREFOXURL", "FirefoxHTML"]),
    ]);
    let twice = dedupe_browsers(once.clone());
    assert_eq!(once, twice);
    assert_eq!(once.len(), 2);
}

#[test]
fn dedupe_merges_protocol_ids_without_case_duplicates() {
    let browsers = dedupe_browsers(vec![
        registration("Chrome", "ChromeHTML", &["ChromeHTML"]),
        registration("Chrome", "chromehtml", &["CHROMEHTML", "ChromeBHTML", "chromebhtml"]),
    ]);
    assert_eq!(browsers.len(), 1);
    assert_eq!(browsers[0].url_protocol_ids, strings(&["ChromeHTML", "ChromeBHTML"]));
    assert_eq!(browsers[0].registry_id, "ChromeHTML");
    assert_eq!(browsers[0].scope, BrowserScope::Machine);
}

#[test]
fn dedupe_keeps_first_known_paths() {
    let mut first = registration("Opera", "Opera", &["OperaStable"]);
    first.icon_path = Some("opera.ico".to_string());
    let mut second = registration("Opera", "opera", &["OperaStable"]);
    second.executable_path = Some("launcher.exe".to_string());
    second.icon_path = Some("other.ico".to_string());
    let mut third = registration("Opera", "OPERA", &[]);
    third.executable_path = Some("later.exe".to_string());
    let browsers = dedupe_browsers(vec![first, second, third]);
    assert_eq!(browsers.len(), 1);
    assert_eq!(browsers[0].icon_path.as_deref(), Some("opera.ico"));
    assert_eq!(browsers[0].executable_path.as_deref(), Some("launcher.exe"));
}

#[test]
fn dedupe_orders_equal_names_by_key() {
    let browsers = dedupe_browsers(vec![
        registration("Firefox", "FirefoxURL-B", &[]),
        registration("FIREFOX", "FirefoxURL-A", &[]),
        registration("arc", "Arc", &[]),
    ]);
    let ids: Vec<_> = browsers.iter().map(|b| b.registry_id.as_str()).collect();
    assert_eq!(ids, vec!["Arc", "FirefoxURL-A", "FirefoxURL-B"]);
}

#[test]
fn dedupe_of_nothing_is_nothing() {
    assert!(dedupe_browsers(Vec::new()).is_empty());
}

// Default browser and labels

#[test]
fn default_match_ignores_surrounding_whitespace() {
    let browser = registration("Edge", " MSEdgeHTM ", &[]);
    assert!(browser_matches_default_protocol(&browser, Some("msedgehtm\t")));
    assert!(!browser_matches_default_protocol(&browser, Some("MSEdge")));
    assert!(!browser_matches_default_protocol(&browser, None));
    assert_eq!(browser_menu_label(&browser, None), "Edge");
}

// Settings links

#[test]
fn percent_encoding_uses_utf8_bytes_and_upper_case_hex() {
    assert_eq!(percent_encode_query_value("é~a-b_c.d"), "%C3%A9~a-b_c.d");
    assert_eq!(percent_encode_query_value("a&b=c#"), "a%26b%3Dc%23");
    assert_eq!(percent_encode_query_value(""), "");
}

#[test]
fn settings_target_for_menu_index() {
    let browsers = vec![
        registration("Chrome", "ChromeHTML", &[]),
        registration("Edge", "MSEdgeHTM", &[]),
    ];
    assert_eq!(
        browser_settings_target(&browsers, 1).as_deref(),
        Some("ms-settings:defaultapps?registeredAppMachine=MSEdgeHTM")
    );
    assert_eq!(browser_settings_target(&browsers, 2), None);
    assert_eq!(DEFAULT_APPS_URI, "ms-settings:defaultapps");
    assert_eq!(
        default_apps_uri_for(&browsers[0]),
        "ms-settings:defaultapps?registeredAppMachine=ChromeHTML"
    );
}

// Menu

#[test]
fn menu_plan_lists_browsers_then_fixed_items() {
    let browsers = vec![
        registration("Chrome", "ChromeHTML", &[]),
        registration("Edge", "MSEdgeHTM", &[]),
    ];
    let plan = build_menu_plan(&browsers, Some("msedgehtm"));
    assert_eq!(
        plan,
        vec![
            MenuItemPlan::Browser {
                index: 0,
                id: "browser:0".to_string(),
                label: "Chrome".to_string()
            },
            MenuItemPlan::Browser {
                index: 1,
                id: "browser:1".to_string(),
                label: "Edge ✓".to_string()
            },
            MenuItemPlan::Separator,
            MenuItemPlan::About,
            MenuItemPlan::Quit,
        ]
    );
}

#[test]
fn menu_plan_without_browsers_shows_placeholder() {
    let plan = build_menu_plan(&Vec::new(), None);
    assert_eq!(
        plan,
        vec![
            MenuItemPlan::NoBrowsers,
            MenuItemPlan::Separator,
            MenuItemPlan::About,
            MenuItemPlan::Quit
        ]
    );
}

#[test]
fn menu_ids_lead_back_to_their_browser() {
    let browsers: Vec<_> = (0..12)
        .map(|i| registration(&format!("B{i}"), &format!("Id{i}"), &[]))
        .collect();
    let plan = build_menu_plan(&browsers, None);
    for item in plan {
        if let MenuItemPlan::Browser { index, id, .. } = item {
            assert_eq!(menu_action(&id), MenuAction::OpenBrowserSettings(index));
        }
    }
}

#[test]
fn menu_actions_of_ids() {
    assert_eq!(menu_action("quit"), MenuAction::Quit);
    assert_eq!(menu_action("about"), MenuAction::ShowAbout);
    assert_eq!(menu_action("browser:12"), MenuAction::OpenBrowserSettings(12));
    assert_eq!(menu_action("browser:+3"), MenuAction::OpenBrowserSettings(3));
    assert_eq!(menu_action("browser:007"), MenuAction::OpenBrowserSettings(7));
    assert_eq!(menu_action("browser:"), MenuAction::Ignore);
    assert_eq!(menu_action("browser:+"), MenuAction::Ignore);
    assert_eq!(menu_action("browser:-1"), MenuAction::Ignore);
    assert_eq!(menu_action("browser:1x"), MenuAction::Ignore);
    assert_eq!(menu_action("browser:99999999999999999999999"), MenuAction::Ignore);
    assert_eq!(menu_action("Quit"), MenuAction::Ignore);
    assert_eq!(menu_action("no-browsers"), MenuAction::Ignore);
}

#[test]
fn only_left_or_right_button_release_opens_menu() {
    assert!(tray_click_shows_menu(PointerButton::Left, PointerState::Up));
    assert!(tray_click_shows_menu(PointerButton::Right, PointerState::Up));
    assert!(!tray_click_shows_menu(PointerButton::Middle, PointerState::Up));
    assert!(!tray_click_shows_menu(PointerButton::Left, PointerState::Down));
}

#[test]
fn shell_execute_codes_above_32_succeed() {
    assert!(!shell_execute_succeeded(0));
    assert!(!shell_execute_succeeded(32));
    assert!(shell_execute_succeeded(33));
    assert!(shell_execute_succeeded(42));
}

// Icons

#[test]
fn icon_sources_in_order() {
    let mut browser = registration("Arc", "Arc", &[]);
    assert_eq!(browser_icon(&browser), vec![IconSource::Fallback]);
    browser.executable_path = Some("arc.exe".to_string());
    browser.icon_path = Some("arc.png".to_string());
    assert_eq!(
        browser_icon(&browser),
        vec![
            IconSource::ImageFile("arc.png".to_string()),
            IconSource::Executable("arc.exe".to_string()),
            IconSource::Fallback
        ]
    );
}

#[test]
fn bgra_pixels_become_rgba() {
    assert_eq!(bgra_to_rgba(&[1, 2, 3, 4, 5, 6, 7, 8, 9]), vec![3, 2, 1, 4, 7, 6, 5, 8]);
    let once = bgra_to_rgba(&[10, 20, 30, 40]);
    assert_eq!(bgra_to_rgba(&once), vec![10, 20, 30, 40]);
}

#[test]
fn widestring_is_utf16_with_terminator() {
    assert_eq!(widestring("A\u{e9}\u{1F600}"), vec![0x41, 0xe9, 0xd83d, 0xde00, 0]);
    assert_eq!(widestring(""), vec![0]);
}

// Registry values

#[test]
fn executable_path_edge_cases() {
    assert_eq!(extract_executable_path("\"C:\\no end"), None);
    assert_eq!(extract_executable_path("  app.exe\t--x").as_deref(), Some("app.exe"));
    assert_eq!(extract_executable_path("\"\" x").as_deref(), Some(""));
}

#[test]
fn icon_path_edge_cases() {
    assert_eq!(extract_icon_file_path("  "), None);
    assert_eq!(extract_icon_file_path("C:\\a,b.exe , 3").as_deref(), Some("C:\\a,b.exe"));
    assert_eq!(extract_icon_file_path("C:\\plain.ico").as_deref(), Some("C:\\plain.ico"));
    assert_eq!(extract_icon_file_path("\"C:\\open"), None);
    assert_eq!(extract_icon_file_path("\"\",0"), None);
    assert_eq!(extract_icon_file_path(" \"x.exe\" ,0").as_deref(), Some("x.exe"));
}

#[test]
fn web_protocol_ids_need_both_schemes() {
    assert_eq!(
        web_protocol_ids(Some(" ChromeHTML ".to_string()), Some("chromehtml".to_string())),
        strings(&["ChromeHTML"])
    );
    assert_eq!(
        web_protocol_ids(Some("A".to_string()), Some("B".to_string())),
        strings(&["A", "B"])
    );
    assert_eq!(
        web_protocol_ids(Some("  ".to_string()), Some("B".to_string())),
        strings(&["B"])
    );
    assert!(web_protocol_ids(Some("A".to_string()), None).is_empty());
    assert!(web_protocol_ids(None, Some("B".to_string())).is_empty());
}

#[test]
fn merging_protocol_ids_trims_and_skips_duplicates() {
    let mut ids = strings(&["ChromeHTML"]);
    merge_protocol_id(&mut ids, " chromehtml ".to_string());
    merge_protocol_id(&mut ids, "   ".to_string());
    merge_protocol_id(&mut ids, " ChromePDF ".to_string());
    assert_eq!(ids, strings(&["ChromeHTML", "ChromePDF"]));
    merge_protocol_ids(&mut ids, &strings(&["CHROMEPDF", "x", " X"]));
    assert_eq!(ids, strings(&["ChromeHTML", "ChromePDF", "x"]));
}

#[test]
fn value_filters() {
    assert_eq!(trimmed_nonblank_value(Some("  FirefoxURL ".to_string())).as_deref(), Some("FirefoxURL"));
    assert_eq!(trimmed_nonblank_value(Some(" \t".to_string())), None);
    assert_eq!(trimmed_nonblank_value(None), None);
    assert_eq!(nonblank_value(Some(" Firefox ".to_string())).as_deref(), Some(" Firefox "));
    assert_eq!(nonblank_value(Some("".to_string())), None);
    assert_eq!(
        choose_current_default_browser_protocol_id(None, Some("MSEdgeHTM".to_string())).as_deref(),
        Some("MSEdgeHTM")
    );
    assert_eq!(choose_current_default_browser_protocol_id(None, None), None);
}

#[test]
fn browser_if_valid_trims_and_rejects_blank_names() {
    let b = browser_if_valid(
        " Edge ".to_string(),
        " MSEdgeHTM".to_string(),
        BrowserScope::User,
        Some("msedge.exe".to_string()),
        strings(&["MSEdgeHTM"]),
    )
    .unwrap();
    assert_eq!(b.display_name, "Edge");
    assert_eq!(b.registry_id, "MSEdgeHTM");
    assert_eq!(b.icon_path.as_deref(), Some("msedge.exe"));
    assert_eq!(b.executable_path.as_deref(), Some("msedge.exe"));
    assert!(browser_if_valid(" ".to_string(), "x".to_string(), BrowserScope::User, None, Vec::new()).is_none());
    assert!(browser_if_valid("x".to_string(), "".to_string(), BrowserScope::User, None, Vec::new()).is_none());
}

#[test]
fn registered_application_as_browser() {
    let b = registered_application_browser(
        "Firefox-308046B0AF4A39CB".to_string(),
        strings(&["FirefoxURL-308046B0AF4A39CB"]),
        Some("Firefox".to_string()),
        Some("C:\\Program Files\\Mozilla Firefox\\firefox.exe,0".to_string()),
        BrowserScope::Machine,
    )
    .unwrap();
    assert_eq!(b.display_name, "Firefox");
    assert_eq!(b.executable_path.as_deref(), Some("C:\\Program Files\\Mozilla Firefox\\firefox.exe"));
    let unnamed = registered_application_browser(
        "Chromium".to_string(),
        strings(&["ChromiumHTM"]),
        Some("  ".to_string()),
        None,
        BrowserScope::User,
    )
    .unwrap();
    assert_eq!(unnamed.display_name, "Chromium");
    assert_eq!(unnamed.executable_path, None);
    assert!(registered_application_browser("x".to_string(), Vec::new(), None, None, BrowserScope::User).is_none());
}

#[test]
fn start_menu_client_as_browser() {
    let b = start_menu_client_browser(
        "Firefox-308046B0AF4A39CB".to_string(),
        Some("Mozilla Firefox".to_string()),
        strings(&["FirefoxURL-308046B0AF4A39CB"]),
        Some("@{resource}".to_string()),
        Some("\"C:\\Program Files\\Mozilla Firefox\\firefox.exe\" -osint -url \"%1\"".to_string()),
        BrowserScope::User,
    )
    .unwrap();
    assert_eq!(b.display_name, "Mozilla Firefox");
    assert_eq!(b.executable_path.as_deref(), Some("C:\\Program Files\\Mozilla Firefox\\firefox.exe"));
    let c = start_menu_client_browser(
        "IEXPLORE.EXE".to_string(),
        None,
        strings(&["IE.HTTP"]),
        Some("C:\\ie.exe,-7".to_string()),
        Some("C:\\other.exe".to_string()),
        BrowserScope::Machine,
    )
    .unwrap();
    assert_eq!(c.display_name, "IEXPLORE.EXE");
    assert_eq!(c.executable_path.as_deref(), Some("C:\\ie.exe"));
}

#[test]
fn app_model_registration_is_applied() {
    let browser = registration("Arc", "Arc", &["ArcHTML"]);
    assert!(app_model_protocol_matches_browser(Some(" arc ".to_string()), &browser));
    assert!(!app_model_protocol_matches_browser(Some("Arcade".to_string()), &browser));
    assert!(!app_model_protocol_matches_browser(None, &browser));
    let found = app_model_registration(
        "TheBrowserCompany.Arc_ttt1ap7aakyb4!Arc".to_string(),
        strings(&["AppX1", " appx1 "]),
        Some("AppX2".to_string()),
        None,
        Some("  ".to_string()),
        Some(" C:\\arc\\logo.png ".to_string()),
    );
    assert_eq!(found.protocol_ids, strings(&["AppX1", "AppX2"]));
    assert_eq!(found.icon_path.as_deref(), Some("C:\\arc\\logo.png"));
    let applied = apply_app_model_registration(browser, Some(found));
    assert_eq!(applied.registry_id, "TheBrowserCompany.Arc_ttt1ap7aakyb4!Arc");
    assert_eq!(applied.scope, BrowserScope::AppModel);
    assert_eq!(applied.url_protocol_ids, strings(&["ArcHTML", "AppX1", "AppX2"]));
    assert_eq!(applied.icon_path.as_deref(), Some("C:\\arc\\logo.png"));
    let unchanged = apply_app_model_registration(registration("Edge", "MSEdgeHTM", &[]), None);
    assert_eq!(unchanged, registration("Edge", "MSEdgeHTM", &[]));
}

#[test]
fn registry_key_name_filters() {
    assert!(is_user_hive("S-1-5-21-1000"));
    assert!(!is_user_hive("S-1-5-21-1000_Classes"));
    assert!(is_user_hive("_Class"));
    assert!(is_application_user_model_id("TheBrowserCompany.Arc_ttt1ap7aakyb4!Arc"));
    assert!(!is_application_user_model_id("TheBrowserCompany.Arc_ttt1ap7aakyb4"));
}

#[test]
fn text_helpers() {
    assert_eq!(trim_str("\u{3000} a b \u{85}"), "a b");
    assert!(str_eq_ignore_case("ChromeHTML", "CHROMEhtml"));
    assert!(!str_eq_ignore_case("É", "é"));
}

#[test]
fn distinct_registry_ids_get_distinct_query_values() {
    assert_eq!(percent_encode_query_value("a b"), "a%20b");
    assert_eq!(percent_encode_query_value("a%20b"), "a%2520b");
    assert_eq!(percent_encode_query_value("x!y"), "x%21y");
}

#[test]
fn merging_protocol_ids_twice_changes_nothing() {
    let merged = dedupe_browsers(vec![
        registration("Vivaldi", "VivaldiHTM", &["VivaldiHTM", "vivaldihtm", "VivaldiPDF"]),
        registration("Vivaldi", "VIVALDIHTM", &["VIVALDIPDF", "VivaldiXHT"]),
    ]);
    // The first registration's own list is kept as it is; later lists only add what is new.
    assert_eq!(
        merged[0].url_protocol_ids,
        strings(&["VivaldiHTM", "vivaldihtm", "VivaldiPDF", "VivaldiXHT"])
    );
    let again = dedupe_browsers(vec![
        merged[0].clone(),
        registration("Vivaldi", "vivaldihtm", &["VivaldiHTM", "VivaldiPDF", "VivaldiXHT"]),
    ]);
    assert_eq!(again[0].url_protocol_ids, merged[0].url_protocol_ids);
}
