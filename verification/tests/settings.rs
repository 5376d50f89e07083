use browser_switcher::browser::{BrowserRegistration, BrowserScope};
use browser_switcher::settings::default_apps_uri_for;

fn browser(scope: BrowserScope, registry_id: &str) -> BrowserRegistration {
    BrowserRegistration {
        display_name: "Browser".to_string(),
        registry_id: registry_id.to_string(),
        scope,
        executable_path: None,
        icon_path: None,
        url_protocol_ids: vec![registry_id.to_string()],
    }
}

#[test]
fn builds_user_registered_app_uri() {
    let uri = default_apps_uri_for(&browser(BrowserScope::User, "FirefoxURL"));

    assert_eq!(
        uri,
        "ms-settings:defaultapps?registeredAppUser=FirefoxURL"
    );
}

#[test]
fn builds_machine_registered_app_uri() {
    let uri = default_apps_uri_for(&browser(BrowserScope::Machine, "ChromeHTML"));

    assert_eq!(
        uri,
        "ms-settings:defaultapps?registeredAppMachine=ChromeHTML"
    );
}

#[test]
fn percent_encodes_registry_ids_for_query_strings() {
    let uri = default_apps_uri_for(&browser(BrowserScope::User, "Contoso Browser"));

    assert_eq!(
        uri,
        "ms-settings:defaultapps?registeredAppUser=Contoso%20Browser"
    );
}

#[test]
fn builds_app_model_registered_app_uri() {
    let uri = default_apps_uri_for(&browser(
        BrowserScope::AppModel,
        "TheBrowserCompany.Arc_ttt1ap7aakyb4!Arc",
    ));

    assert_eq!(
        uri,
        "ms-settings:defaultapps?registeredAUMID=TheBrowserCompany.Arc_ttt1ap7aakyb4%21Arc"
    );
}
