//! What browser discovery decides from the values it reads out of the Windows registry:
//! which registrations are browsers, their names, paths and protocol ids, and which
//! protocol id belongs to the current default browser.
//!
//! Reading the registry itself is the caller's work; every function here takes the values
//! that were read (or `None` where a key or value was missing).
use vstd::prelude::*;

use crate::browser::{
    clone_text, contains_ignore_case, distinct_ignore_case, ids_contain_ignore_case, opt_text, texts, BrowserRegistration,
    BrowserScope, BrowserView,
};
use crate::text::{
    chars_equal, chars_of, eq_ignore_case, find_first, find_first_in, find_last, find_last_in,
    is_whitespace, lemma_find_first, lemma_find_last, lemma_strip_end_prefix,
    lemma_strip_idempotent, lemma_strip_start_first, lemma_strip_window, str_eq_ignore_case,
    string_of, strip, strip_chars, strip_end, strip_start, sub_chars, trim, trim_chars, CharClass,
};

verus! {

// ---------------------------------------------------------------------------------------------
// Specifications
// ---------------------------------------------------------------------------------------------

/// The executable that a shell `open` command runs: the quoted path when the command starts
/// with a quote, else its first whitespace-separated word.
pub open spec fn executable_path_of(command: Seq<char>) -> Option<Seq<char>> {
    let c = trim(command);
    if c.len() == 0 {
        None
    } else if c[0] == '"' {
        let rest = c.drop_first();
        match find_first(rest, CharClass::Is('"')) {
            Some(end) => Some(rest.take(end)),
            None => None,
        }
    } else {
        let end = match find_first(c, CharClass::Whitespace) {
            Some(e) => e,
            None => c.len() as int,
        };
        if end > 0 {
            Some(c.take(end))
        } else {
            None
        }
    }
}

/// The file named by an `ApplicationIcon` location such as `"C:\app.exe",0`: none for an
/// indirect resource string (starting with `@`).
pub open spec fn icon_file_path_of(location: Seq<char>) -> Option<Seq<char>> {
    let l = trim(location);
    if l.len() == 0 || l[0] == '@' {
        None
    } else {
        let raw: Option<Seq<char>> = if l[0] == '"' {
            match find_first(l.drop_first(), CharClass::Is('"')) {
                Some(end) => Some(l.drop_first().take(end)),
                None => None,
            }
        } else {
            match find_last(l, CharClass::Is(',')) {
                Some(k) => Some(trim(l.take(k))),
                None => Some(l),
            }
        };
        match raw {
            None => None,
            Some(p) => {
                let q = strip(trim(p), CharClass::Is('"'));
                if q.len() == 0 {
                    None
                } else {
                    Some(q)
                }
            },
        }
    }
}

/// `ids` with `id` appended, trimmed, unless it is blank or already there up to ASCII case.
pub open spec fn merge_trimmed(ids: Seq<Seq<char>>, id: Seq<char>) -> Seq<Seq<char>> {
    let t = trim(id);
    if t.len() == 0 || contains_ignore_case(ids, t) {
        ids
    } else {
        ids.push(t)
    }
}

/// `merge_trimmed` of each id of `incoming` in turn.
pub open spec fn merge_all_trimmed(ids: Seq<Seq<char>>, incoming: Seq<Seq<char>>) -> Seq<Seq<char>>
    decreases incoming.len(),
{
    if incoming.len() == 0 {
        ids
    } else {
        merge_trimmed(merge_all_trimmed(ids, incoming.drop_last()), incoming.last())
    }
}

/// `merge_trimmed` of the id, if there is one.
pub open spec fn merge_opt_trimmed(ids: Seq<Seq<char>>, id: Option<Seq<char>>) -> Seq<Seq<char>> {
    match id {
        Some(i) => merge_trimmed(ids, i),
        None => ids,
    }
}

/// The value trimmed, unless it is missing or blank.
pub open spec fn trimmed_nonblank(value: Option<Seq<char>>) -> Option<Seq<char>> {
    match value {
        Some(v) => if trim(v).len() > 0 {
            Some(trim(v))
        } else {
            None
        },
        None => None,
    }
}

/// The value as it is, unless it is missing or blank.
pub open spec fn nonblank(value: Option<Seq<char>>) -> Option<Seq<char>> {
    match value {
        Some(v) => if trim(v).len() > 0 {
            Some(v)
        } else {
            None
        },
        None => None,
    }
}

pub open spec fn opt_view(o: Option<BrowserRegistration>) -> Option<BrowserView> {
    match o {
        Some(b) => Some(b@),
        None => None,
    }
}

/// A browser with the given names trimmed, unless a name is blank; its icon path starts out
/// as its executable path.
pub open spec fn valid_browser(
    display_name: Seq<char>,
    registry_id: Seq<char>,
    scope: BrowserScope,
    executable_path: Option<Seq<char>>,
    url_protocol_ids: Seq<Seq<char>>,
) -> Option<BrowserView> {
    if trim(display_name).len() == 0 || trim(registry_id).len() == 0 {
        None
    } else {
        Some(
            BrowserView {
                display_name: trim(display_name),
                registry_id: trim(registry_id),
                scope,
                executable_path,
                icon_path: executable_path,
                url_protocol_ids,
            },
        )
    }
}

/// The protocol ids of a registration's `URLAssociations`: both `http` and `https` must be
/// registered; their ids, trimmed, each once up to ASCII case, blanks left out.
pub open spec fn web_protocol_ids_of(http: Option<Seq<char>>, https: Option<Seq<char>>) -> Seq<Seq<char>> {
    match (http, https) {
        (Some(a), Some(b)) => merge_all_trimmed(Seq::empty(), seq![a, b]),
        _ => Seq::empty(),
    }
}

pub open spec fn opt_icon_file_path(location: Option<Seq<char>>) -> Option<Seq<char>> {
    match location {
        Some(l) => icon_file_path_of(l),
        None => None,
    }
}

pub open spec fn opt_executable_path(command: Option<Seq<char>>) -> Option<Seq<char>> {
    match command {
        Some(c) => executable_path_of(c),
        None => None,
    }
}

/// An application of `RegisteredApplications`, as a browser.
pub open spec fn registered_application(
    value_name: Seq<char>,
    url_protocol_ids: Seq<Seq<char>>,
    application_name: Option<Seq<char>>,
    application_icon: Option<Seq<char>>,
    scope: BrowserScope,
) -> Option<BrowserView> {
    if url_protocol_ids.len() == 0 {
        None
    } else {
        let display_name = match nonblank(application_name) {
            Some(n) => n,
            None => value_name,
        };
        valid_browser(
            display_name,
            value_name,
            scope,
            opt_icon_file_path(application_icon),
            url_protocol_ids,
        )
    }
}

/// A client of `StartMenuInternet`, as a browser.
pub open spec fn start_menu_client(
    client_id: Seq<char>,
    default_value: Option<Seq<char>>,
    url_protocol_ids: Seq<Seq<char>>,
    application_icon: Option<Seq<char>>,
    open_command: Option<Seq<char>>,
    scope: BrowserScope,
) -> Option<BrowserView> {
    if url_protocol_ids.len() == 0 {
        None
    } else {
        let display_name = match nonblank(default_value) {
            Some(n) => n,
            None => client_id,
        };
        let executable_path = match opt_icon_file_path(application_icon) {
            Some(p) => Some(p),
            None => opt_executable_path(open_command),
        };
        valid_browser(display_name, client_id, scope, executable_path, url_protocol_ids)
    }
}

/// A browser's packaged (AppModel) registration: its application user model id, its
/// protocol ids and its logo.
pub struct AppModelRegistration {
    pub aumid: String,
    pub protocol_ids: Vec<String>,
    pub icon_path: Option<String>,
}

pub struct AppModelView {
    pub aumid: Seq<char>,
    pub protocol_ids: Seq<Seq<char>>,
    pub icon_path: Option<Seq<char>>,
}

impl View for AppModelRegistration {
    type V = AppModelView;

    open spec fn view(&self) -> AppModelView {
        AppModelView {
            aumid: self.aumid@,
            protocol_ids: texts(self.protocol_ids@),
            icon_path: opt_text(self.icon_path),
        }
    }
}

/// The packaged registration made of what was read for one application.
pub open spec fn app_model_registration_of(
    aumid: Seq<char>,
    package_protocol_ids: Seq<Seq<char>>,
    http_acid: Option<Seq<char>>,
    https_acid: Option<Seq<char>>,
    http_logo: Option<Seq<char>>,
    https_logo: Option<Seq<char>>,
) -> AppModelView {
    AppModelView {
        aumid,
        protocol_ids: merge_opt_trimmed(
            merge_opt_trimmed(merge_all_trimmed(Seq::empty(), package_protocol_ids), http_acid),
            https_acid,
        ),
        icon_path: match trimmed_nonblank(http_logo) {
            Some(l) => Some(l),
            None => trimmed_nonblank(https_logo),
        },
    }
}

/// A browser with its packaged registration, if one was found, applied.
pub open spec fn with_app_model(b: BrowserView, found: Option<AppModelView>) -> BrowserView {
    match found {
        None => b,
        Some(r) => BrowserView {
            display_name: b.display_name,
            registry_id: r.aumid,
            scope: BrowserScope::AppModel,
            executable_path: b.executable_path,
            icon_path: r.icon_path,
            url_protocol_ids: merge_all_trimmed(b.url_protocol_ids, r.protocol_ids),
        },
    }
}

/// `s` ends with `suffix`.
pub open spec fn ends_with(s: Seq<char>, suffix: Seq<char>) -> bool {
    suffix.len() <= s.len() && s.skip(s.len() - suffix.len()) == suffix
}


// ---------------------------------------------------------------------------------------------
// The default browser
// ---------------------------------------------------------------------------------------------

/// The current default browser's protocol id: the one read from `UserChoice` when there is
/// one, else the one read from `UserChoiceLatest`.
pub fn choose_current_default_browser_protocol_id(
    user_choice: Option<String>,
    user_choice_latest: Option<String>,
) -> (chosen: Option<String>)
    ensures
        chosen == (if user_choice is Some {
            user_choice
        } else {
            user_choice_latest
        }),
{
    match user_choice {
        Some(id) => Some(id),
        None => user_choice_latest,
    }
}

/// A `ProgId` or `Logo` value as used: trimmed, and none when it is blank.
pub fn trimmed_nonblank_value(value: Option<String>) -> (r: Option<String>)
    ensures
        opt_text(r) == trimmed_nonblank(opt_text(value)),
{
    match value {
        Some(v) => {
            let t = trim_chars(&chars_of(v.as_str()));
            if t.len() > 0 {
                Some(string_of(&t))
            } else {
                None
            }
        },
        None => None,
    }
}

/// A name value as used: as it is, and none when it is blank.
pub fn nonblank_value(value: Option<String>) -> (r: Option<String>)
    ensures
        opt_text(r) == nonblank(opt_text(value)),
{
    match value {
        Some(v) => {
            let t = trim_chars(&chars_of(v.as_str()));
            if t.len() > 0 {
                Some(v)
            } else {
                None
            }
        },
        None => None,
    }
}

/// Whether a key under `HKEY_USERS` is a user's hive rather than its `_Classes` companion.
pub fn is_user_hive(sid: &str) -> (r: bool)
    ensures
        r == !ends_with(sid@, "_Classes"@),
{
    let s = chars_of(sid);
    let suffix = chars_of("_Classes");
    if suffix.len() > s.len() {
        return true;
    }
    let tail = sub_chars(&s, s.len() - suffix.len(), s.len());
    assert(tail@ =~= s@.skip(s@.len() - suffix@.len()));
    !chars_equal(&tail, &suffix)
}

/// Whether a key under a package names an application (its user model id holds a `!`).
pub fn is_application_user_model_id(name: &str) -> (r: bool)
    ensures
        r == (find_first(name@, CharClass::Is('!')) is Some),
{
    let v = chars_of(name);
    find_first_in(&v, CharClass::Is('!')).is_some()
}

// ---------------------------------------------------------------------------------------------
// Paths
// ---------------------------------------------------------------------------------------------

/// The executable of a shell `open` command: the text between the first two quotes when the
/// trimmed command starts with a quote (none without a closing quote), else its first
/// whitespace-separated word; none for a blank command.
pub fn extract_executable_path(command: &str) -> (path: Option<String>)
    ensures
        opt_text(path) == executable_path_of(command@),
{
    let c = trim_chars(&chars_of(command));
    if c.len() == 0 {
        return None;
    }
    if c[0] == '"' {
        let rest = sub_chars(&c, 1, c.len());
        assert(rest@ =~= c@.drop_first());
        match find_first_in(&rest, CharClass::Is('"')) {
            Some(end) => {
                let p = sub_chars(&rest, 0, end);
                assert(p@ =~= rest@.take(end as int));
                Some(string_of(&p))
            },
            None => None,
        }
    } else {
        let end = match find_first_in(&c, CharClass::Whitespace) {
            Some(e) => e,
            None => c.len(),
        };
        if end > 0 {
            let p = sub_chars(&c, 0, end);
            assert(p@ =~= c@.take(end as int));
            Some(string_of(&p))
        } else {
            None
        }
    }
}

/// The file of an `ApplicationIcon` location: none when it is blank or an indirect resource
/// string (starting with `@`); the quoted part when it starts with a quote (none without a
/// closing quote); else the part before the last comma, trimmed, or the whole location.
/// Whitespace and then quotes are trimmed from the result, and none is given when nothing
/// is left.
pub fn extract_icon_file_path(icon_location: &str) -> (path: Option<String>)
    ensures
        opt_text(path) == icon_file_path_of(icon_location@),
{
    let l = trim_chars(&chars_of(icon_location));
    if l.len() == 0 || l[0] == '@' {
        return None;
    }
    let raw: Vec<char>;
    if l[0] == '"' {
        let rest = sub_chars(&l, 1, l.len());
        assert(rest@ =~= l@.drop_first());
        match find_first_in(&rest, CharClass::Is('"')) {
            Some(end) => {
                raw = sub_chars(&rest, 0, end);
                assert(raw@ =~= rest@.take(end as int));
            },
            None => {
                return None;
            },
        }
    } else {
        match find_last_in(&l, CharClass::Is(',')) {
            Some(k) => {
                let before = sub_chars(&l, 0, k);
                assert(before@ =~= l@.take(k as int));
                raw = trim_chars(&before);
            },
            None => {
                raw = l;
            },
        }
    }
    let q = strip_chars(&trim_chars(&raw), CharClass::Is('"'));
    if q.len() == 0 {
        None
    } else {
        Some(string_of(&q))
    }
}

// ---------------------------------------------------------------------------------------------
// Protocol ids
// ---------------------------------------------------------------------------------------------

/// Whether `protocols` names both `http` and `https`, in any ASCII case.
pub fn includes_required_web_protocols(protocols: &[&str]) -> (r: bool)
    ensures
        r == ((exists|i: int|
            0 <= i < protocols@.len() && eq_ignore_case(#[trigger] protocols@[i]@, "http"@))
            && (exists|i: int|
            0 <= i < protocols@.len() && eq_ignore_case(#[trigger] protocols@[i]@, "https"@))),
{
    let mut has_http = false;
    let mut has_https = false;
    let mut i: usize = 0;
    while i < protocols.len()
        invariant
            i <= protocols@.len(),
            has_http == exists|k: int| 0 <= k < i && eq_ignore_case(#[trigger] protocols@[k]@, "http"@),
            has_https == exists|k: int|
                0 <= k < i && eq_ignore_case(#[trigger] protocols@[k]@, "https"@),
        decreases protocols@.len() - i,
    {
        let p: &str = protocols[i];
        if str_eq_ignore_case(p, "http") {
            has_http = true;
        }
        if str_eq_ignore_case(p, "https") {
            has_https = true;
        }
        i = i + 1;
    }
    has_http && has_https
}

/// Appends `protocol_id`, trimmed, to `existing` unless it is blank or `existing` already
/// holds it up to ASCII case.
pub fn merge_protocol_id(existing: &mut Vec<String>, protocol_id: String)
    ensures
        texts(final(existing)@) == merge_trimmed(texts(old(existing)@), protocol_id@),
{
    let t = trim_chars(&chars_of(protocol_id.as_str()));
    if t.len() == 0 {
        return;
    }
    if !ids_contain_ignore_case(existing, &t) {
        let ghost before = existing@;
        existing.push(string_of(&t));
        assert(texts(existing@) =~= texts(before).push(t@));
    }
}

/// `merge_protocol_id` of each id of `incoming`, in order.
pub fn merge_protocol_ids(existing: &mut Vec<String>, incoming: &Vec<String>)
    ensures
        texts(final(existing)@) == merge_all_trimmed(texts(old(existing)@), texts(incoming@)),
{
    let ghost start = texts(existing@);
    let mut i: usize = 0;
    while i < incoming.len()
        invariant
            i <= incoming.len(),
            texts(existing@) == merge_all_trimmed(start, texts(incoming@).take(i as int)),
        decreases incoming.len() - i,
    {
        assert(texts(incoming@).take(i + 1).drop_last() =~= texts(incoming@).take(i as int));
        assert(texts(incoming@).take(i + 1).last() == incoming@[i as int]@);
        merge_protocol_id(existing, clone_text(&incoming[i]));
        i = i + 1;
    }
    assert(texts(incoming@).take(incoming.len() as int) =~= texts(incoming@));
}

/// The protocol ids of a capabilities key's `URLAssociations`, given its `http` and `https`
/// values: none unless both are there; else their trimmed ids, each once up to ASCII case,
/// blanks left out.
pub fn web_protocol_ids(http: Option<String>, https: Option<String>) -> (ids: Vec<String>)
    ensures
        texts(ids@) == web_protocol_ids_of(opt_text(http), opt_text(https)),
{
    match (http, https) {
        (Some(a), Some(b)) => {
            let ghost a_text = a@;
            let ghost b_text = b@;
            let mut ids: Vec<String> = Vec::new();
            assert(texts(ids@) =~= Seq::<Seq<char>>::empty());
            merge_protocol_id(&mut ids, a);
            let ghost after_a = texts(ids@);
            merge_protocol_id(&mut ids, b);
            proof {
                let empty = Seq::<Seq<char>>::empty();
                let both = seq![a_text, b_text];
                assert(both.drop_last() =~= seq![a_text]);
                assert(seq![a_text].drop_last() =~= empty);
                assert(merge_all_trimmed(empty, seq![a_text]) == merge_trimmed(
                    merge_all_trimmed(empty, empty),
                    a_text,
                ));
                assert(after_a == merge_all_trimmed(empty, seq![a_text]));
                assert(merge_all_trimmed(empty, both) == merge_trimmed(
                    merge_all_trimmed(empty, seq![a_text]),
                    b_text,
                ));
            }
            ids
        },
        _ => {
            let ids: Vec<String> = Vec::new();
            assert(texts(ids@) =~= Seq::<Seq<char>>::empty());
            ids
        },
    }
}

// ---------------------------------------------------------------------------------------------
// Browsers
// ---------------------------------------------------------------------------------------------

/// A browser with its display name and registry id trimmed, or none when either is blank.
/// Its icon path starts out as its executable path.
pub fn browser_if_valid(
    display_name: String,
    registry_id: String,
    scope: BrowserScope,
    executable_path: Option<String>,
    url_protocol_ids: Vec<String>,
) -> (browser: Option<BrowserRegistration>)
    ensures
        opt_view(browser) == valid_browser(
            display_name@,
            registry_id@,
            scope,
            opt_text(executable_path),
            texts(url_protocol_ids@),
        ),
{
    let d = trim_chars(&chars_of(display_name.as_str()));
    let r = trim_chars(&chars_of(registry_id.as_str()));
    if d.len() == 0 || r.len() == 0 {
        return None;
    }
    let icon_path = crate::browser::clone_opt_text(&executable_path);
    Some(
        BrowserRegistration {
            display_name: string_of(&d),
            registry_id: string_of(&r),
            scope,
            icon_path,
            executable_path,
            url_protocol_ids,
        },
    )
}

/// The browser that a `RegisteredApplications` value describes, given the value's name, the
/// protocol ids of its capabilities, and its capabilities' `ApplicationName` and
/// `ApplicationIcon` values: none without protocol ids. The display name is the application
/// name unless that is blank, else the value's name; the executable path is the icon's file.
pub fn registered_application_browser(
    value_name: String,
    url_protocol_ids: Vec<String>,
    application_name: Option<String>,
    application_icon: Option<String>,
    scope: BrowserScope,
) -> (browser: Option<BrowserRegistration>)
    ensures
        opt_view(browser) == registered_application(
            value_name@,
            texts(url_protocol_ids@),
            opt_text(application_name),
            opt_text(application_icon),
            scope,
        ),
{
    if url_protocol_ids.len() == 0 {
        return None;
    }
    let display_name = match nonblank_value(application_name) {
        Some(n) => n,
        None => clone_text(&value_name),
    };
    let executable_path = match &application_icon {
        Some(icon) => extract_icon_file_path(icon.as_str()),
        None => None,
    };
    browser_if_valid(display_name, value_name, scope, executable_path, url_protocol_ids)
}

/// The browser that a `StartMenuInternet` client describes, given its id, its default value,
/// the protocol ids of its capabilities, its capabilities' `ApplicationIcon` value and its
/// `shell\open\command`: none without protocol ids. The display name is the default value
/// unless that is blank, else the client id; the executable path is the icon's file, else the
/// command's executable.
pub fn start_menu_client_browser(
    client_id: String,
    default_value: Option<String>,
    url_protocol_ids: Vec<String>,
    application_icon: Option<String>,
    open_command: Option<String>,
    scope: BrowserScope,
) -> (browser: Option<BrowserRegistration>)
    ensures
        opt_view(browser) == start_menu_client(
            client_id@,
            opt_text(default_value),
            texts(url_protocol_ids@),
            opt_text(application_icon),
            opt_text(open_command),
            scope,
        ),
{
    if url_protocol_ids.len() == 0 {
        return None;
    }
    let display_name = match nonblank_value(default_value) {
        Some(n) => n,
        None => clone_text(&client_id),
    };
    let from_icon = match &application_icon {
        Some(icon) => extract_icon_file_path(icon.as_str()),
        None => None,
    };
    let executable_path = match from_icon {
        Some(p) => Some(p),
        None => match &open_command {
            Some(command) => extract_executable_path(command.as_str()),
            None => None,
        },
    };
    browser_if_valid(display_name, client_id, scope, executable_path, url_protocol_ids)
}

/// Whether a packaged application's `http` protocol registration, whose `DisplayName` value
/// is given, belongs to `browser`: the name, trimmed, equals the browser's display name up to
/// ASCII case.
pub fn app_model_protocol_matches_browser(display_name: Option<String>, browser: &BrowserRegistration) -> (r: bool)
    ensures
        r == match opt_text(display_name) {
            Some(n) => eq_ignore_case(trim(n), browser@.display_name),
            None => false,
        },
{
    match display_name {
        Some(n) => {
            let t = trim_chars(&chars_of(n.as_str()));
            let d = chars_of(browser.display_name.as_str());
            crate::text::chars_eq_ignore_case(&t, &d)
        },
        None => false,
    }
}

/// The packaged registration of application `aumid`, given the ids of the protocol
/// extensions that name its package, the `ACID` values and the `Logo` values of its `http`
/// and `https` protocol keys.
pub fn app_model_registration(
    aumid: String,
    package_protocol_ids: Vec<String>,
    http_acid: Option<String>,
    https_acid: Option<String>,
    http_logo: Option<String>,
    https_logo: Option<String>,
) -> (r: AppModelRegistration)
    ensures
        r@ == app_model_registration_of(
            aumid@,
            texts(package_protocol_ids@),
            opt_text(http_acid),
            opt_text(https_acid),
            opt_text(http_logo),
            opt_text(https_logo),
        ),
{
    let mut protocol_ids: Vec<String> = Vec::new();
    assert(texts(protocol_ids@) =~= Seq::<Seq<char>>::empty());
    merge_protocol_ids(&mut protocol_ids, &package_protocol_ids);
    match http_acid {
        Some(a) => merge_protocol_id(&mut protocol_ids, a),
        None => {},
    }
    match https_acid {
        Some(a) => merge_protocol_id(&mut protocol_ids, a),
        None => {},
    }
    let icon_path = match trimmed_nonblank_value(http_logo) {
        Some(l) => Some(l),
        None => trimmed_nonblank_value(https_logo),
    };
    AppModelRegistration { aumid, protocol_ids, icon_path }
}

/// `browser` with its packaged registration applied, if one was found: the registration's
/// user model id becomes the registry id, the scope becomes `AppModel`, the logo becomes the
/// icon path, and the registration's protocol ids are merged in.
pub fn apply_app_model_registration(
    browser: BrowserRegistration,
    found: Option<AppModelRegistration>,
) -> (r: BrowserRegistration)
    ensures
        r@ == with_app_model(
            browser@,
            match found {
                Some(f) => Some(f@),
                None => None,
            },
        ),
{
    match found {
        None => browser,
        Some(registration) => {
            let mut browser = browser;
            browser.registry_id = registration.aumid;
            browser.scope = BrowserScope::AppModel;
            browser.icon_path = registration.icon_path;
            merge_protocol_ids(&mut browser.url_protocol_ids, &registration.protocol_ids);
            browser
        },
    }
}

// ---------------------------------------------------------------------------------------------
// Laws
// ---------------------------------------------------------------------------------------------

/// A clean list of protocol ids: every id trimmed and not blank, no two equal up to ASCII case.
pub open spec fn clean_ids(ids: Seq<Seq<char>>) -> bool {
    &&& distinct_ignore_case(ids)
    &&& forall|i: int| 0 <= i < ids.len() ==> #[trigger] trim(ids[i]) == ids[i] && ids[i].len() > 0
}

/// Merging one id keeps a list clean.
pub proof fn lemma_merge_trimmed_clean(ids: Seq<Seq<char>>, id: Seq<char>)
    requires
        clean_ids(ids),
    ensures
        clean_ids(merge_trimmed(ids, id)),
{
    let t = trim(id);
    if !(t.len() == 0 || contains_ignore_case(ids, t)) {
        let out = ids.push(t);
        lemma_strip_idempotent(id, CharClass::Whitespace);
        assert forall|i: int, j: int|
            0 <= i < out.len() && 0 <= j < out.len() && i != j implies !eq_ignore_case(
            #[trigger] out[i],
            #[trigger] out[j],
        ) by {
            if i == ids.len() {
                assert(out[j] == ids[j]);
                assert(!eq_ignore_case(ids[j], t));
            } else if j == ids.len() {
                assert(out[i] == ids[i]);
                assert(!eq_ignore_case(ids[i], t));
            } else {
                assert(out[i] == ids[i] && out[j] == ids[j]);
            }
        }
        assert forall|i: int| 0 <= i < out.len() implies #[trigger] trim(out[i]) == out[i] && out[i].len() > 0 by {
            if i < ids.len() {
                assert(out[i] == ids[i]);
            }
        }
    }
}

/// Merging any ids keeps a list clean: protocol ids stay trimmed, never blank, and never
/// repeat up to ASCII case.
pub proof fn lemma_merge_all_trimmed_clean(ids: Seq<Seq<char>>, incoming: Seq<Seq<char>>)
    requires
        clean_ids(ids),
    ensures
        clean_ids(merge_all_trimmed(ids, incoming)),
    decreases incoming.len(),
{
    if incoming.len() > 0 {
        lemma_merge_all_trimmed_clean(ids, incoming.drop_last());
        lemma_merge_trimmed_clean(merge_all_trimmed(ids, incoming.drop_last()), incoming.last());
    }
}

/// The protocol ids read for a registration are clean.
pub proof fn lemma_web_protocol_ids_clean(http: Option<Seq<char>>, https: Option<Seq<char>>)
    ensures
        clean_ids(web_protocol_ids_of(http, https)),
{
    let empty = Seq::<Seq<char>>::empty();
    assert(clean_ids(empty));
    match (http, https) {
        (Some(a), Some(b)) => lemma_merge_all_trimmed_clean(empty, seq![a, b]),
        _ => {},
    }
}

/// Only registrations with both an `http` and an `https` URL association become browsers.
pub proof fn lemma_browser_needs_both_web_protocols(
    name: Seq<char>,
    http: Option<Seq<char>>,
    https: Option<Seq<char>>,
    display_value: Option<Seq<char>>,
    application_icon: Option<Seq<char>>,
    open_command: Option<Seq<char>>,
    scope: BrowserScope,
)
    requires
        http is None || https is None,
    ensures
        registered_application(
            name,
            web_protocol_ids_of(http, https),
            display_value,
            application_icon,
            scope,
        ) is None,
        start_menu_client(
            name,
            display_value,
            web_protocol_ids_of(http, https),
            application_icon,
            open_command,
            scope,
        ) is None,
{
}

/// A browser that discovery accepts has a display name and a registry id that are trimmed
/// and not blank.
pub proof fn lemma_valid_browser_names(
    display_name: Seq<char>,
    registry_id: Seq<char>,
    scope: BrowserScope,
    executable_path: Option<Seq<char>>,
    url_protocol_ids: Seq<Seq<char>>,
)
    ensures
        valid_browser(display_name, registry_id, scope, executable_path, url_protocol_ids) matches Some(b)
            ==> b.display_name.len() > 0 && trim(b.display_name) == b.display_name
            && b.registry_id.len() > 0 && trim(b.registry_id) == b.registry_id,
{
    lemma_strip_idempotent(display_name, CharClass::Whitespace);
    lemma_strip_idempotent(registry_id, CharClass::Whitespace);
}

/// A discovered browser keeps the scope of the hive it was read from, the protocol ids and
/// the executable path it was given (which is also its first icon path), and the given names
/// without surrounding whitespace.
pub proof fn lemma_valid_browser_fields(
    display_name: Seq<char>,
    registry_id: Seq<char>,
    scope: BrowserScope,
    executable_path: Option<Seq<char>>,
    url_protocol_ids: Seq<Seq<char>>,
)
    ensures
        valid_browser(display_name, registry_id, scope, executable_path, url_protocol_ids) matches Some(b)
            ==> b.scope == scope && b.url_protocol_ids == url_protocol_ids && b.executable_path
            == executable_path && b.icon_path == executable_path && b.registry_id == trim(
            registry_id,
        ) && b.display_name == trim(display_name),
        valid_browser(display_name, registry_id, scope, executable_path, url_protocol_ids) is None
            <==> (trim(display_name).len() == 0 || trim(registry_id).len() == 0),
{
}

/// A `RegisteredApplications` value or a `StartMenuInternet` client becomes a browser of the
/// scope it was read with, registered under the value's name or the client's id, with the
/// protocol ids read for it.
pub proof fn lemma_discovered_browser_scope(
    name: Seq<char>,
    url_protocol_ids: Seq<Seq<char>>,
    display_value: Option<Seq<char>>,
    application_icon: Option<Seq<char>>,
    open_command: Option<Seq<char>>,
    scope: BrowserScope,
)
    ensures
        registered_application(name, url_protocol_ids, display_value, application_icon, scope) matches Some(b)
            ==> b.scope == scope && b.registry_id == trim(name) && b.url_protocol_ids
            == url_protocol_ids,
        start_menu_client(
            name,
            display_value,
            url_protocol_ids,
            application_icon,
            open_command,
            scope,
        ) matches Some(b) ==> b.scope == scope && b.registry_id == trim(name) && b.url_protocol_ids
            == url_protocol_ids,
{
}

/// The trimmed command does not start with whitespace and is a prefix-free part of the
/// command: its characters in order.
proof fn lemma_trim_first(s: Seq<char>)
    ensures
        trim(s).len() > 0 ==> !is_whitespace(trim(s)[0]),
{
    let f = strip_start(s, CharClass::Whitespace);
    lemma_strip_start_first(s, CharClass::Whitespace);
    lemma_strip_end_prefix(f, CharClass::Whitespace);
    if trim(s).len() > 0 {
        assert(trim(s)[0] == f[0]);
    }
}

/// An unquoted command runs its first whitespace-separated word: the result is a non-empty
/// prefix of the trimmed command, holds no whitespace, and is followed by whitespace or by
/// the end of the command.
pub proof fn lemma_unquoted_executable_path(command: Seq<char>)
    requires
        trim(command).len() > 0,
        trim(command)[0] != '"',
    ensures
        executable_path_of(command) matches Some(p) && p.len() > 0 && p.len() <= trim(command).len()
            && trim(command).take(p.len() as int) == p && (forall|k: int|
            0 <= k < p.len() ==> !is_whitespace(#[trigger] p[k])) && (p.len() == trim(command).len()
            || is_whitespace(trim(command)[p.len() as int])),
{
    let c = trim(command);
    lemma_trim_first(command);
    lemma_find_first(c, CharClass::Whitespace);
    let end = match find_first(c, CharClass::Whitespace) {
        Some(e) => e,
        None => c.len() as int,
    };
    assert(end > 0);
    let p = c.take(end);
    assert forall|k: int| 0 <= k < p.len() implies !is_whitespace(#[trigger] p[k]) by {
        assert(p[k] == c[k]);
    }
}

/// A quoted command runs the text up to the closing quote: the result holds no quote and
/// stands right after the opening quote, with the closing quote after it; without a closing
/// quote there is none.
pub proof fn lemma_quoted_executable_path(command: Seq<char>)
    requires
        trim(command).len() > 0,
        trim(command)[0] == '"',
    ensures
        executable_path_of(command) matches Some(p) ==> p.len() + 1 < trim(command).len()
            && trim(command).subrange(1, p.len() + 1int) == p && trim(command)[p.len() + 1int] == '"'
            && forall|k: int| 0 <= k < p.len() ==> #[trigger] p[k] != '"',
        executable_path_of(command) is None <==> forall|k: int|
            1 <= k < trim(command).len() ==> #[trigger] trim(command)[k] != '"',
{
    let c = trim(command);
    let rest = c.drop_first();
    lemma_find_first(rest, CharClass::Is('"'));
    match find_first(rest, CharClass::Is('"')) {
        Some(end) => {
            assert(c.subrange(1, end + 1) =~= rest.take(end));
            assert(rest[end] == c[end + 1]);
            assert forall|k: int| 0 <= k < end implies #[trigger] rest.take(end)[k] != '"' by {
                assert(rest.take(end)[k] == rest[k]);
            }
        },
        None => {
            assert forall|k: int| 1 <= k < c.len() implies #[trigger] c[k] != '"' by {
                assert(c[k] == rest[k - 1]);
            }
        },
    }
}

/// Merging one id keeps the list in front and leaves the id, trimmed, present unless blank.
proof fn lemma_merge_trimmed_grows(ids: Seq<Seq<char>>, id: Seq<char>)
    ensures
        merge_trimmed(ids, id).len() >= ids.len(),
        forall|i: int| 0 <= i < ids.len() ==> #[trigger] merge_trimmed(ids, id)[i] == ids[i],
        trim(id).len() > 0 ==> contains_ignore_case(merge_trimmed(ids, id), trim(id)),
{
    let t = trim(id);
    if t.len() > 0 && !contains_ignore_case(ids, t) {
        assert(merge_trimmed(ids, id)[ids.len() as int] == t);
        assert(eq_ignore_case(t, t));
    }
}

/// Whatever a list holds up to ASCII case, a list that keeps it in front holds too.
proof fn lemma_contains_kept(ids: Seq<Seq<char>>, bigger: Seq<Seq<char>>, x: Seq<char>)
    requires
        contains_ignore_case(ids, x),
        bigger.len() >= ids.len(),
        forall|i: int| 0 <= i < ids.len() ==> #[trigger] bigger[i] == ids[i],
    ensures
        contains_ignore_case(bigger, x),
{
    let i = choose|i: int| 0 <= i < ids.len() && eq_ignore_case(#[trigger] ids[i], x);
    assert(bigger[i] == ids[i]);
}

/// Merging ids keeps the list in front and leaves every non-blank id, trimmed, present.
pub proof fn lemma_merge_all_trimmed_grows(ids: Seq<Seq<char>>, incoming: Seq<Seq<char>>)
    ensures
        merge_all_trimmed(ids, incoming).len() >= ids.len(),
        forall|i: int| 0 <= i < ids.len() ==> #[trigger] merge_all_trimmed(ids, incoming)[i] == ids[i],
        forall|k: int|
            0 <= k < incoming.len() && trim(incoming[k]).len() > 0 ==> contains_ignore_case(
                merge_all_trimmed(ids, incoming),
                trim(#[trigger] incoming[k]),
            ),
    decreases incoming.len(),
{
    if incoming.len() > 0 {
        let rest = incoming.drop_last();
        let before = merge_all_trimmed(ids, rest);
        lemma_merge_all_trimmed_grows(ids, rest);
        lemma_merge_trimmed_grows(before, incoming.last());
        let after = merge_all_trimmed(ids, incoming);
        assert forall|i: int| 0 <= i < ids.len() implies #[trigger] after[i] == ids[i] by {
            assert(after[i] == before[i]);
        }
        assert forall|k: int|
            0 <= k < incoming.len() && trim(incoming[k]).len() > 0 implies contains_ignore_case(
            after,
            trim(#[trigger] incoming[k]),
        ) by {
            if k < incoming.len() - 1 {
                assert(incoming[k] == rest[k]);
                lemma_contains_kept(before, after, trim(incoming[k]));
            }
        }
    }
}

/// A packaged registration keeps the application's user model id and holds, up to ASCII case,
/// every non-blank protocol id read for it: those of the package's protocol extensions and the
/// `ACID`s of both its `http` and its `https` keys, trimmed, each once. Its icon is the
/// trimmed `http` logo unless that is blank, else the trimmed `https` logo unless that is
/// blank too.
pub proof fn lemma_app_model_registration_ids(
    aumid: Seq<char>,
    package_protocol_ids: Seq<Seq<char>>,
    http_acid: Option<Seq<char>>,
    https_acid: Option<Seq<char>>,
    http_logo: Option<Seq<char>>,
    https_logo: Option<Seq<char>>,
)
    ensures
        ({
            let r = app_model_registration_of(
                aumid,
                package_protocol_ids,
                http_acid,
                https_acid,
                http_logo,
                https_logo,
            );
            &&& r.aumid == aumid
            &&& clean_ids(r.protocol_ids)
            &&& forall|k: int|
                0 <= k < package_protocol_ids.len() && trim(package_protocol_ids[k]).len() > 0
                    ==> contains_ignore_case(r.protocol_ids, trim(#[trigger] package_protocol_ids[k]))
            &&& (http_acid is Some && trim(http_acid->0).len() > 0 ==> contains_ignore_case(
                r.protocol_ids,
                trim(http_acid->0),
            ))
            &&& (https_acid is Some && trim(https_acid->0).len() > 0 ==> contains_ignore_case(
                r.protocol_ids,
                trim(https_acid->0),
            ))
            &&& (http_logo is Some && trim(http_logo->0).len() > 0 ==> r.icon_path == Some(
                trim(http_logo->0),
            ))
            &&& ((http_logo is None || trim(http_logo->0).len() == 0) ==> r.icon_path == (
            if https_logo is Some && trim(https_logo->0).len() > 0 {
                Some(trim(https_logo->0))
            } else {
                None
            }))
        }),
{
    let empty = Seq::<Seq<char>>::empty();
    let base = merge_all_trimmed(empty, package_protocol_ids);
    let with_http = merge_opt_trimmed(base, http_acid);
    let all = merge_opt_trimmed(with_http, https_acid);
    lemma_merge_all_trimmed_grows(empty, package_protocol_ids);
    assert(clean_ids(empty));
    lemma_merge_all_trimmed_clean(empty, package_protocol_ids);
    match http_acid {
        Some(a) => {
            lemma_merge_trimmed_grows(base, a);
            lemma_merge_trimmed_clean(base, a);
        },
        None => {},
    }
    match https_acid {
        Some(a) => {
            lemma_merge_trimmed_grows(with_http, a);
            lemma_merge_trimmed_clean(with_http, a);
        },
        None => {},
    }
    assert forall|k: int|
        0 <= k < package_protocol_ids.len() && trim(package_protocol_ids[k]).len() > 0
            implies contains_ignore_case(all, trim(#[trigger] package_protocol_ids[k])) by {
        lemma_contains_kept(base, with_http, trim(package_protocol_ids[k]));
        lemma_contains_kept(with_http, all, trim(package_protocol_ids[k]));
    }
    if http_acid is Some && trim(http_acid->0).len() > 0 {
        lemma_contains_kept(with_http, all, trim(http_acid->0));
    }
}

/// Applying a packaged registration makes the browser an `AppModel` browser registered under
/// the application's user model id, with the registration's icon; it keeps its name, its
/// executable and its protocol ids in front, and gains every non-blank id of the registration.
pub proof fn lemma_with_app_model(b: BrowserView, r: AppModelView)
    ensures
        ({
            let a = with_app_model(b, Some(r));
            &&& a.scope == BrowserScope::AppModel
            &&& a.registry_id == r.aumid
            &&& a.icon_path == r.icon_path
            &&& a.display_name == b.display_name
            &&& a.executable_path == b.executable_path
            &&& a.url_protocol_ids.len() >= b.url_protocol_ids.len()
            &&& forall|i: int|
                0 <= i < b.url_protocol_ids.len() ==> #[trigger] a.url_protocol_ids[i]
                    == b.url_protocol_ids[i]
            &&& forall|k: int|
                0 <= k < r.protocol_ids.len() && trim(r.protocol_ids[k]).len() > 0
                    ==> contains_ignore_case(a.url_protocol_ids, trim(#[trigger] r.protocol_ids[k]))
        }),
        with_app_model(b, None) == b,
{
    lemma_merge_all_trimmed_grows(b.url_protocol_ids, r.protocol_ids);
}

/// The file of an icon location: none for a blank location or an indirect resource string
/// (starting with `@`); otherwise, if any, a non-empty path that neither starts nor ends with
/// a quote.
pub proof fn lemma_icon_file_path_ends(location: Seq<char>)
    ensures
        (trim(location).len() == 0 || trim(location)[0] == '@') ==> icon_file_path_of(location) is None,
        icon_file_path_of(location) matches Some(p) ==> p.len() > 0 && p[0] != '"' && p.last()
            != '"',
{
    let l = trim(location);
    if l.len() > 0 && l[0] != '@' {
        let raw: Option<Seq<char>> = if l[0] == '"' {
            match find_first(l.drop_first(), CharClass::Is('"')) {
                Some(end) => Some(l.drop_first().take(end)),
                None => None,
            }
        } else {
            match find_last(l, CharClass::Is(',')) {
                Some(k) => Some(trim(l.take(k))),
                None => Some(l),
            }
        };
        if let Some(raw_path) = raw {
            let _ = lemma_strip_window(trim(raw_path), CharClass::Is('"'));
        }
    }
}

/// For an unquoted icon location with a comma, the path lies within the part before the last
/// comma: the icon index after it is never part of the path.
pub proof fn lemma_icon_file_path_before_last_comma(location: Seq<char>, k: int)
    requires
        trim(location).len() > 0,
        trim(location)[0] != '@',
        trim(location)[0] != '"',
        0 <= k < trim(location).len(),
        trim(location)[k] == ',',
        forall|j: int| k < j < trim(location).len() ==> #[trigger] trim(location)[j] != ',',
    ensures
        icon_file_path_of(location) matches Some(p) ==> exists|start: int|
            0 <= start && start + p.len() <= k && #[trigger] trim(location).subrange(
                start,
                start + p.len(),
            ) == p,
{
    let l = trim(location);
    lemma_find_last(l, CharClass::Is(','));
    let kk = find_last(l, CharClass::Is(',')).unwrap();
    assert(kk == k) by {
        if kk < k {
            assert(l[k] == ',');
        }
        if kk > k {
            assert(l[kk] != ',');
        }
    }
    let x = l.take(k);
    let t = trim(x);
    let q = strip(t, CharClass::Is('"'));
    let i0 = lemma_strip_window(x, CharClass::Whitespace);
    let i2 = lemma_strip_window(t, CharClass::Is('"'));
    let start = i0 + i2;
    assert(x.len() == k);
    assert(start + q.len() <= k);
    assert(l.subrange(start, start + q.len()) =~= q) by {
        assert forall|m: int| 0 <= m < q.len() implies l.subrange(start, start + q.len())[m]
            == q[m] by {
            assert(q[m] == t[i2 + m]);
            assert(t[i2 + m] == x[i0 + i2 + m]);
            assert(x[i0 + i2 + m] == l[i0 + i2 + m]);
        }
    }
    assert(icon_file_path_of(location) == (if q.len() == 0 { None } else { Some(q) }));
    if q.len() > 0 {
        let p = icon_file_path_of(location)->0;
        assert(p == q);
        assert(0 <= start && start + p.len() <= k && trim(location).subrange(start, start + p.len()) == p);
        assert(exists|st: int|
            0 <= st && st + p.len() <= k && #[trigger] trim(location).subrange(st, st + p.len()) == p);
    }
}

/// An unquoted icon location without comma and quotes names its whole trimmed self.
pub proof fn lemma_icon_file_path_plain(location: Seq<char>)
    requires
        trim(location).len() > 0,
        trim(location)[0] != '@',
        forall|j: int|
            0 <= j < trim(location).len() ==> #[trigger] trim(location)[j] != ',' && trim(location)[j]
                != '"',
    ensures
        icon_file_path_of(location) == Some(trim(location)),
{
    let l = trim(location);
    lemma_find_last(l, CharClass::Is(','));
    lemma_strip_idempotent(location, CharClass::Whitespace);
    assert(l[0] != '"');
    assert(strip_start(l, CharClass::Is('"')) == l);
    assert(l.last() == l[l.len() - 1]);
    assert(strip_end(l, CharClass::Is('"')) == l);
}

/// With both URL associations read, the protocol ids hold each non-blank one of them,
/// trimmed, up to ASCII case, and nothing else.
pub proof fn lemma_web_protocol_ids_hold_both(http: Seq<char>, https: Seq<char>)
    ensures
        ({
            let ids = web_protocol_ids_of(Some(http), Some(https));
            &&& trim(http).len() > 0 ==> contains_ignore_case(ids, trim(http))
            &&& trim(https).len() > 0 ==> contains_ignore_case(ids, trim(https))
            &&& ids.len() <= 2
            &&& forall|i: int| 0 <= i < ids.len() ==> #[trigger] ids[i] == trim(http) || ids[i] == trim(https)
        }),
{
    let empty = Seq::<Seq<char>>::empty();
    let both = seq![http, https];
    lemma_merge_all_trimmed_grows(empty, both);
    assert(both[0] == http && both[1] == https);
    assert(both.drop_last() =~= seq![http]);
    assert(seq![http].drop_last() =~= empty);
    let first = merge_trimmed(empty, http);
    assert(merge_all_trimmed(empty, seq![http]) == merge_trimmed(merge_all_trimmed(empty, empty), http));
    assert(web_protocol_ids_of(Some(http), Some(https)) == merge_trimmed(first, https));
}

} // verus!
