//! The tray application's decisions: which items the menu shows, what a chosen menu item
//! asks for, which clicks open the menu, and which Settings link a browser item opens.
use vstd::prelude::*;

use crate::browser::{
    browser_menu_label, menu_label, opt_str_text, views, BrowserRegistration, BrowserView,
};
use crate::settings::{default_apps_uri_for, settings_uri};
use crate::text::{chars_equal, chars_of, sub_chars};

verus! {

/// Menu item id of the placeholder shown when no browser was found.
pub const NO_BROWSERS_ID: &'static str = "no-browsers";

/// Text of the placeholder shown when no browser was found.
pub const NO_BROWSERS_LABEL: &'static str = "No browsers found";

/// Menu item id of "About".
pub const ABOUT_ID: &'static str = "about";

/// Text of "About".
pub const ABOUT_LABEL: &'static str = "About Browser Switcher";

/// Menu item id of "Quit".
pub const QUIT_ID: &'static str = "quit";

/// Text of "Quit".
pub const QUIT_LABEL: &'static str = "Quit";

/// Prefix of a browser item's id; the browser's index in the list follows it.
pub const BROWSER_PREFIX: &'static str = "browser:";

/// What a chosen menu item asks the application to do.
#[derive(Clone, Copy, Debug, PartialEq, Eq, Structural)]
pub enum MenuAction {
    Quit,
    ShowAbout,
    /// Open the default-apps settings of the browser at this index of the list.
    OpenBrowserSettings(usize),
    /// Nothing (an item that does nothing, or an id that no item has).
    Ignore,
}

/// One item of the tray menu, top to bottom.
#[derive(Debug, PartialEq, Eq)]
pub enum MenuItemPlan {
    /// The disabled "No browsers found" item.
    NoBrowsers,
    /// The item of the browser at `index`, with its id and label.
    Browser { index: usize, id: String, label: String },
    Separator,
    About,
    Quit,
}

pub enum MenuItemView {
    NoBrowsers,
    Browser { index: int, id: Seq<char>, label: Seq<char> },
    Separator,
    About,
    Quit,
}

impl View for MenuItemPlan {
    type V = MenuItemView;

    open spec fn view(&self) -> MenuItemView {
        match self {
            MenuItemPlan::NoBrowsers => MenuItemView::NoBrowsers,
            MenuItemPlan::Browser { index, id, label } => MenuItemView::Browser {
                index: *index as int,
                id: id@,
                label: label@,
            },
            MenuItemPlan::Separator => MenuItemView::Separator,
            MenuItemPlan::About => MenuItemView::About,
            MenuItemPlan::Quit => MenuItemView::Quit,
        }
    }
}

/// A mouse button on the tray icon.
#[derive(Clone, Copy, Debug, PartialEq, Eq, Structural)]
pub enum PointerButton {
    Left,
    Right,
    Middle,
}

/// Whether a mouse button went down or came up.
#[derive(Clone, Copy, Debug, PartialEq, Eq, Structural)]
pub enum PointerState {
    Up,
    Down,
}

// ---------------------------------------------------------------------------------------------
// Decimal numbers
// ---------------------------------------------------------------------------------------------

pub open spec fn digit_char(d: nat) -> char {
    ((d + 48) as u8) as char
}

proof fn lemma_digit_char(d: nat)
    requires
        d < 10,
    ensures
        is_digit(digit_char(d)),
        (digit_char(d) as u32) - 48 == d,
{
}

pub open spec fn is_digit(c: char) -> bool {
    '0' <= c && c <= '9'
}

/// The decimal digits of `n`, without leading zeros.
pub open spec fn decimal(n: nat) -> Seq<char>
    decreases n,
{
    if n < 10 {
        seq![digit_char(n)]
    } else {
        decimal(n / 10).push(digit_char(n % 10))
    }
}

/// The number that a sequence of decimal digits stands for.
pub open spec fn digits_value(s: Seq<char>) -> nat
    decreases s.len(),
{
    if s.len() == 0 {
        0
    } else {
        digits_value(s.drop_last()) * 10 + ((s.last() as u32) - 48) as nat
    }
}

/// The digits of a number as `usize::from_str` reads it: what follows an optional `+`.
pub open spec fn unsigned_digits(s: Seq<char>) -> Seq<char> {
    if s.len() > 0 && s[0] == '+' {
        s.drop_first()
    } else {
        s
    }
}

/// The value of at least one decimal digit, if it fits in a `usize`.
pub open spec fn parse_digits(digits: Seq<char>) -> Option<nat> {
    if digits.len() > 0 && (forall|i: int| 0 <= i < digits.len() ==> is_digit(#[trigger] digits[i]))
        && digits_value(digits) <= usize::MAX {
        Some(digits_value(digits))
    } else {
        None
    }
}

/// `usize::from_str`: an optional `+` and then at least one decimal digit, of a value that
/// fits in a `usize`.
pub open spec fn parse_usize(s: Seq<char>) -> Option<nat> {
    parse_digits(unsigned_digits(s))
}

/// A longer digit sequence stands for at least as much as its prefix.
proof fn lemma_digits_value_prefix(s: Seq<char>, i: int)
    requires
        0 <= i <= s.len(),
        forall|k: int| 0 <= k < s.len() ==> is_digit(#[trigger] s[k]),
    ensures
        digits_value(s.take(i)) <= digits_value(s),
    decreases s.len() - i,
{
    if i < s.len() {
        assert(s.drop_last().take(i) =~= s.take(i));
        assert forall|k: int| 0 <= k < s.drop_last().len() implies is_digit(
            #[trigger] s.drop_last()[k],
        ) by {
            assert(s.drop_last()[k] == s[k]);
        }
        lemma_digits_value_prefix(s.drop_last(), i);
    } else {
        assert(s.take(i) =~= s);
    }
}

/// The digits of `n` are decimal digits and stand for `n`.
proof fn lemma_decimal(n: nat)
    ensures
        decimal(n).len() > 0,
        forall|k: int| 0 <= k < decimal(n).len() ==> is_digit(#[trigger] decimal(n)[k]),
        digits_value(decimal(n)) == n,
    decreases n,
{
    lemma_digit_char(n % 10);
    if n >= 10 {
        lemma_decimal(n / 10);
        let d = decimal(n / 10);
        assert(decimal(n).drop_last() =~= d);
        assert(decimal(n).last() == digit_char(n % 10));
        assert(digits_value(decimal(n)) == digits_value(d) * 10 + (n % 10));
        assert((n / 10) * 10 + n % 10 == n);
        assert forall|k: int| 0 <= k < decimal(n).len() implies is_digit(#[trigger] decimal(n)[k]) by {
            if k < d.len() {
                assert(decimal(n)[k] == d[k]);
            }
        }
    } else {
        assert(decimal(n).drop_last() =~= Seq::<char>::empty());
        assert(decimal(n).last() == digit_char(n));
        assert(digits_value(Seq::<char>::empty()) == 0);
    }
}

/// Appends the decimal digits of `n` to `s` (`usize`'s `Display`).
fn push_decimal(s: &mut String, n: usize)
    ensures
        final(s)@ == old(s)@ + decimal(n as nat),
    decreases n,
{
    if n >= 10 {
        push_decimal(s, n / 10);
    }
    let d = (n % 10) as u8;
    s.push((d + 48) as char);
    proof {
        if n >= 10 {
            assert(old(s)@ + decimal(n as nat) =~= old(s)@ + decimal((n / 10) as nat) + seq![
                digit_char((n % 10) as nat),
            ]);
        } else {
            assert(old(s)@ + decimal(n as nat) =~= old(s)@ + seq![digit_char(n as nat)]);
        }
    }
}

/// Reads a `usize` the way `str::parse::<usize>` does: an optional `+`, then one or more
/// decimal digits whose value fits in a `usize`; anything else gives none.
pub fn parse_index(s: &Vec<char>) -> (r: Option<usize>)
    ensures
        match r {
            Some(v) => parse_usize(s@) == Some(v as nat),
            None => parse_usize(s@) is None,
        },
{
    let start: usize = if s.len() > 0 && s[0] == '+' {
        1
    } else {
        0
    };
    let ghost digits = unsigned_digits(s@);
    assert(digits =~= s@.skip(start as int));
    if start >= s.len() {
        return None;
    }
    let mut value: usize = 0;
    let mut i: usize = start;
    assert(digits.take(0) =~= Seq::<char>::empty());
    while i < s.len()
        invariant
            start <= i <= s.len(),
            start < s.len(),
            digits == s@.skip(start as int),
            digits == unsigned_digits(s@),
            forall|k: int| 0 <= k < i - start ==> is_digit(#[trigger] digits[k]),
            value as nat == digits_value(digits.take(i - start)),
        decreases s.len() - i,
    {
        let c = s[i];
        if !('0' <= c && c <= '9') {
            assert(!is_digit(digits[i - start]));
            assert(parse_digits(digits) is None);
            assert(parse_usize(s@) is None);
            return None;
        }
        let d = ((c as u32) - 48) as usize;
        proof {
            assert(digits.take(i - start + 1).drop_last() =~= digits.take(i - start));
            assert(digits.take(i - start + 1).last() == c);
        }
        match value.checked_mul(10) {
            Some(tens) => match tens.checked_add(d) {
                Some(next) => {
                    value = next;
                },
                None => {
                    proof {
                        assert(forall|k: int| 0 <= k < i - start + 1 ==> is_digit(#[trigger] digits[k]));
                        overflow_rest(digits, i - start + 1);
                        assert(parse_digits(digits) is None);
                    }
                    return None;
                },
            },
            None => {
                proof {
                    assert(forall|k: int| 0 <= k < i - start + 1 ==> is_digit(#[trigger] digits[k]));
                    overflow_rest(digits, i - start + 1);
                    assert(parse_digits(digits) is None);
                }
                return None;
            },
        }
        i = i + 1;
    }
    assert(digits.take(s.len() - start) =~= digits);
    Some(value)
}

/// When a prefix of digits already exceeds `usize::MAX`, so does the whole (or it is not all
/// digits).
proof fn overflow_rest(digits: Seq<char>, i: int)
    requires
        0 < i <= digits.len(),
        forall|k: int| 0 <= k < i ==> is_digit(#[trigger] digits[k]),
        digits_value(digits.take(i)) > usize::MAX,
    ensures
        parse_digits(digits) is None,
{
    if forall|k: int| 0 <= k < digits.len() ==> is_digit(#[trigger] digits[k]) {
        lemma_digits_value_prefix(digits, i);
    }
}

// ---------------------------------------------------------------------------------------------
// The menu
// ---------------------------------------------------------------------------------------------

/// `s` starts with `prefix`.
pub open spec fn starts_with(s: Seq<char>, prefix: Seq<char>) -> bool {
    prefix.len() <= s.len() && s.take(prefix.len() as int) == prefix
}

/// What choosing the menu item with id `id` asks for.
pub open spec fn menu_action_of(id: Seq<char>) -> MenuAction {
    if id == QUIT_ID@ {
        MenuAction::Quit
    } else if id == ABOUT_ID@ {
        MenuAction::ShowAbout
    } else if starts_with(id, BROWSER_PREFIX@) {
        match parse_usize(id.skip(BROWSER_PREFIX@.len() as int)) {
            Some(v) => MenuAction::OpenBrowserSettings(v as usize),
            None => MenuAction::Ignore,
        }
    } else {
        MenuAction::Ignore
    }
}

/// The id of the menu item of the browser at `index`.
pub open spec fn browser_item_id(index: nat) -> Seq<char> {
    BROWSER_PREFIX@ + decimal(index)
}

/// The tray menu for `bs`: an item per browser (or the "No browsers found" placeholder),
/// then a separator, "About" and "Quit".
pub open spec fn menu_plan(bs: Seq<BrowserView>, default_protocol_id: Option<Seq<char>>) -> Seq<
    MenuItemView,
> {
    let items = if bs.len() == 0 {
        seq![MenuItemView::NoBrowsers]
    } else {
        Seq::new(
            bs.len(),
            |i: int|
                MenuItemView::Browser {
                    index: i,
                    id: browser_item_id(i as nat),
                    label: menu_label(bs[i], default_protocol_id),
                },
        )
    };
    items + seq![MenuItemView::Separator, MenuItemView::About, MenuItemView::Quit]
}

/// What choosing the menu item with id `id` asks for: "quit" quits, "about" shows the About
/// window, `browser:<n>` (with `n` read as `str::parse::<usize>` reads it) opens the settings
/// of browser `n`, and any other id does nothing.
pub fn menu_action(id: &str) -> (action: MenuAction)
    ensures
        action == menu_action_of(id@),
{
    let v = chars_of(id);
    let quit = chars_of(QUIT_ID);
    if chars_equal(&v, &quit) {
        return MenuAction::Quit;
    }
    let about = chars_of(ABOUT_ID);
    if chars_equal(&v, &about) {
        return MenuAction::ShowAbout;
    }
    let prefix = chars_of(BROWSER_PREFIX);
    if prefix.len() > v.len() {
        return MenuAction::Ignore;
    }
    let head = sub_chars(&v, 0, prefix.len());
    assert(head@ =~= v@.take(prefix@.len() as int));
    if !chars_equal(&head, &prefix) {
        return MenuAction::Ignore;
    }
    let rest = sub_chars(&v, prefix.len(), v.len());
    assert(rest@ =~= v@.skip(prefix@.len() as int));
    match parse_index(&rest) {
        Some(index) => MenuAction::OpenBrowserSettings(index),
        None => MenuAction::Ignore,
    }
}

/// The items of the tray menu for `browsers`, top to bottom: one per browser, with the id
/// `browser:<index>` and the browser's menu label, or the disabled "No browsers found" item
/// when there is none; then a separator, "About" and "Quit".
pub fn build_menu_plan(browsers: &Vec<BrowserRegistration>, default_protocol_id: Option<&str>) -> (plan: Vec<MenuItemPlan>)
    ensures
        plan@.map_values(|item: MenuItemPlan| item@) == menu_plan(
            views(browsers@),
            opt_str_text(default_protocol_id),
        ),
{
    let ghost bs = views(browsers@);
    let ghost d = opt_str_text(default_protocol_id);
    let mut plan: Vec<MenuItemPlan> = Vec::new();
    if browsers.len() == 0 {
        plan.push(MenuItemPlan::NoBrowsers);
    } else {
        let mut i: usize = 0;
        while i < browsers.len()
            invariant
                i <= browsers.len(),
                bs == views(browsers@),
                d == opt_str_text(default_protocol_id),
                plan@.len() == i,
                forall|k: int|
                    0 <= k < i ==> #[trigger] plan@[k]@ == (MenuItemView::Browser {
                        index: k,
                        id: browser_item_id(k as nat),
                        label: menu_label(bs[k], d),
                    }),
            decreases browsers.len() - i,
        {
            let mut id = BROWSER_PREFIX.to_owned();
            push_decimal(&mut id, i);
            let label = browser_menu_label(&browsers[i], default_protocol_id);
            assert(bs[i as int] == browsers@[i as int]@);
            plan.push(MenuItemPlan::Browser { index: i, id, label });
            i = i + 1;
        }
    }
    plan.push(MenuItemPlan::Separator);
    plan.push(MenuItemPlan::About);
    plan.push(MenuItemPlan::Quit);
    assert(plan@.map_values(|item: MenuItemPlan| item@) =~= menu_plan(bs, d));
    plan
}

/// The Settings link that the menu item of the browser at `index` opens, if the list has a
/// browser there.
pub fn browser_settings_target(browsers: &Vec<BrowserRegistration>, index: usize) -> (uri: Option<String>)
    ensures
        match uri {
            Some(u) => index < browsers@.len() && u@ == settings_uri(
                browsers@[index as int]@.scope,
                browsers@[index as int]@.registry_id,
            ),
            None => index >= browsers@.len(),
        },
{
    if index < browsers.len() {
        Some(default_apps_uri_for(&browsers[index]))
    } else {
        None
    }
}

/// Whether a click on the tray icon opens the menu: the left or right button, when it comes
/// up.
pub fn tray_click_shows_menu(button: PointerButton, state: PointerState) -> (shows: bool)
    ensures
        shows == ((button == PointerButton::Left || button == PointerButton::Right) && state
            == PointerState::Up),
{
    match state {
        PointerState::Up => match button {
            PointerButton::Left => true,
            PointerButton::Right => true,
            PointerButton::Middle => false,
        },
        PointerState::Down => false,
    }
}

/// Whether `ShellExecuteW` succeeded, given the code it returned: codes up to 32 are errors.
pub fn shell_execute_succeeded(code: isize) -> (ok: bool)
    ensures
        ok == (code > 32),
{
    code > 32
}

// ---------------------------------------------------------------------------------------------
// Laws
// ---------------------------------------------------------------------------------------------

/// The id that the menu gives the browser at `index` asks, when chosen, for the settings of
/// that same browser.
pub proof fn lemma_browser_item_id_round_trip(index: usize)
    ensures
        menu_action_of(browser_item_id(index as nat)) == MenuAction::OpenBrowserSettings(index),
{
    reveal_strlit("browser:");
    reveal_strlit("quit");
    reveal_strlit("about");
    let id = browser_item_id(index as nat);
    lemma_decimal(index as nat);
    assert(id[0] == 'b');
    assert(QUIT_ID@[0] == 'q');
    assert(ABOUT_ID@[0] == 'a');
    assert(id.take(BROWSER_PREFIX@.len() as int) =~= BROWSER_PREFIX@);
    assert(id.skip(BROWSER_PREFIX@.len() as int) =~= decimal(index as nat));
    let digits = decimal(index as nat);
    assert(digits[0] != '+');
}

/// Every item of the menu is the item its index says: each browser item's id leads back to
/// its own browser.
pub proof fn lemma_menu_plan_ids(bs: Seq<BrowserView>, default_protocol_id: Option<Seq<char>>, k: int)
    requires
        0 <= k < bs.len(),
        bs.len() <= usize::MAX,
    ensures
        menu_plan(bs, default_protocol_id)[k] matches MenuItemView::Browser { index, id, label }
            && index == k && menu_action_of(id) == MenuAction::OpenBrowserSettings(k as usize),
{
    lemma_browser_item_id_round_trip(k as usize);
}

} // verus!
