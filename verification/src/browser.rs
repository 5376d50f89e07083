//! The browser model: one registration of a browser with Windows, how duplicate
//! registrations are merged, and how a browser is labelled in the tray menu.
use vstd::prelude::*;

use crate::text::{
    chars_eq_ignore_case, chars_equal, chars_lt, chars_of, eq_ignore_case,
    lemma_seq_lt_asymmetric, lemma_seq_lt_first_difference, lemma_seq_lt_proper_prefix,
    lemma_seq_lt_total, lemma_seq_lt_transitive, lower, lower_chars, seq_lt, trim,
    trim_chars,
};

verus! {

/// Where Windows keeps a browser's registration.
#[derive(Clone, Copy, Debug, PartialEq, Eq, Structural)]
pub enum BrowserScope {
    User,
    Machine,
    AppModel,
}

/// One browser as Windows registers it.
#[derive(Debug, PartialEq, Eq)]
pub struct BrowserRegistration {
    pub display_name: String,
    pub registry_id: String,
    pub scope: BrowserScope,
    pub executable_path: Option<String>,
    pub icon_path: Option<String>,
    pub url_protocol_ids: Vec<String>,
}

/// The mathematical value of a [`BrowserRegistration`]: every text as its characters.
pub struct BrowserView {
    pub display_name: Seq<char>,
    pub registry_id: Seq<char>,
    pub scope: BrowserScope,
    pub executable_path: Option<Seq<char>>,
    pub icon_path: Option<Seq<char>>,
    pub url_protocol_ids: Seq<Seq<char>>,
}

pub open spec fn opt_text(o: Option<String>) -> Option<Seq<char>> {
    match o {
        Some(s) => Some(s@),
        None => None,
    }
}

pub open spec fn opt_str_text(o: Option<&str>) -> Option<Seq<char>> {
    match o {
        Some(s) => Some(s@),
        None => None,
    }
}

pub open spec fn texts(v: Seq<String>) -> Seq<Seq<char>> {
    Seq::new(v.len(), |i: int| v[i]@)
}

impl View for BrowserRegistration {
    type V = BrowserView;

    open spec fn view(&self) -> BrowserView {
        BrowserView {
            display_name: self.display_name@,
            registry_id: self.registry_id@,
            scope: self.scope,
            executable_path: opt_text(self.executable_path),
            icon_path: opt_text(self.icon_path),
            url_protocol_ids: texts(self.url_protocol_ids@),
        }
    }
}

pub open spec fn views(v: Seq<BrowserRegistration>) -> Seq<BrowserView> {
    Seq::new(v.len(), |i: int| v[i]@)
}

/// Whether `ids` holds an id equal to `id` up to ASCII case.
pub open spec fn contains_ignore_case(ids: Seq<Seq<char>>, id: Seq<char>) -> bool {
    exists|i: int| 0 <= i < ids.len() && eq_ignore_case(#[trigger] ids[i], id)
}

/// `existing` followed by each id of `incoming` that is not yet there up to ASCII case,
/// taken in order.
pub open spec fn merge_ids(existing: Seq<Seq<char>>, incoming: Seq<Seq<char>>) -> Seq<Seq<char>>
    decreases incoming.len(),
{
    if incoming.len() == 0 {
        existing
    } else {
        let merged = merge_ids(existing, incoming.drop_last());
        if contains_ignore_case(merged, incoming.last()) {
            merged
        } else {
            merged.push(incoming.last())
        }
    }
}

/// The identity under which registrations are merged: the registry id, trimmed and
/// lower-cased.
pub open spec fn key_of(b: BrowserView) -> Seq<char> {
    lower(trim(b.registry_id))
}

/// What a registration becomes when a later registration with the same key is merged into it:
/// it keeps its own name, id and scope, takes the first paths that are known, and gains the
/// protocol ids it lacks.
pub open spec fn absorb(existing: BrowserView, incoming: BrowserView) -> BrowserView {
    BrowserView {
        display_name: existing.display_name,
        registry_id: existing.registry_id,
        scope: existing.scope,
        executable_path: if existing.executable_path is None {
            incoming.executable_path
        } else {
            existing.executable_path
        },
        icon_path: if existing.icon_path is None {
            incoming.icon_path
        } else {
            existing.icon_path
        },
        url_protocol_ids: merge_ids(existing.url_protocol_ids, incoming.url_protocol_ids),
    }
}

/// The merged registrations of `bs`, by key.
pub open spec fn dedupe_map(bs: Seq<BrowserView>) -> Map<Seq<char>, BrowserView>
    decreases bs.len(),
{
    if bs.len() == 0 {
        Map::empty()
    } else {
        let m = dedupe_map(bs.drop_last());
        let b = bs.last();
        if m.dom().contains(key_of(b)) {
            m.insert(key_of(b), absorb(m[key_of(b)], b))
        } else {
            m.insert(key_of(b), b)
        }
    }
}

/// The menu order: by lower-cased display name, then by key.
pub open spec fn menu_precedes(a: BrowserView, b: BrowserView) -> bool {
    ||| seq_lt(lower(a.display_name), lower(b.display_name))
    ||| (lower(a.display_name) == lower(b.display_name) && seq_lt(key_of(a), key_of(b)))
}

/// `out` lists the merged registrations of `inputs`, one per key, in menu order.
pub open spec fn is_deduplication(inputs: Seq<BrowserView>, out: Seq<BrowserView>) -> bool {
    let m = dedupe_map(inputs);
    &&& forall|j: int|
        0 <= j < out.len() ==> #[trigger] m.dom().contains(key_of(out[j])) && m[key_of(out[j])]
            == out[j]
    &&& forall|k: Seq<char>| #[trigger]
        m.dom().contains(k) ==> exists|j: int| 0 <= j < out.len() && key_of(out[j]) == k
    &&& forall|j1: int, j2: int|
        0 <= j1 < j2 < out.len() ==> menu_precedes(#[trigger] out[j1], #[trigger] out[j2])
    &&& forall|j1: int, j2: int|
        0 <= j1 < out.len() && 0 <= j2 < out.len() && j1 != j2 ==> key_of(#[trigger] out[j1])
            != key_of(#[trigger] out[j2])
}

/// Whether `b` is the browser whose protocol id is `default_protocol_id`.
pub open spec fn matches_default_protocol(b: BrowserView, default_protocol_id: Option<Seq<char>>) -> bool {
    match default_protocol_id {
        None => false,
        Some(d) => {
            ||| eq_ignore_case(trim(b.registry_id), trim(d))
            ||| exists|i: int|
                0 <= i < b.url_protocol_ids.len() && eq_ignore_case(
                    trim(#[trigger] b.url_protocol_ids[i]),
                    trim(d),
                )
        },
    }
}

/// The check mark that the menu puts behind the default browser's name.
pub open spec fn default_mark() -> Seq<char> {
    seq![' ', '\u{2713}']
}

/// The tray menu label of `b`.
pub open spec fn menu_label(b: BrowserView, default_protocol_id: Option<Seq<char>>) -> Seq<char> {
    if matches_default_protocol(b, default_protocol_id) {
        b.display_name + default_mark()
    } else {
        b.display_name
    }
}

// ---------------------------------------------------------------------------------------------
// Copies with known contents
// ---------------------------------------------------------------------------------------------

pub fn clone_text(s: &String) -> (r: String)
    ensures
        r@ == s@,
{
    s.clone()
}

pub fn clone_opt_text(o: &Option<String>) -> (r: Option<String>)
    ensures
        opt_text(r) == opt_text(*o),
{
    match o {
        Some(s) => Some(s.clone()),
        None => None,
    }
}

pub fn clone_texts(v: &Vec<String>) -> (r: Vec<String>)
    ensures
        texts(r@) == texts(v@),
{
    let mut r: Vec<String> = Vec::new();
    let mut i: usize = 0;
    while i < v.len()
        invariant
            i <= v.len(),
            r@.len() == i,
            forall|k: int| 0 <= k < i ==> #[trigger] r@[k]@ == v@[k]@,
        decreases v.len() - i,
    {
        r.push(v[i].clone());
        i = i + 1;
    }
    assert(texts(r@) =~= texts(v@));
    r
}

impl BrowserRegistration {
    /// A copy of this registration.
    pub fn duplicate(&self) -> (r: BrowserRegistration)
        ensures
            r@ == self@,
    {
        BrowserRegistration {
            display_name: clone_text(&self.display_name),
            registry_id: clone_text(&self.registry_id),
            scope: self.scope,
            executable_path: clone_opt_text(&self.executable_path),
            icon_path: clone_opt_text(&self.icon_path),
            url_protocol_ids: clone_texts(&self.url_protocol_ids),
        }
    }
}

impl Clone for BrowserRegistration {
    fn clone(&self) -> (r: Self)
        ensures
            r@ == self@,
    {
        self.duplicate()
    }
}

// ---------------------------------------------------------------------------------------------
// Protocol ids
// ---------------------------------------------------------------------------------------------

/// Whether `ids` holds an id equal to `id` up to ASCII case.
pub fn ids_contain_ignore_case(ids: &Vec<String>, id: &Vec<char>) -> (r: bool)
    ensures
        r == contains_ignore_case(texts(ids@), id@),
{
    let mut i: usize = 0;
    while i < ids.len()
        invariant
            i <= ids.len(),
            forall|k: int| 0 <= k < i ==> !eq_ignore_case(#[trigger] texts(ids@)[k], id@),
        decreases ids.len() - i,
    {
        let candidate = chars_of(ids[i].as_str());
        if chars_eq_ignore_case(&candidate, id) {
            assert(texts(ids@)[i as int] == ids@[i as int]@);
            return true;
        }
        i = i + 1;
    }
    false
}

/// Appends each id of `incoming` that `existing` does not hold yet up to ASCII case.
fn merge_protocol_ids(existing: &mut Vec<String>, incoming: &Vec<String>)
    ensures
        texts(final(existing)@) == merge_ids(texts(old(existing)@), texts(incoming@)),
{
    let ghost start = texts(existing@);
    let mut i: usize = 0;
    while i < incoming.len()
        invariant
            i <= incoming.len(),
            texts(existing@) == merge_ids(start, texts(incoming@).take(i as int)),
        decreases incoming.len() - i,
    {
        let id = chars_of(incoming[i].as_str());
        assert(texts(incoming@).take(i + 1).drop_last() =~= texts(incoming@).take(i as int));
        assert(texts(incoming@).take(i + 1).last() == incoming@[i as int]@);
        if !ids_contain_ignore_case(existing, &id) {
            let ghost before = existing@;
            existing.push(clone_text(&incoming[i]));
            assert(texts(existing@) =~= texts(before).push(incoming@[i as int]@));
        }
        i = i + 1;
    }
    assert(texts(incoming@).take(incoming.len() as int) =~= texts(incoming@));
}

// ---------------------------------------------------------------------------------------------
// Matching the default browser
// ---------------------------------------------------------------------------------------------

/// Whether `browser` is the one registered under the default browser's protocol id:
/// its registry id or one of its URL protocol ids equals `default_protocol_id`, ignoring
/// surrounding whitespace and ASCII case. Without a default protocol id nothing matches.
pub fn browser_matches_default_protocol(
    browser: &BrowserRegistration,
    default_protocol_id: Option<&str>,
) -> (matches: bool)
    ensures
        matches == matches_default_protocol(browser@, opt_str_text(default_protocol_id)),
{
    match default_protocol_id {
        None => false,
        Some(d) => {
            let d_chars = chars_of(d);
            let wanted = trim_chars(&d_chars);
            let id_chars = chars_of(browser.registry_id.as_str());
            let id = trim_chars(&id_chars);
            if chars_eq_ignore_case(&id, &wanted) {
                return true;
            }
            let ids = &browser.url_protocol_ids;
            let ghost bv = browser@;
            let mut i: usize = 0;
            while i < ids.len()
                invariant
                    i <= ids.len(),
                    bv == browser@,
                    ids == &browser.url_protocol_ids,
                    wanted@ == trim(d@),
                    opt_str_text(default_protocol_id) == Some(d@),
                    forall|k: int|
                        0 <= k < i ==> !eq_ignore_case(
                            trim(#[trigger] bv.url_protocol_ids[k]),
                            trim(d@),
                        ),
                decreases ids.len() - i,
            {
                let raw = chars_of(ids[i].as_str());
                let t = trim_chars(&raw);
                assert(bv.url_protocol_ids[i as int] == ids@[i as int]@);
                if chars_eq_ignore_case(&t, &wanted) {
                    assert(eq_ignore_case(trim(bv.url_protocol_ids[i as int]), trim(d@)));
                    return true;
                }
                i = i + 1;
            }
            false
        },
    }
}

/// The tray menu label of `browser`: its display name, followed by " ✓" when it is the
/// default browser.
pub fn browser_menu_label(browser: &BrowserRegistration, default_protocol_id: Option<&str>) -> (label: String)
    ensures
        label@ == menu_label(browser@, opt_str_text(default_protocol_id)),
{
    let mut label = clone_text(&browser.display_name);
    if browser_matches_default_protocol(browser, default_protocol_id) {
        label.push(' ');
        label.push('\u{2713}');
        assert(label@ =~= browser@.display_name + default_mark());
    }
    label
}

// ---------------------------------------------------------------------------------------------
// Deduplication
// ---------------------------------------------------------------------------------------------

/// The menu order is a strict order.
pub proof fn lemma_menu_precedes_strict(a: BrowserView, b: BrowserView, c: BrowserView)
    ensures
        !menu_precedes(a, a),
        menu_precedes(a, b) ==> !menu_precedes(b, a),
        menu_precedes(a, b) && menu_precedes(b, c) ==> menu_precedes(a, c),
{
    lemma_seq_lt_asymmetric(lower(a.display_name), lower(b.display_name));
    lemma_seq_lt_asymmetric(key_of(a), key_of(b));
    if menu_precedes(a, b) && menu_precedes(b, c) {
        if seq_lt(lower(a.display_name), lower(b.display_name)) && seq_lt(
            lower(b.display_name),
            lower(c.display_name),
        ) {
            lemma_seq_lt_transitive(
                lower(a.display_name),
                lower(b.display_name),
                lower(c.display_name),
            );
        }
        if lower(a.display_name) == lower(b.display_name) && lower(b.display_name) == lower(
            c.display_name,
        ) {
            lemma_seq_lt_transitive(key_of(a), key_of(b), key_of(c));
        }
    }
}

/// Two registrations with different keys are ordered one way or the other.
pub proof fn lemma_menu_precedes_total(a: BrowserView, b: BrowserView)
    requires
        key_of(a) != key_of(b),
    ensures
        menu_precedes(a, b) || menu_precedes(b, a),
{
    if lower(a.display_name) != lower(b.display_name) {
        lemma_seq_lt_total(lower(a.display_name), lower(b.display_name));
    } else {
        lemma_seq_lt_total(key_of(a), key_of(b));
    }
}

/// The key of a registration (`registry_id`, trimmed and ASCII lower-cased).
fn browser_key(browser: &BrowserRegistration) -> (key: Vec<char>)
    ensures
        key@ == key_of(browser@),
{
    let id = chars_of(browser.registry_id.as_str());
    let t = trim_chars(&id);
    lower_chars(&t)
}

/// Merges `incoming` into `existing`, which has the same key.
fn absorb_registration(existing: &mut BrowserRegistration, incoming: &BrowserRegistration)
    ensures
        final(existing)@ == absorb(old(existing)@, incoming@),
{
    if existing.executable_path.is_none() {
        existing.executable_path = clone_opt_text(&incoming.executable_path);
    }
    if existing.icon_path.is_none() {
        existing.icon_path = clone_opt_text(&incoming.icon_path);
    }
    merge_protocol_ids(&mut existing.url_protocol_ids, &incoming.url_protocol_ids);
}

/// Whether the entry with lower-cased name `name_a` and key `key_a` comes before the one with
/// `name_b` and `key_b` in menu order.
fn ordered_before(name_a: &Vec<char>, key_a: &Vec<char>, name_b: &Vec<char>, key_b: &Vec<char>) -> (r: bool)
    ensures
        r == (seq_lt(name_a@, name_b@) || (name_a@ == name_b@ && seq_lt(key_a@, key_b@))),
{
    chars_lt(name_a, name_b) || (chars_equal(name_a, name_b) && chars_lt(key_a, key_b))
}

/// Merges registrations that share a key (the registry id, trimmed and compared without ASCII
/// case) and sorts the result by display name, ASCII case ignored.
///
/// The first registration of a key keeps its display name, registry id and scope; the
/// executable and icon paths are the first that any registration of the key gives, and the
/// URL protocol ids are those of all of them, each once up to ASCII case, in order of
/// appearance. Registrations whose display names differ only in ASCII case are ordered by key.
pub fn dedupe_browsers(browsers: Vec<BrowserRegistration>) -> (deduped: Vec<BrowserRegistration>)
    ensures
        is_deduplication(views(browsers@), views(deduped@)),
{
    let ghost input = views(browsers@);
    let mut entries: Vec<BrowserRegistration> = Vec::new();
    let mut keys: Vec<Vec<char>> = Vec::new();
    let mut names: Vec<Vec<char>> = Vec::new();
    let mut i: usize = 0;
    assert(input.take(0) =~= Seq::<BrowserView>::empty());
    while i < browsers.len()
        invariant
            i <= browsers.len(),
            input == views(browsers@),
            entries.len() == keys.len() == names.len(),
            forall|j: int| 0 <= j < entries.len() ==> #[trigger] keys@[j]@ == key_of(entries@[j]@),
            forall|j: int|
                0 <= j < entries.len() ==> #[trigger] names@[j]@ == lower(entries@[j]@.display_name),
            forall|j: int|
                0 <= j < entries.len() ==> #[trigger] dedupe_map(input.take(i as int)).dom().contains(
                    key_of(entries@[j]@),
                ) && dedupe_map(input.take(i as int))[key_of(entries@[j]@)] == entries@[j]@,
            forall|k: Seq<char>| #[trigger]
                dedupe_map(input.take(i as int)).dom().contains(k) ==> exists|j: int|
                    0 <= j < entries.len() && key_of(entries@[j]@) == k,
            forall|j1: int, j2: int|
                0 <= j1 < j2 < entries.len() ==> menu_precedes(
                    #[trigger] entries@[j1]@,
                    #[trigger] entries@[j2]@,
                ),
        decreases browsers.len() - i,
    {
        let browser = browsers[i].duplicate();
        let key = browser_key(&browser);
        let name_chars = chars_of(browser.display_name.as_str());
        let name = lower_chars(&name_chars);
        let ghost m = dedupe_map(input.take(i as int));
        let ghost b = browser@;
        proof {
            assert(input.take(i + 1).drop_last() =~= input.take(i as int));
            assert(input.take(i + 1).last() == b);
        }
        // Look for a registration with the same key.
        let mut found: Option<usize> = None;
        let mut j: usize = 0;
        while j < keys.len()
            invariant
                j <= keys.len(),
                entries.len() == keys.len(),
                key@ == key_of(b),
                forall|q: int| 0 <= q < keys.len() ==> #[trigger] keys@[q]@ == key_of(entries@[q]@),
                match found {
                    Some(p) => p < keys.len() && key_of(entries@[p as int]@) == key_of(b),
                    None => forall|q: int| 0 <= q < j ==> key_of(#[trigger] entries@[q]@) != key_of(b),
                },
            decreases keys.len() - j,
        {
            if found.is_none() && chars_equal(&keys[j], &key) {
                found = Some(j);
            }
            j = j + 1;
        }
        proof {
            match found {
                Some(p) => {
                    assert(m.dom().contains(key_of(entries@[p as int]@)));
                    assert(dedupe_map(input.take(i + 1)) == m.insert(
                        key_of(b),
                        absorb(m[key_of(b)], b),
                    ));
                },
                None => {
                    if m.dom().contains(key_of(b)) {
                        let q = choose|q: int| 0 <= q < entries.len() && key_of(entries@[q]@) == key_of(b);
                        assert(key_of(entries@[q]@) != key_of(b));
                    }
                    assert(dedupe_map(input.take(i + 1)) == m.insert(key_of(b), b));
                },
            }
        }
        match found {
            Some(p) => {
                let ghost before = entries@;
                let mut existing = entries.remove(p);
                absorb_registration(&mut existing, &browser);
                entries.insert(p, existing);
                proof {
                    assert(m[key_of(b)] == before[p as int]@);
                    assert forall|q: int| 0 <= q < entries.len() && q != p implies #[trigger] entries@[q]
                        == before[q] by {}
                    assert(key_of(entries@[p as int]@) == key_of(before[p as int]@));
                    assert(entries@[p as int]@.display_name == before[p as int]@.display_name);
                    assert forall|q: int|
                        0 <= q < before.len() && q != p implies key_of(#[trigger] before[q]@) != key_of(
                        b,
                    ) by {
                        if key_of(before[q]@) == key_of(b) {
                            assert(m.dom().contains(key_of(before[q]@)));
                            assert(m.dom().contains(key_of(before[p as int]@)));
                            lemma_menu_precedes_strict(before[q]@, before[q]@, before[q]@);
                            if q < p {
                                assert(menu_precedes(before[q]@, before[p as int]@));
                            } else {
                                assert(menu_precedes(before[p as int]@, before[q]@));
                            }
                        }
                    }
                    assert forall|q: int|
                        0 <= q < entries.len() implies #[trigger] dedupe_map(
                        input.take(i + 1),
                    ).dom().contains(key_of(entries@[q]@)) && dedupe_map(input.take(i + 1))[key_of(
                        entries@[q]@,
                    )] == entries@[q]@ by {
                        if q != p {
                            assert(key_of(before[q]@) != key_of(b));
                            assert(m.dom().contains(key_of(before[q]@)));
                        }
                    }
                    assert forall|k: Seq<char>| #[trigger]
                        dedupe_map(input.take(i + 1)).dom().contains(k) implies exists|q: int|
                        0 <= q < entries.len() && key_of(entries@[q]@) == k by {
                        if k != key_of(b) {
                            let q = choose|q: int| 0 <= q < before.len() && key_of(before[q]@) == k;
                            assert(key_of(entries@[q]@) == k);
                        } else {
                            assert(key_of(entries@[p as int]@) == k);
                        }
                    }
                    assert forall|j1: int, j2: int|
                        0 <= j1 < j2 < entries.len() implies menu_precedes(
                        #[trigger] entries@[j1]@,
                        #[trigger] entries@[j2]@,
                    ) by {
                        assert(menu_precedes(before[j1]@, before[j2]@));
                    }
                }
            },
            None => {
                // Find where the new registration goes in menu order.
                let mut p: usize = 0;
                while p < entries.len() && ordered_before(&names[p], &keys[p], &name, &key)
                    invariant
                        p <= entries.len(),
                        entries.len() == keys.len() == names.len(),
                        key@ == key_of(b),
                        name@ == lower(b.display_name),
                        forall|q: int|
                            0 <= q < entries.len() ==> #[trigger] keys@[q]@ == key_of(entries@[q]@),
                        forall|q: int|
                            0 <= q < entries.len() ==> #[trigger] names@[q]@ == lower(
                                entries@[q]@.display_name,
                            ),
                        forall|q: int| 0 <= q < p ==> menu_precedes(#[trigger] entries@[q]@, b),
                    decreases entries.len() - p,
                {
                    assert(keys@[p as int]@ == key_of(entries@[p as int]@));
                    assert(names@[p as int]@ == lower(entries@[p as int]@.display_name));
                    p = p + 1;
                }
                let ghost before = entries@;
                proof {
                    if p < before.len() {
                        lemma_menu_precedes_total(before[p as int]@, b);
                        assert forall|q: int| p <= q < before.len() implies menu_precedes(
                            b,
                            #[trigger] before[q]@,
                        ) by {
                            if q > p {
                                assert(menu_precedes(before[p as int]@, before[q]@));
                                lemma_menu_precedes_strict(b, before[p as int]@, before[q]@);
                            }
                        }
                    }
                }
                let ghost keys_before = keys@;
                let ghost names_before = names@;
                entries.insert(p, browser);
                keys.insert(p, key);
                names.insert(p, name);
                proof {
                    assert forall|q: int| 0 <= q < p implies #[trigger] entries@[q] == before[q] by {}
                    assert forall|q: int| p < q < entries.len() implies #[trigger] entries@[q] == before[q - 1] by {}
                    assert forall|q: int|
                        0 <= q < entries.len() implies #[trigger] keys@[q]@ == key_of(entries@[q]@)
                            && names@[q]@ == lower(entries@[q]@.display_name) by {
                        if q < p {
                            assert(keys@[q] == keys_before[q] && names@[q] == names_before[q]);
                        } else if q > p {
                            assert(keys@[q] == keys_before[q - 1] && names@[q] == names_before[q - 1]);
                        }
                    }
                    assert forall|q: int|
                        0 <= q < entries.len() implies #[trigger] dedupe_map(
                        input.take(i + 1),
                    ).dom().contains(key_of(entries@[q]@)) && dedupe_map(input.take(i + 1))[key_of(
                        entries@[q]@,
                    )] == entries@[q]@ by {
                        if q < p {
                            assert(entries@[q] == before[q]);
                            assert(key_of(before[q]@) != key_of(b));
                            assert(m.dom().contains(key_of(before[q]@)));
                        } else if q > p {
                            assert(entries@[q] == before[q - 1]);
                            assert(key_of(before[q - 1]@) != key_of(b));
                            assert(m.dom().contains(key_of(before[q - 1]@)));
                        } else {
                            assert(entries@[q]@ == b);
                        }
                    }
                    assert forall|k: Seq<char>| #[trigger]
                        dedupe_map(input.take(i + 1)).dom().contains(k) implies exists|q: int|
                        0 <= q < entries.len() && key_of(entries@[q]@) == k by {
                        if k != key_of(b) {
                            let q = choose|q: int| 0 <= q < before.len() && key_of(before[q]@) == k;
                            if q < p {
                                assert(key_of(entries@[q]@) == k);
                            } else {
                                assert(key_of(entries@[q + 1]@) == k);
                            }
                        } else {
                            assert(key_of(entries@[p as int]@) == k);
                        }
                    }
                    assert forall|j1: int, j2: int|
                        0 <= j1 < j2 < entries.len() implies menu_precedes(
                        #[trigger] entries@[j1]@,
                        #[trigger] entries@[j2]@,
                    ) by {
                        if j2 < p {
                            assert(menu_precedes(before[j1]@, before[j2]@));
                        } else if j1 > p {
                            assert(menu_precedes(before[j1 - 1]@, before[j2 - 1]@));
                        } else if j1 < p && j2 > p {
                            assert(menu_precedes(before[j1]@, before[j2 - 1]@));
                        }
                    }
                }
            },
        }
        i = i + 1;
    }
    proof {
        assert(input.take(browsers.len() as int) =~= input);
        let out = views(entries@);
        assert forall|j: int| 0 <= j < out.len() implies #[trigger] out[j] == entries@[j]@ by {}
        assert forall|j: int|
            0 <= j < out.len() implies #[trigger] dedupe_map(input).dom().contains(key_of(out[j]))
                && dedupe_map(input)[key_of(out[j])] == out[j] by {
            assert(out[j] == entries@[j]@);
            assert(dedupe_map(input.take(browsers.len() as int)).dom().contains(key_of(entries@[j]@)));
        }
        assert forall|k: Seq<char>| #[trigger]
            dedupe_map(input).dom().contains(k) implies exists|j: int|
            0 <= j < out.len() && key_of(out[j]) == k by {
            assert(dedupe_map(input.take(browsers.len() as int)).dom().contains(k));
            let j = choose|j: int| 0 <= j < entries.len() && key_of(entries@[j]@) == k;
            assert(out[j] == entries@[j]@);
        }
        assert forall|j1: int, j2: int|
            0 <= j1 < j2 < out.len() implies menu_precedes(#[trigger] out[j1], #[trigger] out[j2]) by {
            assert(out[j1] == entries@[j1]@ && out[j2] == entries@[j2]@);
        }
        assert forall|j1: int, j2: int|
            0 <= j1 < out.len() && 0 <= j2 < out.len() && j1 != j2 implies key_of(#[trigger] out[j1])
            != key_of(#[trigger] out[j2]) by {
            if key_of(out[j1]) == key_of(out[j2]) {
                assert(dedupe_map(input).dom().contains(key_of(out[j1])));
                assert(dedupe_map(input).dom().contains(key_of(out[j2])));
                assert(out[j1] == out[j2]);
                lemma_menu_precedes_strict(out[j1], out[j2], out[j2]);
                if j1 < j2 {
                    assert(menu_precedes(entries@[j1]@, entries@[j2]@));
                } else {
                    assert(menu_precedes(entries@[j2]@, entries@[j1]@));
                }
            }
        }
    }
    entries
}

// ---------------------------------------------------------------------------------------------
// Laws
// ---------------------------------------------------------------------------------------------

/// No two ids of `ids` are equal up to ASCII case.
pub open spec fn distinct_ignore_case(ids: Seq<Seq<char>>) -> bool {
    forall|i: int, j: int|
        0 <= i < ids.len() && 0 <= j < ids.len() && i != j ==> !eq_ignore_case(
            #[trigger] ids[i],
            #[trigger] ids[j],
        )
}

/// Merging keeps what was there, in place, and leaves every merged id present.
pub proof fn lemma_merge_ids_grows(existing: Seq<Seq<char>>, incoming: Seq<Seq<char>>)
    ensures
        merge_ids(existing, incoming).len() >= existing.len(),
        forall|i: int|
            0 <= i < existing.len() ==> #[trigger] merge_ids(existing, incoming)[i] == existing[i],
        forall|k: int|
            0 <= k < incoming.len() ==> contains_ignore_case(
                merge_ids(existing, incoming),
                #[trigger] incoming[k],
            ),
    decreases incoming.len(),
{
    if incoming.len() > 0 {
        let rest = incoming.drop_last();
        lemma_merge_ids_grows(existing, rest);
        let merged = merge_ids(existing, rest);
        let id = incoming.last();
        assert forall|k: int| 0 <= k < incoming.len() implies contains_ignore_case(
            merge_ids(existing, incoming),
            #[trigger] incoming[k],
        ) by {
            if k < incoming.len() - 1 {
                assert(incoming[k] == rest[k]);
                let j = choose|j: int| 0 <= j < merged.len() && eq_ignore_case(#[trigger] merged[j], rest[k]);
                assert(merge_ids(existing, incoming)[j] == merged[j]);
            } else if !contains_ignore_case(merged, id) {
                assert(merge_ids(existing, incoming)[merged.len() as int] == id);
            }
        }
    }
}

/// Merging keeps a list of protocol ids free of duplicates up to ASCII case.
pub proof fn lemma_merge_ids_distinct(existing: Seq<Seq<char>>, incoming: Seq<Seq<char>>)
    requires
        distinct_ignore_case(existing),
    ensures
        distinct_ignore_case(merge_ids(existing, incoming)),
    decreases incoming.len(),
{
    if incoming.len() > 0 {
        lemma_merge_ids_distinct(existing, incoming.drop_last());
        let merged = merge_ids(existing, incoming.drop_last());
        let id = incoming.last();
        if !contains_ignore_case(merged, id) {
            let out = merged.push(id);
            assert forall|i: int, j: int|
                0 <= i < out.len() && 0 <= j < out.len() && i != j implies !eq_ignore_case(
                #[trigger] out[i],
                #[trigger] out[j],
            ) by {
                if i == merged.len() {
                    assert(out[j] == merged[j]);
                    assert(!eq_ignore_case(merged[j], id));
                } else if j == merged.len() {
                    assert(out[i] == merged[i]);
                    assert(!eq_ignore_case(merged[i], id));
                } else {
                    assert(out[i] == merged[i] && out[j] == merged[j]);
                }
            }
        }
    }
}

/// Ids that are all present already leave a list unchanged.
proof fn lemma_merge_ids_present(existing: Seq<Seq<char>>, incoming: Seq<Seq<char>>)
    requires
        forall|k: int| 0 <= k < incoming.len() ==> contains_ignore_case(existing, #[trigger] incoming[k]),
    ensures
        merge_ids(existing, incoming) == existing,
    decreases incoming.len(),
{
    if incoming.len() > 0 {
        let rest = incoming.drop_last();
        assert forall|k: int| 0 <= k < rest.len() implies contains_ignore_case(existing, #[trigger] rest[k]) by {
            assert(rest[k] == incoming[k]);
        }
        lemma_merge_ids_present(existing, rest);
        assert(contains_ignore_case(existing, incoming[incoming.len() - 1]));
    }
}

/// Merging the same protocol ids a second time changes nothing.
pub proof fn lemma_merge_ids_idempotent(existing: Seq<Seq<char>>, incoming: Seq<Seq<char>>)
    ensures
        merge_ids(merge_ids(existing, incoming), incoming) == merge_ids(existing, incoming),
{
    lemma_merge_ids_grows(existing, incoming);
    lemma_merge_ids_present(merge_ids(existing, incoming), incoming);
}

/// Whether the default browser matches does not depend on the ASCII case of the default
/// protocol id, nor on whitespace around it.
pub proof fn lemma_default_match_ignores_case_and_spacing(
    b: BrowserView,
    d1: Seq<char>,
    d2: Seq<char>,
)
    requires
        eq_ignore_case(trim(d1), trim(d2)),
    ensures
        matches_default_protocol(b, Some(d1)) == matches_default_protocol(b, Some(d2)),
{
    if matches_default_protocol(b, Some(d1)) && !eq_ignore_case(trim(b.registry_id), trim(d1)) {
        let i = choose|i: int|
            0 <= i < b.url_protocol_ids.len() && eq_ignore_case(
                trim(#[trigger] b.url_protocol_ids[i]),
                trim(d1),
            );
        assert(eq_ignore_case(trim(b.url_protocol_ids[i]), trim(d2)));
    }
    if matches_default_protocol(b, Some(d2)) && !eq_ignore_case(trim(b.registry_id), trim(d2)) {
        let i = choose|i: int|
            0 <= i < b.url_protocol_ids.len() && eq_ignore_case(
                trim(#[trigger] b.url_protocol_ids[i]),
                trim(d2),
            );
        assert(eq_ignore_case(trim(b.url_protocol_ids[i]), trim(d1)));
    }
}

/// Registrations with pairwise different keys are their own merge table.
pub proof fn lemma_dedupe_map_of_distinct(s: Seq<BrowserView>)
    requires
        forall|j1: int, j2: int|
            0 <= j1 < s.len() && 0 <= j2 < s.len() && j1 != j2 ==> key_of(#[trigger] s[j1])
                != key_of(#[trigger] s[j2]),
    ensures
        forall|k: Seq<char>| #[trigger]
            dedupe_map(s).dom().contains(k) <==> exists|j: int| 0 <= j < s.len() && key_of(s[j]) == k,
        forall|j: int| 0 <= j < s.len() ==> dedupe_map(s)[key_of(#[trigger] s[j])] == s[j],
    decreases s.len(),
{
    if s.len() > 0 {
        let r = s.drop_last();
        assert forall|j1: int, j2: int|
            0 <= j1 < r.len() && 0 <= j2 < r.len() && j1 != j2 implies key_of(#[trigger] r[j1])
            != key_of(#[trigger] r[j2]) by {
            assert(r[j1] == s[j1] && r[j2] == s[j2]);
        }
        lemma_dedupe_map_of_distinct(r);
        let last = s.last();
        if dedupe_map(r).dom().contains(key_of(last)) {
            let j = choose|j: int| 0 <= j < r.len() && key_of(r[j]) == key_of(last);
            assert(r[j] == s[j]);
            assert(key_of(s[j]) != key_of(s[s.len() - 1]));
        }
        assert forall|k: Seq<char>| #[trigger]
            dedupe_map(s).dom().contains(k) <==> exists|j: int| 0 <= j < s.len() && key_of(s[j]) == k by {
            if dedupe_map(s).dom().contains(k) && k != key_of(last) {
                let j = choose|j: int| 0 <= j < r.len() && key_of(r[j]) == k;
                assert(r[j] == s[j]);
            }
            if exists|j: int| 0 <= j < s.len() && key_of(s[j]) == k {
                let j = choose|j: int| 0 <= j < s.len() && key_of(s[j]) == k;
                if j < s.len() - 1 {
                    assert(r[j] == s[j]);
                }
            }
        }
        assert forall|j: int| 0 <= j < s.len() implies dedupe_map(s)[key_of(#[trigger] s[j])] == s[j] by {
            if j < s.len() - 1 {
                assert(r[j] == s[j]);
                assert(key_of(s[j]) != key_of(s[s.len() - 1]));
            }
        }
    }
}

/// Two sequences in strict menu order with the same elements are the same sequence.
proof fn lemma_sorted_unique(a: Seq<BrowserView>, b: Seq<BrowserView>)
    requires
        forall|i: int, j: int| 0 <= i < j < a.len() ==> menu_precedes(#[trigger] a[i], #[trigger] a[j]),
        forall|i: int, j: int| 0 <= i < j < b.len() ==> menu_precedes(#[trigger] b[i], #[trigger] b[j]),
        forall|x: BrowserView| #![trigger a.contains(x)] #![trigger b.contains(x)]
            a.contains(x) <==> b.contains(x),
    ensures
        a == b,
    decreases a.len(),
{
    if a.len() == 0 {
        if b.len() > 0 {
            assert(b.contains(b[0]));
        }
        assert(a =~= b);
    } else {
        assert(a.contains(a[0]));
        let j0 = choose|j: int| 0 <= j < b.len() && b[j] == a[0];
        assert(b.contains(b[0]));
        let i0 = choose|i: int| 0 <= i < a.len() && a[i] == b[0];
        lemma_menu_precedes_strict(a[0], b[0], a[0]);
        lemma_menu_precedes_strict(b[0], a[0], b[0]);
        if i0 > 0 && j0 > 0 {
            assert(menu_precedes(a[0], a[i0]));
            assert(menu_precedes(b[0], b[j0]));
        }
        assert(a[0] == b[0]);
        let ta = a.drop_first();
        let tb = b.drop_first();
        assert forall|x: BrowserView| #![trigger ta.contains(x)] #![trigger tb.contains(x)]
            ta.contains(x) <==> tb.contains(x) by {
            if ta.contains(x) {
                let i = choose|i: int| 0 <= i < ta.len() && #[trigger] ta[i] == x;
                assert(a[i + 1] == x);
                assert(a.contains(x));
                let j = choose|j: int| 0 <= j < b.len() && #[trigger] b[j] == x;
                assert(menu_precedes(a[0], a[i + 1]));
                lemma_menu_precedes_strict(x, x, x);
                assert(j != 0);
                assert(tb[j - 1] == x);
            }
            if tb.contains(x) {
                let j = choose|j: int| 0 <= j < tb.len() && #[trigger] tb[j] == x;
                assert(b[j + 1] == x);
                assert(b.contains(x));
                let i = choose|i: int| 0 <= i < a.len() && #[trigger] a[i] == x;
                assert(menu_precedes(b[0], b[j + 1]));
                lemma_menu_precedes_strict(x, x, x);
                assert(i != 0);
                assert(ta[i - 1] == x);
            }
        }
        assert forall|i: int, j: int| 0 <= i < j < ta.len() implies menu_precedes(
            #[trigger] ta[i],
            #[trigger] ta[j],
        ) by {
            assert(menu_precedes(a[i + 1], a[j + 1]));
        }
        assert forall|i: int, j: int| 0 <= i < j < tb.len() implies menu_precedes(
            #[trigger] tb[i],
            #[trigger] tb[j],
        ) by {
            assert(menu_precedes(b[i + 1], b[j + 1]));
        }
        lemma_sorted_unique(ta, tb);
        assert(a =~= b) by {
            assert forall|i: int| 0 <= i < a.len() implies a[i] == b[i] by {
                if i > 0 {
                    assert(a[i] == ta[i - 1] && b[i] == tb[i - 1]);
                }
            }
        }
    }
}

/// The deduplication of a list of registrations is determined: any two lists that meet the
/// contract of `dedupe_browsers` for the same input are equal.
pub proof fn lemma_deduplication_unique(inputs: Seq<BrowserView>, a: Seq<BrowserView>, b: Seq<BrowserView>)
    requires
        is_deduplication(inputs, a),
        is_deduplication(inputs, b),
    ensures
        a == b,
{
    let m = dedupe_map(inputs);
    assert forall|x: BrowserView| #![trigger a.contains(x)] #![trigger b.contains(x)]
        a.contains(x) <==> b.contains(x) by {
        if a.contains(x) {
            let i = choose|i: int| 0 <= i < a.len() && #[trigger] a[i] == x;
            assert(m.dom().contains(key_of(a[i])));
            let j = choose|j: int| 0 <= j < b.len() && key_of(b[j]) == key_of(x);
            assert(m.dom().contains(key_of(b[j])));
            assert(b[j] == x);
        }
        if b.contains(x) {
            let j = choose|j: int| 0 <= j < b.len() && #[trigger] b[j] == x;
            assert(m.dom().contains(key_of(b[j])));
            let i = choose|i: int| 0 <= i < a.len() && key_of(a[i]) == key_of(x);
            assert(m.dom().contains(key_of(a[i])));
            assert(a[i] == x);
        }
    }
    lemma_sorted_unique(a, b);
}

/// Deduplicating an already deduplicated list changes nothing.
pub proof fn lemma_dedupe_idempotent(inputs: Seq<BrowserView>, once: Seq<BrowserView>, twice: Seq<BrowserView>)
    requires
        is_deduplication(inputs, once),
        is_deduplication(once, twice),
    ensures
        twice == once,
{
    let m = dedupe_map(inputs);
    lemma_dedupe_map_of_distinct(once);
    assert(dedupe_map(once) =~= m) by {
        assert forall|k: Seq<char>| #[trigger] dedupe_map(once).dom().contains(k) <==> m.dom().contains(k) by {
            if dedupe_map(once).dom().contains(k) {
                let j = choose|j: int| 0 <= j < once.len() && key_of(once[j]) == k;
                assert(m.dom().contains(key_of(once[j])));
            }
            if m.dom().contains(k) {
                let j = choose|j: int| 0 <= j < once.len() && key_of(once[j]) == k;
                assert(exists|j: int| 0 <= j < once.len() && key_of(once[j]) == k);
            }
        }
        assert forall|k: Seq<char>| #[trigger] dedupe_map(once).dom().contains(k) implies dedupe_map(once)[k]
            == m[k] by {
            let j = choose|j: int| 0 <= j < once.len() && key_of(once[j]) == k;
            assert(dedupe_map(once)[key_of(once[j])] == once[j]);
            assert(m.dom().contains(key_of(once[j])));
        }
    }
    lemma_deduplication_unique(once, once, twice);
}

/// No browser is lost and none is made up: the merged registrations have exactly the keys of
/// the registrations that went in.
pub proof fn lemma_dedupe_map_keys(inputs: Seq<BrowserView>)
    ensures
        forall|k: Seq<char>| #[trigger]
            dedupe_map(inputs).dom().contains(k) <==> exists|i: int|
                0 <= i < inputs.len() && key_of(inputs[i]) == k,
    decreases inputs.len(),
{
    if inputs.len() > 0 {
        let r = inputs.drop_last();
        lemma_dedupe_map_keys(r);
        assert forall|k: Seq<char>| #[trigger]
            dedupe_map(inputs).dom().contains(k) <==> exists|i: int|
                0 <= i < inputs.len() && key_of(inputs[i]) == k by {
            if dedupe_map(inputs).dom().contains(k) && k != key_of(inputs.last()) {
                assert(dedupe_map(r).dom().contains(k));
                let i = choose|i: int| 0 <= i < r.len() && key_of(r[i]) == k;
                assert(inputs[i] == r[i]);
            }
            if exists|i: int| 0 <= i < inputs.len() && key_of(inputs[i]) == k {
                let i = choose|i: int| 0 <= i < inputs.len() && key_of(inputs[i]) == k;
                if i < inputs.len() - 1 {
                    assert(inputs[i] == r[i]);
                    assert(dedupe_map(r).dom().contains(k));
                }
            }
        }
    }
}

/// In the deduplicated list, names are in lexicographic order of their lower-cased forms:
/// where the names of an earlier and a later entry first differ, the earlier one has the
/// smaller character, whatever the lengths of the names.
pub proof fn lemma_dedupe_names_first_difference(
    inputs: Seq<BrowserView>,
    out: Seq<BrowserView>,
    j1: int,
    j2: int,
    i: int,
)
    requires
        is_deduplication(inputs, out),
        0 <= j1 < j2 < out.len(),
        0 <= i < lower(out[j1].display_name).len(),
        i < lower(out[j2].display_name).len(),
        lower(out[j1].display_name).take(i) == lower(out[j2].display_name).take(i),
        lower(out[j1].display_name)[i] != lower(out[j2].display_name)[i],
    ensures
        lower(out[j1].display_name)[i] < lower(out[j2].display_name)[i],
{
    let n1 = lower(out[j1].display_name);
    let n2 = lower(out[j2].display_name);
    assert(menu_precedes(out[j1], out[j2]));
    assert(n1 != n2);
    if n2[i] < n1[i] {
        lemma_seq_lt_first_difference(n2, n1, i);
        lemma_seq_lt_asymmetric(n1, n2);
    }
}

/// In the deduplicated list, a name that is a proper prefix of another (ASCII case ignored)
/// never comes after it.
pub proof fn lemma_dedupe_names_prefix_first(inputs: Seq<BrowserView>, out: Seq<BrowserView>, j1: int, j2: int)
    requires
        is_deduplication(inputs, out),
        0 <= j1 < j2 < out.len(),
    ensures
        !(lower(out[j2].display_name).len() < lower(out[j1].display_name).len() && lower(
            out[j1].display_name,
        ).take(lower(out[j2].display_name).len() as int) == lower(out[j2].display_name)),
{
    let n1 = lower(out[j1].display_name);
    let n2 = lower(out[j2].display_name);
    assert(menu_precedes(out[j1], out[j2]));
    if n2.len() < n1.len() && n1.take(n2.len() as int) == n2 {
        lemma_seq_lt_proper_prefix(n2, n1);
        lemma_seq_lt_asymmetric(n1, n2);
    }
}

/// A browser is the default one when any of its URL protocol ids, at whatever position,
/// equals the default protocol id up to ASCII case and surrounding whitespace; so is it when
/// its registry id does. It is not when neither holds, nor without a default id.
pub proof fn lemma_default_match_any_protocol_id(b: BrowserView, d: Seq<char>, i: int)
    ensures
        0 <= i < b.url_protocol_ids.len() && eq_ignore_case(trim(b.url_protocol_ids[i]), trim(d))
            ==> matches_default_protocol(b, Some(d)),
        eq_ignore_case(trim(b.registry_id), trim(d)) ==> matches_default_protocol(b, Some(d)),
        matches_default_protocol(b, Some(d)) ==> eq_ignore_case(trim(b.registry_id), trim(d))
            || exists|k: int|
            0 <= k < b.url_protocol_ids.len() && eq_ignore_case(
                trim(#[trigger] b.url_protocol_ids[k]),
                trim(d),
            ),
        !matches_default_protocol(b, None),
        menu_label(b, Some(d)) == (if matches_default_protocol(b, Some(d)) {
            b.display_name + seq![' ', '\u{2713}']
        } else {
            b.display_name
        }),
{
}

/// The merged registration of a key takes its display name, registry id and scope from the
/// first registration with that key.
pub proof fn lemma_dedupe_map_first(inputs: Seq<BrowserView>, k: Seq<char>) -> (first: int)
    requires
        dedupe_map(inputs).dom().contains(k),
    ensures
        0 <= first < inputs.len(),
        key_of(inputs[first]) == k,
        forall|i: int| 0 <= i < first ==> key_of(#[trigger] inputs[i]) != k,
        dedupe_map(inputs)[k].display_name == inputs[first].display_name,
        dedupe_map(inputs)[k].registry_id == inputs[first].registry_id,
        dedupe_map(inputs)[k].scope == inputs[first].scope,
    decreases inputs.len(),
{
    let r = inputs.drop_last();
    lemma_dedupe_map_keys(r);
    if dedupe_map(r).dom().contains(k) {
        let f = lemma_dedupe_map_first(r, k);
        assert forall|i: int| 0 <= i < f implies key_of(#[trigger] inputs[i]) != k by {
            assert(inputs[i] == r[i]);
        }
        assert(inputs[f] == r[f]);
        f
    } else {
        assert forall|i: int| 0 <= i < inputs.len() - 1 implies key_of(#[trigger] inputs[i]) != k by {
            assert(inputs[i] == r[i]);
        }
        (inputs.len() - 1) as int
    }
}

/// The merged registration of a key has the executable path of the first registration with
/// that key that has one (the source given back), and none if none has.
pub proof fn lemma_dedupe_map_executable(inputs: Seq<BrowserView>, k: Seq<char>) -> (source: Option<int>)
    requires
        dedupe_map(inputs).dom().contains(k),
    ensures
        match source {
            None => dedupe_map(inputs)[k].executable_path is None && forall|i: int|
                0 <= i < inputs.len() && key_of(#[trigger] inputs[i]) == k ==> inputs[i].executable_path
                    is None,
            Some(i) => 0 <= i < inputs.len() && key_of(inputs[i]) == k && inputs[i].executable_path is Some
                && dedupe_map(inputs)[k].executable_path == inputs[i].executable_path && forall|h: int|
                0 <= h < i && key_of(#[trigger] inputs[h]) == k ==> inputs[h].executable_path is None,
        },
    decreases inputs.len(),
{
    let r = inputs.drop_last();
    let last = inputs.last();
    let n = inputs.len() - 1;
    assert forall|i: int| 0 <= i < n implies #[trigger] inputs[i] == r[i] by {}
    if dedupe_map(r).dom().contains(k) {
        let sub = lemma_dedupe_map_executable(r, k);
        if key_of(last) == k {
            match sub {
                Some(i) => Some(i),
                None => if last.executable_path is Some {
                    Some(n)
                } else {
                    None
                },
            }
        } else {
            sub
        }
    } else {
        lemma_dedupe_map_keys(r);
        assert forall|i: int| 0 <= i < n implies key_of(#[trigger] inputs[i]) != k by {
            assert(key_of(r[i]) != k);
        }
        if last.executable_path is Some {
            Some(n)
        } else {
            None
        }
    }
}

/// The merged registration of a key has the icon path of the first registration with that
/// key that has one (the source given back), and none if none has.
pub proof fn lemma_dedupe_map_icon(inputs: Seq<BrowserView>, k: Seq<char>) -> (source: Option<int>)
    requires
        dedupe_map(inputs).dom().contains(k),
    ensures
        match source {
            None => dedupe_map(inputs)[k].icon_path is None && forall|i: int|
                0 <= i < inputs.len() && key_of(#[trigger] inputs[i]) == k ==> inputs[i].icon_path
                    is None,
            Some(i) => 0 <= i < inputs.len() && key_of(inputs[i]) == k && inputs[i].icon_path is Some
                && dedupe_map(inputs)[k].icon_path == inputs[i].icon_path && forall|h: int|
                0 <= h < i && key_of(#[trigger] inputs[h]) == k ==> inputs[h].icon_path is None,
        },
    decreases inputs.len(),
{
    let r = inputs.drop_last();
    let last = inputs.last();
    let n = inputs.len() - 1;
    assert forall|i: int| 0 <= i < n implies #[trigger] inputs[i] == r[i] by {}
    if dedupe_map(r).dom().contains(k) {
        let sub = lemma_dedupe_map_icon(r, k);
        if key_of(last) == k {
            match sub {
                Some(i) => Some(i),
                None => if last.icon_path is Some {
                    Some(n)
                } else {
                    None
                },
            }
        } else {
            sub
        }
    } else {
        lemma_dedupe_map_keys(r);
        assert forall|i: int| 0 <= i < n implies key_of(#[trigger] inputs[i]) != k by {
            assert(key_of(r[i]) != k);
        }
        if last.icon_path is Some {
            Some(n)
        } else {
            None
        }
    }
}

/// The merged registration of a key holds, up to ASCII case, every URL protocol id of every
/// registration with that key.
pub proof fn lemma_dedupe_map_protocol_ids(inputs: Seq<BrowserView>, k: Seq<char>)
    requires
        dedupe_map(inputs).dom().contains(k),
    ensures
        forall|i: int, q: int|
            0 <= i < inputs.len() && key_of(#[trigger] inputs[i]) == k && 0 <= q
                < inputs[i].url_protocol_ids.len() ==> contains_ignore_case(
                dedupe_map(inputs)[k].url_protocol_ids,
                #[trigger] inputs[i].url_protocol_ids[q],
            ),
    decreases inputs.len(),
{
    let r = inputs.drop_last();
    let last = inputs.last();
    let n = inputs.len() - 1;
    let m = dedupe_map(inputs);
    assert forall|i: int| 0 <= i < n implies #[trigger] inputs[i] == r[i] by {}
    if dedupe_map(r).dom().contains(k) {
        lemma_dedupe_map_protocol_ids(r, k);
        let old_v = dedupe_map(r)[k];
        if key_of(last) == k {
            lemma_merge_ids_grows(old_v.url_protocol_ids, last.url_protocol_ids);
            assert forall|i: int, q: int|
                0 <= i < inputs.len() && key_of(#[trigger] inputs[i]) == k && 0 <= q
                    < inputs[i].url_protocol_ids.len() implies contains_ignore_case(
                m[k].url_protocol_ids,
                #[trigger] inputs[i].url_protocol_ids[q],
            ) by {
                if i < n {
                    assert(key_of(r[i]) == k && r[i].url_protocol_ids[q] == inputs[i].url_protocol_ids[q]);
                    assert(contains_ignore_case(old_v.url_protocol_ids, inputs[i].url_protocol_ids[q]));
                    let j = choose|j: int|
                        0 <= j < old_v.url_protocol_ids.len() && eq_ignore_case(
                            #[trigger] old_v.url_protocol_ids[j],
                            inputs[i].url_protocol_ids[q],
                        );
                    assert(m[k].url_protocol_ids[j] == old_v.url_protocol_ids[j]);
                }
            }
        } else {
            assert forall|i: int, q: int|
                0 <= i < inputs.len() && key_of(#[trigger] inputs[i]) == k && 0 <= q
                    < inputs[i].url_protocol_ids.len() implies contains_ignore_case(
                m[k].url_protocol_ids,
                #[trigger] inputs[i].url_protocol_ids[q],
            ) by {
                assert(i < n);
                assert(key_of(r[i]) == k && r[i].url_protocol_ids[q] == inputs[i].url_protocol_ids[q]);
            }
        }
    } else {
        lemma_dedupe_map_keys(r);
        assert forall|i: int, q: int|
            0 <= i < inputs.len() && key_of(#[trigger] inputs[i]) == k && 0 <= q
                < inputs[i].url_protocol_ids.len() implies contains_ignore_case(
            m[k].url_protocol_ids,
            #[trigger] inputs[i].url_protocol_ids[q],
        ) by {
            if i < n {
                assert(key_of(r[i]) == k);
            }
            assert(eq_ignore_case(inputs[i].url_protocol_ids[q], inputs[i].url_protocol_ids[q]));
        }
    }
}

/// Each browser in the deduplicated list is, up to merging, the first registration of its
/// key: it keeps that registration's display name, registry id and scope.
pub proof fn lemma_dedupe_keeps_first_registration(inputs: Seq<BrowserView>, out: Seq<BrowserView>, j: int) -> (first: int)
    requires
        is_deduplication(inputs, out),
        0 <= j < out.len(),
    ensures
        0 <= first < inputs.len(),
        key_of(inputs[first]) == key_of(out[j]),
        forall|i: int| 0 <= i < first ==> key_of(#[trigger] inputs[i]) != key_of(out[j]),
        out[j].display_name == inputs[first].display_name,
        out[j].registry_id == inputs[first].registry_id,
        out[j].scope == inputs[first].scope,
{
    assert(dedupe_map(inputs).dom().contains(key_of(out[j])));
    lemma_dedupe_map_first(inputs, key_of(out[j]))
}

/// Each browser in the deduplicated list holds, up to ASCII case, every URL protocol id of
/// every registration with its key, and has the executable path of the first of them that has
/// one (none if none has).
pub proof fn lemma_dedupe_merges_registrations(inputs: Seq<BrowserView>, out: Seq<BrowserView>, j: int)
    requires
        is_deduplication(inputs, out),
        0 <= j < out.len(),
    ensures
        forall|i: int, q: int|
            0 <= i < inputs.len() && key_of(#[trigger] inputs[i]) == key_of(out[j]) && 0 <= q
                < inputs[i].url_protocol_ids.len() ==> contains_ignore_case(
                out[j].url_protocol_ids,
                #[trigger] inputs[i].url_protocol_ids[q],
            ),
        (forall|i: int|
            0 <= i < inputs.len() && key_of(#[trigger] inputs[i]) == key_of(out[j])
                ==> inputs[i].executable_path is None) ==> out[j].executable_path is None,
        (exists|i: int|
            0 <= i < inputs.len() && key_of(#[trigger] inputs[i]) == key_of(out[j])
                && inputs[i].executable_path is Some) ==> exists|i: int|
            0 <= i < inputs.len() && key_of(#[trigger] inputs[i]) == key_of(out[j])
                && out[j].executable_path == inputs[i].executable_path && inputs[i].executable_path
                is Some && forall|h: int|
                0 <= h < i && key_of(#[trigger] inputs[h]) == key_of(out[j])
                    ==> inputs[h].executable_path is None,
{
    let k = key_of(out[j]);
    assert(dedupe_map(inputs).dom().contains(k));
    lemma_dedupe_map_protocol_ids(inputs, k);
    let src = lemma_dedupe_map_executable(inputs, k);
    if let Some(i) = src {
        assert(key_of(inputs[i]) == k);
    }
}

} // verus!
