//! Character-level text handling: whitespace trimming, ASCII case folding,
//! searching, and the conversions between `str`/`String` and `Vec<char>`.
//!
//! Every string is modelled by its sequence of Unicode scalar values (`Seq<char>`).
use vstd::prelude::*;

verus! {

broadcast use vstd::string::group_string_axioms;

/// Appending one character to a `String` extends its character sequence by that character
/// (std's `String::push`).
pub assume_specification[ String::push ](string: &mut String, ch: char)
    ensures
        final(string)@ == old(string)@.push(ch),
;

/// A class of characters that the searching and stripping functions look for.
#[derive(Clone, Copy, Debug, PartialEq, Eq)]
pub enum CharClass {
    /// The characters of Unicode's `White_Space` property (what `char::is_whitespace` accepts).
    Whitespace,
    /// Exactly the given character.
    Is(char),
}

/// Unicode `White_Space`, the set that `char::is_whitespace` tests for.
pub open spec fn is_whitespace(c: char) -> bool {
    ||| ('\u{9}' <= c && c <= '\u{d}')
    ||| c == ' '
    ||| c == '\u{85}'
    ||| c == '\u{a0}'
    ||| c == '\u{1680}'
    ||| ('\u{2000}' <= c && c <= '\u{200a}')
    ||| c == '\u{2028}'
    ||| c == '\u{2029}'
    ||| c == '\u{202f}'
    ||| c == '\u{205f}'
    ||| c == '\u{3000}'
}

pub open spec fn in_class(class: CharClass, c: char) -> bool {
    match class {
        CharClass::Whitespace => is_whitespace(c),
        CharClass::Is(x) => c == x,
    }
}

/// `s` without its leading characters of `class`.
pub open spec fn strip_start(s: Seq<char>, class: CharClass) -> Seq<char>
    decreases s.len(),
{
    if s.len() > 0 && in_class(class, s[0]) {
        strip_start(s.drop_first(), class)
    } else {
        s
    }
}

/// `s` without its trailing characters of `class`.
pub open spec fn strip_end(s: Seq<char>, class: CharClass) -> Seq<char>
    decreases s.len(),
{
    if s.len() > 0 && in_class(class, s.last()) {
        strip_end(s.drop_last(), class)
    } else {
        s
    }
}

/// `s` without leading and trailing characters of `class` (`str::trim_matches`).
pub open spec fn strip(s: Seq<char>, class: CharClass) -> Seq<char> {
    strip_end(strip_start(s, class), class)
}

/// `str::trim`: `s` without leading and trailing whitespace.
pub open spec fn trim(s: Seq<char>) -> Seq<char> {
    strip(s, CharClass::Whitespace)
}

/// The index of the first character of `class` in `s`, if there is one.
pub open spec fn find_first(s: Seq<char>, class: CharClass) -> Option<int>
    decreases s.len(),
{
    if s.len() == 0 {
        None
    } else if in_class(class, s[0]) {
        Some(0)
    } else {
        match find_first(s.drop_first(), class) {
            Some(i) => Some(i + 1),
            None => None,
        }
    }
}

/// The index of the last character of `class` in `s`, if there is one.
pub open spec fn find_last(s: Seq<char>, class: CharClass) -> Option<int>
    decreases s.len(),
{
    if s.len() == 0 {
        None
    } else if in_class(class, s.last()) {
        Some(s.len() - 1)
    } else {
        find_last(s.drop_last(), class)
    }
}

/// ASCII lower-casing of one character (`char::to_ascii_lowercase`).
pub open spec fn to_lower(c: char) -> char {
    if 'A' <= c && c <= 'Z' {
        ((c as u8) + 32) as char
    } else {
        c
    }
}

/// ASCII lower-casing of every character (`str::to_ascii_lowercase`).
pub open spec fn lower(s: Seq<char>) -> Seq<char> {
    Seq::new(s.len(), |i: int| to_lower(s[i]))
}

/// `str::eq_ignore_ascii_case`: equal once ASCII letters are lower-cased.
pub open spec fn eq_ignore_case(a: Seq<char>, b: Seq<char>) -> bool {
    lower(a) == lower(b)
}

/// Strict lexicographic order on character sequences, comparing code points
/// (the order of `str`'s `Ord`, since UTF-8 preserves code point order).
pub open spec fn seq_lt(a: Seq<char>, b: Seq<char>) -> bool
    decreases a.len(),
{
    if a.len() == 0 {
        b.len() > 0
    } else if b.len() == 0 {
        false
    } else if a[0] == b[0] {
        seq_lt(a.drop_first(), b.drop_first())
    } else {
        a[0] < b[0]
    }
}

// ---------------------------------------------------------------------------------------------
// Lemmas
// ---------------------------------------------------------------------------------------------

/// What `find_first` gives back: the first index of a character of the class, or none at all.
pub proof fn lemma_find_first(s: Seq<char>, class: CharClass)
    ensures
        match find_first(s, class) {
            Some(i) => 0 <= i < s.len() && in_class(class, s[i]) && forall|k: int|
                0 <= k < i ==> !in_class(class, #[trigger] s[k]),
            None => forall|k: int| 0 <= k < s.len() ==> !in_class(class, #[trigger] s[k]),
        },
    decreases s.len(),
{
    if s.len() > 0 && !in_class(class, s[0]) {
        lemma_find_first(s.drop_first(), class);
        assert forall|k: int| 1 <= k < s.len() implies s[k] == s.drop_first()[k - 1] by {}
        match find_first(s.drop_first(), class) {
            Some(i) => {
                assert forall|k: int| 0 <= k < i + 1 implies !in_class(class, #[trigger] s[k]) by {
                    if k > 0 {
                        assert(s[k] == s.drop_first()[k - 1]);
                    }
                }
            },
            None => {
                assert forall|k: int| 0 <= k < s.len() implies !in_class(class, #[trigger] s[k]) by {
                    if k > 0 {
                        assert(s[k] == s.drop_first()[k - 1]);
                    }
                }
            },
        }
    }
}

/// A first occurrence determines `find_first`.
pub proof fn lemma_find_first_unique(s: Seq<char>, class: CharClass, i: int)
    requires
        0 <= i < s.len(),
        in_class(class, s[i]),
        forall|k: int| 0 <= k < i ==> !in_class(class, #[trigger] s[k]),
    ensures
        find_first(s, class) == Some(i),
{
    lemma_find_first(s, class);
}

/// No occurrence determines `find_first`.
pub proof fn lemma_find_first_none(s: Seq<char>, class: CharClass)
    requires
        forall|k: int| 0 <= k < s.len() ==> !in_class(class, #[trigger] s[k]),
    ensures
        find_first(s, class) is None,
{
    lemma_find_first(s, class);
}

/// What `find_last` gives back: the last index of a character of the class, or none at all.
pub proof fn lemma_find_last(s: Seq<char>, class: CharClass)
    ensures
        match find_last(s, class) {
            Some(i) => 0 <= i < s.len() && in_class(class, s[i]) && forall|k: int|
                i < k < s.len() ==> !in_class(class, #[trigger] s[k]),
            None => forall|k: int| 0 <= k < s.len() ==> !in_class(class, #[trigger] s[k]),
        },
    decreases s.len(),
{
    if s.len() > 0 && !in_class(class, s.last()) {
        lemma_find_last(s.drop_last(), class);
        assert forall|k: int| 0 <= k < s.len() - 1 implies s[k] == s.drop_last()[k] by {}
    }
}

/// Stripping from the front only ever removes a prefix of characters of the class.
pub proof fn lemma_strip_start_from(s: Seq<char>, class: CharClass, i: int)
    requires
        0 <= i <= s.len(),
        forall|k: int| 0 <= k < i ==> in_class(class, #[trigger] s[k]),
    ensures
        strip_start(s, class) == strip_start(s.subrange(i, s.len() as int), class),
    decreases i,
{
    if i > 0 {
        assert(s.drop_first().subrange(i - 1, s.drop_first().len() as int) =~= s.subrange(
            i,
            s.len() as int,
        ));
        assert forall|k: int| 0 <= k < i - 1 implies in_class(
            class,
            #[trigger] s.drop_first()[k],
        ) by {
            assert(s.drop_first()[k] == s[k + 1]);
        }
        lemma_strip_start_from(s.drop_first(), class, i - 1);
    } else {
        assert(s.subrange(0, s.len() as int) =~= s);
    }
}

/// Stripping from the back only ever removes a suffix of characters of the class.
pub proof fn lemma_strip_end_to(s: Seq<char>, class: CharClass, j: int)
    requires
        0 <= j <= s.len(),
        forall|k: int| j <= k < s.len() ==> in_class(class, #[trigger] s[k]),
    ensures
        strip_end(s, class) == strip_end(s.subrange(0, j), class),
    decreases s.len() - j,
{
    if j < s.len() {
        assert(s.drop_last().subrange(0, j) =~= s.subrange(0, j));
        assert forall|k: int| j <= k < s.len() - 1 implies in_class(
            class,
            #[trigger] s.drop_last()[k],
        ) by {
            assert(s.drop_last()[k] == s[k]);
        }
        lemma_strip_end_to(s.drop_last(), class, j);
    } else {
        assert(s.subrange(0, j) =~= s);
    }
}

/// What is left after stripping from the front does not start with a character of the class.
pub proof fn lemma_strip_start_first(s: Seq<char>, class: CharClass)
    ensures
        strip_start(s, class).len() > 0 ==> !in_class(class, strip_start(s, class)[0]),
    decreases s.len(),
{
    if s.len() > 0 && in_class(class, s[0]) {
        lemma_strip_start_first(s.drop_first(), class);
    }
}

/// Stripping from the back leaves a prefix that does not end with a character of the class.
pub proof fn lemma_strip_end_prefix(s: Seq<char>, class: CharClass)
    ensures
        strip_end(s, class).len() <= s.len(),
        forall|i: int| 0 <= i < strip_end(s, class).len() ==> #[trigger] strip_end(s, class)[i] == s[i],
        strip_end(s, class).len() > 0 ==> !in_class(class, strip_end(s, class).last()),
    decreases s.len(),
{
    if s.len() > 0 && in_class(class, s.last()) {
        lemma_strip_end_prefix(s.drop_last(), class);
    }
}

/// What stripping leaves is a window of the sequence: it starts at some index and runs on
/// for its own length.
pub proof fn lemma_strip_window(s: Seq<char>, class: CharClass) -> (start: int)
    ensures
        0 <= start,
        start + strip(s, class).len() <= s.len(),
        strip(s, class) == s.subrange(start, start + strip(s, class).len()),
        strip(s, class).len() > 0 ==> !in_class(class, strip(s, class)[0]) && !in_class(
            class,
            strip(s, class).last(),
        ),
{
    let i = lemma_strip_start_suffix(s, class);
    let f = strip_start(s, class);
    lemma_strip_start_first(s, class);
    lemma_strip_end_prefix(f, class);
    let t = strip(s, class);
    assert(t =~= s.subrange(i, i + t.len())) by {
        assert forall|k: int| 0 <= k < t.len() implies t[k] == s.subrange(i, i + t.len())[k] by {
            assert(t[k] == f[k]);
            assert(f[k] == s[i + k]);
        }
    }
    if t.len() > 0 {
        assert(t[0] == f[0]);
    }
    i
}

/// Stripping from the front leaves a suffix of the sequence.
proof fn lemma_strip_start_suffix(s: Seq<char>, class: CharClass) -> (start: int)
    ensures
        0 <= start <= s.len(),
        strip_start(s, class) == s.subrange(start, s.len() as int),
    decreases s.len(),
{
    if s.len() > 0 && in_class(class, s[0]) {
        let j = lemma_strip_start_suffix(s.drop_first(), class);
        assert(s.drop_first().subrange(j, s.drop_first().len() as int) =~= s.subrange(
            j + 1,
            s.len() as int,
        ));
        j + 1
    } else {
        assert(s.subrange(0, s.len() as int) =~= s);
        0
    }
}

/// Stripping twice strips no more than once.
pub proof fn lemma_strip_idempotent(s: Seq<char>, class: CharClass)
    ensures
        strip(strip(s, class), class) == strip(s, class),
{
    let f = strip_start(s, class);
    let t = strip_end(f, class);
    lemma_strip_start_first(s, class);
    lemma_strip_end_prefix(f, class);
    if t.len() > 0 {
        assert(t[0] == f[0]);
    }
    assert(strip_start(t, class) == t);
    assert(strip_end(t, class) == t);
}

/// The order is irreflexive and asymmetric.
pub proof fn lemma_seq_lt_asymmetric(a: Seq<char>, b: Seq<char>)
    ensures
        !(seq_lt(a, b) && seq_lt(b, a)),
        !seq_lt(a, a),
    decreases a.len(),
{
    if a.len() > 0 && b.len() > 0 && a[0] == b[0] {
        lemma_seq_lt_asymmetric(a.drop_first(), b.drop_first());
    }
    if a.len() > 0 {
        lemma_seq_lt_asymmetric(a.drop_first(), a.drop_first());
    }
}

/// A proper prefix comes first in lexicographic order.
pub proof fn lemma_seq_lt_proper_prefix(a: Seq<char>, b: Seq<char>)
    requires
        a.len() < b.len(),
        b.take(a.len() as int) == a,
    ensures
        seq_lt(a, b),
    decreases a.len(),
{
    if a.len() > 0 {
        assert(a[0] == b.take(a.len() as int)[0]);
        assert(b.drop_first().take(a.drop_first().len() as int) =~= a.drop_first()) by {
            assert forall|k: int| 0 <= k < a.len() - 1 implies b.drop_first()[k] == a.drop_first()[k] by {
                assert(b.take(a.len() as int)[k + 1] == b[k + 1]);
            }
        }
        lemma_seq_lt_proper_prefix(a.drop_first(), b.drop_first());
    }
}

/// At the first position where two sequences differ, the smaller character decides the
/// lexicographic order, whatever the lengths.
pub proof fn lemma_seq_lt_first_difference(a: Seq<char>, b: Seq<char>, i: int)
    requires
        0 <= i < a.len(),
        i < b.len(),
        a.take(i) == b.take(i),
        a[i] < b[i],
    ensures
        seq_lt(a, b),
    decreases i,
{
    if i > 0 {
        assert(a[0] == a.take(i)[0] && b[0] == b.take(i)[0]);
        assert(a.drop_first().take(i - 1) =~= b.drop_first().take(i - 1)) by {
            assert forall|k: int| 0 <= k < i - 1 implies a.drop_first()[k] == b.drop_first()[k] by {
                assert(a.take(i)[k + 1] == a[k + 1]);
                assert(b.take(i)[k + 1] == b[k + 1]);
                assert(a.take(i)[k + 1] == b.take(i)[k + 1]);
            }
        }
        lemma_seq_lt_first_difference(a.drop_first(), b.drop_first(), i - 1);
    }
}

/// The order is transitive.
pub proof fn lemma_seq_lt_transitive(a: Seq<char>, b: Seq<char>, c: Seq<char>)
    requires
        seq_lt(a, b),
        seq_lt(b, c),
    ensures
        seq_lt(a, c),
    decreases a.len(),
{
    if a.len() > 0 && b.len() > 0 && c.len() > 0 && a[0] == b[0] && b[0] == c[0] {
        lemma_seq_lt_transitive(a.drop_first(), b.drop_first(), c.drop_first());
    }
}

/// The order is total on distinct sequences.
pub proof fn lemma_seq_lt_total(a: Seq<char>, b: Seq<char>)
    requires
        a != b,
    ensures
        seq_lt(a, b) || seq_lt(b, a),
    decreases a.len(),
{
    if a.len() > 0 && b.len() > 0 {
        if a[0] == b[0] {
            if a.drop_first() == b.drop_first() {
                assert(a =~= seq![a[0]] + a.drop_first());
                assert(b =~= seq![b[0]] + b.drop_first());
            }
            lemma_seq_lt_total(a.drop_first(), b.drop_first());
        }
    } else if a.len() == 0 && b.len() == 0 {
        assert(a =~= b);
    }
}

/// Case-insensitive equality, stated character by character.
pub proof fn lemma_eq_ignore_case_pointwise(a: Seq<char>, b: Seq<char>)
    ensures
        eq_ignore_case(a, b) <==> (a.len() == b.len() && forall|i: int|
            0 <= i < a.len() ==> to_lower(#[trigger] a[i]) == to_lower(b[i])),
{
    if a.len() == b.len() && forall|i: int| 0 <= i < a.len() ==> to_lower(#[trigger] a[i]) == to_lower(b[i]) {
        assert(lower(a) =~= lower(b));
    }
    if eq_ignore_case(a, b) {
        assert(lower(a).len() == a.len() && lower(b).len() == b.len());
        assert forall|i: int| 0 <= i < a.len() implies to_lower(#[trigger] a[i]) == to_lower(b[i]) by {
            assert(lower(a)[i] == lower(b)[i]);
        }
    }
}

// ---------------------------------------------------------------------------------------------
// Executable functions
// ---------------------------------------------------------------------------------------------

/// The characters of `s`.
pub fn chars_of(s: &str) -> (v: Vec<char>)
    ensures
        v@ == s@,
{
    let mut v: Vec<char> = Vec::new();
    for c in it: s.chars()
        invariant
            v@ == it.seq().take(it.index() as int),
    {
        v.push(c);
    }
    v
}

/// A `String` made of the characters `v`.
pub fn string_of(v: &Vec<char>) -> (s: String)
    ensures
        s@ == v@,
{
    let mut s = String::new();
    let mut i: usize = 0;
    while i < v.len()
        invariant
            i <= v.len(),
            s@ == v@.take(i as int),
        decreases v.len() - i,
    {
        s.push(v[i]);
        assert(v@.take(i + 1) =~= v@.take(i as int).push(v@[i as int]));
        i = i + 1;
    }
    assert(v@.take(v.len() as int) =~= v@);
    s
}

/// The characters `v[from..to]`.
pub fn sub_chars(v: &Vec<char>, from: usize, to: usize) -> (r: Vec<char>)
    requires
        from <= to <= v.len(),
    ensures
        r@ == v@.subrange(from as int, to as int),
{
    let mut r: Vec<char> = Vec::new();
    let mut i: usize = from;
    while i < to
        invariant
            from <= i <= to <= v.len(),
            r@ == v@.subrange(from as int, i as int),
        decreases to - i,
    {
        r.push(v[i]);
        assert(v@.subrange(from as int, i + 1) =~= v@.subrange(from as int, i as int).push(
            v@[i as int],
        ));
        i = i + 1;
    }
    r
}

/// `char::is_whitespace`.
pub fn char_is_whitespace(c: char) -> (b: bool)
    ensures
        b == is_whitespace(c),
{
    ('\u{9}' <= c && c <= '\u{d}') || c == ' ' || c == '\u{85}' || c == '\u{a0}' || c == '\u{1680}'
        || ('\u{2000}' <= c && c <= '\u{200a}') || c == '\u{2028}' || c == '\u{2029}' || c
        == '\u{202f}' || c == '\u{205f}' || c == '\u{3000}'
}

/// Whether `c` belongs to `class`.
pub fn char_in_class(class: CharClass, c: char) -> (b: bool)
    ensures
        b == in_class(class, c),
{
    match class {
        CharClass::Whitespace => char_is_whitespace(c),
        CharClass::Is(x) => c == x,
    }
}

/// `char::to_ascii_lowercase`.
pub fn char_to_lower(c: char) -> (r: char)
    ensures
        r == to_lower(c),
{
    if 'A' <= c && c <= 'Z' {
        ((c as u8) + 32) as char
    } else {
        c
    }
}

/// `v` without leading and trailing characters of `class`.
pub fn strip_chars(v: &Vec<char>, class: CharClass) -> (r: Vec<char>)
    ensures
        r@ == strip(v@, class),
{
    let n = v.len();
    let mut i: usize = 0;
    while i < n && char_in_class(class, v[i])
        invariant
            i <= n == v.len(),
            forall|k: int| 0 <= k < i ==> in_class(class, #[trigger] v@[k]),
        decreases n - i,
    {
        i = i + 1;
    }
    proof {
        lemma_strip_start_from(v@, class, i as int);
    }
    let ghost rest = v@.subrange(i as int, n as int);
    assert(strip_start(rest, class) == rest);
    let mut j: usize = n;
    while j > i && char_in_class(class, v[j - 1])
        invariant
            i <= j <= n == v.len(),
            rest == v@.subrange(i as int, n as int),
            forall|k: int| j <= k < n ==> in_class(class, #[trigger] v@[k]),
        decreases j,
    {
        j = j - 1;
    }
    proof {
        assert forall|k: int| j - i <= k < rest.len() implies in_class(class, #[trigger] rest[k]) by {
            assert(rest[k] == v@[k + i]);
        }
        lemma_strip_end_to(rest, class, j - i);
        assert(rest.subrange(0, j - i) =~= v@.subrange(i as int, j as int));
    }
    sub_chars(v, i, j)
}

/// `str::trim`, on characters.
pub fn trim_chars(v: &Vec<char>) -> (r: Vec<char>)
    ensures
        r@ == trim(v@),
{
    strip_chars(v, CharClass::Whitespace)
}

/// `str::trim` followed by `to_string`.
pub fn trim_str(s: &str) -> (r: String)
    ensures
        r@ == trim(s@),
{
    let v = chars_of(s);
    let t = trim_chars(&v);
    string_of(&t)
}

/// ASCII lower-casing of every character.
pub fn lower_chars(v: &Vec<char>) -> (r: Vec<char>)
    ensures
        r@ == lower(v@),
{
    let mut r: Vec<char> = Vec::new();
    let mut i: usize = 0;
    while i < v.len()
        invariant
            i <= v.len(),
            r@.len() == i,
            forall|k: int| 0 <= k < i ==> #[trigger] r@[k] == to_lower(v@[k]),
        decreases v.len() - i,
    {
        let c = char_to_lower(v[i]);
        r.push(c);
        i = i + 1;
    }
    assert(r@ =~= lower(v@));
    r
}

/// `str::eq_ignore_ascii_case`, on characters.
pub fn chars_eq_ignore_case(a: &Vec<char>, b: &Vec<char>) -> (r: bool)
    ensures
        r == eq_ignore_case(a@, b@),
{
    proof {
        lemma_eq_ignore_case_pointwise(a@, b@);
    }
    if a.len() != b.len() {
        return false;
    }
    let mut i: usize = 0;
    while i < a.len()
        invariant
            i <= a.len() == b.len(),
            forall|k: int| 0 <= k < i ==> to_lower(#[trigger] a@[k]) == to_lower(b@[k]),
        decreases a.len() - i,
    {
        if char_to_lower(a[i]) != char_to_lower(b[i]) {
            proof {
                lemma_eq_ignore_case_pointwise(a@, b@);
            }
            return false;
        }
        i = i + 1;
    }
    true
}

/// `str::eq_ignore_ascii_case`.
pub fn str_eq_ignore_case(a: &str, b: &str) -> (r: bool)
    ensures
        r == eq_ignore_case(a@, b@),
{
    let x = chars_of(a);
    let y = chars_of(b);
    chars_eq_ignore_case(&x, &y)
}

/// The index of the first character of `class` in `v` (`str::find`, counted in characters).
pub fn find_first_in(v: &Vec<char>, class: CharClass) -> (r: Option<usize>)
    ensures
        match r {
            Some(i) => i < v@.len() && find_first(v@, class) == Some(i as int),
            None => find_first(v@, class) is None,
        },
{
    let mut i: usize = 0;
    while i < v.len()
        invariant
            i <= v.len(),
            forall|k: int| 0 <= k < i ==> !in_class(class, #[trigger] v@[k]),
        decreases v.len() - i,
    {
        if char_in_class(class, v[i]) {
            proof {
                lemma_find_first_unique(v@, class, i as int);
            }
            return Some(i);
        }
        i = i + 1;
    }
    proof {
        lemma_find_first_none(v@, class);
    }
    None
}

/// The index of the last character of `class` in `v` (`str::rfind`, counted in characters).
pub fn find_last_in(v: &Vec<char>, class: CharClass) -> (r: Option<usize>)
    ensures
        match r {
            Some(i) => i < v@.len() && find_last(v@, class) == Some(i as int),
            None => find_last(v@, class) is None,
        },
{
    let mut j: usize = v.len();
    proof {
        lemma_find_last(v@, class);
    }
    while j > 0
        invariant
            j <= v.len(),
            forall|k: int| j <= k < v.len() ==> !in_class(class, #[trigger] v@[k]),
            match find_last(v@, class) {
                Some(i) => 0 <= i < v@.len() && in_class(class, v@[i]) && forall|k: int|
                    i < k < v@.len() ==> !in_class(class, #[trigger] v@[k]),
                None => forall|k: int| 0 <= k < v@.len() ==> !in_class(class, #[trigger] v@[k]),
            },
        decreases j,
    {
        if char_in_class(class, v[j - 1]) {
            return Some(j - 1);
        }
        j = j - 1;
    }
    None
}

/// Whether `a` and `b` hold the same characters.
pub fn chars_equal(a: &Vec<char>, b: &Vec<char>) -> (r: bool)
    ensures
        r == (a@ == b@),
{
    if a.len() != b.len() {
        return false;
    }
    let mut i: usize = 0;
    while i < a.len()
        invariant
            i <= a.len() == b.len(),
            forall|k: int| 0 <= k < i ==> #[trigger] a@[k] == b@[k],
        decreases a.len() - i,
    {
        if a[i] != b[i] {
            return false;
        }
        i = i + 1;
    }
    assert(a@ =~= b@);
    true
}

/// Whether `a` comes strictly before `b` in lexicographic order.
pub fn chars_lt(a: &Vec<char>, b: &Vec<char>) -> (r: bool)
    ensures
        r == seq_lt(a@, b@),
{
    let mut i: usize = 0;
    assert(a@.skip(0) =~= a@ && b@.skip(0) =~= b@);
    while i < a.len() && i < b.len() && a[i] == b[i]
        invariant
            i <= a.len(),
            i <= b.len(),
            seq_lt(a@, b@) == seq_lt(a@.skip(i as int), b@.skip(i as int)),
        decreases a.len() - i,
    {
        assert(a@.skip(i as int).drop_first() =~= a@.skip(i + 1));
        assert(b@.skip(i as int).drop_first() =~= b@.skip(i + 1));
        i = i + 1;
    }
    if i == a.len() {
        i < b.len()
    } else if i == b.len() {
        false
    } else {
        a[i] < b[i]
    }
}

} // verus!
