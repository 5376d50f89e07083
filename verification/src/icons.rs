//! Menu icons: where a browser's icon is looked for, and the conversion of the pixels that
//! Windows draws into the RGBA layout that the menu takes. Also the UTF-16 text that Windows'
//! wide-character functions take.
use vstd::prelude::*;

use crate::browser::{clone_text, BrowserRegistration, BrowserView};
use crate::text::chars_of;

verus! {

broadcast use vstd::utf8::char_is_scalar;

/// Width and height, in pixels, of a browser icon in the menu.
pub const MENU_ICON_SIZE: u32 = 16;

/// A place to take a browser's menu icon from.
#[derive(Debug, PartialEq, Eq)]
pub enum IconSource {
    /// An image file.
    ImageFile(String),
    /// The small icon that the shell shows for an executable.
    Executable(String),
    /// The generic browser icon that comes with the application.
    Fallback,
}

pub enum IconSourceView {
    ImageFile(Seq<char>),
    Executable(Seq<char>),
    Fallback,
}

impl View for IconSource {
    type V = IconSourceView;

    open spec fn view(&self) -> IconSourceView {
        match self {
            IconSource::ImageFile(p) => IconSourceView::ImageFile(p@),
            IconSource::Executable(p) => IconSourceView::Executable(p@),
            IconSource::Fallback => IconSourceView::Fallback,
        }
    }
}

/// The places to take `b`'s icon from, in the order in which they are tried: its icon file,
/// then its executable, then the generic icon.
pub open spec fn icon_sources(b: BrowserView) -> Seq<IconSourceView> {
    let from_file = match b.icon_path {
        Some(p) => seq![IconSourceView::ImageFile(p)],
        None => Seq::empty(),
    };
    let from_executable = match b.executable_path {
        Some(p) => seq![IconSourceView::Executable(p)],
        None => Seq::empty(),
    };
    from_file + from_executable + seq![IconSourceView::Fallback]
}

/// Where to look for the menu icon of `browser`, in order: the first source that yields an
/// image gives the icon. The generic browser icon comes last.
pub fn browser_icon(browser: &BrowserRegistration) -> (sources: Vec<IconSource>)
    ensures
        sources@.map_values(|s: IconSource| s@) == icon_sources(browser@),
{
    let mut sources: Vec<IconSource> = Vec::new();
    match &browser.icon_path {
        Some(p) => sources.push(IconSource::ImageFile(clone_text(p))),
        None => {},
    }
    match &browser.executable_path {
        Some(p) => sources.push(IconSource::Executable(clone_text(p))),
        None => {},
    }
    sources.push(IconSource::Fallback);
    assert(sources@.map_values(|s: IconSource| s@) =~= icon_sources(browser@));
    sources
}

/// Pixels in BGRA byte order rearranged into RGBA order: in each complete group of four
/// bytes the first and third trade places; an incomplete group at the end is dropped.
pub open spec fn swap_red_blue(s: Seq<u8>) -> Seq<u8> {
    Seq::new(
        ((s.len() / 4) * 4) as nat,
        |i: int|
            if i % 4 == 0 {
                s[i + 2]
            } else if i % 4 == 2 {
                s[i - 2]
            } else {
                s[i]
            },
    )
}

/// The RGBA pixels of a bitmap whose pixels are in BGRA order (four bytes each).
pub fn bgra_to_rgba(bgra: &[u8]) -> (rgba: Vec<u8>)
    ensures
        rgba@ == swap_red_blue(bgra@),
{
    let n = bgra.len() / 4 * 4;
    let mut rgba: Vec<u8> = Vec::new();
    let mut i: usize = 0;
    while i < n
        invariant
            n == bgra@.len() / 4 * 4,
            n <= bgra@.len(),
            i <= n,
            i % 4 == 0,
            rgba@.len() == i,
            forall|j: int| 0 <= j < i ==> #[trigger] rgba@[j] == swap_red_blue(bgra@)[j],
        decreases n - i,
    {
        rgba.push(bgra[i + 2]);
        rgba.push(bgra[i + 1]);
        rgba.push(bgra[i]);
        rgba.push(bgra[i + 3]);
        i = i + 4;
    }
    assert(rgba@ =~= swap_red_blue(bgra@));
    rgba
}

/// UTF-16 encoding of one character.
pub open spec fn utf16_of_char(c: char) -> Seq<u16> {
    if (c as u32) < 0x10000 {
        seq![(c as u32) as u16]
    } else {
        seq![
            (0xd800 + ((c as u32) - 0x10000) / 0x400) as u16,
            (0xdc00 + ((c as u32) - 0x10000) % 0x400) as u16,
        ]
    }
}

/// UTF-16 encoding of a character sequence (`str::encode_utf16`).
pub open spec fn utf16_of(s: Seq<char>) -> Seq<u16>
    decreases s.len(),
{
    if s.len() == 0 {
        Seq::empty()
    } else {
        utf16_of(s.drop_last()) + utf16_of_char(s.last())
    }
}

/// `value` in UTF-16 with a terminating zero, as Windows' wide-character functions take it.
pub fn widestring(value: &str) -> (wide: Vec<u16>)
    ensures
        wide@ == utf16_of(value@).push(0),
{
    let chars = chars_of(value);
    let mut wide: Vec<u16> = Vec::new();
    let mut i: usize = 0;
    while i < chars.len()
        invariant
            i <= chars@.len(),
            wide@ == utf16_of(chars@.take(i as int)),
        decreases chars@.len() - i,
    {
        let c = chars[i];
        let ghost before = chars@.take(i as int);
        proof {
            assert(chars@.take(i + 1).drop_last() =~= before);
            assert(chars@.take(i + 1).last() == c);
        }
        let u = c as u32;
        if u < 0x10000 {
            wide.push(u as u16);
        } else {
            let v = u - 0x10000;
            wide.push((0xd800 + v / 0x400) as u16);
            wide.push((0xdc00 + v % 0x400) as u16);
        }
        assert(wide@ =~= utf16_of(before) + utf16_of_char(c));
        i = i + 1;
    }
    assert(chars@.take(chars@.len() as int) =~= value@);
    wide.push(0);
    wide
}

/// The RGBA rearrangement undoes itself on whole pixels.
pub proof fn lemma_swap_red_blue_involution(s: Seq<u8>)
    requires
        s.len() % 4 == 0,
    ensures
        swap_red_blue(swap_red_blue(s)) == s,
{
    let t = swap_red_blue(s);
    assert(t.len() == s.len());
    assert(swap_red_blue(t) =~= s);
}

/// Pixel by pixel, the RGBA bytes keep green and alpha and exchange red and blue; an
/// incomplete pixel at the end is dropped.
pub proof fn lemma_swap_red_blue_pixels(s: Seq<u8>, k: int)
    requires
        0 <= k < s.len() / 4,
    ensures
        swap_red_blue(s).len() == s.len() / 4 * 4,
        swap_red_blue(s)[4 * k] == s[4 * k + 2],
        swap_red_blue(s)[4 * k + 1] == s[4 * k + 1],
        swap_red_blue(s)[4 * k + 2] == s[4 * k],
        swap_red_blue(s)[4 * k + 3] == s[4 * k + 3],
{
    assert((4 * k) % 4 == 0 && (4 * k + 1) % 4 == 1 && (4 * k + 2) % 4 == 2 && (4 * k + 3) % 4 == 3);
    assert(4 * k + 3 < s.len() / 4 * 4);
}

/// One character in UTF-16: a character below `0x10000` (never a surrogate) is one unit equal
/// to it; any other is a high surrogate (`0xD800`-`0xDBFF`) followed by a low surrogate
/// (`0xDC00`-`0xDFFF`) from which it is recovered.
pub proof fn lemma_utf16_of_char(c: char)
    ensures
        (c as u32) < 0x10000 ==> utf16_of_char(c) == seq![(c as u32) as u16] && !(0xd800 <= (c as u32)
            <= 0xdfff),
        (c as u32) >= 0x10000 ==> ({
            let u = utf16_of_char(c);
            &&& u.len() == 2
            &&& 0xd800 <= u[0] <= 0xdbff
            &&& 0xdc00 <= u[1] <= 0xdfff
            &&& 0x10000 + (u[0] - 0xd800) * 0x400 + (u[1] - 0xdc00) == c as u32
        }),
{
    let v = (c as u32) as int;
    if v >= 0x10000 {
        assert(v <= 0x10ffff);
        let w = v - 0x10000;
        assert(w / 0x400 <= 0x3ff);
        assert(w == (w / 0x400) * 0x400 + w % 0x400);
    }
}

/// UTF-16 encoding of a text is the encodings of its characters in order.
pub proof fn lemma_utf16_of_append(a: Seq<char>, b: Seq<char>)
    ensures
        utf16_of(a + b) == utf16_of(a) + utf16_of(b),
    decreases b.len(),
{
    if b.len() == 0 {
        assert(a + b =~= a);
        assert(utf16_of(a) + utf16_of(b) =~= utf16_of(a));
    } else {
        assert((a + b).drop_last() =~= a + b.drop_last());
        assert((a + b).last() == b.last());
        lemma_utf16_of_append(a, b.drop_last());
        assert(utf16_of(a + b) =~= utf16_of(a) + utf16_of(b));
    }
}

} // verus!
