//! Links into the Windows Settings page for default apps.
use vstd::prelude::*;
use vstd::utf8::encode_utf8;

use crate::browser::{BrowserRegistration, BrowserScope};

verus! {

/// The Windows Settings page for default apps.
pub const DEFAULT_APPS_URI: &'static str = "ms-settings:defaultapps";

/// Bytes that stand for themselves in a query value (RFC 3986 unreserved characters).
pub open spec fn is_unreserved(b: u8) -> bool {
    ||| (0x41 <= b && b <= 0x5a)
    ||| (0x61 <= b && b <= 0x7a)
    ||| (0x30 <= b && b <= 0x39)
    ||| b == 0x2d
    ||| b == 0x5f
    ||| b == 0x2e
    ||| b == 0x7e
}

/// The upper-case hexadecimal digit for `n` (below 16).
pub open spec fn hex_digit(n: u8) -> char {
    if n < 10 {
        ((n + 48) as u8) as char
    } else {
        ((n + 55) as u8) as char
    }
}

/// The characters that stand for one byte: the byte itself when unreserved, else `%` and
/// two upper-case hexadecimal digits.
pub open spec fn encode_byte(b: u8) -> Seq<char> {
    if is_unreserved(b) {
        seq![b as char]
    } else {
        seq!['%', hex_digit(b / 16), hex_digit(b % 16)]
    }
}

/// Percent-encoding of a byte sequence.
pub open spec fn percent_encoded(bytes: Seq<u8>) -> Seq<char>
    decreases bytes.len(),
{
    if bytes.len() == 0 {
        Seq::empty()
    } else {
        encode_byte(bytes[0]) + percent_encoded(bytes.drop_first())
    }
}

/// The value of a hexadecimal digit (`0`-`9`, `A`-`F`).
pub open spec fn hex_value(c: char) -> int {
    if '0' <= c && c <= '9' {
        c as int - 48
    } else {
        c as int - 55
    }
}

/// Percent-decoding: `%` followed by two digits stands for one byte, any other character
/// for its own code.
pub open spec fn percent_decoded(cs: Seq<char>) -> Seq<u8>
    decreases cs.len(),
{
    if cs.len() == 0 {
        Seq::empty()
    } else if cs[0] == '%' && cs.len() >= 3 {
        seq![(hex_value(cs[1]) * 16 + hex_value(cs[2])) as u8] + percent_decoded(cs.skip(3))
    } else {
        seq![cs[0] as u8] + percent_decoded(cs.drop_first())
    }
}

/// The query parameter that names a browser registered in `scope`.
pub open spec fn scope_parameter(scope: BrowserScope) -> Seq<char> {
    match scope {
        BrowserScope::User => "registeredAppUser"@,
        BrowserScope::Machine => "registeredAppMachine"@,
        BrowserScope::AppModel => "registeredAUMID"@,
    }
}

/// The Settings link for a browser registered in `scope` under `registry_id`.
pub open spec fn settings_uri(scope: BrowserScope, registry_id: Seq<char>) -> Seq<char> {
    DEFAULT_APPS_URI@ + seq!['?'] + scope_parameter(scope) + seq!['='] + percent_encoded(
        encode_utf8(registry_id),
    )
}

/// Percent-encoding distributes over concatenation.
pub proof fn lemma_percent_encoded_append(a: Seq<u8>, b: Seq<u8>)
    ensures
        percent_encoded(a + b) == percent_encoded(a) + percent_encoded(b),
    decreases a.len(),
{
    if a.len() == 0 {
        assert(a + b =~= b);
    } else {
        assert((a + b).drop_first() =~= a.drop_first() + b);
        lemma_percent_encoded_append(a.drop_first(), b);
        assert(encode_byte(a[0]) + (percent_encoded(a.drop_first()) + percent_encoded(b))
            =~= (encode_byte(a[0]) + percent_encoded(a.drop_first())) + percent_encoded(b));
    }
}

fn hex_digit_of(n: u8) -> (c: char)
    requires
        n < 16,
    ensures
        c == hex_digit(n),
{
    if n < 10 {
        (n + 48) as char
    } else {
        (n + 55) as char
    }
}

/// Percent-encodes the UTF-8 bytes of `value` for a URI query: unreserved bytes
/// (`A`-`Z`, `a`-`z`, `0`-`9`, `-`, `_`, `.`, `~`) stand for themselves, every other byte
/// becomes `%` and two upper-case hexadecimal digits.
pub fn percent_encode_query_value(value: &str) -> (encoded: String)
    ensures
        encoded@ == percent_encoded(encode_utf8(value@)),
{
    let bytes = value.as_bytes();
    let mut encoded = String::new();
    let mut i: usize = 0;
    assert(bytes@.take(0) =~= Seq::<u8>::empty());
    while i < bytes.len()
        invariant
            i <= bytes@.len(),
            bytes@ == encode_utf8(value@),
            encoded@ == percent_encoded(bytes@.take(i as int)),
        decreases bytes@.len() - i,
    {
        let byte = bytes[i];
        proof {
            assert(bytes@.take(i + 1) =~= bytes@.take(i as int) + seq![byte]);
            lemma_percent_encoded_append(bytes@.take(i as int), seq![byte]);
            assert(seq![byte].drop_first() =~= Seq::<u8>::empty());
            assert(percent_encoded(Seq::<u8>::empty()) =~= Seq::<char>::empty());
            assert(seq![byte][0] == byte);
            assert(percent_encoded(seq![byte]) =~= encode_byte(byte));
        }
        // Unreserved: `A`-`Z`, `a`-`z`, `0`-`9`, `-`, `_`, `.`, `~`.
        if (0x41 <= byte && byte <= 0x5a) || (0x61 <= byte && byte <= 0x7a) || (0x30 <= byte
            && byte <= 0x39) || byte == 0x2d || byte == 0x5f || byte == 0x2e || byte == 0x7e {
            encoded.push(byte as char);
        } else {
            encoded.push('%');
            encoded.push(hex_digit_of(byte / 16));
            encoded.push(hex_digit_of(byte % 16));
        }
        proof {
            assert(encoded@ =~= percent_encoded(bytes@.take(i as int)) + encode_byte(byte));
        }
        i = i + 1;
    }
    assert(bytes@.take(bytes@.len() as int) =~= bytes@);
    encoded
}

/// The Windows Settings link that opens the default-apps page of `browser`:
/// `ms-settings:defaultapps?<parameter>=<registry id, percent-encoded>`, where the parameter
/// is `registeredAppUser`, `registeredAppMachine` or `registeredAUMID` by scope.
pub fn default_apps_uri_for(browser: &BrowserRegistration) -> (uri: String)
    ensures
        uri@ == settings_uri(browser@.scope, browser@.registry_id),
{
    let mut uri = DEFAULT_APPS_URI.to_owned();
    uri.push('?');
    let parameter: &str = match browser.scope {
        BrowserScope::User => "registeredAppUser",
        BrowserScope::Machine => "registeredAppMachine",
        BrowserScope::AppModel => "registeredAUMID",
    };
    uri.append(parameter);
    uri.push('=');
    let value = percent_encode_query_value(browser.registry_id.as_str());
    uri.append(value.as_str());
    uri
}

/// Decoding undoes the encoding of one byte.
proof fn lemma_decode_encode_byte(b: u8, rest: Seq<char>)
    ensures
        percent_decoded(encode_byte(b) + rest) == seq![b] + percent_decoded(rest),
{
    let cs = encode_byte(b) + rest;
    if is_unreserved(b) {
        assert(cs[0] == b as char);
        assert(cs.drop_first() =~= rest);
        assert((b as char) != '%');
    } else {
        assert(cs[0] == '%');
        assert(cs.skip(3) =~= rest);
        assert(cs[1] == hex_digit(b / 16) && cs[2] == hex_digit(b % 16));
        assert(hex_value(hex_digit(b / 16)) == b / 16);
        assert(hex_value(hex_digit(b % 16)) == b % 16);
    }
}

/// Percent-decoding gives back exactly the bytes that were encoded.
pub proof fn lemma_percent_round_trip(bytes: Seq<u8>)
    ensures
        percent_decoded(percent_encoded(bytes)) == bytes,
    decreases bytes.len(),
{
    if bytes.len() > 0 {
        lemma_percent_round_trip(bytes.drop_first());
        lemma_decode_encode_byte(bytes[0], percent_encoded(bytes.drop_first()));
        assert(seq![bytes[0]] + bytes.drop_first() =~= bytes);
    } else {
        assert(percent_decoded(Seq::<char>::empty()) =~= Seq::<u8>::empty());
    }
}

/// The query value of a browser's Settings link names its registry id exactly: decoding the
/// value and then its UTF-8 gives back the registry id.
pub proof fn lemma_settings_link_names_registry_id(registry_id: Seq<char>)
    ensures
        vstd::utf8::decode_utf8(percent_decoded(percent_encoded(encode_utf8(registry_id))))
            == registry_id,
{
    lemma_percent_round_trip(encode_utf8(registry_id));
    vstd::utf8::encode_utf8_decode_utf8(registry_id);
}

/// The upper-case hexadecimal digits, in order.
pub open spec fn upper_hex_digits() -> Seq<char> {
    seq!['0', '1', '2', '3', '4', '5', '6', '7', '8', '9', 'A', 'B', 'C', 'D', 'E', 'F']
}

/// Letters, digits, `-`, `_`, `.` and `~` pass through percent-encoding unchanged.
pub proof fn lemma_percent_keeps_unreserved(bytes: Seq<u8>)
    requires
        forall|i: int|
            0 <= i < bytes.len() ==> ({
                let b = #[trigger] bytes[i];
                (0x41 <= b <= 0x5a) || (0x61 <= b <= 0x7a) || (0x30 <= b <= 0x39) || b == 0x2d || b
                    == 0x5f || b == 0x2e || b == 0x7e
            }),
    ensures
        percent_encoded(bytes) == Seq::new(bytes.len(), |i: int| bytes[i] as char),
    decreases bytes.len(),
{
    if bytes.len() > 0 {
        let rest = bytes.drop_first();
        assert forall|i: int| 0 <= i < rest.len() implies ({
            let b = #[trigger] rest[i];
            (0x41 <= b <= 0x5a) || (0x61 <= b <= 0x7a) || (0x30 <= b <= 0x39) || b == 0x2d || b
                == 0x5f || b == 0x2e || b == 0x7e
        }) by {
            assert(rest[i] == bytes[i + 1]);
        }
        lemma_percent_keeps_unreserved(rest);
        assert(percent_encoded(bytes) =~= Seq::new(bytes.len(), |i: int| bytes[i] as char));
    } else {
        assert(percent_encoded(bytes) =~= Seq::new(bytes.len(), |i: int| bytes[i] as char));
    }
}

/// Every other byte becomes `%` followed by its value in two upper-case hexadecimal digits,
/// high digit first.
pub proof fn lemma_percent_escapes_reserved(b: u8, rest: Seq<u8>)
    requires
        !((0x41 <= b <= 0x5a) || (0x61 <= b <= 0x7a) || (0x30 <= b <= 0x39) || b == 0x2d || b
            == 0x5f || b == 0x2e || b == 0x7e),
    ensures
        percent_encoded(seq![b] + rest) == seq![
            '%',
            upper_hex_digits()[(b / 16) as int],
            upper_hex_digits()[(b % 16) as int],
        ] + percent_encoded(rest),
{
    assert((seq![b] + rest)[0] == b);
    assert((seq![b] + rest).drop_first() =~= rest);
    let hi = b / 16;
    let lo = b % 16;
    assert(hex_digit(hi) == upper_hex_digits()[hi as int]) by {
        assert(hi < 16);
    }
    assert(hex_digit(lo) == upper_hex_digits()[lo as int]) by {
        assert(lo < 16);
    }
}

} // verus!
