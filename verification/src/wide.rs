//! UTF-16 text returned by the operating system: interface aliases, process
//! paths, package names and file descriptions.
use crate::text::{hex4, push_char, push_hex4, string_from_chars, trim, trim_chars};
use vstd::prelude::*;

verus! {

/// Whether a UTF-16 unit opens a surrogate pair.
pub open spec fn is_high_surrogate(u: u16) -> bool {
    0xD800 <= u && u <= 0xDBFF
}

/// Whether a UTF-16 unit closes a surrogate pair.
pub open spec fn is_low_surrogate(u: u16) -> bool {
    0xDC00 <= u && u <= 0xDFFF
}

/// The code point a surrogate pair stands for.
pub open spec fn pair_code_point(high: u16, low: u16) -> u32 {
    (0x10000 + (high - 0xD800) * 0x400 + (low - 0xDC00)) as u32
}

/// UTF-16 decoded as `String::from_utf16_lossy` decodes it: surrogate pairs
/// join, any surrogate without its partner becomes U+FFFD.
pub open spec fn decode_utf16_lossy(units: Seq<u16>) -> Seq<char>
    decreases units.len(),
{
    if units.len() == 0 {
        Seq::empty()
    } else if units.len() >= 2 && is_high_surrogate(units[0]) && is_low_surrogate(units[1]) {
        seq![pair_code_point(units[0], units[1]) as char] + decode_utf16_lossy(units.skip(2))
    } else if is_high_surrogate(units[0]) || is_low_surrogate(units[0]) {
        seq!['\u{FFFD}'] + decode_utf16_lossy(units.skip(1))
    } else {
        seq![units[0] as u32 as char] + decode_utf16_lossy(units.skip(1))
    }
}

/// The units before the first NUL, or all of them.
pub open spec fn before_nul(units: Seq<u16>) -> Seq<u16>
    decreases units.len(),
{
    if units.len() == 0 {
        units
    } else if units[0] == 0 {
        Seq::empty()
    } else {
        seq![units[0]] + before_nul(units.skip(1))
    }
}

/// A NUL-terminated buffer read as text, with surrounding whitespace removed.
pub open spec fn wide_text(units: Seq<u16>) -> Seq<char> {
    trim(decode_utf16_lossy(before_nul(units)))
}

/// `char::from_u32`: the character with code point `code`, if it is a
/// Unicode scalar value (at most 0x10FFFF and not a surrogate).
#[verifier::external_body]
fn char_from_u32(code: u32) -> (r: Option<char>)
    ensures
        r matches Some(c) ==> c as u32 == code,
        code <= 0x10FFFF && !(0xD800 <= code && code <= 0xDFFF) ==> r is Some,
{
    char::from_u32(code)
}

fn scalar_char(code: u32) -> (c: char)
    requires
        code <= 0x10FFFF,
        !(0xD800 <= code && code <= 0xDFFF),
    ensures
        c == code as char,
{
    match char_from_u32(code) {
        Some(c) => {
            proof {
                vstd::utf8::char_u32_cast(c, code);
            }
            c
        },
        None => '\u{FFFD}',
    }
}

/// `String::from_utf16_lossy` on a slice of units, as characters.
pub fn decode_utf16_chars(units: &[u16]) -> (r: Vec<char>)
    ensures
        r@ == decode_utf16_lossy(units@),
{
    let mut out: Vec<char> = Vec::new();
    let mut i: usize = 0;
    let n = units.len();
    proof {
        assert(units@.skip(0) =~= units@);
    }
    while i < n
        invariant
            n == units@.len(),
            i <= n,
            decode_utf16_lossy(units@) == out@ + decode_utf16_lossy(units@.skip(i as int)),
        decreases n - i,
    {
        let ghost rest = units@.skip(i as int);
        let u = units[i];
        if 0xD800 <= u && u <= 0xDBFF && i + 1 < n && 0xDC00 <= units[i + 1] && units[i + 1] <= 0xDFFF {
            let low = units[i + 1];
            let code: u32 = 0x10000 + ((u - 0xD800) as u32) * 0x400 + ((low - 0xDC00) as u32);
            let c = scalar_char(code);
            assert(rest[0] == u && rest[1] == low);
            assert(rest.skip(2) =~= units@.skip(i + 2));
            out.push(c);
            i = i + 2;
        } else if 0xD800 <= u && u <= 0xDFFF {
            assert(rest[0] == u);
            assert(rest.skip(1) =~= units@.skip(i + 1));
            out.push('\u{FFFD}');
            i = i + 1;
        } else {
            let c = scalar_char(u as u32);
            assert(rest[0] == u);
            assert(rest.skip(1) =~= units@.skip(i + 1));
            out.push(c);
            i = i + 1;
        }
    }
    proof {
        assert(units@.skip(n as int) =~= Seq::<u16>::empty());
        assert(out@ + Seq::<char>::empty() =~= out@);
    }
    out
}

/// The units of a NUL-terminated buffer before its terminator.
fn units_before_nul(units: &[u16]) -> (r: Vec<u16>)
    ensures
        r@ == before_nul(units@),
{
    let mut out: Vec<u16> = Vec::new();
    let mut i: usize = 0;
    proof {
        assert(units@.skip(0) =~= units@);
    }
    while i < units.len() && units[i] != 0
        invariant
            i <= units@.len(),
            before_nul(units@) == out@ + before_nul(units@.skip(i as int)),
        decreases units@.len() - i,
    {
        let ghost rest = units@.skip(i as int);
        assert(rest[0] == units@[i as int]);
        assert(rest.skip(1) =~= units@.skip(i + 1));
        out.push(units[i]);
        i = i + 1;
        assert(out@ + before_nul(units@.skip(i as int)) =~= out@.drop_last() + (seq![units@[i - 1]] + before_nul(units@.skip(i as int))));
    }
    proof {
        if i < units@.len() {
            assert(units@.skip(i as int)[0] == 0);
        } else {
            assert(units@.skip(i as int) =~= Seq::<u16>::empty());
        }
        assert(out@ + Seq::<u16>::empty() =~= out@);
    }
    out
}

/// A NUL-terminated UTF-16 buffer as trimmed text.
pub fn wide_to_string(buffer: &[u16]) -> (r: String)
    ensures
        r@ == wide_text(buffer@),
{
    let units = units_before_nul(buffer);
    let chars = decode_utf16_chars(units.as_slice());
    let trimmed = trim_chars(&chars);
    string_from_chars(&trimmed)
}

/// A NUL-terminated UTF-16 buffer as trimmed text, unless nothing is left.
pub fn nonempty_wide_text(buffer: &[u16]) -> (r: Option<String>)
    ensures
        match r {
            Some(text) => text@ == wide_text(buffer@) && text@.len() > 0,
            None => wide_text(buffer@).len() == 0,
        },
{
    let units = units_before_nul(buffer);
    let chars = decode_utf16_chars(units.as_slice());
    let trimmed = trim_chars(&chars);
    if trimmed.len() == 0 {
        None
    } else {
        Some(string_from_chars(&trimmed))
    }
}

/// The name shown for a network interface: its alias, or `if#` and its index
/// when the alias is blank.
pub open spec fn interface_name(alias: Seq<u16>, index: u32) -> Seq<char> {
    if wide_text(alias).len() == 0 {
        "if#"@ + crate::text::decimal(index as nat)
    } else {
        wide_text(alias)
    }
}

/// The name of the interface with this alias buffer and index.
pub fn interface_alias(alias: &[u16], index: u32) -> (r: String)
    ensures
        r@ == interface_name(alias@, index),
{
    match nonempty_wide_text(alias) {
        Some(text) => text,
        None => {
            let mut name = String::from_str("if#");
            crate::text::push_decimal(&mut name, index as u128);
            name
        },
    }
}

/// The version-resource keys under which a file description is looked up:
/// the file's own language and code page first, then US English; without a
/// translation table, US English and then Simplified Chinese.
pub open spec fn description_keys(translation: Option<(u16, u16)>) -> Seq<Seq<char>> {
    match translation {
        Some((language, code_page)) => seq![
            "\\StringFileInfo\\"@ + hex4(language as nat) + hex4(code_page as nat) + "\\FileDescription"@,
            "\\StringFileInfo\\040904b0\\FileDescription"@,
        ],
        None => seq![
            "\\StringFileInfo\\040904b0\\FileDescription"@,
            "\\StringFileInfo\\080404b0\\FileDescription"@,
        ],
    }
}

/// The keys to try, in order, for a file's description.
pub fn file_description_candidates(translation: Option<(u16, u16)>) -> (r: Vec<String>)
    ensures
        r@.map_values(|s: String| s@) == description_keys(translation),
{
    let mut r: Vec<String> = Vec::new();
    match translation {
        Some((language, code_page)) => {
            let mut key = String::from_str("\\StringFileInfo\\");
            push_hex4(&mut key, language);
            push_hex4(&mut key, code_page);
            key.append("\\FileDescription");
            r.push(key);
            r.push(String::from_str("\\StringFileInfo\\040904b0\\FileDescription"));
        },
        None => {
            r.push(String::from_str("\\StringFileInfo\\040904b0\\FileDescription"));
            r.push(String::from_str("\\StringFileInfo\\080404b0\\FileDescription"));
        },
    }
    assert(r@.map_values(|s: String| s@) =~= description_keys(translation));
    r
}

/// The first package display name that is not blank, trimmed; the lookup
/// gives up at the first package whose name could not be read.
pub open spec fn first_display_name(names: Seq<Option<Seq<char>>>) -> Option<Seq<char>>
    decreases names.len(),
{
    if names.len() == 0 {
        None
    } else {
        match names[0] {
            None => None,
            Some(name) => if trim(name).len() > 0 {
                Some(trim(name))
            } else {
                first_display_name(names.skip(1))
            },
        }
    }
}

/// The name a packaged application is shown under, from the display names of
/// its packages in order (`None` where a name could not be read).
pub fn packaged_display_name(names: &Vec<Option<String>>) -> (r: Option<String>)
    ensures
        crate::text::opt_chars(r) == first_display_name(names@.map_values(|o: Option<String>| crate::text::opt_chars(o))),
{
    let ghost view = names@.map_values(|o: Option<String>| crate::text::opt_chars(o));
    let mut i: usize = 0;
    proof {
        assert(view.skip(0) =~= view);
    }
    while i < names.len()
        invariant
            view == names@.map_values(|o: Option<String>| crate::text::opt_chars(o)),
            i <= names@.len(),
            first_display_name(view) == first_display_name(view.skip(i as int)),
        decreases names@.len() - i,
    {
        let ghost rest = view.skip(i as int);
        assert(rest[0] == crate::text::opt_chars(names@[i as int]));
        assert(rest.skip(1) =~= view.skip(i + 1));
        match &names[i] {
            None => {
                return None;
            },
            Some(name) => {
                let chars = crate::text::chars_of(name.as_str());
                let trimmed = trim_chars(&chars);
                if trimmed.len() > 0 {
                    return Some(string_from_chars(&trimmed));
                }
            },
        }
        i = i + 1;
    }
    proof {
        assert(view.skip(i as int) =~= Seq::<Option<Seq<char>>>::empty());
    }
    None
}

/// An optional UTF-16 value by its view.
pub open spec fn opt_units(o: Option<Vec<u16>>) -> Option<Seq<u16>> {
    match o {
        Some(v) => Some(v@),
        None => None,
    }
}

/// The first value, read as NUL-terminated trimmed text, that is not blank;
/// values that could not be looked up (`None`) are passed over.
pub open spec fn first_description(values: Seq<Option<Seq<u16>>>) -> Option<Seq<char>>
    decreases values.len(),
{
    if values.len() == 0 {
        None
    } else {
        match values[0] {
            Some(units) => if wide_text(units).len() > 0 {
                Some(wide_text(units))
            } else {
                first_description(values.skip(1))
            },
            None => first_description(values.skip(1)),
        }
    }
}

/// A file's description, from the values found under the keys of
/// `file_description_candidates` in order (`None` where a key gave nothing).
pub fn file_description_from_values(values: &Vec<Option<Vec<u16>>>) -> (r: Option<String>)
    ensures
        crate::text::opt_chars(r) == first_description(values@.map_values(|o: Option<Vec<u16>>| opt_units(o))),
{
    let ghost view = values@.map_values(|o: Option<Vec<u16>>| opt_units(o));
    let mut i: usize = 0;
    proof {
        assert(view.skip(0) =~= view);
    }
    while i < values.len()
        invariant
            view == values@.map_values(|o: Option<Vec<u16>>| opt_units(o)),
            i <= values@.len(),
            first_description(view) == first_description(view.skip(i as int)),
        decreases values@.len() - i,
    {
        let ghost rest = view.skip(i as int);
        assert(rest[0] == opt_units(values@[i as int]));
        assert(rest.skip(1) =~= view.skip(i + 1));
        match &values[i] {
            None => {},
            Some(units) => {
                match nonempty_wide_text(units.as_slice()) {
                    Some(text) => {
                        return Some(text);
                    },
                    None => {},
                }
            },
        }
        i = i + 1;
    }
    proof {
        assert(view.skip(i as int) =~= Seq::<Option<Seq<u16>>>::empty());
    }
    None
}

} // verus!
