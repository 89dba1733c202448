//! Characters, strings, and the UTF-16 that long names are stored in.
use vstd::prelude::*;

verus! {

/// An ASCII letter in upper case; any other character as it is.
pub open spec fn ascii_upper(c: char) -> char {
    if 'a' <= c <= 'z' {
        (c as u32 - 32) as char
    } else {
        c
    }
}

/// An ASCII letter in lower case; any other character as it is.
pub open spec fn ascii_lower(c: char) -> char {
    if 'A' <= c <= 'Z' {
        (c as u32 + 32) as char
    } else {
        c
    }
}

/// Whether a character is an ASCII one.
pub open spec fn is_ascii(c: char) -> bool {
    (c as u32) < 0x80
}

/// Whether a text is all ASCII.
pub open spec fn all_ascii(s: Seq<char>) -> bool {
    forall|i: int| 0 <= i < s.len() ==> is_ascii(#[trigger] s[i])
}

/// The characters a character's uppercase form is made of, by Unicode's
/// tables.
pub uninterp spec fn unicode_char_uppercase(c: char) -> Seq<char>;

/// The characters a character's lowercase form is made of, by Unicode's
/// tables.
pub uninterp spec fn unicode_char_lowercase(c: char) -> Seq<char>;

/// A text's uppercase form, by Unicode's tables.
pub uninterp spec fn unicode_uppercase(s: Seq<char>) -> Seq<char>;

/// Whether a character is lowercase, by Unicode's tables.
pub uninterp spec fn unicode_lowercase_letter(c: char) -> bool;

/// Whether a character is uppercase, by Unicode's tables.
pub uninterp spec fn unicode_uppercase_letter(c: char) -> bool;

/// The characters a character's uppercase form is made of.
#[verifier::opaque]
pub open spec fn char_uppercase(c: char) -> Seq<char> {
    if is_ascii(c) {
        seq![ascii_upper(c)]
    } else {
        unicode_char_uppercase(c)
    }
}

/// The characters a character's lowercase form is made of.
#[verifier::opaque]
pub open spec fn char_lowercase(c: char) -> Seq<char> {
    if is_ascii(c) {
        seq![ascii_lower(c)]
    } else {
        unicode_char_lowercase(c)
    }
}

/// A text's uppercase form.
#[verifier::opaque]
pub open spec fn uppercase(s: Seq<char>) -> Seq<char> {
    if all_ascii(s) {
        s.map_values(|c: char| ascii_upper(c))
    } else {
        unicode_uppercase(s)
    }
}

/// Whether a character is lowercase.
#[verifier::opaque]
pub open spec fn lowercase_letter(c: char) -> bool {
    if is_ascii(c) {
        'a' <= c <= 'z'
    } else {
        unicode_lowercase_letter(c)
    }
}

/// Whether a character is uppercase.
#[verifier::opaque]
pub open spec fn uppercase_letter(c: char) -> bool {
    if is_ascii(c) {
        'A' <= c <= 'Z'
    } else {
        unicode_uppercase_letter(c)
    }
}

/// `str::to_uppercase` gives a text's uppercase form, which depends on the
/// text alone. In an ASCII text it changes `a` to `z` and nothing else.
pub assume_specification[ str::to_uppercase ](s: &str) -> (upper: String)
    ensures
        upper@ == (if all_ascii(s@) {
            s@.map_values(|c: char| ascii_upper(c))
        } else {
            unicode_uppercase(s@)
        }),
;

/// `char::is_lowercase` says whether a character is lowercase, which depends
/// on the character alone. Of the ASCII characters, `a` to `z` are.
pub assume_specification[ char::is_lowercase ](c: char) -> (yes: bool)
    ensures
        yes == (if is_ascii(c) {
            'a' <= c <= 'z'
        } else {
            unicode_lowercase_letter(c)
        }),
;

/// `char::is_uppercase` says whether a character is uppercase, which depends
/// on the character alone. Of the ASCII characters, `A` to `Z` are.
pub assume_specification[ char::is_uppercase ](c: char) -> (yes: bool)
    ensures
        yes == (if is_ascii(c) {
            'A' <= c <= 'Z'
        } else {
            unicode_uppercase_letter(c)
        }),
;

/// `char::from_u32` gives the character of a number that is a Unicode scalar
/// value, and nothing for any other number.
pub assume_specification[ char::from_u32 ](n: u32) -> (c: Option<char>)
    ensures
        c == (if n < 0xD800 || 0xE000 <= n < 0x11_0000 {
            Some(n as char)
        } else {
            None
        }),
;

/// `String::push` adds a character at the end of a string.
pub assume_specification[ String::push ](s: &mut String, c: char)
    ensures
        final(s)@ == old(s)@.push(c),
;

/// `char::to_uppercase`, with the characters it yields collected in order:
/// they depend on the character alone, and an ASCII one yields its uppercase
/// form.
#[verifier::external_body]
fn upper_chars(c: char) -> (upper: Vec<char>)
    ensures
        upper@ == (if is_ascii(c) {
            seq![ascii_upper(c)]
        } else {
            unicode_char_uppercase(c)
        }),
{
    c.to_uppercase().collect()
}

/// `char::to_lowercase`, with the characters it yields collected in order:
/// they depend on the character alone, and an ASCII one yields its lowercase
/// form.
#[verifier::external_body]
fn lower_chars(c: char) -> (lower: Vec<char>)
    ensures
        lower@ == (if is_ascii(c) {
            seq![ascii_lower(c)]
        } else {
            unicode_char_lowercase(c)
        }),
{
    c.to_lowercase().collect()
}

/// The characters of a character's uppercase form.
pub(crate) fn char_upper(c: char) -> (upper: Vec<char>)
    ensures
        upper@ == char_uppercase(c),
{
    reveal(char_uppercase);
    upper_chars(c)
}

/// The characters of a character's lowercase form.
pub(crate) fn char_lower(c: char) -> (lower: Vec<char>)
    ensures
        lower@ == char_lowercase(c),
{
    reveal(char_lowercase);
    lower_chars(c)
}

/// A text in upper case.
pub(crate) fn upper(s: &str) -> (upper: String)
    ensures
        upper@ == uppercase(s@),
{
    reveal(uppercase);
    s.to_uppercase()
}

/// Whether a character is lowercase.
pub(crate) fn is_lower(c: char) -> (yes: bool)
    ensures
        yes == lowercase_letter(c),
{
    reveal(lowercase_letter);
    c.is_lowercase()
}

/// Whether a character is uppercase.
pub(crate) fn is_upper(c: char) -> (yes: bool)
    ensures
        yes == uppercase_letter(c),
{
    reveal(uppercase_letter);
    c.is_uppercase()
}

/// The characters of a text.
pub(crate) fn chars_of(text: &str) -> (chars: Vec<char>)
    ensures
        chars@ == text@,
{
    let mut chars: Vec<char> = Vec::new();
    let mut iter = text.chars();
    loop
        invariant
            vstd::std_specs::iter::IteratorSpec::obeys_prophetic_iter_laws(&iter),
            chars@ + vstd::std_specs::iter::IteratorSpec::remaining(&iter) == text@,
            vstd::std_specs::iter::IteratorSpec::decrease(&iter) is Some,
        ensures
            chars@ == text@,
        decreases vstd::std_specs::iter::IteratorSpec::decrease(&iter)->0,
    {
        match iter.next() {
            Some(c) => {
                chars.push(c);
            },
            None => {
                break;
            },
        }
    }
    chars
}

/// A string of the given characters.
pub(crate) fn string_of(chars: &[char]) -> (text: String)
    ensures
        text@ == chars@,
{
    let mut text: String = String::new();
    let mut n: usize = 0;
    while n < chars.len()
        invariant
            n <= chars@.len(),
            text@ == chars@.take(n as int),
        decreases chars@.len() - n,
    {
        text.push(chars[n]);
        n += 1;
        assert(text@ =~= chars@.take(n as int));
    }
    assert(chars@.take(n as int) =~= chars@);
    text
}

/// A number in decimal.
pub open spec fn digits(n: nat) -> Seq<char>
    decreases n,
{
    if n < 10 {
        seq![(48 + n) as char]
    } else {
        digits(n / 10).push((48 + n % 10) as char)
    }
}

/// A number in decimal.
pub(crate) fn decimal(n: u64) -> (text: String)
    ensures
        text@ == digits(n as nat),
    decreases n,
{
    let mut text: String = if n < 10 {
        String::new()
    } else {
        decimal(n / 10)
    };
    text.push((48 + (n % 10) as u8) as char);
    assert(text@ =~= digits(n as nat));
    text
}

/// Stands for what cannot be shown.
pub const REPLACEMENT: char = '\u{FFFD}';

/// The UTF-16 units of a character: one, or a surrogate pair.
pub open spec fn char_units(c: char) -> Seq<u16> {
    let n = c as u32;
    if n < 0x1_0000 {
        seq![n as u16]
    } else {
        seq![
            (0xD800 + (n - 0x1_0000) / 0x400) as u16,
            (0xDC00 + (n - 0x1_0000) % 0x400) as u16,
        ]
    }
}

/// A text in UTF-16.
pub open spec fn utf16(text: Seq<char>) -> Seq<u16>
    decreases text.len(),
{
    if text.len() == 0 {
        Seq::empty()
    } else {
        char_units(text[0]) + utf16(text.skip(1))
    }
}

/// The first half of a surrogate pair.
pub open spec fn is_high(unit: u16) -> bool {
    0xD800 <= unit < 0xDC00
}

/// The second half of a surrogate pair.
pub open spec fn is_low(unit: u16) -> bool {
    0xDC00 <= unit < 0xE000
}

/// The text of UTF-16 units, with the replacement character for each
/// surrogate that is not part of a pair.
pub open spec fn from_utf16(units: Seq<u16>) -> Seq<char>
    decreases units.len(),
{
    if units.len() == 0 {
        Seq::empty()
    } else if !is_high(units[0]) && !is_low(units[0]) {
        seq![units[0] as char] + from_utf16(units.skip(1))
    } else if is_high(units[0]) && units.len() > 1 && is_low(units[1]) {
        seq![(0x1_0000 + (units[0] - 0xD800) * 0x400 + (units[1] - 0xDC00)) as char] + from_utf16(
            units.skip(2),
        )
    } else {
        seq![REPLACEMENT] + from_utf16(units.skip(1))
    }
}

/// A character's units are one that is no surrogate, or a pair.
proof fn lemma_char_units(c: char)
    ensures
        ({
            let units = char_units(c);
            ||| {
                &&& units.len() == 1
                &&& !is_high(units[0])
                &&& !is_low(units[0])
                &&& units[0] as char == c
            }
            ||| {
                &&& units.len() == 2
                &&& is_high(units[0])
                &&& is_low(units[1])
                &&& (0x1_0000 + (units[0] - 0xD800) * 0x400 + (units[1] - 0xDC00)) as char == c
            }
        }),
{
}

/// A text written in UTF-16 reads back as itself.
pub proof fn lemma_utf16_round_trip(text: Seq<char>)
    ensures
        from_utf16(utf16(text)) == text,
    decreases text.len(),
{
    if text.len() > 0 {
        lemma_utf16_round_trip(text.skip(1));
        let units = utf16(text);
        let first = char_units(text[0]);
        assert(units.skip(first.len() as int) =~= utf16(text.skip(1)));
        assert(units[0] == first[0]);
        lemma_char_units(text[0]);
        if first.len() == 2 {
            assert(units[1] == first[1]);
        }
        assert(from_utf16(units) =~= seq![text[0]] + from_utf16(units.skip(first.len() as int)));
        assert(seq![text[0]] + text.skip(1) =~= text);
    } else {
        assert(text =~= Seq::<char>::empty());
    }
}

/// A text in UTF-16.
pub(crate) fn encode_utf16(text: &[char]) -> (units: Vec<u16>)
    ensures
        units@ == utf16(text@),
{
    let mut units: Vec<u16> = Vec::new();
    let mut at: usize = 0;
    assert(text@.skip(0) =~= text@);
    while at < text.len()
        invariant
            at <= text@.len(),
            units@ + utf16(text@.skip(at as int)) == utf16(text@),
        decreases text@.len() - at,
    {
        let ghost before = units@;
        let ghost rest = text@.skip(at as int);
        let n: u32 = text[at] as u32;
        if n < 0x1_0000 {
            units.push(n as u16);
        } else {
            units.push((0xD800 + (n - 0x1_0000) / 0x400) as u16);
            units.push((0xDC00 + (n - 0x1_0000) % 0x400) as u16);
        }
        assert(rest.skip(1) =~= text@.skip(at + 1));
        assert(units@ =~= before + char_units(rest[0]));
        assert(units@ + utf16(rest.skip(1)) =~= before + utf16(rest));
        at += 1;
    }
    assert(units@ + utf16(text@.skip(at as int)) =~= units@);
    units
}

/// The text of UTF-16 units, with the replacement character for each
/// surrogate that is not part of a pair.
pub(crate) fn decode_utf16(units: &[u16]) -> (text: Vec<char>)
    ensures
        text@ == from_utf16(units@),
{
    let mut text: Vec<char> = Vec::new();
    let mut at: usize = 0;
    assert(units@.skip(0) =~= units@);
    while at < units.len()
        invariant
            at <= units@.len(),
            text@ + from_utf16(units@.skip(at as int)) == from_utf16(units@),
        decreases units@.len() - at,
    {
        let ghost before = text@;
        let ghost rest = units@.skip(at as int);
        let unit: u16 = units[at];
        assert(rest.skip(1) =~= units@.skip(at + 1));
        if unit < 0xD800 || unit >= 0xE000 {
            let c: char = match char::from_u32(unit as u32) {
                Some(c) => c,
                None => REPLACEMENT,
            };
            text.push(c);
            at += 1;
        } else if unit < 0xDC00 && units.len() - at > 1 && 0xDC00 <= units[at + 1] && units[at + 1]
            < 0xE000 {
            let n: u32 = 0x1_0000 + (unit as u32 - 0xD800) * 0x400 + (units[at + 1] as u32
                - 0xDC00);
            let c: char = match char::from_u32(n) {
                Some(c) => c,
                None => REPLACEMENT,
            };
            text.push(c);
            assert(rest.skip(2) =~= units@.skip(at + 2));
            at += 2;
        } else {
            text.push(REPLACEMENT);
            at += 1;
        }
        assert(text@ + from_utf16(units@.skip(at as int)) =~= before + from_utf16(rest));
    }
    assert(text@ + from_utf16(units@.skip(at as int)) =~= text@);
    text
}

/// The position of the last `wanted` in a text.
pub open spec fn last_position(text: Seq<char>, wanted: char) -> Option<int>
    decreases text.len(),
{
    if text.len() == 0 {
        None
    } else if text.last() == wanted {
        Some(text.len() - 1)
    } else {
        last_position(text.drop_last(), wanted)
    }
}

/// The last `wanted` is in the text.
pub proof fn lemma_last_position(text: Seq<char>, wanted: char)
    ensures
        last_position(text, wanted) matches Some(at) ==> 0 <= at < text.len() && text[at] == wanted,
    decreases text.len(),
{
    if text.len() > 0 && text.last() != wanted {
        lemma_last_position(text.drop_last(), wanted);
    }
}

/// The position of the last `wanted` in a text.
pub(crate) fn find_last(text: &[char], wanted: char) -> (found: Option<usize>)
    ensures
        match found {
            Some(at) => last_position(text@, wanted) == Some(at as int) && at < text@.len(),
            None => last_position(text@, wanted) is None,
        },
{
    let mut end: usize = text.len();
    assert(text@.take(end as int) =~= text@);
    while end > 0
        invariant
            end <= text@.len(),
            last_position(text@, wanted) == last_position(text@.take(end as int), wanted),
        decreases end,
    {
        assert(text@.take(end as int).drop_last() =~= text@.take(end - 1));
        if text[end - 1] == wanted {
            return Some(end - 1);
        }
        end -= 1;
    }
    None
}

} // verus!
