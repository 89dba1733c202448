//! How a name is stored: as an 8.3 name alone where that says it exactly,
//! and otherwise as a long name with an 8.3 alias.
use vstd::prelude::*;

use crate::bytes;
use crate::codepage::Codepage;
use crate::dir;
use crate::dir::{is_valid_short_name_byte, unit_offset, ShortName, ShortView, CHARS_PER_SLOT, ENTRY_SIZE};
use crate::error::{Error, Fault};
use crate::text;

verus! {

/// The longest name, in UTF-16 units.
pub const MAX_LONG_NAME: usize = 255;

/// The largest number an alias ends in.
pub const MAX_TAIL: u32 = 999_999;

/// A name in the form it is stored in.
#[derive(Debug)]
pub struct StoredName {
    /// The 8.3 name, or the alias of a long one.
    pub short: ShortName,
    /// The slots of the long name, in the order they are stored; none where
    /// the 8.3 name says it all.
    pub slots: Vec<[u8; ENTRY_SIZE]>,
}

/// A stored name as a mathematical value.
#[verifier::ext_equal]
pub struct StoredView {
    pub short: ShortView,
    pub slots: Seq<Seq<u8>>,
}

impl View for StoredName {
    type V = StoredView;

    open spec fn view(&self) -> StoredView {
        StoredView {
            short: self.short@,
            slots: Seq::new(self.slots@.len(), |i: int| self.slots@[i]@),
        }
    }
}

impl StoredName {
    /// How many directory slots the name takes up.
    pub fn entries(&self) -> (count: u32)
        requires
            self.slots@.len() < u32::MAX,
        ensures
            count == self@.slots.len() + 1,
    {
        self.slots.len() as u32 + 1
    }
}

/// A character that no name may hold.
pub open spec fn reserved(c: char) -> bool {
    c == '"' || c == '*' || c == '/' || c == ':' || c == '<' || c == '>' || c == '?' || c == '\\'
        || c == '|' || (c as u32) < 0x20
}

/// Whether a name can be stored at all: it is not empty, neither starts nor
/// ends with a space, does not end with a period, holds no reserved
/// character, and is not too long.
pub open spec fn storable(name: Seq<char>) -> bool {
    &&& name.len() > 0
    &&& name[0] != ' '
    &&& name.last() != ' '
    &&& name.last() != '.'
    &&& forall|i: int| 0 <= i < name.len() ==> !reserved(#[trigger] name[i])
    &&& text::utf16(name).len() <= MAX_LONG_NAME
}

/// What comes before the last period, or the whole.
pub open spec fn base_part(name: Seq<char>) -> Seq<char> {
    match text::last_position(name, '.') {
        Some(at) => name.take(at),
        None => name,
    }
}

/// What comes after the last period, or nothing.
pub open spec fn extension_part(name: Seq<char>) -> Seq<char> {
    match text::last_position(name, '.') {
        Some(at) => name.skip(at + 1),
        None => Seq::empty(),
    }
}

/// The byte a character is stored as in an 8.3 name: that of its uppercase
/// form, if this is one character, and the codepage has it, and it may stand
/// in such a name.
pub open spec fn short_byte(c: char, codepage: Codepage) -> Option<u8> {
    let upper = text::char_uppercase(c);
    if upper.len() != 1 {
        None
    } else {
        match codepage.encodes(upper[0]) {
            Some(byte) => if dir::valid_short_byte(byte) {
                Some(byte)
            } else {
                None
            },
            None => None,
        }
    }
}

/// Whether a character is its own uppercase form, or the lowercase form of
/// that: so it can be told from that and its case.
pub open spec fn turns_back(c: char) -> bool {
    let upper = text::char_uppercase(c);
    &&& upper.len() == 1
    &&& upper[0] == c || text::char_lowercase(upper[0]) == seq![c]
}

/// Whether every character of a field has a byte that tells it, case aside.
pub open spec fn encodable(field: Seq<char>, codepage: Codepage) -> bool {
    forall|i: int|
        0 <= i < field.len() ==> short_byte(#[trigger] field[i], codepage) is Some && turns_back(
            field[i],
        )
}

/// A field's bytes, padded with spaces to `width`.
pub open spec fn padded(field: Seq<char>, width: nat, codepage: Codepage) -> Seq<u8> {
    Seq::new(
        width,
        |i: int|
            if i < field.len() {
                short_byte(field[i], codepage)->0
            } else {
                0x20
            },
    )
}

/// Whether a name fits an 8.3 name, case aside.
pub open spec fn fits(name: Seq<char>, codepage: Codepage) -> bool {
    let (base, extension) = (base_part(name), extension_part(name));
    &&& 0 < base.len() <= 8
    &&& extension.len() <= 3
    &&& encodable(base, codepage)
    &&& encodable(extension, codepage)
}

/// The eleven bytes of a name that fits.
pub open spec fn direct_raw(name: Seq<char>, codepage: Codepage) -> Seq<u8> {
    padded(base_part(name), 8, codepage) + padded(extension_part(name), 3, codepage)
}

/// Whether a field holds a lowercase character.
pub open spec fn has_lower(field: Seq<char>) -> bool {
    exists|i: int| 0 <= i < field.len() && text::lowercase_letter(#[trigger] field[i])
}

/// Whether a field holds an uppercase character.
pub open spec fn has_upper(field: Seq<char>) -> bool {
    exists|i: int| 0 <= i < field.len() && text::uppercase_letter(#[trigger] field[i])
}

/// Whether a field is to be shown in lower case; nothing, where its case is
/// mixed.
pub open spec fn case_of(field: Seq<char>) -> Option<bool> {
    if has_lower(field) && has_upper(field) {
        None
    } else {
        Some(has_lower(field))
    }
}

/// The case bits of a name that fits; nothing, where they cannot tell its
/// case.
pub open spec fn direct_flags(name: Seq<char>) -> Option<u8> {
    match (case_of(base_part(name)), case_of(extension_part(name))) {
        (Some(base), Some(extension)) => Some(
            ((if base {
                8int
            } else {
                0
            }) + (if extension {
                16int
            } else {
                0
            })) as u8,
        ),
        _ => None,
    }
}

/// The 8.3 name that says a name exactly: what is shown of it is the name,
/// case included.
pub open spec fn exact(name: Seq<char>, codepage: Codepage) -> Option<ShortView> {
    let short = ShortView::escaped(direct_raw(name, codepage), direct_flags(name)->0);
    if storable(name) && fits(name, codepage) && direct_flags(name) is Some && short.display(
        codepage,
    ) == name {
        Some(short)
    } else {
        None
    }
}

/// The characters a leading period or space is followed by.
pub open spec fn stripped(name: Seq<char>) -> Seq<char>
    decreases name.len(),
{
    if name.len() > 0 && (name[0] == '.' || name[0] == ' ') {
        stripped(name.skip(1))
    } else {
        name
    }
}

/// A field's bytes for an alias: periods and spaces left out, and an
/// underscore for what has no byte.
pub open spec fn mangled(field: Seq<char>, codepage: Codepage) -> Seq<u8>
    decreases field.len(),
{
    if field.len() == 0 {
        Seq::empty()
    } else {
        let before = mangled(field.drop_last(), codepage);
        if field.last() == '.' || field.last() == ' ' {
            before
        } else {
            before.push(
                match short_byte(field.last(), codepage) {
                    Some(byte) => byte,
                    None => 0x5F,
                },
            )
        }
    }
}

/// No more than the first `n` bytes.
pub open spec fn at_most(s: Seq<u8>, n: int) -> Seq<u8> {
    if s.len() <= n {
        s
    } else {
        s.take(n)
    }
}

/// The bytes an alias's base is made from.
pub open spec fn basis_base(name: Seq<char>, codepage: Codepage) -> Seq<u8> {
    at_most(mangled(base_part(stripped(name)), codepage), 8)
}

/// An alias's extension.
pub open spec fn basis_extension(name: Seq<char>, codepage: Codepage) -> Seq<u8> {
    at_most(mangled(extension_part(stripped(name)), codepage), 3)
}

/// A number in decimal digits, in ASCII.
pub open spec fn digits(n: int) -> Seq<u8>
    decreases n,
{
    if n < 10 {
        seq![(0x30 + n) as u8]
    } else {
        digits(n / 10).push((0x30 + n % 10) as u8)
    }
}

/// Bytes padded with spaces to `width`.
pub open spec fn spaced(s: Seq<u8>, width: nat) -> Seq<u8> {
    Seq::new(
        width,
        |i: int|
            if i < s.len() {
                s[i]
            } else {
                0x20
            },
    )
}

/// The eleven bytes of the alias with number `tail`: as much of the base as
/// leaves room, a tilde, and the number.
pub open spec fn tailed(base: Seq<u8>, extension: Seq<u8>, tail: int) -> Seq<u8> {
    spaced(at_most(base, 7 - digits(tail).len()).push(0x7E) + digits(tail), 8) + spaced(
        extension,
        3,
    )
}

/// The `q`th unit of a stored name: the name's own, then a terminator, then
/// filling.
pub open spec fn stored_unit(units: Seq<u16>, q: int) -> u16 {
    if q < units.len() {
        units[q]
    } else if q == units.len() {
        0x0000
    } else {
        0xFFFF
    }
}

/// How many slots a name of so many units takes.
pub open spec fn slots_for(units: int) -> int {
    (units + 12) / 13
}

/// The slot that holds the `sequence`th piece of a long name: its number,
/// marked in the last piece, the mark of a long-name slot, the checksum, and
/// thirteen units.
pub open spec fn long_slot(units: Seq<u16>, sequence: int, sum: u8) -> Seq<u8> {
    Seq::new(
        32,
        |b: int|
            if b == 0 {
                (sequence + if sequence == slots_for(units.len() as int) {
                    0x40int
                } else {
                    0
                }) as u8
            } else if b == 0x0B {
                0x0F
            } else if b == 0x0D {
                sum
            } else if b == 0x0C || b == 0x1A || b == 0x1B {
                0
            } else {
                let at = if b <= 0x0A {
                    b - 1
                } else if b <= 0x19 {
                    10 + b - 0x0E
                } else {
                    22 + b - 0x1C
                };
                bytes::u16_bytes(stored_unit(units, 13 * (sequence - 1) + at / 2))[at % 2]
            },
    )
}

/// The slots of a long name, last piece first.
pub open spec fn long_slots(units: Seq<u16>, sum: u8) -> Seq<Seq<u8>> {
    let count = slots_for(units.len() as int);
    Seq::new(count as nat, |i: int| long_slot(units, count - i, sum))
}

/// A long name under an alias.
pub open spec fn with_alias(name: Seq<char>, short: ShortView) -> StoredView {
    StoredView { short, slots: long_slots(text::utf16(name), dir::checksum_of(short.raw)) }
}

/// A name under the first numbered alias, from `tail` on, that is not taken.
pub open spec fn first_alias(
    name: Seq<char>,
    codepage: Codepage,
    taken: spec_fn(Seq<char>) -> bool,
    tail: int,
) -> Result<StoredView, Fault>
    decreases MAX_TAIL + 1 - tail,
{
    if tail > MAX_TAIL {
        Err(Fault::NoAliasAvailable { name })
    } else {
        let short = ShortView::escaped(
            tailed(basis_base(name, codepage), basis_extension(name, codepage), tail),
            0,
        );
        if taken(short.display(codepage)) {
            first_alias(name, codepage, taken, tail + 1)
        } else {
            Ok(with_alias(name, short))
        }
    }
}

/// How a name is stored in a directory where `taken` names are: alone, if it
/// an 8.3 name says it exactly; under its own uppercase form, if that is
/// free; and otherwise under the first free numbered alias.
pub open spec fn planned(
    name: Seq<char>,
    codepage: Codepage,
    taken: spec_fn(Seq<char>) -> bool,
) -> Result<StoredView, Fault> {
    if !storable(name) {
        Err(Fault::BadName { name })
    } else if exact(name, codepage) is Some {
        Ok(StoredView { short: exact(name, codepage)->0, slots: Seq::empty() })
    } else {
        let short = ShortView::escaped(direct_raw(name, codepage), 0);
        if fits(name, codepage) && !taken(short.display(codepage)) {
            Ok(with_alias(name, short))
        } else {
            first_alias(name, codepage, taken, 1)
        }
    }
}

/// The UTF-16 units of a name that can be stored.
fn long_name_units(name: &[char]) -> (units: Option<Vec<u16>>)
    ensures
        match units {
            Some(units) => storable(name@) && units@ == text::utf16(name@),
            None => !storable(name@),
        },
{
    if name.len() == 0 || name[0] == ' ' || name[name.len() - 1] == ' ' || name[name.len() - 1]
        == '.' {
        return None;
    }
    let mut n: usize = 0;
    while n < name.len()
        invariant
            n <= name@.len(),
            forall|i: int| 0 <= i < n ==> !reserved(#[trigger] name@[i]),
        decreases name@.len() - n,
    {
        if is_reserved(name[n]) {
            return None;
        }
        n += 1;
    }
    let units: Vec<u16> = text::encode_utf16(name);
    if units.len() <= MAX_LONG_NAME {
        Some(units)
    } else {
        None
    }
}

/// Whether no name may hold a character.
fn is_reserved(c: char) -> (yes: bool)
    ensures
        yes == reserved(c),
{
    c == '"' || c == '*' || c == '/' || c == ':' || c == '<' || c == '>' || c == '?' || c == '\\'
        || c == '|' || (c as u32) < 0x20
}

/// The uppercase form of a character, if it is one character.
fn upper(c: char) -> (upper: Option<char>)
    ensures
        upper == (if text::char_uppercase(c).len() == 1 {
            Some(text::char_uppercase(c)[0])
        } else {
            None
        }),
{
    let characters: Vec<char> = text::char_upper(c);
    if characters.len() == 1 {
        Some(characters[0])
    } else {
        None
    }
}

/// The byte a character is stored as in an 8.3 name.
fn encode_char(c: char, codepage: &Codepage) -> (byte: Option<u8>)
    ensures
        byte == short_byte(c, *codepage),
{
    match upper(c) {
        Some(upper) => match codepage.encode(upper) {
            Some(byte) => if is_valid_short_name_byte(byte) {
                Some(byte)
            } else {
                None
            },
            None => None,
        },
        None => None,
    }
}

/// A name's parts before and after its last period.
fn split_extension(name: &[char]) -> (parts: (&[char], &[char]))
    ensures
        parts.0@ == base_part(name@),
        parts.1@ == extension_part(name@),
{
    let total: usize = name.len();
    match text::find_last(name, '.') {
        Some(at) => {
            let base: &[char] = &name[0..at];
            let extension: &[char] = &name[at + 1..total];
            assert(base@ =~= name@.take(at as int));
            assert(extension@ =~= name@.skip(at + 1));
            (base, extension)
        },
        None => {
            let nothing: &[char] = &name[0..0];
            assert(nothing@ =~= Seq::<char>::empty());
            (name, nothing)
        },
    }
}

/// Whether a field is to be shown in lower case.
fn field_case(field: &[char]) -> (case: Option<bool>)
    ensures
        case == case_of(field@),
{
    let mut lower: bool = false;
    let mut upper: bool = false;
    let mut n: usize = 0;
    while n < field.len()
        invariant
            n <= field@.len(),
            lower == has_lower(field@.take(n as int)),
            upper == has_upper(field@.take(n as int)),
        decreases field@.len() - n,
    {
        let c: char = field[n];
        proof {
            let (before, after) = (field@.take(n as int), field@.take(n + 1));
            assert(after[n as int] == c);
            assert(has_lower(after) == (has_lower(before) || text::lowercase_letter(c))) by {
                if has_lower(before) {
                    let i = choose|i: int|
                        0 <= i < before.len() && text::lowercase_letter(#[trigger] before[i]);
                    assert(after[i] == before[i]);
                }
                if has_lower(after) {
                    let i = choose|i: int|
                        0 <= i < after.len() && text::lowercase_letter(#[trigger] after[i]);
                    if i < n {
                        assert(before[i] == after[i]);
                    }
                }
            }
            assert(has_upper(after) == (has_upper(before) || text::uppercase_letter(c))) by {
                if has_upper(before) {
                    let i = choose|i: int|
                        0 <= i < before.len() && text::uppercase_letter(#[trigger] before[i]);
                    assert(after[i] == before[i]);
                }
                if has_upper(after) {
                    let i = choose|i: int|
                        0 <= i < after.len() && text::uppercase_letter(#[trigger] after[i]);
                    if i < n {
                        assert(before[i] == after[i]);
                    }
                }
            }
        }
        if text::is_lower(c) {
            lower = true;
        }
        if text::is_upper(c) {
            upper = true;
        }
        n += 1;
    }
    assert(field@.take(n as int) =~= field@);
    if lower && upper {
        None
    } else {
        Some(lower)
    }
}

/// A name that fits an 8.3 name, with what is known of its case.
struct Direct {
    raw: [u8; 11],
    base: Option<bool>,
    extension: Option<bool>,
}

impl Direct {
    /// The case bits, where they can tell the case.
    fn case_flags(&self) -> (flags: Option<u8>)
        ensures
            flags == (match (self.base, self.extension) {
                (Some(base), Some(extension)) => Some(
                    ((if base {
                        8int
                    } else {
                        0
                    }) + (if extension {
                        16int
                    } else {
                        0
                    })) as u8,
                ),
                _ => None,
            }),
    {
        match (self.base, self.extension) {
            (Some(base), Some(extension)) => {
                let low: u8 = if base {
                    8
                } else {
                    0
                };
                let high: u8 = if extension {
                    16
                } else {
                    0
                };
                Some(low + high)
            },
            _ => None,
        }
    }
}

/// Whether a character can be told from its uppercase form and its case.
fn reversible(c: char) -> (yes: bool)
    ensures
        yes == turns_back(c),
{
    match upper(c) {
        Some(upper) => {
            if upper == c {
                return true;
            }
            let lower: Vec<char> = text::char_lower(upper);
            if lower.len() == 1 && lower[0] == c {
                assert(lower@ =~= seq![c]);
                true
            } else {
                assert(lower@ != seq![c]) by {
                    if lower@ == seq![c] {
                        assert(lower@.len() == 1 && lower@[0] == c);
                    }
                }
                false
            }
        },
        None => false,
    }
}

/// Stores a field's bytes from `at` on; `false` where one has none that tells
/// it.
fn encode_field(raw: &mut [u8; 11], at: usize, field: &[char], codepage: &Codepage) -> (ok: bool)
    requires
        at + field@.len() <= 11,
    ensures
        ok == encodable(field@, *codepage),
        ok ==> forall|i: int|
            0 <= i < 11 ==> final(raw)@[i] == (if at <= i < at + field@.len() {
                short_byte(field@[i - at], *codepage)->0
            } else {
                old(raw)@[i]
            }),
{
    let mut n: usize = 0;
    while n < field.len()
        invariant
            n <= field@.len(),
            at + field@.len() <= 11,
            forall|i: int|
                0 <= i < n ==> short_byte(#[trigger] field@[i], *codepage) is Some && turns_back(
                    field@[i],
                ),
            forall|i: int|
                0 <= i < 11 ==> raw@[i] == (if at <= i < at + n {
                    short_byte(field@[i - at], *codepage)->0
                } else {
                    old(raw)@[i]
                }),
        decreases field@.len() - n,
    {
        if !reversible(field[n]) {
            assert(!turns_back(field@[n as int]));
            return false;
        }
        match encode_char(field[n], codepage) {
            Some(byte) => {
                raw[at + n] = byte;
            },
            None => {
                assert(short_byte(field@[n as int], *codepage) is None);
                return false;
            },
        }
        n += 1;
    }
    true
}

/// The 8.3 form of a name that has one, case aside.
fn direct_8_3(name: &[char], codepage: &Codepage) -> (direct: Option<Direct>)
    ensures
        match direct {
            Some(direct) => {
                &&& fits(name@, *codepage)
                &&& direct.raw@ == direct_raw(name@, *codepage)
                &&& direct.base == case_of(base_part(name@))
                &&& direct.extension == case_of(extension_part(name@))
            },
            None => !fits(name@, *codepage),
        },
{
    let (base, extension) = split_extension(name);
    if base.len() == 0 || base.len() > 8 || extension.len() > 3 {
        return None;
    }
    let mut raw: [u8; 11] = [0x20u8;11];
    if !encode_field(&mut raw, 0, base, codepage) {
        return None;
    }
    if !encode_field(&mut raw, 8, extension, codepage) {
        return None;
    }
    assert(raw@ =~= direct_raw(name@, *codepage));
    Some(Direct { raw, base: field_case(base), extension: field_case(extension) })
}

/// The 8.3 name that says a name exactly, case included.
pub(crate) fn exact_8_3(name: &str, codepage: &Codepage) -> (short: Option<ShortName>)
    ensures
        match short {
            Some(short) => exact(name@, *codepage) == Some(short@) && short@.display(*codepage)
                == name@,
            None => exact(name@, *codepage) is None,
        },
{
    let chars: Vec<char> = text::chars_of(name);
    if long_name_units(chars.as_slice()).is_none() {
        return None;
    }
    match direct_8_3(chars.as_slice(), codepage) {
        Some(direct) => match direct.case_flags() {
            Some(flags) => {
                let short = ShortName::from_raw(direct.raw, flags);
                let shown: Vec<char> = text::chars_of(
                    short.to_display_string_with(codepage).as_str(),
                );
                if same_chars(shown.as_slice(), chars.as_slice()) {
                    Some(short)
                } else {
                    None
                }
            },
            None => None,
        },
        None => None,
    }
}

/// Whether two texts are the same.
fn same_chars(a: &[char], b: &[char]) -> (same: bool)
    ensures
        same == (a@ == b@),
{
    if a.len() != b.len() {
        return false;
    }
    let mut n: usize = 0;
    while n < a.len()
        invariant
            n <= a@.len(),
            a@.len() == b@.len(),
            forall|i: int| 0 <= i < n ==> a@[i] == b@[i],
        decreases a@.len() - n,
    {
        if a[n] != b[n] {
            return false;
        }
        n += 1;
    }
    assert(a@ =~= b@);
    true
}

/// A field's bytes for an alias, no more than `limit` of them.
fn mangle(field: &[char], limit: usize, codepage: &Codepage) -> (out: Vec<u8>)
    ensures
        out@ == at_most(mangled(field@, *codepage), limit as int),
        out@.len() <= limit,
{
    let mut out: Vec<u8> = Vec::new();
    let mut n: usize = 0;
    while n < field.len() && out.len() < limit
        invariant
            n <= field@.len(),
            out@.len() <= limit,
            out@ == mangled(field@.take(n as int), *codepage),
        decreases field@.len() - n,
    {
        assert(field@.take(n + 1).drop_last() =~= field@.take(n as int));
        let c: char = field[n];
        if c != '.' && c != ' ' {
            match encode_char(c, codepage) {
                Some(byte) => {
                    out.push(byte);
                },
                None => {
                    out.push(0x5F);
                },
            }
        }
        n += 1;
    }
    proof {
        lemma_mangled_prefix(field@, n as int, *codepage);
        assert(field@.take(field@.len() as int) =~= field@);
    }
    out
}

/// A field's bytes go on from those of its beginning.
proof fn lemma_mangled_prefix(field: Seq<char>, n: int, codepage: Codepage)
    requires
        0 <= n <= field.len(),
    ensures
        ({
            let (part, all) = (mangled(field.take(n), codepage), mangled(field, codepage));
            part.len() <= all.len() && part == all.take(part.len() as int)
        }),
    decreases field.len() - n,
{
    let all = mangled(field, codepage);
    if n == field.len() {
        assert(field.take(n) =~= field);
        assert(all.take(all.len() as int) =~= all);
    } else {
        lemma_mangled_prefix(field, n + 1, codepage);
        assert(field.take(n + 1).drop_last() =~= field.take(n));
        let (part, next) = (
            mangled(field.take(n), codepage),
            mangled(field.take(n + 1), codepage),
        );
        assert(part =~= next.take(part.len() as int));
        assert(part =~= all.take(part.len() as int));
    }
}

/// The base and the extension that aliases for a name are made from.
fn basis_name(name: &[char], codepage: &Codepage) -> (basis: (Vec<u8>, Vec<u8>))
    ensures
        basis.0@ == basis_base(name@, *codepage),
        basis.1@ == basis_extension(name@, *codepage),
        basis.0@.len() <= 8,
        basis.1@.len() <= 3,
{
    let mut from: usize = 0;
    let total: usize = name.len();
    assert(name@.skip(0) =~= name@);
    while from < total && (name[from] == '.' || name[from] == ' ')
        invariant
            total == name@.len(),
            from <= total,
            stripped(name@) == stripped(name@.skip(from as int)),
        decreases total - from,
    {
        assert(name@.skip(from as int).skip(1) =~= name@.skip(from + 1));
        from += 1;
    }
    let rest: &[char] = &name[from..total];
    assert(rest@ =~= name@.skip(from as int));
    let (base, extension) = split_extension(rest);
    (mangle(base, 8, codepage), mangle(extension, 3, codepage))
}

/// A number's decimal digits.
fn digits_of(n: u32) -> (out: Vec<u8>)
    requires
        n <= MAX_TAIL,
    ensures
        out@ == digits(n as int),
        1 <= out@.len() <= 6,
    decreases n,
{
    proof {
        reveal_with_fuel(ten_to, 7);
        lemma_digits_length(n as int, 6);
    }
    let mut out: Vec<u8> = if n < 10 {
        Vec::new()
    } else {
        digits_of(n / 10)
    };
    out.push((0x30 + n % 10) as u8);
    assert(out@ =~= digits(n as int));
    out
}

/// A power of ten.
spec fn ten_to(n: int) -> int
    decreases n,
{
    if n <= 0 {
        1
    } else {
        10 * ten_to(n - 1)
    }
}

/// A number below a power of ten has no more digits than that.
proof fn lemma_digits_length(n: int, width: int)
    requires
        0 <= n < ten_to(width),
        1 <= width <= 6,
    ensures
        1 <= digits(n).len() <= width,
    decreases width,
{
    reveal_with_fuel(ten_to, 7);
    if n >= 10 {
        lemma_digits_length(n / 10, width - 1);
    }
}

/// The eleven bytes of the alias numbered `tail`.
fn with_tail(base: &[u8], extension: &[u8], tail: u32) -> (raw: [u8; 11])
    requires
        base@.len() <= 8,
        extension@.len() <= 3,
        1 <= tail <= MAX_TAIL,
    ensures
        raw@ == tailed(base@, extension@, tail as int),
{
    let number: Vec<u8> = digits_of(tail);
    let room: usize = 7 - number.len();
    let keep: usize = if base.len() < room {
        base.len()
    } else {
        room
    };
    let mut raw: [u8; 11] = [0x20u8;11];
    let mut n: usize = 0;
    while n < keep
        invariant
            n <= keep <= base@.len(),
            keep <= 6,
            forall|i: int|
                0 <= i < 11 ==> raw@[i] == (if i < n {
                    base@[i]
                } else {
                    0x20
                }),
        decreases keep - n,
    {
        raw[n] = base[n];
        n += 1;
    }
    raw[keep] = 0x7E;
    let ghost before = raw@;
    n = 0;
    while n < number.len()
        invariant
            n <= number@.len(),
            keep + 1 + number@.len() <= 8,
            forall|i: int|
                0 <= i < 11 ==> raw@[i] == (if keep + 1 <= i < keep + 1 + n {
                    number@[i - keep - 1]
                } else {
                    before[i]
                }),
        decreases number@.len() - n,
    {
        raw[keep + 1 + n] = number[n];
        n += 1;
    }
    let ghost middle = raw@;
    n = 0;
    while n < extension.len()
        invariant
            n <= extension@.len() <= 3,
            forall|i: int|
                0 <= i < 11 ==> raw@[i] == (if 8 <= i < 8 + n {
                    extension@[i - 8]
                } else {
                    middle[i]
                }),
        decreases extension@.len() - n,
    {
        raw[8 + n] = extension[n];
        n += 1;
    }
    assert(raw@ =~= tailed(base@, extension@, tail as int));
    raw
}

/// The slot that holds the `sequence`th piece of a long name.
fn name_slot(units: &[u16], sequence: usize, count: usize, sum: u8) -> (slot: [u8; ENTRY_SIZE])
    requires
        1 <= sequence <= count,
        count == slots_for(units@.len() as int),
        units@.len() <= MAX_LONG_NAME,
    ensures
        slot@ == long_slot(units@, sequence as int, sum),
{
    let mut slot: [u8; ENTRY_SIZE] = [0u8;ENTRY_SIZE];
    slot[0] = sequence as u8 + if sequence == count {
        0x40
    } else {
        0
    };
    slot[0x0B] = 0x0F;
    slot[0x0D] = sum;
    let from: usize = (sequence - 1) * CHARS_PER_SLOT;
    let mut n: usize = 0;
    while n < CHARS_PER_SLOT
        invariant
            n <= 13,
            from == 13 * (sequence - 1),
            1 <= sequence <= 20,
            slot@.len() == 32,
            units@.len() <= MAX_LONG_NAME,
            forall|b: int|
                0 <= b < 32 ==> slot@[b] == (if b == 0 || b == 0x0B || b == 0x0D || b == 0x0C || b
                    == 0x1A || b == 0x1B || unit_of_byte(b) < n {
                    long_slot(units@, sequence as int, sum)[b]
                } else {
                    0
                }),
        decreases 13 - n,
    {
        let unit: u16 = if from + n < units.len() {
            units[from + n]
        } else if from + n == units.len() {
            0x0000
        } else {
            0xFFFF
        };
        let at: usize = unit_offset(n);
        let ghost before = slot@;
        slot[at] = (unit % 0x100) as u8;
        slot[at + 1] = (unit / 0x100) as u8;
        assert(unit == stored_unit(units@, 13 * (sequence - 1) + n));
        assert forall|b: int| 0 <= b < 32 implies slot@[b] == (if b == 0 || b == 0x0B || b == 0x0D
            || b == 0x0C || b == 0x1A || b == 0x1B || unit_of_byte(b) < n + 1 {
            long_slot(units@, sequence as int, sum)[b]
        } else {
            0
        }) by {
            if b == at {
                assert(unit_of_byte(b) == n);
            } else if b == at + 1 {
                assert(unit_of_byte(b) == n);
            } else {
                assert(slot@[b] == before[b]);
                assert(b == 0 || b == 0x0B || b == 0x0D || b == 0x0C || b == 0x1A || b == 0x1B
                    || unit_of_byte(b) != n);
            }
        }
        n += 1;
    }
    assert(slot@ =~= long_slot(units@, sequence as int, sum));
    slot
}

/// Which unit of a long-name slot a byte belongs to.
spec fn unit_of_byte(b: int) -> int {
    if b <= 0x0A {
        (b - 1) / 2
    } else if b <= 0x19 {
        5 + (b - 0x0E) / 2
    } else {
        11 + (b - 0x1C) / 2
    }
}

/// The slots of a long name, last piece first.
fn long_name_slots(units: &[u16], sum: u8) -> (slots: Vec<[u8; ENTRY_SIZE]>)
    requires
        units@.len() <= MAX_LONG_NAME,
    ensures
        Seq::new(slots@.len(), |i: int| slots@[i]@) == long_slots(units@, sum),
{
    let count: usize = (units.len() + 12) / CHARS_PER_SLOT;
    let mut slots: Vec<[u8; ENTRY_SIZE]> = Vec::new();
    let mut sequence: usize = count;
    while sequence > 0
        invariant
            sequence <= count,
            count == slots_for(units@.len() as int),
            units@.len() <= MAX_LONG_NAME,
            slots@.len() == count - sequence,
            forall|i: int|
                0 <= i < slots@.len() ==> #[trigger] slots@[i]@ == long_slot(
                    units@,
                    count - i,
                    sum,
                ),
        decreases sequence,
    {
        slots.push(name_slot(units, sequence, count, sum));
        sequence -= 1;
    }
    assert(Seq::new(slots@.len(), |i: int| slots@[i]@) =~= long_slots(units@, sum));
    slots
}

/// Whether `taken`, asked about any name, answers as `answers` says.
pub open spec fn answers_as<F: Fn(&str) -> bool>(
    taken: F,
    answers: spec_fn(Seq<char>) -> bool,
) -> bool {
    forall|name: &str, answer: bool| #[trigger]
        call_ensures(taken, (name,), answer) ==> answer == answers(name@)
}

/// The form `name` is to be stored in, in a directory where `taken` tells
/// which names are in use.
pub fn stored_name<E, F: Fn(&str) -> bool>(name: &str, codepage: &Codepage, taken: &F) -> (result:
    crate::error::Result<StoredName, E>)
    requires
        forall|alias: &str| #[trigger] call_requires(*taken, (alias,)),
    ensures
        forall|answers: spec_fn(Seq<char>) -> bool| #[trigger]
            answers_as(*taken, answers) ==> match result {
                Ok(stored) => planned(name@, *codepage, answers) == Ok::<StoredView, Fault>(
                    stored@,
                ),
                Err(error) => planned(name@, *codepage, answers) == Err::<StoredView, Fault>(
                    error@,
                ),
            },
        match result {
            Ok(stored) => stored@.slots.len() <= 20 && stored@.short.wf(),
            Err(error) => error is BadName || error is NoAliasAvailable,
        },
{
    let chars: Vec<char> = text::chars_of(name);
    let units: Vec<u16> = match long_name_units(chars.as_slice()) {
        Some(units) => units,
        None => {
            return Err(Error::BadName { name: name.to_owned() });
        },
    };
    if let Some(short) = exact_8_3(name, codepage) {
        let stored = StoredName { short, slots: Vec::new() };
        assert(stored@.slots =~= Seq::<Seq<u8>>::empty());
        proof {
            short.lemma_wf();
        }
        return Ok(stored);
    }
    if let Some(direct) = direct_8_3(chars.as_slice(), codepage) {
        let short = ShortName::from_raw(direct.raw, 0);
        let shown: String = short.to_display_string_with(codepage);
        if !taken(shown.as_str()) {
            let slots: Vec<[u8; ENTRY_SIZE]> = long_name_slots(units.as_slice(), short.checksum());
            let stored = StoredName { short, slots };
            assert(stored@ =~= with_alias(name@, short@));
            return Ok(stored);
        }
    }
    let (base, extension) = basis_name(chars.as_slice(), codepage);
    let mut tail: u32 = 1;
    while tail <= MAX_TAIL
        invariant
            1 <= tail <= MAX_TAIL + 1,
            chars@ == name@,
            storable(name@),
            units@ == text::utf16(name@),
            base@ == basis_base(name@, *codepage),
            extension@ == basis_extension(name@, *codepage),
            base@.len() <= 8,
            extension@.len() <= 3,
            forall|alias: &str| #[trigger] call_requires(*taken, (alias,)),
            forall|answers: spec_fn(Seq<char>) -> bool| #[trigger]
                answers_as(*taken, answers) ==> planned(name@, *codepage, answers) == first_alias(
                    name@,
                    *codepage,
                    answers,
                    tail as int,
                ),
        decreases MAX_TAIL + 1 - tail,
    {
        let short = ShortName::from_raw(
            with_tail(base.as_slice(), extension.as_slice(), tail),
            0,
        );
        let shown: String = short.to_display_string_with(codepage);
        if !taken(shown.as_str()) {
            let slots: Vec<[u8; ENTRY_SIZE]> = long_name_slots(units.as_slice(), short.checksum());
            let stored = StoredName { short, slots };
            assert(stored@ =~= with_alias(name@, short@));
            return Ok(stored);
        }
        tail += 1;
    }
    Err(Error::NoAliasAvailable { name: name.to_owned() })
}

impl ShortName {
    /// The 8.3 name that says `name` exactly, for names in ASCII.
    pub fn from_8_3(name: &str) -> (short: Option<Self>)
        ensures
            ({
                let ascii = Codepage::spec_ascii();
                match short {
                    Some(short) => exact(name@, ascii) == Some(short@) && short@.display(ascii)
                        == name@,
                    None => exact(name@, ascii) is None,
                }
            }),
    {
        exact_8_3(name, &Codepage::ASCII())
    }
}

/// The units of a text without control characters and without U+FFFF are
/// neither terminator nor filling.
proof fn lemma_plain_units(name: Seq<char>)
    requires
        forall|i: int| 0 <= i < name.len() ==> name[i] as u32 != 0 && name[i] as u32 != 0xFFFF,
    ensures
        forall|q: int|
            0 <= q < text::utf16(name).len() ==> #[trigger] text::utf16(name)[q] != 0x0000
                && text::utf16(name)[q] != 0xFFFF,
        name.len() > 0 ==> text::utf16(name).len() > 0,
    decreases name.len(),
{
    if name.len() > 0 {
        lemma_plain_units(name.skip(1));
        lemma_plain_unit(name[0]);
        let (first, rest) = (text::char_units(name[0]), text::utf16(name.skip(1)));
        assert forall|q: int| 0 <= q < text::utf16(name).len() implies #[trigger] text::utf16(
            name,
        )[q] != 0x0000 && text::utf16(name)[q] != 0xFFFF by {
            if q < first.len() {
                assert(text::utf16(name)[q] == first[q]);
            } else {
                assert(text::utf16(name)[q] == rest[q - first.len()]);
            }
        }
    }
}

proof fn lemma_plain_unit(c: char)
    requires
        c as u32 != 0,
        c as u32 != 0xFFFF,
    ensures
        forall|q: int|
            0 <= q < text::char_units(c).len() ==> #[trigger] text::char_units(c)[q] != 0x0000
                && text::char_units(c)[q] != 0xFFFF,
        text::char_units(c).len() > 0,
{
}

/// The units of a slot read back as they were stored.
proof fn lemma_slot_units(units: Seq<u16>, sequence: int, sum: u8, n: int)
    requires
        0 <= n < 13,
        1 <= sequence,
    ensures
        bytes::u16_at(long_slot(units, sequence, sum), dir::char_offset(n)) == stored_unit(
            units,
            13 * (sequence - 1) + n,
        ),
{
    let slot = long_slot(units, sequence, sum);
    let unit = stored_unit(units, 13 * (sequence - 1) + n);
    let at = dir::char_offset(n);
    assert(slot[at] == bytes::u16_bytes(unit)[0]);
    assert(slot[at + 1] == bytes::u16_bytes(unit)[1]);
}

/// The name ends where its terminator is, or where its slots do.
proof fn lemma_name_length(stored: Seq<u16>, length: int)
    requires
        0 <= length <= stored.len(),
        forall|q: int|
            0 <= q < length ==> #[trigger] stored[q] != 0x0000 && stored[q] != 0xFFFF,
        length < stored.len() ==> stored[length] == 0x0000,
    ensures
        dir::name_length(stored) == length,
    decreases length,
{
    if length > 0 {
        let rest = stored.skip(1);
        assert forall|q: int| 0 <= q < length - 1 implies #[trigger] rest[q] != 0x0000 && rest[q]
            != 0xFFFF by {
            assert(rest[q] == stored[q + 1]);
        }
        lemma_name_length(rest, length - 1);
    }
}

/// A long name reads back as it was stored: the entry that follows its
/// slots, with the checksum they carry, has that long name, and no other
/// slots count as part of it. A name that holds U+FFFF, which the format
/// uses as filling, is the one kind that does not.
pub proof fn lemma_long_name_round_trip(data: Seq<u8>, s: int, i: int, name: Seq<char>, sum: u8)
    requires
        storable(name),
        forall|j: int| 0 <= j < name.len() ==> name[j] as u32 != 0xFFFF,
        0 <= s,
        i < dir::slot_count(data),
        i == s + slots_for(text::utf16(name).len() as int),
        forall|k: int|
            0 <= k < i - s ==> #[trigger] dir::slot(data, s + k) == long_slots(
                text::utf16(name),
                sum,
            )[k],
        dir::checksum_of(dir::slot(data, i).subrange(0, 11)) == sum,
    ensures
        dir::long_name_of(data, i) == Some(name),
{
    let units = text::utf16(name);
    let count = slots_for(units.len() as int);
    assert forall|j: int| 0 <= j < name.len() implies name[j] as u32 != 0 by {
        assert(!reserved(name[j]));
    }
    lemma_plain_units(name);
    assert(1 <= count <= 20);
    assert forall|k: int| 0 <= k < count implies {
        let slot = #[trigger] dir::slot(data, s + k);
        &&& slot[0] == count - k + (if k == 0 {
            0x40int
        } else {
            0
        })
        &&& slot[0x0B] == 0x0F
        &&& slot[0x0D] == sum
    } by {
        assert(dir::slot(data, s + k) == long_slot(units, count - k, sum));
    }
    assert(dir::slot(data, s + 0)[0] == count + 0x40);
    assert(dir::counts_down(data, s, i)) by {
        assert forall|t: int| s < t < i implies {
            &&& #[trigger] dir::is_long(data, t)
            &&& dir::slot(data, t)[0] == dir::announced(data, s) - (t - s)
            &&& dir::slot(data, t)[0x0D] == dir::slot(data, s)[0x0D]
        } by {
            assert(dir::slot(data, s + (t - s))[0] == count - (t - s));
        }
    }
    assert(dir::names(data, s, i, sum));
    assert forall|other: int| dir::names(data, other, i, sum) implies other == s by {
        if other > s {
            assert(dir::slot(data, s + (other - s))[0] == count - (other - s));
        } else if other < s {
            assert(dir::is_long(data, s));
        }
    }
    let stored = dir::name_units(data, i, count);
    assert forall|q: int| 0 <= q < 13 * count implies stored[q] == stored_unit(units, q) by {
        let k = count - 1 - q / 13;
        assert(dir::slot(data, s + k) == long_slot(units, count - k, sum));
        lemma_slot_units(units, count - k, sum, q % 13);
    }
    lemma_name_length(stored, units.len() as int);
    assert(stored.take(units.len() as int) =~= units);
    text::lemma_utf16_round_trip(name);
}

/// Whether a slot's bytes mark it as in use.
pub open spec fn marks_use(byte: u8) -> bool {
    byte != 0 && byte != dir::DELETED
}

/// What holds of every form a name is stored in: eleven bytes of 8.3 name
/// that mark their slot as in use, and either nothing else, or the slots of
/// the long name under an alias that is not taken.
pub proof fn lemma_planned(
    name: Seq<char>,
    codepage: Codepage,
    taken: spec_fn(Seq<char>) -> bool,
)
    requires
        planned(name, codepage, taken) is Ok,
    ensures
        ({
            let stored = planned(name, codepage, taken)->Ok_0;
            &&& storable(name)
            &&& stored.short.wf()
            &&& marks_use(stored.short.raw[0])
            &&& stored.slots.len() <= 20
            &&& stored.slots.len() == 0 || {
                &&& stored.slots == long_slots(
                    text::utf16(name),
                    dir::checksum_of(stored.short.raw),
                )
                &&& !taken(stored.short.display(codepage))
                &&& stored.short.case_flags == 0
            }
            &&& stored.slots.len() == 0 ==> exact(name, codepage) == Some(stored.short)
                && stored.short.display(codepage) == name
        }),
{
    let stored = planned(name, codepage, taken)->Ok_0;
    lemma_utf16_length(name);
    if fits(name, codepage) {
        let raw = direct_raw(name, codepage);
        assert(short_byte(base_part(name)[0], codepage) is Some);
        assert(raw[0] == short_byte(base_part(name)[0], codepage)->0);
        assert(raw.len() == 11);
    }
    if exact(name, codepage) is None {
        let short = ShortView::escaped(direct_raw(name, codepage), 0);
        if !(fits(name, codepage) && !taken(short.display(codepage))) {
            lemma_first_alias(name, codepage, taken, 1);
        }
    }
}

/// What holds of every numbered alias.
proof fn lemma_first_alias(
    name: Seq<char>,
    codepage: Codepage,
    taken: spec_fn(Seq<char>) -> bool,
    tail: int,
)
    requires
        first_alias(name, codepage, taken, tail) is Ok,
        1 <= tail,
    ensures
        ({
            let stored = first_alias(name, codepage, taken, tail)->Ok_0;
            &&& stored == with_alias(name, stored.short)
            &&& stored.short.wf()
            &&& marks_use(stored.short.raw[0])
            &&& stored.short.case_flags == 0
            &&& !taken(stored.short.display(codepage))
        }),
    decreases MAX_TAIL + 1 - tail,
{
    if tail <= MAX_TAIL {
        let base = basis_base(name, codepage);
        let raw = tailed(base, basis_extension(name, codepage), tail);
        let short = ShortView::escaped(raw, 0);
        if taken(short.display(codepage)) {
            lemma_first_alias(name, codepage, taken, tail + 1);
        } else {
            reveal_with_fuel(ten_to, 7);
            lemma_digits_length(tail, 6);
            lemma_mangled_marks(base_part(stripped(name)), codepage);
            let front = at_most(base, 7 - digits(tail).len());
            assert(raw.len() == 11);
            assert(raw[0] == (front.push(0x7E) + digits(tail))[0]);
            if front.len() > 0 {
                assert(front[0] == mangled(base_part(stripped(name)), codepage)[0]);
            }
        }
    }
}

/// The bytes of an alias are bytes that may stand in one.
proof fn lemma_mangled_marks(field: Seq<char>, codepage: Codepage)
    ensures
        forall|i: int|
            0 <= i < mangled(field, codepage).len() ==> #[trigger] mangled(field, codepage)[i] != 0,
    decreases field.len(),
{
    if field.len() > 0 {
        lemma_mangled_marks(field.drop_last(), codepage);
        let before = mangled(field.drop_last(), codepage);
        let all = mangled(field, codepage);
        assert forall|i: int| 0 <= i < all.len() implies #[trigger] all[i] != 0 by {
            if i < before.len() {
                assert(all[i] == before[i]);
            }
        }
    }
}

/// A text that is not empty has units.
proof fn lemma_utf16_length(name: Seq<char>)
    ensures
        name.len() > 0 ==> text::utf16(name).len() > 0,
{
}

/// The slots of a long name are marked as in use, and as pieces of one.
pub proof fn lemma_long_slots(units: Seq<u16>, sum: u8, k: int)
    requires
        0 < units.len() <= MAX_LONG_NAME,
        0 <= k < long_slots(units, sum).len(),
    ensures
        long_slots(units, sum)[k].len() == 32,
        marks_use(long_slots(units, sum)[k][0]),
        long_slots(units, sum)[k][0x0B] == 0x0F,
        long_slots(units, sum).len() == slots_for(units.len() as int),
{
}

} // verus!
