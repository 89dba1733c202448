//! Which names can be stored, and what is stored of them, character by
//! character and byte by byte.
use vstd::prelude::*;

use crate::codepage;
use crate::codepage::Codepage;
use crate::dir;
use crate::dir::ShortView;
use crate::error::Fault;
use crate::geometry;
use crate::geometry::pair;
use crate::name;
use crate::name::StoredView;
use crate::slots;
use crate::slots::byte;
use crate::text;

verus! {

/// How many UTF-16 units a text takes: one for each character, and one more
/// for each past the first 65536.
pub open spec fn units(name: Seq<char>) -> int
    decreases name.len(),
{
    if name.len() == 0 {
        0
    } else {
        units(name.skip(1)) + if name[0] as u32 >= 65536 {
            2int
        } else {
            1
        }
    }
}

/// A text takes as many units as its characters do.
pub proof fn lemma_units(name: Seq<char>)
    ensures
        text::utf16(name).len() == units(name),
        name.len() <= units(name) <= 2 * name.len(),
    decreases name.len(),
{
    if name.len() > 0 {
        lemma_units(name.skip(1));
    }
}

/// Whether a character may stand in a name: it is no control character and
/// none of the nine that paths and patterns are made of.
pub open spec fn may_stand(c: char) -> bool {
    c as u32 >= 32 && !seq!['"', '*', '/', ':', '<', '>', '?', '\\', '|'].contains(c)
}

/// A name can be stored exactly if it is not empty, does not begin with a
/// space, ends in neither a space nor a period, takes no more than 255 units,
/// and is made of characters that may stand in one.
pub proof fn lemma_storable(name: Seq<char>)
    ensures
        name::storable(name) <==> {
            &&& 0 < units(name) <= 255
            &&& name[0] != ' '
            &&& name[name.len() - 1] != ' '
            &&& name[name.len() - 1] != '.'
            &&& forall|i: int| 0 <= i < name.len() ==> may_stand(#[trigger] name[i])
        },
{
    lemma_units(name);
    if name::storable(name) {
        assert forall|i: int| 0 <= i < name.len() implies may_stand(#[trigger] name[i]) by {
            assert(!name::reserved(name[i]));
            lemma_nine(name[i]);
        }
    }
    if forall|i: int| 0 <= i < name.len() ==> may_stand(#[trigger] name[i]) {
        assert forall|i: int| 0 <= i < name.len() implies !name::reserved(#[trigger] name[i]) by {
            assert(may_stand(name[i]));
            lemma_nine(name[i]);
        }
    }
}

/// The nine characters, one by one.
proof fn lemma_nine(c: char)
    ensures
        seq!['"', '*', '/', ':', '<', '>', '?', '\\', '|'].contains(c) <==> c == '"' || c == '*' || c
            == '/' || c == ':' || c == '<' || c == '>' || c == '?' || c == '\\' || c == '|',
{
    let nine = seq!['"', '*', '/', ':', '<', '>', '?', '\\', '|'];
    assert(nine[0] == '"' && nine[1] == '*' && nine[2] == '/' && nine[3] == ':' && nine[4] == '<'
        && nine[5] == '>' && nine[6] == '?' && nine[7] == '\\' && nine[8] == '|');
}

/// A name of up to 255 ASCII letters, digits, hyphens, underscores and
/// periods can be stored, unless it ends in a period.
pub proof fn lemma_portable_names(name: Seq<char>)
    requires
        0 < name.len() <= 255,
        forall|i: int|
            0 <= i < name.len() ==> {
                let c = #[trigger] name[i];
                'a' <= c <= 'z' || 'A' <= c <= 'Z' || '0' <= c <= '9' || c == '-' || c == '_' || c
                    == '.'
            },
        name[name.len() - 1] != '.',
    ensures
        name::storable(name),
{
    lemma_ascii_units(name);
    assert forall|i: int| 0 <= i < name.len() implies may_stand(#[trigger] name[i]) by {
        lemma_nine(name[i]);
    }
    let c = name[0];
    let last = name[name.len() - 1];
    lemma_storable(name);
}

/// An ASCII text takes one unit for each character.
proof fn lemma_ascii_units(name: Seq<char>)
    requires
        forall|i: int| 0 <= i < name.len() ==> (#[trigger] name[i] as u32) < 128,
    ensures
        units(name) == name.len(),
    decreases name.len(),
{
    if name.len() > 0 {
        lemma_ascii_units(name.skip(1));
    }
}

/// The text of the alias of a name that ends in the number `tail`.
pub open spec fn numbered(name: Seq<char>, codepage: Codepage, tail: int) -> Seq<char> {
    ShortView::escaped(
        name::tailed(
            name::basis_base(name, codepage),
            name::basis_extension(name, codepage),
            tail,
        ),
        0,
    ).display(codepage)
}

/// A name that cannot be stored is refused as that; one that can be is given a
/// form to be stored in, unless each of its 999999 numbered aliases is taken.
pub proof fn lemma_planned(
    name: Seq<char>,
    codepage: Codepage,
    taken: spec_fn(Seq<char>) -> bool,
)
    ensures
        !name::storable(name) ==> name::planned(name, codepage, taken) == Err::<StoredView, Fault>(
            Fault::BadName { name },
        ),
        name::storable(name) ==> name::planned(name, codepage, taken) is Ok || {
            &&& name::planned(name, codepage, taken) == Err::<StoredView, Fault>(
                Fault::NoAliasAvailable { name },
            )
            &&& forall|tail: int|
                1 <= tail <= 999_999 ==> taken(#[trigger] numbered(name, codepage, tail))
        },
        name::planned(name, codepage, taken) matches Ok(stored) ==> stored.slots.len() == 0
            || !taken(stored.short.display(codepage)),
{
    if name::storable(name) {
        if name::planned(name, codepage, taken) is Ok {
            name::lemma_planned(name, codepage, taken);
        } else {
            lemma_none_free(name, codepage, taken, 1);
        }
    }
}

/// Where no alias is found, each is taken.
proof fn lemma_none_free(
    name: Seq<char>,
    codepage: Codepage,
    taken: spec_fn(Seq<char>) -> bool,
    tail: int,
)
    requires
        1 <= tail,
        name::first_alias(name, codepage, taken, tail) is Err,
    ensures
        name::first_alias(name, codepage, taken, tail) == Err::<StoredView, Fault>(
            Fault::NoAliasAvailable { name },
        ),
        forall|t: int| tail <= t <= 999_999 ==> taken(#[trigger] numbered(name, codepage, t)),
    decreases 1_000_000 - tail,
{
    if tail <= 999_999 {
        assert(taken(numbered(name, codepage, tail)));
        lemma_none_free(name, codepage, taken, tail + 1);
    }
}

/// The numbered alias that is taken for a name is the first that is free.
pub proof fn lemma_first_free(
    name: Seq<char>,
    codepage: Codepage,
    taken: spec_fn(Seq<char>) -> bool,
    from: int,
    tail: int,
)
    requires
        1 <= from <= tail <= 999_999,
        !taken(numbered(name, codepage, tail)),
        forall|t: int| from <= t < tail ==> taken(#[trigger] numbered(name, codepage, t)),
    ensures
        name::first_alias(name, codepage, taken, from) matches Ok(stored)
            && stored.short.display(codepage) == numbered(name, codepage, tail),
    decreases tail - from,
{
    if from < tail {
        assert(taken(numbered(name, codepage, from)));
        lemma_first_free(name, codepage, taken, from + 1, tail);
    }
}

/// How many decimal digits a number of up to six has.
pub open spec fn width(n: int) -> int {
    if n < 10 {
        1
    } else if n < 100 {
        2
    } else if n < 1000 {
        3
    } else if n < 10_000 {
        4
    } else if n < 100_000 {
        5
    } else {
        6
    }
}

/// The `k`th decimal digit of a number from the left.
pub open spec fn digit(n: int, k: int) -> int {
    let up = width(n) - 1 - k;
    (if up == 0 {
        n
    } else if up == 1 {
        n / 10
    } else if up == 2 {
        n / 100
    } else if up == 3 {
        n / 1000
    } else if up == 4 {
        n / 10_000
    } else {
        n / 100_000
    }) % 10
}

/// A number in digits.
proof fn lemma_digits(n: int)
    requires
        0 <= n <= 999_999,
    ensures
        name::digits(n).len() == width(n),
        forall|k: int| 0 <= k < width(n) ==> #[trigger] name::digits(n)[k] == 48 + digit(n, k),
    decreases n,
{
    if n >= 10 {
        lemma_digits(n / 10);
        assert(width(n) == width(n / 10) + 1);
        assert(n / 10 / 10 == n / 100 && n / 10 / 100 == n / 1000 && n / 10 / 1000 == n / 10_000
            && n / 10 / 10_000 == n / 100_000);
        assert forall|k: int| 0 <= k < width(n) implies #[trigger] name::digits(n)[k] == 48
            + digit(n, k) by {
            if k < width(n) - 1 {
                assert(name::digits(n)[k] == name::digits(n / 10)[k]);
            }
        }
    }
}

/// A numbered alias is as much of the base as leaves room for a tilde and the
/// number, then those, then spaces up to eight; and the extension, with spaces
/// up to three.
pub proof fn lemma_alias_bytes(base: Seq<u8>, extension: Seq<u8>, tail: int, i: int)
    requires
        1 <= tail <= 999_999,
        0 <= i < 11,
        extension.len() <= 3,
    ensures
        ({
            let raw = name::tailed(base, extension, tail);
            let room = 7 - width(tail);
            let kept = if base.len() <= room {
                base.len() as int
            } else {
                room
            };
            &&& raw.len() == 11
            &&& raw[i] == (if i < kept {
                base[i] as int
            } else if i == kept {
                126
            } else if i <= kept + width(tail) {
                48 + digit(tail, i - kept - 1)
            } else if 8 <= i < 8 + extension.len() {
                extension[i - 8] as int
            } else {
                32
            })
        }),
{
    lemma_digits(tail);
}

/// A name's bytes for its alias are those of its characters, but for periods
/// and spaces, which are left out; a character that has none gives an
/// underscore.
pub proof fn lemma_alias_basis(field: Seq<char>, codepage: Codepage)
    ensures
        name::mangled(field, codepage) == field.filter(
            |c: char| c != '.' && c != ' ',
        ).map_values(
            |c: char|
                match name::short_byte(c, codepage) {
                    Some(byte) => byte,
                    None => 95u8,
                },
        ),
    decreases field.len(),
{
    let kept = |c: char| c != '.' && c != ' ';
    let stored = |c: char|
        match name::short_byte(c, codepage) {
            Some(byte) => byte,
            None => 95u8,
        };
    reveal(Seq::filter);
    if field.len() > 0 {
        lemma_alias_basis(field.drop_last(), codepage);
        let before = field.drop_last().filter(kept);
        if kept(field.last()) {
            assert(before.push(field.last()).map_values(stored) =~= before.map_values(stored).push(
                stored(field.last()),
            ));
        }
    } else {
        assert(field.filter(kept).map_values(stored) =~= Seq::<u8>::empty());
    }
}

/// Whether a byte may stand in an 8.3 name: no control byte, no space, and
/// none of sixteen others.
pub proof fn lemma_short_bytes(byte: u8)
    ensures
        dir::valid_short_byte(byte) <==> byte > 32 && !seq![
            34u8,
            42u8,
            43u8,
            44u8,
            46u8,
            47u8,
            58u8,
            59u8,
            60u8,
            61u8,
            62u8,
            63u8,
            91u8,
            92u8,
            93u8,
            124u8,
        ].contains(byte),
{
    let others = seq![
        34u8,
        42u8,
        43u8,
        44u8,
        46u8,
        47u8,
        58u8,
        59u8,
        60u8,
        61u8,
        62u8,
        63u8,
        91u8,
        92u8,
        93u8,
        124u8,
    ];
    assert(others[0] == 34 && others[1] == 42 && others[2] == 43 && others[3] == 44 && others[4]
        == 46 && others[5] == 47 && others[6] == 58 && others[7] == 59 && others[8] == 60
        && others[9] == 61 && others[10] == 62 && others[11] == 63 && others[12] == 91
        && others[13] == 92 && others[14] == 93 && others[15] == 124);
}

/// What a piece of a long name says: its number from the end of the name, with
/// 64 added in the last, which is stored first; the mark of such a slot; the
/// checksum; and thirteen units, five, six and two together, then a zero after
/// the last of the name, and all bits set after that.
pub proof fn lemma_piece(units: Seq<u16>, sequence: int, sum: u8, k: int)
    requires
        1 <= sequence <= 20,
        0 <= k < 13,
    ensures
        ({
            let slot = name::long_slot(units, sequence, sum);
            let at = if k < 5 {
                1 + 2 * k
            } else if k < 11 {
                4 + 2 * k
            } else {
                6 + 2 * k
            };
            let q = 13 * (sequence - 1) + k;
            &&& slot.len() == 32
            &&& slot[0] == (if 13 * sequence >= units.len() && 13 * (sequence - 1) < units.len() {
                sequence + 64
            } else {
                sequence
            })
            &&& slot[11] == 15
            &&& slot[12] == 0
            &&& slot[13] == sum
            &&& slot[26] == 0
            &&& slot[27] == 0
            &&& pair(slot, at) == (if q < units.len() {
                units[q] as int
            } else if q == units.len() {
                0
            } else {
                65535
            })
        }),
{
    let slot = name::long_slot(units, sequence, sum);
    let unit = name::stored_unit(units, 13 * (sequence - 1) + k);
    let at = if k < 5 {
        1 + 2 * k
    } else if k < 11 {
        4 + 2 * k
    } else {
        6 + 2 * k
    };
    assert(slot[at] == crate::bytes::u16_bytes(unit)[0]);
    assert(slot[at + 1] == crate::bytes::u16_bytes(unit)[1]);
}

/// The units of a stored piece are read from where they are written.
pub proof fn lemma_unit_places(k: int)
    requires
        0 <= k < 13,
    ensures
        dir::char_offset(k) == (if k < 5 {
            1 + 2 * k
        } else if k < 11 {
            4 + 2 * k
        } else {
            6 + 2 * k
        }),
{
}

/// The checksum of an 8.3 name takes its bytes one after another: the sum so
/// far turns right by a bit, and the byte is added, modulo 256.
pub proof fn lemma_checksum(raw: Seq<u8>, byte: u8)
    ensures
        dir::checksum_of(Seq::empty()) == 0,
        ({
            let sum = dir::checksum_of(raw);
            dir::checksum_of(raw.push(byte)) == (((sum >> 1) | (sum << 7)) + byte) % 256
        }),
{
    let sum = dir::checksum_of(raw);
    assert(raw.push(byte).drop_last() =~= raw);
    assert(sum / 2 + sum % 2 * 128 == (sum >> 1) | (sum << 7)) by (bit_vector);
}

/// The characters of a stored field are those that its bytes stand for, but
/// for spaces, which are left out; a byte that stands for nothing shows as the
/// replacement character.
pub proof fn lemma_shown_field(field: Seq<u8>, codepage: Codepage)
    ensures
        dir::decoded_field(field, false, codepage) == field.filter(
            |byte: u8| byte != 32,
        ).map_values(
            |byte: u8|
                match codepage.decodes(byte) {
                    Some(c) => c,
                    None => '\u{FFFD}',
                },
        ),
    decreases field.len(),
{
    let kept = |byte: u8| byte != 32;
    let shown = |byte: u8|
        match codepage.decodes(byte) {
            Some(c) => c,
            None => '\u{FFFD}',
        };
    reveal(Seq::filter);
    if field.len() > 0 {
        lemma_shown_field(field.drop_last(), codepage);
        let before = field.drop_last().filter(kept);
        if kept(field.last()) {
            assert(before.push(field.last()).map_values(shown) =~= before.map_values(shown).push(
                shown(field.last()),
            ));
        }
    } else {
        assert(field.filter(kept).map_values(shown) =~= Seq::<char>::empty());
    }
}

/// An 8.3 name is shown as its base, eight bytes, and, after a period, its
/// extension, three; without either where there is no extension. The first
/// byte stands for 0xE5 where it is 5. Bit 3 of the case flags shows the base
/// in lower case, and bit 4 the extension.
pub proof fn lemma_shown_name(short: ShortView, codepage: Codepage)
    requires
        short.raw.len() == 11,
    ensures
        ({
            let raw = if short.raw[0] == 5 {
                seq![229u8] + short.raw.skip(1)
            } else {
                short.raw
            };
            let base = dir::decoded_field(
                raw.take(8),
                short.case_flags & 8 != 0,
                codepage,
            );
            let extension = dir::decoded_field(
                raw.skip(8),
                short.case_flags & 16 != 0,
                codepage,
            );
            short.display(codepage) == (if extension.len() == 0 {
                base
            } else {
                base + seq!['.'] + extension
            })
        }),
{
    let flags = short.case_flags;
    assert(flags & 8 != 0 <==> flags / 8 % 2 == 1) by (bit_vector);
    assert(flags & 16 != 0 <==> flags / 16 % 2 == 1) by (bit_vector);
    let raw = if short.raw[0] == 5 {
        seq![229u8] + short.raw.skip(1)
    } else {
        short.raw
    };
    assert(raw =~= short.unescaped());
    assert(raw.take(8) =~= raw.subrange(0, 8));
    assert(raw.skip(8) =~= raw.subrange(8, 11));
    let (base, extension) = (short.base(codepage), short.extension(codepage));
    assert(base.push('.') + extension =~= base + seq!['.'] + extension);
}

/// Whether a character may stand in an 8.3 name: an ASCII one past the space
/// that is none of the sixteen.
pub open spec fn may_stand_short(c: char) -> bool {
    32 < c as u32 && (c as u32) < 128 && c != '"' && c != '*' && c != '+' && c != ',' && c != '.'
        && c != '/' && c != ':' && c != ';' && c != '<' && c != '=' && c != '>' && c != '?' && c
        != '[' && c != '\\' && c != ']' && c != '|'
}

/// Whether a field of a name is in one case: capitals in it, or small letters,
/// but not both.
pub open spec fn one_case(field: Seq<char>) -> bool {
    ||| forall|i: int| 0 <= i < field.len() ==> !('a' <= #[trigger] field[i] <= 'z')
    ||| forall|i: int| 0 <= i < field.len() ==> !('A' <= #[trigger] field[i] <= 'Z')
}

/// The byte of a character that may stand in an 8.3 name is that of its
/// capital.
proof fn lemma_short_char(c: char)
    requires
        may_stand_short(c),
    ensures
        name::short_byte(c, Codepage::spec_ascii()) == Some(
            (if 'a' <= c <= 'z' {
                c as u32 - 32
            } else {
                c as u32 as int
            }) as u8,
        ),
        name::turns_back(c),
        may_stand(c),
{
    Codepage::lemma_ascii();
    reveal(text::char_uppercase);
    reveal(text::char_lowercase);
    let upper = text::ascii_upper(c);
    assert(text::char_uppercase(c) == seq![upper]);
    assert(Codepage::spec_ascii().encodes(upper) == Some(upper as u8));
    assert(dir::valid_short_byte(upper as u8));
    assert(text::char_lowercase(upper) =~= seq![text::ascii_lower(upper)]);
    lemma_nine(c);
}

/// The period of a name with an extension is the last.
proof fn lemma_period_at(base: Seq<char>, extension: Seq<char>)
    requires
        forall|i: int| 0 <= i < extension.len() ==> #[trigger] extension[i] != '.',
    ensures
        text::last_position(base.push('.') + extension, '.') == Some(base.len() as int),
    decreases extension.len(),
{
    let whole = base.push('.') + extension;
    if extension.len() > 0 {
        let fewer = extension.drop_last();
        lemma_period_at(base, fewer);
        assert(extension[extension.len() - 1] != '.');
        assert(whole.last() == extension.last());
        assert(whole.drop_last() =~= base.push('.') + fewer);
    } else {
        assert(whole =~= base.push('.'));
    }
}

/// A text without a period has no last one.
proof fn lemma_no_period(field: Seq<char>)
    requires
        forall|i: int| 0 <= i < field.len() ==> #[trigger] field[i] != '.',
    ensures
        text::last_position(field, '.') is None,
    decreases field.len(),
{
    if field.len() > 0 {
        assert(field[field.len() - 1] != '.');
        lemma_no_period(field.drop_last());
    }
}

/// The name that a base and an extension make.
pub open spec fn joined(base: Seq<char>, extension: Seq<char>) -> Seq<char> {
    if extension.len() > 0 {
        base.push('.') + extension
    } else {
        base
    }
}

/// The eleven bytes of a base and an extension: capitals, and spaces.
pub open spec fn capitals(base: Seq<char>, extension: Seq<char>) -> Seq<u8> {
    Seq::new(
        11,
        |i: int|
            if i < base.len() {
                capital(base[i])
            } else if 8 <= i < 8 + extension.len() {
                capital(extension[i - 8])
            } else {
                32
            },
    )
}

/// What a name of that shape is made of.
proof fn lemma_eight_and_three(base: Seq<char>, extension: Seq<char>)
    requires
        1 <= base.len() <= 8,
        extension.len() <= 3,
        forall|i: int| 0 <= i < base.len() ==> may_stand_short(#[trigger] base[i]),
        forall|i: int| 0 <= i < extension.len() ==> may_stand_short(#[trigger] extension[i]),
    ensures
        ({
            let name = joined(base, extension);
            let ascii = Codepage::spec_ascii();
            &&& name::storable(name)
            &&& name::fits(name, ascii)
            &&& name::base_part(name) == base
            &&& name::extension_part(name) == extension
            &&& name::direct_raw(name, ascii) == capitals(base, extension)
            &&& text::all_ascii(name)
            &&& units(name) == name.len()
            &&& capital(base[0]) != 0xE5
        }),
{
    let codepage = Codepage::spec_ascii();
    let name = joined(base, extension);
    assert forall|i: int| 0 <= i < base.len() implies name::short_byte(
        #[trigger] base[i],
        codepage,
    ) is Some && name::turns_back(base[i]) && name::short_byte(base[i], codepage)->0 == capital(
        base[i],
    ) && may_stand(base[i]) by {
        lemma_short_char(base[i]);
    }
    assert forall|i: int| 0 <= i < extension.len() implies name::short_byte(
        #[trigger] extension[i],
        codepage,
    ) is Some && name::turns_back(extension[i]) && name::short_byte(extension[i], codepage)->0
        == capital(extension[i]) && may_stand(extension[i]) by {
        lemma_short_char(extension[i]);
    }
    assert forall|i: int| 0 <= i < name.len() implies may_stand(#[trigger] name[i]) && (
    name[i] as u32) < 128 by {
        if i < base.len() {
            assert(name[i] == base[i]);
        } else if i == base.len() {
            lemma_nine('.');
        } else {
            assert(name[i] == extension[i - base.len() - 1]);
        }
    }
    assert(name[0] == base[0]);
    assert(may_stand_short(base[0]) && may_stand_short(base[base.len() - 1]));
    if extension.len() > 0 {
        assert(may_stand_short(extension[extension.len() - 1]));
        assert(name[name.len() - 1] == extension[extension.len() - 1]);
        lemma_period_at(base, extension);
        assert(name.take(base.len() as int) =~= base);
        assert(name.skip(base.len() as int + 1) =~= extension);
    } else {
        lemma_no_period(base);
    }
    lemma_ascii_units(name);
    lemma_storable(name);
    let raw = name::direct_raw(name, codepage);
    assert(raw =~= capitals(base, extension));
    assert(raw[0] == capital(base[0]));
    assert(text::all_ascii(name));
}

/// A base of one to eight characters that may stand in an 8.3 name, in one
/// case, alone or with a period and an extension of up to three, is stored as
/// that 8.3 name and nothing else: its letters as capitals, padded with spaces,
/// and a bit for each part that is in small letters.
pub proof fn lemma_short_names(
    base: Seq<char>,
    extension: Seq<char>,
    taken: spec_fn(Seq<char>) -> bool,
)
    requires
        1 <= base.len() <= 8,
        extension.len() <= 3,
        forall|i: int| 0 <= i < base.len() ==> may_stand_short(#[trigger] base[i]),
        forall|i: int| 0 <= i < extension.len() ==> may_stand_short(#[trigger] extension[i]),
        one_case(base),
        one_case(extension),
    ensures
        ({
            let name = if extension.len() > 0 {
                base.push('.') + extension
            } else {
                base
            };
            let planned = name::planned(name, Codepage::spec_ascii(), taken);
            &&& planned is Ok
            &&& planned->Ok_0.slots.len() == 0
            &&& planned->Ok_0.short.raw.len() == 11
            &&& forall|i: int|
                0 <= i < 11 ==> #[trigger] planned->Ok_0.short.raw[i] == (if i < base.len() {
                    capital(base[i])
                } else if 8 <= i < 8 + extension.len() {
                    capital(extension[i - 8])
                } else {
                    32
                })
            &&& planned->Ok_0.short.display(Codepage::spec_ascii()) == name
        }),
{
    let codepage = Codepage::spec_ascii();
    let name = joined(base, extension);
    lemma_eight_and_three(base, extension);
    lemma_one_case(base);
    lemma_one_case(extension);
    crate::ascii::lemma_ascii_name(name);
    assert(name::direct_raw(name, codepage)[0] == capital(base[0]));
}

/// Such a name in mixed case is stored whole beside its capitals, where nothing
/// else is shown as those: thirteen of its characters to a slot.
pub proof fn lemma_mixed_names(
    base: Seq<char>,
    extension: Seq<char>,
    taken: spec_fn(Seq<char>) -> bool,
)
    requires
        1 <= base.len() <= 8,
        extension.len() <= 3,
        forall|i: int| 0 <= i < base.len() ==> may_stand_short(#[trigger] base[i]),
        forall|i: int| 0 <= i < extension.len() ==> may_stand_short(#[trigger] extension[i]),
        !one_case(base) || !one_case(extension),
        !taken(
            (ShortView { raw: capitals(base, extension), case_flags: 0 }).display(
                Codepage::spec_ascii(),
            ),
        ),
    ensures
        ({
            let name = joined(base, extension);
            let planned = name::planned(name, Codepage::spec_ascii(), taken);
            &&& planned is Ok
            &&& planned->Ok_0.short.raw == capitals(base, extension)
            &&& planned->Ok_0.short.case_flags == 0
            &&& planned->Ok_0.slots.len() == (name.len() + 12) / 13
        }),
{
    let codepage = Codepage::spec_ascii();
    let name = joined(base, extension);
    lemma_eight_and_three(base, extension);
    lemma_units(name);
    if !one_case(base) {
        lemma_two_cases(base);
    } else {
        lemma_two_cases(extension);
    }
    assert(name::direct_raw(name, codepage)[0] == capital(base[0]));
}

/// A field with capitals and small letters is in no one case.
proof fn lemma_two_cases(field: Seq<char>)
    requires
        !one_case(field),
    ensures
        name::case_of(field) is None,
{
    reveal(text::lowercase_letter);
    reveal(text::uppercase_letter);
    let i = choose|i: int| 0 <= i < field.len() && 'a' <= #[trigger] field[i] <= 'z';
    let j = choose|j: int| 0 <= j < field.len() && 'A' <= #[trigger] field[j] <= 'Z';
    assert(text::lowercase_letter(field[i]));
    assert(text::uppercase_letter(field[j]));
}

/// The byte of a letter's capital, or of another character.
pub open spec fn capital(c: char) -> u8 {
    (if 'a' <= c <= 'z' {
        c as u32 - 32
    } else {
        c as u32 as int
    }) as u8
}

/// A field in one case is shown in that.
proof fn lemma_one_case(field: Seq<char>)
    requires
        forall|i: int| 0 <= i < field.len() ==> may_stand_short(#[trigger] field[i]),
        one_case(field),
    ensures
        name::case_of(field) is Some,
{
    reveal(text::lowercase_letter);
    reveal(text::uppercase_letter);
    if name::has_lower(field) && name::has_upper(field) {
        let i = choose|i: int| 0 <= i < field.len() && text::lowercase_letter(#[trigger] field[i]);
        let j = choose|j: int| 0 <= j < field.len() && text::uppercase_letter(#[trigger] field[j]);
        assert(may_stand_short(field[i]) && may_stand_short(field[j]));
    }
}

/// Whether the slots from `s` up to `i` are the pieces of one name: no more
/// than twenty, each marked as such, numbered down to one with 64 added to the
/// first, and each with the checksum `sum`.
pub open spec fn pieces(data: Seq<u8>, s: int, i: int, sum: u8) -> bool {
    &&& 0 <= s < i <= s + 20
    &&& forall|t: int|
        s <= t < i ==> {
            &&& #[trigger] byte(data, t, 0) == (if t == s {
                64 + i - t
            } else {
                i - t
            })
            &&& byte(data, t, 11) == 15
            &&& byte(data, t, 13) == sum
        }
}

/// Unit `q` of a name whose pieces stand before slot `i`.
pub open spec fn unit(data: Seq<u8>, i: int, q: int) -> int {
    let k = q % 13;
    pair(
        data,
        32 * (i - 1 - q / 13) + if k < 5 {
            1 + 2 * k
        } else if k < 11 {
            4 + 2 * k
        } else {
            6 + 2 * k
        },
    )
}

/// Whole pieces are found to be that, and nothing else is.
proof fn lemma_pieces(data: Seq<u8>, s: int, i: int, sum: u8)
    requires
        i < data.len() as int / 32,
    ensures
        dir::names(data, s, i, sum) <==> pieces(data, s, i, sum),
{
    if 0 <= s < i {
        assert forall|t: int| s <= t < i implies (#[trigger] dir::slot(data, t))[0] == byte(data, t, 0)
            && dir::slot(data, t)[11] == byte(data, t, 11) && dir::slot(data, t)[13] == byte(
            data,
            t,
            13,
        ) by {
            slots::lemma_slot_kinds(data, t);
        }
        slots::lemma_slot_kinds(data, s);
        assert(dir::slot(data, s)[0] == byte(data, s, 0));
    }
    if pieces(data, s, i, sum) {
        assert(byte(data, s, 0) == 64 + i - s);
        assert forall|t: int| s < t < i implies {
            &&& #[trigger] dir::is_long(data, t)
            &&& dir::slot(data, t)[0] == dir::announced(data, s) - (t - s)
            &&& dir::slot(data, t)[0x0D] == dir::slot(data, s)[0x0D]
        } by {
            slots::lemma_slot_kinds(data, t);
            assert(byte(data, t, 0) == i - t);
        }
    }
    if dir::names(data, s, i, sum) {
        assert forall|t: int| s <= t < i implies {
            &&& #[trigger] byte(data, t, 0) == (if t == s {
                64 + i - t
            } else {
                i - t
            })
            &&& byte(data, t, 11) == 15
            &&& byte(data, t, 13) == sum
        } by {
            slots::lemma_slot_kinds(data, t);
            assert(dir::slot(data, t)[0] == byte(data, t, 0));
            if t > s {
                assert(dir::is_long(data, t));
            }
        }
    }
}

/// An entry has a long name exactly if whole pieces with the checksum of its
/// 8.3 name stand right before it, and say something: their units, up to a
/// zero or one with all bits set, as text.
pub proof fn lemma_long_name(data: Seq<u8>, i: int)
    requires
        0 <= i < data.len() as int / 32,
    ensures
        ({
            let sum = dir::checksum_of(data.subrange(32 * i, 32 * i + 11));
            &&& (forall|s: int| !#[trigger] pieces(data, s, i, sum)) ==> dir::long_name_of(data, i)
                is None
            &&& forall|s: int, said: Seq<u16>| #[trigger]
                pieces(data, s, i, sum) && #[trigger] says(data, s, i, said)
                    ==> dir::long_name_of(data, i) == (if said.len() == 0 {
                    None
                } else {
                    Some(text::from_utf16(said))
                })
        }),
{
    let sum = dir::checksum_of(data.subrange(32 * i, 32 * i + 11));
    assert(dir::slot(data, i).subrange(0, 11) =~= data.subrange(32 * i, 32 * i + 11));
    assert forall|s: int| #[trigger] dir::names(data, s, i, sum) == pieces(data, s, i, sum) by {
        lemma_pieces(data, s, i, sum);
    }
    assert forall|s: int, said: Seq<u16>| #[trigger]
        pieces(data, s, i, sum) && #[trigger] says(data, s, i, said) implies dir::long_name_of(
        data,
        i,
    ) == (if said.len() == 0 {
        None
    } else {
        Some(text::from_utf16(said))
    }) by {
        assert(dir::names(data, s, i, sum));
        let t = choose|t: int| dir::names(data, t, i, sum);
        lemma_one_start(data, s, t, i, sum);
        lemma_said(data, s, i, said);
        lemma_some_text(said);
    }
}

/// Whether `said` is what the pieces from `s` up to `i` say: their units, up
/// to the first that ends a name.
pub open spec fn says(data: Seq<u8>, s: int, i: int, said: Seq<u16>) -> bool {
    &&& said.len() <= 13 * (i - s)
    &&& forall|q: int|
        0 <= q < said.len() ==> #[trigger] said[q] == unit(data, i, q) && said[q] != 0 && said[q]
            != 65535
    &&& said.len() < 13 * (i - s) ==> unit(data, i, said.len() as int) == 0 || unit(
        data,
        i,
        said.len() as int,
    ) == 65535
}

/// A name has one first piece.
proof fn lemma_one_start(data: Seq<u8>, s: int, t: int, i: int, sum: u8)
    requires
        pieces(data, s, i, sum),
        pieces(data, t, i, sum),
    ensures
        s == t,
{
    if s < t {
        assert(byte(data, t, 0) == i - t);
    } else if t < s {
        assert(byte(data, s, 0) == i - s);
    }
}

/// The units of pieces up to their end.
proof fn lemma_said(data: Seq<u8>, s: int, i: int, said: Seq<u16>)
    requires
        0 <= s < i < data.len() as int / 32,
        says(data, s, i, said),
    ensures
        ({
            let units = dir::name_units(data, i, i - s);
            units.take(dir::name_length(units)) == said
        }),
{
    let units = dir::name_units(data, i, i - s);
    assert forall|q: int| 0 <= q < units.len() implies #[trigger] units[q] == unit(data, i, q) by {
        let t = i - 1 - q / 13;
        let k = q % 13;
        lemma_unit_places(k);
        slots::lemma_slot_kinds(data, t);
        let at = dir::char_offset(k);
        geometry::lemma_fields(dir::slot(data, t), at);
        assert(dir::slot(data, t)[at] == byte(data, t, at));
        assert(dir::slot(data, t)[at + 1] == byte(data, t, at + 1));
    }
    assert forall|q: int| 0 <= q < said.len() implies units[q] == #[trigger] said[q] by {}
    if said.len() < units.len() {
        assert(units[said.len() as int] == unit(data, i, said.len() as int));
    }
    assert forall|q: int| 0 <= q < said.len() implies #[trigger] units[q] != 0 && units[q] != 65535
        by {
        assert(units[q] == said[q]);
    }
    lemma_length(units, said.len() as int);
    assert(units.take(said.len() as int) =~= said);
}

/// A name ends at its first unit that ends one.
proof fn lemma_length(units: Seq<u16>, n: int)
    requires
        0 <= n <= units.len(),
        forall|q: int| 0 <= q < n ==> #[trigger] units[q] != 0 && units[q] != 65535,
        n < units.len() ==> units[n] == 0 || units[n] == 65535,
    ensures
        dir::name_length(units) == n,
    decreases n,
{
    if n > 0 {
        assert(units[0] != 0 && units[0] != 65535);
        let rest = units.skip(1);
        assert forall|q: int| 0 <= q < n - 1 implies #[trigger] rest[q] != 0 && rest[q] != 65535 by {
            assert(rest[q] == units[q + 1]);
        }
        lemma_length(rest, n - 1);
    }
}

/// Some units are some text.
proof fn lemma_some_text(units: Seq<u16>)
    ensures
        units.len() == 0 <==> text::from_utf16(units).len() == 0,
{
}

/// A character below the surrogates, or past them among the first 65536, is one
/// unit of its own number, and such a unit is that character.
pub proof fn lemma_plain_units(text: Seq<char>)
    requires
        forall|i: int|
            0 <= i < text.len() ==> (#[trigger] text[i] as u32) < 55296 || 57344 <= text[i] as u32
                && (text[i] as u32) < 65536,
    ensures
        text::utf16(text).len() == text.len(),
        forall|i: int|
            0 <= i < text.len() ==> #[trigger] text::utf16(text)[i] as u32 == text[i] as u32,
        text::from_utf16(text::utf16(text)) == text,
    decreases text.len(),
{
    if text.len() > 0 {
        let rest = text.skip(1);
        assert forall|i: int| 0 <= i < rest.len() implies (#[trigger] rest[i] as u32) < 55296
            || 57344 <= rest[i] as u32 && (rest[i] as u32) < 65536 by {
            assert(rest[i] == text[i + 1]);
        }
        lemma_plain_units(rest);
        let c = text[0];
        assert((c as u32) < 55296 || 57344 <= c as u32 && (c as u32) < 65536);
        assert forall|i: int| 0 <= i < text.len() implies #[trigger] text::utf16(text)[i] as u32
            == text[i] as u32 by {
            if i > 0 {
                assert(text::utf16(text)[i] == text::utf16(rest)[i - 1]);
                assert(rest[i - 1] == text[i]);
            }
        }
    }
    text::lemma_utf16_round_trip(text);
}

/// A character past the first 65536 is two units: 55296 and 56320, with the
/// upper and the lower ten bits of what it is past that.
pub proof fn lemma_paired_units(c: char)
    requires
        c as u32 >= 65536,
    ensures
        text::utf16(seq![c]).len() == 2,
        text::utf16(seq![c])[0] == 55296 + (c as u32 - 65536) / 1024,
        text::utf16(seq![c])[1] == 56320 + (c as u32 - 65536) % 1024,
        text::from_utf16(text::utf16(seq![c])) == seq![c],
{
    assert(seq![c].skip(1) =~= Seq::<char>::empty());
    reveal_with_fuel(text::utf16, 2);
    text::lemma_utf16_round_trip(seq![c]);
}

/// A name's base is what comes before its last period and its extension what
/// comes after it; without a period it is all base. Periods and spaces at its
/// start are no part of its alias.
pub proof fn lemma_parts(base: Seq<char>, extension: Seq<char>, c: char)
    requires
        forall|i: int| 0 <= i < extension.len() ==> #[trigger] extension[i] != '.',
    ensures
        name::base_part(base.push('.') + extension) == base,
        name::extension_part(base.push('.') + extension) == extension,
        name::base_part(extension) == extension,
        name::extension_part(extension) == Seq::<char>::empty(),
        c == '.' || c == ' ' ==> name::stripped(seq![c] + base) == name::stripped(base),
        c != '.' && c != ' ' ==> name::stripped(seq![c] + base) == seq![c] + base,
{
    lemma_period_at(base, extension);
    lemma_no_period(extension);
    let whole = base.push('.') + extension;
    assert(whole.take(base.len() as int) =~= base);
    assert(whole.skip(base.len() as int + 1) =~= extension);
    assert((seq![c] + base).skip(1) =~= base);
}

/// What an alias is made from: of the base no more than the first eight bytes,
/// and of the extension no more than three.
pub proof fn lemma_basis(name: Seq<char>, codepage: Codepage)
    ensures
        ({
            let kept = name::stripped(name);
            let base = name::mangled(name::base_part(kept), codepage);
            let extension = name::mangled(name::extension_part(kept), codepage);
            &&& base.len() <= 8 ==> name::basis_base(name, codepage) == base
            &&& base.len() > 8 ==> name::basis_base(name, codepage) == base.subrange(0, 8)
            &&& extension.len() <= 3 ==> name::basis_extension(name, codepage) == extension
            &&& extension.len() > 3 ==> name::basis_extension(name, codepage)
                == extension.subrange(0, 3)
        }),
{
}

/// The byte of a character is that of its capital, where the codepage has one
/// and it may stand in an 8.3 name.
pub proof fn lemma_byte_of(c: char, codepage: Codepage)
    ensures
        ({
            let upper = text::char_uppercase(c);
            name::short_byte(c, codepage) == (if upper.len() == 1 && codepage.encodes(upper[0])
                is Some && dir::valid_short_byte(codepage.encodes(upper[0])->0) {
                codepage.encodes(upper[0])
            } else {
                None
            })
        }),
        (c as u32) < 128 ==> text::char_uppercase(c) == seq![
            if 'a' <= c <= 'z' {
                (c as u32 - 32) as char
            } else {
                c
            },
        ],
{
    reveal(text::char_uppercase);
}

/// Of the pairs of a codepage the first that has a character decides.
pub proof fn lemma_first_pair(pairs: Seq<(char, u8)>, c: char, n: int)
    requires
        0 <= n <= pairs.len(),
        forall|k: int| 0 <= k < n ==> (#[trigger] pairs[k]).0 != c,
        n < pairs.len() ==> pairs[n].0 == c,
    ensures
        codepage::first_match(pairs, c) == (if n < pairs.len() {
            Some(pairs[n].1)
        } else {
            None
        }),
    decreases n,
{
    if n > 0 {
        assert(pairs[0].0 != c);
        let rest = pairs.skip(1);
        assert forall|k: int| 0 <= k < n - 1 implies (#[trigger] rest[k]).0 != c by {
            assert(rest[k] == pairs[k + 1]);
        }
        lemma_first_pair(rest, c, n - 1);
    }
}

/// Outside ASCII, Unicode says what a capital is, what a small letter is, and
/// which is which.
pub proof fn lemma_other_letters(c: char, other: Seq<char>, i: int)
    requires
        c as u32 >= 128,
        0 <= i < other.len(),
        other[i] as u32 >= 128,
    ensures
        text::char_uppercase(c) == text::unicode_char_uppercase(c),
        text::char_lowercase(c) == text::unicode_char_lowercase(c),
        text::lowercase_letter(c) == text::unicode_lowercase_letter(c),
        text::uppercase_letter(c) == text::unicode_uppercase_letter(c),
        text::uppercase(other) == text::unicode_uppercase(other),
{
    reveal(text::char_uppercase);
    reveal(text::char_lowercase);
    reveal(text::lowercase_letter);
    reveal(text::uppercase_letter);
    reveal(text::uppercase);
    assert(!text::is_ascii(other[i]));
}

/// A unit that is no half of a pair is its character; two halves that follow
/// on one another are one character; and a half by itself is shown as the
/// replacement character.
pub proof fn lemma_single_units(unit: u16, rest: Seq<u16>)
    ensures
        ({
            let whole = seq![unit] + rest;
            let shown = text::from_utf16(whole);
            let first_half = 0xD800 <= unit <= 0xDBFF;
            let second_half = 0xDC00 <= unit <= 0xDFFF;
            let paired = first_half && rest.len() > 0 && 0xDC00 <= rest[0] <= 0xDFFF;
            &&& !first_half && !second_half ==> shown == seq![unit as char] + text::from_utf16(rest)
            &&& paired ==> shown == seq![
                (65536 + 1024 * (unit - 0xD800) + (rest[0] - 0xDC00)) as char,
            ] + text::from_utf16(rest.skip(1))
            &&& (first_half || second_half) && !paired ==> shown == seq!['\u{FFFD}']
                + text::from_utf16(rest)
        }),
{
    let whole = seq![unit] + rest;
    assert(whole.skip(1) =~= rest);
    if rest.len() > 0 {
        assert(whole.skip(2) =~= rest.skip(1));
        assert(whole[1] == rest[0]);
    }
}

} // verus!
