//! That ASCII names read back from their 8.3 form.
use vstd::prelude::*;

use crate::codepage::Codepage;
use crate::dir;
use crate::dir::ShortView;
use crate::name;
use crate::text;

verus! {

/// The byte an ASCII character is stored as.
proof fn lemma_short_byte(c: char)
    requires
        text::is_ascii(c),
        name::short_byte(c, Codepage::spec_ascii()) is Some,
    ensures
        name::short_byte(c, Codepage::spec_ascii())->0 as char == text::ascii_upper(c),
        0x20 < name::short_byte(c, Codepage::spec_ascii())->0 < 0x80,
{
    reveal(text::char_uppercase);
    Codepage::lemma_ascii();
}

/// Whether a field's characters are all in the case it is to be shown in.
spec fn all_cased(field: Seq<char>, lower: bool) -> bool {
    forall|i: int|
        0 <= i < field.len() ==> if lower {
            !text::uppercase_letter(#[trigger] field[i])
        } else {
            !text::lowercase_letter(field[i])
        }
}

/// A field of ASCII characters reads back, shown in its own case.
proof fn lemma_field(field: Seq<char>, lower: bool)
    requires
        text::all_ascii(field),
        name::encodable(field, Codepage::spec_ascii()),
        all_cased(field, lower),
    ensures
        ({
            let bytes = Seq::new(
                field.len(),
                |i: int| name::short_byte(field[i], Codepage::spec_ascii())->0,
            );
            dir::decoded_field(bytes, lower, Codepage::spec_ascii()) == field
        }),
    decreases field.len(),
{
    let codepage = Codepage::spec_ascii();
    let bytes = Seq::new(field.len(), |i: int| name::short_byte(field[i], codepage)->0);
    let shown = dir::decoded_field(bytes, lower, codepage);
    if field.len() > 0 {
        let fewer = field.drop_last();
        let fewer_bytes = Seq::new(fewer.len(), |i: int| name::short_byte(fewer[i], codepage)->0);
        assert(bytes.drop_last() =~= fewer_bytes);
        assert forall|i: int| 0 <= i < fewer.len() implies if lower {
            !text::uppercase_letter(#[trigger] fewer[i])
        } else {
            !text::lowercase_letter(fewer[i])
        } by {
            assert(fewer[i] == field[i]);
        }
        lemma_field(fewer, lower);
        let c = field[field.len() - 1];
        lemma_short_byte(c);
        Codepage::lemma_ascii();
        reveal(text::char_lowercase);
        reveal(text::uppercase_letter);
        reveal(text::lowercase_letter);
        let last = if lower {
            text::ascii_lower(text::ascii_upper(c))
        } else {
            text::ascii_upper(c)
        };
        assert(last == c);
        assert(shown =~= fewer.push(last));
        assert(field =~= fewer.push(c));
    } else {
        assert(shown =~= field);
    }
}

/// Padding is left out of what is shown.
proof fn lemma_padding(bytes: Seq<u8>, more: nat, lower: bool, codepage: Codepage)
    ensures
        dir::decoded_field(bytes + Seq::new(more, |i: int| 0x20u8), lower, codepage)
            == dir::decoded_field(bytes, lower, codepage),
    decreases more,
{
    let all = bytes + Seq::new(more, |i: int| 0x20u8);
    if more > 0 {
        let fewer = (more - 1) as nat;
        lemma_padding(bytes, fewer, lower, codepage);
        assert(all.drop_last() =~= bytes + Seq::new(fewer, |i: int| 0x20u8));
    } else {
        assert(all =~= bytes);
    }
}

/// A padded field reads back.
proof fn lemma_padded(field: Seq<char>, width: nat, lower: bool)
    requires
        text::all_ascii(field),
        name::encodable(field, Codepage::spec_ascii()),
        all_cased(field, lower),
        field.len() <= width,
    ensures
        dir::decoded_field(
            name::padded(field, width, Codepage::spec_ascii()),
            lower,
            Codepage::spec_ascii(),
        ) == field,
{
    let codepage = Codepage::spec_ascii();
    let bytes = Seq::new(field.len(), |i: int| name::short_byte(field[i], codepage)->0);
    let more = (width - field.len()) as nat;
    assert(name::padded(field, width, codepage) =~= bytes + Seq::new(more, |i: int| 0x20u8));
    lemma_padding(bytes, more, lower, codepage);
    lemma_field(field, lower);
}

/// An ASCII name that fits an 8.3 name, and whose base and extension are each
/// in one case, is said exactly by one: shown, it is the name again.
pub proof fn lemma_ascii_name(name: Seq<char>)
    requires
        text::all_ascii(name),
        name::storable(name),
        name::fits(name, Codepage::spec_ascii()),
        name::direct_flags(name) is Some,
    ensures
        name::exact(name, Codepage::spec_ascii()) is Some,
        name::exact(name, Codepage::spec_ascii())->0.display(Codepage::spec_ascii()) == name,
{
    let codepage = Codepage::spec_ascii();
    let flags = name::direct_flags(name)->0;
    let raw = name::direct_raw(name, codepage);
    let short = ShortView::escaped(raw, flags);
    let (base, extension) = (name::base_part(name), name::extension_part(name));
    lemma_parts(name);
    let (low_base, low_extension) = (flags / 8 % 2 == 1, flags / 16 % 2 == 1);
    assert(name::short_byte(base[0], codepage) is Some);
    lemma_short_byte(base[0]);
    assert(raw[0] == name::short_byte(base[0], codepage)->0);
    assert(short.raw == raw);
    assert(short.unescaped() == raw);
    assert(raw.subrange(0, 8) =~= name::padded(base, 8, codepage));
    assert(raw.subrange(8, 11) =~= name::padded(extension, 3, codepage));
    assert(low_base == name::has_lower(base) && low_extension == name::has_lower(extension));
    lemma_padded(base, 8, low_base);
    lemma_padded(extension, 3, low_extension);
    assert(short.base(codepage) == base && short.extension(codepage) == extension);
    if extension.len() > 0 {
        assert(short.display(codepage) == base.push('.') + extension);
    }
}

/// Whether a character is an uppercase ASCII letter or a digit.
pub open spec fn is_capital(c: char) -> bool {
    'A' <= c <= 'Z' || '0' <= c <= '9'
}

/// One to eight capitals and digits, alone or with a period and one to three
/// more, are always said exactly by an 8.3 name.
pub proof fn lemma_capitals(base: Seq<char>, extension: Seq<char>)
    requires
        1 <= base.len() <= 8,
        extension.len() <= 3,
        forall|i: int| 0 <= i < base.len() ==> is_capital(#[trigger] base[i]),
        forall|i: int| 0 <= i < extension.len() ==> is_capital(#[trigger] extension[i]),
    ensures
        name::exact(
            if extension.len() > 0 {
                base.push('.') + extension
            } else {
                base
            },
            Codepage::spec_ascii(),
        ) is Some,
{
    let whole = if extension.len() > 0 {
        base.push('.') + extension
    } else {
        base
    };
    let codepage = Codepage::spec_ascii();
    assert forall|i: int| 0 <= i < whole.len() implies is_capital(#[trigger] whole[i]) || whole[i]
        == '.' by {
        if i > base.len() {
            assert(whole[i] == extension[i - base.len() - 1]);
        } else if i < base.len() {
            assert(whole[i] == base[i]);
        }
    }
    if extension.len() > 0 {
        lemma_dot_at(base, extension);
        assert(whole.take(base.len() as int) =~= base);
        assert(whole.skip(base.len() as int + 1) =~= extension);
        assert(whole.last() == extension.last());
    } else {
        lemma_no_dot(base);
    }
    lemma_units(whole);
    lemma_capital_field(base);
    lemma_capital_field(extension);
    lemma_ascii_name(whole);
}

/// A field of capitals has bytes, and no lowercase letter.
proof fn lemma_capital_field(field: Seq<char>)
    requires
        forall|i: int| 0 <= i < field.len() ==> is_capital(#[trigger] field[i]),
    ensures
        name::encodable(field, Codepage::spec_ascii()),
        !name::has_lower(field),
{
    let codepage = Codepage::spec_ascii();
    Codepage::lemma_ascii();
    reveal(text::char_uppercase);
    reveal(text::lowercase_letter);
    assert forall|i: int| 0 <= i < field.len() implies name::short_byte(
        #[trigger] field[i],
        codepage,
    ) is Some && name::turns_back(field[i]) by {
        let c = field[i];
        assert(is_capital(c));
        assert(text::char_uppercase(c) =~= seq![c]);
        assert(codepage.encodes(c) == Some(c as u8));
    }
}

/// A field of capitals has no period.
proof fn lemma_no_dot(field: Seq<char>)
    requires
        forall|i: int| 0 <= i < field.len() ==> is_capital(#[trigger] field[i]),
    ensures
        text::last_position(field, '.') is None,
    decreases field.len(),
{
    if field.len() > 0 {
        assert(is_capital(field[field.len() - 1]));
        assert forall|i: int| 0 <= i < field.drop_last().len() implies is_capital(
            #[trigger] field.drop_last()[i],
        ) by {
            assert(field.drop_last()[i] == field[i]);
        }
        lemma_no_dot(field.drop_last());
    }
}

/// The last period is the one before a field of capitals.
proof fn lemma_dot_at(base: Seq<char>, extension: Seq<char>)
    requires
        forall|i: int| 0 <= i < extension.len() ==> is_capital(#[trigger] extension[i]),
    ensures
        text::last_position(base.push('.') + extension, '.') == Some(base.len() as int),
    decreases extension.len(),
{
    let whole = base.push('.') + extension;
    if extension.len() > 0 {
        let fewer = extension.drop_last();
        assert(is_capital(extension[extension.len() - 1]));
        assert forall|i: int| 0 <= i < fewer.len() implies is_capital(#[trigger] fewer[i]) by {
            assert(fewer[i] == extension[i]);
        }
        lemma_dot_at(base, fewer);
        assert(whole.last() == extension.last());
        assert(whole.drop_last() =~= base.push('.') + fewer);
    } else {
        assert(whole =~= base.push('.'));
    }
}

/// A short ASCII text takes few units.
proof fn lemma_units(s: Seq<char>)
    requires
        forall|i: int| 0 <= i < s.len() ==> is_capital(#[trigger] s[i]) || s[i] == '.',
    ensures
        text::utf16(s).len() == s.len(),
    decreases s.len(),
{
    if s.len() > 0 {
        assert(is_capital(s[0]) || s[0] == '.');
        assert forall|i: int| 0 <= i < s.skip(1).len() implies is_capital(#[trigger] s.skip(1)[i])
            || s.skip(1)[i] == '.' by {
            assert(s.skip(1)[i] == s[i + 1]);
        }
        lemma_units(s.skip(1));
    }
}

/// A name is what comes before its last period, the period, and what comes
/// after it; a name that does not end with one has an extension if it has a
/// period.
proof fn lemma_parts(name: Seq<char>)
    requires
        text::all_ascii(name),
        name::storable(name),
    ensures
        text::all_ascii(name::base_part(name)),
        text::all_ascii(name::extension_part(name)),
        name::extension_part(name).len() > 0 ==> name == name::base_part(name).push('.')
            + name::extension_part(name),
        name::extension_part(name).len() == 0 ==> name == name::base_part(name),
{
    lemma_last_position(name, '.');
    match text::last_position(name, '.') {
        Some(at) => {
            assert(name =~= name.take(at).push('.') + name.skip(at + 1));
            assert(at != name.len() - 1);
        },
        None => {},
    }
}

/// Where the last of a character is.
proof fn lemma_last_position(s: Seq<char>, wanted: char)
    ensures
        text::last_position(s, wanted) matches Some(at) ==> 0 <= at < s.len() && s[at] == wanted,
    decreases s.len(),
{
    if s.len() > 0 {
        lemma_last_position(s.drop_last(), wanted);
    }
}

} // verus!
