//! Directories: what their slots hold, and how entries are written.
use vstd::prelude::*;

use crate::bytes;
use crate::bytes::{copy_into, read_u16, read_u32, write_u16, write_u32};
use crate::codepage::Codepage;
use crate::error::Error;
use crate::text;
use crate::time::{DateTime, Packed};

verus! {

/// Bytes in one directory slot.
pub const ENTRY_SIZE: usize = 32;

/// Marks a slot whose file was deleted.
pub const DELETED: u8 = 0xE5;

/// Marks a slot that was never used. Nothing in use follows it.
pub const END_OF_DIRECTORY: u8 = 0x00;

/// Stands in the first byte of a name for 0xE5, which would otherwise mark
/// the slot as deleted.
pub const ESCAPED_E5: u8 = 0x05;

/// Set in the sequence byte of the first slot of a long name.
pub const LAST_LONG_SLOT: u8 = 0x40;

/// The most slots a long name takes: 255 units, 13 to a slot.
pub const MAX_LONG_SLOTS: u8 = 20;

/// UTF-16 units in one long-name slot.
pub const CHARS_PER_SLOT: usize = 13;

/// The attribute bits of a directory entry.
#[derive(Debug, Clone, Copy, PartialEq, Eq, Structural)]
pub struct Attributes(u8);

impl Attributes {
    /// The bits.
    pub closed spec fn spec_bits(self) -> u8 {
        self.0
    }

    /// No attribute at all.
    #[allow(non_snake_case)]
    pub fn NONE() -> (attributes: Attributes)
        ensures
            attributes.spec_bits() == 0x00,
    {
        Attributes(0x00)
    }

    /// Not to be written to.
    #[allow(non_snake_case)]
    pub fn READ_ONLY() -> (attributes: Attributes)
        ensures
            attributes.spec_bits() == 0x01,
    {
        Attributes(0x01)
    }

    /// Left out of ordinary listings.
    #[allow(non_snake_case)]
    pub fn HIDDEN() -> (attributes: Attributes)
        ensures
            attributes.spec_bits() == 0x02,
    {
        Attributes(0x02)
    }

    /// Belongs to the operating system.
    #[allow(non_snake_case)]
    pub fn SYSTEM() -> (attributes: Attributes)
        ensures
            attributes.spec_bits() == 0x04,
    {
        Attributes(0x04)
    }

    /// The volume's label rather than a file.
    #[allow(non_snake_case)]
    pub fn VOLUME_ID() -> (attributes: Attributes)
        ensures
            attributes.spec_bits() == 0x08,
    {
        Attributes(0x08)
    }

    /// A directory.
    #[allow(non_snake_case)]
    pub fn DIRECTORY() -> (attributes: Attributes)
        ensures
            attributes.spec_bits() == 0x10,
    {
        Attributes(0x10)
    }

    /// Changed since it was last archived.
    #[allow(non_snake_case)]
    pub fn ARCHIVE() -> (attributes: Attributes)
        ensures
            attributes.spec_bits() == 0x20,
    {
        Attributes(0x20)
    }

    /// The four bits that together mark a slot of a long name.
    #[allow(non_snake_case)]
    pub fn LONG_NAME() -> (attributes: Attributes)
        ensures
            attributes.spec_bits() == 0x0F,
    {
        Attributes(0x0F)
    }

    /// Attributes with the given bits.
    pub fn from_bits(bits: u8) -> (attributes: Self)
        ensures
            attributes.spec_bits() == bits,
    {
        Attributes(bits)
    }

    /// The bits.
    pub fn bits(self) -> (bits: u8)
        ensures
            bits == self.spec_bits(),
    {
        self.0
    }

    /// Whether every bit of `other` is set.
    pub fn contains(self, other: Attributes) -> (yes: bool)
        ensures
            yes == (self.spec_bits() & other.spec_bits() == other.spec_bits()),
    {
        self.0 & other.0 == other.0
    }

    /// Whether the entry is a directory.
    pub fn is_directory(self) -> (yes: bool)
        ensures
            yes == (self.spec_bits() & 0x10 == 0x10),
    {
        self.contains(Attributes::DIRECTORY())
    }

    /// Whether the entry is a label (or a long-name slot).
    pub fn is_volume_id(self) -> (yes: bool)
        ensures
            yes == (self.spec_bits() & 0x08 == 0x08),
    {
        self.contains(Attributes::VOLUME_ID())
    }

    /// Whether the slot holds a piece of a long name.
    pub fn is_long_name(self) -> (yes: bool)
        ensures
            yes == (self.spec_bits() == 0x0F),
    {
        self.0 == 0x0F
    }
}

impl core::ops::BitOr for Attributes {
    type Output = Attributes;

    /// The bits of both.
    fn bitor(self, other: Attributes) -> (both: Attributes) {
        Attributes(self.0 | other.0)
    }
}

impl vstd::std_specs::ops::BitOrSpecImpl for Attributes {
    open spec fn obeys_bitor_spec() -> bool {
        true
    }

    open spec fn bitor_req(self, other: Attributes) -> bool {
        true
    }

    closed spec fn bitor_spec(self, other: Attributes) -> Attributes {
        Attributes(self.0 | other.0)
    }
}

impl Attributes {
    /// `a | b` has the bits of both.
    pub proof fn lemma_bitor(a: Attributes, b: Attributes)
        ensures
            vstd::std_specs::ops::BitOrSpec::bitor_spec(a, b).spec_bits() == (a.spec_bits()
                | b.spec_bits()),
    {
    }
}

impl core::ops::BitOrAssign for Attributes {
    /// Adds the bits of `other`.
    fn bitor_assign(&mut self, other: Attributes)
        ensures
            final(self).spec_bits() == (old(self).spec_bits() | other.spec_bits()),
    {
        self.0 = self.0 | other.0;
    }
}

/// An 8.3 name as a slot stores it.
#[derive(Debug, Clone, Copy, PartialEq, Eq)]
pub struct ShortName {
    raw: [u8; 11],
    case_flags: u8,
}

/// An 8.3 name as a mathematical value.
#[verifier::ext_equal]
pub struct ShortView {
    /// Eight bytes of base and three of extension, padded with spaces.
    pub raw: Seq<u8>,
    /// The bits that say which part is shown in lower case.
    pub case_flags: u8,
}

impl View for ShortName {
    type V = ShortView;

    closed spec fn view(&self) -> ShortView {
        ShortView { raw: self.raw@, case_flags: self.case_flags }
    }
}

/// The sum that ties a long name to its 8.3 entry: at each byte the sum so
/// far turns right by one bit before the byte is added.
pub open spec fn checksum_of(raw: Seq<u8>) -> u8
    decreases raw.len(),
{
    if raw.len() == 0 {
        0
    } else {
        let sum = checksum_of(raw.drop_last());
        ((sum / 2 + sum % 2 * 128 + raw.last()) % 256) as u8
    }
}

/// A field of an 8.3 name as text: padding left out, and the replacement
/// character for bytes that stand for nothing.
pub open spec fn decoded_field(field: Seq<u8>, lower: bool, codepage: Codepage) -> Seq<char>
    decreases field.len(),
{
    if field.len() == 0 {
        Seq::empty()
    } else {
        let before = decoded_field(field.drop_last(), lower, codepage);
        if field.last() == 0x20 {
            before
        } else {
            let character = match codepage.decodes(field.last()) {
                Some(character) => character,
                None => text::REPLACEMENT,
            };
            if lower {
                before + text::char_lowercase(character)
            } else {
                before.push(character)
            }
        }
    }
}

impl ShortView {
    /// There are eleven bytes.
    pub open spec fn wf(self) -> bool {
        self.raw.len() == 11
    }

    /// The bytes, with the stand-in for 0xE5 undone.
    pub open spec fn unescaped(self) -> Seq<u8> {
        if self.raw[0] == ESCAPED_E5 {
            self.raw.update(0, DELETED)
        } else {
            self.raw
        }
    }

    /// The base part as text.
    pub open spec fn base(self, codepage: Codepage) -> Seq<char> {
        decoded_field(self.unescaped().subrange(0, 8), self.case_flags / 8 % 2 == 1, codepage)
    }

    /// The extension as text.
    pub open spec fn extension(self, codepage: Codepage) -> Seq<char> {
        decoded_field(self.unescaped().subrange(8, 11), self.case_flags / 16 % 2 == 1, codepage)
    }

    /// The name as it is shown: a period only where there is an extension.
    pub open spec fn display(self, codepage: Codepage) -> Seq<char> {
        if self.extension(codepage).len() > 0 {
            self.base(codepage).push('.') + self.extension(codepage)
        } else {
            self.base(codepage)
        }
    }

    /// An 8.3 name with a leading 0xE5 replaced by its stand-in.
    pub open spec fn escaped(raw: Seq<u8>, case_flags: u8) -> ShortView {
        ShortView {
            raw: if raw[0] == DELETED {
                raw.update(0, ESCAPED_E5)
            } else {
                raw
            },
            case_flags,
        }
    }
}

impl ShortName {
    /// Every short name has eleven bytes.
    pub proof fn lemma_wf(&self)
        ensures
            self@.wf(),
    {
    }

    /// The name a slot holds.
    pub fn from_entry(entry: &[u8]) -> (name: Self)
        requires
            entry@.len() >= ENTRY_SIZE,
        ensures
            name@ == (ShortView { raw: entry@.subrange(0, 11), case_flags: entry@[0x0C] }),
    {
        let mut raw: [u8; 11] = [0u8;11];
        let mut n: usize = 0;
        while n < 11
            invariant
                n <= 11,
                entry@.len() >= 13,
                forall|i: int| 0 <= i < n ==> raw@[i] == entry@[i],
            decreases 11 - n,
        {
            raw[n] = entry[n];
            n += 1;
        }
        assert(raw@ =~= entry@.subrange(0, 11));
        ShortName { raw, case_flags: entry[0x0C] }
    }

    /// A name with the given bytes; a leading 0xE5 is stored as its stand-in.
    pub(crate) fn from_raw(raw: [u8; 11], case_flags: u8) -> (name: Self)
        ensures
            name@ == ShortView::escaped(raw@, case_flags),
    {
        let mut raw: [u8; 11] = raw;
        if raw[0] == DELETED {
            raw[0] = ESCAPED_E5;
        }
        ShortName { raw, case_flags }
    }

    /// The eleven bytes.
    pub fn as_bytes(&self) -> (raw: &[u8; 11])
        ensures
            raw@ == self@.raw,
    {
        &self.raw
    }

    /// The bits that say which part is shown in lower case.
    pub fn case_flags(&self) -> (flags: u8)
        ensures
            flags == self@.case_flags,
    {
        self.case_flags
    }

    /// The sum that ties a long name to this name.
    pub fn checksum(&self) -> (sum: u8)
        ensures
            sum == checksum_of(self@.raw),
    {
        let mut sum: u8 = 0;
        let mut n: usize = 0;
        while n < 11
            invariant
                n <= 11,
                sum == checksum_of(self.raw@.take(n as int)),
            decreases 11 - n,
        {
            assert(self.raw@.take(n + 1).drop_last() =~= self.raw@.take(n as int));
            sum = (((sum / 2) as u16 + (sum % 2) as u16 * 128 + self.raw[n] as u16) % 256) as u8;
            n += 1;
        }
        assert(self.raw@.take(11) =~= self.raw@);
        sum
    }

    /// The name as it is shown, for names in ASCII.
    pub fn to_display_string(&self) -> (name: String)
        ensures
            name@ == self@.display(Codepage::spec_ascii()),
    {
        self.to_display_string_with(&Codepage::ASCII())
    }

    /// The name as it is shown.
    pub fn to_display_string_with(&self, codepage: &Codepage) -> (name: String)
        ensures
            name@ == self@.display(*codepage),
    {
        let mut raw: [u8; 11] = self.raw;
        if raw[0] == ESCAPED_E5 {
            raw[0] = DELETED;
        }
        assert(raw@ =~= self@.unescaped());
        let mut name: String = String::new();
        push_decoded(&mut name, &raw, 0, 8, self.case_flags / 8 % 2 == 1, codepage);
        assert(name@ =~= self@.base(*codepage));
        let mut extension: String = String::new();
        push_decoded(&mut extension, &raw, 8, 11, self.case_flags / 16 % 2 == 1, codepage);
        assert(extension@ =~= self@.extension(*codepage));
        if !extension.as_str().is_empty() {
            name.push('.');
            name.append(extension.as_str());
        }
        name
    }
}

/// Adds bytes `from..to` of a name to `into`, as text.
fn push_decoded(
    into: &mut String,
    raw: &[u8; 11],
    from: usize,
    to: usize,
    lower: bool,
    codepage: &Codepage,
)
    requires
        from <= to <= 11,
    ensures
        final(into)@ == old(into)@ + decoded_field(
            raw@.subrange(from as int, to as int),
            lower,
            *codepage,
        ),
{
    let mut n: usize = from;
    assert(raw@.subrange(from as int, from as int) =~= Seq::<u8>::empty());
    assert(into@ =~= old(into)@ + decoded_field(
        raw@.subrange(from as int, n as int),
        lower,
        *codepage,
    ));
    while n < to
        invariant
            from <= n <= to <= 11,
            into@ == old(into)@ + decoded_field(
                raw@.subrange(from as int, n as int),
                lower,
                *codepage,
            ),
        decreases to - n,
    {
        let ghost before = raw@.subrange(from as int, n as int);
        let ghost field = raw@.subrange(from as int, n + 1);
        let ghost text_before = into@;
        assert(field.drop_last() =~= before);
        let byte: u8 = raw[n];
        if byte != 0x20 {
            let character: char = match codepage.decode(byte) {
                Some(character) => character,
                None => text::REPLACEMENT,
            };
            if lower {
                let lowered: Vec<char> = text::char_lower(character);
                let lowered: String = text::string_of(lowered.as_slice());
                into.append(lowered.as_str());
            } else {
                into.push(character);
            }
        }
        assert(into@ =~= old(into)@ + decoded_field(field, lower, *codepage));
        n += 1;
    }
}

/// Whether a byte may stand in an 8.3 name.
pub open spec fn valid_short_byte(byte: u8) -> bool {
    byte > 0x20 && byte != 0x22 && byte != 0x2A && byte != 0x2B && byte != 0x2C && byte != 0x2E
        && byte != 0x2F && byte != 0x3A && byte != 0x3B && byte != 0x3C && byte != 0x3D && byte
        != 0x3E && byte != 0x3F && byte != 0x5B && byte != 0x5C && byte != 0x5D && byte != 0x7C
}

/// Whether a byte may stand in an 8.3 name: no control character, no space,
/// and none of `"*+,./:;<=>?[\]|`.
pub(crate) fn is_valid_short_name_byte(byte: u8) -> (valid: bool)
    ensures
        valid == valid_short_byte(byte),
{
    byte > 0x20 && byte != 0x22 && byte != 0x2A && byte != 0x2B && byte != 0x2C && byte != 0x2E
        && byte != 0x2F && byte != 0x3A && byte != 0x3B && byte != 0x3C && byte != 0x3D && byte
        != 0x3E && byte != 0x3F && byte != 0x5B && byte != 0x5C && byte != 0x5D && byte != 0x7C
}

/// The `i`th slot of a directory's bytes.
pub open spec fn slot(data: Seq<u8>, i: int) -> Seq<u8> {
    data.subrange(32 * i, 32 * i + 32)
}

/// How many whole slots there are.
pub open spec fn slot_count(data: Seq<u8>) -> int {
    data.len() as int / 32
}

/// A slot that was never used.
pub open spec fn is_end(data: Seq<u8>, i: int) -> bool {
    slot(data, i)[0] == END_OF_DIRECTORY
}

/// A slot that holds nothing: deleted, or never used.
pub open spec fn is_free(data: Seq<u8>, i: int) -> bool {
    slot(data, i)[0] == END_OF_DIRECTORY || slot(data, i)[0] == DELETED
}

/// A slot that holds a piece of a long name.
pub open spec fn is_long(data: Seq<u8>, i: int) -> bool {
    !is_free(data, i) && slot(data, i)[0x0B] == 0x0F
}

/// A slot that holds the entry of a file or a directory: in use, no piece of
/// a long name, and no label.
pub open spec fn is_entry(data: Seq<u8>, i: int) -> bool {
    !is_free(data, i) && slot(data, i)[0x0B] & 0x08 != 0x08
}

/// Whether slot `i` is in use after a slot that was never used.
pub open spec fn is_stray(data: Seq<u8>, i: int) -> bool {
    !is_free(data, i) && exists|j: int| 0 <= j < i && #[trigger] is_end(data, j)
}

/// The first of the slots below `n` that is in use after the end marker.
pub open spec fn first_stray(data: Seq<u8>, n: int) -> Option<int>
    decreases n,
{
    if n <= 0 {
        None
    } else {
        match first_stray(data, n - 1) {
            Some(i) => Some(i),
            None => if is_stray(data, n - 1) {
                Some(n - 1)
            } else {
                None
            },
        }
    }
}

/// The first of the long-name slots that stand right before slot `i`, or `i`
/// itself where there are none.
pub open spec fn run_start(data: Seq<u8>, i: int) -> int
    decreases i,
{
    if i > 0 && is_long(data, i - 1) {
        run_start(data, i - 1)
    } else {
        i
    }
}

/// How many slots the long name that starts at slot `s` says it has.
pub open spec fn announced(data: Seq<u8>, s: int) -> int {
    slot(data, s)[0] - LAST_LONG_SLOT
}

/// Whether slots `s` up to `i` are the beginning of a long name: the first
/// announces how many there will be, and those after it count down from
/// there, all with one checksum.
pub open spec fn counts_down(data: Seq<u8>, s: int, i: int) -> bool {
    &&& 0 <= s < i
    &&& is_long(data, s)
    &&& 1 <= announced(data, s) <= MAX_LONG_SLOTS
    &&& i - s <= announced(data, s)
    &&& forall|t: int|
        s < t < i ==> {
            &&& #[trigger] is_long(data, t)
            &&& slot(data, t)[0] == announced(data, s) - (t - s)
            &&& slot(data, t)[0x0D] == slot(data, s)[0x0D]
        }
}

/// Whether slots `s` up to `i` are a whole long name with this checksum.
pub open spec fn names(data: Seq<u8>, s: int, i: int, sum: u8) -> bool {
    counts_down(data, s, i) && announced(data, s) == i - s && slot(data, s)[0x0D] == sum
}

/// Where the `n`th unit of a long-name slot is stored.
pub open spec fn char_offset(n: int) -> int {
    if n <= 4 {
        0x01 + 2 * n
    } else if n <= 10 {
        0x0E + 2 * (n - 5)
    } else {
        0x1C + 2 * (n - 11)
    }
}

/// The units of the `n` long-name slots that stand right before slot `i`.
/// The slots are stored last piece first.
pub open spec fn name_units(data: Seq<u8>, i: int, n: int) -> Seq<u16> {
    Seq::new(
        (13 * n) as nat,
        |q: int| bytes::u16_at(slot(data, i - 1 - q / 13), char_offset(q % 13)),
    )
}

/// How many units come before the terminator, or before the end.
pub open spec fn name_length(units: Seq<u16>) -> int
    decreases units.len(),
{
    if units.len() == 0 || units[0] == 0x0000 || units[0] == 0xFFFF {
        0
    } else {
        1 + name_length(units.skip(1))
    }
}

/// The text of a long name's units, up to the terminator.
pub open spec fn name_text(units: Seq<u16>) -> Seq<char> {
    text::from_utf16(units.take(name_length(units)))
}

/// The long name of the entry in slot `i`, if it has one.
pub open spec fn long_name_of(data: Seq<u8>, i: int) -> Option<Seq<char>> {
    let sum = checksum_of(slot(data, i).subrange(0, 11));
    if exists|s: int| names(data, s, i, sum) {
        let s = choose|s: int| names(data, s, i, sum);
        let name = name_text(name_units(data, i, i - s));
        if name.len() == 0 {
            None
        } else {
            Some(name)
        }
    } else {
        None
    }
}

/// One entry of a directory as a mathematical value.
#[verifier::ext_equal]
pub struct EntryView {
    pub short: ShortView,
    pub short_display: Seq<char>,
    pub long_name: Option<Seq<char>>,
    pub attributes: u8,
    pub first_cluster: u32,
    pub size: u32,
    pub index: u32,
    pub first_slot: u32,
    pub created: DateTime,
    pub modified: DateTime,
    pub accessed: DateTime,
}

impl EntryView {
    /// The name the entry goes by: the long one where there is one.
    pub open spec fn name(self) -> Seq<char> {
        match self.long_name {
            Some(name) => name,
            None => self.short_display,
        }
    }

    /// Whether the entry is a directory.
    pub open spec fn is_directory(self) -> bool {
        self.attributes & 0x10 == 0x10
    }
}

/// The 8.3 name a slot's bytes hold.
pub open spec fn short_of(entry: Seq<u8>) -> ShortView {
    ShortView { raw: entry.subrange(0, 11), case_flags: entry[0x0C] }
}

/// The first cluster a slot's bytes name.
pub open spec fn cluster_of(entry: Seq<u8>) -> u32 {
    (0x1_0000 * bytes::u16_at(entry, 0x14) + bytes::u16_at(entry, 0x1A)) as u32
}

/// The entry in slot `i`.
pub open spec fn entry_of(data: Seq<u8>, i: int, codepage: Codepage) -> EntryView {
    let entry = slot(data, i);
    EntryView {
        short: short_of(entry),
        short_display: short_of(entry).display(codepage),
        long_name: long_name_of(data, i),
        attributes: entry[0x0B],
        first_cluster: cluster_of(entry),
        size: bytes::u32_at(entry, 0x1C),
        index: i as u32,
        first_slot: run_start(data, i) as u32,
        created: DateTime::unpacked(
            Packed {
                date: bytes::u16_at(entry, 0x10),
                time: bytes::u16_at(entry, 0x0E),
                hundredths: entry[0x0D],
            },
        ),
        modified: DateTime::unpacked(
            Packed {
                date: bytes::u16_at(entry, 0x18),
                time: bytes::u16_at(entry, 0x16),
                hundredths: 0,
            },
        ),
        accessed: DateTime::unpacked(
            Packed { date: bytes::u16_at(entry, 0x12), time: 0, hundredths: 0 },
        ),
    }
}

/// What is read of a modification time that was written at `now`: whole
/// seconds, and those even.
pub open spec fn modified_at(now: DateTime) -> DateTime {
    DateTime::unpacked(Packed { hundredths: 0, ..now.packed() })
}

/// Whether an entry's three times are those of `now`, as far as each is
/// stored: the last access is a day.
pub open spec fn stamped(entry: EntryView, now: DateTime) -> bool {
    &&& entry.created == DateTime::unpacked(now.packed())
    &&& entry.modified == modified_at(now)
    &&& entry.accessed == DateTime::unpacked(Packed { time: 0, hundredths: 0, ..now.packed() })
}

/// The entries in the slots below `n`, in slot order.
pub open spec fn entries_of(data: Seq<u8>, n: int, codepage: Codepage) -> Seq<EntryView>
    decreases n,
{
    if n <= 0 {
        Seq::empty()
    } else if is_entry(data, n - 1) {
        entries_of(data, n - 1, codepage).push(entry_of(data, n - 1, codepage))
    } else {
        entries_of(data, n - 1, codepage)
    }
}

/// The stretches of free slots, with one more slot at their end.
pub open spec fn extend_free(free: Seq<(u32, u32)>, i: int) -> Seq<(u32, u32)> {
    if free.len() > 0 && free.last().0 + free.last().1 == i {
        free.update(free.len() - 1, (free.last().0, (free.last().1 + 1) as u32))
    } else {
        free.push((i as u32, 1))
    }
}

/// The stretches of free slots below `n`, as starts and lengths.
pub open spec fn free_of(data: Seq<u8>, n: int) -> Seq<(u32, u32)>
    decreases n,
{
    if n <= 0 {
        Seq::empty()
    } else if is_free(data, n - 1) {
        extend_free(free_of(data, n - 1), n - 1)
    } else {
        free_of(data, n - 1)
    }
}

/// A directory as a mathematical value: its entries in slot order, and its
/// free slots.
#[verifier::ext_equal]
pub struct Listing {
    pub entries: Seq<EntryView>,
    pub free: Seq<(u32, u32)>,
}

/// The names a directory has for itself and for its parent.
pub open spec fn is_dots(name: Seq<char>) -> bool {
    ||| name.len() == 1 && name[0] == '.'
    ||| name.len() == 2 && name[0] == '.' && name[1] == '.'
}

/// Whether a name is one a directory has for itself or for its parent.
pub(crate) fn names_itself(name: &str) -> (yes: bool)
    ensures
        yes == is_dots(name@),
{
    let chars: Vec<char> = text::chars_of(name);
    let one: bool = chars.len() == 1 && chars[0] == '.';
    let two: bool = chars.len() == 2 && chars[0] == '.' && chars[1] == '.';
    one || two
}

/// What a directory's bytes hold, or the slot that is in use past the end.
pub open spec fn listing_of(data: Seq<u8>, codepage: Codepage) -> Result<Listing, int> {
    match first_stray(data, slot_count(data)) {
        Some(i) => Err(i),
        None => Ok(
            Listing {
                entries: entries_of(data, slot_count(data), codepage),
                free: free_of(data, slot_count(data)),
            },
        ),
    }
}

/// The last entry whose long name has this uppercase form.
pub open spec fn last_long(entries: Seq<EntryView>, key: Seq<char>) -> Option<int>
    decreases entries.len(),
{
    if entries.len() == 0 {
        None
    } else if entries.last().long_name is Some && text::uppercase(entries.last().long_name->0)
        == key {
        Some(entries.len() - 1)
    } else {
        last_long(entries.drop_last(), key)
    }
}

/// The first entry whose 8.3 name, as shown, has this uppercase form.
pub open spec fn first_short(entries: Seq<EntryView>, key: Seq<char>) -> Option<int>
    decreases entries.len(),
{
    if entries.len() == 0 {
        None
    } else {
        match first_short(entries.drop_last(), key) {
            Some(at) => Some(at),
            None => if text::uppercase(entries.last().short_display) == key {
                Some(entries.len() - 1)
            } else {
                None
            },
        }
    }
}

impl Listing {
    /// The entry that goes by `name`, in any case: by its long name first,
    /// and otherwise by its 8.3 name.
    pub open spec fn find(self, name: Seq<char>) -> Option<EntryView> {
        let key = text::uppercase(name);
        match last_long(self.entries, key) {
            Some(at) => Some(self.entries[at]),
            None => match first_short(self.entries, key) {
                Some(at) => Some(self.entries[at]),
                None => None,
            },
        }
    }

    /// Whether nothing is listed but the directory itself and its parent.
    pub open spec fn is_vacant(self) -> bool {
        forall|i: int|
            0 <= i < self.entries.len() ==> is_dots((#[trigger] self.entries[i]).name())
    }

    /// The entry in slot `index`.
    pub open spec fn entry_at(self, index: u32) -> Option<EntryView> {
        if exists|at: int| 0 <= at < self.entries.len() && self.entries[at].index == index {
            Some(
                self.entries[choose|at: int|
                    0 <= at < self.entries.len() && self.entries[at].index == index],
            )
        } else {
            None
        }
    }

    /// Where `count` free slots in a row start: in the first stretch that is
    /// long enough.
    pub open spec fn room_for(self, count: u32) -> Option<u32> {
        first_room(self.free, count)
    }

    /// Entries are in slot order, each after its own long name, and stretches
    /// of free slots end within the slot numbers.
    pub open spec fn wf(self) -> bool {
        &&& forall|a: int, b: int|
            0 <= a < b < self.entries.len() ==> #[trigger] self.entries[a].index
                < #[trigger] self.entries[b].index
        &&& forall|a: int|
            0 <= a < self.entries.len() ==> {
                &&& (#[trigger] self.entries[a]).first_slot <= self.entries[a].index
                &&& self.entries[a].short.wf()
            }
        &&& forall|a: int|
            0 <= a < self.free.len() ==> (#[trigger] self.free[a]).0 + self.free[a].1 <= u32::MAX
    }
}

/// The start of the first stretch of at least `count` slots.
pub open spec fn first_room(free: Seq<(u32, u32)>, count: u32) -> Option<u32>
    decreases free.len(),
{
    if free.len() == 0 {
        None
    } else if free[0].1 >= count {
        Some(free[0].0)
    } else {
        first_room(free.skip(1), count)
    }
}

/// One entry of a directory.
#[derive(Debug, Clone, PartialEq, Eq)]
pub struct DirEntry {
    short_name: ShortName,
    short_display: String,
    long_name: Option<String>,
    attributes: Attributes,
    first_cluster: u32,
    size: u32,
    index: u32,
    first_slot: u32,
    created: DateTime,
    modified: DateTime,
    accessed: DateTime,
}

impl View for DirEntry {
    type V = EntryView;

    closed spec fn view(&self) -> EntryView {
        EntryView {
            short: self.short_name@,
            short_display: self.short_display@,
            long_name: match self.long_name {
                Some(name) => Some(name@),
                None => None,
            },
            attributes: self.attributes.spec_bits(),
            first_cluster: self.first_cluster,
            size: self.size,
            index: self.index,
            first_slot: self.first_slot,
            created: self.created,
            modified: self.modified,
            accessed: self.accessed,
        }
    }
}

impl DirEntry {
    /// The name the entry goes by: its long name where it has one.
    pub fn name(&self) -> (name: &str)
        ensures
            name@ == self@.name(),
    {
        match &self.long_name {
            Some(name) => name.as_str(),
            None => self.short_display.as_str(),
        }
    }

    /// The long name, if there is one.
    pub fn long_name(&self) -> (name: Option<&str>)
        ensures
            match name {
                Some(name) => self@.long_name == Some(name@),
                None => self@.long_name is None,
            },
    {
        match &self.long_name {
            Some(name) => Some(name.as_str()),
            None => None,
        }
    }

    /// The 8.3 name.
    pub fn short_name(&self) -> (name: &ShortName)
        ensures
            name@ == self@.short,
    {
        &self.short_name
    }

    /// The attribute bits.
    pub fn attributes(&self) -> (attributes: Attributes)
        ensures
            attributes.spec_bits() == self@.attributes,
    {
        self.attributes
    }

    /// Whether the entry is a directory.
    pub fn is_directory(&self) -> (yes: bool)
        ensures
            yes == self@.is_directory(),
    {
        self.attributes.is_directory()
    }

    /// The first cluster of the file's chain; 0 where it has none.
    pub fn first_cluster(&self) -> (cluster: u32)
        ensures
            cluster == self@.first_cluster,
    {
        self.first_cluster
    }

    /// The file's length in bytes.
    pub fn len(&self) -> (size: u32)
        ensures
            size == self@.size,
    {
        self.size
    }

    /// Whether the file's length is 0.
    pub fn is_empty(&self) -> (empty: bool)
        ensures
            empty == (self@.size == 0),
    {
        self.size == 0
    }

    /// The slot of the 8.3 entry.
    pub fn index(&self) -> (index: u32)
        ensures
            index == self@.index,
    {
        self.index
    }

    /// When the file was made.
    pub fn created(&self) -> (at: DateTime)
        ensures
            at == self@.created,
    {
        self.created
    }

    /// When the file was last changed.
    pub fn modified(&self) -> (at: DateTime)
        ensures
            at == self@.modified,
    {
        self.modified
    }

    /// The day the file was last read.
    pub fn accessed(&self) -> (at: DateTime)
        ensures
            at == self@.accessed,
    {
        self.accessed
    }

    /// The first slot the entry takes up: that of its long name, where it has
    /// one.
    pub fn first_slot(&self) -> (slot: u32)
        ensures
            slot == self@.first_slot,
    {
        self.first_slot
    }
}

/// A long name being put together.
struct PendingLongName {
    chars: Vec<u16>,
    expected: u8,
    checksum: u8,
}

/// A long name being put together, as a mathematical value.
#[verifier::ext_equal]
struct Pending {
    chars: Seq<u16>,
    expected: u8,
    checksum: u8,
}

impl View for PendingLongName {
    type V = Pending;

    closed spec fn view(&self) -> Pending {
        Pending { chars: self.chars@, expected: self.expected, checksum: self.checksum }
    }
}

/// Units `13 * (sequence - 1)` and on replaced by those of a slot.
spec fn taken_in(pending: Pending, sequence: u8, entry: Seq<u8>) -> Pending {
    Pending {
        chars: Seq::new(
            pending.chars.len(),
            |q: int|
                if q / 13 == sequence - 1 {
                    bytes::u16_at(entry, char_offset(q % 13))
                } else {
                    pending.chars[q]
                },
        ),
        expected: (sequence - 1) as u8,
        checksum: pending.checksum,
    }
}

/// What a long-name slot makes of the name being put together.
spec fn absorbed(entry: Seq<u8>, pending: Option<Pending>) -> Option<Pending> {
    if entry[0] / 64 % 2 == 1 {
        let sequence = entry[0] - LAST_LONG_SLOT;
        if 1 <= sequence <= MAX_LONG_SLOTS {
            Some(
                taken_in(
                    Pending {
                        chars: Seq::new((13 * sequence) as nat, |q: int| 0u16),
                        expected: sequence as u8,
                        checksum: entry[0x0D],
                    },
                    sequence as u8,
                    entry,
                ),
            )
        } else {
            None
        }
    } else if pending is Some && pending->0.expected == entry[0] && pending->0.checksum
        == entry[0x0D] && entry[0] != 0 {
        Some(taken_in(pending->0, entry[0], entry))
    } else {
        None
    }
}

/// The view of an optional name being put together.
spec fn pending_view(pending: Option<PendingLongName>) -> Option<Pending> {
    match pending {
        Some(pending) => Some(pending@),
        None => None,
    }
}

/// Where the `n`th unit of a long-name slot is stored.
pub(crate) fn unit_offset(n: usize) -> (offset: usize)
    requires
        n < 13,
    ensures
        offset == char_offset(n as int),
{
    if n <= 4 {
        0x01 + 2 * n
    } else if n <= 10 {
        0x0E + 2 * (n - 5)
    } else {
        0x1C + 2 * (n - 11)
    }
}

impl PendingLongName {
    /// An empty name of `slots` slots.
    fn new(slots: u8, checksum: u8) -> (pending: Self)
        requires
            slots <= MAX_LONG_SLOTS,
        ensures
            pending@ == (Pending {
                chars: Seq::new((13 * slots) as nat, |q: int| 0u16),
                expected: slots,
                checksum,
            }),
    {
        let chars: Vec<u16> = vec![0u16; slots as usize * CHARS_PER_SLOT];
        assert(chars@ =~= Seq::new((13 * slots) as nat, |q: int| 0u16));
        PendingLongName { chars, expected: slots, checksum }
    }

    /// Takes in the slot numbered `sequence`.
    fn absorb(&mut self, sequence: u8, entry: &[u8])
        requires
            entry@.len() == 32,
            1 <= sequence <= MAX_LONG_SLOTS,
            13 * sequence <= old(self)@.chars.len(),
        ensures
            final(self)@ == taken_in(old(self)@, sequence, entry@),
    {
        let at: usize = (sequence as usize - 1) * CHARS_PER_SLOT;
        let ghost before = self.chars@;
        let mut n: usize = 0;
        while n < CHARS_PER_SLOT
            invariant
                n <= 13,
                entry@.len() == 32,
                at == 13 * (sequence - 1),
                at + 13 <= before.len(),
                self.chars@.len() == before.len(),
                self.expected == old(self).expected,
                self.checksum == old(self).checksum,
                forall|q: int|
                    0 <= q < before.len() ==> self.chars@[q] == (if at <= q < at + n {
                        bytes::u16_at(entry@, char_offset(q - at))
                    } else {
                        before[q]
                    }),
            decreases 13 - n,
        {
            let unit: u16 = read_u16(entry, unit_offset(n));
            self.chars[at + n] = unit;
            n += 1;
        }
        self.expected = sequence - 1;
        assert(self@ =~= taken_in(old(self)@, sequence, entry@));
    }

    /// The finished name, if every slot came and the checksum fits.
    fn finish(&self, checksum: u8) -> (name: Option<String>)
        ensures
            match name {
                Some(name) => {
                    &&& self@.expected == 0
                    &&& self@.checksum == checksum
                    &&& name@ == name_text(self@.chars)
                    &&& name@.len() > 0
                },
                None => self@.expected != 0 || self@.checksum != checksum || name_text(
                    self@.chars,
                ).len() == 0,
            },
    {
        if self.expected != 0 || self.checksum != checksum {
            return None;
        }
        let mut end: usize = 0;
        assert(self.chars@.skip(0) =~= self.chars@);
        while end < self.chars.len() && self.chars[end] != 0x0000 && self.chars[end] != 0xFFFF
            invariant
                end <= self.chars@.len(),
                name_length(self.chars@) == end + name_length(self.chars@.skip(end as int)),
            decreases self.chars@.len() - end,
        {
            assert(self.chars@.skip(end as int).skip(1) =~= self.chars@.skip(end + 1));
            end += 1;
        }
        let name: Vec<char> = text::decode_utf16(&self.chars.as_slice()[0..end]);
        assert(self.chars@.subrange(0, end as int) =~= self.chars@.take(end as int));
        if name.len() == 0 {
            None
        } else {
            Some(text::string_of(name.as_slice()))
        }
    }
}

/// What a long-name slot makes of the name being put together: a first slot
/// starts one over, and any other must follow on from the slot before it.
fn absorb_long_name_slot(entry: &[u8], pending: Option<PendingLongName>) -> (result: Option<
    PendingLongName,
>)
    requires
        entry@.len() == 32,
        pending matches Some(run) ==> 13 * run@.expected <= run@.chars.len() && run@.expected
            <= MAX_LONG_SLOTS,
    ensures
        pending_view(result) == absorbed(entry@, pending_view(pending)),
{
    let checksum: u8 = entry[0x0D];
    if entry[0] / 64 % 2 == 1 {
        let sequence: u8 = entry[0] - LAST_LONG_SLOT;
        if sequence == 0 || sequence > MAX_LONG_SLOTS {
            return None;
        }
        let mut run = PendingLongName::new(sequence, checksum);
        run.absorb(sequence, entry);
        return Some(run);
    }
    let sequence: u8 = entry[0];
    match pending {
        Some(run) => {
            if run.expected == sequence && run.checksum == checksum && sequence != 0 {
                let mut run = run;
                run.absorb(sequence, entry);
                Some(run)
            } else {
                None
            }
        },
        None => None,
    }
}

/// A long name's slots start no later than its entry.
proof fn lemma_run_start(data: Seq<u8>, i: int)
    requires
        0 <= i,
    ensures
        0 <= run_start(data, i) <= i,
    decreases i,
{
    if i > 0 && is_long(data, i - 1) {
        lemma_run_start(data, i - 1);
    }
}

/// What holds of the entries found in a directory's slots.
pub proof fn lemma_entries(data: Seq<u8>, n: int, codepage: Codepage)
    requires
        0 <= n <= slot_count(data),
        n <= u32::MAX,
    ensures
        forall|a: int|
            0 <= a < entries_of(data, n, codepage).len() ==> {
                let entry = #[trigger] entries_of(data, n, codepage)[a];
                &&& entry.index < n
                &&& is_entry(data, entry.index as int)
                &&& entry == entry_of(data, entry.index as int, codepage)
                &&& entry.first_slot <= entry.index
                &&& entry.short.wf()
            },
        forall|a: int, b: int|
            0 <= a < b < entries_of(data, n, codepage).len() ==> #[trigger] entries_of(
                data,
                n,
                codepage,
            )[a].index < #[trigger] entries_of(data, n, codepage)[b].index,
        forall|i: int|
            0 <= i < n && #[trigger] is_entry(data, i) ==> exists|a: int|
                0 <= a < entries_of(data, n, codepage).len() && entries_of(
                    data,
                    n,
                    codepage,
                )[a].index == i,
    decreases n,
{
    if n > 0 {
        lemma_entries(data, n - 1, codepage);
        lemma_run_start(data, n - 1);
        let before = entries_of(data, n - 1, codepage);
        let all = entries_of(data, n, codepage);
        assert forall|i: int| 0 <= i < n && #[trigger] is_entry(data, i) implies exists|a: int|
            0 <= a < all.len() && all[a].index == i by {
            if i == n - 1 {
                assert(all[all.len() - 1].index == i);
            } else {
                let a = choose|a: int| 0 <= a < before.len() && before[a].index == i;
                assert(all[a] == before[a]);
            }
        }
    }
}

/// What holds of the free slots found in a directory.
pub proof fn lemma_free(data: Seq<u8>, n: int)
    requires
        0 <= n <= slot_count(data),
        n <= u32::MAX,
    ensures
        forall|a: int|
            0 <= a < free_of(data, n).len() ==> {
                let (at, length) = #[trigger] free_of(data, n)[a];
                &&& at + length <= n
                &&& length > 0
                &&& forall|i: int| at <= i < at + length ==> #[trigger] is_free(data, i)
            },
    decreases n,
{
    if n > 0 {
        lemma_free(data, n - 1);
        let before = free_of(data, n - 1);
        let all = free_of(data, n);
        assert forall|a: int| 0 <= a < all.len() implies {
            let (at, length) = #[trigger] all[a];
            &&& at + length <= n
            &&& length > 0
            &&& forall|i: int| at <= i < at + length ==> #[trigger] is_free(data, i)
        } by {
            if a < before.len() {
                let (at, length) = before[a];
                assert(forall|i: int| at <= i < at + length ==> #[trigger] is_free(data, i));
            }
        }
    }
}

/// A directory's listing is well-formed.
pub proof fn lemma_listing_wf(data: Seq<u8>, codepage: Codepage)
    requires
        slot_count(data) <= u32::MAX,
        listing_of(data, codepage) is Ok,
    ensures
        listing_of(data, codepage)->Ok_0.wf(),
{
    lemma_entries(data, slot_count(data), codepage);
    lemma_free(data, slot_count(data));
    let listing = listing_of(data, codepage)->Ok_0;
    assert forall|a: int| 0 <= a < listing.free.len() implies (#[trigger] listing.free[a]).0
        + listing.free[a].1 <= u32::MAX by {
        let (at, length) = free_of(data, slot_count(data))[a];
    }
}

/// The name being put together before slot `i` is the one that slot `start`
/// began, and no other slot began one.
spec fn pending_ok(data: Seq<u8>, i: int, pending: Option<Pending>, start: int) -> bool {
    match pending {
        None => forall|s: int| !#[trigger] counts_down(data, s, i),
        Some(run) => {
            let n = announced(data, start);
            &&& counts_down(data, start, i)
            &&& forall|s: int| #[trigger] counts_down(data, s, i) ==> s == start
            &&& run.expected == n - (i - start)
            &&& run.checksum == slot(data, start)[0x0D]
            &&& run.chars.len() == 13 * n
            &&& forall|q: int|
                13 * run.expected <= q < 13 * n ==> #[trigger] run.chars[q] == bytes::u16_at(
                    slot(data, start + n - 1 - q / 13),
                    char_offset(q % 13),
                )
        },
    }
}

/// No long name goes on across a slot that is no piece of one.
proof fn lemma_pending_broken(data: Seq<u8>, i: int)
    requires
        !is_long(data, i),
    ensures
        pending_ok(data, i + 1, None, 0),
{
    assert forall|s: int| !#[trigger] counts_down(data, s, i + 1) by {
        if counts_down(data, s, i + 1) {
            assert(is_long(data, i));
        }
    }
}

/// A long-name slot carries the name being put together on by one.
proof fn lemma_pending_absorbed(data: Seq<u8>, i: int, pending: Option<Pending>, start: int)
    requires
        0 <= i < slot_count(data),
        is_long(data, i),
        pending_ok(data, i, pending, start),
    ensures
        pending_ok(
            data,
            i + 1,
            absorbed(slot(data, i), pending),
            if slot(data, i)[0] / 64 % 2 == 1 {
                i
            } else {
                start
            },
        ),
{
    let entry = slot(data, i);
    let next = absorbed(entry, pending);
    let first = entry[0] / 64 % 2 == 1;
    // Which slots can have begun a name that still goes on after slot `i`.
    assert forall|s: int| #[trigger] counts_down(data, s, i + 1) implies (s == i && first) || (s < i
        && !first && counts_down(data, s, i) && pending is Some && s == start && pending->0.expected
        == entry[0] && pending->0.checksum == entry[0x0D] && entry[0] != 0) by {
        if s < i {
            assert(is_long(data, i));
            assert(counts_down(data, s, i)) by {
                assert forall|t: int| s < t < i implies {
                    &&& #[trigger] is_long(data, t)
                    &&& slot(data, t)[0] == announced(data, s) - (t - s)
                    &&& slot(data, t)[0x0D] == slot(data, s)[0x0D]
                } by {
                    assert(is_long(data, t));
                }
            }
        }
    }
    if first {
        if next is Some {
            assert(counts_down(data, i, i + 1));
            let run = next->0;
            assert forall|q: int| 13 * run.expected <= q < 13 * announced(data, i) implies #[trigger] run.chars[q]
                == bytes::u16_at(
                slot(data, i + announced(data, i) - 1 - q / 13),
                char_offset(q % 13),
            ) by {
                assert(q / 13 == announced(data, i) - 1);
            }
        }
    } else {
        if next is Some {
            let run = pending->0;
            let n = announced(data, start);
            assert(counts_down(data, start, i + 1)) by {
                assert forall|t: int| start < t < i + 1 implies {
                    &&& #[trigger] is_long(data, t)
                    &&& slot(data, t)[0] == announced(data, start) - (t - start)
                    &&& slot(data, t)[0x0D] == slot(data, start)[0x0D]
                } by {
                    if t < i {
                        assert(is_long(data, t));
                    }
                }
            }
            let after = next->0;
            assert forall|q: int| 13 * after.expected <= q < 13 * n implies #[trigger] after.chars[q]
                == bytes::u16_at(slot(data, start + n - 1 - q / 13), char_offset(q % 13)) by {
                if q / 13 == entry[0] - 1 {
                    assert(start + n - 1 - q / 13 == i);
                } else {
                    assert(q >= 13 * run.expected);
                    assert(run.chars[q] == bytes::u16_at(
                        slot(data, start + n - 1 - q / 13),
                        char_offset(q % 13),
                    ));
                }
            }
        }
    }
}

/// The name put together before an entry is the entry's long name, if the
/// count has run out and the checksum fits.
proof fn lemma_pending_finished(data: Seq<u8>, i: int, pending: Option<Pending>, start: int)
    requires
        0 <= i < slot_count(data),
        pending_ok(data, i, pending, start),
    ensures
        ({
            let sum = checksum_of(slot(data, i).subrange(0, 11));
            long_name_of(data, i) == (if pending is Some && pending->0.expected == 0
                && pending->0.checksum == sum && name_text(pending->0.chars).len() > 0 {
                Some(name_text(pending->0.chars))
            } else {
                None
            })
        }),
{
    let sum = checksum_of(slot(data, i).subrange(0, 11));
    assert forall|s: int| names(data, s, i, sum) implies pending is Some && s == start
        && pending->0.expected == 0 && pending->0.checksum == sum by {
        assert(counts_down(data, s, i));
    }
    if pending is Some && pending->0.expected == 0 && pending->0.checksum == sum {
        assert(names(data, start, i, sum));
        let n = announced(data, start);
        assert(n == i - start);
        assert(pending->0.chars =~= name_units(data, i, n)) by {
            assert forall|q: int| 0 <= q < 13 * n implies pending->0.chars[q] == name_units(
                data,
                i,
                n,
            )[q] by {
                assert(start + n - 1 - q / 13 == i - 1 - q / 13);
            }
        }
    }
}

/// The contents of a directory.
#[derive(Debug, Clone, Default)]
pub struct Directory {
    entries: Vec<DirEntry>,
    /// For each entry, the uppercase forms of its 8.3 name and its long name.
    keys: Vec<(String, Option<String>)>,
    free: Vec<(u32, u32)>,
}

impl View for Directory {
    type V = Listing;

    closed spec fn view(&self) -> Listing {
        Listing {
            entries: Seq::new(self.entries@.len(), |i: int| self.entries@[i]@),
            free: self.free@,
        }
    }
}

impl Directory {
    /// The listing is well-formed, and the keys are those of the entries.
    pub closed spec fn wf(&self) -> bool {
        &&& self@.wf()
        &&& self.keys@.len() == self.entries@.len()
        &&& forall|i: int|
            0 <= i < self.entries@.len() ==> {
                &&& (#[trigger] self.keys@[i]).0@ == text::uppercase(self.entries@[i]@.short_display)
                &&& match self.keys@[i].1 {
                    Some(key) => self.entries@[i]@.long_name is Some && key@ == text::uppercase(
                        self.entries@[i]@.long_name->0,
                    ),
                    None => self.entries@[i]@.long_name is None,
                }
            }
    }

    /// A well-formed directory has a well-formed listing.
    pub proof fn lemma_wf(&self)
        requires
            self.wf(),
        ensures
            self@.wf(),
    {
    }

    /// The entries, in slot order.
    pub fn iter(&self) -> (iter: core::slice::Iter<'_, DirEntry>)
        ensures
            vstd::std_specs::iter::IteratorSpec::remaining(&iter).len() == self@.entries.len(),
            forall|i: int|
                0 <= i < self@.entries.len() ==> (
                #[trigger] vstd::std_specs::iter::IteratorSpec::remaining(&iter)[i])@
                    == self@.entries[i],
    {
        self.entries.as_slice().iter()
    }

    /// How many entries there are.
    pub fn len(&self) -> (count: usize)
        ensures
            count == self@.entries.len(),
    {
        self.entries.len()
    }

    /// Whether there are none.
    pub fn is_empty(&self) -> (empty: bool)
        ensures
            empty == (self@.entries.len() == 0),
    {
        self.entries.len() == 0
    }

    /// Whether it holds nothing but itself and its parent.
    pub(crate) fn is_vacant(&self) -> (vacant: bool)
        ensures
            vacant == self@.is_vacant(),
    {
        let total: usize = self.entries.len();
        let mut n: usize = 0;
        while n < total
            invariant
                n <= total,
                total == self.entries@.len(),
                forall|i: int| 0 <= i < n ==> is_dots((#[trigger] self@.entries[i]).name()),
            decreases total - n,
        {
            assert(self@.entries[n as int] == self.entries@[n as int]@);
            if !names_itself(self.entries[n].name()) {
                return false;
            }
            n += 1;
        }
        true
    }

    /// The entry that goes by `name`, in any case: by its long name or by its
    /// 8.3 name.
    pub fn get(&self, name: &str) -> (found: Option<&DirEntry>)
        requires
            self.wf(),
        ensures
            match found {
                Some(entry) => self@.find(name@) == Some(entry@),
                None => self@.find(name@) is None,
            },
    {
        let key: String = text::upper(name);
        let count: usize = self.entries.len();
        let mut end: usize = count;
        assert(self@.entries.take(count as int) =~= self@.entries);
        while end > 0
            invariant
                self.wf(),
                end <= count,
                count == self.entries@.len(),
                key@ == text::uppercase(name@),
                last_long(self@.entries, key@) == last_long(self@.entries.take(end as int), key@),
            decreases end,
        {
            assert(self@.entries.take(end as int).drop_last() =~= self@.entries.take(end - 1));
            assert(self.keys@[end - 1].0@ == text::uppercase(
                self.entries@[end - 1]@.short_display,
            ));
            if let Some(long) = &self.keys[end - 1].1 {
                if *long == key {
                    return Some(&self.entries[end - 1]);
                }
            }
            end -= 1;
        }
        let mut at: usize = 0;
        while at < count
            invariant
                self.wf(),
                at <= count,
                count == self.entries@.len(),
                key@ == text::uppercase(name@),
                last_long(self@.entries, key@) is None,
                first_short(self@.entries.take(at as int), key@) is None,
            decreases count - at,
        {
            assert(self@.entries.take(at + 1).drop_last() =~= self@.entries.take(at as int));
            assert(self.keys@[at as int].0@ == text::uppercase(
                self.entries@[at as int]@.short_display,
            ));
            if self.keys[at].0 == key {
                proof {
                    lemma_first_short(self@.entries, key@, at + 1);
                }
                return Some(&self.entries[at]);
            }
            at += 1;
        }
        assert(self@.entries.take(count as int) =~= self@.entries);
        None
    }

    /// The entry in slot `index`.
    pub fn at(&self, index: u32) -> (found: Option<&DirEntry>)
        requires
            self.wf(),
        ensures
            match found {
                Some(entry) => self@.entry_at(index) == Some(entry@),
                None => self@.entry_at(index) is None,
            },
    {
        let mut low: usize = 0;
        let mut high: usize = self.entries.len();
        while low < high
            invariant
                self.wf(),
                low <= high <= self.entries@.len(),
                forall|a: int| 0 <= a < low ==> (#[trigger] self@.entries[a]).index < index,
                forall|a: int|
                    high <= a < self@.entries.len() ==> (#[trigger] self@.entries[a]).index > index,
            decreases high - low,
        {
            let middle: usize = low + (high - low) / 2;
            let found: u32 = self.entries[middle].index;
            assert(self@.entries[middle as int].index == found);
            if found == index {
                assert forall|a: int|
                    0 <= a < self@.entries.len() && self@.entries[a].index == index implies a
                    == middle by {}
                return Some(&self.entries[middle]);
            }
            if found < index {
                low = middle + 1;
            } else {
                high = middle;
            }
        }
        None
    }

    /// Where `count` free slots in a row start.
    pub(crate) fn free_run(&self, count: u32) -> (at: Option<u32>)
        ensures
            at == self@.room_for(count),
    {
        let mut n: usize = 0;
        assert(self.free@.skip(0) =~= self.free@);
        while n < self.free.len()
            invariant
                n <= self.free@.len(),
                first_room(self.free@, count) == first_room(self.free@.skip(n as int), count),
            decreases self.free@.len() - n,
        {
            assert(self.free@.skip(n as int).skip(1) =~= self.free@.skip(n + 1));
            if self.free[n].1 >= count {
                return Some(self.free[n].0);
            }
            n += 1;
        }
        None
    }
}

/// An entry that is found is one of the directory's.
pub proof fn lemma_found(listing: Listing, name: Seq<char>)
    requires
        listing.find(name) is Some,
    ensures
        exists|a: int|
            0 <= a < listing.entries.len() && listing.find(name) == Some(
                #[trigger] listing.entries[a],
            ),
{
    let key = text::uppercase(name);
    lemma_last_long(listing.entries, key);
    lemma_first_short_in(listing.entries, key);
    match last_long(listing.entries, key) {
        Some(at) => {
            assert(listing.find(name) == Some(listing.entries[at]));
        },
        None => {
            let at = first_short(listing.entries, key)->0;
            assert(listing.find(name) == Some(listing.entries[at]));
        },
    }
}

/// The match by long name is one of the entries.
pub proof fn lemma_last_long(entries: Seq<EntryView>, key: Seq<char>)
    ensures
        last_long(entries, key) matches Some(at) ==> {
            &&& 0 <= at < entries.len()
            &&& entries[at].long_name is Some
            &&& text::uppercase(entries[at].long_name->0) == key
        },
    decreases entries.len(),
{
    if entries.len() > 0 {
        lemma_last_long(entries.drop_last(), key);
    }
}

/// The match by 8.3 name is one of the entries.
pub proof fn lemma_first_short_in(entries: Seq<EntryView>, key: Seq<char>)
    ensures
        first_short(entries, key) matches Some(at) ==> {
            &&& 0 <= at < entries.len()
            &&& text::uppercase(entries[at].short_display) == key
        },
    decreases entries.len(),
{
    if entries.len() > 0 {
        lemma_first_short_in(entries.drop_last(), key);
    }
}

/// The first match among the first entries is the first among all.
proof fn lemma_first_short(entries: Seq<EntryView>, key: Seq<char>, n: int)
    requires
        0 <= n <= entries.len(),
        first_short(entries.take(n), key) is Some,
    ensures
        first_short(entries, key) == first_short(entries.take(n), key),
    decreases entries.len() - n,
{
    if n < entries.len() {
        assert(entries.take(n + 1).drop_last() =~= entries.take(n));
        lemma_first_short(entries, key, n + 1);
    } else {
        assert(entries.take(n) =~= entries);
    }
}

/// The entry in one slot, with the name and the place found for it.
fn read_entry(
    entry: &[u8],
    index: u32,
    first_slot: u32,
    long_name: Option<String>,
    codepage: &Codepage,
    Ghost(data): Ghost<Seq<u8>>,
) -> (result: DirEntry)
    requires
        entry@ == slot(data, index as int),
        index < slot_count(data),
        first_slot == run_start(data, index as int),
        match long_name {
            Some(name) => long_name_of(data, index as int) == Some(name@),
            None => long_name_of(data, index as int) is None,
        },
    ensures
        result@ == entry_of(data, index as int, *codepage),
{
    let short_name = ShortName::from_entry(entry);
    let high: u16 = read_u16(entry, 0x14);
    let low: u16 = read_u16(entry, 0x1A);
    let result = DirEntry {
        short_display: short_name.to_display_string_with(codepage),
        short_name,
        long_name,
        attributes: Attributes::from_bits(entry[0x0B]),
        first_cluster: 0x1_0000 * high as u32 + low as u32,
        size: read_u32(entry, 0x1C),
        index,
        first_slot,
        created: DateTime::unpack(
            Packed {
                date: read_u16(entry, 0x10),
                time: read_u16(entry, 0x0E),
                hundredths: entry[0x0D],
            },
        ),
        modified: DateTime::unpack(
            Packed { date: read_u16(entry, 0x18), time: read_u16(entry, 0x16), hundredths: 0 },
        ),
        accessed: DateTime::unpack(
            Packed { date: read_u16(entry, 0x12), time: 0, hundredths: 0 },
        ),
    };
    assert(result@ =~= entry_of(data, index as int, *codepage));
    result
}

/// Adds one free slot to the stretches found so far.
fn note_free(free: &mut Vec<(u32, u32)>, index: u32)
    requires
        index < u32::MAX,
        forall|a: int|
            0 <= a < old(free)@.len() ==> (#[trigger] old(free)@[a]).0 + old(free)@[a].1 <= index,
    ensures
        final(free)@ == extend_free(old(free)@, index as int),
{
    let count: usize = free.len();
    if count > 0 && free[count - 1].0 + free[count - 1].1 == index {
        let last: (u32, u32) = free[count - 1];
        free.set(count - 1, (last.0, last.1 + 1));
    } else {
        free.push((index, 1));
    }
}

/// A slot in use is the first past the end marker exactly if it is the first
/// in use at all after one.
proof fn lemma_first_stray(data: Seq<u8>, i: int, n: int)
    requires
        0 <= i < n,
        first_stray(data, i) is None,
        is_stray(data, i),
    ensures
        first_stray(data, n) == Some(i),
    decreases n,
{
    if n > i + 1 {
        lemma_first_stray(data, i, n - 1);
    }
}

impl Directory {
    /// Reads a directory's slots. Damage to a long name costs that name and
    /// nothing more; an entry past the end marker is reported.
    pub(crate) fn parse<E>(data: &[u8], codepage: &Codepage) -> (result: crate::error::Result<
        Self,
        E,
    >)
        requires
            slot_count(data@) <= u32::MAX,
        ensures
            match result {
                Ok(directory) => {
                    &&& directory.wf()
                    &&& listing_of(data@, *codepage) == Ok::<Listing, int>(directory@)
                },
                Err(error) => {
                    &&& error matches Error::EntryAfterEnd { index }
                    &&& listing_of(data@, *codepage) == Err::<Listing, int>(index as int)
                },
            },
    {
        let total: usize = data.len();
        let count: usize = total / ENTRY_SIZE;
        let mut entries: Vec<DirEntry> = Vec::new();
        let mut keys: Vec<(String, Option<String>)> = Vec::new();
        let mut free: Vec<(u32, u32)> = Vec::new();
        let mut pending: Option<PendingLongName> = None;
        let mut long_run: Option<u32> = None;
        let mut ended: bool = false;
        let ghost mut start: int = 0;
        let mut i: usize = 0;
        while i < count
            invariant
                i <= count,
                total == data@.len(),
                count == slot_count(data@),
                count <= u32::MAX,
                first_stray(data@, i as int) is None,
                ended == exists|j: int| 0 <= j < i && #[trigger] is_end(data@, j),
                entries@.len() == keys@.len(),
                Seq::new(entries@.len(), |a: int| entries@[a]@) == entries_of(
                    data@,
                    i as int,
                    *codepage,
                ),
                forall|a: int|
                    0 <= a < entries@.len() ==> {
                        &&& (#[trigger] keys@[a]).0@ == text::uppercase(
                            entries@[a]@.short_display,
                        )
                        &&& match keys@[a].1 {
                            Some(key) => entries@[a]@.long_name is Some && key@ == text::uppercase(
                                entries@[a]@.long_name->0,
                            ),
                            None => entries@[a]@.long_name is None,
                        }
                    },
                free@ == free_of(data@, i as int),
                pending_ok(data@, i as int, pending_view(pending), start),
                long_run == (if run_start(data@, i as int) < i {
                    Some(run_start(data@, i as int) as u32)
                } else {
                    None
                }),
            decreases count - i,
        {
            let index: u32 = i as u32;
            let entry: &[u8] = &data[ENTRY_SIZE * i..ENTRY_SIZE * i + ENTRY_SIZE];
            assert(entry@ =~= slot(data@, i as int));
            proof {
                lemma_free(data@, i as int);
                lemma_run_start(data@, i as int);
                assert(forall|a: int|
                    0 <= a < free@.len() ==> {
                        let (at, length) = #[trigger] free@[a];
                        at + length <= index
                    });
            }
            if entry[0] == END_OF_DIRECTORY || entry[0] == DELETED {
                if entry[0] == END_OF_DIRECTORY {
                    ended = true;
                    assert(is_end(data@, i as int));
                }
                proof {
                    lemma_pending_broken(data@, i as int);
                    start = 0;
                }
                pending = None;
                long_run = None;
                note_free(&mut free, index);
            } else if ended {
                proof {
                    assert(is_stray(data@, i as int));
                    lemma_first_stray(data@, i as int, count as int);
                }
                return Err(Error::EntryAfterEnd { index: i });
            } else if entry[0x0B] == 0x0F {
                proof {
                    assert(0x0Fu8 & 0x08u8 == 0x08u8) by (bit_vector);
                    lemma_pending_absorbed(data@, i as int, pending_view(pending), start);
                    if entry@[0] / 64 % 2 == 1 {
                        start = i as int;
                    }
                }
                pending = absorb_long_name_slot(entry, pending);
                if long_run.is_none() {
                    long_run = Some(index);
                }
            } else if Attributes::from_bits(entry[0x0B]).is_volume_id() {
                proof {
                    lemma_pending_broken(data@, i as int);
                    start = 0;
                }
                pending = None;
                long_run = None;
            } else {
                let short_name = ShortName::from_entry(entry);
                let long_name: Option<String> = match &pending {
                    Some(run) => run.finish(short_name.checksum()),
                    None => None,
                };
                proof {
                    lemma_pending_finished(data@, i as int, pending_view(pending), start);
                    lemma_pending_broken(data@, i as int);
                    start = 0;
                }
                let first_slot: u32 = match long_run {
                    Some(slot) => slot,
                    None => index,
                };
                pending = None;
                long_run = None;
                let found: DirEntry = read_entry(
                    entry,
                    index,
                    first_slot,
                    long_name,
                    codepage,
                    Ghost(data@),
                );
                let short_key: String = text::upper(found.short_display.as_str());
                let long_key: Option<String> = match &found.long_name {
                    Some(name) => Some(text::upper(name.as_str())),
                    None => None,
                };
                let ghost before = entries@;
                entries.push(found);
                keys.push((short_key, long_key));
                assert(Seq::new(entries@.len(), |a: int| entries@[a]@) =~= entries_of(
                    data@,
                    i as int,
                    *codepage,
                ).push(found@)) by {
                    assert(Seq::new(before.len(), |a: int| before[a]@) == entries_of(
                        data@,
                        i as int,
                        *codepage,
                    ));
                    assert forall|a: int| 0 <= a < before.len() implies entries@[a]@ == entries_of(
                        data@,
                        i as int,
                        *codepage,
                    )[a] by {
                        assert(Seq::new(before.len(), |a: int| before[a]@)[a] == before[a]@);
                    }
                }
            }
            i += 1;
        }
        let directory = Directory { entries, keys, free };
        proof {
            lemma_listing_wf(data@, *codepage);
            assert(directory@ == listing_of(data@, *codepage)->Ok_0);
        }
        Ok(directory)
    }
}

/// The thirty-two bytes of an entry.
pub open spec fn entry_bytes(
    name: ShortView,
    attributes: u8,
    first_cluster: u32,
    size: u32,
    at: DateTime,
) -> Seq<u8> {
    let stamp = at.packed();
    name.raw + seq![attributes, name.case_flags, stamp.hundredths] + bytes::u16_bytes(stamp.time)
        + bytes::u16_bytes(stamp.date) + bytes::u16_bytes(stamp.date) + entry_tail(
        first_cluster,
        size,
        at,
    )
}

/// The last twelve bytes of an entry: what changes when the file does.
pub open spec fn entry_tail(first_cluster: u32, size: u32, at: DateTime) -> Seq<u8> {
    let stamp = at.packed();
    bytes::u16_bytes((first_cluster / 0x1_0000) as u16) + bytes::u16_bytes(stamp.time)
        + bytes::u16_bytes(stamp.date) + bytes::u16_bytes((first_cluster % 0x1_0000) as u16)
        + bytes::u32_bytes(size)
}

/// An entry with its first cluster, its length and its modification time
/// replaced, and everything else as it was.
pub open spec fn updated_entry(entry: Seq<u8>, first_cluster: u32, size: u32, at: DateTime) -> Seq<
    u8,
> {
    bytes::splice(entry, 0x14, entry_tail(first_cluster, size, at))
}

/// A deleted entry: its first byte says so, and the rest stays.
pub open spec fn deleted_entry(entry: Seq<u8>) -> Seq<u8> {
    entry.update(0, DELETED)
}

/// The raw name of a directory's entry for itself.
pub open spec fn dot_name() -> ShortView {
    ShortView { raw: Seq::new(11, |i: int| if i == 0 { 0x2Eu8 } else { 0x20u8 }), case_flags: 0 }
}

/// The raw name of a directory's entry for its parent.
pub open spec fn dot_dot_name() -> ShortView {
    ShortView { raw: Seq::new(11, |i: int| if i < 2 { 0x2Eu8 } else { 0x20u8 }), case_flags: 0 }
}

/// Writes an entry over the first thirty-two bytes of `into`.
pub(crate) fn write_entry(
    into: &mut [u8],
    at: usize,
    name: &ShortName,
    attributes: Attributes,
    first_cluster: u32,
    size: u32,
    time: DateTime,
)
    requires
        at + 32 <= old(into)@.len(),
    ensures
        final(into)@ == bytes::splice(
            old(into)@,
            at as int,
            entry_bytes(name@, attributes.spec_bits(), first_cluster, size, time),
        ),
{
    let total: usize = into.len();
    let stamp: Packed = time.pack();
    proof {
        name.lemma_wf();
    }
    copy_into(into, at, name.as_bytes());
    into[at + 0x0B] = attributes.bits();
    into[at + 0x0C] = name.case_flags;
    into[at + 0x0D] = stamp.hundredths;
    write_u16(into, at + 0x0E, stamp.time);
    write_u16(into, at + 0x10, stamp.date);
    write_u16(into, at + 0x12, stamp.date);
    write_tail(into, at, first_cluster, size, time);
    assert(into@ =~= bytes::splice(
        old(into)@,
        at as int,
        entry_bytes(name@, attributes.spec_bits(), first_cluster, size, time),
    ));
}

/// Writes the last twelve bytes of the entry that starts at `at`.
fn write_tail(into: &mut [u8], at: usize, first_cluster: u32, size: u32, time: DateTime)
    requires
        at + 32 <= old(into)@.len(),
    ensures
        final(into)@ == bytes::splice(
            old(into)@,
            at + 0x14,
            entry_tail(first_cluster, size, time),
        ),
{
    let total: usize = into.len();
    let stamp: Packed = time.pack();
    write_u16(into, at + 0x14, (first_cluster / 0x1_0000) as u16);
    write_u16(into, at + 0x16, stamp.time);
    write_u16(into, at + 0x18, stamp.date);
    write_u16(into, at + 0x1A, (first_cluster % 0x1_0000) as u16);
    write_u32(into, at + 0x1C, size);
    assert(into@ =~= bytes::splice(
        old(into)@,
        at + 0x14,
        entry_tail(first_cluster, size, time),
    ));
}

/// Writes the entries a new directory starts with: itself and its parent.
pub(crate) fn write_dot_entries(into: &mut [u8], cluster: u32, parent: u32, time: DateTime)
    requires
        old(into)@.len() >= 64,
    ensures
        final(into)@ == bytes::splice(
            old(into)@,
            0,
            entry_bytes(dot_name(), 0x10, cluster, 0, time) + entry_bytes(
                dot_dot_name(),
                0x10,
                parent,
                0,
                time,
            ),
        ),
{
    let dot = ShortName {
        raw: [0x2E, 0x20, 0x20, 0x20, 0x20, 0x20, 0x20, 0x20, 0x20, 0x20, 0x20],
        case_flags: 0,
    };
    let dot_dot = ShortName {
        raw: [0x2E, 0x2E, 0x20, 0x20, 0x20, 0x20, 0x20, 0x20, 0x20, 0x20, 0x20],
        case_flags: 0,
    };
    assert(dot@ =~= dot_name());
    assert(dot_dot@ =~= dot_dot_name());
    write_entry(into, 0, &dot, Attributes::DIRECTORY(), cluster, 0, time);
    write_entry(into, 32, &dot_dot, Attributes::DIRECTORY(), parent, 0, time);
    assert(into@ =~= bytes::splice(
        old(into)@,
        0,
        entry_bytes(dot_name(), 0x10, cluster, 0, time) + entry_bytes(
            dot_dot_name(),
            0x10,
            parent,
            0,
            time,
        ),
    ));
}

/// Gives the entry that starts at `at` a new first cluster, length and
/// modification time.
pub(crate) fn update_entry(
    into: &mut [u8],
    at: usize,
    first_cluster: u32,
    size: u32,
    time: DateTime,
)
    requires
        at + 32 <= old(into)@.len(),
    ensures
        final(into)@ == bytes::splice(
            old(into)@,
            at as int,
            updated_entry(
                old(into)@.subrange(at as int, at + 32),
                first_cluster,
                size,
                time,
            ),
        ),
{
    write_tail(into, at, first_cluster, size, time);
    assert(into@ =~= bytes::splice(
        old(into)@,
        at as int,
        updated_entry(old(into)@.subrange(at as int, at + 32), first_cluster, size, time),
    ));
}

/// Marks the entry that starts at `at` as deleted.
pub(crate) fn mark_deleted(into: &mut [u8], at: usize)
    requires
        at + 32 <= old(into)@.len(),
    ensures
        final(into)@ == bytes::splice(
            old(into)@,
            at as int,
            deleted_entry(old(into)@.subrange(at as int, at + 32)),
        ),
{
    into[at] = DELETED;
    assert(into@ =~= bytes::splice(
        old(into)@,
        at as int,
        deleted_entry(old(into)@.subrange(at as int, at + 32)),
    ));
}

/// An entry reads back as it was written.
pub proof fn lemma_entry_round_trip(
    name: ShortView,
    attributes: u8,
    first_cluster: u32,
    size: u32,
    at: DateTime,
)
    requires
        name.wf(),
    ensures
        ({
            let entry = entry_bytes(name, attributes, first_cluster, size, at);
            let stamp = at.packed();
            &&& entry.len() == 32
            &&& short_of(entry) == name
            &&& entry[0x0B] == attributes
            &&& entry[0x0D] == stamp.hundredths
            &&& bytes::u16_at(entry, 0x0E) == stamp.time
            &&& bytes::u16_at(entry, 0x10) == stamp.date
            &&& bytes::u16_at(entry, 0x12) == stamp.date
            &&& bytes::u16_at(entry, 0x16) == stamp.time
            &&& bytes::u16_at(entry, 0x18) == stamp.date
            &&& cluster_of(entry) == first_cluster
            &&& bytes::u32_at(entry, 0x1C) == size
        }),
{
    let entry = entry_bytes(name, attributes, first_cluster, size, at);
    assert(entry.subrange(0, 11) =~= name.raw);
    bytes::lemma_u32_round_trip(size);
}

/// Updating an entry changes its first cluster, its length and its
/// modification time, and keeps the rest.
pub proof fn lemma_updated_entry(entry: Seq<u8>, first_cluster: u32, size: u32, at: DateTime)
    requires
        entry.len() == 32,
    ensures
        ({
            let after = updated_entry(entry, first_cluster, size, at);
            let stamp = at.packed();
            &&& after.len() == 32
            &&& after.take(0x14) == entry.take(0x14)
            &&& short_of(after) == short_of(entry)
            &&& after[0] == entry[0]
            &&& after[0x0B] == entry[0x0B]
            &&& after[0x0D] == entry[0x0D]
            &&& bytes::u16_at(after, 0x0E) == bytes::u16_at(entry, 0x0E)
            &&& bytes::u16_at(after, 0x10) == bytes::u16_at(entry, 0x10)
            &&& bytes::u16_at(after, 0x12) == bytes::u16_at(entry, 0x12)
            &&& bytes::u16_at(after, 0x16) == stamp.time
            &&& bytes::u16_at(after, 0x18) == stamp.date
            &&& cluster_of(after) == first_cluster
            &&& bytes::u32_at(after, 0x1C) == size
        }),
{
    let after = updated_entry(entry, first_cluster, size, at);
    assert(after.take(0x14) =~= entry.take(0x14));
    assert(after.subrange(0, 11) =~= entry.subrange(0, 11));
    bytes::lemma_u32_round_trip(size);
}

} // verus!
