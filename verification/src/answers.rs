//! What the functions that read something answer, in terms of the bytes they
//! are given.
use vstd::prelude::*;

use vstd::arithmetic::power2::pow2;

use crate::blockdev::BlockDevice;
use crate::boot::{BootSector, FsInfo};
use crate::codepage::Codepage;
use crate::dir::{Attributes, DirEntry, Directory, ShortName};
use crate::error::{BootError, Error, FatError, Result};
use crate::fat::Fat;
use crate::fs::FileSystem;
use crate::geometry;
use crate::geometry::{pair, quad};
use crate::ledger;
use crate::mbr::{Partition, PartitionTable};
use crate::naming;
use crate::partitions;
use crate::slots;
use crate::table::Run;
use crate::time;
use crate::time::{DateTime, Packed};

verus! {

/// A first block is accepted exactly if it says what it should.
pub proof fn lemma_boot_parse(block: &[u8], result: core::result::Result<BootSector, BootError>)
    requires
        call_ensures(BootSector::parse, (block,), result),
    ensures
        result is Ok <==> geometry::well_said(block@) && !geometry::clusters_fit(
            block@,
            0x0FFF_FFF6,
        ),
        result matches Ok(boot) ==> {
            &&& exists|k: nat| k <= 7 && boot.sectors_per_cluster == #[trigger] pow2(k)
            &&& boot.sectors_per_cluster == block@[13]
            &&& boot.reserved_sectors == pair(block@, 14)
            &&& boot.fat_count == block@[16]
            &&& boot.sectors_per_fat == quad(block@, 36)
            &&& boot.root_cluster == quad(block@, 44)
            &&& boot.total_sectors == geometry::sectors_said(block@)
        },
{
    geometry::lemma_accepted(block@);
}

/// Hints are read where they are signed, and where the volume could have them.
pub proof fn lemma_hints_parse(block: &[u8], boot: &BootSector, hints: FsInfo)
    requires
        call_ensures(FsInfo::parse, (block, boot), hints),
    ensures
        hints.free_clusters matches Some(free) ==> free == quad(block@, 488) && free
            <= boot.cluster_count,
        hints.next_free matches Some(next) ==> next == quad(block@, 492) && 0 <= next - 2
            < boot.cluster_count,
        block@.len() >= 512 && quad(block@, 0) == 0x4161_5252 && quad(block@, 484) == 0x6141_7272
            ==> {
            &&& quad(block@, 488) <= boot.cluster_count && quad(block@, 488) != 0xFFFF_FFFF
                ==> hints.free_clusters is Some
            &&& 2 <= quad(block@, 492) < boot.cluster_count + 2 && quad(block@, 492) != 0xFFFF_FFFF
                ==> hints.next_free is Some
        },
{
    geometry::lemma_hints(block@, *boot);
}

/// Mounting fails, but for the device's own failures and want of memory, only
/// where the first block is not accepted, or the volume ends past the blocks
/// that the device has or the block numbers there are; and what is mounted is
/// what the first block says.
pub proof fn lemma_mount<D: BlockDevice>(
    device: D,
    first_block: u64,
    codepage: Codepage,
    result: Result<FileSystem<D>, D::Error>,
)
    requires
        call_ensures(FileSystem::<D>::mount_with, (device, first_block, codepage), result),
    ensures
        ({
            let disk = device.contents();
            let block = disk.subrange(512 * first_block, 512 * first_block + 512);
            let past = first_block + geometry::sectors_said(block);
            let accepted = geometry::well_said(block) && !geometry::clusters_fit(
                block,
                0x0FFF_FFF6,
            );
            &&& result matches Ok(volume) ==> {
                &&& accepted
                &&& volume@.disk == disk
                &&& volume@.first_block == first_block
                &&& volume@.codepage == codepage
                &&& volume@.boot.sectors_per_cluster == block[13]
                &&& volume@.boot.root_cluster == quad(block, 44)
                &&& device.capacity() matches Some(blocks) ==> past <= blocks
            }
            &&& result is Err && !(result->Err_0 is Device) && !(result->Err_0 is OutOfMemory)
                && accepted ==> {
                ||| past > u64::MAX
                ||| first_block + pair(block, 48) >= u64::MAX
                ||| device.capacity() is Some && past > device.capacity()->0
            }
        }),
{
    let disk = device.contents();
    let block = disk.subrange(512 * first_block, 512 * first_block + 512);
    geometry::lemma_accepted(block);
    geometry::lemma_mounts(
        disk,
        device.history(),
        device.limit(),
        device.capacity(),
        first_block,
        codepage,
        None,
    );
}

/// Mounting at a block, and at the first, is mounting with ASCII names.
pub proof fn lemma_mount_at<D: BlockDevice>(
    device: D,
    first_block: u64,
    at: Result<FileSystem<D>, D::Error>,
    first: Result<FileSystem<D>, D::Error>,
)
    requires
        call_ensures(FileSystem::<D>::mount_at, (device, first_block), at),
        call_ensures(FileSystem::<D>::mount, (device,), first),
    ensures
        at matches Ok(volume) ==> volume@.first_block == first_block && volume@.codepage
            == Codepage::spec_ascii() && volume@.disk == device.contents(),
        first matches Ok(volume) ==> volume@.first_block == 0 && volume@.codepage
            == Codepage::spec_ascii() && volume@.disk == device.contents(),
{
}

/// A partition table is found exactly where there is one.
pub proof fn lemma_table_parse(block: &[u8], table: Option<PartitionTable>)
    requires
        call_ensures(PartitionTable::parse, (block,), table),
    ensures
        table is Some <==> {
            &&& block@.len() >= 512
            &&& block@[510] == 0x55
            &&& block@[511] == 0xAA
            &&& forall|i: int|
                0 <= i < 4 ==> #[trigger] block@[446 + 16 * i] == 0 || block@[446 + 16 * i] == 128
            &&& exists|i: int|
                0 <= i < 4 && #[trigger] block@[450 + 16 * i] != 0 && quad(block@, 454 + 16 * i)
                    != 0 && quad(block@, 458 + 16 * i) != 0
        },
        table matches Some(table) ==> forall|i: int|
            0 <= i < 4 && #[trigger] table@[i] is Some ==> table@[i]->0.kind == block@[450 + 16 * i]
                && table@[i]->0.first_block == quad(block@, 454 + 16 * i) && table@[i]->0.blocks
                == quad(block@, 458 + 16 * i),
{
    partitions::lemma_table(block@);
    assert forall|i: int| 0 <= i < 4 implies #[trigger] crate::mbr::table_of(block@)[i] is Some == (
    block@[450 + 16 * i] != 0 && quad(block@, 454 + 16 * i) != 0 && quad(block@, 458 + 16 * i) != 0)
        by {
        partitions::lemma_slot(block@, i);
    }
    assert forall|i: int| 0 <= i < 4 && #[trigger] crate::mbr::table_of(block@)[i] is Some implies
        crate::mbr::table_of(block@)[i]->0.kind == block@[450 + 16 * i] && crate::mbr::table_of(
        block@,
    )[i]->0.first_block == quad(block@, 454 + 16 * i) && crate::mbr::table_of(block@)[i]->0.blocks
        == quad(block@, 458 + 16 * i) by {
        partitions::lemma_slot(block@, i);
    }
    if exists|i: int| 0 <= i < 4 && #[trigger] crate::mbr::table_of(block@)[i] is Some {
        let i = choose|i: int| 0 <= i < 4 && #[trigger] crate::mbr::table_of(block@)[i] is Some;
        assert(block@[450 + 16 * i] != 0);
    }
    if exists|i: int|
        0 <= i < 4 && #[trigger] block@[450 + 16 * i] != 0 && quad(block@, 454 + 16 * i) != 0
            && quad(block@, 458 + 16 * i) != 0 {
        let i = choose|i: int|
            0 <= i < 4 && #[trigger] block@[450 + 16 * i] != 0 && quad(block@, 454 + 16 * i) != 0
                && quad(block@, 458 + 16 * i) != 0;
        assert(crate::mbr::table_of(block@)[i] is Some);
    }
}

/// Six types, and the same hidden, are FAT; one stands for a newer table.
pub proof fn lemma_partition_kinds(partition: &Partition, fat: bool, newer: bool)
    requires
        call_ensures(Partition::is_fat, (partition,), fat),
        call_ensures(Partition::is_protective_gpt, (partition,), newer),
    ensures
        fat <==> partition.kind < 32 && {
            let plain = partition.kind % 16;
            plain == 1 || plain == 4 || plain == 6 || plain == 11 || plain == 12 || plain == 14
        },
        newer <==> partition.kind == 238,
{
    partitions::lemma_fat_kinds(partition.kind);
}

/// What the attribute bits say.
pub proof fn lemma_attributes(
    a: Attributes,
    b: Attributes,
    directory: bool,
    label: bool,
    piece: bool,
    all: bool,
)
    requires
        call_ensures(Attributes::is_directory, (a,), directory),
        call_ensures(Attributes::is_volume_id, (a,), label),
        call_ensures(Attributes::is_long_name, (a,), piece),
        call_ensures(Attributes::contains, (a, b), all),
    ensures
        directory <==> a.spec_bits() / 16 % 2 == 1,
        label <==> a.spec_bits() / 8 % 2 == 1,
        piece <==> a.spec_bits() == 15,
        all <==> a.spec_bits() | b.spec_bits() == a.spec_bits(),
{
    let (x, y) = (a.spec_bits(), b.spec_bits());
    assert(x & 0x10 == 0x10 <==> x / 16 % 2 == 1) by (bit_vector);
    assert(x & 0x08 == 0x08 <==> x / 8 % 2 == 1) by (bit_vector);
    assert(x & y == y <==> x | y == x) by (bit_vector);
}

/// The named attributes are one bit each, but for the mark of a piece of a long
/// name, which is the four lowest, and none at all.
pub proof fn lemma_named_attributes(
    none: Attributes,
    read_only: Attributes,
    hidden: Attributes,
    system: Attributes,
    label: Attributes,
    directory: Attributes,
    archive: Attributes,
    piece: Attributes,
)
    requires
        call_ensures(Attributes::NONE, (), none),
        call_ensures(Attributes::READ_ONLY, (), read_only),
        call_ensures(Attributes::HIDDEN, (), hidden),
        call_ensures(Attributes::SYSTEM, (), system),
        call_ensures(Attributes::VOLUME_ID, (), label),
        call_ensures(Attributes::DIRECTORY, (), directory),
        call_ensures(Attributes::ARCHIVE, (), archive),
        call_ensures(Attributes::LONG_NAME, (), piece),
    ensures
        none.spec_bits() == 0,
        read_only.spec_bits() == 1,
        hidden.spec_bits() == 2,
        system.spec_bits() == 4,
        label.spec_bits() == 8,
        directory.spec_bits() == 16,
        archive.spec_bits() == 32,
        piece.spec_bits() == 1 + 2 + 4 + 8,
{
}

/// An entry is a directory where its bit is set, and empty where its length is
/// nought.
pub proof fn lemma_entry_answers(entry: &DirEntry, directory: bool, empty: bool, length: u32)
    requires
        call_ensures(DirEntry::is_directory, (entry,), directory),
        call_ensures(DirEntry::is_empty, (entry,), empty),
        call_ensures(DirEntry::len, (entry,), length),
    ensures
        directory <==> entry@.attributes / 16 % 2 == 1,
        empty <==> length == 0,
        length == entry@.size,
{
    slots::lemma_directory_bit(entry@);
}

/// What the table answers of a cluster is what its entry says.
pub proof fn lemma_table_answers(
    fat: &Fat,
    cluster: u32,
    valid: bool,
    entry: core::result::Result<u32, FatError>,
    next: core::result::Result<Option<u32>, FatError>,
    free: u32,
)
    requires
        fat.wf(),
        call_ensures(Fat::is_valid_cluster, (fat, cluster), valid),
        call_ensures(Fat::entry, (fat, cluster), entry),
        call_ensures(Fat::next, (fat, cluster), next),
        call_ensures(Fat::free_clusters, (fat,), free),
    ensures
        valid <==> 0 <= cluster - 2 < fat@.cluster_count,
        valid ==> entry == Ok::<u32, FatError>(ledger::number(fat@, cluster as int)),
        !valid ==> entry == Err::<u32, FatError>(FatError::BadCluster { cluster }) && next is Err,
        valid && ledger::number(fat@, cluster as int) >= 0x0FFF_FFF8 ==> next == Ok::<
            Option<u32>,
            FatError,
        >(None),
        valid && 0 <= ledger::number(fat@, cluster as int) - 2 < fat@.cluster_count ==> next == Ok::<
            Option<u32>,
            FatError,
        >(Some(ledger::number(fat@, cluster as int))),
        free == ledger::free_set(fat@.entries, 2 + fat@.cluster_count).len(),
{
    fat.lemma_wf();
    ledger::lemma_entries(fat@, cluster as int, 0);
    ledger::lemma_next(fat@, cluster);
    ledger::lemma_free_count(fat@);
}

/// A moment is made exactly of what exists.
pub proof fn lemma_new_moment(
    year: u16,
    month: u8,
    day: u8,
    hour: u8,
    minute: u8,
    second: u8,
    millisecond: u16,
    result: Option<DateTime>,
    leap: bool,
)
    requires
        call_ensures(
            DateTime::new,
            (year, month, day, hour, minute, second, millisecond),
            result,
        ),
        call_ensures(time::is_leap_year, (year,), leap),
    ensures
        leap <==> year % 400 == 0 || year % 4 == 0 && year % 100 != 0,
        result is Some <==> {
            &&& 1 <= month <= 12
            &&& 1 <= day <= 31
            &&& month == 4 || month == 6 || month == 9 || month == 11 ==> day <= 30
            &&& month == 2 ==> day <= 29
            &&& month == 2 && !leap ==> day <= 28
            &&& hour < 24
            &&& minute < 60
            &&& second < 60
            &&& millisecond < 1000
        },
        result matches Some(at) ==> at == (DateTime {
            year,
            month,
            day,
            hour,
            minute,
            second,
            millisecond,
        }),
{
    crate::calendar::lemma_existing_moments(
        DateTime { year, month, day, hour, minute, second, millisecond },
    );
}

/// A codepage made of tables looks bytes up by their number, and characters by
/// the first pair that has them.
pub proof fn lemma_new_codepage(
    decode: Vec<Option<char>>,
    encode: Vec<(char, u8)>,
    codepage: Codepage,
    byte: u8,
    character: char,
    n: int,
)
    requires
        call_ensures(Codepage::new, (decode, encode), codepage),
        0 <= n <= encode@.len(),
        forall|k: int| 0 <= k < n ==> (#[trigger] encode@[k]).0 != character,
        n < encode@.len() ==> encode@[n].0 == character,
    ensures
        byte < decode@.len() ==> codepage.decodes(byte) == decode@[byte as int],
        byte >= decode@.len() ==> codepage.decodes(byte) is None,
        n < encode@.len() ==> codepage.encodes(character) == Some(encode@[n].1),
        n == encode@.len() ==> codepage.encodes(character) is None,
{
    naming::lemma_first_pair(encode@, character, n);
}

/// An 8.3 name reads its bytes from the start of its slot and its case from
/// after its attributes.
pub proof fn lemma_name_from_entry(entry: &[u8], name: ShortName)
    requires
        entry@.len() >= 32,
        call_ensures(ShortName::from_entry, (entry,), name),
    ensures
        name@.raw == entry@.subrange(0, 11),
        name@.case_flags == entry@[12],
{
}

/// A codepage answers by what it decodes and encodes; the ASCII one by the
/// numbers of the characters below 128.
pub proof fn lemma_codepage_answers(
    codepage: &Codepage,
    byte: u8,
    character: char,
    decoded: Option<char>,
    encoded: Option<u8>,
    ascii: Codepage,
)
    requires
        call_ensures(Codepage::decode, (codepage, byte), decoded),
        call_ensures(Codepage::encode, (codepage, character), encoded),
        call_ensures(Codepage::ASCII, (), ascii),
    ensures
        decoded == codepage.decodes(byte),
        encoded == codepage.encodes(character),
        byte < 128 ==> ascii.decodes(byte) == Some(byte as char),
        byte >= 128 ==> ascii.decodes(byte) is None,
        (character as u32) < 128 ==> ascii.encodes(character) == Some(character as u8),
        character as u32 >= 128 ==> ascii.encodes(character) is None,
{
    Codepage::lemma_ascii();
}

/// An entry hands back what it is made of.
pub proof fn lemma_entry_parts(
    entry: &DirEntry,
    name: &str,
    long: Option<&str>,
    short: &ShortName,
    attributes: Attributes,
    cluster: u32,
    index: u32,
    slot: u32,
)
    requires
        call_ensures(DirEntry::name, (entry,), name),
        call_ensures(DirEntry::long_name, (entry,), long),
        call_ensures(DirEntry::short_name, (entry,), short),
        call_ensures(DirEntry::attributes, (entry,), attributes),
        call_ensures(DirEntry::first_cluster, (entry,), cluster),
        call_ensures(DirEntry::index, (entry,), index),
        call_ensures(DirEntry::first_slot, (entry,), slot),
    ensures
        entry@.long_name matches Some(said) ==> name@ == said && long is Some && long->0@ == said,
        entry@.long_name is None ==> name@ == entry@.short_display && long is None,
        short@ == entry@.short,
        attributes.spec_bits() == entry@.attributes,
        cluster == entry@.first_cluster,
        index == entry@.index,
        slot == entry@.first_slot,
{
}

/// An entry hands back its three moments, each as its own.
pub proof fn lemma_entry_moments(
    entry: &DirEntry,
    created: DateTime,
    modified: DateTime,
    accessed: DateTime,
)
    requires
        call_ensures(DirEntry::created, (entry,), created),
        call_ensures(DirEntry::modified, (entry,), modified),
        call_ensures(DirEntry::accessed, (entry,), accessed),
    ensures
        created == entry@.created,
        modified == entry@.modified,
        accessed == entry@.accessed,
{
}

/// A directory hands back the entries it lists: by a name that one has, by the
/// slot that one is in, and how many there are.
pub proof fn lemma_directory_answers(
    directory: &Directory,
    name: &str,
    found: Option<&DirEntry>,
    index: u32,
    there: Option<&DirEntry>,
    count: usize,
    empty: bool,
)
    requires
        directory.wf(),
        call_ensures(Directory::get, (directory, name), found),
        call_ensures(Directory::at, (directory, index), there),
        call_ensures(Directory::len, (directory,), count),
        call_ensures(Directory::is_empty, (directory,), empty),
    ensures
        found is None <==> forall|a: int|
            0 <= a < directory@.entries.len() ==> !(#[trigger] directory@.entries[a].long_name
                is Some && slots::alike(directory@.entries[a].long_name->0, name@))
                && !slots::alike(directory@.entries[a].short_display, name@),
        found matches Some(entry) ==> directory@.find(name@) == Some(entry@),
        there is None <==> forall|a: int|
            0 <= a < directory@.entries.len() ==> (#[trigger] directory@.entries[a]).index != index,
        there matches Some(entry) ==> entry@.index == index && directory@.entries.contains(entry@),
        count == directory@.entries.len(),
        empty <==> count == 0,
{
    slots::lemma_find(directory@, name@);
    if there is None {
        assert forall|a: int| 0 <= a < directory@.entries.len() implies (
        #[trigger] directory@.entries[a]).index != index by {
            if directory@.entries[a].index == index {
                assert(directory@.entry_at(index) is Some);
            }
        }
    }
}

/// A partition table hands back the partitions in its slots.
pub proof fn lemma_table_parts(
    table: &PartitionTable,
    index: usize,
    partition: Option<&Partition>,
    count: usize,
    empty: bool,
    first: Option<&Partition>,
)
    requires
        table@.len() == 4,
        call_ensures(PartitionTable::get, (table, index), partition),
        call_ensures(PartitionTable::len, (table,), count),
        call_ensures(PartitionTable::is_empty, (table,), empty),
        call_ensures(PartitionTable::first_fat, (table,), first),
    ensures
        index >= 4 ==> partition is None,
        index < 4 ==> (partition is Some <==> table@[index as int] is Some),
        partition matches Some(found) ==> table@[index as int] == Some(*found),
        count == table@.filter(|slot: Option<Partition>| slot is Some).len(),
        empty <==> count == 0,
        first is None <==> forall|i: int|
            0 <= i < 4 ==> !(#[trigger] table@[i] is Some && crate::mbr::fat_kind(
                table@[i]->0.kind,
            )),
        first matches Some(found) ==> table@.contains(Some(*found)) && crate::mbr::fat_kind(
            found.kind,
        ),
{
    partitions::lemma_used(table@, 4);
    assert(table@.take(4) =~= table@);
    let fits = |i: int| table@[i] is Some && crate::mbr::fat_kind(table@[i]->0.kind);
    if !fits(0) && !fits(1) && !fits(2) && !fits(3) {
        partitions::lemma_first_fat(table@, 0, 4);
    } else {
        let i = if fits(0) {
            0int
        } else if fits(1) {
            1
        } else if fits(2) {
            2
        } else {
            3
        };
        partitions::lemma_first_fat(table@, 0, i);
        assert(table@[i] is Some && crate::mbr::fat_kind(table@[i]->0.kind));
    }
}

/// Numbers are read lowest byte first.
pub proof fn lemma_number_bytes(from: &[u8], at: usize, small: u16, large: u32)
    requires
        at + 4 <= from@.len(),
        call_ensures(crate::bytes::read_u16, (from, at), small),
        call_ensures(crate::bytes::read_u32, (from, at), large),
    ensures
        small == pair(from@, at as int),
        large == quad(from@, at as int),
{
}

/// What was written is read back.
pub proof fn lemma_number_written(into: &mut [u8], at: usize, value: u32)
    requires
        at + 4 <= old(into)@.len(),
        call_ensures(crate::bytes::write_u32, (into, at, value), ()),
    ensures
        final(into)@.len() == old(into)@.len(),
        quad(final(into)@, at as int) == value,
        forall|i: int|
            0 <= i < old(into)@.len() && !(at <= i < at + 4) ==> #[trigger] final(into)@[i] == old(
                into,
            )@[i],
{
    crate::bytes::lemma_u32_round_trip(value);
}

/// What was written of a short number is read back.
pub proof fn lemma_short_number_written(into: &mut [u8], at: usize, value: u16)
    requires
        at + 2 <= old(into)@.len(),
        call_ensures(crate::bytes::write_u16, (into, at, value), ()),
    ensures
        final(into)@.len() == old(into)@.len(),
        pair(final(into)@, at as int) == value,
        forall|i: int|
            0 <= i < old(into)@.len() && !(at <= i < at + 2) ==> #[trigger] final(into)@[i] == old(
                into,
            )@[i],
{
    crate::bytes::lemma_u16_round_trip(value);
}

/// Bytes are copied to where they are meant to go, and nowhere else.
pub proof fn lemma_copied(into: &mut [u8], at: usize, from: &[u8])
    requires
        at + from@.len() <= old(into)@.len(),
        call_ensures(crate::bytes::copy_into, (into, at, from), ()),
    ensures
        final(into)@.len() == old(into)@.len(),
        forall|i: int|
            0 <= i < old(into)@.len() ==> #[trigger] final(into)@[i] == (if at <= i < at
                + from@.len() {
                from@[i - at]
            } else {
                old(into)@[i]
            }),
{
}

/// Where a cluster is, and which there are.
pub proof fn lemma_cluster_answers(
    boot: &BootSector,
    cluster: u32,
    bytes: u32,
    sector: u32,
    valid: bool,
    run: &Run,
    length: u64,
)
    requires
        boot.wf(),
        call_ensures(BootSector::cluster_bytes, (boot,), bytes),
        call_ensures(BootSector::cluster_sector, (boot, cluster), sector),
        call_ensures(BootSector::is_valid_cluster, (boot, cluster), valid),
        call_ensures(Run::bytes, (run, bytes), length),
    ensures
        bytes == 512 * boot.sectors_per_cluster,
        valid <==> 0 <= cluster - 2 < boot.cluster_count,
        valid ==> sector == boot.data_start + (cluster - 2) * boot.sectors_per_cluster,
        !valid ==> sector == boot.data_start,
        length == run.clusters * bytes,
{
    geometry::lemma_cluster_places(*boot, cluster as int);
}

/// A moment counts its seconds and days, and is packed and unpacked, by the
/// calendar.
pub proof fn lemma_moment_answers(
    at: &DateTime,
    seconds: i64,
    days: i64,
    packed: Packed,
    unpacked: DateTime,
    epoch: DateTime,
)
    requires
        at.exists_in_calendar(),
        1980 <= at.year <= 2107,
        call_ensures(DateTime::to_unix_seconds, (at,), seconds),
        call_ensures(DateTime::days_since_fat_epoch, (at,), days),
        call_ensures(DateTime::pack, (at,), packed),
        call_ensures(DateTime::unpack, (packed,), unpacked),
        call_ensures(DateTime::EPOCH, (), epoch),
    ensures
        seconds == 315_532_800 + 86_400 * days + 3600 * at.hour + 60 * at.minute + at.second,
        unpacked == (DateTime { millisecond: (at.millisecond / 10 * 10) as u16, ..*at }),
        packed.date == (at.year - 1980) * 512 + at.month * 32 + at.day,
        epoch.year == 1980 && epoch.month == 1 && epoch.day == 1 && epoch.hour == 0 && epoch.minute
            == 0 && epoch.second == 0 && epoch.millisecond == 0,
{
    crate::calendar::lemma_stored_fields(*at);
    time::lemma_pack_round_trip(*at);
    time::lemma_day_number(1980, 1, 1);
}

} // verus!
