//! What messages tell: the numbers and the names that they are about.
use vstd::prelude::*;

use crate::error::{BootError, FatError, Fault, Geometry};
use crate::text;

verus! {

/// The number that decimal digits say.
pub open spec fn said(shown: Seq<char>) -> int
    decreases shown.len(),
{
    if shown.len() == 0 {
        0
    } else {
        10 * said(shown.drop_last()) + (shown.last() as u32 - '0' as u32)
    }
}

/// A number is shown in decimal digits that say it, without a needless nought.
pub proof fn lemma_numbers(n: nat)
    ensures
        said(text::digits(n)) == n,
        forall|i: int|
            0 <= i < text::digits(n).len() ==> '0' <= #[trigger] text::digits(n)[i] <= '9',
        text::digits(n).len() >= 1,
        n >= 10 ==> text::digits(n)[0] != '0',
    decreases n,
{
    let shown = text::digits(n);
    if n < 10 {
        assert(shown.drop_last() =~= Seq::<char>::empty());
        assert(said(shown.drop_last()) == 0);
    } else {
        lemma_numbers(n / 10);
        assert(shown.drop_last() =~= text::digits(n / 10));
        assert(shown[0] == text::digits(n / 10)[0]);
        if n / 10 < 10 {
            assert(text::digits(n / 10)[0] == (48 + n / 10) as char);
        }
    }
}

/// Whether a text has another in it.
pub open spec fn tells(whole: Seq<char>, part: Seq<char>) -> bool {
    exists|i: int|
        0 <= i <= whole.len() - part.len() && #[trigger] whole.subrange(i, i + part.len()) == part
}

/// A part of a text is in it.
proof fn lemma_tells(before: Seq<char>, part: Seq<char>, after: Seq<char>)
    ensures
        tells(before + part + after, part),
{
    let whole = before + part + after;
    let at = before.len() as int;
    assert(whole.subrange(at, at + part.len()) =~= part);
}

/// A text at the start or at the end of another is in it.
proof fn lemma_tells_ends(part: Seq<char>, other: Seq<char>)
    ensures
        tells(part + other, part),
        tells(other + part, part),
{
    lemma_tells(Seq::empty(), part, other);
    lemma_tells(other, part, Seq::empty());
    assert(Seq::<char>::empty() + part + other =~= part + other);
    assert(other + part + Seq::<char>::empty() =~= other + part);
}

/// A message about the table tells each number it has.
pub proof fn lemma_table_messages(error: FatError)
    ensures
        match error {
            FatError::BadCluster { cluster } => tells(error.text(), text::digits(cluster as nat)),
            FatError::ChainLoop { start } => tells(error.text(), text::digits(start as nat)),
            FatError::FreeClusterInChain { start, cluster } => tells(
                error.text(),
                text::digits(start as nat),
            ) && tells(error.text(), text::digits(cluster as nat)),
            FatError::DiskFull { wanted, free } => tells(error.text(), text::digits(wanted as nat))
                && tells(error.text(), text::digits(free as nat)),
            FatError::ChainShorterThanFile { start, size } => tells(
                error.text(),
                text::digits(start as nat),
            ) && tells(error.text(), text::digits(size as nat)),
        },
{
    match error {
        FatError::BadCluster { cluster } => {
            lemma_tells("cluster "@, text::digits(cluster as nat), " is outside the volume"@);
        },
        FatError::ChainLoop { start } => {
            lemma_tells("cluster chain from "@, text::digits(start as nat), " loops"@);
        },
        FatError::FreeClusterInChain { start, cluster } => {
            let (a, b) = (text::digits(start as nat), text::digits(cluster as nat));
            let (x, y) = ("cluster chain from "@, " runs into free cluster "@);
            lemma_tells(x, a, y + b);
            assert(x + a + (y + b) =~= x + a + y + b);
            lemma_tells_ends(b, x + a + y);
        },
        FatError::DiskFull { wanted, free } => {
            let (a, b) = (text::digits(wanted as nat), text::digits(free as nat));
            let (x, y, z) = ("no room: "@, " clusters wanted, "@, " free"@);
            lemma_tells(x, a, y + b + z);
            assert(x + a + (y + b + z) =~= x + a + y + b + z);
            lemma_tells(x + a + y, b, z);
        },
        FatError::ChainShorterThanFile { start, size } => {
            let (a, b) = (text::digits(start as nat), text::digits(size as nat));
            let (x, y, z) = (
                "the chain from "@,
                " is shorter than the "@,
                " bytes the entry claims"@,
            );
            lemma_tells(x, a, y + b + z);
            assert(x + a + (y + b + z) =~= x + a + y + b + z);
            lemma_tells(x + a + y, b, z);
        },
    }
}

/// A message about a geometry tells each number it has.
pub proof fn lemma_geometry_messages(geometry: Geometry)
    ensures
        match geometry {
            Geometry::SectorSize(n) => tells(geometry.text(), text::digits(n as nat)),
            Geometry::SectorsPerCluster(n) => tells(geometry.text(), text::digits(n as nat)),
            Geometry::ReservedSectors(n) => tells(geometry.text(), text::digits(n as nat)),
            Geometry::FatCount(n) => tells(geometry.text(), text::digits(n as nat)),
            Geometry::FatLength(n) => tells(geometry.text(), text::digits(n as nat)),
            Geometry::TotalSectors(n) => tells(geometry.text(), text::digits(n as nat)),
            Geometry::ClusterCount(n) => tells(geometry.text(), text::digits(n as nat)),
            Geometry::DataBeyondVolume { data_start, total_sectors } => tells(
                geometry.text(),
                text::digits(data_start as nat),
            ) && tells(geometry.text(), text::digits(total_sectors as nat)),
            Geometry::VolumeTooLarge { first_block, end, bound } => tells(
                geometry.text(),
                text::digits(first_block as nat),
            ) && tells(geometry.text(), text::digits(end as nat)) && tells(
                geometry.text(),
                text::digits(bound as nat),
            ),
        },
{
    match geometry {
        Geometry::SectorSize(n) => {
            lemma_tells(
                "sector size "@,
                text::digits(n as nat),
                " is not the 512 bytes this crate supports"@,
            );
        },
        Geometry::SectorsPerCluster(n) => {
            lemma_tells(
                "sectors per cluster "@,
                text::digits(n as nat),
                " is not a power of two"@,
            );
        },
        Geometry::ReservedSectors(n) => {
            lemma_tells_ends(text::digits(n as nat), "reserved sector count is "@);
        },
        Geometry::FatCount(n) => {
            lemma_tells_ends(text::digits(n as nat), "file allocation table count is "@);
        },
        Geometry::FatLength(n) => {
            lemma_tells_ends(text::digits(n as nat), "file allocation table length is "@);
        },
        Geometry::TotalSectors(n) => {
            lemma_tells_ends(text::digits(n as nat), "total sector count is "@);
        },
        Geometry::ClusterCount(n) => {
            lemma_tells_ends(
                text::digits(n as nat),
                " clusters is more than the format can address"@,
            );
        },
        Geometry::DataBeyondVolume { data_start, total_sectors } => {
            let (a, b) = (text::digits(data_start as nat), text::digits(total_sectors as nat));
            let (x, y, z) = ("data area starts at sector "@, ", past the volume's "@, " sectors"@);
            lemma_tells(x, a, y + b + z);
            assert(x + a + (y + b + z) =~= x + a + y + b + z);
            lemma_tells(x + a + y, b, z);
        },
        Geometry::VolumeTooLarge { first_block, end, bound } => {
            let (a, b) = (text::digits(first_block as nat), text::digits(end as nat));
            let c = text::digits(bound as nat);
            let (w, x, y, z) = ("volume needs blocks "@, ".."@, ", but only "@, " are available"@);
            lemma_tells(w, a, x + b + y + c + z);
            assert(w + a + (x + b + y + c + z) =~= w + a + x + b + y + c + z);
            lemma_tells(w + a + x, b, y + c + z);
            assert(w + a + x + b + (y + c + z) =~= w + a + x + b + y + c + z);
            lemma_tells(w + a + x + b + y, c, z);
        },
    }
}

/// A message about a first block tells what is wrong with its geometry, or how
/// long it is.
pub proof fn lemma_boot_messages(error: BootError)
    ensures
        match error {
            BootError::BadGeometry(geometry) => tells(error.text(), geometry.text()),
            BootError::UnsupportedFormat(format) => tells(error.text(), format.text()),
            BootError::ShortBlock { len } => tells(error.text(), text::digits(len as nat)),
            BootError::NotFat => true,
        },
{
    match error {
        BootError::BadGeometry(geometry) => {
            lemma_tells_ends(geometry.text(), "invalid boot sector: "@);
        },
        BootError::UnsupportedFormat(format) => {
            lemma_tells_ends(format.text(), " is not supported"@);
        },
        BootError::ShortBlock { len } => {
            lemma_tells(
                "boot sector block is "@,
                text::digits(len as nat),
                " bytes, but 512 are needed"@,
            );
        },
        BootError::NotFat => {},
    }
}

/// A message tells the name it is about whole, each number it has, and what
/// the device says.
pub proof fn lemma_messages(fault: Fault, device: Seq<char>)
    ensures
        match fault {
            Fault::Device => tells(fault.text(device), device),
            Fault::Boot(error) => tells(fault.text(device), error.text()),
            Fault::Fat(error) => tells(fault.text(device), error.text()),
            Fault::NotFound { name } => tells(fault.text(device), name),
            Fault::NotADirectory { name } => tells(fault.text(device), name),
            Fault::IsADirectory { name } => tells(fault.text(device), name),
            Fault::BadName { name } => tells(fault.text(device), name),
            Fault::NoAliasAvailable { name } => tells(fault.text(device), name),
            Fault::DirectoryNotEmpty { name } => tells(fault.text(device), name),
            Fault::AlreadyExists { name } => tells(fault.text(device), name),
            Fault::StaleFile { name } => tells(fault.text(device), name),
            Fault::NoSuchPartition { index } => tells(
                fault.text(device),
                text::digits(index as nat),
            ),
            Fault::EntryAfterEnd { index } => tells(fault.text(device), text::digits(index as nat)),
            Fault::BufferLength { expected, actual } => tells(
                fault.text(device),
                text::digits(expected as nat),
            ) && tells(fault.text(device), text::digits(actual as nat)),
            Fault::OutOfMemory { bytes } => tells(fault.text(device), text::digits(bytes as nat)),
            Fault::NoPartitionTable => true,
            Fault::DirectoryFull => true,
        },
{
    match fault {
        Fault::Device => {
            lemma_tells_ends(device, "block device error: "@);
        },
        Fault::Boot(error) => {
            lemma_tells_ends(error.text(), Seq::empty());
            assert(error.text() + Seq::<char>::empty() =~= error.text());
        },
        Fault::Fat(error) => {
            lemma_tells_ends(error.text(), Seq::empty());
            assert(error.text() + Seq::<char>::empty() =~= error.text());
        },
        Fault::NotFound { name } => {
            lemma_tells_ends(name, " not found"@);
        },
        Fault::NotADirectory { name } => {
            lemma_tells_ends(name, " is not a directory"@);
        },
        Fault::IsADirectory { name } => {
            lemma_tells_ends(name, " is a directory"@);
        },
        Fault::BadName { name } => {
            lemma_tells_ends(name, " cannot be stored as a FAT name"@);
        },
        Fault::NoAliasAvailable { name } => {
            lemma_tells_ends(name, "no free 8.3 alias is left for "@);
        },
        Fault::DirectoryNotEmpty { name } => {
            lemma_tells_ends(name, " is not empty"@);
        },
        Fault::AlreadyExists { name } => {
            lemma_tells_ends(name, " already exists"@);
        },
        Fault::StaleFile { name } => {
            lemma_tells(
                "the handle for "@,
                name,
                " no longer matches the entry it was opened from"@,
            );
        },
        Fault::NoSuchPartition { index } => {
            lemma_tells("partition "@, text::digits(index as nat), " is not in use"@);
        },
        Fault::EntryAfterEnd { index } => {
            lemma_tells(
                "directory has an allocated entry at index "@,
                text::digits(index as nat),
                ", after its end marker"@,
            );
        },
        Fault::BufferLength { expected, actual } => {
            let (a, b) = (text::digits(actual as nat), text::digits(expected as nat));
            let (x, y, z) = ("buffer is "@, " bytes, but "@, " were needed"@);
            lemma_tells(x, a, y + b + z);
            assert(x + a + (y + b + z) =~= x + a + y + b + z);
            lemma_tells(x + a + y, b, z);
        },
        Fault::OutOfMemory { bytes } => {
            lemma_tells("could not allocate "@, text::digits(bytes as nat), " bytes"@);
        },
        Fault::NoPartitionTable => {},
        Fault::DirectoryFull => {},
    }
}

} // verus!
