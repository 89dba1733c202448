//! What can go wrong, and how it is reported.
use vstd::prelude::*;

use crate::text;

verus! {

/// A FAT format this crate recognises and does not support.
#[non_exhaustive]
#[derive(Debug, Clone, Copy, PartialEq, Eq, Structural)]
pub enum Format {
    /// Twelve-bit table entries.
    Fat12,
    /// Sixteen-bit table entries.
    Fat16,
}

/// The boot sector field that makes no sense, with what it held.
#[non_exhaustive]
#[derive(Debug, Clone, Copy, PartialEq, Eq, Structural)]
pub enum Geometry {
    /// Bytes per sector is not 512.
    SectorSize(u16),
    /// Sectors per cluster is not a power of two.
    SectorsPerCluster(u8),
    /// There are no reserved sectors, so no room for the boot sector itself.
    ReservedSectors(u16),
    /// There is no allocation table.
    FatCount(u8),
    /// The allocation table has no length.
    FatLength(u32),
    /// The volume has no sectors.
    TotalSectors(u32),
    /// The data area starts at or past the end of the volume.
    DataBeyondVolume {
        /// The sector the data area would start at.
        data_start: u32,
        /// How many sectors the volume has.
        total_sectors: u32,
    },
    /// More clusters than the format can number.
    ClusterCount(u32),
    /// The volume does not fit where it was found.
    VolumeTooLarge {
        /// The device block the volume starts at.
        first_block: u64,
        /// The device block past the volume's last.
        end: u64,
        /// How many device blocks there are for it.
        bound: u64,
    },
}

/// A problem with a cluster chain or with free space.
#[non_exhaustive]
#[derive(Debug, Clone, Copy, PartialEq, Eq, Structural)]
pub enum FatError {
    /// A cluster number outside the volume.
    BadCluster {
        /// The number.
        cluster: u32,
    },
    /// A chain longer than the volume has clusters.
    ChainLoop {
        /// Where the chain starts.
        start: u32,
    },
    /// A chain that leads into an unallocated cluster.
    FreeClusterInChain {
        /// Where the chain starts.
        start: u32,
        /// The cluster marked free.
        cluster: u32,
    },
    /// Not enough free clusters.
    DiskFull {
        /// How many clusters were asked for.
        wanted: u32,
        /// How many there are.
        free: u32,
    },
    /// A file whose chain holds fewer bytes than its length.
    ChainShorterThanFile {
        /// Where the chain starts.
        start: u32,
        /// The length it should cover.
        size: u32,
    },
}

/// Why a boot sector was refused.
#[non_exhaustive]
#[derive(Debug, Clone, Copy, PartialEq, Eq, Structural)]
pub enum BootError {
    /// The boot signature is missing.
    NotFat,
    /// A FAT volume of another kind.
    UnsupportedFormat(Format),
    /// A field that cannot be right.
    BadGeometry(Geometry),
    /// Fewer bytes than a boot sector has.
    ShortBlock {
        /// How many bytes there were.
        len: usize,
    },
}

/// Everything an operation on a volume can fail with.
#[non_exhaustive]
#[derive(Debug, Clone, PartialEq, Eq)]
pub enum Error<E> {
    /// The block device failed.
    Device(E),
    /// The boot sector was refused.
    Boot(BootError),
    /// The device holds no partition table.
    NoPartitionTable,
    /// The partition table's slot is not in use.
    NoSuchPartition {
        /// The slot.
        index: usize,
    },
    /// The allocation table is damaged, or the volume is full.
    Fat(FatError),
    /// A directory holds an entry past its end marker.
    EntryAfterEnd {
        /// The entry's slot.
        index: usize,
    },
    /// No entry has this name.
    NotFound {
        /// The name.
        name: String,
    },
    /// A file where a directory was needed.
    NotADirectory {
        /// Its name.
        name: String,
    },
    /// A directory where a file was needed.
    IsADirectory {
        /// Its name.
        name: String,
    },
    /// A directory has no room for another entry.
    DirectoryFull,
    /// A name the format cannot hold.
    BadName {
        /// The name.
        name: String,
    },
    /// Every 8.3 alias for the name is taken.
    NoAliasAvailable {
        /// The name.
        name: String,
    },
    /// A directory to be removed still has entries.
    DirectoryNotEmpty {
        /// Its name.
        name: String,
    },
    /// The name is taken.
    AlreadyExists {
        /// The name.
        name: String,
    },
    /// A file handle that no longer matches its directory entry.
    StaleFile {
        /// The file's short name.
        name: String,
    },
    /// A buffer of the wrong length.
    BufferLength {
        /// The length that was needed.
        expected: u64,
        /// The length it has.
        actual: usize,
    },
    /// Memory could not be had.
    OutOfMemory {
        /// How much was asked for.
        bytes: u64,
    },
}

/// What an operation on a volume returns.
pub type Result<T, E> = core::result::Result<T, Error<E>>;

/// A buffer of `count` copies of `value`, or the error that says how much
/// memory could not be had. Whether it can be had is the allocator's to say,
/// except that nothing always can, and more than the address space never.
pub fn try_filled<T: Clone, E>(value: T, count: u64) -> (result: Result<Vec<T>, E>)
    ensures
        match result {
            Ok(buffer) => {
                &&& buffer@.len() == count
                &&& forall|i: int| 0 <= i < count ==> cloned(value, #[trigger] buffer@[i])
            },
            Err(error) => error == Error::<E>::OutOfMemory {
                bytes: if count * vstd::layout::size_of::<T>() > u64::MAX {
                    u64::MAX
                } else {
                    (count * vstd::layout::size_of::<T>()) as u64
                },
            },
        },
        count == 0 ==> result is Ok,
        count > usize::MAX ==> result is Err,
        count * vstd::layout::size_of::<T>() > isize::MAX ==> result is Err,
{
    if count == 0 {
        return Ok(Vec::new());
    }
    let size: u64 = core::mem::size_of::<T>() as u64;
    let bytes: u64 = match count.checked_mul(size) {
        Some(bytes) => bytes,
        None => u64::MAX,
    };
    let count: usize = match usize::try_from(count) {
        Ok(count) => count,
        Err(_) => {
            return Err(Error::OutOfMemory { bytes });
        },
    };
    if bytes > isize::MAX as u64 {
        return Err(Error::OutOfMemory { bytes });
    }
    let mut buffer: Vec<T> = Vec::new();
    if buffer.try_reserve(count).is_err() {
        return Err(Error::OutOfMemory { bytes });
    }
    buffer.resize(count, value);
    Ok(buffer)
}

/// An error as a mathematical value: names are character sequences, and a
/// failure outside the library's control carries nothing.
pub enum Fault {
    Device,
    Boot(BootError),
    NoPartitionTable,
    NoSuchPartition { index: int },
    Fat(FatError),
    EntryAfterEnd { index: int },
    NotFound { name: Seq<char> },
    NotADirectory { name: Seq<char> },
    IsADirectory { name: Seq<char> },
    DirectoryFull,
    BadName { name: Seq<char> },
    NoAliasAvailable { name: Seq<char> },
    DirectoryNotEmpty { name: Seq<char> },
    AlreadyExists { name: Seq<char> },
    StaleFile { name: Seq<char> },
    BufferLength { expected: int, actual: int },
    OutOfMemory { bytes: int },
}

impl<E> View for Error<E> {
    type V = Fault;

    open spec fn view(&self) -> Fault {
        match *self {
            Error::Device(_) => Fault::Device,
            Error::Boot(error) => Fault::Boot(error),
            Error::NoPartitionTable => Fault::NoPartitionTable,
            Error::NoSuchPartition { index } => Fault::NoSuchPartition { index: index as int },
            Error::Fat(error) => Fault::Fat(error),
            Error::EntryAfterEnd { index } => Fault::EntryAfterEnd { index: index as int },
            Error::NotFound { name } => Fault::NotFound { name: name@ },
            Error::NotADirectory { name } => Fault::NotADirectory { name: name@ },
            Error::IsADirectory { name } => Fault::IsADirectory { name: name@ },
            Error::DirectoryFull => Fault::DirectoryFull,
            Error::BadName { name } => Fault::BadName { name: name@ },
            Error::NoAliasAvailable { name } => Fault::NoAliasAvailable { name: name@ },
            Error::DirectoryNotEmpty { name } => Fault::DirectoryNotEmpty { name: name@ },
            Error::AlreadyExists { name } => Fault::AlreadyExists { name: name@ },
            Error::StaleFile { name } => Fault::StaleFile { name: name@ },
            Error::BufferLength { expected, actual } => Fault::BufferLength {
                expected: expected as int,
                actual: actual as int,
            },
            Error::OutOfMemory { bytes } => Fault::OutOfMemory { bytes: bytes as int },
        }
    }
}

impl<E> Error<E> {
    /// A device's own error, wrapped.
    pub fn device(error: E) -> (wrapped: Self)
        ensures
            wrapped == Error::Device(error),
    {
        Error::Device(error)
    }

    /// Whether the failure came from outside: from the device, or from the
    /// allocator. Every other failure is decided by the volume's contents
    /// and the arguments.
    pub open spec fn is_external(self) -> bool {
        self is Device || self is OutOfMemory
    }
}

impl Format {
    /// What the message says.
    pub open spec fn text(self) -> Seq<char> {
        match self {
            Format::Fat12 => "FAT12"@,
            Format::Fat16 => "FAT16"@,
        }
    }

    /// A message for people.
    pub fn message(&self) -> (message: String)
        ensures
            message@ == self.text(),
    {
        match self {
            Format::Fat12 => "FAT12".to_owned(),
            Format::Fat16 => "FAT16".to_owned(),
        }
    }
}

impl Geometry {
    /// What the message says.
    pub open spec fn text(self) -> Seq<char> {
        match self {
            Geometry::SectorSize(size) => "sector size "@ + text::digits(size as nat)
                + " is not the 512 bytes this crate supports"@,
            Geometry::SectorsPerCluster(count) => "sectors per cluster "@
                + text::digits(count as nat) + " is not a power of two"@,
            Geometry::ReservedSectors(count) => "reserved sector count is "@
                + text::digits(count as nat),
            Geometry::FatCount(count) => "file allocation table count is "@
                + text::digits(count as nat),
            Geometry::FatLength(length) => "file allocation table length is "@
                + text::digits(length as nat),
            Geometry::TotalSectors(count) => "total sector count is "@ + text::digits(count as nat),
            Geometry::DataBeyondVolume { data_start, total_sectors } => "data area starts at sector "@
                + text::digits(data_start as nat) + ", past the volume's "@
                + text::digits(total_sectors as nat) + " sectors"@,
            Geometry::ClusterCount(count) => text::digits(count as nat)
                + " clusters is more than the format can address"@,
            Geometry::VolumeTooLarge { first_block, end, bound } => "volume needs blocks "@
                + text::digits(first_block as nat) + ".."@ + text::digits(end as nat)
                + ", but only "@ + text::digits(bound as nat) + " are available"@,
        }
    }

    /// A message for people.
    pub fn message(&self) -> (message: String)
        ensures
            message@ == self.text(),
    {
        match self {
            Geometry::SectorSize(size) => "sector size ".to_owned()
                .concat(text::decimal(*size as u64).as_str())
                .concat(" is not the 512 bytes this crate supports"),
            Geometry::SectorsPerCluster(count) => "sectors per cluster ".to_owned()
                .concat(text::decimal(*count as u64).as_str())
                .concat(" is not a power of two"),
            Geometry::ReservedSectors(count) => "reserved sector count is ".to_owned()
                .concat(text::decimal(*count as u64).as_str()),
            Geometry::FatCount(count) => "file allocation table count is ".to_owned()
                .concat(text::decimal(*count as u64).as_str()),
            Geometry::FatLength(length) => "file allocation table length is ".to_owned()
                .concat(text::decimal(*length as u64).as_str()),
            Geometry::TotalSectors(count) => "total sector count is ".to_owned()
                .concat(text::decimal(*count as u64).as_str()),
            Geometry::DataBeyondVolume { data_start, total_sectors } => "data area starts at sector ".to_owned()
                .concat(text::decimal(*data_start as u64).as_str())
                .concat(", past the volume's ")
                .concat(text::decimal(*total_sectors as u64).as_str())
                .concat(" sectors"),
            Geometry::ClusterCount(count) => text::decimal(*count as u64)
                .concat(" clusters is more than the format can address"),
            Geometry::VolumeTooLarge { first_block, end, bound } => "volume needs blocks ".to_owned()
                .concat(text::decimal(*first_block as u64).as_str())
                .concat("..")
                .concat(text::decimal(*end as u64).as_str())
                .concat(", but only ")
                .concat(text::decimal(*bound as u64).as_str())
                .concat(" are available"),
        }
    }
}

impl FatError {
    /// What the message says.
    pub open spec fn text(self) -> Seq<char> {
        match self {
            FatError::BadCluster { cluster } => "cluster "@ + text::digits(cluster as nat)
                + " is outside the volume"@,
            FatError::ChainLoop { start } => "cluster chain from "@ + text::digits(start as nat)
                + " loops"@,
            FatError::FreeClusterInChain { start, cluster } => "cluster chain from "@
                + text::digits(start as nat) + " runs into free cluster "@
                + text::digits(cluster as nat),
            FatError::DiskFull { wanted, free } => "no room: "@ + text::digits(wanted as nat)
                + " clusters wanted, "@ + text::digits(free as nat) + " free"@,
            FatError::ChainShorterThanFile { start, size } => "the chain from "@
                + text::digits(start as nat) + " is shorter than the "@
                + text::digits(size as nat) + " bytes the entry claims"@,
        }
    }

    /// A message for people.
    pub fn message(&self) -> (message: String)
        ensures
            message@ == self.text(),
    {
        match self {
            FatError::BadCluster { cluster } => "cluster ".to_owned()
                .concat(text::decimal(*cluster as u64).as_str())
                .concat(" is outside the volume"),
            FatError::ChainLoop { start } => "cluster chain from ".to_owned()
                .concat(text::decimal(*start as u64).as_str())
                .concat(" loops"),
            FatError::FreeClusterInChain { start, cluster } => "cluster chain from ".to_owned()
                .concat(text::decimal(*start as u64).as_str())
                .concat(" runs into free cluster ")
                .concat(text::decimal(*cluster as u64).as_str()),
            FatError::DiskFull { wanted, free } => "no room: ".to_owned()
                .concat(text::decimal(*wanted as u64).as_str())
                .concat(" clusters wanted, ")
                .concat(text::decimal(*free as u64).as_str())
                .concat(" free"),
            FatError::ChainShorterThanFile { start, size } => "the chain from ".to_owned()
                .concat(text::decimal(*start as u64).as_str())
                .concat(" is shorter than the ")
                .concat(text::decimal(*size as u64).as_str())
                .concat(" bytes the entry claims"),
        }
    }
}

impl BootError {
    /// What the message says.
    pub open spec fn text(self) -> Seq<char> {
        match self {
            BootError::NotFat => "no FAT boot signature"@,
            BootError::UnsupportedFormat(format) => format.text() + " is not supported"@,
            BootError::BadGeometry(geometry) => "invalid boot sector: "@ + geometry.text(),
            BootError::ShortBlock { len } => "boot sector block is "@ + text::digits(len as nat)
                + " bytes, but 512 are needed"@,
        }
    }

    /// A message for people.
    pub fn message(&self) -> (message: String)
        ensures
            message@ == self.text(),
    {
        match self {
            BootError::NotFat => "no FAT boot signature".to_owned(),
            BootError::UnsupportedFormat(format) => format.message().concat(" is not supported"),
            BootError::BadGeometry(geometry) => "invalid boot sector: ".to_owned()
                .concat(geometry.message().as_str()),
            BootError::ShortBlock { len } => "boot sector block is ".to_owned()
                .concat(text::decimal(*len as u64).as_str())
                .concat(" bytes, but 512 are needed"),
        }
    }
}

impl Fault {
    /// What the message says, where the device's own error shows as `device`.
    pub open spec fn text(self, device: Seq<char>) -> Seq<char> {
        match self {
            Fault::Device => "block device error: "@ + device,
            Fault::Boot(error) => error.text(),
            Fault::NoPartitionTable => "no partition table"@,
            Fault::NoSuchPartition { index } => "partition "@ + text::digits(index as nat)
                + " is not in use"@,
            Fault::Fat(error) => error.text(),
            Fault::EntryAfterEnd { index } => "directory has an allocated entry at index "@
                + text::digits(index as nat) + ", after its end marker"@,
            Fault::NotFound { name } => name + " not found"@,
            Fault::NotADirectory { name } => name + " is not a directory"@,
            Fault::IsADirectory { name } => name + " is a directory"@,
            Fault::DirectoryFull => "directory is full"@,
            Fault::BadName { name } => name + " cannot be stored as a FAT name"@,
            Fault::NoAliasAvailable { name } => "no free 8.3 alias is left for "@ + name,
            Fault::DirectoryNotEmpty { name } => name + " is not empty"@,
            Fault::AlreadyExists { name } => name + " already exists"@,
            Fault::StaleFile { name } => "the handle for "@ + name
                + " no longer matches the entry it was opened from"@,
            Fault::BufferLength { expected, actual } => "buffer is "@
                + text::digits(actual as nat) + " bytes, but "@ + text::digits(expected as nat)
                + " were needed"@,
            Fault::OutOfMemory { bytes } => "could not allocate "@ + text::digits(bytes as nat)
                + " bytes"@,
        }
    }
}

/// Whether the formatter's `{:?}` may show a value as this text: whether it is
/// what [`shown`] may return for it.
pub closed spec fn shows<E: core::fmt::Debug>(value: E, text: Seq<char>) -> bool {
    exists|string: String| #[trigger]
        call_ensures(shown::<E>, (&value,), string) && string@ == text
}

/// A value as the formatter's `{:?}` shows it. What that is, is up to the
/// value's type.
#[verifier::external_body]
fn shown<E: core::fmt::Debug>(value: &E) -> (text: String) {
    format!("{:?}", value)
}

impl<E> Error<E> {
    /// A message for people, where the device's own error shows as `device`.
    pub fn message_with(&self, device: &str) -> (message: String)
        ensures
            message@ == self@.text(device@),
    {
        match self {
            Error::Device(_) => "block device error: ".to_owned().concat(device),
            Error::Boot(error) => error.message(),
            Error::NoPartitionTable => "no partition table".to_owned(),
            Error::NoSuchPartition { index } => "partition ".to_owned()
                .concat(text::decimal(*index as u64).as_str())
                .concat(" is not in use"),
            Error::Fat(error) => error.message(),
            Error::EntryAfterEnd { index } => "directory has an allocated entry at index ".to_owned()
                .concat(text::decimal(*index as u64).as_str())
                .concat(", after its end marker"),
            Error::NotFound { name } => name.as_str().to_owned().concat(" not found"),
            Error::NotADirectory { name } => name.as_str().to_owned().concat(" is not a directory"),
            Error::IsADirectory { name } => name.as_str().to_owned().concat(" is a directory"),
            Error::DirectoryFull => "directory is full".to_owned(),
            Error::BadName { name } => name.as_str().to_owned()
                .concat(" cannot be stored as a FAT name"),
            Error::NoAliasAvailable { name } => "no free 8.3 alias is left for ".to_owned()
                .concat(name.as_str()),
            Error::DirectoryNotEmpty { name } => name.as_str().to_owned().concat(" is not empty"),
            Error::AlreadyExists { name } => name.as_str().to_owned().concat(" already exists"),
            Error::StaleFile { name } => "the handle for ".to_owned()
                .concat(name.as_str())
                .concat(" no longer matches the entry it was opened from"),
            Error::BufferLength { expected, actual } => "buffer is ".to_owned()
                .concat(text::decimal(*actual as u64).as_str())
                .concat(" bytes, but ")
                .concat(text::decimal(*expected as u64).as_str())
                .concat(" were needed"),
            Error::OutOfMemory { bytes } => "could not allocate ".to_owned()
                .concat(text::decimal(*bytes as u64).as_str())
                .concat(" bytes"),
        }
    }


    /// A message for people. The device's own error is in it the way
    /// debugging output shows it, and nothing else depends on that.
    pub fn message(&self) -> (message: String) where E: core::fmt::Debug
        ensures
            match *self {
                Error::Device(error) => exists|device: Seq<char>| #[trigger]
                    shows(error, device) && message@ == self@.text(device),
                _ => message@ == self@.text(Seq::empty()),
            },
    {
        match self {
            Error::Device(error) => {
                let device: String = shown(error);
                assert(shows(*error, device@));
                self.message_with(device.as_str())
            },
            _ => {
                proof {
                    reveal_strlit("");
                    assert(""@ =~= Seq::<char>::empty());
                }
                self.message_with("")
            },
        }
    }
}

impl<E> From<BootError> for Error<E> {
    fn from(error: BootError) -> (wrapped: Self) {
        Error::Boot(error)
    }
}

impl<E> vstd::std_specs::convert::FromSpecImpl<BootError> for Error<E> {
    open spec fn obeys_from_spec() -> bool {
        true
    }

    open spec fn from_spec(error: BootError) -> Self {
        Error::Boot(error)
    }
}

impl<E> From<FatError> for Error<E> {
    fn from(error: FatError) -> (wrapped: Self) {
        Error::Fat(error)
    }
}

impl<E> vstd::std_specs::convert::FromSpecImpl<FatError> for Error<E> {
    open spec fn obeys_from_spec() -> bool {
        true
    }

    open spec fn from_spec(error: FatError) -> Self {
        Error::Fat(error)
    }
}

} // verus!
