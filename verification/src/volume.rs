//! A mounted volume as a mathematical object, and what each operation does
//! to it.
use vstd::prelude::*;

use crate::blockdev;
use crate::blockdev::Access;
use crate::boot::{BootSector, FsInfo};
use crate::bytes;
use crate::calls;
use crate::codepage::Codepage;
use crate::dir;
use crate::dir::Listing;
use crate::error::{Error, FatError, Fault};
use crate::table;
use crate::table::{Run, Table};
use crate::time::DateTime;

verus! {

/// Everything a mounted volume is: what the device stores and has been asked
/// for, and what is held in memory.
#[verifier::ext_equal]
pub struct Volume {
    /// The device's bytes.
    pub disk: Seq<u8>,
    /// The calls made of the device.
    pub history: Seq<Access>,
    /// The device's longest transfer.
    pub limit: u64,
    /// The size the device reports, in blocks.
    pub capacity: Option<u64>,
    /// The device block the volume starts at.
    pub first_block: u64,
    /// The boot sector as it was at mount.
    pub boot: BootSector,
    /// The free-space hints as they were last read or written.
    pub fs_info: FsInfo,
    /// The allocation table.
    pub table: Table,
    /// The directories that have been read, by first cluster.
    pub directories: Map<u32, Listing>,
    /// How often something was deleted, by directory.
    pub deletions: Map<u32, u32>,
    /// What the bytes of 8.3 names stand for.
    pub codepage: Codepage,
    /// The times the volume's clock may say.
    pub clock: Set<DateTime>,
    /// Whether this mount has set the dirty flag and not cleared it.
    pub marked_dirty: bool,
}

/// A byte with its lowest bit set, or cleared.
pub open spec fn with_low_bit(byte: u8, set: bool) -> u8 {
    (byte - byte % 2 + if set {
        1int
    } else {
        0
    }) as u8
}

impl Volume {
    /// The geometry holds together, the table is the one the boot sector
    /// describes, and block numbers fit.
    pub open spec fn laid_out(self) -> bool {
        &&& self.boot.wf()
        &&& self.table.wf()
        &&& self.table.cluster_count == self.boot.cluster_count
        &&& self.table.fat_start == self.boot.fat_start
        &&& self.table.sectors_per_fat == self.boot.sectors_per_fat
        &&& self.table.fat_count == self.boot.fat_count
        &&& self.first_block + self.boot.extent() <= u64::MAX
    }

    /// The volume is laid out as it should be, and so is every directory that
    /// is held.
    pub open spec fn wf(self) -> bool {
        &&& self.laid_out()
        &&& forall|cluster: u32| #[trigger]
            self.directories.contains_key(cluster) ==> self.directories[cluster].wf()
    }

    /// What no operation changes.
    pub open spec fn kept(self, before: Volume) -> bool {
        &&& self.limit == before.limit
        &&& self.first_block == before.first_block
        &&& self.boot == before.boot
        &&& self.codepage == before.codepage
        &&& self.clock == before.clock
        &&& self.history.len() >= before.history.len()
    }

    /// What reading changes at most: the calls made, and the directories
    /// held.
    pub open spec fn only_read(self, before: Volume) -> bool {
        &&& self.kept(before)
        &&& self.table == before.table
        &&& self.fs_info == before.fs_info
        &&& self.deletions == before.deletions
        &&& self.marked_dirty == before.marked_dirty
    }

    /// Where a sector of the volume starts among the device's bytes.
    pub open spec fn at(self, sector: int) -> int {
        512 * (self.first_block + sector)
    }

    /// Where a cluster starts among the device's bytes.
    pub open spec fn cluster_at(self, cluster: int) -> int {
        self.at(self.boot.spec_cluster_sector(cluster))
    }

    /// Bytes in a cluster.
    pub open spec fn cluster_bytes(self) -> int {
        self.boot.spec_cluster_bytes()
    }

    /// The most blocks a call moves.
    pub open spec fn batch(self) -> int {
        blockdev::batch_blocks(self.limit)
    }

    /// `n` sectors from `sector` on.
    pub open spec fn sectors(self, sector: int, n: int) -> Seq<u8> {
        self.disk.subrange(self.at(sector), self.at(sector) + 512 * n)
    }

    /// The calls that read `n` sectors from `sector` on.
    pub open spec fn sector_reads(self, sector: int, n: int) -> Seq<Access> {
        blockdev::reads(self.first_block + sector, n, self.batch())
    }

    /// The volume after reading `n` sectors from `sector` on.
    pub open spec fn after_read(self, sector: int, n: int) -> Volume {
        Volume { history: self.history + self.sector_reads(sector, n), ..self }
    }

    /// The boot sector's block with the dirty flag set or cleared.
    pub open spec fn flagged_block(self, dirty: bool) -> Seq<u8> {
        let block = self.sectors(0, 1);
        block.update(0x41, with_low_bit(block[0x41], dirty))
    }

    /// The volume after its dirty flag is written: the block is read, one bit
    /// changed, and the block written back.
    pub open spec fn flagged(self, dirty: bool) -> Volume {
        Volume {
            disk: bytes::splice(self.disk, self.at(0), self.flagged_block(dirty)),
            history: self.history.push(
                Access::Read { start: self.first_block as int, blocks: 1 },
            ).push(
                Access::Write {
                    start: self.first_block as int,
                    data: self.flagged_block(dirty),
                },
            ),
            ..self
        }
    }

    /// The volume once it is marked dirty: by the first change of a mount,
    /// and until it is synced.
    pub open spec fn marked(self) -> Volume {
        if self.marked_dirty {
            self
        } else {
            Volume { marked_dirty: true, ..self.flagged(true) }
        }
    }

    /// The volume after `data` is written from `sector` on. The dirty flag
    /// goes first.
    pub open spec fn wrote(self, sector: int, data: Seq<u8>) -> Volume {
        let volume = self.marked();
        Volume {
            disk: bytes::splice(volume.disk, self.at(sector), data),
            history: volume.history + blockdev::writes(
                self.first_block + sector,
                data,
                self.batch(),
            ),
            ..volume
        }
    }

    /// Whether a run lies in the volume and a buffer has its length; what is
    /// wrong otherwise.
    pub open spec fn run_fault(self, run: Run, length: int) -> Option<Fault> {
        let last = run.start_cluster + run.clusters - 1;
        let reported = if last > u32::MAX {
            u32::MAX
        } else {
            last as u32
        };
        if run.clusters != 0 && !self.table.valid(run.start_cluster as int) {
            Some(Fault::Fat(FatError::BadCluster { cluster: run.start_cluster }))
        } else if run.clusters != 0 && !self.table.valid(last) {
            Some(Fault::Fat(FatError::BadCluster { cluster: reported }))
        } else if length != run.clusters * self.cluster_bytes() {
            Some(
                Fault::BufferLength {
                    expected: run.clusters * self.cluster_bytes(),
                    actual: length,
                },
            )
        } else {
            None
        }
    }

    /// The calls that read the given runs, one after another: one call each,
    /// where the device's limit allows.
    pub open spec fn run_reads(self, runs: Seq<Run>) -> Seq<Access>
        decreases runs.len(),
    {
        if runs.len() == 0 {
            Seq::empty()
        } else {
            self.run_reads(runs.drop_last()) + self.sector_reads(
                self.boot.spec_cluster_sector(runs.last().start_cluster as int),
                runs.last().clusters * self.boot.sectors_per_cluster,
            )
        }
    }

    /// The bytes of the given clusters, one after another.
    pub open spec fn chain_bytes(self, clusters: Seq<u32>) -> Seq<u8> {
        Seq::new(
            (clusters.len() * self.cluster_bytes()) as nat,
            |i: int| self.chain_byte(clusters, i),
        )
    }

    /// Where byte `i` of a chain is among the device's bytes.
    pub open spec fn position(self, clusters: Seq<u32>, i: int) -> int {
        self.cluster_at(clusters[i / self.cluster_bytes()] as int) + i % self.cluster_bytes()
    }

    /// Byte `i` of a chain.
    pub open spec fn chain_byte(self, clusters: Seq<u32>, i: int) -> u8 {
        self.disk[self.position(clusters, i)]
    }

    /// Reading a whole chain.
    pub open spec fn read_chain(self, start: u32) -> (Volume, Result<Seq<u8>, Fault>) {
        match self.table.chain(start) {
            Err(error) => (self, Err(Fault::Fat(error))),
            Ok(clusters) => (
                Volume {
                    history: self.history + self.run_reads(table::coalesce(clusters)),
                    ..self
                },
                Ok(self.chain_bytes(clusters)),
            ),
        }
    }

    /// Reading a directory: from memory, where it is held, and otherwise from
    /// its chain.
    #[verifier::opaque]
    pub open spec fn read_dir(self, cluster: u32) -> (Volume, Result<Listing, Fault>) {
        if self.directories.contains_key(cluster) {
            (self, Ok(self.directories[cluster]))
        } else {
            let (volume, result) = self.read_chain(cluster);
            match result {
                Err(fault) => (volume, Err(fault)),
                Ok(data) => match dir::listing_of(data, self.codepage) {
                    Err(index) => (volume, Err(Fault::EntryAfterEnd { index })),
                    Ok(listing) => (
                        Volume {
                            directories: volume.directories.insert(cluster, listing),
                            ..volume
                        },
                        Ok(listing),
                    ),
                },
            }
        }
    }

    /// Going into the directory `name` of directory `cluster`. An entry that
    /// names cluster 0 leads to the root.
    pub open spec fn enter(self, cluster: u32, name: Seq<char>) -> (Volume, Result<u32, Fault>) {
        let (volume, result) = self.read_dir(cluster);
        match result {
            Err(fault) => (volume, Err(fault)),
            Ok(listing) => match listing.find(name) {
                None => (volume, Err(Fault::NotFound { name })),
                Some(entry) => if !entry.is_directory() {
                    (volume, Err(Fault::NotADirectory { name }))
                } else if entry.first_cluster == 0 {
                    (volume, Ok(self.boot.root_cluster))
                } else {
                    (volume, Ok(entry.first_cluster))
                },
            },
        }
    }

    /// Walking a path from directory `cluster` on.
    pub open spec fn resolve(self, cluster: u32, path: Seq<char>) -> (Volume, Result<u32, Fault>)
        decreases path.len(),
    {
        let name = first_component(path);
        let rest = after_component(path);
        if path.len() == 0 {
            (self, Ok(cluster))
        } else if name.len() == 0 || name =~= seq!['.'] {
            self.resolve(cluster, rest)
        } else {
            let (volume, result) = self.enter(cluster, name);
            match result {
                Err(fault) => (volume, Err(fault)),
                Ok(next) => volume.resolve(next, rest),
            }
        }
    }
}

impl Volume {
    /// Reading the directory a path leads to.
    pub open spec fn open_dir(self, path: Seq<char>) -> (Volume, Result<Listing, Fault>) {
        let (volume, result) = self.resolve(self.boot.root_cluster, path);
        match result {
            Err(fault) => (volume, Err(fault)),
            Ok(cluster) => volume.read_dir(cluster),
        }
    }

    /// The volume with one directory no longer held.
    pub open spec fn forgot(self, cluster: u32) -> Volume {
        Volume { directories: self.directories.remove(cluster), ..self }
    }
}

/// The stored form of `count` sectors of the table, from `sector` on.
pub open spec fn stretch_bytes(entries: Seq<u32>, sector: int, count: int) -> Seq<u8> {
    Seq::new((512 * count) as nat, |i: int| table::table_byte(entries, 512 * sector + i))
}

impl Volume {
    /// The volume after a stretch of the table is written to its first
    /// `copies` copies.
    pub open spec fn wrote_copies(self, stretch: (u32, u32), copies: int) -> Volume
        decreases copies,
    {
        if copies <= 0 {
            self
        } else {
            self.wrote_copies(stretch, copies - 1).wrote(
                self.table.fat_start + (copies - 1) * self.table.sectors_per_fat + stretch.0,
                stretch_bytes(self.table.entries, stretch.0 as int, stretch.1 as int),
            )
        }
    }

    /// The volume after the given stretches of the table are written, each to
    /// every copy.
    pub open spec fn wrote_stretches(self, stretches: Seq<(u32, u32)>) -> Volume
        decreases stretches.len(),
    {
        if stretches.len() == 0 {
            self
        } else {
            self.wrote_stretches(stretches.drop_last()).wrote_copies(
                stretches.last(),
                self.table.fat_count as int,
            )
        }
    }

    /// The volume after the table's changes are written.
    #[verifier::opaque]
    pub open spec fn flush(self) -> Volume {
        Volume {
            table: self.table.flushed(),
            ..self.wrote_stretches(
                table::dirty_stretches(self.table.dirty, self.table.dirty.len() as int),
            )
        }
    }

    /// The hints sector's block with the table's own numbers in it.
    pub open spec fn hints_block(self, sector: int) -> Seq<u8> {
        bytes::splice(
            bytes::splice(
                self.sectors(sector, 1),
                0x1E8,
                bytes::u32_bytes(self.table.free_count() as u32),
            ),
            0x1EC,
            bytes::u32_bytes(self.table.next_free),
        )
    }

    /// The volume after the free-space hints are written, where there is a
    /// place for them.
    pub open spec fn wrote_hints(self) -> Volume {
        match self.boot.fs_info_sector {
            None => self,
            Some(sector) => {
                let volume = self.after_read(sector as int, 1);
                if crate::boot::has_hints(self.sectors(sector as int, 1)) {
                    Volume {
                        fs_info: FsInfo {
                            free_clusters: Some(self.table.free_count() as u32),
                            next_free: Some(self.table.next_free),
                        },
                        ..volume.wrote(sector as int, self.hints_block(sector as int))
                    }
                } else {
                    volume
                }
            },
        }
    }

    /// The volume after everything is written and the dirty flag cleared;
    /// unchanged, where this mount changed nothing.
    pub open spec fn synced(self) -> Volume {
        if !self.marked_dirty {
            self
        } else {
            Volume { marked_dirty: false, ..self.flush().wrote_hints() }.flagged(false)
        }
    }

    /// The sector and the offset in it of a directory's slot.
    pub open spec fn slot_location(self, directory: u32, index: u32) -> Result<(int, int), Fault> {
        match self.table.chain(directory) {
            Err(error) => Err(Fault::Fat(error)),
            Ok(clusters) => {
                let block = index as int / 16;
                let spc = self.boot.sectors_per_cluster as int;
                if block / spc < clusters.len() {
                    Ok(
                        (
                            self.boot.spec_cluster_sector(clusters[block / spc] as int) + block
                                % spc,
                            index as int % 16 * 32,
                        ),
                    )
                } else {
                    Err(Fault::DirectoryFull)
                }
            },
        }
    }

    /// Changing one slot of a directory in place.
    #[verifier::opaque]
    pub open spec fn edit_slot(self, directory: u32, index: u32, edit: Edit) -> (
        Volume,
        Result<(), Fault>,
    ) {
        match self.slot_location(directory, index) {
            Err(fault) => (self, Err(fault)),
            Ok((sector, offset)) => {
                let block = self.sectors(sector, 1);
                let changed = edit.applied(block.subrange(offset, offset + 32));
                (
                    self.after_read(sector, 1).wrote(
                        sector,
                        bytes::splice(block, offset, changed),
                    ).forgot(directory),
                    Ok(()),
                )
            },
        }
    }

    /// A block of a directory with the slots among `entries` put in: the
    /// first of them goes to slot `index`.
    pub open spec fn filled_block(self, sector: int, block: int, index: int, entries: Seq<
        Seq<u8>,
    >) -> Seq<u8> {
        Seq::new(
            512,
            |i: int|
                {
                    let at = 16 * block + i / 32;
                    if index <= at < index + entries.len() {
                        entries[at - index][i % 32]
                    } else {
                        self.sectors(sector, 1)[i]
                    }
                },
        )
    }

    /// Writing consecutive slots of a directory, from block `block` on.
    pub open spec fn write_slots(
        self,
        directory: u32,
        index: int,
        entries: Seq<Seq<u8>>,
        block: int,
    ) -> (Volume, Result<(), Fault>)
        decreases index + entries.len() + 16 - 16 * block,
    {
        if 16 * block >= index + entries.len() {
            (self.forgot(directory), Ok(()))
        } else {
            match self.slot_location(directory, (16 * block) as u32) {
                Err(fault) => (self, Err(fault)),
                Ok((sector, _)) => self.after_read(sector, 1).wrote(
                    sector,
                    self.filled_block(sector, block, index, entries),
                ).write_slots(directory, index, entries, block + 1),
            }
        }
    }

    /// Writing consecutive slots of a directory: the earlier blocks first.
    pub open spec fn put_slots(self, directory: u32, index: u32, entries: Seq<Seq<u8>>) -> (
        Volume,
        Result<(), Fault>,
    ) {
        self.write_slots(directory, index as int, entries, index as int / 16)
    }

    /// How often something was deleted from a directory.
    pub open spec fn deletions_of(self, directory: u32) -> u32 {
        if self.deletions.contains_key(directory) {
            self.deletions[directory]
        } else {
            0
        }
    }

    /// The volume after one more deletion from a directory is counted.
    pub open spec fn counted(self, directory: u32) -> Volume {
        Volume {
            deletions: self.deletions.insert(
                directory,
                ((self.deletions_of(directory) + 1) % 0x1_0000_0000) as u32,
            ),
            ..self
        }
    }

    /// Marking slots `last` down to `first` deleted.
    pub open spec fn delete_down(self, directory: u32, first: u32, last: u32) -> (
        Volume,
        Result<(), Fault>,
    )
        decreases last,
    {
        let (volume, result) = self.edit_slot(directory, last, Edit::Delete);
        if result is Err || last <= first {
            (volume, result)
        } else {
            volume.delete_down(directory, first, (last - 1) as u32)
        }
    }

    /// Deleting the entry in slot `last` with its long name: the entry goes
    /// first.
    pub open spec fn delete_slots(self, directory: u32, first: u32, last: u32) -> (
        Volume,
        Result<(), Fault>,
    ) {
        self.counted(directory).delete_down(directory, first, last)
    }

    /// Making a directory one cluster longer: the new cluster is cleared
    /// before the directory leads to it.
    #[verifier::opaque]
    pub open spec fn grow_directory(self, directory: u32) -> (Volume, Result<(), Fault>) {
        match self.table.chain(directory) {
            Err(error) => (self, Err(Fault::Fat(error))),
            Ok(clusters) => {
                let (table, result) = self.table.allocated(1);
                match result {
                    Err(error) => (self, Err(Fault::Fat(error))),
                    Ok(added) => {
                        let volume = Volume { table, ..self }.wrote(
                            self.boot.spec_cluster_sector(added[0] as int),
                            bytes::zeros(self.cluster_bytes() as nat),
                        );
                        (
                            Volume {
                                table: table.set(clusters.last() as int, added[0]),
                                ..volume
                            }.forgot(directory),
                            Ok(()),
                        )
                    },
                }
            },
        }
    }

    /// Finding room for `count` slots in a directory, growing it `attempts`
    /// times at most.
    pub open spec fn find_room(self, directory: u32, count: u32, attempts: int) -> (
        Volume,
        Result<u32, Fault>,
    )
        decreases attempts,
    {
        let (volume, result) = self.read_dir(directory);
        match result {
            Err(fault) => (volume, Err(fault)),
            Ok(listing) => match listing.room_for(count) {
                Some(index) => (volume, Ok(index)),
                None => if attempts <= 0 {
                    (volume, Err(Fault::DirectoryFull))
                } else {
                    let (grown, result) = volume.grow_directory(directory);
                    match result {
                        Err(fault) => (grown, Err(fault)),
                        Ok(()) => grown.find_room(directory, count, attempts - 1),
                    }
                },
            },
        }
    }
}

/// A change to one directory slot.
pub enum Edit {
    /// A new first cluster, length and modification time.
    Update { first_cluster: u32, size: u32, at: DateTime },
    /// The mark of a deleted entry.
    Delete,
}

impl Edit {
    /// A slot's bytes after the change.
    pub open spec fn applied(self, entry: Seq<u8>) -> Seq<u8> {
        match self {
            Edit::Update { first_cluster, size, at } => dir::updated_entry(
                entry,
                first_cluster,
                size,
                at,
            ),
            Edit::Delete => dir::deleted_entry(entry),
        }
    }
}

impl Volume {
    /// Whether this is `before` after some reading: nothing differs but the
    /// calls made and the directories held.
    pub open spec fn looks_like(self, before: Volume) -> bool {
        self == (Volume { history: self.history, directories: self.directories, ..before })
    }
}

/// Reading a directory changes nothing else.
pub proof fn lemma_read_dir_looks(volume: Volume, cluster: u32)
    ensures
        volume.read_dir(cluster).0.looks_like(volume),
{
    reveal(Volume::read_dir);
}

/// Walking a path changes nothing else.
pub proof fn lemma_resolve_looks(volume: Volume, cluster: u32, path: Seq<char>)
    ensures
        volume.resolve(cluster, path).0.looks_like(volume),
    decreases path.len(),
{
    let name = first_component(path);
    let rest = after_component(path);
    if path.len() > 0 {
        if name.len() == 0 || name =~= seq!['.'] {
            lemma_resolve_looks(volume, cluster, rest);
        } else {
            lemma_read_dir_looks(volume, cluster);
            let (entered, result) = volume.enter(cluster, name);
            if result is Ok {
                lemma_resolve_looks(entered, result->Ok_0, rest);
            }
        }
    }
}

/// A path up to its first slash.
pub open spec fn first_component(path: Seq<char>) -> Seq<char>
    decreases path.len(),
{
    if path.len() == 0 || path[0] == '/' {
        Seq::empty()
    } else {
        seq![path[0]] + first_component(path.skip(1))
    }
}

/// What follows a path's first slash.
pub open spec fn after_component(path: Seq<char>) -> Seq<char> {
    if first_component(path).len() < path.len() {
        path.skip(first_component(path).len() as int + 1)
    } else {
        Seq::empty()
    }
}

/// A failure of the device: at least one more call was made of it, the calls
/// are the first of those that are `planned`, and nothing but
/// what no operation changes is sure to be as it was.
pub open spec fn device_failed<E>(
    before: Volume,
    after: Volume,
    planned: Seq<Access>,
    error: Error<E>,
) -> bool {
    &&& error is Device
    &&& after.kept(before)
    &&& after.history.len() > before.history.len()
    &&& calls::begins(after.history, planned)
}

/// A failure from outside the library, of the device or for want of memory,
/// after the first of the calls that are `planned`. Memory is wanted for what
/// calls read, so there is no want of it where none is planned.
pub open spec fn interrupted<E>(
    before: Volume,
    after: Volume,
    planned: Seq<Access>,
    error: Error<E>,
) -> bool {
    &&& error.is_external()
    &&& after.kept(before)
    &&& error is Device ==> after.history.len() > before.history.len()
    &&& error is OutOfMemory ==> before.history.len() < planned.len()
    &&& calls::begins(after.history, planned)
}

} // verus!
