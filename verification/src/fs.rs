//! A mounted volume.
use std::collections::BTreeMap;

use vstd::prelude::*;

use crate::blockdev;
use crate::blockdev::{Access, BlockDevice, BLOCK_SIZE};
use crate::boot;
use crate::boot::{BootSector, FsInfo};
use crate::bytes;
use crate::calls;
use crate::codepage::Codepage;
use crate::dir;
use crate::dir::{Directory, Listing, ENTRY_SIZE};
use crate::error::{try_filled, BootError, Error, FatError, Fault, Geometry, Result};
use crate::fat;
use crate::fat::{Fat, Run};
use crate::table;
use crate::table::Table;
use crate::text;
use crate::time::{Clock, DateTime, EpochClock};
use crate::volume;
use crate::volume::{Edit, Volume};

verus! {

/// A mounted FAT32 volume, with its device.
///
/// The whole allocation table is held in memory, and so is every directory
/// once it has been read.
pub struct FileSystem<D: BlockDevice> {
    device: D,
    boot: BootSector,
    fs_info: FsInfo,
    fat: Fat,
    first_block: u64,
    directories: BTreeMap<u32, Directory>,
    deletions: BTreeMap<u32, u32>,
    codepage: Codepage,
    clock: Box<dyn Clock>,
    marked_dirty: bool,
}

impl<D: BlockDevice> View for FileSystem<D> {
    type V = Volume;

    closed spec fn view(&self) -> Volume {
        Volume {
            disk: self.device.contents(),
            history: self.device.history(),
            limit: self.device.limit(),
            capacity: self.device.capacity(),
            first_block: self.first_block,
            boot: self.boot,
            fs_info: self.fs_info,
            table: self.fat@,
            directories: self.directories@.map_values(|directory: Directory| directory@),
            deletions: self.deletions@,
            codepage: self.codepage,
            clock: answers_of(&self.clock),
            marked_dirty: self.marked_dirty,
        }
    }
}

/// The times a clock may say.
pub open spec fn answers_of(clock: &Box<dyn Clock>) -> Set<DateTime> {
    Set::new(|now: DateTime| clock.may_say(now))
}

/// The blocks there are for a volume: as many as the device reports, and no
/// more than its partition has.
pub open spec fn bound_of(capacity: Option<u64>, end: Option<int>) -> Option<int> {
    match (capacity, end) {
        (Some(capacity), Some(end)) => Some(
            if capacity <= end {
                capacity as int
            } else {
                end
            },
        ),
        (Some(capacity), None) => Some(capacity as int),
        (None, end) => end,
    }
}

/// Whether a failure is want of memory for the entries of a volume's table, or
/// for the marks on its sectors.
pub open spec fn wants_memory(boot: BootSector, fault: Fault) -> bool {
    ||| fault == Fault::OutOfMemory { bytes: fat::entry_bytes(boot) }
    ||| fault == Fault::OutOfMemory { bytes: boot.sectors_per_fat as int }
}

/// What mounting the volume that starts at `first_block` gives, where `end`
/// is the block its partition ends at. A volume that would reach past the
/// last block number there is is too large.
pub open spec fn mounted(
    disk: Seq<u8>,
    history: Seq<Access>,
    limit: u64,
    capacity: Option<u64>,
    first_block: u64,
    codepage: Codepage,
    end: Option<int>,
) -> core::result::Result<Volume, Fault> {
    match boot::parse_boot(disk.subrange(512 * first_block, 512 * first_block + 512)) {
        Err(error) => Err(Fault::Boot(error)),
        Ok(boot) => {
            let bound = bound_of(capacity, end);
            if first_block + boot.extent() > u64::MAX {
                Err(
                    Fault::Boot(
                        BootError::BadGeometry(
                            Geometry::VolumeTooLarge {
                                first_block,
                                end: u64::MAX,
                                bound: if bound is Some {
                                    bound->0 as u64
                                } else {
                                    u64::MAX
                                },
                            },
                        ),
                    ),
                )
            } else if bound is Some && first_block + boot.total_sectors > bound->0 {
                Err(
                    Fault::Boot(
                        BootError::BadGeometry(
                            Geometry::VolumeTooLarge {
                                first_block,
                                end: (first_block + boot.total_sectors) as u64,
                                bound: bound->0 as u64,
                            },
                        ),
                    ),
                )
            } else {
                let start = Seq::<Access>::empty().push(
                    Access::Read { start: first_block as int, blocks: 1 },
                );
                let hints = match boot.fs_info_sector {
                    Some(sector) => seq![
                        Access::Read { start: first_block + sector, blocks: 1 },
                    ],
                    None => Seq::empty(),
                };
                Ok(
                    Volume {
                        disk,
                        history: history + start + hints + blockdev::reads(
                            first_block + boot.fat_start,
                            fat::table_blocks(boot),
                            fat::load_batch(limit),
                        ),
                        limit,
                        capacity,
                        first_block,
                        boot,
                        fs_info: match boot.fs_info_sector {
                            Some(sector) => boot::parse_hints(
                                disk.subrange(
                                    512 * (first_block + sector),
                                    512 * (first_block + sector) + 512,
                                ),
                                boot,
                            ),
                            None => FsInfo { free_clusters: None, next_free: None },
                        },
                        table: fat::stored_table(disk, first_block as int, boot),
                        directories: Map::empty(),
                        deletions: Map::empty(),
                        codepage,
                        clock: set![DateTime::EPOCH()],
                        marked_dirty: false,
                    },
                )
            }
        },
    }
}

impl<D: BlockDevice> FileSystem<D> {
    /// The volume is well-formed, and so is everything held of it.
    pub closed spec fn wf(&self) -> bool {
        &&& self@.wf()
        &&& self.fat.wf()
        &&& forall|cluster: u32| #[trigger]
            self.directories@.contains_key(cluster) ==> self.directories@[cluster].wf()
    }

    /// A well-formed volume is well-formed as a mathematical object.
    pub proof fn lemma_wf(&self)
        requires
            self.wf(),
        ensures
            self@.wf(),
    {
    }

    /// Mounts the volume that starts at the device's first block.
    pub fn mount(device: D) -> (result: Result<Self, D::Error>)
        ensures
            ({
                let expected = mounted(
                    device.contents(),
                    device.history(),
                    device.limit(),
                    device.capacity(),
                    0,
                    Codepage::spec_ascii(),
                    None,
                );
                match result {
                    Ok(volume) => volume.wf() && expected == Ok::<Volume, Fault>(volume@),
                    Err(error) => {
                        ||| error is Device
                        ||| expected is Ok && wants_memory(expected->Ok_0.boot, error@)
                        ||| expected == Err::<Volume, Fault>(error@)
                    },
                }
            }),
    {
        Self::mount_at(device, 0)
    }

    /// Mounts the volume that starts at `first_block`.
    pub fn mount_at(device: D, first_block: u64) -> (result: Result<Self, D::Error>)
        ensures
            ({
                let expected = mounted(
                    device.contents(),
                    device.history(),
                    device.limit(),
                    device.capacity(),
                    first_block,
                    Codepage::spec_ascii(),
                    None,
                );
                match result {
                    Ok(volume) => volume.wf() && expected == Ok::<Volume, Fault>(volume@),
                    Err(error) => {
                        ||| error is Device
                        ||| expected is Ok && wants_memory(expected->Ok_0.boot, error@)
                        ||| expected == Err::<Volume, Fault>(error@)
                    },
                }
            }),
    {
        Self::mount_with(device, first_block, Codepage::ASCII())
    }

    /// Mounts the volume that starts at `first_block`, reading its 8.3 names
    /// by `codepage`.
    pub fn mount_with(device: D, first_block: u64, codepage: Codepage) -> (result: Result<
        Self,
        D::Error,
    >)
        ensures
            ({
                let expected = mounted(
                    device.contents(),
                    device.history(),
                    device.limit(),
                    device.capacity(),
                    first_block,
                    codepage,
                    None,
                );
                match result {
                    Ok(volume) => volume.wf() && expected == Ok::<Volume, Fault>(volume@),
                    Err(error) => {
                        ||| error is Device
                        ||| expected is Ok && wants_memory(expected->Ok_0.boot, error@)
                        ||| expected == Err::<Volume, Fault>(error@)
                    },
                }
            }),
    {
        Self::mount_within(device, first_block, codepage, None)
    }

    /// Mounts the volume that starts at `first_block` and has `blocks` blocks
    /// at most.
    fn mount_within(device: D, first_block: u64, codepage: Codepage, blocks: Option<u64>) -> (result:
        Result<Self, D::Error>)
        requires
            blocks matches Some(blocks) ==> first_block + blocks <= u64::MAX,
        ensures
            ({
                let expected = mounted(
                    device.contents(),
                    device.history(),
                    device.limit(),
                    device.capacity(),
                    first_block,
                    codepage,
                    match blocks {
                        Some(blocks) => Some(first_block + blocks),
                        None => None,
                    },
                );
                match result {
                    Ok(volume) => volume.wf() && expected == Ok::<Volume, Fault>(volume@),
                    Err(error) => {
                        ||| error is Device
                        ||| expected is Ok && wants_memory(expected->Ok_0.boot, error@)
                        ||| expected == Err::<Volume, Fault>(error@)
                    },
                }
            }),
    {
        let ghost given = device;
        let mut device = device;
        let mut block: [u8; BLOCK_SIZE] = [0u8;BLOCK_SIZE];
        if let Err(error) = device.read(first_block, &mut block) {
            return Err(Error::device(error));
        }
        let boot: BootSector = match BootSector::parse(&block) {
            Ok(boot) => boot,
            Err(error) => {
                return Err(Error::Boot(error));
            },
        };
        let capacity: Option<u64> = match device.block_count() {
            Ok(capacity) => capacity,
            Err(error) => {
                return Err(Error::device(error));
            },
        };
        let bound: Option<u64> = match (capacity, blocks) {
            (Some(capacity), Some(blocks)) => Some(
                if capacity <= first_block + blocks {
                    capacity
                } else {
                    first_block + blocks
                },
            ),
            (Some(capacity), None) => Some(capacity),
            (None, Some(blocks)) => Some(first_block + blocks),
            (None, None) => None,
        };
        let extent: u64 = match boot.fs_info_sector {
            Some(sector) if sector as u32 >= boot.total_sectors => sector as u64 + 1,
            _ => boot.total_sectors as u64,
        };
        if first_block > u64::MAX - extent {
            let bound: u64 = match bound {
                Some(bound) => bound,
                None => u64::MAX,
            };
            return Err(
                Error::Boot(
                    BootError::BadGeometry(
                        Geometry::VolumeTooLarge { first_block, end: u64::MAX, bound },
                    ),
                ),
            );
        }
        let end: u64 = first_block + boot.total_sectors as u64;
        if let Some(bound) = bound {
            if end > bound {
                return Err(
                    Error::Boot(
                        BootError::BadGeometry(
                            Geometry::VolumeTooLarge { first_block, end, bound },
                        ),
                    ),
                );
            }
        }
        let fs_info: FsInfo = match boot.fs_info_sector {
            Some(sector) => {
                if let Err(error) = device.read(first_block + sector as u64, &mut block) {
                    return Err(Error::device(error));
                }
                FsInfo::parse(&block, &boot)
            },
            None => FsInfo::default(),
        };
        let fat: Fat = match Fat::load_at(&mut device, first_block, &boot) {
            Ok(fat) => fat,
            Err(error) => {
                return Err(error);
            },
        };
        let volume = FileSystem {
            device,
            boot,
            fs_info,
            fat,
            first_block,
            directories: BTreeMap::new(),
            deletions: BTreeMap::new(),
            codepage,
            clock: Box::new(EpochClock),
            marked_dirty: false,
        };
        proof {
            volume.fat.lemma_wf();
            let expected = mounted(
                given.contents(),
                given.history(),
                given.limit(),
                given.capacity(),
                first_block,
                codepage,
                match blocks {
                    Some(blocks) => Some(first_block + blocks),
                    None => None,
                },
            );
            assert(expected is Ok);
            assert(volume@.history =~= expected->Ok_0.history);
            assert(volume@.clock =~= expected->Ok_0.clock);
            assert(volume@ =~= expected->Ok_0);
            assert(volume@.wf());
            assert(volume.wf());
        }
        Ok(volume)
    }

    /// Mounts the volume in slot `index` of the device's partition table.
    pub fn mount_partition(device: D, index: usize) -> (result: Result<Self, D::Error>)
        ensures
            ({
                let block = device.contents().subrange(0, 512);
                let slot = crate::mbr::table_of(block)[index as int];
                let expected = if !crate::mbr::is_table(block) {
                    Err(Fault::NoPartitionTable)
                } else if index >= 4 || slot is None {
                    Err(Fault::NoSuchPartition { index: index as int })
                } else if slot->0.kind == 0xEE {
                    Err(Fault::NoPartitionTable)
                } else {
                    mounted(
                        device.contents(),
                        device.history().push(Access::Read { start: 0, blocks: 1 }),
                        device.limit(),
                        device.capacity(),
                        slot->0.first_block,
                        Codepage::spec_ascii(),
                        Some(slot->0.first_block + slot->0.blocks),
                    )
                };
                match result {
                    Ok(volume) => volume.wf() && expected == Ok::<Volume, Fault>(volume@),
                    Err(error) => {
                        ||| error is Device
                        ||| expected is Ok && wants_memory(expected->Ok_0.boot, error@)
                        ||| expected == Err::<Volume, Fault>(error@)
                    },
                }
            }),
    {
        let mut device = device;
        let table = match crate::mbr::PartitionTable::read(&mut device) {
            Ok(Some(table)) => table,
            Ok(None) => {
                return Err(Error::NoPartitionTable);
            },
            Err(error) => {
                return Err(error);
            },
        };
        let partition = match table.get(index) {
            Some(partition) => *partition,
            None => {
                return Err(Error::NoSuchPartition { index });
            },
        };
        if partition.is_protective_gpt() {
            return Err(Error::NoPartitionTable);
        }
        proof {
            table.lemma_wf(index as int);
        }
        Self::mount_within(
            device,
            partition.first_block,
            Codepage::ASCII(),
            Some(partition.blocks),
        )
    }

    /// What the bytes of 8.3 names stand for.
    pub fn codepage(&self) -> (codepage: &Codepage)
        ensures
            *codepage == self@.codepage,
    {
        &self.codepage
    }

    /// Gives the volume a clock to stamp what it writes by.
    pub fn set_clock(&mut self, clock: Box<dyn Clock>)
        ensures
            final(self)@ == (Volume {
                clock: answers_of(&clock),
                ..old(self)@
            }),
            final(self).wf() == old(self).wf(),
    {
        let ghost before = self@;
        let mut clock = clock;
        core::mem::swap(&mut self.clock, &mut clock);
        assert(self@.directories =~= before.directories);
    }

    /// The time now, by the volume's clock.
    pub(crate) fn now(&self) -> (now: DateTime)
        ensures
            self@.clock.contains(now),
    {
        self.clock.now()
    }

    /// The boot sector, as it was at mount.
    pub fn boot_sector(&self) -> (boot: &BootSector)
        ensures
            *boot == self@.boot,
    {
        &self.boot
    }

    /// The free-space hints, as they were last read or written.
    pub fn fs_info(&self) -> (hints: &FsInfo)
        ensures
            *hints == self@.fs_info,
    {
        &self.fs_info
    }

    /// The allocation table.
    pub fn fat(&self) -> (fat: &Fat)
        ensures
            fat@ == self@.table,
            self.wf() ==> fat.wf(),
    {
        &self.fat
    }

    /// The allocation table, to be changed.
    pub(crate) fn fat_mut(&mut self) -> (fat: &mut Fat)
        requires
            old(self).wf(),
        ensures
            fat@ == old(self)@.table,
            fat.wf(),
            final(self)@ == (Volume { table: final(fat)@, ..old(self)@ }),
            final(fat).wf() && final(fat)@.same_place(old(self)@.table) ==> final(self).wf(),
    {
        proof {
            assert forall|fat: Fat| #[trigger] fat.wf() implies fat@.wf() by {
                fat.lemma_wf();
            }
        }
        &mut self.fat
    }

    /// Whether the volume was found with changes unfinished.
    pub fn is_dirty(&self) -> (dirty: bool)
        ensures
            dirty == self@.boot.dirty,
    {
        self.boot.dirty
    }

    /// The chain that starts at `cluster`, as stretches of consecutive
    /// clusters.
    pub fn runs(&self, cluster: u32) -> (result: Result<Vec<Run>, D::Error>)
        requires
            self.wf(),
        ensures
            match result {
                Ok(runs) => {
                    &&& self@.table.chain(cluster) is Ok
                    &&& runs@ == table::coalesce(self@.table.chain(cluster)->Ok_0)
                    &&& table::tiles(runs@, self@.table.chain(cluster)->Ok_0)
                    &&& runs@.len() > 0
                },
                Err(error) => {
                    &&& error matches Error::Fat(error)
                    &&& self@.table.chain(cluster) == Err::<Seq<u32>, FatError>(error)
                },
            },
    {
        match self.fat.runs(cluster) {
            Ok(runs) => Ok(runs),
            Err(error) => Err(Error::Fat(error)),
        }
    }

    /// Fills `into` with the sectors from `block` on, in as few calls as the
    /// device allows.
    pub(crate) fn read_blocks(&mut self, block: u64, into: &mut [u8]) -> (result: Result<
        (),
        D::Error,
    >)
        requires
            old(self).wf(),
            old(into)@.len() % 512 == 0,
            block + old(into)@.len() / 512 <= old(self)@.boot.extent(),
        ensures
            final(self).wf(),
            final(self)@.only_read(old(self)@),
            final(self)@.directories == old(self)@.directories,
            final(into)@.len() == old(into)@.len(),
            match result {
                Ok(()) => {
                    let blocks = (old(into)@.len() / 512) as int;
                    &&& old(self)@.at(block as int) + old(into)@.len() <= old(self)@.disk.len()
                    &&& final(into)@ == old(self)@.sectors(block as int, blocks)
                    &&& final(self)@ == old(self)@.after_read(block as int, blocks)
                },
                Err(error) => volume::device_failed(
                    old(self)@,
                    final(self)@,
                    old(self)@.after_read(block as int, (old(into)@.len() / 512) as int).history,
                    error,
                ),
            },
    {
        let total: usize = into.len();
        let blocks: usize = total / BLOCK_SIZE;
        let limit: u64 = self.device.max_transfer_blocks();
        let cap: u64 = if limit == 0 {
            1
        } else {
            limit
        };
        let ghost before = self@;
        let ghost start = self.first_block + block;
        let ghost batch = before.batch();
        let ghost all = blockdev::reads(start, blocks as int, batch);
        let mut done: usize = 0;
        loop
            invariant
                old(self).wf(),
                before == old(self)@,
                self.wf(),
                blocks <= u32::MAX,
                total == into@.len(),
                into@.len() == 512 * blocks,
                into@.len() == old(into)@.len(),
                block + blocks <= before.boot.extent(),
                start == before.first_block + block,
                cap == batch == before.batch(),
                done <= blocks,
                done < blocks || blocks == 0,
                self@ == (Volume { history: self@.history, ..before }),
                self@.history.len() >= before.history.len(),
                all == blockdev::reads(start, blocks as int, batch),
                before.history + all == self@.history + blockdev::reads(
                    start + done,
                    blocks - done,
                    batch,
                ),
                done > 0 ==> 512 * (start + done) <= before.disk.len(),
                forall|i: int|
                    0 <= i < 512 * done ==> #[trigger] into@[i] == before.disk[512 * start + i],
            decreases blocks - done,
        {
            let left: usize = blocks - done;
            let count: usize = if left as u64 <= cap {
                left
            } else {
                cap as usize
            };
            let ghost filled = into@;
            let ghost asked = self@.history;
            let (_, rest) = into.split_at_mut(512 * done);
            let (chunk, _) = rest.split_at_mut(512 * count);
            match self.device.read(self.first_block + block + done as u64, chunk) {
                Ok(()) => {},
                Err(error) => {
                    proof {
                        let access = Access::Read { start: start + done, blocks: count as int };
                        let rest = blockdev::reads(start + done, left as int, batch);
                        assert(rest.len() > 0 && rest[0] == access);
                        calls::lemma_step(asked, rest, self@.history, before.history + all);
                    }
                    return Err(Error::device(error));
                },
            }
            proof {
                let access = Access::Read { start: start + done, blocks: count as int };
                assert(self@.history =~= asked.push(access));
                assert forall|i: int| 0 <= i < 512 * (done + count) implies #[trigger] into@[i]
                    == before.disk[512 * start + i] by {
                    if i < 512 * done {
                        assert(into@[i] == filled[i]);
                    }
                }
                if count == left {
                    assert(blockdev::reads(start + done, left as int, batch) =~= seq![access]);
                    assert(self@.history =~= before.history + all);
                } else {
                    assert(asked + blockdev::reads(start + done, left as int, batch)
                        =~= self@.history + blockdev::reads(
                        start + done + count,
                        left - count,
                        batch,
                    ));
                }
            }
            done += count;
            if done == blocks {
                assert(into@ =~= before.sectors(block as int, blocks as int));
                return Ok(());
            }
        }
    }

    /// Fills `into` with the bytes of a run, which it must fit exactly. A run
    /// that does not lie in the volume is refused before anything else.
    pub fn read_run(&mut self, run: &Run, into: &mut [u8]) -> (result: Result<(), D::Error>)
        requires
            old(self).wf(),
        ensures
            final(self).wf(),
            final(self)@.only_read(old(self)@),
            final(self)@.directories == old(self)@.directories,
            final(into)@.len() == old(into)@.len(),
            run.clusters == 0 ==> final(self)@ == old(self)@,
            old(self)@.run_fault(*run, old(into)@.len() as int) matches Some(fault) ==> {
                &&& result matches Err(error) && error@ == fault
                &&& final(self)@ == old(self)@
                &&& final(into)@ == old(into)@
            },
            run.clusters == 0 && old(into)@.len() == 0 ==> result is Ok,
            match result {
                Ok(()) => {
                    &&& old(self)@.run_fault(*run, old(into)@.len() as int) is None
                    &&& run.clusters > 0 ==> {
                        let sector = old(self)@.boot.spec_cluster_sector(run.start_cluster as int);
                        let blocks = run.clusters * old(self)@.boot.sectors_per_cluster;
                        &&& old(self)@.at(sector) + 512 * blocks <= old(self)@.disk.len()
                        &&& final(into)@ == old(self)@.sectors(sector, blocks)
                        &&& final(self)@ == old(self)@.after_read(sector, blocks)
                    }
                },
                Err(error) => {
                    ||| volume::device_failed(
                        old(self)@,
                        final(self)@,
                        old(self)@.after_read(
                            old(self)@.boot.spec_cluster_sector(run.start_cluster as int),
                            run.clusters * old(self)@.boot.sectors_per_cluster,
                        ).history,
                        error,
                    )
                    ||| {
                        &&& old(self)@.run_fault(*run, old(into)@.len() as int) == Some(error@)
                        &&& final(self)@ == old(self)@
                        &&& final(into)@ == old(into)@
                    }
                },
            },
    {
        if run.clusters != 0 {
            if !self.fat.is_valid_cluster(run.start_cluster) {
                return Err(Error::Fat(FatError::BadCluster { cluster: run.start_cluster }));
            }
            let last: u64 = run.start_cluster as u64 + run.clusters as u64 - 1;
            let reported: u32 = if last > u32::MAX as u64 {
                u32::MAX
            } else {
                last as u32
            };
            if last > u32::MAX as u64 || !self.fat.is_valid_cluster(reported) {
                return Err(Error::Fat(FatError::BadCluster { cluster: reported }));
            }
        }
        let expected: u64 = run.bytes(self.boot.cluster_bytes());
        if into.len() as u64 != expected {
            return Err(Error::BufferLength { expected, actual: into.len() });
        }
        if run.clusters == 0 {
            return Ok(());
        }
        proof {
            lemma_run_in_volume(self@, run.start_cluster as int, run.clusters as int);
        }
        let sector: u32 = self.boot.cluster_sector(run.start_cluster);
        self.read_blocks(sector as u64, into)
    }

    /// The bytes of the whole chain that starts at `cluster`: one transfer
    /// per run, where the device's limit allows.
    pub fn read_chain(&mut self, cluster: u32) -> (result: Result<Vec<u8>, D::Error>)
        requires
            old(self).wf(),
        ensures
            final(self).wf(),
            final(self)@.only_read(old(self)@),
            final(self)@.directories == old(self)@.directories,
            match result {
                Ok(data) => {
                    &&& (final(self)@, Ok::<Seq<u8>, Fault>(data@)) == old(self)@.read_chain(
                        cluster,
                    )
                    &&& forall|i: int|
                        0 <= i < data@.len() ==> #[trigger] old(self)@.position(
                            old(self)@.table.chain(cluster)->Ok_0,
                            i,
                        ) < old(self)@.disk.len()
                },
                Err(error) => {
                    ||| {
                        let clusters = old(self)@.table.chain(cluster);
                        &&& volume::interrupted(
                            old(self)@,
                            final(self)@,
                            old(self)@.read_chain(cluster).0.history,
                            error,
                        )
                        &&& clusters is Ok
                        &&& error matches Error::OutOfMemory { bytes } ==> bytes
                            == clusters->Ok_0.len() * old(self)@.cluster_bytes()
                    }
                    ||| (final(self)@, Err::<Seq<u8>, Fault>(error@))
                        == old(self)@.read_chain(cluster)
                },
            },
    {
        let runs: Vec<Run> = match self.runs(cluster) {
            Ok(runs) => runs,
            Err(error) => {
                return Err(error);
            },
        };
        let ghost before = self@;
        let ghost clusters = before.table.chain(cluster)->Ok_0;
        let cluster_bytes: u32 = self.boot.cluster_bytes();
        proof {
            table::lemma_chain(before.table, cluster);
            table::lemma_tiles_bound(runs@, clusters, runs@.len() - 1);
            lemma_chain_size(before, clusters.len() as int);
        }
        let last: Run = runs[runs.len() - 1];
        let total: u64 = (last.file_cluster + last.clusters) as u64 * cluster_bytes as u64;
        let mut data: Vec<u8> = match try_filled(0u8, total) {
            Ok(data) => data,
            Err(error) => {
                proof {
                    calls::lemma_read_chain(before, cluster);
                }
                return Err(error);
            },
        };
        let mut at: usize = 0;
        let mut r: usize = 0;
        assert(before.run_reads(runs@.take(0)) =~= Seq::<Access>::empty());
        assert(before.history + before.run_reads(runs@.take(0)) =~= before.history);
        assert(read_up_to(before, clusters, data@, 0)) by {
            reveal(read_up_to);
        }
        while r < runs.len()
            invariant
                old(self).wf(),
                before == old(self)@,
                self.wf(),
                r <= runs@.len(),
                before.table.chain(cluster) == Ok::<Seq<u32>, FatError>(clusters),
                runs@ == table::coalesce(clusters),
                before.table.links(clusters),
                table::tiles(runs@, clusters),
                cluster_bytes == before.cluster_bytes(),
                cluster_bytes > 0,
                total == clusters.len() * cluster_bytes,
                total <= usize::MAX,
                data@.len() == total,
                at == fat::done_before(runs@, r as int, clusters.len() as int) * cluster_bytes,
                self@ == (Volume {
                    history: before.history + before.run_reads(runs@.take(r as int)),
                    ..before
                }),
                self@.history.len() >= before.history.len(),
                read_up_to(before, clusters, data@, at as int),
            decreases runs@.len() - r,
        {
            let run: Run = runs[r];
            proof {
                table::lemma_tiles_bound(runs@, clusters, r as int);
                fat::lemma_done_before(runs@, clusters, r as int);
                lemma_run_valid(before.table, runs@, clusters, r as int);
                let (f, n, cb, len) = (
                    run.file_cluster as int,
                    run.clusters as int,
                    cluster_bytes as int,
                    clusters.len() as int,
                );
                assert(f * cb + n * cb == (f + n) * cb) by (nonlinear_arith);
                assert((f + n) * cb <= len * cb) by (nonlinear_arith)
                    requires
                        f + n <= len,
                        cb > 0,
                ;
            }
            let length: usize = run.bytes(cluster_bytes) as usize;
            let ghost filled = data@;
            let ghost asked = self@.history;
            let whole: &mut [u8] = data.as_mut_slice();
            let (_, rest) = whole.split_at_mut(at);
            let (chunk, _) = rest.split_at_mut(length);
            match self.read_run(&run, chunk) {
                Ok(()) => {},
                Err(error) => {
                    proof {
                        assert(error is Device);
                        let sector = before.boot.spec_cluster_sector(run.start_cluster as int);
                        let blocks = run.clusters * before.boot.sectors_per_cluster;
                        assert(runs@.take(r + 1).drop_last() =~= runs@.take(r as int));
                        let reached = Volume { history: asked, ..before };
                        assert(reached.after_read(sector, blocks).history =~= before.history
                            + before.run_reads(runs@.take(r + 1)));
                        calls::lemma_some_runs(before, runs@, r + 1);
                        calls::lemma_then(
                            self@.history,
                            before.history + before.run_reads(runs@.take(r + 1)),
                            before.history + before.run_reads(runs@),
                        );
                    }
                    return Err(error);
                },
            }
            proof {
                assert(runs@.take(r + 1).drop_last() =~= runs@.take(r as int));
                assert(self@.history =~= before.history + before.run_reads(runs@.take(r + 1)));
                let sector = before.boot.spec_cluster_sector(run.start_cluster as int);
                let blocks = run.clusters * before.boot.sectors_per_cluster;
                assert(data@.take(at as int) =~= filled.take(at as int));
                assert(data@.subrange(at as int, at + length) =~= before.sectors(sector, blocks));
                assert(run.clusters * before.cluster_bytes() == 512 * blocks)
                    by (nonlinear_arith)
                    requires
                        blocks == run.clusters * before.boot.sectors_per_cluster,
                        before.cluster_bytes() == before.boot.sectors_per_cluster * 512,
                ;
                assert(0 <= before.at(sector)) by {
                    assert(0 <= (run.start_cluster - 2) * before.boot.sectors_per_cluster)
                        by (nonlinear_arith)
                        requires
                            run.start_cluster >= 2,
                    ;
                }
                lemma_read_on(before, runs@, clusters, r as int, filled, data@);
            }
            at += length;
            r += 1;
        }
        proof {
            assert(runs@.take(runs@.len() as int) =~= runs@);
            reveal(read_up_to);
            assert(data@ =~= before.chain_bytes(clusters));
            assert forall|i: int| 0 <= i < data@.len() implies #[trigger] before.position(
                clusters,
                i,
            ) < before.disk.len() by {
                assert(data@[i] == before.chain_byte(clusters, i));
            }
        }
        Ok(data)
    }
}

impl<D: BlockDevice> FileSystem<D> {
    /// Makes sure that the directory at `cluster` is held in memory. One with
    /// more slots than can be numbered is too large to be.
    pub(crate) fn load_dir(&mut self, cluster: u32) -> (result: Result<(), D::Error>)
        requires
            old(self).wf(),
        ensures
            final(self).wf(),
            final(self)@.only_read(old(self)@),
            old(self)@.directories.contains_key(cluster) ==> result is Ok,
            match result {
                Ok(()) => {
                    &&& final(self)@.directories.contains_key(cluster)
                    &&& (
                        final(self)@,
                        Ok::<Listing, Fault>(final(self)@.directories[cluster]),
                    ) == old(self)@.read_dir(cluster)
                },
                Err(error) => {
                    ||| {
                        &&& volume::interrupted(
                            old(self)@,
                            final(self)@,
                            old(self)@.read_dir(cluster).0.history,
                            error,
                        )
                        &&& final(self)@.unread(old(self)@, cluster, error@)
                    }
                    ||| (final(self)@, Err::<Listing, Fault>(error@))
                        == old(self)@.read_dir(cluster)
                },
            },
    {
        broadcast use vstd::std_specs::btree::group_btree_axioms;

        reveal(Volume::read_dir);
        if self.directories.contains_key(&cluster) {
            return Ok(());
        }
        let ghost before = self@;
        let data: Vec<u8> = match self.read_chain(cluster) {
            Ok(data) => data,
            Err(error) => {
                return Err(error);
            },
        };
        proof {
            calls::lemma_all(self@.history);
        }
        if data.len() / ENTRY_SIZE > u32::MAX as usize {
            return Err(Error::OutOfMemory { bytes: data.len() as u64 });
        }
        let directory: Directory = match Directory::parse(data.as_slice(), &self.codepage) {
            Ok(directory) => directory,
            Err(error) => {
                return Err(error);
            },
        };
        proof {
            directory.lemma_wf();
        }
        let ghost held = self@.directories;
        self.directories.insert(cluster, directory);
        assert(self@.directories =~= held.insert(cluster, directory@));
        assert(self.directories@[cluster] == directory);
        Ok(())
    }

    /// The directory at `cluster`.
    pub fn read_dir(&mut self, cluster: u32) -> (result: Result<&Directory, D::Error>)
        requires
            old(self).wf(),
        ensures
            final(self).wf(),
            final(self)@.only_read(old(self)@),
            old(self)@.directories.contains_key(cluster) ==> result is Ok,
            match result {
                Ok(directory) => {
                    &&& directory.wf()
                    &&& (final(self)@, Ok::<Listing, Fault>(directory@)) == old(self)@.read_dir(
                        cluster,
                    )
                },
                Err(error) => {
                    ||| {
                        &&& volume::interrupted(
                            old(self)@,
                            final(self)@,
                            old(self)@.read_dir(cluster).0.history,
                            error,
                        )
                        &&& final(self)@.unread(old(self)@, cluster, error@)
                    }
                    ||| (final(self)@, Err::<Listing, Fault>(error@))
                        == old(self)@.read_dir(cluster)
                },
            },
    {
        if let Err(error) = self.load_dir(cluster) {
            return Err(error);
        }
        Ok(self.held_dir(cluster))
    }

    /// A directory that is held in memory.
    pub(crate) fn held_dir(&self, cluster: u32) -> (directory: &Directory)
        requires
            self.wf(),
            self@.directories.contains_key(cluster),
        ensures
            directory.wf(),
            directory@ == self@.directories[cluster],
    {
        broadcast use vstd::std_specs::btree::group_btree_axioms;

        let directory: &Directory = self.directories.get(&cluster).unwrap();
        assert(self.directories@.contains_key(cluster));
        directory
    }
}

impl<D: BlockDevice> FileSystem<D> {
    /// The cluster the root directory starts at.
    pub fn root_cluster(&self) -> (cluster: u32)
        ensures
            cluster == self@.boot.root_cluster,
    {
        self.boot.root_cluster
    }

    /// The root directory.
    pub fn root_dir(&mut self) -> (result: Result<&Directory, D::Error>)
        requires
            old(self).wf(),
        ensures
            final(self).wf(),
            final(self)@.only_read(old(self)@),
            match result {
                Ok(directory) => {
                    &&& directory.wf()
                    &&& (final(self)@, Ok::<Listing, Fault>(directory@)) == old(self)@.read_dir(
                        old(self)@.boot.root_cluster,
                    )
                },
                Err(error) => {
                    ||| {
                        &&& volume::interrupted(
                            old(self)@,
                            final(self)@,
                            old(self)@.read_dir(old(self)@.boot.root_cluster).0.history,
                            error,
                        )
                        &&& final(self)@.unread(
                            old(self)@,
                            old(self)@.boot.root_cluster,
                            error@,
                        )
                    }
                    ||| (final(self)@, Err::<Listing, Fault>(error@))
                        == old(self)@.read_dir(old(self)@.boot.root_cluster)
                },
            },
    {
        self.read_dir(self.boot.root_cluster)
    }

    /// The directory a path leads to.
    pub fn open_dir(&mut self, path: &str) -> (result: Result<&Directory, D::Error>)
        requires
            old(self).wf(),
        ensures
            final(self).wf(),
            final(self)@.only_read(old(self)@),
            match result {
                Ok(directory) => {
                    &&& directory.wf()
                    &&& (final(self)@, Ok::<Listing, Fault>(directory@)) == old(self)@.open_dir(
                        path@,
                    )
                },
                Err(error) => {
                    ||| {
                        &&& volume::interrupted(
                            old(self)@,
                            final(self)@,
                            old(self)@.open_dir(path@).0.history,
                            error,
                        )
                        &&& old(self)@.open_dir_stops(path@, final(self)@, error@)
                    }
                    ||| (final(self)@, Err::<Listing, Fault>(error@)) == old(self)@.open_dir(path@)
                },
            },
    {
        let chars: Vec<char> = text::chars_of(path);
        let ghost before = self@;
        match self.resolve_dir(chars.as_slice()) {
            Ok(cluster) => self.read_dir(cluster),
            Err(error) => {
                proof {
                    calls::lemma_open_dir(before, path@);
                    if error.is_external() && calls::begins(
                        self@.history,
                        before.resolve(before.boot.root_cluster, path@).0.history,
                    ) {
                        calls::lemma_then(
                            self@.history,
                            before.resolve(before.boot.root_cluster, path@).0.history,
                            before.open_dir(path@).0.history,
                        );
                    }
                }
                Err(error)
            },
        }
    }

    /// The cluster of the directory a path leads to, from the root. Empty
    /// components and single periods lead nowhere else.
    pub(crate) fn resolve_dir(&mut self, path: &[char]) -> (result: Result<u32, D::Error>)
        requires
            old(self).wf(),
        ensures
            final(self).wf(),
            final(self)@.only_read(old(self)@),
            match result {
                Ok(cluster) => (final(self)@, Ok::<u32, Fault>(cluster)) == old(self)@.resolve(
                    old(self)@.boot.root_cluster,
                    path@,
                ),
                Err(error) => {
                    ||| {
                        &&& volume::interrupted(
                            old(self)@,
                            final(self)@,
                            old(self)@.resolve(old(self)@.boot.root_cluster, path@).0.history,
                            error,
                        )
                        &&& old(self)@.resolve_stops(
                            old(self)@.boot.root_cluster,
                            path@,
                            final(self)@,
                            error@,
                        )
                    }
                    ||| (final(self)@, Err::<u32, Fault>(error@))
                        == old(self)@.resolve(old(self)@.boot.root_cluster, path@)
                },
            },
    {
        let ghost before = self@;
        let total: usize = path.len();
        let mut cluster: u32 = self.boot.root_cluster;
        let mut at: usize = 0;
        assert(path@.skip(0) =~= path@);
        while at < total
            invariant
                self.wf(),
                before == old(self)@,
                total == path@.len(),
                at <= total,
                self@.only_read(before),
                before.resolve(before.boot.root_cluster, path@) == self@.resolve(
                    cluster,
                    path@.skip(at as int),
                ),
                forall|after: Volume, fault: Fault|
                    self@.resolve_stops(cluster, path@.skip(at as int), after, fault)
                        ==> #[trigger] before.resolve_stops(
                        before.boot.root_cluster,
                        path@,
                        after,
                        fault,
                    ),
            decreases total - at,
        {
            let mut end: usize = at;
            while end < total && path[end] != '/'
                invariant
                    total == path@.len(),
                    at <= end <= total,
                    forall|i: int| at <= i < end ==> path@[i] != '/',
                decreases total - end,
            {
                end += 1;
            }
            proof {
                lemma_component(path@, at as int, end as int);
            }
            let component: &[char] = &path[at..end];
            let next: usize = if end < total {
                end + 1
            } else {
                total
            };
            if component.len() != 0 && !(component.len() == 1 && component[0] == '.') {
                assert(!(component@ =~= seq!['.']));
                let ghost reached = self@;
                if let Err(error) = self.load_dir(cluster) {
                    proof {
                        let rest = path@.skip(at as int);
                        if (self@, Err::<Listing, Fault>(error@)) != reached.read_dir(cluster) {
                            assert(reached.resolve_stops(cluster, rest, self@, error@));
                            calls::lemma_resolve(reached, cluster, rest);
                            calls::lemma_then(
                                self@.history,
                                reached.read_dir(cluster).0.history,
                                reached.resolve(cluster, rest).0.history,
                            );
                        }
                    }
                    return Err(error);
                }
                let name: String = text::string_of(component);
                let entry = self.held_dir(cluster).get(name.as_str());
                let next_cluster: u32 = match entry {
                    Some(entry) => {
                        if !entry.is_directory() {
                            return Err(Error::NotADirectory { name });
                        }
                        entry.first_cluster()
                    },
                    None => {
                        return Err(Error::NotFound { name });
                    },
                };
                cluster = if next_cluster == 0 {
                    self.boot.root_cluster
                } else {
                    next_cluster
                };
            } else {
                assert(component@.len() == 0 || component@ =~= seq!['.']);
            }
            at = next;
        }
        Ok(cluster)
    }

    /// Forgets every directory held in memory, so that each is read again.
    pub fn forget_directories(&mut self)
        requires
            old(self).wf(),
        ensures
            final(self).wf(),
            final(self)@ == (Volume { directories: Map::empty(), ..old(self)@ }),
    {
        self.directories.clear();
        assert(self@.directories =~= Map::empty());
    }

    /// Forgets the directory at `cluster`.
    pub(crate) fn forget_directory(&mut self, cluster: u32)
        requires
            old(self).wf(),
        ensures
            final(self).wf(),
            final(self)@ == old(self)@.forgot(cluster),
    {
        broadcast use vstd::std_specs::btree::group_btree_axioms;

        let ghost held = self@.directories;
        self.directories.remove(&cluster);
        assert(self@.directories =~= held.remove(cluster));
    }

    /// The device.
    pub fn device(&self) -> (device: &D)
        ensures
            device.contents() == self@.disk,
            device.history() == self@.history,
            device.limit() == self@.limit,
            device.capacity() == self@.capacity,
    {
        &self.device
    }

    /// The device, to be changed behind the volume's back.
    pub fn device_mut(&mut self) -> (device: &mut D)
        ensures
            device.contents() == old(self)@.disk,
            device.history() == old(self)@.history,
            device.limit() == old(self)@.limit,
            device.capacity() == old(self)@.capacity,
            old(self).wf() ==> final(self).wf(),
            final(self)@ == (Volume {
                disk: final(device).contents(),
                history: final(device).history(),
                limit: final(device).limit(),
                capacity: final(device).capacity(),
                ..old(self)@
            }),
    {
        &mut self.device
    }

    /// Gives the device back, with whatever has not been written lost.
    pub fn into_device(self) -> (device: D)
        ensures
            device.contents() == self@.disk,
            device.history() == self@.history,
            device.limit() == self@.limit,
            device.capacity() == self@.capacity,
    {
        self.device
    }
}

impl<D: BlockDevice> FileSystem<D> {
    /// Sets or clears the dirty flag in the boot sector's block.
    fn set_dirty_flag(&mut self, dirty: bool) -> (result: Result<(), D::Error>)
        requires
            old(self).wf(),
        ensures
            final(self).wf(),
            final(self)@ == (Volume {
                disk: final(self)@.disk,
                history: final(self)@.history,
                capacity: final(self)@.capacity,
                ..old(self)@
            }),
            match result {
                Ok(()) => {
                    &&& old(self)@.at(1) <= old(self)@.disk.len()
                    &&& final(self)@ == old(self)@.flagged(dirty)
                },
                Err(error) => volume::device_failed(
                    old(self)@,
                    final(self)@,
                    old(self)@.flagged(dirty).history,
                    error,
                ),
            },
    {
        let ghost before = self@;
        let mut block: [u8; BLOCK_SIZE] = [0u8;BLOCK_SIZE];
        if let Err(error) = self.device.read(self.first_block, &mut block) {
            proof {
                reveal(calls::begins);
            }
            return Err(Error::device(error));
        }
        let flag: u8 = if dirty {
            1
        } else {
            0
        };
        assert(block@ =~= before.sectors(0, 1));
        block[0x41] = block[0x41] - block[0x41] % 2 + flag;
        assert(block@ =~= before.flagged_block(dirty));
        match self.device.write(self.first_block, &block) {
            Ok(()) => {
                assert(self@ =~= before.flagged(dirty));
                Ok(())
            },
            Err(error) => {
                assert(self@.history =~= before.flagged(dirty).history);
                proof {
                    calls::lemma_all(self@.history);
                }
                Err(Error::device(error))
            },
        }
    }

    /// Marks the volume dirty, unless this mount has already.
    fn mark_dirty(&mut self) -> (result: Result<(), D::Error>)
        requires
            old(self).wf(),
        ensures
            final(self).wf(),
            final(self)@ == (Volume {
                disk: final(self)@.disk,
                history: final(self)@.history,
                capacity: final(self)@.capacity,
                marked_dirty: final(self)@.marked_dirty,
                ..old(self)@
            }),
            match result {
                Ok(()) => {
                    &&& final(self)@ == old(self)@.marked()
                    &&& final(self)@.history.len() >= old(self)@.history.len()
                },
                Err(error) => {
                    &&& volume::device_failed(
                        old(self)@,
                        final(self)@,
                        old(self)@.marked().history,
                        error,
                    )
                    &&& !old(self)@.marked_dirty
                    &&& !final(self)@.marked_dirty
                },
            },
    {
        if self.marked_dirty {
            return Ok(());
        }
        let ghost before = self@;
        match self.set_dirty_flag(true) {
            Ok(()) => {
                self.marked_dirty = true;
                assert(self@ =~= before.marked());
                Ok(())
            },
            Err(error) => Err(error),
        }
    }

    /// Writes `from` to the sectors from `block` on, in as few calls as the
    /// device allows. The dirty flag goes first.
    pub(crate) fn write_blocks(&mut self, block: u64, from: &[u8]) -> (result: Result<
        (),
        D::Error,
    >)
        requires
            old(self).wf(),
            from@.len() % 512 == 0,
            block + from@.len() / 512 <= old(self)@.boot.extent(),
        ensures
            final(self).wf(),
            final(self)@ == (Volume {
                disk: final(self)@.disk,
                history: final(self)@.history,
                capacity: final(self)@.capacity,
                marked_dirty: final(self)@.marked_dirty,
                ..old(self)@
            }),
            old(self)@.marked_dirty ==> final(self)@.marked_dirty,
            match result {
                Ok(()) => {
                    &&& old(self)@.at(block as int) + from@.len() <= old(self)@.disk.len()
                    &&& final(self)@ == old(self)@.wrote(block as int, from@)
                    &&& final(self)@.history.len() > old(self)@.history.len()
                },
                Err(error) => volume::device_failed(
                    old(self)@,
                    final(self)@,
                    old(self)@.wrote(block as int, from@).history,
                    error,
                ),
            },
    {
        let ghost before = self@;
        if let Err(error) = self.mark_dirty() {
            proof {
                let all = blockdev::writes(before.first_block + block, from@, before.batch());
                calls::lemma_more(before.marked().history, all);
                calls::lemma_then(
                    self@.history,
                    before.marked().history,
                    before.wrote(block as int, from@).history,
                );
            }
            return Err(error);
        }
        let ghost marked = self@;
        let total: usize = from.len();
        let blocks: usize = total / BLOCK_SIZE;
        let limit: u64 = self.device.max_transfer_blocks();
        let cap: u64 = if limit == 0 {
            1
        } else {
            limit
        };
        let ghost start = before.first_block + block;
        let ghost batch = before.batch();
        let ghost all = blockdev::writes(start, from@, batch);
        let mut done: usize = 0;
        assert(from@.skip(0) =~= from@);
        loop
            invariant
                old(self).wf(),
                before == old(self)@,
                marked == before.marked(),
                marked.kept(before),
                self.wf(),
                total == from@.len(),
                from@.len() == 512 * blocks,
                block + blocks <= before.boot.extent(),
                start == before.first_block + block,
                cap == batch == before.batch(),
                done <= blocks,
                done < blocks || blocks == 0,
                self@ == (Volume { disk: self@.disk, history: self@.history, ..marked }),
                self@.history.len() >= before.history.len(),
                all == blockdev::writes(start, from@, batch),
                marked.history + all == self@.history + blockdev::writes(
                    start + done,
                    from@.skip(512 * done),
                    batch,
                ),
                done > 0 ==> 512 * (start + done) <= marked.disk.len(),
                self@.disk == bytes::splice(marked.disk, 512 * start, from@.take(512 * done)),
            decreases blocks - done,
        {
            let left: usize = blocks - done;
            let count: usize = if left as u64 <= cap {
                left
            } else {
                cap as usize
            };
            let ghost stored = self@.disk;
            let ghost asked = self@.history;
            let chunk: &[u8] = &from[512 * done..512 * (done + count)];
            match self.device.write(self.first_block + block + done as u64, chunk) {
                Ok(()) => {},
                Err(error) => {
                    proof {
                        let access = Access::Write { start: start + done, data: chunk@ };
                        let data = from@.skip(512 * done);
                        let rest = blockdev::writes(start + done, data, batch);
                        assert(chunk@ =~= if count == left {
                            data
                        } else {
                            data.take(512 * batch)
                        });
                        assert(rest.len() > 0 && rest[0] == access);
                        calls::lemma_step(asked, rest, self@.history, marked.history + all);
                    }
                    return Err(Error::device(error));
                },
            }
            proof {
                let access = Access::Write { start: start + done, data: chunk@ };
                let rest = from@.skip(512 * done);
                assert(self@.history =~= asked.push(access));
                assert(self@.disk =~= bytes::splice(
                    marked.disk,
                    512 * start,
                    from@.take(512 * (done + count)),
                ));
                if count == left {
                    assert(chunk@ =~= rest);
                    assert(blockdev::writes(start + done, rest, batch) =~= seq![access]);
                    assert(self@.history =~= marked.history + all);
                } else {
                    assert(chunk@ =~= rest.take(512 * batch));
                    assert(rest.skip(512 * batch) =~= from@.skip(512 * (done + count)));
                    assert(asked + blockdev::writes(start + done, rest, batch) =~= self@.history
                        + blockdev::writes(
                        start + done + count,
                        from@.skip(512 * (done + count)),
                        batch,
                    ));
                }
            }
            done += count;
            if done == blocks {
                assert(from@.take(512 * blocks) =~= from@);
                assert(self@ =~= before.wrote(block as int, from@));
                return Ok(());
            }
        }
    }
}

impl<D: BlockDevice> FileSystem<D> {
    /// Writes the table's changes to every copy of it.
    pub(crate) fn flush_fat(&mut self) -> (result: Result<(), D::Error>)
        requires
            old(self).wf(),
        ensures
            final(self).wf(),
            final(self)@ == (Volume {
                disk: final(self)@.disk,
                history: final(self)@.history,
                capacity: final(self)@.capacity,
                marked_dirty: final(self)@.marked_dirty,
                table: final(self)@.table,
                ..old(self)@
            }),
            !old(self)@.table.has_changes() ==> result is Ok,
            match result {
                Ok(()) => {
                    &&& final(self)@ == old(self)@.flush()
                    &&& final(self)@.history.len() >= old(self)@.history.len()
                },
                Err(error) => {
                    &&& volume::device_failed(
                        old(self)@,
                        final(self)@,
                        old(self)@.flush().history,
                        error,
                    )
                    &&& final(self)@.stops_at(old(self)@)
                },
            },
    {
        reveal(Volume::flush);
        let ghost before = self@;
        let stretches: Vec<(u32, u32)> = self.fat.dirty_runs();
        let starts: Vec<u32> = self.fat.copy_starts();
        let ghost all = stretches@;
        proof {
            self.fat.lemma_wf();
            if !before.table.has_changes() {
                lemma_nothing_dirty(before.table.dirty, before.table.dirty.len() as int);
            }
        }
        assert(before.wrote_stretches(all.take(0)) =~= before);
        let mut n: usize = 0;
        while n < stretches.len()
            invariant
                old(self).wf(),
                before == old(self)@,
                self.wf(),
                all == stretches@,
                n <= all.len(),
                !before.table.has_changes() ==> all.len() == 0,
                starts@ == Seq::new(
                    before.table.fat_count as nat,
                    |copy: int|
                        (before.table.fat_start + copy * before.table.sectors_per_fat) as u32,
                ),
                forall|r: int|
                    0 <= r < all.len() ==> {
                        &&& (#[trigger] all[r]).1 > 0
                        &&& all[r].0 + all[r].1 <= before.table.sectors_per_fat
                        &&& table::ENTRIES_PER_SECTOR * (all[r].0 + all[r].1 - 1)
                            < before.table.end()
                    },
                all == table::dirty_stretches(
                    before.table.dirty,
                    before.table.dirty.len() as int,
                ),
                self@ == before.wrote_stretches(all.take(n as int)),
                self@ == (Volume {
                    disk: self@.disk,
                    history: self@.history,
                    marked_dirty: self@.marked_dirty,
                    ..before
                }),
                self@.history.len() >= before.history.len(),
            decreases all.len() - n,
        {
            let (sector, count) = stretches[n];
            assert(all[n as int].1 > 0);
            let data: Vec<u8> = self.fat.sector_bytes(sector, count);
            let ghost reached = self@;
            assert(data@ =~= volume::stretch_bytes(
                before.table.entries,
                sector as int,
                count as int,
            ));
            let mut copy: usize = 0;
            while copy < starts.len()
                invariant
                    old(self).wf(),
                    before == old(self)@,
                    self.wf(),
                    copy <= starts@.len(),
                    !before.table.has_changes() ==> all.len() == 0,
                    n < all.len(),
                    (sector, count) == all[n as int],
                    count > 0,
                    sector + count <= before.table.sectors_per_fat,
                    starts@ == Seq::new(
                        before.table.fat_count as nat,
                        |copy: int|
                            (before.table.fat_start + copy * before.table.sectors_per_fat) as u32,
                    ),
                    data@ == volume::stretch_bytes(
                        before.table.entries,
                        sector as int,
                        count as int,
                    ),
                    reached == (Volume {
                        disk: reached.disk,
                        history: reached.history,
                        marked_dirty: reached.marked_dirty,
                        ..before
                    }),
                    reached == before.wrote_stretches(all.take(n as int)),
                    all == table::dirty_stretches(
                        before.table.dirty,
                        before.table.dirty.len() as int,
                    ),
                    self@ == reached.wrote_copies((sector, count), copy as int),
                    self@ == (Volume {
                        disk: self@.disk,
                        history: self@.history,
                        marked_dirty: self@.marked_dirty,
                        ..before
                    }),
                    self@.history.len() >= before.history.len(),
                decreases starts@.len() - copy,
            {
                proof {
                    let t = before.table;
                    let (c, spf, fc) = (copy as int, t.sectors_per_fat as int, t.fat_count as int);
                    assert(0 <= c * spf && c * spf + spf <= fc * spf) by (nonlinear_arith)
                        requires
                            0 <= c < fc,
                            0 <= spf,
                    ;
                    assert(starts@[copy as int] == t.fat_start + c * spf);
                }
                match self.write_blocks((starts[copy] + sector) as u64, data.as_slice()) {
                    Ok(()) => {},
                    Err(error) => {
                        proof {
                            reveal(Volume::flush);
                            let stretch = (sector, count);
                            let copies = before.table.fat_count as int;
                            let some = reached.wrote_copies(stretch, copy + 1);
                            let most = reached.wrote_copies(stretch, copies);
                            assert(all.take(n + 1).drop_last() =~= all.take(n as int));
                            assert(before.wrote_stretches(all.take(n + 1)) == most);
                            calls::lemma_some_copies(reached, stretch, copy + 1, copies);
                            calls::lemma_some_stretches(before, all, n + 1);
                            calls::lemma_then(some.history, most.history, before.flush().history);
                            calls::lemma_then(self@.history, some.history, before.flush().history);
                        }
                        return Err(error);
                    },
                }
                copy += 1;
            }
            n += 1;
            assert(all.take(n as int).drop_last() =~= all.take(n - 1));
        }
        assert(all.take(all.len() as int) =~= all);
        self.fat.clear_dirty();
        proof {
            self.fat.lemma_wf();
            assert(self@ =~= before.flush());
        }
        Ok(())
    }

    /// Writes the number of free clusters and the search position where the
    /// volume keeps such hints.
    fn write_fs_info(&mut self) -> (result: Result<(), D::Error>)
        requires
            old(self).wf(),
        ensures
            final(self).wf(),
            final(self)@ == (Volume {
                disk: final(self)@.disk,
                history: final(self)@.history,
                capacity: final(self)@.capacity,
                marked_dirty: final(self)@.marked_dirty,
                fs_info: final(self)@.fs_info,
                ..old(self)@
            }),
            match result {
                Ok(()) => {
                    &&& final(self)@ == old(self)@.wrote_hints()
                    &&& final(self)@.history.len() >= old(self)@.history.len()
                },
                Err(error) => {
                    &&& volume::device_failed(
                        old(self)@,
                        final(self)@,
                        old(self)@.wrote_hints().history,
                        error,
                    )
                    &&& final(self)@.stops_at(old(self)@)
                },
            },
    {
        let ghost before = self@;
        let sector: u16 = match self.boot.fs_info_sector {
            Some(sector) => sector,
            None => {
                return Ok(());
            },
        };
        let mut block: [u8; BLOCK_SIZE] = [0u8;BLOCK_SIZE];
        if let Err(error) = self.read_blocks(sector as u64, &mut block) {
            proof {
                calls::lemma_wrote_hints(before);
                calls::lemma_then(
                    self@.history,
                    before.after_read(sector as int, 1).history,
                    before.wrote_hints().history,
                );
            }
            return Err(error);
        }
        assert(block@ =~= before.sectors(sector as int, 1));
        if bytes::read_u32(&block, 0) != boot::LEAD_SIGNATURE || bytes::read_u32(&block, 0x1E4)
            != boot::STRUCT_SIGNATURE {
            return Ok(());
        }
        let free: u32 = self.fat.free_clusters();
        let next: u32 = self.fat.next_free_hint();
        bytes::write_u32(&mut block, 0x1E8, free);
        bytes::write_u32(&mut block, 0x1EC, next);
        assert(block@ =~= before.hints_block(sector as int));
        if let Err(error) = self.write_blocks(sector as u64, &block) {
            return Err(error);
        }
        self.fs_info = FsInfo { free_clusters: Some(free), next_free: Some(next) };
        assert(self@ =~= before.wrote_hints());
        Ok(())
    }

    /// Writes everything that is not yet on the device, and clears the dirty
    /// flag last. Does nothing, where this mount has changed nothing.
    pub fn sync(&mut self) -> (result: Result<(), D::Error>)
        requires
            old(self).wf(),
        ensures
            final(self).wf(),
            final(self)@.kept(old(self)@),
            final(self)@.directories == old(self)@.directories,
            final(self)@.deletions == old(self)@.deletions,
            !old(self)@.marked_dirty ==> result is Ok,
            match result {
                Ok(()) => final(self)@ == old(self)@.synced(),
                Err(error) => {
                    &&& volume::device_failed(
                        old(self)@,
                        final(self)@,
                        old(self)@.synced().history,
                        error,
                    )
                    &&& old(self)@.sync_stops(final(self)@)
                },
            },
    {
        if !self.marked_dirty {
            return Ok(());
        }
        let ghost before = self@;
        proof {
            calls::lemma_synced(before);
        }
        if let Err(error) = self.flush_fat() {
            proof {
                calls::lemma_then(
                    self@.history,
                    before.flush().history,
                    before.synced().history,
                );
            }
            return Err(error);
        }
        if let Err(error) = self.write_fs_info() {
            proof {
                calls::lemma_then(
                    self@.history,
                    before.flush().wrote_hints().history,
                    before.synced().history,
                );
            }
            return Err(error);
        }
        self.marked_dirty = false;
        self.set_dirty_flag(false)
    }

    /// Syncs, and gives the device back.
    pub fn unmount(self) -> (result: Result<D, D::Error>)
        requires
            self.wf(),
        ensures
            match result {
                Ok(device) => {
                    &&& device.contents() == self@.synced().disk
                    &&& device.history() == self@.synced().history
                    &&& device.limit() == self@.limit
                    &&& device.capacity() == self@.capacity
                },
                Err(error) => error is Device && self@.marked_dirty,
            },
    {
        proof {
            crate::storage::lemma_flush(self@);
        }
        let mut volume = self;
        match volume.sync() {
            Ok(()) => Ok(volume.device),
            Err(error) => Err(error),
        }
    }
}

/// How often a directory is grown to make room for one name.
pub const MAX_DIRECTORY_GROWTH: u32 = 4;

impl<D: BlockDevice> FileSystem<D> {
    /// The sector that holds a directory's slot, and the slot's offset in it.
    pub(crate) fn entry_location(&self, directory: u32, index: u32) -> (result: Result<
        (u64, usize),
        D::Error,
    >)
        requires
            self.wf(),
        ensures
            match result {
                Ok((sector, offset)) => {
                    &&& self@.slot_location(directory, index) == Ok::<(int, int), Fault>(
                        (sector as int, offset as int),
                    )
                    &&& sector < self@.boot.total_sectors
                    &&& offset + 32 <= 512
                },
                Err(error) => self@.slot_location(directory, index) == Err::<(int, int), Fault>(
                    error@,
                ),
            },
            result matches Err(error) ==> !error.is_external(),
    {
        let block: u32 = index / 16;
        let offset: usize = (index % 16) as usize * ENTRY_SIZE;
        let spc: u32 = self.boot.sectors_per_cluster as u32;
        let runs: Vec<Run> = match self.fat.runs(directory) {
            Ok(runs) => runs,
            Err(error) => {
                return Err(Error::Fat(error));
            },
        };
        let ghost clusters = self@.table.chain(directory)->Ok_0;
        proof {
            table::lemma_chain(self@.table, directory);
            table::lemma_tiles_bound(runs@, clusters, runs@.len() - 1);
        }
        let last: Run = runs[runs.len() - 1];
        if block / spc >= last.file_cluster + last.clusters {
            return Err(Error::DirectoryFull);
        }
        let cluster: u32 = fat::cluster_at(&runs, block / spc, Ghost(clusters));
        proof {
            assert(self@.table.valid(clusters[(block / spc) as int] as int));
            boot::lemma_cluster_in_volume(self@.boot, cluster as int);
        }
        Ok(((self.boot.cluster_sector(cluster) + block % spc) as u64, offset))
    }

    /// Changes one slot of a directory in place.
    pub(crate) fn edit_entry(&mut self, directory: u32, index: u32, edit: &Edit) -> (result: Result<
        (),
        D::Error,
    >)
        requires
            old(self).wf(),
        ensures
            final(self).wf(),
            final(self)@.kept(old(self)@),
            final(self)@.table == old(self)@.table,
            match result {
                Ok(()) => {
                    &&& (final(self)@, Ok::<(), Fault>(())) == old(self)@.edit_slot(
                        directory,
                        index,
                        *edit,
                    )
                    &&& old(self)@.at(old(self)@.slot_location(directory, index)->Ok_0.0) + 512
                        <= old(self)@.disk.len()
                },
                Err(error) => {
                    ||| {
                        &&& volume::device_failed(
                            old(self)@,
                            final(self)@,
                            old(self)@.edit_slot(directory, index, *edit).0.history,
                            error,
                        )
                        &&& final(self)@.stops_at(old(self)@)
                    }
                    ||| (final(self)@, Err::<(), Fault>(error@))
                        == old(self)@.edit_slot(directory, index, *edit)
                },
            },
    {
        reveal(Volume::edit_slot);
        let ghost before = self@;
        let (sector, offset) = match self.entry_location(directory, index) {
            Ok(location) => location,
            Err(error) => {
                return Err(error);
            },
        };
        let mut block: [u8; BLOCK_SIZE] = [0u8;BLOCK_SIZE];
        if let Err(error) = self.read_blocks(sector, &mut block) {
            proof {
                calls::lemma_edit_slot(before, directory, index, *edit);
                calls::lemma_then(
                    self@.history,
                    before.after_read(sector as int, 1).history,
                    before.edit_slot(directory, index, *edit).0.history,
                );
            }
            return Err(error);
        }
        assert(block@ =~= before.sectors(sector as int, 1));
        match edit {
            Edit::Update { first_cluster, size, at } => {
                dir::update_entry(&mut block, offset, *first_cluster, *size, *at);
            },
            Edit::Delete => {
                dir::mark_deleted(&mut block, offset);
            },
        }
        if let Err(error) = self.write_blocks(sector, &block) {
            return Err(error);
        }
        self.forget_directory(directory);
        Ok(())
    }

    /// Writes consecutive slots of a directory, the earlier blocks first: so
    /// an entry never comes to stand after slots that were never used.
    pub(crate) fn write_entries(
        &mut self,
        directory: u32,
        index: u32,
        entries: &Vec<[u8; ENTRY_SIZE]>,
    ) -> (result: Result<(), D::Error>)
        requires
            old(self).wf(),
            entries@.len() > 0,
            index + entries@.len() <= u32::MAX,
        ensures
            final(self).wf(),
            final(self)@.kept(old(self)@),
            final(self)@.table == old(self)@.table,
            ({
                let slots = Seq::new(entries@.len(), |i: int| entries@[i]@);
                match result {
                    Ok(()) => (final(self)@, Ok::<(), Fault>(())) == old(self)@.put_slots(
                        directory,
                        index,
                        slots,
                    ),
                    Err(error) => {
                        ||| {
                            &&& volume::device_failed(
                                old(self)@,
                                final(self)@,
                                old(self)@.put_slots(directory, index, slots).0.history,
                                error,
                            )
                            &&& final(self)@.stops_at(old(self)@)
                        }
                        ||| (final(self)@, Err::<(), Fault>(error@))
                            == old(self)@.put_slots(directory, index, slots)
                    },
                }
            }),
    {
        let ghost before = self@;
        let ghost slots = Seq::new(entries@.len(), |i: int| entries@[i]@);
        let end: u32 = index + entries.len() as u32;
        let mut block_in_dir: u32 = index / 16;
        let mut buffer: [u8; BLOCK_SIZE] = [0u8;BLOCK_SIZE];
        while block_in_dir < (end - 1) / 16 + 1
            invariant
                old(self).wf(),
                before == old(self)@,
                self.wf(),
                self@.stops_at(before),
                slots == Seq::new(entries@.len(), |i: int| entries@[i]@),
                entries@.len() > 0,
                end == index + entries@.len(),
                index / 16 <= block_in_dir <= (end - 1) / 16 + 1,
                before.put_slots(directory, index, slots) == self@.write_slots(
                    directory,
                    index as int,
                    slots,
                    block_in_dir as int,
                ),
            decreases (end - 1) / 16 + 1 - block_in_dir,
        {
            let (sector, _) = match self.entry_location(directory, 16 * block_in_dir) {
                Ok(location) => location,
                Err(error) => {
                    return Err(error);
                },
            };
            let ghost reached = self@;
            let ghost planned = before.put_slots(directory, index, slots).0.history;
            proof {
                calls::lemma_write_slots(
                    reached,
                    directory,
                    index as int,
                    slots,
                    block_in_dir as int,
                );
            }
            if let Err(error) = self.read_blocks(sector, &mut buffer) {
                proof {
                    calls::lemma_then(
                        self@.history,
                        reached.after_read(sector as int, 1).history,
                        planned,
                    );
                }
                return Err(error);
            }
            let ghost block = reached.sectors(sector as int, 1);
            let ghost expected = reached.filled_block(
                sector as int,
                block_in_dir as int,
                index as int,
                slots,
            );
            assert(buffer@ =~= block);
            let mut slot: u32 = 0;
            while slot < 16
                invariant
                    slot <= 16,
                    buffer@.len() == 512,
                    entries@.len() > 0,
                    end == index + entries@.len(),
                    16 * block_in_dir < end,
                    block_in_dir <= 0x0FFF_FFFF,
                    slots == Seq::new(entries@.len(), |i: int| entries@[i]@),
                    block == reached.sectors(sector as int, 1),
                    block.len() == 512,
                    expected == reached.filled_block(
                        sector as int,
                        block_in_dir as int,
                        index as int,
                        slots,
                    ),
                    forall|i: int|
                        0 <= i < 512 ==> #[trigger] buffer@[i] == (if i < 32 * slot {
                            expected[i]
                        } else {
                            block[i]
                        }),
                decreases 16 - slot,
            {
                let at: u32 = 16 * block_in_dir + slot;
                let ghost kept = buffer@;
                if index <= at && at < end {
                    bytes::copy_into(
                        &mut buffer,
                        slot as usize * ENTRY_SIZE,
                        &entries[(at - index) as usize],
                    );
                    assert(slots[at - index] == entries@[at - index]@);
                }
                assert forall|i: int| 0 <= i < 512 implies #[trigger] buffer@[i] == (if i < 32 * (
                slot + 1) {
                    expected[i]
                } else {
                    block[i]
                }) by {
                    if 32 * slot <= i < 32 * (slot + 1) {
                        assert(i / 32 == slot);
                        assert(i % 32 == i - 32 * slot);
                        assert(kept[i] == block[i]);
                    } else {
                        assert(kept[i] == (if i < 32 * slot {
                            expected[i]
                        } else {
                            block[i]
                        }));
                    }
                }
                slot += 1;
            }
            assert(buffer@ =~= expected);
            if let Err(error) = self.write_blocks(sector, &buffer) {
                proof {
                    calls::lemma_then(
                        self@.history,
                        reached.after_read(sector as int, 1).wrote(
                            sector as int,
                            expected,
                        ).history,
                        planned,
                    );
                }
                return Err(error);
            }
            block_in_dir += 1;
        }
        self.forget_directory(directory);
        Ok(())
    }
}

impl<D: BlockDevice> FileSystem<D> {
    /// How often something was deleted from a directory.
    pub(crate) fn deletions(&self, directory: u32) -> (count: u32)
        ensures
            count == self@.deletions_of(directory),
    {
        broadcast use vstd::std_specs::btree::group_btree_axioms;

        match self.deletions.get(&directory) {
            Some(count) => *count,
            None => 0,
        }
    }

    /// Deletes the entry in slot `last` with the long name that starts in
    /// slot `first`: the entry goes first, then its name from the end.
    pub(crate) fn delete_entries(&mut self, directory: u32, first: u32, last: u32) -> (result: Result<
        (),
        D::Error,
    >)
        requires
            old(self).wf(),
            first <= last,
        ensures
            final(self).wf(),
            final(self)@.kept(old(self)@),
            final(self)@.table == old(self)@.table,
            match result {
                Ok(()) => (final(self)@, Ok::<(), Fault>(())) == old(self)@.delete_slots(
                    directory,
                    first,
                    last,
                ),
                Err(error) => {
                    ||| {
                        &&& volume::device_failed(
                            old(self)@,
                            final(self)@,
                            old(self)@.delete_slots(directory, first, last).0.history,
                            error,
                        )
                        &&& old(self)@.delete_stops(directory, final(self)@)
                    }
                    ||| (final(self)@, Err::<(), Fault>(error@))
                        == old(self)@.delete_slots(directory, first, last)
                },
            },
    {
        broadcast use vstd::std_specs::btree::group_btree_axioms;

        let ghost before = self@;
        let count: u32 = self.deletions(directory);
        let next: u32 = if count == u32::MAX {
            0
        } else {
            count + 1
        };
        self.deletions.insert(directory, next);
        assert(self@ =~= before.counted(directory));
        let mut index: u32 = last;
        loop
            invariant
                old(self).wf(),
                before == old(self)@,
                self.wf(),
                self@.kept(before),
                self@.table == before.table,
                first <= index <= last,
                index == last ==> self@.stops_at(before.counted(directory)),
                index < last ==> self@.stops_at(before.counted(directory).forgot(directory)),
                before.delete_slots(directory, first, last) == self@.delete_down(
                    directory,
                    first,
                    index,
                ),
            decreases index,
        {
            let ghost reached = self@;
            if let Err(error) = self.edit_entry(directory, index, &Edit::Delete) {
                proof {
                    let edited = reached.edit_slot(directory, index, Edit::Delete);
                    calls::lemma_delete_down(reached, directory, first, index);
                    if (self@, Err::<(), Fault>(error@)) != edited {
                        calls::lemma_then(
                            self@.history,
                            edited.0.history,
                            reached.delete_down(directory, first, index).0.history,
                        );
                    }
                }
                return Err(error);
            }
            if index == first {
                return Ok(());
            }
            proof {
                reveal(Volume::edit_slot);
                assert(self@.directories =~= before.counted(directory).forgot(
                    directory,
                ).directories);
            }
            index -= 1;
        }
    }

    /// Makes a directory one cluster longer. The new cluster is cleared
    /// before the directory leads to it.
    fn grow_directory(&mut self, directory: u32) -> (result: Result<(), D::Error>)
        requires
            old(self).wf(),
        ensures
            final(self).wf(),
            final(self)@.kept(old(self)@),
            match result {
                Ok(()) => (final(self)@, Ok::<(), Fault>(())) == old(self)@.grow_directory(
                    directory,
                ),
                Err(error) => {
                    ||| {
                        &&& volume::device_failed(
                            old(self)@,
                            final(self)@,
                            old(self)@.grow_directory(directory).0.history,
                            error,
                        )
                        &&& old(self)@.grow_stops(final(self)@)
                    }
                    ||| (final(self)@, Err::<(), Fault>(error@))
                        == old(self)@.grow_directory(directory)
                },
            },
    {
        reveal(Volume::grow_directory);
        let ghost before = self@;
        let runs: Vec<Run> = match self.fat.runs(directory) {
            Ok(runs) => runs,
            Err(error) => {
                return Err(Error::Fat(error));
            },
        };
        let ghost clusters = before.table.chain(directory)->Ok_0;
        proof {
            table::lemma_chain(before.table, directory);
            lemma_run_valid(before.table, runs@, clusters, runs@.len() - 1);
            table::lemma_tiles_bound(runs@, clusters, runs@.len() - 1);
            let last = runs@.last();
            assert(clusters[last.file_cluster + (last.clusters - 1)] == table::run_cluster(
                last,
                last.clusters - 1,
            ));
        }
        let last: u32 = runs[runs.len() - 1].start_cluster + (runs[runs.len() - 1].clusters - 1);
        let added: Vec<Run> = match self.fat.allocate(1) {
            Ok(added) => added,
            Err(error) => {
                return Err(Error::Fat(error));
            },
        };
        let ghost taken = before.table.allocated(1).1->Ok_0;
        proof {
            self.fat.lemma_wf();
            table::lemma_picked(before.table, 1);
            assert(taken[added@[0].file_cluster + 0] == table::run_cluster(added@[0], 0));
            assert(before.table.is_free(taken[0] as int));
            boot::lemma_cluster_in_volume(before.boot, taken[0] as int);
            lemma_chain_size(before, 0);
        }
        let new_cluster: u32 = added[0].start_cluster;
        let zeros: Vec<u8> = vec![0u8; self.boot.sectors_per_cluster as usize * BLOCK_SIZE];
        assert(zeros@ =~= bytes::zeros(before.cluster_bytes() as nat));
        let sector: u32 = self.boot.cluster_sector(new_cluster);
        let ghost allocated = self@;
        if let Err(error) = self.write_blocks(sector as u64, zeros.as_slice()) {
            return Err(error);
        }
        let _ = self.fat.set_entry(last, new_cluster);
        proof {
            self.fat.lemma_wf();
        }
        self.forget_directory(directory);
        assert(self@ =~= before.grow_directory(directory).0);
        Ok(())
    }

    /// Where there is room for `count` slots in a row in a directory, which
    /// is grown if it must be.
    pub(crate) fn free_slots(&mut self, directory: u32, count: u32) -> (result: Result<
        u32,
        D::Error,
    >)
        requires
            old(self).wf(),
        ensures
            final(self).wf(),
            final(self)@.kept(old(self)@),
            match result {
                Ok(index) => {
                    &&& (final(self)@, Ok::<u32, Fault>(index)) == old(self)@.find_room(
                        directory,
                        count,
                        MAX_DIRECTORY_GROWTH as int,
                    )
                    &&& index + count <= u32::MAX
                },
                Err(error) => {
                    ||| {
                        &&& volume::interrupted(
                            old(self)@,
                            final(self)@,
                            old(self)@.find_room(
                                directory,
                                count,
                                MAX_DIRECTORY_GROWTH as int,
                            ).0.history,
                            error,
                        )
                        &&& old(self)@.find_room_stops(
                            directory,
                            count,
                            MAX_DIRECTORY_GROWTH as int,
                            final(self)@,
                            error@,
                        )
                    }
                    ||| (final(self)@, Err::<u32, Fault>(error@))
                        == old(self)@.find_room(directory, count, MAX_DIRECTORY_GROWTH as int)
                },
            },
    {
        let ghost before = self@;
        let mut attempts: u32 = MAX_DIRECTORY_GROWTH;
        loop
            invariant
                old(self).wf(),
                before == old(self)@,
                self.wf(),
                self@.kept(before),
                before.find_room(directory, count, MAX_DIRECTORY_GROWTH as int) == self@.find_room(
                    directory,
                    count,
                    attempts as int,
                ),
                forall|after: Volume, fault: Fault|
                    self@.find_room_stops(directory, count, attempts as int, after, fault)
                        ==> #[trigger] before.find_room_stops(
                        directory,
                        count,
                        MAX_DIRECTORY_GROWTH as int,
                        after,
                        fault,
                    ),
            decreases attempts,
        {
            let ghost reached = self@;
            let ghost planned = reached.find_room(directory, count, attempts as int).0.history;
            proof {
                calls::lemma_find_room(reached, directory, count, attempts as int);
            }
            if let Err(error) = self.load_dir(directory) {
                proof {
                    let read = reached.read_dir(directory);
                    if (self@, Err::<Listing, Fault>(error@)) != read {
                        assert(reached.find_room_stops(
                            directory,
                            count,
                            attempts as int,
                            self@,
                            error@,
                        ));
                        calls::lemma_then(self@.history, read.0.history, planned);
                    }
                }
                return Err(error);
            }
            let held: &Directory = self.held_dir(directory);
            if let Some(index) = held.free_run(count) {
                proof {
                    held.lemma_wf();
                    lemma_room(held@.free, count);
                }
                return Ok(index);
            }
            if attempts == 0 {
                return Err(Error::DirectoryFull);
            }
            let ghost read = self@;
            if let Err(error) = self.grow_directory(directory) {
                proof {
                    let grown = read.grow_directory(directory);
                    if (self@, Err::<(), Fault>(error@)) != grown {
                        assert(reached.find_room_stops(
                            directory,
                            count,
                            attempts as int,
                            self@,
                            error@,
                        ));
                        calls::lemma_then(self@.history, grown.0.history, planned);
                    }
                }
                return Err(error);
            }
            attempts -= 1;
        }
    }
}

/// The room found ends within the slot numbers.
proof fn lemma_room(free: Seq<(u32, u32)>, count: u32)
    requires
        forall|a: int| 0 <= a < free.len() ==> (#[trigger] free[a]).0 + free[a].1 <= u32::MAX,
        dir::first_room(free, count) is Some,
    ensures
        dir::first_room(free, count)->0 + count <= u32::MAX,
    decreases free.len(),
{
    if free.len() > 0 {
        assert(free[0].0 + free[0].1 <= u32::MAX);
        if free[0].1 < count {
            assert forall|a: int| 0 <= a < free.skip(1).len() implies (#[trigger] free.skip(1)[a]).0
                + free.skip(1)[a].1 <= u32::MAX by {
                assert(free.skip(1)[a] == free[a + 1]);
            }
            lemma_room(free.skip(1), count);
        }
    }
}

/// Where no sector is dirty there is no stretch of dirty ones.
proof fn lemma_nothing_dirty(dirty: Seq<bool>, n: int)
    requires
        0 <= n <= dirty.len(),
        forall|sector: int| 0 <= sector < dirty.len() ==> !dirty[sector],
    ensures
        table::dirty_stretches(dirty, n).len() == 0,
    decreases n,
{
    if n > 0 {
        lemma_nothing_dirty(dirty, n - 1);
    }
}

/// The component of a path that runs from `at` to `end`.
proof fn lemma_component(path: Seq<char>, at: int, end: int)
    requires
        0 <= at <= end <= path.len(),
        forall|i: int| at <= i < end ==> path[i] != '/',
        end < path.len() ==> path[end] == '/',
    ensures
        volume::first_component(path.skip(at)) == path.subrange(at, end),
        at < path.len() ==> volume::after_component(path.skip(at)) == path.skip(
            if end < path.len() {
                end + 1
            } else {
                path.len() as int
            },
        ),
    decreases end - at,
{
    if at < end {
        lemma_component(path, at + 1, end);
        assert(path.skip(at).skip(1) =~= path.skip(at + 1));
        assert(seq![path[at]] + path.subrange(at + 1, end) =~= path.subrange(at, end));
    } else {
        assert(path.subrange(at, end) =~= Seq::<char>::empty());
    }
    if at < path.len() {
        if end < path.len() {
            assert(path.skip(at).skip(end - at + 1) =~= path.skip(end + 1));
        } else {
            assert(path.skip(path.len() as int) =~= Seq::<char>::empty());
        }
    }
}

/// A stretch of the volume's clusters lies in its data area.
pub proof fn lemma_run_in_volume(volume: Volume, start: int, clusters: int)
    requires
        volume.laid_out(),
        clusters > 0,
        volume.table.valid(start),
        volume.table.valid(start + clusters - 1),
    ensures
        volume.boot.data_start <= volume.boot.spec_cluster_sector(start),
        volume.boot.spec_cluster_sector(start) + clusters * volume.boot.sectors_per_cluster
            <= volume.boot.total_sectors,
        clusters * volume.cluster_bytes() == 512 * (clusters * volume.boot.sectors_per_cluster),
        clusters * volume.boot.sectors_per_cluster > 0,
{
    let last = start + clusters - 1;
    boot::lemma_cluster_in_volume(volume.boot, start);
    boot::lemma_cluster_in_volume(volume.boot, last);
    let spc = volume.boot.sectors_per_cluster as int;
    assert((start - 2) * spc + clusters * spc == (last - 2) * spc + spc) by (nonlinear_arith)
        requires
            last == start + clusters - 1,
    ;
    assert(clusters * (spc * 512) == 512 * (clusters * spc)) by (nonlinear_arith);
    assert(clusters * spc > 0) by (nonlinear_arith)
        requires
            clusters > 0,
            spc > 0,
    ;
}

/// The bytes of so many clusters fit the numbers used for them.
pub proof fn lemma_chain_size(volume: Volume, clusters: int)
    requires
        volume.laid_out(),
        0 <= clusters <= volume.boot.cluster_count,
    ensures
        512 <= volume.cluster_bytes() <= 0x1_0000,
        0 <= clusters * volume.cluster_bytes() <= 0x1000_0000_0000,
{
    let cb = volume.cluster_bytes();
    assert(512 <= cb <= 0x1_0000) by (nonlinear_arith)
        requires
            cb == volume.boot.sectors_per_cluster * 512,
            1 <= volume.boot.sectors_per_cluster <= 128,
    ;
    assert(0 <= clusters * cb <= 0x1000_0000 * 0x1_0000) by (nonlinear_arith)
        requires
            0 <= clusters <= 0x1000_0000,
            0 <= cb <= 0x1_0000,
    ;
}

/// Every run of a chain lies in the volume.
pub proof fn lemma_run_valid(table: Table, runs: Seq<Run>, clusters: Seq<u32>, r: int)
    requires
        table::tiles(runs, clusters),
        table.links(clusters),
        0 <= r < runs.len(),
    ensures
        runs[r].clusters > 0,
        table.valid(runs[r].start_cluster as int),
        table.valid(runs[r].start_cluster + runs[r].clusters - 1),
{
    let run = runs[r];
    assert(run.clusters > 0);
    table::lemma_tiles_bound(runs, clusters, r);
    assert(clusters[run.file_cluster + 0] == table::run_cluster(run, 0));
    assert(clusters[run.file_cluster + (run.clusters - 1)] == table::run_cluster(
        run,
        run.clusters - 1,
    ));
    assert(table.valid(clusters[run.file_cluster + 0] as int));
    assert(table.valid(clusters[run.file_cluster + (run.clusters - 1)] as int));
}

/// Whether the first `n` bytes of `data` are those of a chain, all of them on
/// the device.
#[verifier::opaque]
spec fn read_up_to(volume: Volume, clusters: Seq<u32>, data: Seq<u8>, n: int) -> bool {
    forall|i: int|
        0 <= i < n ==> #[trigger] data[i] == volume.chain_byte(clusters, i) && volume.position(
            clusters,
            i,
        ) < volume.disk.len()
}

/// Reading one more run of a chain.
proof fn lemma_read_on(
    volume: Volume,
    runs: Seq<Run>,
    clusters: Seq<u32>,
    r: int,
    before: Seq<u8>,
    after: Seq<u8>,
)
    requires
        volume.laid_out(),
        table::tiles(runs, clusters),
        0 <= r < runs.len(),
        ({
            let cb = volume.cluster_bytes();
            let at = runs[r].file_cluster * cb;
            let length = runs[r].clusters * cb;
            let sector = volume.boot.spec_cluster_sector(runs[r].start_cluster as int);
            let blocks = runs[r].clusters * volume.boot.sectors_per_cluster;
            &&& 0 <= at
            &&& read_up_to(volume, clusters, before, at)
            &&& volume.at(sector) + 512 * blocks <= volume.disk.len()
            &&& 0 <= volume.at(sector)
            &&& length == 512 * blocks
            &&& at + length <= after.len()
            &&& after.len() == before.len()
            &&& after.take(at) == before.take(at)
            &&& after.subrange(at, at + length) == volume.sectors(sector, blocks)
        }),
    ensures
        read_up_to(
            volume,
            clusters,
            after,
            (runs[r].file_cluster + runs[r].clusters) * volume.cluster_bytes(),
        ),
{
    reveal(read_up_to);
    let cb = volume.cluster_bytes();
    let at = runs[r].file_cluster * cb;
    let length = runs[r].clusters * cb;
    assert((runs[r].file_cluster + runs[r].clusters) * cb == at + length) by (nonlinear_arith)
        requires
            at == runs[r].file_cluster * cb,
            length == runs[r].clusters * cb,
    ;
    let sector = volume.boot.spec_cluster_sector(runs[r].start_cluster as int);
    let blocks = runs[r].clusters * volume.boot.sectors_per_cluster;
    assert forall|i: int| 0 <= i < at + length implies #[trigger] after[i] == volume.chain_byte(
        clusters,
        i,
    ) && volume.position(clusters, i) < volume.disk.len() by {
        if i < at {
            assert(after.take(at)[i] == before.take(at)[i]);
            assert(before[i] == volume.chain_byte(clusters, i));
        } else {
            lemma_position_in_run(volume, runs, clusters, r, i);
            assert(after.subrange(at, at + length)[i - at] == volume.sectors(sector, blocks)[i
                - at]);
        }
    }
}

/// Byte `i` of a chain, where it falls in run `r`, is that many bytes after
/// the run's first.
pub proof fn lemma_position_in_run(
    volume: Volume,
    runs: Seq<Run>,
    clusters: Seq<u32>,
    r: int,
    i: int,
)
    requires
        volume.laid_out(),
        table::tiles(runs, clusters),
        0 <= r < runs.len(),
        runs[r].file_cluster * volume.cluster_bytes() <= i < (runs[r].file_cluster
            + runs[r].clusters) * volume.cluster_bytes(),
    ensures
        volume.position(clusters, i) == volume.cluster_at(runs[r].start_cluster as int) + (i
            - runs[r].file_cluster * volume.cluster_bytes()),
        0 <= i / volume.cluster_bytes() < clusters.len(),
{
    let run = runs[r];
    let cb = volume.cluster_bytes();
    let f = run.file_cluster as int;
    let spc = volume.boot.sectors_per_cluster as int;
    lemma_chain_size(volume, 0);
    table::lemma_tiles_bound(runs, clusters, r);
    let k = i / cb - f;
    assert(0 <= k < run.clusters) by (nonlinear_arith)
        requires
            f * cb <= i < (f + run.clusters) * cb,
            cb > 0,
            k == i / cb - f,
    ;
    assert(clusters[run.file_cluster + k] == table::run_cluster(run, k));
    assert((run.start_cluster + k - 2) * spc == (run.start_cluster - 2) * spc + k * spc)
        by (nonlinear_arith);
    assert(512 * (k * spc) == k * cb) by (nonlinear_arith)
        requires
            cb == spc * 512,
    ;
    assert(k * cb + i % cb == i - f * cb) by (nonlinear_arith)
        requires
            cb > 0,
            k == i / cb - f,
    ;
}

} // verus!
