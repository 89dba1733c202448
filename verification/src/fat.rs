//! The file allocation table, held in memory.
//!
//! Changing an entry marks its sector dirty and nothing more; a dirty
//! stretch reaches the device, once per copy of the table, when the volume
//! flushes it.
use vstd::prelude::*;

use crate::blockdev;
use crate::blockdev::{BlockDevice, BLOCK_SIZE};
use crate::boot::{BootSector, FIRST_CLUSTER};
use crate::bytes;
use crate::bytes::{read_u32, write_u32};
use crate::calls;
use crate::error::{try_filled, Error, FatError};
use crate::table;
use crate::table::{Table, BAD_CLUSTER, END_OF_CHAIN, END_OF_CHAIN_MARK, ENTRIES_PER_SECTOR, ENTRY_LIMIT};

pub use crate::table::Run;

verus! {

/// How many blocks of the table are read at a time.
pub const LOAD_CHUNK_BLOCKS: usize = 2048;

/// A volume's allocation table.
#[derive(Debug, Clone)]
pub struct Fat {
    entries: Vec<u32>,
    cluster_count: u32,
    dirty: Vec<bool>,
    next_free: u32,
    free_count: u32,
    sectors_per_fat: u32,
    fat_count: u8,
    fat_start: u32,
}

impl View for Fat {
    type V = Table;

    closed spec fn view(&self) -> Table {
        Table {
            entries: self.entries@,
            cluster_count: self.cluster_count,
            dirty: self.dirty@,
            next_free: self.next_free,
            fat_start: self.fat_start,
            sectors_per_fat: self.sectors_per_fat,
            fat_count: self.fat_count,
        }
    }
}

/// The batch size the table is read with.
pub open spec fn load_batch(limit: u64) -> int {
    if blockdev::batch_blocks(limit) <= LOAD_CHUNK_BLOCKS {
        blockdev::batch_blocks(limit)
    } else {
        LOAD_CHUNK_BLOCKS as int
    }
}

/// How many blocks hold a volume's table entries.
pub open spec fn table_blocks(boot: BootSector) -> int {
    crate::boot::div_ceil((boot.cluster_count + FIRST_CLUSTER) * 4, 512)
}

/// The table stored on `disk` for a volume that starts at `first_block`.
pub open spec fn stored_table(disk: Seq<u8>, first_block: int, boot: BootSector) -> Table {
    Table {
        entries: Seq::new(
            (boot.cluster_count + FIRST_CLUSTER) as nat,
            |i: int| bytes::u32_at(disk, 512 * (first_block + boot.fat_start) + 4 * i),
        ),
        cluster_count: boot.cluster_count,
        dirty: Seq::new(boot.sectors_per_fat as nat, |i: int| false),
        next_free: FIRST_CLUSTER,
        fat_start: boot.fat_start,
        sectors_per_fat: boot.sectors_per_fat,
        fat_count: boot.fat_count,
    }
}

/// How many bytes loading a table takes for its entries.
pub open spec fn entry_bytes(boot: BootSector) -> int {
    4 * (boot.cluster_count + FIRST_CLUSTER)
}

/// For how many bytes loading a table may want memory, and when: for the
/// entries before anything is read, and for the marks, one to a sector of the
/// table, once everything is.
pub open spec fn wants(
    boot: BootSector,
    bytes: int,
    before: Seq<blockdev::Access>,
    made: Seq<blockdev::Access>,
    planned: Seq<blockdev::Access>,
) -> bool {
    ||| bytes == entry_bytes(boot) && made == before
    ||| bytes == boot.sectors_per_fat && made == planned
}

/// Appends the entries in `buffer`, until there are `limit` of them.
fn push_words(buffer: &[u8], limit: u32, entries: &mut Vec<u32>)
    requires
        buffer@.len() % 4 == 0,
        old(entries)@.len() <= limit,
    ensures
        final(entries)@ == old(entries)@ + Seq::new(
            (if old(entries)@.len() + buffer@.len() as int / 4 < limit {
                buffer@.len() as int / 4
            } else {
                limit - old(entries)@.len()
            }) as nat,
            |i: int| bytes::u32_at(buffer@, 4 * i),
        ),
{
    let ghost start = entries@;
    let words: usize = buffer.len() / 4;
    let mut word: usize = 0;
    while word < words && entries.len() < limit as usize
        invariant
            words == buffer@.len() as int / 4,
            4 * words <= usize::MAX,
            word <= words,
            start.len() + word <= limit,
            entries@ == start + Seq::new(word as nat, |i: int| bytes::u32_at(buffer@, 4 * i)),
        decreases words - word,
    {
        let entry: u32 = read_u32(buffer, 4 * word);
        entries.push(entry);
        word += 1;
        assert(entries@ =~= start + Seq::new(
            word as nat,
            |i: int| bytes::u32_at(buffer@, 4 * i),
        ));
    }
}

/// The entries in some blocks of the table are those the device stores there.
proof fn lemma_pushed(disk: Seq<u8>, base: int, block: int, blocks: int, buffer: Seq<u8>)
    requires
        0 <= base,
        0 <= block,
        0 <= blocks,
        512 * (base + block) + 512 * blocks <= disk.len(),
        buffer == disk.subrange(512 * (base + block), 512 * (base + block) + 512 * blocks),
    ensures
        forall|i: int|
            0 <= i < 128 * blocks ==> #[trigger] bytes::u32_at(buffer, 4 * i) == bytes::u32_at(
                disk,
                512 * base + 4 * (128 * block + i),
            ),
{
}

/// A call that reads the next blocks is the first of those that are left.
proof fn lemma_read_on(before: Seq<blockdev::Access>, start: int, left: int, batch: int)
    requires
        0 < left,
        0 < batch,
    ensures
        ({
            let blocks = if batch < left {
                batch
            } else {
                left
            };
            let after = before.push(blockdev::Access::Read { start, blocks });
            let rest = blockdev::reads(start, left, batch);
            if blocks == left {
                after == before + rest
            } else {
                after + blockdev::reads(start + batch, left - batch, batch) == before + rest
            }
        }),
{
    let blocks = if batch < left {
        batch
    } else {
        left
    };
    let after = before.push(blockdev::Access::Read { start, blocks });
    let rest = blockdev::reads(start, left, batch);
    if blocks == left {
        assert(after =~= before + rest);
    } else {
        assert(after + blockdev::reads(start + batch, left - batch, batch) =~= before + rest);
    }
}

impl Fat {
    /// The table is well-formed, and the number of free clusters is known.
    pub closed spec fn wf(&self) -> bool {
        &&& self@.wf()
        &&& self.free_count == self@.free_count()
    }

    /// What a well-formed table guarantees.
    pub proof fn lemma_wf(&self)
        requires
            self.wf(),
        ensures
            self@.wf(),
            self@.free_count() <= self@.cluster_count,
    {
        table::lemma_free_below_bound(self@.entries, self@.end());
    }

    /// Reads the table of a volume that starts at the device's first block.
    pub fn load<D: BlockDevice>(device: &mut D, boot: &BootSector) -> (result: crate::error::Result<
        Self,
        D::Error,
    >)
        requires
            boot.wf(),
        ensures
            final(device).limit() == old(device).limit(),
            match result {
                Ok(fat) => {
                    &&& fat.wf()
                    &&& fat@ == stored_table(old(device).contents(), 0, *boot)
                    &&& final(device).contents() == old(device).contents()
                    &&& final(device).capacity() == old(device).capacity()
                    &&& final(device).history() == old(device).history() + blockdev::reads(
                        boot.fat_start as int,
                        table_blocks(*boot),
                        load_batch(old(device).limit()),
                    )
                },
                Err(error) => {
                    &&& error.is_external()
                    &&& error is Device ==> final(device).history().len() > old(
                        device,
                    ).history().len()
                    &&& calls::begins(
                        final(device).history(),
                        old(device).history() + blockdev::reads(
                            boot.fat_start as int,
                            table_blocks(*boot),
                            load_batch(old(device).limit()),
                        ),
                    )
                    &&& error matches Error::OutOfMemory { bytes } ==> {
                        &&& final(device).contents() == old(device).contents()
                        &&& final(device).capacity() == old(device).capacity()
                        &&& wants(
                            *boot,
                            bytes as int,
                            old(device).history(),
                            final(device).history(),
                            old(device).history() + blockdev::reads(
                                boot.fat_start as int,
                                table_blocks(*boot),
                                load_batch(old(device).limit()),
                            ),
                        )
                    }
                },
            },
    {
        Fat::load_at(device, 0, boot)
    }

    /// Reads the table of a volume that starts at `first_block`.
    pub(crate) fn load_at<D: BlockDevice>(
        device: &mut D,
        first_block: u64,
        boot: &BootSector,
    ) -> (result: crate::error::Result<Self, D::Error>)
        requires
            boot.wf(),
            first_block + boot.total_sectors <= u64::MAX,
        ensures
            final(device).limit() == old(device).limit(),
            match result {
                Ok(fat) => {
                    &&& fat.wf()
                    &&& fat@ == stored_table(old(device).contents(), first_block as int, *boot)
                    &&& final(device).contents() == old(device).contents()
                    &&& final(device).capacity() == old(device).capacity()
                    &&& final(device).history() == old(device).history() + blockdev::reads(
                        first_block + boot.fat_start,
                        table_blocks(*boot),
                        load_batch(old(device).limit()),
                    )
                },
                Err(error) => {
                    &&& error.is_external()
                    &&& error is Device ==> final(device).history().len() > old(
                        device,
                    ).history().len()
                    &&& calls::begins(
                        final(device).history(),
                        old(device).history() + blockdev::reads(
                            first_block + boot.fat_start,
                            table_blocks(*boot),
                            load_batch(old(device).limit()),
                        ),
                    )
                    &&& error matches Error::OutOfMemory { bytes } ==> {
                        &&& final(device).contents() == old(device).contents()
                        &&& final(device).capacity() == old(device).capacity()
                        &&& wants(
                            *boot,
                            bytes as int,
                            old(device).history(),
                            final(device).history(),
                            old(device).history() + blockdev::reads(
                                first_block + boot.fat_start,
                                table_blocks(*boot),
                                load_batch(old(device).limit()),
                            ),
                        )
                    }
                },
            },
    {
        let ghost disk = device.contents();
        let entry_count: u32 = boot.cluster_count + FIRST_CLUSTER;
        let bytes_needed: u64 = entry_count as u64 * 4;
        let blocks_needed: u64 = (bytes_needed + 511) / 512;
        let mut entries: Vec<u32> = Vec::new();
        proof {
            calls::lemma_more(
                device.history(),
                blockdev::reads(
                    first_block + boot.fat_start,
                    table_blocks(*boot),
                    load_batch(device.limit()),
                ),
            );
        }
        if entries.try_reserve(entry_count as usize).is_err() {
            return Err(Error::OutOfMemory { bytes: bytes_needed });
        }
        let limit: u64 = device.max_transfer_blocks();
        let chunk_blocks: u64 = if limit == 0 {
            1
        } else if limit > LOAD_CHUNK_BLOCKS as u64 {
            LOAD_CHUNK_BLOCKS as u64
        } else {
            limit
        };
        let mut buffer: Vec<u8> = vec![0u8; chunk_blocks as usize * BLOCK_SIZE];
        let ghost base = first_block + boot.fat_start;
        let ghost batch = chunk_blocks as int;
        let ghost all_reads = blockdev::reads(base, blocks_needed as int, batch);
        let mut block: u64 = 0;
        while block < blocks_needed
            invariant
                boot.wf(),
                first_block + boot.total_sectors <= u64::MAX,
                base == first_block + boot.fat_start,
                entry_count == boot.cluster_count + FIRST_CLUSTER,
                blocks_needed == table_blocks(*boot),
                1 <= chunk_blocks <= LOAD_CHUNK_BLOCKS,
                chunk_blocks == batch == load_batch(device.limit()),
                device.limit() == old(device).limit(),
                device.history().len() >= old(device).history().len(),
                0 <= block <= blocks_needed,
                block < blocks_needed ==> buffer@.len() == 512 * batch,
                device.contents() == disk,
                disk == old(device).contents(),
                device.capacity() == old(device).capacity(),
                entries@.len() == (if 128 * block < entry_count {
                    128 * block
                } else {
                    entry_count as int
                }),
                forall|i: int|
                    0 <= i < entries@.len() ==> #[trigger] entries@[i] == bytes::u32_at(
                        disk,
                        512 * base + 4 * i,
                    ),
                all_reads == blockdev::reads(base, blocks_needed as int, batch),
                block < blocks_needed ==> old(device).history() + all_reads == device.history()
                    + blockdev::reads(base + block, blocks_needed - block, batch),
                block == blocks_needed ==> device.history() == old(device).history() + all_reads,
            decreases blocks_needed - block,
        {
            let left: u64 = blocks_needed - block;
            let blocks: u64 = if chunk_blocks < left {
                chunk_blocks
            } else {
                left
            };
            buffer.truncate(blocks as usize * BLOCK_SIZE);
            let ghost before = device.history();
            match device.read(
                first_block + boot.fat_start as u64 + block,
                buffer.as_mut_slice(),
            ) {
                Ok(()) => {},
                Err(error) => {
                    proof {
                        let rest = blockdev::reads(base + block, left as int, batch);
                        let access = blockdev::Access::Read {
                            start: base + block,
                            blocks: blocks as int,
                        };
                        assert(rest.len() > 0 && rest[0] == access);
                        calls::lemma_step(
                            before,
                            rest,
                            device.history(),
                            old(device).history() + all_reads,
                        );
                    }
                    return Err(Error::device(error));
                },
            }
            push_words(buffer.as_slice(), entry_count, &mut entries);
            proof {
                lemma_pushed(disk, base, block as int, blocks as int, buffer@);
            }
            proof {
                lemma_read_on(before, base + block, left as int, batch);
            }
            block += blocks;
        }
        proof {
            calls::lemma_all(device.history());
        }
        let mut free_count: u32 = 0;
        let mut cluster: u32 = FIRST_CLUSTER;
        while cluster < entry_count
            invariant
                FIRST_CLUSTER <= cluster <= entry_count,
                entries@.len() == entry_count,
                free_count <= cluster - FIRST_CLUSTER,
                free_count == table::free_below(entries@, cluster as int),
            decreases entry_count - cluster,
        {
            if entries[cluster as usize] % ENTRY_LIMIT == 0 {
                free_count += 1;
            }
            cluster += 1;
        }
        let dirty: Vec<bool> = match try_filled(false, boot.sectors_per_fat as u64) {
            Ok(dirty) => dirty,
            Err(error) => {
                return Err(error);
            },
        };
        let fat = Fat {
            entries,
            cluster_count: boot.cluster_count,
            dirty,
            next_free: FIRST_CLUSTER,
            free_count,
            sectors_per_fat: boot.sectors_per_fat,
            fat_count: boot.fat_count,
            fat_start: boot.fat_start,
        };
        proof {
            let expected = stored_table(disk, first_block as int, *boot);
            assert(fat@.entries =~= expected.entries);
            assert(fat@.dirty =~= expected.dirty);
        }
        Ok(fat)
    }

    /// How many data clusters the volume has.
    pub fn cluster_count(&self) -> (count: u32)
        ensures
            count == self@.cluster_count,
    {
        self.cluster_count
    }

    /// Whether the volume has a cluster of this number.
    pub fn is_valid_cluster(&self, cluster: u32) -> (valid: bool)
        requires
            self.wf(),
        ensures
            valid == self@.valid(cluster as int),
    {
        cluster >= FIRST_CLUSTER && cluster < FIRST_CLUSTER + self.cluster_count
    }

    /// The entry of `cluster`, without its reserved bits.
    pub fn entry(&self, cluster: u32) -> (result: Result<u32, FatError>)
        requires
            self.wf(),
        ensures
            result == (if self@.valid(cluster as int) {
                Ok(self@.value(cluster as int))
            } else {
                Err(FatError::BadCluster { cluster })
            }),
    {
        if !self.is_valid_cluster(cluster) {
            return Err(FatError::BadCluster { cluster });
        }
        Ok(self.entries[cluster as usize] % ENTRY_LIMIT)
    }

    /// Changes one entry, keeping its reserved bits and the count of free
    /// clusters.
    pub(crate) fn set_entry(&mut self, cluster: u32, value: u32) -> (result: Result<(), FatError>)
        requires
            old(self).wf(),
        ensures
            final(self).wf(),
            old(self)@.valid(cluster as int) ==> result is Ok && final(self)@ == old(self)@.set(
                cluster as int,
                value,
            ),
            !old(self)@.valid(cluster as int) ==> result == Err::<(), FatError>(
                FatError::BadCluster { cluster },
            ) && final(self)@ == old(self)@,
    {
        if !self.is_valid_cluster(cluster) {
            return Err(FatError::BadCluster { cluster });
        }
        proof {
            table::lemma_set(self@, cluster as int, value);
            table::lemma_free_below_bound(self@.entries, self@.end());
            table::lemma_free_below_bound(
                self@.set(cluster as int, value).entries,
                self@.end(),
            );
        }
        let at: usize = cluster as usize;
        let entry: u32 = self.entries[at];
        let was_free: bool = entry % ENTRY_LIMIT == 0;
        let now_free: bool = value % ENTRY_LIMIT == 0;
        let ghost before = self@;
        self.entries[at] = entry - entry % ENTRY_LIMIT + value % ENTRY_LIMIT;
        self.mark_dirty(cluster);
        if was_free && !now_free {
            self.free_count -= 1;
        } else if !was_free && now_free {
            self.free_count += 1;
        }
        assert(self@ =~= before.set(cluster as int, value));
        Ok(())
    }

    /// What follows `cluster` in its chain: `None` at the end.
    pub fn next(&self, cluster: u32) -> (result: Result<Option<u32>, FatError>)
        requires
            self.wf(),
        ensures
            result == self@.next(cluster),
    {
        let entry: u32 = match self.entry(cluster) {
            Ok(entry) => entry,
            Err(error) => {
                return Err(error);
            },
        };
        if entry >= END_OF_CHAIN {
            return Ok(None);
        }
        if entry == BAD_CLUSTER || !self.is_valid_cluster(entry) {
            return Err(FatError::BadCluster { cluster: entry });
        }
        Ok(Some(entry))
    }

    /// The chain that starts at `start`, as stretches of consecutive
    /// clusters.
    pub fn runs(&self, start: u32) -> (result: Result<Vec<Run>, FatError>)
        requires
            self.wf(),
        ensures
            match result {
                Ok(runs) => {
                    &&& self@.chain(start) is Ok
                    &&& runs@ == table::coalesce(self@.chain(start)->Ok_0)
                    &&& table::tiles(runs@, self@.chain(start)->Ok_0)
                    &&& runs@.len() > 0
                },
                Err(error) => self@.chain(start) == Err::<Seq<u32>, FatError>(error),
            },
    {
        let mut runs: Vec<Run> = Vec::new();
        let mut cluster: u32 = start;
        let mut index: u32 = 0;
        let ghost mut seen: Seq<u32> = Seq::empty();
        loop
            invariant
                self.wf(),
                index == seen.len(),
                index <= self@.cluster_count + 1,
                runs@ == table::coalesce(seen),
                table::tiles(runs@, seen),
                forall|i: int| 0 <= i < seen.len() ==> self@.valid(#[trigger] seen[i] as int),
                self@.chain(start) == (match self@.walk(start, cluster, index as int) {
                    Ok(rest) => Ok(seen + rest),
                    Err(error) => Err(error),
                }),
            decreases self@.cluster_count + 2 - index,
        {
            if !self.is_valid_cluster(cluster) {
                return Err(FatError::BadCluster { cluster });
            }
            if index > self.cluster_count {
                return Err(FatError::ChainLoop { start });
            }
            proof {
                if runs@.len() > 0 {
                    let last = runs@.last();
                    table::lemma_tiles_bound(runs@, seen, runs@.len() - 1);
                    assert(seen[last.file_cluster + (last.clusters - 1)] == table::run_cluster(
                        last,
                        last.clusters - 1,
                    ));
                }
                assert(seen.push(cluster).drop_last() =~= seen);
            }
            let count: usize = runs.len();
            if count > 0 && runs[count - 1].start_cluster + runs[count - 1].clusters == cluster {
                let last: Run = runs[count - 1];
                runs.set(count - 1, Run { clusters: last.clusters + 1, ..last });
            } else {
                runs.push(Run { file_cluster: index, start_cluster: cluster, clusters: 1 });
            }
            proof {
                seen = seen.push(cluster);
                assert(runs@ =~= table::coalesce(seen));
                table::lemma_coalesce_tiles(seen);
            }
            index += 1;
            let entry: u32 = self.entries[cluster as usize] % ENTRY_LIMIT;
            if entry >= END_OF_CHAIN {
                assert(seen.drop_last() + seq![cluster] =~= seen);
                return Ok(runs);
            }
            if entry == 0 {
                return Err(FatError::FreeClusterInChain { start, cluster });
            }
            if entry == BAD_CLUSTER || !self.is_valid_cluster(entry) {
                return Err(FatError::BadCluster { cluster: entry });
            }
            proof {
                if self@.walk(start, entry, index as int) is Ok {
                    let rest = self@.walk(start, entry, index as int)->Ok_0;
                    assert(seen.drop_last() + (seq![cluster] + rest) =~= seen + rest);
                }
            }
            cluster = entry;
        }
    }

    /// How many clusters the chain that starts at `start` has.
    pub fn chain_length(&self, start: u32) -> (result: Result<u32, FatError>)
        requires
            self.wf(),
        ensures
            result == (match self@.chain(start) {
                Ok(clusters) => Ok(clusters.len() as u32),
                Err(error) => Err(error),
            }),
    {
        let runs: Vec<Run> = match self.runs(start) {
            Ok(runs) => runs,
            Err(error) => {
                return Err(error);
            },
        };
        proof {
            table::lemma_chain(self@, start);
            table::lemma_tiles_bound(runs@, self@.chain(start)->Ok_0, runs@.len() - 1);
        }
        let last: Run = runs[runs.len() - 1];
        Ok(last.file_cluster + last.clusters)
    }

    /// How many clusters are free.
    pub fn free_clusters(&self) -> (count: u32)
        requires
            self.wf(),
        ensures
            count == self@.free_count(),
    {
        self.free_count
    }

    /// Marks the sector that holds a cluster's entry as changed.
    fn mark_dirty(&mut self, cluster: u32)
        requires
            cluster / ENTRIES_PER_SECTOR < old(self)@.dirty.len(),
            old(self)@.dirty.len() == old(self)@.sectors_per_fat,
        ensures
            final(self)@ == (Table {
                dirty: old(self)@.dirty.update((cluster / ENTRIES_PER_SECTOR) as int, true),
                ..old(self)@
            }),
            final(self).free_count == old(self).free_count,
    {
        let sector: u32 = cluster / ENTRIES_PER_SECTOR;
        self.dirty[sector as usize] = true;
    }

    /// Whether some change has not reached the device.
    pub fn has_unsynced_changes(&self) -> (changes: bool)
        ensures
            changes == self@.has_changes(),
    {
        let mut sector: usize = 0;
        while sector < self.dirty.len()
            invariant
                sector <= self.dirty@.len(),
                forall|s: int| 0 <= s < sector ==> !self.dirty@[s],
            decreases self.dirty@.len() - sector,
        {
            if self.dirty[sector] {
                assert(self@.dirty[sector as int]);
                return true;
            }
            sector += 1;
        }
        false
    }

    /// Where the next search for free space starts.
    pub(crate) fn next_free_hint(&self) -> (cluster: u32)
        ensures
            cluster == self@.next_free,
    {
        self.next_free
    }

    /// Forgets that anything awaits writing.
    pub(crate) fn clear_dirty(&mut self)
        requires
            old(self).wf(),
        ensures
            final(self).wf(),
            final(self)@ == old(self)@.flushed(),
    {
        let ghost before = self@;
        let mut sector: usize = 0;
        while sector < self.dirty.len()
            invariant
                sector <= self.dirty@.len(),
                before == old(self)@,
                old(self).wf(),
                self@ == (Table { dirty: self.dirty@, ..before }),
                self.free_count == old(self).free_count,
                self.dirty@.len() == before.dirty.len(),
                forall|s: int| 0 <= s < sector ==> !self.dirty@[s],
            decreases self.dirty@.len() - sector,
        {
            self.dirty[sector] = false;
            sector += 1;
        }
        assert(self@.dirty =~= before.flushed().dirty);
    }

    /// The first sector of each copy of the table.
    pub(crate) fn copy_starts(&self) -> (starts: Vec<u32>)
        requires
            self.wf(),
        ensures
            starts@ == Seq::new(
                self@.fat_count as nat,
                |copy: int| (self@.fat_start + copy * self@.sectors_per_fat) as u32,
            ),
    {
        let mut starts: Vec<u32> = Vec::new();
        let mut copy: u8 = 0;
        while copy < self.fat_count
            invariant
                self.wf(),
                copy <= self.fat_count,
                starts@ == Seq::new(
                    copy as nat,
                    |copy: int| (self@.fat_start + copy * self@.sectors_per_fat) as u32,
                ),
            decreases self.fat_count - copy,
        {
            assert(0 <= copy * self.sectors_per_fat <= self.fat_count * self.sectors_per_fat)
                by (nonlinear_arith)
                requires
                    copy <= self.fat_count,
            ;
            starts.push(self.fat_start + copy as u32 * self.sectors_per_fat);
            copy += 1;
            assert(starts@ =~= Seq::new(
                copy as nat,
                |copy: int| (self@.fat_start + copy * self@.sectors_per_fat) as u32,
            ));
        }
        starts
    }

    /// The stretches of sectors that await writing, as starts and lengths.
    pub(crate) fn dirty_runs(&self) -> (runs: Vec<(u32, u32)>)
        requires
            self.wf(),
        ensures
            runs@ == table::dirty_stretches(self@.dirty, self@.dirty.len() as int),
            forall|r: int|
                0 <= r < runs@.len() ==> {
                    &&& (#[trigger] runs@[r]).1 > 0
                    &&& runs@[r].0 + runs@[r].1 <= self@.sectors_per_fat
                    &&& ENTRIES_PER_SECTOR * (runs@[r].0 + runs@[r].1 - 1) < self@.end()
                },
    {
        let mut runs: Vec<(u32, u32)> = Vec::new();
        let mut sector: u32 = 0;
        while sector < self.sectors_per_fat
            invariant
                self.wf(),
                sector <= self.sectors_per_fat,
                runs@ == table::dirty_stretches(self@.dirty, sector as int),
                forall|r: int|
                    0 <= r < runs@.len() ==> {
                        &&& (#[trigger] runs@[r]).1 > 0
                        &&& runs@[r].0 + runs@[r].1 <= sector
                        &&& ENTRIES_PER_SECTOR * (runs@[r].0 + runs@[r].1 - 1) < self@.end()
                    },
            decreases self.sectors_per_fat - sector,
        {
            if self.dirty[sector as usize] {
                assert(self@.dirty[sector as int]);
                let count: usize = runs.len();
                if count > 0 && runs[count - 1].0 + runs[count - 1].1 == sector {
                    let last: (u32, u32) = runs[count - 1];
                    runs.set(count - 1, (last.0, last.1 + 1));
                } else {
                    runs.push((sector, 1));
                }
                assert(runs@ =~= table::dirty_stretches(self@.dirty, sector + 1));
            }
            sector += 1;
        }
        runs
    }

    /// The bytes of `count` sectors of the table, from `sector` on.
    pub(crate) fn sector_bytes(&self, sector: u32, count: u32) -> (out: Vec<u8>)
        requires
            self.wf(),
            count > 0,
            ENTRIES_PER_SECTOR * (sector + count - 1) < self@.end(),
        ensures
            out@ == Seq::new(
                (512 * count) as nat,
                |i: int| table::table_byte(self@.entries, 512 * sector + i),
            ),
    {
        let words: u32 = count * ENTRIES_PER_SECTOR;
        let first: u32 = sector * ENTRIES_PER_SECTOR;
        let mut out: Vec<u8> = vec![0u8; words as usize * 4];
        let mut n: u32 = 0;
        while n < words
            invariant
                self.wf(),
                words == 128 * count,
                first == 128 * sector,
                n <= words,
                first + words <= 0x2000_0000,
                out@.len() == 4 * words,
                forall|i: int|
                    0 <= i < 4 * n ==> out@[i] == table::table_byte(
                        self@.entries,
                        512 * sector + i,
                    ),
            decreases words - n,
        {
            let at: usize = (first + n) as usize;
            let entry: u32 = if at < self.entries.len() {
                self.entries[at]
            } else {
                0
            };
            let ghost before = out@;
            write_u32(out.as_mut_slice(), 4 * n as usize, entry);
            assert forall|i: int| 0 <= i < 4 * (n + 1) implies out@[i] == table::table_byte(
                self@.entries,
                512 * sector + i,
            ) by {
                if i >= 4 * n {
                    assert((512 * sector + i) / 4 == first + n);
                    assert((512 * sector + i) % 4 == i - 4 * n);
                    assert(bytes::u32_bytes(0u32)[i - 4 * n] == 0);
                }
            }
            n += 1;
        }
        assert(out@ =~= Seq::new(
            (512 * count) as nat,
            |i: int| table::table_byte(self@.entries, 512 * sector + i),
        ));
        out
    }

    /// The first place between `from` and `to` with `count` free clusters in
    /// a row.
    fn fit_between(&self, count: u32, from: u32, to: u32) -> (found: Option<u32>)
        requires
            self.wf(),
            count > 0,
            FIRST_CLUSTER <= from,
            to <= self@.end(),
        ensures
            match found {
                Some(at) => self@.first_fit(count as int, from as int, to as int) == Some(
                    at as int,
                ),
                None => self@.first_fit(count as int, from as int, to as int) is None,
            },
    {
        proof {
            table::lemma_first_fit(self@, count as int, from as int, to as int);
        }
        let mut run_len: u32 = 0;
        let mut cluster: u32 = from;
        while cluster < to
            invariant
                self.wf(),
                count > 0,
                FIRST_CLUSTER <= from,
                to <= self@.end(),
                from <= cluster,
                cluster <= to || cluster == from,
                run_len < count,
                run_len <= cluster - from,
                forall|c: int| cluster - run_len <= c < cluster ==> #[trigger] self@.is_free(c),
                forall|c: int|
                    from <= c < cluster - run_len ==> !#[trigger] self@.all_free(c, count as int),
                self@.first_fit(count as int, from as int, to as int) matches Some(at) ==> {
                    &&& from <= at
                    &&& at + count <= to
                    &&& self@.all_free(at, count as int)
                    &&& forall|c: int| from <= c < at ==> !#[trigger] self@.all_free(
                        c,
                        count as int,
                    )
                },
                self@.first_fit(count as int, from as int, to as int) is None ==> forall|c: int|
                    from <= c && c + count <= to ==> !#[trigger] self@.all_free(c, count as int),
            decreases to - cluster,
        {
            if self.entries[cluster as usize] % ENTRY_LIMIT == 0 {
                assert(self@.is_free(cluster as int));
                run_len += 1;
                if run_len == count {
                    let at: u32 = cluster + 1 - run_len;
                    assert(self@.all_free(at as int, count as int));
                    return Some(at);
                }
            } else {
                assert(!self@.is_free(cluster as int));
                assert forall|c: int| from <= c < cluster + 1 implies !#[trigger] self@.all_free(
                    c,
                    count as int,
                ) by {
                    if c >= cluster - run_len && self@.all_free(c, count as int) {
                        assert(self@.is_free(cluster as int));
                    }
                }
                run_len = 0;
            }
            cluster += 1;
        }
        assert forall|c: int| from <= c && c + count <= to implies !#[trigger] self@.all_free(
            c,
            count as int,
        ) by {
            assert(c < cluster - run_len);
        }
        None
    }

    /// Where `count` free clusters in a row are, searching on from where the
    /// last allocation ended.
    fn find_contiguous(&self, count: u32) -> (found: Option<u32>)
        requires
            self.wf(),
            count > 0,
        ensures
            match found {
                Some(at) => self@.contiguous(count as int) == Some(at as int),
                None => self@.contiguous(count as int) is None,
            },
    {
        let end: u32 = FIRST_CLUSTER + self.cluster_count;
        match self.fit_between(count, self.next_free, end) {
            Some(at) => Some(at),
            None => {
                let wrapped: u32 = if count - 1 <= end - self.next_free {
                    self.next_free + (count - 1)
                } else {
                    end
                };
                self.fit_between(count, FIRST_CLUSTER, wrapped)
            },
        }
    }

    /// The first `count` free clusters, searching on from where the last
    /// allocation ended.
    fn find_scattered(&self, count: u32) -> (result: Result<Vec<Run>, FatError>)
        requires
            self.wf(),
            count > 0,
        ensures
            self@.free_count() >= count ==> result is Ok && result->Ok_0@ == table::coalesce(
                self@.free_in_order().take(count as int),
            ),
            self@.free_count() < count ==> result == Err::<Vec<Run>, FatError>(
                FatError::DiskFull { wanted: count, free: self@.free_count() as u32 },
            ),
    {
        let end: u32 = FIRST_CLUSTER + self.cluster_count;
        let mut runs: Vec<Run> = Vec::new();
        let mut taken: u32 = 0;
        let ghost order = self@.free_in_order();
        let ghost first = self@.free_between(self@.next_free as int, self@.end());
        proof {
            table::lemma_free_in_order(self@);
            table::lemma_free_below_bound(self@.entries, self@.end());
            assert(order.take(0) =~= Seq::<u32>::empty());
        }
        let mut lap: u8 = 0;
        while lap < 2
            invariant
                self.wf(),
                count > 0,
                lap <= 2,
                end == self@.end(),
                order == self@.free_in_order(),
                first == self@.free_between(self@.next_free as int, self@.end()),
                order.len() == self@.free_count(),
                order.len() <= self@.cluster_count,
                forall|i: int| 0 <= i < order.len() ==> self@.is_free(#[trigger] order[i] as int),
                taken < count,
                taken <= order.len(),
                runs@ == table::coalesce(order.take(taken as int)),
                lap == 0 ==> taken == 0,
                lap == 1 ==> taken == first.len(),
                lap == 2 ==> taken == order.len(),
            decreases 2 - lap,
        {
            let from: u32 = if lap == 0 {
                self.next_free
            } else {
                FIRST_CLUSTER
            };
            let to: u32 = if lap == 0 {
                end
            } else {
                self.next_free
            };
            let ghost start = taken as int;
            let ghost whole = self@.free_between(from as int, to as int);
            proof {
                table::lemma_free_between(self@, from as int, to as int);
            }
            let mut cluster: u32 = from;
            while cluster < to
                invariant
                    self.wf(),
                    count > 0,
                    FIRST_CLUSTER <= from <= cluster <= to <= self@.end(),
                    order == self@.free_in_order(),
                    order.len() == self@.free_count(),
                    order.len() <= self@.cluster_count,
                    forall|i: int|
                        0 <= i < order.len() ==> self@.is_free(#[trigger] order[i] as int),
                    0 <= start,
                    whole == self@.free_between(from as int, to as int),
                    start + whole.len() <= order.len(),
                    forall|i: int| 0 <= i < whole.len() ==> order[start + i] == whole[i],
                    taken < count,
                    taken == start + self@.free_between(from as int, cluster as int).len(),
                    taken <= order.len(),
                    runs@ == table::coalesce(order.take(taken as int)),
                decreases to - cluster,
            {
                if self.entries[cluster as usize] % ENTRY_LIMIT == 0 {
                    proof {
                        assert(self@.is_free(cluster as int));
                        table::lemma_free_between_prefix(
                            self@,
                            from as int,
                            cluster + 1,
                            to as int,
                        );
                        let part = self@.free_between(from as int, cluster + 1);
                        assert(part.last() == cluster);
                        assert(whole.take(part.len() as int)[part.len() - 1] == cluster);
                        assert(order[taken as int] == cluster);
                        assert(order.take(taken + 1).drop_last() =~= order.take(taken as int));
                        table::lemma_coalesce_tiles(order.take(taken as int));
                        if runs@.len() > 0 {
                            let last = runs@.last();
                            table::lemma_tiles_bound(
                                runs@,
                                order.take(taken as int),
                                runs@.len() - 1,
                            );
                            assert(order.take(taken as int)[last.file_cluster + (last.clusters - 1)]
                                == table::run_cluster(last, last.clusters - 1));
                            assert(self@.is_free(
                                order[last.file_cluster + (last.clusters - 1)] as int,
                            ));
                        }
                    }
                    let held: usize = runs.len();
                    if held > 0 && runs[held - 1].start_cluster + runs[held - 1].clusters
                        == cluster {
                        let last: Run = runs[held - 1];
                        runs.set(held - 1, Run { clusters: last.clusters + 1, ..last });
                    } else {
                        runs.push(
                            Run { file_cluster: taken, start_cluster: cluster, clusters: 1 },
                        );
                    }
                    assert(runs@ =~= table::coalesce(order.take(taken + 1)));
                    taken += 1;
                    if taken == count {
                        return Ok(runs);
                    }
                }
                cluster += 1;
            }
            lap += 1;
        }
        Err(FatError::DiskFull { wanted: count, free: taken })
    }

    /// Takes `count` free clusters and links them into a chain.
    pub(crate) fn allocate(&mut self, count: u32) -> (result: Result<Vec<Run>, FatError>)
        requires
            old(self).wf(),
        ensures
            final(self).wf(),
            final(self)@ == old(self)@.allocated(count).0,
            match result {
                Ok(runs) => {
                    &&& old(self)@.allocated(count).1 is Ok
                    &&& runs@ == table::coalesce(old(self)@.allocated(count).1->Ok_0)
                    &&& table::tiles(runs@, old(self)@.allocated(count).1->Ok_0)
                },
                Err(error) => old(self)@.allocated(count).1 == Err::<Seq<u32>, FatError>(error),
            },
    {
        if count == 0 {
            assert(table::coalesce(Seq::<u32>::empty()) =~= Seq::empty());
            return Ok(Vec::new());
        }
        if self.free_count < count {
            return Err(FatError::DiskFull { wanted: count, free: self.free_count });
        }
        let ghost before = self@;
        let ghost picked = before.picked(count as int);
        proof {
            table::lemma_picked(before, count as int);
            table::lemma_free_below_bound(before.entries, before.end());
        }
        let runs: Vec<Run> = match self.find_contiguous(count) {
            Some(start) => {
                proof {
                    table::lemma_first_fit(
                        before,
                        count as int,
                        before.next_free as int,
                        before.end(),
                    );
                    table::lemma_first_fit(
                        before,
                        count as int,
                        FIRST_CLUSTER as int,
                        before.wrapped_end(count as int),
                    );
                    lemma_one_run(start, count as int);
                }
                let mut runs: Vec<Run> = Vec::new();
                runs.push(Run { file_cluster: 0, start_cluster: start, clusters: count });
                assert(runs@ =~= table::coalesce(picked));
                runs
            },
            None => {
                match self.find_scattered(count) {
                    Ok(runs) => runs,
                    Err(error) => {
                        return Err(error);
                    },
                }
            },
        };
        proof {
            table::lemma_coalesce_tiles(picked);
            assert(before.linked(picked.take(0)) =~= before);
        }
        let mut previous: u32 = 0;
        let mut r: usize = 0;
        while r < runs.len()
            invariant
                self.wf(),
                before.wf(),
                count > 0,
                r <= runs@.len(),
                runs@.len() > 0,
                table::tiles(runs@, picked),
                picked == before.picked(count as int),
                picked.len() == count,
                picked.no_duplicates(),
                forall|i: int| 0 <= i < count ==> before.is_free(#[trigger] picked[i] as int),
                self@ == before.linked(
                    picked.take(table::run_end(runs@, r - 1, count as int)),
                ) || (r == 0 && self@ == before.linked(picked.take(0))),
                r > 0 ==> previous == picked[table::run_end(runs@, r - 1, count as int) - 1],
            decreases runs@.len() - r,
        {
            let run: Run = runs[r];
            proof {
                table::lemma_tiles_bound(runs@, picked, r as int);
                if r > 0 {
                    assert(runs@[r - 1].clusters > 0);
                }
            }
            let ghost at = run.file_cluster as int;
            let mut j: u32 = 0;
            while j < run.clusters
                invariant
                    self.wf(),
                    before.wf(),
                    j <= run.clusters,
                    run.clusters > 0,
                    0 <= at,
                    at == run.file_cluster,
                    at + run.clusters <= count,
                    picked.len() == count,
                    picked.no_duplicates(),
                    forall|i: int| 0 <= i < count ==> before.is_free(#[trigger] picked[i] as int),
                    forall|k: int|
                        0 <= k < run.clusters ==> picked[at + k] == #[trigger] table::run_cluster(
                            run,
                            k,
                        ),
                    self@ == before.linked(picked.take(at + j)),
                    at + j > 0 ==> previous == picked[at + j - 1],
                decreases run.clusters - j,
            {
                proof {
                    assert(picked[at + j] == table::run_cluster(run, j as int));
                    assert(before.is_free(picked[at + j] as int));
                    assert(picked.take(at + j).push(picked[at + j]) =~= picked.take(at + j + 1));
                    table::lemma_linked_push(before, picked.take(at + j), picked[at + j]);
                    if at + j > 0 {
                        assert(picked.take(at + j).last() == previous);
                        assert(before.is_free(picked[at + j - 1] as int));
                    } else {
                        assert(picked.take(0) =~= Seq::<u32>::empty());
                        assert(before.linked(picked.take(0)) =~= before);
                    }
                }
                let cluster: u32 = run.start_cluster + j;
                let _ = self.set_entry(cluster, END_OF_CHAIN_MARK);
                if run.file_cluster + j > 0 {
                    let _ = self.set_entry(previous, cluster);
                }
                previous = cluster;
                j += 1;
            }
            r += 1;
        }
        proof {
            assert(picked.take(count as int) =~= picked);
            assert(before.is_free(picked[count - 1] as int));
        }
        let end: u32 = FIRST_CLUSTER + self.cluster_count;
        self.next_free = if previous + 1 < end {
            previous + 1
        } else {
            FIRST_CLUSTER
        };
        Ok(runs)
    }
}

impl Fat {
    /// Lengthens the chain that ends at `last_cluster` by `count` clusters.
    pub(crate) fn append(&mut self, last_cluster: u32, count: u32) -> (result: Result<
        Vec<Run>,
        FatError,
    >)
        requires
            old(self).wf(),
        ensures
            final(self).wf(),
            final(self)@ == old(self)@.appended(last_cluster, count).0,
            match result {
                Ok(runs) => {
                    &&& old(self)@.appended(last_cluster, count).1 is Ok
                    &&& runs@ == table::coalesce(old(self)@.appended(last_cluster, count).1->Ok_0)
                },
                Err(error) => old(self)@.appended(last_cluster, count).1 == Err::<
                    Seq<u32>,
                    FatError,
                >(error),
            },
    {
        let ghost before = self@;
        let runs: Vec<Run> = match self.allocate(count) {
            Ok(runs) => runs,
            Err(error) => {
                return Err(error);
            },
        };
        let ghost taken = before.allocated(count).1->Ok_0;
        if runs.len() > 0 {
            proof {
                table::lemma_free_below_bound(before.entries, before.end());
                table::lemma_picked(before, count as int);
                assert(runs@[0].clusters > 0);
                assert(taken[runs@[0].file_cluster + 0] == table::run_cluster(runs@[0], 0));
            }
            if let Err(error) = self.set_entry(last_cluster, runs[0].start_cluster) {
                self.clear_runs(&runs, Ghost(taken));
                return Err(error);
            }
        }
        Ok(runs)
    }

    /// Marks every cluster of `runs` free.
    fn clear_runs(&mut self, runs: &Vec<Run>, Ghost(clusters): Ghost<Seq<u32>>)
        requires
            old(self).wf(),
            table::tiles(runs@, clusters),
            clusters.no_duplicates(),
            forall|i: int| 0 <= i < clusters.len() ==> old(self)@.valid(
                #[trigger] clusters[i] as int,
            ),
        ensures
            final(self).wf(),
            final(self)@ == old(self)@.cleared(clusters),
    {
        let ghost before = self@;
        assert(before.cleared(clusters.take(0)) =~= before);
        let mut r: usize = 0;
        while r < runs.len()
            invariant
                self.wf(),
                before.wf(),
                r <= runs@.len(),
                table::tiles(runs@, clusters),
                clusters.no_duplicates(),
                forall|i: int| 0 <= i < clusters.len() ==> before.valid(
                    #[trigger] clusters[i] as int,
                ),
                self@ == before.cleared(clusters.take(done_before(runs@, r as int, clusters.len() as int))),
            decreases runs@.len() - r,
        {
            let run: Run = runs[r];
            proof {
                table::lemma_tiles_bound(runs@, clusters, r as int);
                lemma_done_before(runs@, clusters, r as int);
            }
            let ghost at = run.file_cluster as int;
            let mut j: u32 = 0;
            while j < run.clusters
                invariant
                    self.wf(),
                    before.wf(),
                    j <= run.clusters,
                    0 <= at,
                    at == run.file_cluster,
                    at + run.clusters <= clusters.len(),
                    clusters.no_duplicates(),
                    forall|i: int| 0 <= i < clusters.len() ==> before.valid(
                        #[trigger] clusters[i] as int,
                    ),
                    forall|k: int|
                        0 <= k < run.clusters ==> clusters[at + k] == #[trigger] table::run_cluster(
                            run,
                            k,
                        ),
                    self@ == before.cleared(clusters.take(at + j)),
                decreases run.clusters - j,
            {
                proof {
                    assert(clusters[at + j] == table::run_cluster(run, j as int));
                    assert(before.valid(clusters[at + j] as int));
                    assert(clusters.take(at + j).push(clusters[at + j]) =~= clusters.take(
                        at + j + 1,
                    ));
                    table::lemma_cleared_push(before, clusters.take(at + j), clusters[at + j]);
                }
                let _ = self.set_entry(run.start_cluster + j, 0);
                j += 1;
            }
            r += 1;
        }
        assert(clusters.take(clusters.len() as int) =~= clusters);
    }

    /// Gives a whole chain back, and says how many clusters it had.
    pub(crate) fn free_chain(&mut self, start: u32) -> (result: Result<u32, FatError>)
        requires
            old(self).wf(),
        ensures
            final(self).wf(),
            final(self)@ == old(self)@.freed(start).0,
            result == (match old(self)@.freed(start).1 {
                Ok(clusters) => Ok(clusters.len() as u32),
                Err(error) => Err(error),
            }),
    {
        let runs: Vec<Run> = match self.runs(start) {
            Ok(runs) => runs,
            Err(error) => {
                return Err(error);
            },
        };
        let ghost before = self@;
        let ghost clusters = before.chain(start)->Ok_0;
        proof {
            table::lemma_chain(before, start);
            assert forall|i: int| 0 <= i < clusters.len() implies before.valid(
                #[trigger] clusters[i] as int,
            ) by {}
        }
        self.clear_runs(&runs, Ghost(clusters));
        let ghost cleared = self@;
        let mut lowest: u32 = self.next_free;
        let mut r: usize = 0;
        while r < runs.len()
            invariant
                r <= runs@.len(),
                table::tiles(runs@, clusters),
                before.links(clusters),
                before.wf(),
                FIRST_CLUSTER <= lowest <= before.end(),
                lowest == before.lowered(
                    clusters.take(done_before(runs@, r as int, clusters.len() as int)),
                ),
            decreases runs@.len() - r,
        {
            let run: Run = runs[r];
            proof {
                table::lemma_tiles_bound(runs@, clusters, r as int);
                lemma_done_before(runs@, clusters, r as int);
                lemma_lowered_run(before, clusters, run, run.clusters as int);
                assert(clusters[run.file_cluster + 0] == table::run_cluster(run, 0));
                assert(before.valid(clusters[run.file_cluster as int] as int));
            }
            if run.start_cluster < lowest {
                lowest = run.start_cluster;
            }
            r += 1;
        }
        assert(clusters.take(clusters.len() as int) =~= clusters);
        self.next_free = lowest;
        assert(self@ =~= before.released(clusters));
        proof {
            table::lemma_tiles_bound(runs@, clusters, runs@.len() - 1);
        }
        let last: Run = runs[runs.len() - 1];
        Ok(last.file_cluster + last.clusters)
    }

    /// Keeps the first `keep` clusters of a chain and gives the rest back.
    pub(crate) fn truncate_chain(&mut self, start: u32, keep: u32) -> (result: Result<
        (),
        FatError,
    >)
        requires
            old(self).wf(),
        ensures
            final(self).wf(),
            final(self)@ == old(self)@.shortened(start, keep).0,
            result == old(self)@.shortened(start, keep).1,
    {
        let ghost before = self@;
        if keep == 0 {
            proof {
                if before.chain(start) is Ok {
                    table::lemma_chain(before, start);
                }
            }
            return match self.free_chain(start) {
                Ok(_) => Ok(()),
                Err(error) => Err(error),
            };
        }
        let runs: Vec<Run> = match self.runs(start) {
            Ok(runs) => runs,
            Err(error) => {
                return Err(error);
            },
        };
        let ghost clusters = before.chain(start)->Ok_0;
        proof {
            table::lemma_chain(before, start);
            table::lemma_tiles_bound(runs@, clusters, runs@.len() - 1);
        }
        let total: u32 = runs[runs.len() - 1].file_cluster + runs[runs.len() - 1].clusters;
        if keep >= total {
            return Ok(());
        }
        let last: u32 = cluster_at(&runs, keep - 1, Ghost(clusters));
        let tail: u32 = cluster_at(&runs, keep, Ghost(clusters));
        proof {
            assert(before.valid(clusters[keep - 1] as int));
            lemma_cut(before, clusters, keep as int);
        }
        let _ = self.set_entry(last, END_OF_CHAIN_MARK);
        let freed = self.free_chain(tail);
        Ok(())
    }
}

/// How many clusters the first `r` runs cover.
pub open spec fn done_before(runs: Seq<Run>, r: int, len: int) -> int {
    if r < runs.len() {
        runs[r].file_cluster as int
    } else {
        len
    }
}

/// The runs up to one end where that one does.
pub proof fn lemma_done_before(runs: Seq<Run>, clusters: Seq<u32>, r: int)
    requires
        table::tiles(runs, clusters),
        0 <= r < runs.len(),
    ensures
        done_before(runs, r + 1, clusters.len() as int) == runs[r].file_cluster + runs[r].clusters,
{
    assert(runs[r].clusters > 0);
}

/// A run lowers the search position to its first cluster at most.
proof fn lemma_lowered_run(before: Table, clusters: Seq<u32>, run: Run, n: int)
    requires
        0 < n <= run.clusters,
        run.file_cluster + run.clusters <= clusters.len(),
        forall|k: int|
            0 <= k < run.clusters ==> clusters[run.file_cluster + k] == #[trigger] table::run_cluster(
                run,
                k,
            ),
    ensures
        before.lowered(clusters.take(run.file_cluster + n)) == ({
            let rest = before.lowered(clusters.take(run.file_cluster as int));
            if run.start_cluster < rest {
                run.start_cluster
            } else {
                rest
            }
        }),
    decreases n,
{
    let longer = clusters.take(run.file_cluster + n);
    assert(longer.drop_last() =~= clusters.take(run.file_cluster + n - 1));
    assert(clusters[run.file_cluster + (n - 1)] == table::run_cluster(run, n - 1));
    if n > 1 {
        lemma_lowered_run(before, clusters, run, n - 1);
    }
}

/// The cluster at position `index` of a chain given as runs.
pub(crate) fn cluster_at(runs: &Vec<Run>, index: u32, Ghost(clusters): Ghost<Seq<u32>>) -> (cluster:
    u32)
    requires
        table::tiles(runs@, clusters),
        index < clusters.len(),
    ensures
        cluster == clusters[index as int],
{
    let mut r: usize = 0;
    while r < runs.len()
        invariant
            r <= runs@.len(),
            table::tiles(runs@, clusters),
            index < clusters.len(),
            done_before(runs@, r as int, clusters.len() as int) <= index,
        decreases runs@.len() - r,
    {
        let run: Run = runs[r];
        proof {
            table::lemma_tiles_bound(runs@, clusters, r as int);
            lemma_done_before(runs@, clusters, r as int);
        }
        if index - run.file_cluster < run.clusters {
            proof {
                let k = index - run.file_cluster;
                assert(clusters[run.file_cluster + k] == table::run_cluster(run, k));
            }
            return run.start_cluster + (index - run.file_cluster);
        }
        r += 1;
    }
    assert(false);
    0
}

/// Ending a chain early leaves the rest of it a chain of its own.
pub proof fn lemma_cut(table: Table, clusters: Seq<u32>, keep: int)
    requires
        table.wf(),
        table.links(clusters),
        0 < keep < clusters.len(),
    ensures
        table.set(clusters[keep - 1] as int, END_OF_CHAIN_MARK).chain(clusters[keep]) == Ok::<
            Seq<u32>,
            FatError,
        >(clusters.skip(keep)),
        table.set(clusters[keep - 1] as int, END_OF_CHAIN_MARK).chain(clusters[0]) == Ok::<
            Seq<u32>,
            FatError,
        >(clusters.take(keep)),
{
    table::lemma_links_distinct(table, clusters);
    assert(table.valid(clusters[keep - 1] as int));
    table::lemma_set(table, clusters[keep - 1] as int, END_OF_CHAIN_MARK);
    let cut = table.set(clusters[keep - 1] as int, END_OF_CHAIN_MARK);
    lemma_cut_links(table, cut, clusters, keep);
    table::lemma_chain_is_links(cut, clusters.skip(keep));
    table::lemma_chain_is_links(cut, clusters.take(keep));
}

/// Both parts of a chain that is cut are linked.
#[verifier::spinoff_prover]
proof fn lemma_cut_links(table: Table, cut: Table, clusters: Seq<u32>, keep: int)
    requires
        table.links(clusters),
        clusters.no_duplicates(),
        0 < keep < clusters.len(),
        cut.cluster_count == table.cluster_count,
        table.entries.len() == table.end(),
        cut.value(clusters[keep - 1] as int) >= END_OF_CHAIN,
        forall|c: int|
            0 <= c < table.entries.len() && c != clusters[keep - 1] ==> #[trigger] cut.value(c)
                == table.value(c),
    ensures
        cut.links(clusters.skip(keep)),
        cut.links(clusters.take(keep)),
{
    let rest = clusters.skip(keep);
    let kept = clusters.take(keep);
    assert forall|i: int| 0 <= i < clusters.len() && i != keep - 1 implies cut.value(
        #[trigger] clusters[i] as int,
    ) == table.value(clusters[i] as int) by {
        assert(table.valid(clusters[i] as int));
        assert(clusters[i] != clusters[keep - 1]);
    }
    assert forall|i: int| 0 <= i < rest.len() implies cut.valid(#[trigger] rest[i] as int) by {
        assert(table.valid(clusters[keep + i] as int));
    }
    assert forall|i: int| 0 <= i < rest.len() - 1 implies cut.value(#[trigger] rest[i] as int)
        == rest[i + 1] by {
        assert(cut.value(clusters[keep + i] as int) == table.value(clusters[keep + i] as int));
    }
    assert(cut.value(clusters[clusters.len() - 1] as int) == table.value(
        clusters[clusters.len() - 1] as int,
    ));
    assert forall|i: int| 0 <= i < kept.len() implies cut.valid(#[trigger] kept[i] as int) by {
        assert(table.valid(clusters[i] as int));
    }
    assert forall|i: int| 0 <= i < kept.len() - 1 implies cut.value(#[trigger] kept[i] as int)
        == kept[i + 1] by {
        assert(cut.value(clusters[i] as int) == table.value(clusters[i] as int));
    }
}

/// Consecutive clusters are one run.
pub proof fn lemma_one_run(start: u32, n: int)
    requires
        0 < n,
        start + n <= u32::MAX,
    ensures
        table::coalesce(Seq::new(n as nat, |i: int| (start + i) as u32)) == seq![
            Run { file_cluster: 0, start_cluster: start, clusters: n as u32 },
        ],
    decreases n,
{
    let clusters = Seq::new(n as nat, |i: int| (start + i) as u32);
    let shorter = Seq::new((n - 1) as nat, |i: int| (start + i) as u32);
    assert(clusters.drop_last() =~= shorter);
    if n > 1 {
        lemma_one_run(start, n - 1);
    } else {
        assert(table::coalesce(shorter) =~= Seq::<Run>::empty());
    }
    assert(table::coalesce(clusters) =~= seq![
        Run { file_cluster: 0, start_cluster: start, clusters: n as u32 },
    ]);
}

} // verus!
