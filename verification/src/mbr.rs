//! Master boot record partition tables.
//!
//! A boot sector and a partition table end with the same signature, so the
//! signature alone tells nothing; what tells them apart is whether the four
//! table slots make sense.
use vstd::prelude::*;

use crate::blockdev;
use crate::blockdev::{BlockDevice, BLOCK_SIZE};
use crate::bytes;
use crate::bytes::read_u32;
use crate::error::Error;

verus! {

/// How many partitions a table has slots for.
pub const MAX_PARTITIONS: usize = 4;

/// One partition.
#[non_exhaustive]
#[derive(Debug, Clone, Copy, PartialEq, Eq, Structural)]
pub struct Partition {
    /// Its slot in the table.
    pub index: usize,
    /// Whether it is marked as the one to boot from.
    pub bootable: bool,
    /// The type byte.
    pub kind: u8,
    /// The device block it starts at.
    pub first_block: u64,
    /// How many blocks it has.
    pub blocks: u64,
}

/// The type bytes that mean some kind of FAT.
pub open spec fn fat_kind(kind: u8) -> bool {
    kind == 0x01 || kind == 0x04 || kind == 0x06 || kind == 0x0B || kind == 0x0C || kind == 0x0E
        || kind == 0x11 || kind == 0x14 || kind == 0x16 || kind == 0x1B || kind == 0x1C || kind
        == 0x1E
}

impl Partition {
    /// Whether the type byte says FAT.
    pub fn is_fat(&self) -> (yes: bool)
        ensures
            yes == fat_kind(self.kind),
    {
        self.kind == 0x01 || self.kind == 0x04 || self.kind == 0x06 || self.kind == 0x0B
            || self.kind == 0x0C || self.kind == 0x0E || self.kind == 0x11 || self.kind == 0x14
            || self.kind == 0x16 || self.kind == 0x1B || self.kind == 0x1C || self.kind == 0x1E
    }

    /// Whether this is the placeholder on a disk with a newer kind of table.
    pub fn is_protective_gpt(&self) -> (yes: bool)
        ensures
            yes == (self.kind == 0xEE),
    {
        self.kind == 0xEE
    }
}

/// A partition table.
#[derive(Debug, Clone, Copy, PartialEq, Eq, Default)]
pub struct PartitionTable {
    entries: [Option<Partition>; MAX_PARTITIONS],
}

impl View for PartitionTable {
    type V = Seq<Option<Partition>>;

    closed spec fn view(&self) -> Seq<Option<Partition>> {
        self.entries@
    }
}

/// Where a table slot starts in its block.
pub open spec fn slot_at(index: int) -> int {
    0x1BE + 16 * index
}

/// Whether a slot's status byte is one of the two there are.
pub open spec fn status_ok(block: Seq<u8>, index: int) -> bool {
    block[slot_at(index)] == 0x00 || block[slot_at(index)] == 0x80
}

/// The partition a slot describes: none, if it has no type, no length, or
/// would start where the table itself is.
pub open spec fn slot_partition(block: Seq<u8>, index: int) -> Option<Partition> {
    let at = slot_at(index);
    let first_block = bytes::u32_at(block, at + 8) as u64;
    let blocks = bytes::u32_at(block, at + 12) as u64;
    if block[at + 4] == 0 || blocks == 0 || first_block == 0 {
        None
    } else {
        Some(
            Partition {
                index: index as usize,
                bootable: block[at] == 0x80,
                kind: block[at + 4],
                first_block,
                blocks,
            },
        )
    }
}

/// Whether a block holds a partition table: a whole block, the signature,
/// four status bytes that are status bytes, and a partition at least.
pub open spec fn is_table(block: Seq<u8>) -> bool {
    &&& block.len() >= 512
    &&& block[0x1FE] == 0x55
    &&& block[0x1FF] == 0xAA
    &&& forall|i: int| 0 <= i < 4 ==> #[trigger] status_ok(block, i)
    &&& exists|i: int| 0 <= i < 4 && #[trigger] slot_partition(block, i) is Some
}

/// The four slots of a table.
pub open spec fn table_of(block: Seq<u8>) -> Seq<Option<Partition>> {
    Seq::new(4, |i: int| slot_partition(block, i))
}

/// The partitions among the first `n` slots, in order.
pub open spec fn used_slots(table: Seq<Option<Partition>>, n: int) -> Seq<Partition>
    decreases n,
{
    if n <= 0 {
        Seq::empty()
    } else {
        match table[n - 1] {
            Some(partition) => used_slots(table, n - 1).push(partition),
            None => used_slots(table, n - 1),
        }
    }
}

/// The first FAT partition from slot `n` on.
pub open spec fn first_fat_from(table: Seq<Option<Partition>>, n: int) -> Option<Partition>
    decreases table.len() - n,
{
    if n >= table.len() {
        None
    } else if table[n] is Some && fat_kind(table[n]->0.kind) {
        table[n]
    } else {
        first_fat_from(table, n + 1)
    }
}

impl PartitionTable {
    /// There are four slots, and a partition knows its own.
    pub closed spec fn wf(&self) -> bool {
        forall|i: int| 0 <= i < 4 ==> match #[trigger] self@[i] {
            Some(partition) => partition.index == i && partition.first_block <= u32::MAX
                && partition.blocks <= u32::MAX,
            None => true,
        }
    }

    /// What holds of every table that was read.
    pub proof fn lemma_wf(&self, index: int)
        requires
            self.wf(),
            0 <= index < 4,
            self@[index] is Some,
        ensures
            self@[index]->0.index == index,
            self@[index]->0.first_block <= u32::MAX,
            self@[index]->0.blocks <= u32::MAX,
    {
    }

    /// Reads the table in the device's first block; `None` where there is
    /// none.
    pub fn read<D: BlockDevice>(device: &mut D) -> (result: crate::error::Result<
        Option<Self>,
        D::Error,
    >)
        ensures
            final(device).limit() == old(device).limit(),
            final(device).history() == old(device).history().push(
                blockdev::Access::Read { start: 0, blocks: 1 },
            ),
            match result {
                Ok(table) => {
                    let block = old(device).contents().subrange(0, 512);
                    &&& old(device).contents().len() >= 512
                    &&& final(device).contents() == old(device).contents()
                    &&& final(device).capacity() == old(device).capacity()
                    &&& table is Some <==> is_table(block)
                    &&& table matches Some(table) ==> table.wf() && table@ == table_of(block)
                },
                Err(error) => error is Device,
            },
    {
        let mut block: [u8; BLOCK_SIZE] = [0u8;BLOCK_SIZE];
        match device.read(0, &mut block) {
            Ok(()) => Ok(PartitionTable::parse(&block)),
            Err(error) => Err(Error::device(error)),
        }
    }

    /// Reads the table in `block`; `None` where there is none.
    pub fn parse(block: &[u8]) -> (table: Option<Self>)
        ensures
            table is Some <==> is_table(block@),
            table matches Some(table) ==> table.wf() && table@ == table_of(block@),
    {
        if block.len() < BLOCK_SIZE {
            return None;
        }
        if block[0x1FE] != 0x55 || block[0x1FF] != 0xAA {
            return None;
        }
        let mut entries: [Option<Partition>; MAX_PARTITIONS] = [None;MAX_PARTITIONS];
        let mut any: bool = false;
        let mut index: usize = 0;
        while index < MAX_PARTITIONS
            invariant
                block@.len() >= 512,
                index <= 4,
                forall|i: int| 0 <= i < index ==> #[trigger] status_ok(block@, i),
                forall|i: int|
                    0 <= i < 4 ==> entries@[i] == (if i < index {
                        slot_partition(block@, i)
                    } else {
                        None
                    }),
                any == exists|i: int|
                    0 <= i < index && #[trigger] slot_partition(block@, i) is Some,
            decreases 4 - index,
        {
            let at: usize = 0x1BE + 16 * index;
            let status: u8 = block[at];
            if status != 0x00 && status != 0x80 {
                assert(!status_ok(block@, index as int));
                return None;
            }
            let kind: u8 = block[at + 4];
            let first_block: u64 = read_u32(block, at + 8) as u64;
            let blocks: u64 = read_u32(block, at + 12) as u64;
            if kind != 0 && blocks != 0 && first_block != 0 {
                any = true;
                entries[index] = Some(
                    Partition { index, bootable: status == 0x80, kind, first_block, blocks },
                );
                assert(slot_partition(block@, index as int) is Some);
            } else {
                assert(slot_partition(block@, index as int) is None);
            }
            index += 1;
        }
        if any {
            let table = PartitionTable { entries };
            assert(table@ =~= table_of(block@));
            Some(table)
        } else {
            None
        }
    }

    /// The partition in slot `index`, if it is in use.
    pub fn get(&self, index: usize) -> (partition: Option<&Partition>)
        ensures
            partition == (if index < 4 {
                match self@[index as int] {
                    Some(partition) => Some(&partition),
                    None => None,
                }
            } else {
                None
            }),
    {
        if index >= MAX_PARTITIONS {
            return None;
        }
        match &self.entries[index] {
            Some(partition) => Some(partition),
            None => None,
        }
    }

    /// The partitions, in slot order.
    pub fn iter(&self) -> (partitions: Vec<&Partition>)
        ensures
            partitions@.len() == used_slots(self@, 4).len(),
            forall|i: int|
                0 <= i < partitions@.len() ==> *#[trigger] partitions@[i] == used_slots(self@, 4)[i],
    {
        let mut partitions: Vec<&Partition> = Vec::new();
        let mut index: usize = 0;
        while index < MAX_PARTITIONS
            invariant
                index <= 4,
                partitions@.len() == used_slots(self@, index as int).len(),
                forall|i: int|
                    0 <= i < partitions@.len() ==> *#[trigger] partitions@[i] == used_slots(
                        self@,
                        index as int,
                    )[i],
            decreases 4 - index,
        {
            if let Some(partition) = &self.entries[index] {
                partitions.push(partition);
            }
            index += 1;
        }
        partitions
    }

    /// How many slots are in use.
    pub fn len(&self) -> (count: usize)
        ensures
            count == used_slots(self@, 4).len(),
    {
        self.iter().len()
    }

    /// Whether no slot is in use.
    pub fn is_empty(&self) -> (empty: bool)
        ensures
            empty == (used_slots(self@, 4).len() == 0),
    {
        self.len() == 0
    }

    /// The first partition whose type byte says FAT.
    pub fn first_fat(&self) -> (partition: Option<&Partition>)
        ensures
            partition == (match first_fat_from(self@, 0) {
                Some(partition) => Some(&partition),
                None => None,
            }),
    {
        let mut index: usize = 0;
        while index < MAX_PARTITIONS
            invariant
                index <= 4,
                first_fat_from(self@, 0) == first_fat_from(self@, index as int),
            decreases 4 - index,
        {
            if let Some(partition) = &self.entries[index] {
                if partition.is_fat() {
                    return Some(partition);
                }
            }
            index += 1;
        }
        None
    }
}

/// A block whose table region is all zero bytes, as a bare volume's boot
/// sector has it, is no partition table, whatever its signature.
pub proof fn lemma_bare_volume_is_no_table(block: Seq<u8>)
    requires
        block.len() >= 512,
        forall|i: int| 0x1BE <= i < 0x1FE ==> block[i] == 0,
    ensures
        !is_table(block),
{
    assert forall|i: int| 0 <= i < 4 implies #[trigger] slot_partition(block, i) is None by {
        assert(block[slot_at(i) + 4] == 0);
    }
}

} // verus!
