//! Which blocks hold a partition table, and what is read of one, byte by byte.
use vstd::prelude::*;

use crate::blockdev::BlockDevice;
use crate::error::{Error, Fault, Result};
use crate::fs::FileSystem;
use crate::geometry;
use crate::geometry::quad;
use crate::mbr;
use crate::mbr::Partition;

verus! {

/// Six type bytes mean some kind of FAT; with 0x10 added, each means the same,
/// hidden. No other does.
pub proof fn lemma_fat_kinds(kind: u8)
    ensures
        mbr::fat_kind(kind) <==> kind < 0x20 && {
            let plain = kind % 16;
            plain == 1 || plain == 4 || plain == 6 || plain == 11 || plain == 12 || plain == 14
        },
{
}

/// A slot of a partition table is in use if it has a type, a start and a
/// length: its status is its first byte, its type the fifth, and its start and
/// its length the last two numbers of its sixteen bytes.
pub proof fn lemma_slot(block: Seq<u8>, i: int)
    requires
        0 <= i < 4,
    ensures
        ({
            let at = 446 + 16 * i;
            mbr::table_of(block)[i] == (if block[at + 4] != 0 && quad(block, at + 8) != 0 && quad(
                block,
                at + 12,
            ) != 0 {
                Some(
                    Partition {
                        index: i as usize,
                        bootable: block[at] == 128,
                        kind: block[at + 4],
                        first_block: quad(block, at + 8) as u64,
                        blocks: quad(block, at + 12) as u64,
                    },
                )
            } else {
                None
            })
        }),
{
    geometry::lemma_fields(block, 446 + 16 * i + 8);
    geometry::lemma_fields(block, 446 + 16 * i + 12);
}

/// A block is a partition table exactly if it is whole, ends in the signature,
/// has a status byte in front of each of its four slots, and a slot in use.
pub proof fn lemma_table(block: Seq<u8>)
    ensures
        mbr::table_of(block).len() == 4,
        mbr::is_table(block) <==> {
            &&& block.len() >= 512
            &&& block[510] == 0x55
            &&& block[511] == 0xAA
            &&& forall|i: int|
                0 <= i < 4 ==> #[trigger] block[446 + 16 * i] == 0 || block[446 + 16 * i] == 128
            &&& exists|i: int| 0 <= i < 4 && #[trigger] mbr::table_of(block)[i] is Some
        },
{
    assert forall|i: int| 0 <= i < 4 implies mbr::status_ok(block, i) == (block[446 + 16 * i] == 0
        || block[446 + 16 * i] == 128) && #[trigger] mbr::table_of(block)[i]
        == mbr::slot_partition(block, i) by {}
    if mbr::is_table(block) {
        let i = choose|i: int| 0 <= i < 4 && #[trigger] mbr::slot_partition(block, i) is Some;
        assert(mbr::table_of(block)[i] is Some);
        assert forall|i: int| 0 <= i < 4 implies #[trigger] block[446 + 16 * i] == 0 || block[446
            + 16 * i] == 128 by {
            assert(mbr::status_ok(block, i));
        }
    }
    if exists|i: int| 0 <= i < 4 && #[trigger] mbr::table_of(block)[i] is Some {
        let i = choose|i: int| 0 <= i < 4 && #[trigger] mbr::table_of(block)[i] is Some;
        assert(mbr::slot_partition(block, i) is Some);
    }
    if forall|i: int|
        0 <= i < 4 ==> #[trigger] block[446 + 16 * i] == 0 || block[446 + 16 * i] == 128 {
        assert forall|i: int| 0 <= i < 4 implies #[trigger] mbr::status_ok(block, i) by {
            assert(block[446 + 16 * i] == 0 || block[446 + 16 * i] == 128);
        }
    }
}

/// The partitions of a table are those in its slots, in the order of the
/// slots.
pub proof fn lemma_used(table: Seq<Option<Partition>>, n: int)
    requires
        0 <= n <= table.len(),
    ensures
        mbr::used_slots(table, n) == table.take(n).filter(
            |slot: Option<Partition>| slot is Some,
        ).map_values(|slot: Option<Partition>| slot->0),
    decreases n,
{
    let used = |slot: Option<Partition>| slot is Some;
    let inner = |slot: Option<Partition>| slot->0;
    reveal(Seq::filter);
    if n > 0 {
        lemma_used(table, n - 1);
        assert(table.take(n).drop_last() =~= table.take(n - 1));
        let fewer = table.take(n - 1).filter(used);
        if table[n - 1] is Some {
            assert(table.take(n).filter(used) == fewer.push(table[n - 1]));
            assert(fewer.push(table[n - 1]).map_values(inner) =~= fewer.map_values(inner).push(
                table[n - 1]->0,
            ));
        }
    } else {
        assert(table.take(0).filter(used).map_values(inner) =~= Seq::<Partition>::empty());
    }
}

/// The first FAT partition is the one in the first slot whose type says FAT.
pub proof fn lemma_first_fat(table: Seq<Option<Partition>>, n: int, i: int)
    requires
        0 <= n <= i <= table.len(),
        forall|j: int|
            n <= j < i ==> !(#[trigger] table[j] is Some && mbr::fat_kind(table[j]->0.kind)),
    ensures
        i == table.len() ==> mbr::first_fat_from(table, n) is None,
        i < table.len() && table[i] is Some && mbr::fat_kind(table[i]->0.kind)
            ==> mbr::first_fat_from(table, n) == table[i],
    decreases i - n,
{
    if n < i {
        lemma_first_fat(table, n + 1, i);
    }
}

/// Mounting a partition mounts the volume that starts where the slot says, and
/// may reach as far as the slot says; a slot that is not in use, or a table
/// that only stands for a newer one, is refused.
pub proof fn lemma_mount_partition<D: BlockDevice>(
    device: D,
    index: usize,
    result: Result<FileSystem<D>, D::Error>,
)
    requires
        call_ensures(FileSystem::<D>::mount_partition, (device, index), result),
    ensures
        ({
            let block = device.contents().subrange(0, 512);
            let slot = mbr::table_of(block)[index as int];
            let refused = !mbr::is_table(block) || index >= 4 || slot is None || slot->0.kind
                == 0xEE;
            &&& result matches Ok(volume) ==> {
                &&& !refused
                &&& volume@.first_block == slot->0.first_block
                &&& volume@.first_block + volume@.boot.total_sectors <= slot->0.first_block
                    + slot->0.blocks
            }
            &&& result matches Err(error) ==> {
                &&& !mbr::is_table(block) ==> error is Device || error is NoPartitionTable
                &&& mbr::is_table(block) && (index >= 4 || slot is None) ==> error is Device
                    || error@ == Fault::NoSuchPartition { index: index as int }
                &&& mbr::is_table(block) && index < 4 && slot is Some && slot->0.kind == 0xEE
                    ==> error is Device || error is NoPartitionTable
                &&& !refused ==> !(error is NoPartitionTable) && !(error is NoSuchPartition)
            }
        }),
{
}

} // verus!
