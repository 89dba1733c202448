//! What a volume notes about itself on its device: that it is in use, how much
//! of it is free, and its table.
use vstd::prelude::*;

use crate::bytes;
use crate::durability;
use crate::geometry;
use crate::geometry::quad;
use crate::ledger;
use crate::steady;
use crate::table;
use crate::volume;
use crate::volume::Volume;

verus! {

/// Where the byte with the mark of a volume in use is.
pub open spec fn mark(volume: Volume) -> int {
    512 * volume.first_block + 65
}

/// A mark is one bit: setting or clearing it changes no other bit of its byte,
/// and no other byte.
pub proof fn lemma_one_bit(volume: Volume, dirty: bool)
    requires
        512 * volume.first_block + 512 <= volume.disk.len(),
    ensures
        ({
            let after = volume.flagged(dirty);
            &&& after.disk.len() == volume.disk.len()
            &&& forall|p: int|
                0 <= p < volume.disk.len() && p != mark(volume) ==> #[trigger] after.disk[p]
                    == volume.disk[p]
            &&& after.disk[mark(volume)] / 2 == volume.disk[mark(volume)] / 2
            &&& after.disk[mark(volume)] % 2 == (if dirty {
                1int
            } else {
                0
            })
        }),
{
    let block = volume.sectors(0, 1);
    assert(volume.at(0) == 512 * volume.first_block);
    assert(block.len() == 512);
    let changed = volume.flagged_block(dirty);
    assert(changed.len() == 512);
    let after = volume.flagged(dirty);
    assert(after.disk[mark(volume)] == changed[65]);
    assert(block[65] == volume.disk[mark(volume)]);
    assert forall|p: int| 0 <= p < volume.disk.len() && p != mark(volume) implies #[trigger] after.disk[p]
        == volume.disk[p] by {
        let i = p - volume.at(0);
        if 0 <= i < 512 {
            assert(after.disk[p] == changed[i]);
            assert(changed[i] == block[i]);
        }
    }
}

/// The first sector that is written since mounting or syncing sets the mark,
/// and changes nothing else but what is written; a later one leaves the mark.
pub proof fn lemma_first_write_marks(volume: Volume, sector: int, data: Seq<u8>)
    requires
        1 <= sector,
        512 * (volume.first_block + sector) + data.len() <= volume.disk.len(),
    ensures
        ({
            let after = volume.wrote(sector, data);
            let start = 512 * (volume.first_block + sector);
            &&& after.marked_dirty
            &&& after.disk.len() == volume.disk.len()
            &&& forall|p: int|
                0 <= p < volume.disk.len() && p != mark(volume) ==> #[trigger] after.disk[p] == (
                if start <= p < start + data.len() {
                    data[p - start]
                } else {
                    volume.disk[p]
                })
            &&& after.disk[mark(volume)] / 2 == volume.disk[mark(volume)] / 2
            &&& !volume.marked_dirty ==> after.disk[mark(volume)] % 2 == 1
            &&& volume.marked_dirty ==> after.disk[mark(volume)] == volume.disk[mark(volume)]
        }),
{
    if !volume.marked_dirty {
        lemma_one_bit(volume, true);
    }
    let marked = volume.marked();
    let after = volume.wrote(sector, data);
    assert(marked.disk.len() == volume.disk.len());
    assert(after.disk[mark(volume)] == marked.disk[mark(volume)]);
}

/// The bytes of a table are those of its entries, lowest first.
pub proof fn lemma_table_bytes(entries: Seq<u32>, c: int)
    requires
        0 <= c < entries.len(),
    ensures
        entries[c] == table::table_byte(entries, 4 * c) + 256 * table::table_byte(entries, 4 * c + 1)
            + 65536 * table::table_byte(entries, 4 * c + 2) + 16777216 * table::table_byte(
            entries,
            4 * c + 3,
        ),
{
    bytes::lemma_u32_round_trip(entries[c]);
}

/// Syncing a volume that was changed leaves the number of its free clusters
/// behind, and where the search for one goes on, in a sector that is signed
/// for that; and clears the mark.
pub proof fn lemma_left_behind(volume: Volume, sector: u16)
    requires
        volume.laid_out(),
        volume.fits(),
        volume.tied(),
        steady::hints_in_place(volume),
        volume.marked_dirty,
        volume.boot.fs_info_sector == Some(sector),
        quad(volume.disk, 512 * (volume.first_block + sector)) == 0x4161_5252,
        quad(volume.disk, 512 * (volume.first_block + sector) + 484) == 0x6141_7272,
    ensures
        ({
            let after = volume.synced();
            let start = 512 * (volume.first_block + sector);
            &&& quad(after.disk, start + 488) == ledger::free_set(
                volume.table.entries,
                2 + volume.table.cluster_count,
            ).len()
            &&& quad(after.disk, start + 492) == volume.table.next_free
            &&& after.disk[mark(volume)] % 2 == 0
            &&& forall|c: int|
                0 <= c < volume.table.entries.len() ==> #[trigger] volume.table.entries[c] == quad(
                    after.disk,
                    512 * (volume.first_block + volume.boot.fat_start) + 4 * c,
                )
        }),
{
    let after = volume.synced();
    let start = 512 * (volume.first_block + sector);
    durability::lemma_sync_leaves(volume);
    ledger::lemma_free_count(volume.table);
    let before = volume.sectors(sector as int, 1);
    assert(volume.at(sector as int) == start);
    geometry::lemma_fields(before, 0);
    geometry::lemma_fields(before, 484);
    let block = after.sectors(sector as int, 1);
    geometry::lemma_fields(block, 488);
    geometry::lemma_fields(block, 492);
    steady::lemma_synced(volume);
    assert(after.at(sector as int) == start);
    assert forall|c: int| 0 <= c < volume.table.entries.len() implies #[trigger] volume.table.entries[c]
        == quad(after.disk, 512 * (volume.first_block + volume.boot.fat_start) + 4 * c) by {
        lemma_table_bytes(volume.table.entries, c);
        let from = 512 * (volume.first_block + volume.boot.fat_start);
        assert(after.copy_at(0) == from);
        assert(after.disk[after.copy_at(0) + 4 * c] == table::table_byte(
            volume.table.entries,
            4 * c,
        ));
        assert(after.disk[after.copy_at(0) + (4 * c + 1)] == table::table_byte(
            volume.table.entries,
            4 * c + 1,
        ));
        assert(after.disk[after.copy_at(0) + (4 * c + 2)] == table::table_byte(
            volume.table.entries,
            4 * c + 2,
        ));
        assert(after.disk[after.copy_at(0) + (4 * c + 3)] == table::table_byte(
            volume.table.entries,
            4 * c + 3,
        ));
    }
}

} // verus!
