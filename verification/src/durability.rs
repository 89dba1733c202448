//! What mounting again finds: the table and every chain as they were synced,
//! and whether the volume was left clean.
use vstd::prelude::*;

use crate::blockdev;
use crate::blockdev::Access;
use crate::boot;
use crate::bytes;
use crate::codepage::Codepage;
use crate::fat;
use crate::fs;
use crate::steady;
use crate::storage;
use crate::table;
use crate::table::Table;
use crate::volume;
use crate::volume::Volume;

verus! {

/// The table that mounting the device would load.
pub open spec fn loaded(volume: Volume) -> Table {
    fat::stored_table(volume.disk, volume.first_block as int, volume.boot)
}

/// Where nothing awaits writing, mounting again loads the table as it is.
pub proof fn lemma_loaded(volume: Volume)
    requires
        volume.laid_out(),
        volume.fits(),
        volume.tied(),
        !volume.table.has_changes(),
    ensures
        loaded(volume).entries == volume.table.entries,
{
    let entries = volume.table.entries;
    let base = volume.copy_at(0);
    assert(0 * volume.boot.sectors_per_fat == 0) by (nonlinear_arith);
    assert forall|c: int| 0 <= c < entries.len() implies #[trigger] loaded(volume).entries[c]
        == entries[c] by {
        assert forall|j: int| 0 <= j < 4 implies #[trigger] volume.disk[base + (4 * c + j)]
            == bytes::u32_bytes(entries[c])[j] by {
            let i = 4 * c + j;
            steady::lemma_in_copy(volume, i);
            assert(!volume.table.dirty[i / 512]);
            assert(i / 4 == c && i % 4 == j);
            assert(volume.disk[volume.copy_at(0) + i] == table::table_byte(entries, i));
        }
        assert(volume.disk[base + (4 * c + 0)] == bytes::u32_bytes(entries[c])[0]);
        assert(volume.disk[base + (4 * c + 1)] == bytes::u32_bytes(entries[c])[1]);
        assert(volume.disk[base + (4 * c + 2)] == bytes::u32_bytes(entries[c])[2]);
        assert(volume.disk[base + (4 * c + 3)] == bytes::u32_bytes(entries[c])[3]);
        bytes::lemma_u32_round_trip(entries[c]);
    }
    assert(loaded(volume).entries =~= entries);
}

/// A table that was just loaded agrees with the device.
pub proof fn lemma_fresh(volume: Volume)
    requires
        volume.laid_out(),
        volume.fits(),
        volume.table == loaded(volume),
    ensures
        volume.tied(),
        !volume.table.has_changes(),
{
    assert(0 * volume.boot.sectors_per_fat == 0) by (nonlinear_arith);
    let base = volume.copy_at(0);
    assert forall|i: int|
        0 <= i < 4 * volume.table.entries.len() && !volume.table.dirty[i
            / 512] implies #[trigger] volume.disk[volume.copy_at(0) + i] == table::table_byte(
        volume.table.entries,
        i,
    ) by {
        let c = i / 4;
        steady::lemma_in_copy(volume, i);
        steady::lemma_in_copy(volume, 4 * c + 3);
        bytes::lemma_u32_bytes_of(volume.disk, base + 4 * c);
        assert(volume.disk.subrange(base + 4 * c, base + 4 * c + 4)[i % 4] == volume.disk[base
            + i]);
    }
}

/// What a mount loads agrees with the device it was loaded from, and holds no
/// directory that could disagree.
pub proof fn lemma_mounted(
    disk: Seq<u8>,
    history: Seq<Access>,
    limit: u64,
    capacity: Option<u64>,
    first_block: u64,
    codepage: Codepage,
    end: Option<int>,
)
    requires
        fs::mounted(disk, history, limit, capacity, first_block, codepage, end) is Ok,
        fs::mounted(disk, history, limit, capacity, first_block, codepage, end)->Ok_0.laid_out(),
        fs::mounted(disk, history, limit, capacity, first_block, codepage, end)->Ok_0.fits(),
    ensures
        ({
            let volume = fs::mounted(
                disk,
                history,
                limit,
                capacity,
                first_block,
                codepage,
                end,
            )->Ok_0;
            &&& volume.tied()
            &&& volume.coherent()
            &&& !volume.table.has_changes()
            &&& !volume.marked_dirty
        }),
{
    lemma_fresh(fs::mounted(disk, history, limit, capacity, first_block, codepage, end)->Ok_0);
}

/// Syncing leaves the data area alone.
pub proof fn lemma_sync_undisturbed(volume: Volume)
    requires
        volume.laid_out(),
        steady::hints_in_place(volume),
    ensures
        storage::undisturbed(volume, volume.synced()),
{
    if volume.marked_dirty {
        storage::lemma_flush(volume);
        let flushed = volume.flush();
        let hinted = flushed.wrote_hints();
        let after = volume.synced();
        assert forall|p: int| volume.data_at() <= p < volume.disk.len() implies #[trigger] after.disk[p]
            == volume.disk[p] by {
            assert(flushed.disk[p] == volume.disk[p]);
            assert(hinted.disk[p] == flushed.disk[p]);
        }
    }
}

/// Where the dirty flag is on the device.
pub open spec fn flag_at(volume: Volume) -> int {
    volume.at(0) + 0x41
}

/// The first write since the mount, or since a sync, sets the dirty flag
/// before it does anything else; a later one does not touch it.
pub proof fn lemma_flag_goes_first(volume: Volume, sector: int, data: Seq<u8>)
    requires
        volume.laid_out(),
        volume.fits(),
        1 <= sector,
    ensures
        volume.wrote(sector, data).marked_dirty,
        !volume.marked_dirty ==> {
            let after = volume.wrote(sector, data);
            &&& after.disk[flag_at(volume)] % 2 == 1
            &&& after.history == volume.history.push(
                Access::Read { start: volume.first_block as int, blocks: 1 },
            ).push(
                Access::Write {
                    start: volume.first_block as int,
                    data: volume.flagged_block(true),
                },
            ) + blockdev::writes(volume.first_block + sector, data, volume.batch())
        },
        volume.marked_dirty ==> {
            let after = volume.wrote(sector, data);
            &&& after.disk[flag_at(volume)] == volume.disk[flag_at(volume)]
            &&& after.history == volume.history + blockdev::writes(
                volume.first_block + sector,
                data,
                volume.batch(),
            )
        },
{
    let after = volume.wrote(sector, data);
    let marked = volume.marked();
    assert(volume.at(1) <= volume.disk.len());
    assert(after.disk[flag_at(volume)] == marked.disk[flag_at(volume)]);
    if !volume.marked_dirty {
        assert(marked.disk[flag_at(volume)] == volume.flagged_block(true)[0x41]);
    }
}

/// Syncing clears the dirty flag, and does so last of all.
pub proof fn lemma_flag_cleared_last(volume: Volume)
    requires
        volume.laid_out(),
        volume.fits(),
        steady::hints_in_place(volume),
        volume.marked_dirty,
    ensures
        volume.synced().disk[flag_at(volume)] % 2 == 0,
        volume.synced().history.len() > 0,
        volume.synced().history.last() matches Access::Write { start, data } && start
            == volume.first_block && data.len() == 512 && data[0x41] % 2 == 0,
{
    steady::lemma_synced(volume);
    let before = Volume { marked_dirty: false, ..volume.flush().wrote_hints() };
    let after = volume.synced();
    assert(after == before.flagged(false));
    assert(before.first_block == volume.first_block && before.disk.len() == volume.disk.len()
        && before.boot == volume.boot) by {
        storage::lemma_flush(volume);
    }
    assert(before.at(1) <= before.disk.len());
    assert(after.disk[flag_at(volume)] == before.flagged_block(false)[0x41]);
}

/// Syncing a volume that was not changed asks nothing of the device, and
/// syncing twice is syncing once.
pub proof fn lemma_sync_idles(volume: Volume)
    ensures
        !volume.marked_dirty ==> volume.synced() == volume,
        volume.synced().synced() == volume.synced(),
{
}

/// Writing copies of the table leaves what lies before the tables, past the
/// first block.
proof fn lemma_copies_before(volume: Volume, stretch: (u32, u32), copies: int, p: int)
    requires
        volume.at(1) <= p < volume.at(volume.table.fat_start as int),
        p < volume.disk.len(),
        0 <= copies,
    ensures
        volume.wrote_copies(stretch, copies).written_from(volume),
        volume.wrote_copies(stretch, copies).disk.len() == volume.disk.len(),
        volume.wrote_copies(stretch, copies).disk[p] == volume.disk[p],
    decreases copies,
{
    if copies > 0 {
        lemma_copies_before(volume, stretch, copies - 1, p);
        let spf = volume.table.sectors_per_fat as int;
        assert(0 <= (copies - 1) * spf) by (nonlinear_arith)
            requires
                1 <= copies,
                0 <= spf,
        ;
        let before = volume.wrote_copies(stretch, copies - 1);
        assert(before.marked().disk[p] == before.disk[p]);
    }
}

/// Writing stretches of the table leaves what lies before the tables, past the
/// first block.
proof fn lemma_stretches_before(volume: Volume, stretches: Seq<(u32, u32)>, p: int)
    requires
        volume.at(1) <= p < volume.at(volume.table.fat_start as int),
        p < volume.disk.len(),
    ensures
        volume.wrote_stretches(stretches).written_from(volume),
        volume.wrote_stretches(stretches).disk.len() == volume.disk.len(),
        volume.wrote_stretches(stretches).disk[p] == volume.disk[p],
    decreases stretches.len(),
{
    if stretches.len() > 0 {
        lemma_stretches_before(volume, stretches.drop_last(), p);
        lemma_copies_before(
            volume.wrote_stretches(stretches.drop_last()),
            stretches.last(),
            volume.table.fat_count as int,
            p,
        );
    }
}

/// Writing the table leaves the block that the hints are in.
proof fn lemma_flush_keeps_hints(volume: Volume, sector: int)
    requires
        volume.laid_out(),
        volume.fits(),
        1 <= sector < volume.boot.fat_start,
    ensures
        volume.flush().sectors(sector, 1) == volume.sectors(sector, 1),
{
    storage::lemma_flush(volume);
    reveal(Volume::flush);
    let stretches = table::dirty_stretches(volume.table.dirty, volume.table.dirty.len() as int);
    assert(volume.at(sector + 1) <= volume.disk.len());
    assert forall|p: int| volume.at(sector) <= p < volume.at(sector + 1) implies #[trigger] volume.flush().disk[p]
        == volume.disk[p] by {
        lemma_stretches_before(volume, stretches, p);
    }
    assert(volume.flush().disk.len() == volume.disk.len()) by {
        lemma_stretches_before(volume, stretches, volume.at(sector));
    }
    assert(volume.flush().sectors(sector, 1) =~= volume.sectors(sector, 1));
}

/// What a sync leaves on the device: the table as it is in memory, in the
/// copy that mounting reads; in every copy, what awaited writing; the number
/// of free clusters and where the search
/// goes on, where there is a place for them; and everything outside the volume
/// and in its data area as it was.
pub open spec fn left_behind(before: Volume, after: Volume) -> bool {
    &&& !after.marked_dirty
    &&& !after.table.has_changes()
    &&& after.table.entries == before.table.entries
    &&& forall|i: int|
        0 <= i < 4 * before.table.entries.len() ==> #[trigger] after.disk[after.copy_at(0) + i]
            == table::table_byte(before.table.entries, i)
    &&& forall|k: int, i: int|
        0 <= k < before.boot.fat_count && 0 <= i < 4 * before.table.entries.len()
            ==> #[trigger] after.disk[after.copy_at(k) + i] == (if before.table.dirty[i / 512] {
            table::table_byte(before.table.entries, i)
        } else {
            before.disk[before.copy_at(k) + i]
        })
    &&& after.disk[flag_at(after)] % 2 == 0
    &&& before.boot.fs_info_sector matches Some(sector) ==> boot::has_hints(
        before.sectors(sector as int, 1),
    ) ==> {
        let block = after.sectors(sector as int, 1);
        &&& bytes::u32_at(block, 0x1E8) == before.table.free_count()
        &&& bytes::u32_at(block, 0x1EC) == before.table.next_free
    }
    &&& storage::undisturbed(before, after)
    &&& forall|p: int|
        0 <= p < before.disk.len() && !before.inside(p) ==> #[trigger] after.disk[p]
            == before.disk[p]
}

/// A block with the hints put in.
proof fn lemma_hints_in_block(volume: Volume, sector: int)
    requires
        volume.sectors(sector, 1).len() == 512,
        volume.table.wf(),
    ensures
        volume.hints_block(sector).len() == 512,
        bytes::u32_at(volume.hints_block(sector), 0x1E8) == volume.table.free_count(),
        bytes::u32_at(volume.hints_block(sector), 0x1EC) == volume.table.next_free,
{
    let free = volume.table.free_count();
    table::lemma_free_below_bound(volume.table.entries, volume.table.end());
    bytes::lemma_u32_round_trip(free as u32);
    bytes::lemma_u32_round_trip(volume.table.next_free);
}

/// Once the table is written, what else a sync writes leaves it.
proof fn lemma_sync_keeps_tables(volume: Volume, k: int, i: int)
    requires
        volume.laid_out(),
        volume.fits(),
        steady::hints_in_place(volume),
        volume.marked_dirty,
        0 <= k < volume.boot.fat_count,
        0 <= i < 4 * volume.table.entries.len(),
    ensures
        volume.synced().disk[volume.copy_at(k) + i] == volume.flush().disk[volume.copy_at(k) + i],
{
    let p = volume.copy_at(k) + i;
    let spf = volume.boot.sectors_per_fat as int;
    assert(0 <= k * spf) by (nonlinear_arith)
        requires
            0 <= k,
            0 <= spf,
    ;
    assert(volume.at(volume.boot.fat_start as int) <= p);
    storage::lemma_flush(volume);
    steady::lemma_flush_stores(volume, k, i);
    let flushed = volume.flush();
    assert(p < flushed.disk.len());
    assert(flushed.wrote_hints().disk[p] == flushed.disk[p]);
}

/// A volume that was changed and is synced leaves on the device what mounting
/// it again needs.
pub proof fn lemma_sync_leaves(volume: Volume)
    requires
        volume.laid_out(),
        volume.fits(),
        volume.tied(),
        steady::hints_in_place(volume),
        volume.marked_dirty,
    ensures
        left_behind(volume, volume.synced()),
{
    let after = volume.synced();
    steady::lemma_synced(volume);
    lemma_sync_undisturbed(volume);
    lemma_flag_cleared_last(volume);
    assert(!after.table.has_changes());
    assert forall|i: int|
        0 <= i < 4 * volume.table.entries.len() implies #[trigger] after.disk[after.copy_at(0) + i]
        == table::table_byte(volume.table.entries, i) by {
        steady::lemma_in_copy(volume, i);
        assert(!after.table.dirty[i / 512]);
    }
    assert forall|k: int, i: int|
        0 <= k < volume.boot.fat_count && 0 <= i < 4
            * volume.table.entries.len() implies #[trigger] after.disk[after.copy_at(k) + i] == (
    if volume.table.dirty[i / 512] {
        table::table_byte(volume.table.entries, i)
    } else {
        volume.disk[volume.copy_at(k) + i]
    }) by {
        steady::lemma_flush_stores(volume, k, i);
        lemma_sync_keeps_tables(volume, k, i);
    }
    if volume.boot.fs_info_sector is Some {
        let sector = volume.boot.fs_info_sector->0 as int;
        if boot::has_hints(volume.sectors(sector, 1)) {
            lemma_flush_keeps_hints(volume, sector);
            storage::lemma_flush(volume);
            let flushed = volume.flush();
            assert(flushed.at(sector + 1) <= flushed.disk.len());
            lemma_hints_in_block(flushed, sector);
            assert(after.sectors(sector, 1) =~= flushed.hints_block(sector));
        }
    }
}

} // verus!
