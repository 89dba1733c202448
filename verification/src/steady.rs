//! What every operation keeps: the device outside the volume, and the tie
//! between the table in memory and the table on the device.
use vstd::prelude::*;

use crate::boot;
use crate::bytes;
use crate::chains;
use crate::fs;
use crate::name::StoredView;
use crate::operations;
use crate::operations::FileView;
use crate::storage;
use crate::table;
use crate::table::{Run, Table};
use crate::time::DateTime;
use crate::volume;
use crate::volume::{Edit, Volume};

verus! {

impl Volume {
    /// Where a copy of the table starts among the device's bytes.
    pub open spec fn copy_at(self, copy: int) -> int {
        self.at(self.boot.fat_start + copy * self.boot.sectors_per_fat)
    }

    /// Whether every entry whose sector awaits no writing is on the device as
    /// it is in memory, in the copy of the table that mounting reads.
    pub open spec fn tied(self) -> bool {
        forall|i: int|
            0 <= i < 4 * self.table.entries.len() && !self.table.dirty[i / 512]
                ==> #[trigger] self.disk[self.copy_at(0) + i] == table::table_byte(
                self.table.entries,
                i,
            )
    }

    /// A byte of the volume's first block.
    pub open spec fn boot_byte(self, i: int) -> u8 {
        self.disk[self.at(0) + i]
    }

    /// Whether a place on the device lies in the volume.
    pub open spec fn inside(self, p: int) -> bool {
        self.at(0) <= p < self.at(self.boot.total_sectors as int)
    }
}

/// Whether a volume's first block is the same on the device, but for the
/// dirty flag.
#[verifier::opaque]
pub open spec fn boots_alike(before: Volume, after: Volume) -> bool {
    forall|i: int|
        0 <= i < 512 ==> {
            let byte = #[trigger] after.boot_byte(i);
            byte == before.boot_byte(i) || i == 0x41 && byte / 2 == before.boot_byte(i) / 2
        }
}

/// Whether byte `i` of a copy of the table is on the device as it is in memory.
pub open spec fn on_copy(volume: Volume, copy: int, i: int) -> bool {
    volume.disk[volume.copy_at(copy) + i] == table::table_byte(volume.table.entries, i)
}

/// Whether byte `i` of a copy of the table awaited no writing, and is as it
/// was: on the device and in memory.
pub open spec fn byte_kept(before: Volume, after: Volume, copy: int, i: int) -> bool {
    &&& after.disk[after.copy_at(copy) + i] == before.disk[before.copy_at(copy) + i]
    &&& after.table.entries[i / 4] == before.table.entries[i / 4]
    &&& !before.table.dirty[i / 512]
}

/// Whether what changed of the table and awaits no writing is on the device,
/// in every copy.
#[verifier::opaque]
pub open spec fn copied(before: Volume, after: Volume) -> bool {
    forall|k: int, i: int|
        0 <= k < after.boot.fat_count && 0 <= i < 4 * after.table.entries.len()
            && !after.table.dirty[i / 512] ==> #[trigger] on_copy(after, k, i) || byte_kept(
            before,
            after,
            k,
            i,
        )
}

/// What every operation keeps: the volume is where it was and laid out as it
/// was, nothing outside it changed, its first block is as it was but for the
/// dirty flag, and the table on the device is as far behind the one in memory
/// as is remembered, and no further: what changed of it is in every copy.
pub open spec fn steady(before: Volume, after: Volume) -> bool {
    &&& after.boot == before.boot
    &&& after.first_block == before.first_block
    &&& after.disk.len() == before.disk.len()
    &&& after.laid_out()
    &&& forall|p: int|
        0 <= p < before.disk.len() && !before.inside(p) ==> #[trigger] after.disk[p]
            == before.disk[p]
    &&& boots_alike(before, after)
    &&& copied(before, after)
    &&& before.tied() ==> after.tied()
}

/// What awaits no writing is as tied to the device as it was.
proof fn lemma_copied_tied(before: Volume, after: Volume)
    requires
        before.laid_out(),
        after.laid_out(),
        after.boot == before.boot,
        after.first_block == before.first_block,
        copied(before, after),
    ensures
        before.tied() ==> after.tied(),
{
    if before.tied() {
        assert forall|i: int|
            0 <= i < 4 * after.table.entries.len() && !after.table.dirty[i
                / 512] implies #[trigger] after.disk[after.copy_at(0) + i] == table::table_byte(
            after.table.entries,
            i,
        ) by {
            reveal(copied);
            if !on_copy(after, 0, i) {
                assert(byte_kept(before, after, 0, i));
                assert(before.disk[before.copy_at(0) + i] == table::table_byte(
                    before.table.entries,
                    i,
                ));
            }
        }
    }
}

/// Tables that are the same, on the device and in memory.
proof fn lemma_copies_same(before: Volume, after: Volume)
    requires
        before.laid_out(),
        after.laid_out(),
        after.boot == before.boot,
        after.first_block == before.first_block,
        after.table.entries == before.table.entries,
        after.table.dirty == before.table.dirty,
        forall|p: int|
            before.at(before.boot.fat_start as int) <= p < before.data_at() ==> #[trigger] after.disk[p]
                == before.disk[p],
    ensures
        copied(before, after),
        before.tied() ==> after.tied(),
{
    assert(copied(before, after)) by {
        reveal(copied);
        assert forall|k: int, i: int|
            0 <= k < after.boot.fat_count && 0 <= i < 4 * after.table.entries.len()
                && !after.table.dirty[i / 512] implies #[trigger] on_copy(after, k, i) || byte_kept(
            before,
            after,
            k,
            i,
        ) by {
            lemma_in_copies(before, k, i);
        }
    }
    lemma_copied_tied(before, after);
}

/// The copies of the table lie between the first sector and the data area.
pub proof fn lemma_in_copies(volume: Volume, copy: int, i: int)
    requires
        volume.laid_out(),
        0 <= copy < volume.boot.fat_count,
        0 <= i < 4 * volume.table.entries.len(),
    ensures
        volume.at(1) <= volume.at(volume.boot.fat_start as int) <= volume.copy_at(copy) + i
            < volume.data_at(),
        0 <= i / 512 < volume.table.dirty.len(),
{
    lemma_copies_apart(
        volume.boot.sectors_per_fat as int,
        copy,
        volume.boot.fat_count as int,
    );
}

/// A first block that nothing reaches is as it was.
proof fn lemma_boot_untouched(before: Volume, after: Volume)
    requires
        after.first_block == before.first_block,
        forall|p: int|
            before.at(0) <= p < before.at(1) ==> #[trigger] after.disk[p] == before.disk[p],
    ensures
        boots_alike(before, after),
{
    reveal(boots_alike);
}

/// Setting or clearing the dirty flag leaves the rest of the first block.
proof fn lemma_boot_flagged(before: Volume, dirty: bool)
    requires
        before.at(1) <= before.disk.len(),
    ensures
        boots_alike(before, before.flagged(dirty)),
{
    reveal(boots_alike);
}

/// Marking a volume dirty leaves the rest of the first block.
proof fn lemma_boot_marked(before: Volume)
    requires
        before.at(1) <= before.disk.len(),
    ensures
        boots_alike(before, before.marked()),
{
    lemma_boot_flagged(before, true);
    lemma_boot_untouched(before, before);
    reveal(boots_alike);
}

/// One step after another.
proof fn lemma_boot_steps(a: Volume, b: Volume, c: Volume)
    requires
        boots_alike(a, b),
        boots_alike(b, c),
    ensures
        boots_alike(a, c),
{
    reveal(boots_alike);
    assert forall|i: int| 0 <= i < 512 implies {
        let byte = #[trigger] c.boot_byte(i);
        byte == a.boot_byte(i) || i == 0x41 && byte / 2 == a.boot_byte(i) / 2
    } by {
        let between = b.boot_byte(i);
    }
}

/// Writing sectors past the first leaves it, but for the dirty flag.
proof fn lemma_boot_wrote(volume: Volume, sector: int, data: Seq<u8>)
    requires
        volume.at(1) <= volume.disk.len(),
        1 <= sector,
    ensures
        boots_alike(volume, volume.wrote(sector, data)),
        volume.wrote(sector, data).disk.len() == volume.disk.len(),
{
    lemma_boot_marked(volume);
    lemma_boot_untouched(volume.marked(), volume.wrote(sector, data));
    lemma_boot_steps(volume, volume.marked(), volume.wrote(sector, data));
}

/// Writing copies of the table leaves the first block, but for the dirty flag.
proof fn lemma_boot_copies(volume: Volume, stretch: (u32, u32), copies: int)
    requires
        volume.at(1) <= volume.disk.len(),
        1 <= volume.table.fat_start,
        0 <= copies,
    ensures
        boots_alike(volume, volume.wrote_copies(stretch, copies)),
        volume.wrote_copies(stretch, copies).written_from(volume),
        volume.wrote_copies(stretch, copies).disk.len() == volume.disk.len(),
    decreases copies,
{
    lemma_boot_untouched(volume, volume);
    if copies > 0 {
        lemma_boot_copies(volume, stretch, copies - 1);
        let before = volume.wrote_copies(stretch, copies - 1);
        let spf = volume.table.sectors_per_fat as int;
        assert(0 <= (copies - 1) * spf) by (nonlinear_arith)
            requires
                1 <= copies,
                0 <= spf,
        ;
        let sector = volume.table.fat_start + (copies - 1) * spf + stretch.0;
        let data = volume::stretch_bytes(
            volume.table.entries,
            stretch.0 as int,
            stretch.1 as int,
        );
        lemma_boot_wrote(before, sector, data);
        lemma_boot_steps(volume, before, before.wrote(sector, data));
    }
}

/// Writing stretches of the table leaves the first block, but for the dirty
/// flag.
proof fn lemma_boot_stretches(volume: Volume, stretches: Seq<(u32, u32)>)
    requires
        volume.at(1) <= volume.disk.len(),
        1 <= volume.table.fat_start,
    ensures
        boots_alike(volume, volume.wrote_stretches(stretches)),
        volume.wrote_stretches(stretches).written_from(volume),
        volume.wrote_stretches(stretches).disk.len() == volume.disk.len(),
    decreases stretches.len(),
{
    lemma_boot_untouched(volume, volume);
    if stretches.len() > 0 {
        lemma_boot_stretches(volume, stretches.drop_last());
        let before = volume.wrote_stretches(stretches.drop_last());
        let copies = volume.table.fat_count as int;
        lemma_boot_copies(before, stretches.last(), copies);
        lemma_boot_steps(volume, before, before.wrote_copies(stretches.last(), copies));
    }
}

/// Writing the table leaves the first block, but for the dirty flag.
proof fn lemma_boot_flushed(volume: Volume)
    requires
        volume.laid_out(),
        volume.fits(),
    ensures
        boots_alike(volume, volume.flush()),
{
    reveal(Volume::flush);
    let stretches = table::dirty_stretches(volume.table.dirty, volume.table.dirty.len() as int);
    lemma_boot_stretches(volume, stretches);
    let written = volume.wrote_stretches(stretches);
    lemma_boot_untouched(written, volume.flush());
    lemma_boot_steps(volume, written, volume.flush());
}

/// One step after another.
proof fn lemma_steps(a: Volume, b: Volume, c: Volume)
    requires
        steady(a, b),
        steady(b, c),
    ensures
        steady(a, c),
{
    lemma_boot_steps(a, b, c);
    assert(copied(a, c)) by {
        reveal(copied);
        assert forall|k: int, i: int|
            0 <= k < c.boot.fat_count && 0 <= i < 4 * c.table.entries.len() && !c.table.dirty[i
                / 512] implies #[trigger] on_copy(c, k, i) || byte_kept(a, c, k, i) by {
            if !on_copy(c, k, i) {
                assert(byte_kept(b, c, k, i));
                assert(!on_copy(b, k, i));
                assert(byte_kept(a, b, k, i));
            }
        }
    }
    assert forall|p: int| 0 <= p < a.disk.len() && !a.inside(p) implies #[trigger] c.disk[p]
        == a.disk[p] by {
        assert(b.disk[p] == a.disk[p]);
    }
}

/// Looking changes nothing of it.
proof fn lemma_looking(before: Volume, after: Volume)
    requires
        before.laid_out(),
        after.boot == before.boot,
        after.first_block == before.first_block,
        after.disk == before.disk,
        after.table == before.table,
    ensures
        steady(before, after),
{
    lemma_boot_untouched(before, after);
    lemma_copies_same(before, after);
}

/// The tables lie between the first sector and the data area.
pub proof fn lemma_in_copy(volume: Volume, i: int)
    requires
        volume.laid_out(),
        0 <= i < 4 * volume.table.entries.len(),
    ensures
        volume.at(1) <= volume.copy_at(0) + i < volume.data_at(),
        0 <= i / 512 < volume.table.dirty.len(),
{
    lemma_in_copies(volume, 0, i);
}

/// Writing sectors of the data area.
proof fn lemma_wrote(volume: Volume, sector: int, data: Seq<u8>)
    requires
        volume.laid_out(),
        volume.fits(),
        volume.boot.data_start <= sector,
        volume.at(sector) + data.len() <= volume.at(volume.boot.total_sectors as int),
    ensures
        steady(volume, volume.wrote(sector, data)),
{
    lemma_boot_wrote(volume, sector, data);
    let after = volume.wrote(sector, data);
    lemma_copies_same(volume, after);
}

/// Whether a table differs from another only where it says so.
pub open spec fn marks(before: Table, after: Table) -> bool {
    &&& after.entries.len() == before.entries.len()
    &&& after.dirty.len() == before.dirty.len()
    &&& forall|c: int|
        0 <= c < before.entries.len() && #[trigger] after.entries[c] != before.entries[c]
            ==> after.dirty[c / 128]
    &&& forall|s: int| 0 <= s < before.dirty.len() && #[trigger] before.dirty[s] ==> after.dirty[s]
}

/// Changing the table in memory.
proof fn lemma_table(volume: Volume, table: Table)
    requires
        volume.laid_out(),
        table.wf(),
        table.same_place(volume.table),
        marks(volume.table, table),
    ensures
        steady(volume, Volume { table, ..volume }),
{
    let after = Volume { table, ..volume };
    lemma_boot_untouched(volume, after);
    assert(copied(volume, after)) by {
        reveal(copied);
        assert forall|k: int, i: int|
            0 <= k < after.boot.fat_count && 0 <= i < 4 * after.table.entries.len()
                && !after.table.dirty[i / 512] implies #[trigger] on_copy(after, k, i) || byte_kept(
            volume,
            after,
            k,
            i,
        ) by {
            lemma_in_copies(volume, k, i);
            assert(i / 4 / 128 == i / 512);
            assert(after.table.entries[i / 4] == volume.table.entries[i / 4]);
            assert(!volume.table.dirty[i / 512]);
        }
    }
    lemma_copied_tied(volume, after);
}

/// Changing one entry is marked.
proof fn lemma_set_marks(table: Table, cluster: int, value: u32)
    requires
        table.wf(),
        table.valid(cluster),
    ensures
        marks(table, table.set(cluster, value)),
{
}

/// One change after another is marked.
proof fn lemma_marks_twice(a: Table, b: Table, c: Table)
    requires
        marks(a, b),
        marks(b, c),
        forall|k: int| 0 <= k < a.entries.len() ==> 0 <= #[trigger] (k / 128) < a.dirty.len(),
    ensures
        marks(a, c),
{
    assert forall|k: int|
        0 <= k < a.entries.len() && #[trigger] c.entries[k] != a.entries[k] implies c.dirty[k
        / 128] by {
        if b.entries[k] != a.entries[k] {
            assert(b.dirty[k / 128]);
        }
    }
}

/// Linking clusters, or clearing them, is marked.
proof fn lemma_touched_marks(table: Table, clusters: Seq<u32>)
    requires
        table.wf(),
        forall|i: int| 0 <= i < clusters.len() ==> table.valid(#[trigger] clusters[i] as int),
    ensures
        marks(table, table.linked(clusters)),
        marks(table, table.cleared(clusters)),
{
    assert forall|c: int| 0 <= c < table.entries.len() && clusters.contains(c as u32) implies #[trigger] table.touched(
        clusters,
    )[c / 128] by {
        let i = clusters.index_of(c as u32);
        assert(clusters[i] as int / table::ENTRIES_PER_SECTOR as int == c / 128);
    }
    let (linked, cleared) = (table.linked(clusters), table.cleared(clusters));
    assert forall|c: int|
        0 <= c < table.entries.len() && #[trigger] linked.entries[c]
            != table.entries[c] implies linked.dirty[c / 128] by {
        assert(clusters.contains(c as u32));
        assert(table.touched(clusters)[c / 128]);
    }
    assert forall|c: int|
        0 <= c < table.entries.len() && #[trigger] cleared.entries[c]
            != table.entries[c] implies cleared.dirty[c / 128] by {
        assert(clusters.contains(c as u32));
        assert(table.touched(clusters)[c / 128]);
    }
}

/// Where the search goes on is no part of it.
proof fn lemma_marks_same(a: Table, b: Table, c: Table)
    requires
        marks(a, b),
        c.entries == b.entries,
        c.dirty == b.dirty,
    ensures
        marks(a, c),
{
}

/// What an allocation changes is marked.
proof fn lemma_allocated_marks(table: Table, n: u32)
    requires
        table.wf(),
    ensures
        marks(table, table.allocated(n).0),
        table.allocated(n).0.wf(),
        table.allocated(n).0.same_place(table),
{
    if n > 0 && table.free_count() >= n {
        chains::lemma_allocated(table, n);
        let clusters = table.picked(n as int);
        assert forall|i: int| 0 <= i < clusters.len() implies table.valid(
            #[trigger] clusters[i] as int,
        ) by {
            assert(table.is_free(clusters[i] as int));
        }
        lemma_touched_marks(table, clusters);
        lemma_marks_same(table, table.linked(clusters), table.allocated(n).0);
    }
}

/// What giving clusters back changes is marked.
proof fn lemma_released_marks(table: Table, clusters: Seq<u32>)
    requires
        table.wf(),
        forall|i: int| 0 <= i < clusters.len() ==> table.valid(#[trigger] clusters[i] as int),
    ensures
        marks(table, table.released(clusters)),
        table.released(clusters).wf(),
        table.released(clusters).same_place(table),
{
    chains::lemma_released(table, clusters);
    lemma_touched_marks(table, clusters);
    lemma_marks_same(table, table.cleared(clusters), table.released(clusters));
}

/// What freeing a chain changes is marked.
proof fn lemma_freed_marks(table: Table, start: u32)
    requires
        table.wf(),
    ensures
        marks(table, table.freed(start).0),
        table.freed(start).0.wf(),
        table.freed(start).0.same_place(table),
{
    if table.chain(start) is Ok {
        table::lemma_chain(table, start);
        lemma_released_marks(table, table.chain(start)->Ok_0);
    }
}

/// Changing part of a block of the data area.
proof fn lemma_patched(volume: Volume, sector: int, skip: int, data: Seq<u8>)
    requires
        volume.laid_out(),
        volume.fits(),
        volume.boot.data_start <= sector < volume.boot.total_sectors,
    ensures
        steady(volume, volume.patched(sector, skip, data)),
{
    let read = volume.after_read(sector, 1);
    let block = bytes::splice(volume.sectors(sector, 1), skip, data);
    lemma_looking(volume, read);
    lemma_wrote(read, sector, block);
    lemma_steps(volume, read, read.wrote(sector, block));
}

/// Writing a span of the data area.
proof fn lemma_wrote_span(volume: Volume, sector: int, skip: int, data: Seq<u8>)
    requires
        volume.laid_out(),
        volume.fits(),
        volume.boot.data_start <= sector,
        0 <= skip < 512,
        data.len() > 0,
        512 * sector + skip + data.len() <= 512 * volume.boot.total_sectors,
    ensures
        steady(volume, volume.wrote_span(sector, skip, data)),
{
    reveal(Volume::wrote_span);
    let lead = if skip != 0 {
        operations::least(512 - skip, data.len() as int)
    } else {
        0
    };
    let next = if skip != 0 {
        sector + 1
    } else {
        sector
    };
    let rest = data.skip(lead);
    let whole = rest.len() as int / 512;
    let tail = rest.skip(512 * whole);
    let first = if skip != 0 {
        volume.patched(sector, skip, data.take(lead))
    } else {
        volume
    };
    let second = if whole != 0 {
        first.wrote(next, rest.take(512 * whole))
    } else {
        first
    };
    lemma_looking(volume, volume);
    if skip != 0 {
        lemma_patched(volume, sector, skip, data.take(lead));
    }
    lemma_looking(first, first);
    if whole != 0 {
        lemma_wrote(first, next, rest.take(512 * whole));
        lemma_steps(volume, first, second);
    }
    if tail.len() != 0 {
        lemma_patched(second, next + whole, 0, tail);
        lemma_steps(volume, second, second.patched(next + whole, 0, tail));
    }
}

/// Writing to a chain's runs, from run `r` on.
proof fn lemma_wrote_runs(
    volume: Volume,
    runs: Seq<Run>,
    clusters: Seq<u32>,
    r: int,
    from: int,
    data: Seq<u8>,
)
    requires
        volume.laid_out(),
        volume.fits(),
        table::tiles(runs, clusters),
        volume.table.links(clusters),
        0 <= r <= runs.len(),
        data.len() > 0 && r < runs.len() ==> runs[r].file_cluster * volume.cluster_bytes() <= from,
    ensures
        steady(volume, volume.wrote_runs(runs.skip(r), from, data)),
    decreases runs.len() - r,
{
    let rest = runs.skip(r);
    lemma_looking(volume, volume);
    if data.len() > 0 && r < runs.len() {
        let cb = volume.cluster_bytes();
        let run = runs[r];
        let start = run.file_cluster * cb;
        let end = (run.file_cluster + run.clusters) * cb;
        assert(rest[0] == run);
        assert(rest.skip(1) =~= runs.skip(r + 1));
        assert(run.file_cluster + run.clusters == table::run_end(runs, r, clusters.len() as int));
        if from >= end {
            lemma_wrote_runs(volume, runs, clusters, r + 1, from, data);
        } else {
            let take = operations::least(end - from, data.len() as int);
            let sector = volume.boot.spec_cluster_sector(run.start_cluster as int) + (from - start)
                / 512;
            let skip = (from - start) % 512;
            let part = data.take(take);
            let left = data.skip(take);
            let span = volume.wrote_span(sector, skip, part);
            fs::lemma_run_valid(volume.table, runs, clusters, r);
            fs::lemma_run_in_volume(volume, run.start_cluster as int, run.clusters as int);
            assert(end == start + run.clusters * cb) by (nonlinear_arith)
                requires
                    start == run.file_cluster * cb,
                    end == (run.file_cluster + run.clusters) * cb,
            ;
            lemma_wrote_span(volume, sector, skip, part);
            operations::lemma_wrote_span_frame(volume, sector, skip, part);
            lemma_wrote_runs(span, runs, clusters, r + 1, from + take, left);
            lemma_steps(volume, span, span.wrote_runs(runs.skip(r + 1), from + take, left));
        }
    }
}

/// Writing to a chain.
proof fn lemma_write_chain(volume: Volume, first: u32, offset: int, data: Seq<u8>)
    requires
        volume.laid_out(),
        volume.fits(),
        0 <= offset,
    ensures
        steady(volume, volume.write_chain(first, offset, data).0),
{
    reveal(Volume::write_chain);
    lemma_looking(volume, volume);
    if volume.table.chain(first) is Ok {
        let clusters = volume.table.chain(first)->Ok_0;
        let runs = table::coalesce(clusters);
        table::lemma_chain(volume.table, first);
        table::lemma_coalesce_tiles(clusters);
        assert(runs.skip(0) =~= runs);
        assert(0int * volume.cluster_bytes() == 0) by (nonlinear_arith);
        lemma_wrote_runs(volume, runs, clusters, 0, offset, data);
    }
}

/// Writing zeros to a chain.
proof fn lemma_zero_chain(volume: Volume, first: u32, from: int, to: int)
    requires
        volume.laid_out(),
        volume.fits(),
        0 <= from,
    ensures
        steady(volume, volume.zero_chain(first, from, to).0),
    decreases to - from,
{
    lemma_looking(volume, volume);
    if from < to {
        let take = operations::least(to - from, 0x1_0000);
        let part = bytes::zeros(take as nat);
        lemma_write_chain(volume, first, from, part);
        let (after, result) = volume.write_chain(first, from, part);
        if result is Ok {
            lemma_zero_chain(after, first, from + take, to);
            lemma_steps(volume, after, after.zero_chain(first, from + take, to).0);
        }
    }
}

/// Writing one block of a chain.
proof fn lemma_block(volume: Volume, clusters: Seq<u32>, b: int, block: Seq<u8>)
    requires
        volume.laid_out(),
        volume.fits(),
        volume.table.links(clusters),
        clusters.no_duplicates(),
        0 <= b,
        b / (volume.boot.sectors_per_cluster as int) < clusters.len(),
        block.len() <= 512,
    ensures
        ({
            let spc = volume.boot.sectors_per_cluster as int;
            let sector = volume.boot.spec_cluster_sector(clusters[b / spc] as int) + b % spc;
            steady(volume, volume.after_read(sector, 1).wrote(sector, block))
        }),
{
    let spc = volume.boot.sectors_per_cluster as int;
    let sector = volume.boot.spec_cluster_sector(clusters[b / spc] as int) + b % spc;
    storage::lemma_block_written(volume, clusters, b, bytes::zeros(512));
    let read = volume.after_read(sector, 1);
    lemma_looking(volume, read);
    lemma_wrote(read, sector, block);
    lemma_steps(volume, read, read.wrote(sector, block));
}

/// Changing a directory's slot in place.
proof fn lemma_edit_slot(volume: Volume, directory: u32, index: u32, edit: Edit)
    requires
        volume.laid_out(),
        volume.fits(),
    ensures
        steady(volume, volume.edit_slot(directory, index, edit).0),
{
    reveal(Volume::edit_slot);
    lemma_looking(volume, volume);
    if volume.slot_location(directory, index) is Ok {
        let clusters = volume.table.chain(directory)->Ok_0;
        table::lemma_chain(volume.table, directory);
        let spc = volume.boot.sectors_per_cluster as int;
        let b = index as int / 16;
        let sector = volume.boot.spec_cluster_sector(clusters[b / spc] as int) + b % spc;
        let offset = index as int % 16 * 32;
        let block = volume.sectors(sector, 1);
        let changed = edit.applied(block.subrange(offset, offset + 32));
        let written = bytes::splice(block, offset, changed);
        storage::lemma_block_written(volume, clusters, b, bytes::zeros(512));
        lemma_block(volume, clusters, b, written);
        let wrote = volume.after_read(sector, 1).wrote(sector, written);
        lemma_looking(wrote, wrote.forgot(directory));
        lemma_steps(volume, wrote, wrote.forgot(directory));
    }
}

/// Writing consecutive slots of a directory.
proof fn lemma_write_slots(
    volume: Volume,
    directory: u32,
    index: int,
    entries: Seq<Seq<u8>>,
    b: int,
)
    requires
        volume.laid_out(),
        volume.fits(),
        0 <= b,
    ensures
        steady(volume, volume.write_slots(directory, index, entries, b).0),
    decreases index + entries.len() + 16 - 16 * b,
{
    if 16 * b >= index + entries.len() {
        lemma_looking(volume, volume.forgot(directory));
    } else {
        lemma_looking(volume, volume);
        if volume.slot_location(directory, (16 * b) as u32) is Ok {
            let clusters = volume.table.chain(directory)->Ok_0;
            table::lemma_chain(volume.table, directory);
            let spc = volume.boot.sectors_per_cluster as int;
            let place = ((16 * b) as u32) as int / 16;
            let sector = volume.boot.spec_cluster_sector(clusters[place / spc] as int) + place
                % spc;
            let block = volume.filled_block(sector, b, index, entries);
            lemma_block(volume, clusters, place, block);
            let next = volume.after_read(sector, 1).wrote(sector, block);
            lemma_write_slots(next, directory, index, entries, b + 1);
            lemma_steps(volume, next, next.write_slots(directory, index, entries, b + 1).0);
        }
    }
}

/// Marking slots deleted.
proof fn lemma_delete_down(volume: Volume, directory: u32, first: u32, last: u32)
    requires
        volume.laid_out(),
        volume.fits(),
    ensures
        steady(volume, volume.delete_down(directory, first, last).0),
    decreases last,
{
    lemma_edit_slot(volume, directory, last, Edit::Delete);
    let (edited, result) = volume.edit_slot(directory, last, Edit::Delete);
    if result is Ok && last > first {
        lemma_delete_down(edited, directory, first, (last - 1) as u32);
        lemma_steps(volume, edited, edited.delete_down(directory, first, (last - 1) as u32).0);
    }
}

/// Whether a stretch of sectors holds the one that byte `i` of the table is
/// in.
pub open spec fn covers(stretch: (u32, u32), i: int) -> bool {
    stretch.0 <= i / 512 < stretch.0 + stretch.1
}

/// Copies of the table do not overlap.
pub proof fn lemma_copies_apart(spf: int, k: int, c: int)
    requires
        0 <= spf,
        0 <= k < c,
    ensures
        0 <= k * spf,
        k * spf + spf <= c * spf,
{
    assert(0 <= k * spf && k * spf + spf <= c * spf) by (nonlinear_arith)
        requires
            0 <= spf,
            0 <= k < c,
    ;
}

/// Writing a stretch of the table to some copies: those bytes, and no others
/// of the tables.
proof fn lemma_wrote_copies(volume: Volume, stretch: (u32, u32), copies: int, k: int, i: int)
    requires
        volume.laid_out(),
        volume.fits(),
        stretch.0 + stretch.1 <= volume.table.sectors_per_fat,
        0 <= copies <= volume.table.fat_count,
        0 <= k < volume.table.fat_count,
        0 <= i < 512 * volume.table.sectors_per_fat,
    ensures
        ({
            let after = volume.wrote_copies(stretch, copies);
            let p = volume.copy_at(k) + i;
            &&& after.written_from(volume)
            &&& after.disk.len() == volume.disk.len()
            &&& after.disk[p] == (if k < copies && covers(stretch, i) {
                table::table_byte(volume.table.entries, i)
            } else {
                volume.disk[p]
            })
            &&& volume.at(1) <= p < volume.data_at()
        }),
    decreases copies,
{
    let spf = volume.table.sectors_per_fat as int;
    let count = volume.table.fat_count as int;
    lemma_copies_apart(spf, k, count);
    if copies > 0 {
        lemma_wrote_copies(volume, stretch, copies - 1, k, i);
        let before = volume.wrote_copies(stretch, copies - 1);
        let c = copies - 1;
        let sector = volume.table.fat_start + c * spf + stretch.0;
        let data = volume::stretch_bytes(
            volume.table.entries,
            stretch.0 as int,
            stretch.1 as int,
        );
        if k < c {
            lemma_copies_apart(spf, k, c);
        } else if c < k {
            lemma_copies_apart(spf, c, k);
        }
        let p = volume.copy_at(k) + i;
        let after = before.wrote(sector, data);
        assert(after.disk[p] == (if before.at(sector) <= p < before.at(sector) + data.len() {
            data[p - before.at(sector)]
        } else {
            before.disk[p]
        }));
    }
}

/// Writing stretches of the table to all copies: those bytes, and no others
/// of the tables.
proof fn lemma_wrote_stretches(volume: Volume, stretches: Seq<(u32, u32)>, k: int, i: int)
    requires
        volume.laid_out(),
        volume.fits(),
        forall|t: int|
            0 <= t < stretches.len() ==> {
                let (start, length) = #[trigger] stretches[t];
                start + length <= volume.table.sectors_per_fat
            },
        0 <= k < volume.table.fat_count,
        0 <= i < 512 * volume.table.sectors_per_fat,
    ensures
        ({
            let after = volume.wrote_stretches(stretches);
            let p = volume.copy_at(k) + i;
            &&& after.written_from(volume)
            &&& after.disk.len() == volume.disk.len()
            &&& after.disk[p] == (if exists|t: int|
                0 <= t < stretches.len() && covers(#[trigger] stretches[t], i) {
                table::table_byte(volume.table.entries, i)
            } else {
                volume.disk[p]
            })
            &&& volume.at(1) <= p < volume.data_at()
        }),
    decreases stretches.len(),
{
    if stretches.len() > 0 {
        let fewer = stretches.drop_last();
        assert forall|t: int| 0 <= t < fewer.len() implies {
            let (start, length) = #[trigger] fewer[t];
            start + length <= volume.table.sectors_per_fat
        } by {
            let (start, length) = stretches[t];
        }
        lemma_wrote_stretches(volume, fewer, k, i);
        let before = volume.wrote_stretches(fewer);
        let last = stretches[stretches.len() - 1];
        let (start, length) = last;
        lemma_wrote_copies(before, last, volume.table.fat_count as int, k, i);
        if exists|t: int| 0 <= t < fewer.len() && covers(#[trigger] fewer[t], i) {
            let t = choose|t: int| 0 <= t < fewer.len() && covers(#[trigger] fewer[t], i);
            assert(covers(stretches[t], i));
        }
        if exists|t: int| 0 <= t < stretches.len() && covers(#[trigger] stretches[t], i) {
            let t = choose|t: int| 0 <= t < stretches.len() && covers(#[trigger] stretches[t], i);
            if t < fewer.len() {
                assert(covers(fewer[t], i));
            }
        }
    } else {
        lemma_wrote_copies(volume, (0, 0), 0, k, i);
    }
}

/// The stretches that await writing are the sectors that do.
pub proof fn lemma_stretches_cover(dirty: Seq<bool>, n: int, i: int)
    requires
        0 <= n <= dirty.len(),
        n <= u32::MAX,
        0 <= i,
    ensures
        forall|t: int|
            0 <= t < table::dirty_stretches(dirty, n).len() ==> {
                let (start, length) = #[trigger] table::dirty_stretches(dirty, n)[t];
                start + length <= n
            },
        (exists|t: int|
            0 <= t < table::dirty_stretches(dirty, n).len() && covers(
                #[trigger] table::dirty_stretches(dirty, n)[t],
                i,
            )) <==> i / 512 < n && dirty[i / 512],
    decreases n,
{
    if n > 0 {
        lemma_stretches_cover(dirty, n - 1, i);
        let before = table::dirty_stretches(dirty, n - 1);
        let all = table::dirty_stretches(dirty, n);
        assert forall|t: int| 0 <= t < all.len() implies {
            let (start, length) = #[trigger] all[t];
            start + length <= n
        } by {
            if t < before.len() {
                let (start, length) = before[t];
            }
        }
        if dirty[n - 1] {
            let last = all.len() - 1;
            if exists|t: int| 0 <= t < before.len() && covers(#[trigger] before[t], i) {
                let t = choose|t: int| 0 <= t < before.len() && covers(#[trigger] before[t], i);
                assert(covers(all[t], i));
            }
            if i / 512 == n - 1 {
                assert(covers(all[last], i));
            }
            if exists|t: int| 0 <= t < all.len() && covers(#[trigger] all[t], i) {
                let t = choose|t: int| 0 <= t < all.len() && covers(#[trigger] all[t], i);
                if i / 512 != n - 1 {
                    if t < before.len() {
                        assert(covers(before[t], i));
                    }
                }
            }
        }
    }
}

/// Writing the table brings every copy of it up to date: what awaited writing
/// is there, and nothing else of the tables changed.
pub proof fn lemma_flush_stores(volume: Volume, k: int, i: int)
    requires
        volume.laid_out(),
        volume.fits(),
        0 <= k < volume.boot.fat_count,
        0 <= i < 4 * volume.table.entries.len(),
    ensures
        ({
            let p = volume.copy_at(k) + i;
            &&& volume.flush().disk[p] == (if volume.table.dirty[i / 512] {
                table::table_byte(volume.table.entries, i)
            } else {
                volume.disk[p]
            })
            &&& volume.at(1) <= p < volume.data_at()
        }),
{
    reveal(Volume::flush);
    let n = volume.table.dirty.len() as int;
    lemma_in_copy(volume, i);
    lemma_stretches_cover(volume.table.dirty, n, i);
    lemma_wrote_stretches(volume, table::dirty_stretches(volume.table.dirty, n), k, i);
}

/// Writing table sectors stays inside the volume.
proof fn lemma_copies_inside(volume: Volume, stretch: (u32, u32), copies: int)
    requires
        volume.laid_out(),
        stretch.0 + stretch.1 <= volume.table.sectors_per_fat,
        0 <= copies <= volume.table.fat_count,
    ensures
        ({
            let after = volume.wrote_copies(stretch, copies);
            &&& after.written_from(volume)
            &&& after.disk.len() == volume.disk.len()
            &&& forall|p: int|
                0 <= p < volume.disk.len() && !volume.inside(p) ==> #[trigger] after.disk[p]
                    == volume.disk[p]
        }),
    decreases copies,
{
    if copies > 0 {
        lemma_copies_inside(volume, stretch, copies - 1);
        let spf = volume.table.sectors_per_fat as int;
        lemma_copies_apart(spf, copies - 1, volume.table.fat_count as int);
        let before = volume.wrote_copies(stretch, copies - 1);
        let after = volume.wrote_copies(stretch, copies);
        assert forall|p: int| 0 <= p < volume.disk.len() && !volume.inside(p) implies #[trigger] after.disk[p]
            == volume.disk[p] by {
            assert(before.disk[p] == volume.disk[p]);
        }
    }
}

/// Writing stretches of the table stays inside the volume.
proof fn lemma_stretches_inside(volume: Volume, stretches: Seq<(u32, u32)>)
    requires
        volume.laid_out(),
        forall|t: int|
            0 <= t < stretches.len() ==> {
                let (start, length) = #[trigger] stretches[t];
                start + length <= volume.table.sectors_per_fat
            },
    ensures
        ({
            let after = volume.wrote_stretches(stretches);
            &&& after.written_from(volume)
            &&& after.disk.len() == volume.disk.len()
            &&& forall|p: int|
                0 <= p < volume.disk.len() && !volume.inside(p) ==> #[trigger] after.disk[p]
                    == volume.disk[p]
        }),
    decreases stretches.len(),
{
    if stretches.len() > 0 {
        let fewer = stretches.drop_last();
        assert forall|t: int| 0 <= t < fewer.len() implies {
            let (start, length) = #[trigger] fewer[t];
            start + length <= volume.table.sectors_per_fat
        } by {
            let (start, length) = stretches[t];
        }
        lemma_stretches_inside(volume, fewer);
        let before = volume.wrote_stretches(fewer);
        let (start, length) = stretches[stretches.len() - 1];
        lemma_copies_inside(before, stretches.last(), volume.table.fat_count as int);
        let after = volume.wrote_stretches(stretches);
        assert forall|p: int| 0 <= p < volume.disk.len() && !volume.inside(p) implies #[trigger] after.disk[p]
            == volume.disk[p] by {
            assert(before.disk[p] == volume.disk[p]);
        }
    }
}

/// Writing the table keeps the volume steady: nothing
/// outside the volume changes, and the table on the device is behind the one in
/// memory only where that is remembered.
pub proof fn lemma_flush(volume: Volume)
    requires
        volume.laid_out(),
        volume.fits(),
    ensures
        steady(volume, volume.flush()),
{
    storage::lemma_flush(volume);
    let after = volume.flush();
    let n = volume.table.dirty.len() as int;
    let stretches = table::dirty_stretches(volume.table.dirty, n);
    assert forall|p: int| 0 <= p < volume.disk.len() && !volume.inside(p) implies #[trigger] after.disk[p]
        == volume.disk[p] by {
        reveal(Volume::flush);
        lemma_stretches_cover(volume.table.dirty, n, 0);
        lemma_stretches_inside(volume, stretches);
    }
    lemma_boot_flushed(volume);
    assert(copied(volume, after)) by {
        reveal(copied);
        assert forall|k: int, i: int|
            0 <= k < after.boot.fat_count && 0 <= i < 4 * after.table.entries.len()
                && !after.table.dirty[i / 512] implies #[trigger] on_copy(after, k, i) || byte_kept(
            volume,
            after,
            k,
            i,
        ) by {
            lemma_flush_stores(volume, k, i);
        }
    }
    lemma_copied_tied(volume, after);
}

/// Giving a directory one more cluster.
proof fn lemma_grow_directory(volume: Volume, directory: u32)
    requires
        volume.laid_out(),
        volume.fits(),
    ensures
        steady(volume, volume.grow_directory(directory).0),
{
    reveal(Volume::grow_directory);
    lemma_looking(volume, volume);
    if volume.table.chain(directory) is Ok && volume.table.allocated(1).1 is Ok {
        let clusters = volume.table.chain(directory)->Ok_0;
        table::lemma_chain(volume.table, directory);
        let (grown, result) = volume.table.allocated(1);
        let added = result->Ok_0;
        chains::lemma_allocated(volume.table, 1);
        lemma_allocated_marks(volume.table, 1);
        let held = Volume { table: grown, ..volume };
        lemma_table(volume, grown);
        assert(volume.table.is_free(added[0] as int));
        boot::lemma_cluster_in_volume(volume.boot, added[0] as int);
        let sector = volume.boot.spec_cluster_sector(added[0] as int);
        let filler = bytes::zeros(volume.cluster_bytes() as nat);
        lemma_wrote(held, sector, filler);
        let wrote = held.wrote(sector, filler);
        lemma_steps(volume, held, wrote);
        assert(volume.table.valid(clusters[clusters.len() - 1] as int));
        let linked = grown.set(clusters.last() as int, added[0]);
        table::lemma_set(grown, clusters.last() as int, added[0]);
        lemma_set_marks(grown, clusters.last() as int, added[0]);
        let longer = Volume { table: linked, ..wrote };
        lemma_table(wrote, linked);
        lemma_steps(volume, wrote, longer);
        lemma_looking(longer, longer.forgot(directory));
        lemma_steps(volume, longer, longer.forgot(directory));
    }
}

/// Finding room in a directory.
proof fn lemma_find_room(volume: Volume, directory: u32, count: u32, attempts: int)
    requires
        volume.laid_out(),
        volume.fits(),
    ensures
        steady(volume, volume.find_room(directory, count, attempts).0),
    decreases attempts,
{
    let (read, found) = volume.read_dir(directory);
    volume::lemma_read_dir_looks(volume, directory);
    lemma_looking(volume, read);
    if found is Ok && found->Ok_0.room_for(count) is None && attempts > 0 {
        let (grown, result) = read.grow_directory(directory);
        lemma_grow_directory(read, directory);
        lemma_steps(volume, read, grown);
        if result is Ok {
            lemma_find_room(grown, directory, count, attempts - 1);
            lemma_steps(volume, grown, grown.find_room(directory, count, attempts - 1).0);
        }
    }
}

/// Taking a chain out of the table again.
proof fn lemma_undone(volume: Volume, first: u32)
    requires
        volume.laid_out(),
    ensures
        steady(volume, volume.undone(first)),
{
    lemma_looking(volume, volume);
    if first != 0 {
        lemma_freed_marks(volume.table, first);
        lemma_table(volume, volume.table.freed(first).0);
    }
}

/// Putting a new entry into a directory.
proof fn lemma_publish(
    volume: Volume,
    directory: u32,
    stored: StoredView,
    entry: Seq<u8>,
    first: u32,
    index: u32,
)
    requires
        volume.laid_out(),
        volume.fits(),
    ensures
        steady(volume, volume.publish(directory, stored, entry, first, index).0),
{
    reveal(Volume::publish);
    lemma_flush(volume);
    let flushed = volume.flush();
    let slots = stored.slots.push(entry);
    lemma_write_slots(flushed, directory, index as int, slots, index as int / 16);
    let (put, result) = flushed.put_slots(directory, index, slots);
    lemma_steps(volume, flushed, put);
    if result is Err {
        lemma_undone(put, first);
        lemma_steps(volume, put, put.undone(first));
    }
}

/// Creating a file keeps the volume steady, whether it succeeds or is refused: nothing
/// outside the volume changes, and the table on the device is behind the one in
/// memory only where that is remembered.
pub proof fn lemma_create(volume: Volume, path: Seq<char>, size: u32, now: DateTime)
    requires
        volume.laid_out(),
        volume.fits(),
    ensures
        steady(volume, volume.create(path, size, now).0),
{
    let root = volume.boot.root_cluster;
    let parent = operations::parent_of(path);
    let wanted = operations::name_of(path);
    volume::lemma_resolve_looks(volume, root, parent);
    let (resolved, leads) = volume.resolve(root, parent);
    lemma_looking(volume, resolved);
    if leads is Ok {
        let directory = leads->Ok_0;
        operations::lemma_plan_name_looks(resolved, directory, wanted);
        let (planned, plan) = resolved.plan_name(directory, wanted);
        lemma_looking(volume, planned);
        if plan is Ok {
            let stored = plan->Ok_0;
            let count = operations::clusters_for(size as int, volume.cluster_bytes()) as u32;
            let (table, result) = planned.table.allocated(count);
            if result is Ok {
                lemma_allocated_marks(planned.table, count);
                lemma_table(planned, table);
                let ready = Volume { table, ..planned };
                lemma_steps(volume, planned, ready);
                let first = if result->Ok_0.len() > 0 {
                    result->Ok_0[0]
                } else {
                    0
                };
                lemma_create_with(ready, directory, stored, first, now);
                lemma_steps(volume, ready, ready.create_with(directory, stored, first, now).0);
            }
        }
    }
}

/// Creating a file whose name is chosen and whose chain is allocated.
proof fn lemma_create_with(
    volume: Volume,
    directory: u32,
    stored: StoredView,
    first: u32,
    now: DateTime,
)
    requires
        volume.laid_out(),
        volume.fits(),
    ensures
        steady(volume, volume.create_with(directory, stored, first, now).0),
{
    reveal(Volume::create_with);
    let count = (stored.slots.len() + 1) as u32;
    let more = fs::MAX_DIRECTORY_GROWTH as int;
    lemma_find_room(volume, directory, count, more);
    let (roomy, result) = volume.find_room(directory, count, more);
    match result {
        Err(_) => {
            lemma_undone(roomy, first);
            lemma_steps(volume, roomy, roomy.undone(first));
        },
        Ok(index) => {
            let entry = crate::dir::entry_bytes(stored.short, 0x20, first, 0, now);
            lemma_publish(roomy, directory, stored, entry, first, index);
            lemma_steps(
                volume,
                roomy,
                roomy.publish(directory, stored, entry, first, index).0,
            );
        },
    }
}

/// Creating a directory keeps the volume steady, whether it succeeds or is refused: nothing
/// outside the volume changes, and the table on the device is behind the one in
/// memory only where that is remembered.
pub proof fn lemma_create_dir(volume: Volume, path: Seq<char>, now: DateTime)
    requires
        volume.laid_out(),
        volume.fits(),
    ensures
        steady(volume, volume.create_dir(path, now).0),
{
    let root = volume.boot.root_cluster;
    let parent_path = operations::parent_of(path);
    let wanted = operations::name_of(path);
    volume::lemma_resolve_looks(volume, root, parent_path);
    let (resolved, leads) = volume.resolve(root, parent_path);
    lemma_looking(volume, resolved);
    if leads is Ok {
        let parent = leads->Ok_0;
        operations::lemma_plan_name_looks(resolved, parent, wanted);
        let (planned, plan) = resolved.plan_name(parent, wanted);
        lemma_looking(volume, planned);
        if plan is Ok {
            let stored = plan->Ok_0;
            let (table, result) = planned.table.allocated(1);
            if result is Ok {
                chains::lemma_allocated(planned.table, 1);
                lemma_allocated_marks(planned.table, 1);
                lemma_table(planned, table);
                let ready = Volume { table, ..planned };
                lemma_steps(volume, planned, ready);
                let cluster = result->Ok_0[0];
                assert(planned.table.is_free(cluster as int));
                lemma_create_dir_with(ready, parent, stored, cluster, now);
                lemma_steps(volume, ready, ready.create_dir_with(parent, stored, cluster, now).0);
            }
        }
    }
}

/// Creating a directory whose name is chosen and whose cluster is allocated.
proof fn lemma_create_dir_with(
    volume: Volume,
    parent: u32,
    stored: StoredView,
    cluster: u32,
    now: DateTime,
)
    requires
        volume.laid_out(),
        volume.fits(),
        volume.table.valid(cluster as int),
    ensures
        steady(volume, volume.create_dir_with(parent, stored, cluster, now).0),
{
    reveal(Volume::create_dir_with);
    let count = (stored.slots.len() + 1) as u32;
    let more = fs::MAX_DIRECTORY_GROWTH as int;
    lemma_find_room(volume, parent, count, more);
    let (roomy, result) = volume.find_room(parent, count, more);
    match result {
        Err(_) => {
            lemma_undone(roomy, cluster);
            lemma_steps(volume, roomy, roomy.undone(cluster));
        },
        Ok(index) => {
            let entry = crate::dir::entry_bytes(stored.short, 0x10, cluster, 0, now);
            let sector = volume.boot.spec_cluster_sector(cluster as int);
            let data = volume.new_directory(cluster, parent, now);
            boot::lemma_cluster_in_volume(volume.boot, cluster as int);
            lemma_wrote(roomy, sector, data);
            let wrote = roomy.wrote(sector, data);
            lemma_steps(volume, roomy, wrote);
            lemma_publish(wrote, parent, stored, entry, cluster, index);
            lemma_steps(volume, wrote, wrote.publish(parent, stored, entry, cluster, index).0);
        },
    }
}

/// Freeing a chain.
proof fn lemma_free_chain(volume: Volume, first: u32)
    requires
        volume.laid_out(),
        volume.fits(),
    ensures
        steady(volume, volume.free_chain(first).0),
{
    reveal(Volume::free_chain);
    lemma_looking(volume, volume);
    lemma_freed_marks(volume.table, first);
    let (table, result) = volume.table.freed(first);
    if result is Ok {
        let held = Volume { table, ..volume };
        lemma_table(volume, table);
        lemma_flush(held);
        lemma_steps(volume, held, held.flush());
    }
}

/// Removing a file keeps the volume steady, whether it succeeds or is refused: nothing
/// outside the volume changes, and the table on the device is behind the one in
/// memory only where that is remembered.
pub proof fn lemma_remove(volume: Volume, path: Seq<char>)
    requires
        volume.laid_out(),
        volume.fits(),
    ensures
        steady(volume, volume.remove(path).0),
{
    operations::lemma_open_looks(volume, path);
    let (opened, result) = volume.open(path);
    lemma_looking(volume, opened);
    if result is Ok {
        let file = result->Ok_0;
        let counted = opened.counted(file.directory);
        lemma_looking(volume, counted);
        lemma_delete_down(counted, file.directory, file.first_slot, file.index);
        let (deleted, _) = opened.delete_slots(file.directory, file.first_slot, file.index);
        lemma_steps(volume, counted, deleted);
        lemma_free_chain(deleted, file.first_cluster);
        lemma_steps(volume, deleted, deleted.free_chain(file.first_cluster).0);
    }
}

/// Removing a directory keeps the volume steady, whether it succeeds or is refused: nothing
/// outside the volume changes, and the table on the device is behind the one in
/// memory only where that is remembered.
pub proof fn lemma_remove_dir(volume: Volume, path: Seq<char>)
    requires
        volume.laid_out(),
        volume.fits(),
    ensures
        steady(volume, volume.remove_dir(path).0),
{
    let plain = operations::plain(path);
    operations::lemma_look_up_looks(volume, plain);
    lemma_looking(volume, volume);
    let (found, result) = volume.look_up(plain);
    lemma_looking(volume, found);
    if result is Ok {
        let (parent, entry) = result->Ok_0;
        volume::lemma_read_dir_looks(found, entry.first_cluster);
        let (read, _) = found.read_dir(entry.first_cluster);
        lemma_looking(volume, read);
        let counted = read.counted(parent);
        lemma_looking(volume, counted);
        lemma_delete_down(counted, parent, entry.first_slot, entry.index);
        let (deleted, _) = read.delete_slots(parent, entry.first_slot, entry.index);
        lemma_steps(volume, counted, deleted);
        lemma_free_chain(deleted, entry.first_cluster);
        let (freed, _) = deleted.free_chain(entry.first_cluster);
        lemma_steps(volume, deleted, freed);
        lemma_looking(freed, freed.forgot(entry.first_cluster));
        lemma_steps(volume, freed, freed.forgot(entry.first_cluster));
    }
}

/// Lengthening a chain in the table is marked.
proof fn lemma_appended_marks(table: Table, start: u32, n: u32)
    requires
        table.wf(),
        table.chain(start) is Ok,
    ensures
        marks(table, table.appended(table.chain(start)->Ok_0.last(), n).0),
        table.appended(table.chain(start)->Ok_0.last(), n).0.wf(),
        table.appended(table.chain(start)->Ok_0.last(), n).0.same_place(table),
{
    table::lemma_chain(table, start);
    let clusters = table.chain(start)->Ok_0;
    let last = clusters.last();
    assert(table.valid(clusters[clusters.len() - 1] as int));
    lemma_allocated_marks(table, n);
    let (grown, result) = table.allocated(n);
    if result is Ok && result->Ok_0.len() > 0 {
        let first = result->Ok_0[0];
        table::lemma_set(grown, last as int, first);
        lemma_set_marks(grown, last as int, first);
        lemma_marks_twice(table, grown, grown.set(last as int, first));
    }
}

/// Making room for a file.
proof fn lemma_reserve(volume: Volume, file: FileView, size: u32, now: DateTime)
    requires
        volume.laid_out(),
        volume.fits(),
    ensures
        steady(volume, volume.reserve(file, size, now).0),
{
    reveal(Volume::reserve);
    lemma_looking(volume, volume);
    let wanted = operations::clusters_for(size as int, volume.cluster_bytes());
    if wanted != 0 {
        if file.first_cluster == 0 {
            lemma_allocated_marks(volume.table, wanted as u32);
            let (table, result) = volume.table.allocated(wanted as u32);
            if result is Ok {
                let held = Volume { table, ..volume };
                lemma_table(volume, table);
                lemma_flush(held);
                lemma_steps(volume, held, held.flush());
                let edit = Edit::Update {
                    first_cluster: result->Ok_0[0],
                    size: file.size,
                    at: now,
                };
                lemma_edit_slot(held.flush(), file.directory, file.index, edit);
                lemma_steps(
                    volume,
                    held.flush(),
                    held.flush().edit_slot(file.directory, file.index, edit).0,
                );
            }
        } else if volume.table.chain(file.first_cluster) is Ok {
            let clusters = volume.table.chain(file.first_cluster)->Ok_0;
            if wanted > clusters.len() {
                let more = (wanted - clusters.len()) as u32;
                lemma_appended_marks(volume.table, file.first_cluster, more);
                let (table, result) = volume.table.appended(clusters.last(), more);
                let held = Volume { table, ..volume };
                lemma_table(volume, table);
                lemma_flush(held);
                lemma_steps(volume, held, held.flush());
            }
        }
    }
}

/// Writing to a file keeps the volume steady, whether it succeeds or is refused: nothing
/// outside the volume changes, and the table on the device is behind the one in
/// memory only where that is remembered.
pub proof fn lemma_write_file_at(
    volume: Volume,
    file: FileView,
    offset: int,
    data: Seq<u8>,
    now: DateTime,
)
    requires
        volume.laid_out(),
        volume.fits(),
        0 <= offset,
    ensures
        steady(volume, volume.write_file_at(file, offset, data, now).0),
{
    lemma_looking(volume, volume);
    operations::lemma_check_live_looks(volume, file);
    let (live, result) = volume.check_live(file);
    lemma_looking(volume, live);
    lemma_write_live(live, file, offset, data, now);
    lemma_steps(volume, live, live.write_live(file, offset, data, now).0);
}

/// Writing to a file that is known to be live.
proof fn lemma_write_live(
    volume: Volume,
    file: FileView,
    offset: int,
    data: Seq<u8>,
    now: DateTime,
)
    requires
        volume.laid_out(),
        volume.fits(),
        0 <= offset,
    ensures
        steady(volume, volume.write_live(file, offset, data, now).0),
{
    reveal(Volume::write_live);
    let end = offset + data.len();
    lemma_reserve(volume, file, end as u32, now);
    let (reserved, roomy, result) = volume.reserve(file, end as u32, now);
    if result is Ok {
        let (zeroed, result) = if offset > roomy.size {
            reserved.zero_chain(roomy.first_cluster, roomy.size as int, offset)
        } else {
            (reserved, Ok(()))
        };
        lemma_looking(reserved, reserved);
        if offset > roomy.size {
            lemma_zero_chain(reserved, roomy.first_cluster, roomy.size as int, offset);
        }
        lemma_steps(volume, reserved, zeroed);
        lemma_write_chain(zeroed, roomy.first_cluster, offset, data);
        let (written, _) = zeroed.write_chain(roomy.first_cluster, offset, data);
        lemma_steps(volume, zeroed, written);
        let edit = Edit::Update {
            first_cluster: roomy.first_cluster,
            size: end as u32,
            at: now,
        };
        lemma_edit_slot(written, roomy.directory, roomy.index, edit);
        lemma_steps(
            volume,
            written,
            written.edit_slot(roomy.directory, roomy.index, edit).0,
        );
    }
}

/// Writing a file whole keeps the volume steady, whether it succeeds or is refused: nothing
/// outside the volume changes, and the table on the device is behind the one in
/// memory only where that is remembered.
pub proof fn lemma_replace_file(
    volume: Volume,
    path: Seq<char>,
    data: Seq<u8>,
    found: bool,
    created: DateTime,
    written: DateTime,
)
    requires
        volume.laid_out(),
        volume.fits(),
    ensures
        steady(volume, volume.replace_file(path, data, found, created, written).0),
{
    lemma_looking(volume, volume);
    lemma_remove(volume, path);
    let (removed, _) = if found {
        volume.remove(path)
    } else {
        (volume, Ok(()))
    };
    let size = (data.len() % 0x1_0000_0000) as u32;
    lemma_create(removed, path, size, created);
    let (made, result) = removed.create(path, size, created);
    lemma_steps(volume, removed, made);
    if result is Ok {
        lemma_write_file_at(made, result->Ok_0, 0, data, written);
        lemma_steps(volume, made, made.write_file_at(result->Ok_0, 0, data, written).0);
    }
}

/// Shortening a chain in the table is marked.
pub proof fn lemma_shortened_marks(table: Table, start: u32, keep: u32)
    requires
        table.wf(),
    ensures
        marks(table, table.shortened(start, keep).0),
        table.shortened(start, keep).0.wf(),
        table.shortened(start, keep).0.same_place(table),
{
    if table.chain(start) is Ok {
        table::lemma_chain(table, start);
        let clusters = table.chain(start)->Ok_0;
        if keep < clusters.len() {
            if keep == 0 {
                lemma_released_marks(table, clusters);
            } else {
                let rest = clusters.skip(keep as int);
                let last = clusters[keep - 1] as int;
                assert(table.valid(last));
                table::lemma_set(table, last, table::END_OF_CHAIN_MARK);
                lemma_set_marks(table, last, table::END_OF_CHAIN_MARK);
                let cut = table.set(last, table::END_OF_CHAIN_MARK);
                assert forall|i: int| 0 <= i < rest.len() implies cut.valid(
                    #[trigger] rest[i] as int,
                ) by {
                    assert(table.valid(clusters[keep + i] as int));
                }
                lemma_released_marks(cut, rest);
                lemma_marks_twice(table, cut, cut.released(rest));
            }
        }
    }
}

/// Setting a file's length keeps the volume steady, whether it succeeds or is refused: nothing
/// outside the volume changes, and the table on the device is behind the one in
/// memory only where that is remembered.
pub proof fn lemma_truncate(volume: Volume, file: FileView, size: u32, now: DateTime)
    requires
        volume.laid_out(),
        volume.fits(),
    ensures
        steady(volume, volume.truncate(file, size, now).0),
{
    operations::lemma_check_live_looks(volume, file);
    let (live, result) = volume.check_live(file);
    lemma_looking(volume, live);
    if result is Ok && size > file.size {
        lemma_reserve(live, file, size, now);
        let (reserved, roomy, _) = live.reserve(file, size, now);
        lemma_steps(volume, live, reserved);
        lemma_zero_chain(reserved, roomy.first_cluster, roomy.size as int, size as int);
        let (zeroed, _) = reserved.zero_chain(
            roomy.first_cluster,
            roomy.size as int,
            size as int,
        );
        lemma_steps(volume, reserved, zeroed);
        let edit = Edit::Update { first_cluster: roomy.first_cluster, size, at: now };
        lemma_edit_slot(zeroed, roomy.directory, roomy.index, edit);
        lemma_steps(volume, zeroed, zeroed.edit_slot(roomy.directory, roomy.index, edit).0);
    } else if result is Ok && size < file.size {
        let keep = operations::clusters_for(size as int, volume.cluster_bytes());
        let first = if keep == 0 {
            0
        } else {
            file.first_cluster
        };
        let edit = Edit::Update { first_cluster: first, size, at: now };
        lemma_edit_slot(live, file.directory, file.index, edit);
        let (recorded, _) = live.edit_slot(file.directory, file.index, edit);
        lemma_steps(volume, live, recorded);
        lemma_shortened_marks(recorded.table, file.first_cluster, keep as u32);
        let (table, _) = recorded.table.shortened(file.first_cluster, keep as u32);
        let held = Volume { table, ..recorded };
        lemma_table(recorded, table);
        lemma_steps(volume, recorded, held);
        lemma_flush(held);
        lemma_steps(volume, held, held.flush());
    }
}

/// Writing the dirty flag.
proof fn lemma_flagged(volume: Volume, dirty: bool)
    requires
        volume.laid_out(),
        volume.fits(),
    ensures
        steady(volume, volume.flagged(dirty)),
{
    let after = volume.flagged(dirty);
    lemma_boot_flagged(volume, dirty);
    lemma_copies_same(volume, after);
}

/// Whether the free-space hints are kept where they should be: between the
/// first block and the tables.
pub open spec fn hints_in_place(volume: Volume) -> bool {
    volume.boot.fs_info_sector matches Some(sector) ==> 1 <= sector < volume.boot.fat_start
}

/// Writing the free-space hints.
proof fn lemma_wrote_hints(volume: Volume)
    requires
        volume.laid_out(),
        volume.fits(),
        hints_in_place(volume),
    ensures
        steady(volume, volume.wrote_hints()),
        volume.wrote_hints().table == volume.table,
{
    let after = volume.wrote_hints();
    lemma_looking(volume, volume);
    if volume.boot.fs_info_sector is Some {
        let sector = volume.boot.fs_info_sector->0 as int;
        let read = volume.after_read(sector, 1);
        lemma_looking(volume, read);
        lemma_boot_wrote(read, sector, volume.hints_block(sector));
        let written = read.wrote(sector, volume.hints_block(sector));
        lemma_boot_steps(volume, read, written);
        if after.disk == written.disk {
            lemma_boot_untouched(written, after);
            lemma_boot_steps(volume, written, after);
        }
        lemma_copies_same(volume, after);
    }
}

/// Syncing: after it, the table is on the device as it is in memory.
pub proof fn lemma_synced(volume: Volume)
    requires
        volume.laid_out(),
        volume.fits(),
        hints_in_place(volume),
    ensures
        steady(volume, volume.synced()),
        volume.marked_dirty ==> volume.synced().table == volume.table.flushed(),
        volume.synced().table.entries == volume.table.entries,
        !volume.synced().marked_dirty,
{
    lemma_looking(volume, volume);
    if volume.marked_dirty {
        lemma_flush(volume);
        let flushed = volume.flush();
        storage::lemma_flush(volume);
        lemma_wrote_hints(flushed);
        let hinted = flushed.wrote_hints();
        lemma_steps(volume, flushed, hinted);
        let clean = Volume { marked_dirty: false, ..hinted };
        lemma_looking(hinted, clean);
        lemma_steps(volume, hinted, clean);
        lemma_flagged(clean, false);
        lemma_steps(volume, clean, clean.flagged(false));
    }
}

} // verus!
