//! That calls are only ever added: whatever an operation does to a volume, it
//! starts with the calls that were made before.
use vstd::prelude::*;

use crate::blockdev::Access;
use crate::bytes;
use crate::dir;
use crate::name::StoredView;
use crate::operations;
use crate::operations::FileView;
use crate::table;
use crate::table::Run;
use crate::time::DateTime;
use crate::volume;
use crate::volume::{Edit, Volume};

verus! {

/// Whether some calls are the first of those that are planned.
#[verifier::opaque]
pub open spec fn begins(made: Seq<Access>, planned: Seq<Access>) -> bool {
    &&& made.len() <= planned.len()
    &&& forall|i: int| 0 <= i < made.len() ==> #[trigger] planned[i] == made[i]
}

/// All that is planned begins with itself.
pub proof fn lemma_all(made: Seq<Access>)
    ensures
        begins(made, made),
{
    reveal(begins);
}

/// What begins something that begins something else begins that.
pub proof fn lemma_then(a: Seq<Access>, b: Seq<Access>, c: Seq<Access>)
    requires
        begins(a, b),
        begins(b, c),
    ensures
        begins(a, c),
        a.len() <= b.len() <= c.len(),
{
    reveal(begins);
    assert forall|i: int| 0 <= i < a.len() implies #[trigger] c[i] == a[i] by {
        assert(b[i] == a[i]);
    }
}

/// What begins a part of what is planned, the part that comes first, begins
/// all of it.
pub proof fn lemma_through(made: Seq<Access>, part: Seq<Access>, planned: Seq<Access>)
    requires
        begins(part, planned),
    ensures
        begins(made, part) ==> begins(made, planned),
        part.len() <= planned.len(),
{
    reveal(begins);
    if begins(made, part) {
        lemma_then(made, part, planned);
    }
}

/// More calls go after.
pub proof fn lemma_more(made: Seq<Access>, more: Seq<Access>)
    ensures
        begins(made, made + more),
{
    reveal(begins);
}

/// Where all of what is planned is what was made and the `rest`, the first of
/// the rest may be made.
pub proof fn lemma_step(
    made: Seq<Access>,
    rest: Seq<Access>,
    next: Seq<Access>,
    planned: Seq<Access>,
)
    requires
        made + rest == planned,
        rest.len() > 0,
        next == made.push(rest[0]),
    ensures
        begins(next, planned),
{
    reveal(begins);
    assert forall|i: int| 0 <= i < next.len() implies #[trigger] planned[i] == next[i] by {
        assert((made + rest)[i] == next[i]);
    }
}

/// Reading sectors adds calls.
pub proof fn lemma_after_read(volume: Volume, sector: int, n: int)
    ensures
        begins(volume.history, volume.after_read(sector, n).history),
{
    lemma_more(volume.history, volume.sector_reads(sector, n));
}

/// Setting the dirty flag adds calls.
pub proof fn lemma_flagged(volume: Volume, dirty: bool)
    ensures
        begins(volume.history, volume.flagged(dirty).history),
{
    reveal(begins);
}

/// Marking a volume dirty adds calls, or none.
pub proof fn lemma_marked(volume: Volume)
    ensures
        begins(volume.history, volume.marked().history),
{
    lemma_all(volume.history);
    lemma_flagged(volume, true);
}

/// Writing sectors adds calls.
pub proof fn lemma_wrote(volume: Volume, sector: int, data: Seq<u8>)
    ensures
        begins(volume.history, volume.wrote(sector, data).history),
{
    let marked = volume.marked();
    lemma_marked(volume);
    let more = crate::blockdev::writes(volume.first_block + sector, data, volume.batch());
    lemma_more(marked.history, more);
    lemma_then(volume.history, marked.history, volume.wrote(sector, data).history);
}

/// Changing a part of a block adds calls: those that read it come first.
pub proof fn lemma_patched(volume: Volume, sector: int, skip: int, data: Seq<u8>)
    ensures
        begins(volume.history, volume.patched(sector, skip, data).history),
        begins(
            volume.after_read(sector, 1).history,
            volume.patched(sector, skip, data).history,
        ),
{
    let read = volume.after_read(sector, 1);
    lemma_after_read(volume, sector, 1);
    let block = bytes::splice(volume.sectors(sector, 1), skip, data);
    lemma_wrote(read, sector, block);
    lemma_then(volume.history, read.history, read.wrote(sector, block).history);
}

/// Writing a span adds calls: first those of its first block, then those of
/// the whole blocks, then those of its last block.
pub proof fn lemma_wrote_span(volume: Volume, sector: int, skip: int, data: Seq<u8>)
    ensures
        begins(volume.history, volume.wrote_span(sector, skip, data).history),
        ({
            let planned = volume.wrote_span(sector, skip, data).history;
            let lead = if skip != 0 {
                operations::least(512 - skip, data.len() as int)
            } else {
                0
            };
            let next = if skip != 0 {
                sector + 1
            } else {
                sector
            };
            let rest = data.skip(lead);
            let whole = rest.len() as int / 512;
            let first = if skip != 0 {
                volume.patched(sector, skip, data.take(lead))
            } else {
                volume
            };
            let second = if whole != 0 {
                first.wrote(next, rest.take(512 * whole))
            } else {
                first
            };
            let tail = rest.skip(512 * whole);
            &&& begins(first.history, planned)
            &&& begins(second.history, planned)
            &&& tail.len() != 0 ==> begins(second.patched(next + whole, 0, tail).history, planned)
        }),
{
    reveal(Volume::wrote_span);
    let lead = if skip != 0 {
        operations::least(512 - skip, data.len() as int)
    } else {
        0
    };
    let next = if skip != 0 {
        sector + 1
    } else {
        sector
    };
    let rest = data.skip(lead);
    let whole = rest.len() as int / 512;
    let tail = rest.skip(512 * whole);
    let first = if skip != 0 {
        volume.patched(sector, skip, data.take(lead))
    } else {
        volume
    };
    let second = if whole != 0 {
        first.wrote(next, rest.take(512 * whole))
    } else {
        first
    };
    lemma_all(volume.history);
    lemma_patched(volume, sector, skip, data.take(lead));
    lemma_all(first.history);
    lemma_wrote(first, next, rest.take(512 * whole));
    lemma_then(volume.history, first.history, second.history);
    let last = second.patched(next + whole, 0, tail);
    lemma_patched(second, next + whole, 0, tail);
    lemma_all(second.history);
    lemma_all(last.history);
    lemma_then(first.history, second.history, last.history);
    lemma_then(volume.history, second.history, last.history);
}

/// Writing to runs adds calls, those of the first run first.
pub proof fn lemma_wrote_runs(volume: Volume, runs: Seq<Run>, from: int, data: Seq<u8>)
    ensures
        begins(volume.history, volume.wrote_runs(runs, from, data).history),
        runs.len() > 0 && data.len() > 0 ==> {
            let start = runs[0].file_cluster * volume.cluster_bytes();
            let end = (runs[0].file_cluster + runs[0].clusters) * volume.cluster_bytes();
            from < end ==> begins(
                volume.wrote_span(
                    volume.boot.spec_cluster_sector(runs[0].start_cluster as int) + (from - start)
                        / 512,
                    (from - start) % 512,
                    data.take(operations::least(end - from, data.len() as int)),
                ).history,
                volume.wrote_runs(runs, from, data).history,
            )
        },
    decreases runs.len(),
{
    lemma_all(volume.history);
    if runs.len() > 0 && data.len() > 0 {
        let start = runs[0].file_cluster * volume.cluster_bytes();
        let end = (runs[0].file_cluster + runs[0].clusters) * volume.cluster_bytes();
        if from >= end {
            lemma_wrote_runs(volume, runs.skip(1), from, data);
        } else {
            let take = operations::least(end - from, data.len() as int);
            let sector = volume.boot.spec_cluster_sector(runs[0].start_cluster as int) + (from
                - start) / 512;
            let span = volume.wrote_span(sector, (from - start) % 512, data.take(take));
            lemma_wrote_span(volume, sector, (from - start) % 512, data.take(take));
            lemma_wrote_runs(span, runs.skip(1), from + take, data.skip(take));
            lemma_then(
                volume.history,
                span.history,
                span.wrote_runs(runs.skip(1), from + take, data.skip(take)).history,
            );
        }
    }
}

/// Writing to a chain adds calls.
pub proof fn lemma_write_chain(volume: Volume, first: u32, offset: int, data: Seq<u8>)
    ensures
        begins(volume.history, volume.write_chain(first, offset, data).0.history),
{
    reveal(Volume::write_chain);
    lemma_all(volume.history);
    if volume.table.chain(first) is Ok {
        lemma_wrote_runs(
            volume,
            table::coalesce(volume.table.chain(first)->Ok_0),
            offset,
            data,
        );
    }
}

/// Clearing a part of a chain adds calls, piece by piece.
pub proof fn lemma_zero_chain(volume: Volume, first: u32, from: int, to: int)
    ensures
        begins(volume.history, volume.zero_chain(first, from, to).0.history),
        from < to ==> begins(
            volume.write_chain(
                first,
                from,
                bytes::zeros(operations::least(to - from, 0x1_0000) as nat),
            ).0.history,
            volume.zero_chain(first, from, to).0.history,
        ),
    decreases to - from,
{
    lemma_all(volume.history);
    if from < to {
        let take = operations::least(to - from, 0x1_0000);
        let part = bytes::zeros(take as nat);
        lemma_write_chain(volume, first, from, part);
        let (after, result) = volume.write_chain(first, from, part);
        lemma_all(after.history);
        if result is Ok {
            lemma_zero_chain(after, first, from + take, to);
            lemma_then(
                volume.history,
                after.history,
                after.zero_chain(first, from + take, to).0.history,
            );
        }
    }
}

/// Changing a slot adds calls: the one that reads its block comes first.
pub proof fn lemma_edit_slot(volume: Volume, directory: u32, index: u32, edit: Edit)
    ensures
        begins(volume.history, volume.edit_slot(directory, index, edit).0.history),
        volume.slot_location(directory, index) matches Ok(location) ==> begins(
            volume.after_read(location.0, 1).history,
            volume.edit_slot(directory, index, edit).0.history,
        ),
{
    reveal(Volume::edit_slot);
    lemma_all(volume.history);
    if volume.slot_location(directory, index) is Ok {
        let (sector, offset) = volume.slot_location(directory, index)->Ok_0;
        let block = volume.sectors(sector, 1);
        let changed = bytes::splice(
            block,
            offset,
            edit.applied(block.subrange(offset, offset + 32)),
        );
        let read = volume.after_read(sector, 1);
        lemma_after_read(volume, sector, 1);
        lemma_wrote(read, sector, changed);
        lemma_then(volume.history, read.history, read.wrote(sector, changed).history);
    }
}

/// Writing slots adds calls, block by block.
pub proof fn lemma_write_slots(
    volume: Volume,
    directory: u32,
    index: int,
    entries: Seq<Seq<u8>>,
    block: int,
)
    ensures
        begins(volume.history, volume.write_slots(directory, index, entries, block).0.history),
        16 * block < index + entries.len() ==> (volume.slot_location(
            directory,
            (16 * block) as u32,
        ) matches Ok(location) ==> {
            let read = volume.after_read(location.0, 1);
            let data = volume.filled_block(location.0, block, index, entries);
            let planned = volume.write_slots(directory, index, entries, block).0.history;
            &&& begins(read.history, planned)
            &&& begins(read.wrote(location.0, data).history, planned)
        }),
    decreases index + entries.len() + 16 - 16 * block,
{
    lemma_all(volume.history);
    if 16 * block < index + entries.len() && volume.slot_location(
        directory,
        (16 * block) as u32,
    ) is Ok {
        let sector = volume.slot_location(directory, (16 * block) as u32)->Ok_0.0;
        let data = volume.filled_block(sector, block, index, entries);
        let read = volume.after_read(sector, 1);
        let next = read.wrote(sector, data);
        lemma_after_read(volume, sector, 1);
        lemma_wrote(read, sector, data);
        lemma_then(volume.history, read.history, next.history);
        lemma_write_slots(next, directory, index, entries, block + 1);
        let last = next.write_slots(directory, index, entries, block + 1).0;
        lemma_then(read.history, next.history, last.history);
        lemma_then(volume.history, next.history, last.history);
    }
}

/// Deleting slots adds calls, those of the last slot first.
pub proof fn lemma_delete_down(volume: Volume, directory: u32, first: u32, last: u32)
    ensures
        begins(volume.history, volume.delete_down(directory, first, last).0.history),
        begins(
            volume.edit_slot(directory, last, Edit::Delete).0.history,
            volume.delete_down(directory, first, last).0.history,
        ),
    decreases last,
{
    lemma_edit_slot(volume, directory, last, Edit::Delete);
    let (edited, result) = volume.edit_slot(directory, last, Edit::Delete);
    lemma_all(edited.history);
    if result is Ok && last > first {
        lemma_delete_down(edited, directory, first, (last - 1) as u32);
        lemma_then(
            volume.history,
            edited.history,
            edited.delete_down(directory, first, (last - 1) as u32).0.history,
        );
    }
}

/// Writing copies of the table adds calls, copy by copy.
pub proof fn lemma_wrote_copies(volume: Volume, stretch: (u32, u32), copies: int)
    ensures
        begins(volume.history, volume.wrote_copies(stretch, copies).history),
        0 <= copies ==> begins(
            volume.wrote_copies(stretch, copies).history,
            volume.wrote_copies(stretch, copies + 1).history,
        ),
    decreases copies,
{
    lemma_all(volume.history);
    let written = volume.wrote_copies(stretch, copies);
    if copies > 0 {
        lemma_wrote_copies(volume, stretch, copies - 1);
        lemma_then(
            volume.history,
            volume.wrote_copies(stretch, copies - 1).history,
            written.history,
        );
    }
    if 0 <= copies {
        lemma_wrote(
            written,
            volume.table.fat_start + copies * volume.table.sectors_per_fat + stretch.0,
            volume::stretch_bytes(volume.table.entries, stretch.0 as int, stretch.1 as int),
        );
    }
}

/// Some of the copies come before all of them.
pub proof fn lemma_some_copies(volume: Volume, stretch: (u32, u32), some: int, copies: int)
    requires
        0 <= some <= copies,
    ensures
        begins(
            volume.wrote_copies(stretch, some).history,
            volume.wrote_copies(stretch, copies).history,
        ),
    decreases copies - some,
{
    if some == copies {
        lemma_all(volume.wrote_copies(stretch, some).history);
    } else {
        lemma_wrote_copies(volume, stretch, some);
        lemma_some_copies(volume, stretch, some + 1, copies);
        lemma_then(
            volume.wrote_copies(stretch, some).history,
            volume.wrote_copies(stretch, some + 1).history,
            volume.wrote_copies(stretch, copies).history,
        );
    }
}

/// Writing stretches of the table adds calls.
pub proof fn lemma_wrote_stretches(volume: Volume, stretches: Seq<(u32, u32)>)
    ensures
        begins(volume.history, volume.wrote_stretches(stretches).history),
    decreases stretches.len(),
{
    lemma_all(volume.history);
    if stretches.len() > 0 {
        let before = volume.wrote_stretches(stretches.drop_last());
        lemma_wrote_stretches(volume, stretches.drop_last());
        let copies = volume.table.fat_count as int;
        lemma_wrote_copies(before, stretches.last(), copies);
        lemma_then(
            volume.history,
            before.history,
            before.wrote_copies(stretches.last(), copies).history,
        );
    }
}

/// Some of the stretches come before all of them.
pub proof fn lemma_some_stretches(volume: Volume, stretches: Seq<(u32, u32)>, some: int)
    requires
        0 <= some <= stretches.len(),
    ensures
        begins(
            volume.wrote_stretches(stretches.take(some)).history,
            volume.wrote_stretches(stretches).history,
        ),
    decreases stretches.len(),
{
    if some == stretches.len() {
        assert(stretches.take(some) =~= stretches);
        lemma_all(volume.wrote_stretches(stretches).history);
    } else {
        let fewer = stretches.drop_last();
        lemma_some_stretches(volume, fewer, some);
        assert(fewer.take(some) =~= stretches.take(some));
        let before = volume.wrote_stretches(fewer);
        let copies = volume.table.fat_count as int;
        lemma_wrote_copies(before, stretches.last(), copies);
        lemma_then(
            volume.wrote_stretches(stretches.take(some)).history,
            before.history,
            volume.wrote_stretches(stretches).history,
        );
    }
}

/// Writing what has changed of the table adds calls, or none.
pub proof fn lemma_flush(volume: Volume)
    ensures
        begins(volume.history, volume.flush().history),
{
    reveal(Volume::flush);
    lemma_wrote_stretches(
        volume,
        table::dirty_stretches(volume.table.dirty, volume.table.dirty.len() as int),
    );
}

/// Writing the hints adds calls: the one that reads their block comes first.
pub proof fn lemma_wrote_hints(volume: Volume)
    ensures
        begins(volume.history, volume.wrote_hints().history),
        volume.boot.fs_info_sector matches Some(sector) ==> begins(
            volume.after_read(sector as int, 1).history,
            volume.wrote_hints().history,
        ),
{
    lemma_all(volume.history);
    if volume.boot.fs_info_sector is Some {
        let sector = volume.boot.fs_info_sector->0 as int;
        let read = volume.after_read(sector, 1);
        let block = volume.hints_block(sector);
        lemma_after_read(volume, sector, 1);
        lemma_all(read.history);
        lemma_wrote(read, sector, block);
        lemma_then(volume.history, read.history, read.wrote(sector, block).history);
    }
}

/// Syncing adds calls: those for the table come first, then those for the
/// hints.
pub proof fn lemma_synced(volume: Volume)
    ensures
        begins(volume.history, volume.synced().history),
        volume.marked_dirty ==> begins(volume.flush().history, volume.synced().history),
        volume.marked_dirty ==> begins(
            volume.flush().wrote_hints().history,
            volume.synced().history,
        ),
{
    lemma_all(volume.history);
    let flushed = volume.flush();
    lemma_flush(volume);
    let hinted = flushed.wrote_hints();
    lemma_wrote_hints(flushed);
    lemma_flagged(Volume { marked_dirty: false, ..hinted }, false);
    let last = Volume { marked_dirty: false, ..hinted }.flagged(false);
    lemma_then(flushed.history, hinted.history, last.history);
    lemma_then(volume.history, flushed.history, last.history);
}

/// The reads of some runs come before those of all of them.
pub proof fn lemma_some_runs(volume: Volume, runs: Seq<Run>, some: int)
    requires
        0 <= some <= runs.len(),
    ensures
        begins(
            volume.history + volume.run_reads(runs.take(some)),
            volume.history + volume.run_reads(runs),
        ),
    decreases runs.len(),
{
    if some == runs.len() {
        assert(runs.take(some) =~= runs);
        lemma_all(volume.history + volume.run_reads(runs));
    } else {
        let fewer = runs.drop_last();
        lemma_some_runs(volume, fewer, some);
        assert(fewer.take(some) =~= runs.take(some));
        let more = volume.sector_reads(
            volume.boot.spec_cluster_sector(runs.last().start_cluster as int),
            runs.last().clusters * volume.boot.sectors_per_cluster,
        );
        assert(volume.history + volume.run_reads(runs) =~= (volume.history + volume.run_reads(
            fewer,
        )) + more);
        lemma_more(volume.history + volume.run_reads(fewer), more);
        lemma_then(
            volume.history + volume.run_reads(runs.take(some)),
            volume.history + volume.run_reads(fewer),
            volume.history + volume.run_reads(runs),
        );
    }
}

/// Reading a chain adds calls.
pub proof fn lemma_read_chain(volume: Volume, start: u32)
    ensures
        begins(volume.history, volume.read_chain(start).0.history),
{
    lemma_all(volume.history);
    if volume.table.chain(start) is Ok {
        lemma_more(
            volume.history,
            volume.run_reads(table::coalesce(volume.table.chain(start)->Ok_0)),
        );
    }
}

/// Reading a directory adds calls, or none.
pub proof fn lemma_read_dir(volume: Volume, cluster: u32)
    ensures
        begins(volume.history, volume.read_dir(cluster).0.history),
{
    reveal(Volume::read_dir);
    lemma_all(volume.history);
    lemma_read_chain(volume, cluster);
}

/// Following a path adds calls, those of the first directory first.
pub proof fn lemma_resolve(volume: Volume, cluster: u32, path: Seq<char>)
    ensures
        begins(volume.history, volume.resolve(cluster, path).0.history),
        ({
            let name = volume::first_component(path);
            path.len() > 0 && name.len() > 0 && name != seq!['.'] ==> begins(
                volume.read_dir(cluster).0.history,
                volume.resolve(cluster, path).0.history,
            )
        }),
    decreases path.len(),
{
    let name = volume::first_component(path);
    let rest = volume::after_component(path);
    lemma_all(volume.history);
    if path.len() > 0 {
        if name.len() == 0 || name =~= seq!['.'] {
            lemma_resolve(volume, cluster, rest);
        } else {
            lemma_read_dir(volume, cluster);
            let (entered, result) = volume.enter(cluster, name);
            lemma_all(entered.history);
            if result is Ok {
                lemma_resolve(entered, result->Ok_0, rest);
                lemma_then(
                    volume.history,
                    entered.history,
                    entered.resolve(result->Ok_0, rest).0.history,
                );
            }
        }
    }
}

/// Opening a directory adds calls: those that find it come first.
pub proof fn lemma_open_dir(volume: Volume, path: Seq<char>)
    ensures
        begins(volume.history, volume.open_dir(path).0.history),
        begins(
            volume.resolve(volume.boot.root_cluster, path).0.history,
            volume.open_dir(path).0.history,
        ),
{
    let root = volume.boot.root_cluster;
    lemma_resolve(volume, root, path);
    let (resolved, result) = volume.resolve(root, path);
    lemma_all(resolved.history);
    if result is Ok {
        lemma_read_dir(resolved, result->Ok_0);
        lemma_then(
            volume.history,
            resolved.history,
            resolved.read_dir(result->Ok_0).0.history,
        );
    }
}

/// Looking a path up adds calls: those that find its parent come first.
pub proof fn lemma_look_up(volume: Volume, path: Seq<char>)
    ensures
        begins(volume.history, volume.look_up(path).0.history),
        begins(
            volume.resolve(
                volume.boot.root_cluster,
                operations::parent_of(path),
            ).0.history,
            volume.look_up(path).0.history,
        ),
{
    reveal(Volume::look_up);
    let root = volume.boot.root_cluster;
    lemma_resolve(volume, root, operations::parent_of(path));
    let (resolved, result) = volume.resolve(root, operations::parent_of(path));
    lemma_all(resolved.history);
    if result is Ok {
        lemma_read_dir(resolved, result->Ok_0);
        lemma_then(
            volume.history,
            resolved.history,
            resolved.read_dir(result->Ok_0).0.history,
        );
    }
}

/// Opening a file makes the calls of looking it up.
pub proof fn lemma_open(volume: Volume, path: Seq<char>)
    ensures
        begins(volume.history, volume.open(path).0.history),
        volume.open(path).0 == volume.look_up(path).0,
{
    reveal(Volume::open);
    lemma_look_up(volume, path);
}

/// Checking a handle adds calls, or none.
pub proof fn lemma_check_live(volume: Volume, file: FileView)
    ensures
        begins(volume.history, volume.check_live(file).0.history),
{
    reveal(Volume::check_live);
    lemma_all(volume.history);
    lemma_read_dir(volume, file.directory);
}

/// Choosing the form of a name adds calls, or none.
pub proof fn lemma_plan_name(volume: Volume, directory: u32, name: Seq<char>)
    ensures
        begins(volume.history, volume.plan_name(directory, name).0.history),
{
    reveal(Volume::plan_name);
    lemma_read_dir(volume, directory);
}

/// Growing a directory adds calls.
pub proof fn lemma_grow_directory(volume: Volume, directory: u32)
    ensures
        begins(volume.history, volume.grow_directory(directory).0.history),
{
    reveal(Volume::grow_directory);
    lemma_all(volume.history);
    if volume.table.chain(directory) is Ok && volume.table.allocated(1).1 is Ok {
        let (table, result) = volume.table.allocated(1);
        lemma_wrote(
            Volume { table, ..volume },
            volume.boot.spec_cluster_sector(result->Ok_0[0] as int),
            bytes::zeros(volume.cluster_bytes() as nat),
        );
    }
}

/// Finding room adds calls: those that read the directory come first, then
/// those that make it grow.
pub proof fn lemma_find_room(volume: Volume, directory: u32, count: u32, attempts: int)
    ensures
        begins(volume.history, volume.find_room(directory, count, attempts).0.history),
        begins(
            volume.read_dir(directory).0.history,
            volume.find_room(directory, count, attempts).0.history,
        ),
        ({
            let (read, result) = volume.read_dir(directory);
            result is Ok && result->Ok_0.room_for(count) is None && attempts > 0 ==> begins(
                read.grow_directory(directory).0.history,
                volume.find_room(directory, count, attempts).0.history,
            )
        }),
    decreases attempts,
{
    lemma_read_dir(volume, directory);
    let (read, result) = volume.read_dir(directory);
    lemma_all(read.history);
    if result is Ok && result->Ok_0.room_for(count) is None && attempts > 0 {
        let (grown, result) = read.grow_directory(directory);
        lemma_grow_directory(read, directory);
        lemma_then(volume.history, read.history, grown.history);
        lemma_all(grown.history);
        if result is Ok {
            lemma_find_room(grown, directory, count, attempts - 1);
            let last = grown.find_room(directory, count, attempts - 1).0;
            lemma_then(read.history, grown.history, last.history);
            lemma_then(volume.history, grown.history, last.history);
        }
    }
}

/// Writing an entry adds calls: those for the table come first.
pub proof fn lemma_publish(
    volume: Volume,
    directory: u32,
    stored: StoredView,
    entry: Seq<u8>,
    first: u32,
    index: u32,
)
    ensures
        begins(
            volume.history,
            volume.publish(directory, stored, entry, first, index).0.history,
        ),
        begins(
            volume.flush().history,
            volume.publish(directory, stored, entry, first, index).0.history,
        ),
{
    reveal(Volume::publish);
    let entries = stored.slots.push(entry);
    let flushed = volume.flush();
    lemma_flush(volume);
    lemma_write_slots(flushed, directory, index as int, entries, index as int / 16);
    lemma_then(
        volume.history,
        flushed.history,
        flushed.put_slots(directory, index, entries).0.history,
    );
}

/// Putting a new entry in its directory adds calls: those that find room come
/// first.
pub proof fn lemma_create_with(
    volume: Volume,
    directory: u32,
    stored: StoredView,
    first: u32,
    now: DateTime,
)
    ensures
        begins(
            volume.history,
            volume.create_with(directory, stored, first, now).0.history,
        ),
        begins(
            volume.find_room(
                directory,
                (stored.slots.len() + 1) as u32,
                crate::fs::MAX_DIRECTORY_GROWTH as int,
            ).0.history,
            volume.create_with(directory, stored, first, now).0.history,
        ),
{
    reveal(Volume::create_with);
    let count = (stored.slots.len() + 1) as u32;
    let attempts = crate::fs::MAX_DIRECTORY_GROWTH as int;
    lemma_find_room(volume, directory, count, attempts);
    let (roomy, result) = volume.find_room(directory, count, attempts);
    lemma_all(roomy.history);
    if result is Ok {
        let entry = crate::dir::entry_bytes(stored.short, 0x20, first, 0, now);
        lemma_publish(roomy, directory, stored, entry, first, result->Ok_0);
        lemma_then(
            volume.history,
            roomy.history,
            roomy.publish(directory, stored, entry, first, result->Ok_0).0.history,
        );
    }
}

/// Making a directory adds calls: those that find room for its entry come
/// first, then those that fill its cluster.
pub proof fn lemma_create_dir_with(
    volume: Volume,
    parent: u32,
    stored: StoredView,
    cluster: u32,
    now: DateTime,
)
    ensures
        begins(
            volume.history,
            volume.create_dir_with(parent, stored, cluster, now).0.history,
        ),
        ({
            let planned = volume.create_dir_with(parent, stored, cluster, now).0.history;
            let (roomy, result) = volume.find_room(
                parent,
                (stored.slots.len() + 1) as u32,
                crate::fs::MAX_DIRECTORY_GROWTH as int,
            );
            &&& begins(roomy.history, planned)
            &&& result is Ok ==> begins(
                roomy.wrote(
                    volume.boot.spec_cluster_sector(cluster as int),
                    volume.new_directory(cluster, parent, now),
                ).history,
                planned,
            )
        }),
{
    reveal(Volume::create_dir_with);
    let count = (stored.slots.len() + 1) as u32;
    let attempts = crate::fs::MAX_DIRECTORY_GROWTH as int;
    lemma_find_room(volume, parent, count, attempts);
    let (roomy, result) = volume.find_room(parent, count, attempts);
    lemma_all(roomy.history);
    if result is Ok {
        let sector = volume.boot.spec_cluster_sector(cluster as int);
        let data = volume.new_directory(cluster, parent, now);
        let filled = roomy.wrote(sector, data);
        lemma_wrote(roomy, sector, data);
        let entry = crate::dir::entry_bytes(stored.short, 0x10, cluster, 0, now);
        lemma_publish(filled, parent, stored, entry, cluster, result->Ok_0);
        let last = filled.publish(parent, stored, entry, cluster, result->Ok_0).0;
        lemma_then(roomy.history, filled.history, last.history);
        lemma_then(volume.history, roomy.history, last.history);
    }
}

/// Giving a chain back adds calls, or none.
pub proof fn lemma_free_chain(volume: Volume, first: u32)
    ensures
        begins(volume.history, volume.free_chain(first).0.history),
{
    reveal(Volume::free_chain);
    lemma_all(volume.history);
    lemma_flush(Volume { table: volume.table.freed(first).0, ..volume });
}

/// Making sure of a file's clusters adds calls: those for the table come
/// first.
pub proof fn lemma_reserve(volume: Volume, file: FileView, size: u32, now: DateTime)
    ensures
        begins(volume.history, volume.reserve(file, size, now).0.history),
        ({
            let wanted = operations::clusters_for(size as int, volume.cluster_bytes());
            let (table, result) = volume.table.allocated(wanted as u32);
            wanted != 0 && file.first_cluster == 0 && result is Ok ==> begins(
                Volume { table, ..volume }.flush().history,
                volume.reserve(file, size, now).0.history,
            )
        }),
{
    reveal(Volume::reserve);
    lemma_all(volume.history);
    let wanted = operations::clusters_for(size as int, volume.cluster_bytes());
    if wanted != 0 && file.first_cluster == 0 {
        let (table, result) = volume.table.allocated(wanted as u32);
        let held = Volume { table, ..volume };
        let edit = Edit::Update { first_cluster: result->Ok_0[0], size: file.size, at: now };
        lemma_flush(held);
        lemma_edit_slot(held.flush(), file.directory, file.index, edit);
        lemma_then(
            volume.history,
            held.flush().history,
            held.flush().edit_slot(file.directory, file.index, edit).0.history,
        );
    } else if wanted != 0 && volume.table.chain(file.first_cluster) is Ok {
        let clusters = volume.table.chain(file.first_cluster)->Ok_0;
        let table = volume.table.appended(
            clusters.last(),
            (wanted - clusters.len()) as u32,
        ).0;
        lemma_flush(Volume { table, ..volume });
    }
}

/// Writing to a live file adds calls: those that make sure of its clusters come
/// first, then those that clear the gap, then those that write the data.
pub proof fn lemma_write_live(
    volume: Volume,
    file: FileView,
    offset: int,
    data: Seq<u8>,
    now: DateTime,
)
    ensures
        begins(
            volume.history,
            volume.write_live(file, offset, data, now).0.history,
        ),
        ({
            let planned = volume.write_live(file, offset, data, now).0.history;
            let (reserved, moved, result) = volume.reserve(
                file,
                (offset + data.len()) as u32,
                now,
            );
            let (zeroed, zeroing) = if offset > moved.size {
                reserved.zero_chain(moved.first_cluster, moved.size as int, offset)
            } else {
                (reserved, Ok(()))
            };
            &&& begins(reserved.history, planned)
            &&& result is Ok ==> begins(zeroed.history, planned)
            &&& result is Ok && zeroing is Ok ==> begins(
                zeroed.write_chain(moved.first_cluster, offset, data).0.history,
                planned,
            )
        }),
{
    reveal(Volume::write_live);
    let planned = volume.write_live(file, offset, data, now).0.history;
    let end = offset + data.len();
    lemma_reserve(volume, file, end as u32, now);
    let (reserved, moved, result) = volume.reserve(file, end as u32, now);
    lemma_all(reserved.history);
    if result is Ok {
        let (zeroed, result) = if offset > moved.size {
            reserved.zero_chain(moved.first_cluster, moved.size as int, offset)
        } else {
            (reserved, Ok(()))
        };
        lemma_zero_chain(reserved, moved.first_cluster, moved.size as int, offset);
        lemma_all(zeroed.history);
        if result is Ok {
            let (written, result) = zeroed.write_chain(moved.first_cluster, offset, data);
            lemma_write_chain(zeroed, moved.first_cluster, offset, data);
            lemma_all(written.history);
            if result is Ok && end > moved.size {
                let edit = Edit::Update {
                    first_cluster: moved.first_cluster,
                    size: end as u32,
                    at: now,
                };
                lemma_edit_slot(written, moved.directory, moved.index, edit);
            }
            lemma_then(zeroed.history, written.history, planned);
        }
        lemma_then(reserved.history, zeroed.history, planned);
    }
    lemma_then(volume.history, reserved.history, planned);
}

/// Changing a file's length adds calls: those that check its handle come
/// first, then those that make a longer file's clusters ready, or that record
/// a shorter one's length.
pub proof fn lemma_truncate(volume: Volume, file: FileView, size: u32, now: DateTime)
    ensures
        begins(volume.history, volume.truncate(file, size, now).0.history),
        begins(
            volume.check_live(file).0.history,
            volume.truncate(file, size, now).0.history,
        ),
        volume.check_live(file).1 is Ok && size > file.size ==> ({
            let planned = volume.truncate(file, size, now).0.history;
            let live = volume.check_live(file).0;
            let (reserved, moved, result) = live.reserve(file, size, now);
            let (zeroed, zeroing) = reserved.zero_chain(
                moved.first_cluster,
                moved.size as int,
                size as int,
            );
            &&& begins(reserved.history, planned)
            &&& result is Ok ==> begins(zeroed.history, planned)
        }),
        volume.check_live(file).1 is Ok && size < file.size ==> ({
            let planned = volume.truncate(file, size, now).0.history;
            let first = if operations::clusters_for(size as int, volume.cluster_bytes()) == 0 {
                0
            } else {
                file.first_cluster
            };
            let edit = Edit::Update { first_cluster: first, size, at: now };
            begins(
                volume.check_live(file).0.edit_slot(file.directory, file.index, edit).0.history,
                planned,
            )
        }),
{
    let planned = volume.truncate(file, size, now).0.history;
    lemma_check_live(volume, file);
    let (live, result) = volume.check_live(file);
    lemma_all(live.history);
    if result is Ok && size > file.size {
        lemma_reserve(live, file, size, now);
        let (reserved, moved, result) = live.reserve(file, size, now);
        lemma_all(reserved.history);
        if result is Ok {
            let (from, to) = (moved.size as int, size as int);
            lemma_zero_chain(reserved, moved.first_cluster, from, to);
            let (zeroed, result) = reserved.zero_chain(moved.first_cluster, from, to);
            lemma_all(zeroed.history);
            if result is Ok {
                let edit = Edit::Update { first_cluster: moved.first_cluster, size, at: now };
                lemma_edit_slot(zeroed, moved.directory, moved.index, edit);
            }
            lemma_then(reserved.history, zeroed.history, planned);
        }
        lemma_then(live.history, reserved.history, planned);
    } else if result is Ok && size < file.size {
        let keep = operations::clusters_for(size as int, volume.cluster_bytes());
        let first = if keep == 0 {
            0
        } else {
            file.first_cluster
        };
        let edit = Edit::Update { first_cluster: first, size, at: now };
        lemma_edit_slot(live, file.directory, file.index, edit);
        let recorded = live.edit_slot(file.directory, file.index, edit).0;
        lemma_all(recorded.history);
        let table = recorded.table.shortened(file.first_cluster, keep as u32).0;
        lemma_flush(Volume { table, ..recorded });
        lemma_then(live.history, recorded.history, planned);
    }
    lemma_then(volume.history, live.history, planned);
}

/// Writing to a file adds calls: those that check its handle come first.
pub proof fn lemma_write_file_at(
    volume: Volume,
    file: FileView,
    offset: int,
    data: Seq<u8>,
    now: DateTime,
)
    ensures
        begins(
            volume.history,
            volume.write_file_at(file, offset, data, now).0.history,
        ),
        begins(
            volume.check_live(file).0.history,
            volume.write_file_at(file, offset, data, now).0.history,
        ),
{
    lemma_all(volume.history);
    lemma_check_live(volume, file);
    let live = volume.check_live(file).0;
    lemma_all(live.history);
    lemma_write_live(live, file, offset, data, now);
    lemma_then(
        volume.history,
        live.history,
        live.write_live(file, offset, data, now).0.history,
    );
}

/// Removing a file adds calls: those that find it come first, then those that
/// delete its entry.
pub proof fn lemma_remove(volume: Volume, path: Seq<char>)
    ensures
        begins(volume.history, volume.remove(path).0.history),
        begins(volume.open(path).0.history, volume.remove(path).0.history),
        volume.open(path).1 matches Ok(file) ==> begins(
            volume.open(path).0.delete_slots(
                file.directory,
                file.first_slot,
                file.index,
            ).0.history,
            volume.remove(path).0.history,
        ),
{
    lemma_open(volume, path);
    let (opened, result) = volume.open(path);
    lemma_all(opened.history);
    if result is Ok {
        let file = result->Ok_0;
        let deleted = opened.delete_slots(file.directory, file.first_slot, file.index).0;
        lemma_delete_down(
            opened.counted(file.directory),
            file.directory,
            file.first_slot,
            file.index,
        );
        lemma_all(deleted.history);
        lemma_free_chain(deleted, file.first_cluster);
        lemma_then(opened.history, deleted.history, volume.remove(path).0.history);
    }
    lemma_then(volume.history, opened.history, volume.remove(path).0.history);
}

/// Creating a file adds calls: those that find its directory come first, then
/// those that choose its name.
pub proof fn lemma_create(volume: Volume, path: Seq<char>, size: u32, now: DateTime)
    ensures
        begins(volume.history, volume.create(path, size, now).0.history),
        begins(
            volume.resolve(
                volume.boot.root_cluster,
                operations::parent_of(path),
            ).0.history,
            volume.create(path, size, now).0.history,
        ),
        volume.resolve(
            volume.boot.root_cluster,
            operations::parent_of(path),
        ).1 matches Ok(directory) ==> begins(
            volume.resolve(
                volume.boot.root_cluster,
                operations::parent_of(path),
            ).0.plan_name(directory, operations::name_of(path)).0.history,
            volume.create(path, size, now).0.history,
        ),
{
    let root = volume.boot.root_cluster;
    let (resolved, result) = volume.resolve(root, operations::parent_of(path));
    lemma_resolve(volume, root, operations::parent_of(path));
    lemma_all(resolved.history);
    if result is Ok {
        let directory = result->Ok_0;
        lemma_plan_name(resolved, directory, operations::name_of(path));
        let (planned, result) = resolved.plan_name(directory, operations::name_of(path));
        lemma_all(planned.history);
        if result is Ok {
            let count = operations::clusters_for(size as int, volume.cluster_bytes()) as u32;
            let (table, taken) = planned.table.allocated(count);
            let first = if taken->Ok_0.len() > 0 {
                taken->Ok_0[0]
            } else {
                0
            };
            lemma_create_with(
                Volume { table, ..planned },
                directory,
                result->Ok_0,
                first,
                now,
            );
        }
        lemma_then(
            resolved.history,
            planned.history,
            volume.create(path, size, now).0.history,
        );
    }
    lemma_then(volume.history, resolved.history, volume.create(path, size, now).0.history);
}

/// The calls of a span come one after another: its first block's, those of
/// the whole blocks, and its last block's.
pub proof fn lemma_span_reads(volume: Volume, sector: int, skip: int, n: int)
    ensures
        ({
            let planned = volume.history + volume.span_reads(sector, skip, n);
            let lead = if skip != 0 {
                operations::least(512 - skip, n)
            } else {
                0
            };
            let next = if skip != 0 {
                sector + 1
            } else {
                sector
            };
            let whole = (n - lead) / 512;
            let first = if skip != 0 {
                volume.after_read(sector, 1)
            } else {
                volume
            };
            let middle = if whole != 0 {
                first.after_read(next, whole)
            } else {
                first
            };
            &&& begins(first.history, planned)
            &&& begins(middle.history, planned)
            &&& (n - lead) % 512 != 0 ==> begins(middle.after_read(next + whole, 1).history, planned)
        }),
{
    reveal(Volume::span_reads);
    let planned = volume.history + volume.span_reads(sector, skip, n);
    let lead = if skip != 0 {
        operations::least(512 - skip, n)
    } else {
        0
    };
    let next = if skip != 0 {
        sector + 1
    } else {
        sector
    };
    let whole = (n - lead) / 512;
    let first = if skip != 0 {
        volume.after_read(sector, 1)
    } else {
        volume
    };
    let middle = if whole != 0 {
        first.after_read(next, whole)
    } else {
        first
    };
    let last = if (n - lead) % 512 != 0 {
        volume.sector_reads(next + whole, 1)
    } else {
        Seq::empty()
    };
    lemma_all(first.history);
    lemma_after_read(first, next, whole);
    lemma_more(middle.history, last);
    assert(planned =~= middle.history + last);
    lemma_then(first.history, middle.history, planned);
    lemma_all(planned);
}

/// The calls of a chain's first run come before those of the others.
pub proof fn lemma_chain_reads(volume: Volume, runs: Seq<Run>, from: int, n: int)
    requires
        runs.len() > 0,
        n > 0,
        from < (runs[0].file_cluster + runs[0].clusters) * volume.cluster_bytes(),
    ensures
        ({
            let start = runs[0].file_cluster * volume.cluster_bytes();
            let end = (runs[0].file_cluster + runs[0].clusters) * volume.cluster_bytes();
            begins(
                volume.history + volume.span_reads(
                    volume.boot.spec_cluster_sector(runs[0].start_cluster as int) + (from - start)
                        / 512,
                    (from - start) % 512,
                    operations::least(end - from, n),
                ),
                volume.history + volume.chain_reads(runs, from, n),
            )
        }),
{
    let start = runs[0].file_cluster * volume.cluster_bytes();
    let end = (runs[0].file_cluster + runs[0].clusters) * volume.cluster_bytes();
    let take = operations::least(end - from, n);
    let span = volume.span_reads(
        volume.boot.spec_cluster_sector(runs[0].start_cluster as int) + (from - start) / 512,
        (from - start) % 512,
        take,
    );
    let rest = volume.chain_reads(runs.skip(1), from + take, n - take);
    lemma_more(volume.history + span, rest);
    assert(volume.history + volume.chain_reads(runs, from, n) =~= (volume.history + span) + rest);
}

/// Reading a file adds calls: those that check its handle come first.
pub proof fn lemma_read_file(volume: Volume, file: FileView, offset: int, length: int)
    ensures
        begins(volume.history, volume.read_file(file, offset, length).0.history),
        begins(
            volume.check_live(file).0.history,
            volume.read_file(file, offset, length).0.history,
        ),
{
    lemma_all(volume.history);
    lemma_check_live(volume, file);
    let live = volume.check_live(file).0;
    lemma_all(live.history);
    let reads = live.chain_reads(
        table::coalesce(volume.table.chain(file.first_cluster)->Ok_0),
        offset,
        operations::least(length, file.size - offset),
    );
    lemma_more(live.history, reads);
    lemma_then(volume.history, live.history, live.history + reads);
}

/// Reading a whole file adds calls: those that check its handle come first.
pub proof fn lemma_read_whole(volume: Volume, file: FileView)
    ensures
        begins(volume.history, volume.read_whole(file).0.history),
        begins(
            volume.check_live(file).0.history,
            volume.read_whole(file).0.history,
        ),
{
    lemma_all(volume.history);
    lemma_check_live(volume, file);
    let live = volume.check_live(file).0;
    lemma_all(live.history);
    let reads = live.chain_reads(
        table::coalesce(volume.table.chain(file.first_cluster)->Ok_0),
        0,
        operations::padded(file.size as int),
    );
    lemma_more(live.history, reads);
    lemma_then(volume.history, live.history, live.history + reads);
}

/// Creating a directory adds calls: those that find its parent come first,
/// then those that choose its name.
pub proof fn lemma_create_dir(volume: Volume, path: Seq<char>, now: DateTime)
    ensures
        begins(volume.history, volume.create_dir(path, now).0.history),
        ({
            let planned = volume.create_dir(path, now).0.history;
            let (resolved, result) = volume.resolve(
                volume.boot.root_cluster,
                operations::parent_of(path),
            );
            &&& begins(resolved.history, planned)
            &&& result matches Ok(parent) ==> begins(
                resolved.plan_name(parent, operations::name_of(path)).0.history,
                planned,
            )
        }),
{
    let planned = volume.create_dir(path, now).0.history;
    let root = volume.boot.root_cluster;
    let (resolved, result) = volume.resolve(root, operations::parent_of(path));
    lemma_resolve(volume, root, operations::parent_of(path));
    lemma_all(resolved.history);
    if result is Ok {
        let parent = result->Ok_0;
        lemma_plan_name(resolved, parent, operations::name_of(path));
        let (named, result) = resolved.plan_name(parent, operations::name_of(path));
        lemma_all(named.history);
        if result is Ok {
            let (table, taken) = named.table.allocated(1);
            lemma_create_dir_with(
                Volume { table, ..named },
                parent,
                result->Ok_0,
                taken->Ok_0[0],
                now,
            );
        }
        lemma_then(resolved.history, named.history, planned);
    }
    lemma_then(volume.history, resolved.history, planned);
}

/// Removing a directory adds calls: those that find it come first, then those
/// that read it, then those that delete its entry.
pub proof fn lemma_remove_dir(volume: Volume, path: Seq<char>)
    ensures
        begins(volume.history, volume.remove_dir(path).0.history),
        !operations::is_root(path) ==> begins(
            volume.look_up(operations::plain(path)).0.history,
            volume.remove_dir(path).0.history,
        ),
        volume.look_up(operations::plain(path)).1 matches Ok((parent, entry))
            ==> entry.is_directory() && !dir::is_dots(entry.name()) && !operations::is_root(path)
            ==> ({
            let planned = volume.remove_dir(path).0.history;
            let (read, result) = volume.look_up(operations::plain(path)).0.read_dir(entry.first_cluster);
            &&& begins(read.history, planned)
            &&& result matches Ok(listing) ==> listing.is_vacant() ==> begins(
                read.delete_slots(parent, entry.first_slot, entry.index).0.history,
                planned,
            )
        }),
{
    let planned = volume.remove_dir(path).0.history;
    let plain = operations::plain(path);
    lemma_all(volume.history);
    lemma_look_up(volume, plain);
    let (found, result) = volume.look_up(plain);
    lemma_all(found.history);
    if !operations::is_root(path) && result is Ok && result->Ok_0.1.is_directory() && !dir::is_dots(result->Ok_0.1.name()) {
        let (parent, entry) = result->Ok_0;
        lemma_read_dir(found, entry.first_cluster);
        let (read, result) = found.read_dir(entry.first_cluster);
        lemma_all(read.history);
        if result is Ok && result->Ok_0.is_vacant() {
            let (first, last) = (entry.first_slot, entry.index);
            let deleted = read.delete_slots(parent, first, last).0;
            lemma_delete_down(read.counted(parent), parent, first, last);
            lemma_all(deleted.history);
            lemma_free_chain(deleted, entry.first_cluster);
            lemma_then(read.history, deleted.history, planned);
        }
        lemma_then(found.history, read.history, planned);
    }
    if !operations::is_root(path) {
        lemma_then(volume.history, found.history, planned);
    }
}

/// Replacing a file adds calls: those that remove the old one come first, then
/// those that create the new one.
pub proof fn lemma_replace_file(
    volume: Volume,
    path: Seq<char>,
    data: Seq<u8>,
    found: bool,
    created: DateTime,
    written: DateTime,
)
    ensures
        ({
            let planned = volume.replace_file(path, data, found, created, written).0.history;
            let (removed, result) = if found {
                volume.remove(path)
            } else {
                (volume, Ok(()))
            };
            &&& begins(volume.history, planned)
            &&& begins(removed.history, planned)
            &&& result is Ok ==> begins(
                removed.create(path, (data.len() % 0x1_0000_0000) as u32, created).0.history,
                planned,
            )
        }),
{
    let planned = volume.replace_file(path, data, found, created, written).0.history;
    let (removed, result) = if found {
        volume.remove(path)
    } else {
        (volume, Ok(()))
    };
    lemma_all(volume.history);
    lemma_remove(volume, path);
    lemma_all(removed.history);
    if result is Ok {
        let size = (data.len() % 0x1_0000_0000) as u32;
        lemma_create(removed, path, size, created);
        let (made, result) = removed.create(path, size, created);
        lemma_all(made.history);
        if result is Ok {
            lemma_write_file_at(made, result->Ok_0, 0, data, written);
        }
        lemma_then(removed.history, made.history, planned);
    }
    lemma_then(volume.history, removed.history, planned);
}

} // verus!
