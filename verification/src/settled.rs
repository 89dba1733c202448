//! What a change leaves behind in memory: nothing of the allocation table
//! that awaits writing, and no deletion that was not counted.
use vstd::prelude::*;

use crate::name::StoredView;
use crate::operations;
use crate::operations::FileView;
use crate::time::DateTime;
use crate::volume;
use crate::volume::{Edit, Volume};

verus! {

/// Whether the same deletions are counted in both, and names are read by the
/// same code page.
pub open spec fn counts_alike(before: Volume, after: Volume) -> bool {
    &&& after.deletions == before.deletions
    &&& after.codepage == before.codepage
}

/// Whether `after` awaits nothing, or `before` awaited something already.
pub open spec fn settles(before: Volume, after: Volume) -> bool {
    !before.table.has_changes() ==> !after.table.has_changes()
}

/// Changing a slot leaves the table.
pub proof fn lemma_edit_slot(volume: Volume, directory: u32, index: u32, edit: Edit)
    ensures
        counts_alike(volume, volume.edit_slot(directory, index, edit).0),
        volume.edit_slot(directory, index, edit).0.table == volume.table,
{
    reveal(Volume::edit_slot);
}

/// Marking slots deleted leaves the table.
pub proof fn lemma_delete_down(volume: Volume, directory: u32, first: u32, last: u32)
    ensures
        counts_alike(volume, volume.delete_down(directory, first, last).0),
        volume.delete_down(directory, first, last).0.table == volume.table,
    decreases last,
{
    lemma_edit_slot(volume, directory, last, Edit::Delete);
    let (edited, result) = volume.edit_slot(directory, last, Edit::Delete);
    if result is Ok && last > first {
        lemma_delete_down(edited, directory, first, (last - 1) as u32);
    }
}

/// Writing slots leaves the table.
pub proof fn lemma_write_slots(
    volume: Volume,
    directory: u32,
    index: int,
    entries: Seq<Seq<u8>>,
    block: int,
)
    ensures
        counts_alike(volume, volume.write_slots(directory, index, entries, block).0),
        volume.write_slots(directory, index, entries, block).0.table == volume.table,
    decreases index + entries.len() + 16 - 16 * block,
{
    if 16 * block < index + entries.len() {
        let place = volume.slot_location(directory, (16 * block) as u32);
        if place is Ok {
            let sector = place->Ok_0.0;
            lemma_write_slots(
                volume.after_read(sector, 1).wrote(
                    sector,
                    volume.filled_block(sector, block, index, entries),
                ),
                directory,
                index,
                entries,
                block + 1,
            );
        }
    }
}

/// Writing the table leaves nothing of it that awaits writing.
proof fn lemma_flush(volume: Volume)
    ensures
        counts_alike(volume, volume.flush()),
        !volume.flush().table.has_changes(),
{
    reveal(Volume::flush);
    lemma_stretches(
        volume,
        crate::table::dirty_stretches(volume.table.dirty, volume.table.dirty.len() as int),
    );
}

/// Writing stretches of the table counts no deletion.
proof fn lemma_stretches(volume: Volume, stretches: Seq<(u32, u32)>)
    ensures
        counts_alike(volume, volume.wrote_stretches(stretches)),
    decreases stretches.len(),
{
    if stretches.len() > 0 {
        lemma_stretches(volume, stretches.drop_last());
        lemma_copies(
            volume.wrote_stretches(stretches.drop_last()),
            stretches.last(),
            volume.table.fat_count as int,
        );
    }
}

/// Writing copies of the table counts no deletion.
proof fn lemma_copies(volume: Volume, stretch: (u32, u32), copies: int)
    ensures
        counts_alike(volume, volume.wrote_copies(stretch, copies)),
    decreases copies,
{
    if copies > 0 {
        lemma_copies(volume, stretch, copies - 1);
    }
}

/// Finding room counts no deletion.
proof fn lemma_find_room(volume: Volume, directory: u32, count: u32, attempts: int)
    ensures
        counts_alike(volume, volume.find_room(directory, count, attempts).0),
    decreases attempts,
{
    volume::lemma_read_dir_looks(volume, directory);
    let (read, result) = volume.read_dir(directory);
    if result is Ok && result->Ok_0.room_for(count) is None && attempts > 0 {
        reveal(Volume::grow_directory);
        lemma_find_room(read.grow_directory(directory).0, directory, count, attempts - 1);
    }
}

/// Putting an entry in writes the table first.
proof fn lemma_publish(
    volume: Volume,
    directory: u32,
    stored: StoredView,
    entry: Seq<u8>,
    first: u32,
    index: u32,
)
    ensures
        counts_alike(volume, volume.publish(directory, stored, entry, first, index).0),
        volume.publish(directory, stored, entry, first, index).1 is Ok ==> !volume.publish(
            directory,
            stored,
            entry,
            first,
            index,
        ).0.table.has_changes(),
{
    reveal(Volume::publish);
    lemma_flush(volume);
    lemma_write_slots(
        volume.flush(),
        directory,
        index as int,
        stored.slots.push(entry),
        index as int / 16,
    );
}

/// A file that was created is created on the device: nothing awaits writing,
/// whatever did before.
pub proof fn lemma_create(volume: Volume, path: Seq<char>, size: u32, now: DateTime)
    ensures
        counts_alike(volume, volume.create(path, size, now).0),
        volume.create(path, size, now).1 is Ok ==> !volume.create(
            path,
            size,
            now,
        ).0.table.has_changes(),
{
    let root = volume.boot.root_cluster;
    let parent = operations::parent_of(path);
    volume::lemma_resolve_looks(volume, root, parent);
    let (resolved, result) = volume.resolve(root, parent);
    if result is Ok {
        let directory = result->Ok_0;
        let name = operations::name_of(path);
        operations::lemma_plan_name_looks(resolved, directory, name);
        let (planned, result) = resolved.plan_name(directory, name);
        if result is Ok {
            let stored = result->Ok_0;
            let count = operations::clusters_for(size as int, volume.cluster_bytes()) as u32;
            let (table, taken) = planned.table.allocated(count);
            if taken is Ok {
                let first = if taken->Ok_0.len() > 0 {
                    taken->Ok_0[0]
                } else {
                    0
                };
                lemma_create_with(Volume { table, ..planned }, directory, stored, first, now);
            }
        }
    }
}

/// Creating a file whose name is chosen and whose chain is allocated.
proof fn lemma_create_with(
    volume: Volume,
    directory: u32,
    stored: StoredView,
    first: u32,
    now: DateTime,
)
    ensures
        counts_alike(volume, volume.create_with(directory, stored, first, now).0),
        volume.create_with(directory, stored, first, now).1 is Ok ==> !volume.create_with(
            directory,
            stored,
            first,
            now,
        ).0.table.has_changes(),
{
    reveal(Volume::create_with);
    let count = (stored.slots.len() + 1) as u32;
    let attempts = crate::fs::MAX_DIRECTORY_GROWTH as int;
    lemma_find_room(volume, directory, count, attempts);
    let (roomy, result) = volume.find_room(directory, count, attempts);
    if result is Ok {
        lemma_publish(
            roomy,
            directory,
            stored,
            crate::dir::entry_bytes(stored.short, 0x20, first, 0, now),
            first,
            result->Ok_0,
        );
    }
}

/// A directory that was created is created on the device: nothing awaits
/// writing, whatever did before.
pub proof fn lemma_create_dir(volume: Volume, path: Seq<char>, now: DateTime)
    ensures
        counts_alike(volume, volume.create_dir(path, now).0),
        volume.create_dir(path, now).1 is Ok ==> !volume.create_dir(
            path,
            now,
        ).0.table.has_changes(),
{
    let root = volume.boot.root_cluster;
    let parent = operations::parent_of(path);
    volume::lemma_resolve_looks(volume, root, parent);
    let (resolved, result) = volume.resolve(root, parent);
    if result is Ok {
        let directory = result->Ok_0;
        let name = operations::name_of(path);
        operations::lemma_plan_name_looks(resolved, directory, name);
        let (planned, result) = resolved.plan_name(directory, name);
        if result is Ok {
            let (table, taken) = planned.table.allocated(1);
            if taken is Ok {
                lemma_create_dir_with(
                    Volume { table, ..planned },
                    directory,
                    result->Ok_0,
                    taken->Ok_0[0],
                    now,
                );
            }
        }
    }
}

/// Creating a directory whose name is chosen and whose cluster is allocated.
proof fn lemma_create_dir_with(
    volume: Volume,
    parent: u32,
    stored: StoredView,
    cluster: u32,
    now: DateTime,
)
    ensures
        counts_alike(volume, volume.create_dir_with(parent, stored, cluster, now).0),
        volume.create_dir_with(parent, stored, cluster, now).1 is Ok ==> !volume.create_dir_with(
            parent,
            stored,
            cluster,
            now,
        ).0.table.has_changes(),
{
    reveal(Volume::create_dir_with);
    let count = (stored.slots.len() + 1) as u32;
    let attempts = crate::fs::MAX_DIRECTORY_GROWTH as int;
    lemma_find_room(volume, parent, count, attempts);
    let (roomy, result) = volume.find_room(parent, count, attempts);
    if result is Ok {
        lemma_publish(
            roomy.wrote(
                volume.boot.spec_cluster_sector(cluster as int),
                volume.new_directory(cluster, parent, now),
            ),
            parent,
            stored,
            crate::dir::entry_bytes(stored.short, 0x10, cluster, 0, now),
            cluster,
            result->Ok_0,
        );
    }
}

/// Making room in a file's chain.
proof fn lemma_reserve(volume: Volume, file: FileView, size: u32, now: DateTime)
    ensures
        counts_alike(volume, volume.reserve(file, size, now).0),
        volume.reserve(file, size, now).2 is Ok ==> settles(
            volume,
            volume.reserve(file, size, now).0,
        ),
{
    reveal(Volume::reserve);
    let wanted = operations::clusters_for(size as int, volume.cluster_bytes());
    if wanted != 0 {
        if file.first_cluster == 0 {
            let (table, result) = volume.table.allocated(wanted as u32);
            if result is Ok {
                let linked = Volume { table, ..volume };
                lemma_flush(linked);
                lemma_edit_slot(
                    linked.flush(),
                    file.directory,
                    file.index,
                    Edit::Update { first_cluster: result->Ok_0[0], size: file.size, at: now },
                );
            }
        } else if volume.table.chain(file.first_cluster) is Ok {
            let clusters = volume.table.chain(file.first_cluster)->Ok_0;
            let (table, _) = volume.table.appended(
                clusters.last(),
                (wanted - clusters.len()) as u32,
            );
            lemma_flush(Volume { table, ..volume });
        }
    }
}

/// What was written to a file awaits nothing.
pub proof fn lemma_write_file_at(
    volume: Volume,
    file: FileView,
    offset: int,
    data: Seq<u8>,
    now: DateTime,
)
    ensures
        counts_alike(volume, volume.write_file_at(file, offset, data, now).0),
        volume.write_file_at(file, offset, data, now).2 is Ok ==> settles(
            volume,
            volume.write_file_at(file, offset, data, now).0,
        ),
{
    operations::lemma_check_live_looks(volume, file);
    let live = volume.check_live(file).0;
    reveal(Volume::write_live);
    let end = offset + data.len();
    lemma_reserve(live, file, end as u32, now);
    let (reserved, held, result) = live.reserve(file, end as u32, now);
    if result is Ok {
        operations::lemma_zero_chain_frame(
            reserved,
            held.first_cluster,
            held.size as int,
            offset,
        );
        let zeroed = if offset > held.size {
            reserved.zero_chain(held.first_cluster, held.size as int, offset).0
        } else {
            reserved
        };
        operations::lemma_write_chain_frame(zeroed, held.first_cluster, offset, data);
        lemma_edit_slot(
            zeroed.write_chain(held.first_cluster, offset, data).0,
            held.directory,
            held.index,
            Edit::Update { first_cluster: held.first_cluster, size: end as u32, at: now },
        );
    }
}

/// A file whose length was set awaits nothing.
pub proof fn lemma_truncate(volume: Volume, file: FileView, size: u32, now: DateTime)
    ensures
        counts_alike(volume, volume.truncate(file, size, now).0),
        volume.truncate(file, size, now).2 is Ok ==> settles(
            volume,
            volume.truncate(file, size, now).0,
        ),
{
    operations::lemma_check_live_looks(volume, file);
    let live = volume.check_live(file).0;
    if size > file.size {
        lemma_reserve(live, file, size, now);
        let (reserved, held, _) = live.reserve(file, size, now);
        operations::lemma_zero_chain_frame(
            reserved,
            held.first_cluster,
            held.size as int,
            size as int,
        );
        lemma_edit_slot(
            reserved.zero_chain(held.first_cluster, held.size as int, size as int).0,
            held.directory,
            held.index,
            Edit::Update { first_cluster: held.first_cluster, size, at: now },
        );
    } else {
        let keep = operations::clusters_for(size as int, volume.cluster_bytes());
        let first = if keep == 0 {
            0
        } else {
            file.first_cluster
        };
        let edit = Edit::Update { first_cluster: first, size, at: now };
        lemma_edit_slot(live, file.directory, file.index, edit);
        let recorded = live.edit_slot(file.directory, file.index, edit).0;
        let (table, _) = recorded.table.shortened(file.first_cluster, keep as u32);
        lemma_flush(Volume { table, ..recorded });
    }
}

/// Giving a chain back writes the table.
proof fn lemma_free_chain(volume: Volume, first: u32)
    ensures
        counts_alike(volume, volume.free_chain(first).0),
        volume.free_chain(first).1 is Ok ==> !volume.free_chain(first).0.table.has_changes(),
{
    reveal(Volume::free_chain);
    lemma_flush(Volume { table: volume.table.freed(first).0, ..volume });
}

/// A file that was removed is removed from the device, and one more deletion
/// is counted for its directory.
pub proof fn lemma_remove(volume: Volume, path: Seq<char>)
    ensures
        volume.open(path).1 matches Ok(file) ==> counts_alike(
            volume.counted(file.directory),
            volume.remove(path).0,
        ),
        volume.remove(path).1 is Ok ==> settles(volume, volume.remove(path).0),
{
    let (opened, result) = volume.open(path);
    operations::lemma_open_looks(volume, path);
    if result is Ok {
        let file = result->Ok_0;
        let counted = opened.counted(file.directory);
        lemma_delete_down(counted, file.directory, file.first_slot, file.index);
        let deleted = counted.delete_down(file.directory, file.first_slot, file.index).0;
        lemma_free_chain(deleted, file.first_cluster);
        assert(counted.deletions =~= volume.counted(file.directory).deletions);
    }
}

/// A directory that was removed is removed from the device, and one more
/// deletion is counted for the directory it was in.
pub proof fn lemma_remove_dir(volume: Volume, path: Seq<char>)
    requires
        volume.remove_dir(path).1 is Ok,
    ensures
        volume.look_up(operations::plain(path)).1 is Ok,
        counts_alike(
            volume.counted(volume.look_up(operations::plain(path)).1->Ok_0.0),
            volume.remove_dir(path).0,
        ),
        !volume.remove_dir(path).0.table.has_changes(),
{
    let plain = operations::plain(path);
    let (found, result) = volume.look_up(plain);
    operations::lemma_look_up_looks(volume, plain);
    let (parent, entry) = result->Ok_0;
    volume::lemma_read_dir_looks(found, entry.first_cluster);
    let read = found.read_dir(entry.first_cluster).0;
    let counted = read.counted(parent);
    lemma_delete_down(counted, parent, entry.first_slot, entry.index);
    let deleted = counted.delete_down(parent, entry.first_slot, entry.index).0;
    lemma_free_chain(deleted, entry.first_cluster);
    assert(counted.deletions =~= volume.counted(parent).deletions);
}

/// A file that was written whole is written on the device: nothing awaits
/// writing, whatever did before. Where it took the place of another, one more
/// deletion is counted for its directory.
pub proof fn lemma_replace_file(
    volume: Volume,
    path: Seq<char>,
    data: Seq<u8>,
    found: bool,
    created: DateTime,
    written: DateTime,
)
    requires
        volume.replace_file(path, data, found, created, written).1 is Ok,
    ensures
        !volume.replace_file(path, data, found, created, written).0.table.has_changes(),
        found ==> volume.open(path).1 is Ok && counts_alike(
            volume.counted(volume.open(path).1->Ok_0.directory),
            volume.replace_file(path, data, found, created, written).0,
        ),
        !found ==> counts_alike(
            volume,
            volume.replace_file(path, data, found, created, written).0,
        ),
{
    lemma_remove(volume, path);
    let removed = if found {
        volume.remove(path).0
    } else {
        volume
    };
    let size = (data.len() % 0x1_0000_0000) as u32;
    lemma_create(removed, path, size, created);
    let (made, result) = removed.create(path, size, created);
    if result is Ok {
        lemma_write_file_at(made, result->Ok_0, 0, data, written);
    }
}

} // verus!
