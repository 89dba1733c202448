//! What a change leaves in the copies of the allocation table on the device:
//! in each of them, the entry of every cluster that it changed.
use vstd::prelude::*;

use crate::bytes;
use crate::operations::FileView;
use crate::settled;
use crate::steady;
use crate::time::DateTime;
use crate::volume::Volume;

verus! {

/// The entry that a copy of the table on the device has for a cluster.
pub open spec fn entry_on(volume: Volume, copy: int, cluster: int) -> u32 {
    bytes::u32_at(volume.disk, volume.copy_at(copy) + 4 * cluster)
}

/// Whether nothing of the table awaits writing, and every copy of it on the
/// device has each entry that changed as it is in memory.
pub open spec fn recorded(before: Volume, after: Volume) -> bool {
    &&& !after.table.has_changes()
    &&& forall|copy: int, cluster: int|
        0 <= copy < before.boot.fat_count && 0 <= cluster < before.table.entries.len()
            && after.table.entries[cluster] != before.table.entries[cluster]
            ==> #[trigger] entry_on(after, copy, cluster) == after.table.entries[cluster]
}

/// What changed and awaits no writing is in every copy.
proof fn lemma_recorded(before: Volume, after: Volume)
    requires
        before.laid_out(),
        steady::steady(before, after),
        !after.table.has_changes(),
    ensures
        recorded(before, after),
{
    assert forall|copy: int, cluster: int|
        0 <= copy < before.boot.fat_count && 0 <= cluster < before.table.entries.len()
            && after.table.entries[cluster] != before.table.entries[cluster] implies #[trigger] entry_on(
        after,
        copy,
        cluster,
    ) == after.table.entries[cluster] by {
        let entry = after.table.entries[cluster];
        let base = after.copy_at(copy);
        assert forall|j: int| 0 <= j < 4 implies #[trigger] after.disk[base + 4 * cluster + j]
            == bytes::u32_bytes(entry)[j] by {
            let i = 4 * cluster + j;
            steady::lemma_in_copies(after, copy, i);
            assert(!after.table.dirty[i / 512]);
            assert(i / 4 == cluster && i % 4 == j);
            reveal(steady::copied);
            assert(steady::on_copy(after, copy, i));
            assert(base + 4 * cluster + j == base + i);
        }
        assert(after.disk[base + 4 * cluster + 0] == bytes::u32_bytes(entry)[0]);
        assert(after.disk[base + 4 * cluster + 1] == bytes::u32_bytes(entry)[1]);
        assert(after.disk[base + 4 * cluster + 2] == bytes::u32_bytes(entry)[2]);
        assert(after.disk[base + 4 * cluster + 3] == bytes::u32_bytes(entry)[3]);
        bytes::lemma_u32_round_trip(entry);
    }
}

/// After a file is created, every copy of the table has what it changed.
pub proof fn lemma_create(volume: Volume, path: Seq<char>, size: u32, now: DateTime)
    requires
        volume.laid_out(),
        volume.fits(),
        volume.create(path, size, now).1 is Ok,
    ensures
        recorded(volume, volume.create(path, size, now).0),
{
    steady::lemma_create(volume, path, size, now);
    settled::lemma_create(volume, path, size, now);
    lemma_recorded(volume, volume.create(path, size, now).0);
}

/// After a directory is created, every copy of the table has what it changed.
pub proof fn lemma_create_dir(volume: Volume, path: Seq<char>, now: DateTime)
    requires
        volume.laid_out(),
        volume.fits(),
        volume.create_dir(path, now).1 is Ok,
    ensures
        recorded(volume, volume.create_dir(path, now).0),
{
    steady::lemma_create_dir(volume, path, now);
    settled::lemma_create_dir(volume, path, now);
    lemma_recorded(volume, volume.create_dir(path, now).0);
}

/// After a write, every copy of the table has what it changed.
pub proof fn lemma_write_file_at(
    volume: Volume,
    file: FileView,
    offset: int,
    data: Seq<u8>,
    now: DateTime,
)
    requires
        volume.laid_out(),
        volume.fits(),
        !volume.table.has_changes(),
        0 <= offset,
        volume.write_file_at(file, offset, data, now).2 is Ok,
    ensures
        recorded(volume, volume.write_file_at(file, offset, data, now).0),
{
    steady::lemma_write_file_at(volume, file, offset, data, now);
    settled::lemma_write_file_at(volume, file, offset, data, now);
    lemma_recorded(volume, volume.write_file_at(file, offset, data, now).0);
}

/// After a file's length is set, every copy of the table has what that
/// changed.
pub proof fn lemma_truncate(volume: Volume, file: FileView, size: u32, now: DateTime)
    requires
        volume.laid_out(),
        volume.fits(),
        !volume.table.has_changes(),
        volume.truncate(file, size, now).2 is Ok,
    ensures
        recorded(volume, volume.truncate(file, size, now).0),
{
    steady::lemma_truncate(volume, file, size, now);
    settled::lemma_truncate(volume, file, size, now);
    lemma_recorded(volume, volume.truncate(file, size, now).0);
}

/// After a file is removed, every copy of the table has what that changed.
pub proof fn lemma_remove(volume: Volume, path: Seq<char>)
    requires
        volume.laid_out(),
        volume.fits(),
        !volume.table.has_changes(),
        volume.remove(path).1 is Ok,
    ensures
        recorded(volume, volume.remove(path).0),
{
    steady::lemma_remove(volume, path);
    settled::lemma_remove(volume, path);
    lemma_recorded(volume, volume.remove(path).0);
}

/// After a directory is removed, every copy of the table has what that
/// changed.
pub proof fn lemma_remove_dir(volume: Volume, path: Seq<char>)
    requires
        volume.laid_out(),
        volume.fits(),
        volume.remove_dir(path).1 is Ok,
    ensures
        recorded(volume, volume.remove_dir(path).0),
{
    steady::lemma_remove_dir(volume, path);
    settled::lemma_remove_dir(volume, path);
    lemma_recorded(volume, volume.remove_dir(path).0);
}

/// After a file is replaced, every copy of the table has what that changed.
pub proof fn lemma_replace_file(
    volume: Volume,
    path: Seq<char>,
    data: Seq<u8>,
    found: bool,
    created: DateTime,
    written: DateTime,
)
    requires
        volume.laid_out(),
        volume.fits(),
        volume.replace_file(path, data, found, created, written).1 is Ok,
    ensures
        recorded(volume, volume.replace_file(path, data, found, created, written).0),
{
    steady::lemma_replace_file(volume, path, data, found, created, written);
    settled::lemma_replace_file(volume, path, data, found, created, written);
    lemma_recorded(volume, volume.replace_file(path, data, found, created, written).0);
}

} // verus!
