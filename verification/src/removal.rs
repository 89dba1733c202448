//! What a directory lists, and what is free, after something is removed.
use vstd::prelude::*;

use crate::chains;
use crate::creation;
use crate::dir;
use crate::dir::EntryView;
use crate::error::Fault;
use crate::laws;
use crate::listing;
use crate::operations;
use crate::operations::FileView;
use crate::storage;
use crate::table;
use crate::table::Table;
use crate::volume::Volume;

verus! {

/// The slots from an entry's first to the one before it are pieces of a long
/// name.
proof fn lemma_run_is_long(data: Seq<u8>, i: int, k: int)
    requires
        0 <= i,
        dir::run_start(data, i) <= k < i,
    ensures
        dir::is_long(data, k),
    decreases i,
{
    if i > 0 && dir::is_long(data, i - 1) {
        if k < i - 1 {
            lemma_run_is_long(data, i - 1, k);
        }
    }
}

/// A directory's slots after some are marked deleted.
proof fn lemma_with_deleted(data: Seq<u8>, first: int, last: int)
    requires
        0 <= first <= last < dir::slot_count(data),
    ensures
        ({
            let after = storage::with_deleted(data, first, last);
            &&& after.len() == data.len()
            &&& listing::same_slots(data, after, 0, first)
            &&& listing::same_slots(data, after, last + 1, dir::slot_count(data))
            &&& forall|k: int|
                first <= k <= last ==> (#[trigger] dir::slot(after, k))[0] == dir::DELETED
        }),
{
    let after = storage::with_deleted(data, first, last);
    assert forall|k: int|
        0 <= k < dir::slot_count(data) && !(first <= k <= last) implies #[trigger] dir::slot(data, k)
        == dir::slot(after, k) by {
        assert(dir::slot(data, k) =~= dir::slot(after, k)) by {
            assert forall|b: int| 0 <= b < 32 implies #[trigger] dir::slot(after, k)[b] == dir::slot(
                data,
                k,
            )[b] by {
                let i = 32 * k + b;
                assert(i / 32 == k);
            }
        }
    }
    assert forall|k: int| first <= k <= last implies (#[trigger] dir::slot(after, k))[0]
        == dir::DELETED by {
        let i = 32 * k;
        assert(i / 32 == k && i % 32 == 0);
        assert(dir::slot(after, k)[0] == after[i]);
    }
}

/// Deleting an entry with its long name: the directory lists it no more.
proof fn lemma_slots_deleted(
    data: Seq<u8>,
    entry: EntryView,
    codepage: crate::codepage::Codepage,
)
    requires
        dir::slot_count(data) <= u32::MAX,
        dir::listing_of(data, codepage) is Ok,
        exists|a: int|
            0 <= a < dir::listing_of(data, codepage)->Ok_0.entries.len() && dir::listing_of(
                data,
                codepage,
            )->Ok_0.entries[a] == entry,
    ensures
        ({
            let after = storage::with_deleted(data, entry.first_slot as int, entry.index as int);
            &&& entry.first_slot <= entry.index < dir::slot_count(data)
            &&& dir::is_entry(data, entry.index as int)
            &&& dir::listing_of(after, codepage) is Ok
            &&& exists|head: Seq<EntryView>, tail: Seq<EntryView>|
                dir::listing_of(data, codepage)->Ok_0.entries == #[trigger] (head.push(entry)
                    + tail) && dir::listing_of(after, codepage)->Ok_0.entries == head + tail
        }),
{
    let n = dir::slot_count(data);
    let entries = dir::listing_of(data, codepage)->Ok_0.entries;
    let a = choose|a: int| 0 <= a < entries.len() && entries[a] == entry;
    dir::lemma_entries(data, n, codepage);
    assert(entries[a].index < n);
    let (first, i) = (entry.first_slot as int, entry.index as int);
    let after = storage::with_deleted(data, first, i);
    assert(entry == dir::entry_of(data, i, codepage));
    lemma_run_bounds(data, i);
    assert forall|k: int| first <= k < i implies #[trigger] dir::is_long(data, k) by {
        lemma_run_is_long(data, i, k);
    }
    lemma_with_deleted(data, first, i);
    listing::lemma_deleted(data, after, first, i, codepage);
    let head = dir::entries_of(data, first, codepage);
    let tail = listing::entries_between(data, i + 1, n, codepage);
    assert(entries == head.push(entry) + tail);
}

/// An entry's long-name slots start no later than the entry.
proof fn lemma_run_bounds(data: Seq<u8>, i: int)
    requires
        0 <= i,
    ensures
        0 <= dir::run_start(data, i) <= i,
    decreases i,
{
    if i > 0 && dir::is_long(data, i - 1) {
        lemma_run_bounds(data, i - 1);
    }
}

/// A chain that is whole after another was freed was the same before.
pub proof fn lemma_chain_survived(before: Table, start: u32, other: u32)
    requires
        before.wf(),
        before.chain(start) is Ok,
        before.freed(start).0.chain(other) is Ok,
    ensures
        before.chain(other) == before.freed(start).0.chain(other),
{
    let freed = before.chain(start)->Ok_0;
    let after = before.freed(start).0;
    let clusters = after.chain(other)->Ok_0;
    table::lemma_chain(before, start);
    chains::lemma_released(before, freed);
    table::lemma_chain(after, other);
    assert forall|i: int| 0 <= i < clusters.len() implies before.value(
        #[trigger] after.chain(other)->Ok_0[i] as int,
    ) == after.value(after.chain(other)->Ok_0[i] as int) by {
        let c = clusters[i];
        assert(after.valid(c as int));
        if i + 1 < clusters.len() {
            assert(after.value(c as int) == clusters[i + 1]);
            assert(after.valid(clusters[i + 1] as int));
        }
        assert(!freed.contains(c)) by {
            if freed.contains(c) {
                assert(after.is_free(freed[freed.index_of(c)] as int));
            }
        }
    }
    table::lemma_chain_kept(after, before, other);
}

/// What removing a file does: the directory it was in lists it no more, its
/// clusters are free, and no other chain is touched. A file that shares
/// clusters with its directory may take the directory's chain with it.
#[verifier::opaque]
pub open spec fn removed(before: Volume, after: Volume, path: Seq<char>) -> bool {
    let (opened, result) = before.open(path);
    let (cluster, entry) = before.look_up(path).1->Ok_0;
    let file = result->Ok_0;
    let directory = file.directory;
    &&& result is Ok
    &&& before.look_up(path).1 is Ok
    &&& cluster == directory
    &&& !entry.is_directory()
    &&& after.laid_out()
    &&& after.boot == before.boot
    &&& after.first_block == before.first_block
    &&& after.codepage == before.codepage
    &&& after.clock == before.clock
    &&& after.disk.len() == before.disk.len()
    &&& after.directories == opened.directories.remove(directory)
    &&& after.deletions == before.counted(directory).deletions
    &&& before.table.chain(directory) is Ok
    &&& before.stored_listing(directory) is Ok
    &&& before.stored_listing(directory)->Ok_0.find(operations::name_of(path)) == Some(entry)
    &&& laws::unentangled(before, file) ==> after.table.chain(directory) is Ok
    &&& after.table.chain(directory) is Ok ==> {
        &&& after.table.chain(directory) == before.table.chain(directory)
        &&& after.stored_listing(directory) is Ok
        &&& exists|head: Seq<EntryView>, tail: Seq<EntryView>|
            before.stored_listing(directory)->Ok_0.entries == #[trigger] (head.push(entry) + tail)
                && after.stored_listing(directory)->Ok_0.entries == head + tail
    }
    &&& file.first_cluster != 0 ==> before.table.chain(file.first_cluster) is Ok && forall|i: int|
        0 <= i < before.table.chain(file.first_cluster)->Ok_0.len() ==> after.table.is_free(
            #[trigger] before.table.chain(file.first_cluster)->Ok_0[i] as int,
        )
    &&& forall|start: u32| #[trigger]
        laws::bystander(before, file, start) ==> laws::untouched(before, after, start)
}

/// The volume after an entry is deleted and before its chain is freed.
proof fn lemma_entry_deleted(volume: Volume, directory: u32, entry: EntryView)
    requires
        volume.laid_out(),
        volume.fits(),
        volume.stored_listing(directory) is Ok,
        dir::slot_count(volume.stored(directory)) <= u32::MAX,
        exists|a: int|
            0 <= a < volume.stored_listing(directory)->Ok_0.entries.len()
                && volume.stored_listing(directory)->Ok_0.entries[a] == entry,
        volume.delete_slots(directory, entry.first_slot, entry.index).1 is Ok,
    ensures
        ({
            let after = volume.delete_slots(directory, entry.first_slot, entry.index).0;
            let clusters = volume.table.chain(directory)->Ok_0;
            &&& after == (Volume {
                disk: after.disk,
                history: after.history,
                marked_dirty: after.marked_dirty,
                directories: volume.directories.remove(directory),
                deletions: volume.counted(directory).deletions,
                ..volume
            })
            &&& after.disk.len() == volume.disk.len()
            &&& volume.table.chain(directory) is Ok
            &&& after.stored_listing(directory) is Ok
            &&& exists|head: Seq<EntryView>, tail: Seq<EntryView>|
                volume.stored_listing(directory)->Ok_0.entries == #[trigger] (head.push(entry)
                    + tail) && after.stored_listing(directory)->Ok_0.entries == head + tail
            &&& forall|p: int|
                volume.data_at() <= p < volume.disk.len() && !volume.in_clusters(clusters, p)
                    ==> #[trigger] after.disk[p] == volume.disk[p]
        }),
{
    let counted = volume.counted(directory);
    let data = volume.stored(directory);
    let clusters = volume.table.chain(directory)->Ok_0;
    let entries = volume.stored_listing(directory)->Ok_0.entries;
    let a = choose|a: int| 0 <= a < entries.len() && entries[a] == entry;
    assert(dir::listing_of(data, volume.codepage)->Ok_0.entries[a] == entry);
    lemma_slots_deleted(data, entry, volume.codepage);
    assert(counted.stored(directory) =~= data);
    storage::lemma_delete_down(counted, directory, entry.first_slot, entry.index);
    let after = volume.delete_slots(directory, entry.first_slot, entry.index).0;
    assert(after.stored(directory) == storage::with_deleted(
        data,
        entry.first_slot as int,
        entry.index as int,
    ));
    assert forall|p: int|
        volume.data_at() <= p < volume.disk.len() && !volume.in_clusters(
            clusters,
            p,
        ) implies #[trigger] after.disk[p] == volume.disk[p] by {
        storage::lemma_in_clusters_same(volume, counted, clusters, p);
    }
}

/// Removing a file takes it out of its directory's listing and frees its
/// clusters, and touches nothing else.
pub proof fn lemma_remove(volume: Volume, path: Seq<char>)
    requires
        volume.laid_out(),
        volume.fits(),
        volume.remove(path).1 is Ok,
        volume.coherent_at(volume.open(path).1->Ok_0.directory),
        dir::slot_count(volume.stored(volume.open(path).1->Ok_0.directory)) <= u32::MAX,
    ensures
        removed(volume, volume.remove(path).0, path),
{
    reveal(removed);
    let (opened, result) = volume.open(path);
    let file = result->Ok_0;
    let directory = file.directory;
    operations::lemma_open_looks(volume, path);
    lemma_opened(volume, path);
    let entry = volume.look_up(path).1->Ok_0.1;
    assert(opened.stored(directory) =~= volume.stored(directory));
    let wanted = operations::name_of(path);
    dir::lemma_found(volume.stored_listing(directory)->Ok_0, wanted);
    lemma_entry_deleted(opened, directory, entry);
    let (deleted, _) = opened.delete_slots(directory, file.first_slot, file.index);
    let after = volume.remove(path).0;
    let clusters = volume.table.chain(directory)->Ok_0;
    if file.first_cluster == 0 {
        assert(after == deleted);
        assert forall|start: u32| #[trigger] laws::bystander(volume, file, start) implies laws::untouched(
            volume,
            after,
            start,
        ) by {
            laws::lemma_untouched(volume, after, start, Seq::<u32>::empty(), clusters);
        }
    } else {
        lemma_freed_volume(deleted, file.first_cluster);
        let freed = deleted.table.chain(file.first_cluster)->Ok_0;
        if laws::unentangled(volume, file) {
            assert forall|i: int, j: int|
                0 <= i < clusters.len() && 0 <= j < freed.len() implies #[trigger] clusters[i]
                != #[trigger] freed[j] by {}
            laws::lemma_untouched(deleted, after, directory, freed, Seq::<u32>::empty());
        }
        if after.table.chain(directory) is Ok {
            lemma_freed_survivor(deleted, file.first_cluster, directory);
        }
        assert forall|start: u32| #[trigger] laws::bystander(volume, file, start) implies laws::untouched(
            volume,
            after,
            start,
        ) by {
            laws::lemma_untouched(volume, deleted, start, Seq::<u32>::empty(), clusters);
            laws::lemma_untouched(deleted, after, start, freed, Seq::<u32>::empty());
        }
    }
}

/// What opening a file finds.
pub proof fn lemma_opened(volume: Volume, path: Seq<char>)
    requires
        volume.open(path).1 is Ok,
        volume.coherent_at(volume.open(path).1->Ok_0.directory),
    ensures
        ({
            let (opened, result) = volume.open(path);
            let file = result->Ok_0;
            let (cluster, entry) = volume.look_up(path).1->Ok_0;
            let (resolved, leads) = volume.resolve(
                volume.boot.root_cluster,
                operations::parent_of(path),
            );
            &&& volume.look_up(path).1 is Ok
            &&& leads == Ok::<u32, Fault>(file.directory)
            &&& cluster == file.directory
            &&& !entry.is_directory()
            &&& file == (FileView {
                first_cluster: entry.first_cluster,
                size: entry.size,
                directory: cluster,
                index: entry.index,
                first_slot: entry.first_slot,
                short: entry.short,
                deletions: volume.deletions_of(cluster),
            })
            &&& opened == resolved.read_dir(file.directory).0
            &&& volume.table.chain(file.directory) is Ok
            &&& volume.stored_listing(file.directory) is Ok
            &&& volume.stored_listing(file.directory)->Ok_0.find(operations::name_of(path)) == Some(
                entry,
            )
        }),
{
    reveal(Volume::open);
    reveal(Volume::look_up);
    let root = volume.boot.root_cluster;
    let parent = operations::parent_of(path);
    let (resolved, leads) = volume.resolve(root, parent);
    let directory = leads->Ok_0;
    creation::lemma_resolve_coherent(volume, root, parent, directory);
    laws::lemma_read_dir(resolved, directory);
    assert(resolved.stored(directory) =~= volume.stored(directory));
}

/// Freeing a chain and writing the table leaves the data area alone.
proof fn lemma_freed_volume(volume: Volume, first: u32)
    requires
        volume.laid_out(),
        volume.free_chain(first).1 is Ok,
    ensures
        ({
            let after = volume.free_chain(first).0;
            &&& volume.table.chain(first) is Ok
            &&& after == (Volume {
                disk: after.disk,
                history: after.history,
                marked_dirty: after.marked_dirty,
                table: volume.table.freed(first).0.flushed(),
                ..volume
            })
            &&& after.laid_out()
            &&& storage::undisturbed(volume, after)
            &&& forall|i: int|
                0 <= i < volume.table.chain(first)->Ok_0.len() ==> after.table.is_free(
                    #[trigger] volume.table.chain(first)->Ok_0[i] as int,
                )
            &&& forall|c: u32|
                volume.table.valid(c as int) && !volume.table.chain(first)->Ok_0.contains(c)
                    ==> #[trigger] after.table.value(c as int) == volume.table.value(c as int)
        }),
{
    reveal(Volume::free_chain);
    let clusters = volume.table.chain(first)->Ok_0;
    table::lemma_chain(volume.table, first);
    chains::lemma_released(volume.table, clusters);
    let held = Volume { table: volume.table.freed(first).0, ..volume };
    storage::lemma_flush(held);
    let after = held.flush();
    assert(after.table.entries == held.table.entries);
    assert forall|i: int| 0 <= i < clusters.len() implies after.table.is_free(
        #[trigger] volume.table.chain(first)->Ok_0[i] as int,
    ) by {
        assert(held.table.is_free(clusters[i] as int));
    }
    assert forall|c: u32|
        volume.table.valid(c as int) && !clusters.contains(c) implies #[trigger] after.table.value(
        c as int,
    ) == volume.table.value(c as int) by {
        assert(held.table.value(c as int) == volume.table.value(c as int));
    }
}

/// A chain that is whole after another was freed is untouched.
proof fn lemma_freed_survivor(volume: Volume, first: u32, other: u32)
    requires
        volume.laid_out(),
        volume.fits(),
        volume.free_chain(first).1 is Ok,
        volume.free_chain(first).0.table.chain(other) is Ok,
    ensures
        laws::untouched(volume, volume.free_chain(first).0, other),
{
    lemma_freed_volume(volume, first);
    let after = volume.free_chain(first).0;
    let freed = volume.table.freed(first).0;
    table::lemma_chain(volume.table, first);
    chains::lemma_released(volume.table, volume.table.chain(first)->Ok_0);
    laws::lemma_flushed_chains(freed);
    lemma_chain_survived(volume.table, first, other);
    table::lemma_chain(volume.table, other);
    laws::lemma_bytes_same(volume, after, volume.table.chain(other)->Ok_0);
}

/// What removing a directory does: the one it was in lists it no more, its
/// clusters are free, it is no longer held, and no other chain is touched.
#[verifier::opaque]
pub open spec fn removed_dir(before: Volume, after: Volume, path: Seq<char>) -> bool {
    let plain = operations::plain(path);
    let (parent, entry) = before.look_up(plain).1->Ok_0;
    let gone = before.table.chain(entry.first_cluster)->Ok_0;
    &&& before.look_up(plain).1 is Ok
    &&& entry.is_directory()
    &&& after.laid_out()
    &&& after.boot == before.boot
    &&& after.first_block == before.first_block
    &&& after.codepage == before.codepage
    &&& after.disk.len() == before.disk.len()
    &&& after.deletions == before.counted(parent).deletions
    &&& after.directories == before.look_up(plain).0.read_dir(
        entry.first_cluster,
    ).0.directories.remove(parent).remove(entry.first_cluster)
    &&& before.table.chain(parent) is Ok
    &&& before.stored_listing(parent) is Ok
    &&& before.stored_listing(parent)->Ok_0.find(operations::name_of(plain)) == Some(entry)
    &&& after.table.chain(parent) == before.table.chain(parent)
    &&& after.stored_listing(parent) is Ok
    &&& exists|head: Seq<EntryView>, tail: Seq<EntryView>|
        before.stored_listing(parent)->Ok_0.entries == #[trigger] (head.push(entry) + tail)
            && after.stored_listing(parent)->Ok_0.entries == head + tail
    &&& before.table.chain(entry.first_cluster) is Ok
    &&& forall|i: int| 0 <= i < gone.len() ==> after.table.is_free(#[trigger] gone[i] as int)
    &&& forall|start: u32|
        before.table.chain(start) is Ok && #[trigger] chains::apart(
            before.table.chain(start)->Ok_0,
            before.table.chain(parent)->Ok_0,
        ) && chains::apart(before.table.chain(start)->Ok_0, gone) ==> laws::untouched(
            before,
            after,
            start,
        )
}

/// Whether the directory a path leads to shares no cluster with the one its
/// entry is in.
pub open spec fn lies_apart(volume: Volume, path: Seq<char>) -> bool {
    let (parent, entry) = volume.look_up(operations::plain(path)).1->Ok_0;
    chains::apart(
        volume.table.chain(parent)->Ok_0,
        volume.table.chain(entry.first_cluster)->Ok_0,
    )
}

/// Removing a directory takes it out of the listing it was in and frees its
/// clusters, and touches nothing else.
pub proof fn lemma_remove_dir(volume: Volume, path: Seq<char>)
    requires
        volume.laid_out(),
        volume.fits(),
        volume.remove_dir(path).1 is Ok,
        volume.coherent_at(volume.look_up(operations::plain(path)).1->Ok_0.0),
        dir::slot_count(volume.stored(volume.look_up(operations::plain(path)).1->Ok_0.0))
            <= u32::MAX,
        lies_apart(volume, path),
    ensures
        removed_dir(volume, volume.remove_dir(path).0, path),
{
    reveal(removed_dir);
    let plain = operations::plain(path);
    let (found, result) = volume.look_up(plain);
    let (parent, entry) = result->Ok_0;
    let first = entry.first_cluster;
    operations::lemma_look_up_looks(volume, plain);
    lemma_looked_up(volume, plain);
    let read = found.read_dir(first).0;
    crate::volume::lemma_read_dir_looks(found, first);
    assert(read.stored(parent) =~= volume.stored(parent));
    dir::lemma_found(volume.stored_listing(parent)->Ok_0, operations::name_of(plain));
    lemma_entry_deleted(read, parent, entry);
    let deleted = read.delete_slots(parent, entry.first_slot, entry.index).0;
    lemma_freed_volume(deleted, first);
    let freed = deleted.free_chain(first).0;
    let after = volume.remove_dir(path).0;
    assert(after == freed.forgot(first));
    let clusters = volume.table.chain(parent)->Ok_0;
    let gone = volume.table.chain(first)->Ok_0;
    assert(deleted.table.chain(parent) is Ok);
    laws::lemma_untouched(deleted, freed, parent, gone, Seq::<u32>::empty());
    assert(after.stored(parent) =~= freed.stored(parent));
    assert forall|start: u32|
        volume.table.chain(start) is Ok && #[trigger] chains::apart(
            volume.table.chain(start)->Ok_0,
            clusters,
        ) && chains::apart(volume.table.chain(start)->Ok_0, gone) implies laws::untouched(
        volume,
        after,
        start,
    ) by {
        laws::lemma_untouched(volume, deleted, start, Seq::<u32>::empty(), clusters);
        laws::lemma_untouched(deleted, freed, start, gone, Seq::<u32>::empty());
        assert(after.stored(start) =~= freed.stored(start));
    }
}

/// What looking a path up finds.
proof fn lemma_looked_up(volume: Volume, path: Seq<char>)
    requires
        volume.look_up(path).1 is Ok,
        volume.coherent_at(volume.look_up(path).1->Ok_0.0),
    ensures
        ({
            let (parent, entry) = volume.look_up(path).1->Ok_0;
            &&& volume.table.chain(parent) is Ok
            &&& volume.stored_listing(parent) is Ok
            &&& volume.stored_listing(parent)->Ok_0.find(operations::name_of(path)) == Some(entry)
        }),
{
    reveal(Volume::look_up);
    let root = volume.boot.root_cluster;
    let (resolved, leads) = volume.resolve(root, operations::parent_of(path));
    let directory = leads->Ok_0;
    creation::lemma_resolve_coherent(volume, root, operations::parent_of(path), directory);
    laws::lemma_read_dir(resolved, directory);
    assert(resolved.stored(directory) =~= volume.stored(directory));
}

} // verus!
