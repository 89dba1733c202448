//! How many clusters are free after something is created, removed or
//! replaced.
use vstd::prelude::*;

use crate::boot::FIRST_CLUSTER;
use crate::chains;
use crate::creation;
use crate::error::{FatError, Fault};
use crate::laws;
use crate::name::StoredView;
use crate::operations;
use crate::operations::FileView;
use crate::replacing;
use crate::resizing;
use crate::settled;
use crate::storage;
use crate::table;
use crate::table::{Table, END_OF_CHAIN_MARK, ENTRY_LIMIT};
use crate::time::DateTime;
use crate::volume;
use crate::volume::{Edit, Volume};

verus! {

/// How many clusters a chain has.
pub open spec fn length(volume: Volume, start: u32) -> int {
    volume.table.chain(start)->Ok_0.len() as int
}

/// How many clusters a directory has gained.
pub open spec fn gained(before: Volume, after: Volume, directory: u32) -> int {
    length(after, directory) - length(before, directory)
}

/// Entries of which the same are free are as many of them free.
proof fn lemma_same_free(a: Seq<u32>, b: Seq<u32>, n: int)
    requires
        forall|c: int|
            FIRST_CLUSTER <= c < n ==> (#[trigger] a[c] % ENTRY_LIMIT == 0 <==> b[c] % ENTRY_LIMIT
                == 0),
    ensures
        table::free_below(a, n) == table::free_below(b, n),
    decreases n,
{
    if n > FIRST_CLUSTER {
        assert(a[n - 1] % ENTRY_LIMIT == 0 <==> b[n - 1] % ENTRY_LIMIT == 0);
        lemma_same_free(a, b, n - 1);
    }
}

/// Where some clusters become free and no other does, there are that many
/// more.
proof fn lemma_more_free(a: Seq<u32>, b: Seq<u32>, clusters: Seq<u32>, n: int)
    requires
        a.len() == b.len() == n,
        clusters.no_duplicates(),
        forall|i: int|
            0 <= i < clusters.len() ==> {
                &&& FIRST_CLUSTER <= #[trigger] clusters[i] < n
                &&& a[clusters[i] as int] % ENTRY_LIMIT != 0
                &&& b[clusters[i] as int] % ENTRY_LIMIT == 0
            },
        forall|c: u32|
            FIRST_CLUSTER <= c < n && !clusters.contains(c) ==> (#[trigger] a[c as int]
                % ENTRY_LIMIT == 0 <==> b[c as int] % ENTRY_LIMIT == 0),
        n <= u32::MAX,
    ensures
        table::free_below(b, n) == table::free_below(a, n) + clusters.len(),
    decreases clusters.len(),
{
    if clusters.len() == 0 {
        assert forall|c: int| FIRST_CLUSTER <= c < n implies (#[trigger] a[c] % ENTRY_LIMIT == 0
            <==> b[c] % ENTRY_LIMIT == 0) by {
            assert(!clusters.contains(c as u32));
            assert(a[(c as u32) as int] == a[c]);
        }
        lemma_same_free(a, b, n);
    } else {
        let last = clusters.last();
        let rest = clusters.drop_last();
        assert(clusters[clusters.len() - 1] == last);
        let between = a.update(last as int, b[last as int]);
        table::lemma_free_below_update(a, last as int, b[last as int], n);
        assert forall|i: int| 0 <= i < rest.len() implies {
            &&& FIRST_CLUSTER <= #[trigger] rest[i] < n
            &&& between[rest[i] as int] % ENTRY_LIMIT != 0
            &&& b[rest[i] as int] % ENTRY_LIMIT == 0
        } by {
            assert(rest[i] == clusters[i]);
            assert(clusters[i] != last);
        }
        assert forall|c: u32| FIRST_CLUSTER <= c < n && !rest.contains(c) implies (
        #[trigger] between[c as int] % ENTRY_LIMIT == 0 <==> b[c as int] % ENTRY_LIMIT == 0) by {
            if c != last {
                assert(!clusters.contains(c)) by {
                    if clusters.contains(c) {
                        let i = choose|i: int| 0 <= i < clusters.len() && clusters[i] == c;
                        assert(rest[i] == c);
                    }
                }
                assert(a[c as int] % ENTRY_LIMIT == 0 <==> b[c as int] % ENTRY_LIMIT == 0);
            }
        }
        lemma_more_free(between, b, rest, n);
    }
}

/// No cluster of a chain is free.
proof fn lemma_in_use(table: Table, clusters: Seq<u32>)
    requires
        table.wf(),
        table.links(clusters),
    ensures
        forall|i: int| 0 <= i < clusters.len() ==> table.value(#[trigger] clusters[i] as int) != 0,
{
    assert forall|i: int| 0 <= i < clusters.len() implies table.value(#[trigger] clusters[i] as int)
        != 0 by {
        if i + 1 < clusters.len() {
            assert(table.valid(clusters[i + 1] as int));
        }
    }
}

/// Giving a chain back frees as many clusters as it has.
proof fn lemma_released_free(table: Table, start: u32)
    requires
        table.wf(),
        table.chain(start) is Ok,
    ensures
        table.freed(start).0.free_count() == table.free_count() + table.chain(start)->Ok_0.len(),
{
    let clusters = table.chain(start)->Ok_0;
    table::lemma_chain(table, start);
    lemma_in_use(table, clusters);
    lemma_cleared_free(table, clusters);
}

/// An allocation takes as many free clusters as it is of.
pub(crate) proof fn lemma_allocated_free(table: Table, n: u32)
    requires
        table.wf(),
        table.allocated(n).1 is Ok,
    ensures
        table.allocated(n).0.free_count() + n == table.free_count(),
{
    if n > 0 {
        let (after, result) = table.allocated(n);
        let clusters = result->Ok_0;
        chains::lemma_allocated(table, n);
        lemma_in_use(after, clusters);
        assert forall|i: int| 0 <= i < clusters.len() implies {
            &&& FIRST_CLUSTER <= #[trigger] clusters[i] < table.end()
            &&& after.entries[clusters[i] as int] % ENTRY_LIMIT != 0
            &&& table.entries[clusters[i] as int] % ENTRY_LIMIT == 0
        } by {
            assert(table.is_free(clusters[i] as int));
            assert(after.value(clusters[i] as int) != 0);
        }
        assert forall|c: u32| FIRST_CLUSTER <= c < table.end() && !clusters.contains(c) implies (
        #[trigger] after.entries[c as int] % ENTRY_LIMIT == 0 <==> table.entries[c as int]
            % ENTRY_LIMIT == 0) by {
            assert(table.valid(c as int));
            assert(after.value(c as int) == table.value(c as int));
        }
        lemma_more_free(after.entries, table.entries, clusters, table.end());
    }
}

/// Lengthening a chain takes as many free clusters as it gains.
proof fn lemma_appended_free(table: Table, start: u32, n: u32)
    requires
        table.wf(),
        n > 0,
        table.chain(start) is Ok,
        table.appended(table.chain(start)->Ok_0.last(), n).1 is Ok,
    ensures
        table.appended(table.chain(start)->Ok_0.last(), n).0.free_count() + n
            == table.free_count(),
{
    let clusters = table.chain(start)->Ok_0;
    let (after, result) = table.appended(clusters.last(), n);
    let added = result->Ok_0;
    chains::lemma_appended(table, start, n);
    lemma_taken(table, after, start, added);
}

/// Where a chain goes on over free clusters and nothing else changes, there
/// are that many fewer.
proof fn lemma_taken(table: Table, after: Table, start: u32, added: Seq<u32>)
    requires
        table.wf(),
        after.wf(),
        after.same_place(table),
        table.chain(start) is Ok,
        after.chain(start) == Ok::<Seq<u32>, FatError>(table.chain(start)->Ok_0 + added),
        forall|i: int| 0 <= i < added.len() ==> table.is_free(#[trigger] added[i] as int),
        forall|c: u32|
            table.valid(c as int) && !(added.push(
                table.chain(start)->Ok_0.last(),
            )).contains(c) ==> #[trigger] after.value(c as int) == table.value(c as int),
    ensures
        after.free_count() + added.len() == table.free_count(),
{
    let clusters = table.chain(start)->Ok_0;
    let all = clusters + added;
    table::lemma_chain(table, start);
    table::lemma_chain(after, start);
    lemma_in_use(table, clusters);
    lemma_in_use(after, all);
    assert forall|i: int| 0 <= i < added.len() implies {
        &&& FIRST_CLUSTER <= #[trigger] added[i] < table.end()
        &&& after.entries[added[i] as int] % ENTRY_LIMIT != 0
        &&& table.entries[added[i] as int] % ENTRY_LIMIT == 0
    } by {
        assert(table.is_free(added[i] as int));
        assert(all[clusters.len() + i] == added[i]);
        assert(after.value(all[clusters.len() + i] as int) != 0);
    }
    assert(added.no_duplicates()) by {
        assert forall|i: int, j: int|
            0 <= i < added.len() && 0 <= j < added.len() && i != j implies added[i] != added[j] by {
            assert(all[clusters.len() + i] != all[clusters.len() + j]);
        }
    }
    let last = clusters[clusters.len() - 1];
    assert forall|c: u32| FIRST_CLUSTER <= c < table.end() && !added.contains(c) implies (
    #[trigger] after.entries[c as int] % ENTRY_LIMIT == 0 <==> table.entries[c as int]
        % ENTRY_LIMIT == 0) by {
        assert(table.valid(c as int));
        if c == last {
            assert(all[clusters.len() - 1] == last);
            assert(after.value(all[clusters.len() - 1] as int) != 0);
            assert(table.value(last as int) != 0);
        } else {
            let changed = added.push(last);
            assert(!changed.contains(c)) by {
                if changed.contains(c) {
                    let i = choose|i: int| 0 <= i < changed.len() && changed[i] == c;
                    assert(i < added.len() ==> added[i] == c);
                }
            }
            assert(after.value(c as int) == table.value(c as int));
        }
    }
    lemma_more_free(after.entries, table.entries, added, table.end());
}

/// Growing a directory takes one cluster, which the directory gains.
pub(crate) proof fn lemma_grown_free(volume: Volume, directory: u32)
    requires
        volume.laid_out(),
        volume.fits(),
        volume.grow_directory(directory).1 is Ok,
    ensures
        ({
            let after = volume.grow_directory(directory).0;
            &&& after.laid_out()
            &&& after.fits()
            &&& after.table.free_count() + 1 == volume.table.free_count()
            &&& gained(volume, after, directory) == 1
        }),
{
    storage::lemma_grow_directory(volume, directory);
    lemma_appended_free(volume.table, directory, 1);
    chains::lemma_allocated(volume.table, 1);
}

/// Finding room takes as many clusters as the directory gains.
proof fn lemma_find_room_free(volume: Volume, directory: u32, count: u32, attempts: int)
    requires
        volume.laid_out(),
        volume.fits(),
        volume.find_room(directory, count, attempts).1 is Ok,
    ensures
        ({
            let after = volume.find_room(directory, count, attempts).0;
            &&& after.laid_out()
            &&& after.fits()
            &&& after.table.free_count() + gained(volume, after, directory)
                == volume.table.free_count()
        }),
    decreases attempts,
{
    volume::lemma_read_dir_looks(volume, directory);
    let (read, result) = volume.read_dir(directory);
    if result->Ok_0.room_for(count) is None {
        lemma_grown_free(read, directory);
        lemma_find_room_free(read.grow_directory(directory).0, directory, count, attempts - 1);
    }
}

/// Giving a chain back on the device, too.
proof fn lemma_free_chain_free(volume: Volume, first: u32)
    requires
        volume.table.wf(),
        volume.free_chain(first).1 is Ok,
    ensures
        volume.table.chain(first) is Ok,
        volume.free_chain(first).0.table.free_count() == volume.table.free_count() + length(
            volume,
            first,
        ),
{
    reveal(Volume::free_chain);
    reveal(Volume::flush);
    lemma_released_free(volume.table, first);
}

/// Removing a file frees its clusters, all of them and no others.
pub proof fn lemma_remove(volume: Volume, path: Seq<char>)
    requires
        volume.laid_out(),
        volume.remove(path).1 is Ok,
    ensures
        volume.open(path).1 is Ok,
        volume.remove(path).0.table.free_count() == volume.table.free_count() + (if volume.open(
            path,
        ).1->Ok_0.first_cluster == 0 {
            0
        } else {
            length(volume, volume.open(path).1->Ok_0.first_cluster)
        }),
{
    let (opened, result) = volume.open(path);
    operations::lemma_open_looks(volume, path);
    let file = result->Ok_0;
    let counted = opened.counted(file.directory);
    settled::lemma_delete_down(counted, file.directory, file.first_slot, file.index);
    let deleted = counted.delete_down(file.directory, file.first_slot, file.index).0;
    if file.first_cluster != 0 {
        lemma_free_chain_free(deleted, file.first_cluster);
    }
}

/// Removing a directory frees its clusters, all of them and no others.
pub proof fn lemma_remove_dir(volume: Volume, path: Seq<char>)
    requires
        volume.laid_out(),
        volume.remove_dir(path).1 is Ok,
    ensures
        volume.look_up(operations::plain(path)).1 is Ok,
        volume.remove_dir(path).0.table.free_count() == volume.table.free_count() + length(
            volume,
            volume.look_up(operations::plain(path)).1->Ok_0.1.first_cluster,
        ),
{
    let plain = operations::plain(path);
    let (found, result) = volume.look_up(plain);
    operations::lemma_look_up_looks(volume, plain);
    let (parent, entry) = result->Ok_0;
    volume::lemma_read_dir_looks(found, entry.first_cluster);
    let read = found.read_dir(entry.first_cluster).0;
    let counted = read.counted(parent);
    settled::lemma_delete_down(counted, parent, entry.first_slot, entry.index);
    let deleted = counted.delete_down(parent, entry.first_slot, entry.index).0;
    lemma_free_chain_free(deleted, entry.first_cluster);
}

/// Putting an entry in takes nothing more.
proof fn lemma_publish_free(
    volume: Volume,
    directory: u32,
    stored: StoredView,
    entry: Seq<u8>,
    first: u32,
    index: u32,
)
    requires
        volume.publish(directory, stored, entry, first, index).1 is Ok,
    ensures
        volume.publish(directory, stored, entry, first, index).0.table == volume.table.flushed(),
{
    reveal(Volume::publish);
    reveal(Volume::flush);
    settled::lemma_write_slots(
        volume.flush(),
        directory,
        index as int,
        stored.slots.push(entry),
        index as int / 16,
    );
}

/// Creating a file takes the clusters it is to have room for, and those that
/// its directory gains.
pub proof fn lemma_create(volume: Volume, path: Seq<char>, size: u32, now: DateTime)
    requires
        volume.laid_out(),
        volume.fits(),
        volume.create(path, size, now).1 is Ok,
        volume.table.chain(volume.create(path, size, now).1->Ok_0.directory) is Ok,
    ensures
        ({
            let (after, result) = volume.create(path, size, now);
            after.table.free_count() + operations::clusters_for(
                size as int,
                volume.cluster_bytes(),
            ) + gained(volume, after, result->Ok_0.directory) == volume.table.free_count()
        }),
{
    let root = volume.boot.root_cluster;
    let parent = operations::parent_of(path);
    volume::lemma_resolve_looks(volume, root, parent);
    let (resolved, leads) = volume.resolve(root, parent);
    let directory = leads->Ok_0;
    let name = operations::name_of(path);
    operations::lemma_plan_name_looks(resolved, directory, name);
    let (planned, form) = resolved.plan_name(directory, name);
    let stored = form->Ok_0;
    let count = operations::clusters_for(size as int, volume.cluster_bytes());
    lemma_clusters_fit(size, volume.cluster_bytes());
    crate::fs::lemma_chain_size(volume, 0);
    let (given, taken) = planned.table.allocated(count as u32);
    let clusters = taken->Ok_0;
    let ready = Volume { table: given, ..planned };
    let first = if clusters.len() > 0 {
        clusters[0]
    } else {
        0
    };
    lemma_allocated_free(planned.table, count as u32);
    if count > 0 {
        chains::lemma_allocated(planned.table, count as u32);
    }
    let after = volume.create(path, size, now).0;
    assert((after, volume.create(path, size, now).1) == ready.create_with(
        directory,
        stored,
        first,
        now,
    ));
    reveal(Volume::create_with);
    if count > 0 {
        chains::lemma_allocated_keeps(planned.table, count as u32, directory);
    }
    let slots = (stored.slots.len() + 1) as u32;
    let attempts = crate::fs::MAX_DIRECTORY_GROWTH as int;
    lemma_find_room_free(ready, directory, slots, attempts);
    let (roomy, index) = ready.find_room(directory, slots, attempts);
    lemma_publish_free(
        roomy,
        directory,
        stored,
        crate::dir::entry_bytes(stored.short, 0x20, first, 0, now),
        first,
        index->Ok_0,
    );
    laws::lemma_flushed_chains(roomy.table);
}

/// A file has fewer clusters than there are numbers.
proof fn lemma_clusters_fit(size: u32, cluster_bytes: int)
    ensures
        0 < cluster_bytes ==> 0 <= operations::clusters_for(size as int, cluster_bytes) <= size,
{
    if 0 < cluster_bytes {
        let n = operations::clusters_for(size as int, cluster_bytes);
        assert(0 <= n <= size) by (nonlinear_arith)
            requires
                0 <= size,
                0 < cluster_bytes,
                n == (size + cluster_bytes - 1) / cluster_bytes,
        ;
    }
}

/// Creating a directory takes one cluster, and those that the directory it is
/// in gains.
pub proof fn lemma_create_dir(volume: Volume, path: Seq<char>, now: DateTime)
    requires
        volume.laid_out(),
        volume.fits(),
        volume.create_dir(path, now).1 is Ok,
        volume.table.chain(
            volume.resolve(volume.boot.root_cluster, operations::parent_of(path)).1->Ok_0,
        ) is Ok,
    ensures
        ({
            let (resolved, leads) = volume.resolve(
                volume.boot.root_cluster,
                operations::parent_of(path),
            );
            let after = volume.create_dir(path, now).0;
            after.table.free_count() + 1 + gained(volume, after, leads->Ok_0)
                == volume.table.free_count()
        }),
{
    let root = volume.boot.root_cluster;
    let parent = operations::parent_of(path);
    volume::lemma_resolve_looks(volume, root, parent);
    let (resolved, leads) = volume.resolve(root, parent);
    let directory = leads->Ok_0;
    let name = operations::name_of(path);
    operations::lemma_plan_name_looks(resolved, directory, name);
    let (planned, form) = resolved.plan_name(directory, name);
    let stored = form->Ok_0;
    let (given, taken) = planned.table.allocated(1);
    let cluster = taken->Ok_0[0];
    let ready = Volume { table: given, ..planned };
    lemma_allocated_free(planned.table, 1);
    chains::lemma_allocated(planned.table, 1);
    chains::lemma_allocated_keeps(planned.table, 1, directory);
    let (after, result) = volume.create_dir(path, now);
    assert((after, result) == ready.create_dir_with(directory, stored, cluster, now));
    reveal(Volume::create_dir_with);
    let slots = (stored.slots.len() + 1) as u32;
    let attempts = crate::fs::MAX_DIRECTORY_GROWTH as int;
    lemma_find_room_free(ready, directory, slots, attempts);
    let (roomy, index) = ready.find_room(directory, slots, attempts);
    lemma_publish_free(
        roomy.wrote(
            ready.boot.spec_cluster_sector(cluster as int),
            ready.new_directory(cluster, directory, now),
        ),
        directory,
        stored,
        crate::dir::entry_bytes(stored.short, 0x10, cluster, 0, now),
        cluster,
        index->Ok_0,
    );
    laws::lemma_flushed_chains(roomy.table);
}

/// Writing to a file whose chain is long enough takes nothing.
proof fn lemma_write_within(
    volume: Volume,
    file: FileView,
    offset: int,
    data: Seq<u8>,
    now: DateTime,
)
    requires
        volume.laid_out(),
        0 <= offset,
        data.len() > 0,
        volume.write_file_at(file, offset, data, now).2 is Ok,
        file.first_cluster != 0,
        volume.table.chain(file.first_cluster) is Ok,
        operations::clusters_for(offset + data.len(), volume.cluster_bytes()) <= length(
            volume,
            file.first_cluster,
        ),
    ensures
        volume.write_file_at(file, offset, data, now).0.table == volume.table,
{
    operations::lemma_check_live_looks(volume, file);
    let live = volume.check_live(file).0;
    reveal(Volume::write_live);
    let end = offset + data.len();
    assert(live.reserve(file, end as u32, now) == (live, file, Ok::<(), Fault>(()))) by {
        reveal(Volume::reserve);
    }
    operations::lemma_zero_chain_frame(live, file.first_cluster, file.size as int, offset);
    let zeroed = if offset > file.size {
        live.zero_chain(file.first_cluster, file.size as int, offset).0
    } else {
        live
    };
    operations::lemma_write_chain_frame(zeroed, file.first_cluster, offset, data);
    settled::lemma_edit_slot(
        zeroed.write_chain(file.first_cluster, offset, data).0,
        file.directory,
        file.index,
        Edit::Update { first_cluster: file.first_cluster, size: end as u32, at: now },
    );
}

/// Whether a file's chain has the clusters that `size` bytes need.
spec fn has_room(volume: Volume, file: FileView, size: u32) -> bool {
    &&& file.first_cluster != 0
    &&& volume.table.chain(file.first_cluster) is Ok
    &&& length(volume, file.first_cluster) == operations::clusters_for(
        size as int,
        volume.cluster_bytes(),
    )
}

/// A file that is created has the clusters it was to have room for.
proof fn lemma_created_has_room(
    before: Volume,
    after: Volume,
    path: Seq<char>,
    size: u32,
    file: FileView,
    stored: StoredView,
    now: DateTime,
)
    requires
        creation::created(before, after, path, size, file, stored, now),
    ensures
        before.table.chain(file.directory) is Ok,
        size > 0 ==> has_room(after, file, size),
        after.boot == before.boot,
        after.laid_out(),
{
    reveal(creation::created);
}

/// What a file that is about to be written whole is created with.
proof fn lemma_created_roomy(
    volume: Volume,
    path: Seq<char>,
    data: Seq<u8>,
    found: bool,
    created: DateTime,
    written: DateTime,
)
    requires
        volume.laid_out(),
        volume.fits(),
        volume.coherent_at(replacing::home(volume, path)),
        creation::numbered(
            volume,
            replacing::home(volume, path),
            crate::fs::MAX_DIRECTORY_GROWTH as int,
        ),
        volume.replace_file(path, data, found, created, written).1 is Ok,
    ensures
        ({
            let clear = replacing::made_way(volume, path, found);
            let size = (data.len() % 0x1_0000_0000) as u32;
            let (made, result) = clear.create(path, size, created);
            let empty = result->Ok_0;
            &&& found ==> volume.remove(path).1 is Ok
            &&& clear.laid_out()
            &&& clear.fits()
            &&& clear.boot == volume.boot
            &&& result is Ok
            &&& empty.directory == replacing::home(volume, path)
            &&& data.len() == size
            &&& clear.table.chain(empty.directory) is Ok
            &&& size > 0 ==> has_room(made, empty, size)
            &&& made.boot == clear.boot
            &&& made.laid_out()
        }),
{
    let clear = replacing::made_way(volume, path, found);
    let size = (data.len() % 0x1_0000_0000) as u32;
    let (made, result) = clear.create(path, size, created);
    let empty = result->Ok_0;
    let stored = clear.resolve(
        clear.boot.root_cluster,
        operations::parent_of(path),
    ).0.plan_name(empty.directory, operations::name_of(path)).1->Ok_0;
    assert(volume.resolve(volume.boot.root_cluster, operations::parent_of(path)).1 is Ok) by {
        if found {
            reveal(Volume::open);
            reveal(Volume::look_up);
        }
    }
    assert(found ==> volume.remove(path).1 is Ok);
    assert(result is Ok);
    assert(data.len() == size);
    replacing::lemma_made_way(volume, path, found, size, created);
    creation::lemma_create(clear, path, size, created);
    lemma_created_has_room(clear, made, path, size, empty, stored, created);
}

/// Writing a file whole takes the clusters its data needs, and those that its
/// directory gains; the clusters of the file it takes the place of, if any,
/// are free again.
pub proof fn lemma_write_file(
    volume: Volume,
    path: Seq<char>,
    data: Seq<u8>,
    found: bool,
    created: DateTime,
    written: DateTime,
)
    requires
        volume.laid_out(),
        volume.fits(),
        volume.coherent_at(replacing::home(volume, path)),
        creation::numbered(
            volume,
            replacing::home(volume, path),
            crate::fs::MAX_DIRECTORY_GROWTH as int,
        ),
        volume.replace_file(path, data, found, created, written).1 is Ok,
    ensures
        ({
            let after = volume.replace_file(path, data, found, created, written).0;
            let old_first = volume.open(path).1->Ok_0.first_cluster;
            let clear = replacing::made_way(volume, path, found);
            after.table.free_count() + operations::clusters_for(
                data.len() as int,
                volume.cluster_bytes(),
            ) + gained(clear, after, replacing::home(volume, path)) == volume.table.free_count()
                + if found && old_first != 0 {
                length(volume, old_first)
            } else {
                0
            }
        }),
{
    let clear = replacing::made_way(volume, path, found);
    let size = (data.len() % 0x1_0000_0000) as u32;
    let (made, result) = clear.create(path, size, created);
    let empty = result->Ok_0;
    let after = volume.replace_file(path, data, found, created, written).0;
    lemma_created_roomy(volume, path, data, found, created, written);
    assert(made.table.free_count() + operations::clusters_for(
        size as int,
        volume.cluster_bytes(),
    ) + gained(clear, made, empty.directory) == clear.table.free_count()) by {
        lemma_create(clear, path, size, created);
    }
    assert(after.table == made.table) by {
        if data.len() > 0 {
            lemma_write_within(made, empty, 0, data, written);
        }
    }
    if found {
        assert(volume.remove(path).1 is Ok);
        lemma_remove(volume, path);
    }
}

/// Keeping the first clusters of a chain frees the others.
proof fn lemma_shortened_free(table: Table, start: u32, keep: u32)
    requires
        table.wf(),
        table.chain(start) is Ok,
        keep <= table.chain(start)->Ok_0.len(),
    ensures
        table.shortened(start, keep).0.free_count() == table.free_count() + (
        table.chain(start)->Ok_0.len() - keep),
{
    let clusters = table.chain(start)->Ok_0;
    table::lemma_chain(table, start);
    if keep == 0 {
        lemma_released_free(table, start);
    } else if keep < clusters.len() {
        let last = clusters[keep - 1];
        let rest = clusters.skip(keep as int);
        assert(table.valid(last as int));
        lemma_in_use(table, clusters);
        assert(table.value(clusters[keep - 1] as int) != 0);
        let cut = table.set(last as int, END_OF_CHAIN_MARK);
        table::lemma_set(table, last as int, END_OF_CHAIN_MARK);
        assert forall|i: int| 0 <= i < rest.len() implies cut.valid(#[trigger] rest[i] as int)
            && cut.value(rest[i] as int) != 0 by {
            assert(rest[i] == clusters[keep + i]);
            assert(table.valid(clusters[keep + i] as int));
            assert(table.value(clusters[keep + i] as int) != 0);
            assert(clusters[keep + i] != clusters[keep - 1]);
        }
        assert(rest.no_duplicates());
        lemma_cleared_free(cut, rest);
    }
}

/// Giving clusters that are in use back frees as many.
proof fn lemma_cleared_free(table: Table, clusters: Seq<u32>)
    requires
        table.wf(),
        clusters.no_duplicates(),
        forall|i: int|
            0 <= i < clusters.len() ==> table.valid(#[trigger] clusters[i] as int) && table.value(
                clusters[i] as int,
            ) != 0,
    ensures
        table.released(clusters).free_count() == table.free_count() + clusters.len(),
{
    chains::lemma_released(table, clusters);
    let after = table.released(clusters);
    assert forall|i: int| 0 <= i < clusters.len() implies {
        &&& FIRST_CLUSTER <= #[trigger] clusters[i] < table.end()
        &&& table.entries[clusters[i] as int] % ENTRY_LIMIT != 0
        &&& after.entries[clusters[i] as int] % ENTRY_LIMIT == 0
    } by {
        assert(table.valid(clusters[i] as int));
        assert(table.value(clusters[i] as int) != 0);
        assert(after.is_free(clusters[i] as int));
    }
    assert forall|c: u32| FIRST_CLUSTER <= c < table.end() && !clusters.contains(c) implies (
    #[trigger] table.entries[c as int] % ENTRY_LIMIT == 0 <==> after.entries[c as int]
        % ENTRY_LIMIT == 0) by {
        assert(table.valid(c as int));
        assert(after.value(c as int) == table.value(c as int));
    }
    lemma_more_free(table.entries, after.entries, clusters, table.end());
}

/// Making a file shorter frees the clusters that its length no longer needs,
/// and no others.
pub proof fn lemma_shorter(volume: Volume, file: FileView, size: u32, now: DateTime)
    requires
        volume.laid_out(),
        size < file.size,
        resizing::whole(volume, file),
        volume.truncate(file, size, now).2 is Ok,
    ensures
        volume.truncate(file, size, now).0.table.free_count() == volume.table.free_count() + (
        length(volume, file.first_cluster) - operations::clusters_for(
            size as int,
            volume.cluster_bytes(),
        )),
{
    operations::lemma_check_live_looks(volume, file);
    let live = volume.check_live(file).0;
    let keep = operations::clusters_for(size as int, volume.cluster_bytes());
    crate::fs::lemma_chain_size(volume, 0);
    let had = volume.table.chain(file.first_cluster)->Ok_0;
    resizing::lemma_keeps(
        size as int,
        file.size as int,
        had.len() as int,
        volume.cluster_bytes(),
    );
    table::lemma_chain(volume.table, file.first_cluster);
    let first = if keep == 0 {
        0
    } else {
        file.first_cluster
    };
    let edit = Edit::Update { first_cluster: first, size, at: now };
    settled::lemma_edit_slot(live, file.directory, file.index, edit);
    lemma_shortened_free(volume.table, file.first_cluster, keep as u32);
    reveal(Volume::flush);
}

} // verus!
