//! In which order a change reaches the device: what an entry names is there
//! before the entry, and an entry that is to go is gone before what it names.
use vstd::prelude::*;

use crate::bytes;
use crate::chains;
use crate::dir;
use crate::fs;
use crate::laws;
use crate::name::StoredView;
use crate::operations;
use crate::operations::FileView;
use crate::outage;
use crate::steady;
use crate::storage;
use crate::table;
use crate::table::Table;
use crate::time::DateTime;
use crate::volume;
use crate::volume::{Edit, Volume};

verus! {

/// Whether what a directory holds is the same up to `midway`, and the links
/// of `clusters` are on the device by then, in every copy of the table, to
/// stay.
pub open spec fn links_first(
    before: Volume,
    midway: Volume,
    after: Volume,
    directory: u32,
    clusters: Seq<u32>,
) -> bool {
    &&& forall|p: int| #[trigger]
        before.in_clusters(before.table.chain(directory)->Ok_0, p) ==> outage::spares(
            before,
            midway,
            p,
        )
    &&& forall|i: int|
        0 <= i < clusters.len() ==> {
            &&& midway.link_stored(#[trigger] clusters[i])
            &&& outage::leaves(midway, after, clusters[i])
        }
}

/// Whether `clusters` and their links are left alone up to `midway`, and what
/// a directory holds is the same from then on.
pub open spec fn entry_first(
    before: Volume,
    midway: Volume,
    after: Volume,
    directory: u32,
    clusters: Seq<u32>,
) -> bool {
    &&& forall|i: int|
        0 <= i < clusters.len() ==> outage::leaves(before, midway, #[trigger] clusters[i])
    &&& forall|p: int| #[trigger]
        before.in_clusters(before.table.chain(directory)->Ok_0, p) ==> outage::spares(
            midway,
            after,
            p,
        )
}

/// A place in a directory lies in the data area.
proof fn lemma_in_data(volume: Volume, directory: u32, p: int)
    requires
        volume.laid_out(),
        volume.fits(),
        volume.table.chain(directory) is Ok,
        volume.in_clusters(volume.table.chain(directory)->Ok_0, p),
    ensures
        volume.data_at() <= p < volume.disk.len(),
        volume.at(1) <= p,
{
    let clusters = volume.table.chain(directory)->Ok_0;
    table::lemma_chain(volume.table, directory);
    let i = choose|i: int| 0 <= i < clusters.len() && volume.in_cluster(#[trigger] clusters[i], p);
    fs::lemma_run_in_volume(volume, clusters[i] as int, 1);
    steady::lemma_in_copy(volume, 0);
}

/// Nothing done spares everything.
proof fn lemma_same(before: Volume, after: Volume, p: int)
    requires
        after.history == before.history,
        after.disk == before.disk,
    ensures
        outage::spares(before, after, p),
{
}

/// Looking spares everything.
proof fn lemma_looked(before: Volume, after: Volume, p: int)
    requires
        outage::looked(before, after),
    ensures
        outage::spares(before, after, p),
{
    assert forall|i: int| before.history.len() <= i < after.history.len() implies outage::keeps(
        #[trigger] after.history[i],
        p,
        before.disk[p],
    ) by {
        assert(after.history[i] is Read);
    }
}

/// Writing the table spares the data area.
proof fn lemma_copies(volume: Volume, stretch: (u32, u32), copies: int, p: int)
    requires
        volume.laid_out(),
        volume.data_at() <= p < volume.disk.len(),
        stretch.0 + stretch.1 <= volume.table.sectors_per_fat,
        0 <= copies <= volume.table.fat_count,
    ensures
        outage::spares(volume, volume.wrote_copies(stretch, copies), p),
        volume.wrote_copies(stretch, copies).written_from(volume),
        volume.wrote_copies(stretch, copies).disk.len() == volume.disk.len(),
    decreases copies,
{
    if copies > 0 {
        lemma_copies(volume, stretch, copies - 1, p);
        let before = volume.wrote_copies(stretch, copies - 1);
        let spf = volume.table.sectors_per_fat as int;
        let c = copies - 1;
        let sector = volume.table.fat_start + c * spf + stretch.0;
        let data = volume::stretch_bytes(
            volume.table.entries,
            stretch.0 as int,
            stretch.1 as int,
        );
        assert(c * spf + spf <= volume.table.fat_count * spf) by (nonlinear_arith)
            requires
                0 <= c < volume.table.fat_count,
                0 <= spf,
        ;
        steady::lemma_in_copy(volume, 0);
        outage::lemma_wrote(before, sector, data, p);
        outage::lemma_then(volume, before, before.wrote(sector, data), p);
    }
}

proof fn lemma_stretches(volume: Volume, stretches: Seq<(u32, u32)>, p: int)
    requires
        volume.laid_out(),
        volume.data_at() <= p < volume.disk.len(),
        forall|t: int|
            0 <= t < stretches.len() ==> {
                let (start, length) = #[trigger] stretches[t];
                start + length <= volume.table.sectors_per_fat
            },
    ensures
        outage::spares(volume, volume.wrote_stretches(stretches), p),
        volume.wrote_stretches(stretches).written_from(volume),
        volume.wrote_stretches(stretches).disk.len() == volume.disk.len(),
    decreases stretches.len(),
{
    if stretches.len() > 0 {
        let fewer = stretches.drop_last();
        assert forall|t: int| 0 <= t < fewer.len() implies {
            let (start, length) = #[trigger] fewer[t];
            start + length <= volume.table.sectors_per_fat
        } by {
            let (start, length) = stretches[t];
        }
        let (start, length) = stretches[stretches.len() - 1];
        lemma_stretches(volume, fewer, p);
        let before = volume.wrote_stretches(fewer);
        let copies = volume.table.fat_count as int;
        lemma_copies(before, stretches.last(), copies, p);
        outage::lemma_then(volume, before, before.wrote_copies(stretches.last(), copies), p);
    }
}

/// Writing the table's changes spares the data area.
proof fn lemma_flush(volume: Volume, p: int)
    requires
        volume.laid_out(),
        volume.data_at() <= p < volume.disk.len(),
    ensures
        outage::spares(volume, volume.flush(), p),
{
    reveal(Volume::flush);
    let n = volume.table.dirty.len() as int;
    steady::lemma_stretches_cover(volume.table.dirty, n, 0);
    lemma_stretches(volume, table::dirty_stretches(volume.table.dirty, n), p);
}

/// Writing the table's changes puts the links of a cluster on the device that
/// await it.
proof fn lemma_flush_links(volume: Volume, cluster: u32)
    requires
        volume.laid_out(),
        volume.fits(),
        volume.table.valid(cluster as int),
        volume.table.dirty[cluster as int / 128],
    ensures
        volume.flush().link_stored(cluster),
{
    let after = volume.flush();
    storage::lemma_flush(volume);
    assert forall|copy: int, o: int| 0 <= copy < after.boot.fat_count && 0 <= o < 4 implies after.disk[
    #[trigger] after.link_at(cluster, copy, o)] == bytes::u32_bytes(
        after.table.entries[cluster as int],
    )[o] by {
        let i = 4 * cluster + o;
        assert(i / 4 == cluster && i % 4 == o && i / 512 == cluster as int / 128);
        steady::lemma_flush_stores(volume, copy, i);
        assert(after.link_at(cluster, copy, o) == volume.copy_at(copy) + i);
    }
}

/// Finding room in a directory: what it holds stays, and so do the marks of
/// what awaits writing.
proof fn lemma_find_room(volume: Volume, directory: u32, count: u32, attempts: int, sector: int)
    requires
        volume.laid_out(),
        volume.fits(),
        volume.table.chain(directory) is Ok,
        volume.find_room(directory, count, attempts).1 is Ok,
        0 <= sector < volume.table.dirty.len(),
        volume.table.dirty[sector],
    ensures
        ({
            let after = volume.find_room(directory, count, attempts).0;
            &&& after.table.dirty[sector]
            &&& after.laid_out()
            &&& after.fits()
            &&& after.boot == volume.boot
            &&& after.first_block == volume.first_block
            &&& after.table.same_place(volume.table)
            &&& forall|p: int| #[trigger]
                volume.in_clusters(volume.table.chain(directory)->Ok_0, p) ==> outage::spares(
                    volume,
                    after,
                    p,
                )
        }),
    decreases attempts,
{
    outage::lemma_read_dir(volume, directory);
    let (read, result) = volume.read_dir(directory);
    let clusters = volume.table.chain(directory)->Ok_0;
    let after = volume.find_room(directory, count, attempts).0;
    assert forall|p: int| #[trigger] volume.in_clusters(clusters, p) implies outage::spares(
        volume,
        read,
        p,
    ) by {
        lemma_looked(volume, read, p);
    }
    if result->Ok_0.room_for(count) is None {
        let grown = read.grow_directory(directory).0;
        storage::lemma_grow_directory(read, directory);
        let added = read.table.allocated(1).1->Ok_0;
        chains::lemma_allocated(read.table, 1);
        chains::lemma_appended(read.table, directory, 1);
        assert(grown.table.dirty[sector]);
        lemma_find_room(grown, directory, count, attempts - 1, sector);
        assert forall|p: int| #[trigger] volume.in_clusters(clusters, p) implies outage::spares(
            volume,
            after,
            p,
        ) by {
            lemma_grown(read, directory, p);
            outage::lemma_then(volume, read, grown, p);
            assert(grown.in_clusters(clusters + added, p)) by {
                let i = choose|i: int|
                    0 <= i < clusters.len() && volume.in_cluster(#[trigger] clusters[i], p);
                assert((clusters + added)[i] == clusters[i]);
                assert(grown.in_cluster((clusters + added)[i], p));
            }
            assert(grown.in_clusters(grown.table.chain(directory)->Ok_0, p));
            outage::lemma_then(volume, grown, after, p);
        }
    }
}

/// Growing a directory spares what it holds.
proof fn lemma_grown(volume: Volume, directory: u32, p: int)
    requires
        volume.laid_out(),
        volume.fits(),
        volume.grow_directory(directory).1 is Ok,
        volume.in_clusters(volume.table.chain(directory)->Ok_0, p),
    ensures
        outage::spares(volume, volume.grow_directory(directory).0, p),
{
    reveal(Volume::grow_directory);
    let clusters = volume.table.chain(directory)->Ok_0;
    let (table, result) = volume.table.allocated(1);
    let added = result->Ok_0;
    chains::lemma_allocated(volume.table, 1);
    chains::lemma_chain_not_free(volume.table, directory, added);
    lemma_in_data(volume, directory, p);
    let held = Volume { table, ..volume };
    let sector = volume.boot.spec_cluster_sector(added[0] as int);
    let data = bytes::zeros(volume.cluster_bytes() as nat);
    if held.at(sector) <= p < held.at(sector) + data.len() {
        let i = choose|i: int|
            0 <= i < clusters.len() && volume.in_cluster(#[trigger] clusters[i], p);
        storage::lemma_one_cluster(volume, clusters[i], added[0], p);
        assert(clusters[i] != added[0]);
    }
    outage::lemma_wrote(held, sector, data, p);
}

/// Whether a new chain awaits writing: its clusters are linked, in use, and
/// none of the directory's.
pub open spec fn awaits(volume: Volume, directory: u32, clusters: Seq<u32>) -> bool {
    forall|i: int|
        0 <= i < clusters.len() ==> {
            &&& volume.table.in_use(#[trigger] clusters[i])
            &&& volume.table.dirty[clusters[i] as int / 128]
            &&& volume.table.foreign(clusters[i], directory)
        }
}

/// A chain just allocated awaits writing.
proof fn lemma_allocated(table: Table, n: u32, directory: u32)
    requires
        table.wf(),
        table.allocated(n).1 is Ok,
        table.chain(directory) is Ok,
    ensures
        ({
            let (after, result) = table.allocated(n);
            let clusters = result->Ok_0;
            &&& after.wf()
            &&& after.same_place(table)
            &&& after.chain(directory) == table.chain(directory)
            &&& forall|i: int|
                0 <= i < clusters.len() ==> {
                    &&& after.in_use(#[trigger] clusters[i])
                    &&& after.dirty[clusters[i] as int / 128]
                    &&& after.foreign(clusters[i], directory)
                }
        }),
{
    if n > 0 {
        chains::lemma_allocated(table, n);
        chains::lemma_allocated_keeps(table, n, directory);
        let (after, result) = table.allocated(n);
        let clusters = result->Ok_0;
        let theirs = table.chain(directory)->Ok_0;
        chains::lemma_linked(table, clusters);
        assert forall|i: int| 0 <= i < clusters.len() implies {
            &&& after.in_use(#[trigger] clusters[i])
            &&& after.dirty[clusters[i] as int / 128]
            &&& after.foreign(clusters[i], directory)
        } by {
            assert(table.linked(clusters).value(clusters[i] as int) != 0);
            if theirs.contains(clusters[i]) {
                let j = theirs.index_of(clusters[i]);
                assert(theirs[j] == clusters[i]);
            }
        }
    }
}

/// Entering something that awaits writing in a directory.
proof fn lemma_entered(
    volume: Volume,
    directory: u32,
    stored: StoredView,
    entry: Seq<u8>,
    first: u32,
    index: u32,
    clusters: Seq<u32>,
)
    requires
        volume.laid_out(),
        volume.fits(),
        volume.table.chain(directory) is Ok,
        awaits(volume, directory, clusters),
    ensures
        links_first(
            volume,
            volume.flush(),
            volume.flush().put_slots(directory, index, stored.slots.push(entry)).0,
            directory,
            clusters,
        ),
{
    let flushed = volume.flush();
    let entries = stored.slots.push(entry);
    storage::lemma_flush(volume);
    laws::lemma_flushed_chains(volume.table);
    assert forall|p: int| #[trigger]
        volume.in_clusters(volume.table.chain(directory)->Ok_0, p) implies outage::spares(
        volume,
        flushed,
        p,
    ) by {
        lemma_in_data(volume, directory, p);
        lemma_flush(volume, p);
    }
    assert forall|i: int| 0 <= i < clusters.len() implies {
        &&& flushed.link_stored(#[trigger] clusters[i])
        &&& outage::leaves(
            flushed,
            flushed.put_slots(directory, index, entries).0,
            clusters[i],
        )
    } by {
        lemma_flush_links(volume, clusters[i]);
        outage::lemma_leaves_write_slots(
            flushed,
            directory,
            index as int,
            entries,
            index as int / 16,
            clusters[i],
        );
    }
}

/// Finding room leaves what awaits writing waiting.
proof fn lemma_room_awaits(
    volume: Volume,
    directory: u32,
    count: u32,
    attempts: int,
    clusters: Seq<u32>,
)
    requires
        volume.laid_out(),
        volume.fits(),
        volume.table.chain(directory) is Ok,
        awaits(volume, directory, clusters),
        clusters.len() > 0,
        volume.find_room(directory, count, attempts).1 is Ok,
    ensures
        ({
            let after = volume.find_room(directory, count, attempts).0;
            &&& after.laid_out()
            &&& after.fits()
            &&& after.boot == volume.boot
            &&& after.first_block == volume.first_block
            &&& after.table.same_place(volume.table)
            &&& awaits(after, directory, clusters)
            &&& after.table.chain(directory) is Ok
            &&& forall|p: int| #[trigger]
                volume.in_clusters(volume.table.chain(directory)->Ok_0, p) ==> {
                    &&& outage::spares(volume, after, p)
                    &&& after.in_clusters(after.table.chain(directory)->Ok_0, p)
                }
        }),
{
    let after = volume.find_room(directory, count, attempts).0;
    assert forall|i: int| 0 <= i < clusters.len() implies {
        &&& after.table.in_use(#[trigger] clusters[i])
        &&& after.table.dirty[clusters[i] as int / 128]
        &&& after.table.foreign(clusters[i], directory)
    } by {
        outage::lemma_leaves_find_room(volume, directory, count, attempts, clusters[i], 0);
        reveal(outage::passed_by);
        lemma_find_room(volume, directory, count, attempts, clusters[i] as int / 128);
    }
    assert(volume.table.in_use(clusters[0]));
    lemma_find_room(volume, directory, count, attempts, clusters[0] as int / 128);
    lemma_still_in(volume, directory, count, attempts);
    let theirs = volume.table.chain(directory)->Ok_0;
    let has = after.table.chain(directory)->Ok_0;
    assert forall|p: int| #[trigger] volume.in_clusters(theirs, p) implies {
        &&& outage::spares(volume, after, p)
        &&& after.in_clusters(has, p)
    } by {
        let i = choose|i: int|
            0 <= i < theirs.len() && volume.in_cluster(#[trigger] theirs[i], p);
        assert(has[i] == theirs[i]);
        assert(after.in_cluster(has[i], p));
    }
}

/// Finding room only adds to a directory's chain.
proof fn lemma_still_in(volume: Volume, directory: u32, count: u32, attempts: int)
    requires
        volume.laid_out(),
        volume.fits(),
        volume.table.chain(directory) is Ok,
        volume.find_room(directory, count, attempts).1 is Ok,
    ensures
        ({
            let after = volume.find_room(directory, count, attempts).0;
            let theirs = volume.table.chain(directory)->Ok_0;
            let has = after.table.chain(directory)->Ok_0;
            &&& after.table.chain(directory) is Ok
            &&& has.len() >= theirs.len()
            &&& forall|i: int| 0 <= i < theirs.len() ==> #[trigger] has[i] == theirs[i]
        }),
    decreases attempts,
{
    outage::lemma_read_dir(volume, directory);
    let (read, result) = volume.read_dir(directory);
    if result->Ok_0.room_for(count) is None {
        let grown = read.grow_directory(directory).0;
        storage::lemma_grow_directory(read, directory);
        lemma_still_in(grown, directory, count, attempts - 1);
        let theirs = volume.table.chain(directory)->Ok_0;
        let more = grown.table.chain(directory)->Ok_0;
        let has = grown.find_room(directory, count, attempts - 1).0.table.chain(
            directory,
        )->Ok_0;
        assert forall|i: int| 0 <= i < theirs.len() implies #[trigger] has[i] == theirs[i] by {
            assert(has[i] == more[i]);
        }
    }
}

/// Creating a file with room: the chain's links are on the device, in every
/// copy of the table, before the directory changes. A power cut leaves at
/// worst clusters that nothing names.
pub proof fn lemma_create(volume: Volume, path: Seq<char>, size: u32, now: DateTime)
    requires
        volume.laid_out(),
        volume.fits(),
        volume.create(path, size, now).1 is Ok,
        volume.create(path, size, now).1->Ok_0.first_cluster != 0,
        volume.table.chain(volume.create(path, size, now).1->Ok_0.directory) is Ok,
    ensures
        ({
            let (after, result) = volume.create(path, size, now);
            let file = result->Ok_0;
            let count = operations::clusters_for(size as int, volume.cluster_bytes()) as u32;
            let clusters = volume.table.allocated(count).1->Ok_0;
            &&& clusters[0] == file.first_cluster
            &&& exists|midway: Volume| #[trigger]
                links_first(volume, midway, after, file.directory, clusters)
        }),
{
    let root = volume.boot.root_cluster;
    outage::lemma_resolve(volume, root, operations::parent_of(path));
    let (resolved, result) = volume.resolve(root, operations::parent_of(path));
    let directory = result->Ok_0;
    outage::lemma_plan_name(resolved, directory, operations::name_of(path));
    let (planned, result) = resolved.plan_name(directory, operations::name_of(path));
    let stored = result->Ok_0;
    outage::lemma_looked_twice(volume, resolved, planned);
    let count = operations::clusters_for(size as int, volume.cluster_bytes()) as u32;
    let (table, result) = planned.table.allocated(count);
    let clusters = result->Ok_0;
    let first = if clusters.len() > 0 {
        clusters[0]
    } else {
        0
    };
    let held = Volume { table, ..planned };
    let after = volume.create(path, size, now).0;
    let file = volume.create(path, size, now).1->Ok_0;
    reveal(Volume::create_with);
    reveal(Volume::publish);
    assert(file.first_cluster == first && file.directory == directory);
    lemma_allocated(planned.table, count, directory);
    let slots = (stored.slots.len() + 1) as u32;
    let attempts = fs::MAX_DIRECTORY_GROWTH as int;
    lemma_room_awaits(held, directory, slots, attempts, clusters);
    let (roomy, result) = held.find_room(directory, slots, attempts);
    let entry = dir::entry_bytes(stored.short, 0x20, first, 0, now);
    lemma_entered(roomy, directory, stored, entry, first, result->Ok_0, clusters);
    let midway = roomy.flush();
    assert forall|p: int| #[trigger]
        volume.in_clusters(volume.table.chain(directory)->Ok_0, p) implies outage::spares(
        volume,
        midway,
        p,
    ) by {
        lemma_looked(volume, planned, p);
        lemma_same(planned, held, p);
        outage::lemma_then(volume, planned, held, p);
        assert(held.in_clusters(held.table.chain(directory)->Ok_0, p)) by {
            storage::lemma_in_clusters_same(
                volume,
                held,
                volume.table.chain(directory)->Ok_0,
                p,
            );
        }
        outage::lemma_then(volume, held, roomy, p);
        outage::lemma_then(volume, roomy, midway, p);
    }
    assert(links_first(volume, midway, after, directory, clusters));
}

/// Creating a directory: its cluster is filled and linked, in every copy of
/// the table, before the directory it is created in changes.
pub proof fn lemma_create_dir(volume: Volume, path: Seq<char>, now: DateTime)
    requires
        volume.laid_out(),
        volume.fits(),
        volume.create_dir(path, now).1 is Ok,
        volume.table.chain(
            volume.resolve(volume.boot.root_cluster, operations::parent_of(path)).1->Ok_0,
        ) is Ok,
    ensures
        ({
            let (after, result) = volume.create_dir(path, now);
            let cluster = result->Ok_0;
            let parent = volume.resolve(
                volume.boot.root_cluster,
                operations::parent_of(path),
            ).1->Ok_0;
            exists|midway: Volume|
                {
                    &&& #[trigger] links_first(volume, midway, after, parent, seq![cluster])
                    &&& forall|o: int|
                        0 <= o < volume.cluster_bytes() ==> #[trigger] midway.disk[
                        volume.cluster_at(cluster as int) + o] == volume.new_directory(
                            cluster,
                            parent,
                            now,
                        )[o]
                }
        }),
{
    let root = volume.boot.root_cluster;
    outage::lemma_resolve(volume, root, operations::parent_of(path));
    let (resolved, result) = volume.resolve(root, operations::parent_of(path));
    let parent = result->Ok_0;
    outage::lemma_plan_name(resolved, parent, operations::name_of(path));
    let (planned, result) = resolved.plan_name(parent, operations::name_of(path));
    let stored = result->Ok_0;
    outage::lemma_looked_twice(volume, resolved, planned);
    let (table, result) = planned.table.allocated(1);
    let cluster = result->Ok_0[0];
    let clusters = seq![cluster];
    let held = Volume { table, ..planned };
    let after = volume.create_dir(path, now).0;
    chains::lemma_allocated(planned.table, 1);
    assert(result->Ok_0 =~= clusters);
    lemma_allocated(planned.table, 1, parent);
    reveal(Volume::create_dir_with);
    reveal(Volume::publish);
    let slots = (stored.slots.len() + 1) as u32;
    let attempts = fs::MAX_DIRECTORY_GROWTH as int;
    lemma_room_awaits(held, parent, slots, attempts, clusters);
    let (roomy, result) = held.find_room(parent, slots, attempts);
    let sector = volume.boot.spec_cluster_sector(cluster as int);
    let data = held.new_directory(cluster, parent, now);
    let filled = roomy.wrote(sector, data);
    fs::lemma_run_in_volume(roomy, cluster as int, 1);
    fs::lemma_chain_size(volume, 0);
    storage::lemma_wrote(roomy, sector, data);
    assert(awaits(filled, parent, clusters)) by {
        assert forall|i: int| 0 <= i < clusters.len() implies {
            &&& filled.table.in_use(#[trigger] clusters[i])
            &&& filled.table.dirty[clusters[i] as int / 128]
            &&& filled.table.foreign(clusters[i], parent)
        } by {
            assert(roomy.table.in_use(clusters[i]));
        }
    }
    let entry = dir::entry_bytes(stored.short, 0x10, cluster, 0, now);
    lemma_entered(filled, parent, stored, entry, cluster, result->Ok_0, clusters);
    let midway = filled.flush();
    assert(roomy.table.foreign(clusters[0], parent));
    assert forall|p: int| #[trigger]
        volume.in_clusters(volume.table.chain(parent)->Ok_0, p) implies outage::spares(
        volume,
        midway,
        p,
    ) by {
        lemma_looked(volume, planned, p);
        lemma_same(planned, held, p);
        outage::lemma_then(volume, planned, held, p);
        storage::lemma_in_clusters_same(volume, held, volume.table.chain(parent)->Ok_0, p);
        assert(held.in_clusters(held.table.chain(parent)->Ok_0, p));
        outage::lemma_then(volume, held, roomy, p);
        let theirs = roomy.table.chain(parent)->Ok_0;
        assert(roomy.in_clusters(theirs, p));
        lemma_in_data(roomy, parent, p);
        if roomy.at(sector) <= p < roomy.at(sector) + data.len() {
            let i = choose|i: int|
                0 <= i < theirs.len() && roomy.in_cluster(#[trigger] theirs[i], p);
            storage::lemma_one_cluster(roomy, theirs[i], cluster, p);
            assert(theirs.contains(cluster));
        }
        outage::lemma_wrote(roomy, sector, data, p);
        outage::lemma_then(volume, roomy, filled, p);
        storage::lemma_in_clusters_same(roomy, filled, theirs, p);
        assert(filled.in_clusters(filled.table.chain(parent)->Ok_0, p));
        outage::lemma_then(volume, filled, midway, p);
    }
    assert(links_first(volume, midway, after, parent, clusters));
    assert forall|o: int| 0 <= o < volume.cluster_bytes() implies #[trigger] midway.disk[
    volume.cluster_at(cluster as int) + o] == data[o] by {
        let p = volume.cluster_at(cluster as int) + o;
        assert(filled.disk[p] == data[o]);
        lemma_flush(filled, p);
    }
    assert(data == volume.new_directory(cluster, parent, now));
    assert(volume.create_dir(path, now).1->Ok_0 == cluster);
}

/// Removing a file: its entry is marked deleted, with its long name, before
/// any of its clusters is given back.
pub proof fn lemma_remove(volume: Volume, path: Seq<char>)
    requires
        volume.laid_out(),
        volume.fits(),
        volume.remove(path).1 is Ok,
        volume.open(path).1->Ok_0.first_slot <= volume.open(path).1->Ok_0.index,
        volume.open(path).1->Ok_0.first_cluster != 0,
        laws::unentangled(volume, volume.open(path).1->Ok_0),
    ensures
        ({
            let file = volume.open(path).1->Ok_0;
            let clusters = volume.table.chain(file.first_cluster)->Ok_0;
            exists|midway: Volume|
                {
                    &&& #[trigger] entry_first(
                        volume,
                        midway,
                        volume.remove(path).0,
                        file.directory,
                        clusters,
                    )
                    &&& midway.stored(file.directory) == storage::with_deleted(
                        volume.stored(file.directory),
                        file.first_slot as int,
                        file.index as int,
                    )
                }
        }),
{
    outage::lemma_open(volume, path);
    let (opened, result) = volume.open(path);
    let file = result->Ok_0;
    let counted = opened.counted(file.directory);
    let midway = opened.delete_slots(file.directory, file.first_slot, file.index).0;
    let after = volume.remove(path).0;
    reveal(Volume::free_chain);
    storage::lemma_delete_down(counted, file.directory, file.first_slot, file.index);
    let clusters = volume.table.chain(file.first_cluster)->Ok_0;
    let theirs = volume.table.chain(file.directory)->Ok_0;
    assert(midway.table == volume.table);
    table::lemma_chain(volume.table, file.first_cluster);
    assert forall|i: int| 0 <= i < clusters.len() implies outage::leaves(
        volume,
        midway,
        #[trigger] clusters[i],
    ) by {
        if theirs.contains(clusters[i]) {
            let j = theirs.index_of(clusters[i]);
            assert(theirs[j] == clusters[i]);
        }
        outage::lemma_leaves_looked(volume, opened, clusters[i]);
        outage::lemma_leaves_table(opened, counted, clusters[i]);
        outage::lemma_leaves_then(volume, opened, counted, clusters[i]);
        outage::lemma_leaves_delete_down(
            counted,
            file.directory,
            file.first_slot,
            file.index,
            clusters[i],
        );
        outage::lemma_leaves_then(volume, counted, midway, clusters[i]);
    }
    assert(midway.laid_out() && midway.fits());
    let held = Volume { table: midway.table.released(clusters), ..midway };
    chains::lemma_released(midway.table, clusters);
    assert forall|p: int| #[trigger] volume.in_clusters(theirs, p) implies outage::spares(
        midway,
        after,
        p,
    ) by {
        lemma_in_data(volume, file.directory, p);
        lemma_flush(held, p);
    }
    assert(entry_first(volume, midway, after, file.directory, clusters));
    assert(counted.chain_bytes(theirs) =~= volume.chain_bytes(theirs));
}

/// Making a file shorter: its entry is changed before any of its clusters is
/// given back.
pub proof fn lemma_truncate(volume: Volume, file: FileView, size: u32, now: DateTime)
    requires
        volume.laid_out(),
        volume.fits(),
        volume.truncate(file, size, now).2 is Ok,
        size < file.size,
        file.first_cluster != 0,
        laws::unentangled(volume, file),
    ensures
        ({
            let clusters = volume.table.chain(file.first_cluster)->Ok_0;
            let fitted = volume.truncate(file, size, now).1;
            let edit = Edit::Update { first_cluster: fitted.first_cluster, size, at: now };
            exists|midway: Volume|
                {
                    &&& #[trigger] entry_first(
                        volume,
                        midway,
                        volume.truncate(file, size, now).0,
                        file.directory,
                        clusters,
                    )
                    &&& midway.stored(file.directory) == storage::with_slots(
                        volume.stored(file.directory),
                        file.index as int,
                        seq![
                            edit.applied(
                                dir::slot(volume.stored(file.directory), file.index as int),
                            ),
                        ],
                    )
                }
        }),
{
    outage::lemma_check_live(volume, file);
    let live = volume.check_live(file).0;
    let keep = operations::clusters_for(size as int, volume.cluster_bytes());
    let first = if keep == 0 {
        0
    } else {
        file.first_cluster
    };
    let edit = Edit::Update { first_cluster: first, size, at: now };
    let midway = live.edit_slot(file.directory, file.index, edit).0;
    let after = volume.truncate(file, size, now).0;
    storage::lemma_edit_slot(live, file.directory, file.index, edit);
    let clusters = volume.table.chain(file.first_cluster)->Ok_0;
    let theirs = volume.table.chain(file.directory)->Ok_0;
    assert(midway.table == volume.table);
    table::lemma_chain(volume.table, file.first_cluster);
    assert forall|i: int| 0 <= i < clusters.len() implies outage::leaves(
        volume,
        midway,
        #[trigger] clusters[i],
    ) by {
        if theirs.contains(clusters[i]) {
            let j = theirs.index_of(clusters[i]);
            assert(theirs[j] == clusters[i]);
        }
        outage::lemma_leaves_looked(volume, live, clusters[i]);
        outage::lemma_leaves_edit_slot(live, file.directory, file.index, edit, clusters[i]);
        outage::lemma_leaves_then(volume, live, midway, clusters[i]);
    }
    assert(midway.laid_out() && midway.fits());
    let held = Volume {
        table: midway.table.shortened(file.first_cluster, keep as u32).0,
        ..midway
    };
    steady::lemma_shortened_marks(midway.table, file.first_cluster, keep as u32);
    assert forall|p: int| #[trigger] volume.in_clusters(theirs, p) implies outage::spares(
        midway,
        after,
        p,
    ) by {
        lemma_in_data(volume, file.directory, p);
        lemma_flush(held, p);
    }
    assert(entry_first(volume, midway, after, file.directory, clusters));
    assert(live.chain_bytes(theirs) =~= volume.chain_bytes(theirs));
}

/// Giving an empty file its first clusters, as writing to it or lengthening
/// it does: their links are on the device, in every copy of the table, before
/// the file's entry names them.
pub proof fn lemma_reserve(volume: Volume, file: FileView, size: u32, now: DateTime)
    requires
        volume.laid_out(),
        volume.fits(),
        file.first_cluster == 0,
        0 < size,
        volume.table.chain(file.directory) is Ok,
        volume.reserve(file, size, now).2 is Ok,
    ensures
        ({
            let (after, moved, _) = volume.reserve(file, size, now);
            let count = operations::clusters_for(size as int, volume.cluster_bytes()) as u32;
            let clusters = volume.table.allocated(count).1->Ok_0;
            &&& clusters[0] == moved.first_cluster
            &&& exists|midway: Volume| #[trigger]
                links_first(volume, midway, after, file.directory, clusters)
        }),
{
    reveal(Volume::reserve);
    outage::lemma_reserved_count(volume, size);
    let count = operations::clusters_for(size as int, volume.cluster_bytes()) as u32;
    let (table, result) = volume.table.allocated(count);
    let clusters = result->Ok_0;
    let held = Volume { table, ..volume };
    lemma_allocated(volume.table, count, file.directory);
    let midway = held.flush();
    storage::lemma_flush(held);
    laws::lemma_flushed_chains(held.table);
    let edit = Edit::Update { first_cluster: clusters[0], size: file.size, at: now };
    let after = midway.edit_slot(file.directory, file.index, edit).0;
    assert forall|p: int| #[trigger]
        volume.in_clusters(volume.table.chain(file.directory)->Ok_0, p) implies outage::spares(
        volume,
        midway,
        p,
    ) by {
        lemma_in_data(volume, file.directory, p);
        lemma_same(volume, held, p);
        lemma_flush(held, p);
        outage::lemma_then(volume, held, midway, p);
    }
    assert forall|i: int| 0 <= i < clusters.len() implies {
        &&& midway.link_stored(#[trigger] clusters[i])
        &&& outage::leaves(midway, after, clusters[i])
    } by {
        assert(held.table.in_use(clusters[i]));
        lemma_flush_links(held, clusters[i]);
        outage::lemma_leaves_edit_slot(midway, file.directory, file.index, edit, clusters[i]);
    }
    assert(links_first(volume, midway, after, file.directory, clusters));
}

} // verus!
