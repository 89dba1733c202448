//! When creating a file or a directory succeeds: wherever its name can be
//! stored and is not taken, and there is room for its entry and its clusters.
use vstd::prelude::*;

use crate::bytes;
use crate::chains;
use crate::creation;
use crate::dir;
use crate::dir::Listing;
use crate::error::Fault;
use crate::fs;
use crate::laws;
use crate::ledger;
use crate::listing;
use crate::name;
use crate::name::StoredView;
use crate::operations;
use crate::operations::FileView;
use crate::progress;
use crate::slots;
use crate::space;
use crate::storage;
use crate::time::DateTime;
use crate::volume::Volume;

verus! {

/// Slots at the end of a directory stay unused where a cluster is added.
proof fn lemma_longer_tail(data: Seq<u8>, tail: int, more: nat)
    requires
        data.len() % 32 == 0,
        more % 32 == 0,
        0 <= tail <= data.len() as int / 32,
        slots::unused(data, data.len() as int / 32 - tail, tail),
    ensures
        ({
            let after = data + bytes::zeros(more);
            slots::unused(
                after,
                after.len() as int / 32 - (tail + more as int / 32),
                tail + more as int / 32,
            )
        }),
{
    let after = data + bytes::zeros(more);
    let n = data.len() as int / 32;
    assert(after.len() as int / 32 == n + more as int / 32);
    assert forall|i: int| n - tail <= i < after.len() as int / 32 implies !#[trigger] slots::used(
        after,
        i,
    ) by {
        if i < n {
            assert(!slots::used(data, i));
            assert(after[32 * i + 0] == data[32 * i + 0]);
        } else {
            assert(after[32 * i + 0] == 0);
        }
    }
}

/// Room for `count` slots is found where the directory ends in `tail` unused
/// ones and may grow by the clusters that are missing.
proof fn lemma_room_made(
    volume: Volume,
    directory: u32,
    count: u32,
    attempts: int,
    tail: int,
    k: int,
)
    requires
        volume.laid_out(),
        volume.fits(),
        volume.coherent_at(directory),
        volume.stored_listing(directory) is Ok,
        creation::numbered(volume, directory, attempts),
        0 < count,
        0 <= k <= attempts,
        k <= volume.table.free_count(),
        0 <= tail <= volume.stored(directory).len() as int / 32,
        slots::unused(
            volume.stored(directory),
            volume.stored(directory).len() as int / 32 - tail,
            tail,
        ),
        tail + 16 * k >= count,
    ensures
        volume.find_room(directory, count, attempts).1 is Ok,
    decreases k,
{
    laws::lemma_read_dir(volume, directory);
    laws::lemma_slot_count(volume, directory);
    fs::lemma_chain_size(volume, 0);
    let cb = volume.cluster_bytes();
    let data = volume.stored(directory);
    let n = data.len() as int / 32;
    let (read, found) = volume.read_dir(directory);
    let listing = found->Ok_0;
    assert(0 <= attempts * cb) by (nonlinear_arith)
        requires
            0 <= attempts,
            0 <= cb,
    ;
    slots::lemma_room_found(data, count, volume.codepage);
    if listing.room_for(count) is None {
        if tail >= count {
            assert(slots::unused(data, n - tail, count as int));
        }
        assert(read.grow_directory(directory).1 is Ok) by {
            reveal(Volume::grow_directory);
        }
        assert(read.stored(directory) =~= data);
        storage::lemma_grow_directory(read, directory);
        space::lemma_grown_free(read, directory);
        let grown = read.grow_directory(directory).0;
        assert(grown.stored(directory) == data + bytes::zeros(cb as nat));
        assert(cb % 32 == 0 && cb / 32 >= 16);
        lemma_longer_tail(data, tail, cb as nat);
        listing::lemma_lengthened(data, cb as nat, volume.codepage);
        assert(creation::numbered(grown, directory, attempts - 1)) by {
            assert((attempts - 1) * cb == attempts * cb - cb) by (nonlinear_arith);
        }
        lemma_room_made(grown, directory, count, attempts - 1, tail + cb / 32, k - 1);
    }
}

/// Writing slots that a directory reaches succeeds.
proof fn lemma_slots_written(
    volume: Volume,
    directory: u32,
    index: int,
    entries: Seq<Seq<u8>>,
    block: int,
)
    requires
        volume.boot.wf(),
        0 <= index,
        0 <= block,
        index + entries.len() <= u32::MAX,
        entries.len() > 0,
        progress::reaches(volume, directory, index + entries.len() - 1),
    ensures
        volume.write_slots(directory, index, entries, block).1 is Ok,
    decreases index + entries.len() + 16 - 16 * block,
{
    if 16 * block < index + entries.len() {
        progress::lemma_slot_place(volume, directory, (16 * block) as u32);
        let sector = volume.slot_location(directory, (16 * block) as u32)->Ok_0.0;
        lemma_slots_written(
            volume.after_read(sector, 1).wrote(
                sector,
                volume.filled_block(sector, block, index, entries),
            ),
            directory,
            index,
            entries,
            block + 1,
        );
    }
}

/// Putting a new entry in where there is room succeeds.
proof fn lemma_published(
    volume: Volume,
    directory: u32,
    stored: StoredView,
    entry: Seq<u8>,
    first: u32,
    index: u32,
)
    requires
        volume.laid_out(),
        index + stored.slots.len() + 1 <= u32::MAX,
        progress::reaches(volume, directory, (index + stored.slots.len()) as int),
    ensures
        volume.publish(directory, stored, entry, first, index).1 is Ok,
{
    reveal(Volume::publish);
    storage::lemma_flush(volume);
    laws::lemma_flushed_chains(volume.table);
    assert(volume.flush().table == volume.table.flushed()) by {
        reveal(Volume::flush);
    }
    lemma_slots_written(
        volume.flush(),
        directory,
        index as int,
        stored.slots.push(entry),
        index as int / 16,
    );
}

/// Whether a directory has `count` slots in a row that are not in use, or
/// could be given them by `extra` more clusters.
pub open spec fn has_room(volume: Volume, directory: u32, count: int, extra: int) -> bool {
    ||| exists|at: int| #[trigger] slots::unused(volume.stored(directory), at, count)
    ||| extra >= 2
}

/// Room is found for a name of up to 21 slots where there is some, or where two
/// clusters are free.
proof fn lemma_room_for_name(volume: Volume, directory: u32, count: u32, extra: int)
    requires
        volume.laid_out(),
        volume.fits(),
        volume.coherent_at(directory),
        volume.stored_listing(directory) is Ok,
        creation::numbered(volume, directory, fs::MAX_DIRECTORY_GROWTH as int),
        0 < count <= 21,
        0 <= extra <= volume.table.free_count(),
        has_room(volume, directory, count as int, extra),
    ensures
        ({
            let (after, result) = volume.find_room(
                directory,
                count,
                fs::MAX_DIRECTORY_GROWTH as int,
            );
            &&& result is Ok
            &&& after.laid_out()
            &&& after.boot == volume.boot
            &&& result->Ok_0 + count <= u32::MAX
            &&& progress::reaches(after, directory, result->Ok_0 + count - 1)
        }),
{
    let attempts = fs::MAX_DIRECTORY_GROWTH as int;
    laws::lemma_read_dir(volume, directory);
    laws::lemma_slot_count(volume, directory);
    fs::lemma_chain_size(volume, 0);
    let cb = volume.cluster_bytes();
    let data = volume.stored(directory);
    assert(0 <= attempts * cb) by (nonlinear_arith)
        requires
            0 <= attempts,
            0 <= cb,
    ;
    if extra >= 2 {
        lemma_room_made(volume, directory, count, attempts, 0, 2);
    } else {
        slots::lemma_room_found(data, count, volume.codepage);
        let at = choose|at: int| #[trigger] slots::unused(data, at, count as int);
        assert(slots::unused(data, at, count as int));
    }
    creation::lemma_find_room(volume, directory, count, attempts);
    let (after, result) = volume.find_room(directory, count, attempts);
    reveal(creation::roomier);
    listing::lemma_room(after.stored(directory), count, after.codepage);
    laws::lemma_slot_count(after, directory);
}

/// What creating starts from, where nothing stands in its way: the path's
/// parent is a directory that can be listed, has nothing by the name, and gives
/// it a form to be stored in.
pub open spec fn way_is_clear(
    volume: Volume,
    path: Seq<char>,
    directory: u32,
    listing: Listing,
    stored: StoredView,
) -> bool {
    let (resolved, leads) = volume.resolve(volume.boot.root_cluster, operations::parent_of(path));
    let wanted = operations::name_of(path);
    &&& leads == Ok::<u32, Fault>(directory)
    &&& volume.coherent_at(directory)
    &&& volume.stored_listing(directory) == Ok::<Listing, Fault>(listing)
    &&& listing.find(wanted) is None
    &&& name::planned(
        wanted,
        volume.codepage,
        |alias: Seq<char>| listing.find(alias) is Some,
    ) == Ok::<StoredView, Fault>(stored)
}

/// Where the way is clear, the name is planned.
proof fn lemma_way_is_clear(
    volume: Volume,
    path: Seq<char>,
    directory: u32,
    listing: Listing,
    stored: StoredView,
)
    requires
        way_is_clear(volume, path, directory, listing, stored),
    ensures
        ({
            let (resolved, leads) = volume.resolve(
                volume.boot.root_cluster,
                operations::parent_of(path),
            );
            let (planned, form) = resolved.plan_name(directory, operations::name_of(path));
            &&& form == Ok::<StoredView, Fault>(stored)
            &&& planned.looks_like(volume)
            &&& planned.coherent_at(directory)
            &&& planned.stored(directory) == volume.stored(directory)
            &&& stored.slots.len() <= 20
        }),
{
    let root = volume.boot.root_cluster;
    let way = operations::parent_of(path);
    let wanted = operations::name_of(path);
    creation::lemma_resolve_coherent(volume, root, way, directory);
    let resolved = volume.resolve(root, way).0;
    assert(resolved.stored(directory) =~= volume.stored(directory));
    laws::lemma_read_dir(resolved, directory);
    reveal(Volume::plan_name);
    let planned = resolved.plan_name(directory, wanted).0;
    assert(planned == resolved.read_dir(directory).0);
    assert(planned.stored(directory) =~= volume.stored(directory));
    name::lemma_planned(
        wanted,
        volume.codepage,
        |alias: Seq<char>| listing.find(alias) is Some,
    );
}

/// Taking clusters for something new leaves its directory as it is.
proof fn lemma_taken(volume: Volume, directory: u32, n: u32)
    requires
        volume.laid_out(),
        volume.fits(),
        volume.coherent_at(directory),
        volume.stored_listing(directory) is Ok,
        volume.table.allocated(n).1 is Ok,
    ensures
        ({
            let after = Volume { table: volume.table.allocated(n).0, ..volume };
            &&& after.laid_out()
            &&& after.fits()
            &&& after.coherent_at(directory)
            &&& after.stored(directory) == volume.stored(directory)
            &&& after.stored_listing(directory) == volume.stored_listing(directory)
            &&& after.table.free_count() + n == volume.table.free_count()
        }),
{
    let after = Volume { table: volume.table.allocated(n).0, ..volume };
    space::lemma_allocated_free(volume.table, n);
    if n > 0 {
        chains::lemma_allocated(volume.table, n);
        chains::lemma_allocated_keeps(volume.table, n, directory);
    }
    assert(after.stored(directory) =~= volume.stored(directory));
}

/// A file can be created wherever its parent can be listed and has nothing by
/// its name, its name has a form to be stored in, `n` free clusters hold what
/// it is to have room for, and there is room for its entry, or two more
/// clusters are free.
pub proof fn lemma_create_succeeds(
    volume: Volume,
    path: Seq<char>,
    size: u32,
    directory: u32,
    listing: Listing,
    stored: StoredView,
    n: int,
    extra: int,
    now: DateTime,
)
    requires
        volume.laid_out(),
        volume.fits(),
        way_is_clear(volume, path, directory, listing, stored),
        creation::numbered(volume, directory, fs::MAX_DIRECTORY_GROWTH as int),
        0 <= n,
        0 <= extra,
        size <= n * progress::cluster(volume),
        n + extra <= progress::free(volume),
        has_room(volume, directory, stored.slots.len() as int + 1, extra),
    ensures
        volume.create(path, size, now).1 is Ok,
{
    let root = volume.boot.root_cluster;
    let way = operations::parent_of(path);
    let wanted = operations::name_of(path);
    lemma_way_is_clear(volume, path, directory, listing, stored);
    let planned = volume.resolve(root, way).0.plan_name(directory, wanted).0;
    fs::lemma_chain_size(volume, 0);
    let cb = volume.cluster_bytes();
    let count = operations::clusters_for(size as int, cb);
    progress::lemma_fewest_clusters(size as int, cb, n);
    ledger::lemma_free_count(volume.table);
    assert(planned.table.allocated(count as u32).1 is Ok);
    lemma_taken(planned, directory, count as u32);
    let taken = Volume { table: planned.table.allocated(count as u32).0, ..planned };
    let slots_wanted = (stored.slots.len() + 1) as u32;
    assert(has_room(taken, directory, slots_wanted as int, extra));
    lemma_room_for_name(taken, directory, slots_wanted, extra);
    let clusters = planned.table.allocated(count as u32).1->Ok_0;
    let first = if clusters.len() > 0 {
        clusters[0]
    } else {
        0
    };
    let (roomy, found) = taken.find_room(
        directory,
        slots_wanted,
        fs::MAX_DIRECTORY_GROWTH as int,
    );
    reveal(Volume::create_with);
    lemma_published(
        roomy,
        directory,
        stored,
        dir::entry_bytes(stored.short, 0x20, first, 0, now),
        first,
        found->Ok_0,
    );
}

/// A directory can be created wherever its parent can be listed and has nothing
/// by its name, its name has a form to be stored in, a cluster is free, and
/// there is room for its entry, or two more clusters are free.
pub proof fn lemma_create_dir_succeeds(
    volume: Volume,
    path: Seq<char>,
    directory: u32,
    listing: Listing,
    stored: StoredView,
    extra: int,
    now: DateTime,
)
    requires
        volume.laid_out(),
        volume.fits(),
        way_is_clear(volume, path, directory, listing, stored),
        creation::numbered(volume, directory, fs::MAX_DIRECTORY_GROWTH as int),
        0 <= extra,
        1 + extra <= progress::free(volume),
        has_room(volume, directory, stored.slots.len() as int + 1, extra),
    ensures
        volume.create_dir(path, now).1 is Ok,
{
    let root = volume.boot.root_cluster;
    let way = operations::parent_of(path);
    let wanted = operations::name_of(path);
    lemma_way_is_clear(volume, path, directory, listing, stored);
    let planned = volume.resolve(root, way).0.plan_name(directory, wanted).0;
    ledger::lemma_free_count(volume.table);
    lemma_taken(planned, directory, 1);
    let taken = Volume { table: planned.table.allocated(1).0, ..planned };
    let slots_wanted = (stored.slots.len() + 1) as u32;
    assert(has_room(taken, directory, slots_wanted as int, extra));
    lemma_room_for_name(taken, directory, slots_wanted, extra);
    let cluster = planned.table.allocated(1).1->Ok_0[0];
    let (roomy, found) = taken.find_room(
        directory,
        slots_wanted,
        fs::MAX_DIRECTORY_GROWTH as int,
    );
    reveal(Volume::create_dir_with);
    let filled = roomy.wrote(
        taken.boot.spec_cluster_sector(cluster as int),
        taken.new_directory(cluster, directory, now),
    );
    lemma_published(
        filled,
        directory,
        stored,
        dir::entry_bytes(stored.short, 0x10, cluster, 0, now),
        cluster,
        found->Ok_0,
    );
}

/// What stands in the way of creating something is what is answered: a parent
/// that the path does not lead to, a name that is taken, one that cannot be
/// stored, or too few free clusters, in this order.
pub proof fn lemma_create_refused(
    volume: Volume,
    path: Seq<char>,
    size: u32,
    directory: u32,
    listing: Listing,
    now: DateTime,
)
    requires
        volume.laid_out(),
        ({
            let (resolved, leads) = volume.resolve(
                volume.boot.root_cluster,
                operations::parent_of(path),
            );
            &&& leads == Ok::<u32, Fault>(directory)
            &&& volume.coherent_at(directory)
            &&& volume.stored_listing(directory) == Ok::<Listing, Fault>(listing)
        }),
    ensures
        ({
            let wanted = operations::name_of(path);
            let result = volume.create(path, size, now).1;
            let made = volume.create_dir(path, now).1;
            &&& listing.find(wanted) is Some ==> result == Err::<FileView, Fault>(
                Fault::AlreadyExists { name: wanted },
            ) && made == Err::<u32, Fault>(Fault::AlreadyExists { name: wanted })
            &&& listing.find(wanted) is None && !name::storable(wanted) ==> result == Err::<
                FileView,
                Fault,
            >(Fault::BadName { name: wanted }) && made == Err::<u32, Fault>(
                Fault::BadName { name: wanted },
            )
            &&& result is Ok ==> size <= progress::free(volume) * progress::cluster(volume)
            &&& result is Ok ==> listing.find(wanted) is None && name::storable(wanted)
            &&& made is Ok ==> progress::free(volume) > 0 && listing.find(wanted) is None
                && name::storable(wanted)
        }),
{
    let root = volume.boot.root_cluster;
    let way = operations::parent_of(path);
    let wanted = operations::name_of(path);
    creation::lemma_resolve_coherent(volume, root, way, directory);
    let resolved = volume.resolve(root, way).0;
    assert(resolved.stored(directory) =~= volume.stored(directory));
    laws::lemma_read_dir(resolved, directory);
    reveal(Volume::plan_name);
    fs::lemma_chain_size(volume, 0);
    let cb = volume.cluster_bytes();
    ledger::lemma_free_count(volume.table);
    progress::lemma_fewest_clusters(size as int, cb, progress::free(volume) as int);
}

} // verus!
