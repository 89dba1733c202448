//! What holds of the library as a whole: what a read gives back of a write,
//! what a change leaves alone, and what a directory lists.
use vstd::prelude::*;

use crate::bytes;
use crate::chains;
use crate::dir;
use crate::dir::{EntryView, Listing};
use crate::error::{FatError, Fault};
use crate::fs;
use crate::listing;
use crate::operations;
use crate::operations::FileView;
use crate::storage;
use crate::table;
use crate::time::DateTime;
use crate::volume::{Edit, Volume};

verus! {

impl Volume {
    /// The bytes of the chain that starts at `start`, as the device stores
    /// them.
    pub open spec fn stored(self, start: u32) -> Seq<u8> {
        self.chain_bytes(self.table.chain(start)->Ok_0)
    }

    /// What reading a directory off the device gives.
    pub open spec fn stored_listing(self, directory: u32) -> Result<Listing, Fault> {
        match self.table.chain(directory) {
            Err(error) => Err(Fault::Fat(error)),
            Ok(_) => match dir::listing_of(self.stored(directory), self.codepage) {
                Err(index) => Err(Fault::EntryAfterEnd { index }),
                Ok(listing) => Ok(listing),
            },
        }
    }

    /// Whether a directory, if it is held in memory, is held as the device
    /// stores it.
    pub open spec fn coherent_at(self, directory: u32) -> bool {
        self.directories.contains_key(directory) ==> self.stored_listing(directory) == Ok::<
            Listing,
            Fault,
        >(self.directories[directory])
    }

    /// Whether every directory held in memory is held as the device stores
    /// it.
    pub open spec fn coherent(self) -> bool {
        forall|directory: u32| #[trigger]
            self.directories.contains_key(directory) ==> self.stored_listing(directory) == Ok::<
                Listing,
                Fault,
            >(self.directories[directory])
    }

    /// Whether the slot a handle remembers holds the entry it was made from.
    pub open spec fn holds(self, file: FileView) -> bool {
        let data = self.stored(file.directory);
        &&& self.table.chain(file.directory) is Ok
        &&& self.deletions_of(file.directory) == file.deletions
        &&& self.coherent_at(file.directory)
        &&& self.stored_listing(file.directory) is Ok
        &&& dir::slot_count(data) <= u32::MAX
        &&& file.index < dir::slot_count(data)
        &&& dir::is_entry(data, file.index as int)
        &&& dir::slot(data, file.index as int).subrange(0, 11) == file.short.raw
    }
}

/// Whether the chain from `start` is the same in both volumes, and so are its
/// bytes.
pub open spec fn untouched(before: Volume, after: Volume, start: u32) -> bool {
    &&& after.table.chain(start) == before.table.chain(start)
    &&& after.stored(start) == before.stored(start)
}

/// Whether a listing is the same but for what the entry in slot `index` says
/// of its first cluster, its length and its modification time.
#[verifier::opaque]
pub open spec fn refreshed(before: Listing, after: Listing, index: u32) -> bool {
    &&& after.entries.len() == before.entries.len()
    &&& forall|j: int|
        0 <= j < before.entries.len() ==> {
            &&& #[trigger] after.entries[j] == (EntryView {
                first_cluster: after.entries[j].first_cluster,
                size: after.entries[j].size,
                modified: after.entries[j].modified,
                ..before.entries[j]
            })
            &&& before.entries[j].index != index ==> after.entries[j] == before.entries[j]
        }
}

/// A listing is the same as itself, and what is the same twice over is the
/// same.
pub proof fn lemma_refreshed(a: Listing, b: Listing, c: Listing, index: u32)
    ensures
        refreshed(a, a, index),
        refreshed(a, b, index) && refreshed(b, c, index) ==> refreshed(a, c, index),
{
    reveal(refreshed);
    if refreshed(a, b, index) && refreshed(b, c, index) {
        assert forall|j: int| 0 <= j < a.entries.len() implies {
            &&& #[trigger] c.entries[j] == (EntryView {
                first_cluster: c.entries[j].first_cluster,
                size: c.entries[j].size,
                modified: c.entries[j].modified,
                ..a.entries[j]
            })
            &&& a.entries[j].index != index ==> c.entries[j] == a.entries[j]
        } by {
            assert(b.entries[j].index == a.entries[j].index);
        }
    }
}

/// Of the entry in a slot, a refreshed listing says the same but for its
/// first cluster, its length and its modification time.
pub proof fn lemma_refreshed_at(a: Listing, b: Listing, index: u32)
    requires
        refreshed(a, b, index),
        a.entry_at(index) is Some,
        forall|x: int, y: int|
            0 <= x < y < a.entries.len() ==> #[trigger] a.entries[x].index
                < #[trigger] a.entries[y].index,
    ensures
        b.entry_at(index) is Some,
        b.entry_at(index)->0 == (EntryView {
            first_cluster: b.entry_at(index)->0.first_cluster,
            size: b.entry_at(index)->0.size,
            modified: b.entry_at(index)->0.modified,
            ..a.entry_at(index)->0
        }),
{
    reveal(refreshed);
    let x = choose|at: int| 0 <= at < a.entries.len() && a.entries[at].index == index;
    assert(b.entries[x].index == index);
    let y = choose|at: int| 0 <= at < b.entries.len() && b.entries[at].index == index;
    assert(a.entries[y].index == index);
    assert(x == y);
}

/// Whether both volumes are the same one, as far as nothing changes it.
pub open spec fn same_volume(before: Volume, after: Volume) -> bool {
    &&& after.boot == before.boot
    &&& after.first_block == before.first_block
    &&& after.codepage == before.codepage
    &&& after.deletions == before.deletions
    &&& after.disk.len() == before.disk.len()
    &&& after.laid_out()
}

/// A chain's bytes are the same where no place of its clusters changed.
pub proof fn lemma_bytes_same(before: Volume, after: Volume, clusters: Seq<u32>)
    requires
        before.laid_out(),
        before.fits(),
        before.boot == after.boot,
        before.first_block == after.first_block,
        forall|k: int| 0 <= k < clusters.len() ==> before.table.valid(#[trigger] clusters[k] as int),
        forall|p: int|
            before.data_at() <= p < before.disk.len() && before.in_clusters(clusters, p)
                ==> #[trigger] after.disk[p] == before.disk[p],
    ensures
        after.chain_bytes(clusters) == before.chain_bytes(clusters),
{
    assert forall|i: int| 0 <= i < clusters.len() * before.cluster_bytes() implies after.chain_bytes(
        clusters,
    )[i] == before.chain_bytes(clusters)[i] by {
        storage::lemma_position(before, clusters, i);
        let p = before.position(clusters, i);
        assert(before.in_cluster(clusters[i / before.cluster_bytes()], p));
        assert(after.position(clusters, i) == p);
        assert(after.disk[p] == before.disk[p]);
    }
    assert(after.chain_bytes(clusters) =~= before.chain_bytes(clusters));
}

/// A chain is untouched by what changes no entry of its clusters and writes
/// only to other clusters.
pub proof fn lemma_untouched(
    before: Volume,
    after: Volume,
    start: u32,
    relinked: Seq<u32>,
    written: Seq<u32>,
)
    requires
        before.laid_out(),
        before.fits(),
        after.table.wf(),
        before.boot == after.boot,
        before.first_block == after.first_block,
        before.table.cluster_count == after.table.cluster_count,
        before.table.chain(start) is Ok,
        chains::apart(before.table.chain(start)->Ok_0, relinked),
        chains::apart(before.table.chain(start)->Ok_0, written),
        forall|c: u32|
            before.table.valid(c as int) && !relinked.contains(c) ==> #[trigger] after.table.value(
                c as int,
            ) == before.table.value(c as int),
        forall|p: int|
            before.data_at() <= p < before.disk.len() && !before.in_clusters(written, p)
                ==> #[trigger] after.disk[p] == before.disk[p],
    ensures
        untouched(before, after, start),
{
    let clusters = before.table.chain(start)->Ok_0;
    table::lemma_chain(before.table, start);
    chains::lemma_chain_apart(before.table, after.table, start, relinked);
    assert forall|p: int|
        before.data_at() <= p < before.disk.len() && before.in_clusters(
            clusters,
            p,
        ) implies #[trigger] after.disk[p] == before.disk[p] by {
        if before.in_clusters(written, p) {
            let i = choose|i: int|
                0 <= i < clusters.len() && before.in_cluster(#[trigger] clusters[i], p);
            let j = choose|j: int|
                0 <= j < written.len() && before.in_cluster(#[trigger] written[j], p);
            storage::lemma_one_cluster(before, clusters[i], written[j], p);
            assert(clusters[i] != written[j]);
        }
    }
    lemma_bytes_same(before, after, clusters);
}

/// Reading a directory gives what the device stores.
pub proof fn lemma_read_dir(volume: Volume, directory: u32)
    requires
        volume.coherent_at(directory),
    ensures
        volume.read_dir(directory).1 == volume.stored_listing(directory),
        volume.read_dir(directory).0.coherent_at(directory),
        volume.read_dir(directory).0.looks_like(volume),
        volume.read_dir(directory).1 is Ok
            ==> volume.read_dir(directory).0.directories.contains_key(directory),
{
    reveal(Volume::read_dir);
    let after = volume.read_dir(directory).0;
    if volume.table.chain(directory) is Ok {
        assert(after.stored(directory) =~= volume.stored(directory));
    }
}

/// A directory has no more slots than slot numbers.
pub proof fn lemma_slot_count(volume: Volume, directory: u32)
    requires
        volume.laid_out(),
        volume.table.chain(directory) is Ok,
    ensures
        volume.stored(directory).len() % 32 == 0,
        volume.stored(directory).len() == volume.table.chain(directory)->Ok_0.len()
            * volume.cluster_bytes(),
{
    let clusters = volume.table.chain(directory)->Ok_0;
    table::lemma_chain(volume.table, directory);
    fs::lemma_chain_size(volume, clusters.len() as int);
    let spc = volume.boot.sectors_per_cluster as int;
    let n = clusters.len() as int;
    assert(n * (spc * 512) == 32 * (n * spc * 16)) by (nonlinear_arith);
}

/// A handle that is found to be live is one whose slot still holds its entry.
pub proof fn lemma_live(volume: Volume, file: FileView)
    requires
        volume.laid_out(),
        volume.coherent_at(file.directory),
        dir::slot_count(volume.stored(file.directory)) <= u32::MAX,
        volume.check_live(file).1 is Ok,
    ensures
        volume.holds(file),
        volume.check_live(file).0.holds(file),
        volume.check_live(file).0.looks_like(volume),
        volume.check_live(file).0.laid_out(),
{
    reveal(Volume::check_live);
    lemma_read_dir(volume, file.directory);
    let live = volume.check_live(file).0;
    assert(live == volume.read_dir(file.directory).0);
    let data = volume.stored(file.directory);
    let listing = volume.stored_listing(file.directory)->Ok_0;
    assert(volume.table.chain(file.directory) is Ok);
    dir::lemma_entries(data, dir::slot_count(data), volume.codepage);
    dir::lemma_listing_wf(data, volume.codepage);
    let a = choose|a: int|
        0 <= a < listing.entries.len() && listing.entries[a].index == file.index;
    assert(listing.entries[a].index == file.index);
    assert(live.stored(file.directory) =~= data);
}

/// A handle whose slot holds its entry is live.
pub proof fn lemma_holds_live(volume: Volume, file: FileView)
    requires
        volume.laid_out(),
        volume.holds(file),
    ensures
        volume.check_live(file).1 is Ok,
        volume.check_live(file).0.looks_like(volume),
        volume.check_live(file).0.directories.contains_key(file.directory),
{
    reveal(Volume::check_live);
    lemma_read_dir(volume, file.directory);
    listing::lemma_entry_at(volume.stored(file.directory), file.index, volume.codepage);
}

/// A handle's slot holds its entry as long as its directory is untouched.
pub proof fn lemma_holds_kept(before: Volume, after: Volume, file: FileView)
    requires
        before.holds(file),
        same_volume(before, after),
        untouched(before, after, file.directory),
        after.directories.contains_key(file.directory) ==> before.directories.contains_key(
            file.directory,
        ) && after.directories[file.directory] == before.directories[file.directory],
    ensures
        after.holds(file),
{
}

/// Changing a file's entry in place leaves it in its slot, with the new first
/// cluster and length, and touches no chain apart from the directory's.
pub proof fn lemma_entry_edited(
    volume: Volume,
    file: FileView,
    first_cluster: u32,
    size: u32,
    now: DateTime,
)
    requires
        volume.laid_out(),
        volume.fits(),
        volume.holds(file),
        volume.edit_slot(
            file.directory,
            file.index,
            Edit::Update { first_cluster, size, at: now },
        ).1 is Ok,
    ensures
        ({
            let after = volume.edit_slot(
                file.directory,
                file.index,
                Edit::Update { first_cluster, size, at: now },
            ).0;
            let clusters = volume.table.chain(file.directory)->Ok_0;
            &&& same_volume(volume, after)
            &&& after.table == volume.table
            &&& after.directories == volume.directories.remove(file.directory)
            &&& after.holds(file)
            &&& refreshed(
                volume.stored_listing(file.directory)->Ok_0,
                after.stored_listing(file.directory)->Ok_0,
                file.index,
            )
            &&& after.stored_listing(file.directory)->Ok_0.entry_at(file.index) == Some(
                EntryView {
                    first_cluster,
                    size,
                    modified: dir::modified_at(now),
                    ..volume.stored_listing(file.directory)->Ok_0.entry_at(file.index)->0
                },
            )
            &&& forall|p: int|
                volume.data_at() <= p < volume.disk.len() && !volume.in_clusters(clusters, p)
                    ==> #[trigger] after.disk[p] == volume.disk[p]
        }),
{
    let edit = Edit::Update { first_cluster, size, at: now };
    let after = volume.edit_slot(file.directory, file.index, edit).0;
    storage::lemma_edit_slot(volume, file.directory, file.index, edit);
    let data = volume.stored(file.directory);
    let old_slot = dir::slot(data, file.index as int);
    let new_slot = edit.applied(old_slot);
    let changed = storage::with_slots(data, file.index as int, seq![new_slot]);
    lemma_slot_count(volume, file.directory);
    assert(after.stored(file.directory) == changed);
    dir::lemma_updated_entry(old_slot, first_cluster, size, now);
    lemma_with_slots(data, file.index as int, seq![new_slot]);
    assert(dir::slot(changed, file.index as int) == new_slot) by {
        assert(seq![new_slot][0] == new_slot);
    }
    listing::lemma_updated(data, changed, file.index as int, volume.codepage);
    assert forall|b: int| 0 <= b < 0x14 implies old_slot[b] == new_slot[b] by {
        assert(old_slot.take(0x14)[b] == new_slot.take(0x14)[b]);
    }
    assert(new_slot.subrange(0, 11) =~= old_slot.subrange(0, 11));
    listing::lemma_entry_at(data, file.index, volume.codepage);
    listing::lemma_entry_at(changed, file.index, volume.codepage);
    let head = dir::entries_of(data, file.index as int, volume.codepage);
    let (a, b) = (
        dir::listing_of(data, volume.codepage)->Ok_0,
        dir::listing_of(changed, volume.codepage)->Ok_0,
    );
    reveal(refreshed);
    assert forall|j: int| 0 <= j < a.entries.len() implies {
        &&& #[trigger] b.entries[j] == (EntryView {
            first_cluster: b.entries[j].first_cluster,
            size: b.entries[j].size,
            modified: b.entries[j].modified,
            ..a.entries[j]
        })
        &&& a.entries[j].index != file.index ==> b.entries[j] == a.entries[j]
    } by {
        if j != head.len() {
            assert(b.entries[j] == a.entries[j]);
        }
    }
}

/// The slots of a directory after some are replaced.
pub proof fn lemma_with_slots(data: Seq<u8>, index: int, entries: Seq<Seq<u8>>)
    requires
        0 <= index,
        index + entries.len() <= dir::slot_count(data),
        forall|k: int| 0 <= k < entries.len() ==> (#[trigger] entries[k]).len() == 32,
    ensures
        ({
            let after = storage::with_slots(data, index, entries);
            &&& after.len() == data.len()
            &&& forall|k: int|
                0 <= k < entries.len() ==> dir::slot(after, index + k) == #[trigger] entries[k]
            &&& listing::same_slots(data, after, 0, index)
            &&& listing::same_slots(data, after, index + entries.len(), dir::slot_count(data))
        }),
{
    let after = storage::with_slots(data, index, entries);
    assert forall|k: int| 0 <= k < entries.len() implies dir::slot(after, index + k)
        == #[trigger] entries[k] by {
        assert(dir::slot(after, index + k) =~= entries[k]) by {
            assert forall|b: int| 0 <= b < 32 implies #[trigger] dir::slot(after, index + k)[b]
                == entries[k][b] by {
                let i = 32 * (index + k) + b;
                assert(i / 32 == index + k && i % 32 == b);
            }
        }
    }
    assert forall|k: int|
        0 <= k < dir::slot_count(data) && !(index <= k < index + entries.len()) implies #[trigger] dir::slot(
        data,
        k,
    ) == dir::slot(after, k) by {
        assert(dir::slot(data, k) =~= dir::slot(after, k)) by {
            assert forall|b: int| 0 <= b < 32 implies #[trigger] dir::slot(after, k)[b] == dir::slot(
                data,
                k,
            )[b] by {
                let i = 32 * k + b;
                assert(i / 32 == k && i % 32 == b);
            }
        }
    }
}

/// Whether a file's chain and its directory's share no cluster.
pub open spec fn unentangled(volume: Volume, file: FileView) -> bool {
    file.first_cluster != 0 && volume.table.chain(file.first_cluster) is Ok ==> chains::apart(
        volume.table.chain(file.first_cluster)->Ok_0,
        volume.table.chain(file.directory)->Ok_0,
    )
}

/// Whether a chain shares no cluster with a file's chain or its directory's.
pub open spec fn bystander(volume: Volume, file: FileView, start: u32) -> bool {
    &&& volume.table.chain(start) is Ok
    &&& chains::apart(
        volume.table.chain(start)->Ok_0,
        volume.table.chain(file.directory)->Ok_0,
    )
    &&& file.first_cluster != 0 && volume.table.chain(file.first_cluster) is Ok ==> chains::apart(
        volume.table.chain(start)->Ok_0,
        volume.table.chain(file.first_cluster)->Ok_0,
    )
}

/// What making room for `size` bytes does to a volume: the file has a chain
/// that long, which goes on from the one it had; its entry is still in its
/// slot; and no other chain is touched.
#[verifier::opaque]
pub open spec fn made_room(
    before: Volume,
    after: Volume,
    file: FileView,
    roomy: FileView,
    size: int,
) -> bool {
    let had = before.table.chain(file.first_cluster)->Ok_0;
    let has = after.table.chain(roomy.first_cluster)->Ok_0;
    &&& same_volume(before, after)
    &&& after.holds(roomy)
    &&& roomy == (FileView { first_cluster: roomy.first_cluster, ..file })
    &&& roomy.first_cluster != 0
    &&& after.table.chain(roomy.first_cluster) is Ok
    &&& after.table.chain(file.directory) == before.table.chain(file.directory)
    &&& after.directories.remove(file.directory) == before.directories.remove(file.directory)
    &&& refreshed(
        before.stored_listing(file.directory)->Ok_0,
        after.stored_listing(file.directory)->Ok_0,
        file.index,
    )
    &&& size <= has.len() * before.cluster_bytes()
    &&& chains::apart(has, after.table.chain(file.directory)->Ok_0)
    &&& file.first_cluster != 0 ==> {
        &&& roomy.first_cluster == file.first_cluster
        &&& before.table.chain(file.first_cluster) is Ok
        &&& had.len() <= has.len()
        &&& had == has.take(had.len() as int)
        &&& forall|i: int|
            0 <= i < had.len() * before.cluster_bytes() ==> #[trigger] after.chain_byte(has, i)
                == before.chain_byte(had, i)
    }
    &&& forall|start: u32| #[trigger]
        bystander(before, file, start) ==> untouched(before, after, start) && bystander(
            after,
            roomy,
            start,
        )
}

/// Enough clusters for a number of bytes.
proof fn lemma_clusters_for(size: int, cluster_bytes: int)
    requires
        0 < size,
        0 < cluster_bytes,
    ensures
        0 < operations::clusters_for(size, cluster_bytes) <= size,
        size <= operations::clusters_for(size, cluster_bytes) * cluster_bytes,
{
    let n = operations::clusters_for(size, cluster_bytes);
    assert(0 < n <= size && size <= n * cluster_bytes) by (nonlinear_arith)
        requires
            0 < size,
            0 < cluster_bytes,
            n == (size + cluster_bytes - 1) / cluster_bytes,
    ;
}

/// Making room for a file that has no chain yet.
proof fn lemma_reserve_first(volume: Volume, file: FileView, size: u32, now: DateTime)
    requires
        volume.laid_out(),
        volume.fits(),
        volume.holds(file),
        size > 0,
        file.first_cluster == 0,
        volume.reserve(file, size, now).2 is Ok,
    ensures
        made_room(
            volume,
            volume.reserve(file, size, now).0,
            file,
            volume.reserve(file, size, now).1,
            size as int,
        ),
{
    reveal(Volume::reserve);
    reveal(made_room);
    let cb = volume.cluster_bytes();
    fs::lemma_chain_size(volume, 0);
    lemma_clusters_for(size as int, cb);
    let wanted = operations::clusters_for(size as int, cb) as u32;
    let (table, result) = volume.table.allocated(wanted);
    let clusters = result->Ok_0;
    chains::lemma_allocated(volume.table, wanted);
    let first = clusters[0];
    assert(volume.table.is_free(clusters[0] as int));
    chains::lemma_allocated_keeps(volume.table, wanted, file.directory);
    let held = Volume { table, ..volume };
    storage::lemma_flush(held);
    let flushed = held.flush();
    assert(flushed.table.entries == table.entries);
    lemma_flushed_chains(table);
    assert(untouched(volume, flushed, file.directory)) by {
        lemma_untouched(volume, flushed, file.directory, clusters, Seq::<u32>::empty());
    }
    lemma_holds_kept(volume, flushed, file);
    let edit = Edit::Update { first_cluster: first, size: file.size, at: now };
    let after = flushed.edit_slot(file.directory, file.index, edit).0;
    lemma_entry_edited(flushed, file, first, file.size, now);
    assert(flushed.stored_listing(file.directory) == volume.stored_listing(file.directory));
    assert(after.directories.remove(file.directory) =~= volume.directories.remove(file.directory));
    let roomy = FileView { first_cluster: first, ..file };
    let directory = volume.table.chain(file.directory)->Ok_0;
    assert(chains::apart(clusters, directory));
    assert forall|start: u32| #[trigger] bystander(volume, file, start) implies untouched(
        volume,
        after,
        start,
    ) && bystander(after, roomy, start) by {
        chains::lemma_allocated_keeps(volume.table, wanted, start);
        lemma_untouched(volume, flushed, start, clusters, Seq::<u32>::empty());
        lemma_untouched(flushed, after, start, Seq::<u32>::empty(), directory);
    }
}

/// Whether changes await writing is no part of a table's chains.
pub proof fn lemma_flushed_chains(table: table::Table)
    requires
        table.wf(),
    ensures
        table.flushed().wf(),
        forall|start: u32| #[trigger] table.flushed().chain(start) == table.chain(start),
{
    let flushed = table.flushed();
    assert forall|start: u32| #[trigger] flushed.chain(start) == table.chain(start) by {
        lemma_same_walk(table, flushed, start, start, 0);
    }
}

/// Walking a chain looks at entries alone.
pub proof fn lemma_same_walk(a: table::Table, b: table::Table, start: u32, cluster: u32, index: int)
    requires
        a.entries == b.entries,
        a.cluster_count == b.cluster_count,
    ensures
        a.walk(start, cluster, index) == b.walk(start, cluster, index),
    decreases a.cluster_count + 1 - index,
{
    if a.valid(cluster as int) && index <= a.cluster_count {
        lemma_same_walk(a, b, start, a.value(cluster as int), index + 1);
    }
}

/// The volume after a chain is lengthened and the table written.
pub open spec fn lengthened(volume: Volume, first: u32, more: u32) -> Volume {
    Volume {
        table: volume.table.appended(volume.table.chain(first)->Ok_0.last(), more).0,
        ..volume
    }.flush()
}

/// Lengthening a chain leaves the volume as it is otherwise: the chain keeps
/// its clusters and their bytes.
proof fn lemma_lengthened(volume: Volume, first: u32, more: u32)
    requires
        volume.laid_out(),
        volume.fits(),
        more > 0,
        volume.table.chain(first) is Ok,
        volume.table.appended(volume.table.chain(first)->Ok_0.last(), more).1 is Ok,
    ensures
        ({
            let had = volume.table.chain(first)->Ok_0;
            let added = volume.table.appended(had.last(), more).1->Ok_0;
            let after = lengthened(volume, first, more);
            &&& same_volume(volume, after)
            &&& after.directories == volume.directories
            &&& storage::undisturbed(volume, after)
            &&& after.table.chain(first) == Ok::<Seq<u32>, FatError>(had + added)
            &&& added.len() == more
            &&& forall|i: int|
                0 <= i < had.len() * volume.cluster_bytes() ==> #[trigger] after.chain_byte(
                    had + added,
                    i,
                ) == volume.chain_byte(had, i)
        }),
{
    let had = volume.table.chain(first)->Ok_0;
    let (table, result) = volume.table.appended(had.last(), more);
    let added = result->Ok_0;
    let has = had + added;
    chains::lemma_appended(volume.table, first, more);
    table::lemma_chain(volume.table, first);
    let held = Volume { table, ..volume };
    storage::lemma_flush(held);
    lemma_flushed_chains(table);
    let after = lengthened(volume, first, more);
    let cb = volume.cluster_bytes();
    assert forall|i: int| 0 <= i < had.len() * cb implies #[trigger] after.chain_byte(has, i)
        == volume.chain_byte(had, i) by {
        storage::lemma_position(volume, had, i);
        let p = volume.position(had, i);
        assert(has[i / cb] == had[i / cb]);
        assert(after.position(has, i) == p);
        assert(after.disk[p] == volume.disk[p]);
    }
}

/// Lengthening a chain touches no chain it is apart from.
proof fn lemma_lengthened_apart(volume: Volume, first: u32, more: u32, start: u32)
    requires
        volume.laid_out(),
        volume.fits(),
        more > 0,
        volume.table.chain(first) is Ok,
        volume.table.appended(volume.table.chain(first)->Ok_0.last(), more).1 is Ok,
        volume.table.chain(start) is Ok,
        chains::apart(volume.table.chain(start)->Ok_0, volume.table.chain(first)->Ok_0),
    ensures
        untouched(volume, lengthened(volume, first, more), start),
        chains::apart(
            volume.table.chain(start)->Ok_0,
            volume.table.chain(first)->Ok_0 + volume.table.appended(
                volume.table.chain(first)->Ok_0.last(),
                more,
            ).1->Ok_0,
        ),
{
    let had = volume.table.chain(first)->Ok_0;
    let clusters = volume.table.chain(start)->Ok_0;
    let (table, result) = volume.table.appended(had.last(), more);
    let added = result->Ok_0;
    let has = had + added;
    let changed = added.push(had.last());
    let after = lengthened(volume, first, more);
    lemma_lengthened(volume, first, more);
    chains::lemma_appended(volume.table, first, more);
    table::lemma_chain(volume.table, first);
    chains::lemma_chain_not_free(volume.table, start, added);
    assert forall|i: int, j: int|
        0 <= i < clusters.len() && 0 <= j < changed.len() implies #[trigger] clusters[i]
        != #[trigger] changed[j] by {
        if j < added.len() {
            assert(clusters[i] != added[j]);
        } else {
            assert(clusters[i] != had[had.len() - 1]);
        }
    }
    assert forall|i: int, j: int|
        0 <= i < clusters.len() && 0 <= j < has.len() implies #[trigger] clusters[i]
        != #[trigger] has[j] by {
        if j < had.len() {
            assert(clusters[i] != had[j]);
        } else {
            assert(clusters[i] != added[j - had.len()]);
        }
    }
    assert(after.table == table.flushed()) by {
        storage::lemma_flush(Volume { table, ..volume });
    }
    assert forall|c: u32|
        volume.table.valid(c as int) && !changed.contains(c) implies #[trigger] after.table.value(
        c as int,
    ) == volume.table.value(c as int) by {
        assert(table.value(c as int) == volume.table.value(c as int));
    }
    lemma_untouched(volume, after, start, changed, Seq::<u32>::empty());
}

/// Making room for a file that has a chain.
proof fn lemma_reserve_more(volume: Volume, file: FileView, size: u32, now: DateTime)
    requires
        volume.laid_out(),
        volume.fits(),
        volume.holds(file),
        unentangled(volume, file),
        size > 0,
        file.first_cluster != 0,
        volume.reserve(file, size, now).2 is Ok,
    ensures
        made_room(
            volume,
            volume.reserve(file, size, now).0,
            file,
            volume.reserve(file, size, now).1,
            size as int,
        ),
{
    reveal(Volume::reserve);
    reveal(made_room);
    let cb = volume.cluster_bytes();
    fs::lemma_chain_size(volume, 0);
    lemma_clusters_for(size as int, cb);
    let wanted = operations::clusters_for(size as int, cb);
    let had = volume.table.chain(file.first_cluster)->Ok_0;
    let directory = volume.table.chain(file.directory)->Ok_0;
    let after = volume.reserve(file, size, now).0;
    let listed = volume.stored_listing(file.directory)->Ok_0;
    lemma_refreshed(listed, listed, listed, file.index);
    if wanted <= had.len() {
        assert(size <= had.len() * cb) by (nonlinear_arith)
            requires
                size <= wanted * cb,
                wanted <= had.len(),
                0 < cb,
        ;
        assert(had =~= had.take(had.len() as int));
    } else {
        let more = (wanted - had.len()) as u32;
        let added = volume.table.appended(had.last(), more).1->Ok_0;
        let has = had + added;
        assert(after == lengthened(volume, file.first_cluster, more));
        lemma_lengthened(volume, file.first_cluster, more);
        assert(chains::apart(directory, had));
        lemma_lengthened_apart(volume, file.first_cluster, more, file.directory);
        lemma_holds_kept(volume, after, file);
        assert(had =~= has.take(had.len() as int));
        assert(has.len() == wanted);
        assert(chains::apart(has, directory));
        assert forall|start: u32| #[trigger] bystander(volume, file, start) implies untouched(
            volume,
            after,
            start,
        ) && bystander(after, file, start) by {
            lemma_lengthened_apart(volume, file.first_cluster, more, start);
        }
    }
}

/// Writing to a file's own chain leaves its entry in its slot, and touches no
/// other chain.
pub proof fn lemma_chain_written(
    before: Volume,
    after: Volume,
    file: FileView,
    from: int,
    data: Seq<u8>,
)
    requires
        before.laid_out(),
        before.fits(),
        before.holds(file),
        file.first_cluster != 0,
        before.table.chain(file.first_cluster) is Ok,
        unentangled(before, file),
        storage::chain_spliced(
            before,
            after,
            before.table.chain(file.first_cluster)->Ok_0,
            from,
            data,
        ),
        after.written_from(before),
    ensures
        same_volume(before, after),
        after.holds(file),
        unentangled(after, file),
        untouched(before, after, file.directory),
        forall|start: u32| #[trigger]
            bystander(before, file, start) ==> untouched(before, after, start) && bystander(
                after,
                file,
                start,
            ),
{
    let clusters = before.table.chain(file.first_cluster)->Ok_0;
    let directory = before.table.chain(file.directory)->Ok_0;
    assert(chains::apart(directory, clusters));
    lemma_untouched(before, after, file.directory, Seq::<u32>::empty(), clusters);
    lemma_holds_kept(before, after, file);
    assert forall|start: u32| #[trigger] bystander(before, file, start) implies untouched(
        before,
        after,
        start,
    ) && bystander(after, file, start) by {
        lemma_untouched(before, after, start, Seq::<u32>::empty(), clusters);
    }
}

/// Making room leaves the file with a chain that is long enough.
pub proof fn lemma_reserve(volume: Volume, file: FileView, size: u32, now: DateTime)
    requires
        volume.laid_out(),
        volume.fits(),
        volume.holds(file),
        unentangled(volume, file),
        size > 0,
        volume.reserve(file, size, now).2 is Ok,
    ensures
        made_room(
            volume,
            volume.reserve(file, size, now).0,
            file,
            volume.reserve(file, size, now).1,
            size as int,
        ),
{
    if file.first_cluster == 0 {
        lemma_reserve_first(volume, file, size, now);
    } else {
        lemma_reserve_more(volume, file, size, now);
    }
}

/// The byte a file has at `i` once `data` is written at `offset`: the data's,
/// the one it had, or a zero where it was not that long.
pub open spec fn byte_after(
    before: Volume,
    file: FileView,
    offset: int,
    data: Seq<u8>,
    i: int,
) -> u8 {
    if offset <= i < offset + data.len() {
        data[i - offset]
    } else if i < file.size {
        before.chain_byte(before.table.chain(file.first_cluster)->Ok_0, i)
    } else {
        0
    }
}

/// Whether byte `i` of a file is one that its chain reaches, or one past its
/// end.
pub open spec fn accounted(volume: Volume, file: FileView, i: int) -> bool {
    i < file.size ==> file.first_cluster != 0 && i < volume.table.chain(
        file.first_cluster,
    )->Ok_0.len() * volume.cluster_bytes()
}

/// What filling the gap and writing the data does, before a new length is
/// recorded.
#[verifier::opaque]
pub open spec fn filled(
    before: Volume,
    wrote: Volume,
    file: FileView,
    roomy: FileView,
    offset: int,
    data: Seq<u8>,
) -> bool {
    let clusters = wrote.table.chain(roomy.first_cluster)->Ok_0;
    let end = offset + data.len();
    &&& same_volume(before, wrote)
    &&& wrote.holds(roomy)
    &&& roomy == (FileView { first_cluster: roomy.first_cluster, ..file })
    &&& roomy.first_cluster != 0
    &&& wrote.table.chain(roomy.first_cluster) is Ok
    &&& wrote.table.chain(file.directory) == before.table.chain(file.directory)
    &&& wrote.directories.remove(file.directory) == before.directories.remove(file.directory)
    &&& refreshed(
        before.stored_listing(file.directory)->Ok_0,
        wrote.stored_listing(file.directory)->Ok_0,
        file.index,
    )
    &&& unentangled(wrote, roomy)
    &&& end <= clusters.len() * before.cluster_bytes()
    &&& file.first_cluster != 0 ==> before.table.chain(file.first_cluster)->Ok_0.len()
        <= clusters.len()
    &&& wrote.chain_bytes(clusters).subrange(offset, end) == data
    &&& forall|i: int|
        0 <= i < clusters.len() * before.cluster_bytes() && (i < file.size || i < end) && accounted(
            before,
            file,
            i,
        ) ==> #[trigger] wrote.chain_byte(clusters, i) == byte_after(before, file, offset, data, i)
    &&& forall|start: u32| #[trigger]
        bystander(before, file, start) ==> untouched(before, wrote, start) && bystander(
            wrote,
            roomy,
            start,
        )
}

/// Filling the gap and writing the data, in a chain that is long enough.
proof fn lemma_filled(
    before: Volume,
    reserved: Volume,
    file: FileView,
    roomy: FileView,
    offset: int,
    data: Seq<u8>,
)
    requires
        before.laid_out(),
        before.fits(),
        0 <= offset,
        data.len() > 0,
        made_room(before, reserved, file, roomy, offset + data.len()),
        ({
            let (zeroed, result) = if offset > file.size {
                reserved.zero_chain(roomy.first_cluster, file.size as int, offset)
            } else {
                (reserved, Ok(()))
            };
            result is Ok && zeroed.write_chain(roomy.first_cluster, offset, data).1 is Ok
        }),
    ensures
        ({
            let (zeroed, result) = if offset > file.size {
                reserved.zero_chain(roomy.first_cluster, file.size as int, offset)
            } else {
                (reserved, Ok(()))
            };
            filled(
                before,
                zeroed.write_chain(roomy.first_cluster, offset, data).0,
                file,
                roomy,
                offset,
                data,
            )
        }),
{
    reveal(made_room);
    reveal(filled);
    let first = roomy.first_cluster;
    let clusters = reserved.table.chain(first)->Ok_0;
    let (zeroed, result) = if offset > file.size {
        reserved.zero_chain(first, file.size as int, offset)
    } else {
        (reserved, Ok(()))
    };
    let gap = if offset > file.size {
        offset - file.size
    } else {
        0
    };
    assert(unentangled(reserved, roomy));
    if offset > file.size {
        storage::lemma_zero_chain(reserved, first, file.size as int, offset);
        lemma_chain_written(
            reserved,
            zeroed,
            roomy,
            file.size as int,
            bytes::zeros((offset - file.size) as nat),
        );
    }
    storage::lemma_write_chain(zeroed, first, offset, data);
    let written = zeroed.write_chain(first, offset, data).0;
    lemma_chain_written(zeroed, written, roomy, offset, data);
    assert(written.chain_bytes(clusters).subrange(offset, offset + data.len()) =~= data) by {
        assert forall|k: int| 0 <= k < data.len() implies #[trigger] written.chain_bytes(
            clusters,
        ).subrange(offset, offset + data.len())[k] == data[k] by {
            assert(written.chain_byte(clusters, offset + k) == data[k]);
        }
    }
    assert forall|i: int|
        0 <= i < clusters.len() * before.cluster_bytes() && (i < file.size || i < offset
            + data.len()) && accounted(before, file, i) implies #[trigger] written.chain_byte(
        clusters,
        i,
    ) == byte_after(before, file, offset, data, i) by {
        assert(zeroed.chain_byte(clusters, i) == (if file.size <= i < file.size + gap {
            0u8
        } else {
            reserved.chain_byte(clusters, i)
        }));
        if i < file.size {
            let had = before.table.chain(file.first_cluster)->Ok_0;
            assert(reserved.chain_byte(clusters, i) == before.chain_byte(had, i));
        }
    }
    assert forall|start: u32| #[trigger] bystander(before, file, start) implies untouched(
        before,
        written,
        start,
    ) && bystander(written, roomy, start) by {
        assert(bystander(reserved, roomy, start));
        assert(bystander(zeroed, roomy, start));
    }
}

/// What a successful write does: the handle is as long as it has to be and
/// still live, reading the place gives the data back, every other byte of the
/// file is the one it had, a gap before the data is zeros, and no other chain
/// is touched. A file that became longer says so in its entry, and of the
/// entry's times the last change is the only one that moves.
pub open spec fn wrote_down(
    before: Volume,
    after: Volume,
    file: FileView,
    written: FileView,
    offset: int,
    data: Seq<u8>,
    now: DateTime,
) -> bool {
    let end = offset + data.len();
    let clusters = after.table.chain(written.first_cluster)->Ok_0;
    &&& written == (FileView {
        first_cluster: written.first_cluster,
        size: written.size,
        ..file
    })
    &&& written.first_cluster != 0
    &&& written.size == (if end > file.size {
        end
    } else {
        file.size as int
    })
    &&& same_volume(before, after)
    &&& after.holds(written)
    &&& after.check_live(written).1 is Ok
    &&& after.table.chain(written.first_cluster) is Ok
    &&& after.table.chain(file.directory) == before.table.chain(file.directory)
    &&& after.directories.remove(file.directory) == before.directories.remove(file.directory)
    &&& refreshed(
        before.stored_listing(file.directory)->Ok_0,
        after.stored_listing(file.directory)->Ok_0,
        file.index,
    )
    &&& end > file.size ==> after.stored_listing(file.directory)->Ok_0.entry_at(file.index)
        == Some(
        EntryView {
            first_cluster: written.first_cluster,
            size: written.size,
            modified: dir::modified_at(now),
            ..before.stored_listing(file.directory)->Ok_0.entry_at(file.index)->0
        },
    )
    &&& chains::apart(clusters, after.table.chain(file.directory)->Ok_0)
    &&& end <= clusters.len() * before.cluster_bytes()
    &&& accounted(before, file, file.size - 1) ==> written.size <= clusters.len()
        * before.cluster_bytes()
    &&& after.read_file(written, offset, data.len() as int).1 == Ok::<Seq<u8>, Fault>(data)
    &&& forall|i: int|
        0 <= i < written.size && accounted(before, file, i) ==> #[trigger] after.chain_byte(
            clusters,
            i,
        ) == byte_after(before, file, offset, data, i)
    &&& forall|start: u32| #[trigger]
        bystander(before, file, start) ==> untouched(before, after, start)
}

/// The entry of a file that is there says the same in a refreshed listing,
/// but for its first cluster, its length and its modification time.
pub proof fn lemma_entry_stays(before: Volume, after: Volume, file: FileView)
    requires
        before.holds(file),
        refreshed(
            before.stored_listing(file.directory)->Ok_0,
            after.stored_listing(file.directory)->Ok_0,
            file.index,
        ),
    ensures
        ({
            let old_entry = before.stored_listing(file.directory)->Ok_0.entry_at(file.index);
            let new_entry = after.stored_listing(file.directory)->Ok_0.entry_at(file.index);
            &&& old_entry is Some
            &&& new_entry is Some
            &&& new_entry->0 == (EntryView {
                first_cluster: new_entry->0.first_cluster,
                size: new_entry->0.size,
                modified: new_entry->0.modified,
                ..old_entry->0
            })
        }),
{
    let data = before.stored(file.directory);
    dir::lemma_entries(data, dir::slot_count(data), before.codepage);
    listing::lemma_entry_at(data, file.index, before.codepage);
    lemma_refreshed_at(
        before.stored_listing(file.directory)->Ok_0,
        after.stored_listing(file.directory)->Ok_0,
        file.index,
    );
}

/// Recording the new length after the data is there.
proof fn lemma_recorded(
    before: Volume,
    wrote: Volume,
    after: Volume,
    file: FileView,
    roomy: FileView,
    written: FileView,
    offset: int,
    data: Seq<u8>,
    now: DateTime,
)
    requires
        before.laid_out(),
        before.fits(),
        0 <= offset,
        data.len() > 0,
        offset + data.len() <= u32::MAX,
        before.holds(file),
        filled(before, wrote, file, roomy, offset, data),
        if offset + data.len() > file.size {
            let edit = Edit::Update {
                first_cluster: roomy.first_cluster,
                size: (offset + data.len()) as u32,
                at: now,
            };
            &&& after == wrote.edit_slot(file.directory, file.index, edit).0
            &&& wrote.edit_slot(file.directory, file.index, edit).1 is Ok
            &&& written == (FileView { size: (offset + data.len()) as u32, ..roomy })
        } else {
            after == wrote && written == roomy
        },
    ensures
        wrote_down(before, after, file, written, offset, data, now),
{
    reveal(filled);
    let end = offset + data.len();
    let clusters = wrote.table.chain(roomy.first_cluster)->Ok_0;
    let directory = wrote.table.chain(file.directory)->Ok_0;
    if end > file.size {
        lemma_entry_edited(wrote, roomy, roomy.first_cluster, end as u32, now);
        assert(chains::apart(clusters, directory));
        lemma_untouched(wrote, after, roomy.first_cluster, Seq::<u32>::empty(), directory);
        lemma_refreshed(
            before.stored_listing(file.directory)->Ok_0,
            wrote.stored_listing(file.directory)->Ok_0,
            after.stored_listing(file.directory)->Ok_0,
            file.index,
        );
        assert(after.directories.remove(file.directory) =~= wrote.directories.remove(
            file.directory,
        ));
        lemma_entry_stays(before, wrote, file);
    }
    assert(after.table == wrote.table);
    assert(after.chain_bytes(clusters) == wrote.chain_bytes(clusters));
    assert(after.holds(written));
    lemma_holds_live(after, written);
    assert forall|i: int| 0 <= i < clusters.len() * before.cluster_bytes() implies #[trigger] after.chain_byte(
        clusters,
        i,
    ) == wrote.chain_byte(clusters, i) by {
        assert(after.chain_bytes(clusters)[i] == wrote.chain_bytes(clusters)[i]);
    }
    assert forall|i: int| 0 <= i < written.size && accounted(before, file, i) implies #[trigger] after.chain_byte(
        clusters,
        i,
    ) == byte_after(before, file, offset, data, i) by {
        if i < file.size {
            let had = before.table.chain(file.first_cluster)->Ok_0;
            assert(had.len() * before.cluster_bytes() <= clusters.len() * before.cluster_bytes())
                by (nonlinear_arith)
                requires
                    had.len() <= clusters.len(),
                    0 <= before.cluster_bytes(),
            ;
        }
        assert(wrote.chain_byte(clusters, i) == byte_after(before, file, offset, data, i));
    }
    assert(after.chain_bytes(clusters).subrange(offset, end) =~= data);
    if end <= file.size && accounted(before, file, file.size - 1) {
        let had = before.table.chain(file.first_cluster)->Ok_0;
        assert(had.len() * before.cluster_bytes() <= clusters.len() * before.cluster_bytes())
            by (nonlinear_arith)
            requires
                had.len() <= clusters.len(),
                0 <= before.cluster_bytes(),
        ;
    }
    assert forall|start: u32| #[trigger] bystander(before, file, start) implies untouched(
        before,
        after,
        start,
    ) by {
        assert(bystander(wrote, roomy, start));
        if end > file.size {
            lemma_untouched(wrote, after, start, Seq::<u32>::empty(), directory);
        }
    }
}

/// Writing through a live handle.
proof fn lemma_write_live(
    live: Volume,
    file: FileView,
    offset: int,
    data: Seq<u8>,
    now: DateTime,
)
    requires
        live.laid_out(),
        live.fits(),
        live.holds(file),
        unentangled(live, file),
        0 <= offset,
        data.len() > 0,
        offset + data.len() <= u32::MAX,
        live.write_live(file, offset, data, now).2 is Ok,
    ensures
        wrote_down(
            live,
            live.write_live(file, offset, data, now).0,
            file,
            live.write_live(file, offset, data, now).1,
            offset,
            data,
            now,
        ),
{
    let end = offset + data.len();
    let (after, written, _) = live.write_live(file, offset, data, now);
    let (reserved, roomy, _) = live.reserve(file, end as u32, now);
    let (zeroed, _) = if offset > file.size {
        reserved.zero_chain(roomy.first_cluster, file.size as int, offset)
    } else {
        (reserved, Ok(()))
    };
    let wrote = zeroed.write_chain(roomy.first_cluster, offset, data).0;
    assert(live.reserve(file, end as u32, now).2 is Ok) by {
        reveal(Volume::write_live);
    }
    lemma_reserve(live, file, end as u32, now);
    assert(roomy.size == file.size && roomy.directory == file.directory && roomy.index
        == file.index) by {
        reveal(made_room);
    }
    assert(filled(live, wrote, file, roomy, offset, data)) by {
        reveal(Volume::write_live);
        lemma_filled(live, reserved, file, roomy, offset, data);
    }
    assert(wrote_down(live, after, file, written, offset, data, now)) by {
        reveal(Volume::write_live);
        lemma_recorded(live, wrote, after, file, roomy, written, offset, data, now);
    }
}

/// What is written is what is read: after a successful write, reading the
/// same place through the handle gives the data back. Every other byte of the
/// file is the one it had, a gap before the data is zeros, and no other chain
/// is touched.
///
/// The device is to be as long as the volume, the directory held as it is
/// stored, and the file's chain apart from its directory's: on a volume where
/// the two share a cluster, writing the one overwrites the other.
pub proof fn lemma_write_reads_back(
    volume: Volume,
    file: FileView,
    offset: int,
    data: Seq<u8>,
    now: DateTime,
)
    requires
        volume.laid_out(),
        volume.fits(),
        volume.coherent_at(file.directory),
        dir::slot_count(volume.stored(file.directory)) <= u32::MAX,
        unentangled(volume, file),
        0 <= offset,
        data.len() > 0,
        volume.write_file_at(file, offset, data, now).2 is Ok,
    ensures
        wrote_down(
            volume,
            volume.write_file_at(file, offset, data, now).0,
            file,
            volume.write_file_at(file, offset, data, now).1,
            offset,
            data,
            now,
        ),
{
    let live = volume.check_live(file).0;
    lemma_live(volume, file);
    assert(live.stored(file.directory) =~= volume.stored(file.directory));
    assert(live.directories.remove(file.directory) =~= volume.directories.remove(file.directory))
        by {
        reveal(Volume::check_live);
        reveal(Volume::read_dir);
    }
    lemma_write_live(live, file, offset, data, now);
    let (after, written, _) = volume.write_file_at(file, offset, data, now);
    lemma_looked(volume, live, after, file, written, offset, data, now);
}

/// Looking at a volume first makes no difference to what a write does.
proof fn lemma_looked(
    volume: Volume,
    live: Volume,
    after: Volume,
    file: FileView,
    written: FileView,
    offset: int,
    data: Seq<u8>,
    now: DateTime,
)
    requires
        live.looks_like(volume),
        live.directories.remove(file.directory) == volume.directories.remove(file.directory),
        live.stored_listing(file.directory) == volume.stored_listing(file.directory),
        wrote_down(live, after, file, written, offset, data, now),
    ensures
        wrote_down(volume, after, file, written, offset, data, now),
{
    assert forall|i: int| 0 <= i < written.size && accounted(volume, file, i) implies #[trigger] after.chain_byte(
        after.table.chain(written.first_cluster)->Ok_0,
        i,
    ) == byte_after(volume, file, offset, data, i) by {
        assert(accounted(live, file, i));
        assert(byte_after(live, file, offset, data, i) == byte_after(
            volume,
            file,
            offset,
            data,
            i,
        ));
    }
    assert forall|start: u32| #[trigger] bystander(volume, file, start) implies untouched(
        volume,
        after,
        start,
    ) by {
        assert(live.stored(start) =~= volume.stored(start));
        assert(bystander(live, file, start));
    }
}

/// A write moves no time but that of the last change, and that only of the
/// file that was written, which has the time of the write where it became
/// longer.
pub proof fn lemma_write_moves_one_time(
    volume: Volume,
    file: FileView,
    offset: int,
    data: Seq<u8>,
    now: DateTime,
)
    requires
        volume.laid_out(),
        volume.fits(),
        volume.coherent_at(file.directory),
        dir::slot_count(volume.stored(file.directory)) <= u32::MAX,
        unentangled(volume, file),
        0 <= offset,
        data.len() > 0,
        volume.write_file_at(file, offset, data, now).2 is Ok,
    ensures
        ({
            let before = volume.stored_listing(file.directory)->Ok_0;
            let after = volume.write_file_at(file, offset, data, now).0.stored_listing(
                file.directory,
            )->Ok_0;
            &&& after.entries.len() == before.entries.len()
            &&& forall|j: int|
                0 <= j < before.entries.len() ==> {
                    &&& (#[trigger] after.entries[j]).created == before.entries[j].created
                    &&& after.entries[j].accessed == before.entries[j].accessed
                    &&& before.entries[j].index != file.index ==> after.entries[j]
                        == before.entries[j]
                }
            &&& offset + data.len() > file.size ==> after.entry_at(file.index) is Some
                && after.entry_at(file.index)->0.modified == dir::modified_at(now)
        }),
{
    lemma_write_reads_back(volume, file, offset, data, now);
    reveal(refreshed);
}

} // verus!
