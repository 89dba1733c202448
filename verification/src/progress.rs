//! When each operation succeeds: wherever the file is there, its chain can be
//! walked, and there are clusters enough.
use vstd::prelude::*;

use crate::bytes;
use crate::chains;
use crate::creation;
use crate::dir;
use crate::error::{FatError, Fault};
use crate::fs;
use crate::laws;
use crate::ledger;
use crate::name::StoredView;
use crate::operations;
use crate::operations::FileView;
use crate::replacing;
use crate::slots;
use crate::table;
use crate::table::{Run, Table};
use crate::time::DateTime;
use crate::volume::{Edit, Volume};

verus! {

/// How many clusters of a volume are free.
pub open spec fn free(volume: Volume) -> nat {
    ledger::free_set(volume.table.entries, 2 + volume.table.cluster_count).len()
}

/// Bytes in a cluster of a volume.
pub open spec fn cluster(volume: Volume) -> int {
    512 * volume.boot.sectors_per_cluster
}

/// How many clusters a file has.
pub open spec fn has(volume: Volume, file: FileView) -> int {
    if file.first_cluster == 0 {
        0
    } else {
        volume.table.chain(file.first_cluster)->Ok_0.len() as int
    }
}

/// Whether a directory's chain can be walked, and reaches slot `index`.
pub open spec fn reaches(volume: Volume, directory: u32, index: int) -> bool {
    &&& volume.table.chain(directory) is Ok
    &&& 32 * (index + 1) <= volume.table.chain(directory)->Ok_0.len() * cluster(volume)
}

/// Whether a file's chain, if it has one, can be walked, and its directory's
/// reaches its entry.
pub open spec fn in_order(volume: Volume, file: FileView) -> bool {
    &&& file.first_cluster != 0 ==> volume.table.chain(file.first_cluster) is Ok
    &&& reaches(volume, file.directory, file.index as int)
}

/// The clusters that bytes take are the fewest that hold them.
pub proof fn lemma_fewest_clusters(size: int, cb: int, n: int)
    requires
        0 <= size,
        0 < cb,
        0 <= n,
    ensures
        size <= n * cb <==> operations::clusters_for(size, cb) <= n,
        operations::clusters_for(size, cb) >= 0,
        size > 0 ==> operations::clusters_for(size, cb) > 0,
        operations::clusters_for(size, cb) <= size,
{
    let q = operations::clusters_for(size, cb);
    vstd::arithmetic::div_mod::lemma_fundamental_div_mod(size + cb - 1, cb);
    let r = (size + cb - 1) % cb;
    assert(0 <= q && (size > 0 ==> q > 0) && (size <= n * cb <==> q <= n)) by (nonlinear_arith)
        requires
            size + cb - 1 == cb * q + r,
            0 <= r < cb,
            0 <= size,
            0 < cb,
            0 <= n,
    ;
    assert(q <= size) by (nonlinear_arith)
        requires
            size + cb - 1 == cb * q + r,
            0 <= r < cb,
            0 <= size,
            0 < cb,
    ;
}

/// A slot that a directory reaches has a place.
pub(crate) proof fn lemma_slot_place(volume: Volume, directory: u32, index: u32)
    requires
        volume.boot.wf(),
        reaches(volume, directory, index as int),
    ensures
        volume.slot_location(directory, index) is Ok,
{
    let len = volume.table.chain(directory)->Ok_0.len() as int;
    let spc = volume.boot.sectors_per_cluster as int;
    let block = index as int / 16;
    assert(len * (512 * spc) == 32 * (16 * (len * spc))) by (nonlinear_arith);
    assert(block < len * spc);
    assert(block / spc < len) by (nonlinear_arith)
        requires
            0 <= block < len * spc,
            0 < spc,
    ;
}

/// Changing a slot that a directory reaches succeeds, and leaves the table.
proof fn lemma_edit(volume: Volume, directory: u32, index: u32, edit: Edit)
    requires
        volume.boot.wf(),
        reaches(volume, directory, index as int),
    ensures
        volume.edit_slot(directory, index, edit).1 is Ok,
        volume.edit_slot(directory, index, edit).0.table == volume.table,
        volume.edit_slot(directory, index, edit).0.boot == volume.boot,
{
    reveal(Volume::edit_slot);
    lemma_slot_place(volume, directory, index);
}

/// Writing within a chain succeeds.
proof fn lemma_write_chain(volume: Volume, first: u32, offset: int, data: Seq<u8>)
    requires
        volume.table.chain(first) is Ok,
        offset + data.len() <= volume.table.chain(first)->Ok_0.len() * volume.cluster_bytes(),
    ensures
        volume.write_chain(first, offset, data).1 is Ok,
        volume.write_chain(first, offset, data).0.table == volume.table,
        volume.write_chain(first, offset, data).0.boot == volume.boot,
{
    operations::lemma_write_chain_frame(volume, first, offset, data);
    reveal(Volume::write_chain);
}

/// Writing zeros within a chain succeeds.
proof fn lemma_zero_chain(volume: Volume, first: u32, from: int, to: int)
    requires
        volume.table.chain(first) is Ok,
        to <= volume.table.chain(first)->Ok_0.len() * volume.cluster_bytes(),
    ensures
        volume.zero_chain(first, from, to).1 is Ok,
        volume.zero_chain(first, from, to).0.table == volume.table,
        volume.zero_chain(first, from, to).0.boot == volume.boot,
    decreases to - from,
{
    if from < to {
        let take = operations::least(to - from, 0x1_0000);
        let zeros = bytes::zeros(take as nat);
        lemma_write_chain(volume, first, from, zeros);
        lemma_zero_chain(volume.write_chain(first, from, zeros).0, first, from + take, to);
    }
}

/// A chain that is there stays, or becomes longer, where another becomes
/// longer.
proof fn lemma_others_after_append(table: Table, start: u32, n: u32, other: u32)
    requires
        table.wf(),
        n > 0,
        table.chain(start) is Ok,
        table.chain(other) is Ok,
        table.appended(table.chain(start)->Ok_0.last(), n).1 is Ok,
    ensures
        ({
            let after = table.appended(table.chain(start)->Ok_0.last(), n).0;
            &&& after.chain(other) is Ok
            &&& after.chain(other)->Ok_0.len() >= table.chain(other)->Ok_0.len()
        }),
{
    let clusters = table.chain(start)->Ok_0;
    let last = clusters.last();
    let (after, result) = table.appended(last, n);
    let added = result->Ok_0;
    let d = table.chain(other)->Ok_0;
    table::lemma_chain(table, start);
    table::lemma_chain(table, other);
    chains::lemma_appended(table, start, n);
    table::lemma_chain(after, start);
    assert forall|i: int| 0 <= i < d.len() implies !added.contains(#[trigger] d[i]) by {
        if added.contains(d[i]) {
            let j = added.index_of(d[i]);
            assert(table.is_free(added[j] as int));
            assert(table.valid(d[i] as int));
            if i + 1 < d.len() {
                assert(table.value(d[i] as int) == d[i + 1]);
                assert(table.valid(d[i + 1] as int));
            } else {
                assert(d.last() == d[i]);
            }
        }
    }
    let touched = added.push(last);
    assert forall|i: int| 0 <= i < d.len() && d[i] != last implies after.value(
        #[trigger] d[i] as int,
    ) == table.value(d[i] as int) by {
        assert(table.valid(d[i] as int));
        if touched.contains(d[i]) {
            let j = touched.index_of(d[i]);
            if j < added.len() {
                assert(added[j] == d[i]);
                assert(added.contains(d[i]));
            }
        }
    }
    if d.contains(last) {
        let j = d.index_of(last);
        if j < d.len() - 1 {
            assert(table.value(d[j] as int) == d[j + 1]);
            assert(table.valid(d[j + 1] as int));
        }
        assert(d.last() == last);
        lemma_same_end(table, after, d, clusters, added);
    } else {
        assert forall|i: int| 0 <= i < d.len() implies after.value(#[trigger] d[i] as int)
            == table.value(d[i] as int) by {
            assert(d.contains(d[i]));
        }
        table::lemma_chain_kept(table, after, other);
    }
}

/// A chain with the same last cluster as one that became longer became longer
/// with it.
proof fn lemma_same_end(
    table: Table,
    after: Table,
    d: Seq<u32>,
    clusters: Seq<u32>,
    added: Seq<u32>,
)
    requires
        after.wf(),
        after.same_place(table),
        table.links(d),
        d.no_duplicates(),
        clusters.len() > 0,
        d.last() == clusters.last(),
        after.links(clusters + added),
        forall|i: int|
            0 <= i < d.len() && d[i] != clusters.last() ==> after.value(#[trigger] d[i] as int)
                == table.value(d[i] as int),
    ensures
        after.chain(d[0]) == Ok::<Seq<u32>, FatError>(d + added),
{
    let whole = clusters + added;
    let longer = d + added;
    let k = clusters.len() as int;
    assert forall|i: int| 0 <= i < longer.len() implies after.valid(#[trigger] longer[i] as int)
        by {
        if i < d.len() {
            assert(table.valid(d[i] as int));
        } else {
            assert(longer[i] == whole[i - d.len() + k]);
            assert(after.valid(whole[i - d.len() + k] as int));
        }
    }
    assert forall|i: int| 0 <= i < longer.len() - 1 implies after.value(
        #[trigger] longer[i] as int,
    ) == longer[i + 1] by {
        if i < d.len() - 1 {
            assert(d[i] != d[d.len() - 1]);
            assert(table.value(d[i] as int) == d[i + 1]);
        } else {
            let at = i - d.len() + k;
            assert(longer[i] == whole[at]);
            assert(longer[i + 1] == whole[at + 1]);
            assert(after.value(whole[at] as int) == whole[at + 1]);
        }
    }
    assert(longer.last() == whole.last());
    table::lemma_chain_is_links(after, longer);
    assert(longer[0] == d[0]);
}

/// What making room gives, where there are clusters enough.
proof fn lemma_reserve(volume: Volume, file: FileView, size: u32, more: int, now: DateTime)
    requires
        volume.laid_out(),
        in_order(volume, file),
        size > 0,
        0 <= more <= free(volume),
        size <= (has(volume, file) + more) * cluster(volume),
    ensures
        ({
            let (after, roomy, result) = volume.reserve(file, size, now);
            &&& result is Ok
            &&& roomy == (FileView { first_cluster: roomy.first_cluster, ..file })
            &&& roomy.first_cluster != 0
            &&& file.first_cluster != 0 ==> roomy == file
            &&& after.boot == volume.boot
            &&& in_order(after, roomy)
            &&& size <= has(after, roomy) * cluster(volume)
        }),
{
    reveal(Volume::reserve);
    let cb = volume.cluster_bytes();
    fs::lemma_chain_size(volume, 0);
    assert(cb == cluster(volume));
    let wanted = operations::clusters_for(size as int, cb);
    ledger::lemma_free_count(volume.table);
    let held = has(volume, file);
    lemma_fewest_clusters(size as int, cb, held + more);
    lemma_fewest_clusters(size as int, cb, held);
    lemma_fewest_clusters(size as int, cb, wanted);
    if file.first_cluster == 0 {
        let (table, result) = volume.table.allocated(wanted as u32);
        let clusters = result->Ok_0;
        chains::lemma_allocated(volume.table, wanted as u32);
        chains::lemma_allocated_keeps(volume.table, wanted as u32, file.directory);
        laws::lemma_flushed_chains(table);
        let held_now = Volume { table, ..volume };
        let flushed = held_now.flush();
        assert(flushed.table == table.flushed() && flushed.boot == volume.boot) by {
            reveal(Volume::flush);
            crate::storage::lemma_flush(held_now);
        }
        lemma_edit(
            flushed,
            file.directory,
            file.index,
            Edit::Update { first_cluster: clusters[0], size: file.size, at: now },
        );
        assert(volume.table.is_free(clusters[0] as int));
    } else {
        let clusters = volume.table.chain(file.first_cluster)->Ok_0;
        table::lemma_chain(volume.table, file.first_cluster);
        if wanted > clusters.len() {
            let n = (wanted - clusters.len()) as u32;
            assert(volume.table.valid(clusters[clusters.len() - 1] as int));
            ledger::lemma_allocation(volume.table, n);
            assert(volume.table.appended(clusters.last(), n).1 is Ok);
            chains::lemma_appended(volume.table, file.first_cluster, n);
            lemma_others_after_append(volume.table, file.first_cluster, n, file.directory);
            let table = volume.table.appended(clusters.last(), n).0;
            laws::lemma_flushed_chains(table);
            let held_now = Volume { table, ..volume };
            assert(held_now.flush().table == table.flushed() && held_now.flush().boot
                == volume.boot) by {
                reveal(Volume::flush);
                crate::storage::lemma_flush(held_now);
            }
            let d = volume.table.chain(file.directory)->Ok_0.len() as int;
            let e = table.chain(file.directory)->Ok_0.len() as int;
            assert(d * cb <= e * cb) by (nonlinear_arith)
                requires
                    d <= e,
                    0 <= cb,
            ;
        }
    }
}

/// A write succeeds wherever it can: through a live handle, where the file's
/// chain and its directory's are in order, where it ends within the lengths
/// that a file can have, and where the clusters the file has, and no more than
/// are free besides, hold it up to that end.
pub proof fn lemma_write_succeeds(
    volume: Volume,
    file: FileView,
    offset: int,
    data: Seq<u8>,
    more: int,
    now: DateTime,
)
    requires
        volume.laid_out(),
        volume.check_live(file).1 is Ok,
        in_order(volume, file),
        0 <= offset,
        offset + data.len() <= 0xFFFF_FFFF,
        0 <= more <= free(volume),
        offset + data.len() <= (has(volume, file) + more) * cluster(volume),
    ensures
        ({
            let (_, handle, result) = volume.write_file_at(file, offset, data, now);
            let end = offset + data.len();
            &&& result is Ok
            &&& handle.size == (if data.len() > 0 && end > file.size {
                end
            } else {
                file.size as int
            })
            &&& handle.directory == file.directory
            &&& handle.index == file.index
            &&& handle.short == file.short
            &&& file.first_cluster != 0 ==> handle.first_cluster == file.first_cluster
        }),
{
    let live = volume.check_live(file).0;
    operations::lemma_check_live_looks(volume, file);
    let end = offset + data.len();
    if data.len() > 0 {
        reveal(Volume::write_live);
        lemma_reserve(live, file, end as u32, more, now);
        let (reserved, roomy, _) = live.reserve(file, end as u32, now);
        assert(reserved.cluster_bytes() == cluster(volume));
        let first = roomy.first_cluster;
        let zeroed = if offset > file.size {
            lemma_zero_chain(reserved, first, file.size as int, offset);
            reserved.zero_chain(first, file.size as int, offset).0
        } else {
            reserved
        };
        lemma_write_chain(zeroed, first, offset, data);
        let written = zeroed.write_chain(first, offset, data).0;
        lemma_edit(
            written,
            file.directory,
            file.index,
            Edit::Update { first_cluster: first, size: end as u32, at: now },
        );
    }
}

/// A write of something that ends past the lengths a file can have, or past
/// what the file's clusters and all free ones hold, is refused: the disk is
/// full. The answer says how many clusters were wanted besides those the file
/// has, and how many are free.
pub proof fn lemma_write_refused(
    volume: Volume,
    file: FileView,
    offset: int,
    data: Seq<u8>,
    now: DateTime,
)
    requires
        volume.laid_out(),
        volume.check_live(file).1 is Ok,
        in_order(volume, file),
        0 <= offset,
        data.len() > 0,
        offset + data.len() > 0xFFFF_FFFF || offset + data.len() > (has(volume, file) + free(
            volume,
        )) * cluster(volume),
    ensures
        ({
            let result = volume.write_file_at(file, offset, data, now).2;
            let end = offset + data.len();
            &&& result matches Err(Fault::Fat(FatError::DiskFull { wanted, free: left })) ==> {
                &&& left == free(volume) as u32
                &&& end > 0xFFFF_FFFF ==> wanted == 0xFFFF_FFFF
                &&& end <= 0xFFFF_FFFF ==> {
                    &&& end <= (has(volume, file) + wanted) * cluster(volume)
                    &&& end > (has(volume, file) + wanted - 1) * cluster(volume)
                }
            }
            &&& result is Err && result->Err_0 is Fat && result->Err_0->Fat_0 is DiskFull
        }),
{
    let live = volume.check_live(file).0;
    operations::lemma_check_live_looks(volume, file);
    let end = offset + data.len();
    let cb = volume.cluster_bytes();
    fs::lemma_chain_size(volume, 0);
    assert(cb == cluster(volume));
    ledger::lemma_free_count(volume.table);
    let held = has(volume, file);
    if end <= 0xFFFF_FFFF {
        reveal(Volume::write_live);
        reveal(Volume::reserve);
        let wanted = operations::clusters_for(end, cb);
        lemma_fewest_clusters(end, cb, held + free(volume));
        lemma_fewest_clusters(end, cb, held);
        lemma_fewest_clusters(end, cb, wanted);
        lemma_fewest_clusters(end, cb, wanted - 1);
        if file.first_cluster != 0 {
            table::lemma_chain(volume.table, file.first_cluster);
        }
    }
}

/// Setting a file's length succeeds wherever it can: always, where it does not
/// become longer, and otherwise where the clusters the file has, and no more
/// than are free besides, hold it.
pub proof fn lemma_truncate_succeeds(
    volume: Volume,
    file: FileView,
    size: u32,
    more: int,
    now: DateTime,
)
    requires
        volume.laid_out(),
        volume.check_live(file).1 is Ok,
        in_order(volume, file),
        0 <= more <= free(volume),
        size > file.size ==> size <= (has(volume, file) + more) * cluster(volume),
    ensures
        volume.truncate(file, size, now).2 is Ok,
        volume.truncate(file, size, now).1.size == size,
{
    let live = volume.check_live(file).0;
    operations::lemma_check_live_looks(volume, file);
    if size > file.size {
        lemma_reserve(live, file, size, more, now);
        let (reserved, roomy, _) = live.reserve(file, size, now);
        let first = roomy.first_cluster;
        assert(reserved.cluster_bytes() == cluster(volume));
        lemma_zero_chain(reserved, first, file.size as int, size as int);
        let zeroed = reserved.zero_chain(first, file.size as int, size as int).0;
        lemma_edit(
            zeroed,
            file.directory,
            file.index,
            Edit::Update { first_cluster: first, size, at: now },
        );
    } else if size < file.size {
        let keep = operations::clusters_for(size as int, volume.cluster_bytes());
        let first = if keep == 0 {
            0
        } else {
            file.first_cluster
        };
        lemma_edit(
            live,
            file.directory,
            file.index,
            Edit::Update { first_cluster: first, size, at: now },
        );
    }
}

/// Marking slots deleted that a directory reaches succeeds.
proof fn lemma_delete_down(volume: Volume, directory: u32, first: u32, last: u32)
    requires
        volume.boot.wf(),
        reaches(volume, directory, last as int),
    ensures
        volume.delete_down(directory, first, last).1 is Ok,
        volume.delete_down(directory, first, last).0.table == volume.table,
        volume.delete_down(directory, first, last).0.boot == volume.boot,
    decreases last,
{
    lemma_edit(volume, directory, last, Edit::Delete);
    if last > first {
        let edited = volume.edit_slot(directory, last, Edit::Delete).0;
        lemma_delete_down(edited, directory, first, (last - 1) as u32);
    }
}

/// Removing succeeds wherever the path opens a file whose chain and whose
/// directory's are in order.
pub proof fn lemma_remove_succeeds(volume: Volume, path: Seq<char>)
    requires
        volume.laid_out(),
        volume.open(path).1 is Ok,
        in_order(volume, volume.open(path).1->Ok_0),
    ensures
        volume.remove(path).1 is Ok,
{
    let (opened, result) = volume.open(path);
    let file = result->Ok_0;
    operations::lemma_open_looks(volume, path);
    let counted = opened.counted(file.directory);
    lemma_delete_down(counted, file.directory, file.first_slot, file.index);
    reveal(Volume::free_chain);
}

/// Removing a directory succeeds wherever the path leads to one that lists
/// nothing but itself and its parent, and its chain and that of the directory
/// it is in are in order.
pub proof fn lemma_remove_dir_succeeds(volume: Volume, path: Seq<char>)
    requires
        volume.laid_out(),
        path.len() == 0 || operations::plain(path).len() > 0,
        volume.look_up(operations::plain(path)).1 is Ok,
        ({
            let (found, result) = volume.look_up(operations::plain(path));
            let (parent, entry) = result->Ok_0;
            let listed = found.read_dir(entry.first_cluster).1;
            &&& entry.attributes / 16 % 2 == 1
            &&& !slots::is_own_name(entry)
            &&& listed is Ok
            &&& forall|a: int|
                0 <= a < listed->Ok_0.entries.len() ==> slots::is_own_name(
                    #[trigger] listed->Ok_0.entries[a],
                )
            &&& volume.table.chain(entry.first_cluster) is Ok
            &&& reaches(volume, parent, entry.index as int)
        }),
    ensures
        volume.remove_dir(path).1 is Ok,
{
    let plain = operations::plain(path);
    let (found, result) = volume.look_up(plain);
    let (parent, entry) = result->Ok_0;
    operations::lemma_look_up_looks(volume, plain);
    crate::volume::lemma_read_dir_looks(found, entry.first_cluster);
    slots::lemma_directory_bit(entry);
    let (read, listed) = found.read_dir(entry.first_cluster);
    let listing = listed->Ok_0;
    assert(listing.is_vacant()) by {
        assert forall|a: int| 0 <= a < listing.entries.len() implies dir::is_dots(
            (#[trigger] listing.entries[a]).name(),
        ) by {
            assert(slots::is_own_name(listing.entries[a]));
        }
    }
    assert(!dir::is_dots(entry.name())) by {
        let name = entry.name();
        if name.len() == 1 && name[0] == '.' {
            assert(name =~= seq!['.']);
        }
        if name.len() == 2 && name[0] == '.' && name[1] == '.' {
            assert(name =~= seq!['.', '.']);
        }
    }
    lemma_delete_down(read.counted(parent), parent, entry.first_slot, entry.index);
    reveal(Volume::free_chain);
}

/// A directory that is held as it is stored reaches every entry it lists.
pub proof fn lemma_listed_is_reached(volume: Volume, directory: u32, a: int)
    requires
        volume.laid_out(),
        volume.coherent_at(directory),
        volume.read_dir(directory).1 is Ok,
        0 <= a < volume.read_dir(directory).1->Ok_0.entries.len(),
        dir::slot_count(volume.stored(directory)) <= u32::MAX,
    ensures
        reaches(volume, directory, volume.read_dir(directory).1->Ok_0.entries[a].index as int),
{
    laws::lemma_read_dir(volume, directory);
    let data = volume.stored(directory);
    dir::lemma_entries(data, dir::slot_count(data), volume.codepage);
    laws::lemma_slot_count(volume, directory);
}

/// Writing a file whole succeeds wherever whatever has its name can be removed
/// and a file with room for the data can be created: nothing after that keeps
/// it from being written.
pub proof fn lemma_write_file_succeeds(
    volume: Volume,
    path: Seq<char>,
    data: Seq<u8>,
    found: bool,
    created: DateTime,
    written: DateTime,
)
    requires
        volume.laid_out(),
        volume.fits(),
        volume.coherent_at(replacing::home(volume, path)),
        creation::numbered(
            volume,
            replacing::home(volume, path),
            fs::MAX_DIRECTORY_GROWTH as int,
        ),
        data.len() <= 0xFFFF_FFFF,
        found ==> volume.remove(path).1 is Ok,
        replacing::made_way(volume, path, found).create(path, data.len() as u32, created).1 is Ok,
    ensures
        volume.replace_file(path, data, found, created, written).1 is Ok,
{
    let clear = replacing::made_way(volume, path, found);
    let size = data.len() as u32;
    let (made, result) = clear.create(path, size, created);
    lemma_way_made(volume, path, size, found, created);
    if data.len() > 0 {
        let stored = choose|stored: StoredView|
            creation::created(clear, made, path, size, result->Ok_0, stored, created);
        lemma_created_takes_data(
            clear,
            made,
            path,
            data,
            result->Ok_0,
            stored,
            created,
            written,
        );
    }
}

/// What is there once the way is clear and the file created.
proof fn lemma_way_made(volume: Volume, path: Seq<char>, size: u32, found: bool, now: DateTime)
    requires
        volume.laid_out(),
        volume.fits(),
        volume.coherent_at(replacing::home(volume, path)),
        creation::numbered(
            volume,
            replacing::home(volume, path),
            fs::MAX_DIRECTORY_GROWTH as int,
        ),
        found ==> volume.remove(path).1 is Ok,
        replacing::made_way(volume, path, found).create(path, size, now).1 is Ok,
    ensures
        ({
            let clear = replacing::made_way(volume, path, found);
            let (made, result) = clear.create(path, size, now);
            &&& clear.laid_out()
            &&& exists|stored: StoredView|
                creation::created(clear, made, path, size, result->Ok_0, stored, now)
        }),
{
    let clear = replacing::made_way(volume, path, found);
    let (made, result) = clear.create(path, size, now);
    let file = result->Ok_0;
    assert(volume.resolve(volume.boot.root_cluster, operations::parent_of(path)).1 is Ok) by {
        if found {
            reveal(Volume::open);
            reveal(Volume::look_up);
        }
    }
    replacing::lemma_made_way(volume, path, found, size, now);
    creation::lemma_create(clear, path, size, now);
    let stored = clear.resolve(
        clear.boot.root_cluster,
        operations::parent_of(path),
    ).0.plan_name(file.directory, operations::name_of(path)).1->Ok_0;
    assert(creation::created(clear, made, path, size, file, stored, now));
}

/// What was created with room for some data takes it.
proof fn lemma_created_takes_data(
    clear: Volume,
    made: Volume,
    path: Seq<char>,
    data: Seq<u8>,
    file: FileView,
    stored: StoredView,
    created: DateTime,
    written: DateTime,
)
    requires
        clear.laid_out(),
        0 < data.len() <= 0xFFFF_FFFF,
        creation::created(clear, made, path, data.len() as u32, file, stored, created),
    ensures
        made.write_file_at(file, 0, data, written).2 is Ok,
{
    reveal(creation::created);
    laws::lemma_holds_live(made, file);
    laws::lemma_slot_count(made, file.directory);
    fs::lemma_chain_size(clear, 0);
    let cb = clear.cluster_bytes();
    let n = operations::clusters_for(data.len() as int, cb);
    lemma_fewest_clusters(data.len() as int, cb, n);
    assert(made.cluster_bytes() == cb && cb == cluster(made));
    assert(has(made, file) == n);
    assert((n + 0) * cb == n * cb);
    lemma_write_succeeds(made, file, 0, data, 0, written);
}

/// Where byte `i` of a file is on the device: in the cluster that many
/// clusters into its chain; and cluster 2 is the first after the reserved
/// sectors and the tables.
pub open spec fn place(volume: Volume, chain: Seq<u32>, i: int) -> int {
    let spc = volume.boot.sectors_per_cluster as int;
    let sector = volume.boot.data_start + spc * (chain[i / (512 * spc)] - 2);
    512 * (volume.first_block + sector) + i % (512 * spc)
}

/// A byte of a chain is the one in its place.
proof fn lemma_place(volume: Volume, chain: Seq<u32>, i: int)
    requires
        volume.laid_out(),
    ensures
        volume.chain_byte(chain, i) == volume.disk[place(volume, chain, i)],
{
    let spc = volume.boot.sectors_per_cluster as int;
    let c = chain[i / (512 * spc)] - 2;
    assert(volume.cluster_bytes() == 512 * spc);
    assert(spc * c == c * spc) by (nonlinear_arith);
}

/// A file that is live, and whose chain is as long as its length says, is read
/// as far as it goes: byte by byte what the device has in each byte's place.
pub proof fn lemma_read_succeeds(volume: Volume, file: FileView, offset: int, length: int)
    requires
        volume.laid_out(),
        volume.check_live(file).1 is Ok,
        0 <= offset,
        0 <= length,
        file.size > 0 ==> file.first_cluster != 0 && volume.table.chain(file.first_cluster) is Ok
            && file.size <= has(volume, file) * cluster(volume),
    ensures
        ({
            let chain = volume.table.chain(file.first_cluster)->Ok_0;
            let part = volume.read_file(file, offset, length).1;
            let whole = volume.read_whole(file).1;
            let n = if offset >= file.size {
                0
            } else if length <= file.size - offset {
                length
            } else {
                file.size - offset
            };
            &&& part is Ok
            &&& part->Ok_0.len() == n
            &&& forall|i: int|
                0 <= i < n ==> #[trigger] part->Ok_0[i] == volume.disk[place(
                    volume,
                    chain,
                    offset + i,
                )]
            &&& whole is Ok
            &&& whole->Ok_0.len() == file.size
            &&& forall|i: int|
                0 <= i < file.size ==> #[trigger] whole->Ok_0[i] == volume.disk[place(
                    volume,
                    chain,
                    i,
                )]
        }),
{
    let chain = volume.table.chain(file.first_cluster)->Ok_0;
    assert(volume.cluster_bytes() == cluster(volume));
    assert forall|i: int| #[trigger] volume.chain_byte(chain, i) == volume.disk[place(
        volume,
        chain,
        i,
    )] by {
        lemma_place(volume, chain, i);
    }
    if file.size > 0 {
        assert forall|i: int| 0 <= i < file.size implies volume.chain_bytes(chain)[i]
            == volume.disk[place(volume, chain, i)] by {
            assert(volume.chain_bytes(chain)[i] == volume.chain_byte(chain, i));
        }
    }
}

/// What keeps a live file from being read is what is answered: a length
/// without a chain, a chain that cannot be walked, or one that is too short.
pub proof fn lemma_read_refused(volume: Volume, file: FileView)
    requires
        volume.laid_out(),
        volume.check_live(file).1 is Ok,
        file.size > 0,
    ensures
        ({
            let whole = volume.read_whole(file).1;
            let fails = |error: FatError| whole == Err::<Seq<u8>, Fault>(Fault::Fat(error));
            &&& file.first_cluster == 0 ==> fails(FatError::BadCluster { cluster: 0 })
            &&& file.first_cluster != 0 ==> match volume.table.chain(file.first_cluster) {
                Err(error) => fails(error),
                Ok(chain) => file.size > chain.len() * cluster(volume) ==> fails(
                    FatError::ChainShorterThanFile { start: file.first_cluster, size: file.size },
                ),
            }
        }),
{
    assert(volume.cluster_bytes() == cluster(volume));
}

/// A handle is live exactly if nothing was deleted from its directory since it
/// was made, the directory can be read, and it lists an entry in the handle's
/// slot with the handle's 8.3 name. Otherwise, where the directory can be
/// read, the answer is that the handle is stale.
pub proof fn lemma_live_exactly(volume: Volume, file: FileView)
    ensures
        ({
            let count = if volume.deletions.contains_key(file.directory) {
                volume.deletions[file.directory]
            } else {
                0
            };
            let listed = volume.read_dir(file.directory).1;
            let there = listed is Ok && {
                let entry = listed->Ok_0.entry_at(file.index);
                entry is Some && entry->0.short.raw == file.short.raw
            };
            let stale = Err::<(), Fault>(
                Fault::StaleFile { name: file.short.display(volume.codepage) },
            );
            &&& volume.check_live(file).1 is Ok <==> count == file.deletions && there
            &&& count != file.deletions ==> volume.check_live(file).1 == stale
            &&& listed is Ok && !there ==> volume.check_live(file).1 == stale
        }),
{
    reveal(Volume::check_live);
}

/// A stretch of clusters is read exactly if all of it lies in the volume and
/// the buffer is as long as it is; an empty one takes an empty buffer. A
/// cluster that is not there is reported, the first before the last, and
/// otherwise the length that would be right.
pub proof fn lemma_run_accepted(volume: Volume, run: Run, length: int)
    requires
        volume.laid_out(),
    ensures
        ({
            let count = volume.boot.cluster_count;
            let last = run.start_cluster + run.clusters - 1;
            let first_there = 0 <= run.start_cluster - 2 < count;
            let last_there = 0 <= last - 2 < count;
            let fault = volume.run_fault(run, length);
            if run.clusters > 0 && !first_there {
                fault == Some(Fault::Fat(FatError::BadCluster { cluster: run.start_cluster }))
            } else if run.clusters > 0 && !last_there {
                fault is Some && fault->0 is Fat && fault->0->Fat_0 is BadCluster && (last
                    <= u32::MAX ==> fault->0->Fat_0 == FatError::BadCluster { cluster: last as u32 })
            } else if length != run.clusters * cluster(volume) {
                fault == Some(
                    Fault::BufferLength { expected: run.clusters * cluster(volume), actual: length },
                )
            } else {
                fault is None
            }
        }),
{
    assert(volume.cluster_bytes() == cluster(volume));
}

/// A file is not made longer than its clusters and all free ones hold: the
/// disk is full.
pub proof fn lemma_truncate_refused(volume: Volume, file: FileView, size: u32, now: DateTime)
    requires
        volume.laid_out(),
        volume.check_live(file).1 is Ok,
        in_order(volume, file),
        size > file.size,
        size > (has(volume, file) + free(volume)) * cluster(volume),
    ensures
        ({
            let (after, handle, result) = volume.truncate(file, size, now);
            &&& result matches Err(Fault::Fat(FatError::DiskFull { wanted, free: left })) ==> {
                &&& left == free(volume)
                &&& size <= (has(volume, file) + wanted) * cluster(volume)
                &&& size > (has(volume, file) + wanted - 1) * cluster(volume)
            }
            &&& result is Err && result->Err_0 is Fat && result->Err_0->Fat_0 is DiskFull
            &&& handle == file
        }),
{
    operations::lemma_check_live_looks(volume, file);
    let cb = volume.cluster_bytes();
    fs::lemma_chain_size(volume, 0);
    assert(cb == cluster(volume));
    ledger::lemma_free_count(volume.table);
    let held = has(volume, file);
    let end = size as int;
    let wanted = operations::clusters_for(end, cb);
    lemma_fewest_clusters(end, cb, held + free(volume));
    lemma_fewest_clusters(end, cb, held);
    lemma_fewest_clusters(end, cb, wanted);
    lemma_fewest_clusters(end, cb, wanted - 1);
    reveal(Volume::reserve);
    if file.first_cluster != 0 {
        table::lemma_chain(volume.table, file.first_cluster);
    }
}

/// What cannot be opened is not removed: the answer is the same, and nothing
/// changes but what is remembered of directories.
pub proof fn lemma_remove_refused(volume: Volume, path: Seq<char>)
    requires
        volume.open(path).1 is Err,
    ensures
        volume.remove(path).1 == Err::<(), Fault>(volume.open(path).1->Err_0),
        volume.remove(path).0.looks_like(volume),
        volume.remove(path).0.disk == volume.disk,
        volume.remove(path).0.table == volume.table,
{
    operations::lemma_open_looks(volume, path);
}

} // verus!
