//! Mounting again: a volume that was synced mounts, and reads as it read.
use vstd::prelude::*;

use crate::blockdev::Access;
use crate::boot;
use crate::boot::BootSector;
use crate::bytes;
use crate::codepage::Codepage;
use crate::coherence;
use crate::creation;
use crate::dir::Listing;
use crate::durability;
use crate::error::Fault;
use crate::fs;
use crate::laws;
use crate::operations;
use crate::operations::FileView;
use crate::replacing;
use crate::settled;
use crate::steady;
use crate::table;
use crate::time::DateTime;
use crate::volume;
use crate::volume::Volume;

verus! {

/// Whether two boot sectors say the same, but for the dirty flag.
pub open spec fn same_boot(a: BootSector, b: BootSector) -> bool {
    b == BootSector { dirty: b.dirty, ..a }
}

/// Whether the first block of the volume says on the device what was read of
/// it, but for the dirty flag.
pub open spec fn rooted(volume: Volume) -> bool {
    &&& boot::parse_boot(volume.sectors(0, 1)) is Ok
    &&& same_boot(volume.boot, boot::parse_boot(volume.sectors(0, 1))->Ok_0)
}

/// Whether two blocks are the same, but for the dirty flag.
spec fn same_but_flag(a: Seq<u8>, b: Seq<u8>) -> bool {
    &&& a.len() == 512
    &&& b.len() == 512
    &&& forall|i: int| 0 <= i < 512 && i != 0x41 ==> #[trigger] b[i] == a[i]
}

/// The dirty flag is all that its byte says.
proof fn lemma_parsed_alike(a: Seq<u8>, b: Seq<u8>)
    requires
        same_but_flag(a, b),
        boot::parse_boot(a) is Ok,
    ensures
        boot::parse_boot(b) is Ok,
        same_boot(boot::parse_boot(a)->Ok_0, boot::parse_boot(b)->Ok_0),
        boot::parse_boot(b)->Ok_0.dirty == (b[0x41] % 2 == 1),
{
    assert(bytes::u16_at(b, 0x1FE) == bytes::u16_at(a, 0x1FE));
    assert(bytes::u16_at(b, 0x0B) == bytes::u16_at(a, 0x0B));
    assert(bytes::u16_at(b, 0x0E) == bytes::u16_at(a, 0x0E));
    assert(bytes::u16_at(b, 0x13) == bytes::u16_at(a, 0x13));
    assert(bytes::u16_at(b, 0x16) == bytes::u16_at(a, 0x16));
    assert(bytes::u16_at(b, 0x30) == bytes::u16_at(a, 0x30));
    assert(bytes::u32_at(b, 0x20) == bytes::u32_at(a, 0x20));
    assert(bytes::u32_at(b, 0x24) == bytes::u32_at(a, 0x24));
    assert(bytes::u32_at(b, 0x2C) == bytes::u32_at(a, 0x2C));
    assert(bytes::u32_at(b, 0x43) == bytes::u32_at(a, 0x43));
    assert(b[0x0D] == a[0x0D] && b[0x10] == a[0x10]);
}

/// The first block says what it said as long as an operation keeps what every
/// operation keeps.
pub proof fn lemma_stays_rooted(before: Volume, after: Volume)
    requires
        before.laid_out(),
        before.fits(),
        rooted(before),
        steady::steady(before, after),
    ensures
        rooted(after),
{
    reveal(steady::boots_alike);
    let a = before.sectors(0, 1);
    let b = after.sectors(0, 1);
    assert(before.at(1) <= before.disk.len());
    assert forall|i: int| 0 <= i < 512 && i != 0x41 implies #[trigger] b[i] == a[i] by {
        assert(after.boot_byte(i) == before.boot_byte(i));
    }
    lemma_parsed_alike(a, b);
}

/// Whether two volumes hold the same directories and files: the same chains,
/// with the same bytes, from the same root.
pub open spec fn same_tree(a: Volume, b: Volume) -> bool {
    &&& a.codepage == b.codepage
    &&& a.boot.root_cluster == b.boot.root_cluster
    &&& a.cluster_bytes() == b.cluster_bytes()
    &&& forall|start: u32| #[trigger] a.table.chain(start) == b.table.chain(start)
    &&& forall|start: u32|
        a.table.chain(start) is Ok ==> #[trigger] a.stored(start) == b.stored(start)
    &&& a.coherent()
    &&& b.coherent()
}

/// Whether what opening a path gives in one volume reads the same in another,
/// where the handles differ in nothing but the deletions they remember.
pub open spec fn opens_alike(a: Volume, b: Volume, path: Seq<char>) -> bool {
    match (a.open(path).1, b.open(path).1) {
        (Ok(f), Ok(g)) => {
            &&& g == FileView { deletions: g.deletions, ..f }
            &&& forall|offset: int, length: int|
                0 <= offset && 0 <= length ==> #[trigger] a.open(path).0.read_file(
                    f,
                    offset,
                    length,
                ).1 == b.open(path).0.read_file(g, offset, length).1
            &&& a.open(path).0.read_whole(f).1 == b.open(path).0.read_whole(g).1
        },
        (Err(f), Err(g)) => f == g,
        _ => false,
    }
}

/// A directory lists the same in both.
proof fn lemma_read_dir_alike(a: Volume, b: Volume, directory: u32)
    requires
        same_tree(a, b),
    ensures
        a.read_dir(directory).1 == b.read_dir(directory).1,
        same_tree(a.read_dir(directory).0, b.read_dir(directory).0),
        a.read_dir(directory).0.looks_like(a),
        b.read_dir(directory).0.looks_like(b),
{
    assert(a.coherent_at(directory) && b.coherent_at(directory));
    laws::lemma_read_dir(a, directory);
    laws::lemma_read_dir(b, directory);
    assert(a.table.chain(directory) == b.table.chain(directory));
    assert(a.table.chain(directory) is Ok ==> a.stored(directory) == b.stored(directory));
    coherence::lemma_read_dir(a, directory);
    coherence::lemma_read_dir(b, directory);
    lemma_looks_alike(a, b, a.read_dir(directory).0, b.read_dir(directory).0);
}

/// Reading leaves the tree.
proof fn lemma_looks_alike(a: Volume, b: Volume, c: Volume, d: Volume)
    requires
        same_tree(a, b),
        c.looks_like(a),
        d.looks_like(b),
        c.coherent(),
        d.coherent(),
    ensures
        same_tree(c, d),
{
    assert forall|start: u32| c.table.chain(start) is Ok implies #[trigger] c.stored(start)
        == d.stored(start) by {
        assert(a.table.chain(start) == b.table.chain(start));
        assert(a.stored(start) == b.stored(start));
        assert(c.stored(start) =~= a.stored(start));
        assert(d.stored(start) =~= b.stored(start));
    }
    assert forall|start: u32| #[trigger] c.table.chain(start) == d.table.chain(start) by {
        assert(a.table.chain(start) == b.table.chain(start));
    }
}

/// A path leads to the same directory in both.
proof fn lemma_resolve_alike(a: Volume, b: Volume, cluster: u32, path: Seq<char>)
    requires
        same_tree(a, b),
    ensures
        a.resolve(cluster, path).1 == b.resolve(cluster, path).1,
        same_tree(a.resolve(cluster, path).0, b.resolve(cluster, path).0),
    decreases path.len(),
{
    let name = volume::first_component(path);
    let rest = volume::after_component(path);
    if path.len() > 0 {
        if name.len() == 0 || name =~= seq!['.'] {
            lemma_resolve_alike(a, b, cluster, rest);
        } else {
            lemma_read_dir_alike(a, b, cluster);
            let (entered, next) = a.enter(cluster, name);
            if next is Ok {
                lemma_resolve_alike(entered, b.enter(cluster, name).0, next->Ok_0, rest);
            }
        }
    }
}

/// The directory a path leads to lists the same in both.
proof fn lemma_open_dir_alike(a: Volume, b: Volume, path: Seq<char>)
    requires
        same_tree(a, b),
    ensures
        a.open_dir(path).1 == b.open_dir(path).1,
{
    let root = a.boot.root_cluster;
    lemma_resolve_alike(a, b, root, path);
    if a.resolve(root, path).1 is Ok {
        lemma_read_dir_alike(
            a.resolve(root, path).0,
            b.resolve(root, path).0,
            a.resolve(root, path).1->Ok_0,
        );
    }
}

/// A file reads the same in both, through handles that are both up to date.
proof fn lemma_reads_alike(a: Volume, b: Volume, f: FileView, g: FileView)
    requires
        same_tree(a, b),
        g == (FileView { deletions: g.deletions, ..f }),
        a.deletions_of(f.directory) == f.deletions,
        b.deletions_of(g.directory) == g.deletions,
    ensures
        a.check_live(f).1 == b.check_live(g).1,
        a.read_whole(f).1 == b.read_whole(g).1,
        forall|offset: int, length: int|
            #[trigger] a.read_file(f, offset, length).1 == b.read_file(g, offset, length).1,
{
    assert(a.check_live(f).1 == b.check_live(g).1) by {
        reveal(Volume::check_live);
        lemma_read_dir_alike(a, b, f.directory);
    }
    assert(a.table.chain(f.first_cluster) == b.table.chain(f.first_cluster));
    assert(a.table.chain(f.first_cluster) is Ok ==> a.stored(f.first_cluster) == b.stored(
        f.first_cluster,
    ));
}

/// A path opens alike in both.
proof fn lemma_open_alike(a: Volume, b: Volume, path: Seq<char>)
    requires
        same_tree(a, b),
    ensures
        opens_alike(a, b, path),
{
    reveal(Volume::open);
    reveal(Volume::look_up);
    let root = a.boot.root_cluster;
    let parent = operations::parent_of(path);
    lemma_resolve_alike(a, b, root, parent);
    let (c, way) = a.resolve(root, parent);
    let d = b.resolve(root, parent).0;
    volume::lemma_resolve_looks(a, root, parent);
    volume::lemma_resolve_looks(b, root, parent);
    if way is Ok {
        let directory = way->Ok_0;
        lemma_read_dir_alike(c, d, directory);
        if a.open(path).1 is Ok {
            let f = a.open(path).1->Ok_0;
            let g = b.open(path).1->Ok_0;
            lemma_reads_alike(a.open(path).0, b.open(path).0, f, g);
        }
    }
}

/// Every chain is the same in a volume with the same table and the same data
/// area.
proof fn lemma_same_tree(before: Volume, after: Volume)
    requires
        before.laid_out(),
        before.fits(),
        same_boot(before.boot, after.boot),
        after.first_block == before.first_block,
        after.codepage == before.codepage,
        after.table.entries == before.table.entries,
        after.table.cluster_count == before.table.cluster_count,
        forall|p: int|
            before.data_at() <= p < before.disk.len() ==> #[trigger] after.disk[p]
                == before.disk[p],
        before.coherent(),
        after.coherent(),
    ensures
        same_tree(before, after),
        forall|start: u32|
            before.table.chain(start) is Ok ==> #[trigger] laws::untouched(before, after, start),
{
    assert forall|start: u32| #[trigger]
        before.table.chain(start) == after.table.chain(start) by {
        laws::lemma_same_walk(before.table, after.table, start, start, 0);
    }
    assert forall|start: u32| before.table.chain(start) is Ok implies #[trigger] before.stored(
        start,
    ) == after.stored(start) by {
        let clusters = before.table.chain(start)->Ok_0;
        assert(before.table.chain(start) == after.table.chain(start));
        table::lemma_chain(before.table, start);
        let between = Volume { boot: before.boot, ..after };
        laws::lemma_bytes_same(before, between, clusters);
        assert(after.chain_bytes(clusters) =~= between.chain_bytes(clusters));
    }
    assert forall|start: u32|
        before.table.chain(start) is Ok implies #[trigger] laws::untouched(before, after, start) by {
        assert(before.table.chain(start) == after.table.chain(start));
        assert(before.stored(start) == after.stored(start));
    }
}

/// Whether a volume that was mounted again is the one that was synced: the
/// boot sector says the same but for the dirty flag, which syncing clears,
/// the table has the same entries, every chain has its bytes, every directory
/// lists what it listed, and every file opens and reads as it did.
pub open spec fn mounts_as(volume: Volume, again: Volume) -> bool {
    &&& same_boot(volume.boot, again.boot)
    &&& volume.marked_dirty ==> !again.boot.dirty
    &&& again.table.entries == volume.table.entries
    &&& forall|start: u32|
        volume.table.chain(start) is Ok ==> #[trigger] laws::untouched(volume, again, start)
    &&& forall|path: Seq<char>| #[trigger] volume.open_dir(path).1 == again.open_dir(path).1
    &&& forall|path: Seq<char>| #[trigger] opens_alike(volume, again, path)
}

/// What was synced mounts again, and is what it was.
pub proof fn lemma_mounts_again(volume: Volume, history: Seq<Access>, capacity: Option<u64>)
    requires
        volume.laid_out(),
        volume.fits(),
        volume.tied(),
        volume.coherent(),
        rooted(volume),
        steady::hints_in_place(volume),
        volume.marked_dirty || !volume.table.has_changes(),
        capacity is Some ==> volume.first_block + volume.boot.total_sectors <= capacity->0,
    ensures
        fs::mounted(
            volume.synced().disk,
            history,
            volume.limit,
            capacity,
            volume.first_block,
            volume.codepage,
            None,
        ) matches Ok(again) && mounts_as(volume, again) && rooted(again) && again.laid_out()
            && again.fits() && again.tied() && again.coherent(),
{
    let synced = volume.synced();
    steady::lemma_synced(volume);
    lemma_stays_rooted(volume, synced);
    durability::lemma_loaded(synced);
    durability::lemma_sync_undisturbed(volume);
    let block = synced.disk.subrange(512 * volume.first_block, 512 * volume.first_block + 512);
    assert(block =~= synced.sectors(0, 1));
    let mounted = fs::mounted(
        synced.disk,
        history,
        volume.limit,
        capacity,
        volume.first_block,
        volume.codepage,
        None,
    );
    assert(mounted is Ok);
    let again = mounted->Ok_0;
    lemma_again(volume, again);
}

/// What a mount of the synced device finds.
proof fn lemma_again(volume: Volume, again: Volume)
    requires
        volume.laid_out(),
        volume.fits(),
        volume.tied(),
        volume.coherent(),
        steady::hints_in_place(volume),
        volume.marked_dirty || !volume.table.has_changes(),
        again.disk == volume.synced().disk,
        again.first_block == volume.first_block,
        again.codepage == volume.codepage,
        again.table == durability::loaded(again),
        again.directories == Map::<u32, Listing>::empty(),
        boot::parse_boot(again.sectors(0, 1)) == Ok::<BootSector, crate::error::BootError>(
            again.boot,
        ),
        same_boot(volume.boot, again.boot),
    ensures
        mounts_as(volume, again),
        rooted(again),
        again.laid_out(),
        again.fits(),
        again.tied(),
        again.coherent(),
{
    let synced = volume.synced();
    steady::lemma_synced(volume);
    durability::lemma_loaded(synced);
    durability::lemma_sync_undisturbed(volume);
    assert(again.table.entries =~= durability::loaded(synced).entries);
    assert(again.laid_out());
    durability::lemma_fresh(again);
    assert(again.coherent());
    lemma_same_tree(volume, again);
    if volume.marked_dirty {
        durability::lemma_flag_cleared_last(volume);
        assert(again.sectors(0, 1)[0x41] == again.disk[durability::flag_at(volume)]);
    }
    assert forall|path: Seq<char>| #[trigger]
        volume.open_dir(path).1 == again.open_dir(path).1 by {
        lemma_open_dir_alike(volume, again, path);
    }
    assert forall|path: Seq<char>| #[trigger] opens_alike(volume, again, path) by {
        lemma_open_alike(volume, again, path);
    }
}

/// A volume that was just mounted is one whose first block says what was read
/// of it.
pub proof fn lemma_mounted_rooted(
    disk: Seq<u8>,
    history: Seq<Access>,
    limit: u64,
    capacity: Option<u64>,
    first_block: u64,
    codepage: Codepage,
    end: Option<int>,
)
    requires
        fs::mounted(disk, history, limit, capacity, first_block, codepage, end) is Ok,
    ensures
        rooted(fs::mounted(disk, history, limit, capacity, first_block, codepage, end)->Ok_0),
{
    let volume = fs::mounted(disk, history, limit, capacity, first_block, codepage, end)->Ok_0;
    assert(volume.sectors(0, 1) =~= disk.subrange(512 * first_block, 512 * first_block + 512));
}

/// What is read of a path before a sync is read of it after mounting again.
pub proof fn lemma_read_after_mounting(
    volume: Volume,
    history: Seq<Access>,
    capacity: Option<u64>,
    path: Seq<char>,
    data: Seq<u8>,
)
    requires
        volume.laid_out(),
        volume.fits(),
        volume.tied(),
        volume.coherent(),
        rooted(volume),
        steady::hints_in_place(volume),
        volume.marked_dirty || !volume.table.has_changes(),
        capacity is Some ==> volume.first_block + volume.boot.total_sectors <= capacity->0,
        volume.open(path).1 is Ok,
        volume.open(path).0.read_file(volume.open(path).1->Ok_0, 0, data.len() as int).1 == Ok::<
            Seq<u8>,
            Fault,
        >(data),
    ensures
        fs::mounted(
            volume.synced().disk,
            history,
            volume.limit,
            capacity,
            volume.first_block,
            volume.codepage,
            None,
        ) matches Ok(again) && again.open(path).1 is Ok && again.open(path).0.read_file(
            again.open(path).1->Ok_0,
            0,
            data.len() as int,
        ).1 == Ok::<Seq<u8>, Fault>(data),
{
    lemma_mounts_again(volume, history, capacity);
    let again = fs::mounted(
        volume.synced().disk,
        history,
        volume.limit,
        capacity,
        volume.first_block,
        volume.codepage,
        None,
    )->Ok_0;
    lemma_reads_on(volume, again, path, data);
}

/// What one volume reads of a path, one that opens it alike reads too.
proof fn lemma_reads_on(a: Volume, b: Volume, path: Seq<char>, data: Seq<u8>)
    requires
        mounts_as(a, b),
        a.open(path).1 is Ok,
        a.open(path).0.read_file(a.open(path).1->Ok_0, 0, data.len() as int).1 == Ok::<
            Seq<u8>,
            Fault,
        >(data),
    ensures
        b.open(path).1 is Ok,
        b.open(path).0.read_file(b.open(path).1->Ok_0, 0, data.len() as int).1 == Ok::<
            Seq<u8>,
            Fault,
        >(data),
{
    assert(opens_alike(a, b, path));
}

/// What was written, synced and mounted again reads back: a file that is
/// written whole is opened by its path on the volume that the device holds
/// after a sync, and reads as its data.
///
/// As for [`crate::replacing::lemma_write_file_is_found`], the entry is to go
/// by the name it was given; and as for
/// [`crate::coherence::lemma_replace_file`], the directories held are to be
/// apart from what is changed.
pub proof fn lemma_written_file_survives(
    volume: Volume,
    path: Seq<char>,
    data: Seq<u8>,
    found: bool,
    created: DateTime,
    written: DateTime,
    history: Seq<Access>,
    capacity: Option<u64>,
)
    requires
        volume.laid_out(),
        volume.fits(),
        volume.tied(),
        volume.coherent(),
        rooted(volume),
        steady::hints_in_place(volume),
        capacity is Some ==> volume.first_block + volume.boot.total_sectors <= capacity->0,
        creation::numbered(
            volume,
            replacing::home(volume, path),
            fs::MAX_DIRECTORY_GROWTH as int,
        ),
        volume.replace_file(path, data, found, created, written).1 is Ok,
        found ==> coherence::held_aside(volume.open(path).0, volume.open(path).1->Ok_0),
        coherence::held_apart(
            replacing::made_way(volume, path, found).resolve(
                volume.boot.root_cluster,
                operations::parent_of(path),
            ).0,
            replacing::home(volume, path),
        ),
        ({
            let (after, result) = volume.replace_file(path, data, found, created, written);
            let file = result->Ok_0;
            let clear = replacing::made_way(volume, path, found);
            replacing::goes_by(
                after.stored_listing(file.directory)->Ok_0.entry_at(file.index)->0,
                clear.resolve(
                    clear.boot.root_cluster,
                    operations::parent_of(path),
                ).0.plan_name(file.directory, operations::name_of(path)).1->Ok_0,
                operations::name_of(path),
            )
        }),
    ensures
        ({
            let after = volume.replace_file(path, data, found, created, written).0;
            fs::mounted(
                after.synced().disk,
                history,
                after.limit,
                capacity,
                after.first_block,
                after.codepage,
                None,
            ) matches Ok(again) && again.open(path).1 is Ok && again.open(path).0.read_file(
                again.open(path).1->Ok_0,
                0,
                data.len() as int,
            ).1 == Ok::<Seq<u8>, Fault>(data)
        }),
{
    let after = volume.replace_file(path, data, found, created, written).0;
    assert(after.laid_out() && after.fits() && after.tied() && rooted(after) && after.boot
        == volume.boot && after.first_block == volume.first_block) by {
        steady::lemma_replace_file(volume, path, data, found, created, written);
        lemma_stays_rooted(volume, after);
    }
    assert(!after.table.has_changes()) by {
        settled::lemma_replace_file(volume, path, data, found, created, written);
    }
    assert(after.coherent()) by {
        coherence::lemma_replace_file(volume, path, data, found, created, written);
    }
    assert(after.open(path).1 is Ok && after.open(path).0.read_file(
        after.open(path).1->Ok_0,
        0,
        data.len() as int,
    ).1 == Ok::<Seq<u8>, Fault>(data)) by {
        assert(volume.coherent_at(replacing::home(volume, path)));
        replacing::lemma_write_file_is_found(volume, path, data, found, created, written);
    }
    lemma_read_after_mounting(after, history, capacity, path, data);
}

} // verus!
