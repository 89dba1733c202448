//! That what is held of directories in memory stays what the device stores:
//! mounting holds nothing, reading holds what is there, and every change lets
//! go of the directory it touches.
//!
//! Each law asks that the directories held be apart from what is changed, and
//! from one another where one of them is.
use vstd::prelude::*;

use crate::chains;
use crate::creation;
use crate::dir;
use crate::durability;
use crate::fs;
use crate::folders;
use crate::laws;
use crate::operations;
use crate::operations::FileView;
use crate::removal;
use crate::replacing;
use crate::resizing;
use crate::steady;
use crate::storage;
use crate::table;
use crate::time::DateTime;
use crate::volume;
use crate::volume::{Edit, Volume};

verus! {

/// Whether every directory that is held, but one, is apart from that one.
pub open spec fn held_apart(volume: Volume, directory: u32) -> bool {
    forall|d: u32| #[trigger]
        volume.directories.contains_key(d) && d != directory ==> chains::apart(
            volume.table.chain(d)->Ok_0,
            volume.table.chain(directory)->Ok_0,
        )
}

/// Whether every directory that is held, but a file's own, is apart from the
/// file and from its directory.
pub open spec fn held_aside(volume: Volume, file: FileView) -> bool {
    forall|d: u32| #[trigger]
        volume.directories.contains_key(d) && d != file.directory ==> laws::bystander(
            volume,
            file,
            d,
        )
}

/// Where every directory held is held as the device stores it, so is every one
/// after a directory is read.
pub proof fn lemma_read_dir(volume: Volume, directory: u32)
    requires
        volume.coherent(),
    ensures
        volume.read_dir(directory).0.coherent(),
{
    let after = volume.read_dir(directory).0;
    assert forall|d: u32| #[trigger] after.directories.contains_key(d) implies after.stored_listing(d)
        == Ok::<dir::Listing, crate::error::Fault>(after.directories[d]) by {
        assert(volume.coherent_at(d));
        creation::lemma_read_coherent(volume, directory, d);
    }
}

/// Where every directory held is held as the device stores it, so is every one
/// after a path is walked.
pub proof fn lemma_resolve(volume: Volume, cluster: u32, path: Seq<char>)
    requires
        volume.coherent(),
    ensures
        volume.resolve(cluster, path).0.coherent(),
{
    let after = volume.resolve(cluster, path).0;
    assert forall|d: u32| #[trigger] after.directories.contains_key(d) implies after.stored_listing(d)
        == Ok::<dir::Listing, crate::error::Fault>(after.directories[d]) by {
        assert(volume.coherent_at(d));
        creation::lemma_resolve_coherent(volume, cluster, path, d);
    }
}

/// A change keeps it that holds no more than was held, and touches none of
/// that but one directory.
proof fn lemma_changed(before: Volume, after: Volume, but: u32)
    requires
        before.coherent(),
        after.coherent_at(but),
        after.codepage == before.codepage,
        forall|d: u32| #[trigger]
            after.directories.contains_key(d) && d != but ==> {
                &&& before.directories.contains_key(d)
                &&& after.directories[d] == before.directories[d]
                &&& laws::untouched(before, after, d)
            },
    ensures
        after.coherent(),
{
    assert forall|d: u32| #[trigger] after.directories.contains_key(d) implies after.stored_listing(d)
        == Ok::<dir::Listing, crate::error::Fault>(after.directories[d]) by {
        if d != but {
            assert(before.directories.contains_key(d));
        }
    }
}

/// Where every directory held is held as the device stores it, so is every one
/// after a file is written to.
pub proof fn lemma_write_file_at(
    volume: Volume,
    file: FileView,
    offset: int,
    data: Seq<u8>,
    now: DateTime,
)
    requires
        volume.laid_out(),
        volume.fits(),
        volume.coherent(),
        held_aside(volume, file),
        dir::slot_count(volume.stored(file.directory)) <= u32::MAX,
        laws::unentangled(volume, file),
        0 <= offset,
        data.len() > 0,
        volume.write_file_at(file, offset, data, now).2 is Ok,
    ensures
        volume.write_file_at(file, offset, data, now).0.coherent(),
{
    assert(volume.coherent_at(file.directory));
    laws::lemma_write_reads_back(volume, file, offset, data, now);
    let (after, written, _) = volume.write_file_at(file, offset, data, now);
    assert forall|d: u32| #[trigger]
        after.directories.contains_key(d) && d != file.directory implies {
        &&& volume.directories.contains_key(d)
        &&& after.directories[d] == volume.directories[d]
        &&& laws::untouched(volume, after, d)
    } by {
        assert(after.directories.remove(file.directory).contains_key(d));
        assert(volume.directories.remove(file.directory).contains_key(d));
        assert(after.directories.remove(file.directory)[d] == volume.directories.remove(
            file.directory,
        )[d]);
        assert(laws::bystander(volume, file, d));
    }
    lemma_changed(volume, after, file.directory);
}

/// What is held besides a file's directory is the same after its length is
/// set.
proof fn lemma_truncate_holds(volume: Volume, file: FileView, size: u32, now: DateTime)
    requires
        volume.laid_out(),
    ensures
        volume.truncate(file, size, now).0.directories.remove(file.directory)
            == volume.directories.remove(file.directory),
{
    let live = volume.check_live(file).0;
    operations::lemma_check_live_looks(volume, file);
    assert(live.directories.remove(file.directory) =~= volume.directories.remove(file.directory)) by {
        reveal(Volume::check_live);
        reveal(Volume::read_dir);
    }
    let after = volume.truncate(file, size, now).0;
    if size > file.size {
        lemma_reserve_holds(live, file, size, now);
        let (reserved, moved, result) = live.reserve(file, size, now);
        let first = moved.first_cluster;
        operations::lemma_zero_chain_frame(reserved, first, moved.size as int, size as int);
        let zeroed = reserved.zero_chain(first, moved.size as int, size as int).0;
        lemma_edit_holds(
            zeroed,
            file.directory,
            moved.index,
            Edit::Update { first_cluster: first, size, at: now },
        );
    } else {
        let keep = operations::clusters_for(size as int, volume.cluster_bytes());
        let first = if keep == 0 {
            0
        } else {
            file.first_cluster
        };
        let edit = Edit::Update { first_cluster: first, size, at: now };
        lemma_edit_holds(live, file.directory, file.index, edit);
        let recorded = live.edit_slot(file.directory, file.index, edit).0;
        let table = recorded.table.shortened(file.first_cluster, keep as u32).0;
        lemma_flush_holds(Volume { table, ..recorded });
    }
}

proof fn lemma_edit_holds(volume: Volume, directory: u32, index: u32, edit: Edit)
    ensures
        volume.edit_slot(directory, index, edit).0.directories.remove(directory)
            == volume.directories.remove(directory),
{
    reveal(Volume::edit_slot);
    let after = volume.edit_slot(directory, index, edit).0;
    assert(after.directories.remove(directory) =~= volume.directories.remove(directory));
}

proof fn lemma_copies_hold(volume: Volume, stretch: (u32, u32), copies: int)
    ensures
        volume.wrote_copies(stretch, copies).directories == volume.directories,
    decreases copies,
{
    if copies > 0 {
        lemma_copies_hold(volume, stretch, copies - 1);
    }
}

proof fn lemma_stretches_hold(volume: Volume, stretches: Seq<(u32, u32)>)
    ensures
        volume.wrote_stretches(stretches).directories == volume.directories,
    decreases stretches.len(),
{
    if stretches.len() > 0 {
        let fewer = stretches.drop_last();
        lemma_stretches_hold(volume, fewer);
        lemma_copies_hold(
            volume.wrote_stretches(fewer),
            stretches.last(),
            volume.table.fat_count as int,
        );
    }
}

proof fn lemma_flush_holds(volume: Volume)
    ensures
        volume.flush().directories == volume.directories,
{
    reveal(Volume::flush);
    lemma_stretches_hold(
        volume,
        crate::table::dirty_stretches(volume.table.dirty, volume.table.dirty.len() as int),
    );
}

proof fn lemma_reserve_holds(volume: Volume, file: FileView, size: u32, now: DateTime)
    ensures
        volume.reserve(file, size, now).0.directories.remove(file.directory)
            == volume.directories.remove(file.directory),
        volume.reserve(file, size, now).1.directory == file.directory,
{
    reveal(Volume::reserve);
    let wanted = operations::clusters_for(size as int, volume.cluster_bytes());
    if wanted != 0 && file.first_cluster == 0 {
        let (table, result) = volume.table.allocated(wanted as u32);
        let held = Volume { table, ..volume };
        lemma_flush_holds(held);
        lemma_edit_holds(
            held.flush(),
            file.directory,
            file.index,
            Edit::Update { first_cluster: result->Ok_0[0], size: file.size, at: now },
        );
    } else if wanted != 0 && volume.table.chain(file.first_cluster) is Ok {
        let clusters = volume.table.chain(file.first_cluster)->Ok_0;
        let table = volume.table.appended(
            clusters.last(),
            (wanted - clusters.len()) as u32,
        ).0;
        lemma_flush_holds(Volume { table, ..volume });
    }
}

/// Where every directory held is held as the device stores it, so is every one
/// after a file's length is set.
pub proof fn lemma_truncate(volume: Volume, file: FileView, size: u32, now: DateTime)
    requires
        volume.laid_out(),
        volume.fits(),
        volume.coherent(),
        held_aside(volume, file),
        dir::slot_count(volume.stored(file.directory)) <= u32::MAX,
        laws::unentangled(volume, file),
        resizing::whole(volume, file),
        volume.truncate(file, size, now).2 is Ok,
    ensures
        volume.truncate(file, size, now).0.coherent(),
{
    assert(volume.coherent_at(file.directory));
    resizing::lemma_truncate(volume, file, size, now);
    lemma_truncate_holds(volume, file, size, now);
    let after = volume.truncate(file, size, now).0;
    assert forall|d: u32| #[trigger]
        after.directories.contains_key(d) && d != file.directory implies {
        &&& volume.directories.contains_key(d)
        &&& after.directories[d] == volume.directories[d]
        &&& laws::untouched(volume, after, d)
    } by {
        assert(after.directories.remove(file.directory).contains_key(d));
        assert(volume.directories.remove(file.directory).contains_key(d));
        assert(after.directories.remove(file.directory)[d] == volume.directories.remove(
            file.directory,
        )[d]);
        assert(laws::bystander(volume, file, d));
    }
    lemma_changed(volume, after, file.directory);
}

/// Where every directory held is held as the device stores it, so is every one
/// after a file is created.
pub proof fn lemma_create(volume: Volume, path: Seq<char>, size: u32, now: DateTime)
    requires
        volume.laid_out(),
        volume.fits(),
        volume.coherent(),
        volume.create(path, size, now).1 is Ok,
        creation::numbered(
            volume,
            volume.create(path, size, now).1->Ok_0.directory,
            fs::MAX_DIRECTORY_GROWTH as int,
        ),
        held_apart(
            volume.resolve(volume.boot.root_cluster, operations::parent_of(path)).0,
            volume.create(path, size, now).1->Ok_0.directory,
        ),
    ensures
        volume.create(path, size, now).0.coherent(),
{
    let root = volume.boot.root_cluster;
    let parent = operations::parent_of(path);
    let (after, result) = volume.create(path, size, now);
    let directory = result->Ok_0.directory;
    assert(volume.coherent_at(directory));
    creation::lemma_create(volume, path, size, now);
    let resolved = volume.resolve(root, parent).0;
    lemma_resolve(volume, root, parent);
    volume::lemma_resolve_looks(volume, root, parent);
    reveal(creation::created);
    assert forall|d: u32| #[trigger]
        after.directories.contains_key(d) && d != directory implies {
        &&& resolved.directories.contains_key(d)
        &&& after.directories[d] == resolved.directories[d]
        &&& laws::untouched(resolved, after, d)
    } by {
        assert(resolved.directories.contains_key(d));
        assert(resolved.stored_listing(d) is Ok);
        assert(chains::apart(
            volume.table.chain(d)->Ok_0,
            volume.table.chain(directory)->Ok_0,
        ));
        assert(laws::untouched(volume, after, d));
        assert(resolved.stored(d) =~= volume.stored(d));
    }
    lemma_changed(resolved, after, directory);
}

/// Where every directory held is held as the device stores it, so is every one
/// after a directory is created.
pub proof fn lemma_create_dir(volume: Volume, path: Seq<char>, now: DateTime)
    requires
        volume.laid_out(),
        volume.fits(),
        volume.coherent(),
        volume.create_dir(path, now).1 is Ok,
        creation::numbered(
            volume,
            replacing::home(volume, path),
            fs::MAX_DIRECTORY_GROWTH as int,
        ),
        held_apart(
            volume.resolve(volume.boot.root_cluster, operations::parent_of(path)).0,
            replacing::home(volume, path),
        ),
    ensures
        volume.create_dir(path, now).0.coherent(),
{
    let root = volume.boot.root_cluster;
    let parent = operations::parent_of(path);
    let directory = replacing::home(volume, path);
    let after = volume.create_dir(path, now).0;
    assert(volume.coherent_at(directory));
    let entry = folders::lemma_create_dir(volume, path, now);
    let resolved = volume.resolve(root, parent).0;
    lemma_resolve(volume, root, parent);
    volume::lemma_resolve_looks(volume, root, parent);
    reveal(folders::made_directory);
    assert forall|d: u32| #[trigger]
        after.directories.contains_key(d) && d != directory implies {
        &&& resolved.directories.contains_key(d)
        &&& after.directories[d] == resolved.directories[d]
        &&& laws::untouched(resolved, after, d)
    } by {
        assert(resolved.directories.contains_key(d));
        assert(resolved.stored_listing(d) is Ok);
        assert(chains::apart(
            volume.table.chain(d)->Ok_0,
            volume.table.chain(directory)->Ok_0,
        ));
        assert(laws::untouched(volume, after, d));
        assert(resolved.stored(d) =~= volume.stored(d));
    }
    lemma_changed(resolved, after, directory);
}

/// Where every directory held is held as the device stores it, so is every one
/// after a file is removed.
pub proof fn lemma_remove(volume: Volume, path: Seq<char>)
    requires
        volume.laid_out(),
        volume.fits(),
        volume.coherent(),
        volume.remove(path).1 is Ok,
        dir::slot_count(volume.stored(volume.open(path).1->Ok_0.directory)) <= u32::MAX,
        held_aside(volume.open(path).0, volume.open(path).1->Ok_0),
    ensures
        volume.remove(path).0.coherent(),
{
    let (opened, result) = volume.open(path);
    let file = result->Ok_0;
    let after = volume.remove(path).0;
    assert(volume.coherent_at(file.directory));
    removal::lemma_remove(volume, path);
    removal::lemma_opened(volume, path);
    operations::lemma_open_looks(volume, path);
    assert(opened.coherent()) by {
        lemma_resolve(volume, volume.boot.root_cluster, operations::parent_of(path));
        lemma_read_dir(
            volume.resolve(volume.boot.root_cluster, operations::parent_of(path)).0,
            file.directory,
        );
    }
    reveal(removal::removed);
    assert forall|d: u32| #[trigger]
        after.directories.contains_key(d) && d != file.directory implies {
        &&& opened.directories.contains_key(d)
        &&& after.directories[d] == opened.directories[d]
        &&& laws::untouched(opened, after, d)
    } by {
        assert(opened.directories.contains_key(d));
        assert(laws::bystander(opened, file, d));
        assert(laws::bystander(volume, file, d));
        assert(opened.stored(d) =~= volume.stored(d));
    }
    lemma_changed(opened, after, file.directory);
}

/// Finding an entry keeps it.
proof fn lemma_look_up(volume: Volume, path: Seq<char>)
    requires
        volume.coherent(),
        volume.look_up(path).1 is Ok,
    ensures
        volume.look_up(path).0.coherent(),
{
    reveal(Volume::look_up);
    let root = volume.boot.root_cluster;
    let parent = operations::parent_of(path);
    lemma_resolve(volume, root, parent);
    lemma_read_dir(volume.resolve(root, parent).0, volume.look_up(path).1->Ok_0.0);
}

/// Reading a directory holds nothing new but that one.
proof fn lemma_read_holds(volume: Volume, directory: u32)
    ensures
        volume.read_dir(directory).0.directories.remove(directory) == volume.directories.remove(
            directory,
        ),
{
    reveal(Volume::read_dir);
    assert(volume.read_dir(directory).0.directories.remove(directory)
        =~= volume.directories.remove(directory));
}

/// What is held after a directory is removed was held, and is untouched.
proof fn lemma_left_by_removal(volume: Volume, path: Seq<char>, d: u32)
    requires
        volume.laid_out(),
        volume.coherent(),
        removal::removed_dir(volume, volume.remove_dir(path).0, path),
        held_apart(volume.look_up(operations::plain(path)).0, volume.look_up(operations::plain(path)).1->Ok_0.0),
        held_apart(
            volume.look_up(operations::plain(path)).0,
            volume.look_up(operations::plain(path)).1->Ok_0.1.first_cluster,
        ),
        volume.look_up(operations::plain(path)).0.coherent(),
        volume.remove_dir(path).0.directories.contains_key(d),
        d != volume.look_up(operations::plain(path)).1->Ok_0.0,
    ensures
        ({
            let found = volume.look_up(operations::plain(path)).0;
            let after = volume.remove_dir(path).0;
            &&& found.directories.contains_key(d)
            &&& after.directories[d] == found.directories[d]
            &&& laws::untouched(found, after, d)
            &&& after.codepage == found.codepage
        }),
{
    let (found, result) = volume.look_up(operations::plain(path));
    let (parent, entry) = result->Ok_0;
    let first = entry.first_cluster;
    let after = volume.remove_dir(path).0;
    operations::lemma_look_up_looks(volume, operations::plain(path));
    lemma_read_holds(found, first);
    let read = found.read_dir(first).0;
    assert(after.directories == read.directories.remove(parent).remove(first)) by {
        reveal(removal::removed_dir);
    }
    assert(read.directories.remove(first).contains_key(d));
    assert(found.directories.remove(first).contains_key(d));
    assert(read.directories.remove(first)[d] == found.directories.remove(first)[d]);
    assert(found.stored_listing(d) is Ok);
    assert(laws::untouched(volume, after, d) && after.codepage == volume.codepage) by {
        reveal(removal::removed_dir);
        assert(chains::apart(
            volume.table.chain(d)->Ok_0,
            volume.table.chain(parent)->Ok_0,
        ));
    }
    assert(found.stored(d) =~= volume.stored(d));
}

/// Where every directory held is held as the device stores it, so is every one
/// after a directory is removed.
pub proof fn lemma_remove_dir(volume: Volume, path: Seq<char>)
    requires
        volume.laid_out(),
        volume.fits(),
        volume.coherent(),
        volume.remove_dir(path).1 is Ok,
        removal::lies_apart(volume, path),
        dir::slot_count(volume.stored(volume.look_up(operations::plain(path)).1->Ok_0.0)) <= u32::MAX,
        held_apart(volume.look_up(operations::plain(path)).0, volume.look_up(operations::plain(path)).1->Ok_0.0),
        held_apart(
            volume.look_up(operations::plain(path)).0,
            volume.look_up(operations::plain(path)).1->Ok_0.1.first_cluster,
        ),
    ensures
        volume.remove_dir(path).0.coherent(),
{
    let (found, result) = volume.look_up(operations::plain(path));
    let parent = result->Ok_0.0;
    let after = volume.remove_dir(path).0;
    assert(volume.coherent_at(parent));
    removal::lemma_remove_dir(volume, path);
    lemma_look_up(volume, operations::plain(path));
    assert forall|d: u32| #[trigger]
        after.directories.contains_key(d) && d != parent implies {
        &&& found.directories.contains_key(d)
        &&& after.directories[d] == found.directories[d]
        &&& laws::untouched(found, after, d)
    } by {
        lemma_left_by_removal(volume, path, d);
    }
    assert(after.codepage == found.codepage && !after.directories.contains_key(parent)) by {
        reveal(removal::removed_dir);
        operations::lemma_look_up_looks(volume, operations::plain(path));
    }
    lemma_changed(found, after, parent);
}

/// Syncing changes nothing that is held, and no chain.
proof fn lemma_sync_holds(volume: Volume, d: u32)
    requires
        volume.laid_out(),
    ensures
        volume.synced().directories == volume.directories,
        volume.synced().codepage == volume.codepage,
        volume.synced().boot == volume.boot,
        volume.synced().first_block == volume.first_block,
        volume.synced().table.chain(d) == volume.table.chain(d),
{
    storage::lemma_flush(volume);
    laws::lemma_flushed_chains(volume.table);
}

/// Where every directory held is held as the device stores it, so is every one
/// after syncing, where the hints lie before the tables.
pub proof fn lemma_synced(volume: Volume)
    requires
        volume.laid_out(),
        volume.fits(),
        volume.coherent(),
        steady::hints_in_place(volume),
    ensures
        volume.synced().coherent(),
{
    let after = volume.synced();
    durability::lemma_sync_undisturbed(volume);
    assert forall|d: u32| #[trigger] after.directories.contains_key(d) implies after.stored_listing(d)
        == Ok::<dir::Listing, crate::error::Fault>(after.directories[d]) by {
        lemma_sync_holds(volume, d);
        assert(volume.directories.contains_key(d));
        assert(volume.stored_listing(d) is Ok);
        table::lemma_chain(volume.table, d);
        laws::lemma_bytes_same(volume, after, volume.table.chain(d)->Ok_0);
    }
}

/// The directories held once a file is created are apart from its chain.
proof fn lemma_created_aside(
    clear: Volume,
    made: Volume,
    path: Seq<char>,
    size: u32,
    file: FileView,
    stored: crate::name::StoredView,
    now: DateTime,
)
    requires
        creation::created(clear, made, path, size, file, stored, now),
        clear.coherent(),
        held_apart(
            clear.resolve(clear.boot.root_cluster, operations::parent_of(path)).0,
            file.directory,
        ),
    ensures
        held_aside(made, file),
        laws::unentangled(made, file),
        dir::slot_count(made.stored(file.directory)) <= u32::MAX,
        made.laid_out(),
        made.disk.len() == clear.disk.len(),
        made.boot == clear.boot,
        made.first_block == clear.first_block,
{
    reveal(creation::created);
    let root = clear.boot.root_cluster;
    let parent = operations::parent_of(path);
    let resolved = clear.resolve(root, parent).0;
    lemma_resolve(clear, root, parent);
    volume::lemma_resolve_looks(clear, root, parent);
    assert forall|d: u32| #[trigger]
        made.directories.contains_key(d) && d != file.directory implies laws::bystander(
        made,
        file,
        d,
    ) by {
        assert(resolved.directories.contains_key(d));
        assert(resolved.stored_listing(d) is Ok);
        assert(chains::apart(
            clear.table.chain(d)->Ok_0,
            clear.table.chain(file.directory)->Ok_0,
        ));
        assert(laws::untouched(clear, made, d));
    }
}

/// Where every directory held is held as the device stores it, so is every one
/// after a file is written whole.
pub proof fn lemma_replace_file(
    volume: Volume,
    path: Seq<char>,
    data: Seq<u8>,
    found: bool,
    created: DateTime,
    written: DateTime,
)
    requires
        volume.laid_out(),
        volume.fits(),
        volume.coherent(),
        creation::numbered(
            volume,
            replacing::home(volume, path),
            fs::MAX_DIRECTORY_GROWTH as int,
        ),
        volume.replace_file(path, data, found, created, written).1 is Ok,
        found ==> held_aside(volume.open(path).0, volume.open(path).1->Ok_0),
        held_apart(
            replacing::made_way(volume, path, found).resolve(
                volume.boot.root_cluster,
                operations::parent_of(path),
            ).0,
            replacing::home(volume, path),
        ),
    ensures
        volume.replace_file(path, data, found, created, written).0.coherent(),
{
    let home = replacing::home(volume, path);
    let clear = replacing::made_way(volume, path, found);
    let size = (data.len() % 0x1_0000_0000) as u32;
    let (made, result) = clear.create(path, size, created);
    let file = result->Ok_0;
    assert(volume.coherent_at(home));
    assert(volume.resolve(volume.boot.root_cluster, operations::parent_of(path)).1 is Ok && (found
        ==> volume.open(path).1->Ok_0.directory == home)) by {
        if found {
            reveal(Volume::open);
            reveal(Volume::look_up);
        }
    }
    assert(found ==> volume.remove(path).1 is Ok);
    assert(result is Ok);
    replacing::lemma_made_way(volume, path, found, size, created);
    assert(clear.coherent()) by {
        if found {
            lemma_few_slots(volume, path);
            lemma_remove(volume, path);
        }
    }
    lemma_create(clear, path, size, created);
    let stored = clear.resolve(
        clear.boot.root_cluster,
        operations::parent_of(path),
    ).0.plan_name(file.directory, operations::name_of(path)).1->Ok_0;
    creation::lemma_create(clear, path, size, created);
    lemma_created_aside(clear, made, path, size, file, stored, created);
    if data.len() > 0 {
        lemma_write_file_at(made, file, 0, data, written);
    }
}

/// A directory that can grow has slots that can be numbered.
proof fn lemma_few_slots(volume: Volume, path: Seq<char>)
    requires
        volume.laid_out(),
        volume.coherent(),
        volume.open(path).1 is Ok,
        creation::numbered(
            volume,
            volume.open(path).1->Ok_0.directory,
            fs::MAX_DIRECTORY_GROWTH as int,
        ),
    ensures
        dir::slot_count(volume.stored(volume.open(path).1->Ok_0.directory)) <= u32::MAX,
{
    let directory = volume.open(path).1->Ok_0.directory;
    assert(volume.coherent_at(directory));
    removal::lemma_opened(volume, path);
    fs::lemma_chain_size(volume, 0);
    let more = fs::MAX_DIRECTORY_GROWTH as int;
    assert(0 <= more * volume.cluster_bytes()) by (nonlinear_arith)
        requires
            0 <= more,
            0 <= volume.cluster_bytes(),
    ;
}

} // verus!
