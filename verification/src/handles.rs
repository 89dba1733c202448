//! When a handle is stale, and what a request that is refused leaves as it
//! was.
use vstd::prelude::*;

use crate::dir;
use crate::error::{FatError, Fault};
use crate::operations;
use crate::operations::FileView;
use crate::settled;
use crate::time::DateTime;
use crate::volume;
use crate::volume::Volume;

verus! {

/// What a stale handle is answered.
pub open spec fn stale(volume: Volume, file: FileView) -> Fault {
    Fault::StaleFile { name: file.short.display(volume.codepage) }
}

/// A handle from before a deletion in its directory is stale: every read and
/// every write through it, whatever its place and length, and setting its
/// length, are refused, and change nothing.
pub proof fn lemma_stale_handle(
    volume: Volume,
    file: FileView,
    offset: int,
    length: int,
    data: Seq<u8>,
    size: u32,
    now: DateTime,
)
    requires
        volume.deletions_of(file.directory) != file.deletions,
    ensures
        volume.check_live(file) == (volume, Err::<(), Fault>(stale(volume, file))),
        volume.read_file(file, offset, length) == (
            volume,
            Err::<Seq<u8>, Fault>(stale(volume, file)),
        ),
        volume.read_whole(file) == (volume, Err::<Seq<u8>, Fault>(stale(volume, file))),
        volume.write_file_at(file, offset, data, now) == (
            volume,
            file,
            Err::<(), Fault>(stale(volume, file)),
        ),
        volume.truncate(file, size, now) == (volume, file, Err::<(), Fault>(stale(volume, file))),
{
    reveal(Volume::check_live);
}

/// Removing a file makes every handle on a file of its directory stale, the
/// one on the file itself among them.
pub proof fn lemma_removal_makes_stale(volume: Volume, path: Seq<char>, file: FileView)
    requires
        volume.open(path).1 is Ok,
        file.directory == volume.open(path).1->Ok_0.directory,
        file.deletions == volume.deletions_of(file.directory),
    ensures
        volume.remove(path).0.check_live(file).1 == Err::<(), Fault>(stale(volume, file)),
{
    settled::lemma_remove(volume, path);
    lemma_counted_is_stale(volume, volume.remove(path).0, file);
}

/// A handle from before a deletion that was counted is stale.
proof fn lemma_counted_is_stale(before: Volume, after: Volume, file: FileView)
    requires
        file.deletions == before.deletions_of(file.directory),
        settled::counts_alike(before.counted(file.directory), after),
    ensures
        after.check_live(file).1 == Err::<(), Fault>(stale(before, file)),
{
    assert(after.deletions_of(file.directory) == before.counted(file.directory).deletions_of(
        file.directory,
    ));
    reveal(Volume::check_live);
}

/// Removing a directory makes every handle on a file of the directory it was
/// in stale.
pub proof fn lemma_removed_directory_makes_stale(volume: Volume, path: Seq<char>, file: FileView)
    requires
        volume.remove_dir(path).1 is Ok,
        file.directory == volume.look_up(operations::plain(path)).1->Ok_0.0,
        file.deletions == volume.deletions_of(file.directory),
    ensures
        volume.remove_dir(path).0.check_live(file).1 == Err::<(), Fault>(stale(volume, file)),
{
    settled::lemma_remove_dir(volume, path);
    lemma_counted_is_stale(volume, volume.remove_dir(path).0, file);
}

/// Writing a whole file in place of another makes every handle on a file of
/// its directory stale, the one on the file that was there among them.
pub proof fn lemma_replaced_file_makes_stale(
    volume: Volume,
    path: Seq<char>,
    data: Seq<u8>,
    created: DateTime,
    written: DateTime,
    file: FileView,
)
    requires
        volume.replace_file(path, data, true, created, written).1 is Ok,
        file.directory == volume.open(path).1->Ok_0.directory,
        file.deletions == volume.deletions_of(file.directory),
    ensures
        volume.replace_file(path, data, true, created, written).0.check_live(file).1 == Err::<
            (),
            Fault,
        >(stale(volume, file)),
{
    settled::lemma_replace_file(volume, path, data, true, created, written);
    lemma_counted_is_stale(
        volume,
        volume.replace_file(path, data, true, created, written).0,
        file,
    );
}

/// Creating something whose name is taken, or cannot be stored, or whose
/// parent is not there, is refused, and nothing is changed by it.
pub proof fn lemma_create_refused(volume: Volume, path: Seq<char>, size: u32, now: DateTime)
    requires
        ({
            let (resolved, leads) = volume.resolve(
                volume.boot.root_cluster,
                operations::parent_of(path),
            );
            leads is Err || resolved.plan_name(leads->Ok_0, operations::name_of(path)).1 is Err
        }),
    ensures
        volume.create(path, size, now).1 is Err,
        volume.create(path, size, now).0.looks_like(volume),
        volume.create_dir(path, now).1 is Err,
        volume.create_dir(path, now).0.looks_like(volume),
{
    let root = volume.boot.root_cluster;
    let parent = operations::parent_of(path);
    volume::lemma_resolve_looks(volume, root, parent);
    let (resolved, leads) = volume.resolve(root, parent);
    if leads is Ok {
        operations::lemma_plan_name_looks(resolved, leads->Ok_0, operations::name_of(path));
    }
}

/// A name that a directory lists is answered as taken.
pub proof fn lemma_name_taken(volume: Volume, path: Seq<char>, size: u32, now: DateTime)
    requires
        volume.look_up(path).1 is Ok,
    ensures
        volume.create(path, size, now).1 == Err::<FileView, Fault>(
            Fault::AlreadyExists { name: operations::name_of(path) },
        ),
        volume.create_dir(path, now).1 == Err::<u32, Fault>(
            Fault::AlreadyExists { name: operations::name_of(path) },
        ),
        volume.create(path, size, now).0.looks_like(volume),
        volume.create_dir(path, now).0.looks_like(volume),
{
    reveal(Volume::look_up);
    assert({
        let (resolved, leads) = volume.resolve(
            volume.boot.root_cluster,
            operations::parent_of(path),
        );
        leads is Ok && resolved.plan_name(leads->Ok_0, operations::name_of(path)).1 == Err::<
            crate::name::StoredView,
            Fault,
        >(Fault::AlreadyExists { name: operations::name_of(path) })
    }) by {
        reveal(Volume::plan_name);
    }
    lemma_create_refused(volume, path, size, now);
}

/// Where there are not clusters enough, creating a file of that size is
/// refused, and nothing is changed by it.
pub proof fn lemma_create_disk_full(volume: Volume, path: Seq<char>, size: u32, now: DateTime)
    requires
        ({
            let (resolved, leads) = volume.resolve(
                volume.boot.root_cluster,
                operations::parent_of(path),
            );
            leads is Ok && resolved.plan_name(leads->Ok_0, operations::name_of(path)).1 is Ok
        }),
        volume.table.free_count() < operations::clusters_for(
            size as int,
            volume.cluster_bytes(),
        ) as u32,
    ensures
        volume.create(path, size, now).1 == Err::<FileView, Fault>(
            Fault::Fat(
                FatError::DiskFull {
                    wanted: operations::clusters_for(size as int, volume.cluster_bytes()) as u32,
                    free: volume.table.free_count() as u32,
                },
            ),
        ),
        volume.create(path, size, now).0.looks_like(volume),
{
    let root = volume.boot.root_cluster;
    let parent = operations::parent_of(path);
    volume::lemma_resolve_looks(volume, root, parent);
    let (resolved, leads) = volume.resolve(root, parent);
    operations::lemma_plan_name_looks(resolved, leads->Ok_0, operations::name_of(path));
}

/// A directory that lists anything beside itself and its parent is not
/// removed, and nothing is changed by asking.
pub proof fn lemma_occupied_directory_stays(volume: Volume, path: Seq<char>)
    requires
        !operations::is_root(path),
        volume.look_up(operations::plain(path)).1 is Ok,
        volume.look_up(operations::plain(path)).1->Ok_0.1.is_directory(),
        ({
            let (found, result) = volume.look_up(operations::plain(path));
            let (read, listed) = found.read_dir(result->Ok_0.1.first_cluster);
            listed is Ok && !listed->Ok_0.is_vacant()
        }),
    ensures
        volume.remove_dir(path).1 == Err::<(), Fault>(
            Fault::DirectoryNotEmpty { name: operations::name_of(path) },
        ),
        volume.remove_dir(path).0.looks_like(volume),
{
    let plain = operations::plain(path);
    operations::lemma_look_up_looks(volume, plain);
    let (found, result) = volume.look_up(plain);
    volume::lemma_read_dir_looks(found, result->Ok_0.1.first_cluster);
}

/// The root, named by single periods, and a directory's parent, named by the
/// directory's name for it, are not removed, and nothing is changed by asking.
pub proof fn lemma_root_and_parent_stay(volume: Volume, path: Seq<char>)
    requires
        operations::is_root(path) || {
            let result = volume.look_up(operations::plain(path)).1;
            &&& result is Ok
            &&& result->Ok_0.1.is_directory()
            &&& dir::is_dots(result->Ok_0.1.name())
        },
    ensures
        volume.remove_dir(path).1 == Err::<(), Fault>(
            if operations::is_root(path) {
                Fault::NotFound { name: operations::name_of(path) }
            } else {
                Fault::DirectoryNotEmpty { name: operations::name_of(path) }
            },
        ),
        volume.remove_dir(path).0.looks_like(volume),
{
    operations::lemma_look_up_looks(volume, operations::plain(path));
}

} // verus!
