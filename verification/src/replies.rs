//! What each call answers where nothing outside the library fails: what the
//! model says, and no other failure.
use vstd::prelude::*;

use crate::blockdev::BlockDevice;
use crate::dir::{Directory, Listing, ShortName};
use crate::error::{Error, Fault, Result};
use crate::fat::Fat;
use crate::file::File;
use crate::fs::FileSystem;
use crate::operations::FileView;
use crate::table::Run;
use crate::time::DateTime;
use crate::volume::Volume;

verus! {

/// Whether a call did not fail for the device or for want of memory.
pub open spec fn undisturbed<T, E>(result: Result<T, E>) -> bool {
    !(result matches Err(Error::Device(_))) && !(result matches Err(Error::OutOfMemory { bytes: _ }))
}

/// Opening answers what looking the path up finds.
pub proof fn lemma_open<D: BlockDevice>(
    fs: &mut FileSystem<D>,
    path: &str,
    result: Result<File, D::Error>,
)
    requires
        call_ensures(FileSystem::<D>::open, (fs, path,), result),
        undisturbed(result),
    ensures
        final(fs).wf(),
        (match result {
            Ok(file) => (final(fs)@, Ok::<FileView, Fault>(file@)) == old(fs)@.open(path@),
            Err(error) => (final(fs)@, Err::<FileView, Fault>(error@)) == old(fs)@.open(path@),
        }),
{
}

/// Reading a file whole answers what the file holds.
pub proof fn lemma_read_all<D: BlockDevice>(
    fs: &mut FileSystem<D>,
    file: &File,
    result: Result<Vec<u8>, D::Error>,
)
    requires
        call_ensures(FileSystem::<D>::read_all, (fs, file,), result),
        undisturbed(result),
    ensures
        final(fs).wf(),
        (match result {
            Ok(data) => (final(fs)@, Ok::<Seq<u8>, Fault>(data@)) == old(fs)@.read_whole(file@),
            Err(error) => (final(fs)@, Err::<Seq<u8>, Fault>(error@)) == old(fs)@.read_whole(file@),
        }),
{
}

/// Writing answers what the model of a write says.
pub proof fn lemma_write_at_stamped<D: BlockDevice>(
    fs: &mut FileSystem<D>,
    file: &mut File,
    offset: u64,
    data: &[u8],
    now: DateTime,
    result: Result<(), D::Error>,
)
    requires
        call_ensures(FileSystem::<D>::write_at_stamped, (fs, file, offset, data, now,), result),
        undisturbed(result),
    ensures
        final(fs).wf(),
        (match result {
            Ok(()) => (final(fs)@, final(file)@, Ok::<(), Fault>(())) == old(fs)@.write_file_at(old(file)@, offset as int, data@, now),
            Err(error) => (final(fs)@, final(file)@, Err::<(), Fault>(error@)) == old(fs)@.write_file_at(old(file)@, offset as int, data@, now),
        }),
{
}

/// Writing with the clock's moment is writing with some moment that it answers.
pub proof fn lemma_write_at<D: BlockDevice>(
    fs: &mut FileSystem<D>,
    file: &mut File,
    offset: u64,
    data: &[u8],
    result: Result<(), D::Error>,
)
    requires
        call_ensures(FileSystem::<D>::write_at, (fs, file, offset, data,), result),
        undisturbed(result),
    ensures
        final(fs).wf(),
        exists|now: DateTime| #[trigger] old(fs)@.clock.contains(now) && (match result {
            Ok(()) => (final(fs)@, final(file)@, Ok::<(), Fault>(())) == old(fs)@.write_file_at(old(file)@, offset as int, data@, now),
            Err(error) => (final(fs)@, final(file)@, Err::<(), Fault>(error@)) == old(fs)@.write_file_at(old(file)@, offset as int, data@, now),
        }),
{
}

/// Truncating answers what its model says.
pub proof fn lemma_truncate_stamped<D: BlockDevice>(
    fs: &mut FileSystem<D>,
    file: &mut File,
    size: u32,
    now: DateTime,
    result: Result<(), D::Error>,
)
    requires
        call_ensures(FileSystem::<D>::truncate_stamped, (fs, file, size, now,), result),
        undisturbed(result),
    ensures
        final(fs).wf(),
        (match result {
            Ok(()) => (final(fs)@, final(file)@, Ok::<(), Fault>(())) == old(fs)@.truncate(old(file)@, size, now),
            Err(error) => (final(fs)@, final(file)@, Err::<(), Fault>(error@)) == old(fs)@.truncate(old(file)@, size, now),
        }),
{
}

/// Truncating with the clock's moment is truncating with some moment that it answers.
pub proof fn lemma_truncate<D: BlockDevice>(
    fs: &mut FileSystem<D>,
    file: &mut File,
    size: u32,
    result: Result<(), D::Error>,
)
    requires
        call_ensures(FileSystem::<D>::truncate, (fs, file, size,), result),
        undisturbed(result),
    ensures
        final(fs).wf(),
        exists|now: DateTime| #[trigger] old(fs)@.clock.contains(now) && (match result {
            Ok(()) => (final(fs)@, final(file)@, Ok::<(), Fault>(())) == old(fs)@.truncate(old(file)@, size, now),
            Err(error) => (final(fs)@, final(file)@, Err::<(), Fault>(error@)) == old(fs)@.truncate(old(file)@, size, now),
        }),
{
}

/// Removing a file answers what its model says.
pub proof fn lemma_remove<D: BlockDevice>(
    fs: &mut FileSystem<D>,
    path: &str,
    result: Result<(), D::Error>,
)
    requires
        call_ensures(FileSystem::<D>::remove, (fs, path,), result),
        undisturbed(result),
    ensures
        final(fs).wf(),
        (match result {
            Ok(()) => (final(fs)@, Ok::<(), Fault>(())) == old(fs)@.remove(path@),
            Err(error) => (final(fs)@, Err::<(), Fault>(error@)) == old(fs)@.remove(path@),
        }),
{
}

/// Removing a directory answers what its model says.
pub proof fn lemma_remove_dir<D: BlockDevice>(
    fs: &mut FileSystem<D>,
    path: &str,
    result: Result<(), D::Error>,
)
    requires
        call_ensures(FileSystem::<D>::remove_dir, (fs, path,), result),
        undisturbed(result),
    ensures
        final(fs).wf(),
        (match result {
            Ok(()) => (final(fs)@, Ok::<(), Fault>(())) == old(fs)@.remove_dir(path@),
            Err(error) => (final(fs)@, Err::<(), Fault>(error@)) == old(fs)@.remove_dir(path@),
        }),
{
}

/// Creating a file answers what its model says.
pub proof fn lemma_create_with_size_stamped<D: BlockDevice>(
    fs: &mut FileSystem<D>,
    path: &str,
    size: u32,
    now: DateTime,
    result: Result<File, D::Error>,
)
    requires
        call_ensures(FileSystem::<D>::create_with_size_stamped, (fs, path, size, now,), result),
        undisturbed(result),
    ensures
        final(fs).wf(),
        (match result {
            Ok(file) => (final(fs)@, Ok::<FileView, Fault>(file@)) == old(fs)@.create(path@, size, now),
            Err(error) => (final(fs)@, Err::<FileView, Fault>(error@)) == old(fs)@.create(path@, size, now),
        }),
{
}

/// Creating a file with the clock's moment is creating it with some moment that it answers.
pub proof fn lemma_create_with_size<D: BlockDevice>(
    fs: &mut FileSystem<D>,
    path: &str,
    size: u32,
    result: Result<File, D::Error>,
)
    requires
        call_ensures(FileSystem::<D>::create_with_size, (fs, path, size,), result),
        undisturbed(result),
    ensures
        final(fs).wf(),
        exists|now: DateTime| #[trigger] old(fs)@.clock.contains(now) && (match result {
            Ok(file) => (final(fs)@, Ok::<FileView, Fault>(file@)) == old(fs)@.create(path@, size, now),
            Err(error) => (final(fs)@, Err::<FileView, Fault>(error@)) == old(fs)@.create(path@, size, now),
        }),
{
}

/// Creating a file without a size is creating an empty one.
pub proof fn lemma_create<D: BlockDevice>(
    fs: &mut FileSystem<D>,
    path: &str,
    result: Result<File, D::Error>,
)
    requires
        call_ensures(FileSystem::<D>::create, (fs, path,), result),
        undisturbed(result),
    ensures
        final(fs).wf(),
        exists|now: DateTime| #[trigger] old(fs)@.clock.contains(now) && (match result {
            Ok(file) => (final(fs)@, Ok::<FileView, Fault>(file@)) == old(fs)@.create(path@, 0, now),
            Err(error) => (final(fs)@, Err::<FileView, Fault>(error@)) == old(fs)@.create(path@, 0, now),
        }),
{
}

/// Creating a directory answers what its model says.
pub proof fn lemma_create_dir_stamped<D: BlockDevice>(
    fs: &mut FileSystem<D>,
    path: &str,
    now: DateTime,
    result: Result<u32, D::Error>,
)
    requires
        call_ensures(FileSystem::<D>::create_dir_stamped, (fs, path, now,), result),
        undisturbed(result),
    ensures
        final(fs).wf(),
        (match result {
            Ok(cluster) => (final(fs)@, Ok::<u32, Fault>(cluster)) == old(fs)@.create_dir(path@, now),
            Err(error) => (final(fs)@, Err::<u32, Fault>(error@)) == old(fs)@.create_dir(path@, now),
        }),
{
}

/// Creating a directory with the clock's moment is creating it with some moment that it answers.
pub proof fn lemma_create_dir<D: BlockDevice>(
    fs: &mut FileSystem<D>,
    path: &str,
    result: Result<u32, D::Error>,
)
    requires
        call_ensures(FileSystem::<D>::create_dir, (fs, path,), result),
        undisturbed(result),
    ensures
        final(fs).wf(),
        exists|now: DateTime| #[trigger] old(fs)@.clock.contains(now) && (match result {
            Ok(cluster) => (final(fs)@, Ok::<u32, Fault>(cluster)) == old(fs)@.create_dir(path@, now),
            Err(error) => (final(fs)@, Err::<u32, Fault>(error@)) == old(fs)@.create_dir(path@, now),
        }),
{
}

/// Reading a chain answers what its clusters hold.
pub proof fn lemma_read_chain<D: BlockDevice>(
    fs: &mut FileSystem<D>,
    cluster: u32,
    result: Result<Vec<u8>, D::Error>,
)
    requires
        call_ensures(FileSystem::<D>::read_chain, (fs, cluster,), result),
        undisturbed(result),
    ensures
        final(fs).wf(),
        (match result {
            Ok(data) => (final(fs)@, Ok::<Seq<u8>, Fault>(data@)) == old(fs)@.read_chain(cluster),
            Err(error) => (final(fs)@, Err::<Seq<u8>, Fault>(error@)) == old(fs)@.read_chain(cluster),
        }),
{
}

/// Reading a directory answers its listing.
pub proof fn lemma_read_dir<D: BlockDevice>(
    fs: &mut FileSystem<D>,
    cluster: u32,
    result: Result<&Directory, D::Error>,
)
    requires
        call_ensures(FileSystem::<D>::read_dir, (fs, cluster,), result),
        undisturbed(result),
    ensures
        final(fs).wf(),
        (match result {
            Ok(directory) => (final(fs)@, Ok::<Listing, Fault>(directory@)) == old(fs)@.read_dir(cluster),
            Err(error) => (final(fs)@, Err::<Listing, Fault>(error@)) == old(fs)@.read_dir(cluster),
        }),
{
}

/// Reading the root is reading the directory at its cluster.
pub proof fn lemma_root_dir<D: BlockDevice>(
    fs: &mut FileSystem<D>,
    result: Result<&Directory, D::Error>,
)
    requires
        call_ensures(FileSystem::<D>::root_dir, (fs,), result),
        undisturbed(result),
    ensures
        final(fs).wf(),
        (match result {
            Ok(directory) => (final(fs)@, Ok::<Listing, Fault>(directory@)) == old(fs)@.read_dir(old(fs)@.boot.root_cluster),
            Err(error) => (final(fs)@, Err::<Listing, Fault>(error@)) == old(fs)@.read_dir(old(fs)@.boot.root_cluster),
        }),
{
}

/// Opening a directory answers the listing that its path leads to.
pub proof fn lemma_open_dir<D: BlockDevice>(
    fs: &mut FileSystem<D>,
    path: &str,
    result: Result<&Directory, D::Error>,
)
    requires
        call_ensures(FileSystem::<D>::open_dir, (fs, path,), result),
        undisturbed(result),
    ensures
        final(fs).wf(),
        (match result {
            Ok(directory) => (final(fs)@, Ok::<Listing, Fault>(directory@)) == old(fs)@.open_dir(path@),
            Err(error) => (final(fs)@, Err::<Listing, Fault>(error@)) == old(fs)@.open_dir(path@),
        }),
{
}

/// Reading into a buffer fills its start with what the file holds there, and
/// leaves the rest as it was.
pub proof fn lemma_read_at<D: BlockDevice>(
    fs: &mut FileSystem<D>,
    file: &File,
    offset: u64,
    into: &mut [u8],
    result: Result<usize, D::Error>,
)
    requires
        call_ensures(FileSystem::<D>::read_at, (fs, file, offset, into), result),
        undisturbed(result),
    ensures
        final(fs).wf(),
        final(into)@.len() == old(into)@.len(),
        match result {
            Ok(read) => {
                &&& read <= old(into)@.len()
                &&& (final(fs)@, Ok::<Seq<u8>, Fault>(final(into)@.take(read as int)))
                    == old(fs)@.read_file(file@, offset as int, old(into)@.len() as int)
                &&& forall|i: int| read <= i < old(into)@.len() ==> #[trigger] final(into)@[i]
                    == old(into)@[i]
            },
            Err(error) => (final(fs)@, Err::<Seq<u8>, Fault>(error@)) == old(fs)@.read_file(
                file@,
                offset as int,
                old(into)@.len() as int,
            ),
        },
{
    if let Ok(read) = result {
        assert forall|i: int| read <= i < old(into)@.len() implies #[trigger] final(into)@[i]
            == old(into)@[i] by {
            assert(final(into)@.skip(read as int)[i - read] == old(into)@.skip(read as int)[i
                - read]);
        }
    }
}

/// A run is refused for its own sake alone, and is read where its clusters are.
pub proof fn lemma_read_run<D: BlockDevice>(
    fs: &mut FileSystem<D>,
    run: &Run,
    into: &mut [u8],
    result: Result<(), D::Error>,
)
    requires
        call_ensures(FileSystem::<D>::read_run, (fs, run, into), result),
        undisturbed(result),
    ensures
        result is Ok <==> old(fs)@.run_fault(*run, old(into)@.len() as int) is None,
        result matches Err(error) ==> old(fs)@.run_fault(*run, old(into)@.len() as int) == Some(
            error@,
        ),
        result is Err ==> final(fs)@ == old(fs)@ && final(into)@ == old(into)@,
        result is Ok && run.clusters > 0 ==> {
            let sector = old(fs)@.boot.spec_cluster_sector(run.start_cluster as int);
            let blocks = run.clusters * old(fs)@.boot.sectors_per_cluster;
            final(into)@ == old(fs)@.sectors(sector, blocks) && final(fs)@ == old(fs)@.after_read(
                sector,
                blocks,
            )
        },
{
}

/// Replacing a file answers what removing, creating and writing answer.
pub proof fn lemma_write_file<D: BlockDevice>(
    fs: &mut FileSystem<D>,
    path: &str,
    data: &[u8],
    result: Result<File, D::Error>,
)
    requires
        call_ensures(FileSystem::<D>::write_file, (fs, path, data), result),
        undisturbed(result),
    ensures
        final(fs).wf(),
        exists|created: DateTime, written: DateTime, tried: Volume, found: bool|
            #![trigger
                old(fs)@.clock.contains(created),
                old(fs)@.clock.contains(written),
                old(fs)@.looked_for(path@, tried, found)
            ]
            {
                &&& old(fs)@.clock.contains(created)
                &&& old(fs)@.clock.contains(written)
                &&& old(fs)@.looked_for(path@, tried, found)
                &&& match result {
                    Ok(file) => (final(fs)@, Ok::<FileView, Fault>(file@)) == tried.replace_file(
                        path@,
                        data@,
                        found,
                        created,
                        written,
                    ),
                    Err(error) => (final(fs)@, Err::<FileView, Fault>(error@))
                        == tried.replace_file(path@, data@, found, created, written),
                }
            },
{
}

/// Syncing fails only where the device does, and unmounting hands back what
/// syncing leaves on the device.
pub proof fn lemma_sync<D: BlockDevice>(
    fs: &mut FileSystem<D>,
    result: Result<(), D::Error>,
    mounted: FileSystem<D>,
    unmounted: Result<D, D::Error>,
)
    requires
        call_ensures(FileSystem::<D>::sync, (fs,), result),
        call_ensures(FileSystem::<D>::unmount, (mounted,), unmounted),
    ensures
        result is Ok ==> final(fs)@ == old(fs)@.synced(),
        result matches Err(error) ==> error is Device,
        unmounted matches Ok(device) ==> device.contents() == mounted@.synced().disk
            && device.history() == mounted@.synced().history,
        unmounted matches Err(error) ==> error is Device,
        !mounted@.marked_dirty ==> unmounted is Ok,
        !old(fs)@.marked_dirty ==> result is Ok,
{
}

/// The runs of a chain are those that its clusters make.
pub proof fn lemma_runs<D: BlockDevice>(
    fs: &FileSystem<D>,
    cluster: u32,
    result: Result<Vec<Run>, D::Error>,
    fat: &Fat,
    length: core::result::Result<u32, crate::error::FatError>,
)
    requires
        call_ensures(FileSystem::<D>::runs, (fs, cluster), result),
        call_ensures(FileSystem::<D>::fat, (fs,), fat),
        call_ensures(Fat::chain_length, (fat, cluster), length),
    ensures
        fs@.table.chain(cluster) is Ok <==> result is Ok,
        fs@.table.chain(cluster) matches Err(error) ==> result matches Err(Error::Fat(reason))
            && reason == error,
        fs@.table.chain(cluster) is Ok <==> length is Ok,
        result matches Ok(runs) ==> runs@ == crate::table::coalesce(
            fs@.table.chain(cluster)->Ok_0,
        ),
{
}

/// What hands back a part of the volume hands back that part.
pub proof fn lemma_parts<D: BlockDevice>(
    fs: &FileSystem<D>,
    dirty: bool,
    root: u32,
    fat: &Fat,
    changes: bool,
)
    requires
        call_ensures(FileSystem::<D>::is_dirty, (fs,), dirty),
        call_ensures(FileSystem::<D>::root_cluster, (fs,), root),
        call_ensures(FileSystem::<D>::fat, (fs,), fat),
        call_ensures(Fat::has_unsynced_changes, (fat,), changes),
    ensures
        dirty == fs@.boot.dirty,
        root == fs@.boot.root_cluster,
        fat@ == fs@.table,
        changes == fs@.table.has_changes(),
{
}

/// Forgetting directories forgets them all, and changes nothing else.
pub proof fn lemma_forget<D: BlockDevice>(fs: &mut FileSystem<D>)
    requires
        call_ensures(FileSystem::<D>::forget_directories, (fs,), ()),
    ensures
        forall|cluster: u32| !(#[trigger] final(fs)@.directories.contains_key(cluster)),
        final(fs)@ == (Volume { directories: final(fs)@.directories, ..old(fs)@ }),
{
}

/// The device is handed back as it is.
pub proof fn lemma_device<D: BlockDevice>(fs: &FileSystem<D>, held: &D, owned: D)
    requires
        call_ensures(FileSystem::<D>::device, (fs,), held),
        call_ensures(FileSystem::<D>::into_device, (*fs,), owned),
    ensures
        held.contents() == fs@.disk,
        held.history() == fs@.history,
        held.capacity() == fs@.capacity,
        owned.contents() == fs@.disk,
        owned.history() == fs@.history,
        owned.capacity() == fs@.capacity,
{
}

/// A handle hands back what it holds.
pub proof fn lemma_handle(file: &File, size: u32, empty: bool, cluster: u32, name: &ShortName)
    requires
        call_ensures(File::len, (file,), size),
        call_ensures(File::is_empty, (file,), empty),
        call_ensures(File::first_cluster, (file,), cluster),
        call_ensures(File::short_name, (file,), name),
    ensures
        size == file@.size,
        empty <==> size == 0,
        cluster == file@.first_cluster,
        name@ == file@.short,
{
}

/// What a message says is what the model of the failure says.
pub proof fn lemma_message<E>(error: &Error<E>, device: &str, message: String)
    requires
        call_ensures(Error::<E>::message_with, (error, device), message),
    ensures
        message@ == error@.text(device@),
{
}

} // verus!
