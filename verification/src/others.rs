//! What a change in a directory leaves of every file but the one it is about:
//! opened again by its path, it is there, and reads as it did.
use vstd::prelude::*;

use crate::chains;
use crate::creation;
use crate::dir;
use crate::dir::EntryView;
use crate::error::Fault;
use crate::fs;
use crate::laws;
use crate::listing;
use crate::operations;
use crate::operations::FileView;
use crate::paths;
use crate::removal;
use crate::replacing;
use crate::time::DateTime;
use crate::volume::Volume;

verus! {

/// Whether a change in one directory left every other that was held, and all
/// that is found in this one by any name; but for the entry in one slot, if
/// any.
pub open spec fn keeps_others(
    before: Volume,
    after: Volume,
    directory: u32,
    but: Option<u32>,
) -> bool {
    let (had, has) = (
        before.stored_listing(directory)->Ok_0,
        after.stored_listing(directory)->Ok_0,
    );
    &&& after.boot == before.boot
    &&& after.codepage == before.codepage
    &&& forall|d: u32|
        d != directory && #[trigger] before.directories.contains_key(d)
            ==> after.directories.contains_key(d) && after.directories[d] == before.directories[d]
    &&& before.stored_listing(directory) is Ok
    &&& after.stored_listing(directory) is Ok
    &&& after.coherent_at(directory)
    &&& dir::slot_count(after.stored(directory)) <= u32::MAX
    &&& paths::leads_alike(had, has)
    &&& paths::finds_alike(had, has, but)
}

/// One change after another.
proof fn lemma_keeps_twice(
    a: Volume,
    b: Volume,
    c: Volume,
    directory: u32,
    but: Option<u32>,
)
    requires
        keeps_others(a, b, directory, but),
        keeps_others(b, c, directory, None),
    ensures
        keeps_others(a, c, directory, but),
{
    let (x, y, z) = (
        a.stored_listing(directory)->Ok_0,
        b.stored_listing(directory)->Ok_0,
        c.stored_listing(directory)->Ok_0,
    );
    assert forall|n: Seq<char>| #[trigger]
        x.find(n) is Some && but != Some(x.find(n)->0.index) implies z.find(n) == x.find(n) by {
        assert(y.find(n) == x.find(n));
    }
    assert forall|n: Seq<char>| #[trigger]
        x.find(n) is Some && x.find(n)->0.is_directory() implies z.find(n) is Some && z.find(
        n,
    )->0.is_directory() && z.find(n)->0.first_cluster == x.find(n)->0.first_cluster by {
        assert(y.find(n) is Some);
    }
    assert forall|d: u32|
        d != directory && #[trigger] a.directories.contains_key(
            d,
        ) implies c.directories.contains_key(d) && c.directories[d] == a.directories[d] by {
        assert(b.directories.contains_key(d));
    }
}

/// A path that was walked leads to where it led.
proof fn lemma_way(start: Volume, after: Volume, path: Seq<char>, directory: u32, but: Option<u32>)
    requires
        start.open(path).1 is Ok,
        start.coherent_at(directory),
        keeps_others(start.open(path).0, after, directory, but),
    ensures
        ({
            let root = start.boot.root_cluster;
            let way = operations::parent_of(path);
            &&& after.resolve(root, way).1 == start.resolve(root, way).1
            &&& after.resolve(root, way).1 == Ok::<u32, Fault>(start.open(path).1->Ok_0.directory)
            &&& after.resolve(root, way).0.looks_like(after)
            &&& after.resolve(root, way).0.coherent_at(directory)
            &&& start.open(path).0.coherent_at(directory)
            &&& start.open(path).0.looks_like(start)
        }),
{
    let root = start.boot.root_cluster;
    let way = operations::parent_of(path);
    let (before, result) = start.open(path);
    let file = result->Ok_0;
    let (resolved, leads) = start.resolve(root, way);
    assert(leads == Ok::<u32, Fault>(file.directory) && before == resolved.read_dir(
        file.directory,
    ).0) by {
        reveal(Volume::open);
        reveal(Volume::look_up);
    }
    creation::lemma_resolve_coherent(start, root, way, directory);
    creation::lemma_read_coherent(resolved, file.directory, directory);
    assert(resolved.stored(directory) =~= start.stored(directory));
    assert(before.stored(directory) =~= start.stored(directory));
    laws::lemma_read_dir(after, directory);
    assert(paths::remembers(resolved, after, directory)) by {
        assert forall|d: u32|
            d != directory && #[trigger] resolved.directories.contains_key(
                d,
            ) implies after.directories.contains_key(d) && after.directories[d]
            == resolved.directories[d] by {
            assert(before.directories.contains_key(d) && before.directories[d]
                == resolved.directories[d]) by {
                reveal(Volume::read_dir);
            }
        }
    }
    paths::lemma_resolve_again(start, after, root, way, directory);
    creation::lemma_resolve_coherent(after, root, way, directory);
}

/// The entry that was found is found again, in a listing that still has it
/// where it was.
proof fn lemma_listed_again(
    start: Volume,
    after: Volume,
    path: Seq<char>,
    directory: u32,
    but: Option<u32>,
)
    requires
        start.open(path).1 is Ok,
        start.coherent_at(directory),
        keeps_others(start.open(path).0, after, directory, but),
        start.open(path).0.check_live(start.open(path).1->Ok_0).1 is Ok,
        start.open(path).1->Ok_0.directory == directory ==> but != Some(
            start.open(path).1->Ok_0.index,
        ),
    ensures
        ({
            let file = start.open(path).1->Ok_0;
            let entry = start.look_up(path).1->Ok_0.1;
            let (opened, found) = after.resolve(
                start.boot.root_cluster,
                operations::parent_of(path),
            ).0.read_dir(file.directory);
            &&& found is Ok
            &&& found->Ok_0.find(operations::name_of(path)) == Some(entry)
            &&& opened.still_there(found->Ok_0, file)
            &&& opened.read_dir(file.directory).1 == found
            &&& opened.looks_like(after)
        }),
{
    let root = start.boot.root_cluster;
    let way = operations::parent_of(path);
    let name = operations::name_of(path);
    let (before, result) = start.open(path);
    let file = result->Ok_0;
    lemma_way(start, after, path, directory, but);
    let resolved = start.resolve(root, way).0;
    let walked = after.resolve(root, way).0;
    let listing = resolved.read_dir(file.directory).1->Ok_0;
    let entry = start.look_up(path).1->Ok_0.1;
    assert(listing.find(name) == Some(entry) && entry.index == file.index && entry.short
        == file.short && before == resolved.read_dir(file.directory).0 && resolved.read_dir(
        file.directory,
    ).1 is Ok) by {
        reveal(Volume::open);
        reveal(Volume::look_up);
    }
    assert(before.directories.contains_key(file.directory)
        && before.directories[file.directory] == listing) by {
        reveal(Volume::read_dir);
    }
    crate::volume::lemma_read_dir_looks(walked, file.directory);
    let (opened, found) = walked.read_dir(file.directory);
    if file.directory == directory {
        laws::lemma_read_dir(walked, directory);
        assert(walked.stored(directory) =~= after.stored(directory));
        let has = after.stored_listing(directory)->Ok_0;
        assert(before.stored_listing(directory)->Ok_0 == listing);
        assert(has.find(name) == Some(entry));
        dir::lemma_listing_wf(after.stored(directory), after.codepage);
        lemma_entry_in_slot(has, name);
    } else {
        assert(after.directories.contains_key(file.directory));
        paths::lemma_resolve_holds(after, root, way, file.directory);
        reveal(Volume::read_dir);
        assert(before.still_there(listing, file)) by {
            reveal(Volume::check_live);
        }
    }
    assert(opened.read_dir(file.directory).1 == found) by {
        reveal(Volume::read_dir);
    }
}

/// An entry that is found is the one in its slot.
proof fn lemma_entry_in_slot(listing: dir::Listing, name: Seq<char>)
    requires
        listing.wf(),
        listing.find(name) is Some,
    ensures
        listing.entry_at(listing.find(name)->0.index) == listing.find(name),
{
    dir::lemma_found(listing, name);
    let a = choose|a: int|
        0 <= a < listing.entries.len() && listing.find(name) == Some(#[trigger] listing.entries[a]);
    let index = listing.entries[a].index;
    assert(listing.entries[a].index == index);
    let at = choose|at: int| 0 <= at < listing.entries.len() && listing.entries[at].index == index;
    assert(at == a) by {
        if at < a {
            assert(listing.entries[at].index < listing.entries[a].index);
        } else if a < at {
            assert(listing.entries[a].index < listing.entries[at].index);
        }
    }
}

/// A file that was opened and read, and that a change in some directory is not
/// about, is found again by its path, and reads as it did.
pub proof fn lemma_reopened(
    start: Volume,
    after: Volume,
    path: Seq<char>,
    directory: u32,
    but: Option<u32>,
)
    requires
        start.open(path).1 is Ok,
        start.coherent_at(directory),
        ({
            let (before, result) = start.open(path);
            let file = result->Ok_0;
            &&& keeps_others(before, after, directory, but)
            &&& before.read_whole(file).1 is Ok
            &&& file.directory == directory ==> but != Some(file.index)
            &&& file.size > 0 ==> laws::untouched(before, after, file.first_cluster)
        }),
    ensures
        ({
            let (before, result) = start.open(path);
            let file = result->Ok_0;
            let (opened, again) = after.open(path);
            &&& again == Ok::<FileView, Fault>(
                FileView { deletions: after.deletions_of(file.directory), ..file },
            )
            &&& opened.read_whole(again->Ok_0).1 == before.read_whole(file).1
        }),
{
    let (before, result) = start.open(path);
    let file = result->Ok_0;
    lemma_way(start, after, path, directory, but);
    lemma_listed_again(start, after, path, directory, but);
    let (opened, again) = after.open(path);
    assert(again == Ok::<FileView, Fault>(
        FileView { deletions: after.deletions_of(file.directory), ..file },
    ) && opened == after.resolve(
        start.boot.root_cluster,
        operations::parent_of(path),
    ).0.read_dir(file.directory).0) by {
        reveal(Volume::open);
        reveal(Volume::look_up);
    }
    assert(opened.check_live(again->Ok_0).1 is Ok) by {
        reveal(Volume::check_live);
    }
    if file.size > 0 {
        let clusters = before.table.chain(file.first_cluster)->Ok_0;
        assert(opened.chain_bytes(clusters) =~= after.chain_bytes(clusters));
    }
}

/// Opening a file forgets no directory that is held.
proof fn lemma_open_holds(volume: Volume, path: Seq<char>, d: u32)
    requires
        volume.open(path).1 is Ok,
        volume.directories.contains_key(d),
    ensures
        volume.open(path).0.directories.contains_key(d),
        volume.open(path).0.directories[d] == volume.directories[d],
{
    reveal(Volume::open);
    reveal(Volume::look_up);
    paths::lemma_resolve_holds(volume, volume.boot.root_cluster, operations::parent_of(path), d);
    reveal(Volume::read_dir);
}

/// Removing a file leaves what its directory has by any name but its own.
proof fn lemma_removed_keeps(volume: Volume, after: Volume, path: Seq<char>)
    requires
        removal::removed(volume, after, path),
        volume.open(path).1 is Ok,
        ({
            let file = volume.open(path).1->Ok_0;
            &&& volume.coherent_at(file.directory)
            &&& dir::slot_count(volume.stored(file.directory)) <= u32::MAX
            &&& after.table.chain(file.directory) is Ok
        }),
    ensures
        ({
            let file = volume.open(path).1->Ok_0;
            keeps_others(volume, after, file.directory, Some(file.index))
        }),
{
    reveal(removal::removed);
    removal::lemma_opened(volume, path);
    let (opened, result) = volume.open(path);
    let file = result->Ok_0;
    let directory = file.directory;
    let entry = volume.look_up(path).1->Ok_0.1;
    let (had, has) = (
        volume.stored_listing(directory)->Ok_0,
        after.stored_listing(directory)->Ok_0,
    );
    let (head, tail) = choose|head: Seq<EntryView>, tail: Seq<EntryView>|
        had.entries == #[trigger] (head.push(entry) + tail) && has.entries == head + tail;
    assert forall|n: Seq<char>| #[trigger]
        had.find(n) is Some && Some(file.index) != Some(had.find(n)->0.index) implies has.find(n)
        == had.find(n) by {
        listing::lemma_find_deleted(had, has, head, tail, entry, n);
    }
    assert(paths::leads_alike(had, has)) by {
        assert forall|n: Seq<char>| #[trigger]
            had.find(n) is Some && had.find(n)->0.is_directory() implies has.find(n) is Some
            && has.find(n)->0.is_directory() && has.find(n)->0.first_cluster == had.find(
            n,
        )->0.first_cluster by {
            listing::lemma_find_deleted(had, has, head, tail, entry, n);
        }
    }
    assert forall|d: u32|
        d != directory && #[trigger] volume.directories.contains_key(
            d,
        ) implies after.directories.contains_key(d) && after.directories[d]
        == volume.directories[d] by {
        lemma_open_holds(volume, path, d);
    }
    assert(after.stored(directory).len() == volume.stored(directory).len());
}

/// Creating a file, and writing what goes in it, leaves what its directory has
/// by any name.
proof fn lemma_created_keeps(
    clear: Volume,
    made: Volume,
    after: Volume,
    path: Seq<char>,
    size: u32,
    empty: FileView,
    file: FileView,
    stored: crate::name::StoredView,
    data: Seq<u8>,
    now: DateTime,
    written: DateTime,
)
    requires
        creation::created(clear, made, path, size, empty, stored, now),
        after.holds(file),
        empty.directory == file.directory,
        data.len() == 0 ==> after == made && file == empty,
        data.len() > 0 ==> laws::wrote_down(made, after, empty, file, 0, data, written),
        replacing::goes_by(
            after.stored_listing(file.directory)->Ok_0.entry_at(file.index)->0,
            stored,
            operations::name_of(path),
        ),
    ensures
        keeps_others(clear, after, file.directory, None),
{
    let directory = file.directory;
    replacing::lemma_still_found(
        clear,
        made,
        after,
        path,
        size,
        empty,
        file,
        stored,
        data,
        now,
        written,
    );
    reveal(creation::created);
    assert forall|d: u32|
        d != directory && #[trigger] clear.directories.contains_key(
            d,
        ) implies after.directories.contains_key(d) && after.directories[d]
        == clear.directories[d] by {
        paths::lemma_resolve_holds(
            clear,
            clear.boot.root_cluster,
            operations::parent_of(path),
            d,
        );
        assert(made.directories.remove(directory).contains_key(d));
        assert(after.directories.remove(directory) == made.directories.remove(directory));
        assert(after.directories.remove(directory).contains_key(d));
        assert(after.directories.remove(directory)[d] == made.directories.remove(directory)[d]);
    }
}

/// A chain that a file that is written whole has nothing to do with: apart
/// from its directory's, and from that of the file it takes the place of.
pub open spec fn uninvolved(volume: Volume, path: Seq<char>, found: bool, start: u32) -> bool {
    &&& volume.table.chain(start) is Ok
    &&& chains::apart(
        volume.table.chain(start)->Ok_0,
        volume.table.chain(replacing::home(volume, path))->Ok_0,
    )
    &&& found ==> laws::bystander(volume, volume.open(path).1->Ok_0, start)
}

/// Writing a file whole leaves what its directory has by any name but that of
/// the file it takes the place of, and every chain that it has nothing to do
/// with.
pub proof fn lemma_write_file_keeps(
    volume: Volume,
    path: Seq<char>,
    data: Seq<u8>,
    found: bool,
    created: DateTime,
    written: DateTime,
)
    requires
        volume.laid_out(),
        volume.fits(),
        volume.coherent_at(replacing::home(volume, path)),
        creation::numbered(
            volume,
            replacing::home(volume, path),
            fs::MAX_DIRECTORY_GROWTH as int,
        ),
        volume.replace_file(path, data, found, created, written).1 is Ok,
        named_well(volume, path, data, found, created, written),
    ensures
        ({
            let after = volume.replace_file(path, data, found, created, written).0;
            &&& keeps_others(
                volume,
                after,
                replacing::home(volume, path),
                if found {
                    Some(volume.open(path).1->Ok_0.index)
                } else {
                    None
                },
            )
            &&& forall|start: u32| #[trigger]
                uninvolved(volume, path, found, start) ==> laws::untouched(volume, after, start)
        }),
{
    let clear = replacing::made_way(volume, path, found);
    let home = replacing::home(volume, path);
    let (after, result) = volume.replace_file(path, data, found, created, written);
    let file = result->Ok_0;
    let size = (data.len() % 0x1_0000_0000) as u32;
    let (made, made_result) = clear.create(path, size, created);
    let empty = made_result->Ok_0;
    let stored = clear.resolve(
        clear.boot.root_cluster,
        operations::parent_of(path),
    ).0.plan_name(empty.directory, operations::name_of(path)).1->Ok_0;
    replacing::lemma_replaced(volume, path, data, found, created, written);
    lemma_created_keeps(
        clear,
        made,
        after,
        path,
        size,
        empty,
        file,
        stored,
        data,
        created,
        written,
    );
    assert(clear.table.chain(home) is Ok) by {
        reveal(creation::created);
    }
    if found {
        lemma_cleared(volume, path);
        lemma_keeps_twice(
            volume,
            clear,
            after,
            home,
            Some(volume.open(path).1->Ok_0.index),
        );
    }
    assert forall|start: u32| #[trigger] uninvolved(volume, path, found, start) implies laws::untouched(
        volume,
        after,
        start,
    ) by {
        assert(laws::untouched(volume, clear, start) && clear.table.chain(home)
            == volume.table.chain(home)) by {
            if found {
                reveal(removal::removed);
            }
        }
        assert(chains::apart(
            clear.table.chain(start)->Ok_0,
            clear.table.chain(home)->Ok_0,
        ));
        assert(laws::untouched(clear, made, start) && laws::bystander(made, empty, start)) by {
            reveal(creation::created);
        }
    }
}

/// What is left once the file that had the name is removed.
proof fn lemma_cleared(volume: Volume, path: Seq<char>)
    requires
        volume.laid_out(),
        volume.fits(),
        volume.coherent_at(replacing::home(volume, path)),
        creation::numbered(
            volume,
            replacing::home(volume, path),
            fs::MAX_DIRECTORY_GROWTH as int,
        ),
        volume.remove(path).1 is Ok,
        volume.remove(path).0.table.chain(replacing::home(volume, path)) is Ok,
    ensures
        volume.open(path).1 is Ok,
        volume.open(path).1->Ok_0.directory == replacing::home(volume, path),
        removal::removed(volume, volume.remove(path).0, path),
        keeps_others(
            volume,
            volume.remove(path).0,
            replacing::home(volume, path),
            Some(volume.open(path).1->Ok_0.index),
        ),
{
    let home = replacing::home(volume, path);
    assert(volume.open(path).1 is Ok && volume.open(path).1->Ok_0.directory == home) by {
        reveal(Volume::open);
        reveal(Volume::look_up);
    }
    removal::lemma_opened(volume, path);
    fs::lemma_chain_size(volume, 0);
    assert(volume.table.chain(home) is Ok);
    laws::lemma_slot_count(volume, home);
    removal::lemma_remove(volume, path);
    lemma_removed_keeps(volume, volume.remove(path).0, path);
}

/// Whether the name of a file that was written whole reads back as it was
/// given.
pub open spec fn named_well(
    volume: Volume,
    path: Seq<char>,
    data: Seq<u8>,
    found: bool,
    created: DateTime,
    written: DateTime,
) -> bool {
    let (after, result) = volume.replace_file(path, data, found, created, written);
    let file = result->Ok_0;
    let clear = replacing::made_way(volume, path, found);
    replacing::goes_by(
        after.stored_listing(file.directory)->Ok_0.entry_at(file.index)->0,
        clear.resolve(
            clear.boot.root_cluster,
            operations::parent_of(path),
        ).0.plan_name(file.directory, operations::name_of(path)).1->Ok_0,
        operations::name_of(path),
    )
}

/// Writing a file whole changes no other: one that was opened and read before
/// is found again by its path, and reads as it did.
///
/// The other file is not the one that is replaced, and shares no cluster with
/// it or with the directory. The written file's name is to read back as it
/// was given: it could otherwise go by the other's.
pub proof fn lemma_write_file_and_reopen(
    start: Volume,
    other: Seq<char>,
    path: Seq<char>,
    data: Seq<u8>,
    found: bool,
    created: DateTime,
    written: DateTime,
)
    requires
        start.laid_out(),
        start.fits(),
        start.open(other).1 is Ok,
        ({
            let (volume, result) = start.open(other);
            let file = result->Ok_0;
            let home = replacing::home(volume, path);
            &&& volume.read_whole(file).1 is Ok
            &&& start.coherent_at(home)
            &&& creation::numbered(volume, home, fs::MAX_DIRECTORY_GROWTH as int)
            &&& volume.replace_file(path, data, found, created, written).1 is Ok
            &&& named_well(volume, path, data, found, created, written)
            &&& file.directory == home && found ==> file.index != volume.open(path).1->Ok_0.index
            &&& file.size > 0 ==> uninvolved(volume, path, found, file.first_cluster)
        }),
    ensures
        ({
            let (volume, result) = start.open(other);
            let file = result->Ok_0;
            let after = volume.replace_file(path, data, found, created, written).0;
            let (opened, again) = after.open(other);
            &&& again == Ok::<FileView, Fault>(
                FileView { deletions: after.deletions_of(file.directory), ..file },
            )
            &&& opened.read_whole(again->Ok_0).1 == volume.read_whole(file).1
        }),
{
    let (volume, result) = start.open(other);
    let home = replacing::home(volume, path);
    operations::lemma_open_looks(start, other);
    lemma_opened_stays_coherent(start, other, home);
    lemma_write_file_keeps(volume, path, data, found, created, written);
    let after = volume.replace_file(path, data, found, created, written).0;
    lemma_reopened(
        start,
        after,
        other,
        home,
        if found {
            Some(volume.open(path).1->Ok_0.index)
        } else {
            None
        },
    );
}

/// Removing a file changes no other: one that was opened and read before is
/// found again by its path, and reads as it did.
///
/// The other file is not the one that is removed, and shares no cluster with
/// it or with the directory; nor does the removed one with its directory.
pub proof fn lemma_remove_and_reopen(start: Volume, other: Seq<char>, path: Seq<char>)
    requires
        start.laid_out(),
        start.fits(),
        start.open(other).1 is Ok,
        ({
            let (volume, result) = start.open(other);
            let file = result->Ok_0;
            let home = replacing::home(volume, path);
            let gone = volume.open(path).1->Ok_0;
            &&& volume.read_whole(file).1 is Ok
            &&& start.coherent_at(home)
            &&& creation::numbered(volume, home, fs::MAX_DIRECTORY_GROWTH as int)
            &&& volume.remove(path).1 is Ok
            &&& laws::unentangled(volume, gone)
            &&& file.directory == home ==> file.index != gone.index
            &&& file.size > 0 ==> laws::bystander(volume, gone, file.first_cluster)
        }),
    ensures
        ({
            let (volume, result) = start.open(other);
            let file = result->Ok_0;
            let after = volume.remove(path).0;
            let (opened, again) = after.open(other);
            &&& again == Ok::<FileView, Fault>(
                FileView { deletions: after.deletions_of(file.directory), ..file },
            )
            &&& opened.read_whole(again->Ok_0).1 == volume.read_whole(file).1
        }),
{
    let (volume, result) = start.open(other);
    let home = replacing::home(volume, path);
    operations::lemma_open_looks(start, other);
    lemma_opened_stays_coherent(start, other, home);
    assert(volume.open(path).1 is Ok && volume.open(path).1->Ok_0.directory == home) by {
        reveal(Volume::open);
        reveal(Volume::look_up);
    }
    removal::lemma_opened(volume, path);
    fs::lemma_chain_size(volume, 0);
    laws::lemma_slot_count(volume, home);
    removal::lemma_remove(volume, path);
    assert(volume.remove(path).0.table.chain(home) is Ok) by {
        reveal(removal::removed);
    }
    lemma_cleared(volume, path);
    assert(result->Ok_0.size > 0 ==> laws::untouched(
        volume,
        volume.remove(path).0,
        result->Ok_0.first_cluster,
    )) by {
        reveal(removal::removed);
    }
    lemma_reopened(
        start,
        volume.remove(path).0,
        other,
        home,
        Some(volume.open(path).1->Ok_0.index),
    );
}

/// Opening a file leaves a directory that is held as it is stored.
proof fn lemma_opened_stays_coherent(volume: Volume, path: Seq<char>, directory: u32)
    requires
        volume.open(path).1 is Ok,
        volume.coherent_at(directory),
    ensures
        volume.open(path).0.coherent_at(directory),
{
    let root = volume.boot.root_cluster;
    let way = operations::parent_of(path);
    reveal(Volume::open);
    reveal(Volume::look_up);
    creation::lemma_resolve_coherent(volume, root, way, directory);
    creation::lemma_read_coherent(
        volume.resolve(root, way).0,
        volume.open(path).1->Ok_0.directory,
        directory,
    );
}

} // verus!
