//! That a file written whole is there: under its path, with its data.
use vstd::prelude::*;

use crate::chains;
use crate::creation;
use crate::dir;
use crate::dir::{EntryView, Listing};
use crate::error::Fault;
use crate::fs;
use crate::laws;
use crate::listing;
use crate::name;
use crate::name::StoredView;
use crate::operations;
use crate::operations::FileView;
use crate::paths;
use crate::removal;
use crate::storage;
use crate::table;
use crate::text;
use crate::time::DateTime;
use crate::volume::Volume;

verus! {

/// Whether an entry that was just made goes by the name that was asked for:
/// by its long name, which every character is part of but the one the format
/// fills up with; or by its 8.3 name, with no piece of another name before
/// it.
pub open spec fn goes_by(entry: EntryView, stored: StoredView, wanted: Seq<char>) -> bool {
    if stored.slots.len() > 0 {
        forall|j: int| 0 <= j < wanted.len() ==> wanted[j] as u32 != 0xFFFF
    } else {
        entry.long_name is None
    }
}

/// An 8.3 name that stands alone shows the name that was asked for.
pub(crate) proof fn lemma_says(volume: Volume, directory: u32, wanted: Seq<char>)
    requires
        volume.plan_name(directory, wanted).1 is Ok,
        volume.plan_name(directory, wanted).1->Ok_0.slots.len() == 0,
    ensures
        volume.plan_name(directory, wanted).1->Ok_0.short.display(volume.codepage) == wanted,
{
    reveal(Volume::plan_name);
    let listing = volume.read_dir(directory).1->Ok_0;
    name::lemma_planned(wanted, volume.codepage, |alias: Seq<char>| listing.find(alias) is Some);
}

/// A new entry is found by its name, and leads no path astray.
pub(crate) proof fn lemma_listed_found(
    before: Listing,
    after: Listing,
    entry: EntryView,
    alias: Seq<char>,
    wanted: Seq<char>,
)
    requires
        creation::lists_also(before, after, entry),
        before.find(wanted) is None,
        entry.short_display == alias,
        before.find(alias) is None,
        entry.long_name is Some ==> entry.long_name == Some(wanted),
        entry.long_name is None ==> text::uppercase(alias) == text::uppercase(wanted),
    ensures
        after.find(wanted) == Some(entry),
        paths::leads_alike(before, after),
        paths::finds_alike(before, after, None),
{
    let k = choose|k: int|
        0 <= k <= before.entries.len() && after.entries == #[trigger] before.entries.insert(
            k,
            entry,
        );
    let head = before.entries.take(k);
    let tail = before.entries.skip(k);
    assert(before.entries =~= head + tail);
    assert(after.entries =~= head.push(entry) + tail);
    listing::lemma_find_inserted(before, after, head, tail, entry, wanted);
    assert forall|n: Seq<char>| #[trigger] before.find(n) is Some implies after.find(n)
        == before.find(n) by {
        let key = text::uppercase(n);
        if listing::goes_by_long(entry, key) {
            listing::lemma_any_case(before, n, wanted);
        }
        if listing::goes_by_short(entry, key) {
            listing::lemma_any_case(before, n, alias);
        }
        listing::lemma_find_inserted(before, after, head, tail, entry, n);
    }
}

/// The entry a file was created with is found by its name, and leads no path
/// astray.
proof fn lemma_created_found(
    before: Volume,
    after: Volume,
    path: Seq<char>,
    size: u32,
    file: FileView,
    stored: StoredView,
    now: DateTime,
)
    requires
        creation::created(before, after, path, size, file, stored, now),
        goes_by(
            dir::entry_of(after.stored(file.directory), file.index as int, before.codepage),
            stored,
            operations::name_of(path),
        ),
    ensures
        after.stored_listing(file.directory)->Ok_0.find(operations::name_of(path)) == Some(
            dir::entry_of(after.stored(file.directory), file.index as int, before.codepage),
        ),
        paths::leads_alike(
            before.stored_listing(file.directory)->Ok_0,
            after.stored_listing(file.directory)->Ok_0,
        ),
        paths::finds_alike(
            before.stored_listing(file.directory)->Ok_0,
            after.stored_listing(file.directory)->Ok_0,
            None,
        ),
{
    reveal(creation::created);
    let wanted = operations::name_of(path);
    let alias = stored.short.display(before.codepage);
    let entry = dir::entry_of(after.stored(file.directory), file.index as int, before.codepage);
    let listed = before.stored_listing(file.directory)->Ok_0;
    if stored.slots.len() == 0 {
        let root = before.boot.root_cluster;
        let parent = operations::parent_of(path);
        crate::volume::lemma_resolve_looks(before, root, parent);
        lemma_says(before.resolve(root, parent).0, file.directory, wanted);
    }
    lemma_listed_found(
        listed,
        after.stored_listing(file.directory)->Ok_0,
        entry,
        alias,
        wanted,
    );
}

/// The directory a path's last part is in.
pub open spec fn home(volume: Volume, path: Seq<char>) -> u32 {
    volume.resolve(volume.boot.root_cluster, operations::parent_of(path)).1->Ok_0
}

/// The volume once whatever file has the name is out of the way.
pub open spec fn made_way(volume: Volume, path: Seq<char>, found: bool) -> Volume {
    if found {
        volume.remove(path).0
    } else {
        volume
    }
}

/// A listing without one file leads to the same directories.
proof fn lemma_less_leads_alike(
    before: Listing,
    after: Listing,
    head: Seq<EntryView>,
    tail: Seq<EntryView>,
    entry: EntryView,
)
    requires
        before.entries == head.push(entry) + tail,
        after.entries == head + tail,
        !entry.is_directory(),
    ensures
        paths::leads_alike(before, after),
{
    assert forall|n: Seq<char>| #[trigger]
        before.find(n) is Some && before.find(n)->0.is_directory() implies after.find(n) is Some
        && after.find(n)->0.is_directory() && after.find(n)->0.first_cluster == before.find(
        n,
    )->0.first_cluster by {
        listing::lemma_find_deleted(before, after, head, tail, entry, n);
    }
}

/// A path leads to the same directory after a file in that directory is
/// removed.
proof fn lemma_home_after_removal(volume: Volume, path: Seq<char>)
    requires
        volume.laid_out(),
        volume.fits(),
        volume.remove(path).1 is Ok,
        volume.coherent_at(home(volume, path)),
        dir::slot_count(volume.stored(home(volume, path))) <= u32::MAX,
    ensures
        ({
            let (_, leads) = volume.remove(path).0.resolve(
                volume.boot.root_cluster,
                operations::parent_of(path),
            );
            &&& leads is Ok ==> home(volume.remove(path).0, path) == home(volume, path)
            &&& volume.remove(path).0.read_dir(home(volume, path)).1 is Ok ==> leads is Ok
        }),
        volume.resolve(volume.boot.root_cluster, operations::parent_of(path)).1 is Ok,
        removal::removed(volume, volume.remove(path).0, path),
        volume.open(path).1->Ok_0.directory == home(volume, path),
{
    let root = volume.boot.root_cluster;
    let parent = operations::parent_of(path);
    let directory = home(volume, path);
    let after = volume.remove(path).0;
    let (resolved, leads) = volume.resolve(root, parent);
    assert(volume.open(path).1 is Ok && volume.open(path).1->Ok_0.directory == directory && leads
        is Ok) by {
        reveal(Volume::open);
        reveal(Volume::look_up);
    }
    removal::lemma_opened(volume, path);
    removal::lemma_remove(volume, path);
    creation::lemma_resolve_coherent(volume, root, parent, directory);
    assert(resolved.stored(directory) =~= volume.stored(directory));
    assert(paths::remembers(resolved, after, directory)) by {
        reveal(removal::removed);
        assert forall|d: u32|
            d != directory && #[trigger] resolved.directories.contains_key(
                d,
            ) implies after.directories.contains_key(d) && after.directories[d]
            == resolved.directories[d] by {
            reveal(Volume::read_dir);
        }
        if resolved.directories.contains_key(directory) && after.read_dir(directory).1 is Ok {
            laws::lemma_read_dir(after, directory);
            let old_listing = volume.stored_listing(directory)->Ok_0;
            let new_listing = after.stored_listing(directory)->Ok_0;
            let entry = volume.look_up(path).1->Ok_0.1;
            let (head, tail) = choose|head: Seq<EntryView>, tail: Seq<EntryView>|
                old_listing.entries == #[trigger] (head.push(entry) + tail) && new_listing.entries
                    == head + tail;
            lemma_less_leads_alike(old_listing, new_listing, head, tail, entry);
        }
    }
    paths::lemma_resolve_again(volume, after, root, parent, directory);
    assert(after.boot == volume.boot) by {
        reveal(removal::removed);
    }
}

/// Once the way is clear, the directory is as it is stored, and has no more
/// slots than it had.
pub(crate) proof fn lemma_made_way(
    volume: Volume,
    path: Seq<char>,
    found: bool,
    size: u32,
    now: DateTime,
)
    requires
        volume.laid_out(),
        volume.fits(),
        volume.coherent_at(home(volume, path)),
        creation::numbered(volume, home(volume, path), fs::MAX_DIRECTORY_GROWTH as int),
        volume.resolve(volume.boot.root_cluster, operations::parent_of(path)).1 is Ok,
        found ==> volume.remove(path).1 is Ok,
        made_way(volume, path, found).create(path, size, now).1 is Ok,
    ensures
        ({
            let clear = made_way(volume, path, found);
            let directory = home(volume, path);
            &&& clear.laid_out()
            &&& clear.fits()
            &&& clear.boot == volume.boot
            &&& clear.create(path, size, now).1->Ok_0.directory == directory
            &&& clear.coherent_at(directory)
            &&& creation::numbered(clear, directory, fs::MAX_DIRECTORY_GROWTH as int)
        }),
{
    let clear = made_way(volume, path, found);
    let directory = home(volume, path);
    let root = volume.boot.root_cluster;
    let parent = operations::parent_of(path);
    fs::lemma_chain_size(volume, 0);
    if found {
        assert(clear.boot == volume.boot) by {
            lemma_remove_boot(volume, path);
        }
        assert(volume.table.chain(directory) is Ok) by {
            lemma_open_reads(volume, path);
        }
        laws::lemma_slot_count(volume, directory);
        lemma_home_after_removal(volume, path);
        assert(clear.laid_out() && clear.fits() && clear.coherent_at(directory)
            && creation::numbered(clear, directory, fs::MAX_DIRECTORY_GROWTH as int)) by {
            reveal(removal::removed);
        }
    }
    assert(clear.create(path, size, now).1->Ok_0.directory == home(clear, path)) by {
        reveal(Volume::create_with);
    }
}

/// Opening a file reads its directory's chain, or has it held.
proof fn lemma_open_reads(volume: Volume, path: Seq<char>)
    requires
        volume.open(path).1 is Ok,
        volume.coherent_at(home(volume, path)),
    ensures
        volume.table.chain(home(volume, path)) is Ok,
{
    assert(volume.open(path).1->Ok_0.directory == home(volume, path)) by {
        reveal(Volume::open);
        reveal(Volume::look_up);
    }
    removal::lemma_opened(volume, path);
}

/// Removing a file does not change where the volume is.
proof fn lemma_remove_boot(volume: Volume, path: Seq<char>)
    requires
        volume.laid_out(),
        volume.fits(),
        volume.remove(path).1 is Ok,
        volume.coherent_at(home(volume, path)),
        creation::numbered(volume, home(volume, path), fs::MAX_DIRECTORY_GROWTH as int),
    ensures
        volume.remove(path).0.boot == volume.boot,
{
    lemma_open_reads(volume, path);
    assert(volume.open(path).1->Ok_0.directory == home(volume, path)) by {
        reveal(Volume::open);
        reveal(Volume::look_up);
    }
    laws::lemma_slot_count(volume, home(volume, path));
    fs::lemma_chain_size(volume, 0);
    removal::lemma_remove(volume, path);
    reveal(removal::removed);
}

/// A file that is written whole reads back: the handle that comes back is
/// live, as long as the data, and reading it from the start gives the data.
///
/// The device is to be as long as the volume, and the directory held as it is
/// stored, with slots left to be numbered.
pub proof fn lemma_write_file_reads_back(
    volume: Volume,
    path: Seq<char>,
    data: Seq<u8>,
    found: bool,
    created: DateTime,
    written: DateTime,
)
    requires
        volume.laid_out(),
        volume.fits(),
        volume.coherent_at(home(volume, path)),
        creation::numbered(volume, home(volume, path), fs::MAX_DIRECTORY_GROWTH as int),
        volume.replace_file(path, data, found, created, written).1 is Ok,
    ensures
        ({
            let (after, result) = volume.replace_file(path, data, found, created, written);
            let file = result->Ok_0;
            &&& file.directory == home(volume, path)
            &&& file.size == data.len()
            &&& after.holds(file)
            &&& after.check_live(file).1 is Ok
            &&& after.read_file(file, 0, data.len() as int).1 == Ok::<Seq<u8>, Fault>(data)
        }),
{
    lemma_replaced(volume, path, data, found, created, written);
    let (after, result) = volume.replace_file(path, data, found, created, written);
    laws::lemma_holds_live(after, result->Ok_0);
    if data.len() == 0 {
        assert(data =~= Seq::<u8>::empty());
    }
}

/// The steps of writing a file whole.
pub(crate) proof fn lemma_replaced(
    volume: Volume,
    path: Seq<char>,
    data: Seq<u8>,
    found: bool,
    created: DateTime,
    written: DateTime,
)
    requires
        volume.laid_out(),
        volume.fits(),
        volume.coherent_at(home(volume, path)),
        creation::numbered(volume, home(volume, path), fs::MAX_DIRECTORY_GROWTH as int),
        volume.replace_file(path, data, found, created, written).1 is Ok,
    ensures
        ({
            let clear = made_way(volume, path, found);
            let (after, result) = volume.replace_file(path, data, found, created, written);
            let file = result->Ok_0;
            let size = (data.len() % 0x1_0000_0000) as u32;
            let (made, made_result) = clear.create(path, size, created);
            let empty = made_result->Ok_0;
            let stored = clear.resolve(
                clear.boot.root_cluster,
                operations::parent_of(path),
            ).0.plan_name(empty.directory, operations::name_of(path)).1->Ok_0;
            &&& clear.laid_out()
            &&& clear.fits()
            &&& clear.boot == volume.boot
            &&& clear.coherent_at(home(volume, path))
            &&& clear.resolve(clear.boot.root_cluster, operations::parent_of(path)).1 == Ok::<
                u32,
                Fault,
            >(home(volume, path))
            &&& empty.directory == home(volume, path)
            &&& file.directory == empty.directory
            &&& file.size == data.len()
            &&& creation::created(clear, made, path, size, empty, stored, created)
            &&& after.laid_out()
            &&& after.fits()
            &&& after.holds(file)
            &&& data.len() == 0 ==> after == made && file == empty
            &&& data.len() > 0 ==> laws::wrote_down(made, after, empty, file, 0, data, written)
        }),
{
    let clear = made_way(volume, path, found);
    let size = (data.len() % 0x1_0000_0000) as u32;
    let (made, made_result) = clear.create(path, size, created);
    let empty = made_result->Ok_0;
    let (after, file, wrote) = made.write_file_at(empty, 0, data, written);
    assert(volume.resolve(volume.boot.root_cluster, operations::parent_of(path)).1 is Ok) by {
        if found {
            reveal(Volume::open);
            reveal(Volume::look_up);
        }
    }
    assert(found ==> volume.remove(path).1 is Ok);
    assert(made_result is Ok);
    lemma_made_way(volume, path, found, size, created);
    creation::lemma_create(clear, path, size, created);
    let stored = clear.resolve(
        clear.boot.root_cluster,
        operations::parent_of(path),
    ).0.plan_name(empty.directory, operations::name_of(path)).1->Ok_0;
    assert(empty.size == 0 && made.laid_out() && made.fits() && made.holds(empty)
        && laws::unentangled(made, empty)) by {
        reveal(creation::created);
    }
    assert(clear.resolve(clear.boot.root_cluster, operations::parent_of(path)).1 == Ok::<
        u32,
        Fault,
    >(home(volume, path))) by {
        reveal(creation::created);
    }
    if data.len() > 0 {
        laws::lemma_write_reads_back(made, empty, 0, data, written);
    }
}

/// Listings that lead alike still do when an entry that is no directory is
/// refreshed.
proof fn lemma_leads_after_refresh(a: Listing, b: Listing, c: Listing, index: u32)
    requires
        paths::leads_alike(a, b),
        laws::refreshed(b, c, index),
        forall|j: int|
            0 <= j < b.entries.len() && (#[trigger] b.entries[j]).index == index
                ==> !b.entries[j].is_directory(),
    ensures
        paths::leads_alike(a, c),
{
    reveal(laws::refreshed);
    assert forall|n: Seq<char>| #[trigger]
        a.find(n) is Some && a.find(n)->0.is_directory() implies c.find(n) is Some && c.find(
        n,
    )->0.is_directory() && c.find(n)->0.first_cluster == a.find(n)->0.first_cluster by {
        assert forall|j: int| 0 <= j < b.entries.len() implies (#[trigger] b.entries[j]).long_name
            == c.entries[j].long_name && b.entries[j].short_display == c.entries[j].short_display by {}
        listing::lemma_find_same_names(b, c, n);
        let j = choose|j: int|
            0 <= j < b.entries.len() && b.find(n) == Some(#[trigger] b.entries[j]) && c.find(n)
                == Some(c.entries[j]);
        assert(c.entries[j].attributes == b.entries[j].attributes);
    }
}

/// A refreshed entry is found by the name it was found by.
proof fn lemma_found_after_refresh(b: Listing, c: Listing, index: u32, wanted: Seq<char>)
    requires
        laws::refreshed(b, c, index),
        b.find(wanted) is Some,
        c.wf(),
    ensures
        c.find(wanted) is Some,
        ({
            let (old_entry, new_entry) = (b.find(wanted)->0, c.find(wanted)->0);
            &&& new_entry == (EntryView {
                first_cluster: new_entry.first_cluster,
                size: new_entry.size,
                modified: new_entry.modified,
                ..old_entry
            })
            &&& c.entry_at(new_entry.index) == Some(new_entry)
        }),
{
    reveal(laws::refreshed);
    assert forall|j: int| 0 <= j < b.entries.len() implies (#[trigger] b.entries[j]).long_name
        == c.entries[j].long_name && b.entries[j].short_display == c.entries[j].short_display by {}
    listing::lemma_find_same_names(b, c, wanted);
    let j = choose|j: int|
        0 <= j < b.entries.len() && b.find(wanted) == Some(#[trigger] b.entries[j]) && c.find(wanted)
            == Some(c.entries[j]);
    let index = c.entries[j].index;
    assert(c.entries[j].index == index);
    let at = choose|at: int| 0 <= at < c.entries.len() && c.entries[at].index == index;
    assert(at == j) by {
        if at < j {
            assert(c.entries[at].index < c.entries[j].index);
        } else if j < at {
            assert(c.entries[j].index < c.entries[at].index);
        }
    }
}

/// The entry a file was created with, after its data is there: in its slot,
/// found by its name, and leading no path astray.
pub(crate) proof fn lemma_still_found(
    clear: Volume,
    made: Volume,
    after: Volume,
    path: Seq<char>,
    size: u32,
    empty: FileView,
    file: FileView,
    stored: StoredView,
    data: Seq<u8>,
    now: DateTime,
    written: DateTime,
)
    requires
        creation::created(clear, made, path, size, empty, stored, now),
        after.holds(file),
        data.len() == 0 ==> after == made && file == empty,
        data.len() > 0 ==> laws::wrote_down(made, after, empty, file, 0, data, written),
        goes_by(
            after.stored_listing(file.directory)->Ok_0.entry_at(file.index)->0,
            stored,
            operations::name_of(path),
        ),
    ensures
        ({
            let listed = after.stored_listing(file.directory)->Ok_0;
            let entry = listed.find(operations::name_of(path))->0;
            &&& listed.find(operations::name_of(path)) is Some
            &&& entry.index == file.index
            &&& entry.short == file.short
            &&& entry.first_cluster == file.first_cluster
            &&& entry.size == file.size
            &&& entry.first_slot <= file.first_slot
            &&& !entry.is_directory()
            &&& paths::leads_alike(clear.stored_listing(file.directory)->Ok_0, listed)
            &&& paths::finds_alike(clear.stored_listing(file.directory)->Ok_0, listed, None)
        }),
{
    reveal(creation::created);
    let directory = file.directory;
    let wanted = operations::name_of(path);
    let (before_data, after_data) = (made.stored(directory), after.stored(directory));
    let (before_listing, after_listing) = (
        made.stored_listing(directory)->Ok_0,
        after.stored_listing(directory)->Ok_0,
    );
    let entry = dir::entry_of(before_data, empty.index as int, clear.codepage);
    dir::lemma_listing_wf(after_data, after.codepage);
    laws::lemma_refreshed(before_listing, before_listing, before_listing, file.index);
    assert(laws::refreshed(before_listing, after_listing, file.index));
    listing::lemma_entry_at(before_data, empty.index, made.codepage);
    listing::lemma_entry_at(after_data, file.index, after.codepage);
    lemma_entry_refreshed(before_data, after_data, made.codepage, file.index);
    lemma_created_found(clear, made, path, size, empty, stored, now);
    lemma_found_after_refresh(before_listing, after_listing, file.index, wanted);
    assert(0x20u8 & 0x10u8 != 0x10u8) by (bit_vector);
    assert forall|j: int|
        0 <= j < before_listing.entries.len() && (#[trigger] before_listing.entries[j]).index
            == file.index implies !before_listing.entries[j].is_directory() by {
        dir::lemma_entries(before_data, dir::slot_count(before_data), made.codepage);
    }
    lemma_leads_after_refresh(
        clear.stored_listing(directory)->Ok_0,
        before_listing,
        after_listing,
        file.index,
    );
    dir::lemma_listing_wf(before_data, made.codepage);
    lemma_finds_after_refresh(
        clear.stored_listing(directory)->Ok_0,
        before_listing,
        after_listing,
        entry,
    );
}

/// What a listing found is found still once a new entry is in it and was
/// refreshed.
proof fn lemma_finds_after_refresh(a: Listing, b: Listing, c: Listing, entry: EntryView)
    requires
        creation::lists_also(a, b, entry),
        b.wf(),
        paths::finds_alike(a, b, None),
        laws::refreshed(b, c, entry.index),
    ensures
        paths::finds_alike(a, c, None),
{
    reveal(laws::refreshed);
    let k = choose|k: int|
        0 <= k <= a.entries.len() && b.entries == #[trigger] a.entries.insert(k, entry);
    assert forall|n: Seq<char>| #[trigger] a.find(n) is Some implies c.find(n) == a.find(n) by {
        assert(b.find(n) == a.find(n));
        assert forall|j: int| 0 <= j < b.entries.len() implies (#[trigger] b.entries[j]).long_name
            == c.entries[j].long_name && b.entries[j].short_display == c.entries[j].short_display by {}
        listing::lemma_find_same_names(b, c, n);
        let j = choose|j: int|
            0 <= j < b.entries.len() && b.find(n) == Some(#[trigger] b.entries[j]) && c.find(n)
                == Some(c.entries[j]);
        dir::lemma_found(a, n);
        let x = choose|x: int|
            0 <= x < a.entries.len() && a.find(n) == Some(#[trigger] a.entries[x]);
        let y = if x < k {
            x
        } else {
            x + 1
        };
        assert(b.entries[y] == a.entries[x]);
        assert(b.entries[k] == entry);
        assert(b.entries[y].index != entry.index) by {
            if y < k {
                assert(b.entries[y].index < b.entries[k].index);
            } else {
                assert(b.entries[k].index < b.entries[y].index);
            }
        }
        assert(c.entries[j] == b.entries[j]);
    }
}

/// Refreshing an entry leaves its long name.
proof fn lemma_entry_refreshed(
    before: Seq<u8>,
    after: Seq<u8>,
    codepage: crate::codepage::Codepage,
    index: u32,
)
    requires
        dir::slot_count(before) <= u32::MAX,
        dir::slot_count(after) <= u32::MAX,
        index < dir::slot_count(before),
        index < dir::slot_count(after),
        dir::listing_of(before, codepage) is Ok,
        dir::listing_of(after, codepage) is Ok,
        dir::is_entry(before, index as int),
        laws::refreshed(
            dir::listing_of(before, codepage)->Ok_0,
            dir::listing_of(after, codepage)->Ok_0,
            index,
        ),
    ensures
        dir::listing_of(after, codepage)->Ok_0.entry_at(index) is Some,
        dir::listing_of(after, codepage)->Ok_0.entry_at(index)->0.long_name == dir::entry_of(
            before,
            index as int,
            codepage,
        ).long_name,
{
    reveal(laws::refreshed);
    let (a, b) = (
        dir::listing_of(before, codepage)->Ok_0,
        dir::listing_of(after, codepage)->Ok_0,
    );
    dir::lemma_entries(before, dir::slot_count(before), codepage);
    dir::lemma_listing_wf(after, codepage);
    let j = choose|j: int| 0 <= j < a.entries.len() && a.entries[j].index == index;
    assert(a.entries[j].index == index);
    assert(b.entries[j].index == index);
    let at = choose|at: int| 0 <= at < b.entries.len() && b.entries[at].index == index;
    assert(at == j) by {
        if at < j {
            assert(b.entries[at].index < b.entries[j].index);
        } else if j < at {
            assert(b.entries[j].index < b.entries[at].index);
        }
    }
}

/// A file that is written whole is found under its path: opening the path
/// gives the handle that writing it gave, and so its data.
///
/// That goes for every name but two kinds. A long name with the character
/// that the format fills up with does not read back. And a name that is
/// stored as an 8.3 name alone is found if the slots right before it hold no
/// piece of another name.
pub proof fn lemma_write_file_is_found(
    volume: Volume,
    path: Seq<char>,
    data: Seq<u8>,
    found: bool,
    created: DateTime,
    written: DateTime,
)
    requires
        volume.laid_out(),
        volume.fits(),
        volume.coherent_at(home(volume, path)),
        creation::numbered(volume, home(volume, path), fs::MAX_DIRECTORY_GROWTH as int),
        volume.replace_file(path, data, found, created, written).1 is Ok,
        ({
            let (after, result) = volume.replace_file(path, data, found, created, written);
            let file = result->Ok_0;
            let clear = made_way(volume, path, found);
            goes_by(
                after.stored_listing(file.directory)->Ok_0.entry_at(file.index)->0,
                clear.resolve(
                    clear.boot.root_cluster,
                    operations::parent_of(path),
                ).0.plan_name(file.directory, operations::name_of(path)).1->Ok_0,
                operations::name_of(path),
            )
        }),
    ensures
        ({
            let (after, result) = volume.replace_file(path, data, found, created, written);
            let file = result->Ok_0;
            let (opened, again) = after.open(path);
            &&& again is Ok
            &&& again->Ok_0 == (FileView { first_slot: again->Ok_0.first_slot, ..file })
            &&& opened.read_file(again->Ok_0, 0, data.len() as int).1 == Ok::<Seq<u8>, Fault>(data)
        }),
{
    let clear = made_way(volume, path, found);
    let (after, result) = volume.replace_file(path, data, found, created, written);
    let file = result->Ok_0;
    let size = (data.len() % 0x1_0000_0000) as u32;
    let (made, made_result) = clear.create(path, size, created);
    let stored = clear.resolve(
        clear.boot.root_cluster,
        operations::parent_of(path),
    ).0.plan_name(file.directory, operations::name_of(path)).1->Ok_0;
    assert(after.laid_out() && after.holds(file) && after.open(path).1 is Ok && after.open(
        path,
    ).1->Ok_0 == (FileView { first_slot: after.open(path).1->Ok_0.first_slot, ..file })) by {
        lemma_replaced(volume, path, data, found, created, written);
        lemma_opens_again(
            clear,
            made,
            after,
            path,
            size,
            made_result->Ok_0,
            file,
            stored,
            data,
            created,
            written,
        );
    }
    assert(after.read_file(file, 0, data.len() as int).1 == Ok::<Seq<u8>, Fault>(data)) by {
        lemma_write_file_reads_back(volume, path, data, found, created, written);
    }
    let (opened, again) = after.open(path);
    lemma_opened_coherent(after, path, file);
    lemma_reads_alike(after, opened, file, again->Ok_0, data.len() as int);
}

/// Opening a file leaves its directory held as it is stored.
proof fn lemma_opened_coherent(volume: Volume, path: Seq<char>, file: FileView)
    requires
        volume.coherent_at(file.directory),
        volume.open(path).1 is Ok,
        volume.open(path).1->Ok_0.directory == file.directory,
    ensures
        volume.open(path).0.looks_like(volume),
        volume.open(path).0.coherent_at(file.directory),
{
    let root = volume.boot.root_cluster;
    let parent = operations::parent_of(path);
    operations::lemma_open_looks(volume, path);
    reveal(Volume::open);
    reveal(Volume::look_up);
    creation::lemma_resolve_coherent(volume, root, parent, file.directory);
    let walked = volume.resolve(root, parent).0;
    creation::lemma_read_coherent(walked, file.directory, file.directory);
}

/// Opening the path of a file that was just written.
proof fn lemma_opens_again(
    clear: Volume,
    made: Volume,
    after: Volume,
    path: Seq<char>,
    size: u32,
    empty: FileView,
    file: FileView,
    stored: StoredView,
    data: Seq<u8>,
    now: DateTime,
    written: DateTime,
)
    requires
        creation::created(clear, made, path, size, empty, stored, now),
        clear.coherent_at(file.directory),
        after.holds(file),
        empty.directory == file.directory,
        data.len() == 0 ==> after == made && file == empty,
        data.len() > 0 ==> laws::wrote_down(made, after, empty, file, 0, data, written),
        goes_by(
            after.stored_listing(file.directory)->Ok_0.entry_at(file.index)->0,
            stored,
            operations::name_of(path),
        ),
    ensures
        after.open(path).1 is Ok,
        after.open(path).1->Ok_0 == (FileView {
            first_slot: after.open(path).1->Ok_0.first_slot,
            ..file
        }),
{
    lemma_still_found(clear, made, after, path, size, empty, file, stored, data, now, written);
    lemma_path_after(clear, made, after, path, size, empty, file, stored, data, now, written);
    lemma_open_found(after, path, file);
}

/// The path leads to the directory after the file is written, too.
proof fn lemma_path_after(
    clear: Volume,
    made: Volume,
    after: Volume,
    path: Seq<char>,
    size: u32,
    empty: FileView,
    file: FileView,
    stored: StoredView,
    data: Seq<u8>,
    now: DateTime,
    written: DateTime,
)
    requires
        creation::created(clear, made, path, size, empty, stored, now),
        clear.coherent_at(file.directory),
        after.holds(file),
        empty.directory == file.directory,
        data.len() == 0 ==> after == made && file == empty,
        data.len() > 0 ==> laws::wrote_down(made, after, empty, file, 0, data, written),
        paths::leads_alike(
            clear.stored_listing(file.directory)->Ok_0,
            after.stored_listing(file.directory)->Ok_0,
        ),
    ensures
        after.resolve(after.boot.root_cluster, operations::parent_of(path)).1 == Ok::<u32, Fault>(
            file.directory,
        ),
{
    reveal(creation::created);
    let directory = file.directory;
    let root = clear.boot.root_cluster;
    let parent = operations::parent_of(path);
    let resolved = clear.resolve(root, parent).0;
    creation::lemma_resolve_coherent(clear, root, parent, directory);
    assert(resolved.stored(directory) =~= clear.stored(directory));
    laws::lemma_read_dir(after, directory);
    assert(paths::remembers(resolved, after, directory)) by {
        assert forall|d: u32|
            d != directory && #[trigger] resolved.directories.contains_key(
                d,
            ) implies after.directories.contains_key(d) && after.directories[d]
            == resolved.directories[d] by {
            assert(made.directories.remove(directory).contains_key(d));
            assert(after.directories.remove(directory) == made.directories.remove(directory));
            assert(after.directories.remove(directory).contains_key(d));
            assert(after.directories.remove(directory)[d] == made.directories.remove(directory)[d]);
        }
    }
    paths::lemma_resolve_again(clear, after, root, parent, directory);
}

/// Opening a path whose directory lists the file.
proof fn lemma_open_found(volume: Volume, path: Seq<char>, file: FileView)
    requires
        volume.holds(file),
        volume.resolve(volume.boot.root_cluster, operations::parent_of(path)).1 == Ok::<u32, Fault>(
            file.directory,
        ),
        ({
            let listed = volume.stored_listing(file.directory)->Ok_0;
            let entry = listed.find(operations::name_of(path))->0;
            &&& listed.find(operations::name_of(path)) is Some
            &&& entry.index == file.index
            &&& entry.short == file.short
            &&& entry.first_cluster == file.first_cluster
            &&& entry.size == file.size
            &&& !entry.is_directory()
        }),
    ensures
        volume.open(path).1 is Ok,
        volume.open(path).1->Ok_0 == (FileView {
            first_slot: volume.open(path).1->Ok_0.first_slot,
            ..file
        }),
{
    reveal(Volume::open);
    reveal(Volume::look_up);
    let root = volume.boot.root_cluster;
    let parent = operations::parent_of(path);
    let resolved = volume.resolve(root, parent).0;
    creation::lemma_resolve_coherent(volume, root, parent, file.directory);
    laws::lemma_read_dir(resolved, file.directory);
    assert(resolved.stored(file.directory) =~= volume.stored(file.directory));
}

/// Reading through a handle that differs in its first slot alone, after the
/// volume was only looked at, gives the same.
proof fn lemma_reads_alike(
    volume: Volume,
    looked: Volume,
    file: FileView,
    again: FileView,
    length: int,
)
    requires
        volume.laid_out(),
        volume.holds(file),
        again == (FileView { first_slot: again.first_slot, ..file }),
        looked.looks_like(volume),
        looked.coherent_at(file.directory),
    ensures
        looked.read_file(again, 0, length).1 == volume.read_file(file, 0, length).1,
{
    assert(looked.stored(file.directory) =~= volume.stored(file.directory));
    assert(looked.holds(again));
    laws::lemma_holds_live(looked, again);
    laws::lemma_holds_live(volume, file);
    if volume.table.chain(file.first_cluster) is Ok {
        let clusters = volume.table.chain(file.first_cluster)->Ok_0;
        assert(looked.chain_bytes(clusters) =~= volume.chain_bytes(clusters));
    }
}

/// A file that is removed is gone: where no other entry of its directory goes
/// by its name, its path leads nowhere.
///
/// The directory is to be held as it is stored, and apart from the file.
pub proof fn lemma_removed_is_gone(volume: Volume, path: Seq<char>)
    requires
        volume.laid_out(),
        volume.fits(),
        volume.remove(path).1 is Ok,
        volume.coherent_at(home(volume, path)),
        dir::slot_count(volume.stored(home(volume, path))) <= u32::MAX,
        laws::unentangled(volume, volume.open(path).1->Ok_0),
        forall|j: int|
            0 <= j < volume.stored_listing(home(volume, path))->Ok_0.entries.len() ==> {
                let entry = #[trigger] volume.stored_listing(home(volume, path))->Ok_0.entries[j];
                let key = text::uppercase(operations::name_of(path));
                entry.index != volume.open(path).1->Ok_0.index ==> !listing::goes_by_long(
                    entry,
                    key,
                ) && !listing::goes_by_short(entry, key)
            },
    ensures
        volume.remove(path).0.look_up(path).1 == Err::<(u32, EntryView), Fault>(
            Fault::NotFound { name: operations::name_of(path) },
        ),
        volume.remove(path).0.open(path).1 == Err::<FileView, Fault>(
            Fault::NotFound { name: operations::name_of(path) },
        ),
{
    let after = volume.remove(path).0;
    let directory = home(volume, path);
    let name = operations::name_of(path);
    lemma_home_after_removal(volume, path);
    removal::lemma_opened(volume, path);
    let file = volume.open(path).1->Ok_0;
    let entry = volume.look_up(path).1->Ok_0.1;
    dir::lemma_listing_wf(volume.stored(directory), volume.codepage);
    let old_listing = volume.stored_listing(directory)->Ok_0;
    let new_listing = after.stored_listing(directory)->Ok_0;
    assert(file.first_slot <= file.index) by {
        lemma_found_is_listed(old_listing, name);
    }
    lemma_directory_survives(volume, path);
    assert(after.stored_listing(directory) is Ok && !after.directories.contains_key(directory)
        && after.boot == volume.boot && exists|head: Seq<EntryView>, tail: Seq<EntryView>|
        old_listing.entries == #[trigger] (head.push(entry) + tail) && new_listing.entries == head
            + tail) by {
        reveal(removal::removed);
    }
    let (head, tail) = choose|head: Seq<EntryView>, tail: Seq<EntryView>|
        old_listing.entries == #[trigger] (head.push(entry) + tail) && new_listing.entries == head
            + tail;
    lemma_not_listed(old_listing, new_listing, head, tail, entry, name);
    assert(after.read_dir(directory).1 is Ok) by {
        laws::lemma_read_dir(after, directory);
    }
    lemma_leads_nowhere(after, path);
}

/// An entry that is found is one of those listed.
proof fn lemma_found_is_listed(listing: Listing, name: Seq<char>)
    requires
        listing.find(name) is Some,
    ensures
        exists|j: int| 0 <= j < listing.entries.len() && listing.entries[j] == listing.find(name)->0,
{
    let key = text::uppercase(name);
    listing::lemma_last_long_is_last(listing.entries, key);
    listing::lemma_first_short_is_first(listing.entries, key);
    match dir::last_long(listing.entries, key) {
        Some(at) => {
            assert(listing.entries[at] == listing.find(name)->0);
        },
        None => {
            let at = dir::first_short(listing.entries, key)->0;
            assert(listing.entries[at] == listing.find(name)->0);
        },
    }
}

/// Without the one entry that goes by a name, none does.
proof fn lemma_not_listed(
    before: Listing,
    after: Listing,
    head: Seq<EntryView>,
    tail: Seq<EntryView>,
    entry: EntryView,
    name: Seq<char>,
)
    requires
        before.wf(),
        before.entries == head.push(entry) + tail,
        after.entries == head + tail,
        forall|j: int|
            0 <= j < before.entries.len() && (#[trigger] before.entries[j]).index != entry.index
                ==> {
                let key = text::uppercase(name);
                &&& !listing::goes_by_long(before.entries[j], key)
                &&& !listing::goes_by_short(before.entries[j], key)
            },
    ensures
        after.find(name) is None,
{
    let key = text::uppercase(name);
    let entries = after.entries;
    let k = head.len() as int;
    assert(before.entries[k] == entry);
    assert forall|j: int| 0 <= j < entries.len() implies !listing::goes_by_long(
        #[trigger] entries[j],
        key,
    ) && !listing::goes_by_short(entries[j], key) by {
        let from = if j < k {
            j
        } else {
            j + 1
        };
        assert(before.entries[from] == entries[j]);
        assert(before.entries[from].index != before.entries[k].index);
    }
    listing::lemma_last_long_is_last(entries, key);
    listing::lemma_first_short_is_first(entries, key);
}

/// A path whose directory is there and lists no such name leads nowhere.
proof fn lemma_leads_nowhere(volume: Volume, path: Seq<char>)
    requires
        volume.resolve(volume.boot.root_cluster, operations::parent_of(path)).1 is Ok,
        volume.coherent_at(home(volume, path)),
        volume.stored_listing(home(volume, path)) is Ok,
        volume.stored_listing(home(volume, path))->Ok_0.find(operations::name_of(path)) is None,
    ensures
        volume.look_up(path).1 == Err::<(u32, EntryView), Fault>(
            Fault::NotFound { name: operations::name_of(path) },
        ),
        volume.open(path).1 == Err::<FileView, Fault>(
            Fault::NotFound { name: operations::name_of(path) },
        ),
{
    let root = volume.boot.root_cluster;
    let parent = operations::parent_of(path);
    let directory = home(volume, path);
    creation::lemma_resolve_coherent(volume, root, parent, directory);
    let resolved = volume.resolve(root, parent).0;
    assert(resolved.stored(directory) =~= volume.stored(directory));
    laws::lemma_read_dir(resolved, directory);
    reveal(Volume::look_up);
    reveal(Volume::open);
}

/// Removing a file that is apart from its directory leaves the directory's
/// chain.
proof fn lemma_directory_survives(volume: Volume, path: Seq<char>)
    requires
        volume.laid_out(),
        volume.fits(),
        volume.remove(path).1 is Ok,
        volume.open(path).1->Ok_0.first_slot <= volume.open(path).1->Ok_0.index,
        volume.table.chain(volume.open(path).1->Ok_0.directory) is Ok,
        laws::unentangled(volume, volume.open(path).1->Ok_0),
    ensures
        volume.remove(path).0.table.chain(volume.open(path).1->Ok_0.directory) is Ok,
{
    operations::lemma_open_looks(volume, path);
    let (opened, result) = volume.open(path);
    let file = result->Ok_0;
    let counted = opened.counted(file.directory);
    let deleted = opened.delete_slots(file.directory, file.first_slot, file.index).0;
    storage::lemma_delete_down(counted, file.directory, file.first_slot, file.index);
    if file.first_cluster != 0 {
        reveal(Volume::free_chain);
        let clusters = deleted.table.chain(file.first_cluster)->Ok_0;
        table::lemma_chain(deleted.table, file.first_cluster);
        chains::lemma_released(deleted.table, clusters);
        chains::lemma_freed(deleted.table, file.first_cluster, file.directory);
        let held = Volume { table: deleted.table.freed(file.first_cluster).0, ..deleted };
        storage::lemma_flush(held);
        laws::lemma_flushed_chains(held.table);
    }
}

} // verus!
