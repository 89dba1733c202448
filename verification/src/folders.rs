//! What a new directory is: listed by the one it is created in, and holding
//! nothing but itself and its parent.
use vstd::prelude::*;

use crate::chains;
use crate::codepage::Codepage;
use crate::creation;
use crate::dir;
use crate::dir::EntryView;
use crate::error::{FatError, Fault};
use crate::fs;
use crate::laws;
use crate::name::StoredView;
use crate::operations;
use crate::paths;
use crate::replacing;
use crate::storage;
use crate::time::DateTime;
use crate::volume::Volume;

verus! {

/// Whether an entry that was written at `now` names a directory by one of its
/// own two names.
pub open spec fn names_a_directory(
    entry: EntryView,
    name: dir::ShortView,
    cluster: u32,
    now: DateTime,
) -> bool {
    &&& entry.short == name
    &&& entry.long_name is None
    &&& entry.is_directory()
    &&& entry.first_cluster == cluster
    &&& entry.size == 0
    &&& dir::stamped(entry, now)
}

/// Whether a listing is that of a new directory: itself and its parent, where
/// a parent that is the root is cluster 0, and nothing else.
pub open spec fn lists_itself(
    listing: dir::Listing,
    volume: Volume,
    cluster: u32,
    parent: u32,
    now: DateTime,
) -> bool {
    &&& listing.entries.len() == 2
    &&& names_a_directory(listing.entries[0], dir::dot_name(), cluster, now)
    &&& names_a_directory(
        listing.entries[1],
        dir::dot_dot_name(),
        if parent == volume.boot.root_cluster {
            0
        } else {
            parent
        },
        now,
    )
}

/// A slot of a new directory past the first two is unused.
proof fn lemma_unused(volume: Volume, cluster: u32, parent: u32, now: DateTime, i: int)
    requires
        volume.laid_out(),
        2 <= i < dir::slot_count(volume.new_directory(cluster, parent, now)),
    ensures
        dir::is_end(volume.new_directory(cluster, parent, now), i),
{
    dir::lemma_entry_round_trip(dir::dot_name(), 0x10, cluster, 0, now);
    dir::lemma_entry_round_trip(
        dir::dot_dot_name(),
        0x10,
        if parent == volume.boot.root_cluster {
            0
        } else {
            parent
        },
        0,
        now,
    );
}

/// The slots from the third on add nothing to what the first two list.
proof fn lemma_entries_end(data: Seq<u8>, n: int, codepage: Codepage)
    requires
        2 <= n <= dir::slot_count(data),
        dir::is_entry(data, 0),
        dir::is_entry(data, 1),
        forall|i: int| 2 <= i < dir::slot_count(data) ==> #[trigger] dir::is_end(data, i),
    ensures
        dir::entries_of(data, n, codepage) == seq![
            dir::entry_of(data, 0, codepage),
            dir::entry_of(data, 1, codepage),
        ],
        dir::first_stray(data, n) is None,
    decreases n,
{
    if n > 2 {
        lemma_entries_end(data, n - 1, codepage);
        assert(dir::is_end(data, n - 1));
    } else {
        reveal_with_fuel(dir::entries_of, 3);
        reveal_with_fuel(dir::first_stray, 3);
        assert(!dir::is_end(data, 0));
        assert(!dir::is_stray(data, 0));
        assert(!dir::is_stray(data, 1));
        assert(dir::entries_of(data, 2, codepage) =~= seq![
            dir::entry_of(data, 0, codepage),
            dir::entry_of(data, 1, codepage),
        ]);
    }
}

/// What two entries for a directory and its parent list.
proof fn lemma_two_entries(
    data: Seq<u8>,
    cluster: u32,
    up: u32,
    now: DateTime,
    codepage: Codepage,
)
    requires
        2 <= dir::slot_count(data),
        dir::slot(data, 0) == dir::entry_bytes(dir::dot_name(), 0x10, cluster, 0, now),
        dir::slot(data, 1) == dir::entry_bytes(dir::dot_dot_name(), 0x10, up, 0, now),
        forall|i: int| 2 <= i < dir::slot_count(data) ==> #[trigger] dir::is_end(data, i),
    ensures
        ({
            let listing = dir::listing_of(data, codepage)->Ok_0;
            &&& dir::listing_of(data, codepage) is Ok
            &&& listing.entries.len() == 2
            &&& names_a_directory(listing.entries[0], dir::dot_name(), cluster, now)
            &&& names_a_directory(listing.entries[1], dir::dot_dot_name(), up, now)
            &&& listing.entries[0].short_display == dir::dot_name().display(codepage)
            &&& listing.entries[1].short_display == dir::dot_dot_name().display(codepage)
        }),
{
    dir::lemma_entry_round_trip(dir::dot_name(), 0x10, cluster, 0, now);
    dir::lemma_entry_round_trip(dir::dot_dot_name(), 0x10, up, 0, now);
    assert(dir::dot_name().raw[0] == 0x2E);
    assert(dir::dot_dot_name().raw[0] == 0x2E);
    assert(dir::slot(data, 0)[0] == 0x2E && dir::slot(data, 1)[0] == 0x2E);
    assert(0x10u8 & 0x08 != 0x08 && 0x10u8 & 0x10 == 0x10) by (bit_vector);
    lemma_entries_end(data, dir::slot_count(data), codepage);
    assert(dir::long_name_of(data, 0) is None);
    assert(dir::long_name_of(data, 1) is None) by {
        let sum = dir::checksum_of(dir::slot(data, 1).subrange(0, 11));
        assert(!dir::is_long(data, 0));
        assert forall|s: int| !dir::names(data, s, 1, sum) by {
            assert(dir::names(data, s, 1, sum) ==> s == 0);
        }
    }
}

/// A new directory lists itself and its parent, where a parent that is the
/// root is cluster 0. It counts as empty.
pub proof fn lemma_new_directory(
    volume: Volume,
    cluster: u32,
    parent: u32,
    now: DateTime,
    codepage: Codepage,
)
    requires
        volume.laid_out(),
    ensures
        ({
            let data = volume.new_directory(cluster, parent, now);
            let listing = dir::listing_of(data, codepage)->Ok_0;
            &&& dir::listing_of(data, codepage) is Ok
            &&& lists_itself(listing, volume, cluster, parent, now)
            &&& codepage.decodes(0x2E) == Some('.') ==> listing.is_vacant()
        }),
{
    let data = volume.new_directory(cluster, parent, now);
    let up = if parent == volume.boot.root_cluster {
        0
    } else {
        parent
    };
    lemma_size(volume);
    assert(2 <= dir::slot_count(data) && dir::slot(data, 0) == dir::entry_bytes(
        dir::dot_name(),
        0x10,
        cluster,
        0,
        now,
    ) && dir::slot(data, 1) == dir::entry_bytes(dir::dot_dot_name(), 0x10, up, 0, now)) by {
        let dot = dir::entry_bytes(dir::dot_name(), 0x10, cluster, 0, now);
        let dots = dir::entry_bytes(dir::dot_dot_name(), 0x10, up, 0, now);
        dir::lemma_entry_round_trip(dir::dot_name(), 0x10, cluster, 0, now);
        dir::lemma_entry_round_trip(dir::dot_dot_name(), 0x10, up, 0, now);
        assert(data.len() == volume.cluster_bytes());
        assert(dir::slot(data, 0) =~= dot);
        assert(dir::slot(data, 1) =~= dots);
    }
    assert forall|i: int| 2 <= i < dir::slot_count(data) implies #[trigger] dir::is_end(data, i) by {
        lemma_unused(volume, cluster, parent, now, i);
    }
    lemma_two_entries(data, cluster, up, now, codepage);
    let listing = dir::listing_of(data, codepage)->Ok_0;
    if codepage.decodes(0x2E) == Some('.') {
        lemma_dots(codepage);
        assert forall|i: int| 0 <= i < listing.entries.len() implies dir::is_dots(
            (#[trigger] listing.entries[i]).name(),
        ) by {
            assert(i == 0 || i == 1);
        }
    }
}

/// A cluster holds at least sixteen slots.
proof fn lemma_size(volume: Volume)
    requires
        volume.laid_out(),
    ensures
        512 <= volume.cluster_bytes(),
{
    fs::lemma_chain_size(volume, 0);
}

/// A directory's own two names are shown as one dot and as two.
proof fn lemma_dots(codepage: Codepage)
    requires
        codepage.decodes(0x2E) == Some('.'),
    ensures
        dir::dot_name().display(codepage) == seq!['.'],
        dir::dot_dot_name().display(codepage) == seq!['.', '.'],
{
    let one = dir::dot_name().raw.subrange(0, 8);
    let two = dir::dot_dot_name().raw.subrange(0, 8);
    lemma_dot_field(one, 8, 1, codepage);
    lemma_dot_field(two, 8, 2, codepage);
    lemma_dot_field(dir::dot_name().raw.subrange(8, 11), 3, 0, codepage);
    lemma_dot_field(dir::dot_dot_name().raw.subrange(8, 11), 3, 0, codepage);
    assert(dir::dot_name().display(codepage) =~= seq!['.']);
    assert(dir::dot_dot_name().display(codepage) =~= seq!['.', '.']);
}

/// A field of dots and then spaces is shown as the dots.
proof fn lemma_dot_field(field: Seq<u8>, n: int, dots: int, codepage: Codepage)
    requires
        codepage.decodes(0x2E) == Some('.'),
        field.len() == n,
        forall|i: int|
            0 <= i < n ==> #[trigger] field[i] == (if i < dots {
                0x2E
            } else {
                0x20u8
            }),
        0 <= dots,
    ensures
        dir::decoded_field(field, false, codepage) == Seq::new(
            (if n <= dots {
                n
            } else {
                dots
            }) as nat,
            |i: int| '.',
        ),
    decreases n,
{
    if n > 0 {
        lemma_dot_field(field.drop_last(), n - 1, dots, codepage);
    }
    assert(dir::decoded_field(field, false, codepage) =~= Seq::new(
        (if n <= dots {
            n
        } else {
            dots
        }) as nat,
        |i: int| '.',
    ));
}

/// What creating a directory does: the one its path leads to lists it also,
/// as a directory; it has a cluster of its own, which holds itself and its
/// parent; and no other chain is touched.
#[verifier::opaque]
pub open spec fn made_directory(
    before: Volume,
    after: Volume,
    path: Seq<char>,
    parent: u32,
    cluster: u32,
    stored: StoredView,
    entry: EntryView,
    now: DateTime,
) -> bool {
    &&& laws::same_volume(before, after)
    &&& !after.directories.contains_key(parent)
    &&& after.directories == before.resolve(
        before.boot.root_cluster,
        operations::parent_of(path),
    ).0.directories.remove(parent)
    &&& after.stored_listing(parent) is Ok
    &&& creation::storable_form(stored, operations::name_of(path))
    &&& before.stored_listing(parent)->Ok_0.find(operations::name_of(path)) is None
    &&& creation::lists_also(
        before.stored_listing(parent)->Ok_0,
        after.stored_listing(parent)->Ok_0,
        entry,
    )
    &&& creation::just_made(
        entry,
        stored,
        operations::name_of(path),
        0x10,
        cluster,
        (entry.index - stored.slots.len()) as u32,
        now,
        before,
    )
    &&& before.table.is_free(cluster as int)
    &&& after.table.chain(cluster) == Ok::<Seq<u32>, FatError>(seq![cluster])
    &&& after.stored(cluster) == before.new_directory(cluster, parent, now)
    &&& forall|start: u32|
        before.table.chain(start) is Ok && #[trigger] chains::apart(
            before.table.chain(start)->Ok_0,
            before.table.chain(parent)->Ok_0,
        ) ==> laws::untouched(before, after, start)
}

/// Filling a cluster leaves every chain alone that it is not of.
proof fn lemma_filled(roomy: Volume, cluster: u32, data: Seq<u8>, start: u32)
    requires
        roomy.laid_out(),
        roomy.fits(),
        roomy.table.valid(cluster as int),
        data.len() == roomy.cluster_bytes(),
        roomy.table.chain(start) is Ok,
        chains::apart(roomy.table.chain(start)->Ok_0, seq![cluster]),
    ensures
        laws::untouched(
            roomy,
            roomy.wrote(roomy.boot.spec_cluster_sector(cluster as int), data),
            start,
        ),
{
    let sector = roomy.boot.spec_cluster_sector(cluster as int);
    let filled = roomy.wrote(sector, data);
    storage::lemma_wrote(roomy, sector, data);
    fs::lemma_run_in_volume(roomy, cluster as int, 1);
    let one = seq![cluster];
    assert forall|p: int|
        roomy.data_at() <= p < roomy.disk.len() && !roomy.in_clusters(
            one,
            p,
        ) implies #[trigger] filled.disk[p] == roomy.disk[p] by {
        if roomy.at(sector) <= p < roomy.at(sector) + data.len() {
            assert(roomy.in_cluster(one[0], p));
        }
    }
    laws::lemma_untouched(roomy, filled, start, Seq::<u32>::empty(), one);
}

/// A filled cluster holds what it was filled with.
proof fn lemma_filled_with(roomy: Volume, cluster: u32, data: Seq<u8>)
    requires
        roomy.laid_out(),
        roomy.fits(),
        roomy.table.chain(cluster) == Ok::<Seq<u32>, FatError>(seq![cluster]),
        roomy.table.valid(cluster as int),
        data.len() == roomy.cluster_bytes(),
    ensures
        roomy.wrote(roomy.boot.spec_cluster_sector(cluster as int), data).stored(cluster) == data,
{
    let sector = roomy.boot.spec_cluster_sector(cluster as int);
    let filled = roomy.wrote(sector, data);
    let one = seq![cluster];
    storage::lemma_wrote(roomy, sector, data);
    fs::lemma_run_in_volume(roomy, cluster as int, 1);
    fs::lemma_chain_size(roomy, 1);
    assert(1 * roomy.cluster_bytes() == roomy.cluster_bytes()) by (nonlinear_arith);
    assert forall|i: int| 0 <= i < data.len() implies #[trigger] filled.chain_bytes(one)[i]
        == data[i] by {
        storage::lemma_position(roomy, one, i);
        assert(i / roomy.cluster_bytes() == 0);
        assert(filled.position(one, i) == roomy.at(sector) + i);
    }
    assert(filled.stored(cluster) =~= data);
}

/// A directory that is created is there, lists itself and its parent, and
/// nothing else, and counts as empty.
pub proof fn lemma_create_dir(volume: Volume, path: Seq<char>, now: DateTime) -> (entry: EntryView)
    requires
        volume.laid_out(),
        volume.fits(),
        volume.create_dir(path, now).1 is Ok,
        ({
            let parent = volume.resolve(
                volume.boot.root_cluster,
                operations::parent_of(path),
            ).1->Ok_0;
            &&& volume.coherent_at(parent)
            &&& creation::numbered(volume, parent, fs::MAX_DIRECTORY_GROWTH as int)
        }),
    ensures
        ({
            let (resolved, leads) = volume.resolve(
                volume.boot.root_cluster,
                operations::parent_of(path),
            );
            let parent = leads->Ok_0;
            let (after, result) = volume.create_dir(path, now);
            let cluster = result->Ok_0;
            &&& made_directory(
                volume,
                after,
                path,
                parent,
                cluster,
                resolved.plan_name(parent, operations::name_of(path)).1->Ok_0,
                entry,
                now,
            )
            &&& after.stored_listing(cluster) is Ok
            &&& lists_itself(after.stored_listing(cluster)->Ok_0, volume, cluster, parent, now)
            &&& volume.codepage.decodes(0x2E) == Some('.') ==> after.stored_listing(
                cluster,
            )->Ok_0.is_vacant()
        }),
{
    let (resolved, leads) = volume.resolve(volume.boot.root_cluster, operations::parent_of(path));
    let parent = leads->Ok_0;
    let wanted = operations::name_of(path);
    let stored = resolved.plan_name(parent, wanted).1->Ok_0;
    let planned = creation::planned_in(volume, path);
    creation::lemma_planned_in(volume, path);
    let ready = creation::given(planned, 1);
    let added = planned.table.allocated(1).1->Ok_0;
    let cluster = added[0];
    chains::lemma_allocated(planned.table, 1);
    assert(added =~= seq![cluster]);
    creation::lemma_given(planned, 1, parent);
    assert(planned.stored(parent) =~= volume.stored(parent));
    let (after, result) = volume.create_dir(path, now);
    assert((after, result) == ready.create_dir_with(parent, stored, cluster, now));
    reveal(Volume::create_dir_with);
    let count = (stored.slots.len() + 1) as u32;
    let more = fs::MAX_DIRECTORY_GROWTH as int;
    creation::lemma_find_room(ready, parent, count, more);
    let (roomy, room) = ready.find_room(parent, count, more);
    let index = room->Ok_0;
    assert(chains::apart(ready.table.chain(cluster)->Ok_0, ready.table.chain(parent)->Ok_0));
    assert(roomy.laid_out() && roomy.fits() && dir::slot_count(roomy.stored(parent)) <= u32::MAX
        && roomy.table.chain(parent) is Ok && roomy.table.chain(cluster)
        == ready.table.chain(cluster) && chains::apart(
        roomy.table.chain(cluster)->Ok_0,
        roomy.table.chain(parent)->Ok_0,
    ) && roomy.boot == volume.boot && roomy.stored_listing(parent)->Ok_0.entries
        == ready.stored_listing(parent)->Ok_0.entries) by {
        reveal(creation::roomier);
        assert(laws::untouched(ready, roomy, cluster));
    }
    let sector = volume.boot.spec_cluster_sector(cluster as int);
    let data = ready.new_directory(cluster, parent, now);
    fs::lemma_chain_size(volume, 0);
    assert(data == volume.new_directory(cluster, parent, now));
    assert(data.len() == roomy.cluster_bytes());
    let filled = roomy.wrote(sector, data);
    storage::lemma_wrote(roomy, sector, data);
    lemma_filled(roomy, cluster, data, parent);
    lemma_filled_with(roomy, cluster, data);
    creation::lemma_published(filled, parent, stored, wanted, 0x10, cluster, index, now);
    let at = (index + stored.slots.len()) as u32;
    let entry = dir::entry_of(after.stored(parent), at as int, volume.codepage);
    lemma_made_directory(
        volume,
        planned,
        roomy,
        filled,
        after,
        path,
        parent,
        cluster,
        stored,
        index,
        now,
    );
    assert(after.stored(cluster) == data && after.table.chain(cluster) is Ok && after.codepage
        == volume.codepage) by {
        reveal(made_directory);
    }
    lemma_new_directory(volume, cluster, parent, now, volume.codepage);
    entry
}

/// Putting together what creating a directory does.
proof fn lemma_made_directory(
    volume: Volume,
    planned: Volume,
    roomy: Volume,
    filled: Volume,
    after: Volume,
    path: Seq<char>,
    parent: u32,
    cluster: u32,
    stored: StoredView,
    index: u32,
    now: DateTime,
)
    requires
        volume.laid_out(),
        volume.fits(),
        planned.looks_like(volume),
        planned.directories.remove(parent) == volume.resolve(
            volume.boot.root_cluster,
            operations::parent_of(path),
        ).0.directories.remove(parent),
        volume.table.chain(parent) is Ok,
        volume.stored_listing(parent) is Ok,
        volume.stored_listing(parent)->Ok_0.find(operations::name_of(path)) is None,
        creation::storable_form(stored, operations::name_of(path)),
        planned.table.allocated(1).1 is Ok,
        planned.table.allocated(1).1->Ok_0 == seq![cluster],
        creation::roomier(
            creation::given(planned, 1),
            roomy,
            parent,
            fs::MAX_DIRECTORY_GROWTH as int,
        ),
        filled == roomy.wrote(
            volume.boot.spec_cluster_sector(cluster as int),
            volume.new_directory(cluster, parent, now),
        ),
        creation::entered(
            filled,
            after,
            parent,
            stored,
            operations::name_of(path),
            0x10,
            cluster,
            index,
            now,
        ),
    ensures
        made_directory(
            volume,
            after,
            path,
            parent,
            cluster,
            stored,
            dir::entry_of(
                after.stored(parent),
                ((index + stored.slots.len()) as u32) as int,
                volume.codepage,
            ),
            now,
        ),
{
    reveal(made_directory);
    reveal(creation::roomier);
    reveal(creation::entered);
    let ready = creation::given(planned, 1);
    let data = volume.new_directory(cluster, parent, now);
    let sector = volume.boot.spec_cluster_sector(cluster as int);
    chains::lemma_allocated(planned.table, 1);
    creation::lemma_given(planned, 1, parent);
    assert(planned.stored(parent) =~= volume.stored(parent));
    assert(planned.table.is_free(seq![cluster][0] as int));
    fs::lemma_chain_size(volume, 0);
    storage::lemma_wrote(roomy, sector, data);
    assert(ready.table.chain(cluster) == Ok::<Seq<u32>, FatError>(seq![cluster]));
    assert(chains::apart(ready.table.chain(cluster)->Ok_0, ready.table.chain(parent)->Ok_0));
    assert(laws::untouched(ready, roomy, cluster));
    lemma_filled(roomy, cluster, data, parent);
    lemma_filled_with(roomy, cluster, data);
    assert(chains::apart(filled.table.chain(cluster)->Ok_0, filled.table.chain(parent)->Ok_0));
    assert(laws::untouched(filled, after, cluster));
    assert forall|start: u32|
        volume.table.chain(start) is Ok && #[trigger] chains::apart(
            volume.table.chain(start)->Ok_0,
            volume.table.chain(parent)->Ok_0,
        ) implies laws::untouched(volume, after, start) by {
        creation::lemma_given(planned, 1, start);
        assert(planned.stored(start) =~= volume.stored(start));
        assert(chains::apart(ready.table.chain(start)->Ok_0, ready.table.chain(parent)->Ok_0));
        assert(laws::untouched(ready, roomy, start));
        assert(chains::apart(roomy.table.chain(start)->Ok_0, seq![cluster]));
        lemma_filled(roomy, cluster, data, start);
        assert(chains::apart(filled.table.chain(start)->Ok_0, filled.table.chain(parent)->Ok_0));
        assert(laws::untouched(filled, after, start));
    }
}

/// A directory that is created is found by its path: its parent lists one entry
/// more, which its name finds and which leads to the new directory's cluster;
/// and the path opens the directory, which lists itself and its parent.
///
/// As for a file, a long name with the character that the format fills up with
/// does not read back, and a name that is stored as an 8.3 name alone is found
/// if the slots right before it hold no piece of another name.
pub proof fn lemma_created_directory_opens(volume: Volume, path: Seq<char>, now: DateTime)
    requires
        volume.laid_out(),
        volume.fits(),
        volume.coherent(),
        volume.create_dir(path, now).1 is Ok,
        ({
            let (resolved, leads) = volume.resolve(
                volume.boot.root_cluster,
                operations::parent_of(path),
            );
            let parent = leads->Ok_0;
            let wanted = operations::name_of(path);
            &&& creation::numbered(volume, parent, fs::MAX_DIRECTORY_GROWTH as int)
            &&& forall|entry: EntryView| #[trigger]
                creation::lists_also(
                    volume.stored_listing(parent)->Ok_0,
                    volume.create_dir(path, now).0.stored_listing(parent)->Ok_0,
                    entry,
                ) ==> replacing::goes_by(
                    entry,
                    resolved.plan_name(parent, wanted).1->Ok_0,
                    wanted,
                )
        }),
    ensures
        ({
            let parent = volume.resolve(
                volume.boot.root_cluster,
                operations::parent_of(path),
            ).1->Ok_0;
            let (after, result) = volume.create_dir(path, now);
            let cluster = result->Ok_0;
            let before_listing = volume.stored_listing(parent)->Ok_0;
            let after_listing = after.stored_listing(parent)->Ok_0;
            let found = after_listing.find(operations::name_of(path));
            &&& found is Some
            &&& creation::lists_also(before_listing, after_listing, found->0)
            &&& found->0.is_directory()
            &&& found->0.first_cluster == cluster
            &&& found->0.size == 0
            &&& after.open_dir(path).1 == after.stored_listing(cluster)
            &&& after.stored_listing(cluster) is Ok
            &&& lists_itself(after.stored_listing(cluster)->Ok_0, volume, cluster, parent, now)
        }),
{
    let (resolved, leads) = volume.resolve(volume.boot.root_cluster, operations::parent_of(path));
    let parent = leads->Ok_0;
    let (after, result) = volume.create_dir(path, now);
    let cluster = result->Ok_0;
    assert(volume.coherent_at(parent));
    assert(leads is Ok && resolved.plan_name(parent, operations::name_of(path)).1 is Ok);
    creation::lemma_planned_in(volume, path);
    let entry = lemma_create_dir(volume, path, now);
    assert(creation::lists_also(
        volume.stored_listing(parent)->Ok_0,
        after.stored_listing(parent)->Ok_0,
        entry,
    )) by {
        reveal(made_directory);
    }
    lemma_opens_from(volume, after, path, parent, cluster, entry, now);
}

/// The path of a directory that was made leads to it.
proof fn lemma_opens_from(
    volume: Volume,
    after: Volume,
    path: Seq<char>,
    parent: u32,
    cluster: u32,
    entry: EntryView,
    now: DateTime,
)
    requires
        volume.coherent(),
        ({
            let (resolved, leads) = volume.resolve(
                volume.boot.root_cluster,
                operations::parent_of(path),
            );
            let wanted = operations::name_of(path);
            let stored = resolved.plan_name(parent, wanted).1->Ok_0;
            &&& leads == Ok::<u32, Fault>(parent)
            &&& resolved.plan_name(parent, wanted).1 is Ok
            &&& made_directory(volume, after, path, parent, cluster, stored, entry, now)
            &&& replacing::goes_by(entry, stored, wanted)
            &&& stored.slots.len() > 0 ==> volume.stored_listing(parent)->Ok_0.find(
                stored.short.display(volume.codepage),
            ) is None
        }),
    ensures
        after.stored_listing(parent)->Ok_0.find(operations::name_of(path)) == Some(entry),
        entry.is_directory(),
        entry.first_cluster == cluster,
        entry.size == 0,
        after.open_dir(path).1 == after.stored_listing(cluster),
{
    lemma_new_entry_found(volume, after, path, parent, cluster, entry, now);
    lemma_way_stays(volume, after, path, parent, cluster, entry, now);
    lemma_cluster_not_held(volume, after, path, parent, cluster, entry, now);
    assert(cluster != 0 && after.coherent_at(parent) && after.stored_listing(parent) is Ok
        && crate::name::storable(operations::name_of(path))) by {
        reveal(made_directory);
    }
    lemma_opens_by_name(after, path, parent, cluster, entry);
}

/// A path whose last part names a directory opens it.
proof fn lemma_opens_by_name(
    volume: Volume,
    path: Seq<char>,
    parent: u32,
    cluster: u32,
    entry: EntryView,
)
    requires
        volume.resolve(volume.boot.root_cluster, operations::parent_of(path)).1 == Ok::<u32, Fault>(
            parent,
        ),
        volume.coherent_at(parent),
        volume.coherent_at(cluster),
        volume.stored_listing(parent) is Ok,
        volume.stored_listing(parent)->Ok_0.find(operations::name_of(path)) == Some(entry),
        entry.is_directory(),
        entry.first_cluster == cluster,
        cluster != 0,
        crate::name::storable(operations::name_of(path)),
    ensures
        volume.open_dir(path).1 == volume.stored_listing(cluster),
{
    let root = volume.boot.root_cluster;
    let way = operations::parent_of(path);
    let wanted = operations::name_of(path);
    let walked = volume.resolve(root, way).0;
    creation::lemma_resolve_coherent(volume, root, way, parent);
    crate::volume::lemma_resolve_looks(volume, root, way);
    laws::lemma_read_dir(walked, parent);
    assert(walked.stored(parent) =~= volume.stored(parent));
    paths::lemma_path_parts(path);
    assert(paths::is_step(wanted)) by {
        if wanted == seq!['.'] {
            assert(wanted.last() == '.');
        }
    }
    paths::lemma_resolve_parts(volume, path);
    creation::lemma_resolve_coherent(volume, root, path, cluster);
    crate::volume::lemma_resolve_looks(volume, root, path);
    let opened = volume.resolve(root, path).0;
    laws::lemma_read_dir(opened, cluster);
    assert(opened.stored(cluster) =~= volume.stored(cluster));
}

/// The new directory's entry is found by its name, and leads no path astray.
proof fn lemma_new_entry_found(
    volume: Volume,
    after: Volume,
    path: Seq<char>,
    parent: u32,
    cluster: u32,
    entry: EntryView,
    now: DateTime,
)
    requires
        ({
            let (resolved, leads) = volume.resolve(
                volume.boot.root_cluster,
                operations::parent_of(path),
            );
            let wanted = operations::name_of(path);
            let stored = resolved.plan_name(parent, wanted).1->Ok_0;
            &&& leads == Ok::<u32, Fault>(parent)
            &&& resolved.plan_name(parent, wanted).1 is Ok
            &&& made_directory(volume, after, path, parent, cluster, stored, entry, now)
            &&& replacing::goes_by(entry, stored, wanted)
            &&& stored.slots.len() > 0 ==> volume.stored_listing(parent)->Ok_0.find(
                stored.short.display(volume.codepage),
            ) is None
        }),
    ensures
        after.stored_listing(parent)->Ok_0.find(operations::name_of(path)) == Some(entry),
        creation::lists_also(
            volume.stored_listing(parent)->Ok_0,
            after.stored_listing(parent)->Ok_0,
            entry,
        ),
        entry.is_directory(),
        entry.first_cluster == cluster,
        entry.size == 0,
        paths::leads_alike(
            volume.stored_listing(parent)->Ok_0,
            after.stored_listing(parent)->Ok_0,
        ),
{
    reveal(made_directory);
    let root = volume.boot.root_cluster;
    let way = operations::parent_of(path);
    let wanted = operations::name_of(path);
    let resolved = volume.resolve(root, way).0;
    let stored = resolved.plan_name(parent, wanted).1->Ok_0;
    crate::volume::lemma_resolve_looks(volume, root, way);
    if stored.slots.len() == 0 {
        replacing::lemma_says(resolved, parent, wanted);
    }
    assert(0x10u8 & 0x10u8 == 0x10u8) by (bit_vector);
    replacing::lemma_listed_found(
        volume.stored_listing(parent)->Ok_0,
        after.stored_listing(parent)->Ok_0,
        entry,
        stored.short.display(volume.codepage),
        wanted,
    );
}

/// The way to the new directory's parent leads there still.
proof fn lemma_way_stays(
    volume: Volume,
    after: Volume,
    path: Seq<char>,
    parent: u32,
    cluster: u32,
    entry: EntryView,
    now: DateTime,
)
    requires
        volume.coherent(),
        ({
            let (resolved, leads) = volume.resolve(
                volume.boot.root_cluster,
                operations::parent_of(path),
            );
            let stored = resolved.plan_name(parent, operations::name_of(path)).1->Ok_0;
            &&& leads == Ok::<u32, Fault>(parent)
            &&& made_directory(volume, after, path, parent, cluster, stored, entry, now)
        }),
        paths::leads_alike(
            volume.stored_listing(parent)->Ok_0,
            after.stored_listing(parent)->Ok_0,
        ),
    ensures
        after.resolve(after.boot.root_cluster, operations::parent_of(path)).1 == Ok::<u32, Fault>(
            parent,
        ),
{
    reveal(made_directory);
    let root = volume.boot.root_cluster;
    let way = operations::parent_of(path);
    let resolved = volume.resolve(root, way).0;
    assert(volume.coherent_at(parent));
    creation::lemma_resolve_coherent(volume, root, way, parent);
    crate::volume::lemma_resolve_looks(volume, root, way);
    assert(resolved.stored(parent) =~= volume.stored(parent));
    laws::lemma_read_dir(after, parent);
    assert(paths::remembers(resolved, after, parent)) by {
        assert forall|d: u32|
            d != parent && #[trigger] resolved.directories.contains_key(
                d,
            ) implies after.directories.contains_key(d) && after.directories[d]
            == resolved.directories[d] by {}
    }
    paths::lemma_resolve_again(volume, after, root, way, parent);
}

/// A cluster that was free is no directory that is held.
proof fn lemma_cluster_not_held(
    volume: Volume,
    after: Volume,
    path: Seq<char>,
    parent: u32,
    cluster: u32,
    entry: EntryView,
    now: DateTime,
)
    requires
        volume.coherent(),
        made_directory(
            volume,
            after,
            path,
            parent,
            cluster,
            volume.resolve(
                volume.boot.root_cluster,
                operations::parent_of(path),
            ).0.plan_name(parent, operations::name_of(path)).1->Ok_0,
            entry,
            now,
        ),
    ensures
        after.coherent_at(cluster),
{
    reveal(made_directory);
    let root = volume.boot.root_cluster;
    let way = operations::parent_of(path);
    let resolved = volume.resolve(root, way).0;
    assert(volume.coherent_at(cluster));
    creation::lemma_resolve_coherent(volume, root, way, cluster);
    crate::volume::lemma_resolve_looks(volume, root, way);
    if after.directories.contains_key(cluster) {
        assert(resolved.directories.contains_key(cluster));
        assert(resolved.table.chain(cluster) is Ok);
        assert(volume.table.value(cluster as int) == 0);
        assert(volume.table.chain(cluster) is Err);
    }
}

} // verus!
