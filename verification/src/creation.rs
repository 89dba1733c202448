//! What a directory lists after something is created in it or removed from
//! it, and that a file written whole is there to be read.
use vstd::prelude::*;

use crate::bytes;
use crate::chains;
use crate::dir;
use crate::dir::{EntryView, Listing};
use crate::error::Fault;
use crate::fs;
use crate::laws;
use crate::listing;
use crate::name;
use crate::name::StoredView;
use crate::operations;
use crate::operations::FileView;
use crate::storage;
use crate::table;
use crate::text;
use crate::time::DateTime;
use crate::volume::Volume;

verus! {

/// Whether a directory's slots can still be numbered after it has grown by so
/// many clusters.
pub open spec fn numbered(volume: Volume, directory: u32, more: int) -> bool {
    volume.table.chain(directory) is Ok ==> volume.stored(directory).len() + more
        * volume.cluster_bytes() <= 32 * u32::MAX
}

/// What looking for room in a directory does at most: the directory becomes
/// longer. It lists what it did, and no other chain is touched.
#[verifier::opaque]
pub open spec fn roomier(before: Volume, after: Volume, directory: u32, more: int) -> bool {
    &&& laws::same_volume(before, after)
    &&& after.clock == before.clock
    &&& before.table.chain(directory) is Ok
    &&& after.table.chain(directory) is Ok
    &&& after.coherent_at(directory)
    &&& before.stored_listing(directory) is Ok
    &&& after.stored_listing(directory) is Ok
    &&& after.stored_listing(directory)->Ok_0.entries == before.stored_listing(
        directory,
    )->Ok_0.entries
    &&& before.stored(directory).len() <= after.stored(directory).len()
    &&& after.stored(directory).len() <= before.stored(directory).len() + more
        * before.cluster_bytes()
    &&& after.directories.remove(directory) == before.directories.remove(directory)
    &&& forall|start: u32|
        before.table.chain(start) is Ok && #[trigger] chains::apart(
            before.table.chain(start)->Ok_0,
            before.table.chain(directory)->Ok_0,
        ) ==> laws::untouched(before, after, start) && chains::apart(
            after.table.chain(start)->Ok_0,
            after.table.chain(directory)->Ok_0,
        )
}

/// Reading a directory is the least that looking for room does.
proof fn lemma_roomier_read(volume: Volume, directory: u32)
    requires
        volume.laid_out(),
        volume.coherent_at(directory),
        numbered(volume, directory, 0),
        volume.read_dir(directory).1 is Ok,
    ensures
        roomier(volume, volume.read_dir(directory).0, directory, 0),
{
    reveal(roomier);
    laws::lemma_read_dir(volume, directory);
    let after = volume.read_dir(directory).0;
    laws::lemma_slot_count(volume, directory);
    assert(after.stored(directory) =~= volume.stored(directory));
    assert(after.directories.remove(directory) =~= volume.directories.remove(directory)) by {
        reveal(Volume::read_dir);
    }
    assert forall|start: u32|
        volume.table.chain(start) is Ok && #[trigger] chains::apart(
            volume.table.chain(start)->Ok_0,
            volume.table.chain(directory)->Ok_0,
        ) implies laws::untouched(volume, after, start) && chains::apart(
        after.table.chain(start)->Ok_0,
        after.table.chain(directory)->Ok_0,
    ) by {
        assert(after.stored(start) =~= volume.stored(start));
    }
}

/// Growing a directory by one cluster.
proof fn lemma_roomier_grown(volume: Volume, directory: u32)
    requires
        volume.laid_out(),
        volume.fits(),
        volume.stored_listing(directory) is Ok,
        volume.grow_directory(directory).1 is Ok,
    ensures
        roomier(volume, volume.grow_directory(directory).0, directory, 1),
        !volume.grow_directory(directory).0.directories.contains_key(directory),
{
    reveal(roomier);
    storage::lemma_grow_directory(volume, directory);
    let clusters = volume.table.chain(directory)->Ok_0;
    let added = volume.table.allocated(1).1->Ok_0;
    let after = volume.grow_directory(directory).0;
    let all = clusters + added;
    let cb = volume.cluster_bytes();
    fs::lemma_chain_size(volume, 0);
    laws::lemma_slot_count(volume, directory);
    let spc = volume.boot.sectors_per_cluster as int;
    assert(cb % 32 == 0);
    listing::lemma_lengthened(volume.stored(directory), cb as nat, volume.codepage);
    assert(after.stored(directory) == volume.stored(directory) + bytes::zeros(cb as nat));
    assert(after.directories.remove(directory) =~= volume.directories.remove(directory));
    chains::lemma_appended(volume.table, directory, 1);
    assert forall|start: u32|
        volume.table.chain(start) is Ok && #[trigger] chains::apart(
            volume.table.chain(start)->Ok_0,
            clusters,
        ) implies laws::untouched(volume, after, start) && chains::apart(
        after.table.chain(start)->Ok_0,
        after.table.chain(directory)->Ok_0,
    ) by {
        lemma_grown_apart(volume, after, directory, start);
    }
}

/// Growing a directory touches no chain apart from it.
proof fn lemma_grown_apart(volume: Volume, after: Volume, directory: u32, start: u32)
    requires
        volume.laid_out(),
        volume.fits(),
        volume.grow_directory(directory).1 is Ok,
        after == volume.grow_directory(directory).0,
        volume.table.chain(directory) is Ok,
        volume.table.chain(start) is Ok,
        chains::apart(volume.table.chain(start)->Ok_0, volume.table.chain(directory)->Ok_0),
    ensures
        laws::untouched(volume, after, start),
        chains::apart(volume.table.chain(start)->Ok_0, after.table.chain(directory)->Ok_0),
{
    let clusters = volume.table.chain(directory)->Ok_0;
    let other = volume.table.chain(start)->Ok_0;
    storage::lemma_grow_directory(volume, directory);
    chains::lemma_appended(volume.table, directory, 1);
    table::lemma_chain(volume.table, directory);
    let added = volume.table.allocated(1).1->Ok_0;
    let changed = added.push(clusters.last());
    let all = clusters + added;
    chains::lemma_chain_not_free(volume.table, start, added);
    assert forall|i: int, j: int|
        0 <= i < other.len() && 0 <= j < changed.len() implies #[trigger] other[i]
        != #[trigger] changed[j] by {
        if j < added.len() {
            assert(other[i] != added[j]);
        } else {
            assert(other[i] != clusters[clusters.len() - 1]);
        }
    }
    assert forall|i: int, j: int|
        0 <= i < other.len() && 0 <= j < all.len() implies #[trigger] other[i]
        != #[trigger] all[j] by {
        if j < clusters.len() {
            assert(other[i] != clusters[j]);
        } else {
            assert(other[i] != added[j - clusters.len()]);
        }
    }
    laws::lemma_untouched(volume, after, start, changed, added);
}

/// One search for room after another.
proof fn lemma_roomier_twice(a: Volume, b: Volume, c: Volume, directory: u32, m: int, n: int)
    requires
        roomier(a, b, directory, m),
        roomier(b, c, directory, n),
    ensures
        roomier(a, c, directory, m + n),
{
    reveal(roomier);
    let cb = a.cluster_bytes();
    assert((m + n) * cb == m * cb + n * cb) by (nonlinear_arith);
    assert forall|start: u32|
        a.table.chain(start) is Ok && #[trigger] chains::apart(
            a.table.chain(start)->Ok_0,
            a.table.chain(directory)->Ok_0,
        ) implies laws::untouched(a, c, start) && chains::apart(
        c.table.chain(start)->Ok_0,
        c.table.chain(directory)->Ok_0,
    ) by {
        assert(laws::untouched(a, b, start));
        assert(chains::apart(b.table.chain(start)->Ok_0, b.table.chain(directory)->Ok_0));
    }
}

/// Finding room in a directory.
pub proof fn lemma_find_room(volume: Volume, directory: u32, count: u32, attempts: int)
    requires
        volume.laid_out(),
        volume.fits(),
        volume.coherent_at(directory),
        attempts >= 0,
        numbered(volume, directory, attempts),
        volume.find_room(directory, count, attempts).1 is Ok,
    ensures
        ({
            let (after, result) = volume.find_room(directory, count, attempts);
            &&& roomier(volume, after, directory, attempts)
            &&& after.stored_listing(directory) is Ok
            &&& after.stored_listing(directory)->Ok_0.room_for(count) == Some(result->Ok_0)
        }),
    decreases attempts,
{
    let cb = volume.cluster_bytes();
    fs::lemma_chain_size(volume, 0);
    laws::lemma_read_dir(volume, directory);
    let (read, found) = volume.read_dir(directory);
    let listed = found->Ok_0;
    assert(0 <= attempts * cb) by (nonlinear_arith)
        requires
            0 <= attempts,
            0 <= cb,
    ;
    assert(0 * cb == 0) by (nonlinear_arith);
    lemma_roomier_read(volume, directory);
    assert(read.laid_out() && read.stored_listing(directory) == volume.stored_listing(directory)) by {
        reveal(roomier);
        assert(read.stored(directory) =~= volume.stored(directory));
    }
    match listed.room_for(count) {
        Some(index) => {
            assert(roomier(volume, read, directory, attempts)) by {
                reveal(roomier);
            }
        },
        None => {
            let (grown, result) = read.grow_directory(directory);
            lemma_roomier_grown(read, directory);
            assert(grown.laid_out() && grown.coherent_at(directory) && grown.fits()) by {
                reveal(roomier);
            }
            assert(numbered(grown, directory, attempts - 1)) by {
                reveal(roomier);
                assert((attempts - 1) * cb == attempts * cb - cb) by (nonlinear_arith);
                assert(1 * cb == cb) by (nonlinear_arith);
            }
            lemma_find_room(grown, directory, count, attempts - 1);
            let after = grown.find_room(directory, count, attempts - 1).0;
            lemma_roomier_twice(volume, read, grown, directory, 0, 1);
            lemma_roomier_twice(volume, grown, after, directory, 1, attempts - 1);
        },
    }
}

/// Whether a listing has one entry more.
pub open spec fn lists_also(before: Listing, after: Listing, entry: EntryView) -> bool {
    exists|k: int|
        0 <= k <= before.entries.len() && after.entries == #[trigger] before.entries.insert(
            k,
            entry,
        )
}

/// Whether this is a form that names are stored in.
pub open spec fn storable_form(stored: StoredView, wanted: Seq<char>) -> bool {
    &&& name::storable(wanted)
    &&& stored.short.wf()
    &&& name::marks_use(stored.short.raw[0])
    &&& stored.slots.len() <= 20
    &&& stored.slots.len() == 0 || stored.slots == name::long_slots(
        text::utf16(wanted),
        dir::checksum_of(stored.short.raw),
    )
}

/// What an entry that was just written says.
pub open spec fn just_made(
    entry: EntryView,
    stored: StoredView,
    wanted: Seq<char>,
    attributes: u8,
    first: u32,
    index: u32,
    now: DateTime,
    volume: Volume,
) -> bool {
    &&& entry.short == stored.short
    &&& entry.short_display == stored.short.display(volume.codepage)
    &&& entry.attributes == attributes
    &&& entry.first_cluster == first
    &&& entry.size == 0
    &&& entry.index == index + stored.slots.len()
    &&& entry.first_slot <= index
    &&& dir::stamped(entry, now)
    &&& stored.slots.len() > 0 && (forall|j: int|
        0 <= j < wanted.len() ==> wanted[j] as u32 != 0xFFFF) ==> entry.long_name == Some(wanted)
}

/// What putting a new entry into a directory does: the directory lists the
/// entry also, and no other chain is touched.
#[verifier::opaque]
pub open spec fn entered(
    before: Volume,
    after: Volume,
    directory: u32,
    stored: StoredView,
    wanted: Seq<char>,
    attributes: u8,
    first: u32,
    index: u32,
    now: DateTime,
) -> bool {
    let at = (index + stored.slots.len()) as u32;
    let data = after.stored(directory);
    &&& laws::same_volume(before, after)
    &&& after.clock == before.clock
    &&& before.table.chain(directory) is Ok
    &&& after.table.chain(directory) is Ok
    &&& !after.directories.contains_key(directory)
    &&& after.directories == before.directories.remove(directory)
    &&& before.stored_listing(directory) is Ok
    &&& after.stored_listing(directory) is Ok
    &&& dir::slot_count(data) <= u32::MAX
    &&& index + stored.slots.len() < dir::slot_count(data)
    &&& dir::is_entry(data, at as int)
    &&& dir::slot(data, at as int).subrange(0, 11) == stored.short.raw
    &&& lists_also(
        before.stored_listing(directory)->Ok_0,
        after.stored_listing(directory)->Ok_0,
        dir::entry_of(data, at as int, before.codepage),
    )
    &&& just_made(
        dir::entry_of(data, at as int, before.codepage),
        stored,
        wanted,
        attributes,
        first,
        index,
        now,
        before,
    )
    &&& forall|start: u32|
        before.table.chain(start) is Ok && #[trigger] chains::apart(
            before.table.chain(start)->Ok_0,
            before.table.chain(directory)->Ok_0,
        ) ==> laws::untouched(before, after, start) && chains::apart(
            after.table.chain(start)->Ok_0,
            after.table.chain(directory)->Ok_0,
        )
}

/// The new slots of a directory.
pub open spec fn new_slots(
    stored: StoredView,
    attributes: u8,
    first: u32,
    now: DateTime,
) -> Seq<Seq<u8>> {
    stored.slots.push(dir::entry_bytes(stored.short, attributes, first, 0, now))
}

/// The new slots of a directory, one by one.
proof fn lemma_new_slots(
    data: Seq<u8>,
    after: Seq<u8>,
    stored: StoredView,
    wanted: Seq<char>,
    attributes: u8,
    first: u32,
    index: int,
    now: DateTime,
)
    requires
        storable_form(stored, wanted),
        attributes == 0x10 || attributes == 0x20,
        0 <= index,
        index + stored.slots.len() < dir::slot_count(data),
        after == storage::with_slots(data, index, new_slots(stored, attributes, first, now)),
    ensures
        after.len() == data.len(),
        listing::same_slots(data, after, 0, index),
        listing::same_slots(data, after, index + stored.slots.len() + 1, dir::slot_count(data)),
        forall|k: int|
            index <= k < index + stored.slots.len() ==> #[trigger] dir::is_long(after, k),
        forall|k: int|
            0 <= k < stored.slots.len() ==> dir::slot(after, index + k)
                == #[trigger] stored.slots[k],
        dir::slot(after, index + stored.slots.len()) == dir::entry_bytes(
            stored.short,
            attributes,
            first,
            0,
            now,
        ),
        dir::is_entry(after, index + stored.slots.len()),
{
    let bytes_of = dir::entry_bytes(stored.short, attributes, first, 0, now);
    let slots = new_slots(stored, attributes, first, now);
    let n = stored.slots.len() as int;
    let units = text::utf16(wanted);
    let sum = dir::checksum_of(stored.short.raw);
    dir::lemma_entry_round_trip(stored.short, attributes, first, 0, now);
    assert forall|k: int| 0 <= k < n implies (#[trigger] stored.slots[k]).len() == 32
        && name::marks_use(stored.slots[k][0]) && stored.slots[k][0x0B] == 0x0F by {
        assert(units.len() > 0);
        name::lemma_long_slots(units, sum, k);
    }
    assert forall|k: int| 0 <= k < slots.len() implies (#[trigger] slots[k]).len() == 32 by {
        if k < n {
            assert(slots[k] == stored.slots[k]);
        }
    }
    laws::lemma_with_slots(data, index, slots);
    assert(dir::slot(after, index + n) == slots[n]);
    assert forall|k: int| 0 <= k < n implies dir::slot(after, index + k)
        == #[trigger] stored.slots[k] by {
        assert(dir::slot(after, index + k) == slots[k]);
    }
    assert forall|k: int| index <= k < index + n implies #[trigger] dir::is_long(after, k) by {
        assert(dir::slot(after, index + (k - index)) == stored.slots[k - index]);
    }
    assert(0x10u8 & 0x08u8 != 0x08u8 && 0x20u8 & 0x08u8 != 0x08u8) by (bit_vector);
    assert(bytes_of[0] == stored.short.raw[0]) by {
        assert(bytes_of.subrange(0, 11)[0] == bytes_of[0]);
    }
}

/// What the new entry says.
proof fn lemma_just_made(
    data: Seq<u8>,
    after: Seq<u8>,
    stored: StoredView,
    wanted: Seq<char>,
    attributes: u8,
    first: u32,
    index: u32,
    now: DateTime,
    volume: Volume,
)
    requires
        storable_form(stored, wanted),
        attributes == 0x10 || attributes == 0x20,
        dir::slot_count(data) <= u32::MAX,
        index + stored.slots.len() < dir::slot_count(data),
        after == storage::with_slots(data, index as int, new_slots(stored, attributes, first, now)),
    ensures
        just_made(
            dir::entry_of(after, index + stored.slots.len(), volume.codepage),
            stored,
            wanted,
            attributes,
            first,
            index,
            now,
            volume,
        ),
        dir::slot(after, index + stored.slots.len()).subrange(0, 11) == stored.short.raw,
{
    lemma_new_slots(data, after, stored, wanted, attributes, first, index as int, now);
    dir::lemma_entry_round_trip(stored.short, attributes, first, 0, now);
    let n = stored.slots.len() as int;
    let at = index + n;
    lemma_first_slot(after, index as int, at);
    let entry = dir::entry_of(after, at, volume.codepage);
    assert(dir::stamped(entry, now));
    if n > 0 && (forall|j: int| 0 <= j < wanted.len() ==> wanted[j] as u32 != 0xFFFF) {
        let units = text::utf16(wanted);
        let sum = dir::checksum_of(stored.short.raw);
        name::lemma_long_slots(units, sum, 0);
        assert forall|k: int| 0 <= k < at - index implies #[trigger] dir::slot(after, index + k)
            == name::long_slots(units, sum)[k] by {
            assert(dir::slot(after, index + k) == stored.slots[k]);
        }
        name::lemma_long_name_round_trip(after, index as int, at, wanted, sum);
    }
}

/// The new slots of a directory, as they are read again.
proof fn lemma_new_entry(
    data: Seq<u8>,
    after: Seq<u8>,
    stored: StoredView,
    wanted: Seq<char>,
    attributes: u8,
    first: u32,
    index: u32,
    now: DateTime,
    volume: Volume,
)
    requires
        storable_form(stored, wanted),
        attributes == 0x10 || attributes == 0x20,
        dir::slot_count(data) <= u32::MAX,
        index + stored.slots.len() < dir::slot_count(data),
        after == storage::with_slots(data, index as int, new_slots(stored, attributes, first, now)),
        dir::listing_of(data, volume.codepage) is Ok,
        dir::listing_of(data, volume.codepage)->Ok_0.room_for((stored.slots.len() + 1) as u32)
            == Some(index),
    ensures
        ({
            let at = index + stored.slots.len();
            &&& dir::listing_of(after, volume.codepage) is Ok
            &&& after.len() == data.len()
            &&& dir::is_entry(after, at)
            &&& lists_also(
                dir::listing_of(data, volume.codepage)->Ok_0,
                dir::listing_of(after, volume.codepage)->Ok_0,
                dir::entry_of(after, at, volume.codepage),
            )
        }),
{
    let n = stored.slots.len() as int;
    let at = index + n;
    assert(after.len() == data.len() && listing::same_slots(data, after, 0, index as int)
        && listing::same_slots(data, after, at + 1, dir::slot_count(data)) && dir::is_entry(
        after,
        at,
    ) && forall|k: int| index <= k < at ==> #[trigger] dir::is_long(after, k)) by {
        lemma_new_slots(data, after, stored, wanted, attributes, first, index as int, now);
    }
    listing::lemma_room(data, (n + 1) as u32, volume.codepage);
    listing::lemma_inserted(data, after, index as int, n + 1, volume.codepage);
    let before_listing = dir::listing_of(data, volume.codepage)->Ok_0;
    let entry = dir::entry_of(after, at, volume.codepage);
    let head = dir::entries_of(data, index as int, volume.codepage);
    let tail = listing::entries_between(
        data,
        index + n + 1,
        dir::slot_count(data),
        volume.codepage,
    );
    lemma_insert_between(head, tail, entry);
    assert(dir::listing_of(after, volume.codepage)->Ok_0.entries == before_listing.entries.insert(
        head.len() as int,
        entry,
    ));
}

/// Inserting between two parts of a sequence.
proof fn lemma_insert_between(head: Seq<EntryView>, tail: Seq<EntryView>, entry: EntryView)
    ensures
        (head + tail).insert(head.len() as int, entry) == head.push(entry) + tail,
{
    assert((head + tail).insert(head.len() as int, entry) =~= head.push(entry) + tail);
}

/// An entry's first slot is no later than the long-name slots right before it.
proof fn lemma_first_slot(data: Seq<u8>, lo: int, i: int)
    requires
        0 <= lo <= i,
        forall|k: int| lo <= k < i ==> #[trigger] dir::is_long(data, k),
    ensures
        0 <= dir::run_start(data, i) <= lo,
    decreases i,
{
    if lo < i {
        assert(dir::is_long(data, i - 1));
        lemma_first_slot(data, lo, i - 1);
    } else if i > 0 && dir::is_long(data, i - 1) {
        lemma_first_slot(data, i - 1, i - 1);
    }
}

/// Writing a new entry where there is room for it.
pub proof fn lemma_published(
    volume: Volume,
    directory: u32,
    stored: StoredView,
    wanted: Seq<char>,
    attributes: u8,
    first: u32,
    index: u32,
    now: DateTime,
)
    requires
        volume.laid_out(),
        volume.fits(),
        storable_form(stored, wanted),
        attributes == 0x10 || attributes == 0x20,
        volume.stored_listing(directory) is Ok,
        dir::slot_count(volume.stored(directory)) <= u32::MAX,
        volume.stored_listing(directory)->Ok_0.room_for((stored.slots.len() + 1) as u32) == Some(
            index,
        ),
        volume.publish(
            directory,
            stored,
            dir::entry_bytes(stored.short, attributes, first, 0, now),
            first,
            index,
        ).1 is Ok,
    ensures
        entered(
            volume,
            volume.publish(
                directory,
                stored,
                dir::entry_bytes(stored.short, attributes, first, 0, now),
                first,
                index,
            ).0,
            directory,
            stored,
            wanted,
            attributes,
            first,
            index,
            now,
        ),
{
    reveal(Volume::publish);
    reveal(entered);
    let bytes_of = dir::entry_bytes(stored.short, attributes, first, 0, now);
    let slots = stored.slots.push(bytes_of);
    let flushed = volume.flush();
    storage::lemma_flush(volume);
    laws::lemma_flushed_chains(volume.table);
    let clusters = volume.table.chain(directory)->Ok_0;
    assert(volume.table.chain(directory) is Ok);
    laws::lemma_untouched(volume, flushed, directory, Seq::<u32>::empty(), Seq::<u32>::empty());
    let data = volume.stored(directory);
    laws::lemma_slot_count(volume, directory);
    listing::lemma_room(data, (stored.slots.len() + 1) as u32, volume.codepage);
    dir::lemma_entry_round_trip(stored.short, attributes, first, 0, now);
    assert forall|k: int| 0 <= k < slots.len() implies (#[trigger] slots[k]).len() == 32 by {
        if k < stored.slots.len() {
            assert(slots[k] == stored.slots[k]);
        }
    }
    storage::lemma_put_slots(flushed, directory, index, slots);
    let after = flushed.put_slots(directory, index, slots).0;
    lemma_new_entry(
        data,
        after.stored(directory),
        stored,
        wanted,
        attributes,
        first,
        index,
        now,
        volume,
    );
    lemma_just_made(
        data,
        after.stored(directory),
        stored,
        wanted,
        attributes,
        first,
        index,
        now,
        volume,
    );
    assert forall|start: u32|
        volume.table.chain(start) is Ok && #[trigger] chains::apart(
            volume.table.chain(start)->Ok_0,
            clusters,
        ) implies laws::untouched(volume, after, start) && chains::apart(
        after.table.chain(start)->Ok_0,
        after.table.chain(directory)->Ok_0,
    ) by {
        laws::lemma_untouched(volume, flushed, start, Seq::<u32>::empty(), Seq::<u32>::empty());
        laws::lemma_untouched(flushed, after, start, Seq::<u32>::empty(), clusters);
    }
}

/// Finding room and then putting an entry there.
proof fn lemma_entered_after_room(
    before: Volume,
    roomy: Volume,
    after: Volume,
    directory: u32,
    more: int,
    stored: StoredView,
    wanted: Seq<char>,
    attributes: u8,
    first: u32,
    index: u32,
    now: DateTime,
)
    requires
        roomier(before, roomy, directory, more),
        entered(roomy, after, directory, stored, wanted, attributes, first, index, now),
    ensures
        entered(before, after, directory, stored, wanted, attributes, first, index, now),
{
    reveal(roomier);
    reveal(entered);
    assert forall|start: u32|
        before.table.chain(start) is Ok && #[trigger] chains::apart(
            before.table.chain(start)->Ok_0,
            before.table.chain(directory)->Ok_0,
        ) implies laws::untouched(before, after, start) && chains::apart(
        after.table.chain(start)->Ok_0,
        after.table.chain(directory)->Ok_0,
    ) by {
        assert(laws::untouched(before, roomy, start));
        assert(chains::apart(roomy.table.chain(start)->Ok_0, roomy.table.chain(directory)->Ok_0));
    }
}

/// Creating a file whose name is chosen and whose chain is allocated.
proof fn lemma_create_with(
    volume: Volume,
    directory: u32,
    stored: StoredView,
    wanted: Seq<char>,
    first: u32,
    now: DateTime,
)
    requires
        volume.laid_out(),
        volume.fits(),
        volume.coherent_at(directory),
        numbered(volume, directory, fs::MAX_DIRECTORY_GROWTH as int),
        storable_form(stored, wanted),
        volume.create_with(directory, stored, first, now).1 is Ok,
    ensures
        ({
            let (after, result) = volume.create_with(directory, stored, first, now);
            let file = result->Ok_0;
            &&& entered(
                volume,
                after,
                directory,
                stored,
                wanted,
                0x20,
                first,
                file.first_slot,
                now,
            )
            &&& file == (FileView {
                first_cluster: first,
                size: 0,
                directory,
                index: (file.first_slot + stored.slots.len()) as u32,
                first_slot: file.first_slot,
                short: stored.short,
                deletions: volume.deletions_of(directory),
            })
            &&& after.holds(file)
        }),
{
    reveal(Volume::create_with);
    let count = (stored.slots.len() + 1) as u32;
    let more = fs::MAX_DIRECTORY_GROWTH as int;
    let (roomy, room) = volume.find_room(directory, count, more);
    let index = room->Ok_0;
    lemma_find_room(volume, directory, count, more);
    assert(roomy.laid_out() && roomy.fits() && dir::slot_count(roomy.stored(directory))
        <= u32::MAX) by {
        reveal(roomier);
    }
    lemma_published(roomy, directory, stored, wanted, 0x20, first, index, now);
    let (after, result) = volume.create_with(directory, stored, first, now);
    lemma_entered_after_room(
        volume,
        roomy,
        after,
        directory,
        more,
        stored,
        wanted,
        0x20,
        first,
        index,
        now,
    );
    let file = result->Ok_0;
    assert(after.holds(file)) by {
        reveal(entered);
    }
}

/// Reading a directory keeps what is held as it is stored.
pub proof fn lemma_read_coherent(volume: Volume, directory: u32, other: u32)
    requires
        volume.coherent_at(other),
    ensures
        volume.read_dir(directory).0.coherent_at(other),
        volume.read_dir(directory).0.looks_like(volume),
{
    crate::volume::lemma_read_dir_looks(volume, directory);
    let after = volume.read_dir(directory).0;
    assert(after.stored(other) =~= volume.stored(other));
    if other == directory {
        laws::lemma_read_dir(volume, directory);
    } else {
        reveal(Volume::read_dir);
    }
}

/// Walking a path keeps what is held as it is stored.
pub proof fn lemma_resolve_coherent(volume: Volume, cluster: u32, path: Seq<char>, other: u32)
    requires
        volume.coherent_at(other),
    ensures
        volume.resolve(cluster, path).0.coherent_at(other),
        volume.resolve(cluster, path).0.looks_like(volume),
    decreases path.len(),
{
    crate::volume::lemma_resolve_looks(volume, cluster, path);
    let name = crate::volume::first_component(path);
    let rest = crate::volume::after_component(path);
    if path.len() > 0 {
        if name.len() == 0 || name =~= seq!['.'] {
            lemma_resolve_coherent(volume, cluster, rest, other);
        } else {
            lemma_read_coherent(volume, cluster, other);
            let (entered, result) = volume.enter(cluster, name);
            if result is Ok {
                lemma_resolve_coherent(entered, result->Ok_0, rest, other);
            }
        }
    }
}

/// What creating a file does: the directory its path leads to lists it also,
/// the handle is live, the chain it was given is apart from everything else,
/// and no other chain is touched.
#[verifier::opaque]
pub open spec fn created(
    before: Volume,
    after: Volume,
    path: Seq<char>,
    size: u32,
    file: FileView,
    stored: StoredView,
    now: DateTime,
) -> bool {
    let directory = file.directory;
    let wanted = operations::name_of(path);
    let entry = dir::entry_of(after.stored(directory), file.index as int, before.codepage);
    let (resolved, leads) = before.resolve(before.boot.root_cluster, operations::parent_of(path));
    &&& leads == Ok::<u32, Fault>(directory)
    &&& storable_form(stored, wanted)
    &&& resolved.plan_name(directory, wanted).1 == Ok::<StoredView, Fault>(stored)
    &&& laws::same_volume(before, after)
    &&& after.holds(file)
    &&& !after.directories.contains_key(directory)
    &&& after.directories == resolved.directories.remove(directory)
    &&& before.table.chain(directory) is Ok
    &&& before.stored_listing(directory) is Ok
    &&& after.stored_listing(directory) is Ok
    &&& before.stored_listing(directory)->Ok_0.find(wanted) is None
    &&& stored.slots.len() > 0 ==> before.stored_listing(directory)->Ok_0.find(
        stored.short.display(before.codepage),
    ) is None
    &&& lists_also(
        before.stored_listing(directory)->Ok_0,
        after.stored_listing(directory)->Ok_0,
        entry,
    )
    &&& just_made(
        entry,
        stored,
        wanted,
        0x20,
        file.first_cluster,
        file.first_slot,
        now,
        before,
    )
    &&& file.size == 0
    &&& file.short == stored.short
    &&& file.index == file.first_slot + stored.slots.len()
    &&& file.first_cluster == 0 <==> size == 0
    &&& file.first_cluster != 0 ==> {
        let clusters = after.table.chain(file.first_cluster)->Ok_0;
        &&& after.table.chain(file.first_cluster) is Ok
        &&& clusters.len() == operations::clusters_for(size as int, before.cluster_bytes())
        &&& chains::apart(clusters, after.table.chain(directory)->Ok_0)
    }
    &&& forall|start: u32|
        before.table.chain(start) is Ok && #[trigger] chains::apart(
            before.table.chain(start)->Ok_0,
            before.table.chain(directory)->Ok_0,
        ) ==> laws::untouched(before, after, start) && chains::apart(
            after.table.chain(start)->Ok_0,
            after.table.chain(directory)->Ok_0,
        ) && (file.first_cluster != 0 ==> chains::apart(
            after.table.chain(start)->Ok_0,
            after.table.chain(file.first_cluster)->Ok_0,
        ))
}

/// The volume once a name is chosen.
pub open spec fn planned_in(volume: Volume, path: Seq<char>) -> Volume {
    let (resolved, leads) = volume.resolve(volume.boot.root_cluster, operations::parent_of(path));
    resolved.plan_name(leads->Ok_0, operations::name_of(path)).0
}

/// Choosing a name changes nothing but what is held, and finds the name not
/// to be taken.
pub proof fn lemma_planned_in(volume: Volume, path: Seq<char>)
    requires
        ({
            let (resolved, leads) = volume.resolve(
                volume.boot.root_cluster,
                operations::parent_of(path),
            );
            &&& leads is Ok
            &&& volume.coherent_at(leads->Ok_0)
            &&& resolved.plan_name(leads->Ok_0, operations::name_of(path)).1 is Ok
        }),
    ensures
        ({
            let (resolved, leads) = volume.resolve(
                volume.boot.root_cluster,
                operations::parent_of(path),
            );
            let directory = leads->Ok_0;
            let wanted = operations::name_of(path);
            let stored = resolved.plan_name(directory, wanted).1->Ok_0;
            let planned = planned_in(volume, path);
            &&& storable_form(stored, wanted)
            &&& planned.looks_like(volume)
            &&& planned.coherent_at(directory)
            &&& volume.table.chain(directory) is Ok
            &&& volume.stored_listing(directory) is Ok
            &&& volume.stored_listing(directory)->Ok_0.find(wanted) is None
            &&& stored.slots.len() > 0 ==> volume.stored_listing(directory)->Ok_0.find(
                stored.short.display(volume.codepage),
            ) is None
            &&& planned.directories.remove(directory) == resolved.directories.remove(directory)
        }),
{
    let root = volume.boot.root_cluster;
    let parent = operations::parent_of(path);
    let wanted = operations::name_of(path);
    let (resolved, leads) = volume.resolve(root, parent);
    let directory = leads->Ok_0;
    lemma_resolve_coherent(volume, root, parent, directory);
    lemma_read_coherent(resolved, directory, directory);
    laws::lemma_read_dir(resolved, directory);
    reveal(Volume::plan_name);
    assert(resolved.stored(directory) =~= volume.stored(directory));
    let listed = resolved.read_dir(directory).1->Ok_0;
    name::lemma_planned(wanted, resolved.codepage, |alias: Seq<char>| listed.find(alias) is Some);
    assert(planned_in(volume, path).directories.remove(directory)
        =~= resolved.directories.remove(directory)) by {
        reveal(Volume::read_dir);
    }
}

/// The volume once a chain is allocated.
pub open spec fn given(volume: Volume, count: u32) -> Volume {
    Volume { table: volume.table.allocated(count).0, ..volume }
}

/// Allocating a chain touches none that is there.
pub proof fn lemma_given(volume: Volume, count: u32, start: u32)
    requires
        volume.laid_out(),
        volume.table.allocated(count).1 is Ok,
        volume.table.chain(start) is Ok,
    ensures
        laws::same_volume(volume, given(volume, count)),
        laws::untouched(volume, given(volume, count), start),
        volume.coherent_at(start) ==> given(volume, count).coherent_at(start),
        count > 0 ==> chains::apart(
            volume.table.chain(start)->Ok_0,
            volume.table.allocated(count).1->Ok_0,
        ),
{
    let after = given(volume, count);
    if count > 0 {
        chains::lemma_allocated(volume.table, count);
        chains::lemma_allocated_keeps(volume.table, count, start);
    }
    assert(after.stored(start) =~= volume.stored(start));
}

/// A file that is created is there: its directory lists it also, the handle
/// is live, its chain is its own, and nothing else is touched.
pub proof fn lemma_create(volume: Volume, path: Seq<char>, size: u32, now: DateTime)
    requires
        volume.laid_out(),
        volume.fits(),
        volume.create(path, size, now).1 is Ok,
        volume.coherent_at(volume.create(path, size, now).1->Ok_0.directory),
        numbered(
            volume,
            volume.create(path, size, now).1->Ok_0.directory,
            fs::MAX_DIRECTORY_GROWTH as int,
        ),
    ensures
        created(
            volume,
            volume.create(path, size, now).0,
            path,
            size,
            volume.create(path, size, now).1->Ok_0,
            volume.resolve(
                volume.boot.root_cluster,
                operations::parent_of(path),
            ).0.plan_name(
                volume.create(path, size, now).1->Ok_0.directory,
                operations::name_of(path),
            ).1->Ok_0,
            now,
        ),
{
    let (resolved, leads) = volume.resolve(volume.boot.root_cluster, operations::parent_of(path));
    let directory = leads->Ok_0;
    let wanted = operations::name_of(path);
    let stored = resolved.plan_name(directory, wanted).1->Ok_0;
    let planned = planned_in(volume, path);
    assert(volume.create(path, size, now).1->Ok_0.directory == directory) by {
        reveal(Volume::create_with);
    }
    lemma_planned_in(volume, path);
    let count = operations::clusters_for(size as int, volume.cluster_bytes()) as u32;
    let ready = given(planned, count);
    let clusters = planned.table.allocated(count).1->Ok_0;
    let first = if clusters.len() > 0 {
        clusters[0]
    } else {
        0
    };
    let (after, result) = volume.create(path, size, now);
    let file = result->Ok_0;
    assert((after, result) == ready.create_with(directory, stored, first, now));
    lemma_given(planned, count, directory);
    assert(planned.stored(directory) =~= volume.stored(directory));
    lemma_create_with(ready, directory, stored, wanted, first, now);
    lemma_created_from(volume, planned, after, path, size, file, stored, now);
}

/// Putting together what creating a file does.
proof fn lemma_created_from(
    volume: Volume,
    planned: Volume,
    after: Volume,
    path: Seq<char>,
    size: u32,
    file: FileView,
    stored: StoredView,
    now: DateTime,
)
    requires
        volume.laid_out(),
        planned.looks_like(volume),
        ({
            let (resolved, leads) = volume.resolve(
                volume.boot.root_cluster,
                operations::parent_of(path),
            );
            let directory = file.directory;
            let wanted = operations::name_of(path);
            let count = operations::clusters_for(size as int, volume.cluster_bytes()) as u32;
            let ready = given(planned, count);
            let clusters = planned.table.allocated(count).1->Ok_0;
            &&& leads == Ok::<u32, Fault>(directory)
            &&& resolved.plan_name(directory, wanted).1 == Ok::<StoredView, Fault>(stored)
            &&& storable_form(stored, wanted)
            &&& volume.table.chain(directory) is Ok
            &&& volume.stored_listing(directory) is Ok
            &&& volume.stored_listing(directory)->Ok_0.find(wanted) is None
            &&& stored.slots.len() > 0 ==> volume.stored_listing(directory)->Ok_0.find(
                stored.short.display(volume.codepage),
            ) is None
            &&& planned.directories.remove(directory) == resolved.directories.remove(directory)
            &&& planned.table.allocated(count).1 is Ok
            &&& file == (FileView {
                first_cluster: if clusters.len() > 0 {
                    clusters[0]
                } else {
                    0
                },
                size: 0,
                directory,
                index: (file.first_slot + stored.slots.len()) as u32,
                first_slot: file.first_slot,
                short: stored.short,
                deletions: volume.deletions_of(directory),
            })
            &&& after.holds(file)
            &&& entered(
                ready,
                after,
                directory,
                stored,
                wanted,
                0x20,
                file.first_cluster,
                file.first_slot,
                now,
            )
        }),
    ensures
        created(volume, after, path, size, file, stored, now),
{
    reveal(created);
    reveal(entered);
    let directory = file.directory;
    let cb = volume.cluster_bytes();
    fs::lemma_chain_size(volume, 0);
    let count = operations::clusters_for(size as int, cb) as u32;
    let ready = given(planned, count);
    let clusters = planned.table.allocated(count).1->Ok_0;
    lemma_given(planned, count, directory);
    assert(planned.stored(directory) =~= volume.stored(directory));
    lemma_count(size as int, cb);
    if count > 0 {
        chains::lemma_allocated(planned.table, count);
        assert(planned.table.is_free(clusters[0] as int));
        assert(chains::apart(clusters, ready.table.chain(directory)->Ok_0));
        assert(laws::untouched(ready, after, clusters[0]));
    }
    assert forall|start: u32|
        volume.table.chain(start) is Ok && #[trigger] chains::apart(
            volume.table.chain(start)->Ok_0,
            volume.table.chain(directory)->Ok_0,
        ) implies laws::untouched(volume, after, start) && chains::apart(
        after.table.chain(start)->Ok_0,
        after.table.chain(directory)->Ok_0,
    ) && (file.first_cluster != 0 ==> chains::apart(
        after.table.chain(start)->Ok_0,
        after.table.chain(file.first_cluster)->Ok_0,
    )) by {
        lemma_given(planned, count, start);
        assert(planned.stored(start) =~= volume.stored(start));
        assert(chains::apart(ready.table.chain(start)->Ok_0, ready.table.chain(directory)->Ok_0));
    }
}

/// No clusters for no bytes.
proof fn lemma_count(size: int, cluster_bytes: int)
    requires
        0 <= size <= u32::MAX,
        0 < cluster_bytes,
    ensures
        0 <= operations::clusters_for(size, cluster_bytes) <= u32::MAX,
        operations::clusters_for(size, cluster_bytes) == 0 <==> size == 0,
{
    let n = operations::clusters_for(size, cluster_bytes);
    assert(0 <= n <= size && (n == 0 <==> size == 0)) by (nonlinear_arith)
        requires
            0 <= size,
            0 < cluster_bytes,
            n == (size + cluster_bytes - 1) / cluster_bytes,
    ;
}

} // verus!
