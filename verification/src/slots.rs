//! What the bytes of a directory's slots mean, one by one: which hold an
//! entry, what the entry says, where there is room, and which entries lead on.
use vstd::prelude::*;

use crate::codepage::Codepage;
use crate::dir;
use crate::dir::{EntryView, Listing};
use crate::error::Fault;
use crate::geometry;
use crate::geometry::{pair, quad};
use crate::listing;
use crate::operations;
use crate::operations::FileView;
use crate::text;
use crate::time::DateTime;
use crate::volume;
use crate::volume::Volume;

verus! {

/// Byte `o` of slot `i`.
pub open spec fn byte(data: Seq<u8>, i: int, o: int) -> u8 {
    data[32 * i + o]
}

/// Whether a slot is in use: its first byte is neither that of a slot never
/// used nor that of a deleted one.
pub open spec fn used(data: Seq<u8>, i: int) -> bool {
    byte(data, i, 0) != 0 && byte(data, i, 0) != 229
}

/// A slot is 32 bytes; whether it is in use is said by its first, and whether
/// it holds an entry, or a piece of a long name, by its twelfth.
pub proof fn lemma_slot_kinds(data: Seq<u8>, i: int)
    requires
        0 <= i < data.len() as int / 32,
    ensures
        dir::slot_count(data) == data.len() as int / 32,
        dir::slot(data, i).len() == 32,
        forall|o: int| 0 <= o < 32 ==> #[trigger] dir::slot(data, i)[o] == byte(data, i, o),
        dir::is_free(data, i) <==> !used(data, i),
        dir::is_end(data, i) <==> byte(data, i, 0) == 0,
        dir::is_long(data, i) <==> used(data, i) && byte(data, i, 11) == 15,
        dir::is_entry(data, i) <==> used(data, i) && byte(data, i, 11) / 8 % 2 == 0,
{
    let attributes = byte(data, i, 11);
    assert(dir::slot(data, i)[11] == attributes);
    assert(dir::slot(data, i)[0] == byte(data, i, 0));
    assert(attributes & 0x08 != 0x08 <==> attributes / 8 % 2 == 0) by (bit_vector);
}

/// The moment that a stored date, a stored time and stored hundredths say:
/// seven bits of years from 1980 above four of months and five of days; five of
/// hours above six of minutes and five of pairs of seconds. No date is the
/// first of January 1980.
pub open spec fn moment(date: int, time: int, hundredths: int) -> DateTime {
    if date == 0 {
        DateTime {
            year: 1980,
            month: 1,
            day: 1,
            hour: 0,
            minute: 0,
            second: 0,
            millisecond: 0,
        }
    } else {
        let odd = if hundredths > 199 {
            199
        } else {
            hundredths
        };
        DateTime {
            year: (1980 + date / 512) as u16,
            month: (date / 32 % 16) as u8,
            day: (date % 32) as u8,
            hour: (time / 2048) as u8,
            minute: (time / 32 % 64) as u8,
            second: (2 * (time % 32) + odd / 100) as u8,
            millisecond: (10 * (odd % 100)) as u16,
        }
    }
}

/// What an entry says is what the bytes of its slot say: the name in the first
/// eleven, the attributes in the next, the case of the name after that, then
/// the moments it was made and looked at, the upper half of its first cluster,
/// the moment it was changed, the lower half, and its length.
pub proof fn lemma_entry_fields(data: Seq<u8>, i: int, codepage: Codepage)
    requires
        0 <= i < data.len() as int / 32,
    ensures
        ({
            let entry = dir::entry_of(data, i, codepage);
            let at = 32 * i;
            &&& entry.short.raw == data.subrange(at, at + 11)
            &&& entry.short.case_flags == data[at + 12]
            &&& entry.attributes == data[at + 11]
            &&& entry.first_cluster == 65536 * pair(data, at + 20) + pair(data, at + 26)
            &&& entry.size == quad(data, at + 28)
            &&& entry.short_display == entry.short.display(codepage)
            &&& entry.created == moment(pair(data, at + 16), pair(data, at + 14), data[at + 13] as int)
            &&& entry.accessed == moment(pair(data, at + 18), 0, 0)
            &&& entry.modified == moment(pair(data, at + 24), pair(data, at + 22), 0)
        }),
{
    let at = 32 * i;
    let slot = dir::slot(data, i);
    assert(forall|o: int| 0 <= o < 32 ==> #[trigger] slot[o] == data[at + o]);
    assert(slot.subrange(0, 11) =~= data.subrange(at, at + 11));
    geometry::lemma_fields(slot, 14);
    geometry::lemma_fields(slot, 16);
    geometry::lemma_fields(slot, 18);
    geometry::lemma_fields(slot, 20);
    geometry::lemma_fields(slot, 22);
    geometry::lemma_fields(slot, 24);
    geometry::lemma_fields(slot, 26);
    geometry::lemma_fields(slot, 28);
}

/// A directory can be listed exactly if no slot is in use after one that was
/// never used; and otherwise the first such slot is reported. What is listed is
/// the entry of every slot that holds one, in the order of the slots.
pub proof fn lemma_listed(data: Seq<u8>, codepage: Codepage)
    requires
        data.len() as int / 32 <= u32::MAX,
    ensures
        match dir::listing_of(data, codepage) {
            Ok(listing) => {
                &&& forall|i: int, j: int|
                    0 <= i < j < data.len() as int / 32 && #[trigger] byte(data, i, 0) == 0
                        ==> !#[trigger] used(data, j)
                &&& forall|i: int|
                    0 <= i < data.len() as int / 32 && #[trigger] used(data, i) && byte(data, i, 11)
                        / 8 % 2 == 0 ==> listing.entry_at(i as u32) == Some(
                        dir::entry_of(data, i, codepage),
                    )
                &&& forall|i: int|
                    0 <= i < data.len() as int / 32 && !(#[trigger] used(data, i) && byte(
                        data,
                        i,
                        11,
                    ) / 8 % 2 == 0) ==> listing.entry_at(i as u32) is None
                &&& forall|a: int|
                    0 <= a < listing.entries.len() ==> (#[trigger] listing.entries[a]).index
                        < data.len() as int / 32
                &&& forall|a: int, b: int|
                    0 <= a < b < listing.entries.len() ==> #[trigger] listing.entries[a].index
                        < #[trigger] listing.entries[b].index
            },
            Err(j) => {
                &&& 0 <= j < data.len() as int / 32
                &&& used(data, j)
                &&& exists|i: int| 0 <= i < j && #[trigger] byte(data, i, 0) == 0
                &&& forall|i: int, k: int|
                    0 <= i < k < j && #[trigger] byte(data, i, 0) == 0 ==> !#[trigger] used(data, k)
            },
        },
{
    let n = dir::slot_count(data);
    lemma_first_stray(data, n);
    match dir::listing_of(data, codepage) {
        Ok(listing) => {
            lemma_nothing_past_end(data, n);
            lemma_entry_by_slot(data, codepage);
            dir::lemma_entries(data, n, codepage);
        },
        Err(j) => {
            lemma_slot_kinds(data, j);
            lemma_nothing_past_end(data, j);
            let i = choose|i: int| 0 <= i < j && #[trigger] dir::is_end(data, i);
            lemma_slot_kinds(data, i);
            assert(byte(data, i, 0) == 0);
        },
    }
}

/// Where no slot is in use after the end marker, none is after one that was
/// never used.
proof fn lemma_nothing_past_end(data: Seq<u8>, n: int)
    requires
        n <= data.len() as int / 32,
        forall|j: int| 0 <= j < n ==> !#[trigger] dir::is_stray(data, j),
    ensures
        forall|i: int, j: int|
            0 <= i < j < n && #[trigger] byte(data, i, 0) == 0 ==> !#[trigger] used(data, j),
{
    assert forall|i: int, j: int|
        0 <= i < j < n && #[trigger] byte(data, i, 0) == 0 implies !#[trigger] used(data, j) by {
        lemma_slot_kinds(data, i);
        lemma_slot_kinds(data, j);
        assert(dir::is_end(data, i));
        assert(!dir::is_stray(data, j));
    }
}

/// The entry of each slot.
proof fn lemma_entry_by_slot(data: Seq<u8>, codepage: Codepage)
    requires
        data.len() as int / 32 <= u32::MAX,
        dir::listing_of(data, codepage) is Ok,
    ensures
        ({
            let listing = dir::listing_of(data, codepage)->Ok_0;
            &&& forall|i: int|
                0 <= i < data.len() as int / 32 && #[trigger] used(data, i) && byte(data, i, 11) / 8
                    % 2 == 0 ==> listing.entry_at(i as u32) == Some(
                    dir::entry_of(data, i, codepage),
                )
            &&& forall|i: int|
                0 <= i < data.len() as int / 32 && !(#[trigger] used(data, i) && byte(data, i, 11)
                    / 8 % 2 == 0) ==> listing.entry_at(i as u32) is None
        }),
{
    let n = data.len() as int / 32;
    let listing = dir::listing_of(data, codepage)->Ok_0;
    assert forall|i: int|
        0 <= i < n && #[trigger] used(data, i) && byte(data, i, 11) / 8 % 2
            == 0 implies listing.entry_at(i as u32) == Some(dir::entry_of(data, i, codepage)) by {
        lemma_slot_kinds(data, i);
        listing::lemma_entry_at(data, i as u32, codepage);
    }
    assert forall|i: int|
        0 <= i < n && !(#[trigger] used(data, i) && byte(data, i, 11) / 8 % 2
            == 0) implies listing.entry_at(i as u32) is None by {
        lemma_slot_kinds(data, i);
        listing::lemma_entry_at(data, i as u32, codepage);
    }
}

/// The first slot in use past the end marker is the first.
proof fn lemma_first_stray(data: Seq<u8>, n: int)
    ensures
        match dir::first_stray(data, n) {
            Some(i) => 0 <= i < n && dir::is_stray(data, i) && forall|j: int|
                0 <= j < i ==> !#[trigger] dir::is_stray(data, j),
            None => forall|j: int| 0 <= j < n ==> !#[trigger] dir::is_stray(data, j),
        },
    decreases n,
{
    if n > 0 {
        lemma_first_stray(data, n - 1);
    }
}

/// A stretch of free slots lies in one of those that are remembered.
proof fn lemma_stretch(data: Seq<u8>, n: int, at: int, count: int)
    requires
        0 <= n <= dir::slot_count(data),
        n <= u32::MAX,
        0 <= at,
        0 < count,
        at + count <= n,
        forall|i: int| at <= i < at + count ==> #[trigger] dir::is_free(data, i),
    ensures
        exists|a: int|
            0 <= a < dir::free_of(data, n).len() && (#[trigger] dir::free_of(data, n)[a]).0 <= at
                && at + count <= dir::free_of(data, n)[a].0 + dir::free_of(data, n)[a].1,
    decreases n,
{
    let all = dir::free_of(data, n);
    if at + count == n {
        assert(dir::is_free(data, n - 1));
        listing::lemma_free_starts(data, n);
        let a = all.len() - 1;
        let (start, length) = all[a];
        if start > at {
            assert(dir::is_free(data, start - 1));
        }
        assert(all[a].0 <= at && at + count <= all[a].0 + all[a].1);
    } else {
        lemma_stretch(data, n - 1, at, count);
        let before = dir::free_of(data, n - 1);
        let a = choose|a: int|
            0 <= a < before.len() && (#[trigger] before[a]).0 <= at && at + count <= before[a].0
                + before[a].1;
        dir::lemma_free(data, n - 1);
        let (start, length) = before[a];
        assert(all[a].0 <= at && at + count <= all[a].0 + all[a].1);
    }
}

/// The stretches of free slots are remembered in order.
proof fn lemma_stretches_ordered(data: Seq<u8>, n: int)
    requires
        0 <= n <= dir::slot_count(data),
        n <= u32::MAX,
    ensures
        forall|a: int, b: int|
            0 <= a < b < dir::free_of(data, n).len() ==> (#[trigger] dir::free_of(data, n)[a]).0 < (
            #[trigger] dir::free_of(data, n)[b]).0,
    decreases n,
{
    if n > 0 {
        lemma_stretches_ordered(data, n - 1);
        dir::lemma_free(data, n - 1);
        let before = dir::free_of(data, n - 1);
        let all = dir::free_of(data, n);
        assert forall|a: int, b: int| 0 <= a < b < all.len() implies (#[trigger] all[a]).0 < (
        #[trigger] all[b]).0 by {
            let (start, length) = before[a];
            if b < before.len() {
                assert(before[a].0 < before[b].0);
            }
        }
    }
}

/// The first stretch that is long enough is the first.
proof fn lemma_first_long_enough(free: Seq<(u32, u32)>, count: u32, a: int)
    requires
        0 <= a < free.len(),
        free[a].1 >= count,
    ensures
        exists|b: int|
            0 <= b <= a && (#[trigger] free[b]).1 >= count && dir::first_room(free, count) == Some(
                free[b].0,
            ),
    decreases free.len(),
{
    if free[0].1 >= count {
        assert(dir::first_room(free, count) == Some(free[0].0));
    } else {
        let rest = free.skip(1);
        assert(rest[a - 1] == free[a]);
        lemma_first_long_enough(rest, count, a - 1);
        let b = choose|b: int|
            0 <= b <= a - 1 && (#[trigger] rest[b]).1 >= count && dir::first_room(rest, count)
                == Some(rest[b].0);
        assert(free[b + 1] == rest[b]);
    }
}

/// Room for `count` slots is found wherever there are that many in a row that
/// are not in use, and nowhere else; and what is found starts no later than
/// any such place.
pub proof fn lemma_room_found(data: Seq<u8>, count: u32, codepage: Codepage)
    requires
        data.len() as int / 32 <= u32::MAX,
        dir::listing_of(data, codepage) is Ok,
        count > 0,
    ensures
        ({
            let room = dir::listing_of(data, codepage)->Ok_0.room_for(count);
            &&& room matches Some(at) ==> at + count <= data.len() as int / 32 && forall|i: int|
                at <= i < at + count ==> !#[trigger] used(data, i)
            &&& forall|at: int|
                (#[trigger] unused(data, at, count as int)) ==> room is Some && room->0 <= at
        }),
{
    let n = dir::slot_count(data);
    let free = dir::free_of(data, n);
    let listing = dir::listing_of(data, codepage)->Ok_0;
    if listing.room_for(count) is Some {
        listing::lemma_room(data, count, codepage);
        let at = listing.room_for(count)->0;
        assert forall|i: int| at <= i < at + count implies !#[trigger] used(data, i) by {
            assert(dir::is_free(data, i));
            lemma_slot_kinds(data, i);
        }
    }
    assert forall|at: int| (#[trigger] unused(data, at, count as int)) implies listing.room_for(
        count,
    ) is Some && listing.room_for(count)->0 <= at by {
        assert forall|i: int| at <= i < at + count implies #[trigger] dir::is_free(data, i) by {
            assert(!used(data, i));
            lemma_slot_kinds(data, i);
        }
        lemma_stretch(data, n, at, count as int);
        let a = choose|a: int|
            0 <= a < free.len() && (#[trigger] free[a]).0 <= at && at + count <= free[a].0
                + free[a].1;
        lemma_first_long_enough(free, count, a);
        lemma_stretches_ordered(data, n);
        let b = choose|b: int|
            0 <= b <= a && (#[trigger] free[b]).1 >= count && dir::first_room(free, count) == Some(
                free[b].0,
            );
        if b < a {
            assert(free[b].0 < free[a].0);
        }
    }
}

/// Whether `count` slots from `at` on are there and not in use.
pub open spec fn unused(data: Seq<u8>, at: int, count: int) -> bool {
    0 <= at && at + count <= data.len() as int / 32 && forall|i: int|
        at <= i < at + count ==> !#[trigger] used(data, i)
}

/// Whether a text is another but for the case of its letters.
pub open spec fn alike(a: Seq<char>, b: Seq<char>) -> bool {
    text::uppercase(a) == text::uppercase(b)
}

/// In an ASCII text letters count as the same in either case, and nothing else
/// does.
pub proof fn lemma_alike(a: Seq<char>, b: Seq<char>)
    requires
        forall|i: int| 0 <= i < a.len() ==> (#[trigger] a[i] as u32) < 128,
        forall|i: int| 0 <= i < b.len() ==> (#[trigger] b[i] as u32) < 128,
    ensures
        alike(a, b) <==> a.len() == b.len() && forall|i: int|
            0 <= i < a.len() ==> #[trigger] a[i] == b[i] || ('a' <= a[i] <= 'z' && b[i] as u32 + 32
                == a[i] as u32) || ('A' <= a[i] <= 'Z' && a[i] as u32 + 32 == b[i] as u32),
{
    reveal(text::uppercase);
    assert(text::all_ascii(a) && text::all_ascii(b));
    let (x, y) = (text::uppercase(a), text::uppercase(b));
    if alike(a, b) {
        assert(x.len() == a.len() && y.len() == b.len());
        assert forall|i: int| 0 <= i < a.len() implies #[trigger] a[i] == b[i] || ('a' <= a[i]
            <= 'z' && b[i] as u32 + 32 == a[i] as u32) || ('A' <= a[i] <= 'Z' && a[i] as u32 + 32
            == b[i] as u32) by {
            assert(x[i] == text::ascii_upper(a[i]) && y[i] == text::ascii_upper(b[i]));
        }
    }
    if a.len() == b.len() && forall|i: int|
        0 <= i < a.len() ==> #[trigger] a[i] == b[i] || ('a' <= a[i] <= 'z' && b[i] as u32 + 32
            == a[i] as u32) || ('A' <= a[i] <= 'Z' && a[i] as u32 + 32 == b[i] as u32) {
        assert forall|i: int| 0 <= i < a.len() implies x[i] == y[i] by {
            assert(a[i] == b[i] || ('a' <= a[i] <= 'z' && b[i] as u32 + 32 == a[i] as u32) || ('A'
                <= a[i] <= 'Z' && a[i] as u32 + 32 == b[i] as u32));
        }
        assert(x =~= y);
    }
}

/// Looking for a name finds an entry whenever one has it, as its long name or
/// as its 8.3 name, in whatever case, and never one that does not; long names
/// go before 8.3 names.
pub proof fn lemma_find(listing: Listing, name: Seq<char>)
    ensures
        listing.find(name) is None <==> forall|a: int|
            0 <= a < listing.entries.len() ==> !(#[trigger] listing.entries[a].long_name is Some
                && alike(listing.entries[a].long_name->0, name)) && !alike(
                listing.entries[a].short_display,
                name,
            ),
        listing.find(name) matches Some(entry) ==> {
            &&& exists|a: int| 0 <= a < listing.entries.len() && #[trigger] listing.entries[a] == entry
            &&& entry.long_name is Some && alike(entry.long_name->0, name) || alike(
                entry.short_display,
                name,
            )
            &&& !(entry.long_name is Some && alike(entry.long_name->0, name)) ==> forall|a: int|
                0 <= a < listing.entries.len() ==> !(#[trigger] listing.entries[a].long_name is Some
                    && alike(listing.entries[a].long_name->0, name))
        },
{
    let key = text::uppercase(name);
    listing::lemma_last_long_is_last(listing.entries, key);
    listing::lemma_first_short_is_first(listing.entries, key);
    if listing.find(name) is Some {
        dir::lemma_found(listing, name);
        let b = choose|b: int|
            0 <= b < listing.entries.len() && listing.find(name) == Some(
                #[trigger] listing.entries[b],
            );
        let entry = listing.entries[b];
        assert(listing::goes_by_long(entry, key) || listing::goes_by_short(entry, key));
        assert(listing.entries[b].long_name == entry.long_name);
        if !listing::goes_by_long(entry, key) {
            assert forall|a: int| 0 <= a < listing.entries.len() implies !(
            #[trigger] listing.entries[a].long_name is Some && alike(
                listing.entries[a].long_name->0,
                name,
            )) by {
                if listing::goes_by_long(listing.entries[a], key) {
                    assert(dir::last_long(listing.entries, key) is Some);
                }
            }
        }
    } else {
        assert forall|a: int| 0 <= a < listing.entries.len() implies !(
        #[trigger] listing.entries[a].long_name is Some && alike(
            listing.entries[a].long_name->0,
            name,
        )) && !alike(listing.entries[a].short_display, name) by {
            assert(!listing::goes_by_long(listing.entries[a], key));
            assert(!listing::goes_by_short(listing.entries[a], key));
        }
    }
}

/// An entry is a directory exactly if the fifth bit of its attributes is set,
/// whatever the others are; and goes by its long name, if it has one.
pub proof fn lemma_directory_bit(entry: EntryView)
    ensures
        entry.is_directory() <==> entry.attributes / 16 % 2 == 1,
        entry.name() == (match entry.long_name {
            Some(name) => name,
            None => entry.short_display,
        }),
{
    let attributes = entry.attributes;
    assert(attributes & 0x10 == 0x10 <==> attributes / 16 % 2 == 1) by (bit_vector);
}

/// The directories among a directory's entries are those whose slot has the
/// bit.
pub proof fn lemma_listed_directories(data: Seq<u8>, codepage: Codepage, a: int)
    requires
        data.len() as int / 32 <= u32::MAX,
        dir::listing_of(data, codepage) is Ok,
        0 <= a < dir::listing_of(data, codepage)->Ok_0.entries.len(),
    ensures
        ({
            let entry = dir::listing_of(data, codepage)->Ok_0.entries[a];
            entry.is_directory() <==> byte(data, entry.index as int, 11) / 16 % 2 == 1
        }),
{
    let entry = dir::listing_of(data, codepage)->Ok_0.entries[a];
    dir::lemma_entries(data, dir::slot_count(data), codepage);
    lemma_entry_fields(data, entry.index as int, codepage);
    lemma_directory_bit(entry);
}

/// A step of a path onto an entry with the directory bit leads to the cluster
/// that the entry names, or to the root where it names none; onto one without
/// it, and onto a name that no entry has, it leads nowhere.
pub proof fn lemma_step(volume: Volume, cluster: u32, name: Seq<char>)
    requires
        volume.read_dir(cluster).1 is Ok,
    ensures
        volume.enter(cluster, name).1 == (match volume.read_dir(cluster).1->Ok_0.find(name) {
            None => Err(Fault::NotFound { name }),
            Some(entry) => if entry.attributes / 16 % 2 == 0 {
                Err(Fault::NotADirectory { name })
            } else if entry.first_cluster == 0 {
                Ok(volume.boot.root_cluster)
            } else {
                Ok(entry.first_cluster)
            },
        }),
{
    if volume.read_dir(cluster).1->Ok_0.find(name) is Some {
        lemma_directory_bit(volume.read_dir(cluster).1->Ok_0.find(name)->0);
    }
}

/// Opening a path gives the file that its last part finds in the directory the
/// rest leads to: an entry with the directory bit is refused as a directory,
/// a name that no entry has is not found, and everything else is a file with
/// the length and the first cluster that its entry says.
pub proof fn lemma_opened(volume: Volume, path: Seq<char>, directory: u32, listing: Listing)
    requires
        ({
            let (walked, leads) = volume.resolve(
                volume.boot.root_cluster,
                operations::parent_of(path),
            );
            &&& leads == Ok::<u32, Fault>(directory)
            &&& walked.read_dir(directory).1 == Ok::<Listing, Fault>(listing)
        }),
    ensures
        ({
            let name = operations::name_of(path);
            match listing.find(name) {
                None => volume.open(path).1 == Err::<FileView, Fault>(Fault::NotFound { name }),
                Some(entry) => if entry.attributes / 16 % 2 == 1 {
                    volume.open(path).1 == Err::<FileView, Fault>(Fault::IsADirectory { name })
                } else {
                    &&& volume.open(path).1 is Ok
                    &&& volume.open(path).1->Ok_0.first_cluster == entry.first_cluster
                    &&& volume.open(path).1->Ok_0.size == entry.size
                    &&& volume.open(path).1->Ok_0.directory == directory
                    &&& volume.open(path).1->Ok_0.index == entry.index
                    &&& volume.open(path).1->Ok_0.short == entry.short
                },
            }
        }),
{
    reveal(Volume::open);
    reveal(Volume::look_up);
    if listing.find(operations::name_of(path)) is Some {
        lemma_directory_bit(listing.find(operations::name_of(path))->0);
    }
}

/// A file that was just opened is live: nothing is stale about its handle.
pub proof fn lemma_just_opened_is_live(volume: Volume, path: Seq<char>)
    requires
        volume.open(path).1 is Ok,
        ({
            let (walked, leads) = volume.resolve(
                volume.boot.root_cluster,
                operations::parent_of(path),
            );
            walked.read_dir(leads->Ok_0).1->Ok_0.wf()
        }),
    ensures
        volume.open(path).0.check_live(volume.open(path).1->Ok_0).1 is Ok,
{
    reveal(Volume::open);
    reveal(Volume::look_up);
    reveal(Volume::check_live);
    let (opened, result) = volume.open(path);
    let file = result->Ok_0;
    operations::lemma_open_looks(volume, path);
    let (walked, leads) = volume.resolve(volume.boot.root_cluster, operations::parent_of(path));
    let listing = walked.read_dir(leads->Ok_0).1->Ok_0;
    let name = operations::name_of(path);
    assert(opened.read_dir(file.directory).1 == Ok::<Listing, Fault>(listing)) by {
        reveal(Volume::read_dir);
    }
    dir::lemma_found(listing, name);
    let a = choose|a: int|
        0 <= a < listing.entries.len() && listing.find(name) == Some(#[trigger] listing.entries[a]);
    let at = choose|at: int|
        0 <= at < listing.entries.len() && listing.entries[at].index == file.index;
    assert(listing.entries[a].index == file.index);
    assert(at == a) by {
        if at < a {
            assert(listing.entries[at].index < listing.entries[a].index);
        } else if a < at {
            assert(listing.entries[a].index < listing.entries[at].index);
        }
    }
}

/// Whether an entry goes by one of the two names that every directory has for
/// itself and its parent.
pub open spec fn is_own_name(entry: EntryView) -> bool {
    let name = match entry.long_name {
        Some(name) => name,
        None => entry.short_display,
    };
    name == seq!['.'] || name == seq!['.', '.']
}

/// A directory is removed only if it lists nothing but itself and its parent,
/// by exactly those names: where it lists an entry by any other name, the
/// answer is that it is not empty, and nothing is changed.
pub proof fn lemma_only_empty_directories_go(volume: Volume, path: Seq<char>, a: int)
    requires
        path.len() == 0 || operations::plain(path).len() > 0,
        volume.look_up(operations::plain(path)).1 is Ok,
        ({
            let (found, result) = volume.look_up(operations::plain(path));
            let entry = result->Ok_0.1;
            let listed = found.read_dir(entry.first_cluster).1;
            &&& entry.attributes / 16 % 2 == 1
            &&& listed is Ok
            &&& 0 <= a < listed->Ok_0.entries.len()
            &&& !is_own_name(listed->Ok_0.entries[a])
        }),
    ensures
        volume.remove_dir(path).1 == Err::<(), Fault>(
            Fault::DirectoryNotEmpty { name: operations::name_of(path) },
        ),
        volume.remove_dir(path).0.looks_like(volume),
{
    let plain = operations::plain(path);
    operations::lemma_look_up_looks(volume, plain);
    let (found, result) = volume.look_up(plain);
    let entry = result->Ok_0.1;
    volume::lemma_read_dir_looks(found, entry.first_cluster);
    lemma_directory_bit(entry);
    let listing = found.read_dir(entry.first_cluster).1->Ok_0;
    let other = listing.entries[a];
    assert(!dir::is_dots(other.name())) by {
        if other.name().len() == 1 && other.name()[0] == '.' {
            assert(other.name() =~= seq!['.']);
        }
        if other.name().len() == 2 && other.name()[0] == '.' && other.name()[1] == '.' {
            assert(other.name() =~= seq!['.', '.']);
        }
    }
    assert(!listing.is_vacant());
}

/// Removing a directory takes a path to a directory: one to a file is refused
/// as that, and one to nothing is not found.
pub proof fn lemma_remove_dir_takes_directories(volume: Volume, path: Seq<char>)
    requires
        path.len() == 0 || operations::plain(path).len() > 0,
    ensures
        ({
            let plain = operations::plain(path);
            match volume.look_up(plain).1 {
                Err(fault) => volume.remove_dir(path).1 == Err::<(), Fault>(fault),
                Ok((parent, entry)) => entry.attributes / 16 % 2 == 0 ==> volume.remove_dir(path).1
                    == Err::<(), Fault>(
                    Fault::NotADirectory { name: operations::name_of(plain) },
                ),
            }
        }),
{
    if volume.look_up(operations::plain(path)).1 is Ok {
        lemma_directory_bit(volume.look_up(operations::plain(path)).1->Ok_0.1);
    }
}

/// A path that does not end in a single period is its own plain form, and a
/// single period at its end is left out of it, with the slashes before it.
pub proof fn lemma_plain_paths(path: Seq<char>)
    ensures
        operations::name_of(path) != seq!['.'] ==> operations::plain(path) == path,
        operations::name_of(path) == seq!['.'] ==> operations::plain(path) == operations::plain(
            operations::trimmed(operations::parent_of(path)),
        ),
        path.len() > 0 && path.last() != '/' ==> operations::plain(path + seq!['/', '.'])
            == operations::plain(path),
{
    if path.len() > 0 && path.last() != '/' {
        let longer = path + seq!['/', '.'];
        let name = seq!['.'];
        assert(longer =~= path + seq!['/'] + name);
        crate::paths::lemma_parent_and_name(path, name);
        assert(operations::trimmed(path) == path);
    }
}

/// Of a path only slashes are cut off its end, and all of them.
pub proof fn lemma_cut_slashes(path: Seq<char>)
    ensures
        ({
            let left = operations::trimmed(path);
            &&& left.len() <= path.len()
            &&& left == path.take(left.len() as int)
            &&& forall|i: int| left.len() <= i < path.len() ==> #[trigger] path[i] == '/'
            &&& left.len() > 0 ==> left.last() != '/'
        }),
    decreases path.len(),
{
    operations::lemma_trimmed(path);
    if path.len() > 0 && path.last() == '/' {
        lemma_cut_slashes(path.drop_last());
        let left = operations::trimmed(path);
        assert forall|i: int| left.len() <= i < path.len() implies #[trigger] path[i] == '/' by {
            if i < path.len() - 1 {
                assert(path.drop_last()[i] == path[i]);
            }
        }
    }
}

/// The root is not removed, by whatever single periods it is named: it is not
/// found, and nothing changes.
pub proof fn lemma_root_stays(volume: Volume, path: Seq<char>)
    requires
        path.len() > 0,
        operations::plain(path).len() == 0,
    ensures
        operations::name_of(path) == seq!['.'],
        volume.remove_dir(path) == (
            volume,
            Err::<(), Fault>(Fault::NotFound { name: seq!['.'] }),
        ),
{
    assert(operations::name_of(path) =~= seq!['.']);
}

} // verus!
