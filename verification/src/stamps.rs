//! What the times of an entry read back as: the moment it was made at, and the
//! moment of the last write that made its file longer.
use vstd::prelude::*;

use crate::creation;
use crate::dir;
use crate::dir::EntryView;
use crate::fs;
use crate::laws;
use crate::listing;
use crate::operations::FileView;
use crate::time;
use crate::time::DateTime;
use crate::volume::Volume;

verus! {

/// Whether a moment exists, in the years that a stored date can hold.
pub open spec fn storable(at: DateTime) -> bool {
    at.exists_in_calendar() && time::FIRST_YEAR <= at.year <= time::LAST_YEAR
}

/// A moment down to hundredths of a second: what is kept of when an entry was
/// made.
pub open spec fn to_hundredths(at: DateTime) -> DateTime {
    DateTime { millisecond: (at.millisecond / 10 * 10) as u16, ..at }
}

/// A moment down to even seconds: what is kept of the last change.
pub open spec fn to_even_seconds(at: DateTime) -> DateTime {
    DateTime { second: (at.second / 2 * 2) as u8, millisecond: 0, ..at }
}

/// The start of a moment's day: what is kept of the last access.
pub open spec fn to_day(at: DateTime) -> DateTime {
    DateTime { hour: 0, minute: 0, second: 0, millisecond: 0, ..at }
}

/// The three times of an entry that was stamped at one moment.
pub proof fn lemma_stamped(entry: EntryView, now: DateTime)
    requires
        dir::stamped(entry, now),
        storable(now),
    ensures
        entry.created == to_hundredths(now),
        entry.modified == to_even_seconds(now),
        entry.accessed == to_day(now),
{
    time::lemma_pack_round_trip(now);
    time::lemma_even_seconds(now);
    time::lemma_start_of_day(now);
}

/// A file that is created has the three times of its making, each as far as it
/// is stored, in the entry that its directory lists.
pub proof fn lemma_created_times(volume: Volume, path: Seq<char>, size: u32, now: DateTime)
    requires
        volume.laid_out(),
        volume.fits(),
        volume.create(path, size, now).1 is Ok,
        volume.coherent_at(volume.create(path, size, now).1->Ok_0.directory),
        creation::numbered(
            volume,
            volume.create(path, size, now).1->Ok_0.directory,
            fs::MAX_DIRECTORY_GROWTH as int,
        ),
        storable(now),
    ensures
        ({
            let (after, result) = volume.create(path, size, now);
            let file = result->Ok_0;
            let listed = after.read_dir(file.directory).1;
            let entry = listed->Ok_0.entry_at(file.index);
            &&& listed is Ok
            &&& entry is Some
            &&& entry->0.created == to_hundredths(now)
            &&& entry->0.modified == to_even_seconds(now)
            &&& entry->0.accessed == to_day(now)
        }),
{
    let (after, result) = volume.create(path, size, now);
    let file = result->Ok_0;
    lemma_new_entry(volume, path, size, now);
    laws::lemma_read_dir(after, file.directory);
    lemma_stamped(after.stored_listing(file.directory)->Ok_0.entry_at(file.index)->0, now);
}

/// The entry of a file that was created is in its slot, with its stamps.
proof fn lemma_new_entry(volume: Volume, path: Seq<char>, size: u32, now: DateTime)
    requires
        volume.laid_out(),
        volume.fits(),
        volume.create(path, size, now).1 is Ok,
        volume.coherent_at(volume.create(path, size, now).1->Ok_0.directory),
        creation::numbered(
            volume,
            volume.create(path, size, now).1->Ok_0.directory,
            fs::MAX_DIRECTORY_GROWTH as int,
        ),
    ensures
        ({
            let (after, result) = volume.create(path, size, now);
            let file = result->Ok_0;
            let entry = after.stored_listing(file.directory)->Ok_0.entry_at(file.index);
            &&& after.laid_out()
            &&& after.fits()
            &&& after.holds(file)
            &&& file.size == 0
            &&& size == 0 ==> file.first_cluster == 0
            &&& entry is Some
            &&& dir::stamped(entry->0, now)
        }),
{
    creation::lemma_create(volume, path, size, now);
    reveal(creation::created);
    let (after, result) = volume.create(path, size, now);
    let file = result->Ok_0;
    listing::lemma_entry_at(after.stored(file.directory), file.index, after.codepage);
}

/// A file that is made at one moment and first written to at another has the
/// one as the moment it was made at, the other as that of its last change, and
/// the length of what was written.
pub proof fn lemma_made_and_written(
    volume: Volume,
    path: Seq<char>,
    data: Seq<u8>,
    made: DateTime,
    written: DateTime,
)
    requires
        volume.laid_out(),
        volume.fits(),
        volume.create(path, 0, made).1 is Ok,
        volume.coherent_at(volume.create(path, 0, made).1->Ok_0.directory),
        creation::numbered(
            volume,
            volume.create(path, 0, made).1->Ok_0.directory,
            fs::MAX_DIRECTORY_GROWTH as int,
        ),
        data.len() > 0,
        volume.create(path, 0, made).0.write_file_at(
            volume.create(path, 0, made).1->Ok_0,
            0,
            data,
            written,
        ).2 is Ok,
        storable(made),
        storable(written),
    ensures
        ({
            let (empty, result) = volume.create(path, 0, made);
            let file = result->Ok_0;
            let after = empty.write_file_at(file, 0, data, written).0;
            let listed = after.read_dir(file.directory).1;
            let entry = listed->Ok_0.entry_at(file.index);
            &&& listed is Ok
            &&& entry is Some
            &&& entry->0.created == to_hundredths(made)
            &&& entry->0.accessed == to_day(made)
            &&& entry->0.modified == to_even_seconds(written)
            &&& entry->0.size == data.len()
        }),
{
    let (empty, result) = volume.create(path, 0, made);
    let file = result->Ok_0;
    lemma_new_entry(volume, path, 0, made);
    let entry = empty.stored_listing(file.directory)->Ok_0.entry_at(file.index)->0;
    lemma_stamped(entry, made);
    lemma_first_write(empty, file, data, written);
    time::lemma_even_seconds(written);
}

/// The entry of a file of no length after the first write to it.
proof fn lemma_first_write(volume: Volume, file: FileView, data: Seq<u8>, now: DateTime)
    requires
        volume.laid_out(),
        volume.fits(),
        volume.holds(file),
        file.size == 0,
        file.first_cluster == 0,
        data.len() > 0,
        volume.write_file_at(file, 0, data, now).2 is Ok,
    ensures
        ({
            let after = volume.write_file_at(file, 0, data, now).0;
            let listed = after.read_dir(file.directory).1;
            let before = volume.stored_listing(file.directory)->Ok_0.entry_at(file.index)->0;
            let entry = listed->Ok_0.entry_at(file.index);
            &&& listed is Ok
            &&& entry is Some
            &&& entry->0.created == before.created
            &&& entry->0.accessed == before.accessed
            &&& entry->0.modified == dir::modified_at(now)
            &&& entry->0.size == data.len()
        }),
{
    laws::lemma_write_reads_back(volume, file, 0, data, now);
    let after = volume.write_file_at(file, 0, data, now).0;
    laws::lemma_read_dir(after, file.directory);
}

} // verus!
