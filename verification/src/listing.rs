//! What a change to some of a directory's slots does to its listing.
use vstd::prelude::*;

use crate::bytes;
use crate::codepage::Codepage;
use crate::dir;
use crate::dir::{EntryView, Listing};
use crate::text;

verus! {

/// A slot in use is either a piece of a long name or not; an entry is not.
pub proof fn lemma_entry_not_long(data: Seq<u8>, i: int)
    ensures
        dir::is_entry(data, i) ==> !dir::is_long(data, i) && !dir::is_free(data, i),
        dir::is_long(data, i) ==> !dir::is_entry(data, i) && !dir::is_free(data, i),
        dir::is_free(data, i) ==> !dir::is_entry(data, i) && !dir::is_long(data, i),
{
    assert(0x0Fu8 & 0x08u8 == 0x08u8) by (bit_vector);
}

/// A long name starts in one place only.
proof fn lemma_names_once(data: Seq<u8>, s: int, t: int, i: int, sum: u8)
    requires
        dir::names(data, s, i, sum),
        dir::names(data, t, i, sum),
    ensures
        s == t,
{
    if s < t {
        assert(dir::is_long(data, t));
    } else if t < s {
        assert(dir::is_long(data, s));
    }
}

/// Whether two directories have the same slots from `lo` up to `hi`.
pub open spec fn same_slots(a: Seq<u8>, b: Seq<u8>, lo: int, hi: int) -> bool {
    forall|k: int| lo <= k < hi ==> #[trigger] dir::slot(a, k) == dir::slot(b, k)
}

/// Whether no long name goes on past the start of slot `lo`.
pub open spec fn fresh(data: Seq<u8>, lo: int) -> bool {
    lo == 0 || !dir::is_long(data, lo - 1)
}

/// The start of the long-name slots before `i` is the same where those are.
proof fn lemma_run_start_same(a: Seq<u8>, b: Seq<u8>, lo: int, i: int)
    requires
        0 <= lo <= i,
        same_slots(a, b, lo, i),
        fresh(a, lo),
        fresh(b, lo),
    ensures
        dir::run_start(a, i) == dir::run_start(b, i),
        lo <= dir::run_start(a, i) <= i,
    decreases i,
{
    if i > lo {
        assert(dir::slot(a, i - 1) == dir::slot(b, i - 1));
        assert(dir::is_long(a, i - 1) == dir::is_long(b, i - 1));
        if dir::is_long(a, i - 1) {
            lemma_run_start_same(a, b, lo, i - 1);
        }
    }
}

/// A long name is the same where its slots are.
proof fn lemma_names_same(a: Seq<u8>, b: Seq<u8>, lo: int, i: int, s: int, sum: u8)
    requires
        0 <= lo <= i,
        same_slots(a, b, lo, i),
        fresh(a, lo),
        dir::names(a, s, i, sum),
    ensures
        lo <= s,
        dir::names(b, s, i, sum),
{
    if s < lo {
        assert(dir::is_long(a, lo - 1));
    }
    assert(dir::slot(a, s) == dir::slot(b, s));
    assert forall|t: int| s < t < i implies {
        &&& #[trigger] dir::is_long(b, t)
        &&& dir::slot(b, t)[0] == dir::announced(b, s) - (t - s)
        &&& dir::slot(b, t)[0x0D] == dir::slot(b, s)[0x0D]
    } by {
        assert(dir::is_long(a, t));
        assert(dir::slot(a, t) == dir::slot(b, t));
    }
}

/// An entry's long name depends on the slots before it that belong to it.
proof fn lemma_long_name_same(a: Seq<u8>, b: Seq<u8>, lo: int, i: int)
    requires
        0 <= lo <= i,
        same_slots(a, b, lo, i),
        dir::slot(a, i).subrange(0, 11) == dir::slot(b, i).subrange(0, 11),
        fresh(a, lo),
        fresh(b, lo),
    ensures
        dir::long_name_of(a, i) == dir::long_name_of(b, i),
{
    let sum = dir::checksum_of(dir::slot(a, i).subrange(0, 11));
    if exists|s: int| dir::names(a, s, i, sum) {
        let s = choose|s: int| dir::names(a, s, i, sum);
        lemma_names_same(a, b, lo, i, s, sum);
        let t = choose|t: int| dir::names(b, t, i, sum);
        lemma_names_once(b, s, t, i, sum);
        let (x, y) = (dir::name_units(a, i, i - s), dir::name_units(b, i, i - s));
        assert(x =~= y) by {
            assert forall|q: int| 0 <= q < 13 * (i - s) implies x[q] == y[q] by {
                assert(dir::slot(a, i - 1 - q / 13) == dir::slot(b, i - 1 - q / 13));
            }
        }
    } else if exists|s: int| dir::names(b, s, i, sum) {
        let s = choose|s: int| dir::names(b, s, i, sum);
        lemma_names_same(b, a, lo, i, s, sum);
    }
}

/// An entry depends on its own slot and on the slots before it that belong to
/// it.
pub proof fn lemma_entry_same(a: Seq<u8>, b: Seq<u8>, lo: int, i: int, codepage: Codepage)
    requires
        0 <= lo <= i,
        same_slots(a, b, lo, i + 1),
        fresh(a, lo),
        fresh(b, lo),
    ensures
        dir::entry_of(a, i, codepage) == dir::entry_of(b, i, codepage),
        dir::is_entry(a, i) == dir::is_entry(b, i),
        dir::is_free(a, i) == dir::is_free(b, i),
        dir::is_long(a, i) == dir::is_long(b, i),
{
    assert(dir::slot(a, i) == dir::slot(b, i));
    lemma_run_start_same(a, b, lo, i);
    lemma_long_name_same(a, b, lo, i);
}

/// The entries before a change are the same.
pub proof fn lemma_entries_prefix(a: Seq<u8>, b: Seq<u8>, n: int, codepage: Codepage)
    requires
        same_slots(a, b, 0, n),
    ensures
        dir::entries_of(a, n, codepage) == dir::entries_of(b, n, codepage),
    decreases n,
{
    if n > 0 {
        lemma_entries_prefix(a, b, n - 1, codepage);
        lemma_entry_same(a, b, 0, n - 1, codepage);
    }
}

/// The entries in slots from `lo` up to `hi`.
pub open spec fn entries_between(data: Seq<u8>, lo: int, hi: int, codepage: Codepage) -> Seq<
    EntryView,
>
    decreases hi - lo,
{
    if hi <= lo {
        Seq::empty()
    } else if dir::is_entry(data, hi - 1) {
        entries_between(data, lo, hi - 1, codepage).push(dir::entry_of(data, hi - 1, codepage))
    } else {
        entries_between(data, lo, hi - 1, codepage)
    }
}

/// The entries are those before a slot and those from it on.
pub proof fn lemma_entries_split(data: Seq<u8>, lo: int, n: int, codepage: Codepage)
    requires
        0 <= lo <= n,
    ensures
        dir::entries_of(data, n, codepage) == dir::entries_of(data, lo, codepage)
            + entries_between(data, lo, n, codepage),
    decreases n,
{
    if lo < n {
        lemma_entries_split(data, lo, n - 1, codepage);
        assert(dir::entries_of(data, n, codepage) =~= dir::entries_of(data, lo, codepage)
            + entries_between(data, lo, n, codepage));
    } else {
        assert(dir::entries_of(data, n, codepage) =~= dir::entries_of(data, lo, codepage)
            + entries_between(data, lo, n, codepage));
    }
}

/// The entries after a change are the same.
pub proof fn lemma_entries_suffix(a: Seq<u8>, b: Seq<u8>, lo: int, n: int, codepage: Codepage)
    requires
        0 <= lo <= n,
        same_slots(a, b, lo, n),
        fresh(a, lo),
        fresh(b, lo),
    ensures
        entries_between(a, lo, n, codepage) == entries_between(b, lo, n, codepage),
    decreases n,
{
    if lo < n {
        lemma_entries_suffix(a, b, lo, n - 1, codepage);
        lemma_entry_same(a, b, lo, n - 1, codepage);
    }
}

/// Slots that hold no entry add none.
pub proof fn lemma_no_entries(data: Seq<u8>, lo: int, hi: int, codepage: Codepage)
    requires
        forall|k: int| lo <= k < hi ==> !#[trigger] dir::is_entry(data, k),
    ensures
        entries_between(data, lo, hi, codepage) == Seq::<EntryView>::empty(),
    decreases hi - lo,
{
    if lo < hi {
        lemma_no_entries(data, lo, hi - 1, codepage);
        assert(!dir::is_entry(data, hi - 1));
    }
}

/// The entries of a directory around a stretch of slots.
pub proof fn lemma_entries_around(data: Seq<u8>, lo: int, hi: int, n: int, codepage: Codepage)
    requires
        0 <= lo <= hi <= n,
    ensures
        dir::entries_of(data, n, codepage) == dir::entries_of(data, lo, codepage)
            + entries_between(data, lo, hi, codepage) + entries_between(data, hi, n, codepage),
{
    lemma_entries_split(data, hi, n, codepage);
    lemma_entries_split(data, lo, hi, codepage);
}

/// A directory that has no entry past its end has no stray one.
pub proof fn lemma_no_stray(data: Seq<u8>, n: int)
    ensures
        dir::first_stray(data, n) is None <==> forall|i: int|
            0 <= i < n ==> !#[trigger] dir::is_stray(data, i),
    decreases n,
{
    if n > 0 {
        lemma_no_stray(data, n - 1);
        if dir::first_stray(data, n) is None {
            assert forall|i: int| 0 <= i < n implies !#[trigger] dir::is_stray(data, i) by {
                if i < n - 1 {
                    assert(!dir::is_stray(data, i));
                }
            }
        } else if dir::first_stray(data, n - 1) is Some {
            let i = choose|i: int| 0 <= i < n - 1 && dir::is_stray(data, i);
            assert(dir::is_stray(data, i));
        } else {
            assert(dir::is_stray(data, n - 1));
        }
    }
}

/// A directory with a new entry, and the slots of its long name, in slots
/// that were free: it lists what it did before, and the new entry.
pub proof fn lemma_inserted(
    data: Seq<u8>,
    after: Seq<u8>,
    at: int,
    count: int,
    codepage: Codepage,
)
    requires
        after.len() == data.len(),
        0 <= at,
        0 < count,
        at + count <= dir::slot_count(data),
        same_slots(data, after, 0, at),
        same_slots(data, after, at + count, dir::slot_count(data)),
        forall|k: int| at <= k < at + count ==> #[trigger] dir::is_free(data, k),
        forall|k: int| at <= k < at + count - 1 ==> #[trigger] dir::is_long(after, k),
        dir::is_entry(after, at + count - 1),
        at == 0 || !dir::is_free(data, at - 1),
        dir::listing_of(data, codepage) is Ok,
    ensures
        dir::listing_of(after, codepage) is Ok,
        ({
            let n = dir::slot_count(data);
            let head = dir::entries_of(data, at, codepage);
            let tail = entries_between(data, at + count, n, codepage);
            &&& dir::listing_of(data, codepage)->Ok_0.entries == head + tail
            &&& dir::listing_of(after, codepage)->Ok_0.entries == head.push(
                dir::entry_of(after, at + count - 1, codepage),
            ) + tail
        }),
{
    let n = dir::slot_count(data);
    let end = at + count;
    let head = dir::entries_of(data, at, codepage);
    let tail = entries_between(data, end, n, codepage);
    let new = dir::entry_of(after, end - 1, codepage);
    lemma_no_stray(data, n);
    lemma_no_stray(after, n);
    assert forall|i: int| 0 <= i < n implies !#[trigger] dir::is_stray(after, i) by {
        if dir::is_stray(after, i) {
            let j = choose|j: int| 0 <= j < i && #[trigger] dir::is_end(after, j);
            if at <= j < end {
                if j < end - 1 {
                    assert(dir::is_long(after, j));
                }
            } else {
                assert(dir::slot(data, j) == dir::slot(after, j));
                assert(dir::is_end(data, j));
                if at <= i < end {
                    // Everything after an end marker is free, so a stretch of
                    // free slots cannot start later than it.
                    assert(!dir::is_stray(data, at - 1));
                } else {
                    assert(dir::slot(data, i) == dir::slot(after, i));
                    assert(dir::is_stray(data, i));
                }
            }
        }
    }
    lemma_entries_around(data, at, end, n, codepage);
    lemma_entries_around(after, at, end, n, codepage);
    lemma_entries_prefix(data, after, at, codepage);
    assert(dir::is_free(data, end - 1));
    lemma_entry_not_long(data, end - 1);
    lemma_entry_not_long(after, end - 1);
    lemma_entries_suffix(data, after, end, n, codepage);
    assert forall|k: int| at <= k < end implies !#[trigger] dir::is_entry(data, k) by {
        assert(dir::is_free(data, k));
    }
    lemma_no_entries(data, at, end, codepage);
    assert forall|k: int| at <= k < end - 1 implies !#[trigger] dir::is_entry(after, k) by {
        assert(dir::is_long(after, k));
        lemma_entry_not_long(after, k);
    }
    lemma_no_entries(after, at, end - 1, codepage);
    assert(entries_between(after, at, end, codepage) == Seq::<EntryView>::empty().push(new));
    assert(head + Seq::<EntryView>::empty() + tail =~= head + tail);
    assert(head + Seq::<EntryView>::empty().push(new) + tail =~= head.push(new) + tail);
}

/// A directory with one entry changed in place, beyond its name and its
/// attributes: it lists what it did before, with that entry changed.
pub proof fn lemma_updated(data: Seq<u8>, after: Seq<u8>, i: int, codepage: Codepage)
    requires
        after.len() == data.len(),
        0 <= i < dir::slot_count(data),
        same_slots(data, after, 0, i),
        same_slots(data, after, i + 1, dir::slot_count(data)),
        dir::is_entry(data, i),
        dir::slot(after, i).take(0x14) == dir::slot(data, i).take(0x14),
        dir::listing_of(data, codepage) is Ok,
    ensures
        dir::listing_of(after, codepage) is Ok,
        ({
            let n = dir::slot_count(data);
            let head = dir::entries_of(data, i, codepage);
            let tail = entries_between(data, i + 1, n, codepage);
            let old_entry = dir::entry_of(data, i, codepage);
            let new_entry = dir::entry_of(after, i, codepage);
            &&& dir::listing_of(data, codepage)->Ok_0.entries == head.push(old_entry) + tail
            &&& dir::listing_of(after, codepage)->Ok_0.entries == head.push(new_entry) + tail
            &&& new_entry == (EntryView {
                first_cluster: new_entry.first_cluster,
                size: new_entry.size,
                modified: new_entry.modified,
                ..old_entry
            })
        }),
{
    let n = dir::slot_count(data);
    let head = dir::entries_of(data, i, codepage);
    let tail = entries_between(data, i + 1, n, codepage);
    let old_entry = dir::entry_of(data, i, codepage);
    let new_entry = dir::entry_of(after, i, codepage);
    let (x, y) = (dir::slot(data, i), dir::slot(after, i));
    assert forall|b: int| 0 <= b < 0x14 implies x[b] == y[b] by {
        assert(x.take(0x14)[b] == y.take(0x14)[b]);
    }
    assert(x.subrange(0, 11) =~= y.subrange(0, 11));
    assert(dir::is_entry(after, i));
    lemma_no_stray(data, n);
    lemma_no_stray(after, n);
    assert forall|k: int| 0 <= k < n implies !#[trigger] dir::is_stray(after, k) by {
        if dir::is_stray(after, k) {
            let j = choose|j: int| 0 <= j < k && #[trigger] dir::is_end(after, j);
            if j != i {
                assert(dir::slot(data, j) == dir::slot(after, j));
            }
            assert(dir::is_end(data, j));
            if k != i {
                assert(dir::slot(data, k) == dir::slot(after, k));
            }
            assert(dir::is_stray(data, k));
        }
    }
    lemma_entries_around(data, i, i + 1, n, codepage);
    lemma_entries_around(after, i, i + 1, n, codepage);
    lemma_entries_prefix(data, after, i, codepage);
    lemma_entry_not_long(data, i);
    lemma_entry_not_long(after, i);
    lemma_entries_suffix(data, after, i + 1, n, codepage);
    lemma_no_entries(data, i, i, codepage);
    lemma_no_entries(after, i, i, codepage);
    assert(entries_between(data, i, i + 1, codepage) == Seq::<EntryView>::empty().push(old_entry));
    assert(entries_between(after, i, i + 1, codepage) == Seq::<EntryView>::empty().push(new_entry));
    assert(head + Seq::<EntryView>::empty().push(old_entry) + tail =~= head.push(old_entry) + tail);
    assert(head + Seq::<EntryView>::empty().push(new_entry) + tail =~= head.push(new_entry) + tail);
    lemma_run_start_same(data, after, 0, i);
    lemma_long_name_same(data, after, 0, i);
}

/// A directory with one entry and its long name deleted: it lists what it did
/// before, without that entry.
pub proof fn lemma_deleted(data: Seq<u8>, after: Seq<u8>, first: int, i: int, codepage: Codepage)
    requires
        after.len() == data.len(),
        0 <= first <= i < dir::slot_count(data),
        same_slots(data, after, 0, first),
        same_slots(data, after, i + 1, dir::slot_count(data)),
        dir::is_entry(data, i),
        forall|k: int| first <= k < i ==> #[trigger] dir::is_long(data, k),
        forall|k: int| first <= k <= i ==> (#[trigger] dir::slot(after, k))[0] == dir::DELETED,
        dir::listing_of(data, codepage) is Ok,
    ensures
        dir::listing_of(after, codepage) is Ok,
        ({
            let n = dir::slot_count(data);
            let head = dir::entries_of(data, first, codepage);
            let tail = entries_between(data, i + 1, n, codepage);
            &&& dir::listing_of(data, codepage)->Ok_0.entries == head.push(
                dir::entry_of(data, i, codepage),
            ) + tail
            &&& dir::listing_of(after, codepage)->Ok_0.entries == head + tail
        }),
{
    let n = dir::slot_count(data);
    let head = dir::entries_of(data, first, codepage);
    let tail = entries_between(data, i + 1, n, codepage);
    let gone = dir::entry_of(data, i, codepage);
    lemma_no_stray(data, n);
    lemma_no_stray(after, n);
    assert forall|k: int| 0 <= k < n implies !#[trigger] dir::is_stray(after, k) by {
        if dir::is_stray(after, k) {
            let j = choose|j: int| 0 <= j < k && #[trigger] dir::is_end(after, j);
            if first <= j <= i {
                assert(dir::slot(after, j)[0] == dir::DELETED);
            }
            assert(dir::slot(data, j) == dir::slot(after, j));
            assert(dir::is_end(data, j));
            if first <= k <= i {
                assert(dir::slot(after, k)[0] == dir::DELETED);
            }
            assert(dir::slot(data, k) == dir::slot(after, k));
            assert(dir::is_stray(data, k));
        }
    }
    lemma_entries_around(data, first, i + 1, n, codepage);
    lemma_entries_around(after, first, i + 1, n, codepage);
    lemma_entries_prefix(data, after, first, codepage);
    lemma_entry_not_long(data, i);
    assert(dir::slot(after, i)[0] == dir::DELETED);
    lemma_entries_suffix(data, after, i + 1, n, codepage);
    assert forall|k: int| first <= k < i implies !#[trigger] dir::is_entry(data, k) by {
        assert(dir::is_long(data, k));
        lemma_entry_not_long(data, k);
    }
    lemma_no_entries(data, first, i, codepage);
    assert forall|k: int| first <= k < i + 1 implies !#[trigger] dir::is_entry(after, k) by {
        assert(dir::slot(after, k)[0] == dir::DELETED);
    }
    lemma_no_entries(after, first, i + 1, codepage);
    assert(entries_between(data, first, i + 1, codepage) == Seq::<EntryView>::empty().push(gone));
    assert(head + Seq::<EntryView>::empty() + tail =~= head + tail);
    assert(head + Seq::<EntryView>::empty().push(gone) + tail =~= head.push(gone) + tail);
}

/// A directory with zeros after its slots lists what it did before.
pub proof fn lemma_lengthened(data: Seq<u8>, more: nat, codepage: Codepage)
    requires
        data.len() % 32 == 0,
        more % 32 == 0,
        dir::listing_of(data, codepage) is Ok,
    ensures
        dir::listing_of(data + bytes::zeros(more), codepage) is Ok,
        dir::listing_of(data + bytes::zeros(more), codepage)->Ok_0.entries == dir::listing_of(
            data,
            codepage,
        )->Ok_0.entries,
{
    let n = dir::slot_count(data);
    let after = data + bytes::zeros(more);
    let m = dir::slot_count(after);
    assert forall|k: int| 0 <= k < n implies #[trigger] dir::slot(data, k) == dir::slot(after, k) by {
        assert(dir::slot(data, k) =~= dir::slot(after, k));
    }
    assert forall|k: int| n <= k < m implies #[trigger] dir::is_free(after, k) by {
        assert(dir::slot(after, k)[0] == after[32 * k]);
    }
    lemma_no_stray(data, n);
    lemma_no_stray(after, m);
    assert forall|k: int| 0 <= k < m implies !#[trigger] dir::is_stray(after, k) by {
        if dir::is_stray(after, k) {
            assert(k < n) by {
                if k >= n {
                    assert(dir::is_free(after, k));
                }
            }
            let j = choose|j: int| 0 <= j < k && #[trigger] dir::is_end(after, j);
            assert(dir::slot(data, j) == dir::slot(after, j));
            assert(dir::is_end(data, j));
            assert(dir::slot(data, k) == dir::slot(after, k));
            assert(dir::is_stray(data, k));
        }
    }
    lemma_entries_prefix(data, after, n, codepage);
    lemma_entries_split(after, n, m, codepage);
    assert forall|k: int| n <= k < m implies !#[trigger] dir::is_entry(after, k) by {
        assert(dir::is_free(after, k));
    }
    lemma_no_entries(after, n, m, codepage);
    assert(dir::entries_of(after, n, codepage) + Seq::<EntryView>::empty() =~= dir::entries_of(
        after,
        n,
        codepage,
    ));
}

/// Whether an entry's long name has this uppercase form.
pub open spec fn goes_by_long(entry: EntryView, key: Seq<char>) -> bool {
    entry.long_name is Some && text::uppercase(entry.long_name->0) == key
}

/// Whether an entry's 8.3 name, as shown, has this uppercase form.
pub open spec fn goes_by_short(entry: EntryView, key: Seq<char>) -> bool {
    text::uppercase(entry.short_display) == key
}

/// The match by long name is the last there is.
pub proof fn lemma_last_long_is_last(entries: Seq<EntryView>, key: Seq<char>)
    ensures
        match dir::last_long(entries, key) {
            Some(at) => {
                &&& 0 <= at < entries.len()
                &&& goes_by_long(entries[at], key)
                &&& forall|j: int|
                    at < j < entries.len() ==> !goes_by_long(#[trigger] entries[j], key)
            },
            None => forall|j: int|
                0 <= j < entries.len() ==> !goes_by_long(#[trigger] entries[j], key),
        },
    decreases entries.len(),
{
    if entries.len() > 0 {
        let fewer = entries.drop_last();
        lemma_last_long_is_last(fewer, key);
        if !goes_by_long(entries.last(), key) {
            assert forall|j: int| 0 <= j < entries.len() && j < fewer.len() implies #[trigger] entries[j]
                == fewer[j] by {}
        }
    }
}

/// The match by 8.3 name is the first there is.
pub proof fn lemma_first_short_is_first(entries: Seq<EntryView>, key: Seq<char>)
    ensures
        match dir::first_short(entries, key) {
            Some(at) => {
                &&& 0 <= at < entries.len()
                &&& goes_by_short(entries[at], key)
                &&& forall|j: int| 0 <= j < at ==> !goes_by_short(#[trigger] entries[j], key)
            },
            None => forall|j: int|
                0 <= j < entries.len() ==> !goes_by_short(#[trigger] entries[j], key),
        },
    decreases entries.len(),
{
    if entries.len() > 0 {
        let fewer = entries.drop_last();
        lemma_first_short_is_first(fewer, key);
        assert forall|j: int| 0 <= j < fewer.len() implies #[trigger] entries[j] == fewer[j] by {}
    }
}

/// An entry that is added is found by its names, where nothing was, and what
/// was found by other names still is.
pub proof fn lemma_find_inserted(
    before: Listing,
    after: Listing,
    head: Seq<EntryView>,
    tail: Seq<EntryView>,
    entry: EntryView,
    name: Seq<char>,
)
    requires
        before.entries == head + tail,
        after.entries == head.push(entry) + tail,
    ensures
        ({
            let key = text::uppercase(name);
            let known = goes_by_long(entry, key) || goes_by_short(entry, key);
            &&& !known ==> after.find(name) == before.find(name)
            &&& known && before.find(name) is None ==> after.find(name) == Some(entry)
        }),
{
    let key = text::uppercase(name);
    let (a, b) = (before.entries, after.entries);
    let k = head.len() as int;
    lemma_last_long_is_last(a, key);
    lemma_last_long_is_last(b, key);
    lemma_first_short_is_first(a, key);
    lemma_first_short_is_first(b, key);
    assert(b[k] == entry);
    assert forall|j: int| 0 <= j < k implies #[trigger] b[j] == a[j] by {}
    assert forall|j: int| k <= j < a.len() implies #[trigger] b[j + 1] == a[j] by {}
    assert forall|j: int| k < j < b.len() implies #[trigger] b[j] == a[j - 1] by {}
    let back = |j: int| if j < k {
        j
    } else {
        j - 1
    };
    let forth = |j: int| if j < k {
        j
    } else {
        j + 1
    };
    let known = goes_by_long(entry, key) || goes_by_short(entry, key);
    if !known {
        match dir::last_long(b, key) {
            Some(at) => {
                assert(at != k);
                assert(a[back(at)] == b[at]);
                let there = dir::last_long(a, key)->0;
                assert(b[forth(there)] == a[there]);
                assert(there == back(at)) by {
                    if there < back(at) {
                        assert(goes_by_long(a[back(at)], key));
                    } else if back(at) < there {
                        assert(goes_by_long(b[forth(there)], key));
                    }
                }
            },
            None => {
                if dir::last_long(a, key) is Some {
                    let there = dir::last_long(a, key)->0;
                    assert(goes_by_long(b[forth(there)], key));
                }
                match dir::first_short(b, key) {
                    Some(at) => {
                        assert(at != k);
                        assert(a[back(at)] == b[at]);
                        let there = dir::first_short(a, key)->0;
                        assert(b[forth(there)] == a[there]);
                        assert(there == back(at)) by {
                            if there < back(at) {
                                assert(goes_by_short(b[forth(there)], key));
                            } else if back(at) < there {
                                assert(goes_by_short(a[back(at)], key));
                            }
                        }
                    },
                    None => {
                        if dir::first_short(a, key) is Some {
                            let there = dir::first_short(a, key)->0;
                            assert(goes_by_short(b[forth(there)], key));
                        }
                    },
                }
            },
        }
    } else if before.find(name) is None {
        assert(dir::last_long(a, key) is None);
        assert(dir::first_short(a, key) is None);
        match dir::last_long(b, key) {
            Some(at) => {
                if at != k {
                    assert(goes_by_long(a[back(at)], key));
                }
            },
            None => {
                assert(goes_by_short(b[k], key));
                let at = dir::first_short(b, key)->0;
                if at != k {
                    assert(goes_by_short(a[back(at)], key));
                }
            },
        }
    }
}

/// What is found by a name depends on the entries' names alone.
pub proof fn lemma_find_same_names(a: Listing, b: Listing, name: Seq<char>)
    requires
        a.entries.len() == b.entries.len(),
        forall|j: int|
            0 <= j < a.entries.len() ==> (#[trigger] a.entries[j]).long_name
                == b.entries[j].long_name && a.entries[j].short_display
                == b.entries[j].short_display,
    ensures
        a.find(name) is Some <==> b.find(name) is Some,
        a.find(name) is Some ==> exists|j: int|
            0 <= j < a.entries.len() && a.find(name) == Some(#[trigger] a.entries[j]) && b.find(
                name,
            ) == Some(b.entries[j]),
{
    let key = text::uppercase(name);
    lemma_last_long_is_last(a.entries, key);
    lemma_last_long_is_last(b.entries, key);
    lemma_first_short_is_first(a.entries, key);
    lemma_first_short_is_first(b.entries, key);
    assert(dir::last_long(a.entries, key) == dir::last_long(b.entries, key)) by {
        match (dir::last_long(a.entries, key), dir::last_long(b.entries, key)) {
            (Some(x), Some(y)) => {
                assert(goes_by_long(a.entries[y], key) && goes_by_long(b.entries[x], key)) by {
                    assert(a.entries[x].long_name == b.entries[x].long_name);
                    assert(a.entries[y].long_name == b.entries[y].long_name);
                }
            },
            (Some(x), None) => {
                assert(a.entries[x].long_name == b.entries[x].long_name);
                assert(goes_by_long(b.entries[x], key));
            },
            (None, Some(y)) => {
                assert(a.entries[y].long_name == b.entries[y].long_name);
                assert(goes_by_long(a.entries[y], key));
            },
            (None, None) => {},
        }
    }
    assert(dir::first_short(a.entries, key) == dir::first_short(b.entries, key)) by {
        match (dir::first_short(a.entries, key), dir::first_short(b.entries, key)) {
            (Some(x), Some(y)) => {
                assert(goes_by_short(a.entries[y], key) && goes_by_short(b.entries[x], key)) by {
                    assert(a.entries[x].short_display == b.entries[x].short_display);
                    assert(a.entries[y].short_display == b.entries[y].short_display);
                }
            },
            (Some(x), None) => {
                assert(a.entries[x].short_display == b.entries[x].short_display);
                assert(goes_by_short(b.entries[x], key));
            },
            (None, Some(y)) => {
                assert(a.entries[y].short_display == b.entries[y].short_display);
                assert(goes_by_short(a.entries[y], key));
            },
            (None, None) => {},
        }
    }
    if a.find(name) is Some {
        match dir::last_long(a.entries, key) {
            Some(at) => {
                assert(a.find(name) == Some(a.entries[at]));
            },
            None => {
                let at = dir::first_short(a.entries, key)->0;
                assert(a.find(name) == Some(a.entries[at]));
            },
        }
    }
}

/// What is found by a name is still found after another entry is gone.
pub proof fn lemma_find_deleted(
    before: Listing,
    after: Listing,
    head: Seq<EntryView>,
    tail: Seq<EntryView>,
    entry: EntryView,
    name: Seq<char>,
)
    requires
        before.entries == head.push(entry) + tail,
        after.entries == head + tail,
        before.find(name) is Some,
        before.find(name) != Some(entry),
    ensures
        after.find(name) == before.find(name),
{
    let key = text::uppercase(name);
    let (a, b) = (before.entries, after.entries);
    let k = head.len() as int;
    lemma_last_long_is_last(a, key);
    lemma_last_long_is_last(b, key);
    lemma_first_short_is_first(a, key);
    lemma_first_short_is_first(b, key);
    assert(a[k] == entry);
    let back = |j: int| if j < k {
        j
    } else {
        j - 1
    };
    let forth = |j: int| if j < k {
        j
    } else {
        j + 1
    };
    assert forall|j: int| 0 <= j < b.len() implies #[trigger] b[j] == a[forth(j)] by {}
    assert forall|j: int| 0 <= j < a.len() && j != k implies #[trigger] a[j] == b[back(j)] by {}
    match dir::last_long(a, key) {
        Some(at) => {
            assert(at != k);
            assert(goes_by_long(b[back(at)], key));
            let there = dir::last_long(b, key)->0;
            assert(there == back(at)) by {
                if back(at) < there {
                    assert(goes_by_long(a[forth(there)], key));
                }
            }
        },
        None => {
            if dir::last_long(b, key) is Some {
                assert(goes_by_long(a[forth(dir::last_long(b, key)->0)], key));
            }
            let at = dir::first_short(a, key)->0;
            assert(at != k);
            assert(goes_by_short(b[back(at)], key));
            let there = dir::first_short(b, key)->0;
            assert(there == back(at)) by {
                if there < back(at) {
                    assert(goes_by_short(a[forth(there)], key));
                }
            }
        },
    }
}

/// Where there is room for new slots: free ones, right after one in use or at
/// the very start.
pub proof fn lemma_room(data: Seq<u8>, count: u32, codepage: Codepage)
    requires
        dir::slot_count(data) <= u32::MAX,
        dir::listing_of(data, codepage) is Ok,
        dir::listing_of(data, codepage)->Ok_0.room_for(count) is Some,
    ensures
        ({
            let at = dir::listing_of(data, codepage)->Ok_0.room_for(count)->0;
            &&& at + count <= dir::slot_count(data)
            &&& forall|k: int| at <= k < at + count ==> #[trigger] dir::is_free(data, k)
            &&& at == 0 || !dir::is_free(data, at - 1)
        }),
{
    let n = dir::slot_count(data);
    let free = dir::free_of(data, n);
    dir::lemma_free(data, n);
    lemma_free_starts(data, n);
    lemma_first_room(free, count);
    let a = choose|a: int|
        0 <= a < free.len() && (#[trigger] free[a]).0 == dir::first_room(free, count)->0
            && free[a].1 >= count;
    let (at, length) = free[a];
}

/// A stretch that is long enough is one of the stretches.
proof fn lemma_first_room(free: Seq<(u32, u32)>, count: u32)
    requires
        dir::first_room(free, count) is Some,
    ensures
        exists|a: int|
            0 <= a < free.len() && (#[trigger] free[a]).0 == dir::first_room(free, count)->0
                && free[a].1 >= count,
    decreases free.len(),
{
    if free[0].1 < count {
        lemma_first_room(free.skip(1), count);
        let rest = free.skip(1);
        let a = choose|a: int|
            0 <= a < rest.len() && (#[trigger] rest[a]).0 == dir::first_room(rest, count)->0
                && rest[a].1 >= count;
        assert(free[a + 1] == rest[a]);
    } else {
        assert(free[0].0 == dir::first_room(free, count)->0);
    }
}

/// A stretch of free slots starts after a slot in use, or at the very start.
pub(crate) proof fn lemma_free_starts(data: Seq<u8>, n: int)
    requires
        0 <= n <= dir::slot_count(data),
        n <= u32::MAX,
    ensures
        forall|a: int|
            0 <= a < dir::free_of(data, n).len() ==> {
                let (at, length) = #[trigger] dir::free_of(data, n)[a];
                at == 0 || !dir::is_free(data, at - 1)
            },
        n > 0 && dir::is_free(data, n - 1) ==> dir::free_of(data, n).len() > 0 && dir::free_of(
            data,
            n,
        ).last().0 + dir::free_of(data, n).last().1 == n,
    decreases n,
{
    if n > 0 {
        lemma_free_starts(data, n - 1);
        dir::lemma_free(data, n - 1);
        let before = dir::free_of(data, n - 1);
        let all = dir::free_of(data, n);
        assert forall|a: int| 0 <= a < all.len() implies {
            let (at, length) = #[trigger] all[a];
            at == 0 || !dir::is_free(data, at - 1)
        } by {
            if a < before.len() {
                let (at, length) = before[a];
            }
        }
        if before.len() > 0 {
            let (at, length) = before[before.len() - 1];
        }
    }
}

/// The entry in a slot, where the slot holds one.
pub proof fn lemma_entry_at(data: Seq<u8>, i: u32, codepage: Codepage)
    requires
        dir::slot_count(data) <= u32::MAX,
        i < dir::slot_count(data),
        dir::listing_of(data, codepage) is Ok,
    ensures
        dir::listing_of(data, codepage)->Ok_0.entry_at(i) == (if dir::is_entry(data, i as int) {
            Some(dir::entry_of(data, i as int, codepage))
        } else {
            None
        }),
{
    let n = dir::slot_count(data);
    let listing = dir::listing_of(data, codepage)->Ok_0;
    dir::lemma_entries(data, n, codepage);
    if dir::is_entry(data, i as int) {
        let a = choose|a: int| 0 <= a < listing.entries.len() && listing.entries[a].index == i;
        assert(listing.entries[a].index == i);
    }
}

/// Names are matched without regard to case: names that differ in case alone
/// find the same entry, or none.
pub proof fn lemma_any_case(listing: Listing, a: Seq<char>, b: Seq<char>)
    requires
        text::uppercase(a) == text::uppercase(b),
    ensures
        listing.find(a) == listing.find(b),
{
}

/// Every entry is found by its long name and by its 8.3 name: where it goes by
/// a name, in whatever case, some entry is found that does, and that is itself
/// where no other does.
pub proof fn lemma_listed_is_found(listing: Listing, at: int, name: Seq<char>)
    requires
        0 <= at < listing.entries.len(),
        goes_by_long(listing.entries[at], text::uppercase(name)) || goes_by_short(
            listing.entries[at],
            text::uppercase(name),
        ),
    ensures
        listing.find(name) matches Some(found) && (goes_by_long(found, text::uppercase(name))
            || goes_by_short(found, text::uppercase(name))),
        (forall|j: int|
            0 <= j < listing.entries.len() && j != at ==> !goes_by_long(
                #[trigger] listing.entries[j],
                text::uppercase(name),
            ) && !goes_by_short(listing.entries[j], text::uppercase(name))) ==> listing.find(name)
            == Some(listing.entries[at]),
{
    let key = text::uppercase(name);
    lemma_last_long_is_last(listing.entries, key);
    lemma_first_short_is_first(listing.entries, key);
}

/// The long-name slots before `i` start in the same place where the same slots
/// hold pieces of names.
proof fn lemma_run_start_alike(a: Seq<u8>, b: Seq<u8>, i: int)
    requires
        forall|k: int| 0 <= k < i ==> #[trigger] dir::is_long(a, k) == dir::is_long(b, k),
    ensures
        dir::run_start(a, i) == dir::run_start(b, i),
    decreases i,
{
    if i > 0 {
        assert(dir::is_long(a, i - 1) == dir::is_long(b, i - 1));
        lemma_run_start_alike(a, b, i - 1);
    }
}

/// A long name one of whose slots has another checksum names nothing.
proof fn lemma_name_lost(data: Seq<u8>, after: Seq<u8>, s: int, i: int, k: int, sum: u8)
    requires
        dir::names(data, s, i, sum),
        s <= k < i,
        dir::slot(after, k)[0x0D] != sum,
        forall|t: int|
            s <= t < i ==> (#[trigger] dir::slot(after, t))[0] == dir::slot(data, t)[0],
    ensures
        forall|t: int| !#[trigger] dir::names(after, t, i, sum),
{
    assert forall|t: int| !#[trigger] dir::names(after, t, i, sum) by {
        if dir::names(after, t, i, sum) {
            assert(dir::slot(after, s)[0] == dir::slot(data, s)[0]);
            if t < s {
                assert(dir::is_long(after, s));
            } else if s < t {
                assert(dir::is_long(data, t));
                assert(dir::slot(after, t)[0] == dir::slot(data, t)[0]);
            } else if s < k {
                assert(dir::is_long(after, k));
            }
        }
    }
}

/// Whether two directories are the same but for the checksums of the pieces of
/// long names in slots `s` up to `i`.
pub open spec fn same_but_checksums(data: Seq<u8>, after: Seq<u8>, s: int, i: int) -> bool {
    &&& after.len() == data.len()
    &&& same_slots(data, after, 0, s)
    &&& same_slots(data, after, i, dir::slot_count(data))
    &&& forall|k: int|
        s <= k < i ==> #[trigger] dir::is_long(data, k) && dir::slot(after, k) == dir::slot(
            data,
            k,
        ).update(0x0D, dir::slot(after, k)[0x0D])
}

/// Where other checksums leave an entry without a long name, it is listed by
/// its 8.3 name, and every other entry as it was.
proof fn lemma_other_checksums(data: Seq<u8>, after: Seq<u8>, s: int, i: int, codepage: Codepage)
    requires
        0 <= s <= i < dir::slot_count(data),
        dir::is_entry(data, i),
        same_but_checksums(data, after, s, i),
        forall|t: int|
            !#[trigger] dir::names(
                after,
                t,
                i,
                dir::checksum_of(dir::slot(data, i).subrange(0, 11)),
            ),
        dir::listing_of(data, codepage) is Ok,
    ensures
        dir::listing_of(after, codepage) is Ok,
        ({
            let n = dir::slot_count(data);
            let head = dir::entries_of(data, s, codepage);
            let tail = entries_between(data, i + 1, n, codepage);
            let entry = dir::entry_of(data, i, codepage);
            &&& dir::listing_of(data, codepage)->Ok_0.entries == head.push(entry) + tail
            &&& dir::listing_of(after, codepage)->Ok_0.entries == head.push(
                EntryView { long_name: None, ..entry },
            ) + tail
        }),
{
    let n = dir::slot_count(data);
    let head = dir::entries_of(data, s, codepage);
    let tail = entries_between(data, i + 1, n, codepage);
    let entry = dir::entry_of(data, i, codepage);
    let sum = dir::checksum_of(dir::slot(data, i).subrange(0, 11));
    assert(dir::slot(after, i) == dir::slot(data, i));
    assert forall|k: int| 0 <= k < n implies {
        &&& (#[trigger] dir::slot(after, k))[0] == dir::slot(data, k)[0]
        &&& dir::slot(after, k)[0x0B] == dir::slot(data, k)[0x0B]
    } by {
        if k < s || i <= k {
            assert(dir::slot(after, k) == dir::slot(data, k));
        } else {
            assert(dir::is_long(data, k));
            assert(dir::slot(after, k) == dir::slot(data, k).update(
                0x0D,
                dir::slot(after, k)[0x0D],
            ));
        }
    }
    lemma_no_stray(data, n);
    lemma_no_stray(after, n);
    assert forall|k: int| 0 <= k < n implies !#[trigger] dir::is_stray(after, k) by {
        assert(dir::slot(after, k)[0] == dir::slot(data, k)[0]);
        if dir::is_stray(after, k) {
            let j = choose|j: int| 0 <= j < k && #[trigger] dir::is_end(after, j);
            assert(dir::slot(after, j)[0] == dir::slot(data, j)[0]);
            assert(dir::is_end(data, j));
            assert(dir::is_stray(data, k));
        }
    }
    assert(dir::long_name_of(after, i) is None);
    assert forall|k: int| 0 <= k < i implies #[trigger] dir::is_long(data, k) == dir::is_long(
        after,
        k,
    ) by {
        assert(dir::slot(after, k)[0] == dir::slot(data, k)[0]);
    }
    lemma_run_start_alike(data, after, i);
    assert(dir::entry_of(after, i, codepage) == EntryView { long_name: None, ..entry });
    lemma_entries_around(data, s, i + 1, n, codepage);
    lemma_entries_around(after, s, i + 1, n, codepage);
    lemma_entries_prefix(data, after, s, codepage);
    lemma_entry_not_long(data, i);
    lemma_entry_not_long(after, i);
    lemma_entries_suffix(data, after, i + 1, n, codepage);
    assert forall|k: int| s <= k < i implies !#[trigger] dir::is_entry(data, k) by {
        assert(dir::is_long(data, k));
        lemma_entry_not_long(data, k);
    }
    lemma_no_entries(data, s, i, codepage);
    assert forall|k: int| s <= k < i implies !#[trigger] dir::is_entry(after, k) by {
        assert(dir::is_long(data, k) == dir::is_long(after, k));
        assert(dir::is_long(data, k));
        lemma_entry_not_long(after, k);
    }
    lemma_no_entries(after, s, i, codepage);
    let none = Seq::<EntryView>::empty();
    assert(head + none.push(entry) + tail =~= head.push(entry) + tail);
    let short = EntryView { long_name: None, ..entry };
    assert(head + none.push(short) + tail =~= head.push(short) + tail);
}

/// One wrong checksum costs one long name: where a slot of an entry's long
/// name has another checksum, the entry is listed by its 8.3 name, and every
/// other entry as it was.
pub proof fn lemma_checksum_costs_one_name(
    data: Seq<u8>,
    after: Seq<u8>,
    s: int,
    i: int,
    wrong: int,
    codepage: Codepage,
)
    requires
        i < dir::slot_count(data),
        dir::is_entry(data, i),
        dir::names(data, s, i, dir::checksum_of(dir::slot(data, i).subrange(0, 11))),
        same_but_checksums(data, after, s, i),
        s <= wrong < i,
        dir::slot(after, wrong)[0x0D] != dir::slot(data, wrong)[0x0D],
        dir::listing_of(data, codepage) is Ok,
    ensures
        dir::listing_of(after, codepage) is Ok,
        ({
            let n = dir::slot_count(data);
            let head = dir::entries_of(data, s, codepage);
            let tail = entries_between(data, i + 1, n, codepage);
            let entry = dir::entry_of(data, i, codepage);
            &&& dir::listing_of(data, codepage)->Ok_0.entries == head.push(entry) + tail
            &&& dir::listing_of(after, codepage)->Ok_0.entries == head.push(
                EntryView { long_name: None, ..entry },
            ) + tail
        }),
{
    let sum = dir::checksum_of(dir::slot(data, i).subrange(0, 11));
    assert(dir::slot(after, wrong)[0x0D] != sum) by {
        if wrong > s {
            assert(dir::is_long(data, wrong));
        }
    }
    assert forall|t: int| s <= t < i implies (#[trigger] dir::slot(after, t))[0] == dir::slot(
        data,
        t,
    )[0] by {
        assert(dir::is_long(data, t));
    }
    lemma_name_lost(data, after, s, i, wrong, sum);
    lemma_other_checksums(data, after, s, i, codepage);
}

/// A checksum that is not the entry's costs the entry its long name, and
/// nothing else: whatever pieces of names stand in front of an entry, where
/// the last of them has another checksum than the entry's, the entry is listed
/// by its 8.3 name; there are as many entries as there were; and every other
/// slot holds the entry it held.
pub proof fn lemma_wrong_checksum(data: Seq<u8>, after: Seq<u8>, i: u32, codepage: Codepage)
    requires
        dir::slot_count(data) <= u32::MAX,
        i < dir::slot_count(data),
        dir::is_entry(data, i as int),
        dir::run_start(data, i as int) < i,
        same_but_checksums(data, after, dir::run_start(data, i as int), i as int),
        dir::slot(after, i - 1)[0x0D] != dir::checksum_of(
            dir::slot(data, i as int).subrange(0, 11),
        ),
        dir::listing_of(data, codepage) is Ok,
    ensures
        dir::listing_of(after, codepage) is Ok,
        ({
            let before = dir::listing_of(data, codepage)->Ok_0;
            let listing = dir::listing_of(after, codepage)->Ok_0;
            &&& listing.entries.len() == before.entries.len()
            &&& before.entry_at(i) is Some
            &&& listing.entry_at(i) == Some(EntryView { long_name: None, ..before.entry_at(i)->0 })
            &&& forall|j: u32|
                j != i && j < dir::slot_count(data) ==> #[trigger] listing.entry_at(j)
                    == before.entry_at(j)
        }),
{
    let s = dir::run_start(data, i as int);
    let n = dir::slot_count(data);
    let sum = dir::checksum_of(dir::slot(data, i as int).subrange(0, 11));
    lemma_run_start_in(data, i as int);
    assert forall|t: int| !#[trigger] dir::names(after, t, i as int, sum) by {
        if dir::names(after, t, i as int, sum) {
            if t < i - 1 {
                assert(dir::is_long(after, i - 1));
            }
        }
    }
    lemma_other_checksums(data, after, s, i as int, codepage);
    lemma_entry_at(data, i, codepage);
    lemma_entry_at(after, i, codepage);
    assert(dir::slot(after, i as int) == dir::slot(data, i as int));
    assert(dir::long_name_of(after, i as int) is None);
    assert forall|k: int| 0 <= k < i implies #[trigger] dir::is_long(data, k) == dir::is_long(
        after,
        k,
    ) by {
        lemma_kind_stays(data, after, s, i as int, k);
    }
    lemma_run_start_alike(data, after, i as int);
    let (before, listing) = (
        dir::listing_of(data, codepage)->Ok_0,
        dir::listing_of(after, codepage)->Ok_0,
    );
    assert forall|j: u32| j != i && j < n implies #[trigger] listing.entry_at(j)
        == before.entry_at(j) by {
        lemma_entry_at(data, j, codepage);
        lemma_entry_at(after, j, codepage);
        lemma_kind_stays(data, after, s, i as int, j as int);
        lemma_entry_not_long(data, i as int);
        lemma_entry_not_long(after, i as int);
        if j < s {
            lemma_entry_same(data, after, 0, j as int, codepage);
        } else if j > i {
            lemma_entry_same(data, after, i + 1, j as int, codepage);
        } else {
            assert(dir::is_long(data, j as int));
            lemma_entry_not_long(data, j as int);
        }
    }
}

/// What a slot holds is the same where checksums alone differ.
proof fn lemma_kind_stays(data: Seq<u8>, after: Seq<u8>, s: int, i: int, k: int)
    requires
        same_but_checksums(data, after, s, i),
        0 <= k < dir::slot_count(data),
    ensures
        dir::is_long(data, k) == dir::is_long(after, k),
        dir::is_entry(data, k) == dir::is_entry(after, k),
{
    if k < s || i <= k {
        assert(dir::slot(data, k) == dir::slot(after, k));
    } else {
        assert(dir::is_long(data, k));
    }
}

/// The slots from where a run starts up to its entry hold pieces of names, and
/// the one before it does not.
proof fn lemma_run_start_in(data: Seq<u8>, i: int)
    requires
        0 <= i,
    ensures
        0 <= dir::run_start(data, i) <= i,
        forall|k: int| dir::run_start(data, i) <= k < i ==> #[trigger] dir::is_long(data, k),
        dir::run_start(data, i) == 0 || !dir::is_long(data, dir::run_start(data, i) - 1),
    decreases i,
{
    if i > 0 && dir::is_long(data, i - 1) {
        lemma_run_start_in(data, i - 1);
    }
}

/// The first slot of an entry is that of the whole run of pieces of names in
/// front of it, whether or not their checksum is the entry's.
pub proof fn lemma_first_slot(data: Seq<u8>, codepage: Codepage, at: int)
    requires
        dir::slot_count(data) <= u32::MAX,
        dir::listing_of(data, codepage) is Ok,
        0 <= at < dir::listing_of(data, codepage)->Ok_0.entries.len(),
    ensures
        ({
            let entry = dir::listing_of(data, codepage)->Ok_0.entries[at];
            &&& entry.first_slot <= entry.index
            &&& forall|k: int|
                entry.first_slot <= k < entry.index ==> #[trigger] dir::is_long(data, k)
            &&& entry.first_slot == 0 || !dir::is_long(data, entry.first_slot - 1)
        }),
{
    dir::lemma_entries(data, dir::slot_count(data), codepage);
    let entry = dir::listing_of(data, codepage)->Ok_0.entries[at];
    lemma_run_start_in(data, entry.index as int);
}

/// A directory lists one entry for each slot that is in use and holds neither a
/// label nor a piece of a long name, in the order of the slots, with the length
/// and the first cluster that the slot says.
pub proof fn lemma_one_entry_per_slot(data: Seq<u8>, codepage: Codepage)
    requires
        dir::slot_count(data) <= u32::MAX,
        dir::listing_of(data, codepage) is Ok,
    ensures
        ({
            let entries = dir::listing_of(data, codepage)->Ok_0.entries;
            &&& forall|a: int|
                0 <= a < entries.len() ==> {
                    let slot = dir::slot(data, (#[trigger] entries[a]).index as int);
                    &&& entries[a].index < dir::slot_count(data)
                    &&& slot[0] != 0x00 && slot[0] != 0xE5 && slot[0x0B] & 0x08 == 0
                    &&& entries[a].size == bytes::u32_at(slot, 0x1C)
                    &&& entries[a].first_cluster == 0x1_0000 * bytes::u16_at(slot, 0x14)
                        + bytes::u16_at(slot, 0x1A)
                }
            &&& forall|a: int, b: int|
                0 <= a < b < entries.len() ==> #[trigger] entries[a].index
                    < #[trigger] entries[b].index
            &&& forall|i: int|
                0 <= i < dir::slot_count(data) && (#[trigger] dir::slot(data, i))[0] != 0x00
                    && dir::slot(data, i)[0] != 0xE5 && dir::slot(data, i)[0x0B] & 0x08 == 0
                    ==> exists|a: int| 0 <= a < entries.len() && entries[a].index == i
        }),
{
    let entries = dir::listing_of(data, codepage)->Ok_0.entries;
    dir::lemma_entries(data, dir::slot_count(data), codepage);
    assert forall|a: int| 0 <= a < entries.len() implies {
        let slot = dir::slot(data, (#[trigger] entries[a]).index as int);
        &&& entries[a].index < dir::slot_count(data)
        &&& slot[0] != 0x00 && slot[0] != 0xE5 && slot[0x0B] & 0x08 == 0
        &&& entries[a].size == bytes::u32_at(slot, 0x1C)
        &&& entries[a].first_cluster == 0x1_0000 * bytes::u16_at(slot, 0x14) + bytes::u16_at(
            slot,
            0x1A,
        )
    } by {
        lemma_label_bit(dir::slot(data, entries[a].index as int)[0x0B]);
    }
    assert forall|i: int|
        0 <= i < dir::slot_count(data) && (#[trigger] dir::slot(data, i))[0] != 0x00 && dir::slot(
            data,
            i,
        )[0] != 0xE5 && dir::slot(data, i)[0x0B] & 0x08 == 0 implies exists|a: int|
        0 <= a < entries.len() && entries[a].index == i by {
        lemma_label_bit(dir::slot(data, i)[0x0B]);
        assert(dir::is_entry(data, i));
    }
}

/// The mark of a label is one bit.
proof fn lemma_label_bit(attributes: u8)
    ensures
        attributes & 0x08 == 0 <==> attributes & 0x08 != 0x08,
{
    assert(attributes & 0x08 == 0 || attributes & 0x08 == 0x08) by (bit_vector);
}

} // verus!
