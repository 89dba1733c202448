//! What setting a file's length leaves of it, and what it adds.
use vstd::prelude::*;

use crate::bytes;
use crate::chains;
use crate::dir;
use crate::dir::EntryView;
use crate::error::{FatError, Fault};
use crate::fs;
use crate::laws;
use crate::operations;
use crate::operations::FileView;
use crate::steady;
use crate::storage;
use crate::table;
use crate::time::DateTime;
use crate::volume::{Edit, Volume};

verus! {

/// What setting a file's length does: the handle is that long and still live,
/// every byte the file keeps is the one it had, every byte it gains is a
/// zero, and no other chain is touched. Where the length changes, the file's
/// entry says so, and of its times the last change is the only one that moves.
pub open spec fn resized(
    before: Volume,
    after: Volume,
    file: FileView,
    fitted: FileView,
    size: u32,
    now: DateTime,
) -> bool {
    let clusters = after.table.chain(fitted.first_cluster)->Ok_0;
    &&& fitted == (FileView { first_cluster: fitted.first_cluster, size, ..file })
    &&& laws::same_volume(before, after)
    &&& after.holds(fitted)
    &&& after.check_live(fitted).1 is Ok
    &&& laws::refreshed(
        before.stored_listing(file.directory)->Ok_0,
        after.stored_listing(file.directory)->Ok_0,
        file.index,
    )
    &&& size != file.size ==> after.stored_listing(file.directory)->Ok_0.entry_at(file.index)
        == Some(
        EntryView {
            first_cluster: fitted.first_cluster,
            size,
            modified: dir::modified_at(now),
            ..before.stored_listing(file.directory)->Ok_0.entry_at(file.index)->0
        },
    )
    &&& size < file.size ==> keeps_start(before, after, file, fitted, size)
    &&& size > 0 ==> {
        &&& fitted.first_cluster != 0
        &&& after.table.chain(fitted.first_cluster) is Ok
        &&& size <= clusters.len() * before.cluster_bytes()
    }
    &&& forall|i: int|
        0 <= i < size ==> #[trigger] after.chain_byte(clusters, i) == laws::byte_after(
            before,
            file,
            0,
            Seq::empty(),
            i,
        )
    &&& forall|start: u32| #[trigger]
        laws::bystander(before, file, start) ==> laws::untouched(before, after, start)
}

/// Whether a file that became shorter has just the clusters its length needs,
/// the first of those it had; where it needs none it names none.
pub open spec fn keeps_start(
    before: Volume,
    after: Volume,
    file: FileView,
    fitted: FileView,
    size: u32,
) -> bool {
    let had = before.table.chain(file.first_cluster)->Ok_0;
    let keep = operations::clusters_for(size as int, before.cluster_bytes());
    &&& 0 <= keep <= had.len()
    &&& keep == 0 <==> size == 0
    &&& if size == 0 {
        fitted.first_cluster == 0
    } else {
        &&& fitted.first_cluster == file.first_cluster
        &&& after.table.chain(file.first_cluster) == Ok::<Seq<u32>, FatError>(had.take(keep))
    }
}

/// Whether a file's chain is as long as its length says.
pub open spec fn whole(volume: Volume, file: FileView) -> bool {
    file.size > 0 ==> {
        &&& file.first_cluster != 0
        &&& volume.table.chain(file.first_cluster) is Ok
        &&& file.size <= volume.table.chain(file.first_cluster)->Ok_0.len()
            * volume.cluster_bytes()
    }
}

/// Making a file longer.
proof fn lemma_grown(volume: Volume, file: FileView, size: u32, now: DateTime)
    requires
        volume.laid_out(),
        volume.fits(),
        volume.holds(file),
        laws::unentangled(volume, file),
        size > file.size,
        whole(volume, file),
        ({
            let (reserved, roomy, made) = volume.reserve(file, size, now);
            let (zeroed, filled) = reserved.zero_chain(
                roomy.first_cluster,
                roomy.size as int,
                size as int,
            );
            &&& made is Ok
            &&& filled is Ok
            &&& zeroed.edit_slot(
                roomy.directory,
                roomy.index,
                Edit::Update { first_cluster: roomy.first_cluster, size, at: now },
            ).1 is Ok
        }),
    ensures
        ({
            let (reserved, roomy, made) = volume.reserve(file, size, now);
            let (zeroed, filled) = reserved.zero_chain(
                roomy.first_cluster,
                roomy.size as int,
                size as int,
            );
            let after = zeroed.edit_slot(
                roomy.directory,
                roomy.index,
                Edit::Update { first_cluster: roomy.first_cluster, size, at: now },
            ).0;
            resized(volume, after, file, FileView { size, ..roomy }, size, now)
        }),
{
    let (reserved, roomy, made) = volume.reserve(file, size, now);
    laws::lemma_reserve(volume, file, size, now);
    reveal(laws::made_room);
    let first = roomy.first_cluster;
    let clusters = reserved.table.chain(first)->Ok_0;
    let (zeroed, filled) = reserved.zero_chain(first, file.size as int, size as int);
    storage::lemma_zero_chain(reserved, first, file.size as int, size as int);
    let gap = bytes::zeros((size - file.size) as nat);
    laws::lemma_chain_written(reserved, zeroed, roomy, file.size as int, gap);
    let after = zeroed.edit_slot(
        file.directory,
        file.index,
        Edit::Update { first_cluster: first, size, at: now },
    ).0;
    laws::lemma_entry_edited(zeroed, roomy, first, size, now);
    let directory = zeroed.table.chain(file.directory)->Ok_0;
    laws::lemma_untouched(zeroed, after, first, Seq::<u32>::empty(), directory);
    let fitted = FileView { size, ..roomy };
    laws::lemma_refreshed(
        volume.stored_listing(file.directory)->Ok_0,
        zeroed.stored_listing(file.directory)->Ok_0,
        after.stored_listing(file.directory)->Ok_0,
        file.index,
    );
    laws::lemma_entry_stays(volume, zeroed, file);
    assert(after.holds(fitted));
    laws::lemma_holds_live(after, fitted);
    assert forall|i: int| 0 <= i < size implies #[trigger] after.chain_byte(clusters, i)
        == laws::byte_after(volume, file, 0, Seq::empty(), i) by {
        assert(after.chain_bytes(clusters)[i] == zeroed.chain_bytes(clusters)[i]);
        if i < file.size {
            let had = volume.table.chain(file.first_cluster)->Ok_0;
            assert(reserved.chain_byte(clusters, i) == volume.chain_byte(had, i));
        }
        assert(zeroed.chain_byte(clusters, i) == (if file.size <= i < file.size + gap.len() {
            gap[i - file.size]
        } else {
            reserved.chain_byte(clusters, i)
        }));
    }
    assert forall|start: u32| #[trigger] laws::bystander(volume, file, start) implies laws::untouched(
        volume,
        after,
        start,
    ) by {
        assert(laws::bystander(reserved, roomy, start));
        assert(laws::bystander(zeroed, roomy, start));
        laws::lemma_untouched(zeroed, after, start, Seq::<u32>::empty(), directory);
    }
}

/// Making a file shorter, to a length that needs no cluster or that of a file
/// without any.
proof fn lemma_emptied(
    volume: Volume,
    recorded: Volume,
    after: Volume,
    file: FileView,
    size: u32,
)
    requires
        volume.laid_out(),
        volume.fits(),
        recorded.laid_out(),
        recorded.fits(),
        laws::same_volume(volume, recorded),
        recorded.holds(file),
        recorded.table == volume.table,
        laws::unentangled(volume, file),
        file.first_cluster != 0,
        volume.table.chain(file.first_cluster) is Ok,
        after == (Volume {
            table: recorded.table.released(volume.table.chain(file.first_cluster)->Ok_0),
            ..recorded
        }).flush(),
        forall|start: u32| #[trigger]
            laws::bystander(volume, file, start) ==> laws::untouched(volume, recorded, start),
    ensures
        laws::same_volume(volume, after),
        after.holds(FileView { first_cluster: 0, size, ..file }),
        laws::untouched(recorded, after, file.directory),
        forall|start: u32| #[trigger]
            laws::bystander(volume, file, start) ==> laws::untouched(volume, after, start),
{
    let had = volume.table.chain(file.first_cluster)->Ok_0;
    table::lemma_chain(volume.table, file.first_cluster);
    chains::lemma_released(volume.table, had);
    let held = Volume { table: recorded.table.released(had), ..recorded };
    storage::lemma_flush(held);
    assert(after.table.entries == held.table.entries);
    assert forall|c: u32| volume.table.valid(c as int) && !had.contains(c) implies #[trigger] after.table.value(
        c as int,
    ) == volume.table.value(c as int) by {
        assert(held.table.value(c as int) == volume.table.value(c as int));
    }
    assert(chains::apart(volume.table.chain(file.directory)->Ok_0, had));
    laws::lemma_untouched(recorded, after, file.directory, had, Seq::<u32>::empty());
    laws::lemma_holds_kept(recorded, after, file);
    assert forall|start: u32| #[trigger] laws::bystander(volume, file, start) implies laws::untouched(
        volume,
        after,
        start,
    ) by {
        laws::lemma_untouched(recorded, after, start, had, Seq::<u32>::empty());
    }
}

/// Making a file shorter, to a length that needs some of its clusters.
proof fn lemma_shortened(
    volume: Volume,
    recorded: Volume,
    after: Volume,
    file: FileView,
    size: u32,
    keep: u32,
)
    requires
        volume.laid_out(),
        volume.fits(),
        recorded.laid_out(),
        recorded.fits(),
        laws::same_volume(volume, recorded),
        recorded.holds(file),
        recorded.table == volume.table,
        laws::unentangled(volume, file),
        file.first_cluster != 0,
        volume.table.chain(file.first_cluster) is Ok,
        laws::untouched(volume, recorded, file.first_cluster),
        0 < keep < volume.table.chain(file.first_cluster)->Ok_0.len(),
        after == (Volume {
            table: recorded.table.shortened(file.first_cluster, keep).0,
            ..recorded
        }).flush(),
        forall|start: u32| #[trigger]
            laws::bystander(volume, file, start) ==> laws::untouched(volume, recorded, start),
    ensures
        laws::same_volume(volume, after),
        after.holds(FileView { size, ..file }),
        laws::untouched(recorded, after, file.directory),
        after.table.chain(file.first_cluster) == Ok::<Seq<u32>, FatError>(
            volume.table.chain(file.first_cluster)->Ok_0.take(keep as int),
        ),
        forall|i: int|
            0 <= i < keep * volume.cluster_bytes() ==> #[trigger] after.chain_byte(
                after.table.chain(file.first_cluster)->Ok_0,
                i,
            ) == volume.chain_byte(volume.table.chain(file.first_cluster)->Ok_0, i),
        forall|start: u32| #[trigger]
            laws::bystander(volume, file, start) ==> laws::untouched(volume, after, start),
{
    let had = volume.table.chain(file.first_cluster)->Ok_0;
    let kept = had.take(keep as int);
    let cb = volume.cluster_bytes();
    fs::lemma_chain_size(volume, 0);
    table::lemma_chain(volume.table, file.first_cluster);
    assert(chains::apart(volume.table.chain(file.directory)->Ok_0, had));
    chains::lemma_shortened(volume.table, file.first_cluster, keep, file.directory);
    let held = Volume { table: recorded.table.shortened(file.first_cluster, keep).0, ..recorded };
    storage::lemma_flush(held);
    laws::lemma_flushed_chains(held.table);
    assert forall|start: u32|
        volume.table.chain(start) is Ok && #[trigger] chains::apart(
            volume.table.chain(start)->Ok_0,
            had,
        ) implies laws::untouched(recorded, after, start) by {
        chains::lemma_shortened(volume.table, file.first_cluster, keep, start);
        table::lemma_chain(volume.table, start);
        laws::lemma_bytes_same(recorded, after, volume.table.chain(start)->Ok_0);
    }
    assert(laws::untouched(recorded, after, file.directory));
    laws::lemma_holds_kept(recorded, after, file);
    assert(keep * cb <= had.len() * cb) by (nonlinear_arith)
        requires
            keep <= had.len(),
            0 <= cb,
    ;
    assert forall|i: int| 0 <= i < keep * cb implies #[trigger] after.chain_byte(kept, i)
        == volume.chain_byte(had, i) by {
        storage::lemma_position(volume, had, i);
        assert(i / cb < keep) by (nonlinear_arith)
            requires
                0 <= i < keep * cb,
                0 < cb,
        ;
        assert(kept[i / cb] == had[i / cb]);
        let p = volume.position(had, i);
        assert(after.position(kept, i) == p);
        assert(after.disk[p] == recorded.disk[p]);
        assert(recorded.chain_bytes(had)[i] == volume.chain_bytes(had)[i]);
    }
    assert forall|start: u32| #[trigger] laws::bystander(volume, file, start) implies laws::untouched(
        volume,
        after,
        start,
    ) by {
        assert(chains::apart(volume.table.chain(start)->Ok_0, had));
        assert(laws::untouched(recorded, after, start));
    }
}

/// How many clusters a shorter length needs.
pub proof fn lemma_keeps(size: int, longer: int, clusters: int, cb: int)
    requires
        0 <= size < longer,
        longer <= clusters * cb,
        0 < cb,
    ensures
        0 <= operations::clusters_for(size, cb) <= clusters,
        size <= operations::clusters_for(size, cb) * cb,
        operations::clusters_for(size, cb) == 0 <==> size == 0,
{
    let n = operations::clusters_for(size, cb);
    vstd::arithmetic::div_mod::lemma_fundamental_div_mod(size + cb - 1, cb);
    assert(0 <= n && size <= n * cb && n * cb < size + cb && (n == 0 <==> size == 0))
        by (nonlinear_arith)
        requires
            0 <= size,
            0 < cb,
            n == (size + cb - 1) / cb,
            size + cb - 1 == cb * n + (size + cb - 1) % cb,
            0 <= (size + cb - 1) % cb < cb,
    ;
    assert(n <= clusters) by (nonlinear_arith)
        requires
            n * cb < size + cb,
            size < clusters * cb,
            0 < cb,
    ;
}

/// Making a file shorter.
proof fn lemma_shrunk(volume: Volume, file: FileView, size: u32, now: DateTime)
    requires
        volume.laid_out(),
        volume.fits(),
        volume.holds(file),
        laws::unentangled(volume, file),
        size < file.size,
        whole(volume, file),
        ({
            let keep = operations::clusters_for(size as int, volume.cluster_bytes());
            let first = if keep == 0 {
                0
            } else {
                file.first_cluster
            };
            volume.edit_slot(
                file.directory,
                file.index,
                Edit::Update { first_cluster: first, size, at: now },
            ).1 is Ok
        }),
    ensures
        ({
            let keep = operations::clusters_for(size as int, volume.cluster_bytes());
            let first = if keep == 0 {
                0
            } else {
                file.first_cluster
            };
            let recorded = volume.edit_slot(
                file.directory,
                file.index,
                Edit::Update { first_cluster: first, size, at: now },
            ).0;
            let (table, result) = recorded.table.shortened(file.first_cluster, keep as u32);
            resized(
                volume,
                Volume { table, ..recorded }.flush(),
                file,
                FileView { size, first_cluster: first, ..file },
                size,
                now,
            )
        }),
{
    let cb = volume.cluster_bytes();
    fs::lemma_chain_size(volume, 0);
    let had = volume.table.chain(file.first_cluster)->Ok_0;
    let keep = operations::clusters_for(size as int, cb);
    lemma_keeps(size as int, file.size as int, had.len() as int, cb);
    table::lemma_chain(volume.table, file.first_cluster);
    let first = if keep == 0 {
        0
    } else {
        file.first_cluster
    };
    let edit = Edit::Update { first_cluster: first, size, at: now };
    let recorded = volume.edit_slot(file.directory, file.index, edit).0;
    laws::lemma_entry_edited(volume, file, first, size, now);
    let directory = volume.table.chain(file.directory)->Ok_0;
    laws::lemma_untouched(volume, recorded, file.first_cluster, Seq::<u32>::empty(), directory);
    assert forall|start: u32| #[trigger] laws::bystander(volume, file, start) implies laws::untouched(
        volume,
        recorded,
        start,
    ) by {
        laws::lemma_untouched(volume, recorded, start, Seq::<u32>::empty(), directory);
    }
    let held = Volume {
        table: recorded.table.shortened(file.first_cluster, keep as u32).0,
        ..recorded
    };
    let after = held.flush();
    let fitted = FileView { size, first_cluster: first, ..file };
    if keep == 0 {
        lemma_emptied(volume, recorded, after, file, size);
    } else if keep < had.len() {
        lemma_shortened(volume, recorded, after, file, size, keep as u32);
    } else {
        storage::lemma_flush(held);
        laws::lemma_flushed_chains(held.table);
        assert forall|start: u32| volume.table.chain(start) is Ok implies #[trigger] laws::untouched(
            recorded,
            after,
            start,
        ) by {
            table::lemma_chain(volume.table, start);
            laws::lemma_bytes_same(recorded, after, volume.table.chain(start)->Ok_0);
        }
        assert(laws::untouched(recorded, after, file.directory));
        assert(laws::untouched(recorded, after, file.first_cluster));
        laws::lemma_holds_kept(recorded, after, file);
        assert forall|start: u32| #[trigger] laws::bystander(volume, file, start) implies laws::untouched(
            volume,
            after,
            start,
        ) by {
            assert(laws::untouched(recorded, after, start));
        }
        assert forall|i: int| 0 <= i < size implies #[trigger] after.chain_byte(had, i)
            == volume.chain_byte(had, i) by {
            assert(after.chain_bytes(had)[i] == recorded.chain_bytes(had)[i]);
            assert(recorded.chain_bytes(had)[i] == volume.chain_bytes(had)[i]);
        }
    }
    assert(after.holds(fitted));
    laws::lemma_holds_live(after, fitted);
    assert(had.take(had.len() as int) =~= had);
}

/// Setting a file's length keeps what it keeps and adds zeros: every byte
/// below the new length is the one the file had, or a zero where it was not
/// that long. No other chain is touched.
///
/// The device is to be as long as the volume, the directory held as it is
/// stored, the file's chain as long as its length says, and apart from its
/// directory's.
pub proof fn lemma_truncate(volume: Volume, file: FileView, size: u32, now: DateTime)
    requires
        volume.laid_out(),
        volume.fits(),
        volume.coherent_at(file.directory),
        dir::slot_count(volume.stored(file.directory)) <= u32::MAX,
        laws::unentangled(volume, file),
        whole(volume, file),
        volume.truncate(file, size, now).2 is Ok,
    ensures
        resized(
            volume,
            volume.truncate(file, size, now).0,
            file,
            volume.truncate(file, size, now).1,
            size,
            now,
        ),
{
    let live = volume.check_live(file).0;
    laws::lemma_live(volume, file);
    assert(live.stored(file.directory) =~= volume.stored(file.directory));
    let (after, fitted, _) = volume.truncate(file, size, now);
    if size == file.size {
        laws::lemma_holds_live(live, file);
        laws::lemma_refreshed(
            live.stored_listing(file.directory)->Ok_0,
            live.stored_listing(file.directory)->Ok_0,
            live.stored_listing(file.directory)->Ok_0,
            file.index,
        );
    } else if size > file.size {
        lemma_grown(live, file, size, now);
    } else {
        lemma_shrunk(live, file, size, now);
    }
    assert(resized(live, after, file, fitted, size, now));
    assert forall|i: int| 0 <= i < size implies #[trigger] after.chain_byte(
        after.table.chain(fitted.first_cluster)->Ok_0,
        i,
    ) == laws::byte_after(volume, file, 0, Seq::empty(), i) by {
        assert(laws::byte_after(live, file, 0, Seq::empty(), i) == laws::byte_after(
            volume,
            file,
            0,
            Seq::empty(),
            i,
        ));
    }
    assert forall|start: u32| #[trigger] laws::bystander(volume, file, start) implies laws::untouched(
        volume,
        after,
        start,
    ) by {
        assert(live.stored(start) =~= volume.stored(start));
        assert(laws::bystander(live, file, start));
    }
}

/// A file whose length was set reads back: what is below the new length, and
/// nothing more.
pub proof fn lemma_resized_reads(
    before: Volume,
    after: Volume,
    file: FileView,
    fitted: FileView,
    size: u32,
    now: DateTime,
)
    requires
        after.laid_out(),
        resized(before, after, file, fitted, size, now),
    ensures
        after.read_file(fitted, 0, size as int).1 == Ok::<Seq<u8>, Fault>(
            Seq::new(
                size as nat,
                |i: int| laws::byte_after(before, file, 0, Seq::empty(), i),
            ),
        ),
        after.read_whole(fitted).1 == after.read_file(fitted, 0, size as int).1,
{
    let expected = Seq::new(
        size as nat,
        |i: int| laws::byte_after(before, file, 0, Seq::empty(), i),
    );
    if size > 0 {
        let clusters = after.table.chain(fitted.first_cluster)->Ok_0;
        assert(after.chain_bytes(clusters).take(size as int) =~= after.chain_bytes(
            clusters,
        ).subrange(0, size as int));
        assert(after.chain_bytes(clusters).subrange(0, size as int) =~= expected) by {
            assert forall|i: int| 0 <= i < size implies #[trigger] after.chain_bytes(
                clusters,
            ).subrange(0, size as int)[i] == expected[i] by {
                assert(after.chain_byte(clusters, i) == expected[i]);
            }
        }
    } else {
        assert(expected =~= Seq::<u8>::empty());
    }
}

/// A file that was written to reads back whole: its length and every byte of
/// it are as the write left them.
pub proof fn lemma_write_reads_whole(
    volume: Volume,
    file: FileView,
    offset: int,
    data: Seq<u8>,
    now: DateTime,
)
    requires
        volume.laid_out(),
        volume.fits(),
        volume.coherent_at(file.directory),
        dir::slot_count(volume.stored(file.directory)) <= u32::MAX,
        laws::unentangled(volume, file),
        whole(volume, file),
        0 <= offset,
        data.len() > 0,
        volume.write_file_at(file, offset, data, now).2 is Ok,
    ensures
        ({
            let (after, written, _) = volume.write_file_at(file, offset, data, now);
            after.read_whole(written).1 == Ok::<Seq<u8>, Fault>(
                Seq::new(
                    written.size as nat,
                    |i: int| laws::byte_after(volume, file, offset, data, i),
                ),
            )
        }),
{
    laws::lemma_write_reads_back(volume, file, offset, data, now);
    let (after, written, _) = volume.write_file_at(file, offset, data, now);
    let clusters = after.table.chain(written.first_cluster)->Ok_0;
    let expected = Seq::new(
        written.size as nat,
        |i: int| laws::byte_after(volume, file, offset, data, i),
    );
    assert forall|i: int| 0 <= i < written.size implies #[trigger] after.chain_bytes(
        clusters,
    ).take(written.size as int)[i] == expected[i] by {
        assert(laws::accounted(volume, file, i));
        assert(after.chain_byte(clusters, i) == laws::byte_after(volume, file, offset, data, i));
    }
    assert(after.chain_bytes(clusters).take(written.size as int) =~= expected);
}

/// A write that ends within the file leaves its entry and every other of the
/// directory as they were, their times included.
pub proof fn lemma_write_within_moves_no_time(
    volume: Volume,
    file: FileView,
    offset: int,
    data: Seq<u8>,
    now: DateTime,
)
    requires
        volume.laid_out(),
        volume.fits(),
        volume.coherent_at(file.directory),
        dir::slot_count(volume.stored(file.directory)) <= u32::MAX,
        laws::unentangled(volume, file),
        whole(volume, file),
        0 <= offset,
        data.len() > 0,
        offset + data.len() <= file.size,
        volume.write_file_at(file, offset, data, now).2 is Ok,
    ensures
        volume.write_file_at(file, offset, data, now).0.stored_listing(file.directory)
            == volume.stored_listing(file.directory),
{
    let live = volume.check_live(file).0;
    laws::lemma_live(volume, file);
    assert(live.stored(file.directory) =~= volume.stored(file.directory));
    let (after, written, _) = volume.write_file_at(file, offset, data, now);
    let end = offset + data.len();
    let clusters = volume.table.chain(file.first_cluster)->Ok_0;
    fs::lemma_chain_size(volume, 0);
    assert(operations::clusters_for(end, volume.cluster_bytes()) <= clusters.len()) by {
        lemma_enough(end, clusters.len() as int, volume.cluster_bytes());
    }
    assert(live.reserve(file, end as u32, now) == (live, file, Ok::<(), Fault>(()))) by {
        reveal(Volume::reserve);
    }
    assert(after == live.write_chain(file.first_cluster, offset, data).0 && live.write_chain(
        file.first_cluster,
        offset,
        data,
    ).1 is Ok) by {
        reveal(Volume::write_live);
    }
    storage::lemma_write_chain(live, file.first_cluster, offset, data);
    laws::lemma_chain_written(live, after, file, offset, data);
}

/// Bytes that clusters hold need no more clusters.
proof fn lemma_enough(size: int, clusters: int, cb: int)
    requires
        0 < size <= clusters * cb,
        0 < cb,
    ensures
        operations::clusters_for(size, cb) <= clusters,
{
    let n = operations::clusters_for(size, cb);
    vstd::arithmetic::div_mod::lemma_fundamental_div_mod(size + cb - 1, cb);
    assert(n <= clusters) by (nonlinear_arith)
        requires
            size <= clusters * cb,
            0 < cb,
            size + cb - 1 == cb * n + (size + cb - 1) % cb,
            0 <= (size + cb - 1) % cb,
    ;
}

/// Whether the entry that a handle remembers names the file's first cluster
/// and its length.
pub open spec fn noted(volume: Volume, file: FileView) -> bool {
    volume.stored_listing(file.directory) matches Ok(listing) && listing.entry_at(file.index)
        matches Some(entry) && entry.first_cluster == file.first_cluster && entry.size == file.size
}

/// Content that has had `data` put at `offset`: longer where it has to be,
/// with zeros in a gap. Without data it is as it was.
pub open spec fn overwritten(old: Seq<u8>, offset: int, data: Seq<u8>) -> Seq<u8> {
    let end = offset + data.len();
    if data.len() == 0 {
        old
    } else {
        Seq::new(
            (if end > old.len() {
                end
            } else {
                old.len() as int
            }) as nat,
            |i: int|
                if offset <= i < end {
                    data[i - offset]
                } else if i < old.len() {
                    old[i]
                } else {
                    0
                },
        )
    }
}

/// Content that was given another length: its start, or all of it and zeros.
pub open spec fn fitted_to(old: Seq<u8>, size: int) -> Seq<u8> {
    if size <= old.len() {
        old.take(size)
    } else {
        old + bytes::zeros((size - old.len()) as nat)
    }
}

/// A file that reads as `old` reads, once `data` is written at `offset`, as
/// `old` with the data put there, and its entry notes the length it then has.
pub proof fn lemma_write_then_read(
    volume: Volume,
    file: FileView,
    old: Seq<u8>,
    offset: int,
    data: Seq<u8>,
    now: DateTime,
)
    requires
        volume.laid_out(),
        volume.fits(),
        volume.coherent_at(file.directory),
        dir::slot_count(volume.stored(file.directory)) <= u32::MAX,
        laws::unentangled(volume, file),
        0 <= offset,
        volume.read_whole(file).1 == Ok::<Seq<u8>, Fault>(old),
        volume.write_file_at(file, offset, data, now).2 is Ok,
    ensures
        ({
            let (after, written, _) = volume.write_file_at(file, offset, data, now);
            let content = overwritten(old, offset, data);
            &&& after.read_whole(written).1 == Ok::<Seq<u8>, Fault>(content)
            &&& written.size == content.len()
            &&& noted(volume, file) ==> noted(after, written)
        }),
{
    assert(old.len() == file.size);
    let (after, written, _) = volume.write_file_at(file, offset, data, now);
    if data.len() == 0 {
        laws::lemma_live(volume, file);
        assert(after.stored(file.directory) =~= volume.stored(file.directory));
        laws::lemma_holds_live(after, file);
        lemma_looked_reads(volume, after, file);
    } else {
        laws::lemma_write_reads_back(volume, file, offset, data, now);
        lemma_write_reads_whole(volume, file, offset, data, now);
        let content = overwritten(old, offset, data);
        let expected = Seq::new(
            written.size as nat,
            |i: int| laws::byte_after(volume, file, offset, data, i),
        );
        assert(expected =~= content) by {
            assert forall|i: int| 0 <= i < written.size implies #[trigger] expected[i]
                == content[i] by {
                if i < file.size {
                    assert(old[i] == volume.chain_byte(
                        volume.table.chain(file.first_cluster)->Ok_0,
                        i,
                    ));
                }
            }
        }
        if offset + data.len() <= file.size {
            lemma_write_within_moves_no_time(volume, file, offset, data, now);
            lemma_same_start(volume, file, offset, data, now);
        }
    }
}

/// Looking at a volume makes no difference to what a file that is live reads
/// as.
proof fn lemma_looked_reads(volume: Volume, live: Volume, file: FileView)
    requires
        live.looks_like(volume),
        volume.check_live(file).1 is Ok,
        live.check_live(file).1 is Ok,
        volume.read_whole(file).1 is Ok,
    ensures
        live.read_whole(file).1 == volume.read_whole(file).1,
{
    if file.size > 0 {
        let clusters = volume.table.chain(file.first_cluster)->Ok_0;
        assert(live.chain_bytes(clusters) =~= volume.chain_bytes(clusters));
    }
}

/// A write that ends within the file leaves its first cluster.
proof fn lemma_same_start(
    volume: Volume,
    file: FileView,
    offset: int,
    data: Seq<u8>,
    now: DateTime,
)
    requires
        volume.laid_out(),
        whole(volume, file),
        0 <= offset,
        data.len() > 0,
        offset + data.len() <= file.size,
        volume.write_file_at(file, offset, data, now).2 is Ok,
    ensures
        volume.write_file_at(file, offset, data, now).1 == file,
{
    let live = volume.check_live(file).0;
    operations::lemma_check_live_looks(volume, file);
    let end = offset + data.len();
    let clusters = volume.table.chain(file.first_cluster)->Ok_0;
    fs::lemma_chain_size(volume, 0);
    lemma_enough(end, clusters.len() as int, volume.cluster_bytes());
    assert(live.reserve(file, end as u32, now) == (live, file, Ok::<(), Fault>(()))) by {
        reveal(Volume::reserve);
    }
    reveal(Volume::write_live);
}

/// A file that reads as `old` reads, once its length is set, as the start of
/// `old`, or as `old` and zeros after it, and its entry notes that length.
pub proof fn lemma_truncate_then_read(
    volume: Volume,
    file: FileView,
    old: Seq<u8>,
    size: u32,
    now: DateTime,
)
    requires
        volume.laid_out(),
        volume.fits(),
        volume.coherent_at(file.directory),
        dir::slot_count(volume.stored(file.directory)) <= u32::MAX,
        laws::unentangled(volume, file),
        volume.read_whole(file).1 == Ok::<Seq<u8>, Fault>(old),
        volume.truncate(file, size, now).2 is Ok,
    ensures
        ({
            let (after, fitted, _) = volume.truncate(file, size, now);
            &&& after.read_whole(fitted).1 == Ok::<Seq<u8>, Fault>(fitted_to(old, size as int))
            &&& fitted.size == size
            &&& size < file.size ==> keeps_start(volume, after, file, fitted, size)
            &&& noted(volume, file) ==> noted(after, fitted)
        }),
{
    assert(old.len() == file.size);
    lemma_truncate(volume, file, size, now);
    let (after, fitted, _) = volume.truncate(file, size, now);
    steady::lemma_truncate(volume, file, size, now);
    lemma_resized_reads(volume, after, file, fitted, size, now);
    let content = fitted_to(old, size as int);
    let expected = Seq::new(
        size as nat,
        |i: int| laws::byte_after(volume, file, 0, Seq::empty(), i),
    );
    assert(expected =~= content) by {
        assert forall|i: int| 0 <= i < size implies #[trigger] expected[i] == content[i] by {
            if i < file.size {
                assert(old[i] == volume.chain_byte(
                    volume.table.chain(file.first_cluster)->Ok_0,
                    i,
                ));
            }
        }
    }
    if size == file.size {
        laws::lemma_live(volume, file);
        assert(after.stored(file.directory) =~= volume.stored(file.directory));
    }
}

} // verus!
