//! What a power cut leaves: the calls of an operation reach the device one by
//! one, and may stop after any of them.
use vstd::prelude::*;

use crate::blockdev;
use crate::blockdev::Access;
use crate::boot;
use crate::bytes;
use crate::calls;
use crate::chains;
use crate::dir;
use crate::error::FatError;
use crate::fs;
use crate::laws;
use crate::name::StoredView;
use crate::operations;
use crate::operations::FileView;
use crate::steady;
use crate::storage;
use crate::table;
use crate::table::{Run, Table};
use crate::time::DateTime;
use crate::volume;
use crate::volume::{Edit, Volume};

verus! {

/// Whether a call leaves `value` where it is, at place `p` of the device.
pub open spec fn keeps(call: Access, p: int, value: u8) -> bool {
    match call {
        Access::Read { .. } => true,
        Access::Write { start, data } => 512 * start <= p < 512 * start + data.len() ==> data[p
            - 512 * start] == value,
    }
}

/// Whether no call made on the way from one volume to the other changes what
/// is at place `p` of the device.
pub open spec fn spares(before: Volume, after: Volume, p: int) -> bool {
    &&& before.history.len() <= after.history.len()
    &&& forall|i: int|
        0 <= i < before.history.len() ==> #[trigger] after.history[i] == before.history[i]
    &&& forall|i: int|
        before.history.len() <= i < after.history.len() ==> keeps(
            #[trigger] after.history[i],
            p,
            before.disk[p],
        )
    &&& after.disk[p] == before.disk[p]
}

/// What a device holds after some calls.
pub open spec fn replayed(disk: Seq<u8>, calls: Seq<Access>) -> Seq<u8>
    decreases calls.len(),
{
    if calls.len() == 0 {
        disk
    } else {
        let before = replayed(disk, calls.drop_last());
        match calls.last() {
            Access::Read { .. } => before,
            Access::Write { start, data } => bytes::splice(before, 512 * start, data),
        }
    }
}

/// What is spared is there after any number of the calls.
pub proof fn lemma_replayed(before: Volume, after: Volume, p: int, n: int)
    requires
        spares(before, after, p),
        0 <= p < before.disk.len(),
        before.history.len() <= n <= after.history.len(),
    ensures
        replayed(
            before.disk,
            after.history.subrange(before.history.len() as int, n),
        ).len() == before.disk.len(),
        replayed(before.disk, after.history.subrange(before.history.len() as int, n))[p]
            == before.disk[p],
    decreases n,
{
    let calls = after.history.subrange(before.history.len() as int, n);
    if n > before.history.len() {
        lemma_replayed(before, after, p, n - 1);
        assert(calls.drop_last() =~= after.history.subrange(
            before.history.len() as int,
            n - 1,
        ));
        assert(calls.last() == after.history[n - 1]);
        assert(keeps(after.history[n - 1], p, before.disk[p]));
    }
}

/// One step after another.
pub proof fn lemma_then(a: Volume, b: Volume, c: Volume, p: int)
    requires
        spares(a, b, p),
        spares(b, c, p),
    ensures
        spares(a, c, p),
{
    assert forall|i: int| 0 <= i < a.history.len() implies #[trigger] c.history[i]
        == a.history[i] by {
        assert(b.history[i] == a.history[i]);
    }
    assert forall|i: int| a.history.len() <= i < c.history.len() implies keeps(
        #[trigger] c.history[i],
        p,
        a.disk[p],
    ) by {
        if i < b.history.len() {
            assert(c.history[i] == b.history[i]);
            assert(keeps(b.history[i], p, a.disk[p]));
        }
    }
}

/// The calls of a long write.
proof fn lemma_writes(start: int, data: Seq<u8>, batch: int, p: int, value: u8)
    requires
        512 * start <= p < 512 * start + data.len() ==> data[p - 512 * start] == value,
    ensures
        forall|i: int|
            0 <= i < blockdev::writes(start, data, batch).len() ==> keeps(
                #[trigger] blockdev::writes(start, data, batch)[i],
                p,
                value,
            ),
    decreases data.len(),
{
    let calls = blockdev::writes(start, data, batch);
    if data.len() <= 512 * batch || batch <= 0 {
        assert(calls =~= seq![Access::Write { start, data }]);
    } else {
        let first = data.take(512 * batch);
        let rest = data.skip(512 * batch);
        lemma_writes(start + batch, rest, batch, p, value);
        let later = blockdev::writes(start + batch, rest, batch);
        assert forall|i: int| 0 <= i < calls.len() implies keeps(#[trigger] calls[i], p, value) by {
            if i == 0 {
                assert(calls[0] == Access::Write { start, data: first });
            } else {
                assert(calls[i] == later[i - 1]);
            }
        }
    }
}

/// Marking the volume dirty changes the first sector alone.
proof fn lemma_marked(volume: Volume, p: int)
    requires
        volume.at(1) <= p < volume.disk.len(),
    ensures
        spares(volume, volume.marked(), p),
        volume.marked().disk.len() == volume.disk.len(),
{
}

/// Writing sectors spares what it does not reach, and what it writes as it
/// was.
pub proof fn lemma_wrote(volume: Volume, sector: int, data: Seq<u8>, p: int)
    requires
        volume.at(1) <= p < volume.disk.len(),
        volume.at(sector) <= p < volume.at(sector) + data.len() ==> data[p - volume.at(sector)]
            == volume.disk[p],
    ensures
        spares(volume, volume.wrote(sector, data), p),
        volume.wrote(sector, data).disk.len() == volume.disk.len(),
{
    let marked = volume.marked();
    let after = volume.wrote(sector, data);
    lemma_marked(volume, p);
    lemma_writes(
        volume.first_block + sector,
        data,
        volume.batch(),
        p,
        volume.disk[p],
    );
    let calls = blockdev::writes(volume.first_block + sector, data, volume.batch());
    assert forall|i: int| marked.history.len() <= i < after.history.len() implies keeps(
        #[trigger] after.history[i],
        p,
        marked.disk[p],
    ) by {
        assert(after.history[i] == calls[i - marked.history.len()]);
    }
    assert(spares(marked, after, p));
    lemma_then(volume, marked, after, p);
}

/// Whether nothing but reads was asked for on the way from one volume to the
/// other, and nothing changed but what is remembered of directories.
pub open spec fn looked(before: Volume, after: Volume) -> bool {
    &&& after.looks_like(before)
    &&& before.history.len() <= after.history.len()
    &&& forall|i: int|
        0 <= i < before.history.len() ==> #[trigger] after.history[i] == before.history[i]
    &&& forall|i: int|
        before.history.len() <= i < after.history.len() ==> (#[trigger] after.history[i]) is Read
}

/// Looking once and again is looking.
pub proof fn lemma_looked_twice(a: Volume, b: Volume, c: Volume)
    requires
        looked(a, b),
        looked(b, c),
    ensures
        looked(a, c),
{
    assert forall|i: int| 0 <= i < a.history.len() implies #[trigger] c.history[i]
        == a.history[i] by {
        assert(b.history[i] == a.history[i]);
    }
    assert forall|i: int| a.history.len() <= i < c.history.len() implies (
    #[trigger] c.history[i]) is Read by {
        if i < b.history.len() {
            assert(c.history[i] == b.history[i]);
        }
    }
}

/// The calls of a long read are reads.
proof fn lemma_reads(start: int, blocks: int, batch: int)
    ensures
        forall|i: int|
            0 <= i < blockdev::reads(start, blocks, batch).len() ==> (
            #[trigger] blockdev::reads(start, blocks, batch)[i]) is Read,
    decreases blocks,
{
    if !(blocks <= batch || batch <= 0) {
        lemma_reads(start + batch, blocks - batch, batch);
        let calls = blockdev::reads(start, blocks, batch);
        let later = blockdev::reads(start + batch, blocks - batch, batch);
        assert forall|i: int| 0 <= i < calls.len() implies (#[trigger] calls[i]) is Read by {
            if i > 0 {
                assert(calls[i] == later[i - 1]);
            }
        }
    }
}

proof fn lemma_run_reads(volume: Volume, runs: Seq<Run>)
    ensures
        forall|i: int|
            0 <= i < volume.run_reads(runs).len() ==> (#[trigger] volume.run_reads(runs)[i]) is Read,
    decreases runs.len(),
{
    if runs.len() > 0 {
        lemma_run_reads(volume, runs.drop_last());
        let sector = volume.boot.spec_cluster_sector(runs.last().start_cluster as int);
        let n = runs.last().clusters * volume.boot.sectors_per_cluster;
        lemma_reads(volume.first_block + sector, n, volume.batch());
    }
}

/// Reading sectors.
proof fn lemma_after_read(volume: Volume, sector: int, n: int)
    ensures
        looked(volume, volume.after_read(sector, n)),
{
    lemma_reads(volume.first_block + sector, n, volume.batch());
}

/// Reading a directory.
pub proof fn lemma_read_dir(volume: Volume, cluster: u32)
    ensures
        looked(volume, volume.read_dir(cluster).0),
{
    reveal(Volume::read_dir);
    if volume.table.chain(cluster) is Ok {
        lemma_run_reads(volume, table::coalesce(volume.table.chain(cluster)->Ok_0));
    }
}

/// Walking a path.
pub proof fn lemma_resolve(volume: Volume, cluster: u32, path: Seq<char>)
    ensures
        looked(volume, volume.resolve(cluster, path).0),
    decreases path.len(),
{
    let name = volume::first_component(path);
    let rest = volume::after_component(path);
    if path.len() > 0 {
        if name.len() == 0 || name =~= seq!['.'] {
            lemma_resolve(volume, cluster, rest);
        } else {
            lemma_read_dir(volume, cluster);
            let (entered, result) = volume.enter(cluster, name);
            if result is Ok {
                lemma_resolve(entered, result->Ok_0, rest);
                lemma_looked_twice(volume, entered, entered.resolve(result->Ok_0, rest).0);
            }
        }
    }
}

impl Volume {
    /// Where byte `o` of a cluster's entry is, in one copy of the table.
    pub open spec fn link_at(self, cluster: u32, copy: int, o: int) -> int {
        self.copy_at(copy) + 4 * cluster + o
    }

    /// Whether a place on the device belongs to a cluster: it is one of its
    /// bytes, or of its entry's in some copy of the table.
    pub open spec fn owns(self, cluster: u32, p: int) -> bool {
        ||| self.in_cluster(cluster, p)
        ||| exists|copy: int, o: int|
            0 <= copy < self.boot.fat_count && 0 <= o < 4 && p == #[trigger] self.link_at(
                cluster,
                copy,
                o,
            )
    }

    /// Whether every copy of the table on the device holds a cluster's entry
    /// as it is in memory.
    pub open spec fn link_stored(self, cluster: u32) -> bool {
        forall|copy: int, o: int|
            0 <= copy < self.boot.fat_count && 0 <= o < 4 ==> self.disk[#[trigger] self.link_at(
                cluster,
                copy,
                o,
            )] == bytes::u32_bytes(self.table.entries[cluster as int])[o]
    }
}

/// Whether a cluster is left alone on the way from one volume to the other:
/// its entry is the same, and if that is on the device, then no call changes
/// a byte of the cluster or of its entry.
#[verifier::opaque]
pub open spec fn leaves(before: Volume, after: Volume, cluster: u32) -> bool {
    &&& after.boot == before.boot
    &&& after.first_block == before.first_block
    &&& after.disk.len() == before.disk.len()
    &&& after.laid_out()
    &&& after.table.entries[cluster as int] == before.table.entries[cluster as int]
    &&& before.link_stored(cluster) ==> forall|p: int| #[trigger]
        before.owns(cluster, p) ==> spares(before, after, p)
}

/// What belongs to a cluster lies in the volume, past its first sector.
proof fn lemma_owned(volume: Volume, cluster: u32, p: int)
    requires
        volume.laid_out(),
        volume.fits(),
        volume.table.valid(cluster as int),
        volume.owns(cluster, p),
    ensures
        volume.at(1) <= p < volume.disk.len(),
        volume.in_cluster(cluster, p) ==> volume.data_at() <= p,
        !volume.in_cluster(cluster, p) ==> p < volume.data_at(),
{
    if volume.in_cluster(cluster, p) {
        fs::lemma_run_in_volume(volume, cluster as int, 1);
    } else {
        let (copy, o) = choose|copy: int, o: int|
            0 <= copy < volume.boot.fat_count && 0 <= o < 4 && p == #[trigger] volume.link_at(
                cluster,
                copy,
                o,
            );
        steady::lemma_flush_stores(volume, copy, 4 * cluster + o);
    }
}

/// One step after another.
pub proof fn lemma_leaves_then(a: Volume, b: Volume, c: Volume, cluster: u32)
    requires
        leaves(a, b, cluster),
        leaves(b, c, cluster),
    ensures
        leaves(a, c, cluster),
{
    reveal(leaves);
    if a.link_stored(cluster) {
        assert(b.link_stored(cluster)) by {
            assert forall|copy: int, o: int|
                0 <= copy < b.boot.fat_count && 0 <= o < 4 implies b.disk[
            #[trigger] b.link_at(cluster, copy, o)] == bytes::u32_bytes(
                b.table.entries[cluster as int],
            )[o] by {
                let p = a.link_at(cluster, copy, o);
                assert(p == b.link_at(cluster, copy, o));
                assert(a.owns(cluster, p));
                assert(a.disk[p] == bytes::u32_bytes(a.table.entries[cluster as int])[o]);
            }
        }
        assert forall|p: int| #[trigger] a.owns(cluster, p) implies spares(a, c, p) by {
            assert(b.owns(cluster, p)) by {
                if !a.in_cluster(cluster, p) {
                    let (copy, o) = choose|copy: int, o: int|
                        0 <= copy < a.boot.fat_count && 0 <= o < 4 && p == #[trigger] a.link_at(
                            cluster,
                            copy,
                            o,
                        );
                    assert(p == b.link_at(cluster, copy, o));
                }
            }
            lemma_then(a, b, c, p);
        }
    }
}

/// Looking leaves everything alone.
pub proof fn lemma_leaves_looked(before: Volume, after: Volume, cluster: u32)
    requires
        before.laid_out(),
        looked(before, after),
    ensures
        leaves(before, after, cluster),
{
    reveal(leaves);
    assert forall|p: int| #[trigger] before.owns(cluster, p) implies spares(before, after, p) by {
        assert forall|i: int| before.history.len() <= i < after.history.len() implies keeps(
            #[trigger] after.history[i],
            p,
            before.disk[p],
        ) by {
            assert(after.history[i] is Read);
        }
    }
}

/// A change of the table that is not one of the cluster's entry.
pub proof fn lemma_leaves_table(before: Volume, after: Volume, cluster: u32)
    requires
        after.history == before.history,
        after.disk == before.disk,
        after.boot == before.boot,
        after.first_block == before.first_block,
        after.laid_out(),
        after.table.entries[cluster as int] == before.table.entries[cluster as int],
    ensures
        leaves(before, after, cluster),
{
    reveal(leaves);
}

/// Writing sectors of the data area that are none of the cluster's.
proof fn lemma_leaves_wrote(volume: Volume, sector: int, data: Seq<u8>, cluster: u32)
    requires
        volume.laid_out(),
        volume.fits(),
        volume.table.valid(cluster as int),
        volume.boot.data_start <= sector,
        forall|p: int| #[trigger]
            volume.in_cluster(cluster, p) ==> !(volume.at(sector) <= p < volume.at(sector)
                + data.len()),
    ensures
        leaves(volume, volume.wrote(sector, data), cluster),
{
    reveal(leaves);
    storage::lemma_wrote(volume, sector, data);
    assert forall|p: int| #[trigger] volume.owns(cluster, p) implies spares(
        volume,
        volume.wrote(sector, data),
        p,
    ) by {
        lemma_owned(volume, cluster, p);
        lemma_wrote(volume, sector, data, p);
    }
}

/// Writing the table's changes to some copies.
proof fn lemma_wrote_copies(volume: Volume, stretch: (u32, u32), copies: int, cluster: u32, p: int)
    requires
        volume.laid_out(),
        volume.fits(),
        volume.table.valid(cluster as int),
        volume.owns(cluster, p),
        volume.link_stored(cluster),
        stretch.0 + stretch.1 <= volume.table.sectors_per_fat,
        0 <= copies <= volume.table.fat_count,
    ensures
        spares(volume, volume.wrote_copies(stretch, copies), p),
        volume.wrote_copies(stretch, copies).written_from(volume),
        volume.wrote_copies(stretch, copies).disk.len() == volume.disk.len(),
    decreases copies,
{
    if copies > 0 {
        lemma_wrote_copies(volume, stretch, copies - 1, cluster, p);
        let before = volume.wrote_copies(stretch, copies - 1);
        let spf = volume.table.sectors_per_fat as int;
        let c = copies - 1;
        let sector = volume.table.fat_start + c * spf + stretch.0;
        let data = volume::stretch_bytes(
            volume.table.entries,
            stretch.0 as int,
            stretch.1 as int,
        );
        lemma_owned(volume, cluster, p);
        assert(c * spf + spf <= volume.table.fat_count * spf) by (nonlinear_arith)
            requires
                0 <= c < volume.table.fat_count,
                0 <= spf,
        ;
        assert(before.at(sector) <= p < before.at(sector) + data.len() ==> data[p - before.at(
            sector,
        )] == before.disk[p]) by {
            if before.at(sector) <= p < before.at(sector) + data.len() {
                if !volume.in_cluster(cluster, p) {
                    let (copy, o) = choose|copy: int, o: int|
                        0 <= copy < volume.boot.fat_count && 0 <= o < 4 && p
                            == #[trigger] volume.link_at(cluster, copy, o);
                    assert(copy == c) by {
                        if copy < c {
                            steady::lemma_copies_apart(spf, copy, c);
                        } else if c < copy {
                            steady::lemma_copies_apart(spf, c, copy);
                        }
                    }
                    let i = 4 * cluster + o;
                    assert(i / 4 == cluster && i % 4 == o);
                    assert(data[p - before.at(sector)] == table::table_byte(
                        volume.table.entries,
                        i,
                    ));
                    assert(volume.disk[volume.link_at(cluster, copy, o)] == bytes::u32_bytes(
                        volume.table.entries[cluster as int],
                    )[o]);
                }
            }
        }
        lemma_wrote(before, sector, data, p);
        lemma_then(volume, before, before.wrote(sector, data), p);
    }
}

/// Writing stretches of the table to all copies.
proof fn lemma_wrote_stretches(volume: Volume, stretches: Seq<(u32, u32)>, cluster: u32, p: int)
    requires
        volume.laid_out(),
        volume.fits(),
        volume.table.valid(cluster as int),
        volume.owns(cluster, p),
        volume.link_stored(cluster),
        forall|t: int|
            0 <= t < stretches.len() ==> {
                let (start, length) = #[trigger] stretches[t];
                start + length <= volume.table.sectors_per_fat
            },
    ensures
        spares(volume, volume.wrote_stretches(stretches), p),
        volume.wrote_stretches(stretches).written_from(volume),
        volume.wrote_stretches(stretches).disk.len() == volume.disk.len(),
        volume.wrote_stretches(stretches).link_stored(cluster),
    decreases stretches.len(),
{
    if stretches.len() > 0 {
        let fewer = stretches.drop_last();
        let last = stretches.last();
        assert forall|t: int| 0 <= t < fewer.len() implies {
            let (start, length) = #[trigger] fewer[t];
            start + length <= volume.table.sectors_per_fat
        } by {
            let (start, length) = stretches[t];
        }
        let (start, length) = stretches[stretches.len() - 1];
        lemma_wrote_stretches(volume, fewer, cluster, p);
        let before = volume.wrote_stretches(fewer);
        let copies = volume.table.fat_count as int;
        let after = before.wrote_copies(last, copies);
        assert(before.owns(cluster, p)) by {
            lemma_owns_same(volume, before, cluster, p);
        }
        lemma_wrote_copies(before, last, copies, cluster, p);
        lemma_then(volume, before, after, p);
        assert forall|copy: int, o: int|
            0 <= copy < after.boot.fat_count && 0 <= o < 4 implies after.disk[
        #[trigger] after.link_at(cluster, copy, o)] == bytes::u32_bytes(
            after.table.entries[cluster as int],
        )[o] by {
            let q = before.link_at(cluster, copy, o);
            assert(before.owns(cluster, q));
            lemma_wrote_copies(before, last, copies, cluster, q);
        }
    }
}

/// What belongs to a cluster is a matter of where the volume is.
proof fn lemma_owns_same(a: Volume, b: Volume, cluster: u32, p: int)
    requires
        a.boot == b.boot,
        a.first_block == b.first_block,
        a.owns(cluster, p),
    ensures
        b.owns(cluster, p),
{
    if !a.in_cluster(cluster, p) {
        let (copy, o) = choose|copy: int, o: int|
            0 <= copy < a.boot.fat_count && 0 <= o < 4 && p == #[trigger] a.link_at(
                cluster,
                copy,
                o,
            );
        assert(p == b.link_at(cluster, copy, o));
    }
}

/// Writing the table's changes.
proof fn lemma_leaves_flush(volume: Volume, cluster: u32)
    requires
        volume.laid_out(),
        volume.fits(),
        volume.table.valid(cluster as int),
    ensures
        leaves(volume, volume.flush(), cluster),
{
    reveal(leaves);
    storage::lemma_flush(volume);
    let n = volume.table.dirty.len() as int;
    let stretches = table::dirty_stretches(volume.table.dirty, n);
    steady::lemma_stretches_cover(volume.table.dirty, n, 0);
    let wrote = volume.wrote_stretches(stretches);
    assert(volume.flush().disk == wrote.disk && volume.flush().history == wrote.history) by {
        reveal(Volume::flush);
    }
    if volume.link_stored(cluster) {
        assert forall|p: int| #[trigger] volume.owns(cluster, p) implies spares(
            volume,
            volume.flush(),
            p,
        ) by {
            lemma_wrote_stretches(volume, stretches, cluster, p);
        }
    }
}

/// Changing part of a block, which is none of the cluster's.
proof fn lemma_leaves_patched(volume: Volume, sector: int, skip: int, data: Seq<u8>, cluster: u32)
    requires
        volume.laid_out(),
        volume.fits(),
        volume.table.valid(cluster as int),
        volume.boot.data_start <= sector < volume.boot.total_sectors,
        forall|p: int| #[trigger]
            volume.in_cluster(cluster, p) ==> !(volume.at(sector) <= p < volume.at(sector) + 512),
    ensures
        leaves(volume, volume.patched(sector, skip, data), cluster),
        volume.patched(sector, skip, data).written_from(volume),
{
    let read = volume.after_read(sector, 1);
    let block = bytes::splice(volume.sectors(sector, 1), skip, data);
    lemma_after_read(volume, sector, 1);
    lemma_leaves_looked(volume, read, cluster);
    assert forall|p: int| #[trigger] read.in_cluster(cluster, p) implies !(read.at(sector) <= p
        < read.at(sector) + block.len()) by {
        assert(volume.in_cluster(cluster, p));
    }
    lemma_leaves_wrote(read, sector, block, cluster);
    lemma_leaves_then(volume, read, read.wrote(sector, block), cluster);
}

/// Writing a span of `blocks` blocks that are none of the cluster's.
proof fn lemma_leaves_span(
    volume: Volume,
    sector: int,
    skip: int,
    data: Seq<u8>,
    blocks: int,
    cluster: u32,
)
    requires
        volume.laid_out(),
        volume.fits(),
        volume.table.valid(cluster as int),
        volume.boot.data_start <= sector,
        sector + blocks <= volume.boot.total_sectors,
        0 <= skip < 512,
        data.len() > 0,
        skip + data.len() <= 512 * blocks,
        forall|p: int| #[trigger]
            volume.in_cluster(cluster, p) ==> !(volume.at(sector) <= p < volume.at(sector) + 512
                * blocks),
    ensures
        leaves(volume, volume.wrote_span(sector, skip, data), cluster),
{
    reveal(Volume::wrote_span);
    let lead = if skip != 0 {
        operations::least(512 - skip, data.len() as int)
    } else {
        0
    };
    let next = if skip != 0 {
        sector + 1
    } else {
        sector
    };
    let rest = data.skip(lead);
    let whole = rest.len() as int / 512;
    let middle = rest.take(512 * whole);
    let tail = rest.skip(512 * whole);
    let first = if skip != 0 {
        volume.patched(sector, skip, data.take(lead))
    } else {
        volume
    };
    let second = if whole != 0 {
        first.wrote(next, middle)
    } else {
        first
    };
    let third = if tail.len() != 0 {
        second.patched(next + whole, 0, tail)
    } else {
        second
    };
    lemma_leaves_table(volume, volume, cluster);
    if skip != 0 {
        lemma_leaves_patched(volume, sector, skip, data.take(lead), cluster);
    }
    assert(leaves(volume, first, cluster));
    assert(first.disk.len() == volume.disk.len());
    if whole != 0 {
        assert forall|p: int| #[trigger] first.in_cluster(cluster, p) implies !(first.at(next) <= p
            < first.at(next) + middle.len()) by {
            assert(volume.in_cluster(cluster, p));
        }
        lemma_leaves_wrote(first, next, middle, cluster);
        lemma_leaves_then(volume, first, second, cluster);
    }
    assert(leaves(volume, second, cluster));
    assert(second.disk.len() == volume.disk.len());
    if tail.len() != 0 {
        assert forall|p: int| #[trigger] second.in_cluster(cluster, p) implies !(second.at(
            next + whole,
        ) <= p < second.at(next + whole) + 512) by {
            assert(volume.in_cluster(cluster, p));
        }
        lemma_leaves_patched(second, next + whole, 0, tail, cluster);
        lemma_leaves_then(volume, second, third, cluster);
    }
}

/// A run's bytes are those of its clusters.
proof fn lemma_in_run(volume: Volume, start: u32, clusters: int, p: int)
    requires
        volume.laid_out(),
        clusters > 0,
        volume.table.valid(start as int),
        volume.table.valid(start + clusters - 1),
        volume.cluster_at(start as int) <= p < volume.cluster_at(start as int) + clusters
            * volume.cluster_bytes(),
    ensures
        ({
            let j = (p - volume.cluster_at(start as int)) / volume.cluster_bytes();
            &&& 0 <= j < clusters
            &&& volume.in_cluster((start + j) as u32, p)
        }),
{
    let cb = volume.cluster_bytes();
    let spc = volume.boot.sectors_per_cluster as int;
    let q = p - volume.cluster_at(start as int);
    let j = q / cb;
    fs::lemma_chain_size(volume, 0);
    assert(0 <= j < clusters && j * cb <= q < j * cb + cb) by (nonlinear_arith)
        requires
            0 <= q < clusters * cb,
            0 < cb,
            j == q / cb,
    ;
    assert(512 * ((start - 2) * spc) + j * cb == 512 * ((start + j - 2) * spc)) by (nonlinear_arith)
        requires
            cb == spc * 512,
    ;
}

/// Writing to runs of which none holds the cluster.
proof fn lemma_leaves_runs(
    volume: Volume,
    runs: Seq<Run>,
    clusters: Seq<u32>,
    r: int,
    from: int,
    data: Seq<u8>,
    cluster: u32,
)
    requires
        volume.laid_out(),
        volume.fits(),
        volume.table.valid(cluster as int),
        table::tiles(runs, clusters),
        volume.table.links(clusters),
        !clusters.contains(cluster),
        0 <= r <= runs.len(),
        data.len() > 0 && r < runs.len() ==> runs[r].file_cluster * volume.cluster_bytes() <= from,
    ensures
        leaves(volume, volume.wrote_runs(runs.skip(r), from, data), cluster),
    decreases runs.len() - r,
{
    let rest = runs.skip(r);
    lemma_leaves_table(volume, volume, cluster);
    if data.len() > 0 && r < runs.len() {
        let cb = volume.cluster_bytes();
        let run = runs[r];
        let start = run.file_cluster * cb;
        let end = (run.file_cluster + run.clusters) * cb;
        assert(rest[0] == run);
        assert(rest.skip(1) =~= runs.skip(r + 1));
        assert(run.file_cluster + run.clusters == table::run_end(runs, r, clusters.len() as int));
        if from >= end {
            lemma_leaves_runs(volume, runs, clusters, r + 1, from, data, cluster);
        } else {
            let take = operations::least(end - from, data.len() as int);
            let base = volume.boot.spec_cluster_sector(run.start_cluster as int);
            let sector = base + (from - start) / 512;
            let skip = (from - start) % 512;
            let part = data.take(take);
            let left = data.skip(take);
            let span = volume.wrote_span(sector, skip, part);
            let blocks = base + run.clusters * volume.boot.sectors_per_cluster - sector;
            fs::lemma_run_valid(volume.table, runs, clusters, r);
            fs::lemma_run_in_volume(volume, run.start_cluster as int, run.clusters as int);
            assert(end == start + run.clusters * cb) by (nonlinear_arith)
                requires
                    start == run.file_cluster * cb,
                    end == (run.file_cluster + run.clusters) * cb,
            ;
            assert forall|p: int| #[trigger] volume.in_cluster(cluster, p) implies !(volume.at(
                sector,
            ) <= p < volume.at(sector) + 512 * blocks) by {
                if volume.at(sector) <= p < volume.at(sector) + 512 * blocks {
                    lemma_in_run(volume, run.start_cluster, run.clusters as int, p);
                    let j = (p - volume.cluster_at(run.start_cluster as int)) / cb;
                    storage::lemma_one_cluster(
                        volume,
                        cluster,
                        (run.start_cluster + j) as u32,
                        p,
                    );
                    table::lemma_tiles_bound(runs, clusters, r);
                    assert(clusters[run.file_cluster + j] == table::run_cluster(run, j));
                    assert(clusters.contains(cluster));
                }
            }
            lemma_leaves_span(volume, sector, skip, part, blocks, cluster);
            operations::lemma_wrote_span_frame(volume, sector, skip, part);
            lemma_leaves_runs(span, runs, clusters, r + 1, from + take, left, cluster);
            lemma_leaves_then(
                volume,
                span,
                span.wrote_runs(runs.skip(r + 1), from + take, left),
                cluster,
            );
        }
    }
}

/// Writing to a chain that the cluster is not of.
pub proof fn lemma_leaves_write_chain(
    volume: Volume,
    first: u32,
    offset: int,
    data: Seq<u8>,
    cluster: u32,
)
    requires
        volume.laid_out(),
        volume.fits(),
        volume.table.valid(cluster as int),
        0 <= offset,
        volume.table.chain(first) is Ok ==> !volume.table.chain(first)->Ok_0.contains(cluster),
    ensures
        leaves(volume, volume.write_chain(first, offset, data).0, cluster),
{
    reveal(Volume::write_chain);
    lemma_leaves_table(volume, volume, cluster);
    if volume.table.chain(first) is Ok {
        let clusters = volume.table.chain(first)->Ok_0;
        let runs = table::coalesce(clusters);
        table::lemma_chain(volume.table, first);
        table::lemma_coalesce_tiles(clusters);
        assert(runs.skip(0) =~= runs);
        assert(0int * volume.cluster_bytes() == 0) by (nonlinear_arith);
        lemma_leaves_runs(volume, runs, clusters, 0, offset, data, cluster);
    }
}

/// Writing zeros to a chain that the cluster is not of.
pub proof fn lemma_leaves_zero_chain(volume: Volume, first: u32, from: int, to: int, cluster: u32)
    requires
        volume.laid_out(),
        volume.fits(),
        volume.table.valid(cluster as int),
        0 <= from,
        volume.table.chain(first) is Ok ==> !volume.table.chain(first)->Ok_0.contains(cluster),
    ensures
        leaves(volume, volume.zero_chain(first, from, to).0, cluster),
    decreases to - from,
{
    lemma_leaves_table(volume, volume, cluster);
    if from < to {
        let take = operations::least(to - from, 0x1_0000);
        let part = bytes::zeros(take as nat);
        lemma_leaves_write_chain(volume, first, from, part, cluster);
        let (after, result) = volume.write_chain(first, from, part);
        operations::lemma_write_chain_frame(volume, first, from, part);
        if result is Ok {
            lemma_leaves_zero_chain(after, first, from + take, to, cluster);
            lemma_leaves_then(
                volume,
                after,
                after.zero_chain(first, from + take, to).0,
                cluster,
            );
        }
    }
}

/// Writing one block of a chain that the cluster is not of.
proof fn lemma_leaves_block(
    volume: Volume,
    clusters: Seq<u32>,
    b: int,
    block: Seq<u8>,
    cluster: u32,
)
    requires
        volume.laid_out(),
        volume.fits(),
        volume.table.valid(cluster as int),
        volume.table.links(clusters),
        clusters.no_duplicates(),
        !clusters.contains(cluster),
        0 <= b,
        b / (volume.boot.sectors_per_cluster as int) < clusters.len(),
        block.len() <= 512,
    ensures
        ({
            let spc = volume.boot.sectors_per_cluster as int;
            let sector = volume.boot.spec_cluster_sector(clusters[b / spc] as int) + b % spc;
            let after = volume.after_read(sector, 1).wrote(sector, block);
            &&& leaves(volume, after, cluster)
            &&& after.written_from(volume)
            &&& after.disk.len() == volume.disk.len()
        }),
{
    let spc = volume.boot.sectors_per_cluster as int;
    let sector = volume.boot.spec_cluster_sector(clusters[b / spc] as int) + b % spc;
    storage::lemma_block_written(volume, clusters, b, bytes::zeros(512));
    let read = volume.after_read(sector, 1);
    lemma_after_read(volume, sector, 1);
    lemma_leaves_looked(volume, read, cluster);
    assert forall|p: int| #[trigger] read.in_cluster(cluster, p) implies !(read.at(sector) <= p
        < read.at(sector) + block.len()) by {
        if read.at(sector) <= p < read.at(sector) + block.len() {
            storage::lemma_block_position(volume, clusters, b, p - read.at(sector));
            let i = 512 * b + (p - read.at(sector));
            storage::lemma_position(volume, clusters, i);
            storage::lemma_one_cluster(
                volume,
                cluster,
                clusters[i / volume.cluster_bytes()],
                p,
            );
            assert(clusters.contains(cluster));
        }
    }
    lemma_leaves_wrote(read, sector, block, cluster);
    lemma_leaves_then(volume, read, read.wrote(sector, block), cluster);
}

/// Changing a slot of a directory that the cluster is not of.
pub proof fn lemma_leaves_edit_slot(
    volume: Volume,
    directory: u32,
    index: u32,
    edit: Edit,
    cluster: u32,
)
    requires
        volume.laid_out(),
        volume.fits(),
        volume.table.valid(cluster as int),
        volume.table.chain(directory) is Ok ==> !volume.table.chain(directory)->Ok_0.contains(
            cluster,
        ),
    ensures
        leaves(volume, volume.edit_slot(directory, index, edit).0, cluster),
        volume.edit_slot(directory, index, edit).0.table == volume.table,
{
    reveal(Volume::edit_slot);
    lemma_leaves_table(volume, volume, cluster);
    if volume.slot_location(directory, index) is Ok {
        let clusters = volume.table.chain(directory)->Ok_0;
        table::lemma_chain(volume.table, directory);
        let spc = volume.boot.sectors_per_cluster as int;
        let b = index as int / 16;
        let sector = volume.boot.spec_cluster_sector(clusters[b / spc] as int) + b % spc;
        let offset = index as int % 16 * 32;
        let block = volume.sectors(sector, 1);
        let changed = edit.applied(block.subrange(offset, offset + 32));
        let written = bytes::splice(block, offset, changed);
        storage::lemma_block_written(volume, clusters, b, bytes::zeros(512));
        lemma_leaves_block(volume, clusters, b, written, cluster);
        let wrote = volume.after_read(sector, 1).wrote(sector, written);
        lemma_leaves_table(wrote, wrote.forgot(directory), cluster);
        lemma_leaves_then(volume, wrote, wrote.forgot(directory), cluster);
    }
}

/// Writing consecutive slots of a directory that the cluster is not of.
pub proof fn lemma_leaves_write_slots(
    volume: Volume,
    directory: u32,
    index: int,
    entries: Seq<Seq<u8>>,
    b: int,
    cluster: u32,
)
    requires
        volume.laid_out(),
        volume.fits(),
        volume.table.valid(cluster as int),
        volume.table.chain(directory) is Ok ==> !volume.table.chain(directory)->Ok_0.contains(
            cluster,
        ),
        0 <= b,
    ensures
        leaves(volume, volume.write_slots(directory, index, entries, b).0, cluster),
        volume.write_slots(directory, index, entries, b).0.table == volume.table,
    decreases index + entries.len() + 16 - 16 * b,
{
    lemma_leaves_table(volume, volume, cluster);
    if 16 * b >= index + entries.len() {
        lemma_leaves_table(volume, volume.forgot(directory), cluster);
    } else if volume.slot_location(directory, (16 * b) as u32) is Ok {
        let clusters = volume.table.chain(directory)->Ok_0;
        table::lemma_chain(volume.table, directory);
        let spc = volume.boot.sectors_per_cluster as int;
        let place = ((16 * b) as u32) as int / 16;
        let sector = volume.boot.spec_cluster_sector(clusters[place / spc] as int) + place % spc;
        let block = volume.filled_block(sector, b, index, entries);
        lemma_leaves_block(volume, clusters, place, block, cluster);
        let next = volume.after_read(sector, 1).wrote(sector, block);
        lemma_leaves_write_slots(next, directory, index, entries, b + 1, cluster);
        lemma_leaves_then(
            volume,
            next,
            next.write_slots(directory, index, entries, b + 1).0,
            cluster,
        );
    }
}

/// Marking slots of a directory deleted that the cluster is not of.
pub proof fn lemma_leaves_delete_down(
    volume: Volume,
    directory: u32,
    first: u32,
    last: u32,
    cluster: u32,
)
    requires
        volume.laid_out(),
        volume.fits(),
        volume.table.valid(cluster as int),
        volume.table.chain(directory) is Ok ==> !volume.table.chain(directory)->Ok_0.contains(
            cluster,
        ),
    ensures
        leaves(volume, volume.delete_down(directory, first, last).0, cluster),
        volume.delete_down(directory, first, last).0.table == volume.table,
    decreases last,
{
    lemma_leaves_edit_slot(volume, directory, last, Edit::Delete, cluster);
    let (edited, result) = volume.edit_slot(directory, last, Edit::Delete);
    if result is Ok && last > first {
        assert(edited.laid_out() && edited.fits()) by {
            reveal(leaves);
        }
        lemma_leaves_delete_down(edited, directory, first, (last - 1) as u32, cluster);
        lemma_leaves_then(
            volume,
            edited,
            edited.delete_down(directory, first, (last - 1) as u32).0,
            cluster,
        );
    }
}

/// Finding an entry.
pub proof fn lemma_look_up(volume: Volume, path: Seq<char>)
    ensures
        looked(volume, volume.look_up(path).0),
{
    reveal(Volume::look_up);
    let root = volume.boot.root_cluster;
    lemma_resolve(volume, root, operations::parent_of(path));
    let (resolved, result) = volume.resolve(root, operations::parent_of(path));
    if result is Ok {
        lemma_read_dir(resolved, result->Ok_0);
        lemma_looked_twice(volume, resolved, resolved.read_dir(result->Ok_0).0);
    }
}

/// Opening a file.
pub proof fn lemma_open(volume: Volume, path: Seq<char>)
    ensures
        looked(volume, volume.open(path).0),
{
    reveal(Volume::open);
    lemma_look_up(volume, path);
}

/// Checking a handle.
pub proof fn lemma_check_live(volume: Volume, file: FileView)
    ensures
        looked(volume, volume.check_live(file).0),
{
    reveal(Volume::check_live);
    lemma_read_dir(volume, file.directory);
}

/// Choosing a name.
pub proof fn lemma_plan_name(volume: Volume, directory: u32, name: Seq<char>)
    ensures
        looked(volume, volume.plan_name(directory, name).0),
{
    reveal(Volume::plan_name);
    lemma_read_dir(volume, directory);
}

impl Table {
    /// Whether a cluster is allocated.
    pub open spec fn in_use(self, cluster: u32) -> bool {
        self.valid(cluster as int) && self.value(cluster as int) != 0
    }

    /// Whether a cluster is not of the chain that starts at `start`.
    pub open spec fn foreign(self, cluster: u32, start: u32) -> bool {
        self.chain(start) is Ok ==> !self.chain(start)->Ok_0.contains(cluster)
    }
}

/// Allocating leaves what is in use alone.
pub proof fn lemma_allocated(table: Table, n: u32, cluster: u32)
    requires
        table.wf(),
        table.in_use(cluster),
    ensures
        table.allocated(n).0.wf(),
        table.allocated(n).0.same_place(table),
        table.allocated(n).0.entries[cluster as int] == table.entries[cluster as int],
        table.allocated(n).0.in_use(cluster),
        table.allocated(n).1 is Ok ==> !table.allocated(n).1->Ok_0.contains(cluster),
{
    if n > 0 && table.allocated(n).1 is Ok {
        chains::lemma_allocated(table, n);
        let clusters = table.allocated(n).1->Ok_0;
        if clusters.contains(cluster) {
            let i = clusters.index_of(cluster);
            assert(table.is_free(clusters[i] as int));
        }
    }
}

/// What growing a directory, or finding room in it, leaves alone: the
/// cluster, and a chain that is apart from the directory's.
#[verifier::opaque]
pub open spec fn passed_by(
    before: Volume,
    after: Volume,
    directory: u32,
    cluster: u32,
    other: u32,
) -> bool {
    &&& leaves(before, after, cluster)
    &&& after.laid_out()
    &&& after.fits()
    &&& after.boot == before.boot
    &&& after.table.in_use(cluster)
    &&& after.table.foreign(cluster, directory)
    &&& before.table.chain(directory) is Ok ==> after.table.chain(directory) is Ok
    &&& before.table.chain(other) is Ok && before.table.chain(directory) is Ok && chains::apart(
        before.table.chain(other)->Ok_0,
        before.table.chain(directory)->Ok_0,
    ) ==> {
        &&& after.table.chain(other) == before.table.chain(other)
        &&& after.table.chain(directory) is Ok
        &&& chains::apart(
            after.table.chain(other)->Ok_0,
            after.table.chain(directory)->Ok_0,
        )
    }
}

proof fn lemma_passed_by_looked(
    before: Volume,
    after: Volume,
    directory: u32,
    cluster: u32,
    other: u32,
)
    requires
        before.laid_out(),
        before.fits(),
        looked(before, after),
        before.table.in_use(cluster),
        before.table.foreign(cluster, directory),
    ensures
        passed_by(before, after, directory, cluster, other),
{
    reveal(passed_by);
    lemma_leaves_looked(before, after, cluster);
}

proof fn lemma_passed_by_twice(
    a: Volume,
    b: Volume,
    c: Volume,
    directory: u32,
    cluster: u32,
    other: u32,
)
    requires
        passed_by(a, b, directory, cluster, other),
        passed_by(b, c, directory, cluster, other),
    ensures
        passed_by(a, c, directory, cluster, other),
{
    reveal(passed_by);
    lemma_leaves_then(a, b, c, cluster);
}

/// Growing a directory.
proof fn lemma_leaves_grow(volume: Volume, directory: u32, cluster: u32, other: u32)
    requires
        volume.laid_out(),
        volume.fits(),
        volume.table.in_use(cluster),
        volume.table.foreign(cluster, directory),
        volume.grow_directory(directory).1 is Ok,
    ensures
        passed_by(volume, volume.grow_directory(directory).0, directory, cluster, other),
{
    reveal(passed_by);
    let after = volume.grow_directory(directory).0;
    let clusters = volume.table.chain(directory)->Ok_0;
    let added = volume.table.allocated(1).1->Ok_0;
    storage::lemma_grow_directory(volume, directory);
    table::lemma_chain(volume.table, directory);
    chains::lemma_allocated(volume.table, 1);
    lemma_allocated(volume.table, 1, cluster);
    chains::lemma_appended(volume.table, directory, 1);
    let held = Volume { table: volume.table.allocated(1).0, ..volume };
    lemma_leaves_table(volume, held, cluster);
    let sector = volume.boot.spec_cluster_sector(added[0] as int);
    let data = bytes::zeros(volume.cluster_bytes() as nat);
    fs::lemma_run_in_volume(volume, added[0] as int, 1);
    assert(added.contains(added[0]));
    assert forall|p: int| #[trigger] held.in_cluster(cluster, p) implies !(held.at(sector) <= p
        < held.at(sector) + data.len()) by {
        if held.at(sector) <= p < held.at(sector) + data.len() {
            storage::lemma_one_cluster(held, cluster, added[0], p);
        }
    }
    lemma_leaves_wrote(held, sector, data, cluster);
    let zeroed = held.wrote(sector, data);
    lemma_leaves_then(volume, held, zeroed, cluster);
    assert(cluster != clusters.last()) by {
        if cluster == clusters.last() {
            assert(clusters[clusters.len() - 1] == cluster);
        }
    }
    assert(after.table.entries[cluster as int] == zeroed.table.entries[cluster as int]);
    assert(after.disk == zeroed.disk && after.history == zeroed.history) by {
        reveal(Volume::grow_directory);
    }
    lemma_leaves_table(zeroed, after, cluster);
    lemma_leaves_then(volume, zeroed, after, cluster);
    assert(!(clusters + added).contains(cluster));
    if volume.table.chain(other) is Ok && chains::apart(
        volume.table.chain(other)->Ok_0,
        clusters,
    ) {
        let theirs = volume.table.chain(other)->Ok_0;
        chains::lemma_chain_not_free(volume.table, other, added);
        let changed = added.push(clusters.last());
        assert(chains::apart(theirs, changed)) by {
            assert forall|i: int, j: int|
                0 <= i < theirs.len() && 0 <= j < changed.len() implies #[trigger] theirs[i]
                != #[trigger] changed[j] by {
                if j < added.len() {
                    assert(changed[j] == added[j]);
                } else {
                    assert(changed[j] == clusters[clusters.len() - 1]);
                }
            }
        }
        chains::lemma_chain_apart(volume.table, after.table, other, changed);
        assert(chains::apart(theirs, clusters + added)) by {
            assert forall|i: int, j: int|
                0 <= i < theirs.len() && 0 <= j < (clusters + added).len() implies #[trigger] theirs[i]
                != #[trigger] (clusters + added)[j] by {
                if j < clusters.len() {
                    assert((clusters + added)[j] == clusters[j]);
                } else {
                    assert((clusters + added)[j] == added[j - clusters.len()]);
                }
            }
        }
    }
}

/// Finding room in a directory.
pub proof fn lemma_leaves_find_room(
    volume: Volume,
    directory: u32,
    count: u32,
    attempts: int,
    cluster: u32,
    other: u32,
)
    requires
        volume.laid_out(),
        volume.fits(),
        volume.table.in_use(cluster),
        volume.table.foreign(cluster, directory),
        volume.find_room(directory, count, attempts).1 is Ok,
    ensures
        passed_by(
            volume,
            volume.find_room(directory, count, attempts).0,
            directory,
            cluster,
            other,
        ),
    decreases attempts,
{
    lemma_read_dir(volume, directory);
    let (read, result) = volume.read_dir(directory);
    lemma_passed_by_looked(volume, read, directory, cluster, other);
    let listing = result->Ok_0;
    if listing.room_for(count) is None {
        let (grown, result) = read.grow_directory(directory);
        lemma_leaves_grow(read, directory, cluster, other);
        lemma_passed_by_twice(volume, read, grown, directory, cluster, other);
        assert(grown.laid_out() && grown.fits() && grown.table.in_use(cluster)
            && grown.table.foreign(cluster, directory)) by {
            reveal(passed_by);
        }
        lemma_leaves_find_room(grown, directory, count, attempts - 1, cluster, other);
        lemma_passed_by_twice(
            volume,
            grown,
            grown.find_room(directory, count, attempts - 1).0,
            directory,
            cluster,
            other,
        );
    }
}

/// Putting a new entry into a directory.
proof fn lemma_leaves_publish(
    volume: Volume,
    directory: u32,
    stored: StoredView,
    entry: Seq<u8>,
    first: u32,
    index: u32,
    cluster: u32,
    other: u32,
)
    requires
        volume.laid_out(),
        volume.fits(),
        volume.table.in_use(cluster),
        volume.table.foreign(cluster, directory),
        volume.publish(directory, stored, entry, first, index).1 is Ok,
    ensures
        passed_by(
            volume,
            volume.publish(directory, stored, entry, first, index).0,
            directory,
            cluster,
            other,
        ),
{
    reveal(passed_by);
    reveal(Volume::publish);
    let entries = stored.slots.push(entry);
    let flushed = volume.flush();
    let after = flushed.put_slots(directory, index, entries).0;
    lemma_leaves_flush(volume, cluster);
    storage::lemma_flush(volume);
    laws::lemma_flushed_chains(volume.table);
    assert(flushed.fits());
    lemma_leaves_write_slots(
        flushed,
        directory,
        index as int,
        entries,
        index as int / 16,
        cluster,
    );
    lemma_leaves_then(volume, flushed, after, cluster);
    assert(after.laid_out() && after.fits() && after.boot == volume.boot) by {
        reveal(leaves);
    }
}

/// What making a file leaves alone.
proof fn lemma_leaves_create_with(
    volume: Volume,
    directory: u32,
    stored: StoredView,
    first: u32,
    now: DateTime,
    cluster: u32,
)
    requires
        volume.laid_out(),
        volume.fits(),
        volume.table.in_use(cluster),
        volume.table.foreign(cluster, directory),
        volume.create_with(directory, stored, first, now).1 is Ok,
    ensures
        passed_by(
            volume,
            volume.create_with(directory, stored, first, now).0,
            directory,
            cluster,
            first,
        ),
        volume.create_with(directory, stored, first, now).1->Ok_0.first_cluster == first,
        volume.create_with(directory, stored, first, now).1->Ok_0.directory == directory,
{
    reveal(Volume::create_with);
    let count = (stored.slots.len() + 1) as u32;
    let attempts = fs::MAX_DIRECTORY_GROWTH as int;
    lemma_leaves_find_room(volume, directory, count, attempts, cluster, first);
    let (roomy, result) = volume.find_room(directory, count, attempts);
    let index = result->Ok_0;
    let entry = dir::entry_bytes(stored.short, 0x20, first, 0, now);
    assert(roomy.laid_out() && roomy.fits() && roomy.table.in_use(cluster)
        && roomy.table.foreign(cluster, directory)) by {
        reveal(passed_by);
    }
    lemma_leaves_publish(roomy, directory, stored, entry, first, index, cluster, first);
    lemma_passed_by_twice(
        volume,
        roomy,
        roomy.publish(directory, stored, entry, first, index).0,
        directory,
        cluster,
        first,
    );
}

/// Creating a file leaves alone every cluster that is in use and not of the
/// directory it is created in: however many of its calls reach the device,
/// no byte of such a cluster or of its links changes.
pub proof fn lemma_create(
    volume: Volume,
    path: Seq<char>,
    size: u32,
    now: DateTime,
    cluster: u32,
)
    requires
        volume.laid_out(),
        volume.fits(),
        volume.create(path, size, now).1 is Ok,
        volume.table.in_use(cluster),
        ({
            let directory = volume.resolve(
                volume.boot.root_cluster,
                operations::parent_of(path),
            ).1->Ok_0;
            &&& volume.table.chain(directory) is Ok
            &&& volume.table.foreign(cluster, directory)
        }),
    ensures
        leaves(volume, volume.create(path, size, now).0, cluster),
        ({
            let (after, result) = volume.create(path, size, now);
            let file = result->Ok_0;
            &&& after.laid_out()
            &&& after.fits()
            &&& after.boot == volume.boot
            &&& after.table.in_use(cluster)
            &&& after.table.foreign(cluster, file.directory)
            &&& file.first_cluster != 0 ==> after.table.foreign(cluster, file.first_cluster)
            &&& after.table.chain(file.directory) is Ok
            &&& laws::unentangled(after, file)
            &&& file.directory == volume.resolve(
                volume.boot.root_cluster,
                operations::parent_of(path),
            ).1->Ok_0
        }),
{
    let root = volume.boot.root_cluster;
    lemma_resolve(volume, root, operations::parent_of(path));
    let (resolved, result) = volume.resolve(root, operations::parent_of(path));
    let directory = result->Ok_0;
    lemma_plan_name(resolved, directory, operations::name_of(path));
    let (planned, result) = resolved.plan_name(directory, operations::name_of(path));
    let stored = result->Ok_0;
    lemma_looked_twice(volume, resolved, planned);
    lemma_leaves_looked(volume, planned, cluster);
    let count = operations::clusters_for(size as int, volume.cluster_bytes()) as u32;
    let (table, result) = planned.table.allocated(count);
    let clusters = result->Ok_0;
    let first = if clusters.len() > 0 {
        clusters[0]
    } else {
        0
    };
    lemma_allocated(planned.table, count, cluster);
    let held = Volume { table, ..planned };
    lemma_leaves_table(planned, held, cluster);
    lemma_leaves_then(volume, planned, held, cluster);
    let after = held.create_with(directory, stored, first, now).0;
    assert(volume.create(path, size, now) == held.create_with(directory, stored, first, now));
    assert(held.table.chain(directory) is Ok && held.table.foreign(cluster, directory) && (count > 0
        ==> held.table.chain(first) == Ok::<
        Seq<u32>,
        FatError,
    >(clusters) && chains::apart(clusters, held.table.chain(directory)->Ok_0))) by {
        if count > 0 {
            chains::lemma_allocated(planned.table, count);
            chains::lemma_allocated_keeps(planned.table, count, directory);
        }
    }
    lemma_leaves_create_with(held, directory, stored, first, now, cluster);
    assert(leaves(held, after, cluster)) by {
        reveal(passed_by);
    }
    lemma_leaves_then(volume, held, after, cluster);
    assert(after.laid_out() && after.fits() && after.boot == volume.boot
        && after.table.in_use(cluster) && after.table.foreign(cluster, directory)
        && after.table.chain(directory) is Ok && (first != 0 ==> after.table.foreign(cluster, first)
        && chains::apart(
        after.table.chain(first)->Ok_0,
        after.table.chain(directory)->Ok_0,
    ))) by {
        reveal(passed_by);
        if first != 0 {
            assert(count > 0);
            assert(after.table.chain(first) == held.table.chain(first));
            assert(!clusters.contains(cluster));
        }
    }
}

/// Creating a directory leaves alone every cluster that is in use and not of
/// the directory it is created in.
pub proof fn lemma_create_dir(volume: Volume, path: Seq<char>, now: DateTime, cluster: u32)
    requires
        volume.laid_out(),
        volume.fits(),
        volume.create_dir(path, now).1 is Ok,
        volume.table.in_use(cluster),
        ({
            let parent = volume.resolve(
                volume.boot.root_cluster,
                operations::parent_of(path),
            ).1->Ok_0;
            &&& volume.table.chain(parent) is Ok
            &&& volume.table.foreign(cluster, parent)
        }),
    ensures
        leaves(volume, volume.create_dir(path, now).0, cluster),
{
    let root = volume.boot.root_cluster;
    lemma_resolve(volume, root, operations::parent_of(path));
    let (resolved, result) = volume.resolve(root, operations::parent_of(path));
    let parent = result->Ok_0;
    lemma_plan_name(resolved, parent, operations::name_of(path));
    let (planned, result) = resolved.plan_name(parent, operations::name_of(path));
    let stored = result->Ok_0;
    lemma_looked_twice(volume, resolved, planned);
    lemma_leaves_looked(volume, planned, cluster);
    let (table, result) = planned.table.allocated(1);
    let added = result->Ok_0[0];
    lemma_allocated(planned.table, 1, cluster);
    chains::lemma_allocated(planned.table, 1);
    chains::lemma_allocated_keeps(planned.table, 1, parent);
    assert(result->Ok_0.contains(added));
    let held = Volume { table, ..planned };
    lemma_leaves_table(planned, held, cluster);
    lemma_leaves_then(volume, planned, held, cluster);
    assert(volume.create_dir(path, now) == held.create_dir_with(parent, stored, added, now));
    lemma_leaves_create_dir_with(held, parent, stored, added, now, cluster);
    lemma_leaves_then(
        volume,
        held,
        held.create_dir_with(parent, stored, added, now).0,
        cluster,
    );
}

proof fn lemma_leaves_create_dir_with(
    volume: Volume,
    parent: u32,
    stored: StoredView,
    added: u32,
    now: DateTime,
    cluster: u32,
)
    requires
        volume.laid_out(),
        volume.fits(),
        volume.create_dir_with(parent, stored, added, now).1 is Ok,
        volume.table.in_use(cluster),
        volume.table.valid(added as int),
        volume.table.foreign(cluster, parent),
        cluster != added,
    ensures
        leaves(volume, volume.create_dir_with(parent, stored, added, now).0, cluster),
{
    reveal(Volume::create_dir_with);
    let count = (stored.slots.len() + 1) as u32;
    let attempts = fs::MAX_DIRECTORY_GROWTH as int;
    lemma_leaves_find_room(volume, parent, count, attempts, cluster, 0);
    let (roomy, result) = volume.find_room(parent, count, attempts);
    let index = result->Ok_0;
    assert(roomy.laid_out() && roomy.fits() && roomy.table.in_use(cluster)
        && roomy.table.foreign(cluster, parent) && leaves(volume, roomy, cluster) && roomy.boot
        == volume.boot) by {
        reveal(passed_by);
    }
    let sector = volume.boot.spec_cluster_sector(added as int);
    let data = volume.new_directory(added, parent, now);
    fs::lemma_run_in_volume(volume, added as int, 1);
    fs::lemma_chain_size(volume, 0);
    assert forall|p: int| #[trigger] roomy.in_cluster(cluster, p) implies !(roomy.at(sector) <= p
        < roomy.at(sector) + data.len()) by {
        if roomy.at(sector) <= p < roomy.at(sector) + data.len() {
            storage::lemma_one_cluster(roomy, cluster, added, p);
        }
    }
    lemma_leaves_wrote(roomy, sector, data, cluster);
    storage::lemma_wrote(roomy, sector, data);
    let filled = roomy.wrote(sector, data);
    lemma_leaves_then(volume, roomy, filled, cluster);
    let entry = dir::entry_bytes(stored.short, 0x10, added, 0, now);
    lemma_leaves_publish(filled, parent, stored, entry, added, index, cluster, 0);
    let after = filled.publish(parent, stored, entry, added, index).0;
    assert(leaves(filled, after, cluster)) by {
        reveal(passed_by);
    }
    lemma_leaves_then(volume, filled, after, cluster);
}

/// Giving a chain back that the cluster is not of.
proof fn lemma_leaves_free_chain(volume: Volume, first: u32, cluster: u32)
    requires
        volume.laid_out(),
        volume.fits(),
        volume.table.in_use(cluster),
        volume.table.foreign(cluster, first),
    ensures
        leaves(volume, volume.free_chain(first).0, cluster),
        volume.free_chain(first).0.table.in_use(cluster),
{
    reveal(Volume::free_chain);
    lemma_leaves_table(volume, volume, cluster);
    if volume.table.chain(first) is Ok {
        let clusters = volume.table.chain(first)->Ok_0;
        table::lemma_chain(volume.table, first);
        chains::lemma_released(volume.table, clusters);
        let held = Volume { table: volume.table.released(clusters), ..volume };
        lemma_leaves_table(volume, held, cluster);
        lemma_leaves_flush(held, cluster);
        storage::lemma_flush(held);
        lemma_leaves_then(volume, held, held.flush(), cluster);
    }
}

/// Deleting an entry of a directory that the cluster is not of, and giving
/// its chain back.
proof fn lemma_leaves_removed(
    volume: Volume,
    directory: u32,
    first_slot: u32,
    index: u32,
    first: u32,
    cluster: u32,
)
    requires
        volume.laid_out(),
        volume.fits(),
        volume.table.in_use(cluster),
        volume.table.foreign(cluster, directory),
        first != 0 ==> volume.table.foreign(cluster, first),
    ensures
        ({
            let deleted = volume.delete_slots(directory, first_slot, index).0;
            let freed = deleted.free_chain(first).0;
            &&& leaves(volume, deleted, cluster)
            &&& deleted.table.in_use(cluster)
            &&& first != 0 ==> leaves(volume, freed, cluster) && freed.table.in_use(cluster)
        }),
{
    let counted = volume.counted(directory);
    let deleted = volume.delete_slots(directory, first_slot, index).0;
    lemma_leaves_table(volume, counted, cluster);
    lemma_leaves_delete_down(counted, directory, first_slot, index, cluster);
    lemma_leaves_then(volume, counted, deleted, cluster);
    assert(deleted.laid_out() && deleted.fits()) by {
        reveal(leaves);
    }
    if first != 0 {
        lemma_leaves_free_chain(deleted, first, cluster);
        lemma_leaves_then(volume, deleted, deleted.free_chain(first).0, cluster);
    }
}

/// Removing a file leaves alone every cluster that is in use and neither of
/// the file nor of the directory it is in.
pub proof fn lemma_remove(volume: Volume, path: Seq<char>, cluster: u32)
    requires
        volume.laid_out(),
        volume.fits(),
        volume.table.in_use(cluster),
        volume.open(path).1 matches Ok(file) ==> {
            &&& volume.table.foreign(cluster, file.directory)
            &&& file.first_cluster != 0 ==> volume.table.foreign(cluster, file.first_cluster)
        },
    ensures
        leaves(volume, volume.remove(path).0, cluster),
        volume.remove(path).0.table.in_use(cluster),
{
    lemma_open(volume, path);
    let (opened, result) = volume.open(path);
    lemma_leaves_looked(volume, opened, cluster);
    if result is Ok {
        let file = result->Ok_0;
        lemma_leaves_removed(
            opened,
            file.directory,
            file.first_slot,
            file.index,
            file.first_cluster,
            cluster,
        );
        lemma_leaves_then(volume, opened, volume.remove(path).0, cluster);
    }
}

/// Removing a directory leaves alone every cluster that is in use and neither
/// of it nor of the directory it is in.
pub proof fn lemma_remove_dir(volume: Volume, path: Seq<char>, cluster: u32)
    requires
        volume.laid_out(),
        volume.fits(),
        volume.table.in_use(cluster),
        volume.look_up(operations::plain(path)).1 matches Ok((parent, entry)) ==> {
            &&& volume.table.foreign(cluster, parent)
            &&& volume.table.foreign(cluster, entry.first_cluster)
        },
    ensures
        leaves(volume, volume.remove_dir(path).0, cluster),
{
    let plain = operations::plain(path);
    lemma_leaves_table(volume, volume, cluster);
    lemma_look_up(volume, plain);
    let (found, result) = volume.look_up(plain);
    lemma_leaves_looked(volume, found, cluster);
    if result is Ok && !operations::is_root(path) {
        let (parent, entry) = result->Ok_0;
        if entry.is_directory() && !dir::is_dots(entry.name()) {
            lemma_read_dir(found, entry.first_cluster);
            let (read, result) = found.read_dir(entry.first_cluster);
            lemma_leaves_looked(found, read, cluster);
            lemma_leaves_then(volume, found, read, cluster);
            if result is Ok && result->Ok_0.is_vacant() {
                let (deleted, result) = read.delete_slots(parent, entry.first_slot, entry.index);
                lemma_leaves_removed(
                    read,
                    parent,
                    entry.first_slot,
                    entry.index,
                    0,
                    cluster,
                );
                lemma_leaves_then(volume, read, deleted, cluster);
                if result is Ok {
                    assert(deleted.laid_out() && deleted.fits() && deleted.table == read.table) by {
                        reveal(leaves);
                        lemma_leaves_delete_down(
                            read.counted(parent),
                            parent,
                            entry.first_slot,
                            entry.index,
                            cluster,
                        );
                    }
                    lemma_leaves_free_chain(deleted, entry.first_cluster, cluster);
                    let freed = deleted.free_chain(entry.first_cluster).0;
                    lemma_leaves_then(volume, deleted, freed, cluster);
                    let forgot = freed.forgot(entry.first_cluster);
                    assert(freed.laid_out()) by {
                        reveal(leaves);
                    }
                    lemma_leaves_table(freed, forgot, cluster);
                    lemma_leaves_then(volume, freed, forgot, cluster);
                }
            }
        }
    }
}

/// Making room for a file's bytes.
proof fn lemma_leaves_reserve(
    volume: Volume,
    file: FileView,
    size: u32,
    now: DateTime,
    cluster: u32,
)
    requires
        volume.laid_out(),
        volume.fits(),
        volume.table.in_use(cluster),
        volume.table.chain(file.directory) is Ok,
        volume.table.foreign(cluster, file.directory),
        file.first_cluster != 0 ==> volume.table.foreign(cluster, file.first_cluster),
        file.first_cluster != 0 && volume.table.chain(file.first_cluster) is Ok ==> chains::apart(
            volume.table.chain(file.directory)->Ok_0,
            volume.table.chain(file.first_cluster)->Ok_0,
        ),
        volume.reserve(file, size, now).2 is Ok,
    ensures
        leaves(volume, volume.reserve(file, size, now).0, cluster),
        ({
            let (after, moved, _) = volume.reserve(file, size, now);
            &&& after.laid_out()
            &&& after.fits()
            &&& after.boot == volume.boot
            &&& after.table.in_use(cluster)
            &&& after.table.foreign(cluster, file.directory)
            &&& moved.first_cluster != 0 ==> after.table.foreign(cluster, moved.first_cluster)
            &&& size > 0 ==> moved.first_cluster != 0
            &&& moved.directory == file.directory
            &&& moved.index == file.index
            &&& moved.size == file.size
        }),
{
    reveal(Volume::reserve);
    lemma_leaves_table(volume, volume, cluster);
    lemma_reserved_count(volume, size);
    let wanted = operations::clusters_for(size as int, volume.cluster_bytes());
    if wanted != 0 && file.first_cluster == 0 {
        let count = wanted as u32;
        let (table, result) = volume.table.allocated(count);
        let clusters = result->Ok_0;
        lemma_allocated(volume.table, count, cluster);
        chains::lemma_allocated(volume.table, count);
        assert(volume.table.is_free(clusters[0] as int));
        chains::lemma_allocated_keeps(volume.table, count, file.directory);
        let held = Volume { table, ..volume };
        lemma_leaves_table(volume, held, cluster);
        let flushed = held.flush();
        lemma_leaves_flush(held, cluster);
        storage::lemma_flush(held);
        laws::lemma_flushed_chains(held.table);
        lemma_leaves_then(volume, held, flushed, cluster);
        let edit = Edit::Update { first_cluster: clusters[0], size: file.size, at: now };
        lemma_leaves_edit_slot(flushed, file.directory, file.index, edit, cluster);
        let after = flushed.edit_slot(file.directory, file.index, edit).0;
        lemma_leaves_then(volume, flushed, after, cluster);
        assert(after.laid_out() && after.fits() && after.boot == volume.boot) by {
            reveal(leaves);
        }
    } else if wanted != 0 {
        let clusters = volume.table.chain(file.first_cluster)->Ok_0;
        if wanted > clusters.len() {
            let more = (wanted - clusters.len()) as u32;
            table::lemma_chain(volume.table, file.first_cluster);
            let (table, result) = volume.table.appended(clusters.last(), more);
            let added = result->Ok_0;
            chains::lemma_appended(volume.table, file.first_cluster, more);
            lemma_allocated(volume.table, more, cluster);
            assert(cluster != clusters.last()) by {
                if cluster == clusters.last() {
                    assert(clusters[clusters.len() - 1] == cluster);
                }
            }
            assert(!added.contains(cluster));
            assert(!(clusters + added).contains(cluster));
            let held = Volume { table, ..volume };
            lemma_leaves_table(volume, held, cluster);
            lemma_leaves_flush(held, cluster);
            storage::lemma_flush(held);
            laws::lemma_flushed_chains(held.table);
            lemma_leaves_then(volume, held, held.flush(), cluster);
            assert(table.chain(file.directory) == volume.table.chain(file.directory)) by {
                let theirs = volume.table.chain(file.directory)->Ok_0;
                let changed = added.push(clusters.last());
                chains::lemma_chain_not_free(volume.table, file.directory, added);
                assert(chains::apart(theirs, changed)) by {
                    assert forall|i: int, j: int|
                        0 <= i < theirs.len() && 0 <= j < changed.len() implies #[trigger] theirs[i]
                        != #[trigger] changed[j] by {
                        if j < added.len() {
                            assert(changed[j] == added[j]);
                        } else {
                            assert(changed[j] == clusters[clusters.len() - 1]);
                        }
                    }
                }
                chains::lemma_chain_apart(volume.table, table, file.directory, changed);
            }
        }
    }
}

/// A file's clusters can be counted.
pub proof fn lemma_reserved_count(volume: Volume, size: u32)
    requires
        volume.laid_out(),
    ensures
        0 <= operations::clusters_for(size as int, volume.cluster_bytes()) <= u32::MAX,
        size > 0 ==> operations::clusters_for(size as int, volume.cluster_bytes()) > 0,
{
    let cb = volume.cluster_bytes();
    fs::lemma_chain_size(volume, 0);
    let n = operations::clusters_for(size as int, cb);
    assert(0 <= n <= u32::MAX && (size > 0 ==> n > 0)) by (nonlinear_arith)
        requires
            n == (size + cb - 1) / cb,
            1 <= cb,
            0 <= size <= u32::MAX,
    ;
}

/// Writing to a file that is known to be live.
proof fn lemma_leaves_write_live(
    volume: Volume,
    file: FileView,
    offset: int,
    data: Seq<u8>,
    now: DateTime,
    cluster: u32,
)
    requires
        volume.laid_out(),
        volume.fits(),
        volume.table.in_use(cluster),
        laws::unentangled(volume, file),
        volume.table.chain(file.directory) is Ok,
        volume.table.foreign(cluster, file.directory),
        file.first_cluster != 0 ==> volume.table.foreign(cluster, file.first_cluster),
        0 <= offset,
        0 < data.len(),
        offset + data.len() <= u32::MAX,
        volume.write_live(file, offset, data, now).2 is Ok,
    ensures
        leaves(volume, volume.write_live(file, offset, data, now).0, cluster),
{
    reveal(Volume::write_live);
    let end = offset + data.len();
    lemma_leaves_reserve(volume, file, end as u32, now, cluster);
    let (reserved, moved, result) = volume.reserve(file, end as u32, now);
    let first = moved.first_cluster;
    let zeroed = if offset > moved.size {
        reserved.zero_chain(first, moved.size as int, offset).0
    } else {
        reserved
    };
    lemma_leaves_table(reserved, reserved, cluster);
    if offset > moved.size {
        lemma_leaves_zero_chain(reserved, first, moved.size as int, offset, cluster);
        operations::lemma_zero_chain_frame(reserved, first, moved.size as int, offset);
    }
    lemma_leaves_then(volume, reserved, zeroed, cluster);
    lemma_leaves_write_chain(zeroed, first, offset, data, cluster);
    operations::lemma_write_chain_frame(zeroed, first, offset, data);
    let written = zeroed.write_chain(first, offset, data).0;
    lemma_leaves_then(volume, zeroed, written, cluster);
    if end > moved.size {
        let edit = Edit::Update { first_cluster: first, size: end as u32, at: now };
        lemma_leaves_edit_slot(written, moved.directory, moved.index, edit, cluster);
        lemma_leaves_then(
            volume,
            written,
            written.edit_slot(moved.directory, moved.index, edit).0,
            cluster,
        );
    }
}

/// Writing to a file leaves alone every cluster that is in use and neither of
/// the file nor of the directory it is in.
pub proof fn lemma_write_file_at(
    volume: Volume,
    file: FileView,
    offset: int,
    data: Seq<u8>,
    now: DateTime,
    cluster: u32,
)
    requires
        volume.laid_out(),
        volume.fits(),
        volume.table.in_use(cluster),
        laws::unentangled(volume, file),
        volume.table.chain(file.directory) is Ok,
        volume.table.foreign(cluster, file.directory),
        file.first_cluster != 0 ==> volume.table.foreign(cluster, file.first_cluster),
        0 <= offset,
        volume.write_file_at(file, offset, data, now).2 is Ok,
    ensures
        leaves(volume, volume.write_file_at(file, offset, data, now).0, cluster),
{
    lemma_check_live(volume, file);
    let live = volume.check_live(file).0;
    lemma_leaves_looked(volume, live, cluster);
    if data.len() > 0 {
        lemma_leaves_write_live(live, file, offset, data, now, cluster);
        lemma_leaves_then(
            volume,
            live,
            live.write_live(file, offset, data, now).0,
            cluster,
        );
    }
}

/// Setting a file's length leaves alone every cluster that is in use and
/// neither of the file nor of the directory it is in.
pub proof fn lemma_truncate(
    volume: Volume,
    file: FileView,
    size: u32,
    now: DateTime,
    cluster: u32,
)
    requires
        volume.laid_out(),
        volume.fits(),
        volume.table.in_use(cluster),
        laws::unentangled(volume, file),
        volume.table.chain(file.directory) is Ok,
        volume.table.foreign(cluster, file.directory),
        file.first_cluster != 0 ==> volume.table.foreign(cluster, file.first_cluster),
        volume.truncate(file, size, now).2 is Ok,
    ensures
        leaves(volume, volume.truncate(file, size, now).0, cluster),
{
    lemma_check_live(volume, file);
    let live = volume.check_live(file).0;
    lemma_leaves_looked(volume, live, cluster);
    if size > file.size {
        lemma_leaves_reserve(live, file, size, now, cluster);
        let (reserved, moved, result) = live.reserve(file, size, now);
        lemma_leaves_then(volume, live, reserved, cluster);
        let first = moved.first_cluster;
        lemma_leaves_zero_chain(reserved, first, moved.size as int, size as int, cluster);
        operations::lemma_zero_chain_frame(reserved, first, moved.size as int, size as int);
        let zeroed = reserved.zero_chain(first, moved.size as int, size as int).0;
        lemma_leaves_then(volume, reserved, zeroed, cluster);
        let edit = Edit::Update { first_cluster: first, size, at: now };
        lemma_leaves_edit_slot(zeroed, moved.directory, moved.index, edit, cluster);
        lemma_leaves_then(
            volume,
            zeroed,
            zeroed.edit_slot(moved.directory, moved.index, edit).0,
            cluster,
        );
    } else if size < file.size {
        let keep = operations::clusters_for(size as int, volume.cluster_bytes());
        let first = if keep == 0 {
            0
        } else {
            file.first_cluster
        };
        let edit = Edit::Update { first_cluster: first, size, at: now };
        lemma_leaves_edit_slot(live, file.directory, file.index, edit, cluster);
        let recorded = live.edit_slot(file.directory, file.index, edit).0;
        lemma_leaves_then(volume, live, recorded, cluster);
        if file.first_cluster != 0 {
            assert(recorded.laid_out() && recorded.fits()) by {
                reveal(leaves);
            }
            let (table, _) = recorded.table.shortened(file.first_cluster, keep as u32);
            lemma_shortened(recorded.table, file.first_cluster, keep as u32, cluster);
            let held = Volume { table, ..recorded };
            lemma_leaves_table(recorded, held, cluster);
            lemma_leaves_flush(held, cluster);
            lemma_leaves_then(recorded, held, held.flush(), cluster);
            lemma_leaves_then(volume, recorded, held.flush(), cluster);
        }
    }
}

/// Shortening a chain that the cluster is not of.
proof fn lemma_shortened(table: Table, start: u32, keep: u32, cluster: u32)
    requires
        table.wf(),
        table.in_use(cluster),
        table.foreign(cluster, start),
    ensures
        table.shortened(start, keep).0.wf(),
        table.shortened(start, keep).0.same_place(table),
        table.shortened(start, keep).0.entries[cluster as int] == table.entries[cluster as int],
{
    steady::lemma_shortened_marks(table, start, keep);
    if table.chain(start) is Ok {
        let clusters = table.chain(start)->Ok_0;
        table::lemma_chain(table, start);
        if 0 < keep < clusters.len() {
            assert(clusters.contains(clusters[keep - 1]));
            let tail = clusters.skip(keep as int);
            if tail.contains(cluster) {
                let i = tail.index_of(cluster);
                assert(clusters[keep + i] == cluster);
            }
        }
    }
}

/// Writing a whole file in place of whatever file has its name leaves alone
/// every cluster that is in use and neither of that file nor of the directory
/// it is in.
pub proof fn lemma_replace_file(
    volume: Volume,
    path: Seq<char>,
    data: Seq<u8>,
    found: bool,
    created: DateTime,
    written: DateTime,
    cluster: u32,
)
    requires
        volume.laid_out(),
        volume.fits(),
        volume.table.in_use(cluster),
        volume.replace_file(path, data, found, created, written).1 is Ok,
        ({
            let file = volume.replace_file(path, data, found, created, written).1->Ok_0;
            let old = volume.open(path).1->Ok_0;
            &&& volume.table.chain(file.directory) is Ok
            &&& volume.table.foreign(cluster, file.directory)
            &&& found ==> {
                &&& old.directory == file.directory
                &&& old.first_cluster != 0 ==> volume.table.foreign(cluster, old.first_cluster)
                &&& laws::unentangled(volume, old)
            }
        }),
    ensures
        leaves(
            volume,
            volume.replace_file(path, data, found, created, written).0,
            cluster,
        ),
{
    lemma_leaves_table(volume, volume, cluster);
    if found {
        lemma_remove(volume, path, cluster);
    }
    let removed = if found {
        volume.remove(path).0
    } else {
        volume
    };
    assert(removed.laid_out() && removed.fits()) by {
        reveal(leaves);
    }
    let size = (data.len() % 0x1_0000_0000) as u32;
    let (made, result) = removed.create(path, size, created);
    let file = result->Ok_0;
    let last = volume.replace_file(path, data, found, created, written).1->Ok_0;
    assert(last.directory == file.directory) by {
        lemma_handle_stays(made, file, data, written);
    }
    lemma_where_created(removed, path, size, created);
    if found {
        lemma_directory_stays(volume, path, cluster);
    }
    lemma_create(removed, path, size, created, cluster);
    lemma_leaves_then(volume, removed, made, cluster);
    if data.len() > 0 {
        lemma_write_file_at(made, file, 0, data, written, cluster);
        lemma_leaves_then(volume, made, made.write_file_at(file, 0, data, written).0, cluster);
    }
}

/// Setting or clearing the dirty flag.
proof fn lemma_leaves_flagged(volume: Volume, dirty: bool, cluster: u32)
    requires
        volume.laid_out(),
        volume.fits(),
        volume.table.valid(cluster as int),
    ensures
        leaves(volume, volume.flagged(dirty), cluster),
{
    reveal(leaves);
    assert forall|p: int| #[trigger] volume.owns(cluster, p) implies spares(
        volume,
        volume.flagged(dirty),
        p,
    ) by {
        lemma_owned(volume, cluster, p);
    }
}

/// Syncing leaves every cluster alone whose entry is on the device already,
/// where the hints lie before the tables.
pub proof fn lemma_synced(volume: Volume, cluster: u32)
    requires
        volume.laid_out(),
        volume.fits(),
        volume.table.valid(cluster as int),
        steady::hints_in_place(volume),
    ensures
        leaves(volume, volume.synced(), cluster),
{
    lemma_leaves_table(volume, volume, cluster);
    if volume.marked_dirty {
        let flushed = volume.flush();
        lemma_leaves_flush(volume, cluster);
        storage::lemma_flush(volume);
        let hinted = flushed.wrote_hints();
        lemma_leaves_hints(flushed, cluster);
        lemma_leaves_then(volume, flushed, hinted, cluster);
        let unmarked = Volume { marked_dirty: false, ..hinted };
        assert(hinted.laid_out() && hinted.fits() && hinted.table.valid(cluster as int)) by {
            reveal(leaves);
        }
        lemma_leaves_table(hinted, unmarked, cluster);
        lemma_leaves_then(volume, hinted, unmarked, cluster);
        lemma_leaves_flagged(unmarked, false, cluster);
        lemma_leaves_then(volume, unmarked, unmarked.flagged(false), cluster);
    }
}

/// Writing the hints.
proof fn lemma_leaves_hints(volume: Volume, cluster: u32)
    requires
        volume.laid_out(),
        volume.fits(),
        volume.table.valid(cluster as int),
        steady::hints_in_place(volume),
    ensures
        leaves(volume, volume.wrote_hints(), cluster),
        volume.wrote_hints().table == volume.table,
{
    lemma_leaves_table(volume, volume, cluster);
    if volume.boot.fs_info_sector is Some {
        let sector = volume.boot.fs_info_sector->0 as int;
        let read = volume.after_read(sector, 1);
        lemma_after_read(volume, sector, 1);
        lemma_leaves_looked(volume, read, cluster);
        if boot::has_hints(volume.sectors(sector, 1)) {
            let block = volume.hints_block(sector);
            let wrote = read.wrote(sector, block);
            assert(leaves(read, wrote, cluster)) by {
                reveal(leaves);
                storage::lemma_wrote(read, sector, block);
                assert forall|p: int| #[trigger] read.owns(cluster, p) implies spares(
                    read,
                    wrote,
                    p,
                ) by {
                    lemma_owned(read, cluster, p);
                    lemma_past_reserved(read, cluster, p);
                    lemma_wrote(read, sector, block, p);
                }
            }
            let after = volume.wrote_hints();
            lemma_leaves_then(volume, read, wrote, cluster);
            assert(wrote.laid_out()) by {
                reveal(leaves);
            }
            lemma_leaves_table(wrote, after, cluster);
            lemma_leaves_then(volume, wrote, after, cluster);
        }
    }
}

/// What belongs to a cluster lies past the reserved sectors.
proof fn lemma_past_reserved(volume: Volume, cluster: u32, p: int)
    requires
        volume.laid_out(),
        volume.fits(),
        volume.table.valid(cluster as int),
        volume.owns(cluster, p),
    ensures
        volume.at(volume.boot.fat_start as int) <= p,
{
    lemma_owned(volume, cluster, p);
    if !volume.in_cluster(cluster, p) {
        let (copy, o) = choose|copy: int, o: int|
            0 <= copy < volume.boot.fat_count && 0 <= o < 4 && p == #[trigger] volume.link_at(
                cluster,
                copy,
                o,
            );
        let spf = volume.boot.sectors_per_fat as int;
        assert(0 <= copy * spf) by (nonlinear_arith)
            requires
                0 <= copy,
                0 <= spf,
        ;
    } else {
        steady::lemma_in_copy(volume, 0);
    }
}

/// A cluster that is left alone is as it was after any number of the calls:
/// a power cut between two of them loses nothing of it.
pub proof fn lemma_cut(before: Volume, after: Volume, cluster: u32, n: int, p: int)
    requires
        before.laid_out(),
        before.fits(),
        before.table.valid(cluster as int),
        before.link_stored(cluster),
        leaves(before, after, cluster),
        before.history.len() <= n <= after.history.len(),
        before.owns(cluster, p),
    ensures
        ({
            let disk = replayed(
                before.disk,
                after.history.subrange(before.history.len() as int, n),
            );
            &&& disk.len() == before.disk.len()
            &&& disk[p] == before.disk[p]
        }),
{
    reveal(leaves);
    lemma_owned(before, cluster, p);
    lemma_replayed(before, after, p, n);
}

/// A cluster that an operation leaves alone is left alone where the operation
/// fails: none of the calls that were `made` changes it, and it is as it was
/// where the device has done what it was asked.
pub proof fn lemma_failed(
    before: Volume,
    planned: Volume,
    cluster: u32,
    made: Seq<Access>,
    p: int,
)
    requires
        before.laid_out(),
        before.fits(),
        before.table.valid(cluster as int),
        before.link_stored(cluster),
        leaves(before, planned, cluster),
        calls::begins(made, planned.history),
        before.history.len() <= made.len(),
        before.owns(cluster, p),
    ensures
        forall|i: int|
            before.history.len() <= i < made.len() ==> keeps(
                #[trigger] made[i],
                p,
                before.disk[p],
            ),
        ({
            let disk = replayed(before.disk, made.skip(before.history.len() as int));
            &&& disk.len() == before.disk.len()
            &&& disk[p] == before.disk[p]
        }),
{
    reveal(leaves);
    reveal(calls::begins);
    lemma_owned(before, cluster, p);
    assert forall|i: int| before.history.len() <= i < made.len() implies keeps(
        #[trigger] made[i],
        p,
        before.disk[p],
    ) by {
        assert(planned.history[i] == made[i]);
    }
    lemma_cut(before, planned, cluster, made.len() as int, p);
    assert(made.skip(before.history.len() as int) =~= planned.history.subrange(
        before.history.len() as int,
        made.len() as int,
    ));
}

/// Writing to a file leaves its handle in its directory.
proof fn lemma_handle_stays(volume: Volume, file: FileView, data: Seq<u8>, now: DateTime)
    ensures
        volume.write_file_at(file, 0, data, now).1.directory == file.directory,
{
    reveal(Volume::write_live);
    reveal(Volume::reserve);
}

/// A file is created in the directory its path leads to.
proof fn lemma_where_created(volume: Volume, path: Seq<char>, size: u32, now: DateTime)
    requires
        volume.create(path, size, now).1 is Ok,
    ensures
        volume.create(path, size, now).1->Ok_0.directory == volume.resolve(
            volume.boot.root_cluster,
            operations::parent_of(path),
        ).1->Ok_0,
{
    reveal(Volume::create_with);
}

/// Removing a file leaves its directory's chain as it is.
proof fn lemma_directory_stays(volume: Volume, path: Seq<char>, cluster: u32)
    requires
        volume.laid_out(),
        volume.fits(),
        volume.remove(path).1 is Ok,
        volume.table.chain(volume.open(path).1->Ok_0.directory) is Ok,
        laws::unentangled(volume, volume.open(path).1->Ok_0),
        volume.table.in_use(cluster),
        volume.table.foreign(cluster, volume.open(path).1->Ok_0.directory),
    ensures
        volume.remove(path).0.table.chain(volume.open(path).1->Ok_0.directory)
            == volume.table.chain(volume.open(path).1->Ok_0.directory),
{
    lemma_open(volume, path);
    let (opened, result) = volume.open(path);
    let file = result->Ok_0;
    let counted = opened.counted(file.directory);
    let deleted = opened.delete_slots(file.directory, file.first_slot, file.index).0;
    lemma_leaves_delete_down(counted, file.directory, file.first_slot, file.index, cluster);
    if file.first_cluster != 0 {
        assert(deleted.laid_out()) by {
            reveal(leaves);
        }
        reveal(Volume::free_chain);
        chains::lemma_freed(deleted.table, file.first_cluster, file.directory);
        let clusters = deleted.table.chain(file.first_cluster)->Ok_0;
        table::lemma_chain(deleted.table, file.first_cluster);
        chains::lemma_released(deleted.table, clusters);
        let held = Volume { table: deleted.table.freed(file.first_cluster).0, ..deleted };
        storage::lemma_flush(held);
        laws::lemma_flushed_chains(held.table);
    }
}

} // verus!
