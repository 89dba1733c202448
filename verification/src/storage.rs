//! What writing does to a device's bytes, and so to the bytes of chains.
use vstd::prelude::*;

use crate::boot;
use crate::bytes;
use crate::chains;
use crate::dir;
use crate::error::FatError;
use crate::fs;
use crate::operations;
use crate::table;
use crate::table::Run;
use crate::volume::{Edit, Volume};

verus! {

impl Volume {
    /// Whether the device is as long as the volume.
    pub open spec fn fits(self) -> bool {
        self.at(self.boot.total_sectors as int) <= self.disk.len()
    }

    /// Where the data area starts among the device's bytes.
    pub open spec fn data_at(self) -> int {
        self.at(self.boot.data_start as int)
    }

    /// Whether a place on the device lies in the given cluster.
    pub open spec fn in_cluster(self, cluster: u32, p: int) -> bool {
        self.cluster_at(cluster as int) <= p < self.cluster_at(cluster as int)
            + self.cluster_bytes()
    }

    /// Whether a place on the device lies in one of the given clusters.
    pub open spec fn in_clusters(self, clusters: Seq<u32>, p: int) -> bool {
        exists|i: int| 0 <= i < clusters.len() && self.in_cluster(#[trigger] clusters[i], p)
    }
}

/// Whether the data area differs only in having `data` from `at` on.
pub open spec fn spliced(before: Volume, after: Volume, at: int, data: Seq<u8>) -> bool {
    &&& after.disk.len() == before.disk.len()
    &&& forall|p: int|
        before.data_at() <= p < before.disk.len() ==> #[trigger] after.disk[p] == (if at <= p < at
            + data.len() {
            data[p - at]
        } else {
            before.disk[p]
        })
}

/// Whether the data area is as it was.
pub open spec fn undisturbed(before: Volume, after: Volume) -> bool {
    &&& after.disk.len() == before.disk.len()
    &&& forall|p: int|
        before.data_at() <= p < before.disk.len() ==> #[trigger] after.disk[p] == before.disk[p]
}

/// Setting the dirty flag leaves the data area alone.
pub proof fn lemma_marked(volume: Volume)
    requires
        volume.laid_out(),
    ensures
        undisturbed(volume, volume.marked()),
        volume.marked().written_from(volume),
{
}

/// Writing sectors of the data area changes just those.
pub proof fn lemma_wrote(volume: Volume, sector: int, data: Seq<u8>)
    requires
        volume.laid_out(),
    ensures
        spliced(volume, volume.wrote(sector, data), volume.at(sector), data),
        volume.wrote(sector, data).written_from(volume),
        sector >= 0 && volume.at(sector) + data.len() <= volume.data_at() ==> undisturbed(
            volume,
            volume.wrote(sector, data),
        ),
{
    lemma_marked(volume);
}

/// Changing part of a block changes just that.
pub proof fn lemma_patched(volume: Volume, sector: int, skip: int, data: Seq<u8>)
    requires
        volume.laid_out(),
        volume.boot.data_start <= sector,
        volume.at(sector + 1) <= volume.disk.len(),
        0 <= skip,
        skip + data.len() <= 512,
    ensures
        spliced(volume, volume.patched(sector, skip, data), volume.at(sector) + skip, data),
{
    let read = volume.after_read(sector, 1);
    let block = bytes::splice(volume.sectors(sector, 1), skip, data);
    lemma_wrote(read, sector, block);
    let after = volume.patched(sector, skip, data);
    assert forall|p: int| volume.data_at() <= p < volume.disk.len() implies #[trigger] after.disk[p]
        == (if volume.at(sector) + skip <= p < volume.at(sector) + skip + data.len() {
        data[p - (volume.at(sector) + skip)]
    } else {
        volume.disk[p]
    }) by {
        if volume.at(sector) <= p < volume.at(sector) + 512 {
            assert(volume.sectors(sector, 1)[p - volume.at(sector)] == volume.disk[p]);
        }
    }
}

/// Splicing one stretch after another is splicing both.
proof fn lemma_spliced_twice(
    a: Volume,
    b: Volume,
    c: Volume,
    at: int,
    first: Seq<u8>,
    second: Seq<u8>,
)
    requires
        a.data_at() == b.data_at(),
        spliced(a, b, at, first),
        spliced(b, c, at + first.len(), second),
    ensures
        spliced(a, c, at, first + second),
{
    assert forall|p: int| a.data_at() <= p < a.disk.len() implies #[trigger] c.disk[p] == (if at <= p
        < at + (first + second).len() {
        (first + second)[p - at]
    } else {
        a.disk[p]
    }) by {
        assert(b.disk[p] == (if at <= p < at + first.len() {
            first[p - at]
        } else {
            a.disk[p]
        }));
    }
}

/// Writing a span changes just the bytes it covers.
pub proof fn lemma_wrote_span(volume: Volume, sector: int, skip: int, data: Seq<u8>)
    requires
        volume.laid_out(),
        volume.fits(),
        volume.boot.data_start <= sector,
        0 <= skip < 512,
        512 * sector + skip + data.len() <= 512 * volume.boot.total_sectors,
        data.len() > 0,
    ensures
        spliced(volume, volume.wrote_span(sector, skip, data), volume.at(sector) + skip, data),
        volume.wrote_span(sector, skip, data).written_from(volume),
{
    reveal(Volume::wrote_span);
    operations::lemma_wrote_span_frame(volume, sector, skip, data);
    let lead = if skip != 0 {
        operations::least(512 - skip, data.len() as int)
    } else {
        0
    };
    let next = if skip != 0 {
        sector + 1
    } else {
        sector
    };
    let rest = data.skip(lead);
    let whole = rest.len() as int / 512;
    let tail = rest.skip(512 * whole);
    let first = if skip != 0 {
        volume.patched(sector, skip, data.take(lead))
    } else {
        volume
    };
    let second = if whole != 0 {
        first.wrote(next, rest.take(512 * whole))
    } else {
        first
    };
    let from = volume.at(sector) + skip;
    if skip != 0 {
        lemma_patched(volume, sector, skip, data.take(lead));
    }
    assert(spliced(volume, first, from, data.take(lead)));
    assert(data.take(lead) + rest =~= data);
    if rest.len() > 0 {
        assert(volume.at(next) == from + lead);
        if whole != 0 {
            lemma_wrote(first, next, rest.take(512 * whole));
        }
        assert(spliced(first, second, from + lead, rest.take(512 * whole)));
        lemma_spliced_twice(volume, first, second, from, data.take(lead), rest.take(512 * whole));
        let done = data.take(lead) + rest.take(512 * whole);
        assert(rest.take(512 * whole) + tail =~= rest);
        if tail.len() != 0 {
            lemma_patched(second, next + whole, 0, tail);
            lemma_spliced_twice(
                volume,
                second,
                second.patched(next + whole, 0, tail),
                from,
                done,
                tail,
            );
            assert(done + tail =~= data);
        } else {
            assert(done =~= data);
        }
    } else {
        assert(data.take(lead) =~= data);
    }
}

/// Byte `i` of a chain lies in the cluster that many clusters into it, in the
/// data area and on the device.
pub proof fn lemma_position(volume: Volume, clusters: Seq<u32>, i: int)
    requires
        volume.laid_out(),
        forall|k: int| 0 <= k < clusters.len() ==> volume.table.valid(#[trigger] clusters[k] as int),
        0 <= i < clusters.len() * volume.cluster_bytes(),
    ensures
        0 <= i / volume.cluster_bytes() < clusters.len(),
        0 <= i % volume.cluster_bytes() < volume.cluster_bytes(),
        i == i / volume.cluster_bytes() * volume.cluster_bytes() + i % volume.cluster_bytes(),
        volume.in_cluster(clusters[i / volume.cluster_bytes()], volume.position(clusters, i)),
        volume.data_at() <= volume.position(clusters, i),
        volume.fits() ==> volume.position(clusters, i) < volume.disk.len(),
{
    let cb = volume.cluster_bytes();
    fs::lemma_chain_size(volume, 0);
    let k = i / cb;
    assert(0 <= k < clusters.len() && 0 <= i % cb < cb && i == k * cb + i % cb)
        by (nonlinear_arith)
        requires
            cb > 0,
            k == i / cb,
            0 <= i < clusters.len() * cb,
    ;
    assert(volume.table.valid(clusters[k] as int));
    boot::lemma_cluster_in_volume(volume.boot, clusters[k] as int);
}

/// No place lies in two clusters.
pub proof fn lemma_one_cluster(volume: Volume, a: u32, b: u32, p: int)
    requires
        volume.laid_out(),
        volume.in_cluster(a, p),
        volume.in_cluster(b, p),
    ensures
        a == b,
{
    if a < b {
        boot::lemma_clusters_apart(volume.boot, a as int, b as int);
    } else if b < a {
        boot::lemma_clusters_apart(volume.boot, b as int, a as int);
    }
}

/// Different bytes of a chain are in different places.
pub proof fn lemma_positions_differ(volume: Volume, clusters: Seq<u32>, i: int, j: int)
    requires
        volume.laid_out(),
        clusters.no_duplicates(),
        forall|k: int| 0 <= k < clusters.len() ==> volume.table.valid(#[trigger] clusters[k] as int),
        0 <= i < clusters.len() * volume.cluster_bytes(),
        0 <= j < clusters.len() * volume.cluster_bytes(),
        i != j,
    ensures
        volume.position(clusters, i) != volume.position(clusters, j),
{
    lemma_position(volume, clusters, i);
    lemma_position(volume, clusters, j);
    let cb = volume.cluster_bytes();
    if volume.position(clusters, i) == volume.position(clusters, j) {
        lemma_one_cluster(
            volume,
            clusters[i / cb],
            clusters[j / cb],
            volume.position(clusters, i),
        );
    }
}

/// What writing `data` from `from` on does to a chain and to everything else
/// in the data area.
pub open spec fn chain_spliced(
    before: Volume,
    after: Volume,
    clusters: Seq<u32>,
    from: int,
    data: Seq<u8>,
) -> bool {
    &&& after.disk.len() == before.disk.len()
    &&& forall|i: int|
        0 <= i < clusters.len() * before.cluster_bytes() ==> #[trigger] after.chain_byte(clusters, i)
            == (if from <= i < from + data.len() {
            data[i - from]
        } else {
            before.chain_byte(clusters, i)
        })
    &&& forall|p: int|
        before.data_at() <= p < before.disk.len() && !before.in_clusters(clusters, p)
            ==> #[trigger] after.disk[p] == before.disk[p]
}

/// Writing the part of a chain that falls in one run.
proof fn lemma_wrote_run(
    volume: Volume,
    runs: Seq<Run>,
    clusters: Seq<u32>,
    r: int,
    from: int,
    data: Seq<u8>,
)
    requires
        volume.laid_out(),
        volume.fits(),
        table::tiles(runs, clusters),
        clusters.no_duplicates(),
        volume.table.links(clusters),
        0 <= r < runs.len(),
        data.len() > 0,
        runs[r].file_cluster * volume.cluster_bytes() <= from,
        from + data.len() <= (runs[r].file_cluster + runs[r].clusters) * volume.cluster_bytes(),
    ensures
        ({
            let start = runs[r].file_cluster * volume.cluster_bytes();
            let sector = volume.boot.spec_cluster_sector(runs[r].start_cluster as int) + (from
                - start) / 512;
            let after = volume.wrote_span(sector, (from - start) % 512, data);
            &&& chain_spliced(volume, after, clusters, from, data)
            &&& after.written_from(volume)
        }),
{
    let run = runs[r];
    let cb = volume.cluster_bytes();
    let start = run.file_cluster * cb;
    let first = volume.boot.spec_cluster_sector(run.start_cluster as int);
    let sector = first + (from - start) / 512;
    let skip = (from - start) % 512;
    let after = volume.wrote_span(sector, skip, data);
    fs::lemma_run_valid(volume.table, runs, clusters, r);
    fs::lemma_run_in_volume(volume, run.start_cluster as int, run.clusters as int);
    assert((run.file_cluster + run.clusters) * cb == start + run.clusters * cb)
        by (nonlinear_arith)
        requires
            start == run.file_cluster * cb,
    ;
    assert(512 * ((from - start) / 512) + skip == from - start);
    lemma_wrote_span(volume, sector, skip, data);
    let at = volume.at(sector) + skip;
    assert(at == volume.cluster_at(run.start_cluster as int) + (from - start));
    assert forall|i: int| from <= i < from + data.len() implies #[trigger] volume.position(
        clusters,
        i,
    ) == at + (i - from) by {
        fs::lemma_position_in_run(volume, runs, clusters, r, i);
    }
    assert forall|i: int| 0 <= i < clusters.len() * cb implies #[trigger] after.chain_byte(
        clusters,
        i,
    ) == (if from <= i < from + data.len() {
        data[i - from]
    } else {
        volume.chain_byte(clusters, i)
    }) by {
        lemma_position(volume, clusters, i);
        let p = volume.position(clusters, i);
        assert(after.position(clusters, i) == p);
        if !(from <= i < from + data.len()) && at <= p < at + data.len() {
            let j = from + (p - at);
            table::lemma_tiles_bound(runs, clusters, r);
            assert((run.file_cluster + run.clusters) * cb <= clusters.len() * cb)
                by (nonlinear_arith)
                requires
                    run.file_cluster + run.clusters <= clusters.len(),
                    cb > 0,
            ;
            assert(volume.position(clusters, j) == p);
            assert(0 <= start) by (nonlinear_arith)
                requires
                    start == run.file_cluster * cb,
                    cb > 0,
            ;
            lemma_positions_differ(volume, clusters, i, j);
        }
    }
    assert forall|p: int|
        volume.data_at() <= p < volume.disk.len() && !volume.in_clusters(
            clusters,
            p,
        ) implies #[trigger] after.disk[p] == volume.disk[p] by {
        if at <= p < at + data.len() {
            let j = from + (p - at);
            assert(volume.position(clusters, j) == p);
            table::lemma_tiles_bound(runs, clusters, r);
            assert((run.file_cluster + run.clusters) * cb <= clusters.len() * cb && 0 <= start)
                by (nonlinear_arith)
                requires
                    run.file_cluster + run.clusters <= clusters.len(),
                    cb > 0,
                    start == run.file_cluster * cb,
            ;
            lemma_position(volume, clusters, j);
            assert(volume.in_cluster(clusters[j / cb], p));
        }
    }
}

/// Writing to a chain twice, the second time where the first ended, is
/// writing both at once.
proof fn lemma_chain_spliced_twice(
    a: Volume,
    b: Volume,
    c: Volume,
    clusters: Seq<u32>,
    from: int,
    first: Seq<u8>,
    second: Seq<u8>,
)
    requires
        b.boot == a.boot,
        b.first_block == a.first_block,
        chain_spliced(a, b, clusters, from, first),
        chain_spliced(b, c, clusters, from + first.len(), second),
    ensures
        chain_spliced(a, c, clusters, from, first + second),
{
    assert forall|i: int| 0 <= i < clusters.len() * a.cluster_bytes() implies #[trigger] c.chain_byte(
        clusters,
        i,
    ) == (if from <= i < from + (first + second).len() {
        (first + second)[i - from]
    } else {
        a.chain_byte(clusters, i)
    }) by {
        assert(b.chain_byte(clusters, i) == (if from <= i < from + first.len() {
            first[i - from]
        } else {
            a.chain_byte(clusters, i)
        }));
    }
    assert forall|p: int|
        a.data_at() <= p < a.disk.len() && !a.in_clusters(clusters, p) implies #[trigger] c.disk[p]
        == a.disk[p] by {
        assert(!b.in_clusters(clusters, p)) by {
            if b.in_clusters(clusters, p) {
                let i = choose|i: int|
                    0 <= i < clusters.len() && b.in_cluster(#[trigger] clusters[i], p);
                assert(a.in_cluster(clusters[i], p));
            }
        }
        assert(b.disk[p] == a.disk[p]);
    }
}

/// Writing to a chain's runs, from run `r` on.
proof fn lemma_wrote_runs(
    volume: Volume,
    runs: Seq<Run>,
    clusters: Seq<u32>,
    r: int,
    from: int,
    data: Seq<u8>,
)
    requires
        volume.laid_out(),
        volume.fits(),
        table::tiles(runs, clusters),
        clusters.no_duplicates(),
        volume.table.links(clusters),
        0 <= r <= runs.len(),
        0 <= from,
        from + data.len() <= clusters.len() * volume.cluster_bytes() || data.len() == 0,
        data.len() > 0 && r < runs.len() ==> runs[r].file_cluster * volume.cluster_bytes() <= from,
        data.len() > 0 && r == runs.len() ==> clusters.len() * volume.cluster_bytes() <= from,
    ensures
        chain_spliced(
            volume,
            volume.wrote_runs(runs.skip(r), from, data),
            clusters,
            from,
            data,
        ),
    decreases runs.len() - r,
{
    let rest = runs.skip(r);
    let after = volume.wrote_runs(rest, from, data);
    if data.len() == 0 {
        assert(after == volume);
    } else if r < runs.len() {
        let cb = volume.cluster_bytes();
        let start = runs[r].file_cluster * cb;
        let end = (runs[r].file_cluster + runs[r].clusters) * cb;
        assert(rest[0] == runs[r]);
        assert(rest.skip(1) =~= runs.skip(r + 1));
        assert(runs[r].file_cluster + runs[r].clusters == table::run_end(
            runs,
            r,
            clusters.len() as int,
        ));
        if from >= end {
            lemma_wrote_runs(volume, runs, clusters, r + 1, from, data);
        } else {
            let take = operations::least(end - from, data.len() as int);
            let sector = volume.boot.spec_cluster_sector(runs[r].start_cluster as int) + (from
                - start) / 512;
            let part = data.take(take);
            let left = data.skip(take);
            let span = volume.wrote_span(sector, (from - start) % 512, part);
            lemma_wrote_run(volume, runs, clusters, r, from, part);
            lemma_wrote_runs(span, runs, clusters, r + 1, from + take, left);
            lemma_chain_spliced_twice(
                volume,
                span,
                span.wrote_runs(runs.skip(r + 1), from + take, left),
                clusters,
                from,
                part,
                left,
            );
            assert(part + left =~= data);
        }
    }
}

/// Writing to a chain that is long enough puts the data there, and changes
/// nothing else in the data area.
pub proof fn lemma_write_chain(volume: Volume, first: u32, offset: int, data: Seq<u8>)
    requires
        volume.laid_out(),
        volume.fits(),
        0 <= offset,
        volume.write_chain(first, offset, data).1 is Ok,
    ensures
        volume.table.chain(first) is Ok,
        chain_spliced(
            volume,
            volume.write_chain(first, offset, data).0,
            volume.table.chain(first)->Ok_0,
            offset,
            data,
        ),
        volume.write_chain(first, offset, data).0.written_from(volume),
        data.len() > 0 ==> offset + data.len() <= volume.table.chain(first)->Ok_0.len()
            * volume.cluster_bytes(),
{
    reveal(Volume::write_chain);
    operations::lemma_write_chain_frame(volume, first, offset, data);
    let clusters = volume.table.chain(first)->Ok_0;
    let runs = table::coalesce(clusters);
    table::lemma_chain(volume.table, first);
    table::lemma_coalesce_tiles(clusters);
    assert(runs.skip(0) =~= runs);
    assert(0int * volume.cluster_bytes() == 0) by (nonlinear_arith);
    lemma_wrote_runs(volume, runs, clusters, 0, offset, data);
}

/// Writing zeros to a chain does the same with zeros.
pub proof fn lemma_zero_chain(volume: Volume, first: u32, from: int, to: int)
    requires
        volume.laid_out(),
        volume.fits(),
        0 <= from,
        from < to,
        volume.zero_chain(first, from, to).1 is Ok,
    ensures
        volume.table.chain(first) is Ok,
        chain_spliced(
            volume,
            volume.zero_chain(first, from, to).0,
            volume.table.chain(first)->Ok_0,
            from,
            bytes::zeros((to - from) as nat),
        ),
        volume.zero_chain(first, from, to).0.written_from(volume),
        to <= volume.table.chain(first)->Ok_0.len() * volume.cluster_bytes(),
    decreases to - from,
{
    operations::lemma_zero_chain_frame(volume, first, from, to);
    let take = operations::least(to - from, 0x1_0000);
    let part = bytes::zeros(take as nat);
    let (after, _) = volume.write_chain(first, from, part);
    lemma_write_chain(volume, first, from, part);
    if from + take < to {
        lemma_zero_chain(after, first, from + take, to);
        lemma_chain_spliced_twice(
            volume,
            after,
            after.zero_chain(first, from + take, to).0,
            volume.table.chain(first)->Ok_0,
            from,
            part,
            bytes::zeros((to - from - take) as nat),
        );
        assert(part + bytes::zeros((to - from - take) as nat) =~= bytes::zeros((to - from) as nat));
    } else {
        assert(after.zero_chain(first, from + take, to).0 == after);
        assert(part =~= bytes::zeros((to - from) as nat));
    }
}

/// The stretches of dirty sectors lie among the sectors.
proof fn lemma_stretches(dirty: Seq<bool>, n: int)
    requires
        0 <= n <= dirty.len(),
        n <= u32::MAX,
    ensures
        forall|k: int|
            0 <= k < table::dirty_stretches(dirty, n).len() ==> {
                let (start, length) = #[trigger] table::dirty_stretches(dirty, n)[k];
                start + length <= n
            },
    decreases n,
{
    if n > 0 {
        lemma_stretches(dirty, n - 1);
        let before = table::dirty_stretches(dirty, n - 1);
        let all = table::dirty_stretches(dirty, n);
        assert forall|k: int| 0 <= k < all.len() implies {
            let (start, length) = #[trigger] all[k];
            start + length <= n
        } by {
            if k < before.len() {
                let (start, length) = before[k];
            }
        }
    }
}

/// Writing table sectors leaves the data area alone.
proof fn lemma_wrote_copies(volume: Volume, stretch: (u32, u32), copies: int)
    requires
        volume.laid_out(),
        stretch.0 + stretch.1 <= volume.table.sectors_per_fat,
        0 <= copies <= volume.table.fat_count,
    ensures
        undisturbed(volume, volume.wrote_copies(stretch, copies)),
        volume.wrote_copies(stretch, copies).written_from(volume),
        volume.wrote_copies(stretch, copies).capacity == volume.capacity,
    decreases copies,
{
    if copies > 0 {
        lemma_wrote_copies(volume, stretch, copies - 1);
        let before = volume.wrote_copies(stretch, copies - 1);
        let sector = volume.table.fat_start + (copies - 1) * volume.table.sectors_per_fat
            + stretch.0;
        let data = crate::volume::stretch_bytes(
            volume.table.entries,
            stretch.0 as int,
            stretch.1 as int,
        );
        let (spf, count) = (volume.table.sectors_per_fat as int, volume.table.fat_count as int);
        assert((copies - 1) * spf + spf <= count * spf && 0 <= (copies - 1) * spf)
            by (nonlinear_arith)
            requires
                1 <= copies <= count,
                0 <= spf,
        ;
        lemma_wrote(before, sector, data);
        assert forall|p: int| volume.data_at() <= p < volume.disk.len() implies #[trigger] before.wrote(
            sector,
            data,
        ).disk[p] == volume.disk[p] by {
            assert(before.disk[p] == volume.disk[p]);
        }
    }
}

/// Writing table sectors leaves the data area alone.
proof fn lemma_wrote_stretches(volume: Volume, stretches: Seq<(u32, u32)>)
    requires
        volume.laid_out(),
        forall|k: int|
            0 <= k < stretches.len() ==> {
                let (start, length) = #[trigger] stretches[k];
                start + length <= volume.table.sectors_per_fat
            },
    ensures
        undisturbed(volume, volume.wrote_stretches(stretches)),
        volume.wrote_stretches(stretches).written_from(volume),
        volume.wrote_stretches(stretches).capacity == volume.capacity,
    decreases stretches.len(),
{
    if stretches.len() > 0 {
        let fewer = stretches.drop_last();
        assert forall|k: int| 0 <= k < fewer.len() implies {
            let (start, length) = #[trigger] fewer[k];
            start + length <= volume.table.sectors_per_fat
        } by {
            let (start, length) = stretches[k];
        }
        lemma_wrote_stretches(volume, fewer);
        let before = volume.wrote_stretches(fewer);
        let (start, length) = stretches[stretches.len() - 1];
        lemma_wrote_copies(before, stretches.last(), volume.table.fat_count as int);
        let after = before.wrote_copies(stretches.last(), volume.table.fat_count as int);
        assert forall|p: int| volume.data_at() <= p < volume.disk.len() implies #[trigger] after.disk[p]
            == volume.disk[p] by {
            assert(before.disk[p] == volume.disk[p]);
        }
    }
}

/// Writing the table's changes leaves the data area alone, and the entries as
/// they are.
pub proof fn lemma_flush(volume: Volume)
    requires
        volume.laid_out(),
    ensures
        undisturbed(volume, volume.flush()),
        volume.flush() == (Volume {
            disk: volume.flush().disk,
            history: volume.flush().history,
            marked_dirty: volume.flush().marked_dirty,
            table: volume.table.flushed(),
            ..volume
        }),
        volume.flush().laid_out(),
{
    reveal(Volume::flush);
    let n = volume.table.dirty.len() as int;
    let stretches = table::dirty_stretches(volume.table.dirty, n);
    lemma_stretches(volume.table.dirty, n);
    lemma_wrote_stretches(volume, stretches);
}

/// Where block `b` of a chain is on the device.
pub proof fn lemma_block_position(volume: Volume, clusters: Seq<u32>, b: int, o: int)
    requires
        volume.laid_out(),
        0 <= b,
        b / (volume.boot.sectors_per_cluster as int) < clusters.len(),
        0 <= o < 512,
    ensures
        0 <= b / (volume.boot.sectors_per_cluster as int),
        512 * b + o < clusters.len() * volume.cluster_bytes(),
        volume.position(clusters, 512 * b + o) == volume.at(
            volume.boot.spec_cluster_sector(
                clusters[b / (volume.boot.sectors_per_cluster as int)] as int,
            ) + b % (volume.boot.sectors_per_cluster as int),
        ) + o,
{
    let spc = volume.boot.sectors_per_cluster as int;
    let cb = volume.cluster_bytes();
    let (q, m) = (b / spc, b % spc);
    let i = 512 * b + o;
    let n = clusters.len() as int;
    assert(b == spc * q + m && 0 <= m < spc && 0 <= q) by (nonlinear_arith)
        requires
            0 <= b,
            spc > 0,
            q == b / spc,
            m == b % spc,
    ;
    assert(i == q * cb + (512 * m + o) && 0 <= 512 * m + o < cb) by (nonlinear_arith)
        requires
            b == spc * q + m,
            0 <= m < spc,
            cb == spc * 512,
            i == 512 * b + o,
            0 <= o < 512,
    ;
    vstd::arithmetic::div_mod::lemma_fundamental_div_mod_converse(i, cb, q, 512 * m + o);
    assert((q + 1) * cb <= n * cb && (q + 1) * cb == q * cb + cb) by (nonlinear_arith)
        requires
            q + 1 <= n,
            0 <= cb,
    ;
}

/// Writing one block of a chain changes just that block.
pub proof fn lemma_block_written(volume: Volume, clusters: Seq<u32>, b: int, block: Seq<u8>)
    requires
        volume.laid_out(),
        volume.fits(),
        volume.table.links(clusters),
        clusters.no_duplicates(),
        0 <= b,
        b / (volume.boot.sectors_per_cluster as int) < clusters.len(),
        block.len() == 512,
    ensures
        ({
            let spc = volume.boot.sectors_per_cluster as int;
            let sector = volume.boot.spec_cluster_sector(clusters[b / spc] as int) + b % spc;
            &&& chain_spliced(volume, volume.wrote(sector, block), clusters, 512 * b, block)
            &&& volume.wrote(sector, block).written_from(volume)
            &&& forall|o: int|
                0 <= o < 512 ==> #[trigger] volume.sectors(sector, 1)[o] == volume.chain_byte(
                    clusters,
                    512 * b + o,
                )
            &&& volume.boot.data_start <= sector < volume.boot.total_sectors
        }),
{
    let spc = volume.boot.sectors_per_cluster as int;
    let cb = volume.cluster_bytes();
    let sector = volume.boot.spec_cluster_sector(clusters[b / spc] as int) + b % spc;
    let after = volume.wrote(sector, block);
    lemma_wrote(volume, sector, block);
    lemma_block_position(volume, clusters, b, 0);
    assert(0 <= b % spc < spc) by (nonlinear_arith)
        requires
            spc > 0,
    ;
    assert(volume.table.valid(clusters[b / spc] as int));
    boot::lemma_cluster_in_volume(volume.boot, clusters[b / spc] as int);
    assert forall|o: int| 0 <= o < 512 implies #[trigger] volume.sectors(sector, 1)[o]
        == volume.chain_byte(clusters, 512 * b + o) && volume.position(clusters, 512 * b + o)
        == volume.at(sector) + o by {
        lemma_block_position(volume, clusters, b, o);
    }
    assert forall|i: int| 0 <= i < clusters.len() * cb implies #[trigger] after.chain_byte(
        clusters,
        i,
    ) == (if 512 * b <= i < 512 * b + 512 {
        block[i - 512 * b]
    } else {
        volume.chain_byte(clusters, i)
    }) by {
        lemma_position(volume, clusters, i);
        let p = volume.position(clusters, i);
        assert(after.position(clusters, i) == p);
        if 512 * b <= i < 512 * b + 512 {
            lemma_block_position(volume, clusters, b, i - 512 * b);
        } else if volume.at(sector) <= p < volume.at(sector) + 512 {
            let o = p - volume.at(sector);
            lemma_block_position(volume, clusters, b, o);
            lemma_positions_differ(volume, clusters, i, 512 * b + o);
        }
    }
    assert forall|p: int|
        volume.data_at() <= p < volume.disk.len() && !volume.in_clusters(
            clusters,
            p,
        ) implies #[trigger] after.disk[p] == volume.disk[p] by {
        if volume.at(sector) <= p < volume.at(sector) + 512 {
            let o = p - volume.at(sector);
            lemma_block_position(volume, clusters, b, o);
            lemma_position(volume, clusters, 512 * b + o);
            assert(volume.in_cluster(clusters[(512 * b + o) / cb], p));
        }
    }
}

/// A chain's bytes with some slots replaced: the first of `entries` goes to
/// slot `index`.
pub open spec fn with_slots(data: Seq<u8>, index: int, entries: Seq<Seq<u8>>) -> Seq<u8> {
    Seq::new(
        data.len(),
        |i: int|
            if index <= i / 32 < index + entries.len() {
                entries[i / 32 - index][i % 32]
            } else {
                data[i]
            },
    )
}

/// What an operation that writes slots of a directory changes: the
/// directory's own bytes, and nothing else in the data area. The directory is
/// no longer held.
pub open spec fn directory_written(
    before: Volume,
    after: Volume,
    directory: u32,
    data: Seq<u8>,
) -> bool {
    let clusters = before.table.chain(directory)->Ok_0;
    &&& after == (Volume {
        disk: after.disk,
        history: after.history,
        marked_dirty: after.marked_dirty,
        directories: before.directories.remove(directory),
        ..before
    })
    &&& after.disk.len() == before.disk.len()
    &&& after.chain_bytes(clusters) == data
    &&& forall|p: int|
        before.data_at() <= p < before.disk.len() && !before.in_clusters(clusters, p)
            ==> #[trigger] after.disk[p] == before.disk[p]
}

/// A block of a directory with one slot changed changes just that slot.
proof fn lemma_slot_spliced(
    data: Seq<u8>,
    after: Seq<u8>,
    index: int,
    block: Seq<u8>,
    changed: Seq<u8>,
)
    requires
        0 <= index,
        block.len() == 512,
        changed.len() == 32,
        after.len() == data.len(),
        forall|o: int| 0 <= o < 512 ==> #[trigger] block[o] == data[512 * (index / 16) + o],
        forall|i: int|
            0 <= i < data.len() ==> #[trigger] after[i] == (if 512 * (index / 16) <= i < 512 * (
            index / 16) + 512 {
                bytes::splice(block, index % 16 * 32, changed)[i - 512 * (index / 16)]
            } else {
                data[i]
            }),
    ensures
        after == with_slots(data, index, seq![changed]),
{
    let expected = with_slots(data, index, seq![changed]);
    let b = index / 16;
    assert forall|i: int| 0 <= i < data.len() implies after[i] == expected[i] by {
        if 512 * b <= i < 512 * b + 512 {
            let o = i - 512 * b;
            assert(block[o] == data[512 * b + o]);
            assert(i / 32 == 16 * b + o / 32);
            assert(i % 32 == o % 32);
        }
    }
    assert(after =~= expected);
}

/// Changing a slot of a directory in place changes just that slot.
pub proof fn lemma_edit_slot(volume: Volume, directory: u32, index: u32, edit: Edit)
    requires
        volume.laid_out(),
        volume.fits(),
        volume.edit_slot(directory, index, edit).1 is Ok,
    ensures
        volume.table.chain(directory) is Ok,
        ({
            let data = volume.chain_bytes(volume.table.chain(directory)->Ok_0);
            &&& index < dir::slot_count(data)
            &&& directory_written(
                volume,
                volume.edit_slot(directory, index, edit).0,
                directory,
                with_slots(data, index as int, seq![edit.applied(dir::slot(data, index as int))]),
            )
        }),
{
    reveal(Volume::edit_slot);
    let clusters = volume.table.chain(directory)->Ok_0;
    table::lemma_chain(volume.table, directory);
    let data = volume.chain_bytes(clusters);
    let spc = volume.boot.sectors_per_cluster as int;
    let b = index as int / 16;
    let sector = volume.boot.spec_cluster_sector(clusters[b / spc] as int) + b % spc;
    let offset = index as int % 16 * 32;
    let block = volume.sectors(sector, 1);
    let old = dir::slot(data, index as int);
    let changed = edit.applied(block.subrange(offset, offset + 32));
    let read = volume.after_read(sector, 1);
    let written = bytes::splice(block, offset, changed);
    let after = volume.edit_slot(directory, index, edit).0;
    fs::lemma_chain_size(volume, clusters.len() as int);
    assert(0 <= clusters.len() * volume.cluster_bytes()) by (nonlinear_arith)
        requires
            0 <= volume.cluster_bytes(),
    ;
    lemma_block_position(volume, clusters, b, 511);
    lemma_block_written(volume, clusters, b, bytes::zeros(512));
    assert(block.len() == 512);
    lemma_block_written(read, clusters, b, written);
    assert(block.subrange(offset, offset + 32) =~= old) by {
        assert forall|k: int| 0 <= k < 32 implies #[trigger] block.subrange(offset, offset + 32)[k]
            == old[k] by {
            assert(volume.sectors(sector, 1)[offset + k] == volume.chain_byte(
                clusters,
                512 * b + (offset + k),
            ));
        }
    }
    assert(changed.len() == 32);
    assert(after.chain_bytes(clusters) == with_slots(
        data,
        index as int,
        seq![edit.applied(old)],
    )) by {
        assert forall|o: int| 0 <= o < 512 implies #[trigger] block[o] == data[512 * b + o] by {
            assert(volume.sectors(sector, 1)[o] == volume.chain_byte(clusters, 512 * b + o));
        }
        assert forall|i: int| 0 <= i < data.len() implies #[trigger] after.chain_bytes(
            clusters,
        )[i] == (if 512 * b <= i < 512 * b + 512 {
            written[i - 512 * b]
        } else {
            data[i]
        }) by {
            assert(after.chain_byte(clusters, i) == read.wrote(sector, written).chain_byte(
                clusters,
                i,
            ));
            assert(read.chain_byte(clusters, i) == data[i]);
        }
        lemma_slot_spliced(data, after.chain_bytes(clusters), index as int, block, changed);
    }
    assert forall|p: int|
        volume.data_at() <= p < volume.disk.len() && !volume.in_clusters(
            clusters,
            p,
        ) implies #[trigger] after.disk[p] == volume.disk[p] by {
        assert(!read.in_clusters(clusters, p)) by {
            if read.in_clusters(clusters, p) {
                let i = choose|i: int|
                    0 <= i < clusters.len() && read.in_cluster(#[trigger] clusters[i], p);
                assert(volume.in_cluster(clusters[i], p));
            }
        }
        assert(read.wrote(sector, written).disk[p] == read.disk[p]);
    }
}

/// Writing the slots of a directory from block `b` on changes just those.
proof fn lemma_write_slots(
    volume: Volume,
    directory: u32,
    index: int,
    entries: Seq<Seq<u8>>,
    b: int,
)
    requires
        volume.laid_out(),
        volume.fits(),
        0 <= index,
        index + entries.len() <= u32::MAX,
        index / 16 <= b,
        forall|k: int| 0 <= k < entries.len() ==> (#[trigger] entries[k]).len() == 32,
        volume.write_slots(directory, index, entries, b).1 is Ok,
        volume.table.chain(directory) is Ok,
    ensures
        ({
            let clusters = volume.table.chain(directory)->Ok_0;
            let after = volume.write_slots(directory, index, entries, b).0;
            &&& after == (Volume {
                disk: after.disk,
                history: after.history,
                marked_dirty: after.marked_dirty,
                directories: volume.directories.remove(directory),
                ..volume
            })
            &&& after.disk.len() == volume.disk.len()
            &&& forall|i: int|
                0 <= i < clusters.len() * volume.cluster_bytes() ==> #[trigger] after.chain_byte(
                    clusters,
                    i,
                ) == (if 512 * b <= i && index <= i / 32 < index + entries.len() {
                    entries[i / 32 - index][i % 32]
                } else {
                    volume.chain_byte(clusters, i)
                })
            &&& forall|p: int|
                volume.data_at() <= p < volume.disk.len() && !volume.in_clusters(clusters, p)
                    ==> #[trigger] after.disk[p] == volume.disk[p]
            &&& 16 * b < index + entries.len() ==> 32 * (index + entries.len())
                <= clusters.len() * volume.cluster_bytes()
        }),
    decreases index + entries.len() + 16 - 16 * b,
{
    let clusters = volume.table.chain(directory)->Ok_0;
    table::lemma_chain(volume.table, directory);
    let after = volume.write_slots(directory, index, entries, b).0;
    let total = clusters.len() * volume.cluster_bytes();
    if 16 * b >= index + entries.len() {
        assert forall|i: int| 0 <= i < total implies #[trigger] after.chain_byte(clusters, i) == (if 512
            * b <= i && index <= i / 32 < index + entries.len() {
            entries[i / 32 - index][i % 32]
        } else {
            volume.chain_byte(clusters, i)
        }) by {}
    } else {
        let spc = volume.boot.sectors_per_cluster as int;
        let sector = volume.boot.spec_cluster_sector(clusters[b / spc] as int) + b % spc;
        assert(((16 * b) as u32) as int / 16 == b);
        let block = volume.filled_block(sector, b, index, entries);
        let read = volume.after_read(sector, 1);
        let next = read.wrote(sector, block);
        lemma_block_position(volume, clusters, b, 511);
        lemma_block_written(volume, clusters, b, block);
        lemma_block_written(read, clusters, b, block);
        lemma_write_slots(next, directory, index, entries, b + 1);
        assert forall|i: int| 0 <= i < total implies #[trigger] after.chain_byte(clusters, i) == (if 512
            * b <= i && index <= i / 32 < index + entries.len() {
            entries[i / 32 - index][i % 32]
        } else {
            volume.chain_byte(clusters, i)
        }) by {
            assert(read.chain_byte(clusters, i) == volume.chain_byte(clusters, i));
            assert(next.chain_byte(clusters, i) == (if 512 * b <= i < 512 * b + 512 {
                block[i - 512 * b]
            } else {
                read.chain_byte(clusters, i)
            }));
            if 512 * b <= i < 512 * b + 512 {
                let o = i - 512 * b;
                assert(volume.sectors(sector, 1)[o] == volume.chain_byte(clusters, 512 * b + o));
                assert(i / 32 == 16 * b + o / 32);
                assert(i % 32 == o % 32);
            }
        }
        assert forall|p: int|
            volume.data_at() <= p < volume.disk.len() && !volume.in_clusters(
                clusters,
                p,
            ) implies #[trigger] after.disk[p] == volume.disk[p] by {
            lemma_in_clusters_same(volume, read, clusters, p);
            lemma_in_clusters_same(volume, next, clusters, p);
            assert(next.disk[p] == read.disk[p]);
        }
    }
}

/// Which clusters a place lies in is a matter of geometry alone.
pub proof fn lemma_in_clusters_same(a: Volume, b: Volume, clusters: Seq<u32>, p: int)
    requires
        a.boot == b.boot,
        a.first_block == b.first_block,
    ensures
        a.in_clusters(clusters, p) == b.in_clusters(clusters, p),
{
    if a.in_clusters(clusters, p) {
        let i = choose|i: int| 0 <= i < clusters.len() && a.in_cluster(#[trigger] clusters[i], p);
        assert(b.in_cluster(clusters[i], p));
    }
    if b.in_clusters(clusters, p) {
        let i = choose|i: int| 0 <= i < clusters.len() && b.in_cluster(#[trigger] clusters[i], p);
        assert(a.in_cluster(clusters[i], p));
    }
}

/// Writing consecutive slots of a directory changes just those.
pub proof fn lemma_put_slots(volume: Volume, directory: u32, index: u32, entries: Seq<Seq<u8>>)
    requires
        volume.laid_out(),
        volume.fits(),
        entries.len() > 0,
        index + entries.len() <= u32::MAX,
        forall|k: int| 0 <= k < entries.len() ==> (#[trigger] entries[k]).len() == 32,
        volume.put_slots(directory, index, entries).1 is Ok,
    ensures
        volume.table.chain(directory) is Ok,
        ({
            let data = volume.chain_bytes(volume.table.chain(directory)->Ok_0);
            &&& index + entries.len() <= dir::slot_count(data)
            &&& directory_written(
                volume,
                volume.put_slots(directory, index, entries).0,
                directory,
                with_slots(data, index as int, entries),
            )
        }),
{
    let clusters = volume.table.chain(directory)->Ok_0;
    let b = index as int / 16;
    assert(volume.table.chain(directory) is Ok);
    table::lemma_chain(volume.table, directory);
    fs::lemma_chain_size(volume, clusters.len() as int);
    lemma_write_slots(volume, directory, index as int, entries, b);
    let data = volume.chain_bytes(clusters);
    let after = volume.put_slots(directory, index, entries).0;
    let expected = with_slots(data, index as int, entries);
    assert(after.chain_bytes(clusters) =~= expected) by {
        assert forall|i: int| 0 <= i < data.len() implies after.chain_bytes(clusters)[i]
            == expected[i] by {
            assert(after.chain_byte(clusters, i) == (if 512 * b <= i && index <= i / 32 < index
                + entries.len() {
                entries[i / 32 - index][i % 32]
            } else {
                volume.chain_byte(clusters, i)
            }));
        }
    }
}

/// A directory's bytes with slots `first` to `last` marked deleted.
pub open spec fn with_deleted(data: Seq<u8>, first: int, last: int) -> Seq<u8> {
    Seq::new(
        data.len(),
        |i: int|
            if first <= i / 32 <= last && i % 32 == 0 {
                dir::DELETED
            } else {
                data[i]
            },
    )
}

/// Marking slots deleted changes just their first bytes.
pub proof fn lemma_delete_down(volume: Volume, directory: u32, first: u32, last: u32)
    requires
        volume.laid_out(),
        volume.fits(),
        first <= last,
        volume.delete_down(directory, first, last).1 is Ok,
    ensures
        volume.table.chain(directory) is Ok,
        ({
            let data = volume.chain_bytes(volume.table.chain(directory)->Ok_0);
            &&& last < dir::slot_count(data)
            &&& directory_written(
                volume,
                volume.delete_down(directory, first, last).0,
                directory,
                with_deleted(data, first as int, last as int),
            )
        }),
    decreases last,
{
    let (edited, result) = volume.edit_slot(directory, last, Edit::Delete);
    lemma_edit_slot(volume, directory, last, Edit::Delete);
    let clusters = volume.table.chain(directory)->Ok_0;
    let data = volume.chain_bytes(clusters);
    table::lemma_chain(volume.table, directory);
    fs::lemma_chain_size(volume, clusters.len() as int);
    let once = with_slots(data, last as int, seq![dir::deleted_entry(dir::slot(data, last as int))]);
    assert(once =~= with_deleted(data, last as int, last as int)) by {
        assert forall|i: int| 0 <= i < data.len() implies once[i] == with_deleted(
            data,
            last as int,
            last as int,
        )[i] by {
            if i / 32 == last {
                assert(dir::slot(data, last as int)[i % 32] == data[i]);
            }
        }
    }
    if last > first {
        let after = volume.delete_down(directory, first, last).0;
        lemma_delete_down(edited, directory, first, (last - 1) as u32);
        assert(edited.chain_bytes(clusters) == once);
        assert(with_deleted(once, first as int, last - 1) =~= with_deleted(
            data,
            first as int,
            last as int,
        ));
        assert(after.directories =~= volume.directories.remove(directory));
        assert forall|p: int|
            volume.data_at() <= p < volume.disk.len() && !volume.in_clusters(
                clusters,
                p,
            ) implies #[trigger] after.disk[p] == volume.disk[p] by {
            lemma_in_clusters_same(volume, edited, clusters, p);
            assert(edited.disk[p] == volume.disk[p]);
        }
    }
}

/// A directory that grows has its old bytes, and zeros after them. Nothing
/// else in the data area changes but the cluster it grew by.
pub proof fn lemma_grow_directory(volume: Volume, directory: u32)
    requires
        volume.laid_out(),
        volume.fits(),
        volume.grow_directory(directory).1 is Ok,
    ensures
        volume.table.chain(directory) is Ok,
        ({
            let clusters = volume.table.chain(directory)->Ok_0;
            let after = volume.grow_directory(directory).0;
            let added = volume.table.allocated(1).1->Ok_0;
            &&& volume.table.allocated(1).1 is Ok
            &&& after == (Volume {
                disk: after.disk,
                history: after.history,
                marked_dirty: after.marked_dirty,
                table: volume.table.appended(clusters.last(), 1).0,
                directories: volume.directories.remove(directory),
                ..volume
            })
            &&& after.laid_out()
            &&& after.disk.len() == volume.disk.len()
            &&& volume.table.appended(clusters.last(), 1).1 == Ok::<Seq<u32>, FatError>(added)
            &&& after.table.chain(directory) == Ok::<Seq<u32>, FatError>(clusters + added)
            &&& after.chain_bytes(clusters + added) == volume.chain_bytes(clusters) + bytes::zeros(
                volume.cluster_bytes() as nat,
            )
            &&& forall|p: int|
                volume.data_at() <= p < volume.disk.len() && !volume.in_clusters(added, p)
                    ==> #[trigger] after.disk[p] == volume.disk[p]
        }),
{
    reveal(Volume::grow_directory);
    let clusters = volume.table.chain(directory)->Ok_0;
    table::lemma_chain(volume.table, directory);
    let (grown, result) = volume.table.allocated(1);
    let added = result->Ok_0;
    chains::lemma_allocated(volume.table, 1);
    let after = volume.grow_directory(directory).0;
    assert(volume.table.valid(clusters[clusters.len() - 1] as int));
    chains::lemma_appended(volume.table, directory, 1);
    let cb = volume.cluster_bytes();
    fs::lemma_chain_size(volume, clusters.len() as int);
    let middle = Volume { table: grown, ..volume };
    let sector = volume.boot.spec_cluster_sector(added[0] as int);
    let filler = bytes::zeros(cb as nat);
    lemma_wrote(middle, sector, filler);
    let all = clusters + added;
    assert(volume.table.is_free(added[0] as int));
    boot::lemma_cluster_in_volume(volume.boot, added[0] as int);
    assert forall|k: int| 0 <= k < all.len() implies after.table.valid(#[trigger] all[k] as int) by {
        if k < clusters.len() {
            assert(volume.table.valid(clusters[k] as int));
        }
    }
    assert(all.len() * cb == clusters.len() * cb + cb) by (nonlinear_arith)
        requires
            all.len() == clusters.len() + 1,
    ;
    let expected = volume.chain_bytes(clusters) + filler;
    assert(after.chain_bytes(all) =~= expected) by {
        assert forall|i: int| 0 <= i < all.len() * cb implies after.chain_bytes(all)[i]
            == expected[i] by {
            lemma_position(after, all, i);
            let k = i / cb;
            let p = after.position(all, i);
            if i < clusters.len() * cb {
                lemma_position(volume, clusters, i);
                assert(all[k] == clusters[k]);
                assert(p == volume.position(clusters, i));
                if volume.in_cluster(added[0], p) {
                    lemma_one_cluster(volume, clusters[k], added[0], p);
                    assert(clusters[k] != added[0]);
                }
            } else {
                assert(k == clusters.len() && i % cb == i - clusters.len() * cb)
                    by (nonlinear_arith)
                    requires
                        cb > 0,
                        k == i / cb,
                        i == k * cb + i % cb,
                        0 <= i % cb < cb,
                        clusters.len() * cb <= i < clusters.len() * cb + cb,
                ;
                assert(all[k] == added[0]);
            }
        }
    }
    assert forall|p: int|
        volume.data_at() <= p < volume.disk.len() && !volume.in_clusters(
            added,
            p,
        ) implies #[trigger] after.disk[p] == volume.disk[p] by {
        assert(!volume.in_cluster(added[0], p));
    }
    assert(after.laid_out());
}

} // verus!
