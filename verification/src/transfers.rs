//! How many calls of the device an operation takes.
use vstd::prelude::*;

use crate::blockdev;
use crate::blockdev::Access;
use crate::error::Fault;
use crate::operations;
use crate::operations::FileView;
use crate::table;
use crate::table::Run;
use crate::volume::Volume;

verus! {

/// The calls that read the first `n` bytes of a single run: one for the whole
/// blocks, and one for what is left of the last.
pub open spec fn one_piece_reads(volume: Volume, cluster: u32, n: int) -> Seq<Access> {
    let start = volume.first_block + volume.boot.spec_cluster_sector(cluster as int);
    let whole = if n >= 512 {
        seq![Access::Read { start, blocks: n / 512 }]
    } else {
        Seq::empty()
    };
    let rest = if n % 512 != 0 {
        seq![Access::Read { start: start + n / 512, blocks: 1 }]
    } else {
        Seq::empty()
    };
    whole + rest
}

/// A file in one piece is read in one call, however long it is, as long as
/// the device takes calls of that length; and one more for the bytes past its
/// last whole block.
pub proof fn lemma_one_piece_read(volume: Volume, clusters: Seq<u32>, n: int)
    requires
        volume.laid_out(),
        volume.table.links(clusters),
        clusters.len() <= u32::MAX,
        table::coalesce(clusters).len() == 1,
        0 < n <= clusters.len() * volume.cluster_bytes(),
        n / 512 <= volume.batch(),
    ensures
        volume.chain_reads(table::coalesce(clusters), 0, n) == one_piece_reads(
            volume,
            clusters[0],
            n,
        ),
{
    let runs = table::coalesce(clusters);
    table::lemma_coalesce_tiles(clusters);
    let run = runs[0];
    let cb = volume.cluster_bytes();
    assert(run.clusters > 0);
    assert(run.file_cluster + run.clusters == table::run_end(runs, 0, clusters.len() as int));
    assert(clusters[run.file_cluster + 0] == table::run_cluster(run, 0));
    let start = run.file_cluster * cb;
    let end = (run.file_cluster + run.clusters) * cb;
    assert(start == 0) by (nonlinear_arith)
        requires
            start == run.file_cluster * cb,
            run.file_cluster == 0,
    ;
    assert(end == clusters.len() * cb);
    let take = operations::least(end - 0, n);
    assert(take == n);
    let sector = volume.boot.spec_cluster_sector(run.start_cluster as int) + (0 - start) / 512;
    assert((0 - start) / 512 == 0 && (0 - start) % 512 == 0);
    reveal(Volume::span_reads);
    reveal_with_fuel(Volume::chain_reads, 2);
    reveal_with_fuel(blockdev::reads, 2);
    assert(runs.skip(1) =~= Seq::<Run>::empty());
    let expected = one_piece_reads(volume, clusters[0], n);
    assert(volume.span_reads(sector, 0, n) =~= expected);
    assert(volume.chain_reads(runs, 0, n) =~= expected + Seq::<Access>::empty());
}

/// Reading whole blocks of a chain takes one call per run at most, as long as
/// the device takes calls of that length.
pub proof fn lemma_one_call_per_run(volume: Volume, runs: Seq<Run>, from: int, n: int)
    requires
        volume.laid_out(),
        from % 512 == 0,
        n % 512 == 0,
        n / 512 <= volume.batch(),
    ensures
        volume.chain_reads(runs, from, n).len() <= runs.len(),
    decreases runs.len(),
{
    if runs.len() > 0 && n > 0 {
        let cb = volume.cluster_bytes();
        let run = runs[0];
        let start = run.file_cluster * cb;
        let end = (run.file_cluster + run.clusters) * cb;
        lemma_multiple(run.file_cluster as int, volume.boot.sectors_per_cluster as int);
        lemma_multiple(
            run.file_cluster + run.clusters,
            volume.boot.sectors_per_cluster as int,
        );
        if from >= end {
            lemma_one_call_per_run(volume, runs.skip(1), from, n);
        } else {
            let take = operations::least(end - from, n);
            assert(take % 512 == 0);
            assert((from - start) % 512 == 0);
            lemma_one_call_per_run(volume, runs.skip(1), from + take, n - take);
            reveal(Volume::span_reads);
            reveal_with_fuel(blockdev::reads, 2);
            let sector = volume.boot.spec_cluster_sector(run.start_cluster as int) + (from - start)
                / 512;
            assert(volume.span_reads(sector, 0, take).len() <= 1);
        }
    }
}

/// A number of clusters is a whole number of blocks.
proof fn lemma_multiple(clusters: int, spc: int)
    ensures
        (clusters * (spc * 512)) % 512 == 0,
{
    assert(clusters * (spc * 512) == 512 * (clusters * spc)) by (nonlinear_arith);
}

/// A directory is read once: looking at it again asks nothing of the device.
pub proof fn lemma_directory_read_once(volume: Volume, directory: u32)
    requires
        volume.read_dir(directory).1 is Ok,
    ensures
        volume.read_dir(directory).0.read_dir(directory) == volume.read_dir(directory),
{
    reveal(Volume::read_dir);
}

/// A path that has been walked is walked again without asking the device.
pub proof fn lemma_path_walked_once(volume: Volume, cluster: u32, path: Seq<char>)
    requires
        volume.resolve(cluster, path).1 is Ok,
    ensures
        volume.resolve(cluster, path).0.resolve(cluster, path) == volume.resolve(cluster, path),
{
    crate::volume::lemma_resolve_looks(volume, cluster, path);
    lemma_walk_again(volume, volume.resolve(cluster, path).0, cluster, path);
}

/// Walking a path where every directory on the way is held.
proof fn lemma_walk_again(volume: Volume, after: Volume, cluster: u32, path: Seq<char>)
    requires
        volume.resolve(cluster, path).1 is Ok,
        after.boot == volume.boot,
        forall|d: u32| #[trigger]
            volume.resolve(cluster, path).0.directories.contains_key(d)
                ==> after.directories.contains_key(d) && after.directories[d] == volume.resolve(
                cluster,
                path,
            ).0.directories[d],
    ensures
        after.resolve(cluster, path) == (after, volume.resolve(cluster, path).1),
    decreases path.len(),
{
    crate::volume::lemma_resolve_looks(volume, cluster, path);
    let name = crate::volume::first_component(path);
    let rest = crate::volume::after_component(path);
    if path.len() > 0 {
        if name.len() == 0 || name =~= seq!['.'] {
            lemma_walk_again(volume, after, cluster, rest);
        } else {
            let (entered, next) = volume.enter(cluster, name);
            let (read, found) = volume.read_dir(cluster);
            assert(read.directories.contains_key(cluster) && read.directories[cluster]
                == found->Ok_0) by {
                reveal(Volume::read_dir);
            }
            crate::paths::lemma_resolve_holds(entered, next->Ok_0, rest, cluster);
            assert(after.read_dir(cluster) == (after, found)) by {
                reveal(Volume::read_dir);
            }
            crate::volume::lemma_read_dir_looks(volume, cluster);
            lemma_walk_again(entered, after, next->Ok_0, rest);
        }
    }
}

/// Writing whole blocks in one piece is one call, once the volume is marked
/// dirty, as long as the device takes calls of that length.
pub proof fn lemma_one_piece_write(volume: Volume, clusters: Seq<u32>, data: Seq<u8>)
    requires
        volume.laid_out(),
        volume.marked_dirty,
        volume.table.links(clusters),
        clusters.len() <= u32::MAX,
        table::coalesce(clusters).len() == 1,
        0 < data.len() <= clusters.len() * volume.cluster_bytes(),
        data.len() % 512 == 0,
        data.len() / 512 <= volume.batch(),
    ensures
        volume.wrote_runs(table::coalesce(clusters), 0, data).history == volume.history.push(
            Access::Write {
                start: volume.first_block + volume.boot.spec_cluster_sector(clusters[0] as int),
                data,
            },
        ),
{
    let runs = table::coalesce(clusters);
    table::lemma_coalesce_tiles(clusters);
    let run = runs[0];
    let cb = volume.cluster_bytes();
    assert(run.clusters > 0);
    assert(run.file_cluster + run.clusters == table::run_end(runs, 0, clusters.len() as int));
    assert(clusters[run.file_cluster + 0] == table::run_cluster(run, 0));
    let start = run.file_cluster * cb;
    let end = (run.file_cluster + run.clusters) * cb;
    assert(start == 0) by (nonlinear_arith)
        requires
            start == run.file_cluster * cb,
            run.file_cluster == 0,
    ;
    assert(end == clusters.len() * cb);
    let n = data.len() as int;
    assert(operations::least(end - 0, n) == n);
    assert((0 - start) / 512 == 0 && (0 - start) % 512 == 0);
    let sector = volume.boot.spec_cluster_sector(run.start_cluster as int);
    reveal(Volume::wrote_span);
    reveal_with_fuel(Volume::wrote_runs, 2);
    reveal_with_fuel(blockdev::writes, 2);
    assert(runs.skip(1) =~= Seq::<Run>::empty());
    assert(data.take(n) =~= data);
    assert(data.skip(0) =~= data);
    assert(data.take(512 * (n / 512)) =~= data);
    let span = volume.wrote_span(sector, 0, data);
    assert(span.history =~= volume.history.push(
        Access::Write { start: volume.first_block + sector, data },
    ));
    assert(span.wrote_runs(runs.skip(1), n, data.skip(n)) == span);
}

/// Reads agree however they are split: part of a file is that part of what
/// reading all of it gives, and nothing past its end.
pub proof fn lemma_parts_of_a_whole(volume: Volume, file: FileView, offset: int, length: int)
    requires
        0 <= offset,
        0 <= length,
        volume.read_file(file, 0, file.size as int).1 is Ok,
    ensures
        ({
            let whole = volume.read_file(file, 0, file.size as int).1->Ok_0;
            let end = operations::least(offset + length, file.size as int);
            &&& whole.len() == file.size
            &&& volume.read_file(file, offset, length).1 == Ok::<Seq<u8>, Fault>(
                if offset <= end {
                    whole.subrange(offset, end)
                } else {
                    Seq::empty()
                },
            )
        }),
{
    let whole = volume.read_file(file, 0, file.size as int).1->Ok_0;
    let end = operations::least(offset + length, file.size as int);
    if offset >= file.size || length == 0 {
        if offset <= end {
            assert(whole.subrange(offset, end) =~= Seq::<u8>::empty());
        }
    } else {
        let all = volume.chain_bytes(volume.table.chain(file.first_cluster)->Ok_0);
        assert(all.subrange(offset, end) =~= whole.subrange(offset, end));
    }
}

/// Reading the whole of a file gives what reading its length from its start
/// does.
pub proof fn lemma_whole(volume: Volume, file: FileView)
    ensures
        volume.read_whole(file).1 == volume.read_file(file, 0, file.size as int).1,
{
    if file.size > 0 && volume.table.chain(file.first_cluster) is Ok {
        let all = volume.chain_bytes(volume.table.chain(file.first_cluster)->Ok_0);
        if file.size <= all.len() {
            assert(all.take(file.size as int) =~= all.subrange(0, file.size as int));
        }
    }
}

/// A file in one piece is read in one call, however long it is, where the
/// device takes that many blocks at once and the file's directory is held.
pub proof fn lemma_whole_in_one_call(volume: Volume, file: FileView)
    requires
        volume.laid_out(),
        volume.read_whole(file).1 is Ok,
        file.size > 0,
        volume.directories.contains_key(file.directory),
        table::coalesce(volume.table.chain(file.first_cluster)->Ok_0).len() == 1,
        operations::padded(file.size as int) / 512 <= volume.batch(),
    ensures
        volume.read_whole(file).0.history == volume.history.push(
            Access::Read {
                start: volume.first_block + volume.boot.spec_cluster_sector(
                    file.first_cluster as int,
                ),
                blocks: operations::padded(file.size as int) / 512,
            },
        ),
{
    let clusters = volume.table.chain(file.first_cluster)->Ok_0;
    let n = operations::padded(file.size as int);
    assert(volume.check_live(file).0 == volume) by {
        reveal(Volume::check_live);
        reveal(Volume::read_dir);
    }
    table::lemma_chain(volume.table, file.first_cluster);
    table::lemma_distinct_bounded(volume.table, clusters);
    let spc = volume.boot.sectors_per_cluster as int;
    let count = clusters.len() as int;
    assert(count * (spc * 512) == 512 * (count * spc)) by (nonlinear_arith);
    lemma_one_piece_read(volume, clusters, n);
    assert(volume.read_whole(file).0.history =~= volume.history.push(
        Access::Read {
            start: volume.first_block + volume.boot.spec_cluster_sector(
                file.first_cluster as int,
            ),
            blocks: n / 512,
        },
    ));
}

/// A file whose directory is held is read in one call per run at most, where
/// the device takes that many blocks at once.
pub proof fn lemma_whole_in_runs(volume: Volume, file: FileView)
    requires
        volume.laid_out(),
        volume.read_whole(file).1 is Ok,
        file.size > 0,
        volume.directories.contains_key(file.directory),
        operations::padded(file.size as int) / 512 <= volume.batch(),
    ensures
        volume.read_whole(file).0.history.len() <= volume.history.len() + table::coalesce(
            volume.table.chain(file.first_cluster)->Ok_0,
        ).len(),
{
    let clusters = volume.table.chain(file.first_cluster)->Ok_0;
    assert(volume.check_live(file).0 == volume) by {
        reveal(Volume::check_live);
        reveal(Volume::read_dir);
    }
    lemma_one_call_per_run(
        volume,
        table::coalesce(clusters),
        0,
        operations::padded(file.size as int),
    );
}

/// Whether every directory that is held before is held alike after.
pub open spec fn still_held(before: Volume, after: Volume) -> bool {
    forall|d: u32| #[trigger]
        before.directories.contains_key(d) ==> after.directories.contains_key(d)
            && after.directories[d] == before.directories[d]
}

/// Reading a directory forgets none.
proof fn lemma_read_dir_keeps(volume: Volume, directory: u32)
    ensures
        still_held(volume, volume.read_dir(directory).0),
{
    reveal(Volume::read_dir);
}

/// Walking a path forgets no directory.
proof fn lemma_resolve_keeps(volume: Volume, cluster: u32, path: Seq<char>)
    ensures
        still_held(volume, volume.resolve(cluster, path).0),
{
    let after = volume.resolve(cluster, path).0;
    assert forall|d: u32| #[trigger] volume.directories.contains_key(
        d,
    ) implies after.directories.contains_key(d) && after.directories[d]
        == volume.directories[d] by {
        crate::paths::lemma_resolve_holds(volume, cluster, path, d);
    }
}

/// Whatever is read in between, a directory that was read lists the same
/// again, and the device is not asked.
pub proof fn lemma_listed_again(
    volume: Volume,
    directory: u32,
    path: Seq<char>,
    file: FileView,
    offset: int,
    length: int,
)
    requires
        volume.read_dir(directory).1 is Ok,
    ensures
        ({
            let (read, listed) = volume.read_dir(directory);
            &&& read.open_dir(path).0.read_dir(directory) == (read.open_dir(path).0, listed)
            &&& read.open(path).0.read_dir(directory) == (read.open(path).0, listed)
            &&& read.read_file(file, offset, length).0.read_dir(directory) == (
                read.read_file(file, offset, length).0,
                listed,
            )
            &&& read.read_whole(file).0.read_dir(directory) == (read.read_whole(file).0, listed)
        }),
{
    let (read, listed) = volume.read_dir(directory);
    let root = read.boot.root_cluster;
    let parent = operations::parent_of(path);
    assert(still_held(read, read.open_dir(path).0)) by {
        lemma_resolve_keeps(read, root, path);
        let (walked, leads) = read.resolve(root, path);
        if leads is Ok {
            lemma_read_dir_keeps(walked, leads->Ok_0);
        }
    }
    assert(still_held(read, read.open(path).0)) by {
        reveal(Volume::open);
        reveal(Volume::look_up);
        lemma_resolve_keeps(read, root, parent);
        let (walked, leads) = read.resolve(root, parent);
        if leads is Ok {
            lemma_read_dir_keeps(walked, leads->Ok_0);
        }
    }
    assert(still_held(read, read.check_live(file).0)) by {
        reveal(Volume::check_live);
        lemma_read_dir_keeps(read, file.directory);
    }
    assert(read.directories.contains_key(directory) && read.directories[directory]
        == listed->Ok_0) by {
        reveal(Volume::read_dir);
    }
    reveal(Volume::read_dir);
}

/// The calls of a transfer follow on each other: each starts where the ones
/// before it end, none moves more than the device takes, and together they
/// move what was asked for.
pub proof fn lemma_reads_follow_on(start: int, blocks: int, batch: int, n: int)
    requires
        0 < blocks,
        0 < batch,
        0 <= n < blockdev::reads(start, blocks, batch).len(),
    ensures
        ({
            let calls = blockdev::reads(start, blocks, batch);
            let left = blocks - n * batch;
            &&& 0 < left
            &&& calls[n] == (Access::Read {
                start: start + n * batch,
                blocks: if left <= batch {
                    left
                } else {
                    batch
                },
            })
            &&& n + 1 == calls.len() <==> left <= batch
        }),
    decreases n,
{
    let calls = blockdev::reads(start, blocks, batch);
    assert(0 * batch == 0) by (nonlinear_arith);
    if blocks > batch {
        let rest = blockdev::reads(start + batch, blocks - batch, batch);
        assert(calls =~= seq![Access::Read { start, blocks: batch }] + rest);
        assert(rest.len() > 0);
        if n > 0 {
            lemma_reads_follow_on(start + batch, blocks - batch, batch, n - 1);
            assert(batch + (n - 1) * batch == n * batch) by (nonlinear_arith);
            assert(calls[n] == rest[n - 1]);
        }
    }
}

/// The calls of a write follow on each other, and hand over the data piece by
/// piece.
pub proof fn lemma_writes_follow_on(start: int, data: Seq<u8>, batch: int, n: int)
    requires
        0 < batch,
        0 <= n < blockdev::writes(start, data, batch).len(),
    ensures
        ({
            let calls = blockdev::writes(start, data, batch);
            let from = 512 * (n * batch);
            let left = data.len() - from;
            &&& 0 <= left
            &&& calls[n] == (Access::Write {
                start: start + n * batch,
                data: data.subrange(
                    from,
                    if left <= 512 * batch {
                        data.len() as int
                    } else {
                        from + 512 * batch
                    },
                ),
            })
            &&& n + 1 == calls.len() <==> left <= 512 * batch
        }),
    decreases n,
{
    let calls = blockdev::writes(start, data, batch);
    assert(0 * batch == 0) by (nonlinear_arith);
    if data.len() > 512 * batch {
        let rest = data.skip(512 * batch);
        let more = blockdev::writes(start + batch, rest, batch);
        assert(calls =~= seq![Access::Write { start, data: data.take(512 * batch) }] + more);
        assert(more.len() > 0);
        if n > 0 {
            lemma_writes_follow_on(start + batch, rest, batch, n - 1);
            assert(batch + (n - 1) * batch == n * batch) by (nonlinear_arith);
            assert(calls[n] == more[n - 1]);
            let from = 512 * (n * batch);
            let left = data.len() - from;
            let to = if left <= 512 * batch {
                data.len() as int
            } else {
                from + 512 * batch
            };
            assert(rest.subrange(from - 512 * batch, to - 512 * batch) =~= data.subrange(from, to));
        } else {
            assert(data.take(512 * batch) =~= data.subrange(0, 512 * batch));
        }
    } else {
        assert(data.subrange(0, data.len() as int) =~= data);
    }
}

/// A device that takes no blocks at a time is asked for one.
pub proof fn lemma_batch(limit: u64)
    ensures
        blockdev::batch_blocks(limit) >= 1,
        limit >= 1 ==> blockdev::batch_blocks(limit) == limit,
        limit == 0 ==> blockdev::batch_blocks(limit) == 1,
{
}

/// The table is read in calls of as many blocks as the device takes, and 2048
/// at most.
pub proof fn lemma_table_batch(limit: u64)
    ensures
        limit == 0 ==> crate::fat::load_batch(limit) == 1,
        1 <= limit <= 2048 ==> crate::fat::load_batch(limit) == limit,
        limit > 2048 ==> crate::fat::load_batch(limit) == 2048,
{
}

} // verus!
