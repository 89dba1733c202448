//! The allocation table as a mathematical object: chains, runs, free space,
//! and what allocating and freeing do to it.
use vstd::prelude::*;

use crate::boot::{FIRST_CLUSTER, MAX_FAT32_CLUSTERS};
use crate::bytes;
use crate::error::FatError;

verus! {

/// Entries at or above this value end a chain.
pub const END_OF_CHAIN: u32 = 0x0FFF_FFF8;

/// The value written to end a chain.
pub const END_OF_CHAIN_MARK: u32 = 0x0FFF_FFFF;

/// A cluster the medium reported as unusable.
pub const BAD_CLUSTER: u32 = 0x0FFF_FFF7;

/// One more than the largest value an entry's 28 significant bits hold. The
/// four bits above them are reserved and kept as they are found.
pub const ENTRY_LIMIT: u32 = 0x1000_0000;

/// Table entries in one sector.
pub const ENTRIES_PER_SECTOR: u32 = 128;

/// A stretch of consecutive clusters in a chain.
#[derive(Debug, Clone, Copy, PartialEq, Eq, Structural)]
pub struct Run {
    /// How many clusters of the chain come before this stretch.
    pub file_cluster: u32,
    /// The first cluster of the stretch.
    pub start_cluster: u32,
    /// How many clusters it has.
    pub clusters: u32,
}

impl Run {
    /// Bytes in the stretch.
    pub fn bytes(&self, cluster_bytes: u32) -> (bytes: u64)
        ensures
            bytes == self.clusters * cluster_bytes,
    {
        assert(0 <= self.clusters * cluster_bytes <= 0xFFFF_FFFF * 0xFFFF_FFFF)
            by (nonlinear_arith)
            requires
                self.clusters <= 0xFFFF_FFFF,
                cluster_bytes <= 0xFFFF_FFFF,
        ;
        self.clusters as u64 * cluster_bytes as u64
    }
}

/// The allocation table of a volume, with what is remembered about it.
#[verifier::ext_equal]
pub struct Table {
    /// One entry per cluster number, the two reserved ones first.
    pub entries: Seq<u32>,
    /// How many data clusters there are.
    pub cluster_count: u32,
    /// For each sector of the table, whether it has changes to be written.
    pub dirty: Seq<bool>,
    /// Where the search for free clusters starts.
    pub next_free: u32,
    /// The volume's sector the first copy starts at.
    pub fat_start: u32,
    /// Sectors in one copy.
    pub sectors_per_fat: u32,
    /// How many copies there are.
    pub fat_count: u8,
}

/// An entry given a new value: the reserved bits stay.
pub open spec fn merged(entry: u32, value: u32) -> u32 {
    (entry - entry % ENTRY_LIMIT + value % ENTRY_LIMIT) as u32
}

/// How many of the entries numbered 2 up to `n` are free.
pub open spec fn free_below(entries: Seq<u32>, n: int) -> nat
    decreases n,
{
    if n <= FIRST_CLUSTER {
        0
    } else {
        free_below(entries, n - 1) + if entries[n - 1] % ENTRY_LIMIT == 0 {
            1nat
        } else {
            0nat
        }
    }
}

/// The byte at offset `at` of the table as it is stored.
pub open spec fn table_byte(entries: Seq<u32>, at: int) -> u8 {
    if at / 4 < entries.len() {
        bytes::u32_bytes(entries[at / 4])[at % 4]
    } else {
        0
    }
}

impl Table {
    /// The number past the last cluster's.
    pub open spec fn end(self) -> int {
        FIRST_CLUSTER + self.cluster_count
    }

    /// Whether there is a cluster of this number.
    pub open spec fn valid(self, cluster: int) -> bool {
        FIRST_CLUSTER <= cluster < self.end()
    }

    /// The 28 significant bits of a cluster's entry.
    pub open spec fn value(self, cluster: int) -> u32 {
        self.entries[cluster] % ENTRY_LIMIT
    }

    /// Whether a cluster is unallocated.
    pub open spec fn is_free(self, cluster: int) -> bool {
        self.valid(cluster) && self.value(cluster) == 0
    }

    /// How many clusters are unallocated.
    pub open spec fn free_count(self) -> nat {
        free_below(self.entries, self.end())
    }

    /// The table fits its volume, the search position is a cluster number
    /// (or the first one, where there are none), and only sectors that hold
    /// entries await writing.
    pub open spec fn wf(self) -> bool {
        &&& self.cluster_count <= MAX_FAT32_CLUSTERS
        &&& self.entries.len() == self.end()
        &&& self.dirty.len() == self.sectors_per_fat
        &&& self.end() <= ENTRIES_PER_SECTOR * self.sectors_per_fat
        &&& FIRST_CLUSTER <= self.next_free <= self.end()
        &&& self.fat_start + self.fat_count * self.sectors_per_fat <= u32::MAX
        &&& forall|sector: int|
            0 <= sector < self.dirty.len() && #[trigger] self.dirty[sector] ==> ENTRIES_PER_SECTOR
                * sector < self.end()
    }

    /// Whether two tables are those of the same volume.
    pub open spec fn same_place(self, other: Table) -> bool {
        &&& self.cluster_count == other.cluster_count
        &&& self.fat_start == other.fat_start
        &&& self.sectors_per_fat == other.sectors_per_fat
        &&& self.fat_count == other.fat_count
    }

    /// Whether some sector awaits writing.
    pub open spec fn has_changes(self) -> bool {
        exists|sector: int| 0 <= sector < self.dirty.len() && self.dirty[sector]
    }

    /// The table with nothing awaiting writing.
    pub open spec fn flushed(self) -> Table {
        Table { dirty: Seq::new(self.dirty.len(), |sector: int| false), ..self }
    }

    /// The table with one entry changed.
    pub open spec fn set(self, cluster: int, value: u32) -> Table {
        Table {
            entries: self.entries.update(cluster, merged(self.entries[cluster], value)),
            dirty: self.dirty.update(cluster / ENTRIES_PER_SECTOR as int, true),
            ..self
        }
    }

    /// What follows a cluster in its chain.
    pub open spec fn next(self, cluster: u32) -> Result<Option<u32>, FatError> {
        if !self.valid(cluster as int) {
            Err(FatError::BadCluster { cluster })
        } else {
            let entry = self.value(cluster as int);
            if entry >= END_OF_CHAIN {
                Ok(None)
            } else if entry == BAD_CLUSTER || !self.valid(entry as int) {
                Err(FatError::BadCluster { cluster: entry })
            } else {
                Ok(Some(entry))
            }
        }
    }

    /// The rest of the chain that starts at `start`, from its `index`th
    /// cluster on.
    pub open spec fn walk(self, start: u32, cluster: u32, index: int) -> Result<
        Seq<u32>,
        FatError,
    >
        decreases self.cluster_count + 1 - index,
    {
        if !self.valid(cluster as int) {
            Err(FatError::BadCluster { cluster })
        } else if index > self.cluster_count {
            Err(FatError::ChainLoop { start })
        } else {
            let entry = self.value(cluster as int);
            if entry >= END_OF_CHAIN {
                Ok(seq![cluster])
            } else if entry == 0 {
                Err(FatError::FreeClusterInChain { start, cluster })
            } else if entry == BAD_CLUSTER || !self.valid(entry as int) {
                Err(FatError::BadCluster { cluster: entry })
            } else {
                match self.walk(start, entry, index + 1) {
                    Ok(rest) => Ok(seq![cluster] + rest),
                    Err(error) => Err(error),
                }
            }
        }
    }

    /// The clusters of the chain that starts at `start`, in order, or what is
    /// wrong with it.
    pub open spec fn chain(self, start: u32) -> Result<Seq<u32>, FatError> {
        self.walk(start, start, 0)
    }

    /// Whether `clusters` is a chain: each entry names the next cluster, and
    /// the last one ends it.
    pub open spec fn links(self, clusters: Seq<u32>) -> bool {
        &&& clusters.len() > 0
        &&& forall|i: int|
            0 <= i < clusters.len() ==> self.valid(#[trigger] clusters[i] as int)
        &&& forall|i: int|
            0 <= i < clusters.len() - 1 ==> self.value(#[trigger] clusters[i] as int)
                == clusters[i + 1]
        &&& self.value(clusters.last() as int) >= END_OF_CHAIN
    }

    /// Whether the `n` clusters from `from` on are all free.
    pub open spec fn all_free(self, from: int, n: int) -> bool {
        forall|cluster: int| from <= cluster < from + n ==> #[trigger] self.is_free(cluster)
    }

    /// The first place between `from` and `to` with `n` free clusters in a row.
    pub open spec fn first_fit(self, n: int, from: int, to: int) -> Option<int>
        decreases to - from,
    {
        if n <= 0 || from + n > to {
            None
        } else if self.all_free(from, n) {
            Some(from)
        } else {
            self.first_fit(n, from + 1, to)
        }
    }

    /// Where a stretch of `n` that starts before the search position ends at
    /// the latest.
    pub open spec fn wrapped_end(self, n: int) -> int {
        if self.next_free + n - 1 <= self.end() {
            self.next_free + n - 1
        } else {
            self.end()
        }
    }

    /// Where `n` free clusters in a row are found, looking first for a
    /// stretch that starts at the search position or after it, and then for
    /// one that starts before it.
    pub open spec fn contiguous(self, n: int) -> Option<int> {
        match self.first_fit(n, self.next_free as int, self.end()) {
            Some(at) => Some(at),
            None => self.first_fit(n, FIRST_CLUSTER as int, self.wrapped_end(n)),
        }
    }

    /// The free clusters between `from` and `to`, in order.
    pub open spec fn free_between(self, from: int, to: int) -> Seq<u32>
        decreases to - from,
    {
        if to <= from {
            Seq::empty()
        } else if self.is_free(to - 1) {
            self.free_between(from, to - 1).push((to - 1) as u32)
        } else {
            self.free_between(from, to - 1)
        }
    }

    /// Every free cluster, in search order.
    pub open spec fn free_in_order(self) -> Seq<u32> {
        self.free_between(self.next_free as int, self.end()) + self.free_between(
            FIRST_CLUSTER as int,
            self.next_free as int,
        )
    }

    /// The clusters an allocation of `n` takes: a single stretch if there is
    /// one, and otherwise the first `n` free ones.
    pub open spec fn picked(self, n: int) -> Seq<u32> {
        match self.contiguous(n) {
            Some(at) => Seq::new(n as nat, |i: int| (at + i) as u32),
            None => self.free_in_order().take(n),
        }
    }

    /// The table with `clusters` linked into one chain.
    pub open spec fn linked(self, clusters: Seq<u32>) -> Table {
        Table {
            entries: Seq::new(
                self.entries.len(),
                |c: int|
                    if clusters.contains(c as u32) {
                        let i = clusters.index_of(c as u32);
                        merged(
                            self.entries[c],
                            if i + 1 < clusters.len() {
                                clusters[i + 1]
                            } else {
                                END_OF_CHAIN_MARK
                            },
                        )
                    } else {
                        self.entries[c]
                    },
            ),
            dirty: self.touched(clusters),
            ..self
        }
    }

    /// The dirty flags after the entries of `clusters` have changed.
    pub open spec fn touched(self, clusters: Seq<u32>) -> Seq<bool> {
        Seq::new(
            self.dirty.len(),
            |sector: int|
                self.dirty[sector] || exists|i: int|
                    0 <= i < clusters.len() && #[trigger] clusters[i] as int
                        / ENTRIES_PER_SECTOR as int == sector,
        )
    }

    /// The table with `clusters` marked free.
    pub open spec fn cleared(self, clusters: Seq<u32>) -> Table {
        Table {
            entries: Seq::new(
                self.entries.len(),
                |c: int|
                    if clusters.contains(c as u32) {
                        merged(self.entries[c], 0)
                    } else {
                        self.entries[c]
                    },
            ),
            dirty: self.touched(clusters),
            ..self
        }
    }

    /// The smaller of the search position and the lowest of `clusters`.
    pub open spec fn lowered(self, clusters: Seq<u32>) -> u32
        decreases clusters.len(),
    {
        if clusters.len() == 0 {
            self.next_free
        } else {
            let rest = self.lowered(clusters.drop_last());
            if clusters.last() < rest {
                clusters.last()
            } else {
                rest
            }
        }
    }

    /// The table after giving `clusters` back: free, and no later in search
    /// order than they were.
    pub open spec fn released(self, clusters: Seq<u32>) -> Table {
        Table { next_free: self.lowered(clusters), ..self.cleared(clusters) }
    }

    /// Where the search goes on after an allocation took `clusters`.
    pub open spec fn after(self, clusters: Seq<u32>) -> u32 {
        if clusters.last() + 1 < self.end() {
            (clusters.last() + 1) as u32
        } else {
            FIRST_CLUSTER
        }
    }

    /// What allocating `n` clusters as one chain does.
    pub open spec fn allocated(self, n: u32) -> (Table, Result<Seq<u32>, FatError>) {
        if n == 0 {
            (self, Ok(Seq::empty()))
        } else if self.free_count() < n {
            (self, Err(FatError::DiskFull { wanted: n, free: self.free_count() as u32 }))
        } else {
            let clusters = self.picked(n as int);
            (
                Table { next_free: self.after(clusters), ..self.linked(clusters) },
                Ok(clusters),
            )
        }
    }

    /// What lengthening the chain that ends at `last` by `n` clusters does.
    pub open spec fn appended(self, last: u32, n: u32) -> (Table, Result<Seq<u32>, FatError>) {
        let (table, result) = self.allocated(n);
        match result {
            Ok(clusters) => if clusters.len() == 0 {
                (table, result)
            } else if self.valid(last as int) {
                (table.set(last as int, clusters[0]), result)
            } else {
                (table.cleared(clusters), Err(FatError::BadCluster { cluster: last }))
            },
            Err(error) => (table, result),
        }
    }

    /// What freeing a whole chain does.
    pub open spec fn freed(self, start: u32) -> (Table, Result<Seq<u32>, FatError>) {
        match self.chain(start) {
            Ok(clusters) => (self.released(clusters), Ok(clusters)),
            Err(error) => (self, Err(error)),
        }
    }

    /// What keeping only the first `keep` clusters of a chain does.
    pub open spec fn shortened(self, start: u32, keep: u32) -> (Table, Result<(), FatError>) {
        match self.chain(start) {
            Err(error) => (self, Err(error)),
            Ok(clusters) => if keep >= clusters.len() {
                (self, Ok(()))
            } else if keep == 0 {
                (self.released(clusters), Ok(()))
            } else {
                (
                    self.set(clusters[keep - 1] as int, END_OF_CHAIN_MARK).released(
                        clusters.skip(keep as int),
                    ),
                    Ok(()),
                )
            },
        }
    }
}

/// The runs of a sequence of clusters, with one more cluster at its end.
pub open spec fn extend_runs(runs: Seq<Run>, cluster: u32, index: int) -> Seq<Run> {
    if runs.len() > 0 && runs.last().start_cluster + runs.last().clusters == cluster {
        runs.update(
            runs.len() - 1,
            Run { clusters: (runs.last().clusters + 1) as u32, ..runs.last() },
        )
    } else {
        runs.push(Run { file_cluster: index as u32, start_cluster: cluster, clusters: 1 })
    }
}

/// A sequence of clusters as runs, each as long as it can be.
pub open spec fn coalesce(clusters: Seq<u32>) -> Seq<Run>
    decreases clusters.len(),
{
    if clusters.len() == 0 {
        Seq::empty()
    } else {
        extend_runs(coalesce(clusters.drop_last()), clusters.last(), clusters.len() - 1)
    }
}

/// Whether `runs`, one after another, are exactly `clusters`.
pub open spec fn tiles(runs: Seq<Run>, clusters: Seq<u32>) -> bool {
    &&& forall|r: int|
        0 <= r < runs.len() ==> {
            &&& #[trigger] runs[r].clusters > 0
            &&& runs[r].file_cluster + runs[r].clusters == run_end(runs, r, clusters.len() as int)
        }
    &&& forall|r: int, j: int|
        0 <= r < runs.len() && 0 <= j < runs[r].clusters ==> clusters[runs[r].file_cluster + j]
            == #[trigger] run_cluster(runs[r], j)
    &&& (clusters.len() == 0 <==> runs.len() == 0)
    &&& runs.len() > 0 ==> runs[0].file_cluster == 0
}

/// The `j`th cluster of a run.
pub open spec fn run_cluster(run: Run, j: int) -> int {
    run.start_cluster + j
}

/// Where the run after the `r`th starts, or the end of the chain.
pub open spec fn run_end(runs: Seq<Run>, r: int, len: int) -> int {
    if r + 1 < runs.len() {
        runs[r + 1].file_cluster as int
    } else {
        len
    }
}

/// The runs of dirty sectors, with one more sector at their end.
pub open spec fn extend_sectors(runs: Seq<(u32, u32)>, sector: int) -> Seq<(u32, u32)> {
    if runs.len() > 0 && runs.last().0 + runs.last().1 == sector {
        runs.update(runs.len() - 1, (runs.last().0, (runs.last().1 + 1) as u32))
    } else {
        runs.push((sector as u32, 1))
    }
}

/// The stretches of dirty sectors among the first `n`, as starts and lengths.
pub open spec fn dirty_stretches(dirty: Seq<bool>, n: int) -> Seq<(u32, u32)>
    decreases n,
{
    if n <= 0 {
        Seq::empty()
    } else if dirty[n - 1] {
        extend_sectors(dirty_stretches(dirty, n - 1), n - 1)
    } else {
        dirty_stretches(dirty, n - 1)
    }
}

/// A chain that can be walked is linked, starts where the walk does, and is
/// no longer than the walk allows.
pub proof fn lemma_walk_links(table: Table, start: u32, cluster: u32, index: int)
    requires
        table.walk(start, cluster, index) is Ok,
    ensures
        table.links(table.walk(start, cluster, index)->Ok_0),
        table.walk(start, cluster, index)->Ok_0[0] == cluster,
        table.walk(start, cluster, index)->Ok_0.len() <= table.cluster_count + 1 - index,
    decreases table.cluster_count + 1 - index,
{
    let entry = table.value(cluster as int);
    let clusters = table.walk(start, cluster, index)->Ok_0;
    if entry < END_OF_CHAIN {
        lemma_walk_links(table, start, entry, index + 1);
        let rest = table.walk(start, entry, index + 1)->Ok_0;
        assert(clusters == seq![cluster] + rest);
        assert forall|i: int| 0 <= i < clusters.len() implies table.valid(
            #[trigger] clusters[i] as int,
        ) by {
            if i > 0 {
                assert(clusters[i] == rest[i - 1]);
            }
        }
        assert forall|i: int| 0 <= i < clusters.len() - 1 implies table.value(
            #[trigger] clusters[i] as int,
        ) == clusters[i + 1] by {
            if i > 0 {
                assert(clusters[i] == rest[i - 1]);
                assert(clusters[i + 1] == rest[i]);
            }
        }
        assert(clusters.last() == rest.last());
    }
}

/// No chain passes through a cluster twice.
pub proof fn lemma_links_distinct(table: Table, clusters: Seq<u32>)
    requires
        table.wf(),
        table.links(clusters),
    ensures
        clusters.no_duplicates(),
{
    assert forall|i: int, j: int|
        0 <= i < clusters.len() && 0 <= j < clusters.len() && i != j implies clusters[i]
        != clusters[j] by {
        if clusters[i] == clusters[j] {
            if i < j {
                lemma_links_repeat(table, clusters, i, j, clusters.len() - 1 - j);
            } else {
                lemma_links_repeat(table, clusters, j, i, clusters.len() - 1 - i);
            }
        }
    }
}

/// A chain that met a cluster twice would go on repeating itself, and so
/// could not end.
proof fn lemma_links_repeat(table: Table, clusters: Seq<u32>, i: int, j: int, k: int)
    requires
        table.wf(),
        table.links(clusters),
        0 <= i < j < clusters.len(),
        clusters[i] == clusters[j],
        0 <= k <= clusters.len() - 1 - j,
    ensures
        clusters[i + k] == clusters[j + k],
        k == clusters.len() - 1 - j ==> false,
    decreases k,
{
    if k > 0 {
        lemma_links_repeat(table, clusters, i, j, k - 1);
        assert(table.value(clusters[i + k - 1] as int) == clusters[i + k - 1 + 1]);
        assert(table.value(clusters[j + k - 1] as int) == clusters[j + k - 1 + 1]);
    }
    if k == clusters.len() - 1 - j {
        assert(table.value(clusters[i + k] as int) == clusters[i + k + 1]);
        assert(table.valid(clusters[i + k + 1] as int));
    }
}

/// Distinct clusters of a volume are no more than the volume has.
pub proof fn lemma_distinct_bounded(table: Table, clusters: Seq<u32>)
    requires
        clusters.no_duplicates(),
        forall|i: int| 0 <= i < clusters.len() ==> table.valid(#[trigger] clusters[i] as int),
    ensures
        clusters.len() <= table.cluster_count,
{
    let numbers = clusters.map_values(|c: u32| c as int);
    assert(numbers.no_duplicates());
    numbers.unique_seq_to_set();
    let all = vstd::set_lib::set_int_range(FIRST_CLUSTER as int, table.end());
    vstd::set_lib::lemma_int_range(FIRST_CLUSTER as int, table.end());
    assert(numbers.to_set().subset_of(all)) by {
        assert forall|n: int| numbers.to_set().contains(n) implies all.contains(n) by {
            let i = numbers.index_of(n);
            assert(numbers[i] == clusters[i] as int);
        }
    }
    vstd::set_lib::lemma_len_subset(numbers.to_set(), all);
}

/// A linked sequence of clusters is what walking from its start gives.
pub proof fn lemma_links_walk(table: Table, clusters: Seq<u32>, start: u32, index: int)
    requires
        table.wf(),
        table.links(clusters),
        0 <= index < clusters.len(),
        clusters.len() <= table.cluster_count + 1,
    ensures
        table.walk(start, clusters[index], index) == Ok::<Seq<u32>, FatError>(
            clusters.skip(index),
        ),
    decreases clusters.len() - index,
{
    if index == clusters.len() - 1 {
        assert(clusters.skip(index) =~= seq![clusters[index]]);
    } else {
        lemma_links_walk(table, clusters, start, index + 1);
        assert(table.value(clusters[index] as int) == clusters[index + 1]);
        assert(table.valid(clusters[index + 1] as int));
        assert(clusters.skip(index) =~= seq![clusters[index]] + clusters.skip(index + 1));
    }
}

/// A sequence of clusters is the chain from its first exactly if it is linked.
pub proof fn lemma_chain_is_links(table: Table, clusters: Seq<u32>)
    requires
        table.wf(),
        clusters.len() > 0,
    ensures
        table.links(clusters) <==> table.chain(clusters[0]) == Ok::<Seq<u32>, FatError>(clusters),
{
    if table.links(clusters) {
        lemma_links_distinct(table, clusters);
        lemma_distinct_bounded(table, clusters);
        lemma_links_walk(table, clusters, clusters[0], 0);
        assert(clusters.skip(0) =~= clusters);
    }
    if table.chain(clusters[0]) == Ok::<Seq<u32>, FatError>(clusters) {
        lemma_walk_links(table, clusters[0], clusters[0], 0);
    }
}

/// What holds of every chain that can be walked.
pub proof fn lemma_chain(table: Table, start: u32)
    requires
        table.wf(),
        table.chain(start) is Ok,
    ensures
        table.links(table.chain(start)->Ok_0),
        table.chain(start)->Ok_0[0] == start,
        table.chain(start)->Ok_0.no_duplicates(),
        table.chain(start)->Ok_0.len() <= table.cluster_count,
{
    lemma_walk_links(table, start, start, 0);
    lemma_links_distinct(table, table.chain(start)->Ok_0);
    lemma_distinct_bounded(table, table.chain(start)->Ok_0);
}

/// A chain stays the same as long as the entries of its clusters do.
pub proof fn lemma_chain_kept(before: Table, after: Table, start: u32)
    requires
        before.wf(),
        after.wf(),
        before.cluster_count == after.cluster_count,
        before.chain(start) is Ok,
        forall|i: int|
            0 <= i < before.chain(start)->Ok_0.len() ==> after.value(
                #[trigger] before.chain(start)->Ok_0[i] as int,
            ) == before.value(before.chain(start)->Ok_0[i] as int),
    ensures
        after.chain(start) == before.chain(start),
{
    let clusters = before.chain(start)->Ok_0;
    lemma_chain(before, start);
    assert(after.links(clusters)) by {
        assert forall|i: int| 0 <= i < clusters.len() implies after.valid(
            #[trigger] clusters[i] as int,
        ) by {
            assert(before.valid(clusters[i] as int));
        }
        assert forall|i: int| 0 <= i < clusters.len() - 1 implies after.value(
            #[trigger] clusters[i] as int,
        ) == clusters[i + 1] by {
            assert(before.value(clusters[i] as int) == clusters[i + 1]);
        }
        assert(after.value(clusters[clusters.len() - 1] as int) == before.value(
            clusters[clusters.len() - 1] as int,
        ));
    }
    lemma_chain_is_links(after, clusters);
}

/// The runs of a sequence of clusters are exactly that sequence.
pub proof fn lemma_coalesce_tiles(clusters: Seq<u32>)
    requires
        clusters.len() <= u32::MAX,
    ensures
        tiles(coalesce(clusters), clusters),
    decreases clusters.len(),
{
    if clusters.len() > 0 {
        let before = clusters.drop_last();
        let runs = coalesce(before);
        lemma_coalesce_tiles(before);
        let after = coalesce(clusters);
        let n = clusters.len() - 1;
        assert forall|r: int| 0 <= r < after.len() implies #[trigger] after[r].clusters > 0
            && after[r].file_cluster + after[r].clusters == run_end(
            after,
            r,
            clusters.len() as int,
        ) by {
            if r < runs.len() {
                assert(runs[r].clusters > 0);
                if r + 1 < runs.len() {
                    assert(runs[r + 1].clusters > 0);
                }
            }
        }
        assert forall|r: int, j: int|
            0 <= r < after.len() && 0 <= j < after[r].clusters implies clusters[after[r].file_cluster
            + j] == #[trigger] run_cluster(after[r], j) by {
            if r < runs.len() {
                assert(runs[r].file_cluster + runs[r].clusters == run_end(
                    runs,
                    r,
                    before.len() as int,
                ));
                lemma_tiles_bound(runs, before, r);
                if j < runs[r].clusters {
                    assert(before[runs[r].file_cluster + j] == run_cluster(runs[r], j));
                }
            }
        }
    }
}

/// Every run of a tiling ends within the sequence.
pub proof fn lemma_tiles_bound(runs: Seq<Run>, clusters: Seq<u32>, r: int)
    requires
        tiles(runs, clusters),
        0 <= r < runs.len(),
    ensures
        runs[r].file_cluster + runs[r].clusters <= clusters.len(),
    decreases runs.len() - r,
{
    assert(runs[r].clusters > 0);
    if r + 1 < runs.len() {
        lemma_tiles_bound(runs, clusters, r + 1);
        assert(runs[r + 1].clusters > 0);
    }
}

/// Changing an entry twice leaves the last value.
pub proof fn lemma_merged(entry: u32, first: u32, second: u32)
    ensures
        merged(entry, first) % ENTRY_LIMIT == first % ENTRY_LIMIT,
        merged(merged(entry, first), second) == merged(entry, second),
        merged(entry, first) / ENTRY_LIMIT == entry / ENTRY_LIMIT,
        entry % ENTRY_LIMIT == first % ENTRY_LIMIT ==> merged(entry, first) == entry,
{
}

/// Changing one entry changes the number of free ones by what it was and
/// what it becomes.
pub proof fn lemma_free_below_update(entries: Seq<u32>, cluster: int, entry: u32, n: int)
    requires
        FIRST_CLUSTER <= cluster < entries.len(),
        n <= entries.len(),
    ensures
        n <= cluster ==> free_below(entries.update(cluster, entry), n) == free_below(entries, n),
        n > cluster ==> free_below(entries.update(cluster, entry), n) == free_below(entries, n)
            - (if entries[cluster] % ENTRY_LIMIT == 0 {
            1int
        } else {
            0
        }) + (if entry % ENTRY_LIMIT == 0 {
            1int
        } else {
            0
        }),
    decreases n,
{
    if n > FIRST_CLUSTER {
        lemma_free_below_update(entries, cluster, entry, n - 1);
    }
}

/// There are no more free entries than entries.
pub proof fn lemma_free_below_bound(entries: Seq<u32>, n: int)
    requires
        FIRST_CLUSTER <= n,
    ensures
        free_below(entries, n) <= n - FIRST_CLUSTER,
    decreases n,
{
    if n > FIRST_CLUSTER {
        lemma_free_below_bound(entries, n - 1);
    }
}

/// A changed entry leaves the table well-formed.
pub proof fn lemma_set(table: Table, cluster: int, value: u32)
    requires
        table.wf(),
        table.valid(cluster),
    ensures
        table.set(cluster, value).wf(),
        table.set(cluster, value).value(cluster) == value % ENTRY_LIMIT,
        forall|c: int|
            0 <= c < table.entries.len() && c != cluster ==> #[trigger] table.set(
                cluster,
                value,
            ).value(c) == table.value(c),
        table.set(cluster, value).free_count() == table.free_count() - (if table.value(cluster)
            == 0 {
            1int
        } else {
            0
        }) + (if value % ENTRY_LIMIT == 0 {
            1int
        } else {
            0
        }),
{
    lemma_merged(table.entries[cluster], value, 0);
    lemma_free_below_update(
        table.entries,
        cluster,
        merged(table.entries[cluster], value),
        table.end(),
    );
    let after = table.set(cluster, value);
    let sector = cluster / ENTRIES_PER_SECTOR as int;
    assert(0 <= sector < table.dirty.len());
    assert(ENTRIES_PER_SECTOR * sector <= cluster);
}

/// The free clusters between two numbers: all of them, once each, in order.
pub proof fn lemma_free_between(table: Table, from: int, to: int)
    requires
        table.wf(),
        FIRST_CLUSTER <= from <= to <= table.end(),
    ensures
        table.free_between(from, to).len() == free_below(table.entries, to) - free_below(
            table.entries,
            from,
        ),
        forall|i: int|
            0 <= i < table.free_between(from, to).len() ==> from <= #[trigger] table.free_between(
                from,
                to,
            )[i] < to && table.is_free(table.free_between(from, to)[i] as int),
        table.free_between(from, to).no_duplicates(),
        forall|c: int|
            from <= c < to && #[trigger] table.is_free(c) ==> table.free_between(
                from,
                to,
            ).contains(c as u32),
    decreases to - from,
{
    if from < to {
        lemma_free_between(table, from, to - 1);
        let before = table.free_between(from, to - 1);
        let all = table.free_between(from, to);
        if table.is_free(to - 1) {
            assert(all[all.len() - 1] == to - 1);
            assert forall|c: int| from <= c < to && #[trigger] table.is_free(c) implies all.contains(
                c as u32,
            ) by {
                if c < to - 1 {
                    let i = before.index_of(c as u32);
                    assert(all[i] == c as u32);
                }
            }
        }
    }
}

/// The free clusters up to a point are the first of those up to a later one.
pub proof fn lemma_free_between_prefix(table: Table, from: int, mid: int, to: int)
    requires
        from <= mid <= to,
    ensures
        table.free_between(from, mid).len() <= table.free_between(from, to).len(),
        table.free_between(from, mid) == table.free_between(from, to).take(
            table.free_between(from, mid).len() as int,
        ),
    decreases to - mid,
{
    let all = table.free_between(from, to);
    if mid < to {
        lemma_free_between_prefix(table, from, mid, to - 1);
        let n = table.free_between(from, mid).len() as int;
        assert(all.take(n) =~= table.free_between(from, to - 1).take(n));
    } else {
        assert(all.take(all.len() as int) =~= all);
    }
}

/// Every free cluster is in search order once.
pub proof fn lemma_free_in_order(table: Table)
    requires
        table.wf(),
    ensures
        table.free_in_order().len() == table.free_count(),
        table.free_in_order().no_duplicates(),
        forall|i: int|
            0 <= i < table.free_in_order().len() ==> table.is_free(
                #[trigger] table.free_in_order()[i] as int,
            ),
{
    lemma_free_between(table, table.next_free as int, table.end());
    lemma_free_between(table, FIRST_CLUSTER as int, table.next_free as int);
}

/// What a search for a stretch finds.
pub proof fn lemma_first_fit(table: Table, n: int, from: int, to: int)
    ensures
        table.first_fit(n, from, to) matches Some(at) ==> {
            &&& from <= at
            &&& at + n <= to
            &&& n > 0
            &&& table.all_free(at, n)
            &&& forall|c: int| from <= c < at ==> !#[trigger] table.all_free(c, n)
        },
        table.first_fit(n, from, to) is None && n > 0 ==> forall|c: int|
            from <= c && c + n <= to ==> !#[trigger] table.all_free(c, n),
    decreases to - from,
{
    if n > 0 && from + n <= to && !table.all_free(from, n) {
        lemma_first_fit(table, n, from + 1, to);
    }
}

/// An allocation takes as many clusters as were asked for, all different and
/// all free.
pub proof fn lemma_picked(table: Table, n: int)
    requires
        table.wf(),
        0 < n <= table.free_count(),
    ensures
        table.picked(n).len() == n,
        table.picked(n).no_duplicates(),
        forall|i: int| 0 <= i < n ==> table.is_free(#[trigger] table.picked(n)[i] as int),
{
    lemma_free_in_order(table);
    lemma_first_fit(table, n, table.next_free as int, table.end());
    lemma_first_fit(table, n, FIRST_CLUSTER as int, table.wrapped_end(n));
    let picked = table.picked(n);
    if table.contiguous(n) is Some {
        let at = table.contiguous(n)->0;
        assert forall|i: int| 0 <= i < n implies table.is_free(#[trigger] picked[i] as int) by {
            assert(table.is_free(at + i));
        }
    }
}

/// Linking one more cluster to a chain being built.
pub proof fn lemma_linked_push(table: Table, clusters: Seq<u32>, cluster: u32)
    requires
        table.wf(),
        table.valid(cluster as int),
        clusters.push(cluster).no_duplicates(),
        forall|i: int| 0 <= i < clusters.len() ==> table.valid(#[trigger] clusters[i] as int),
    ensures
        clusters.len() == 0 ==> table.linked(clusters.push(cluster)) == table.set(
            cluster as int,
            END_OF_CHAIN_MARK,
        ),
        clusters.len() > 0 ==> table.linked(clusters.push(cluster)) == table.linked(clusters).set(
            cluster as int,
            END_OF_CHAIN_MARK,
        ).set(clusters.last() as int, cluster),
{
    let longer = clusters.push(cluster);
    assert(longer[longer.len() - 1] == cluster);
    assert(longer.contains(cluster));
    assert(!clusters.contains(cluster)) by {
        if clusters.contains(cluster) {
            let i = clusters.index_of(cluster);
            assert(longer[i] == longer[longer.len() - 1]);
        }
    }
    let expected = table.linked(longer);
    let base = table.linked(clusters).set(cluster as int, END_OF_CHAIN_MARK);
    let built = if clusters.len() == 0 {
        table.set(cluster as int, END_OF_CHAIN_MARK)
    } else {
        base.set(clusters.last() as int, cluster)
    };
    assert forall|c: int| 0 <= c < table.entries.len() implies expected.entries[c]
        == built.entries[c] by {
        lemma_merged(table.entries[c], END_OF_CHAIN_MARK, cluster);
        if longer.contains(c as u32) {
            let i = longer.index_of(c as u32);
            assert(longer[i] == c as u32);
            if i < clusters.len() {
                assert(clusters[i] == c as u32);
                assert(clusters.contains(c as u32));
                let k = clusters.index_of(c as u32);
                assert(longer[k] == c as u32);
                assert(k == i);
                assert(longer[clusters.len() - 1] == clusters.last());
                assert(c as u32 != cluster);
                lemma_merged(table.entries[c], clusters[i], cluster);
                if i < clusters.len() - 1 {
                    assert(c as u32 != clusters.last());
                    assert(longer[i + 1] == clusters[i + 1]);
                } else {
                    assert(table.linked(clusters).entries[c] == merged(
                        table.entries[c],
                        END_OF_CHAIN_MARK,
                    ));
                }
            } else {
                assert(c as u32 == cluster);
                if clusters.len() > 0 {
                    assert(longer[clusters.len() - 1] == clusters.last());
                }
            }
        } else {
            if clusters.contains(c as u32) {
                let k = clusters.index_of(c as u32);
                assert(longer[k] == c as u32);
            }
            if clusters.len() > 0 {
                assert(longer[clusters.len() - 1] == clusters.last());
            }
        }
    }
    assert(expected.entries =~= built.entries);
    assert forall|sector: int| 0 <= sector < table.dirty.len() implies expected.dirty[sector]
        == built.dirty[sector] by {
        if expected.dirty[sector] && !table.dirty[sector] {
            let i = choose|i: int|
                0 <= i < longer.len() && #[trigger] longer[i] as int / ENTRIES_PER_SECTOR as int
                    == sector;
            if i < clusters.len() {
                assert(clusters[i] as int / ENTRIES_PER_SECTOR as int == sector);
            }
        }
        if built.dirty[sector] && !table.dirty[sector] {
            if sector == cluster as int / ENTRIES_PER_SECTOR as int {
                assert(longer[longer.len() - 1] as int / ENTRIES_PER_SECTOR as int == sector);
            } else {
                if sector == clusters.last() as int / ENTRIES_PER_SECTOR as int {
                    assert(longer[clusters.len() - 1] as int / ENTRIES_PER_SECTOR as int == sector);
                } else {
                    let i = choose|i: int|
                        0 <= i < clusters.len() && #[trigger] clusters[i] as int
                            / ENTRIES_PER_SECTOR as int == sector;
                    assert(longer[i] as int / ENTRIES_PER_SECTOR as int == sector);
                }
            }
        }
    }
    assert(expected.dirty =~= built.dirty);
}

/// Clearing one more cluster.
pub proof fn lemma_cleared_push(table: Table, clusters: Seq<u32>, cluster: u32)
    requires
        table.wf(),
        table.valid(cluster as int),
        clusters.push(cluster).no_duplicates(),
    ensures
        table.cleared(clusters.push(cluster)) == table.cleared(clusters).set(cluster as int, 0),
{
    let longer = clusters.push(cluster);
    let expected = table.cleared(longer);
    let built = table.cleared(clusters).set(cluster as int, 0);
    assert(longer[longer.len() - 1] == cluster);
    assert forall|c: int| 0 <= c < table.entries.len() implies expected.entries[c]
        == built.entries[c] by {
        lemma_merged(table.entries[c], 0, 0);
        if longer.contains(c as u32) {
            let i = longer.index_of(c as u32);
            if i < clusters.len() {
                assert(clusters[i] == c as u32);
            }
        } else {
            if clusters.contains(c as u32) {
                let k = clusters.index_of(c as u32);
                assert(longer[k] == c as u32);
            }
        }
    }
    assert(expected.entries =~= built.entries);
    assert forall|sector: int| 0 <= sector < table.dirty.len() implies expected.dirty[sector]
        == built.dirty[sector] by {
        if expected.dirty[sector] && !table.dirty[sector] {
            let i = choose|i: int|
                0 <= i < longer.len() && #[trigger] longer[i] as int / ENTRIES_PER_SECTOR as int
                    == sector;
            if i < clusters.len() {
                assert(clusters[i] as int / ENTRIES_PER_SECTOR as int == sector);
            }
        }
        if built.dirty[sector] && !table.dirty[sector] {
            if sector == cluster as int / ENTRIES_PER_SECTOR as int {
                assert(longer[longer.len() - 1] as int / ENTRIES_PER_SECTOR as int == sector);
            } else {
                let i = choose|i: int|
                    0 <= i < clusters.len() && #[trigger] clusters[i] as int
                        / ENTRIES_PER_SECTOR as int == sector;
                assert(longer[i] as int / ENTRIES_PER_SECTOR as int == sector);
            }
        }
    }
    assert(expected.dirty =~= built.dirty);
}

} // verus!
