//! What the numbers of the allocation table mean: which clusters there are,
//! which are free, and which follow on which.
use vstd::prelude::*;

use crate::chains;
use crate::error::FatError;
use crate::table;
use crate::table::{Run, Table};

verus! {

/// The lower 28 bits of a cluster's entry.
pub open spec fn number(table: Table, cluster: int) -> u32 {
    table.entries[cluster] & 0x0FFF_FFFF
}

/// Clusters are numbered from 2; and of an entry the lower 28 bits count, of
/// which none set means free. The upper four are kept when the others change.
pub proof fn lemma_entries(table: Table, cluster: int, value: u32)
    ensures
        table.valid(cluster) <==> 0 <= cluster - 2 < table.cluster_count,
        table.value(cluster) == number(table, cluster),
        table.is_free(cluster) <==> 0 <= cluster - 2 < table.cluster_count && number(
            table,
            cluster,
        ) == 0,
        0 <= cluster < table.entries.len() && value < 0x1000_0000 ==> {
            let after = table.set(cluster, value);
            &&& number(after, cluster) == value
            &&& after.entries[cluster] & 0xF000_0000 == table.entries[cluster] & 0xF000_0000
            &&& forall|c: int|
                0 <= c < table.entries.len() && c != cluster ==> #[trigger] after.entries[c]
                    == table.entries[c]
        },
{
    let entry = table.entries[cluster];
    assert(entry & 0x0FFF_FFFF == entry % 0x1000_0000) by (bit_vector);
    if value < 0x1000_0000 {
        let changed = table::merged(entry, value);
        assert(changed == entry - entry % 0x1000_0000 + value);
        assert(changed & 0x0FFF_FFFF == value && changed & 0xF000_0000 == entry & 0xF000_0000)
            by (bit_vector)
            requires
                value < 0x1000_0000u32,
                changed == entry - entry % 0x1000_0000u32 + value,
        ;
    }
}

/// Whether each cluster of a sequence is one of the volume's, and its entry
/// names the next.
pub open spec fn follow(table: Table, clusters: Seq<u32>) -> bool {
    &&& clusters.len() > 0
    &&& forall|i: int|
        0 <= i < clusters.len() ==> 0 <= #[trigger] clusters[i] - 2 < table.cluster_count
    &&& forall|i: int|
        0 <= i < clusters.len() - 1 ==> number(table, #[trigger] clusters[i] as int) == clusters[i
            + 1]
}

/// A sequence of clusters is the chain of a file exactly if each one's entry
/// names the next and that of the last is one of the eight that end a chain.
pub proof fn lemma_chain(table: Table, clusters: Seq<u32>)
    requires
        table.wf(),
        clusters.len() > 0,
    ensures
        table.chain(clusters[0]) == Ok::<Seq<u32>, FatError>(clusters) <==> follow(table, clusters)
            && number(table, clusters.last() as int) >= 0x0FFF_FFF8,
{
    table::lemma_chain_is_links(table, clusters);
    lemma_entries(table, clusters.last() as int, 0);
    if table.links(clusters) {
        assert forall|i: int| 0 <= i < clusters.len() implies 0 <= #[trigger] clusters[i] - 2
            < table.cluster_count by {
            assert(table.valid(clusters[i] as int));
        }
        assert forall|i: int| 0 <= i < clusters.len() - 1 implies number(
            table,
            #[trigger] clusters[i] as int,
        ) == clusters[i + 1] by {
            lemma_entries(table, clusters[i] as int, 0);
            assert(table.value(clusters[i] as int) == clusters[i + 1]);
        }
    }
    if follow(table, clusters) {
        assert forall|i: int| 0 <= i < clusters.len() implies table.valid(
            #[trigger] clusters[i] as int,
        ) by {
            assert(0 <= clusters[i] - 2 < table.cluster_count);
        }
        assert forall|i: int| 0 <= i < clusters.len() - 1 implies table.value(
            #[trigger] clusters[i] as int,
        ) == clusters[i + 1] by {
            lemma_entries(table, clusters[i] as int, 0);
        }
    }
}

/// A chain that ends badly is reported by what it ends in: a free cluster, or
/// a number that no cluster has. One that starts at such a number is reported
/// by that.
pub proof fn lemma_broken_chain(table: Table, clusters: Seq<u32>)
    requires
        table.wf(),
        follow(table, clusters),
        clusters.len() <= table.cluster_count,
    ensures
        ({
            let entry = number(table, clusters.last() as int);
            let start = clusters[0];
            &&& entry == 0 ==> table.chain(start) == Err::<Seq<u32>, FatError>(
                FatError::FreeClusterInChain { start, cluster: clusters.last() },
            )
            &&& 0 < entry < 0x0FFF_FFF8 && !(0 <= entry - 2 < table.cluster_count) ==> table.chain(
                start,
            ) == Err::<Seq<u32>, FatError>(FatError::BadCluster { cluster: entry })
        }),
        forall|start: u32|
            !(0 <= start - 2 < table.cluster_count) ==> #[trigger] table.chain(start) == Err::<
                Seq<u32>,
                FatError,
            >(FatError::BadCluster { cluster: start }),
{
    lemma_broken_walk(table, clusters, clusters[0], 0);
    assert(clusters.skip(0) =~= clusters);
}

/// Walking on to where a chain breaks.
proof fn lemma_broken_walk(table: Table, clusters: Seq<u32>, start: u32, index: int)
    requires
        table.wf(),
        follow(table, clusters),
        0 <= index < clusters.len() <= table.cluster_count,
    ensures
        ({
            let entry = number(table, clusters.last() as int);
            let walked = table.walk(start, clusters[index], index);
            &&& entry == 0 ==> walked == Err::<Seq<u32>, FatError>(
                FatError::FreeClusterInChain { start, cluster: clusters.last() },
            )
            &&& 0 < entry < 0x0FFF_FFF8 && !(0 <= entry - 2 < table.cluster_count) ==> walked
                == Err::<Seq<u32>, FatError>(FatError::BadCluster { cluster: entry })
        }),
    decreases clusters.len() - index,
{
    let cluster = clusters[index];
    assert(0 <= clusters[index] - 2 < table.cluster_count);
    lemma_entries(table, cluster as int, 0);
    if index + 1 < clusters.len() {
        lemma_broken_walk(table, clusters, start, index + 1);
        assert(0 <= clusters[index + 1] - 2 < table.cluster_count);
        assert(number(table, clusters[index] as int) == clusters[index + 1]);
    } else {
        assert(clusters.last() == cluster);
    }
}

/// What follows a cluster is what its entry says.
pub proof fn lemma_next(table: Table, cluster: u32)
    requires
        table.wf(),
    ensures
        table.next(cluster) == (if !(0 <= cluster - 2 < table.cluster_count) {
            Err(FatError::BadCluster { cluster })
        } else if number(table, cluster as int) >= 0x0FFF_FFF8 {
            Ok(None)
        } else if 0 <= number(table, cluster as int) - 2 < table.cluster_count {
            Ok(Some(number(table, cluster as int)))
        } else {
            Err(FatError::BadCluster { cluster: number(table, cluster as int) })
        }),
{
    lemma_entries(table, cluster as int, 0);
}

/// The clusters below `end` that are free.
pub open spec fn free_set(entries: Seq<u32>, end: int) -> Set<int> {
    vstd::set_lib::set_int_range(2, end).filter(|c: int| entries[c] & 0x0FFF_FFFF == 0)
}

/// The number of free clusters is how many there are whose entry says so.
pub proof fn lemma_free_count(table: Table)
    ensures
        table.free_count() == free_set(table.entries, 2 + table.cluster_count).len(),
{
    lemma_free_below(table.entries, 2 + table.cluster_count);
}

/// Counting up to a number.
proof fn lemma_free_below(entries: Seq<u32>, n: int)
    requires
        2 <= n,
    ensures
        table::free_below(entries, n) == free_set(entries, n).len(),
        free_set(entries, n).finite(),
    decreases n,
{
    let free = |c: int| entries[c] & 0x0FFF_FFFF == 0;
    vstd::set_lib::lemma_int_range(2, n);
    if n == 2 {
        assert(free_set(entries, n) =~= Set::<int>::empty());
    } else {
        lemma_free_below(entries, n - 1);
        let entry = entries[n - 1];
        assert(entry & 0x0FFF_FFFF == entry % 0x1000_0000) by (bit_vector);
        let before = free_set(entries, n - 1);
        if entry & 0x0FFF_FFFF == 0 {
            assert(free_set(entries, n) =~= before.insert(n - 1));
            assert(!before.contains(n - 1));
        } else {
            assert(free_set(entries, n) =~= before);
        }
    }
}

/// Clusters can be had exactly as long as that many are free; what is had was
/// free, no cluster twice, and is one chain. Otherwise the answer says how many
/// were wanted, and how many are free.
pub proof fn lemma_allocation(table: Table, n: u32)
    requires
        table.wf(),
    ensures
        ({
            let free = free_set(table.entries, 2 + table.cluster_count).len();
            let (after, result) = table.allocated(n);
            &&& n <= free ==> result is Ok
            &&& n > free ==> result == Err::<Seq<u32>, FatError>(
                FatError::DiskFull { wanted: n, free: free as u32 },
            ) && after == table
            &&& result matches Ok(clusters) ==> {
                &&& clusters.len() == n
                &&& clusters.no_duplicates()
                &&& forall|i: int|
                    0 <= i < n ==> 0 <= #[trigger] clusters[i] - 2 < table.cluster_count && number(
                        table,
                        clusters[i] as int,
                    ) == 0
                &&& n > 0 ==> follow(after, clusters) && number(after, clusters.last() as int)
                    >= 0x0FFF_FFF8
            }
        }),
{
    lemma_free_count(table);
    let (after, result) = table.allocated(n);
    if n > 0 && result is Ok {
        let clusters = result->Ok_0;
        chains::lemma_allocated(table, n);
        lemma_chain(after, clusters);
        assert forall|i: int| 0 <= i < n implies 0 <= #[trigger] clusters[i] - 2
            < table.cluster_count && number(table, clusters[i] as int) == 0 by {
            assert(table.is_free(clusters[i] as int));
            lemma_entries(table, clusters[i] as int, 0);
        }
    }
}

/// A chain is cut up into as few stretches as it can be: none begins where the
/// one before it ends.
pub proof fn lemma_fewest_runs(clusters: Seq<u32>, r: int)
    requires
        clusters.len() <= u32::MAX,
        0 <= r < table::coalesce(clusters).len() - 1,
    ensures
        ({
            let runs = table::coalesce(clusters);
            runs[r].start_cluster + runs[r].clusters != runs[r + 1].start_cluster
        }),
    decreases clusters.len(),
{
    let runs = table::coalesce(clusters);
    let before = table::coalesce(clusters.drop_last());
    if r + 1 < before.len() {
        lemma_fewest_runs(clusters.drop_last(), r);
    }
    table::lemma_coalesce_tiles(clusters);
    table::lemma_coalesce_tiles(clusters.drop_last());
    if before.len() > 0 {
        let run = before[before.len() - 1];
        assert(run.clusters > 0);
        assert(run.file_cluster + run.clusters == clusters.len() - 1);
    }
}

/// The bytes of a stretch are those of its clusters.
pub proof fn lemma_run_clusters(clusters: Seq<u32>, r: int, j: int)
    requires
        clusters.len() <= u32::MAX,
        0 <= r < table::coalesce(clusters).len(),
        0 <= j < table::coalesce(clusters)[r].clusters,
    ensures
        ({
            let run: Run = table::coalesce(clusters)[r];
            clusters[run.file_cluster + j] == run.start_cluster + j
        }),
{
    table::lemma_coalesce_tiles(clusters);
    let run = table::coalesce(clusters)[r];
    assert(clusters[run.file_cluster + j] == table::run_cluster(run, j));
}

/// After an allocation the search goes on past the last cluster it took, or at
/// the first cluster where that was the last there is.
pub proof fn lemma_search_goes_on(table: Table, n: u32)
    requires
        table.wf(),
        n > 0,
        table.allocated(n).1 is Ok,
    ensures
        ({
            let last = table.allocated(n).1->Ok_0.last();
            table.allocated(n).0.next_free == (if last + 1 < 2 + table.cluster_count {
                last + 1
            } else {
                2
            })
        }),
{
}

/// After clusters are given back the search starts no later than at any of
/// them, and no earlier than it must for that.
pub proof fn lemma_search_goes_back(table: Table, clusters: Seq<u32>)
    ensures
        ({
            let next = table.released(clusters).next_free;
            &&& next <= table.next_free
            &&& forall|i: int| 0 <= i < clusters.len() ==> next <= #[trigger] clusters[i]
            &&& next == table.next_free || clusters.contains(next)
        }),
    decreases clusters.len(),
{
    if clusters.len() > 0 {
        let fewer = clusters.drop_last();
        lemma_search_goes_back(table, fewer);
        let next = table.released(clusters).next_free;
        assert forall|i: int| 0 <= i < clusters.len() implies next <= #[trigger] clusters[i] by {
            if i < fewer.len() {
                assert(fewer[i] == clusters[i]);
            }
        }
        if next != table.next_free {
            if next == clusters.last() {
                assert(clusters[clusters.len() - 1] == next);
            } else {
                let j = choose|j: int| 0 <= j < fewer.len() && fewer[j] == next;
                assert(clusters[j] == next);
            }
        }
    }
}

/// Freeing a chain gives back each of its clusters, and no other.
pub proof fn lemma_given_back(table: Table, start: u32, c: int)
    requires
        table.chain(start) is Ok,
        0 <= c < table.entries.len(),
        c <= u32::MAX,
    ensures
        ({
            let after = table.freed(start).0;
            let chain = table.chain(start)->Ok_0;
            &&& table.freed(start).1 is Ok
            &&& chain.contains(c as u32) ==> number(after, c) == 0
            &&& !chain.contains(c as u32) ==> after.entries[c] == table.entries[c]
            &&& after.next_free <= table.next_free
        }),
{
    let chain = table.chain(start)->Ok_0;
    lemma_search_goes_back(table, chain);
    lemma_entries(table, c, 0);
}

} // verus!
