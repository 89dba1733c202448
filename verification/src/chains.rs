//! What allocating and giving back does to chains: to the one it is about,
//! and to all the others.
use vstd::prelude::*;

use crate::boot::FIRST_CLUSTER;
use crate::error::FatError;
use crate::table;
use crate::table::{Table, END_OF_CHAIN_MARK, ENTRIES_PER_SECTOR};

verus! {

/// Whether two sequences of clusters have none in common.
pub open spec fn apart(a: Seq<u32>, b: Seq<u32>) -> bool {
    forall|i: int, j: int|
        0 <= i < a.len() && 0 <= j < b.len() ==> #[trigger] a[i] != #[trigger] b[j]
}

/// What linking clusters into a chain does to each entry.
pub proof fn lemma_linked(table: Table, clusters: Seq<u32>)
    requires
        table.wf(),
        clusters.no_duplicates(),
        clusters.len() > 0,
        forall|i: int| 0 <= i < clusters.len() ==> table.valid(#[trigger] clusters[i] as int),
    ensures
        table.linked(clusters).wf(),
        table.linked(clusters).links(clusters),
        forall|c: u32|
            table.valid(c as int) && !clusters.contains(c) ==> #[trigger] table.linked(
                clusters,
            ).value(c as int) == table.value(c as int),
        forall|i: int|
            0 <= i < clusters.len() ==> #[trigger] table.linked(clusters).value(
                clusters[i] as int,
            ) != 0,
{
    let after = table.linked(clusters);
    assert forall|i: int| 0 <= i < clusters.len() implies after.value(#[trigger] clusters[i] as int)
        == (if i + 1 < clusters.len() {
        clusters[i + 1]
    } else {
        END_OF_CHAIN_MARK
    }) by {
        let c = clusters[i];
        assert(table.valid(c as int));
        assert(clusters.contains(c));
        assert(clusters.index_of(c) == i);
        let value = if i + 1 < clusters.len() {
            clusters[i + 1]
        } else {
            END_OF_CHAIN_MARK
        };
        if i + 1 < clusters.len() {
            assert(table.valid(clusters[i + 1] as int));
        }
        table::lemma_merged(table.entries[c as int], value, 0);
    }
    assert forall|i: int| 0 <= i < clusters.len() implies #[trigger] after.value(clusters[i] as int)
        != 0 by {
        if i + 1 < clusters.len() {
            assert(table.valid(clusters[i + 1] as int));
        }
    }
    assert(after.value(clusters[clusters.len() - 1] as int) == END_OF_CHAIN_MARK);
    assert forall|i: int| 0 <= i < clusters.len() implies after.valid(#[trigger] clusters[i] as int)
        by {
        assert(table.valid(clusters[i] as int));
    }
    lemma_touched(table, clusters);
}

/// Changing entries of clusters leaves only sectors that hold entries to be
/// written.
proof fn lemma_touched(table: Table, clusters: Seq<u32>)
    requires
        table.wf(),
        forall|i: int| 0 <= i < clusters.len() ==> table.valid(#[trigger] clusters[i] as int),
    ensures
        table.touched(clusters).len() == table.dirty.len(),
        forall|sector: int|
            0 <= sector < table.dirty.len() && #[trigger] table.touched(clusters)[sector]
                ==> ENTRIES_PER_SECTOR * sector < table.end(),
{
    assert forall|sector: int|
        0 <= sector < table.dirty.len() && #[trigger] table.touched(
            clusters,
        )[sector] implies ENTRIES_PER_SECTOR * sector < table.end() by {
        if !table.dirty[sector] {
            let i = choose|i: int|
                0 <= i < clusters.len() && #[trigger] clusters[i] as int / ENTRIES_PER_SECTOR as int
                    == sector;
            assert(table.valid(clusters[i] as int));
        }
    }
}

/// What an allocation does: its clusters were free, and become one chain in
/// the order they were picked in; no other entry changes.
pub proof fn lemma_allocated(table: Table, n: u32)
    requires
        table.wf(),
        n > 0,
        table.allocated(n).1 is Ok,
    ensures
        ({
            let (after, result) = table.allocated(n);
            let clusters = result->Ok_0;
            &&& after.wf()
            &&& after.same_place(table)
            &&& clusters.len() == n
            &&& clusters.no_duplicates()
            &&& forall|i: int| 0 <= i < n ==> table.is_free(#[trigger] clusters[i] as int)
            &&& after.links(clusters)
            &&& after.chain(clusters[0]) == Ok::<Seq<u32>, FatError>(clusters)
            &&& forall|c: u32|
                table.valid(c as int) && !clusters.contains(c) ==> #[trigger] after.value(c as int)
                    == table.value(c as int)
        }),
{
    let (after, result) = table.allocated(n);
    let clusters = result->Ok_0;
    table::lemma_picked(table, n as int);
    assert forall|i: int| 0 <= i < clusters.len() implies table.valid(#[trigger] clusters[i] as int)
        by {
        assert(table.is_free(clusters[i] as int));
    }
    lemma_linked(table, clusters);
    let linked = table.linked(clusters);
    assert(after == Table { next_free: after.next_free, ..linked });
    assert(table.valid(clusters[clusters.len() - 1] as int));
    assert(after.wf());
    assert forall|i: int| 0 <= i < clusters.len() implies after.valid(#[trigger] clusters[i] as int)
        by {
        assert(table.valid(clusters[i] as int));
    }
    assert forall|i: int| 0 <= i < clusters.len() - 1 implies after.value(
        #[trigger] clusters[i] as int,
    ) == clusters[i + 1] by {
        assert(linked.value(clusters[i] as int) == clusters[i + 1]);
    }
    assert(after.value(clusters.last() as int) == linked.value(clusters.last() as int));
    assert(after.links(clusters));
    table::lemma_chain_is_links(after, clusters);
    assert forall|c: u32| table.valid(c as int) && !clusters.contains(c) implies #[trigger] after.value(
        c as int,
    ) == table.value(c as int) by {
        assert(linked.value(c as int) == table.value(c as int));
    }
}

/// A chain has no free cluster, so it shares none with what is allocated
/// next.
pub proof fn lemma_chain_not_free(table: Table, start: u32, free: Seq<u32>)
    requires
        table.wf(),
        table.chain(start) is Ok,
        forall|i: int| 0 <= i < free.len() ==> table.is_free(#[trigger] free[i] as int),
    ensures
        apart(table.chain(start)->Ok_0, free),
{
    let clusters = table.chain(start)->Ok_0;
    table::lemma_chain(table, start);
    assert forall|i: int, j: int| 0 <= i < clusters.len() && 0 <= j < free.len() implies #[trigger] clusters[i]
        != #[trigger] free[j] by {
        assert(table.is_free(free[j] as int));
        assert(table.valid(clusters[i] as int));
        if i + 1 < clusters.len() {
            assert(table.value(clusters[i] as int) == clusters[i + 1]);
            assert(table.valid(clusters[i + 1] as int));
        }
    }
}

/// A chain apart from the clusters whose entries change stays as it is.
pub proof fn lemma_chain_apart(before: Table, after: Table, start: u32, changed: Seq<u32>)
    requires
        before.wf(),
        after.wf(),
        before.cluster_count == after.cluster_count,
        before.chain(start) is Ok,
        apart(before.chain(start)->Ok_0, changed),
        forall|c: u32|
            before.valid(c as int) && !changed.contains(c) ==> #[trigger] after.value(c as int)
                == before.value(c as int),
    ensures
        after.chain(start) == before.chain(start),
{
    let clusters = before.chain(start)->Ok_0;
    table::lemma_chain(before, start);
    assert forall|i: int| 0 <= i < clusters.len() implies after.value(
        #[trigger] before.chain(start)->Ok_0[i] as int,
    ) == before.value(before.chain(start)->Ok_0[i] as int) by {
        assert(before.valid(clusters[i] as int));
        assert(!changed.contains(clusters[i])) by {
            if changed.contains(clusters[i]) {
                let j = changed.index_of(clusters[i]);
                assert(clusters[i] != changed[j]);
            }
        }
    }
    table::lemma_chain_kept(before, after, start);
}

/// Allocating changes no chain that was there.
pub proof fn lemma_allocated_keeps(table: Table, n: u32, start: u32)
    requires
        table.wf(),
        n > 0,
        table.allocated(n).1 is Ok,
        table.chain(start) is Ok,
    ensures
        table.allocated(n).0.chain(start) == table.chain(start),
        apart(table.chain(start)->Ok_0, table.allocated(n).1->Ok_0),
{
    lemma_allocated(table, n);
    lemma_chain_not_free(table, start, table.allocated(n).1->Ok_0);
    lemma_chain_apart(table, table.allocated(n).0, start, table.allocated(n).1->Ok_0);
}

/// Lengthening a chain puts what is allocated at its end, and changes no
/// chain that it is apart from.
pub proof fn lemma_appended(table: Table, start: u32, n: u32)
    requires
        table.wf(),
        n > 0,
        table.chain(start) is Ok,
        table.appended(table.chain(start)->Ok_0.last(), n).1 is Ok,
    ensures
        ({
            let clusters = table.chain(start)->Ok_0;
            let (after, result) = table.appended(clusters.last(), n);
            let added = result->Ok_0;
            &&& after.wf()
            &&& after.same_place(table)
            &&& added.len() == n
            &&& forall|i: int| 0 <= i < n ==> table.is_free(#[trigger] added[i] as int)
            &&& apart(clusters, added)
            &&& after.chain(start) == Ok::<Seq<u32>, FatError>(clusters + added)
            &&& forall|c: u32|
                table.valid(c as int) && !(added.push(clusters.last())).contains(c)
                    ==> #[trigger] after.value(c as int) == table.value(c as int)
        }),
{
    let clusters = table.chain(start)->Ok_0;
    let last = clusters.last();
    table::lemma_chain(table, start);
    lemma_allocated(table, n);
    lemma_allocated_keeps(table, n, start);
    let (grown, result) = table.allocated(n);
    let added = result->Ok_0;
    let after = table.appended(last, n).0;
    assert(table.valid(clusters[clusters.len() - 1] as int));
    assert(after == grown.set(last as int, added[0]));
    table::lemma_set(grown, last as int, added[0]);
    assert(table.is_free(added[0] as int));
    lemma_joined(grown, clusters, added);
    assert((clusters + added)[0] == start);
    table::lemma_chain_is_links(after, clusters + added);
    let changed = added.push(last);
    assert forall|c: u32| table.valid(c as int) && !changed.contains(c) implies #[trigger] after.value(
        c as int,
    ) == table.value(c as int) by {
        assert(c != last) by {
            assert(changed[changed.len() - 1] == last);
        }
        assert(!added.contains(c)) by {
            if added.contains(c) {
                assert(changed[added.index_of(c)] == c);
            }
        }
        assert(grown.value(c as int) == table.value(c as int));
    }
}

/// Two chains joined by the last entry of the first are one chain.
proof fn lemma_joined(table: Table, first: Seq<u32>, second: Seq<u32>)
    requires
        table.wf(),
        table.links(first),
        table.links(second),
        first.no_duplicates(),
        apart(first, second),
    ensures
        table.set(first.last() as int, second[0]).links(first + second),
{
    let all = first + second;
    let after = table.set(first.last() as int, second[0]);
    assert(table.valid(first[first.len() - 1] as int));
    assert(table.valid(second[0] as int));
    table::lemma_set(table, first.last() as int, second[0]);
    assert forall|i: int| 0 <= i < all.len() implies after.valid(#[trigger] all[i] as int) by {
        if i < first.len() {
            assert(table.valid(first[i] as int));
        } else {
            assert(table.valid(second[i - first.len()] as int));
        }
    }
    assert forall|i: int| 0 <= i < all.len() - 1 implies after.value(#[trigger] all[i] as int)
        == all[i + 1] by {
        if i < first.len() {
            assert(table.valid(first[i] as int));
            if i + 1 < first.len() {
                assert(first[i] != first[first.len() - 1]);
                assert(table.value(first[i] as int) == first[i + 1]);
            }
        } else {
            let j = i - first.len();
            assert(table.valid(second[j] as int));
            assert(first[first.len() - 1] != second[j]);
            assert(table.value(second[j] as int) == second[j + 1]);
        }
    }
    assert(all.last() == second[second.len() - 1]);
    assert(table.valid(second[second.len() - 1] as int));
    assert(first[first.len() - 1] != second[second.len() - 1]);
}

/// Giving clusters back frees each of them, and changes no other entry.
pub proof fn lemma_released(table: Table, clusters: Seq<u32>)
    requires
        table.wf(),
        forall|i: int| 0 <= i < clusters.len() ==> table.valid(#[trigger] clusters[i] as int),
    ensures
        table.released(clusters).wf(),
        table.released(clusters).same_place(table),
        forall|i: int|
            0 <= i < clusters.len() ==> table.released(clusters).is_free(
                #[trigger] clusters[i] as int,
            ),
        forall|c: u32|
            table.valid(c as int) && !clusters.contains(c) ==> #[trigger] table.released(
                clusters,
            ).value(c as int) == table.value(c as int),
{
    let after = table.released(clusters);
    lemma_touched(table, clusters);
    lemma_lowered(table, clusters);
    assert forall|i: int| 0 <= i < clusters.len() implies after.is_free(#[trigger] clusters[i] as int)
        by {
        assert(table.valid(clusters[i] as int));
        assert(clusters.contains(clusters[i]));
        table::lemma_merged(table.entries[clusters[i] as int], 0, 0);
    }
}

/// The search position stays a cluster number.
proof fn lemma_lowered(table: Table, clusters: Seq<u32>)
    requires
        table.wf(),
        forall|i: int| 0 <= i < clusters.len() ==> table.valid(#[trigger] clusters[i] as int),
    ensures
        FIRST_CLUSTER <= table.lowered(clusters) <= table.end(),
    decreases clusters.len(),
{
    if clusters.len() > 0 {
        let before = clusters.drop_last();
        assert forall|i: int| 0 <= i < before.len() implies table.valid(#[trigger] before[i] as int)
            by {
            assert(table.valid(clusters[i] as int));
        }
        lemma_lowered(table, before);
        assert(table.valid(clusters[clusters.len() - 1] as int));
    }
}

/// What is allocated and given back again leaves every entry with the value
/// it had.
pub proof fn lemma_allocate_then_free(table: Table, n: u32)
    requires
        table.wf(),
        n > 0,
        table.allocated(n).1 is Ok,
    ensures
        ({
            let (held, result) = table.allocated(n);
            let clusters = result->Ok_0;
            &&& held.freed(clusters[0]).1 == Ok::<Seq<u32>, FatError>(clusters)
            &&& held.freed(clusters[0]).0.entries == table.entries
            &&& held.freed(clusters[0]).0.free_count() == table.free_count()
        }),
{
    let (held, result) = table.allocated(n);
    let clusters = result->Ok_0;
    lemma_allocated(table, n);
    table::lemma_chain(held, clusters[0]);
    let after = held.freed(clusters[0]).0;
    assert forall|c: int| 0 <= c < table.entries.len() implies after.entries[c] == table.entries[c] by {
        if clusters.contains(c as u32) {
            let i = clusters.index_of(c as u32);
            assert(table.is_free(clusters[i] as int));
            let value = if i + 1 < clusters.len() {
                clusters[i + 1]
            } else {
                END_OF_CHAIN_MARK
            };
            table::lemma_merged(table.entries[c], value, 0);
        }
    }
    assert(after.entries =~= table.entries);
}

/// Freeing a chain frees its clusters, and changes no chain that it is apart
/// from.
pub proof fn lemma_freed(table: Table, start: u32, other: u32)
    requires
        table.wf(),
        table.chain(start) is Ok,
        table.chain(other) is Ok,
        apart(table.chain(other)->Ok_0, table.chain(start)->Ok_0),
    ensures
        forall|i: int|
            0 <= i < table.chain(start)->Ok_0.len() ==> table.freed(start).0.is_free(
                #[trigger] table.chain(start)->Ok_0[i] as int,
            ),
        table.freed(start).0.chain(other) == table.chain(other),
{
    let clusters = table.chain(start)->Ok_0;
    table::lemma_chain(table, start);
    lemma_released(table, clusters);
    lemma_chain_apart(table, table.freed(start).0, other, clusters);
}

/// Shortening a chain keeps its first clusters, frees the rest, and changes
/// no chain that it is apart from.
pub proof fn lemma_shortened(table: Table, start: u32, keep: u32, other: u32)
    requires
        table.wf(),
        table.chain(start) is Ok,
        0 < keep < table.chain(start)->Ok_0.len(),
        table.chain(other) is Ok,
        apart(table.chain(other)->Ok_0, table.chain(start)->Ok_0),
    ensures
        ({
            let clusters = table.chain(start)->Ok_0;
            let after = table.shortened(start, keep).0;
            &&& after.wf()
            &&& after.same_place(table)
            &&& after.chain(start) == Ok::<Seq<u32>, FatError>(clusters.take(keep as int))
            &&& forall|i: int|
                keep <= i < clusters.len() ==> after.is_free(#[trigger] clusters[i] as int)
            &&& after.chain(other) == table.chain(other)
        }),
{
    let clusters = table.chain(start)->Ok_0;
    table::lemma_chain(table, start);
    let cut = table.set(clusters[keep - 1] as int, END_OF_CHAIN_MARK);
    assert(table.valid(clusters[keep - 1] as int));
    table::lemma_set(table, clusters[keep - 1] as int, END_OF_CHAIN_MARK);
    crate::fat::lemma_cut(table, clusters, keep as int);
    let rest = clusters.skip(keep as int);
    let kept = clusters.take(keep as int);
    assert forall|i: int| 0 <= i < rest.len() implies cut.valid(#[trigger] rest[i] as int) by {
        assert(table.valid(clusters[keep + i] as int));
    }
    lemma_released(cut, rest);
    let after = table.shortened(start, keep).0;
    assert(after == cut.released(rest));
    assert forall|i: int| keep <= i < clusters.len() implies after.is_free(
        #[trigger] clusters[i] as int,
    ) by {
        assert(rest[i - keep] == clusters[i]);
    }
    assert(kept[0] == start);
    assert(apart(kept, rest));
    lemma_chain_apart(cut, after, start, rest);
    let single = seq![clusters[keep - 1]];
    assert forall|i: int, j: int|
        0 <= i < table.chain(other)->Ok_0.len() && 0 <= j < single.len() implies #[trigger] table.chain(
        other,
    )->Ok_0[i] != #[trigger] single[j] by {
        assert(table.chain(other)->Ok_0[i] != clusters[keep - 1]);
    }
    assert forall|c: u32| table.valid(c as int) && !single.contains(c) implies #[trigger] cut.value(
        c as int,
    ) == table.value(c as int) by {
        if c == clusters[keep - 1] {
            assert(single[0] == c);
        }
    }
    lemma_chain_apart(table, cut, other, single);
    assert forall|i: int, j: int|
        0 <= i < table.chain(other)->Ok_0.len() && 0 <= j < rest.len() implies #[trigger] table.chain(
        other,
    )->Ok_0[i] != #[trigger] rest[j] by {
        assert(table.chain(other)->Ok_0[i] != clusters[keep + j]);
    }
    lemma_chain_apart(cut, after, other, rest);
}

/// Where there are `n` free clusters in a row, an allocation of `n` takes
/// clusters in a row: the chain is one run.
pub proof fn lemma_allocated_in_one_piece(table: Table, n: u32, at: int)
    requires
        table.wf(),
        n > 0,
        table.all_free(at, n as int),
    ensures
        table.contiguous(n as int) is Some,
        table.allocated(n).1 is Ok ==> {
            let clusters = table.allocated(n).1->Ok_0;
            &&& clusters == Seq::new(n as nat, |i: int| (clusters[0] + i) as u32)
            &&& table::coalesce(clusters) == seq![
                table::Run { file_cluster: 0, start_cluster: clusters[0], clusters: n },
            ]
        },
{
    let end = table.end();
    assert(table.is_free(at));
    assert(table.is_free(at + n - 1));
    table::lemma_first_fit(table, n as int, table.next_free as int, end);
    table::lemma_first_fit(table, n as int, FIRST_CLUSTER as int, table.wrapped_end(n as int));
    if table.allocated(n).1 is Ok {
        let clusters = table.allocated(n).1->Ok_0;
        let start = table.contiguous(n as int)->0;
        assert(table.is_free(start));
        assert(table.is_free(start + n - 1));
        assert(clusters[0] == start);
        assert(clusters =~= Seq::new(n as nat, |i: int| (clusters[0] + i) as u32));
        crate::fat::lemma_one_run(clusters[0], n as int);
    }
}

/// Walking on among clusters that each lead to one of them never ends.
proof fn lemma_never_ends(table: Table, ring: Seq<u32>, start: u32, cluster: u32, index: int)
    requires
        table.wf(),
        ring.contains(cluster),
        forall|i: int|
            0 <= i < ring.len() ==> table.valid(#[trigger] ring[i] as int) && ring.contains(
                table.value(ring[i] as int),
            ),
    ensures
        table.walk(start, cluster, index) == Err::<Seq<u32>, FatError>(
            FatError::ChainLoop { start },
        ),
    decreases table.cluster_count + 1 - index,
{
    let at = choose|i: int| 0 <= i < ring.len() && ring[i] == cluster;
    assert(table.valid(ring[at] as int));
    let next = table.value(cluster as int);
    let after = choose|i: int| 0 <= i < ring.len() && ring[i] == next;
    assert(ring.contains(next));
    assert(table.valid(ring[after] as int));
    if index <= table.cluster_count {
        lemma_never_ends(table, ring, start, next, index + 1);
    }
}

/// A chain that comes back to a cluster it has been at is found to be a loop.
pub proof fn lemma_loop_found(table: Table, way: Seq<u32>, back: int)
    requires
        table.wf(),
        0 <= back < way.len() - 1,
        way.last() == way[back],
        forall|i: int| 0 <= i < way.len() ==> table.valid(#[trigger] way[i] as int),
        forall|i: int|
            0 <= i < way.len() - 1 ==> table.value(#[trigger] way[i] as int) == way[i + 1],
    ensures
        table.chain(way[0]) == Err::<Seq<u32>, FatError>(FatError::ChainLoop { start: way[0] }),
{
    let ring = way.drop_last();
    assert forall|i: int| 0 <= i < ring.len() implies table.valid(#[trigger] ring[i] as int)
        && ring.contains(table.value(ring[i] as int)) by {
        assert(ring[i] == way[i]);
        if i + 1 < ring.len() {
            assert(ring[i + 1] == way[i + 1]);
        } else {
            assert(ring[back] == way[back]);
        }
    }
    assert(ring[0] == way[0]);
    lemma_never_ends(table, ring, way[0], way[0], 0);
}

} // verus!
