//! Which first blocks are accepted, and what is read of them, byte by byte.
use vstd::prelude::*;

use vstd::arithmetic::power2::{lemma2_to64, pow2};

use crate::blockdev::Access;
use crate::boot;
use crate::boot::BootSector;
use crate::bytes;
use crate::codepage::Codepage;
use crate::dir;
use crate::error::{BootError, Fault, Format, Geometry};
use crate::fat;
use crate::fs;
use crate::volume::Volume;

verus! {

/// Two bytes as a number, the lower first.
pub open spec fn pair(block: Seq<u8>, at: int) -> int {
    block[at] + 256 * block[at + 1]
}

/// Four bytes as a number, the lowest first.
pub open spec fn quad(block: Seq<u8>, at: int) -> int {
    pair(block, at) + 65536 * pair(block, at + 2)
}

/// Numbers are stored lowest byte first.
pub proof fn lemma_fields(block: Seq<u8>, at: int)
    ensures
        bytes::u16_at(block, at) == pair(block, at),
        bytes::u32_at(block, at) == quad(block, at),
{
}

/// A cluster has one, two, four, or any other power of two sectors that a byte
/// can count, and no other number.
pub proof fn lemma_cluster_sizes(n: u8)
    ensures
        boot::is_power_of_two(n) <==> exists|k: nat| k <= 7 && n == #[trigger] pow2(k),
{
    lemma2_to64();
    if n == 1 || n == 2 || n == 4 || n == 8 || n == 16 || n == 32 || n == 64 || n == 128 {
        let k: nat = if n == 1 {
            0
        } else if n == 2 {
            1
        } else if n == 4 {
            2
        } else if n == 8 {
            3
        } else if n == 16 {
            4
        } else if n == 32 {
            5
        } else if n == 64 {
            6
        } else {
            7
        };
        assert(n == pow2(k));
    }
    assert forall|k: nat| k <= 7 && n == #[trigger] pow2(k) implies boot::is_power_of_two(n) by {
        assert(k == 0 || k == 1 || k == 2 || k == 3 || k == 4 || k == 5 || k == 6 || k == 7);
    }
}

/// How many sectors a first block says there are: the 16-bit field, or the
/// 32-bit one where that is zero.
pub open spec fn sectors_said(block: Seq<u8>) -> int {
    if pair(block, 0x13) == 0 {
        quad(block, 0x20)
    } else {
        pair(block, 0x13)
    }
}

/// Where a first block says its data starts: after the reserved sectors and
/// every copy of the table.
pub open spec fn data_said(block: Seq<u8>) -> int {
    pair(block, 0x0E) + block[0x10] * quad(block, 0x24)
}

/// Whether a first block says what a volume of 512-byte sectors with 32-bit
/// table entries does: the signature, the sector size, a cluster size, some
/// reserved sectors, some table, no 16-bit table length, and data inside the
/// volume.
pub open spec fn well_said(block: Seq<u8>) -> bool {
    &&& block.len() >= 512
    &&& block[0x1FE] == 0x55
    &&& block[0x1FF] == 0xAA
    &&& pair(block, 0x0B) == 512
    &&& exists|k: nat| k <= 7 && block[0x0D] == #[trigger] pow2(k)
    &&& pair(block, 0x0E) > 0
    &&& block[0x10] > 0
    &&& pair(block, 0x16) == 0
    &&& quad(block, 0x24) > 0
    &&& data_said(block) < sectors_said(block)
}

/// Whether `n` clusters fit: their sectors in the volume, and their entries,
/// with the two that are reserved, in the table. Cluster numbers are 32 bits
/// wide.
pub open spec fn clusters_fit(block: Seq<u8>, n: int) -> bool {
    &&& data_said(block) + n * block[0x0D] <= sectors_said(block)
    &&& n + 2 <= 128 * quad(block, 0x24)
    &&& n + 2 <= 0xFFFF_FFFF
}

/// The clusters a volume has are as many as fit.
proof fn lemma_as_many_as_fit(block: Seq<u8>, n: int)
    requires
        block[0x0D] > 0,
        quad(block, 0x24) > 0,
        data_said(block) < sectors_said(block),
    ensures
        0 <= boot::counted_clusters(block),
        n <= boot::counted_clusters(block) <==> clusters_fit(block, n),
{
    lemma_fields(block, 0x0E);
    lemma_fields(block, 0x13);
    lemma_fields(block, 0x20);
    lemma_fields(block, 0x24);
    assert(boot::claimed_sectors(block) == sectors_said(block));
    assert(boot::data_sector(block) == data_said(block));
    let spc = block[0x0D] as int;
    let left = sectors_said(block) - data_said(block);
    vstd::arithmetic::div_mod::lemma_fundamental_div_mod(left, spc);
    let q = left / spc;
    assert(0 <= q && (n <= q <==> n * spc <= left)) by (nonlinear_arith)
        requires
            left == spc * q + left % spc,
            0 <= left % spc < spc,
            0 < spc,
            0 < left,
    ;
}

/// A first block is accepted exactly if it says what it should and there are
/// no more clusters than can be numbered; and then each field is what its
/// bytes say, and there are as many clusters as fit.
pub proof fn lemma_accepted(block: Seq<u8>)
    ensures
        boot::parse_boot(block) is Ok <==> well_said(block) && !clusters_fit(block, 0x0FFF_FFF6),
        boot::parse_boot(block) matches Ok(boot) ==> {
            &&& boot.bytes_per_sector == 512
            &&& boot.sectors_per_cluster == block[0x0D]
            &&& boot.reserved_sectors == pair(block, 0x0E)
            &&& boot.fat_count == block[0x10]
            &&& boot.sectors_per_fat == quad(block, 0x24)
            &&& boot.root_cluster == quad(block, 0x2C)
            &&& boot.total_sectors == sectors_said(block)
            &&& boot.volume_id == quad(block, 0x43)
            &&& boot.dirty <==> block[0x41] % 2 == 1
            &&& boot.fat_start == pair(block, 0x0E)
            &&& boot.data_start == data_said(block)
            &&& forall|n: int| n <= boot.cluster_count <==> #[trigger] clusters_fit(block, n)
            &&& boot.fs_info_sector == (if pair(block, 0x30) == 0 || pair(block, 0x30) == 0xFFFF {
                None
            } else {
                Some(pair(block, 0x30) as u16)
            })
        },
{
    lemma_cluster_sizes(block[0x0D]);
    lemma_fields(block, 0x0B);
    lemma_fields(block, 0x0E);
    lemma_fields(block, 0x13);
    lemma_fields(block, 0x16);
    lemma_fields(block, 0x20);
    lemma_fields(block, 0x24);
    lemma_fields(block, 0x2C);
    lemma_fields(block, 0x30);
    lemma_fields(block, 0x43);
    lemma_fields(block, 0x1FE);
    assert(boot::claimed_sectors(block) == sectors_said(block));
    assert(boot::data_sector(block) == data_said(block));
    assert(0 <= data_said(block)) by {
        assert(0 <= block[0x10] * quad(block, 0x24)) by (nonlinear_arith)
            requires
                0 <= block[0x10],
                0 <= quad(block, 0x24),
        ;
    }
    if well_said(block) {
        assert(block[0x0D] > 0);
        lemma_as_many_as_fit(block, 0x0FFF_FFF6);
        assert forall|n: int| n <= boot::counted_clusters(block) <==> #[trigger] clusters_fit(
            block,
            n,
        ) by {
            lemma_as_many_as_fit(block, n);
        }
    }
}

/// What is wrong with a first block that is refused: the first thing that is,
/// in the order of the list.
pub proof fn lemma_refused(block: Seq<u8>)
    ensures
        block.len() < 512 ==> boot::parse_boot(block) == Err::<BootSector, BootError>(
            BootError::ShortBlock { len: block.len() as usize },
        ),
        block.len() >= 512 ==> {
            let signed = block[0x1FE] == 0x55 && block[0x1FF] == 0xAA;
            let sized = pair(block, 0x0B) == 512;
            let clustered = exists|k: nat| k <= 7 && block[0x0D] == #[trigger] pow2(k);
            let reserved = pair(block, 0x0E) > 0;
            let tabled = block[0x10] > 0;
            let wide = pair(block, 0x16) == 0;
            let result = boot::parse_boot(block);
            let geometry = |g: Geometry|
                result == Err::<BootSector, BootError>(BootError::BadGeometry(g));
            &&& !signed ==> result == Err::<BootSector, BootError>(BootError::NotFat)
            &&& signed && !sized ==> geometry(Geometry::SectorSize(pair(block, 0x0B) as u16))
            &&& signed && sized && !clustered ==> geometry(Geometry::SectorsPerCluster(block[0x0D]))
            &&& signed && sized && clustered && !reserved ==> geometry(Geometry::ReservedSectors(0))
            &&& signed && sized && clustered && reserved && !tabled ==> geometry(
                Geometry::FatCount(0),
            )
            &&& signed && sized && clustered && reserved && tabled ==> {
                &&& sectors_said(block) == 0 ==> geometry(Geometry::TotalSectors(0))
                &&& sectors_said(block) > 0 && wide ==> {
                    &&& quad(block, 0x24) == 0 ==> geometry(Geometry::FatLength(0))
                    &&& quad(block, 0x24) > 0 && data_said(block) >= sectors_said(block)
                        ==> geometry(
                        Geometry::DataBeyondVolume {
                            data_start: if data_said(block) > 0xFFFF_FFFF {
                                0xFFFF_FFFF
                            } else {
                                data_said(block) as u32
                            },
                            total_sectors: sectors_said(block) as u32,
                        },
                    )
                    &&& quad(block, 0x24) > 0 && data_said(block) < sectors_said(block)
                        && clusters_fit(block, 0x0FFF_FFF6) ==> exists|n: u32|
                        n > 0x0FFF_FFF5 && #[trigger] clusters_fit(block, n as int)
                            && !clusters_fit(block, n + 1) && geometry(Geometry::ClusterCount(n))
                }
            }
        },
{
    lemma_cluster_sizes(block[0x0D]);
    lemma_fields(block, 0x0B);
    lemma_fields(block, 0x0E);
    lemma_fields(block, 0x13);
    lemma_fields(block, 0x16);
    lemma_fields(block, 0x20);
    lemma_fields(block, 0x24);
    lemma_fields(block, 0x1FE);
    assert(boot::claimed_sectors(block) == sectors_said(block));
    assert(boot::data_sector(block) == data_said(block));
    if block[0x0D] > 0 && quad(block, 0x24) > 0 && data_said(block) < sectors_said(block) {
        let n = boot::counted_clusters(block);
        lemma_as_many_as_fit(block, 0x0FFF_FFF6);
        lemma_as_many_as_fit(block, n);
        lemma_as_many_as_fit(block, n + 1);
        if clusters_fit(block, 0x0FFF_FFF6) {
            assert(clusters_fit(block, (n as u32) as int) && !clusters_fit(block, n + 1));
        }
    }
}

/// A first block with a 16-bit table length is that of an older format: the
/// number of clusters it has, after its tables and its root directory of so
/// many 32-byte entries, tells which. `q` is that number.
pub proof fn lemma_older_formats(block: Seq<u8>, root: int, q: int)
    requires
        block.len() >= 512,
        block[0x1FE] == 0x55,
        block[0x1FF] == 0xAA,
        pair(block, 0x0B) == 512,
        exists|k: nat| k <= 7 && block[0x0D] == #[trigger] pow2(k),
        pair(block, 0x0E) > 0,
        block[0x10] > 0,
        pair(block, 0x16) > 0,
        sectors_said(block) > 0,
        0 <= root,
        512 * (root - 1) < 32 * pair(block, 0x11) <= 512 * root,
        0 <= q,
        ({
            let start = pair(block, 0x0E) + block[0x10] * pair(block, 0x16) + root;
            let spc = block[0x0D] as int;
            if sectors_said(block) <= start {
                q == 0
            } else {
                start + q * spc <= sectors_said(block) < start + (q + 1) * spc
            }
        }),
    ensures
        boot::parse_boot(block) == Err::<BootSector, BootError>(
            if q <= 4084 {
                BootError::UnsupportedFormat(Format::Fat12)
            } else if q <= 65524 {
                BootError::UnsupportedFormat(Format::Fat16)
            } else {
                BootError::BadGeometry(Geometry::ClusterCount(q as u32))
            },
        ),
{
    lemma_cluster_sizes(block[0x0D]);
    lemma_fields(block, 0x0B);
    lemma_fields(block, 0x0E);
    lemma_fields(block, 0x11);
    lemma_fields(block, 0x13);
    lemma_fields(block, 0x16);
    lemma_fields(block, 0x20);
    lemma_fields(block, 0x1FE);
    assert(boot::claimed_sectors(block) == sectors_said(block));
    assert(root == boot::div_ceil(bytes::u16_at(block, 0x11) * 32, 512));
    let start = pair(block, 0x0E) + block[0x10] * pair(block, 0x16) + root;
    let spc = block[0x0D] as int;
    let left = sectors_said(block) - start;
    if left > 0 {
        vstd::arithmetic::div_mod::lemma_fundamental_div_mod(left, spc);
        assert(left / spc == q) by (nonlinear_arith)
            requires
                left == spc * (left / spc) + left % spc,
                0 <= left % spc < spc,
                q * spc <= left < (q + 1) * spc,
                0 < spc,
        ;
    }
}

/// The free-space hints count only where both signatures are there; and each
/// only where the volume could have it.
pub proof fn lemma_hints(block: Seq<u8>, boot: BootSector)
    ensures
        ({
            let hints = boot::parse_hints(block, boot);
            let signed = block.len() >= 512 && quad(block, 0) == 0x4161_5252 && quad(block, 0x1E4)
                == 0x6141_7272;
            &&& boot::has_hints(block) <==> quad(block, 0) == 0x4161_5252 && quad(block, 0x1E4)
                == 0x6141_7272
            &&& hints.free_clusters == (if signed && quad(block, 0x1E8) <= boot.cluster_count
                && quad(block, 0x1E8) != 0xFFFF_FFFF {
                Some(quad(block, 0x1E8) as u32)
            } else {
                None
            })
            &&& hints.next_free == (if signed && 2 <= quad(block, 0x1EC) < boot.cluster_count + 2
                && quad(block, 0x1EC) != 0xFFFF_FFFF {
                Some(quad(block, 0x1EC) as u32)
            } else {
                None
            })
        }),
{
    lemma_fields(block, 0);
    lemma_fields(block, 0x1E4);
    lemma_fields(block, 0x1E8);
    lemma_fields(block, 0x1EC);
}

/// Cluster 2 is the first of the data area, and each cluster follows on the
/// one before it.
pub proof fn lemma_cluster_places(boot: BootSector, cluster: int)
    ensures
        boot.spec_cluster_sector(2) == boot.data_start,
        boot.spec_cluster_sector(cluster + 1) == boot.spec_cluster_sector(cluster)
            + boot.sectors_per_cluster,
        boot.bytes_per_sector == 512 ==> boot.spec_cluster_bytes() == 512
            * boot.sectors_per_cluster,
        boot.spec_is_valid_cluster(cluster) <==> 0 <= cluster - 2 < boot.cluster_count,
{
    let spc = boot.sectors_per_cluster as int;
    assert((cluster + 1 - 2) * spc == (cluster - 2) * spc + spc) by (nonlinear_arith);
}

/// The answer that a volume ends past the blocks there are for it.
pub open spec fn too_large(first_block: u64, end: u64, bound: u64) -> Fault {
    Fault::Boot(
        BootError::BadGeometry(Geometry::VolumeTooLarge { first_block, end, bound }),
    )
}

/// A volume mounts exactly if its first block is accepted and it ends within
/// the blocks that the device reports, within its partition, and within the
/// block numbers there are, the sector of its hints included. Nothing else
/// keeps it from mounting, and its table is what the device stores.
pub proof fn lemma_mounts(
    disk: Seq<u8>,
    history: Seq<Access>,
    limit: u64,
    capacity: Option<u64>,
    first_block: u64,
    codepage: Codepage,
    end: Option<int>,
)
    requires
        end matches Some(last) ==> 0 <= last <= u64::MAX,
    ensures
        ({
            let parsed = boot::parse_boot(
                disk.subrange(512 * first_block, 512 * first_block + 512),
            );
            let boot = parsed->Ok_0;
            let past = first_block + boot.total_sectors;
            let numbered = past <= u64::MAX && (boot.fs_info_sector matches Some(sector)
                ==> first_block + sector < u64::MAX);
            let inside = (capacity matches Some(blocks) ==> past <= blocks) && (end matches Some(
                last,
            ) ==> past <= last);
            let result = fs::mounted(
                disk,
                history,
                limit,
                capacity,
                first_block,
                codepage,
                end,
            );
            &&& parsed matches Err(error) ==> result == Err::<Volume, Fault>(Fault::Boot(error))
            &&& result is Ok <==> parsed is Ok && numbered && inside
            &&& parsed is Ok && !(numbered && inside) ==> exists|last: u64, bound: u64|
                result == Err::<Volume, Fault>(#[trigger] too_large(first_block, last, bound)) && (
                numbered ==> last == past && (capacity == Some(bound) || end == Some(bound as int)))
            &&& result matches Ok(volume) ==> {
                &&& volume.disk == disk
                &&& volume.boot == boot
                &&& volume.first_block == first_block
                &&& volume.codepage == codepage
                &&& volume.capacity == capacity
                &&& volume.limit == limit
                &&& volume.directories == Map::<u32, dir::Listing>::empty()
                &&& volume.deletions == Map::<u32, u32>::empty()
                &&& !volume.marked_dirty
                &&& !volume.table.has_changes()
                &&& volume.fs_info == (match boot.fs_info_sector {
                    Some(sector) => boot::parse_hints(
                        disk.subrange(
                            512 * (first_block + sector),
                            512 * (first_block + sector + 1),
                        ),
                        boot,
                    ),
                    None => boot::FsInfo { free_clusters: None, next_free: None },
                })
                &&& volume.table.cluster_count == boot.cluster_count
                &&& volume.table.entries.len() == boot.cluster_count + 2
                &&& forall|c: int|
                    0 <= c < boot.cluster_count + 2 ==> #[trigger] volume.table.entries[c] == quad(
                        disk,
                        512 * (first_block + boot.fat_start) + 4 * c,
                    )
            }
        }),
{
    let parsed = boot::parse_boot(disk.subrange(512 * first_block, 512 * first_block + 512));
    if parsed is Ok {
        let boot = parsed->Ok_0;
        let past = first_block + boot.total_sectors;
        let bound = fs::bound_of(capacity, end);
        let reported = if bound is Some {
            bound->0 as u64
        } else {
            u64::MAX
        };
        let result = fs::mounted(disk, history, limit, capacity, first_block, codepage, end);
        if result is Err {
            assert(result == Err::<Volume, Fault>(too_large(first_block, u64::MAX, reported))
                || result == Err::<Volume, Fault>(too_large(first_block, past as u64, reported)));
        }
        assert forall|c: int| 0 <= c < boot.cluster_count + 2 implies #[trigger] fat::stored_table(
            disk,
            first_block as int,
            boot,
        ).entries[c] == quad(disk, 512 * (first_block + boot.fat_start) + 4 * c) by {
            lemma_fields(disk, 512 * (first_block + boot.fat_start) + 4 * c);
        }
    }
}

} // verus!
