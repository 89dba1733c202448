//! The boot sector, and the free-space hints kept beside it.
use vstd::prelude::*;

use crate::blockdev::BLOCK_SIZE;
use crate::bytes;
use crate::bytes::{read_u16, read_u32};
use crate::error::{BootError, Format, Geometry};

verus! {

/// The number of the first data cluster; the two below it are reserved.
pub const FIRST_CLUSTER: u32 = 2;

/// The most clusters a FAT32 volume can number.
pub const MAX_FAT32_CLUSTERS: u32 = 0x0FFF_FFF5;

/// The most clusters a FAT12 volume can number.
pub const MAX_FAT12_CLUSTERS: u32 = 4084;

/// The most clusters a FAT16 volume can number.
pub const MAX_FAT16_CLUSTERS: u32 = 65524;

/// Opens the free-space hints sector.
pub const LEAD_SIGNATURE: u32 = 0x4161_5252;

/// Precedes the hints themselves.
pub const STRUCT_SIGNATURE: u32 = 0x6141_7272;

/// What a volume's boot sector says of it.
#[non_exhaustive]
#[derive(Debug, Clone, Copy, PartialEq, Eq, Structural)]
pub struct BootSector {
    /// Always 512 on a volume this crate mounts.
    pub bytes_per_sector: u16,
    /// A power of two.
    pub sectors_per_cluster: u8,
    /// Sectors before the first allocation table.
    pub reserved_sectors: u16,
    /// How many copies of the table there are.
    pub fat_count: u8,
    /// Sectors in one copy of the table.
    pub sectors_per_fat: u32,
    /// The cluster the root directory starts at.
    pub root_cluster: u32,
    /// Sectors in the volume.
    pub total_sectors: u32,
    /// Where the free-space hints are, if anywhere.
    pub fs_info_sector: Option<u16>,
    /// The serial number given when the volume was made.
    pub volume_id: u32,
    /// Whether the volume was left with changes unfinished.
    pub dirty: bool,
    /// The first sector of the first table.
    pub fat_start: u32,
    /// The first sector of cluster 2.
    pub data_start: u32,
    /// How many data clusters there are.
    pub cluster_count: u32,
}

/// The number of sectors the volume claims: the 16-bit field where it is in
/// use, the 32-bit one otherwise.
pub open spec fn claimed_sectors(block: Seq<u8>) -> u32 {
    if bytes::u16_at(block, 0x13) != 0 {
        bytes::u16_at(block, 0x13) as u32
    } else {
        bytes::u32_at(block, 0x20)
    }
}

/// Whether a byte is a power of two.
pub open spec fn is_power_of_two(n: u8) -> bool {
    n == 1 || n == 2 || n == 4 || n == 8 || n == 16 || n == 32 || n == 64 || n == 128
}

/// Rounds a quotient up.
pub open spec fn div_ceil(n: int, d: int) -> int {
    (n + d - 1) / d
}

/// How a boot sector with a 16-bit table length is refused: by the number of
/// clusters it would have.
pub open spec fn small_format_error(block: Seq<u8>) -> BootError {
    let root_sectors = div_ceil(bytes::u16_at(block, 0x11) * 32, 512);
    let data_start = bytes::u16_at(block, 0x0E) + block[0x10] * bytes::u16_at(
        block,
        0x16,
    ) + root_sectors;
    let sectors = claimed_sectors(block) - data_start;
    let clusters = if sectors > 0 {
        sectors / block[0x0D] as int
    } else {
        0
    };
    if clusters <= MAX_FAT12_CLUSTERS {
        BootError::UnsupportedFormat(Format::Fat12)
    } else if clusters <= MAX_FAT16_CLUSTERS {
        BootError::UnsupportedFormat(Format::Fat16)
    } else {
        BootError::BadGeometry(Geometry::ClusterCount(clusters as u32))
    }
}

/// The sector the data area of a FAT32 boot sector starts at.
pub open spec fn data_sector(block: Seq<u8>) -> int {
    bytes::u16_at(block, 0x0E) + block[0x10] * bytes::u32_at(block, 0x24)
}

/// How many clusters a FAT32 boot sector describes: as many as the data area
/// holds, and no more than the table has entries for.
pub open spec fn counted_clusters(block: Seq<u8>) -> int {
    let by_volume = (claimed_sectors(block) - data_sector(block)) / block[0x0D] as int;
    let entries = bytes::u32_at(block, 0x24) * 128;
    let by_table = (if entries > u32::MAX {
        u32::MAX as int
    } else {
        entries
    }) - FIRST_CLUSTER;
    if by_volume <= by_table {
        by_volume
    } else {
        by_table
    }
}

/// What parsing a boot sector gives: the first check it fails, or the fields.
pub open spec fn parse_boot(block: Seq<u8>) -> Result<BootSector, BootError> {
    if block.len() < 512 {
        Err(BootError::ShortBlock { len: block.len() as usize })
    } else if bytes::u16_at(block, 0x1FE) != 0xAA55 {
        Err(BootError::NotFat)
    } else if bytes::u16_at(block, 0x0B) != 512 {
        Err(BootError::BadGeometry(Geometry::SectorSize(bytes::u16_at(block, 0x0B))))
    } else if !is_power_of_two(block[0x0D]) {
        Err(BootError::BadGeometry(Geometry::SectorsPerCluster(block[0x0D])))
    } else if bytes::u16_at(block, 0x0E) == 0 {
        Err(BootError::BadGeometry(Geometry::ReservedSectors(0)))
    } else if block[0x10] == 0 {
        Err(BootError::BadGeometry(Geometry::FatCount(0)))
    } else if claimed_sectors(block) == 0 {
        Err(BootError::BadGeometry(Geometry::TotalSectors(0)))
    } else if bytes::u16_at(block, 0x16) != 0 {
        Err(small_format_error(block))
    } else if bytes::u32_at(block, 0x24) == 0 {
        Err(BootError::BadGeometry(Geometry::FatLength(0)))
    } else if data_sector(block) >= claimed_sectors(block) {
        Err(
            BootError::BadGeometry(
                Geometry::DataBeyondVolume {
                    data_start: if data_sector(block) > u32::MAX {
                        u32::MAX
                    } else {
                        data_sector(block) as u32
                    },
                    total_sectors: claimed_sectors(block),
                },
            ),
        )
    } else if counted_clusters(block) > MAX_FAT32_CLUSTERS {
        Err(BootError::BadGeometry(Geometry::ClusterCount(counted_clusters(block) as u32)))
    } else {
        Ok(
            BootSector {
                bytes_per_sector: 512,
                sectors_per_cluster: block[0x0D],
                reserved_sectors: bytes::u16_at(block, 0x0E),
                fat_count: block[0x10],
                sectors_per_fat: bytes::u32_at(block, 0x24),
                root_cluster: bytes::u32_at(block, 0x2C),
                total_sectors: claimed_sectors(block),
                fs_info_sector: if bytes::u16_at(block, 0x30) == 0 || bytes::u16_at(
                    block,
                    0x30,
                ) == 0xFFFF {
                    None
                } else {
                    Some(bytes::u16_at(block, 0x30))
                },
                volume_id: bytes::u32_at(block, 0x43),
                dirty: block[0x41] % 2 == 1,
                fat_start: bytes::u16_at(block, 0x0E) as u32,
                data_start: data_sector(block) as u32,
                cluster_count: counted_clusters(block) as u32,
            },
        )
    }
}

impl BootSector {
    /// The geometry holds together: the tables lie before the data area, the
    /// data area lies inside the volume, and every cluster has a table entry.
    pub open spec fn wf(self) -> bool {
        &&& self.bytes_per_sector == 512
        &&& is_power_of_two(self.sectors_per_cluster)
        &&& self.reserved_sectors >= 1
        &&& self.fat_count >= 1
        &&& self.sectors_per_fat >= 1
        &&& self.fat_start == self.reserved_sectors
        &&& self.data_start == self.fat_start + self.fat_count * self.sectors_per_fat
        &&& self.data_start < self.total_sectors
        &&& self.data_start + self.cluster_count * self.sectors_per_cluster <= self.total_sectors
        &&& self.cluster_count + FIRST_CLUSTER <= self.sectors_per_fat * 128
        &&& self.cluster_count <= MAX_FAT32_CLUSTERS
    }

    /// Bytes in one cluster.
    pub open spec fn spec_cluster_bytes(self) -> int {
        self.sectors_per_cluster * self.bytes_per_sector
    }

    /// The first sector of a cluster.
    pub open spec fn spec_cluster_sector(self, cluster: int) -> int {
        self.data_start + (cluster - FIRST_CLUSTER) * self.sectors_per_cluster
    }

    /// How many sectors the volume reaches over: those it has, and the one
    /// its hints are in, wherever that is.
    pub open spec fn extent(self) -> int {
        match self.fs_info_sector {
            Some(sector) if sector >= self.total_sectors => sector + 1,
            _ => self.total_sectors as int,
        }
    }

    /// Whether the volume has a cluster of this number.
    pub open spec fn spec_is_valid_cluster(self, cluster: int) -> bool {
        FIRST_CLUSTER <= cluster < FIRST_CLUSTER + self.cluster_count
    }

    /// Reads the boot sector in `block`.
    pub fn parse(block: &[u8]) -> (result: Result<Self, BootError>)
        ensures
            result == parse_boot(block@),
            result matches Ok(boot) ==> boot.wf(),
    {
        if block.len() < BLOCK_SIZE {
            return Err(BootError::ShortBlock { len: block.len() });
        }
        if read_u16(block, 0x1FE) != 0xAA55 {
            return Err(BootError::NotFat);
        }
        let bytes_per_sector: u16 = read_u16(block, 0x0B);
        if bytes_per_sector as usize != BLOCK_SIZE {
            return Err(BootError::BadGeometry(Geometry::SectorSize(bytes_per_sector)));
        }
        let sectors_per_cluster: u8 = block[0x0D];
        if !power_of_two(sectors_per_cluster) {
            return Err(BootError::BadGeometry(Geometry::SectorsPerCluster(sectors_per_cluster)));
        }
        let reserved_sectors: u16 = read_u16(block, 0x0E);
        if reserved_sectors == 0 {
            return Err(BootError::BadGeometry(Geometry::ReservedSectors(reserved_sectors)));
        }
        let fat_count: u8 = block[0x10];
        if fat_count == 0 {
            return Err(BootError::BadGeometry(Geometry::FatCount(fat_count)));
        }
        let small: u16 = read_u16(block, 0x13);
        let total_sectors: u32 = if small != 0 {
            small as u32
        } else {
            read_u32(block, 0x20)
        };
        if total_sectors == 0 {
            return Err(BootError::BadGeometry(Geometry::TotalSectors(total_sectors)));
        }
        // On the smaller formats the 32-bit table length does not exist, so
        // the 16-bit one decides before the other is looked at.

        let sectors_per_fat_16: u16 = read_u16(block, 0x16);
        if sectors_per_fat_16 != 0 {
            return Err(
                classify_small(
                    block,
                    sectors_per_cluster,
                    reserved_sectors,
                    fat_count,
                    sectors_per_fat_16,
                    total_sectors,
                ),
            );
        }
        let sectors_per_fat: u32 = read_u32(block, 0x24);
        if sectors_per_fat == 0 {
            return Err(BootError::BadGeometry(Geometry::FatLength(sectors_per_fat)));
        }
        let fat_start: u32 = reserved_sectors as u32;
        assert(fat_count * sectors_per_fat <= 0xFF * 0xFFFF_FFFF) by (nonlinear_arith)
            requires
                fat_count <= 0xFF,
                sectors_per_fat <= 0xFFFF_FFFF,
        ;
        assert(0 <= fat_count * sectors_per_fat) by (nonlinear_arith);
        let data_sector: u64 = fat_start as u64 + fat_count as u64 * sectors_per_fat as u64;
        if data_sector >= total_sectors as u64 {
            let data_start: u32 = if data_sector > u32::MAX as u64 {
                u32::MAX
            } else {
                data_sector as u32
            };
            return Err(
                BootError::BadGeometry(Geometry::DataBeyondVolume { data_start, total_sectors }),
            );
        }
        let data_start: u32 = data_sector as u32;
        let by_volume: u32 = (total_sectors - data_start) / (sectors_per_cluster as u32);
        let by_table: u32 = if sectors_per_fat > u32::MAX / 128 {
            u32::MAX
        } else {
            sectors_per_fat * 128
        } - FIRST_CLUSTER;
        let cluster_count: u32 = if by_volume <= by_table {
            by_volume
        } else {
            by_table
        };
        if cluster_count > MAX_FAT32_CLUSTERS {
            return Err(BootError::BadGeometry(Geometry::ClusterCount(cluster_count)));
        }
        let hints: u16 = read_u16(block, 0x30);
        let fs_info_sector = if hints == 0 || hints == 0xFFFF {
            None
        } else {
            Some(hints)
        };
        let boot = BootSector {
            bytes_per_sector,
            sectors_per_cluster,
            reserved_sectors,
            fat_count,
            sectors_per_fat,
            root_cluster: read_u32(block, 0x2C),
            total_sectors,
            fs_info_sector,
            volume_id: read_u32(block, 0x43),
            dirty: block[0x41] % 2 == 1,
            fat_start,
            data_start,
            cluster_count,
        };
        assert(boot.data_start + boot.cluster_count * boot.sectors_per_cluster
            <= boot.total_sectors) by (nonlinear_arith)
            requires
                boot.cluster_count <= (boot.total_sectors - boot.data_start) / (
                boot.sectors_per_cluster as int),
                boot.sectors_per_cluster > 0,
                boot.data_start < boot.total_sectors,
        ;
        Ok(boot)
    }

    /// Bytes in one cluster.
    pub fn cluster_bytes(&self) -> (bytes: u32)
        ensures
            bytes == self.spec_cluster_bytes(),
    {
        assert(self.sectors_per_cluster * self.bytes_per_sector <= 0xFF * 0xFFFF)
            by (nonlinear_arith)
            requires
                self.sectors_per_cluster <= 0xFF,
                self.bytes_per_sector <= 0xFFFF,
        ;
        self.sectors_per_cluster as u32 * self.bytes_per_sector as u32
    }

    /// The first sector of `cluster`. For a number that no cluster of the
    /// volume has, it is the first sector of the data area: inside the volume,
    /// though it means nothing.
    pub fn cluster_sector(&self, cluster: u32) -> (sector: u32)
        requires
            self.wf(),
        ensures
            sector < self.total_sectors,
            self.spec_is_valid_cluster(cluster as int) ==> sector == self.spec_cluster_sector(
                cluster as int,
            ),
            !self.spec_is_valid_cluster(cluster as int) ==> sector == self.data_start,
    {
        if !self.is_valid_cluster(cluster) {
            return self.data_start;
        }
        proof {
            lemma_cluster_in_volume(*self, cluster as int);
        }
        self.data_start + (cluster - FIRST_CLUSTER) * self.sectors_per_cluster as u32
    }

    /// Whether the volume has a cluster of this number.
    pub fn is_valid_cluster(&self, cluster: u32) -> (valid: bool)
        requires
            self.cluster_count <= u32::MAX - FIRST_CLUSTER,
        ensures
            valid == self.spec_is_valid_cluster(cluster as int),
    {
        cluster >= FIRST_CLUSTER && cluster < FIRST_CLUSTER + self.cluster_count
    }
}

/// Every cluster of a well-formed volume lies in its data area.
pub proof fn lemma_cluster_in_volume(boot: BootSector, cluster: int)
    requires
        boot.wf(),
        boot.spec_is_valid_cluster(cluster),
    ensures
        boot.data_start <= boot.spec_cluster_sector(cluster),
        boot.spec_cluster_sector(cluster) + boot.sectors_per_cluster <= boot.total_sectors,
{
    let n = cluster - FIRST_CLUSTER;
    let spc = boot.sectors_per_cluster as int;
    let count = boot.cluster_count as int;
    assert(0 <= n * spc && n * spc + spc <= count * spc) by (nonlinear_arith)
        requires
            0 <= n < count,
            spc >= 1,
    ;
}

/// Different clusters share no sector.
pub proof fn lemma_clusters_apart(boot: BootSector, a: int, b: int)
    requires
        boot.wf(),
        a < b,
    ensures
        boot.spec_cluster_sector(a) + boot.sectors_per_cluster <= boot.spec_cluster_sector(b),
{
    let spc = boot.sectors_per_cluster as int;
    assert((a - 2) * spc + spc <= (b - 2) * spc) by (nonlinear_arith)
        requires
            a < b,
            spc >= 1,
    ;
}

/// Whether a byte is a power of two.
fn power_of_two(n: u8) -> (yes: bool)
    ensures
        yes == is_power_of_two(n),
{
    n == 1 || n == 2 || n == 4 || n == 8 || n == 16 || n == 32 || n == 64 || n == 128
}

/// How a boot sector with a 16-bit table length is refused.
fn classify_small(
    block: &[u8],
    sectors_per_cluster: u8,
    reserved_sectors: u16,
    fat_count: u8,
    sectors_per_fat: u16,
    total_sectors: u32,
) -> (error: BootError)
    requires
        block@.len() >= 512,
        sectors_per_cluster == block@[0x0D],
        sectors_per_cluster != 0,
        reserved_sectors == bytes::u16_at(block@, 0x0E),
        fat_count == block@[0x10],
        sectors_per_fat == bytes::u16_at(block@, 0x16),
        total_sectors == claimed_sectors(block@),
    ensures
        error == small_format_error(block@),
{
    let root_entries: u32 = read_u16(block, 0x11) as u32;
    let root_sectors: u32 = (root_entries * 32 + 511) / 512;
    assert(0 <= fat_count * sectors_per_fat <= 0xFF * 0xFFFF) by (nonlinear_arith)
        requires
            fat_count <= 0xFF,
            sectors_per_fat <= 0xFFFF,
    ;
    let data_start: u32 = reserved_sectors as u32 + fat_count as u32 * sectors_per_fat as u32
        + root_sectors;
    let clusters: u32 = if total_sectors > data_start {
        (total_sectors - data_start) / (sectors_per_cluster as u32)
    } else {
        0
    };
    if clusters <= MAX_FAT12_CLUSTERS {
        BootError::UnsupportedFormat(Format::Fat12)
    } else if clusters <= MAX_FAT16_CLUSTERS {
        BootError::UnsupportedFormat(Format::Fat16)
    } else {
        BootError::BadGeometry(Geometry::ClusterCount(clusters))
    }
}

/// The free-space hints a volume keeps. They are hints: either may be
/// missing, and neither is relied on.
#[non_exhaustive]
#[derive(Debug, Clone, Copy, PartialEq, Eq, Structural)]
pub struct FsInfo {
    /// How many clusters were free.
    pub free_clusters: Option<u32>,
    /// Where to look for a free cluster first.
    pub next_free: Option<u32>,
}

/// Whether a block carries both signatures of the hints sector.
pub open spec fn has_hints(block: Seq<u8>) -> bool {
    bytes::u32_at(block, 0) == LEAD_SIGNATURE && bytes::u32_at(block, 0x1E4)
        == STRUCT_SIGNATURE
}

/// The hints in a block: none without the signatures, and none that the
/// volume rules out.
pub open spec fn parse_hints(block: Seq<u8>, boot: BootSector) -> FsInfo {
    if block.len() < 512 || !has_hints(block) {
        FsInfo { free_clusters: None, next_free: None }
    } else {
        let free = bytes::u32_at(block, 0x1E8);
        let next = bytes::u32_at(block, 0x1EC);
        FsInfo {
            free_clusters: if free == 0xFFFF_FFFF || free > boot.cluster_count {
                None
            } else {
                Some(free)
            },
            next_free: if next == 0xFFFF_FFFF || !boot.spec_is_valid_cluster(next as int) {
                None
            } else {
                Some(next)
            },
        }
    }
}

impl Default for FsInfo {
    /// No hints at all.
    fn default() -> (hints: Self)
        ensures
            hints == (FsInfo { free_clusters: None, next_free: None }),
    {
        FsInfo { free_clusters: None, next_free: None }
    }
}

impl FsInfo {
    /// Reads the hints in `block`.
    pub fn parse(block: &[u8], boot: &BootSector) -> (hints: Self)
        requires
            boot.cluster_count <= u32::MAX - FIRST_CLUSTER,
        ensures
            hints == parse_hints(block@, *boot),
    {
        if block.len() < BLOCK_SIZE {
            return FsInfo::default();
        }
        if read_u32(block, 0) != LEAD_SIGNATURE || read_u32(block, 0x1E4) != STRUCT_SIGNATURE {
            return FsInfo::default();
        }
        let free: u32 = read_u32(block, 0x1E8);
        let next: u32 = read_u32(block, 0x1EC);
        FsInfo {
            free_clusters: if free == 0xFFFF_FFFF || free > boot.cluster_count {
                None
            } else {
                Some(free)
            },
            next_free: if next == 0xFFFF_FFFF || !boot.is_valid_cluster(next) {
                None
            } else {
                Some(next)
            },
        }
    }
}

} // verus!
