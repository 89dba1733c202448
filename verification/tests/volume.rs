//! Mounting volumes and reading them: the boot sector, the partition table,
//! the allocation table, directories and files.
//!
//! The images are written out here, slot by slot, so what the library finds
//! on one is held against what was put there.

#![allow(dead_code)]

use std::collections::BTreeMap;

use resident_fat::blockdev::{BlockDevice, BLOCK_SIZE};
use resident_fat::boot::{BootSector, FsInfo};
use resident_fat::dir::{Attributes, Directory, ShortName, ENTRY_SIZE};
use resident_fat::mbr::PartitionTable;
use resident_fat::{
    BootError, Codepage, DateTime, Error, Fat, FatError, FileSystem, Format, Geometry, Run,
};

// ---------------------------------------------------------------------------
// Images, written and read without the library
// ---------------------------------------------------------------------------

/// A card held in memory, a block at a time. A block nothing wrote is zeros.
#[derive(Clone)]
struct Image {
    blocks: u64,
    held: BTreeMap<u64, [u8; BLOCK_SIZE]>,
}

/// Where the parts of a volume lie, in blocks.
#[derive(Clone, Copy, Debug)]
struct Layout {
    fat_start: u32,
    fat_count: u32,
    sectors_per_fat: u32,
    data_start: u32,
    sectors_per_cluster: u32,
    cluster_count: u32,
    root: u32,
}

impl Layout {
    fn cluster_bytes(&self) -> usize {
        self.sectors_per_cluster as usize * BLOCK_SIZE
    }

    fn cluster_at(&self, cluster: u32) -> usize {
        (self.data_start + (cluster - 2) * self.sectors_per_cluster) as usize * BLOCK_SIZE
    }

    fn is_valid(&self, cluster: u32) -> bool {
        cluster >= 2 && cluster < self.cluster_count + 2
    }
}

/// One entry of a directory, as its slots spell it.
#[derive(Clone, Debug, PartialEq)]
struct Raw {
    path: String,
    short: String,
    long: Option<String>,
    attributes: u8,
    first: u32,
    size: u32,
    at: usize,
}

impl Image {
    fn blank(blocks: u64) -> Self {
        Image { blocks, held: BTreeMap::new() }
    }

    /// A fresh FAT32 volume labelled `SCRATCH`.
    fn format(megabytes: u64, cluster_kb: u32) -> Self {
        let blocks = megabytes * 2048;
        let per_cluster = cluster_kb * 2;
        let reserved = 32u32;
        let clusters = (blocks as u32 - reserved) / per_cluster;
        let per_fat = ((clusters + 2) * 4).div_ceil(512);

        let mut image = Image::blank(blocks);
        let mut boot = [0u8; BLOCK_SIZE];
        boot[..3].copy_from_slice(&[0xEB, 0x58, 0x90]);
        boot[3..11].copy_from_slice(b"mkfs.fat");
        boot[0x0B..0x0D].copy_from_slice(&512u16.to_le_bytes());
        boot[0x0D] = per_cluster as u8;
        boot[0x0E..0x10].copy_from_slice(&(reserved as u16).to_le_bytes());
        boot[0x10] = 2;
        boot[0x15] = 0xF8;
        boot[0x20..0x24].copy_from_slice(&(blocks as u32).to_le_bytes());
        boot[0x24..0x28].copy_from_slice(&per_fat.to_le_bytes());
        boot[0x2C..0x30].copy_from_slice(&2u32.to_le_bytes());
        boot[0x30..0x32].copy_from_slice(&1u16.to_le_bytes());
        boot[0x32..0x34].copy_from_slice(&6u16.to_le_bytes());
        boot[0x40] = 0x80;
        boot[0x42] = 0x29;
        boot[0x43..0x47].copy_from_slice(&0x0BAD_CAFEu32.to_le_bytes());
        boot[0x47..0x52].copy_from_slice(b"SCRATCH    ");
        boot[0x52..0x5A].copy_from_slice(b"FAT32   ");
        // Boot code fills the space a partition table would take.
        for byte in &mut boot[0x5A..0x1FE] {
            *byte = 0x42;
        }
        boot[0x1FE] = 0x55;
        boot[0x1FF] = 0xAA;
        image.put(0, &boot);

        let mut hints = [0u8; BLOCK_SIZE];
        hints[..4].copy_from_slice(b"RRaA");
        hints[0x1E4..0x1E8].copy_from_slice(b"rrAa");
        let layout = image.layout();
        hints[0x1E8..0x1EC].copy_from_slice(&(layout.cluster_count - 1).to_le_bytes());
        hints[0x1EC..0x1F0].copy_from_slice(&2u32.to_le_bytes());
        hints[0x1FE] = 0x55;
        hints[0x1FF] = 0xAA;
        image.put(512, &hints);

        for (cluster, value) in [(0, 0x0FFF_FFF8), (1, 0x0FFF_FFFF), (2, 0x0FFF_FFFF)] {
            image.set_fat(cluster, value);
        }
        let mut label = [0u8; 32];
        label[..11].copy_from_slice(b"SCRATCH    ");
        label[0x0B] = 0x08;
        label[0x18..0x1A].copy_from_slice(&0x5C22u16.to_le_bytes());
        image.put(layout.cluster_at(2), &label);
        image
    }

    fn get(&self, at: usize, len: usize) -> Vec<u8> {
        (at..at + len)
            .map(|n| self.held.get(&((n / BLOCK_SIZE) as u64)).map_or(0, |b| b[n % BLOCK_SIZE]))
            .collect()
    }

    fn byte(&self, at: usize) -> u8 {
        self.get(at, 1)[0]
    }

    fn put(&mut self, at: usize, bytes: &[u8]) {
        for (n, byte) in bytes.iter().enumerate() {
            let place = at + n;
            let block = self.held.entry((place / BLOCK_SIZE) as u64).or_insert([0; BLOCK_SIZE]);
            block[place % BLOCK_SIZE] = *byte;
        }
    }

    fn word(&self, at: usize) -> u32 {
        let b = self.get(at, 4);
        u32::from_le_bytes([b[0], b[1], b[2], b[3]])
    }

    fn half(&self, at: usize) -> u32 {
        let b = self.get(at, 2);
        u32::from(u16::from_le_bytes([b[0], b[1]]))
    }

    /// The volume's layout, worked out from its boot sector.
    fn layout(&self) -> Layout {
        let sectors_per_cluster = u32::from(self.byte(0x0D));
        let fat_start = self.half(0x0E);
        let fat_count = u32::from(self.byte(0x10));
        let sectors_per_fat = self.word(0x24);
        let data_start = fat_start + fat_count * sectors_per_fat;
        Layout {
            fat_start,
            fat_count,
            sectors_per_fat,
            data_start,
            sectors_per_cluster,
            cluster_count: (self.word(0x20) - data_start) / sectors_per_cluster,
            root: self.word(0x2C),
        }
    }

    fn fat(&self, cluster: u32) -> u32 {
        let layout = self.layout();
        self.word(layout.fat_start as usize * BLOCK_SIZE + cluster as usize * 4) & 0x0FFF_FFFF
    }

    /// Writes an entry into every copy of the table.
    fn set_fat(&mut self, cluster: u32, value: u32) {
        let layout = self.layout();
        for copy in 0..layout.fat_count {
            let start = (layout.fat_start + copy * layout.sectors_per_fat) as usize * BLOCK_SIZE;
            self.put(start + cluster as usize * 4, &value.to_le_bytes());
        }
    }

    /// The clusters from `first` on, or what is wrong with them.
    fn chain(&self, first: u32) -> Result<Vec<u32>, String> {
        let layout = self.layout();
        let mut chain = Vec::new();
        let mut cluster = first;
        loop {
            if !layout.is_valid(cluster) {
                return Err(format!("cluster {cluster} is outside the volume"));
            }
            if chain.contains(&cluster) {
                return Err(format!("the chain from {first} loops"));
            }
            chain.push(cluster);
            match self.fat(cluster) {
                0 => return Err(format!("the chain from {first} holds a free cluster")),
                next if next >= 0x0FFF_FFF8 => return Ok(chain),
                next => cluster = next,
            }
        }
    }

    /// Links `clusters` and fills them with `data`.
    fn fill(&mut self, clusters: &[u32], data: &[u8]) {
        let layout = self.layout();
        for (n, cluster) in clusters.iter().enumerate() {
            let next = clusters.get(n + 1).copied().unwrap_or(0x0FFF_FFFF);
            self.set_fat(*cluster, next);
            let from = (n * layout.cluster_bytes()).min(data.len());
            let to = ((n + 1) * layout.cluster_bytes()).min(data.len());
            self.put(layout.cluster_at(*cluster), &data[from..to]);
        }
    }

    /// Adds an entry at the end of the directory that starts at `parent`.
    fn enter(
        &mut self,
        parent: u32,
        short: &[u8; 11],
        flags: u8,
        long: Option<&str>,
        attributes: u8,
        first: u32,
        size: u32,
    ) {
        let layout = self.layout();
        let per_cluster = layout.cluster_bytes() / 32;
        let chain = self.chain(parent).expect("the directory's chain");
        let places: Vec<usize> = (0..chain.len() * per_cluster)
            .map(|n| layout.cluster_at(chain[n / per_cluster]) + 32 * (n % per_cluster))
            .collect();
        let mut next = places.iter().position(|at| self.byte(*at) == 0).expect("room");

        if let Some(long) = long {
            let sum = short.iter().fold(0u8, |sum, b| sum.rotate_right(1).wrapping_add(*b));
            let units: Vec<u16> = long.encode_utf16().collect();
            let slots = units.len().div_ceil(13);
            for sequence in (1..=slots).rev() {
                let mut slot = [0u8; 32];
                slot[0] = sequence as u8 | if sequence == slots { 0x40 } else { 0 };
                slot[0x0B] = 0x0F;
                slot[0x0D] = sum;
                for n in 0..13 {
                    let index = (sequence - 1) * 13 + n;
                    let unit = match units.get(index) {
                        Some(unit) => *unit,
                        None if index == units.len() => 0,
                        None => 0xFFFF,
                    };
                    let at = unit_at(n);
                    slot[at..at + 2].copy_from_slice(&unit.to_le_bytes());
                }
                self.put(places[next], &slot);
                next += 1;
            }
        }

        let mut entry = [0u8; 32];
        entry[..11].copy_from_slice(short);
        entry[0x0B] = attributes;
        entry[0x0C] = flags;
        // 2026-01-02 03:04:04.
        for at in [0x10, 0x12, 0x18] {
            entry[at..at + 2].copy_from_slice(&0x5C22u16.to_le_bytes());
        }
        for at in [0x0E, 0x16] {
            entry[at..at + 2].copy_from_slice(&0x1882u16.to_le_bytes());
        }
        entry[0x14..0x16].copy_from_slice(&((first >> 16) as u16).to_le_bytes());
        entry[0x1A..0x1C].copy_from_slice(&(first as u16).to_le_bytes());
        entry[0x1C..0x20].copy_from_slice(&size.to_le_bytes());
        self.put(places[next], &entry);
    }

    /// The entries of the directory that starts at `first`.
    fn entries(&self, first: u32, path: &str) -> Result<Vec<Raw>, String> {
        let layout = self.layout();
        let mut found = Vec::new();
        let mut units: Vec<u16> = Vec::new();
        for cluster in self.chain(first)? {
            for n in 0..layout.cluster_bytes() / 32 {
                let at = layout.cluster_at(cluster) + 32 * n;
                let slot = self.get(at, 32);
                match (slot[0], slot[0x0B]) {
                    (0, _) => return Ok(found),
                    (0xE5, _) => units.clear(),
                    (_, 0x0F) => {
                        let mut piece: Vec<u16> = (0..13)
                            .map(|n| u16::from_le_bytes([slot[unit_at(n)], slot[unit_at(n) + 1]]))
                            .collect();
                        piece.extend(units.drain(..));
                        units = piece;
                    }
                    (_, attributes) if attributes & 0x08 != 0 => units.clear(),
                    (_, attributes) => {
                        let part = |range: std::ops::Range<usize>, lower: u8| {
                            let text: String = slot[range].iter().map(|b| *b as char).collect();
                            let text = text.trim_end().to_string();
                            if slot[0x0C] & lower != 0 { text.to_lowercase() } else { text }
                        };
                        let (base, extension) = (part(0..8, 0x08), part(8..11, 0x10));
                        let short = if extension.is_empty() {
                            base
                        } else {
                            format!("{base}.{extension}")
                        };
                        let long = if units.is_empty() {
                            None
                        } else {
                            let name: Vec<u16> =
                                units.drain(..).take_while(|unit| *unit != 0).collect();
                            Some(String::from_utf16_lossy(&name))
                        };
                        found.push(Raw {
                            path: format!("{path}/{}", long.as_ref().unwrap_or(&short)),
                            short,
                            long,
                            attributes,
                            first: (self.half(at + 0x14) << 16) | self.half(at + 0x1A),
                            size: self.word(at + 0x1C),
                            at,
                        });
                    }
                }
            }
        }
        Ok(found)
    }

    /// The entries of a directory of the root, or of the root itself.
    fn listing(&self, directory: &str) -> Vec<Raw> {
        let root = self.layout().root;
        let first = match directory {
            "" => root,
            name => {
                let found = self.entries(root, "").expect("the root");
                found.iter().find(|e| e.path == format!("/{name}")).expect("the directory").first
            }
        };
        self.entries(first, "").expect("the listing")
    }

    /// What a file of the volume holds.
    fn contents(&self, path: &str) -> Option<Vec<u8>> {
        let layout = self.layout();
        let mut first = layout.root;
        let mut size = 0;
        for part in path.trim_start_matches('/').split('/') {
            let found = self.entries(first, "").ok()?;
            let entry = found.into_iter().find(|e| e.path == format!("/{part}"))?;
            first = entry.first;
            size = entry.size as usize;
        }
        if size == 0 {
            return Some(Vec::new());
        }
        let mut bytes = Vec::new();
        for cluster in self.chain(first).ok()? {
            bytes.extend(self.get(layout.cluster_at(cluster), layout.cluster_bytes()));
        }
        bytes.truncate(size);
        Some(bytes)
    }

    /// What is wrong with the volume: first what loses or shares data, then
    /// what only wastes space or was not finished.
    fn faults(&self) -> (Vec<String>, Vec<String>) {
        let layout = self.layout();
        let mut damage = Vec::new();
        let mut waste = Vec::new();
        let mut owned: BTreeMap<u32, String> = BTreeMap::new();
        let mut directories = vec![(layout.root, String::new())];
        for cluster in self.chain(layout.root).unwrap_or_default() {
            owned.insert(cluster, "/".to_string());
        }
        while let Some((first, path)) = directories.pop() {
            let entries = match self.entries(first, &path) {
                Ok(entries) => entries,
                Err(problem) => {
                    damage.push(format!("{path}/: {problem}"));
                    continue;
                }
            };
            let mut names: Vec<String> = Vec::new();
            for entry in entries {
                if entry.short == "." || entry.short == ".." {
                    continue;
                }
                let key = entry.short.to_uppercase();
                if names.contains(&key) {
                    damage.push(format!("{}: duplicate directory entry", entry.path));
                }
                names.push(key);
                let chain = if entry.first == 0 {
                    Vec::new()
                } else {
                    match self.chain(entry.first) {
                        Ok(chain) => chain,
                        Err(problem) => {
                            damage.push(format!("{}: {problem}", entry.path));
                            continue;
                        }
                    }
                };
                for cluster in &chain {
                    if let Some(other) = owned.insert(*cluster, entry.path.clone()) {
                        damage.push(format!("{} and {other} share clusters", entry.path));
                    }
                }
                if entry.attributes & 0x10 != 0 {
                    directories.push((entry.first, entry.path.clone()));
                } else if (entry.size as usize).div_ceil(layout.cluster_bytes()) != chain.len() {
                    waste.push(format!("{}: length does not account for its chain", entry.path));
                }
            }
        }
        for cluster in 2..layout.cluster_count + 2 {
            if self.fat(cluster) != 0 && !owned.contains_key(&cluster) {
                waste.push(format!("cluster {cluster} belongs to nothing"));
            }
        }
        let table = layout.sectors_per_fat as usize * BLOCK_SIZE;
        let start = layout.fat_start as usize * BLOCK_SIZE;
        if self.get(start, table) != self.get(start + table, table) {
            waste.push("the copies of the table differ".to_string());
        }
        if self.byte(0x41) & 1 != 0 {
            waste.push("dirty bit is set".to_string());
        }
        (damage, waste)
    }

    fn is_dirty(&self) -> bool {
        self.byte(0x41) & 1 != 0
    }
}

fn assert_sound(image: &Image) {
    assert_eq!(image.faults(), (vec![], vec![]));
}

fn assert_no_corruption(image: &Image, what: &str) {
    assert_eq!(image.faults().0, Vec::<String>::new(), "{what}");
}

/// Where a slot keeps its character number `n`.
fn unit_at(n: usize) -> usize {
    match n {
        0..=4 => 1 + 2 * n,
        5..=10 => 14 + 2 * (n - 5),
        _ => 28 + 2 * (n - 11),
    }
}

/// Text of which every block spells its own index.
fn expected_content(bytes: usize) -> Vec<u8> {
    let mut out = Vec::with_capacity(bytes);
    let mut index = 0u64;
    while out.len() < bytes {
        let stamp = format!("block {index:08} ");
        let mut block = Vec::with_capacity(BLOCK_SIZE);
        while block.len() < BLOCK_SIZE {
            block.extend_from_slice(stamp.as_bytes());
        }
        block.truncate(BLOCK_SIZE);
        let wanted = (bytes - out.len()).min(BLOCK_SIZE);
        out.extend_from_slice(&block[..wanted]);
        index += 1;
    }
    out
}

// ---------------------------------------------------------------------------
// Devices
// ---------------------------------------------------------------------------

impl BlockDevice for Image {
    type Error = String;

    fn read(&mut self, start_block: u64, blocks: &mut [u8]) -> Result<(), String> {
        assert_eq!(blocks.len() % BLOCK_SIZE, 0);
        let count = (blocks.len() / BLOCK_SIZE) as u64;
        if start_block.checked_add(count).map_or(true, |end| end > self.blocks) {
            return Err(format!("read at {start_block} runs past the card"));
        }
        for (n, chunk) in blocks.chunks_exact_mut(BLOCK_SIZE).enumerate() {
            match self.held.get(&(start_block + n as u64)) {
                Some(block) => chunk.copy_from_slice(block),
                None => chunk.fill(0),
            }
        }
        Ok(())
    }

    fn write(&mut self, start_block: u64, blocks: &[u8]) -> Result<(), String> {
        assert_eq!(blocks.len() % BLOCK_SIZE, 0);
        let count = (blocks.len() / BLOCK_SIZE) as u64;
        if start_block.checked_add(count).map_or(true, |end| end > self.blocks) {
            return Err(format!("write at {start_block} runs past the card"));
        }
        for (n, chunk) in blocks.chunks_exact(BLOCK_SIZE).enumerate() {
            let block = self.held.entry(start_block + n as u64).or_insert([0; BLOCK_SIZE]);
            block.copy_from_slice(chunk);
        }
        Ok(())
    }

    fn block_count(&mut self) -> Result<Option<u64>, String> {
        Ok(Some(self.blocks))
    }

    fn max_transfer_blocks(&self) -> u64 {
        u64::MAX
    }
}

impl std::fmt::Debug for Image {
    fn fmt(&self, f: &mut std::fmt::Formatter<'_>) -> std::fmt::Result {
        f.debug_struct("Image").field("blocks", &self.blocks).finish_non_exhaustive()
    }
}

/// One call made of a device.
#[derive(Debug, Clone, Copy, PartialEq, Eq)]
struct Access {
    write: bool,
    start_block: u64,
    blocks: u64,
}

/// Notes every call made of the device under it.
#[derive(Debug)]
struct Recorder<D> {
    inner: D,
    accesses: Vec<Access>,
}

impl<D> Recorder<D> {
    fn new(inner: D) -> Self {
        Recorder { inner, accesses: Vec::new() }
    }

    fn reads(&self) -> Vec<Access> {
        self.accesses.iter().copied().filter(|a| !a.write).collect()
    }

    fn writes(&self) -> Vec<Access> {
        self.accesses.iter().copied().filter(|a| a.write).collect()
    }

    fn reset(&mut self) {
        self.accesses.clear();
    }
}

impl<D: BlockDevice> BlockDevice for Recorder<D> {
    type Error = D::Error;

    fn read(&mut self, start_block: u64, blocks: &mut [u8]) -> Result<(), D::Error> {
        let count = (blocks.len() / BLOCK_SIZE) as u64;
        self.accesses.push(Access { write: false, start_block, blocks: count });
        self.inner.read(start_block, blocks)
    }

    fn write(&mut self, start_block: u64, blocks: &[u8]) -> Result<(), D::Error> {
        let count = (blocks.len() / BLOCK_SIZE) as u64;
        self.accesses.push(Access { write: true, start_block, blocks: count });
        self.inner.write(start_block, blocks)
    }

    fn block_count(&mut self) -> Result<Option<u64>, D::Error> {
        self.inner.block_count()
    }

    fn max_transfer_blocks(&self) -> u64 {
        self.inner.max_transfer_blocks()
    }
}

/// Refuses transfers longer than `cap` blocks.
#[derive(Debug)]
struct Capped<D> {
    inner: D,
    cap: u64,
}

impl<D: BlockDevice> BlockDevice for Capped<D> {
    type Error = D::Error;

    fn read(&mut self, start_block: u64, blocks: &mut [u8]) -> Result<(), D::Error> {
        assert!((blocks.len() / BLOCK_SIZE) as u64 <= self.cap, "over the limit");
        self.inner.read(start_block, blocks)
    }

    fn write(&mut self, start_block: u64, blocks: &[u8]) -> Result<(), D::Error> {
        assert!((blocks.len() / BLOCK_SIZE) as u64 <= self.cap, "over the limit");
        self.inner.write(start_block, blocks)
    }

    fn block_count(&mut self) -> Result<Option<u64>, D::Error> {
        self.inner.block_count()
    }

    fn max_transfer_blocks(&self) -> u64 {
        self.cap
    }
}

/// A device that does not know how big it is.
#[derive(Debug)]
struct Reticent<D>(D);

impl<D: BlockDevice> BlockDevice for Reticent<D> {
    type Error = D::Error;

    fn read(&mut self, start_block: u64, blocks: &mut [u8]) -> Result<(), D::Error> {
        self.0.read(start_block, blocks)
    }

    fn write(&mut self, start_block: u64, blocks: &[u8]) -> Result<(), D::Error> {
        self.0.write(start_block, blocks)
    }

    fn block_count(&mut self) -> Result<Option<u64>, D::Error> {
        Ok(None)
    }

    fn max_transfer_blocks(&self) -> u64 {
        self.0.max_transfer_blocks()
    }
}

/// Fails every write after the first `left`.
#[derive(Debug)]
struct FailAfter<D> {
    inner: D,
    left: u32,
}

impl<D: BlockDevice<Error = String>> BlockDevice for FailAfter<D> {
    type Error = String;

    fn read(&mut self, start_block: u64, blocks: &mut [u8]) -> Result<(), String> {
        self.inner.read(start_block, blocks)
    }

    fn write(&mut self, start_block: u64, blocks: &[u8]) -> Result<(), String> {
        if self.left == 0 {
            return Err("injected write failure".to_string());
        }
        self.left -= 1;
        self.inner.write(start_block, blocks)
    }

    fn block_count(&mut self) -> Result<Option<u64>, String> {
        self.inner.block_count()
    }

    fn max_transfer_blocks(&self) -> u64 {
        self.inner.max_transfer_blocks()
    }
}

// ---------------------------------------------------------------------------
// The cards the tests read
// ---------------------------------------------------------------------------

/// A file as it was placed: its path, its length and its runs.
#[derive(Debug, Clone)]
struct Placed {
    path: String,
    size: usize,
    runs: Vec<(u32, u32)>,
}

impl Placed {
    fn first_cluster(&self) -> u32 {
        self.runs[0].0
    }
}

/// An image and what is on it.
struct Card {
    image: Image,
    next: u32,
    files: Vec<Placed>,
}

impl Card {
    fn new(megabytes: u64, cluster_kb: u32) -> Self {
        Card { image: Image::format(megabytes, cluster_kb), next: 3, files: Vec::new() }
    }

    fn cluster_bytes(&self) -> usize {
        self.image.layout().cluster_bytes()
    }

    fn take(&mut self, bytes: usize) -> Vec<u32> {
        let count = bytes.div_ceil(self.cluster_bytes()) as u32;
        let clusters = (self.next..self.next + count).collect();
        self.next += count;
        clusters
    }

    /// Puts a file on the card, in the clusters given.
    fn place_in(
        &mut self,
        parent: (&str, u32),
        short: &[u8; 11],
        flags: u8,
        long: Option<&str>,
        data: &[u8],
        clusters: &[u32],
    ) {
        self.image.fill(clusters, data);
        let first = clusters.first().copied().unwrap_or(0);
        self.image.enter(parent.1, short, flags, long, 0x20, first, data.len() as u32);
        let mut runs: Vec<(u32, u32)> = Vec::new();
        for cluster in clusters {
            match runs.last_mut() {
                Some((start, length)) if *start + *length == *cluster => *length += 1,
                _ => runs.push((*cluster, 1)),
            }
        }
        let name = match long {
            Some(long) => long.to_string(),
            None => {
                let text: String = short.iter().map(|b| *b as char).collect();
                format!("{}.{}", text[..8].trim_end(), text[8..].trim_end())
            }
        };
        self.files.push(Placed { path: format!("{}/{name}", parent.0), size: data.len(), runs });
    }

    fn place(
        &mut self,
        parent: (&str, u32),
        short: &[u8; 11],
        flags: u8,
        long: Option<&str>,
        data: &[u8],
    ) {
        let clusters = self.take(data.len());
        self.place_in(parent, short, flags, long, data, &clusters);
    }

    /// Makes a directory of the root, with room for `slots` entries.
    fn directory(&mut self, short: &[u8; 11], slots: usize) -> u32 {
        let clusters = self.take(slots * 32);
        self.image.fill(&clusters, &[]);
        self.image.enter(2, short, 0, None, 0x10, clusters[0], 0);
        self.image.enter(clusters[0], b".          ", 0, None, 0x10, clusters[0], 0);
        self.image.enter(clusters[0], b"..         ", 0, None, 0x10, 0, 0);
        clusters[0]
    }

    fn file(&self, path: &str) -> &Placed {
        self.files.iter().find(|f| f.path == path).expect("a file that was placed")
    }
}

const BIG: usize = 1600 * 1024;

/// A card of ROMs: a large file in one piece, three hundred long names, and
/// the odd shapes an 8.3 name can take.
fn rom_card(megabytes: u64, cluster_kb: u32) -> Card {
    let mut card = Card::new(megabytes, cluster_kb);
    card.place(("", 2), b"BIG     BIN", 0, None, &expected_content(BIG));
    card.place(("", 2), b"HELLO   TXT", 0, None, b"resident-fat fixture\n");
    let roms = card.directory(b"ROMS       ", 1202);
    for n in 0..300 {
        let mut short = *b"G000~1  NES";
        short[1..4].copy_from_slice(format!("{n:03}").as_bytes());
        let long = format!("Game Title {n:03} (USA, Europe).nes");
        card.place(("/ROMS", roms), &short, 0, Some(&long), format!("rom {n:03}\n").as_bytes());
    }
    let edge = card.directory(b"EDGE       ", 32);
    card.place(("/EDGE", edge), b"UPPER   TXT", 0, None, b"u");
    card.place(("/EDGE", edge), b"LOWER   TXT", 0x18, None, b"l");
    card.place(("/EDGE", edge), b"HALF    TXT", 0x08, None, b"h");
    card.place(("/EDGE", edge), b"MIXEDC~1TXT", 0, Some("MixedCase.txt"), b"m");
    card.place(("/EDGE", edge), b"README     ", 0, None, b"r");
    card.place(("/EDGE", edge), b"EXACTL~1BIN", 0, Some("exactly13.bin"), b"e");
    card
}

/// A small volume with one file in five pieces.
fn fragmented_card() -> Card {
    let mut card = Card::new(16, 4);
    for n in 0..110u32 {
        let mut short = *b"F000    BIN";
        short[1..4].copy_from_slice(format!("{n:03}").as_bytes());
        card.place(("", 2), &short, 0, None, b"small");
    }
    let clusters = [300, 301, 302, 310, 311, 200, 400, 401, 402, 403, 130];
    card.place_in(("", 2), b"FRAG    BIN", 0, None, &expected_content(43_000), &clusters);
    card
}

/// A FAT12 or FAT16 boot sector, on an otherwise empty card.
fn small_format(sectors: u16, per_cluster: u8, per_fat: u16) -> Image {
    let mut image = Image::blank(u64::from(sectors));
    let mut boot = [0u8; BLOCK_SIZE];
    boot[..3].copy_from_slice(&[0xEB, 0x3C, 0x90]);
    boot[0x0B..0x0D].copy_from_slice(&512u16.to_le_bytes());
    boot[0x0D] = per_cluster;
    boot[0x0E..0x10].copy_from_slice(&1u16.to_le_bytes());
    boot[0x10] = 2;
    boot[0x11..0x13].copy_from_slice(&512u16.to_le_bytes());
    boot[0x13..0x15].copy_from_slice(&sectors.to_le_bytes());
    boot[0x15] = 0xF8;
    boot[0x16..0x18].copy_from_slice(&per_fat.to_le_bytes());
    for byte in &mut boot[0x24..0x1FE] {
        *byte = 0x42;
    }
    boot[0x1FE] = 0x55;
    boot[0x1FF] = 0xAA;
    image.put(0, &boot);
    image
}

fn fat12() -> Image {
    small_format(2880, 1, 9)
}

fn fat16() -> Image {
    small_format(65_000, 4, 64)
}

const PARTITION_START: u64 = 8192;

/// A partitioned card, with a volume in its first partition.
fn partitioned_card() -> Image {
    let card = rom_card(512, 4);
    let mut image = Image::blank(PARTITION_START + card.image.blocks);
    for (block, bytes) in &card.image.held {
        image.held.insert(block + PARTITION_START, *bytes);
    }
    let mut table = [0u8; BLOCK_SIZE];
    table[0x1BE] = 0x80;
    table[0x1BE + 4] = 0x0C;
    table[0x1BE + 8..0x1BE + 12].copy_from_slice(&(PARTITION_START as u32).to_le_bytes());
    table[0x1BE + 12..0x1BE + 16].copy_from_slice(&(card.image.blocks as u32).to_le_bytes());
    table[0x1FE] = 0x55;
    table[0x1FF] = 0xAA;
    image.put(0, &table);
    image
}

/// The volume in the first partition, on a card of its own.
fn extracted(image: &Image) -> Image {
    let mut bare = Image::blank(image.blocks - PARTITION_START);
    for (block, bytes) in &image.held {
        if *block >= PARTITION_START {
            bare.held.insert(block - PARTITION_START, *bytes);
        }
    }
    bare
}

fn outcome<T, E: std::fmt::Debug>(result: Result<T, Error<E>>) -> Result<(), Error<E>> {
    result.map(|_| ())
}

// ---------------------------------------------------------------------------
// Mounting
// ---------------------------------------------------------------------------

/// The cluster sizes at which cluster arithmetic goes wrong, and the small
/// volume.
fn cards() -> Vec<Card> {
    vec![rom_card(272, 4), rom_card(1100, 16), rom_card(2100, 32), fragmented_card()]
}

#[test]
fn mounts_every_fat32_fixture() {
    for card in cards() {
        let layout = card.image.layout();
        let volume = FileSystem::mount(card.image).expect("mount");
        let boot = volume.boot_sector();
        assert_eq!(boot.cluster_bytes() as usize, layout.cluster_bytes());
        assert_eq!(boot.root_cluster, layout.root);
        assert_eq!(volume.fat().cluster_count(), layout.cluster_count);
        assert!(!volume.is_dirty(), "a freshly built volume is not dirty");
    }
}

#[test]
fn cluster_chains_match_the_manifest() {
    for card in cards() {
        assert!(card.files.len() > 100, "too few files to prove much");
        let volume = FileSystem::mount(card.image).expect("mount");
        for file in &card.files {
            let runs = volume.runs(file.first_cluster()).expect("walk");
            let found: Vec<(u32, u32)> =
                runs.iter().map(|run| (run.start_cluster, run.clusters)).collect();
            assert_eq!(found, file.runs, "{}", file.path);
        }
    }
}

#[test]
fn contiguity_is_what_the_fixtures_promise() {
    let card = rom_card(272, 4);
    let first = card.file("/BIG.BIN").first_cluster();
    let volume = FileSystem::mount(card.image).expect("mount");
    assert_eq!(volume.runs(first).expect("walk").len(), 1);

    let card = fragmented_card();
    let first = card.file("/FRAG.BIN").first_cluster();
    let volume = FileSystem::mount(card.image).expect("mount");
    assert!(volume.runs(first).expect("walk").len() > 1);
}

#[test]
fn a_contiguous_file_reads_in_one_device_call() {
    let card = rom_card(272, 4);
    let big = card.file("/BIG.BIN").clone();
    let cluster_bytes = card.cluster_bytes() as u32;

    let mut volume = FileSystem::mount(Recorder::new(card.image)).expect("mount");
    let runs = volume.runs(big.first_cluster()).expect("walk");
    assert_eq!(runs.len(), 1);

    let mut data = vec![0u8; runs[0].bytes(cluster_bytes) as usize];
    volume.device_mut().reset();
    volume.read_run(&runs[0], &mut data).expect("read the run");

    let reads = volume.device_mut().reads();
    assert_eq!(reads.len(), 1, "a contiguous file should cost one call: {reads:?}");
    assert_eq!(reads[0].blocks, data.len() as u64 / BLOCK_SIZE as u64);

    data.truncate(big.size);
    assert_eq!(data, expected_content(big.size), "BIG.BIN read back wrong");
}

#[test]
fn a_fragmented_file_costs_one_call_per_run() {
    let card = fragmented_card();
    let frag = card.file("/FRAG.BIN").clone();

    let mut volume = FileSystem::mount(Recorder::new(card.image)).expect("mount");
    let runs = volume.runs(frag.first_cluster()).expect("walk");
    assert_eq!(runs.len(), frag.runs.len());

    volume.device_mut().reset();
    let data = volume.read_chain(frag.first_cluster()).expect("read the chain");
    assert_eq!(volume.device_mut().reads().len(), frag.runs.len());
    assert_eq!(&data[..frag.size], expected_content(frag.size));
}

#[test]
fn the_table_loads_in_a_few_large_reads() {
    let card = rom_card(2100, 32);
    let volume = FileSystem::mount(Recorder::new(card.image)).expect("mount");

    let reads = volume.device().reads();
    assert!(reads.len() <= 8, "mount should be a handful of reads: {reads:?}");
    let table_blocks: u64 = reads.iter().filter(|r| r.blocks > 1).map(|r| r.blocks).sum();
    assert!(table_blocks > 0, "the table should move many blocks a call: {reads:?}");
}

#[test]
fn other_fat_formats_are_refused_by_name() {
    for (image, expected) in [(fat12(), Format::Fat12), (fat16(), Format::Fat16)] {
        match outcome(FileSystem::mount(image)) {
            Err(Error::Boot(BootError::UnsupportedFormat(format))) => assert_eq!(format, expected),
            other => panic!("expected UnsupportedFormat, got {other:?}"),
        }
    }
}

#[test]
fn a_small_format_with_an_impossible_cluster_count_is_refused_not_asserted() {
    let mut image = fat16();
    image.put(0x16, &1u16.to_le_bytes());
    image.put(0x0D, &[1]);
    image.put(0x13, &0u16.to_le_bytes());
    image.put(0x20, &0x4000_0000u32.to_le_bytes());

    match outcome(FileSystem::mount(image)) {
        Err(Error::Boot(BootError::BadGeometry(Geometry::ClusterCount(clusters)))) => {
            assert!(clusters > 65524, "got {clusters}")
        }
        other => panic!("expected BadGeometry(ClusterCount), got {other:?}"),
    }
}

#[test]
fn a_small_volume_is_still_fat32_if_its_structure_says_so() {
    let card = fragmented_card();
    assert!(card.image.layout().cluster_count < 4085);
    assert!(FileSystem::mount(card.image).is_ok());
}

#[test]
fn a_volume_without_a_boot_signature_is_refused() {
    let mut image = fragmented_card().image;
    image.put(0x1FE, &[0, 0]);
    match outcome(FileSystem::mount(image)) {
        Err(Error::Boot(BootError::NotFat)) => {}
        other => panic!("expected NotFat, got {other:?}"),
    }
}

#[test]
fn a_short_block_is_refused_rather_than_indexed() {
    let whole = fragmented_card().image.get(0, BLOCK_SIZE);
    for len in [0usize, 1, 11, 0x1FE, BLOCK_SIZE - 1] {
        match BootSector::parse(&whole[..len]) {
            Err(BootError::ShortBlock { len: reported }) => assert_eq!(reported, len),
            other => panic!("a {len}-byte block should be refused, got {other:?}"),
        }
    }
    let boot = BootSector::parse(&whole[..BLOCK_SIZE]).expect("a whole sector parses");
    assert_eq!(FsInfo::parse(&whole[..7], &boot), FsInfo::default());
}

#[test]
fn a_cyclic_chain_errors_rather_than_hanging() {
    let mut card = fragmented_card();
    let start = card.file("/FRAG.BIN").first_cluster();
    card.image.set_fat(start, start);

    let volume = FileSystem::mount(card.image).expect("mount");
    match volume.runs(start) {
        Err(Error::Fat(FatError::ChainLoop { start: reported })) => assert_eq!(reported, start),
        other => panic!("expected ChainLoop, got {other:?}"),
    }
}

#[test]
fn a_cluster_past_the_end_is_rejected() {
    let mut card = fragmented_card();
    let start = card.file("/FRAG.BIN").first_cluster();
    let past_the_end = card.image.layout().cluster_count + 100;
    card.image.set_fat(start, past_the_end);

    let volume = FileSystem::mount(card.image).expect("mount");
    match volume.runs(start) {
        Err(Error::Fat(FatError::BadCluster { cluster })) => assert_eq!(cluster, past_the_end),
        other => panic!("expected BadCluster, got {other:?}"),
    }
}

#[test]
fn a_run_ending_past_the_volume_is_refused() {
    let mut volume = FileSystem::mount(rom_card(272, 4).image).expect("mount");
    let cluster_bytes = volume.boot_sector().cluster_bytes();
    let last_valid = volume.fat().cluster_count() + 1;

    for clusters in [8u32, u32::MAX] {
        let run = Run { file_cluster: 0, start_cluster: last_valid, clusters };
        match volume.read_run(&run, &mut []) {
            Err(Error::Fat(FatError::BadCluster { .. })) => {}
            other => panic!("{clusters} clusters: expected BadCluster, got {other:?}"),
        }
    }

    let run = Run { file_cluster: 0, start_cluster: last_valid, clusters: 1 };
    let mut buffer = vec![0u8; run.bytes(cluster_bytes) as usize];
    volume.read_run(&run, &mut buffer).expect("the last cluster is readable");
}

#[test]
fn a_free_cluster_inside_a_chain_is_corruption() {
    let mut card = fragmented_card();
    let start = card.file("/FRAG.BIN").first_cluster();
    card.image.set_fat(start, 0);

    let volume = FileSystem::mount(card.image).expect("mount");
    match volume.runs(start) {
        Err(Error::Fat(FatError::FreeClusterInChain { start: s, cluster })) => {
            assert_eq!(s, start);
            assert_eq!(cluster, start);
        }
        other => panic!("expected FreeClusterInChain, got {other:?}"),
    }
}

#[test]
fn a_cluster_count_beyond_the_table_is_clamped() {
    let mut image = fragmented_card().image;
    let honest = BootSector::parse(&image.get(0, BLOCK_SIZE)).expect("parse");
    let inflated = honest.total_sectors * 8;
    image.put(0x13, &0u16.to_le_bytes());
    image.put(0x20, &inflated.to_le_bytes());

    let boot = BootSector::parse(&image.get(0, BLOCK_SIZE)).expect("parse");
    let addressable = boot.sectors_per_fat * (u32::from(boot.bytes_per_sector) / 4) - 2;
    assert_eq!(boot.cluster_count, addressable);
    assert!(
        boot.cluster_count < (inflated - boot.data_start) / u32::from(boot.sectors_per_cluster),
        "the clamp should have bitten"
    );
}

fn oversized() -> Image {
    let mut image = fragmented_card().image;
    image.put(0x13, &0u16.to_le_bytes());
    image.put(0x20, &0x00FF_FFFFu32.to_le_bytes());
    image
}

#[test]
fn a_volume_larger_than_its_device_is_refused() {
    match outcome(FileSystem::mount(oversized())) {
        Err(Error::Boot(BootError::BadGeometry(Geometry::VolumeTooLarge { .. }))) => {}
        other => panic!("expected VolumeTooLarge, got {other:?}"),
    }
}

#[test]
fn a_device_that_cannot_report_its_size_still_mounts() {
    let card = rom_card(272, 4);
    let expected = card.image.layout().cluster_count;
    let mut volume = FileSystem::mount(Reticent(card.image)).expect("mount");

    assert_eq!(volume.fat().cluster_count(), expected);
    let file = volume.open("/BIG.BIN").expect("open");
    assert_eq!(file.len() as usize, BIG);
    assert_eq!(volume.read_all(&file).expect("read"), expected_content(BIG));
    let root = volume.root_dir().expect("root");
    for name in ["BIG.BIN", "HELLO.TXT", "ROMS", "EDGE"] {
        assert!(root.get(name).is_some(), "{name} is missing from the root");
    }
}

#[test]
fn an_unknown_size_does_not_disable_the_check_for_known_ones() {
    let image = oversized();
    match outcome(FileSystem::mount(image.clone())) {
        Err(Error::Boot(BootError::BadGeometry(Geometry::VolumeTooLarge { .. }))) => {}
        other => panic!("expected VolumeTooLarge, got {other:?}"),
    }
    assert!(FileSystem::mount(Reticent(image)).is_ok());
}

#[test]
fn nonsensical_geometry_is_refused_field_by_field() {
    let cases: [(usize, &[u8], Geometry); 4] = [
        (0x0B, &[0x00, 0x03], Geometry::SectorSize(768)),
        (0x0D, &[3], Geometry::SectorsPerCluster(3)),
        (0x0E, &[0, 0], Geometry::ReservedSectors(0)),
        (0x10, &[0], Geometry::FatCount(0)),
    ];
    for (offset, bytes, expected) in cases {
        let mut image = fragmented_card().image;
        image.put(offset, bytes);
        match outcome(FileSystem::mount(image)) {
            Err(Error::Boot(BootError::BadGeometry(problem))) => assert_eq!(problem, expected),
            other => panic!("{expected:?}: expected BadGeometry, got {other:?}"),
        }
    }
}

#[test]
fn a_sector_size_other_than_512_is_refused() {
    for size in [1024u16, 2048, 4096] {
        let mut image = fragmented_card().image;
        image.put(0x0B, &size.to_le_bytes());
        match outcome(FileSystem::mount(image)) {
            Err(Error::Boot(BootError::BadGeometry(Geometry::SectorSize(reported)))) => {
                assert_eq!(reported, size)
            }
            other => panic!("{size}-byte sectors should be refused, got {other:?}"),
        }
    }
}

#[test]
fn a_mis_sized_buffer_is_reported_rather_than_asserted() {
    let card = rom_card(272, 4);
    let cluster_bytes = card.cluster_bytes() as u32;
    let first = card.file("/BIG.BIN").first_cluster();
    let mut volume = FileSystem::mount(card.image).expect("mount");

    let runs = volume.runs(first).expect("walk");
    let exact = runs[0].bytes(cluster_bytes) as usize;
    for len in [exact - 1, exact + 1] {
        let mut wrong = vec![0u8; len];
        match volume.read_run(&runs[0], &mut wrong) {
            Err(Error::BufferLength { expected, actual }) => {
                assert_eq!(expected as usize, exact);
                assert_eq!(actual, len);
            }
            other => panic!("expected BufferLength, got {other:?}"),
        }
    }
    let mut right = vec![0u8; exact];
    volume.read_run(&runs[0], &mut right).expect("exact length");
}

// ---------------------------------------------------------------------------
// Partitions
// ---------------------------------------------------------------------------

#[test]
fn a_partitioned_volume_mounts_at_its_offset() {
    let mut volume =
        FileSystem::mount_at(partitioned_card(), PARTITION_START).expect("mount at the offset");

    let file = volume.open("/BIG.BIN").expect("open BIG.BIN");
    let expected = expected_content(1600 * 1024);
    assert_eq!(file.len() as usize, expected.len());
    assert_eq!(volume.read_all(&file).expect("read"), expected);

    let hello = volume.open("/HELLO.TXT").expect("open HELLO.TXT");
    assert_eq!(volume.read_all(&hello).expect("read"), b"resident-fat fixture\n");

    let names: Vec<String> =
        volume.root_dir().expect("root").iter().map(|entry| entry.name().to_owned()).collect();
    assert!(names.iter().any(|name| name == "BIG.BIN"), "{names:?}");
}

#[test]
fn mounting_a_partitioned_card_at_zero_is_refused() {
    match outcome(FileSystem::mount(partitioned_card())) {
        Err(Error::Boot(BootError::NotFat | BootError::BadGeometry(_))) => {}
        other => panic!("expected a refusal, got {other:?}"),
    }
}

#[test]
fn an_offset_volume_agrees_with_the_same_volume_extracted() {
    let image = partitioned_card();
    let mut bare = FileSystem::mount(extracted(&image)).expect("mount");
    let mut offset = FileSystem::mount_at(image, PARTITION_START).expect("mount at offset");

    assert_eq!(offset.boot_sector(), bare.boot_sector());
    assert_eq!(offset.fat().cluster_count(), bare.fat().cluster_count());
    for path in ["/BIG.BIN", "/HELLO.TXT"] {
        let a = offset.open(path).expect("open through the offset");
        let b = bare.open(path).expect("open bare");
        assert_eq!(a.first_cluster(), b.first_cluster(), "{path}");
        assert_eq!(offset.read_all(&a).expect("read"), bare.read_all(&b).expect("read"));
    }
    let big = offset.open("/BIG.BIN").expect("open");
    assert_eq!(
        offset.runs(big.first_cluster()).expect("runs"),
        bare.runs(big.first_cluster()).expect("runs")
    );
}

#[test]
fn writing_through_an_offset_stays_inside_the_partition() {
    let before = partitioned_card();
    let payload = expected_content(300_000);
    let mut volume = FileSystem::mount_at(before.clone(), PARTITION_START).expect("mount");
    volume.write_file("/NEW.BIN", &payload).expect("write");
    let after = volume.unmount().expect("unmount");

    let outside = |image: &Image| -> Vec<(u64, [u8; BLOCK_SIZE])> {
        image.held.iter().filter(|(b, _)| **b < PARTITION_START).map(|(b, d)| (*b, *d)).collect()
    };
    assert_eq!(outside(&before), outside(&after), "the write reached outside the partition");

    let bare = extracted(&after);
    assert_sound(&bare);
    assert_eq!(bare.contents("/NEW.BIN"), Some(payload));
}

#[test]
fn the_partition_table_is_read() {
    let mut device = partitioned_card();
    let table = PartitionTable::read(&mut device).expect("read").expect("a partition table");

    assert_eq!(table.len(), 1);
    assert!(!table.is_empty());
    let partition = table.get(0).expect("slot 0 is in use");
    assert_eq!(partition.index, 0);
    assert_eq!(partition.first_block, PARTITION_START);
    assert_eq!(partition.blocks, 1_048_576);
    assert_eq!(partition.kind, 0x0C, "FAT32 with LBA addressing");
    assert!(partition.bootable);
    assert!(partition.is_fat());
    assert!(!partition.is_protective_gpt());

    assert_eq!(table.first_fat(), Some(partition));
    assert_eq!(table.iter(), vec![partition]);
    assert_eq!(table.get(1), None);
    assert_eq!(table.get(9), None, "an out-of-range slot is not a panic");
}

#[test]
fn a_partition_mounts_by_index() {
    let image = partitioned_card();
    let mut by_index = FileSystem::mount_partition(image.clone(), 0).expect("mount partition 0");
    let mut by_offset =
        FileSystem::mount_at(image.clone(), PARTITION_START).expect("mount at the offset");

    assert_eq!(by_index.boot_sector(), by_offset.boot_sector());
    let a = by_index.open("/BIG.BIN").expect("open");
    let b = by_offset.open("/BIG.BIN").expect("open");
    assert_eq!(by_index.read_all(&a).expect("read"), by_offset.read_all(&b).expect("read"));

    match outcome(FileSystem::mount_partition(image, 1)) {
        Err(Error::NoSuchPartition { index: 1 }) => {}
        other => panic!("expected NoSuchPartition, got {other:?}"),
    }
}

#[test]
fn a_bare_volume_is_not_mistaken_for_a_partition_table() {
    for mut image in [rom_card(272, 4).image, fragmented_card().image, fat16(), fat12()] {
        assert_eq!(PartitionTable::read(&mut image).expect("read"), None);
        match outcome(FileSystem::mount_partition(image, 0)) {
            Err(Error::NoPartitionTable) => {}
            other => panic!("expected NoPartitionTable, got {other:?}"),
        }
    }
}

#[test]
fn the_table_checks_are_each_load_bearing() {
    let good = partitioned_card().get(0, 512);
    assert!(PartitionTable::parse(&good).is_some());

    let mut no_signature = good.clone();
    no_signature[0x1FE] = 0;
    assert_eq!(PartitionTable::parse(&no_signature), None, "signature");

    let mut bad_status = good.clone();
    bad_status[0x1BE] = 0x42;
    assert_eq!(PartitionTable::parse(&bad_status), None, "status byte");

    let mut no_kind = good.clone();
    no_kind[0x1BE + 4] = 0;
    assert_eq!(PartitionTable::parse(&no_kind), None, "partition type");

    let mut at_zero = good.clone();
    at_zero[0x1BE + 8..0x1BE + 12].copy_from_slice(&0u32.to_le_bytes());
    assert_eq!(PartitionTable::parse(&at_zero), None, "first block");

    let mut empty = good.clone();
    empty[0x1BE + 12..0x1BE + 16].copy_from_slice(&0u32.to_le_bytes());
    assert_eq!(PartitionTable::parse(&empty), None, "length");
}

#[test]
fn a_protective_gpt_table_is_declined() {
    let mut image = partitioned_card();
    image.put(0x1BE + 4, &[0xEE]);
    image.put(0x1BE + 8, &1u32.to_le_bytes());

    let table = PartitionTable::parse(&image.get(0, 512)).expect("it is still a table");
    let entry = table.get(0).expect("slot 0");
    assert!(entry.is_protective_gpt());
    assert!(!entry.is_fat());

    match outcome(FileSystem::mount_partition(image, 0)) {
        Err(Error::NoPartitionTable) => {}
        other => panic!("expected NoPartitionTable, got {other:?}"),
    }
}

#[test]
fn a_volume_overflowing_its_partition_is_refused() {
    let mut image = partitioned_card();
    let boot = PARTITION_START as usize * 512;
    image.put(boot + 0x13, &0u16.to_le_bytes());
    image.put(boot + 0x20, &0x00FF_FFFFu32.to_le_bytes());

    match outcome(FileSystem::mount_partition(Reticent(image), 0)) {
        Err(Error::Boot(BootError::BadGeometry(Geometry::VolumeTooLarge { .. }))) => {}
        other => panic!("expected VolumeTooLarge, got {other:?}"),
    }
}

// ---------------------------------------------------------------------------
// Directories
// ---------------------------------------------------------------------------

type Names = BTreeMap<String, Option<String>>;

fn names_on(image: &Image, directory: &str) -> Names {
    image
        .listing(directory)
        .into_iter()
        .filter(|e| e.short != "." && e.short != "..")
        .map(|e| (e.short.to_uppercase(), e.long))
        .collect()
}

fn names_of(directory: &Directory) -> Names {
    directory
        .iter()
        .filter(|e| {
            let short = e.short_name().to_display_string();
            short != "." && short != ".."
        })
        .map(|e| {
            (
                e.short_name().to_display_string().to_uppercase(),
                e.long_name().map(str::to_owned),
            )
        })
        .collect()
}

#[test]
fn three_hundred_long_names_match_mdir() {
    let card = rom_card(272, 4);
    let expected = names_on(&card.image, "ROMS");
    assert_eq!(expected.len(), 300);

    let mut volume = FileSystem::mount(card.image).expect("mount");
    assert_eq!(names_of(volume.open_dir("/ROMS").expect("open /ROMS")), expected);
}

#[test]
fn short_name_edge_cases_match_mdir() {
    let card = rom_card(272, 4);
    let expected = names_on(&card.image, "EDGE");

    let mut volume = FileSystem::mount(card.image).expect("mount");
    let found = names_of(volume.open_dir("/EDGE").expect("open /EDGE"));
    assert_eq!(found, expected);
    assert_eq!(found.get("UPPER.TXT"), Some(&None), "a plain 8.3 name needs no long name");
    assert_eq!(found.get("LOWER.TXT"), Some(&None), "nor does a lower-case one");
}

#[test]
fn case_flags_are_applied_to_short_names() {
    let mut volume = FileSystem::mount(rom_card(272, 4).image).expect("mount");
    let directory = volume.open_dir("/EDGE").expect("open /EDGE");

    let entry = directory.get("lower.txt").expect("lower.txt should be found");
    assert_eq!(entry.long_name(), None, "it needs no long name");
    assert_eq!(entry.name(), "lower.txt", "the stored case should be applied");
    assert_eq!(directory.get("HALF.TXT").expect("half.TXT").name(), "half.TXT");
}

#[test]
fn lookup_accepts_either_name_in_any_case() {
    let mut volume = FileSystem::mount(rom_card(272, 4).image).expect("mount");
    let directory = volume.open_dir("/ROMS").expect("open /ROMS");

    let long = "Game Title 042 (USA, Europe).nes";
    let by_long = directory.get(long).expect("findable by long name");
    let by_lower = directory.get(&long.to_lowercase()).expect("findable case-insensitively");
    let by_short = directory
        .get(&by_long.short_name().to_display_string())
        .expect("findable by 8.3 alias");

    assert_eq!(by_long.name(), long);
    assert_eq!(by_lower.name(), long);
    assert_eq!(by_short.name(), long);
}

#[test]
fn a_second_enumeration_touches_no_device() {
    let mut volume = FileSystem::mount(Recorder::new(rom_card(272, 4).image)).expect("mount");

    volume.device_mut().reset();
    let first = volume.open_dir("/ROMS").expect("open").len();
    let reads = volume.device_mut().reads().len();
    assert!(reads <= 1 + 2, "about one transfer per run, not {reads}");

    volume.device_mut().reset();
    let second = volume.open_dir("/ROMS").expect("open again").len();
    assert_eq!(volume.device_mut().reads().len(), 0, "a second listing should read nothing");
    assert_eq!(first, second);
}

#[test]
fn enumeration_and_lookup_agree() {
    let mut volume = FileSystem::mount(rom_card(272, 4).image).expect("mount");
    let directory = volume.open_dir("/ROMS").expect("open");

    assert_eq!(directory.len(), 302);
    for entry in directory.iter() {
        let name = entry.name();
        let found = directory.get(name).expect("enumerated but not findable");
        assert_eq!(found.first_cluster(), entry.first_cluster(), "{name}");
    }
}

#[test]
fn paths_resolve() {
    let mut volume = FileSystem::mount(rom_card(272, 4).image).expect("mount");

    let by_absolute = volume.open_dir("/ROMS").expect("absolute").len();
    let by_relative = volume.open_dir("ROMS").expect("relative").len();
    let by_dot = volume.open_dir("./ROMS").expect("dotted").len();
    assert_eq!(by_absolute, by_relative);
    assert_eq!(by_absolute, by_dot);

    let root = volume.root_dir().expect("root").len();
    assert_eq!(volume.open_dir("/").expect("slash").len(), root);
}

#[test]
fn dot_dot_from_a_child_of_the_root_reaches_the_root() {
    let mut volume = FileSystem::mount(rom_card(272, 4).image).expect("mount");

    let root = volume.root_dir().expect("root").len();
    let up = volume.open_dir("/ROMS/..").expect("walk back up").len();
    assert_eq!(up, root, "`..` should reach the root, not cluster 0");
}

#[test]
fn bad_paths_say_what_was_wrong() {
    let mut volume = FileSystem::mount(rom_card(272, 4).image).expect("mount");

    match outcome(volume.open_dir("/NOPE")) {
        Err(Error::NotFound { name }) => assert_eq!(name, "NOPE"),
        other => panic!("expected NotFound, got {other:?}"),
    }
    match outcome(volume.open_dir("/HELLO.TXT")) {
        Err(Error::NotADirectory { name }) => assert_eq!(name, "HELLO.TXT"),
        other => panic!("expected NotADirectory, got {other:?}"),
    }
}

#[test]
fn the_volume_label_is_not_listed() {
    let mut volume = FileSystem::mount(rom_card(272, 4).image).expect("mount");
    let root = volume.root_dir().expect("root");

    assert!(root.iter().all(|e| !e.attributes().is_volume_id()), "the label was listed");
    assert!(root.get("SCRATCH").is_none(), "the label should not be findable as a file");
}

/// Three files with long names.
fn long_named() -> Image {
    let mut card = Card::new(16, 4);
    card.place(("", 2), b"FIRSTO~1TXT", 0, Some("first one.txt"), b"1");
    card.place(("", 2), b"MIDDLE~1TXT", 0, Some("middle one.txt"), b"2");
    card.place(("", 2), b"LASTON~1TXT", 0, Some("last one.txt"), b"3");
    assert_sound(&card.image);
    card.image
}

/// The long-name slots in front of `MIDDLE~1.TXT`.
fn middle_slots(image: &Image) -> Vec<usize> {
    let entries = image.listing("");
    let entry = entries.iter().find(|e| e.short == "MIDDLE~1.TXT").expect("the middle file");
    vec![entry.at - 2 * ENTRY_SIZE, entry.at - ENTRY_SIZE]
}

fn root_names(image: Image) -> Names {
    let mut volume = FileSystem::mount(image).expect("mount");
    names_of(volume.open_dir("/").expect("open"))
}

#[test]
fn a_damaged_long_name_run_does_not_poison_the_directory() {
    let intact = root_names(long_named());
    assert_eq!(intact.len(), 3);
    assert!(intact.values().all(|long| long.is_some()), "{intact:?}");

    let mut damaged = long_named();
    let slots = middle_slots(&damaged);
    let continuation =
        slots.into_iter().find(|at| damaged.byte(*at) & 0x40 == 0).expect("a second slot");
    damaged.put(continuation, &[0x09]);

    let after = root_names(damaged);
    assert_eq!(after.len(), intact.len(), "every file should still be listed: {after:?}");
    assert_eq!(after.get("MIDDLE~1.TXT"), Some(&None), "it should fall back to its 8.3 name");
    for (short, long) in &intact {
        if short != "MIDDLE~1.TXT" {
            assert_eq!(after.get(short), Some(long), "{short} lost its name too");
        }
    }
}

#[test]
fn a_checksum_mismatch_falls_back_to_the_short_name() {
    let mut image = long_named();
    for slot in middle_slots(&image) {
        let sum = image.byte(slot + 0x0D);
        image.put(slot + 0x0D, &[sum ^ 0xFF]);
    }

    let after = root_names(image);
    assert_eq!(after.len(), 3, "the file should still be listed");
    assert_eq!(after.get("MIDDLE~1.TXT"), Some(&None));
}

#[test]
fn an_entry_after_the_end_marker_is_reported() {
    let mut image = long_named();
    let root = image.layout().cluster_at(2);
    let end = (0..).map(|n| root + n * ENTRY_SIZE).find(|at| image.byte(*at) == 0).expect("end");
    let stray = end + 2 * ENTRY_SIZE;
    image.put(stray, b"STRAY   TXT");
    image.put(stray + 0x0B, &[0x20]);

    let mut volume = FileSystem::mount(image).expect("mount");
    match outcome(volume.root_dir()) {
        Err(Error::EntryAfterEnd { index }) => assert_eq!(index, (stray - root) / ENTRY_SIZE),
        other => panic!("expected EntryAfterEnd, got {other:?}"),
    }
}

// ---------------------------------------------------------------------------
// Files
// ---------------------------------------------------------------------------

#[test]
fn a_whole_contiguous_file_is_one_call() {
    let mut volume = FileSystem::mount(Recorder::new(rom_card(272, 4).image)).expect("mount");
    let file = volume.open("/BIG.BIN").expect("open BIG.BIN");
    assert_eq!(file.len() as usize, BIG);

    volume.device_mut().reset();
    let data = volume.read_all(&file).expect("read");
    let reads = volume.device_mut().reads();
    assert_eq!(reads.len(), 1, "expected one transfer, got {reads:?}");
    assert_eq!(data.len(), BIG);
    assert_eq!(data, expected_content(BIG), "content differs");
}

#[test]
fn a_fragmented_file_is_one_call_per_run() {
    let card = fragmented_card();
    let frag = card.file("/FRAG.BIN").clone();
    let mut volume = FileSystem::mount(Recorder::new(card.image)).expect("mount");
    let file = volume.open("/FRAG.BIN").expect("open FRAG.BIN");

    volume.device_mut().reset();
    let data = volume.read_all(&file).expect("read");
    assert_eq!(volume.device_mut().reads().len(), frag.runs.len());
    assert_eq!(data, expected_content(frag.size));
}

#[test]
fn an_aligned_read_is_a_single_direct_transfer() {
    let mut volume = FileSystem::mount(Recorder::new(rom_card(272, 4).image)).expect("mount");
    let file = volume.open("/BIG.BIN").expect("open");

    let offset = 4 * BLOCK_SIZE as u64;
    let mut buffer = vec![0u8; 16 * BLOCK_SIZE];
    volume.device_mut().reset();
    let read = volume.read_at(&file, offset, &mut buffer).expect("read");

    let reads = volume.device_mut().reads();
    assert_eq!(read, buffer.len());
    assert_eq!(reads.len(), 1, "an aligned read should be one call: {reads:?}");
    assert_eq!(reads[0].blocks, 16);
    let all = expected_content(offset as usize + buffer.len());
    assert_eq!(buffer, all[offset as usize..]);
}

#[test]
fn an_unaligned_read_uses_scratch_only_at_the_ends() {
    let mut volume = FileSystem::mount(Recorder::new(rom_card(272, 4).image)).expect("mount");
    let file = volume.open("/BIG.BIN").expect("open");

    let offset = 100u64;
    let mut buffer = vec![0u8; 5 * BLOCK_SIZE + 37];
    volume.device_mut().reset();
    volume.read_at(&file, offset, &mut buffer).expect("read");

    let reads = volume.device_mut().reads();
    assert_eq!(reads.len(), 3, "expected leading, middle, trailing: {reads:?}");
    assert_eq!(reads[0].blocks, 1);
    assert_eq!(reads[2].blocks, 1);
    assert!(reads[1].blocks >= 4, "the middle should carry the bulk of it: {reads:?}");
    let all = expected_content(offset as usize + buffer.len());
    assert_eq!(buffer, all[offset as usize..], "unaligned content differs");
}

#[test]
fn a_read_within_one_block_is_one_call() {
    let mut volume = FileSystem::mount(Recorder::new(rom_card(272, 4).image)).expect("mount");
    let file = volume.open("/BIG.BIN").expect("open");

    let mut buffer = [0u8; 20];
    volume.device_mut().reset();
    volume.read_at(&file, 30, &mut buffer).expect("read");
    assert_eq!(volume.device_mut().reads().len(), 1);
    assert_eq!(&buffer, &expected_content(50)[30..50]);
}

#[test]
fn a_device_transfer_limit_is_respected() {
    let device = Recorder::new(Capped { inner: rom_card(272, 4).image, cap: 8 });
    let mut volume = FileSystem::mount(device).expect("mount");
    let file = volume.open("/BIG.BIN").expect("open");

    volume.device_mut().reset();
    let data = volume.read_all(&file).expect("read");
    let reads = volume.device_mut().reads();
    assert!(reads.iter().all(|r| r.blocks <= 8), "a transfer exceeded the device's limit");
    let blocks = BIG.div_ceil(BLOCK_SIZE);
    assert_eq!(reads.len(), blocks.div_ceil(8), "the fewest calls the limit allows");
    assert_eq!(data, expected_content(BIG), "capped content differs");
}

#[test]
fn reads_stop_at_the_end_of_the_file() {
    let mut volume = FileSystem::mount(rom_card(272, 4).image).expect("mount");
    let file = volume.open("/HELLO.TXT").expect("open");
    let size = u64::from(file.len());

    let mut buffer = [0u8; 512];
    assert_eq!(volume.read_at(&file, size, &mut buffer).expect("read"), 0);
    assert_eq!(volume.read_at(&file, size + 99, &mut buffer).expect("read"), 0);
    assert_eq!(volume.read_at(&file, size - 3, &mut buffer).expect("read"), 3);

    let whole = volume.read_all(&file).expect("read all");
    assert_eq!(whole.len(), size as usize);
    assert_eq!(&buffer[..3], &whole[whole.len() - 3..]);
}

#[test]
fn reads_agree_however_they_are_split() {
    let card = fragmented_card();
    let frag = card.file("/FRAG.BIN").clone();
    let cluster = card.cluster_bytes() as u64;
    let size = frag.size as u64;
    let block = BLOCK_SIZE as u64;
    let mut volume = FileSystem::mount(card.image).expect("mount");
    let file = volume.open("/FRAG.BIN").expect("open");
    let whole = expected_content(frag.size);

    let offsets = [
        0,
        1,
        block - 1,
        block,
        block + 1,
        cluster - 1,
        cluster,
        cluster + 1,
        cluster * 2 + 17,
        size - 1,
    ];
    let lengths = [1usize, 7, BLOCK_SIZE - 1, BLOCK_SIZE, BLOCK_SIZE + 1, 5000];
    for offset in offsets {
        for length in lengths {
            let mut buffer = vec![0u8; length];
            let read = volume.read_at(&file, offset, &mut buffer).expect("read");
            let end = (offset as usize + length).min(whole.len());
            let wanted = &whole[offset as usize..end];
            assert_eq!(read, wanted.len(), "offset {offset}, length {length}: short");
            assert_eq!(&buffer[..read], wanted, "offset {offset}, length {length}");
        }
    }
}

#[test]
fn opening_a_directory_as_a_file_is_refused() {
    let mut volume = FileSystem::mount(rom_card(272, 4).image).expect("mount");
    match volume.open("/ROMS") {
        Err(Error::IsADirectory { name }) => assert_eq!(name, "ROMS"),
        other => panic!("expected IsADirectory, got {other:?}"),
    }
    match volume.open("/NOPE.BIN") {
        Err(Error::NotFound { name }) => assert_eq!(name, "NOPE.BIN"),
        other => panic!("expected NotFound, got {other:?}"),
    }
}

#[test]
fn files_open_by_long_name() {
    let mut volume = FileSystem::mount(rom_card(272, 4).image).expect("mount");
    let by_long =
        volume.open("/ROMS/Game Title 007 (USA, Europe).nes").expect("open by long name");
    assert_eq!(volume.read_all(&by_long).expect("read"), b"rom 007\n");
}

#[test]
fn a_length_longer_than_the_chain_is_reported() {
    let mut image = fragmented_card().image;
    let entries = image.listing("");
    let at = entries.iter().find(|e| e.short == "FRAG.BIN").expect("FRAG.BIN").at;
    image.put(at + 0x1C, &(1024u32 * 1024).to_le_bytes());

    let mut volume = FileSystem::mount(image).expect("mount");
    let file = volume.open("/FRAG.BIN").expect("open");
    match volume.read_all(&file) {
        Err(Error::Fat(FatError::ChainShorterThanFile { size, .. })) => {
            assert_eq!(size, 1024 * 1024)
        }
        other => panic!("expected ChainShorterThanFile, got {:?}", other.map(|d| d.len())),
    }
}

#[test]
fn timestamps_written_by_mtools_read_back() {
    let mut volume = FileSystem::mount(rom_card(272, 4).image).expect("mount");
    let modified = volume.root_dir().expect("root").get("BIG.BIN").expect("BIG.BIN").modified();
    assert_eq!((modified.year, modified.month, modified.day), (2026, 1, 2));
    assert_eq!((modified.hour, modified.minute), (3, 4));
    assert_eq!(modified.second, 4);
}

// ---------------------------------------------------------------------------
// The table and the codepage on their own
// ---------------------------------------------------------------------------

#[test]
fn the_table_answers_for_each_cluster() {
    let mut card = fragmented_card();
    card.image.set_fat(500, 0x0FFF_FFF7);
    card.image.set_fat(501, 1);
    let boot = BootSector::parse(&card.image.get(0, BLOCK_SIZE)).expect("parse");
    let fat = Fat::load(&mut card.image, &boot).expect("load");

    assert_eq!(fat.next(300), Ok(Some(301)));
    assert_eq!(fat.next(130), Ok(None), "the end of FRAG.BIN");
    assert_eq!(fat.chain_length(300), Ok(11));
    assert_eq!(fat.entry(301), Ok(302));
    assert_eq!(fat.entry(1), Err(FatError::BadCluster { cluster: 1 }));
    assert!(fat.is_valid_cluster(2));
    assert!(!fat.is_valid_cluster(0));
    assert!(!fat.has_unsynced_changes());
    // The root, 110 small files, FRAG.BIN's eleven, and two odd entries.
    assert_eq!(fat.free_clusters(), fat.cluster_count() - 1 - 110 - 11 - 2);
    match fat.runs(501) {
        Err(FatError::BadCluster { cluster: 1 }) => {}
        other => panic!("expected BadCluster, got {other:?}"),
    }
}

#[test]
fn a_codepage_names_what_ascii_cannot() {
    let mut decode: Vec<Option<char>> = (0..128u8).map(|b| Some(b as char)).collect();
    decode.resize(256, None);
    decode[0x8E] = Some('Ä');
    let page = Codepage::new(decode, vec![('Ä', 0x8E)]);
    assert_eq!(page.decode(0x8E), Some('Ä'));
    assert_eq!(page.encode('Ä'), Some(0x8E));
    assert_eq!(page.decode(0x90), None);

    let mut card = Card::new(16, 4);
    card.place(("", 2), b"\x8EPFEL   TXT", 0, None, b"apple");
    let mut volume = FileSystem::mount_with(card.image.clone(), 0, page).expect("mount");
    let file = volume.open("/äpfel.txt").expect("found in any case");
    assert_eq!(volume.read_all(&file).expect("read"), b"apple");
    let names: Vec<String> =
        volume.root_dir().expect("root").iter().map(|e| e.name().to_owned()).collect();
    assert_eq!(names, ["ÄPFEL.TXT"]);

    let mut plain = FileSystem::mount(card.image).expect("mount");
    assert!(plain.open("/äpfel.txt").is_err());
    assert_eq!(Codepage::ASCII().decode(0x8E), None);
    assert_eq!(Codepage::ASCII().encode('A'), Some(b'A'));
    assert_eq!(plain.codepage().encode('Ä'), None);
}

#[test]
fn the_time_fields_of_an_entry_are_read() {
    let mut volume = FileSystem::mount(rom_card(272, 4).image).expect("mount");
    let root = volume.root_dir().expect("root");
    let entry = root.get("HELLO.TXT").expect("HELLO.TXT");
    let stamp = DateTime::new(2026, 1, 2, 3, 4, 4, 0).expect("a real date");
    assert_eq!(entry.created(), stamp);
    assert_eq!(entry.modified(), stamp);
    assert_eq!(entry.accessed(), DateTime::new(2026, 1, 2, 0, 0, 0, 0).expect("a real date"));
    assert_eq!(entry.len(), 21);
    assert!(!entry.is_empty());
    assert_eq!(root.at(entry.index()).expect("by index").name(), "HELLO.TXT");
    assert_eq!(entry.first_slot(), entry.index());
}

#[test]
fn a_failing_device_is_reported_as_one() {
    let mut image = rom_card(272, 4).image;
    image.blocks = 1;
    match outcome(FileSystem::mount(Reticent(image))) {
        Err(Error::Device(problem)) => assert!(problem.contains("runs past the card")),
        other => panic!("expected a device error, got {other:?}"),
    }
}

#[test]
fn a_number_that_is_no_cluster_gives_a_sector_of_the_volume() {
    let card = rom_card(272, 4);
    let boot = BootSector::parse(&card.image.get(0, BLOCK_SIZE)).expect("boot sector");
    assert_eq!(boot.cluster_sector(2), boot.data_start);
    assert_eq!(boot.cluster_sector(3), boot.data_start + u32::from(boot.sectors_per_cluster));
    for cluster in [0, 1, boot.cluster_count + 2, u32::MAX] {
        assert!(!boot.is_valid_cluster(cluster));
        assert!(boot.cluster_sector(cluster) < boot.total_sectors);
    }
}

/// Answers every read with the same block.
struct Everywhere([u8; BLOCK_SIZE]);

impl BlockDevice for Everywhere {
    type Error = String;

    fn read(&mut self, _start_block: u64, blocks: &mut [u8]) -> Result<(), String> {
        for part in blocks.chunks_exact_mut(BLOCK_SIZE) {
            part.copy_from_slice(&self.0);
        }
        Ok(())
    }

    fn write(&mut self, _start_block: u64, _blocks: &[u8]) -> Result<(), String> {
        Err("read only".to_string())
    }

    fn block_count(&mut self) -> Result<Option<u64>, String> {
        Ok(None)
    }

    fn max_transfer_blocks(&self) -> u64 {
        u64::MAX
    }
}

#[test]
fn a_volume_past_the_last_block_number_is_too_large() {
    let card = rom_card(272, 4);
    match outcome(FileSystem::mount_at(card.image.clone(), u64::MAX)) {
        Err(Error::Device(problem)) => assert!(problem.contains("runs past the card")),
        other => panic!("expected a device error, got {other:?}"),
    }

    let mut block = [0u8; BLOCK_SIZE];
    block.copy_from_slice(&card.image.get(0, BLOCK_SIZE));
    let last = u64::MAX - card.image.blocks;
    assert!(FileSystem::mount_at(Everywhere(block), last).is_ok());
    match outcome(FileSystem::mount_at(Everywhere(block), last + 1)) {
        Err(Error::Boot(BootError::BadGeometry(Geometry::VolumeTooLarge {
            first_block,
            end: u64::MAX,
            bound: u64::MAX,
        }))) => assert_eq!(first_block, last + 1),
        other => panic!("expected VolumeTooLarge, got {other:?}"),
    }
}

#[test]
fn attributes_combine() {
    let both = Attributes::READ_ONLY() | Attributes::HIDDEN();
    assert_eq!(both.bits(), 0x03);
    assert!(both.contains(Attributes::HIDDEN()));
    assert!(!both.contains(Attributes::SYSTEM()));
    assert!(both.contains(Attributes::NONE()));
    let mut more = both;
    more |= Attributes::SYSTEM();
    assert!(!more.is_long_name());
    more |= Attributes::VOLUME_ID();
    assert!(more.is_long_name());
    assert_eq!(more, Attributes::LONG_NAME());
    more |= Attributes::DIRECTORY();
    assert!(!more.is_long_name());
    assert!(more.is_directory());
    assert_eq!(Attributes::from_bits(0x20), Attributes::ARCHIVE());
}

#[test]
fn an_exact_short_name_keeps_its_case_in_two_bits() {
    for (name, bytes, flags) in [
        ("GAME.NES", b"GAME    NES", 0x00),
        ("game.nes", b"GAME    NES", 0x18),
        ("GAME.nes", b"GAME    NES", 0x10),
        ("readme", b"README     ", 0x08),
    ] {
        let short = ShortName::from_8_3(name).expect("fits");
        assert_eq!(short.as_bytes(), bytes);
        assert_eq!(short.case_flags(), flags);
        assert_eq!(short.to_display_string(), name);
    }
    for name in ["Game.nes", "toolongname.txt", "a b", "", "x.", "two.dots.txt", "\u{e4}"] {
        assert!(ShortName::from_8_3(name).is_none(), "{name}");
    }
}
