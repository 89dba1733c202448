//! Changing volumes: writing, naming, removing, stamping, and what an
//! interruption leaves behind.
//!
//! What the library wrote is read back here without it, and held to what a
//! sound volume is.

#![allow(dead_code)]

use std::collections::BTreeMap;
use std::sync::atomic::{AtomicUsize, Ordering};
use std::sync::Arc;

use resident_fat::blockdev::{BlockDevice, BLOCK_SIZE};
use resident_fat::dir::ENTRY_SIZE;
use resident_fat::time::{Clock, DateTime, EpochClock, FnClock};
use resident_fat::{Error, FatError, File, FileSystem, Packed};

// ---------------------------------------------------------------------------
// Images, written and read without the library
// ---------------------------------------------------------------------------

/// A card held in memory, a block at a time. A block nothing wrote is zeros.
#[derive(Clone)]
struct Image {
    blocks: u64,
    held: BTreeMap<u64, [u8; BLOCK_SIZE]>,
}

/// Where the parts of a volume lie, in blocks.
#[derive(Clone, Copy, Debug)]
struct Layout {
    fat_start: u32,
    fat_count: u32,
    sectors_per_fat: u32,
    data_start: u32,
    sectors_per_cluster: u32,
    cluster_count: u32,
    root: u32,
}

impl Layout {
    fn cluster_bytes(&self) -> usize {
        self.sectors_per_cluster as usize * BLOCK_SIZE
    }

    fn cluster_at(&self, cluster: u32) -> usize {
        (self.data_start + (cluster - 2) * self.sectors_per_cluster) as usize * BLOCK_SIZE
    }

    fn is_valid(&self, cluster: u32) -> bool {
        cluster >= 2 && cluster < self.cluster_count + 2
    }
}

/// One entry of a directory, as its slots spell it.
#[derive(Clone, Debug, PartialEq)]
struct Raw {
    path: String,
    short: String,
    long: Option<String>,
    attributes: u8,
    first: u32,
    size: u32,
    at: usize,
}

impl Image {
    fn blank(blocks: u64) -> Self {
        Image { blocks, held: BTreeMap::new() }
    }

    /// A fresh FAT32 volume labelled `SCRATCH`.
    fn format(megabytes: u64, cluster_kb: u32) -> Self {
        let blocks = megabytes * 2048;
        let per_cluster = cluster_kb * 2;
        let reserved = 32u32;
        let clusters = (blocks as u32 - reserved) / per_cluster;
        let per_fat = ((clusters + 2) * 4).div_ceil(512);

        let mut image = Image::blank(blocks);
        let mut boot = [0u8; BLOCK_SIZE];
        boot[..3].copy_from_slice(&[0xEB, 0x58, 0x90]);
        boot[3..11].copy_from_slice(b"mkfs.fat");
        boot[0x0B..0x0D].copy_from_slice(&512u16.to_le_bytes());
        boot[0x0D] = per_cluster as u8;
        boot[0x0E..0x10].copy_from_slice(&(reserved as u16).to_le_bytes());
        boot[0x10] = 2;
        boot[0x15] = 0xF8;
        boot[0x20..0x24].copy_from_slice(&(blocks as u32).to_le_bytes());
        boot[0x24..0x28].copy_from_slice(&per_fat.to_le_bytes());
        boot[0x2C..0x30].copy_from_slice(&2u32.to_le_bytes());
        boot[0x30..0x32].copy_from_slice(&1u16.to_le_bytes());
        boot[0x32..0x34].copy_from_slice(&6u16.to_le_bytes());
        boot[0x40] = 0x80;
        boot[0x42] = 0x29;
        boot[0x43..0x47].copy_from_slice(&0x0BAD_CAFEu32.to_le_bytes());
        boot[0x47..0x52].copy_from_slice(b"SCRATCH    ");
        boot[0x52..0x5A].copy_from_slice(b"FAT32   ");
        // Boot code fills the space a partition table would take.
        for byte in &mut boot[0x5A..0x1FE] {
            *byte = 0x42;
        }
        boot[0x1FE] = 0x55;
        boot[0x1FF] = 0xAA;
        image.put(0, &boot);

        let mut hints = [0u8; BLOCK_SIZE];
        hints[..4].copy_from_slice(b"RRaA");
        hints[0x1E4..0x1E8].copy_from_slice(b"rrAa");
        let layout = image.layout();
        hints[0x1E8..0x1EC].copy_from_slice(&(layout.cluster_count - 1).to_le_bytes());
        hints[0x1EC..0x1F0].copy_from_slice(&2u32.to_le_bytes());
        hints[0x1FE] = 0x55;
        hints[0x1FF] = 0xAA;
        image.put(512, &hints);

        for (cluster, value) in [(0, 0x0FFF_FFF8), (1, 0x0FFF_FFFF), (2, 0x0FFF_FFFF)] {
            image.set_fat(cluster, value);
        }
        let mut label = [0u8; 32];
        label[..11].copy_from_slice(b"SCRATCH    ");
        label[0x0B] = 0x08;
        label[0x18..0x1A].copy_from_slice(&0x5C22u16.to_le_bytes());
        image.put(layout.cluster_at(2), &label);
        image
    }

    fn get(&self, at: usize, len: usize) -> Vec<u8> {
        (at..at + len)
            .map(|n| self.held.get(&((n / BLOCK_SIZE) as u64)).map_or(0, |b| b[n % BLOCK_SIZE]))
            .collect()
    }

    fn byte(&self, at: usize) -> u8 {
        self.get(at, 1)[0]
    }

    fn put(&mut self, at: usize, bytes: &[u8]) {
        for (n, byte) in bytes.iter().enumerate() {
            let place = at + n;
            let block = self.held.entry((place / BLOCK_SIZE) as u64).or_insert([0; BLOCK_SIZE]);
            block[place % BLOCK_SIZE] = *byte;
        }
    }

    fn word(&self, at: usize) -> u32 {
        let b = self.get(at, 4);
        u32::from_le_bytes([b[0], b[1], b[2], b[3]])
    }

    fn half(&self, at: usize) -> u32 {
        let b = self.get(at, 2);
        u32::from(u16::from_le_bytes([b[0], b[1]]))
    }

    /// The volume's layout, worked out from its boot sector.
    fn layout(&self) -> Layout {
        let sectors_per_cluster = u32::from(self.byte(0x0D));
        let fat_start = self.half(0x0E);
        let fat_count = u32::from(self.byte(0x10));
        let sectors_per_fat = self.word(0x24);
        let data_start = fat_start + fat_count * sectors_per_fat;
        Layout {
            fat_start,
            fat_count,
            sectors_per_fat,
            data_start,
            sectors_per_cluster,
            cluster_count: (self.word(0x20) - data_start) / sectors_per_cluster,
            root: self.word(0x2C),
        }
    }

    fn fat(&self, cluster: u32) -> u32 {
        let layout = self.layout();
        self.word(layout.fat_start as usize * BLOCK_SIZE + cluster as usize * 4) & 0x0FFF_FFFF
    }

    /// Writes an entry into every copy of the table.
    fn set_fat(&mut self, cluster: u32, value: u32) {
        let layout = self.layout();
        for copy in 0..layout.fat_count {
            let start = (layout.fat_start + copy * layout.sectors_per_fat) as usize * BLOCK_SIZE;
            self.put(start + cluster as usize * 4, &value.to_le_bytes());
        }
    }

    /// The clusters from `first` on, or what is wrong with them.
    fn chain(&self, first: u32) -> Result<Vec<u32>, String> {
        let layout = self.layout();
        let mut chain = Vec::new();
        let mut cluster = first;
        loop {
            if !layout.is_valid(cluster) {
                return Err(format!("cluster {cluster} is outside the volume"));
            }
            if chain.contains(&cluster) {
                return Err(format!("the chain from {first} loops"));
            }
            chain.push(cluster);
            match self.fat(cluster) {
                0 => return Err(format!("the chain from {first} holds a free cluster")),
                next if next >= 0x0FFF_FFF8 => return Ok(chain),
                next => cluster = next,
            }
        }
    }

    /// Links `clusters` and fills them with `data`.
    fn fill(&mut self, clusters: &[u32], data: &[u8]) {
        let layout = self.layout();
        for (n, cluster) in clusters.iter().enumerate() {
            let next = clusters.get(n + 1).copied().unwrap_or(0x0FFF_FFFF);
            self.set_fat(*cluster, next);
            let from = (n * layout.cluster_bytes()).min(data.len());
            let to = ((n + 1) * layout.cluster_bytes()).min(data.len());
            self.put(layout.cluster_at(*cluster), &data[from..to]);
        }
    }

    /// Adds an entry at the end of the directory that starts at `parent`.
    fn enter(
        &mut self,
        parent: u32,
        short: &[u8; 11],
        flags: u8,
        long: Option<&str>,
        attributes: u8,
        first: u32,
        size: u32,
    ) {
        let layout = self.layout();
        let per_cluster = layout.cluster_bytes() / 32;
        let chain = self.chain(parent).expect("the directory's chain");
        let places: Vec<usize> = (0..chain.len() * per_cluster)
            .map(|n| layout.cluster_at(chain[n / per_cluster]) + 32 * (n % per_cluster))
            .collect();
        let mut next = places.iter().position(|at| self.byte(*at) == 0).expect("room");

        if let Some(long) = long {
            let sum = short.iter().fold(0u8, |sum, b| sum.rotate_right(1).wrapping_add(*b));
            let units: Vec<u16> = long.encode_utf16().collect();
            let slots = units.len().div_ceil(13);
            for sequence in (1..=slots).rev() {
                let mut slot = [0u8; 32];
                slot[0] = sequence as u8 | if sequence == slots { 0x40 } else { 0 };
                slot[0x0B] = 0x0F;
                slot[0x0D] = sum;
                for n in 0..13 {
                    let index = (sequence - 1) * 13 + n;
                    let unit = match units.get(index) {
                        Some(unit) => *unit,
                        None if index == units.len() => 0,
                        None => 0xFFFF,
                    };
                    let at = unit_at(n);
                    slot[at..at + 2].copy_from_slice(&unit.to_le_bytes());
                }
                self.put(places[next], &slot);
                next += 1;
            }
        }

        let mut entry = [0u8; 32];
        entry[..11].copy_from_slice(short);
        entry[0x0B] = attributes;
        entry[0x0C] = flags;
        // 2026-01-02 03:04:04.
        for at in [0x10, 0x12, 0x18] {
            entry[at..at + 2].copy_from_slice(&0x5C22u16.to_le_bytes());
        }
        for at in [0x0E, 0x16] {
            entry[at..at + 2].copy_from_slice(&0x1882u16.to_le_bytes());
        }
        entry[0x14..0x16].copy_from_slice(&((first >> 16) as u16).to_le_bytes());
        entry[0x1A..0x1C].copy_from_slice(&(first as u16).to_le_bytes());
        entry[0x1C..0x20].copy_from_slice(&size.to_le_bytes());
        self.put(places[next], &entry);
    }

    /// The entries of the directory that starts at `first`.
    fn entries(&self, first: u32, path: &str) -> Result<Vec<Raw>, String> {
        let layout = self.layout();
        let mut found = Vec::new();
        let mut units: Vec<u16> = Vec::new();
        for cluster in self.chain(first)? {
            for n in 0..layout.cluster_bytes() / 32 {
                let at = layout.cluster_at(cluster) + 32 * n;
                let slot = self.get(at, 32);
                match (slot[0], slot[0x0B]) {
                    (0, _) => return Ok(found),
                    (0xE5, _) => units.clear(),
                    (_, 0x0F) => {
                        let mut piece: Vec<u16> = (0..13)
                            .map(|n| u16::from_le_bytes([slot[unit_at(n)], slot[unit_at(n) + 1]]))
                            .collect();
                        piece.extend(units.drain(..));
                        units = piece;
                    }
                    (_, attributes) if attributes & 0x08 != 0 => units.clear(),
                    (_, attributes) => {
                        let part = |range: std::ops::Range<usize>, lower: u8| {
                            let text: String = slot[range].iter().map(|b| *b as char).collect();
                            let text = text.trim_end().to_string();
                            if slot[0x0C] & lower != 0 { text.to_lowercase() } else { text }
                        };
                        let (base, extension) = (part(0..8, 0x08), part(8..11, 0x10));
                        let short = if extension.is_empty() {
                            base
                        } else {
                            format!("{base}.{extension}")
                        };
                        let long = if units.is_empty() {
                            None
                        } else {
                            let name: Vec<u16> =
                                units.drain(..).take_while(|unit| *unit != 0).collect();
                            Some(String::from_utf16_lossy(&name))
                        };
                        found.push(Raw {
                            path: format!("{path}/{}", long.as_ref().unwrap_or(&short)),
                            short,
                            long,
                            attributes,
                            first: (self.half(at + 0x14) << 16) | self.half(at + 0x1A),
                            size: self.word(at + 0x1C),
                            at,
                        });
                    }
                }
            }
        }
        Ok(found)
    }

    /// The entries of a directory of the root, or of the root itself.
    fn listing(&self, directory: &str) -> Vec<Raw> {
        let root = self.layout().root;
        let first = match directory {
            "" => root,
            name => {
                let found = self.entries(root, "").expect("the root");
                found.iter().find(|e| e.path == format!("/{name}")).expect("the directory").first
            }
        };
        self.entries(first, "").expect("the listing")
    }

    /// What a file of the volume holds.
    fn contents(&self, path: &str) -> Option<Vec<u8>> {
        let layout = self.layout();
        let mut first = layout.root;
        let mut size = 0;
        for part in path.trim_start_matches('/').split('/') {
            let found = self.entries(first, "").ok()?;
            let entry = found.into_iter().find(|e| e.path == format!("/{part}"))?;
            first = entry.first;
            size = entry.size as usize;
        }
        if size == 0 {
            return Some(Vec::new());
        }
        let mut bytes = Vec::new();
        for cluster in self.chain(first).ok()? {
            bytes.extend(self.get(layout.cluster_at(cluster), layout.cluster_bytes()));
        }
        bytes.truncate(size);
        Some(bytes)
    }

    /// What is wrong with the volume: first what loses or shares data, then
    /// what only wastes space or was not finished.
    fn faults(&self) -> (Vec<String>, Vec<String>) {
        let layout = self.layout();
        let mut damage = Vec::new();
        let mut waste = Vec::new();
        let mut owned: BTreeMap<u32, String> = BTreeMap::new();
        let mut directories = vec![(layout.root, String::new())];
        for cluster in self.chain(layout.root).unwrap_or_default() {
            owned.insert(cluster, "/".to_string());
        }
        while let Some((first, path)) = directories.pop() {
            let entries = match self.entries(first, &path) {
                Ok(entries) => entries,
                Err(problem) => {
                    damage.push(format!("{path}/: {problem}"));
                    continue;
                }
            };
            let mut names: Vec<String> = Vec::new();
            for entry in entries {
                if entry.short == "." || entry.short == ".." {
                    continue;
                }
                let key = entry.short.to_uppercase();
                if names.contains(&key) {
                    damage.push(format!("{}: duplicate directory entry", entry.path));
                }
                names.push(key);
                let chain = if entry.first == 0 {
                    Vec::new()
                } else {
                    match self.chain(entry.first) {
                        Ok(chain) => chain,
                        Err(problem) => {
                            damage.push(format!("{}: {problem}", entry.path));
                            continue;
                        }
                    }
                };
                for cluster in &chain {
                    if let Some(other) = owned.insert(*cluster, entry.path.clone()) {
                        damage.push(format!("{} and {other} share clusters", entry.path));
                    }
                }
                if entry.attributes & 0x10 != 0 {
                    directories.push((entry.first, entry.path.clone()));
                } else if (entry.size as usize).div_ceil(layout.cluster_bytes()) != chain.len() {
                    waste.push(format!("{}: length does not account for its chain", entry.path));
                }
            }
        }
        for cluster in 2..layout.cluster_count + 2 {
            if self.fat(cluster) != 0 && !owned.contains_key(&cluster) {
                waste.push(format!("cluster {cluster} belongs to nothing"));
            }
        }
        let table = layout.sectors_per_fat as usize * BLOCK_SIZE;
        let start = layout.fat_start as usize * BLOCK_SIZE;
        if self.get(start, table) != self.get(start + table, table) {
            waste.push("the copies of the table differ".to_string());
        }
        if self.byte(0x41) & 1 != 0 {
            waste.push("dirty bit is set".to_string());
        }
        (damage, waste)
    }

    fn is_dirty(&self) -> bool {
        self.byte(0x41) & 1 != 0
    }
}

fn assert_sound(image: &Image) {
    assert_eq!(image.faults(), (vec![], vec![]));
}

fn assert_no_corruption(image: &Image, what: &str) {
    assert_eq!(image.faults().0, Vec::<String>::new(), "{what}");
}

/// Where a slot keeps its character number `n`.
fn unit_at(n: usize) -> usize {
    match n {
        0..=4 => 1 + 2 * n,
        5..=10 => 14 + 2 * (n - 5),
        _ => 28 + 2 * (n - 11),
    }
}

/// Text of which every block spells its own index.
fn expected_content(bytes: usize) -> Vec<u8> {
    let mut out = Vec::with_capacity(bytes);
    let mut index = 0u64;
    while out.len() < bytes {
        let stamp = format!("block {index:08} ");
        let mut block = Vec::with_capacity(BLOCK_SIZE);
        while block.len() < BLOCK_SIZE {
            block.extend_from_slice(stamp.as_bytes());
        }
        block.truncate(BLOCK_SIZE);
        let wanted = (bytes - out.len()).min(BLOCK_SIZE);
        out.extend_from_slice(&block[..wanted]);
        index += 1;
    }
    out
}

// ---------------------------------------------------------------------------
// Devices
// ---------------------------------------------------------------------------

impl BlockDevice for Image {
    type Error = String;

    fn read(&mut self, start_block: u64, blocks: &mut [u8]) -> Result<(), String> {
        assert_eq!(blocks.len() % BLOCK_SIZE, 0);
        let count = (blocks.len() / BLOCK_SIZE) as u64;
        if start_block.checked_add(count).map_or(true, |end| end > self.blocks) {
            return Err(format!("read at {start_block} runs past the card"));
        }
        for (n, chunk) in blocks.chunks_exact_mut(BLOCK_SIZE).enumerate() {
            match self.held.get(&(start_block + n as u64)) {
                Some(block) => chunk.copy_from_slice(block),
                None => chunk.fill(0),
            }
        }
        Ok(())
    }

    fn write(&mut self, start_block: u64, blocks: &[u8]) -> Result<(), String> {
        assert_eq!(blocks.len() % BLOCK_SIZE, 0);
        let count = (blocks.len() / BLOCK_SIZE) as u64;
        if start_block.checked_add(count).map_or(true, |end| end > self.blocks) {
            return Err(format!("write at {start_block} runs past the card"));
        }
        for (n, chunk) in blocks.chunks_exact(BLOCK_SIZE).enumerate() {
            let block = self.held.entry(start_block + n as u64).or_insert([0; BLOCK_SIZE]);
            block.copy_from_slice(chunk);
        }
        Ok(())
    }

    fn block_count(&mut self) -> Result<Option<u64>, String> {
        Ok(Some(self.blocks))
    }

    fn max_transfer_blocks(&self) -> u64 {
        u64::MAX
    }
}

impl std::fmt::Debug for Image {
    fn fmt(&self, f: &mut std::fmt::Formatter<'_>) -> std::fmt::Result {
        f.debug_struct("Image").field("blocks", &self.blocks).finish_non_exhaustive()
    }
}

/// One call made of a device.
#[derive(Debug, Clone, Copy, PartialEq, Eq)]
struct Access {
    write: bool,
    start_block: u64,
    blocks: u64,
}

/// Notes every call made of the device under it.
#[derive(Debug)]
struct Recorder<D> {
    inner: D,
    accesses: Vec<Access>,
}

impl<D> Recorder<D> {
    fn new(inner: D) -> Self {
        Recorder { inner, accesses: Vec::new() }
    }

    fn reads(&self) -> Vec<Access> {
        self.accesses.iter().copied().filter(|a| !a.write).collect()
    }

    fn writes(&self) -> Vec<Access> {
        self.accesses.iter().copied().filter(|a| a.write).collect()
    }

    fn reset(&mut self) {
        self.accesses.clear();
    }
}

impl<D: BlockDevice> BlockDevice for Recorder<D> {
    type Error = D::Error;

    fn read(&mut self, start_block: u64, blocks: &mut [u8]) -> Result<(), D::Error> {
        let count = (blocks.len() / BLOCK_SIZE) as u64;
        self.accesses.push(Access { write: false, start_block, blocks: count });
        self.inner.read(start_block, blocks)
    }

    fn write(&mut self, start_block: u64, blocks: &[u8]) -> Result<(), D::Error> {
        let count = (blocks.len() / BLOCK_SIZE) as u64;
        self.accesses.push(Access { write: true, start_block, blocks: count });
        self.inner.write(start_block, blocks)
    }

    fn block_count(&mut self) -> Result<Option<u64>, D::Error> {
        self.inner.block_count()
    }

    fn max_transfer_blocks(&self) -> u64 {
        self.inner.max_transfer_blocks()
    }
}

/// Refuses transfers longer than `cap` blocks.
#[derive(Debug)]
struct Capped<D> {
    inner: D,
    cap: u64,
}

impl<D: BlockDevice> BlockDevice for Capped<D> {
    type Error = D::Error;

    fn read(&mut self, start_block: u64, blocks: &mut [u8]) -> Result<(), D::Error> {
        assert!((blocks.len() / BLOCK_SIZE) as u64 <= self.cap, "over the limit");
        self.inner.read(start_block, blocks)
    }

    fn write(&mut self, start_block: u64, blocks: &[u8]) -> Result<(), D::Error> {
        assert!((blocks.len() / BLOCK_SIZE) as u64 <= self.cap, "over the limit");
        self.inner.write(start_block, blocks)
    }

    fn block_count(&mut self) -> Result<Option<u64>, D::Error> {
        self.inner.block_count()
    }

    fn max_transfer_blocks(&self) -> u64 {
        self.cap
    }
}

/// A device that does not know how big it is.
#[derive(Debug)]
struct Reticent<D>(D);

impl<D: BlockDevice> BlockDevice for Reticent<D> {
    type Error = D::Error;

    fn read(&mut self, start_block: u64, blocks: &mut [u8]) -> Result<(), D::Error> {
        self.0.read(start_block, blocks)
    }

    fn write(&mut self, start_block: u64, blocks: &[u8]) -> Result<(), D::Error> {
        self.0.write(start_block, blocks)
    }

    fn block_count(&mut self) -> Result<Option<u64>, D::Error> {
        Ok(None)
    }

    fn max_transfer_blocks(&self) -> u64 {
        self.0.max_transfer_blocks()
    }
}

/// Fails every write after the first `left`.
#[derive(Debug)]
struct FailAfter<D> {
    inner: D,
    left: u32,
}

impl<D: BlockDevice<Error = String>> BlockDevice for FailAfter<D> {
    type Error = String;

    fn read(&mut self, start_block: u64, blocks: &mut [u8]) -> Result<(), String> {
        self.inner.read(start_block, blocks)
    }

    fn write(&mut self, start_block: u64, blocks: &[u8]) -> Result<(), String> {
        if self.left == 0 {
            return Err("injected write failure".to_string());
        }
        self.left -= 1;
        self.inner.write(start_block, blocks)
    }

    fn block_count(&mut self) -> Result<Option<u64>, String> {
        self.inner.block_count()
    }

    fn max_transfer_blocks(&self) -> u64 {
        self.inner.max_transfer_blocks()
    }
}

fn mount(image: &Image) -> FileSystem<Image> {
    FileSystem::mount(image.clone()).expect("mount")
}

// ---------------------------------------------------------------------------
// Writing
// ---------------------------------------------------------------------------

#[test]
fn a_sized_create_is_contiguous_and_costs_one_write() {
    let payload = expected_content(1600 * 1024);
    let mut volume = FileSystem::mount(Recorder::new(Image::format(272, 4))).expect("mount");

    let mut file = volume.create_with_size("/BIG.BIN", payload.len() as u32).expect("create");
    volume.device_mut().reset();
    volume.write_at(&mut file, 0, &payload).expect("write");

    let data_writes: Vec<Access> =
        volume.device_mut().writes().into_iter().filter(|w| w.blocks > 1).collect();
    assert_eq!(data_writes.len(), 1, "one data transfer: {data_writes:?}");
    assert_eq!(data_writes[0].blocks as usize, payload.len() / BLOCK_SIZE);

    volume.sync().expect("sync");
    assert_eq!(volume.runs(file.first_cluster()).expect("runs").len(), 1);
    let image = volume.into_device().inner;
    assert_sound(&image);
    assert_eq!(image.contents("/BIG.BIN"), Some(payload));
}

#[test]
fn written_files_round_trip_through_mtools() {
    let mut volume = mount(&Image::format(272, 4));
    let sizes = [0usize, 1, 511, 512, 513, 4095, 4096, 4097, 40_000];
    let mut written = Vec::new();
    for (n, size) in sizes.iter().enumerate() {
        let name = format!("/F{n}.BIN");
        let data = expected_content(*size);
        volume.write_file(&name, &data).expect("write");
        written.push((name, data));
    }
    volume.sync().expect("sync");
    let image = volume.into_device();

    assert_sound(&image);
    for (name, data) in &written {
        assert_eq!(image.contents(name).as_ref(), Some(data), "{name} differs");
    }
    let mut volume = mount(&image);
    for (name, data) in &written {
        let file = volume.open(name).expect("open");
        assert_eq!(file.len() as usize, data.len(), "{name} length");
        assert_eq!(file.is_empty(), data.is_empty());
        assert_eq!(&volume.read_all(&file).expect("read"), data, "{name} content");
    }
}

#[test]
fn this_crate_and_mtools_can_share_a_volume() {
    let theirs = expected_content(9000);
    let mut image = Image::format(272, 4);
    image.fill(&[10, 11, 12], &theirs);
    image.enter(2, b"THEIRS  BIN", 0, None, 0x20, 10, 9000);

    let mut volume = mount(&image);
    let file = volume.open("/THEIRS.BIN").expect("open theirs");
    assert_eq!(volume.read_all(&file).expect("read"), theirs);

    let ours = expected_content(12_345);
    volume.write_file("/OURS.BIN", &ours).expect("write ours");
    volume.sync().expect("sync");
    let image = volume.into_device();

    assert_sound(&image);
    assert_eq!(image.contents("/OURS.BIN"), Some(ours));
    assert_eq!(image.contents("/THEIRS.BIN"), Some(theirs), "we damaged their file");
}

#[test]
fn truncation_frees_the_tail() {
    let mut volume = mount(&Image::format(272, 4));
    let data = expected_content(60_000);
    let mut file = volume.write_file("/T.BIN", &data).expect("write");
    let before = volume.fat().free_clusters();

    volume.truncate(&mut file, 5000).expect("truncate");
    volume.sync().expect("sync");
    let after = volume.fat().free_clusters();
    assert!(after > before, "truncation should have freed clusters");
    assert_eq!(after - before, 13, "fifteen clusters became two");
    assert_eq!(file.len(), 5000);

    let image = volume.into_device();
    assert_sound(&image);
    assert_eq!(image.contents("/T.BIN").as_deref(), Some(&data[..5000]));
}

#[test]
fn truncating_a_fragmented_file_stays_consistent() {
    let mut volume = mount(&Image::format(272, 4));
    let mut a = volume.create("/A.BIN").expect("create A");
    let mut b = volume.create("/B.BIN").expect("create B");
    let chunk = expected_content(4096);
    for n in 0..8u64 {
        volume.write_at(&mut a, n * 4096, &chunk).expect("write A");
        volume.write_at(&mut b, n * 4096, &chunk).expect("write B");
    }
    volume.sync().expect("sync");
    let runs = volume.runs(a.first_cluster()).expect("runs");
    assert!(runs.len() > 1, "A should be fragmented: {runs:?}");

    volume.truncate(&mut a, 10_000).expect("truncate");
    volume.sync().expect("sync");
    let read = volume.read_all(&a).expect("read");
    assert_sound(&volume.into_device());
    assert_eq!(read.len(), 10_000);
    let expected: Vec<u8> = (0..8).flat_map(|_| chunk.clone()).take(10_000).collect();
    assert_eq!(read, expected);
}

#[test]
fn truncating_to_nothing_leaves_an_empty_file() {
    let mut volume = mount(&Image::format(272, 4));
    let mut file = volume.write_file("/E.BIN", &expected_content(20_000)).expect("write");
    volume.truncate(&mut file, 0).expect("truncate");
    volume.sync().expect("sync");

    assert_eq!(file.len(), 0);
    assert_eq!(file.first_cluster(), 0, "an empty file should own no clusters");
    assert_sound(&volume.into_device());
}

#[test]
fn removing_a_file_frees_its_clusters() {
    let mut volume = mount(&Image::format(272, 4));
    let free_at_start = volume.fat().free_clusters();
    volume.write_file("/GONE.BIN", &expected_content(50_000)).expect("write");
    assert!(volume.fat().free_clusters() < free_at_start);

    volume.remove("/GONE.BIN").expect("remove");
    volume.sync().expect("sync");
    assert_eq!(volume.fat().free_clusters(), free_at_start, "every cluster should be back");
    assert!(volume.open("/GONE.BIN").is_err(), "the file should be gone");

    let image = volume.into_device();
    assert_sound(&image);
    assert!(image.listing("").is_empty(), "the deleted file is still listed");
}

#[test]
fn filling_the_volume_reports_out_of_space() {
    let mut volume = mount(&Image::format(16, 4));
    let chunk = expected_content(64 * 1024);
    let mut written = 0usize;
    let mut ran_out = false;
    for n in 0..1000 {
        match volume.write_file(&format!("/P{n}.BIN"), &chunk) {
            Ok(_) => written += 1,
            Err(Error::Fat(FatError::DiskFull { .. })) | Err(Error::DirectoryFull) => {
                ran_out = true;
                break;
            }
            Err(other) => panic!("unexpected error: {other:?}"),
        }
    }
    volume.sync().expect("sync");
    assert!(ran_out, "the volume should have filled");
    assert!(written > 0, "nothing was written at all");

    let image = volume.into_device();
    assert_sound(&image);
    let mut volume = mount(&image);
    for n in 0..written {
        let file = volume.open(&format!("/P{n}.BIN")).expect("open");
        assert_eq!(volume.read_all(&file).expect("read"), chunk, "P{n} differs");
    }
}

#[test]
fn a_directory_grows_beyond_one_cluster() {
    let mut volume = mount(&Image::format(272, 4));
    let count = 400;
    for n in 0..count {
        volume
            .write_file(&format!("/D{n:04}.BIN"), format!("{n}\n").as_bytes())
            .expect("write");
    }
    volume.sync().expect("sync");
    let root = volume.root_dir().expect("root");
    let listed = root.iter().filter(|e| e.name().starts_with('D')).count();
    assert_eq!(listed, count, "entries went missing as the directory grew");

    let image = volume.into_device();
    assert_sound(&image);
    let listing = image.listing("");
    for n in [0, 127, 128, 255, 256, count - 1] {
        let name = format!("D{n:04}.BIN");
        assert!(listing.iter().any(|e| e.short == name), "{name} is not on the card");
    }
}

#[test]
fn a_partial_overwrite_leaves_the_rest_alone() {
    let mut volume = mount(&Image::format(272, 4));
    let mut expected = expected_content(30_000);
    let mut file = volume.write_file("/P.BIN", &expected).expect("write");

    let patch: Vec<u8> = (0..1234u32).map(|n| (n % 7) as u8 + 1).collect();
    let at = 777usize;
    volume.write_at(&mut file, at as u64, &patch).expect("overwrite");
    expected[at..at + patch.len()].copy_from_slice(&patch);
    volume.sync().expect("sync");

    let image = volume.into_device();
    assert_sound(&image);
    assert_eq!(image.contents("/P.BIN"), Some(expected));
}

#[test]
fn writing_past_the_end_grows_the_file() {
    let mut volume = mount(&Image::format(272, 4));
    let mut file = volume.create("/G.BIN").expect("create");
    assert_eq!(file.len(), 0);

    let tail = expected_content(3000);
    volume.write_at(&mut file, 10_000, &tail).expect("write");
    assert_eq!(file.len(), 13_000);
    volume.sync().expect("sync");

    let image = volume.into_device();
    assert_sound(&image);
    let back = image.contents("/G.BIN").expect("the file");
    assert_eq!(back.len(), 13_000);
    assert_eq!(&back[10_000..], &tail[..], "the written tail differs");
    assert!(back[..10_000].iter().all(|byte| *byte == 0), "the gap is not zeros");
}

#[test]
fn names_with_no_storable_form_are_refused() {
    let mut volume = mount(&Image::format(16, 4));
    for name in ["/bad*char.txt", "/who?.txt", "/a<b.txt", "/trailing."] {
        match volume.create(name) {
            Err(Error::BadName { .. }) => {}
            other => panic!("{name} should have been refused, got {other:?}"),
        }
    }
    for name in ["/toolongforeight.txt", "/GOOD.LONGEXT", "/has space.txt", "/two.dots.txt"] {
        volume.create(name).expect("it has a perfectly good long-name form");
    }

    let file = volume.create("/ok.txt").expect("lower case is fine");
    assert_eq!(file.len(), 0);
    assert!(volume.open("/OK.TXT").is_ok(), "should be findable upper case");
    match volume.create("/OK.TXT") {
        Err(Error::AlreadyExists { .. }) => {}
        other => panic!("expected AlreadyExists, got {other:?}"),
    }
    volume.sync().expect("sync");
    assert_sound(&volume.into_device());
}

#[test]
fn a_length_never_publishes_a_deleted_files_bytes() {
    const SECRET: u8 = 0xAB;
    let planted = vec![SECRET; 64 * 1024];
    let size = planted.len() as u32;

    for what in ["create", "gap", "truncate"] {
        let mut volume = mount(&Image::format(32, 4));
        volume.write_file("/PLANTED.BIN", &planted).expect("plant");
        volume.sync().expect("sync");
        volume.remove("/PLANTED.BIN").expect("remove");
        volume.sync().expect("sync");

        let file: File = match what {
            "create" => volume.create_with_size("/NEW.BIN", size).expect("create"),
            "gap" => {
                let mut file = volume.create("/NEW.BIN").expect("create");
                volume.write_at(&mut file, u64::from(size) - 4, b"tail").expect("write");
                file
            }
            _ => {
                let mut file = volume.create("/NEW.BIN").expect("create");
                volume.truncate(&mut file, size).expect("truncate");
                file
            }
        };
        let visible = volume.read_all(&file).expect("read");
        let image = volume.unmount().expect("unmount");

        let leaked = visible.iter().filter(|byte| **byte == SECRET).count();
        assert_eq!(leaked, 0, "{what}: {leaked} of {} bytes are not its own", visible.len());
        if visible.is_empty() {
            assert_no_corruption(&image, what);
        } else {
            assert_sound(&image);
            assert_eq!(image.contents("/NEW.BIN"), Some(visible), "{what}");
        }
    }
}

// ---------------------------------------------------------------------------
// Interruptions
// ---------------------------------------------------------------------------

/// A file that was there before still reads back, through a fresh mount.
fn assert_intact(image: &Image, path: &str, expected: &[u8], what: &str) {
    let mut volume = FileSystem::mount(image.clone()).expect("the volume still mounts");
    let file = volume.open(path).expect("the file is still there");
    assert_eq!(volume.read_all(&file).expect("it still reads"), expected, "{what}");
}

#[test]
fn an_interrupted_create_never_cross_links() {
    let bystander = expected_content(20_000);
    let mut volume = mount(&Image::format(272, 4));
    volume.write_file("/OLD.BIN", &bystander).expect("setup");
    volume.sync().expect("sync");
    let prepared = volume.into_device();

    for left in 0..14 {
        let device = FailAfter { inner: prepared.clone(), left };
        let mut volume = FileSystem::mount(device).expect("mount");
        let _ = volume.write_file("/NEW.BIN", &expected_content(30_000));
        let _ = volume.sync();
        let image = volume.into_device().inner;

        let what = format!("create interrupted after {left} writes");
        assert_no_corruption(&image, &what);
        assert_intact(&image, "/OLD.BIN", &bystander, &what);
    }
}

#[test]
fn an_interrupted_truncation_never_cross_links() {
    let bystander = expected_content(20_000);
    let mut volume = mount(&Image::format(272, 4));
    volume.write_file("/OLD.BIN", &bystander).expect("setup");
    volume.write_file("/T.BIN", &expected_content(60_000)).expect("setup");
    volume.sync().expect("sync");
    let prepared = volume.into_device();

    for left in 0..12 {
        let device = FailAfter { inner: prepared.clone(), left };
        let mut volume = FileSystem::mount(device).expect("mount");
        if let Ok(mut file) = volume.open("/T.BIN") {
            let _ = volume.truncate(&mut file, 4000);
        }
        let _ = volume.sync();
        let image = volume.into_device().inner;

        let what = format!("truncation interrupted after {left} writes");
        assert_no_corruption(&image, &what);
        assert_intact(&image, "/OLD.BIN", &bystander, &what);
    }
}

#[test]
fn an_interrupted_extend_never_cross_links() {
    let bystander = expected_content(20_000);
    let mut volume = mount(&Image::format(272, 4));
    volume.write_file("/OLD.BIN", &bystander).expect("setup");
    volume.write_file("/X.BIN", &expected_content(5000)).expect("setup");
    volume.sync().expect("sync");
    let prepared = volume.into_device();

    for left in 0..12 {
        let device = FailAfter { inner: prepared.clone(), left };
        let mut volume = FileSystem::mount(device).expect("mount");
        if let Ok(mut file) = volume.open("/X.BIN") {
            let _ = volume.write_at(&mut file, 5000, &expected_content(50_000));
        }
        let _ = volume.sync();
        let image = volume.into_device().inner;

        let what = format!("extend interrupted after {left} writes");
        assert_no_corruption(&image, &what);
        assert_intact(&image, "/OLD.BIN", &bystander, &what);
    }
}

#[test]
fn a_refused_allocation_leaks_nothing() {
    let mut volume = mount(&Image::format(16, 4));
    let free = volume.fat().free_clusters();
    let far_too_much = vec![0u8; (free as usize + 100) * 4096];
    match volume.write_file("/HUGE.BIN", &far_too_much) {
        Err(Error::Fat(FatError::DiskFull { .. })) => {}
        other => panic!("expected DiskFull, got {other:?}"),
    }
    assert_eq!(volume.fat().free_clusters(), free, "it kept some clusters");
}

// ---------------------------------------------------------------------------
// Stale handles
// ---------------------------------------------------------------------------

#[test]
fn a_handle_kept_across_a_delete_cannot_rewrite_the_next_file() {
    let mut volume = mount(&Image::format(32, 4));
    volume.write_file("/GOING.BIN", &[1u8; 4]).expect("create");
    let mut stale = volume.open("/GOING.BIN").expect("open");
    volume.remove("/GOING.BIN").expect("remove");

    let payload = expected_content(5000);
    let victim = volume.write_file("/VICTIM.BIN", &payload).expect("create");
    assert_eq!(victim.first_cluster(), stale.first_cluster(), "the clusters are reused");

    match volume.write_at(&mut stale, 0, &[9u8; 8]) {
        Err(Error::StaleFile { name }) => assert_eq!(name, "GOING.BIN"),
        other => panic!("expected StaleFile, got {other:?}"),
    }
    match volume.truncate(&mut stale, 0) {
        Err(Error::StaleFile { .. }) => {}
        other => panic!("truncate: expected StaleFile, got {other:?}"),
    }
    match volume.read_all(&stale) {
        Err(Error::StaleFile { .. }) => {}
        other => panic!("read: expected StaleFile, got {other:?}"),
    }

    assert_eq!(volume.read_all(&victim).expect("read victim"), payload);
    let reopened = volume.open("/VICTIM.BIN").expect("reopen victim");
    assert_eq!(reopened.len(), 5000, "the victim's length was rewritten");
    assert_eq!(volume.read_all(&reopened).expect("read"), payload);
    volume.sync().expect("sync");
    assert_sound(&volume.into_device());
}

#[test]
fn the_staleness_check_touches_no_device() {
    let payload = expected_content(64 * 1024);
    let mut volume = FileSystem::mount(Recorder::new(Image::format(32, 4))).expect("mount");
    volume.write_file("/BIG.BIN", &payload).expect("create");
    let file = volume.open("/BIG.BIN").expect("open");

    volume.device_mut().reset();
    assert_eq!(volume.read_all(&file).expect("read"), payload);
    let reads = volume.device_mut().reads();
    assert_eq!(reads.len(), 1, "a contiguous read should still be one call, got {reads:?}");
}

#[test]
fn replacing_a_file_invalidates_a_handle_to_the_old_one() {
    let mut volume = mount(&Image::format(32, 4));
    volume.write_file("/SAME.BIN", &[1u8; 4]).expect("create");
    let mut stale = volume.open("/SAME.BIN").expect("open");

    let payload = expected_content(5000);
    volume.write_file("/SAME.BIN", &payload).expect("replace");
    match volume.write_at(&mut stale, 0, &[9u8; 8]) {
        Err(Error::StaleFile { name }) => assert_eq!(name, "SAME.BIN"),
        other => panic!("expected StaleFile, got {other:?}"),
    }

    let reopened = volume.open("/SAME.BIN").expect("reopen");
    assert_eq!(reopened.len(), 5000);
    assert_eq!(volume.read_all(&reopened).expect("read"), payload);
    volume.sync().expect("sync");
    assert_sound(&volume.into_device());
}

#[test]
fn deleting_a_sibling_invalidates_a_handle_and_reopening_fixes_it() {
    let mut volume = mount(&Image::format(32, 4));
    let payload = expected_content(4096);
    volume.write_file("/KEEP.BIN", &payload).expect("keep");
    volume.write_file("/GO.BIN", &[7u8; 16]).expect("go");

    let mut keep = volume.open("/KEEP.BIN").expect("open keep");
    volume.remove("/GO.BIN").expect("remove sibling");
    match volume.write_at(&mut keep, 0, &[1u8; 32]) {
        Err(Error::StaleFile { .. }) => {}
        other => panic!("expected StaleFile, got {other:?}"),
    }

    let mut keep = volume.open("/KEEP.BIN").expect("reopen");
    assert_eq!(volume.read_all(&keep).expect("read"), payload);
    volume.write_at(&mut keep, 0, &[1u8; 32]).expect("write");
    volume.sync().expect("sync");
    assert_sound(&volume.into_device());
}

#[test]
fn a_full_volume_leaves_a_usable_free_space_hint() {
    let mut volume = mount(&Image::format(16, 4));
    let free = volume.fat().free_clusters();
    let everything = vec![0u8; free as usize * 4096];
    volume.write_file("/FULL.BIN", &everything).expect("fill");
    assert_eq!(volume.fat().free_clusters(), 0, "the volume should be full");
    let image = volume.unmount().expect("unmount");

    let volume = mount(&image);
    let hint = volume.fs_info().next_free;
    assert!(hint.is_some(), "an out-of-range cluster was written");
    assert!(volume.fat().is_valid_cluster(hint.expect("checked")), "{hint:?}");
    assert_sound(&image);
}

// ---------------------------------------------------------------------------
// Names
// ---------------------------------------------------------------------------

const LONG_NAME_ATTRIBUTE: u8 = 0x0F;

fn raw_entries<D: BlockDevice>(volume: &mut FileSystem<D>, cluster: u32) -> Vec<Vec<u8>> {
    volume
        .read_chain(cluster)
        .expect("read the directory")
        .chunks_exact(ENTRY_SIZE)
        .map(|entry| entry.to_vec())
        .collect()
}

fn used_slots<D: BlockDevice>(volume: &mut FileSystem<D>, cluster: u32) -> usize {
    raw_entries(volume, cluster).iter().filter(|e| e[0] != 0x00 && e[0] != 0xE5).count()
}

fn long_name_slots<D: BlockDevice>(volume: &mut FileSystem<D>, cluster: u32) -> usize {
    raw_entries(volume, cluster)
        .iter()
        .filter(|e| e[0] != 0x00 && e[0] != 0xE5 && e[0x0B] == LONG_NAME_ATTRIBUTE)
        .count()
}

#[test]
fn an_8_3_name_writes_no_long_name_slots() {
    let mut volume = mount(&Image::format(16, 4));
    let names = ["game.nes", "GAME2.NES", "readme", "123.TXT", "MiXeD.txt"];
    for name in names {
        volume.create(&format!("/{name}")).expect("create");
    }
    let root = volume.root_cluster();
    assert_eq!(long_name_slots(&mut volume, root), 1, "only the mixed-case name costs slots");
    volume.sync().expect("sync");
    let image = volume.into_device();
    assert_sound(&image);

    let listed = image.listing("");
    for name in names {
        let entry = listed
            .iter()
            .find(|e| e.short.eq_ignore_ascii_case(name) || e.long.as_deref() == Some(name))
            .expect("the name is listed");
        if name == "MiXeD.txt" {
            assert_eq!(entry.long.as_deref(), Some("MiXeD.txt"));
            assert_eq!(entry.short, "MIXED.TXT", "the alias is the name uppercased");
        } else {
            assert_eq!(entry.long, None, "{name} should have no long name");
            assert_eq!(entry.short, name, "{name} should come back exactly");
        }
    }
}

#[test]
fn created_entries_carry_a_date_that_exists() {
    let mut volume = mount(&Image::format(16, 4));
    volume.create("/PLAIN.BIN").expect("create");
    volume.write_file("/a long name.bin", &[1, 2, 3]).expect("write");
    let sub = volume.create_dir("/SUBDIR").expect("mkdir");

    let root = volume.root_cluster();
    let mut seen = 0;
    for cluster in [root, sub] {
        for entry in raw_entries(&mut volume, cluster) {
            // Empty and deleted slots, long names, and the label.
            if entry[0] == 0x00 || entry[0] == 0xE5 || entry[0x0B] & 0x08 != 0 {
                continue;
            }
            for (field, at) in [("creation", 0x10), ("access", 0x12), ("write", 0x18)] {
                let date = u16::from_le_bytes([entry[at], entry[at + 1]]);
                assert_eq!(date, 0x0021, "{field} date of {:?}", &entry[0..11]);
            }
            seen += 1;
        }
    }
    assert_eq!(seen, 5, "three entries and two dots");
    volume.sync().expect("sync");
    assert_sound(&volume.into_device());
}

#[test]
fn aliases_are_the_ones_mtools_would_have_chosen() {
    let names = [
        ("A Long Name.txt", "ALONGN~1.TXT"),
        ("Super Mario Bros. 3.nes", "SUPERM~1.NES"),
        (".gitignore", "GITIGN~1"),
        ("archive.tar.gz", "ARCHIV~1.GZ"),
        ("plus+and=equals.dat", "PLUS_A~1.DAT"),
        ("ReadMe.Now", "README.NOW"),
    ];
    let data = expected_content(600);
    let mut volume = mount(&Image::format(16, 4));
    for (name, _) in names {
        volume.write_file(&format!("/{name}"), &data).expect("write");
    }
    volume.sync().expect("sync");
    let image = volume.into_device();
    assert_sound(&image);

    let listed = image.listing("");
    for (name, alias) in names {
        let entry = listed.iter().find(|e| e.long.as_deref() == Some(name)).expect("listed");
        assert_eq!(entry.short, alias, "{name} got a different alias");
    }
    let mut volume = mount(&image);
    for (name, alias) in names {
        let by_long = volume.open(&format!("/{name}")).expect("open by long name");
        let by_alias = volume.open(&format!("/{alias}")).expect("open by alias");
        assert_eq!(by_long, by_alias, "{name} and {alias} are the same file");
        assert_eq!(volume.read_all(&by_long).expect("read"), data);
    }
}

#[test]
fn a_name_colliding_many_times_still_resolves() {
    let mut volume = mount(&Image::format(16, 4));
    let names: Vec<String> = (1..=12).map(|n| format!("Long Game Title {n}.nes")).collect();
    for name in &names {
        volume.create(&format!("/{name}")).expect("create");
    }
    let expected: Vec<String> = (1..=9)
        .map(|n| format!("LONGGA~{n}.NES"))
        .chain((10..=12).map(|n| format!("LONGG~{n}.NES")))
        .collect();
    volume.sync().expect("sync");
    let image = volume.into_device();
    assert_sound(&image);

    let listed = image.listing("");
    for (name, alias) in names.iter().zip(&expected) {
        let entry = listed.iter().find(|e| e.long.as_ref() == Some(name)).expect("listed");
        assert_eq!(&entry.short, alias, "{name} got the wrong alias");
    }
    let mut volume = mount(&image);
    for (name, alias) in names.iter().zip(&expected) {
        assert!(volume.open(&format!("/{name}")).is_ok(), "{name}");
        assert!(volume.open(&format!("/{alias}")).is_ok(), "{alias}");
    }
}

#[test]
fn a_long_name_run_can_span_a_cluster_boundary() {
    let mut volume = mount(&Image::format(16, 1));
    let root = volume.root_cluster();
    while used_slots(&mut volume, root) < 20 {
        let n = used_slots(&mut volume, root);
        volume.create(&format!("/PAD{n}.BIN")).expect("pad");
    }
    assert_eq!(volume.runs(root).expect("runs")[0].clusters, 1);

    let long = format!("{}.txt", "n".repeat(251));
    let data = expected_content(300);
    volume.write_file(&format!("/{long}"), &data).expect("write the long name");
    let clusters: u32 = volume.runs(root).expect("runs").iter().map(|run| run.clusters).sum();
    assert!(clusters > 1, "the name should have forced the directory to grow");
    volume.sync().expect("sync");
    let image = volume.into_device();

    assert_sound(&image);
    assert!(image.listing("").iter().any(|e| e.long.as_ref() == Some(&long)), "lost the name");
    let mut volume = mount(&image);
    let file = volume.open(&format!("/{long}")).expect("open");
    assert_eq!(volume.read_all(&file).expect("read"), data);
}

#[test]
fn an_interrupted_name_write_never_strands_an_entry() {
    let long = format!("{}.txt", "s".repeat(251));
    let mut volume = mount(&Image::format(16, 1));
    for n in 0..9 {
        volume.create(&format!("/PAD{n}.BIN")).expect("pad");
    }
    let root = volume.root_cluster();
    assert_eq!(used_slots(&mut volume, root), 10);
    volume.sync().expect("sync");
    let prepared = volume.into_device();

    for left in 0..12 {
        let device = FailAfter { inner: prepared.clone(), left };
        let mut volume = FileSystem::mount(device).expect("mount");
        let _ = volume.write_file(&format!("/{long}"), &expected_content(500));
        let _ = volume.sync();
        let image = volume.into_device().inner;

        let mut volume = FileSystem::mount(image.clone()).expect("remount");
        volume.root_dir().expect("the root directory is readable");
        for n in 0..9 {
            volume.open(&format!("/PAD{n}.BIN")).expect("the padding is still there");
        }
        assert_no_corruption(&image, &format!("after {left} writes"));
    }
}

#[test]
fn deleting_a_long_name_leaves_no_orphan_slots() {
    let mut volume = mount(&Image::format(16, 4));
    let root = volume.root_cluster();
    volume.write_file("/A Fairly Long Name.txt", &expected_content(2000)).expect("write");
    assert!(used_slots(&mut volume, root) > 2, "the name should have needed slots");

    volume.remove("/A Fairly Long Name.txt").expect("remove");
    assert_eq!(used_slots(&mut volume, root), 1, "only the volume label should be left");
    volume.sync().expect("sync");
    assert_sound(&volume.into_device());
}

#[test]
fn rewriting_a_long_named_file_does_not_grow_the_directory() {
    let mut volume = mount(&Image::format(16, 4));
    let root = volume.root_cluster();
    let name = "/firmware bundle.img";
    volume.write_file(name, &expected_content(5000)).expect("write");
    let settled = used_slots(&mut volume, root);

    for round in 0..6 {
        let data = expected_content(5000 + round * 100);
        volume.write_file(name, &data).expect("rewrite");
        assert_eq!(used_slots(&mut volume, root), settled, "round {round} left slots behind");
    }
    volume.sync().expect("sync");
    let image = volume.into_device();
    assert_sound(&image);
    assert_eq!(image.contents("/firmware bundle.img").expect("the file").len(), 5500);
}

#[test]
fn a_created_directory_links_back_to_its_parent() {
    let mut volume = mount(&Image::format(16, 4));
    let root = volume.root_cluster();
    let sub = volume.create_dir("/SAVES").expect("create /SAVES");
    let deep = volume.create_dir("/SAVES/2026").expect("create /SAVES/2026");

    let listed = volume.open_dir("/SAVES").expect("open /SAVES");
    assert_eq!(listed.get(".").expect(".").first_cluster(), sub, ". names its own directory");
    assert_eq!(
        listed.get("..").expect("..").first_cluster(),
        0,
        ".. in a child of the root stores 0, not the root's cluster"
    );
    let listed = volume.open_dir("/SAVES/2026").expect("open /SAVES/2026");
    assert_eq!(listed.get("..").expect("..").first_cluster(), sub);
    assert_ne!(deep, sub);
    assert_ne!(sub, root);

    let data = expected_content(3000);
    volume.write_file("/SAVES/2026/SLOT1.SAV", &data).expect("write");
    let entries = volume.open_dir("/SAVES/2026/..").expect("up one").len();
    assert_eq!(entries, volume.open_dir("/SAVES").expect("again").len());
    assert!(volume.open("/SAVES/2026/../2026/SLOT1.SAV").is_ok());
    assert!(volume.open("/SAVES/..").is_err(), "the root is a directory, not a file");
    volume.sync().expect("sync");
    let image = volume.into_device();

    assert_sound(&image);
    assert_eq!(image.contents("/SAVES/2026/SLOT1.SAV"), Some(data));
    assert!(image.listing("SAVES").iter().any(|e| e.short == "2026"));
}

#[test]
fn directories_take_long_names_and_refuse_to_vanish_with_contents() {
    let mut volume = mount(&Image::format(16, 4));
    volume.create_dir("/My Save Games").expect("create");
    volume
        .write_file("/My Save Games/slot one.sav", &expected_content(700))
        .expect("write");
    match volume.remove_dir("/My Save Games") {
        Err(Error::DirectoryNotEmpty { .. }) => {}
        other => panic!("expected DirectoryNotEmpty, got {other:?}"),
    }
    volume.sync().expect("sync");
    assert_sound(volume.device());
    let listed = volume.device().listing("");
    assert!(listed.iter().any(|e| e.long.as_deref() == Some("My Save Games")));

    volume.remove("/My Save Games/slot one.sav").expect("remove");
    volume.remove_dir("/My Save Games").expect("remove the directory");
    volume.sync().expect("sync");
    let image = volume.into_device();
    assert_sound(&image);
    assert!(image.listing("").is_empty(), "the directory outlived its removal");
}

// ---------------------------------------------------------------------------
// The dirty flag
// ---------------------------------------------------------------------------

#[test]
fn an_unsynced_volume_comes_back_dirty() {
    let image = Image::format(16, 4);
    assert!(!image.is_dirty(), "a fresh volume is not dirty");
    let mut volume = mount(&image);
    assert!(!volume.is_dirty(), "nothing has happened to this volume yet");
    volume.write_file("/LOST.BIN", &expected_content(4000)).expect("write");
    let image = volume.into_device();

    assert!(image.is_dirty(), "an interrupted write left no warning");
    assert!(mount(&image).is_dirty(), "the volume should be reported as unclean");
    assert_no_corruption(&image, "unsynced");
}

#[test]
fn a_synced_volume_comes_back_clean() {
    let data = expected_content(4000);
    let mut volume = mount(&Image::format(16, 4));
    volume.write_file("/KEPT.BIN", &data).expect("write");
    volume.sync().expect("sync");
    let image = volume.into_device();

    assert!(!image.is_dirty(), "syncing should have cleared the flag");
    assert_sound(&image);
    let mut volume = mount(&image);
    assert!(!volume.is_dirty());
    let file = volume.open("/KEPT.BIN").expect("open");
    assert_eq!(volume.read_all(&file).expect("read"), data);
}

#[test]
fn unmounting_syncs_and_returns_the_device() {
    let mut volume = mount(&Image::format(16, 4));
    volume.write_file("/KEPT.BIN", &expected_content(1000)).expect("write");
    let image = volume.unmount().expect("unmount");
    assert!(!image.is_dirty());
    assert_sound(&image);
}

#[test]
fn a_read_only_workload_writes_nothing() {
    let mut image = Image::format(16, 4);
    image.fill(&[3], b"data");
    image.enter(2, b"BIG     BIN", 0, None, 0x20, 3, 4);
    let mut volume = FileSystem::mount(Recorder::new(image)).expect("mount");

    volume.root_dir().expect("root");
    let file = volume.open("/BIG.BIN").expect("open");
    volume.read_all(&file).expect("read");
    volume.sync().expect("sync with nothing to sync");
    volume.forget_directories();
    volume.open("/BIG.BIN").expect("open");
    assert_eq!(volume.device_mut().writes(), vec![], "reading should not have written");
}

#[test]
fn the_flag_brackets_every_change() {
    let mut volume = FileSystem::mount(Recorder::new(Image::format(16, 4))).expect("mount");
    volume.device_mut().reset();
    volume.write_file("/BRACKET.BIN", &expected_content(9000)).expect("write");
    let writes = volume.device_mut().writes();
    assert!(writes.len() > 2, "this should have taken several writes");
    assert_eq!(writes[0].start_block, 0, "first the boot sector: {writes:?}");

    volume.sync().expect("sync");
    let writes = volume.device_mut().writes();
    assert_eq!(writes.last().expect("writes").start_block, 0, "last too: {writes:?}");
    assert_eq!(
        writes.iter().filter(|w| w.start_block == 0).count(),
        2,
        "the flag should be written once each way: {writes:?}"
    );
}

#[test]
fn a_volume_that_arrived_dirty_is_not_quietly_cleaned() {
    let mut volume = mount(&Image::format(16, 4));
    volume.create("/A.BIN").expect("create");
    let image = volume.into_device();
    assert!(image.is_dirty());

    let mut volume = mount(&image);
    assert!(volume.is_dirty());
    volume.open("/A.BIN").expect("open");
    volume.sync().expect("sync");
    assert!(volume.into_device().is_dirty(), "someone else's warning was cleared");
}

// ---------------------------------------------------------------------------
// Clocks
// ---------------------------------------------------------------------------

/// A clock that always says the same.
struct FixedClock(DateTime);

impl Clock for FixedClock {
    fn now(&self) -> DateTime {
        self.0
    }
}

/// A clock that counts how often it was read.
#[derive(Clone, Default)]
struct SharedClock(Arc<AtomicUsize>);

impl Clock for SharedClock {
    fn now(&self) -> DateTime {
        self.0.fetch_add(1, Ordering::Relaxed);
        DateTime::EPOCH()
    }
}

fn at(year: u16, month: u8, day: u8, hour: u8, minute: u8, second: u8) -> DateTime {
    DateTime::new(year, month, day, hour, minute, second, 0).expect("a real date")
}

#[test]
fn a_supplied_clock_stamps_what_it_says() {
    let when = at(2026, 6, 15, 10, 30, 44);
    let mut volume = mount(&Image::format(16, 4));
    volume.set_clock(Box::new(FixedClock(when)));
    volume.write_file("/STAMPED.BIN", &expected_content(3000)).expect("write");
    volume.create_dir("/SUBDIR").expect("mkdir");
    volume.write_file("/a long name.txt", b"hello").expect("write");
    let image = volume.unmount().expect("unmount");

    let mut volume = mount(&image);
    let root = volume.root_dir().expect("root");
    for name in ["STAMPED.BIN", "SUBDIR", "a long name.txt"] {
        let entry = root.get(name).expect("the entry");
        assert_eq!(entry.created(), when, "{name} creation");
        assert_eq!(entry.modified(), when, "{name} modification");
        assert_eq!(entry.accessed(), at(2026, 6, 15, 0, 0, 0), "{name} access");
    }
    for entry in image.listing("") {
        // 2026-06-15 and 10:30:44, as the format packs them.
        assert_eq!(image.half(entry.at + 0x18), (46 << 9) | (6 << 5) | 15);
        assert_eq!(image.half(entry.at + 0x16), (10 << 11) | (30 << 5) | 22);
    }
}

#[test]
fn the_default_clock_is_the_epoch() {
    let mut volume = mount(&Image::format(16, 4));
    volume.write_file("/PLAIN.BIN", b"x").expect("write");
    let root = volume.root_cluster();
    for entry in raw_entries(&mut volume, root) {
        if entry[0] == 0x00 || entry[0] == 0xE5 || entry[0x0B] & 0x08 != 0 {
            continue;
        }
        let date = u16::from_le_bytes([entry[0x10], entry[0x11]]);
        assert_eq!(date, 0x0021, "an entry was stamped with a non-date");
    }
    assert_eq!(EpochClock.now(), DateTime::EPOCH());
}

#[test]
fn writing_moves_the_modification_time_only() {
    let created = at(2026, 1, 2, 3, 4, 4);
    let written = at(2026, 9, 30, 20, 15, 30);
    let mut volume = mount(&Image::format(16, 4));
    volume.set_clock(Box::new(FixedClock(created)));
    let mut file = volume.create_with_size("/GROW.BIN", 0).expect("create");
    volume.set_clock(Box::new(FixedClock(written)));
    volume.write_at(&mut file, 0, &expected_content(5000)).expect("write");
    let image = volume.unmount().expect("unmount");

    let mut volume = mount(&image);
    let entry = volume.root_dir().expect("root").get("GROW.BIN").expect("the file").clone();
    assert_eq!(entry.created(), created, "creation should not have moved");
    assert_eq!(entry.modified(), written, "modification should have");
    assert_eq!(entry.len(), 5000);
}

#[test]
fn an_operation_reads_the_clock_once() {
    let clock = SharedClock::default();
    let mut volume = mount(&Image::format(16, 4));
    volume.set_clock(Box::new(clock.clone()));
    volume.write_file("/a name long enough to need slots.bin", b"hi").expect("write");
    let reads = clock.0.load(Ordering::Relaxed);
    assert!((1..=3).contains(&reads), "expected one read per operation, got {reads}");
    volume.unmount().expect("unmount");
}

#[test]
fn a_function_can_be_a_clock() {
    fn boot_time() -> DateTime {
        DateTime::from_unix_seconds(1_767_225_600)
    }
    let mut volume = mount(&Image::format(16, 4));
    volume.set_clock(Box::new(FnClock::new(boot_time)));
    volume.write_file("/FN.BIN", b"x").expect("write");
    let image = volume.unmount().expect("unmount");

    let mut volume = mount(&image);
    let created = volume.root_dir().expect("root").get("FN.BIN").expect("file").created();
    assert_eq!(created, at(2026, 1, 1, 0, 0, 0));
}

#[test]
fn an_out_of_range_clock_is_clamped() {
    let mut volume = mount(&Image::format(16, 4));
    volume.set_clock(Box::new(FixedClock(at(1970, 1, 1, 0, 0, 0))));
    volume.write_file("/EARLY.BIN", b"x").expect("write");
    volume.set_clock(Box::new(FixedClock(at(2200, 1, 1, 0, 0, 0))));
    volume.write_file("/LATE.BIN", b"x").expect("write");
    let image = volume.unmount().expect("unmount");

    let mut volume = mount(&image);
    let root = volume.root_dir().expect("root");
    assert_eq!(root.get("EARLY.BIN").expect("early").created(), DateTime::EPOCH());
    assert_eq!(root.get("LATE.BIN").expect("late").created(), DateTime::LATEST());
}

#[test]
fn the_packed_form_is_public_and_round_trips() {
    let when = at(2026, 6, 15, 10, 30, 45);
    let packed: Packed = when.pack();
    assert_eq!(DateTime::unpack(packed), when);
}

// ---------------------------------------------------------------------------
// What else is promised
// ---------------------------------------------------------------------------

/// A stretch of free clusters that lies across the search position is one
/// run all the same.
#[test]
fn a_single_run_is_found_where_the_volume_has_one() {
    let mut image = Image::format(16, 4);
    let last = image.layout().cluster_count + 1;
    // Free: 100 to 119, and nothing else in one piece.
    for cluster in 3..=last {
        let held = !(100..120).contains(&cluster) && cluster % 2 == 0;
        if held {
            image.set_fat(cluster, 0x0FFF_FFFF);
        }
    }
    // The search starts in the middle of that stretch.
    image.put(512 + 0x1EC, &110u32.to_le_bytes());

    let mut volume = mount(&image);
    let mut file = volume.create_with_size("/RUN.BIN", 20 * 4096).expect("create");
    volume.write_at(&mut file, 0, &expected_content(20 * 4096)).expect("write");
    let runs = volume.runs(file.first_cluster()).expect("runs");
    assert_eq!(runs.len(), 1, "{runs:?}");
    assert!(runs[0].clusters >= 20);
}

/// An allocation that finds no single run takes the pieces there are.
#[test]
fn a_fragmented_volume_still_holds_a_file() {
    let mut image = Image::format(16, 4);
    let last = image.layout().cluster_count + 1;
    for cluster in 3..=last {
        if cluster % 2 == 0 {
            image.set_fat(cluster, 0x0FFF_FFFF);
        }
    }
    let mut volume = mount(&image);
    let data = expected_content(6 * 4096);
    let file = volume.write_file("/PIECES.BIN", &data).expect("write");
    assert_eq!(volume.runs(file.first_cluster()).expect("runs").len(), 6);
    assert_eq!(volume.read_all(&file).expect("read"), data);
}

/// A write that needs no more room leaves the table alone.
#[test]
fn rewriting_in_place_keeps_the_chain() {
    let mut volume = mount(&Image::format(16, 4));
    let mut file = volume.write_file("/KEEP.BIN", &expected_content(10_000)).expect("write");
    let runs = volume.runs(file.first_cluster()).expect("runs");
    let free = volume.fat().free_clusters();
    volume.write_at(&mut file, 0, &[7u8; 10_000]).expect("rewrite");
    assert_eq!(volume.runs(file.first_cluster()).expect("runs"), runs);
    assert_eq!(volume.fat().free_clusters(), free);
    assert_eq!(volume.read_all(&file).expect("read"), vec![7u8; 10_000]);
}

/// Growing a file by its length alone reads back as zeros past what it held.
#[test]
fn a_growing_truncate_adds_zeros() {
    let mut volume = mount(&Image::format(16, 4));
    let data = expected_content(1000);
    let mut file = volume.write_file("/GROW.BIN", &data).expect("write");
    volume.truncate(&mut file, 9000).expect("truncate");
    let back = volume.read_all(&file).expect("read");
    assert_eq!(&back[..1000], &data[..]);
    assert!(back[1000..].iter().all(|byte| *byte == 0));
    assert_eq!(back.len(), 9000);
}

/// A handle that a write moved on is good for the next write.
#[test]
fn a_handle_keeps_up_with_its_own_writes() {
    let mut volume = mount(&Image::format(16, 4));
    let mut file = volume.create("/LOG.TXT").expect("create");
    let mut whole = Vec::new();
    for n in 0..40u32 {
        let line = format!("line {n}\n");
        volume.write_at(&mut file, whole.len() as u64, line.as_bytes()).expect("append");
        whole.extend_from_slice(line.as_bytes());
    }
    assert_eq!(file.len() as usize, whole.len());
    assert_eq!(volume.read_all(&file).expect("read"), whole);
    assert_eq!(file.short_name().to_display_string(), "LOG.TXT");
}

/// Each refusal names what was wrong.
#[test]
fn refusals_say_what_they_refuse() {
    let mut volume = mount(&Image::format(16, 4));
    volume.write_file("/FILE.BIN", b"x").expect("write");
    volume.create_dir("/DIR").expect("mkdir");

    match volume.remove("/DIR") {
        Err(Error::IsADirectory { name }) => assert_eq!(name, "DIR"),
        other => panic!("expected IsADirectory, got {other:?}"),
    }
    match volume.remove_dir("/FILE.BIN") {
        Err(Error::NotADirectory { name }) => assert_eq!(name, "FILE.BIN"),
        other => panic!("expected NotADirectory, got {other:?}"),
    }
    match volume.remove("/NONE.BIN") {
        Err(Error::NotFound { name }) => assert_eq!(name, "NONE.BIN"),
        other => panic!("expected NotFound, got {other:?}"),
    }
    match volume.create_dir("/DIR") {
        Err(Error::AlreadyExists { name }) => assert_eq!(name, "DIR"),
        other => panic!("expected AlreadyExists, got {other:?}"),
    }
    match volume.write_file("/DIR", b"x") {
        Err(Error::AlreadyExists { name }) => assert_eq!(name, "DIR"),
        other => panic!("expected AlreadyExists, got {other:?}"),
    }
    match volume.write_file("/FILE.BIN/X", b"x") {
        Err(Error::NotADirectory { name }) => assert_eq!(name, "FILE.BIN"),
        other => panic!("expected NotADirectory, got {other:?}"),
    }
    let mut file = volume.open("/FILE.BIN").expect("open");
    match volume.write_at(&mut file, u64::from(u32::MAX), b"xx") {
        Err(Error::Fat(FatError::DiskFull { .. })) => {}
        other => panic!("expected DiskFull, got {other:?}"),
    }
    assert_eq!(file.len(), 1);
}

/// A name outside ASCII is stored as a long name and found in any case.
#[test]
fn names_outside_ascii_are_found_in_any_case() {
    let mut volume = mount(&Image::format(16, 4));
    volume.write_file("/Größe ÄÖÜ.txt", b"x").expect("write");
    assert!(volume.open("/GRÖSSE ÄÖÜ.TXT").is_ok(), "ß upper-cases to SS");
    assert!(volume.open("/größe äöü.txt").is_ok());
    assert!(volume.open("/grösse.txt").is_err());
    let image = volume.unmount().expect("unmount");
    assert_eq!(image.listing("")[0].long.as_deref(), Some("Größe ÄÖÜ.txt"));
}

/// Where the device fails, the calls made of it are the first of those that
/// would have been made.
#[test]
fn a_failure_stops_the_calls_where_it_comes() {
    fn busy<D: BlockDevice<Error = String>>(
        volume: &mut FileSystem<D>,
    ) -> Result<(), Error<String>> {
        volume.create_dir("/a directory with a long name")?;
        let mut file = volume.create_with_size("/LARGE.BIN", 9000)?;
        volume.write_at(&mut file, 5000, &expected_content(9000))?;
        volume.truncate(&mut file, 100)?;
        volume.remove("/LARGE.BIN")?;
        volume.remove_dir("/a directory with a long name")?;
        volume.sync()
    }

    let image = Image::format(16, 4);
    let mut volume = FileSystem::mount(Recorder::new(image.clone())).expect("mount");
    busy(&mut volume).expect("nothing fails");
    let planned = volume.device().accesses.clone();
    let writes = volume.device().writes().len() as u32;
    assert!(writes > 20);

    for left in 0..writes {
        let device = Recorder::new(FailAfter { inner: image.clone(), left });
        let mut volume = FileSystem::mount(device).expect("mount");
        match busy(&mut volume) {
            Err(Error::Device(problem)) => assert_eq!(problem, "injected write failure"),
            other => panic!("expected the injected failure, got {other:?}"),
        }
        let made = volume.device().accesses.clone();
        assert_eq!(volume.device().writes().len() as u32, left + 1);
        assert_eq!(made[..], planned[..made.len()]);
    }
}

/// A path that was removed leads nowhere, and what was beside it is there.
#[test]
fn a_removed_path_leads_nowhere() {
    let mut volume = mount(&Image::format(16, 4));
    volume.create_dir("/dir").expect("create a directory");
    volume.write_file("/dir/One long name.txt", b"one").expect("write");
    volume.write_file("/dir/two.txt", b"two").expect("write");
    volume.remove("/dir/ONE LONG NAME.TXT").expect("remove");
    match volume.open("/dir/One long name.txt") {
        Err(Error::NotFound { name }) => assert_eq!(name, "One long name.txt"),
        other => panic!("expected NotFound, got {other:?}"),
    }
    let file = volume.open("/dir/TWO.TXT").expect("still there");
    assert_eq!(volume.read_all(&file).expect("read"), b"two");
    volume.remove("/dir/two.txt").expect("remove");
    volume.remove_dir("/dir").expect("empty by now");
    assert!(volume.open_dir("/dir").is_err());
}

/// A path that ends in a directory's name for itself names that directory:
/// removing it takes its entry and its clusters.
#[test]
fn a_directory_is_removed_through_its_name_for_itself() {
    let mut volume = mount(&Image::format(16, 4));
    let free = volume.fat().free_clusters();
    volume.create_dir("/A").expect("create");
    volume.create_dir("/A/B").expect("create");
    match volume.remove_dir("/A/.") {
        Err(Error::DirectoryNotEmpty { name }) => assert_eq!(name, "."),
        other => panic!("expected DirectoryNotEmpty, got {other:?}"),
    }
    volume.remove_dir("/A/B/./.").expect("remove B");
    volume.remove_dir("/A/.").expect("remove A");
    assert!(volume.root_dir().expect("root").get("A").is_none());
    assert_eq!(volume.fat().free_clusters(), free);
    let image = volume.unmount().expect("unmount");
    assert!(image.listing("").is_empty());
    assert_sound(&image);
}

/// The root is in no directory, and a parent is never empty.
#[test]
fn the_root_and_a_parent_are_not_removed() {
    let mut volume = mount(&Image::format(16, 4));
    volume.create_dir("/A").expect("create");
    volume.create_dir("/A/B").expect("create");
    for path in ["/A/..", "/A/B/.."] {
        match volume.remove_dir(path) {
            Err(Error::DirectoryNotEmpty { name }) => assert_eq!(name, ".."),
            other => panic!("{path}: expected DirectoryNotEmpty, got {other:?}"),
        }
    }
    for (path, shown) in [("/.", "."), ("/", ""), ("", "")] {
        match volume.remove_dir(path) {
            Err(Error::NotFound { name }) => assert_eq!(name, shown),
            other => panic!("{path}: expected NotFound, got {other:?}"),
        }
    }
    assert!(volume.open_dir("/A/B").is_ok());
    assert_sound(&volume.unmount().expect("unmount"));
}

/// A handle on a file of no length goes stale as any other does, and is
/// refused whatever is asked of it.
#[test]
fn a_stale_handle_of_no_length_is_refused() {
    let mut volume = mount(&Image::format(16, 4));
    let mut file = volume.create("/EMPTY.BIN").expect("create");
    volume.write_file("/OTHER.BIN", b"x").expect("write");
    assert_eq!(volume.read_all(&file).expect("live"), Vec::<u8>::new());
    volume.remove("/OTHER.BIN").expect("remove");

    let stale = |result: Result<(), Error<String>>| match result {
        Err(Error::StaleFile { name }) => assert_eq!(name, "EMPTY.BIN"),
        other => panic!("expected StaleFile, got {other:?}"),
    };
    stale(volume.read_all(&file).map(|_| ()));
    let mut buffer = [0u8; 8];
    stale(volume.read_at(&file, 0, &mut buffer).map(|_| ()));
    stale(volume.read_at(&file, 100, &mut buffer).map(|_| ()));
    stale(volume.read_at(&file, 0, &mut []).map(|_| ()));
    stale(volume.write_at(&mut file, 0, &[]));
    stale(volume.write_at(&mut file, 0, b"x"));
    stale(volume.truncate(&mut file, 0));

    let mut again = volume.open("/EMPTY.BIN").expect("open");
    volume.write_at(&mut again, 0, b"y").expect("a new handle writes");
    assert_eq!(volume.read_all(&again).expect("read"), b"y");
}

/// Removing a directory, or replacing a file, makes the handles on what is
/// beside it stale too.
#[test]
fn any_deletion_beside_a_file_makes_its_handle_stale() {
    let mut volume = mount(&Image::format(16, 4));
    volume.write_file("/KEPT.BIN", b"kept").expect("write");
    volume.create_dir("/DIR").expect("create");

    let file = volume.open("/KEPT.BIN").expect("open");
    volume.remove_dir("/DIR").expect("remove");
    assert!(matches!(volume.read_all(&file), Err(Error::StaleFile { .. })));

    volume.write_file("/OTHER.BIN", b"one").expect("write");
    let file = volume.open("/KEPT.BIN").expect("open");
    assert_eq!(volume.read_all(&file).expect("read"), b"kept");
    volume.write_file("/OTHER.BIN", b"two").expect("replace");
    assert!(matches!(volume.read_all(&file), Err(Error::StaleFile { .. })));
    let file = volume.open("/KEPT.BIN").expect("open");
    assert_eq!(volume.read_all(&file).expect("read"), b"kept");
}

/// A letter whose capital has another small letter is not stored as an 8.3
/// name alone: that would read back as another name.
#[test]
fn a_letter_that_does_not_come_back_needs_a_long_name() {
    let mut volume = mount(&Image::format(16, 4));
    for name in ["\u{17F}.txt", "\u{131}.txt"] {
        volume.write_file(&format!("/{name}"), name.as_bytes()).expect("write");
    }
    let image = volume.unmount().expect("unmount");
    let listed = image.listing("");
    assert_eq!(listed[0].long.as_deref(), Some("\u{17F}.txt"));
    assert_eq!(listed[1].long.as_deref(), Some("\u{131}.txt"));

    let mut volume = mount(&image);
    let root = volume.root_dir().expect("root");
    assert_eq!(root.get("\u{17F}.txt").expect("listed").name(), "\u{17F}.txt");
    let file = volume.open("/\u{131}.txt").expect("open");
    assert_eq!(volume.read_all(&file).expect("read"), "\u{131}.txt".as_bytes());
}

/// What was synced mounts again, with every directory and file as it was.
#[test]
fn what_was_synced_mounts_again() {
    let mut volume = mount(&Image::format(16, 4));
    volume.create_dir("/Some directory").expect("create");
    let large = expected_content(30_000);
    volume.write_file("/Some directory/large.bin", &large).expect("write");
    let mut file = volume.create("/Some directory/empty.txt").expect("create");
    volume.write_at(&mut file, 10, b"after a gap").expect("write");
    volume.write_file("/gone.txt", b"gone").expect("write");
    volume.remove("/gone.txt").expect("remove");
    let free = volume.fat().free_clusters();
    let image = volume.unmount().expect("unmount");
    assert!(!image.is_dirty());

    let mut again = mount(&image);
    assert_eq!(again.fat().free_clusters(), free);
    assert!(again.open("/gone.txt").is_err());
    let file = again.open("/SOME DIRECTORY/LARGE.BIN").expect("open");
    assert_eq!(again.read_all(&file).expect("read"), large);
    let file = again.open("/Some directory/empty.txt").expect("open");
    let back = again.read_all(&file).expect("read");
    assert_eq!(&back[..10], &[0u8; 10]);
    assert_eq!(&back[10..], b"after a gap");
    // Nothing was changed, so nothing is written.
    assert_eq!(again.unmount().expect("unmount").held, image.held);
}

/// What is created takes the clusters it needs, and what it replaces gives
/// its own back.
#[test]
fn replacing_a_file_accounts_for_every_cluster() {
    let mut volume = mount(&Image::format(16, 4));
    let free = volume.fat().free_clusters();
    volume.write_file("/F.BIN", &expected_content(9 * 4096 + 1)).expect("write");
    assert_eq!(volume.fat().free_clusters(), free - 10);
    volume.write_file("/F.BIN", &expected_content(4096)).expect("replace");
    assert_eq!(volume.fat().free_clusters(), free - 1);
    volume.write_file("/F.BIN", b"").expect("replace");
    assert_eq!(volume.fat().free_clusters(), free);
    volume.create_dir("/D").expect("create");
    assert_eq!(volume.fat().free_clusters(), free - 1);
    volume.remove_dir("/D").expect("remove");
    assert_eq!(volume.fat().free_clusters(), free);
    assert_sound(&volume.unmount().expect("unmount"));
}

/// Slashes around a path, and a step into the directory itself, lead to the
/// same directory.
#[test]
fn a_directory_has_many_spellings() {
    let mut volume = mount(&Image::format(16, 4));
    volume.create_dir("/DIR").expect("create");
    volume.create_dir("/DIR/SUB").expect("create");
    volume.write_file("/DIR/SUB/X.BIN", b"x").expect("write");
    for path in ["DIR/SUB", "/DIR/SUB", "./DIR/SUB", "DIR/SUB/", "//DIR/./SUB//"] {
        let listed = volume.open_dir(path).expect("open");
        let names: Vec<String> =
            listed.iter().map(|entry| entry.name().to_string()).collect();
        assert_eq!(names, [".", "..", "X.BIN"], "{path}");
    }
}

/// A chain that comes back to a cluster it has been at is found out.
#[test]
fn a_chain_that_comes_back_is_a_loop() {
    let mut image = Image::format(16, 4);
    for (cluster, next) in [(10, 11), (11, 12), (12, 11), (20, 20)] {
        image.set_fat(cluster, next);
    }
    let mut volume = mount(&image);
    for start in [10, 11, 20] {
        match volume.runs(start) {
            Err(Error::Fat(FatError::ChainLoop { start: at })) => assert_eq!(at, start),
            other => panic!("expected ChainLoop, got {other:?}"),
        }
    }
}

/// A new directory lists itself and its parent, both made when it was, and
/// what is written within a file's length moves none of its times.
#[test]
fn what_is_stamped_and_what_is_not() {
    let made = at(2026, 5, 6, 7, 8, 10);
    let later = at(2027, 1, 1, 0, 0, 0);
    let mut volume = mount(&Image::format(16, 4));
    volume.set_clock(Box::new(FixedClock(made)));
    volume.create_dir("/DIR").expect("create");
    let mut file = volume.write_file("/DIR/F.BIN", &[1u8; 600]).expect("write");
    volume.set_clock(Box::new(FixedClock(later)));
    volume.write_at(&mut file, 100, &[2u8; 500]).expect("rewrite");

    let listed = volume.open_dir("/DIR").expect("open");
    for name in [".", "..", "F.BIN"] {
        let entry = listed.get(name).expect("listed");
        assert_eq!(entry.created(), made, "{name}");
        assert_eq!(entry.modified(), made, "{name}");
        assert_eq!(entry.accessed(), at(2026, 5, 6, 0, 0, 0), "{name}");
    }
    volume.truncate(&mut file, 700).expect("truncate");
    let entry = volume.open_dir("/DIR").expect("open").get("F.BIN").expect("listed").clone();
    assert_eq!(entry.created(), made);
    assert_eq!(entry.modified(), later);
    assert_eq!(entry.len(), 700);
}

/// A sync leaves both copies of the table alike, and the hints up to date.
#[test]
fn a_sync_leaves_the_tables_and_the_hints() {
    let mut volume = mount(&Image::format(16, 4));
    volume.write_file("/F.BIN", &expected_content(20_000)).expect("write");
    let free = volume.fat().free_clusters();
    volume.sync().expect("sync");
    let image = volume.into_device();
    let layout = image.layout();
    let length = layout.sectors_per_fat as usize * BLOCK_SIZE;
    let first = layout.fat_start as usize * BLOCK_SIZE;
    assert_eq!(image.get(first, length), image.get(first + length, length));
    assert_eq!(image.word(512 + 0x1E8), free);
    assert!(!image.is_dirty());
}

/// A time is written down in hundredths where a file was made, in pairs of
/// seconds where it changed, and in days where it was looked at.
#[test]
fn a_time_is_read_back_as_finely_as_it_is_kept() {
    let when = DateTime::new(2026, 6, 15, 10, 30, 45, 678).expect("a real date");
    let mut volume = mount(&Image::format(16, 4));
    volume.set_clock(Box::new(FixedClock(when)));
    volume.write_file("/F.BIN", b"now").expect("write");
    let entry = volume.open_dir("/").expect("open").get("F.BIN").expect("listed").clone();
    assert_eq!(entry.created(), DateTime::new(2026, 6, 15, 10, 30, 45, 670).expect("real"));
    assert_eq!(entry.modified(), at(2026, 6, 15, 10, 30, 44));
    assert_eq!(entry.accessed(), at(2026, 6, 15, 0, 0, 0));
}

/// A name whose checksum is another's costs the entry after it that name, and
/// no other entry anything.
#[test]
fn a_wrong_checksum_costs_the_next_entry_its_name() {
    let mut image = Image::format(16, 4);
    image.enter(2, b"BEFOREXXTXT", 0, Some("before the damage.txt"), 0x20, 0, 0);
    image.enter(2, b"DAMAGED TXT", 0, Some("a name that is long enough.txt"), 0x20, 0, 0);
    image.enter(2, b"AFTERXXXTXT", 0, Some("after the damage.txt"), 0x20, 0, 0);
    let layout = image.layout();
    let first = layout.cluster_at(2);
    // The second of the damaged entry's three pieces.
    let piece = (0..16).map(|n| first + 32 * n).find(|p| image.byte(*p) == 0x43).expect("a piece") + 32;
    image.put(piece + 0x0D, &[image.byte(piece + 0x0D).wrapping_add(1)]);

    let mut volume = mount(&image);
    let listed = volume.open_dir("/").expect("open");
    let names: Vec<String> = listed.iter().map(|entry| entry.name().to_string()).collect();
    assert_eq!(names, ["before the damage.txt", "DAMAGED.TXT", "after the damage.txt"]);
    assert!(listed.get("a name that is long enough.txt").is_none());
}

/// An entry remembers the slots its name takes, and no slot is listed twice.
#[test]
fn an_entry_remembers_its_slots() {
    let mut volume = mount(&Image::format(16, 4));
    volume.write_file("/SHORT.TXT", b"").expect("write");
    volume.write_file("/a name of three slots, or so.txt", b"").expect("write");
    volume.write_file("/LAST.TXT", b"").expect("write");
    let listed = volume.open_dir("/").expect("open");
    let slots: Vec<(u32, u32)> =
        listed.iter().map(|entry| (entry.first_slot(), entry.index())).collect();
    let first = slots[0].0;
    assert_eq!(slots, [(first, first), (first + 1, first + 4), (first + 5, first + 5)]);
}

/// The first step that leads nowhere is the one that is named, whatever comes
/// after it; one that is a file says so.
#[test]
fn the_first_bad_step_is_the_one_reported() {
    let mut volume = mount(&Image::format(16, 4));
    volume.create_dir("/DIR").expect("create");
    volume.write_file("/DIR/FILE.BIN", b"x").expect("write");
    for path in ["/DIR/MISSING/NEITHER/X.BIN", "/DIR/../DIR/MISSING/X.BIN"] {
        match volume.open(path) {
            Err(Error::NotFound { name }) => assert_eq!(name, "MISSING", "{path}"),
            other => panic!("expected NotFound, got {other:?}"),
        }
    }
    match volume.open("/DIR/FILE.BIN/MISSING/X.BIN") {
        Err(Error::NotADirectory { name }) => assert_eq!(name, "FILE.BIN"),
        other => panic!("expected NotADirectory, got {other:?}"),
    }
    let root: Vec<String> =
        volume.open_dir("/").expect("open").iter().map(|e| e.name().to_string()).collect();
    let parent: Vec<String> =
        volume.open_dir("/DIR/..").expect("open").iter().map(|e| e.name().to_string()).collect();
    assert_eq!(root, parent);
}

/// The clusters of a chain, one by one.
fn clusters_from(volume: &FileSystem<Image>, first: u32) -> Vec<u32> {
    let runs = volume.runs(first).expect("runs");
    runs.iter().flat_map(|run| run.start_cluster..run.start_cluster + run.clusters).collect()
}

/// A file that becomes shorter keeps the first of its clusters, as many as
/// its length needs, and gives the others back.
#[test]
fn a_shorter_file_keeps_the_start_of_its_chain() {
    let mut volume = mount(&Image::format(16, 4));
    let cluster = 4096u32;
    let content = expected_content(5 * cluster as usize + 10);
    let mut file = volume.write_file("/F.BIN", &content).expect("write");
    let first = file.first_cluster();
    let free = volume.fat().free_clusters();
    let chain = clusters_from(&volume, first);
    assert_eq!(chain.len(), 6);
    for (size, kept) in [(5 * cluster + 1, 6), (5 * cluster, 5), (2 * cluster - 1, 2), (1, 1)] {
        volume.truncate(&mut file, size).expect("truncate");
        assert_eq!(file.first_cluster(), first);
        assert_eq!(clusters_from(&volume, first), &chain[..kept], "{size}");
        assert_eq!(volume.fat().free_clusters(), free + (6 - kept as u32), "{size}");
        assert_eq!(volume.read_all(&file).expect("read"), &content[..size as usize]);
        let entry = volume.open_dir("/").expect("open").get("F.BIN").expect("listed").clone();
        assert_eq!((entry.len(), entry.first_cluster()), (size, first));
    }
    volume.truncate(&mut file, 0).expect("truncate");
    assert_eq!(file.first_cluster(), 0);
    assert_eq!(volume.fat().free_clusters(), free + 6);
    assert_eq!(volume.read_all(&file).expect("read"), b"");
    assert_sound(&volume.unmount().expect("unmount"));
}

/// Every change is in both copies of the table when the call returns, without
/// a sync.
#[test]
fn a_change_reaches_every_copy_of_the_table() {
    let changes: [fn(&mut FileSystem<Image>); 6] = [
        |volume| {
            volume.write_file("/NEW.BIN", &expected_content(9000)).expect("write");
        },
        |volume| {
            volume.create_dir("/NEWDIR").expect("create");
        },
        |volume| {
            let mut file = volume.open("/OLD.BIN").expect("open");
            volume.write_at(&mut file, 30_000, b"more").expect("write");
        },
        |volume| {
            let mut file = volume.open("/OLD.BIN").expect("open");
            volume.truncate(&mut file, 100).expect("truncate");
        },
        |volume| volume.remove("/OLD.BIN").expect("remove"),
        |volume| volume.remove_dir("/DIR").expect("remove"),
    ];
    for (n, change) in changes.iter().enumerate() {
        let mut volume = mount(&Image::format(16, 4));
        volume.write_file("/OLD.BIN", &expected_content(20_000)).expect("write");
        volume.create_dir("/DIR").expect("create");
        let before = mount(&volume.unmount().expect("unmount")).into_device();
        let mut volume = mount(&before);
        change(&mut volume);
        assert!(!volume.fat().has_unsynced_changes(), "change {n}");
        let after = volume.into_device();
        let layout = after.layout();
        let length = layout.sectors_per_fat as usize * BLOCK_SIZE;
        let first = layout.fat_start as usize * BLOCK_SIZE;
        assert_eq!(after.get(first, length), after.get(first + length, length), "change {n}");
        assert_ne!(after.get(first, length), before.get(first, length), "change {n}");
    }
}

/// Writing a file whole, and removing it, leaves every other to be opened and
/// read as before.
#[test]
fn other_files_read_as_before_when_reopened() {
    let mut volume = mount(&Image::format(16, 4));
    volume.create_dir("/DIR").expect("create");
    let others = [
        ("/beside it, with a long name.bin", 5000usize),
        ("/BESIDE.BIN", 1),
        ("/DIR/BELOW.BIN", 12_345),
        ("/EMPTY.BIN", 0),
    ];
    for (path, length) in others {
        volume.write_file(path, &expected_content(length)).expect("write");
    }
    let check = |volume: &mut FileSystem<Image>| {
        for (path, length) in others {
            let file = volume.open(path).expect("open");
            assert_eq!(volume.read_all(&file).expect("read"), expected_content(length), "{path}");
        }
    };
    check(&mut volume);
    for length in [20_000usize, 300, 0] {
        volume.write_file("/the one that changes.bin", &expected_content(length)).expect("write");
        check(&mut volume);
    }
    volume.remove("/the one that changes.bin").expect("remove");
    check(&mut volume);
    assert_sound(&volume.unmount().expect("unmount"));
}
