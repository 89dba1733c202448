//! What each operation on files and directories does to a volume, as
//! mathematical functions from the volume before to the volume after.
//!
//! An operation stamps what it writes with one time, `now`.
use vstd::prelude::*;

use crate::blockdev::Access;
use crate::bytes;
use crate::calls;
use crate::dir;
use crate::dir::{Listing, ShortView};
use crate::error::{FatError, Fault};
use crate::name;
use crate::name::StoredView;
use crate::table;
use crate::table::Run;
use crate::text;
use crate::time::DateTime;
use crate::volume::{Edit, Volume};

verus! {

/// A file handle as a mathematical value.
#[verifier::ext_equal]
pub struct FileView {
    /// The first cluster of the file's chain; 0 where it has none.
    pub first_cluster: u32,
    /// The file's length.
    pub size: u32,
    /// The first cluster of the directory it was found in.
    pub directory: u32,
    /// The slot of its entry.
    pub index: u32,
    /// The first slot its name takes up.
    pub first_slot: u32,
    /// Its 8.3 name.
    pub short: ShortView,
    /// How often something had been deleted from the directory by then.
    pub deletions: u32,
}

/// A path up to its last slash.
pub open spec fn parent_of(path: Seq<char>) -> Seq<char> {
    match text::last_position(path, '/') {
        Some(at) => path.take(at),
        None => Seq::empty(),
    }
}

/// What follows a path's last slash.
pub open spec fn name_of(path: Seq<char>) -> Seq<char> {
    match text::last_position(path, '/') {
        Some(at) => path.skip(at + 1),
        None => path,
    }
}

/// A path without the slashes it ends in.
pub open spec fn trimmed(path: Seq<char>) -> Seq<char>
    decreases path.len(),
{
    if path.len() > 0 && path.last() == '/' {
        trimmed(path.drop_last())
    } else {
        path
    }
}

/// A path without the single periods it ends in: those name the directory
/// that the path leads to without them.
pub open spec fn plain(path: Seq<char>) -> Seq<char>
    decreases path.len(),
{
    if name_of(path) == seq!['.'] {
        proof {
            lemma_shorter(path);
        }
        plain(trimmed(parent_of(path)))
    } else {
        path
    }
}

/// Whether a path names the root by nothing but single periods.
pub open spec fn is_root(path: Seq<char>) -> bool {
    path.len() > 0 && plain(path).len() == 0
}

/// Without its last component a path is shorter.
pub proof fn lemma_shorter(path: Seq<char>)
    ensures
        trimmed(path).len() <= path.len(),
        name_of(path) == seq!['.'] ==> trimmed(parent_of(path)).len() < path.len(),
    decreases path.len(), 0int,
{
    lemma_trimmed(path);
    lemma_trimmed(parent_of(path));
    text::lemma_last_position(path, '/');
}

/// A path without the slashes it ends in is a start of it.
pub proof fn lemma_trimmed(path: Seq<char>)
    ensures
        trimmed(path).len() <= path.len(),
        trimmed(path) == path.take(trimmed(path).len() as int),
    decreases path.len(),
{
    if path.len() > 0 && path.last() == '/' {
        lemma_trimmed(path.drop_last());
        assert(path.drop_last().take(trimmed(path).len() as int) =~= path.take(
            trimmed(path).len() as int,
        ));
    } else {
        assert(path.take(path.len() as int) =~= path);
    }
}

/// How many clusters of `cluster_bytes` hold `size` bytes.
pub open spec fn clusters_for(size: int, cluster_bytes: int) -> int {
    (size + cluster_bytes - 1) / cluster_bytes
}

/// The bytes of the blocks that hold `size` bytes.
pub open spec fn padded(size: int) -> int {
    (size + 511) / 512 * 512
}

/// The smaller of two numbers.
pub open spec fn least(a: int, b: int) -> int {
    if a <= b {
        a
    } else {
        b
    }
}

impl Volume {
    /// Finding the entry a path leads to.
    #[verifier::opaque]
    pub open spec fn look_up(self, path: Seq<char>) -> (Volume, Result<
        (u32, dir::EntryView),
        Fault,
    >) {
        let (volume, result) = self.resolve(self.boot.root_cluster, parent_of(path));
        match result {
            Err(fault) => (volume, Err(fault)),
            Ok(cluster) => {
                let (volume, result) = volume.read_dir(cluster);
                match result {
                    Err(fault) => (volume, Err(fault)),
                    Ok(listing) => match listing.find(name_of(path)) {
                        None => (volume, Err(Fault::NotFound { name: name_of(path) })),
                        Some(entry) => (volume, Ok((cluster, entry))),
                    },
                }
            },
        }
    }

    /// Opening a file.
    #[verifier::opaque]
    pub open spec fn open(self, path: Seq<char>) -> (Volume, Result<FileView, Fault>) {
        let (volume, result) = self.look_up(path);
        match result {
            Err(fault) => (volume, Err(fault)),
            Ok((cluster, entry)) => if entry.is_directory() {
                (volume, Err(Fault::IsADirectory { name: name_of(path) }))
            } else {
                (
                    volume,
                    Ok(
                        FileView {
                            first_cluster: entry.first_cluster,
                            size: entry.size,
                            directory: cluster,
                            index: entry.index,
                            first_slot: entry.first_slot,
                            short: entry.short,
                            deletions: self.deletions_of(cluster),
                        },
                    ),
                )
            },
        }
    }

    /// Whether a listing still holds the entry a handle was opened from.
    pub open spec fn still_there(self, listing: Listing, file: FileView) -> bool {
        match listing.entry_at(file.index) {
            Some(entry) => entry.short.raw == file.short.raw,
            None => false,
        }
    }

    /// Checking that a handle is not stale: nothing was deleted from its
    /// directory since, and its slot still has its name.
    #[verifier::opaque]
    pub open spec fn check_live(self, file: FileView) -> (Volume, Result<(), Fault>) {
        let stale = Fault::StaleFile { name: file.short.display(self.codepage) };
        if self.deletions_of(file.directory) != file.deletions {
            (self, Err(stale))
        } else {
            let (volume, result) = self.read_dir(file.directory);
            match result {
                Err(fault) => (volume, Err(fault)),
                Ok(listing) => if self.still_there(listing, file) {
                    (volume, Ok(()))
                } else {
                    (volume, Err(stale))
                },
            }
        }
    }

    /// The calls that read `n` bytes from `skip` bytes into `sector` on: the
    /// whole blocks in one go, and a partial one at either end by itself.
    #[verifier::opaque]
    pub open spec fn span_reads(self, sector: int, skip: int, n: int) -> Seq<Access> {
        let lead = if skip != 0 {
            least(512 - skip, n)
        } else {
            0
        };
        let next = if skip != 0 {
            sector + 1
        } else {
            sector
        };
        let whole = (n - lead) / 512;
        let first = if skip != 0 {
            self.sector_reads(sector, 1)
        } else {
            Seq::empty()
        };
        let middle = if whole != 0 {
            self.sector_reads(next, whole)
        } else {
            Seq::empty()
        };
        let last = if (n - lead) % 512 != 0 {
            self.sector_reads(next + whole, 1)
        } else {
            Seq::empty()
        };
        first + middle + last
    }

    /// The calls that read `n` bytes of a chain from `from` on: those of one
    /// span per run that is touched.
    pub open spec fn chain_reads(self, runs: Seq<Run>, from: int, n: int) -> Seq<Access>
        decreases runs.len(),
    {
        if runs.len() == 0 || n <= 0 {
            Seq::empty()
        } else {
            let start = runs[0].file_cluster * self.cluster_bytes();
            let end = (runs[0].file_cluster + runs[0].clusters) * self.cluster_bytes();
            if from >= end {
                self.chain_reads(runs.skip(1), from, n)
            } else {
                let take = least(end - from, n);
                self.span_reads(
                    self.boot.spec_cluster_sector(runs[0].start_cluster as int) + (from - start)
                        / 512,
                    (from - start) % 512,
                    take,
                ) + self.chain_reads(runs.skip(1), from + take, n - take)
            }
        }
    }

    /// Reading up to `length` bytes of a file from `offset` on. What is read
    /// stops at the file's end.
    pub open spec fn read_file(self, file: FileView, offset: int, length: int) -> (
        Volume,
        Result<Seq<u8>, Fault>,
    ) {
        let (volume, result) = self.check_live(file);
        if result is Err {
            (volume, Err(result->Err_0))
        } else if offset >= file.size || length == 0 {
            (volume, Ok(Seq::empty()))
        } else {
            if file.first_cluster == 0 {
                (volume, Err(Fault::Fat(FatError::BadCluster { cluster: 0 })))
            } else {
                match self.table.chain(file.first_cluster) {
                    Err(error) => (volume, Err(Fault::Fat(error))),
                    Ok(clusters) => {
                        let wanted = least(length, file.size - offset);
                        let after = Volume {
                            history: volume.history + volume.chain_reads(
                                table::coalesce(clusters),
                                offset,
                                wanted,
                            ),
                            ..volume
                        };
                        if offset + wanted <= clusters.len() * self.cluster_bytes() {
                            (
                                after,
                                Ok(self.chain_bytes(clusters).subrange(offset, offset + wanted)),
                            )
                        } else {
                            (
                                after,
                                Err(
                                    Fault::Fat(
                                        FatError::ChainShorterThanFile {
                                            start: file.first_cluster,
                                            size: file.size,
                                        },
                                    ),
                                ),
                            )
                        }
                    },
                }
            }
        }
    }

    /// Reading the whole of a file: its last block is read whole too, so that
    /// every run is one span of whole blocks.
    pub open spec fn read_whole(self, file: FileView) -> (Volume, Result<Seq<u8>, Fault>) {
        let (volume, result) = self.check_live(file);
        if result is Err {
            (volume, Err(result->Err_0))
        } else if file.size == 0 {
            (volume, Ok(Seq::empty()))
        } else {
            if file.first_cluster == 0 {
                (volume, Err(Fault::Fat(FatError::BadCluster { cluster: 0 })))
            } else {
                match self.table.chain(file.first_cluster) {
                    Err(error) => (volume, Err(Fault::Fat(error))),
                    Ok(clusters) => (
                        Volume {
                            history: volume.history + volume.chain_reads(
                                table::coalesce(clusters),
                                0,
                                padded(file.size as int),
                            ),
                            ..volume
                        },
                        if file.size <= clusters.len() * self.cluster_bytes() {
                            Ok(self.chain_bytes(clusters).take(file.size as int))
                        } else {
                            Err(
                                Fault::Fat(
                                    FatError::ChainShorterThanFile {
                                        start: file.first_cluster,
                                        size: file.size,
                                    },
                                ),
                            )
                        },
                    ),
                }
            }
        }
    }

    /// The volume after some bytes at the start of `sector` or after its
    /// first `skip` are replaced: the block is read, changed and written.
    pub open spec fn patched(self, sector: int, skip: int, data: Seq<u8>) -> Volume {
        self.after_read(sector, 1).wrote(
            sector,
            bytes::splice(self.sectors(sector, 1), skip, data),
        )
    }

    /// The volume after `data` is written from `skip` bytes into `sector` on:
    /// the whole blocks in one go, and a partial one at either end by itself.
    #[verifier::opaque]
    pub open spec fn wrote_span(self, sector: int, skip: int, data: Seq<u8>) -> Volume {
        let lead = if skip != 0 {
            least(512 - skip, data.len() as int)
        } else {
            0
        };
        let next = if skip != 0 {
            sector + 1
        } else {
            sector
        };
        let rest = data.skip(lead);
        let whole = rest.len() as int / 512;
        let tail = rest.skip(512 * whole);
        let first = if skip != 0 {
            self.patched(sector, skip, data.take(lead))
        } else {
            self
        };
        let second = if whole != 0 {
            first.wrote(next, rest.take(512 * whole))
        } else {
            first
        };
        if tail.len() != 0 {
            second.patched(next + whole, 0, tail)
        } else {
            second
        }
    }

    /// The volume after `data` is written to a chain from `from` on, as far
    /// as the chain reaches: one span per run that is touched.
    pub open spec fn wrote_runs(self, runs: Seq<Run>, from: int, data: Seq<u8>) -> Volume
        decreases runs.len(),
    {
        if runs.len() == 0 || data.len() == 0 {
            self
        } else {
            let start = runs[0].file_cluster * self.cluster_bytes();
            let end = (runs[0].file_cluster + runs[0].clusters) * self.cluster_bytes();
            if from >= end {
                self.wrote_runs(runs.skip(1), from, data)
            } else {
                let take = least(end - from, data.len() as int);
                self.wrote_span(
                    self.boot.spec_cluster_sector(runs[0].start_cluster as int) + (from - start)
                        / 512,
                    (from - start) % 512,
                    data.take(take),
                ).wrote_runs(runs.skip(1), from + take, data.skip(take))
            }
        }
    }

    /// Writing `data` to the chain that starts at `first` from `offset` on.
    #[verifier::opaque]
    pub open spec fn write_chain(self, first: u32, offset: int, data: Seq<u8>) -> (
        Volume,
        Result<(), Fault>,
    ) {
        match self.table.chain(first) {
            Err(error) => (self, Err(Fault::Fat(error))),
            Ok(clusters) => {
                let volume = self.wrote_runs(table::coalesce(clusters), offset, data);
                if offset + data.len() <= clusters.len() * self.cluster_bytes() || data.len()
                    == 0 {
                    (volume, Ok(()))
                } else {
                    (
                        volume,
                        Err(
                            Fault::Fat(
                                FatError::ChainShorterThanFile {
                                    start: first,
                                    size: ((offset + data.len()) % 0x1_0000_0000) as u32,
                                },
                            ),
                        ),
                    )
                }
            },
        }
    }

    /// Writing zeros to a chain from `from` up to `to`, 64 KiB at a time.
    pub open spec fn zero_chain(self, first: u32, from: int, to: int) -> (
        Volume,
        Result<(), Fault>,
    )
        decreases to - from,
    {
        if from >= to {
            (self, Ok(()))
        } else {
            let take = least(to - from, 0x1_0000);
            let (volume, result) = self.write_chain(first, from, bytes::zeros(take as nat));
            if result is Err {
                (volume, result)
            } else {
                volume.zero_chain(first, from + take, to)
            }
        }
    }

    /// Making sure that a file's chain holds `size` bytes. A chain that is
    /// new to the file reaches the device before the file's entry names it.
    #[verifier::opaque]
    pub open spec fn reserve(self, file: FileView, size: u32, now: DateTime) -> (
        Volume,
        FileView,
        Result<(), Fault>,
    ) {
        let wanted = clusters_for(size as int, self.cluster_bytes());
        if wanted == 0 {
            (self, file, Ok(()))
        } else if file.first_cluster == 0 {
            let (table, result) = self.table.allocated(wanted as u32);
            match result {
                Err(error) => (self, file, Err(Fault::Fat(error))),
                Ok(clusters) => {
                    let (volume, result) = Volume { table, ..self }.flush().edit_slot(
                        file.directory,
                        file.index,
                        Edit::Update { first_cluster: clusters[0], size: file.size, at: now },
                    );
                    if result is Err {
                        (volume, file, result)
                    } else {
                        (volume, FileView { first_cluster: clusters[0], ..file }, result)
                    }
                },
            }
        } else {
            match self.table.chain(file.first_cluster) {
                Err(error) => (self, file, Err(Fault::Fat(error))),
                Ok(clusters) => if wanted <= clusters.len() {
                    (self, file, Ok(()))
                } else {
                    let (table, result) = self.table.appended(
                        clusters.last(),
                        (wanted - clusters.len()) as u32,
                    );
                    match result {
                        Err(error) => (Volume { table, ..self }, file, Err(Fault::Fat(error))),
                        Ok(_) => (Volume { table, ..self }.flush(), file, Ok(())),
                    }
                },
            }
        }
    }

    /// Writing to a file from `offset` on, which may make it longer. What
    /// lies between its old end and `offset` becomes zeros, and the new
    /// length is recorded last.
    pub open spec fn write_file_at(
        self,
        file: FileView,
        offset: int,
        data: Seq<u8>,
        now: DateTime,
    ) -> (Volume, FileView, Result<(), Fault>) {
        let end = offset + data.len();
        let (live, result) = self.check_live(file);
        if result is Err || data.len() == 0 {
            (live, file, result)
        } else if end > u32::MAX {
            (
                live,
                file,
                Err(
                    Fault::Fat(
                        FatError::DiskFull {
                            wanted: u32::MAX,
                            free: self.table.free_count() as u32,
                        },
                    ),
                ),
            )
        } else {
            live.write_live(file, offset, data, now)
        }
    }

    /// Writing to a file that is known to be live.
    #[verifier::opaque]
    pub open spec fn write_live(
        self,
        file: FileView,
        offset: int,
        data: Seq<u8>,
        now: DateTime,
    ) -> (Volume, FileView, Result<(), Fault>) {
        let end = offset + data.len();
        let (reserved, file, result) = self.reserve(file, end as u32, now);
        if result is Err {
            (reserved, file, result)
        } else {
            let (zeroed, result) = if offset > file.size {
                reserved.zero_chain(file.first_cluster, file.size as int, offset)
            } else {
                (reserved, Ok(()))
            };
            if result is Err {
                (zeroed, file, result)
            } else {
                let (written, result) = zeroed.write_chain(file.first_cluster, offset, data);
                if result is Err || end <= file.size {
                    (written, file, result)
                } else {
                    let (recorded, result) = written.edit_slot(
                        file.directory,
                        file.index,
                        Edit::Update {
                            first_cluster: file.first_cluster,
                            size: end as u32,
                            at: now,
                        },
                    );
                    if result is Err {
                        (recorded, file, result)
                    } else {
                        (recorded, FileView { size: end as u32, ..file }, result)
                    }
                }
            }
        }
    }

    /// Making a file longer, with zeros, or shorter. A shorter file's entry
    /// is changed before its clusters are given back.
    pub open spec fn truncate(self, file: FileView, size: u32, now: DateTime) -> (
        Volume,
        FileView,
        Result<(), Fault>,
    ) {
        let (live, result) = self.check_live(file);
        if result is Err || size == file.size {
            (live, file, result)
        } else if size > file.size {
            let (reserved, file, result) = live.reserve(file, size, now);
            if result is Err {
                (reserved, file, result)
            } else {
                let (zeroed, result) = reserved.zero_chain(
                    file.first_cluster,
                    file.size as int,
                    size as int,
                );
                if result is Err {
                    (zeroed, file, result)
                } else {
                    let (recorded, result) = zeroed.edit_slot(
                        file.directory,
                        file.index,
                        Edit::Update { first_cluster: file.first_cluster, size, at: now },
                    );
                    if result is Err {
                        (recorded, file, result)
                    } else {
                        (recorded, FileView { size, ..file }, result)
                    }
                }
            }
        } else {
            let keep = clusters_for(size as int, self.cluster_bytes());
            let first = if keep == 0 {
                0
            } else {
                file.first_cluster
            };
            let (recorded, result) = live.edit_slot(
                file.directory,
                file.index,
                Edit::Update { first_cluster: first, size, at: now },
            );
            if result is Err {
                (recorded, file, result)
            } else if file.first_cluster == 0 {
                (recorded, FileView { size, first_cluster: first, ..file }, Ok(()))
            } else {
                let (table, result) = recorded.table.shortened(file.first_cluster, keep as u32);
                match result {
                    Err(error) => (recorded, file, Err(Fault::Fat(error))),
                    Ok(()) => (
                        Volume { table, ..recorded }.flush(),
                        FileView { size, first_cluster: first, ..file },
                        Ok(()),
                    ),
                }
            }
        }
    }

    /// Giving a chain back: its table changes reach the device at once.
    #[verifier::opaque]
    pub open spec fn free_chain(self, first: u32) -> (Volume, Result<(), Fault>) {
        let (table, result) = self.table.freed(first);
        match result {
            Err(error) => (self, Err(Fault::Fat(error))),
            Ok(_) => (Volume { table, ..self }.flush(), Ok(())),
        }
    }

    /// Removing a file: its entry goes before its clusters do.
    pub open spec fn remove(self, path: Seq<char>) -> (Volume, Result<(), Fault>) {
        let (opened, result) = self.open(path);
        match result {
            Err(fault) => (opened, Err(fault)),
            Ok(file) => {
                let (deleted, result) = opened.delete_slots(
                    file.directory,
                    file.first_slot,
                    file.index,
                );
                if result is Err || file.first_cluster == 0 {
                    (deleted, result)
                } else {
                    deleted.free_chain(file.first_cluster)
                }
            },
        }
    }

    /// Choosing the form a new name is stored in.
    #[verifier::opaque]
    pub open spec fn plan_name(self, directory: u32, name: Seq<char>) -> (
        Volume,
        Result<StoredView, Fault>,
    ) {
        let (volume, result) = self.read_dir(directory);
        match result {
            Err(fault) => (volume, Err(fault)),
            Ok(listing) => if listing.find(name) is Some {
                (volume, Err(Fault::AlreadyExists { name }))
            } else {
                (
                    volume,
                    name::planned(
                        name,
                        self.codepage,
                        |alias: Seq<char>| listing.find(alias) is Some,
                    ),
                )
            },
        }
    }

    /// The volume with a chain that was allocated for nothing given back, in
    /// memory.
    pub open spec fn undone(self, first: u32) -> Volume {
        if first == 0 {
            self
        } else {
            Volume { table: self.table.freed(first).0, ..self }
        }
    }

    /// Putting a new entry into a directory: its chain, if any, reaches the
    /// device first, and is given back where there is no room for the entry.
    #[verifier::opaque]
    pub open spec fn publish(self, directory: u32, stored: StoredView, entry: Seq<u8>, first: u32, index: u32) -> (
        Volume,
        Result<(), Fault>,
    ) {
        let (volume, result) = self.flush().put_slots(directory, index, stored.slots.push(entry));
        if result is Err {
            (volume.undone(first), result)
        } else {
            (volume, result)
        }
    }

    /// Creating a file of no length with room for `size` bytes.
    pub open spec fn create(self, path: Seq<char>, size: u32, now: DateTime) -> (
        Volume,
        Result<FileView, Fault>,
    ) {
        let (resolved, result) = self.resolve(self.boot.root_cluster, parent_of(path));
        match result {
            Err(fault) => (resolved, Err(fault)),
            Ok(directory) => {
                let (planned, result) = resolved.plan_name(directory, name_of(path));
                match result {
                    Err(fault) => (planned, Err(fault)),
                    Ok(stored) => {
                        let count = clusters_for(size as int, self.cluster_bytes()) as u32;
                        let (table, result) = planned.table.allocated(count);
                        match result {
                            Err(error) => (planned, Err(Fault::Fat(error))),
                            Ok(clusters) => Volume { table, ..planned }.create_with(
                                directory,
                                stored,
                                if clusters.len() > 0 {
                                    clusters[0]
                                } else {
                                    0
                                },
                                now,
                            ),
                        }
                    },
                }
            },
        }
    }

    /// Creating a file whose name is chosen and whose chain is allocated.
    #[verifier::opaque]
    pub open spec fn create_with(self, directory: u32, stored: StoredView, first: u32, now: DateTime) -> (
        Volume,
        Result<FileView, Fault>,
    ) {
        let (roomy, result) = self.find_room(
            directory,
            (stored.slots.len() + 1) as u32,
            crate::fs::MAX_DIRECTORY_GROWTH as int,
        );
        match result {
            Err(fault) => (roomy.undone(first), Err(fault)),
            Ok(index) => {
                let (published, result) = roomy.publish(
                    directory,
                    stored,
                    dir::entry_bytes(stored.short, 0x20, first, 0, now),
                    first,
                    index,
                );
                match result {
                    Err(fault) => (published, Err(fault)),
                    Ok(()) => (
                        published,
                        Ok(
                            FileView {
                                first_cluster: first,
                                size: 0,
                                directory,
                                index: (index + stored.slots.len()) as u32,
                                first_slot: index,
                                short: stored.short,
                                deletions: self.deletions_of(directory),
                            },
                        ),
                    ),
                }
            },
        }
    }

    /// The bytes of a new directory's first cluster.
    pub open spec fn new_directory(self, cluster: u32, parent: u32, now: DateTime) -> Seq<u8> {
        bytes::splice(
            bytes::zeros(self.cluster_bytes() as nat),
            0,
            dir::entry_bytes(dir::dot_name(), 0x10, cluster, 0, now) + dir::entry_bytes(
                dir::dot_dot_name(),
                0x10,
                if parent == self.boot.root_cluster {
                    0
                } else {
                    parent
                },
                0,
                now,
            ),
        )
    }

    /// Creating a directory: its own cluster is filled before its entry is
    /// written.
    pub open spec fn create_dir(self, path: Seq<char>, now: DateTime) -> (
        Volume,
        Result<u32, Fault>,
    ) {
        let (resolved, result) = self.resolve(self.boot.root_cluster, parent_of(path));
        match result {
            Err(fault) => (resolved, Err(fault)),
            Ok(parent) => {
                let (planned, result) = resolved.plan_name(parent, name_of(path));
                match result {
                    Err(fault) => (planned, Err(fault)),
                    Ok(stored) => {
                        let (table, result) = planned.table.allocated(1);
                        match result {
                            Err(error) => (planned, Err(Fault::Fat(error))),
                            Ok(clusters) => Volume { table, ..planned }.create_dir_with(
                                parent,
                                stored,
                                clusters[0],
                                now,
                            ),
                        }
                    },
                }
            },
        }
    }

    /// Creating a directory whose name is chosen and whose cluster is
    /// allocated.
    #[verifier::opaque]
    pub open spec fn create_dir_with(self, parent: u32, stored: StoredView, cluster: u32, now: DateTime) -> (
        Volume,
        Result<u32, Fault>,
    ) {
        let (roomy, result) = self.find_room(
            parent,
            (stored.slots.len() + 1) as u32,
            crate::fs::MAX_DIRECTORY_GROWTH as int,
        );
        match result {
            Err(fault) => (roomy.undone(cluster), Err(fault)),
            Ok(index) => {
                let (published, result) = roomy.wrote(
                    self.boot.spec_cluster_sector(cluster as int),
                    self.new_directory(cluster, parent, now),
                ).publish(
                    parent,
                    stored,
                    dir::entry_bytes(stored.short, 0x10, cluster, 0, now),
                    cluster,
                    index,
                );
                match result {
                    Err(fault) => (published, Err(fault)),
                    Ok(()) => (published, Ok(cluster)),
                }
            },
        }
    }

    /// Removing a directory that holds nothing but itself and its parent.
    ///
    /// The root is no entry of any directory. A path that ends in a directory's
    /// name for its parent leads to one that holds that directory at least.
    pub open spec fn remove_dir(self, path: Seq<char>) -> (Volume, Result<(), Fault>) {
        if is_root(path) {
            (self, Err(Fault::NotFound { name: name_of(path) }))
        } else {
            self.remove_plain_dir(plain(path), name_of(path))
        }
    }

    /// Removing a directory by a path that does not end in a single period.
    /// The answer that it is not empty says `shown`.
    pub open spec fn remove_plain_dir(self, path: Seq<char>, shown: Seq<char>) -> (
        Volume,
        Result<(), Fault>,
    ) {
        let (found, result) = self.look_up(path);
        match result {
            Err(fault) => (found, Err(fault)),
            Ok((parent, entry)) => if !entry.is_directory() {
                (found, Err(Fault::NotADirectory { name: name_of(path) }))
            } else if dir::is_dots(entry.name()) {
                (found, Err(Fault::DirectoryNotEmpty { name: shown }))
            } else {
                let (read, result) = found.read_dir(entry.first_cluster);
                match result {
                    Err(fault) => (read, Err(fault)),
                    Ok(listing) => if !listing.is_vacant() {
                        (read, Err(Fault::DirectoryNotEmpty { name: shown }))
                    } else {
                        let (deleted, result) = read.delete_slots(
                            parent,
                            entry.first_slot,
                            entry.index,
                        );
                        if result is Err {
                            (deleted, result)
                        } else {
                            let (freed, result) = deleted.free_chain(entry.first_cluster);
                            if result is Err {
                                (freed, result)
                            } else {
                                (freed.forgot(entry.first_cluster), result)
                            }
                        }
                    },
                }
            },
        }
    }

    /// Whether `tried` is this volume after a file was looked for, where
    /// `found` says whether it could be opened. One that could not be need
    /// not be missing: reading may have failed.
    pub open spec fn looked_for(self, path: Seq<char>, tried: Volume, found: bool) -> bool {
        let (opened, result) = self.open(path);
        if found {
            tried == opened && result is Ok
        } else {
            ||| tried == opened && result is Err
            ||| {
                &&& exists|fault: Fault| #[trigger] self.look_up_stops(path, tried, fault)
                &&& calls::begins(tried.history, opened.history)
            }
        }
    }

    /// Writing a whole file in place of whatever file has its name, where
    /// `found` says whether there is one.
    pub open spec fn replace_file(
        self,
        path: Seq<char>,
        data: Seq<u8>,
        found: bool,
        created: DateTime,
        written: DateTime,
    ) -> (Volume, Result<FileView, Fault>) {
        let (removed, result) = if found {
            self.remove(path)
        } else {
            (self, Ok(()))
        };
        if result is Err {
            (removed, Err(result->Err_0))
        } else {
            let (made, result) = removed.create(
                path,
                (data.len() % 0x1_0000_0000) as u32,
                created,
            );
            match result {
                Err(fault) => (made, Err(fault)),
                Ok(file) => if data.len() == 0 {
                    (made, Ok(file))
                } else {
                    let (volume, file, result) = made.write_file_at(file, 0, data, written);
                    match result {
                        Err(fault) => (volume, Err(fault)),
                        Ok(()) => (volume, Ok(file)),
                    }
                },
            }
        }
    }
}

/// Finding an entry changes nothing else.
pub proof fn lemma_look_up_looks(volume: Volume, path: Seq<char>)
    ensures
        volume.look_up(path).0.looks_like(volume),
{
    reveal(Volume::look_up);
    crate::volume::lemma_resolve_looks(volume, volume.boot.root_cluster, parent_of(path));
    let (resolved, result) = volume.resolve(volume.boot.root_cluster, parent_of(path));
    if result is Ok {
        crate::volume::lemma_read_dir_looks(resolved, result->Ok_0);
    }
}

/// Opening a file changes nothing else.
pub proof fn lemma_open_looks(volume: Volume, path: Seq<char>)
    ensures
        volume.open(path).0.looks_like(volume),
{
    reveal(Volume::open);
    lemma_look_up_looks(volume, path);
}

/// Checking a handle changes nothing else.
pub proof fn lemma_check_live_looks(volume: Volume, file: FileView)
    ensures
        volume.check_live(file).0.looks_like(volume),
{
    reveal(Volume::check_live);
    crate::volume::lemma_read_dir_looks(volume, file.directory);
}

/// Choosing a name changes nothing else.
pub proof fn lemma_plan_name_looks(volume: Volume, directory: u32, name: Seq<char>)
    ensures
        volume.plan_name(directory, name).0.looks_like(volume),
{
    reveal(Volume::plan_name);
    crate::volume::lemma_read_dir_looks(volume, directory);
}

impl Volume {
    /// Whether this is `before` after some writing of sectors: nothing
    /// differs but the device's bytes, the calls made, what a device that
    /// failed says of its size, and the mark that the volume is dirty.
    pub open spec fn written_from(self, before: Volume) -> bool {
        &&& self == (Volume {
            disk: self.disk,
            history: self.history,
            capacity: self.capacity,
            marked_dirty: self.marked_dirty,
            ..before
        })
        &&& before.marked_dirty ==> self.marked_dirty
    }
}

/// Writing a span changes sectors only.
pub proof fn lemma_wrote_span_frame(volume: Volume, sector: int, skip: int, data: Seq<u8>)
    ensures
        volume.wrote_span(sector, skip, data).written_from(volume),
        volume.wrote_span(sector, skip, data).disk.len() == volume.disk.len(),
{
    reveal(Volume::wrote_span);
}

/// Writing to runs changes sectors only.
pub proof fn lemma_wrote_runs_frame(volume: Volume, runs: Seq<Run>, from: int, data: Seq<u8>)
    ensures
        volume.wrote_runs(runs, from, data).written_from(volume),
        volume.wrote_runs(runs, from, data).disk.len() == volume.disk.len(),
    decreases runs.len(),
{
    if runs.len() > 0 && data.len() > 0 {
        let start = runs[0].file_cluster * volume.cluster_bytes();
        let end = (runs[0].file_cluster + runs[0].clusters) * volume.cluster_bytes();
        if from >= end {
            lemma_wrote_runs_frame(volume, runs.skip(1), from, data);
        } else {
            let take = least(end - from, data.len() as int);
            let sector = volume.boot.spec_cluster_sector(runs[0].start_cluster as int) + (from
                - start) / 512;
            let span = volume.wrote_span(sector, (from - start) % 512, data.take(take));
            lemma_wrote_span_frame(volume, sector, (from - start) % 512, data.take(take));
            lemma_wrote_runs_frame(span, runs.skip(1), from + take, data.skip(take));
        }
    }
}

/// Writing to a chain changes sectors only.
pub proof fn lemma_write_chain_frame(volume: Volume, first: u32, offset: int, data: Seq<u8>)
    ensures
        volume.write_chain(first, offset, data).0.written_from(volume),
        volume.write_chain(first, offset, data).0.disk.len() == volume.disk.len(),
{
    reveal(Volume::write_chain);
    if volume.table.chain(first) is Ok {
        lemma_wrote_runs_frame(
            volume,
            table::coalesce(volume.table.chain(first)->Ok_0),
            offset,
            data,
        );
    }
}

/// Writing zeros to a chain changes sectors only.
pub proof fn lemma_zero_chain_frame(volume: Volume, first: u32, from: int, to: int)
    ensures
        volume.zero_chain(first, from, to).0.written_from(volume),
        volume.zero_chain(first, from, to).0.disk.len() == volume.disk.len(),
    decreases to - from,
{
    if from < to {
        let take = least(to - from, 0x1_0000);
        lemma_write_chain_frame(volume, first, from, bytes::zeros(take as nat));
        let (after, result) = volume.write_chain(first, from, bytes::zeros(take as nat));
        if result is Ok {
            lemma_zero_chain_frame(after, first, from + take, to);
        }
    }
}

/// The calls of a span depend on where the volume is and on the device's
/// limit alone.
pub proof fn lemma_span_reads_same(a: Volume, b: Volume, sector: int, skip: int, n: int)
    requires
        a.limit == b.limit,
        a.first_block == b.first_block,
    ensures
        a.span_reads(sector, skip, n) == b.span_reads(sector, skip, n),
{
    reveal(Volume::span_reads);
}

/// What is read of a chain depends only on how the volume is laid out.
pub proof fn lemma_chain_reads_same(a: Volume, b: Volume, runs: Seq<Run>, from: int, n: int)
    requires
        a.limit == b.limit,
        a.first_block == b.first_block,
        a.boot == b.boot,
    ensures
        a.chain_reads(runs, from, n) == b.chain_reads(runs, from, n),
    decreases runs.len(),
{
    if runs.len() > 0 && n > 0 {
        let start = runs[0].file_cluster * a.cluster_bytes();
        let end = (runs[0].file_cluster + runs[0].clusters) * a.cluster_bytes();
        if from >= end {
            lemma_chain_reads_same(a, b, runs.skip(1), from, n);
        } else {
            let take = least(end - from, n);
            lemma_span_reads_same(
                a,
                b,
                a.boot.spec_cluster_sector(runs[0].start_cluster as int) + (from - start) / 512,
                (from - start) % 512,
                take,
            );
            lemma_chain_reads_same(a, b, runs.skip(1), from + take, n - take);
        }
    }
}

} // verus!
