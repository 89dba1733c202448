//! A FAT32 filesystem that holds its allocation table and its directories in
//! memory, over any device that moves 512-byte blocks.
//!
//! [`FileSystem::mount`] reads the boot sector and the whole allocation
//! table. From then on a cluster lookup is an array access, and a contiguous
//! file is read or written in one transfer. Every change reaches the device
//! in an order that an interruption can at worst leave clusters allocated to
//! no one: what an entry names is written before the entry is.
//!
//! `volume` and `operations` say what a mounted volume is and what each
//! operation does to it, as mathematical functions; the operations of
//! [`FileSystem`] are proved to do just that. Where the device fails in the
//! middle, the calls made of it are proved to be the first of those that the
//! operation makes, and what is held in memory to be as it was before one of
//! them (`stops`).
//!
//! What follows for the library as a whole is proved in modules of its own:
//!
//! * `laws`, `creation`, `folders`, `removal`, `replacing` and `resizing`: what
//!   is read of a file or a directory after it was written, created, removed,
//!   replaced or made longer or shorter;
//! * `others`: that every other file is found and reads as before;
//! * `handles`: when a handle is stale, and what is refused;
//! * `transfers`: how few calls reading and writing take;
//! * `steady`: that no operation breaks what holds of the allocation table;
//! * `settled` and `copies`: that a change that succeeded leaves nothing to be
//!   written, and is in every copy of the table on the device;
//! * `stamps`: what is read back of a time that was written down;
//! * `space`: how many clusters are free after a change;
//! * `coherence`: that directories held in memory are what the device stores;
//! * `durability`: what a sync leaves on the device, and when the dirty flag is
//!   set;
//! * `remount`: that what was synced mounts again, and reads as it did;
//! * `ordering` and `outage`: what reaches the device first, and what a power
//!   cut or a failure leaves intact;
//! * `ascii`: which names read back as they were given;
//! * `calls`: that calls are only ever added;
//! * `listing` and `paths`: which entries a directory has, by which names they
//!   are found, and which step of a path is refused;
//! * `progress` and `founding`: that reading, writing, resizing, removing and
//!   creating succeed wherever they can, and what they answer otherwise.
//!
//! What is stored is told byte by byte, and bit by bit:
//!
//! * `geometry` and `partitions`: which first blocks and which partition tables
//!   are accepted, and what they say;
//! * `ledger`: what the entries of the allocation table say, how chains are
//!   walked, and which clusters are allocated;
//! * `slots`: what the slots of a directory say, and what is a directory;
//! * `naming`: which names can be stored, and how;
//! * `calendar`: which moments there are, and how they are stored;
//! * `upkeep`: the mark of a volume in use, and what a sync notes down;
//! * `messages`: that messages tell what they are about;
//! * `answers` and `replies`: what the calls themselves return in those terms.
//!
//! `bytes`, `text`, `table`, `chains` and `storage` hold what those rest on.
use vstd::prelude::*;

pub mod answers;
pub mod ascii;
pub mod blockdev;
pub mod boot;
pub mod bridge;
pub mod bytes;
pub mod calendar;
pub mod calls;
pub mod chains;
pub mod codepage;
pub mod coherence;
pub mod copies;
pub mod creation;
pub mod dir;
pub mod durability;
pub mod error;
pub mod fat;
pub mod file;
pub mod folders;
pub mod founding;
pub mod fs;
pub mod geometry;
pub mod handles;
pub mod laws;
pub mod ledger;
pub mod listing;
pub mod mbr;
pub mod messages;
pub mod name;
pub mod naming;
pub mod operations;
pub mod ordering;
pub mod others;
pub mod outage;
pub mod partitions;
pub mod paths;
pub mod progress;
pub mod remount;
pub mod removal;
pub mod replacing;
pub mod replies;
pub mod resizing;
pub mod settled;
pub mod slots;
pub mod space;
pub mod stamps;
pub mod steady;
pub mod stops;
pub mod storage;
pub mod table;
pub mod text;
pub mod time;
pub mod transfers;
pub mod upkeep;
pub mod volume;

pub use crate::blockdev::{BlockDevice, BLOCK_SIZE};
pub use crate::boot::{BootSector, FsInfo};
pub use crate::codepage::Codepage;
pub use crate::dir::{Attributes, DirEntry, Directory, ShortName};
pub use crate::error::{BootError, Error, FatError, Format, Geometry, Result};
pub use crate::fat::{Fat, Run};
pub use crate::file::File;
pub use crate::fs::FileSystem;
pub use crate::time::{Clock, DateTime, EpochClock, FnClock, Packed};

verus! {

} // verus!
