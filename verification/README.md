# resident_fat

A FAT32 filesystem that spends memory to move data in whole runs. It holds the
allocation table and every directory it has read in memory, so a contiguous
file is read or written in a single transfer, however large it is.

The library is written in Verus. Each public function states what it returns and
what it does to the volume, the device's bytes and the calls made of the device
included, and is proved to do so.

## Using it

Implement `BlockDevice` for a device of 512-byte blocks, mount it, and work with
paths and handles:

* `FileSystem::mount`, `mount_at`, `mount_with` and `mount_partition` read the
  boot sector and load the allocation table.
* `open_dir`, `open`, `read_at` and `read_all` read.
* `create`, `create_with_size`, `create_dir`, `write_at`, `write_file`,
  `truncate`, `remove` and `remove_dir` change the volume.
* `sync` and `unmount` write the table back and clear the dirty flag.

A `Clock` stamps what is written; without one, everything carries the first date
the format has. The functions whose names end in `_stamped` take the time as an
argument.

## What is proved

`src/volume.rs` and `src/operations.rs` say what a mounted volume is and what each
operation does to it. The laws are public proof functions:

* A file reads back what was written to it, and zeros where a gap was left; of
  its times, a write moves the last change alone (`laws`, `replacing`,
  `resizing`).
* A path that was created leads to what was created, and one that was removed
  leads nowhere (`creation`, `folders`, `removal`, `replacing`). Every other file
  is found and reads as before (`others`).
* A path is refused at its first step that leads nowhere (`paths`).
* A time is read back as finely as the format keeps it (`stamps`).
* Names are found whatever their case, long or short, and a wrong checksum costs
  one long name, whatever run of slots it is in (`listing`, `ascii`).
* A handle is stale once a file or a directory was removed from its directory, or
  a file there was replaced, and every read and write through it is refused
  (`handles`).
* A contiguous file is one transfer, and any file one per run (`transfers`).
* Every operation keeps the table on the device up to date but for what is known
  to await writing (`steady`), which after a successful change is nothing
  (`settled`), with each change in every copy (`copies`), and the directories in
  memory true to the device (`coherence`).
* What is created takes the clusters it needs, and what is removed or becomes
  shorter gives its own back (`space`).
* Links reach the device before the entry that names them, and an entry goes
  before its clusters are given back (`ordering`).
* Whatever call a power cut or a failure comes after, no other file's data or
  links are touched (`outage`).
* Where the device fails, the calls made are the first of those the operation
  makes (`calls`), and what is in memory is as it was before one of them
  (`stops`).
* The dirty flag is set before the first change and cleared by the last write of
  a sync (`durability`).
* What was synced mounts again, with every directory and every file as it was: a
  file that was written, synced and mounted again reads back (`remount`).

What is taken on trust is a handful of functions of the standard library that
change the case of letters (`src/text.rs`) and the one that prints a device's error
(`src/error.rs`), and that a device does what the contract of `BlockDevice` says.

## Layout

* `src/` is the library.
* `tests/` runs it on volumes held in memory.
* `app/` connects it to other crates: a bridge from `embedded-sdmmc` drivers, and
  error types with `Display` and `Error`.
