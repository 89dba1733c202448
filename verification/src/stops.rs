//! Where an operation may stop when the device fails it: what is then held in
//! memory is what was held before one of its calls.
use vstd::prelude::*;

use crate::dir;
use crate::error::Fault;
use crate::name::StoredView;
use crate::operations;
use crate::operations::FileView;
use crate::time::DateTime;
use crate::volume;
use crate::volume::Volume;

verus! {

impl Volume {
    /// Whether everything in memory is as it is at `reached`.
    pub open spec fn stands_at(self, reached: Volume) -> bool {
        &&& self.only_read(reached)
        &&& self.directories == reached.directories
    }

    /// Whether everything in memory is as it is at `reached`, but that the
    /// volume may have been marked dirty.
    pub open spec fn stops_at(self, reached: Volume) -> bool {
        &&& self.kept(reached)
        &&& self.table == reached.table
        &&& self.fs_info == reached.fs_info
        &&& self.deletions == reached.deletions
        &&& self.directories == reached.directories
        &&& reached.marked_dirty ==> self.marked_dirty
    }

    /// Whether everything in memory is as it is at `reached`, where a directory
    /// that is not held could not be read: the device failed, or there was
    /// not the memory for its clusters.
    pub open spec fn unread(self, reached: Volume, directory: u32, fault: Fault) -> bool {
        let clusters = reached.table.chain(directory);
        &&& self.stands_at(reached)
        &&& !reached.directories.contains_key(directory)
        &&& clusters is Ok
        &&& fault matches Fault::OutOfMemory { bytes } ==> bytes == clusters->Ok_0.len()
            * reached.cluster_bytes()
    }

    /// Walking a path may stop at any of the directories on it that is not
    /// held.
    pub open spec fn resolve_stops(
        self,
        cluster: u32,
        path: Seq<char>,
        after: Volume,
        fault: Fault,
    ) -> bool
        decreases path.len(),
    {
        let name = volume::first_component(path);
        let rest = volume::after_component(path);
        if path.len() == 0 {
            false
        } else if name.len() == 0 || name =~= seq!['.'] {
            self.resolve_stops(cluster, rest, after, fault)
        } else {
            let (entered, result) = self.enter(cluster, name);
            ||| after.unread(self, cluster, fault)
            ||| result is Ok && entered.resolve_stops(result->Ok_0, rest, after, fault)
        }
    }

    /// Opening a directory may stop on the way to it, and at itself.
    pub open spec fn open_dir_stops(self, path: Seq<char>, after: Volume, fault: Fault) -> bool {
        let (resolved, result) = self.resolve(self.boot.root_cluster, path);
        ||| self.resolve_stops(self.boot.root_cluster, path, after, fault)
        ||| result is Ok && after.unread(resolved, result->Ok_0, fault)
    }

    /// Looking a path up may stop on the way to its parent, and at that.
    pub open spec fn look_up_stops(self, path: Seq<char>, after: Volume, fault: Fault) -> bool {
        self.open_dir_stops(operations::parent_of(path), after, fault)
    }

    /// Checking a handle may stop at its directory, unless the handle is known
    /// to be stale without that.
    pub open spec fn check_stops(self, file: FileView, after: Volume, fault: Fault) -> bool {
        &&& self.deletions_of(file.directory) == file.deletions
        &&& after.unread(self, file.directory, fault)
    }

    /// Reading a file may stop while its handle is checked, and where the
    /// device fails to read its bytes.
    pub open spec fn read_stops(
        self,
        file: FileView,
        offset: int,
        length: int,
        after: Volume,
        fault: Fault,
    ) -> bool {
        let (live, result) = self.check_live(file);
        ||| self.check_stops(file, after, fault)
        ||| {
            &&& result is Ok
            &&& offset < file.size
            &&& length > 0
            &&& file.first_cluster != 0
            &&& self.table.chain(file.first_cluster) is Ok
            &&& fault is Device
            &&& after.stands_at(live)
        }
    }

    /// Reading a whole file may stop while its handle is checked, where there
    /// is not the memory for its blocks, and where the device fails to read
    /// them.
    pub open spec fn read_whole_stops(self, file: FileView, after: Volume, fault: Fault) -> bool {
        let (live, result) = self.check_live(file);
        ||| self.check_stops(file, after, fault)
        ||| {
            &&& result is Ok
            &&& file.size > 0
            &&& file.first_cluster != 0
            &&& self.table.chain(file.first_cluster) is Ok
            &&& fault matches Fault::OutOfMemory { bytes } ==> bytes == file.size
            &&& after.stands_at(live)
        }
    }

    /// Deleting slots of a directory may stop before any of them; the
    /// deletion counts, and once a slot is gone the directory is not held.
    pub open spec fn delete_stops(self, directory: u32, after: Volume) -> bool {
        let counted = self.counted(directory);
        ||| after.stops_at(counted)
        ||| after.stops_at(counted.forgot(directory))
    }

    /// Growing a directory may stop before its new cluster is cleared.
    pub open spec fn grow_stops(self, after: Volume) -> bool {
        after.stops_at(Volume { table: self.table.allocated(1).0, ..self })
    }

    /// Finding room may stop at the directory, where that is not held, and
    /// where the device fails to make it longer, each time that is tried.
    pub open spec fn find_room_stops(
        self,
        directory: u32,
        count: u32,
        attempts: int,
        after: Volume,
        fault: Fault,
    ) -> bool
        decreases attempts,
    {
        let (read, result) = self.read_dir(directory);
        let (grown, growth) = read.grow_directory(directory);
        ||| after.unread(self, directory, fault)
        ||| {
            &&& attempts > 0
            &&& result is Ok
            &&& result->Ok_0.room_for(count) is None
            &&& {
                ||| fault is Device && read.grow_stops(after)
                ||| growth is Ok && grown.find_room_stops(
                    directory,
                    count,
                    attempts - 1,
                    after,
                    fault,
                )
            }
        }
    }

    /// Writing a new entry may stop before the table is written, and before
    /// the entry is. Either way its chain is given back.
    pub open spec fn publish_stops(self, first: u32, after: Volume) -> bool {
        ||| after.stops_at(self.undone(first))
        ||| after.stops_at(self.flush().undone(first))
    }

    /// Putting a new file in its directory may stop while room is found, and
    /// while its entry is written. Either way its chain is given back.
    pub open spec fn create_with_stops(
        self,
        directory: u32,
        stored: StoredView,
        first: u32,
        after: Volume,
        fault: Fault,
    ) -> bool {
        let count = (stored.slots.len() + 1) as u32;
        let attempts = crate::fs::MAX_DIRECTORY_GROWTH as int;
        let (roomy, result) = self.find_room(directory, count, attempts);
        ||| exists|stopped: Volume| #[trigger]
            self.find_room_stops(directory, count, attempts, stopped, fault) && after.stands_at(
                stopped.undone(first),
            )
        ||| result is Ok && fault is Device && roomy.publish_stops(first, after)
    }

    /// Creating a file may stop on the way to its directory, before that is
    /// read, and while the file is put in it.
    pub open spec fn create_stops(
        self,
        path: Seq<char>,
        size: u32,
        now: DateTime,
        after: Volume,
        fault: Fault,
    ) -> bool {
        let root = self.boot.root_cluster;
        let (resolved, found) = self.resolve(root, operations::parent_of(path));
        let (planned, plan) = resolved.plan_name(found->Ok_0, operations::name_of(path));
        let count = operations::clusters_for(size as int, self.cluster_bytes()) as u32;
        let (table, taken) = planned.table.allocated(count);
        let first = if taken->Ok_0.len() > 0 {
            taken->Ok_0[0]
        } else {
            0
        };
        ||| self.look_up_stops(path, after, fault)
        ||| {
            &&& found is Ok
            &&& plan is Ok
            &&& taken is Ok
            &&& Volume { table, ..planned }.create_with_stops(
                found->Ok_0,
                plan->Ok_0,
                first,
                after,
                fault,
            )
        }
    }

    /// Making a directory may stop while room is found, before its cluster is
    /// filled, and while its entry is written. Each time its cluster is given
    /// back.
    pub open spec fn create_dir_with_stops(
        self,
        parent: u32,
        stored: StoredView,
        cluster: u32,
        now: DateTime,
        after: Volume,
        fault: Fault,
    ) -> bool {
        let count = (stored.slots.len() + 1) as u32;
        let attempts = crate::fs::MAX_DIRECTORY_GROWTH as int;
        let (roomy, result) = self.find_room(parent, count, attempts);
        let filled = roomy.wrote(
            self.boot.spec_cluster_sector(cluster as int),
            self.new_directory(cluster, parent, now),
        );
        ||| exists|stopped: Volume| #[trigger]
            self.find_room_stops(parent, count, attempts, stopped, fault) && after.stands_at(
                stopped.undone(cluster),
            )
        ||| {
            &&& result is Ok
            &&& fault is Device
            &&& after.stops_at(roomy.undone(cluster)) || filled.publish_stops(cluster, after)
        }
    }

    /// Creating a directory may stop on the way to its parent, before that is
    /// read, and while the directory is put in it.
    pub open spec fn create_dir_stops(
        self,
        path: Seq<char>,
        now: DateTime,
        after: Volume,
        fault: Fault,
    ) -> bool {
        let root = self.boot.root_cluster;
        let (resolved, found) = self.resolve(root, operations::parent_of(path));
        let (planned, plan) = resolved.plan_name(found->Ok_0, operations::name_of(path));
        let (table, taken) = planned.table.allocated(1);
        ||| self.look_up_stops(path, after, fault)
        ||| {
            &&& found is Ok
            &&& plan is Ok
            &&& taken is Ok
            &&& Volume { table, ..planned }.create_dir_with_stops(
                found->Ok_0,
                plan->Ok_0,
                taken->Ok_0[0],
                now,
                after,
                fault,
            )
        }
    }

    /// Giving a chain back may stop before the table is written.
    pub open spec fn free_chain_stops(self, first: u32, after: Volume) -> bool {
        &&& self.table.freed(first).1 is Ok
        &&& after.stops_at(Volume { table: self.table.freed(first).0, ..self })
    }

    /// Removing a file may stop while it is looked up, while its entry is
    /// deleted, and while its chain is given back.
    pub open spec fn remove_stops(self, path: Seq<char>, after: Volume, fault: Fault) -> bool {
        let (opened, result) = self.open(path);
        let file = result->Ok_0;
        let (deleted, deletion) = opened.delete_slots(
            file.directory,
            file.first_slot,
            file.index,
        );
        ||| self.look_up_stops(path, after, fault)
        ||| result is Ok && fault is Device && opened.delete_stops(file.directory, after)
        ||| {
            &&& result is Ok
            &&& fault is Device
            &&& deletion is Ok
            &&& file.first_cluster != 0
            &&& deleted.free_chain_stops(file.first_cluster, after)
        }
    }

    /// Removing a directory may stop while it is looked up, at itself where
    /// it is not held, and where the device fails to delete its entry or to
    /// give its chain back.
    pub open spec fn remove_dir_stops(self, path: Seq<char>, after: Volume, fault: Fault) -> bool {
        let plain = operations::plain(path);
        let (found, result) = self.look_up(plain);
        let (parent, entry) = result->Ok_0;
        let (read, reading) = found.read_dir(entry.first_cluster);
        let (deleted, deletion) = read.delete_slots(parent, entry.first_slot, entry.index);
        &&& !operations::is_root(path)
        &&& {
            ||| self.look_up_stops(plain, after, fault)
            ||| {
                &&& result is Ok
                &&& entry.is_directory()
                &&& !dir::is_dots(entry.name())
                &&& {
                    ||| after.unread(found, entry.first_cluster, fault)
                    ||| {
                        &&& reading is Ok
                        &&& reading->Ok_0.is_vacant()
                        &&& fault is Device
                        &&& {
                            ||| read.delete_stops(parent, after)
                            ||| {
                                &&& deletion is Ok
                                &&& deleted.free_chain_stops(entry.first_cluster, after)
                            }
                        }
                    }
                }
            }
        }
    }

    /// Making sure of a file's clusters may stop before the table is written,
    /// and before the file's entry names its first cluster. The handle is as
    /// it was.
    pub open spec fn reserve_stops(
        self,
        file: FileView,
        size: u32,
        after: Volume,
        handle: FileView,
    ) -> bool {
        let wanted = operations::clusters_for(size as int, self.cluster_bytes());
        let clusters = self.table.chain(file.first_cluster)->Ok_0;
        let held = Volume { table: self.table.allocated(wanted as u32).0, ..self };
        let longer = Volume {
            table: self.table.appended(clusters.last(), (wanted - clusters.len()) as u32).0,
            ..self
        };
        &&& handle == file
        &&& if file.first_cluster == 0 {
            after.stops_at(held) || after.stops_at(held.flush())
        } else {
            after.stops_at(longer)
        }
    }

    /// Writing to a file may stop while its handle is checked, and where the
    /// device fails: while its clusters are made sure of, and while its bytes
    /// are written or its length recorded. Then the handle has the clusters,
    /// and not the length.
    pub open spec fn write_stops(
        self,
        file: FileView,
        size: u32,
        now: DateTime,
        after: Volume,
        handle: FileView,
        fault: Fault,
    ) -> bool {
        let (live, result) = self.check_live(file);
        let (reserved, moved, reserving) = live.reserve(file, size, now);
        ||| self.check_stops(file, after, fault) && handle == file
        ||| {
            &&& result is Ok
            &&& fault is Device
            &&& {
                ||| live.reserve_stops(file, size, after, handle)
                ||| reserving is Ok && after.stops_at(reserved) && handle == moved
            }
        }
    }

    /// Setting a file's length may stop where writing up to it may; and, for
    /// a shorter file, before its entry is changed and before the table is
    /// written.
    pub open spec fn truncate_stops(
        self,
        file: FileView,
        size: u32,
        now: DateTime,
        after: Volume,
        handle: FileView,
        fault: Fault,
    ) -> bool {
        let (live, result) = self.check_live(file);
        let keep = operations::clusters_for(size as int, self.cluster_bytes());
        let first = if keep == 0 {
            0
        } else {
            file.first_cluster
        };
        let edit = volume::Edit::Update { first_cluster: first, size, at: now };
        let (recorded, recording) = live.edit_slot(file.directory, file.index, edit);
        let table = recorded.table.shortened(file.first_cluster, keep as u32).0;
        if size > file.size {
            self.write_stops(file, size, now, after, handle, fault)
        } else {
            &&& handle == file
            &&& {
                ||| self.check_stops(file, after, fault)
                ||| {
                    &&& result is Ok
                    &&& size < file.size
                    &&& fault is Device
                    &&& {
                        ||| after.stops_at(live)
                        ||| recording is Ok && after.stops_at(Volume { table, ..recorded })
                    }
                }
            }
        }
    }

    /// Syncing may stop before the table is written, before the hints are,
    /// and before the dirty flag is cleared: then it counts as cleared.
    pub open spec fn sync_stops(self, after: Volume) -> bool {
        ||| after.stops_at(self)
        ||| after.stops_at(self.flush())
        ||| after.stands_at(Volume { marked_dirty: false, ..self.flush().wrote_hints() })
    }

    /// Making a new file may stop while it is created, and while it is
    /// written.
    pub open spec fn anew_stops(
        self,
        path: Seq<char>,
        data: Seq<u8>,
        created: DateTime,
        written: DateTime,
        after: Volume,
        fault: Fault,
    ) -> bool {
        let size = (data.len() % 0x1_0000_0000) as u32;
        let (made, result) = self.create(path, size, created);
        ||| self.create_stops(path, size, created, after, fault)
        ||| result is Ok && data.len() > 0 && exists|handle: FileView| #[trigger]
            made.write_stops(result->Ok_0, data.len() as u32, written, after, handle, fault)
    }

    /// Replacing a file may stop while the old one is removed, and while the
    /// new one is made.
    pub open spec fn replace_stops(
        self,
        path: Seq<char>,
        data: Seq<u8>,
        found: bool,
        created: DateTime,
        written: DateTime,
        after: Volume,
        fault: Fault,
    ) -> bool {
        if found {
            let (removed, result) = self.remove(path);
            ||| self.remove_stops(path, after, fault)
            ||| result is Ok && removed.anew_stops(path, data, created, written, after, fault)
        } else {
            self.anew_stops(path, data, created, written, after, fault)
        }
    }
}

} // verus!
