//! Reading, writing, creating and removing files and directories.
use vstd::prelude::*;

use crate::blockdev::{Access, BlockDevice, BLOCK_SIZE};
use crate::boot;
use crate::bytes;
use crate::calls;
use crate::dir;
use crate::dir::{Attributes, Directory, ShortName, ENTRY_SIZE};
use crate::error::{try_filled, Error, FatError, Fault, Result};
use crate::fat;
use crate::fat::Run;
use crate::fs;
use crate::fs::FileSystem;
use crate::name;
use crate::name::{StoredName, StoredView};
use crate::operations;
use crate::operations::FileView;
use crate::table;
use crate::text;
use crate::time::DateTime;
use crate::volume;
use crate::volume::{Edit, Volume};

verus! {

/// A handle on a file: where its entry and its data are, and how long it is.
///
/// It holds no borrow, so it can outlive the file it names. Every read and
/// every write checks for that, and a handle is also given up as stale when
/// anything else is deleted from its directory.
#[derive(Debug, Clone, Copy, PartialEq, Eq)]
pub struct File {
    first_cluster: u32,
    size: u32,
    directory: u32,
    index: u32,
    first_slot: u32,
    short_name: ShortName,
    deletions: u32,
}

impl View for File {
    type V = FileView;

    closed spec fn view(&self) -> FileView {
        FileView {
            first_cluster: self.first_cluster,
            size: self.size,
            directory: self.directory,
            index: self.index,
            first_slot: self.first_slot,
            short: self.short_name@,
            deletions: self.deletions,
        }
    }
}

impl File {
    /// The file's 8.3 name.
    pub fn short_name(&self) -> (name: &ShortName)
        ensures
            name@ == self@.short,
    {
        &self.short_name
    }

    /// The first cluster of the file's chain; 0 where it has none.
    pub fn first_cluster(&self) -> (cluster: u32)
        ensures
            cluster == self@.first_cluster,
    {
        self.first_cluster
    }

    /// The file's length in bytes.
    pub fn len(&self) -> (size: u32)
        ensures
            size == self@.size,
    {
        self.size
    }

    /// Whether the file's length is 0.
    pub fn is_empty(&self) -> (empty: bool)
        ensures
            empty == (self@.size == 0),
    {
        self.size == 0
    }
}

/// A path's parts before and after its last slash.
fn split_path(path: &[char]) -> (parts: (&[char], &[char]))
    ensures
        parts.0@ == operations::parent_of(path@),
        parts.1@ == operations::name_of(path@),
{
    let total: usize = path.len();
    match text::find_last(path, '/') {
        Some(at) => {
            let parent: &[char] = &path[0..at];
            let name: &[char] = &path[at + 1..total];
            assert(parent@ =~= path@.take(at as int));
            assert(name@ =~= path@.skip(at + 1));
            (parent, name)
        },
        None => {
            let nothing: &[char] = &path[0..0];
            assert(nothing@ =~= Seq::<char>::empty());
            (nothing, path)
        },
    }
}

/// How much of a path is left without the single periods it ends in.
fn plain_length(path: &[char]) -> (length: usize)
    ensures
        length <= path@.len(),
        path@.take(length as int) == operations::plain(path@),
{
    let mut end: usize = path.len();
    assert(path@.take(end as int) =~= path@);
    loop
        invariant
            end <= path@.len(),
            operations::plain(path@.take(end as int)) == operations::plain(path@),
        decreases end,
    {
        let part: &[char] = &path[0..end];
        assert(part@ =~= path@.take(end as int));
        let (parent, name) = split_path(part);
        if !(name.len() == 1 && name[0] == '.') {
            assert(name@ != seq!['.']) by {
                if name@ == seq!['.'] {
                    assert(name@.len() == 1 && name@[0] == '.');
                }
            }
            return end;
        }
        proof {
            assert(name@ =~= seq!['.']);
            operations::lemma_shorter(part@);
            operations::lemma_trimmed(parent@);
            text::lemma_last_position(part@, '/');
            assert(parent@ =~= part@.take(parent@.len() as int));
        }
        let ghost whole = parent@;
        let mut length: usize = parent.len();
        assert(parent@.take(length as int) =~= parent@);
        while length > 0 && parent[length - 1] == '/'
            invariant
                length <= parent@.len(),
                operations::trimmed(parent@.take(length as int)) == operations::trimmed(parent@),
            decreases length,
        {
            assert(parent@.take(length as int).drop_last() =~= parent@.take(length - 1));
            length -= 1;
        }
        assert(operations::trimmed(parent@) == parent@.take(length as int));
        assert(path@.take(length as int) =~= parent@.take(length as int));
        end = length;
    }
}

/// Whether two 8.3 names have the same bytes.
fn same_name(a: &ShortName, b: &ShortName) -> (same: bool)
    ensures
        same == (a@.raw == b@.raw),
{
    let (x, y) = (a.as_bytes(), b.as_bytes());
    let mut n: usize = 0;
    while n < 11
        invariant
            n <= 11,
            x@ == a@.raw,
            y@ == b@.raw,
            forall|i: int| 0 <= i < n ==> x@[i] == y@[i],
        decreases 11 - n,
    {
        if x[n] != y[n] {
            return false;
        }
        n += 1;
    }
    assert(x@ =~= y@);
    true
}

impl<D: BlockDevice> FileSystem<D> {
    /// Opens the file a path leads to.
    pub fn open(&mut self, path: &str) -> (result: Result<File, D::Error>)
        requires
            old(self).wf(),
        ensures
            final(self).wf(),
            final(self)@.only_read(old(self)@),
            match result {
                Ok(file) => {
                    &&& (final(self)@, Ok::<FileView, Fault>(file@)) == old(self)@.open(path@)
                    &&& file@.first_slot <= file@.index
                },
                Err(error) => {
                    ||| {
                        &&& volume::interrupted(
                            old(self)@,
                            final(self)@,
                            old(self)@.open(path@).0.history,
                            error,
                        )
                        &&& old(self)@.look_up_stops(path@, final(self)@, error@)
                    }
                    ||| (final(self)@, Err::<FileView, Fault>(error@)) == old(self)@.open(path@)
                },
            },
    {
        reveal(Volume::open);
        reveal(Volume::look_up);
        let ghost before = self@;
        let chars: Vec<char> = text::chars_of(path);
        let (parent, name) = split_path(chars.as_slice());
        let cluster: u32 = match self.resolve_dir(parent) {
            Ok(cluster) => cluster,
            Err(error) => {
                proof {
                    let resolved = before.resolve(before.boot.root_cluster, parent@);
                    calls::lemma_look_up(before, path@);
                    if (self@, Err::<u32, Fault>(error@)) != resolved {
                        calls::lemma_then(
                            self@.history,
                            resolved.0.history,
                            before.open(path@).0.history,
                        );
                    }
                }
                return Err(error);
            },
        };
        if let Err(error) = self.load_dir(cluster) {
            return Err(error);
        }
        let name: String = text::string_of(name);
        let deletions: u32 = self.deletions(cluster);
        let held: &Directory = self.held_dir(cluster);
        proof {
            held.lemma_wf();
        }
        match held.get(name.as_str()) {
            None => Err(Error::NotFound { name }),
            Some(entry) => {
                proof {
                    dir::lemma_found(held@, name@);
                }
                if entry.is_directory() {
                    return Err(Error::IsADirectory { name });
                }
                Ok(
                    File {
                        first_cluster: entry.first_cluster(),
                        size: entry.len(),
                        directory: cluster,
                        index: entry.index(),
                        first_slot: entry.first_slot(),
                        short_name: *entry.short_name(),
                        deletions,
                    },
                )
            },
        }
    }

    /// Checks that a handle still names the file it was opened for.
    fn check_live(&mut self, file: &File) -> (result: Result<(), D::Error>)
        requires
            old(self).wf(),
        ensures
            final(self).wf(),
            final(self)@.only_read(old(self)@),
            match result {
                Ok(()) => (final(self)@, Ok::<(), Fault>(())) == old(self)@.check_live(file@),
                Err(error) => {
                    ||| {
                        &&& volume::interrupted(
                            old(self)@,
                            final(self)@,
                            old(self)@.check_live(file@).0.history,
                            error,
                        )
                        &&& old(self)@.check_stops(file@, final(self)@, error@)
                    }
                    ||| (final(self)@, Err::<(), Fault>(error@)) == old(self)@.check_live(file@)
                },
            },
    {
        reveal(Volume::check_live);
        if self.deletions(file.directory) == file.deletions {
            if let Err(error) = self.load_dir(file.directory) {
                return Err(error);
            }
            if let Some(entry) = self.held_dir(file.directory).at(file.index) {
                if same_name(entry.short_name(), &file.short_name) {
                    return Ok(());
                }
            }
        }
        Err(Error::StaleFile { name: file.short_name.to_display_string_with(self.codepage()) })
    }

    /// Fills `into` with the bytes from `skip` bytes into `first_block` on.
    #[verifier::rlimit(50)]
    fn read_span(&mut self, first_block: u64, skip: usize, into: &mut [u8]) -> (result: Result<
        (),
        D::Error,
    >)
        requires
            old(self).wf(),
            skip < 512,
            512 * first_block + skip + old(into)@.len() <= 512 * old(self)@.boot.extent(),
        ensures
            final(self).wf(),
            final(self)@.only_read(old(self)@),
            final(self)@.directories == old(self)@.directories,
            final(into)@.len() == old(into)@.len(),
            match result {
                Ok(()) => {
                    let at = old(self)@.at(first_block as int) + skip;
                    &&& old(into)@.len() > 0 ==> at + old(into)@.len() <= old(self)@.disk.len()
                    &&& old(into)@.len() > 0 ==> final(into)@ == old(self)@.disk.subrange(
                        at,
                        at + old(into)@.len(),
                    )
                    &&& final(self)@ == (Volume {
                        history: old(self)@.history + old(self)@.span_reads(
                            first_block as int,
                            skip as int,
                            old(into)@.len() as int,
                        ),
                        ..old(self)@
                    })
                },
                Err(error) => volume::device_failed(
                    old(self)@,
                    final(self)@,
                    old(self)@.history + old(self)@.span_reads(
                        first_block as int,
                        skip as int,
                        old(into)@.len() as int,
                    ),
                    error,
                ),
            },
    {
        let ghost before = self@;
        let ghost start = before.at(first_block as int) + skip;
        let total: usize = into.len();
        let ghost planned = before.history + before.span_reads(
            first_block as int,
            skip as int,
            total as int,
        );
        proof {
            calls::lemma_span_reads(before, first_block as int, skip as int, total as int);
        }
        let mut scratch: [u8; BLOCK_SIZE] = [0u8;BLOCK_SIZE];
        let mut block: u64 = first_block;
        let mut done: usize = 0;
        if skip != 0 {
            done = if 512 - skip < total {
                512 - skip
            } else {
                total
            };
            if let Err(error) = self.read_blocks(block, &mut scratch) {
                proof {
                    calls::lemma_then(
                        self@.history,
                        before.after_read(block as int, 1).history,
                        planned,
                    );
                }
                return Err(error);
            }
            bytes::copy_into(into, 0, &scratch[skip..skip + done]);
            block += 1;
        }
        let ghost lead = done;
        let ghost after_lead = self@.history;
        assert(forall|i: int| 0 <= i < done ==> into@[i] == before.disk[start + i]);
        let whole: usize = (total - done) / BLOCK_SIZE;
        if whole != 0 {
            let ghost filled = into@;
            let ghost reached = self@;
            let (_, rest) = into.split_at_mut(done);
            let (aligned, _) = rest.split_at_mut(512 * whole);
            if let Err(error) = self.read_blocks(block, aligned) {
                proof {
                    calls::lemma_then(
                        self@.history,
                        reached.after_read(block as int, whole as int).history,
                        planned,
                    );
                }
                return Err(error);
            }
            assert(forall|i: int| 0 <= i < done ==> into@[i] == filled[i]);
            block += whole as u64;
            done += 512 * whole;
            assert(forall|i: int| 0 <= i < done ==> into@[i] == before.disk[start + i]);
        }
        if done < total {
            let ghost filled = into@;
            let ghost reached = self@;
            if let Err(error) = self.read_blocks(block, &mut scratch) {
                proof {
                    calls::lemma_then(
                        self@.history,
                        reached.after_read(block as int, 1).history,
                        planned,
                    );
                }
                return Err(error);
            }
            bytes::copy_into(into, done, &scratch[0..total - done]);
            assert(forall|i: int| 0 <= i < done ==> into@[i] == filled[i]);
            assert(forall|i: int| 0 <= i < total ==> into@[i] == before.disk[start + i]);
        }
        proof {
            assert(self@.history == before.history + before.span_reads(
                first_block as int,
                skip as int,
                total as int,
            )) by {
                reveal(Volume::span_reads);
                assert(self@.history =~= before.history + before.span_reads(
                    first_block as int,
                    skip as int,
                    total as int,
                ));
            }
            if total > 0 {
                assert(into@ =~= before.disk.subrange(start, start + total));
            }
        }
        Ok(())
    }

    /// Reads from a file, from `offset` on, as much as there is and `into`
    /// holds. Says how much that was.
    pub fn read_at(&mut self, file: &File, offset: u64, into: &mut [u8]) -> (result: Result<
        usize,
        D::Error,
    >)
        requires
            old(self).wf(),
        ensures
            final(self).wf(),
            final(self)@.only_read(old(self)@),
            final(into)@.len() == old(into)@.len(),
            match result {
                Ok(read) => {
                    &&& read <= old(into)@.len()
                    &&& (
                        final(self)@,
                        Ok::<Seq<u8>, Fault>(final(into)@.take(read as int)),
                    ) == old(self)@.read_file(file@, offset as int, old(into)@.len() as int)
                    &&& final(into)@.skip(read as int) == old(into)@.skip(read as int)
                },
                Err(error) => {
                    ||| {
                        &&& volume::interrupted(
                            old(self)@,
                            final(self)@,
                            old(self)@.read_file(
                                file@,
                                offset as int,
                                old(into)@.len() as int,
                            ).0.history,
                            error,
                        )
                        &&& old(self)@.read_stops(
                            file@,
                            offset as int,
                            old(into)@.len() as int,
                            final(self)@,
                            error@,
                        )
                    }
                    ||| (final(self)@, Err::<Seq<u8>, Fault>(error@))
                        == old(self)@.read_file(file@, offset as int, old(into)@.len() as int)
                },
            },
    {
        let ghost before = self@;
        proof {
            self.lemma_wf();
        }
        let size: u64 = file.size as u64;
        let length: usize = into.len();
        if let Err(error) = self.check_live(file) {
            proof {
                let live = before.check_live(file@);
                let planned = before.read_file(file@, offset as int, length as int).0.history;
                calls::lemma_read_file(before, file@, offset as int, length as int);
                if (self@, Err::<(), Fault>(error@)) != live {
                    calls::lemma_then(self@.history, live.0.history, planned);
                }
            }
            return Err(error);
        }
        let ghost live = self@;
        proof {
            self.lemma_wf();
            operations::lemma_check_live_looks(before, file@);
        }
        if offset >= size || length == 0 {
            assert(into@.take(0) =~= Seq::<u8>::empty());
            return Ok(0);
        }
        if file.first_cluster == 0 {
            return Err(Error::Fat(FatError::BadCluster { cluster: 0 }));
        }
        let wanted: usize = if length as u64 <= size - offset {
            length
        } else {
            (size - offset) as usize
        };
        let runs: Vec<Run> = match self.runs(file.first_cluster) {
            Ok(runs) => runs,
            Err(error) => {
                return Err(error);
            },
        };
        let ghost clusters = before.table.chain(file@.first_cluster)->Ok_0;
        proof {
            table::lemma_chain(before.table, file@.first_cluster);
        }
        let (part, _) = into.split_at_mut(wanted);
        let done: usize = match self.read_runs(&runs, offset, part, Ghost(clusters)) {
            Ok(done) => done,
            Err(error) => {
                return Err(error);
            },
        };
        if done != wanted {
            return Err(
                Error::Fat(
                    FatError::ChainShorterThanFile { start: file.first_cluster, size: file.size },
                ),
            );
        }
        proof {
            assert forall|i: int| 0 <= i < wanted implies into@[i] == before.chain_byte(
                clusters,
                offset + i,
            ) by {
                assert(live.chain_byte(clusters, offset + i) == before.chain_byte(
                    clusters,
                    offset + i,
                ));
            }
            assert(into@.take(wanted as int) =~= before.chain_bytes(clusters).subrange(
                offset as int,
                offset + wanted,
            ));
            assert(into@.skip(wanted as int) =~= old(into)@.skip(wanted as int));
        }
        Ok(done)
    }

    /// Fills `into` with the bytes of a chain from `offset` on, as far as the
    /// chain reaches. Says how much that was.
    fn read_runs(
        &mut self,
        runs: &Vec<Run>,
        offset: u64,
        into: &mut [u8],
        Ghost(clusters): Ghost<Seq<u32>>,
    ) -> (result: Result<usize, D::Error>)
        requires
            old(self).wf(),
            old(self)@.table.links(clusters),
            table::tiles(runs@, clusters),
            offset + old(into)@.len() <= 0x1_0000_0000,
        ensures
            final(self).wf(),
            final(self)@.only_read(old(self)@),
            final(self)@.directories == old(self)@.directories,
            final(into)@.len() == old(into)@.len(),
            match result {
                Ok(done) => {
                    let reach = clusters.len() * old(self)@.cluster_bytes();
                    &&& done <= old(into)@.len()
                    &&& done == old(into)@.len() <==> (offset + old(into)@.len() <= reach || old(
                        into,
                    )@.len() == 0)
                    &&& forall|i: int|
                        0 <= i < done ==> #[trigger] final(into)@[i] == old(self)@.chain_byte(
                            clusters,
                            offset + i,
                        )
                    &&& final(self)@ == (Volume {
                        history: old(self)@.history + old(self)@.chain_reads(
                            runs@,
                            offset as int,
                            old(into)@.len() as int,
                        ),
                        ..old(self)@
                    })
                },
                Err(error) => volume::device_failed(
                    old(self)@,
                    final(self)@,
                    old(self)@.history + old(self)@.chain_reads(
                        runs@,
                        offset as int,
                        old(into)@.len() as int,
                    ),
                    error,
                ),
            },
    {
        let ghost before = self@;
        let wanted: usize = into.len();
        let ghost all = before.chain_reads(runs@, offset as int, wanted as int);
        let ghost reach = clusters.len() * before.cluster_bytes();
        proof {
            self.lemma_wf();
            table::lemma_links_distinct(before.table, clusters);
            table::lemma_distinct_bounded(before.table, clusters);
            fs::lemma_chain_size(before, clusters.len() as int);
            assert(runs@.skip(0) =~= runs@);
            assert(fat::done_before(runs@, 0, clusters.len() as int) * before.cluster_bytes() == 0);
        }
        let mut done: usize = 0;
        let mut r: usize = 0;
        while r < runs.len() && done < wanted
            invariant
                before == old(self)@,
                before.wf(),
                self.wf(),
                wanted == into@.len(),
                wanted == old(into)@.len(),
                offset + wanted <= 0x1_0000_0000,
                before.table.links(clusters),
                table::tiles(runs@, clusters),
                clusters.len() <= 0x1000_0000,
                reach == clusters.len() * before.cluster_bytes(),
                r <= runs@.len(),
                done <= wanted,
                done == wanted || fat::done_before(runs@, r as int, clusters.len() as int)
                    * before.cluster_bytes() <= offset + done,
                done > 0 ==> offset + done <= reach,
                self@ == (Volume { history: self@.history, ..before }),
                self@.history.len() >= before.history.len(),
                all == before.chain_reads(runs@, offset as int, wanted as int),
                before.history + all == self@.history + before.chain_reads(
                    runs@.skip(r as int),
                    offset + done,
                    wanted - done,
                ),
                forall|i: int|
                    0 <= i < done ==> #[trigger] into@[i] == before.chain_byte(
                        clusters,
                        offset + i,
                    ),
            decreases runs@.len() - r,
        {
            let ghost filled = into@;
            let ghost asked = self@.history;
            proof {
                assert(runs@.skip(r as int).skip(1) =~= runs@.skip(r + 1));
                fat::lemma_done_before(runs@, clusters, r as int);
                table::lemma_tiles_bound(runs@, clusters, r as int);
                fs::lemma_chain_size(before, 0);
                lemma_run_span(runs@[r as int], clusters.len() as int, before.cluster_bytes());
            }
            let (_, rest) = into.split_at_mut(done);
            let take: usize = match self.read_run_part(
                runs,
                r,
                offset + done as u64,
                rest,
                Ghost(clusters),
            ) {
                Ok(take) => take,
                Err(error) => {
                    proof {
                        let reached = Volume { history: asked, ..before };
                        let left = runs@.skip(r as int);
                        assert(left[0] == runs@[r as int]);
                        operations::lemma_chain_reads_same(
                            reached,
                            before,
                            left,
                            offset + done,
                            wanted - done,
                        );
                        calls::lemma_chain_reads(reached, left, offset + done, wanted - done);
                        let run = left[0];
                        let start = run.file_cluster * before.cluster_bytes();
                        let end = (run.file_cluster + run.clusters) * before.cluster_bytes();
                        let first = reached.span_reads(
                            before.boot.spec_cluster_sector(run.start_cluster as int) + (offset
                                + done - start) / 512,
                            (offset + done - start) % 512,
                            operations::least(end - (offset + done), wanted - done),
                        );
                        calls::lemma_then(self@.history, asked + first, before.history + all);
                    }
                    return Err(error);
                },
            };
            proof {
                let run = runs@[r as int];
                assert(runs@.skip(r as int)[0] == run);
                let within = offset + done - run.file_cluster * before.cluster_bytes();
                operations::lemma_span_reads_same(
                    Volume { history: asked, ..before },
                    before,
                    before.boot.spec_cluster_sector(run.start_cluster as int) + within / 512,
                    within % 512,
                    take as int,
                );
                assert(asked + before.chain_reads(
                    runs@.skip(r as int),
                    offset + done,
                    wanted - done,
                ) =~= self@.history + before.chain_reads(
                    runs@.skip(r + 1),
                    offset + done + take,
                    wanted - done - take,
                ));
                assert forall|i: int| 0 <= i < done + take implies #[trigger] into@[i]
                    == before.chain_byte(clusters, offset + i) by {
                    if i < done {
                        assert(into@[i] == filled[i]);
                    }
                }
            }
            done += take;
            r += 1;
        }
        proof {
            if done == wanted {
                assert(before.chain_reads(runs@.skip(r as int), offset + done, 0)
                    =~= Seq::<Access>::empty());
            } else {
                assert(runs@.skip(r as int) =~= Seq::<Run>::empty());
            }
            assert(self@.history =~= before.history + all);
        }
        Ok(done)
    }

    /// Fills as much of `into` with a chain's bytes from `at` on as its `r`th
    /// run holds. Says how much that was.
    fn read_run_part(
        &mut self,
        runs: &Vec<Run>,
        r: usize,
        at: u64,
        into: &mut [u8],
        Ghost(clusters): Ghost<Seq<u32>>,
    ) -> (result: Result<usize, D::Error>)
        requires
            old(self).wf(),
            old(self)@.table.links(clusters),
            table::tiles(runs@, clusters),
            clusters.len() <= 0x1000_0000,
            r < runs@.len(),
            old(into)@.len() > 0,
            at + old(into)@.len() <= 0x1_0000_0000,
            runs@[r as int].file_cluster * old(self)@.cluster_bytes() <= at,
        ensures
            final(self).wf(),
            final(self)@.only_read(old(self)@),
            final(self)@.directories == old(self)@.directories,
            final(into)@.len() == old(into)@.len(),
            match result {
                Ok(take) => {
                    let before = old(self)@;
                    let run = runs@[r as int];
                    let start = run.file_cluster * before.cluster_bytes();
                    let end = (run.file_cluster + run.clusters) * before.cluster_bytes();
                    &&& take == (if at >= end {
                        0
                    } else {
                        operations::least(end - at, old(into)@.len() as int)
                    })
                    &&& forall|i: int|
                        0 <= i < take ==> #[trigger] final(into)@[i] == before.chain_byte(
                            clusters,
                            at + i,
                        )
                    &&& final(self)@ == (Volume {
                        history: if at >= end {
                            before.history
                        } else {
                            before.history + before.span_reads(
                                before.boot.spec_cluster_sector(run.start_cluster as int) + (at
                                    - start) / 512,
                                (at - start) % 512,
                                take as int,
                            )
                        },
                        ..before
                    })
                },
                Err(error) => {
                    let before = old(self)@;
                    let run = runs@[r as int];
                    let start = run.file_cluster * before.cluster_bytes();
                    let end = (run.file_cluster + run.clusters) * before.cluster_bytes();
                    &&& at < end
                    &&& volume::device_failed(
                        before,
                        final(self)@,
                        before.history + before.span_reads(
                            before.boot.spec_cluster_sector(run.start_cluster as int) + (at - start)
                                / 512,
                            (at - start) % 512,
                            operations::least(end - at, old(into)@.len() as int),
                        ),
                        error,
                    )
                },
            },
    {
        let ghost before = self@;
        let run: Run = runs[r];
        let cluster_bytes: u32 = self.boot_sector().cluster_bytes();
        let length: usize = into.len();
        proof {
            self.lemma_wf();
            fs::lemma_chain_size(before, 0);
            fs::lemma_run_valid(before.table, runs@, clusters, r as int);
            fs::lemma_run_in_volume(before, run.start_cluster as int, run.clusters as int);
            table::lemma_tiles_bound(runs@, clusters, r as int);
            lemma_run_span(run, clusters.len() as int, cluster_bytes as int);
        }
        let run_start: u64 = run.file_cluster as u64 * cluster_bytes as u64;
        let run_end: u64 = run_start + run.bytes(cluster_bytes);
        if at >= run_end {
            return Ok(0);
        }
        let take: usize = if run_end - at < length as u64 {
            (run_end - at) as usize
        } else {
            length
        };
        let within: u64 = at - run_start;
        let sector: u64 = self.boot_sector().cluster_sector(run.start_cluster) as u64 + within
            / 512;
        let ghost position = before.cluster_at(run.start_cluster as int) + within;
        assert(before.at(sector as int) + within % 512 == position);
        let (span, _) = into.split_at_mut(take);
        if let Err(error) = self.read_span(sector, (within % 512) as usize, span) {
            return Err(error);
        }
        assert forall|i: int| 0 <= i < take implies #[trigger] into@[i] == before.chain_byte(
            clusters,
            at + i,
        ) by {
            fs::lemma_position_in_run(before, runs@, clusters, r as int, at + i);
            assert(into@[i] == before.disk[position + i]);
        }
        Ok(take)
    }

    /// The whole contents of a file: exactly as many bytes as it is long, in
    /// one call per run of its chain, where the device's limit allows.
    pub fn read_all(&mut self, file: &File) -> (result: Result<Vec<u8>, D::Error>)
        requires
            old(self).wf(),
        ensures
            final(self).wf(),
            final(self)@.only_read(old(self)@),
            match result {
                Ok(data) => {
                    &&& data@.len() == file@.size
                    &&& (final(self)@, Ok::<Seq<u8>, Fault>(data@)) == old(self)@.read_whole(file@)
                },
                Err(error) => {
                    ||| {
                        &&& volume::interrupted(
                            old(self)@,
                            final(self)@,
                            old(self)@.read_whole(file@).0.history,
                            error,
                        )
                        &&& old(self)@.read_whole_stops(file@, final(self)@, error@)
                    }
                    ||| (final(self)@, Err::<Seq<u8>, Fault>(error@))
                        == old(self)@.read_whole(file@)
                },
            },
    {
        let ghost before = self@;
        proof {
            self.lemma_wf();
        }
        proof {
            calls::lemma_read_whole(before, file@);
        }
        if let Err(error) = self.check_live(file) {
            proof {
                let live = before.check_live(file@);
                let planned = before.read_whole(file@).0.history;
                if (self@, Err::<(), Fault>(error@)) != live {
                    calls::lemma_then(self@.history, live.0.history, planned);
                }
            }
            return Err(error);
        }
        let ghost live = self@;
        proof {
            self.lemma_wf();
            operations::lemma_check_live_looks(before, file@);
        }
        if file.size == 0 {
            return Ok(Vec::new());
        }
        if file.first_cluster == 0 {
            return Err(Error::Fat(FatError::BadCluster { cluster: 0 }));
        }
        let runs: Vec<Run> = match self.runs(file.first_cluster) {
            Ok(runs) => runs,
            Err(error) => {
                return Err(error);
            },
        };
        let ghost clusters = before.table.chain(file@.first_cluster)->Ok_0;
        proof {
            table::lemma_chain(before.table, file@.first_cluster);
            lemma_padded(before, clusters.len() as int, file@.size as int);
        }
        let length: u64 = (file.size as u64 + 511) / 512 * 512;
        let mut data: Vec<u8> = match try_filled::<u8, D::Error>(0u8, length) {
            Ok(data) => data,
            Err(_) => {
                proof {
                    calls::lemma_more(
                        live.history,
                        live.chain_reads(runs@, 0, operations::padded(file@.size as int)),
                    );
                    lemma_reads_something(live, runs@, operations::padded(file@.size as int));
                    calls::lemma_check_live(before, file@);
                    calls::lemma_then(
                        before.history,
                        live.history,
                        before.read_whole(file@).0.history,
                    );
                }
                return Err(Error::OutOfMemory { bytes: file.size as u64 });
            },
        };
        let done: usize = match self.read_runs(&runs, 0, data.as_mut_slice(), Ghost(clusters)) {
            Ok(done) => done,
            Err(error) => {
                return Err(error);
            },
        };
        if done as u64 != length {
            return Err(
                Error::Fat(
                    FatError::ChainShorterThanFile { start: file.first_cluster, size: file.size },
                ),
            );
        }
        let ghost all = data@;
        data.truncate(file.size as usize);
        proof {
            assert forall|i: int| 0 <= i < file@.size implies #[trigger] data@[i]
                == before.chain_bytes(clusters).take(file@.size as int)[i] by {
                assert(data@[i] == all[i]);
                assert(live.chain_byte(clusters, i) == before.chain_byte(clusters, i));
            }
            assert(data@ =~= before.chain_bytes(clusters).take(file@.size as int));
        }
        Ok(data)
    }
}

/// Reading some of a chain from its start makes a call.
proof fn lemma_reads_something(volume: Volume, runs: Seq<Run>, n: int)
    requires
        volume.laid_out(),
        runs.len() > 0,
        runs[0].file_cluster == 0,
        runs[0].clusters > 0,
        n > 0,
    ensures
        volume.chain_reads(runs, 0, n).len() > 0,
{
    reveal(Volume::span_reads);
    fs::lemma_chain_size(volume, 0);
    let cb = volume.cluster_bytes();
    let end = (runs[0].file_cluster + runs[0].clusters) * cb;
    assert(0 * cb == 0) by (nonlinear_arith);
    assert(0 < end) by (nonlinear_arith)
        requires
            end == (runs[0].file_cluster + runs[0].clusters) * cb,
            runs[0].file_cluster + runs[0].clusters > 0,
            0 < cb,
    ;
    let take = operations::least(end, n);
    let sector = volume.boot.spec_cluster_sector(runs[0].start_cluster as int);
    assert(volume.sector_reads(sector, take / 512).len() > 0);
    assert(volume.sector_reads(sector + take / 512, 1).len() > 0);
    assert(volume.span_reads(sector, 0, take).len() > 0);
}

/// A chain reaches a file's end where it reaches the end of the last block.
proof fn lemma_padded(volume: Volume, clusters: int, size: int)
    requires
        volume.laid_out(),
        0 < size <= u32::MAX,
        0 <= clusters,
    ensures
        size <= operations::padded(size) <= 0x1_0000_0000,
        operations::padded(size) <= clusters * volume.cluster_bytes() <==> size <= clusters
            * volume.cluster_bytes(),
{
    let spc = volume.boot.sectors_per_cluster as int;
    let whole = clusters * spc;
    assert(clusters * (spc * 512) == 512 * whole) by (nonlinear_arith)
        requires
            whole == clusters * spc,
    ;
    let blocks = (size + 511) / 512;
    assert(512 * blocks <= size + 511 && size <= 512 * blocks);
    assert(operations::padded(size) == 512 * blocks);
    assert(512 * blocks <= 512 * whole <==> size <= 512 * whole);
}

impl<D: BlockDevice> FileSystem<D> {
    /// Replaces some bytes of one block: it is read, changed and written.
    fn patch_block(&mut self, block: u64, skip: usize, data: &[u8]) -> (result: Result<
        (),
        D::Error,
    >)
        requires
            old(self).wf(),
            skip + data@.len() <= 512,
            block < old(self)@.boot.extent(),
        ensures
            final(self).wf(),
            final(self)@.kept(old(self)@),
            final(self)@.written_from(old(self)@),
            match result {
                Ok(()) => {
                    &&& final(self)@ == old(self)@.patched(block as int, skip as int, data@)
                    &&& old(self)@.at(block as int) + 512 <= old(self)@.disk.len()
                },
                Err(error) => volume::device_failed(
                    old(self)@,
                    final(self)@,
                    old(self)@.patched(block as int, skip as int, data@).history,
                    error,
                ),
            },
    {
        let ghost before = self@;
        let mut scratch: [u8; BLOCK_SIZE] = [0u8;BLOCK_SIZE];
        if let Err(error) = self.read_blocks(block, &mut scratch) {
            proof {
                calls::lemma_patched(before, block as int, skip as int, data@);
                calls::lemma_then(
                    self@.history,
                    before.after_read(block as int, 1).history,
                    before.patched(block as int, skip as int, data@).history,
                );
            }
            return Err(error);
        }
        assert(scratch@ =~= before.sectors(block as int, 1));
        bytes::copy_into(&mut scratch, skip, data);
        self.write_blocks(block, &scratch)
    }

    /// Writes `from` from `skip` bytes into `first_block` on.
    #[verifier::rlimit(30)]
    fn write_span(&mut self, first_block: u64, skip: usize, from: &[u8]) -> (result: Result<
        (),
        D::Error,
    >)
        requires
            old(self).wf(),
            skip < 512,
            from@.len() > 0,
            512 * first_block + skip + from@.len() <= 512 * old(self)@.boot.extent(),
        ensures
            final(self).wf(),
            final(self)@.kept(old(self)@),
            final(self)@.written_from(old(self)@),
            match result {
                Ok(()) => {
                    &&& final(self)@ == old(self)@.wrote_span(
                        first_block as int,
                        skip as int,
                        from@,
                    )
                    &&& old(self)@.at(first_block as int) + skip + from@.len()
                        <= old(self)@.disk.len()
                },
                Err(error) => volume::device_failed(
                    old(self)@,
                    final(self)@,
                    old(self)@.wrote_span(first_block as int, skip as int, from@).history,
                    error,
                ),
            },
    {
        let ghost before = self@;
        let total: usize = from.len();
        let ghost planned = before.wrote_span(first_block as int, skip as int, from@).history;
        let mut block: u64 = first_block;
        let mut done: usize = 0;
        if skip != 0 {
            done = if 512 - skip < total {
                512 - skip
            } else {
                total
            };
            let part: &[u8] = &from[0..done];
            assert(part@ =~= from@.take(done as int));
            if let Err(error) = self.patch_block(block, skip, part) {
                proof {
                    calls::lemma_wrote_span(before, first_block as int, skip as int, from@);
                    calls::lemma_then(
                        self@.history,
                        before.patched(block as int, skip as int, part@).history,
                        planned,
                    );
                }
                return Err(error);
            }
            block += 1;
        }
        let ghost rest = from@.skip(done as int);
        let whole: usize = (total - done) / BLOCK_SIZE;
        let ghost lead = done;
        if whole != 0 {
            let part: &[u8] = &from[done..done + 512 * whole];
            assert(part@ =~= rest.take(512 * whole));
            let ghost reached = self@;
            if let Err(error) = self.write_blocks(block, part) {
                proof {
                    calls::lemma_wrote_span(before, first_block as int, skip as int, from@);
                    calls::lemma_then(
                        self@.history,
                        reached.wrote(block as int, part@).history,
                        planned,
                    );
                }
                return Err(error);
            }
            block += whole as u64;
            done += 512 * whole;
        }
        if done < total {
            let part: &[u8] = &from[done..total];
            assert(part@ =~= rest.skip(512 * whole));
            let ghost reached = self@;
            if let Err(error) = self.patch_block(block, 0, part) {
                proof {
                    calls::lemma_wrote_span(before, first_block as int, skip as int, from@);
                    calls::lemma_then(
                        self@.history,
                        reached.patched(block as int, 0, part@).history,
                        planned,
                    );
                }
                return Err(error);
            }
        }
        proof {
            reveal(Volume::wrote_span);
        }
        Ok(())
    }

    /// Writes to a chain from `at` on as much of `data` as its `r`th run
    /// holds. Says how much that was.
    fn write_run_part(
        &mut self,
        runs: &Vec<Run>,
        r: usize,
        at: u64,
        data: &[u8],
        Ghost(clusters): Ghost<Seq<u32>>,
    ) -> (result: Result<usize, D::Error>)
        requires
            old(self).wf(),
            old(self)@.table.links(clusters),
            table::tiles(runs@, clusters),
            clusters.len() <= 0x1000_0000,
            r < runs@.len(),
            data@.len() > 0,
            at + data@.len() <= u32::MAX,
            runs@[r as int].file_cluster * old(self)@.cluster_bytes() <= at,
        ensures
            final(self).wf(),
            final(self)@.kept(old(self)@),
            final(self)@.written_from(old(self)@),
            match result {
                Ok(take) => {
                    let before = old(self)@;
                    let run = runs@[r as int];
                    let start = run.file_cluster * before.cluster_bytes();
                    let end = (run.file_cluster + run.clusters) * before.cluster_bytes();
                    &&& take == (if at >= end {
                        0
                    } else {
                        operations::least(end - at, data@.len() as int)
                    })
                    &&& final(self)@ == (if at >= end {
                        before
                    } else {
                        before.wrote_span(
                            before.boot.spec_cluster_sector(run.start_cluster as int) + (at - start)
                                / 512,
                            (at - start) % 512,
                            data@.take(take as int),
                        )
                    })
                    &&& forall|i: int|
                        at <= i < at + take ==> #[trigger] before.position(clusters, i)
                            < before.disk.len()
                },
                Err(error) => {
                    let before = old(self)@;
                    let run = runs@[r as int];
                    let start = run.file_cluster * before.cluster_bytes();
                    let end = (run.file_cluster + run.clusters) * before.cluster_bytes();
                    &&& at < end
                    &&& volume::device_failed(
                        before,
                        final(self)@,
                        before.wrote_span(
                            before.boot.spec_cluster_sector(run.start_cluster as int) + (at - start)
                                / 512,
                            (at - start) % 512,
                            data@.take(operations::least(end - at, data@.len() as int)),
                        ).history,
                        error,
                    )
                },
            },
    {
        let ghost before = self@;
        let run: Run = runs[r];
        let cluster_bytes: u32 = self.boot_sector().cluster_bytes();
        let length: usize = data.len();
        proof {
            self.lemma_wf();
            fs::lemma_chain_size(before, 0);
            fs::lemma_run_valid(before.table, runs@, clusters, r as int);
            fs::lemma_run_in_volume(before, run.start_cluster as int, run.clusters as int);
            table::lemma_tiles_bound(runs@, clusters, r as int);
            lemma_run_span(run, clusters.len() as int, cluster_bytes as int);
        }
        let run_start: u64 = run.file_cluster as u64 * cluster_bytes as u64;
        let run_end: u64 = run_start + run.bytes(cluster_bytes);
        if at >= run_end {
            return Ok(0);
        }
        let take: usize = if run_end - at < length as u64 {
            (run_end - at) as usize
        } else {
            length
        };
        let within: u64 = at - run_start;
        let sector: u64 = self.boot_sector().cluster_sector(run.start_cluster) as u64 + within
            / 512;
        let ghost position = before.cluster_at(run.start_cluster as int) + within;
        assert(before.at(sector as int) + within % 512 == position);
        let part: &[u8] = &data[0..take];
        assert(part@ =~= data@.take(take as int));
        if let Err(error) = self.write_span(sector, (within % 512) as usize, part) {
            return Err(error);
        }
        assert forall|i: int| at <= i < at + take implies #[trigger] before.position(clusters, i)
            < before.disk.len() by {
            fs::lemma_position_in_run(before, runs@, clusters, r as int, i);
        }
        Ok(take)
    }
}

impl<D: BlockDevice> FileSystem<D> {
    /// Writes `data` to the chain that starts at `first`, from `offset` on.
    fn write_chain(&mut self, first: u32, offset: u64, data: &[u8]) -> (result: Result<(), D::Error>)
        requires
            old(self).wf(),
            data@.len() > 0,
            offset + data@.len() <= u32::MAX,
        ensures
            final(self).wf(),
            final(self)@.kept(old(self)@),
            final(self)@.written_from(old(self)@),
            match result {
                Ok(()) => {
                    &&& (final(self)@, Ok::<(), Fault>(())) == old(self)@.write_chain(
                        first,
                        offset as int,
                        data@,
                    )
                    &&& forall|i: int|
                        offset <= i < offset + data@.len() ==> #[trigger] old(self)@.position(
                            old(self)@.table.chain(first)->Ok_0,
                            i,
                        ) < old(self)@.disk.len()
                },
                Err(error) => {
                    ||| volume::device_failed(
                        old(self)@,
                        final(self)@,
                        old(self)@.write_chain(first, offset as int, data@).0.history,
                        error,
                    )
                    ||| (final(self)@, Err::<(), Fault>(error@))
                        == old(self)@.write_chain(first, offset as int, data@)
                },
            },
    {
        reveal(Volume::write_chain);
        let ghost before = self@;
        let runs: Vec<Run> = match self.runs(first) {
            Ok(runs) => runs,
            Err(error) => {
                return Err(error);
            },
        };
        let ghost clusters = before.table.chain(first)->Ok_0;
        let ghost reach = clusters.len() * before.cluster_bytes();
        let total: usize = data.len();
        proof {
            self.lemma_wf();
            table::lemma_chain(before.table, first);
            fs::lemma_chain_size(before, clusters.len() as int);
            assert(runs@.skip(0) =~= runs@);
            assert(data@.skip(0) =~= data@);
            assert(fat::done_before(runs@, 0, clusters.len() as int) == 0);
            assert(0 * before.cluster_bytes() == 0) by (nonlinear_arith);
        }
        let mut done: usize = 0;
        let mut r: usize = 0;
        while r < runs.len() && done < total
            invariant
                before == old(self)@,
                before.wf(),
                self.wf(),
                total == data@.len(),
                offset + total <= u32::MAX,
                before.table.chain(first) == Ok::<Seq<u32>, FatError>(clusters),
                runs@ == table::coalesce(clusters),
                before.table.links(clusters),
                table::tiles(runs@, clusters),
                clusters.len() <= 0x1000_0000,
                reach == clusters.len() * before.cluster_bytes(),
                r <= runs@.len(),
                done <= total,
                done == total || fat::done_before(runs@, r as int, clusters.len() as int)
                    * before.cluster_bytes() <= offset + done,
                done > 0 ==> offset + done <= reach,
                self@.kept(before),
                self@.written_from(before),
                self@.disk.len() == before.disk.len(),
                before.wrote_runs(runs@, offset as int, data@) == self@.wrote_runs(
                    runs@.skip(r as int),
                    offset + done,
                    data@.skip(done as int),
                ),
                forall|i: int|
                    offset <= i < offset + done ==> #[trigger] before.position(clusters, i)
                        < before.disk.len(),
            decreases runs@.len() - r,
        {
            let ghost reached = self@;
            let ghost run = runs@[r as int];
            proof {
                assert(runs@.skip(r as int).skip(1) =~= runs@.skip(r + 1));
                assert(runs@.skip(r as int)[0] == run);
                fat::lemma_done_before(runs@, clusters, r as int);
                table::lemma_tiles_bound(runs@, clusters, r as int);
                fs::lemma_chain_size(before, 0);
                lemma_run_span(run, clusters.len() as int, before.cluster_bytes());
            }
            let rest: &[u8] = &data[done..total];
            assert(rest@ =~= data@.skip(done as int));
            let take: usize = match self.write_run_part(
                &runs,
                r,
                offset + done as u64,
                rest,
                Ghost(clusters),
            ) {
                Ok(take) => take,
                Err(error) => {
                    proof {
                        reveal(Volume::write_chain);
                        let at = offset + done;
                        let left = runs@.skip(r as int);
                        let start = run.file_cluster * before.cluster_bytes();
                        let end = (run.file_cluster + run.clusters) * before.cluster_bytes();
                        let span = reached.wrote_span(
                            before.boot.spec_cluster_sector(run.start_cluster as int) + (at - start)
                                / 512,
                            (at - start) % 512,
                            rest@.take(operations::least(end - at, rest@.len() as int)),
                        );
                        calls::lemma_wrote_runs(reached, left, at, rest@);
                        calls::lemma_then(
                            self@.history,
                            span.history,
                            before.wrote_runs(runs@, offset as int, data@).history,
                        );
                    }
                    return Err(error);
                },
            };
            proof {
                let within = offset + done - run.file_cluster * before.cluster_bytes();
                let sector = before.boot.spec_cluster_sector(run.start_cluster as int) + within
                    / 512;
                operations::lemma_wrote_span_frame(
                    reached,
                    sector,
                    within % 512,
                    rest@.take(take as int),
                );
                assert(rest@.skip(take as int) =~= data@.skip(done + take));
                assert forall|i: int| offset <= i < offset + done + take implies #[trigger] before.position(
                    clusters,
                    i,
                ) < before.disk.len() by {
                    if i >= offset + done {
                        assert(reached.position(clusters, i) == before.position(clusters, i));
                    }
                }
            }
            done += take;
            r += 1;
        }
        if done != total {
            assert(runs@.skip(r as int) =~= Seq::<Run>::empty());
            return Err(
                Error::Fat(
                    FatError::ChainShorterThanFile {
                        start: first,
                        size: (offset + total as u64) as u32,
                    },
                ),
            );
        }
        assert(data@.skip(done as int) =~= Seq::<u8>::empty());
        Ok(())
    }

    /// Writes zeros to the chain that starts at `first`, from `from` up to
    /// `to`.
    fn zero_range(&mut self, first: u32, from: u64, to: u64) -> (result: Result<(), D::Error>)
        requires
            old(self).wf(),
            to <= u32::MAX,
        ensures
            final(self).wf(),
            final(self)@.kept(old(self)@),
            final(self)@.written_from(old(self)@),
            from >= to ==> result is Ok,
            match result {
                Ok(()) => (final(self)@, Ok::<(), Fault>(())) == old(self)@.zero_chain(
                    first,
                    from as int,
                    to as int,
                ),
                Err(error) => {
                    ||| volume::device_failed(
                        old(self)@,
                        final(self)@,
                        old(self)@.zero_chain(first, from as int, to as int).0.history,
                        error,
                    )
                    ||| (final(self)@, Err::<(), Fault>(error@))
                        == old(self)@.zero_chain(first, from as int, to as int)
                },
            },
    {
        if from >= to {
            return Ok(());
        }
        let ghost before = self@;
        let span: u64 = to - from;
        let zeros: Vec<u8> = vec![
            0u8;
            if span < 0x1_0000 {
                span as usize
            } else {
                0x1_0000
            }
        ];
        let mut at: u64 = from;
        while at < to
            invariant
                before == old(self)@,
                self.wf(),
                self@.kept(before),
                self@.written_from(before),
                from <= at <= to,
                from < to <= u32::MAX,
                span == to - from,
                zeros@.len() == (if span < 0x1_0000 {
                    span as int
                } else {
                    0x1_0000
                }),
                forall|i: int| 0 <= i < zeros@.len() ==> zeros@[i] == 0,
                before.zero_chain(first, from as int, to as int) == self@.zero_chain(
                    first,
                    at as int,
                    to as int,
                ),
            decreases to - at,
        {
            let take: usize = if to - at < zeros.len() as u64 {
                (to - at) as usize
            } else {
                zeros.len()
            };
            let part: &[u8] = &zeros.as_slice()[0..take];
            assert(part@ =~= bytes::zeros(take as nat));
            assert(take == operations::least(to - at, 0x1_0000));
            let ghost reached = self@;
            if let Err(error) = self.write_chain(first, at, part) {
                proof {
                    let planned = before.zero_chain(first, from as int, to as int).0.history;
                    calls::lemma_zero_chain(reached, first, at as int, to as int);
                    calls::lemma_through(
                        self@.history,
                        reached.write_chain(first, at as int, part@).0.history,
                        planned,
                    );
                }
                return Err(error);
            }
            at += take as u64;
        }
        Ok(())
    }
}

impl<D: BlockDevice> FileSystem<D> {
    /// Makes sure that a file's chain holds `size` bytes. A chain that is new
    /// to the file reaches the device before the file's entry names it.
    fn reserve(&mut self, file: &mut File, size: u32, now: DateTime) -> (result: Result<
        (),
        D::Error,
    >)
        requires
            old(self).wf(),
        ensures
            final(self).wf(),
            final(self)@.kept(old(self)@),
            match result {
                Ok(()) => (final(self)@, final(file)@, Ok::<(), Fault>(())) == old(self)@.reserve(
                    old(file)@,
                    size,
                    now,
                ),
                Err(error) => {
                    ||| {
                        &&& volume::device_failed(
                            old(self)@,
                            final(self)@,
                            old(self)@.reserve(old(file)@, size, now).0.history,
                            error,
                        )
                        &&& old(self)@.reserve_stops(old(file)@, size, final(self)@, final(file)@)
                    }
                    ||| (final(self)@, final(file)@, Err::<(), Fault>(error@))
                        == old(self)@.reserve(old(file)@, size, now)
                },
            },
    {
        reveal(Volume::reserve);
        let ghost before = self@;
        let cluster_bytes: u32 = self.boot_sector().cluster_bytes();
        proof {
            self.lemma_wf();
            fs::lemma_chain_size(before, 0);
        }
        let wanted: u32 = clusters_needed(size, cluster_bytes);
        if wanted == 0 {
            return Ok(());
        }
        if file.first_cluster == 0 {
            let runs: Vec<Run> = match self.fat_mut().allocate(wanted) {
                Ok(runs) => runs,
                Err(error) => {
                    return Err(Error::Fat(error));
                },
            };
            proof {
                table::lemma_picked(before.table, wanted as int);
                lemma_first_of(runs@, before.table.allocated(wanted).1->Ok_0);
            }
            let first: u32 = runs[0].start_cluster;
            let ghost held = self@;
            if let Err(error) = self.flush_fat() {
                proof {
                    calls::lemma_reserve(before, file@, size, now);
                    calls::lemma_through(
                        self@.history,
                        held.flush().history,
                        before.reserve(file@, size, now).0.history,
                    );
                }
                return Err(error);
            }
            let edit = Edit::Update { first_cluster: first, size: file.size, at: now };
            if let Err(error) = self.edit_entry(file.directory, file.index, &edit) {
                return Err(error);
            }
            file.first_cluster = first;
            return Ok(());
        }
        let runs: Vec<Run> = match self.runs(file.first_cluster) {
            Ok(runs) => runs,
            Err(error) => {
                return Err(error);
            },
        };
        let ghost clusters = before.table.chain(file@.first_cluster)->Ok_0;
        proof {
            table::lemma_chain(before.table, file@.first_cluster);
            table::lemma_tiles_bound(runs@, clusters, runs@.len() - 1);
            let last = runs@.last();
            assert(clusters[last.file_cluster + (last.clusters - 1)] == table::run_cluster(
                last,
                last.clusters - 1,
            ));
            fs::lemma_run_valid(before.table, runs@, clusters, runs@.len() - 1);
        }
        let run: Run = runs[runs.len() - 1];
        let have: u32 = run.file_cluster + run.clusters;
        if wanted > have {
            let last: u32 = run.start_cluster + (run.clusters - 1);
            if let Err(error) = self.fat_mut().append(last, wanted - have) {
                return Err(Error::Fat(error));
            }
            return self.flush_fat();
        }
        Ok(())
    }

    /// Writes to a file from `offset` on, stamping its entry with `now` where
    /// the entry changes. What lies between the file's end and `offset`
    /// becomes zeros, and a new length is recorded last.
    pub fn write_at_stamped(&mut self, file: &mut File, offset: u64, data: &[u8], now: DateTime) -> (result:
        Result<(), D::Error>)
        requires
            old(self).wf(),
        ensures
            final(self).wf(),
            final(self)@.kept(old(self)@),
            match result {
                Ok(()) => (final(self)@, final(file)@, Ok::<(), Fault>(()))
                    == old(self)@.write_file_at(old(file)@, offset as int, data@, now),
                Err(error) => {
                    ||| {
                        &&& volume::interrupted(
                            old(self)@,
                            final(self)@,
                            old(self)@.write_file_at(
                                old(file)@,
                                offset as int,
                                data@,
                                now,
                            ).0.history,
                            error,
                        )
                        &&& old(self)@.write_stops(
                            old(file)@,
                            (offset + data@.len()) as u32,
                            now,
                            final(self)@,
                            final(file)@,
                            error@,
                        )
                    }
                    ||| (final(self)@, final(file)@, Err::<(), Fault>(error@))
                        == old(self)@.write_file_at(old(file)@, offset as int, data@, now)
                },
            },
    {
        reveal(Volume::write_live);
        let ghost before = self@;
        let ghost planned = before.write_file_at(file@, offset as int, data@, now).0.history;
        proof {
            calls::lemma_write_file_at(before, file@, offset as int, data@, now);
        }
        if let Err(error) = self.check_live(file) {
            proof {
                calls::lemma_through(
                    self@.history,
                    before.check_live(file@).0.history,
                    planned,
                );
            }
            return Err(error);
        }
        proof {
            operations::lemma_check_live_looks(before, file@);
        }
        if data.len() == 0 {
            return Ok(());
        }
        let end: u64 = match offset.checked_add(data.len() as u64) {
            Some(end) => end,
            None => u64::MAX,
        };
        if end > u32::MAX as u64 {
            return Err(
                Error::Fat(
                    FatError::DiskFull { wanted: u32::MAX, free: self.fat().free_clusters() },
                ),
            );
        }
        let size: u32 = end as u32;
        let ghost live = self@;
        proof {
            calls::lemma_write_live(live, file@, offset as int, data@, now);
        }
        if let Err(error) = self.reserve(file, size, now) {
            proof {
                calls::lemma_through(
                    self@.history,
                    live.reserve(old(file)@, size, now).0.history,
                    planned,
                );
            }
            return Err(error);
        }
        let ghost reserved = self@;
        if offset > file.size as u64 {
            if let Err(error) = self.zero_range(file.first_cluster, file.size as u64, offset) {
                proof {
                    calls::lemma_through(
                        self@.history,
                        reserved.zero_chain(
                            file@.first_cluster,
                            file@.size as int,
                            offset as int,
                        ).0.history,
                        planned,
                    );
                }
                return Err(error);
            }
        }
        let ghost zeroed = self@;
        if let Err(error) = self.write_chain(file.first_cluster, offset, data) {
            proof {
                calls::lemma_through(
                    self@.history,
                    zeroed.write_chain(file@.first_cluster, offset as int, data@).0.history,
                    planned,
                );
            }
            return Err(error);
        }
        if size > file.size {
            let edit = Edit::Update { first_cluster: file.first_cluster, size, at: now };
            if let Err(error) = self.edit_entry(file.directory, file.index, &edit) {
                return Err(error);
            }
            file.size = size;
        }
        Ok(())
    }

    /// Makes a file longer, with zeros, or shorter, stamping its entry with
    /// `now`. A shorter file's entry is changed before its clusters are given
    /// back.
    pub fn truncate_stamped(&mut self, file: &mut File, size: u32, now: DateTime) -> (result: Result<
        (),
        D::Error,
    >)
        requires
            old(self).wf(),
        ensures
            final(self).wf(),
            final(self)@.kept(old(self)@),
            match result {
                Ok(()) => (final(self)@, final(file)@, Ok::<(), Fault>(())) == old(self)@.truncate(
                    old(file)@,
                    size,
                    now,
                ),
                Err(error) => {
                    ||| {
                        &&& volume::interrupted(
                            old(self)@,
                            final(self)@,
                            old(self)@.truncate(old(file)@, size, now).0.history,
                            error,
                        )
                        &&& old(self)@.truncate_stops(
                            old(file)@,
                            size,
                            now,
                            final(self)@,
                            final(file)@,
                            error@,
                        )
                    }
                    ||| (final(self)@, final(file)@, Err::<(), Fault>(error@))
                        == old(self)@.truncate(old(file)@, size, now)
                },
            },
    {
        let ghost before = self@;
        let ghost planned = before.truncate(file@, size, now).0.history;
        proof {
            calls::lemma_truncate(before, file@, size, now);
        }
        if let Err(error) = self.check_live(file) {
            proof {
                calls::lemma_through(
                    self@.history,
                    before.check_live(file@).0.history,
                    planned,
                );
            }
            return Err(error);
        }
        if size == file.size {
            return Ok(());
        }
        if size > file.size {
            let ghost live = self@;
            if let Err(error) = self.reserve(file, size, now) {
                proof {
                    calls::lemma_through(
                        self@.history,
                        live.reserve(old(file)@, size, now).0.history,
                        planned,
                    );
                }
                return Err(error);
            }
            let ghost reserved = self@;
            if let Err(error) = self.zero_range(
                file.first_cluster,
                file.size as u64,
                size as u64,
            ) {
                proof {
                    calls::lemma_through(
                        self@.history,
                        reserved.zero_chain(
                            file@.first_cluster,
                            file@.size as int,
                            size as int,
                        ).0.history,
                        planned,
                    );
                }
                return Err(error);
            }
            let edit = Edit::Update { first_cluster: file.first_cluster, size, at: now };
            if let Err(error) = self.edit_entry(file.directory, file.index, &edit) {
                return Err(error);
            }
            file.size = size;
            return Ok(());
        }
        let cluster_bytes: u32 = self.boot_sector().cluster_bytes();
        proof {
            self.lemma_wf();
            fs::lemma_chain_size(self@, 0);
        }
        let keep: u32 = clusters_needed(size, cluster_bytes);
        let first: u32 = if keep == 0 {
            0
        } else {
            file.first_cluster
        };
        let edit = Edit::Update { first_cluster: first, size, at: now };
        let ghost live = self@;
        if let Err(error) = self.edit_entry(file.directory, file.index, &edit) {
            proof {
                calls::lemma_through(
                    self@.history,
                    live.edit_slot(file@.directory, file@.index, edit).0.history,
                    planned,
                );
            }
            return Err(error);
        }
        if file.first_cluster != 0 {
            if let Err(error) = self.fat_mut().truncate_chain(file.first_cluster, keep) {
                return Err(Error::Fat(error));
            }
            if let Err(error) = self.flush_fat() {
                return Err(error);
            }
        }
        file.size = size;
        file.first_cluster = first;
        Ok(())
    }
}

impl<D: BlockDevice> FileSystem<D> {
    /// Gives a chain back, and writes the table.
    fn release(&mut self, first: u32) -> (result: Result<(), D::Error>)
        requires
            old(self).wf(),
        ensures
            final(self).wf(),
            final(self)@.kept(old(self)@),
            match result {
                Ok(()) => (final(self)@, Ok::<(), Fault>(())) == old(self)@.free_chain(first),
                Err(error) => {
                    ||| {
                        &&& volume::device_failed(
                            old(self)@,
                            final(self)@,
                            old(self)@.free_chain(first).0.history,
                            error,
                        )
                        &&& old(self)@.free_chain_stops(first, final(self)@)
                    }
                    ||| (final(self)@, Err::<(), Fault>(error@)) == old(self)@.free_chain(first)
                },
            },
    {
        reveal(Volume::free_chain);
        if let Err(error) = self.fat_mut().free_chain(first) {
            return Err(Error::Fat(error));
        }
        self.flush_fat()
    }

    /// Takes a chain that was allocated for nothing out of the table again.
    fn undo(&mut self, first: u32)
        requires
            old(self).wf(),
        ensures
            final(self).wf(),
            final(self)@ == old(self)@.undone(first),
    {
        if first != 0 {
            let _ = self.fat_mut().free_chain(first);
        }
    }

    /// Removes the file a path leads to: its entry first, then its clusters.
    pub fn remove(&mut self, path: &str) -> (result: Result<(), D::Error>)
        requires
            old(self).wf(),
        ensures
            final(self).wf(),
            final(self)@.kept(old(self)@),
            match result {
                Ok(()) => (final(self)@, Ok::<(), Fault>(())) == old(self)@.remove(path@),
                Err(error) => {
                    ||| {
                        &&& volume::interrupted(
                            old(self)@,
                            final(self)@,
                            old(self)@.remove(path@).0.history,
                            error,
                        )
                        &&& old(self)@.remove_stops(path@, final(self)@, error@)
                    }
                    ||| (final(self)@, Err::<(), Fault>(error@)) == old(self)@.remove(path@)
                },
            },
    {
        let ghost before = self@;
        let ghost planned = before.remove(path@).0.history;
        proof {
            calls::lemma_remove(before, path@);
        }
        let file: File = match self.open(path) {
            Ok(file) => file,
            Err(error) => {
                proof {
                    calls::lemma_through(
                        self@.history,
                        before.open(path@).0.history,
                        planned,
                    );
                }
                return Err(error);
            },
        };
        let ghost opened = self@;
        if let Err(error) = self.delete_entries(file.directory, file.first_slot, file.index) {
            proof {
                calls::lemma_through(
                    self@.history,
                    opened.delete_slots(
                        file@.directory,
                        file@.first_slot,
                        file@.index,
                    ).0.history,
                    planned,
                );
            }
            return Err(error);
        }
        if file.first_cluster != 0 {
            return self.release(file.first_cluster);
        }
        Ok(())
    }

    /// Chooses the form a new name is stored in.
    fn plan_name(&mut self, directory: u32, name: &str) -> (result: Result<StoredName, D::Error>)
        requires
            old(self).wf(),
        ensures
            final(self).wf(),
            final(self)@.only_read(old(self)@),
            match result {
                Ok(stored) => {
                    &&& (final(self)@, Ok::<StoredView, Fault>(stored@)) == old(self)@.plan_name(
                        directory,
                        name@,
                    )
                    &&& stored@.slots.len() <= 20
                    &&& stored@.short.wf()
                },
                Err(error) => {
                    ||| {
                        &&& volume::interrupted(
                            old(self)@,
                            final(self)@,
                            old(self)@.plan_name(directory, name@).0.history,
                            error,
                        )
                        &&& final(self)@.unread(old(self)@, directory, error@)
                    }
                    ||| (final(self)@, Err::<StoredView, Fault>(error@))
                        == old(self)@.plan_name(directory, name@)
                },
            },
    {
        reveal(Volume::plan_name);
        if let Err(error) = self.load_dir(directory) {
            return Err(error);
        }
        let held: &Directory = self.held_dir(directory);
        if held.get(name).is_some() {
            return Err(Error::AlreadyExists { name: name.to_owned() });
        }
        let taken = |alias: &str| -> (answer: bool)
            requires
                held.wf(),
            ensures
                answer == held@.find(alias@) is Some,
            { held.get(alias).is_some() };
        let ghost listing = held@;
        let ghost answers = |alias: Seq<char>| listing.find(alias) is Some;
        assert(name::answers_as(taken, answers));
        name::stored_name(name, self.codepage(), &taken)
    }

    /// The slots of a new entry: those of its long name, and its own.
    fn name_entries(
        stored: &StoredName,
        attributes: Attributes,
        first_cluster: u32,
        size: u32,
        at: DateTime,
    ) -> (entries: Vec<[u8; ENTRY_SIZE]>)
        ensures
            entries@.len() == stored@.slots.len() + 1,
            Seq::new(entries@.len(), |i: int| entries@[i]@).drop_last() == stored@.slots,
            entries@.last()@ == dir::entry_bytes(
                stored@.short,
                attributes.spec_bits(),
                first_cluster,
                size,
                at,
            ),
    {
        let mut entries: Vec<[u8; ENTRY_SIZE]> = Vec::new();
        let count: usize = stored.slots.len();
        let mut n: usize = 0;
        while n < count
            invariant
                n <= count,
                count == stored.slots@.len(),
                entries@ == stored.slots@.take(n as int),
            decreases count - n,
        {
            entries.push(stored.slots[n]);
            n += 1;
            assert(entries@ =~= stored.slots@.take(n as int));
        }
        assert(entries@ =~= stored.slots@);
        let mut short: [u8; ENTRY_SIZE] = [0u8; ENTRY_SIZE];
        dir::write_entry(&mut short, 0, &stored.short, attributes, first_cluster, size, at);
        let ghost entry = dir::entry_bytes(
            stored@.short,
            attributes.spec_bits(),
            first_cluster,
            size,
            at,
        );
        proof {
            stored.short.lemma_wf();
            assert(short@ =~= entry);
        }
        entries.push(short);
        assert(Seq::new(entries@.len(), |i: int| entries@[i]@).drop_last() =~= stored@.slots);
        entries
    }

    /// Writes a new entry, after the table that its chain is in.
    fn publish(
        &mut self,
        directory: u32,
        stored: &StoredName,
        entries: &Vec<[u8; ENTRY_SIZE]>,
        first: u32,
        index: u32,
    ) -> (result: Result<(), D::Error>)
        requires
            old(self).wf(),
            entries@.len() > 0,
            index + entries@.len() <= u32::MAX,
            Seq::new(entries@.len(), |i: int| entries@[i]@).drop_last() == stored@.slots,
        ensures
            final(self).wf(),
            final(self)@.kept(old(self)@),
            match result {
                Ok(()) => (final(self)@, Ok::<(), Fault>(())) == old(self)@.publish(
                    directory,
                    stored@,
                    entries@.last()@,
                    first,
                    index,
                ),
                Err(error) => {
                    ||| {
                        &&& volume::device_failed(
                            old(self)@,
                            final(self)@,
                            old(self)@.publish(
                                directory,
                                stored@,
                                entries@.last()@,
                                first,
                                index,
                            ).0.history,
                            error,
                        )
                        &&& old(self)@.publish_stops(first, final(self)@)
                    }
                    ||| (final(self)@, Err::<(), Fault>(error@))
                        == old(self)@.publish(directory, stored@, entries@.last()@, first, index)
                },
            },
    {
        reveal(Volume::publish);
        let ghost slots = Seq::new(entries@.len(), |i: int| entries@[i]@);
        assert(slots =~= stored@.slots.push(entries@.last()@));
        let ghost before = self@;
        let mut result: Result<(), D::Error> = self.flush_fat();
        proof {
            let planned = before.publish(
                directory,
                stored@,
                entries@.last()@,
                first,
                index,
            ).0.history;
            calls::lemma_publish(before, directory, stored@, entries@.last()@, first, index);
            calls::lemma_through(self@.history, before.flush().history, planned);
        }
        if result.is_ok() {
            result = self.write_entries(directory, index, entries);
        }
        if result.is_err() {
            self.undo(first);
        }
        result
    }
}

impl<D: BlockDevice> FileSystem<D> {
    /// Puts a new file's entry into its directory.
    fn create_with(&mut self, directory: u32, stored: &StoredName, first: u32, now: DateTime) -> (result:
        Result<File, D::Error>)
        requires
            old(self).wf(),
            stored@.slots.len() <= 20,
        ensures
            final(self).wf(),
            final(self)@.kept(old(self)@),
            match result {
                Ok(file) => (final(self)@, Ok::<FileView, Fault>(file@)) == old(self)@.create_with(
                    directory,
                    stored@,
                    first,
                    now,
                ),
                Err(error) => {
                    ||| {
                        &&& volume::interrupted(
                            old(self)@,
                            final(self)@,
                            old(self)@.create_with(directory, stored@, first, now).0.history,
                            error,
                        )
                        &&& old(self)@.create_with_stops(
                            directory,
                            stored@,
                            first,
                            final(self)@,
                            error@,
                        )
                    }
                    ||| (final(self)@, Err::<FileView, Fault>(error@))
                        == old(self)@.create_with(directory, stored@, first, now)
                },
            },
    {
        reveal(Volume::create_with);
        let ghost before = self@;
        let deletions: u32 = self.deletions(directory);
        let first_slot: u32 = match self.free_slots(directory, stored.entries()) {
            Ok(index) => index,
            Err(error) => {
                proof {
                    calls::lemma_create_with(before, directory, stored@, first, now);
                    calls::lemma_through(
                        self@.history,
                        before.find_room(
                            directory,
                            (stored@.slots.len() + 1) as u32,
                            fs::MAX_DIRECTORY_GROWTH as int,
                        ).0.history,
                        before.create_with(directory, stored@, first, now).0.history,
                    );
                }
                self.undo(first);
                return Err(error);
            },
        };
        let entries: Vec<[u8; ENTRY_SIZE]> = Self::name_entries(
            stored,
            Attributes::ARCHIVE(),
            first,
            0,
            now,
        );
        if let Err(error) = self.publish(directory, stored, &entries, first, first_slot) {
            return Err(error);
        }
        Ok(
            File {
                first_cluster: first,
                size: 0,
                directory,
                index: first_slot + stored.slots.len() as u32,
                first_slot,
                short_name: stored.short,
                deletions,
            },
        )
    }

    /// Creates an empty file with room for `size` bytes, stamped with `now`.
    pub fn create_with_size_stamped(&mut self, path: &str, size: u32, now: DateTime) -> (result: Result<
        File,
        D::Error,
    >)
        requires
            old(self).wf(),
        ensures
            final(self).wf(),
            final(self)@.kept(old(self)@),
            match result {
                Ok(file) => (final(self)@, Ok::<FileView, Fault>(file@)) == old(self)@.create(
                    path@,
                    size,
                    now,
                ),
                Err(error) => {
                    ||| {
                        &&& volume::interrupted(
                            old(self)@,
                            final(self)@,
                            old(self)@.create(path@, size, now).0.history,
                            error,
                        )
                        &&& old(self)@.create_stops(path@, size, now, final(self)@, error@)
                    }
                    ||| (final(self)@, Err::<FileView, Fault>(error@))
                        == old(self)@.create(path@, size, now)
                },
            },
    {
        let chars: Vec<char> = text::chars_of(path);
        let (parent, name) = split_path(chars.as_slice());
        let ghost before = self@;
        let ghost wanted = before.create(path@, size, now).0.history;
        proof {
            calls::lemma_create(before, path@, size, now);
        }
        let directory: u32 = match self.resolve_dir(parent) {
            Ok(directory) => directory,
            Err(error) => {
                proof {
                    calls::lemma_through(
                        self@.history,
                        before.resolve(before.boot.root_cluster, parent@).0.history,
                        wanted,
                    );
                }
                return Err(error);
            },
        };
        let name: String = text::string_of(name);
        let ghost resolved = self@;
        let stored: StoredName = match self.plan_name(directory, name.as_str()) {
            Ok(stored) => stored,
            Err(error) => {
                proof {
                    calls::lemma_through(
                        self@.history,
                        resolved.plan_name(directory, name@).0.history,
                        wanted,
                    );
                }
                return Err(error);
            },
        };
        let ghost planned = self@;
        let cluster_bytes: u32 = self.boot_sector().cluster_bytes();
        proof {
            self.lemma_wf();
            fs::lemma_chain_size(self@, 0);
        }
        let clusters: u32 = clusters_needed(size, cluster_bytes);
        let runs: Vec<Run> = match self.fat_mut().allocate(clusters) {
            Ok(runs) => runs,
            Err(error) => {
                return Err(Error::Fat(error));
            },
        };
        proof {
            if clusters > 0 {
                table::lemma_picked(planned.table, clusters as int);
                lemma_first_of(runs@, planned.table.allocated(clusters).1->Ok_0);
            }
        }
        let first: u32 = if runs.len() > 0 {
            runs[0].start_cluster
        } else {
            0
        };
        self.create_with(directory, &stored, first, now)
    }

    /// Fills a new directory's cluster and puts its entry into its parent.
    fn create_dir_with(&mut self, parent: u32, stored: &StoredName, cluster: u32, now: DateTime) -> (result:
        Result<u32, D::Error>)
        requires
            old(self).wf(),
            stored@.slots.len() <= 20,
            old(self)@.table.valid(cluster as int),
        ensures
            final(self).wf(),
            final(self)@.kept(old(self)@),
            match result {
                Ok(made) => (final(self)@, Ok::<u32, Fault>(made)) == old(self)@.create_dir_with(
                    parent,
                    stored@,
                    cluster,
                    now,
                ),
                Err(error) => {
                    ||| {
                        &&& volume::interrupted(
                            old(self)@,
                            final(self)@,
                            old(self)@.create_dir_with(parent, stored@, cluster, now).0.history,
                            error,
                        )
                        &&& old(self)@.create_dir_with_stops(
                            parent,
                            stored@,
                            cluster,
                            now,
                            final(self)@,
                            error@,
                        )
                    }
                    ||| (final(self)@, Err::<u32, Fault>(error@))
                        == old(self)@.create_dir_with(parent, stored@, cluster, now)
                },
            },
    {
        reveal(Volume::create_dir_with);
        let ghost before = self@;
        proof {
            self.lemma_wf();
            boot::lemma_cluster_in_volume(before.boot, cluster as int);
        }
        let ghost planned = before.create_dir_with(parent, stored@, cluster, now).0.history;
        proof {
            calls::lemma_create_dir_with(before, parent, stored@, cluster, now);
        }
        let first_slot: u32 = match self.free_slots(parent, stored.entries()) {
            Ok(index) => index,
            Err(error) => {
                proof {
                    calls::lemma_through(
                        self@.history,
                        before.find_room(
                            parent,
                            (stored@.slots.len() + 1) as u32,
                            fs::MAX_DIRECTORY_GROWTH as int,
                        ).0.history,
                        planned,
                    );
                }
                self.undo(cluster);
                return Err(error);
            },
        };
        let parent_link: u32 = if parent == self.root_cluster() {
            0
        } else {
            parent
        };
        let sectors: usize = self.boot_sector().sectors_per_cluster as usize;
        let mut data: Vec<u8> = vec![0u8; sectors * BLOCK_SIZE];
        assert(data@ =~= bytes::zeros(before.cluster_bytes() as nat));
        dir::write_dot_entries(data.as_mut_slice(), cluster, parent_link, now);
        assert(data@ == before.new_directory(cluster, parent, now));
        let sector: u64 = self.boot_sector().cluster_sector(cluster) as u64;
        let ghost roomy = self@;
        if let Err(error) = self.write_blocks(sector, data.as_slice()) {
            proof {
                calls::lemma_through(
                    self@.history,
                    roomy.wrote(sector as int, data@).history,
                    planned,
                );
            }
            self.undo(cluster);
            return Err(error);
        }
        let entries: Vec<[u8; ENTRY_SIZE]> = Self::name_entries(
            stored,
            Attributes::DIRECTORY(),
            cluster,
            0,
            now,
        );
        if let Err(error) = self.publish(parent, stored, &entries, cluster, first_slot) {
            return Err(error);
        }
        Ok(cluster)
    }

    /// Creates a directory, stamped with `now`; returns its first cluster.
    pub fn create_dir_stamped(&mut self, path: &str, now: DateTime) -> (result: Result<
        u32,
        D::Error,
    >)
        requires
            old(self).wf(),
        ensures
            final(self).wf(),
            final(self)@.kept(old(self)@),
            match result {
                Ok(cluster) => (final(self)@, Ok::<u32, Fault>(cluster)) == old(self)@.create_dir(
                    path@,
                    now,
                ),
                Err(error) => {
                    ||| {
                        &&& volume::interrupted(
                            old(self)@,
                            final(self)@,
                            old(self)@.create_dir(path@, now).0.history,
                            error,
                        )
                        &&& old(self)@.create_dir_stops(path@, now, final(self)@, error@)
                    }
                    ||| (final(self)@, Err::<u32, Fault>(error@))
                        == old(self)@.create_dir(path@, now)
                },
            },
    {
        let chars: Vec<char> = text::chars_of(path);
        let (parent_path, name) = split_path(chars.as_slice());
        let ghost before = self@;
        let ghost wanted = before.create_dir(path@, now).0.history;
        proof {
            calls::lemma_create_dir(before, path@, now);
        }
        let parent: u32 = match self.resolve_dir(parent_path) {
            Ok(parent) => parent,
            Err(error) => {
                proof {
                    calls::lemma_through(
                        self@.history,
                        before.resolve(before.boot.root_cluster, parent_path@).0.history,
                        wanted,
                    );
                }
                return Err(error);
            },
        };
        let name: String = text::string_of(name);
        let ghost resolved = self@;
        let stored: StoredName = match self.plan_name(parent, name.as_str()) {
            Ok(stored) => stored,
            Err(error) => {
                proof {
                    calls::lemma_through(
                        self@.history,
                        resolved.plan_name(parent, name@).0.history,
                        wanted,
                    );
                }
                return Err(error);
            },
        };
        let ghost planned = self@;
        proof {
            self.lemma_wf();
        }
        let runs: Vec<Run> = match self.fat_mut().allocate(1) {
            Ok(runs) => runs,
            Err(error) => {
                return Err(Error::Fat(error));
            },
        };
        proof {
            table::lemma_picked(planned.table, 1);
            let clusters = planned.table.allocated(1).1->Ok_0;
            lemma_first_of(runs@, clusters);
            assert(planned.table.is_free(clusters[0] as int));
        }
        self.create_dir_with(parent, &stored, runs[0].start_cluster, now)
    }

    /// Removes a directory that holds nothing but itself and its parent.
    pub fn remove_dir(&mut self, path: &str) -> (result: Result<(), D::Error>)
        requires
            old(self).wf(),
        ensures
            final(self).wf(),
            final(self)@.kept(old(self)@),
            match result {
                Ok(()) => (final(self)@, Ok::<(), Fault>(())) == old(self)@.remove_dir(path@),
                Err(error) => {
                    ||| {
                        &&& volume::interrupted(
                            old(self)@,
                            final(self)@,
                            old(self)@.remove_dir(path@).0.history,
                            error,
                        )
                        &&& old(self)@.remove_dir_stops(path@, final(self)@, error@)
                    }
                    ||| (final(self)@, Err::<(), Fault>(error@)) == old(self)@.remove_dir(path@)
                },
            },
    {
        reveal(Volume::look_up);
        let ghost before = self@;
        let chars: Vec<char> = text::chars_of(path);
        let (_, last) = split_path(chars.as_slice());
        let length: usize = plain_length(chars.as_slice());
        if length == 0 && chars.len() > 0 {
            return Err(Error::NotFound { name: text::string_of(last) });
        }
        let plain: &[char] = &chars.as_slice()[0..length];
        assert(plain@ =~= operations::plain(path@));
        let (parent_path, name) = split_path(plain);
        let ghost planned = before.remove_dir(path@).0.history;
        proof {
            calls::lemma_look_up(before, plain@);
            calls::lemma_remove_dir(before, path@);
        }
        let parent: u32 = match self.resolve_dir(parent_path) {
            Ok(parent) => parent,
            Err(error) => {
                proof {
                    let resolved = before.resolve(before.boot.root_cluster, parent_path@).0;
                    let looked = before.look_up(plain@).0;
                    calls::lemma_then(resolved.history, looked.history, planned);
                    calls::lemma_through(self@.history, resolved.history, planned);
                }
                return Err(error);
            },
        };
        if let Err(error) = self.load_dir(parent) {
            proof {
                calls::lemma_through(
                    self@.history,
                    before.look_up(plain@).0.history,
                    planned,
                );
            }
            return Err(error);
        }
        let name: String = text::string_of(name);
        let shown: String = text::string_of(last);
        let held: &Directory = self.held_dir(parent);
        proof {
            held.lemma_wf();
        }
        let (cluster, first_slot, index): (u32, u32, u32) = match held.get(name.as_str()) {
            None => {
                return Err(Error::NotFound { name });
            },
            Some(entry) => {
                proof {
                    dir::lemma_found(held@, name@);
                }
                if !entry.is_directory() {
                    return Err(Error::NotADirectory { name });
                }
                if dir::names_itself(entry.name()) {
                    return Err(Error::DirectoryNotEmpty { name: shown });
                }
                (entry.first_cluster(), entry.first_slot(), entry.index())
            },
        };
        let ghost found = self@;
        if let Err(error) = self.load_dir(cluster) {
            proof {
                calls::lemma_through(
                    self@.history,
                    found.read_dir(cluster).0.history,
                    planned,
                );
            }
            return Err(error);
        }
        if !self.held_dir(cluster).is_vacant() {
            return Err(Error::DirectoryNotEmpty { name: shown });
        }
        let ghost read = self@;
        if let Err(error) = self.delete_entries(parent, first_slot, index) {
            proof {
                calls::lemma_through(
                    self@.history,
                    read.delete_slots(parent, first_slot, index).0.history,
                    planned,
                );
            }
            return Err(error);
        }
        if let Err(error) = self.release(cluster) {
            return Err(error);
        }
        self.forget_directory(cluster);
        Ok(())
    }
}

impl<D: BlockDevice> FileSystem<D> {
    /// Creates an empty file.
    pub fn create(&mut self, path: &str) -> (result: Result<File, D::Error>)
        requires
            old(self).wf(),
        ensures
            final(self).wf(),
            final(self)@.kept(old(self)@),
            exists|now: DateTime| #[trigger]
                old(self)@.clock.contains(now) && match result {
                    Ok(file) => (final(self)@, Ok::<FileView, Fault>(file@)) == old(self)@.create(
                        path@,
                        0,
                        now,
                    ),
                    Err(error) => {
                        ||| {
                            &&& volume::interrupted(
                                old(self)@,
                                final(self)@,
                                old(self)@.create(path@, 0, now).0.history,
                                error,
                            )
                            &&& old(self)@.create_stops(path@, 0, now, final(self)@, error@)
                        }
                        ||| (final(self)@, Err::<FileView, Fault>(error@))
                            == old(self)@.create(path@, 0, now)
                    },
                },
    {
        self.create_with_size(path, 0)
    }

    /// Creates an empty file with room for `size` bytes: in one piece, where
    /// the volume has one.
    pub fn create_with_size(&mut self, path: &str, size: u32) -> (result: Result<File, D::Error>)
        requires
            old(self).wf(),
        ensures
            final(self).wf(),
            final(self)@.kept(old(self)@),
            exists|now: DateTime| #[trigger]
                old(self)@.clock.contains(now) && match result {
                    Ok(file) => (final(self)@, Ok::<FileView, Fault>(file@)) == old(self)@.create(
                        path@,
                        size,
                        now,
                    ),
                    Err(error) => {
                        ||| {
                            &&& volume::interrupted(
                                old(self)@,
                                final(self)@,
                                old(self)@.create(path@, size, now).0.history,
                                error,
                            )
                            &&& old(self)@.create_stops(path@, size, now, final(self)@, error@)
                        }
                        ||| (final(self)@, Err::<FileView, Fault>(error@))
                            == old(self)@.create(path@, size, now)
                    },
                },
    {
        let now: DateTime = self.now();
        assert(old(self)@.clock.contains(now));
        self.create_with_size_stamped(path, size, now)
    }

    /// Creates a directory; returns its first cluster.
    pub fn create_dir(&mut self, path: &str) -> (result: Result<u32, D::Error>)
        requires
            old(self).wf(),
        ensures
            final(self).wf(),
            final(self)@.kept(old(self)@),
            exists|now: DateTime| #[trigger]
                old(self)@.clock.contains(now) && match result {
                    Ok(cluster) => (final(self)@, Ok::<u32, Fault>(cluster)) == old(
                        self,
                    )@.create_dir(path@, now),
                    Err(error) => {
                        ||| {
                            &&& volume::interrupted(
                                old(self)@,
                                final(self)@,
                                old(self)@.create_dir(path@, now).0.history,
                                error,
                            )
                            &&& old(self)@.create_dir_stops(path@, now, final(self)@, error@)
                        }
                        ||| (final(self)@, Err::<u32, Fault>(error@))
                            == old(self)@.create_dir(path@, now)
                    },
                },
    {
        let now: DateTime = self.now();
        assert(old(self)@.clock.contains(now));
        self.create_dir_stamped(path, now)
    }

    /// Writes to a file from `offset` on. What lies between the file's end
    /// and `offset` becomes zeros, and a new length is recorded last.
    pub fn write_at(&mut self, file: &mut File, offset: u64, data: &[u8]) -> (result: Result<
        (),
        D::Error,
    >)
        requires
            old(self).wf(),
        ensures
            final(self).wf(),
            final(self)@.kept(old(self)@),
            exists|now: DateTime| #[trigger]
                old(self)@.clock.contains(now) && match result {
                    Ok(()) => (final(self)@, final(file)@, Ok::<(), Fault>(()))
                        == old(self)@.write_file_at(old(file)@, offset as int, data@, now),
                    Err(error) => {
                        ||| {
                            &&& volume::interrupted(
                                old(self)@,
                                final(self)@,
                                old(self)@.write_file_at(
                                    old(file)@,
                                    offset as int,
                                    data@,
                                    now,
                                ).0.history,
                                error,
                            )
                            &&& old(self)@.write_stops(
                                old(file)@,
                                (offset + data@.len()) as u32,
                                now,
                                final(self)@,
                                final(file)@,
                                error@,
                            )
                        }
                        ||| (final(self)@, final(file)@, Err::<(), Fault>(error@))
                            == old(self)@.write_file_at(old(file)@, offset as int, data@, now)
                    },
                },
    {
        let now: DateTime = self.now();
        assert(old(self)@.clock.contains(now));
        self.write_at_stamped(file, offset, data, now)
    }

    /// Makes a file longer, with zeros, or shorter.
    pub fn truncate(&mut self, file: &mut File, size: u32) -> (result: Result<(), D::Error>)
        requires
            old(self).wf(),
        ensures
            final(self).wf(),
            final(self)@.kept(old(self)@),
            exists|now: DateTime| #[trigger]
                old(self)@.clock.contains(now) && match result {
                    Ok(()) => (final(self)@, final(file)@, Ok::<(), Fault>(())) == old(
                        self,
                    )@.truncate(old(file)@, size, now),
                    Err(error) => {
                        ||| {
                            &&& volume::interrupted(
                                old(self)@,
                                final(self)@,
                                old(self)@.truncate(old(file)@, size, now).0.history,
                                error,
                            )
                            &&& old(self)@.truncate_stops(
                                old(file)@,
                                size,
                                now,
                                final(self)@,
                                final(file)@,
                                error@,
                            )
                        }
                        ||| (final(self)@, final(file)@, Err::<(), Fault>(error@))
                            == old(self)@.truncate(old(file)@, size, now)
                    },
                },
    {
        let now: DateTime = self.now();
        assert(old(self)@.clock.contains(now));
        self.truncate_stamped(file, size, now)
    }

    /// Writes a whole file in place of whatever file has its name.
    ///
    /// A file that cannot be opened is taken for one that is not there,
    /// whatever the reason.
    pub fn write_file(&mut self, path: &str, data: &[u8]) -> (result: Result<File, D::Error>)
        requires
            old(self).wf(),
        ensures
            final(self).wf(),
            final(self)@.kept(old(self)@),
            exists|created: DateTime, written: DateTime, tried: Volume, found: bool|
                #![trigger
                    old(self)@.clock.contains(created),
                    old(self)@.clock.contains(written),
                    old(self)@.looked_for(path@, tried, found)
                ]
                {
                    &&& old(self)@.clock.contains(created)
                    &&& old(self)@.clock.contains(written)
                    &&& old(self)@.looked_for(path@, tried, found)
                    &&& match result {
                        Ok(file) => (final(self)@, Ok::<FileView, Fault>(file@))
                            == tried.replace_file(path@, data@, found, created, written),
                        Err(error) => {
                            ||| {
                                &&& volume::interrupted(
                                    old(self)@,
                                    final(self)@,
                                    tried.replace_file(
                                        path@,
                                        data@,
                                        found,
                                        created,
                                        written,
                                    ).0.history,
                                    error,
                                )
                                &&& tried.replace_stops(
                                    path@,
                                    data@,
                                    found,
                                    created,
                                    written,
                                    final(self)@,
                                    error@,
                                )
                            }
                            ||| (final(self)@, Err::<FileView, Fault>(error@))
                                == tried.replace_file(path@, data@, found, created, written)
                        },
                    }
                },
    {
        let found: bool = self.open(path).is_ok();
        let ghost tried = self@;
        assert(old(self)@.looked_for(path@, tried, found));
        let created: DateTime = self.now();
        assert(old(self)@.clock.contains(created));
        if found {
            if let Err(error) = self.remove(path) {
                proof {
                    calls::lemma_replace_file(tried, path@, data@, found, created, created);
                    calls::lemma_through(
                        self@.history,
                        tried.remove(path@).0.history,
                        tried.replace_file(path@, data@, found, created, created).0.history,
                    );
                }
                return Err(error);
            }
        }
        let ghost removed = self@;
        let size: u32 = (data.len() as u64 % 0x1_0000_0000) as u32;
        let mut file: File = match self.create_with_size_stamped(path, size, created) {
            Ok(file) => file,
            Err(error) => {
                proof {
                    calls::lemma_replace_file(tried, path@, data@, found, created, created);
                    calls::lemma_through(
                        self@.history,
                        removed.create(path@, size, created).0.history,
                        tried.replace_file(path@, data@, found, created, created).0.history,
                    );
                }
                return Err(error);
            },
        };
        let written: DateTime = self.now();
        assert(old(self)@.clock.contains(written));
        let ghost made = self@;
        let ghost fresh = file@;
        if data.len() == 0 {
            return Ok(file);
        }
        if let Err(error) = self.write_at_stamped(&mut file, 0, data, written) {
            proof {
                let exact = made.write_file_at(fresh, 0, data@, written);
                if (self@, file@, Err::<(), Fault>(error@)) != exact {
                    assert(made.write_stops(
                        fresh,
                        data@.len() as u32,
                        written,
                        self@,
                        file@,
                        error@,
                    ));
                    let length = (data@.len() % 0x1_0000_0000) as u32;
                    assert(removed.create(path@, length, created) == (
                        made,
                        Ok::<FileView, Fault>(fresh),
                    ));
                    assert(removed.anew_stops(path@, data@, created, written, self@, error@));
                }
            }
            return Err(error);
        }
        Ok(file)
    }
}

/// How many clusters hold `size` bytes.
fn clusters_needed(size: u32, cluster_bytes: u32) -> (clusters: u32)
    requires
        512 <= cluster_bytes <= 0x1_0000,
    ensures
        clusters == operations::clusters_for(size as int, cluster_bytes as int),
        clusters == 0 <==> size == 0,
{
    proof {
        let (s, cb) = (size as int, cluster_bytes as int);
        assert((s + cb - 1) / cb <= s && (s > 0 ==> (s + cb - 1) / cb > 0) && (s == 0 ==> (s + cb
            - 1) / cb == 0)) by (nonlinear_arith)
            requires
                0 <= s,
                512 <= cb,
        ;
    }
    ((size as u64 + cluster_bytes as u64 - 1) / (cluster_bytes as u64)) as u32
}

/// The first run of clusters starts with the first of them.
proof fn lemma_first_of(runs: Seq<Run>, clusters: Seq<u32>)
    requires
        table::tiles(runs, clusters),
        clusters.len() > 0,
    ensures
        runs.len() > 0,
        runs[0].start_cluster == clusters[0],
{
    assert(runs[0].clusters > 0);
    assert(clusters[runs[0].file_cluster + 0] == table::run_cluster(runs[0], 0));
}

/// A run's bytes lie within its chain's.
proof fn lemma_run_span(run: Run, clusters: int, cluster_bytes: int)
    requires
        run.file_cluster + run.clusters <= clusters <= 0x1000_0000,
        0 < cluster_bytes <= 0x1_0000,
    ensures
        0 <= run.file_cluster * cluster_bytes,
        run.file_cluster * cluster_bytes + run.clusters * cluster_bytes == (run.file_cluster
            + run.clusters) * cluster_bytes,
        (run.file_cluster + run.clusters) * cluster_bytes <= clusters * cluster_bytes,
        clusters * cluster_bytes <= 0x1000_0000_0000,
        0 <= run.clusters * cluster_bytes,
{
    let (f, n) = (run.file_cluster as int, run.clusters as int);
    assert(0 <= f * cluster_bytes && 0 <= n * cluster_bytes && f * cluster_bytes + n * cluster_bytes
        == (f + n) * cluster_bytes && (f + n) * cluster_bytes <= clusters * cluster_bytes
        && clusters * cluster_bytes <= 0x1000_0000 * 0x1_0000) by (nonlinear_arith)
        requires
            0 <= f,
            0 <= n,
            f + n <= clusters <= 0x1000_0000,
            0 < cluster_bytes <= 0x1_0000,
    ;
}

} // verus!
