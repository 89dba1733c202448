//! The storage a volume sits on.
use vstd::prelude::*;

verus! {

/// Bytes in one block.
pub const BLOCK_SIZE: usize = 512;

/// One call a device has been asked to carry out.
pub enum Access {
    /// `blocks` blocks from `start` on were asked for.
    Read { start: int, blocks: int },
    /// `data` was handed over, to be stored from block `start` on.
    Write { start: int, data: Seq<u8> },
}

/// `max_transfer_blocks` as a batch size: never zero.
pub open spec fn batch_blocks(limit: u64) -> int {
    if limit == 0 {
        1
    } else {
        limit as int
    }
}

/// The calls that read `blocks` blocks from `start` on, no more than `batch`
/// at a time: one, where one will do.
pub open spec fn reads(start: int, blocks: int, batch: int) -> Seq<Access>
    decreases blocks,
{
    if blocks <= batch || batch <= 0 {
        seq![Access::Read { start, blocks }]
    } else {
        seq![Access::Read { start, blocks: batch }] + reads(start + batch, blocks - batch, batch)
    }
}

/// The calls that write `data` from block `start` on, no more than `batch`
/// blocks at a time.
pub open spec fn writes(start: int, data: Seq<u8>, batch: int) -> Seq<Access>
    decreases data.len(),
{
    if data.len() <= 512 * batch || batch <= 0 {
        seq![Access::Write { start, data }]
    } else {
        seq![Access::Write { start, data: data.take(512 * batch) }] + writes(
            start + batch,
            data.skip(512 * batch),
            batch,
        )
    }
}

/// A device that moves whole blocks of 512 bytes.
///
/// `contents` is what the device stores, byte by byte, and `history` is the
/// list of calls made of it. A call that succeeds lies inside the device: a
/// transfer past the end is an error rather than a short one. Of a call that
/// fails nothing is known but that it was made. What these are of a device is for
/// its own implementation to say.
pub trait BlockDevice {
    /// What the device reports when a call fails.
    type Error: core::fmt::Debug;

    /// The bytes on the device.
    closed spec fn contents(&self) -> Seq<u8> {
        arbitrary()
    }

    /// The calls made so far, oldest first.
    closed spec fn history(&self) -> Seq<Access> {
        arbitrary()
    }

    /// The longest transfer the device takes.
    closed spec fn limit(&self) -> u64 {
        arbitrary()
    }

    /// The size the device reports, in blocks.
    closed spec fn capacity(&self) -> Option<u64> {
        arbitrary()
    }

    /// Reads blocks from `start_block` on until `blocks` is full.
    fn read(&mut self, start_block: u64, blocks: &mut [u8]) -> (result: core::result::Result<
        (),
        Self::Error,
    >)
        requires
            old(blocks)@.len() % 512 == 0,
            old(blocks)@.len() <= 512 * batch_blocks(old(self).limit()),
        ensures
            final(blocks)@.len() == old(blocks)@.len(),
            final(self).limit() == old(self).limit(),
            final(self).history() == old(self).history().push(
                Access::Read { start: start_block as int, blocks: (old(blocks)@.len() / 512) as int },
            ),
            result is Ok ==> {
                &&& 512 * start_block + old(blocks)@.len() <= old(self).contents().len()
                &&& final(blocks)@ == old(self).contents().subrange(
                    512 * start_block,
                    512 * start_block + old(blocks)@.len(),
                )
                &&& final(self).contents() == old(self).contents()
                &&& final(self).capacity() == old(self).capacity()
            },
    ;

    /// Writes `blocks` from `start_block` on.
    fn write(&mut self, start_block: u64, blocks: &[u8]) -> (result: core::result::Result<
        (),
        Self::Error,
    >)
        requires
            blocks@.len() % 512 == 0,
            blocks@.len() <= 512 * batch_blocks(old(self).limit()),
        ensures
            final(self).limit() == old(self).limit(),
            final(self).history() == old(self).history().push(
                Access::Write { start: start_block as int, data: blocks@ },
            ),
            result is Ok ==> {
                &&& 512 * start_block + blocks@.len() <= old(self).contents().len()
                &&& final(self).contents() == crate::bytes::splice(
                    old(self).contents(),
                    512 * start_block,
                    blocks@,
                )
                &&& final(self).capacity() == old(self).capacity()
            },
    ;

    /// How many blocks the device has, or `None` where it does not know.
    fn block_count(&mut self) -> (result: core::result::Result<Option<u64>, Self::Error>)
        ensures
            final(self).limit() == old(self).limit(),
            final(self).history() == old(self).history(),
            result matches Ok(count) ==> {
                &&& count == old(self).capacity()
                &&& final(self).contents() == old(self).contents()
                &&& final(self).capacity() == old(self).capacity()
            },
    ;

    /// The most blocks one call may move.
    fn max_transfer_blocks(&self) -> (blocks: u64)
        ensures
            blocks == self.limit(),
    ;
}

} // verus!
