//! How a transfer is cut up for a device that is reached through a staging
//! buffer and numbers its blocks with 32 bits.
use vstd::prelude::*;

use crate::blockdev::BLOCK_SIZE;

verus! {

/// Blocks staged per transfer, where nothing else is asked for: 64 KiB.
pub const DEFAULT_STAGING_BLOCKS: usize = 128;

/// One call of the device behind a staging buffer.
#[derive(Debug, Clone, Copy, PartialEq, Eq, Structural)]
pub struct Batch {
    /// The block the call starts at.
    pub start: u32,
    /// Where its bytes start among those of the transfer.
    pub from: usize,
    /// How many blocks it moves.
    pub blocks: usize,
}

/// Call `n` of a transfer of `blocks` blocks from `start` on, through a
/// buffer that holds `capacity` of them. A block number past 32 bits loses
/// what does not fit.
pub open spec fn batch(start: u64, blocks: int, capacity: int, n: int) -> Batch {
    Batch {
        start: ((start + n * capacity) % 0x1_0000_0000) as u32,
        from: (512 * (n * capacity)) as usize,
        blocks: (if blocks - n * capacity < capacity {
            blocks - n * capacity
        } else {
            capacity
        }) as usize,
    }
}

/// How many calls such a transfer takes.
pub open spec fn batch_count(blocks: int, capacity: int) -> int {
    (blocks + capacity - 1) / capacity
}

/// The calls that move `length` bytes from block `start_block` on through a
/// buffer of `capacity` blocks, in order.
pub fn batches(start_block: u64, length: usize, capacity: usize) -> (calls: Vec<Batch>)
    requires
        capacity > 0,
        length % 512 == 0,
        start_block + length / 512 <= u64::MAX,
    ensures
        calls@ == Seq::new(
            batch_count(length as int / 512, capacity as int) as nat,
            |n: int| batch(start_block, length as int / 512, capacity as int, n),
        ),
{
    let blocks: usize = length / BLOCK_SIZE;
    let mut calls: Vec<Batch> = Vec::new();
    let mut done: usize = 0;
    proof {
        assert(0int * capacity == 0) by (nonlinear_arith);
    }
    while done < blocks
        invariant
            capacity > 0,
            blocks == length as int / 512,
            start_block + blocks <= u64::MAX,
            512 * blocks <= usize::MAX,
            done <= blocks,
            done == blocks || done == calls@.len() * capacity,
            done == (if calls@.len() * capacity < blocks {
                calls@.len() * capacity
            } else {
                blocks as int
            }),
            calls@.len() == 0 || (calls@.len() - 1) * capacity < blocks,
            calls@ == Seq::new(
                calls@.len(),
                |n: int| batch(start_block, blocks as int, capacity as int, n),
            ),
        decreases blocks - done,
    {
        let take: usize = if blocks - done < capacity {
            blocks - done
        } else {
            capacity
        };
        let ghost n = calls@.len() as int;
        proof {
            assert((n + 1) * capacity == n * capacity + capacity) by (nonlinear_arith);
        }
        let start: u32 = ((start_block + done as u64) % 0x1_0000_0000) as u32;
        calls.push(Batch { start, from: BLOCK_SIZE * done, blocks: take });
        done += take;
        assert(calls@ =~= Seq::new(
            calls@.len(),
            |n: int| batch(start_block, blocks as int, capacity as int, n),
        ));
    }
    proof {
        lemma_count(blocks as int, capacity as int, calls@.len() as int);
    }
    calls
}

/// The number of calls is the least that covers the transfer.
proof fn lemma_count(blocks: int, capacity: int, n: int)
    requires
        0 <= blocks,
        0 < capacity,
        0 <= n,
        n * capacity >= blocks,
        n == 0 || (n - 1) * capacity < blocks,
    ensures
        n == batch_count(blocks, capacity),
{
    let q = batch_count(blocks, capacity);
    vstd::arithmetic::div_mod::lemma_fundamental_div_mod(blocks + capacity - 1, capacity);
    assert(n == q) by (nonlinear_arith)
        requires
            0 <= blocks,
            0 < capacity,
            0 <= n,
            n * capacity >= blocks,
            n == 0 || (n - 1) * capacity < blocks,
            blocks + capacity - 1 == capacity * q + (blocks + capacity - 1) % capacity,
            0 <= (blocks + capacity - 1) % capacity < capacity,
    ;
}

/// The calls of a transfer follow on each other, end where it ends, and none
/// is longer than the buffer: no block is moved twice, and none is left out.
pub proof fn lemma_batches_tile(start: u64, blocks: int, capacity: int, n: int)
    requires
        0 < capacity,
        0 <= n < batch_count(blocks, capacity),
        0 < blocks,
        512 * blocks <= usize::MAX,
        start + blocks <= u32::MAX,
    ensures
        n == 0 ==> batch(start, blocks, capacity, n).start == start && batch(
            start,
            blocks,
            capacity,
            n,
        ).from == 0,
        n + 1 < batch_count(blocks, capacity) ==> {
            &&& batch(start, blocks, capacity, n).start + batch(start, blocks, capacity, n).blocks
                == batch(start, blocks, capacity, n + 1).start
            &&& batch(start, blocks, capacity, n).from + 512 * batch(
                start,
                blocks,
                capacity,
                n,
            ).blocks == batch(start, blocks, capacity, n + 1).from
        },
        n + 1 == batch_count(blocks, capacity) ==> {
            &&& batch(start, blocks, capacity, n).start + batch(start, blocks, capacity, n).blocks
                == start + blocks
            &&& batch(start, blocks, capacity, n).from + 512 * batch(
                start,
                blocks,
                capacity,
                n,
            ).blocks == 512 * blocks
        },
        0 < batch(start, blocks, capacity, n).blocks <= capacity,
{
    let q = batch_count(blocks, capacity);
    vstd::arithmetic::div_mod::lemma_fundamental_div_mod(blocks + capacity - 1, capacity);
    assert(0 <= n * capacity && n * capacity < blocks && (n + 1) * capacity == n * capacity
        + capacity && (n + 1 < q ==> (n + 1) * capacity < blocks) && (n + 1 == q ==> (n + 1)
        * capacity >= blocks)) by (nonlinear_arith)
        requires
            0 <= blocks,
            0 < capacity,
            0 <= n < q,
            blocks + capacity - 1 == capacity * q + (blocks + capacity - 1) % capacity,
            0 <= (blocks + capacity - 1) % capacity < capacity,
    ;
    if n == 0 {
        assert(n * capacity == 0) by (nonlinear_arith)
            requires
                n == 0,
        ;
    }
}

} // verus!
