//! An account of all slots that were ever claimed, kept beside the words of a
//! queue while any number of operations are under way.
//!
//! Slots are numbered in the order in which they were claimed: slot number `p`
//! lies in block `p / size`, where blocks are counted without end. For every
//! number the account says how far the slot has come, and for every field of
//! the words it says which block was opened last.

use crate::sync::cursor::UnpackedCursor;
use crate::sync::laps::{
    block_at, lap_cursor, lap_head, lemma_block_at, lemma_block_is_latest, lemma_quotient,
    lemma_split, lemma_version_monotone, version_at, version_of,
};
use crate::sync::memory::{BlockMemory, Memory};
use crate::sync::params::QueueParameters;
use vstd::prelude::*;

verus! {

/// How far a claimed slot has come: a producer has claimed it.
pub open spec fn claimed() -> int {
    0
}

/// How far a claimed slot has come: its producer has filled it.
pub open spec fn written() -> int {
    1
}

/// How far a claimed slot has come: its producer has counted it as filled.
pub open spec fn committed() -> int {
    2
}

/// How far a claimed slot has come: a consumer has claimed it.
pub open spec fn reserved() -> int {
    3
}

/// How far a claimed slot has come: its consumer has emptied it.
pub open spec fn taken() -> int {
    4
}

/// How far a claimed slot has come: its consumer has counted it as emptied.
pub open spec fn consumed() -> int {
    5
}

/// An account of the slots and of the blocks.
pub struct Account {
    /// How far each of the claimed slots has come.
    pub progress: Seq<int>,
    /// How many slots consumers have claimed.
    pub reserves: int,
    /// The last block that was opened in its allocated cursor.
    pub allocated: int,
    /// The last block that was opened in its committed cursor.
    pub committed: int,
    /// The last block that was entered in its reserved cursor.
    pub reserved: int,
    /// The last block that was entered in its consumed cursor.
    pub consumed: int,
    /// The block that the producer head names.
    pub producer: int,
    /// The block that the consumer head names.
    pub consumer: int,
}

/// How many of the slots from number `from` up to number `to` have come as far as `level`.
pub open spec fn counted(progress: Seq<int>, from: int, to: int, level: int) -> int
    decreases to - from,
{
    if from >= to {
        0
    } else {
        counted(progress, from, to - 1, level) + (if to - 1 < progress.len() && progress[to - 1]
            >= level {
            1int
        } else {
            0int
        })
    }
}

/// The cursor that counts the slots that have come as far as `level` in the
/// latest block up to block `last` that lies at index `i`.
pub open spec fn tally(
    params: QueueParameters,
    progress: Seq<int>,
    last: int,
    i: int,
    level: int,
) -> UnpackedCursor {
    let n = params.num_blocks as int;
    let size = params.block_size as int;
    let block = block_at(n, last, i);
    UnpackedCursor {
        version: version_at(n, last, i) as usize,
        offset: (if block < 0 {
            size
        } else {
            counted(progress, block * size, block * size + size, level)
        }) as usize,
    }
}

/// What slot number `p` holds.
pub open spec fn content<T>(elems: Seq<T>, progress: Seq<int>, p: int) -> Option<T> {
    if 0 <= p < elems.len() && written() <= progress[p] <= reserved() {
        Some(elems[p])
    } else {
        None
    }
}

/// The blocks of the account follow each other as the operations open them.
pub open spec fn blocks_in_order(params: QueueParameters, acc: Account) -> bool {
    let n = params.num_blocks as int;
    let size = params.block_size as int;
    let claims = acc.progress.len() as int;
    &&& 0 <= acc.reserves <= claims
    &&& 0 <= acc.producer <= acc.allocated
    &&& acc.allocated <= acc.committed <= acc.allocated + 1
    &&& 0 <= acc.consumer <= acc.reserved
    &&& acc.reserved <= acc.consumed <= acc.reserved + 1
    &&& acc.consumed <= acc.committed
    &&& 0 <= claims - acc.allocated * size <= size
    &&& acc.committed > acc.allocated ==> claims == acc.allocated * size + size
    &&& 0 <= acc.reserves - acc.reserved * size <= size
    &&& acc.consumed > acc.reserved ==> acc.reserves == acc.reserved * size + size
    &&& (acc.committed + 1 - n) * size <= acc.reserves
    &&& version_of(n, acc.committed) < params.versions()
}

/// Consumers claim slots in their order, and a block is opened again only after
/// all of its slots were consumed.
pub open spec fn slots_in_order(params: QueueParameters, acc: Account) -> bool {
    let n = params.num_blocks as int;
    let size = params.block_size as int;
    &&& forall|p: int|
        0 <= p < acc.progress.len() ==> claimed() <= #[trigger] acc.progress[p] <= consumed()
    &&& forall|p: int|
        0 <= p < acc.progress.len() ==> (p < acc.reserves <==> #[trigger] acc.progress[p]
            >= reserved())
    &&& forall|p: int|
        0 <= p < acc.progress.len() && p < (acc.committed + 1 - n) * size ==> #[trigger] acc.progress[p]
            == consumed()
}

/// By how much the allocated word of the block at index `i` exceeds the start of
/// the block.
pub open spec fn claims_at(params: QueueParameters, word: usize, acc: Account, i: int) -> int {
    word - version_at(params.num_blocks as int, acc.allocated, i) * params.unit()
}

/// The allocated word of the block at index `i` counts the claims in it. It may
/// count on past the end of the block, until all offsets are used up.
pub open spec fn counts_claims(
    params: QueueParameters,
    word: usize,
    acc: Account,
    i: int,
) -> bool {
    let n = params.num_blocks as int;
    let size = params.block_size as int;
    if i == acc.allocated % n && acc.progress.len() < acc.allocated * size + size {
        claims_at(params, word, acc, i) == acc.progress.len() - acc.allocated * size
    } else {
        size <= claims_at(params, word, acc, i) <= params.offsets()
    }
}

/// The words and the slots of the block at index `i` agree with the account.
pub open spec fn block_agrees<T>(
    params: QueueParameters,
    b: BlockMemory<T>,
    elems: Seq<T>,
    acc: Account,
    i: int,
) -> bool {
    let n = params.num_blocks as int;
    let size = params.block_size as int;
    &&& counts_claims(params, b.allocated, acc, i)
    &&& b.committed == params.cursor_word(tally(params, acc.progress, acc.committed, i, committed()))
    &&& b.reserved == params.cursor_word(lap_cursor(params, acc.reserves, acc.reserved, i))
    &&& b.consumed == params.cursor_word(tally(params, acc.progress, acc.consumed, i, consumed()))
    &&& forall|o: int|
        0 <= o < size ==> #[trigger] b.data[o] == content(
            elems,
            acc.progress,
            block_at(n, acc.allocated, i) * size + o,
        )
}

/// The memory agrees with the account, where `elems` were the elements of the
/// pushes that claimed slots, in the order of the claims.
pub open spec fn agrees<T>(
    params: QueueParameters,
    memory: Memory<T>,
    elems: Seq<T>,
    acc: Account,
) -> bool {
    &&& memory.shaped(params)
    &&& elems.len() == acc.progress.len()
    &&& blocks_in_order(params, acc)
    &&& slots_in_order(params, acc)
    &&& memory.producer == params.head_word(lap_head(params, acc.producer))
    &&& memory.consumer == params.head_word(lap_head(params, acc.consumer))
    &&& forall|i: int|
        0 <= i < params.num_blocks ==> block_agrees(
            params,
            #[trigger] memory.blocks[i],
            elems,
            acc,
            i,
        )
}

// ---------------------------------------------------------------------------
// Counting
// ---------------------------------------------------------------------------

/// A count lies between nothing and everything.
pub proof fn lemma_counted_bounds(progress: Seq<int>, from: int, to: int, level: int)
    requires
        from <= to,
    ensures
        0 <= counted(progress, from, to, level) <= to - from,
    decreases to - from,
{
    if from < to {
        lemma_counted_bounds(progress, from, to - 1, level);
    }
}

/// A count of a range is the sum of the counts of its two parts.
pub proof fn lemma_counted_split(progress: Seq<int>, from: int, mid: int, to: int, level: int)
    requires
        from <= mid <= to,
    ensures
        counted(progress, from, to, level) == counted(progress, from, mid, level) + counted(
            progress,
            mid,
            to,
            level,
        ),
    decreases to - mid,
{
    if mid < to {
        lemma_counted_split(progress, from, mid, to - 1, level);
    }
}

/// Nothing is counted past the claimed slots.
pub proof fn lemma_counted_beyond(progress: Seq<int>, from: int, to: int, level: int)
    requires
        progress.len() <= from,
    ensures
        counted(progress, from, to, level) == 0,
    decreases to - from,
{
    if from < to {
        lemma_counted_beyond(progress, from, to - 1, level);
    }
}

/// Where every slot is counted, every slot has come that far.
pub proof fn lemma_counted_all(progress: Seq<int>, from: int, to: int, level: int)
    requires
        from <= to,
        counted(progress, from, to, level) == to - from,
    ensures
        forall|p: int|
            from <= p < to ==> p < progress.len() && #[trigger] progress[p] >= level,
    decreases to - from,
{
    if from < to {
        lemma_counted_bounds(progress, from, to - 1, level);
        lemma_counted_all(progress, from, to - 1, level);
    }
}

/// Where every slot has come that far, every slot is counted.
pub proof fn lemma_counted_full(progress: Seq<int>, from: int, to: int, level: int)
    requires
        0 <= from <= to <= progress.len(),
        forall|p: int| from <= p < to ==> #[trigger] progress[p] >= level,
    ensures
        counted(progress, from, to, level) == to - from,
    decreases to - from,
{
    if from < to {
        lemma_counted_full(progress, from, to - 1, level);
    }
}

/// Where no slot has come that far, none is counted.
pub proof fn lemma_counted_none(progress: Seq<int>, from: int, to: int, level: int)
    requires
        0 <= from,
        forall|p: int| from <= p < to && p < progress.len() ==> #[trigger] progress[p] < level,
    ensures
        counted(progress, from, to, level) == 0,
    decreases to - from,
{
    if from < to {
        lemma_counted_none(progress, from, to - 1, level);
    }
}

/// A slot that comes one step further is counted where it reaches the level.
pub proof fn lemma_counted_step(progress: Seq<int>, p: int, from: int, to: int, level: int)
    requires
        0 <= from,
        0 <= p < progress.len(),
    ensures
        counted(progress.update(p, progress[p] + 1), from, to, level) == counted(
            progress,
            from,
            to,
            level,
        ) + (if from <= p < to && progress[p] + 1 == level {
            1int
        } else {
            0int
        }),
    decreases to - from,
{
    if from < to {
        lemma_counted_step(progress, p, from, to - 1, level);
    }
}

/// A slot that was just claimed is not counted anywhere yet.
pub proof fn lemma_counted_claim(progress: Seq<int>, from: int, to: int, level: int)
    requires
        0 <= from,
        level > claimed(),
    ensures
        counted(progress.push(claimed()), from, to, level) == counted(progress, from, to, level),
    decreases to - from,
{
    if from < to {
        lemma_counted_claim(progress, from, to - 1, level);
    }
}

// ---------------------------------------------------------------------------
// Blocks and versions
// ---------------------------------------------------------------------------

/// The version at the index of block `l` tells whether that block, or a later
/// one at its index, was reached.
pub proof fn lemma_version_tells(n: int, last: int, l: int)
    requires
        n > 0,
        last >= 0,
        l >= 0,
    ensures
        0 <= l % n < n,
        version_at(n, last, l % n) >= version_of(n, l) <==> last >= l,
        version_at(n, last, l % n) > version_of(n, l) <==> last >= l + n,
{
    lemma_split(l, n);
    lemma_split(last, n);
    let q = l / n;
    let i = l % n;
    let k = last / n - (if i > last % n {
        1int
    } else {
        0int
    });
    lemma_block_at(n, last, i);
    let b = block_at(n, last, i);
    assert(b == k * n + i);
    assert(version_at(n, last, i) - version_of(n, l) == k - q);
    assert((k - q) * n == b - l) by (nonlinear_arith)
        requires
            b == k * n + i,
            l == q * n + i,
    ;
    if k >= q {
        assert((k - q) * n >= 0) by (nonlinear_arith)
            requires
                k >= q,
                n > 0,
        ;
    } else {
        assert((k - q) * n <= -n) by (nonlinear_arith)
            requires
                k <= q - 1,
                n > 0,
        ;
    }
    if k > q {
        assert((k - q) * n >= n) by (nonlinear_arith)
            requires
                k >= q + 1,
                n > 0,
        ;
    } else {
        assert((k - q) * n <= 0) by (nonlinear_arith)
            requires
                k <= q,
                n > 0,
        ;
    }
}

/// The number of a slot, taken apart into its block and its offset.
pub proof fn lemma_number(size: int, p: int)
    requires
        size > 0,
        p >= 0,
    ensures
        p / size >= 0,
        0 <= p % size < size,
        p == (p / size) * size + p % size,
{
    lemma_split(p, size);
}

/// A number lies in the block that it is in the range of.
pub proof fn lemma_number_in_block(size: int, p: int, block: int)
    requires
        size > 0,
        block * size <= p < block * size + size,
    ensures
        p / size == block,
        p % size == p - block * size,
{
    lemma_quotient(p, size, block, p - block * size);
}

/// A number that lies below the start of a later block lies in an earlier block.
pub proof fn lemma_number_before(size: int, p: int, block: int)
    requires
        size > 0,
        p >= 0,
    ensures
        p < block * size <==> p / size < block,
{
    lemma_number(size, p);
    let q = p / size;
    if q < block {
        assert(q * size + size <= block * size) by (nonlinear_arith)
            requires
                q + 1 <= block,
                size > 0,
        ;
    } else {
        assert(block * size <= q * size) by (nonlinear_arith)
            requires
                block <= q,
                size > 0,
        ;
    }
}

/// The cursors that the account gives are in range, and come back from their words.
pub proof fn lemma_tally_in_range(
    params: QueueParameters,
    progress: Seq<int>,
    bound: int,
    last: int,
    i: int,
    level: int,
)
    requires
        params.wf(),
        params.holds_elements(),
        0 <= last <= bound,
        version_of(params.num_blocks as int, bound) < params.versions(),
        0 <= i < params.num_blocks,
    ensures
        ({
            let n = params.num_blocks as int;
            let size = params.block_size as int;
            let block = block_at(n, last, i);
            let cursor = tally(params, progress, last, i, level);
            &&& params.cursor_in_range(cursor)
            &&& cursor.version == version_at(n, last, i)
            &&& cursor.offset == if block < 0 {
                size
            } else {
                counted(progress, block * size, block * size + size, level)
            }
            &&& cursor.offset <= size
            &&& params.cursor_of(params.cursor_word(cursor)) == cursor
        }),
{
    let n = params.num_blocks as int;
    let size = params.block_size as int;
    let block = block_at(n, last, i);
    params.lemma_layout();
    lemma_version_monotone(n, last, bound, i);
    lemma_counted_bounds(progress, block * size, block * size + size, level);
    params.lemma_cursor_round_trip(tally(params, progress, last, i, level));
}

/// A slot that is not consumed yet lies in the latest block at its index, for
/// every field of the words that has reached it.
pub proof fn lemma_live(params: QueueParameters, acc: Account, p: int)
    requires
        params.wf(),
        params.holds_elements(),
        blocks_in_order(params, acc),
        slots_in_order(params, acc),
        0 <= p < acc.progress.len(),
        acc.progress[p] < consumed(),
    ensures
        ({
            let n = params.num_blocks as int;
            let size = params.block_size as int;
            let l = p / size;
            &&& 0 <= l <= acc.allocated
            &&& acc.committed < l + n
            &&& 0 <= l % n < n
            &&& block_at(n, acc.allocated, l % n) == l
            &&& block_at(n, acc.committed, l % n) == l
            &&& p < acc.reserves ==> l <= acc.reserved
            &&& p < acc.reserves ==> block_at(n, acc.reserved, l % n) == l
            &&& p < acc.reserves ==> block_at(n, acc.consumed, l % n) == l
        }),
{
    let n = params.num_blocks as int;
    let size = params.block_size as int;
    let l = p / size;
    lemma_number(size, p);
    lemma_number_before(size, p, acc.committed + 1 - n);
    lemma_number_before(size, p, acc.allocated + 1);
    assert((acc.allocated + 1) * size == acc.allocated * size + size) by (nonlinear_arith);
    lemma_block_is_latest(n, acc.allocated, l);
    lemma_block_is_latest(n, acc.committed, l);
    if p < acc.reserves {
        lemma_number_before(size, p, acc.reserved + 1);
        assert((acc.reserved + 1) * size == acc.reserved * size + size) by (nonlinear_arith);
        lemma_block_is_latest(n, acc.reserved, l);
        lemma_block_is_latest(n, acc.consumed, l);
    }
}

/// A number lies in no block at another index.
pub proof fn lemma_other_index(params: QueueParameters, last: int, i: int, p: int)
    requires
        params.holds_elements(),
        last >= 0,
        0 <= i < params.num_blocks,
        p >= 0,
        i != (p / params.block_size as int) % (params.num_blocks as int),
    ensures
        ({
            let n = params.num_blocks as int;
            let size = params.block_size as int;
            let block = block_at(n, last, i);
            !(block * size <= p < block * size + size)
        }),
{
    let n = params.num_blocks as int;
    let size = params.block_size as int;
    let block = block_at(n, last, i);
    if block * size <= p < block * size + size {
        lemma_number_in_block(size, p, block);
        lemma_number(size, p);
        lemma_block_at(n, last, i);
    }
}

/// A slot that comes one step further is counted in the latest block at its
/// index, where it reaches the level.
pub proof fn lemma_tally_step(
    params: QueueParameters,
    progress: Seq<int>,
    p: int,
    last: int,
    i: int,
    level: int,
)
    requires
        params.holds_elements(),
        0 <= p < progress.len(),
        last >= 0,
        0 <= i < params.num_blocks,
    ensures
        ({
            let n = params.num_blocks as int;
            let size = params.block_size as int;
            let after = tally(params, progress.update(p, progress[p] + 1), last, i, level);
            let before = tally(params, progress, last, i, level);
            &&& progress[p] + 1 != level || i != (p / size) % n ==> after == before
            &&& progress[p] + 1 == level && block_at(n, last, i) == p / size ==> after.version
                == before.version && after.offset == (counted(
                progress,
                (p / size) * size,
                (p / size) * size + size,
                level,
            ) + 1) as usize
        }),
{
    let n = params.num_blocks as int;
    let size = params.block_size as int;
    let block = block_at(n, last, i);
    lemma_number(size, p);
    if block >= 0 {
        assert(block * size >= 0) by (nonlinear_arith)
            requires
                block >= 0,
                size > 0,
        ;
        lemma_counted_step(progress, p, block * size, block * size + size, level);
        if i != (p / size) % n {
            lemma_other_index(params, last, i, p);
        }
    }
}

/// What a slot holds changes only where the number of the slot is the one that
/// comes a step further.
pub proof fn lemma_content_step<T>(elems: Seq<T>, progress: Seq<int>, p: int, q: int)
    requires
        0 <= p < progress.len(),
        elems.len() == progress.len(),
    ensures
        content(elems, progress.update(p, progress[p] + 1), q) == (if p == q && progress[p]
            == claimed() {
            Some(elems[p])
        } else if p == q && progress[p] == reserved() {
            None
        } else {
            content(elems, progress, q)
        }),
{
}

}
