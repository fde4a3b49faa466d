//! Where the heads and cursors stand after a number of pushes and pops.
//!
//! Blocks are used in a ring. Counted without end, block `l` of all the blocks
//! that were ever used lies at index `l % n` of the ring, and its elements are
//! those at the positions from `l * size` to `(l + 1) * size` of all the
//! elements that were ever pushed.

use crate::sync::cursor::{UnpackedCursor, UnpackedHead};
use crate::sync::memory::{BlockMemory, Memory};
use crate::sync::params::QueueParameters;
use vstd::arithmetic::div_mod::{
    lemma_fundamental_div_mod, lemma_fundamental_div_mod_converse, lemma_mod_bound,
};
use vstd::prelude::*;

verus! {

/// The block that holds the last of `count` elements; the first block if there is none.
pub open spec fn last_block(size: int, count: int) -> int {
    if count == 0 {
        0
    } else {
        (count - 1) / size
    }
}

/// The latest block up to block `last` that lies at index `i`. It is negative
/// where that index was not used yet.
pub open spec fn block_at(n: int, last: int, i: int) -> int {
    (last / n - (if i > last % n {
        1int
    } else {
        0int
    })) * n + i
}

/// The version under which that block is used.
pub open spec fn version_at(n: int, last: int, i: int) -> int {
    last / n + (if 0 < i <= last % n {
        1int
    } else {
        0int
    })
}

/// The version under which block `l` is used.
pub open spec fn version_of(n: int, l: int) -> int {
    l / n + (if l % n > 0 {
        1int
    } else {
        0int
    })
}

/// How many slots are counted in the latest block at index `i`, where `count`
/// elements were counted up to block `last`.
pub open spec fn offset_at(n: int, size: int, count: int, last: int, i: int) -> int {
    if i == last % n {
        count - last * size
    } else {
        size
    }
}

/// The head that names block `last`.
pub open spec fn lap_head(params: QueueParameters, last: int) -> UnpackedHead {
    let n = params.num_blocks as int;
    UnpackedHead { version: (last / n) as usize, index: (last % n) as usize }
}

/// The cursor of the block at index `i`.
pub open spec fn lap_cursor(params: QueueParameters, count: int, last: int, i: int) -> UnpackedCursor {
    let n = params.num_blocks as int;
    let size = params.block_size as int;
    UnpackedCursor {
        version: version_at(n, last, i) as usize,
        offset: offset_at(n, size, count, last, i) as usize,
    }
}

/// The slot of the element at a position.
pub open spec fn slot_at<T>(params: QueueParameters, memory: Memory<T>, position: int) -> Option<T> {
    let n = params.num_blocks as int;
    let size = params.block_size as int;
    memory.blocks[(position / size) % n].data[position % size]
}

/// The position that a slot of the latest block at index `i` stands for.
pub open spec fn position_at(params: QueueParameters, last: int, i: int, offset: int) -> int {
    block_at(params.num_blocks as int, last, i) * params.block_size + offset
}

/// Block `last` holds the end of `count` elements.
pub open spec fn ends_in(size: int, count: int, last: int) -> bool {
    last >= 0 && 0 <= count - last * size <= size
}

/// No operation is under way. `pushed` elements were pushed in all, up to block
/// `plast`, and `popped` of them were popped, up to block `clast`.
pub open spec fn settled_at<T>(
    params: QueueParameters,
    memory: Memory<T>,
    pushed: int,
    plast: int,
    popped: int,
    clast: int,
) -> bool {
    let n = params.num_blocks as int;
    let size = params.block_size as int;
    &&& 0 <= popped <= pushed
    &&& ends_in(size, pushed, plast)
    &&& ends_in(size, popped, clast)
    &&& clast <= plast
    // the last block that was opened had no unconsumed elements of the round before
    &&& plast < popped / size + n
    &&& version_of(n, plast) < params.versions()
    &&& memory.shaped(params)
    &&& memory.producer == params.head_word(lap_head(params, plast))
    &&& memory.consumer == params.head_word(lap_head(params, clast))
    &&& forall|i: int|
        0 <= i < n ==> block_settled(
            params,
            #[trigger] memory.blocks[i],
            pushed,
            plast,
            popped,
            clast,
            i,
        )
}

/// The words and slots of the block at index `i` of a settled queue.
pub open spec fn block_settled<T>(
    params: QueueParameters,
    b: BlockMemory<T>,
    pushed: int,
    plast: int,
    popped: int,
    clast: int,
    i: int,
) -> bool {
    &&& b.allocated == params.cursor_word(lap_cursor(params, pushed, plast, i))
    &&& b.committed == params.cursor_word(lap_cursor(params, pushed, plast, i))
    &&& b.reserved == params.cursor_word(lap_cursor(params, popped, clast, i))
    &&& b.consumed == params.cursor_word(lap_cursor(params, popped, clast, i))
    &&& forall|o: int|
        0 <= o < params.block_size ==> ((#[trigger] b.data[o]) is Some <==> popped <= position_at(
            params,
            plast,
            i,
            o,
        ) < pushed)
}

/// No operation is under way, `pushed` elements were pushed in all and `popped`
/// of them were popped.
pub open spec fn settled<T>(
    params: QueueParameters,
    memory: Memory<T>,
    pushed: int,
    popped: int,
) -> bool {
    let size = params.block_size as int;
    settled_at(
        params,
        memory,
        pushed,
        last_block(size, pushed),
        popped,
        last_block(size, popped),
    )
}

/// A push finds no room: the block that it would open holds elements of the round before.
pub open spec fn no_room(params: QueueParameters, pushed: int, popped: int) -> bool {
    pushed / params.block_size as int >= popped / params.block_size as int + params.num_blocks
}

/// The queue takes no element: it has no slots, or the block that the next
/// element would open still holds an element.
pub open spec fn takes_none(params: QueueParameters, pushed: int, popped: int) -> bool {
    !params.holds_elements() || no_room(params, pushed, popped)
}

/// There is a version for the block that takes the next element.
pub open spec fn version_left(params: QueueParameters, pushed: int) -> bool {
    version_of(params.num_blocks as int, pushed / params.block_size as int) < params.versions()
}

/// The elements of a settled queue, first pushed first.
pub open spec fn elements<T>(
    params: QueueParameters,
    memory: Memory<T>,
    pushed: int,
    popped: int,
) -> Seq<T> {
    Seq::new((pushed - popped) as nat, |k: int| slot_at(params, memory, popped + k)->0)
}

// ---------------------------------------------------------------------------
// Arithmetic of blocks
// ---------------------------------------------------------------------------

/// A number is determined by its quotient and its remainder.
pub proof fn lemma_quotient(x: int, d: int, q: int, r: int)
    requires
        d > 0,
        x == q * d + r,
        0 <= r < d,
    ensures
        x / d == q,
        x % d == r,
{
    lemma_fundamental_div_mod_converse(x, d, q, r);
}

/// A number in terms of its quotient and its remainder.
pub proof fn lemma_split(x: int, d: int)
    requires
        d > 0,
    ensures
        x == (x / d) * d + x % d,
        0 <= x % d < d,
        0 <= x ==> 0 <= x / d <= x,
{
    lemma_fundamental_div_mod(x, d);
    lemma_mod_bound(x, d);
    vstd::arithmetic::mul::lemma_mul_is_commutative(d, x / d);
    if 0 <= x {
        let q = x / d;
        let r = x % d;
        assert(0 <= q <= x) by (nonlinear_arith)
            requires
                x == q * d + r,
                0 <= r < d,
                0 <= x,
                d >= 1,
        ;
    }
}

/// Where a count lies in its last block.
pub proof fn lemma_last_block(size: int, count: int)
    requires
        size > 0,
        count >= 0,
    ensures
        last_block(size, count) >= 0,
        0 <= count - last_block(size, count) * size <= size,
        count > 0 ==> count - last_block(size, count) * size > 0,
        count - last_block(size, count) * size < size ==> count / size == last_block(size, count)
            && count % size == count - last_block(size, count) * size,
        count - last_block(size, count) * size == size ==> count / size == last_block(size, count)
            + 1 && count % size == 0,
        last_block(size, count + 1) == count / size,
{
    let l = last_block(size, count);
    if count > 0 {
        lemma_split(count - 1, size);
        let o = count - l * size;
        if o < size {
            lemma_quotient(count, size, l, o);
        } else {
            assert((l + 1) * size == l * size + size) by (nonlinear_arith);
            lemma_quotient(count, size, l + 1, 0);
        }
    } else {
        lemma_quotient(0, size, 0, 0);
    }
}

/// The latest block at index `i`.
pub proof fn lemma_block_at(n: int, last: int, i: int)
    requires
        n > 0,
        last >= 0,
        0 <= i < n,
    ensures
        last - n < block_at(n, last, i) <= last,
        block_at(n, last, i) >= 0 ==> block_at(n, last, i) % n == i && version_of(
            n,
            block_at(n, last, i),
        ) == version_at(n, last, i),
        block_at(n, last, i) < 0 ==> version_at(n, last, i) == 0 && i > last % n && last == last % n,
{
    lemma_split(last, n);
    let q = last / n;
    let r = last % n;
    let l = block_at(n, last, i);
    if i > r {
        assert(l == q * n - n + i) by (nonlinear_arith)
            requires
                l == (q - 1) * n + i,
        ;
        if q > 0 {
            lemma_quotient(l, n, q - 1, i);
            assert(l >= 0) by (nonlinear_arith)
                requires
                    l == (q - 1) * n + i,
                    q >= 1,
                    i >= 0,
                    n > 0,
            ;
        } else {
            assert(q * n == 0) by (nonlinear_arith)
                requires
                    q == 0,
            ;
        }
    } else {
        lemma_quotient(l, n, q, i);
        assert(l >= 0) by (nonlinear_arith)
            requires
                l == q * n + i,
                q >= 0,
                i >= 0,
                n > 0,
        ;
    }
}

/// Of the last `n` blocks, block `l` is the latest at its index.
pub proof fn lemma_block_is_latest(n: int, last: int, l: int)
    requires
        n > 0,
        0 <= l,
        last - n < l <= last,
    ensures
        0 <= l % n < n,
        block_at(n, last, l % n) == l,
        version_at(n, last, l % n) == version_of(n, l),
{
    lemma_split(l, n);
    lemma_split(last, n);
    let i = l % n;
    lemma_block_at(n, last, i);
    let b = block_at(n, last, i);
    // both are the latest multiple of `n` away from `i`
    let k = last / n - (if i > last % n {
        1int
    } else {
        0int
    }) - l / n;
    assert(b - l == k * n) by (nonlinear_arith)
        requires
            b == (k + l / n) * n + i,
            l == (l / n) * n + i,
    ;
    assert(k == 0) by (nonlinear_arith)
        requires
            b - l == k * n,
            -n < b - l < n,
            n > 0,
    ;
    assert(0 * n == 0);
}

/// Opening the next block changes the version at its index only.
pub proof fn lemma_next_block(n: int, last: int, i: int)
    requires
        n > 0,
        last >= 0,
        0 <= i < n,
    ensures
        0 <= (last % n + 1) % n < n,
        (last % n + 1) % n == (last + 1) % n,
        i == (last + 1) % n ==> version_at(n, last, i) == last / n,
        i == (last + 1) % n ==> version_at(n, last + 1, i) == last / n + 1,
        i != (last + 1) % n ==> version_at(n, last + 1, i) == version_at(n, last, i),
        i != (last + 1) % n ==> block_at(n, last + 1, i) == block_at(n, last, i),
        i == (last + 1) % n ==> block_at(n, last + 1, i) == last + 1,
        i == (last + 1) % n ==> block_at(n, last, i) == last + 1 - n,
        (last + 1) / n == last / n + (last % n + 1) / n,
        version_of(n, last + 1) == last / n + 1,
{
    lemma_split(last, n);
    let q = last / n;
    let r = last % n;
    if r + 1 < n {
        lemma_quotient(last + 1, n, q, r + 1);
        lemma_quotient(r + 1, n, 0, r + 1);
        assert((q - 1) * n == q * n - n) by (nonlinear_arith);
    } else {
        assert((q + 1) * n == q * n + n) by (nonlinear_arith);
        lemma_quotient(last + 1, n, q + 1, 0);
        lemma_quotient(r + 1, n, 1, 0);
        assert((q + 1 - 1) * n == q * n);
    }
}

/// Of two blocks the later one has no smaller version at any index.
pub proof fn lemma_version_monotone(n: int, earlier: int, later: int, i: int)
    requires
        n > 0,
        0 <= earlier <= later,
        0 <= i < n,
    ensures
        0 <= version_at(n, earlier, i) <= version_at(n, later, i) <= version_of(n, later),
        earlier / n <= later / n,
{
    lemma_split(earlier, n);
    lemma_split(later, n);
    let a = earlier / n;
    let b = later / n;
    assert(a <= b) by (nonlinear_arith)
        requires
            earlier == a * n + earlier % n,
            later == b * n + later % n,
            0 <= earlier % n,
            later % n < n,
            earlier <= later,
            n > 0,
    ;
}

}
