//! What the accesses that open and enter blocks do to the account.

use crate::sync::account::{
    agrees, block_agrees, blocks_in_order, committed, consumed, content, counts_claims, lemma_counted_beyond,
    lemma_counted_none, lemma_tally_in_range, lemma_version_tells, tally, Account,
};
use crate::sync::alone::lemma_laps_in_range;
use crate::sync::cursor::{UnpackedCursor, UnpackedHead};
use crate::sync::laps::{
    block_at, lap_cursor, lap_head, lemma_next_block, lemma_quotient, lemma_split,
    lemma_version_monotone, version_at, version_of,
};
use crate::sync::memory::{max_word, End, Field, Memory};
use crate::sync::params::QueueParameters;
use crate::sync::push::{head_ok, next_index, next_start};
use crate::sync::slots::lemma_claims_read;
use vstd::prelude::*;

verus! {

/// The block that a head names.
pub open spec fn block_named(params: QueueParameters, head: UnpackedHead) -> int {
    head.version * params.num_blocks + head.index
}

/// The greater of two numbers of blocks.
pub open spec fn later(a: int, b: int) -> int {
    if a > b {
        a
    } else {
        b
    }
}

/// The block after the one that a head names, its index and its version.
pub proof fn lemma_next_named(params: QueueParameters, head: UnpackedHead)
    requires
        params.wf(),
        params.holds_elements(),
        head_ok(params, head),
    ensures
        ({
            let n = params.num_blocks as int;
            let l = block_named(params, head);
            &&& l >= 0
            &&& l / n == head.version
            &&& l % n == head.index
            &&& lap_head(params, l) == head
            &&& next_index(params, head) == (l + 1) % n
            &&& 0 <= (l + 1) % n < n
            &&& next_start(head).version == head.version + 1
            &&& next_start(head).offset == 0
            &&& version_of(n, l + 1) == head.version + 1
            &&& head.incremented(params, 1) == lap_head(params, l + 1)
        }),
{
    let n = params.num_blocks as int;
    let l = block_named(params, head);
    params.lemma_layout();
    assert(l >= 0) by (nonlinear_arith)
        requires
            l == head.version * n + head.index,
            n > 0,
            head.version >= 0,
            head.index >= 0,
    ;
    lemma_quotient(l, n, head.version as int, head.index as int);
    lemma_next_block(n, l, head.index as int);
}

/// The head that names a block names that block.
pub proof fn lemma_named(params: QueueParameters, l: int)
    requires
        params.wf(),
        params.holds_elements(),
        l >= 0,
        version_of(params.num_blocks as int, l) < params.versions(),
    ensures
        head_ok(params, lap_head(params, l)),
        block_named(params, lap_head(params, l)) == l,
        params.head_of(params.head_word(lap_head(params, l))) == lap_head(params, l),
{
    let n = params.num_blocks as int;
    params.lemma_layout();
    lemma_split(l, n);
    lemma_version_monotone(n, l, l, 0);
    params.lemma_head_round_trip(lap_head(params, l));
}

/// Versions do not fall from block to block.
pub proof fn lemma_version_of_monotone(n: int, a: int, b: int)
    requires
        n > 0,
        0 <= a <= b,
    ensures
        0 <= version_of(n, a) <= version_of(n, b),
{
    lemma_split(a, n);
    lemma_version_monotone(n, a, b, a % n);
    lemma_version_tells(n, a, a);
}

/// Raising a cursor to the start of block `l + 1` changes it only where that
/// block was not reached yet.
proof fn lemma_raise_to_start(
    params: QueueParameters,
    head: UnpackedHead,
    last: int,
    cursor: UnpackedCursor,
)
    requires
        params.wf(),
        params.holds_elements(),
        head_ok(params, head),
        head.version + 1 < params.versions(),
        last >= 0,
        params.cursor_in_range(cursor),
        cursor.version == version_at(
            params.num_blocks as int,
            last,
            next_index(params, head) as int,
        ),
    ensures
        max_word(params.cursor_word(next_start(head)), params.cursor_word(cursor)) == (if last
            >= block_named(params, head) + 1 {
            params.cursor_word(cursor)
        } else {
            params.cursor_word(next_start(head))
        }),
        params.cursor_in_range(next_start(head)),
        params.cursor_of(params.cursor_word(next_start(head))) == next_start(head),
{
    let n = params.num_blocks as int;
    let l = block_named(params, head);
    params.lemma_layout();
    lemma_next_named(params, head);
    lemma_version_tells(n, last, l + 1);
    params.lemma_cursor_order(next_start(head), cursor);
    params.lemma_cursor_order(cursor, next_start(head));
    params.lemma_cursor_round_trip(next_start(head));
}

/// A memory with another word in one block has the same shape.
proof fn lemma_word_keeps_shape<T>(
    params: QueueParameters,
    memory: Memory<T>,
    i: int,
    field: Field,
    word: usize,
)
    requires
        memory.shaped(params),
        0 <= i < params.num_blocks,
    ensures
        memory.with_block(i, memory.blocks[i].with_word(field, word)).shaped(params),
{
    let after = memory.with_block(i, memory.blocks[i].with_word(field, word));
    assert forall|k: int| 0 <= k < after.blocks.len() implies (
    #[trigger] after.blocks[k]).data.len() == params.block_size by {
        assert(memory.blocks[k].data.len() == params.block_size);
    }
}

/// A producer opens the block after that of its head in the committed cursor.
pub proof fn lemma_open_committed<T>(
    params: QueueParameters,
    memory: Memory<T>,
    elems: Seq<T>,
    acc: Account,
    head: UnpackedHead,
)
    requires
        params.wf(),
        params.holds_elements(),
        agrees(params, memory, elems, acc),
        head_ok(params, head),
        head.version + 1 < params.versions(),
        elems.len() >= block_named(params, head) * params.block_size + params.block_size,
        acc.committed > block_named(params, head) || forall|p: int|
            0 <= p < elems.len() && p < (block_named(params, head) + 2 - params.num_blocks)
                * params.block_size ==> #[trigger] acc.progress[p] == consumed(),
    ensures
        ({
            let l = block_named(params, head);
            let j = next_index(params, head) as int;
            let b = memory.blocks[j];
            agrees(
                params,
                memory.with_block(
                    j,
                    b.with_word(
                        Field::Committed,
                        max_word(params.cursor_word(next_start(head)), b.committed),
                    ),
                ),
                elems,
                Account { committed: later(acc.committed, l + 1), ..acc },
            )
        }),
{
    let n = params.num_blocks as int;
    let size = params.block_size as int;
    let l = block_named(params, head);
    let j = next_index(params, head) as int;
    let b = memory.blocks[j];
    lemma_next_named(params, head);
    assert(block_agrees(params, b, elems, acc, j));
    lemma_tally_in_range(params, acc.progress, acc.committed, acc.committed, j, committed());
    let before = tally(params, acc.progress, acc.committed, j, committed());
    lemma_raise_to_start(params, head, acc.committed, before);
    let memory_after = memory.with_block(
        j,
        b.with_word(
            Field::Committed,
            max_word(params.cursor_word(next_start(head)), b.committed),
        ),
    );
    let after = Account { committed: later(acc.committed, l + 1), ..acc };
    if acc.committed >= l + 1 {
        assert(memory_after =~= memory);
        assert(after == acc);
    } else {
        lemma_block_reached(size, elems.len() as int, acc.allocated, l);
        assert(acc.committed == l && acc.allocated == l);
        lemma_word_keeps_shape(params, memory, j, Field::Committed, memory_after.blocks[j].committed);
        assert((l + 1) * size == l * size + size) by (nonlinear_arith);
        assert((l + 1 + 1 - n) * size <= acc.reserves) by {
            assert((l + 2 - n) * size <= (l + 1) * size) by (nonlinear_arith)
                requires
                    n >= 1,
                    size > 0,
            ;
            lemma_all_below_reserved(params, acc, (l + 2 - n) * size);
        }
        assert forall|k: int| 0 <= k < n implies block_agrees(
            params,
            #[trigger] memory_after.blocks[k],
            elems,
            after,
            k,
        ) by {
            assert(block_agrees(params, memory.blocks[k], elems, acc, k));
            lemma_next_block(n, l, k);
            if k == j {
                lemma_counted_beyond(acc.progress, (l + 1) * size, (l + 1) * size + size, committed());
                assert(tally(params, acc.progress, l + 1, j, committed()) == next_start(head));
            }
            assert forall|x: int| 0 <= x < size implies #[trigger] memory_after.blocks[k].data[x]
                == content(elems, after.progress, block_at(n, after.allocated, k) * size + x) by {
                assert(memory.blocks[k].data[x] == content(
                    elems,
                    acc.progress,
                    block_at(n, acc.allocated, k) * size + x,
                ));
            }
        }
    }
}

/// A count that fills block `l` and ends in block `last` reaches block `l`.
proof fn lemma_block_reached(size: int, count: int, last: int, l: int)
    requires
        size > 0,
        count >= l * size + size,
        count <= last * size + size,
    ensures
        l <= last,
        l == last ==> count == l * size + size,
{
    if l > last {
        assert(last * size + size <= l * size) by (nonlinear_arith)
            requires
                last + 1 <= l,
                size > 0,
        ;
    }
}

/// Where all slots below a bound are consumed, consumers have claimed that many.
proof fn lemma_all_below_reserved(params: QueueParameters, acc: Account, bound: int)
    requires
        params.holds_elements(),
        blocks_in_order(params, acc),
        crate::sync::account::slots_in_order(params, acc),
        bound <= acc.progress.len(),
        forall|p: int|
            0 <= p < acc.progress.len() && p < bound ==> #[trigger] acc.progress[p] == consumed(),
    ensures
        bound <= acc.reserves,
{
    if bound > acc.reserves {
        assert(acc.progress[bound - 1] == consumed());
    }
}

/// Raising the allocated cursor at the next index to the start of its block takes
/// effect where the block was not opened yet.
pub proof fn lemma_raise_allocated(
    params: QueueParameters,
    head: UnpackedHead,
    acc: Account,
    word: usize,
)
    requires
        params.wf(),
        params.holds_elements(),
        blocks_in_order(params, acc),
        head_ok(params, head),
        head.version + 1 < params.versions(),
        counts_claims(params, word, acc, next_index(params, head) as int),
    ensures
        max_word(params.cursor_word(next_start(head)), word) == (if acc.allocated >= block_named(
            params,
            head,
        ) + 1 {
            word
        } else {
            params.cursor_word(next_start(head))
        }),
        params.cursor_word(next_start(head)) == (head.version + 1) * params.unit(),
{
    let n = params.num_blocks as int;
    let unit = params.unit();
    let l = block_named(params, head);
    let j = next_index(params, head) as int;
    let version = version_at(n, acc.allocated, j);
    params.lemma_layout();
    lemma_next_named(params, head);
    lemma_version_tells(n, acc.allocated, l + 1);
    lemma_claims_read(params, word, acc, j);
    params.lemma_cursor_round_trip(next_start(head));
    if acc.allocated >= l + 1 {
        assert((head.version + 1) * unit <= version * unit) by (nonlinear_arith)
            requires
                head.version + 1 <= version,
                unit >= 1,
        ;
    } else {
        assert(version * unit + unit <= (head.version + 1) * unit) by (nonlinear_arith)
            requires
                version + 1 <= head.version + 1,
                unit >= 1,
        ;
    }
}

/// A producer opens the block after that of its head in the allocated cursor.
pub proof fn lemma_open_allocated<T>(
    params: QueueParameters,
    memory: Memory<T>,
    elems: Seq<T>,
    acc: Account,
    head: UnpackedHead,
)
    requires
        params.wf(),
        params.holds_elements(),
        agrees(params, memory, elems, acc),
        head_ok(params, head),
        elems.len() >= block_named(params, head) * params.block_size + params.block_size,
        acc.committed > block_named(params, head),
    ensures
        ({
            let l = block_named(params, head);
            let j = next_index(params, head) as int;
            let b = memory.blocks[j];
            agrees(
                params,
                memory.with_block(
                    j,
                    b.with_word(
                        Field::Allocated,
                        max_word(params.cursor_word(next_start(head)), b.allocated),
                    ),
                ),
                elems,
                Account { allocated: later(acc.allocated, l + 1), ..acc },
            )
        }),
{
    let n = params.num_blocks as int;
    let size = params.block_size as int;
    let l = block_named(params, head);
    let j = next_index(params, head) as int;
    let b = memory.blocks[j];
    lemma_next_named(params, head);
    lemma_version_of_monotone(n, l + 1, acc.committed);
    assert(block_agrees(params, b, elems, acc, j));
    params.lemma_layout();
    lemma_raise_allocated(params, head, acc, b.allocated);
    let memory_after = memory.with_block(
        j,
        b.with_word(
            Field::Allocated,
            max_word(params.cursor_word(next_start(head)), b.allocated),
        ),
    );
    let after = Account { allocated: later(acc.allocated, l + 1), ..acc };
    if acc.allocated >= l + 1 {
        assert(memory_after =~= memory);
        assert(after == acc);
    } else {
        lemma_block_reached(size, elems.len() as int, acc.allocated, l);
        assert(acc.committed == l + 1 && acc.allocated == l);
        lemma_word_keeps_shape(params, memory, j, Field::Allocated, memory_after.blocks[j].allocated);
        assert((l + 1) * size == l * size + size) by (nonlinear_arith);
        assert((l + 2 - n) * size == (l + 1 - n) * size + size) by (nonlinear_arith);
        assert forall|k: int| 0 <= k < n implies block_agrees(
            params,
            #[trigger] memory_after.blocks[k],
            elems,
            after,
            k,
        ) by {
            assert(block_agrees(params, memory.blocks[k], elems, acc, k));
            lemma_next_block(n, l, k);
            if k == j {
                assert(counts_claims(params, memory_after.blocks[k].allocated, after, k));
            } else {
                assert(counts_claims(params, memory_after.blocks[k].allocated, after, k));
            }
            assert forall|x: int| 0 <= x < size implies #[trigger] memory_after.blocks[k].data[x]
                == content(elems, after.progress, block_at(n, after.allocated, k) * size + x) by {
                let q = block_at(n, acc.allocated, k) * size + x;
                assert(memory.blocks[k].data[x] == content(elems, acc.progress, q));
                if k == j && 0 <= q < elems.len() {
                    assert(acc.progress[q] == consumed());
                }
            }
        }
    }
}

/// A consumer enters the block after that of its head in the consumed cursor.
pub proof fn lemma_enter_consumed<T>(
    params: QueueParameters,
    memory: Memory<T>,
    elems: Seq<T>,
    acc: Account,
    head: UnpackedHead,
)
    requires
        params.wf(),
        params.holds_elements(),
        agrees(params, memory, elems, acc),
        head_ok(params, head),
        acc.reserves >= block_named(params, head) * params.block_size + params.block_size,
        acc.committed > block_named(params, head),
    ensures
        ({
            let l = block_named(params, head);
            let j = next_index(params, head) as int;
            let b = memory.blocks[j];
            agrees(
                params,
                memory.with_block(
                    j,
                    b.with_word(
                        Field::Consumed,
                        max_word(params.cursor_word(next_start(head)), b.consumed),
                    ),
                ),
                elems,
                Account { consumed: later(acc.consumed, l + 1), ..acc },
            )
        }),
{
    let n = params.num_blocks as int;
    let size = params.block_size as int;
    let l = block_named(params, head);
    let j = next_index(params, head) as int;
    let b = memory.blocks[j];
    lemma_next_named(params, head);
    lemma_version_of_monotone(n, l + 1, acc.committed);
    assert(block_agrees(params, b, elems, acc, j));
    lemma_tally_in_range(params, acc.progress, acc.committed, acc.consumed, j, consumed());
    let before = tally(params, acc.progress, acc.consumed, j, consumed());
    lemma_raise_to_start(params, head, acc.consumed, before);
    let memory_after = memory.with_block(
        j,
        b.with_word(
            Field::Consumed,
            max_word(params.cursor_word(next_start(head)), b.consumed),
        ),
    );
    let after = Account { consumed: later(acc.consumed, l + 1), ..acc };
    if acc.consumed >= l + 1 {
        assert(memory_after =~= memory);
        assert(after == acc);
    } else {
        lemma_block_reached(size, acc.reserves, acc.reserved, l);
        assert(acc.consumed == l && acc.reserved == l);
        lemma_word_keeps_shape(params, memory, j, Field::Consumed, memory_after.blocks[j].consumed);
        assert((l + 1) * size == l * size + size) by (nonlinear_arith);
        assert((l + 1) * size >= 0) by (nonlinear_arith)
            requires
                l >= 0,
                size > 0,
        ;
        assert forall|k: int| 0 <= k < n implies block_agrees(
            params,
            #[trigger] memory_after.blocks[k],
            elems,
            after,
            k,
        ) by {
            assert(block_agrees(params, memory.blocks[k], elems, acc, k));
            lemma_next_block(n, l, k);
            if k == j {
                lemma_counted_none(acc.progress, (l + 1) * size, (l + 1) * size + size, consumed());
                assert(tally(params, acc.progress, l + 1, j, consumed()) == next_start(head));
            }
            assert forall|x: int| 0 <= x < size implies #[trigger] memory_after.blocks[k].data[x]
                == content(elems, after.progress, block_at(n, after.allocated, k) * size + x) by {
                assert(memory.blocks[k].data[x] == content(
                    elems,
                    acc.progress,
                    block_at(n, acc.allocated, k) * size + x,
                ));
            }
        }
    }
}

/// A consumer enters the block after that of its head in the reserved cursor.
pub proof fn lemma_enter_reserved<T>(
    params: QueueParameters,
    memory: Memory<T>,
    elems: Seq<T>,
    acc: Account,
    head: UnpackedHead,
)
    requires
        params.wf(),
        params.holds_elements(),
        agrees(params, memory, elems, acc),
        head_ok(params, head),
        acc.reserves >= block_named(params, head) * params.block_size + params.block_size,
        acc.consumed > block_named(params, head),
    ensures
        ({
            let l = block_named(params, head);
            let j = next_index(params, head) as int;
            let b = memory.blocks[j];
            agrees(
                params,
                memory.with_block(
                    j,
                    b.with_word(
                        Field::Reserved,
                        max_word(params.cursor_word(next_start(head)), b.reserved),
                    ),
                ),
                elems,
                Account { reserved: later(acc.reserved, l + 1), ..acc },
            )
        }),
{
    let n = params.num_blocks as int;
    let size = params.block_size as int;
    let l = block_named(params, head);
    let j = next_index(params, head) as int;
    let b = memory.blocks[j];
    lemma_next_named(params, head);
    lemma_version_of_monotone(n, l + 1, acc.committed);
    assert(block_agrees(params, b, elems, acc, j));
    lemma_laps_in_range(params, acc.committed, acc.reserves, acc.reserved, j);
    let before = lap_cursor(params, acc.reserves, acc.reserved, j);
    lemma_raise_to_start(params, head, acc.reserved, before);
    let memory_after = memory.with_block(
        j,
        b.with_word(
            Field::Reserved,
            max_word(params.cursor_word(next_start(head)), b.reserved),
        ),
    );
    let after = Account { reserved: later(acc.reserved, l + 1), ..acc };
    if acc.reserved >= l + 1 {
        assert(memory_after =~= memory);
        assert(after == acc);
    } else {
        lemma_block_reached(size, acc.reserves, acc.reserved, l);
        assert(acc.consumed == l + 1 && acc.reserved == l);
        lemma_word_keeps_shape(params, memory, j, Field::Reserved, memory_after.blocks[j].reserved);
        assert((l + 1) * size == l * size + size) by (nonlinear_arith);
        assert forall|k: int| 0 <= k < n implies block_agrees(
            params,
            #[trigger] memory_after.blocks[k],
            elems,
            after,
            k,
        ) by {
            assert(block_agrees(params, memory.blocks[k], elems, acc, k));
            lemma_next_block(n, l, k);
            lemma_split(l, n);
            if k == j {
                assert(lap_cursor(params, acc.reserves, l + 1, j) == next_start(head));
            } else {
                assert(lap_cursor(params, acc.reserves, l + 1, k) == lap_cursor(
                    params,
                    acc.reserves,
                    l,
                    k,
                ));
            }
            assert forall|x: int| 0 <= x < size implies #[trigger] memory_after.blocks[k].data[x]
                == content(elems, after.progress, block_at(n, after.allocated, k) * size + x) by {
                assert(memory.blocks[k].data[x] == content(
                    elems,
                    acc.progress,
                    block_at(n, acc.allocated, k) * size + x,
                ));
            }
        }
    }
}

/// The words of heads are ordered as the blocks are that the heads name.
proof fn lemma_head_words_in_order(params: QueueParameters, a: int, b: int)
    requires
        params.wf(),
        params.holds_elements(),
        a >= 0,
        b >= 0,
        version_of(params.num_blocks as int, a) < params.versions(),
        version_of(params.num_blocks as int, b) < params.versions(),
    ensures
        max_word(
            params.head_word(lap_head(params, a)),
            params.head_word(lap_head(params, b)),
        ) == params.head_word(lap_head(params, later(a, b))),
{
    let n = params.num_blocks as int;
    lemma_named(params, a);
    lemma_named(params, b);
    params.lemma_head_order(lap_head(params, a), lap_head(params, b));
    params.lemma_head_order(lap_head(params, b), lap_head(params, a));
    lemma_split(a, n);
    lemma_split(b, n);
    lemma_version_monotone(n, if a < b {
        a
    } else {
        b
    }, if a < b {
        b
    } else {
        a
    }, 0);
}

/// A head is raised to a block that was opened.
pub proof fn lemma_raise_head<T>(
    params: QueueParameters,
    memory: Memory<T>,
    elems: Seq<T>,
    acc: Account,
    end: End,
    head: UnpackedHead,
)
    requires
        params.wf(),
        params.holds_elements(),
        agrees(params, memory, elems, acc),
        head_ok(params, head),
        end is Producer ==> acc.allocated > block_named(params, head),
        end is Consumer ==> acc.reserved > block_named(params, head),
    ensures
        ({
            let l = block_named(params, head);
            agrees(
                params,
                memory.with_head(
                    end,
                    max_word(params.head_word(head.incremented(params, 1)), memory.head(end)),
                ),
                elems,
                match end {
                    End::Producer => Account { producer: later(acc.producer, l + 1), ..acc },
                    End::Consumer => Account { consumer: later(acc.consumer, l + 1), ..acc },
                },
            )
        }),
{
    let n = params.num_blocks as int;
    let l = block_named(params, head);
    lemma_next_named(params, head);
    lemma_version_of_monotone(n, l + 1, acc.committed);
    lemma_version_of_monotone(n, acc.producer, acc.committed);
    lemma_version_of_monotone(n, acc.consumer, acc.committed);
    let old = match end {
        End::Producer => acc.producer,
        End::Consumer => acc.consumer,
    };
    lemma_head_words_in_order(params, l + 1, old);
    lemma_named(params, later(l + 1, old));
    let after = match end {
        End::Producer => Account { producer: later(acc.producer, l + 1), ..acc },
        End::Consumer => Account { consumer: later(acc.consumer, l + 1), ..acc },
    };
    let memory_after = memory.with_head(
        end,
        max_word(params.head_word(head.incremented(params, 1)), memory.head(end)),
    );
    assert forall|k: int| 0 <= k < n implies block_agrees(
        params,
        #[trigger] memory_after.blocks[k],
        elems,
        after,
        k,
    ) by {
        assert(block_agrees(params, memory.blocks[k], elems, acc, k));
    }
}

}
