//! What the accesses to slots do to the account.

use crate::sync::account::{
    agrees, block_agrees, blocks_in_order, claimed, claims_at, counts_claims, committed, consumed, content, lemma_content_step,
    lemma_counted_bounds, lemma_counted_claim, lemma_live, lemma_number, lemma_number_in_block,
    lemma_other_index, lemma_tally_in_range, lemma_tally_step, reserved, taken, tally, written,
    Account,
};
use crate::sync::alone::lemma_laps_in_range;
use crate::sync::cursor::{next_word, UnpackedCursor};
use crate::sync::laps::{
    block_at, lap_cursor, lemma_quotient, lemma_split, lemma_version_monotone, version_at,
};
use crate::sync::memory::{Field, Memory};
use crate::sync::params::QueueParameters;
use crate::sync::pop::one_further;
use vstd::prelude::*;

verus! {

/// The index of the block that slot number `p` lies in.
pub open spec fn index_of(params: QueueParameters, p: int) -> int {
    (p / params.block_size as int) % (params.num_blocks as int)
}

/// Slot number `p` comes one step further.
pub open spec fn advanced(acc: Account, p: int) -> Account {
    Account { progress: acc.progress.update(p, acc.progress[p] + 1), ..acc }
}

/// The next slot is claimed.
pub open spec fn with_claim(acc: Account) -> Account {
    Account { progress: acc.progress.push(claimed()), ..acc }
}

/// A claim counts the allocated cursor up by one.
pub proof fn lemma_allocated_counts_on(params: QueueParameters, word: usize)
    requires
        params.wf(),
        word == params.cursor_word(params.cursor_of(word)),
        params.cursor_of(word).offset + 1 < params.offsets(),
    ensures
        params.cursor_of(next_word(word)) == one_further(params.cursor_of(word)),
        next_word(word) == params.cursor_word(one_further(params.cursor_of(word))),
        next_word(word) == word + 1,
        one_further(params.cursor_of(word)).offset == params.cursor_of(word).offset + 1,
{
    let cursor = params.cursor_of(word);
    params.lemma_layout();
    params.lemma_unpacked(word);
    params.lemma_cursor_successor(cursor);
    params.lemma_cursor_round_trip(one_further(cursor));
}

/// What the allocated word of a block reads as. Once all offsets are used up it
/// reads as the start of a block.
pub proof fn lemma_claims_read(params: QueueParameters, word: usize, acc: Account, i: int)
    requires
        params.wf(),
        params.holds_elements(),
        blocks_in_order(params, acc),
        0 <= i < params.num_blocks,
        counts_claims(params, word, acc, i),
    ensures
        ({
            let version = version_at(params.num_blocks as int, acc.allocated, i);
            let claims = claims_at(params, word, acc, i);
            let cursor = params.cursor_of(word);
            &&& 0 <= version < params.versions()
            &&& 0 <= claims <= params.offsets()
            &&& claims < params.offsets() ==> {
                &&& cursor.version == version
                &&& cursor.offset == claims
                &&& word == params.cursor_word(cursor)
            }
            &&& claims == params.offsets() ==> {
                &&& cursor.offset == 0
                &&& word == params.cursor_word(cursor) ==> cursor.version == version + 1 && word
                    == (version + 1) * params.unit()
            }
        }),
{
    let n = params.num_blocks as int;
    let unit = params.unit();
    let offsets = params.offsets();
    let version = version_at(n, acc.allocated, i);
    let claims = claims_at(params, word, acc, i);
    params.lemma_layout();
    lemma_version_monotone(n, acc.allocated, acc.committed, i);
    params.lemma_unpacked(word);
    if claims < offsets {
        params.lemma_cursor_round_trip(
            UnpackedCursor { version: version as usize, offset: claims as usize },
        );
    } else {
        let k = unit / offsets;
        lemma_split(unit, offsets);
        assert(word == (version * k + 1) * offsets) by (nonlinear_arith)
            requires
                word == version * unit + offsets,
                unit == k * offsets,
        ;
        lemma_quotient(word as int, offsets, version * k + 1, 0);
        if unit > offsets {
            lemma_quotient(word as int, unit, version, offsets);
            params.lemma_cursor_round_trip(params.cursor_of(word));
        } else {
            assert(word == (version + 1) * unit) by (nonlinear_arith)
                requires
                    word == version * unit + unit,
            ;
            lemma_quotient(word as int, unit, version + 1, 0);
        }
    }
}

/// Counting the allocated cursor up where the block has room claims the next slot.
pub proof fn lemma_claim<T>(
    params: QueueParameters,
    memory: Memory<T>,
    elems: Seq<T>,
    acc: Account,
    i: int,
    elem: T,
)
    requires
        params.wf(),
        params.holds_elements(),
        agrees(params, memory, elems, acc),
        0 <= i < params.num_blocks,
        claims_at(params, memory.blocks[i].allocated, acc, i) < params.block_size,
    ensures
        ({
            let b = memory.blocks[i];
            let p = elems.len() as int;
            &&& index_of(params, p) == i
            &&& p % (params.block_size as int) == params.cursor_of(b.allocated).offset
            &&& agrees(
                params,
                memory.with_block(i, b.with_word(Field::Allocated, next_word(b.allocated))),
                elems.push(elem),
                with_claim(acc),
            )
        }),
{
    let n = params.num_blocks as int;
    let size = params.block_size as int;
    let b = memory.blocks[i];
    let p = elems.len() as int;
    let after = with_claim(acc);
    let memory_after = memory.with_block(
        i,
        b.with_word(Field::Allocated, next_word(b.allocated)),
    );
    assert(block_agrees(params, b, elems, acc, i));
    params.lemma_layout();
    lemma_claims_read(params, b.allocated, acc, i);
    lemma_allocated_counts_on(params, b.allocated);
    lemma_number_in_block(size, p, acc.allocated);
    assert(memory_after.shaped(params)) by {
        assert forall|k: int| 0 <= k < memory_after.blocks.len() implies (
        #[trigger] memory_after.blocks[k]).data.len() == size by {
            assert(memory.blocks[k].data.len() == size);
        }
    }
    assert forall|k: int| 0 <= k < n implies block_agrees(
        params,
        #[trigger] memory_after.blocks[k],
        elems.push(elem),
        after,
        k,
    ) by {
        assert(block_agrees(params, memory.blocks[k], elems, acc, k));
        assert(counts_claims(params, memory_after.blocks[k].allocated, after, k));
        lemma_tally_claim(params, acc.progress, acc.committed, k, committed());
        lemma_tally_claim(params, acc.progress, acc.consumed, k, consumed());
        assert forall|o: int| 0 <= o < size implies #[trigger] memory_after.blocks[k].data[o]
            == content(elems.push(elem), after.progress, block_at(n, after.allocated, k) * size + o) by {
            assert(memory.blocks[k].data[o] == content(
                elems,
                acc.progress,
                block_at(n, acc.allocated, k) * size + o,
            ));
        }
    }
}

/// A slot that was just claimed is counted nowhere yet.
proof fn lemma_tally_claim(
    params: QueueParameters,
    progress: Seq<int>,
    last: int,
    i: int,
    level: int,
)
    requires
        params.holds_elements(),
        level > claimed(),
    ensures
        tally(params, progress.push(claimed()), last, i, level) == tally(
            params,
            progress,
            last,
            i,
            level,
        ),
{
    let size = params.block_size as int;
    let block = block_at(params.num_blocks as int, last, i);
    if block >= 0 {
        assert(block * size >= 0) by (nonlinear_arith)
            requires
                block >= 0,
                size > 0,
        ;
        lemma_counted_claim(progress, block * size, block * size + size, level);
    }
}

/// Counting the allocated cursor up where the block has no room claims nothing.
pub proof fn lemma_miss<T>(
    params: QueueParameters,
    memory: Memory<T>,
    elems: Seq<T>,
    acc: Account,
    i: int,
)
    requires
        params.wf(),
        params.holds_elements(),
        agrees(params, memory, elems, acc),
        0 <= i < params.num_blocks,
        params.block_size <= claims_at(params, memory.blocks[i].allocated, acc, i)
            < params.offsets(),
        memory.blocks[i].allocated < usize::MAX,
    ensures
        ({
            let b = memory.blocks[i];
            agrees(
                params,
                memory.with_block(i, b.with_word(Field::Allocated, next_word(b.allocated))),
                elems,
                acc,
            )
        }),
{
    let n = params.num_blocks as int;
    let b = memory.blocks[i];
    let memory_after = memory.with_block(
        i,
        b.with_word(Field::Allocated, next_word(b.allocated)),
    );
    assert(block_agrees(params, b, elems, acc, i));
    assert forall|k: int| 0 <= k < memory_after.blocks.len() implies (
    #[trigger] memory_after.blocks[k]).data.len() == params.block_size by {
        assert(memory.blocks[k].data.len() == params.block_size);
    }
    assert forall|k: int| 0 <= k < n implies block_agrees(
        params,
        #[trigger] memory_after.blocks[k],
        elems,
        acc,
        k,
    ) by {
        assert(block_agrees(params, memory.blocks[k], elems, acc, k));
    }
}

/// Filling a claimed slot.
pub proof fn lemma_write<T>(
    params: QueueParameters,
    memory: Memory<T>,
    elems: Seq<T>,
    acc: Account,
    p: int,
)
    requires
        params.wf(),
        params.holds_elements(),
        agrees(params, memory, elems, acc),
        0 <= p < elems.len(),
        acc.progress[p] == claimed(),
    ensures
        ({
            let i = index_of(params, p);
            let o = p % (params.block_size as int);
            &&& 0 <= i < params.num_blocks
            &&& memory.blocks[i].data[o] is None
            &&& agrees(
                params,
                memory.with_block(i, memory.blocks[i].with_slot(o, Some(elems[p]))),
                elems,
                advanced(acc, p),
            )
        }),
{
    let size = params.block_size as int;
    let i = index_of(params, p);
    let o = p % size;
    lemma_live(params, acc, p);
    lemma_number(size, p);
    let b = memory.blocks[i];
    assert(block_agrees(params, b, elems, acc, i));
    assert(b.data[o] == content(elems, acc.progress, p));
    lemma_slot_step(params, memory, elems, acc, p, Some(elems[p]));
}

/// Emptying a slot that a consumer has claimed.
pub proof fn lemma_take<T>(
    params: QueueParameters,
    memory: Memory<T>,
    elems: Seq<T>,
    acc: Account,
    p: int,
)
    requires
        params.wf(),
        params.holds_elements(),
        agrees(params, memory, elems, acc),
        0 <= p < elems.len(),
        acc.progress[p] == reserved(),
    ensures
        ({
            let i = index_of(params, p);
            let o = p % (params.block_size as int);
            &&& 0 <= i < params.num_blocks
            &&& memory.blocks[i].data[o] == Some(elems[p])
            &&& agrees(
                params,
                memory.with_block(i, memory.blocks[i].with_slot(o, None)),
                elems,
                advanced(acc, p),
            )
        }),
{
    let size = params.block_size as int;
    let i = index_of(params, p);
    let o = p % size;
    lemma_live(params, acc, p);
    lemma_number(size, p);
    let b = memory.blocks[i];
    assert(block_agrees(params, b, elems, acc, i));
    assert(b.data[o] == content(elems, acc.progress, p));
    lemma_slot_step(params, memory, elems, acc, p, None);
}

/// The slot whose number comes a step further is filled or emptied.
proof fn lemma_slot_step<T>(
    params: QueueParameters,
    memory: Memory<T>,
    elems: Seq<T>,
    acc: Account,
    p: int,
    slot: Option<T>,
)
    requires
        params.wf(),
        params.holds_elements(),
        agrees(params, memory, elems, acc),
        0 <= p < elems.len(),
        acc.progress[p] == claimed() && slot == Some(elems[p]) || acc.progress[p] == reserved()
            && slot == None::<T>,
    ensures
        ({
            let i = index_of(params, p);
            let o = p % (params.block_size as int);
            agrees(
                params,
                memory.with_block(i, memory.blocks[i].with_slot(o, slot)),
                elems,
                advanced(acc, p),
            )
        }),
{
    let n = params.num_blocks as int;
    let size = params.block_size as int;
    let i = index_of(params, p);
    let o = p % size;
    lemma_live(params, acc, p);
    lemma_number(size, p);
    let b = memory.blocks[i];
    let memory_after = memory.with_block(i, b.with_slot(o, slot));
    let after = advanced(acc, p);
    assert forall|k: int| 0 <= k < memory_after.blocks.len() implies (
    #[trigger] memory_after.blocks[k]).data.len() == size by {
        assert(memory.blocks[k].data.len() == size);
    }
    assert forall|k: int| 0 <= k < n implies block_agrees(
        params,
        #[trigger] memory_after.blocks[k],
        elems,
        after,
        k,
    ) by {
        assert(block_agrees(params, memory.blocks[k], elems, acc, k));
        lemma_tally_step(params, acc.progress, p, acc.committed, k, committed());
        lemma_tally_step(params, acc.progress, p, acc.consumed, k, consumed());
        if k != i {
            lemma_other_index(params, acc.allocated, k, p);
        }
        assert forall|x: int| 0 <= x < size implies #[trigger] memory_after.blocks[k].data[x]
            == content(elems, after.progress, block_at(n, after.allocated, k) * size + x) by {
            let q = block_at(n, acc.allocated, k) * size + x;
            assert(memory.blocks[k].data[x] == content(elems, acc.progress, q));
            lemma_content_step(elems, acc.progress, p, q);
        }
    }
}

/// Counting a filled slot in the committed cursor.
pub proof fn lemma_commit<T>(
    params: QueueParameters,
    memory: Memory<T>,
    elems: Seq<T>,
    acc: Account,
    p: int,
)
    requires
        params.wf(),
        params.holds_elements(),
        agrees(params, memory, elems, acc),
        0 <= p < elems.len(),
        acc.progress[p] == written(),
    ensures
        ({
            let i = index_of(params, p);
            let b = memory.blocks[i];
            agrees(
                params,
                memory.with_block(i, b.with_word(Field::Committed, next_word(b.committed))),
                elems,
                advanced(acc, p),
            )
        }),
{
    let n = params.num_blocks as int;
    let size = params.block_size as int;
    let i = index_of(params, p);
    lemma_live(params, acc, p);
    lemma_number(size, p);
    let b = memory.blocks[i];
    let memory_after = memory.with_block(
        i,
        b.with_word(Field::Committed, next_word(b.committed)),
    );
    let after = advanced(acc, p);
    assert(block_agrees(params, b, elems, acc, i));
    lemma_tally_counts_on(params, acc.progress, acc.committed, acc.committed, p, committed());
    assert forall|k: int| 0 <= k < memory_after.blocks.len() implies (
    #[trigger] memory_after.blocks[k]).data.len() == size by {
        assert(memory.blocks[k].data.len() == size);
    }
    assert forall|k: int| 0 <= k < n implies block_agrees(
        params,
        #[trigger] memory_after.blocks[k],
        elems,
        after,
        k,
    ) by {
        assert(block_agrees(params, memory.blocks[k], elems, acc, k));
        lemma_tally_step(params, acc.progress, p, acc.committed, k, committed());
        lemma_tally_step(params, acc.progress, p, acc.consumed, k, consumed());
        assert forall|x: int| 0 <= x < size implies #[trigger] memory_after.blocks[k].data[x]
            == content(elems, after.progress, block_at(n, after.allocated, k) * size + x) by {
            let q = block_at(n, acc.allocated, k) * size + x;
            assert(memory.blocks[k].data[x] == content(elems, acc.progress, q));
            lemma_content_step(elems, acc.progress, p, q);
        }
    }
}

/// Counting an emptied slot in the consumed cursor.
pub proof fn lemma_consume<T>(
    params: QueueParameters,
    memory: Memory<T>,
    elems: Seq<T>,
    acc: Account,
    p: int,
)
    requires
        params.wf(),
        params.holds_elements(),
        agrees(params, memory, elems, acc),
        0 <= p < elems.len(),
        acc.progress[p] == taken(),
    ensures
        ({
            let i = index_of(params, p);
            let b = memory.blocks[i];
            agrees(
                params,
                memory.with_block(i, b.with_word(Field::Consumed, next_word(b.consumed))),
                elems,
                advanced(acc, p),
            )
        }),
{
    let n = params.num_blocks as int;
    let size = params.block_size as int;
    let i = index_of(params, p);
    lemma_live(params, acc, p);
    lemma_number(size, p);
    let b = memory.blocks[i];
    let memory_after = memory.with_block(
        i,
        b.with_word(Field::Consumed, next_word(b.consumed)),
    );
    let after = advanced(acc, p);
    assert(block_agrees(params, b, elems, acc, i));
    lemma_tally_counts_on(params, acc.progress, acc.committed, acc.consumed, p, consumed());
    assert forall|k: int| 0 <= k < memory_after.blocks.len() implies (
    #[trigger] memory_after.blocks[k]).data.len() == size by {
        assert(memory.blocks[k].data.len() == size);
    }
    assert forall|k: int| 0 <= k < n implies block_agrees(
        params,
        #[trigger] memory_after.blocks[k],
        elems,
        after,
        k,
    ) by {
        assert(block_agrees(params, memory.blocks[k], elems, acc, k));
        lemma_tally_step(params, acc.progress, p, acc.committed, k, committed());
        lemma_tally_step(params, acc.progress, p, acc.consumed, k, consumed());
        assert forall|x: int| 0 <= x < size implies #[trigger] memory_after.blocks[k].data[x]
            == content(elems, after.progress, block_at(n, after.allocated, k) * size + x) by {
            let q = block_at(n, acc.allocated, k) * size + x;
            assert(memory.blocks[k].data[x] == content(elems, acc.progress, q));
            lemma_content_step(elems, acc.progress, p, q);
        }
    }
}

/// The word of a tally counts on as the slot reaches the level.
proof fn lemma_tally_counts_on(
    params: QueueParameters,
    progress: Seq<int>,
    bound: int,
    last: int,
    p: int,
    level: int,
)
    requires
        params.wf(),
        params.holds_elements(),
        0 <= p < progress.len(),
        progress[p] + 1 == level,
        0 <= last <= bound,
        crate::sync::laps::version_of(params.num_blocks as int, bound) < params.versions(),
        block_at(params.num_blocks as int, last, index_of(params, p)) == p
            / params.block_size as int,
    ensures
        next_word(
            params.cursor_word(tally(params, progress, last, index_of(params, p), level)),
        ) == params.cursor_word(
            tally(params, progress.update(p, progress[p] + 1), last, index_of(params, p), level),
        ),
{
    let n = params.num_blocks as int;
    let size = params.block_size as int;
    let i = index_of(params, p);
    lemma_number(size, p);
    lemma_split(p / size, n);
    lemma_tally_in_range(params, progress, bound, last, i, level);
    lemma_tally_in_range(
        params,
        progress.update(p, progress[p] + 1),
        bound,
        last,
        i,
        level,
    );
    lemma_tally_step(params, progress, p, last, i, level);
    params.lemma_layout();
    let before = tally(params, progress, last, i, level);
    let start = (p / size) * size;
    lemma_counted_bounds(
        progress.update(p, progress[p] + 1),
        start,
        start + size,
        level,
    );
    assert(start >= 0) by (nonlinear_arith)
        requires
            start == (p / size) * size,
            p / size >= 0,
            size > 0,
    ;
    crate::sync::account::lemma_counted_step(progress, p, start, start + size, level);
    params.lemma_cursor_successor(before);
}

/// Raising the reserved cursor from where it stood claims the next slot for a consumer.
pub proof fn lemma_reserve<T>(
    params: QueueParameters,
    memory: Memory<T>,
    elems: Seq<T>,
    acc: Account,
    i: int,
    cursor: UnpackedCursor,
)
    requires
        params.wf(),
        params.holds_elements(),
        agrees(params, memory, elems, acc),
        0 <= i < params.num_blocks,
        params.cursor_in_range(cursor),
        cursor.offset < params.block_size,
        memory.blocks[i].reserved == params.cursor_word(cursor),
        acc.reserves < elems.len(),
        acc.progress[acc.reserves] == committed(),
    ensures
        ({
            let b = memory.blocks[i];
            let p = acc.reserves;
            &&& index_of(params, p) == i
            &&& p % (params.block_size as int) == cursor.offset
            &&& agrees(
                params,
                memory.with_block(
                    i,
                    b.with_word(Field::Reserved, params.cursor_word(one_further(cursor))),
                ),
                elems,
                Account { reserves: p + 1, ..advanced(acc, p) },
            )
        }),
{
    let n = params.num_blocks as int;
    let size = params.block_size as int;
    let b = memory.blocks[i];
    let p = acc.reserves;
    let memory_after = memory.with_block(
        i,
        b.with_word(Field::Reserved, params.cursor_word(one_further(cursor))),
    );
    let after = Account { reserves: p + 1, ..advanced(acc, p) };
    assert(block_agrees(params, b, elems, acc, i));
    lemma_laps_in_range(params, acc.committed, p, acc.reserved, i);
    params.lemma_cursor_order(cursor, lap_cursor(params, p, acc.reserved, i));
    assert(cursor == lap_cursor(params, p, acc.reserved, i));
    lemma_number_in_block(size, p, acc.reserved);
    assert(one_further(cursor) == lap_cursor(params, p + 1, acc.reserved, i));
    assert forall|k: int| 0 <= k < memory_after.blocks.len() implies (
    #[trigger] memory_after.blocks[k]).data.len() == size by {
        assert(memory.blocks[k].data.len() == size);
    }
    assert forall|k: int| 0 <= k < n implies block_agrees(
        params,
        #[trigger] memory_after.blocks[k],
        elems,
        after,
        k,
    ) by {
        assert(block_agrees(params, memory.blocks[k], elems, acc, k));
        lemma_tally_step(params, acc.progress, p, acc.committed, k, committed());
        lemma_tally_step(params, acc.progress, p, acc.consumed, k, consumed());
        assert forall|x: int| 0 <= x < size implies #[trigger] memory_after.blocks[k].data[x]
            == content(elems, after.progress, block_at(n, after.allocated, k) * size + x) by {
            let q = block_at(n, acc.allocated, k) * size + x;
            assert(memory.blocks[k].data[x] == content(elems, acc.progress, q));
            lemma_content_step(elems, acc.progress, p, q);
        }
    }
}

}
