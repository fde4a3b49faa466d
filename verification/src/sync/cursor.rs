//! Heads and cursors, packed into words and unpacked.
//!
//! A head names a block, a cursor a place in a block. Both carry a version: a
//! place that is used again is used under a greater version, so that a word that
//! was read earlier is not taken for the current one.

use crate::sync::bits::{lemma_word_count, word_count};
use crate::sync::params::QueueParameters;
use vstd::arithmetic::div_mod::{
    lemma_fundamental_div_mod, lemma_fundamental_div_mod_converse, lemma_mod_bound,
    lemma_mod_multiples_vanish, lemma_small_mod,
};
use vstd::prelude::*;

verus! {

/// A version and an index into the blocks of a queue.
#[derive(Debug, Clone, Copy, PartialEq, Eq, Structural)]
pub struct UnpackedHead {
    pub version: usize,
    pub index: usize,
}

/// A version and an offset into a block.
#[derive(Debug, Clone, Copy, PartialEq, Eq, Structural)]
pub struct UnpackedCursor {
    pub version: usize,
    pub offset: usize,
}

impl QueueParameters {
    /// The word of a head.
    pub open spec fn head_word(self, head: UnpackedHead) -> usize {
        self.word(head.version as int, head.index as int, self.indices()) as usize
    }

    /// The head that a word holds.
    pub open spec fn head_of(self, word: usize) -> UnpackedHead {
        UnpackedHead {
            version: (word as int / self.unit()) as usize,
            index: (word as int % self.indices()) as usize,
        }
    }

    /// The word of a cursor.
    pub open spec fn cursor_word(self, cursor: UnpackedCursor) -> usize {
        self.word(cursor.version as int, cursor.offset as int, self.offsets()) as usize
    }

    /// The cursor that a word holds.
    pub open spec fn cursor_of(self, word: usize) -> UnpackedCursor {
        UnpackedCursor {
            version: (word as int / self.unit()) as usize,
            offset: (word as int % self.offsets()) as usize,
        }
    }

    /// The fields of a head are in range.
    pub open spec fn head_in_range(self, head: UnpackedHead) -> bool {
        head.version < self.versions() && head.index < self.indices()
    }

    /// The fields of a cursor are in range.
    pub open spec fn cursor_in_range(self, cursor: UnpackedCursor) -> bool {
        cursor.version < self.versions() && cursor.offset < self.offsets()
    }

    /// A word whose two fields are in range, taken apart.
    proof fn lemma_word(self, version: int, low: int, lows: int)
        requires
            self.wf(),
            lows == self.offsets() || lows == self.indices(),
            0 <= version,
            0 <= low,
        ensures
            0 <= self.word(version, low, lows) <= usize::MAX,
            self.word(version, low, lows) / self.unit() == version % self.versions(),
            self.word(version, low, lows) % lows == low % lows,
            0 <= version % self.versions() < self.versions(),
            0 <= low % lows < lows,
            version < self.versions() ==> version % self.versions() == version,
            low < lows ==> low % lows == low,
    {
        self.lemma_layout();
        let v = version % self.versions();
        let l = low % lows;
        let unit = self.unit();
        lemma_mod_bound(version, self.versions());
        lemma_mod_bound(low, lows);
        if version < self.versions() {
            lemma_small_mod(version as nat, self.versions() as nat);
        }
        if low < lows {
            lemma_small_mod(low as nat, lows as nat);
        }
        vstd::arithmetic::mul::lemma_mul_is_commutative(v, unit);
        lemma_fundamental_div_mod_converse(v * unit + l, unit, v, l);
        assert(v * unit + l < self.versions() * unit) by (nonlinear_arith)
            requires
                0 <= v < self.versions(),
                0 <= l < unit,
                unit >= 1,
        ;
        assert(v * unit >= 0) by (nonlinear_arith)
            requires
                v >= 0,
                unit >= 1,
        ;
        // the unit is a multiple of `lows`
        let m = unit / lows;
        lemma_fundamental_div_mod(unit, lows);
        assert(v * unit == lows * (v * m)) by (nonlinear_arith)
            requires
                unit == lows * m,
        ;
        lemma_mod_multiples_vanish(v * m, l, lows);
        lemma_small_mod(l as nat, lows as nat);
    }

    /// Unpacking reads fields that are in range.
    pub proof fn lemma_unpacked(self, word: usize)
        requires
            self.wf(),
        ensures
            self.cursor_in_range(self.cursor_of(word)),
            self.head_in_range(self.head_of(word)),
            self.cursor_of(word).version == word as int / self.unit(),
            self.cursor_of(word).offset == word as int % self.offsets(),
            self.head_of(word).version == word as int / self.unit(),
            self.head_of(word).index == word as int % self.indices(),
    {
        self.lemma_layout();
        let w = word as int;
        lemma_mod_bound(w, self.offsets());
        lemma_mod_bound(w, self.indices());
        lemma_fundamental_div_mod(w, self.unit());
        lemma_mod_bound(w, self.unit());
        let q = w / self.unit();
        let unit = self.unit();
        let versions = self.versions();
        assert(0 <= q < versions) by (nonlinear_arith)
            requires
                w == unit * q + w % unit,
                0 <= w % unit < unit,
                0 <= w < versions * unit,
                unit >= 1,
        ;
    }

    /// A cursor in range comes back from its word.
    pub proof fn lemma_cursor_round_trip(self, cursor: UnpackedCursor)
        requires
            self.wf(),
            self.cursor_in_range(cursor),
        ensures
            self.cursor_of(self.cursor_word(cursor)) == cursor,
            self.cursor_word(cursor) == cursor.version * self.unit() + cursor.offset,
    {
        self.lemma_word(cursor.version as int, cursor.offset as int, self.offsets());
    }

    /// A head in range comes back from its word.
    pub proof fn lemma_head_round_trip(self, head: UnpackedHead)
        requires
            self.wf(),
            self.head_in_range(head),
        ensures
            self.head_of(self.head_word(head)) == head,
            self.head_word(head) == head.version * self.unit() + head.index,
    {
        self.lemma_word(head.version as int, head.index as int, self.indices());
    }

    /// Packing keeps an index that is in range, whatever the version.
    pub proof fn lemma_packed_head_index(self, head: UnpackedHead)
        requires
            self.wf(),
            head.index < self.indices(),
        ensures
            self.head_of(self.head_word(head)).index == head.index,
    {
        self.lemma_word(head.version as int, head.index as int, self.indices());
    }

    /// Packing takes each field around its own range, and leaves the other one alone:
    /// fields that are out of range come back as their remainders.
    pub proof fn lemma_fields_wrap(self, cursor: UnpackedCursor, head: UnpackedHead)
        requires
            self.wf(),
        ensures
            self.cursor_of(self.cursor_word(cursor)).version == cursor.version as int
                % self.versions(),
            self.cursor_of(self.cursor_word(cursor)).offset == cursor.offset as int
                % self.offsets(),
            self.head_of(self.head_word(head)).version == head.version as int % self.versions(),
            self.head_of(self.head_word(head)).index == head.index as int % self.indices(),
    {
        self.lemma_word(cursor.version as int, cursor.offset as int, self.offsets());
        self.lemma_word(head.version as int, head.index as int, self.indices());
    }

    /// Words of cursors are ordered by version first, then by offset.
    pub proof fn lemma_cursor_order(self, a: UnpackedCursor, b: UnpackedCursor)
        requires
            self.wf(),
            self.cursor_in_range(a),
            self.cursor_in_range(b),
        ensures
            self.cursor_word(a) < self.cursor_word(b) <==> a.version < b.version || (a.version
                == b.version && a.offset < b.offset),
            self.cursor_word(a) == self.cursor_word(b) <==> a == b,
    {
        self.lemma_layout();
        self.lemma_cursor_round_trip(a);
        self.lemma_cursor_round_trip(b);
        self.lemma_version_order(
            a.version as int,
            a.offset as int,
            b.version as int,
            b.offset as int,
        );
    }

    /// Words of heads are ordered by version first, then by index.
    pub proof fn lemma_head_order(self, a: UnpackedHead, b: UnpackedHead)
        requires
            self.wf(),
            self.head_in_range(a),
            self.head_in_range(b),
        ensures
            self.head_word(a) < self.head_word(b) <==> a.version < b.version || (a.version
                == b.version && a.index < b.index),
            self.head_word(a) == self.head_word(b) <==> a == b,
    {
        self.lemma_layout();
        self.lemma_head_round_trip(a);
        self.lemma_head_round_trip(b);
        self.lemma_version_order(a.version as int, a.index as int, b.version as int, b.index as int);
    }

    proof fn lemma_version_order(self, v: int, l: int, w: int, m: int)
        requires
            self.wf(),
            0 <= l < self.unit(),
            0 <= m < self.unit(),
        ensures
            v * self.unit() + l < w * self.unit() + m <==> v < w || (v == w && l < m),
    {
        let unit = self.unit();
        if v < w {
            assert(v * unit + l < w * unit + m) by (nonlinear_arith)
                requires
                    v < w,
                    0 <= l < unit,
                    0 <= m < unit,
            ;
        } else if w < v {
            assert(w * unit + m < v * unit + l) by (nonlinear_arith)
                requires
                    w < v,
                    0 <= l < unit,
                    0 <= m < unit,
            ;
        }
    }

    /// Counting a cursor up by one moves its offset while the offset field lasts.
    pub proof fn lemma_cursor_successor(self, cursor: UnpackedCursor)
        requires
            self.wf(),
            self.cursor_in_range(cursor),
            cursor.offset + 1 < self.offsets(),
        ensures
            self.cursor_word(cursor) < usize::MAX,
            self.cursor_word(cursor) + 1 == self.cursor_word(
                UnpackedCursor { version: cursor.version, offset: (cursor.offset + 1) as usize },
            ),
    {
        self.lemma_cursor_round_trip(cursor);
        self.lemma_layout();
        self.lemma_cursor_round_trip(
            UnpackedCursor { version: cursor.version, offset: (cursor.offset + 1) as usize },
        );
    }

    /// Packs a head.
    pub fn pack_head(&self, head: UnpackedHead) -> (word: usize)
        requires
            self.wf(),
        ensures
            word == self.head_word(head),
    {
        proof {
            self.lemma_pack(head.version, head.index, 0);
            self.lemma_word(head.version as int, head.index as int, self.indices());
            self.lemma_shift_in_range();
        }
        ((head.version << self.version_shift) & self.version_mask) | (head.index & self.index_mask)
    }

    /// Unpacks a head.
    pub fn unpack_head(&self, word: usize) -> (head: UnpackedHead)
        requires
            self.wf(),
        ensures
            head == self.head_of(word),
            self.head_in_range(head),
    {
        proof {
            self.lemma_pack(0, 0, word);
            self.lemma_unpacked(word);
            self.lemma_shift_in_range();
        }
        let index: usize = word & self.index_mask;
        let version: usize = (word & self.version_mask) >> self.version_shift;
        UnpackedHead { version, index }
    }

    /// Packs a cursor.
    pub fn pack_cursor(&self, cursor: UnpackedCursor) -> (word: usize)
        requires
            self.wf(),
        ensures
            word == self.cursor_word(cursor),
    {
        proof {
            self.lemma_pack(cursor.version, cursor.offset, 0);
            self.lemma_word(cursor.version as int, cursor.offset as int, self.offsets());
            self.lemma_shift_in_range();
        }
        ((cursor.version << self.version_shift) & self.version_mask) | (cursor.offset
            & self.offset_mask)
    }

    /// Unpacks a cursor.
    pub fn unpack_cursor(&self, word: usize) -> (cursor: UnpackedCursor)
        requires
            self.wf(),
        ensures
            cursor == self.cursor_of(word),
            self.cursor_in_range(cursor),
    {
        proof {
            self.lemma_pack(0, 0, word);
            self.lemma_unpacked(word);
            self.lemma_shift_in_range();
        }
        let offset: usize = word & self.offset_mask;
        let version: usize = (word & self.version_mask) >> self.version_shift;
        UnpackedCursor { version, offset }
    }

    proof fn lemma_shift_in_range(self)
        requires
            self.wf(),
        ensures
            self.version_shift < usize::BITS,
    {
        lemma_word_count();
    }
}

impl UnpackedHead {
    /// The block that lies `increment` blocks further, counted in a ring.
    pub open spec fn incremented(self, params: QueueParameters, increment: int) -> UnpackedHead {
        UnpackedHead {
            version: (self.version + (self.index + increment) / params.num_blocks as int) as usize,
            index: ((self.index + increment) % params.num_blocks as int) as usize,
        }
    }

    /// Moves the index on by `increment` and carries what goes past the last
    /// block over into the version.
    pub fn increment_index(self, params: &QueueParameters, increment: usize) -> (head: Self)
        requires
            params.num_blocks > 0,
            self.index + increment <= usize::MAX,
            self.version + (self.index + increment) / params.num_blocks as int <= usize::MAX,
        ensures
            head == self.incremented(*params, increment as int),
            head.index < params.num_blocks,
            head.version == self.version + (self.index + increment) / params.num_blocks as int,
            head.index == (self.index + increment) % params.num_blocks as int,
    {
        let index: usize = (self.index + increment) % params.num_blocks;
        let version: usize = self.version + ((self.index + increment) / params.num_blocks);
        Self { version, index }
    }

    /// Moving on by some blocks and then by some more is moving on by both at once:
    /// blocks are counted through from round to round.
    pub proof fn lemma_increments_add_up(self, params: QueueParameters, a: int, b: int)
        requires
            params.num_blocks > 0,
            0 <= a,
            0 <= b,
            self.index < params.num_blocks,
            self.version + (self.index + a + b) / params.num_blocks as int <= usize::MAX,
        ensures
            self.incremented(params, a).incremented(params, b) == self.incremented(params, a + b),
            self.incremented(params, 0) == self,
            self.incremented(params, a).version * params.num_blocks + self.incremented(
                params,
                a,
            ).index == self.version * params.num_blocks + self.index + a,
    {
        let n = params.num_blocks as int;
        let x = self.index + a;
        let q = x / n;
        let r = x % n;
        lemma_fundamental_div_mod(x, n);
        lemma_mod_bound(x, n);
        lemma_fundamental_div_mod(r + b, n);
        lemma_mod_bound(r + b, n);
        let k = (r + b) / n;
        assert(q >= 0) by (nonlinear_arith)
            requires
                x == n * q + r,
                x >= 0,
                r < n,
                n > 0,
        ;
        assert(k >= 0) by (nonlinear_arith)
            requires
                r + b == n * k + (r + b) % n,
                r + b >= 0,
                (r + b) % n < n,
                n > 0,
        ;
        assert(x + b == (q + k) * n + (r + b) % n) by (nonlinear_arith)
            requires
                x == n * q + r,
                r + b == n * k + (r + b) % n,
        ;
        lemma_fundamental_div_mod_converse(x + b, n, q + k, (r + b) % n);
        lemma_small_mod(self.index as nat, n as nat);
        lemma_fundamental_div_mod_converse(self.index as int, n, 0, self.index as int);
        assert((self.version + q) * n + r == self.version * n + self.index + a)
            by (nonlinear_arith)
            requires
                x == n * q + r,
                x == self.index + a,
        ;
    }
}

impl UnpackedCursor {
    /// Counts the word of this cursor up by `increment`.
    pub fn add(self, params: &QueueParameters, increment: usize) -> (cursor: Self)
        requires
            params.wf(),
            params.cursor_word(self) + increment <= usize::MAX,
        ensures
            cursor == params.cursor_of((params.cursor_word(self) + increment) as usize),
    {
        let raw_value: usize = params.pack_cursor(self);
        params.unpack_cursor(raw_value + increment)
    }
}

/// A word that holds a head.
#[derive(Debug, Default)]
pub struct PackedHead(pub usize);

impl PackedHead {
    /// A word with the given version and index.
    pub fn new(params: &QueueParameters, version: usize, index: usize) -> (h: Self)
        requires
            params.wf(),
            version < params.versions(),
            index < params.indices(),
        ensures
            h.0 == params.head_word((UnpackedHead { version, index })),
            params.head_of(h.0) == (UnpackedHead { version, index }),
    {
        proof {
            params.lemma_head_round_trip(UnpackedHead { version, index });
        }
        Self(params.pack_head(UnpackedHead { version, index }))
    }

    /// The head that the word holds.
    pub fn load(&self, params: &QueueParameters) -> (head: UnpackedHead)
        requires
            params.wf(),
        ensures
            head == params.head_of(self.0),
            params.head_in_range(head),
    {
        params.unpack_head(self.0)
    }

    /// Overwrites the word with a head.
    pub fn store(&mut self, params: &QueueParameters, value: UnpackedHead)
        requires
            params.wf(),
        ensures
            final(self).0 == params.head_word(value),
    {
        self.0 = params.pack_head(value);
    }

    /// Raises the word to that of `other` where that is greater, and returns the
    /// head that the word held before.
    pub fn fetch_max(&mut self, params: &QueueParameters, other: UnpackedHead) -> (head:
        UnpackedHead)
        requires
            params.wf(),
        ensures
            head == params.head_of(old(self).0),
            final(self).0 == if params.head_word(other) > old(self).0 {
                params.head_word(other)
            } else {
                old(self).0
            },
    {
        let raw_value: usize = params.pack_head(other);
        let old_value: usize = self.0;
        if raw_value > old_value {
            self.0 = raw_value;
        }
        params.unpack_head(old_value)
    }
}

/// A word that holds a cursor.
#[derive(Debug, Default)]
pub struct PackedCursor(pub usize);

/// The word that follows a word; the last is followed by the first.
pub open spec fn next_word(word: usize) -> usize {
    if word < usize::MAX {
        (word + 1) as usize
    } else {
        0
    }
}

impl PackedCursor {
    /// A word with the given version and offset.
    pub fn new(params: &QueueParameters, version: usize, offset: usize) -> (c: Self)
        requires
            params.wf(),
            version < params.versions(),
            offset < params.offsets(),
        ensures
            c.0 == params.cursor_word((UnpackedCursor { version, offset })),
            params.cursor_of(c.0) == (UnpackedCursor { version, offset }),
    {
        proof {
            params.lemma_cursor_round_trip(UnpackedCursor { version, offset });
        }
        Self(params.pack_cursor(UnpackedCursor { version, offset }))
    }

    /// The cursor that the word holds.
    pub fn load(&self, params: &QueueParameters) -> (cursor: UnpackedCursor)
        requires
            params.wf(),
        ensures
            cursor == params.cursor_of(self.0),
            params.cursor_in_range(cursor),
    {
        params.unpack_cursor(self.0)
    }

    /// Overwrites the word with a cursor.
    pub fn store(&mut self, params: &QueueParameters, value: UnpackedCursor)
        requires
            params.wf(),
        ensures
            final(self).0 == params.cursor_word(value),
    {
        self.0 = params.pack_cursor(value);
    }

    /// Counts the word up by `increment`, wrapping around on overflow, and
    /// returns the cursor that the word held before.
    pub fn fetch_add(&mut self, params: &QueueParameters, increment: usize) -> (cursor:
        UnpackedCursor)
        requires
            params.wf(),
        ensures
            cursor == params.cursor_of(old(self).0),
            params.cursor_in_range(cursor),
            final(self).0 == (old(self).0 + increment) % word_count(),
            increment == 1 ==> final(self).0 == next_word(old(self).0),
    {
        let old_value: usize = self.0;
        self.0 = old_value.wrapping_add(increment);
        proof {
            let sum = old_value + increment;
            if sum <= usize::MAX {
                lemma_small_mod(sum as nat, word_count() as nat);
            } else {
                lemma_fundamental_div_mod_converse(sum, word_count(), 1, sum - word_count());
            }
        }
        params.unpack_cursor(old_value)
    }

    /// Raises the word to that of `other` where that is greater, and returns the
    /// cursor that the word held before.
    pub fn fetch_max(&mut self, params: &QueueParameters, other: UnpackedCursor) -> (cursor:
        UnpackedCursor)
        requires
            params.wf(),
        ensures
            cursor == params.cursor_of(old(self).0),
            params.cursor_in_range(cursor),
            final(self).0 == if params.cursor_word(other) > old(self).0 {
                params.cursor_word(other)
            } else {
                old(self).0
            },
    {
        let raw_value: usize = params.pack_cursor(other);
        let old_value: usize = self.0;
        if raw_value > old_value {
            self.0 = raw_value;
        }
        params.unpack_cursor(old_value)
    }
}

}
