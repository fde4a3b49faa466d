//! The capacity of a queue and the parameters that its packed words are read with.

use crate::sync::bits::{
    ceil_log2, compute_ceil_log2, compute_floor_log2, floor_log2, lemma_ceil_log2,
    lemma_ceil_log2_le, lemma_floor_log2, lemma_low_ones_by_shl, lemma_low_ones_by_shr, lemma_not,
    lemma_pow2_order, lemma_word_count, lemma_word_fields, word_count,
};
use vstd::arithmetic::power2::{
    lemma2_to64, lemma_pow2_adds, lemma_pow2_pos, lemma_pow2_unfold, pow2,
};
use vstd::prelude::*;

verus! {

/// The capacity of a queue is not a single number because it depends on the
/// order of pushes and pops: a producer moves on to the next block only when
/// that block holds no unconsumed data, so a partially consumed block takes no
/// new elements.
#[derive(Debug, Default, Copy, Clone, PartialEq, Eq, PartialOrd, Ord, Structural)]
pub struct Capacity {
    /// Upper bound on the maximum number of items a queue can hold.
    pub upper: usize,
    /// Lower bound on the maximum number of items a queue can hold.
    pub lower: usize,
}

impl Capacity {
    /// The capacity of a queue that holds nothing.
    pub fn empty() -> (c: Self)
        ensures
            c.upper == 0,
            c.lower == 0,
    {
        Self { upper: 0, lower: 0 }
    }

    /// Whether this is the capacity of a queue that holds nothing.
    pub fn is_empty(&self) -> (b: bool)
        ensures
            b == (self.upper == 0),
    {
        self.upper == 0
    }
}

impl PartialEq<(usize, usize)> for &Capacity {
    fn eq(&self, other: &(usize, usize)) -> (b: bool) {
        self.lower == other.0 && self.upper == other.1
    }
}

impl vstd::std_specs::cmp::PartialEqSpecImpl<(usize, usize)> for &Capacity {
    open spec fn obeys_eq_spec() -> bool {
        true
    }

    open spec fn eq_spec(&self, other: &(usize, usize)) -> bool {
        self.lower == other.0 && self.upper == other.1
    }
}

/// The parameters of a queue could not be represented.
#[derive(Debug, PartialEq, Eq, Structural)]
pub struct Overflow;

/// The number of blocks, their size, and the masks and the shift with which
/// the words of a queue are packed.
///
/// A word holds a version in its high bits. The low bits of a head word hold an
/// index into the blocks, those of a cursor word an offset into a block.
#[derive(Debug, Clone, Copy, PartialEq, Eq, Structural)]
pub struct QueueParameters {
    pub capacity: Capacity,
    pub num_blocks: usize,
    pub block_size: usize,
    pub version_mask: usize,
    pub version_shift: u32,
    pub offset_mask: usize,
    pub index_mask: usize,
}

/// The number of bits that hold an index into `num_blocks` blocks.
pub open spec fn index_bits(num_blocks: int) -> nat {
    ceil_log2(num_blocks)
}

/// The number of bits that hold an offset into a block of `block_size`
/// elements, with room to count past its end.
pub open spec fn offset_bits(block_size: int) -> nat {
    ceil_log2(block_size) + 1
}

/// The bit at which versions start.
pub open spec fn low_bits(num_blocks: int, block_size: int) -> nat {
    if index_bits(num_blocks) > offset_bits(block_size) {
        index_bits(num_blocks)
    } else {
        offset_bits(block_size)
    }
}

/// Whether a queue of this shape can be represented: the number of its elements
/// is a machine word, and both low fields leave a bit for the version.
pub open spec fn shape_fits(num_blocks: int, block_size: int) -> bool {
    num_blocks == 0 || block_size == 0 || {
        &&& num_blocks * block_size <= usize::MAX
        &&& index_bits(num_blocks) < usize::BITS
        &&& offset_bits(block_size) < usize::BITS
    }
}

/// The number of blocks that `from_block_heuristic` picks, before the one that it adds.
pub open spec fn heuristic_blocks(min_capacity: int) -> int {
    let quarter = (if min_capacity > 0 {
        floor_log2(min_capacity) + 3
    } else {
        0
    }) / 4;
    pow2(if quarter > 1 { quarter as nat } else { 1 }) as int
}

/// The block size that `from_block_heuristic` picks: the least with which the
/// picked blocks hold `min_capacity` elements, and at least 1.
pub open spec fn heuristic_block_size(min_capacity: int) -> int {
    if min_capacity > 0 {
        (min_capacity + heuristic_blocks(min_capacity) - 1) / heuristic_blocks(min_capacity)
    } else {
        1
    }
}

impl QueueParameters {
    /// The parameters of a queue of `num_blocks` blocks of `block_size` elements.
    pub open spec fn describes(self, num_blocks: int, block_size: int) -> bool {
        &&& self.num_blocks == num_blocks
        &&& self.block_size == block_size
        &&& if num_blocks == 0 || block_size == 0 {
            &&& self.capacity.upper == 0
            &&& self.capacity.lower == 0
            &&& self.version_mask == 0
            &&& self.version_shift == 0
            &&& self.offset_mask == 0
            &&& self.index_mask == 0
        } else {
            &&& self.capacity.upper == num_blocks * block_size
            &&& self.capacity.lower == (num_blocks - 1) * block_size
            &&& self.version_shift == low_bits(num_blocks, block_size)
            &&& self.version_mask == usize::MAX - (pow2(low_bits(num_blocks, block_size)) - 1)
            &&& self.offset_mask == pow2(offset_bits(block_size)) - 1
            &&& self.index_mask == pow2(index_bits(num_blocks)) - 1
        }
    }

    /// The parameters belong to a shape that can be represented.
    pub open spec fn wf(self) -> bool {
        &&& shape_fits(self.num_blocks as int, self.block_size as int)
        &&& self.describes(self.num_blocks as int, self.block_size as int)
    }

    /// A queue of this shape holds elements.
    pub open spec fn holds_elements(self) -> bool {
        self.num_blocks > 0 && self.block_size > 0
    }

    /// By how much a word grows from one version to the next.
    pub open spec fn unit(self) -> int {
        word_count() - self.version_mask
    }

    /// The number of versions.
    pub open spec fn versions(self) -> int {
        word_count() / self.unit()
    }

    /// The number of offsets that a cursor word can hold.
    pub open spec fn offsets(self) -> int {
        self.offset_mask + 1
    }

    /// The number of indices that a head word can hold.
    pub open spec fn indices(self) -> int {
        self.index_mask + 1
    }

    /// The word with the given version and low field.
    pub open spec fn word(self, version: int, low: int, lows: int) -> int {
        (version % self.versions()) * self.unit() + low % lows
    }

    /// A queue holds elements just where its capacity is not empty.
    pub proof fn lemma_empty_capacity(self)
        requires
            self.wf(),
        ensures
            self.capacity.upper == 0 <==> !self.holds_elements(),
    {
        let n = self.num_blocks as int;
        let size = self.block_size as int;
        if self.holds_elements() {
            assert(n * size > 0) by (nonlinear_arith)
                requires
                    n > 0,
                    size > 0,
            ;
        }
    }

    /// A power of two divides every greater one.
    proof fn lemma_divides(a: nat, b: nat)
        requires
            a <= b,
        ensures
            pow2(b) % pow2(a) == 0,
            pow2(b) as int % pow2(a) as int == 0,
    {
        lemma_pow2_adds((b - a) as nat, a);
        lemma_pow2_pos(a);
        vstd::arithmetic::div_mod::lemma_mod_multiples_basic(
            pow2((b - a) as nat) as int,
            pow2(a) as int,
        );
    }

    /// Both low fields fit below the versions, an index reaches every block and
    /// an offset counts past the end of a block.
    pub proof fn lemma_layout(self)
        requires
            self.wf(),
        ensures
            self.unit() >= 1,
            self.versions() >= 1,
            self.versions() * self.unit() == word_count(),
            1 <= self.offsets() <= self.unit(),
            1 <= self.indices() <= self.unit(),
            self.unit() % self.offsets() == 0,
            self.unit() % self.indices() == 0,
            self.versions() <= word_count() / 2,
            self.holds_elements() ==> self.versions() >= 2,
            self.holds_elements() ==> self.num_blocks <= self.indices(),
            self.holds_elements() ==> 2 * self.block_size <= self.offsets(),
    {
        lemma_word_count();
        let nb = self.num_blocks as int;
        let bs = self.block_size as int;
        if self.holds_elements() {
            let s = low_bits(nb, bs);
            lemma_ceil_log2(nb);
            lemma_ceil_log2(bs);
            lemma_pow2_order(index_bits(nb), s);
            lemma_pow2_order(offset_bits(bs), s);
            lemma_pow2_order(s, usize::BITS as nat);
            lemma_pow2_pos(s);
            lemma_pow2_pos(index_bits(nb));
            lemma_pow2_pos(offset_bits(bs));
            lemma_pow2_unfold(offset_bits(bs));
            let v = (usize::BITS - s) as nat;
            lemma_pow2_adds(s, v);
            lemma_pow2_pos(v);
            lemma2_to64();
            lemma_pow2_order(1, v);
            Self::lemma_divides(offset_bits(bs), s);
            Self::lemma_divides(index_bits(nb), s);
            lemma_pow2_order(v, (usize::BITS - 1) as nat);
            lemma_pow2_unfold(usize::BITS as nat);
            vstd::arithmetic::mul::lemma_mul_is_commutative(self.unit(), pow2(v) as int);
            vstd::arithmetic::div_mod::lemma_fundamental_div_mod_converse(
                word_count(),
                self.unit(),
                pow2(v) as int,
                0,
            );
        } else {
            vstd::arithmetic::div_mod::lemma_div_by_self(word_count());
        }
    }

    /// A packed word, a packed cursor and the fields that are read from a word.
    pub proof fn lemma_pack(self, version: usize, low: usize, raw: usize)
        requires
            self.wf(),
        ensures
            ((version << self.version_shift) & self.version_mask) | (low & self.offset_mask)
                == self.word(version as int, low as int, self.offsets()),
            ((version << self.version_shift) & self.version_mask) | (low & self.index_mask)
                == self.word(version as int, low as int, self.indices()),
            (raw & self.version_mask) >> self.version_shift == raw as int / self.unit(),
            raw & self.offset_mask == raw as int % self.offsets(),
            raw & self.index_mask == raw as int % self.indices(),
    {
        self.lemma_layout();
        let nb = self.num_blocks as int;
        let bs = self.block_size as int;
        if self.holds_elements() {
            let s = self.version_shift;
            lemma_pow2_pos(s as nat);
            lemma_word_fields(
                version,
                low,
                raw,
                s,
                offset_bits(bs),
                self.version_mask,
                self.offset_mask,
            );
            lemma_word_fields(
                version,
                low,
                raw,
                s,
                index_bits(nb),
                self.version_mask,
                self.index_mask,
            );
        } else {
            let shifted = version << self.version_shift;
            assert((shifted & 0usize) | (low & 0usize) == 0usize) by (bit_vector);
            assert((raw & 0usize) >> 0u32 == 0usize) by (bit_vector);
            assert(raw & 0usize == 0usize) by (bit_vector);
            vstd::arithmetic::div_mod::lemma_div_by_self(word_count());
            assert(self.versions() == 1);
            assert(version as int % self.versions() == 0);
            assert(0 * self.unit() == 0);
        }
    }

    /// A block size times a power of two reaches the capacity that it was rounded up for.
    proof fn lemma_rounded_up(x: int, d: int)
        requires
            x >= 1,
            d >= 1,
        ensures
            (x + d - 1) / d >= 1,
            ((x + d - 1) / d) * d >= x,
    {
        vstd::arithmetic::div_mod::lemma_fundamental_div_mod(x + d - 1, d);
        vstd::arithmetic::mul::lemma_mul_is_commutative(d, (x + d - 1) / d);
        let q = (x + d - 1) / d;
        assert(q >= 1) by (nonlinear_arith)
            requires
                x + d - 1 == d * q + (x + d - 1) % d,
                (x + d - 1) % d < d,
                x >= 1,
                d >= 1,
        ;
    }

    /// Picks a number of blocks for the wanted capacity: about a quarter of the
    /// bits of the capacity go to the number of blocks. One block is added, so
    /// that the lower bound of the capacity reaches what is asked for.
    pub fn from_block_heuristic(min_capacity: usize) -> (r: Result<Self, Overflow>)
        requires
            heuristic_blocks(min_capacity as int) * heuristic_block_size(min_capacity as int)
                <= usize::MAX,
        ensures
            match r {
                Ok(p) => {
                    &&& p.wf()
                    &&& p.describes(
                        heuristic_blocks(min_capacity as int) + 1,
                        heuristic_block_size(min_capacity as int),
                    )
                    &&& p.capacity.lower >= min_capacity
                },
                Err(_) => !shape_fits(
                    heuristic_blocks(min_capacity as int) + 1,
                    heuristic_block_size(min_capacity as int),
                ),
            },
    {
        let log: u32 = if min_capacity > 0 {
            compute_floor_log2(min_capacity)
        } else {
            0
        };
        let quarter: u32 = log / 4 + (if log % 4 > 0 { 1u32 } else { 0u32 });
        let num_blocks_log: u32 = if quarter > 1 { quarter } else { 1 };
        proof {
            lemma_word_count();
            assert(quarter == (log + 3) / 4);
            assert(num_blocks_log < 17);
            lemma_low_ones_by_shl(num_blocks_log);
            lemma_pow2_order(num_blocks_log as nat, 17);
            vstd::arithmetic::power2::lemma2_to64();
            lemma_pow2_pos(num_blocks_log as nat);
            if min_capacity > 0 {
                Self::lemma_rounded_up(min_capacity as int, heuristic_blocks(min_capacity as int));
            }
        }
        let num_blocks: usize = 1usize << num_blocks_log;
        proof {
            assert(num_blocks >= 2) by {
                lemma_pow2_order(1, num_blocks_log as nat);
            }
            vstd::arithmetic::div_mod::lemma_div_is_ordered_by_denominator(
                min_capacity as int,
                2,
                num_blocks as int,
            );
        }
        let rounded_up: usize = min_capacity / num_blocks + (if min_capacity % num_blocks > 0 {
            1usize
        } else {
            0usize
        });
        let block_size: usize = if rounded_up > 1 {
            rounded_up
        } else {
            1
        };
        proof {
            let d = num_blocks as int;
            let x = min_capacity as int;
            let q = x / d;
            let rest = x % d;
            vstd::arithmetic::div_mod::lemma_fundamental_div_mod(x, d);
            if rest > 0 {
                assert(x + d - 1 == (q + 1) * d + (rest - 1)) by (nonlinear_arith)
                    requires
                        x == d * q + rest,
                ;
                vstd::arithmetic::div_mod::lemma_fundamental_div_mod_converse(
                    x + d - 1,
                    d,
                    q + 1,
                    rest - 1,
                );
            } else {
                vstd::arithmetic::mul::lemma_mul_is_commutative(d, q);
                vstd::arithmetic::div_mod::lemma_fundamental_div_mod_converse(
                    x + d - 1,
                    d,
                    q,
                    d - 1,
                );
            }
            assert(block_size == heuristic_block_size(x));
            vstd::arithmetic::mul::lemma_mul_is_commutative(d, block_size as int);
        }
        Self::from_block_parameters(num_blocks + 1, block_size)
    }

    /// Determines the masks and the shift from the number of blocks and the
    /// block size. Where a calculation overflows the result is an error.
    pub fn from_block_parameters(num_blocks: usize, block_size: usize) -> (r: Result<
        Self,
        Overflow,
    >)
        ensures
            match r {
                Ok(p) => p.wf() && p.describes(num_blocks as int, block_size as int),
                Err(_) => !shape_fits(num_blocks as int, block_size as int),
            },
    {
        if num_blocks == 0 || block_size == 0 {
            return Ok(
                Self {
                    num_blocks,
                    block_size,
                    capacity: Capacity::empty(),
                    version_mask: 0,
                    version_shift: 0,
                    offset_mask: 0,
                    index_mask: 0,
                },
            );
        }
        let max_capacity: usize = match num_blocks.checked_mul(block_size) {
            Some(val) => val,
            None => {
                return Err(Overflow);
            },
        };
        let index_bit_len: u32 = match Self::index_bit_length(num_blocks) {
            Some(val) => val,
            None => {
                return Err(Overflow);
            },
        };
        let offset_bit_len: u32 = match Self::offset_bit_length(block_size) {
            Some(val) => val,
            None => {
                return Err(Overflow);
            },
        };
        let version_bit_len: u32 = match Self::version_bit_length(index_bit_len, offset_bit_len) {
            Some(val) => val,
            None => {
                return Err(Overflow);
            },
        };
        if offset_bit_len >= usize::BITS || index_bit_len >= usize::BITS {
            return Err(Overflow);
        }
        proof {
            let s = low_bits(num_blocks as int, block_size as int);
            lemma_low_ones_by_shr(s as u32);
            lemma_pow2_pos(s);
            lemma_word_count();
            lemma_pow2_order(s, usize::BITS as nat);
            lemma_not((pow2(s) - 1) as usize);
            lemma_low_ones_by_shl(offset_bit_len);
            lemma_low_ones_by_shl(index_bit_len);
            assert((num_blocks - 1) * block_size <= num_blocks * block_size) by (nonlinear_arith)
                requires
                    num_blocks >= 1,
                    block_size >= 0,
            ;
            assert((num_blocks - 1) * block_size >= 0) by (nonlinear_arith)
                requires
                    num_blocks >= 1,
                    block_size >= 0,
            ;
        }
        let version_mask: usize = !(usize::MAX >> version_bit_len);
        let version_shift: u32 = usize::BITS - version_bit_len;
        let offset_mask: usize = !(usize::MAX << offset_bit_len);
        let index_mask: usize = !(usize::MAX << index_bit_len);
        let min_capacity: usize = (num_blocks - 1) * block_size;
        Ok(
            Self {
                num_blocks,
                block_size,
                capacity: Capacity { upper: max_capacity, lower: min_capacity },
                version_mask,
                version_shift,
                offset_mask,
                index_mask,
            },
        )
    }

    /// Whether the parameters are those of a shape that can be represented.
    pub fn is_well_formed(&self) -> (b: bool)
        ensures
            b == self.wf(),
    {
        match Self::from_block_parameters(self.num_blocks, self.block_size) {
            Ok(params) => params == *self,
            Err(_) => false,
        }
    }

    /// The number of bits of the index field of a head word: enough to
    /// represent every block.
    pub fn index_bit_length(num_blocks: usize) -> (r: Option<u32>)
        ensures
            r == if index_bits(num_blocks as int) < usize::BITS {
                Some(index_bits(num_blocks as int) as u32)
            } else {
                None
            },
    {
        let log: u32 = compute_ceil_log2(num_blocks);
        if log < usize::BITS {
            Some(log)
        } else {
            None
        }
    }

    /// The number of bits of the offset field of a cursor word: enough to
    /// represent the block size, and one more.
    pub fn offset_bit_length(block_size: usize) -> (r: Option<u32>)
        ensures
            r == if offset_bits(block_size as int) <= usize::BITS {
                Some(offset_bits(block_size as int) as u32)
            } else {
                None
            },
    {
        let log: u32 = compute_ceil_log2(block_size);
        if log < usize::BITS {
            Some(log + 1)
        } else {
            None
        }
    }

    /// The number of bits of the version field: what the longer low field leaves.
    pub fn version_bit_length(index_bit_len: u32, offset_bit_len: u32) -> (r: Option<u32>)
        ensures
            r == {
                let longer = if index_bit_len > offset_bit_len {
                    index_bit_len
                } else {
                    offset_bit_len
                };
                if longer <= usize::BITS {
                    Some((usize::BITS - longer) as u32)
                } else {
                    None
                }
            },
    {
        let max_bit_len: u32 = if index_bit_len > offset_bit_len {
            index_bit_len
        } else {
            offset_bit_len
        };
        usize::BITS.checked_sub(max_bit_len)
    }

    /// Whether the offset field can hold `offset`.
    pub fn check_offset_in_range(&self, offset: usize) -> (b: bool)
        requires
            self.wf(),
        ensures
            b == (offset < self.offsets()),
    {
        proof {
            self.lemma_layout();
            self.lemma_pack(0, 0, offset);
            if offset < self.offsets() {
                vstd::arithmetic::div_mod::lemma_small_mod(offset as nat, self.offsets() as nat);
            }
        }
        (offset & self.offset_mask) == offset
    }

    /// Whether the index field can hold `index`.
    pub fn check_index_in_range(&self, index: usize) -> (b: bool)
        requires
            self.wf(),
        ensures
            b == (index < self.indices()),
    {
        proof {
            self.lemma_layout();
            self.lemma_pack(0, 0, index);
            if index < self.indices() {
                vstd::arithmetic::div_mod::lemma_small_mod(index as nat, self.indices() as nat);
            }
        }
        (index & self.index_mask) == index
    }

    /// Whether the version field can hold `version`.
    pub fn check_version_in_range(&self, version: usize) -> (b: bool)
        requires
            self.wf(),
        ensures
            b == (version < self.versions()),
    {
        let packed_version: usize = (version << self.version_shift) & self.version_mask;
        let unpacked_version: usize = (packed_version & self.version_mask) >> self.version_shift;
        proof {
            self.lemma_layout();
            self.lemma_pack(version, 0, packed_version);
            let mask = self.offset_mask;
            assert(packed_version | (0usize & mask) == packed_version) by (bit_vector);
            let kept = version as int % self.versions();
            let unit = self.unit();
            vstd::arithmetic::div_mod::lemma_mod_bound(version as int, self.versions());
            vstd::arithmetic::mul::lemma_mul_is_commutative(kept, unit);
            assert(0int % self.offsets() == 0) by {
                vstd::arithmetic::div_mod::lemma_small_mod(0, self.offsets() as nat);
            }
            vstd::arithmetic::div_mod::lemma_fundamental_div_mod_converse(
                packed_version as int,
                unit,
                kept,
                0,
            );
            if version < self.versions() {
                vstd::arithmetic::div_mod::lemma_small_mod(
                    version as nat,
                    self.versions() as nat,
                );
            }
        }
        unpacked_version == version
    }
}

/// Block counts and block sizes that fit in half of the bits of a machine word
/// can always be represented.
pub proof fn lemma_half_word_shapes_fit(num_blocks: usize, block_size: usize)
    requires
        num_blocks < pow2((usize::BITS - usize::BITS / 2) as nat),
        block_size < pow2((usize::BITS - usize::BITS / 2) as nat),
    ensures
        shape_fits(num_blocks as int, block_size as int),
{
    lemma_word_count();
    let half = (usize::BITS / 2) as nat;
    lemma_pow2_adds(half, half);
    if num_blocks > 0 && block_size > 0 {
        let h = pow2(half) as int;
        lemma_ceil_log2_le(num_blocks as int, half);
        lemma_ceil_log2_le(block_size as int, half);
        assert(num_blocks * block_size <= h * h) by (nonlinear_arith)
            requires
                0 <= num_blocks < h,
                0 <= block_size < h,
        ;
        assert(num_blocks * block_size < h * h) by (nonlinear_arith)
            requires
                0 <= num_blocks < h,
                0 <= block_size < h,
        ;
    }
}

/// The lower bound of the capacity falls short of the upper bound by one block.
pub proof fn lemma_capacity_bounds(params: QueueParameters)
    requires
        params.wf(),
    ensures
        params.holds_elements() ==> params.capacity.upper - params.capacity.lower
            == params.block_size,
        params.capacity.lower <= params.capacity.upper,
        params.capacity.upper == params.num_blocks * params.block_size,
{
    let nb = params.num_blocks as int;
    let bs = params.block_size as int;
    if params.holds_elements() {
        assert((nb - 1) * bs == nb * bs - bs) by (nonlinear_arith);
    } else {
        assert(nb * bs == 0) by (nonlinear_arith)
            requires
                nb == 0 || bs == 0,
        ;
    }
}

/// A shape of few blocks, rounded up to hold a capacity that leaves two bits of
/// a machine word unused, can be represented, also with one more block.
pub proof fn lemma_rounded_shape_fits(capacity: int, blocks_log: nat, block_size: int)
    requires
        0 < capacity <= usize::MAX / 4,
        1 <= blocks_log <= 16,
        block_size == (capacity + pow2(blocks_log) - 1) / (pow2(blocks_log) as int),
    ensures
        pow2(blocks_log) * block_size <= usize::MAX,
        shape_fits(pow2(blocks_log) as int, block_size),
        shape_fits(pow2(blocks_log) as int + 1, block_size),
{
    let d = pow2(blocks_log) as int;
    let top = (usize::BITS - 2) as nat;
    lemma_word_count();
    lemma2_to64();
    lemma_pow2_order(1, blocks_log);
    lemma_pow2_order(blocks_log, 16);
    QueueParameters::lemma_rounded_up(capacity, d);
    vstd::arithmetic::div_mod::lemma_fundamental_div_mod(capacity + d - 1, d);
    vstd::arithmetic::div_mod::lemma_mod_bound(capacity + d - 1, d);
    assert(d * block_size <= capacity + d - 1);
    assert(2 * block_size <= capacity + 1 + d) by (nonlinear_arith)
        requires
            d * block_size <= capacity + d - 1,
            d >= 2,
            block_size >= 1,
    ;
    assert((d + 1) * block_size == d * block_size + block_size) by (nonlinear_arith);
    lemma_pow2_unfold(blocks_log + 1);
    lemma_ceil_log2_le(d, blocks_log + 1);
    lemma_ceil_log2_le(d + 1, blocks_log + 1);
    lemma_pow2_unfold(usize::BITS as nat);
    lemma_pow2_unfold((usize::BITS - 1) as nat);
    assert(block_size <= pow2(top)) by {
        lemma_pow2_order(30, top);
    }
    lemma_ceil_log2_le(block_size, top);
}

/// The fourth power of a power of two.
pub proof fn lemma_fourth_power(k: nat)
    ensures
        pow2(4 * k) == pow2(k) * pow2(k) * pow2(k) * pow2(k),
{
    lemma_pow2_adds(k, k);
    lemma_pow2_adds(2 * k, k);
    lemma_pow2_adds(3 * k, k);
}

/// The least multiple that reaches a number.
pub proof fn lemma_least_multiple(x: int, d: int)
    requires
        x > 0,
        d > 0,
    ensures
        (x + d - 1) / d >= 1,
        x <= d * ((x + d - 1) / d),
        d * ((x + d - 1) / d - 1) < x,
{
    let q = (x + d - 1) / d;
    vstd::arithmetic::div_mod::lemma_fundamental_div_mod(x + d - 1, d);
    vstd::arithmetic::div_mod::lemma_mod_bound(x + d - 1, d);
    assert(d * (q - 1) == d * q - d) by (nonlinear_arith);
    assert(q >= 1) by (nonlinear_arith)
        requires
            d * q > 0,
            d > 0,
    ;
}

/// The number of blocks, before one is added, is a power of two, and no less than
/// two. It is about the fourth root of the capacity: half of the capacity is less
/// than its fourth power, and no less than the fourth power of its half, unless
/// there are two blocks.
pub proof fn lemma_heuristic_blocks(min_capacity: int)
    requires
        0 < min_capacity,
    ensures
        ({
            let blocks = heuristic_blocks(min_capacity);
            let half = blocks / 2;
            &&& blocks >= 2
            &&& exists|k: nat| blocks == #[trigger] pow2(k)
            &&& min_capacity < 2 * (blocks * blocks * blocks * blocks)
            &&& blocks == 2 || 2 * (half * half * half * half) <= min_capacity
        }),
{
    let log = floor_log2(min_capacity);
    let rounded = (log + 3) / 4;
    let q = if rounded > 1 {
        rounded
    } else {
        1
    };
    lemma2_to64();
    lemma_floor_log2(min_capacity);
    lemma_pow2_order(1, q);
    lemma_fourth_power(q);
    lemma_fourth_power((q - 1) as nat);
    lemma_pow2_adds(1, (q - 1) as nat);
    lemma_pow2_adds(1, 4 * q);
    lemma_pow2_adds(1, 4 * ((q - 1) as nat));
    lemma_pow2_order(log + 1, 4 * q + 1);
    lemma_pow2_order(4 * ((q - 1) as nat) + 1, log);
    assert(heuristic_blocks(min_capacity) == pow2(q));
    assert(heuristic_blocks(min_capacity) / 2 == pow2((q - 1) as nat));
}

/// The blocks, without the one that is added, hold the capacity, and would not if
/// they were smaller.
pub proof fn lemma_heuristic_block_size(min_capacity: int)
    requires
        0 <= min_capacity,
    ensures
        ({
            let blocks = heuristic_blocks(min_capacity);
            let size = heuristic_block_size(min_capacity);
            &&& size >= 1
            &&& min_capacity <= blocks * size
            &&& size == 1 || blocks * (size - 1) < min_capacity
        }),
{
    let blocks = heuristic_blocks(min_capacity);
    let quarter = (if min_capacity > 0 {
        floor_log2(min_capacity) + 3
    } else {
        0
    }) / 4;
    lemma_pow2_pos(if quarter > 1 {
        quarter as nat
    } else {
        1
    });
    if min_capacity > 0 {
        lemma_least_multiple(min_capacity, blocks);
    }
}

/// The index field holds every index of a block and is as short as that allows.
/// The offset field holds every count up to the size of a block, and at least as
/// many counts more, and is as short as that allows.
pub proof fn lemma_fields_are_short(num_blocks: int, block_size: int)
    requires
        num_blocks >= 1,
        block_size >= 1,
    ensures
        num_blocks <= pow2(index_bits(num_blocks)) < 2 * num_blocks,
        2 * block_size <= pow2(offset_bits(block_size)) < 4 * block_size,
{
    lemma2_to64();
    lemma_ceil_log2(num_blocks);
    lemma_ceil_log2(block_size);
    if index_bits(num_blocks) > 0 {
        lemma_pow2_unfold(index_bits(num_blocks));
    }
    if ceil_log2(block_size) > 0 {
        lemma_pow2_unfold(ceil_log2(block_size));
    }
    lemma_pow2_unfold(offset_bits(block_size));
}

/// A queue can be made for every capacity that leaves two bits of a machine word unused.
pub proof fn lemma_heuristic_fits(min_capacity: int)
    requires
        0 <= min_capacity <= usize::MAX / 4,
    ensures
        heuristic_blocks(min_capacity) * heuristic_block_size(min_capacity) <= usize::MAX,
        shape_fits(heuristic_blocks(min_capacity) + 1, heuristic_block_size(min_capacity)),
        heuristic_blocks(min_capacity) >= 2,
        heuristic_block_size(min_capacity) >= 1,
        heuristic_blocks(min_capacity) * heuristic_block_size(min_capacity) >= min_capacity,
{
    lemma_word_count();
    lemma2_to64();
    if min_capacity > 0 {
        lemma_floor_log2(min_capacity);
        lemma_pow2_order(floor_log2(min_capacity), usize::BITS as nat);
        let quarter = (floor_log2(min_capacity) + 3) / 4;
        let blocks_log: nat = if quarter > 1 {
            quarter as nat
        } else {
            1
        };
        lemma_pow2_order(1, blocks_log);
        lemma_rounded_shape_fits(min_capacity, blocks_log, heuristic_block_size(min_capacity));
        QueueParameters::lemma_rounded_up(min_capacity, heuristic_blocks(min_capacity));
        vstd::arithmetic::mul::lemma_mul_is_commutative(
            heuristic_blocks(min_capacity),
            heuristic_block_size(min_capacity),
        );
    } else {
        lemma_ceil_log2_le(3, 2);
        lemma_ceil_log2_le(1, 0);
    }
}

}
