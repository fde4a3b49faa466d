//! Powers of two and the bit patterns that packed words are made of.

use vstd::arithmetic::power2::{
    lemma2_to64, lemma2_to64_rest, lemma_pow2_adds, lemma_pow2_pos, lemma_pow2_strictly_increases,
    lemma_pow2_unfold, pow2,
};
use vstd::bits::{
    lemma_usize_low_bits_mask_is_mod, lemma_usize_pow2_no_overflow, lemma_usize_shl_is_mul,
    lemma_usize_shr_is_div,
};
use vstd::prelude::*;

verus! {

/// The least `k` with `x <= 2^k`.
pub open spec fn ceil_log2(x: int) -> nat
    decreases x,
{
    if x <= 1 {
        0
    } else {
        1 + ceil_log2((x + 1) / 2)
    }
}

/// The greatest `k` with `2^k <= x`, for a positive `x`.
pub open spec fn floor_log2(x: int) -> nat
    decreases x,
{
    if x <= 1 {
        0
    } else {
        1 + floor_log2(x / 2)
    }
}

/// `ceil_log2` is the least exponent whose power reaches `x`.
pub proof fn lemma_ceil_log2(x: int)
    requires
        x >= 1,
    ensures
        x <= pow2(ceil_log2(x)),
        ceil_log2(x) > 0 ==> pow2((ceil_log2(x) - 1) as nat) < x,
    decreases x,
{
    lemma2_to64();
    if x > 1 {
        let half = (x + 1) / 2;
        lemma_ceil_log2(half);
        lemma_pow2_unfold(ceil_log2(x));
        if ceil_log2(half) > 0 {
            lemma_pow2_unfold(ceil_log2(half));
        }
    }
}

/// `floor_log2` is the greatest exponent whose power does not exceed `x`.
pub proof fn lemma_floor_log2(x: int)
    requires
        x >= 1,
    ensures
        pow2(floor_log2(x)) <= x < pow2(floor_log2(x) + 1),
    decreases x,
{
    lemma2_to64();
    if x > 1 {
        lemma_floor_log2(x / 2);
        lemma_pow2_unfold(floor_log2(x));
        lemma_pow2_unfold(floor_log2(x) + 1);
    }
}

/// `pow2` is strictly monotonic, in the form in which exponents are compared
/// through their powers.
pub proof fn lemma_pow2_order(a: nat, b: nat)
    ensures
        a < b <==> pow2(a) < pow2(b),
        a <= b <==> pow2(a) <= pow2(b),
{
    if a < b {
        lemma_pow2_strictly_increases(a, b);
    } else if b < a {
        lemma_pow2_strictly_increases(b, a);
    }
}

/// `ceil_log2(x) <= k` says that `x` does not exceed `2^k`.
pub proof fn lemma_ceil_log2_le(x: int, k: nat)
    requires
        x >= 1,
    ensures
        ceil_log2(x) <= k <==> x <= pow2(k),
{
    lemma_ceil_log2(x);
    lemma_pow2_order(ceil_log2(x), k);
    if ceil_log2(x) > 0 {
        lemma_pow2_order(k, (ceil_log2(x) - 1) as nat);
        lemma_pow2_order((ceil_log2(x) - 1) as nat, k);
    }
    lemma_pow2_pos(k);
}

/// The number of values of a machine word.
pub open spec fn word_count() -> int {
    usize::MAX + 1
}

pub proof fn lemma_word_count()
    ensures
        usize::BITS == 32 || usize::BITS == 64,
        word_count() == pow2(usize::BITS as nat),
{
    lemma2_to64();
    lemma2_to64_rest();
}

/// The greatest word has every bit set.
pub proof fn lemma_all_ones()
    ensures
        usize::MAX == !0usize,
{
    let max = usize::MAX;
    assert(max <= !0usize) by (bit_vector);
}

/// `usize::MAX >> (BITS - s)` keeps the low `s` bits set.
pub proof fn lemma_low_ones_by_shr(s: u32)
    requires
        0 < s <= usize::BITS,
    ensures
        usize::MAX >> ((usize::BITS - s) as u32) == pow2(s as nat) - 1,
{
    lemma_word_count();
    let k = (usize::BITS - s) as nat;
    lemma_usize_shr_is_div(usize::MAX, k as usize);
    lemma_pow2_adds(k, s as nat);
    lemma_pow2_pos(k);
    lemma_pow2_pos(s as nat);
    let d = pow2(k) as int;
    let q = pow2(s as nat) as int;
    assert(usize::MAX == d * (q - 1) + (d - 1)) by (nonlinear_arith)
        requires
            usize::MAX + 1 == d * q,
    ;
    vstd::arithmetic::div_mod::lemma_fundamental_div_mod_converse(
        usize::MAX as int,
        d,
        q - 1,
        d - 1,
    );
}

/// `!(usize::MAX << k)` keeps the low `k` bits set.
pub proof fn lemma_low_ones_by_shl(k: u32)
    requires
        k < usize::BITS,
    ensures
        !(usize::MAX << k) == pow2(k as nat) - 1,
        1usize << k == pow2(k as nat),
        pow2(k as nat) <= usize::MAX,
{
    lemma_usize_pow2_no_overflow(k as nat);
    lemma_usize_shl_is_mul(1, k as usize);
    lemma_all_ones();
    assert(!(!0usize << k) == (1usize << k) - 1) by (bit_vector)
        requires
            k < usize::BITS,
    ;
    lemma_pow2_pos(k as nat);
}

/// The complement of a word.
pub proof fn lemma_not(x: usize)
    ensures
        !x == usize::MAX - x,
{
    lemma_all_ones();
    assert(!x == !0usize - x) by (bit_vector);
}

/// Masking with the low `k` bits is the remainder by `2^k`.
pub proof fn lemma_and_low_ones(x: usize, mask: usize, k: nat)
    requires
        k < usize::BITS,
        mask == pow2(k) - 1,
    ensures
        x & mask == x as int % (mask + 1),
{
    lemma_usize_low_bits_mask_is_mod(x, k);
    lemma_usize_pow2_no_overflow(k);
    lemma_pow2_pos(k);
}

/// The layout of a packed word: a field of `ob` low bits below a version field
/// that starts at bit `s`, where `ob <= s`.
///
/// Packing shifts the version up, cuts what does not fit and puts the low field
/// below it; unpacking reads the two fields back.
pub proof fn lemma_word_fields(version: usize, low: usize, raw: usize, s: u32, ob: nat, vmask: usize, lmask: usize)
    requires
        0 < s < usize::BITS,
        ob <= s,
        vmask == usize::MAX - (pow2(s as nat) - 1),
        lmask == pow2(ob) - 1,
    ensures
        ((version << s) & vmask) | (low & lmask) == (version as int % (word_count() / pow2(
            s as nat,
        ) as int)) * pow2(s as nat) + low as int % (lmask + 1),
        (raw & vmask) >> s == raw as int / pow2(s as nat) as int,
        raw & lmask == raw as int % (lmask + 1),
{
    lemma_word_count();
    lemma_and_low_ones(low, lmask, ob);
    lemma_and_low_ones(raw, lmask, ob);
    lemma_low_ones_by_shl(s);
    let ones = (pow2(s as nat) - 1) as usize;
    lemma_not(ones);
    assert(vmask == !ones);
    // the low field stays below the version field
    lemma_pow2_order(ob, s as nat);
    let field = low & lmask;
    assert(field <= ones);
    // what the shift keeps of the version
    let vbits = (usize::BITS - s) as u32;
    let top = usize::MAX >> s;
    lemma_all_ones();
    lemma_low_ones_by_shr(vbits);
    assert((usize::BITS - vbits) as u32 == s);
    lemma_and_low_ones(version, top, vbits as nat);
    let kept = version & top;
    assert(ones == (1usize << s) - 1);
    assert((version << s) & !ones == kept << s) by (bit_vector)
        requires
            0 < s < usize::BITS,
            ones == (1usize << s) - 1,
            top == !0usize >> s,
            kept == version & top,
    ;
    assert((kept << s) | field == (kept << s) + field) by (bit_vector)
        requires
            0 < s < usize::BITS,
            ones == (1usize << s) - 1,
            field <= ones,
    ;
    lemma_pow2_adds(s as nat, vbits as nat);
    lemma_pow2_pos(s as nat);
    lemma_pow2_pos(vbits as nat);
    let unit = pow2(s as nat) as int;
    let versions = pow2(vbits as nat) as int;
    vstd::arithmetic::div_mod::lemma_fundamental_div_mod_converse(word_count(), unit, versions, 0);
    assert(kept < versions);
    assert(kept * unit <= usize::MAX) by (nonlinear_arith)
        requires
            0 <= kept < versions,
            unit > 0,
            usize::MAX + 1 == unit * versions,
    ;
    lemma_usize_shl_is_mul(kept, s as usize);
    // reading the version back
    assert((raw & !ones) >> s == raw >> s) by (bit_vector)
        requires
            0 < s < usize::BITS,
            ones == (1usize << s) - 1,
    ;
    lemma_usize_shr_is_div(raw, s as usize);
}

/// The least `k` with `x <= 2^k`.
pub fn compute_ceil_log2(x: usize) -> (k: u32)
    ensures
        k == ceil_log2(x as int),
        k <= usize::BITS,
{
    proof {
        lemma_word_count();
        if x >= 1 {
            lemma_ceil_log2_le(x as int, usize::BITS as nat);
        }
    }
    let mut k: u32 = 0;
    let mut y: usize = x;
    while y > 1
        invariant
            k + ceil_log2(y as int) == ceil_log2(x as int),
            ceil_log2(x as int) <= usize::BITS,
        decreases y,
    {
        y = y / 2 + y % 2;
        k = k + 1;
    }
    k
}

/// The greatest `k` with `2^k <= x`.
pub fn compute_floor_log2(x: usize) -> (k: u32)
    requires
        x > 0,
    ensures
        k == floor_log2(x as int),
        k < usize::BITS,
{
    proof {
        lemma_word_count();
        lemma_floor_log2(x as int);
        lemma_pow2_order(floor_log2(x as int), usize::BITS as nat);
    }
    let mut k: u32 = 0;
    let mut y: usize = x;
    while y > 1
        invariant
            k + floor_log2(y as int) == floor_log2(x as int),
            floor_log2(x as int) < usize::BITS,
        decreases y,
    {
        y = y / 2;
        k = k + 1;
    }
    k
}

}
