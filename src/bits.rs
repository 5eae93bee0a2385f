use vstd::prelude::*;

verus! {

/// Whether bit `i` of `x` is set, counting from the least significant bit.
pub open spec fn bit_of(x: u64, i: u64) -> bool {
    (x >> i) & 1 == 1
}

pub proof fn lemma_bit_of_zero(i: u64)
    by (bit_vector)
    requires
        i < 64,
    ensures
        !bit_of(0, i),
{
}

pub proof fn lemma_bit_of_or(x: u64, y: u64, i: u64)
    by (bit_vector)
    requires
        i < 64,
    ensures
        bit_of(x | y, i) == (bit_of(x, i) || bit_of(y, i)),
{
}

pub proof fn lemma_bit_of_and(x: u64, y: u64, i: u64)
    by (bit_vector)
    requires
        i < 64,
    ensures
        bit_of(x & y, i) == (bit_of(x, i) && bit_of(y, i)),
{
}

pub proof fn lemma_bit_of_not(x: u64, i: u64)
    by (bit_vector)
    requires
        i < 64,
    ensures
        bit_of(!x, i) == !bit_of(x, i),
{
}

pub proof fn lemma_bit_of_shl(x: u64, s: u64, i: u64)
    by (bit_vector)
    requires
        s < 64,
        i < 64,
    ensures
        bit_of(x << s, i) == (s <= i && bit_of(x, (i - s) as u64)),
{
}

pub proof fn lemma_bit_of_shr(x: u64, s: u64, i: u64)
    by (bit_vector)
    requires
        s < 64,
        i < 64,
    ensures
        bit_of(x >> s, i) == (i + s < 64 && bit_of(x, (i + s) as u64)),
{
}

/// `u64::MAX >> (64 - k)` has exactly its low `k` bits set.
pub proof fn lemma_bit_of_low_ones(k: u64, i: u64)
    by (bit_vector)
    requires
        1 <= k <= 64,
        i < 64,
    ensures
        bit_of(u64::MAX >> ((64 - k) as u64), i) == (i < k),
{
}

pub proof fn lemma_bit_of_single(j: u64, i: u64)
    by (bit_vector)
    requires
        j < 64,
        i < 64,
    ensures
        bit_of(1u64 << j, i) == (i == j),
{
}

/// A word has bit `j` set exactly when its `and` with the single bit `j` is nonzero.
pub proof fn lemma_and_single_nonzero(x: u64, j: u64)
    by (bit_vector)
    requires
        j < 64,
    ensures
        (x & (1u64 << j) != 0) == bit_of(x, j),
{
}

proof fn lemma_shr_top_bit(a: u64, b: u64)
    by (bit_vector)
    requires
        bit_of(a, 63) == bit_of(b, 63),
    ensures
        a >> 63u64 == b >> 63u64,
{
}

proof fn lemma_shr_step(a: u64, b: u64, k: u64)
    by (bit_vector)
    requires
        k < 63,
        a >> ((k + 1) as u64) == b >> ((k + 1) as u64),
        bit_of(a, k) == bit_of(b, k),
    ensures
        a >> k == b >> k,
{
}

/// Two words that agree on every bit from `k` up agree once shifted right by `k`.
pub proof fn lemma_shr_eq_from_bits(a: u64, b: u64, k: u64)
    requires
        k < 64,
        forall|i: u64| k <= i < 64 ==> #[trigger] bit_of(a, i) == bit_of(b, i),
    ensures
        a >> k == b >> k,
    decreases 64 - k,
{
    if k == 63 {
        lemma_shr_top_bit(a, b);
    } else {
        lemma_shr_eq_from_bits(a, b, (k + 1) as u64);
        lemma_shr_step(a, b, k);
    }
}

} // verus!
