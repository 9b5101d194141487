//! Bit-level facts about `u128` words, on which the dense vertex set rests.

use vstd::prelude::*;

verus! {

/// Whether bit `i` of `w` is set.  Positions from 128 on are never set.
pub open spec fn bit_at(w: u128, i: u128) -> bool {
    i < 128 && (w >> i) & 1 == 1
}

/// The number of set bits among the lowest `n` bits of `w`.
pub open spec fn bit_count(w: u128, n: nat) -> nat
    decreases n,
{
    if n == 0 {
        0
    } else {
        bit_count(w, (n - 1) as nat) + if bit_at(w, (n - 1) as u128) { 1nat } else { 0nat }
    }
}

/// The word whose set bits are the positions `start <= i < end`.
pub open spec fn range_mask(start: u128, end: u128) -> u128 {
    if start >= 128 {
        0
    } else if end - start >= 128 {
        u128::MAX
    } else {
        (((1u128 << ((end - start) as u128)) - 1) as u128) << start
    }
}

/// `u128::count_ones` returns the number of set bits of the word.
pub assume_specification[ u128::count_ones ](w: u128) -> (r: u32)
    ensures
        r as nat == bit_count(w, 128),
;

/// `u128::trailing_zeros` returns the position of the lowest set bit, and 128
/// for the zero word.
pub assume_specification[ u128::trailing_zeros ](w: u128) -> (r: u32)
    ensures
        r <= 128,
        w == 0 <==> r == 128,
        r < 128 ==> bit_at(w, r as u128),
        forall|j: u128| j < r ==> !bit_at(w, j),
;

/// `u128::leading_zeros` returns the number of clear bits above the highest
/// set bit, and 128 for the zero word.
pub assume_specification[ u128::leading_zeros ](w: u128) -> (r: u32)
    ensures
        r <= 128,
        w == 0 <==> r == 128,
        r < 128 ==> bit_at(w, (127 - r) as u128),
        forall|j: u128| 128 - r <= j < 128 ==> !bit_at(w, j),
;

/// The zero word has no set bit.
pub proof fn lemma_bit_zero(i: u128)
    by (bit_vector)
    ensures
        !bit_at(0, i),
{
}

/// The full word has every bit below 128 set.
pub proof fn lemma_bit_full(i: u128)
    by (bit_vector)
    ensures
        bit_at(u128::MAX, i) == (i < 128),
{
}

/// A bit of `a | b` is set where it is set in `a` or in `b`.
pub proof fn lemma_bit_or(a: u128, b: u128, i: u128)
    by (bit_vector)
    ensures
        bit_at(a | b, i) == (bit_at(a, i) || bit_at(b, i)),
{
}

/// A bit of `a & b` is set where it is set in `a` and in `b`.
pub proof fn lemma_bit_and(a: u128, b: u128, i: u128)
    by (bit_vector)
    ensures
        bit_at(a & b, i) == (bit_at(a, i) && bit_at(b, i)),
{
}

/// A bit of `a & !b` is set where it is set in `a` and not in `b`.
pub proof fn lemma_bit_and_not(a: u128, b: u128, i: u128)
    by (bit_vector)
    ensures
        bit_at(a & !b, i) == (bit_at(a, i) && !bit_at(b, i)),
{
}

/// The word `1 << v` has the one set bit `v`.
pub proof fn lemma_bit_single(v: u128, i: u128)
    by (bit_vector)
    requires
        v < 128,
    ensures
        bit_at(1u128 << v, i) == (i == v),
{
}

/// The word `(1 << len) - 1` has the bits below `len` set.
pub proof fn lemma_bit_low_mask(len: u128, i: u128)
    by (bit_vector)
    requires
        len < 128,
    ensures
        bit_at(((1u128 << len) - 1) as u128, i) == (i < len),
{
}

/// Bit `i` of `w << s` is bit `i - s` of `w`.
pub proof fn lemma_bit_shl(w: u128, s: u128, i: u128)
    by (bit_vector)
    requires
        s < 128,
    ensures
        bit_at(w << s, i) == (s <= i < 128 && bit_at(w, (i - s) as u128)),
{
}

/// The range mask has the bits `start <= i < end` set.
pub proof fn lemma_bit_range(start: u128, end: u128, i: u128)
    requires
        start <= end <= 128,
    ensures
        bit_at(range_mask(start, end), i) == (start <= i < end),
{
    if start >= 128 {
        lemma_bit_zero(i);
    } else if end - start >= 128 {
        lemma_bit_full(i);
    } else {
        let len = (end - start) as u128;
        let low = ((1u128 << len) - 1) as u128;
        lemma_bit_shl(low, start, i);
        if start <= i {
            lemma_bit_low_mask(len, (i - start) as u128);
        }
    }
}

/// Where the difference of two words has a set bit, the two differ in that bit.
pub proof fn lemma_bit_differ(a: u128, b: u128, i: u128)
    by (bit_vector)
    requires
        bit_at(a ^ b, i),
    ensures
        bit_at(a, i) != bit_at(b, i),
{
}

/// The difference of two words is zero exactly where the two are the same.
pub proof fn lemma_bit_xor_zero(a: u128, b: u128)
    by (bit_vector)
    ensures
        (a ^ b) == 0 <==> a == b,
{
}

/// The lowest `n` bits of `w`.
pub open spec fn low_bits(w: u128, n: u128) -> u128 {
    if n >= 128 {
        w
    } else {
        w & (((1u128 << n) - 1) as u128)
    }
}

/// The lowest no bits of a word are zero.
proof fn lemma_low_bits_base(w: u128)
    by (bit_vector)
    ensures
        low_bits(w, 0) == 0,
{
}

/// Where the lowest `n + 1` bits are not all clear, bit `n` is set or the
/// lowest `n` bits are not all clear.
proof fn lemma_low_bits_step(w: u128, n: u128)
    by (bit_vector)
    requires
        n < 128,
        low_bits(w, (n + 1) as u128) != 0,
    ensures
        bit_at(w, n) || low_bits(w, n) != 0,
{
}

/// A position below `n` at which `w` has a set bit, where its lowest `n`
/// bits are not all clear.
pub proof fn lemma_low_bits_witness(w: u128, n: u128) -> (i: u128)
    requires
        n <= 128,
        low_bits(w, n) != 0,
    ensures
        i < n,
        bit_at(w, i),
    decreases n,
{
    if n == 0 {
        lemma_low_bits_base(w);
        0
    } else {
        let m = (n - 1) as u128;
        lemma_low_bits_step(w, m);
        if bit_at(w, m) {
            m
        } else {
            lemma_low_bits_witness(w, m)
        }
    }
}

/// Two words with the same set bits are the same word.
pub proof fn lemma_bits_equal(a: u128, b: u128)
    requires
        forall|i: u128| i < 128 ==> bit_at(a, i) == bit_at(b, i),
    ensures
        a == b,
{
    if a != b {
        lemma_bit_xor_zero(a, b);
        let i = lemma_low_bits_witness(a ^ b, 128);
        lemma_bit_differ(a, b, i);
    }
}

/// A word without set bits is zero.
pub proof fn lemma_bits_zero(w: u128)
    requires
        forall|i: u128| i < 128 ==> !bit_at(w, i),
    ensures
        w == 0,
{
    assert forall|i: u128| i < 128 implies bit_at(w, i) == bit_at(0, i) by {
        lemma_bit_zero(i);
    }
    lemma_bits_equal(w, 0);
}

/// The positions below `n` at which `w` has a set bit.
pub open spec fn bits_below(w: u128, n: nat) -> Set<nat> {
    Set::new(|i: nat| i < n && bit_at(w, i as u128))
}

/// `bit_count` is the size of the set of set positions.
pub proof fn lemma_bit_count_is_len(w: u128, n: nat)
    requires
        n <= 128,
    ensures
        bits_below(w, n).finite(),
        bits_below(w, n).len() == bit_count(w, n),
    decreases n,
{
    if n == 0 {
        assert(bits_below(w, 0) =~= Set::<nat>::empty());
    } else {
        let m = (n - 1) as nat;
        lemma_bit_count_is_len(w, m);
        if bit_at(w, m as u128) {
            assert(bits_below(w, n) =~= bits_below(w, m).insert(m));
        } else {
            assert(bits_below(w, n) =~= bits_below(w, m));
        }
    }
}

/// Clearing one set bit lowers the count by one, wherever the count reaches it.
pub proof fn lemma_bit_count_clear(w: u128, v: u128, n: nat)
    requires
        n <= 128,
        bit_at(w, v),
    ensures
        bit_count(w & !(1u128 << v), n) + (if v < n { 1nat } else { 0nat }) == bit_count(w, n),
    decreases n,
{
    if n > 0 {
        let m = (n - 1) as nat;
        lemma_bit_count_clear(w, v, m);
        lemma_bit_and_not(w, 1u128 << v, m as u128);
        lemma_bit_single(v, m as u128);
    }
}

/// The count over fewer positions is no larger.
pub proof fn lemma_bit_count_monotone(w: u128, m: nat, n: nat)
    requires
        m <= n,
    ensures
        bit_count(w, m) <= bit_count(w, n) <= bit_count(w, m) + (n - m),
    decreases n,
{
    if m < n {
        lemma_bit_count_monotone(w, m, (n - 1) as nat);
    }
}

/// The word after `w`, and zero after the last one.
pub open spec fn next_word(w: u128) -> u128 {
    if w == u128::MAX {
        0
    } else {
        (w + 1) as u128
    }
}

/// Whether the set bits of `w` are an initial run: below every set bit all
/// bits are set.
pub open spec fn is_low_run(w: u128) -> bool {
    forall|i: u128, j: u128| i < j < 128 && bit_at(w, j) ==> bit_at(w, i)
}

/// Where `w & next_word(w)` is zero, every bit below a set bit is set.
proof fn lemma_low_run_bv(w: u128, i: u128, j: u128)
    by (bit_vector)
    requires
        w & next_word(w) == 0,
        i < j < 128,
        bit_at(w, j),
    ensures
        bit_at(w, i),
{
}

/// Where the bits of `w` up to `j` are all set, bit `j` of the next word is
/// clear.
proof fn lemma_carry_bv(w: u128, j: u128)
    by (bit_vector)
    requires
        j < 128,
        low_bits(w, (j + 1) as u128) == low_bits(u128::MAX, (j + 1) as u128),
    ensures
        !bit_at(next_word(w), j),
{
}

/// A bit of the lowest `n` bits of `w` is set where it is below `n` and set
/// in `w`.
proof fn lemma_low_bits_bit(w: u128, n: u128, i: u128)
    by (bit_vector)
    requires
        n <= 128,
    ensures
        bit_at(low_bits(w, n), i) == (i < n && bit_at(w, i)),
{
}

/// `w & next_word(w) == 0` says that the set bits of `w`
/// are an initial run.
pub proof fn lemma_low_run(w: u128)
    ensures
        (w & next_word(w) == 0) <==> is_low_run(w),
{
    if w & next_word(w) == 0 {
        assert forall|i: u128, j: u128| i < j < 128 && bit_at(w, j) implies bit_at(w, i) by {
            lemma_low_run_bv(w, i, j);
        }
    }
    if is_low_run(w) && w & next_word(w) != 0 {
        let y = w & next_word(w);
        let j = lemma_low_bits_witness(y, 128);
        lemma_bit_and(w, next_word(w), j);
        let n = (j + 1) as u128;
        assert forall|i: u128| i < 128 implies bit_at(low_bits(w, n), i) == bit_at(
            low_bits(u128::MAX, n),
            i,
        ) by {
            lemma_low_bits_bit(w, n, i);
            lemma_low_bits_bit(u128::MAX, n, i);
            lemma_bit_full(i);
        }
        lemma_bits_equal(low_bits(w, n), low_bits(u128::MAX, n));
        lemma_carry_bv(w, j);
    }
}

/// The set bits of an initial run are the positions below its count.
pub proof fn lemma_low_run_count(w: u128, i: u128)
    requires
        is_low_run(w),
        i < 128,
    ensures
        bit_at(w, i) <==> i < bit_count(w, 128),
{
    if bit_at(w, i) {
        lemma_low_run_full_below(w, (i + 1) as nat);
        lemma_bit_count_monotone(w, (i + 1) as nat, 128);
    } else {
        lemma_low_run_none_above(w, i as nat, 128);
        lemma_bit_count_monotone(w, 0, i as nat);
    }
}

/// In an initial run with bit `n - 1` set, the lowest `n` bits are all set.
proof fn lemma_low_run_full_below(w: u128, n: nat)
    requires
        is_low_run(w),
        0 < n <= 128,
        bit_at(w, (n - 1) as u128),
    ensures
        bit_count(w, n) == n,
    decreases n,
{
    if n > 1 {
        assert(bit_at(w, (n - 2) as u128));
        lemma_low_run_full_below(w, (n - 1) as nat);
    } else {
        assert(bit_count(w, 0) == 0);
    }
}

/// In an initial run with bit `m` clear, no bit from `m` on is set.
proof fn lemma_low_run_none_above(w: u128, m: nat, n: nat)
    requires
        is_low_run(w),
        m <= n <= 128,
        m < 128,
        !bit_at(w, m as u128),
    ensures
        bit_count(w, n) == bit_count(w, m),
    decreases n,
{
    if m < n {
        lemma_low_run_none_above(w, m, (n - 1) as nat);
        if m < n - 1 {
            assert(!bit_at(w, (n - 1) as u128));
        }
    }
}

} // verus!
