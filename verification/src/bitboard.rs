use vstd::prelude::*;
use vstd::std_specs::bits::{u64_trailing_zeros, axiom_u64_trailing_zeros};

verus! {

/// Square `k` (0 = h1, 7 = a1, 56 = h8, 63 = a8) is set in the bitboard `b`.
pub open spec fn bit(b: u64, k: int) -> bool {
    0 <= k < 64 && (b >> (k as u64)) & 1u64 == 1u64
}

/// The bitboard holding the single square `k`.
pub open spec fn square_bb(k: int) -> u64 {
    1u64 << (k as u64)
}

proof fn lemma_bit_ops(a: u64, b: u64, k: u64)
    by (bit_vector)
    requires
        k < 64,
    ensures
        ((a | b) >> k) & 1u64 == 1u64 <==> ((a >> k) & 1u64 == 1u64 || (b >> k) & 1u64 == 1u64),
        ((a & b) >> k) & 1u64 == 1u64 <==> ((a >> k) & 1u64 == 1u64 && (b >> k) & 1u64 == 1u64),
        ((a ^ b) >> k) & 1u64 == 1u64 <==> ((a >> k) & 1u64 == 1u64) != ((b >> k) & 1u64 == 1u64),
        ((!a) >> k) & 1u64 == 1u64 <==> !((a >> k) & 1u64 == 1u64),
        (0u64 >> k) & 1u64 == 0u64,
        (0xffff_ffff_ffff_ffffu64 >> k) & 1u64 == 1u64,
{
}

proof fn lemma_single_bit(k: u64, j: u64)
    by (bit_vector)
    requires
        k < 64,
        j < 64,
    ensures
        ((1u64 << k) >> j) & 1u64 == 1u64 <==> j == k,
{
}

/// A square is set in `a | b` when it is set in either.
pub broadcast proof fn lemma_bit_or(a: u64, b: u64, k: int)
    ensures
        #[trigger] bit(a | b, k) <==> bit(a, k) || bit(b, k),
{
    if 0 <= k < 64 {
        lemma_bit_ops(a, b, k as u64);
    }
}

/// A square is set in `a & b` when it is set in both.
pub broadcast proof fn lemma_bit_and(a: u64, b: u64, k: int)
    ensures
        #[trigger] bit(a & b, k) <==> bit(a, k) && bit(b, k),
{
    if 0 <= k < 64 {
        lemma_bit_ops(a, b, k as u64);
    }
}

/// A square is set in `a ^ b` when it is set in exactly one.
pub broadcast proof fn lemma_bit_xor(a: u64, b: u64, k: int)
    ensures
        #[trigger] bit(a ^ b, k) <==> bit(a, k) != bit(b, k),
{
    if 0 <= k < 64 {
        lemma_bit_ops(a, b, k as u64);
    }
}

/// A square is set in `!a` when it is not set in `a`.
pub broadcast proof fn lemma_bit_not(a: u64, k: int)
    ensures
        #[trigger] bit(!a, k) <==> 0 <= k < 64 && !bit(a, k),
{
    if 0 <= k < 64 {
        lemma_bit_ops(a, a, k as u64);
    }
}

/// The empty bitboard holds no square.
pub broadcast proof fn lemma_bit_zero(k: int)
    ensures
        !#[trigger] bit(0u64, k),
{
    if 0 <= k < 64 {
        lemma_bit_ops(0, 0, k as u64);
    }
}

/// The full bitboard holds every square.
pub broadcast proof fn lemma_bit_full(k: int)
    ensures
        #[trigger] bit(0xffff_ffff_ffff_ffffu64, k) <==> 0 <= k < 64,
{
    if 0 <= k < 64 {
        lemma_bit_ops(0, 0, k as u64);
    }
}

/// The bitboard of square `i` holds `i` and nothing else.
pub broadcast proof fn lemma_bit_single(i: int, k: int)
    requires
        0 <= i < 64,
    ensures
        #[trigger] bit(square_bb(i), k) <==> k == i,
{
    if 0 <= k < 64 {
        lemma_single_bit(i as u64, k as u64);
    }
}

pub broadcast group group_bits {
    lemma_bit_or,
    lemma_bit_and,
    lemma_bit_xor,
    lemma_bit_not,
    lemma_bit_zero,
    lemma_bit_full,
    lemma_bit_single,
}

proof fn lemma_bits_ext_raw(a: u64, b: u64)
    by (bit_vector)
    requires
        (a >> 0u64) & 1u64 == (b >> 0u64) & 1u64,
        (a >> 1u64) & 1u64 == (b >> 1u64) & 1u64,
        (a >> 2u64) & 1u64 == (b >> 2u64) & 1u64,
        (a >> 3u64) & 1u64 == (b >> 3u64) & 1u64,
        (a >> 4u64) & 1u64 == (b >> 4u64) & 1u64,
        (a >> 5u64) & 1u64 == (b >> 5u64) & 1u64,
        (a >> 6u64) & 1u64 == (b >> 6u64) & 1u64,
        (a >> 7u64) & 1u64 == (b >> 7u64) & 1u64,
        (a >> 8u64) & 1u64 == (b >> 8u64) & 1u64,
        (a >> 9u64) & 1u64 == (b >> 9u64) & 1u64,
        (a >> 10u64) & 1u64 == (b >> 10u64) & 1u64,
        (a >> 11u64) & 1u64 == (b >> 11u64) & 1u64,
        (a >> 12u64) & 1u64 == (b >> 12u64) & 1u64,
        (a >> 13u64) & 1u64 == (b >> 13u64) & 1u64,
        (a >> 14u64) & 1u64 == (b >> 14u64) & 1u64,
        (a >> 15u64) & 1u64 == (b >> 15u64) & 1u64,
        (a >> 16u64) & 1u64 == (b >> 16u64) & 1u64,
        (a >> 17u64) & 1u64 == (b >> 17u64) & 1u64,
        (a >> 18u64) & 1u64 == (b >> 18u64) & 1u64,
        (a >> 19u64) & 1u64 == (b >> 19u64) & 1u64,
        (a >> 20u64) & 1u64 == (b >> 20u64) & 1u64,
        (a >> 21u64) & 1u64 == (b >> 21u64) & 1u64,
        (a >> 22u64) & 1u64 == (b >> 22u64) & 1u64,
        (a >> 23u64) & 1u64 == (b >> 23u64) & 1u64,
        (a >> 24u64) & 1u64 == (b >> 24u64) & 1u64,
        (a >> 25u64) & 1u64 == (b >> 25u64) & 1u64,
        (a >> 26u64) & 1u64 == (b >> 26u64) & 1u64,
        (a >> 27u64) & 1u64 == (b >> 27u64) & 1u64,
        (a >> 28u64) & 1u64 == (b >> 28u64) & 1u64,
        (a >> 29u64) & 1u64 == (b >> 29u64) & 1u64,
        (a >> 30u64) & 1u64 == (b >> 30u64) & 1u64,
        (a >> 31u64) & 1u64 == (b >> 31u64) & 1u64,
        (a >> 32u64) & 1u64 == (b >> 32u64) & 1u64,
        (a >> 33u64) & 1u64 == (b >> 33u64) & 1u64,
        (a >> 34u64) & 1u64 == (b >> 34u64) & 1u64,
        (a >> 35u64) & 1u64 == (b >> 35u64) & 1u64,
        (a >> 36u64) & 1u64 == (b >> 36u64) & 1u64,
        (a >> 37u64) & 1u64 == (b >> 37u64) & 1u64,
        (a >> 38u64) & 1u64 == (b >> 38u64) & 1u64,
        (a >> 39u64) & 1u64 == (b >> 39u64) & 1u64,
        (a >> 40u64) & 1u64 == (b >> 40u64) & 1u64,
        (a >> 41u64) & 1u64 == (b >> 41u64) & 1u64,
        (a >> 42u64) & 1u64 == (b >> 42u64) & 1u64,
        (a >> 43u64) & 1u64 == (b >> 43u64) & 1u64,
        (a >> 44u64) & 1u64 == (b >> 44u64) & 1u64,
        (a >> 45u64) & 1u64 == (b >> 45u64) & 1u64,
        (a >> 46u64) & 1u64 == (b >> 46u64) & 1u64,
        (a >> 47u64) & 1u64 == (b >> 47u64) & 1u64,
        (a >> 48u64) & 1u64 == (b >> 48u64) & 1u64,
        (a >> 49u64) & 1u64 == (b >> 49u64) & 1u64,
        (a >> 50u64) & 1u64 == (b >> 50u64) & 1u64,
        (a >> 51u64) & 1u64 == (b >> 51u64) & 1u64,
        (a >> 52u64) & 1u64 == (b >> 52u64) & 1u64,
        (a >> 53u64) & 1u64 == (b >> 53u64) & 1u64,
        (a >> 54u64) & 1u64 == (b >> 54u64) & 1u64,
        (a >> 55u64) & 1u64 == (b >> 55u64) & 1u64,
        (a >> 56u64) & 1u64 == (b >> 56u64) & 1u64,
        (a >> 57u64) & 1u64 == (b >> 57u64) & 1u64,
        (a >> 58u64) & 1u64 == (b >> 58u64) & 1u64,
        (a >> 59u64) & 1u64 == (b >> 59u64) & 1u64,
        (a >> 60u64) & 1u64 == (b >> 60u64) & 1u64,
        (a >> 61u64) & 1u64 == (b >> 61u64) & 1u64,
        (a >> 62u64) & 1u64 == (b >> 62u64) & 1u64,
        (a >> 63u64) & 1u64 == (b >> 63u64) & 1u64,
    ensures
        a == b,
{
}

/// Two bitboards with the same squares are equal.
pub proof fn lemma_bits_ext(a: u64, b: u64)
    requires
        forall|k: int| 0 <= k < 64 ==> bit(a, k) == bit(b, k),
    ensures
        a == b,
{
    assert forall|k: u64| k < 64 implies (a >> k) & 1u64 == (b >> k) & 1u64 by {
        assert(bit(a, k as int) == bit(b, k as int));
        lemma_bit_ops(a, b, k);
        assert(((a >> k) & 1u64 == 0u64 || (a >> k) & 1u64 == 1u64)) by (bit_vector);
        assert(((b >> k) & 1u64 == 0u64 || (b >> k) & 1u64 == 1u64)) by (bit_vector);
    }
    lemma_bits_ext_raw(a, b);
}


proof fn lemma_clear_lowest_raw(x: u64, t: u64)
    by (bit_vector)
    requires
        t < 64,
        (x >> t) & 1u64 == 1u64,
        x << (64u64 - t) as u64 == 0u64,
    ensures
        x & ((x - 1u64) as u64) == x ^ (1u64 << t),
{
}

/// Facts about the lowest square of a nonempty bitboard and about clearing it.
pub proof fn lemma_lowest_bit(x: u64)
    requires
        x != 0,
    ensures
        0 <= u64_trailing_zeros(x) < 64,
        bit(x, u64_trailing_zeros(x) as int),
        forall|j: int| 0 <= j < u64_trailing_zeros(x) ==> !bit(x, j),
        forall|j: int|
            #![trigger bit(x & ((x - 1u64) as u64), j)]
            bit(x & ((x - 1u64) as u64), j) <==> bit(x, j) && j != u64_trailing_zeros(x),
{
    broadcast use group_bits;
    axiom_u64_trailing_zeros(x);
    let t = u64_trailing_zeros(x);
    lemma_clear_lowest_raw(x, t as u64);
    assert forall|j: int| 0 <= j < u64_trailing_zeros(x) implies !bit(x, j) by {
        let jj = j as u64;
        assert((x >> jj) & 1u64 == 0u64);
    }
    assert forall|j: int| bit(x & ((x - 1u64) as u64), j) <==> bit(x, j) && j != t by {
        assert(x & ((x - 1u64) as u64) == x ^ square_bb(t as int));
    }
}

/// The squares of `b` from square `i` upwards, in increasing order.
pub open spec fn bits_from(b: u64, i: int) -> Seq<int>
    decreases 64 - i,
{
    if i < 0 || i >= 64 {
        Seq::empty()
    } else if bit(b, i) {
        seq![i].add(bits_from(b, i + 1))
    } else {
        bits_from(b, i + 1)
    }
}

/// The squares of `b` in increasing order.
pub open spec fn squares(b: u64) -> Seq<int> {
    bits_from(b, 0)
}

/// A bitboard with no square from `lo` on lists none.
pub proof fn lemma_bits_from_empty(b: u64, lo: int)
    requires
        0 <= lo,
        forall|j: int| lo <= j ==> !bit(b, j),
    ensures
        bits_from(b, lo) == Seq::<int>::empty(),
    decreases 64 - lo,
{
    if lo < 64 {
        lemma_bits_from_empty(b, lo + 1);
    }
}

/// Squares below the lowest set square add nothing to the list.
pub proof fn lemma_bits_from_skip(b: u64, lo: int, t: int)
    requires
        0 <= lo <= t < 64,
        bit(b, t),
        forall|j: int| lo <= j < t ==> !bit(b, j),
    ensures
        bits_from(b, lo) == seq![t].add(bits_from(b, t + 1)),
    decreases t - lo,
{
    if lo < t {
        lemma_bits_from_skip(b, lo + 1, t);
    }
}

/// One step of walking the squares of `full` upward: `rest` holds the squares of `full` from
/// `lo` on; its lowest square comes next, and clearing it leaves the squares from there on.
pub proof fn lemma_walk_step(full: u64, rest: u64, lo: int)
    requires
        rest != 0,
        0 <= lo,
        forall|j: int| bit(rest, j) <==> bit(full, j) && lo <= j,
    ensures
        lo <= u64_trailing_zeros(rest) < 64,
        bits_from(full, lo) == seq![u64_trailing_zeros(rest) as int].add(
            bits_from(full, u64_trailing_zeros(rest) + 1),
        ),
        forall|j: int|
            bit(rest & ((rest - 1u64) as u64), j) <==> bit(full, j) && u64_trailing_zeros(rest) + 1 <= j,
{
    lemma_lowest_bit(rest);
    let t = u64_trailing_zeros(rest) as int;
    if t < lo {
        assert(bit(rest, t));
    }
    lemma_bits_from_skip(full, lo, t);
}

/// The end of a walk: nothing is left of `full` from `lo` on.
pub proof fn lemma_walk_end(full: u64, lo: int)
    requires
        0 <= lo,
        forall|j: int| bit(0u64, j) <==> bit(full, j) && lo <= j,
    ensures
        bits_from(full, lo) == Seq::<int>::empty(),
{
    broadcast use group_bits;
    assert forall|j: int| lo <= j implies !bit(full, j) by {
        assert(bit(0u64, j) <==> bit(full, j) && lo <= j);
    }
    lemma_bits_from_empty(full, lo);
}


/// Testing one square with a mask.
pub proof fn lemma_test_square(x: u64, i: int)
    requires
        0 <= i < 64,
    ensures
        (x & square_bb(i) != 0) <==> bit(x, i),
{
    broadcast use group_bits;
    if !bit(x, i) {
        lemma_bits_ext(x & square_bb(i), 0);
    } else {
        assert(bit(x & square_bb(i), i));
        assert(!bit(0u64, i));
    }
}


/// The squares of `b` are exactly those satisfying `p`.
pub open spec fn bb_is(b: u64, p: spec_fn(int) -> bool) -> bool {
    forall|t: int| #[trigger] bit(b, t) <==> 0 <= t < 64 && p(t)
}

/// The bitboard whose squares are those satisfying `p`.
pub open spec fn bb_of(p: spec_fn(int) -> bool) -> u64 {
    choose|b: u64| #[trigger] bb_is(b, p)
}

/// A bitboard whose squares are those satisfying `p` is the bitboard of `p`.
pub proof fn lemma_bb_of(b: u64, p: spec_fn(int) -> bool)
    requires
        forall|t: int| #[trigger] bit(b, t) <==> 0 <= t < 64 && p(t),
    ensures
        bb_of(p) == b,
        forall|t: int| #[trigger] bit(bb_of(p), t) <==> 0 <= t < 64 && p(t),
{
    assert(bb_is(b, p));
    let c = bb_of(p);
    assert(forall|t: int| #[trigger] bit(c, t) <==> 0 <= t < 64 && p(t));
    assert forall|k: int| 0 <= k < 64 implies bit(c, k) == bit(b, k) by {
        assert(bit(c, k) <==> 0 <= k < 64 && p(k));
        assert(bit(b, k) <==> 0 <= k < 64 && p(k));
    }
    lemma_bits_ext(c, b);
}


/// The lowest square of a one-square bitboard is that square.
pub proof fn lemma_trailing_zeros_single(k: int)
    requires
        0 <= k < 64,
    ensures
        u64_trailing_zeros(square_bb(k)) == k,
{
    broadcast use group_bits;
    let x = square_bb(k);
    assert(bit(x, k));
    if x == 0 {
        assert(!bit(0u64, k));
    }
    lemma_lowest_bit(x);
    let t = u64_trailing_zeros(x) as int;
    assert(bit(x, t));
}

/// The list of squares from `i` on is at most `64 - i` long.
pub proof fn lemma_bits_from_len(b: u64, i: int)
    requires
        0 <= i <= 64,
    ensures
        bits_from(b, i).len() <= 64 - i,
    decreases 64 - i,
{
    if i < 64 {
        lemma_bits_from_len(b, i + 1);
    }
}

/// The listed squares from `i` on lie between `i` and 63 and are set.
pub proof fn lemma_bits_from_bounds(b: u64, i: int)
    requires
        0 <= i,
    ensures
        forall|k: int|
            0 <= k < bits_from(b, i).len() ==> i <= #[trigger] bits_from(b, i)[k] < 64 && bit(
                b,
                bits_from(b, i)[k],
            ),
    decreases 64 - i,
{
    if i < 64 {
        lemma_bits_from_bounds(b, i + 1);
        let tail = bits_from(b, i + 1);
        if bit(b, i) {
            assert forall|k: int| 0 <= k < bits_from(b, i).len() implies i <= #[trigger] bits_from(
                b,
                i,
            )[k] < 64 && bit(b, bits_from(b, i)[k]) by {
                if k > 0 {
                    assert(bits_from(b, i)[k] == tail[k - 1]);
                }
            }
        }
    }
}

/// Every predicate on squares has its bitboard.
pub proof fn lemma_bb_of_exists(p: spec_fn(int) -> bool)
    ensures
        forall|t: int| #[trigger] bit(bb_of(p), t) <==> 0 <= t < 64 && p(t),
{
    let b = bits_up_to(p, 64);
    lemma_bits_up_to(p, 64);
    lemma_bb_of(b, p);
}

/// The bitboard of the squares below `n` that satisfy `p`.
spec fn bits_up_to(p: spec_fn(int) -> bool, n: int) -> u64
    decreases n,
{
    if n <= 0 {
        0
    } else if p(n - 1) {
        bits_up_to(p, n - 1) | square_bb(n - 1)
    } else {
        bits_up_to(p, n - 1)
    }
}

proof fn lemma_bits_up_to(p: spec_fn(int) -> bool, n: int)
    requires
        0 <= n <= 64,
    ensures
        forall|t: int| #[trigger] bit(bits_up_to(p, n), t) <==> 0 <= t < n && p(t),
    decreases n,
{
    broadcast use group_bits;
    if n > 0 {
        lemma_bits_up_to(p, n - 1);
        assert forall|t: int| #[trigger] bit(bits_up_to(p, n), t) <==> 0 <= t < n && p(t) by {
            assert(bit(square_bb(n - 1), t) <==> t == n - 1);
            assert(bit(bits_up_to(p, n - 1), t) <==> 0 <= t < n - 1 && p(t));
            if p(n - 1) {
                assert(bits_up_to(p, n) == bits_up_to(p, n - 1) | square_bb(n - 1));
                assert(bit(bits_up_to(p, n - 1) | square_bb(n - 1), t) <==> bit(
                    bits_up_to(p, n - 1),
                    t,
                ) || bit(square_bb(n - 1), t));
            }
        }
    }
}

} // verus!
