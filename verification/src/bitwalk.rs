//! Four ways of walking the set bits of a word, and the random totals that the speed
//! comparison of those ways times.
use vstd::prelude::*;
use rand::rngs::ThreadRng;

verus! {

/// The thread-local random generator of `rand`, carried through as an opaque value.
#[verifier::external_type_specification]
#[verifier::external_body]
pub struct ExThreadRng(ThreadRng);

/// Calls `rand::rng`, which hands out a handle to the thread-local generator.
///
/// Trusted, and nothing is claimed of the handle. The generator seeds itself from the
/// operating system the first time a thread asks for it, and `rand` panics if that fails.
#[verifier::external_body]
fn thread_rng() -> ThreadRng {
    rand::rng()
}

/// Calls `RngCore::next_u64` on the thread-local generator.
///
/// Trusted, and nothing is claimed of the word it returns: any word may come back.
#[verifier::external_body]
fn next_random(rng: &mut ThreadRng) -> u64 {
    rand::RngCore::next_u64(rng)
}

/// `x` reduced modulo 2^64, as unsigned 64-bit addition wraps.
pub open spec fn wrapped(x: int) -> int {
    x % 0x1_0000_0000_0000_0000int
}

/// The mask of the bits below bit `n`.
pub open spec fn low_mask(n: u64) -> u64 {
    if n >= 64 {
        0xffff_ffff_ffff_ffff
    } else {
        ((1u64 << n) - 1) as u64
    }
}

/// The bits of `value` that strategy two sees: all but the lowest.
pub open spec fn without_lowest(value: u64) -> u64 {
    value & 0xffff_ffff_ffff_fffe
}

proof fn lemma_low_bits_step(value: u64, keep: u64, i: u64)
    by (bit_vector)
    requires
        i < 64,
    ensures
        (value & low_mask((i + 1) as u64) & keep) == (value & low_mask(i) & keep) + (value & (
        1u64 << i) & keep),
        (value & (1u64 << i)) == 0 || (value & (1u64 << i)) == (1u64 << i),
{
}

proof fn lemma_low_bits_ends(value: u64, keep: u64)
    by (bit_vector)
    ensures
        (value & low_mask(0) & keep) == 0,
        (value & low_mask(64) & keep) == (value & keep),
        (value & 0xffff_ffff_ffff_ffff) == value,
{
}

/// Adding one more word to a wrapping total.
pub(crate) proof fn lemma_wrapped_step(acc: u64, base: int, m: u64)
    requires
        base >= 0,
        acc == wrapped(base),
    ensures
        acc.wrapping_add(m) == wrapped(base + m),
{
    vstd::arithmetic::div_mod::lemma_add_mod_noop(base, m as int, 0x1_0000_0000_0000_0000int);
    vstd::arithmetic::div_mod::lemma_small_mod(m as nat, 0x1_0000_0000_0000_0000nat);
    if acc + m > u64::MAX {
        vstd::arithmetic::div_mod::lemma_mod_sub_multiples_vanish(
            (acc + m) as int,
            0x1_0000_0000_0000_0000int,
        );
    } else {
        vstd::arithmetic::div_mod::lemma_small_mod((acc + m) as nat, 0x1_0000_0000_0000_0000nat);
    }
}

/// The sum of the words `ws`.
pub open spec fn words_sum(ws: Seq<u64>) -> int
    decreases ws.len(),
{
    if ws.len() == 0 {
        0
    } else {
        words_sum(ws.drop_last()) + ws.last()
    }
}

/// The sum of the words `ws`, each without its lowest bit.
pub open spec fn words_sum_without_lowest(ws: Seq<u64>) -> int
    decreases ws.len(),
{
    if ws.len() == 0 {
        0
    } else {
        words_sum_without_lowest(ws.drop_last()) + without_lowest(ws.last())
    }
}

/// Wrapping once more after adding a word to a wrapped sum.
proof fn lemma_wrapped_again(s: int, v: u64)
    ensures
        wrapped(wrapped(s) + v) == wrapped(s + v),
{
    vstd::arithmetic::div_mod::lemma_add_mod_noop(s, v as int, 0x1_0000_0000_0000_0000int);
    vstd::arithmetic::div_mod::lemma_small_mod(v as nat, 0x1_0000_0000_0000_0000nat);
    vstd::arithmetic::div_mod::lemma_mod_twice(s, 0x1_0000_0000_0000_0000int);
}

/// Adds `value` to `total`, wrapping, one set bit at a time: bit `i` is tested with the mask
/// `1 << i`.
pub fn add_bits_by_index(total: u64, value: u64) -> (res: u64)
    ensures
        res == wrapped(total + value),
{
    let mut acc = total;
    proof {
        lemma_low_bits_ends(value, 0xffff_ffff_ffff_ffff);
        vstd::arithmetic::div_mod::lemma_small_mod(total as nat, 0x1_0000_0000_0000_0000nat);
    }
    for i in 0..64u64
        invariant
            acc == wrapped(total + (value & low_mask(i) & 0xffff_ffff_ffff_ffff)),
    {
        let mask = 1u64 << i;
        proof {
            lemma_low_bits_step(value, 0xffff_ffff_ffff_ffff, i);
            assert((value & mask & 0xffff_ffff_ffff_ffff) == (value & mask)) by (bit_vector);
        }
        if value & mask != 0 {
            proof {
                lemma_wrapped_step(
                    acc,
                    total + (value & low_mask(i) & 0xffff_ffff_ffff_ffff),
                    mask,
                );
            }
            acc = acc.wrapping_add(mask);
        }
    }
    acc
}

proof fn lemma_shifted_mask(value: u64, mask: u64, j: u64)
    by (bit_vector)
    requires
        j < 64,
        mask == 1u64 << j,
    ensures
        (mask << 1u64) == (if j < 63 {
            1u64 << ((j + 1) as u64)
        } else {
            0u64
        }),
        j < 63 ==> (value & (1u64 << ((j + 1) as u64)) & 0xffff_ffff_ffff_fffe) == (value & (1u64
            << ((j + 1) as u64))),
        (value & low_mask(1) & 0xffff_ffff_ffff_fffe) == 0,
        (value & 0u64) == 0,
{
}

/// Adds every bit of `value` but the lowest to `total`, wrapping: the mask starts at 1 and is
/// shifted left before each of the 64 tests, so it tests bits 1 to 63 and then nothing.
pub fn add_bits_by_shifted_mask(total: u64, value: u64) -> (res: u64)
    ensures
        res == wrapped(total + without_lowest(value)),
{
    let mut acc = total;
    let mut mask: u64 = 1;
    proof {
        lemma_low_bits_ends(value, 0xffff_ffff_ffff_fffe);
        assert(1u64 << 0u64 == 1) by (bit_vector);
        lemma_shifted_mask(value, 1, 0);
        vstd::arithmetic::div_mod::lemma_small_mod(total as nat, 0x1_0000_0000_0000_0000nat);
    }
    for j in 0..64u64
        invariant
            mask == (if j < 64 {
                1u64 << j
            } else {
                0u64
            }),
            acc == wrapped(total + (value & low_mask((j + 1) as u64) & 0xffff_ffff_ffff_fffe)),
    {
        proof {
            lemma_shifted_mask(value, mask, j);
            if j < 63 {
                lemma_low_bits_step(value, 0xffff_ffff_ffff_fffe, (j + 1) as u64);
            }
        }
        mask = mask << 1;
        if value & mask != 0 {
            proof {
                lemma_wrapped_step(
                    acc,
                    total + (value & low_mask((j + 1) as u64) & 0xffff_ffff_ffff_fffe),
                    mask,
                );
            }
            acc = acc.wrapping_add(mask);
        }
    }
    acc
}

/// The table of single-bit words: entry `i` is `1 << i`.
pub fn single_bits() -> (res: Vec<u64>)
    ensures
        res@.len() == 64,
        forall|i: int| 0 <= i < 64 ==> #[trigger] res@[i] == 1u64 << (i as u64),
{
    let mut table: Vec<u64> = Vec::new();
    for i in 0..64u64
        invariant
            table@.len() == i,
            forall|k: int| 0 <= k < i ==> #[trigger] table@[k] == 1u64 << (k as u64),
    {
        table.push(1u64 << i);
    }
    table
}

/// Adds `value` to `total`, wrapping, one set bit at a time: bit `i` is tested with entry `i`
/// of a table of single-bit words.
pub fn add_bits_by_table(total: u64, value: u64, table: &Vec<u64>) -> (res: u64)
    requires
        table@.len() == 64,
        forall|i: int| 0 <= i < 64 ==> #[trigger] table@[i] == 1u64 << (i as u64),
    ensures
        res == wrapped(total + value),
{
    let mut acc = total;
    proof {
        lemma_low_bits_ends(value, 0xffff_ffff_ffff_ffff);
        vstd::arithmetic::div_mod::lemma_small_mod(total as nat, 0x1_0000_0000_0000_0000nat);
    }
    for i in 0..64usize
        invariant
            table@.len() == 64,
            forall|k: int| 0 <= k < 64 ==> #[trigger] table@[k] == 1u64 << (k as u64),
            acc == wrapped(total + (value & low_mask(i as u64) & 0xffff_ffff_ffff_ffff)),
    {
        let mask = table[i];
        proof {
            assert(mask == 1u64 << (i as u64));
            lemma_low_bits_step(value, 0xffff_ffff_ffff_ffff, i as u64);
            assert((value & mask & 0xffff_ffff_ffff_ffff) == (value & mask)) by (bit_vector);
        }
        if value & mask != 0 {
            proof {
                lemma_wrapped_step(
                    acc,
                    total + (value & low_mask(i as u64) & 0xffff_ffff_ffff_ffff),
                    mask,
                );
            }
            acc = acc.wrapping_add(mask);
        }
    }
    acc
}

/// Draws `test_count` random words and adds them up, wrapping, with `add_bits_by_index`: the
/// result is the wrapped sum of `test_count` words, whichever words the generator gave.
pub fn random_total_by_index(test_count: u128) -> (res: u64)
    ensures
        exists|ws: Seq<u64>| ws.len() == test_count && res == wrapped(#[trigger] words_sum(ws)),
{
    let mut rng = thread_rng();
    let mut total: u64 = 0;
    let mut n: u128 = 0;
    let ghost mut drawn: Seq<u64> = Seq::empty();
    proof {
        vstd::arithmetic::div_mod::lemma_small_mod(0nat, 0x1_0000_0000_0000_0000nat);
    }
    while n < test_count
        invariant
            n <= test_count,
            drawn.len() == n,
            total == wrapped(words_sum(drawn)),
        decreases test_count - n,
    {
        let value = next_random(&mut rng);
        proof {
            lemma_wrapped_again(words_sum(drawn), value);
            assert(drawn.push(value).drop_last() =~= drawn);
        }
        total = add_bits_by_index(total, value);
        proof {
            drawn = drawn.push(value);
        }
        n = n + 1;
    }
    total
}

/// Draws `test_count` random words and adds them up, wrapping, with
/// `add_bits_by_shifted_mask`: the result is the wrapped sum of `test_count` words, each
/// without its lowest bit, whichever words the generator gave; so it is even.
pub fn random_total_by_shifted_mask(test_count: u128) -> (res: u64)
    ensures
        exists|ws: Seq<u64>|
            ws.len() == test_count && res == wrapped(#[trigger] words_sum_without_lowest(ws)),
        res % 2 == 0,
{
    let mut rng = thread_rng();
    let mut total: u64 = 0;
    let mut n: u128 = 0;
    let ghost mut drawn: Seq<u64> = Seq::empty();
    proof {
        vstd::arithmetic::div_mod::lemma_small_mod(0nat, 0x1_0000_0000_0000_0000nat);
    }
    while n < test_count
        invariant
            n <= test_count,
            drawn.len() == n,
            total == wrapped(words_sum_without_lowest(drawn)),
            total % 2 == 0,
        decreases test_count - n,
    {
        let value = next_random(&mut rng);
        let ghost before = total;
        proof {
            lemma_wrapped_again(words_sum_without_lowest(drawn), without_lowest(value));
            assert(drawn.push(value).drop_last() =~= drawn);
        }
        total = add_bits_by_shifted_mask(total, value);
        proof {
            drawn = drawn.push(value);
            assert(without_lowest(value) % 2 == 0) by (bit_vector);
            vstd::arithmetic::div_mod::lemma_mod_mod(
                before + without_lowest(value),
                2,
                0x8000_0000_0000_0000int,
            );
        }
        n = n + 1;
    }
    total
}

/// Draws `test_count` random words and adds them up, wrapping, with `add_bits_by_table`, on
/// a table of single-bit words that it builds first: the result is the wrapped sum of
/// `test_count` words, whichever words the generator gave.
pub fn random_total_by_fresh_table(test_count: u128) -> (res: u64)
    ensures
        exists|ws: Seq<u64>| ws.len() == test_count && res == wrapped(#[trigger] words_sum(ws)),
{
    let mut rng = thread_rng();
    let table = single_bits();
    let mut total: u64 = 0;
    let mut n: u128 = 0;
    let ghost mut drawn: Seq<u64> = Seq::empty();
    proof {
        vstd::arithmetic::div_mod::lemma_small_mod(0nat, 0x1_0000_0000_0000_0000nat);
    }
    while n < test_count
        invariant
            n <= test_count,
            drawn.len() == n,
            total == wrapped(words_sum(drawn)),
            table@.len() == 64,
            forall|i: int| 0 <= i < 64 ==> #[trigger] table@[i] == 1u64 << (i as u64),
        decreases test_count - n,
    {
        let value = next_random(&mut rng);
        proof {
            lemma_wrapped_again(words_sum(drawn), value);
            assert(drawn.push(value).drop_last() =~= drawn);
        }
        total = add_bits_by_table(total, value, &table);
        proof {
            drawn = drawn.push(value);
        }
        n = n + 1;
    }
    total
}

/// Draws `test_count` random words and adds them up, wrapping, with `add_bits_by_table`, on
/// a table of single-bit words built beforehand: the result is the wrapped sum of
/// `test_count` words, whichever words the generator gave.
pub fn random_total_by_table(test_count: u128, table: &Vec<u64>) -> (res: u64)
    requires
        table@.len() == 64,
        forall|i: int| 0 <= i < 64 ==> #[trigger] table@[i] == 1u64 << (i as u64),
    ensures
        exists|ws: Seq<u64>| ws.len() == test_count && res == wrapped(#[trigger] words_sum(ws)),
{
    let mut rng = thread_rng();
    let mut total: u64 = 0;
    let mut n: u128 = 0;
    let ghost mut drawn: Seq<u64> = Seq::empty();
    proof {
        vstd::arithmetic::div_mod::lemma_small_mod(0nat, 0x1_0000_0000_0000_0000nat);
    }
    while n < test_count
        invariant
            n <= test_count,
            drawn.len() == n,
            total == wrapped(words_sum(drawn)),
            table@.len() == 64,
            forall|i: int| 0 <= i < 64 ==> #[trigger] table@[i] == 1u64 << (i as u64),
        decreases test_count - n,
    {
        let value = next_random(&mut rng);
        proof {
            lemma_wrapped_again(words_sum(drawn), value);
            assert(drawn.push(value).drop_last() =~= drawn);
        }
        total = add_bits_by_table(total, value, table);
        proof {
            drawn = drawn.push(value);
        }
        n = n + 1;
    }
    total
}

} // verus!
