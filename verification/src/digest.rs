//! Digests of numbers and of bytes.
use crate::outside::fx_added;
use crate::outside::fx_bytes_word;
use crate::outside::fx_finish;
use crate::outside::fx_hasher;
use crate::outside::fx_state;
use crate::outside::fx_step;
use crate::outside::fx_turned;
use crate::outside::fx_write;
use crate::outside::fx_write_bytes;
use vstd::arithmetic::div_mod::lemma_mod_multiples_vanish;
use vstd::arithmetic::div_mod::lemma_mul_mod_noop_left;
use vstd::arithmetic::div_mod::lemma_mul_mod_noop_right;
use vstd::arithmetic::div_mod::lemma_small_mod;
use vstd::arithmetic::mul::lemma_mul_is_associative;
use vstd::prelude::*;

verus! {

/// The state once numbers were added one by one.
pub open spec fn fx_words_state(words: Seq<u64>) -> usize
    decreases words.len(),
{
    if words.len() == 0 {
        0
    } else {
        fx_step(fx_words_state(words.drop_last()), words.last())
    }
}

/// The digest of numbers.
pub open spec fn fx_words_digest(words: Seq<u64>) -> u64 {
    fx_turned(fx_words_state(words))
}

/// Multiplying by a number that has an inverse keeps remainders apart.
proof fn lemma_products_apart(x: int, y: int, factor: int, inverse: int, modulus: int)
    requires
        modulus > 0,
        (factor * inverse) % modulus == 1,
        (x * factor) % modulus == (y * factor) % modulus,
    ensures
        x % modulus == y % modulus,
{
    lemma_product_undone(x, factor, inverse, modulus);
    lemma_product_undone(y, factor, inverse, modulus);
}

proof fn lemma_product_undone(x: int, factor: int, inverse: int, modulus: int)
    requires
        modulus > 0,
        (factor * inverse) % modulus == 1,
    ensures
        (((x * factor) % modulus) * inverse) % modulus == x % modulus,
{
    lemma_mul_mod_noop_left(x * factor, inverse, modulus);
    lemma_mul_is_associative(x, factor, inverse);
    lemma_mul_mod_noop_right(x, factor * inverse, modulus);
}

/// What is added to a state tells the sums apart.
proof fn lemma_added_apart(a: int, b: int)
    requires
        fx_added(a, 0) == fx_added(b, 0),
    ensures
        usize::BITS == 64 ==> a % 0x1_0000_0000_0000_0000 == b % 0x1_0000_0000_0000_0000,
        usize::BITS != 64 ==> a % 0x1_0000_0000 == b % 0x1_0000_0000,
{
    if usize::BITS == 64 {
        lemma_products_apart(
            a,
            b,
            0xf1357aea2e62a9c5,
            0x781494a55daaed0d,
            0x1_0000_0000_0000_0000,
        );
    } else {
        lemma_products_apart(a, b, 0x93d765dd, 0x7aae1a75, 0x1_0000_0000);
    }
}

/// Numbers that fit in a machine word lead from one state to different ones.
proof fn lemma_step_apart(state: usize, v: u64, w: u64)
    requires
        v <= usize::MAX,
        w <= usize::MAX,
        fx_step(state, v) == fx_step(state, w),
    ensures
        v == w,
{
    if usize::BITS == 64 {
        assert(fx_added(state as int, v as int) == fx_added(state + v, 0));
        assert(fx_added(state as int, w as int) == fx_added(state + w, 0));
        lemma_added_apart(state + v, state + w);
    } else {
        assert(usize::BITS == 32);
        let first = fx_added(state as int, v as int);
        let second = fx_added(state as int, w as int);
        assert(first == fx_added(state + v, 0));
        assert(second == fx_added(state + w, 0));
        lemma_added_apart(first, second);
        lemma_added_apart(state + v, state + w);
    }
}

/// Turned bits are the lower ones before the upper ones.
proof fn lemma_turned(state: usize)
    ensures
        usize::BITS == 64 ==> fx_turned(state) == (state as int % 0x40_0000_0000) * 0x400_0000
            + state as int / 0x40_0000_0000,
        usize::BITS != 64 ==> fx_turned(state) == (state as int % 0x2_0000) * 0x8000 + state as int
            / 0x2_0000,
{
    if usize::BITS == 64 {
        let low = state as int % 0x40_0000_0000;
        let high = state as int / 0x40_0000_0000;
        assert(state * 0x400_0000 == high * 0x1_0000_0000_0000_0000 + low * 0x400_0000);
        lemma_mod_multiples_vanish(high, low * 0x400_0000, 0x1_0000_0000_0000_0000);
        lemma_small_mod((low * 0x400_0000) as nat, 0x1_0000_0000_0000_0000);
    } else {
        let low = state as int % 0x2_0000;
        let high = state as int / 0x2_0000;
        assert(state * 0x8000 == high * 0x1_0000_0000 + low * 0x8000);
        lemma_mod_multiples_vanish(high, low * 0x8000, 0x1_0000_0000);
        lemma_small_mod((low * 0x8000) as nat, 0x1_0000_0000);
    }
}

proof fn lemma_parts_apart(low: int, high: int, other_low: int, other_high: int, size: int)
    requires
        0 <= high < size,
        0 <= other_high < size,
        low * size + high == other_low * size + other_high,
    ensures
        low == other_low,
        high == other_high,
{
    vstd::arithmetic::div_mod::lemma_fundamental_div_mod_converse(
        low * size + high,
        size,
        low,
        high,
    );
    vstd::arithmetic::div_mod::lemma_fundamental_div_mod_converse(
        low * size + high,
        size,
        other_low,
        other_high,
    );
}

/// Turned bits can be turned back.
proof fn lemma_turned_apart(a: usize, b: usize)
    requires
        fx_turned(a) == fx_turned(b),
    ensures
        a == b,
{
    lemma_turned(a);
    lemma_turned(b);
    if usize::BITS == 64 {
        assert(0 <= a as int / 0x40_0000_0000 < 0x400_0000);
        assert(0 <= b as int / 0x40_0000_0000 < 0x400_0000);
        lemma_parts_apart(
            a as int % 0x40_0000_0000,
            a as int / 0x40_0000_0000,
            b as int % 0x40_0000_0000,
            b as int / 0x40_0000_0000,
            0x400_0000,
        );
    } else {
        assert(usize::BITS == 32);
        assert(0 <= a as int / 0x2_0000 < 0x8000);
        assert(0 <= b as int / 0x2_0000 < 0x8000);
        lemma_parts_apart(
            a as int % 0x2_0000,
            a as int / 0x2_0000,
            b as int % 0x2_0000,
            b as int / 0x2_0000,
            0x8000,
        );
    }
}

/// The digest changes where one number does, as long as both fit in a machine word.
pub proof fn law_one_number_changes_the_digest(words: Seq<u64>, at: int, other: u64)
    requires
        0 <= at < words.len(),
        words[at] != other,
        words[at] <= usize::MAX,
        other <= usize::MAX,
    ensures
        fx_words_digest(words) != fx_words_digest(words.update(at, other)),
{
    lemma_one_number_changes_the_state(words, at, other);
    if fx_words_digest(words) == fx_words_digest(words.update(at, other)) {
        lemma_turned_apart(fx_words_state(words), fx_words_state(words.update(at, other)));
    }
}

proof fn lemma_one_number_changes_the_state(words: Seq<u64>, at: int, other: u64)
    requires
        0 <= at < words.len(),
        words[at] != other,
        words[at] <= usize::MAX,
        other <= usize::MAX,
    ensures
        fx_words_state(words) != fx_words_state(words.update(at, other)),
    decreases words.len(),
{
    let changed = words.update(at, other);
    let before = fx_words_state(words.drop_last());
    let after = fx_words_state(changed.drop_last());
    if at == words.len() - 1 {
        assert(changed.drop_last() =~= words.drop_last());
        if fx_words_state(words) == fx_words_state(changed) {
            lemma_step_apart(before, words.last(), changed.last());
        }
    } else {
        assert(changed.drop_last() =~= words.drop_last().update(at, other));
        lemma_one_number_changes_the_state(words.drop_last(), at, other);
        if fx_words_state(words) == fx_words_state(changed) {
            lemma_states_apart(before, after, words.last());
        }
    }
}

/// One number leads from different states to different ones.
proof fn lemma_states_apart(a: usize, b: usize, word: u64)
    requires
        fx_step(a, word) == fx_step(b, word),
    ensures
        a == b,
{
    if usize::BITS == 64 {
        assert(fx_added(a as int, word as int) == fx_added(a + word, 0));
        assert(fx_added(b as int, word as int) == fx_added(b + word, 0));
        lemma_added_apart(a + word, b + word);
    } else {
        assert(usize::BITS == 32);
        let low = word as int % 0x1_0000_0000;
        let high = word as int / 0x1_0000_0000;
        let first = fx_added(a as int, low);
        let second = fx_added(b as int, low);
        assert(fx_added(first, high) == fx_added(first + high, 0));
        assert(fx_added(second, high) == fx_added(second + high, 0));
        lemma_added_apart(first + high, second + high);
        assert(first == fx_added(a + low, 0));
        assert(second == fx_added(b + low, 0));
        lemma_added_apart(a + low, b + low);
    }
}

/// Digests numbers one by one.
pub fn fx_hash_words(words: &[u64]) -> (digest: u64)
    ensures
        digest == fx_words_digest(words@),
{
    let mut hasher = fx_hasher();
    let mut i: usize = 0;
    assert(words@.take(0) =~= Seq::empty());
    while i < words.len()
        invariant
            0 <= i <= words@.len(),
            fx_state(hasher) == fx_words_state(words@.take(i as int)),
        decreases words@.len() - i,
    {
        proof {
            let next = words@.take(i + 1);
            assert(next.drop_last() =~= words@.take(i as int));
            assert(next.last() == words@[i as int]);
        }
        fx_write(&mut hasher, words[i]);
        i += 1;
    }
    assert(words@.take(words@.len() as int) =~= words@);
    fx_finish(&hasher)
}

/// The digest of bytes on a target that multiplies in full width, or in halves.
pub open spec fn fx_bytes_digest(bytes: Seq<u8>, wide: bool) -> u64 {
    fx_turned(fx_step(0, fx_bytes_word(bytes, wide)))
}

/// Digests bytes. How the target multiplies is all that the digest depends on beside
/// them.
pub fn fx_hash_bytes(bytes: &[u8]) -> (digest: u64)
    ensures
        exists|wide: bool| digest == #[trigger] fx_bytes_digest(bytes@, wide),
{
    let mut hasher = fx_hasher();
    fx_write_bytes(&mut hasher, bytes);
    let digest = fx_finish(&hasher);
    proof {
        let wide = choose|wide: bool|
            fx_state(hasher) == fx_step(0, #[trigger] fx_bytes_word(bytes@, wide));
        assert(digest == fx_bytes_digest(bytes@, wide));
    }
    digest
}

} // verus!
