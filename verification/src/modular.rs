//! Wrapping machine-word sums, related to exact integer sums.
use vstd::prelude::*;

verus! {

/// The number of distinct `usize` values.
pub open spec fn word_modulus() -> int {
    usize::MAX as int + 1
}

/// An exact integer sum, reduced the way `usize::wrapping_add` reduces it.
pub open spec fn wrap(total: int) -> int {
    total % word_modulus()
}

/// A wrapping add of two words is the wrapped exact sum.
pub proof fn lemma_wrapping_add_is_wrapped_sum(x: usize, y: usize)
    ensures
        vstd::wrapping::usize_specs::wrapping_add(x, y) as int == wrap(x + y),
{
    let m = word_modulus();
    if x + y > usize::MAX {
        vstd::arithmetic::div_mod::lemma_small_mod((x + y - m) as nat, m as nat);
        vstd::arithmetic::div_mod::lemma_mod_add_multiples_vanish(x + y - m, m);
    } else {
        vstd::arithmetic::div_mod::lemma_small_mod((x + y) as nat, m as nat);
    }
}

/// Adding the wrapped value of a part to the wrapped value of a running total
/// gives the wrapped value of the whole.
pub proof fn lemma_accumulate(sum: usize, total: int, part: usize, exact_part: int)
    requires
        sum as int == wrap(total),
        part as int == wrap(exact_part),
    ensures
        vstd::wrapping::usize_specs::wrapping_add(sum, part) as int == wrap(total + exact_part),
{
    lemma_wrapping_add_is_wrapped_sum(sum, part);
    vstd::arithmetic::div_mod::lemma_add_mod_noop(total, exact_part, word_modulus());
}

/// Wrapping a running total before adding a part changes nothing once the
/// whole is wrapped.
pub proof fn lemma_wrap_absorb(total: int, part: int)
    ensures
        wrap(wrap(total) + part) == wrap(total + part),
{
    vstd::arithmetic::div_mod::lemma_add_mod_noop(total, part, word_modulus());
    vstd::arithmetic::div_mod::lemma_add_mod_noop(wrap(total), part, word_modulus());
    vstd::arithmetic::div_mod::lemma_mod_twice(total, word_modulus());
}

/// A word is its own wrapped value.
pub proof fn lemma_wrap_word(x: usize)
    ensures
        wrap(x as int) == x as int,
{
    vstd::arithmetic::div_mod::lemma_small_mod(x as nat, word_modulus() as nat);
}

} // verus!
