//! The subsets of `n` things, in the order of the numbers whose binary
//! digits mark their members.

use vstd::prelude::*;
use vstd::arithmetic::power2::{lemma_pow2_pos, lemma_pow2_unfold, pow2};

verus! {

/// The lowest `n` binary digits of `m`, the least significant first.
pub open spec fn mask_bits(n: nat, m: nat) -> Seq<bool>
    decreases n,
{
    if n == 0 {
        Seq::empty()
    } else {
        seq![m % 2 == 1] + mask_bits((n - 1) as nat, m / 2)
    }
}

/// The number whose binary digits are `bits`, the least significant first.
pub open spec fn mask_value(bits: Seq<bool>) -> nat
    decreases bits.len(),
{
    if bits.len() == 0 {
        0
    } else {
        2 * mask_value(bits.drop_first()) + if bits.first() {
            1nat
        } else {
            0nat
        }
    }
}

/// `mask_bits` has `n` digits.
pub proof fn lemma_mask_bits_len(n: nat, m: nat)
    ensures
        mask_bits(n, m).len() == n,
    decreases n,
{
    if n > 0 {
        lemma_mask_bits_len((n - 1) as nat, m / 2);
    }
}

/// A sequence of `n` digits stands for a number below `2^n`, and is the
/// digits of that number.
pub proof fn lemma_mask_bits_of_value(bits: Seq<bool>)
    ensures
        mask_value(bits) < pow2(bits.len()),
        mask_bits(bits.len(), mask_value(bits)) == bits,
    decreases bits.len(),
{
    if bits.len() == 0 {
        lemma_pow2_pos(0);
    } else {
        let rest = bits.drop_first();
        lemma_mask_bits_of_value(rest);
        lemma_pow2_unfold(bits.len());
        assert(mask_value(bits) / 2 == mask_value(rest));
        assert(seq![bits.first()] + rest == bits);
    }
}

/// The `n` digits of a number below `2^n` stand for that number.
pub proof fn lemma_mask_value_of_bits(n: nat, m: nat)
    requires
        m < pow2(n),
    ensures
        mask_value(mask_bits(n, m)) == m,
    decreases n,
{
    if n == 0 {
        vstd::arithmetic::power2::lemma2_to64();
    } else {
        lemma_pow2_unfold(n);
        lemma_mask_value_of_bits((n - 1) as nat, m / 2);
        assert(mask_bits(n, m).drop_first() == mask_bits((n - 1) as nat, m / 2));
    }
}

/// The digits after one is added to the number that `bits` stands for;
/// all of them are off where no digit was.
pub open spec fn incremented(bits: Seq<bool>) -> Seq<bool>
    decreases bits.len(),
{
    if bits.len() == 0 {
        bits
    } else if !bits.first() {
        bits.update(0, true)
    } else {
        seq![false] + incremented(bits.drop_first())
    }
}

/// `incremented` adds one, until every digit is on.
pub proof fn lemma_incremented(bits: Seq<bool>)
    ensures
        incremented(bits).len() == bits.len(),
        bits.contains(false) ==> mask_value(incremented(bits)) == mask_value(bits) + 1,
        !bits.contains(false) ==> mask_value(bits) + 1 == pow2(bits.len()),
    decreases bits.len(),
{
    if bits.len() == 0 {
        lemma_pow2_pos(0);
        vstd::arithmetic::power2::lemma2_to64();
    } else if !bits.first() {
        assert(bits[0] == false);
        assert(bits.update(0, true).drop_first() == bits.drop_first());
    } else {
        let rest = bits.drop_first();
        lemma_incremented(rest);
        lemma_pow2_unfold(bits.len());
        let next = seq![false] + incremented(rest);
        assert(next.drop_first() == incremented(rest));
        if bits.contains(false) {
            let i = choose|i: int| 0 <= i < bits.len() && bits[i] == false;
            assert(rest[i - 1] == false);
        } else if rest.contains(false) {
            let i = choose|i: int| 0 <= i < rest.len() && rest[i] == false;
            assert(bits[i + 1] == false);
        }
    }
}

/// The empty subset of `n` things.
pub fn first_mask(n: usize) -> (bits: Vec<bool>)
    ensures
        bits@ == mask_bits(n as nat, 0),
{
    let mut bits: Vec<bool> = Vec::new();
    let mut i: usize = 0;
    while i < n
        invariant
            i <= n,
            bits@ == mask_bits(i as nat, 0),
        decreases n - i,
    {
        proof {
            lemma_zero_bits(i as nat);
        }
        bits.push(false);
        i = i + 1;
    }
    bits
}

/// The digits of zero are all off, so one more of them can be put at either end.
proof fn lemma_zero_bits(n: nat)
    ensures
        mask_bits(n + 1, 0) == mask_bits(n, 0).push(false),
    decreases n,
{
    if n > 0 {
        lemma_zero_bits((n - 1) as nat);
        assert(mask_bits(n, 0) == seq![false] + mask_bits((n - 1) as nat, 0));
        assert(seq![false] + mask_bits((n - 1) as nat, 0).push(false) == (seq![false] + mask_bits(
            (n - 1) as nat,
            0,
        )).push(false));
    } else {
        assert(mask_bits(1, 0) == seq![false] + mask_bits(0, 0));
    }
}

/// Moves on to the subset that the next number marks. Returns `false`, and
/// leaves the empty subset, where `bits` marked the last one.
pub fn next_mask(bits: &mut Vec<bool>) -> (more: bool)
    ensures
        final(bits)@ == incremented(old(bits)@),
        more == old(bits)@.contains(false),
        final(bits)@.len() == old(bits)@.len(),
        more ==> mask_value(final(bits)@) == mask_value(old(bits)@) + 1,
        !more ==> mask_value(old(bits)@) + 1 == pow2(old(bits)@.len()),
        !more ==> forall|i: int| 0 <= i < final(bits)@.len() ==> !(#[trigger] final(bits)@[i]),
{
    let ghost start = bits@;
    let mut i: usize = 0;
    assert(start.skip(0) == start);
    assert(bits@.take(0) + incremented(start) == incremented(start));
    while i < bits.len() && bits[i]
        invariant
            i <= bits.len(),
            bits@.len() == start.len(),
            forall|j: int| 0 <= j < i ==> start[j] && !bits@[j],
            forall|j: int| 0 <= j < i ==> !(#[trigger] bits@[j]),
            forall|j: int| i <= j < bits@.len() ==> bits@[j] == start[j],
            incremented(start) == bits@.take(i as int) + incremented(start.skip(i as int)),
        decreases bits.len() - i,
    {
        proof {
            let tail = start.skip(i as int);
            assert(tail.first() == start[i as int]);
            assert(tail.drop_first() == start.skip(i + 1));
        }
        bits.set(i, false);
        assert(bits@.take(i + 1) == bits@.take(i as int).push(false));
        assert(bits@.take(i as int).push(false) + incremented(start.skip(i + 1)) == bits@.take(
            i as int,
        ) + (seq![false] + incremented(start.skip(i + 1))));
        i = i + 1;
    }
    proof {
        lemma_incremented(start);
    }
    if i < bits.len() {
        proof {
            let tail = start.skip(i as int);
            assert(tail.first() == start[i as int]);
            assert(start[i as int] == false);
        }
        bits.set(i, true);
        assert(bits@ == incremented(start)) by {
            let tail = start.skip(i as int);
            assert(incremented(tail) == tail.update(0, true));
            assert(bits@ == bits@.take(i as int) + tail.update(0, true));
        }
        assert(start.contains(false));
        true
    } else {
        assert(!start.contains(false));
        assert(start.skip(i as int) == Seq::<bool>::empty());
        assert(bits@ == bits@.take(i as int) + Seq::<bool>::empty());
        false
    }
}

} // verus!
