//! Big-endian byte strings and the numbers they spell.

use vstd::prelude::*;
use vstd::arithmetic::div_mod::{lemma_breakdown, lemma_div_denominator, lemma_fundamental_div_mod};

verus! {

/// 256 to the power `n`.
pub open spec fn pow256(n: nat) -> nat
    decreases n,
{
    if n == 0 {
        1
    } else {
        256 * pow256((n - 1) as nat)
    }
}

/// The number that `bytes` spells in base 256, most significant byte first.
pub open spec fn be_value(bytes: Seq<u8>) -> nat
    decreases bytes.len(),
{
    if bytes.len() == 0 {
        0
    } else {
        be_value(bytes.drop_last()) * 256 + bytes.last() as nat
    }
}

/// The `width` low-order base-256 digits of `value`, most significant first.
pub open spec fn be_bytes(value: nat, width: nat) -> Seq<u8>
    decreases width,
{
    if width == 0 {
        Seq::empty()
    } else {
        be_bytes(value / 256, (width - 1) as nat).push((value % 256) as u8)
    }
}

pub proof fn lemma_pow256_positive(n: nat)
    ensures
        pow256(n) > 0,
    decreases n,
{
    if n > 0 {
        lemma_pow256_positive((n - 1) as nat);
    }
}

/// The powers of 256 that a 64-bit word and a 256-bit word are made of.
pub proof fn lemma_pow256_values()
    ensures
        pow256(0) == 1,
        pow256(1) == 0x100,
        pow256(2) == 0x1_0000,
        pow256(4) == 0x1_0000_0000,
        pow256(8) == 0x1_0000_0000_0000_0000,
        pow256(16) == 0x1_0000_0000_0000_0000_0000_0000_0000_0000,
        pow256(24) == 0x1_0000_0000_0000_0000_0000_0000_0000_0000_0000_0000_0000_0000,
        pow256(32)
            == 0x1_0000_0000_0000_0000_0000_0000_0000_0000_0000_0000_0000_0000_0000_0000_0000_0000,
{
    reveal_with_fuel(pow256, 9);
    assert(pow256(8) == 0x1_0000_0000_0000_0000);
    assert(pow256(16) == 0x1_0000_0000_0000_0000 * pow256(8));
    assert(pow256(24) == 0x1_0000_0000_0000_0000 * pow256(16));
    assert(pow256(32) == 0x1_0000_0000_0000_0000 * pow256(24));
}

pub proof fn lemma_be_bytes_len(value: nat, width: nat)
    ensures
        be_bytes(value, width).len() == width,
    decreases width,
{
    if width > 0 {
        lemma_be_bytes_len(value / 256, (width - 1) as nat);
    }
}

/// A string of `n` bytes spells a number below 256 to the `n`.
pub proof fn lemma_be_value_bound(bytes: Seq<u8>)
    ensures
        be_value(bytes) < pow256(bytes.len()),
    decreases bytes.len(),
{
    if bytes.len() > 0 {
        lemma_be_value_bound(bytes.drop_last());
    }
}

/// Reading back the `width` digits of `value` gives `value` modulo 256 to the `width`.
pub proof fn lemma_be_value_of_bytes(value: nat, width: nat)
    ensures
        be_value(be_bytes(value, width)) == value % pow256(width),
    decreases width,
{
    if width > 0 {
        let rest = be_bytes(value / 256, (width - 1) as nat);
        lemma_be_value_of_bytes(value / 256, (width - 1) as nat);
        assert(be_bytes(value, width).drop_last() =~= rest);
        lemma_pow256_positive((width - 1) as nat);
        lemma_breakdown(value as int, 256, pow256((width - 1) as nat) as int);
    }
}

/// Writing the number that a string spells, at the string's width, gives the string back.
pub proof fn lemma_be_bytes_of_value(bytes: Seq<u8>)
    ensures
        be_bytes(be_value(bytes), bytes.len()) == bytes,
    decreases bytes.len(),
{
    if bytes.len() > 0 {
        lemma_be_bytes_of_value(bytes.drop_last());
        let v = be_value(bytes);
        assert(v / 256 == be_value(bytes.drop_last()) && v % 256 == bytes.last());
        assert(be_bytes(v, bytes.len()) =~= bytes);
    } else {
        assert(be_bytes(be_value(bytes), 0) =~= bytes);
    }
}

/// A concatenation spells the left number shifted past the right one, plus the right number.
pub proof fn lemma_be_value_concat(left: Seq<u8>, right: Seq<u8>)
    ensures
        be_value(left + right) == be_value(left) * pow256(right.len()) + be_value(right),
    decreases right.len(),
{
    if right.len() == 0 {
        assert(left + right =~= left);
        assert(be_value(left) * pow256(0) == be_value(left)) by {
            assert(pow256(0) == 1);
            assert(be_value(left) * 1 == be_value(left));
        }
    } else {
        lemma_be_value_concat(left, right.drop_last());
        let whole = left + right;
        let p = pow256((right.len() - 1) as nat);
        assert(whole.drop_last() =~= left + right.drop_last());
        assert(whole.last() == right.last());
        assert(be_value(whole) == be_value(whole.drop_last()) * 256 + whole.last() as nat);
        assert(be_value(left) * (256 * p) == be_value(left) * p * 256) by (nonlinear_arith);
        assert((be_value(left) * p + be_value(right.drop_last())) * 256 == be_value(left) * p * 256
            + be_value(right.drop_last()) * 256) by (nonlinear_arith);
    }
}

/// The digits of a number split where the number does.
pub proof fn lemma_be_bytes_concat(high: nat, low: nat, high_width: nat, low_width: nat)
    requires
        low < pow256(low_width),
    ensures
        be_bytes(high * pow256(low_width) + low, high_width + low_width) == be_bytes(
            high,
            high_width,
        ) + be_bytes(low, low_width),
    decreases low_width,
{
    let whole = high * pow256(low_width) + low;
    if low_width == 0 {
        assert(whole == high) by {
            assert(pow256(0) == 1);
            assert(high * 1 == high);
        }
        assert(be_bytes(low, 0) =~= Seq::empty());
        assert(be_bytes(high, high_width) + be_bytes(low, 0) =~= be_bytes(high, high_width));
    } else {
        let p = pow256((low_width - 1) as nat);
        lemma_pow256_positive((low_width - 1) as nat);
        assert(whole == 256 * (high * p + low / 256) + low % 256) by {
            assert(high * (256 * p) == 256 * (high * p)) by (nonlinear_arith);
        }
        assert(whole / 256 == high * p + low / 256 && whole % 256 == low % 256) by {
            lemma_fundamental_div_mod(whole as int, 256);
        }
        lemma_be_bytes_concat(high, low / 256, high_width, (low_width - 1) as nat);
        assert(be_bytes(whole, high_width + low_width) == be_bytes(
            whole / 256,
            (high_width + low_width - 1) as nat,
        ).push((whole % 256) as u8));
        assert(be_bytes(low, low_width) == be_bytes(low / 256, (low_width - 1) as nat).push(
            (low % 256) as u8,
        ));
        assert(be_bytes(whole, high_width + low_width) =~= be_bytes(high, high_width) + be_bytes(
            low,
            low_width,
        ));
    }
}

pub proof fn lemma_pow256_monotone(low: nat, high: nat)
    requires
        low <= high,
    ensures
        pow256(low) <= pow256(high),
    decreases high,
{
    if low < high {
        lemma_pow256_monotone(low, (high - 1) as nat);
    }
}

/// Reads `width` bytes of `bytes` from `start` on as one number, most significant byte first.
pub fn read_be(bytes: &[u8], start: usize, width: usize) -> (value: u64)
    requires
        width <= 8,
        start + width <= bytes@.len(),
    ensures
        value == be_value(bytes@.subrange(start as int, start + width)),
{
    let mut value: u64 = 0;
    let mut taken: usize = 0;
    let len: usize = bytes.len();
    while taken < width
        invariant
            taken <= width <= 8,
            start + width <= bytes@.len(),
            len == bytes@.len(),
            value == be_value(bytes@.subrange(start as int, start + taken)),
        decreases width - taken,
    {
        proof {
            let before = bytes@.subrange(start as int, start + taken);
            let after = bytes@.subrange(start as int, start + taken + 1);
            lemma_be_value_bound(before);
            lemma_pow256_monotone(taken as nat, 7);
            lemma_pow256_values();
            reveal_with_fuel(pow256, 8);
            assert(after.drop_last() =~= before);
        }
        value = value * 256 + bytes[start + taken] as u64;
        taken += 1;
    }
    value
}

/// Appends the `width` low-order bytes of `value` to `buf`, most significant first.
pub fn push_be(buf: &mut Vec<u8>, value: u64, width: usize)
    requires
        width <= 8,
    ensures
        final(buf)@ == old(buf)@ + be_bytes(value as nat, width as nat),
{
    let mut unit: u64 = 1;
    let mut grown: usize = 1;
    while grown < width
        invariant
            1 <= grown,
            grown <= width || width == 0,
            width <= 8,
            unit == pow256((grown - 1) as nat),
        decreases width - grown,
    {
        proof {
            lemma_pow256_monotone((grown - 1) as nat, 6);
            reveal_with_fuel(pow256, 8);
        }
        unit = unit * 256;
        grown += 1;
    }
    let mut left: usize = width;
    proof {
        lemma_pow256_positive(width as nat);
        let top = (value as nat) / pow256(width as nat);
        assert(be_bytes(top, 0) =~= Seq::<u8>::empty());
        assert(buf@ =~= old(buf)@ + be_bytes(top, 0));
    }
    while left > 0
        invariant
            left <= width <= 8,
            left > 0 ==> unit == pow256((left - 1) as nat),
            buf@ == old(buf)@ + be_bytes((value as nat) / pow256(left as nat), (width - left) as nat),
        decreases left,
    {
        proof {
            lemma_pow256_positive((left - 1) as nat);
        }
        let digit: u64 = (value / unit) % 256;
        proof {
            let low = pow256((left - 1) as nat);
            lemma_div_denominator(value as int, low as int, 256);
            assert(low * 256 == pow256(left as nat));
            assert(be_bytes((value as nat) / low, (width - left + 1) as nat) == be_bytes(
                (value as nat) / low / 256,
                (width - left) as nat,
            ).push(((value as nat) / low % 256) as u8));
            assert((old(buf)@ + be_bytes((value as nat) / pow256(left as nat), (width - left) as nat)).push(
                digit as u8,
            ) =~= old(buf)@ + be_bytes((value as nat) / low, (width - left + 1) as nat));
        }
        buf.push(digit as u8);
        unit = unit / 256;
        left -= 1;
        proof {
            if left > 0 {
                assert(pow256(left as nat) == 256 * pow256((left - 1) as nat));
            }
        }
    }
    proof {
        assert(pow256(0) == 1);
        assert((value as nat) / pow256(0) == value as nat);
        assert((width - left) as nat == width as nat);
    }
}

/// The bytes of `bytes`, last first.
pub fn reversed(bytes: &Vec<u8>) -> (back: Vec<u8>)
    ensures
        back@ == bytes@.reverse(),
{
    let mut back: Vec<u8> = Vec::new();
    let mut left: usize = bytes.len();
    while left > 0
        invariant
            left <= bytes@.len(),
            back@.len() == bytes@.len() - left,
            forall|i: int| 0 <= i < back@.len() ==> back@[i] == bytes@[bytes@.len() - 1 - i],
        decreases left,
    {
        left -= 1;
        back.push(bytes[left]);
    }
    assert(back@ =~= bytes@.reverse());
    back
}

} // verus!
