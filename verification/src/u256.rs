//! Unsigned 256-bit integers, held as four 64-bit words.

use vstd::prelude::*;
use vstd::arithmetic::div_mod::lemma_fundamental_div_mod_converse;
use crate::bytes::{
    be_bytes, be_value, lemma_be_bytes_concat, lemma_be_bytes_len, lemma_be_bytes_of_value,
    lemma_be_value_bound, lemma_be_value_of_bytes, lemma_pow256_monotone, lemma_pow256_values,
    pow256, push_be, reversed,
};

verus! {

/// Two to the power 256: one more than the largest value.
pub open spec fn modulus() -> nat {
    0x1_0000_0000_0000_0000_0000_0000_0000_0000_0000_0000_0000_0000_0000_0000_0000_0000nat
}

/// An unsigned 256-bit integer. `w3` is the most significant word.
#[derive(Clone, Copy, Debug, PartialEq, Eq, Structural)]
pub struct U256 {
    pub w3: u64,
    pub w2: u64,
    pub w1: u64,
    pub w0: u64,
}

impl View for U256 {
    type V = nat;

    /// The number that the four words spell.
    open spec fn view(&self) -> nat {
        (self.w0 as nat) + (self.w1 as nat) * 0x1_0000_0000_0000_0000 + (self.w2 as nat)
            * 0x1_0000_0000_0000_0000_0000_0000_0000_0000nat + (self.w3 as nat)
            * 0x1_0000_0000_0000_0000_0000_0000_0000_0000_0000_0000_0000_0000nat
    }
}

/// Whether every byte of `text` is an ASCII decimal digit.
pub open spec fn is_decimal(text: Seq<u8>) -> bool {
    forall|i: int| 0 <= i < text.len() ==> 48 <= #[trigger] text[i] <= 57
}

/// The number that the decimal digits `text` spell.
pub open spec fn decimal_value(text: Seq<u8>) -> nat
    decreases text.len(),
{
    if text.len() == 0 {
        0
    } else {
        decimal_value(text.drop_last()) * 10 + (text.last() - 48) as nat
    }
}

/// The decimal digits of `value`, in ASCII, without leading zeros.
pub open spec fn decimal_digits(value: nat) -> Seq<u8>
    decreases value,
{
    if value < 10 {
        seq![(48 + value) as u8]
    } else {
        decimal_digits(value / 10).push((48 + value % 10) as u8)
    }
}

/// Digits written for a number are decimal digits and spell that number.
pub proof fn lemma_decimal_round_trip(value: nat)
    ensures
        is_decimal(decimal_digits(value)),
        decimal_digits(value).len() > 0,
        decimal_value(decimal_digits(value)) == value,
    decreases value,
{
    let text = decimal_digits(value);
    if value < 10 {
        assert(text.drop_last() =~= Seq::<u8>::empty());
        assert(decimal_value(text.drop_last()) == 0);
    } else {
        lemma_decimal_round_trip(value / 10);
        assert(text.drop_last() =~= decimal_digits(value / 10));
    }
}

/// A longer string of digits spells no smaller a number than its beginning.
pub proof fn lemma_decimal_prefix(text: Seq<u8>, taken: int)
    requires
        is_decimal(text),
        0 <= taken <= text.len(),
    ensures
        decimal_value(text.take(taken)) <= decimal_value(text),
    decreases text.len(),
{
    if taken < text.len() {
        lemma_decimal_prefix(text.drop_last(), taken);
        assert(text.drop_last().take(taken) =~= text.take(taken));
    } else {
        assert(text.take(taken) =~= text);
    }
}

/// The largest product of two words.
proof fn lemma_word_product(a: u64, b: u64)
    ensures
        0 <= a * b <= 0xFFFF_FFFF_FFFF_FFFE_0000_0000_0000_0001,
{
    assert(0 <= a * b <= 0xFFFF_FFFF_FFFF_FFFF * 0xFFFF_FFFF_FFFF_FFFF) by (nonlinear_arith)
        requires
            0 <= a <= 0xFFFF_FFFF_FFFF_FFFF,
            0 <= b <= 0xFFFF_FFFF_FFFF_FFFF,
    ;
}

impl U256 {
    /// Every value is below two to the 256.
    pub proof fn lemma_bounded(self)
        ensures
            self@ < modulus(),
    {
    }

    /// Two values with the same number are the same value.
    pub proof fn lemma_view_injective(self, other: U256)
        ensures
            (self@ == other@) == (self == other),
    {
        if self.w3 != other.w3 {
            if self.w3 < other.w3 {
                assert(self@ < other@);
            } else {
                assert(other@ < self@);
            }
        } else if self.w2 != other.w2 {
            if self.w2 < other.w2 {
                assert(self@ < other@);
            } else {
                assert(other@ < self@);
            }
        } else if self.w1 != other.w1 {
            if self.w1 < other.w1 {
                assert(self@ < other@);
            } else {
                assert(other@ < self@);
            }
        } else if self.w0 != other.w0 {
            assert(self@ != other@);
        }
    }

    /// The value whose number is `number`, for a number below two to the 256.
    pub open spec fn from_nat(number: nat) -> U256 {
        U256 {
            w0: (number % 0x1_0000_0000_0000_0000) as u64,
            w1: ((number / 0x1_0000_0000_0000_0000) % 0x1_0000_0000_0000_0000) as u64,
            w2: ((number / 0x1_0000_0000_0000_0000_0000_0000_0000_0000nat)
                % 0x1_0000_0000_0000_0000) as u64,
            w3: ((number / 0x1_0000_0000_0000_0000_0000_0000_0000_0000_0000_0000_0000_0000nat)
                % 0x1_0000_0000_0000_0000) as u64,
        }
    }

    /// `from_nat` undoes the view.
    pub proof fn lemma_from_nat(number: nat)
        requires
            number < modulus(),
        ensures
            Self::from_nat(number)@ == number,
    {
        let base = 0x1_0000_0000_0000_0000int;
        let n = number as int;
        let q1 = n / base;
        let q2 = q1 / base;
        let q3 = q2 / base;
        vstd::arithmetic::div_mod::lemma_div_denominator(n, base, base);
        vstd::arithmetic::div_mod::lemma_div_denominator(n, base * base, base);
        assert(base * base == 0x1_0000_0000_0000_0000_0000_0000_0000_0000int);
        assert(base * base * base
            == 0x1_0000_0000_0000_0000_0000_0000_0000_0000_0000_0000_0000_0000int);
        assert(n / (base * base) == q2);
        assert(n / (base * base * base) == q3) by {
            assert((n / (base * base)) / base == n / (base * base * base));
        }
        assert(n == base * q1 + n % base);
        assert(q1 == base * q2 + q1 % base);
        assert(q2 == base * q3 + q2 % base);
        assert(0 <= q3 < base);
        let made = Self::from_nat(number);
        assert(made.w0 == n % base);
        assert(made.w1 == q1 % base);
        assert(made.w2 == q2 % base);
        assert(made.w3 == q3);
    }

    pub fn zero() -> (value: U256)
        ensures
            value@ == 0,
    {
        U256 { w3: 0, w2: 0, w1: 0, w0: 0 }
    }

    pub fn from_u64(word: u64) -> (value: U256)
        ensures
            value@ == word,
    {
        U256 { w3: 0, w2: 0, w1: 0, w0: word }
    }

    pub fn is_zero(&self) -> (zero: bool)
        ensures
            zero == (self@ == 0),
    {
        self.w3 == 0 && self.w2 == 0 && self.w1 == 0 && self.w0 == 0
    }

    /// `self < other`, as numbers.
    pub fn lt(&self, other: &U256) -> (less: bool)
        ensures
            less == (self@ < other@),
    {
        if self.w3 != other.w3 {
            self.w3 < other.w3
        } else if self.w2 != other.w2 {
            self.w2 < other.w2
        } else if self.w1 != other.w1 {
            self.w1 < other.w1
        } else {
            self.w0 < other.w0
        }
    }

    /// `self <= other`, as numbers.
    pub fn le(&self, other: &U256) -> (at_most: bool)
        ensures
            at_most == (self@ <= other@),
    {
        !other.lt(self)
    }

    /// The smaller of the two.
    pub fn min(self, other: U256) -> (least: U256)
        ensures
            least@ == if self@ <= other@ { self@ } else { other@ },
            least == self || least == other,
    {
        if self.le(&other) {
            self
        } else {
            other
        }
    }

    /// `self * factor + addend`, as the low 256 bits and what overflows them.
    pub fn mul_add_small(self, factor: u64, addend: u64) -> (result: (U256, u64))
        ensures
            result.0@ + result.1 * modulus() == self@ * factor + addend,
    {
        proof {
            lemma_word_product(self.w0, factor);
            lemma_word_product(self.w1, factor);
            lemma_word_product(self.w2, factor);
            lemma_word_product(self.w3, factor);
        }
        let t0: u128 = (self.w0 as u128) * (factor as u128) + (addend as u128);
        let t1: u128 = (self.w1 as u128) * (factor as u128) + t0 / 0x1_0000_0000_0000_0000;
        let t2: u128 = (self.w2 as u128) * (factor as u128) + t1 / 0x1_0000_0000_0000_0000;
        let t3: u128 = (self.w3 as u128) * (factor as u128) + t2 / 0x1_0000_0000_0000_0000;
        let low = U256 {
            w3: (t3 % 0x1_0000_0000_0000_0000) as u64,
            w2: (t2 % 0x1_0000_0000_0000_0000) as u64,
            w1: (t1 % 0x1_0000_0000_0000_0000) as u64,
            w0: (t0 % 0x1_0000_0000_0000_0000) as u64,
        };
        let carry: u64 = (t3 / 0x1_0000_0000_0000_0000) as u64;
        proof {
            let f = factor as int;
            let product_a = self.w0 as int * f;
            let product_b = self.w1 as int * f;
            let product_c = self.w2 as int * f;
            let product_d = self.w3 as int * f;
            assert(self@ * factor == product_a + product_b * 0x1_0000_0000_0000_0000 + product_c
                * 0x1_0000_0000_0000_0000_0000_0000_0000_0000int + product_d
                * 0x1_0000_0000_0000_0000_0000_0000_0000_0000_0000_0000_0000_0000int)
                by (nonlinear_arith)
                requires
                    self@ == (self.w0 as int) + (self.w1 as int) * 0x1_0000_0000_0000_0000 + (
                    self.w2 as int) * 0x1_0000_0000_0000_0000_0000_0000_0000_0000int + (
                    self.w3 as int)
                        * 0x1_0000_0000_0000_0000_0000_0000_0000_0000_0000_0000_0000_0000int,
                    product_a == self.w0 as int * f,
                    product_b == self.w1 as int * f,
                    product_c == self.w2 as int * f,
                    product_d == self.w3 as int * f,
                    f == factor as int,
            ;
        }
        (low, carry)
    }

    /// `self * factor`, where it fits in 256 bits.
    pub fn checked_mul_small(self, factor: u64) -> (product: Option<U256>)
        ensures
            product.is_some() == (self@ * factor < modulus()),
            product.is_some() ==> product.unwrap()@ == self@ * factor,
    {
        let (low, carry) = self.mul_add_small(factor, 0);
        proof {
            assert(carry as int * modulus() >= modulus() || carry == 0) by (nonlinear_arith)
                requires
                    carry >= 0,
                    modulus() > 0,
            ;
        }
        if carry == 0 {
            Some(low)
        } else {
            None
        }
    }

    /// `self / divisor`, rounded down.
    pub fn div_small(self, divisor: u64) -> (quotient: U256)
        requires
            divisor > 0,
        ensures
            quotient@ == self@ / (divisor as nat),
    {
        self.div_rem_small(divisor).0
    }

    /// The value that at most 32 bytes spell, most significant byte first.
    pub fn from_big_endian(bytes: &[u8]) -> (value: U256)
        requires
            bytes@.len() <= 32,
        ensures
            value@ == be_value(bytes@),
    {
        let mut value = U256::zero();
        let mut taken: usize = 0;
        let len: usize = bytes.len();
        assert(bytes@.take(0) =~= Seq::<u8>::empty());
        while taken < len
            invariant
                taken <= len <= 32,
                len == bytes@.len(),
                value@ == be_value(bytes@.take(taken as int)),
            decreases len - taken,
        {
            let (next, carry) = value.mul_add_small(256, bytes[taken] as u64);
            proof {
                let after = bytes@.take(taken + 1);
                assert(after.drop_last() =~= bytes@.take(taken as int));
                lemma_be_value_bound(after);
                lemma_pow256_monotone(after.len(), 32);
                lemma_pow256_values();
                assert(carry == 0) by (nonlinear_arith)
                    requires
                        next@ + carry * modulus() < modulus(),
                        carry >= 0,
                ;
            }
            value = next;
            taken += 1;
        }
        assert(bytes@.take(len as int) =~= bytes@);
        value
    }

    /// The 32 bytes of `self`, most significant first.
    pub fn to_big_endian(&self) -> (bytes: Vec<u8>)
        ensures
            bytes@ == be_bytes(self@, 32),
    {
        let mut bytes: Vec<u8> = Vec::new();
        push_be(&mut bytes, self.w3, 8);
        push_be(&mut bytes, self.w2, 8);
        push_be(&mut bytes, self.w1, 8);
        push_be(&mut bytes, self.w0, 8);
        proof {
            lemma_pow256_values();
            let top = self.w3 as nat * pow256(8) + self.w2 as nat;
            let upper = top * pow256(8) + self.w1 as nat;
            lemma_be_bytes_concat(self.w3 as nat, self.w2 as nat, 8, 8);
            lemma_be_bytes_concat(top, self.w1 as nat, 16, 8);
            lemma_be_bytes_concat(upper, self.w0 as nat, 24, 8);
            assert(upper * pow256(8) + self.w0 as nat == self@);
            assert(bytes@ =~= be_bytes(self.w3 as nat, 8) + be_bytes(self.w2 as nat, 8) + be_bytes(
                self.w1 as nat,
                8,
            ) + be_bytes(self.w0 as nat, 8));
        }
        bytes
    }

    /// The 32 bytes of `self`, least significant first.
    pub fn to_little_endian(&self) -> (bytes: Vec<u8>)
        ensures
            bytes@ == be_bytes(self@, 32).reverse(),
    {
        let forward = self.to_big_endian();
        reversed(&forward)
    }

    /// The decimal digits of `self`, in ASCII.
    pub fn to_decimal(&self) -> (text: Vec<u8>)
        ensures
            text@ == decimal_digits(self@),
    {
        let mut low_first: Vec<u8> = Vec::new();
        let mut rest: U256 = *self;
        loop
            invariant_except_break
                decimal_digits(self@) == decimal_digits(rest@) + low_first@.reverse(),
            ensures
                decimal_digits(self@) == low_first@.reverse(),
            decreases rest@,
        {
            let (quotient, digit) = rest.div_rem_small(10);
            let ghost before = low_first@;
            low_first.push(48 + digit as u8);
            proof {
                assert(low_first@.reverse() =~= seq![(48 + digit) as u8] + before.reverse());
            }
            if quotient.is_zero() {
                proof {
                    assert(rest@ < 10) by {
                        vstd::arithmetic::div_mod::lemma_fundamental_div_mod(rest@ as int, 10);
                    }
                    assert(decimal_digits(rest@) + before.reverse() =~= low_first@.reverse());
                }
                break ;
            }
            proof {
                assert(rest@ >= 10);
                assert(decimal_digits(rest@) + before.reverse() =~= decimal_digits(quotient@)
                    + low_first@.reverse());
            }
            rest = quotient;
        }
        reversed(&low_first)
    }

    /// Whether every byte of `text` is a decimal digit.
    pub fn all_decimal(text: &[u8]) -> (decimal: bool)
        ensures
            decimal == is_decimal(text@),
    {
        let mut i: usize = 0;
        while i < text.len()
            invariant
                i <= text@.len(),
                forall|k: int| 0 <= k < i ==> 48 <= #[trigger] text@[k] <= 57,
            decreases text@.len() - i,
        {
            if text[i] < 48 || text[i] > 57 {
                return false;
            }
            i += 1;
        }
        true
    }

    /// Reads a number in decimal digits; `None` where `text` is empty, holds another byte
    /// than a digit, or spells a number of more than 256 bits.
    pub fn from_decimal(text: &[u8]) -> (value: Option<U256>)
        ensures
            value.is_some() == (text@.len() > 0 && is_decimal(text@) && decimal_value(text@)
                < modulus()),
            value.is_some() ==> value.unwrap()@ == decimal_value(text@),
    {
        let len: usize = text.len();
        if len == 0 {
            return None;
        }
        let mut value = U256::zero();
        let mut taken: usize = 0;
        assert(text@.take(0) =~= Seq::<u8>::empty());
        while taken < len
            invariant
                taken <= len,
                len == text@.len(),
                is_decimal(text@.take(taken as int)),
                value@ == decimal_value(text@.take(taken as int)),
            decreases len - taken,
        {
            let byte: u8 = text[taken];
            if byte < 48 || byte > 57 {
                assert(!is_decimal(text@)) by {
                    assert(text@[taken as int] == byte);
                }
                return None;
            }
            let (next, carry) = value.mul_add_small(10, (byte - 48) as u64);
            proof {
                let after = text@.take(taken + 1);
                assert(after.drop_last() =~= text@.take(taken as int));
                assert(is_decimal(after)) by {
                    assert forall|i: int| 0 <= i < after.len() implies 48 <= #[trigger] after[i]
                        <= 57 by {
                        if i < taken {
                            assert(after[i] == text@.take(taken as int)[i]);
                        }
                    }
                }
                assert(next@ + carry * modulus() == decimal_value(after));
            }
            if carry != 0 {
                proof {
                    let after = text@.take(taken + 1);
                    assert(decimal_value(after) >= modulus()) by (nonlinear_arith)
                        requires
                            next@ + carry * modulus() == decimal_value(after),
                            carry >= 1,
                            modulus() > 0,
                    ;
                    if is_decimal(text@) {
                        lemma_decimal_prefix(text@, taken + 1);
                    }
                }
                return None;
            }
            value = next;
            taken += 1;
        }
        assert(text@.take(len as int) =~= text@);
        Some(value)
    }

    /// The quotient and the remainder of `self` by `divisor`.
    pub fn div_rem_small(self, divisor: u64) -> (result: (U256, u64))
        requires
            divisor > 0,
        ensures
            result.0@ == self@ / (divisor as nat),
            result.1 == self@ % (divisor as nat),
    {
        let d: u128 = divisor as u128;
        let n3: u128 = self.w3 as u128;
        let q3: u128 = n3 / d;
        let r3: u128 = n3 % d;
        let n2: u128 = r3 * 0x1_0000_0000_0000_0000 + self.w2 as u128;
        let q2: u128 = n2 / d;
        let r2: u128 = n2 % d;
        let n1: u128 = r2 * 0x1_0000_0000_0000_0000 + self.w1 as u128;
        let q1: u128 = n1 / d;
        let r1: u128 = n1 % d;
        let n0: u128 = r1 * 0x1_0000_0000_0000_0000 + self.w0 as u128;
        let q0: u128 = n0 / d;
        let r0: u128 = n0 % d;
        proof {
            Self::lemma_step_quotient(n3, d);
            Self::lemma_step_quotient(n2, d);
            Self::lemma_step_quotient(n1, d);
            Self::lemma_step_quotient(n0, d);
        }
        let quotient = U256 { w3: q3 as u64, w2: q2 as u64, w1: q1 as u64, w0: q0 as u64 };
        proof {
            let di = d as int;
            let m0 = q0 as int * di;
            let m1 = q1 as int * di;
            let m2 = q2 as int * di;
            let m3 = q3 as int * di;
            assert(quotient@ * di == m0 + m1 * 0x1_0000_0000_0000_0000 + m2
                * 0x1_0000_0000_0000_0000_0000_0000_0000_0000int + m3
                * 0x1_0000_0000_0000_0000_0000_0000_0000_0000_0000_0000_0000_0000int)
                by (nonlinear_arith)
                requires
                    quotient@ == (q0 as int) + (q1 as int) * 0x1_0000_0000_0000_0000 + (q2 as int)
                        * 0x1_0000_0000_0000_0000_0000_0000_0000_0000int + (q3 as int)
                        * 0x1_0000_0000_0000_0000_0000_0000_0000_0000_0000_0000_0000_0000int,
                    m0 == q0 as int * di,
                    m1 == q1 as int * di,
                    m2 == q2 as int * di,
                    m3 == q3 as int * di,
            ;
            assert(self@ == quotient@ * di + r0);
            lemma_fundamental_div_mod_converse(self@ as int, di, quotient@ as int, r0 as int);
        }
        (quotient, r0 as u64)
    }

    /// One step of long division: what a numerator below `d` words leaves.
    proof fn lemma_step_quotient(n: u128, d: u128)
        requires
            0 < d < 0x1_0000_0000_0000_0000,
            n < d * 0x1_0000_0000_0000_0000,
        ensures
            n == (n / d) * d + n % d,
            n % d < d,
            n / d < 0x1_0000_0000_0000_0000,
    {
        let q = (n / d) as int;
        let r = (n % d) as int;
        vstd::arithmetic::div_mod::lemma_fundamental_div_mod(n as int, d as int);
        assert(q * d == d * q) by (nonlinear_arith);
        assert(q < 0x1_0000_0000_0000_0000) by (nonlinear_arith)
            requires
                q * d <= n,
                n < d * 0x1_0000_0000_0000_0000,
                d > 0,
        ;
    }
}

/// 32 bytes spell a number below two to the 256, and `from_nat` of it has that number.
pub proof fn lemma_bytes_u256(bytes: Seq<u8>)
    requires
        bytes.len() == 32,
    ensures
        be_value(bytes) < modulus(),
        U256::from_nat(be_value(bytes))@ == be_value(bytes),
        be_bytes(be_value(bytes), 32) == bytes,
{
    lemma_be_value_bound(bytes);
    lemma_pow256_values();
    U256::lemma_from_nat(be_value(bytes));
    lemma_be_bytes_of_value(bytes);
}

/// The 32 bytes of a 256-bit value spell it again.
pub proof fn lemma_u256_bytes(value: U256)
    ensures
        be_bytes(value@, 32).len() == 32,
        be_value(be_bytes(value@, 32)) == value@,
        U256::from_nat(be_value(be_bytes(value@, 32))) == value,
{
    lemma_be_bytes_len(value@, 32);
    lemma_be_value_of_bytes(value@, 32);
    lemma_pow256_values();
    vstd::arithmetic::div_mod::lemma_small_mod(value@, pow256(32));
    U256::lemma_from_nat(value@);
    value.lemma_view_injective(U256::from_nat(value@));
}

} // verus!
