//! The canonical binary form: a deterministic subset of CBOR, in which every value has
//! exactly one encoding. Integers and lengths take their shortest head; a record is an
//! array of its fields in order.

use vstd::prelude::*;
use crate::bytes::{
    be_bytes, be_value, lemma_be_bytes_len, lemma_be_bytes_of_value, lemma_be_value_bound,
    lemma_be_value_of_bytes, lemma_pow256_values, pow256, push_be, read_be,
};

use crate::u256::{U256, lemma_bytes_u256, lemma_u256_bytes};

verus! {

/// The major type of an unsigned integer.
pub const MAJOR_UNSIGNED: u8 = 0;

/// The major type of a negative integer, held as minus one minus the number.
pub const MAJOR_NEGATIVE: u8 = 1;

/// The major type of a byte string.
pub const MAJOR_BYTES: u8 = 2;

/// The major type of an array.
pub const MAJOR_ARRAY: u8 = 4;

/// The one byte of `false`.
pub const BYTE_FALSE: u8 = 0xf4;

/// The one byte of `true`.
pub const BYTE_TRUE: u8 = 0xf5;

/// The head of an item: the major type and its argument, in the fewest bytes.
pub open spec fn head(major: u8, argument: u64) -> Seq<u8> {
    if argument < 24 {
        seq![(major * 32 + argument) as u8]
    } else if argument < 0x100 {
        seq![(major * 32 + 24) as u8] + be_bytes(argument as nat, 1)
    } else if argument < 0x1_0000 {
        seq![(major * 32 + 25) as u8] + be_bytes(argument as nat, 2)
    } else if argument < 0x1_0000_0000 {
        seq![(major * 32 + 26) as u8] + be_bytes(argument as nat, 4)
    } else {
        seq![(major * 32 + 27) as u8] + be_bytes(argument as nat, 8)
    }
}

/// How many bytes the head of `argument` takes.
pub open spec fn head_len(argument: u64) -> nat {
    if argument < 24 {
        1
    } else if argument < 0x100 {
        2
    } else if argument < 0x1_0000 {
        3
    } else if argument < 0x1_0000_0000 {
        5
    } else {
        9
    }
}

pub proof fn lemma_head_len(major: u8, argument: u64)
    ensures
        head(major, argument).len() == head_len(argument),
{
    lemma_be_bytes_len(argument as nat, 1);
    lemma_be_bytes_len(argument as nat, 2);
    lemma_be_bytes_len(argument as nat, 4);
    lemma_be_bytes_len(argument as nat, 8);
}

/// An unsigned integer.
pub open spec fn unsigned(value: u64) -> Seq<u8> {
    head(MAJOR_UNSIGNED, value)
}

/// A signed integer.
pub open spec fn signed(value: i64) -> Seq<u8> {
    if value >= 0 {
        head(MAJOR_UNSIGNED, value as u64)
    } else {
        head(MAJOR_NEGATIVE, (-1 - value) as u64)
    }
}

/// A truth value.
pub open spec fn boolean(value: bool) -> Seq<u8> {
    if value {
        seq![BYTE_TRUE]
    } else {
        seq![BYTE_FALSE]
    }
}

/// A byte string.
pub open spec fn byte_string(content: Seq<u8>) -> Seq<u8> {
    head(MAJOR_BYTES, content.len() as u64) + content
}

/// The opening of an array of `count` items; the items follow.
pub open spec fn array_head(count: nat) -> Seq<u8> {
    head(MAJOR_ARRAY, count as u64)
}

/// The parts one after the other.
pub open spec fn join(parts: Seq<Seq<u8>>) -> Seq<u8>
    decreases parts.len(),
{
    if parts.len() == 0 {
        Seq::empty()
    } else {
        join(parts.drop_last()) + parts.last()
    }
}

/// Joining one part more appends that part.
pub proof fn lemma_join_step(parts: Seq<Seq<u8>>, taken: int)
    requires
        0 <= taken < parts.len(),
    ensures
        join(parts.take(taken + 1)) == join(parts.take(taken)) + parts[taken],
{
    assert(parts.take(taken + 1).drop_last() =~= parts.take(taken));
}

/// Appends the head of an item.
pub fn push_head(out: &mut Vec<u8>, major: u8, argument: u64)
    requires
        major < 8,
    ensures
        final(out)@ == old(out)@ + head(major, argument),
{
    let tag: u8 = major * 32;
    if argument < 24 {
        out.push(tag + argument as u8);
        assert(out@ =~= old(out)@ + head(major, argument));
    } else if argument < 0x100 {
        out.push(tag + 24);
        push_be(out, argument, 1);
        assert(out@ =~= old(out)@ + head(major, argument));
    } else if argument < 0x1_0000 {
        out.push(tag + 25);
        push_be(out, argument, 2);
        assert(out@ =~= old(out)@ + head(major, argument));
    } else if argument < 0x1_0000_0000 {
        out.push(tag + 26);
        push_be(out, argument, 4);
        assert(out@ =~= old(out)@ + head(major, argument));
    } else {
        out.push(tag + 27);
        push_be(out, argument, 8);
        assert(out@ =~= old(out)@ + head(major, argument));
    }
}

/// Appends an unsigned integer.
pub fn push_unsigned(out: &mut Vec<u8>, value: u64)
    ensures
        final(out)@ == old(out)@ + unsigned(value),
{
    push_head(out, MAJOR_UNSIGNED, value);
}

/// Appends a signed integer.
pub fn push_signed(out: &mut Vec<u8>, value: i64)
    ensures
        final(out)@ == old(out)@ + signed(value),
{
    if value >= 0 {
        push_head(out, MAJOR_UNSIGNED, value as u64);
    } else {
        push_head(out, MAJOR_NEGATIVE, (-1 - value) as u64);
    }
}

/// Appends a truth value.
pub fn push_boolean(out: &mut Vec<u8>, value: bool)
    ensures
        final(out)@ == old(out)@ + boolean(value),
{
    if value {
        out.push(BYTE_TRUE);
    } else {
        out.push(BYTE_FALSE);
    }
    assert(out@ =~= old(out)@ + boolean(value));
}

/// Appends a byte string.
pub fn push_byte_string(out: &mut Vec<u8>, content: &[u8])
    ensures
        final(out)@ == old(out)@ + byte_string(content@),
{
    let len: usize = content.len();
    push_head(out, MAJOR_BYTES, len as u64);
    let mut copied: usize = 0;
    while copied < len
        invariant
            copied <= len,
            len == content@.len(),
            out@ == old(out)@ + head(MAJOR_BYTES, len as u64) + content@.take(copied as int),
        decreases len - copied,
    {
        out.push(content[copied]);
        copied += 1;
        assert(out@ =~= old(out)@ + head(MAJOR_BYTES, len as u64) + content@.take(copied as int));
    }
    assert(content@.take(len as int) =~= content@);
    assert(out@ =~= old(out)@ + byte_string(content@));
}

/// Appends the opening of an array of `count` items.
pub fn push_array_head(out: &mut Vec<u8>, count: usize)
    ensures
        final(out)@ == old(out)@ + array_head(count as nat),
{
    push_head(out, MAJOR_ARRAY, count as u64);
}

/// Whether `part` stands in `bytes` from position `at` on.
pub open spec fn sits(bytes: Seq<u8>, at: int, part: Seq<u8>) -> bool {
    0 <= at && at + part.len() <= bytes.len() && bytes.subrange(at, at + part.len()) == part
}

/// Where two parts stand one after the other, each of them stands in its place.
pub proof fn lemma_sits_split(bytes: Seq<u8>, at: int, left: Seq<u8>, right: Seq<u8>)
    requires
        sits(bytes, at, left + right),
    ensures
        sits(bytes, at, left),
        sits(bytes, at + left.len(), right),
{
    let whole = left + right;
    assert(bytes.subrange(at, at + left.len()) =~= whole.subrange(0, left.len() as int));
    assert(whole.subrange(0, left.len() as int) =~= left);
    assert(bytes.subrange(at + left.len(), at + left.len() + right.len()) =~= whole.subrange(
        left.len() as int,
        whole.len() as int,
    ));
    assert(whole.subrange(left.len() as int, whole.len() as int) =~= right);
}

/// Two parts that stand one after the other stand there as one.
pub proof fn lemma_sits_join(bytes: Seq<u8>, at: int, left: Seq<u8>, right: Seq<u8>)
    requires
        sits(bytes, at, left),
        sits(bytes, at + left.len(), right),
    ensures
        sits(bytes, at, left + right),
{
    assert(bytes.subrange(at, at + (left + right).len()) =~= bytes.subrange(at, at + left.len())
        + bytes.subrange(at + left.len(), at + left.len() + right.len()));
}

/// The head that stands at `at`: its major type, its argument, and where it ends. There
/// is none where the bytes end too soon or the argument is not in its shortest form.
pub open spec fn parse_head(bytes: Seq<u8>, at: int) -> Option<(u8, u64, int)> {
    if !(0 <= at < bytes.len()) {
        None
    } else {
        let major = bytes[at] / 32;
        let info = bytes[at] % 32;
        if info < 24 {
            Some((major, info as u64, at + 1))
        } else if info == 24 {
            if at + 2 <= bytes.len() && be_value(bytes.subrange(at + 1, at + 2)) >= 24 {
                Some((major, be_value(bytes.subrange(at + 1, at + 2)) as u64, at + 2))
            } else {
                None
            }
        } else if info == 25 {
            if at + 3 <= bytes.len() && be_value(bytes.subrange(at + 1, at + 3)) >= 0x100 {
                Some((major, be_value(bytes.subrange(at + 1, at + 3)) as u64, at + 3))
            } else {
                None
            }
        } else if info == 26 {
            if at + 5 <= bytes.len() && be_value(bytes.subrange(at + 1, at + 5)) >= 0x1_0000 {
                Some((major, be_value(bytes.subrange(at + 1, at + 5)) as u64, at + 5))
            } else {
                None
            }
        } else if info == 27 {
            if at + 9 <= bytes.len() && be_value(bytes.subrange(at + 1, at + 9)) >= 0x1_0000_0000 {
                Some((major, be_value(bytes.subrange(at + 1, at + 9)) as u64, at + 9))
            } else {
                None
            }
        } else {
            None
        }
    }
}

/// A number below 256 to the `width` comes back from its `width` bytes.
proof fn lemma_fits(value: nat, width: nat)
    requires
        value < pow256(width),
    ensures
        be_value(be_bytes(value, width)) == value,
        be_bytes(value, width).len() == width,
{
    lemma_be_value_of_bytes(value, width);
    lemma_be_bytes_len(value, width);
    vstd::arithmetic::div_mod::lemma_small_mod(value, pow256(width));
}

/// A head that stands at `at` is the head that is read there.
pub proof fn lemma_parse_head(bytes: Seq<u8>, at: int, major: u8, argument: u64)
    requires
        major < 8,
        sits(bytes, at, head(major, argument)),
    ensures
        parse_head(bytes, at) == Some((major, argument, at + head_len(argument))),
{
    lemma_head_len(major, argument);
    lemma_pow256_values();
    let whole = head(major, argument);
    assert(bytes[at] == bytes.subrange(at, at + whole.len())[0]);
    assert(bytes[at] == whole[0]);
    if argument < 24 {
    } else if argument < 0x100 {
        lemma_fits(argument as nat, 1);
        lemma_sits_split(bytes, at, seq![(major * 32 + 24) as u8], be_bytes(argument as nat, 1));
    } else if argument < 0x1_0000 {
        lemma_fits(argument as nat, 2);
        lemma_sits_split(bytes, at, seq![(major * 32 + 25) as u8], be_bytes(argument as nat, 2));
    } else if argument < 0x1_0000_0000 {
        lemma_fits(argument as nat, 4);
        lemma_sits_split(bytes, at, seq![(major * 32 + 26) as u8], be_bytes(argument as nat, 4));
    } else {
        lemma_fits(argument as nat, 8);
        lemma_sits_split(bytes, at, seq![(major * 32 + 27) as u8], be_bytes(argument as nat, 8));
    }
}

/// A head that is read at `at` stands there, in the form in which it is written.
pub proof fn lemma_parse_head_sound(bytes: Seq<u8>, at: int)
    requires
        parse_head(bytes, at).is_some(),
    ensures
        parse_head(bytes, at).unwrap().0 < 8,
        sits(bytes, at, head(parse_head(bytes, at).unwrap().0, parse_head(bytes, at).unwrap().1)),
        parse_head(bytes, at).unwrap().2 == at + head_len(parse_head(bytes, at).unwrap().1),
{
    let (major, argument, end) = parse_head(bytes, at).unwrap();
    let info = bytes[at] % 32;
    lemma_pow256_values();
    assert(bytes[at] == major * 32 + info);
    let tail = bytes.subrange(at + 1, end);
    lemma_be_value_bound(tail);
    lemma_be_bytes_of_value(tail);
    assert(bytes.subrange(at, end) =~= seq![bytes[at]] + tail);
    if info < 24 {
        assert(tail =~= Seq::<u8>::empty());
        assert(bytes.subrange(at, end) =~= head(major, argument));
    } else {
        assert(bytes.subrange(at, end) =~= head(major, argument));
    }
}

/// Reads the head at `at`.
pub fn read_head(bytes: &[u8], at: usize) -> (found: Option<(u8, u64, usize)>)
    ensures
        found.is_some() == parse_head(bytes@, at as int).is_some(),
        found.is_some() ==> found.unwrap().0 == parse_head(bytes@, at as int).unwrap().0
            && found.unwrap().1 == parse_head(bytes@, at as int).unwrap().1 && found.unwrap().2
            == parse_head(bytes@, at as int).unwrap().2 && found.unwrap().2 <= bytes@.len(),
{
    let len: usize = bytes.len();
    if at >= len {
        return None;
    }
    let major: u8 = bytes[at] / 32;
    let info: u8 = bytes[at] % 32;
    if info < 24 {
        return Some((major, info as u64, at + 1));
    }
    let width: usize = if info == 24 {
        1
    } else if info == 25 {
        2
    } else if info == 26 {
        4
    } else if info == 27 {
        8
    } else {
        return None;
    };
    if len - at < width + 1 {
        return None;
    }
    let argument: u64 = read_be(bytes, at + 1, width);
    let least: u64 = if info == 24 {
        24
    } else if info == 25 {
        0x100
    } else if info == 26 {
        0x1_0000
    } else {
        0x1_0000_0000
    };
    if argument < least {
        return None;
    }
    Some((major, argument, at + 1 + width))
}

/// The unsigned integer that stands at `at`, and where it ends.
pub open spec fn parse_unsigned(bytes: Seq<u8>, at: int) -> Option<(u64, int)> {
    match parse_head(bytes, at) {
        Some((major, argument, end)) => if major == MAJOR_UNSIGNED {
            Some((argument, end))
        } else {
            None
        },
        None => None,
    }
}

/// The signed integer that stands at `at`, and where it ends.
pub open spec fn parse_signed(bytes: Seq<u8>, at: int) -> Option<(i64, int)> {
    match parse_head(bytes, at) {
        Some((major, argument, end)) => if major == MAJOR_UNSIGNED && argument
            <= 0x7FFF_FFFF_FFFF_FFFF {
            Some((argument as i64, end))
        } else if major == MAJOR_NEGATIVE && argument <= 0x7FFF_FFFF_FFFF_FFFF {
            Some(((-1 - argument) as i64, end))
        } else {
            None
        },
        None => None,
    }
}

/// The truth value that stands at `at`, and where it ends.
pub open spec fn parse_boolean(bytes: Seq<u8>, at: int) -> Option<(bool, int)> {
    if 0 <= at < bytes.len() && bytes[at] == BYTE_TRUE {
        Some((true, at + 1))
    } else if 0 <= at < bytes.len() && bytes[at] == BYTE_FALSE {
        Some((false, at + 1))
    } else {
        None
    }
}

/// The content of the byte string of `count` bytes that stands at `at`, and where it
/// ends.
pub open spec fn parse_byte_string(bytes: Seq<u8>, at: int, count: nat) -> Option<(Seq<u8>, int)> {
    match parse_head(bytes, at) {
        Some((major, argument, end)) => if major == MAJOR_BYTES && argument == count && end
            + count <= bytes.len() {
            Some((bytes.subrange(end, end + count), end + count))
        } else {
            None
        },
        None => None,
    }
}

/// The count of the array that opens at `at`, and where its items begin.
pub open spec fn parse_array_head(bytes: Seq<u8>, at: int) -> Option<(nat, int)> {
    match parse_head(bytes, at) {
        Some((major, argument, end)) => if major == MAJOR_ARRAY && argument <= usize::MAX {
            Some((argument as nat, end))
        } else {
            None
        },
        None => None,
    }
}

pub proof fn lemma_parse_unsigned(bytes: Seq<u8>, at: int, value: u64)
    requires
        sits(bytes, at, unsigned(value)),
    ensures
        parse_unsigned(bytes, at) == Some((value, at + unsigned(value).len())),
{
    lemma_parse_head(bytes, at, MAJOR_UNSIGNED, value);
    lemma_head_len(MAJOR_UNSIGNED, value);
}

pub proof fn lemma_parse_signed(bytes: Seq<u8>, at: int, value: i64)
    requires
        sits(bytes, at, signed(value)),
    ensures
        parse_signed(bytes, at) == Some((value, at + signed(value).len())),
{
    if value >= 0 {
        lemma_parse_head(bytes, at, MAJOR_UNSIGNED, value as u64);
        lemma_head_len(MAJOR_UNSIGNED, value as u64);
    } else {
        lemma_parse_head(bytes, at, MAJOR_NEGATIVE, (-1 - value) as u64);
        lemma_head_len(MAJOR_NEGATIVE, (-1 - value) as u64);
    }
}

pub proof fn lemma_parse_boolean(bytes: Seq<u8>, at: int, value: bool)
    requires
        sits(bytes, at, boolean(value)),
    ensures
        parse_boolean(bytes, at) == Some((value, at + 1)),
{
    assert(bytes[at] == bytes.subrange(at, at + 1)[0]);
}

pub proof fn lemma_parse_byte_string(bytes: Seq<u8>, at: int, content: Seq<u8>)
    requires
        content.len() <= u64::MAX,
        sits(bytes, at, byte_string(content)),
    ensures
        parse_byte_string(bytes, at, content.len()) == Some(
            (content, at + byte_string(content).len()),
        ),
{
    let opening = head(MAJOR_BYTES, content.len() as u64);
    lemma_sits_split(bytes, at, opening, content);
    lemma_parse_head(bytes, at, MAJOR_BYTES, content.len() as u64);
    lemma_head_len(MAJOR_BYTES, content.len() as u64);
}

pub proof fn lemma_parse_array_head(bytes: Seq<u8>, at: int, count: nat)
    requires
        count <= usize::MAX,
        sits(bytes, at, array_head(count)),
    ensures
        parse_array_head(bytes, at) == Some((count, at + array_head(count).len())),
{
    lemma_parse_head(bytes, at, MAJOR_ARRAY, count as u64);
    lemma_head_len(MAJOR_ARRAY, count as u64);
}

/// Reads the unsigned integer at `at`.
pub fn read_unsigned(bytes: &[u8], at: usize) -> (found: Option<(u64, usize)>)
    ensures
        found.is_some() == parse_unsigned(bytes@, at as int).is_some(),
        found.is_some() ==> found.unwrap().0 == parse_unsigned(bytes@, at as int).unwrap().0
            && found.unwrap().1 == parse_unsigned(bytes@, at as int).unwrap().1 && found.unwrap().1
            <= bytes@.len(),
{
    match read_head(bytes, at) {
        Some((major, argument, end)) => if major == MAJOR_UNSIGNED {
            Some((argument, end))
        } else {
            None
        },
        None => None,
    }
}

/// Reads the signed integer at `at`.
pub fn read_signed(bytes: &[u8], at: usize) -> (found: Option<(i64, usize)>)
    ensures
        found.is_some() == parse_signed(bytes@, at as int).is_some(),
        found.is_some() ==> found.unwrap().0 == parse_signed(bytes@, at as int).unwrap().0
            && found.unwrap().1 == parse_signed(bytes@, at as int).unwrap().1 && found.unwrap().1
            <= bytes@.len(),
{
    match read_head(bytes, at) {
        Some((major, argument, end)) => if major == MAJOR_UNSIGNED && argument
            <= 0x7FFF_FFFF_FFFF_FFFF {
            Some((argument as i64, end))
        } else if major == MAJOR_NEGATIVE && argument <= 0x7FFF_FFFF_FFFF_FFFF {
            Some((-1 - (argument as i64), end))
        } else {
            None
        },
        None => None,
    }
}

/// Reads the truth value at `at`.
pub fn read_boolean(bytes: &[u8], at: usize) -> (found: Option<(bool, usize)>)
    ensures
        found.is_some() == parse_boolean(bytes@, at as int).is_some(),
        found.is_some() ==> found.unwrap().0 == parse_boolean(bytes@, at as int).unwrap().0
            && found.unwrap().1 == parse_boolean(bytes@, at as int).unwrap().1 && found.unwrap().1
            <= bytes@.len(),
{
    if at >= bytes.len() {
        return None;
    }
    if bytes[at] == BYTE_TRUE {
        Some((true, at + 1))
    } else if bytes[at] == BYTE_FALSE {
        Some((false, at + 1))
    } else {
        None
    }
}

/// Reads the byte string of `count` bytes at `at`: where its content begins and ends.
pub fn read_byte_string(bytes: &[u8], at: usize, count: usize) -> (found: Option<(usize, usize)>)
    ensures
        found.is_some() == parse_byte_string(bytes@, at as int, count as nat).is_some(),
        found.is_some() ==> found.unwrap().0 <= found.unwrap().1 <= bytes@.len()
            && bytes@.subrange(found.unwrap().0 as int, found.unwrap().1 as int)
            == parse_byte_string(bytes@, at as int, count as nat).unwrap().0 && found.unwrap().1
            == parse_byte_string(bytes@, at as int, count as nat).unwrap().1,
{
    match read_head(bytes, at) {
        Some((major, argument, end)) => if major == MAJOR_BYTES && argument == count as u64
            && bytes.len() - end >= count {
            Some((end, end + count))
        } else {
            None
        },
        None => None,
    }
}

/// Reads the opening of the array at `at`: its count, and where its items begin.
pub fn read_array_head(bytes: &[u8], at: usize) -> (found: Option<(usize, usize)>)
    ensures
        found.is_some() == parse_array_head(bytes@, at as int).is_some(),
        found.is_some() ==> found.unwrap().0 == parse_array_head(bytes@, at as int).unwrap().0
            && found.unwrap().1 == parse_array_head(bytes@, at as int).unwrap().1
            && found.unwrap().1 <= bytes@.len(),
{
    match read_head(bytes, at) {
        Some((major, argument, end)) => if major == MAJOR_ARRAY && argument <= usize::MAX as u64 {
            Some((argument as usize, end))
        } else {
            None
        },
        None => None,
    }
}

/// Whether a reader found what the bytes hold: the value and where it ends, or nothing.
pub open spec fn found_is<T>(found: Option<(T, usize)>, parsed: Option<(T, int)>) -> bool {
    match parsed {
        Some((value, end)) => found == Some((value, end as usize)) && 0 <= end <= usize::MAX,
        None => found.is_none(),
    }
}

/// The 256-bit number that stands at `at` as a string of 32 bytes, and where it ends.
pub open spec fn parse_u256(bytes: Seq<u8>, at: int) -> Option<(U256, int)> {
    match parse_byte_string(bytes, at, 32) {
        Some((content, end)) => Some((U256::from_nat(be_value(content)), end)),
        None => None,
    }
}

/// The canonical bytes of a 256-bit number: a string of its 32 bytes.
pub open spec fn u256_encoding(value: U256) -> Seq<u8> {
    byte_string(be_bytes(value@, 32))
}

pub proof fn lemma_parse_u256(bytes: Seq<u8>, at: int, value: U256)
    requires
        sits(bytes, at, u256_encoding(value)),
    ensures
        parse_u256(bytes, at) == Some((value, at + u256_encoding(value).len())),
        u256_encoding(value).len() == 34,
{
    lemma_u256_bytes(value);
    lemma_parse_byte_string(bytes, at, be_bytes(value@, 32));
    lemma_head_len(MAJOR_BYTES, 32);
}

/// Reads the 256-bit number at `at`.
pub fn read_u256(bytes: &[u8], at: usize) -> (found: Option<(U256, usize)>)
    ensures
        found_is(found, parse_u256(bytes@, at as int)),
        found.is_some() ==> found.unwrap().1 <= bytes@.len(),
{
    match read_byte_string(bytes, at, 32) {
        Some((start, end)) => {
            let content = vstd::slice::slice_subrange(bytes, start, end);
            let value = U256::from_big_endian(content);
            proof {
                lemma_bytes_u256(content@);
                value.lemma_view_injective(U256::from_nat(be_value(content@)));
            }
            Some((value, end))
        },
        None => None,
    }
}

/// Joining is putting the first part before the rest joined.
pub proof fn lemma_join_front(parts: Seq<Seq<u8>>)
    requires
        parts.len() > 0,
    ensures
        join(parts) == parts[0] + join(parts.skip(1)),
    decreases parts.len(),
{
    if parts.len() == 1 {
        assert(parts.drop_last() =~= Seq::<Seq<u8>>::empty());
        assert(parts.skip(1) =~= Seq::<Seq<u8>>::empty());
        assert(join(parts) =~= parts[0] + join(parts.skip(1)));
    } else {
        lemma_join_front(parts.drop_last());
        assert(parts.drop_last().skip(1) =~= parts.skip(1).drop_last());
        assert(parts.skip(1).last() == parts.last());
        assert(join(parts) =~= parts[0] + join(parts.skip(1)));
    }
}

/// An unsigned integer that is read at `at` stands there as it is written.
pub proof fn lemma_unsigned_sound(bytes: Seq<u8>, at: int)
    requires
        parse_unsigned(bytes, at).is_some(),
    ensures
        sits(bytes, at, unsigned(parse_unsigned(bytes, at).unwrap().0)),
        parse_unsigned(bytes, at).unwrap().1 == at + unsigned(
            parse_unsigned(bytes, at).unwrap().0,
        ).len(),
{
    lemma_parse_head_sound(bytes, at);
    lemma_head_len(MAJOR_UNSIGNED, parse_unsigned(bytes, at).unwrap().0);
}

/// A signed integer that is read at `at` stands there as it is written.
pub proof fn lemma_signed_sound(bytes: Seq<u8>, at: int)
    requires
        parse_signed(bytes, at).is_some(),
    ensures
        sits(bytes, at, signed(parse_signed(bytes, at).unwrap().0)),
        parse_signed(bytes, at).unwrap().1 == at + signed(parse_signed(bytes, at).unwrap().0).len(),
{
    lemma_parse_head_sound(bytes, at);
    let (major, argument, end) = parse_head(bytes, at).unwrap();
    lemma_head_len(major, argument);
}

/// A truth value that is read at `at` stands there as it is written.
pub proof fn lemma_boolean_sound(bytes: Seq<u8>, at: int)
    requires
        parse_boolean(bytes, at).is_some(),
    ensures
        sits(bytes, at, boolean(parse_boolean(bytes, at).unwrap().0)),
        parse_boolean(bytes, at).unwrap().1 == at + 1,
{
    assert(bytes.subrange(at, at + 1) =~= seq![bytes[at]]);
}

/// A byte string that is read at `at` stands there as it is written.
pub proof fn lemma_byte_string_sound(bytes: Seq<u8>, at: int, count: nat)
    requires
        parse_byte_string(bytes, at, count).is_some(),
    ensures
        parse_byte_string(bytes, at, count).unwrap().0.len() == count,
        sits(bytes, at, byte_string(parse_byte_string(bytes, at, count).unwrap().0)),
        parse_byte_string(bytes, at, count).unwrap().1 == at + byte_string(
            parse_byte_string(bytes, at, count).unwrap().0,
        ).len(),
{
    lemma_parse_head_sound(bytes, at);
    let (major, argument, start) = parse_head(bytes, at).unwrap();
    lemma_head_len(major, argument);
    let content = bytes.subrange(start, start + count);
    lemma_sits_join(bytes, at, head(MAJOR_BYTES, argument), content);
}

/// The opening of an array that is read at `at` stands there as it is written.
pub proof fn lemma_array_head_sound(bytes: Seq<u8>, at: int)
    requires
        parse_array_head(bytes, at).is_some(),
    ensures
        parse_array_head(bytes, at).unwrap().0 <= usize::MAX,
        sits(bytes, at, array_head(parse_array_head(bytes, at).unwrap().0)),
        parse_array_head(bytes, at).unwrap().1 == at + array_head(
            parse_array_head(bytes, at).unwrap().0,
        ).len(),
{
    lemma_parse_head_sound(bytes, at);
    let (major, argument, end) = parse_head(bytes, at).unwrap();
    lemma_head_len(major, argument);
}

/// A 256-bit number that is read at `at` stands there as it is written.
pub proof fn lemma_u256_sound(bytes: Seq<u8>, at: int)
    requires
        parse_u256(bytes, at).is_some(),
    ensures
        sits(bytes, at, u256_encoding(parse_u256(bytes, at).unwrap().0)),
        parse_u256(bytes, at).unwrap().1 == at + u256_encoding(parse_u256(bytes, at).unwrap().0).len(),
{
    lemma_byte_string_sound(bytes, at, 32);
    lemma_bytes_u256(parse_byte_string(bytes, at, 32).unwrap().0);
}

} // verus!
