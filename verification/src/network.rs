//! What nodes say to each other, and how it is put on the wire.

use vstd::prelude::*;
use vstd::utf8::{
    decode_utf8, decode_utf8_encode_utf8, encode_utf8, encode_utf8_decode_utf8,
    encode_utf8_valid_utf8, valid_utf8,
};
use crate::bytes::{
    be_bytes, be_value, lemma_be_bytes_len, lemma_be_value_of_bytes, lemma_pow256_values, pow256,
    push_be, read_be,
};
use crate::codec::{lemma_sits_all, lemma_sits_whole, whole};
use crate::crypto::PublicKey;
use crate::encoding::{
    array_head, boolean, found_is, head, join, lemma_array_head_sound, lemma_boolean_sound,
    lemma_head_len, lemma_join_front, lemma_join_step, lemma_parse_array_head, lemma_parse_boolean,
    lemma_parse_head, lemma_parse_head_sound, lemma_parse_signed, lemma_parse_unsigned,
    lemma_signed_sound, lemma_sits_join, lemma_sits_split, lemma_unsigned_sound, parse_array_head,
    parse_boolean, parse_head, parse_signed, parse_unsigned, push_array_head, push_boolean,
    push_head, push_signed, push_unsigned, read_array_head, read_boolean, read_head, read_signed,
    read_unsigned, signed, sits, unsigned,
};
use crate::error::BtcError;
use crate::types::block::{Block, BlockView};
use crate::types::transaction::{Transaction, TransactionOutput, TransactionView};

verus! {

/// The major type of a text string.
pub const MAJOR_TEXT: u8 = 3;

/// What one node says to another.
#[derive(Debug)]
pub enum Message {
    /// Asks for the unspent outputs that belong to a key.
    FetchUTXOs(PublicKey),
    /// The unspent outputs of a key, each with its mark.
    UTXOs(Vec<(TransactionOutput, bool)>),
    /// Hands a transaction to the network.
    SubmitTransaction(Transaction),
    /// Tells other nodes of a new transaction.
    NewTransaction(Transaction),
    /// Asks for a block to mine, with the coinbase paid to the key.
    FetchTemplate(PublicKey),
    /// A block to mine.
    Template(Block),
    /// Asks whether a block to mine is still worth mining.
    ValidateTemplate(Block),
    /// Whether the block is.
    TemplateValidity(bool),
    /// Hands in a mined block.
    SubmitTemplate(Block),
    /// Asks a node for the nodes it knows.
    DiscoverNodes,
    /// The addresses of the nodes that a node knows.
    NodeList(Vec<String>),
    /// Asks a node how many blocks it has more than the given number.
    AskDifference(u32),
    /// How many more; negative where it has fewer.
    Difference(i32),
    /// Asks for the block at a height.
    FetchBlock(usize),
    /// Tells other nodes of a new block, or answers `FetchBlock`.
    NewBlock(Block),
}

/// What a message is.
pub enum MessageView {
    /// Asks for the unspent outputs that belong to a key.
    FetchUTXOs(PublicKey),
    /// The unspent outputs of a key, each with its mark.
    UTXOs(Seq<(TransactionOutput, bool)>),
    /// Hands a transaction to the network.
    SubmitTransaction(TransactionView),
    /// Tells other nodes of a new transaction.
    NewTransaction(TransactionView),
    /// Asks for a block to mine, with the coinbase paid to the key.
    FetchTemplate(PublicKey),
    /// A block to mine.
    Template(BlockView),
    /// Asks whether a block to mine is still worth mining.
    ValidateTemplate(BlockView),
    /// Whether the block is.
    TemplateValidity(bool),
    /// Hands in a mined block.
    SubmitTemplate(BlockView),
    /// Asks a node for the nodes it knows.
    DiscoverNodes,
    /// The addresses of the nodes that a node knows.
    NodeList(Seq<Seq<char>>),
    /// Asks a node how many blocks it has more than the given number.
    AskDifference(u32),
    /// How many more; negative where it has fewer.
    Difference(i32),
    /// Asks for the block at a height.
    FetchBlock(usize),
    /// Tells other nodes of a new block, or answers `FetchBlock`.
    NewBlock(BlockView),
}

/// The items as they are.
pub open spec fn plain_views<T>(items: Seq<T>) -> Seq<T> {
    items
}

/// What each text says.
pub open spec fn text_views(texts: Seq<String>) -> Seq<Seq<char>> {
    Seq::new(texts.len(), |i: int| texts[i]@)
}

impl View for Message {
    type V = MessageView;

    open spec fn view(&self) -> MessageView {
        match *self {
            Message::FetchUTXOs(x) => MessageView::FetchUTXOs(x),
            Message::UTXOs(x) => MessageView::UTXOs(x@),
            Message::SubmitTransaction(x) => MessageView::SubmitTransaction(x@),
            Message::NewTransaction(x) => MessageView::NewTransaction(x@),
            Message::FetchTemplate(x) => MessageView::FetchTemplate(x),
            Message::Template(x) => MessageView::Template(x@),
            Message::ValidateTemplate(x) => MessageView::ValidateTemplate(x@),
            Message::TemplateValidity(x) => MessageView::TemplateValidity(x),
            Message::SubmitTemplate(x) => MessageView::SubmitTemplate(x@),
            Message::DiscoverNodes => MessageView::DiscoverNodes,
            Message::NodeList(x) => MessageView::NodeList(text_views(x@)),
            Message::AskDifference(x) => MessageView::AskDifference(x),
            Message::Difference(x) => MessageView::Difference(x),
            Message::FetchBlock(x) => MessageView::FetchBlock(x),
            Message::NewBlock(x) => MessageView::NewBlock(x@),
        }
    }
}

/// The canonical bytes of an output with its mark.
pub open spec fn marked_output_encoding(item: (TransactionOutput, bool)) -> Seq<u8> {
    array_head(2) + item.0.encoding() + boolean(item.1)
}

/// The canonical bytes of each output with its mark, in order.
pub open spec fn marked_output_encodings(items: Seq<(TransactionOutput, bool)>) -> Seq<Seq<u8>> {
    Seq::new(items.len(), |i: int| marked_output_encoding(items[i]))
}

/// The output with its mark that stands at `at`, and where it ends.
#[verifier::opaque]
pub open spec fn parse_marked_output(bytes: Seq<u8>, at: int) -> Option<((TransactionOutput, bool), int)> {
    match parse_array_head(bytes, at) {
        Some((count, a)) => if count != 2 {
            None
        } else {
            match TransactionOutput::parse(bytes, a) {
                Some((output, b)) => match parse_boolean(bytes, b) {
                    Some((marked, end)) => Some(((output, marked), end)),
                    None => None,
                },
                None => None,
            }
        },
        None => None,
    }
}

pub proof fn lemma_parse_marked_output(bytes: Seq<u8>, at: int, item: (TransactionOutput, bool))
    requires
        sits(bytes, at, marked_output_encoding(item)),
    ensures
        parse_marked_output(bytes, at) == Some((item, at + marked_output_encoding(item).len())),
{
    reveal(parse_marked_output);
    let a = array_head(2);
    let b = item.0.encoding();
    let c = boolean(item.1);
    lemma_sits_split(bytes, at, a + b, c);
    lemma_sits_split(bytes, at, a, b);
    lemma_parse_array_head(bytes, at, 2);
    TransactionOutput::lemma_parse(bytes, at + a.len(), item.0);
    lemma_parse_boolean(bytes, at + a.len() + b.len(), item.1);
}

/// An output with its mark that is read at `at` stands there as it is written.
pub proof fn lemma_marked_output_sound(bytes: Seq<u8>, at: int)
    requires
        parse_marked_output(bytes, at).is_some(),
    ensures
        sits(bytes, at, marked_output_encoding(parse_marked_output(bytes, at).unwrap().0)),
        parse_marked_output(bytes, at).unwrap().1 == at + marked_output_encoding(
            parse_marked_output(bytes, at).unwrap().0,
        ).len(),
{
    reveal(parse_marked_output);
    let (count, a) = parse_array_head(bytes, at).unwrap();
    let (output, b) = TransactionOutput::parse(bytes, a).unwrap();
    let (marked, end) = parse_boolean(bytes, b).unwrap();
    lemma_array_head_sound(bytes, at);
    TransactionOutput::lemma_sound(bytes, a);
    lemma_boolean_sound(bytes, b);
    lemma_sits_join(bytes, at, array_head(2), output.encoding());
    lemma_sits_join(bytes, at, array_head(2) + output.encoding(), boolean(marked));
}

/// Reads the output with its mark at `at`.
pub fn read_marked_output(bytes: &[u8], at: usize) -> (found: Option<((TransactionOutput, bool), usize)>)
    ensures
        found_is(found, parse_marked_output(bytes@, at as int)),
        found.is_some() ==> found.unwrap().1 <= bytes@.len(),
{
    reveal(parse_marked_output);
    let (count, a) = match read_array_head(bytes, at) {
        Some(opened) => opened,
        None => {
            return None;
        },
    };
    if count != 2 {
        return None;
    }
    let (output, b) = match TransactionOutput::read(bytes, a) {
        Some(read) => read,
        None => {
            return None;
        },
    };
    let (marked, end) = match read_boolean(bytes, b) {
        Some(read) => read,
        None => {
            return None;
        },
    };
    Some(((output, marked), end))
}

/// Appends an output with its mark.
pub fn push_marked_output(out: &mut Vec<u8>, item: &(TransactionOutput, bool))
    ensures
        final(out)@ == old(out)@ + marked_output_encoding(*item),
{
    push_array_head(out, 2);
    item.0.encode_into(out);
    push_boolean(out, item.1);
    assert(out@ =~= old(out)@ + marked_output_encoding(*item));
}

/// The canonical bytes of a text: a text string of its UTF-8 bytes.
pub open spec fn text_encoding(text: Seq<char>) -> Seq<u8> {
    head(MAJOR_TEXT, encode_utf8(text).len() as u64) + encode_utf8(text)
}

/// The canonical bytes of each text, in order.
pub open spec fn text_encodings(texts: Seq<Seq<char>>) -> Seq<Seq<u8>> {
    Seq::new(texts.len(), |i: int| text_encoding(texts[i]))
}

/// The text that stands at `at`, and where it ends.
#[verifier::opaque]
pub open spec fn parse_text(bytes: Seq<u8>, at: int) -> Option<(Seq<char>, int)> {
    match parse_head(bytes, at) {
        Some((major, length, start)) => if major == MAJOR_TEXT && start + length <= bytes.len()
            && valid_utf8(bytes.subrange(start, start + length)) {
            Some((decode_utf8(bytes.subrange(start, start + length)), start + length))
        } else {
            None
        },
        None => None,
    }
}

pub proof fn lemma_parse_text(bytes: Seq<u8>, at: int, text: Seq<char>)
    requires
        encode_utf8(text).len() <= u64::MAX,
        sits(bytes, at, text_encoding(text)),
    ensures
        parse_text(bytes, at) == Some((text, at + text_encoding(text).len())),
{
    reveal(parse_text);
    let content = encode_utf8(text);
    let opening = head(MAJOR_TEXT, content.len() as u64);
    lemma_sits_split(bytes, at, opening, content);
    lemma_parse_head(bytes, at, MAJOR_TEXT, content.len() as u64);
    lemma_head_len(MAJOR_TEXT, content.len() as u64);
    encode_utf8_valid_utf8(text);
    encode_utf8_decode_utf8(text);
}

/// A text that is read at `at` stands there as it is written.
pub proof fn lemma_text_sound(bytes: Seq<u8>, at: int)
    requires
        parse_text(bytes, at).is_some(),
    ensures
        encode_utf8(parse_text(bytes, at).unwrap().0).len() <= u64::MAX,
        sits(bytes, at, text_encoding(parse_text(bytes, at).unwrap().0)),
        parse_text(bytes, at).unwrap().1 == at + text_encoding(parse_text(bytes, at).unwrap().0).len(),
{
    reveal(parse_text);
    lemma_parse_head_sound(bytes, at);
    let (major, length, start) = parse_head(bytes, at).unwrap();
    lemma_head_len(major, length);
    let content = bytes.subrange(start, start + length);
    decode_utf8_encode_utf8(content);
    lemma_sits_join(bytes, at, head(MAJOR_TEXT, length), content);
}

/// Calls `String::from_utf8`, which gives the text that the bytes are the UTF-8 form
/// of, and fails where they are that of none.
#[verifier::external_body]
fn text_from_utf8(bytes: Vec<u8>) -> (text: Option<String>)
    ensures
        text.is_some() == valid_utf8(bytes@),
        text.is_some() ==> text.unwrap()@ == decode_utf8(bytes@),
{
    String::from_utf8(bytes).ok()
}

/// Reads the text at `at`.
pub fn read_text(bytes: &[u8], at: usize) -> (found: Option<(String, usize)>)
    ensures
        found.is_some() == parse_text(bytes@, at as int).is_some(),
        found.is_some() ==> found.unwrap().0@ == parse_text(bytes@, at as int).unwrap().0
            && found.unwrap().1 == parse_text(bytes@, at as int).unwrap().1 && found.unwrap().1
            <= bytes@.len(),
{
    reveal(parse_text);
    let (major, length, start) = match read_head(bytes, at) {
        Some(opened) => opened,
        None => {
            return None;
        },
    };
    if major != MAJOR_TEXT || length > (bytes.len() - start) as u64 {
        return None;
    }
    let end: usize = start + length as usize;
    let content = vstd::slice::slice_to_vec(vstd::slice::slice_subrange(bytes, start, end));
    match text_from_utf8(content) {
        Some(text) => Some((text, end)),
        None => None,
    }
}

/// Appends a text.
pub fn push_text(out: &mut Vec<u8>, text: &String)
    ensures
        final(out)@ == old(out)@ + text_encoding(text@),
{
    let content = text.as_str().as_bytes();
    let len: usize = content.len();
    push_head(out, MAJOR_TEXT, len as u64);
    let mut copied: usize = 0;
    while copied < len
        invariant
            copied <= len,
            len == content@.len(),
            out@ == old(out)@ + head(MAJOR_TEXT, len as u64) + content@.take(copied as int),
        decreases len - copied,
    {
        out.push(content[copied]);
        copied += 1;
        assert(out@ =~= old(out)@ + head(MAJOR_TEXT, len as u64) + content@.take(copied as int));
    }
    assert(content@.take(len as int) =~= content@);
    assert(out@ =~= old(out)@ + text_encoding(text@));
}

/// The `count` marked_outputs that stand one after the other from `at` on, and where they end.
pub open spec fn parse_marked_outputs(bytes: Seq<u8>, at: int, count: nat) -> Option<(Seq<(TransactionOutput, bool)>, int)>
    decreases count,
{
    if count == 0 {
        if 0 <= at <= bytes.len() {
            Some((Seq::empty(), at))
        } else {
            None
        }
    } else {
        match parse_marked_output(bytes, at) {
            Some((first, next)) => match parse_marked_outputs(bytes, next, (count - 1) as nat) {
                Some((rest, end)) => Some((seq![first] + rest, end)),
                None => None,
            },
            None => None,
        }
    }
}

/// The marked_outputs that stand one after the other from `at` on are the ones read there.
pub proof fn lemma_parse_marked_outputs(bytes: Seq<u8>, at: int, items: Seq<(TransactionOutput, bool)>)
    requires
        sits(bytes, at, join(marked_output_encodings(items))),
    ensures
        parse_marked_outputs(bytes, at, items.len()) == Some((items, at + join(marked_output_encodings(items)).len())),
    decreases items.len(),
{
    let parts = marked_output_encodings(items);
    if items.len() == 0 {
        assert(join(parts) =~= Seq::<u8>::empty());
        assert(items =~= Seq::<(TransactionOutput, bool)>::empty());
    } else {
        lemma_join_front(parts);
        lemma_sits_split(bytes, at, parts[0], join(parts.skip(1)));
        lemma_parse_marked_output(bytes, at, items[0]);
        assert(parts.skip(1) =~= marked_output_encodings(items.skip(1)));
        lemma_parse_marked_outputs(bytes, at + parts[0].len(), items.skip(1));
        assert(seq![items[0]] + items.skip(1) =~= items);
    }
}

/// Reads `count` marked_outputs from `at` on.
pub fn read_marked_outputs(bytes: &[u8], at: usize, count: usize) -> (found: Option<(Vec<(TransactionOutput, bool)>, usize)>)
    requires
        at <= bytes@.len(),
    ensures
        found.is_some() == parse_marked_outputs(bytes@, at as int, count as nat).is_some(),
        found.is_some() ==> plain_views(found.unwrap().0@) == parse_marked_outputs(
            bytes@,
            at as int,
            count as nat,
        ).unwrap().0 && found.unwrap().1 == parse_marked_outputs(bytes@, at as int, count as nat).unwrap().1
            && found.unwrap().1 <= bytes@.len(),
{
    let mut items: Vec<(TransactionOutput, bool)> = Vec::new();
    let mut position: usize = at;
    let mut taken: usize = 0;
    assert(plain_views(items@) =~= Seq::<(TransactionOutput, bool)>::empty());
    while taken < count
        invariant
            taken <= count,
            position <= bytes@.len(),
            parse_marked_outputs(bytes@, at as int, count as nat) == (match parse_marked_outputs(
                bytes@,
                position as int,
                (count - taken) as nat,
            ) {
                Some((rest, end)) => Some((plain_views(items@) + rest, end)),
                None => None,
            }),
        decreases count - taken,
    {
        let ghost before = plain_views(items@);
        match read_marked_output(bytes, position) {
            Some((item, next)) => {
                let ghost seen = item;
                proof {
                    let ahead = parse_marked_outputs(bytes@, next as int, (count - taken - 1) as nat);
                    assert(parse_marked_outputs(bytes@, position as int, (count - taken) as nat) == (match ahead {
                        Some((rest, end)) => Some((seq![seen] + rest, end)),
                        None => None,
                    }));
                    if ahead.is_some() {
                        assert(before + (seq![seen] + ahead.unwrap().0) =~= before.push(seen)
                            + ahead.unwrap().0);
                    }
                }
                items.push(item);
                position = next;
                proof {
                    assert(plain_views(items@) =~= before.push(seen));
                }
            },
            None => {
                return None;
            },
        }
        taken += 1;
    }
    proof {
        assert(plain_views(items@) + Seq::<(TransactionOutput, bool)>::empty() =~= plain_views(items@));
    }
    Some((items, position))
}

/// The `count` texts that stand one after the other from `at` on, and where they end.
pub open spec fn parse_texts(bytes: Seq<u8>, at: int, count: nat) -> Option<(Seq<Seq<char>>, int)>
    decreases count,
{
    if count == 0 {
        if 0 <= at <= bytes.len() {
            Some((Seq::empty(), at))
        } else {
            None
        }
    } else {
        match parse_text(bytes, at) {
            Some((first, next)) => match parse_texts(bytes, next, (count - 1) as nat) {
                Some((rest, end)) => Some((seq![first] + rest, end)),
                None => None,
            },
            None => None,
        }
    }
}

/// The texts that stand one after the other from `at` on are the ones read there.
pub proof fn lemma_parse_texts(bytes: Seq<u8>, at: int, items: Seq<Seq<char>>)
    requires
        sits(bytes, at, join(text_encodings(items))),
        forall|i: int| 0 <= i < items.len() ==> encode_utf8(#[trigger] items[i]).len() <= u64::MAX,
    ensures
        parse_texts(bytes, at, items.len()) == Some((items, at + join(text_encodings(items)).len())),
    decreases items.len(),
{
    let parts = text_encodings(items);
    if items.len() == 0 {
        assert(join(parts) =~= Seq::<u8>::empty());
        assert(items =~= Seq::<Seq<char>>::empty());
    } else {
        lemma_join_front(parts);
        lemma_sits_split(bytes, at, parts[0], join(parts.skip(1)));
        lemma_parse_text(bytes, at, items[0]);
        assert(parts.skip(1) =~= text_encodings(items.skip(1)));
        lemma_parse_texts(bytes, at + parts[0].len(), items.skip(1));
        assert(seq![items[0]] + items.skip(1) =~= items);
    }
}

/// Reads `count` texts from `at` on.
pub fn read_texts(bytes: &[u8], at: usize, count: usize) -> (found: Option<(Vec<String>, usize)>)
    requires
        at <= bytes@.len(),
    ensures
        found.is_some() == parse_texts(bytes@, at as int, count as nat).is_some(),
        found.is_some() ==> text_views(found.unwrap().0@) == parse_texts(
            bytes@,
            at as int,
            count as nat,
        ).unwrap().0 && found.unwrap().1 == parse_texts(bytes@, at as int, count as nat).unwrap().1
            && found.unwrap().1 <= bytes@.len(),
{
    let mut items: Vec<String> = Vec::new();
    let mut position: usize = at;
    let mut taken: usize = 0;
    assert(text_views(items@) =~= Seq::<Seq<char>>::empty());
    while taken < count
        invariant
            taken <= count,
            position <= bytes@.len(),
            parse_texts(bytes@, at as int, count as nat) == (match parse_texts(
                bytes@,
                position as int,
                (count - taken) as nat,
            ) {
                Some((rest, end)) => Some((text_views(items@) + rest, end)),
                None => None,
            }),
        decreases count - taken,
    {
        let ghost before = text_views(items@);
        match read_text(bytes, position) {
            Some((item, next)) => {
                let ghost seen = item@;
                proof {
                    let ahead = parse_texts(bytes@, next as int, (count - taken - 1) as nat);
                    assert(parse_texts(bytes@, position as int, (count - taken) as nat) == (match ahead {
                        Some((rest, end)) => Some((seq![seen] + rest, end)),
                        None => None,
                    }));
                    if ahead.is_some() {
                        assert(before + (seq![seen] + ahead.unwrap().0) =~= before.push(seen)
                            + ahead.unwrap().0);
                    }
                }
                items.push(item);
                position = next;
                proof {
                    assert(text_views(items@) =~= before.push(seen));
                }
            },
            None => {
                return None;
            },
        }
        taken += 1;
    }
    proof {
        assert(text_views(items@) + Seq::<Seq<char>>::empty() =~= text_views(items@));
    }
    Some((items, position))
}

/// The marked_outputs that are read from `at` on stand there as they are written.
pub proof fn lemma_marked_outputs_sound(bytes: Seq<u8>, at: int, count: nat)
    requires
        parse_marked_outputs(bytes, at, count).is_some(),
    ensures
        parse_marked_outputs(bytes, at, count).unwrap().0.len() == count,
        sits(bytes, at, join(marked_output_encodings(parse_marked_outputs(bytes, at, count).unwrap().0))),
        parse_marked_outputs(bytes, at, count).unwrap().1 == at + join(
            marked_output_encodings(parse_marked_outputs(bytes, at, count).unwrap().0),
        ).len(),
    decreases count,
{
    let (items, end) = parse_marked_outputs(bytes, at, count).unwrap();
    let parts = marked_output_encodings(items);
    if count == 0 {
        assert(join(parts) =~= Seq::<u8>::empty());
        assert(bytes.subrange(at, at) =~= Seq::<u8>::empty());
    } else {
        let (first, next) = parse_marked_output(bytes, at).unwrap();
        let (rest, last) = parse_marked_outputs(bytes, next, (count - 1) as nat).unwrap();
        lemma_marked_output_sound(bytes, at);
        lemma_marked_outputs_sound(bytes, next, (count - 1) as nat);
        assert(items =~= seq![first] + rest);
        lemma_join_front(parts);
        assert(parts.skip(1) =~= marked_output_encodings(rest));
        lemma_sits_join(bytes, at, parts[0], join(parts.skip(1)));
    }
}

/// The texts that are read from `at` on stand there as they are written.
pub proof fn lemma_texts_sound(bytes: Seq<u8>, at: int, count: nat)
    requires
        parse_texts(bytes, at, count).is_some(),
    ensures
        parse_texts(bytes, at, count).unwrap().0.len() == count,
        sits(bytes, at, join(text_encodings(parse_texts(bytes, at, count).unwrap().0))),
        parse_texts(bytes, at, count).unwrap().1 == at + join(
            text_encodings(parse_texts(bytes, at, count).unwrap().0),
        ).len(),
        forall|i: int|
            0 <= i < count ==> encode_utf8((#[trigger] parse_texts(bytes, at, count).unwrap().0[i])).len() <= u64::MAX,
    decreases count,
{
    let (items, end) = parse_texts(bytes, at, count).unwrap();
    let parts = text_encodings(items);
    if count == 0 {
        assert(join(parts) =~= Seq::<u8>::empty());
        assert(bytes.subrange(at, at) =~= Seq::<u8>::empty());
    } else {
        let (first, next) = parse_text(bytes, at).unwrap();
        let (rest, last) = parse_texts(bytes, next, (count - 1) as nat).unwrap();
        lemma_text_sound(bytes, at);
        lemma_texts_sound(bytes, next, (count - 1) as nat);
        assert(items =~= seq![first] + rest);
        lemma_join_front(parts);
        assert(parts.skip(1) =~= text_encodings(rest));
        lemma_sits_join(bytes, at, parts[0], join(parts.skip(1)));
        assert forall|i: int| 0 <= i < count implies encode_utf8((#[trigger] items[i])).len() <= u64::MAX by {
            if i > 0 {
                assert(items[i] == rest[i - 1]);
            }
        }
    }
}

/// How many items the array of a message of the kind `tag` holds: the tag, and what the
/// message carries where it carries anything.
pub open spec fn fields(tag: u64) -> nat {
    if tag == 9 {
        1
    } else {
        2
    }
}

impl MessageView {
    /// The number that tells the kinds of message apart on the wire.
    pub open spec fn tag(self) -> u64 {
        match self {
            MessageView::FetchUTXOs(_) => 0,
            MessageView::UTXOs(_) => 1,
            MessageView::SubmitTransaction(_) => 2,
            MessageView::NewTransaction(_) => 3,
            MessageView::FetchTemplate(_) => 4,
            MessageView::Template(_) => 5,
            MessageView::ValidateTemplate(_) => 6,
            MessageView::TemplateValidity(_) => 7,
            MessageView::SubmitTemplate(_) => 8,
            MessageView::DiscoverNodes => 9,
            MessageView::NodeList(_) => 10,
            MessageView::AskDifference(_) => 11,
            MessageView::Difference(_) => 12,
            MessageView::FetchBlock(_) => 13,
            MessageView::NewBlock(_) => 14,
        }
    }

    /// The canonical bytes of what the message carries.
    pub open spec fn payload(self) -> Seq<u8> {
        match self {
            MessageView::FetchUTXOs(x) => x.encoding(),
            MessageView::UTXOs(x) => array_head(x.len()) + join(marked_output_encodings(x)),
            MessageView::SubmitTransaction(x) => x.encoding(),
            MessageView::NewTransaction(x) => x.encoding(),
            MessageView::FetchTemplate(x) => x.encoding(),
            MessageView::Template(x) => x.encoding(),
            MessageView::ValidateTemplate(x) => x.encoding(),
            MessageView::TemplateValidity(x) => boolean(x),
            MessageView::SubmitTemplate(x) => x.encoding(),
            MessageView::DiscoverNodes => Seq::empty(),
            MessageView::NodeList(x) => array_head(x.len()) + join(text_encodings(x)),
            MessageView::AskDifference(x) => unsigned(x as u64),
            MessageView::Difference(x) => signed(x as i64),
            MessageView::FetchBlock(x) => unsigned(x as u64),
            MessageView::NewBlock(x) => x.encoding(),
        }
    }

    /// The canonical bytes: an array of the tag and, where the message carries
    /// anything, of that.
    pub open spec fn encoding(self) -> Seq<u8> {
        array_head(fields(self.tag())) + unsigned(self.tag()) + self.payload()
    }

    /// Whether the message holds no more than a machine can count.
    pub open spec fn bounded(self) -> bool {
        match self {
            MessageView::UTXOs(x) => x.len() <= usize::MAX,
            MessageView::SubmitTransaction(x) => x.bounded(),
            MessageView::NewTransaction(x) => x.bounded(),
            MessageView::Template(x) => x.bounded(),
            MessageView::ValidateTemplate(x) => x.bounded(),
            MessageView::SubmitTemplate(x) => x.bounded(),
            MessageView::NewBlock(x) => x.bounded(),
            MessageView::NodeList(x) => x.len() <= usize::MAX && forall|i: int|
                0 <= i < x.len() ==> encode_utf8(#[trigger] x[i]).len() <= u64::MAX,
            _ => true,
        }
    }
}

/// What a message of the kind `tag` carries, read from `at` on, and where it ends.
#[verifier::opaque]
pub open spec fn parse_payload(bytes: Seq<u8>, at: int, tag: u64) -> Option<(MessageView, int)> {
    if tag == 0 {
        match PublicKey::parse(bytes, at) {
            Some((x, end)) => Some((MessageView::FetchUTXOs(x), end)),
            None => None
        }
    }     else if tag == 1 {
        match parse_array_head(bytes, at) {
            Some((count, a)) => match parse_marked_outputs(bytes, a, count) {
                Some((x, end)) => Some((MessageView::UTXOs(x), end)),
                None => None
            },
            None => None
        }
    }     else if tag == 2 {
        match Transaction::parse(bytes, at) {
            Some((x, end)) => Some((MessageView::SubmitTransaction(x), end)),
            None => None
        }
    }     else if tag == 3 {
        match Transaction::parse(bytes, at) {
            Some((x, end)) => Some((MessageView::NewTransaction(x), end)),
            None => None
        }
    }     else if tag == 4 {
        match PublicKey::parse(bytes, at) {
            Some((x, end)) => Some((MessageView::FetchTemplate(x), end)),
            None => None
        }
    }     else if tag == 5 {
        match Block::parse(bytes, at) {
            Some((x, end)) => Some((MessageView::Template(x), end)),
            None => None
        }
    }     else if tag == 6 {
        match Block::parse(bytes, at) {
            Some((x, end)) => Some((MessageView::ValidateTemplate(x), end)),
            None => None
        }
    }     else if tag == 7 {
        match parse_boolean(bytes, at) {
            Some((x, end)) => Some((MessageView::TemplateValidity(x), end)),
            None => None
        }
    }     else if tag == 8 {
        match Block::parse(bytes, at) {
            Some((x, end)) => Some((MessageView::SubmitTemplate(x), end)),
            None => None
        }
    }     else if tag == 9 {
        Some((MessageView::DiscoverNodes, at))
    }     else if tag == 10 {
        match parse_array_head(bytes, at) {
            Some((count, a)) => match parse_texts(bytes, a, count) {
                Some((x, end)) => Some((MessageView::NodeList(x), end)),
                None => None
            },
            None => None
        }
    }     else if tag == 11 {
        match parse_unsigned(bytes, at) {
            Some((x, end)) => if x <= u32::MAX {
                Some((MessageView::AskDifference(x as u32), end))
            } else {
                None
            },
            None => None
        }
    }     else if tag == 12 {
        match parse_signed(bytes, at) {
            Some((x, end)) => if i32::MIN <= x <= i32::MAX {
                Some((MessageView::Difference(x as i32), end))
            } else {
                None
            },
            None => None
        }
    }     else if tag == 13 {
        match parse_unsigned(bytes, at) {
            Some((x, end)) => if x <= usize::MAX {
                Some((MessageView::FetchBlock(x as usize), end))
            } else {
                None
            },
            None => None
        }
    }     else if tag == 14 {
        match Block::parse(bytes, at) {
            Some((x, end)) => Some((MessageView::NewBlock(x), end)),
            None => None
        }
    } else {
        None
    }
}

/// What a message carries, read from `at` on, stands there as it is written, and the
/// message is of the kind that was asked for.
pub proof fn lemma_payload_sound(bytes: Seq<u8>, at: int, tag: u64)
    requires
        0 <= at <= bytes.len(),
        parse_payload(bytes, at, tag).is_some(),
    ensures
        parse_payload(bytes, at, tag).unwrap().0.tag() == tag,
        parse_payload(bytes, at, tag).unwrap().0.bounded(),
        sits(bytes, at, parse_payload(bytes, at, tag).unwrap().0.payload()),
        parse_payload(bytes, at, tag).unwrap().1 == at + parse_payload(bytes, at, tag).unwrap().0.payload().len(),
{
    reveal(parse_payload);
    if tag == 0 {
        PublicKey::lemma_sound(bytes, at);
    }     else if tag == 1 {
        lemma_array_head_sound(bytes, at);
        let (count, a) = parse_array_head(bytes, at).unwrap();
        lemma_marked_outputs_sound(bytes, a, count);
        let items = parse_marked_outputs(bytes, a, count).unwrap().0;
        lemma_sits_join(bytes, at, array_head(count), join(marked_output_encodings(items)));
    }     else if tag == 2 {
        Transaction::lemma_sound(bytes, at);
    }     else if tag == 3 {
        Transaction::lemma_sound(bytes, at);
    }     else if tag == 4 {
        PublicKey::lemma_sound(bytes, at);
    }     else if tag == 5 {
        Block::lemma_sound(bytes, at);
    }     else if tag == 6 {
        Block::lemma_sound(bytes, at);
    }     else if tag == 7 {
        lemma_boolean_sound(bytes, at);
    }     else if tag == 8 {
        Block::lemma_sound(bytes, at);
    }     else if tag == 9 {
        assert(bytes.subrange(at, at) =~= Seq::<u8>::empty());
    }     else if tag == 10 {
        lemma_array_head_sound(bytes, at);
        let (count, a) = parse_array_head(bytes, at).unwrap();
        lemma_texts_sound(bytes, a, count);
        let items = parse_texts(bytes, a, count).unwrap().0;
        lemma_sits_join(bytes, at, array_head(count), join(text_encodings(items)));
    }     else if tag == 11 {
        lemma_unsigned_sound(bytes, at);
    }     else if tag == 12 {
        lemma_signed_sound(bytes, at);
    }     else if tag == 13 {
        lemma_unsigned_sound(bytes, at);
    }     else if tag == 14 {
        Block::lemma_sound(bytes, at);
    }
}

/// What a message carries, where it stands at `from`, is what is read there for a
/// message of its kind.
pub proof fn lemma_parse_payload(bytes: Seq<u8>, from: int, message: MessageView)
    requires
        sits(bytes, from, message.payload()),
        message.bounded(),
    ensures
        parse_payload(bytes, from, message.tag()) == Some(
            (message, from + message.payload().len()),
        ),
{
    reveal(parse_payload);
    match message {
            MessageView::FetchUTXOs(x) => { PublicKey::lemma_parse(bytes, from, x); }
            MessageView::UTXOs(x) => {
                let opening = array_head(x.len());
                lemma_sits_split(bytes, from, opening, join(marked_output_encodings(x)));
                lemma_parse_array_head(bytes, from, x.len());
                lemma_parse_marked_outputs(bytes, from + opening.len(), x);
            }
            MessageView::SubmitTransaction(x) => { Transaction::lemma_parse(bytes, from, x); }
            MessageView::NewTransaction(x) => { Transaction::lemma_parse(bytes, from, x); }
            MessageView::FetchTemplate(x) => { PublicKey::lemma_parse(bytes, from, x); }
            MessageView::Template(x) => { Block::lemma_parse(bytes, from, x); }
            MessageView::ValidateTemplate(x) => { Block::lemma_parse(bytes, from, x); }
            MessageView::TemplateValidity(x) => { lemma_parse_boolean(bytes, from, x); }
            MessageView::SubmitTemplate(x) => { Block::lemma_parse(bytes, from, x); }
            MessageView::DiscoverNodes => { }
            MessageView::NodeList(x) => {
                let opening = array_head(x.len());
                lemma_sits_split(bytes, from, opening, join(text_encodings(x)));
                lemma_parse_array_head(bytes, from, x.len());
                lemma_parse_texts(bytes, from + opening.len(), x);
            }
            MessageView::AskDifference(x) => { lemma_parse_unsigned(bytes, from, x as u64); }
            MessageView::Difference(x) => { lemma_parse_signed(bytes, from, x as i64); }
            MessageView::FetchBlock(x) => { lemma_parse_unsigned(bytes, from, x as u64); }
            MessageView::NewBlock(x) => { Block::lemma_parse(bytes, from, x); }
    }
}

impl Message {
    /// The message that stands at `at`, and where it ends.
    #[verifier::opaque]
    pub open spec fn parse(bytes: Seq<u8>, at: int) -> Option<(MessageView, int)> {
        match parse_array_head(bytes, at) {
            Some((count, a)) => match parse_unsigned(bytes, a) {
                Some((tag, b)) => if count == fields(tag) {
                    parse_payload(bytes, b, tag)
                } else {
                    None
                },
                None => None,
            },
            None => None,
        }
    }

    /// The message that the bytes are the canonical form of, if they are that of one.
    pub open spec fn decoded(bytes: Seq<u8>) -> Option<MessageView> {
        whole(Self::parse(bytes, 0), bytes.len())
    }

    /// A message that stands at `at` is the message that is read there.
    pub proof fn lemma_parse(bytes: Seq<u8>, at: int, message: MessageView)
        requires
            sits(bytes, at, message.encoding()),
            message.bounded(),
        ensures
            Self::parse(bytes, at) == Some((message, at + message.encoding().len())),
    {
        reveal(Message::parse);
        let a = array_head(fields(message.tag()));
        let b = unsigned(message.tag());
        let c = message.payload();
        lemma_sits_split(bytes, at, a + b, c);
        lemma_sits_split(bytes, at, a, b);
        lemma_parse_array_head(bytes, at, fields(message.tag()));
        lemma_parse_unsigned(bytes, at + a.len(), message.tag());
        lemma_parse_payload(bytes, at + a.len() + b.len(), message);
    }

    /// A message that is read at `at` stands there as it is written.
    pub proof fn lemma_sound(bytes: Seq<u8>, at: int)
        requires
            Self::parse(bytes, at).is_some(),
        ensures
            Self::parse(bytes, at).unwrap().0.bounded(),
            sits(bytes, at, Self::parse(bytes, at).unwrap().0.encoding()),
            Self::parse(bytes, at).unwrap().1 == at + Self::parse(bytes, at).unwrap().0.encoding().len(),
    {
        reveal(Message::parse);
        let (count, a) = parse_array_head(bytes, at).unwrap();
        let (tag, b) = parse_unsigned(bytes, a).unwrap();
        lemma_array_head_sound(bytes, at);
        lemma_unsigned_sound(bytes, a);
        lemma_payload_sound(bytes, b, tag);
        let message = parse_payload(bytes, b, tag).unwrap().0;
        lemma_sits_join(bytes, at, array_head(count), unsigned(tag));
        lemma_sits_join(bytes, at, array_head(count) + unsigned(tag), message.payload());
    }

    /// Reading what was written gives the message back.
    pub proof fn lemma_round_trip(message: MessageView)
        requires
            message.bounded(),
        ensures
            Self::decoded(message.encoding()) == Some(message),
    {
        lemma_sits_whole(message.encoding());
        Self::lemma_parse(message.encoding(), 0, message);
    }

    /// Bytes are read as a message exactly where they are the canonical bytes of that
    /// message, and it holds no more than a machine can count.
    pub proof fn lemma_decoded(bytes: Seq<u8>, message: MessageView)
        ensures
            Self::decoded(bytes) == Some(message) <==> bytes == message.encoding()
                && message.bounded(),
    {
        if bytes == message.encoding() && message.bounded() {
            Self::lemma_round_trip(message);
        }
        if Self::decoded(bytes) == Some(message) {
            Self::lemma_sound(bytes, 0);
            lemma_sits_all(bytes, message.encoding());
        }
    }

    /// Appends the canonical bytes.
    pub fn encode_into(&self, out: &mut Vec<u8>)
        ensures
            final(out)@ == old(out)@ + self@.encoding(),
    {
        push_array_head(
            out,
            match self {
                Message::DiscoverNodes => 1,
                _ => 2,
            },
        );
        match self {
            Message::FetchUTXOs(x) => { push_unsigned(out, 0); out_key(out, x); }
            Message::UTXOs(x) => { push_unsigned(out, 1); push_marked_outputs(out, x); }
            Message::SubmitTransaction(x) => { push_unsigned(out, 2); x.encode_into(out); }
            Message::NewTransaction(x) => { push_unsigned(out, 3); x.encode_into(out); }
            Message::FetchTemplate(x) => { push_unsigned(out, 4); out_key(out, x); }
            Message::Template(x) => { push_unsigned(out, 5); x.encode_into(out); }
            Message::ValidateTemplate(x) => { push_unsigned(out, 6); x.encode_into(out); }
            Message::TemplateValidity(x) => { push_unsigned(out, 7); push_boolean(out, *x); }
            Message::SubmitTemplate(x) => { push_unsigned(out, 8); x.encode_into(out); }
            Message::DiscoverNodes => { push_unsigned(out, 9); }
            Message::NodeList(x) => { push_unsigned(out, 10); push_texts(out, x); }
            Message::AskDifference(x) => { push_unsigned(out, 11); push_unsigned(out, *x as u64); }
            Message::Difference(x) => { push_unsigned(out, 12); push_signed(out, *x as i64); }
            Message::FetchBlock(x) => { push_unsigned(out, 13); push_unsigned(out, *x as u64); }
            Message::NewBlock(x) => { push_unsigned(out, 14); x.encode_into(out); }
        }
        assert(out@ =~= old(out)@ + self@.encoding());
    }

    /// The canonical bytes.
    pub fn encode(&self) -> (bytes: Vec<u8>)
        ensures
            bytes@ == self@.encoding(),
    {
        let mut bytes: Vec<u8> = Vec::new();
        self.encode_into(&mut bytes);
        assert(bytes@ =~= self@.encoding());
        bytes
    }

    /// Reads a message from its canonical bytes; `IoError` for any other bytes.
    pub fn decode(bytes: &[u8]) -> (result: Result<Message, BtcError>)
        ensures
            result.is_ok() == Self::decoded(bytes@).is_some(),
            result.is_ok() ==> result.unwrap()@ == Self::decoded(bytes@).unwrap(),
            result.is_err() ==> result == Err::<Message, BtcError>(BtcError::IoError),
            result.is_ok() ==> bytes@ == result.unwrap()@.encoding(),
            forall|value: MessageView|
                value.bounded() && bytes@ == #[trigger] value.encoding() ==> result.is_ok()
                    && result.unwrap()@ == value,
    {
        reveal(Message::parse);
        proof {
            if Self::decoded(bytes@).is_some() {
                Self::lemma_decoded(bytes@, Self::decoded(bytes@).unwrap());
            }
            assert forall|value: MessageView|
                value.bounded() && bytes@ == #[trigger] value.encoding() implies Self::decoded(
                bytes@,
            ) == Some(value) by {
                Self::lemma_decoded(bytes@, value);
            }
        }
        let (count, a) = match read_array_head(bytes, 0) {
            Some(opened) => opened,
            None => {
                return Err(BtcError::IoError);
            },
        };
        let (tag, b) = match read_unsigned(bytes, a) {
            Some(read) => read,
            None => {
                return Err(BtcError::IoError);
            },
        };
        if (tag == 9 && count != 1) || (tag != 9 && count != 2) {
            return Err(BtcError::IoError);
        }
        let (message, end) = match read_payload(bytes, b, tag) {
            Some(read) => read,
            None => {
                return Err(BtcError::IoError);
            },
        };
        if end != bytes.len() {
            return Err(BtcError::IoError);
        }
        Ok(message)
    }
}

/// Appends the canonical bytes of a key.
fn out_key(out: &mut Vec<u8>, key: &PublicKey)
    ensures
        final(out)@ == old(out)@ + key.encoding(),
{
    let bytes = key.to_sec1_bytes();
    crate::encoding::push_byte_string(out, bytes.as_slice());
}

/// Appends the array of outputs with their marks.
fn push_marked_outputs(out: &mut Vec<u8>, items: &Vec<(TransactionOutput, bool)>)
    ensures
        final(out)@ == old(out)@ + array_head(items@.len()) + join(marked_output_encodings(items@)),
{
    push_array_head(out, items.len());
    let ghost opened = out@;
    let ghost parts = marked_output_encodings(items@);
    let mut i: usize = 0;
    assert(out@ =~= opened + join(parts.take(0)));
    while i < items.len()
        invariant
            i <= items@.len(),
            parts == marked_output_encodings(items@),
            out@ == opened + join(parts.take(i as int)),
        decreases items@.len() - i,
    {
        push_marked_output(out, &items[i]);
        proof {
            lemma_join_step(parts, i as int);
            assert(out@ =~= opened + join(parts.take(i + 1)));
        }
        i += 1;
    }
    assert(parts.take(items@.len() as int) =~= parts);
}

/// Appends the array of texts.
fn push_texts(out: &mut Vec<u8>, items: &Vec<String>)
    ensures
        final(out)@ == old(out)@ + array_head(items@.len()) + join(text_encodings(text_views(items@))),
{
    push_array_head(out, items.len());
    let ghost opened = out@;
    let ghost parts = text_encodings(text_views(items@));
    let mut i: usize = 0;
    assert(out@ =~= opened + join(parts.take(0)));
    while i < items.len()
        invariant
            i <= items@.len(),
            parts == text_encodings(text_views(items@)),
            out@ == opened + join(parts.take(i as int)),
        decreases items@.len() - i,
    {
        push_text(out, &items[i]);
        proof {
            lemma_join_step(parts, i as int);
            assert(out@ =~= opened + join(parts.take(i + 1)));
        }
        i += 1;
    }
    assert(parts.take(items@.len() as int) =~= parts);
}

/// Reads what a message of the kind `tag` carries, from `at` on.
fn read_payload(bytes: &[u8], at: usize, tag: u64) -> (found: Option<(Message, usize)>)
    requires
        at <= bytes@.len(),
    ensures
        found.is_some() == parse_payload(bytes@, at as int, tag).is_some(),
        found.is_some() ==> found.unwrap().0@ == parse_payload(bytes@, at as int, tag).unwrap().0
            && found.unwrap().1 == parse_payload(bytes@, at as int, tag).unwrap().1,
{
    reveal(parse_payload);
    if tag == 0 {
        match PublicKey::read(bytes, at) {
            Some((x, end)) => Some((Message::FetchUTXOs(x), end)),
            None => None
        }
    }     else if tag == 1 {
        match read_array_head(bytes, at) {
            Some((count, a)) => match read_marked_outputs(bytes, a, count) {
                Some((x, end)) => Some((Message::UTXOs(x), end)),
                None => None
            },
            None => None
        }
    }     else if tag == 2 {
        match Transaction::read(bytes, at) {
            Some((x, end)) => Some((Message::SubmitTransaction(x), end)),
            None => None
        }
    }     else if tag == 3 {
        match Transaction::read(bytes, at) {
            Some((x, end)) => Some((Message::NewTransaction(x), end)),
            None => None
        }
    }     else if tag == 4 {
        match PublicKey::read(bytes, at) {
            Some((x, end)) => Some((Message::FetchTemplate(x), end)),
            None => None
        }
    }     else if tag == 5 {
        match Block::read(bytes, at) {
            Some((x, end)) => Some((Message::Template(x), end)),
            None => None
        }
    }     else if tag == 6 {
        match Block::read(bytes, at) {
            Some((x, end)) => Some((Message::ValidateTemplate(x), end)),
            None => None
        }
    }     else if tag == 7 {
        match read_boolean(bytes, at) {
            Some((x, end)) => Some((Message::TemplateValidity(x), end)),
            None => None
        }
    }     else if tag == 8 {
        match Block::read(bytes, at) {
            Some((x, end)) => Some((Message::SubmitTemplate(x), end)),
            None => None
        }
    }     else if tag == 9 {
        Some((Message::DiscoverNodes, at))
    }     else if tag == 10 {
        match read_array_head(bytes, at) {
            Some((count, a)) => match read_texts(bytes, a, count) {
                Some((x, end)) => Some((Message::NodeList(x), end)),
                None => None
            },
            None => None
        }
    }     else if tag == 11 {
        match read_unsigned(bytes, at) {
            Some((x, end)) => if x <= u32::MAX as u64 {
                Some((Message::AskDifference(x as u32), end))
            } else {
                None
            },
            None => None
        }
    }     else if tag == 12 {
        match read_signed(bytes, at) {
            Some((x, end)) => if i32::MIN as i64 <= x && x <= i32::MAX as i64 {
                Some((Message::Difference(x as i32), end))
            } else {
                None
            },
            None => None
        }
    }     else if tag == 13 {
        match read_unsigned(bytes, at) {
            Some((x, end)) => if x <= usize::MAX as u64 {
                Some((Message::FetchBlock(x as usize), end))
            } else {
                None
            },
            None => None
        }
    }     else if tag == 14 {
        match Block::read(bytes, at) {
            Some((x, end)) => Some((Message::NewBlock(x), end)),
            None => None
        }
    } else {
        None
    }
}

/// A message on the wire: its length in 8 bytes, most significant first, then its bytes.
pub open spec fn framed(payload: Seq<u8>) -> Seq<u8> {
    be_bytes(payload.len(), 8) + payload
}

/// Puts the length before the bytes of a message.
pub fn frame(payload: &[u8]) -> (wire: Vec<u8>)
    ensures
        wire@ == framed(payload@),
{
    let mut wire: Vec<u8> = Vec::new();
    let len: usize = payload.len();
    push_be(&mut wire, len as u64, 8);
    let mut copied: usize = 0;
    while copied < len
        invariant
            copied <= len,
            len == payload@.len(),
            wire@ == be_bytes(len as nat, 8) + payload@.take(copied as int),
        decreases len - copied,
    {
        wire.push(payload[copied]);
        copied += 1;
        assert(wire@ =~= be_bytes(len as nat, 8) + payload@.take(copied as int));
    }
    assert(payload@.take(len as int) =~= payload@);
    wire
}

/// How many bytes of message follow a length prefix; `None` where the prefix is not of
/// 8 bytes or names more bytes than a machine can hold.
pub fn framed_length(prefix: &[u8]) -> (length: Option<usize>)
    ensures
        length.is_some() == (prefix@.len() == 8 && be_value(prefix@) <= usize::MAX),
        length.is_some() ==> length.unwrap() == be_value(prefix@),
{
    if prefix.len() != 8 {
        return None;
    }
    let length: u64 = read_be(prefix, 0, 8);
    assert(prefix@.subrange(0, 8) =~= prefix@);
    if length > usize::MAX as u64 {
        return None;
    }
    Some(length as usize)
}

/// The length prefix of a framed message names the length of the message.
pub proof fn lemma_framed(payload: Seq<u8>)
    requires
        payload.len() <= usize::MAX,
    ensures
        framed(payload).len() == 8 + payload.len(),
        be_value(framed(payload).subrange(0, 8)) == payload.len(),
        framed(payload).subrange(8, 8 + payload.len() as int) == payload,
{
    lemma_be_bytes_len(payload.len(), 8);
    lemma_be_value_of_bytes(payload.len(), 8);
    lemma_pow256_values();
    vstd::arithmetic::div_mod::lemma_small_mod(payload.len(), pow256(8));
    assert(framed(payload).subrange(0, 8) =~= be_bytes(payload.len(), 8));
    assert(framed(payload).subrange(8, 8 + payload.len() as int) =~= payload);
}

} // verus!
