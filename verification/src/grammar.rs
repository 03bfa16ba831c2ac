//! The grammar, as a function from bytes to the tree they spell.
//!
//! A value starts at a cursor and is one of four productions, chosen by the
//! byte at the cursor:
//!
//! * an ASCII digit opens a length-prefixed string: digits, `:`, payload;
//! * `i` opens an integer: `i`, body, `e`;
//! * `l` opens a list: `l`, values, `e`;
//! * `d` opens a dictionary: `d`, pairs of a text key and a value, `e`.
//!
//! Every other byte is an error, and so is the end of the input.

use vstd::prelude::*;
use vstd::utf8::{decode_utf8, valid_utf8};
use crate::error::DecodeError;
use crate::lexical::{
    all_digits, decimal, first_at, fits_i128, is_digit, is_signed_decimal, lemma_first_at,
    signed_value, COLON, END,
};
use crate::model::{dict_of, Node, Tree};

verus! {

/// `i` opens an integer.
pub const INTEGER: u8 = 0x69;

/// `l` opens a list.
pub const LIST: u8 = 0x6C;

/// `d` opens a dictionary.
pub const DICT: u8 = 0x64;

/// How many lists and dictionaries may be open at once. The decoder recurses
/// once for each, so this bounds the stack that an input can make it use.
pub const MAX_DEPTH: usize = 256;

/// What a payload is: text where it is valid UTF-8, raw bytes where it is not.
pub open spec fn classify(payload: Seq<u8>) -> Tree {
    if valid_utf8(payload) {
        Tree::Text(decode_utf8(payload))
    } else {
        Tree::Bytes(payload)
    }
}

/// The length-prefixed string that starts at `at`, and the index after it.
pub open spec fn parse_string(input: Seq<u8>, at: int) -> Result<(Node, int), DecodeError> {
    let colon = first_at(input, COLON, at);
    let prefix = input.subrange(at, colon);
    if colon >= input.len() || !all_digits(prefix) {
        Err(DecodeError::MalformedLength)
    } else if colon + 1 + decimal(prefix) > input.len() {
        Err(DecodeError::TruncatedInput)
    } else {
        let end = colon + 1 + decimal(prefix);
        Ok((Node { value: classify(input.subrange(colon + 1, end)), span: input.subrange(at, end) }, end))
    }
}

/// The integer that starts at `at`, and the index after it.
pub open spec fn parse_integer(input: Seq<u8>, at: int) -> Result<(Node, int), DecodeError> {
    let close = first_at(input, END, at + 1);
    let body = input.subrange(at + 1, close);
    if close >= input.len() {
        Err(DecodeError::UnterminatedInteger)
    } else if !is_signed_decimal(body) || !fits_i128(signed_value(body)) {
        Err(DecodeError::InvalidInteger)
    } else {
        Ok((Node { value: Tree::Integer(signed_value(body)), span: input.subrange(at, close + 1) }, close + 1))
    }
}

/// What a collection awaits at the cursor: a list its next item, a
/// dictionary the key of its next pair or the value that goes with a key.
pub enum Slot {
    Item,
    Key,
    Value,
}

impl Slot {
    /// The slot that follows this one once it is filled.
    pub open spec fn following(self) -> Slot {
        match self {
            Slot::Item => Slot::Item,
            Slot::Key => Slot::Value,
            Slot::Value => Slot::Key,
        }
    }
}

/// The value that starts at `at`, and the index after it. `depth` is how many
/// lists and dictionaries may still be open at once from here on.
pub open spec fn parse_value(input: Seq<u8>, at: int, depth: nat) -> Result<(Node, int), DecodeError>
    decreases depth, input.len() - at, 0nat,
{
    if at < 0 || at >= input.len() {
        Err(DecodeError::TruncatedInput)
    } else if is_digit(input[at]) {
        parse_string(input, at)
    } else if input[at] == INTEGER {
        parse_integer(input, at)
    } else if input[at] == LIST {
        if depth == 0 {
            Err(DecodeError::NestingTooDeep)
        } else {
            match parse_children(input, at + 1, (depth - 1) as nat, Slot::Item) {
                Ok((items, end)) => Ok(
                    (Node { value: Tree::List(items), span: input.subrange(at, end) }, end),
                ),
                Err(e) => Err(e),
            }
        }
    } else if input[at] == DICT {
        if depth == 0 {
            Err(DecodeError::NestingTooDeep)
        } else {
            match parse_children(input, at + 1, (depth - 1) as nat, Slot::Key) {
                Ok((children, end)) => Ok(
                    (
                        Node {
                            value: Tree::Dict(dict_of(paired(children))),
                            span: input.subrange(at, end),
                        },
                        end,
                    ),
                ),
                Err(e) => Err(e),
            }
        }
    } else {
        Err(DecodeError::UnexpectedByte)
    }
}

/// The children of a collection from `at` up to its closing `e`, in order, and
/// the index after that `e`. `slot` is what the collection awaits at `at`.
///
/// In a dictionary the children are key, value, key, value and so on. A key
/// that is not text is an error as soon as it is decoded. A closing `e` where
/// a value is awaited is an error as well: it opens no value.
///
/// A value ends after its first byte and inside the input
/// (`lemma_value_advances`), so `TruncatedInput` never comes from the test on
/// `next`; the test is what makes the definition well-founded.
pub open spec fn parse_children(input: Seq<u8>, at: int, depth: nat, slot: Slot) -> Result<
    (Seq<Node>, int),
    DecodeError,
>
    decreases depth, input.len() - at, 1nat,
{
    if at < 0 || at >= input.len() {
        Err(DecodeError::UnterminatedCollection)
    } else if input[at] == END {
        if slot is Value {
            Err(DecodeError::UnexpectedByte)
        } else {
            Ok((Seq::empty(), at + 1))
        }
    } else {
        match parse_value(input, at, depth) {
            Err(e) => Err(e),
            Ok((child, next)) => if slot is Key && !(child.value is Text) {
                Err(DecodeError::NonTextKey)
            } else if !(at < next <= input.len()) {
                Err(DecodeError::TruncatedInput)
            } else {
                match parse_children(input, next, depth, slot.following()) {
                    Err(e) => Err(e),
                    Ok((rest, end)) => Ok((seq![child] + rest, end)),
                }
            },
        }
    }
}

/// The pairs of a dictionary, in order, from its children: each key's text
/// with the value that follows it.
pub open spec fn paired(children: Seq<Node>) -> Seq<(Seq<char>, Node)> {
    Seq::new(
        (children.len() / 2) as nat,
        |i: int| (children[2 * i].value->Text_0, children[2 * i + 1]),
    )
}

/// The tree that `input` spells from its first byte on, at the depth allowed.
/// Bytes after the value are not looked at.
pub open spec fn decode(input: Seq<u8>) -> Result<Node, DecodeError> {
    match parse_value(input, 0, MAX_DEPTH as nat) {
        Ok((node, _)) => Ok(node),
        Err(e) => Err(e),
    }
}

/// A value that decodes ends after its first byte and inside the input, and
/// its span is the input from its first byte to its end.
pub proof fn lemma_value_advances(input: Seq<u8>, at: int, depth: nat)
    requires
        parse_value(input, at, depth) is Ok,
    ensures
        0 <= at < parse_value(input, at, depth)->Ok_0.1 <= input.len(),
        parse_value(input, at, depth)->Ok_0.0.span == input.subrange(
            at,
            parse_value(input, at, depth)->Ok_0.1,
        ),
    decreases depth, input.len() - at, 0nat,
{
    if is_digit(input[at]) {
        lemma_first_at(input, COLON, at);
    } else if input[at] == INTEGER {
        lemma_first_at(input, END, at + 1);
    } else if input[at] == LIST {
        lemma_children_advance(input, at + 1, (depth - 1) as nat, Slot::Item);
    } else if input[at] == DICT {
        lemma_children_advance(input, at + 1, (depth - 1) as nat, Slot::Key);
    }
}

/// The children of a collection that decodes end after the cursor and inside
/// the input.
pub proof fn lemma_children_advance(input: Seq<u8>, at: int, depth: nat, slot: Slot)
    requires
        parse_children(input, at, depth, slot) is Ok,
    ensures
        0 <= at < parse_children(input, at, depth, slot)->Ok_0.1 <= input.len(),
    decreases depth, input.len() - at, 1nat,
{
    if input[at] != END {
        lemma_value_advances(input, at, depth);
        let next = parse_value(input, at, depth)->Ok_0.1;
        lemma_children_advance(input, next, depth, slot.following());
    }
}

/// `parse_children` without the test that never fails: where the child at the
/// cursor decodes, and is text where a key is awaited, the children are that
/// child and then the children from its end on.
pub proof fn lemma_children_step(input: Seq<u8>, at: int, depth: nat, slot: Slot)
    requires
        0 <= at < input.len(),
        input[at] != END,
        parse_value(input, at, depth) is Ok,
        slot is Key ==> parse_value(input, at, depth)->Ok_0.0.value is Text,
    ensures
        parse_children(input, at, depth, slot) == match parse_children(
            input,
            parse_value(input, at, depth)->Ok_0.1,
            depth,
            slot.following(),
        ) {
            Err(e) => Err(e),
            Ok((rest, end)) => Ok((seq![parse_value(input, at, depth)->Ok_0.0] + rest, end)),
        },
{
    lemma_value_advances(input, at, depth);
}

} // verus!
