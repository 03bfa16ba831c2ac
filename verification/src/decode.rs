//! The decoder: one pass over the input that follows the grammar.

use vstd::prelude::*;
use vstd::slice::{slice_subrange, slice_to_vec};
use vstd::utf8::encode_utf8_decode_utf8;
use crate::error::DecodeError;
use crate::grammar::{
    classify, decode, lemma_children_step, lemma_value_advances, paired, parse_children,
    parse_integer, parse_string, parse_value, Slot, DICT, INTEGER, LIST, MAX_DEPTH,
};
use crate::laws::{exact, is_one_value, lemma_root_span};
use crate::lexical::{
    digits_only, find_byte, lemma_first_at, read_decimal, read_signed, COLON, END,
};
use crate::model::{dict_of, lemma_dict_of_push, Node, Tree};
use crate::text::text_of;
use crate::value::{distinct_keys, nodes_of, pairs_of, put, Bee, BeeValue};

verus! {

/// What a decoding step returned, as the model of its node and the index
/// after it.
pub open spec fn outcome(r: Result<(Bee, usize), DecodeError>) -> Result<(Node, int), DecodeError> {
    match r {
        Ok((node, next)) => Ok((node@, next as int)),
        Err(e) => Err(e),
    }
}

/// The children `front` followed by the children that `rest` found.
pub open spec fn after(front: Seq<Node>, rest: Result<(Seq<Node>, int), DecodeError>) -> Result<
    (Seq<Node>, int),
    DecodeError,
> {
    match rest {
        Ok((nodes, end)) => Ok((front + nodes, end)),
        Err(e) => Err(e),
    }
}

/// A copy of `bytes[from..to)`.
fn copy_range(bytes: &Vec<u8>, from: usize, to: usize) -> (r: Vec<u8>)
    requires
        from <= to <= bytes.len(),
    ensures
        r@ == bytes@.subrange(from as int, to as int),
{
    slice_to_vec(slice_subrange(bytes.as_slice(), from, to))
}

/// Decodes the length-prefixed string that starts at `at`.
pub(crate) fn decode_string(bytes: &Vec<u8>, at: usize) -> (r: Result<(Bee, usize), DecodeError>)
    requires
        at <= bytes.len(),
    ensures
        outcome(r) == parse_string(bytes@, at as int),
{
    proof {
        lemma_first_at(bytes@, COLON, at as int);
    }
    let colon: usize = match find_byte(bytes, COLON, at) {
        Some(c) => c,
        None => {
            return Err(DecodeError::MalformedLength);
        },
    };
    if !digits_only(bytes, at, colon) {
        return Err(DecodeError::MalformedLength);
    }
    let room: usize = bytes.len() - colon - 1;
    let length: usize = match read_decimal(bytes, at, colon, room as u128) {
        Some(n) => n as usize,
        None => {
            return Err(DecodeError::TruncatedInput);
        },
    };
    let end: usize = colon + 1 + length;
    let payload = copy_range(bytes, colon + 1, end);
    let raw = copy_range(bytes, at, end);
    let ghost content = payload@;
    let value = match text_of(payload) {
        Some(text) => {
            proof {
                encode_utf8_decode_utf8(text@);
            }
            BeeValue::String(text)
        },
        None => BeeValue::Raw(copy_range(bytes, colon + 1, end)),
    };
    assert(value@ == classify(content));
    Ok((Bee::new(value, raw), end))
}

/// Decodes the integer that starts at `at`, where the `i` stands.
pub(crate) fn decode_integer(bytes: &Vec<u8>, at: usize) -> (r: Result<(Bee, usize), DecodeError>)
    requires
        at < bytes.len(),
    ensures
        outcome(r) == parse_integer(bytes@, at as int),
{
    proof {
        lemma_first_at(bytes@, END, at + 1);
    }
    let close: usize = match find_byte(bytes, END, at + 1) {
        Some(c) => c,
        None => {
            return Err(DecodeError::UnterminatedInteger);
        },
    };
    match read_signed(bytes, at + 1, close) {
        Some(v) => Ok((Bee::new(BeeValue::Integer(v), copy_range(bytes, at, close + 1)), close + 1)),
        None => Err(DecodeError::InvalidInteger),
    }
}

/// The node that a list is, from what its children decoded to.
pub open spec fn list_node(input: Seq<u8>, at: int, children: Result<(Seq<Node>, int), DecodeError>) -> Result<
    (Node, int),
    DecodeError,
> {
    match children {
        Ok((items, end)) => Ok((Node { value: Tree::List(items), span: input.subrange(at, end) }, end)),
        Err(e) => Err(e),
    }
}

/// The node that a dictionary is, from what its children decoded to.
pub open spec fn dict_node(input: Seq<u8>, at: int, children: Result<(Seq<Node>, int), DecodeError>) -> Result<
    (Node, int),
    DecodeError,
> {
    match children {
        Ok((nodes, end)) => Ok(
            (Node { value: Tree::Dict(dict_of(paired(nodes))), span: input.subrange(at, end) }, end),
        ),
        Err(e) => Err(e),
    }
}

/// Decodes the list that starts at `at`, where the `l` stands. `depth` is
/// how many collections may be open at once inside the list.
pub(crate) fn decode_list(bytes: &Vec<u8>, at: usize, depth: usize) -> (r: Result<(Bee, usize), DecodeError>)
    requires
        at < bytes.len(),
    ensures
        outcome(r) == list_node(
            bytes@,
            at as int,
            parse_children(bytes@, at + 1, depth as nat, Slot::Item),
        ),
    decreases depth, 1nat,
{
    let ghost whole = parse_children(bytes@, at + 1, depth as nat, Slot::Item);
    let mut items: Vec<Bee> = Vec::new();
    let mut cursor: usize = at + 1;
    assert(nodes_of(items@) + Seq::<Node>::empty() =~= Seq::<Node>::empty());
    while cursor < bytes.len() && bytes[cursor] != END
        invariant
            at < cursor <= bytes.len(),
            whole == parse_children(bytes@, at + 1, depth as nat, Slot::Item),
            whole == after(
                nodes_of(items@),
                parse_children(bytes@, cursor as int, depth as nat, Slot::Item),
            ),
        decreases bytes.len() - cursor,
    {
        let ghost front = nodes_of(items@);
        match BeeValue::dfs(bytes, cursor, depth) {
            Err(e) => {
                return Err(e);
            },
            Ok((child, next)) => {
                proof {
                    lemma_value_advances(bytes@, cursor as int, depth as nat);
                    lemma_children_step(bytes@, cursor as int, depth as nat, Slot::Item);
                    let rest = parse_children(bytes@, next as int, depth as nat, Slot::Item);
                    if rest is Ok {
                        assert(front + (seq![child@] + rest->Ok_0.0) =~= front.push(child@)
                            + rest->Ok_0.0);
                    }
                }
                items.push(child);
                assert(nodes_of(items@) =~= front.push(child@));
                cursor = next;
            },
        }
    }
    if cursor >= bytes.len() {
        return Err(DecodeError::UnterminatedCollection);
    }
    assert(nodes_of(items@) + Seq::<Node>::empty() =~= nodes_of(items@));
    Ok((Bee::new(BeeValue::List(items), copy_range(bytes, at, cursor + 1)), cursor + 1))
}

/// Decodes the dictionary that starts at `at`, where the `d` stands.
/// `depth` is how many collections may be open at once inside the
/// dictionary. Of two pairs with one key the later stays.
pub(crate) fn decode_dict(bytes: &Vec<u8>, at: usize, depth: usize) -> (r: Result<(Bee, usize), DecodeError>)
    requires
        at < bytes.len(),
    ensures
        outcome(r) == dict_node(
            bytes@,
            at as int,
            parse_children(bytes@, at + 1, depth as nat, Slot::Key),
        ),
    decreases depth, 1nat,
{
    let ghost whole = parse_children(bytes@, at + 1, depth as nat, Slot::Key);
    let ghost mut children: Seq<Node> = Seq::empty();
    let mut entries: Vec<(String, Bee)> = Vec::new();
    let mut cursor: usize = at + 1;
    assert(paired(children) =~= pairs_of(entries@));
    assert(children + Seq::<Node>::empty() =~= children);
    while cursor < bytes.len() && bytes[cursor] != END
        invariant
            at < cursor <= bytes.len(),
            whole == parse_children(bytes@, at + 1, depth as nat, Slot::Key),
            whole == after(children, parse_children(bytes@, cursor as int, depth as nat, Slot::Key)),
            children.len() % 2 == 0,
            distinct_keys(entries@),
            dict_of(pairs_of(entries@)) == dict_of(paired(children)),
        decreases bytes.len() - cursor,
    {
        let (key, mid) = match BeeValue::dfs(bytes, cursor, depth) {
            Err(e) => {
                return Err(e);
            },
            Ok(found) => found,
        };
        let text = match key.get_string() {
            None => {
                return Err(DecodeError::NonTextKey);
            },
            Some(text) => text,
        };
        proof {
            lemma_value_advances(bytes@, cursor as int, depth as nat);
            lemma_children_step(bytes@, cursor as int, depth as nat, Slot::Key);
        }
        if mid >= bytes.len() {
            return Err(DecodeError::UnterminatedCollection);
        }
        if bytes[mid] == END {
            return Err(DecodeError::UnexpectedByte);
        }
        let (value, next) = match BeeValue::dfs(bytes, mid, depth) {
            Err(e) => {
                return Err(e);
            },
            Ok(found) => found,
        };
        proof {
            lemma_value_advances(bytes@, mid as int, depth as nat);
            lemma_children_step(bytes@, mid as int, depth as nat, Slot::Value);
            let rest = parse_children(bytes@, next as int, depth as nat, Slot::Key);
            let grown = children.push(key@).push(value@);
            if rest is Ok {
                assert(children + (seq![key@] + (seq![value@] + rest->Ok_0.0)) =~= grown
                    + rest->Ok_0.0);
            }
            assert(paired(grown) =~= paired(children).push((text@, value@)));
            lemma_dict_of_push(paired(children), (text@, value@));
            children = grown;
        }
        put(&mut entries, text, value);
        cursor = next;
    }
    if cursor >= bytes.len() {
        return Err(DecodeError::UnterminatedCollection);
    }
    assert(children + Seq::<Node>::empty() =~= children);
    Ok((Bee::new(BeeValue::Dictionary(entries), copy_range(bytes, at, cursor + 1)), cursor + 1))
}

impl BeeValue {
    /// Decodes the value that starts at the first byte of `bytes`. Bytes
    /// after that value are not looked at.
    ///
    /// The node that comes back is the one that the grammar gives, and the
    /// error is the one that the grammar gives. The span of the node is the
    /// input up to the end of the value: all of the input where the input is
    /// one value and nothing after it. And the span spells the node exactly:
    /// decoded by itself it gives the node again.
    pub fn from_bytes(bytes: &Vec<u8>) -> (r: Result<Bee, DecodeError>)
        ensures
            match r {
                Ok(node) => decode(bytes@) == Ok::<Node, DecodeError>(node@),
                Err(e) => decode(bytes@) == Err::<Node, DecodeError>(e),
            },
            r matches Ok(node) ==> {
                &&& node@.span.len() <= bytes.len()
                &&& node@.span == bytes@.subrange(0, node@.span.len() as int)
                &&& is_one_value(bytes@) ==> node@.span == bytes@
                &&& exact(node@)
            },
    {
        proof {
            if decode(bytes@) is Ok {
                lemma_root_span(bytes@);
            }
        }
        match BeeValue::dfs(bytes, 0, MAX_DEPTH) {
            Ok((node, _)) => Ok(node),
            Err(e) => Err(e),
        }
    }

    /// Decodes the value that starts at `index`, and gives the index after
    /// it. `depth` is how many lists and dictionaries may be open at once
    /// from here on.
    ///
    /// The node and the index are those that the grammar gives, and so is
    /// the error. The value takes up at least one byte and ends inside the
    /// input, and the span of the node is the input from `index` to the
    /// index given back.
    pub fn dfs(bytes: &Vec<u8>, index: usize, depth: usize) -> (r: Result<(Bee, usize), DecodeError>)
        ensures
            outcome(r) == parse_value(bytes@, index as int, depth as nat),
            r matches Ok((node, next)) ==> {
                &&& index < next <= bytes.len()
                &&& node@.span == bytes@.subrange(index as int, next as int)
            },
        decreases depth, 0nat,
    {
        proof {
            if parse_value(bytes@, index as int, depth as nat) is Ok {
                lemma_value_advances(bytes@, index as int, depth as nat);
            }
        }
        if index >= bytes.len() {
            return Err(DecodeError::TruncatedInput);
        }
        let lead: u8 = bytes[index];
        if 0x30 <= lead && lead <= 0x39 {
            decode_string(bytes, index)
        } else if lead == INTEGER {
            decode_integer(bytes, index)
        } else if lead == LIST {
            if depth == 0 {
                Err(DecodeError::NestingTooDeep)
            } else {
                decode_list(bytes, index, depth - 1)
            }
        } else if lead == DICT {
            if depth == 0 {
                Err(DecodeError::NestingTooDeep)
            } else {
                decode_dict(bytes, index, depth - 1)
            }
        } else {
            Err(DecodeError::UnexpectedByte)
        }
    }
}

} // verus!
