//! What holds of every input that decodes: spans account for the input byte
//! by byte, and the span of a node decodes to that node again.

use vstd::prelude::*;
use crate::error::DecodeError;
use crate::grammar::{
    classify, decode, lemma_children_advance, lemma_value_advances, paired, parse_children,
    parse_value, Slot, DICT, INTEGER, LIST, MAX_DEPTH,
};
use crate::lexical::{
    all_digits, decimal, first_at, fits_i128, is_digit, is_signed_decimal, lemma_first_at,
    lemma_first_at_is, signed_value, COLON, END, MINUS, PLUS,
};
use crate::model::{dict_of, lemma_dict_of_source, Node, Tree};

verus! {

/// The spans of `nodes`, one after another.
pub open spec fn joined(nodes: Seq<Node>) -> Seq<u8>
    decreases nodes.len(),
{
    if nodes.len() == 0 {
        Seq::empty()
    } else {
        nodes[0].span + joined(nodes.drop_first())
    }
}

/// Whether `a` from `at` and `b` from `bt` hold the same `n` bytes.
pub open spec fn same_window(a: Seq<u8>, at: int, b: Seq<u8>, bt: int, n: int) -> bool {
    &&& 0 <= n
    &&& 0 <= at && at + n <= a.len()
    &&& 0 <= bt && bt + n <= b.len()
    &&& a.subrange(at, at + n) == b.subrange(bt, bt + n)
}

/// Two windows that hold the same bytes agree at each offset.
proof fn lemma_window_at(a: Seq<u8>, at: int, b: Seq<u8>, bt: int, n: int, k: int)
    requires
        same_window(a, at, b, bt, n),
        0 <= k < n,
    ensures
        a[at + k] == b[bt + k],
{
    assert(a.subrange(at, at + n)[k] == a[at + k]);
    assert(b.subrange(bt, bt + n)[k] == b[bt + k]);
}

/// Two windows that hold the same bytes do so on each part of them.
proof fn lemma_window_part(a: Seq<u8>, at: int, b: Seq<u8>, bt: int, n: int, i: int, j: int)
    requires
        same_window(a, at, b, bt, n),
        0 <= i <= j <= n,
    ensures
        same_window(a, at + i, b, bt + i, j - i),
        a.subrange(at + i, at + j) == b.subrange(bt + i, bt + j),
{
    assert(a.subrange(at + i, at + j) =~= a.subrange(at, at + n).subrange(i, j));
    assert(b.subrange(bt + i, bt + j) =~= b.subrange(bt, bt + n).subrange(i, j));
}

/// The first `byte` at or after the start of a window, where it lies inside
/// the window, lies at the same offset in a window that holds the same bytes.
proof fn lemma_window_first(a: Seq<u8>, at: int, b: Seq<u8>, bt: int, n: int, byte: u8, from: int)
    requires
        same_window(a, at, b, bt, n),
        0 <= from <= n,
        first_at(a, byte, at + from) < at + n,
    ensures
        first_at(b, byte, bt + from) == bt + (first_at(a, byte, at + from) - at),
{
    let found = first_at(a, byte, at + from);
    lemma_first_at(a, byte, at + from);
    assert forall|i: int| bt + from <= i < bt + (found - at) implies b[i] != byte by {
        lemma_window_at(a, at, b, bt, n, i - bt);
    }
    lemma_window_at(a, at, b, bt, n, found - at);
    lemma_first_at_is(b, byte, bt + from, bt + (found - at));
}

/// Decoding looks at the bytes of the value only: a value that decodes in
/// `a` at `at` decodes to the same node at `bt` in every `b` that holds the
/// bytes of the value there.
pub proof fn lemma_value_local(a: Seq<u8>, at: int, b: Seq<u8>, bt: int, depth: nat)
    requires
        parse_value(a, at, depth) is Ok,
        same_window(a, at, b, bt, parse_value(a, at, depth)->Ok_0.1 - at),
    ensures
        parse_value(b, bt, depth) == Ok::<(Node, int), DecodeError>(
            (
                parse_value(a, at, depth)->Ok_0.0,
                bt + (parse_value(a, at, depth)->Ok_0.1 - at),
            ),
        ),
    decreases depth, a.len() - at, 0nat,
{
    let end = parse_value(a, at, depth)->Ok_0.1;
    let n = end - at;
    lemma_value_advances(a, at, depth);
    lemma_window_at(a, at, b, bt, n, 0);
    if is_digit(a[at]) {
        let colon = first_at(a, COLON, at);
        lemma_first_at(a, COLON, at);
        lemma_window_first(a, at, b, bt, n, COLON, 0);
        lemma_window_part(a, at, b, bt, n, 0, colon - at);
        lemma_window_part(a, at, b, bt, n, colon + 1 - at, n);
    } else if a[at] == INTEGER {
        let close = first_at(a, END, at + 1);
        lemma_first_at(a, END, at + 1);
        lemma_window_first(a, at, b, bt, n, END, 1);
        lemma_window_part(a, at, b, bt, n, 1, close - at);
    } else if a[at] == LIST {
        lemma_window_part(a, at, b, bt, n, 1, n);
        lemma_children_local(a, at + 1, b, bt + 1, (depth - 1) as nat, Slot::Item);
    } else if a[at] == DICT {
        lemma_window_part(a, at, b, bt, n, 1, n);
        lemma_children_local(a, at + 1, b, bt + 1, (depth - 1) as nat, Slot::Key);
    }
}

/// As `lemma_value_local`, for the children of a collection.
pub proof fn lemma_children_local(a: Seq<u8>, at: int, b: Seq<u8>, bt: int, depth: nat, slot: Slot)
    requires
        parse_children(a, at, depth, slot) is Ok,
        same_window(a, at, b, bt, parse_children(a, at, depth, slot)->Ok_0.1 - at),
    ensures
        parse_children(b, bt, depth, slot) == Ok::<(Seq<Node>, int), DecodeError>(
            (
                parse_children(a, at, depth, slot)->Ok_0.0,
                bt + (parse_children(a, at, depth, slot)->Ok_0.1 - at),
            ),
        ),
    decreases depth, a.len() - at, 1nat,
{
    let end = parse_children(a, at, depth, slot)->Ok_0.1;
    let n = end - at;
    lemma_children_advance(a, at, depth, slot);
    lemma_window_at(a, at, b, bt, n, 0);
    if a[at] != END {
        lemma_value_advances(a, at, depth);
        let next = parse_value(a, at, depth)->Ok_0.1;
        lemma_children_advance(a, next, depth, slot.following());
        lemma_window_part(a, at, b, bt, n, 0, next - at);
        lemma_value_local(a, at, b, bt, depth);
        lemma_window_part(a, at, b, bt, n, next - at, n);
        lemma_children_local(a, next, b, bt + (next - at), depth, slot.following());
    }
}

/// A value that decodes at one depth decodes to the same node at every
/// greater depth.
pub proof fn lemma_value_deeper(input: Seq<u8>, at: int, depth: nat, more: nat)
    requires
        parse_value(input, at, depth) is Ok,
        depth <= more,
    ensures
        parse_value(input, at, more) == parse_value(input, at, depth),
    decreases depth, input.len() - at, 0nat,
{
    if is_digit(input[at]) {
    } else if input[at] == INTEGER {
    } else if input[at] == LIST {
        lemma_children_deeper(input, at + 1, (depth - 1) as nat, (more - 1) as nat, Slot::Item);
    } else if input[at] == DICT {
        lemma_children_deeper(input, at + 1, (depth - 1) as nat, (more - 1) as nat, Slot::Key);
    }
}

/// As `lemma_value_deeper`, for the children of a collection.
pub proof fn lemma_children_deeper(input: Seq<u8>, at: int, depth: nat, more: nat, slot: Slot)
    requires
        parse_children(input, at, depth, slot) is Ok,
        depth <= more,
    ensures
        parse_children(input, at, more, slot) == parse_children(input, at, depth, slot),
    decreases depth, input.len() - at, 1nat,
{
    if input[at] != END {
        lemma_value_advances(input, at, depth);
        lemma_value_deeper(input, at, depth, more);
        let next = parse_value(input, at, depth)->Ok_0.1;
        lemma_children_deeper(input, next, depth, more, slot.following());
    }
}

/// Whether the span of `node` spells `node` and nothing more: decoding the
/// span by itself gives `node` and ends at the end of the span.
pub open spec fn exact(node: Node) -> bool {
    parse_value(node.span, 0, MAX_DEPTH as nat) == Ok::<(Node, int), DecodeError>(
        (node, node.span.len() as int),
    )
}

/// Whether `input` is one value and nothing after it.
pub open spec fn is_one_value(input: Seq<u8>) -> bool {
    parse_value(input, 0, MAX_DEPTH as nat) matches Ok((_, end)) && end == input.len()
}

/// The children that the span of a collection node spells: the items of a
/// list; of a dictionary each key and its value, in input order, the pairs
/// that a later pair replaced among them.
pub open spec fn parts(node: Node) -> Seq<Node> {
    parse_children(
        node.span,
        1,
        (MAX_DEPTH - 1) as nat,
        if node.value is Dict {
            Slot::Key
        } else {
            Slot::Item
        },
    )->Ok_0.0
}

/// Whether `inner` is `outer` or a node below it: an item of a list, a value
/// of a dictionary, or a node below one of these.
pub open spec fn within(inner: Node, outer: Node) -> bool
    decreases outer,
{
    inner == outer || match outer.value {
        Tree::List(items) => exists|i: int|
            0 <= i < items.len() && within(inner, #[trigger] items[i]),
        Tree::Dict(dict) => exists|key: Seq<char>|
            dict.contains_key(key) && within(inner, #[trigger] dict[key]),
        _ => false,
    }
}

/// An item of a list is within the list.
pub proof fn lemma_item_within(outer: Node, index: int)
    requires
        outer.value is List,
        0 <= index < outer.value->List_0.len(),
    ensures
        within(outer.value->List_0[index], outer),
{
    let items = outer.value->List_0;
    assert(within(items[index], items[index]));
}

/// A value of a dictionary is within the dictionary.
pub proof fn lemma_value_within(outer: Node, key: Seq<char>)
    requires
        outer.value is Dict,
        outer.value->Dict_0.contains_key(key),
    ensures
        within(outer.value->Dict_0[key], outer),
{
    let dict = outer.value->Dict_0;
    assert(within(dict[key], dict[key]));
}

/// A node within a node within a third is within the third.
pub proof fn lemma_within_within(inner: Node, middle: Node, outer: Node)
    requires
        within(inner, middle),
        within(middle, outer),
    ensures
        within(inner, outer),
    decreases outer,
{
    if middle != outer {
        match outer.value {
            Tree::List(items) => {
                let i = choose|i: int| 0 <= i < items.len() && within(middle, #[trigger] items[i]);
                lemma_within_within(inner, middle, items[i]);
            },
            Tree::Dict(dict) => {
                let key = choose|key: Seq<char>|
                    dict.contains_key(key) && within(middle, #[trigger] dict[key]);
                lemma_within_within(inner, middle, dict[key]);
            },
            _ => {},
        }
    }
}

/// A node that decodes anywhere, at a depth allowed, is spelled exactly by
/// its span.
pub proof fn lemma_decoded_is_exact(input: Seq<u8>, at: int, depth: nat)
    requires
        parse_value(input, at, depth) is Ok,
        depth <= MAX_DEPTH,
    ensures
        exact(parse_value(input, at, depth)->Ok_0.0),
{
    let (node, end) = parse_value(input, at, depth)->Ok_0;
    lemma_value_advances(input, at, depth);
    assert(node.span.subrange(0, end - at) =~= node.span);
    lemma_value_local(input, at, node.span, 0, depth);
    lemma_value_deeper(node.span, 0, depth, MAX_DEPTH as nat);
}

/// The bytes of a collection after its opening byte are the spans of its
/// children, one after another, and the closing `e`.
pub proof fn lemma_children_spans(input: Seq<u8>, at: int, depth: nat, slot: Slot)
    requires
        parse_children(input, at, depth, slot) is Ok,
    ensures
        input.subrange(at, parse_children(input, at, depth, slot)->Ok_0.1) == joined(
            parse_children(input, at, depth, slot)->Ok_0.0,
        ) + seq![END],
    decreases input.len() - at,
{
    let (children, end) = parse_children(input, at, depth, slot)->Ok_0;
    lemma_children_advance(input, at, depth, slot);
    if input[at] == END {
        assert(input.subrange(at, end) =~= joined(children) + seq![END]);
    } else {
        lemma_value_advances(input, at, depth);
        let (child, next) = parse_value(input, at, depth)->Ok_0;
        let (rest, _) = parse_children(input, next, depth, slot.following())->Ok_0;
        lemma_children_advance(input, next, depth, slot.following());
        lemma_children_spans(input, next, depth, slot.following());
        assert(children.drop_first() =~= rest);
        assert(input.subrange(at, end) =~= input.subrange(at, next) + input.subrange(next, end));
        assert(input.subrange(at, end) =~= joined(children) + seq![END]);
    }
}

/// Each child of a collection that decodes is spelled exactly by its span.
pub proof fn lemma_children_exact(input: Seq<u8>, at: int, depth: nat, slot: Slot)
    requires
        parse_children(input, at, depth, slot) is Ok,
        depth <= MAX_DEPTH,
    ensures
        forall|i: int|
            0 <= i < parse_children(input, at, depth, slot)->Ok_0.0.len() ==> exact(
                #[trigger] parse_children(input, at, depth, slot)->Ok_0.0[i],
            ),
    decreases input.len() - at,
{
    let children = parse_children(input, at, depth, slot)->Ok_0.0;
    lemma_children_advance(input, at, depth, slot);
    if input[at] != END {
        lemma_value_advances(input, at, depth);
        let (child, next) = parse_value(input, at, depth)->Ok_0;
        let rest = parse_children(input, next, depth, slot.following())->Ok_0.0;
        lemma_decoded_is_exact(input, at, depth);
        lemma_children_exact(input, next, depth, slot.following());
        assert forall|i: int| 0 <= i < children.len() implies exact(#[trigger] children[i]) by {
            if i > 0 {
                assert(children[i] == rest[i - 1]);
            }
        }
    }
}

/// The children of a dictionary come in pairs, and the first of each pair is
/// text.
pub proof fn lemma_children_paired(input: Seq<u8>, at: int, depth: nat, slot: Slot)
    requires
        parse_children(input, at, depth, slot) is Ok,
        !(slot is Item),
    ensures
        parse_children(input, at, depth, slot)->Ok_0.0.len() % 2 == if slot is Key {
            0int
        } else {
            1int
        },
        forall|i: int|
            0 <= i < parse_children(input, at, depth, slot)->Ok_0.0.len() && i % 2 == (if slot is Key {
                0int
            } else {
                1int
            }) ==> (#[trigger] parse_children(input, at, depth, slot)->Ok_0.0[i]).value is Text,
    decreases input.len() - at,
{
    let children = parse_children(input, at, depth, slot)->Ok_0.0;
    lemma_children_advance(input, at, depth, slot);
    if input[at] != END {
        lemma_value_advances(input, at, depth);
        let (child, next) = parse_value(input, at, depth)->Ok_0;
        let rest = parse_children(input, next, depth, slot.following())->Ok_0.0;
        lemma_children_paired(input, next, depth, slot.following());
        assert forall|i: int|
            0 <= i < children.len() && i % 2 == (if slot is Key {
                0int
            } else {
                1int
            }) implies (#[trigger] children[i]).value is Text by {
            if i > 0 {
                assert(children[i] == rest[i - 1]);
            }
        }
    }
}

/// The span of a list is `l`, the spans of its items in order, and `e`; and
/// each item is spelled exactly by its span.
pub proof fn lemma_list_span(node: Node)
    requires
        exact(node),
        node.value is List,
    ensures
        node.span == seq![LIST] + joined(node.value->List_0) + seq![END],
        parts(node) == node.value->List_0,
        forall|i: int|
            0 <= i < node.value->List_0.len() ==> exact(#[trigger] node.value->List_0[i]),
{
    let span = node.span;
    let below = (MAX_DEPTH - 1) as nat;
    assert(span[0] == LIST);
    let end = parse_children(span, 1, below, Slot::Item)->Ok_0.1;
    lemma_children_spans(span, 1, below, Slot::Item);
    lemma_children_exact(span, 1, below, Slot::Item);
    assert(span =~= seq![LIST] + span.subrange(1, end));
    assert(span =~= seq![LIST] + joined(node.value->List_0) + seq![END]);
}

/// The span of a dictionary is `d`, the spans of its keys and values in
/// input order, and `e`. These come in pairs of a text key and a value, each
/// is spelled exactly by its span, and the dictionary is what inserting the
/// pairs in order builds.
pub proof fn lemma_dict_span(node: Node)
    requires
        exact(node),
        node.value is Dict,
    ensures
        node.span == seq![DICT] + joined(parts(node)) + seq![END],
        parts(node).len() % 2 == 0,
        forall|i: int| 0 <= i < parts(node).len() ==> exact(#[trigger] parts(node)[i]),
        forall|i: int|
            0 <= i < parts(node).len() && i % 2 == 0 ==> (#[trigger] parts(node)[i]).value is Text,
        node.value == Tree::Dict(dict_of(paired(parts(node)))),
{
    let span = node.span;
    let below = (MAX_DEPTH - 1) as nat;
    assert(span[0] == DICT);
    let end = parse_children(span, 1, below, Slot::Key)->Ok_0.1;
    lemma_children_spans(span, 1, below, Slot::Key);
    lemma_children_exact(span, 1, below, Slot::Key);
    lemma_children_paired(span, 1, below, Slot::Key);
    assert(span =~= seq![DICT] + span.subrange(1, end));
    assert(span =~= seq![DICT] + joined(parts(node)) + seq![END]);
}

/// Each value that a dictionary holds is the value of one of its pairs, and
/// is spelled exactly by its span.
pub proof fn lemma_dict_value(node: Node, key: Seq<char>)
    requires
        exact(node),
        node.value is Dict,
        node.value->Dict_0.contains_key(key),
    ensures
        exists|i: int|
            0 <= i < parts(node).len() && i % 2 == 1 && #[trigger] parts(node)[i]
                == node.value->Dict_0[key],
        exact(node.value->Dict_0[key]),
{
    lemma_dict_span(node);
    let pairs = paired(parts(node));
    lemma_dict_of_source(pairs, key);
    let j = choose|j: int| 0 <= j < pairs.len() && #[trigger] pairs[j] == (key, dict_of(pairs)[key]);
    assert(parts(node)[2 * j + 1] == node.value->Dict_0[key]);
}

/// Every node of a tree whose root is spelled exactly by its span is spelled
/// exactly by its own span.
pub proof fn lemma_within_exact(inner: Node, outer: Node)
    requires
        exact(outer),
        within(inner, outer),
    ensures
        exact(inner),
    decreases outer,
{
    if inner != outer {
        match outer.value {
            Tree::List(items) => {
                let i = choose|i: int| 0 <= i < items.len() && within(inner, #[trigger] items[i]);
                lemma_list_span(outer);
                lemma_within_exact(inner, items[i]);
            },
            Tree::Dict(dict) => {
                let key = choose|key: Seq<char>|
                    dict.contains_key(key) && within(inner, #[trigger] dict[key]);
                lemma_dict_value(outer, key);
                lemma_within_exact(inner, dict[key]);
            },
            _ => {},
        }
    }
}

/// The span of a decoded root is the input up to the end of the value, and
/// the whole input where the input is one value and nothing after it.
pub proof fn lemma_root_span(input: Seq<u8>)
    requires
        decode(input) is Ok,
    ensures
        exact(decode(input)->Ok_0),
        decode(input)->Ok_0.span.len() <= input.len(),
        decode(input)->Ok_0.span == input.subrange(0, decode(input)->Ok_0.span.len() as int),
        is_one_value(input) ==> decode(input)->Ok_0.span == input,
{
    lemma_value_advances(input, 0, MAX_DEPTH as nat);
    lemma_decoded_is_exact(input, 0, MAX_DEPTH as nat);
    if is_one_value(input) {
        assert(input.subrange(0, input.len() as int) =~= input);
    }
}

/// Decoding the span of any node of a decoded tree by itself gives that
/// node again. Nodes are compared as models, so the order of the keys of a
/// dictionary plays no part.
pub proof fn lemma_span_decodes_again(input: Seq<u8>, inner: Node)
    requires
        decode(input) is Ok,
        within(inner, decode(input)->Ok_0),
    ensures
        decode(inner.span) == Ok::<Node, DecodeError>(inner),
        is_one_value(inner.span),
{
    lemma_root_span(input);
    lemma_within_exact(inner, decode(input)->Ok_0);
}

/// A length in digits, `:` and a payload of that length decode whatever the
/// payload holds: to text where the payload is valid UTF-8, and to raw bytes
/// that are the payload where it is not. Bytes that are no text are no
/// error, and are not made into text.
pub proof fn lemma_string_decodes(prefix: Seq<u8>, payload: Seq<u8>)
    requires
        prefix.len() > 0,
        all_digits(prefix),
        decimal(prefix) == payload.len(),
    ensures
        decode(prefix + seq![COLON] + payload) == Ok::<Node, DecodeError>(
            Node { value: classify(payload), span: prefix + seq![COLON] + payload },
        ),
        is_one_value(prefix + seq![COLON] + payload),
        classify(payload) is Text || classify(payload) == Tree::Bytes(payload),
{
    let input = prefix + seq![COLON] + payload;
    let colon = prefix.len() as int;
    assert(input[0] == prefix[0]);
    assert forall|i: int| 0 <= i < colon implies input[i] != COLON by {
        assert(is_digit(prefix[i]));
    }
    lemma_first_at_is(input, COLON, 0, colon);
    assert(input.subrange(0, colon) =~= prefix);
    assert(input.subrange(colon + 1, input.len() as int) =~= payload);
    assert(input.subrange(0, input.len() as int) =~= input);
}

/// `i`, a signed decimal in the range of `i128` and `e` decode to the
/// integer that the decimal spells.
pub proof fn lemma_integer_decodes(body: Seq<u8>)
    requires
        is_signed_decimal(body),
        fits_i128(signed_value(body)),
    ensures
        decode(seq![INTEGER] + body + seq![END]) == Ok::<Node, DecodeError>(
            Node {
                value: Tree::Integer(signed_value(body)),
                span: seq![INTEGER] + body + seq![END],
            },
        ),
        is_one_value(seq![INTEGER] + body + seq![END]),
{
    let input = seq![INTEGER] + body + seq![END];
    let close = body.len() as int + 1;
    assert forall|i: int| 1 <= i < close implies input[i] != END by {
        if body[0] == MINUS || body[0] == PLUS {
            if i > 1 {
                assert(is_digit(body.subrange(1, body.len() as int)[i - 2]));
            }
        } else {
            assert(is_digit(body[i - 1]));
        }
    }
    lemma_first_at_is(input, END, 1, close);
    assert(input.subrange(1, close) =~= body);
    assert(input.subrange(0, input.len() as int) =~= input);
}

} // verus!
