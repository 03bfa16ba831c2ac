//! The value tree: nodes, their typed views and the operations that build them.

use vstd::prelude::*;
use vstd::utf8::{encode_utf8, encode_utf8_decode_utf8};
use crate::model::{
    dict_of, has_key, keys_differ, lemma_dict_of_keys, lemma_dict_of_last, lemma_dict_of_push,
    lemma_dict_of_update, Node, Tree,
};

verus! {

/// The payload of a node.
///
/// A dictionary is kept as its pairs. Inside a node no key occurs twice, and
/// the order of the pairs carries no meaning.
#[derive(Debug)]
pub enum BeeValue {
    Null,
    String(String),
    Raw(Vec<u8>),
    Integer(i128),
    List(Vec<Bee>),
    Dictionary(Vec<(String, Bee)>),
}

/// A node of the tree: a value and the bytes it was decoded from.
#[derive(Debug)]
pub struct Bee {
    bee_value: BeeValue,
    raw: Vec<u8>,
}

/// The models of the nodes of `items`, in order.
pub open spec fn nodes_of(items: Seq<Bee>) -> Seq<Node>
    decreases items,
{
    Seq::new(
        items.len(),
        |i: int|
            if 0 <= i < items.len() {
                items[i]@
            } else {
                arbitrary()
            },
    )
}

/// The pairs `entries` as key text and value model, in order.
pub open spec fn pairs_of(entries: Seq<(String, Bee)>) -> Seq<(Seq<char>, Node)>
    decreases entries,
{
    Seq::new(
        entries.len(),
        |i: int|
            if 0 <= i < entries.len() {
                (entries[i].0@, entries[i].1@)
            } else {
                arbitrary()
            },
    )
}

/// The model of the placeholder node: no value and no bytes.
pub open spec fn null_node() -> Node {
    Node { value: Tree::Null, span: Seq::empty() }
}

/// Whether no key occurs twice in `entries`.
pub open spec fn distinct_keys(entries: Seq<(String, Bee)>) -> bool {
    keys_differ(pairs_of(entries))
}

/// Whether `entries` lists `dict` exactly: each key once, each pair of
/// `entries` in `dict`, and each key of `dict` among `entries`.
pub open spec fn lists(entries: Seq<(String, Bee)>, dict: Map<Seq<char>, Node>) -> bool {
    &&& distinct_keys(entries)
    &&& forall|i: int|
        0 <= i < entries.len() ==> dict.contains_key((#[trigger] entries[i]).0@) && dict[entries[i].0@]
            == entries[i].1@
    &&& forall|key: Seq<char>| #[trigger]
        dict.contains_key(key) ==> has_key(pairs_of(entries), key)
}

/// Pairs with distinct keys list the dictionary that they build.
pub proof fn lemma_lists(entries: Seq<(String, Bee)>)
    requires
        distinct_keys(entries),
    ensures
        lists(entries, dict_of(pairs_of(entries))),
{
    let pairs = pairs_of(entries);
    let dict = dict_of(pairs);
    assert forall|i: int| 0 <= i < entries.len() implies dict.contains_key(
        (#[trigger] entries[i]).0@,
    ) && dict[entries[i].0@] == entries[i].1@ by {
        assert(pairs[i] == (entries[i].0@, entries[i].1@));
        assert forall|j: int| i < j < pairs.len() implies (#[trigger] pairs[j]).0 != pairs[i].0 by {}
        lemma_dict_of_last(pairs, i);
    }
    assert forall|key: Seq<char>| #[trigger] dict.contains_key(key) implies has_key(pairs, key) by {
        lemma_dict_of_keys(pairs, key);
    }
}

/// The list `items`, grown with placeholders until it has the index `index`.
pub open spec fn grown(items: Seq<Node>, index: int) -> Seq<Node> {
    if index < items.len() {
        items
    } else {
        items + Seq::new((index + 1 - items.len()) as nat, |i: int| null_node())
    }
}

/// Whether `a` and `b` are the same text.
pub fn same_text(a: &str, b: &str) -> (r: bool)
    ensures
        r == (a@ == b@),
{
    let x = a.as_bytes();
    let y = b.as_bytes();
    proof {
        encode_utf8_decode_utf8(a@);
        encode_utf8_decode_utf8(b@);
    }
    if x.len() != y.len() {
        return false;
    }
    let mut i: usize = 0;
    while i < x.len()
        invariant
            i <= x.len(),
            x.len() == y.len(),
            x@ == encode_utf8(a@),
            y@ == encode_utf8(b@),
            forall|j: int| 0 <= j < i ==> x@[j] == y@[j],
        decreases x.len() - i,
    {
        if x[i] != y[i] {
            assert(x@[i as int] != y@[i as int]);
            return false;
        }
        i += 1;
    }
    assert(x@ =~= y@);
    true
}

/// The place of `key` among `entries`, if it is there.
fn position(entries: &Vec<(String, Bee)>, key: &str) -> (r: Option<usize>)
    ensures
        match r {
            Some(i) => i < entries.len() && entries@[i as int].0@ == key@,
            None => !has_key(pairs_of(entries@), key@),
        },
{
    let mut i: usize = 0;
    while i < entries.len()
        invariant
            i <= entries.len(),
            forall|j: int| 0 <= j < i ==> entries@[j].0@ != key@,
        decreases entries.len() - i,
    {
        if same_text(entries[i].0.as_str(), key) {
            return Some(i);
        }
        i += 1;
    }
    assert forall|j: int| 0 <= j < entries.len() implies (#[trigger] pairs_of(entries@)[j]).0
        != key@ by {
        assert(entries@[j].0@ != key@);
    }
    None
}

/// Puts `value` under `key`: in the place of the value that `key` had, or
/// as a new pair at the end.
pub(crate) fn put(entries: &mut Vec<(String, Bee)>, key: String, value: Bee)
    requires
        distinct_keys(old(entries)@),
    ensures
        distinct_keys(final(entries)@),
        dict_of(pairs_of(final(entries)@)) == dict_of(pairs_of(old(entries)@)).insert(
            key@,
            value@,
        ),
{
    let ghost before = pairs_of(entries@);
    match position(entries, key.as_str()) {
        Some(i) => {
            entries.set(i, (key, value));
            proof {
                lemma_dict_of_update(before, i as int, value@);
                assert(pairs_of(entries@) =~= before.update(i as int, (before[i as int].0, value@)));
            }
        },
        None => {
            entries.push((key, value));
            proof {
                lemma_dict_of_push(before, (key@, value@));
                assert(pairs_of(entries@) =~= before.push((key@, value@)));
                assert forall|i: int, j: int| 0 <= i < j < before.len() + 1 implies (
                #[trigger] before.push((key@, value@))[i]).0 != (#[trigger] before.push(
                    (key@, value@),
                )[j]).0 by {
                    if j < before.len() {
                        assert(before[i].0 != before[j].0);
                    } else {
                        assert(before[i].0 != key@);
                    }
                }
            }
        },
    }
}

impl View for BeeValue {
    type V = Tree;

    open spec fn view(&self) -> Tree
        decreases self,
    {
        match self {
            BeeValue::Null => Tree::Null,
            BeeValue::String(s) => Tree::Text(s@),
            BeeValue::Raw(b) => Tree::Bytes(b@),
            BeeValue::Integer(i) => Tree::Integer(*i as int),
            BeeValue::List(items) => Tree::List(nodes_of(items@)),
            BeeValue::Dictionary(entries) => Tree::Dict(dict_of(pairs_of(entries@))),
        }
    }
}

impl BeeValue {
    /// Whether this value, where it is a dictionary, holds each key once.
    /// The values of a node's children do so as well, being inside nodes.
    pub open spec fn keys_once(&self) -> bool {
        self matches BeeValue::Dictionary(entries) ==> distinct_keys(entries@)
    }

    /// Adds `value` at the end of a list.
    pub fn append(&mut self, value: Bee)
        requires
            *old(self) is List,
        ensures
            final(self)@ == Tree::List(old(self)@->List_0.push(value@)),
            *final(self) is List,
    {
        match self {
            BeeValue::List(items) => {
                let ghost before = nodes_of(items@);
                items.push(value);
                assert(nodes_of(items@) =~= before.push(value@));
            },
            _ => {},
        }
    }

    /// Puts `value` at `index` of a list. Where the list is too short it is
    /// first grown with placeholders up to and including `index`.
    pub fn set_at(&mut self, index: usize, value: Bee)
        requires
            *old(self) is List,
            index < usize::MAX,
        ensures
            final(self)@ == Tree::List(
                grown(old(self)@->List_0, index as int).update(index as int, value@),
            ),
            *final(self) is List,
    {
        match self {
            BeeValue::List(items) => {
                let ghost before = nodes_of(items@);
                while items.len() <= index
                    invariant
                        index < usize::MAX,
                        before.len() <= items.len(),
                        items.len() == before.len() || items.len() <= index + 1,
                        nodes_of(items@) == if items.len() == before.len() {
                            before
                        } else {
                            grown(before, items.len() - 1)
                        },
                    decreases index + 1 - items.len(),
                {
                    let ghost so_far = nodes_of(items@);
                    items.push(Bee::null());
                    assert(nodes_of(items@) =~= so_far.push(null_node()));
                    assert(nodes_of(items@) =~= grown(before, items.len() - 1));
                }
                assert(nodes_of(items@) =~= grown(before, index as int));
                let ghost full = nodes_of(items@);
                items.set(index, value);
                assert(nodes_of(items@) =~= full.update(index as int, value@));
            },
            _ => {},
        }
    }

    /// Puts `value` under `key` in a dictionary, in the place of the value
    /// that `key` had, if it had one.
    pub fn insert(&mut self, key: String, value: Bee)
        requires
            *old(self) is Dictionary,
            old(self).keys_once(),
        ensures
            final(self)@ == Tree::Dict(old(self)@->Dict_0.insert(key@, value@)),
            *final(self) is Dictionary,
            final(self).keys_once(),
    {
        match self {
            BeeValue::Dictionary(entries) => {
                put(entries, key, value);
            },
            _ => {},
        }
    }
}

impl View for Bee {
    type V = Node;

    closed spec fn view(&self) -> Node
        decreases self,
    {
        Node { value: self.bee_value@, span: self.raw@ }
    }
}

impl Bee {
    /// Inside a node a dictionary holds each key once.
    #[verifier::type_invariant]
    spec fn keys_once(&self) -> bool {
        self.bee_value.keys_once()
    }

    /// The text of a text node.
    pub fn get_string(&self) -> (r: Option<String>)
        ensures
            match self@.value {
                Tree::Text(t) => r matches Some(s) && s@ == t,
                _ => r is None,
            },
    {
        match &self.bee_value {
            BeeValue::String(s) => Some(s.clone()),
            _ => None,
        }
    }

    /// The integer of an integer node.
    pub fn get_int(&self) -> (r: Option<i128>)
        ensures
            match self@.value {
                Tree::Integer(v) => r matches Some(i) && i == v,
                _ => r is None,
            },
    {
        match &self.bee_value {
            BeeValue::Integer(i) => Some(*i),
            _ => None,
        }
    }

    /// The payload of a raw node.
    pub fn get_raw(&self) -> (r: Option<Vec<u8>>)
        ensures
            match self@.value {
                Tree::Bytes(b) => r matches Some(v) && v@ == b,
                _ => r is None,
            },
    {
        match &self.bee_value {
            BeeValue::Raw(b) => Some(b.clone()),
            _ => None,
        }
    }

    /// The bytes of the input that this node was decoded from.
    pub fn get_decoded(&self) -> (r: Vec<u8>)
        ensures
            r@ == self@.span,
    {
        self.raw.clone()
    }

    /// A copy of the children of a list node, in order.
    pub fn get_list(&self) -> (r: Option<Vec<Bee>>)
        ensures
            match self@.value {
                Tree::List(items) => r matches Some(v) && nodes_of(v@) == items,
                _ => r is None,
            },
    {
        match &self.bee_value {
            BeeValue::List(items) => Some(clone_items(items)),
            _ => None,
        }
    }

    /// A copy of the pairs of a dictionary node: each key once, with the node
    /// that the dictionary holds for it, in no order that is promised.
    pub fn get_dict(&self) -> (r: Option<Vec<(String, Bee)>>)
        ensures
            match self@.value {
                Tree::Dict(dict) => r matches Some(v) && lists(v@, dict),
                _ => r is None,
            },
    {
        match &self.bee_value {
            BeeValue::Dictionary(entries) => {
                proof {
                    use_type_invariant(self);
                    lemma_lists(entries@);
                }
                let copy = clone_entries(entries);
                proof {
                    lemma_lists(copy@);
                }
                Some(copy)
            },
            _ => None,
        }
    }

    /// The child that a dictionary node holds for `key`; `None` where it
    /// holds none, and on a node that is no dictionary.
    pub fn get(&self, key: &str) -> (r: Option<&Bee>)
        ensures
            match self@.value {
                Tree::Dict(dict) => if dict.contains_key(key@) {
                    r matches Some(child) && child@ == dict[key@]
                } else {
                    r is None
                },
                _ => r is None,
            },
    {
        match &self.bee_value {
            BeeValue::Dictionary(entries) => {
                proof {
                    use_type_invariant(self);
                    lemma_dict_of_keys(pairs_of(entries@), key@);
                }
                match position(entries, key) {
                    Some(i) => {
                        proof {
                            let pairs = pairs_of(entries@);
                            assert(pairs[i as int].0 == key@);
                            assert forall|j: int| i < j < pairs.len() implies (#[trigger] pairs[j]).0
                                != pairs[i as int].0 by {}
                            lemma_dict_of_last(pairs, i as int);
                        }
                        Some(&entries[i].1)
                    },
                    None => None,
                }
            },
            _ => None,
        }
    }

    /// The child at `index` of a list node; `None` where the list is
    /// shorter, and on a node that is no list. The list is left as it is.
    pub fn at(&self, index: usize) -> (r: Option<&Bee>)
        ensures
            match self@.value {
                Tree::List(items) => if index < items.len() {
                    r matches Some(child) && child@ == items[index as int]
                } else {
                    r is None
                },
                _ => r is None,
            },
    {
        match &self.bee_value {
            BeeValue::List(items) => {
                assert(nodes_of(items@).len() == items.len());
                if index < items.len() {
                    Some(&items[index])
                } else {
                    None
                }
            },
            _ => None,
        }
    }

    /// Adds `value` at the end of a list node.
    pub fn append(&mut self, value: Bee)
        requires
            old(self)@.value is List,
        ensures
            final(self)@.span == old(self)@.span,
            final(self)@.value == Tree::List(old(self)@.value->List_0.push(value@)),
    {
        let mut held = BeeValue::Null;
        core::mem::swap(&mut self.bee_value, &mut held);
        held.append(value);
        core::mem::swap(&mut self.bee_value, &mut held);
    }

    /// Puts `value` at `index` of a list node. Where the list is too short
    /// it is first grown with placeholders up to and including `index`.
    pub fn set_at(&mut self, index: usize, value: Bee)
        requires
            old(self)@.value is List,
            index < usize::MAX,
        ensures
            final(self)@.span == old(self)@.span,
            final(self)@.value == Tree::List(
                grown(old(self)@.value->List_0, index as int).update(index as int, value@),
            ),
    {
        let mut held = BeeValue::Null;
        core::mem::swap(&mut self.bee_value, &mut held);
        held.set_at(index, value);
        core::mem::swap(&mut self.bee_value, &mut held);
    }

    /// Puts `value` under `key` in a dictionary node, in the place of the
    /// value that `key` had, if it had one.
    pub fn insert(&mut self, key: String, value: Bee)
        requires
            old(self)@.value is Dict,
        ensures
            final(self)@.span == old(self)@.span,
            final(self)@.value == Tree::Dict(old(self)@.value->Dict_0.insert(key@, value@)),
    {
        proof {
            use_type_invariant(&*self);
        }
        let mut held = BeeValue::Null;
        core::mem::swap(&mut self.bee_value, &mut held);
        held.insert(key, value);
        core::mem::swap(&mut self.bee_value, &mut held);
    }

    /// The node of `value` with the bytes `raw` behind it.
    pub(crate) fn new(value: BeeValue, raw: Vec<u8>) -> (r: Bee)
        requires
            value.keys_once(),
        ensures
            r@ == (Node { value: value@, span: raw@ }),
    {
        Bee { bee_value: value, raw }
    }

    /// A node with nothing in it and no bytes behind it.
    pub fn null() -> (r: Bee)
        ensures
            r@ == null_node(),
    {
        Bee { bee_value: BeeValue::Null, raw: Vec::new() }
    }
}

/// A copy of every node of `items`, in order.
fn clone_items(items: &Vec<Bee>) -> (r: Vec<Bee>)
    ensures
        nodes_of(r@) == nodes_of(items@),
    decreases items, 0nat,
{
    let mut out: Vec<Bee> = Vec::new();
    let mut i: usize = 0;
    while i < items.len()
        invariant
            i <= items.len(),
            out.len() == i,
            forall|j: int| 0 <= j < i ==> out@[j]@ == items@[j]@,
        decreases items.len() - i,
    {
        out.push(items[i].clone());
        i += 1;
    }
    assert(nodes_of(out@) =~= nodes_of(items@));
    out
}

/// A copy of every pair of `entries`, in order.
fn clone_entries(entries: &Vec<(String, Bee)>) -> (r: Vec<(String, Bee)>)
    ensures
        pairs_of(r@) == pairs_of(entries@),
        distinct_keys(entries@) ==> distinct_keys(r@),
    decreases entries, 0nat,
{
    let mut out: Vec<(String, Bee)> = Vec::new();
    let mut i: usize = 0;
    while i < entries.len()
        invariant
            i <= entries.len(),
            out.len() == i,
            forall|j: int| 0 <= j < i ==> out@[j].0@ == entries@[j].0@,
            forall|j: int| 0 <= j < i ==> out@[j].1@ == entries@[j].1@,
        decreases entries.len() - i,
    {
        out.push((entries[i].0.clone(), entries[i].1.clone()));
        i += 1;
    }
    assert(pairs_of(out@) =~= pairs_of(entries@));
    out
}

impl Clone for BeeValue {
    /// A deep copy: the same tree, node for node.
    fn clone(&self) -> (r: BeeValue)
        ensures
            r@ == self@,
            self.keys_once() ==> r.keys_once(),
        decreases self, 1nat,
    {
        match self {
            BeeValue::Null => BeeValue::Null,
            BeeValue::String(s) => BeeValue::String(s.clone()),
            BeeValue::Raw(b) => BeeValue::Raw(b.clone()),
            BeeValue::Integer(i) => BeeValue::Integer(*i),
            BeeValue::List(items) => BeeValue::List(clone_items(items)),
            BeeValue::Dictionary(entries) => BeeValue::Dictionary(clone_entries(entries)),
        }
    }
}

impl Clone for Bee {
    /// A deep copy: the same tree and the same bytes, node for node.
    fn clone(&self) -> (r: Bee)
        ensures
            r@ == self@,
        decreases self, 2nat,
    {
        proof {
            use_type_invariant(self);
        }
        Bee { bee_value: self.bee_value.clone(), raw: self.raw.clone() }
    }
}

} // verus!
