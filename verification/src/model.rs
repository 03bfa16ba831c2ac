//! The mathematical model of a decoded tree.

use vstd::prelude::*;

verus! {

/// What a node holds, as a mathematical value.
pub ghost enum Tree {
    /// Nothing: the placeholder that growing a list or a dictionary leaves.
    Null,
    /// A payload that is valid UTF-8, as its characters.
    Text(Seq<char>),
    /// A payload that is not valid UTF-8, as it stood in the input.
    Bytes(Seq<u8>),
    /// A signed integer.
    Integer(int),
    /// The children of a list, in input order.
    List(Seq<Node>),
    /// The children of a dictionary by key. Of two pairs with one key the later stays.
    Dict(Map<Seq<char>, Node>),
}

/// A decoded value together with the bytes of the input that produced it.
pub ghost struct Node {
    pub value: Tree,
    pub span: Seq<u8>,
}

/// The dictionary that inserting `pairs` one after another, first to last, builds.
pub open spec fn dict_of(pairs: Seq<(Seq<char>, Node)>) -> Map<Seq<char>, Node>
    decreases pairs.len(),
{
    if pairs.len() == 0 {
        Map::empty()
    } else {
        dict_of(pairs.drop_last()).insert(pairs.last().0, pairs.last().1)
    }
}

/// Whether one of `pairs` has the key `key`.
pub open spec fn has_key(pairs: Seq<(Seq<char>, Node)>, key: Seq<char>) -> bool {
    exists|i: int| 0 <= i < pairs.len() && (#[trigger] pairs[i]).0 == key
}

/// Whether no key occurs twice in `pairs`.
pub open spec fn keys_differ(pairs: Seq<(Seq<char>, Node)>) -> bool {
    forall|i: int, j: int|
        0 <= i < j < pairs.len() ==> (#[trigger] pairs[i]).0 != (#[trigger] pairs[j]).0
}

/// Adding a pair at the end inserts it into the dictionary.
pub proof fn lemma_dict_of_push(pairs: Seq<(Seq<char>, Node)>, pair: (Seq<char>, Node))
    ensures
        dict_of(pairs.push(pair)) == dict_of(pairs).insert(pair.0, pair.1),
{
    assert(pairs.push(pair).drop_last() =~= pairs);
}

/// The keys of the dictionary are the keys of the pairs.
pub proof fn lemma_dict_of_keys(pairs: Seq<(Seq<char>, Node)>, key: Seq<char>)
    ensures
        dict_of(pairs).contains_key(key) <==> has_key(pairs, key),
    decreases pairs.len(),
{
    if pairs.len() > 0 {
        let front = pairs.drop_last();
        lemma_dict_of_keys(front, key);
        if has_key(front, key) {
            let i = choose|i: int| 0 <= i < front.len() && (#[trigger] front[i]).0 == key;
            assert(pairs[i].0 == key);
        }
        if pairs.last().0 == key {
            assert(pairs[pairs.len() - 1].0 == key);
        }
        if has_key(pairs, key) {
            let i = choose|i: int| 0 <= i < pairs.len() && (#[trigger] pairs[i]).0 == key;
            if i < front.len() {
                assert(front[i].0 == key);
            }
        }
    }
}

/// A key stands for the value of the last pair that has it.
pub proof fn lemma_dict_of_last(pairs: Seq<(Seq<char>, Node)>, at: int)
    requires
        0 <= at < pairs.len(),
        forall|j: int| at < j < pairs.len() ==> (#[trigger] pairs[j]).0 != pairs[at].0,
    ensures
        dict_of(pairs).contains_key(pairs[at].0),
        dict_of(pairs)[pairs[at].0] == pairs[at].1,
    decreases pairs.len(),
{
    if at < pairs.len() - 1 {
        let front = pairs.drop_last();
        assert(pairs[pairs.len() - 1].0 != pairs[at].0);
        assert forall|j: int| at < j < front.len() implies (#[trigger] front[j]).0 != front[at].0 by {
            assert(pairs[j].0 != pairs[at].0);
        }
        lemma_dict_of_last(front, at);
    }
}

/// Where no key occurs twice, putting a new value in the place of a pair's
/// value inserts it under that pair's key.
pub proof fn lemma_dict_of_update(pairs: Seq<(Seq<char>, Node)>, at: int, value: Node)
    requires
        keys_differ(pairs),
        0 <= at < pairs.len(),
    ensures
        keys_differ(pairs.update(at, (pairs[at].0, value))),
        dict_of(pairs.update(at, (pairs[at].0, value))) == dict_of(pairs).insert(
            pairs[at].0,
            value,
        ),
{
    let key = pairs[at].0;
    let after = pairs.update(at, (key, value));
    assert forall|i: int, j: int| 0 <= i < j < after.len() implies (#[trigger] after[i]).0 != (
    #[trigger] after[j]).0 by {
        assert(after[i].0 == pairs[i].0);
        assert(after[j].0 == pairs[j].0);
    }
    let left = dict_of(after);
    let right = dict_of(pairs).insert(key, value);
    assert forall|k: Seq<char>| left.contains_key(k) <==> right.contains_key(k) by {
        lemma_dict_of_keys(after, k);
        lemma_dict_of_keys(pairs, k);
        if has_key(after, k) {
            let i = choose|i: int| 0 <= i < after.len() && (#[trigger] after[i]).0 == k;
            assert(pairs[i].0 == k);
        }
        if has_key(pairs, k) {
            let i = choose|i: int| 0 <= i < pairs.len() && (#[trigger] pairs[i]).0 == k;
            assert(after[i].0 == k);
        }
        if k == key {
            assert(after[at].0 == k);
        }
    }
    assert forall|k: Seq<char>| left.contains_key(k) implies left[k] == right[k] by {
        lemma_dict_of_keys(after, k);
        let i = choose|i: int| 0 <= i < after.len() && (#[trigger] after[i]).0 == k;
        assert forall|j: int| i < j < after.len() implies (#[trigger] after[j]).0 != after[i].0 by {}
        lemma_dict_of_last(after, i);
        if i != at {
            assert(pairs[i].0 == k);
            assert(pairs[at].0 != pairs[i].0) by {
                if i < at {
                    assert(pairs[i].0 != pairs[at].0);
                } else {
                    assert(pairs[at].0 != pairs[i].0);
                }
            }
            assert forall|j: int| i < j < pairs.len() implies (#[trigger] pairs[j]).0 != pairs[i].0 by {}
            lemma_dict_of_last(pairs, i);
        }
    }
    assert(left =~= right);
}

/// Whatever the dictionary holds for a key, one of the pairs put it there.
pub proof fn lemma_dict_of_source(pairs: Seq<(Seq<char>, Node)>, key: Seq<char>)
    requires
        dict_of(pairs).contains_key(key),
    ensures
        exists|i: int| 0 <= i < pairs.len() && #[trigger] pairs[i] == (key, dict_of(pairs)[key]),
    decreases pairs.len(),
{
    if pairs.len() > 0 {
        if pairs.last().0 == key {
            assert(pairs[pairs.len() - 1] == (key, dict_of(pairs)[key]));
        } else {
            let front = pairs.drop_last();
            lemma_dict_of_source(front, key);
            let i = choose|i: int| 0 <= i < front.len() && #[trigger] front[i] == (key, dict_of(front)[key]);
            assert(pairs[i] == (key, dict_of(pairs)[key]));
        }
    }
}

} // verus!
