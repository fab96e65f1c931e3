//! What holds of every trie, whatever was done to it: statements over the
//! map that a trie is, from which the contracts of `insert`, `get` and
//! `remove` are read.
use crate::keys::{key_path, lemma_key_path_injective, TrieKey};
use crate::nibbles::lemma_nibble_seq_prefix;
use crate::subtrie::extends;
use crate::trie::value_in;
use vstd::prelude::*;

verus! {

/// What `start` becomes when each of `entries` is inserted in turn.
pub open spec fn with_all<K: TrieKey, V>(start: Map<Seq<u8>, (K, V)>, entries: Seq<(K, V)>) -> Map<
    Seq<u8>,
    (K, V),
>
    decreases entries.len(),
{
    if entries.len() == 0 {
        start
    } else {
        with_all(start, entries.drop_last()).insert(key_path(&entries.last().0), entries.last())
    }
}

/// What `start` becomes when the key of each of `entries` is removed in turn.
pub open spec fn without_all<K: TrieKey, V>(start: Map<Seq<u8>, (K, V)>, entries: Seq<(K, V)>) -> Map<
    Seq<u8>,
    (K, V),
>
    decreases entries.len(),
{
    if entries.len() == 0 {
        start
    } else {
        without_all(start, entries.drop_last()).remove(key_path(&entries.last().0))
    }
}

/// No two of `entries` have keys with the same encoding.
pub open spec fn distinct_keys<K: TrieKey, V>(entries: Seq<(K, V)>) -> bool {
    forall|i: int, j: int|
        0 <= i < j < entries.len() ==> entries[i].0.encoding() != entries[j].0.encoding()
}

/// Inserting entries one after another adds the paths of their keys, and
/// nothing else.
proof fn lemma_with_all<K: TrieKey, V>(entries: Seq<(K, V)>)
    requires
        distinct_keys(entries),
    ensures
        with_all(Map::<Seq<u8>, (K, V)>::empty(), entries).dom().finite(),
        with_all(Map::<Seq<u8>, (K, V)>::empty(), entries).len() == entries.len(),
        forall|p: Seq<u8>|
            with_all(Map::<Seq<u8>, (K, V)>::empty(), entries).contains_key(p) <==> exists|i: int|
                0 <= i < entries.len() && p == key_path(&(#[trigger] entries[i]).0),
        forall|i: int|
            0 <= i < entries.len() ==> value_in(
                with_all(Map::<Seq<u8>, (K, V)>::empty(), entries),
                &(#[trigger] entries[i]).0,
            ) == Some(entries[i].1),
    decreases entries.len(),
{
    let empty = Map::<Seq<u8>, (K, V)>::empty();
    if entries.len() > 0 {
        let rest = entries.drop_last();
        let last = entries.last();
        let n = entries.len() - 1;
        lemma_with_all(rest);
        let before = with_all(empty, rest);
        assert(!before.contains_key(key_path(&last.0))) by {
            if before.contains_key(key_path(&last.0)) {
                let i = choose|i: int|
                    0 <= i < rest.len() && key_path(&last.0) == key_path(&(#[trigger] rest[i]).0);
                lemma_key_path_injective(&entries[i].0, &entries[n].0);
            }
        }
        let full = with_all(empty, entries);
        assert forall|p: Seq<u8>| full.contains_key(p) <==> exists|i: int|
            0 <= i < entries.len() && p == key_path(&(#[trigger] entries[i]).0) by {
            if full.contains_key(p) {
                if p != key_path(&last.0) {
                    let i = choose|i: int|
                        0 <= i < rest.len() && p == key_path(&(#[trigger] rest[i]).0);
                }
            }
            if exists|i: int| 0 <= i < entries.len() && p == key_path(&(#[trigger] entries[i]).0) {
                let i = choose|i: int|
                    0 <= i < entries.len() && p == key_path(&(#[trigger] entries[i]).0);
                if i < n {
                    assert(rest[i] == entries[i]);
                }
            }
        }
        assert forall|i: int| 0 <= i < entries.len() implies value_in(
            full,
            &(#[trigger] entries[i]).0,
        ) == Some(entries[i].1) by {
            if i < n {
                assert(rest[i] == entries[i]);
                lemma_key_path_injective(&entries[i].0, &entries[n].0);
            }
        }
    }
}

/// Removing the keys of entries one after another leaves what has none of
/// their paths.
proof fn lemma_without_all<K: TrieKey, V>(start: Map<Seq<u8>, (K, V)>, entries: Seq<(K, V)>)
    ensures
        forall|p: Seq<u8>|
            without_all(start, entries).contains_key(p) <==> start.contains_key(p) && !exists|i: int|
                0 <= i < entries.len() && p == key_path(&(#[trigger] entries[i]).0),
    decreases entries.len(),
{
    if entries.len() > 0 {
        let rest = entries.drop_last();
        let n = entries.len() - 1;
        lemma_without_all(start, rest);
        assert forall|p: Seq<u8>|
            without_all(start, entries).contains_key(p) <==> start.contains_key(p) && !exists|i: int|
                0 <= i < entries.len() && p == key_path(&(#[trigger] entries[i]).0) by {
            if exists|i: int| 0 <= i < entries.len() && p == key_path(&(#[trigger] entries[i]).0) {
                let i = choose|i: int|
                    0 <= i < entries.len() && p == key_path(&(#[trigger] entries[i]).0);
                if i < n {
                    assert(rest[i] == entries[i]);
                }
            } else {
                assert(p != key_path(&entries[n].0));
            }
        }
    }
}

/// Round trip. A trie into which entries with distinct keys were inserted
/// holds each of them under its key and nothing else, so a lookup of each
/// key finds the value that was inserted with it, and the length is the
/// number of the entries. Once each key was removed again, the trie is empty.
pub proof fn lemma_round_trip<K: TrieKey, V>(entries: Seq<(K, V)>)
    requires
        distinct_keys(entries),
    ensures
        ({
            let full = with_all(Map::<Seq<u8>, (K, V)>::empty(), entries);
            &&& full.dom().finite()
            &&& full.len() == entries.len()
            &&& forall|i: int|
                0 <= i < entries.len() ==> value_in(full, &(#[trigger] entries[i]).0) == Some(
                    entries[i].1,
                )
            &&& without_all(full, entries) == Map::<Seq<u8>, (K, V)>::empty()
            &&& without_all(full, entries).len() == 0
        }),
{
    let full = with_all(Map::<Seq<u8>, (K, V)>::empty(), entries);
    lemma_with_all(entries);
    lemma_without_all(full, entries);
    assert forall|p: Seq<u8>| !without_all(full, entries).contains_key(p) by {
        if without_all(full, entries).contains_key(p) {
            assert(full.contains_key(p));
        }
    }
    assert(without_all(full, entries) =~= Map::<Seq<u8>, (K, V)>::empty());
}

/// Prefixes. The path of one key goes through the path of another if and
/// only if its encoding begins with the encoding of the other. So the
/// longest prefix of a key's path under which a trie holds an entry, which is
/// what the search for an ancestor finds, is the path of the entry whose
/// key has the longest encoding that the key's encoding begins with.
pub proof fn lemma_prefix_by_encoding<K: TrieKey>(short: &K, long: &K)
    ensures
        extends(key_path(long), key_path(short)) <==> (short.encoding().len()
            <= long.encoding().len() && long.encoding().take(short.encoding().len() as int)
            == short.encoding()),
{
    lemma_nibble_seq_prefix(short.encoding(), long.encoding());
}

/// Replacing. Inserting a key that the trie does not hold finds no value
/// and makes the trie longer by one. Inserting the same key once more finds
/// the value inserted first and leaves the length as it is.
pub proof fn lemma_insert_twice<K: TrieKey, V>(
    before: Map<Seq<u8>, (K, V)>,
    key: K,
    first: V,
    second: V,
)
    requires
        before.dom().finite(),
        !before.contains_key(key_path(&key)),
    ensures
        ({
            let once = before.insert(key_path(&key), (key, first));
            let twice = once.insert(key_path(&key), (key, second));
            &&& value_in(before, &key) is None
            &&& value_in(once, &key) == Some(first)
            &&& value_in(twice, &key) == Some(second)
            &&& once.len() == before.len() + 1
            &&& twice.len() == once.len()
        }),
{
}

} // verus!
