//! Views of the part of a trie that lies at and below one of its nodes.
use crate::iter::{in_walk_order, lemma_path_before_prefixed, listed, path_before};
use crate::keys::{key_path, match_keys, KeyMatch, TrieKey};
use crate::nibbles::nibbles;
use crate::node_slots::lemma_entry_change;
use crate::traversal::get_below;
use crate::trie_node::{one_if, TrieNode};
use nibble_vec::NibbleVec;
use std::borrow::Cow;
use vstd::prelude::*;
use vstd::relations::injective_on;
use vstd::set_lib::lemma_map_size;

verus! {

/// Immutable view of a sub-tree a larger trie.
#[derive(Debug)]
pub struct SubTrie<'a, K, V> {
    prefix: Cow<'a, NibbleVec>,
    node: &'a TrieNode<K, V>,
}

/// Wrapper for subtrie lookup results.
///
/// When fetching from a subtrie, if the prefix is wrong you'll get an `Err(())`.
/// Otherwise you'll get an `Ok(_)`, where the contained option value is what would ordinarily
/// be returned by get/insert/whatever.
pub type SubTrieResult<T> = Result<Option<T>, ()>;

/// `path` goes through `prefix`: it begins with it.
pub open spec fn extends(path: Seq<u8>, prefix: Seq<u8>) -> bool {
    prefix.len() <= path.len() && path.take(prefix.len() as int) == prefix
}

/// The entries below `node` when the node stands at `prefix`, each under
/// its whole path.
pub open spec fn entries_from<K: TrieKey, V>(node: TrieNode<K, V>, prefix: Seq<u8>) -> Map<
    Seq<u8>,
    (K, V),
> {
    Map::new(
        |p: Seq<u8>| extends(p, prefix) && node.entry_below(p.skip(prefix.len() as int)) is Some,
        |p: Seq<u8>| node.entry_below(p.skip(prefix.len() as int))->Some_0,
    )
}

/// The entries below a node are as many under their whole paths as they
/// are under their paths from the node on: as many as the node counts.
pub proof fn lemma_entries_from_counted<K: TrieKey, V>(node: TrieNode<K, V>, prefix: Seq<u8>)
    requires
        node.shaped(),
    ensures
        entries_from(node, prefix).dom().finite(),
        entries_from(node, prefix).dom().len() == node.count(),
{
    node.lemma_entries_counted();
    let below = node.entries().dom();
    let whole = entries_from(node, prefix).dom();
    let prepend = |q: Seq<u8>| prefix + q;
    assert(injective_on(prepend, below)) by {
        assert forall|x1: Seq<u8>, x2: Seq<u8>|
            below.contains(x1) && below.contains(x2) && #[trigger] prepend(x1) == #[trigger] prepend(
                x2,
            ) implies x1 == x2 by {
            assert((prefix + x1).skip(prefix.len() as int) =~= x1);
        }
    }
    assert(below.map(prepend) =~= whole) by {
        assert forall|p: Seq<u8>| whole.contains(p) implies below.map(prepend).contains(p) by {
            let q = p.skip(prefix.len() as int);
            assert(below.contains(q));
            assert(p =~= prepend(q));
        }
        assert forall|p: Seq<u8>| below.map(prepend).contains(p) implies whole.contains(p) by {
            let q = choose|q: Seq<u8>| below.contains(q) && p == prepend(q);
            assert(p.take(prefix.len() as int) =~= prefix);
            assert(p.skip(prefix.len() as int) =~= q);
        }
    }
    lemma_map_size(below, whole, prepend);
}

/// The nibbles that a prefix holds, owned or borrowed.
pub open spec fn prefix_nibbles(prefix: Cow<NibbleVec>) -> Seq<u8> {
    match prefix {
        Cow::Borrowed(nv) => nibbles(*nv),
        Cow::Owned(nv) => nibbles(nv),
    }
}

/// The nibble vector of a prefix, owned or borrowed.
fn prefix_ref<'b>(prefix: &'b Cow<NibbleVec>) -> (nv: &'b NibbleVec)
    ensures
        nibbles(*nv) == prefix_nibbles(*prefix),
{
    match prefix {
        Cow::Borrowed(nv) => nv,
        Cow::Owned(nv) => nv,
    }
}

/// What is left of a key behind a prefix of it.
fn stripped(key: NibbleVec, prefix: &NibbleVec) -> (rest: NibbleVec)
    requires
        nibbles(*prefix).len() <= nibbles(key).len(),
    ensures
        nibbles(rest) == nibbles(key).skip(nibbles(*prefix).len() as int),
{
    let mut key = key;
    key.split(prefix.len())
}

/// The number of entries at and below `node`, found by a walk of all of them.
fn subtrie_size<K: TrieKey, V>(node: &TrieNode<K, V>) -> (size: usize)
    requires
        node.shaped(),
        node.count() <= usize::MAX,
    ensures
        size == node.count(),
{
    node.compute_size()
}

/// Look `key` up below `node`, which stands at `prefix`.
fn subtrie_get<'a, K: TrieKey, V>(prefix: &NibbleVec, node: &'a TrieNode<K, V>, key: &K) -> (found:
    SubTrieResult<&'a V>)
    requires
        node.shaped(),
    ensures
        match found {
            Ok(Some(v)) => {
                &&& extends(key_path(key), nibbles(*prefix))
                &&& node.entry_below(key_path(key).skip(nibbles(*prefix).len() as int)) matches Some(e)
                &&& e.1 == *v
            },
            Ok(None) => {
                &&& extends(key_path(key), nibbles(*prefix))
                &&& node.entry_below(key_path(key).skip(nibbles(*prefix).len() as int)) is None
            },
            Err(_) => !extends(key_path(key), nibbles(*prefix)),
        },
{
    let key_enc = key.encode();
    let ghost head = nibbles(*prefix);
    proof {
        assert(head.skip(0) =~= head);
    }
    match match_keys(0, prefix, &key_enc) {
        KeyMatch::Full => {
            Ok(node.value())
        },
        KeyMatch::FirstPrefix => {
            let rest = stripped(key_enc, prefix);
            proof {
                assert(nibbles(rest).skip(0) =~= nibbles(rest));
                node.lemma_entry_of_node(nibbles(rest));
            }
            match get_below(node, &rest, 0) {
                Some(found) => Ok(found.value()),
                None => Ok(None),
            }
        },
        KeyMatch::Partial(idx) => {
            Err(())
        },
        KeyMatch::SecondPrefix => Err(()),
    }
}

impl<'a, K: TrieKey, V> View for SubTrie<'a, K, V> {
    type V = Map<Seq<u8>, (K, V)>;

    closed spec fn view(&self) -> Map<Seq<u8>, (K, V)> {
        entries_from(*self.node, self.prefix_path())
    }
}

impl<'a, K: TrieKey, V> SubTrie<'a, K, V> {
    /// The path of the node that the view starts at.
    pub closed spec fn prefix_path(&self) -> Seq<u8> {
        prefix_nibbles(self.prefix)
    }

    /// The node that the view starts at.
    pub closed spec fn node(&self) -> TrieNode<K, V> {
        *self.node
    }

    /// The view is sound: its node is sound and compressed where the
    /// prefix says it stands, and its entries can be counted.
    pub closed spec fn wf(&self) -> bool {
        &&& self.node.wf_at(self.prefix_path())
        &&& self.node.count() <= usize::MAX
    }

    /// The paths of all entries in view, in the order in which the view is
    /// walked.
    pub closed spec fn paths_in_order(&self) -> Seq<Seq<u8>> {
        self.node.paths().map_values(|q: Seq<u8>| self.prefix_path() + q)
    }

    /// The entries in view, in the order in which the view is walked.
    pub closed spec fn in_order(&self) -> Seq<(K, V)> {
        self.node.entries_in_order()
    }

    /// A view shows the entries below its node, each under its whole path.
    pub proof fn lemma_view(&self)
        ensures
            self@ == entries_from(self.node(), self.prefix_path()),
    {
    }

    /// Every entry that a sound view shows stands under the path of its
    /// own key, and that path goes through the prefix. There are finitely
    /// many.
    pub proof fn lemma_entries_by_key(&self)
        requires
            self.wf(),
        ensures
            self@.dom().finite(),
            forall|p: Seq<u8>| #[trigger]
                self@.contains_key(p) ==> key_path(&self@[p].0) == p && extends(
                    p,
                    self.prefix_path(),
                ),
    {
        let prefix = self.prefix_path();
        self.node.lemma_sound_is_shaped(prefix);
        lemma_entries_from_counted(*self.node, prefix);
        assert forall|p: Seq<u8>| #[trigger] self@.contains_key(p) implies key_path(&self@[p].0)
            == p && extends(p, prefix) by {
            self.node.lemma_entry_path(prefix, p.skip(prefix.len() as int));
        }
    }

    /// The walk lists the entries in view, each once and under its path,
    /// in the order of the walk.
    pub proof fn lemma_in_order(&self)
        requires
            self.wf(),
        ensures
            self.paths_in_order().len() == self@.len(),
            self.in_order().len() == self@.len(),
            forall|j: int|
                0 <= j < self@.len() ==> self@.contains_key(#[trigger] self.paths_in_order()[j])
                    && self.in_order()[j] == self@[self.paths_in_order()[j]],
            forall|p: Seq<u8>| self@.contains_key(p) ==> self.paths_in_order().contains(p),
            in_walk_order(self.paths_in_order()),
    {
        let prefix = self.prefix_path();
        let below = self.node.paths();
        let whole = self.paths_in_order();
        self.node.lemma_sound_is_shaped(prefix);
        self.node.lemma_paths_listing();
        lemma_entries_from_counted(*self.node, prefix);
        assert forall|j: int| 0 <= j < whole.len() implies self@.contains_key(#[trigger] whole[j])
            && self.in_order()[j] == self@[whole[j]] by {
            let q = below[j];
            assert((prefix + q).take(prefix.len() as int) =~= prefix);
            assert((prefix + q).skip(prefix.len() as int) =~= q);
        }
        assert forall|p: Seq<u8>| self@.contains_key(p) implies whole.contains(p) by {
            let q = p.skip(prefix.len() as int);
            assert(below.contains(q));
            let j = choose|j: int| 0 <= j < below.len() && below[j] == q;
            assert(whole[j] =~= p);
        }
        assert forall|j: int, k: int| 0 <= j < k < whole.len() implies path_before(
            whole[j],
            whole[k],
        ) by {
            lemma_path_before_prefixed(prefix, below[j], below[k]);
        }
    }

    /// Create a new subtrie with an owned prefix.
    pub fn with_owned_prefix(nv: NibbleVec, node: &'a TrieNode<K, V>) -> (sub: Self)
        requires
            node.wf_at(nibbles(nv)),
            node.count() <= usize::MAX,
        ensures
            sub.wf(),
            sub.prefix_path() == nibbles(nv),
            sub.node() == *node,
    {
        SubTrie { prefix: Cow::Owned(nv), node }
    }

    /// Create a new subtrie with a reference to a prefix.
    pub fn with_borrowed_prefix(nv: &'a NibbleVec, node: &'a TrieNode<K, V>) -> (sub: Self)
        requires
            node.wf_at(nibbles(*nv)),
            node.count() <= usize::MAX,
        ensures
            sub.wf(),
            sub.prefix_path() == nibbles(*nv),
            sub.node() == *node,
    {
        SubTrie { prefix: Cow::Borrowed(nv), node }
    }

    /// Look up the value for the given key, which should be an extension of this subtrie's key.
    ///
    /// A key that does not go through the prefix of the view is refused with `Err`.
    pub fn get(&self, key: &K) -> (found: SubTrieResult<&V>)
        requires
            self.wf(),
        ensures
            match found {
                Ok(Some(v)) => self@.contains_key(key_path(key)) && self@[key_path(key)].1 == *v,
                Ok(None) => extends(key_path(key), self.prefix_path()) && !self@.contains_key(
                    key_path(key),
                ),
                Err(_) => !extends(key_path(key), self.prefix_path()),
            },
    {
        proof {
            self.node.lemma_sound_is_shaped(self.prefix_path());
        }
        subtrie_get(prefix_ref(&self.prefix), self.node, key)
    }

    /// The key stored at the node of this view, if any.
    pub fn key(&self) -> (key: Option<&'a K>)
        ensures
            match key {
                Some(k) => self.node().entry() matches Some(e) && e.0 == *k,
                None => self.node().entry() is None,
            },
    {
        self.node.key()
    }

    /// The value stored at the node of this view, if any.
    pub fn value(&self) -> (value: Option<&'a V>)
        ensures
            match value {
                Some(v) => self.node().entry() matches Some(e) && e.1 == *v,
                None => self.node().entry() is None,
            },
    {
        self.node.value()
    }

    /// The nibbles that lead to the node of this view.
    pub fn prefix(&self) -> (prefix: &NibbleVec)
        ensures
            nibbles(*prefix) == self.prefix_path(),
    {
        prefix_ref(&self.prefix)
    }

    /// Compute the size of this subtrie.
    ///
    /// This isn't a constant time operation and involves a full traversal of the subtrie.
    pub fn len(&self) -> (len: usize)
        requires
            self.wf(),
        ensures
            len == self@.len(),
    {
        proof {
            self.node.lemma_sound_is_shaped(self.prefix_path());
            lemma_entries_from_counted(*self.node, self.prefix_path());
        }
        subtrie_size(&*self.node)
    }

    /// References to all entries in view, in the order in which the view
    /// is walked: depth first, a node before its children, the children by
    /// ascending nibble.
    pub fn iter(&self) -> (entries: Vec<(&'a K, &'a V)>)
        requires
            self.wf(),
        ensures
            listed(entries@) == self.in_order(),
    {
        let mut entries: Vec<(&'a K, &'a V)> = Vec::new();
        proof {
            self.node.lemma_sound_is_shaped(self.prefix_path());
        }
        self.node.collect_entries(&mut entries);
        entries
    }
}

/// Mutable view of a sub-tree of a larger trie.
#[derive(Debug)]
pub struct SubTrieMut<'a, K, V> {
    prefix: Cow<'a, NibbleVec>,
    length: &'a mut usize,
    node: &'a mut TrieNode<K, V>,
}

impl<'a, K: TrieKey, V> View for SubTrieMut<'a, K, V> {
    type V = Map<Seq<u8>, (K, V)>;

    closed spec fn view(&self) -> Map<Seq<u8>, (K, V)> {
        entries_from(*self.node, self.prefix_path())
    }
}

impl<'a, K: TrieKey, V> SubTrieMut<'a, K, V> {
    /// The path of the node that the view starts at.
    pub closed spec fn prefix_path(&self) -> Seq<u8> {
        prefix_nibbles(self.prefix)
    }

    /// The node that the view starts at.
    pub closed spec fn node(&self) -> TrieNode<K, V> {
        *self.node
    }

    /// The length of the whole trie, as the view has it on record.
    pub closed spec fn whole_length(&self) -> nat {
        *self.length as nat
    }

    /// The borrow of the node that the view holds.
    pub closed spec fn node_borrow(&self) -> &'a mut TrieNode<K, V> {
        self.node
    }

    /// The borrow of the trie's length that the view holds.
    pub closed spec fn length_borrow(&self) -> &'a mut usize {
        self.length
    }

    /// The view is sound: its node is sound and compressed where the
    /// prefix says it stands, and the whole trie is no smaller than the
    /// part in view.
    pub closed spec fn wf(&self) -> bool {
        &&& self.node.wf_at(self.prefix_path())
        &&& self.node.count() <= *self.length
    }

    /// The number of entries of the whole trie that are not in view.
    pub open spec fn outside(&self) -> int {
        self.whole_length() - self.node().count()
    }

    /// This view is a later state of `earlier`: it starts at the same
    /// place, and the trie has outside of it what it had.
    pub open spec fn follows(&self, earlier: Self) -> bool {
        &&& self.prefix_path() == earlier.prefix_path()
        &&& self.node().fragment() == earlier.node().fragment()
        &&& self.outside() == earlier.outside()
    }

    /// The view may be given up with `node` for its node and `length` for
    /// the length of the whole trie: the node is sound and compressed where
    /// the view starts, has kept its fragment, and the trie has outside of
    /// the view what it had.
    pub open spec fn closes(&self, node: TrieNode<K, V>, length: usize) -> bool {
        &&& node.wf_at(self.prefix_path())
        &&& node.fragment() == self.node().fragment()
        &&& length - node.count() == self.outside()
    }

    /// A view shows the entries below its node, each under its whole path.
    pub proof fn lemma_view(&self)
        ensures
            self@ == entries_from(self.node(), self.prefix_path()),
    {
    }

    /// A sound view that is a later state of `earlier` may be given up as
    /// it is.
    pub proof fn lemma_closes(&self, earlier: Self)
        requires
            self.wf(),
            self.follows(earlier),
        ensures
            earlier.closes(self.node(), self.whole_length() as usize),
    {
    }

    /// Once a view is given up, the borrows that it held end with what the
    /// view last had.
    pub proof fn lemma_given_up(&self)
        requires
            has_resolved(*self),
        ensures
            *final(self.node_borrow()) == self.node(),
            *final(self.length_borrow()) == self.whole_length(),
    {
    }

    /// Create a new subtrie with an owned prefix.
    pub fn with_owned_prefix(
        nv: NibbleVec,
        length: &'a mut usize,
        node: &'a mut TrieNode<K, V>,
    ) -> (sub: Self)
        requires
            old(node).wf_at(nibbles(nv)),
            old(node).count() <= *old(length),
        ensures
            sub.wf(),
            sub.prefix_path() == nibbles(nv),
            sub.node() == *old(node),
            sub.whole_length() == *old(length),
            *final(node) == *final(sub.node_borrow()),
            *final(length) == *final(sub.length_borrow()),
    {
        SubTrieMut { prefix: Cow::Owned(nv), length, node }
    }

    /// Look up the value for the given key, which should be an extension of this subtrie's key.
    ///
    /// A key that does not go through the prefix of the view is refused with `Err`.
    pub fn get(&self, key: &K) -> (found: SubTrieResult<&V>)
        requires
            self.wf(),
        ensures
            match found {
                Ok(Some(v)) => self@.contains_key(key_path(key)) && self@[key_path(key)].1 == *v,
                Ok(None) => extends(key_path(key), self.prefix_path()) && !self@.contains_key(
                    key_path(key),
                ),
                Err(_) => !extends(key_path(key), self.prefix_path()),
            },
    {
        proof {
            self.node.lemma_sound_is_shaped(self.prefix_path());
        }
        subtrie_get(prefix_ref(&self.prefix), &*self.node, key)
    }

    /// Compute the size of this subtrie.
    ///
    /// This isn't a constant time operation and involves a full traversal of the subtrie.
    pub fn len(&self) -> (len: usize)
        requires
            self.wf(),
        ensures
            len == self@.len(),
    {
        proof {
            self.node.lemma_sound_is_shaped(self.prefix_path());
            lemma_entries_from_counted(*self.node, self.prefix_path());
        }
        subtrie_size(&*self.node)
    }

    /// Mutable reference to the node's value.
    pub fn value_mut(&mut self) -> (value: Option<&mut V>)
        requires
            old(self).wf(),
        ensures
            final(self).wf(),
            final(self).follows(*old(self)),
            final(self).whole_length() == old(self).whole_length(),
            *final(final(self).node_borrow()) == *final(old(self).node_borrow()),
            *final(final(self).length_borrow()) == *final(old(self).length_borrow()),
            match value {
                Some(v) => {
                    let at = old(self).prefix_path();
                    &&& old(self)@.contains_key(at)
                    &&& old(self)@[at].1 == *v
                    &&& final(self)@ == old(self)@.insert(at, (old(self)@[at].0, *final(v)))
                },
                None => !old(self)@.contains_key(old(self).prefix_path()) && final(self)@ == old(
                    self,
                )@,
            },
    {
        let ghost before = *self.node;
        let ghost at = self.prefix_path();
        proof {
            assert(at.take(at.len() as int) =~= at);
        }
        let value = self.node.value_mut();
        proof {
            let after = after_borrow(*self.node);
            lemma_entry_change(before, after, at, after.entry());
            if before.entry() is Some {
                assert(entries_from(after, at) =~= entries_from(before, at).insert(
                    at,
                    (before.entry()->Some_0.0, after.entry()->Some_0.1),
                )) by {
                    assert forall|p: Seq<u8>| extends(p, at) && p != at implies p.skip(
                        at.len() as int,
                    ) != Seq::<u8>::empty() by {
                        if p.skip(at.len() as int).len() == 0 {
                            assert(p =~= p.take(at.len() as int));
                        }
                    }
                }
            }
        }
        value
    }

    /// Insert a value in this subtrie. The key should be an extension of this subtrie's key.
    ///
    /// A key that does not go through the prefix of the view is refused
    /// with `Err`, and nothing is changed. The length of the whole trie
    /// grows with the view.
    pub fn insert(&mut self, key: K, value: V) -> (previous: SubTrieResult<V>)
        requires
            old(self).wf(),
            old(self).whole_length() < usize::MAX,
        ensures
            final(self).wf(),
            final(self).follows(*old(self)),
            *final(final(self).node_borrow()) == *final(old(self).node_borrow()),
            *final(final(self).length_borrow()) == *final(old(self).length_borrow()),
            match previous {
                Ok(stored) => {
                    &&& extends(key_path(&key), old(self).prefix_path())
                    &&& final(self)@ == old(self)@.insert(key_path(&key), (key, value))
                    &&& stored == if old(self)@.contains_key(key_path(&key)) {
                        Some(old(self)@[key_path(&key)].1)
                    } else {
                        None
                    }
                    &&& final(self).whole_length() == old(self).whole_length() + one_if(
                        stored is None,
                    )
                },
                Err(_) => {
                    &&& !extends(key_path(&key), old(self).prefix_path())
                    &&& final(self)@ == old(self)@
                    &&& final(self).whole_length() == old(self).whole_length()
                    &&& final(self).node() == old(self).node()
                },
            },
    {
        let key_enc = key.encode();
        let ghost whole = nibbles(key_enc);
        let ghost at = self.prefix_path();
        let ghost before = *self.node;
        proof {
            assert(at.skip(0) =~= at);
        }
        match match_keys(0, prefix_ref(&self.prefix), &key_enc) {
            KeyMatch::Full => {
                let previous = self.node.replace_value(key, value);
                if previous.is_none() {
                    *self.length += 1;
                }
                proof {
                    lemma_entry_change(before, *self.node, at, Some((key, value)));
                    assert(entries_from(*self.node, at) =~= entries_from(before, at).insert(
                        whole,
                        (key, value),
                    )) by {
                        assert forall|p: Seq<u8>| extends(p, at) && p != at implies p.skip(
                            at.len() as int,
                        ) != Seq::<u8>::empty() by {
                            if p.skip(at.len() as int).len() == 0 {
                                assert(p =~= p.take(at.len() as int));
                            }
                        }
                    }
                }
                Ok(previous)
            },
            KeyMatch::FirstPrefix => {
                let rest = stripped(key_enc, prefix_ref(&self.prefix));
                let previous = self.node.insert(key, value, rest);
                if previous.is_none() {
                    *self.length += 1;
                }
                proof {
                    assert(entries_from(*self.node, at) =~= entries_from(before, at).insert(
                        whole,
                        (key, value),
                    )) by {
                        assert forall|p: Seq<u8>|
                            extends(p, at) && p != whole implies p.skip(at.len() as int)
                            != nibbles(rest) by {
                            if p.skip(at.len() as int) == nibbles(rest) {
                                assert(p =~= p.take(at.len() as int) + p.skip(at.len() as int));
                                assert(whole =~= whole.take(at.len() as int) + whole.skip(
                                    at.len() as int,
                                ));
                            }
                        }
                    }
                }
                Ok(previous)
            },
            KeyMatch::Partial(idx) => {
                Err(())
            },
            KeyMatch::SecondPrefix => Err(()),
        }
    }
}

} // verus!
