//! The trie itself: a root node and the number of entries below it.
use crate::insertion::insert_below;
use crate::iter::{in_walk_order, listed};
use crate::keys::{key_path, TrieKey};
use crate::laws::with_all;
use crate::nibbles::nibbles;
use crate::node_slots::lemma_entry_change;
use crate::removal::remove_below;
use crate::subtrie::{entries_from, extends, SubTrie, SubTrieMut};
use crate::traversal::{
    ancestor_below, get_below, get_mut_below, raw_ancestor_below, raw_descendant_below,
    DescendantResult,
};
use crate::trie_node::TrieNode;
use vstd::prelude::*;

verus! {

/// Data-structure for storing and querying string-like keys and associated values.
///
/// Any keys which share a common *prefix* are stored below a single copy of that prefix.
/// This saves space, and also allows the longest prefix of any given key to be found.
///
/// To the verifier a trie is a finite map. Each entry is a key with its
/// value, and it stands under the path of that key: the nibbles of the
/// key's encoding.
#[derive(Debug)]
pub struct Trie<K, V> {
    /// The number of values stored in this trie.
    length: usize,
    /// The root of the trie.
    node: TrieNode<K, V>,
}

impl<K: TrieKey, V> View for Trie<K, V> {
    type V = Map<Seq<u8>, (K, V)>;

    closed spec fn view(&self) -> Map<Seq<u8>, (K, V)> {
        self.node.entries()
    }
}

impl<K: TrieKey, V> Default for Trie<K, V> {
    /// An empty trie.
    fn default() -> (trie: Self)
        ensures
            trie.wf(),
            trie.integrity(),
            trie@ == Map::<Seq<u8>, (K, V)>::empty(),
    {
        Trie::new()
    }
}

/// The first `d` nibbles of `path` are the longest prefix of it under
/// which `entries` holds an entry.
pub open spec fn is_longest_prefix_in<K, V>(
    entries: Map<Seq<u8>, (K, V)>,
    path: Seq<u8>,
    d: int,
) -> bool {
    &&& 0 <= d <= path.len()
    &&& entries.contains_key(path.take(d))
    &&& forall|j: int| d < j <= path.len() ==> !entries.contains_key(#[trigger] path.take(j))
}

/// `entries` holds no entry under any prefix of `path`, the empty one and
/// `path` itself included.
pub open spec fn no_prefix_in<K, V>(entries: Map<Seq<u8>, (K, V)>, path: Seq<u8>) -> bool {
    forall|j: int| 0 <= j <= path.len() ==> !entries.contains_key(#[trigger] path.take(j))
}

/// The value that `entries` holds under the path of `key`, if there is one.
pub open spec fn value_in<K: TrieKey, V>(entries: Map<Seq<u8>, (K, V)>, key: &K) -> Option<V> {
    if entries.contains_key(key_path(key)) {
        Some(entries[key_path(key)].1)
    } else {
        None
    }
}

impl<K: TrieKey, V> Trie<K, V> {
    /// The root of the trie.
    pub closed spec fn root(&self) -> TrieNode<K, V> {
        self.node
    }

    /// The length that the trie has on record.
    pub closed spec fn recorded_length(&self) -> nat {
        self.length as nat
    }

    /// The node whose path is `path`, if a node ends there. Nodes stand
    /// at the root, where keys end and where keys part, as
    /// [`Trie::lemma_where_nodes_stand`] states.
    pub closed spec fn node_at(&self, path: Seq<u8>) -> Option<TrieNode<K, V>> {
        self.node.node_below(path)
    }

    /// The trie is sound: the root has no fragment, every node is sound
    /// and compressed, and the length is the number of entries.
    pub closed spec fn wf(&self) -> bool {
        &&& self.node.fragment().len() == 0
        &&& self.node.wf_at(Seq::<u8>::empty())
        &&& self.length == self.node.count()
    }

    /// What the audit of [`Trie::check_integrity`] looks for: every node
    /// is intact, the root as a root, and the length is the number of
    /// entries in the tree.
    pub open spec fn integrity(&self) -> bool {
        &&& self.root().intact(true)
        &&& self.recorded_length() == self.root().count()
    }

    /// The value stored under the path of `key`, if there is one.
    pub open spec fn value_of(&self, key: &K) -> Option<V> {
        value_in(self@, key)
    }

    /// The paths of all entries, in the order in which the trie is walked:
    /// each path before those that go on from it, and of two paths that
    /// part, first the one with the smaller nibble where they part.
    pub closed spec fn paths_in_order(&self) -> Seq<Seq<u8>> {
        self.node.paths()
    }

    /// The entries in the order in which the trie is walked.
    pub closed spec fn in_order(&self) -> Seq<(K, V)> {
        self.node.entries_in_order()
    }

    /// `sub` is a view of this trie: it starts at the node that stands at
    /// its prefix, and shows the entries of the trie whose paths go
    /// through that prefix.
    pub open spec fn shows(&self, sub: SubTrie<K, V>) -> bool {
        &&& sub.wf()
        &&& self.node_at(sub.prefix_path()) == Some(sub.node())
        &&& sub@ == self@.restrict(Set::new(|p: Seq<u8>| extends(p, sub.prefix_path())))
    }

    /// Every entry of a sound trie stands under the path of its own key,
    /// and there are finitely many.
    pub proof fn lemma_entries_by_key(&self)
        requires
            self.wf(),
        ensures
            self@.dom().finite(),
            forall|p: Seq<u8>| #[trigger] self@.contains_key(p) ==> key_path(&self@[p].0) == p,
    {
        self.lemma_length();
        assert forall|p: Seq<u8>| #[trigger] self@.contains_key(p) implies key_path(&self@[p].0)
            == p by {
            self.node.lemma_entry_path(Seq::<u8>::empty(), p);
        }
    }

    /// An entry stands at a node; a node with an entry is an entry.
    pub proof fn lemma_entry_at_node(&self, path: Seq<u8>)
        ensures
            self@.contains_key(path) <==> (self.node_at(path) matches Some(n) && n.entry() is Some),
            self@.contains_key(path) ==> self.node_at(path)->Some_0.entry() == Some(self@[path]),
    {
        self.node.lemma_entry_of_node(path);
    }

    /// In a sound trie a node stands at the root, where a key ends and
    /// where two keys part.
    pub proof fn lemma_where_nodes_stand(&self, path: Seq<u8>)
        requires
            self.wf(),
        ensures
            self.node_at(path) is Some <==> (path.len() == 0 || self@.contains_key(path)
                || exists|p: Seq<u8>, q: Seq<u8>|
                self@.contains_key(p) && self@.contains_key(q) && extends(p, path) && extends(
                    q,
                    path,
                ) && p.len() > path.len() && q.len() > path.len() && p[path.len() as int]
                    != q[path.len() as int]),
    {
        self.node.lemma_where_nodes_stand(Seq::<u8>::empty(), path);
        if exists|p: Seq<u8>, q: Seq<u8>|
            self@.contains_key(p) && self@.contains_key(q) && extends(p, path) && extends(q, path)
                && p.len() > path.len() && q.len() > path.len() && p[path.len() as int]
                != q[path.len() as int] {
            let (p, q) = choose|p: Seq<u8>, q: Seq<u8>|
                self@.contains_key(p) && self@.contains_key(q) && extends(p, path) && extends(
                    q,
                    path,
                ) && p.len() > path.len() && q.len() > path.len() && p[path.len() as int]
                    != q[path.len() as int];
            assert(self.node.parts_at(path, p, q));
        }
        if exists|p: Seq<u8>, q: Seq<u8>| #[trigger] self.node.parts_at(path, p, q) {
            let (p, q) = choose|p: Seq<u8>, q: Seq<u8>| #[trigger] self.node.parts_at(path, p, q);
            assert(self@.contains_key(p) && self@.contains_key(q));
        }
    }

    /// A sound trie passes the audit. Every trie that `new`, `insert` and
    /// `remove` hand back is sound, so the audit passes after any sequence
    /// of them.
    pub proof fn lemma_sound_passes_audit(&self)
        requires
            self.wf(),
        ensures
            self.integrity(),
    {
        self.node.lemma_wf_is_intact(Seq::<u8>::empty());
    }

    /// The walk lists the entries of the trie, each once and under its
    /// path, in the order of the walk.
    pub proof fn lemma_in_order(&self)
        requires
            self.wf(),
        ensures
            self.paths_in_order().len() == self@.len(),
            self.in_order().len() == self@.len(),
            forall|j: int|
                0 <= j < self@.len() ==> self@.contains_key(#[trigger] self.paths_in_order()[j])
                    && self.in_order()[j] == self@[self.paths_in_order()[j]],
            forall|p: Seq<u8>| self@.contains_key(p) ==> self.paths_in_order().contains(p),
            in_walk_order(self.paths_in_order()),
    {
        self.lemma_length();
        self.node.lemma_sound_is_shaped(Seq::<u8>::empty());
        self.node.lemma_paths_listing();
    }

    /// The length of a sound trie is the number of its entries.
    proof fn lemma_length(&self)
        requires
            self.wf(),
        ensures
            self@.dom().finite(),
            self@.len() == self.length,
    {
        self.node.lemma_sound_is_shaped(Seq::<u8>::empty());
        self.node.lemma_entries_counted();
    }

    /// The view that starts at the node found at `to` in a sound trie.
    proof fn lemma_shows(&self, sub: SubTrie<K, V>)
        requires
            self.wf(),
            self.node.node_below(sub.prefix_path()) == Some(sub.node()),
        ensures
            sub.node().wf_at(sub.prefix_path()),
            sub.node().count() <= usize::MAX,
            sub@ == self@.restrict(Set::new(|p: Seq<u8>| extends(p, sub.prefix_path()))),
    {
        let to = sub.prefix_path();
        let n = sub.node();
        self.node.lemma_node_below_sound(Seq::<u8>::empty(), to);
        self.node.lemma_node_below_count(to);
        sub.lemma_view();
        assert forall|p: Seq<u8>| extends(p, to) implies self.node.entry_below(p) == n.entry_below(
            p.skip(to.len() as int),
        ) by {
            self.node.lemma_node_entries(to, p.skip(to.len() as int));
            assert(to + p.skip(to.len() as int) =~= p);
        }
    }

    /// What a trie has become once a mutable view of it is given up. The
    /// view started at `path`, and `by` is the node that it left there.
    proof fn lemma_view_given_up(&self, after: Self, path: Seq<u8>, by: TrieNode<K, V>)
        requires
            self.wf(),
            self.node.node_below(path) is Some,
            after.node.swapped_below(self.node, path, by),
        ensures
            ({
                let found = self.node.node_below(path)->Some_0;
                &&& by.wf_at(path)
                &&& by.fragment() == found.fragment()
                &&& after.length - by.count() == self.length - found.count()
            }) ==> {
                &&& after.wf()
                &&& after@ == self@.remove_keys(
                    Set::new(|p: Seq<u8>| extends(p, path)),
                ).union_prefer_right(entries_from(by, path))
            },
    {
        let found = self.node.node_below(path)->Some_0;
        let root = Seq::<u8>::empty();
        if by.wf_at(path) && by.fragment() == found.fragment() && after.length - by.count()
            == self.length - found.count() {
            after.node.lemma_swapped(self.node, path, by, root);
        }
    }

    /// Create an empty Trie.
    pub fn new() -> (trie: Trie<K, V>)
        ensures
            trie.wf(),
            trie.integrity(),
            trie@ == Map::<Seq<u8>, (K, V)>::empty(),
    {
        let trie = Trie { length: 0, node: TrieNode::new() };
        proof {
            TrieNode::<K, V>::lemma_count_in_none(trie.node.slots());
            assert(Seq::<u8>::empty().skip(0) =~= Seq::<u8>::empty());
            trie.lemma_sound_passes_audit();
        }
        trie
    }

    /// Create a trie that holds the given entries, inserted in turn: of
    /// two entries with one key, the later one stays.
    pub fn from_entries(entries: Vec<(K, V)>) -> (trie: Trie<K, V>)
        requires
            entries@.len() < usize::MAX,
        ensures
            trie.wf(),
            trie@ == with_all(Map::<Seq<u8>, (K, V)>::empty(), entries@),
    {
        let mut trie = Trie::new();
        let ghost all = entries@;
        for entry in it: entries.into_iter()
            invariant
                it.seq() == all,
                all.len() < usize::MAX,
                trie.wf(),
                trie@.len() <= it.index(),
                trie@ == with_all(Map::<Seq<u8>, (K, V)>::empty(), all.take(it.index() as int)),
        {
            proof {
                assert(all.take(it.index() + 1).drop_last() =~= all.take(it.index() as int));
                trie.lemma_entries_by_key();
            }
            let (key, value) = entry;
            trie.insert(key, value);
        }
        proof {
            assert(all.take(all.len() as int) =~= all);
        }
        trie
    }

    /// The number of entries.
    pub fn len(&self) -> (len: usize)
        requires
            self.wf(),
        ensures
            len == self@.len(),
    {
        proof {
            self.lemma_length();
        }
        self.length
    }

    /// Whether the trie holds no entry.
    pub fn is_empty(&self) -> (empty: bool)
        requires
            self.wf(),
        ensures
            empty == (self@.len() == 0),
    {
        proof {
            self.lemma_length();
        }
        self.length == 0
    }

    /// Fetch a reference to the given key's corresponding value, if any.
    pub fn get(&self, key: &K) -> (value: Option<&V>)
        requires
            self.wf(),
        ensures
            match value {
                Some(v) => self.value_of(key) == Some(*v),
                None => self.value_of(key) is None,
            },
    {
        let key_fragments = key.encode();
        proof {
            self.node.lemma_sound_is_shaped(Seq::<u8>::empty());
            self.node.lemma_entry_of_node(nibbles(key_fragments));
            assert(nibbles(key_fragments).skip(0) =~= nibbles(key_fragments));
            if self.node.entry_below(nibbles(key_fragments)) is Some {
                self.node.lemma_entry_path(Seq::<u8>::empty(), nibbles(key_fragments));
            }
        }
        match get_below(&self.node, &key_fragments, 0) {
            Some(node) => node.value_checked(key),
            None => None,
        }
    }

    /// Fetch a mutable reference to the given key's corresponding value, if any.
    pub fn get_mut(&mut self, key: &K) -> (value: Option<&mut V>)
        requires
            old(self).wf(),
        ensures
            final(self).wf(),
            match value {
                Some(v) => {
                    let path = key_path(key);
                    &&& old(self).value_of(key) == Some(*v)
                    &&& final(self)@ == old(self)@.insert(path, (old(self)@[path].0, *final(v)))
                },
                None => old(self).value_of(key) is None && final(self)@ == old(self)@,
            },
    {
        let key_fragments = key.encode();
        let ghost path = nibbles(key_fragments);
        let ghost before = *self;
        let ghost root = Seq::<u8>::empty();
        proof {
            before.node.lemma_sound_is_shaped(root);
            before.node.lemma_entry_of_node(path);
            assert(path.skip(0) =~= path);
            if before.node.node_below(path) is Some {
                before.node.lemma_node_below_sound(root, path);
            }
        }
        match get_mut_below(&mut self.node, &key_fragments, 0) {
            Some(node) => {
                let ghost found = *node;
                let ghost by = *final(node);
                let value = node.value_checked_mut(key);
                proof {
                    let after = after_borrow(*self);
                    lemma_entry_change(found, by, path, by.entry());
                    after.node.lemma_swapped(before.node, path, by, root);
                    assert forall|r: Seq<u8>|
                        after.node.entry_below(r) == if r == path {
                            by.entry()
                        } else {
                            before.node.entry_below(r)
                        } by {
                        if path.len() <= r.len() && r.take(path.len() as int) == path {
                            if r.skip(path.len() as int).len() == 0 {
                                assert(r =~= path);
                            } else {
                                found.lemma_node_entries(root, r.skip(path.len() as int));
                                before.node.lemma_node_entries(path, r.skip(path.len() as int));
                                assert(path + r.skip(path.len() as int) =~= r);
                            }
                        }
                    }
                }
                value
            },
            None => {
                proof {
                    let after = after_borrow(*self);
                    after.node.lemma_same_contents(before.node, root);
                }
                None
            },
        }
    }

    /// Insert the given key-value pair, returning any previous value associated with the key.
    pub fn insert(&mut self, key: K, value: V) -> (previous: Option<V>)
        requires
            old(self).wf(),
            old(self)@.len() < usize::MAX,
        ensures
            final(self).wf(),
            final(self).integrity(),
            final(self)@ == old(self)@.insert(key_path(&key), (key, value)),
            previous == old(self).value_of(&key),
    {
        let key_fragments = key.encode();
        let ghost path = nibbles(key_fragments);
        proof {
            self.lemma_length();
            assert(path.skip(0) =~= path);
        }
        let result = insert_below(
            &mut self.node,
            key,
            value,
            key_fragments,
            0,
            Ghost(Seq::<u8>::empty()),
        );
        if result.is_none() {
            self.length += 1;
        }
        proof {
            self.lemma_sound_passes_audit();
        }
        result
    }

    /// Remove the value associated with the given key.
    pub fn remove(&mut self, key: &K) -> (removed: Option<V>)
        requires
            old(self).wf(),
        ensures
            final(self).wf(),
            final(self).integrity(),
            final(self)@ == old(self)@.remove(key_path(key)),
            removed == old(self).value_of(key),
    {
        let key_fragments = key.encode();
        let ghost path = nibbles(key_fragments);
        proof {
            assert(path.skip(0) =~= path);
        }
        let (removed, _) = remove_below(
            &mut self.node,
            key,
            &key_fragments,
            0,
            Ghost(Seq::<u8>::empty()),
        );
        if removed.is_some() {
            self.length -= 1;
        }
        proof {
            self.lemma_sound_passes_audit();
        }
        removed
    }

    /// The key stored at the root, if any: the key with the empty encoding.
    pub fn key(&self) -> (key: Option<&K>)
        ensures
            match key {
                Some(k) => self@.contains_key(Seq::<u8>::empty()) && self@[Seq::<u8>::empty()].0
                    == *k,
                None => !self@.contains_key(Seq::<u8>::empty()),
            },
    {
        self.node.key()
    }

    /// The value stored at the root, if any: the value of the key with
    /// the empty encoding.
    pub fn value(&self) -> (value: Option<&V>)
        ensures
            match value {
                Some(v) => self@.contains_key(Seq::<u8>::empty()) && self@[Seq::<u8>::empty()].1
                    == *v,
                None => !self@.contains_key(Seq::<u8>::empty()),
            },
    {
        self.node.value()
    }

    /// Get a mutable reference to the value stored at the root, if any:
    /// the value of the key with the empty encoding.
    pub fn value_mut(&mut self) -> (value: Option<&mut V>)
        requires
            old(self).wf(),
        ensures
            final(self).wf(),
            match value {
                Some(v) => {
                    let root = Seq::<u8>::empty();
                    &&& old(self)@.contains_key(root)
                    &&& old(self)@[root].1 == *v
                    &&& final(self)@ == old(self)@.insert(root, (old(self)@[root].0, *final(v)))
                },
                None => !old(self)@.contains_key(Seq::<u8>::empty()) && final(self)@ == old(self)@,
            },
    {
        let ghost before = *self;
        let value = self.node.value_mut();
        proof {
            let after = after_borrow(*self);
            let root = Seq::<u8>::empty();
            lemma_entry_change(
                before.node,
                after.node,
                root,
                after.node.entry(),
            );
        }
        value
    }

    /// Fetch a reference to the subtrie for a given key: the view that
    /// starts at the node where the key ends, if a node stands there.
    pub fn subtrie<'a>(&'a self, key: &K) -> (sub: Option<SubTrie<'a, K, V>>)
        requires
            self.wf(),
        ensures
            match sub {
                Some(s) => self.shows(s) && s.prefix_path() == key_path(key),
                None => self.node_at(key_path(key)) is None,
            },
    {
        let key_fragments = key.encode();
        proof {
            self.node.lemma_sound_is_shaped(Seq::<u8>::empty());
            assert(nibbles(key_fragments).skip(0) =~= nibbles(key_fragments));
        }
        match get_below(&self.node, &key_fragments, 0) {
            Some(node) => {
                proof {
                    let to = nibbles(key_fragments);
                    self.node.lemma_node_below_sound(Seq::<u8>::empty(), to);
                    self.node.lemma_node_below_count(to);
                }
                let sub = SubTrie::with_owned_prefix(key_fragments, node);
                proof {
                    self.lemma_shows(sub);
                }
                Some(sub)
            },
            None => None,
        }
    }

    /// Fetch a mutable reference to the subtrie for a given key: the view
    /// that starts at the node where the key ends, if a node stands there.
    ///
    /// What is done through the view is done to the trie. Once the view is
    /// given up, the trie holds what it held outside of the view, and
    /// within it what the view came to hold.
    pub fn subtrie_mut<'a>(&'a mut self, key: &K) -> (sub: Option<SubTrieMut<'a, K, V>>)
        requires
            old(self).wf(),
        ensures
            match sub {
                Some(s) => {
                    let within = Set::new(|p: Seq<u8>| extends(p, key_path(key)));
                    &&& s.wf()
                    &&& s.prefix_path() == key_path(key)
                    &&& old(self).node_at(key_path(key)) == Some(s.node())
                    &&& s@ == old(self)@.restrict(within)
                    &&& s.whole_length() == old(self)@.len()
                    &&& s.closes(*final(s.node_borrow()), *final(s.length_borrow())) ==> {
                        &&& final(self).wf()
                        &&& final(self)@ == old(self)@.remove_keys(within).union_prefer_right(
                            entries_from(*final(s.node_borrow()), key_path(key)),
                        )
                    }
                },
                None => {
                    &&& old(self).node_at(key_path(key)) is None
                    &&& final(self).wf()
                    &&& final(self)@ == old(self)@
                },
            },
    {
        let key_fragments = key.encode();
        let ghost path = nibbles(key_fragments);
        let ghost before = *self;
        let ghost root = Seq::<u8>::empty();
        proof {
            before.lemma_length();
            before.node.lemma_sound_is_shaped(root);
            assert(path.skip(0) =~= path);
            if before.node.node_below(path) is Some {
                before.node.lemma_node_below_sound(root, path);
                before.node.lemma_node_below_count(path);
            }
        }
        let length_ref = &mut self.length;
        match get_mut_below(&mut self.node, &key_fragments, 0) {
            Some(node) => {
                let ghost found = *node;
                let sub = SubTrieMut::with_owned_prefix(key_fragments, length_ref, node);
                proof {
                    let after = after_borrow(*self);
                    let by = *final(sub.node_borrow());
                    sub.lemma_view();
                    assert forall|p: Seq<u8>| extends(p, path) implies before.node.entry_below(p)
                        == found.entry_below(p.skip(path.len() as int)) by {
                        before.node.lemma_node_entries(path, p.skip(path.len() as int));
                        assert(path + p.skip(path.len() as int) =~= p);
                    }
                    before.lemma_view_given_up(after, path, by);
                }
                Some(sub)
            },
            None => {
                proof {
                    let after = after_borrow(*self);
                    after.node.lemma_same_contents(before.node, root);
                }
                None
            },
        }
    }

    /// Fetch a reference to the closest ancestor node of the given key.
    ///
    /// If `key` is encoded as byte-vector `b`, return the node `n` in the tree
    /// such that `n`'s key's byte-vector is the longest possible prefix of `b`, and `n`
    /// has a value.
    ///
    /// Where no prefix of the key has a value, the search ends at the root:
    /// the result is then the view of the whole trie, whether or not the root
    /// has a value. So the result is never `None`.
    pub fn get_ancestor<'a>(&'a self, key: &K) -> (sub: Option<SubTrie<'a, K, V>>)
        requires
            self.wf(),
        ensures
            sub matches Some(s) && {
                &&& self.shows(s)
                &&& s.prefix_path().len() <= key_path(key).len()
                &&& s.prefix_path() == key_path(key).take(s.prefix_path().len() as int)
                &&& if no_prefix_in(self@, key_path(key)) {
                    s.prefix_path().len() == 0
                } else {
                    is_longest_prefix_in(self@, key_path(key), s.prefix_path().len() as int)
                }
            },
    {
        let mut key_fragments = key.encode();
        let ghost whole = nibbles(key_fragments);
        let ghost root = Seq::<u8>::empty();
        proof {
            self.node.lemma_sound_is_shaped(root);
            assert(whole.skip(0) =~= whole);
            assert(whole.take(0) =~= root);
        }
        let (node, node_key_len) = match ancestor_below(&self.node, &key_fragments, 0) {
            Some(found) => found,
            None => (&self.node, 0),
        };
        key_fragments.split(node_key_len);
        proof {
            let to = whole.take(node_key_len as int);
            self.node.lemma_node_below_sound(root, to);
            self.node.lemma_node_below_count(to);
            self.node.lemma_entry_of_node(to);
            assert(root + to =~= to);
        }
        let sub = SubTrie::with_owned_prefix(key_fragments, node);
        proof {
            self.lemma_shows(sub);
        }
        Some(sub)
    }

    /// Fetch the closest ancestor *value* for a given key.
    ///
    /// See `get_ancestor` for precise semantics, this is just a shortcut.
    pub fn get_ancestor_value(&self, key: &K) -> (value: Option<&V>)
        requires
            self.wf(),
        ensures
            match value {
                Some(v) => exists|d: int| #[trigger]
                    is_longest_prefix_in(self@, key_path(key), d) && self@[key_path(key).take(d)].1
                        == *v,
                None => no_prefix_in(self@, key_path(key)),
            },
    {
        match self.get_ancestor(key) {
            Some(sub) => {
                proof {
                    let d = sub.prefix_path().len() as int;
                    self.lemma_entry_at_node(key_path(key).take(d));
                }
                sub.value()
            },
            None => None,
        }
    }

    /// Fetch the closest ancestor node of the given key, whether or not
    /// it has a value: the deepest node on the way along the key.
    pub fn get_raw_ancestor<'a>(&'a self, key: &K) -> (sub: SubTrie<'a, K, V>)
        requires
            self.wf(),
        ensures
            self.shows(sub),
            sub.prefix_path().len() <= key_path(key).len(),
            sub.prefix_path() == key_path(key).take(sub.prefix_path().len() as int),
            forall|j: int|
                sub.prefix_path().len() < j <= key_path(key).len() ==> self.node_at(
                    #[trigger] key_path(key).take(j),
                ) is None,
    {
        let mut nv = key.encode();
        let ghost whole = nibbles(nv);
        proof {
            self.node.lemma_sound_is_shaped(Seq::<u8>::empty());
            assert(whole.skip(0) =~= whole);
        }
        let (ancestor_node, depth) = raw_ancestor_below(&self.node, &nv, 0);
        nv.split(depth);
        proof {
            let to = whole.take(depth as int);
            self.node.lemma_node_below_sound(Seq::<u8>::empty(), to);
            self.node.lemma_node_below_count(to);
        }
        let sub = SubTrie::with_owned_prefix(nv, ancestor_node);
        proof {
            self.lemma_shows(sub);
        }
        sub
    }

    /// Fetch the closest descendant for a given key: the nearest node at
    /// or below the end of the key.
    ///
    /// If the key is in the trie, this is the same as `subtrie`. If the
    /// key ends inside the fragment of a node, it is the view at that node.
    /// Either way the view shows every entry whose path goes through the
    /// path of the key. Where no node stands at the end of the key or behind
    /// it, there is no such entry, and the result is `None`.
    pub fn get_raw_descendant<'a>(&'a self, key: &K) -> (sub: Option<SubTrie<'a, K, V>>)
        requires
            self.wf(),
        ensures
            match sub {
                Some(s) => {
                    &&& self.shows(s)
                    &&& extends(s.prefix_path(), key_path(key))
                    &&& forall|j: int|
                        key_path(key).len() <= j < s.prefix_path().len() ==> self.node_at(
                            s.prefix_path().take(j),
                        ) is None
                    &&& forall|p: Seq<u8>|
                        #[trigger] self@.contains_key(p) && extends(p, key_path(key)) ==> extends(
                            p,
                            s.prefix_path(),
                        )
                },
                None => {
                    &&& forall|q: Seq<u8>|
                        extends(q, key_path(key)) ==> #[trigger] self.node_at(q) is None
                    &&& forall|p: Seq<u8>|
                        extends(p, key_path(key)) ==> !#[trigger] self@.contains_key(p)
                },
            },
    {
        let mut nv = key.encode();
        let ghost whole = nibbles(nv);
        let ghost root = Seq::<u8>::empty();
        proof {
            self.node.lemma_sound_is_shaped(root);
            assert(whole.skip(0) =~= whole);
        }
        match raw_descendant_below(&self.node, &nv, 0) {
            Some(desc) => {
                let (node, prefix) = match desc {
                    DescendantResult::NoModification(node) => {
                        (node, nv)
                    },
                    DescendantResult::ExtendKey(node, depth, extension) => {
                        nv.split(depth);
                        proof {
                            let to = whole.take(depth as int) + node.fragment();
                            self.node.lemma_node_below_sound(root, to);
                            assert(root + to =~= to);
                            assert(to.take(whole.len() as int) =~= whole) by {
                                assert(whole =~= whole.take(depth as int) + whole.skip(depth as int));
                            }
                        }
                        (node, nv.join(extension))
                    },
                };
                let ghost to = nibbles(prefix);
                proof {
                    self.node.lemma_node_below_sound(root, to);
                    assert(root + to =~= to);
                    self.node.lemma_node_below_count(to);
                    assert(to.take(whole.len() as int) =~= whole);
                    assert forall|j: int| whole.len() <= j < to.len() implies self.node.node_below(
                        to.take(j),
                    ) is None by {
                        self.node.lemma_none_inside_fragment(to, j);
                    }
                    assert forall|p: Seq<u8>|
                        self.node.entry_below(p) is Some && extends(p, whole) implies extends(
                        p,
                        to,
                    ) by {
                        if to.len() > whole.len() {
                            self.node.lemma_entry_through_fragment(to, whole.len() as int, p);
                        }
                    }
                }
                let sub = SubTrie::with_owned_prefix(prefix, node);
                proof {
                    self.lemma_shows(sub);
                }
                Some(sub)
            },
            None => {
                proof {
                    assert forall|p: Seq<u8>| extends(p, whole) implies !#[trigger] self@.contains_key(
                        p,
                    ) by {
                        self.node.lemma_entry_of_node(p);
                    }
                }
                None
            },
        }
    }

    /// Take a function `f` and apply it to the value stored at `key`.
    ///
    /// If no value is stored at `key`, store `default`.
    pub fn map_with_default<F>(&mut self, key: K, f: F, default: V) where F: Fn(&mut V)
        requires
            old(self).wf(),
            old(self)@.len() < usize::MAX,
            forall|slot: &mut V|
                old(self).value_of(&key) == Some(*slot) ==> #[trigger] call_requires(f, (slot,)),
        ensures
            final(self).wf(),
            match old(self).value_of(&key) {
                Some(stored) => exists|slot: &mut V|
                    {
                        &&& *slot == stored
                        &&& #[trigger] call_ensures(f, (slot,), ())
                        &&& final(self)@ == old(self)@.insert(
                            key_path(&key),
                            (old(self)@[key_path(&key)].0, *final(slot)),
                        )
                    },
                None => final(self)@ == old(self)@.insert(key_path(&key), (key, default)),
            },
    {
        if let Some(v) = self.get_mut(&key) {
            f(v);
            return ;
        }
        self.insert(key, default);
    }

    /// References to all entries, in the order in which the trie is
    /// walked: depth first, a node before its children, the children by
    /// ascending nibble.
    pub fn iter(&self) -> (entries: Vec<(&K, &V)>)
        requires
            self.wf(),
        ensures
            listed(entries@) == self.in_order(),
    {
        let mut entries: Vec<(&K, &V)> = Vec::new();
        proof {
            self.node.lemma_sound_is_shaped(Seq::<u8>::empty());
        }
        self.node.collect_entries(&mut entries);
        entries
    }

    /// References to all keys, in the order in which the trie is walked.
    pub fn keys(&self) -> (keys: Vec<&K>)
        requires
            self.wf(),
        ensures
            keys@.len() == self.in_order().len(),
            forall|j: int| 0 <= j < keys@.len() ==> *keys@[j] == self.in_order()[j].0,
    {
        let entries = self.iter();
        let mut keys: Vec<&K> = Vec::new();
        let mut i: usize = 0;
        while i < entries.len()
            invariant
                i <= entries@.len(),
                keys@.len() == i,
                listed(entries@) == self.in_order(),
                forall|j: int| 0 <= j < i ==> *keys@[j] == self.in_order()[j].0,
            decreases entries@.len() - i,
        {
            keys.push(entries[i].0);
            i += 1;
        }
        keys
    }

    /// References to all values, in the order in which the trie is walked.
    pub fn values(&self) -> (values: Vec<&V>)
        requires
            self.wf(),
        ensures
            values@.len() == self.in_order().len(),
            forall|j: int| 0 <= j < values@.len() ==> *values@[j] == self.in_order()[j].1,
    {
        let entries = self.iter();
        let mut values: Vec<&V> = Vec::new();
        let mut i: usize = 0;
        while i < entries.len()
            invariant
                i <= entries@.len(),
                values@.len() == i,
                listed(entries@) == self.in_order(),
                forall|j: int| 0 <= j < i ==> *values@[j] == self.in_order()[j].1,
            decreases entries@.len() - i,
        {
            values.push(entries[i].1);
            i += 1;
        }
        values
    }

    /// Check that the Trie invariants are satisfied - you shouldn't ever have to call this!
    /// Quite slow!
    pub fn check_integrity(&self) -> (ok: bool)
        ensures
            ok == self.integrity(),
            self.wf() ==> ok,
    {
        proof {
            if self.wf() {
                self.lemma_sound_passes_audit();
            }
        }
        let (ok, length) = self.node.check_integrity_recursive(true);
        ok && length == self.length
    }
}

} // verus!
