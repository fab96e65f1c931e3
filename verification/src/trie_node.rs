//! The node of a radix trie and the model that its contracts speak of.
use crate::keys::{check_keys, key_path, lemma_one_key_per_path, TrieKey};
use crate::nibbles::nibbles;
use nibble_vec::NibbleVec;
use vstd::prelude::*;

verus! {

/// The number of child slots of a node: one for each value of a nibble.
pub const BRANCH_FACTOR: usize = 16;

/// A key and the value stored under it.
#[derive(Debug)]
pub struct KeyValue<K, V> {
    pub key: K,
    pub value: V,
}

/// A node of the trie: a key fragment, an entry if a key ends here, and one
/// slot for each nibble that a longer key may go on with.
#[derive(Debug)]
pub struct TrieNode<K, V> {
    /// The fragment: the nibbles that this node adds to the path of its parent.
    pub(crate) key: NibbleVec,
    /// The entry, if a key ends at this node.
    pub(crate) key_value: Option<Box<KeyValue<K, V>>>,
    /// The number of occupied slots.
    pub(crate) child_count: usize,
    /// The sixteen slots. They are held in a `Vec`, not in an array: a
    /// recursive definition can descend into the elements of a `Vec`, while
    /// of an array the verifier cannot show that it ends. That there are
    /// sixteen is part of `counted`.
    pub(crate) children: Vec<Option<Box<TrieNode<K, V>>>>,
}

/// One where the condition holds, none where it does not.
pub open spec fn one_if(condition: bool) -> nat {
    if condition {
        1
    } else {
        0
    }
}

/// How many of the slots are occupied.
pub open spec fn occupied<T>(slots: Seq<Option<T>>) -> nat
    decreases slots.len(),
{
    if slots.len() == 0 {
        0
    } else {
        occupied(slots.drop_last()) + one_if(slots.last() is Some)
    }
}

/// What is to become of a node after an entry was removed at it or below it.
#[derive(Debug)]
pub enum DeleteAction<K, V> {
    /// This node takes the place of the current one.
    Replace(Box<TrieNode<K, V>>),
    /// The current node is dropped from its parent.
    Delete,
    /// The current node stays as it is.
    DoNothing,
}

/// The value of an entry, if there is one.
pub open spec fn entry_value<K, V>(entry: Option<(K, V)>) -> Option<V> {
    match entry {
        Some(e) => Some(e.1),
        None => None,
    }
}

/// Sixteen empty slots.
pub open spec fn no_children<T>() -> Seq<Option<T>> {
    Seq::new(BRANCH_FACTOR as nat, |i: int| None)
}

/// Filling or clearing one slot changes the number of occupied slots by that slot alone.
pub proof fn lemma_occupied_update<T>(slots: Seq<Option<T>>, i: int, v: Option<T>)
    requires
        0 <= i < slots.len(),
    ensures
        occupied(slots.update(i, v)) + one_if(slots[i] is Some)
            == occupied(slots) + one_if(v is Some),
    decreases slots.len(),
{
    let updated = slots.update(i, v);
    if i == slots.len() - 1 {
        assert(updated.drop_last() == slots.drop_last());
    } else {
        assert(updated.drop_last() == slots.drop_last().update(i, v));
        lemma_occupied_update(slots.drop_last(), i, v);
    }
}

/// No more slots are occupied than there are, and none is where the number is 0.
pub proof fn lemma_occupied_bounds<T>(slots: Seq<Option<T>>)
    ensures
        occupied(slots) <= slots.len(),
        occupied(slots) == 0 <==> (forall|i: int| 0 <= i < slots.len() ==> slots[i] is None),
    decreases slots.len(),
{
    if slots.len() > 0 {
        lemma_occupied_bounds(slots.drop_last());
        if occupied(slots) == 0 {
            assert forall|i: int| 0 <= i < slots.len() implies slots[i] is None by {
                if i < slots.len() - 1 {
                    assert(slots.drop_last()[i] is None);
                }
            }
        }
    }
}

impl<K: TrieKey, V> TrieNode<K, V> {
    /// The nibbles that this node adds to the path of its parent.
    pub open(crate) spec fn fragment(&self) -> Seq<u8> {
        nibbles(self.key)
    }

    /// The key and value stored at this node, if a key ends here.
    pub open(crate) spec fn entry(&self) -> Option<(K, V)> {
        match self.key_value {
            Some(kv) => Some((kv.key, kv.value)),
            None => None,
        }
    }

    /// The child slots, by bucket.
    pub open(crate) spec fn slots(&self) -> Seq<Option<Box<TrieNode<K, V>>>> {
        self.children@
    }

    /// The number of children that the node has on record.
    pub open(crate) spec fn recorded_children(&self) -> nat {
        self.child_count as nat
    }

    /// The child in the slot of `bucket`.
    pub open spec fn child(&self, bucket: int) -> Option<TrieNode<K, V>> {
        if 0 <= bucket < self.slots().len() {
            match self.slots()[bucket] {
                Some(c) => Some(*c),
                None => None,
            }
        } else {
            None
        }
    }

    /// The entry found by following `rest` from this node on, its own
    /// fragment already behind.
    pub open spec fn entry_below(&self, rest: Seq<u8>) -> Option<(K, V)>
        decreases self, 0nat,
    {
        if rest.len() == 0 {
            self.entry()
        } else {
            match self.child(rest[0] as int) {
                Some(c) => c.entry_at(rest),
                None => None,
            }
        }
    }

    /// The entry found by following `path` through this node, its own
    /// fragment first.
    pub open spec fn entry_at(&self, path: Seq<u8>) -> Option<(K, V)>
        decreases self, 1nat,
    {
        let f = self.fragment();
        if f.len() <= path.len() && path.take(f.len() as int) == f {
            self.entry_below(path.skip(f.len() as int))
        } else {
            None
        }
    }

    /// The node found by following `rest` from this node on, its own
    /// fragment already behind: the node whose path ends where `rest` ends.
    pub open spec fn node_below(&self, rest: Seq<u8>) -> Option<TrieNode<K, V>>
        decreases self, 0nat,
    {
        if rest.len() == 0 {
            Some(*self)
        } else {
            match self.child(rest[0] as int) {
                Some(c) => c.node_at(rest),
                None => None,
            }
        }
    }

    /// The node found by following `path` through this node, its own
    /// fragment first.
    pub open spec fn node_at(&self, path: Seq<u8>) -> Option<TrieNode<K, V>>
        decreases self, 1nat,
    {
        let f = self.fragment();
        if f.len() <= path.len() && path.take(f.len() as int) == f {
            self.node_below(path.skip(f.len() as int))
        } else {
            None
        }
    }

    /// The entries below this node, each under its path from this node on.
    pub open spec fn entries(&self) -> Map<Seq<u8>, (K, V)> {
        Map::new(|r: Seq<u8>| self.entry_below(r) is Some, |r: Seq<u8>| self.entry_below(r)->Some_0)
    }

    /// The number of entries in this node and below it.
    pub open spec fn count(&self) -> nat
        decreases self, 1nat,
    {
        one_if(self.entry() is Some) + Self::count_in(self.slots())
    }

    /// The number of entries in the nodes of `slots` and below them.
    pub open spec fn count_in(slots: Seq<Option<Box<TrieNode<K, V>>>>) -> nat
        decreases slots, 0nat,
    {
        if slots.len() == 0 {
            0
        } else {
            Self::count_in(slots.drop_last()) + (match slots.last() {
                Some(c) => c.count(),
                None => 0nat,
            })
        }
    }

    /// The node has its sixteen slots and has counted its children right.
    pub open spec fn counted(&self) -> bool {
        &&& self.slots().len() == BRANCH_FACTOR
        &&& self.recorded_children() == occupied(self.slots())
    }

    /// The node keeps the trie compressed: below the root, a node without
    /// an entry is a fork of at least two children.
    pub open spec fn compressed(&self) -> bool {
        self.fragment().len() > 0 && self.entry() is None ==> self.recorded_children() >= 2
    }

    /// The node is sound where it stands, whether or not it is compressed.
    /// `path` is the whole path from the root to this node, its own fragment
    /// last. Every node below it is sound and compressed.
    pub open spec fn sound_at(&self, path: Seq<u8>) -> bool
        decreases self, 0nat,
    {
        let f = self.fragment();
        &&& self.counted()
        &&& path.len() <= usize::MAX
        &&& f.len() <= path.len()
        &&& path.skip(path.len() - f.len()) == f
        &&& (self.entry() matches Some(e) ==> key_path(&e.0) == path)
        &&& forall|b: int|
            0 <= b < BRANCH_FACTOR ==> (#[trigger] self.child(b) matches Some(c) ==> {
                &&& c.fragment().len() > 0
                &&& c.fragment()[0] == b
                &&& c.wf_at(path + c.fragment())
            })
    }

    /// The node is sound and compressed where it stands.
    pub open spec fn wf_at(&self, path: Seq<u8>) -> bool
        decreases self, 1nat,
    {
        self.sound_at(path) && self.compressed()
    }

    /// This node and every node below it has its sixteen slots, and every
    /// node below it has a fragment, which begins with the number of the
    /// slot that the node is in.
    pub open spec fn shaped(&self) -> bool
        decreases self,
    {
        &&& self.slots().len() == BRANCH_FACTOR
        &&& forall|b: int|
            0 <= b < BRANCH_FACTOR ==> (#[trigger] self.child(b) matches Some(c) ==> {
                &&& c.fragment().len() > 0
                &&& c.fragment()[0] == b
                &&& c.shaped()
            })
    }

    /// What an audit of the tree looks for at this node and at every node
    /// below it: sixteen slots and a child count that agrees with them; no
    /// fragment at the root and one at every other node; below the root, no
    /// node without an entry that has exactly one child.
    pub open spec fn intact(&self, is_root: bool) -> bool
        decreases self,
    {
        &&& self.counted()
        &&& is_root <==> self.fragment().len() == 0
        &&& !(!is_root && self.entry() is None && self.recorded_children() == 1)
        &&& forall|b: int|
            0 <= b < BRANCH_FACTOR ==> (#[trigger] self.child(b) matches Some(c) ==> c.intact(false))
    }

    /// This node holds what `other` holds: it is the same node, or it has
    /// the same fragment, entry and child count, and in each slot a node
    /// that holds what the node in that slot of `other` holds.
    pub open spec fn same_contents(&self, other: Self) -> bool
        decreases self,
    {
        *self == other || {
            &&& self.fragment() == other.fragment()
            &&& self.entry() == other.entry()
            &&& self.recorded_children() == other.recorded_children()
            &&& self.slots().len() == other.slots().len()
            &&& forall|b: int|
                0 <= b < self.slots().len() ==> match (#[trigger] self.child(b), other.child(b)) {
                    (Some(c), Some(d)) => c.same_contents(d),
                    (None, None) => true,
                    _ => false,
                }
        }
    }

    /// This node is `before` with the node at the end of `rest` changed
    /// for `by`, and nothing else changed.
    pub open spec fn swapped_below(&self, before: Self, rest: Seq<u8>, by: Self) -> bool
        decreases before,
    {
        if rest.len() == 0 {
            *self == by
        } else {
            let b = rest[0] as int;
            &&& before.child(b) matches Some(c)
            &&& c.fragment().len() <= rest.len()
            &&& rest.take(c.fragment().len() as int) == c.fragment()
            &&& self.fragment() == before.fragment()
            &&& self.entry() == before.entry()
            &&& self.recorded_children() == before.recorded_children()
            &&& self.slots().len() == before.slots().len()
            &&& forall|o: int|
                0 <= o < self.slots().len() && o != b ==> self.slots()[o] == before.slots()[o]
            &&& self.child(b) matches Some(d)
            &&& d.swapped_below(c, rest.skip(c.fragment().len() as int), by)
        }
    }

    /// This node came from `whole` by a split at `idx`.
    pub open spec fn is_split_of(&self, whole: Self, idx: int) -> bool {
        let f = whole.fragment();
        &&& 0 < idx < f.len()
        &&& f[idx] < BRANCH_FACTOR
        &&& self.fragment() == f.take(idx)
        &&& self.entry() is None
        &&& self.recorded_children() == 1
        &&& self.slots().len() == BRANCH_FACTOR
        &&& (forall|b: int| 0 <= b < BRANCH_FACTOR && b != f[idx] ==> self.slots()[b] is None)
        &&& self.child(f[idx] as int) matches Some(rest)
        &&& rest.fragment() == f.skip(idx)
        &&& rest.entry() == whole.entry()
        &&& rest.slots() == whole.slots()
        &&& rest.recorded_children() == whole.recorded_children()
    }

    /// This node came from `parent`, which had no entry and one child, by
    /// folding the parent into that child.
    pub open spec fn is_merge_of(&self, parent: Self) -> bool {
        exists|b: int|
            {
                &&& 0 <= b < BRANCH_FACTOR
                &&& parent.slots().len() == BRANCH_FACTOR
                &&& (forall|o: int| 0 <= o < BRANCH_FACTOR && o != b ==> parent.slots()[o] is None)
                &&& #[trigger] parent.child(b) matches Some(c)
                &&& self.fragment() == parent.fragment() + c.fragment()
                &&& self.entry() == c.entry()
                &&& self.slots() == c.slots()
                &&& self.recorded_children() == c.recorded_children()
            }
    }
}

impl<K: TrieKey, V> TrieNode<K, V> {
    /// Create a value-less, child-less node with an empty fragment: a root.
    pub fn new() -> (node: Self)
        ensures
            node.fragment() == Seq::<u8>::empty(),
            node.entry() is None,
            node.slots() == no_children::<Box<TrieNode<K, V>>>(),
            node.recorded_children() == 0,
            node.counted(),
    {
        let children = empty_slots();
        proof {
            lemma_occupied_bounds(children@);
        }
        TrieNode { key: NibbleVec::new(), key_value: None, child_count: 0, children }
    }

    /// Create a leaf that holds the given fragment and entry.
    pub fn with_key_value(key_fragments: NibbleVec, key: K, value: V) -> (node: Self)
        ensures
            node.fragment() == nibbles(key_fragments),
            node.entry() == Some((key, value)),
            node.slots() == no_children::<Box<TrieNode<K, V>>>(),
            node.recorded_children() == 0,
            node.counted(),
    {
        let children = empty_slots();
        proof {
            lemma_occupied_bounds(children@);
        }
        TrieNode {
            key: key_fragments,
            key_value: Some(Box::new(KeyValue { key, value })),
            child_count: 0,
            children,
        }
    }

    /// The key stored at this node, if any.
    pub fn key(&self) -> (key: Option<&K>)
        ensures
            match key {
                Some(k) => self.entry() matches Some(e) && e.0 == *k,
                None => self.entry() is None,
            },
    {
        match &self.key_value {
            Some(kv) => Some(&kv.key),
            None => None,
        }
    }

    /// The value stored at this node, if any.
    pub fn value(&self) -> (value: Option<&V>)
        ensures
            match value {
                Some(v) => self.entry() matches Some(e) && e.1 == *v,
                None => self.entry() is None,
            },
    {
        match &self.key_value {
            Some(kv) => Some(&kv.value),
            None => None,
        }
    }

    /// The value stored at this node, if any, to be changed in place.
    pub fn value_mut(&mut self) -> (value: Option<&mut V>)
        ensures
            match value {
                Some(v) => {
                    &&& old(self).entry() matches Some(e)
                    &&& e.1 == *v
                    &&& final(self).entry() == Some((e.0, *final(v)))
                },
                None => old(self).entry() is None && final(self).entry() is None,
            },
            final(self).fragment() == old(self).fragment(),
            final(self).slots() == old(self).slots(),
            final(self).recorded_children() == old(self).recorded_children(),
    {
        match &mut self.key_value {
            Some(kv) => Some(&mut kv.value),
            None => None,
        }
    }

    /// The value stored at this node, if any, for a caller that looked the
    /// node up by `key`.
    pub fn value_checked(&self, key: &K) -> (value: Option<&V>)
        requires
            self.entry() matches Some(e) ==> key_path(&e.0) == key_path(key),
        ensures
            match value {
                Some(v) => self.entry() matches Some(e) && e.1 == *v,
                None => self.entry() is None,
            },
    {
        match &self.key_value {
            Some(kv) => {
                proof {
                    lemma_one_key_per_path(&kv.key, key);
                }
                check_keys(&kv.key, key);
                Some(&kv.value)
            },
            None => None,
        }
    }

    /// The value stored at this node, if any, to be changed in place, for a
    /// caller that looked the node up by `key`.
    pub fn value_checked_mut(&mut self, key: &K) -> (value: Option<&mut V>)
        requires
            old(self).entry() matches Some(e) ==> key_path(&e.0) == key_path(key),
        ensures
            match value {
                Some(v) => {
                    &&& old(self).entry() matches Some(e)
                    &&& e.1 == *v
                    &&& final(self).entry() == Some((e.0, *final(v)))
                },
                None => old(self).entry() is None && final(self).entry() is None,
            },
            final(self).fragment() == old(self).fragment(),
            final(self).slots() == old(self).slots(),
            final(self).recorded_children() == old(self).recorded_children(),
    {
        match &mut self.key_value {
            Some(kv) => {
                proof {
                    lemma_one_key_per_path(&kv.key, key);
                }
                check_keys(&kv.key, key);
                Some(&mut kv.value)
            },
            None => None,
        }
    }

    /// This node, if it holds an entry.
    pub fn as_value_node(&self) -> (node: Option<&TrieNode<K, V>>)
        ensures
            match node {
                Some(n) => self.entry() is Some && *n == *self,
                None => self.entry() is None,
            },
    {
        match &self.key_value {
            Some(_) => Some(self),
            None => None,
        }
    }

    /// Store an entry at a node that has none.
    pub fn add_key_value(&mut self, key: K, value: V)
        requires
            old(self).entry() is None,
        ensures
            final(self).entry() == Some((key, value)),
            final(self).fragment() == old(self).fragment(),
            final(self).slots() == old(self).slots(),
            final(self).recorded_children() == old(self).recorded_children(),
    {
        self.key_value = Some(Box::new(KeyValue { key, value }));
    }

    /// Take the value out of the node, if it has one. The key given is
    /// the one that the caller looked the node up by.
    pub fn take_value(&mut self, key: &K) -> (taken: Option<V>)
        requires
            old(self).entry() matches Some(e) ==> key_path(&e.0) == key_path(key),
        ensures
            taken == entry_value(old(self).entry()),
            final(self).entry() is None,
            final(self).fragment() == old(self).fragment(),
            final(self).slots() == old(self).slots(),
            final(self).recorded_children() == old(self).recorded_children(),
    {
        match self.key_value.take() {
            Some(kv) => {
                let KeyValue { key: stored, value } = *kv;
                proof {
                    lemma_one_key_per_path(&stored, key);
                }
                check_keys(&stored, key);
                Some(value)
            },
            None => None,
        }
    }

    /// Store an entry at the node and return the value that was there.
    pub fn replace_value(&mut self, key: K, value: V) -> (previous: Option<V>)
        requires
            old(self).entry() matches Some(e) ==> key_path(&e.0) == key_path(&key),
        ensures
            previous == entry_value(old(self).entry()),
            final(self).entry() == Some((key, value)),
            final(self).fragment() == old(self).fragment(),
            final(self).slots() == old(self).slots(),
            final(self).recorded_children() == old(self).recorded_children(),
    {
        let previous = self.take_value(&key);
        self.add_key_value(key, value);
        previous
    }

    /// The child in a slot that is occupied.
    pub fn child_ref(&self, idx: usize) -> (child: &TrieNode<K, V>)
        requires
            idx < self.slots().len(),
            self.slots()[idx as int] is Some,
        ensures
            self.child(idx as int) == Some(*child),
    {
        let boxed = self.children[idx].as_ref().unwrap();
        &**boxed
    }

    /// The child in a slot that is occupied, to be changed in place. What
    /// the caller makes of the child is what the slot then holds.
    pub fn child_mut(&mut self, idx: usize) -> (child: &mut TrieNode<K, V>)
        requires
            idx < old(self).slots().len(),
            old(self).slots()[idx as int] is Some,
        ensures
            old(self).child(idx as int) == Some(*child),
            final(self).slots().len() == old(self).slots().len(),
            final(self).child(idx as int) == Some(*final(child)),
            forall|o: int|
                0 <= o < old(self).slots().len() && o != idx ==> final(self).slots()[o] == old(
                    self,
                ).slots()[o],
            final(self).fragment() == old(self).fragment(),
            final(self).entry() == old(self).entry(),
            final(self).recorded_children() == old(self).recorded_children(),
    {
        match &mut self.children[idx] {
            Some(boxed) => &mut **boxed,
            None => vstd::pervasive::unreached(),
        }
    }

    /// Put a child into an empty slot.
    pub fn add_child(&mut self, idx: usize, node: Box<TrieNode<K, V>>)
        requires
            old(self).counted(),
            idx < BRANCH_FACTOR,
            old(self).slots()[idx as int] is None,
        ensures
            final(self).slots() == old(self).slots().update(idx as int, Some(node)),
            final(self).recorded_children() == old(self).recorded_children() + 1,
            final(self).counted(),
            final(self).fragment() == old(self).fragment(),
            final(self).entry() == old(self).entry(),
    {
        proof {
            lemma_occupied_update(self.children@, idx as int, Some(node));
            lemma_occupied_bounds(self.children@.update(idx as int, Some(node)));
        }
        self.child_count += 1;
        self.children[idx] = Some(node);
    }

    /// Take the child out of a slot, if there is one.
    pub fn take_child(&mut self, idx: usize) -> (taken: Option<Box<TrieNode<K, V>>>)
        requires
            old(self).counted(),
            idx < BRANCH_FACTOR,
        ensures
            taken == old(self).slots()[idx as int],
            final(self).slots() == old(self).slots().update(idx as int, None),
            final(self).recorded_children() + one_if(taken is Some)
                == old(self).recorded_children(),
            final(self).counted(),
            final(self).fragment() == old(self).fragment(),
            final(self).entry() == old(self).entry(),
    {
        proof {
            lemma_occupied_update(self.children@, idx as int, None);
            lemma_occupied_bounds(self.children@);
        }
        let taken = self.children[idx].take();
        if taken.is_some() {
            self.child_count -= 1;
        }
        taken
    }

    /// Take the only child out of a node that has just one.
    pub fn take_only_child(&mut self) -> (only: (usize, Box<TrieNode<K, V>>))
        requires
            old(self).counted(),
            old(self).recorded_children() == 1,
        ensures
            only.0 < BRANCH_FACTOR,
            old(self).slots() == no_children::<Box<TrieNode<K, V>>>().update(
                only.0 as int,
                Some(only.1),
            ),
            final(self).slots() == no_children::<Box<TrieNode<K, V>>>(),
            final(self).recorded_children() == 0,
            final(self).counted(),
            final(self).fragment() == old(self).fragment(),
            final(self).entry() == old(self).entry(),
    {
        let mut i: usize = 0;
        while i < BRANCH_FACTOR
            invariant
                i <= BRANCH_FACTOR,
                self.counted(),
                self.recorded_children() == 1,
                self.slots() == old(self).slots(),
                self.fragment() == old(self).fragment(),
                self.entry() == old(self).entry(),
                forall|j: int| 0 <= j < i ==> self.slots()[j] is None,
            decreases BRANCH_FACTOR - i,
        {
            if let Some(child) = self.take_child(i) {
                proof {
                    lemma_occupied_bounds(self.slots());
                    assert(self.slots() =~= no_children::<Box<TrieNode<K, V>>>());
                }
                return (i, child);
            }
            i += 1;
        }
        proof {
            lemma_occupied_bounds(self.slots());
        }
        vstd::pervasive::unreached()
    }

    /// Split the node's fragment at `idx`. The node keeps the first `idx`
    /// nibbles and nothing else; what follows them goes to a new node, its
    /// only child, together with the entry and all the children.
    pub fn split(&mut self, idx: usize)
        requires
            old(self).counted(),
            0 < idx < old(self).fragment().len(),
        ensures
            final(self).counted(),
            final(self).is_split_of(*old(self), idx as int),
    {
        let key = self.key.split(idx);
        let key_value = self.key_value.take();
        let mut children = empty_slots();
        std::mem::swap(&mut self.children, &mut children);
        let child_count = self.child_count;
        self.child_count = 1;
        let bucket = key.get(0) as usize;
        proof {
            lemma_occupied_bounds(self.children@);
            lemma_occupied_update(
                self.children@,
                bucket as int,
                Some(Box::new(TrieNode { key, key_value, children, child_count })),
            );
        }
        self.children[bucket] = Some(Box::new(TrieNode { key, key_value, children, child_count }));
    }

    /// Decide what is to become of this node after its entry, or one of
    /// its children, was removed. A node with neither entry nor child is to
    /// be deleted. A node below the root with no entry and one child is
    /// folded into that child, whose fragment gets the node's own in front.
    pub fn delete_node(&mut self) -> (action: DeleteAction<K, V>)
        requires
            old(self).counted(),
            forall|b: int| #[trigger]
                old(self).child(b) matches Some(c) ==> old(self).fragment().len()
                    + c.fragment().len() <= usize::MAX,
        ensures
            match action {
                DeleteAction::Delete => {
                    &&& old(self).recorded_children() == 0
                    &&& old(self).entry() is None
                },
                DeleteAction::Replace(merged) => {
                    &&& old(self).recorded_children() == 1
                    &&& old(self).entry() is None
                    &&& old(self).fragment().len() > 0
                    &&& merged.is_merge_of(*old(self))
                },
                DeleteAction::DoNothing => {
                    &&& old(self).recorded_children() == 0 ==> old(self).entry() is Some
                    &&& old(self).recorded_children() == 1 ==> old(self).entry() is Some
                        || old(self).fragment().len() == 0
                },
            },
            final(self).fragment() == old(self).fragment(),
            final(self).entry() == old(self).entry(),
            !(action is Replace) ==> {
                &&& final(self).slots() == old(self).slots()
                &&& final(self).recorded_children() == old(self).recorded_children()
            },
            action is Replace ==> {
                &&& final(self).slots() == no_children::<Box<TrieNode<K, V>>>()
                &&& final(self).recorded_children() == 0
            },
    {
        if self.child_count == 0 {
            if self.key_value.is_some() {
                DeleteAction::DoNothing
            } else {
                DeleteAction::Delete
            }
        } else if self.child_count == 1 && self.key_value.is_none() && self.key.len() != 0 {
            let (bucket, mut child) = self.take_only_child();
            assert(old(self).child(bucket as int) == Some(*child));
            let new_key = self.key.clone().join(&child.key);
            child.key = new_key;
            DeleteAction::Replace(child)
        } else {
            DeleteAction::DoNothing
        }
    }

    /// Count the entries of this node and of all below it. This walks the
    /// whole subtree.
    pub fn compute_size(&self) -> (size: usize)
        requires
            self.shaped(),
            self.count() <= usize::MAX,
        ensures
            size == self.count(),
        decreases self,
    {
        let mut size: usize = if self.key_value.is_some() {
            1
        } else {
            0
        };
        let mut i: usize = 0;
        while i < BRANCH_FACTOR
            invariant
                i <= BRANCH_FACTOR,
                self.shaped(),
                self.count() <= usize::MAX,
                size == one_if(self.entry() is Some) + Self::count_in(
                    self.slots().take(i as int),
                ),
            decreases BRANCH_FACTOR - i,
        {
            proof {
                Self::lemma_count_in_step(self.slots(), i as int);
            }
            if let Some(child) = &self.children[i] {
                assert(self.child(i as int) == Some(**child));
                size += child.compute_size();
            }
            i += 1;
        }
        proof {
            assert(self.slots().take(BRANCH_FACTOR as int) =~= self.slots());
        }
        size
    }

    /// Audit this node and all below it, and count their entries on the
    /// way. The audit fails where a node is not intact, and also where the
    /// entries are too many to count.
    pub fn check_integrity_recursive(&self, is_root: bool) -> (checked: (bool, usize))
        ensures
            checked.0 ==> self.intact(is_root) && checked.1 == self.count(),
            !checked.0 ==> !self.intact(is_root) || self.count() > usize::MAX,
        decreases self,
    {
        if self.children.len() != BRANCH_FACTOR {
            return (false, 0);
        }
        if !is_root && self.child_count == 1 && self.key_value.is_none() {
            return (false, 0);
        }
        if is_root != (self.key.len() == 0) {
            return (false, 0);
        }
        let mut child_count: usize = 0;
        let mut size: usize = if self.key_value.is_some() {
            1
        } else {
            0
        };
        let mut i: usize = 0;
        while i < BRANCH_FACTOR
            invariant
                i <= BRANCH_FACTOR,
                self.slots().len() == BRANCH_FACTOR,
                child_count == occupied(self.slots().take(i as int)),
                child_count <= i,
                size == one_if(self.entry() is Some) + Self::count_in(
                    self.slots().take(i as int),
                ),
                forall|b: int| 0 <= b < i ==> (#[trigger] self.child(b) matches Some(c) ==> c.intact(false)),
            decreases BRANCH_FACTOR - i,
        {
            proof {
                Self::lemma_count_in_step(self.slots(), i as int);
                assert(self.slots().take(i + 1).drop_last() =~= self.slots().take(i as int));
            }
            if let Some(child) = &self.children[i] {
                assert(self.child(i as int) == Some(**child));
                child_count += 1;
                let (ok, child_size) = child.check_integrity_recursive(false);
                if !ok {
                    return (false, 0);
                }
                match size.checked_add(child_size) {
                    Some(sum) => {
                        size = sum;
                    },
                    None => {
                        return (false, 0);
                    },
                }
            }
            i += 1;
        }
        proof {
            assert(self.slots().take(BRANCH_FACTOR as int) =~= self.slots());
        }
        if child_count != self.child_count {
            return (false, 0);
        }
        (true, size)
    }
}

/// Sixteen empty slots.
fn empty_slots<T>() -> (slots: Vec<Option<T>>)
    ensures
        slots@ == no_children::<T>(),
{
    let mut slots: Vec<Option<T>> = Vec::with_capacity(BRANCH_FACTOR);
    let mut i: usize = 0;
    while i < BRANCH_FACTOR
        invariant
            i <= BRANCH_FACTOR,
            slots@.len() == i,
            forall|j: int| 0 <= j < i ==> slots@[j] is None,
        decreases BRANCH_FACTOR - i,
    {
        slots.push(None);
        i += 1;
    }
    slots
}

} // verus!
