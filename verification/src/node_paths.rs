//! What lies along a path: the nodes and entries that the prefixes of a
//! path lead to, and what holds of a node that is found below a sound one.
use crate::keys::TrieKey;
use crate::keys::key_path;
use crate::trie_node::{TrieNode, BRANCH_FACTOR};
use vstd::prelude::*;

verus! {

impl<K: TrieKey, V> TrieNode<K, V> {
    /// None of the prefixes of `target` that are longer than `d` leads to an entry.
    pub open spec fn no_entry_beyond(&self, target: Seq<u8>, d: int) -> bool {
        forall|j: int| d < j <= target.len() ==> self.entry_below(#[trigger] target.take(j)) is None
    }

    /// None of the prefixes of `target` that are longer than `d` leads to a node.
    pub open spec fn no_node_beyond(&self, target: Seq<u8>, d: int) -> bool {
        forall|j: int| d < j <= target.len() ==> self.node_below(#[trigger] target.take(j)) is None
    }

    /// No node stands at `target` or anywhere behind it.
    pub open spec fn no_node_from(&self, target: Seq<u8>) -> bool {
        forall|q: Seq<u8>|
            target.len() <= q.len() && q.take(target.len() as int) == target
                ==> #[trigger] self.node_below(q) is None
    }

    /// The entry under a path is the entry of the node at that path.
    pub proof fn lemma_entry_of_node(&self, rest: Seq<u8>)
        ensures
            self.entry_below(rest) == (match self.node_below(rest) {
                Some(n) => n.entry(),
                None => None,
            }),
        decreases self,
    {
        if rest.len() > 0 {
            if let Some(c) = self.child(rest[0] as int) {
                let f = c.fragment();
                if f.len() <= rest.len() && rest.take(f.len() as int) == f {
                    c.lemma_entry_of_node(rest.skip(f.len() as int));
                }
            }
        }
    }

    /// What a node found below another leads to is what the other leads to
    /// by the path to that node and on.
    pub proof fn lemma_node_entries(&self, to: Seq<u8>, rest: Seq<u8>)
        requires
            self.node_below(to) is Some,
        ensures
            self.entry_below(to + rest) == self.node_below(to)->Some_0.entry_below(rest),
            self.node_below(to + rest) == self.node_below(to)->Some_0.node_below(rest),
        decreases self,
    {
        if to.len() > 0 {
            let c = self.child(to[0] as int)->Some_0;
            let f = c.fragment();
            let whole = to + rest;
            assert(whole.take(f.len() as int) =~= to.take(f.len() as int));
            assert(whole.skip(f.len() as int) =~= to.skip(f.len() as int) + rest);
            c.lemma_node_entries(to.skip(f.len() as int), rest);
        }
    }

    /// What a prefix of `target` leads to from a node is what the rest of
    /// that prefix leads to from the child that `target` goes through,
    /// where the prefix reaches past the child's fragment; a shorter one
    /// leads to nothing.
    pub proof fn lemma_prefix_walk(&self, target: Seq<u8>, j: int)
        requires
            0 < j <= target.len(),
        ensures
            match self.child(target[0] as int) {
                Some(c) => {
                    let cf = c.fragment();
                    if cf.len() <= target.len() && target.take(cf.len() as int) == cf && cf.len()
                        <= j {
                        &&& self.node_below(target.take(j)) == c.node_below(
                            target.skip(cf.len() as int).take(j - cf.len()),
                        )
                        &&& self.entry_below(target.take(j)) == c.entry_below(
                            target.skip(cf.len() as int).take(j - cf.len()),
                        )
                    } else {
                        &&& self.node_below(target.take(j)) is None
                        &&& self.entry_below(target.take(j)) is None
                    }
                },
                None => {
                    &&& self.node_below(target.take(j)) is None
                    &&& self.entry_below(target.take(j)) is None
                },
            },
    {
        let head = target.take(j);
        if let Some(c) = self.child(target[0] as int) {
            let cf = c.fragment();
            if cf.len() <= target.len() && target.take(cf.len() as int) == cf && cf.len() <= j {
                assert(head.take(cf.len() as int) =~= cf);
                assert(head.skip(cf.len() as int) =~= target.skip(cf.len() as int).take(
                    j - cf.len(),
                ));
            } else {
                if cf.len() <= head.len() && head.take(cf.len() as int) == cf {
                    assert(target.take(cf.len() as int) =~= head.take(cf.len() as int));
                }
            }
        }
    }

    /// A sound node has its slots, and so has every node below it.
    pub proof fn lemma_sound_is_shaped(&self, path: Seq<u8>)
        requires
            self.sound_at(path),
        ensures
            self.shaped(),
        decreases self,
    {
        assert forall|b: int| 0 <= b < BRANCH_FACTOR implies (#[trigger] self.child(b) matches Some(
            c,
        ) ==> c.fragment().len() > 0 && c.fragment()[0] == b && c.shaped()) by {
            if let Some(c) = self.child(b) {
                c.lemma_sound_is_shaped(path + c.fragment());
            }
        }
    }

    /// A node found below a sound node is sound and compressed where it
    /// stands, and it is not the node itself unless the path to it is empty.
    pub proof fn lemma_node_below_sound(&self, path: Seq<u8>, rest: Seq<u8>)
        requires
            self.sound_at(path),
            self.node_below(rest) is Some,
        ensures
            self.node_below(rest)->Some_0.sound_at(path + rest),
            rest.len() > 0 ==> self.node_below(rest)->Some_0.wf_at(path + rest),
            rest.len() > 0 ==> self.node_below(rest)->Some_0.fragment().len() > 0,
        decreases self,
    {
        if rest.len() > 0 {
            let c = self.child(rest[0] as int)->Some_0;
            let f = c.fragment();
            let q = rest.skip(f.len() as int);
            c.lemma_node_below_sound(path + f, q);
            assert(path + f + q =~= path + rest);
        }
    }

    /// A node found below another holds no more entries than the other.
    pub proof fn lemma_node_below_count(&self, to: Seq<u8>)
        requires
            self.node_below(to) is Some,
        ensures
            self.node_below(to)->Some_0.count() <= self.count(),
        decreases self,
    {
        if to.len() > 0 {
            let c = self.child(to[0] as int)->Some_0;
            c.lemma_node_below_count(to.skip(c.fragment().len() as int));
            Self::lemma_count_in_bounds(self.slots(), to[0] as int);
        }
    }

    /// Every entry below a sound node is filed under the path of its own key.
    pub proof fn lemma_entry_path(&self, path: Seq<u8>, rest: Seq<u8>)
        requires
            self.sound_at(path),
            self.entry_below(rest) is Some,
        ensures
            key_path(&self.entry_below(rest)->Some_0.0) == path + rest,
    {
        self.lemma_entry_of_node(rest);
        self.lemma_node_below_sound(path, rest);
    }

    /// A node that is sound and compressed where it stands is intact, and
    /// so is every node below it.
    pub proof fn lemma_wf_is_intact(&self, path: Seq<u8>)
        requires
            self.wf_at(path),
        ensures
            self.intact(self.fragment().len() == 0),
        decreases self,
    {
        assert forall|b: int| 0 <= b < BRANCH_FACTOR implies (#[trigger] self.child(b) matches Some(
            c,
        ) ==> c.intact(false)) by {
            if let Some(c) = self.child(b) {
                c.lemma_wf_is_intact(path + c.fragment());
            }
        }
    }
}

} // verus!
