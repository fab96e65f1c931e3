//! The walks through the trie that leave it as it is: the steps that every
//! walk takes, lookup, and the search for the nearest node above or below
//! a key.
use crate::insertion::insert_below;
use crate::keys::{key_match_holds, key_path, match_keys, KeyMatch, TrieKey};
use crate::nibbles::nibbles;
use crate::trie_node::{entry_value, one_if, TrieNode, BRANCH_FACTOR};
use nibble_vec::NibbleVec;
use vstd::prelude::*;

verus! {

/// Where a walk along a key stands at a node, and how it goes on from there.
pub enum Step {
    /// The key ends at the node.
    End,
    /// The key goes on, and the node has no child in the slot of the next nibble.
    NoChild(usize),
    /// The key goes on, and the node has a child in the slot of the next
    /// nibble. The rest of the key compares to the fragment of that child as
    /// the match says.
    Child(usize, KeyMatch),
}

/// What a step says of a node and of the rest of a key.
pub open spec fn step_holds<K: TrieKey, V>(node: TrieNode<K, V>, rest: Seq<u8>, step: Step) -> bool {
    match step {
        Step::End => rest.len() == 0,
        Step::NoChild(bucket) => {
            &&& rest.len() > 0
            &&& bucket == rest[0]
            &&& bucket < BRANCH_FACTOR
            &&& node.child(bucket as int) is None
        },
        Step::Child(bucket, m) => {
            &&& rest.len() > 0
            &&& bucket == rest[0]
            &&& bucket < BRANCH_FACTOR
            &&& node.child(bucket as int) matches Some(c)
            &&& key_match_holds(rest, c.fragment(), m)
        },
    }
}

/// Take one step of a walk: see whether the key, of which `depth` nibbles
/// lie behind, ends at `node`, and if it goes on, pick the slot of its next
/// nibble and compare what is left of the key with the fragment of the
/// child in that slot. Every walk through the trie goes by these steps;
/// what is done at each of them is the walk's own.
pub fn next_step<K: TrieKey, V>(node: &TrieNode<K, V>, nv: &NibbleVec, depth: usize) -> (step: Step)
    requires
        depth <= nibbles(*nv).len(),
        node.slots().len() == BRANCH_FACTOR,
    ensures
        step_holds(*node, nibbles(*nv).skip(depth as int), step),
        nibbles(*nv).len() <= usize::MAX,
{
    if depth == nv.len() {
        return Step::End;
    }
    let bucket = nv.get(depth) as usize;
    match &node.children[bucket] {
        Some(child) => Step::Child(bucket, match_keys(depth, nv, &child.key)),
        None => Step::NoChild(bucket),
    }
}

/// The node below `node` at the end of what `nv` holds from `depth` on, if
/// a node ends there.
pub(crate) fn get_below<'a, K: TrieKey, V>(
    node: &'a TrieNode<K, V>,
    nv: &NibbleVec,
    depth: usize,
) -> (found: Option<&'a TrieNode<K, V>>)
    requires
        depth <= nibbles(*nv).len(),
        node.shaped(),
    ensures
        match found {
            Some(n) => node.node_below(nibbles(*nv).skip(depth as int)) == Some(*n),
            None => node.node_below(nibbles(*nv).skip(depth as int)) is None,
        },
    decreases node,
{
    let ghost target = nibbles(*nv).skip(depth as int);
    match next_step(node, nv, depth) {
        Step::End => Some(node),
        Step::NoChild(_) => None,
        Step::Child(bucket, m) => {
            let child = node.child_ref(bucket);
            let ghost cf = child.fragment();
            match m {
                KeyMatch::Full => {
                    assert(target.take(cf.len() as int) =~= target);
                    Some(child)
                },
                KeyMatch::SecondPrefix => {
                    assert(target.skip(cf.len() as int) =~= nibbles(*nv).skip(depth + cf.len()));
                    get_below(child, nv, depth + child.key.len())
                },
                _ => None,
            }
        },
    }
}

/// The node below `node` at the end of what `nv` holds from `depth` on, if
/// a node ends there, to be changed in place.
pub(crate) fn get_mut_below<'a, K: TrieKey, V>(
    node: &'a mut TrieNode<K, V>,
    nv: &NibbleVec,
    depth: usize,
) -> (found: Option<&'a mut TrieNode<K, V>>)
    requires
        depth <= nibbles(*nv).len(),
        old(node).shaped(),
    ensures
        match found {
            Some(n) => {
                &&& old(node).node_below(nibbles(*nv).skip(depth as int)) == Some(*n)
                &&& final(node).swapped_below(
                    *old(node),
                    nibbles(*nv).skip(depth as int),
                    *final(n),
                )
            },
            None => {
                &&& old(node).node_below(nibbles(*nv).skip(depth as int)) is None
                &&& final(node).same_contents(*old(node))
            },
        },
    decreases *old(node),
{
    let ghost target = nibbles(*nv).skip(depth as int);
    let ghost before = *node;
    match next_step(&*node, nv, depth) {
        Step::End => Some(node),
        Step::NoChild(_) => None,
        Step::Child(bucket, m) => {
            let ghost old_child = before.child(bucket as int)->Some_0;
            let ghost cf = old_child.fragment();
            match m {
                KeyMatch::Full | KeyMatch::SecondPrefix => {
                    proof {
                        assert(target.take(cf.len() as int) =~= cf);
                        assert(target.skip(cf.len() as int) =~= nibbles(*nv).skip(depth + cf.len()));
                    }
                    let new_depth = depth + node.child_ref(bucket).key.len();
                    let child = node.child_mut(bucket);
                    let found = get_mut_below(child, nv, new_depth);
                    proof {
                        let after = after_borrow(*node);
                        if found is None {
                            assert forall|b: int| 0 <= b < after.slots().len() implies match (
                                #[trigger] after.child(b),
                                before.child(b),
                            ) {
                                (Some(c), Some(d)) => c.same_contents(d),
                                (None, None) => true,
                                _ => false,
                            } by {}
                        }
                    }
                    found
                },
                _ => None,
            }
        },
    }
}

/// The deepest node with an entry on the way from `node` along what `nv`
/// holds from `depth` on, with the number of nibbles of `nv` that lead to it.
pub(crate) fn ancestor_below<'a, K: TrieKey, V>(
    node: &'a TrieNode<K, V>,
    nv: &NibbleVec,
    depth: usize,
) -> (found: Option<(&'a TrieNode<K, V>, usize)>)
    requires
        depth <= nibbles(*nv).len(),
        node.shaped(),
    ensures
        match found {
            Some((n, d)) => {
                &&& depth <= d <= nibbles(*nv).len()
                &&& node.node_below(nibbles(*nv).skip(depth as int).take(d - depth)) == Some(*n)
                &&& n.entry() is Some
                &&& node.no_entry_beyond(nibbles(*nv).skip(depth as int), d - depth)
            },
            None => node.no_entry_beyond(nibbles(*nv).skip(depth as int), -1),
        },
    decreases node,
{
    let ghost target = nibbles(*nv).skip(depth as int);
    let here = match node.as_value_node() {
        Some(n) => Some((n, depth)),
        None => None,
    };
    let deeper = match next_step(node, nv, depth) {
        Step::Child(bucket, KeyMatch::Full) | Step::Child(bucket, KeyMatch::SecondPrefix) => {
            let child = node.child_ref(bucket);
            let ghost cf = child.fragment();
            assert(target.take(cf.len() as int) =~= cf);
            assert(target.skip(cf.len() as int) =~= nibbles(*nv).skip(depth + cf.len()));
            ancestor_below(child, nv, depth + child.key.len())
        },
        _ => None,
    };
    proof {
        match deeper {
            Some((n, d)) => {
                node.lemma_prefix_walk(target, d - depth);
                assert forall|j: int| d - depth < j <= target.len() implies node.entry_below(
                    #[trigger] target.take(j),
                ) is None by {
                    node.lemma_prefix_walk(target, j);
                }
            },
            None => {
                assert forall|j: int| 0 < j <= target.len() implies node.entry_below(
                    #[trigger] target.take(j),
                ) is None by {
                    node.lemma_prefix_walk(target, j);
                }
            },
        }
    }
    match deeper {
        Some(found) => Some(found),
        None => here,
    }
}

/// The deepest node on the way from `node` along what `nv` holds from
/// `depth` on, whether or not it has an entry, with the number of nibbles of
/// `nv` that lead to it.
pub(crate) fn raw_ancestor_below<'a, K: TrieKey, V>(
    node: &'a TrieNode<K, V>,
    nv: &NibbleVec,
    depth: usize,
) -> (found: (&'a TrieNode<K, V>, usize))
    requires
        depth <= nibbles(*nv).len(),
        node.shaped(),
    ensures
        depth <= found.1 <= nibbles(*nv).len(),
        node.node_below(nibbles(*nv).skip(depth as int).take(found.1 - depth)) == Some(*found.0),
        node.no_node_beyond(nibbles(*nv).skip(depth as int), found.1 - depth),
    decreases node,
{
    let ghost target = nibbles(*nv).skip(depth as int);
    let deeper = match next_step(node, nv, depth) {
        Step::Child(bucket, KeyMatch::Full) | Step::Child(bucket, KeyMatch::SecondPrefix) => {
            let child = node.child_ref(bucket);
            let ghost cf = child.fragment();
            assert(target.take(cf.len() as int) =~= cf);
            assert(target.skip(cf.len() as int) =~= nibbles(*nv).skip(depth + cf.len()));
            Some(raw_ancestor_below(child, nv, depth + child.key.len()))
        },
        _ => None,
    };
    proof {
        match deeper {
            Some((n, d)) => {
                node.lemma_prefix_walk(target, d - depth);
                assert forall|j: int| d - depth < j <= target.len() implies node.node_below(
                    #[trigger] target.take(j),
                ) is None by {
                    node.lemma_prefix_walk(target, j);
                }
            },
            None => {
                assert forall|j: int| 0 < j <= target.len() implies node.node_below(
                    #[trigger] target.take(j),
                ) is None by {
                    node.lemma_prefix_walk(target, j);
                }
            },
        }
    }
    match deeper {
        Some(found) => found,
        None => (node, depth),
    }
}

/// What the search for the nearest node at or below a key has found.
pub enum DescendantResult<'a, K, V> {
    /// The node stands at the end of the key.
    NoModification(&'a TrieNode<K, V>),
    /// The key ends inside the fragment of the node. The number is that of
    /// the nibbles of the key before that fragment, and the fragment follows.
    ExtendKey(&'a TrieNode<K, V>, usize, &'a NibbleVec),
}

/// The nearest node at or below the end of what `nv` holds from `depth` on.
pub(crate) fn raw_descendant_below<'a, K: TrieKey, V>(
    node: &'a TrieNode<K, V>,
    nv: &NibbleVec,
    depth: usize,
) -> (found: Option<DescendantResult<'a, K, V>>)
    requires
        depth <= nibbles(*nv).len(),
        node.shaped(),
    ensures
        match found {
            Some(DescendantResult::NoModification(n)) => node.node_below(
                nibbles(*nv).skip(depth as int),
            ) == Some(*n),
            Some(DescendantResult::ExtendKey(n, d, extension)) => {
                let target = nibbles(*nv).skip(depth as int);
                &&& depth <= d < nibbles(*nv).len()
                &&& nibbles(*extension) == n.fragment()
                &&& target.len() - (d - depth) < n.fragment().len()
                &&& n.fragment().take(target.len() - (d - depth)) == target.skip(d - depth)
                &&& node.node_below(target.take(d - depth) + n.fragment()) == Some(*n)
            },
            None => node.no_node_from(nibbles(*nv).skip(depth as int)),
        },
    decreases node,
{
    let ghost target = nibbles(*nv).skip(depth as int);
    match next_step(node, nv, depth) {
        Step::End => Some(DescendantResult::NoModification(node)),
        Step::NoChild(_) => {
            None
        },
        Step::Child(bucket, m) => {
            let child = node.child_ref(bucket);
            let ghost cf = child.fragment();
            match m {
                KeyMatch::Full => {
                    assert(target.take(cf.len() as int) =~= target);
                    Some(DescendantResult::NoModification(child))
                },
                KeyMatch::FirstPrefix => {
                    proof {
                        assert(cf.take(cf.len() as int) =~= cf);
                        assert(child.node_at(cf) == Some(*child));
                    }
                    Some(DescendantResult::ExtendKey(child, depth, &child.key))
                },
                KeyMatch::SecondPrefix => {
                    let ghost sub = target.skip(cf.len() as int);
                    proof {
                        assert(sub =~= nibbles(*nv).skip(depth + cf.len()));
                    }
                    let found = raw_descendant_below(child, nv, depth + child.key.len());
                    proof {
                        match found {
                            Some(DescendantResult::NoModification(n)) => {},
                            Some(DescendantResult::ExtendKey(n, d, extension)) => {
                                let inner = d - (depth + cf.len());
                                let q = target.take(d - depth) + n.fragment();
                                assert(q.take(cf.len() as int) =~= cf);
                                assert(q.skip(cf.len() as int) =~= sub.take(inner) + n.fragment());
                            },
                            None => {
                                assert forall|q: Seq<u8>|
                                    target.len() <= q.len() && q.take(target.len() as int)
                                        == target implies #[trigger] node.node_below(q) is None by {
                                    let rest = q.skip(cf.len() as int);
                                    assert(rest.take(sub.len() as int) =~= q.take(
                                        target.len() as int,
                                    ).skip(cf.len() as int));
                                    assert(child.node_below(rest) is None);
                                }
                            },
                        }
                    }
                    found
                },
                KeyMatch::Partial(idx) => {
                    None
                },
            }
        },
    }
}

impl<K: TrieKey, V> TrieNode<K, V> {
    /// The node at the end of `nv`, counted from this node on, if a node
    /// ends there.
    pub fn get(&self, nv: &NibbleVec) -> (found: Option<&TrieNode<K, V>>)
        requires
            self.shaped(),
        ensures
            match found {
                Some(n) => self.node_below(nibbles(*nv)) == Some(*n),
                None => self.node_below(nibbles(*nv)) is None,
            },
    {
        proof {
            assert(nibbles(*nv).skip(0) =~= nibbles(*nv));
        }
        get_below(self, nv, 0)
    }

    /// The node at the end of `nv`, counted from this node on, if a node
    /// ends there, to be changed in place. What the caller does to that
    /// node is done to it within this one.
    pub fn get_mut(&mut self, nv: &NibbleVec) -> (found: Option<&mut TrieNode<K, V>>)
        requires
            old(self).shaped(),
        ensures
            match found {
                Some(n) => {
                    &&& old(self).node_below(nibbles(*nv)) == Some(*n)
                    &&& final(self).swapped_below(*old(self), nibbles(*nv), *final(n))
                },
                None => {
                    &&& old(self).node_below(nibbles(*nv)) is None
                    &&& final(self).same_contents(*old(self))
                },
            },
    {
        proof {
            assert(nibbles(*nv).skip(0) =~= nibbles(*nv));
        }
        get_mut_below(self, nv, 0)
    }

    /// Insert an entry below this node. `nv` holds the part of the key's
    /// path that comes after the path of this node.
    pub fn insert(&mut self, key: K, value: V, nv: NibbleVec) -> (previous: Option<V>)
        requires
            nibbles(nv).len() <= key_path(&key).len() <= usize::MAX,
            key_path(&key).skip(key_path(&key).len() - nibbles(nv).len()) == nibbles(nv),
            old(self).wf_at(key_path(&key).take(key_path(&key).len() - nibbles(nv).len())),
        ensures
            final(self).wf_at(key_path(&key).take(key_path(&key).len() - nibbles(nv).len())),
            final(self).fragment() == old(self).fragment(),
            previous == entry_value(old(self).entry_below(nibbles(nv))),
            forall|r: Seq<u8>|
                final(self).entry_below(r) == if r == nibbles(nv) {
                    Some((key, value))
                } else {
                    old(self).entry_below(r)
                },
            final(self).count() == old(self).count() + one_if(previous is None),
            nibbles(nv).len() == 0 ==> {
                &&& final(self).slots() == old(self).slots()
                &&& final(self).recorded_children() == old(self).recorded_children()
            },
    {
        let ghost whole = key_path(&key);
        let ghost path = whole.take(whole.len() - nibbles(nv).len());
        proof {
            assert(nibbles(nv).skip(0) =~= nibbles(nv));
            assert(path + nibbles(nv) =~= whole);
        }
        insert_below(self, key, value, nv, 0, Ghost(path))
    }

    /// The deepest node with an entry on the way along `nv`, counted from
    /// this node on: this node, or one below it. Where none of them has an
    /// entry the result is `None`; it falls to the caller to take the node
    /// from which the search set out for its end, as [`crate::Trie::get_ancestor`]
    /// does with the root.
    pub fn get_ancestor(&self, nv: &NibbleVec) -> (found: Option<&TrieNode<K, V>>)
        requires
            self.shaped(),
        ensures
            match found {
                Some(n) => exists|d: int|
                    {
                        &&& 0 <= d <= nibbles(*nv).len()
                        &&& #[trigger] self.node_below(nibbles(*nv).take(d)) == Some(*n)
                        &&& n.entry() is Some
                        &&& self.no_entry_beyond(nibbles(*nv), d)
                    },
                None => self.no_entry_beyond(nibbles(*nv), -1),
            },
    {
        proof {
            assert(nibbles(*nv).skip(0) =~= nibbles(*nv));
        }
        match ancestor_below(self, nv, 0) {
            Some((node, depth)) => {
                Some(node)
            },
            None => None,
        }
    }
}

} // verus!
