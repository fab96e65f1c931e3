//! Removal: the walk that takes an entry out, and on its way back drops
//! the nodes that are left bare and folds those that are left with one
//! child and no entry.
use crate::keys::{key_path, KeyMatch, TrieKey};
use crate::nibbles::nibbles;
use crate::node_slots::{lemma_entry_change, lemma_same_node, lemma_same_sound};
use crate::traversal::{next_step, Step};
use crate::trie_node::{
    entry_value, lemma_occupied_update, one_if, DeleteAction, TrieNode, BRANCH_FACTOR,
};
use nibble_vec::NibbleVec;
use vstd::prelude::*;

verus! {

impl<K: TrieKey, V> TrieNode<K, V> {
    /// What a node leaves in the slot of its parent once the action decided
    /// for it is carried out.
    pub open spec fn outcome(&self, action: DeleteAction<K, V>) -> Option<Box<TrieNode<K, V>>> {
        match action {
            DeleteAction::Replace(n) => Some(n),
            DeleteAction::Delete => None,
            DeleteAction::DoNothing => Some(Box::new(*self)),
        }
    }

    /// What a removal has done. `before` stood at `path`; the entry to
    /// remove was `target` below it; `removed` came out, and `action` was
    /// decided for the node, which is now `self`.
    ///
    /// What the action leaves in the parent's slot leads to every entry that
    /// `before` led to but the one removed, and fits that slot. A root, which
    /// has no parent, is never replaced and stays sound whatever was decided.
    pub open spec fn removal_done(
        &self,
        before: Self,
        path: Seq<u8>,
        target: Seq<u8>,
        removed: Option<V>,
        action: DeleteAction<K, V>,
    ) -> bool {
        let left = self.outcome(action);
        let f = before.fragment();
        let gone = one_if(removed is Some);
        &&& removed == entry_value(before.entry_below(target))
        &&& forall|p: Seq<u8>|
            #[trigger] Self::entry_through(left, p) == if p == f + target {
                None
            } else {
                before.entry_at(p)
            }
        &&& Self::count_of(left) + gone == before.count()
        &&& f.len() > 0 ==> Self::fits_slot(left, f[0] as int, path.take(path.len() - f.len()))
        &&& f.len() == 0 ==> {
            &&& !(action is Replace)
            &&& self.wf_at(path)
            &&& self.fragment().len() == 0
            &&& forall|r: Seq<u8>|
                #[trigger] self.entry_below(r) == if r == target {
                    None
                } else {
                    before.entry_below(r)
                }
            &&& self.count() + gone == before.count()
        }
    }
}

/// A node that a removal left as it was has lost nothing.
proof fn lemma_untouched<K: TrieKey, V>(
    before: TrieNode<K, V>,
    after: TrieNode<K, V>,
    path: Seq<u8>,
    target: Seq<u8>,
)
    requires
        before.wf_at(path),
        before.entry_below(target) is None,
        after.fragment() == before.fragment(),
        after.entry() == before.entry(),
        after.slots() == before.slots(),
        after.recorded_children() == before.recorded_children(),
    ensures
        after.removal_done(before, path, target, None, DeleteAction::DoNothing),
{
    let f = before.fragment();
    lemma_same_node(before, after, path);
    assert(path.take(path.len() - f.len()) + f =~= path);
    assert(before.entry_at(f + target) == before.entry_below(target)) by {
        assert((f + target).skip(f.len() as int) =~= target);
    }
}

/// Decide what is to become of a node from which an entry or a child was
/// just taken, and say what the decision leaves in the slot of its parent.
fn settle<K: TrieKey, V>(
    node: &mut TrieNode<K, V>,
    Ghost(path): Ghost<Seq<u8>>,
) -> (action: DeleteAction<K, V>)
    requires
        old(node).sound_at(path),
    ensures
        forall|p: Seq<u8>|
            TrieNode::<K, V>::entry_through(final(node).outcome(action), p) == old(node).entry_at(
                p,
            ),
        TrieNode::<K, V>::count_of(final(node).outcome(action)) == old(node).count(),
        old(node).fragment().len() > 0 ==> TrieNode::<K, V>::fits_slot(
            final(node).outcome(action),
            old(node).fragment()[0] as int,
            path.take(path.len() - old(node).fragment().len()),
        ),
        old(node).fragment().len() == 0 ==> !(action is Replace),
        !(action is Replace) ==> {
            &&& final(node).fragment() == old(node).fragment()
            &&& final(node).entry() == old(node).entry()
            &&& final(node).slots() == old(node).slots()
            &&& final(node).recorded_children() == old(node).recorded_children()
        },
        action is Delete ==> forall|r: Seq<u8>| old(node).entry_below(r) is None,
{
    let ghost before = *node;
    let ghost f = before.fragment();
    let ghost above = path.take(path.len() - f.len());
    proof {
        assert forall|b: int| #[trigger]
            before.child(b) matches Some(c) ==> f.len() + c.fragment().len() <= usize::MAX by {
            if let Some(c) = before.child(b) {
                assert(c.wf_at(path + c.fragment()));
            }
        }
        assert(above + f =~= path);
    }
    let action = node.delete_node();
    proof {
        if action is Delete {
            before.lemma_bare();
        } else if action is Replace {
            let merged = action->Replace_0;
            merged.lemma_merge_keeps(before, path);
            merged.lemma_merge_sound(before, path);
        } else {
            assert(node.sound_at(path)) by {
                assert forall|b: int| 0 <= b < BRANCH_FACTOR implies (#[trigger] node.child(b) matches Some(
                    c,
                ) ==> {
                    &&& c.fragment().len() > 0
                    &&& c.fragment()[0] == b
                    &&& c.wf_at(path + c.fragment())
                }) by {
                    assert(node.child(b) == before.child(b));
                }
            }
        }
    }
    action
}

/// Remove the entry of a node that `key` leads to, and decide what is to
/// become of the node.
fn remove_here<K: TrieKey, V>(
    node: &mut TrieNode<K, V>,
    key: &K,
    Ghost(path): Ghost<Seq<u8>>,
) -> (removed: (Option<V>, DeleteAction<K, V>))
    requires
        old(node).wf_at(path),
        key_path(key) == path,
    ensures
        final(node).removal_done(*old(node), path, Seq::<u8>::empty(), removed.0, removed.1),
{
    let ghost before = *node;
    let ghost f = before.fragment();
    let ghost target = Seq::<u8>::empty();
    match node.take_value(key) {
        Some(value) => {
            proof {
                lemma_entry_change(before, *node, path, None);
                node.lemma_entry_at_change(before, target, None);
            }
            let ghost bare = *node;
            let action = settle(node, Ghost(path));
            proof {
                if f.len() == 0 {
                    lemma_same_sound(bare, *node, path);
                }
                assert forall|p: Seq<u8>|
                    #[trigger] TrieNode::<K, V>::entry_through(node.outcome(action), p) == if p == f
                        + target {
                        None
                    } else {
                        before.entry_at(p)
                    } by {
                    assert(TrieNode::<K, V>::entry_through(node.outcome(action), p)
                        == bare.entry_at(p));
                }
            }
            (Some(value), action)
        },
        None => {
            proof {
                lemma_same_node(before, *node, path);
                assert(path.take(path.len() - f.len()) + f =~= path);
            }
            (None, DeleteAction::DoNothing)
        },
    }
}

/// Carry out at `node` what was decided for its child in the slot of
/// `bucket`, from below which an entry may have been removed, and decide
/// what is to become of `node` in turn. The child was taken out of its slot
/// before the removal.
fn after_child<K: TrieKey, V>(
    node: &mut TrieNode<K, V>,
    bucket: usize,
    child: Box<TrieNode<K, V>>,
    child_action: DeleteAction<K, V>,
    Ghost(before): Ghost<TrieNode<K, V>>,
    Ghost(path): Ghost<Seq<u8>>,
    Ghost(target): Ghost<Seq<u8>>,
    Ghost(removed): Ghost<Option<V>>,
) -> (action: DeleteAction<K, V>)
    requires
        before.wf_at(path),
        bucket < BRANCH_FACTOR,
        old(node).counted(),
        old(node).fragment() == before.fragment(),
        old(node).entry() == before.entry(),
        old(node).slots() == before.slots().update(bucket as int, None),
        before.slots()[bucket as int] matches Some(old_child) && {
            let cf = old_child.fragment();
            &&& cf.len() <= target.len()
            &&& target.take(cf.len() as int) == cf
            &&& child.removal_done(
                *old_child,
                path + cf,
                target.skip(cf.len() as int),
                removed,
                child_action,
            )
        },
    ensures
        final(node).removal_done(before, path, target, removed, action),
{
    let ghost old_child = before.child(bucket as int)->Some_0;
    let ghost cf = old_child.fragment();
    let ghost sub = target.skip(cf.len() as int);
    let ghost below = path + cf;
    let ghost f = before.fragment();
    let ghost left = child.outcome(child_action);
    proof {
        assert(cf + sub =~= target);
        assert(below.take(below.len() - cf.len()) =~= path);
        assert(before.entry_at(f + target) == before.entry_below(target)) by {
            assert((f + target).take(f.len() as int) =~= f);
            assert((f + target).skip(f.len() as int) =~= target);
        }
    }
    let cascade = match child_action {
        DeleteAction::Replace(replacement) => {
            node.add_child(bucket, replacement);
            false
        },
        DeleteAction::Delete => true,
        DeleteAction::DoNothing => {
            node.add_child(bucket, child);
            false
        },
    };
    let ghost mid = *node;
    proof {
        assert(mid.slots() =~= before.slots().update(bucket as int, left));
        mid.lemma_slot_change_sound(before, bucket as int, path);
        mid.lemma_slot_change_count(before, bucket as int);
        mid.lemma_slot_change_entries(before, bucket as int, target, None);
        mid.lemma_entry_at_change(before, target, None);
    }
    if cascade {
        let action = settle(node, Ghost(path));
        proof {
            if f.len() == 0 {
                lemma_same_sound(mid, *node, path);
            }
            assert forall|p: Seq<u8>|
                #[trigger] TrieNode::<K, V>::entry_through(node.outcome(action), p) == if p == f
                    + target {
                    None
                } else {
                    before.entry_at(p)
                } by {
                assert(TrieNode::<K, V>::entry_through(node.outcome(action), p) == mid.entry_at(p));
            }
        }
        action
    } else {
        proof {
            lemma_occupied_update(before.slots(), bucket as int, left);
            assert(path.take(path.len() - f.len()) + f =~= path);
        }
        DeleteAction::DoNothing
    }
}

/// Remove the entry of `key` below `node`, and decide what is to become
/// of the node. The node's own path is `path`, and the key goes on from
/// there with what `nv` holds from `depth` on.
///
/// The caller carries the decision out: it puts a replacement into the
/// node's slot, or takes the node out of it. At the root the decision is
/// void, and the root stays.
pub(crate) fn remove_below<K: TrieKey, V>(
    node: &mut TrieNode<K, V>,
    key: &K,
    nv: &NibbleVec,
    depth: usize,
    Ghost(path): Ghost<Seq<u8>>,
) -> (removed: (Option<V>, DeleteAction<K, V>))
    requires
        depth <= nibbles(*nv).len(),
        old(node).wf_at(path),
        key_path(key) == path + nibbles(*nv).skip(depth as int),
    ensures
        final(node).removal_done(
            *old(node),
            path,
            nibbles(*nv).skip(depth as int),
            removed.0,
            removed.1,
        ),
    decreases nibbles(*nv).len() - depth,
{
    let ghost before = *node;
    let ghost target = nibbles(*nv).skip(depth as int);
    match next_step(&*node, nv, depth) {
        Step::End => {
            remove_here(node, key, Ghost(path))
        },
        Step::Child(bucket, KeyMatch::Full) | Step::Child(bucket, KeyMatch::SecondPrefix) => {
            let mut child = node.take_child(bucket).unwrap();
            let ghost old_child = *child;
            let ghost cf = old_child.fragment();
            let ghost below = path + cf;
            let new_depth = depth + child.key.len();
            proof {
                assert(target.take(cf.len() as int) =~= cf);
                assert(target.skip(cf.len() as int) =~= nibbles(*nv).skip(new_depth as int));
                assert(below + target.skip(cf.len() as int) =~= path + target);
            }
            let (value, child_action) = remove_below(&mut *child, key, nv, new_depth, Ghost(below));
            let action = after_child(
                node,
                bucket,
                child,
                child_action,
                Ghost(before),
                Ghost(path),
                Ghost(target),
                Ghost(value),
            );
            (value, action)
        },
        Step::Child(bucket, _) => {
            proof {
                lemma_untouched(before, *node, path, target);
            }
            (None, DeleteAction::DoNothing)
        },
        Step::NoChild(_) => {
            proof {
                lemma_untouched(before, *node, path, target);
            }
            (None, DeleteAction::DoNothing)
        },
    }
}

} // verus!
