//! Insertion: the walk that makes room for a new entry, splitting the
//! fragment of a node where the new key leaves it.
use crate::keys::{key_match_holds, key_path, KeyMatch, TrieKey};
use crate::nibbles::nibbles;
use crate::node_slots::{lemma_entry_change, lemma_occupied_grows};
use crate::traversal::{next_step, Step};
use crate::trie_node::{entry_value, one_if, TrieNode};
use nibble_vec::NibbleVec;
use vstd::prelude::*;

verus! {

/// Make the leaf that holds a new entry at the end of `key_fragments`,
/// for the slot of a node whose path is `path`.
fn new_leaf<K: TrieKey, V>(
    key_fragments: NibbleVec,
    key: K,
    value: V,
    Ghost(path): Ghost<Seq<u8>>,
) -> (leaf: Box<TrieNode<K, V>>)
    requires
        key_path(&key) == path + nibbles(key_fragments),
        key_path(&key).len() <= usize::MAX,
    ensures
        leaf.fragment() == nibbles(key_fragments),
        leaf.wf_at(path + leaf.fragment()),
        leaf.count() == 1,
        forall|r: Seq<u8>|
            leaf.entry_at(r) == if r == leaf.fragment() {
                Some((key, value))
            } else {
                None
            },
{
    let leaf = Box::new(TrieNode::with_key_value(key_fragments, key, value));
    proof {
        leaf.lemma_leaf(path);
    }
    leaf
}

/// The key to insert leaves the fragment of `child` at `idx`: split the
/// child there and hang a leaf for the rest of the key beside what was
/// split off.
fn split_and_branch<K: TrieKey, V>(
    child: &mut TrieNode<K, V>,
    idx: usize,
    new_key: NibbleVec,
    key: K,
    value: V,
    Ghost(below): Ghost<Seq<u8>>,
)
    requires
        old(child).wf_at(below),
        0 < idx < old(child).fragment().len(),
        nibbles(new_key).len() > 0,
        nibbles(new_key)[0] != old(child).fragment()[idx as int],
        key_path(&key) == below.take(below.len() - (old(child).fragment().len() - idx)) + nibbles(
            new_key,
        ),
        key_path(&key).len() <= usize::MAX,
    ensures
        final(child).wf_at(below.take(below.len() - (old(child).fragment().len() - idx))),
        final(child).fragment() == old(child).fragment().take(idx as int),
        final(child).count() == old(child).count() + 1,
        forall|r: Seq<u8>|
            final(child).entry_at(r) == if r == old(child).fragment().take(idx as int) + nibbles(
                new_key,
            ) {
                Some((key, value))
            } else {
                old(child).entry_at(r)
            },
{
    let ghost whole = *child;
    let ghost here = below.take(below.len() - (whole.fragment().len() - idx));
    child.split(idx);
    let ghost halved = *child;
    let new_key_bucket = new_key.get(0) as usize;
    let leaf = new_leaf(new_key, key, value, Ghost(here));
    proof {
        halved.lemma_split_keeps(whole, idx as int);
        halved.lemma_split_sound(whole, idx as int, below);
    }
    child.add_child(new_key_bucket, leaf);
    proof {
        child.lemma_slot_change_sound(halved, new_key_bucket as int, here);
        child.lemma_slot_change_count(halved, new_key_bucket as int);
        child.lemma_slot_change_entries(
            halved,
            new_key_bucket as int,
            leaf.fragment(),
            Some((key, value)),
        );
        let head = halved.fragment();
        let target = head + leaf.fragment();
        assert forall|r: Seq<u8>|
            child.entry_at(r) == if r == target {
                Some((key, value))
            } else {
                whole.entry_at(r)
            } by {
            assert(target.take(head.len() as int) =~= head);
            assert(target.skip(head.len() as int) =~= leaf.fragment());
            if head.len() <= r.len() && r.take(head.len() as int) == head {
                let q = r.skip(head.len() as int);
                assert(r =~= head + q);
                assert(child.entry_at(r) == child.entry_below(q));
            }
        }
    }
}

/// The key to insert ends inside the fragment of `child`, at `cut`: split
/// the child there and store the entry where the split was made.
fn split_and_store<K: TrieKey, V>(
    child: &mut TrieNode<K, V>,
    cut: usize,
    key: K,
    value: V,
    Ghost(below): Ghost<Seq<u8>>,
)
    requires
        old(child).wf_at(below),
        0 < cut < old(child).fragment().len(),
        key_path(&key) == below.take(below.len() - (old(child).fragment().len() - cut)),
    ensures
        final(child).wf_at(key_path(&key)),
        final(child).fragment() == old(child).fragment().take(cut as int),
        final(child).count() == old(child).count() + 1,
        forall|r: Seq<u8>|
            final(child).entry_at(r) == if r == old(child).fragment().take(cut as int) {
                Some((key, value))
            } else {
                old(child).entry_at(r)
            },
{
    let ghost whole = *child;
    child.split(cut);
    let ghost halved = *child;
    proof {
        halved.lemma_split_keeps(whole, cut as int);
        halved.lemma_split_sound(whole, cut as int, below);
    }
    child.add_key_value(key, value);
    proof {
        let head = halved.fragment();
        assert forall|r: Seq<u8>|
            child.entry_at(r) == if r == head {
                Some((key, value))
            } else {
                whole.entry_at(r)
            } by {
            if head.len() <= r.len() && r.take(head.len() as int) == head {
                let q = r.skip(head.len() as int);
                if q.len() == 0 {
                    assert(r =~= head);
                }
            } else {
                if r == head {
                    assert(r.take(head.len() as int) =~= head);
                }
            }
        }
    }
}

/// Insert into the subtree of `child`, which stands in a slot of a node
/// whose path is `path`. The key goes on from that node with what `nv`
/// holds from `depth` on, and `m` says how that compares with the fragment
/// of the child: the entry goes to the child itself, or below it, or the
/// child is split to make room for it.
fn insert_at_child<K: TrieKey, V>(
    child: &mut TrieNode<K, V>,
    m: KeyMatch,
    key: K,
    value: V,
    nv: NibbleVec,
    depth: usize,
    Ghost(path): Ghost<Seq<u8>>,
) -> (previous: Option<V>)
    requires
        depth < nibbles(nv).len() <= usize::MAX,
        old(child).fragment().len() > 0,
        old(child).fragment()[0] == nibbles(nv)[depth as int],
        old(child).wf_at(path + old(child).fragment()),
        key_match_holds(nibbles(nv).skip(depth as int), old(child).fragment(), m),
        key_path(&key) == path + nibbles(nv).skip(depth as int),
        key_path(&key).len() <= usize::MAX,
    ensures
        final(child).fragment().len() > 0,
        final(child).fragment()[0] == old(child).fragment()[0],
        final(child).wf_at(path + final(child).fragment()),
        previous == entry_value(old(child).entry_at(nibbles(nv).skip(depth as int))),
        forall|r: Seq<u8>|
            final(child).entry_at(r) == if r == nibbles(nv).skip(depth as int) {
                Some((key, value))
            } else {
                old(child).entry_at(r)
            },
        final(child).count() == old(child).count() + one_if(previous is None),
    decreases nibbles(nv).len() - depth, 0nat,
{
    let mut nv = nv;
    let ghost whole = nibbles(nv);
    let ghost target = whole.skip(depth as int);
    let ghost old_child = *child;
    let ghost cf = old_child.fragment();
    let ghost below = path + cf;
    match m {
        KeyMatch::Full => {
            let previous = child.replace_value(key, value);
            proof {
                lemma_entry_change(old_child, *child, below, Some((key, value)));
                child.lemma_entry_at_change(old_child, Seq::<u8>::empty(), Some((key, value)));
                assert(old_child.entry_at(target) == old_child.entry_below(Seq::<u8>::empty())) by {
                    assert(target.take(cf.len() as int) =~= target);
                }
            }
            previous
        },
        KeyMatch::Partial(idx) => {
            let new_key = nv.split(depth + idx);
            proof {
                assert(nibbles(new_key) =~= target.skip(idx as int));
                assert(below.take(below.len() - (cf.len() - idx)) =~= path + target.take(idx as int));
                assert(path + target.take(idx as int) + target.skip(idx as int) =~= path + target);
                assert(cf.take(idx as int) + target.skip(idx as int) =~= target);
            }
            split_and_branch(child, idx, new_key, key, value, Ghost(below));
            None
        },
        KeyMatch::FirstPrefix => {
            let cut = nv.len() - depth;
            proof {
                assert(below.take(below.len() - (cf.len() - cut)) =~= path + target);
            }
            split_and_store(child, cut, key, value, Ghost(below));
            None
        },
        KeyMatch::SecondPrefix => {
            let new_depth = depth + child.key.len();
            let ghost sub = whole.skip(new_depth as int);
            proof {
                assert(target.skip(cf.len() as int) =~= sub);
                assert(cf + sub =~= target);
                assert(below + sub =~= path + target);
            }
            let previous = insert_below(child, key, value, nv, new_depth, Ghost(below));
            proof {
                child.lemma_entry_at_change(old_child, sub, Some((key, value)));
            }
            previous
        },
    }
}

/// Insert below `node`. The node's own path is `path`, and the key goes on
/// from there with what `nv` holds from `depth` on.
pub(crate) fn insert_below<K: TrieKey, V>(
    node: &mut TrieNode<K, V>,
    key: K,
    value: V,
    nv: NibbleVec,
    depth: usize,
    Ghost(path): Ghost<Seq<u8>>,
) -> (previous: Option<V>)
    requires
        depth <= nibbles(nv).len(),
        old(node).wf_at(path),
        key_path(&key) == path + nibbles(nv).skip(depth as int),
        key_path(&key).len() <= usize::MAX,
    ensures
        final(node).wf_at(path),
        final(node).fragment() == old(node).fragment(),
        previous == entry_value(old(node).entry_below(nibbles(nv).skip(depth as int))),
        forall|r: Seq<u8>|
            final(node).entry_below(r) == if r == nibbles(nv).skip(depth as int) {
                Some((key, value))
            } else {
                old(node).entry_below(r)
            },
        final(node).count() == old(node).count() + one_if(previous is None),
        depth == nibbles(nv).len() ==> {
            &&& final(node).slots() == old(node).slots()
            &&& final(node).recorded_children() == old(node).recorded_children()
        },
    decreases nibbles(nv).len() - depth, 1nat,
{
    let mut nv = nv;
    let ghost target = nibbles(nv).skip(depth as int);
    let ghost before = *node;
    let (bucket, child, previous) = match next_step(&*node, &nv, depth) {
        Step::End => {
            proof {
                assert(target =~= Seq::<u8>::empty());
            }
            let previous = node.replace_value(key, value);
            proof {
                lemma_entry_change(before, *node, path, Some((key, value)));
            }
            return previous;
        },
        Step::NoChild(bucket) => {
            let node_key = nv.split(depth);
            (bucket, new_leaf(node_key, key, value, Ghost(path)), None)
        },
        Step::Child(bucket, m) => {
            let mut child = node.take_child(bucket).unwrap();
            let previous = insert_at_child(&mut *child, m, key, value, nv, depth, Ghost(path));
            (bucket, child, previous)
        },
    };
    node.add_child(bucket, child);
    proof {
        assert(node.slots() =~= before.slots().update(bucket as int, Some(child)));
        node.lemma_slot_change_sound(before, bucket as int, path);
        node.lemma_slot_change_count(before, bucket as int);
        node.lemma_slot_change_entries(before, bucket as int, target, Some((key, value)));
        lemma_occupied_grows(before, *node, bucket as int);
    }
    previous
}

} // verus!
