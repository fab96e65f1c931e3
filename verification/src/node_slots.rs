//! What a change of one slot, or of the entry, does to what a node leads
//! to, to the number of its entries and to its soundness.
use crate::keys::TrieKey;
use crate::keys::key_path;
use crate::trie_node::{
    lemma_occupied_bounds, lemma_occupied_update, no_children, one_if, TrieNode, BRANCH_FACTOR,
};
use vstd::prelude::*;

verus! {

impl<K: TrieKey, V> TrieNode<K, V> {
    /// The entry that a slot leads to by `path`.
    pub open spec fn entry_through(slot: Option<Box<TrieNode<K, V>>>, path: Seq<u8>) -> Option<
        (K, V),
    > {
        match slot {
            Some(c) => c.entry_at(path),
            None => None,
        }
    }

    /// The slot holds nothing, or a node that may stand below `path` in the
    /// slot of `bucket`.
    pub open spec fn fits_slot(
        slot: Option<Box<TrieNode<K, V>>>,
        bucket: int,
        path: Seq<u8>,
    ) -> bool {
        slot matches Some(c) ==> {
            &&& c.fragment().len() > 0
            &&& c.fragment()[0] == bucket
            &&& c.wf_at(path + c.fragment())
        }
    }

    /// This node is `before` with the slot of `bucket` changed.
    pub open spec fn is_slot_change_of(&self, before: Self, bucket: int) -> bool {
        &&& 0 <= bucket < BRANCH_FACTOR
        &&& before.slots().len() == BRANCH_FACTOR
        &&& self.fragment() == before.fragment()
        &&& self.entry() == before.entry()
        &&& self.slots() == before.slots().update(bucket, self.slots()[bucket])
    }

    /// Where one slot of a node is changed so that a single path through it
    /// leads to another entry, the same holds of the node.
    pub proof fn lemma_slot_change_entries(
        &self,
        before: Self,
        bucket: int,
        target: Seq<u8>,
        found: Option<(K, V)>,
    )
        requires
            self.is_slot_change_of(before, bucket),
            target.len() > 0,
            target[0] == bucket,
            forall|r: Seq<u8>|
                Self::entry_through(self.slots()[bucket], r) == if r == target {
                    found
                } else {
                    Self::entry_through(before.slots()[bucket], r)
                },
        ensures
            forall|r: Seq<u8>|
                self.entry_below(r) == if r == target {
                    found
                } else {
                    before.entry_below(r)
                },
    {
        assert forall|r: Seq<u8>|
            self.entry_below(r) == if r == target {
                found
            } else {
                before.entry_below(r)
            } by {
            if r.len() > 0 {
                if r[0] == bucket {
                    assert(self.entry_below(r) == Self::entry_through(self.slots()[bucket], r));
                }
            }
        }
    }

    /// Where one slot of a sound node is changed for a node that fits it,
    /// the node stays sound.
    pub proof fn lemma_slot_change_sound(&self, before: Self, bucket: int, path: Seq<u8>)
        requires
            self.is_slot_change_of(before, bucket),
            self.counted(),
            before.sound_at(path),
            Self::fits_slot(self.slots()[bucket], bucket, path),
        ensures
            self.sound_at(path),
    {
        assert forall|b: int| 0 <= b < BRANCH_FACTOR implies (#[trigger] self.child(b) matches Some(
            c,
        ) ==> {
            &&& c.fragment().len() > 0
            &&& c.fragment()[0] == b
            &&& c.wf_at(path + c.fragment())
        }) by {
            if b != bucket {
                assert(self.child(b) == before.child(b));
            }
        }
    }

    /// Where one slot of a node is changed, the number of entries changes
    /// by what that slot holds.
    pub proof fn lemma_slot_change_count(&self, before: Self, bucket: int)
        requires
            self.is_slot_change_of(before, bucket),
        ensures
            self.count() + Self::count_of(before.slots()[bucket]) == before.count()
                + Self::count_of(self.slots()[bucket]),
    {
        Self::lemma_count_in_update(before.slots(), bucket, self.slots()[bucket]);
    }

    /// A leaf holds one entry, at the end of its fragment.
    pub proof fn lemma_leaf(&self, path: Seq<u8>)
        requires
            self.counted(),
            self.slots() == no_children::<Box<TrieNode<K, V>>>(),
            self.entry() matches Some(e) && key_path(&e.0) == path + self.fragment(),
            (path + self.fragment()).len() <= usize::MAX,
        ensures
            self.wf_at(path + self.fragment()),
            self.count() == 1,
            forall|r: Seq<u8>|
                self.entry_at(r) == if r == self.fragment() {
                    self.entry()
                } else {
                    None
                },
    {
        let f = self.fragment();
        let whole = path + f;
        assert(whole.skip(whole.len() - f.len()) =~= f);
        Self::lemma_count_in_none(self.slots());
        assert forall|r: Seq<u8>|
            self.entry_at(r) == if r == f {
                self.entry()
            } else {
                None
            } by {
            if f.len() <= r.len() && r.take(f.len() as int) == f {
                let q = r.skip(f.len() as int);
                if q.len() == 0 {
                    assert(r =~= f);
                }
            } else {
                if r == f {
                    assert(r.take(f.len() as int) =~= f);
                }
            }
        }
    }

    /// A node with neither entry nor child leads to no entry.
    pub proof fn lemma_bare(&self)
        requires
            self.entry() is None,
            self.counted(),
            self.recorded_children() == 0,
        ensures
            forall|r: Seq<u8>| self.entry_below(r) is None,
            forall|p: Seq<u8>| self.entry_at(p) is None,
            self.count() == 0,
    {
        lemma_occupied_bounds(self.slots());
        Self::lemma_count_in_none(self.slots());
    }

    /// Where two nodes with one fragment lead to the same entries from the
    /// end of that fragment on, but for one path, they lead to the same
    /// entries from its start on, but for that path behind the fragment.
    pub proof fn lemma_entry_at_change(
        &self,
        before: Self,
        target: Seq<u8>,
        found: Option<(K, V)>,
    )
        requires
            self.fragment() == before.fragment(),
            forall|r: Seq<u8>|
                self.entry_below(r) == if r == target {
                    found
                } else {
                    before.entry_below(r)
                },
        ensures
            forall|p: Seq<u8>|
                self.entry_at(p) == if p == before.fragment() + target {
                    found
                } else {
                    before.entry_at(p)
                },
    {
        let f = before.fragment();
        assert forall|p: Seq<u8>|
            self.entry_at(p) == if p == f + target {
                found
            } else {
                before.entry_at(p)
            } by {
            assert((f + target).take(f.len() as int) =~= f);
            assert((f + target).skip(f.len() as int) =~= target);
            if f.len() <= p.len() && p.take(f.len() as int) == f {
                let q = p.skip(f.len() as int);
                assert(self.entry_at(p) == self.entry_below(q));
                if q == target {
                    assert(p =~= f + q);
                }
            }
        }
    }
}

/// Where only the entry of a sound node changes, and the new entry is
/// filed under the node's path, the node stays sound, and what it leads to
/// changes at the node alone.
pub(crate) proof fn lemma_entry_change<K: TrieKey, V>(
    before: TrieNode<K, V>,
    after: TrieNode<K, V>,
    path: Seq<u8>,
    entry: Option<(K, V)>,
)
    requires
        before.sound_at(path),
        after.fragment() == before.fragment(),
        after.slots() == before.slots(),
        after.recorded_children() == before.recorded_children(),
        after.entry() == entry,
        entry matches Some(e) ==> key_path(&e.0) == path,
    ensures
        after.sound_at(path),
        forall|r: Seq<u8>|
            after.entry_below(r) == if r == Seq::<u8>::empty() {
                entry
            } else {
                before.entry_below(r)
            },
        after.count() + one_if(before.entry() is Some) == before.count() + one_if(entry is Some),
{
    assert forall|b: int| 0 <= b < BRANCH_FACTOR implies (#[trigger] after.child(b) matches Some(
        c,
    ) ==> {
        &&& c.fragment().len() > 0
        &&& c.fragment()[0] == b
        &&& c.wf_at(path + c.fragment())
    }) by {
        assert(after.child(b) == before.child(b));
    }
    assert forall|r: Seq<u8>|
        after.entry_below(r) == if r == Seq::<u8>::empty() {
            entry
        } else {
            before.entry_below(r)
        } by {
        if r.len() == 0 {
            assert(r =~= Seq::<u8>::empty());
        }
    }
}

/// A node with the fragment, entry and slots of a sound node is sound.
pub(crate) proof fn lemma_same_sound<K: TrieKey, V>(
    before: TrieNode<K, V>,
    after: TrieNode<K, V>,
    path: Seq<u8>,
)
    requires
        before.sound_at(path),
        after.fragment() == before.fragment(),
        after.entry() == before.entry(),
        after.slots() == before.slots(),
        after.recorded_children() == before.recorded_children(),
    ensures
        after.sound_at(path),
        after.count() == before.count(),
        forall|r: Seq<u8>| after.entry_below(r) == before.entry_below(r),
{
    lemma_entry_change(before, after, path, before.entry());
}

/// Two nodes with the same fragment, entry and slots are the same to every
/// statement made of them.
pub(crate) proof fn lemma_same_node<K: TrieKey, V>(
    before: TrieNode<K, V>,
    after: TrieNode<K, V>,
    path: Seq<u8>,
)
    requires
        before.wf_at(path),
        after.fragment() == before.fragment(),
        after.entry() == before.entry(),
        after.slots() == before.slots(),
        after.recorded_children() == before.recorded_children(),
    ensures
        after.wf_at(path),
        after.count() == before.count(),
        forall|r: Seq<u8>| after.entry_below(r) == before.entry_below(r),
        forall|p: Seq<u8>| after.entry_at(p) == before.entry_at(p),
{
    lemma_entry_change(before, after, path, before.entry());
}

/// Filling a slot that may have been filled before does not lower the number of children.
pub(crate) proof fn lemma_occupied_grows<K: TrieKey, V>(
    before: TrieNode<K, V>,
    after: TrieNode<K, V>,
    bucket: int,
)
    requires
        before.counted(),
        after.counted(),
        0 <= bucket < BRANCH_FACTOR,
        after.slots() == before.slots().update(bucket, after.slots()[bucket]),
        after.slots()[bucket] is Some,
    ensures
        after.recorded_children() >= before.recorded_children(),
{
    lemma_occupied_update(before.slots(), bucket, after.slots()[bucket]);
}

} // verus!
