//! Counting: what the slots of a node hold together, and that a node
//! counts as many entries as there are paths under which it holds one.
use crate::keys::TrieKey;
use crate::trie_node::{occupied, TrieNode, BRANCH_FACTOR};
use vstd::prelude::*;
use vstd::relations::injective_on;
use vstd::set_lib::{lemma_map_size, lemma_set_disjoint_lens};

verus! {

impl<K: TrieKey, V> TrieNode<K, V> {
    /// The number of entries below one slot.
    pub open spec fn count_of(slot: Option<Box<TrieNode<K, V>>>) -> nat {
        match slot {
            Some(c) => c.count(),
            None => 0,
        }
    }

    /// Changing one slot changes the number of entries by that slot alone.
    pub proof fn lemma_count_in_update(
        slots: Seq<Option<Box<TrieNode<K, V>>>>,
        i: int,
        v: Option<Box<TrieNode<K, V>>>,
    )
        requires
            0 <= i < slots.len(),
        ensures
            Self::count_in(slots.update(i, v)) + Self::count_of(slots[i]) == Self::count_in(slots)
                + Self::count_of(v),
        decreases slots.len(),
    {
        let updated = slots.update(i, v);
        if i == slots.len() - 1 {
            assert(updated.drop_last() == slots.drop_last());
        } else {
            assert(updated.drop_last() == slots.drop_last().update(i, v));
            Self::lemma_count_in_update(slots.drop_last(), i, v);
        }
    }

    /// Empty slots hold no entry.
    pub proof fn lemma_count_in_none(slots: Seq<Option<Box<TrieNode<K, V>>>>)
        requires
            forall|i: int| 0 <= i < slots.len() ==> slots[i] is None,
        ensures
            Self::count_in(slots) == 0,
        decreases slots.len(),
    {
        if slots.len() > 0 {
            Self::lemma_count_in_none(slots.drop_last());
        }
    }

    /// A node with a single child holds, below itself, what that child holds.
    pub proof fn lemma_count_in_single(
        slots: Seq<Option<Box<TrieNode<K, V>>>>,
        b: int,
    )
        requires
            0 <= b < slots.len(),
            forall|i: int| 0 <= i < slots.len() && i != b ==> slots[i] is None,
        ensures
            Self::count_in(slots) == Self::count_of(slots[b]),
    {
        Self::lemma_count_in_update(slots, b, None);
        Self::lemma_count_in_none(slots.update(b, None));
    }

    /// No slot holds more entries than all the slots together.
    pub proof fn lemma_count_in_bounds(slots: Seq<Option<Box<TrieNode<K, V>>>>, i: int)
        requires
            0 <= i < slots.len(),
        ensures
            Self::count_of(slots[i]) <= Self::count_in(slots),
    {
        Self::lemma_count_in_update(slots, i, None);
    }

    /// The first slots hold what they hold one by one.
    pub proof fn lemma_count_in_step(slots: Seq<Option<Box<TrieNode<K, V>>>>, i: int)
        requires
            0 <= i < slots.len(),
        ensures
            Self::count_in(slots.take(i + 1)) == Self::count_in(slots.take(i)) + Self::count_of(
                slots[i],
            ),
            Self::count_in(slots.take(i + 1)) <= Self::count_in(slots),
        decreases slots.len() - i,
    {
        assert(slots.take(i + 1).drop_last() =~= slots.take(i));
        if i + 1 < slots.len() {
            Self::lemma_count_in_step(slots, i + 1);
        }
    }

    /// Slots that hold as many entries one by one hold as many together,
    /// and as many of them are occupied where the same ones are.
    pub proof fn lemma_slots_alike(
        a: Seq<Option<Box<TrieNode<K, V>>>>,
        b: Seq<Option<Box<TrieNode<K, V>>>>,
    )
        requires
            a.len() == b.len(),
            forall|i: int| 0 <= i < a.len() ==> Self::count_of(a[i]) == Self::count_of(b[i]),
            forall|i: int| 0 <= i < a.len() ==> (a[i] is Some <==> b[i] is Some),
        ensures
            Self::count_in(a) == Self::count_in(b),
            occupied(a) == occupied(b),
        decreases a.len(),
    {
        if a.len() > 0 {
            Self::lemma_slots_alike(a.drop_last(), b.drop_last());
        }
    }

    /// The paths from this node on that lead to an entry through one of
    /// the first `i` slots.
    pub open spec fn paths_through_first(&self, i: int) -> Set<Seq<u8>> {
        Set::new(|r: Seq<u8>| r.len() > 0 && r[0] < i && self.entry_below(r) is Some)
    }

    /// The paths that lead to an entry through this node, its own
    /// fragment first.
    pub open spec fn paths_through(&self) -> Set<Seq<u8>> {
        Set::new(|p: Seq<u8>| self.entry_at(p) is Some)
    }

    /// The paths through a node are the paths from the node on, each with
    /// the node's fragment in front, and there are as many.
    proof fn lemma_paths_through(&self)
        requires
            self.entries().dom().finite(),
        ensures
            self.paths_through().finite(),
            self.paths_through().len() == self.entries().dom().len(),
    {
        let f = self.fragment();
        let below = self.entries().dom();
        let prepend = |q: Seq<u8>| f + q;
        assert(injective_on(prepend, below)) by {
            assert forall|x1: Seq<u8>, x2: Seq<u8>|
                below.contains(x1) && below.contains(x2) && #[trigger] prepend(x1)
                    == #[trigger] prepend(x2) implies x1 == x2 by {
                assert((f + x1).skip(f.len() as int) =~= x1);
            }
        }
        assert(below.map(prepend) =~= self.paths_through()) by {
            assert forall|p: Seq<u8>| self.paths_through().contains(p) implies below.map(
                prepend,
            ).contains(p) by {
                let q = p.skip(f.len() as int);
                assert(below.contains(q));
                assert(p =~= prepend(q));
            }
            assert forall|p: Seq<u8>| below.map(prepend).contains(p) implies self.paths_through().contains(
                p,
            ) by {
                let q = choose|q: Seq<u8>| below.contains(q) && p == prepend(q);
                assert(p.take(f.len() as int) =~= f);
                assert(p.skip(f.len() as int) =~= q);
            }
        }
        lemma_map_size(below, self.paths_through(), prepend);
    }

    /// The first `i` slots lead to as many entries as they hold.
    proof fn lemma_slots_counted(&self, i: int)
        requires
            self.shaped(),
            0 <= i <= BRANCH_FACTOR,
        ensures
            self.paths_through_first(i).finite(),
            self.paths_through_first(i).len() == Self::count_in(self.slots().take(i)),
        decreases self, 0nat, i,
    {
        if i == 0 {
            assert(self.paths_through_first(0) =~= Set::<Seq<u8>>::empty());
        } else {
            self.lemma_slots_counted(i - 1);
            Self::lemma_count_in_step(self.slots(), i - 1);
            let before = self.paths_through_first(i - 1);
            match self.child(i - 1) {
                Some(c) => {
                    c.lemma_entries_counted();
                    c.lemma_paths_through();
                    let added = c.paths_through();
                    assert(self.paths_through_first(i) =~= before + added);
                    lemma_set_disjoint_lens(before, added);
                },
                None => {
                    assert(self.paths_through_first(i) =~= before);
                },
            }
        }
    }

    /// A node leads to as many entries as it counts: the paths under which
    /// it holds an entry are finitely many, and their number is its count.
    pub proof fn lemma_entries_counted(&self)
        requires
            self.shaped(),
        ensures
            self.entries().dom().finite(),
            self.entries().dom().len() == self.count(),
        decreases self, 1nat,
    {
        self.lemma_slots_counted(BRANCH_FACTOR as int);
        assert(self.slots().take(BRANCH_FACTOR as int) =~= self.slots());
        let through = self.paths_through_first(BRANCH_FACTOR as int);
        let here = Seq::<u8>::empty();
        if self.entry() is Some {
            assert(self.entries().dom() =~= through.insert(here)) by {
                assert forall|r: Seq<u8>| self.entries().dom().contains(r) implies through.insert(
                    here,
                ).contains(r) by {
                    if r.len() == 0 {
                        assert(r =~= here);
                    }
                }
            }
        } else {
            assert(self.entries().dom() =~= through);
        }
    }
}

} // verus!
