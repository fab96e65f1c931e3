//! The walk over all entries of a trie: depth first, a node before its
//! children, the children by ascending slot.
use crate::keys::TrieKey;
use crate::trie_node::{TrieNode, BRANCH_FACTOR};
use vstd::prelude::*;

verus! {

/// The entries that a list of references refers to.
pub open spec fn listed<K, V>(refs: Seq<(&K, &V)>) -> Seq<(K, V)> {
    refs.map_values(|e: (&K, &V)| (*e.0, *e.1))
}

/// `a` comes before `b` in the order of the walk: `b` goes on where `a`
/// ends, or where the two part `a` has the smaller nibble.
pub open spec fn path_before(a: Seq<u8>, b: Seq<u8>) -> bool {
    ||| a.len() < b.len() && b.take(a.len() as int) == a
    ||| exists|i: int|
        0 <= i < a.len() && i < b.len() && #[trigger] a.take(i) == b.take(i) && a[i] < b[i]
}

/// Each path of the list comes before all that follow it.
pub open spec fn in_walk_order(paths: Seq<Seq<u8>>) -> bool {
    forall|j: int, k: int| 0 <= j < k < paths.len() ==> path_before(paths[j], paths[k])
}

/// Two paths keep their order when the same nibbles are put in front of both.
pub proof fn lemma_path_before_prefixed(f: Seq<u8>, a: Seq<u8>, b: Seq<u8>)
    requires
        path_before(a, b),
    ensures
        path_before(f + a, f + b),
{
    if a.len() < b.len() && b.take(a.len() as int) == a {
        assert((f + b).take((f + a).len() as int) =~= f + a);
    } else {
        let i = choose|i: int|
            0 <= i < a.len() && i < b.len() && #[trigger] a.take(i) == b.take(i) && a[i] < b[i];
        assert((f + a).take(f.len() + i) =~= f + a.take(i));
        assert((f + b).take(f.len() + i) =~= f + b.take(i));
    }
}

impl<K: TrieKey, V> TrieNode<K, V> {
    /// The paths from this node on that lead to an entry, in the order of
    /// the walk: the empty path first, if the node has an entry, then the
    /// paths through the first slot, and so on.
    pub open spec fn paths(&self) -> Seq<Seq<u8>>
        decreases self, 1nat,
    {
        (if self.entry() is Some {
            seq![Seq::<u8>::empty()]
        } else {
            Seq::<Seq<u8>>::empty()
        }) + Self::paths_in(self.slots())
    }

    /// The paths that lead to an entry through the nodes of `slots`, in the
    /// order of the walk.
    pub open spec fn paths_in(slots: Seq<Option<Box<TrieNode<K, V>>>>) -> Seq<Seq<u8>>
        decreases slots, 0nat,
    {
        if slots.len() == 0 {
            Seq::<Seq<u8>>::empty()
        } else {
            Self::paths_in(slots.drop_last()) + Self::paths_of(slots.last())
        }
    }

    /// The paths that lead to an entry through the node of one slot, each
    /// with the fragment of that node in front.
    pub open spec fn paths_of(slot: Option<Box<TrieNode<K, V>>>) -> Seq<Seq<u8>>
        decreases slot, 2nat,
    {
        match slot {
            Some(c) => c.paths().map_values(|q: Seq<u8>| c.fragment() + q),
            None => Seq::<Seq<u8>>::empty(),
        }
    }

    /// The entries at and below this node, in the order of the walk.
    pub open spec fn entries_in_order(&self) -> Seq<(K, V)> {
        self.paths().map_values(|r: Seq<u8>| self.entry_below(r)->Some_0)
    }

    /// The first slots add their paths one by one.
    pub proof fn lemma_paths_in_step(slots: Seq<Option<Box<TrieNode<K, V>>>>, i: int)
        requires
            0 <= i < slots.len(),
        ensures
            Self::paths_in(slots.take(i + 1)) == Self::paths_in(slots.take(i)) + Self::paths_of(
                slots[i],
            ),
    {
        assert(slots.take(i + 1).drop_last() =~= slots.take(i));
    }

    /// The paths through the first `i` slots are those that lead to an
    /// entry through one of them, each once, in the order of the walk.
    proof fn lemma_paths_in_listing(&self, i: int)
        requires
            self.shaped(),
            0 <= i <= BRANCH_FACTOR,
        ensures
            forall|j: int|
                0 <= j < Self::paths_in(self.slots().take(i)).len() ==> {
                    let r = #[trigger] Self::paths_in(self.slots().take(i))[j];
                    r.len() > 0 && r[0] < i && self.entry_below(r) is Some
                },
            forall|r: Seq<u8>|
                r.len() > 0 && r[0] < i && self.entry_below(r) is Some ==> Self::paths_in(
                    self.slots().take(i),
                ).contains(r),
            in_walk_order(Self::paths_in(self.slots().take(i))),
            Self::paths_in(self.slots().take(i)).len() == Self::count_in(self.slots().take(i)),
        decreases self, 0nat, i,
    {
        let ps = Self::paths_in(self.slots().take(i));
        if i != 0 {
            self.lemma_paths_in_listing(i - 1);
            Self::lemma_paths_in_step(self.slots(), i - 1);
            Self::lemma_count_in_step(self.slots(), i - 1);
            let before = Self::paths_in(self.slots().take(i - 1));
            let added = Self::paths_of(self.slots()[i - 1]);
            match self.child(i - 1) {
                Some(c) => {
                    c.lemma_paths_listing();
                    let cf = c.fragment();
                    let cp = c.paths();
                    assert forall|j: int| 0 <= j < added.len() implies {
                        let r = #[trigger] added[j];
                        r.len() > 0 && r[0] == i - 1 && self.entry_below(r) == c.entry_below(cp[j])
                    } by {
                        let q = cp[j];
                        assert((cf + q).take(cf.len() as int) =~= cf);
                        assert((cf + q).skip(cf.len() as int) =~= q);
                    }
                    assert forall|r: Seq<u8>|
                        r.len() > 0 && r[0] < i && self.entry_below(r) is Some implies ps.contains(
                        r,
                    ) by {
                        if r[0] < i - 1 {
                            assert(before.contains(r));
                            let j = choose|j: int| 0 <= j < before.len() && before[j] == r;
                            assert(ps[j] == r);
                        } else {
                            let q = r.skip(cf.len() as int);
                            assert(cp.contains(q));
                            let j = choose|j: int| 0 <= j < cp.len() && cp[j] == q;
                            assert(ps[before.len() + j] == r);
                        }
                    }
                    assert forall|j: int, k: int| 0 <= j < k < ps.len() implies path_before(
                        ps[j],
                        ps[k],
                    ) by {
                        if j >= before.len() {
                            let a = cp[j - before.len()];
                            let b = cp[k - before.len()];
                            lemma_path_before_prefixed(cf, a, b);
                        } else if k >= before.len() {
                            assert(ps[j].take(0) =~= ps[k].take(0));
                        }
                    }
                },
                None => {},
            }
        }
    }

    /// The paths of the walk are the paths under which the node holds an
    /// entry, each once, in the order of the walk. The walk lists as many
    /// entries as the node counts.
    pub proof fn lemma_paths_listing(&self)
        requires
            self.shaped(),
        ensures
            forall|j: int|
                0 <= j < self.paths().len() ==> self.entry_below(#[trigger] self.paths()[j]) is Some,
            forall|r: Seq<u8>| self.entry_below(r) is Some ==> self.paths().contains(r),
            in_walk_order(self.paths()),
            self.paths().len() == self.count(),
        decreases self, 1nat,
    {
        self.lemma_paths_in_listing(BRANCH_FACTOR as int);
        assert(self.slots().take(BRANCH_FACTOR as int) =~= self.slots());
        let below = Self::paths_in(self.slots());
        let ps = self.paths();
        let here = Seq::<u8>::empty();
        let own = ps.len() - below.len();
        assert forall|r: Seq<u8>| self.entry_below(r) is Some implies ps.contains(r) by {
            if r.len() == 0 {
                assert(ps[0] == r);
            } else {
                assert(below.contains(r));
                let j = choose|j: int| 0 <= j < below.len() && below[j] == r;
                assert(ps[own + j] == r);
            }
        }
        assert forall|j: int, k: int| 0 <= j < k < ps.len() implies path_before(ps[j], ps[k]) by {
            if j < own {
                assert(ps[k].take(0) =~= here);
            }
        }
    }

    /// Walk this node and all below it, and add a reference to each entry
    /// to `entries`.
    pub fn collect_entries<'a>(&'a self, entries: &mut Vec<(&'a K, &'a V)>)
        requires
            self.shaped(),
        ensures
            listed(final(entries)@) == listed(old(entries)@) + self.entries_in_order(),
        decreases self,
    {
        let ghost start = listed(entries@);
        let ghost own = if self.entry() is Some {
            seq![Seq::<u8>::empty()]
        } else {
            Seq::<Seq<u8>>::empty()
        };
        if let Some(kv) = &self.key_value {
            entries.push((&kv.key, &kv.value));
        }
        let mut i: usize = 0;
        while i < BRANCH_FACTOR
            invariant
                i <= BRANCH_FACTOR,
                self.shaped(),
                own == if self.entry() is Some {
                    seq![Seq::<u8>::empty()]
                } else {
                    Seq::<Seq<u8>>::empty()
                },
                listed(entries@) == start + (own + Self::paths_in(
                    self.slots().take(i as int),
                )).map_values(|r: Seq<u8>| self.entry_below(r)->Some_0),
            decreases BRANCH_FACTOR - i,
        {
            if let Some(child) = &self.children[i] {
                child.collect_entries(entries);
            }
            proof {
                Self::lemma_paths_in_step(self.slots(), i as int);
                let added = Self::paths_of(self.slots()[i as int]);
                let lookup = |r: Seq<u8>| self.entry_below(r)->Some_0;
                match self.child(i as int) {
                    Some(c) => {
                        let cf = c.fragment();
                        assert(added.map_values(lookup) =~= c.entries_in_order()) by {
                            assert forall|j: int| 0 <= j < added.len() implies lookup(added[j])
                                == c.entry_below(c.paths()[j])->Some_0 by {
                                let q = c.paths()[j];
                                assert((cf + q).take(cf.len() as int) =~= cf);
                                assert((cf + q).skip(cf.len() as int) =~= q);
                            }
                        }
                    },
                    None => {},
                }
            }
            i += 1;
        }
        proof {
            assert(self.slots().take(BRANCH_FACTOR as int) =~= self.slots());
        }
    }
}

} // verus!
