//! A node changed in place, deep in the trie: what the trie then leads
//! to, and that it stays sound where the new node is sound.
use crate::keys::TrieKey;
use crate::trie_node::{lemma_occupied_update, TrieNode, BRANCH_FACTOR};
use vstd::prelude::*;

verus! {

impl<K: TrieKey, V> TrieNode<K, V> {
    /// A node that holds what another holds leads to the same entries, has
    /// as many, and is sound where the other is.
    pub proof fn lemma_same_contents(&self, other: Self, path: Seq<u8>)
        requires
            self.same_contents(other),
        ensures
            self.fragment() == other.fragment(),
            self.entry() == other.entry(),
            self.recorded_children() == other.recorded_children(),
            forall|r: Seq<u8>| self.entry_below(r) == other.entry_below(r),
            forall|p: Seq<u8>| self.entry_at(p) == other.entry_at(p),
            self.count() == other.count(),
            other.sound_at(path) ==> self.sound_at(path),
            other.wf_at(path) ==> self.wf_at(path),
        decreases self,
    {
        if *self != other {
            assert forall|b: int| 0 <= b < self.slots().len() implies Self::count_of(
                self.slots()[b],
            ) == Self::count_of(other.slots()[b]) && (self.slots()[b] is Some <==> other.slots()[b] is Some)
                && (forall|p: Seq<u8>|
                Self::entry_through(self.slots()[b], p) == Self::entry_through(
                    other.slots()[b],
                    p,
                )) && (Self::fits_slot(other.slots()[b], b, path) && b < BRANCH_FACTOR
                ==> Self::fits_slot(self.slots()[b], b, path)) by {
                match (self.child(b), other.child(b)) {
                    (Some(c), Some(d)) => {
                        c.lemma_same_contents(d, path + d.fragment());
                    },
                    _ => {},
                }
            }
            Self::lemma_slots_alike(self.slots(), other.slots());
            assert forall|r: Seq<u8>| self.entry_below(r) == other.entry_below(r) by {
                if r.len() > 0 {
                    let b = r[0] as int;
                    if 0 <= b < self.slots().len() {
                        assert(Self::entry_through(self.slots()[b], r) == Self::entry_through(
                            other.slots()[b],
                            r,
                        ));
                    }
                }
            }
        }
        assert forall|p: Seq<u8>| self.entry_at(p) == other.entry_at(p) by {
            let f = self.fragment();
            if f.len() <= p.len() && p.take(f.len() as int) == f {
                assert(self.entry_below(p.skip(f.len() as int)) == other.entry_below(
                    p.skip(f.len() as int),
                ));
            }
        }
    }

    /// Where the node at the end of `rest` below a sound node is changed
    /// for a node with the same fragment that is sound and compressed in
    /// that place, the whole stays sound. It leads to what the new node
    /// leads to by the paths that go through `rest`, and by every other
    /// path to what it led to before.
    pub proof fn lemma_swapped(&self, before: Self, rest: Seq<u8>, by: Self, path: Seq<u8>)
        requires
            before.sound_at(path),
            self.swapped_below(before, rest, by),
            before.node_below(rest) matches Some(n) && by.fragment() == n.fragment(),
            rest.len() > 0 ==> by.wf_at(path + rest),
            rest.len() == 0 ==> by.sound_at(path),
        ensures
            self.sound_at(path),
            self.fragment() == before.fragment(),
            rest.len() > 0 && before.compressed() ==> self.compressed(),
            forall|r: Seq<u8>|
                self.entry_below(r) == if rest.len() <= r.len() && r.take(rest.len() as int)
                    == rest {
                    by.entry_below(r.skip(rest.len() as int))
                } else {
                    before.entry_below(r)
                },
            self.count() + before.node_below(rest)->Some_0.count() == before.count() + by.count(),
        decreases before,
    {
        if rest.len() == 0 {
            assert forall|r: Seq<u8>| r.skip(0) =~= r by {}
            assert forall|r: Seq<u8>| #[trigger] r.take(0) =~= rest by {}
        } else {
            let b = rest[0] as int;
            let c = before.child(b)->Some_0;
            let d = self.child(b)->Some_0;
            let cf = c.fragment();
            let sub = rest.skip(cf.len() as int);
            assert(path + cf + sub =~= path + rest);
            d.lemma_swapped(c, sub, by, path + cf);
            assert(d.wf_at(path + d.fragment())) by {
                if sub.len() == 0 {
                    assert(d.swapped_below(c, sub, by));
                }
            }
            assert(self.slots() =~= before.slots().update(b, self.slots()[b]));
            lemma_occupied_update(before.slots(), b, self.slots()[b]);
            self.lemma_slot_change_sound(before, b, path);
            self.lemma_slot_change_count(before, b);
            assert forall|r: Seq<u8>|
                self.entry_below(r) == if rest.len() <= r.len() && r.take(rest.len() as int)
                    == rest {
                    by.entry_below(r.skip(rest.len() as int))
                } else {
                    before.entry_below(r)
                } by {
                if r.len() > 0 {
                    if r[0] == b {
                        if cf.len() <= r.len() && r.take(cf.len() as int) == cf {
                            let q = r.skip(cf.len() as int);
                            if sub.len() <= q.len() && q.take(sub.len() as int) == sub {
                                assert(r.take(rest.len() as int) =~= r.take(cf.len() as int)
                                    + q.take(sub.len() as int));
                                assert(rest =~= cf + sub);
                                assert(q.skip(sub.len() as int) =~= r.skip(rest.len() as int));
                            } else {
                                if rest.len() <= r.len() && r.take(rest.len() as int) == rest {
                                    assert(q.take(sub.len() as int) =~= r.take(
                                        rest.len() as int,
                                    ).skip(cf.len() as int));
                                }
                            }
                        } else {
                            if rest.len() <= r.len() && r.take(rest.len() as int) == rest {
                                assert(r.take(cf.len() as int) =~= r.take(rest.len() as int).take(
                                    cf.len() as int,
                                ));
                            }
                        }
                    }
                }
            }
        }
    }
}

} // verus!
