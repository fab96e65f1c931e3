//! Splitting a node and folding a node into its only child: neither
//! changes what the node leads to, and both leave it sound.
use crate::keys::TrieKey;
use crate::trie_node::{TrieNode, BRANCH_FACTOR};
use vstd::prelude::*;

verus! {

impl<K: TrieKey, V> TrieNode<K, V> {
    /// A split changes neither the entries that a node leads to nor their number.
    pub proof fn lemma_split_keeps(&self, whole: Self, idx: int)
        requires
            self.is_split_of(whole, idx),
        ensures
            forall|p: Seq<u8>| self.entry_at(p) == whole.entry_at(p),
            self.count() == whole.count(),
    {
        let f = whole.fragment();
        let rest = self.child(f[idx] as int)->Some_0;
        assert forall|p: Seq<u8>| self.entry_at(p) == whole.entry_at(p) by {
            let head = f.take(idx);
            if head.len() <= p.len() && p.take(idx) == head {
                let q = p.skip(idx);
                if q.len() > 0 && q[0] == f[idx] {
                    assert(self.entry_at(p) == rest.entry_at(q));
                    let tail = f.skip(idx);
                    if tail.len() <= q.len() && q.take(tail.len() as int) == tail {
                        assert(p.take(f.len() as int) =~= p.take(idx) + q.take(tail.len() as int));
                        assert(f =~= head + tail);
                        assert(q.skip(tail.len() as int) =~= p.skip(f.len() as int));
                    } else {
                        if f.len() <= p.len() && p.take(f.len() as int) == f {
                            assert(q.take(tail.len() as int) =~= p.take(f.len() as int).skip(idx));
                        }
                    }
                }
            } else {
                if f.len() <= p.len() && p.take(f.len() as int) == f {
                    assert(p.take(idx) =~= p.take(f.len() as int).take(idx));
                }
            }
        }
        Self::lemma_count_in_single(self.slots(), f[idx] as int);
    }

    /// After a split the node is sound where it now ends, and what was split
    /// off stands where the whole node stood.
    pub proof fn lemma_split_sound(&self, whole: Self, idx: int, path: Seq<u8>)
        requires
            self.is_split_of(whole, idx),
            self.counted(),
            whole.wf_at(path),
        ensures
            self.sound_at(path.take(path.len() - (whole.fragment().len() - idx))),
    {
        let f = whole.fragment();
        let cut = path.len() - (f.len() - idx);
        let here = path.take(cut);
        let rest = self.child(f[idx] as int)->Some_0;
        assert(here.skip(here.len() - idx) =~= f.take(idx));
        assert(here + rest.fragment() =~= path);
        assert(rest.wf_at(path)) by {
            assert(path.skip(path.len() - rest.fragment().len()) =~= f.skip(idx));
            assert forall|b: int| 0 <= b < BRANCH_FACTOR implies (#[trigger] rest.child(b) matches Some(
                c,
            ) ==> {
                &&& c.fragment().len() > 0
                &&& c.fragment()[0] == b
                &&& c.wf_at(path + c.fragment())
            }) by {
                assert(rest.child(b) == whole.child(b));
            }
        }
    }

    /// Folding a node into its only child changes neither the entries that
    /// the node leads to nor their number.
    pub proof fn lemma_merge_keeps(&self, parent: Self, path: Seq<u8>)
        requires
            self.is_merge_of(parent),
            parent.entry() is None,
            parent.sound_at(path),
        ensures
            forall|p: Seq<u8>| self.entry_at(p) == parent.entry_at(p),
            self.count() == parent.count(),
    {
        let b = choose|b: int|
            {
                &&& 0 <= b < BRANCH_FACTOR
                &&& parent.slots().len() == BRANCH_FACTOR
                &&& (forall|o: int| 0 <= o < BRANCH_FACTOR && o != b ==> parent.slots()[o] is None)
                &&& #[trigger] parent.child(b) matches Some(c)
                &&& self.fragment() == parent.fragment() + c.fragment()
                &&& self.entry() == c.entry()
                &&& self.slots() == c.slots()
                &&& self.recorded_children() == c.recorded_children()
            };
        let c = parent.child(b)->Some_0;
        let pf = parent.fragment();
        let cf = c.fragment();
        let f = self.fragment();
        assert forall|p: Seq<u8>| self.entry_at(p) == parent.entry_at(p) by {
            if pf.len() <= p.len() && p.take(pf.len() as int) == pf {
                let q = p.skip(pf.len() as int);
                if q.len() > 0 && q[0] == b {
                    assert(parent.entry_at(p) == c.entry_at(q));
                    if cf.len() <= q.len() && q.take(cf.len() as int) == cf {
                        assert(p.take(f.len() as int) =~= p.take(pf.len() as int) + q.take(
                            cf.len() as int,
                        ));
                        assert(q.skip(cf.len() as int) =~= p.skip(f.len() as int));
                    } else {
                        if f.len() <= p.len() && p.take(f.len() as int) == f {
                            assert(q.take(cf.len() as int) =~= p.take(f.len() as int).skip(
                                pf.len() as int,
                            ));
                            assert(f.skip(pf.len() as int) =~= cf);
                        }
                    }
                }
            } else {
                if f.len() <= p.len() && p.take(f.len() as int) == f {
                    assert(p.take(pf.len() as int) =~= p.take(f.len() as int).take(pf.len() as int));
                    assert(f.take(pf.len() as int) =~= pf);
                }
            }
        }
        Self::lemma_count_in_single(parent.slots(), b);
    }

    /// A node folded into its only child is sound and compressed where the
    /// child stood.
    pub proof fn lemma_merge_sound(&self, parent: Self, path: Seq<u8>)
        requires
            self.is_merge_of(parent),
            parent.sound_at(path),
        ensures
            self.wf_at(path.take(path.len() - parent.fragment().len()) + self.fragment()),
            self.fragment().len() > parent.fragment().len(),
            self.fragment().take(parent.fragment().len() as int) == parent.fragment(),
    {
        let b = choose|b: int|
            {
                &&& 0 <= b < BRANCH_FACTOR
                &&& parent.slots().len() == BRANCH_FACTOR
                &&& (forall|o: int| 0 <= o < BRANCH_FACTOR && o != b ==> parent.slots()[o] is None)
                &&& #[trigger] parent.child(b) matches Some(c)
                &&& self.fragment() == parent.fragment() + c.fragment()
                &&& self.entry() == c.entry()
                &&& self.slots() == c.slots()
                &&& self.recorded_children() == c.recorded_children()
            };
        let c = parent.child(b)->Some_0;
        let pf = parent.fragment();
        let cf = c.fragment();
        let f = self.fragment();
        let below = path + cf;
        assert(c.wf_at(below));
        assert(path.take(path.len() - pf.len()) + f =~= below);
        assert(below.skip(below.len() - f.len()) =~= f);
        assert forall|o: int| 0 <= o < BRANCH_FACTOR implies (#[trigger] self.child(o) matches Some(
            g,
        ) ==> {
            &&& g.fragment().len() > 0
            &&& g.fragment()[0] == o
            &&& g.wf_at(below + g.fragment())
        }) by {
            assert(self.child(o) == c.child(o));
        }
    }
}

} // verus!
