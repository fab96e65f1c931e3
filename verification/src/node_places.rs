//! Where the nodes of a sound tree stand: at the root, where a key ends
//! and where two keys part, and nowhere inside a fragment.
use crate::keys::TrieKey;
use crate::subtrie::extends;
use crate::trie_node::{lemma_occupied_bounds, lemma_occupied_update, occupied, TrieNode};
use vstd::prelude::*;

verus! {

/// Where at least two slots are occupied, two different ones are.
pub proof fn lemma_two_occupied<T>(slots: Seq<Option<T>>) -> (two: (int, int))
    requires
        occupied(slots) >= 2,
    ensures
        0 <= two.0 < slots.len(),
        0 <= two.1 < slots.len(),
        two.0 != two.1,
        slots[two.0] is Some,
        slots[two.1] is Some,
{
    lemma_occupied_bounds(slots);
    let i = choose|i: int| 0 <= i < slots.len() && slots[i] is Some;
    let rest = slots.update(i, None);
    lemma_occupied_update(slots, i, None);
    lemma_occupied_bounds(rest);
    let j = choose|j: int| 0 <= j < rest.len() && rest[j] is Some;
    (i, j)
}

impl<K: TrieKey, V> TrieNode<K, V> {
    /// Two paths that lead to an entry part behind `rest`: both go through
    /// it and on, and they differ in the nibble that follows it.
    pub open spec fn parts_at(&self, rest: Seq<u8>, p: Seq<u8>, q: Seq<u8>) -> bool {
        &&& self.entry_below(p) is Some
        &&& self.entry_below(q) is Some
        &&& extends(p, rest)
        &&& extends(q, rest)
        &&& p.len() > rest.len()
        &&& q.len() > rest.len()
        &&& p[rest.len() as int] != q[rest.len() as int]
    }

    /// A node below the root of a sound tree leads to an entry.
    pub proof fn lemma_leads_to_entry(&self, path: Seq<u8>) -> (to: Seq<u8>)
        requires
            self.wf_at(path),
            self.fragment().len() > 0,
        ensures
            self.entry_at(to) is Some,
            extends(to, self.fragment()),
        decreases self,
    {
        let f = self.fragment();
        if self.entry() is Some {
            assert(f.take(f.len() as int) =~= f);
            f
        } else {
            let (b, _) = lemma_two_occupied(self.slots());
            let c = self.child(b)->Some_0;
            let below = c.lemma_leads_to_entry(path + c.fragment());
            assert((f + below).take(f.len() as int) =~= f);
            assert((f + below).skip(f.len() as int) =~= below);
            f + below
        }
    }

    /// Where two paths that lead to an entry part, a node stands.
    pub proof fn lemma_node_where_paths_part(&self, rest: Seq<u8>, p: Seq<u8>, q: Seq<u8>)
        requires
            self.parts_at(rest, p, q),
        ensures
            self.node_below(rest) is Some,
        decreases self,
    {
        if rest.len() > 0 {
            let c = self.child(rest[0] as int)->Some_0;
            let cf = c.fragment();
            if cf.len() > rest.len() {
                assert(p.take(cf.len() as int)[rest.len() as int] == p[rest.len() as int]);
            }
            assert(rest.take(cf.len() as int) =~= p.take(cf.len() as int));
            let sub = rest.skip(cf.len() as int);
            let ps = p.skip(cf.len() as int);
            let qs = q.skip(cf.len() as int);
            assert(ps.take(sub.len() as int) =~= p.take(rest.len() as int).skip(cf.len() as int));
            assert(qs.take(sub.len() as int) =~= q.take(rest.len() as int).skip(cf.len() as int));
            c.lemma_node_where_paths_part(sub, ps, qs);
        }
    }

    /// In a sound tree a node stands at the root, where a key ends and
    /// where two keys part.
    pub proof fn lemma_where_nodes_stand(&self, path: Seq<u8>, rest: Seq<u8>)
        requires
            self.sound_at(path),
        ensures
            self.node_below(rest) is Some <==> (rest.len() == 0 || self.entry_below(rest) is Some
                || exists|p: Seq<u8>, q: Seq<u8>| #[trigger] self.parts_at(rest, p, q)),
    {
        if self.node_below(rest) is Some {
            if rest.len() > 0 && self.entry_below(rest) is None {
                let found = self.node_below(rest)->Some_0;
                self.lemma_entry_of_node(rest);
                self.lemma_node_below_sound(path, rest);
                let (b1, b2) = lemma_two_occupied(found.slots());
                let c1 = found.child(b1)->Some_0;
                let c2 = found.child(b2)->Some_0;
                let q1 = c1.lemma_leads_to_entry(path + rest + c1.fragment());
                let q2 = c2.lemma_leads_to_entry(path + rest + c2.fragment());
                self.lemma_node_entries(rest, q1);
                self.lemma_node_entries(rest, q2);
                assert((rest + q1).take(rest.len() as int) =~= rest);
                assert((rest + q2).take(rest.len() as int) =~= rest);
                assert(self.parts_at(rest, rest + q1, rest + q2));
            }
        } else {
            self.lemma_entry_of_node(rest);
            if exists|p: Seq<u8>, q: Seq<u8>| #[trigger] self.parts_at(rest, p, q) {
                let (p, q) = choose|p: Seq<u8>, q: Seq<u8>| #[trigger] self.parts_at(rest, p, q);
                self.lemma_node_where_paths_part(rest, p, q);
            }
        }
    }

    /// The fragment of a node found below another is the end of the path
    /// to it, and no node stands on that path where the fragment runs.
    pub proof fn lemma_none_inside_fragment(&self, to: Seq<u8>, j: int)
        requires
            to.len() > 0,
            self.node_below(to) is Some,
            to.len() - self.node_below(to)->Some_0.fragment().len() < j < to.len(),
        ensures
            self.node_below(to.take(j)) is None,
        decreases self,
    {
        self.lemma_fragment_ends_path(to);
        let c = self.child(to[0] as int)->Some_0;
        let cf = c.fragment();
        let sub = to.skip(cf.len() as int);
        self.lemma_prefix_walk(to, j);
        if sub.len() > 0 {
            c.lemma_fragment_ends_path(sub);
            c.lemma_none_inside_fragment(sub, j - cf.len());
        }
    }

    /// The fragment of a node found below another is the end of the path to it.
    pub proof fn lemma_fragment_ends_path(&self, to: Seq<u8>)
        requires
            to.len() > 0,
            self.node_below(to) is Some,
        ensures
            self.node_below(to)->Some_0.fragment().len() <= to.len(),
            self.child(to[0] as int) matches Some(c) && c.fragment().len() <= to.len() && to.take(
                c.fragment().len() as int,
            ) == c.fragment() && self.node_below(to) == c.node_below(
                to.skip(c.fragment().len() as int),
            ),
        decreases self,
    {
        let c = self.child(to[0] as int)->Some_0;
        let sub = to.skip(c.fragment().len() as int);
        if sub.len() > 0 {
            c.lemma_fragment_ends_path(sub);
        }
    }

    /// An entry whose path runs into the fragment of a node lies at that
    /// node or below it.
    pub proof fn lemma_entry_through_fragment(&self, to: Seq<u8>, k: int, p: Seq<u8>)
        requires
            to.len() > 0,
            self.node_below(to) is Some,
            to.len() - self.node_below(to)->Some_0.fragment().len() < k <= to.len(),
            self.entry_below(p) is Some,
            extends(p, to.take(k)),
        ensures
            extends(p, to),
        decreases self,
    {
        self.lemma_fragment_ends_path(to);
        let c = self.child(to[0] as int)->Some_0;
        let cf = c.fragment();
        let sub = to.skip(cf.len() as int);
        assert(p[0] == p.take(k)[0]);
        if sub.len() > 0 {
            c.lemma_fragment_ends_path(sub);
            let ps = p.skip(cf.len() as int);
            assert(ps.take(k - cf.len()) =~= p.take(k).skip(cf.len() as int));
            assert(sub.take(k - cf.len()) =~= to.take(k).skip(cf.len() as int));
            c.lemma_entry_through_fragment(sub, k - cf.len(), ps);
            assert(p.take(to.len() as int) =~= p.take(cf.len() as int) + ps.take(sub.len() as int));
            assert(to =~= cf + sub);
        } else {
            assert(to =~= cf);
        }
    }
}

} // verus!
