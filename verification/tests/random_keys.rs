//! Proper testing, with QuickCheck.
use quickcheck::{quickcheck, Arbitrary, Gen};
use radix_trie::Trie;
use std::collections::HashSet;
use std::iter::FromIterator;

#[derive(Clone, Debug, PartialEq, Eq, Hash)]
struct Key(Vec<u8>);

#[derive(Clone, Debug)]
struct RandomKeys(HashSet<Key>);

const MAX_KEYS: usize = 512;
const KEY_RUN_LEN: usize = 8;
const KEY_MAX_VAL: u8 = 4;

impl Arbitrary for Key {
    fn arbitrary(g: &mut Gen) -> Key {
        let len = usize::arbitrary(g) % KEY_RUN_LEN;
        let mut key = Vec::with_capacity(len);
        for _ in 0..len {
            key.push(u8::arbitrary(g) % KEY_MAX_VAL);
        }
        Key(key)
    }
}

impl Key {
    fn extend_random(&self, g: &mut Gen) -> Key {
        let mut key = self.clone();
        key.0.extend(Key::arbitrary(g).0);
        key
    }

    fn len(&self) -> usize {
        self.0.len()
    }

    fn bytes(&self) -> Vec<u8> {
        self.0.clone()
    }
}

impl Arbitrary for RandomKeys {
    fn arbitrary(g: &mut Gen) -> RandomKeys {
        let num_keys = usize::arbitrary(g) % MAX_KEYS;
        let mut keys = Vec::with_capacity(num_keys);
        keys.push(Key::arbitrary(g));

        for _ in 0..num_keys {
            match u8::arbitrary(g) % 10 {
                // Generate a new random key.
                1 => keys.push(Key::arbitrary(g)),
                // Extend an existing key.
                _ => {
                    let i = usize::arbitrary(g) % keys.len();
                    let key = keys[i].extend_random(g);
                    keys.push(key);
                }
            }
        }

        RandomKeys(HashSet::from_iter(keys))
    }
}

#[test]
fn insert_all_remove_all() {
    fn prop(RandomKeys(keys): RandomKeys) -> bool {
        let mut trie = Trie::new();
        let mut length = 0;

        for k in &keys {
            if trie.insert(k.bytes(), k.len()).is_some() {
                return false;
            }
            length += 1;
            if trie.len() != length {
                return false;
            }
        }

        if !trie.check_integrity() {
            return false;
        }

        for k in &keys {
            if trie.get(&k.bytes()) != Some(&k.len()) {
                return false;
            }
            if trie.remove(&k.bytes()) != Some(k.len()) {
                return false;
            }
            length -= 1;
            if trie.len() != length {
                return false;
            }
            if trie.get(&k.bytes()).is_some() {
                return false;
            }
        }
        if !trie.check_integrity() {
            return false;
        }
        true
    }

    quickcheck(prop as fn(RandomKeys) -> bool);
}

#[test]
fn qc_test_get_node() {
    fn prop(RandomKeys(keys): RandomKeys) -> bool {
        let half = keys.len() / 2;
        let first_half = keys.iter().take(half).map(|k| (k.bytes(), k.len()));
        let trie = Trie::from_entries(first_half.collect());

        // Check node existence for inserted keys.
        for k in keys.iter().take(half) {
            match trie.subtrie(&k.bytes()) {
                Some(node) => {
                    if node.value() != Some(&k.len()) {
                        return false;
                    }
                }
                None => return false,
            }
        }

        // Check that nodes for non-inserted keys don't have values.
        for k in keys.iter().skip(half) {
            if let Some(node) = trie.subtrie(&k.bytes()) {
                if node.value().is_some() {
                    return false;
                }
            }
        }

        true
    }

    quickcheck(prop as fn(RandomKeys) -> bool);
}
