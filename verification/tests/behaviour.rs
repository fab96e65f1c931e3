use radix_trie::{
    check_keys, match_keys, KeyMatch, NibbleVec, SubTrie, SubTrieMut, Trie, TrieKey, TrieNode,
};

fn nibbles_of(nv: &NibbleVec) -> Vec<u8> {
    (0..nv.len()).map(|i| nv.get(i)).collect()
}

#[test]
fn encode_gives_two_nibbles_per_byte() {
    let nv = "ab".encode();
    assert_eq!(nibbles_of(&nv), vec![6, 1, 6, 2]);
    assert_eq!("ab".encode_bytes(), vec![0x61, 0x62]);
    assert_eq!("ab".to_string().encode_bytes(), vec![0x61, 0x62]);
    assert_eq!(vec![0xf0u8, 0x0f].encode_bytes(), vec![0xf0, 0x0f]);
    assert_eq!(nibbles_of(&vec![0xf0u8, 0x0f].encode()), vec![15, 0, 0, 15]);
    assert_eq!("".encode().len(), 0);
}

#[test]
fn encode_of_a_string_is_its_utf8() {
    assert_eq!("é".encode_bytes(), vec![0xc3, 0xa9]);
    assert_eq!(nibbles_of(&"é".encode()), vec![12, 3, 10, 9]);
}

#[test]
fn match_keys_full() {
    let a = NibbleVec::from_byte_vec(vec![0x12, 0x34]);
    let b = NibbleVec::from_byte_vec(vec![0x12, 0x34]);
    assert!(matches!(match_keys(0, &a, &b), KeyMatch::Full));
}

#[test]
fn match_keys_partial_gives_the_first_difference() {
    let a = NibbleVec::from_byte_vec(vec![0x12, 0x34]);
    let b = NibbleVec::from_byte_vec(vec![0x12, 0x44]);
    assert!(matches!(match_keys(0, &a, &b), KeyMatch::Partial(2)));
    let c = NibbleVec::from_byte_vec(vec![0x12, 0x35, 0x67]);
    assert!(matches!(match_keys(0, &a, &c), KeyMatch::Partial(3)));
    let d = NibbleVec::from_byte_vec(vec![0x92]);
    assert!(matches!(match_keys(0, &a, &d), KeyMatch::Partial(0)));
}

#[test]
fn match_keys_prefixes() {
    let short = NibbleVec::from_byte_vec(vec![0x12]);
    let long = NibbleVec::from_byte_vec(vec![0x12, 0x34]);
    assert!(matches!(match_keys(0, &short, &long), KeyMatch::FirstPrefix));
    assert!(matches!(match_keys(0, &long, &short), KeyMatch::SecondPrefix));
    let empty = NibbleVec::new();
    assert!(matches!(match_keys(0, &empty, &long), KeyMatch::FirstPrefix));
    assert!(matches!(match_keys(0, &long, &empty), KeyMatch::SecondPrefix));
    assert!(matches!(match_keys(0, &empty, &empty), KeyMatch::Full));
}

#[test]
fn match_keys_starts_at_the_given_index() {
    let a = NibbleVec::from_byte_vec(vec![0x12, 0x34]);
    let tail = NibbleVec::from_byte_vec(vec![0x34]);
    assert!(matches!(match_keys(2, &a, &tail), KeyMatch::Full));
    assert!(matches!(match_keys(0, &a, &tail), KeyMatch::Partial(0)));
    assert!(matches!(match_keys(4, &a, &tail), KeyMatch::FirstPrefix));
    let mut odd = NibbleVec::from_byte_vec(vec![0x23, 0x45]);
    let rest = odd.split(3);
    assert_eq!(nibbles_of(&odd), vec![2, 3, 4]);
    assert_eq!(nibbles_of(&rest), vec![5]);
    assert!(matches!(match_keys(1, &a, &odd), KeyMatch::Full));
}

#[test]
fn check_keys_takes_equal_keys() {
    check_keys(&"same", &"same");
    check_keys(&vec![1u8, 2], &vec![1u8, 2]);
    check_keys(&"same".to_string(), &"same".to_string());
    let bytes: &[u8] = &[1, 2];
    check_keys(&bytes, &bytes);
}

#[test]
fn same_key_is_equality() {
    assert!("key".same_key(&"key"));
    assert!(!"key".same_key(&"kez"));
    assert!(!"key".same_key(&"ke"));
    assert!("".same_key(&""));
    assert!("é".to_string().same_key(&"é".to_string()));
    assert!(!"é".to_string().same_key(&"e".to_string()));
    assert!(vec![1u8, 2].same_key(&vec![1u8, 2]));
    assert!(!vec![1u8, 2].same_key(&vec![1u8, 3]));
    assert!(!vec![1u8, 2].same_key(&vec![1u8]));
    let a: &[u8] = &[7, 8, 9];
    let b: &[u8] = &[7, 8, 9];
    let c: &[u8] = &[7, 8];
    assert!(a.same_key(&b));
    assert!(!a.same_key(&c));
    assert!(!c.same_key(&a));
}

#[test]
fn ancestor_search_ends_at_the_root() {
    let mut trie = Trie::new();
    trie.insert("abc", 1);
    // No prefix of the key has a value: the root comes back, without one.
    let none_above = trie.get_ancestor(&"xyz").unwrap();
    assert_eq!(none_above.prefix().len(), 0);
    assert_eq!(none_above.value(), None);
    assert_eq!(none_above.len(), 1);
    assert_eq!(trie.get_ancestor_value(&"xyz"), None);
    let short = trie.get_ancestor(&"ab").unwrap();
    assert_eq!(short.prefix().len(), 0);
    assert_eq!(short.value(), None);
    // A prefix has a value: the view at it comes back.
    let found = trie.get_ancestor(&"abcd").unwrap();
    assert_eq!(nibbles_of(found.prefix()), nibbles_of(&"abc".encode()));
    assert_eq!(found.value(), Some(&1));
    // The root has a value: it is the ancestor of every key without a nearer one.
    trie.insert("", 0);
    let root = trie.get_ancestor(&"xyz").unwrap();
    assert_eq!(root.prefix().len(), 0);
    assert_eq!(root.value(), Some(&0));
}

#[test]
fn empty_trie() {
    let trie: Trie<&str, u32> = Trie::new();
    assert_eq!(trie.len(), 0);
    assert!(trie.is_empty());
    assert!(trie.check_integrity());
    assert!(trie.iter().is_empty());
    assert!(trie.get(&"a").is_none());
    assert!(trie.subtrie(&"").is_some());
    assert!(trie.key().is_none());
    assert!(trie.value().is_none());
    let ancestor = trie.get_ancestor(&"a").unwrap();
    assert_eq!(ancestor.prefix().len(), 0);
    assert!(ancestor.value().is_none());
    assert!(trie.get_ancestor_value(&"a").is_none());
    assert_eq!(trie.get_raw_ancestor(&"a").len(), 0);
}

#[test]
fn default_is_empty() {
    let mut trie: Trie<String, u32> = Trie::default();
    assert!(trie.is_empty());
    assert!(trie.check_integrity());
    assert_eq!(trie.insert("k".to_string(), 1), None);
    assert_eq!(trie.len(), 1);
}

#[test]
fn round_trip() {
    let entries = [("romane", 1), ("romanus", 2), ("romulus", 3), ("rubens", 4), ("ruber", 5),
        ("rubicon", 6), ("rubicundus", 7), ("", 8), ("r", 9)];
    let mut trie = Trie::new();
    for (i, &(key, value)) in entries.iter().enumerate() {
        assert_eq!(trie.insert(key, value), None);
        assert_eq!(trie.len(), i + 1);
        assert!(trie.check_integrity());
    }
    for &(key, value) in &entries {
        assert_eq!(trie.get(&key), Some(&value));
    }
    assert_eq!(trie.get(&"rom"), None);
    assert_eq!(trie.get(&"romanes"), None);
    for (i, &(key, value)) in entries.iter().enumerate() {
        assert_eq!(trie.remove(&key), Some(value));
        assert_eq!(trie.get(&key), None);
        assert_eq!(trie.len(), entries.len() - i - 1);
        assert!(trie.check_integrity());
    }
    assert_eq!(trie.len(), 0);
    assert!(trie.is_empty());
    assert!(trie.iter().is_empty());
}

#[test]
fn replace_keeps_the_length() {
    let mut trie = Trie::new();
    trie.insert("other", 0);
    assert_eq!(trie.insert("key", 1), None);
    assert_eq!(trie.len(), 2);
    assert_eq!(trie.insert("key", 2), Some(1));
    assert_eq!(trie.len(), 2);
    assert_eq!(trie.get(&"key"), Some(&2));
    assert_eq!(trie.insert("key", 3), Some(2));
    assert_eq!(trie.len(), 2);
    assert!(trie.check_integrity());
}

#[test]
fn split_and_merge() {
    let mut trie = Trie::new();
    trie.insert("abcdefgh", 18);
    trie.insert("abc", 17);
    trie.insert("acbdef", 16);
    trie.insert("bcdefgh", 15);
    assert!(trie.check_integrity());
    assert_eq!(trie.get(&"abcdefgh"), Some(&18));
    assert_eq!(trie.get(&"abc"), Some(&17));
    assert_eq!(trie.get(&"acbdef"), Some(&16));
    assert_eq!(trie.get(&"bcdefgh"), Some(&15));
    assert_eq!(trie.len(), 4);

    assert_eq!(trie.remove(&"abcdefgh"), Some(18));
    assert!(trie.check_integrity());
    assert_eq!(trie.remove(&"abc"), Some(17));
    assert!(trie.check_integrity());
    assert_eq!(trie.remove(&"acbdef"), Some(16));
    assert!(trie.check_integrity());
    assert_eq!(trie.remove(&"bcdefgh"), Some(15));
    assert!(trie.check_integrity());

    assert_eq!(trie.len(), 0);
    assert!(trie.iter().is_empty());
    let root = trie.subtrie(&"").unwrap();
    assert_eq!(root.len(), 0);
    assert_eq!(root.prefix().len(), 0);
    assert_eq!(trie.get_raw_ancestor(&"abcdefgh").prefix().len(), 0);
    assert!(trie.get_raw_descendant(&"a").is_none());
}

#[test]
fn hello_scenario() {
    let mut trie = Trie::new();
    trie.insert("hello", 55);
    assert!(trie.subtrie(&"h").is_none());
    assert!(trie.subtrie(&"hello").is_some());
    trie.insert("HELL", 66);
    trie.insert("HELLO", 77);
    assert_eq!(trie.remove(&"HELLO"), Some(77));
    assert!(trie.check_integrity());
    assert_eq!(trie.get(&"HELL"), Some(&66));
    assert_eq!(trie.get(&"hello"), Some(&55));
    assert_eq!(trie.len(), 2);
}

#[test]
fn removing_what_is_not_there() {
    let mut trie = Trie::new();
    trie.insert("abcd", 1);
    trie.insert("abef", 2);
    assert_eq!(trie.remove(&"ab"), None);
    assert_eq!(trie.remove(&"abcde"), None);
    assert_eq!(trie.remove(&"abcx"), None);
    assert_eq!(trie.remove(&"x"), None);
    assert_eq!(trie.remove(&""), None);
    assert_eq!(trie.len(), 2);
    assert!(trie.check_integrity());
    assert_eq!(trie.get(&"abcd"), Some(&1));
    assert_eq!(trie.get(&"abef"), Some(&2));
}

#[test]
fn a_node_left_with_one_child_is_folded_into_it() {
    let mut trie = Trie::new();
    trie.insert("ab", 1);
    trie.insert("abcd", 2);
    assert_eq!(trie.remove(&"ab"), Some(1));
    assert!(trie.check_integrity());
    assert!(trie.subtrie(&"ab").is_none());
    assert_eq!(trie.get(&"abcd"), Some(&2));
    let sub = trie.subtrie(&"abcd").unwrap();
    assert_eq!(nibbles_of(sub.prefix()), nibbles_of(&"abcd".encode()));
    // The node of "abcd" now stands directly below the root.
    let above = trie.get_raw_ancestor(&"abc");
    assert_eq!(above.prefix().len(), 0);
    let below = trie.get_raw_descendant(&"abc").unwrap();
    assert_eq!(nibbles_of(below.prefix()), nibbles_of(&"abcd".encode()));
    assert_eq!(below.value(), Some(&2));
}

#[test]
fn removal_cascades_through_a_fork() {
    let mut trie = Trie::new();
    trie.insert(vec![0x12u8, 0x34], 1);
    trie.insert(vec![0x12u8, 0x35], 2);
    trie.insert(vec![0x12u8], 3);
    assert!(trie.check_integrity());
    // Taking one branch of the fork below [0x12] leaves the fork with one child.
    assert_eq!(trie.remove(&vec![0x12u8, 0x34]), Some(1));
    assert!(trie.check_integrity());
    assert_eq!(trie.get(&vec![0x12u8, 0x35]), Some(&2));
    assert_eq!(trie.get(&vec![0x12u8]), Some(&3));
    assert_eq!(trie.remove(&vec![0x12u8]), Some(3));
    assert!(trie.check_integrity());
    assert_eq!(trie.get(&vec![0x12u8, 0x35]), Some(&2));
    assert_eq!(trie.len(), 1);
    assert_eq!(trie.remove(&vec![0x12u8, 0x35]), Some(2));
    assert!(trie.check_integrity());
    assert!(trie.is_empty());
}

#[test]
fn ancestor_is_the_longest_prefix_that_is_present() {
    let mut trie = Trie::new();
    trie.insert("ab", 1);
    trie.insert("abcd", 2);
    trie.insert("abcdef", 3);
    trie.insert("x", 4);
    assert_eq!(trie.get_ancestor_value(&"abcde"), trie.get(&"abcd"));
    assert_eq!(trie.get_ancestor_value(&"abcde"), Some(&2));
    assert_eq!(trie.get_ancestor_value(&"abcdefgh"), Some(&3));
    assert_eq!(trie.get_ancestor_value(&"abc"), Some(&1));
    assert_eq!(trie.get_ancestor_value(&"abd"), Some(&1));
    assert_eq!(trie.get_ancestor_value(&"a"), None);
    assert_eq!(trie.get_ancestor_value(&"y"), None);
    assert_eq!(trie.get_ancestor_value(&""), None);
    let sub = trie.get_ancestor(&"abcde").unwrap();
    assert_eq!(nibbles_of(sub.prefix()), nibbles_of(&"abcd".encode()));
    assert_eq!(sub.key(), Some(&"abcd"));
    assert_eq!(sub.len(), 2);

    trie.insert("", 0);
    assert_eq!(trie.get_ancestor_value(&"a"), Some(&0));
    assert_eq!(trie.get_ancestor_value(&"y"), Some(&0));
    assert_eq!(trie.get_ancestor_value(&""), Some(&0));
    assert_eq!(trie.get_ancestor_value(&"abc"), Some(&1));
}

#[test]
fn raw_ancestor_is_the_deepest_node_on_the_way() {
    let mut trie = Trie::new();
    trie.insert("wow", 0);
    trie.insert("hella", 1);
    trie.insert("hellb", 2);
    let anc = trie.get_raw_ancestor(&"hello");
    // "hella" and "hellb" part inside their last byte.
    assert_eq!(anc.prefix().len(), 9);
    assert_eq!(nibbles_of(anc.prefix()), vec![6, 8, 6, 5, 6, 12, 6, 12, 6]);
    assert!(anc.value().is_none());
    assert_eq!(anc.len(), 2);
    let exact = trie.get_raw_ancestor(&"hella");
    assert_eq!(exact.value(), Some(&1));
    assert_eq!(exact.prefix().len(), 10);
    let none = trie.get_raw_ancestor(&"zebra");
    assert_eq!(none.prefix().len(), 0);
    assert_eq!(none.len(), 3);
}

#[test]
fn descendant_is_the_nearest_node_at_or_below() {
    let mut trie = Trie::new();
    trie.insert("abcdefgh", 19);
    trie.insert("abcdef", 18);
    trie.insert("x", 1);
    let exact = trie.get_raw_descendant(&"abcdef").unwrap();
    assert_eq!(exact.value(), Some(&18));
    assert_eq!(nibbles_of(exact.prefix()), nibbles_of(&"abcdef".encode()));
    let below = trie.get_raw_descendant(&"abcdefg").unwrap();
    assert_eq!(below.value(), Some(&19));
    assert_eq!(nibbles_of(below.prefix()), nibbles_of(&"abcdefgh".encode()));
    let first = trie.get_raw_descendant(&"ab").unwrap();
    assert_eq!(first.value(), Some(&18));
    assert_eq!(nibbles_of(first.prefix()), nibbles_of(&"abcdef".encode()));
    assert_eq!(first.len(), 2);
    assert!(trie.get_raw_descendant(&"abd").is_none());
    assert!(trie.get_raw_descendant(&"abcdefghi").is_none());
    assert!(trie.get_raw_descendant(&"y").is_none());
    let root = trie.get_raw_descendant(&"").unwrap();
    assert_eq!(root.prefix().len(), 0);
    assert_eq!(root.len(), 3);
}

#[test]
fn subtrie_get_tells_out_of_scope_from_absent() {
    let mut trie = Trie::new();
    trie.insert("ab", 1);
    trie.insert("abcd", 2);
    trie.insert("abce", 3);
    trie.insert("b", 4);
    let sub = trie.subtrie(&"ab").unwrap();
    assert_eq!(sub.get(&"ab"), Ok(Some(&1)));
    assert_eq!(sub.get(&"abcd"), Ok(Some(&2)));
    assert_eq!(sub.get(&"abce"), Ok(Some(&3)));
    assert_eq!(sub.get(&"abcf"), Ok(None));
    assert_eq!(sub.get(&"abc"), Ok(None));
    assert_eq!(sub.get(&"b"), Err(()));
    assert_eq!(sub.get(&"a"), Err(()));
    assert_eq!(sub.get(&""), Err(()));
    assert_eq!(sub.get(&"ac"), Err(()));
    assert_eq!(sub.len(), 3);
    assert_eq!(sub.key(), Some(&"ab"));
    assert_eq!(sub.value(), Some(&1));
    assert_eq!(nibbles_of(sub.prefix()), vec![6, 1, 6, 2]);
}

#[test]
fn subtrie_mut_inserts_into_the_trie() {
    let mut trie = Trie::new();
    trie.insert("ab", 1);
    trie.insert("b", 4);
    {
        let mut sub = trie.subtrie_mut(&"ab").unwrap();
        assert_eq!(sub.get(&"ab"), Ok(Some(&1)));
        assert_eq!(sub.len(), 1);
        assert_eq!(sub.insert("abcd", 2), Ok(None));
        assert_eq!(sub.insert("abcd", 5), Ok(Some(2)));
        assert_eq!(sub.insert("ab", 7), Ok(Some(1)));
        assert_eq!(sub.insert("b", 9), Err(()));
        assert_eq!(sub.insert("a", 9), Err(()));
        assert_eq!(sub.get(&"abcd"), Ok(Some(&5)));
        assert_eq!(sub.get(&"b"), Err(()));
        assert_eq!(sub.len(), 2);
        if let Some(v) = sub.value_mut() {
            *v += 1;
        }
    }
    assert_eq!(trie.len(), 3);
    assert!(trie.check_integrity());
    assert_eq!(trie.get(&"ab"), Some(&8));
    assert_eq!(trie.get(&"abcd"), Some(&5));
    assert_eq!(trie.get(&"b"), Some(&4));
    assert!(trie.subtrie_mut(&"a").is_none());
    assert!(trie.subtrie_mut(&"abc").is_none());
}

#[test]
fn subtrie_mut_counts_an_entry_put_at_its_own_node() {
    let mut trie = Trie::new();
    trie.insert(vec![1u8, 2, 0x10], 1);
    trie.insert(vec![1u8, 2, 0x20], 2);
    {
        // The two keys part right behind [1, 2], so a node without an entry stands there.
        let mut sub = trie.subtrie_mut(&vec![1u8, 2]).unwrap();
        assert_eq!(sub.len(), 2);
        assert!(sub.value_mut().is_none());
        assert_eq!(sub.insert(vec![1u8, 2], 3), Ok(None));
        assert_eq!(sub.len(), 3);
    }
    assert_eq!(trie.len(), 3);
    assert!(trie.check_integrity());
    assert_eq!(trie.get(&vec![1u8, 2]), Some(&3));
}

#[test]
fn values_can_be_changed_in_place() {
    let mut trie = Trie::new();
    trie.insert("", 1);
    trie.insert("deep", 2);
    trie.insert("deeper", 3);
    *trie.get_mut(&"deep").unwrap() = 20;
    *trie.get_mut(&"deeper").unwrap() += 1;
    assert!(trie.get_mut(&"dee").is_none());
    assert!(trie.get_mut(&"deepest").is_none());
    *trie.value_mut().unwrap() = 10;
    assert_eq!(trie.get(&""), Some(&10));
    assert_eq!(trie.get(&"deep"), Some(&20));
    assert_eq!(trie.get(&"deeper"), Some(&4));
    assert_eq!(trie.value(), Some(&10));
    assert_eq!(trie.key(), Some(&""));
    assert_eq!(trie.len(), 3);
    assert!(trie.check_integrity());
    let mut other: Trie<&str, u32> = Trie::new();
    assert!(other.value_mut().is_none());
}

#[test]
fn map_with_default_applies_or_stores() {
    let mut trie = Trie::new();
    trie.map_with_default("count", |x| *x += 1, 1);
    assert_eq!(trie.get(&"count"), Some(&1));
    trie.map_with_default("count", |x| *x += 1, 1);
    trie.map_with_default("count", |x| *x += 1, 1);
    assert_eq!(trie.get(&"count"), Some(&3));
    assert_eq!(trie.len(), 1);
}

#[test]
fn the_walk_goes_by_ascending_paths() {
    let mut trie = Trie::new();
    for (i, key) in ["b", "abc", "", "ab", "ac", "a", "abd", "ba"].iter().enumerate() {
        trie.insert(*key, i);
    }
    let entries: Vec<(&str, usize)> = trie.iter().into_iter().map(|(&k, &v)| (k, v)).collect();
    assert_eq!(
        entries,
        vec![("", 2), ("a", 5), ("ab", 3), ("abc", 1), ("abd", 6), ("ac", 4), ("b", 0), ("ba", 7)]
    );
    let keys: Vec<&str> = trie.keys().into_iter().map(|&k| k).collect();
    assert_eq!(keys, vec!["", "a", "ab", "abc", "abd", "ac", "b", "ba"]);
    let values: Vec<usize> = trie.values().into_iter().map(|&v| v).collect();
    assert_eq!(values, vec![2, 5, 3, 1, 6, 4, 0, 7]);
    // A second walk finds the same.
    assert_eq!(trie.iter().len(), 8);
    trie.remove(&"ab");
    let keys: Vec<&str> = trie.keys().into_iter().map(|&k| k).collect();
    assert_eq!(keys, vec!["", "a", "abc", "abd", "ac", "b", "ba"]);
}

#[test]
fn from_entries_inserts_in_turn() {
    let trie = Trie::from_entries(vec![("a", 1), ("b", 2), ("a", 3)]);
    assert_eq!(trie.len(), 2);
    assert_eq!(trie.get(&"a"), Some(&3));
    assert_eq!(trie.get(&"b"), Some(&2));
    assert!(trie.check_integrity());
    let empty: Trie<&str, u32> = Trie::from_entries(Vec::new());
    assert!(empty.is_empty());
}

#[test]
fn integrity_holds_through_a_mix_of_operations() {
    let mut trie = Trie::new();
    let keys: Vec<Vec<u8>> = (0u32..200)
        .map(|i| {
            let x = i.wrapping_mul(2654435761);
            vec![(x >> 24) as u8 & 0x33, (x >> 16) as u8 & 0x0f, (x >> 8) as u8 & 0x03]
                .into_iter()
                .take(1 + (i % 3) as usize)
                .collect()
        })
        .collect();
    let mut model = std::collections::BTreeMap::new();
    for (i, key) in keys.iter().enumerate() {
        if i % 3 == 2 {
            assert_eq!(trie.remove(key), model.remove(key));
        } else {
            assert_eq!(trie.insert(key.clone(), i), model.insert(key.clone(), i));
        }
        assert_eq!(trie.len(), model.len());
        assert!(trie.check_integrity());
    }
    for key in &keys {
        assert_eq!(trie.get(key), model.get(key));
    }
    let walked: Vec<(Vec<u8>, usize)> =
        trie.iter().into_iter().map(|(k, &v)| (k.clone(), v)).collect();
    let expected: Vec<(Vec<u8>, usize)> = model.iter().map(|(k, &v)| (k.clone(), v)).collect();
    assert_eq!(walked, expected);
}

#[test]
fn nodes_can_be_used_on_their_own() {
    let mut root: TrieNode<&str, u32> = TrieNode::new();
    assert_eq!(root.insert("ab", 1, "ab".encode()), None);
    assert_eq!(root.insert("abcd", 2, "abcd".encode()), None);
    assert_eq!(root.insert("ab", 3, "ab".encode()), Some(1));
    assert_eq!(root.compute_size(), 2);
    assert_eq!(root.check_integrity_recursive(true), (true, 2));
    let node = root.get(&"ab".encode()).unwrap();
    assert_eq!(node.value(), Some(&3));
    assert_eq!(node.key(), Some(&"ab"));
    assert!(root.get(&"a".encode()).is_none());
    assert!(root.get(&"abc".encode()).is_none());
    assert_eq!(root.get_ancestor(&"abc".encode()).and_then(|n| n.value()), Some(&3));
    assert!(root.get_ancestor(&"a".encode()).is_none());
    *root.get_mut(&"abcd".encode()).unwrap().value_mut().unwrap() = 9;
    assert_eq!(root.get(&"abcd".encode()).unwrap().value(), Some(&9));
    // Below the node of "ab", the rest of a key is what comes after "ab".
    let mut rest = "abxy".encode();
    let rest = rest.split(4);
    let below = root.get_mut(&"ab".encode()).unwrap();
    assert_eq!(below.insert("abxy", 7, rest), None);
    assert_eq!(root.get(&"abxy".encode()).unwrap().value(), Some(&7));
    assert_eq!(root.check_integrity_recursive(true), (true, 3));
}

#[test]
fn views_can_be_made_of_a_node_and_its_prefix() {
    let mut root: TrieNode<&str, u32> = TrieNode::new();
    root.insert("ab", 1, "ab".encode());
    root.insert("abcd", 2, "abcd".encode());
    root.insert("b", 3, "b".encode());
    let prefix = "ab".encode();
    {
        let node = root.get(&prefix).unwrap();
        let borrowed = SubTrie::with_borrowed_prefix(&prefix, node);
        assert_eq!(borrowed.get(&"abcd"), Ok(Some(&2)));
        assert_eq!(borrowed.get(&"ab"), Ok(Some(&1)));
        assert_eq!(borrowed.get(&"abce"), Ok(None));
        assert_eq!(borrowed.get(&"b"), Err(()));
        assert_eq!(borrowed.len(), 2);
        let owned = SubTrie::with_owned_prefix("ab".encode(), node);
        assert_eq!(owned.get(&"abcd"), Ok(Some(&2)));
        assert_eq!(owned.get(&"a"), Err(()));
        assert_eq!(nibbles_of(owned.prefix()), vec![6, 1, 6, 2]);
        let listed: Vec<(&str, u32)> = owned.iter().into_iter().map(|(&k, &v)| (k, v)).collect();
        assert_eq!(listed, vec![("ab", 1), ("abcd", 2)]);
    }
    let mut length = 3;
    {
        let node = root.get_mut(&prefix).unwrap();
        let mut view = SubTrieMut::with_owned_prefix("ab".encode(), &mut length, node);
        assert_eq!(view.insert("abxy", 4), Ok(None));
        assert_eq!(view.insert("abcd", 5), Ok(Some(2)));
        assert_eq!(view.insert("c", 6), Err(()));
        assert_eq!(view.get(&"abxy"), Ok(Some(&4)));
        assert_eq!(view.len(), 3);
    }
    assert_eq!(length, 4);
    assert_eq!(root.check_integrity_recursive(true), (true, 4));
    assert_eq!(root.get(&"abxy".encode()).unwrap().value(), Some(&4));
}

#[test]
fn a_view_is_walked_in_the_same_order() {
    let mut trie = Trie::new();
    for (i, key) in ["car", "cart", "care", "cat", "dog", "ca"].iter().enumerate() {
        trie.insert(*key, i);
    }
    let sub = trie.subtrie(&"car").unwrap();
    let listed: Vec<(&str, usize)> = sub.iter().into_iter().map(|(&k, &v)| (k, v)).collect();
    assert_eq!(listed, vec![("car", 0), ("care", 2), ("cart", 1)]);
    let all = trie.subtrie(&"").unwrap();
    assert_eq!(all.iter().len(), trie.iter().len());
}
