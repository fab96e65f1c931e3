//! A radix trie: a map from string-like keys to values in which keys that
//! share a prefix share the nodes that spell it.
//!
//! A key is encoded as bytes, and the bytes as nibbles, two for each byte:
//! the path of the key. A node holds a fragment of such paths, an entry if
//! the path of a key ends at it, and sixteen slots for the nodes below it,
//! one for each nibble that a path may go on with. The trie is kept
//! compressed: below the root, a node without an entry has at least two
//! children, or else it is folded into its only child.
//!
//! To the verifier a [`Trie`] is a finite map from paths to entries, its
//! view. The contracts of `insert`, `get`, `remove` and of the searches for
//! the nearest node above and below a key are stated over that map. Every
//! function is verified but for the contracts of the nibble vector, which
//! [`nibbles`] states without proof.
//!
//! - [`keys`]: the keys, their encoding, and the comparison of fragments.
//! - [`trie_node`]: the node, the model of a tree of nodes, and what is
//!   done to a single node.
//! - [`traversal`], [`insertion`], [`removal`]: the walks through the tree.
//! - [`iter`]: the walk over all entries, in order.
//! - [`trie`], [`subtrie`]: the trie and the views of a part of it.
//! - [`laws`]: what holds of every trie.
//! - [`counting`], [`node_paths`], [`node_places`], [`node_shape`],
//!   [`node_slots`], [`node_swaps`]: the lemmas that the walks rest on.
pub mod counting;
pub mod insertion;
pub mod iter;
pub mod keys;
pub mod laws;
pub mod nibbles;
pub mod node_paths;
pub mod node_places;
pub mod node_shape;
pub mod node_slots;
pub mod node_swaps;
pub mod removal;
pub mod subtrie;
pub mod traversal;
pub mod trie;
pub mod trie_node;

pub use crate::keys::{check_keys, match_keys, KeyMatch, TrieKey};
pub use crate::subtrie::{SubTrie, SubTrieMut, SubTrieResult};
pub use crate::trie::Trie;
pub use crate::trie_node::{DeleteAction, TrieNode};
pub use nibble_vec::NibbleVec;
