//! Keys, their encoding, and the comparison of two key fragments.
use crate::nibbles::{nibble_seq, nibbles};
use nibble_vec::NibbleVec;
use vstd::prelude::*;
use vstd::slice::slice_to_vec;
use vstd::std_specs::cmp::PartialEqSpec;
use vstd::string::StrSliceExecFns;
use vstd::utf8::{encode_utf8, encode_utf8_decode_utf8};

verus! {

/// Trait for types which can be used to key a radix trie.
///
/// A key stands for a string of bytes, its encoding. The trie files a value
/// under the encoding of its key, so a type must give equal keys one
/// encoding and distinct keys distinct encodings. Both are laws of this
/// trait, which every type that takes it on proves.
pub trait TrieKey: PartialEq + Eq + Sized {
    /// The bytes that stand for this key.
    spec fn encoding(&self) -> Seq<u8>;

    /// Whether two keys are equal: what the type's own `==` says of them.
    spec fn equal(&self, other: &Self) -> bool;

    /// Keys with one encoding are equal.
    proof fn lemma_one_key_per_encoding(&self, other: &Self)
        requires
            self.encoding() == other.encoding(),
        ensures
            self.equal(other),
    ;

    /// Equal keys have one encoding.
    proof fn lemma_one_encoding_per_key(&self, other: &Self)
        requires
            self.equal(other),
        ensures
            self.encoding() == other.encoding(),
    ;

    /// Compare two keys as the type's own `==` does.
    fn same_key(&self, other: &Self) -> (same: bool)
        ensures
            same == self.equal(other),
    ;

    /// Encode a value as a vector of bytes.
    fn encode_bytes(&self) -> (bytes: Vec<u8>)
        ensures
            bytes@ == self.encoding(),
    ;

    /// Encode a value as a vector of nibbles, two for each byte.
    fn encode(&self) -> (nv: NibbleVec)
        ensures
            nibbles(nv) == nibble_seq(self.encoding()),
            nibbles(nv).len() <= usize::MAX,
    {
        let nv = NibbleVec::from_byte_vec(self.encode_bytes());
        // Reading the length tells the verifier that it fits in a `usize`.
        let _nibble_count: usize = nv.len();
        nv
    }
}

/// The path of a key through a trie: the nibbles of its encoding.
pub open spec fn key_path<K: TrieKey>(key: &K) -> Seq<u8> {
    nibble_seq(key.encoding())
}

/// Two keys have the same path if and only if they have the same encoding.
pub proof fn lemma_key_path_injective<K: TrieKey>(a: &K, b: &K)
    ensures
        key_path(a) == key_path(b) <==> a.encoding() == b.encoding(),
{
    if key_path(a) == key_path(b) {
        crate::nibbles::lemma_nibble_seq_injective(a.encoding(), b.encoding());
    }
}

/// Whether two byte strings hold the same bytes.
fn same_bytes(a: &[u8], b: &[u8]) -> (same: bool)
    ensures
        same == (a@ == b@),
{
    if a.len() != b.len() {
        return false;
    }
    let mut i: usize = 0;
    while i < a.len()
        invariant
            i <= a@.len(),
            a@.len() == b@.len(),
            a@.take(i as int) == b@.take(i as int),
        decreases a@.len() - i,
    {
        if a[i] != b[i] {
            return false;
        }
        i += 1;
    }
    assert(a@.take(a@.len() as int) == a@);
    assert(b@.take(b@.len() as int) == b@);
    true
}

/// Two strings with the same bytes hold the same characters.
proof fn lemma_same_bytes_same_chars(a: Seq<char>, b: Seq<char>)
    requires
        encode_utf8(a) == encode_utf8(b),
    ensures
        a == b,
{
    encode_utf8_decode_utf8(a);
    encode_utf8_decode_utf8(b);
}

impl TrieKey for Vec<u8> {
    open spec fn encoding(&self) -> Seq<u8> {
        self@
    }

    open spec fn equal(&self, other: &Self) -> bool {
        self.eq_spec(other)
    }

    proof fn lemma_one_key_per_encoding(&self, other: &Self) {
    }

    proof fn lemma_one_encoding_per_key(&self, other: &Self) {
    }

    fn same_key(&self, other: &Self) -> (same: bool) {
        *self == *other
    }

    fn encode_bytes(&self) -> (bytes: Vec<u8>) {
        self.clone()
    }
}

impl TrieKey for String {
    open spec fn encoding(&self) -> Seq<u8> {
        encode_utf8(self@)
    }

    open spec fn equal(&self, other: &Self) -> bool {
        self@ == other@
    }

    proof fn lemma_one_key_per_encoding(&self, other: &Self) {
        lemma_same_bytes_same_chars(self@, other@);
    }

    proof fn lemma_one_encoding_per_key(&self, other: &Self) {
    }

    fn same_key(&self, other: &Self) -> (same: bool) {
        *self == *other
    }

    fn encode_bytes(&self) -> (bytes: Vec<u8>) {
        self.as_str().as_bytes_vec()
    }
}

impl<'a> TrieKey for &'a [u8] {
    open spec fn encoding(&self) -> Seq<u8> {
        self@
    }

    open spec fn equal(&self, other: &Self) -> bool {
        self@ == other@
    }

    proof fn lemma_one_key_per_encoding(&self, other: &Self) {
    }

    proof fn lemma_one_encoding_per_key(&self, other: &Self) {
    }

    fn same_key(&self, other: &Self) -> (same: bool) {
        // `==` on slices of bytes compares the bytes. It has no contract
        // to go by, so the bytes are compared here.
        same_bytes(*self, *other)
    }

    fn encode_bytes(&self) -> (bytes: Vec<u8>) {
        slice_to_vec(*self)
    }
}

impl<'a> TrieKey for &'a str {
    open spec fn encoding(&self) -> Seq<u8> {
        encode_utf8(self@)
    }

    open spec fn equal(&self, other: &Self) -> bool {
        self@ == other@
    }

    proof fn lemma_one_key_per_encoding(&self, other: &Self) {
        lemma_same_bytes_same_chars(self@, other@);
    }

    proof fn lemma_one_encoding_per_key(&self, other: &Self) {
    }

    fn same_key(&self, other: &Self) -> (same: bool) {
        proof {
            if encode_utf8(self@) == encode_utf8(other@) {
                lemma_same_bytes_same_chars(self@, other@);
            }
        }
        // `==` on `str` compares the bytes. It has no contract to go by,
        // so the bytes are compared here.
        same_bytes(self.as_bytes(), other.as_bytes())
    }

    fn encode_bytes(&self) -> (bytes: Vec<u8>) {
        self.as_bytes_vec()
    }
}

/// Check two keys for equality.
///
/// No caller may hand in keys that differ. Where the two have one encoding
/// they are equal by the law of [`TrieKey`], so the comparison that is
/// made here cannot fail.
pub fn check_keys<K: TrieKey>(key1: &K, key2: &K)
    requires
        key1.equal(key2),
{
}

/// Two keys with one path are equal.
pub proof fn lemma_one_key_per_path<K: TrieKey>(a: &K, b: &K)
    requires
        key_path(a) == key_path(b),
    ensures
        a.equal(b),
{
    lemma_key_path_injective(a, b);
    a.lemma_one_key_per_encoding(b);
}

/// Key comparison result.
#[derive(Debug)]
pub enum KeyMatch {
    /// The keys match up to the given index.
    Partial(usize),
    /// The first key is a prefix of the second.
    FirstPrefix,
    /// The second key is a prefix of the first.
    SecondPrefix,
    /// The keys match exactly.
    Full,
}

/// What each outcome of a comparison says of the two sequences compared.
/// Exactly one outcome holds of any pair.
pub open spec fn key_match_holds(first: Seq<u8>, second: Seq<u8>, m: KeyMatch) -> bool {
    match m {
        KeyMatch::Partial(i) => {
            &&& i < first.len()
            &&& i < second.len()
            &&& first.take(i as int) == second.take(i as int)
            &&& first[i as int] != second[i as int]
        },
        KeyMatch::FirstPrefix => first.len() < second.len() && first == second.take(
            first.len() as int,
        ),
        KeyMatch::SecondPrefix => second.len() < first.len() && second == first.take(
            second.len() as int,
        ),
        KeyMatch::Full => first == second,
    }
}

/// Compare the part of `first` that starts at `start_idx` with `second`.
pub fn match_keys(start_idx: usize, first: &NibbleVec, second: &NibbleVec) -> (m: KeyMatch)
    requires
        start_idx <= nibbles(*first).len(),
    ensures
        key_match_holds(nibbles(*first).skip(start_idx as int), nibbles(*second), m),
{
    let whole_len = first.len();
    let first_len = whole_len - start_idx;
    let second_len = second.len();
    let min_length = if first_len < second_len {
        first_len
    } else {
        second_len
    };
    let ghost a = nibbles(*first).skip(start_idx as int);
    let ghost b = nibbles(*second);

    let mut i: usize = 0;
    while i < min_length
        invariant
            i <= min_length,
            min_length <= first_len,
            min_length <= second_len,
            first_len == a.len(),
            second_len == b.len(),
            start_idx + first_len == whole_len,
            whole_len == nibbles(*first).len(),
            a == nibbles(*first).skip(start_idx as int),
            b == nibbles(*second),
            a.take(i as int) == b.take(i as int),
        decreases min_length - i,
    {
        if first.get(start_idx + i) != second.get(i) {
            return KeyMatch::Partial(i);
        }
        i += 1;
    }

    if first_len < second_len {
        assert(a.take(first_len as int) == a);
        KeyMatch::FirstPrefix
    } else if first_len == second_len {
        assert(a.take(first_len as int) == a);
        assert(b.take(first_len as int) == b);
        KeyMatch::Full
    } else {
        assert(b.take(second_len as int) == b);
        KeyMatch::SecondPrefix
    }
}

} // verus!
