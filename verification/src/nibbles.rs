//! Contracts for the nibble vector in which keys and key fragments are held.
//!
//! A `NibbleVec` is opaque to the verifier. What it holds is named by
//! [`nibbles`], and each method that the trie calls is given a contract over
//! that name. None of these contracts is proved here: they restate what the
//! nibble vector's own code does.
use nibble_vec::NibbleVec;
use vstd::prelude::*;

verus! {

/// The `NibbleVec` of the `nibble_vec` crate, taken as it is: a value of it
/// is carried about, and nothing is seen inside it.
#[verifier::external_type_specification]
#[verifier::external_body]
pub struct ExNibbleVec(NibbleVec);

/// The 4-bit digits that a nibble vector holds, first to last: what
/// `NibbleVec::get` returns at each index below `NibbleVec::len`.
pub uninterp spec fn nibbles(nv: NibbleVec) -> Seq<u8>;

/// The digits of a byte string: each byte gives its high half, then its low half.
pub open spec fn nibble_seq(bytes: Seq<u8>) -> Seq<u8> {
    Seq::new(
        2 * bytes.len(),
        |i: int|
            if i % 2 == 0 {
                bytes[i / 2] / 16
            } else {
                bytes[i / 2] % 16
            },
    )
}

/// Two byte strings with the same digits are the same.
pub proof fn lemma_nibble_seq_injective(a: Seq<u8>, b: Seq<u8>)
    requires
        nibble_seq(a) == nibble_seq(b),
    ensures
        a == b,
{
    assert(nibble_seq(a).len() == 2 * a.len());
    assert forall|i: int| 0 <= i < a.len() implies a[i] == b[i] by {
        assert(nibble_seq(a)[2 * i] == a[i] / 16);
        assert(nibble_seq(a)[2 * i + 1] == a[i] % 16);
    }
}

/// The digits of the first bytes of a string are its first digits.
pub proof fn lemma_nibble_seq_take(bytes: Seq<u8>, n: int)
    requires
        0 <= n <= bytes.len(),
    ensures
        nibble_seq(bytes.take(n)) == nibble_seq(bytes).take(2 * n),
{
}

/// One byte string begins with another if and only if its digits begin
/// with the digits of the other.
pub proof fn lemma_nibble_seq_prefix(a: Seq<u8>, b: Seq<u8>)
    ensures
        (a.len() <= b.len() && b.take(a.len() as int) == a) <==> (nibble_seq(a).len()
            <= nibble_seq(b).len() && nibble_seq(b).take(nibble_seq(a).len() as int) == nibble_seq(
            a,
        )),
{
    if a.len() <= b.len() {
        lemma_nibble_seq_take(b, a.len() as int);
        if nibble_seq(b).take(nibble_seq(a).len() as int) == nibble_seq(a) {
            lemma_nibble_seq_injective(b.take(a.len() as int), a);
        }
    }
}

/// `NibbleVec::new` makes a vector that holds no digit.
pub assume_specification[ NibbleVec::new ]() -> (nv: NibbleVec)
    ensures
        nibbles(nv) == Seq::<u8>::empty(),
;

/// `NibbleVec::from_byte_vec` keeps the bytes as they are and reads two
/// digits out of each, the most significant half first.
pub assume_specification[ NibbleVec::from_byte_vec ](vec: Vec<u8>) -> (nv: NibbleVec)
    ensures
        nibbles(nv) == nibble_seq(vec@),
;

/// `NibbleVec::len` counts digits, not bytes.
pub assume_specification[ NibbleVec::len ](nv: &NibbleVec) -> (len: usize)
    ensures
        len == nibbles(*nv).len(),
;

/// `NibbleVec::get` returns the digit at `idx`, a value below 16. It panics
/// past the end, so the index must be in range.
pub assume_specification[ NibbleVec::get ](nv: &NibbleVec, idx: usize) -> (nibble: u8)
    requires
        idx < nibbles(*nv).len(),
    ensures
        nibble == nibbles(*nv)[idx as int],
        nibble < 16,
;

/// `NibbleVec::split` leaves the first `idx` digits in place and returns the
/// rest as a vector of its own. It panics when `idx` is past the end.
pub assume_specification[ NibbleVec::split ](nv: &mut NibbleVec, idx: usize) -> (tail: NibbleVec)
    requires
        idx <= nibbles(*old(nv)).len(),
    ensures
        nibbles(*final(nv)) == nibbles(*old(nv)).subrange(0, idx as int),
        nibbles(tail) == nibbles(*old(nv)).subrange(idx as int, nibbles(*old(nv)).len() as int),
;

/// `NibbleVec::join` appends the digits of `other` to those of the vector it
/// consumes. The joined length is computed in `usize` and must fit.
pub assume_specification[ NibbleVec::join ](nv: NibbleVec, other: &NibbleVec) -> (joined: NibbleVec)
    requires
        nibbles(nv).len() + nibbles(*other).len() <= usize::MAX,
    ensures
        nibbles(joined) == nibbles(nv) + nibbles(*other),
;

/// The derived `Clone` of `NibbleVec` copies the length and the bytes, so
/// the copy holds the same digits.
pub assume_specification[ <NibbleVec as Clone>::clone ](nv: &NibbleVec) -> (copy: NibbleVec)
    ensures
        nibbles(copy) == nibbles(*nv),
;

} // verus!
