//! Digest values, message/digest pairs, and suffix-truncated comparison.

use vstd::prelude::*;

use crate::digest::ripemd160_of;

verus! {

/// Width of a RIPEMD-160 digest in bytes.
pub const HASH_SIZE_IN_BYTES: usize = 20;

/// Index where the trailing suffix of `suffix_len` bytes starts in a digest
/// of `hash_len` bytes; the whole digest when the suffix is at least as wide.
pub open spec fn spec_suffix_index(hash_len: int, suffix_len: int) -> int {
    if hash_len > suffix_len {
        hash_len - suffix_len
    } else {
        0
    }
}

/// Two equal-length digests are equal under `s`: their trailing `s` bytes
/// agree (all bytes when `s` covers the whole digest, vacuously when `s = 0`).
pub open spec fn equal_under(a: Seq<u8>, b: Seq<u8>, s: int) -> bool {
    &&& a.len() == b.len()
    &&& forall|i: int| spec_suffix_index(a.len() as int, s) <= i < a.len() ==> a[i] == b[i]
}

/// The digest of a message, as the hash adapter computes it: RIPEMD-160 of
/// the message's UTF-8 encoding.
pub open spec fn spec_message_digest(message: Seq<char>) -> Seq<u8> {
    ripemd160_of(vstd::utf8::encode_utf8(message))
}

pub fn get_suffix_index(hash_len: usize, suffix_len_in_bytes: usize) -> (r: usize)
    ensures
        r == spec_suffix_index(hash_len as int, suffix_len_in_bytes as int),
{
    if hash_len > suffix_len_in_bytes {
        hash_len - suffix_len_in_bytes
    } else {
        0
    }
}

/// A fixed-width digest value.
pub struct HashValue {
    pub hash: Vec<u8>,
}

impl View for HashValue {
    type V = Seq<u8>;

    open spec fn view(&self) -> Seq<u8> {
        self.hash@
    }
}

impl Clone for HashValue {
    fn clone(&self) -> (r: Self)
        ensures
            r@ == self@,
    {
        let hash = self.hash.clone();
        assert(hash@ =~= self.hash@);
        HashValue { hash }
    }
}

impl HashValue {
    /// The value is a whole digest.
    pub open spec fn wf(self) -> bool {
        self@.len() == HASH_SIZE_IN_BYTES
    }

    pub fn new(hash: Vec<u8>) -> (r: Self)
        ensures
            r@ == hash@,
    {
        HashValue { hash }
    }

    /// Width of every digest this library produces.
    pub fn len() -> (r: usize)
        ensures
            r == HASH_SIZE_IN_BYTES,
    {
        HASH_SIZE_IN_BYTES
    }

    /// Compare the trailing `suffix_len_in_bytes` bytes of two digests.
    pub fn equal_to(&self, other: &Self, suffix_len_in_bytes: usize) -> (r: bool)
        requires
            self.wf(),
            other.wf(),
        ensures
            r == equal_under(self@, other@, suffix_len_in_bytes as int),
    {
        let hash_size = Self::len();
        let suffix_index = get_suffix_index(hash_size, suffix_len_in_bytes);

        let mut i = suffix_index;
        while i < hash_size
            invariant
                self.wf(),
                other.wf(),
                hash_size == HASH_SIZE_IN_BYTES,
                suffix_index == spec_suffix_index(hash_size as int, suffix_len_in_bytes as int),
                suffix_index <= i <= hash_size,
                forall|j: int| suffix_index <= j < i ==> self@[j] == other@[j],
            decreases hash_size - i,
        {
            if self.hash[i] != other.hash[i] {
                return false;
            }
            i += 1;
        }
        true
    }
}

/// Law: truncation monotonicity — digests that disagree under `s` also
/// disagree under every wider suffix `s2 >= s`.
pub proof fn lemma_truncation_monotonic(a: Seq<u8>, b: Seq<u8>, s: int, s2: int)
    requires
        a.len() == b.len(),
        0 <= s <= s2,
        !equal_under(a, b, s),
    ensures
        !equal_under(a, b, s2),
{
    let i = choose|i: int|
        spec_suffix_index(a.len() as int, s) <= i < a.len() && a[i] != b[i];
    assert(spec_suffix_index(a.len() as int, s2) <= i < a.len() && a[i] != b[i]);
}

/// A message paired with its digest.
pub struct MessageHash {
    message: String,
    hash: HashValue,
}

/// Two message/digest pairs collide under `s`: the messages differ and the
/// digests are equal under `s`.
pub open spec fn spec_collides(a: MessageHash, b: MessageHash, s: int) -> bool {
    &&& a.spec_message() != b.spec_message()
    &&& equal_under(a.spec_hash(), b.spec_hash(), s)
}

impl Clone for MessageHash {
    fn clone(&self) -> (r: Self)
        ensures
            r.spec_message() == self.spec_message(),
            r.spec_hash() == self.spec_hash(),
    {
        MessageHash { message: self.message.clone(), hash: self.hash.clone() }
    }
}

impl MessageHash {
    pub closed spec fn spec_message(self) -> Seq<char> {
        self.message@
    }

    pub closed spec fn spec_hash(self) -> Seq<u8> {
        self.hash@
    }

    /// The pair holds a whole digest, and it is the digest of the message.
    pub open spec fn wf(self) -> bool {
        &&& self.spec_hash().len() == HASH_SIZE_IN_BYTES
    &&& self.spec_hash() == spec_message_digest(self.spec_message())
    }

    pub fn new(message: &str, hash: HashValue) -> (r: Self)
        ensures
            r.spec_message() == message@,
            r.spec_hash() == hash@,
    {
        MessageHash { message: message.to_owned(), hash }
    }

    pub fn hash_value(&self) -> (r: &HashValue)
        ensures
            r@ == self.spec_hash(),
    {
        &self.hash
    }

    pub fn message(&self) -> (r: &String)
        ensures
            r@ == self.spec_message(),
    {
        &self.message
    }

    pub fn collides_with(&self, other: &Self, suffix_len_in_bytes: usize) -> (r: bool)
        requires
            self.spec_hash().len() == HASH_SIZE_IN_BYTES,
            other.spec_hash().len() == HASH_SIZE_IN_BYTES,
        ensures
            r == spec_collides(*self, *other, suffix_len_in_bytes as int),
    {
        let different_messages = self.message != other.message;
        let equal_hashes = self.hash.equal_to(&other.hash, suffix_len_in_bytes);

        different_messages && equal_hashes
    }
}

} // verus!
