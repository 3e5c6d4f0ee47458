//! Hashing: the 32-byte cryptographic digest used for key hashing and node
//! hashing, and the key/root digest types built from it.

use vstd::prelude::*;

verus! {

/// The digest produced by the store's cryptographic hasher on given bytes.
/// Deterministic: the same bytes give the same digest, in every process.
pub uninterp spec fn sha256_of(bytes: Seq<u8>) -> Seq<u8>;

/// Relies on sha2::Sha256: a deterministic 32-byte digest of the input bytes.
#[verifier::external_body]
pub fn sha256_digest(bytes: &[u8]) -> (r: Vec<u8>)
    ensures
        r@ == sha256_of(bytes@),
        r@.len() == 32,
{
    let mut hasher = <sha2::Sha256 as sha2::Digest>::new();
    sha2::Digest::update(&mut hasher, bytes);
    sha2::Digest::finalize(hasher).to_vec()
}

/// A 32-byte digest of a user key; the tree's indexing key.
#[derive(Debug)]
pub struct KeyHash {
    bytes: Vec<u8>,
}

impl View for KeyHash {
    type V = Seq<u8>;

    closed spec fn view(&self) -> Seq<u8> {
        self.bytes@
    }
}

impl KeyHash {
    /// A key hash is always exactly 32 bytes.
    #[verifier::type_invariant]
    pub open spec fn type_inv(self) -> bool {
        self@.len() == 32
    }

    /// Hash arbitrary key bytes down to the 32-byte indexing key.
    pub fn with_sha256(key: &[u8]) -> (r: KeyHash)
        ensures
            r@ == sha256_of(key@),
            r@.len() == 32,
    {
        KeyHash { bytes: sha256_digest(key) }
    }

    /// Wrap an existing 32-byte digest.
    pub fn from_bytes(bytes: Vec<u8>) -> (r: KeyHash)
        requires
            bytes@.len() == 32,
        ensures
            r@ == bytes@,
            r@.len() == 32,
    {
        KeyHash { bytes }
    }

    pub fn as_bytes(&self) -> (r: &Vec<u8>)
        ensures
            r@ == self@,
            r@.len() == 32,
    {
        proof {
            use_type_invariant(self);
        }
        &self.bytes
    }
}

impl Clone for KeyHash {
    fn clone(&self) -> (r: Self)
        ensures
            r@ == self@,
    {
        proof {
            use_type_invariant(self);
        }
        KeyHash { bytes: self.bytes.clone() }
    }
}

impl PartialEq for KeyHash {
    fn eq(&self, other: &KeyHash) -> (r: bool) {
        let r = self.bytes == other.bytes;
        proof {
            if r {
                assert(self.bytes@ =~= other.bytes@);
            } else {
                assert(!(self.bytes@ =~= other.bytes@));
            }
        }
        r
    }
}

impl vstd::std_specs::cmp::PartialEqSpecImpl for KeyHash {
    open spec fn obeys_eq_spec() -> bool {
        true
    }

    open spec fn eq_spec(&self, other: &KeyHash) -> bool {
        self@ == other@
    }
}

/// The 32-byte authenticated summary of the whole tree at one version.
#[derive(Debug)]
pub struct RootHash {
    bytes: Vec<u8>,
}

impl View for RootHash {
    type V = Seq<u8>;

    closed spec fn view(&self) -> Seq<u8> {
        self.bytes@
    }
}

impl RootHash {
    pub fn from_bytes(bytes: Vec<u8>) -> (r: RootHash)
        ensures
            r@ == bytes@,
    {
        RootHash { bytes }
    }

    pub fn as_bytes(&self) -> (r: &Vec<u8>)
        ensures
            r@ == self@,
    {
        &self.bytes
    }
}

impl Clone for RootHash {
    fn clone(&self) -> (r: Self)
        ensures
            r@ == self@,
    {
        RootHash { bytes: self.bytes.clone() }
    }
}

impl PartialEq for RootHash {
    fn eq(&self, other: &RootHash) -> (r: bool) {
        let r = self.bytes == other.bytes;
        proof {
            if r {
                assert(self.bytes@ =~= other.bytes@);
            } else {
                assert(!(self.bytes@ =~= other.bytes@));
            }
        }
        r
    }
}

impl vstd::std_specs::cmp::PartialEqSpecImpl for RootHash {
    open spec fn obeys_eq_spec() -> bool {
        true
    }

    open spec fn eq_spec(&self, other: &RootHash) -> bool {
        self@ == other@
    }
}

/// The nibble (half-byte) of a 32-byte key at position `i`, `0 <= i < 64`,
/// most significant nibble of each byte first.
pub open spec fn nibble_of(key: Seq<u8>, i: int) -> u8 {
    if i % 2 == 0 {
        key[i / 2] / 16
    } else {
        key[i / 2] % 16
    }
}

/// Two 32-byte keys that agree on all 64 nibbles are equal.
pub proof fn lemma_nibbles_determine_key(a: Seq<u8>, b: Seq<u8>)
    requires
        a.len() == 32,
        b.len() == 32,
        forall|i: int| 0 <= i < 64 ==> nibble_of(a, i) == nibble_of(b, i),
    ensures
        a == b,
{
    assert forall|j: int| 0 <= j < 32 implies a[j] == b[j] by {
        assert(nibble_of(a, 2 * j) == nibble_of(b, 2 * j));
        assert(nibble_of(a, 2 * j + 1) == nibble_of(b, 2 * j + 1));
        assert((2 * j) / 2 == j);
        assert((2 * j + 1) / 2 == j);
        assert(a[j] == a[j] / 16 * 16 + a[j] % 16) by (nonlinear_arith);
        assert(b[j] == b[j] / 16 * 16 + b[j] % 16) by (nonlinear_arith);
    }
    assert(a =~= b);
}

/// Extract the nibble of a key hash at position `i`.
pub fn nibble_at(key: &KeyHash, i: usize) -> (r: u8)
    requires
        i < 64,
    ensures
        r == nibble_of(key@, i as int),
        r < 16,
{
    proof {
        use_type_invariant(key);
    }
    let b: u8 = key.bytes[i / 2];
    if i % 2 == 0 {
        b / 16
    } else {
        b % 16
    }
}

} // verus!
