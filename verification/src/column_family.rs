//! Column families: a UTF-8 name hashed to an 8-byte key prefix with a
//! non-cryptographic 64-bit hash (FNV-1a), used by the in-memory backend to
//! partition its key space.

use vstd::prelude::*;
use vstd::string::StringSliceAdditionalSpecFns;
use vstd::string::StrSliceExecFns;

verus! {

/// An 8-byte hashed column-family key.
pub type ColumnKey = Vec<u8>;

/// A key of the backend's storage map: an 8-byte column key followed by the
/// serialized user key.
pub type PrefixedKey = Vec<u8>;

pub const FNV_OFFSET_BASIS: u64 = 0xcbf29ce484222325;

pub const FNV_PRIME: u64 = 0x100000001b3;

/// One FNV-1a step: fold the next byte into the running hash.
pub open spec fn fnv1a_step(h: u64, b: u8) -> u64 {
    vstd::wrapping::u64_specs::wrapping_mul(h ^ (b as u64), FNV_PRIME)
}

/// FNV-1a of the first `i` bytes.
pub open spec fn fnv1a_prefix(bytes: Seq<u8>, i: int) -> u64
    decreases i,
{
    if i <= 0 {
        FNV_OFFSET_BASIS
    } else {
        fnv1a_step(fnv1a_prefix(bytes, i - 1), bytes[i - 1])
    }
}

/// The FNV-1a 64-bit hash of a byte sequence.
pub open spec fn fnv1a(bytes: Seq<u8>) -> u64 {
    fnv1a_prefix(bytes, bytes.len() as int)
}

/// Compute the FNV-1a 64-bit hash of the given bytes.
pub fn fnv1a_hash(bytes: &[u8]) -> (r: u64)
    ensures
        r == fnv1a(bytes@),
{
    let mut h: u64 = FNV_OFFSET_BASIS;
    let mut i: usize = 0;
    while i < bytes.len()
        invariant
            i <= bytes@.len(),
            h == fnv1a_prefix(bytes@, i as int),
        decreases bytes@.len() - i,
    {
        h = (h ^ (bytes[i] as u64)).wrapping_mul(FNV_PRIME);
        i = i + 1;
    }
    h
}

/// The big-endian bytes of a 64-bit value, most significant first.
pub open spec fn u64_be_byte(x: u64, i: int) -> u8 {
    ((x / pow2_8mul(7 - i)) % 256) as u8
}

/// 2 to the power of 8 * i, for 0 <= i < 8.
pub open spec fn pow2_8mul(i: int) -> u64 {
    if i <= 0 {
        1
    } else if i == 1 {
        0x100
    } else if i == 2 {
        0x10000
    } else if i == 3 {
        0x1000000
    } else if i == 4 {
        0x100000000
    } else if i == 5 {
        0x10000000000
    } else if i == 6 {
        0x1000000000000
    } else {
        0x100000000000000
    }
}

pub open spec fn u64_be_bytes(x: u64) -> Seq<u8> {
    Seq::new(8, |i: int| u64_be_byte(x, i))
}

/// Serialize a 64-bit value as 8 big-endian bytes.
pub fn u64_to_be_bytes(x: u64) -> (r: Vec<u8>)
    ensures
        r@ == u64_be_bytes(x),
        r@.len() == 8,
{
    let mut r: Vec<u8> = Vec::new();
    let mut i: usize = 0;
    while i < 8
        invariant
            i <= 8,
            r@.len() == i,
            forall|j: int| 0 <= j < i ==> r@[j] == u64_be_byte(x, j),
        decreases 8 - i,
    {
        let shift: u64 = match i {
            0 => 0x100000000000000,
            1 => 0x1000000000000,
            2 => 0x10000000000,
            3 => 0x100000000,
            4 => 0x1000000,
            5 => 0x10000,
            6 => 0x100,
            _ => 1,
        };
        assert(shift == pow2_8mul(7 - i as int));
        r.push(((x / shift) % 256) as u8);
        i = i + 1;
    }
    proof {
        assert(r@ =~= u64_be_bytes(x));
    }
    r
}

/// Relies on str::from_utf8: it returns Ok exactly on valid UTF-8 input.
#[verifier::external_body]
fn utf8_is_valid(bytes: &[u8]) -> (r: bool)
    ensures
        r == vstd::utf8::valid_utf8(bytes@),
{
    core::str::from_utf8(bytes).is_ok()
}

/// The UTF-8 bytes of the default family's name.
pub open spec fn default_cf_bytes() -> Seq<u8> {
    vstd::utf8::encode_utf8("default"@)
}

/// The 8-byte key prefix of a column family with the given name bytes.
pub open spec fn cf_key_of(name: Seq<u8>) -> Seq<u8> {
    u64_be_bytes(fnv1a(name))
}

/// Holds the name of a column family, kept as its UTF-8 bytes.
///
/// The same name always hashes to the same 8-byte column key, across
/// processes, because the hash is FNV-1a with its standard constants.
#[derive(Debug)]
pub struct ColumnFamily {
    name: Vec<u8>,
}

impl Clone for ColumnFamily {
    fn clone(&self) -> (r: Self)
        ensures
            r@ == self@,
    {
        ColumnFamily { name: self.name.clone() }
    }
}

impl View for ColumnFamily {
    type V = Seq<u8>;

    closed spec fn view(&self) -> Seq<u8> {
        self.name@
    }
}

impl ColumnFamily {
    /// Create a key prefix hash. Output is always 8 bytes long.
    pub fn cf_key(&self) -> (r: ColumnKey)
        ensures
            r@ == cf_key_of(self@),
            r@.len() == 8,
    {
        u64_to_be_bytes(fnv1a_hash(self.name.as_slice()))
    }

    /// The name's UTF-8 bytes.
    pub fn name_bytes(&self) -> (r: &Vec<u8>)
        ensures
            r@ == self@,
    {
        &self.name
    }

    /// Build a column family from raw name bytes.
    ///
    /// Use with caution: falls back to the default family when the bytes are
    /// not valid UTF-8.
    pub fn from_utf8_bytes(value: Vec<u8>) -> (r: ColumnFamily)
        ensures
            vstd::utf8::valid_utf8(value@) ==> r@ == value@,
            !vstd::utf8::valid_utf8(value@) ==> r@ == default_cf_bytes(),
    {
        if utf8_is_valid(value.as_slice()) {
            ColumnFamily { name: value }
        } else {
            ColumnFamily::default()
        }
    }

    /// Build a column family from a name.
    pub fn from_name(value: &str) -> (r: ColumnFamily)
        ensures
            r@ == value.spec_bytes(),
    {
        ColumnFamily { name: value.as_bytes_vec() }
    }

    /// Build a column family from an owned name.
    pub fn from_string(value: &String) -> (r: ColumnFamily)
        ensures
            r@ == vstd::utf8::encode_utf8(value@),
    {
        ColumnFamily { name: value.as_str().as_bytes_vec() }
    }
}

impl PartialEq for ColumnFamily {
    fn eq(&self, other: &ColumnFamily) -> (r: bool) {
        let r = self.name == other.name;
        proof {
            if r {
                assert(self.name@ =~= other.name@);
            } else {
                assert(!(self.name@ =~= other.name@));
            }
        }
        r
    }
}

impl vstd::std_specs::cmp::PartialEqSpecImpl for ColumnFamily {
    open spec fn obeys_eq_spec() -> bool {
        true
    }

    open spec fn eq_spec(&self, other: &ColumnFamily) -> bool {
        self@ == other@
    }
}

impl Default for ColumnFamily {
    fn default() -> (r: ColumnFamily)
        ensures
            r@ == default_cf_bytes(),
    {
        let name = "default".as_bytes_vec();
        ColumnFamily { name }
    }
}

} // verus!
