//! Operations of the write log, and their byte format for cross-thread
//! transfer: a tag byte, the logged version little-endian, then the
//! entry-specific body (a key hash is 32 bytes; an optional value is one
//! presence byte plus length-prefixed bytes).

use crate::db_adapter::clone_opt_bytes;
use crate::digest::KeyHash;
use crate::errors::LeftRightTrieError;
use crate::jmt::{opt_view, OwnedValue, Version};
use vstd::bytes::{spec_u64_to_le_bytes, u64_from_le_bytes, u64_to_le_bytes};
use vstd::prelude::*;
use vstd::slice::{slice_subrange, slice_to_vec};

verus! {

/// One logged mutation, carrying the version at which it was logged.
#[derive(Debug)]
pub enum Operation {
    /// Add a single value at the logged version.
    Add((KeyHash, Option<OwnedValue>), Version),
    /// Remove the value of a key at the logged version.
    Remove(KeyHash, Version),
    /// Apply a whole value set as one atomic step at the logged version.
    Extend(Vec<(KeyHash, Option<OwnedValue>)>, Version),
}

impl Clone for Operation {
    fn clone(&self) -> (r: Self)
        ensures
            op_matches(r, *self),
    {
        match self {
            Operation::Add((k, v), vers) => Operation::Add(
                (k.clone(), clone_opt_bytes(v)),
                *vers,
            ),
            Operation::Remove(k, vers) => Operation::Remove(k.clone(), *vers),
            Operation::Extend(kvs, vers) => {
                let mut copy: Vec<(KeyHash, Option<OwnedValue>)> = Vec::new();
                let mut i: usize = 0;
                while i < kvs.len()
                    invariant
                        i <= kvs@.len(),
                        copy@.len() == i,
                        forall|q: int|
                            0 <= q < i ==> (#[trigger] copy@[q]).0@ == kvs@[q].0@ && opt_view(
                                copy@[q].1,
                            ) == opt_view(kvs@[q].1),
                    decreases kvs@.len() - i,
                {
                    let e = &kvs[i];
                    copy.push((e.0.clone(), clone_opt_bytes(&e.1)));
                    i = i + 1;
                }
                Operation::Extend(copy, *vers)
            },
        }
    }
}

/// Two operations carry the same content.
pub open spec fn op_matches(a: Operation, b: Operation) -> bool {
    match (a, b) {
        (Operation::Add((ka, va), ra), Operation::Add((kb, vb), rb)) => ka@ == kb@ && opt_view(va)
            == opt_view(vb) && ra == rb,
        (Operation::Remove(ka, ra), Operation::Remove(kb, rb)) => ka@ == kb@ && ra == rb,
        (Operation::Extend(la, ra), Operation::Extend(lb, rb)) => ra == rb && la@.len()
            == lb@.len() && forall|i: int|
            0 <= i < la@.len() ==> (#[trigger] la@[i]).0@ == lb@[i].0@ && opt_view(la@[i].1)
                == opt_view(lb@[i].1),
        _ => false,
    }
}

/// The serialized form of an optional value: presence byte, then the
/// length little-endian, then the bytes.
pub open spec fn spec_encode_opt_value(v: Option<Seq<u8>>) -> Seq<u8> {
    match v {
        None => seq![0u8],
        Some(bytes) => seq![1u8] + spec_u64_to_le_bytes(bytes.len() as u64) + bytes,
    }
}

/// The serialized form of one operation.
pub open spec fn spec_encode_operation(op: Operation) -> Seq<u8> {
    match op {
        Operation::Add((k, v), vers) => seq![0u8] + spec_u64_to_le_bytes(vers) + k@
            + spec_encode_opt_value(opt_view(v)),
        Operation::Remove(k, vers) => seq![1u8] + spec_u64_to_le_bytes(vers) + k@,
        Operation::Extend(kvs, vers) => seq![2u8] + spec_u64_to_le_bytes(vers)
            + spec_u64_to_le_bytes(kvs@.len() as u64) + spec_encode_pairs(
            kvs@,
            kvs@.len() as int,
        ),
    }
}

/// The serialized form of the first `n` pairs of a value set.
pub open spec fn spec_encode_pairs(kvs: Seq<(KeyHash, Option<Vec<u8>>)>, n: int) -> Seq<u8>
    decreases n,
{
    if n <= 0 {
        Seq::empty()
    } else {
        spec_encode_pairs(kvs, n - 1) + kvs[n - 1].0@ + spec_encode_opt_value(
            opt_view(kvs[n - 1].1),
        )
    }
}

/// The operation is in serializable shape: 32-byte key hashes, and values
/// and lists small enough to length-prefix.
pub open spec fn op_encodable(op: Operation) -> bool {
    match op {
        Operation::Add((k, v), vers) => k@.len() == 32 && match v {
            Some(bytes) => bytes@.len() < 0x1_0000_0000,
            None => true,
        },
        Operation::Remove(k, vers) => k@.len() == 32,
        Operation::Extend(kvs, vers) => kvs@.len() < 0x1_0000_0000 && forall|i: int|
            0 <= i < kvs@.len() ==> (#[trigger] kvs@[i]).0@.len() == 32 && match kvs@[i].1 {
                Some(bytes) => bytes@.len() < 0x1_0000_0000,
                None => true,
            },
    }
}

/// Serialized pair prefixes only grow.
proof fn lemma_pairs_len_mono(kvs: Seq<(KeyHash, Option<Vec<u8>>)>, i: int, n: int)
    requires
        0 <= i <= n,
    ensures
        spec_encode_pairs(kvs, i).len() <= spec_encode_pairs(kvs, n).len(),
    decreases n - i,
{
    if i < n {
        lemma_pairs_len_mono(kvs, i, n - 1);
        assert(spec_encode_pairs(kvs, n) == spec_encode_pairs(kvs, n - 1) + kvs[n - 1].0@
            + spec_encode_opt_value(opt_view(kvs[n - 1].1)));
    }
}

/// The first `i` pairs' serialization is a prefix of the first `n` pairs'.
proof fn lemma_pairs_prefix(kvs: Seq<(KeyHash, Option<Vec<u8>>)>, i: int, n: int)
    requires
        0 <= i <= n,
    ensures
        spec_encode_pairs(kvs, i).len() <= spec_encode_pairs(kvs, n).len(),
        spec_encode_pairs(kvs, n).subrange(0, spec_encode_pairs(kvs, i).len() as int)
            == spec_encode_pairs(kvs, i),
    decreases n - i,
{
    if i < n {
        lemma_pairs_prefix(kvs, i, n - 1);
        assert(spec_encode_pairs(kvs, n) == spec_encode_pairs(kvs, n - 1) + kvs[n - 1].0@
            + spec_encode_opt_value(opt_view(kvs[n - 1].1)));
        assert(spec_encode_pairs(kvs, n).subrange(
            0,
            spec_encode_pairs(kvs, i).len() as int,
        ) =~= spec_encode_pairs(kvs, i));
    }
}

/// Serialize an optional value.
fn encode_opt_value(v: &Option<OwnedValue>, out: &mut Vec<u8>)
    requires
        v matches Some(bytes) ==> bytes@.len() < 0x1_0000_0000,
    ensures
        final(out)@ == old(out)@ + spec_encode_opt_value(opt_view(*v)),
{
    match v {
        None => {
            out.push(0u8);
            proof {
                assert(final(out)@ =~= old(out)@ + spec_encode_opt_value(opt_view(*v)));
            }
        },
        Some(bytes) => {
            out.push(1u8);
            let len_bytes = u64_to_le_bytes(bytes.len() as u64);
            out.extend_from_slice(len_bytes.as_slice());
            out.extend_from_slice(bytes.as_slice());
            proof {
                assert(final(out)@ =~= old(out)@ + spec_encode_opt_value(opt_view(*v)));
            }
        },
    }
}

/// Serialize one operation into the log's byte format.
pub fn encode_operation(op: &Operation) -> (r: Vec<u8>)
    requires
        op matches Operation::Add((k, v), vers) ==> (v matches Some(bytes) ==> bytes@.len()
            < 0x1_0000_0000),
        op matches Operation::Extend(kvs, vers) ==> kvs@.len() < 0x1_0000_0000 && forall|i: int|
            0 <= i < kvs@.len() ==> ((#[trigger] kvs@[i]).1 matches Some(bytes) ==> bytes@.len()
                < 0x1_0000_0000),
    ensures
        r@ == spec_encode_operation(*op),
{
    let mut out: Vec<u8> = Vec::new();
    match op {
        Operation::Add((k, v), vers) => {
            out.push(0u8);
            let vb = u64_to_le_bytes(*vers);
            out.extend_from_slice(vb.as_slice());
            out.extend_from_slice(k.as_bytes().as_slice());
            proof {
                assert(out@ =~= seq![0u8] + spec_u64_to_le_bytes(*vers) + k@);
            }
            encode_opt_value(v, &mut out);
            proof {
                assert(out@ =~= spec_encode_operation(*op));
            }
        },
        Operation::Remove(k, vers) => {
            out.push(1u8);
            let vb = u64_to_le_bytes(*vers);
            out.extend_from_slice(vb.as_slice());
            out.extend_from_slice(k.as_bytes().as_slice());
            proof {
                assert(out@ =~= spec_encode_operation(*op));
            }
        },
        Operation::Extend(kvs, vers) => {
            out.push(2u8);
            let vb = u64_to_le_bytes(*vers);
            out.extend_from_slice(vb.as_slice());
            let cb = u64_to_le_bytes(kvs.len() as u64);
            out.extend_from_slice(cb.as_slice());
            proof {
                assert(out@ =~= seq![2u8] + spec_u64_to_le_bytes(*vers) + spec_u64_to_le_bytes(
                    kvs@.len() as u64,
                ) + spec_encode_pairs(kvs@, 0));
            }
            let mut i: usize = 0;
            while i < kvs.len()
                invariant
                    i <= kvs@.len(),
                    forall|q: int|
                        0 <= q < kvs@.len() ==> ((#[trigger] kvs@[q]).1 matches Some(bytes)
                            ==> bytes@.len() < 0x1_0000_0000),
                    out@ == seq![2u8] + spec_u64_to_le_bytes(*vers) + spec_u64_to_le_bytes(
                        kvs@.len() as u64,
                    ) + spec_encode_pairs(kvs@, i as int),
                decreases kvs@.len() - i,
            {
                let e = &kvs[i];
                out.extend_from_slice(e.0.as_bytes().as_slice());
                encode_opt_value(&e.1, &mut out);
                proof {
                    assert(out@ =~= seq![2u8] + spec_u64_to_le_bytes(*vers) + spec_u64_to_le_bytes(
                        kvs@.len() as u64,
                    ) + spec_encode_pairs(kvs@, i as int + 1));
                }
                i = i + 1;
            }
            proof {
                assert(out@ =~= spec_encode_operation(*op));
            }
        },
    }
    out
}

/// The header shape of an Extend encoding.
proof fn lemma_extend_count(bytes: Seq<u8>, kvs2: Vec<(KeyHash, Option<Vec<u8>>)>, v2: u64)
    requires
        op_encodable(Operation::Extend(kvs2, v2)),
        bytes == spec_encode_operation(Operation::Extend(kvs2, v2)),
    ensures
        bytes.len() == 17 + spec_encode_pairs(kvs2@, kvs2@.len() as int).len(),
        bytes.subrange(9, 17) == spec_u64_to_le_bytes(kvs2@.len() as u64),
        bytes[0] == 2,
{
    vstd::bytes::lemma_auto_spec_u64_to_from_le_bytes();
    assert forall|t: int|
        #![trigger bytes.subrange(9, 17)[t]]
        0 <= t < 8 implies bytes.subrange(9, 17)[t] == spec_u64_to_le_bytes(
        kvs2@.len() as u64,
    )[t] by {
        assert(bytes[9 + t] == spec_u64_to_le_bytes(kvs2@.len() as u64)[t]);
    }
    assert(bytes.subrange(9, 17) =~= spec_u64_to_le_bytes(kvs2@.len() as u64));
}

/// At parse position `pos`, the bytes of an Extend encoding hold the `i`-th
/// pair: 32 key-hash bytes, then the optional value's serialization, all
/// within bounds.
proof fn lemma_extend_at(
    bytes: Seq<u8>,
    kvs2: Vec<(KeyHash, Option<Vec<u8>>)>,
    v2: u64,
    i: int,
    pos: int,
)
    requires
        op_encodable(Operation::Extend(kvs2, v2)),
        bytes == spec_encode_operation(Operation::Extend(kvs2, v2)),
        0 <= i < kvs2@.len(),
        pos == 17 + spec_encode_pairs(kvs2@, i).len(),
    ensures
        pos + 32 + spec_encode_opt_value(opt_view(kvs2@[i].1)).len() <= bytes.len(),
        spec_encode_opt_value(opt_view(kvs2@[i].1)).len() >= 1,
        bytes.subrange(pos, pos + 32) == kvs2@[i].0@,
        bytes.subrange(pos + 32, pos + 32 + spec_encode_opt_value(opt_view(kvs2@[i].1)).len())
            == spec_encode_opt_value(opt_view(kvs2@[i].1)),
        match kvs2@[i].1 {
            Some(b) => b@.len() < 0x1_0000_0000,
            None => true,
        },
{
    vstd::bytes::lemma_auto_spec_u64_to_from_le_bytes();
    let n = kvs2@.len() as int;
    let pi = spec_encode_pairs(kvs2@, i).len() as int;
    let key = kvs2@[i].0@;
    let encv = spec_encode_opt_value(opt_view(kvs2@[i].1));
    assert(spec_encode_pairs(kvs2@, i + 1) == spec_encode_pairs(kvs2@, i) + key + encv);
    assert(key.len() == 32);
    assert(encv.len() >= 1) by {
        match opt_view(kvs2@[i].1) {
            Some(b) => {},
            None => {},
        }
    }
    lemma_pairs_len_mono(kvs2@, i + 1, n);
    lemma_pairs_prefix(kvs2@, i + 1, n);
    let pn = spec_encode_pairs(kvs2@, n);
    let pnext = spec_encode_pairs(kvs2@, i + 1);
    assert(bytes.len() == 17 + pn.len());
    assert forall|t: int|
        #![trigger bytes.subrange(pos, pos + 32)[t]]
        0 <= t < 32 implies bytes.subrange(pos, pos + 32)[t] == key[t] by {
        let j = pi + t;
        assert(pn.subrange(0, pnext.len() as int)[j] == pnext[j]);
        assert(pnext[j] == key[t]);
        assert(bytes[17 + j] == pn[j]);
    }
    assert(bytes.subrange(pos, pos + 32) =~= key);
    assert forall|t: int|
        #![trigger bytes.subrange(pos + 32, pos + 32 + encv.len())[t]]
        0 <= t < encv.len() implies bytes.subrange(pos + 32, pos + 32 + encv.len())[t]
        == encv[t] by {
        let j = pi + 32 + t;
        assert(pn.subrange(0, pnext.len() as int)[j] == pnext[j]);
        assert(pnext[j] == encv[t]);
        assert(bytes[17 + j] == pn[j]);
    }
    assert(bytes.subrange(pos + 32, pos + 32 + encv.len()) =~= encv);
}

/// Deserialize one operation from the log's byte format. Fails as `Codec`
/// on anything that is not exactly one serialized operation; succeeds on
/// every exact encoding of an operation in serializable shape.
pub fn decode_operation(bytes: &Vec<u8>) -> (r: Result<Operation, LeftRightTrieError>)
    ensures
        r matches Ok(op) ==> bytes@ == spec_encode_operation(op),
        r matches Err(e) ==> e is Codec,
        (exists|op2: Operation| #[trigger] op_encodable(op2) && bytes@ == spec_encode_operation(op2))
            ==> r is Ok,
{
    proof {
        vstd::bytes::lemma_auto_spec_u64_to_from_le_bytes();
        if exists|op2: Operation| #[trigger] op_encodable(op2) && bytes@ == spec_encode_operation(
            op2,
        ) {
            let op2 = choose|op2: Operation|
                #[trigger] op_encodable(op2) && bytes@ == spec_encode_operation(op2);
            match op2 {
                Operation::Add((k2, v2), r2) => {
                    assert(bytes@[0] == 0);
                    assert(bytes@.len() == 41 + spec_encode_opt_value(opt_view(v2)).len());
                    assert(spec_encode_opt_value(opt_view(v2)).len() >= 1) by {
                        match opt_view(v2) {
                            Some(b) => {},
                            None => {},
                        }
                    }
                },
                Operation::Remove(k2, r2) => {
                    assert(bytes@[0] == 1);
                    assert(bytes@.len() == 41);
                },
                Operation::Extend(kvs2, r2) => {
                    assert(bytes@[0] == 2);
                    assert(bytes@.len() == 17 + spec_encode_pairs(kvs2@, kvs2@.len() as int).len());
                    lemma_pairs_len_mono(kvs2@, 0, kvs2@.len() as int);
                },
            }
        }
    }
    if bytes.len() < 9 {
        return Err(LeftRightTrieError::Codec("truncated operation".to_owned()));
    }
    let tag = bytes[0];
    let vers = u64_from_le_bytes(slice_subrange(bytes.as_slice(), 1, 9));
    proof {
        vstd::bytes::lemma_auto_spec_u64_to_from_le_bytes();
        assert(bytes@.subrange(1, 9) =~= spec_u64_to_le_bytes(vers)) by {
            assert(vers == vstd::bytes::spec_u64_from_le_bytes(bytes@.subrange(1, 9)));
        }
    }
    if tag == 0 {
        if bytes.len() < 42 {
            return Err(LeftRightTrieError::Codec("truncated add".to_owned()));
        }
        let key = KeyHash::from_bytes(slice_to_vec(slice_subrange(bytes.as_slice(), 9, 41)));
        proof {
            if exists|op2: Operation| #[trigger] op_encodable(op2) && bytes@
                == spec_encode_operation(op2) {
                let op2 = choose|op2: Operation|
                    #[trigger] op_encodable(op2) && bytes@ == spec_encode_operation(op2);
                match op2 {
                    Operation::Add((k2, v2), r2) => {
                        let enc = spec_encode_opt_value(opt_view(v2));
                        assert forall|t: int|
                            #![trigger bytes@.subrange(41, bytes@.len() as int)[t]]
                            0 <= t < enc.len() implies bytes@.subrange(
                            41,
                            bytes@.len() as int,
                        )[t] == enc[t] by {
                            assert(bytes@[41 + t] == enc[t]);
                        }
                        assert(bytes@.subrange(41, 41 + enc.len() as int) =~= enc);
                        match v2 {
                            Some(b) => {
                                assert(b@.len() < 0x1_0000_0000);
                            },
                            None => {},
                        }
                    },
                    Operation::Remove(k2, r2) => {
                        assert(false);
                    },
                    Operation::Extend(kvs2, r2) => {
                        assert(false);
                    },
                }
            }
        }
        let decoded = decode_opt_value(bytes, 41);
        let (value, used) = match decoded {
            Ok(pair) => pair,
            Err(e) => {
                return Err(LeftRightTrieError::Codec("bad value".to_owned()));
            },
        };
        if 41 + used != bytes.len() {
            return Err(LeftRightTrieError::Codec("trailing bytes".to_owned()));
        }
        let op = Operation::Add((key, value), vers);
        proof {
            assert(bytes@ =~= spec_encode_operation(op));
        }
        Ok(op)
    } else if tag == 1 {
        if bytes.len() != 41 {
            return Err(LeftRightTrieError::Codec("truncated remove".to_owned()));
        }
        let key = KeyHash::from_bytes(slice_to_vec(slice_subrange(bytes.as_slice(), 9, 41)));
        let op = Operation::Remove(key, vers);
        proof {
            assert(bytes@ =~= spec_encode_operation(op));
        }
        Ok(op)
    } else if tag == 2 {
        if bytes.len() < 17 {
            return Err(LeftRightTrieError::Codec("truncated extend".to_owned()));
        }
        let count = u64_from_le_bytes(slice_subrange(bytes.as_slice(), 9, 17));
        proof {
            vstd::bytes::lemma_auto_spec_u64_to_from_le_bytes();
            assert(bytes@.subrange(9, 17) =~= spec_u64_to_le_bytes(count)) by {
                assert(count == vstd::bytes::spec_u64_from_le_bytes(bytes@.subrange(9, 17)));
            }
        }
        let mut kvs: Vec<(KeyHash, Option<OwnedValue>)> = Vec::new();
        let mut pos: usize = 17;
        let mut i: u64 = 0;
        while i < count
            invariant
                i <= count,
                kvs@.len() == i,
                17 <= pos <= bytes@.len(),
                9 <= bytes@.len(),
                bytes@[0] == 2,
                bytes@.subrange(17, pos as int) == spec_encode_pairs(kvs@, i as int),
                count == vstd::bytes::spec_u64_from_le_bytes(bytes@.subrange(9, 17)),
                forall|kvs2: Vec<(KeyHash, Option<Vec<u8>>)>, v2: u64|
                    #[trigger] op_encodable(Operation::Extend(kvs2, v2)) && bytes@
                        == spec_encode_operation(Operation::Extend(kvs2, v2)) ==> pos == 17
                        + spec_encode_pairs(kvs2@, i as int).len(),
            decreases count - i,
        {
            proof {
                assert forall|kvs2: Vec<(KeyHash, Option<Vec<u8>>)>, v2: u64|
                    #[trigger] op_encodable(Operation::Extend(kvs2, v2)) && bytes@
                        == spec_encode_operation(Operation::Extend(kvs2, v2)) implies pos + 32
                    < bytes@.len() && (match kvs2@[i as int].1 {
                    Some(b) => b@.len() < 0x1_0000_0000,
                    None => true,
                }) && bytes@.subrange(pos as int, pos + 32) == kvs2@[i as int].0@
                    && pos + 32 + spec_encode_opt_value(opt_view(kvs2@[i as int].1)).len()
                    <= bytes@.len() && bytes@.subrange(
                    pos + 32,
                    pos + 32 + spec_encode_opt_value(opt_view(kvs2@[i as int].1)).len(),
                ) == spec_encode_opt_value(opt_view(kvs2@[i as int].1)) by {
                    vstd::bytes::lemma_auto_spec_u64_to_from_le_bytes();
                    lemma_extend_count(bytes@, kvs2, v2);
                    assert(count == kvs2@.len());
                    lemma_extend_at(bytes@, kvs2, v2, i as int, pos as int);
                }
            }
            if bytes.len() - pos < 32 {
                return Err(LeftRightTrieError::Codec("truncated pair".to_owned()));
            }
            let key = KeyHash::from_bytes(
                slice_to_vec(slice_subrange(bytes.as_slice(), pos, pos + 32)),
            );
            let decoded = decode_opt_value(bytes, pos + 32);
            let (value, used) = match decoded {
                Ok(pair) => pair,
                Err(e) => {
                    proof {
                        assert forall|kvs2: Vec<(KeyHash, Option<Vec<u8>>)>, v2: u64|
                            #[trigger] op_encodable(Operation::Extend(kvs2, v2)) && bytes@
                                == spec_encode_operation(Operation::Extend(kvs2, v2))
                            implies false by {
                            assert(decoded matches Ok(pr) && pr.1 == spec_encode_opt_value(
                                opt_view(kvs2@[i as int].1),
                            ).len());
                        }
                    }
                    return Err(LeftRightTrieError::Codec("bad value".to_owned()));
                },
            };
            let ghost kvs_before = kvs@;
            let ghost pos_before = pos as int;
            kvs.push((key, value));
            pos = pos + 32 + used;
            proof {
                assert(kvs@ =~= kvs_before.push(kvs@.last()));
                assert(bytes@.subrange(17, pos as int) =~= spec_encode_pairs(kvs@, i as int + 1))
                    by {
                    assert(spec_encode_pairs(kvs@, i as int) == spec_encode_pairs(
                        kvs_before,
                        i as int,
                    )) by {
                        lemma_encode_pairs_prefix(kvs_before, kvs@, i as int);
                    }
                    assert(bytes@.subrange(17, pos_before) == spec_encode_pairs(kvs@, i as int));
                    assert(bytes@.subrange(pos_before, pos_before + 32) =~= kvs@.last().0@);
                    assert(bytes@.subrange(17, pos as int) =~= bytes@.subrange(17, pos_before)
                        + bytes@.subrange(pos_before, pos_before + 32) + bytes@.subrange(
                        pos_before + 32,
                        pos as int,
                    ));
                }
                assert forall|kvs2: Vec<(KeyHash, Option<Vec<u8>>)>, v2: u64|
                    #[trigger] op_encodable(Operation::Extend(kvs2, v2)) && bytes@
                        == spec_encode_operation(Operation::Extend(kvs2, v2)) implies pos == 17
                    + spec_encode_pairs(kvs2@, i as int + 1).len() by {
                    vstd::bytes::lemma_auto_spec_u64_to_from_le_bytes();
                    lemma_extend_count(bytes@, kvs2, v2);
                    assert(count == kvs2@.len());
                    assert(spec_encode_pairs(kvs2@, i as int + 1) == spec_encode_pairs(
                        kvs2@,
                        i as int,
                    ) + kvs2@[i as int].0@ + spec_encode_opt_value(opt_view(kvs2@[i as int].1)));
                    let encv = spec_encode_opt_value(opt_view(kvs2@[i as int].1));
                    lemma_extend_at(bytes@, kvs2, v2, i as int, pos_before);
                    assert(used == encv.len());
                    assert(kvs2@[i as int].0@.len() == 32);
                }
            }
            i = i + 1;
        }
        proof {
            assert forall|kvs2: Vec<(KeyHash, Option<Vec<u8>>)>, v2: u64|
                #[trigger] op_encodable(Operation::Extend(kvs2, v2)) && bytes@
                    == spec_encode_operation(Operation::Extend(kvs2, v2)) implies pos
                == bytes@.len() by {
                vstd::bytes::lemma_auto_spec_u64_to_from_le_bytes();
                lemma_extend_count(bytes@, kvs2, v2);
                assert(count == kvs2@.len());
            }
        }
        if pos != bytes.len() {
            return Err(LeftRightTrieError::Codec("trailing bytes".to_owned()));
        }
        let op = Operation::Extend(kvs, vers);
        proof {
            assert(kvs@.len() == count);
            assert(bytes@ =~= spec_encode_operation(op));
        }
        Ok(op)
    } else {
        Err(LeftRightTrieError::Codec("unknown tag".to_owned()))
    }
}

/// The encoding of the first `n` pairs only reads those pairs.
proof fn lemma_encode_pairs_prefix(
    a: Seq<(KeyHash, Option<Vec<u8>>)>,
    b: Seq<(KeyHash, Option<Vec<u8>>)>,
    n: int,
)
    requires
        n <= a.len(),
        n <= b.len(),
        forall|i: int| 0 <= i < n ==> a[i] == b[i],
    ensures
        spec_encode_pairs(a, n) == spec_encode_pairs(b, n),
    decreases n,
{
    if n > 0 {
        lemma_encode_pairs_prefix(a, b, n - 1);
    }
}

/// Deserialize an optional value starting at `pos`; returns the value and
/// the number of bytes consumed. Succeeds, with the exact value and length,
/// whenever the bytes at `pos` begin with an optional value's serialization.
fn decode_opt_value(bytes: &Vec<u8>, pos: usize) -> (r: Result<
    (Option<OwnedValue>, usize),
    LeftRightTrieError,
>)
    requires
        pos <= bytes@.len(),
    ensures
        r matches Ok((v, used)) ==> pos + used <= bytes@.len() && bytes@.subrange(
            pos as int,
            pos + used,
        ) == spec_encode_opt_value(opt_view(v)),
        r matches Err(e) ==> e is Codec,
        forall|vv: Option<Seq<u8>>|
            #![trigger spec_encode_opt_value(vv)]
            (match vv {
                Some(b) => b.len() < 0x1_0000_0000,
                None => true,
            }) && pos + spec_encode_opt_value(vv).len() <= bytes@.len() && bytes@.subrange(
                pos as int,
                pos + spec_encode_opt_value(vv).len(),
            ) == spec_encode_opt_value(vv) ==> (r matches Ok((v2, used)) && used
                == spec_encode_opt_value(vv).len() && opt_view(v2) == vv),
{
    proof {
        vstd::bytes::lemma_auto_spec_u64_to_from_le_bytes();
        assert forall|vv: Option<Seq<u8>>| #[trigger]
            spec_encode_opt_value(vv).len() >= 1 && spec_encode_opt_value(vv)[0] == (match vv {
            Some(b) => 1u8,
            None => 0u8,
        }) by {
            match vv {
                Some(b) => {},
                None => {},
            }
        }
    }
    if pos >= bytes.len() {
        return Err(LeftRightTrieError::Codec("truncated value".to_owned()));
    }
    let flag = bytes[pos];
    if flag == 0 {
        let r = (None::<OwnedValue>, 1usize);
        proof {
            assert(bytes@.subrange(pos as int, pos + 1) =~= seq![0u8]);
            assert forall|vv: Option<Seq<u8>>|
                pos + spec_encode_opt_value(vv).len() <= bytes@.len() && bytes@.subrange(
                    pos as int,
                    pos + spec_encode_opt_value(vv).len(),
                ) == spec_encode_opt_value(vv) implies #[trigger] spec_encode_opt_value(vv).len()
                == 1 && vv is None by {
                assert(spec_encode_opt_value(vv)[0] == bytes@[pos as int]);
            }
        }
        Ok(r)
    } else if flag == 1 {
        if bytes.len() - pos < 9 {
            proof {
                assert forall|vv: Option<Seq<u8>>|
                    (match vv {
                        Some(b) => b.len() < 0x1_0000_0000,
                        None => true,
                    }) && pos + (#[trigger] spec_encode_opt_value(vv)).len() <= bytes@.len()
                        && bytes@.subrange(
                        pos as int,
                        pos + spec_encode_opt_value(vv).len(),
                    ) == spec_encode_opt_value(vv) implies false by {
                    assert(spec_encode_opt_value(vv)[0] == bytes@[pos as int]);
                    assert(vv is Some);
                    assert(spec_encode_opt_value(vv).len() >= 9);
                }
            }
            return Err(LeftRightTrieError::Codec("truncated length".to_owned()));
        }
        let len64 = u64_from_le_bytes(slice_subrange(bytes.as_slice(), pos + 1, pos + 9));
        proof {
            assert forall|vv: Option<Seq<u8>>|
                (match vv {
                    Some(b) => b.len() < 0x1_0000_0000,
                    None => true,
                }) && pos + (#[trigger] spec_encode_opt_value(vv)).len() <= bytes@.len()
                    && bytes@.subrange(pos as int, pos + spec_encode_opt_value(vv).len())
                    == spec_encode_opt_value(vv) implies vv matches Some(b) && len64 == b.len()
                    && spec_encode_opt_value(vv).len() == 9 + b.len() by {
                assert(spec_encode_opt_value(vv)[0] == bytes@[pos as int]);
                let b = vv.unwrap();
                assert forall|t: int|
                    #![trigger bytes@.subrange(pos + 1, pos + 9)[t]]
                    0 <= t < 8 implies bytes@.subrange(pos + 1, pos + 9)[t]
                    == spec_u64_to_le_bytes(b.len() as u64)[t] by {
                    assert(bytes@.subrange(
                        pos as int,
                        pos + spec_encode_opt_value(vv).len(),
                    )[1 + t] == spec_encode_opt_value(vv)[1 + t]);
                    assert(spec_encode_opt_value(vv)[1 + t] == spec_u64_to_le_bytes(
                        b.len() as u64,
                    )[t]);
                }
                assert(bytes@.subrange(pos + 1, pos + 9) =~= spec_u64_to_le_bytes(
                    b.len() as u64,
                ));
                assert(len64 == vstd::bytes::spec_u64_from_le_bytes(
                    bytes@.subrange(pos + 1, pos + 9),
                ));
            }
        }
        if len64 >= 0x1_0000_0000 {
            return Err(LeftRightTrieError::Codec("oversized value".to_owned()));
        }
        let len = len64 as usize;
        if bytes.len() - (pos + 9) < len {
            return Err(LeftRightTrieError::Codec("truncated bytes".to_owned()));
        }
        let value = slice_to_vec(slice_subrange(bytes.as_slice(), pos + 9, pos + 9 + len));
        let used = 9 + len;
        proof {
            vstd::bytes::lemma_auto_spec_u64_to_from_le_bytes();
            assert(bytes@.subrange(pos + 1, pos + 9) =~= spec_u64_to_le_bytes(len64)) by {
                assert(len64 == vstd::bytes::spec_u64_from_le_bytes(
                    bytes@.subrange(pos + 1, pos + 9),
                ));
            }
            assert(value@.len() as u64 == len64);
            assert(bytes@.subrange(pos as int, pos + used) =~= seq![1u8] + spec_u64_to_le_bytes(
                value@.len() as u64,
            ) + value@);
            assert forall|vv: Option<Seq<u8>>|
                (match vv {
                    Some(b) => b.len() < 0x1_0000_0000,
                    None => true,
                }) && pos + (#[trigger] spec_encode_opt_value(vv)).len() <= bytes@.len()
                    && bytes@.subrange(pos as int, pos + spec_encode_opt_value(vv).len())
                    == spec_encode_opt_value(vv) implies opt_view(Some(value)) == vv && used
                    == spec_encode_opt_value(vv).len() by {
                assert(spec_encode_opt_value(vv)[0] == bytes@[pos as int]);
                let b = vv.unwrap();
                assert forall|t: int|
                    #![trigger bytes@.subrange(pos + 1, pos + 9)[t]]
                    0 <= t < 8 implies bytes@.subrange(pos + 1, pos + 9)[t]
                    == spec_u64_to_le_bytes(b.len() as u64)[t] by {
                    assert(bytes@.subrange(
                        pos as int,
                        pos + spec_encode_opt_value(vv).len(),
                    )[1 + t] == spec_encode_opt_value(vv)[1 + t]);
                    assert(spec_encode_opt_value(vv)[1 + t] == spec_u64_to_le_bytes(
                        b.len() as u64,
                    )[t]);
                }
                assert(bytes@.subrange(pos + 1, pos + 9) =~= spec_u64_to_le_bytes(b.len() as u64));
                assert(len64 == b.len());
                assert forall|t: int|
                    #![trigger b[t]]
                    0 <= t < b.len() implies b[t] == bytes@.subrange(pos + 9, pos + 9 + len)[t] by {
                    assert(bytes@.subrange(
                        pos as int,
                        pos + spec_encode_opt_value(vv).len(),
                    )[9 + t] == spec_encode_opt_value(vv)[9 + t]);
                    assert(spec_encode_opt_value(vv)[9 + t] == b[t]);
                }
                assert(b =~= bytes@.subrange(pos + 9, pos + 9 + len));
                assert(value@ == b);
            }
        }
        Ok((Some(value), used))
    } else {
        proof {
            assert forall|vv: Option<Seq<u8>>|
                pos + (#[trigger] spec_encode_opt_value(vv)).len() <= bytes@.len()
                    && bytes@.subrange(pos as int, pos + spec_encode_opt_value(vv).len())
                    == spec_encode_opt_value(vv) implies false by {
                assert(spec_encode_opt_value(vv)[0] == bytes@[pos as int]);
            }
        }
        Err(LeftRightTrieError::Codec("bad presence byte".to_owned()))
    }
}

} // verus!
