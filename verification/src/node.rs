//! Tree nodes as persisted by a backend: content-addressed by (version,
//! nibble path), serialized with a fixed-width byte codec.

use crate::assoc::bytes_clone;
use crate::digest::KeyHash;
use crate::errors::LeftRightTrieError;
use crate::tree_hash::{internal_hash, leaf_hash, placeholder_hash};
use vstd::bytes::{spec_u64_to_le_bytes, u64_from_le_bytes, u64_to_le_bytes};
use vstd::slice::{slice_subrange, slice_to_vec};
use vstd::prelude::*;

verus! {

/// Addresses a node: the version that created it and its nibble path from
/// the root.
#[derive(Debug)]
pub struct NodeKey {
    pub version: u64,
    pub nibble_path: Vec<u8>,
}

impl NodeKey {
    /// Paths hold at most 64 nibbles, each below 16.
    pub open spec fn wf(&self) -> bool {
        &&& self.nibble_path@.len() <= 64
        &&& forall|i: int|
            0 <= i < self.nibble_path@.len() ==> (#[trigger] self.nibble_path@[i]) < 16
    }
}

impl Clone for NodeKey {
    fn clone(&self) -> (r: Self)
        ensures
            r.version == self.version,
            r.nibble_path@ == self.nibble_path@,
    {
        NodeKey { version: self.version, nibble_path: bytes_clone(&self.nibble_path) }
    }
}

/// A tree node: an internal node carrying its 16 children's concatenated
/// hashes, a leaf carrying a key hash and its value's digest, or the
/// explicit empty node.
#[derive(Debug)]
pub enum Node {
    Null,
    Leaf { key_hash: KeyHash, value_hash: Vec<u8> },
    Internal { children: Vec<u8> },
}

impl Node {
    /// Leaves carry a 32-byte key hash and a 32-byte value digest;
    /// internal nodes carry 16 32-byte child hashes.
    pub open spec fn wf(&self) -> bool {
        match self {
            Node::Null => true,
            Node::Leaf { key_hash, value_hash } => key_hash@.len() == 32 && value_hash@.len()
                == 32,
            Node::Internal { children } => children@.len() == 512,
        }
    }

    /// The hash the node commits to.
    pub open spec fn node_hash(&self) -> Seq<u8> {
        match self {
            Node::Null => placeholder_hash(),
            Node::Leaf { key_hash, value_hash } => leaf_hash(key_hash@, value_hash@),
            Node::Internal { children } => internal_hash(children@),
        }
    }
}

impl Clone for Node {
    fn clone(&self) -> (r: Self)
        ensures
            r.node_hash() == self.node_hash(),
            r.wf() == self.wf(),
            spec_encode_node(r) == spec_encode_node(*self),
    {
        match self {
            Node::Null => Node::Null,
            Node::Leaf { key_hash, value_hash } => Node::Leaf {
                key_hash: key_hash.clone(),
                value_hash: bytes_clone(value_hash),
            },
            Node::Internal { children } => Node::Internal { children: bytes_clone(children) },
        }
    }
}

/// Marks a node superseded from `stale_since_version` on.
#[derive(Debug)]
pub struct StaleNodeIndex {
    pub stale_since_version: u64,
    pub node_key: NodeKey,
}

/// The new nodes and value-history deltas produced by applying one value
/// set at one version.
#[derive(Debug)]
pub struct NodeBatch {
    pub nodes: Vec<(NodeKey, Node)>,
    pub values: Vec<((u64, KeyHash), Option<Vec<u8>>)>,
}

/// Everything a versioned database persists for one update: the node batch
/// and the indices of nodes it superseded.
#[derive(Debug)]
pub struct TreeUpdateBatch {
    pub node_batch: NodeBatch,
    pub stale_node_index_batch: Vec<StaleNodeIndex>,
}

/// The serialized form of a node key: the version, little-endian, then the
/// nibble path.
pub open spec fn spec_encode_node_key(version: u64, path: Seq<u8>) -> Seq<u8> {
    spec_u64_to_le_bytes(version) + path
}

/// Serialize a node key.
pub fn encode_node_key(nk: &NodeKey) -> (r: Vec<u8>)
    ensures
        r@ == spec_encode_node_key(nk.version, nk.nibble_path@),
{
    let mut r = u64_to_le_bytes(nk.version);
    r.extend_from_slice(nk.nibble_path.as_slice());
    proof {
        assert(r@ =~= spec_u64_to_le_bytes(nk.version) + nk.nibble_path@);
    }
    r
}

/// Deserialize a node key. Fails as `CorruptNode` on a short buffer or an
/// out-of-range nibble; succeeds on every exact encoding of a well-formed
/// node key.
pub fn decode_node_key(bytes: &Vec<u8>) -> (r: Result<NodeKey, LeftRightTrieError>)
    ensures
        match r {
            Ok(nk) => nk.wf() && bytes@ == spec_encode_node_key(nk.version, nk.nibble_path@),
            Err(e) => e is CorruptNode,
        },
        (exists|nk: NodeKey|
            #[trigger] nk.wf() && bytes@ == spec_encode_node_key(nk.version, nk.nibble_path@))
            ==> r is Ok,
{
    proof {
        vstd::bytes::lemma_auto_spec_u64_to_from_le_bytes();
    }
    if bytes.len() < 8 || bytes.len() > 72 {
        proof {
            if exists|nk: NodeKey|
                #[trigger] nk.wf() && bytes@ == spec_encode_node_key(nk.version, nk.nibble_path@) {
                let nk = choose|nk: NodeKey|
                    #[trigger] nk.wf() && bytes@ == spec_encode_node_key(
                        nk.version,
                        nk.nibble_path@,
                    );
                assert(bytes@.len() == 8 + nk.nibble_path@.len());
            }
        }
        return Err(LeftRightTrieError::CorruptNode);
    }
    let version = u64_from_le_bytes(slice_subrange(bytes.as_slice(), 0, 8));
    let mut path: Vec<u8> = Vec::new();
    let mut i: usize = 8;
    while i < bytes.len()
        invariant
            8 <= i <= bytes@.len(),
            bytes@.len() <= 72,
            path@ == bytes@.subrange(8, i as int),
            forall|q: int| 0 <= q < path@.len() ==> (#[trigger] path@[q]) < 16,
        decreases bytes@.len() - i,
    {
        let b = bytes[i];
        if b >= 16 {
            proof {
                vstd::bytes::lemma_auto_spec_u64_to_from_le_bytes();
                if exists|nk: NodeKey|
                    #[trigger] nk.wf() && bytes@ == spec_encode_node_key(
                        nk.version,
                        nk.nibble_path@,
                    ) {
                    let nk = choose|nk: NodeKey|
                        #[trigger] nk.wf() && bytes@ == spec_encode_node_key(
                            nk.version,
                            nk.nibble_path@,
                        );
                    assert(spec_u64_to_le_bytes(nk.version).len() == 8);
                    assert(bytes@.len() == 8 + nk.nibble_path@.len());
                    assert(bytes@[i as int] == nk.nibble_path@[i - 8]);
                }
            }
            return Err(LeftRightTrieError::CorruptNode);
        }
        let ghost before = path@;
        path.push(b);
        proof {
            assert(path@ =~= bytes@.subrange(8, i + 1));
        }
        i = i + 1;
    }
    let nk = NodeKey { version, nibble_path: path };
    proof {
        vstd::bytes::lemma_auto_spec_u64_to_from_le_bytes();
        assert(bytes@.subrange(0, 8) =~= spec_u64_to_le_bytes(version)) by {
            assert(version == vstd::bytes::spec_u64_from_le_bytes(bytes@.subrange(0, 8)));
        }
        assert(bytes@ =~= spec_u64_to_le_bytes(version) + nk.nibble_path@);
    }
    Ok(nk)
}

/// The serialized form of a node: a tag byte, then the fixed-width fields.
pub open spec fn spec_encode_node(n: Node) -> Seq<u8> {
    match n {
        Node::Null => seq![0u8],
        Node::Leaf { key_hash, value_hash } => seq![1u8] + key_hash@ + value_hash@,
        Node::Internal { children } => seq![2u8] + children@,
    }
}

/// Serialize a node.
pub fn encode_node(n: &Node) -> (r: Vec<u8>)
    ensures
        r@ == spec_encode_node(*n),
{
    match n {
        Node::Null => {
            let mut r: Vec<u8> = Vec::new();
            r.push(0u8);
            proof {
                assert(r@ =~= seq![0u8]);
            }
            r
        },
        Node::Leaf { key_hash, value_hash } => {
            let mut r: Vec<u8> = Vec::new();
            r.push(1u8);
            r.extend_from_slice(key_hash.as_bytes().as_slice());
            r.extend_from_slice(value_hash.as_slice());
            proof {
                assert(r@ =~= seq![1u8] + key_hash@ + value_hash@);
            }
            r
        },
        Node::Internal { children } => {
            let mut r: Vec<u8> = Vec::new();
            r.push(2u8);
            r.extend_from_slice(children.as_slice());
            proof {
                assert(r@ =~= seq![2u8] + children@);
            }
            r
        },
    }
}

/// Equal encodings of well-formed nodes commit to equal hashes: the
/// encoding determines the node's content.
pub proof fn lemma_encoding_fixes_hash(a: Node, b: Node)
    requires
        a.wf(),
        b.wf(),
        spec_encode_node(a) == spec_encode_node(b),
    ensures
        a.node_hash() == b.node_hash(),
{
    lemma_encoding_shape(a);
    lemma_encoding_shape(b);
    let ea = spec_encode_node(a);
    match (a, b) {
        (Node::Null, Node::Null) => {},
        (
            Node::Leaf { key_hash: ka, value_hash: va },
            Node::Leaf { key_hash: kb, value_hash: vb },
        ) => {
            assert(ka@ =~= ea.subrange(1, 33));
            assert(va@ =~= ea.subrange(33, 65));
            assert(kb@ =~= ea.subrange(1, 33));
            assert(vb@ =~= ea.subrange(33, 65));
        },
        (Node::Internal { children: ca }, Node::Internal { children: cb }) => {
            assert(ca@ =~= ea.subrange(1, 513));
            assert(cb@ =~= ea.subrange(1, 513));
        },
        _ => {
            assert(false);
        },
    }
}

/// The tag and length of a well-formed node's encoding, fixed per variant.
proof fn lemma_encoding_shape(n: Node)
    requires
        n.wf(),
    ensures
        spec_encode_node(n).len() >= 1,
        spec_encode_node(n)[0] == 0 ==> n is Null && spec_encode_node(n).len() == 1,
        spec_encode_node(n)[0] == 1 ==> n is Leaf && spec_encode_node(n).len() == 65,
        spec_encode_node(n)[0] == 2 ==> n is Internal && spec_encode_node(n).len() == 513,
        spec_encode_node(n)[0] == 0 || spec_encode_node(n)[0] == 1 || spec_encode_node(n)[0] == 2,
{
    match n {
        Node::Null => {},
        Node::Leaf { key_hash, value_hash } => {
            assert(spec_encode_node(n)[0] == 1);
        },
        Node::Internal { children } => {
            assert(spec_encode_node(n)[0] == 2);
        },
    }
}

/// Deserialize a node. Fails as `CorruptNode` on an unknown tag or a
/// mis-sized body; succeeds on every exact encoding of a well-formed node.
pub fn decode_node(bytes: &Vec<u8>) -> (r: Result<Node, LeftRightTrieError>)
    ensures
        match r {
            Ok(n) => n.wf() && bytes@ == spec_encode_node(n),
            Err(e) => e is CorruptNode,
        },
        (exists|n: Node| #[trigger] n.wf() && bytes@ == spec_encode_node(n)) ==> r is Ok,
{
    proof {
        if exists|n: Node| #[trigger] n.wf() && bytes@ == spec_encode_node(n) {
            let n = choose|n: Node| #[trigger] n.wf() && bytes@ == spec_encode_node(n);
            lemma_encoding_shape(n);
        }
    }
    if bytes.len() == 0 {
        return Err(LeftRightTrieError::CorruptNode);
    }
    let tag = bytes[0];
    if tag == 0 {
        if bytes.len() != 1 {
            return Err(LeftRightTrieError::CorruptNode);
        }
        proof {
            assert(bytes@ =~= seq![0u8]);
        }
        Ok(Node::Null)
    } else if tag == 1 {
        if bytes.len() != 65 {
            return Err(LeftRightTrieError::CorruptNode);
        }
        let key_bytes = slice_to_vec(slice_subrange(bytes.as_slice(), 1, 33));
        let value_hash = slice_to_vec(slice_subrange(bytes.as_slice(), 33, 65));
        let n = Node::Leaf { key_hash: KeyHash::from_bytes(key_bytes), value_hash };
        proof {
            assert(bytes@ =~= spec_encode_node(n));
        }
        Ok(n)
    } else if tag == 2 {
        if bytes.len() != 513 {
            return Err(LeftRightTrieError::CorruptNode);
        }
        let children = slice_to_vec(slice_subrange(bytes.as_slice(), 1, 513));
        let n = Node::Internal { children };
        proof {
            assert(bytes@ =~= spec_encode_node(n));
        }
        Ok(n)
    } else {
        Err(LeftRightTrieError::CorruptNode)
    }
}

} // verus!
