//! The authenticated structure of the tree: a sparse radix-16 Merkle tree
//! over 32-byte key hashes. Each leaf commits to a key hash and the digest
//! of its value; each internal node commits to its 16 children. A subtree
//! holding one leaf hashes as that leaf; an empty subtree hashes as a
//! 32-byte placeholder.

use crate::assoc::{assoc_get, unique_keys};
use crate::digest::{nibble_of, sha256_digest, sha256_of, KeyHash};
use vstd::prelude::*;

verus! {

/// A leaf set: (key hash, value-hash) pairs.
pub type Leaves = Seq<(Seq<u8>, Seq<u8>)>;

/// The hash of an empty subtree: 32 zero bytes.
pub open spec fn placeholder_hash() -> Seq<u8> {
    Seq::new(32, |i: int| 0u8)
}

/// What a leaf node commits to.
pub open spec fn leaf_hash(key: Seq<u8>, value_hash: Seq<u8>) -> Seq<u8> {
    sha256_of(seq![0u8] + key + value_hash)
}

/// What an internal node commits to: the concatenation of its 16 children's
/// hashes, domain-separated from leaves.
pub open spec fn internal_hash(children: Seq<u8>) -> Seq<u8> {
    sha256_of(seq![1u8] + children)
}

/// Leaves are well-formed: 32-byte keys, no key twice.
pub open spec fn wf_leaves(s: Leaves) -> bool {
    &&& unique_keys(s)
    &&& forall|i: int| 0 <= i < s.len() ==> (#[trigger] s[i]).0.len() == 32
}

/// All leaves agree with `key` on the first `depth` nibbles.
pub open spec fn on_path(s: Leaves, key: Seq<u8>, depth: int) -> bool {
    forall|i: int, d: int|
        0 <= i < s.len() && 0 <= d < depth ==> #[trigger] nibble_of(s[i].0, d) == nibble_of(key, d)
}

/// All leaves agree with each other on the first `depth` nibbles.
pub open spec fn share_prefix(s: Leaves, depth: int) -> bool {
    forall|i: int, j: int, d: int|
        0 <= i < s.len() && 0 <= j < s.len() && 0 <= d < depth ==> #[trigger] nibble_of(s[i].0, d)
            == #[trigger] nibble_of(s[j].0, d)
}

/// The leaves whose key has nibble `nib` at position `depth`.
pub open spec fn group(s: Leaves, depth: int, nib: u8) -> Leaves
    decreases s.len(),
{
    if s.len() == 0 {
        Seq::empty()
    } else if nibble_of(s[0].0, depth) == nib {
        seq![s[0]] + group(s.drop_first(), depth, nib)
    } else {
        group(s.drop_first(), depth, nib)
    }
}

/// The root hash of the subtree at `depth` holding the given leaves.
pub open spec fn subtree_root(s: Leaves, depth: int) -> Seq<u8>
    decreases 64 - depth, 17int,
{
    if s.len() == 0 {
        placeholder_hash()
    } else if s.len() == 1 {
        leaf_hash(s[0].0, s[0].1)
    } else if depth < 0 || depth >= 64 {
        placeholder_hash()
    } else {
        internal_hash(children_concat(s, depth, 16))
    }
}

/// The concatenated hashes of children `0 .. n` of the subtree at `depth`.
pub open spec fn children_concat(s: Leaves, depth: int, n: int) -> Seq<u8>
    decreases 64 - depth, n,
{
    if n <= 0 || depth < 0 || depth >= 64 {
        Seq::empty()
    } else {
        children_concat(s, depth, n - 1) + subtree_root(group(s, depth, (n - 1) as u8), depth + 1)
    }
}

/// Group distributes over appending one leaf.
pub proof fn lemma_group_push(s: Leaves, x: (Seq<u8>, Seq<u8>), depth: int, nib: u8)
    ensures
        nibble_of(x.0, depth) == nib ==> group(s.push(x), depth, nib) == group(s, depth, nib).push(
            x,
        ),
        nibble_of(x.0, depth) != nib ==> group(s.push(x), depth, nib) == group(s, depth, nib),
    decreases s.len(),
{
    if s.len() == 0 {
        assert(s.push(x).drop_first() =~= Seq::<(Seq<u8>, Seq<u8>)>::empty());
        assert(s.push(x)[0] == x);
        assert(group(Seq::<(Seq<u8>, Seq<u8>)>::empty(), depth, nib) =~= Seq::<
            (Seq<u8>, Seq<u8>),
        >::empty());
        assert(s =~= Seq::<(Seq<u8>, Seq<u8>)>::empty());
        if nibble_of(x.0, depth) == nib {
            assert(group(s.push(x), depth, nib) =~= group(s, depth, nib).push(x));
        } else {
            assert(group(s.push(x), depth, nib) =~= group(s, depth, nib));
        }
    } else {
        assert(s.push(x).drop_first() =~= s.drop_first().push(x));
        lemma_group_push(s.drop_first(), x, depth, nib);
        assert(s.push(x)[0] == s[0]);
        if nibble_of(s[0].0, depth) == nib {
            if nibble_of(x.0, depth) == nib {
                assert(group(s.push(x), depth, nib) =~= group(s, depth, nib).push(x));
            } else {
                assert(group(s.push(x), depth, nib) =~= group(s, depth, nib));
            }
        }
    }
}

/// Every grouped leaf is one of the originals, with the selecting nibble.
pub proof fn lemma_group_membership(s: Leaves, depth: int, nib: u8)
    ensures
        forall|i: int|
            0 <= i < group(s, depth, nib).len() ==> exists|j: int|
                0 <= j < s.len() && s[j] == #[trigger] group(s, depth, nib)[i],
        forall|i: int|
            0 <= i < group(s, depth, nib).len() ==> nibble_of(
                (#[trigger] group(s, depth, nib)[i]).0,
                depth,
            ) == nib,
        group(s, depth, nib).len() <= s.len(),
    decreases s.len(),
{
    let g = group(s, depth, nib);
    if s.len() > 0 {
        lemma_group_membership(s.drop_first(), depth, nib);
        let gt = group(s.drop_first(), depth, nib);
        assert forall|i: int| 0 <= i < g.len() implies exists|j: int|
            0 <= j < s.len() && s[j] == #[trigger] g[i] by {
            if nibble_of(s[0].0, depth) == nib && i == 0 {
                assert(s[0] == g[0]);
            } else {
                let off: int = if nibble_of(s[0].0, depth) == nib {
                    1
                } else {
                    0
                };
                assert(g[i] == gt[i - off]);
                let j = choose|j: int| 0 <= j < s.drop_first().len() && s.drop_first()[j] == gt[i
                    - off];
                assert(s[j + 1] == g[i]);
            }
        }
    }
}

/// Grouping keeps keys unique, key lengths, and path agreement, and refines
/// the prefix: all members agree with each other up to `depth + 1`.
pub proof fn lemma_group_wf(s: Leaves, depth: int, nib: u8)
    requires
        wf_leaves(s),
    ensures
        wf_leaves(group(s, depth, nib)),
        share_prefix(s, depth) ==> share_prefix(group(s, depth, nib), depth + 1),
    decreases s.len(),
{
    let g = group(s, depth, nib);
    lemma_group_membership(s, depth, nib);
    assert forall|i: int, j: int| 0 <= i < j < g.len() implies g[i].0 != g[j].0 by {
        lemma_group_distinct_pair(s, depth, nib, i, j);
    }
    assert forall|i: int| 0 <= i < g.len() implies (#[trigger] g[i]).0.len() == 32 by {
        let j = choose|j: int| 0 <= j < s.len() && s[j] == g[i];
    }
    if share_prefix(s, depth) {
        assert forall|i: int, j: int, d: int|
            0 <= i < g.len() && 0 <= j < g.len() && 0 <= d < depth + 1 implies #[trigger] nibble_of(
            g[i].0,
            d,
        ) == #[trigger] nibble_of(g[j].0, d) by {
            let ii = choose|ii: int| 0 <= ii < s.len() && s[ii] == g[i];
            let jj = choose|jj: int| 0 <= jj < s.len() && s[jj] == g[j];
            if d == depth {
                assert(nibble_of(g[i].0, depth) == nib);
                assert(nibble_of(g[j].0, depth) == nib);
            } else {
                assert(nibble_of(s[ii].0, d) == nibble_of(s[jj].0, d));
            }
        }
    }
}

/// Two members of one group come from distinct originals, so their keys
/// differ.
proof fn lemma_group_distinct_pair(s: Leaves, depth: int, nib: u8, i: int, j: int)
    requires
        unique_keys(s),
        0 <= i < j < group(s, depth, nib).len(),
    ensures
        group(s, depth, nib)[i].0 != group(s, depth, nib)[j].0,
    decreases s.len(),
{
    let g = group(s, depth, nib);
    let t = s.drop_first();
    let gt = group(t, depth, nib);
    assert(unique_keys(t)) by {
        assert(forall|a: int| 0 <= a < t.len() ==> (#[trigger] t[a]).0 == s[a + 1].0);
    }
    if nibble_of(s[0].0, depth) == nib {
        if i == 0 {
            lemma_group_membership(t, depth, nib);
            assert(g[j] == gt[j - 1]);
            let jj = choose|jj: int| 0 <= jj < t.len() && t[jj] == gt[j - 1];
            assert(s[jj + 1] == g[j]);
            assert(s[0].0 != s[jj + 1].0);
        } else {
            lemma_group_distinct_pair(t, depth, nib, i - 1, j - 1);
            assert(g[i] == gt[i - 1] && g[j] == gt[j - 1]);
        }
    } else {
        lemma_group_distinct_pair(t, depth, nib, i, j);
        assert(g[i] == gt[i] && g[j] == gt[j]);
    }
}

/// Looking a key up among the leaves is the same as looking it up in the
/// key's own nibble group.
pub proof fn lemma_group_assoc(s: Leaves, depth: int, key: Seq<u8>)
    ensures
        assoc_get(group(s, depth, nibble_of(key, depth)), key) == assoc_get(s, key),
    decreases s.len(),
{
    let nib = nibble_of(key, depth);
    let g = group(s, depth, nib);
    if s.len() > 0 {
        lemma_group_assoc(s.drop_first(), depth, key);
        if nibble_of(s[0].0, depth) == nib {
            assert(g == seq![s[0]] + group(s.drop_first(), depth, nib));
            assert(g.drop_first() =~= group(s.drop_first(), depth, nib));
            assert(g[0] == s[0]);
            if s[0].0 == key {
                assert(assoc_get(g, key) == Some(s[0].1));
            } else {
                assert(assoc_get(g, key) == assoc_get(g.drop_first(), key));
            }
        } else {
            // the head's nibble differs from the key's, so the head's key
            // cannot be the key
            assert(s[0].0 != key);
        }
    }
}

/// A proof, as specification data: the terminal leaf claim, if the walk
/// ended at a leaf, and the sibling levels, deepest first. Each level holds
/// the other 15 children's hashes of one internal node on the path, in
/// child order with the path child skipped.
#[verifier::ext_equal]
pub struct ProofView {
    pub leaf: Option<(Seq<u8>, Seq<u8>)>,
    pub levels: Seq<Seq<Seq<u8>>>,
}

/// The sibling hashes of the child `nib` at `depth`: the roots of the other
/// 15 children, in order.
pub open spec fn sibling_level(s: Leaves, depth: int, nib: u8) -> Seq<Seq<u8>> {
    Seq::new(
        15,
        |m: int|
            subtree_root(
                group(
                    s,
                    depth,
                    if m < nib {
                        m as u8
                    } else {
                        (m + 1) as u8
                    },
                ),
                depth + 1,
            ),
    )
}

/// The proof for `key` in the subtree at `depth`: walk the key's nibbles,
/// recording sibling levels, until the subtree holds at most one leaf.
pub open spec fn gen_proof(s: Leaves, key: Seq<u8>, depth: int) -> ProofView
    decreases 64 - depth,
{
    if s.len() == 0 {
        ProofView { leaf: None, levels: Seq::empty() }
    } else if s.len() == 1 {
        ProofView { leaf: Some(s[0]), levels: Seq::empty() }
    } else if depth < 0 || depth >= 64 {
        ProofView { leaf: None, levels: Seq::empty() }
    } else {
        let nib = nibble_of(key, depth);
        let sub = gen_proof(group(s, depth, nib), key, depth + 1);
        ProofView { leaf: sub.leaf, levels: sub.levels.push(sibling_level(s, depth, nib)) }
    }
}

/// The hash the proof's terminal stands for.
pub open spec fn base_hash(leaf: Option<(Seq<u8>, Seq<u8>)>) -> Seq<u8> {
    match leaf {
        None => placeholder_hash(),
        Some((lk, vh)) => leaf_hash(lk, vh),
    }
}

/// The concatenation of children `0 .. n` where child `nib` hashes to `h`
/// and the others come from the level, in order.
pub open spec fn insert_concat(level: Seq<Seq<u8>>, nib: u8, h: Seq<u8>, n: int) -> Seq<u8>
    decreases n,
{
    if n <= 0 {
        Seq::empty()
    } else {
        insert_concat(level, nib, h, n - 1) + (if n - 1 == nib {
            h
        } else if n - 1 < nib {
            level[n - 1]
        } else {
            level[n - 2]
        })
    }
}

/// Recompute the subtree root at `depth` from a base hash and the sibling
/// levels above it.
pub open spec fn fold_root(key: Seq<u8>, base: Seq<u8>, levels: Seq<Seq<Seq<u8>>>, depth: int) -> Seq<
    u8,
>
    decreases levels.len(),
{
    if levels.len() == 0 {
        base
    } else {
        internal_hash(
            insert_concat(
                levels.last(),
                nibble_of(key, depth),
                fold_root(key, base, levels.drop_last(), depth + 1),
                16,
            ),
        )
    }
}

/// Two keys agree on their first `n` nibbles.
pub open spec fn prefix_agrees(a: Seq<u8>, b: Seq<u8>, n: int) -> bool {
    forall|d: int| 0 <= d < n ==> #[trigger] nibble_of(a, d) == nibble_of(b, d)
}

/// What it means for a proof to check out against a root for a key: sound
/// shape, a terminal leaf on the key's path, and the folded hash equal to
/// the root.
pub open spec fn proof_checks(key: Seq<u8>, root: Seq<u8>, p: ProofView) -> bool {
    &&& p.levels.len() <= 64
    &&& forall|l: int| 0 <= l < p.levels.len() ==> (#[trigger] p.levels[l]).len() == 15
    &&& match p.leaf {
        None => true,
        Some((lk, vh)) => lk.len() == 32 && prefix_agrees(lk, key, p.levels.len() as int),
    }
    &&& fold_root(key, base_hash(p.leaf), p.levels, 0) == root
}

/// The claim a checked proof makes about the key: present with the given
/// value hash, or absent.
pub open spec fn proof_claims(p: ProofView, key: Seq<u8>) -> Option<Seq<u8>> {
    match p.leaf {
        Some((lk, vh)) => if lk == key {
            Some(vh)
        } else {
            None
        },
        None => None,
    }
}

/// Inserting the path child's root among its siblings rebuilds the whole
/// children concatenation.
proof fn lemma_insert_concat(s: Leaves, depth: int, nib: u8, n: int)
    requires
        0 <= depth < 64,
        nib < 16,
        0 <= n <= 16,
    ensures
        insert_concat(sibling_level(s, depth, nib), nib, subtree_root(group(s, depth, nib), depth + 1), n)
            == children_concat(s, depth, n),
    decreases n,
{
    if n > 0 {
        lemma_insert_concat(s, depth, nib, n - 1);
    }
}

/// With all leaves on the key's path and at least two of them, the depth is
/// strictly inside the key: distinct 32-byte keys cannot share all 64
/// nibbles.
pub proof fn lemma_depth_bound(s: Leaves, depth: int)
    requires
        wf_leaves(s),
        share_prefix(s, depth),
        s.len() >= 2,
        depth >= 0,
    ensures
        depth < 64,
{
    if depth >= 64 {
        assert forall|d: int| 0 <= d < 64 implies nibble_of(s[0].0, d) == nibble_of(s[1].0, d) by {
            assert(nibble_of(s[0].0, d) == nibble_of(s[1].0, d));
        }
        crate::digest::lemma_nibbles_determine_key(s[0].0, s[1].0);
        assert(s[0].0 != s[1].0);
    }
}

/// Leaves on a key's path share their prefix with each other.
pub proof fn lemma_on_path_share(s: Leaves, key: Seq<u8>, depth: int)
    requires
        on_path(s, key, depth),
    ensures
        share_prefix(s, depth),
{
}

/// Soundness and claim-exactness of generated proofs: the proof for any key
/// folds back to the subtree's root; it claims the key's value hash exactly
/// when the key is present among the leaves.
pub proof fn lemma_gen_proof(s: Leaves, key: Seq<u8>, depth: int)
    requires
        wf_leaves(s),
        key.len() == 32,
        on_path(s, key, depth),
        0 <= depth <= 64,
    ensures
        gen_proof(s, key, depth).levels.len() + depth <= 64,
        forall|l: int|
            0 <= l < gen_proof(s, key, depth).levels.len() ==> (#[trigger] gen_proof(
                s,
                key,
                depth,
            ).levels[l]).len() == 15,
        fold_root(key, base_hash(gen_proof(s, key, depth).leaf), gen_proof(s, key, depth).levels, depth)
            == subtree_root(s, depth),
        gen_proof(s, key, depth).leaf matches Some(lf) ==> lf.0.len() == 32 && prefix_agrees(
            lf.0,
            key,
            depth + gen_proof(s, key, depth).levels.len(),
        ),
        proof_claims(gen_proof(s, key, depth), key) == assoc_get(s, key),
    decreases 64 - depth,
{
    let p = gen_proof(s, key, depth);
    lemma_on_path_share(s, key, depth);
    if s.len() == 0 {
        crate::assoc::lemma_assoc_get_none(s, key);
    } else if s.len() == 1 {
        if s[0].0 == key {
            assert(assoc_get(s, key) == Some(s[0].1));
        } else {
            assert(forall|i: int| 0 <= i < s.len() ==> s[i].0 != key);
            crate::assoc::lemma_assoc_get_none(s, key);
        }
        assert(prefix_agrees(s[0].0, key, depth)) by {
            assert(forall|d: int|
                0 <= d < depth ==> #[trigger] nibble_of(s[0].0, d) == nibble_of(key, d));
        }
    } else {
        lemma_depth_bound(s, depth);
        let nib = nibble_of(key, depth);
        let g = group(s, depth, nib);
        lemma_group_wf(s, depth, nib);
        lemma_group_membership(s, depth, nib);
        assert(on_path(g, key, depth + 1)) by {
            assert forall|i: int, d: int|
                0 <= i < g.len() && 0 <= d < depth + 1 implies #[trigger] nibble_of(g[i].0, d)
                == nibble_of(key, d) by {
                let j = choose|j: int| 0 <= j < s.len() && s[j] == g[i];
                if d < depth {
                    assert(nibble_of(s[j].0, d) == nibble_of(key, d));
                } else {
                    assert(nibble_of(g[i].0, depth) == nib);
                }
            }
        }
        lemma_gen_proof(g, key, depth + 1);
        let sub = gen_proof(g, key, depth + 1);
        assert(p.levels == sub.levels.push(sibling_level(s, depth, nib)));
        assert(p.levels.last() == sibling_level(s, depth, nib));
        assert(p.levels.drop_last() =~= sub.levels);
        assert(nib < 16) by {
            assert(nibble_of(key, depth) < 16) by {
                assert(key[depth / 2] / 16 < 16 && key[depth / 2] % 16 < 16);
            }
        }
        lemma_insert_concat(s, depth, nib, 16);
        assert(fold_root(key, base_hash(p.leaf), p.levels, depth) == internal_hash(
            insert_concat(
                sibling_level(s, depth, nib),
                nib,
                fold_root(key, base_hash(sub.leaf), sub.levels, depth + 1),
                16,
            ),
        ));
        lemma_group_assoc(s, depth, key);
        assert forall|l: int| 0 <= l < p.levels.len() implies (#[trigger] p.levels[l]).len()
            == 15 by {
            if l < sub.levels.len() {
                assert(p.levels[l] == sub.levels[l]);
            }
        }
    }
}

/// The view of an executable leaf list.
pub open spec fn leaves_view(v: Seq<(KeyHash, Vec<u8>)>) -> Leaves {
    Seq::new(v.len(), |i: int| (v[i].0@, v[i].1@))
}

/// The 32-byte hash of an empty subtree.
pub fn zero_hash() -> (r: Vec<u8>)
    ensures
        r@ == placeholder_hash(),
        r@.len() == 32,
{
    let r = vec![0u8; 32];
    proof {
        assert(r@ =~= placeholder_hash());
    }
    r
}

/// Hash a leaf node.
pub fn hash_leaf(key: &KeyHash, value_hash: &Vec<u8>) -> (r: Vec<u8>)
    ensures
        r@ == leaf_hash(key@, value_hash@),
        r@.len() == 32,
{
    let mut buf: Vec<u8> = Vec::new();
    buf.push(0u8);
    buf.extend_from_slice(key.as_bytes().as_slice());
    buf.extend_from_slice(value_hash.as_slice());
    proof {
        assert(buf@ =~= seq![0u8] + key@ + value_hash@);
    }
    sha256_digest(buf.as_slice())
}

/// Hash an internal node over its children's concatenated hashes.
fn hash_internal(children: &Vec<u8>) -> (r: Vec<u8>)
    ensures
        r@ == internal_hash(children@),
        r@.len() == 32,
{
    let mut buf: Vec<u8> = Vec::new();
    buf.push(1u8);
    buf.extend_from_slice(children.as_slice());
    proof {
        assert(buf@ =~= seq![1u8] + children@);
    }
    sha256_digest(buf.as_slice())
}

/// The leaves whose key has nibble `nib` at position `depth`.
fn collect_group(leaves: &Vec<(KeyHash, Vec<u8>)>, depth: usize, nib: u8) -> (r: Vec<
    (KeyHash, Vec<u8>),
>)
    requires
        depth < 64,
    ensures
        leaves_view(r@) == group(leaves_view(leaves@), depth as int, nib),
{
    let ghost s = leaves_view(leaves@);
    let mut r: Vec<(KeyHash, Vec<u8>)> = Vec::new();
    let mut i: usize = 0;
    proof {
        assert(s.take(0) =~= Seq::<(Seq<u8>, Seq<u8>)>::empty());
        assert(group(s.take(0), depth as int, nib) =~= Seq::<(Seq<u8>, Seq<u8>)>::empty());
        assert(leaves_view(r@) =~= Seq::<(Seq<u8>, Seq<u8>)>::empty());
    }
    while i < leaves.len()
        invariant
            i <= leaves@.len(),
            depth < 64,
            s == leaves_view(leaves@),
            leaves_view(r@) == group(s.take(i as int), depth as int, nib),
        decreases leaves@.len() - i,
    {
        proof {
            assert(s.take(i + 1) =~= s.take(i as int).push(s[i as int]));
            lemma_group_push(s.take(i as int), s[i as int], depth as int, nib);
        }
        let entry = &leaves[i];
        if crate::digest::nibble_at(&entry.0, depth) == nib {
            let ghost before = leaves_view(r@);
            r.push((entry.0.clone(), crate::assoc::bytes_clone(&entry.1)));
            proof {
                assert(leaves_view(r@) =~= before.push(s[i as int]));
            }
        }
        i = i + 1;
    }
    proof {
        assert(s.take(s.len() as int) =~= s);
    }
    r
}

/// Compute the root hash of the subtree at `depth` over the given leaves.
pub fn compute_subtree_root(leaves: &Vec<(KeyHash, Vec<u8>)>, depth: usize) -> (r: Vec<u8>)
    requires
        wf_leaves(leaves_view(leaves@)),
        share_prefix(leaves_view(leaves@), depth as int),
        depth <= 64,
    ensures
        r@ == subtree_root(leaves_view(leaves@), depth as int),
        r@.len() == 32,
    decreases 64 - depth,
{
    let ghost s = leaves_view(leaves@);
    if leaves.len() == 0 {
        zero_hash()
    } else if leaves.len() == 1 {
        hash_leaf(&leaves[0].0, &leaves[0].1)
    } else {
        proof {
            lemma_depth_bound(s, depth as int);
        }
        let mut acc: Vec<u8> = Vec::new();
        let mut nib: u8 = 0;
        proof {
            assert(acc@ =~= children_concat(s, depth as int, 0));
        }
        while nib < 16
            invariant
                nib <= 16,
                depth < 64,
                s == leaves_view(leaves@),
                wf_leaves(s),
                share_prefix(s, depth as int),
                acc@ == children_concat(s, depth as int, nib as int),
            decreases 16 - nib,
        {
            let grp = collect_group(leaves, depth, nib);
            proof {
                lemma_group_wf(s, depth as int, nib);
            }
            let child = compute_subtree_root(&grp, depth + 1);
            let ghost before = acc@;
            acc.extend_from_slice(child.as_slice());
            proof {
                assert(acc@ =~= before + child@);
                assert(acc@ =~= children_concat(s, depth as int, nib as int + 1));
            }
            nib = nib + 1;
        }
        hash_internal(&acc)
    }
}

/// A Merkle proof: the terminal leaf claim, if the walk ended at a leaf,
/// and the sibling levels recorded along the key's path, deepest first.
#[derive(Debug)]
pub struct SparseMerkleProof {
    leaf: Option<(KeyHash, Vec<u8>)>,
    siblings: Vec<Vec<Vec<u8>>>,
}

impl View for SparseMerkleProof {
    type V = ProofView;

    closed spec fn view(&self) -> ProofView {
        ProofView {
            leaf: match self.leaf {
                Some((k, v)) => Some((k@, v@)),
                None => None,
            },
            levels: Seq::new(
                self.siblings@.len(),
                |l: int| Seq::new(self.siblings@[l]@.len(), |m: int| self.siblings@[l]@[m]@),
            ),
        }
    }
}

/// Generate the proof for `key` over the given leaves, walking from `depth`.
pub fn generate_proof(leaves: &Vec<(KeyHash, Vec<u8>)>, key: &KeyHash, depth: usize) -> (r:
    SparseMerkleProof)
    requires
        wf_leaves(leaves_view(leaves@)),
        on_path(leaves_view(leaves@), key@, depth as int),
        depth <= 64,
    ensures
        r@ == gen_proof(leaves_view(leaves@), key@, depth as int),
    decreases 64 - depth,
{
    let ghost s = leaves_view(leaves@);
    let ghost goal = gen_proof(s, key@, depth as int);
    if leaves.len() == 0 {
        let r = SparseMerkleProof { leaf: None, siblings: Vec::new() };
        proof {
            assert(r@ =~~= goal);
        }
        r
    } else if leaves.len() == 1 {
        let entry = &leaves[0];
        let r = SparseMerkleProof {
            leaf: Some((entry.0.clone(), crate::assoc::bytes_clone(&entry.1))),
            siblings: Vec::new(),
        };
        proof {
            assert(r@ =~~= goal);
        }
        r
    } else {
        proof {
            lemma_on_path_share(s, key@, depth as int);
            lemma_depth_bound(s, depth as int);
        }
        let nib = crate::digest::nibble_at(key, depth);
        let grp = collect_group(leaves, depth, nib);
        proof {
            lemma_group_wf(s, depth as int, nib);
            lemma_group_membership(s, depth as int, nib);
            assert forall|i: int, d: int|
                0 <= i < group(s, depth as int, nib).len() && 0 <= d < depth + 1 implies
                #[trigger] nibble_of(group(s, depth as int, nib)[i].0, d) == nibble_of(
                key@,
                d,
            ) by {
                let j = choose|j: int|
                    0 <= j < s.len() && s[j] == group(s, depth as int, nib)[i];
                if d < depth {
                    assert(nibble_of(s[j].0, d) == nibble_of(key@, d));
                } else {
                    assert(nibble_of(group(s, depth as int, nib)[i].0, depth as int) == nib);
                }
            }
        }
        let mut sub = generate_proof(&grp, key, depth + 1);
        let mut level: Vec<Vec<u8>> = Vec::new();
        let mut m: u8 = 0;
        while m < 15
            invariant
                m <= 15,
                depth < 64,
                nib == nibble_of(key@, depth as int),
                nib < 16,
                s == leaves_view(leaves@),
                wf_leaves(s),
                share_prefix(s, depth as int),
                level@.len() == m,
                forall|q: int|
                    0 <= q < m ==> (#[trigger] level@[q])@ == sibling_level(
                        s,
                        depth as int,
                        nib,
                    )[q],
            decreases 15 - m,
        {
            let sibnib: u8 = if m < nib {
                m
            } else {
                m + 1
            };
            let sibgrp = collect_group(leaves, depth, sibnib);
            proof {
                lemma_group_wf(s, depth as int, sibnib);
            }
            let child = compute_subtree_root(&sibgrp, depth + 1);
            level.push(child);
            m = m + 1;
        }
        let ghost subv = sub@;
        let ghost levels_before = sub.siblings@;
        sub.siblings.push(level);
        let r = sub;
        proof {
            assert(Seq::new(level@.len(), |q: int| level@[q]@) =~= sibling_level(
                s,
                depth as int,
                nib,
            ));
            assert(r@.levels =~~= subv.levels.push(sibling_level(s, depth as int, nib)));
            assert(r@.leaf == subv.leaf);
            assert(r@ =~~= goal);
        }
        r
    }
}

/// Check a proof against an expected root for a key: sound shape, a
/// terminal on the key's path, and the folded hash equal to the root.
pub fn check_proof(key: &KeyHash, expected_root: &Vec<u8>, proof: &SparseMerkleProof) -> (r: bool)
    ensures
        r == proof_checks(key@, expected_root@, proof@),
{
    let d = proof.siblings.len();
    if d > 64 {
        return false;
    }
    let mut l: usize = 0;
    while l < d
        invariant
            l <= d,
            d == proof.siblings@.len(),
            forall|q: int| 0 <= q < l ==> (#[trigger] proof.siblings@[q])@.len() == 15,
        decreases d - l,
    {
        if proof.siblings[l].len() != 15 {
            proof {
                assert(proof@.levels[l as int].len() != 15);
            }
            return false;
        }
        l = l + 1;
    }
    proof {
        assert(forall|q: int| 0 <= q < d ==> (#[trigger] proof@.levels[q]).len() == 15);
    }
    let mut h: Vec<u8> = match &proof.leaf {
        None => zero_hash(),
        Some((lk, vh)) => {
            // the terminal leaf must lie on the key's path down to the
            // proof's depth
            let mut dd: usize = 0;
            while dd < d
                invariant
                    dd <= d,
                    d <= 64,
                    d == proof.siblings@.len(),
                    proof@.leaf matches Some(lf) && lf.0 == lk@,
                    forall|q: int|
                        0 <= q < dd ==> #[trigger] nibble_of(lk@, q) == nibble_of(key@, q),
                decreases d - dd,
            {
                if crate::digest::nibble_at(lk, dd) != crate::digest::nibble_at(key, dd) {
                    proof {
                        assert(!prefix_agrees(lk@, key@, d as int));
                    }
                    return false;
                }
                dd = dd + 1;
            }
            proof {
                use_type_invariant(lk);
                assert(prefix_agrees(lk@, key@, d as int));
            }
            hash_leaf(lk, vh)
        },
    };
    proof {
        assert(h@ == base_hash(proof@.leaf));
        assert(proof@.levels.subrange(0, 0) =~= Seq::<Seq<Seq<u8>>>::empty());
    }
    let ghost base = h@;
    let mut j: usize = 0;
    while j < d
        invariant
            j <= d,
            d <= 64,
            d == proof.siblings@.len(),
            forall|q: int| 0 <= q < d ==> (#[trigger] proof@.levels[q]).len() == 15,
            h@ == fold_root(key@, base, proof@.levels.subrange(0, j as int), (d - j) as int),
            base == base_hash(proof@.leaf),
        decreases d - j,
    {
        let depth_j = d - 1 - j;
        let nib = crate::digest::nibble_at(key, depth_j);
        let level = &proof.siblings[j];
        let mut acc: Vec<u8> = Vec::new();
        let ghost lev = proof@.levels[j as int];
        proof {
            assert(lev.len() == 15);
            assert(forall|q: int| 0 <= q < 15 ==> (#[trigger] lev[q]) == level@[q]@);
            assert(acc@ =~= insert_concat(lev, nib, h@, 0));
        }
        let mut g: u8 = 0;
        while g < 16
            invariant
                g <= 16,
                nib < 16,
                j < d,
                d == proof.siblings@.len(),
                lev == proof@.levels[j as int],
                lev.len() == 15,
                level@.len() == 15,
                forall|q: int| 0 <= q < 15 ==> (#[trigger] lev[q]) == level@[q]@,
                acc@ == insert_concat(lev, nib, h@, g as int),
            decreases 16 - g,
        {
            if g == nib {
                acc.extend_from_slice(h.as_slice());
            } else if g < nib {
                acc.extend_from_slice(level[g as usize].as_slice());
            } else {
                acc.extend_from_slice(level[(g - 1) as usize].as_slice());
            }
            proof {
                assert(acc@ =~= insert_concat(lev, nib, h@, g as int + 1));
            }
            g = g + 1;
        }
        let ghost h_old = h@;
        h = hash_internal(&acc);
        proof {
            assert(proof@.levels.subrange(0, j + 1).drop_last() =~= proof@.levels.subrange(
                0,
                j as int,
            ));
            assert(proof@.levels.subrange(0, j + 1).last() == lev);
            assert(h@ == fold_root(
                key@,
                base,
                proof@.levels.subrange(0, j + 1),
                (d - j - 1) as int,
            ));
        }
        j = j + 1;
    }
    proof {
        assert(proof@.levels.subrange(0, d as int) =~= proof@.levels);
    }
    crate::assoc::bytes_eq(&h, expected_root)
}

/// Entries from `lo` on include a node at `path` committing to `h`.
pub open spec fn has_node_at(
    out: Seq<(crate::node::NodeKey, crate::node::Node)>,
    lo: int,
    path: Seq<u8>,
    h: Seq<u8>,
) -> bool {
    exists|q: int|
        lo <= q < out.len() && (#[trigger] out[q]).0.nibble_path@ == path && out[q].1.node_hash()
            == h
}

/// Compute the subtree root at `depth` while materializing every node of
/// the subtree, addressed by (version, nibble path).
pub fn collect_nodes(
    leaves: &Vec<(KeyHash, Vec<u8>)>,
    depth: usize,
    path: &Vec<u8>,
    version: u64,
    out: &mut Vec<(crate::node::NodeKey, crate::node::Node)>,
) -> (r: Vec<u8>)
    requires
        wf_leaves(leaves_view(leaves@)),
        share_prefix(leaves_view(leaves@), depth as int),
        forall|i: int| 0 <= i < leaves@.len() ==> (#[trigger] leaves@[i]).1@.len() == 32,
        depth <= 64,
        path@.len() == depth,
        forall|i: int| 0 <= i < path@.len() ==> (#[trigger] path@[i]) < 16,
    ensures
        r@ == subtree_root(leaves_view(leaves@), depth as int),
        r@.len() == 32,
        final(out)@.len() >= old(out)@.len(),
        forall|q: int| 0 <= q < old(out)@.len() ==> final(out)@[q] == old(out)@[q],
        forall|q: int|
            old(out)@.len() <= q < final(out)@.len() ==> (#[trigger] final(out)@[q]).0.version
                == version && final(out)@[q].0.wf() && final(out)@[q].1.wf(),
        leaves@.len() > 0 ==> has_node_at(final(out)@, old(out)@.len() as int, path@, r@),
    decreases 64 - depth,
{
    let ghost s = leaves_view(leaves@);
    if leaves.len() == 0 {
        zero_hash()
    } else if leaves.len() == 1 {
        let h = hash_leaf(&leaves[0].0, &leaves[0].1);
        let node = crate::node::Node::Leaf {
            key_hash: leaves[0].0.clone(),
            value_hash: crate::assoc::bytes_clone(&leaves[0].1),
        };
        let nk = crate::node::NodeKey {
            version,
            nibble_path: crate::assoc::bytes_clone(path),
        };
        out.push((nk, node));
        proof {
            assert(out@.last().0.nibble_path@ == path@ && out@.last().1.node_hash() == h@);
        }
        h
    } else {
        proof {
            lemma_depth_bound(s, depth as int);
        }
        let mut acc: Vec<u8> = Vec::new();
        let mut nib: u8 = 0;
        proof {
            assert(acc@ =~= children_concat(s, depth as int, 0));
        }
        while nib < 16
            invariant
                nib <= 16,
                depth < 64,
                s == leaves_view(leaves@),
                wf_leaves(s),
                share_prefix(s, depth as int),
                forall|i: int| 0 <= i < leaves@.len() ==> (#[trigger] leaves@[i]).1@.len() == 32,
                path@.len() == depth,
                forall|i: int| 0 <= i < path@.len() ==> (#[trigger] path@[i]) < 16,
                acc@ == children_concat(s, depth as int, nib as int),
                acc@.len() == 32 * nib,
                out@.len() >= old(out)@.len(),
                forall|q: int| 0 <= q < old(out)@.len() ==> out@[q] == old(out)@[q],
                forall|q: int|
                    old(out)@.len() <= q < out@.len() ==> (#[trigger] out@[q]).0.version == version
                        && out@[q].0.wf() && out@[q].1.wf(),
            decreases 16 - nib,
        {
            let grp = collect_group(leaves, depth, nib);
            proof {
                lemma_group_wf(s, depth as int, nib);
                lemma_group_values(s, leaves@, depth as int, nib);
                assert forall|i: int| 0 <= i < grp@.len() implies (#[trigger] grp@[i]).1@.len()
                    == 32 by {
                    assert(leaves_view(grp@)[i].1 == grp@[i].1@);
                    assert(leaves_view(grp@)[i] == group(s, depth as int, nib)[i]);
                }
            }
            let mut sub_path = crate::assoc::bytes_clone(path);
            sub_path.push(nib);
            let child = collect_nodes(&grp, depth + 1, &sub_path, version, out);
            let ghost before = acc@;
            acc.extend_from_slice(child.as_slice());
            proof {
                assert(acc@ =~= before + child@);
                assert(acc@ =~= children_concat(s, depth as int, nib as int + 1));
            }
            nib = nib + 1;
        }
        let h = hash_internal(&acc);
        let node = crate::node::Node::Internal { children: acc };
        let nk = crate::node::NodeKey {
            version,
            nibble_path: crate::assoc::bytes_clone(path),
        };
        out.push((nk, node));
        proof {
            assert(out@.last().0.nibble_path@ == path@ && out@.last().1.node_hash() == h@);
        }
        h
    }
}

/// Value-hash lengths carry over into a group's executable leaves.
proof fn lemma_group_values(
    s: Leaves,
    lv: Seq<(KeyHash, Vec<u8>)>,
    depth: int,
    nib: u8,
)
    requires
        s == leaves_view(lv),
        forall|i: int| 0 <= i < lv.len() ==> (#[trigger] lv[i]).1@.len() == 32,
    ensures
        forall|i: int| 0 <= i < s.len() ==> (#[trigger] s[i]).1.len() == 32,
        forall|i: int|
            0 <= i < group(s, depth, nib).len() ==> (#[trigger] group(s, depth, nib)[i]).1.len()
                == 32,
{
    assert(forall|i: int| 0 <= i < s.len() ==> (#[trigger] s[i]).1.len() == 32);
    lemma_group_membership(s, depth, nib);
    assert forall|i: int|
        0 <= i < group(s, depth, nib).len() implies (#[trigger] group(s, depth, nib)[i]).1.len()
        == 32 by {
        let j = choose|j: int| 0 <= j < s.len() && s[j] == group(s, depth, nib)[i];
    }
}

} // verus!
