//! The versioned tree core: per-key value history, versioned reads, value
//! sets applied at monotonically increasing versions, root hashes and
//! Merkle proofs over the resulting state.

use crate::assoc::{
    assoc_get, assoc_has, assoc_update, lemma_assoc_get_at, lemma_assoc_get_has,
    lemma_assoc_get_none, lemma_assoc_has_exists, lemma_assoc_update, unique_keys,
};
use crate::digest::{sha256_of, KeyHash};
use crate::errors::LeftRightTrieError;
use crate::node::spec_encode_node;
use crate::tree_hash::{gen_proof, subtree_root, wf_leaves, Leaves};
use vstd::prelude::*;

verus! {

/// A version: a monotonically non-decreasing 64-bit counter assigned at
/// mutation time.
pub type Version = u64;

/// An opaque byte-sequence value.
pub type OwnedValue = Vec<u8>;

/// The view of an optional byte value.
pub open spec fn opt_view(o: Option<Vec<u8>>) -> Option<Seq<u8>> {
    match o {
        Some(v) => Some(v@),
        None => None,
    }
}

/// One key's history: (version, value-or-tombstone) events, oldest first.
pub type HistoryEntries = Seq<(u64, Option<Seq<u8>>)>;

/// The whole value history: per key hash, its history entries.
pub type HistoryView = Seq<(Seq<u8>, HistoryEntries)>;

/// The value of the greatest history entry at or below `v`: `None` either
/// when no entry exists yet or when that entry is a tombstone.
pub open spec fn value_at(es: HistoryEntries, v: u64) -> Option<Seq<u8>>
    decreases es.len(),
{
    if es.len() == 0 {
        None
    } else if es.last().0 <= v {
        es.last().1
    } else {
        value_at(es.drop_last(), v)
    }
}

/// Read a key at a version.
pub open spec fn lookup(h: HistoryView, key: Seq<u8>, v: u64) -> Option<Seq<u8>> {
    match assoc_get(h, key) {
        Some(es) => value_at(es, v),
        None => None,
    }
}

/// The leaf set visible at version `v`: every key whose value at `v` is
/// present, paired with the digest of that value.
pub open spec fn leaves_at(h: HistoryView, v: u64) -> Leaves
    decreases h.len(),
{
    if h.len() == 0 {
        Seq::empty()
    } else {
        (match value_at(h[0].1, v) {
            Some(val) => seq![(h[0].0, sha256_of(val))],
            None => Seq::<(Seq<u8>, Seq<u8>)>::empty(),
        }) + leaves_at(h.drop_first(), v)
    }
}

/// The authenticated root of the state at version `v`.
pub open spec fn root_at(h: HistoryView, v: u64) -> Seq<u8> {
    subtree_root(leaves_at(h, v), 0)
}

/// All history versions at or below `x`.
pub open spec fn versions_le(h: HistoryView, x: u64) -> bool {
    forall|k: int, i: int|
        0 <= k < h.len() && 0 <= i < h[k].1.len() ==> ((#[trigger] h[k].1[i]).0) <= x
}

/// Well-formed history: unique 32-byte keys, at least one entry per listed
/// key, versions strictly increasing within each key's history.
pub open spec fn wf_hist(h: HistoryView) -> bool {
    &&& unique_keys(h)
    &&& forall|k: int| 0 <= k < h.len() ==> (#[trigger] h[k]).0.len() == 32
    &&& forall|k: int| 0 <= k < h.len() ==> (#[trigger] h[k]).1.len() >= 1
    &&& forall|k: int, i: int, j: int|
        0 <= k < h.len() && 0 <= i < j < h[k].1.len() ==> ((#[trigger] h[k].1[i]).0) < ((
        #[trigger] h[k].1[j]).0)
}

/// Record one key's event at version `v`: a same-version event replaces the
/// last entry (last writer wins within one value set); otherwise the event
/// is appended. A new key gains a fresh history.
pub open spec fn upsert(h: HistoryView, key: Seq<u8>, v: u64, val: Option<Seq<u8>>) -> HistoryView {
    match assoc_get(h, key) {
        Some(es) => if es.len() > 0 && es.last().0 == v {
            assoc_update(h, key, es.drop_last().push((v, val)))
        } else {
            assoc_update(h, key, es.push((v, val)))
        },
        None => h.push((key, seq![(v, val)])),
    }
}

/// Apply a whole value set at one version, first pair first.
pub open spec fn apply_value_set(
    h: HistoryView,
    values: Seq<(Seq<u8>, Option<Seq<u8>>)>,
    v: u64,
) -> HistoryView
    decreases values.len(),
{
    if values.len() == 0 {
        h
    } else {
        apply_value_set(upsert(h, values[0].0, v, values[0].1), values.drop_first(), v)
    }
}

/// Applying one more pair applies it after the rest.
pub proof fn lemma_apply_push(
    h: HistoryView,
    values: Seq<(Seq<u8>, Option<Seq<u8>>)>,
    x: (Seq<u8>, Option<Seq<u8>>),
    v: u64,
)
    ensures
        apply_value_set(h, values.push(x), v) == upsert(apply_value_set(h, values, v), x.0, v, x.1),
    decreases values.len(),
{
    if values.len() == 0 {
        assert(values.push(x)[0] == x);
        assert(values.push(x).drop_first() =~= Seq::<(Seq<u8>, Option<Seq<u8>>)>::empty());
        assert(apply_value_set(upsert(h, x.0, v, x.1), values.push(x).drop_first(), v) == upsert(
            h,
            x.0,
            v,
            x.1,
        ));
        assert(apply_value_set(h, values, v) == h);
    } else {
        assert(values.push(x)[0] == values[0]);
        assert(values.push(x).drop_first() =~= values.drop_first().push(x));
        lemma_apply_push(upsert(h, values[0].0, v, values[0].1), values.drop_first(), x, v);
    }
}

/// How one upsert changes reads and shape: the key reads the new value from
/// `v` on and its older reads are kept; other keys are untouched;
/// well-formedness and the version bound are preserved.
pub proof fn lemma_upsert(h: HistoryView, key: Seq<u8>, v: u64, val: Option<Seq<u8>>)
    requires
        wf_hist(h),
        versions_le(h, v),
        key.len() == 32,
    ensures
        wf_hist(upsert(h, key, v, val)),
        versions_le(upsert(h, key, v, val), v),
        forall|x: u64| x >= v ==> lookup(upsert(h, key, v, val), key, x) == val,
        forall|x: u64| x < v ==> lookup(upsert(h, key, v, val), key, x) == lookup(h, key, x),
        forall|k2: Seq<u8>, x: u64|
            k2 != key ==> lookup(upsert(h, key, v, val), k2, x) == lookup(h, k2, x),
{
    let hh = upsert(h, key, v, val);
    lemma_assoc_get_has(h, key);
    lemma_assoc_has_exists(h, key);
    match assoc_get(h, key) {
        Some(es) => {
            let kk = choose|kk: int| 0 <= kk < h.len() && h[kk].0 == key;
            lemma_assoc_get_at(h, kk);
            assert(es == h[kk].1);
            let es2: HistoryEntries = if es.len() > 0 && es.last().0 == v {
                es.drop_last().push((v, val))
            } else {
                es.push((v, val))
            };
            lemma_assoc_update(h, key, es2);
            // versions in the new entry list stay at or below v and strictly
            // increase
            assert(es.len() >= 1);
            if es.last().0 == v {
                assert(forall|i: int|
                    0 <= i < es.drop_last().len() ==> ((#[trigger] es.drop_last()[i]).0) < v);
            } else {
                assert(es.last().0 <= v);
                assert(forall|i: int| 0 <= i < es.len() ==> ((#[trigger] es[i]).0) <= es.last().0)
                    by {
                    assert(forall|i: int|
                        0 <= i < es.len() - 1 ==> ((#[trigger] es[i]).0) < (es[es.len() - 1]).0);
                }
            }
            assert(es2.last() == (v, val));
            assert(value_at(es2, v) == val);
            assert forall|x: u64| x >= v implies lookup(hh, key, x) == val by {
                assert(assoc_get(hh, key) == Some(es2));
                assert(es2.last().0 <= x);
            }
            assert forall|x: u64| x < v implies lookup(hh, key, x) == lookup(h, key, x) by {
                assert(assoc_get(hh, key) == Some(es2));
                assert(value_at(es2, x) == value_at(es2.drop_last(), x));
                if es.len() > 0 && es.last().0 == v {
                    assert(es2.drop_last() =~= es.drop_last());
                    assert(value_at(es, x) == value_at(es.drop_last(), x));
                } else {
                    assert(es2.drop_last() =~= es);
                }
            }
            // shape of the new history: same keys, entry lists well-formed
            assert forall|k: int| 0 <= k < hh.len() implies (#[trigger] hh[k]).1.len() >= 1 by {
                if h[k].0 == key {
                    assert(hh[k] == (key, es2));
                } else {
                    assert(hh[k] == h[k]);
                }
            }
            assert forall|k: int, i: int, j: int|
                0 <= k < hh.len() && 0 <= i < j < hh[k].1.len() implies ((
            #[trigger] hh[k].1[i]).0) < (((#[trigger] hh[k].1[j]).0)) by {
                if h[k].0 == key {
                    assert(hh[k] == (key, es2));
                } else {
                    assert(hh[k] == h[k]);
                }
            }
            assert forall|k: int, i: int|
                0 <= k < hh.len() && 0 <= i < hh[k].1.len() implies ((#[trigger] hh[k].1[i]).0)
                <= v by {
                if h[k].0 == key {
                    assert(hh[k] == (key, es2));
                } else {
                    assert(hh[k] == h[k]);
                }
            }
            assert(forall|k: int| 0 <= k < hh.len() ==> (#[trigger] hh[k]).0 == h[k].0);
        },
        None => {
            lemma_assoc_get_none(hh.drop_last(), key);
            assert(hh == h.push((key, seq![(v, val)])));
            assert(hh.last() == (key, seq![(v, val)]));
            assert forall|x: u64| x >= v implies lookup(hh, key, x) == val by {
                lemma_assoc_push_get(h, key, seq![(v, val)]);
            }
            assert forall|x: u64| x < v implies lookup(hh, key, x) == lookup(h, key, x) by {
                lemma_assoc_push_get(h, key, seq![(v, val)]);
                let es2: HistoryEntries = seq![(v, val)];
                assert(es2.last().0 == v);
                assert(value_at(es2, x) == value_at(es2.drop_last(), x));
                assert(es2.drop_last() =~= Seq::<(u64, Option<Seq<u8>>)>::empty());
            }
            assert forall|k2: Seq<u8>, x: u64| k2 != key implies lookup(hh, k2, x) == lookup(
                h,
                k2,
                x,
            ) by {
                lemma_assoc_push_other(h, key, seq![(v, val)], k2);
            }
            assert forall|k: int, i: int, j: int|
                0 <= k < hh.len() && 0 <= i < j < hh[k].1.len() implies ((
            #[trigger] hh[k].1[i]).0) < (((#[trigger] hh[k].1[j]).0)) by {
                if k < h.len() {
                    assert(hh[k] == h[k]);
                }
            }
            assert forall|k: int, i: int|
                0 <= k < hh.len() && 0 <= i < hh[k].1.len() implies ((#[trigger] hh[k].1[i]).0)
                <= v by {
                if k < h.len() {
                    assert(hh[k] == h[k]);
                }
            }
            assert forall|a: int, b: int| 0 <= a < b < hh.len() implies hh[a].0 != hh[b].0 by {
                if b < h.len() {
                    assert(hh[a] == h[a] && hh[b] == h[b]);
                } else {
                    assert(hh[b].0 == key);
                    assert(hh[a] == h[a]);
                }
            }
        },
    }
}

/// Appending a new key reads back its entry list; a pushed entry does not
/// disturb other keys.
proof fn lemma_assoc_push_get<T>(h: Seq<(Seq<u8>, T)>, key: Seq<u8>, val: T)
    requires
        !assoc_has(h, key),
    ensures
        assoc_get(h.push((key, val)), key) == Some(val),
    decreases h.len(),
{
    if h.len() == 0 {
        assert(h.push((key, val))[0] == (key, val));
    } else {
        assert(h.push((key, val))[0] == h[0]);
        assert(h.push((key, val)).drop_first() =~= h.drop_first().push((key, val)));
        lemma_assoc_push_get(h.drop_first(), key, val);
    }
}

/// A pushed entry leaves reads of other keys unchanged.
proof fn lemma_assoc_push_other<T>(h: Seq<(Seq<u8>, T)>, key: Seq<u8>, val: T, k2: Seq<u8>)
    requires
        k2 != key,
    ensures
        assoc_get(h.push((key, val)), k2) == assoc_get(h, k2),
    decreases h.len(),
{
    if h.len() == 0 {
        assert(h.push((key, val))[0] == (key, val));
        assert(h.push((key, val)).drop_first() =~= Seq::<(Seq<u8>, T)>::empty());
        assert(assoc_get(h.push((key, val)).drop_first(), k2) is None);
        assert(assoc_get(h, k2) is None);
    } else {
        assert(h.push((key, val))[0] == h[0]);
        assert(h.push((key, val)).drop_first() =~= h.drop_first().push((key, val)));
        lemma_assoc_push_other(h.drop_first(), key, val, k2);
    }
}

/// The leaf set distributes over appending one key's history.
pub proof fn lemma_leaves_push(h: HistoryView, x: (Seq<u8>, HistoryEntries), v: u64)
    ensures
        leaves_at(h.push(x), v) == leaves_at(h, v) + (match value_at(x.1, v) {
            Some(val) => seq![(x.0, sha256_of(val))],
            None => Seq::<(Seq<u8>, Seq<u8>)>::empty(),
        }),
    decreases h.len(),
{
    if h.len() == 0 {
        assert(h.push(x)[0] == x);
        assert(h.push(x).drop_first() =~= Seq::<(Seq<u8>, HistoryEntries)>::empty());
        assert(leaves_at(h.push(x).drop_first(), v) =~= Seq::<(Seq<u8>, Seq<u8>)>::empty());
        assert(leaves_at(h, v) =~= Seq::<(Seq<u8>, Seq<u8>)>::empty());
        assert(leaves_at(h.push(x), v) =~= leaves_at(h, v) + (match value_at(x.1, v) {
            Some(val) => seq![(x.0, sha256_of(val))],
            None => Seq::<(Seq<u8>, Seq<u8>)>::empty(),
        }));
    } else {
        assert(h.push(x)[0] == h[0]);
        assert(h.push(x).drop_first() =~= h.drop_first().push(x));
        lemma_leaves_push(h.drop_first(), x, v);
        assert(leaves_at(h.push(x), v) =~= leaves_at(h, v) + (match value_at(x.1, v) {
            Some(val) => seq![(x.0, sha256_of(val))],
            None => Seq::<(Seq<u8>, Seq<u8>)>::empty(),
        }));
    }
}

/// Whether a leaf comes from the history's entry `k` at version `v`.
pub open spec fn leaf_source(h: HistoryView, v: u64, k: int, leaf: (Seq<u8>, Seq<u8>)) -> bool {
    &&& 0 <= k < h.len()
    &&& leaf.0 == h[k].0
    &&& match value_at(h[k].1, v) {
        Some(val) => leaf.1 == sha256_of(val),
        None => false,
    }
}

/// The history entry a leaf at index `i` of the visible leaf set stems from.
pub open spec fn source_index(h: HistoryView, v: u64, i: int) -> int
    decreases h.len(),
{
    if h.len() == 0 {
        0
    } else {
        match value_at(h[0].1, v) {
            Some(val) => if i == 0 {
                0
            } else {
                source_index(h.drop_first(), v, i - 1) + 1
            },
            None => source_index(h.drop_first(), v, i) + 1,
        }
    }
}

/// Every leaf of the visible leaf set stems from its source history entry.
pub proof fn lemma_leaves_membership(h: HistoryView, v: u64)
    ensures
        forall|i: int|
            #![trigger leaves_at(h, v)[i]]
            0 <= i < leaves_at(h, v).len() ==> leaf_source(
                h,
                v,
                source_index(h, v, i),
                leaves_at(h, v)[i],
            ),
    decreases h.len(),
{
    let s = leaves_at(h, v);
    if h.len() == 0 {
        assert(leaves_at(h, v).len() == 0);
    } else {
        let t = h.drop_first();
        lemma_leaves_membership(t, v);
        let st = leaves_at(t, v);
        assert forall|i: int|
            #![trigger leaves_at(h, v)[i]]
            0 <= i < leaves_at(h, v).len() implies leaf_source(
            h,
            v,
            source_index(h, v, i),
            leaves_at(h, v)[i],
        ) by {
            match value_at(h[0].1, v) {
                Some(val0) => {
                    if i == 0 {
                        assert(s[0] == (h[0].0, sha256_of(val0)));
                        assert(leaf_source(h, v, 0, s[0]));
                    } else {
                        assert(s[i] == st[i - 1]);
                        assert(leaf_source(t, v, source_index(t, v, i - 1), leaves_at(t, v)[i - 1]));
                        let k = source_index(t, v, i - 1);
                        assert(h[k + 1] == t[k]);
                        assert(leaf_source(h, v, k + 1, s[i]));
                    }
                },
                None => {
                    assert(s =~= st);
                    assert(leaf_source(t, v, source_index(t, v, i), leaves_at(t, v)[i]));
                    let k = source_index(t, v, i);
                    assert(h[k + 1] == t[k]);
                    assert(leaf_source(h, v, k + 1, s[i]));
                },
            }
        }
    }
}

/// The visible leaf set of a well-formed history is a well-formed leaf set.
pub proof fn lemma_leaves_wf(h: HistoryView, v: u64)
    requires
        wf_hist(h),
    ensures
        wf_leaves(leaves_at(h, v)),
    decreases h.len(),
{
    let s = leaves_at(h, v);
    lemma_leaves_membership(h, v);
    assert forall|i: int, j: int| 0 <= i < j < s.len() implies s[i].0 != s[j].0 by {
        lemma_leaves_distinct_pair(h, v, i, j);
    }
    assert forall|i: int| 0 <= i < s.len() implies (#[trigger] s[i]).0.len() == 32 by {
        assert(leaf_source(h, v, source_index(h, v, i), leaves_at(h, v)[i]));
    }
}

/// Two distinct leaves come from distinct history keys.
proof fn lemma_leaves_distinct_pair(h: HistoryView, v: u64, i: int, j: int)
    requires
        unique_keys(h),
        0 <= i < j < leaves_at(h, v).len(),
    ensures
        leaves_at(h, v)[i].0 != leaves_at(h, v)[j].0,
    decreases h.len(),
{
    let s = leaves_at(h, v);
    let t = h.drop_first();
    let st = leaves_at(t, v);
    assert(unique_keys(t)) by {
        assert(forall|a: int| 0 <= a < t.len() ==> (#[trigger] t[a]).0 == h[a + 1].0);
    }
    match value_at(h[0].1, v) {
        Some(val0) => {
            if i == 0 {
                lemma_leaves_membership(t, v);
                assert(s[j] == st[j - 1]);
                assert(leaf_source(t, v, source_index(t, v, j - 1), leaves_at(t, v)[j - 1]));
                let k = source_index(t, v, j - 1);
                assert(h[k + 1] == t[k]);
                assert(h[0].0 != h[k + 1].0);
            } else {
                lemma_leaves_distinct_pair(t, v, i - 1, j - 1);
                assert(s[i] == st[i - 1] && s[j] == st[j - 1]);
            }
        },
        None => {
            assert(s =~= st);
            lemma_leaves_distinct_pair(t, v, i, j);
        },
    }
}

/// Reading a key through the leaf set agrees with reading it through the
/// history.
pub proof fn lemma_lookup_leaves(h: HistoryView, key: Seq<u8>, v: u64)
    requires
        unique_keys(h),
    ensures
        assoc_get(leaves_at(h, v), key) == (match lookup(h, key, v) {
            Some(val) => Some(sha256_of(val)),
            None => None::<Seq<u8>>,
        }),
    decreases h.len(),
{
    let s = leaves_at(h, v);
    if h.len() == 0 {
        assert(s =~= Seq::<(Seq<u8>, Seq<u8>)>::empty());
    } else {
        let t = h.drop_first();
        assert(unique_keys(t)) by {
            assert(forall|a: int| 0 <= a < t.len() ==> (#[trigger] t[a]).0 == h[a + 1].0);
        }
        lemma_lookup_leaves(t, key, v);
        match value_at(h[0].1, v) {
            Some(val0) => {
                assert(s == seq![(h[0].0, sha256_of(val0))] + leaves_at(t, v));
                assert(s[0] == (h[0].0, sha256_of(val0)));
                assert(s.drop_first() =~= leaves_at(t, v));
                if h[0].0 == key {
                    assert(assoc_get(h, key) == Some(h[0].1));
                    assert(assoc_get(s, key) == Some(sha256_of(val0)));
                } else {
                    assert(assoc_get(s, key) == assoc_get(s.drop_first(), key));
                    assert(assoc_get(h, key) == assoc_get(t, key));
                }
            },
            None => {
                assert(s =~= leaves_at(t, v));
                if h[0].0 == key {
                    assert(assoc_get(h, key) == Some(h[0].1));
                    // the head key is absent at v, and cannot appear in the
                    // tail's leaves either
                    lemma_leaves_membership(t, v);
                    lemma_assoc_has_exists(t, key);
                    if assoc_get(s, key) is Some {
                        lemma_assoc_get_has(s, key);
                        lemma_assoc_has_exists(s, key);
                        let i = choose|i: int| 0 <= i < s.len() && (#[trigger] s[i]).0 == key;
                        assert(leaf_source(t, v, source_index(t, v, i), leaves_at(t, v)[i]));
                        let k = source_index(t, v, i);
                        assert(h[k + 1] == t[k]);
                        assert(h[0].0 != h[k + 1].0);
                        assert(false);
                    }
                    lemma_assoc_get_has(s, key);
                } else {
                    assert(assoc_get(h, key) == assoc_get(t, key));
                }
            },
        }
    }
}

/// A node at the root path committing to `root` is in the batch, or the
/// current tree already holds one: the returned root hash is re-derivable
/// from stored nodes once the batch is persisted.
pub open spec fn root_node_available(
    nodes: Seq<(crate::node::NodeKey, crate::node::Node)>,
    idx: Seq<(Seq<u8>, (u64, Seq<u8>))>,
    root: Seq<u8>,
) -> bool {
    ||| exists|p: int|
        0 <= p < nodes.len() && (#[trigger] nodes[p]).0.nibble_path@ == Seq::<u8>::empty()
            && nodes[p].1.node_hash() == root
    ||| exists|q: int|
        0 <= q < idx.len() && (#[trigger] idx[q]).0 == Seq::<u8>::empty()
            && crate::db_adapter::encoded_commits((idx[q].1).1, root)
}

/// The view of an executable value set.
pub open spec fn value_set_view(vs: Seq<(KeyHash, Option<Vec<u8>>)>) -> Seq<
    (Seq<u8>, Option<Seq<u8>>),
> {
    Seq::new(vs.len(), |i: int| (vs[i].0@, opt_view(vs[i].1)))
}

/// The versioned sparse Merkle tree over an in-memory versioned database.
#[derive(Debug)]
pub struct JellyfishMerkleTree {
    reader: crate::db_adapter::DbAdapter,
}

impl JellyfishMerkleTree {
    /// The value history the tree reads.
    pub closed spec fn hist(&self) -> HistoryView {
        self.reader.hist()
    }

    /// The latest version known to the database.
    pub closed spec fn version_spec(&self) -> u64 {
        self.reader.latest_version()
    }

    /// Well-formed: the history is well-formed and no version exceeds the
    /// latest one.
    pub open spec fn wf(&self) -> bool {
        &&& wf_hist(self.hist())
        &&& versions_le(self.hist(), self.version_spec())
    }

    /// Wrap a versioned database.
    pub fn new(reader: crate::db_adapter::DbAdapter) -> (r: JellyfishMerkleTree)
        ensures
            r.hist() == reader.hist(),
            r.version_spec() == reader.latest_version(),
            r.wf() == reader.wf(),
    {
        JellyfishMerkleTree { reader }
    }

    /// The current tree's node index, as the database records it.
    pub closed spec fn reader_index_view(&self) -> Seq<(Seq<u8>, (u64, Seq<u8>))> {
        self.reader.index_view()
    }

    /// The underlying database.
    pub fn reader(&self) -> (r: &crate::db_adapter::DbAdapter)
        ensures
            r.hist() == self.hist(),
            r.latest_version() == self.version_spec(),
    {
        &self.reader
    }

    /// The latest version of the tree known to the database.
    pub fn version(&self) -> (r: u64)
        ensures
            r == self.version_spec(),
    {
        self.reader.version()
    }

    /// Read a key at a version. Never fails on the in-memory backend.
    pub fn get(&self, key: &KeyHash, version: u64) -> (r: Result<
        Option<OwnedValue>,
        LeftRightTrieError,
    >)
        requires
            self.wf(),
        ensures
            r matches Ok(o) && opt_view(o) == lookup(self.hist(), key@, version),
    {
        self.reader.get_value_option(version, key)
    }

    /// Whether a key has a value at a version.
    pub fn contains(&self, key: &KeyHash, version: u64) -> (r: Result<bool, LeftRightTrieError>)
        requires
            self.wf(),
        ensures
            r matches Ok(b) && b == (lookup(self.hist(), key@, version) is Some),
    {
        match self.reader.get_value_option(version, key)? {
            Some(_) => Ok(true),
            None => Ok(false),
        }
    }

    /// The number of keys whose value at the latest version is present.
    pub fn len(&self) -> (r: usize)
        requires
            self.wf(),
        ensures
            r == leaves_at(self.hist(), self.version_spec()).len(),
    {
        let leaves = self.reader.leaves_at_exec(self.reader.version());
        proof {
            assert(crate::tree_hash::leaves_view(leaves@).len() == leaves@.len());
        }
        leaves.len()
    }

    /// Whether no key has a value at the latest version.
    pub fn is_empty(&self) -> (r: bool)
        requires
            self.wf(),
        ensures
            r == (leaves_at(self.hist(), self.version_spec()).len() == 0),
    {
        self.len() == 0
    }

    /// The root hash of the tree at a version. Never fails on the in-memory
    /// backend: every version's state is derivable from the retained
    /// history.
    pub fn get_root_hash(&self, version: u64) -> (r: Result<
        crate::digest::RootHash,
        LeftRightTrieError,
    >)
        requires
            self.wf(),
        ensures
            r matches Ok(root) && root@ == root_at(self.hist(), version),
    {
        let leaves = self.reader.leaves_at_exec(version);
        proof {
            lemma_leaves_wf(self.hist(), version);
        }
        let bytes = crate::tree_hash::compute_subtree_root(&leaves, 0);
        Ok(crate::digest::RootHash::from_bytes(bytes))
    }

    /// A Merkle proof for a key at a version: inclusion when the key is
    /// present, exclusion otherwise.
    pub fn get_proof(&self, key: &KeyHash, version: u64) -> (r: Result<
        crate::tree_hash::SparseMerkleProof,
        LeftRightTrieError,
    >)
        requires
            self.wf(),
        ensures
            r matches Ok(p) && p@ == gen_proof(leaves_at(self.hist(), version), key@, 0),
    {
        let leaves = self.reader.leaves_at_exec(version);
        proof {
            lemma_leaves_wf(self.hist(), version);
        }
        Ok(crate::tree_hash::generate_proof(&leaves, key, 0))
    }

    /// Verify a Merkle proof for a key against an expected root hash.
    /// Succeeds exactly when the proof checks out.
    #[allow(unused_variables)]
    pub fn verify_proof(
        &self,
        element_key: &KeyHash,
        version: u64,
        expected_root_hash: &crate::digest::RootHash,
        proof: &crate::tree_hash::SparseMerkleProof,
    ) -> (r: Result<(), LeftRightTrieError>)
        ensures
            r is Ok <==> crate::tree_hash::proof_checks(element_key@, expected_root_hash@, proof@),
            r matches Err(e) ==> e is ProofMismatch,
    {
        if crate::tree_hash::check_proof(element_key, expected_root_hash.as_bytes(), proof) {
            Ok(())
        } else {
            Err(LeftRightTrieError::ProofMismatch)
        }
    }

    /// Apply a value set at a version strictly above the latest one,
    /// producing the new root hash and the update batch to persist: the
    /// value deltas, the nodes this version creates, and the indices of the
    /// nodes it supersedes. Fails exactly when the version is not monotone.
    pub fn put_value_set(
        &self,
        value_set: &Vec<(KeyHash, Option<OwnedValue>)>,
        version: u64,
    ) -> (r: Result<(crate::digest::RootHash, crate::node::TreeUpdateBatch), LeftRightTrieError>)
        requires
            self.wf(),
        ensures
            r is Err <==> version <= self.version_spec(),
            r matches Err(e) ==> e is VersionNotMonotone,
            r matches Ok((root, batch)) ==> root@ == root_at(
                apply_value_set(self.hist(), value_set_view(value_set@), version),
                version,
            ),
            r matches Ok((root, batch)) ==> batch.node_batch.values@.len() == value_set@.len()
                && forall|i: int|
                0 <= i < value_set@.len() ==> ((#[trigger] batch.node_batch.values@[i]).0).0
                    == version && (batch.node_batch.values@[i].0).1@ == value_set@[i].0@
                    && opt_view(batch.node_batch.values@[i].1) == opt_view(value_set@[i].1),
            r matches Ok((root, batch)) ==> forall|i: int|
                0 <= i < batch.stale_node_index_batch@.len() ==> (
                #[trigger] batch.stale_node_index_batch@[i]).stale_since_version == version,
            r matches Ok((root, batch)) ==> forall|i: int|
                0 <= i < batch.node_batch.nodes@.len() ==> (
                #[trigger] batch.node_batch.nodes@[i]).0.wf() && batch.node_batch.nodes@[i].1.wf(),
            r matches Ok((root, batch)) ==> (leaves_at(
                apply_value_set(self.hist(), value_set_view(value_set@), version),
                version,
            ).len() > 0 ==> root_node_available(
                batch.node_batch.nodes@,
                self.reader_index_view(),
                root@,
            )),
    {
        if version <= self.reader.version() {
            return Err(LeftRightTrieError::VersionNotMonotone);
        }
        let ghost h0 = self.hist();
        let ghost vsv = value_set_view(value_set@);
        let mut h2 = self.reader.value_history();
        let mut i: usize = 0;
        let n = value_set.len();
        proof {
            assert(vsv.take(0) =~= Seq::<(Seq<u8>, Option<Seq<u8>>)>::empty());
            assert(apply_value_set(h0, vsv.take(0), version) == h0);
            crate::db_adapter::lemma_versions_le_mono(h0, self.version_spec(), version);
        }
        while i < n
            invariant
                i <= n,
                n == value_set@.len(),
                vsv == value_set_view(value_set@),
                wf_hist(crate::db_adapter::history_view(h2@)),
                versions_le(crate::db_adapter::history_view(h2@), version),
                crate::db_adapter::history_view(h2@) == apply_value_set(
                    h0,
                    vsv.take(i as int),
                    version,
                ),
            decreases n - i,
        {
            let entry = &value_set[i];
            proof {
                use_type_invariant(&entry.0);
                lemma_upsert(
                    crate::db_adapter::history_view(h2@),
                    entry.0@,
                    version,
                    opt_view(entry.1),
                );
                assert(vsv.take(i + 1) =~= vsv.take(i as int).push(vsv[i as int]));
                lemma_apply_push(h0, vsv.take(i as int), vsv[i as int], version);
            }
            let val = crate::db_adapter::clone_opt_bytes(&entry.1);
            crate::db_adapter::upsert_exec(&mut h2, &entry.0, version, val);
            i = i + 1;
        }
        proof {
            assert(vsv.take(n as int) =~= vsv);
        }
        let ghost new_hist = apply_value_set(h0, vsv, version);
        let leaves = crate::db_adapter::leaves_from_history(&h2, version);
        proof {
            lemma_leaves_wf(new_hist, version);
        }
        let mut nodes: Vec<(crate::node::NodeKey, crate::node::Node)> = Vec::new();
        let empty_path: Vec<u8> = Vec::new();
        let root_bytes = crate::tree_hash::collect_nodes(
            &leaves,
            0,
            &empty_path,
            version,
            &mut nodes,
        );
        let ghost nodes_v = nodes@;
        let stale = self.reader.stale_indices(&nodes, version);
        let fresh = self.reader.fresh_nodes(nodes);
        proof {
            // the returned root stays re-derivable: the root node is either
            // freshly batched or already current in the tree's index
            if leaves_at(new_hist, version).len() > 0 {
                assert(empty_path@ =~= Seq::<u8>::empty());
                assert(crate::tree_hash::has_node_at(nodes_v, 0, empty_path@, root_bytes@));
                let q = choose|q: int|
                    0 <= q < nodes_v.len() && (#[trigger] nodes_v[q]).0.nibble_path@ == empty_path@
                        && nodes_v[q].1.node_hash() == root_bytes@;
                let idx = self.reader_index_view();
                if crate::db_adapter::node_current(idx, nodes_v[q].0, nodes_v[q].1) {
                    let qq = choose|qq: int|
                        0 <= qq < idx.len() && (#[trigger] idx[qq]).0 == nodes_v[q].0.nibble_path@
                            && (idx[qq].1).1 == spec_encode_node(nodes_v[q].1);
                    assert(nodes_v[q].1.wf() && (idx[qq].1).1 == spec_encode_node(nodes_v[q].1)
                        && nodes_v[q].1.node_hash() == root_bytes@);
                    assert(crate::db_adapter::encoded_commits((idx[qq].1).1, root_bytes@));
                    assert(root_node_available(fresh@, idx, root_bytes@));
                } else {
                    assert(crate::db_adapter::fresh_listed(
                        fresh@,
                        nodes_v[q].0.nibble_path@,
                        nodes_v[q].0.version,
                        spec_encode_node(nodes_v[q].1),
                    ));
                    let p = choose|p: int|
                        0 <= p < fresh@.len() && (#[trigger] fresh@[p]).0.nibble_path@
                            == nodes_v[q].0.nibble_path@ && fresh@[p].0.version
                            == nodes_v[q].0.version && spec_encode_node(fresh@[p].1)
                            == spec_encode_node(nodes_v[q].1);
                    crate::node::lemma_encoding_fixes_hash(fresh@[p].1, nodes_v[q].1);
                    assert(fresh@[p].1.node_hash() == root_bytes@);
                    assert(root_node_available(fresh@, idx, root_bytes@));
                }
            }
        }
        // the value deltas, in the order given, each at this version
        let mut values: Vec<((u64, KeyHash), Option<OwnedValue>)> = Vec::new();
        let mut j: usize = 0;
        while j < n
            invariant
                j <= n,
                n == value_set@.len(),
                values@.len() == j,
                forall|q: int|
                    0 <= q < j ==> ((#[trigger] values@[q]).0).0 == version && (values@[q].0).1@
                        == value_set@[q].0@ && opt_view(values@[q].1) == opt_view(value_set@[q].1),
            decreases n - j,
        {
            let entry = &value_set[j];
            values.push(((version, entry.0.clone()), crate::db_adapter::clone_opt_bytes(&entry.1)));
            j = j + 1;
        }
        let batch = crate::node::TreeUpdateBatch {
            node_batch: crate::node::NodeBatch { nodes: fresh, values },
            stale_node_index_batch: stale,
        };
        Ok((crate::digest::RootHash::from_bytes(root_bytes), batch))
    }

    /// Persist an update batch produced by `put_value_set` at a version
    /// strictly above the latest one. The history gains exactly the batch's
    /// deltas and the latest version advances to the batch's version.
    pub fn write_update_batch(&mut self, batch: crate::node::TreeUpdateBatch) -> (r: Result<
        (),
        LeftRightTrieError,
    >)
        requires
            old(self).wf(),
            forall|i: int|
                0 <= i < batch.node_batch.nodes@.len() ==> (
                #[trigger] batch.node_batch.nodes@[i]).0.wf()
                    && batch.node_batch.nodes@[i].1.wf(),
            forall|i: int|
                0 <= i < batch.node_batch.values@.len() ==> ((
                #[trigger] batch.node_batch.values@[i]).0).0 >= old(self).version_spec(),
            forall|i: int, j: int|
                0 <= i <= j < batch.node_batch.values@.len() ==> ((
                #[trigger] batch.node_batch.values@[i]).0).0 <= ((
                #[trigger] batch.node_batch.values@[j]).0).0,
        ensures
            final(self).wf(),
            r is Ok,
            final(self).hist() == crate::db_adapter::spec_apply_deltas(
                old(self).hist(),
                batch.node_batch.values@,
            ),
            final(self).version_spec() == crate::db_adapter::spec_batch_latest(
                batch.node_batch.values@,
                old(self).version_spec(),
            ),
    {
        self.reader.update_batch(batch)
    }
}

impl Clone for JellyfishMerkleTree {
    fn clone(&self) -> (r: Self)
        ensures
            r.hist() == self.hist(),
            r.version_spec() == self.version_spec(),
    {
        JellyfishMerkleTree { reader: self.reader.clone() }
    }
}

/// Some entry of the list carries the key.
pub open spec fn contains_key(s: Seq<(KeyHash, Vec<u8>)>, k: Seq<u8>) -> bool {
    exists|p: int| 0 <= p < s.len() && (#[trigger] s[p]).0@ == k
}

/// No key appears twice.
pub open spec fn keys_distinct(s: Seq<(KeyHash, Vec<u8>)>) -> bool {
    forall|p: int, q: int| 0 <= p < q < s.len() ==> s[p].0@ != s[q].0@
}

/// Strictly ascending by key hash.
pub open spec fn sorted_by_key(s: Seq<(KeyHash, Vec<u8>)>) -> bool {
    forall|p: int|
        0 <= p < s.len() - 1 ==> crate::assoc::lex_lt((#[trigger] s[p]).0@, s[p + 1].0@)
}

/// One of the first `n` entries of `s` carries this key and value.
pub open spec fn entry_from_upto(
    s: Seq<(KeyHash, Vec<u8>)>,
    n: int,
    key: Seq<u8>,
    val: Seq<u8>,
) -> bool {
    exists|q: int| 0 <= q < n && (#[trigger] s[q]).0@ == key && s[q].1@ == val
}

/// Every entry of `r` carries the key and value of some entry of `s`.
pub open spec fn all_from(s: Seq<(KeyHash, Vec<u8>)>, r: Seq<(KeyHash, Vec<u8>)>) -> bool {
    forall|p: int|
        0 <= p < r.len() ==> entry_from_upto(s, s.len() as int, (#[trigger] r[p]).0@, r[p].1@)
}

/// Sort entries by key hash, ascending. Keys must be distinct; the result
/// holds exactly the input's entries.
fn sort_by_key(input: Vec<(KeyHash, OwnedValue)>) -> (r: Vec<(KeyHash, OwnedValue)>)
    requires
        keys_distinct(input@),
    ensures
        r@.len() == input@.len(),
        sorted_by_key(r@),
        keys_distinct(r@),
        all_from(input@, r@),
        forall|k: Seq<u8>| contains_key(input@, k) ==> contains_key(r@, k),
    decreases input@.len(),
{
    let mut out: Vec<(KeyHash, OwnedValue)> = Vec::new();
    let mut i: usize = 0;
    while i < input.len()
        invariant
            i <= input@.len(),
            keys_distinct(input@),
            out@.len() == i,
            sorted_by_key(out@),
            keys_distinct(out@),
            forall|p: int|
                0 <= p < out@.len() ==> entry_from_upto(
                    input@,
                    i as int,
                    (#[trigger] out@[p]).0@,
                    out@[p].1@,
                ),
            forall|q: int| 0 <= q < i ==> contains_key(out@, (#[trigger] input@[q]).0@),
        decreases input@.len() - i,
    {
        let item = (input[i].0.clone(), crate::assoc::bytes_clone(&input[i].1));
        let ghost x = item;
        proof {
            assert(x.0@ == input@[i as int].0@ && x.1@ == input@[i as int].1@);
        }
        let mut pos: usize = 0;
        while pos < out.len() && !crate::assoc::bytes_lt(&item.0.as_bytes(), &out[pos].0.as_bytes())
            invariant
                pos <= out@.len(),
                item.0@ == x.0@,
                forall|j: int| 0 <= j < pos ==> !crate::assoc::lex_lt(x.0@, (#[trigger] out@[j]).0@),
            decreases out@.len() - pos,
        {
            pos = pos + 1;
        }
        let ghost before = out@;
        let ghost posg = pos as int;
        proof {
            // the new key differs from every sorted key: each came from an
            // earlier input entry
            assert forall|j: int| 0 <= j < before.len() implies (#[trigger] before[j]).0@
                != x.0@ by {
                assert(entry_from_upto(input@, i as int, before[j].0@, before[j].1@));
                let q = choose|q: int|
                    0 <= q < i && (#[trigger] input@[q]).0@ == before[j].0@ && input@[q].1@
                        == before[j].1@;
                assert(input@[q].0@ != input@[i as int].0@);
            }
            assert forall|j: int| 0 <= j < posg implies crate::assoc::lex_lt(
                (#[trigger] before[j]).0@,
                x.0@,
            ) by {
                crate::assoc::lemma_lex_total(before[j].0@, x.0@);
            }
        }
        out.insert(pos, item);
        proof {
            assert(out@ == before.insert(posg, x));
            assert(forall|j: int| 0 <= j < posg ==> out@[j] == (#[trigger] before[j]));
            assert(out@[posg] == x);
            assert(forall|j: int|
                posg < j < out@.len() ==> (#[trigger] out@[j]) == before[j - 1]);
            assert forall|p: int|
                0 <= p < out@.len() - 1 implies crate::assoc::lex_lt(
                (#[trigger] out@[p]).0@,
                out@[p + 1].0@,
            ) by {
                if p + 1 < posg {
                    assert(out@[p] == before[p] && out@[p + 1] == before[p + 1]);
                } else if p + 1 == posg {
                    assert(out@[p] == before[p] && out@[p + 1] == x);
                } else if p == posg {
                    assert(out@[p] == x && out@[p + 1] == before[p]);
                    assert(pos < before.len());
                    assert(crate::assoc::lex_lt(x.0@, before[posg].0@));
                } else {
                    assert(out@[p] == before[p - 1] && out@[p + 1] == before[p]);
                }
            }
            assert forall|p: int, q: int| 0 <= p < q < out@.len() implies out@[p].0@
                != out@[q].0@ by {
                if p == posg {
                    assert(out@[q] == before[q - 1]);
                } else if q == posg {
                    assert(out@[p] == before[p]);
                }
            }
            assert forall|p: int| 0 <= p < out@.len() implies entry_from_upto(
                input@,
                i + 1,
                (#[trigger] out@[p]).0@,
                out@[p].1@,
            ) by {
                if p == posg {
                    assert(input@[i as int].0@ == out@[p].0@ && input@[i as int].1@
                        == out@[p].1@);
                } else {
                    let pp: int = if p < posg {
                        p
                    } else {
                        p - 1
                    };
                    assert(out@[p].0@ == before[pp].0@ && out@[p].1@ == before[pp].1@);
                    assert(entry_from_upto(input@, i as int, before[pp].0@, before[pp].1@));
                    let q = choose|q: int|
                        0 <= q < i && (#[trigger] input@[q]).0@ == before[pp].0@ && input@[q].1@
                            == before[pp].1@;
                    assert(0 <= q < i + 1 && input@[q].0@ == out@[p].0@ && input@[q].1@
                        == out@[p].1@);
                }
            }
            assert forall|q: int| 0 <= q < i + 1 implies contains_key(
                out@,
                (#[trigger] input@[q]).0@,
            ) by {
                if q == i {
                    assert(out@[posg].0@ == input@[q].0@);
                } else {
                    let p = choose|p: int|
                        0 <= p < before.len() && (#[trigger] before[p]).0@ == input@[q].0@;
                    if p < posg {
                        assert(out@[p].0@ == input@[q].0@);
                    } else {
                        assert(out@[p + 1].0@ == input@[q].0@);
                    }
                }
            }
        }
        i = i + 1;
    }
    proof {
        assert(i as int == input@.len() as int);
    }
    out
}

impl JellyfishMerkleTree {
    /// The entries visible at a version, in ascending key-hash order,
    /// starting at the first key at or above `starting_key`. Never fails on
    /// the in-memory backend.
    pub fn iter(&self, version: u64, starting_key: &KeyHash) -> (r: Result<
        Vec<(KeyHash, OwnedValue)>,
        LeftRightTrieError,
    >)
        requires
            self.wf(),
        ensures
            r is Ok,
            r matches Ok(list) ==> sorted_by_key(list@) && forall|p: int|
                0 <= p < list@.len() ==> lookup(self.hist(), (#[trigger] list@[p]).0@, version)
                    == Some(list@[p].1@) && !crate::assoc::lex_lt(list@[p].0@, starting_key@),
            r matches Ok(list) ==> forall|k: int|
                0 <= k < self.hist().len() && value_at((#[trigger] self.hist()[k]).1, version)
                    is Some && !crate::assoc::lex_lt(self.hist()[k].0, starting_key@)
                    ==> contains_key(list@, self.hist()[k].0),
    {
        let ghost hv = self.hist();
        let hist = self.reader().value_history();
        let mut collected: Vec<(KeyHash, OwnedValue)> = Vec::new();
        let mut k: usize = 0;
        while k < hist.len()
            invariant
                k <= hist@.len(),
                crate::jmt::wf_hist(hv),
                hv == crate::db_adapter::history_view(hist@),
                forall|p: int|
                    0 <= p < collected@.len() ==> lookup(hv, (#[trigger] collected@[p]).0@, version)
                        == Some(collected@[p].1@) && !crate::assoc::lex_lt(
                        collected@[p].0@,
                        starting_key@,
                    ),
                keys_distinct(collected@),
                forall|p: int|
                    0 <= p < collected@.len() ==> exists|q: int|
                        0 <= q < k && hv[q].0 == (#[trigger] collected@[p]).0@,
                forall|q: int|
                    0 <= q < k && value_at((#[trigger] hv[q]).1, version) is Some
                        && !crate::assoc::lex_lt(hv[q].0, starting_key@) ==> contains_key(
                        collected@,
                        hv[q].0,
                    ),
            decreases hist@.len() - k,
        {
            let entry = &hist[k];
            let ghost pre = collected@;
            proof {
                crate::assoc::lemma_assoc_get_at(hv, k as int);
            }
            match crate::db_adapter::value_at_exec(&entry.1, version) {
                Some(val) => {
                    if !crate::assoc::bytes_lt(&entry.0.as_bytes(), starting_key.as_bytes()) {
                        proof {
                            assert forall|p: int| 0 <= p < pre.len() implies (
                            #[trigger] pre[p]).0@ != hv[k as int].0 by {
                                let q = choose|q: int|
                                    0 <= q < k && hv[q].0 == (#[trigger] pre[p]).0@;
                            }
                        }
                        collected.push((entry.0.clone(), val));
                        proof {
                            assert(collected@.last().0@ == hv[k as int].0);
                            assert(forall|p: int|
                                0 <= p < pre.len() ==> (#[trigger] collected@[p]) == pre[p]);
                        }
                    }
                },
                None => {},
            }
            proof {
                assert forall|q: int|
                    0 <= q < k + 1 && value_at((#[trigger] hv[q]).1, version) is Some
                        && !crate::assoc::lex_lt(hv[q].0, starting_key@) implies contains_key(
                    collected@,
                    hv[q].0,
                ) by {
                    if q < k {
                        let p = choose|p: int|
                            0 <= p < pre.len() && (#[trigger] pre[p]).0@ == hv[q].0;
                        assert(collected@[p].0@ == hv[q].0);
                    } else {
                        assert(collected@[collected@.len() - 1].0@ == hv[q].0);
                    }
                }
            }
            k = k + 1;
        }
        let ghost coll = collected@;
        let sorted = sort_by_key(collected);
        proof {
            assert forall|p: int|
                0 <= p < sorted@.len() implies lookup(hv, (#[trigger] sorted@[p]).0@, version)
                == Some(sorted@[p].1@) && !crate::assoc::lex_lt(
                sorted@[p].0@,
                starting_key@,
            ) by {
                assert(entry_from_upto(coll, coll.len() as int, sorted@[p].0@, sorted@[p].1@));
                let q = choose|q: int|
                    0 <= q < coll.len() && (#[trigger] coll[q]).0@ == sorted@[p].0@ && coll[q].1@
                        == sorted@[p].1@;
            }
        }
        Ok(sorted)
    }
}

/// Inserting a value and reading it back at the same version returns the
/// value, and the key then counts as contained.
pub proof fn lemma_insert_round_trip(h: HistoryView, key: Seq<u8>, v: u64, val: Seq<u8>)
    requires
        wf_hist(h),
        versions_le(h, v),
        key.len() == 32,
    ensures
        lookup(upsert(h, key, v, Some(val)), key, v) == Some(val),
        lookup(upsert(h, key, v, Some(val)), key, v) is Some,
{
    lemma_upsert(h, key, v, Some(val));
}

/// Removing a key hides it from the removal's version on, and reads below
/// that version are exactly what they were before.
pub proof fn lemma_remove_visibility(h: HistoryView, key: Seq<u8>, v: u64)
    requires
        wf_hist(h),
        versions_le(h, v),
        key.len() == 32,
    ensures
        lookup(upsert(h, key, v, None), key, v) is None,
        forall|x: u64| x < v ==> lookup(upsert(h, key, v, None), key, x) == lookup(h, key, x),
{
    lemma_upsert(h, key, v, None);
}

/// After an upsert, the key's entry list ends with the new event.
pub proof fn lemma_upsert_entries(h: HistoryView, key: Seq<u8>, v: u64, val: Option<Seq<u8>>)
    requires
        wf_hist(h),
        versions_le(h, v),
        key.len() == 32,
    ensures
        assoc_get(upsert(h, key, v, val), key) matches Some(es) && es.len() >= 1 && es.last() == (
        v,
        val,
        ),
{
    lemma_assoc_get_has(h, key);
    lemma_assoc_has_exists(h, key);
    match assoc_get(h, key) {
        Some(es) => {
            let es2: HistoryEntries = if es.len() > 0 && es.last().0 == v {
                es.drop_last().push((v, val))
            } else {
                es.push((v, val))
            };
            let kk = choose|kk: int| 0 <= kk < h.len() && h[kk].0 == key;
            lemma_assoc_get_at(h, kk);
            lemma_assoc_update(h, key, es2);
        },
        None => {
            lemma_assoc_push_get(h, key, seq![(v, val)]);
        },
    }
}

/// Re-applying the same event at the same version leaves the history as
/// after the first application: persisting a batch is idempotent.
pub proof fn lemma_upsert_idempotent(h: HistoryView, key: Seq<u8>, v: u64, val: Option<Seq<u8>>)
    requires
        wf_hist(h),
        versions_le(h, v),
        key.len() == 32,
    ensures
        upsert(upsert(h, key, v, val), key, v, val) == upsert(h, key, v, val),
{
    let h1 = upsert(h, key, v, val);
    lemma_upsert(h, key, v, val);
    lemma_upsert_entries(h, key, v, val);
    let es1 = assoc_get(h1, key).unwrap();
    assert(es1.last() == (v, val));
    // the second application replaces the last entry with itself
    assert(es1.drop_last().push((v, val)) =~= es1);
    assert(upsert(h1, key, v, val) == assoc_update(h1, key, es1));
    crate::assoc::lemma_assoc_get_has(h1, key);
    lemma_assoc_has_exists(h1, key);
    let kk = choose|kk: int| 0 <= kk < h1.len() && h1[kk].0 == key;
    lemma_assoc_get_at(h1, kk);
    assert(h1[kk].1 == es1);
    crate::assoc::lemma_assoc_update_at_index(h1, kk, es1);
    assert(h1.update(kk, (h1[kk].0, es1)) =~= h1);
    assert(assoc_update(h1, key, es1) =~= h1);
}

/// The versions in any key's history are strictly increasing.
pub proof fn lemma_history_monotone(h: HistoryView, k: int, i: int, j: int)
    requires
        wf_hist(h),
        0 <= k < h.len(),
        0 <= i < j < h[k].1.len(),
    ensures
        h[k].1[i].0 < h[k].1[j].0,
{
}

/// A sequence of value sets applied from the empty history, each at its
/// version.
pub open spec fn build_history(sets: Seq<(Seq<(Seq<u8>, Option<Seq<u8>>)>, u64)>) -> HistoryView
    decreases sets.len(),
{
    if sets.len() == 0 {
        Seq::empty()
    } else {
        apply_value_set(build_history(sets.drop_last()), sets.last().0, sets.last().1)
    }
}

/// Root determinism: two trees built from the same sequence of value sets
/// carry identical root hashes at every version.
pub proof fn lemma_root_determinism(
    sets: Seq<(Seq<(Seq<u8>, Option<Seq<u8>>)>, u64)>,
    h1: HistoryView,
    h2: HistoryView,
    v: u64,
)
    requires
        h1 == build_history(sets),
        h2 == build_history(sets),
    ensures
        root_at(h1, v) == root_at(h2, v),
{
}

/// Proof soundness: the proof generated for any key at any version checks
/// out against that version's root hash, and claims exactly the key's
/// value digest at that version, or absence.
pub proof fn lemma_proof_soundness(h: HistoryView, key: Seq<u8>, v: u64)
    requires
        wf_hist(h),
        key.len() == 32,
    ensures
        crate::tree_hash::proof_checks(
            key,
            root_at(h, v),
            gen_proof(leaves_at(h, v), key, 0),
        ),
        crate::tree_hash::proof_claims(gen_proof(leaves_at(h, v), key, 0), key) == (match lookup(
            h,
            key,
            v,
        ) {
            Some(val) => Some(sha256_of(val)),
            None => None::<Seq<u8>>,
        }),
{
    let s = leaves_at(h, v);
    lemma_leaves_wf(h, v);
    crate::tree_hash::lemma_gen_proof(s, key, 0);
    lemma_lookup_leaves(h, key, v);
    let p = gen_proof(s, key, 0);
    assert(crate::tree_hash::fold_root(
        key,
        crate::tree_hash::base_hash(p.leaf),
        p.levels,
        0,
    ) == crate::tree_hash::subtree_root(s, 0));
}

/// Proof completeness for exclusion: for a key absent at a version, the
/// generated proof checks out against that version's root and claims
/// absence.
pub proof fn lemma_exclusion_completeness(h: HistoryView, key: Seq<u8>, v: u64)
    requires
        wf_hist(h),
        key.len() == 32,
        lookup(h, key, v) is None,
    ensures
        crate::tree_hash::proof_checks(
            key,
            root_at(h, v),
            gen_proof(leaves_at(h, v), key, 0),
        ),
        crate::tree_hash::proof_claims(gen_proof(leaves_at(h, v), key, 0), key) is None,
{
    lemma_proof_soundness(h, key, v);
}

} // verus!
