//! The in-memory versioned database: the authoritative per-key value
//! history, the node store, and the stale-node indices, written atomically
//! batch by batch.

use crate::assoc::{
    bytes_clone, bytes_eq, lemma_assoc_get_at, lemma_assoc_get_none, lemma_assoc_has_exists,
    lemma_assoc_update_at_index,
};
use crate::digest::KeyHash;
use crate::errors::LeftRightTrieError;
use crate::jmt::{
    lemma_upsert, lookup, opt_view, upsert, value_at, versions_le, wf_hist, HistoryView,
    OwnedValue, Version,
};
use crate::node::{
    encode_node, encode_node_key, spec_encode_node, spec_encode_node_key, Node, NodeBatch,
    NodeKey, StaleNodeIndex, TreeUpdateBatch,
};
use vstd::prelude::*;

verus! {

/// The view of one key's executable history entries.
pub open spec fn entries_view(es: Seq<(u64, Option<Vec<u8>>)>) -> Seq<(u64, Option<Seq<u8>>)> {
    Seq::new(es.len(), |i: int| (es[i].0, opt_view(es[i].1)))
}

/// The view of the executable value history.
pub open spec fn history_view(
    h: Seq<(KeyHash, Vec<(u64, Option<Vec<u8>>)>)>,
) -> HistoryView {
    Seq::new(h.len(), |k: int| (h[k].0@, entries_view(h[k].1@)))
}

/// Copy an optional byte value.
pub fn clone_opt_bytes(o: &Option<Vec<u8>>) -> (r: Option<Vec<u8>>)
    ensures
        opt_view(r) == opt_view(*o),
{
    match o {
        Some(v) => Some(bytes_clone(v)),
        None => None,
    }
}

/// Copy one key's history entries.
fn clone_entries(es: &Vec<(u64, Option<Vec<u8>>)>) -> (r: Vec<(u64, Option<Vec<u8>>)>)
    ensures
        entries_view(r@) == entries_view(es@),
{
    let mut r: Vec<(u64, Option<Vec<u8>>)> = Vec::new();
    let mut i: usize = 0;
    while i < es.len()
        invariant
            i <= es@.len(),
            r@.len() == i,
            forall|q: int|
                0 <= q < i ==> (#[trigger] r@[q]).0 == es@[q].0 && opt_view(r@[q].1) == opt_view(
                    es@[q].1,
                ),
        decreases es@.len() - i,
    {
        let e = &es[i];
        r.push((e.0, clone_opt_bytes(&e.1)));
        i = i + 1;
    }
    proof {
        assert(entries_view(r@) =~= entries_view(es@));
    }
    r
}

/// Copy a whole value history.
pub fn clone_history(h: &Vec<(KeyHash, Vec<(u64, Option<Vec<u8>>)>)>) -> (r: Vec<
    (KeyHash, Vec<(u64, Option<Vec<u8>>)>),
>)
    ensures
        history_view(r@) == history_view(h@),
{
    let mut r: Vec<(KeyHash, Vec<(u64, Option<Vec<u8>>)>)> = Vec::new();
    let mut i: usize = 0;
    while i < h.len()
        invariant
            i <= h@.len(),
            r@.len() == i,
            forall|q: int|
                0 <= q < i ==> (#[trigger] r@[q]).0@ == h@[q].0@ && entries_view(r@[q].1@)
                    == entries_view(h@[q].1@),
        decreases h@.len() - i,
    {
        let e = &h[i];
        r.push((e.0.clone(), clone_entries(&e.1)));
        i = i + 1;
    }
    proof {
        assert(history_view(r@) =~= history_view(h@));
    }
    r
}

/// Read one key's entries at or below a version.
pub fn value_at_exec(es: &Vec<(u64, Option<Vec<u8>>)>, v: u64) -> (r: Option<Vec<u8>>)
    ensures
        opt_view(r) == value_at(entries_view(es@), v),
{
    let ghost ev = entries_view(es@);
    proof {
        assert(ev.take(es@.len() as int) =~= ev);
    }
    let mut i: usize = es.len();
    while i > 0
        invariant
            i <= es@.len(),
            ev == entries_view(es@),
            value_at(ev, v) == value_at(ev.take(i as int), v),
        decreases i,
    {
        i = i - 1;
        proof {
            assert(ev.take(i + 1).last() == ev[i as int]);
            assert(ev.take(i + 1).drop_last() =~= ev.take(i as int));
        }
        if es[i].0 <= v {
            let r = clone_opt_bytes(&es[i].1);
            proof {
                assert(value_at(ev.take(i + 1), v) == ev[i as int].1);
            }
            return r;
        }
    }
    proof {
        assert(ev.take(0) =~= Seq::<(u64, Option<Seq<u8>>)>::empty());
    }
    None
}

/// Record one key's event at a version in the executable history.
pub fn upsert_exec(
    h: &mut Vec<(KeyHash, Vec<(u64, Option<Vec<u8>>)>)>,
    key: &KeyHash,
    v: u64,
    val: Option<Vec<u8>>,
)
    requires
        wf_hist(history_view(old(h)@)),
    ensures
        history_view(final(h)@) == upsert(history_view(old(h)@), key@, v, opt_view(val)),
{
    let ghost hv = history_view(h@);
    let ghost valv = opt_view(val);
    proof {
        lemma_assoc_has_exists(hv, key@);
        crate::assoc::lemma_assoc_get_has(hv, key@);
    }
    let mut idx: usize = 0;
    let n = h.len();
    let mut found = false;
    while idx < n && !found
        invariant
            idx <= n,
            n == h@.len(),
            hv == history_view(h@),
            found ==> idx < n && hv[idx as int].0 == key@,
            !found ==> forall|q: int| 0 <= q < idx ==> hv[q].0 != key@,
        decreases n - idx + (if found {
            0int
        } else {
            1int
        }),
    {
        if h[idx].0.eq(key) {
            found = true;
        } else {
            idx = idx + 1;
        }
    }
    if found {
        proof {
            lemma_assoc_get_at(hv, idx as int);
        }
        let ghost es = hv[idx as int].1;
        let mut entry = h.remove(idx);
        proof {
            assert(entries_view(entry.1@) == es);
            assert(es.len() >= 1);
            assert(es.last() == (entry.1@.last().0, opt_view(entry.1@.last().1)));
        }
        let elen = entry.1.len();
        let last_is_v = entry.1[elen - 1].0 == v;
        proof {
            assert(last_is_v == (es.last().0 == v));
        }
        if last_is_v {
            let _ = entry.1.pop();
            proof {
                assert(entries_view(entry.1@) =~= es.drop_last());
            }
        }
        let ghost base = entries_view(entry.1@);
        entry.1.push((v, val));
        proof {
            assert(entries_view(entry.1@) =~= base.push((v, valv)));
        }
        h.insert(idx, entry);
        proof {
            let es2: Seq<(u64, Option<Seq<u8>>)> = if es.last().0 == v {
                es.drop_last().push((v, valv))
            } else {
                es.push((v, valv))
            };
            assert(entries_view(entry.1@) == es2);
            assert(h@ =~= old(h)@.update(idx as int, entry));
            assert(history_view(h@) =~= hv.update(idx as int, (key@, es2)));
            lemma_assoc_update_at_index(hv, idx as int, es2);
            assert(hv[idx as int].0 == key@);
            assert(history_view(h@) =~= upsert(hv, key@, v, valv));
        }
    } else {
        proof {
            lemma_assoc_get_none(hv, key@);
        }
        let mut es_new: Vec<(u64, Option<Vec<u8>>)> = Vec::new();
        es_new.push((v, val));
        proof {
            assert(entries_view(es_new@) =~= seq![(v, valv)]);
        }
        h.push((key.clone(), es_new));
        proof {
            assert(history_view(h@) =~= hv.push((key@, seq![(v, valv)])));
        }
    }
}

/// A generic in-memory database adapter: the value history is the
/// authoritative record; nodes are persisted in their serialized form;
/// superseded nodes are remembered until pruned.
#[derive(Debug)]
pub struct DbAdapter {
    value_history: Vec<(KeyHash, Vec<(u64, Option<Vec<u8>>)>)>,
    latest: u64,
    nodes: Vec<(Vec<u8>, Vec<u8>)>,
    node_index: Vec<(Vec<u8>, (u64, Vec<u8>))>,
    stale_nodes: Vec<StaleNodeIndex>,
}

/// The pair is the encoding of a well-formed node key and node.
pub open spec fn stored_node_wf(e: (Seq<u8>, Seq<u8>)) -> bool {
    exists|nk: NodeKey, n: Node|
        #![trigger spec_encode_node_key(nk.version, nk.nibble_path@), spec_encode_node(n)]
        nk.wf() && n.wf() && e.0 == spec_encode_node_key(nk.version, nk.nibble_path@) && e.1
            == spec_encode_node(n)
}

/// The index entry's stored bytes are a well-formed node's serialization.
pub open spec fn indexed_node_wf(e: (Seq<u8>, (u64, Seq<u8>))) -> bool {
    exists|n: Node| #[trigger] n.wf() && (e.1).1 == spec_encode_node(n)
}

/// The bytes encode some well-formed node committing to hash `h`.
pub open spec fn encoded_commits(en: Seq<u8>, h: Seq<u8>) -> bool {
    exists|n: Node| #[trigger] n.wf() && en == spec_encode_node(n) && n.node_hash() == h
}

/// The pair is stored, byte for byte.
pub open spec fn pair_stored(store: Seq<(Seq<u8>, Seq<u8>)>, ek: Seq<u8>, en: Seq<u8>) -> bool {
    exists|q: int| 0 <= q < store.len() && #[trigger] store[q] == (ek, en)
}

/// The node store and current-tree index after persisting a batch's nodes,
/// first node first: a pair already stored identically is skipped; a fresh
/// pair is appended and the index maps its path to (creating version,
/// serialized node).
pub open spec fn spec_store_nodes(
    store: Seq<(Seq<u8>, Seq<u8>)>,
    idx: Seq<(Seq<u8>, (u64, Seq<u8>))>,
    ns: Seq<(NodeKey, Node)>,
) -> (Seq<(Seq<u8>, Seq<u8>)>, Seq<(Seq<u8>, (u64, Seq<u8>))>)
    decreases ns.len(),
{
    if ns.len() == 0 {
        (store, idx)
    } else {
        let ek = spec_encode_node_key(ns[0].0.version, ns[0].0.nibble_path@);
        let en = spec_encode_node(ns[0].1);
        if pair_stored(store, ek, en) {
            spec_store_nodes(store, idx, ns.drop_first())
        } else {
            spec_store_nodes(
                store.push((ek, en)),
                crate::assoc::assoc_update(idx, ns[0].0.nibble_path@, (ns[0].0.version, en)),
                ns.drop_first(),
            )
        }
    }
}

/// The index entry survives into the new node set: some new node sits at
/// its path with the same serialized form.
pub open spec fn entry_kept(ns: Seq<(NodeKey, Node)>, e: (Seq<u8>, (u64, Seq<u8>))) -> bool {
    exists|j: int|
        0 <= j < ns.len() && (#[trigger] ns[j]).0.nibble_path@ == e.0 && spec_encode_node(ns[j].1)
            == (e.1).1
}

/// A stale index for this path and creating version is listed.
pub open spec fn stale_listed(r: Seq<StaleNodeIndex>, path: Seq<u8>, created: u64) -> bool {
    exists|p: int|
        0 <= p < r.len() && (#[trigger] r[p]).node_key.nibble_path@ == path
            && r[p].node_key.version == created
}

/// The node is already current: the index holds its path with the same
/// serialized form.
pub open spec fn node_current(idx: Seq<(Seq<u8>, (u64, Seq<u8>))>, nk: NodeKey, n: Node) -> bool {
    exists|q: int|
        0 <= q < idx.len() && (#[trigger] idx[q]).0 == nk.nibble_path@ && (idx[q].1).1
            == spec_encode_node(n)
}

/// Some listed node carries this path, version and serialized form, and is
/// not already current.
pub open spec fn fresh_from(
    ns: Seq<(NodeKey, Node)>,
    idx: Seq<(Seq<u8>, (u64, Seq<u8>))>,
    path: Seq<u8>,
    ver: u64,
    en: Seq<u8>,
) -> bool {
    exists|i: int|
        0 <= i < ns.len() && (#[trigger] ns[i]).0.nibble_path@ == path && ns[i].0.version == ver
            && spec_encode_node(ns[i].1) == en && !node_current(idx, ns[i].0, ns[i].1)
}

/// Some listed node carries this path, version and serialized form.
pub open spec fn fresh_listed(
    r: Seq<(NodeKey, Node)>,
    path: Seq<u8>,
    ver: u64,
    en: Seq<u8>,
) -> bool {
    exists|p: int|
        0 <= p < r.len() && (#[trigger] r[p]).0.nibble_path@ == path && r[p].0.version == ver
            && spec_encode_node(r[p].1) == en
}

/// An index entry's stale record stems from a currently indexed path whose
/// node is gone or changed in the new node set.
pub open spec fn stale_from(
    idx: Seq<(Seq<u8>, (u64, Seq<u8>))>,
    ns: Seq<(NodeKey, Node)>,
    e: StaleNodeIndex,
) -> bool {
    exists|q: int|
        0 <= q < idx.len() && (#[trigger] idx[q]).0 == e.node_key.nibble_path@ && (idx[q].1).0
            == e.node_key.version && !entry_kept(ns, idx[q])
}

/// Persisting one more node persists it after the rest.
pub proof fn lemma_store_nodes_push(
    store: Seq<(Seq<u8>, Seq<u8>)>,
    idx: Seq<(Seq<u8>, (u64, Seq<u8>))>,
    ns: Seq<(NodeKey, Node)>,
    x: (NodeKey, Node),
)
    ensures
        spec_store_nodes(store, idx, ns.push(x)) == ({
            let (s2, i2) = spec_store_nodes(store, idx, ns);
            let ek = spec_encode_node_key(x.0.version, x.0.nibble_path@);
            let en = spec_encode_node(x.1);
            if pair_stored(s2, ek, en) {
                (s2, i2)
            } else {
                (
                    s2.push((ek, en)),
                    crate::assoc::assoc_update(i2, x.0.nibble_path@, (x.0.version, en)),
                )
            }
        }),
    decreases ns.len(),
{
    if ns.len() == 0 {
        assert(ns.push(x)[0] == x);
        assert(ns.push(x).drop_first() =~= Seq::<(NodeKey, Node)>::empty());
        let ek = spec_encode_node_key(x.0.version, x.0.nibble_path@);
        let en = spec_encode_node(x.1);
        assert(spec_store_nodes(store, idx, ns) == (store, idx));
        if pair_stored(store, ek, en) {
            assert(spec_store_nodes(store, idx, ns.push(x).drop_first()) == (store, idx));
        } else {
            assert(spec_store_nodes(
                store.push((ek, en)),
                crate::assoc::assoc_update(idx, x.0.nibble_path@, (x.0.version, en)),
                ns.push(x).drop_first(),
            ) == (
                store.push((ek, en)),
                crate::assoc::assoc_update(idx, x.0.nibble_path@, (x.0.version, en)),
            ));
        }
    } else {
        assert(ns.push(x)[0] == ns[0]);
        assert(ns.push(x).drop_first() =~= ns.drop_first().push(x));
        let ek = spec_encode_node_key(ns[0].0.version, ns[0].0.nibble_path@);
        let en = spec_encode_node(ns[0].1);
        if pair_stored(store, ek, en) {
            lemma_store_nodes_push(store, idx, ns.drop_first(), x);
        } else {
            lemma_store_nodes_push(
                store.push((ek, en)),
                crate::assoc::assoc_update(idx, ns[0].0.nibble_path@, (ns[0].0.version, en)),
                ns.drop_first(),
                x,
            );
        }
    }
}

impl DbAdapter {
    /// The value history's view.
    pub closed spec fn hist(&self) -> HistoryView {
        history_view(self.value_history@)
    }

    /// The latest version known to the database.
    pub closed spec fn latest_version(&self) -> u64 {
        self.latest
    }

    /// The serialized node store: (encoded node key, encoded node) pairs in
    /// write order.
    pub closed spec fn nodes_view(&self) -> Seq<(Seq<u8>, Seq<u8>)> {
        Seq::new(self.nodes@.len(), |i: int| (self.nodes@[i].0@, self.nodes@[i].1@))
    }

    /// The current tree's node index: nibble path, creating version, and
    /// the node's serialized form.
    pub closed spec fn index_view(&self) -> Seq<(Seq<u8>, (u64, Seq<u8>))> {
        Seq::new(
            self.node_index@.len(),
            |i: int| (self.node_index@[i].0@, (self.node_index@[i].1.0, self.node_index@[i].1.1@)),
        )
    }

    /// Every stored pair decodes to a well-formed node under a well-formed
    /// key, and every indexed node is a well-formed node's serialization.
    pub open spec fn nodes_wf(&self) -> bool {
        &&& forall|i: int|
            0 <= i < self.nodes_view().len() ==> stored_node_wf(#[trigger] self.nodes_view()[i])
        &&& forall|q: int|
            0 <= q < self.index_view().len() ==> indexed_node_wf(#[trigger] self.index_view()[q])
    }

    /// Well-formed: the history is well-formed and no version exceeds the
    /// latest one.
    pub open spec fn wf(&self) -> bool {
        &&& wf_hist(self.hist())
        &&& versions_le(self.hist(), self.latest_version())
    }

    /// An empty database at version 0.
    pub fn new() -> (r: DbAdapter)
        ensures
            r.wf(),
            r.nodes_wf(),
            r.hist() =~= Seq::<(Seq<u8>, Seq<(u64, Option<Seq<u8>>)>)>::empty(),
            r.nodes_view() =~= Seq::<(Seq<u8>, Seq<u8>)>::empty(),
            r.index_view() =~= Seq::<(Seq<u8>, (u64, Seq<u8>))>::empty(),
            r.stale_view() =~= Seq::<StaleNodeIndex>::empty(),
            r.latest_version() == 0,
    {
        let r = DbAdapter {
            value_history: Vec::new(),
            latest: 0,
            nodes: Vec::new(),
            node_index: Vec::new(),
            stale_nodes: Vec::new(),
        };
        proof {
            assert(r.hist() =~= Seq::<(Seq<u8>, Seq<(u64, Option<Seq<u8>>)>)>::empty());
            assert(r.nodes_view() =~= Seq::<(Seq<u8>, Seq<u8>)>::empty());
            assert(r.index_view() =~= Seq::<(Seq<u8>, (u64, Seq<u8>))>::empty());
        }
        r
    }

    /// The latest version.
    pub fn version(&self) -> (r: u64)
        ensures
            r == self.latest_version(),
    {
        self.latest
    }

    /// Read the value of a key from the greatest version at or below
    /// `max_version`; absent keys read as nothing. Never fails on this
    /// in-memory backend.
    pub fn get_value_option(&self, max_version: u64, key_hash: &KeyHash) -> (r: Result<
        Option<OwnedValue>,
        LeftRightTrieError,
    >)
        requires
            self.wf(),
        ensures
            r matches Ok(o) && opt_view(o) == lookup(self.hist(), key_hash@, max_version),
    {
        proof {
            lemma_assoc_has_exists(self.hist(), key_hash@);
            crate::assoc::lemma_assoc_get_has(self.hist(), key_hash@);
        }
        let n = self.value_history.len();
        let mut idx: usize = 0;
        while idx < n
            invariant
                self.wf(),
                idx <= n,
                n == self.value_history@.len(),
                forall|q: int| 0 <= q < idx ==> self.hist()[q].0 != key_hash@,
            decreases n - idx,
        {
            if self.value_history[idx].0.eq(key_hash) {
                proof {
                    lemma_assoc_get_at(self.hist(), idx as int);
                }
                return Ok(value_at_exec(&self.value_history[idx].1, max_version));
            }
            idx = idx + 1;
        }
        proof {
            lemma_assoc_get_none(self.hist(), key_hash@);
        }
        Ok(None)
    }

    /// A copy of the whole value history.
    pub fn value_history(&self) -> (r: Vec<(KeyHash, Vec<(u64, Option<Vec<u8>>)>)>)
        ensures
            history_view(r@) == self.hist(),
    {
        clone_history(&self.value_history)
    }

    /// Look a node up by its key: the first stored pair under the key's
    /// encoding, decoded; a missing node reads as nothing; a stored blob
    /// that does not decode is fatal — which cannot happen while the store
    /// is well-formed.
    pub fn get_node_option(&self, node_key: &NodeKey) -> (r: Result<
        Option<Node>,
        LeftRightTrieError,
    >)
        ensures
            r matches Err(e) ==> e is CorruptNode,
            r matches Ok(o) ==> match o {
                Some(n) => n.wf() && crate::assoc::assoc_get(
                    self.nodes_view(),
                    spec_encode_node_key(node_key.version, node_key.nibble_path@),
                ) == Some(spec_encode_node(n)),
                None => crate::assoc::assoc_get(
                    self.nodes_view(),
                    spec_encode_node_key(node_key.version, node_key.nibble_path@),
                ) is None,
            },
            self.nodes_wf() ==> r is Ok,
    {
        let wanted = encode_node_key(node_key);
        let ghost sv = self.nodes_view();
        let n = self.nodes.len();
        let mut idx: usize = 0;
        while idx < n
            invariant
                idx <= n,
                n == self.nodes@.len(),
                sv == self.nodes_view(),
                wanted@ == spec_encode_node_key(node_key.version, node_key.nibble_path@),
                forall|q: int| 0 <= q < idx ==> (#[trigger] sv[q]).0 != wanted@,
            decreases n - idx,
        {
            if bytes_eq(&self.nodes[idx].0, &wanted) {
                proof {
                    crate::assoc::lemma_assoc_get_first(sv, idx as int);
                    if self.nodes_wf() {
                        assert(stored_node_wf(sv[idx as int]));
                        let (nk2, n2) = choose|nk2: NodeKey, n2: Node|
                            #![trigger spec_encode_node_key(nk2.version, nk2.nibble_path@), spec_encode_node(n2)]
                            nk2.wf() && n2.wf() && sv[idx as int].0 == spec_encode_node_key(
                                nk2.version,
                                nk2.nibble_path@,
                            ) && sv[idx as int].1 == spec_encode_node(n2);
                        assert(n2.wf() && self.nodes@[idx as int].1@ == spec_encode_node(n2));
                    }
                }
                match crate::node::decode_node(&self.nodes[idx].1) {
                    Ok(node) => {
                        return Ok(Some(node));
                    },
                    Err(_) => {
                        return Err(LeftRightTrieError::CorruptNode);
                    },
                }
            }
            idx = idx + 1;
        }
        proof {
            crate::assoc::lemma_assoc_get_none(sv, wanted@);
        }
        Ok(None)
    }

    /// Decode and return every stored node, in write order; a stored blob
    /// that does not decode is fatal — which cannot happen while the store
    /// is well-formed, so a well-formed store always reads back in full.
    pub fn nodes(&self) -> (r: Result<Vec<(NodeKey, Node)>, LeftRightTrieError>)
        ensures
            r matches Err(e) ==> e is CorruptNode,
            r matches Ok(list) ==> list@.len() == self.nodes_view().len() && forall|i: int|
                0 <= i < list@.len() ==> (#[trigger] list@[i].0).wf() && list@[i].1.wf()
                    && spec_encode_node_key(list@[i].0.version, list@[i].0.nibble_path@)
                    == self.nodes_view()[i].0 && spec_encode_node(list@[i].1)
                    == self.nodes_view()[i].1,
            self.nodes_wf() ==> r is Ok,
    {
        let ghost sv = self.nodes_view();
        let mut out: Vec<(NodeKey, Node)> = Vec::new();
        let n = self.nodes.len();
        let mut idx: usize = 0;
        while idx < n
            invariant
                idx <= n,
                n == self.nodes@.len(),
                sv == self.nodes_view(),
                out@.len() == idx,
                forall|i: int|
                    0 <= i < out@.len() ==> (#[trigger] out@[i].0).wf() && out@[i].1.wf()
                        && spec_encode_node_key(out@[i].0.version, out@[i].0.nibble_path@)
                        == sv[i].0 && spec_encode_node(out@[i].1) == sv[i].1,
            decreases n - idx,
        {
            proof {
                if self.nodes_wf() {
                    assert(stored_node_wf(sv[idx as int]));
                    let (nk2, n2) = choose|nk2: NodeKey, n2: Node|
                        #![trigger spec_encode_node_key(nk2.version, nk2.nibble_path@), spec_encode_node(n2)]
                        nk2.wf() && n2.wf() && sv[idx as int].0 == spec_encode_node_key(
                            nk2.version,
                            nk2.nibble_path@,
                        ) && sv[idx as int].1 == spec_encode_node(n2);
                    assert(nk2.wf() && self.nodes@[idx as int].0@ == spec_encode_node_key(
                        nk2.version,
                        nk2.nibble_path@,
                    ));
                    assert(n2.wf() && self.nodes@[idx as int].1@ == spec_encode_node(n2));
                }
            }
            let nk = match crate::node::decode_node_key(&self.nodes[idx].0) {
                Ok(nk) => nk,
                Err(_) => {
                    return Err(LeftRightTrieError::CorruptNode);
                },
            };
            let node = match crate::node::decode_node(&self.nodes[idx].1) {
                Ok(node) => node,
                Err(_) => {
                    return Err(LeftRightTrieError::CorruptNode);
                },
            };
            out.push((nk, node));
            idx = idx + 1;
        }
        Ok(out)
    }

    /// The recorded stale-node indices, in the order they were persisted.
    pub closed spec fn stale_view(&self) -> Seq<StaleNodeIndex> {
        self.stale_nodes@
    }

    /// The recorded stale-node indices.
    pub fn stale_nodes(&self) -> (r: &Vec<StaleNodeIndex>)
        ensures
            r@ == self.stale_view(),
    {
        &self.stale_nodes
    }

    /// Persist a node batch: serialized nodes are stored (a pair already
    /// stored identically is skipped, so re-writing a batch is a no-op on
    /// the store), the current-tree index maps each fresh node's path to it,
    /// and the value-history deltas are applied in order. The latest version
    /// advances to the greatest version written.
    ///
    /// Idempotent: re-applying the same batch leaves the history as after
    /// the first application, because a same-version event replaces the
    /// entry it wrote before.
    pub fn write_node_batch(&mut self, batch: &NodeBatch) -> (r: Result<(), LeftRightTrieError>)
        requires
            old(self).wf(),
            forall|i: int|
                0 <= i < batch.nodes@.len() ==> (#[trigger] batch.nodes@[i]).0.wf()
                    && batch.nodes@[i].1.wf(),
            forall|i: int|
                0 <= i < batch.values@.len() ==> ((#[trigger] batch.values@[i]).0).0 >= old(
                    self,
                ).latest_version(),
            forall|i: int, j: int|
                0 <= i <= j < batch.values@.len() ==> ((#[trigger] batch.values@[i]).0).0 <= ((
                #[trigger] batch.values@[j]).0).0,
        ensures
            final(self).wf(),
            r is Ok,
            final(self).hist() == spec_apply_deltas(old(self).hist(), batch.values@),
            final(self).latest_version() == spec_batch_latest(
                batch.values@,
                old(self).latest_version(),
            ),
            final(self).nodes_view() == spec_store_nodes(
                old(self).nodes_view(),
                old(self).index_view(),
                batch.nodes@,
            ).0,
            final(self).index_view() == spec_store_nodes(
                old(self).nodes_view(),
                old(self).index_view(),
                batch.nodes@,
            ).1,
            final(self).stale_view() == old(self).stale_view(),
            old(self).nodes_wf() ==> final(self).nodes_wf(),
    {
        let ghost store0 = self.nodes_view();
        let ghost idx0 = self.index_view();
        let ghost bnodes = batch.nodes@;
        let mut bi: usize = 0;
        let nb = batch.nodes.len();
        proof {
            assert(bnodes.take(0) =~= Seq::<(NodeKey, Node)>::empty());
        }
        while bi < nb
            invariant
                bi <= nb,
                nb == batch.nodes@.len(),
                bnodes == batch.nodes@,
                forall|i: int|
                    0 <= i < bnodes.len() ==> (#[trigger] bnodes[i]).0.wf() && bnodes[i].1.wf(),
                self.value_history@ == old(self).value_history@,
                self.latest == old(self).latest,
                self.stale_nodes@ == old(self).stale_nodes@,
                store0 == old(self).nodes_view(),
                idx0 == old(self).index_view(),
                self.nodes_view() == spec_store_nodes(store0, idx0, bnodes.take(bi as int)).0,
                self.index_view() == spec_store_nodes(store0, idx0, bnodes.take(bi as int)).1,
                old(self).nodes_wf() ==> self.nodes_wf(),
            decreases nb - bi,
        {
            proof {
                assert(bnodes.take(bi + 1) =~= bnodes.take(bi as int).push(bnodes[bi as int]));
                lemma_store_nodes_push(store0, idx0, bnodes.take(bi as int), bnodes[bi as int]);
            }
            let entry = &batch.nodes[bi];
            let ek = encode_node_key(&entry.0);
            let en = encode_node(&entry.1);
            let ghost ekv = ek@;
            let ghost env = en@;
            let ghost pre_store = self.nodes_view();
            let ghost pre_idx = self.index_view();
            let mut present = false;
            let ns = self.nodes.len();
            let mut si: usize = 0;
            while si < ns
                invariant
                    si <= ns,
                    ns == self.nodes@.len(),
                    pre_store == self.nodes_view(),
                    ekv == ek@,
                    env == en@,
                    present ==> pair_stored(pre_store, ekv, env),
                    !present ==> forall|q: int|
                        0 <= q < si ==> (#[trigger] pre_store[q]) != (ekv, env),
                decreases ns - si,
            {
                if bytes_eq(&self.nodes[si].0, &ek) && bytes_eq(&self.nodes[si].1, &en) {
                    proof {
                        assert(pre_store[si as int] == (ekv, env));
                    }
                    present = true;
                }
                si = si + 1;
            }
            if !present {
                proof {
                    assert(!pair_stored(pre_store, ekv, env));
                }
                let en_idx = bytes_clone(&en);
                self.nodes.push((ek, en));
                proof {
                    assert(self.nodes_view() =~= pre_store.push((ekv, env)));
                    assert(stored_node_wf((ekv, env)));
                }
                let pathvec = bytes_clone(&entry.0.nibble_path);
                let ghost pathv = entry.0.nibble_path@;
                let mut fi: usize = 0;
                let mut found = false;
                let ni = self.node_index.len();
                while fi < ni && !found
                    invariant
                        fi <= ni,
                        ni == self.node_index@.len(),
                        pre_idx == self.index_view(),
                        pathv == pathvec@,
                        found ==> fi < ni && (#[trigger] pre_idx[fi as int]).0 == pathv,
                        forall|j: int| 0 <= j < fi ==> (#[trigger] pre_idx[j]).0 != pathv,
                    decreases ni - fi + (if found {
                        0int
                    } else {
                        1int
                    }),
                {
                    if bytes_eq(&self.node_index[fi].0, &pathvec) {
                        found = true;
                    } else {
                        fi = fi + 1;
                    }
                }
                if found {
                    let _ = self.node_index.remove(fi);
                    self.node_index.insert(fi, (pathvec, (entry.0.version, en_idx)));
                    proof {
                        assert(self.index_view() =~~= pre_idx.update(
                            fi as int,
                            (pathv, (entry.0.version, env)),
                        ));
                        crate::assoc::lemma_assoc_update_at_first(
                            pre_idx,
                            fi as int,
                            (entry.0.version, env),
                        );
                        assert(self.index_view() =~~= crate::assoc::assoc_update(
                            pre_idx,
                            pathv,
                            (entry.0.version, env),
                        ));
                    }
                } else {
                    self.node_index.push((pathvec, (entry.0.version, en_idx)));
                    proof {
                        crate::assoc::lemma_assoc_update_absent(
                            pre_idx,
                            pathv,
                            (entry.0.version, env),
                        );
                        assert(self.index_view() =~~= pre_idx.push(
                            (pathv, (entry.0.version, env)),
                        ));
                        assert(self.index_view() =~~= crate::assoc::assoc_update(
                            pre_idx,
                            pathv,
                            (entry.0.version, env),
                        ));
                    }
                }
                proof {
                    // the fresh pair and the re-indexed path keep the store
                    // and index well-formed
                    if old(self).nodes_wf() {
                        assert forall|i: int|
                            0 <= i < self.nodes_view().len() implies stored_node_wf(
                            #[trigger] self.nodes_view()[i],
                        ) by {
                            if i < pre_store.len() {
                                assert(self.nodes_view()[i] == pre_store[i]);
                            } else {
                                assert(self.nodes_view()[i] == (ekv, env));
                            }
                        }
                        let iv = self.index_view();
                        assert forall|q: int| 0 <= q < iv.len() implies indexed_node_wf(
                            #[trigger] iv[q],
                        ) by {
                            if 0 <= q < pre_idx.len() && iv[q] == pre_idx[q] {
                                assert(indexed_node_wf(pre_idx[q]));
                            } else {
                                assert((iv[q].1).1 == env);
                                assert(entry.1.wf() && env == spec_encode_node(entry.1));
                                assert(indexed_node_wf(iv[q]));
                            }
                        }
                    }
                }
            } else {
                proof {
                    assert(self.nodes_view() == pre_store);
                    assert(self.index_view() == pre_idx);
                }
            }
            bi = bi + 1;
        }
        proof {
            assert(bnodes.take(nb as int) =~= bnodes);
            assert(self.hist() == old(self).hist());
        }

        // apply the value deltas in order
        let ghost h0 = self.hist();
        let ghost vs = batch.values@;
        let ghost post_store = self.nodes_view();
        let ghost post_idx = self.index_view();
        let mut vi: usize = 0;
        let nv = batch.values.len();
        while vi < nv
            invariant
                vi <= nv,
                nv == batch.values@.len(),
                vs == batch.values@,
                wf_hist(self.hist()),
                self.hist() == spec_apply_deltas(h0, vs.take(vi as int)),
                versions_le(self.hist(), self.latest),
                self.latest == spec_batch_latest(vs.take(vi as int), old(self).latest_version()),
                forall|i: int|
                    0 <= i < vs.len() ==> ((#[trigger] vs[i]).0).0 >= old(self).latest_version(),
                forall|i: int, j: int|
                    0 <= i <= j < vs.len() ==> ((#[trigger] vs[i]).0).0 <= ((#[trigger] vs[j]).0).0,
                vi > 0 ==> self.latest == (vs[vi - 1].0).0,
                vi == 0 ==> self.latest == old(self).latest_version(),
                wf_hist(h0),
                h0 == old(self).hist(),
                self.nodes_view() == post_store,
                self.index_view() == post_idx,
                self.stale_nodes@ == old(self).stale_nodes@,
                post_store == spec_store_nodes(store0, idx0, bnodes).0,
                post_idx == spec_store_nodes(store0, idx0, bnodes).1,
                store0 == old(self).nodes_view(),
                idx0 == old(self).index_view(),
                bnodes == batch.nodes@,
                old(self).nodes_wf() ==> self.nodes_wf(),
            decreases nv - vi,
        {
            let entry = &batch.values[vi];
            let v = entry.0.0;
            let key = &entry.0.1;
            proof {
                use_type_invariant(key);
                assert(vs[vi as int] == batch.values@[vi as int]);
                assert(versions_le(self.hist(), v)) by {
                    lemma_versions_le_mono(self.hist(), self.latest, v);
                }
                lemma_upsert(self.hist(), key@, v, opt_view(entry.1));
            }
            let val = clone_opt_bytes(&entry.1);
            let ghost before = self.hist();
            upsert_exec(&mut self.value_history, key, v, val);
            if v > self.latest {
                self.latest = v;
            }
            proof {
                assert(vs.take(vi + 1).drop_last() =~= vs.take(vi as int));
                assert(vs.take(vi + 1).last() == vs[vi as int]);
                assert(vs.take(vi + 1) =~= vs.take(vi as int).push(vs[vi as int]));
                lemma_apply_deltas_push(h0, vs.take(vi as int), vs[vi as int]);
                lemma_batch_latest_push(vs.take(vi as int), vs[vi as int], old(self).latest_version());
            }
            vi = vi + 1;
        }
        proof {
            assert(vs.take(nv as int) =~= vs);
            assert(self.nodes_view() == post_store);
            assert(post_store == spec_store_nodes(store0, idx0, bnodes).0);
            assert(store0 == old(self).nodes_view() && idx0 == old(self).index_view());
            assert(bnodes == batch.nodes@);
            assert(self.stale_view() == old(self).stale_view());
        }
        Ok(())
    }

    /// Atomically persist nodes, stale-node indices, and value-history
    /// deltas.
    pub fn update_batch(&mut self, batch: TreeUpdateBatch) -> (r: Result<(), LeftRightTrieError>)
        requires
            old(self).wf(),
            forall|i: int|
                0 <= i < batch.node_batch.nodes@.len() ==> (
                #[trigger] batch.node_batch.nodes@[i]).0.wf() && batch.node_batch.nodes@[i].1.wf(),
            forall|i: int|
                0 <= i < batch.node_batch.values@.len() ==> ((
                #[trigger] batch.node_batch.values@[i]).0).0 >= old(self).latest_version(),
            forall|i: int, j: int|
                0 <= i <= j < batch.node_batch.values@.len() ==> ((
                #[trigger] batch.node_batch.values@[i]).0).0 <= ((
                #[trigger] batch.node_batch.values@[j]).0).0,
        ensures
            final(self).wf(),
            r is Ok,
            final(self).hist() == spec_apply_deltas(old(self).hist(), batch.node_batch.values@),
            final(self).latest_version() == spec_batch_latest(
                batch.node_batch.values@,
                old(self).latest_version(),
            ),
            final(self).nodes_view() == spec_store_nodes(
                old(self).nodes_view(),
                old(self).index_view(),
                batch.node_batch.nodes@,
            ).0,
            final(self).index_view() == spec_store_nodes(
                old(self).nodes_view(),
                old(self).index_view(),
                batch.node_batch.nodes@,
            ).1,
            final(self).stale_view() == old(self).stale_view()
                + batch.stale_node_index_batch@,
            old(self).nodes_wf() ==> final(self).nodes_wf(),
    {
        let TreeUpdateBatch { node_batch, mut stale_node_index_batch } = batch;
        let ghost staged = stale_node_index_batch@;
        let r = self.write_node_batch(&node_batch);
        self.stale_nodes.append(&mut stale_node_index_batch);
        proof {
            assert(self.stale_view() =~= old(self).stale_view() + staged);
        }
        r
    }
}

impl DbAdapter {
    /// The leaf set visible at a version: every present key with the digest
    /// of its value.
    pub fn leaves_at_exec(&self, v: u64) -> (r: Vec<(KeyHash, Vec<u8>)>)
        ensures
            crate::tree_hash::leaves_view(r@) == crate::jmt::leaves_at(self.hist(), v),
            forall|i: int| 0 <= i < r@.len() ==> (#[trigger] r@[i]).1@.len() == 32,
    {
        leaves_from_history(&self.value_history, v)
    }

    /// The stale-node indices produced by replacing the current tree with
    /// the given node set at `version`: exactly the currently indexed paths
    /// whose node is gone or changed, each carrying its recorded creating
    /// version and marked stale since `version`.
    pub fn stale_indices(&self, new_nodes: &Vec<(NodeKey, Node)>, version: u64) -> (r: Vec<
        StaleNodeIndex,
    >)
        ensures
            forall|p: int|
                0 <= p < r@.len() ==> (#[trigger] r@[p]).stale_since_version == version
                    && stale_from(self.index_view(), new_nodes@, r@[p]),
            forall|q: int|
                0 <= q < self.index_view().len() && !entry_kept(
                    new_nodes@,
                    #[trigger] self.index_view()[q],
                ) ==> stale_listed(
                    r@,
                    self.index_view()[q].0,
                    (self.index_view()[q].1).0,
                ),
    {
        let ghost iv = self.index_view();
        let ghost nsv = new_nodes@;
        let mut r: Vec<StaleNodeIndex> = Vec::new();
        let n = self.node_index.len();
        let mut i: usize = 0;
        while i < n
            invariant
                i <= n,
                n == self.node_index@.len(),
                iv == self.index_view(),
                nsv == new_nodes@,
                forall|p: int|
                    0 <= p < r@.len() ==> (#[trigger] r@[p]).stale_since_version == version
                        && stale_from(iv, nsv, r@[p]),
                forall|q: int|
                    0 <= q < i && !entry_kept(nsv, #[trigger] iv[q]) ==> stale_listed(
                        r@,
                        iv[q].0,
                        (iv[q].1).0,
                    ),
            decreases n - i,
        {
            let mut kept = false;
            let mut j: usize = 0;
            let m = new_nodes.len();
            while j < m
                invariant
                    j <= m,
                    m == new_nodes@.len(),
                    nsv == new_nodes@,
                    iv == self.index_view(),
                    i < n,
                    n == self.node_index@.len(),
                    kept ==> entry_kept(nsv, iv[i as int]),
                    !kept ==> forall|jj: int|
                        0 <= jj < j ==> !((#[trigger] nsv[jj]).0.nibble_path@ == iv[i as int].0
                            && spec_encode_node(nsv[jj].1) == (iv[i as int].1).1),
                decreases m - j,
            {
                let cand = &new_nodes[j];
                if bytes_eq(&cand.0.nibble_path, &self.node_index[i].0) {
                    if bytes_eq(&encode_node(&cand.1), &self.node_index[i].1.1) {
                        proof {
                            assert(nsv[j as int].0.nibble_path@ == iv[i as int].0);
                            assert(spec_encode_node(nsv[j as int].1) == (iv[i as int].1).1);
                        }
                        kept = true;
                    }
                }
                j = j + 1;
            }
            let entry = &self.node_index[i];
            if !kept {
                let ghost before = r@;
                proof {
                    assert(!entry_kept(nsv, iv[i as int]));
                }
                r.push(
                    StaleNodeIndex {
                        stale_since_version: version,
                        node_key: NodeKey {
                            version: entry.1.0,
                            nibble_path: bytes_clone(&entry.0),
                        },
                    },
                );
                proof {
                    assert(forall|p: int| 0 <= p < before.len() ==> r@[p] == (#[trigger] before[p]));
                    assert(r@.last().node_key.nibble_path@ == iv[i as int].0);
                    assert(r@.last().node_key.version == (iv[i as int].1).0);
                    assert(stale_from(iv, nsv, r@.last()));
                    assert forall|q: int|
                        0 <= q < i + 1 && !entry_kept(nsv, #[trigger] iv[q]) implies stale_listed(
                        r@,
                        iv[q].0,
                        (iv[q].1).0,
                    ) by {
                        if q < i {
                            assert(stale_listed(before, iv[q].0, (iv[q].1).0));
                            let p = choose|p: int|
                                0 <= p < before.len() && (#[trigger] before[p]).node_key.nibble_path@
                                    == iv[q].0 && before[p].node_key.version == (iv[q].1).0;
                            assert(r@[p].node_key.nibble_path@ == iv[q].0);
                        } else {
                            assert(r@.last().node_key.nibble_path@ == iv[q].0);
                        }
                    }
                }
            } else {
                proof {
                    assert forall|q: int|
                        0 <= q < i + 1 && !entry_kept(nsv, #[trigger] iv[q]) implies stale_listed(
                        r@,
                        iv[q].0,
                        (iv[q].1).0,
                    ) by {}
                }
            }
            i = i + 1;
        }
        r
    }

    /// Of a freshly computed node set, exactly the nodes not already
    /// present identically in the current tree: the nodes this version
    /// creates.
    pub fn fresh_nodes(&self, new_nodes: Vec<(NodeKey, Node)>) -> (r: Vec<(NodeKey, Node)>)
        requires
            forall|i: int|
                0 <= i < new_nodes@.len() ==> (#[trigger] new_nodes@[i]).0.wf()
                    && new_nodes@[i].1.wf(),
        ensures
            forall|p: int|
                0 <= p < r@.len() ==> (#[trigger] r@[p]).0.wf() && r@[p].1.wf() && fresh_from(
                    new_nodes@,
                    self.index_view(),
                    r@[p].0.nibble_path@,
                    r@[p].0.version,
                    spec_encode_node(r@[p].1),
                ),
            forall|i: int|
                0 <= i < new_nodes@.len() && !node_current(
                    self.index_view(),
                    (#[trigger] new_nodes@[i]).0,
                    new_nodes@[i].1,
                ) ==> fresh_listed(
                    r@,
                    new_nodes@[i].0.nibble_path@,
                    new_nodes@[i].0.version,
                    spec_encode_node(new_nodes@[i].1),
                ),
    {
        let ghost iv = self.index_view();
        let ghost nsv = new_nodes@;
        let mut r: Vec<(NodeKey, Node)> = Vec::new();
        let n = new_nodes.len();
        let mut i: usize = 0;
        while i < n
            invariant
                i <= n,
                n == new_nodes@.len(),
                iv == self.index_view(),
                nsv == new_nodes@,
                forall|q: int|
                    0 <= q < nsv.len() ==> (#[trigger] nsv[q]).0.wf() && nsv[q].1.wf(),
                forall|p: int|
                    0 <= p < r@.len() ==> (#[trigger] r@[p]).0.wf() && r@[p].1.wf() && fresh_from(
                        nsv,
                        iv,
                        r@[p].0.nibble_path@,
                        r@[p].0.version,
                        spec_encode_node(r@[p].1),
                    ),
                forall|q: int|
                    0 <= q < i && !node_current(iv, (#[trigger] nsv[q]).0, nsv[q].1)
                        ==> fresh_listed(
                        r@,
                        nsv[q].0.nibble_path@,
                        nsv[q].0.version,
                        spec_encode_node(nsv[q].1),
                    ),
            decreases n - i,
        {
            let cand = &new_nodes[i];
            let en = encode_node(&cand.1);
            let mut present = false;
            let mut j: usize = 0;
            let m = self.node_index.len();
            while j < m
                invariant
                    j <= m,
                    m == self.node_index@.len(),
                    iv == self.index_view(),
                    nsv == new_nodes@,
                    i < n,
                    n == new_nodes@.len(),
                    en@ == spec_encode_node(nsv[i as int].1),
                    present ==> node_current(iv, nsv[i as int].0, nsv[i as int].1),
                    !present ==> forall|jj: int|
                        0 <= jj < j ==> !((#[trigger] iv[jj]).0 == nsv[i as int].0.nibble_path@
                            && (iv[jj].1).1 == spec_encode_node(nsv[i as int].1)),
                decreases m - j,
            {
                let entry = &self.node_index[j];
                if bytes_eq(&entry.0, &new_nodes[i].0.nibble_path) {
                    if bytes_eq(&entry.1.1, &en) {
                        proof {
                            assert(iv[j as int].0 == nsv[i as int].0.nibble_path@);
                            assert((iv[j as int].1).1 == spec_encode_node(nsv[i as int].1));
                        }
                        present = true;
                    }
                }
                j = j + 1;
            }
            if !present {
                let ghost before = r@;
                proof {
                    assert(!node_current(iv, nsv[i as int].0, nsv[i as int].1));
                }
                r.push((cand.0.clone(), cand.1.clone()));
                proof {
                    assert(forall|p: int| 0 <= p < before.len() ==> r@[p] == (#[trigger] before[p]));
                    assert(r@.last().0.nibble_path@ == nsv[i as int].0.nibble_path@);
                    assert(r@.last().0.version == nsv[i as int].0.version);
                    assert(spec_encode_node(r@.last().1) == spec_encode_node(nsv[i as int].1));
                    assert(fresh_from(
                        nsv,
                        iv,
                        r@.last().0.nibble_path@,
                        r@.last().0.version,
                        spec_encode_node(r@.last().1),
                    ));
                    assert forall|q: int|
                        0 <= q < i + 1 && !node_current(iv, (#[trigger] nsv[q]).0, nsv[q].1)
                            implies fresh_listed(
                        r@,
                        nsv[q].0.nibble_path@,
                        nsv[q].0.version,
                        spec_encode_node(nsv[q].1),
                    ) by {
                        if q < i {
                            assert(fresh_listed(
                                before,
                                nsv[q].0.nibble_path@,
                                nsv[q].0.version,
                                spec_encode_node(nsv[q].1),
                            ));
                            let p = choose|p: int|
                                0 <= p < before.len() && (#[trigger] before[p]).0.nibble_path@
                                    == nsv[q].0.nibble_path@ && before[p].0.version
                                    == nsv[q].0.version && spec_encode_node(before[p].1)
                                    == spec_encode_node(nsv[q].1);
                            assert(r@[p].0.nibble_path@ == nsv[q].0.nibble_path@);
                        } else {
                            assert(r@.last().0.nibble_path@ == nsv[q].0.nibble_path@);
                        }
                    }
                }
            } else {
                proof {
                    assert forall|q: int|
                        0 <= q < i + 1 && !node_current(iv, (#[trigger] nsv[q]).0, nsv[q].1)
                            implies fresh_listed(
                        r@,
                        nsv[q].0.nibble_path@,
                        nsv[q].0.version,
                        spec_encode_node(nsv[q].1),
                    ) by {}
                }
            }
            i = i + 1;
        }
        r
    }
}

/// The leaf set visible at a version in an executable history.
pub fn leaves_from_history(
    h: &Vec<(KeyHash, Vec<(u64, Option<Vec<u8>>)>)>,
    v: u64,
) -> (r: Vec<(KeyHash, Vec<u8>)>)
    ensures
        crate::tree_hash::leaves_view(r@) == crate::jmt::leaves_at(history_view(h@), v),
        forall|i: int| 0 <= i < r@.len() ==> (#[trigger] r@[i]).1@.len() == 32,
{
    let ghost hv = history_view(h@);
    let mut r: Vec<(KeyHash, Vec<u8>)> = Vec::new();
    let mut i: usize = 0;
    proof {
        assert(hv.take(0) =~= Seq::<(Seq<u8>, Seq<(u64, Option<Seq<u8>>)>)>::empty());
        assert(crate::jmt::leaves_at(hv.take(0), v) =~= Seq::<(Seq<u8>, Seq<u8>)>::empty());
        assert(crate::tree_hash::leaves_view(r@) =~= Seq::<(Seq<u8>, Seq<u8>)>::empty());
    }
    while i < h.len()
        invariant
            i <= h@.len(),
            hv == history_view(h@),
            crate::tree_hash::leaves_view(r@) == crate::jmt::leaves_at(hv.take(i as int), v),
            forall|q: int| 0 <= q < r@.len() ==> (#[trigger] r@[q]).1@.len() == 32,
        decreases h@.len() - i,
    {
        proof {
            assert(hv.take(i + 1) =~= hv.take(i as int).push(hv[i as int]));
            crate::jmt::lemma_leaves_push(hv.take(i as int), hv[i as int], v);
        }
        let entry = &h[i];
        match value_at_exec(&entry.1, v) {
            Some(val) => {
                let ghost before = crate::tree_hash::leaves_view(r@);
                let vh = crate::digest::sha256_digest(val.as_slice());
                r.push((entry.0.clone(), vh));
                proof {
                    assert(crate::tree_hash::leaves_view(r@) =~= before.push(
                        (hv[i as int].0, crate::digest::sha256_of(val@)),
                    ));
                }
            },
            None => {
                proof {
                    assert(crate::jmt::leaves_at(hv.take(i + 1), v) =~= crate::jmt::leaves_at(
                        hv.take(i as int),
                        v,
                    ));
                }
            },
        }
        i = i + 1;
    }
    proof {
        assert(hv.take(h@.len() as int) =~= hv);
    }
    r
}

impl Clone for DbAdapter {
    fn clone(&self) -> (r: Self)
        ensures
            r.hist() == self.hist(),
            r.latest_version() == self.latest_version(),
            r.nodes_view() == self.nodes_view(),
            r.index_view() == self.index_view(),
            r.stale_view().len() == self.stale_view().len(),
            forall|k: int|
                0 <= k < self.stale_view().len() ==> (#[trigger] r.stale_view()[k]).stale_since_version
                    == self.stale_view()[k].stale_since_version && r.stale_view()[k].node_key.version
                    == self.stale_view()[k].node_key.version
                    && r.stale_view()[k].node_key.nibble_path@
                    == self.stale_view()[k].node_key.nibble_path@,
            self.nodes_wf() ==> r.nodes_wf(),
    {
        let mut nodes: Vec<(Vec<u8>, Vec<u8>)> = Vec::new();
        let mut i: usize = 0;
        while i < self.nodes.len()
            invariant
                i <= self.nodes@.len(),
                nodes@.len() == i,
                forall|q: int|
                    0 <= q < i ==> (#[trigger] nodes@[q]).0@ == self.nodes@[q].0@ && nodes@[q].1@
                        == self.nodes@[q].1@,
            decreases self.nodes@.len() - i,
        {
            let e = &self.nodes[i];
            nodes.push((bytes_clone(&e.0), bytes_clone(&e.1)));
            i = i + 1;
        }
        let mut node_index: Vec<(Vec<u8>, (u64, Vec<u8>))> = Vec::new();
        let mut j: usize = 0;
        while j < self.node_index.len()
            invariant
                j <= self.node_index@.len(),
                node_index@.len() == j,
                forall|q: int|
                    0 <= q < j ==> (#[trigger] node_index@[q]).0@ == self.node_index@[q].0@
                        && (node_index@[q].1).0 == (self.node_index@[q].1).0
                        && (node_index@[q].1).1@ == (self.node_index@[q].1).1@,
            decreases self.node_index@.len() - j,
        {
            let e = &self.node_index[j];
            node_index.push((bytes_clone(&e.0), (e.1.0, bytes_clone(&e.1.1))));
            j = j + 1;
        }
        let mut stale_nodes: Vec<StaleNodeIndex> = Vec::new();
        let mut k: usize = 0;
        while k < self.stale_nodes.len()
            invariant
                k <= self.stale_nodes@.len(),
                stale_nodes@.len() == k,
                forall|q: int|
                    0 <= q < k ==> (#[trigger] stale_nodes@[q]).stale_since_version
                        == self.stale_nodes@[q].stale_since_version
                        && stale_nodes@[q].node_key.version
                        == self.stale_nodes@[q].node_key.version
                        && stale_nodes@[q].node_key.nibble_path@
                        == self.stale_nodes@[q].node_key.nibble_path@,
            decreases self.stale_nodes@.len() - k,
        {
            let e = &self.stale_nodes[k];
            stale_nodes.push(
                StaleNodeIndex {
                    stale_since_version: e.stale_since_version,
                    node_key: e.node_key.clone(),
                },
            );
            k = k + 1;
        }
        let r = DbAdapter {
            value_history: clone_history(&self.value_history),
            latest: self.latest,
            nodes,
            node_index,
            stale_nodes,
        };
        proof {
            assert(r.nodes_view() =~= self.nodes_view());
            assert(r.index_view() =~~= self.index_view());
            if self.nodes_wf() {
                assert forall|q: int|
                    0 <= q < r.nodes_view().len() implies stored_node_wf(
                    #[trigger] r.nodes_view()[q],
                ) by {
                    assert(r.nodes_view()[q] == self.nodes_view()[q]);
                    assert(stored_node_wf(self.nodes_view()[q]));
                }
                assert forall|q: int| 0 <= q < r.index_view().len() implies indexed_node_wf(
                    #[trigger] r.index_view()[q],
                ) by {
                    assert(r.index_view()[q] == self.index_view()[q]);
                    assert(indexed_node_wf(self.index_view()[q]));
                }
            }
        }
        r
    }
}

/// Apply value deltas, each at its own version, first delta first.
pub open spec fn spec_apply_deltas(
    h: HistoryView,
    vs: Seq<((u64, KeyHash), Option<Vec<u8>>)>,
) -> HistoryView
    decreases vs.len(),
{
    if vs.len() == 0 {
        h
    } else {
        spec_apply_deltas(
            upsert(h, (vs[0].0).1@, (vs[0].0).0, opt_view(vs[0].1)),
            vs.drop_first(),
        )
    }
}

/// The latest version after applying the deltas.
pub open spec fn spec_batch_latest(vs: Seq<((u64, KeyHash), Option<Vec<u8>>)>, init: u64) -> u64
    decreases vs.len(),
{
    if vs.len() == 0 {
        init
    } else {
        spec_batch_latest(
            vs.drop_first(),
            if (vs[0].0).0 > init {
                (vs[0].0).0
            } else {
                init
            },
        )
    }
}

/// Applying one more delta applies it after the rest.
pub proof fn lemma_apply_deltas_push(
    h: HistoryView,
    vs: Seq<((u64, KeyHash), Option<Vec<u8>>)>,
    x: ((u64, KeyHash), Option<Vec<u8>>),
)
    ensures
        spec_apply_deltas(h, vs.push(x)) == upsert(
            spec_apply_deltas(h, vs),
            (x.0).1@,
            (x.0).0,
            opt_view(x.1),
        ),
    decreases vs.len(),
{
    if vs.len() == 0 {
        assert(vs.push(x)[0] == x);
        assert(vs.push(x).drop_first() =~= Seq::<((u64, KeyHash), Option<Vec<u8>>)>::empty());
        assert(spec_apply_deltas(
            upsert(h, (x.0).1@, (x.0).0, opt_view(x.1)),
            vs.push(x).drop_first(),
        ) == upsert(h, (x.0).1@, (x.0).0, opt_view(x.1)));
        assert(spec_apply_deltas(h, vs) == h);
    } else {
        assert(vs.push(x)[0] == vs[0]);
        assert(vs.push(x).drop_first() =~= vs.drop_first().push(x));
        lemma_apply_deltas_push(
            upsert(h, (vs[0].0).1@, (vs[0].0).0, opt_view(vs[0].1)),
            vs.drop_first(),
            x,
        );
    }
}

/// The latest-version fold, over one more delta.
pub proof fn lemma_batch_latest_push(
    vs: Seq<((u64, KeyHash), Option<Vec<u8>>)>,
    x: ((u64, KeyHash), Option<Vec<u8>>),
    init: u64,
)
    ensures
        spec_batch_latest(vs.push(x), init) == (if (x.0).0 > spec_batch_latest(vs, init) {
            (x.0).0
        } else {
            spec_batch_latest(vs, init)
        }),
    decreases vs.len(),
{
    if vs.len() == 0 {
        assert(vs.push(x)[0] == x);
        assert(vs.push(x).drop_first() =~= Seq::<((u64, KeyHash), Option<Vec<u8>>)>::empty());
        assert(spec_batch_latest(vs.push(x).drop_first(), if (x.0).0 > init {
            (x.0).0
        } else {
            init
        }) == (if (x.0).0 > init {
            (x.0).0
        } else {
            init
        }));
        assert(spec_batch_latest(vs, init) == init);
    } else {
        assert(vs.push(x)[0] == vs[0]);
        assert(vs.push(x).drop_first() =~= vs.drop_first().push(x));
        lemma_batch_latest_push(
            vs.drop_first(),
            x,
            if (vs[0].0).0 > init {
                (vs[0].0).0
            } else {
                init
            },
        );
    }
}

/// Once the key reads the batch's serialization, persisting the batch
/// keeps it readable, provided the batch never pairs that key with another
/// serialization.
proof fn lemma_store_preserves_key(
    store: Seq<(Seq<u8>, Seq<u8>)>,
    idx: Seq<(Seq<u8>, (u64, Seq<u8>))>,
    ns: Seq<(NodeKey, Node)>,
    ek: Seq<u8>,
    en: Seq<u8>,
)
    requires
        crate::assoc::assoc_get(store, ek) == Some(en),
        forall|j: int|
            0 <= j < ns.len() && spec_encode_node_key(
                (#[trigger] ns[j]).0.version,
                ns[j].0.nibble_path@,
            ) == ek ==> spec_encode_node(ns[j].1) == en,
    ensures
        crate::assoc::assoc_get(spec_store_nodes(store, idx, ns).0, ek) == Some(en),
    decreases ns.len(),
{
    if ns.len() > 0 {
        let ek0 = spec_encode_node_key(ns[0].0.version, ns[0].0.nibble_path@);
        let en0 = spec_encode_node(ns[0].1);
        assert(forall|j: int|
            0 <= j < ns.drop_first().len() ==> (#[trigger] ns.drop_first()[j]) == ns[j + 1]);
        if pair_stored(store, ek0, en0) {
            lemma_store_preserves_key(store, idx, ns.drop_first(), ek, en);
        } else {
            crate::assoc::lemma_assoc_push_preserves(store, (ek0, en0), ek);
            lemma_store_preserves_key(
                store.push((ek0, en0)),
                crate::assoc::assoc_update(idx, ns[0].0.nibble_path@, (ns[0].0.version, en0)),
                ns.drop_first(),
                ek,
                en,
            );
        }
    }
}

/// A node written by a batch is retrievable afterwards: once the batch is
/// persisted, reading the store under the node's encoded key returns the
/// node's serialization — provided neither the store nor the batch pairs
/// that key with a different serialization.
pub proof fn lemma_written_node_retrievable(
    store: Seq<(Seq<u8>, Seq<u8>)>,
    idx: Seq<(Seq<u8>, (u64, Seq<u8>))>,
    ns: Seq<(NodeKey, Node)>,
    i: int,
)
    requires
        0 <= i < ns.len(),
        forall|q: int|
            0 <= q < store.len() && (#[trigger] store[q]).0 == spec_encode_node_key(
                ns[i].0.version,
                ns[i].0.nibble_path@,
            ) ==> store[q].1 == spec_encode_node(ns[i].1),
        forall|j: int|
            0 <= j < ns.len() && spec_encode_node_key(
                (#[trigger] ns[j]).0.version,
                ns[j].0.nibble_path@,
            ) == spec_encode_node_key(ns[i].0.version, ns[i].0.nibble_path@)
                ==> spec_encode_node(ns[j].1) == spec_encode_node(ns[i].1),
    ensures
        crate::assoc::assoc_get(
            spec_store_nodes(store, idx, ns).0,
            spec_encode_node_key(ns[i].0.version, ns[i].0.nibble_path@),
        ) == Some(spec_encode_node(ns[i].1)),
    decreases ns.len(),
{
    let ek = spec_encode_node_key(ns[i].0.version, ns[i].0.nibble_path@);
    let en = spec_encode_node(ns[i].1);
    let ek0 = spec_encode_node_key(ns[0].0.version, ns[0].0.nibble_path@);
    let en0 = spec_encode_node(ns[0].1);
    assert(forall|j: int|
        0 <= j < ns.drop_first().len() ==> (#[trigger] ns.drop_first()[j]) == ns[j + 1]);
    if i == 0 {
        if pair_stored(store, ek, en) {
            let q = choose|q: int| 0 <= q < store.len() && #[trigger] store[q] == (ek, en);
            crate::assoc::lemma_assoc_get_uniform(store, ek, en);
            lemma_store_preserves_key(store, idx, ns.drop_first(), ek, en);
        } else {
            let store2 = store.push((ek, en));
            if crate::assoc::assoc_get(store, ek) is Some {
                crate::assoc::lemma_assoc_get_has(store, ek);
                crate::assoc::lemma_assoc_has_exists(store, ek);
                crate::assoc::lemma_assoc_get_uniform(store, ek, en);
                crate::assoc::lemma_assoc_push_preserves(store, (ek, en), ek);
            } else {
                crate::assoc::lemma_assoc_get_has(store, ek);
                crate::assoc::lemma_assoc_has_exists(store, ek);
                lemma_assoc_push_get_pair(store, ek, en);
            }
            lemma_store_preserves_key(
                store2,
                crate::assoc::assoc_update(idx, ns[0].0.nibble_path@, (ns[0].0.version, en)),
                ns.drop_first(),
                ek,
                en,
            );
        }
    } else {
        if pair_stored(store, ek0, en0) {
            lemma_written_node_retrievable(store, idx, ns.drop_first(), i - 1);
        } else {
            // a pushed pair under the same key carries the same
            // serialization, by the batch's key-consistency
            assert forall|q: int|
                0 <= q < store.push((ek0, en0)).len() && (#[trigger] store.push((ek0, en0))[q]).0
                    == ek implies store.push((ek0, en0))[q].1 == en by {
                if q < store.len() {
                    assert(store.push((ek0, en0))[q] == store[q]);
                } else {
                    assert(store.push((ek0, en0))[q] == (ek0, en0));
                    if ek0 == ek {
                        assert(spec_encode_node(ns[0].1) == en);
                    }
                }
            }
            lemma_written_node_retrievable(
                store.push((ek0, en0)),
                crate::assoc::assoc_update(idx, ns[0].0.nibble_path@, (ns[0].0.version, en0)),
                ns.drop_first(),
                i - 1,
            );
        }
    }
}

/// Pushing a pair under an absent key makes the key read the pushed value.
proof fn lemma_assoc_push_get_pair(store: Seq<(Seq<u8>, Seq<u8>)>, ek: Seq<u8>, en: Seq<u8>)
    requires
        forall|q: int| 0 <= q < store.len() ==> (#[trigger] store[q]).0 != ek,
    ensures
        crate::assoc::assoc_get(store.push((ek, en)), ek) == Some(en),
    decreases store.len(),
{
    if store.len() == 0 {
        assert(store.push((ek, en))[0] == (ek, en));
    } else {
        assert(store.push((ek, en))[0] == store[0]);
        assert(store.push((ek, en)).drop_first() =~= store.drop_first().push((ek, en)));
        assert(forall|q: int|
            0 <= q < store.drop_first().len() ==> (#[trigger] store.drop_first()[q]).0
                == store[q + 1].0);
        lemma_assoc_push_get_pair(store.drop_first(), ek, en);
    }
}

/// Version bounds are monotone.
pub proof fn lemma_versions_le_mono(h: HistoryView, x: u64, y: u64)
    requires
        versions_le(h, x),
        x <= y,
    ensures
        versions_le(h, y),
{
}

} // verus!
