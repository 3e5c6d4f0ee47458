//! The left-right front-end: two functionally identical copies of the tree
//! and an operation log. Mutations only append to the log and never touch
//! the copy readers see; `publish` first brings the stale copy in sync by
//! replaying the previously published log, applies the fresh log to it,
//! then flips visibility and retains the fresh log for the next cycle.
//! Readers take snapshots of the visible copy: a handle taken before a
//! publish observes none of that publish's operations, one taken after
//! observes all of them, and no handle ever observes a partial log.

use crate::db_adapter::{clone_opt_bytes, DbAdapter};
use crate::digest::{sha256_of, KeyHash, RootHash};
use crate::errors::LeftRightTrieError;
use crate::jmt::{
    apply_value_set, leaves_at, lookup, opt_view, root_at, value_set_view, HistoryView,
    JellyfishMerkleTree, OwnedValue,
};
use crate::op::Operation;
use crate::tree_hash::{gen_proof, proof_checks, SparseMerkleProof};
use crate::tree_wrapper::JellyfishMerkleTreeWrapper;
use vstd::prelude::*;

verus! {

/// The value set an operation carries, as specification data.
pub open spec fn op_value_set(op: Operation) -> Seq<(Seq<u8>, Option<Seq<u8>>)> {
    match op {
        Operation::Add((k, v), vers) => seq![(k@, opt_view(v))],
        Operation::Remove(k, vers) => seq![(k@, None::<Seq<u8>>)],
        Operation::Extend(kvs, vers) => value_set_view(kvs@),
    }
}

/// The version an operation was logged at.
pub open spec fn op_version(op: Operation) -> u64 {
    match op {
        Operation::Add(_, vers) => vers,
        Operation::Remove(_, vers) => vers,
        Operation::Extend(_, vers) => vers,
    }
}

/// Applying one operation to a tree state: the effective version is one
/// above the logged one; an operation whose effective version is not
/// strictly above the tree's latest is reported and dropped, leaving the
/// tree unchanged.
pub open spec fn apply_op(h: HistoryView, latest: u64, op: Operation) -> (HistoryView, u64) {
    let vsv = op_value_set(op);
    let logged = op_version(op);
    if logged < u64::MAX && logged + 1 > latest {
        (
            apply_value_set(h, vsv, (logged + 1) as u64),
            if vsv.len() > 0 {
                (logged + 1) as u64
            } else {
                latest
            },
        )
    } else {
        (h, latest)
    }
}

/// Applying a whole log, first operation first.
pub open spec fn apply_ops(h: HistoryView, latest: u64, ops: Seq<Operation>) -> (HistoryView, u64)
    decreases ops.len(),
{
    if ops.len() == 0 {
        (h, latest)
    } else {
        let (h2, l2) = apply_op(h, latest, ops[0]);
        apply_ops(h2, l2, ops.drop_first())
    }
}

/// Applying one more operation applies it after the rest.
pub proof fn lemma_apply_ops_push(h: HistoryView, latest: u64, ops: Seq<Operation>, x: Operation)
    ensures
        apply_ops(h, latest, ops.push(x)) == apply_op(
            apply_ops(h, latest, ops).0,
            apply_ops(h, latest, ops).1,
            x,
        ),
    decreases ops.len(),
{
    if ops.len() == 0 {
        assert(ops.push(x)[0] == x);
        assert(ops.push(x).drop_first() =~= Seq::<Operation>::empty());
        let (h2, l2) = apply_op(h, latest, x);
        assert(apply_ops(h2, l2, ops.push(x).drop_first()) == (h2, l2));
        assert(apply_ops(h, latest, ops) == (h, latest));
    } else {
        assert(ops.push(x)[0] == ops[0]);
        assert(ops.push(x).drop_first() =~= ops.drop_first().push(x));
        let (h2, l2) = apply_op(h, latest, ops[0]);
        lemma_apply_ops_push(h2, l2, ops.drop_first(), x);
    }
}

/// Apply one operation to a tree copy, dropping it when its version is not
/// monotone.
fn apply_operation(tree: &mut JellyfishMerkleTreeWrapper, op: &Operation)
    requires
        old(tree).wf(),
    ensures
        final(tree).wf(),
        final(tree).hist() == apply_op(old(tree).hist(), old(tree).version_spec(), *op).0,
        final(tree).version_spec() == apply_op(old(tree).hist(), old(tree).version_spec(), *op).1,
{
    match op {
        Operation::Add((k, v), vers) => {
            if *vers == u64::MAX {
                return;
            }
            let version = *vers + 1;
            let mut value_set: Vec<(KeyHash, Option<OwnedValue>)> = Vec::new();
            value_set.push((k.clone(), clone_opt_bytes(v)));
            proof {
                assert(value_set_view(value_set@) =~= op_value_set(*op));
            }
            let _ = tree.put_and_write(value_set, version);
        },
        Operation::Remove(k, vers) => {
            if *vers == u64::MAX {
                return;
            }
            let version = *vers + 1;
            let mut value_set: Vec<(KeyHash, Option<OwnedValue>)> = Vec::new();
            value_set.push((k.clone(), None));
            proof {
                assert(value_set_view(value_set@) =~= op_value_set(*op));
            }
            let _ = tree.put_and_write(value_set, version);
        },
        Operation::Extend(kvs, vers) => {
            if *vers == u64::MAX {
                return;
            }
            let version = *vers + 1;
            let mut value_set: Vec<(KeyHash, Option<OwnedValue>)> = Vec::new();
            let mut i: usize = 0;
            while i < kvs.len()
                invariant
                    i <= kvs@.len(),
                    value_set@.len() == i,
                    forall|q: int|
                        0 <= q < i ==> (#[trigger] value_set@[q]).0@ == kvs@[q].0@ && opt_view(
                            value_set@[q].1,
                        ) == opt_view(kvs@[q].1),
                decreases kvs@.len() - i,
            {
                let e = &kvs[i];
                value_set.push((e.0.clone(), clone_opt_bytes(&e.1)));
                i = i + 1;
            }
            proof {
                assert(value_set_view(value_set@) =~= op_value_set(*op));
            }
            let _ = tree.put_and_write(value_set, version);
        },
    }
}

/// Replay a whole log onto one tree copy, in order.
fn apply_log(tree: &mut JellyfishMerkleTreeWrapper, ops: &Vec<Operation>)
    requires
        old(tree).wf(),
    ensures
        final(tree).wf(),
        final(tree).hist() == apply_ops(old(tree).hist(), old(tree).version_spec(), ops@).0,
        final(tree).version_spec() == apply_ops(
            old(tree).hist(),
            old(tree).version_spec(),
            ops@,
        ).1,
{
    let ghost h0 = tree.hist();
    let ghost l0 = tree.version_spec();
    let mut i: usize = 0;
    proof {
        assert(ops@.take(0) =~= Seq::<Operation>::empty());
        assert(apply_ops(h0, l0, ops@.take(0)) == (h0, l0));
    }
    while i < ops.len()
        invariant
            i <= ops@.len(),
            tree.wf(),
            tree.hist() == apply_ops(h0, l0, ops@.take(i as int)).0,
            tree.version_spec() == apply_ops(h0, l0, ops@.take(i as int)).1,
        decreases ops@.len() - i,
    {
        proof {
            assert(ops@.take(i + 1) =~= ops@.take(i as int).push(ops@[i as int]));
            lemma_apply_ops_push(h0, l0, ops@.take(i as int), ops@[i as int]);
        }
        apply_operation(tree, &ops[i]);
        i = i + 1;
    }
    proof {
        assert(ops@.take(ops@.len() as int) =~= ops@);
    }
}

/// The concurrent front-end: one visible copy for readers, one stale copy
/// the writer rebuilds, the fresh operation log, and the log retained from
/// the previous publish cycle.
#[derive(Debug)]
pub struct LeftRightTrie {
    visible: JellyfishMerkleTreeWrapper,
    stale: JellyfishMerkleTreeWrapper,
    log: Vec<Operation>,
    pending: Vec<Operation>,
}

/// A cheaply cloneable producer of reader handles, bound to the epoch it
/// was taken from.
#[derive(Debug)]
pub struct ReadHandleFactory {
    snapshot: JellyfishMerkleTreeWrapper,
}

impl ReadHandleFactory {
    /// The history the factory's handles observe.
    pub closed spec fn hist(&self) -> HistoryView {
        self.snapshot.hist()
    }

    /// The version the factory's handles observe.
    pub closed spec fn version_spec(&self) -> u64 {
        self.snapshot.version_spec()
    }

    pub open spec fn wf(&self) -> bool {
        crate::jmt::wf_hist(self.hist()) && crate::jmt::versions_le(
            self.hist(),
            self.version_spec(),
        )
    }

    /// A reader handle: every handle from one factory observes the same
    /// epoch.
    pub fn handle(&self) -> (r: JellyfishMerkleTreeWrapper)
        ensures
            r.hist() == self.hist(),
            r.version_spec() == self.version_spec(),
    {
        self.snapshot.clone()
    }
}

impl Clone for ReadHandleFactory {
    fn clone(&self) -> (r: Self)
        ensures
            r.hist() == self.hist(),
            r.version_spec() == self.version_spec(),
    {
        ReadHandleFactory { snapshot: self.snapshot.clone() }
    }
}

impl LeftRightTrie {
    /// The history readers observe.
    pub closed spec fn visible_hist(&self) -> HistoryView {
        self.visible.hist()
    }

    /// The version readers observe.
    pub closed spec fn visible_version(&self) -> u64 {
        self.visible.version_spec()
    }

    /// The not-yet-published operations.
    pub closed spec fn log_view(&self) -> Seq<Operation> {
        self.log@
    }

    /// The log retained from the previous publish cycle, still owed to the
    /// stale copy.
    pub closed spec fn pending_view(&self) -> Seq<Operation> {
        self.pending@
    }

    /// The stale copy's state.
    pub closed spec fn stale_state(&self) -> (HistoryView, u64) {
        (self.stale.hist(), self.stale.version_spec())
    }

    /// Well-formed: both copies are well-formed trees, and replaying the
    /// retained log onto the stale copy yields exactly the visible copy.
    pub open spec fn wf(&self) -> bool {
        &&& crate::jmt::wf_hist(self.visible_hist())
        &&& crate::jmt::versions_le(self.visible_hist(), self.visible_version())
        &&& crate::jmt::wf_hist(self.stale_state().0)
        &&& crate::jmt::versions_le(self.stale_state().0, self.stale_state().1)
        &&& apply_ops(self.stale_state().0, self.stale_state().1, self.pending_view()) == (
        self.visible_hist(),
        self.visible_version(),
        )
    }

    /// Construct both copies over the given database.
    pub fn new(db: DbAdapter) -> (r: LeftRightTrie)
        requires
            db.wf(),
        ensures
            r.wf(),
            r.visible_hist() == db.hist(),
            r.visible_version() == db.latest_version(),
            r.log_view() =~= Seq::<Operation>::empty(),
    {
        let stale_db = db.clone();
        let visible = JellyfishMerkleTreeWrapper::new(JellyfishMerkleTree::new(db));
        let stale = JellyfishMerkleTreeWrapper::new(JellyfishMerkleTree::new(stale_db));
        let r = LeftRightTrie { visible, stale, log: Vec::new(), pending: Vec::new() };
        proof {
            assert(r.pending_view() =~= Seq::<Operation>::empty());
            assert(apply_ops(r.stale_state().0, r.stale_state().1, r.pending_view()) == (
            r.visible_hist(),
            r.visible_version(),
            ));
        }
        r
    }

    /// A reader handle: a snapshot of the currently visible copy. Two
    /// handles taken over the same epoch observe the same state; a handle
    /// held across a publish keeps observing its snapshot.
    pub fn handle(&self) -> (r: JellyfishMerkleTreeWrapper)
        ensures
            r.hist() == self.visible_hist(),
            r.version_spec() == self.visible_version(),
    {
        self.visible.clone()
    }

    /// A sharable source of reader handles over the visible epoch.
    pub fn factory(&self) -> (r: ReadHandleFactory)
        ensures
            r.hist() == self.visible_hist(),
            r.version_spec() == self.visible_version(),
    {
        ReadHandleFactory { snapshot: self.visible.clone() }
    }

    /// A copy of the visible value history.
    pub fn value_history(&self) -> (r: Vec<(KeyHash, Vec<(u64, Option<Vec<u8>>)>)>)
        ensures
            crate::db_adapter::history_view(r@) == self.visible_hist(),
    {
        self.visible.value_history()
    }

    /// The number of keys carrying a value at the visible latest version.
    pub fn len(&self) -> (r: usize)
        requires
            self.wf(),
        ensures
            r == leaves_at(self.visible_hist(), self.visible_version()).len(),
    {
        self.visible.len()
    }

    /// Whether no key carries a value at the visible latest version.
    pub fn is_empty(&self) -> (r: bool)
        requires
            self.wf(),
        ensures
            r == (leaves_at(self.visible_hist(), self.visible_version()).len() == 0),
    {
        self.visible.is_empty()
    }

    /// The visible root hash at a version.
    pub fn root(&self, version: u64) -> (r: Result<RootHash, LeftRightTrieError>)
        requires
            self.wf(),
        ensures
            r matches Ok(root) && root@ == root_at(self.visible_hist(), version),
    {
        self.visible.root_hash(version)
    }

    /// The latest version readers observe.
    pub fn version(&self) -> (r: u64)
        ensures
            r == self.visible_version(),
    {
        self.visible.version()
    }

    /// The visible root hash at the latest version.
    pub fn root_latest(&self) -> (r: Result<RootHash, LeftRightTrieError>)
        requires
            self.wf(),
        ensures
            r matches Ok(root) && root@ == root_at(self.visible_hist(), self.visible_version()),
    {
        self.root(self.version())
    }

    /// A Merkle proof for a key at a version, over the visible copy.
    pub fn get_proof(&self, key: &Vec<u8>, version: u64) -> (r: Result<
        SparseMerkleProof,
        LeftRightTrieError,
    >)
        requires
            self.wf(),
        ensures
            r matches Ok(p) && p@ == gen_proof(
                leaves_at(self.visible_hist(), version),
                sha256_of(key@),
                0,
            ),
    {
        self.visible.get_proof(key, version)
    }

    /// Verify a Merkle proof for a key hash against an expected root hash.
    pub fn verify_proof(
        &self,
        element_key: &KeyHash,
        version: u64,
        expected_root_hash: &RootHash,
        proof: &SparseMerkleProof,
    ) -> (r: Result<(), LeftRightTrieError>)
        ensures
            r is Ok <==> proof_checks(element_key@, expected_root_hash@, proof@),
            r matches Err(e) ==> e is ProofMismatch,
    {
        self.visible.verify_proof(element_key, version, expected_root_hash, proof)
    }

    /// The number of operations waiting in the log. Callers must keep
    /// `version() + log_len()` below the version counter's maximum before
    /// appending another operation.
    pub fn log_len(&self) -> (r: usize)
        ensures
            r == self.log_view().len(),
    {
        self.log.len()
    }

    /// The version the next appended operation is logged at.
    fn staged_version(&self) -> (r: u64)
        requires
            self.visible_version() + self.log_view().len() < u64::MAX,
        ensures
            r == self.visible_version() + self.log_view().len(),
    {
        self.visible.version() + (self.log.len() as u64)
    }

    /// Append an add to the log; the visible copy is untouched.
    pub fn insert(&mut self, key: &Vec<u8>, value: Vec<u8>)
        requires
            old(self).wf(),
            old(self).visible_version() + old(self).log_view().len() < u64::MAX,
        ensures
            final(self).wf(),
            final(self).visible_hist() == old(self).visible_hist(),
            final(self).visible_version() == old(self).visible_version(),
            final(self).log_view().len() == old(self).log_view().len() + 1,
            forall|q: int|
                0 <= q < old(self).log_view().len() ==> final(self).log_view()[q] == old(
                    self,
                ).log_view()[q],
            final(self).log_view().last() matches Operation::Add((k, v), vers) && k@ == sha256_of(
                key@,
            ) && opt_view(v) == Some(value@) && vers == old(self).visible_version() + old(
                self,
            ).log_view().len(),
    {
        let staged = self.staged_version();
        let kh = KeyHash::with_sha256(key.as_slice());
        self.log.push(Operation::Add((kh, Some(value)), staged));
    }

    /// Wrapper for `insert`.
    pub fn update(&mut self, key: &Vec<u8>, value: Vec<u8>)
        requires
            old(self).wf(),
            old(self).visible_version() + old(self).log_view().len() < u64::MAX,
        ensures
            final(self).wf(),
            final(self).visible_hist() == old(self).visible_hist(),
            final(self).visible_version() == old(self).visible_version(),
            final(self).log_view().len() == old(self).log_view().len() + 1,
    {
        self.insert(key, value)
    }

    /// Append a removal to the log; the visible copy is untouched.
    pub fn remove(&mut self, key: &Vec<u8>)
        requires
            old(self).wf(),
            old(self).visible_version() + old(self).log_view().len() < u64::MAX,
        ensures
            final(self).wf(),
            final(self).visible_hist() == old(self).visible_hist(),
            final(self).visible_version() == old(self).visible_version(),
            final(self).log_view().len() == old(self).log_view().len() + 1,
            forall|q: int|
                0 <= q < old(self).log_view().len() ==> final(self).log_view()[q] == old(
                    self,
                ).log_view()[q],
            final(self).log_view().last() matches Operation::Remove(k, vers) && k@ == sha256_of(
                key@,
            ) && vers == old(self).visible_version() + old(self).log_view().len(),
    {
        let staged = self.staged_version();
        let kh = KeyHash::with_sha256(key.as_slice());
        self.log.push(Operation::Remove(kh, staged));
    }

    /// Append a whole value set to the log as one atomic operation; the
    /// visible copy is untouched.
    pub fn extend(&mut self, values: Vec<(Vec<u8>, Option<Vec<u8>>)>)
        requires
            old(self).wf(),
            old(self).visible_version() + old(self).log_view().len() < u64::MAX,
        ensures
            final(self).wf(),
            final(self).visible_hist() == old(self).visible_hist(),
            final(self).visible_version() == old(self).visible_version(),
            final(self).log_view().len() == old(self).log_view().len() + 1,
            forall|q: int|
                0 <= q < old(self).log_view().len() ==> final(self).log_view()[q] == old(
                    self,
                ).log_view()[q],
            final(self).log_view().last() matches Operation::Extend(kvs, vers) && kvs@.len()
                == values@.len() && vers == old(self).visible_version() + old(
                self,
            ).log_view().len() && forall|q: int|
                0 <= q < values@.len() ==> (#[trigger] kvs@[q]).0@ == sha256_of(values@[q].0@)
                    && opt_view(kvs@[q].1) == opt_view(values@[q].1),
    {
        let staged = self.staged_version();
        let mut mapped: Vec<(KeyHash, Option<OwnedValue>)> = Vec::new();
        let mut i: usize = 0;
        while i < values.len()
            invariant
                i <= values@.len(),
                mapped@.len() == i,
                forall|q: int|
                    0 <= q < i ==> (#[trigger] mapped@[q]).0@ == sha256_of(values@[q].0@)
                        && opt_view(mapped@[q].1) == opt_view(values@[q].1),
            decreases values@.len() - i,
        {
            let e = &values[i];
            let kh = KeyHash::with_sha256(e.0.as_slice());
            mapped.push((kh, clone_opt_bytes(&e.1)));
            i = i + 1;
        }
        self.log.push(Operation::Extend(mapped, staged));
    }

    /// Publish all logged operations to readers, as one atomic step: the
    /// stale copy is first brought in sync by replaying the retained log,
    /// the fresh log is applied to it, visibility flips, and the fresh log
    /// is retained for the next cycle. A reader's handle taken before this
    /// call observes none of these operations; one taken after observes all
    /// of them.
    pub fn publish(&mut self)
        requires
            old(self).wf(),
        ensures
            final(self).wf(),
            (final(self).visible_hist(), final(self).visible_version()) == apply_ops(
                old(self).visible_hist(),
                old(self).visible_version(),
                old(self).log_view(),
            ),
            final(self).log_view() =~= Seq::<Operation>::empty(),
            final(self).pending_view() == old(self).log_view(),
    {
        apply_log(&mut self.stale, &self.pending);
        apply_log(&mut self.stale, &self.log);
        core::mem::swap(&mut self.visible, &mut self.stale);
        core::mem::swap(&mut self.pending, &mut self.log);
        self.log.clear();
    }
}

/// Every key of a value set is a 32-byte key hash.
pub open spec fn value_set_keys_wf(vs: Seq<(Seq<u8>, Option<Seq<u8>>)>) -> bool {
    forall|i: int| 0 <= i < vs.len() ==> (#[trigger] vs[i]).0.len() == 32
}

/// Applying a value set keeps the history well-formed and within the
/// version it was applied at.
pub proof fn lemma_apply_value_set_wf(
    h: HistoryView,
    vs: Seq<(Seq<u8>, Option<Seq<u8>>)>,
    ver: u64,
)
    requires
        crate::jmt::wf_hist(h),
        crate::jmt::versions_le(h, ver),
        value_set_keys_wf(vs),
    ensures
        crate::jmt::wf_hist(apply_value_set(h, vs, ver)),
        crate::jmt::versions_le(apply_value_set(h, vs, ver), ver),
    decreases vs.len(),
{
    if vs.len() > 0 {
        crate::jmt::lemma_upsert(h, vs[0].0, ver, vs[0].1);
        assert(forall|i: int|
            0 <= i < vs.drop_first().len() ==> (#[trigger] vs.drop_first()[i]) == vs[i + 1]);
        lemma_apply_value_set_wf(
            crate::jmt::upsert(h, vs[0].0, ver, vs[0].1),
            vs.drop_first(),
            ver,
        );
    }
}

/// The operation's keys are 32-byte key hashes.
pub open spec fn op_wf(op: Operation) -> bool {
    value_set_keys_wf(op_value_set(op))
}

/// Publishing a correctly staged log of non-empty operations advances the
/// visible version by exactly the log's length: each operation is logged
/// one version above the previous one, so each applies, and none is
/// dropped.
pub proof fn lemma_publish_advances_version(h: HistoryView, v: u64, ops: Seq<Operation>)
    requires
        crate::jmt::wf_hist(h),
        crate::jmt::versions_le(h, v),
        forall|k: int| 0 <= k < ops.len() ==> op_version(#[trigger] ops[k]) == v + k,
        forall|k: int| 0 <= k < ops.len() ==> op_value_set(#[trigger] ops[k]).len() > 0,
        forall|k: int| 0 <= k < ops.len() ==> op_wf(#[trigger] ops[k]),
        v + ops.len() <= u64::MAX,
    ensures
        apply_ops(h, v, ops).1 == v + ops.len(),
        crate::jmt::wf_hist(apply_ops(h, v, ops).0),
        crate::jmt::versions_le(apply_ops(h, v, ops).0, apply_ops(h, v, ops).1),
    decreases ops.len(),
{
    if ops.len() > 0 {
        let (h1, l1) = apply_op(h, v, ops[0]);
        assert(op_version(ops[0]) == v);
        assert(v < u64::MAX);
        assert(h1 == apply_value_set(h, op_value_set(ops[0]), (v + 1) as u64));
        assert(l1 == v + 1);
        crate::db_adapter::lemma_versions_le_mono(h, v, (v + 1) as u64);
        lemma_apply_value_set_wf(h, op_value_set(ops[0]), (v + 1) as u64);
        assert(forall|k: int|
            0 <= k < ops.drop_first().len() ==> (#[trigger] ops.drop_first()[k]) == ops[k + 1]);
        lemma_publish_advances_version(h1, l1, ops.drop_first());
    }
}

/// Reader isolation: two handles over the same visible epoch observe the
/// same value history, the same latest version, and the same root hash at
/// every version.
pub proof fn lemma_reader_isolation(
    a: JellyfishMerkleTreeWrapper,
    b: JellyfishMerkleTreeWrapper,
    v: u64,
)
    requires
        a.hist() == b.hist(),
        a.version_spec() == b.version_spec(),
    ensures
        root_at(a.hist(), v) == root_at(b.hist(), v),
        leaves_at(a.hist(), a.version_spec()).len() == leaves_at(b.hist(), b.version_spec()).len(),
        forall|key: Seq<u8>| lookup(a.hist(), key, v) == lookup(b.hist(), key, v),
{
}

} // verus!
