//! A typed facade over the versioned tree: keys are hashed on the way in,
//! every mutation applies one value set at the next version and persists
//! the produced batch through the database in the same call.

use crate::digest::{sha256_of, KeyHash, RootHash};
use crate::errors::LeftRightTrieError;
use crate::jmt::{
    apply_value_set, leaves_at, lookup, opt_view, root_at, value_set_view, versions_le, wf_hist,
    HistoryView, JellyfishMerkleTree, OwnedValue,
};
use crate::tree_hash::{gen_proof, proof_checks, SparseMerkleProof};
use vstd::prelude::*;

verus! {

/// The tree facade. It owns the tree (and through it the database); every
/// mutation updates both as one unit, so the in-memory state and the
/// persisted history never diverge.
#[derive(Debug)]
pub struct JellyfishMerkleTreeWrapper {
    inner: JellyfishMerkleTree,
}

impl JellyfishMerkleTreeWrapper {
    /// The value history behind the facade.
    pub closed spec fn hist(&self) -> HistoryView {
        self.inner.hist()
    }

    /// The latest committed version.
    pub closed spec fn version_spec(&self) -> u64 {
        self.inner.version_spec()
    }

    /// Well-formed: the history is well-formed and no version exceeds the
    /// latest one.
    pub open spec fn wf(&self) -> bool {
        &&& wf_hist(self.hist())
        &&& versions_le(self.hist(), self.version_spec())
    }

    pub fn new(inner: JellyfishMerkleTree) -> (r: JellyfishMerkleTreeWrapper)
        ensures
            r.hist() == inner.hist(),
            r.version_spec() == inner.version_spec(),
            r.wf() == inner.wf(),
    {
        JellyfishMerkleTreeWrapper { inner }
    }

    /// A copy of the underlying tree.
    pub fn inner(&self) -> (r: JellyfishMerkleTree)
        ensures
            r.hist() == self.hist(),
            r.version_spec() == self.version_spec(),
    {
        self.inner.clone()
    }

    /// Get the value associated with a key at a version; a key without a
    /// value at that version is `NotFound`.
    pub fn get(&self, key: &Vec<u8>, version: u64) -> (r: Result<OwnedValue, LeftRightTrieError>)
        requires
            self.wf(),
        ensures
            match lookup(self.hist(), sha256_of(key@), version) {
                Some(val) => r matches Ok(o) && o@ == val,
                None => r matches Err(e) && e is NotFound,
            },
    {
        let kh = KeyHash::with_sha256(key.as_slice());
        match self.inner.get(&kh, version)? {
            Some(value) => Ok(value),
            None => Err(LeftRightTrieError::NotFound),
        }
    }

    /// Whether the tree contains a value for the key at a version.
    pub fn contains(&self, key: &Vec<u8>, version: u64) -> (r: Result<bool, LeftRightTrieError>)
        requires
            self.wf(),
        ensures
            r matches Ok(b) && b == (lookup(self.hist(), sha256_of(key@), version) is Some),
    {
        let kh = KeyHash::with_sha256(key.as_slice());
        self.inner.contains(&kh, version)
    }

    /// Apply one value set at the given version and persist the produced
    /// batch, as a single unit. Fails exactly when the version is not
    /// strictly above the latest one.
    pub fn put_and_write(
        &mut self,
        value_set: Vec<(KeyHash, Option<OwnedValue>)>,
        version: u64,
    ) -> (r: Result<(), LeftRightTrieError>)
        requires
            old(self).wf(),
        ensures
            final(self).wf(),
            r is Err <==> version <= old(self).version_spec(),
            r matches Err(e) ==> e is VersionNotMonotone && final(self).hist() == old(self).hist()
                && final(self).version_spec() == old(self).version_spec(),
            r is Ok ==> final(self).hist() == apply_value_set(
                old(self).hist(),
                value_set_view(value_set@),
                version,
            ),
            r is Ok && value_set@.len() > 0 ==> final(self).version_spec() == version,
            r is Ok && value_set@.len() == 0 ==> final(self).version_spec() == old(
                self,
            ).version_spec(),
    {
        let ghost h0 = self.hist();
        let batch = match self.inner.put_value_set(&value_set, version) {
            Ok((_root, batch)) => batch,
            Err(e) => {
                return Err(LeftRightTrieError::VersionNotMonotone);
            },
        };
        let ghost deltas = batch.node_batch.values@;
        proof {
            lemma_deltas_fold(h0, deltas, value_set_view(value_set@), version);
            assert forall|i: int, j: int|
                0 <= i <= j < deltas.len() implies ((#[trigger] deltas[i]).0).0 <= ((
            #[trigger] deltas[j]).0).0 by {
                assert(((deltas[i]).0).0 == version);
                assert(((deltas[j]).0).0 == version);
            }
            lemma_batch_latest_const(deltas, old(self).version_spec(), version);
        }
        self.inner.write_update_batch(batch)?;
        Ok(())
    }

    /// Insert a key-value pair at the next version and persist the batch.
    /// The tree's version increases by one.
    pub fn insert(&mut self, key: &Vec<u8>, value: Vec<u8>) -> (r: Result<(), LeftRightTrieError>)
        requires
            old(self).wf(),
            old(self).version_spec() < u64::MAX,
        ensures
            final(self).wf(),
            r is Ok,
            final(self).version_spec() == old(self).version_spec() + 1,
            final(self).hist() == crate::jmt::upsert(
                old(self).hist(),
                sha256_of(key@),
                (old(self).version_spec() + 1) as u64,
                Some(value@),
            ),
            lookup(final(self).hist(), sha256_of(key@), final(self).version_spec()) == Some(
                value@,
            ),
    {
        let kh = KeyHash::with_sha256(key.as_slice());
        let version = self.inner.version() + 1;
        let mut value_set: Vec<(KeyHash, Option<OwnedValue>)> = Vec::new();
        value_set.push((kh, Some(value)));
        proof {
            lemma_single_value_set(
                old(self).hist(),
                value_set_view(value_set@),
                sha256_of(key@),
                Some(value@),
                version,
            );
            crate::jmt::lemma_upsert(old(self).hist(), sha256_of(key@), version, Some(value@));
            crate::db_adapter::lemma_versions_le_mono(
                old(self).hist(),
                old(self).version_spec(),
                version,
            );
        }
        match self.put_and_write(value_set, version) {
            Ok(()) => Ok(()),
            Err(e) => Err(e),
        }
    }

    /// Remove a key at the next version (a tombstone event) and persist the
    /// batch. Returns true exactly when the key has no value at the new
    /// version — always, for this tree.
    pub fn remove(&mut self, key: &Vec<u8>) -> (r: Result<bool, LeftRightTrieError>)
        requires
            old(self).wf(),
            old(self).version_spec() < u64::MAX,
        ensures
            final(self).wf(),
            final(self).version_spec() == old(self).version_spec() + 1,
            final(self).hist() == crate::jmt::upsert(
                old(self).hist(),
                sha256_of(key@),
                (old(self).version_spec() + 1) as u64,
                None,
            ),
            r matches Ok(b) && b == (lookup(
                final(self).hist(),
                sha256_of(key@),
                final(self).version_spec(),
            ) is None),
            r == Ok::<bool, LeftRightTrieError>(true),
    {
        let kh = KeyHash::with_sha256(key.as_slice());
        let version = self.inner.version() + 1;
        let mut value_set: Vec<(KeyHash, Option<OwnedValue>)> = Vec::new();
        value_set.push((kh, None));
        proof {
            lemma_single_value_set(
                old(self).hist(),
                value_set_view(value_set@),
                sha256_of(key@),
                None,
                version,
            );
            crate::jmt::lemma_upsert(old(self).hist(), sha256_of(key@), version, None);
            crate::db_adapter::lemma_versions_le_mono(
                old(self).hist(),
                old(self).version_spec(),
                version,
            );
        }
        self.put_and_write(value_set, version)?;
        Ok(true)
    }

    /// The root hash of the tree at a version.
    pub fn root_hash(&self, version: u64) -> (r: Result<RootHash, LeftRightTrieError>)
        requires
            self.wf(),
        ensures
            r matches Ok(root) && root@ == root_at(self.hist(), version),
    {
        self.inner.get_root_hash(version)
    }

    /// A Merkle proof for a key at a version.
    pub fn get_proof(&self, key: &Vec<u8>, version: u64) -> (r: Result<
        SparseMerkleProof,
        LeftRightTrieError,
    >)
        requires
            self.wf(),
        ensures
            r matches Ok(p) && p@ == gen_proof(
                leaves_at(self.hist(), version),
                sha256_of(key@),
                0,
            ),
    {
        let kh = KeyHash::with_sha256(key.as_slice());
        self.inner.get_proof(&kh, version)
    }

    /// Verify a Merkle proof for a key hash against an expected root hash.
    pub fn verify_proof(
        &self,
        element_key: &KeyHash,
        version: u64,
        expected_root_hash: &RootHash,
        proof: &SparseMerkleProof,
    ) -> (r: Result<(), LeftRightTrieError>)
        ensures
            r is Ok <==> proof_checks(element_key@, expected_root_hash@, proof@),
            r matches Err(e) ==> e is ProofMismatch,
    {
        self.inner.verify_proof(element_key, version, expected_root_hash, proof)
    }

    /// The entries visible at a version, ascending by key hash, starting at
    /// the first key at or above `starting_key`.
    pub fn iter(&self, version: u64, starting_key: &KeyHash) -> (r: Result<
        Vec<(KeyHash, OwnedValue)>,
        LeftRightTrieError,
    >)
        requires
            self.wf(),
        ensures
            r is Ok,
            r matches Ok(list) ==> crate::jmt::sorted_by_key(list@) && forall|p: int|
                0 <= p < list@.len() ==> lookup(self.hist(), (#[trigger] list@[p]).0@, version)
                    == Some(list@[p].1@) && !crate::assoc::lex_lt(list@[p].0@, starting_key@),
            r matches Ok(list) ==> forall|k: int|
                0 <= k < self.hist().len() && crate::jmt::value_at(
                    (#[trigger] self.hist()[k]).1,
                    version,
                ) is Some && !crate::assoc::lex_lt(self.hist()[k].0, starting_key@)
                    ==> crate::jmt::contains_key(list@, self.hist()[k].0),
    {
        self.inner.iter(version, starting_key)
    }

    /// The number of keys carrying a value at the latest version.
    pub fn len(&self) -> (r: usize)
        requires
            self.wf(),
        ensures
            r == leaves_at(self.hist(), self.version_spec()).len(),
    {
        self.inner.len()
    }

    /// Whether no key carries a value at the latest version.
    pub fn is_empty(&self) -> (r: bool)
        requires
            self.wf(),
        ensures
            r == (leaves_at(self.hist(), self.version_spec()).len() == 0),
    {
        self.inner.is_empty()
    }

    /// The latest version of the tree known to the database.
    pub fn version(&self) -> (r: u64)
        ensures
            r == self.version_spec(),
    {
        self.inner.version()
    }

    /// A copy of the value history from the database.
    pub fn value_history(&self) -> (r: Vec<(KeyHash, Vec<(u64, Option<Vec<u8>>)>)>)
        ensures
            crate::db_adapter::history_view(r@) == self.hist(),
    {
        self.inner.reader().value_history()
    }
}

impl Clone for JellyfishMerkleTreeWrapper {
    fn clone(&self) -> (r: Self)
        ensures
            r.hist() == self.hist(),
            r.version_spec() == self.version_spec(),
    {
        JellyfishMerkleTreeWrapper { inner: self.inner.clone() }
    }
}

/// A one-pair value set folds to a single event.
pub proof fn lemma_single_value_set(
    h: HistoryView,
    vsv: Seq<(Seq<u8>, Option<Seq<u8>>)>,
    key: Seq<u8>,
    val: Option<Seq<u8>>,
    v: u64,
)
    requires
        vsv.len() == 1,
        vsv[0] == (key, val),
    ensures
        apply_value_set(h, vsv, v) == crate::jmt::upsert(h, key, v, val),
{
    assert(vsv.drop_first() =~= Seq::<(Seq<u8>, Option<Seq<u8>>)>::empty());
    assert(apply_value_set(crate::jmt::upsert(h, key, v, val), vsv.drop_first(), v)
        == crate::jmt::upsert(h, key, v, val));
}

/// Applying a batch's deltas, all carrying one version, folds to applying
/// the matching value set at that version.
pub proof fn lemma_deltas_fold(
    h: HistoryView,
    deltas: Seq<((u64, KeyHash), Option<Vec<u8>>)>,
    vsv: Seq<(Seq<u8>, Option<Seq<u8>>)>,
    v: u64,
)
    requires
        deltas.len() == vsv.len(),
        forall|i: int|
            0 <= i < deltas.len() ==> ((#[trigger] deltas[i]).0).0 == v && (deltas[i].0).1@
                == vsv[i].0 && opt_view(deltas[i].1) == vsv[i].1,
    ensures
        crate::db_adapter::spec_apply_deltas(h, deltas) == apply_value_set(h, vsv, v),
    decreases deltas.len(),
{
    if deltas.len() > 0 {
        assert(deltas.drop_first().len() == vsv.drop_first().len());
        assert(forall|i: int|
            0 <= i < deltas.drop_first().len() ==> #[trigger] deltas.drop_first()[i] == deltas[i
                + 1] && vsv.drop_first()[i] == vsv[i + 1]);
        assert(vsv[0] == (vsv[0].0, vsv[0].1));
        lemma_deltas_fold(
            crate::jmt::upsert(h, (deltas[0].0).1@, v, opt_view(deltas[0].1)),
            deltas.drop_first(),
            vsv.drop_first(),
            v,
        );
        assert(crate::jmt::upsert(h, (deltas[0].0).1@, v, opt_view(deltas[0].1))
            == crate::jmt::upsert(h, vsv[0].0, v, vsv[0].1));
    }
}

/// A batch whose deltas all carry one version at or above the initial one
/// leaves the latest version at that version, or at the initial one when
/// the batch is empty.
pub proof fn lemma_batch_latest_const(
    deltas: Seq<((u64, KeyHash), Option<Vec<u8>>)>,
    init: u64,
    v: u64,
)
    requires
        forall|i: int| 0 <= i < deltas.len() ==> ((#[trigger] deltas[i]).0).0 == v,
        init <= v,
    ensures
        deltas.len() > 0 ==> crate::db_adapter::spec_batch_latest(deltas, init) == v,
        deltas.len() == 0 ==> crate::db_adapter::spec_batch_latest(deltas, init) == init,
    decreases deltas.len(),
{
    if deltas.len() > 0 {
        assert(forall|i: int|
            0 <= i < deltas.drop_first().len() ==> #[trigger] deltas.drop_first()[i] == deltas[i
                + 1]);
        lemma_batch_latest_const(
            deltas.drop_first(),
            if (deltas[0].0).0 > init {
                (deltas[0].0).0
            } else {
                init
            },
            v,
        );
    }
}

} // verus!
