//! The storage backend abstraction: the capability sets a backend offers —
//! reading tree state, writing node batches, and versioned snapshots — and
//! their implementations on the in-memory database; plus the byte-level
//! iteration surface of a disk-like store.

use crate::assoc::{bytes_lt, lemma_lex_irrefl, lemma_lex_trans, lex_lt};
use crate::db_adapter::{history_view, DbAdapter};
use crate::digest::KeyHash;
use crate::errors::LeftRightTrieError;
use crate::jmt::{leaves_at, lookup, opt_view, HistoryView, OwnedValue};
use crate::node::{Node, NodeBatch, NodeKey, TreeUpdateBatch};
use crate::pebble_db::PebbleDB;
use crate::tree_hash::Leaves;
use vstd::prelude::*;

verus! {

/// Whether `(k, vh)` is a leaf of the set and no leaf's key is above `k`.
pub open spec fn is_rightmost_leaf(leaves: Leaves, k: Seq<u8>, vh: Seq<u8>) -> bool {
    &&& exists|i: int| 0 <= i < leaves.len() && #[trigger] leaves[i] == (k, vh)
    &&& forall|j: int| 0 <= j < leaves.len() ==> !lex_lt(k, (#[trigger] leaves[j]).0)
}

/// Read access to a tree's state.
pub trait TreeReader: Sized {
    /// The value history the reader exposes.
    spec fn reader_hist(&self) -> HistoryView;

    /// The latest version the reader exposes.
    spec fn reader_latest(&self) -> u64;

    /// The reader's state is a well-formed history within its version.
    spec fn reader_wf(&self) -> bool;

    /// Look a node up by its key; a missing node reads as nothing.
    fn get_node_option(&self, node_key: &NodeKey) -> (r: Result<Option<Node>, LeftRightTrieError>)
        ensures
            r matches Err(e) ==> e is CorruptNode,
    ;

    /// The value of the greatest version at or below `max_version` where
    /// the key has a history entry; nothing when absent.
    fn get_value_option(&self, max_version: u64, key_hash: &KeyHash) -> (r: Result<
        Option<OwnedValue>,
        LeftRightTrieError,
    >)
        requires
            self.reader_wf(),
        ensures
            r matches Ok(o) && opt_view(o) == lookup(self.reader_hist(), key_hash@, max_version),
    ;

    /// The leaf with the greatest key hash at the latest version; nothing
    /// when the tree is empty there.
    fn get_rightmost_leaf(&self) -> (r: Result<Option<(KeyHash, Vec<u8>)>, LeftRightTrieError>)
        requires
            self.reader_wf(),
        ensures
            r matches Ok(o) && match o {
                None => leaves_at(self.reader_hist(), self.reader_latest()).len() == 0,
                Some((k, vh)) => is_rightmost_leaf(
                    leaves_at(self.reader_hist(), self.reader_latest()),
                    k@,
                    vh@,
                ),
            },
    ;
}

/// Write access to a tree's state.
pub trait TreeWriter: TreeReader {
    /// Persist a node batch: nodes and value deltas, idempotently.
    fn write_node_batch(&mut self, node_batch: &NodeBatch) -> (r: Result<(), LeftRightTrieError>)
        requires
            old(self).reader_wf(),
            forall|i: int|
                0 <= i < node_batch.nodes@.len() ==> (#[trigger] node_batch.nodes@[i]).0.wf()
                    && node_batch.nodes@[i].1.wf(),
            forall|i: int|
                0 <= i < node_batch.values@.len() ==> ((#[trigger] node_batch.values@[i]).0).0
                    >= old(self).reader_latest(),
            forall|i: int, j: int|
                0 <= i <= j < node_batch.values@.len() ==> ((
                #[trigger] node_batch.values@[i]).0).0 <= ((#[trigger] node_batch.values@[j]).0).0,
        ensures
            final(self).reader_wf(),
            r is Ok,
            final(self).reader_hist() == crate::db_adapter::spec_apply_deltas(
                old(self).reader_hist(),
                node_batch.values@,
            ),
    ;
}

/// Versioned access to a whole database: atomic batch updates and
/// consistent snapshots of nodes and value history.
pub trait VersionedDatabase: TreeReader {
    /// Atomically persist nodes, stale-node indices, and value deltas.
    fn update_batch(&mut self, batch: TreeUpdateBatch) -> (r: Result<(), LeftRightTrieError>)
        requires
            old(self).reader_wf(),
            forall|i: int|
                0 <= i < batch.node_batch.nodes@.len() ==> (
                #[trigger] batch.node_batch.nodes@[i]).0.wf()
                    && batch.node_batch.nodes@[i].1.wf(),
            forall|i: int|
                0 <= i < batch.node_batch.values@.len() ==> ((
                #[trigger] batch.node_batch.values@[i]).0).0 >= old(self).reader_latest(),
            forall|i: int, j: int|
                0 <= i <= j < batch.node_batch.values@.len() ==> ((
                #[trigger] batch.node_batch.values@[i]).0).0 <= ((
                #[trigger] batch.node_batch.values@[j]).0).0,
        ensures
            final(self).reader_wf(),
            r is Ok,
            final(self).reader_hist() == crate::db_adapter::spec_apply_deltas(
                old(self).reader_hist(),
                batch.node_batch.values@,
            ),
    ;

    /// Decode and return every stored node.
    fn nodes(&self) -> (r: Result<Vec<(NodeKey, Node)>, LeftRightTrieError>)
        ensures
            r matches Err(e) ==> e is CorruptNode,
    ;

    /// A copy of the whole value history.
    fn value_history(&self) -> (r: Vec<(KeyHash, Vec<(u64, Option<Vec<u8>>)>)>)
        ensures
            history_view(r@) == self.reader_hist(),
    ;
}

impl TreeReader for DbAdapter {
    open spec fn reader_hist(&self) -> HistoryView {
        self.hist()
    }

    open spec fn reader_latest(&self) -> u64 {
        self.latest_version()
    }

    open spec fn reader_wf(&self) -> bool {
        self.wf()
    }

    fn get_node_option(&self, node_key: &NodeKey) -> (r: Result<Option<Node>, LeftRightTrieError>) {
        DbAdapter::get_node_option(self, node_key)
    }

    fn get_value_option(&self, max_version: u64, key_hash: &KeyHash) -> (r: Result<
        Option<OwnedValue>,
        LeftRightTrieError,
    >) {
        DbAdapter::get_value_option(self, max_version, key_hash)
    }

    fn get_rightmost_leaf(&self) -> (r: Result<Option<(KeyHash, Vec<u8>)>, LeftRightTrieError>) {
        let leaves = self.leaves_at_exec(self.version());
        let ghost lv = crate::tree_hash::leaves_view(leaves@);
        if leaves.len() == 0 {
            return Ok(None);
        }
        let mut best: usize = 0;
        let mut i: usize = 1;
        proof {
            lemma_lex_irrefl(lv[0].0);
        }
        while i < leaves.len()
            invariant
                best < i <= leaves@.len(),
                lv == crate::tree_hash::leaves_view(leaves@),
                forall|j: int| 0 <= j < i ==> !lex_lt(lv[best as int].0, (#[trigger] lv[j]).0),
            decreases leaves@.len() - i,
        {
            if bytes_lt(&leaves[best].0.as_bytes(), &leaves[i].0.as_bytes()) {
                let ghost old_best = best as int;
                best = i;
                proof {
                    lemma_lex_irrefl(lv[best as int].0);
                    assert forall|j: int| 0 <= j < i + 1 implies !lex_lt(
                        lv[best as int].0,
                        (#[trigger] lv[j]).0,
                    ) by {
                        if j < i && lex_lt(lv[best as int].0, lv[j].0) {
                            lemma_lex_trans(lv[old_best].0, lv[best as int].0, lv[j].0);
                        }
                    }
                }
            }
            i = i + 1;
        }
        let entry = &leaves[best];
        proof {
            assert(lv[best as int] == (entry.0@, entry.1@));
        }
        Ok(Some((entry.0.clone(), crate::assoc::bytes_clone(&entry.1))))
    }
}

impl TreeWriter for DbAdapter {
    fn write_node_batch(&mut self, node_batch: &NodeBatch) -> (r: Result<(), LeftRightTrieError>) {
        DbAdapter::write_node_batch(self, node_batch)
    }
}

impl VersionedDatabase for DbAdapter {
    fn update_batch(&mut self, batch: TreeUpdateBatch) -> (r: Result<(), LeftRightTrieError>) {
        DbAdapter::update_batch(self, batch)
    }

    fn nodes(&self) -> (r: Result<Vec<(NodeKey, Node)>, LeftRightTrieError>) {
        DbAdapter::nodes(self)
    }

    fn value_history(&self) -> (r: Vec<(KeyHash, Vec<(u64, Option<Vec<u8>>)>)>) {
        DbAdapter::value_history(self)
    }
}

/// Byte-level iteration over a whole disk-like store, so that any store can
/// feed the adapter generically.
pub trait DiskIter: Sized {
    /// The entries the store holds, in its iteration order.
    spec fn disk_view(&self) -> Seq<(Seq<u8>, Seq<u8>)>;

    /// All entries, key-value byte pairs, in iteration order.
    fn iter(&self) -> (r: Vec<(Vec<u8>, Vec<u8>)>)
        ensures
            r@.len() == self.disk_view().len(),
            forall|i: int|
                0 <= i < r@.len() ==> (#[trigger] r@[i]).0@ == self.disk_view()[i].0 && r@[i].1@
                    == self.disk_view()[i].1,
    ;
}

impl DiskIter for PebbleDB {
    open spec fn disk_view(&self) -> Seq<(Seq<u8>, Seq<u8>)> {
        self.inner_view()
    }

    fn iter(&self) -> (r: Vec<(Vec<u8>, Vec<u8>)>) {
        let r = self.entries();
        proof {
            assert forall|i: int|
                0 <= i < r@.len() implies (#[trigger] r@[i]).0@ == self.disk_view()[i].0
                && r@[i].1@ == self.disk_view()[i].1 by {
                assert(r@[i].0@ == self.inner_view()[i].0 && r@[i].1@ == self.inner_view()[i].1);
            }
        }
        r
    }
}

} // verus!
