//! The in-memory reference backend: a single insertion-ordered map from
//! prefixed byte keys to byte values, organized into column families by an
//! 8-byte key prefix.

use crate::assoc::{
    assoc_get, assoc_has, assoc_update, bytes_clone, bytes_concat, bytes_eq, lemma_assoc_get_at,
    lemma_assoc_get_has, lemma_assoc_get_none, lemma_assoc_has_exists, lemma_assoc_update,
    lemma_assoc_update_append, lemma_assoc_update_at_index, unique_keys,
};
use crate::column_family::{cf_key_of, ColumnFamily, PrefixedKey};
use crate::errors::LeftRightTrieError;
use crate::index_map::{
    index_map_entries, index_map_entries_vec, index_map_get, index_map_insert, index_map_len,
    index_map_new,
};
use vstd::prelude::*;

verus! {

/// Total number of prefixed keys across all column families.
pub open spec fn sum_lens(cv: Seq<(Seq<u8>, Seq<Seq<u8>>)>) -> int
    decreases cv.len(),
{
    if cv.len() == 0 {
        0
    } else {
        cv[0].1.len() + sum_lens(cv.drop_first())
    }
}

/// How `sum_lens` changes under an association update of one family's list.
pub proof fn lemma_sum_assoc_update(cv: Seq<(Seq<u8>, Seq<Seq<u8>>)>, k: Seq<u8>, v: Seq<Seq<u8>>)
    requires
        unique_keys(cv),
    ensures
        assoc_has(cv, k) ==> sum_lens(assoc_update(cv, k, v)) == sum_lens(cv) + v.len()
            - assoc_get(cv, k).unwrap().len(),
        !assoc_has(cv, k) ==> sum_lens(assoc_update(cv, k, v)) == sum_lens(cv) + v.len(),
    decreases cv.len(),
{
    let t = assoc_update(cv, k, v);
    if cv.len() == 0 {
        assert(t == seq![(k, v)]);
        assert(t.drop_first() =~= Seq::<(Seq<u8>, Seq<Seq<u8>>)>::empty());
        assert(sum_lens(t) == v.len() + sum_lens(t.drop_first()));
    } else if cv[0].0 == k {
        assert(t == seq![(k, v)] + cv.drop_first());
        assert(t.drop_first() =~= cv.drop_first());
        assert(sum_lens(t) == v.len() + sum_lens(t.drop_first()));
    } else {
        assert(forall|a: int|
            0 <= a < cv.drop_first().len() ==> (#[trigger] cv.drop_first()[a]).0 == cv[a + 1].0);
        assert(unique_keys(cv.drop_first()));
        lemma_sum_assoc_update(cv.drop_first(), k, v);
        assert(t == seq![cv[0]] + assoc_update(cv.drop_first(), k, v));
        assert(t.drop_first() =~= assoc_update(cv.drop_first(), k, v));
        assert(sum_lens(t) == cv[0].1.len() + sum_lens(t.drop_first()));
    }
}

/// Appending a family adds its list length to the total.
pub proof fn lemma_sum_push(cv: Seq<(Seq<u8>, Seq<Seq<u8>>)>, e: (Seq<u8>, Seq<Seq<u8>>))
    ensures
        sum_lens(cv.push(e)) == sum_lens(cv) + e.1.len(),
    decreases cv.len(),
{
    if cv.len() == 0 {
        assert(cv.push(e).drop_first() =~= Seq::<(Seq<u8>, Seq<Seq<u8>>)>::empty());
        assert(cv.push(e)[0] == e);
        assert(sum_lens(cv.push(e)) == e.1.len() + sum_lens(cv.push(e).drop_first()));
        assert(sum_lens(cv.push(e).drop_first()) == 0);
    } else {
        assert(cv.push(e).drop_first() =~= cv.drop_first().push(e));
        lemma_sum_push(cv.drop_first(), e);
        assert(cv.push(e)[0] == cv[0]);
        assert(sum_lens(cv.push(e)) == cv[0].1.len() + sum_lens(cv.push(e).drop_first()));
        assert(sum_lens(cv) == cv[0].1.len() + sum_lens(cv.drop_first()));
    }
}

/// Whether some family's key list holds the given prefixed key.
pub open spec fn listed_somewhere(cv: Seq<(Seq<u8>, Seq<Seq<u8>>)>, k: Seq<u8>) -> bool {
    exists|c: int, i: int| 0 <= c < cv.len() && 0 <= i < cv[c].1.len() && #[trigger] cv[c].1[i] == k
}

/// The column-family table after inserting a prefixed key under a family.
pub open spec fn spec_insert_cfs(
    cv: Seq<(Seq<u8>, Seq<Seq<u8>>)>,
    name: Seq<u8>,
    pk: Seq<u8>,
) -> Seq<(Seq<u8>, Seq<Seq<u8>>)> {
    match assoc_get(cv, name) {
        Some(l) => if l.contains(pk) {
            cv
        } else {
            assoc_update(cv, name, l.push(pk))
        },
        None => cv.push((name, seq![pk])),
    }
}

/// A mix of a key-value store's approach to storage with byte-vector keys
/// and values: the in-memory reference backend. All pairs live in one
/// insertion-ordered map; per-family lists of prefixed keys organize them
/// into column families.
#[derive(Debug)]
pub struct PebbleDB {
    inner: indexmap::IndexMap<Vec<u8>, Vec<u8>>,
    cfs: Vec<(ColumnFamily, Vec<PrefixedKey>)>,
    path: String,
}

impl PebbleDB {
    /// The storage map's entries: prefixed key, value, in insertion order.
    pub closed spec fn inner_view(&self) -> Seq<(Seq<u8>, Seq<u8>)> {
        index_map_entries(self.inner)
    }

    /// The column families: name bytes and the family's list of prefixed keys.
    pub closed spec fn cfs_view(&self) -> Seq<(Seq<u8>, Seq<Seq<u8>>)> {
        Seq::new(
            self.cfs@.len(),
            |c: int|
                (self.cfs@[c].0@, Seq::new(self.cfs@[c].1@.len(), |i: int| self.cfs@[c].1@[i]@)),
        )
    }

    /// All registered column keys pairwise distinct (the hash did not
    /// collide on the registered names).
    pub open spec fn distinct_prefixes(&self) -> bool {
        forall|c: int, d: int|
            0 <= c < d < self.cfs_view().len() ==> cf_key_of(self.cfs_view()[c].0) != cf_key_of(
                self.cfs_view()[d].0,
            )
    }

    /// Well-formedness: family names unique; each family's key list free of
    /// duplicates; every listed key carries its own family's 8-byte prefix;
    /// the storage map's key set is exactly the union of the lists; and,
    /// absent prefix collisions, the lists partition the storage map.
    pub open spec fn wf(&self) -> bool {
        let cv = self.cfs_view();
        let iv = self.inner_view();
        &&& unique_keys(iv)
        &&& unique_keys(cv)
        &&& forall|c: int, i: int, j: int|
            0 <= c < cv.len() && 0 <= i < j < cv[c].1.len() ==> cv[c].1[i] != cv[c].1[j]
        &&& forall|c: int, i: int|
            0 <= c < cv.len() && 0 <= i < cv[c].1.len() ==> (#[trigger] cv[c].1[i]).len() >= 8
                && cv[c].1[i].subrange(0, 8) == cf_key_of(cv[c].0)
        &&& forall|c: int, i: int|
            0 <= c < cv.len() && 0 <= i < cv[c].1.len() ==> assoc_has(iv, #[trigger] cv[c].1[i])
        &&& forall|e: int| 0 <= e < iv.len() ==> listed_somewhere(cv, (#[trigger] iv[e]).0)
        &&& (self.distinct_prefixes() ==> sum_lens(cv) == iv.len())
    }

    /// An empty backend that would persist to the given path.
    pub fn new(path: String) -> (r: PebbleDB)
        ensures
            r.wf(),
            r.inner_view() =~= Seq::<(Seq<u8>, Seq<u8>)>::empty(),
            r.cfs_view() =~= Seq::<(Seq<u8>, Seq<Seq<u8>>)>::empty(),
    {
        let r = PebbleDB { inner: index_map_new(), cfs: Vec::new(), path };
        proof {
            assert(r.cfs_view() =~= Seq::<(Seq<u8>, Seq<Seq<u8>>)>::empty());
        }
        r
    }

    /// The storage map itself.
    pub fn inner(&self) -> (r: &indexmap::IndexMap<Vec<u8>, Vec<u8>>)
        ensures
            crate::index_map::index_map_entries(*r) == self.inner_view(),
    {
        &self.inner
    }

    /// The column-family table: each family and its list of prefixed keys.
    pub fn cfs(&self) -> (r: &Vec<(ColumnFamily, Vec<PrefixedKey>)>)
        ensures
            r@.len() == self.cfs_view().len(),
            forall|c: int|
                0 <= c < r@.len() ==> (#[trigger] r@[c]).0@ == self.cfs_view()[c].0 && r@[c].1@.len()
                    == self.cfs_view()[c].1.len(),
    {
        &self.cfs
    }

    /// The hint path for whole-backend serialization.
    pub closed spec fn path_view(&self) -> Seq<char> {
        self.path@
    }

    /// The hint path for whole-backend serialization.
    pub fn path(&self) -> (r: &String)
        ensures
            r@ == self.path_view(),
    {
        &self.path
    }

    /// Number of entries in the storage map.
    pub fn len(&self) -> (r: usize)
        ensures
            r == self.inner_view().len(),
    {
        index_map_len(&self.inner)
    }

    /// Read the value stored under a prefixed key.
    pub fn get(&self, key: &Vec<u8>) -> (r: Option<&Vec<u8>>)
        ensures
            match r {
                Some(v) => assoc_get(self.inner_view(), key@) == Some(v@),
                None => assoc_get(self.inner_view(), key@) is None,
            },
    {
        index_map_get(&self.inner, key)
    }

    /// All entries of the storage map, in insertion order.
    pub fn entries(&self) -> (r: Vec<(Vec<u8>, Vec<u8>)>)
        ensures
            r@.len() == self.inner_view().len(),
            forall|i: int|
                0 <= i < r@.len() ==> #[trigger] r@[i].0@ == self.inner_view()[i].0 && r@[i].1@
                    == self.inner_view()[i].1,
    {
        let r = index_map_entries_vec(&self.inner);
        proof {
            assert forall|i: int|
                0 <= i < r@.len() implies #[trigger] r@[i].0@ == self.inner_view()[i].0
                && r@[i].1@ == self.inner_view()[i].1 by {
                assert(r@[i].0@ =~= self.inner_view()[i].0);
                assert(r@[i].1@ =~= self.inner_view()[i].1);
            }
        }
        r
    }

    /// Index of the family with this name, if registered.
    fn find_cf(&self, cf: &ColumnFamily) -> (r: Option<usize>)
        ensures
            match r {
                Some(c) => c < self.cfs_view().len() && self.cfs_view()[c as int].0 == cf@,
                None => forall|c: int|
                    0 <= c < self.cfs_view().len() ==> self.cfs_view()[c].0 != cf@,
            },
    {
        let mut c: usize = 0;
        while c < self.cfs.len()
            invariant
                c <= self.cfs@.len(),
                forall|d: int| 0 <= d < c ==> self.cfs_view()[d].0 != cf@,
            decreases self.cfs@.len() - c,
        {
            if self.cfs[c].0.eq(cf) {
                return Some(c);
            }
            c = c + 1;
        }
        None
    }

    /// Whether a column family with this name exists.
    pub fn cf_exists(&self, cf: &ColumnFamily) -> (r: bool)
        ensures
            r == assoc_has(self.cfs_view(), cf@),
    {
        proof {
            lemma_assoc_has_exists(self.cfs_view(), cf@);
        }
        match self.find_cf(cf) {
            Some(_) => true,
            None => false,
        }
    }

    /// Register a new column family with no keys. Idempotent: a duplicate
    /// name is a no-op success.
    pub fn new_cf(&mut self, cf: &ColumnFamily) -> (r: Result<(), LeftRightTrieError>)
        requires
            old(self).wf(),
        ensures
            final(self).wf(),
            r is Ok,
            final(self).inner_view() == old(self).inner_view(),
            assoc_has(old(self).cfs_view(), cf@) ==> final(self).cfs_view() == old(
                self,
            ).cfs_view(),
            !assoc_has(old(self).cfs_view(), cf@) ==> final(self).cfs_view() == old(
                self,
            ).cfs_view().push((cf@, Seq::<Seq<u8>>::empty())),
    {
        proof {
            lemma_assoc_has_exists(self.cfs_view(), cf@);
        }
        if !self.cf_exists(cf) {
            let ghost oldcv = self.cfs_view();
            self.cfs.push((cf.clone(), Vec::new()));
            proof {
                assert(self.cfs_view() =~~= oldcv.push((cf@, Seq::<Seq<u8>>::empty())));
                self.lemma_wf_new_cf(old(self), cf@);
            }
            return Ok(());
        }
        Ok(())
    }

    /// Re-establishes well-formedness after registering an empty family.
    proof fn lemma_wf_new_cf(&self, prev: &PebbleDB, name: Seq<u8>)
        requires
            prev.wf(),
            !assoc_has(prev.cfs_view(), name),
            self.inner_view() == prev.inner_view(),
            self.cfs_view() == prev.cfs_view().push((name, Seq::<Seq<u8>>::empty())),
        ensures
            self.wf(),
    {
        let old_cv = prev.cfs_view();
        let old_iv = prev.inner_view();
        let cv = self.cfs_view();
        let iv = self.inner_view();
        lemma_assoc_has_exists(old_cv, name);
        assert forall|e: int| 0 <= e < iv.len() implies listed_somewhere(
            cv,
            (#[trigger] iv[e]).0,
        ) by {
            assert(listed_somewhere(old_cv, old_iv[e].0));
            let (c, i) = choose|c: int, i: int|
                0 <= c < old_cv.len() && 0 <= i < old_cv[c].1.len() && #[trigger] old_cv[c].1[i]
                    == old_iv[e].0;
            assert(cv[c].1[i] == iv[e].0);
        }
        if self.distinct_prefixes() {
            assert forall|a: int, b: int|
                #![trigger old_cv[a], old_cv[b]]
                0 <= a < b < old_cv.len() implies cf_key_of(old_cv[a].0) != cf_key_of(
                old_cv[b].0,
            ) by {
                assert(cv[a].0 == old_cv[a].0);
                assert(cv[b].0 == old_cv[b].0);
                assert(cf_key_of(cv[a].0) != cf_key_of(cv[b].0));
            }
            lemma_sum_push(old_cv, (name, Seq::<Seq<u8>>::empty()));
            assert(sum_lens(cv) == sum_lens(old_cv));
        }
    }

    /// The number of keys in a column family, if it exists.
    pub fn cf_len(&self, cf: &ColumnFamily) -> (r: Option<usize>)
        requires
            self.wf(),
        ensures
            match r {
                Some(n) => assoc_get(self.cfs_view(), cf@) matches Some(l) && n == l.len(),
                None => assoc_get(self.cfs_view(), cf@) is None,
            },
    {
        proof {
            lemma_assoc_get_has(self.cfs_view(), cf@);
            lemma_assoc_has_exists(self.cfs_view(), cf@);
        }
        match self.find_cf(cf) {
            Some(c) => {
                proof {
                    lemma_assoc_get_at(self.cfs_view(), c as int);
                }
                Some(self.cfs[c].1.len())
            },
            None => {
                proof {
                    lemma_assoc_get_none(self.cfs_view(), cf@);
                }
                None
            },
        }
    }

    /// Number of registered column families.
    pub fn cfs_len(&self) -> (r: usize)
        ensures
            r == self.cfs_view().len(),
    {
        self.cfs.len()
    }

    /// Inserts a key-value pair into the storage map under a column family.
    ///
    /// The key is prefixed with the family's 8-byte column key. An existing
    /// key's value is updated in place; otherwise the pair is appended. The
    /// family's key list gains the prefixed key when it is new to the list;
    /// an unregistered family is registered.
    pub fn insert(&mut self, kv: (Vec<u8>, Vec<u8>), cf: &ColumnFamily) -> (r: Result<
        (),
        LeftRightTrieError,
    >)
        requires
            old(self).wf(),
        ensures
            final(self).wf(),
            r is Ok,
            final(self).inner_view() == assoc_update(
                old(self).inner_view(),
                cf_key_of(cf@) + kv.0@,
                kv.1@,
            ),
            final(self).cfs_view() == spec_insert_cfs(
                old(self).cfs_view(),
                cf@,
                cf_key_of(cf@) + kv.0@,
            ),
    {
        let (key, value) = kv;
        let pk = bytes_concat(&cf.cf_key(), &key);
        let ghost pkv = pk@;
        let ghost old_iv = self.inner_view();
        let ghost old_cv = self.cfs_view();
        proof {
            assert(pkv.subrange(0, 8) =~= cf_key_of(cf@));
            lemma_assoc_update(old_iv, pkv, value@);
        }
        let _prev = index_map_insert(&mut self.inner, bytes_clone(&pk), value);
        proof {
            assert(self.cfs_view() =~~= old_cv);
        }
        match self.find_cf(cf) {
            Some(c) => {
                proof {
                    lemma_assoc_get_at(old_cv, c as int);
                }
                let ghost l = old_cv[c as int].1;
                let mut listed = false;
                let lst: &Vec<PrefixedKey> = &self.cfs[c].1;
                proof {
                    assert(lst@ == self.cfs@[c as int].1@);
                    assert(lst@.len() == l.len());
                    assert(forall|j: int| 0 <= j < l.len() ==> l[j] == (#[trigger] lst@[j])@);
                }
                let n = lst.len();
                let mut i: usize = 0;
                while i < n
                    invariant
                        i <= n,
                        n == l.len(),
                        n == lst@.len(),
                        pk@ == pkv,
                        forall|j: int| 0 <= j < l.len() ==> l[j] == (#[trigger] lst@[j])@,
                        !listed ==> forall|j: int| 0 <= j < i ==> l[j] != pkv,
                        listed ==> l.contains(pkv),
                    decreases n - i,
                {
                    if bytes_eq(&lst[i], &pk) {
                        listed = true;
                        proof {
                            assert(l[i as int] == pkv);
                        }
                    }
                    i = i + 1;
                }
                if !listed {
                    proof {
                        assert(!l.contains(pkv));
                    }
                    let mut entry = self.cfs.remove(c);
                    entry.1.push(pk);
                    self.cfs.insert(c, entry);
                    proof {
                        assert(self.cfs_view() =~~= old_cv.update(c as int, (cf@, l.push(pkv))));
                        lemma_assoc_update_at_index(old_cv, c as int, l.push(pkv));
                        assert(self.cfs_view() == assoc_update(old_cv, cf@, l.push(pkv)));
                        self.lemma_wf_insert(old(self), cf@, pkv, value@, c as int, false);
                    }
                } else {
                    proof {
                        assert(self.cfs_view() == old_cv);
                        self.lemma_wf_insert(old(self), cf@, pkv, value@, c as int, true);
                    }
                }
            },
            None => {
                proof {
                    lemma_assoc_get_none(old_cv, cf@);
                    lemma_assoc_has_exists(old_cv, cf@);
                }
                self.cfs.push((cf.clone(), vec![pk]));
                proof {
                    assert(Seq::new(
                        self.cfs@[old_cv.len() as int].1@.len(),
                        |i: int| self.cfs@[old_cv.len() as int].1@[i]@,
                    ) =~= seq![pkv]);
                    assert(self.cfs_view() =~~= old_cv.push((cf@, seq![pkv])));
                    self.lemma_wf_insert(old(self), cf@, pkv, value@, old_cv.len() as int, false);
                }
            },
        }
        Ok(())
    }

    /// Re-establishes well-formedness after one insertion, in each of the
    /// three shapes the column-family table can take.
    proof fn lemma_wf_insert(
        &self,
        prev: &PebbleDB,
        name: Seq<u8>,
        pk: Seq<u8>,
        value: Seq<u8>,
        c: int,
        listed: bool,
    )
        requires
            prev.wf(),
            pk.len() >= 8,
            pk.subrange(0, 8) == cf_key_of(name),
            self.inner_view() == assoc_update(prev.inner_view(), pk, value),
            0 <= c,
            c < prev.cfs_view().len() ==> prev.cfs_view()[c].0 == name,
            c >= prev.cfs_view().len() ==> c == prev.cfs_view().len() && !assoc_has(
                prev.cfs_view(),
                name,
            ),
            listed ==> c < prev.cfs_view().len() && prev.cfs_view()[c].1.contains(pk),
            !listed && c < prev.cfs_view().len() ==> !prev.cfs_view()[c].1.contains(pk),
            listed ==> self.cfs_view() == prev.cfs_view(),
            !listed && c < prev.cfs_view().len() ==> self.cfs_view() == assoc_update(
                prev.cfs_view(),
                name,
                prev.cfs_view()[c].1.push(pk),
            ),
            c == prev.cfs_view().len() ==> self.cfs_view() == prev.cfs_view().push(
                (name, seq![pk]),
            ),
        ensures
            self.wf(),
            self.cfs_view() == spec_insert_cfs(prev.cfs_view(), name, pk),
    {
        let old_cv = prev.cfs_view();
        let old_iv = prev.inner_view();
        let cv = self.cfs_view();
        let iv = self.inner_view();
        lemma_assoc_update(old_iv, pk, value);
        lemma_assoc_has_exists(old_cv, name);
        lemma_assoc_get_has(old_cv, name);
        if c < old_cv.len() {
            lemma_assoc_get_at(old_cv, c);
            if !listed {
                lemma_assoc_update_at_index(old_cv, c, old_cv[c].1.push(pk));
                assert(cv =~= old_cv.update(c, (name, old_cv[c].1.push(pk))));
            }
        } else {
            lemma_assoc_update_append(old_cv, name, seq![pk]);
            assert(cv =~= old_cv.push((name, seq![pk])));
        }
        assert(forall|a: int| 0 <= a < old_cv.len() ==> (#[trigger] cv[a]).0 == old_cv[a].0);
        // the inserted key is listed in family c of the new table
        assert(exists|i: int| 0 <= i < cv[c].1.len() && cv[c].1[i] == pk) by {
            if listed {
                let i = choose|i: int| 0 <= i < old_cv[c].1.len() && old_cv[c].1[i] == pk;
                assert(cv[c].1[i] == pk);
            } else if c < old_cv.len() {
                assert(cv[c].1[old_cv[c].1.len() as int] == pk);
            } else {
                assert(cv[c].1[0] == pk);
            }
        }
        // listed keys still point into the updated map
        assert forall|d: int, i: int|
            0 <= d < cv.len() && 0 <= i < cv[d].1.len() implies assoc_has(
            iv,
            #[trigger] cv[d].1[i],
        ) by {
            lemma_assoc_get_has(iv, cv[d].1[i]);
            if d < old_cv.len() && i < old_cv[d].1.len() {
                lemma_assoc_get_has(old_iv, old_cv[d].1[i]);
                if old_cv[d].1[i] != pk {
                    assert(assoc_get(iv, old_cv[d].1[i]) == assoc_get(old_iv, old_cv[d].1[i]));
                }
                assert(cv[d].1[i] == old_cv[d].1[i]);
            } else {
                assert(cv[d].1[i] == pk);
            }
        }
        // every map entry is listed somewhere
        assert forall|e: int| 0 <= e < iv.len() implies listed_somewhere(
            cv,
            (#[trigger] iv[e]).0,
        ) by {
            if e < old_iv.len() {
                assert(iv[e].0 == old_iv[e].0);
                assert(listed_somewhere(old_cv, old_iv[e].0));
                let (d, i) = choose|d: int, i: int|
                    0 <= d < old_cv.len() && 0 <= i < old_cv[d].1.len() && #[trigger] old_cv[d].1[i]
                        == (old_iv[e]).0;
                assert(cv[d].1[i] == old_cv[d].1[i]);
                assert(cv[d].1[i] == iv[e].0);
            } else {
                assert(iv[e] == (pk, value));
                let i = choose|i: int| 0 <= i < cv[c].1.len() && cv[c].1[i] == pk;
                assert(cv[c].1[i] == iv[e].0);
            }
        }
        // the partition count, absent prefix collisions
        if self.distinct_prefixes() {
            assert forall|a: int, b: int|
                #![trigger old_cv[a], old_cv[b]]
                0 <= a < b < old_cv.len() implies cf_key_of(old_cv[a].0) != cf_key_of(
                old_cv[b].0,
            ) by {
                assert(cv[a].0 == old_cv[a].0);
                assert(cv[b].0 == old_cv[b].0);
                assert(cf_key_of(cv[a].0) != cf_key_of(cv[b].0));
            }
            if listed {
                assert(assoc_has(old_iv, pk));
            } else {
                // the key cannot have been stored: a stored key is listed in
                // some family, whose prefix would equal this family's, so it
                // would be this family's list, which does not hold it
                if assoc_has(old_iv, pk) {
                    lemma_assoc_has_exists(old_iv, pk);
                    let ee = choose|ee: int| 0 <= ee < old_iv.len() && (#[trigger] old_iv[ee]).0 == pk;
                    assert(old_iv[ee].0 == pk);
                    assert(listed_somewhere(old_cv, old_iv[ee].0));
                    let (d, i) = choose|d: int, i: int|
                        0 <= d < old_cv.len() && 0 <= i < old_cv[d].1.len()
                            && #[trigger] old_cv[d].1[i] == (old_iv[ee]).0;
                    assert(old_cv[d].1[i] == pk);
                    assert(cf_key_of(old_cv[d].0) == pk.subrange(0, 8));
                    if c < old_cv.len() {
                        if d != c {
                            assert(cv[d].0 == old_cv[d].0 && cv[c].0 == old_cv[c].0);
                            assert(false);
                        }
                        assert(old_cv[c].1.contains(pk));
                        assert(false);
                    } else {
                        assert(cv[d].0 == old_cv[d].0);
                        assert(cv[c].0 == name);
                        assert(cf_key_of(old_cv[d].0) != cf_key_of(name));
                        assert(false);
                    }
                }
                if c < old_cv.len() {
                    lemma_sum_assoc_update(old_cv, name, old_cv[c].1.push(pk));
                } else {
                    lemma_sum_push(old_cv, (name, seq![pk]));
                }
            }
        }
    }
}

impl Default for PebbleDB {
    /// An empty backend with the default relative persistence path.
    fn default() -> (r: PebbleDB)
        ensures
            r.wf(),
            r.inner_view() =~= Seq::<(Seq<u8>, Seq<u8>)>::empty(),
            r.cfs_view() =~= Seq::<(Seq<u8>, Seq<Seq<u8>>)>::empty(),
    {
        PebbleDB::new(".pebbledb/versatus.pb".to_owned())
    }
}

/// Every prefixed key begins with exactly one registered column prefix, and
/// the families' key counts sum to the backend's total entry count —
/// provided the registered names' 8-byte prefixes do not collide.
pub proof fn lemma_column_prefix_partition(db: PebbleDB)
    requires
        db.wf(),
        db.distinct_prefixes(),
    ensures
        sum_lens(db.cfs_view()) == db.inner_view().len(),
        forall|c: int, i: int, d: int|
            #![trigger db.cfs_view()[c].1[i], db.cfs_view()[d]]
            0 <= c < db.cfs_view().len() && 0 <= i < db.cfs_view()[c].1.len() && 0 <= d
                < db.cfs_view().len() && d != c ==> db.cfs_view()[c].1[i].subrange(0, 8)
                != cf_key_of(db.cfs_view()[d].0),
{
    let cv = db.cfs_view();
    assert forall|c: int, i: int, d: int|
        #![trigger cv[c].1[i], cv[d]]
        0 <= c < cv.len() && 0 <= i < cv[c].1.len() && 0 <= d < cv.len() && d
            != c implies cv[c].1[i].subrange(0, 8) != cf_key_of(cv[d].0) by {
        assert(cv[c].1[i].subrange(0, 8) == cf_key_of(cv[c].0));
        if d < c {
            assert(cf_key_of(cv[d].0) != cf_key_of(cv[c].0));
        } else {
            assert(cf_key_of(cv[c].0) != cf_key_of(cv[d].0));
        }
    }
}

} // verus!
