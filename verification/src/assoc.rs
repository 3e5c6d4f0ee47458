//! Specification helpers for association sequences: ordered sequences of
//! (byte-string key, value) pairs with unique keys. Both the in-memory
//! backend's storage map and the tree's value history are modelled this way.

use vstd::prelude::*;

verus! {

/// Whether some entry has the given key.
pub open spec fn assoc_has<T>(s: Seq<(Seq<u8>, T)>, k: Seq<u8>) -> bool
    decreases s.len(),
{
    if s.len() == 0 {
        false
    } else if s[0].0 == k {
        true
    } else {
        assoc_has(s.drop_first(), k)
    }
}

/// The value of the first entry with the given key.
pub open spec fn assoc_get<T>(s: Seq<(Seq<u8>, T)>, k: Seq<u8>) -> Option<T>
    decreases s.len(),
{
    if s.len() == 0 {
        None
    } else if s[0].0 == k {
        Some(s[0].1)
    } else {
        assoc_get(s.drop_first(), k)
    }
}

/// Replace the value of the first entry with the given key, keeping its
/// place in the order; append a new entry when the key is absent.
pub open spec fn assoc_update<T>(s: Seq<(Seq<u8>, T)>, k: Seq<u8>, v: T) -> Seq<(Seq<u8>, T)>
    decreases s.len(),
{
    if s.len() == 0 {
        seq![(k, v)]
    } else if s[0].0 == k {
        seq![(k, v)] + s.drop_first()
    } else {
        seq![s[0]] + assoc_update(s.drop_first(), k, v)
    }
}

/// All keys distinct.
pub open spec fn unique_keys<T>(s: Seq<(Seq<u8>, T)>) -> bool {
    forall|i: int, j: int| 0 <= i < j < s.len() ==> s[i].0 != s[j].0
}

/// A key is present exactly when some entry carries it.
pub proof fn lemma_assoc_has_exists<T>(s: Seq<(Seq<u8>, T)>, k: Seq<u8>)
    ensures
        assoc_has(s, k) <==> exists|i: int| 0 <= i < s.len() && s[i].0 == k,
    decreases s.len(),
{
    if s.len() > 0 {
        lemma_assoc_has_exists(s.drop_first(), k);
        if s[0].0 == k {
            assert(s[0].0 == k && 0 <= 0 < s.len());
        } else {
            if exists|i: int| 0 <= i < s.drop_first().len() && s.drop_first()[i].0 == k {
                let i = choose|i: int| 0 <= i < s.drop_first().len() && s.drop_first()[i].0 == k;
                assert(s[i + 1].0 == k);
            }
            if exists|i: int| 0 <= i < s.len() && s[i].0 == k {
                let i = choose|i: int| 0 <= i < s.len() && s[i].0 == k;
                assert(s.drop_first()[i - 1].0 == k);
            }
        }
    }
}

/// `assoc_get` returns a value exactly when the key is present.
pub proof fn lemma_assoc_get_has<T>(s: Seq<(Seq<u8>, T)>, k: Seq<u8>)
    ensures
        assoc_get(s, k) is Some <==> assoc_has(s, k),
    decreases s.len(),
{
    if s.len() > 0 && s[0].0 != k {
        lemma_assoc_get_has(s.drop_first(), k);
    }
}

/// At an entry holding the key, `assoc_get` returns that entry's value,
/// provided keys are unique.
pub proof fn lemma_assoc_get_at<T>(s: Seq<(Seq<u8>, T)>, i: int)
    requires
        unique_keys(s),
        0 <= i < s.len(),
    ensures
        assoc_get(s, s[i].0) == Some(s[i].1),
    decreases s.len(),
{
    if i > 0 {
        assert(s[0].0 != s[i].0);
        assert(s.drop_first()[i - 1] == s[i]);
        assert(unique_keys(s.drop_first())) by {
            assert(forall|a: int, b: int|
                0 <= a < b < s.drop_first().len() ==> s.drop_first()[a].0 == s[a + 1].0
                    && s.drop_first()[b].0 == s[b + 1].0);
        }
        lemma_assoc_get_at(s.drop_first(), i - 1);
    }
}

/// At the first entry holding the key, `assoc_get` returns that entry's
/// value.
pub proof fn lemma_assoc_get_first<T>(s: Seq<(Seq<u8>, T)>, i: int)
    requires
        0 <= i < s.len(),
        forall|j: int| 0 <= j < i ==> (#[trigger] s[j]).0 != s[i].0,
    ensures
        assoc_get(s, s[i].0) == Some(s[i].1),
    decreases s.len(),
{
    if i > 0 {
        assert(s[0].0 != s[i].0);
        assert(s.drop_first()[i - 1] == s[i]);
        assert(forall|j: int|
            0 <= j < i - 1 ==> (#[trigger] s.drop_first()[j]).0 == s[j + 1].0);
        lemma_assoc_get_first(s.drop_first(), i - 1);
    }
}

/// When no entry holds the key, `assoc_get` returns nothing.
pub proof fn lemma_assoc_get_none<T>(s: Seq<(Seq<u8>, T)>, k: Seq<u8>)
    requires
        forall|i: int| 0 <= i < s.len() ==> s[i].0 != k,
    ensures
        assoc_get(s, k) is None,
    decreases s.len(),
{
    if s.len() > 0 {
        assert(forall|i: int| 0 <= i < s.drop_first().len() ==> s.drop_first()[i].0 == s[i + 1].0);
        lemma_assoc_get_none(s.drop_first(), k);
    }
}

/// A push never changes the read of a key that already resolves.
pub proof fn lemma_assoc_push_preserves<T>(s: Seq<(Seq<u8>, T)>, x: (Seq<u8>, T), k: Seq<u8>)
    requires
        assoc_get(s, k) is Some,
    ensures
        assoc_get(s.push(x), k) == assoc_get(s, k),
    decreases s.len(),
{
    if s.len() > 0 {
        assert(s.push(x)[0] == s[0]);
        assert(s.push(x).drop_first() =~= s.drop_first().push(x));
        if s[0].0 != k {
            lemma_assoc_push_preserves(s.drop_first(), x, k);
        }
    }
}

/// When every entry under the key carries the same value and one exists,
/// the key reads that value.
pub proof fn lemma_assoc_get_uniform<T>(s: Seq<(Seq<u8>, T)>, k: Seq<u8>, v: T)
    requires
        exists|q: int| 0 <= q < s.len() && (#[trigger] s[q]).0 == k,
        forall|q: int| 0 <= q < s.len() && (#[trigger] s[q]).0 == k ==> s[q].1 == v,
    ensures
        assoc_get(s, k) == Some(v),
    decreases s.len(),
{
    if s[0].0 == k {
    } else {
        let q = choose|q: int| 0 <= q < s.len() && (#[trigger] s[q]).0 == k;
        assert(s.drop_first()[q - 1] == s[q]);
        assert(forall|p: int|
            0 <= p < s.drop_first().len() ==> (#[trigger] s.drop_first()[p]) == s[p + 1]);
        lemma_assoc_get_uniform(s.drop_first(), k, v);
    }
}

/// Shape of an update: same length when the key was present, one longer
/// when it was appended; reads of other keys are unchanged, the read of the
/// updated key gives the new value; uniqueness of keys is kept.
pub proof fn lemma_assoc_update<T>(s: Seq<(Seq<u8>, T)>, k: Seq<u8>, v: T)
    requires
        unique_keys(s),
    ensures
        unique_keys(assoc_update(s, k, v)),
        assoc_get(assoc_update(s, k, v), k) == Some(v),
        forall|k2: Seq<u8>| k2 != k ==> assoc_get(assoc_update(s, k, v), k2) == assoc_get(s, k2),
        assoc_has(s, k) ==> assoc_update(s, k, v).len() == s.len(),
        !assoc_has(s, k) ==> assoc_update(s, k, v).len() == s.len() + 1,
        forall|i: int| 0 <= i < s.len() ==> #[trigger] assoc_update(s, k, v)[i].0 == s[i].0,
        forall|i: int|
            0 <= i < s.len() && s[i].0 != k ==> #[trigger] assoc_update(s, k, v)[i] == s[i],
        forall|i: int| 0 <= i < s.len() && s[i].0 == k ==> #[trigger] assoc_update(s, k, v)[i] == (
        k,
        v,
        ),
        assoc_update(s, k, v).len() >= s.len(),
        !assoc_has(s, k) ==> assoc_update(s, k, v)[s.len() as int] == (k, v),
    decreases s.len(),
{
    lemma_assoc_has_exists(s, k);
    let t = assoc_update(s, k, v);
    if s.len() == 0 {
        assert(t =~= seq![(k, v)]);
        assert forall|k2: Seq<u8>| k2 != k implies assoc_get(t, k2) == assoc_get(s, k2) by {
            assert(assoc_get(t, k2) == assoc_get(t.drop_first(), k2));
            assert(t.drop_first() =~= Seq::<(Seq<u8>, T)>::empty());
            assert(assoc_get(t.drop_first(), k2) is None);
        }
    } else if s[0].0 == k {
        assert(t == seq![(k, v)] + s.drop_first());
        assert(forall|i: int| 0 <= i < t.len() ==> t[i] == if i == 0 { (k, v) } else { s[i] });
        assert forall|k2: Seq<u8>| k2 != k implies assoc_get(t, k2) == assoc_get(s, k2) by {
            assert(t.drop_first() =~= s.drop_first());
            assert(assoc_get(t, k2) == assoc_get(t.drop_first(), k2));
            assert(assoc_get(s, k2) == assoc_get(s.drop_first(), k2));
        }
        assert(assoc_get(t, k) == Some(v));
    } else {
        assert(unique_keys(s.drop_first())) by {
            assert(forall|a: int, b: int|
                0 <= a < b < s.drop_first().len() ==> s.drop_first()[a].0 == s[a + 1].0
                    && s.drop_first()[b].0 == s[b + 1].0);
        }
        lemma_assoc_update(s.drop_first(), k, v);
        let t2 = assoc_update(s.drop_first(), k, v);
        assert(t == seq![s[0]] + t2);
        assert(t.drop_first() =~= t2);
        assert(t[0] == s[0]);
        lemma_assoc_has_exists(s.drop_first(), k);
        assert forall|k2: Seq<u8>| k2 != k implies assoc_get(t, k2) == assoc_get(s, k2) by {
            assert(assoc_get(t, k2) == if t[0].0 == k2 {
                Some(t[0].1)
            } else {
                assoc_get(t.drop_first(), k2)
            });
            assert(assoc_get(s, k2) == if s[0].0 == k2 {
                Some(s[0].1)
            } else {
                assoc_get(s.drop_first(), k2)
            });
        }
        assert(assoc_get(t, k) == assoc_get(t.drop_first(), k));
        // the head key stays distinct from every key of the updated tail
        assert forall|i: int, j: int| 0 <= i < j < t.len() implies t[i].0 != t[j].0 by {
            if i == 0 {
                if j - 1 < s.drop_first().len() {
                    assert(t2[j - 1].0 == s.drop_first()[j - 1].0);
                    assert(s[0].0 != s[j].0);
                } else {
                    assert(t2[j - 1] == (k, v));
                }
            } else {
                assert(t2[i - 1].0 != t2[j - 1].0);
            }
        }
    }
}

/// An update of a key found at index `i` is a point update of the sequence.
pub proof fn lemma_assoc_update_at_index<T>(s: Seq<(Seq<u8>, T)>, i: int, v: T)
    requires
        unique_keys(s),
        0 <= i < s.len(),
    ensures
        assoc_update(s, s[i].0, v) =~= s.update(i, (s[i].0, v)),
{
    lemma_assoc_update(s, s[i].0, v);
    lemma_assoc_has_exists(s, s[i].0);
    assert forall|j: int| 0 <= j < s.len() && j != i implies s[j].0 != s[i].0 by {}
}

/// An update of a key first found at index `i` is a point update there.
pub proof fn lemma_assoc_update_at_first<T>(s: Seq<(Seq<u8>, T)>, i: int, v: T)
    requires
        0 <= i < s.len(),
        forall|j: int| 0 <= j < i ==> (#[trigger] s[j]).0 != s[i].0,
    ensures
        assoc_update(s, s[i].0, v) =~= s.update(i, (s[i].0, v)),
    decreases s.len(),
{
    if i == 0 {
        assert(assoc_update(s, s[0].0, v) == seq![(s[0].0, v)] + s.drop_first());
    } else {
        assert(s[0].0 != s[i].0);
        assert(s.drop_first()[i - 1] == s[i]);
        assert(forall|j: int|
            0 <= j < i - 1 ==> (#[trigger] s.drop_first()[j]).0 == s[j + 1].0);
        lemma_assoc_update_at_first(s.drop_first(), i - 1, v);
        assert(assoc_update(s, s[i].0, v) == seq![s[0]] + assoc_update(s.drop_first(), s[i].0, v));
    }
}

/// An update of an absent key appends the new entry.
pub proof fn lemma_assoc_update_append<T>(s: Seq<(Seq<u8>, T)>, k: Seq<u8>, v: T)
    requires
        unique_keys(s),
        !assoc_has(s, k),
    ensures
        assoc_update(s, k, v) =~= s.push((k, v)),
{
    lemma_assoc_update(s, k, v);
    lemma_assoc_has_exists(s, k);
}

/// Lexicographic order on byte strings: a strict total order.
pub open spec fn lex_lt(a: Seq<u8>, b: Seq<u8>) -> bool
    decreases a.len(),
{
    if b.len() == 0 {
        false
    } else if a.len() == 0 {
        true
    } else if a[0] < b[0] {
        true
    } else if a[0] > b[0] {
        false
    } else {
        lex_lt(a.drop_first(), b.drop_first())
    }
}

/// The order is total: two byte strings are equal or one is below the
/// other.
pub proof fn lemma_lex_total(a: Seq<u8>, b: Seq<u8>)
    ensures
        a == b || lex_lt(a, b) || lex_lt(b, a),
    decreases a.len(),
{
    if a.len() > 0 && b.len() > 0 && a[0] == b[0] {
        lemma_lex_total(a.drop_first(), b.drop_first());
        if a.drop_first() == b.drop_first() {
            assert(forall|q: int| 1 <= q < a.len() ==> a[q] == a.drop_first()[q - 1]);
            assert(forall|q: int| 1 <= q < b.len() ==> b[q] == b.drop_first()[q - 1]);
            assert(a =~= b);
        }
    } else if a.len() == 0 && b.len() == 0 {
        assert(a =~= b);
    }
}

/// The order is transitive.
pub proof fn lemma_lex_trans(a: Seq<u8>, b: Seq<u8>, c: Seq<u8>)
    requires
        lex_lt(a, b),
        lex_lt(b, c),
    ensures
        lex_lt(a, c),
    decreases a.len(),
{
    if a.len() > 0 && b.len() > 0 && c.len() > 0 && a[0] == b[0] && b[0] == c[0] {
        lemma_lex_trans(a.drop_first(), b.drop_first(), c.drop_first());
    }
}

/// The order is irreflexive.
pub proof fn lemma_lex_irrefl(a: Seq<u8>)
    ensures
        !lex_lt(a, a),
    decreases a.len(),
{
    if a.len() > 0 {
        lemma_lex_irrefl(a.drop_first());
    }
}

/// Compare two byte vectors in lexicographic order.
pub fn bytes_lt(a: &Vec<u8>, b: &Vec<u8>) -> (r: bool)
    ensures
        r == lex_lt(a@, b@),
{
    let mut i: usize = 0;
    proof {
        assert(a@.skip(0) =~= a@);
        assert(b@.skip(0) =~= b@);
    }
    while i < a.len() && i < b.len()
        invariant
            i <= a@.len(),
            i <= b@.len(),
            lex_lt(a@, b@) == lex_lt(a@.skip(i as int), b@.skip(i as int)),
            forall|q: int| 0 <= q < i ==> a@[q] == b@[q],
        decreases a@.len() - i,
    {
        proof {
            assert(a@.skip(i as int).drop_first() =~= a@.skip(i + 1));
            assert(b@.skip(i as int).drop_first() =~= b@.skip(i + 1));
        }
        if a[i] < b[i] {
            proof {
                assert(lex_lt(a@.skip(i as int), b@.skip(i as int)));
            }
            return true;
        }
        if a[i] > b[i] {
            proof {
                assert(!lex_lt(a@.skip(i as int), b@.skip(i as int)));
            }
            return false;
        }
        i = i + 1;
    }
    proof {
        if i == a@.len() {
            assert(a@.skip(i as int) =~= Seq::<u8>::empty());
        }
        if i == b@.len() {
            assert(b@.skip(i as int) =~= Seq::<u8>::empty());
        }
    }
    a.len() < b.len()
}

/// An update of a key held by no entry appends the new entry.
pub proof fn lemma_assoc_update_absent<T>(s: Seq<(Seq<u8>, T)>, k: Seq<u8>, v: T)
    requires
        forall|j: int| 0 <= j < s.len() ==> (#[trigger] s[j]).0 != k,
    ensures
        assoc_update(s, k, v) =~= s.push((k, v)),
    decreases s.len(),
{
    if s.len() == 0 {
        assert(assoc_update(s, k, v) == seq![(k, v)]);
    } else {
        assert(forall|j: int|
            0 <= j < s.drop_first().len() ==> (#[trigger] s.drop_first()[j]).0 == s[j + 1].0);
        lemma_assoc_update_absent(s.drop_first(), k, v);
        assert(assoc_update(s, k, v) == seq![s[0]] + assoc_update(s.drop_first(), k, v));
    }
}

/// Compare two byte vectors for equality of their views.
pub fn bytes_eq(a: &Vec<u8>, b: &Vec<u8>) -> (r: bool)
    ensures
        r == (a@ == b@),
{
    let r = a == b;
    proof {
        if r {
            assert(a@ =~= b@);
        } else {
            assert(!(a@ =~= b@));
        }
    }
    r
}

/// Copy a byte vector.
pub fn bytes_clone(a: &Vec<u8>) -> (r: Vec<u8>)
    ensures
        r@ == a@,
{
    let r = a.clone();
    proof {
        assert(r@ =~= a@);
    }
    r
}

/// Concatenate two byte vectors into a fresh one.
pub fn bytes_concat(a: &Vec<u8>, b: &Vec<u8>) -> (r: Vec<u8>)
    ensures
        r@ == a@ + b@,
{
    let mut r = bytes_clone(a);
    r.extend_from_slice(b.as_slice());
    proof {
        assert(r@ =~= a@ + b@);
    }
    r
}

} // verus!
