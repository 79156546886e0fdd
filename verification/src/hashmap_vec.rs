//! A map from keys to series of values, where all series are kept at
//! one common length.
//!
//! Each entry holds one key and its series.  Every mutation that
//! appends a value for one key pads every other series with the
//! padding value of the value type, so all series always share the
//! same length: the number of steps taken so far.

use crate::traits::SeriesKey;
use crate::traits::PadDefault;
use vstd::prelude::*;

verus! {

/// True when no two positions of `s` hold the same key.
pub open spec fn distinct_keys<K, T>(s: Seq<(K, T)>) -> bool {
    forall|i: int, j: int| 0 <= i < j < s.len() ==> s[i].0 != s[j].0
}

/// True when some position of `s` holds the key `k`.
pub open spec fn seq_has_key<K, T>(s: Seq<(K, T)>, k: K) -> bool {
    exists|i: int| 0 <= i < s.len() && s[i].0 == k
}

/// The position of `s` that holds the key `k`.
pub open spec fn seq_key_at<K, T>(s: Seq<(K, T)>, k: K) -> int {
    choose|i: int| 0 <= i < s.len() && s[i].0 == k
}

/// The value that `s` pairs with the key `k`.
pub open spec fn key_value<K, T>(s: Seq<(K, T)>, k: K) -> T {
    s[seq_key_at(s, k)].1
}

/// The map that a sequence of entries stands for.
pub open spec fn seq_view<K, V>(s: Seq<(K, Vec<V>)>) -> Map<K, Seq<V>> {
    Map::new(|k: K| seq_has_key(s, k), |k: K| s[seq_key_at(s, k)].1@)
}

/// A series of `n` padding values.
pub open spec fn pad_seq<V: PadDefault>(n: nat) -> Seq<V> {
    Seq::new(n, |i: int| V::pad_default())
}

/// The series that a brand-new key receives at step `n`: `n` padding
/// values, then the one real value at the end.
pub proof fn lemma_catch_up_series<V: PadDefault>(n: nat, value: V)
    ensures
        pad_seq::<V>(n).push(value).len() == n + 1,
        forall|i: int| 0 <= i < n ==> pad_seq::<V>(n).push(value)[i] == V::pad_default(),
        pad_seq::<V>(n).push(value)[n as int] == value,
{
}

/// The chosen position for a present key is in range and holds the key.
proof fn lemma_key_at_valid<K, T>(s: Seq<(K, T)>, k: K)
    requires
        seq_has_key(s, k),
    ensures
        0 <= seq_key_at(s, k) < s.len(),
        s[seq_key_at(s, k)].0 == k,
{
}

/// An element that a sequence contains has a valid position.
proof fn lemma_contains_at<A>(s: Seq<A>, x: A)
    requires
        s.contains(x),
    ensures
        0 <= s.index_of(x) < s.len(),
        s[s.index_of(x)] == x,
{
}

/// With distinct keys, position `i` is the position chosen for its key.
proof fn lemma_key_index<K, T>(s: Seq<(K, T)>, i: int)
    requires
        distinct_keys(s),
        0 <= i < s.len(),
    ensures
        seq_has_key(s, s[i].0),
        seq_key_at(s, s[i].0) == i,
        key_value(s, s[i].0) == s[i].1,
{
    assert(seq_has_key(s, s[i].0));
    lemma_key_at_valid(s, s[i].0);
}

/// With distinct keys, the map reads position `i` at that key.
proof fn lemma_view_at<K, V>(s: Seq<(K, Vec<V>)>, i: int)
    requires
        distinct_keys(s),
        0 <= i < s.len(),
    ensures
        seq_has_key(s, s[i].0),
        seq_key_at(s, s[i].0) == i,
        seq_view(s).contains_key(s[i].0),
        seq_view(s)[s[i].0] == s[i].1@,
{
    lemma_key_index(s, i);
}

/// Appending an entry with a fresh key adds that key to the map.
proof fn lemma_view_push<K, V>(s: Seq<(K, Vec<V>)>, k: K, v: Vec<V>)
    requires
        distinct_keys(s),
        !seq_has_key(s, k),
    ensures
        distinct_keys(s.push((k, v))),
        seq_view(s.push((k, v))) == seq_view(s).insert(k, v@),
{
    let s2 = s.push((k, v));
    assert forall|k2: K| #[trigger] seq_has_key(s2, k2) implies seq_has_key(s, k2) || k2 == k by {
        let i = seq_key_at(s2, k2);
        lemma_key_at_valid(s2, k2);
        if i < s.len() {
            assert(s[i].0 == k2);
        }
    }
    assert forall|k2: K| seq_has_key(s, k2) implies #[trigger] seq_has_key(s2, k2) by {
        let i = seq_key_at(s, k2);
        lemma_key_at_valid(s, k2);
        assert(s2[i].0 == k2);
    }
    assert(seq_has_key(s2, k)) by {
        assert(s2[s.len() as int].0 == k);
    }
    assert forall|k2: K| #[trigger] seq_has_key(s, k2) implies seq_view(s2)[k2] == seq_view(s)[k2] by {
        let i = seq_key_at(s, k2);
        lemma_key_at_valid(s, k2);
        assert(s2[i].0 == k2);
        lemma_view_at(s2, i);
    }
    assert(seq_view(s2)[k] == v@) by {
        lemma_view_at(s2, s.len() as int);
    }
    assert(seq_view(s2) =~= seq_view(s).insert(k, v@));
}

/// Removing the entry at one position removes that key from the map.
proof fn lemma_view_remove<K, V>(s: Seq<(K, Vec<V>)>, i: int)
    requires
        distinct_keys(s),
        0 <= i < s.len(),
    ensures
        distinct_keys(s.remove(i)),
        seq_view(s.remove(i)) == seq_view(s).remove(s[i].0),
{
    let s2 = s.remove(i);
    assert(forall|j: int| 0 <= j < i ==> s2[j] == s[j]);
    assert(forall|j: int| i <= j < s2.len() ==> s2[j] == s[j + 1]);
    assert forall|k2: K| #[trigger] seq_has_key(s2, k2) implies seq_has_key(s, k2) && k2
        != s[i].0 by {
        let j = seq_key_at(s2, k2);
        lemma_key_at_valid(s2, k2);
        if j < i {
            assert(s[j].0 == k2);
        } else {
            assert(s[j + 1].0 == k2);
        }
    }
    assert forall|k2: K| #[trigger] seq_has_key(s, k2) && k2 != s[i].0 implies seq_has_key(
        s2,
        k2,
    ) by {
        let j = seq_key_at(s, k2);
        lemma_key_at_valid(s, k2);
        assert(j != i);
        if j < i {
            assert(s2[j].0 == k2);
        } else {
            assert(s2[j - 1].0 == k2);
        }
    }
    assert forall|k2: K| #[trigger] seq_has_key(s2, k2) implies seq_view(s2)[k2]
        == seq_view(s)[k2] by {
        let j = seq_key_at(s2, k2);
        lemma_key_at_valid(s2, k2);
        lemma_view_at(s2, j);
        if j < i {
            lemma_view_at(s, j);
        } else {
            lemma_view_at(s, j + 1);
        }
    }
    assert(seq_view(s2) =~= seq_view(s).remove(s[i].0));
}

/// The position of `key` among the pairs of `s`, if present.
fn find_key<K: SeriesKey, T>(s: &Vec<(K, T)>, key: &K) -> (r: Option<usize>)
    ensures
        match r {
            Some(i) => i < s@.len() && s@[i as int].0 == *key,
            None => !seq_has_key(s@, *key),
        },
{
    let n = s.len();
    for i in 0..n
        invariant
            n == s@.len(),
            forall|j: int| 0 <= j < i ==> s@[j].0 != *key,
    {
        if s[i].0.key_eq(key) {
            return Some(i);
        }
    }
    None
}

/// Relies on Vec::capacity: a vector holds at least as many slots as
/// it has elements.
#[verifier::external_body]
fn vec_capacity<T>(v: &Vec<T>) -> (r: usize)
    ensures
        r >= v@.len(),
{
    v.capacity()
}

/// Relies on Vec::shrink_to_fit: it only drops spare capacity and
/// leaves the contents as they are.
#[verifier::external_body]
fn vec_shrink_to_fit<T>(v: &mut Vec<T>)
    ensures
        final(v)@ == old(v)@,
{
    v.shrink_to_fit()
}

/// A map from keys to series, padded so that all series share one
/// common length after every operation.
pub struct HashMapVec<K, V> {
    entries: Vec<(K, Vec<V>)>,
}

impl<K, V> View for HashMapVec<K, V> {
    type V = Map<K, Seq<V>>;

    closed spec fn view(&self) -> Map<K, Seq<V>> {
        seq_view(self.entries@)
    }
}

impl<K: SeriesKey, V: PadDefault> HashMapVec<K, V> {
    /// The common length of all series: the number of steps taken.
    pub closed spec fn steps(&self) -> nat {
        if self.entries@.len() == 0 {
            0
        } else {
            self.entries@[0].1@.len()
        }
    }

    /// Well-formedness: keys occur once and all series have the
    /// common length.
    pub closed spec fn wf(&self) -> bool {
        &&& distinct_keys(self.entries@)
        &&& forall|i: int|
            0 <= i < self.entries@.len() ==> self.entries@[i].1@.len() == self.steps()
    }

    /// Every key present in a well-formed map holds a series of the
    /// common length.
    pub proof fn lemma_length_sync(&self)
        requires
            self.wf(),
        ensures
            forall|k: K| self@.contains_key(k) ==> (#[trigger] self@[k]).len() == self.steps(),
    {
        assert forall|k: K| self@.contains_key(k) implies (#[trigger] self@[k]).len()
            == self.steps() by {
            lemma_key_at_valid(self.entries@, k);
        }
    }

    /// Creates an empty map.
    pub fn new() -> (r: Self)
        ensures
            r.wf(),
            r@ == Map::<K, Seq<V>>::empty(),
            r.steps() == 0,
    {
        let r = HashMapVec { entries: Vec::new() };
        proof {
            assert(r@ =~= Map::<K, Seq<V>>::empty());
        }
        r
    }

    /// Creates an empty map, pre-sized for `capacity` keys.  The size
    /// is a hint only; the result is observably the same as `new()`.
    pub fn with_capacity(capacity: usize) -> (r: Self)
        ensures
            r.wf(),
            r@ == Map::<K, Seq<V>>::empty(),
            r.steps() == 0,
    {
        let r = HashMapVec { entries: Vec::with_capacity(capacity) };
        proof {
            assert(r@ =~= Map::<K, Seq<V>>::empty());
        }
        r
    }

    /// The keys of a well-formed map are as many as its entries.
    proof fn lemma_dom_card(&self)
        requires
            self.wf(),
        ensures
            self@.dom().finite(),
            self@.dom().len() == self.entries@.len(),
    {
        broadcast use vstd::seq_lib::seq_to_set_is_finite;

        let keys = self.entries@.map_values(|p: (K, Vec<V>)| p.0);
        assert(keys.no_duplicates());
        assert forall|k: K| #[trigger] keys.to_set().contains(k) implies self@.dom().contains(
            k,
        ) by {
            let i = choose|i: int| 0 <= i < keys.len() && keys[i] == k;
            assert(self.entries@[i].0 == k);
        }
        assert forall|k: K| self@.dom().contains(k) implies #[trigger] keys.to_set().contains(
            k,
        ) by {
            let i = seq_key_at(self.entries@, k);
            lemma_key_at_valid(self.entries@, k);
            assert(keys[i] == k);
        }
        assert(self@.dom() =~= keys.to_set());
        keys.unique_seq_to_set();
    }

    /// The number of keys present.
    pub fn len(&self) -> (r: usize)
        requires
            self.wf(),
        ensures
            r == self@.dom().len(),
    {
        proof {
            self.lemma_dom_card();
        }
        self.entries.len()
    }

    /// The common length of all series; 0 when no key is present.
    pub fn nb_elements(&self) -> (r: usize)
        requires
            self.wf(),
        ensures
            r == self.steps(),
            forall|k: K| self@.contains_key(k) ==> (#[trigger] self@[k]).len() == r,
    {
        proof {
            self.lemma_length_sync();
        }
        if self.entries.len() == 0 {
            0
        } else {
            let pair: &(K, Vec<V>) = &self.entries[0];
            pair.1.len()
        }
    }

    /// True when no key is present.  An empty map has taken no step.
    pub fn is_empty(&self) -> (r: bool)
        requires
            self.wf(),
        ensures
            r <==> self@.dom().len() == 0,
            r ==> self@ == Map::<K, Seq<V>>::empty(),
            r ==> self.steps() == 0,
    {
        proof {
            self.lemma_dom_card();
            if self.entries@.len() == 0 {
                assert(self@ =~= Map::<K, Seq<V>>::empty());
            }
        }
        self.entries.len() == 0
    }

    /// A vector of `n` padding values.
    fn padding_vec(n: usize) -> (r: Vec<V>)
        ensures
            r@ == pad_seq::<V>(n as nat),
    {
        let mut r: Vec<V> = Vec::new();
        let mut c: usize = 0;
        while c < n
            invariant
                c <= n,
                r@ == pad_seq::<V>(c as nat),
            decreases n - c,
        {
            r.push(V::default_value());
            proof {
                assert(r@ =~= pad_seq::<V>((c + 1) as nat));
            }
            c += 1;
        }
        r
    }

    /// Splits keys as the bulk merge needs them: the keys of `m` that
    /// the map does not hold yet, and the keys of the map that `m`
    /// does not name.
    fn key_partition(&self, m: &Vec<(K, V)>) -> (r: (Vec<K>, Vec<K>))
        requires
            self.wf(),
            distinct_keys(m@),
        ensures
            r.0@.no_duplicates(),
            forall|i: int|
                0 <= i < r.0@.len() ==> seq_has_key(m@, #[trigger] r.0@[i])
                    && !self@.contains_key(r.0@[i]),
            forall|k: K| seq_has_key(m@, k) && !self@.contains_key(k) ==> r.0@.contains(k),
            r.1@.no_duplicates(),
            forall|i: int|
                0 <= i < r.1@.len() ==> self@.contains_key(#[trigger] r.1@[i]) && !seq_has_key(
                    m@,
                    r.1@[i],
                ),
            forall|k: K| self@.contains_key(k) && !seq_has_key(m@, k) ==> r.1@.contains(k),
    {
        let mut new_keys: Vec<K> = Vec::new();
        let mlen = m.len();
        for t in 0..mlen
            invariant
                self.wf(),
                distinct_keys(m@),
                mlen == m@.len(),
                new_keys@.no_duplicates(),
                forall|i: int|
                    0 <= i < new_keys@.len() ==> !self@.contains_key(#[trigger] new_keys@[i]),
                forall|i: int|
                    0 <= i < new_keys@.len() ==> seq_has_key(
                        m@.subrange(0, t as int),
                        #[trigger] new_keys@[i],
                    ),
                forall|tt: int|
                    0 <= tt < t && !self@.contains_key((#[trigger] m@[tt]).0)
                        ==> new_keys@.contains(m@[tt].0),
        {
            let kref = &m[t].0;
            let ghost nk_old = new_keys@;
            let ghost sub0 = m@.subrange(0, t as int);
            let ghost sub1 = m@.subrange(0, t + 1);
            let found = find_key(&self.entries, kref);
            if found.is_none() {
                proof {
                    assert(!nk_old.contains(m@[t as int].0)) by {
                        if nk_old.contains(m@[t as int].0) {
                            lemma_contains_at(nk_old, m@[t as int].0);
                            let i = nk_old.index_of(m@[t as int].0);
                            lemma_key_at_valid(sub0, nk_old[i]);
                            let tt = seq_key_at(sub0, nk_old[i]);
                            assert(sub0[tt] == m@[tt]);
                            assert(m@[tt].0 == m@[t as int].0);
                        }
                    }
                }
                let dup = kref.key_dup();
                new_keys.push(dup);
                proof {
                    assert(new_keys@.no_duplicates()) by {
                        assert forall|i: int, j: int|
                            0 <= i < new_keys@.len() && 0 <= j < new_keys@.len() && i != j implies
                            new_keys@[i] != new_keys@[j] by {
                            if i < nk_old.len() && j < nk_old.len() {
                                assert(nk_old[i] != nk_old[j]);
                            }
                        }
                    }
                }
            }
            proof {
                if found.is_some() {
                    assert(self.entries@[found.unwrap() as int].0 == m@[t as int].0);
                    assert(seq_has_key(self.entries@, m@[t as int].0));
                }
                assert forall|i: int| 0 <= i < new_keys@.len() implies seq_has_key(
                    sub1,
                    #[trigger] new_keys@[i],
                ) by {
                    if i < nk_old.len() {
                        lemma_key_at_valid(sub0, nk_old[i]);
                        let tt = seq_key_at(sub0, nk_old[i]);
                        assert(sub1[tt] == m@[tt]);
                        assert(sub1[tt].0 == new_keys@[i]);
                    } else {
                        assert(new_keys@[i] == m@[t as int].0);
                        assert(sub1[t as int].0 == new_keys@[i]);
                    }
                }
                assert forall|tt: int|
                    0 <= tt < t + 1 && !self@.contains_key((#[trigger] m@[tt]).0) implies
                    new_keys@.contains(m@[tt].0) by {
                    if tt < t {
                        assert(nk_old.contains(m@[tt].0));
                        lemma_contains_at(nk_old, m@[tt].0);
                        let i = nk_old.index_of(m@[tt].0);
                        assert(new_keys@[i] == m@[tt].0);
                    } else {
                        assert(found.is_none());
                        assert(new_keys@[new_keys@.len() - 1] == m@[t as int].0);
                    }
                }
            }
        }
        proof {
            assert(m@.subrange(0, mlen as int) =~= m@);
        }
        let mut missing_keys: Vec<K> = Vec::new();
        let elen = self.entries.len();
        for e in 0..elen
            invariant
                self.wf(),
                distinct_keys(m@),
                elen == self.entries@.len(),
                missing_keys@.no_duplicates(),
                forall|i: int|
                    0 <= i < missing_keys@.len() ==> !seq_has_key(
                        m@,
                        #[trigger] missing_keys@[i],
                    ),
                forall|i: int|
                    0 <= i < missing_keys@.len() ==> seq_has_key(
                        self.entries@.subrange(0, e as int),
                        #[trigger] missing_keys@[i],
                    ),
                forall|ee: int|
                    0 <= ee < e && !seq_has_key(m@, (#[trigger] self.entries@[ee]).0)
                        ==> missing_keys@.contains(self.entries@[ee].0),
        {
            let pair: &(K, Vec<V>) = &self.entries[e];
            let kref = &pair.0;
            let ghost mk_old = missing_keys@;
            let ghost esub0 = self.entries@.subrange(0, e as int);
            let ghost esub1 = self.entries@.subrange(0, e + 1);
            let found = find_key(m, kref);
            if found.is_none() {
                proof {
                    assert(!mk_old.contains(self.entries@[e as int].0)) by {
                        if mk_old.contains(self.entries@[e as int].0) {
                            lemma_contains_at(mk_old, self.entries@[e as int].0);
                            let i = mk_old.index_of(self.entries@[e as int].0);
                            lemma_key_at_valid(esub0, mk_old[i]);
                            let ee = seq_key_at(esub0, mk_old[i]);
                            assert(esub0[ee] == self.entries@[ee]);
                            assert(self.entries@[ee].0 == self.entries@[e as int].0);
                        }
                    }
                }
                let dup = kref.key_dup();
                missing_keys.push(dup);
                proof {
                    assert(missing_keys@.no_duplicates()) by {
                        assert forall|i: int, j: int|
                            0 <= i < missing_keys@.len() && 0 <= j < missing_keys@.len() && i
                                != j implies missing_keys@[i] != missing_keys@[j] by {
                            if i < mk_old.len() && j < mk_old.len() {
                                assert(mk_old[i] != mk_old[j]);
                            }
                        }
                    }
                }
            }
            proof {
                if found.is_some() {
                    assert(m@[found.unwrap() as int].0 == self.entries@[e as int].0);
                    assert(seq_has_key(m@, self.entries@[e as int].0));
                }
                assert forall|i: int| 0 <= i < missing_keys@.len() implies seq_has_key(
                    esub1,
                    #[trigger] missing_keys@[i],
                ) by {
                    if i < mk_old.len() {
                        lemma_key_at_valid(esub0, mk_old[i]);
                        let ee = seq_key_at(esub0, mk_old[i]);
                        assert(esub1[ee] == self.entries@[ee]);
                        assert(esub1[ee].0 == missing_keys@[i]);
                    } else {
                        assert(missing_keys@[i] == self.entries@[e as int].0);
                        assert(esub1[e as int].0 == missing_keys@[i]);
                    }
                }
                assert forall|ee: int|
                    0 <= ee < e + 1 && !seq_has_key(m@, (#[trigger] self.entries@[ee]).0) implies
                    missing_keys@.contains(self.entries@[ee].0) by {
                    if ee < e {
                        assert(mk_old.contains(self.entries@[ee].0));
                        lemma_contains_at(mk_old, self.entries@[ee].0);
                        let i = mk_old.index_of(self.entries@[ee].0);
                        assert(missing_keys@[i] == self.entries@[ee].0);
                    } else {
                        assert(found.is_none());
                        assert(missing_keys@[missing_keys@.len() - 1]
                            == self.entries@[e as int].0);
                    }
                }
            }
        }
        proof {
            assert(self.entries@.subrange(0, elen as int) =~= self.entries@);
            assert forall|i: int| 0 <= i < missing_keys@.len() implies self@.contains_key(
                #[trigger] missing_keys@[i],
            ) by {
                lemma_key_at_valid(self.entries@, missing_keys@[i]);
            }
            assert forall|k: K| self@.contains_key(k) && !seq_has_key(m@, k) implies
                missing_keys@.contains(k) by {
                lemma_key_at_valid(self.entries@, k);
            }
        }
        (new_keys, missing_keys)
    }

    /// Merges one external assignment `m` as a single step: every key
    /// named in `m` gets its supplied value appended, every other key
    /// of the map gets one padding value, and a key of `m` not seen
    /// before is first caught up with one padding value per past step.
    /// The assignment stands for a map, so its keys must be distinct.
    #[verifier::loop_isolation(false)]
    pub fn add(&mut self, m: Vec<(K, V)>)
        requires
            old(self).wf(),
            distinct_keys(m@),
        ensures
            final(self).wf(),
            final(self).steps() == if m@.len() == 0 && old(self)@.dom().len() == 0 {
                0nat
            } else {
                (old(self).steps() + 1) as nat
            },
            forall|k: K| #[trigger] final(self)@.contains_key(k) <==> (old(self)@.contains_key(k)
                || seq_has_key(m@, k)),
            forall|t: int|
                0 <= t < m@.len() ==> final(self)@[(#[trigger] m@[t]).0] == (
                if old(self)@.contains_key(m@[t].0) {
                    old(self)@[m@[t].0]
                } else {
                    pad_seq::<V>(old(self).steps())
                }).push(m@[t].1),
            forall|k: K|
                #[trigger] old(self)@.contains_key(k) && !seq_has_key(m@, k) ==> final(self)@[k]
                    == old(self)@[k].push(V::pad_default()),
    {
        let ghost pre = *self;
        let ghost s0 = self.entries@;
        let ghost m0 = m@;
        let partition = self.key_partition(&m);
        let mut new_keys = partition.0;
        let missing_keys = partition.1;
        let ghost nk0 = new_keys@;
        let ghost mk0 = missing_keys@;
        let n = self.nb_elements();

        proof {
            assert(nk0.subrange(0, nk0.len() as int) =~= nk0);
        }
        // Catch-up entries for the keys not seen before.
        while new_keys.len() > 0
            invariant
                new_keys@.len() <= nk0.len(),
                new_keys@ == nk0.subrange(0, new_keys@.len() as int),
                self.entries@.len() == s0.len() + (nk0.len() - new_keys@.len()),
                forall|j: int| 0 <= j < s0.len() ==> self.entries@[j] == s0[j],
                forall|j: int|
                    s0.len() <= j < self.entries@.len()
                        ==> (#[trigger] self.entries@[j]).0 == nk0[s0.len() + nk0.len() - 1 - j]
                        && self.entries@[j].1@ == pad_seq::<V>(n as nat),
                distinct_keys(self.entries@),
            decreases new_keys@.len(),
        {
            let ghost ll = new_keys@.len() as int;
            let key = new_keys.pop().unwrap();
            proof {
                assert(new_keys@ =~= nk0.subrange(0, ll - 1));
                assert(key == nk0[ll - 1]);
                assert(!seq_has_key(self.entries@, key)) by {
                    if seq_has_key(self.entries@, key) {
                        lemma_key_at_valid(self.entries@, key);
                        let j = seq_key_at(self.entries@, key);
                        if j < s0.len() {
                            assert(s0[j].0 == key);
                            assert(seq_has_key(s0, key));
                            assert(!pre@.contains_key(nk0[ll - 1]));
                        } else {
                            assert(nk0[s0.len() + nk0.len() - 1 - j] == nk0[ll - 1]);
                        }
                    }
                }
            }
            let padding = Self::padding_vec(n);
            self.entries.push((key, padding));
        }
        let ghost s1 = self.entries@;
        proof {
            assert(s1.len() == s0.len() + nk0.len());
            assert forall|k: K|
                #[trigger] seq_has_key(s1, k) <==> (seq_has_key(s0, k) || nk0.contains(k)) by {
                if seq_has_key(s1, k) {
                    lemma_key_at_valid(s1, k);
                    let j = seq_key_at(s1, k);
                    if j < s0.len() {
                        assert(s0[j].0 == k);
                        assert(seq_has_key(s0, k));
                    } else {
                        assert(nk0[s0.len() + nk0.len() - 1 - j] == k);
                        assert(nk0.contains(k));
                    }
                }
                if seq_has_key(s0, k) {
                    lemma_key_at_valid(s0, k);
                    let j = seq_key_at(s0, k);
                    assert(s1[j].0 == k);
                    assert(seq_has_key(s1, k));
                }
                if nk0.contains(k) {
                    lemma_contains_at(nk0, k);
                    let i = nk0.index_of(k);
                    assert(s1[s0.len() + nk0.len() - 1 - i].0 == k);
                    assert(seq_has_key(s1, k));
                }
            }
            assert forall|t: int| 0 <= t < m0.len() implies seq_has_key(
                s1,
                (#[trigger] m0[t]).0,
            ) by {
                assert(seq_has_key(m0, m0[t].0));
                if !seq_has_key(s0, m0[t].0) {
                    assert(!pre@.contains_key(m0[t].0));
                    assert(nk0.contains(m0[t].0));
                }
            }
        }

        // Append the supplied value for every key named in `m`.
        let mut rest = m;
        proof {
            assert(m0.subrange(0, m0.len() as int) =~= m0);
        }
        while rest.len() > 0
            invariant
                rest@.len() <= m0.len(),
                rest@ == m0.subrange(0, rest@.len() as int),
                self.entries@.len() == s1.len(),
                forall|j: int|
                    0 <= j < s1.len() ==> (#[trigger] self.entries@[j]).0 == s1[j].0,
                distinct_keys(self.entries@),
                forall|j: int|
                    0 <= j < s1.len() ==> (#[trigger] self.entries@[j]).1@ == (
                    if seq_has_key(m0.subrange(rest@.len() as int, m0.len() as int), s1[j].0) {
                        s1[j].1@.push(key_value(m0, s1[j].0))
                    } else {
                        s1[j].1@
                    }),
            decreases rest@.len(),
        {
            let ghost ll = rest@.len() as int;
            let ghost done_pre = m0.subrange(ll, m0.len() as int);
            let ghost done_post = m0.subrange(ll - 1, m0.len() as int);
            let ghost mid = self.entries@;
            let p = rest.pop().unwrap();
            let (k, v) = p;
            proof {
                assert(rest@ =~= m0.subrange(0, ll - 1));
                assert((k, v) == m0[ll - 1]);
                assert(seq_has_key(s1, k));
                lemma_key_at_valid(s1, k);
                assert(seq_has_key(self.entries@, k)) by {
                    assert(self.entries@[seq_key_at(s1, k)].0 == k);
                }
            }
            let found = find_key(&self.entries, &k);
            match found {
                Some(idx) => {
                    self.entries[idx].1.push(v);
                    proof {
                        let ji = idx as int;
                        assert(self.entries@ =~= mid.update(ji, (s1[ji].0, self.entries@[ji].1)));
                        lemma_key_index(s1, ji);
                        assert(s1[ji].0 == k);
                        assert(!seq_has_key(done_pre, k)) by {
                            if seq_has_key(done_pre, k) {
                                lemma_key_at_valid(done_pre, k);
                                let t = seq_key_at(done_pre, k);
                                assert(done_pre[t] == m0[ll + t]);
                                assert(m0[ll + t].0 == m0[ll - 1].0);
                            }
                        }
                        assert(key_value(m0, k) == v) by {
                            lemma_key_index(m0, ll - 1);
                        }
                        assert forall|j: int| 0 <= j < s1.len() implies (
                        #[trigger] self.entries@[j]).1@ == (
                        if seq_has_key(done_post, s1[j].0) {
                            s1[j].1@.push(key_value(m0, s1[j].0))
                        } else {
                            s1[j].1@
                        }) by {
                            if j == ji {
                                assert(done_post[0] == m0[ll - 1]);
                                assert(seq_has_key(done_post, k));
                            } else {
                                assert(s1[j].0 != k);
                                assert(seq_has_key(done_post, s1[j].0) == seq_has_key(
                                    done_pre,
                                    s1[j].0,
                                )) by {
                                    if seq_has_key(done_post, s1[j].0) {
                                        lemma_key_at_valid(done_post, s1[j].0);
                                        let t = seq_key_at(done_post, s1[j].0);
                                        assert(done_post[t] == m0[ll - 1 + t]);
                                        assert(t != 0);
                                        assert(done_pre[t - 1] == m0[ll + t - 1]);
                                        assert(seq_has_key(done_pre, s1[j].0));
                                    }
                                    if seq_has_key(done_pre, s1[j].0) {
                                        lemma_key_at_valid(done_pre, s1[j].0);
                                        let t = seq_key_at(done_pre, s1[j].0);
                                        assert(done_pre[t] == m0[ll + t]);
                                        assert(done_post[t + 1] == m0[ll + t]);
                                        assert(seq_has_key(done_post, s1[j].0));
                                    }
                                }
                            }
                        }
                    }
                },
                None => {
                    proof {
                        assert(false);
                    }
                },
            }
        }
        let ghost s2 = self.entries@;
        proof {
            assert(m0.subrange(0, m0.len() as int) =~= m0);
        }

        // One padding value for every key `m` does not name.
        let mk_len = missing_keys.len();
        for t in 0..mk_len
            invariant
                self.entries@.len() == s1.len(),
                forall|j: int|
                    0 <= j < s1.len() ==> (#[trigger] self.entries@[j]).0 == s1[j].0,
                distinct_keys(self.entries@),
                forall|j: int|
                    0 <= j < s1.len() ==> (#[trigger] self.entries@[j]).1@ == (
                    if mk0.subrange(0, t as int).contains(s1[j].0) {
                        s2[j].1@.push(V::pad_default())
                    } else {
                        s2[j].1@
                    }),
        {
            let ghost done_pre = mk0.subrange(0, t as int);
            let ghost done_post = mk0.subrange(0, t + 1);
            let ghost mid = self.entries@;
            let kref = &missing_keys[t];
            proof {
                assert(mk0[t as int] == *kref);
                assert(pre@.contains_key(mk0[t as int]));
                lemma_key_at_valid(s0, mk0[t as int]);
                let j0 = seq_key_at(s0, mk0[t as int]);
                assert(s1[j0].0 == mk0[t as int]);
                assert(seq_has_key(self.entries@, mk0[t as int])) by {
                    assert(self.entries@[j0].0 == mk0[t as int]);
                }
            }
            let found = find_key(&self.entries, kref);
            match found {
                Some(idx) => {
                    let pad = V::default_value();
                    self.entries[idx].1.push(pad);
                    proof {
                        let ji = idx as int;
                        assert(self.entries@ =~= mid.update(ji, (s1[ji].0, self.entries@[ji].1)));
                        lemma_key_index(s1, ji);
                        assert(s1[ji].0 == mk0[t as int]);
                        assert(!done_pre.contains(mk0[t as int])) by {
                            if done_pre.contains(mk0[t as int]) {
                                lemma_contains_at(done_pre, mk0[t as int]);
                                let i = done_pre.index_of(mk0[t as int]);
                                assert(done_pre[i] == mk0[i]);
                                assert(mk0[i] == mk0[t as int]);
                            }
                        }
                        assert forall|j: int| 0 <= j < s1.len() implies (
                        #[trigger] self.entries@[j]).1@ == (
                        if done_post.contains(s1[j].0) {
                            s2[j].1@.push(V::pad_default())
                        } else {
                            s2[j].1@
                        }) by {
                            if j == ji {
                                assert(done_post[t as int] == mk0[t as int]);
                                assert(done_post.contains(s1[ji].0));
                            } else {
                                assert(s1[j].0 != mk0[t as int]);
                                assert(done_post.contains(s1[j].0) == done_pre.contains(
                                    s1[j].0,
                                )) by {
                                    if done_post.contains(s1[j].0) {
                                        lemma_contains_at(done_post, s1[j].0);
                                        let i = done_post.index_of(s1[j].0);
                                        assert(done_post[i] == mk0[i]);
                                        assert(i != t as int);
                                        assert(done_pre[i] == mk0[i]);
                                        assert(done_pre.contains(s1[j].0));
                                    }
                                    if done_pre.contains(s1[j].0) {
                                        lemma_contains_at(done_pre, s1[j].0);
                                        let i = done_pre.index_of(s1[j].0);
                                        assert(done_pre[i] == mk0[i]);
                                        assert(done_post[i] == mk0[i]);
                                        assert(done_post.contains(s1[j].0));
                                    }
                                }
                            }
                        }
                    }
                },
                None => {
                    proof {
                        assert(false);
                    }
                },
            }
        }
        let ghost s3 = self.entries@;
        proof {
            assert(mk0.subrange(0, mk0.len() as int) =~= mk0);
            // Every series has grown by exactly one element.
            assert forall|j: int| 0 <= j < s3.len() implies (#[trigger] s3[j]).1@.len() == n
                + 1 by {
                let k = s1[j].0;
                assert(s1[j].1@.len() == n) by {
                    if j < s0.len() {
                        assert(s0[j].1@.len() == pre.steps());
                        assert(s1[j] == s0[j]);
                    } else {
                        assert(s1[j].1@ == pad_seq::<V>(n as nat));
                    }
                }
                if seq_has_key(m0, k) {
                    assert(!mk0.contains(k)) by {
                        if mk0.contains(k) {
                            lemma_contains_at(mk0, k);
                            let i = mk0.index_of(k);
                            assert(!seq_has_key(m0, mk0[i]));
                        }
                    }
                    assert(s3[j].1@ == s2[j].1@);
                    assert(s2[j].1@ == s1[j].1@.push(key_value(m0, k)));
                } else {
                    assert(s2[j].1@ == s1[j].1@);
                    if j < s0.len() {
                        assert(s0[j].0 == k);
                        assert(seq_has_key(s0, k));
                        assert(pre@.contains_key(k));
                        assert(mk0.contains(k));
                        assert(s3[j].1@ == s2[j].1@.push(V::pad_default()));
                    } else {
                        assert(nk0[s0.len() + nk0.len() - 1 - j] == k);
                        assert(seq_has_key(m0, nk0[s0.len() + nk0.len() - 1 - j]));
                    }
                }
            }
            assert(self.wf());
            assert(final(self).steps() == if m0.len() == 0 && pre@.dom().len() == 0 {
                0nat
            } else {
                (pre.steps() + 1) as nat
            }) by {
                pre.lemma_dom_card();
                if s3.len() > 0 {
                    assert(s3[0].1@.len() == n + 1);
                } else {
                    assert(s0.len() == 0 && nk0.len() == 0);
                    if m0.len() > 0 {
                        assert(seq_has_key(m0, m0[0].0));
                        assert(!pre@.contains_key(m0[0].0));
                        assert(nk0.contains(m0[0].0));
                    }
                }
            }
            // The per-key statements, lifted to the map.
            assert forall|k: K|
                #[trigger] seq_view(s3).contains_key(k) <==> (pre@.contains_key(k)
                    || seq_has_key(m0, k)) by {
                assert(seq_has_key(s3, k) == seq_has_key(s1, k)) by {
                    if seq_has_key(s3, k) {
                        lemma_key_at_valid(s3, k);
                        assert(s1[seq_key_at(s3, k)].0 == k);
                    }
                    if seq_has_key(s1, k) {
                        lemma_key_at_valid(s1, k);
                        assert(s3[seq_key_at(s1, k)].0 == k);
                    }
                }
                if nk0.contains(k) {
                    lemma_contains_at(nk0, k);
                    let i = nk0.index_of(k);
                    assert(seq_has_key(m0, nk0[i]));
                }
                if seq_has_key(m0, k) && !pre@.contains_key(k) {
                    assert(nk0.contains(k));
                }
            }
            assert forall|t: int| 0 <= t < m0.len() implies seq_view(s3)[(#[trigger] m0[t]).0]
                == (if pre@.contains_key(m0[t].0) {
                pre@[m0[t].0]
            } else {
                pad_seq::<V>(pre.steps())
            }).push(m0[t].1) by {
                let k = m0[t].0;
                assert(seq_has_key(m0, k));
                lemma_key_at_valid(s1, k);
                let j = seq_key_at(s1, k);
                assert(s3[j].0 == k);
                lemma_view_at(s3, j);
                assert(key_value(m0, k) == m0[t].1) by {
                    lemma_key_index(m0, t);
                }
                assert(!mk0.contains(k)) by {
                    if mk0.contains(k) {
                        lemma_contains_at(mk0, k);
                        let i = mk0.index_of(k);
                        assert(!seq_has_key(m0, mk0[i]));
                    }
                }
                assert(s3[j].1@ == s2[j].1@);
                assert(s2[j].1@ == s1[j].1@.push(m0[t].1));
                if pre@.contains_key(k) {
                    lemma_key_at_valid(s0, k);
                    let j0 = seq_key_at(s0, k);
                    assert(s1[j0].0 == k);
                    lemma_key_index(s1, j0);
                    assert(j == j0);
                    lemma_view_at(s0, j0);
                    assert(s1[j].1@ == pre@[k]);
                } else {
                    assert(nk0.contains(k));
                    assert(j >= s0.len()) by {
                        if j < s0.len() {
                            assert(s0[j].0 == k);
                            assert(seq_has_key(s0, k));
                        }
                    }
                    assert(s1[j].1@ == pad_seq::<V>(n as nat));
                }
            }
            assert forall|k: K|
                #[trigger] pre@.contains_key(k) && !seq_has_key(m0, k) implies seq_view(s3)[k]
                == pre@[k].push(V::pad_default()) by {
                lemma_key_at_valid(s0, k);
                let j0 = seq_key_at(s0, k);
                assert(s1[j0].0 == k);
                lemma_view_at(s0, j0);
                lemma_view_at(s3, j0);
                assert(s2[j0].1@ == s1[j0].1@);
                assert(mk0.contains(k));
                assert(s3[j0].1@ == s2[j0].1@.push(V::pad_default()));
            }
        }
    }

    /// Appends `value` to the series of `key` and advances every other
    /// series by one padding value.  A key not seen before starts with
    /// one padding value per past step, so that all series keep one
    /// common length.
    pub fn insert(&mut self, key: K, value: V)
        requires
            old(self).wf(),
        ensures
            final(self).wf(),
            final(self).steps() == old(self).steps() + 1,
            forall|k: K| #[trigger] final(self)@.contains_key(k) <==> (old(self)@.contains_key(k)
                || k == key),
            final(self)@[key] == if old(self)@.contains_key(key) {
                old(self)@[key].push(value)
            } else {
                pad_seq::<V>(old(self).steps()).push(value)
            },
            forall|k: K|
                #[trigger] old(self)@.contains_key(k) && k != key ==> final(self)@[k]
                    == old(self)@[k].push(V::pad_default()),
    {
        let ghost pre = *self;
        let n = self.nb_elements();
        let len = self.entries.len();
        let mut i: usize = 0;
        while i < len
            invariant
                pre.wf(),
                n == pre.steps(),
                len == self.entries@.len(),
                len == pre.entries@.len(),
                i <= len,
                forall|j: int| 0 <= j < len ==> (#[trigger] self.entries@[j]).0
                    == pre.entries@[j].0,
                forall|j: int| 0 <= j < i ==> (#[trigger] self.entries@[j]).1@ == (
                    if pre.entries@[j].0 == key {
                        pre.entries@[j].1@
                    } else {
                        pre.entries@[j].1@.push(V::pad_default())
                    }),
                forall|j: int| i <= j < len ==> (#[trigger] self.entries@[j]).1@
                    == pre.entries@[j].1@,
            decreases len - i,
        {
            let same = self.entries[i].0.key_eq(&key);
            if !same {
                let v = V::default_value();
                self.entries[i].1.push(v);
            }
            i += 1;
        }
        let ghost mid = self.entries@;
        match find_key(&self.entries, &key) {
            Some(t) => {
                self.entries[t].1.push(value);
                proof {
                    let s_pre = pre.entries@;
                    let s_fin = self.entries@;
                    let ti = t as int;
                    assert(s_fin =~= mid.update(ti, (key, s_fin[ti].1)));
                    assert(s_fin[ti].1@ == s_pre[ti].1@.push(value));
                    lemma_view_at(s_pre, ti);
                    assert(s_pre[ti].0 == key);
                    assert forall|j: int| 0 <= j < len && j != ti implies (#[trigger] s_fin[j]).1@
                        == s_pre[j].1@.push(V::pad_default()) by {
                        if j < ti {
                            assert(s_pre[j].0 != s_pre[ti].0);
                        } else {
                            assert(s_pre[ti].0 != s_pre[j].0);
                        }
                        assert(s_pre[j].0 != key);
                    }
                    assert(distinct_keys(s_fin));
                    assert forall|k2: K| seq_has_key(s_fin, k2) == seq_has_key(s_pre, k2) by {
                        if seq_has_key(s_fin, k2) {
                            let j = seq_key_at(s_fin, k2);
                            lemma_key_at_valid(s_fin, k2);
                            assert(s_pre[j].0 == k2);
                        }
                        if seq_has_key(s_pre, k2) {
                            let j = seq_key_at(s_pre, k2);
                            lemma_key_at_valid(s_pre, k2);
                            assert(s_fin[j].0 == k2);
                        }
                    }
                    assert forall|k2: K| #[trigger] seq_has_key(s_pre, k2) implies seq_view(
                        s_fin,
                    )[k2] == (if k2 == key {
                        seq_view(s_pre)[k2].push(value)
                    } else {
                        seq_view(s_pre)[k2].push(V::pad_default())
                    }) by {
                        let j = seq_key_at(s_pre, k2);
                        lemma_key_at_valid(s_pre, k2);
                        lemma_view_at(s_pre, j);
                        assert(s_fin[j].0 == k2);
                        lemma_view_at(s_fin, j);
                        if k2 == key {
                            assert(j == ti);
                        } else {
                            assert(j != ti);
                        }
                    }
                    assert(self.steps() == pre.steps() + 1) by {
                        assert(s_fin[0].1@.len() == s_pre[0].1@.len() + 1);
                    }
                    assert(self.wf()) by {
                        assert forall|j: int| 0 <= j < s_fin.len() implies (
                        #[trigger] s_fin[j]).1@.len() == self.steps() by {}
                    }
                }
            },
            None => {
                let mut padding = Self::padding_vec(n);
                padding.push(value);
                self.entries.push((key, padding));
                proof {
                    let s_pre = pre.entries@;
                    let s_fin = self.entries@;
                    assert(s_fin =~= mid.push(s_fin.last()));
                    assert forall|j: int| 0 <= j < len implies (#[trigger] mid[j]).1@
                        == s_pre[j].1@.push(V::pad_default()) by {
                        assert(!seq_has_key(mid, key));
                        if mid[j].0 == key {
                            assert(seq_has_key(mid, key));
                        }
                        assert(mid[j].0 == s_pre[j].0);
                        assert(s_pre[j].0 != key);
                    }
                    assert(distinct_keys(mid));
                    assert forall|k2: K| seq_has_key(mid, k2) == seq_has_key(s_pre, k2) by {
                        if seq_has_key(mid, k2) {
                            let j = seq_key_at(mid, k2);
                            lemma_key_at_valid(mid, k2);
                            assert(s_pre[j].0 == k2);
                        }
                        if seq_has_key(s_pre, k2) {
                            let j = seq_key_at(s_pre, k2);
                            lemma_key_at_valid(s_pre, k2);
                            assert(mid[j].0 == k2);
                        }
                    }
                    assert forall|k2: K| #[trigger] seq_has_key(s_pre, k2) implies seq_view(
                        mid,
                    )[k2] == seq_view(s_pre)[k2].push(V::pad_default()) by {
                        let j = seq_key_at(s_pre, k2);
                        lemma_key_at_valid(s_pre, k2);
                        lemma_view_at(s_pre, j);
                        assert(mid[j].0 == k2);
                        lemma_view_at(mid, j);
                    }
                    lemma_view_push(mid, key, s_fin.last().1);
                    assert(seq_view(s_fin) == seq_view(mid).insert(
                        key,
                        pad_seq::<V>(n as nat).push(value),
                    ));
                    assert(self.steps() == pre.steps() + 1) by {
                        assert(s_fin[0].1@.len() == n + 1);
                    }
                    assert(self.wf()) by {
                        assert forall|j: int| 0 <= j < s_fin.len() implies (
                        #[trigger] s_fin[j]).1@.len() == self.steps() by {}
                    }
                }
            },
        }
    }

    /// A lower bound on how many keys fit without reallocation.
    pub fn capacity(&self) -> (r: usize)
        requires
            self.wf(),
        ensures
            r >= self@.dom().len(),
    {
        proof {
            self.lemma_dom_card();
        }
        vec_capacity(&self.entries)
    }

    /// Pre-allocates room for `additional` more keys.  A capacity
    /// hint only: the contents do not change.
    pub fn reserve(&mut self, additional: usize)
        ensures
            final(self)@ == old(self)@,
            final(self).wf() == old(self).wf(),
            final(self).steps() == old(self).steps(),
    {
        let ghost pre = *self;
        self.entries.reserve(additional);
        proof {
            assert(self.entries@ == pre.entries@);
        }
    }

    /// Drops spare capacity.  A capacity hint only: the contents do
    /// not change.
    pub fn shrink_to_fit(&mut self)
        ensures
            final(self)@ == old(self)@,
            final(self).wf() == old(self).wf(),
            final(self).steps() == old(self).steps(),
    {
        let ghost pre = *self;
        vec_shrink_to_fit(&mut self.entries);
        proof {
            assert(self.entries@ == pre.entries@);
        }
    }

    /// Removes `key` and its whole series, returning the series, or
    /// `None` when `key` is absent.  No other series changes.
    pub fn remove(&mut self, key: &K) -> (r: Option<Vec<V>>)
        requires
            old(self).wf(),
        ensures
            final(self).wf(),
            final(self)@ == old(self)@.remove(*key),
            match r {
                Some(v) => old(self)@.contains_key(*key) && v@ == old(self)@[*key],
                None => !old(self)@.contains_key(*key),
            },
            forall|k: K|
                #[trigger] old(self)@.contains_key(k) && k != *key ==> final(self)@.contains_key(
                    k,
                ) && final(self)@[k] == old(self)@[k],
            final(self)@.dom().len() > 0 ==> final(self).steps() == old(self).steps(),
    {
        let ghost pre = *self;
        match find_key(&self.entries, key) {
            Some(i) => {
                proof {
                    lemma_view_at(pre.entries@, i as int);
                    lemma_view_remove(pre.entries@, i as int);
                }
                let pair = self.entries.remove(i);
                proof {
                    assert(self@ =~= pre@.remove(*key));
                    assert(self.wf()) by {
                        let s2 = self.entries@;
                        assert forall|j: int| 0 <= j < s2.len() implies (
                        #[trigger] s2[j]).1@.len() == self.steps() by {
                            if j < i {
                                assert(s2[j] == pre.entries@[j]);
                            } else {
                                assert(s2[j] == pre.entries@[j + 1]);
                            }
                        }
                    }
                    if self@.dom().len() > 0 {
                        self.lemma_dom_card();
                    }
                }
                Some(pair.1)
            },
            None => {
                proof {
                    assert(self@ =~= pre@.remove(*key));
                }
                None
            },
        }
    }

    /// Removes every key; the map is afterwards empty and the step
    /// count is back at zero.
    pub fn clear(&mut self)
        ensures
            final(self).wf(),
            final(self)@ == Map::<K, Seq<V>>::empty(),
            final(self).steps() == 0,
    {
        self.entries.clear();
        proof {
            assert(self@ =~= Map::<K, Seq<V>>::empty());
        }
    }

    /// Removes and returns every entry at once, leaving the map
    /// empty.  Draining again would therefore yield nothing.
    #[verifier::loop_isolation(false)]
    pub fn drain(&mut self) -> (r: Vec<(K, Vec<V>)>)
        requires
            old(self).wf(),
        ensures
            final(self).wf(),
            final(self)@ == Map::<K, Seq<V>>::empty(),
            final(self).steps() == 0,
            distinct_keys(r@),
            r@.len() == old(self)@.dom().len(),
            forall|i: int|
                0 <= i < r@.len() ==> old(self)@.contains_key((#[trigger] r@[i]).0) && r@[i].1@
                    == old(self)@[r@[i].0],
            forall|k: K| #[trigger] old(self)@.contains_key(k) ==> seq_has_key(r@, k),
    {
        let ghost pre = *self;
        let ghost s0 = self.entries@;
        proof {
            assert(s0.subrange(0, s0.len() as int) =~= s0);
        }
        let mut r: Vec<(K, Vec<V>)> = Vec::new();
        while self.entries.len() > 0
            invariant
                self.entries@.len() <= s0.len(),
                self.entries@ == s0.subrange(0, self.entries@.len() as int),
                r@.len() == s0.len() - self.entries@.len(),
                forall|i: int|
                    0 <= i < r@.len() ==> #[trigger] r@[i] == s0[s0.len() - 1 - i],
            decreases self.entries@.len(),
        {
            let ghost ll = self.entries@.len() as int;
            let p = self.entries.pop().unwrap();
            proof {
                assert(self.entries@ =~= s0.subrange(0, ll - 1));
                assert(p == s0[ll - 1]);
            }
            r.push(p);
        }
        proof {
            assert(self@ =~= Map::<K, Seq<V>>::empty());
            pre.lemma_dom_card();
            assert(distinct_keys(r@)) by {
                assert forall|i: int, j: int| 0 <= i < j < r@.len() implies r@[i].0
                    != r@[j].0 by {
                    assert(r@[i] == s0[s0.len() - 1 - i]);
                    assert(r@[j] == s0[s0.len() - 1 - j]);
                }
            }
            assert forall|i: int| 0 <= i < r@.len() implies pre@.contains_key(
                (#[trigger] r@[i]).0,
            ) && r@[i].1@ == pre@[r@[i].0] by {
                lemma_view_at(s0, s0.len() - 1 - i);
            }
            assert forall|k: K| #[trigger] pre@.contains_key(k) implies seq_has_key(r@, k) by {
                lemma_key_at_valid(s0, k);
                let j = seq_key_at(s0, k);
                assert(r@[s0.len() - 1 - j] == s0[j]);
                assert(r@[s0.len() - 1 - j].0 == k);
            }
        }
        r
    }

    /// Keeps only the entries that the predicate accepts and discards
    /// the rest.  A predicate that accepts every entry leaves the map
    /// unchanged.
    #[verifier::loop_isolation(false)]
    pub fn retain<F: Fn(&K, &Vec<V>) -> bool>(&mut self, f: F)
        requires
            old(self).wf(),
            forall|k: K, v: Vec<V>|
                old(self)@.contains_key(k) && v@ == old(self)@[k] ==> call_requires(f, (&k, &v)),
        ensures
            final(self).wf(),
            forall|k: K|
                #[trigger] final(self)@.contains_key(k) ==> old(self)@.contains_key(k)
                    && final(self)@[k] == old(self)@[k],
            forall|k: K|
                #[trigger] old(self)@.contains_key(k) && final(self)@.contains_key(k)
                    ==> exists|v: Vec<V>|
                    v@ == old(self)@[k] && #[trigger] call_ensures(f, (&k, &v), true),
            forall|k: K|
                #[trigger] old(self)@.contains_key(k) && !final(self)@.contains_key(k)
                    ==> exists|v: Vec<V>|
                    v@ == old(self)@[k] && #[trigger] call_ensures(f, (&k, &v), false),
            (forall|k: K, v: Vec<V>, b: bool| call_ensures(f, (&k, &v), b) ==> b)
                ==> final(self)@ == old(self)@,
    {
        let ghost pre = *self;
        let ghost s0 = self.entries@;
        proof {
            assert(s0.subrange(0, s0.len() as int) =~= s0);
        }
        let mut kept: Vec<(K, Vec<V>)> = Vec::new();
        while self.entries.len() > 0
            invariant
                self.entries@.len() <= s0.len(),
                self.entries@ == s0.subrange(0, self.entries@.len() as int),
                distinct_keys(kept@),
                forall|i: int|
                    0 <= i < kept@.len() ==> seq_has_key(s0, (#[trigger] kept@[i]).0)
                        && seq_key_at(s0, kept@[i].0) >= self.entries@.len() && kept@[i]
                        == s0[seq_key_at(s0, kept@[i].0)],
                forall|j: int|
                    self.entries@.len() <= j < s0.len() && seq_has_key(
                        kept@,
                        (#[trigger] s0[j]).0,
                    ) ==> call_ensures(f, (&s0[j].0, &s0[j].1), true),
                forall|j: int|
                    self.entries@.len() <= j < s0.len() && !seq_has_key(
                        kept@,
                        (#[trigger] s0[j]).0,
                    ) ==> call_ensures(f, (&s0[j].0, &s0[j].1), false),
            decreases self.entries@.len(),
        {
            let ghost ll = self.entries@.len() as int;
            let ghost kept_old = kept@;
            let p = self.entries.pop().unwrap();
            proof {
                assert(self.entries@ =~= s0.subrange(0, ll - 1));
                assert(p == s0[ll - 1]);
                lemma_key_index(s0, ll - 1);
                assert(pre@.contains_key(p.0) && p.1@ == pre@[p.0]) by {
                    lemma_view_at(s0, ll - 1);
                }
                assert(!seq_has_key(kept_old, s0[ll - 1].0)) by {
                    if seq_has_key(kept_old, s0[ll - 1].0) {
                        lemma_key_at_valid(kept_old, s0[ll - 1].0);
                        let i = seq_key_at(kept_old, s0[ll - 1].0);
                        assert(seq_key_at(s0, kept_old[i].0) >= ll);
                        assert(seq_key_at(s0, s0[ll - 1].0) == ll - 1);
                    }
                }
            }
            let keep = f(&p.0, &p.1);
            if keep {
                kept.push(p);
                proof {
                    assert forall|i: int| 0 <= i < kept@.len() implies seq_has_key(
                        s0,
                        (#[trigger] kept@[i]).0,
                    ) && seq_key_at(s0, kept@[i].0) >= ll - 1 && kept@[i] == s0[seq_key_at(
                        s0,
                        kept@[i].0,
                    )] by {
                        if i < kept_old.len() {
                            assert(kept@[i] == kept_old[i]);
                        } else {
                            assert(kept@[i] == s0[ll - 1]);
                        }
                    }
                    assert(distinct_keys(kept@)) by {
                        assert forall|i: int, j: int| 0 <= i < j < kept@.len() implies kept@[i].0
                            != kept@[j].0 by {
                            if j < kept_old.len() {
                                assert(kept@[i] == kept_old[i] && kept@[j] == kept_old[j]);
                            } else {
                                assert(kept@[j] == s0[ll - 1]);
                                if i < kept_old.len() {
                                    assert(kept@[i] == kept_old[i]);
                                    if kept_old[i].0 == s0[ll - 1].0 {
                                        assert(seq_has_key(kept_old, s0[ll - 1].0));
                                    }
                                }
                            }
                        }
                    }
                    assert forall|j: int|
                        ll - 1 <= j < s0.len() && seq_has_key(kept@, (#[trigger] s0[j]).0) implies
                        call_ensures(f, (&s0[j].0, &s0[j].1), true) by {
                        if j == ll - 1 {
                        } else {
                            assert(seq_has_key(kept_old, s0[j].0) || s0[j].0 == s0[ll - 1].0) by {
                                lemma_key_at_valid(kept@, s0[j].0);
                                let i = seq_key_at(kept@, s0[j].0);
                                if i < kept_old.len() {
                                    assert(kept_old[i].0 == s0[j].0);
                                } else {
                                    assert(kept@[i] == s0[ll - 1]);
                                }
                            }
                            assert(s0[j].0 != s0[ll - 1].0);
                        }
                    }
                    assert forall|j: int|
                        ll - 1 <= j < s0.len() && !seq_has_key(kept@, (#[trigger] s0[j]).0)
                        implies call_ensures(f, (&s0[j].0, &s0[j].1), false) by {
                        if j == ll - 1 {
                            assert(kept@[kept@.len() - 1] == s0[ll - 1]);
                            assert(seq_has_key(kept@, s0[ll - 1].0));
                        } else {
                            if seq_has_key(kept_old, s0[j].0) {
                                lemma_key_at_valid(kept_old, s0[j].0);
                                let i = seq_key_at(kept_old, s0[j].0);
                                assert(kept@[i] == kept_old[i]);
                                assert(seq_has_key(kept@, s0[j].0));
                            }
                        }
                    }
                }
            } else {
                proof {
                    assert forall|j: int|
                        ll - 1 <= j < s0.len() && seq_has_key(kept@, (#[trigger] s0[j]).0) implies
                        call_ensures(f, (&s0[j].0, &s0[j].1), true) by {
                        if j == ll - 1 {
                            lemma_key_at_valid(kept@, s0[j].0);
                            let i = seq_key_at(kept@, s0[j].0);
                            assert(seq_key_at(s0, kept@[i].0) >= ll);
                            assert(seq_key_at(s0, s0[ll - 1].0) == ll - 1);
                        }
                    }
                    assert forall|j: int|
                        ll - 1 <= j < s0.len() && !seq_has_key(kept@, (#[trigger] s0[j]).0)
                        implies call_ensures(f, (&s0[j].0, &s0[j].1), false) by {}
                }
            }
        }
        self.entries = kept;
        proof {
            let s1 = self.entries@;
            assert(self.wf()) by {
                assert forall|j: int| 0 <= j < s1.len() implies (#[trigger] s1[j]).1@.len()
                    == self.steps() by {
                    let j0 = seq_key_at(s0, s1[j].0);
                    assert(s1[j] == s0[j0]);
                    assert(s0[j0].1@.len() == pre.steps());
                    let i0 = seq_key_at(s0, s1[0].0);
                    assert(s1[0] == s0[i0]);
                    assert(s0[i0].1@.len() == pre.steps());
                }
            }
            assert forall|k: K| #[trigger] seq_view(s1).contains_key(k) implies
                pre@.contains_key(k) && seq_view(s1)[k] == pre@[k] by {
                lemma_key_at_valid(s1, k);
                let i = seq_key_at(s1, k);
                lemma_view_at(s1, i);
                let j0 = seq_key_at(s0, k);
                assert(s1[i] == s0[j0]);
                lemma_view_at(s0, j0);
            }
            assert forall|k: K|
                #[trigger] pre@.contains_key(k) && seq_view(s1).contains_key(k) implies exists|
                v: Vec<V>,
            |
                v@ == pre@[k] && #[trigger] call_ensures(f, (&k, &v), true) by {
                lemma_key_at_valid(s0, k);
                let j = seq_key_at(s0, k);
                lemma_view_at(s0, j);
                lemma_key_at_valid(s1, k);
                let i = seq_key_at(s1, k);
                assert(seq_has_key(kept@, s0[j].0)) by {
                    assert(s1[i].0 == k);
                }
                assert(call_ensures(f, (&s0[j].0, &s0[j].1), true));
                assert(s0[j].1@ == pre@[k]);
            }
            assert forall|k: K|
                #[trigger] pre@.contains_key(k) && !seq_view(s1).contains_key(k) implies exists|
                v: Vec<V>,
            |
                v@ == pre@[k] && #[trigger] call_ensures(f, (&k, &v), false) by {
                lemma_key_at_valid(s0, k);
                let j = seq_key_at(s0, k);
                lemma_view_at(s0, j);
                assert(!seq_has_key(kept@, s0[j].0)) by {
                    if seq_has_key(kept@, s0[j].0) {
                        lemma_key_at_valid(s1, s0[j].0);
                        assert(seq_view(s1).contains_key(k));
                    }
                }
                assert(call_ensures(f, (&s0[j].0, &s0[j].1), false));
                assert(s0[j].1@ == pre@[k]);
            }
            if forall|k: K, v: Vec<V>, b: bool| call_ensures(f, (&k, &v), b) ==> b {
                assert forall|k: K| pre@.contains_key(k) implies seq_view(s1).contains_key(
                    k,
                ) by {
                    if !seq_view(s1).contains_key(k) {
                        let v = choose|v: Vec<V>|
                            v@ == pre@[k] && #[trigger] call_ensures(f, (&k, &v), false);
                        assert(call_ensures(f, (&k, &v), false));
                        assert(false);
                    }
                }
                assert(seq_view(s1) =~= pre@);
            }
        }
    }

    /// The series of `key`, or `None` when `key` is absent.
    pub fn get(&self, key: &K) -> (r: Option<&Vec<V>>)
        requires
            self.wf(),
        ensures
            match r {
                Some(v) => self@.contains_key(*key) && v@ == self@[*key],
                None => !self@.contains_key(*key),
            },
    {
        match find_key(&self.entries, key) {
            Some(i) => {
                proof {
                    lemma_view_at(self.entries@, i as int);
                }
                let pair: &(K, Vec<V>) = &self.entries[i];
                Some(&pair.1)
            },
            None => None,
        }
    }
    /// The stored key together with its series, or `None` when `key`
    /// is absent.
    pub fn get_key_value(&self, key: &K) -> (r: Option<(&K, &Vec<V>)>)
        requires
            self.wf(),
        ensures
            match r {
                Some(p) => *p.0 == *key && self@.contains_key(*key) && p.1@ == self@[*key],
                None => !self@.contains_key(*key),
            },
    {
        match find_key(&self.entries, key) {
            Some(i) => {
                proof {
                    lemma_view_at(self.entries@, i as int);
                }
                let pair: &(K, Vec<V>) = &self.entries[i];
                Some((&pair.0, &pair.1))
            },
            None => None,
        }
    }
    /// The keys, in unspecified order.
    pub fn keys(&self) -> (r: Vec<&K>)
        requires
            self.wf(),
        ensures
            r@.len() == self@.dom().len(),
            forall|i: int, j: int| 0 <= i < j < r@.len() ==> *(#[trigger] r@[i]) != *(
            #[trigger] r@[j]),
            forall|i: int| 0 <= i < r@.len() ==> self@.contains_key(*(#[trigger] r@[i])),
            forall|k: K|
                #[trigger] self@.contains_key(k) ==> exists|i: int|
                    0 <= i < r@.len() && *(#[trigger] r@[i]) == k,
    {
        proof {
            self.lemma_dom_card();
        }
        let mut r: Vec<&K> = Vec::new();
        let n = self.entries.len();
        for i in 0..n
            invariant
                n == self.entries@.len(),
                r@.len() == i,
                forall|j: int| 0 <= j < i ==> *(#[trigger] r@[j]) == self.entries@[j].0,
        {
            let pair: &(K, Vec<V>) = &self.entries[i];
            r.push(&pair.0);
        }
        proof {
            assert forall|i: int| 0 <= i < r@.len() implies self@.contains_key(
                *(#[trigger] r@[i]),
            ) by {
                lemma_view_at(self.entries@, i);
            }
            assert forall|k: K| #[trigger] self@.contains_key(k) implies exists|i: int|
                0 <= i < r@.len() && *(#[trigger] r@[i]) == k by {
                lemma_key_at_valid(self.entries@, k);
                let j = seq_key_at(self.entries@, k);
                assert(*r@[j] == k);
            }
        }
        r
    }

    /// The series, one per key, in unspecified order.
    pub fn values(&self) -> (r: Vec<&Vec<V>>)
        requires
            self.wf(),
        ensures
            r@.len() == self@.dom().len(),
            forall|k: K|
                #[trigger] self@.contains_key(k) ==> exists|i: int|
                    0 <= i < r@.len() && r@[i]@ == self@[k],
    {
        proof {
            self.lemma_dom_card();
        }
        let mut r: Vec<&Vec<V>> = Vec::new();
        let n = self.entries.len();
        for i in 0..n
            invariant
                n == self.entries@.len(),
                r@.len() == i,
                forall|j: int| 0 <= j < i ==> (#[trigger] r@[j])@ == self.entries@[j].1@,
        {
            let pair: &(K, Vec<V>) = &self.entries[i];
            r.push(&pair.1);
        }
        proof {
            assert forall|k: K| #[trigger] self@.contains_key(k) implies exists|i: int|
                0 <= i < r@.len() && r@[i]@ == self@[k] by {
                lemma_key_at_valid(self.entries@, k);
                let j = seq_key_at(self.entries@, k);
                lemma_view_at(self.entries@, j);
                assert(r@[j]@ == self@[k]);
            }
        }
        r
    }

    /// The entries as key and series pairs, in unspecified order.
    pub fn iter(&self) -> (r: Vec<(&K, &Vec<V>)>)
        requires
            self.wf(),
        ensures
            r@.len() == self@.dom().len(),
            forall|i: int, j: int| 0 <= i < j < r@.len() ==> *(#[trigger] r@[i]).0 != *(
            #[trigger] r@[j]).0,
            forall|i: int|
                0 <= i < r@.len() ==> self@.contains_key(*(#[trigger] r@[i]).0) && r@[i].1@
                    == self@[*r@[i].0],
            forall|k: K|
                #[trigger] self@.contains_key(k) ==> exists|i: int|
                    0 <= i < r@.len() && *(#[trigger] r@[i]).0 == k,
    {
        proof {
            self.lemma_dom_card();
        }
        let mut r: Vec<(&K, &Vec<V>)> = Vec::new();
        let n = self.entries.len();
        for i in 0..n
            invariant
                n == self.entries@.len(),
                r@.len() == i,
                forall|j: int|
                    0 <= j < i ==> *(#[trigger] r@[j]).0 == self.entries@[j].0 && r@[j].1@
                        == self.entries@[j].1@,
        {
            let pair: &(K, Vec<V>) = &self.entries[i];
            r.push((&pair.0, &pair.1));
        }
        proof {
            assert forall|i: int| 0 <= i < r@.len() implies self@.contains_key(
                *(#[trigger] r@[i]).0,
            ) && r@[i].1@ == self@[*r@[i].0] by {
                lemma_view_at(self.entries@, i);
            }
            assert forall|k: K| #[trigger] self@.contains_key(k) implies exists|i: int|
                0 <= i < r@.len() && *(#[trigger] r@[i]).0 == k by {
                lemma_key_at_valid(self.entries@, k);
                let j = seq_key_at(self.entries@, k);
                assert(*r@[j].0 == k);
            }
        }
        r
    }
}

impl<K: SeriesKey, V: PadDefault> Default for HashMapVec<K, V> {
    /// The default map is the empty map.
    fn default() -> (r: Self)
        ensures
            r.wf(),
            r@ == Map::<K, Seq<V>>::empty(),
            r.steps() == 0,
    {
        Self::new()
    }
}

} // verus!
