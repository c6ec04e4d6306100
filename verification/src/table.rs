//! The hash table: a fixed-length bucket array of optional chains, with
//! insert, lookup, delete, capacity-doubling resize and full enumeration.
//!
//! The mathematical model: each bucket is a sequence of entries (`chain`),
//! and the whole table is the concatenation of those sequences in bucket
//! order (`all_pairs`, at the level of views).  Every entry sits in the
//! bucket its key hashes to, so a key's entries all share one chain; a
//! lookup observes the last entry of that chain whose key has the sought
//! view (`last_match`), and a delete drops every such entry.
//!
//! Duplicate keys are kept, not overwritten: this mirrors the scan-based
//! tie-breaking the design calls for (last match wins on lookup, all
//! matches leave on delete).  The entry count does go down on delete, so
//! the load factor never overcounts.

use vstd::prelude::*;

use vstd::multiset::Multiset;
use vstd::seq_lib::lemma_multiset_commutative;

use crate::data::{Data, Duplicable, Equatable};
use crate::hash::Hashable;

verus! {

broadcast use {vstd::seq_lib::group_to_multiset_ensures, vstd::multiset::group_multiset_axioms};

/// The errors the table reports.
#[derive(Debug, Clone, Copy, PartialEq, Eq, Structural)]
pub enum TableError {
    /// Lookup or delete found no entry whose key matches.
    KeyNotFound,
    /// Growing the table would push its bucket count past `u32::MAX`.
    ResizeFailure,
}

/// A separately chained hash table.  `capacity` is the number of buckets,
/// `size` the number of stored entries, and `table` the bucket array: one
/// optional chain per bucket.
#[derive(Debug)]
pub struct HashTable<K, V> {
    pub capacity: u32,
    pub size: u32,
    pub table: Vec<Option<Vec<Data<K, V>>>>,
}

/// A chain, by views: each entry as its (key view, value view) pair.
pub open spec fn view_pairs<K: View, V: View>(c: Seq<Data<K, V>>) -> Seq<(K::V, V::V)> {
    c.map_values(|d: Data<K, V>| d@)
}

/// The chains with indices in `[a, b)`, concatenated in bucket order.
pub open spec fn flat_range<T>(t: Seq<Seq<T>>, a: int, b: int) -> Seq<T>
    decreases b - a,
{
    if a >= b {
        Seq::empty()
    } else {
        flat_range(t, a, b - 1) + t[b - 1]
    }
}

/// The value of the last pair in `s` whose key is `k`, if any: the scan
/// order tie-break for duplicate keys.
pub open spec fn last_match<KV, VV>(s: Seq<(KV, VV)>, k: KV) -> Option<VV>
    decreases s.len(),
{
    if s.len() == 0 {
        None
    } else if s.last().0 == k {
        Some(s.last().1)
    } else {
        last_match(s.drop_last(), k)
    }
}

/// Whether some pair in `s` has key `k`.
pub open spec fn has_match<KV, VV>(s: Seq<(KV, VV)>, k: KV) -> bool {
    exists|j: int| 0 <= j < s.len() && s[j].0 == k
}

/// Concatenation splits at any midpoint.
pub proof fn lemma_flat_range_split<T>(t: Seq<Seq<T>>, a: int, m: int, b: int)
    requires
        a <= m <= b,
    ensures
        flat_range(t, a, b) == flat_range(t, a, m) + flat_range(t, m, b),
    decreases b - m,
{
    if m == b {
        assert(flat_range(t, a, b) =~= flat_range(t, a, m) + flat_range(t, m, b));
    } else {
        lemma_flat_range_split(t, a, m, b - 1);
        assert(flat_range(t, a, b) =~= flat_range(t, a, m) + flat_range(t, m, b));
    }
}

/// Concatenation only reads the chains inside the range.
pub proof fn lemma_flat_range_congruent<T>(t1: Seq<Seq<T>>, t2: Seq<Seq<T>>, a: int, b: int)
    requires
        forall|i: int| a <= i < b ==> t1[i] == t2[i],
    ensures
        flat_range(t1, a, b) == flat_range(t2, a, b),
    decreases b - a,
{
    if a < b {
        lemma_flat_range_congruent(t1, t2, a, b - 1);
    }
}

/// Concatenating empty chains gives the empty sequence.
pub proof fn lemma_flat_range_empty<T>(t: Seq<Seq<T>>, a: int, b: int)
    requires
        forall|i: int| a <= i < b ==> t[i] == Seq::<T>::empty(),
    ensures
        flat_range(t, a, b) == Seq::<T>::empty(),
    decreases b - a,
{
    if a < b {
        lemma_flat_range_empty(t, a, b - 1);
        assert(flat_range(t, a, b) =~= Seq::<T>::empty());
    }
}

/// A range of one chain concatenates to that chain alone.
pub proof fn lemma_flat_range_one<T>(t: Seq<Seq<T>>, i: int)
    ensures
        flat_range(t, i, i + 1) == t[i],
{
    assert(flat_range(t, i, i) =~= Seq::<T>::empty());
    assert(flat_range(t, i, i + 1) =~= flat_range(t, i, i) + t[i]);
    assert(flat_range(t, i, i + 1) =~= t[i]);
}

/// How one appended pair changes the scan result: it wins if its key is
/// the one sought, and changes nothing otherwise.
pub proof fn lemma_match_push<KV, VV>(s: Seq<(KV, VV)>, p: (KV, VV), k: KV)
    ensures
        last_match(s.push(p), k) == (if p.0 == k {
            Some(p.1)
        } else {
            last_match(s, k)
        }),
        has_match(s.push(p), k) <==> (p.0 == k || has_match(s, k)),
{
    assert(s.push(p).drop_last() =~= s);
    assert(s.push(p).last() == p);
    if has_match(s, k) {
        let j = choose|j: int| 0 <= j < s.len() && s[j].0 == k;
        assert(s.push(p)[j].0 == k);
    }
    if has_match(s.push(p), k) && p.0 != k {
        let j = choose|j: int| 0 <= j < s.push(p).len() && s.push(p)[j].0 == k;
        assert(j < s.len());
        assert(s[j].0 == k);
    }
}

/// The scan finds a value exactly when some pair has the sought key.
pub proof fn lemma_last_match_has<KV, VV>(s: Seq<(KV, VV)>, k: KV)
    ensures
        last_match(s, k) is Some <==> has_match(s, k),
    decreases s.len(),
{
    if s.len() == 0 {
    } else {
        lemma_last_match_has(s.drop_last(), k);
        assert(s.drop_last().push(s.last()) =~= s);
        lemma_match_push(s.drop_last(), s.last(), k);
    }
}

/// The scan result over a concatenation: the right part wins when it has
/// a match, and the left part decides otherwise.
pub proof fn lemma_match_append<KV, VV>(s: Seq<(KV, VV)>, t: Seq<(KV, VV)>, k: KV)
    ensures
        last_match(s + t, k) == (if has_match(t, k) {
            last_match(t, k)
        } else {
            last_match(s, k)
        }),
        has_match(s + t, k) <==> (has_match(s, k) || has_match(t, k)),
    decreases t.len(),
{
    if t.len() == 0 {
        assert(s + t =~= s);
        lemma_last_match_has(t, k);
    } else {
        lemma_match_append(s, t.drop_last(), k);
        assert(s + t =~= (s + t.drop_last()).push(t.last()));
        assert(t.drop_last().push(t.last()) =~= t);
        lemma_match_push(s + t.drop_last(), t.last(), k);
        lemma_match_push(t.drop_last(), t.last(), k);
    }
}

/// A concatenation of chains without a match has no match.
pub proof fn lemma_flat_range_no_match<KV, VV>(t: Seq<Seq<(KV, VV)>>, a: int, b: int, k: KV)
    requires
        forall|i: int| a <= i < b ==> !has_match(#[trigger] t[i], k),
    ensures
        !has_match(flat_range(t, a, b), k),
    decreases b - a,
{
    if a < b {
        lemma_flat_range_no_match(t, a, b - 1, k);
        lemma_match_append(flat_range(t, a, b - 1), t[b - 1], k);
    }
}

/// With pairwise-distinct keys, the scan observes every pair: looking up
/// the key of the pair at `i` finds exactly that pair's value.
pub proof fn lemma_last_match_distinct<KV, VV>(s: Seq<(KV, VV)>, i: int)
    requires
        0 <= i < s.len(),
        forall|j: int, l: int| 0 <= j < l < s.len() ==> s[j].0 != s[l].0,
    ensures
        last_match(s, s[i].0) == Some(s[i].1),
    decreases s.len(),
{
    if i == s.len() - 1 {
        assert(s.last() == s[i]);
    } else {
        assert(s.last().0 != s[i].0);
        assert forall|j: int, l: int|
            0 <= j < l < s.drop_last().len() implies s.drop_last()[j].0 != s.drop_last()[l].0 by {
            assert(s.drop_last()[j] == s[j]);
            assert(s.drop_last()[l] == s[l]);
        }
        lemma_last_match_distinct(s.drop_last(), i);
        assert(s.drop_last()[i] == s[i]);
    }
}

/// Removing the entry at `i` by swapping the last entry into its place
/// takes exactly that entry out of the chain's multiset.
pub proof fn lemma_swap_remove_multiset<T>(s: Seq<T>, i: int)
    requires
        0 <= i < s.len(),
    ensures
        s.update(i, s.last()).drop_last().to_multiset() == s.to_multiset().remove(s[i]),
{
    let s2 = s.update(i, s.last());
    assert(s2.to_multiset() == s.to_multiset().remove(s[i]).insert(s.last()));
    assert(s2.drop_last().push(s2.last()) =~= s2);
    assert(s2.drop_last().push(s2.last()).to_multiset() == s2.drop_last().to_multiset().insert(
        s2.last(),
    ));
    assert(s2.last() == s.last());
    assert(s2.drop_last().to_multiset() =~= s2.to_multiset().remove(s.last()));
    assert(s2.to_multiset().remove(s.last()) =~= s.to_multiset().remove(s[i]));
}

impl<K: Hashable + Equatable + Duplicable, V: Duplicable> HashTable<K, V> {
    /// The chain at bucket `i`; an absent bucket is the empty chain.
    pub open spec fn chain(self, i: int) -> Seq<Data<K, V>> {
        match self.table@[i] {
            Some(v) => v@,
            None => Seq::empty(),
        }
    }

    /// All chains, by views, in bucket order.
    pub open spec fn pair_chains(self) -> Seq<Seq<(K::V, V::V)>> {
        Seq::new(self.table@.len() as nat, |i: int| view_pairs(self.chain(i)))
    }

    /// Every stored (key, value) pair, by view, in bucket-then-chain order.
    pub open spec fn all_pairs(self) -> Seq<(K::V, V::V)> {
        flat_range(self.pair_chains(), 0, self.table@.len() as int)
    }

    /// Compression: a raw hash addresses the bucket `hash mod capacity`.
    pub open spec fn spec_compress(self, h: u32) -> int {
        (h as int) % (self.capacity as int)
    }

    /// The bucket the key `k` is addressed to.
    pub open spec fn bucket_of(self, k: K) -> int {
        self.spec_compress(k.hash_spec())
    }

    /// What a lookup of `k` observes: the value view of the last entry in
    /// `k`'s chain whose key view equals `k`'s.
    pub open spec fn spec_get(self, k: K) -> Option<V::V> {
        last_match(view_pairs(self.chain(self.bucket_of(k))), k@)
    }

    /// Whether any stored entry's key view equals `k`'s.
    pub open spec fn has_key(self, k: K) -> bool {
        has_match(view_pairs(self.chain(self.bucket_of(k))), k@)
    }

    /// Structural well-formedness: at least one bucket, one slot per
    /// bucket, a truthful entry count, every entry sitting in the bucket
    /// its key hashes to, and a bucket with no entries represented as
    /// absent, never as a present empty chain.
    pub open spec fn wf_core(self) -> bool {
        &&& self.capacity >= 1
        &&& self.table@.len() == self.capacity as int
        &&& self.size as int == self.all_pairs().len()
        &&& forall|i: int, j: int|
            #![trigger self.chain(i)[j]]
            0 <= i < self.table@.len() && 0 <= j < self.chain(i).len()
                ==> self.chain(i)[j].key.hash_spec() as int % (self.capacity as int) == i
        &&& forall|i: int|
            0 <= i < self.table@.len() ==> ((#[trigger] self.table@[i]) is Some ==> self.chain(
                i,
            ).len() >= 1)
    }

    /// Well-formed and under the load-factor bound: strictly fewer than
    /// three stored entries for every four buckets.
    pub open spec fn wf(self) -> bool {
        &&& self.wf_core()
        &&& 4 * (self.size as int) < 3 * (self.capacity as int)
    }

    /// Every bucket index a key can be addressed to is in range.
    proof fn lemma_bucket_in_range(self, k: K)
        requires
            self.capacity >= 1,
        ensures
            0 <= self.bucket_of(k) < self.capacity as int,
    {
        vstd::arithmetic::div_mod::lemma_mod_bound(
            k.hash_spec() as int,
            self.capacity as int,
        );
    }

    /// Entries in a chain other than `k`'s cannot carry `k`'s key view:
    /// view-equal keys hash alike, so they would sit in `k`'s chain.
    proof fn lemma_other_chain_no_match(self, k: K, i: int)
        requires
            self.wf_core(),
            0 <= i < self.table@.len(),
            i != self.bucket_of(k),
        ensures
            forall|j: int|
                0 <= j < self.chain(i).len() ==> (#[trigger] self.chain(i)[j]).key@ != k@,
            !has_match(view_pairs(self.chain(i)), k@),
    {
        assert forall|j: int|
            0 <= j < self.chain(i).len() implies (#[trigger] self.chain(i)[j]).key@ != k@ by {
            if self.chain(i)[j].key@ == k@ {
                K::hash_respects_view(self.chain(i)[j].key, k);
            }
        }
        assert(!has_match(view_pairs(self.chain(i)), k@)) by {
            if has_match(view_pairs(self.chain(i)), k@) {
                let j = choose|j: int|
                    0 <= j < view_pairs(self.chain(i)).len() && view_pairs(self.chain(i))[j].0
                        == k@;
                assert(self.chain(i)[j].key@ == k@);
            }
        }
    }

    /// Two tables that differ in one chain only differ in the stored
    /// pairs by exactly that chain's contribution.
    proof fn lemma_replace_chain(oldt: Self, newt: Self, b: int)
        requires
            newt.table@.len() == oldt.table@.len(),
            0 <= b < oldt.table@.len(),
            forall|i: int|
                0 <= i < oldt.table@.len() && i != b ==> newt.chain(i) == oldt.chain(i),
        ensures
            newt.all_pairs().len() == oldt.all_pairs().len() - oldt.chain(b).len() + newt.chain(
                b,
            ).len(),
    {
        let n = oldt.table@.len() as int;
        let pc_old = oldt.pair_chains();
        let pc_new = newt.pair_chains();
        assert forall|i: int| 0 <= i < n && i != b implies pc_new[i] == pc_old[i] by {
            assert(newt.chain(i) == oldt.chain(i));
        }
        lemma_flat_range_split(pc_old, 0, b, n);
        lemma_flat_range_split(pc_old, b, b + 1, n);
        lemma_flat_range_split(pc_new, 0, b, n);
        lemma_flat_range_split(pc_new, b, b + 1, n);
        lemma_flat_range_congruent(pc_old, pc_new, 0, b);
        lemma_flat_range_congruent(pc_old, pc_new, b + 1, n);
        lemma_flat_range_one(pc_old, b);
        lemma_flat_range_one(pc_new, b);
    }

    /// Create an empty table with the given number of buckets.
    pub fn new(capacity: u32) -> (r: Self)
        requires
            capacity >= 1,
        ensures
            r.wf(),
            r.capacity == capacity,
            r.size == 0,
            forall|i: int| 0 <= i < capacity as int ==> (#[trigger] r.table@[i]) is None,
            forall|i: int| 0 <= i < capacity as int ==> r.chain(i) == Seq::<Data<K, V>>::empty(),
            r.all_pairs() == Seq::<(K::V, V::V)>::empty(),
            forall|k: K| (#[trigger] r.spec_get(k)) is None && !r.has_key(k),
    {
        let mut table: Vec<Option<Vec<Data<K, V>>>> = Vec::with_capacity(capacity as usize);
        let mut i: u32 = 0;
        while i < capacity
            invariant
                i <= capacity,
                table@.len() == i as int,
                forall|j: int| 0 <= j < i as int ==> table@[j] is None,
            decreases capacity - i,
        {
            table.push(None);
            i = i + 1;
        }
        let r = HashTable { capacity, size: 0u32, table };
        proof {
            assert forall|i2: int| 0 <= i2 < capacity as int implies r.chain(i2)
                == Seq::<Data<K, V>>::empty() by {
                assert(r.table@[i2] is None);
            }
            assert forall|i2: int| 0 <= i2 < r.table@.len() implies r.pair_chains()[i2] == Seq::<
                (K::V, V::V),
            >::empty() by {
                assert(view_pairs(r.chain(i2)) =~= Seq::<(K::V, V::V)>::empty());
            }
            lemma_flat_range_empty(r.pair_chains(), 0, r.table@.len() as int);
            assert forall|k: K| (#[trigger] r.spec_get(k)) is None && !r.has_key(k) by {
                r.lemma_bucket_in_range(k);
                assert(r.chain(r.bucket_of(k)) == Seq::<Data<K, V>>::empty());
                assert(view_pairs(r.chain(r.bucket_of(k))) =~= Seq::<(K::V, V::V)>::empty());
                lemma_last_match_has(view_pairs(r.chain(r.bucket_of(k))), k@);
            }
        }
        r
    }

    /// Append one entry to the chain its key addresses, creating the chain
    /// if the bucket was absent.  No load-factor check happens here.
    fn place(&mut self, data: Data<K, V>)
        requires
            old(self).wf_core(),
            old(self).size < u32::MAX,
        ensures
            final(self).wf_core(),
            final(self).capacity == old(self).capacity,
            final(self).table@.len() == old(self).table@.len(),
            final(self).size == old(self).size + 1,
            final(self).chain(old(self).bucket_of(data.key)) == old(self).chain(
                old(self).bucket_of(data.key),
            ).push(data),
            forall|i: int|
                0 <= i < old(self).table@.len() && i != old(self).bucket_of(data.key)
                    ==> final(self).chain(i) == old(self).chain(i),
            forall|k: K|
                #[trigger] final(self).spec_get(k) == (if k@ == data.key@ {
                    Some(data.value@)
                } else {
                    old(self).spec_get(k)
                }),
            forall|k: K|
                #[trigger] final(self).has_key(k) <==> (k@ == data.key@ || old(self).has_key(k)),
            final(self).all_pairs().to_multiset() == old(self).all_pairs().to_multiset().insert(
                data@,
            ),
    {
        let ghost oldt = *self;
        let ghost d = data;
        let index = self.compress(data.key.hash());
        let ghost b = index as int;
        let chain_opt = self.table[index].take();
        match chain_opt {
            Some(mut v) => {
                v.push(data);
                self.table[index] = Some(v);
            },
            None => {
                let mut v: Vec<Data<K, V>> = Vec::new();
                v.push(data);
                self.table[index] = Some(v);
            },
        }
        self.size = self.size + 1;
        proof {
            let n = oldt.table@.len() as int;
            let c_old = oldt.chain(b);
            let c_new = self.chain(b);
            assert(c_new =~= c_old.push(d));
            assert forall|i: int|
                0 <= i < n && i != b implies self.chain(i) == oldt.chain(i) by {
                assert(self.table@[i] == oldt.table@[i]);
            }
            let pc_old = oldt.pair_chains();
            let pc_new = self.pair_chains();
            assert(view_pairs(c_new) =~= view_pairs(c_old).push(d@));
            assert forall|i: int| 0 <= i < n && i != b implies pc_new[i] == pc_old[i] by {
                assert(self.chain(i) == oldt.chain(i));
            }
            lemma_flat_range_split(pc_old, 0, b, n);
            lemma_flat_range_split(pc_old, b, b + 1, n);
            lemma_flat_range_split(pc_new, 0, b, n);
            lemma_flat_range_split(pc_new, b, b + 1, n);
            lemma_flat_range_congruent(pc_old, pc_new, 0, b);
            lemma_flat_range_congruent(pc_old, pc_new, b + 1, n);
            lemma_flat_range_one(pc_old, b);
            lemma_flat_range_one(pc_new, b);
            let pre = flat_range(pc_old, 0, b);
            let post = flat_range(pc_old, b + 1, n);
            assert(oldt.all_pairs() =~= pre + pc_old[b] + post);
            assert(self.all_pairs() =~= pre + pc_new[b] + post);
            assert(pc_new[b] == view_pairs(c_old).push(d@));
            assert(pc_old[b] == view_pairs(c_old));
            assert(self.all_pairs().len() == oldt.all_pairs().len() + 1);
            lemma_multiset_commutative(pre + pc_old[b], post);
            lemma_multiset_commutative(pre, pc_old[b]);
            lemma_multiset_commutative(pre + pc_new[b], post);
            lemma_multiset_commutative(pre, pc_new[b]);
            assert((pre + pc_old[b] + post).to_multiset() =~= (pre + pc_old[b]).to_multiset().add(
                post.to_multiset(),
            ));
            assert(pc_new[b].to_multiset() == pc_old[b].to_multiset().insert(d@));
            assert(self.all_pairs().to_multiset() =~= oldt.all_pairs().to_multiset().insert(d@));
            assert forall|i: int, j: int|
                #![trigger self.chain(i)[j]]
                0 <= i < self.table@.len() && 0 <= j < self.chain(i).len() implies self.chain(
                i,
            )[j].key.hash_spec() as int % (self.capacity as int) == i by {
                if i == b && j == c_old.len() {
                    assert(self.chain(i)[j] == d);
                } else if i == b {
                    assert(self.chain(i)[j] == oldt.chain(i)[j]);
                } else {
                    assert(self.chain(i)[j] == oldt.chain(i)[j]);
                }
            }
            assert forall|k: K|
                #[trigger] self.spec_get(k) == (if k@ == d.key@ {
                    Some(d.value@)
                } else {
                    oldt.spec_get(k)
                }) by {
                oldt.lemma_bucket_in_range(k);
                let bk = oldt.bucket_of(k);
                assert(self.bucket_of(k) == bk);
                if bk == b {
                    lemma_match_push(view_pairs(c_old), d@, k@);
                } else {
                    assert(self.chain(bk) == oldt.chain(bk));
                    if k@ == d.key@ {
                        K::hash_respects_view(k, d.key);
                        assert(false);
                    }
                }
            }
            assert forall|k: K|
                #[trigger] self.has_key(k) <==> (k@ == d.key@ || oldt.has_key(k)) by {
                oldt.lemma_bucket_in_range(k);
                let bk = oldt.bucket_of(k);
                assert(self.bucket_of(k) == bk);
                if bk == b {
                    lemma_match_push(view_pairs(c_old), d@, k@);
                } else {
                    assert(self.chain(bk) == oldt.chain(bk));
                    if k@ == d.key@ {
                        K::hash_respects_view(k, d.key);
                        assert(false);
                    }
                }
            }
        }
    }

    /// Look up a key.  Scans the chain the key is addressed to and returns
    /// the value of the last matching entry; with duplicate keys the most
    /// recently inserted match wins.  Fails with `KeyNotFound` when no
    /// entry's key matches.  Read-only: the table is not touched.
    pub fn get(&self, key: K) -> (r: Result<V, TableError>)
        requires
            self.wf(),
        ensures
            match r {
                Ok(v) => self.spec_get(key) == Some(v@),
                Err(e) => e == TableError::KeyNotFound && self.spec_get(key) is None
                    && !self.has_key(key),
            },
    {
        let index = self.compress(key.hash());
        let mut value: Option<V> = None;
        match &self.table[index] {
            Some(v) => {
                let ghost c = view_pairs(v@);
                let mut i: usize = 0;
                while i < v.len()
                    invariant
                        i <= v@.len(),
                        c == view_pairs(v@),
                        (match value {
                            Some(x) => Some(x@),
                            None => None::<V::V>,
                        }) == last_match(c.take(i as int), key@),
                    decreases v@.len() - i,
                {
                    proof {
                        assert(c.take(i + 1) =~= c.take(i as int).push(c[i as int]));
                        lemma_match_push(c.take(i as int), c[i as int], key@);
                    }
                    if key.equals(&v[i].key) {
                        value = Some(v[i].value.dup());
                    }
                    i = i + 1;
                }
                proof {
                    assert(c.take(v@.len() as int) =~= c);
                }
            },
            None => {
            },
        }
        proof {
            assert(index as int == self.bucket_of(key));
            lemma_last_match_has(view_pairs(self.chain(index as int)), key@);
        }
        match value {
            Some(x) => Ok(x),
            None => Err(TableError::KeyNotFound),
        }
    }

    /// Double the bucket array and re-insert every entry, re-hashed
    /// against the new capacity.  The new table is built fully and only
    /// then swapped in, so no partially resized state is ever observed.
    /// Chain order within a bucket is preserved for entries that share a
    /// key, so lookups observe the same value afterwards.
    fn resize(&mut self)
        requires
            old(self).wf_core(),
            2 * (old(self).capacity as int) <= u32::MAX as int,
            4 * (old(self).size as int) < 6 * (old(self).capacity as int),
        ensures
            final(self).wf(),
            final(self).capacity == 2 * old(self).capacity,
            final(self).size == old(self).size,
            forall|k: K| #[trigger] final(self).spec_get(k) == old(self).spec_get(k),
            forall|k: K| #[trigger] final(self).has_key(k) == old(self).has_key(k),
            final(self).all_pairs().to_multiset() == old(self).all_pairs().to_multiset(),
    {
        let new_capacity = self.capacity * 2;
        let mut fresh = Self::new(new_capacity);
        let ghost n = self.table@.len() as int;
        let mut b: usize = 0;
        while b < self.table.len()
            invariant
                *self == *old(self),
                self.wf_core(),
                2 * (self.capacity as int) <= u32::MAX as int,
                n == self.table@.len() as int,
                b <= n,
                fresh.wf_core(),
                fresh.capacity as int == 2 * self.capacity as int,
                fresh.size as int == flat_range(self.pair_chains(), 0, b as int).len(),
                fresh.all_pairs().to_multiset() == flat_range(
                    self.pair_chains(),
                    0,
                    b as int,
                ).to_multiset(),
                forall|k: K|
                    self.bucket_of(k) < b as int ==> #[trigger] fresh.spec_get(k)
                        == self.spec_get(k),
                forall|k: K|
                    self.bucket_of(k) < b as int ==> (#[trigger] fresh.has_key(k)) == self.has_key(
                    k,
                ),
                forall|k: K|
                    self.bucket_of(k) >= b as int ==> (#[trigger] fresh.spec_get(k)) is None,
                forall|k: K| self.bucket_of(k) >= b as int ==> !(#[trigger] fresh.has_key(k)),
            decreases n - b,
        {
            let ghost pc = self.pair_chains();
            proof {
                lemma_flat_range_split(pc, 0, b as int, n);
                lemma_flat_range_split(pc, b as int, b as int + 1, n);
                lemma_flat_range_one(pc, b as int);
                assert(self.all_pairs().len() == flat_range(pc, 0, b as int).len() + pc[b as int].len()
                    + flat_range(pc, b as int + 1, n).len());
            }
            match &self.table[b] {
                Some(v) => {
                    let ghost cb = view_pairs(v@);
                    proof {
                        assert(v@ == self.chain(b as int));
                        assert(pc[b as int] == cb);
                    }
                    let mut j: usize = 0;
                    while j < v.len()
                        invariant
                            *self == *old(self),
                            self.wf_core(),
                            2 * (self.capacity as int) <= u32::MAX as int,
                            n == self.table@.len() as int,
                            b < n,
                            pc == self.pair_chains(),
                            v@ == self.chain(b as int),
                            cb == view_pairs(v@),
                            pc[b as int] == cb,
                            j <= v@.len(),
                            fresh.wf_core(),
                            fresh.capacity as int == 2 * self.capacity as int,
                            fresh.size as int == flat_range(pc, 0, b as int).len() + j as int,
                            fresh.all_pairs().to_multiset() == (flat_range(pc, 0, b as int)
                                + cb.take(j as int)).to_multiset(),
                            forall|k: K|
                                self.bucket_of(k) < b as int ==> #[trigger] fresh.spec_get(k)
                                    == self.spec_get(k),
                            forall|k: K|
                                self.bucket_of(k) < b as int ==> (#[trigger] fresh.has_key(k))
                                    == self.has_key(k),
                            forall|k: K|
                                self.bucket_of(k) == b as int ==> #[trigger] fresh.spec_get(k)
                                    == last_match(cb.take(j as int), k@),
                            forall|k: K|
                                self.bucket_of(k) == b as int ==> (#[trigger] fresh.has_key(k))
                                    == has_match(cb.take(j as int), k@),
                            forall|k: K|
                                self.bucket_of(k) > b as int ==> (#[trigger] fresh.spec_get(
                                    k,
                                )) is None,
                            forall|k: K|
                                self.bucket_of(k) > b as int ==> !(#[trigger] fresh.has_key(k)),
                        decreases v@.len() - j,
                    {
                        proof {
                            lemma_flat_range_split(pc, 0, b as int, n);
                            lemma_flat_range_split(pc, b as int, b as int + 1, n);
                            lemma_flat_range_one(pc, b as int);
                            assert(self.all_pairs().len() == flat_range(pc, 0, b as int).len()
                                + cb.len() + flat_range(pc, b as int + 1, n).len());
                            assert(fresh.size < u32::MAX);
                        }
                        let ghost fresh0 = fresh;
                        let d = v[j].dup();
                        proof {
                            assert(d@ == v@[j as int]@);
                            assert(cb[j as int] == v@[j as int]@);
                        }
                        fresh.place(d);
                        proof {
                            assert(cb.take(j as int + 1) =~= cb.take(j as int).push(
                                cb[j as int],
                            ));
                            assert((flat_range(pc, 0, b as int) + cb.take(j as int + 1)) =~= (
                            flat_range(pc, 0, b as int) + cb.take(j as int)).push(cb[j as int]));
                            assert(fresh.all_pairs().to_multiset() == (flat_range(pc, 0, b as int)
                                + cb.take(j as int + 1)).to_multiset());
                            assert forall|k: K|
                                self.bucket_of(k) == b as int implies #[trigger] fresh.spec_get(k)
                                == last_match(cb.take(j as int + 1), k@) by {
                                lemma_match_push(cb.take(j as int), cb[j as int], k@);
                            }
                            assert forall|k: K|
                                self.bucket_of(k) == b as int implies (#[trigger] fresh.has_key(k))
                                == has_match(cb.take(j as int + 1), k@) by {
                                lemma_match_push(cb.take(j as int), cb[j as int], k@);
                            }
                            assert forall|k: K|
                                self.bucket_of(k) != b as int && (k@ == d.key@) implies false by {
                                K::hash_respects_view(k, v@[j as int].key);
                                assert(v@[j as int].key.hash_spec() as int % (self.capacity as int)
                                    == b as int);
                            }
                        }
                        j = j + 1;
                    }
                    proof {
                        assert(cb.take(v@.len() as int) =~= cb);
                        assert((flat_range(pc, 0, b as int) + cb) =~= flat_range(
                            pc,
                            0,
                            b as int + 1,
                        ));
                    }
                },
                None => {
                    proof {
                        assert(self.chain(b as int) =~= Seq::<Data<K, V>>::empty());
                        assert(pc[b as int] =~= Seq::<(K::V, V::V)>::empty());
                        assert(view_pairs(self.chain(b as int)) =~= Seq::<(K::V, V::V)>::empty());
                        assert((flat_range(pc, 0, b as int) + pc[b as int]) =~= flat_range(
                            pc,
                            0,
                            b as int + 1,
                        ));
                        assert(flat_range(pc, 0, b as int) =~= flat_range(pc, 0, b as int + 1));
                        assert forall|k: K|
                            self.bucket_of(k) == b as int implies (#[trigger] fresh.spec_get(
                            k,
                        )) == self.spec_get(k) && (fresh.has_key(k) == self.has_key(k)) by {
                            lemma_last_match_has(view_pairs(self.chain(b as int)), k@);
                            assert(!has_match(view_pairs(self.chain(b as int)), k@));
                        }
                    }
                },
            }
            b = b + 1;
        }
        proof {
            assert forall|k: K| self.bucket_of(k) < n by {
                self.lemma_bucket_in_range(k);
            }
            assert(fresh.size as int == self.all_pairs().len());
            assert(fresh.all_pairs().to_multiset() == self.all_pairs().to_multiset());
        }
        *self = fresh;
    }

    /// Whether storing one more entry reaches the load-factor threshold:
    /// at least three entries for every four buckets.
    pub open spec fn crosses_threshold(self) -> bool {
        4 * (self.size as int + 1) >= 3 * (self.capacity as int)
    }

    /// Whether the table could still double its bucket array.
    pub open spec fn can_grow(self) -> bool {
        2 * (self.capacity as int) <= u32::MAX as int
    }

    /// Insert an entry.  The entry is appended to the chain its key
    /// addresses; a key already present is not overwritten, the new entry
    /// simply becomes the last match.  When the insertion reaches the
    /// load-factor threshold the table resizes to twice the bucket count;
    /// if that doubling would overflow the bucket counter the insert fails
    /// with `ResizeFailure` and leaves the table untouched.
    pub fn insert(&mut self, data: Data<K, V>) -> (r: Result<(), TableError>)
        requires
            old(self).wf(),
        ensures
            final(self).wf(),
            match r {
                Ok(()) => {
                    &&& !(old(self).crosses_threshold() && !old(self).can_grow())
                    &&& final(self).size == old(self).size + 1
                    &&& final(self).capacity as int == (if old(self).crosses_threshold() {
                        2 * (old(self).capacity as int)
                    } else {
                        old(self).capacity as int
                    })
                    &&& forall|k: K|
                        #[trigger] final(self).spec_get(k) == (if k@ == data.key@ {
                            Some(data.value@)
                        } else {
                            old(self).spec_get(k)
                        })
                    &&& forall|k: K|
                        #[trigger] final(self).has_key(k) <==> (k@ == data.key@ || old(
                            self,
                        ).has_key(k))
                    &&& final(self).all_pairs().to_multiset() == old(
                        self,
                    ).all_pairs().to_multiset().insert(data@)
                    &&& !old(self).crosses_threshold() ==> {
                        &&& final(self).chain(old(self).bucket_of(data.key)) == old(self).chain(
                            old(self).bucket_of(data.key),
                        ).push(data)
                        &&& forall|i: int|
                            0 <= i < old(self).table@.len() && i != old(self).bucket_of(data.key)
                                ==> final(self).chain(i) == old(self).chain(i)
                    }
                },
                Err(e) => {
                    &&& e == TableError::ResizeFailure
                    &&& old(self).crosses_threshold() && !old(self).can_grow()
                    &&& final(self).size == old(self).size
                    &&& final(self).capacity == old(self).capacity
                    &&& final(self).table@ == old(self).table@
                },
            },
    {
        let crossing = 4 * (self.size as u64 + 1) >= 3 * (self.capacity as u64);
        if crossing && self.capacity > u32::MAX / 2 {
            return Err(TableError::ResizeFailure);
        }
        self.place(data);
        if crossing {
            proof {
                if self.capacity < 2 {
                    assert(old(self).size == 0);
                }
            }
            self.resize();
        }
        Ok(())
    }

    /// Delete a key: remove every entry in the addressed chain whose key
    /// matches, in one call.  A single-entry bucket is cleared to absent;
    /// a longer chain is scanned with swap-with-last removal, which may
    /// reorder the surviving entries, and a chain left without entries is
    /// cleared to absent as well.  Fails with `KeyNotFound`, leaving the
    /// table untouched, when no entry's key matches.  The entry count
    /// goes down by the number of entries removed.
    pub fn delete(&mut self, key: K) -> (r: Result<(), TableError>)
        requires
            old(self).wf(),
        ensures
            final(self).wf(),
            final(self).capacity == old(self).capacity,
            match r {
                Ok(()) => {
                    &&& old(self).has_key(key)
                    &&& !final(self).has_key(key)
                    &&& final(self).spec_get(key) is None
                    &&& forall|k2: K|
                        k2@ != key@ ==> ((#[trigger] final(self).has_key(k2)) <==> old(
                            self,
                        ).has_key(k2))
                    &&& forall|i: int|
                        0 <= i < old(self).table@.len() && i != old(self).bucket_of(key)
                            ==> (#[trigger] final(self).table@[i]) == old(self).table@[i]
                    &&& final(self).chain(old(self).bucket_of(key)).to_multiset() == old(
                        self,
                    ).chain(old(self).bucket_of(key)).to_multiset().filter(
                        |d: Data<K, V>| d.key@ != key@,
                    )
                    &&& (final(self).chain(old(self).bucket_of(key)).len() == 0
                        ==> (final(self).table@[old(self).bucket_of(key)] is None))
                    &&& final(self).size as int == old(self).size - (old(self).chain(
                        old(self).bucket_of(key),
                    ).len() - final(self).chain(old(self).bucket_of(key)).len())
                },
                Err(e) => {
                    &&& e == TableError::KeyNotFound
                    &&& !old(self).has_key(key)
                    &&& final(self).size == old(self).size
                    &&& final(self).table@ == old(self).table@
                },
            },
    {
        let ghost oldt = *self;
        let index = self.compress(key.hash());
        let ghost b = index as int;
        let ghost keep = |d: Data<K, V>| d.key@ != key@;
        let chain_opt = self.table[index].take();
        match chain_opt {
            None => {
                proof {
                    assert(self.table@ =~= oldt.table@);
                    assert(view_pairs(oldt.chain(b)) =~= Seq::<(K::V, V::V)>::empty());
                    Self::lemma_unchanged(oldt, *self);
                }
                Err(TableError::KeyNotFound)
            },
            Some(mut v) => {
                let ghost orig = v@;
                let ghost v0 = v;
                proof {
                    assert(orig == oldt.chain(b));
                    assert(oldt.table@[b] == Some(v0));
                }
                if v.len() == 1 {
                    if key.equals(&v[0].key) {
                        proof {
                            Self::lemma_chain_len_le_size(oldt, b);
                        }
                        self.size = self.size - 1;
                        proof {
                            let d0 = orig[0];
                            assert(view_pairs(orig)[0].0 == key@);
                            assert(self.chain(b) =~= Seq::<Data<K, V>>::empty());
                            assert(view_pairs(self.chain(b)) =~= Seq::<(K::V, V::V)>::empty());
                            assert forall|i: int|
                                0 <= i < oldt.table@.len() && i != b implies self.chain(i)
                                == oldt.chain(i) by {
                                assert(self.table@[i] == oldt.table@[i]);
                            }
                            Self::lemma_replace_chain(oldt, *self, b);
                            assert(orig =~= Seq::<Data<K, V>>::empty().push(d0));
                            assert(orig.to_multiset() =~= Multiset::<Data<K, V>>::empty().insert(
                                d0,
                            ));
                            assert(self.chain(b).to_multiset() =~= orig.to_multiset().filter(
                                keep,
                            ));
                            self.delete_postcondition_common(oldt, key, b, keep);
                            assert(self.table@[b] is None);
                            assert forall|i: int|
                                0 <= i < self.table@.len() implies ((
                            #[trigger] self.table@[i]) is Some ==> self.chain(i).len() >= 1) by {
                                if i != b {
                                    assert(self.table@[i] == oldt.table@[i]);
                                    assert(self.chain(i) == oldt.chain(i));
                                }
                            }
                        }
                        Ok(())
                    } else {
                        self.table[index] = Some(v);
                        proof {
                            assert(self.table@ =~= oldt.table@);
                            Self::lemma_unchanged(oldt, *self);
                            assert(view_pairs(orig)[0].0 != key@);
                            assert forall|j: int|
                                0 <= j < view_pairs(orig).len() implies view_pairs(orig)[j].0
                                != key@ by {
                                assert(j == 0);
                            }
                        }
                        Err(TableError::KeyNotFound)
                    }
                } else {
                    let mut removed: usize = 0;
                    let mut i: usize = 0;
                    while i < v.len()
                        invariant
                            removed as int + v@.len() == orig.len(),
                            orig.len() <= usize::MAX,
                            i <= v@.len(),
                            keep == (|d: Data<K, V>| d.key@ != key@),
                            forall|j: int| 0 <= j < i as int ==> (#[trigger] v@[j]).key@ != key@,
                            forall|x: Data<K, V>|
                                #[trigger] v@.to_multiset().count(x) <= orig.to_multiset().count(
                                    x,
                                ),
                            v@.to_multiset().filter(keep) == orig.to_multiset().filter(keep),
                            removed == 0 ==> v == v0,
                            removed > 0 ==> has_match(view_pairs(orig), key@),
                        decreases v@.len() - i,
                    {
                        if key.equals(&v[i].key) {
                            let ghost vpre = v@;
                            v.swap_remove(i);
                            removed = removed + 1;
                            proof {
                                assert(vpre.to_multiset().count(vpre[i as int]) > 0);
                                assert(orig.to_multiset().count(vpre[i as int]) > 0);
                                assert(orig.contains(vpre[i as int]));
                                let jw = choose|j: int|
                                    0 <= j < orig.len() && orig[j] == vpre[i as int];
                                assert(view_pairs(orig)[jw].0 == key@);
                                lemma_swap_remove_multiset(vpre, i as int);
                                assert(v@.to_multiset() =~= vpre.to_multiset().remove(
                                    vpre[i as int],
                                ));
                                assert(v@.to_multiset().filter(keep) =~= vpre.to_multiset().filter(
                                    keep,
                                ));
                            }
                        } else {
                            i = i + 1;
                        }
                    }
                    if removed > 0 {
                        proof {
                            assert(removed as int <= orig.len());
                            Self::lemma_chain_len_le_size(oldt, b);
                        }
                        self.size = self.size - (removed as u32);
                        let ghost vfinal = v@;
                        if v.is_empty() {
                            // every entry matched: the emptied bucket stays absent
                            proof {
                                assert(vfinal =~= Seq::<Data<K, V>>::empty());
                                assert(self.chain(b) == vfinal);
                                assert(self.table@[b] is None);
                            }
                        } else {
                            self.table[index] = Some(v);
                            proof {
                                assert(self.chain(b) == vfinal);
                                assert(vfinal.len() >= 1);
                            }
                        }
                        proof {
                            assert forall|i2: int|
                                0 <= i2 < oldt.table@.len() && i2 != b implies self.chain(i2)
                                == oldt.chain(i2) by {
                                assert(self.table@[i2] == oldt.table@[i2]);
                            }
                            Self::lemma_replace_chain(oldt, *self, b);
                            assert forall|x: Data<K, V>|
                                true implies #[trigger] self.chain(b).to_multiset().count(x)
                                == orig.to_multiset().filter(keep).count(x) by {
                                if keep(x) {
                                    assert(vfinal.to_multiset().filter(keep).count(x)
                                        == vfinal.to_multiset().count(x));
                                } else {
                                    if vfinal.to_multiset().count(x) > 0 {
                                        assert(vfinal.contains(x));
                                        let jx = choose|j: int|
                                            0 <= j < vfinal.len() && vfinal[j] == x;
                                        assert(vfinal[jx].key@ != key@);
                                        assert(false);
                                    }
                                }
                            }
                            assert(self.chain(b).to_multiset() =~= orig.to_multiset().filter(
                                keep,
                            ));
                            self.delete_postcondition_common(oldt, key, b, keep);
                            assert forall|i2: int|
                                0 <= i2 < self.table@.len() implies ((
                            #[trigger] self.table@[i2]) is Some ==> self.chain(i2).len() >= 1) by {
                                if i2 != b {
                                    assert(self.table@[i2] == oldt.table@[i2]);
                                    assert(self.chain(i2) == oldt.chain(i2));
                                }
                            }
                        }
                        Ok(())
                    } else {
                        proof {
                            assert(v == v0);
                        }
                        self.table[index] = Some(v);
                        proof {
                            assert(self.table@ =~= oldt.table@);
                            Self::lemma_unchanged(oldt, *self);
                            assert forall|j: int|
                                0 <= j < view_pairs(orig).len() implies view_pairs(orig)[j].0
                                != key@ by {
                                assert(orig[j].key@ != key@);
                            }
                        }
                        Err(TableError::KeyNotFound)
                    }
                }
            },
        }
    }

    /// A table whose chains, size and capacity agree with a well-formed
    /// one is well-formed itself and stores the same pairs.
    proof fn lemma_unchanged(oldt: Self, newt: Self)
        requires
            oldt.wf(),
            newt.capacity == oldt.capacity,
            newt.size == oldt.size,
            newt.table@ == oldt.table@,
        ensures
            newt.wf(),
            newt.all_pairs() == oldt.all_pairs(),
    {
        assert forall|i: int| 0 <= i < oldt.table@.len() implies newt.chain(i) == oldt.chain(
            i,
        ) by {
            assert(newt.table@[i] == oldt.table@[i]);
        }
        assert(newt.pair_chains() =~= oldt.pair_chains());
        assert forall|i: int, j: int|
            #![trigger newt.chain(i)[j]]
            0 <= i < newt.table@.len() && 0 <= j < newt.chain(i).len() implies newt.chain(
            i,
        )[j].key.hash_spec() as int % (newt.capacity as int) == i by {
            assert(newt.chain(i) == oldt.chain(i));
            assert(oldt.chain(i)[j].key.hash_spec() as int % (oldt.capacity as int) == i);
        }
        assert forall|i: int|
            0 <= i < newt.table@.len() implies ((#[trigger] newt.table@[i]) is Some
            ==> newt.chain(i).len() >= 1) by {
            assert(newt.table@[i] == oldt.table@[i]);
            assert(newt.chain(i) == oldt.chain(i));
        }
    }

    /// A chain never holds more entries than the whole table.
    proof fn lemma_chain_len_le_size(t: Self, b: int)
        requires
            t.wf_core(),
            0 <= b < t.table@.len(),
        ensures
            t.chain(b).len() <= t.size,
    {
        let n = t.table@.len() as int;
        let pc = t.pair_chains();
        lemma_flat_range_split(pc, 0, b, n);
        lemma_flat_range_split(pc, b, b + 1, n);
        lemma_flat_range_one(pc, b);
    }

    /// The shared tail of `delete`'s success proof: with the addressed
    /// chain's matches gone and every other chain untouched, the lookup
    /// facts and the placement invariant follow.
    proof fn delete_postcondition_common(
        self,
        oldt: Self,
        key: K,
        b: int,
        keep: spec_fn(Data<K, V>) -> bool,
    )
        requires
            oldt.wf_core(),
            keep == (|d: Data<K, V>| d.key@ != key@),
            b == oldt.bucket_of(key),
            0 <= b < oldt.table@.len(),
            self.capacity == oldt.capacity,
            self.table@.len() == oldt.table@.len(),
            forall|i: int|
                0 <= i < oldt.table@.len() && i != b ==> self.chain(i) == oldt.chain(i),
            self.chain(b).to_multiset() == oldt.chain(b).to_multiset().filter(keep),
            forall|j: int|
                0 <= j < self.chain(b).len() ==> (#[trigger] self.chain(b)[j]).key@ != key@,
        ensures
            !self.has_key(key),
            self.spec_get(key) is None,
            forall|k2: K|
                k2@ != key@ ==> ((#[trigger] self.has_key(k2)) <==> oldt.has_key(k2)),
            forall|i: int, j: int|
                #![trigger self.chain(i)[j]]
                0 <= i < self.table@.len() && 0 <= j < self.chain(i).len() ==> self.chain(
                    i,
                )[j].key.hash_spec() as int % (self.capacity as int) == i,
    {
        assert(self.bucket_of(key) == b);
        assert(!self.has_key(key)) by {
            if has_match(view_pairs(self.chain(b)), key@) {
                let j = choose|j: int|
                    0 <= j < view_pairs(self.chain(b)).len() && view_pairs(self.chain(b))[j].0
                        == key@;
                assert(self.chain(b)[j].key@ == key@);
            }
        }
        lemma_last_match_has(view_pairs(self.chain(b)), key@);
        assert forall|k2: K|
            k2@ != key@ implies ((#[trigger] self.has_key(k2)) <==> oldt.has_key(k2)) by {
            oldt.lemma_bucket_in_range(k2);
            let bk = oldt.bucket_of(k2);
            assert(self.bucket_of(k2) == bk);
            if bk == b {
                if self.has_key(k2) {
                    let j = choose|j: int|
                        0 <= j < view_pairs(self.chain(b)).len() && view_pairs(self.chain(b))[j].0
                            == k2@;
                    let x = self.chain(b)[j];
                    assert(self.chain(b).contains(x));
                    assert(self.chain(b).to_multiset().count(x) > 0);
                    assert(oldt.chain(b).to_multiset().count(x) > 0);
                    assert(oldt.chain(b).contains(x));
                    let j2 = choose|j2: int|
                        0 <= j2 < oldt.chain(b).len() && oldt.chain(b)[j2] == x;
                    assert(view_pairs(oldt.chain(b))[j2].0 == k2@);
                }
                if oldt.has_key(k2) {
                    let j = choose|j: int|
                        0 <= j < view_pairs(oldt.chain(b)).len() && view_pairs(
                            oldt.chain(b),
                        )[j].0 == k2@;
                    let x = oldt.chain(b)[j];
                    assert(oldt.chain(b).contains(x));
                    assert(oldt.chain(b).to_multiset().count(x) > 0);
                    assert(keep(x));
                    assert(self.chain(b).to_multiset().count(x) > 0);
                    assert(self.chain(b).contains(x));
                    let j2 = choose|j2: int|
                        0 <= j2 < self.chain(b).len() && self.chain(b)[j2] == x;
                    assert(view_pairs(self.chain(b))[j2].0 == k2@);
                }
            } else {
                assert(self.chain(bk) == oldt.chain(bk));
            }
        }
        assert forall|i: int, j: int|
            #![trigger self.chain(i)[j]]
            0 <= i < self.table@.len() && 0 <= j < self.chain(i).len() implies self.chain(
            i,
        )[j].key.hash_spec() as int % (self.capacity as int) == i by {
            if i == b {
                let x = self.chain(b)[j];
                assert(self.chain(b).contains(x));
                assert(self.chain(b).to_multiset().count(x) > 0);
                assert(oldt.chain(b).to_multiset().count(x) > 0);
                assert(oldt.chain(b).contains(x));
                let j2 = choose|j2: int| 0 <= j2 < oldt.chain(b).len() && oldt.chain(b)[j2] == x;
                assert(oldt.chain(b)[j2].key.hash_spec() as int % (oldt.capacity as int) == b);
            } else {
                assert(self.chain(i)[j] == oldt.chain(i)[j]);
            }
        }
    }

    /// Enumerate every stored entry, in bucket-then-chain order: the
    /// full-table scan used to dump or serialize the contents.  Each entry
    /// comes out duplicated; the table itself is untouched.  The result
    /// lists, by views, exactly the stored pairs — every present entry
    /// once, and nothing else.
    pub fn entries(&self) -> (r: Vec<Data<K, V>>)
        requires
            self.wf(),
        ensures
            view_pairs(r@) == self.all_pairs(),
            r@.len() == self.size as int,
    {
        let ghost pc = self.pair_chains();
        let ghost n = self.table@.len() as int;
        let mut out: Vec<Data<K, V>> = Vec::new();
        proof {
            assert(view_pairs(out@) =~= flat_range(pc, 0, 0));
        }
        let mut b: usize = 0;
        while b < self.table.len()
            invariant
                b <= n,
                n == self.table@.len() as int,
                pc == self.pair_chains(),
                view_pairs(out@) == flat_range(pc, 0, b as int),
            decreases n - b,
        {
            match &self.table[b] {
                Some(v) => {
                    let ghost cb = view_pairs(v@);
                    proof {
                        assert(v@ == self.chain(b as int));
                        assert(pc[b as int] == cb);
                    }
                    let mut j: usize = 0;
                    while j < v.len()
                        invariant
                            b < n,
                            n == self.table@.len() as int,
                            pc == self.pair_chains(),
                            v@ == self.chain(b as int),
                            cb == view_pairs(v@),
                            pc[b as int] == cb,
                            j <= v@.len(),
                            view_pairs(out@) == flat_range(pc, 0, b as int) + cb.take(j as int),
                        decreases v@.len() - j,
                    {
                        let d = v[j].dup();
                        proof {
                            assert(d@ == v@[j as int]@);
                            assert(cb[j as int] == v@[j as int]@);
                            assert(view_pairs(out@.push(d)) =~= view_pairs(out@).push(d@));
                            assert(cb.take(j as int + 1) =~= cb.take(j as int).push(
                                cb[j as int],
                            ));
                            assert(view_pairs(out@).push(d@) =~= flat_range(pc, 0, b as int)
                                + cb.take(j as int + 1));
                        }
                        out.push(d);
                        j = j + 1;
                    }
                    proof {
                        assert(cb.take(v@.len() as int) =~= cb);
                        lemma_flat_range_split(pc, 0, b as int, b as int + 1);
                        lemma_flat_range_one(pc, b as int);
                        assert(flat_range(pc, 0, b as int) + cb =~= flat_range(
                            pc,
                            0,
                            b as int + 1,
                        ));
                    }
                },
                None => {
                    proof {
                        assert(pc[b as int] =~= Seq::<(K::V, V::V)>::empty());
                        lemma_flat_range_split(pc, 0, b as int, b as int + 1);
                        lemma_flat_range_one(pc, b as int);
                        assert(flat_range(pc, 0, b as int) =~= flat_range(pc, 0, b as int + 1));
                    }
                },
            }
            b = b + 1;
        }
        proof {
            assert(view_pairs(out@).len() == out@.len());
        }
        out
    }

    /// Enumeration completeness, as a law: what a lookup observes is
    /// exactly the scan of every stored pair in enumeration order.  A key
    /// is reachable exactly when the enumerated pairs carry its view, and
    /// the value observed is the last matching enumerated pair's.  So the
    /// enumeration holds every live entry and nothing else.
    pub proof fn lemma_lookup_agrees_with_enumeration(t: Self, k: K)
        requires
            t.wf(),
        ensures
            t.spec_get(k) == last_match(t.all_pairs(), k@),
            t.has_key(k) <==> has_match(t.all_pairs(), k@),
    {
        let n = t.table@.len() as int;
        let pc = t.pair_chains();
        t.lemma_bucket_in_range(k);
        let b = t.bucket_of(k);
        assert forall|i: int| 0 <= i < n && i != b implies !has_match(#[trigger] pc[i], k@) by {
            t.lemma_other_chain_no_match(k, i);
        }
        lemma_flat_range_split(pc, 0, b, n);
        lemma_flat_range_split(pc, b, b + 1, n);
        lemma_flat_range_one(pc, b);
        lemma_flat_range_no_match(pc, 0, b, k@);
        lemma_flat_range_no_match(pc, b + 1, n, k@);
        let pre = flat_range(pc, 0, b);
        let mid = pc[b];
        let post = flat_range(pc, b + 1, n);
        assert(t.all_pairs() == pre + (mid + post));
        lemma_match_append(mid, post, k@);
        lemma_match_append(pre, mid + post, k@);
        lemma_last_match_has(pre, k@);
        lemma_last_match_has(mid, k@);
    }

    /// Round-trip under unique keys, as a law: in a table whose stored
    /// pairs carry pairwise-distinct key views — the state any sequence
    /// of insertions with unique keys leaves behind — looking up the key
    /// of any stored pair observes exactly that pair's value.
    pub proof fn lemma_unique_keys_round_trip(t: Self, k: K, i: int)
        requires
            t.wf(),
            forall|j: int, l: int|
                0 <= j < l < t.all_pairs().len() ==> t.all_pairs()[j].0 != t.all_pairs()[l].0,
            0 <= i < t.all_pairs().len(),
            t.all_pairs()[i].0 == k@,
        ensures
            t.spec_get(k) == Some(t.all_pairs()[i].1),
            t.has_key(k),
    {
        Self::lemma_lookup_agrees_with_enumeration(t, k);
        lemma_last_match_distinct(t.all_pairs(), i);
        lemma_last_match_has(t.all_pairs(), k@);
    }

    /// Missing key, as a law: a key whose view no stored pair carries —
    /// one never inserted, or deleted since — is unreachable, so a lookup
    /// or delete of it fails with `KeyNotFound` by their contracts.
    pub proof fn lemma_missing_key_unreachable(t: Self, k: K)
        requires
            t.wf(),
            !has_match(t.all_pairs(), k@),
        ensures
            !t.has_key(k),
            t.spec_get(k) is None,
    {
        Self::lemma_lookup_agrees_with_enumeration(t, k);
        lemma_last_match_has(t.all_pairs(), k@);
    }

    /// Map a raw hash to a bucket index by modulo compression.
    fn compress(&self, hash: u32) -> (r: usize)
        requires
            self.capacity >= 1,
        ensures
            r as int == self.spec_compress(hash),
            r < self.capacity as usize,
    {
        (hash % self.capacity) as usize
    }
}

} // verus!
