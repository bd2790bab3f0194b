//! Association maps used by the ledger.
//!
//! Each map is a vector of key/value pairs with pairwise-distinct keys; its
//! mathematical meaning is a `Map` from the keys' views to the values.
//! Lookups are linear scans, which keeps the representation simple and the
//! contracts exact.

use vstd::prelude::*;

verus! {

/// A key that can stand in a ledger map: it has a mathematical view and an
/// executable equality that decides equality of the views.
pub trait LedgerKey: Sized {
    /// The mathematical value the key stands for.
    type Abs;

    /// The view of the key.
    spec fn abs(&self) -> Self::Abs;

    /// Decides whether two keys have the same view.
    fn key_eq(&self, other: &Self) -> (r: bool)
        ensures
            r == (self.abs() == other.abs()),
    ;
}

impl LedgerKey for String {
    type Abs = Seq<char>;

    open spec fn abs(&self) -> Seq<char> {
        self@
    }

    fn key_eq(&self, other: &Self) -> (r: bool) {
        *self == *other
    }
}

impl LedgerKey for u128 {
    type Abs = u128;

    open spec fn abs(&self) -> u128 {
        *self
    }

    fn key_eq(&self, other: &Self) -> (r: bool) {
        *self == *other
    }
}

/// An (owner, grantee) address pair, the key of the allowance and operator
/// tables.
pub struct AddrPair {
    pub owner: String,
    pub grantee: String,
}

impl LedgerKey for AddrPair {
    type Abs = (Seq<char>, Seq<char>);

    open spec fn abs(&self) -> (Seq<char>, Seq<char>) {
        (self.owner@, self.grantee@)
    }

    fn key_eq(&self, other: &Self) -> (r: bool) {
        self.owner == other.owner && self.grantee == other.grantee
    }
}

/// The mathematical meaning of a pair sequence: later pairs win, though with
/// distinct keys every occurrence agrees.
pub open spec fn pairs_to_map<K: LedgerKey, V>(s: Seq<(K, V)>) -> Map<K::Abs, V>
    decreases s.len(),
{
    if s.len() == 0 {
        Map::empty()
    } else {
        pairs_to_map(s.drop_last()).insert(s.last().0.abs(), s.last().1)
    }
}

/// No two pairs share a key view.
pub open spec fn pairs_distinct<K: LedgerKey, V>(s: Seq<(K, V)>) -> bool {
    forall|i: int, j: int|
        0 <= i < j < s.len() ==> (#[trigger] s[i]).0.abs() != (#[trigger] s[j]).0.abs()
}

/// The domain of the map is exactly the set of key views in the sequence.
pub proof fn lemma_pairs_to_map_dom<K: LedgerKey, V>(s: Seq<(K, V)>)
    ensures
        forall|k: K::Abs|
            pairs_to_map(s).contains_key(k) <==> exists|i: int|
                0 <= i < s.len() && (#[trigger] s[i]).0.abs() == k,
    decreases s.len(),
{
    if s.len() > 0 {
        let t = s.drop_last();
        lemma_pairs_to_map_dom(t);
        assert forall|k: K::Abs| pairs_to_map(s).contains_key(k) implies exists|i: int|
            0 <= i < s.len() && (#[trigger] s[i]).0.abs() == k by {
            if k == s.last().0.abs() {
                assert(s[s.len() - 1].0.abs() == k);
            } else {
                assert(pairs_to_map(t).contains_key(k));
                let i = choose|i: int| 0 <= i < t.len() && (#[trigger] t[i]).0.abs() == k;
                assert(s[i] == t[i]);
                assert(s[i].0.abs() == k);
            }
        }
        assert forall|k: K::Abs|
            (exists|i: int| 0 <= i < s.len() && (#[trigger] s[i]).0.abs() == k) implies pairs_to_map(
            s,
        ).contains_key(k) by {
            let i = choose|i: int| 0 <= i < s.len() && (#[trigger] s[i]).0.abs() == k;
            if i < s.len() - 1 {
                assert(t[i] == s[i]);
                assert(t[i].0.abs() == k);
                assert(pairs_to_map(t).contains_key(k));
            }
        }
    }
}

/// With distinct keys, each pair gives the value the map takes at its key.
pub proof fn lemma_pairs_to_map_index<K: LedgerKey, V>(s: Seq<(K, V)>, i: int)
    requires
        pairs_distinct(s),
        0 <= i < s.len(),
    ensures
        pairs_to_map(s).contains_key(s[i].0.abs()),
        pairs_to_map(s)[s[i].0.abs()] == s[i].1,
    decreases s.len(),
{
    if i == s.len() - 1 {
    } else {
        assert(pairs_distinct(s.drop_last())) by {
            assert(forall|x: int, y: int|
                0 <= x < y < s.drop_last().len() ==> (#[trigger] s.drop_last()[x]).0.abs() != (
                #[trigger] s.drop_last()[y]).0.abs());
        }
        lemma_pairs_to_map_index(s.drop_last(), i);
        assert(s[i].0.abs() != s.last().0.abs());
        assert(s.drop_last()[i] == s[i]);
    }
}

/// Overwriting the pair at a key's index updates the map at that key.
pub proof fn lemma_view_update<K: LedgerKey, V>(s0: Seq<(K, V)>, i: int, p: (K, V))
    requires
        pairs_distinct(s0),
        0 <= i < s0.len(),
        s0[i].0.abs() == p.0.abs(),
    ensures
        pairs_distinct(s0.update(i, p)),
        pairs_to_map(s0.update(i, p)) == pairs_to_map(s0).insert(p.0.abs(), p.1),
{
    let s1 = s0.update(i, p);
    let kabs = p.0.abs();
    lemma_pairs_to_map_dom::<K, V>(s0);
    assert forall|x: int, y: int| 0 <= x < y < s1.len() implies (#[trigger] s1[x]).0.abs() != (
    #[trigger] s1[y]).0.abs() by {
        assert(s0[x].0.abs() != s0[y].0.abs());
    }
    lemma_pairs_to_map_dom::<K, V>(s1);
    assert forall|kk: K::Abs| #[trigger]
        pairs_to_map(s1).contains_key(kk) == pairs_to_map(s0).insert(kabs, p.1).contains_key(
            kk,
        ) by {
        if pairs_to_map(s1).contains_key(kk) {
            let x = choose|x: int| 0 <= x < s1.len() && (#[trigger] s1[x]).0.abs() == kk;
            if x == i {
                assert(kk == kabs);
            } else {
                assert(s0[x].0.abs() == kk);
            }
        }
        if pairs_to_map(s0).insert(kabs, p.1).contains_key(kk) {
            if kk == kabs {
                assert(s1[i].0.abs() == kk);
            } else {
                let x = choose|x: int| 0 <= x < s0.len() && (#[trigger] s0[x]).0.abs() == kk;
                assert(s1[x].0.abs() == kk);
            }
        }
    }
    assert forall|kk: K::Abs| pairs_to_map(s1).contains_key(kk) implies #[trigger] pairs_to_map(
        s1,
    )[kk] == pairs_to_map(s0).insert(kabs, p.1)[kk] by {
        let x = choose|x: int| 0 <= x < s1.len() && (#[trigger] s1[x]).0.abs() == kk;
        lemma_pairs_to_map_index(s1, x);
        if s1[x].0.abs() == kabs {
            lemma_pairs_to_map_index(s1, i);
        } else {
            assert(x != i);
            lemma_pairs_to_map_index(s0, x);
        }
    }
    assert(pairs_to_map(s1) =~= pairs_to_map(s0).insert(kabs, p.1));
}

/// Appending a pair with a fresh key adds a binding.
pub proof fn lemma_view_push<K: LedgerKey, V>(s0: Seq<(K, V)>, p: (K, V))
    requires
        pairs_distinct(s0),
        forall|j: int| 0 <= j < s0.len() ==> (#[trigger] s0[j]).0.abs() != p.0.abs(),
    ensures
        pairs_distinct(s0.push(p)),
        pairs_to_map(s0.push(p)) == pairs_to_map(s0).insert(p.0.abs(), p.1),
{
    let s1 = s0.push(p);
    assert(s1.drop_last() =~= s0);
    assert forall|x: int, y: int| 0 <= x < y < s1.len() implies (#[trigger] s1[x]).0.abs() != (
    #[trigger] s1[y]).0.abs() by {
        if y < s1.len() - 1 {
            assert(s0[x].0.abs() != s0[y].0.abs());
        } else {
            assert(s0[x].0.abs() != p.0.abs());
        }
    }
}

/// The meaning of a pair sequence is a map with a finite domain.
pub proof fn lemma_pairs_to_map_finite<K: LedgerKey, V>(s: Seq<(K, V)>)
    ensures
        pairs_to_map(s).dom().finite(),
    decreases s.len(),
{
    if s.len() > 0 {
        lemma_pairs_to_map_finite(s.drop_last());
    }
}

/// A ledger table: a map from keys to values, stored as a vector of pairs
/// with pairwise-distinct keys.
pub struct KvMap<K, V> {
    pairs: Vec<(K, V)>,
}

impl<K: LedgerKey, V> View for KvMap<K, V> {
    type V = Map<K::Abs, V>;

    closed spec fn view(&self) -> Map<K::Abs, V> {
        pairs_to_map(self.pairs@)
    }
}

impl<K: LedgerKey, V> KvMap<K, V> {
    /// The representation keeps its keys pairwise distinct.
    pub closed spec fn wf(self) -> bool {
        pairs_distinct(self.pairs@)
    }

    /// The empty map.
    pub fn new() -> (r: Self)
        ensures
            r.wf(),
            r@ == Map::<K::Abs, V>::empty(),
    {
        KvMap { pairs: Vec::new() }
    }

    fn index_of(&self, k: &K) -> (r: Option<usize>)
        ensures
            match r {
                Some(i) => i < self.pairs@.len() && self.pairs@[i as int].0.abs() == k.abs(),
                None => forall|j: int|
                    0 <= j < self.pairs@.len() ==> (#[trigger] self.pairs@[j]).0.abs() != k.abs(),
            },
    {
        let n = self.pairs.len();
        let mut i: usize = 0;
        while i < n
            invariant
                n == self.pairs@.len(),
                i <= n,
                forall|j: int| 0 <= j < i ==> (#[trigger] self.pairs@[j]).0.abs() != k.abs(),
            decreases n - i,
        {
            if self.pairs[i].0.key_eq(k) {
                return Some(i);
            }
            i = i + 1;
        }
        None
    }

    /// Whether the map has an entry for the key.
    pub fn contains(&self, k: &K) -> (r: bool)
        requires
            self.wf(),
        ensures
            r == self@.contains_key(k.abs()),
    {
        proof {
            lemma_pairs_to_map_dom::<K, V>(self.pairs@);
        }
        match self.index_of(k) {
            Some(_) => true,
            None => false,
        }
    }

    /// Looks the key up.
    pub fn get(&self, k: &K) -> (r: Option<&V>)
        requires
            self.wf(),
        ensures
            match r {
                Some(v) => self@.contains_key(k.abs()) && self@[k.abs()] == *v,
                None => !self@.contains_key(k.abs()),
            },
    {
        proof {
            lemma_pairs_to_map_dom::<K, V>(self.pairs@);
        }
        match self.index_of(k) {
            Some(i) => {
                proof {
                    lemma_pairs_to_map_index(self.pairs@, i as int);
                }
                Some(&self.pairs[i].1)
            },
            None => None,
        }
    }

    /// Binds the key to the value, replacing any earlier binding.
    pub fn insert(&mut self, k: K, v: V)
        requires
            old(self).wf(),
        ensures
            final(self).wf(),
            final(self)@ == old(self)@.insert(k.abs(), v),
    {
        let ghost s0 = self.pairs@;
        proof {
            lemma_pairs_to_map_dom::<K, V>(s0);
        }
        match self.index_of(&k) {
            Some(i) => {
                let ghost kabs = k.abs();
                self.pairs[i] = (k, v);
                proof {
                    assert(self.pairs@ == s0.update(i as int, self.pairs@[i as int]));
                    lemma_view_update(s0, i as int, self.pairs@[i as int]);
                }
            },
            None => {
                self.pairs.push((k, v));
                proof {
                    assert(self.pairs@ == s0.push(self.pairs@.last()));
                    lemma_view_push(s0, self.pairs@.last());
                }
            },
        }
    }

    /// Removes the key's binding, if any.
    pub fn remove(&mut self, k: &K)
        requires
            old(self).wf(),
        ensures
            final(self).wf(),
            final(self)@ == old(self)@.remove(k.abs()),
    {
        let ghost s0 = self.pairs@;
        let ghost kabs = k.abs();
        proof {
            lemma_pairs_to_map_dom::<K, V>(s0);
        }
        match self.index_of(k) {
            Some(i) => {
                self.pairs.swap_remove(i);
                proof {
                    let s1 = self.pairs@;
                    assert(s1 == s0.update(i as int, s0.last()).drop_last());
                    assert forall|x: int, y: int| 0 <= x < y < s1.len() implies (
                    #[trigger] s1[x]).0.abs() != (#[trigger] s1[y]).0.abs() by {
                        let x0: int = if x == i { s0.len() - 1 } else { x };
                        let y0: int = if y == i { s0.len() - 1 } else { y };
                        assert(s1[x].0.abs() == s0[x0].0.abs());
                        assert(s1[y].0.abs() == s0[y0].0.abs());
                    }
                    lemma_pairs_to_map_dom::<K, V>(s1);
                    assert forall|kk: K::Abs| #[trigger]
                        pairs_to_map(s1).contains_key(kk) == pairs_to_map(s0).remove(
                            kabs,
                        ).contains_key(kk) by {
                        if pairs_to_map(s1).contains_key(kk) {
                            let x = choose|x: int|
                                0 <= x < s1.len() && (#[trigger] s1[x]).0.abs() == kk;
                            let x0: int = if x == i { s0.len() - 1 } else { x };
                            assert(s0[x0].0.abs() == kk);
                            assert(kk != kabs) by {
                                assert(s0[i as int].0.abs() == kabs);
                                if x0 != i {
                                    assert(s0[x0].0.abs() != s0[i as int].0.abs());
                                }
                            }
                        }
                        if pairs_to_map(s0).remove(kabs).contains_key(kk) {
                            let x = choose|x: int|
                                0 <= x < s0.len() && (#[trigger] s0[x]).0.abs() == kk;
                            assert(x != i);
                            if x == s0.len() - 1 {
                                assert(i < s0.len() - 1);
                                assert(s1[i as int].0.abs() == kk);
                            } else {
                                assert(s1[x].0.abs() == kk);
                            }
                        }
                    }
                    assert forall|kk: K::Abs|
                        pairs_to_map(s1).contains_key(kk) implies #[trigger] pairs_to_map(s1)[kk]
                        == pairs_to_map(s0).remove(kabs)[kk] by {
                        let x = choose|x: int| 0 <= x < s1.len() && (#[trigger] s1[x]).0.abs() == kk;
                        lemma_pairs_to_map_index(s1, x);
                        let x0: int = if x == i { s0.len() - 1 } else { x };
                        assert(s1[x] == s0[x0]);
                        lemma_pairs_to_map_index(s0, x0);
                    }
                    assert(pairs_to_map(s1) =~= pairs_to_map(s0).remove(kabs));
                }
            },
            None => {
                proof {
                    assert(pairs_to_map(s0) =~= pairs_to_map(s0).remove(kabs));
                }
            },
        }
    }

    /// The map binds finitely many keys.
    pub proof fn lemma_dom_finite(self)
        ensures
            self@.dom().finite(),
    {
        lemma_pairs_to_map_finite::<K, V>(self.pairs@);
    }

    /// Reads the value at the key, or the given default where the key is
    /// unbound.
    pub fn get_or(&self, k: &K, dflt: V) -> (r: V) where V: Copy
        requires
            self.wf(),
        ensures
            r == if self@.contains_key(k.abs()) {
                self@[k.abs()]
            } else {
                dflt
            },
    {
        match self.get(k) {
            Some(v) => *v,
            None => dflt,
        }
    }

    /// The stored pairs; every pair is a binding of the map and every
    /// binding appears.
    pub fn items(&self) -> (r: &Vec<(K, V)>)
        requires
            self.wf(),
        ensures
            forall|i: int|
                0 <= i < r@.len() ==> self@.contains_key((#[trigger] r@[i]).0.abs()) && self@[r@[i].0.abs()]
                    == r@[i].1,
            forall|k: K::Abs| #[trigger]
                self@.contains_key(k) ==> exists|i: int|
                    0 <= i < r@.len() && (#[trigger] r@[i]).0.abs() == k,
    {
        proof {
            lemma_pairs_to_map_dom::<K, V>(self.pairs@);
            assert forall|i: int|
                0 <= i < self.pairs@.len() implies self@.contains_key(
                (#[trigger] self.pairs@[i]).0.abs(),
            ) && self@[self.pairs@[i].0.abs()] == self.pairs@[i].1 by {
                lemma_pairs_to_map_index(self.pairs@, i);
            }
        }
        &self.pairs
    }
}

/// The total of the amounts in a pair sequence.
pub closed spec fn seq_sum<K>(s: Seq<(K, u128)>) -> int
    decreases s.len(),
{
    if s.len() == 0 {
        0
    } else {
        seq_sum(s.drop_last()) + s.last().1
    }
}

proof fn lemma_seq_sum_bounds<K>(s: Seq<(K, u128)>)
    ensures
        seq_sum(s) >= 0,
        forall|i: int| 0 <= i < s.len() ==> (#[trigger] s[i]).1 <= seq_sum(s),
    decreases s.len(),
{
    if s.len() > 0 {
        lemma_seq_sum_bounds(s.drop_last());
        assert forall|i: int| 0 <= i < s.len() implies (#[trigger] s[i]).1 <= seq_sum(s) by {
            if i < s.len() - 1 {
                assert(s.drop_last()[i] == s[i]);
            }
        }
    }
}

proof fn lemma_seq_sum_pair<K>(s: Seq<(K, u128)>, i: int, j: int)
    requires
        0 <= i < j < s.len(),
    ensures
        s[i].1 + s[j].1 <= seq_sum(s),
    decreases s.len(),
{
    if j == s.len() - 1 {
        lemma_seq_sum_bounds(s.drop_last());
        assert(s.drop_last()[i] == s[i]);
    } else {
        lemma_seq_sum_pair(s.drop_last(), i, j);
        assert(s.drop_last()[i] == s[i]);
        assert(s.drop_last()[j] == s[j]);
    }
}

proof fn lemma_seq_sum_update<K>(s: Seq<(K, u128)>, i: int, p: (K, u128))
    requires
        0 <= i < s.len(),
    ensures
        seq_sum(s.update(i, p)) == seq_sum(s) - s[i].1 + p.1,
    decreases s.len(),
{
    let s1 = s.update(i, p);
    if i == s.len() - 1 {
        assert(s1.drop_last() =~= s.drop_last());
    } else {
        assert(s1.drop_last() =~= s.drop_last().update(i, p));
        lemma_seq_sum_update(s.drop_last(), i, p);
        assert(s1.last() == s.last());
    }
}

impl<K: LedgerKey> KvMap<K, u128> {
    /// The total of all amounts held in the map.
    pub closed spec fn sum(self) -> int {
        seq_sum(self.pairs@)
    }

    /// The amount at the key, counting an unbound key as zero.
    pub open spec fn spec_amount(self, k: K::Abs) -> u128 {
        if self@.contains_key(k) {
            self@[k]
        } else {
            0
        }
    }

    /// Every amount is at most the total, and the total is non-negative.
    pub proof fn lemma_sum_bounds(self, k: K::Abs)
        requires
            self.wf(),
        ensures
            self.sum() >= 0,
            self.spec_amount(k) <= self.sum(),
    {
        lemma_seq_sum_bounds(self.pairs@);
        lemma_pairs_to_map_dom::<K, u128>(self.pairs@);
        if self@.contains_key(k) {
            let i = choose|i: int|
                0 <= i < self.pairs@.len() && (#[trigger] self.pairs@[i]).0.abs() == k;
            lemma_pairs_to_map_index(self.pairs@, i);
        }
    }

    /// Two amounts at distinct keys together stay within the total.
    pub proof fn lemma_sum_two(self, k1: K::Abs, k2: K::Abs)
        requires
            self.wf(),
            k1 != k2,
        ensures
            self.spec_amount(k1) + self.spec_amount(k2) <= self.sum(),
    {
        lemma_seq_sum_bounds(self.pairs@);
        lemma_pairs_to_map_dom::<K, u128>(self.pairs@);
        self.lemma_sum_bounds(k1);
        self.lemma_sum_bounds(k2);
        if self@.contains_key(k1) && self@.contains_key(k2) {
            let i = choose|i: int|
                0 <= i < self.pairs@.len() && (#[trigger] self.pairs@[i]).0.abs() == k1;
            let j = choose|j: int|
                0 <= j < self.pairs@.len() && (#[trigger] self.pairs@[j]).0.abs() == k2;
            lemma_pairs_to_map_index(self.pairs@, i);
            lemma_pairs_to_map_index(self.pairs@, j);
            assert(i != j);
            if i < j {
                lemma_seq_sum_pair(self.pairs@, i, j);
            } else {
                lemma_seq_sum_pair(self.pairs@, j, i);
            }
        }
    }

    /// A map with no bindings holds a zero total.
    pub proof fn lemma_sum_empty(self)
        requires
            self.wf(),
            self@ == Map::<K::Abs, u128>::empty(),
        ensures
            self.sum() == 0,
    {
        if self.pairs@.len() > 0 {
            lemma_pairs_to_map_index(self.pairs@, 0);
            assert(self@.contains_key(self.pairs@[0].0.abs()));
        }
    }

    /// Binds the key to the amount and accounts for the change of the total.
    pub fn set_amount(&mut self, k: K, v: u128)
        requires
            old(self).wf(),
        ensures
            final(self).wf(),
            final(self)@ == old(self)@.insert(k.abs(), v),
            final(self).sum() == old(self).sum() - old(self).spec_amount(k.abs()) + v,
    {
        let ghost s0 = self.pairs@;
        proof {
            lemma_pairs_to_map_dom::<K, u128>(s0);
        }
        match self.index_of(&k) {
            Some(i) => {
                self.pairs[i] = (k, v);
                proof {
                    assert(self.pairs@ == s0.update(i as int, self.pairs@[i as int]));
                    lemma_view_update(s0, i as int, self.pairs@[i as int]);
                    lemma_seq_sum_update(s0, i as int, self.pairs@[i as int]);
                    lemma_pairs_to_map_index(s0, i as int);
                }
            },
            None => {
                self.pairs.push((k, v));
                proof {
                    assert(self.pairs@ == s0.push(self.pairs@.last()));
                    lemma_view_push(s0, self.pairs@.last());
                    assert(self.pairs@.drop_last() =~= s0);
                }
            },
        }
    }
}

} // verus!
