//! A map from `u64` keys to values, represented as a vector of entries
//! kept sorted strictly ascending by key.  The sorted representation
//! gives every map a canonical entry order, which makes operations that
//! walk a map's entries (display, subtree cloning, pattern binding)
//! deterministic.

use vstd::prelude::*;

verus! {

/// The map denoted by an entry sequence: later entries win on a repeated
/// key, though well-formed maps never repeat a key.
pub open spec fn seq_to_map<V>(s: Seq<(u64, V)>) -> Map<u64, V>
    decreases s.len(),
{
    if s.len() == 0 {
        Map::empty()
    } else {
        seq_to_map(s.drop_last()).insert(s.last().0, s.last().1)
    }
}

pub open spec fn keys_distinct<V>(s: Seq<(u64, V)>) -> bool {
    forall|i: int, j: int|
        0 <= i < j < s.len() ==> (#[trigger] s[i]).0 != (#[trigger] s[j]).0
}

pub proof fn lemma_seq_to_map_contains<V>(s: Seq<(u64, V)>, k: u64)
    ensures
        seq_to_map(s).dom().contains(k) <==> exists|i: int| 0 <= i < s.len() && (#[trigger] s[i]).0 == k,
    decreases s.len(),
{
    if s.len() > 0 {
        lemma_seq_to_map_contains(s.drop_last(), k);
        if s.last().0 == k {
            assert(s[s.len() - 1].0 == k);
        } else if seq_to_map(s).dom().contains(k) {
            let i = choose|i: int| 0 <= i < s.drop_last().len() && (#[trigger] s.drop_last()[i]).0 == k;
            assert(s[i].0 == k);
        } else {
            assert forall|i: int| 0 <= i < s.len() && (#[trigger] s[i]).0 == k implies false by {
                if i < s.len() - 1 {
                    assert(s.drop_last()[i].0 == k);
                }
            }
        }
    }
}

pub proof fn lemma_seq_to_map_index<V>(s: Seq<(u64, V)>, i: int)
    requires
        keys_distinct(s),
        0 <= i < s.len(),
    ensures
        seq_to_map(s).dom().contains(s[i].0),
        seq_to_map(s)[s[i].0] == s[i].1,
    decreases s.len(),
{
    if i == s.len() - 1 {
    } else {
        assert(s.drop_last()[i] == s[i]);
        lemma_seq_to_map_index(s.drop_last(), i);
        assert(s[s.len() - 1].0 != s[i].0);
    }
}

/// An association list sorted strictly ascending by key.
#[derive(Debug, Clone, PartialEq)]
pub struct VecMap<V> {
    pub entries: Vec<(u64, V)>,
}

impl<V> VecMap<V> {
    /// Entries are sorted strictly ascending by key, so keys are unique.
    pub open spec fn wf(&self) -> bool {
        forall|i: int, j: int|
            0 <= i < j < self.entries@.len() ==> (#[trigger] self.entries@[i]).0 < (
            #[trigger] self.entries@[j]).0
    }

    /// The mathematical map this value represents.
    pub open spec fn to_map(&self) -> Map<u64, V> {
        seq_to_map(self.entries@)
    }

    pub open spec fn spec_contains(&self, k: u64) -> bool {
        self.to_map().dom().contains(k)
    }

    pub proof fn lemma_wf_distinct(&self)
        requires
            self.wf(),
        ensures
            keys_distinct(self.entries@),
    {
    }

    pub fn new() -> (r: Self)
        ensures
            r.wf(),
            r.to_map() == Map::<u64, V>::empty(),
            r.entries@.len() == 0,
    {
        VecMap { entries: Vec::new() }
    }

    pub fn len(&self) -> (r: usize)
        ensures
            r == self.entries@.len(),
    {
        self.entries.len()
    }

    /// Finds the position of `k` among the entries, if present.
    pub fn find(&self, k: u64) -> (r: Option<usize>)
        requires
            self.wf(),
        ensures
            match r {
                Some(i) => i < self.entries@.len() && self.entries@[i as int].0 == k
                    && self.to_map().dom().contains(k) && self.to_map()[k]
                    == self.entries@[i as int].1,
                None => !self.to_map().dom().contains(k),
            },
    {
        let n = self.entries.len();
        let mut i: usize = 0;
        while i < n
            invariant
                self.wf(),
                i <= n,
                n == self.entries@.len(),
                forall|j: int| 0 <= j < i ==> (#[trigger] self.entries@[j]).0 != k,
            decreases n - i,
        {
            if self.entries[i].0 == k {
                proof {
                    self.lemma_wf_distinct();
                    lemma_seq_to_map_index(self.entries@, i as int);
                }
                return Some(i);
            }
            i = i + 1;
        }
        proof {
            lemma_seq_to_map_contains(self.entries@, k);
        }
        None
    }

    pub fn get(&self, k: u64) -> (r: Option<&V>)
        requires
            self.wf(),
        ensures
            match r {
                Some(v) => self.to_map().dom().contains(k) && *v == self.to_map()[k],
                None => !self.to_map().dom().contains(k),
            },
    {
        match self.find(k) {
            Some(i) => Some(&self.entries[i].1),
            None => None,
        }
    }

    pub fn contains_key(&self, k: u64) -> (r: bool)
        requires
            self.wf(),
        ensures
            r == self.to_map().dom().contains(k),
    {
        match self.find(k) {
            Some(_) => true,
            None => false,
        }
    }

    /// Inserts `k -> v`, keeping the entries sorted; returns the value
    /// previously under `k`, if any.
    pub fn insert(&mut self, k: u64, v: V) -> (r: Option<V>)
        requires
            old(self).wf(),
        ensures
            final(self).wf(),
            final(self).to_map() == old(self).to_map().insert(k, v),
            r is Some <==> old(self).to_map().dom().contains(k),
            r matches Some(ov) ==> ov == old(self).to_map()[k],
            old(self).to_map().dom().contains(k) ==> final(self).entries@.len() == old(
                self,
            ).entries@.len(),
            !old(self).to_map().dom().contains(k) ==> final(self).entries@.len() == old(
                self,
            ).entries@.len() + 1,
    {
        let n = self.entries.len();
        let mut i: usize = 0;
        while i < n && self.entries[i].0 < k
            invariant
                self.wf(),
                i <= n,
                n == self.entries@.len(),
                forall|j: int| 0 <= j < i ==> (#[trigger] self.entries@[j]).0 < k,
            decreases n - i,
        {
            i = i + 1;
        }
        proof {
            self.lemma_wf_distinct();
        }
        if i < n && self.entries[i].0 == k {
            proof {
                lemma_seq_to_map_index(self.entries@, i as int);
            }
            let old_e = self.entries.remove(i);
            self.entries.insert(i, (k, v));
            proof {
                assert(self.entries@ =~= old(self).entries@.update(i as int, (k, v)));
                lemma_seq_to_map_update(old(self).entries@, i as int, (k, v));
            }
            Some(old_e.1)
        } else {
            proof {
                lemma_seq_to_map_contains(self.entries@, k);
                assert forall|j: int| i <= j < self.entries@.len() implies (
                #[trigger] self.entries@[j]).0 > k by {
                    if j > i {
                        assert(self.entries@[i as int].0 < self.entries@[j].0);
                    }
                }
            }
            self.entries.insert(i, (k, v));
            proof {
                lemma_seq_to_map_insert(old(self).entries@, i as int, (k, v));
            }
            None
        }
    }

    /// Removes the entry under `k`, if any, returning its value.
    pub fn remove(&mut self, k: u64) -> (r: Option<V>)
        requires
            old(self).wf(),
        ensures
            final(self).wf(),
            final(self).to_map() == old(self).to_map().remove(k),
            r is Some <==> old(self).to_map().dom().contains(k),
            r matches Some(ov) ==> ov == old(self).to_map()[k],
    {
        proof {
            self.lemma_wf_distinct();
        }
        match self.find(k) {
            Some(i) => {
                let e = self.entries.remove(i);
                proof {
                    lemma_seq_to_map_remove(old(self).entries@, i as int);
                }
                Some(e.1)
            },
            None => {
                proof {
                    assert(old(self).to_map() =~= old(self).to_map().remove(k));
                }
                None
            },
        }
    }
}

impl<V: Copy> VecMap<V> {
    /// A copy of the map with the same entries.
    pub fn duplicate(&self) -> (r: Self)
        requires
            self.wf(),
        ensures
            r.entries@ == self.entries@,
            r.wf(),
            r.to_map() == self.to_map(),
    {
        let n = self.entries.len();
        let mut entries: Vec<(u64, V)> = Vec::new();
        let mut i: usize = 0;
        while i < n
            invariant
                i <= n,
                n == self.entries@.len(),
                entries@ =~= self.entries@.subrange(0, i as int),
            decreases n - i,
        {
            entries.push(self.entries[i]);
            i = i + 1;
        }
        proof {
            assert(entries@ =~= self.entries@);
        }
        let r = VecMap { entries };
        proof {
            assert forall|i: int, j: int| 0 <= i < j < r.entries@.len() implies (
            #[trigger] r.entries@[i]).0 < (#[trigger] r.entries@[j]).0 by {
                assert(r.entries@[i] == self.entries@[i]);
                assert(r.entries@[j] == self.entries@[j]);
            }
        }
        r
    }
}

/// Sorted entry lists are canonical: two strictly ascending entry lists
/// denoting the same map are the same list.
pub proof fn lemma_sorted_entries_canonical<V>(a: Seq<(u64, V)>, b: Seq<(u64, V)>)
    requires
        forall|i: int, j: int| 0 <= i < j < a.len() ==> (#[trigger] a[i]).0 < (#[trigger] a[j]).0,
        forall|i: int, j: int| 0 <= i < j < b.len() ==> (#[trigger] b[i]).0 < (#[trigger] b[j]).0,
        seq_to_map(a) == seq_to_map(b),
    ensures
        a == b,
    decreases a.len(),
{
    lemma_seq_to_map_contains(a, 0);
    if a.len() == 0 {
        if b.len() > 0 {
            lemma_seq_to_map_index(b, b.len() - 1);
            lemma_seq_to_map_contains(a, b.last().0);
            assert(false);
        }
        assert(a =~= b);
    } else {
        if b.len() == 0 {
            lemma_seq_to_map_index(a, a.len() - 1);
            lemma_seq_to_map_contains(b, a.last().0);
            assert(false);
        }
        let ka = a.last().0;
        let kb = b.last().0;
        lemma_seq_to_map_index(a, a.len() - 1);
        lemma_seq_to_map_index(b, b.len() - 1);
        // each last key is in the common domain, and a sorted list's last
        // key bounds every key it holds, so the two last keys agree
        lemma_seq_to_map_contains(a, kb);
        let ia = choose|i: int| 0 <= i < a.len() && (#[trigger] a[i]).0 == kb;
        assert(kb <= ka) by {
            if ia < a.len() - 1 {
                assert(a[ia].0 < a[a.len() - 1].0);
            }
        }
        lemma_seq_to_map_contains(b, ka);
        let ib = choose|i: int| 0 <= i < b.len() && (#[trigger] b[i]).0 == ka;
        assert(ka <= kb) by {
            if ib < b.len() - 1 {
                assert(b[ib].0 < b[b.len() - 1].0);
            }
        }
        assert(ka == kb);
        assert(a.last().1 == seq_to_map(a)[ka]);
        assert(b.last().1 == seq_to_map(b)[kb]);
        assert(a.last() == b.last());
        // the remainders denote the map without the last key
        assert forall|j: int| 0 <= j < a.drop_last().len() implies (
        #[trigger] a.drop_last()[j]).0 != ka by {
            assert(a.drop_last()[j] == a[j]);
            assert(a[j].0 < a[a.len() - 1].0);
        }
        assert forall|j: int| 0 <= j < b.drop_last().len() implies (
        #[trigger] b.drop_last()[j]).0 != kb by {
            assert(b.drop_last()[j] == b[j]);
            assert(b[j].0 < b[b.len() - 1].0);
        }
        lemma_seq_to_map_contains(a.drop_last(), ka);
        lemma_seq_to_map_contains(b.drop_last(), kb);
        assert(seq_to_map(a.drop_last()) =~= seq_to_map(a).remove(ka));
        assert(seq_to_map(b.drop_last()) =~= seq_to_map(b).remove(kb));
        assert forall|i: int, j: int|
            0 <= i < j < a.drop_last().len() implies (#[trigger] a.drop_last()[i]).0 < (
        #[trigger] a.drop_last()[j]).0 by {
            assert(a.drop_last()[i] == a[i] && a.drop_last()[j] == a[j]);
        }
        assert forall|i: int, j: int|
            0 <= i < j < b.drop_last().len() implies (#[trigger] b.drop_last()[i]).0 < (
        #[trigger] b.drop_last()[j]).0 by {
            assert(b.drop_last()[i] == b[i] && b.drop_last()[j] == b[j]);
        }
        lemma_sorted_entries_canonical(a.drop_last(), b.drop_last());
        assert(a.drop_last().len() == b.drop_last().len());
        assert forall|i: int| 0 <= i < a.len() implies a[i] == b[i] by {
            if i < a.len() - 1 {
                assert(a.drop_last()[i] == a[i]);
                assert(b.drop_last()[i] == b[i]);
                assert(a.drop_last()[i] == b.drop_last()[i]);
            }
        }
        assert(a =~= b);
    }
}

/// Updating position `i` in place with an entry of the same key updates
/// the denoted map at that key.
pub proof fn lemma_seq_to_map_update<V>(s: Seq<(u64, V)>, i: int, e: (u64, V))
    requires
        keys_distinct(s),
        0 <= i < s.len(),
        s[i].0 == e.0,
    ensures
        seq_to_map(s.update(i, e)) == seq_to_map(s).insert(e.0, e.1),
    decreases s.len(),
{
    let s2 = s.update(i, e);
    if i == s.len() - 1 {
        assert(s2.drop_last() =~= s.drop_last());
        assert(seq_to_map(s2) =~= seq_to_map(s).insert(e.0, e.1));
    } else {
        assert(s2.drop_last() =~= s.drop_last().update(i, e));
        assert(s.drop_last()[i] == s[i]);
        lemma_seq_to_map_update(s.drop_last(), i, e);
        assert(s.last().0 != e.0);
        assert(seq_to_map(s2) =~= seq_to_map(s).insert(e.0, e.1));
    }
}

/// Inserting an entry with a fresh key at any position inserts into the
/// denoted map.
pub proof fn lemma_seq_to_map_insert<V>(s: Seq<(u64, V)>, i: int, e: (u64, V))
    requires
        0 <= i <= s.len(),
        forall|j: int| 0 <= j < s.len() ==> (#[trigger] s[j]).0 != e.0,
    ensures
        seq_to_map(s.insert(i, e)) == seq_to_map(s).insert(e.0, e.1),
    decreases s.len(),
{
    let s2 = s.insert(i, e);
    if i == s.len() {
        assert(s2.drop_last() =~= s);
        assert(s2.last() == e);
    } else {
        assert(s2.last() == s.last());
        assert(s2.drop_last() =~= s.drop_last().insert(i, e));
        assert forall|j: int| 0 <= j < s.drop_last().len() implies (#[trigger] s.drop_last()[j]).0
            != e.0 by {
            assert(s.drop_last()[j] == s[j]);
        }
        lemma_seq_to_map_insert(s.drop_last(), i, e);
        assert(s.last().0 != e.0);
        assert(seq_to_map(s2) =~= seq_to_map(s).insert(e.0, e.1));
    }
}

/// Removing position `i` removes its key from the denoted map.
pub proof fn lemma_seq_to_map_remove<V>(s: Seq<(u64, V)>, i: int)
    requires
        keys_distinct(s),
        0 <= i < s.len(),
    ensures
        seq_to_map(s.remove(i)) == seq_to_map(s).remove(s[i].0),
    decreases s.len(),
{
    let s2 = s.remove(i);
    if i == s.len() - 1 {
        assert(s2 =~= s.drop_last());
        lemma_seq_to_map_contains(s.drop_last(), s[i].0);
        assert forall|j: int| 0 <= j < s.drop_last().len() implies (#[trigger] s.drop_last()[j]).0
            != s[i].0 by {
            assert(s.drop_last()[j] == s[j]);
        }
        assert(seq_to_map(s2) =~= seq_to_map(s).remove(s[i].0));
    } else {
        assert(s2.last() == s.last());
        assert(s2.drop_last() =~= s.drop_last().remove(i));
        assert(s.drop_last()[i] == s[i]);
        lemma_seq_to_map_remove(s.drop_last(), i);
        assert(s.last().0 != s[i].0);
        assert(seq_to_map(s2) =~= seq_to_map(s).remove(s[i].0));
    }
}

} // verus!
