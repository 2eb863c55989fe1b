use vstd::prelude::*;

verus! {

/// A strict one-to-one bidirectional map over strings.
///
/// Each key maps to at most one value and each value to at most one key;
/// inserting a pair evicts any earlier pair that shares its key or its value.
/// Two mirrored pair lists are kept, one per lookup direction.
pub struct BiMap {
    forward: Vec<(String, String)>,
    reverse: Vec<(String, String)>,
}

impl BiMap {
    /// The pairs held by the map, as views, in insertion order.
    /// Callers must not rely on the order; it is exposed only so that
    /// membership and multiplicity can be stated.
    pub closed spec fn pairs(&self) -> Seq<(Seq<char>, Seq<char>)> {
        self.forward.deep_view()
    }

    /// The mirrored value-to-key pairs of the reverse direction.
    pub closed spec fn reverse_pairs(&self) -> Seq<(Seq<char>, Seq<char>)> {
        self.reverse.deep_view()
    }

    pub open spec fn spec_len(&self) -> nat {
        self.pairs().len()
    }

    pub open spec fn spec_contains_key(&self, k: Seq<char>) -> bool {
        exists|i: int| 0 <= i < self.pairs().len() && (#[trigger] self.pairs()[i]).0 == k
    }

    pub open spec fn spec_contains_value(&self, v: Seq<char>) -> bool {
        exists|i: int| 0 <= i < self.pairs().len() && (#[trigger] self.pairs()[i]).1 == v
    }

    pub open spec fn spec_contains_pair(&self, k: Seq<char>, v: Seq<char>) -> bool {
        self.pairs().contains((k, v))
    }

    /// A pair other than one keyed by `k` holds the value `v`.
    pub open spec fn has_other_key_for_value(&self, k: Seq<char>, v: Seq<char>) -> bool {
        exists|k2: Seq<char>| self.spec_contains_pair(k2, v) && k2 != k
    }

    /// A pair keyed by `k` holds a value other than `v`.
    pub open spec fn has_other_value_for_key(&self, k: Seq<char>, v: Seq<char>) -> bool {
        exists|v2: Seq<char>| self.spec_contains_pair(k, v2) && v2 != v
    }

    /// Well-formedness: the two directions mirror each other pairwise, and
    /// the pairing is a bijection (no key and no value occurs twice).
    pub closed spec fn wf(&self) -> bool {
        &&& self.reverse_pairs().len() == self.pairs().len()
        &&& forall|i: int|
            0 <= i < self.pairs().len() ==> (#[trigger] self.reverse_pairs()[i]) == (
            self.pairs()[i].1,
            self.pairs()[i].0,
            )
        &&& forall|i: int, j: int|
            0 <= i < j < self.pairs().len() ==> (#[trigger] self.pairs()[i]).0 != (
            #[trigger] self.pairs()[j]).0
        &&& forall|i: int, j: int|
            0 <= i < j < self.pairs().len() ==> (#[trigger] self.pairs()[i]).1 != (
            #[trigger] self.pairs()[j]).1
    }

    pub fn new() -> (m: BiMap)
        ensures
            m.wf(),
            m.spec_len() == 0,
    {
        let m = BiMap { forward: Vec::new(), reverse: Vec::new() };
        proof {
            assert(m.pairs() =~= Seq::<(Seq<char>, Seq<char>)>::empty());
            assert(m.reverse_pairs() =~= Seq::<(Seq<char>, Seq<char>)>::empty());
        }
        m
    }

    pub fn len(&self) -> (n: usize)
        ensures
            n == self.spec_len(),
    {
        self.forward.len()
    }

    pub fn is_empty(&self) -> (b: bool)
        ensures
            b == (self.spec_len() == 0),
    {
        self.forward.is_empty()
    }

    /// Index of the pair keyed by `key`, if one is held.
    fn index_of_key(&self, key: &String) -> (r: Option<usize>)
        ensures
            match r {
                Some(i) => i < self.spec_len() && (self.pairs()[i as int]).0 == key@,
                None => !self.spec_contains_key(key@),
            },
    {
        let n = self.forward.len();
        let mut i: usize = 0;
        while i < n
            invariant
                n == self.pairs().len(),
                0 <= i <= n,
                forall|j: int| 0 <= j < i ==> (#[trigger] self.pairs()[j]).0 != key@,
            decreases n - i,
        {
            if self.forward[i].0 == *key {
                proof {
                    assert((self.pairs()[i as int]).0 == key@);
                }
                return Some(i);
            }
            i += 1;
        }
        None
    }

    /// Index of the pair whose value is `value`, if one is held.
    fn index_of_value(&self, value: &String) -> (r: Option<usize>)
        ensures
            match r {
                Some(i) => i < self.spec_len() && (self.pairs()[i as int]).1 == value@,
                None => !self.spec_contains_value(value@),
            },
    {
        let n = self.forward.len();
        let mut i: usize = 0;
        while i < n
            invariant
                n == self.pairs().len(),
                0 <= i <= n,
                forall|j: int| 0 <= j < i ==> (#[trigger] self.pairs()[j]).1 != value@,
            decreases n - i,
        {
            if self.forward[i].1 == *value {
                proof {
                    assert((self.pairs()[i as int]).1 == value@);
                }
                return Some(i);
            }
            i += 1;
        }
        None
    }

    /// Removes the pair at index `i` from both directions.
    fn remove_at(&mut self, i: usize) -> (kv: (String, String))
        requires
            old(self).wf(),
            i < old(self).spec_len(),
        ensures
            final(self).wf(),
            kv.deep_view() == old(self).pairs()[i as int],
            final(self).pairs() == old(self).pairs().remove(i as int),
    {
        proof {
            assert(self.reverse_pairs().len() == self.pairs().len());
        }
        let kv = self.forward.remove(i);
        let _vk = self.reverse.remove(i);
        proof {
            assert(self.pairs() =~= old(self).pairs().remove(i as int));
            assert(self.reverse_pairs() =~= old(self).reverse_pairs().remove(i as int));
            let np = self.pairs();
            let nrp = self.reverse_pairs();
            let op = old(self).pairs();
            let orp = old(self).reverse_pairs();
            assert forall|j: int| 0 <= j < np.len() implies (#[trigger] nrp[j]) == (
            np[j].1, np[j].0) by {
                if j < i {
                    assert(np[j] == op[j]);
                    assert(nrp[j] == orp[j]);
                } else {
                    assert(np[j] == op[j + 1]);
                    assert(nrp[j] == orp[j + 1]);
                }
            }
            assert forall|j: int, k: int| 0 <= j < k < np.len() implies (#[trigger] np[j]).0 != (
            #[trigger] np[k]).0 && (np[j]).1 != (np[k]).1 by {
                let j0: int = if j < i { j } else { j + 1 };
                let k0: int = if k < i { k } else { k + 1 };
                assert(np[j] == op[j0]);
                assert(np[k] == op[k0]);
            }
        }
        kv
    }

    pub fn contains_key(&self, key: &String) -> (b: bool)
        ensures
            b == self.spec_contains_key(key@),
    {
        self.index_of_key(key).is_some()
    }

    pub fn contains_value(&self, value: &String) -> (b: bool)
        ensures
            b == self.spec_contains_value(value@),
    {
        self.index_of_value(value).is_some()
    }

    /// The value paired with `key`, if `key` is held.
    pub fn get_by_key(&self, key: &String) -> (r: Option<&String>)
        ensures
            match r {
                Some(v) => self.spec_contains_pair(key@, v@),
                None => !self.spec_contains_key(key@),
            },
    {
        match self.index_of_key(key) {
            Some(i) => {
                proof {
                    assert(self.pairs().contains((key@, (self.pairs()[i as int]).1)));
                }
                Some(&self.forward[i].1)
            },
            None => None,
        }
    }

    /// The key paired with `value`, if `value` is held.
    pub fn get_by_value(&self, value: &String) -> (r: Option<&String>)
        ensures
            match r {
                Some(k) => self.spec_contains_pair(k@, value@),
                None => !self.spec_contains_value(value@),
            },
    {
        match self.index_of_value(value) {
            Some(i) => {
                proof {
                    assert(self.pairs().contains(((self.pairs()[i as int]).0, value@)));
                }
                Some(&self.forward[i].0)
            },
            None => None,
        }
    }

    /// Removes the pair keyed by `key`, if one is held, from both directions.
    pub fn remove_by_key(&mut self, key: &String) -> (r: Option<String>)
        requires
            old(self).wf(),
        ensures
            final(self).wf(),
            r.is_some() <==> old(self).spec_contains_key(key@),
            forall|p: (Seq<char>, Seq<char>)|
                #[trigger] final(self).pairs().contains(p) <==> (old(self).pairs().contains(p)
                    && p.0 != key@),
            match r {
                Some(v) => {
                    &&& old(self).spec_contains_pair(key@, v@)
                    &&& final(self).spec_len() == old(self).spec_len() - 1
                },
                None => *final(self) == *old(self),
            },
    {
        match self.index_of_key(key) {
            Some(i) => {
                let kv = self.remove_at(i);
                proof {
                    lemma_remove_membership(old(self), self, i as int);
                }
                Some(kv.1)
            },
            None => {
                proof {
                    assert forall|p: (Seq<char>, Seq<char>)|
                        self.pairs().contains(p) implies p.0 != key@ by {
                        let j = choose|j: int|
                            0 <= j < self.pairs().len() && self.pairs()[j] == p;
                        assert((self.pairs()[j]).0 == p.0);
                    }
                }
                None
            },
        }
    }

    /// Removes the pair whose value is `value`, if one is held, from both
    /// directions.
    pub fn remove_by_value(&mut self, value: &String) -> (r: Option<String>)
        requires
            old(self).wf(),
        ensures
            final(self).wf(),
            r.is_some() <==> old(self).spec_contains_value(value@),
            forall|p: (Seq<char>, Seq<char>)|
                #[trigger] final(self).pairs().contains(p) <==> (old(self).pairs().contains(p)
                    && p.1 != value@),
            match r {
                Some(k) => {
                    &&& old(self).spec_contains_pair(k@, value@)
                    &&& final(self).spec_len() == old(self).spec_len() - 1
                },
                None => *final(self) == *old(self),
            },
    {
        match self.index_of_value(value) {
            Some(i) => {
                let kv = self.remove_at(i);
                proof {
                    lemma_remove_membership(old(self), self, i as int);
                }
                Some(kv.0)
            },
            None => {
                proof {
                    assert forall|p: (Seq<char>, Seq<char>)|
                        self.pairs().contains(p) implies p.1 != value@ by {
                        let j = choose|j: int|
                            0 <= j < self.pairs().len() && self.pairs()[j] == p;
                        assert((self.pairs()[j]).1 == p.1);
                    }
                }
                None
            },
        }
    }

    /// Inserts the pair `(key, value)`, first removing any pair that shares
    /// `key` and any pair that shares `value`.  Returns `Some((k, v))` only
    /// when those two removals struck two distinct prior pairs `(k, value)`
    /// and `(key, v)`, now merged into the one inserted pair; returns `None`
    /// in every other case.
    pub fn insert(&mut self, key: String, value: String) -> (evicted: Option<(String, String)>)
        requires
            old(self).wf(),
        ensures
            final(self).wf(),
            final(self).spec_contains_pair(key@, value@),
            forall|p: (Seq<char>, Seq<char>)|
                #[trigger] final(self).pairs().contains(p) <==> (p == (key@, value@) || (old(
                    self,
                ).pairs().contains(p) && p.0 != key@ && p.1 != value@)),
            final(self).spec_len() == old(self).spec_len() + 1 - (if old(
                self,
            ).spec_contains_value(value@) {
                1int
            } else {
                0int
            }) - (if old(self).has_other_value_for_key(key@, value@) {
                1int
            } else {
                0int
            }),
            evicted.is_some() <==> (old(self).has_other_key_for_value(key@, value@) && old(
                self,
            ).has_other_value_for_key(key@, value@)),
            match evicted {
                Some(kv) => {
                    &&& old(self).spec_contains_pair(kv.0@, value@)
                    &&& kv.0@ != key@
                    &&& old(self).spec_contains_pair(key@, kv.1@)
                    &&& kv.1@ != value@
                },
                None => true,
            },
    {
        let old_key = self.remove_by_value(&value);
        let ghost m1 = *self;
        let old_value = self.remove_by_key(&key);
        let ghost m2 = *self;
        self.forward.push((key.clone(), value.clone()));
        self.reverse.push((value, key));
        proof {
            let kv = (key@, value@);
            assert(self.pairs() =~= m2.pairs().push(kv));
            assert(self.reverse_pairs() =~= m2.reverse_pairs().push((value@, key@)));
            // Every pair left after the two removals shares neither key nor value
            // with the inserted pair.
            assert forall|j: int| 0 <= j < m2.pairs().len() implies (#[trigger] m2.pairs()[j]).0
                != key@ && (m2.pairs()[j]).1 != value@ by {
                assert(m2.pairs().contains(m2.pairs()[j]));
            }
            lemma_push_wf(m2, *self, key@, value@);
            lemma_push_membership(self);
            assert(self.pairs().subrange(0, self.pairs().len() - 1) =~= m2.pairs());
            assert(self.pairs()[self.pairs().len() - 1] == kv);
            assert(self.spec_contains_pair(key@, value@));
            // The second removal struck a pair exactly when the old map held a
            // pair (key, v2) with v2 != value.
            assert(m1.spec_contains_key(key@) <==> old(self).has_other_value_for_key(
                key@,
                value@,
            )) by {
                if m1.spec_contains_key(key@) {
                    let i = choose|i: int|
                        0 <= i < m1.pairs().len() && (#[trigger] m1.pairs()[i]).0 == key@;
                    let p = m1.pairs()[i];
                    assert(m1.pairs().contains(p));
                    assert(p == (key@, p.1));
                    assert(old(self).spec_contains_pair(key@, p.1) && p.1 != value@);
                }
                if old(self).has_other_value_for_key(key@, value@) {
                    let v2 = choose|v2: Seq<char>|
                        old(self).spec_contains_pair(key@, v2) && v2 != value@;
                    assert(m1.pairs().contains((key@, v2)));
                    let j = choose|j: int|
                        0 <= j < m1.pairs().len() && m1.pairs()[j] == (key@, v2);
                    assert((m1.pairs()[j]).0 == key@);
                }
            }
            // A pair struck by value that was keyed by `key` itself rules out a
            // second strike, and conversely.
            if old_key is Some && old_value is Some {
                let k1 = old_key->0;
                assert(old(self).spec_contains_pair(k1@, value@));
                if k1@ == key@ {
                    let v2 = choose|v2: Seq<char>|
                        old(self).spec_contains_pair(key@, v2) && v2 != value@;
                    lemma_bijection(old(self));
                }
                assert(old(self).has_other_key_for_value(key@, value@));
            }
            if old(self).has_other_key_for_value(key@, value@) {
                let k2 = choose|k2: Seq<char>|
                    old(self).spec_contains_pair(k2, value@) && k2 != key@;
                let j = choose|j: int|
                    0 <= j < old(self).pairs().len() && old(self).pairs()[j] == (k2, value@);
                assert((old(self).pairs()[j]).1 == value@);
                assert(old(self).spec_contains_value(value@));
            }
        }
        match (old_key, old_value) {
            (Some(k), Some(v)) => Some((k, v)),
            _ => None,
        }
    }

    /// Empties the map.
    pub fn clear(&mut self)
        ensures
            final(self).wf(),
            final(self).spec_len() == 0,
    {
        self.forward.clear();
        self.reverse.clear();
        proof {
            assert(self.pairs() =~= Seq::<(Seq<char>, Seq<char>)>::empty());
            assert(self.reverse_pairs() =~= Seq::<(Seq<char>, Seq<char>)>::empty());
        }
    }

    /// The pairs held, as owned strings.
    pub fn iter(&self) -> (r: Vec<(String, String)>)
        ensures
            r.deep_view() == self.pairs(),
    {
        let n = self.forward.len();
        let mut r: Vec<(String, String)> = Vec::new();
        let mut i: usize = 0;
        while i < n
            invariant
                n == self.pairs().len(),
                0 <= i <= n,
                r.deep_view().len() == i,
                forall|j: int| 0 <= j < i ==> #[trigger] r.deep_view()[j] == self.pairs()[j],
            decreases n - i,
        {
            let k = self.forward[i].0.clone();
            let v = self.forward[i].1.clone();
            let ghost r0 = r;
            r.push((k, v));
            proof {
                assert forall|j: int| 0 <= j < i + 1 implies #[trigger] r.deep_view()[j]
                    == self.pairs()[j] by {
                    assert(r.deep_view()[j] == r@[j].deep_view());
                    if j < i {
                        assert(r@[j] == r0@[j]);
                        assert(r0.deep_view()[j] == r0@[j].deep_view());
                    } else {
                        assert(r@[j] == (k, v));
                    }
                }
            }
            i += 1;
        }
        proof {
            assert(r.deep_view() =~= self.pairs());
        }
        r
    }

    /// The keys of the pairs held.
    pub fn keys(&self) -> (r: Vec<String>)
        ensures
            r.deep_view().len() == self.spec_len(),
            forall|j: int|
                0 <= j < self.spec_len() ==> #[trigger] r.deep_view()[j] == (self.pairs()[j]).0,
    {
        let n = self.forward.len();
        let mut r: Vec<String> = Vec::new();
        let mut i: usize = 0;
        while i < n
            invariant
                n == self.pairs().len(),
                0 <= i <= n,
                r.deep_view().len() == i,
                forall|j: int| 0 <= j < i ==> #[trigger] r.deep_view()[j] == (self.pairs()[j]).0,
            decreases n - i,
        {
            let k = self.forward[i].0.clone();
            let ghost r0 = r;
            r.push(k);
            proof {
                assert forall|j: int| 0 <= j < i + 1 implies #[trigger] r.deep_view()[j] == (
                self.pairs()[j]).0 by {
                    assert(r.deep_view()[j] == r@[j].deep_view());
                    if j < i {
                        assert(r@[j] == r0@[j]);
                        assert(r0.deep_view()[j] == r0@[j].deep_view());
                    } else {
                        assert(r@[j] == k);
                    }
                }
            }
            i += 1;
        }
        r
    }

    /// The values of the pairs held.
    pub fn values(&self) -> (r: Vec<String>)
        ensures
            r.deep_view().len() == self.spec_len(),
            forall|j: int|
                0 <= j < self.spec_len() ==> #[trigger] r.deep_view()[j] == (self.pairs()[j]).1,
    {
        let n = self.forward.len();
        let mut r: Vec<String> = Vec::new();
        let mut i: usize = 0;
        while i < n
            invariant
                n == self.pairs().len(),
                0 <= i <= n,
                r.deep_view().len() == i,
                forall|j: int| 0 <= j < i ==> #[trigger] r.deep_view()[j] == (self.pairs()[j]).1,
            decreases n - i,
        {
            let v = self.forward[i].1.clone();
            let ghost r0 = r;
            r.push(v);
            proof {
                assert forall|j: int| 0 <= j < i + 1 implies #[trigger] r.deep_view()[j] == (
                self.pairs()[j]).1 by {
                    assert(r.deep_view()[j] == r@[j].deep_view());
                    if j < i {
                        assert(r@[j] == r0@[j]);
                        assert(r0.deep_view()[j] == r0@[j].deep_view());
                    } else {
                        assert(r@[j] == v);
                    }
                }
            }
            i += 1;
        }
        r
    }
}

/// Appending a pair whose key and value are both fresh preserves
/// well-formedness.
proof fn lemma_push_wf(m2: BiMap, m3: BiMap, k: Seq<char>, v: Seq<char>)
    requires
        m2.wf(),
        m3.pairs() == m2.pairs().push((k, v)),
        m3.reverse_pairs() == m2.reverse_pairs().push((v, k)),
        forall|j: int| 0 <= j < m2.pairs().len() ==> (#[trigger] m2.pairs()[j]).0 != k,
        forall|j: int| 0 <= j < m2.pairs().len() ==> (#[trigger] m2.pairs()[j]).1 != v,
    ensures
        m3.wf(),
{
    let n = m2.pairs().len() as int;
    assert forall|i: int| 0 <= i < m3.pairs().len() implies (#[trigger] m3.reverse_pairs()[i])
        == (m3.pairs()[i].1, m3.pairs()[i].0) by {
        if i < n {
            assert(m3.pairs()[i] == m2.pairs()[i]);
            assert(m3.reverse_pairs()[i] == m2.reverse_pairs()[i]);
        } else {
            assert(m3.pairs()[i] == (k, v));
            assert(m3.reverse_pairs()[i] == (v, k));
        }
    }
    assert forall|i: int, j: int| 0 <= i < j < m3.pairs().len() implies (#[trigger] m3.pairs()[i]).0
        != (#[trigger] m3.pairs()[j]).0 by {
        if j < n {
            assert(m3.pairs()[i] == m2.pairs()[i]);
            assert(m3.pairs()[j] == m2.pairs()[j]);
        } else {
            assert(m3.pairs()[i] == m2.pairs()[i]);
            assert(m3.pairs()[j] == (k, v));
        }
    }
    assert forall|i: int, j: int| 0 <= i < j < m3.pairs().len() implies (#[trigger] m3.pairs()[i]).1
        != (#[trigger] m3.pairs()[j]).1 by {
        if j < n {
            assert(m3.pairs()[i] == m2.pairs()[i]);
            assert(m3.pairs()[j] == m2.pairs()[j]);
        } else {
            assert(m3.pairs()[i] == m2.pairs()[i]);
            assert(m3.pairs()[j] == (k, v));
        }
    }
}

/// Membership through a removal: the new map holds exactly the old pairs
/// except the one at index `i`, and under well-formedness that pair is the
/// only one sharing its key or its value.
proof fn lemma_remove_membership(m0: &BiMap, m1: &BiMap, i: int)
    requires
        m0.wf(),
        0 <= i < m0.pairs().len(),
        m1.pairs() == m0.pairs().remove(i),
    ensures
        forall|p: (Seq<char>, Seq<char>)|
            #[trigger] m1.pairs().contains(p) <==> (m0.pairs().contains(p) && p.0 != (
            m0.pairs()[i]).0),
        forall|p: (Seq<char>, Seq<char>)|
            #[trigger] m1.pairs().contains(p) <==> (m0.pairs().contains(p) && p.1 != (
            m0.pairs()[i]).1),
{
    let op = m0.pairs();
    let np = m1.pairs();
    assert forall|p: (Seq<char>, Seq<char>)| #[trigger] np.contains(p) implies (op.contains(p)
        && p.0 != op[i].0 && p.1 != op[i].1) by {
        let j = choose|j: int| 0 <= j < np.len() && np[j] == p;
        if j < i {
            assert(op[j] == p);
            assert(op.contains(p));
        } else {
            assert(op[j + 1] == p);
            assert(op.contains(p));
        }
    }
    assert forall|p: (Seq<char>, Seq<char>)|
        op.contains(p) && (p.0 != op[i].0 || p.1 != op[i].1) implies #[trigger] np.contains(
        p,
    ) by {
        let j = choose|j: int| 0 <= j < op.len() && op[j] == p;
        assert(j != i);
        if j < i {
            assert(np[j] == p);
        } else {
            assert(np[j - 1] == p);
        }
    }
}

/// Membership through a push: the last pair is held, and every other held
/// pair was held before the push.
proof fn lemma_push_membership(m: &BiMap)
    requires
        m.pairs().len() > 0,
    ensures
        forall|p: (Seq<char>, Seq<char>)|
            #[trigger] m.pairs().contains(p) <==> (p == m.pairs().last() || m.pairs().subrange(
                0,
                m.pairs().len() - 1,
            ).contains(p)),
{
    let s = m.pairs();
    let prefix = s.subrange(0, s.len() - 1);
    assert forall|p: (Seq<char>, Seq<char>)| #[trigger] s.contains(p) implies (p == s.last()
        || prefix.contains(p)) by {
        let j = choose|j: int| 0 <= j < s.len() && s[j] == p;
        if j < s.len() - 1 {
            assert(prefix[j] == p);
        }
    }
    assert forall|p: (Seq<char>, Seq<char>)|
        p == s.last() || prefix.contains(p) implies #[trigger] s.contains(p) by {
        if p == s.last() {
            assert(s[s.len() - 1] == p);
        } else {
            let j = choose|j: int| 0 <= j < prefix.len() && prefix[j] == p;
            assert(s[j] == p);
        }
    }
}

/// Bijection law: a well-formed map pairs keys and values one to one — the
/// two directions hold equally many pairs, no value is reachable from two
/// keys, and no key is reachable from two values.
pub proof fn lemma_bijection(m: &BiMap)
    requires
        m.wf(),
    ensures
        m.reverse_pairs().len() == m.pairs().len(),
        forall|k1: Seq<char>, k2: Seq<char>, v: Seq<char>|
            m.spec_contains_pair(k1, v) && m.spec_contains_pair(k2, v) ==> k1 == k2,
        forall|k: Seq<char>, v1: Seq<char>, v2: Seq<char>|
            m.spec_contains_pair(k, v1) && m.spec_contains_pair(k, v2) ==> v1 == v2,
{
    let s = m.pairs();
    assert forall|k1: Seq<char>, k2: Seq<char>, v: Seq<char>|
        m.spec_contains_pair(k1, v) && m.spec_contains_pair(k2, v) implies k1 == k2 by {
        let i = choose|i: int| 0 <= i < s.len() && s[i] == (k1, v);
        let j = choose|j: int| 0 <= j < s.len() && s[j] == (k2, v);
        if i != j {
            assert((s[i]).1 == (s[j]).1);
        }
    }
    assert forall|k: Seq<char>, v1: Seq<char>, v2: Seq<char>|
        m.spec_contains_pair(k, v1) && m.spec_contains_pair(k, v2) implies v1 == v2 by {
        let i = choose|i: int| 0 <= i < s.len() && s[i] == (k, v1);
        let j = choose|j: int| 0 <= j < s.len() && s[j] == (k, v2);
        if i != j {
            assert((s[i]).0 == (s[j]).0);
        }
    }
}

} // verus!
