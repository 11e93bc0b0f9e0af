//! Values found by a numeric id, kept in increasing order of the id.

use vstd::prelude::*;

verus! {

/// Whether ids stand in increasing order, none twice.
pub open spec fn increasing(s: Seq<u64>) -> bool {
    forall|i: int, j: int| 0 <= i < j < s.len() ==> #[trigger] s[i] < #[trigger] s[j]
}

/// Whether `s` holds exactly the ids that have a property, in increasing
/// order. There is only one such sequence.
pub open spec fn lists(s: Seq<u64>, p: spec_fn(u64) -> bool) -> bool {
    &&& increasing(s)
    &&& forall|k: u64| #[trigger] s.contains(k) <==> p(k)
}

/// A map from ids to values.
pub struct IdMap<V> {
    keys: Vec<u64>,
    values: Vec<V>,
}

impl<V> View for IdMap<V> {
    type V = Map<u64, V>;

    closed spec fn view(&self) -> Map<u64, V> {
        Map::new(
            |k: u64| self.keys@.contains(k),
            |k: u64| self.values@[self.keys@.index_of(k)],
        )
    }
}

impl<V> IdMap<V> {
    /// The ids, in increasing order.
    pub closed spec fn ids(&self) -> Seq<u64> {
        self.keys@
    }

    /// Every id has its value, and the ids are in order.
    pub closed spec fn wf(&self) -> bool {
        &&& self.keys@.len() == self.values@.len()
        &&& increasing(self.keys@)
    }

    /// The ids are those that the map holds.
    pub proof fn lemma_ids(&self)
        requires
            self.wf(),
        ensures
            increasing(self.ids()),
            forall|k: u64| #[trigger] self.ids().contains(k) <==> self@.contains_key(k),
            lists(self.ids(), |k: u64| self@.contains_key(k)),
            self@.dom().finite(),
    {
        assert(self@.dom() =~= self.keys@.to_set());
        vstd::seq_lib::seq_to_set_is_finite(self.keys@);
    }

    /// The value at a position is that of the id there.
    proof fn lemma_at(&self, i: int)
        requires
            self.wf(),
            0 <= i < self.keys@.len(),
        ensures
            self@.contains_key(self.keys@[i]),
            self@[self.keys@[i]] == self.values@[i],
            self.keys@.index_of(self.keys@[i]) == i,
    {
        let k = self.keys@[i];
        assert(self.keys@.contains(k));
        let j = self.keys@.index_of(k);
        assert(self.keys@[j] == k);
    }

    /// An empty map.
    pub fn new() -> (r: Self)
        ensures
            r.wf(),
            r@ == Map::<u64, V>::empty(),
    {
        let r: IdMap<V> = IdMap { keys: Vec::new(), values: Vec::new() };
        assert(r@ =~= Map::<u64, V>::empty());
        r
    }

    /// How many ids there are.
    pub fn len(&self) -> (r: usize)
        requires
            self.wf(),
        ensures
            r == self.ids().len(),
    {
        self.keys.len()
    }

    /// The id at a position.
    pub fn id_at(&self, i: usize) -> (r: u64)
        requires
            self.wf(),
            i < self.ids().len(),
        ensures
            r == self.ids()[i as int],
            self@.contains_key(r),
    {
        proof {
            self.lemma_at(i as int);
        }
        self.keys[i]
    }

    /// The value at a position.
    pub fn value_at(&self, i: usize) -> (r: &V)
        requires
            self.wf(),
            i < self.ids().len(),
        ensures
            *r == self@[self.ids()[i as int]],
    {
        proof {
            self.lemma_at(i as int);
        }
        &self.values[i]
    }

    /// The first position whose id is not below `k`.
    fn seek(&self, k: u64) -> (r: usize)
        requires
            self.wf(),
        ensures
            r <= self.keys@.len(),
            forall|i: int| 0 <= i < r ==> self.keys@[i] < k,
            forall|i: int| r <= i < self.keys@.len() ==> self.keys@[i] >= k,
    {
        let mut i: usize = 0;
        while i < self.keys.len() && self.keys[i] < k
            invariant
                self.wf(),
                i <= self.keys@.len(),
                forall|j: int| 0 <= j < i ==> self.keys@[j] < k,
            decreases self.keys@.len() - i,
        {
            i = i + 1;
        }
        i
    }

    /// Where an id is.
    fn find(&self, k: u64) -> (r: Option<usize>)
        requires
            self.wf(),
        ensures
            match r {
                Some(i) => i < self.keys@.len() && self.keys@[i as int] == k
                    && self@.contains_key(k) && self@[k] == self.values@[i as int],
                None => !self@.contains_key(k),
            },
    {
        let i: usize = self.seek(k);
        if i < self.keys.len() && self.keys[i] == k {
            proof {
                self.lemma_at(i as int);
            }
            Some(i)
        } else {
            None
        }
    }

    pub fn contains(&self, k: u64) -> (r: bool)
        requires
            self.wf(),
        ensures
            r == self@.contains_key(k),
    {
        self.find(k).is_some()
    }

    /// The value of an id.
    pub fn get(&self, k: u64) -> (r: Option<&V>)
        requires
            self.wf(),
        ensures
            match r {
                Some(v) => self@.contains_key(k) && *v == self@[k],
                None => !self@.contains_key(k),
            },
    {
        match self.find(k) {
            Some(i) => Some(&self.values[i]),
            None => None,
        }
    }

    /// The value of an id, to change it.
    pub fn get_mut(&mut self, k: u64) -> (r: Option<&mut V>)
        requires
            old(self).wf(),
        ensures
            final(self).wf(),
            final(self).ids() == old(self).ids(),
            match r {
                Some(v) => old(self)@.contains_key(k) && *v == old(self)@[k] && final(self)@
                    == old(self)@.insert(k, *final(v)),
                None => !old(self)@.contains_key(k) && *final(self) == *old(self),
            },
    {
        match self.find(k) {
            Some(i) => {
                let v: &mut V = &mut self.values[i];
                proof {
                    let before = *old(self);
                    assert(before.keys@[i as int] == k);
                    assert forall|after: IdMap<V>, x: V|
                        after.keys == before.keys && after.values@ == #[trigger] before.values@.update(
                            i as int,
                            x,
                        ) implies #[trigger] after@ == before@.insert(k, x) by {
                        lemma_update(before, after, i as int, x);
                    }
                }
                Some(v)
            },
            None => None,
        }
    }

    /// Put a value for an id in, in place of the one that it had.
    pub fn insert(&mut self, k: u64, v: V)
        requires
            old(self).wf(),
        ensures
            final(self).wf(),
            final(self)@ == old(self)@.insert(k, v),
    {
        let i: usize = self.seek(k);
        let ghost before = *self;
        if i < self.keys.len() && self.keys[i] == k {
            self.values.set(i, v);
            proof {
                lemma_update(before, *self, i as int, v);
            }
        } else {
            self.keys.insert(i, k);
            self.values.insert(i, v);
            proof {
                let after = *self;
                assert(increasing(after.keys@)) by {
                    assert forall|a: int, b: int| 0 <= a < b < after.keys@.len() implies #[trigger] after.keys@[a]
                        < #[trigger] after.keys@[b] by {
                        let a0 = if a > i {
                            a - 1
                        } else {
                            a
                        };
                        let b0 = if b > i {
                            b - 1
                        } else {
                            b
                        };
                        if a != i && b != i {
                            assert(before.keys@[a0] < before.keys@[b0]);
                        }
                    }
                }
                assert(after@ =~= before@.insert(k, v)) by {
                    after.lemma_at(i as int);
                    assert forall|x: u64| x != k implies after.keys@.contains(x)
                        == before.keys@.contains(x) by {
                        if after.keys@.contains(x) {
                            let a = after.keys@.index_of(x);
                            let a0 = if a > i {
                                a - 1
                            } else {
                                a
                            };
                            assert(before.keys@[a0] == x);
                        }
                        if before.keys@.contains(x) {
                            let b = before.keys@.index_of(x);
                            let b1 = if b >= i {
                                b + 1
                            } else {
                                b
                            };
                            assert(after.keys@[b1] == x);
                        }
                    }
                    assert forall|x: u64| x != k && before.keys@.contains(x) implies after@[x]
                        == before@[x] by {
                        let b = before.keys@.index_of(x);
                        let b1 = if b >= i {
                            b + 1
                        } else {
                            b
                        };
                        after.lemma_at(b1);
                        before.lemma_at(b);
                    }
                }
            }
        }
    }

    /// Take the value of an id out.
    pub fn remove(&mut self, k: u64) -> (r: Option<V>)
        requires
            old(self).wf(),
        ensures
            final(self).wf(),
            final(self)@ == old(self)@.remove(k),
            match r {
                Some(v) => old(self)@.contains_key(k) && v == old(self)@[k],
                None => !old(self)@.contains_key(k),
            },
    {
        let ghost before = *self;
        match self.find(k) {
            Some(i) => {
                self.keys.remove(i);
                let v: V = self.values.remove(i);
                proof {
                    let after = *self;
                    assert(increasing(after.keys@)) by {
                        assert forall|a: int, b: int| 0 <= a < b < after.keys@.len() implies #[trigger] after.keys@[a]
                            < #[trigger] after.keys@[b] by {
                            let a1 = if a >= i {
                                a + 1
                            } else {
                                a
                            };
                            let b1 = if b >= i {
                                b + 1
                            } else {
                                b
                            };
                            assert(before.keys@[a1] < before.keys@[b1]);
                        }
                    }
                    assert(after@ =~= before@.remove(k)) by {
                        assert forall|x: u64| after.keys@.contains(x) == (before.keys@.contains(x)
                            && x != k) by {
                            if after.keys@.contains(x) {
                                let a = after.keys@.index_of(x);
                                let a1 = if a >= i {
                                    a + 1
                                } else {
                                    a
                                };
                                assert(before.keys@[a1] == x);
                                if x == k {
                                    assert(before.keys@[i as int] == k);
                                    before.lemma_at(a1);
                                    before.lemma_at(i as int);
                                }
                            }
                            if before.keys@.contains(x) && x != k {
                                let b = before.keys@.index_of(x);
                                let b0 = if b > i {
                                    b - 1
                                } else {
                                    b
                                };
                                assert(after.keys@[b0] == x);
                            }
                        }
                        assert forall|x: u64| after.keys@.contains(x) implies after@[x]
                            == before@[x] by {
                            let a = after.keys@.index_of(x);
                            let a1 = if a >= i {
                                a + 1
                            } else {
                                a
                            };
                            after.lemma_at(a);
                            before.lemma_at(a1);
                        }
                    }
                }
                Some(v)
            },
            None => {
                assert(before@.remove(k) =~= before@);
                None
            },
        }
    }
}

/// Changing the value at a position changes that of the id there, and no
/// other.
proof fn lemma_update<V>(before: IdMap<V>, after: IdMap<V>, i: int, x: V)
    requires
        before.wf(),
        0 <= i < before.keys@.len(),
        after.keys == before.keys,
        after.values@ == before.values@.update(i, x),
    ensures
        after.wf(),
        after@ == before@.insert(before.keys@[i], x),
{
    let k = before.keys@[i];
    before.lemma_at(i);
    assert forall|y: u64| y != k && before.keys@.contains(y) implies before.keys@.index_of(y)
        != i by {
        let j = before.keys@.index_of(y);
        assert(before.keys@[j] == y);
    }
    assert(after@ =~= before@.insert(k, x));
}

/// Two sequences that list the same ids are the same.
pub proof fn law_lists_unique(a: Seq<u64>, b: Seq<u64>, p: spec_fn(u64) -> bool)
    requires
        lists(a, p),
        lists(b, p),
    ensures
        a == b,
    decreases a.len(),
{
    if a.len() == 0 {
        if b.len() > 0 {
            assert(b.contains(b[0]));
            assert(a.contains(b[0]));
        }
        assert(a =~= b);
    } else {
        assert(a.contains(a.last()));
        assert(b.contains(a.last()));
        assert(b.contains(b.last()));
        assert(a.contains(b.last()));
        let i = choose|i: int| 0 <= i < a.len() && a[i] == b.last();
        let j = choose|j: int| 0 <= j < b.len() && b[j] == a.last();
        assert(a.last() == b.last()) by {
            if i < a.len() - 1 {
                assert(a[i] < a[a.len() - 1]);
            }
            if j < b.len() - 1 {
                assert(b[j] < b[b.len() - 1]);
            }
        }
        let l = a.last();
        let q = |k: u64| p(k) && k != l;
        assert(lists(a.drop_last(), q)) by {
            lemma_lists_drop(a, p);
        }
        assert(lists(b.drop_last(), q)) by {
            lemma_lists_drop(b, p);
        }
        law_lists_unique(a.drop_last(), b.drop_last(), q);
        assert(a =~= a.drop_last().push(l));
        assert(b =~= b.drop_last().push(l));
    }
}

/// Whether `s` lists those of the first `n` ids that have a property.
pub open spec fn lists_upto(s: Seq<u64>, ids: Seq<u64>, n: int, p: spec_fn(u64) -> bool) -> bool {
    lists(s, |k: u64| ids.take(n).contains(k) && p(k))
}

/// Nothing lists none of the ids.
pub proof fn lemma_lists_start(ids: Seq<u64>, p: spec_fn(u64) -> bool)
    ensures
        lists_upto(Seq::empty(), ids, 0, p),
{
}

/// One more id is listed where it has the property.
pub proof fn lemma_lists_step(s: Seq<u64>, ids: Seq<u64>, n: int, p: spec_fn(u64) -> bool)
    requires
        increasing(ids),
        0 <= n < ids.len(),
        lists_upto(s, ids, n, p),
    ensures
        lists_upto(
            if p(ids[n]) {
                s.push(ids[n])
            } else {
                s
            },
            ids,
            n + 1,
            p,
        ),
{
    let k0 = ids[n];
    let a = ids.take(n);
    let b = ids.take(n + 1);
    assert(b =~= a.push(k0));
    assert forall|k: u64| #[trigger] b.contains(k) <==> (a.contains(k) || k == k0) by {
        if b.contains(k) {
            let i = choose|i: int| 0 <= i < b.len() && b[i] == k;
            if i < n {
                assert(a[i] == k);
            }
        }
        if a.contains(k) {
            let i = choose|i: int| 0 <= i < a.len() && a[i] == k;
            assert(b[i] == k);
        }
        assert(b[n] == k0);
    }
    assert(!a.contains(k0)) by {
        if a.contains(k0) {
            let i = choose|i: int| 0 <= i < a.len() && a[i] == k0;
            assert(ids[i] < ids[n]);
        }
    }
    if p(k0) {
        let t = s.push(k0);
        assert forall|i: int, j: int| 0 <= i < j < t.len() implies #[trigger] t[i] < #[trigger] t[
            j
        ] by {
            if j < s.len() {
                assert(s[i] < s[j]);
            } else {
                assert(s.contains(s[i]));
                assert(a.contains(s[i]));
                let m = choose|m: int| 0 <= m < a.len() && a[m] == s[i];
                assert(ids[m] < ids[n]);
            }
        }
        assert forall|k: u64| #[trigger] t.contains(k) <==> (b.contains(k) && p(k)) by {
            assert(t[s.len() as int] == k0);
            if t.contains(k) {
                let i = choose|i: int| 0 <= i < t.len() && t[i] == k;
                if i < s.len() {
                    assert(s[i] == k);
                    assert(s.contains(k));
                }
            }
            if s.contains(k) {
                let i = choose|i: int| 0 <= i < s.len() && s[i] == k;
                assert(t[i] == k);
            }
        }
    } else {
        assert forall|k: u64| #[trigger] s.contains(k) <==> (b.contains(k) && p(k)) by {}
    }
}

/// What lists all of the ids that have a property lists everything that has
/// it, where only they do.
pub proof fn lemma_lists_end(s: Seq<u64>, ids: Seq<u64>, p: spec_fn(u64) -> bool)
    requires
        lists_upto(s, ids, ids.len() as int, p),
        forall|k: u64| #[trigger] p(k) ==> ids.contains(k),
    ensures
        lists(s, p),
{
    assert(ids.take(ids.len() as int) =~= ids);
    assert forall|k: u64| #[trigger] s.contains(k) <==> p(k) by {
        if p(k) {
            assert(ids.contains(k));
        }
    }
}

/// Without its last id, a list lists the others.
proof fn lemma_lists_drop(a: Seq<u64>, p: spec_fn(u64) -> bool)
    requires
        lists(a, p),
        a.len() > 0,
    ensures
        lists(a.drop_last(), |k: u64| p(k) && k != a.last()),
{
    let d = a.drop_last();
    assert forall|i: int, j: int| 0 <= i < j < d.len() implies #[trigger] d[i] < #[trigger] d[j] by {
        assert(a[i] < a[j]);
    }
    assert forall|k: u64| #[trigger] d.contains(k) <==> (p(k) && k != a.last()) by {
        if d.contains(k) {
            let i = choose|i: int| 0 <= i < d.len() && d[i] == k;
            assert(a[i] == k);
            assert(a.contains(k));
            assert(a[i] < a[a.len() - 1]);
        }
        if p(k) && k != a.last() {
            assert(a.contains(k));
            let i = choose|i: int| 0 <= i < a.len() && a[i] == k;
            assert(d[i] == k);
        }
    }
}

} // verus!
