//! Association table: the keyed collection behind the engine and the nets.

use vstd::prelude::*;

verus! {

/// A key that can be compared and copied by what it denotes.
pub trait Key: View + Sized {
    /// Whether both keys denote the same value.
    fn same(&self, other: &Self) -> (r: bool)
        ensures
            r == (self@ == other@),
    ;

    /// A second key denoting the same value.
    fn dup(&self) -> (r: Self)
        ensures
            r@ == self@,
    ;
}

impl Key for u64 {
    fn same(&self, other: &Self) -> (r: bool) {
        *self == *other
    }

    fn dup(&self) -> (r: Self) {
        *self
    }
}

impl Key for u32 {
    fn same(&self, other: &Self) -> (r: bool) {
        *self == *other
    }

    fn dup(&self) -> (r: Self) {
        *self
    }
}

impl Key for String {
    fn same(&self, other: &Self) -> (r: bool) {
        *self == *other
    }

    fn dup(&self) -> (r: Self) {
        self.clone()
    }
}

impl<A: Key, B: Key> Key for (A, B) {
    fn same(&self, other: &Self) -> (r: bool) {
        self.0.same(&other.0) && self.1.same(&other.1)
    }

    fn dup(&self) -> (r: Self) {
        (self.0.dup(), self.1.dup())
    }
}

impl<A: Key, B: Key, C: Key> Key for (A, B, C) {
    fn same(&self, other: &Self) -> (r: bool) {
        self.0.same(&other.0) && self.1.same(&other.1) && self.2.same(&other.2)
    }

    fn dup(&self) -> (r: Self) {
        (self.0.dup(), self.1.dup(), self.2.dup())
    }
}

/// A test on the entries of a [`Table`].
pub trait Keep<K: Key, V: View> {
    /// Whether the entry stays.
    spec fn stays(&self, k: K::V, v: V::V) -> bool;

    fn keep(&self, k: &K, v: &V) -> (r: bool)
        ensures
            r == self.stays(k@, v@),
    ;
}

/// A change applied to every value of a [`Table`].
pub trait Change<V: View> {
    /// What values the change applies to; it keeps them so.
    spec fn applies(&self, v: V::V) -> bool;

    /// The changed value.
    spec fn changed(&self, v: V::V) -> V::V;

    fn change(&self, v: &mut V)
        requires
            self.applies(old(v)@),
        ensures
            final(v)@ == self.changed(old(v)@),
            self.applies(final(v)@),
    ;
}

/// The entries of `m` that pass the test.
pub open spec fn kept<A, B>(m: Map<A, B>, test: spec_fn(A, B) -> bool) -> Map<A, B> {
    Map::new(|k: A| m.contains_key(k) && test(k, m[k]), |k: A| m[k])
}

/// Map from keys to values, each key at most once.
///
/// Its view is the map from what the keys denote to what the values denote.
pub struct Table<K: Key, V: View> {
    keys: Vec<K>,
    vals: Vec<V>,
}

impl<K: Key, V: View> View for Table<K, V> {
    type V = Map<K::V, V::V>;

    closed spec fn view(&self) -> Map<K::V, V::V> {
        Map::new(
            |k: K::V| exists|i: int| 0 <= i < self.keys@.len() && #[trigger] self.keys@[i]@ == k,
            |k: K::V| self.vals@[self.slot(k)]@,
        )
    }
}

impl<K: Key, V: View> Table<K, V> {
    #[verifier::type_invariant]
    spec fn distinct(self) -> bool {
        &&& self.keys@.len() == self.vals@.len()
        &&& forall|i: int, j: int|
            0 <= i < j < self.keys@.len() ==> #[trigger] self.keys@[i]@ != #[trigger] self.keys@[j]@
    }

    /// Position of `k` among the keys.
    spec fn slot(&self, k: K::V) -> int {
        choose|i: int| 0 <= i < self.keys@.len() && #[trigger] self.keys@[i]@ == k
    }

    proof fn lemma_at(self, i: int)
        requires
            self.distinct(),
            0 <= i < self.keys@.len(),
        ensures
            self@.contains_key(self.keys@[i]@),
            self@[self.keys@[i]@] == self.vals@[i]@,
    {
        let k = self.keys@[i]@;
        let j = self.slot(k);
        assert(self.keys@[j]@ == k);
        if i < j {
            assert(self.keys@[i]@ != self.keys@[j]@);
        } else if j < i {
            assert(self.keys@[j]@ != self.keys@[i]@);
        }
    }

    pub fn new() -> (r: Self)
        ensures
            r@ == Map::<K::V, V::V>::empty(),
    {
        let r = Table { keys: Vec::new(), vals: Vec::new() };
        assert(r@ =~= Map::<K::V, V::V>::empty());
        r
    }

    /// Position of `k`, or the number of entries when it is absent.
    fn find(&self, k: &K) -> (r: usize)
        ensures
            r <= self.keys@.len(),
            r < self.keys@.len() ==> self.keys@[r as int]@ == k@,
            r == self.keys@.len() ==> !self@.contains_key(k@),
    {
        let mut i: usize = 0;
        while i < self.keys.len()
            invariant
                i <= self.keys@.len(),
                forall|j: int| 0 <= j < i ==> #[trigger] self.keys@[j]@ != k@,
            decreases self.keys@.len() - i,
        {
            if self.keys[i].same(k) {
                return i;
            }
            i = i + 1;
        }
        i
    }

    pub fn contains(&self, k: &K) -> (r: bool)
        ensures
            r == self@.contains_key(k@),
    {
        let i: usize = self.find(k);
        i < self.keys.len()
    }

    pub fn get(&self, k: &K) -> (r: Option<&V>)
        ensures
            match r {
                Some(v) => self@.contains_key(k@) && v@ == self@[k@],
                None => !self@.contains_key(k@),
            },
    {
        let i: usize = self.find(k);
        if i < self.keys.len() {
            proof {
                use_type_invariant(self);
                self.lemma_at(i as int);
            }
            Some(&self.vals[i])
        } else {
            None
        }
    }

    pub fn get_mut(&mut self, k: &K) -> (r: Option<&mut V>)
        ensures
            match r {
                Some(v) => old(self)@.contains_key(k@) && (*v)@ == old(self)@[k@] && final(self)@
                    == old(self)@.insert(k@, (*final(v))@),
                None => !old(self)@.contains_key(k@) && final(self)@ == old(self)@,
            },
    {
        let i: usize = self.find(k);
        if i < self.keys.len() {
            proof {
                use_type_invariant(&*self);
                self.lemma_at(i as int);
            }
            Some(&mut self.vals[i])
        } else {
            None
        }
    }

    /// Binds `k` to `v`, replacing an earlier binding.
    pub fn insert(&mut self, k: K, v: V)
        ensures
            final(self)@ == old(self)@.insert(k@, v@),
    {
        proof {
            use_type_invariant(&*self);
        }
        match self.get_mut(&k) {
            Some(slot) => {
                *slot = v;
            },
            None => {
                self.append(k, v);
            },
        }
    }

    /// The value bound to `k`, after binding `k` to `v` when it has none.
    pub fn entry(&mut self, k: K, v: V) -> (r: &mut V)
        ensures
            r@ == (if old(self)@.contains_key(k@) {
                old(self)@[k@]
            } else {
                v@
            }),
            final(self)@ == old(self)@.insert(k@, final(r)@),
    {
        let at: usize = self.find(&k);
        let probe = k.dup();
        if at >= self.keys.len() {
            self.append(k, v);
        }
        let i: usize = self.find(&probe);
        proof {
            use_type_invariant(&*self);
            self.lemma_at(i as int);
            let mid = self@;
            assert forall|x: V::V| mid.insert(k@, x) == #[trigger] old(self)@.insert(k@, x) by {
                assert(mid.insert(k@, x) =~= old(self)@.insert(k@, x));
            }
        }
        &mut self.vals[i]
    }

    /// Adds a binding for a key that has none.
    fn append(&mut self, k: K, v: V)
        requires
            !old(self)@.contains_key(k@),
        ensures
            final(self)@ == old(self)@.insert(k@, v@),
    {
        proof {
            use_type_invariant(&*self);
        }
        let ghost before = *self;
        let (mut keys, mut vals) = take_apart(self);
        assert forall|i: int| 0 <= i < keys@.len() implies before@.contains_key(#[trigger] keys@[i]@) by {
            assert(before.keys@[i]@ == keys@[i]@);
        }
        keys.push(k);
        vals.push(v);
        *self = Table { keys, vals };
        proof {
            let now = *self;
            let n = before.keys@.len() as int;
            assert(now.keys@[n]@ == k@);
            assert forall|q: K::V| now@.contains_key(q) <==> before@.insert(k@, v@).contains_key(q) by {
                if before@.contains_key(q) {
                    let i = before.slot(q);
                    assert(now.keys@[i]@ == q);
                }
                if now@.contains_key(q) {
                    let i = now.slot(q);
                    if i < n {
                        assert(before.keys@[i]@ == q);
                    }
                }
            }
            assert forall|q: K::V| now@.contains_key(q) implies now@[q] == before@.insert(k@, v@)[q] by {
                let i = now.slot(q);
                now.lemma_at(i);
                if i < n {
                    before.lemma_at(i);
                    assert(before.keys@[i]@ == q);
                }
            }
            assert(now@ =~= before@.insert(k@, v@));
        }
    }

    /// Removes the binding of `k` and hands its value back.
    pub fn remove(&mut self, k: &K) -> (r: Option<V>)
        ensures
            final(self)@ == old(self)@.remove(k@),
            match r {
                Some(v) => old(self)@.contains_key(k@) && v@ == old(self)@[k@],
                None => !old(self)@.contains_key(k@),
            },
    {
        let at: usize = self.find(k);
        if at >= self.keys.len() {
            assert(self@ =~= old(self)@.remove(k@));
            return None;
        }
        proof {
            use_type_invariant(&*self);
            self.lemma_at(at as int);
        }
        let ghost before = *self;
        let (mut keys, mut vals) = take_apart(self);
        let gone = keys.remove(at);
        let v = vals.remove(at);
        *self = Table { keys, vals };
        proof {
            let now = *self;
            let a = at as int;
            assert forall|q: K::V| now@.contains_key(q) <==> before@.remove(k@).contains_key(q) by {
                if before@.contains_key(q) && q != k@ {
                    let i = before.slot(q);
                    assert(now.keys@[if i < a { i } else { i - 1 }]@ == q);
                }
                if now@.contains_key(q) {
                    let i = now.slot(q);
                    let j = if i < a { i } else { i + 1 };
                    assert(before.keys@[j]@ == q);
                    before.lemma_at(j);
                }
            }
            assert forall|q: K::V| now@.contains_key(q) implies now@[q] == before@.remove(k@)[q] by {
                let i = now.slot(q);
                now.lemma_at(i);
                let j = if i < a { i } else { i + 1 };
                before.lemma_at(j);
                assert(before.keys@[j]@ == q);
            }
            assert(now@ =~= before@.remove(k@));
        }
        Some(v)
    }

    /// Number of bindings.
    pub fn len(&self) -> (r: usize)
        ensures
            self@.dom().finite(),
            r == self@.dom().len(),
    {
        proof {
            use_type_invariant(self);
            let ks = Seq::new(self.keys@.len(), |i: int| self.keys@[i]@);
            assert(ks.no_duplicates());
            ks.unique_seq_to_set();
            assert(self@.dom() =~= ks.to_set()) by {
                assert forall|q: K::V| self@.contains_key(q) implies ks.to_set().contains(q) by {
                    assert(ks[self.slot(q)] == q);
                }
                assert forall|q: K::V| ks.to_set().contains(q) implies self@.contains_key(q) by {
                    let i = choose|i: int| 0 <= i < ks.len() && ks[i] == q;
                    assert(self.keys@[i]@ == q);
                }
            }
        }
        self.keys.len()
    }

    /// All keys, each once, in no particular order.
    pub fn keys(&self) -> (r: Vec<K>)
        ensures
            forall|k: K::V| self@.contains_key(k) <==> (exists|i: int|
                0 <= i < r@.len() && (#[trigger] r@[i])@ == k),
            forall|i: int, j: int|
                0 <= i < j < r@.len() ==> (#[trigger] r@[i])@ != (#[trigger] r@[j])@,
    {
        proof {
            use_type_invariant(self);
        }
        let mut out: Vec<K> = Vec::new();
        let mut i: usize = 0;
        while i < self.keys.len()
            invariant
                i <= self.keys@.len(),
                out@.len() == i,
                forall|j: int| 0 <= j < i ==> #[trigger] out@[j]@ == self.keys@[j]@,
            decreases self.keys@.len() - i,
        {
            out.push(self.keys[i].dup());
            i = i + 1;
        }
        proof {
            assert forall|k: K::V| self@.contains_key(k) implies exists|i: int|
                0 <= i < out@.len() && (#[trigger] out@[i])@ == k by {
                assert(out@[self.slot(k)]@ == k);
            }
            assert forall|k: K::V|
                (exists|i: int| 0 <= i < out@.len() && (#[trigger] out@[i])@ == k) implies self@.contains_key(
            k) by {
                let i = choose|i: int| 0 <= i < out@.len() && (#[trigger] out@[i])@ == k;
                assert(self.keys@[i]@ == k);
            }
        }
        out
    }
}

impl<K: Key, V: View> Table<K, V> {
    /// Removes the entries that fail the test.
    pub fn retain<P: Keep<K, V>>(&mut self, test: &P)
        ensures
            final(self)@ == kept(old(self)@, |k: K::V, v: V::V| test.stays(k, v)),
    {
        let ks = self.keys();
        let ghost before = self@;
        let ghost want = kept(before, |k: K::V, v: V::V| test.stays(k, v));
        let mut i: usize = 0;
        while i < ks.len()
            invariant
                i <= ks@.len(),
                want == kept(before, |k: K::V, v: V::V| test.stays(k, v)),
                forall|k: K::V|
                    before.contains_key(k) <==> (exists|j: int| 0 <= j < ks@.len() && (#[trigger] ks@[j])@ == k),
                forall|a: int, b: int|
                    0 <= a < b < ks@.len() ==> (#[trigger] ks@[a])@ != (#[trigger] ks@[b])@,
                forall|k: K::V| #[trigger]
                    self@.contains_key(k) ==> before.contains_key(k) && self@[k] == before[k],
                forall|j: int|
                    0 <= j < i ==> (self@.contains_key((#[trigger] ks@[j])@) <==> test.stays(
                        ks@[j]@,
                        before[ks@[j]@],
                    )),
                forall|j: int| i <= j < ks@.len() ==> self@.contains_key((#[trigger] ks@[j])@),
            decreases ks@.len() - i,
        {
            let stay: bool = match self.get(&ks[i]) {
                Some(v) => test.keep(&ks[i], v),
                None => true,
            };
            assert(self@.contains_key(ks@[i as int]@));
            if !stay {
                let _ = self.remove(&ks[i]);
            }
            i = i + 1;
        }
        proof {
            assert forall|k: K::V| self@.contains_key(k) <==> want.contains_key(k) by {
                if before.contains_key(k) {
                    let j = choose|j: int| 0 <= j < ks@.len() && (#[trigger] ks@[j])@ == k;
                    assert(ks@[j]@ == k);
                }
            }
            assert(self@ =~= want);
        }
    }

    /// Applies the change to every value.
    pub fn update_all<C: Change<V>>(&mut self, change: &C)
        requires
            forall|k: K::V| #[trigger] old(self)@.contains_key(k) ==> change.applies(old(self)@[k]),
        ensures
            final(self)@ == old(self)@.map_values(|v: V::V| change.changed(v)),
            forall|k: K::V| #[trigger] final(self)@.contains_key(k) ==> change.applies(final(self)@[k]),
    {
        let ks = self.keys();
        let ghost before = self@;
        let mut i: usize = 0;
        while i < ks.len()
            invariant
                i <= ks@.len(),
                forall|k: K::V| #[trigger] before.contains_key(k) ==> change.applies(before[k]),
                forall|k: K::V|
                    before.contains_key(k) <==> (exists|j: int| 0 <= j < ks@.len() && (#[trigger] ks@[j])@ == k),
                forall|a: int, b: int|
                    0 <= a < b < ks@.len() ==> (#[trigger] ks@[a])@ != (#[trigger] ks@[b])@,
                self@.dom() == before.dom(),
                forall|k: K::V| #[trigger] self@.contains_key(k) ==> change.applies(self@[k]),
                forall|j: int|
                    0 <= j < i ==> self@[(#[trigger] ks@[j])@] == change.changed(before[ks@[j]@]),
                forall|j: int| i <= j < ks@.len() ==> self@[(#[trigger] ks@[j])@] == before[ks@[j]@],
            decreases ks@.len() - i,
        {
            assert(before.contains_key(ks@[i as int]@));
            assert(self@.contains_key(ks@[i as int]@));
            if let Some(v) = self.get_mut(&ks[i]) {
                change.change(v);
            }
            assert(self@.dom() =~= before.dom());
            i = i + 1;
        }
        proof {
            let want = before.map_values(|v: V::V| change.changed(v));
            assert forall|k: K::V| before.contains_key(k) implies self@[k] == want[k] by {
                let j = choose|j: int| 0 <= j < ks@.len() && (#[trigger] ks@[j])@ == k;
                assert(ks@[j]@ == k);
            }
            assert(self@ =~= want);
        }
    }
}

/// Moves the contents out of `t`, leaving it empty.
fn take_apart<K: Key, V: View>(t: &mut Table<K, V>) -> (r: (Vec<K>, Vec<V>))
    ensures
        r.0@ == old(t).keys@,
        r.1@ == old(t).vals@,
{
    let mut spare: Table<K, V> = Table { keys: Vec::new(), vals: Vec::new() };
    core::mem::swap(t, &mut spare);
    let Table { keys, vals } = spare;
    (keys, vals)
}

/// Set of keys, each at most once.
pub struct KeySet<K: Key> {
    items: Vec<K>,
}

impl<K: Key> View for KeySet<K> {
    type V = Set<K::V>;

    closed spec fn view(&self) -> Set<K::V> {
        Set::new(|k: K::V| exists|i: int| 0 <= i < self.items@.len() && #[trigger] self.items@[i]@ == k)
    }
}

impl<K: Key> KeySet<K> {
    #[verifier::type_invariant]
    spec fn distinct(self) -> bool {
        forall|i: int, j: int|
            0 <= i < j < self.items@.len() ==> #[trigger] self.items@[i]@ != #[trigger] self.items@[j]@
    }

    pub fn new() -> (r: Self)
        ensures
            r@ == Set::<K::V>::empty(),
    {
        let r = KeySet { items: Vec::new() };
        assert(r@ =~= Set::<K::V>::empty());
        r
    }

    /// Moves the members out, leaving the set empty.
    fn take_items(&mut self) -> (r: Vec<K>)
        ensures
            r@ == old(self).items@,
    {
        let mut spare: KeySet<K> = KeySet { items: Vec::new() };
        core::mem::swap(self, &mut spare);
        let KeySet { items } = spare;
        items
    }

    pub fn contains(&self, k: &K) -> (r: bool)
        ensures
            r == self@.contains(k@),
    {
        let mut i: usize = 0;
        while i < self.items.len()
            invariant
                i <= self.items@.len(),
                forall|j: int| 0 <= j < i ==> #[trigger] self.items@[j]@ != k@,
            decreases self.items@.len() - i,
        {
            if self.items[i].same(k) {
                return true;
            }
            i = i + 1;
        }
        false
    }

    /// Adds `k`; the result tells whether it was absent before.
    pub fn insert(&mut self, k: K) -> (r: bool)
        ensures
            final(self)@ == old(self)@.insert(k@),
            r == !old(self)@.contains(k@),
    {
        if self.contains(&k) {
            assert(self@ =~= old(self)@.insert(k@));
            false
        } else {
            let ghost n = self.items@.len() as int;
            let ghost before = *self;
            proof {
                use_type_invariant(&*self);
            }
            let mut items = self.take_items();
            items.push(k);
            *self = KeySet { items };
            proof {
                assert(self.items@[n]@ == k@);
                assert forall|q: K::V| self@.contains(q) <==> before@.insert(k@).contains(q) by {
                    if before@.contains(q) {
                        let i = choose|i: int|
                            0 <= i < before.items@.len() && #[trigger] before.items@[i]@ == q;
                        assert(self.items@[i]@ == q);
                    }
                    if self@.contains(q) {
                        let i = choose|i: int|
                            0 <= i < self.items@.len() && #[trigger] self.items@[i]@ == q;
                        if i < n {
                            assert(before.items@[i]@ == q);
                        }
                    }
                }
                assert(self@ =~= before@.insert(k@));
            }
            true
        }
    }

    /// Removes `k`; the result tells whether it was present before.
    pub fn remove(&mut self, k: &K) -> (r: bool)
        ensures
            final(self)@ == old(self)@.remove(k@),
            r == old(self)@.contains(k@),
    {
        proof {
            use_type_invariant(&*self);
        }
        let found = self.contains(k);
        let mut rest: Vec<K> = Vec::new();
        let mut i: usize = 0;
        while i < self.items.len()
            invariant
                i <= self.items@.len(),
                self.distinct(),
                forall|a: int, b: int|
                    0 <= a < b < rest@.len() ==> #[trigger] rest@[a]@ != #[trigger] rest@[b]@,
                forall|j: int| 0 <= j < rest@.len() ==> (#[trigger] rest@[j])@ != k@,
                forall|j: int|
                    0 <= j < rest@.len() ==> exists|p: int|
                        0 <= p < i && #[trigger] self.items@[p]@ == (#[trigger] rest@[j])@,
                forall|p: int|
                    0 <= p < i && #[trigger] self.items@[p]@ != k@ ==> exists|j: int|
                        0 <= j < rest@.len() && #[trigger] rest@[j]@ == self.items@[p]@,
            decreases self.items@.len() - i,
        {
            if !self.items[i].same(k) {
                let ghost before = rest@;
                rest.push(self.items[i].dup());
                proof {
                    assert forall|p: int| 0 <= p < i + 1 && #[trigger] self.items@[p]@ != k@ implies exists|
                        j: int,
                    |
                        0 <= j < rest@.len() && #[trigger] rest@[j]@ == self.items@[p]@ by {
                        if p == i {
                            assert(rest@[before.len() as int]@ == self.items@[p]@);
                        } else {
                            let j = choose|j: int|
                                0 <= j < before.len() && #[trigger] before[j]@ == self.items@[p]@;
                            assert(rest@[j]@ == self.items@[p]@);
                        }
                    }
                    assert forall|j: int| 0 <= j < rest@.len() implies exists|p: int|
                        0 <= p < i + 1 && #[trigger] self.items@[p]@ == (#[trigger] rest@[j])@ by {
                        if j == before.len() {
                            assert(self.items@[i as int]@ == rest@[j]@);
                        } else {
                            assert(rest@[j] == before[j]);
                        }
                    }
                }
            }
            i = i + 1;
        }
        let ghost before = *self;
        *self = KeySet { items: rest };
        proof {
            assert forall|q: K::V| self@.contains(q) <==> before@.remove(k@).contains(q) by {
                if self@.contains(q) {
                    let j = choose|j: int| 0 <= j < self.items@.len() && #[trigger] self.items@[j]@ == q;
                    assert(rest@[j]@ == q);
                }
                if before@.contains(q) && q != k@ {
                    let p = choose|p: int|
                        0 <= p < before.items@.len() && #[trigger] before.items@[p]@ == q;
                    assert(before.items@[p]@ != k@);
                }
            }
            assert(self@ =~= before@.remove(k@));
        }
        found
    }

    /// Every member once, in no particular order.
    pub fn items(&self) -> (r: &Vec<K>)
        ensures
            forall|k: K::V| self@.contains(k) <==> (exists|i: int|
                0 <= i < r@.len() && (#[trigger] r@[i])@ == k),
            forall|i: int, j: int|
                0 <= i < j < r@.len() ==> (#[trigger] r@[i])@ != (#[trigger] r@[j])@,
    {
        proof {
            use_type_invariant(self);
        }
        &self.items
    }

    pub fn clone(&self) -> (r: Self)
        ensures
            r@ == self@,
    {
        proof {
            use_type_invariant(self);
        }
        let mut items: Vec<K> = Vec::new();
        let mut i: usize = 0;
        while i < self.items.len()
            invariant
                i <= self.items@.len(),
                items@.len() == i,
                forall|j: int| 0 <= j < i ==> #[trigger] items@[j]@ == self.items@[j]@,
            decreases self.items@.len() - i,
        {
            items.push(self.items[i].dup());
            i = i + 1;
        }
        let r = KeySet { items };
        proof {
            assert forall|q: K::V| r@.contains(q) <==> self@.contains(q) by {
                if self@.contains(q) {
                    let j = choose|j: int| 0 <= j < self.items@.len() && #[trigger] self.items@[j]@ == q;
                    assert(r.items@[j]@ == q);
                }
                if r@.contains(q) {
                    let j = choose|j: int| 0 <= j < r.items@.len() && #[trigger] r.items@[j]@ == q;
                    assert(self.items@[j]@ == q);
                }
            }
            assert(r@ =~= self@);
        }
        r
    }
}

} // verus!
